use suko_solver::puzzle::Puzzle;
use suko_solver::solver::{find_empty_cells, generate_sudoku, is_valid, solve, solve_with_seed};

fn canonical_grid() -> Vec<Vec<u8>> {
    vec![
        vec![5, 3, 0, 0, 7, 0, 0, 0, 0],
        vec![6, 0, 0, 1, 9, 5, 0, 0, 0],
        vec![0, 9, 8, 0, 0, 0, 0, 6, 0],
        vec![8, 0, 0, 0, 6, 0, 0, 0, 3],
        vec![4, 0, 0, 8, 0, 3, 0, 0, 1],
        vec![7, 0, 0, 0, 2, 0, 0, 0, 6],
        vec![0, 6, 0, 0, 0, 0, 2, 8, 0],
        vec![0, 0, 0, 4, 1, 9, 0, 0, 5],
        vec![0, 0, 0, 0, 8, 0, 0, 7, 9],
    ]
}

/// Checks that every row, column and 3x3 box of a fully filled grid holds
/// each of the digits 1..=9 exactly once.
fn assert_fully_solved(grid: &Vec<Vec<u8>>) {
    assert_eq!(grid.len(), 9);
    for r in 0..9 {
        assert_eq!(grid[r].len(), 9);
        let mut seen = [false; 10];
        for c in 0..9 {
            let v = grid[r][c] as usize;
            assert!((1..=9).contains(&v), "cell ({r}, {c}) out of range");
            assert!(!seen[v], "digit {v} twice in row {r}");
            seen[v] = true;
        }
    }
    for c in 0..9 {
        let mut seen = [false; 10];
        for r in 0..9 {
            let v = grid[r][c] as usize;
            assert!(!seen[v], "digit {v} twice in column {c}");
            seen[v] = true;
        }
    }
    for br in 0..3 {
        for bc in 0..3 {
            let mut seen = [false; 10];
            for i in 0..3 {
                for j in 0..3 {
                    let v = grid[3 * br + i][3 * bc + j] as usize;
                    assert!(!seen[v], "digit {v} twice in box ({br}, {bc})");
                    seen[v] = true;
                }
            }
        }
    }
}

#[test]
fn test_solve() {
    let mut puzzle = Puzzle::new(vec![
        vec![5, 3, 0, 0, 7, 0, 0, 0, 0],
        vec![6, 0, 0, 1, 9, 5, 0, 0, 0],
        vec![0, 9, 8, 0, 0, 0, 0, 6, 0],
        vec![8, 0, 0, 0, 6, 0, 0, 0, 3],
        vec![4, 0, 0, 8, 0, 3, 0, 0, 1],
        vec![7, 0, 0, 0, 2, 0, 0, 0, 6],
        vec![0, 6, 0, 0, 0, 0, 2, 8, 0],
        vec![0, 0, 0, 4, 1, 9, 0, 0, 5],
        vec![0, 0, 0, 0, 8, 0, 0, 7, 9],
    ]);

    assert!(solve(&mut puzzle));
}

#[test]
fn test_generate_sudoku() {
    let mut puzzle = generate_sudoku();
    let zeros = puzzle
        .grid_mut()
        .iter()
        .flatten()
        .filter(|&&cell| cell == 0)
        .count();
    // 40 cells are drawn for removal, with repeats allowed, so between 1 and
    // 40 distinct cells end up empty.
    assert!(zeros >= 1);
    assert!(zeros <= 40);
}

#[test]
fn test_is_valid() {
    let grid = canonical_grid();

    assert!(is_valid(&grid, 0, 2, 4));
    assert!(!is_valid(&grid, 0, 2, 5));
}

#[test]
fn test_find_empty_cells() {
    let grid = canonical_grid();

    let empty_cells = find_empty_cells(&grid);
    assert_eq!(empty_cells.len(), 51);
}

#[test]
fn test_generate_and_solve_sudoku() {
    let mut puzzle = generate_sudoku();

    println!("Generated Sudoku Puzzle:");

    let solved = solve(&mut puzzle);

    if solved {
        println!("Solved Sudoku Puzzle:");
    } else {
        println!("No solution exists for the given Sudoku puzzle.");
    }

    assert!(solved, "The generated Sudoku puzzle could not be solved.");
}

#[test]
fn test_find_empty_cells_row_major_order() {
    let grid = canonical_grid();
    let empty_cells = find_empty_cells(&grid);
    for w in empty_cells.windows(2) {
        let (a, b) = (w[0], w[1]);
        assert!(a.0 < b.0 || (a.0 == b.0 && a.1 < b.1), "not row-major: {a:?} then {b:?}");
    }
    for &(r, c) in &empty_cells {
        assert_eq!(grid[r][c], 0);
    }
}

#[test]
fn test_find_empty_cells_full_grid() {
    let mut grid = canonical_grid();
    for row in grid.iter_mut() {
        for cell in row.iter_mut() {
            if *cell == 0 {
                *cell = 1;
            }
        }
    }
    assert_eq!(find_empty_cells(&grid).len(), 0);
}

#[test]
fn test_solve_yields_valid_completion() {
    let clues = canonical_grid();
    let mut puzzle = Puzzle::new(canonical_grid());
    assert!(solve(&mut puzzle));
    let solved_grid = puzzle.grid_mut().clone();
    assert_fully_solved(&solved_grid);
    for r in 0..9 {
        for c in 0..9 {
            if clues[r][c] != 0 {
                assert_eq!(solved_grid[r][c], clues[r][c], "clue at ({r}, {c}) changed");
            }
        }
    }
}

#[test]
fn test_unsolvable_rollback() {
    // Row 0 already holds 1..=8 beside its one empty cell, and the 9 in the
    // cell below rules out the only remaining digit: no completion exists.
    let mut grid = vec![vec![0u8; 9]; 9];
    for c in 1..9 {
        grid[0][c] = c as u8;
    }
    grid[1][0] = 9;
    let before = grid.clone();

    let mut puzzle = Puzzle::new(grid);
    assert!(!solve(&mut puzzle));
    let after = puzzle.grid_mut().clone();
    assert_eq!(after, before, "a failed solve must leave the grid untouched");
    for r in 0..9 {
        for c in 0..9 {
            if before[r][c] == 0 {
                assert_eq!(after[r][c], 0);
            }
        }
    }
}

#[test]
fn test_solve_full_grid() {
    let mut puzzle = Puzzle::new(canonical_grid());
    assert!(solve(&mut puzzle));
    let solved_grid = puzzle.grid_mut().clone();
    let mut again = Puzzle::new(solved_grid.clone());
    // A fully filled grid has no empty cells, so solving succeeds at once and
    // changes nothing.
    assert!(solve(&mut again));
    assert_eq!(*again.grid_mut(), solved_grid);
}

#[test]
fn test_generate_gives_conflict_free_grid() {
    let mut puzzle = generate_sudoku();
    let grid = puzzle.grid_mut().clone();
    assert_eq!(grid.len(), 9);
    for r in 0..9 {
        assert_eq!(grid[r].len(), 9);
        for c in 0..9 {
            assert!(grid[r][c] <= 9);
        }
    }
    // No non-zero value may repeat within a row, a column, or a box.
    for r in 0..9 {
        for c in 0..9 {
            let v = grid[r][c];
            if v == 0 {
                continue;
            }
            for r2 in 0..9 {
                for c2 in 0..9 {
                    if (r, c) == (r2, c2) {
                        continue;
                    }
                    let same_unit = r == r2 || c == c2 || (r / 3 == r2 / 3 && c / 3 == c2 / 3);
                    if same_unit {
                        assert_ne!(v, grid[r2][c2], "conflict between ({r},{c}) and ({r2},{c2})");
                    }
                }
            }
        }
    }
}

#[test]
fn test_seeded_solve_deterministic() {
    let mut first = Puzzle::new(canonical_grid());
    let mut second = Puzzle::new(canonical_grid());
    assert!(solve_with_seed(&mut first, 42));
    assert!(solve_with_seed(&mut second, 42));
    assert_eq!(*first.grid_mut(), *second.grid_mut());
}

#[test]
fn test_seeded_solves_can_differ() {
    // From an empty grid many completions exist; different seeds shuffle the
    // candidates differently, so the completions come out different.
    let mut first = Puzzle::new(vec![vec![0u8; 9]; 9]);
    let mut second = Puzzle::new(vec![vec![0u8; 9]; 9]);
    assert!(solve_with_seed(&mut first, 1));
    assert!(solve_with_seed(&mut second, 2));
    assert_fully_solved(first.grid_mut());
    assert_fully_solved(second.grid_mut());
    assert_ne!(*first.grid_mut(), *second.grid_mut());
}

#[test]
fn test_is_valid_empty_grid() {
    let grid = vec![vec![0u8; 9]; 9];
    for num in 1..=9u8 {
        assert!(is_valid(&grid, 4, 4, num));
    }
}

#[test]
fn test_render_canonical_grid() {
    let puzzle = Puzzle::new(canonical_grid());
    let expected = "5 3 0 0 7 0 0 0 0 \n\
6 0 0 1 9 5 0 0 0 \n\
0 9 8 0 0 0 0 6 0 \n\
8 0 0 0 6 0 0 0 3 \n\
4 0 0 8 0 3 0 0 1 \n\
7 0 0 0 2 0 0 0 6 \n\
0 6 0 0 0 0 2 8 0 \n\
0 0 0 4 1 9 0 0 5 \n\
0 0 0 0 8 0 0 7 9 \n";
    assert_eq!(puzzle.render(), expected);
}
