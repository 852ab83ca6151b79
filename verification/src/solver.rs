//! The solver: cell-validity checking, empty-cell enumeration, the recursive
//! randomized backtracking search, and puzzle generation.

use vstd::prelude::*;
use crate::model::{
    can_place, cell, completes, count_zeros, covers_empties, grid_wf, in_range,
    lemma_all_empty_solvable, lemma_clear_keeps_completes, lemma_clear_keeps_no_conflicts,
    lemma_completes_after_place, lemma_completes_solved, lemma_completes_to_placed,
    lemma_completion_digit_placeable, lemma_count_zeros_clear, lemma_covers_after_place,
    lemma_full_count_zeros, lemma_grid_view, lemma_unplace, lemma_update_cell, no_conflicts,
    row_major, solvable, update_cell, Board,
};
use crate::puzzle::Puzzle;
use crate::randomness::{random_below, seeded_rng, shuffle, RandomSource};

verus! {

/// Checks if placing `num` in the cell at (`row`, `col`) would conflict with
/// no cell of that row, that column, or the surrounding 3x3 box.
#[verifier::loop_isolation(false)]
pub fn is_valid(grid: &Vec<Vec<u8>>, row: usize, col: usize, num: u8) -> (r: bool)
    requires
        grid_wf(grid.deep_view()),
        row < 9,
        col < 9,
    ensures
        r == can_place(grid.deep_view(), row as int, col as int, num),
{
    let ghost g = grid.deep_view();
    proof {
        lemma_grid_view(*grid);
    }

    // Check row
    let mut j: usize = 0;
    while j < 9
        invariant
            j <= 9,
            forall|jj: int| 0 <= jj < j ==> #[trigger] cell(g, row as int, jj) != num,
        decreases 9 - j,
    {
        if grid[row][j] == num {
            assert(cell(g, row as int, j as int) == num);
            return false;
        }
        j += 1;
    }

    // Check column
    let mut i: usize = 0;
    while i < 9
        invariant
            i <= 9,
            forall|ii: int| 0 <= ii < i ==> #[trigger] cell(g, ii, col as int) != num,
        decreases 9 - i,
    {
        if grid[i][col] == num {
            assert(cell(g, i as int, col as int) == num);
            return false;
        }
        i += 1;
    }

    // Check 3x3 subgrid
    let box_row: usize = row / 3 * 3;
    let box_col: usize = col / 3 * 3;
    let mut bi: usize = 0;
    while bi < 3
        invariant
            bi <= 3,
            forall|ii: int, jj: int|
                0 <= ii < bi && 0 <= jj < 3 ==> #[trigger] cell(
                    g,
                    row as int / 3 * 3 + ii,
                    col as int / 3 * 3 + jj,
                ) != num,
        decreases 3 - bi,
    {
        let mut bj: usize = 0;
        while bj < 3
            invariant
                bj <= 3,
                forall|jj: int|
                    0 <= jj < bj ==> #[trigger] cell(
                        g,
                        row as int / 3 * 3 + bi as int,
                        col as int / 3 * 3 + jj,
                    ) != num,
            decreases 3 - bj,
        {
            if grid[box_row + bi][box_col + bj] == num {
                assert(cell(g, box_row as int + bi as int, box_col as int + bj as int) == num);
                return false;
            }
            bj += 1;
        }
        bi += 1;
    }

    true
}

/// Finds the coordinates of all empty cells, scanning the grid in row-major
/// order.
#[verifier::loop_isolation(false)]
pub fn find_empty_cells(grid: &Vec<Vec<u8>>) -> (cells: Vec<(usize, usize)>)
    requires
        grid_wf(grid.deep_view()),
    ensures
        covers_empties(grid.deep_view(), cells@, 0),
        row_major(cells@),
{
    let ghost g = grid.deep_view();
    proof {
        lemma_grid_view(*grid);
    }
    let mut cells: Vec<(usize, usize)> = Vec::new();
    let mut i: usize = 0;
    while i < 9
        invariant
            i <= 9,
            forall|k: int|
                0 <= k < cells@.len() ==> in_range(
                    (#[trigger] cells@[k]).0 as int,
                    cells@[k].1 as int,
                ),
            forall|k: int|
                0 <= k < cells@.len() ==> (#[trigger] cells@[k]).0 < i,
            forall|k: int|
                0 <= k < cells@.len() ==> cell(
                    g,
                    (#[trigger] cells@[k]).0 as int,
                    cells@[k].1 as int,
                ) == 0,
            forall|r: int, c: int|
                0 <= r < i && 0 <= c < 9 && #[trigger] cell(g, r, c) == 0 ==> exists|k: int|
                    0 <= k < cells@.len() && #[trigger] cells@[k] == (r as usize, c as usize),
            row_major(cells@),
        decreases 9 - i,
    {
        let mut j: usize = 0;
        while j < 9
            invariant
                j <= 9,
                i < 9,
                forall|k: int|
                    0 <= k < cells@.len() ==> in_range(
                        (#[trigger] cells@[k]).0 as int,
                        cells@[k].1 as int,
                    ),
                forall|k: int|
                    0 <= k < cells@.len() ==> ((#[trigger] cells@[k]).0 < i || (cells@[k].0 == i
                        && cells@[k].1 < j)),
                forall|k: int|
                    0 <= k < cells@.len() ==> cell(
                        g,
                        (#[trigger] cells@[k]).0 as int,
                        cells@[k].1 as int,
                    ) == 0,
                forall|r: int, c: int|
                    0 <= r < 9 && 0 <= c < 9 && (r < i || (r == i && c < j)) && #[trigger] cell(
                        g,
                        r,
                        c,
                    ) == 0 ==> exists|k: int|
                        0 <= k < cells@.len() && #[trigger] cells@[k] == (r as usize, c as usize),
                row_major(cells@),
            decreases 9 - j,
        {
            if grid[i][j] == 0 {
                assert(cell(g, i as int, j as int) == 0);
                let ghost before = cells@;
                cells.push((i, j));
                assert(cells@ == before.push((i, j)));
                assert forall|r: int, c: int|
                    0 <= r < 9 && 0 <= c < 9 && (r < i || (r == i && c < j + 1)) && #[trigger] cell(
                        g,
                        r,
                        c,
                    ) == 0 implies exists|k: int|
                    0 <= k < cells@.len() && #[trigger] cells@[k] == (
                    r as usize,
                    c as usize,
                ) by {
                    if r == i && c == j {
                        assert(cells@[cells@.len() - 1] == (i, j));
                    } else {
                        let k = choose|k: int|
                            0 <= k < before.len() && #[trigger] before[k] == (
                            r as usize,
                            c as usize,
                        );
                        assert(cells@[k] == (r as usize, c as usize));
                    }
                }
            }
            j += 1;
        }
        i += 1;
    }
    proof {
        assert forall|k1: int, k2: int|
            0 <= k1 < k2 < cells@.len() implies #[trigger] cells@[k1] != #[trigger] cells@[k2] by {
            assert(row_major(cells@));
        }
        assert forall|r: int, c: int|
            in_range(r, c) && #[trigger] cell(g, r, c) == 0 implies exists|k: int|
            0 <= k < cells@.len() && #[trigger] cells@[k] == (r as usize, c as usize) by {}
    }
    cells
}

/// Writes a value into one cell of the grid.
fn set_cell(grid: &mut Vec<Vec<u8>>, row: usize, col: usize, val: u8)
    requires
        grid_wf(old(grid).deep_view()),
        row < 9,
        col < 9,
    ensures
        final(grid).deep_view() == update_cell(old(grid).deep_view(), row as int, col as int, val),
{
    let ghost g0 = grid.deep_view();
    proof {
        lemma_grid_view(*grid);
        lemma_update_cell(g0, row as int, col as int, val);
    }
    grid[row][col] = val;
    proof {
        lemma_grid_view(*grid);
        let g2 = update_cell(g0, row as int, col as int, val);
        assert forall|r2: int| 0 <= r2 < 9 implies #[trigger] grid.deep_view()[r2] =~= g2[r2] by {
            assert(grid.deep_view()[r2] == grid@[r2].deep_view());
            if r2 == row {
                assert(grid@[r2]@ == old(grid)@[r2]@.update(col as int, val));
                assert forall|c2: int| 0 <= c2 < 9 implies grid@[r2].deep_view()[c2] == g2[r2][c2] by {
                    assert(grid@[r2].deep_view()[c2] == grid@[r2]@[c2]);
                    if c2 == col {
                        assert(cell(g2, r2, c2) == val);
                    } else {
                        assert(cell(g2, r2, c2) == cell(g0, r2, c2));
                        assert(cell(g0, r2, c2) == old(grid)@[r2]@[c2]);
                    }
                }
            } else {
                assert(grid@[r2] == old(grid)@[r2]);
                assert(g2[r2] == g0[r2]);
            }
        }
        assert(grid.deep_view() =~~= g2);
    }
}

/// Builds the nine digits 1..=9 in a random order drawn from the given source.
#[verifier::loop_isolation(false)]
fn shuffled_digits(src: &mut RandomSource) -> (nums: Vec<u8>)
    ensures
        nums@.len() == 9,
        forall|d: u8| 1 <= d <= 9 ==> nums@.contains(d),
        forall|k: int| 0 <= k < 9 ==> 1 <= #[trigger] nums@[k] <= 9,
{
    let mut nums: Vec<u8> = Vec::new();
    let mut d: u8 = 1;
    while d <= 9
        invariant
            1 <= d <= 10,
            nums@.len() == d as int - 1,
            forall|k: int| 0 <= k < nums@.len() ==> #[trigger] nums@[k] as int == k + 1,
        decreases 10 - d,
    {
        nums.push(d);
        d += 1;
    }
    let ghost before = nums@;
    shuffle(&mut nums, src);
    proof {
        broadcast use vstd::seq_lib::group_to_multiset_ensures;

        assert(nums@.len() == nums@.to_multiset().len());
        assert(before.len() == before.to_multiset().len());
        assert forall|dd: u8| 1 <= dd <= 9 implies nums@.contains(dd) by {
            assert(before[dd as int - 1] == dd);
            assert(before.contains(dd));
            assert(before.to_multiset().count(dd) > 0);
            assert(nums@.to_multiset().count(dd) > 0);
        }
        assert forall|k: int| 0 <= k < 9 implies 1 <= #[trigger] nums@[k] <= 9 by {
            let v = nums@[k];
            assert(nums@.contains(v));
            assert(nums@.to_multiset().count(v) > 0);
            assert(before.to_multiset().count(v) > 0);
            assert(before.contains(v));
            let idx = choose|idx: int| 0 <= idx < before.len() && before[idx] == v;
            assert(before[idx] as int == idx + 1);
        }
    }
    nums
}

/// Extends "no completion of g0 places one of the first t candidates at
/// (row, col)" by one more candidate, once that candidate has itself been
/// ruled out.
proof fn lemma_digit_ruled_out(g0: Board, nums: Seq<u8>, t: int, row: int, col: int)
    requires
        0 <= t < nums.len(),
        forall|s: Board|
            #[trigger] completes(g0, s) ==> !nums.subrange(0, t).contains(cell(s, row, col)),
        forall|s: Board| #[trigger] completes(g0, s) ==> cell(s, row, col) != nums[t],
    ensures
        forall|s: Board|
            #[trigger] completes(g0, s) ==> !nums.subrange(0, t + 1).contains(cell(s, row, col)),
{
    assert forall|s: Board| #[trigger] completes(g0, s) implies !nums.subrange(0, t + 1).contains(
        cell(s, row, col),
    ) by {
        let v = cell(s, row, col);
        assert(!nums.subrange(0, t).contains(v));
        assert(nums.subrange(0, t + 1) =~= nums.subrange(0, t).push(nums[t]));
        if nums.subrange(0, t + 1).contains(v) {
            let k = choose|k: int| 0 <= k < t + 1 && #[trigger] nums.subrange(0, t + 1)[k] == v;
            if k < t {
                assert(nums.subrange(0, t)[k] == v);
                assert(nums.subrange(0, t).contains(v));
            }
            assert(false);
        }
    }
}

/// The backtracking core: fills the cells listed from index i on, trying the
/// digits in a fresh random order at each cell, undoing a placement whenever
/// the rest cannot be filled.  Succeeds exactly when the listed cells can be
/// legally filled, and restores the grid unchanged on failure.
#[verifier::loop_isolation(false)]
fn solve_from(
    grid: &mut Vec<Vec<u8>>,
    cells: &Vec<(usize, usize)>,
    i: usize,
    src: &mut RandomSource,
) -> (ok: bool)
    requires
        grid_wf(old(grid).deep_view()),
        i <= cells@.len(),
        covers_empties(old(grid).deep_view(), cells@, i as int),
    ensures
        ok ==> completes(old(grid).deep_view(), final(grid).deep_view()),
        !ok ==> final(grid).deep_view() == old(grid).deep_view(),
        solvable(old(grid).deep_view()) ==> ok,
    decreases cells@.len() - i,
{
    let ghost g0 = grid.deep_view();
    if i == cells.len() {
        proof {
            assert forall|r: int, c: int| in_range(r, c) implies #[trigger] cell(g0, r, c)
                != 0 by {
                if cell(g0, r, c) == 0 {
                    let k = choose|k: int|
                        i <= k < cells@.len() && #[trigger] cells@[k] == (r as usize, c as usize);
                    assert(false);
                }
            }
            assert(completes(g0, g0));
        }
        return true;
    }

    let rc: (usize, usize) = cells[i];
    let row: usize = rc.0;
    let col: usize = rc.1;
    proof {
        assert(cells@[i as int].0 < 9 && cells@[i as int].1 < 9);
        assert(cell(g0, row as int, col as int) == 0);
    }

    let nums = shuffled_digits(src);

    let mut t: usize = 0;
    while t < 9
        invariant
            t <= 9,
            grid.deep_view() == g0,
            forall|s: Board|
                #[trigger] completes(g0, s) ==> !nums@.subrange(0, t as int).contains(
                    cell(s, row as int, col as int),
                ),
        decreases 9 - t,
    {
        let num = nums[t];
        if is_valid(grid, row, col, num) {
            set_cell(grid, row, col, num);
            let ghost g1 = grid.deep_view();
            proof {
                lemma_update_cell(g0, row as int, col as int, num);
                lemma_covers_after_place(g0, cells@, i as int, num);
            }
            if solve_from(grid, cells, i + 1, src) {
                proof {
                    lemma_completes_after_place(
                        g0,
                        row as int,
                        col as int,
                        num,
                        grid.deep_view(),
                    );
                }
                return true;
            }
            set_cell(grid, row, col, 0);
            proof {
                lemma_unplace(g0, row as int, col as int, num);
                assert(grid.deep_view() == g0);
                // The recursion failed, so no completion puts num here: one
                // that did would also complete the grid with num placed.
                assert forall|s: Board| #[trigger] completes(g0, s) implies cell(
                    s,
                    row as int,
                    col as int,
                ) != num by {
                    if cell(s, row as int, col as int) == num {
                        lemma_completes_to_placed(g0, row as int, col as int, s);
                        assert(completes(g1, s));
                        assert(solvable(g1));
                    }
                }
                lemma_digit_ruled_out(g0, nums@, t as int, row as int, col as int);
            }
        } else {
            proof {
                // num conflicts with a filled cell, so no completion puts it
                // here: a completion's digit is always placeable.
                assert forall|s: Board| #[trigger] completes(g0, s) implies cell(
                    s,
                    row as int,
                    col as int,
                ) != num by {
                    if cell(s, row as int, col as int) == num {
                        lemma_completion_digit_placeable(g0, s, row as int, col as int);
                        assert(can_place(g0, row as int, col as int, num));
                    }
                }
                lemma_digit_ruled_out(g0, nums@, t as int, row as int, col as int);
            }
        }
        t += 1;
    }

    proof {
        if solvable(g0) {
            let s = choose|s: Board| completes(g0, s);
            let v = cell(s, row as int, col as int);
            assert(1 <= v <= 9);
            assert(nums@.contains(v));
            assert(nums@.subrange(0, 9) =~= nums@);
            assert(!nums@.subrange(0, 9).contains(v));
            assert(false);
        }
    }
    false
}

/// Solves the grid in place, backtracking over its empty cells with the given
/// randomness source.
fn solve_sudoku_with(grid: &mut Vec<Vec<u8>>, src: &mut RandomSource) -> (solved: bool)
    requires
        grid_wf(old(grid).deep_view()),
    ensures
        solved == solvable(old(grid).deep_view()),
        solved ==> completes(old(grid).deep_view(), final(grid).deep_view()),
        !solved ==> final(grid).deep_view() == old(grid).deep_view(),
{
    let ghost g0 = grid.deep_view();
    let empty_cells = find_empty_cells(grid);
    let ok = solve_from(grid, &empty_cells, 0, src);
    proof {
        if ok {
            assert(completes(g0, grid.deep_view()));
            assert(solvable(g0));
        }
    }
    ok
}

/// Solves the Sudoku grid in place using the backtracking algorithm, with a
/// fresh random candidate order at every cell.  Returns true exactly when
/// the grid has a legal completion; on success the grid holds one, on
/// failure it is left unchanged.
pub fn solve_sudoku(grid: &mut Vec<Vec<u8>>) -> (solved: bool)
    requires
        grid_wf(old(grid).deep_view()),
    ensures
        solved == solvable(old(grid).deep_view()),
        solved ==> completes(old(grid).deep_view(), final(grid).deep_view()),
        !solved ==> final(grid).deep_view() == old(grid).deep_view(),
{
    let mut src = RandomSource::Entropy;
    solve_sudoku_with(grid, &mut src)
}

/// Solves the given Sudoku puzzle in place.  Returns true exactly when the
/// puzzle has a legal completion; on success the puzzle's grid holds one, on
/// failure every cell is left as it was, so all originally empty cells are
/// still 0.
pub fn solve(puzzle: &mut Puzzle) -> (solved: bool)
    requires
        grid_wf(old(puzzle)@),
    ensures
        solved == solvable(old(puzzle)@),
        solved ==> completes(old(puzzle)@, final(puzzle)@),
        !solved ==> final(puzzle)@ == old(puzzle)@,
{
    let grid = puzzle.grid_mut();
    solve_sudoku(grid)
}

/// Solves the puzzle as `solve` does, but draws every candidate order from a
/// generator seeded with `seed`: repeated runs with the same seed on the same
/// puzzle examine the same candidates in the same order and end in the same
/// completion.
pub fn solve_with_seed(puzzle: &mut Puzzle, seed: u64) -> (solved: bool)
    requires
        grid_wf(old(puzzle)@),
    ensures
        solved == solvable(old(puzzle)@),
        solved ==> completes(old(puzzle)@, final(puzzle)@),
        !solved ==> final(puzzle)@ == old(puzzle)@,
{
    let mut src = RandomSource::Seeded(seeded_rng(seed));
    let grid = puzzle.grid_mut();
    solve_sudoku_with(grid, &mut src)
}

/// Generates a random Sudoku puzzle: fully solves an all-zero grid (which
/// always succeeds, as an empty board is provably completable), then 40
/// times picks a cell uniformly at random and zeroes it.  A cell may be
/// drawn twice, so between 1 and 40 distinct cells end up empty.  The
/// resulting board is well-formed, free of conflicts, and solvable.
#[verifier::loop_isolation(false)]
pub fn generate_sudoku() -> (puzzle: Puzzle)
    ensures
        grid_wf(puzzle@),
        no_conflicts(puzzle@),
        solvable(puzzle@),
        1 <= count_zeros(puzzle@) <= 40,
{
    let mut grid: Vec<Vec<u8>> = Vec::new();
    let mut r: usize = 0;
    while r < 9
        invariant
            r <= 9,
            grid@.len() == r,
            forall|k: int| 0 <= k < r ==> (#[trigger] grid@[k])@.len() == 9,
            forall|k: int, c: int| 0 <= k < r && 0 <= c < 9 ==> #[trigger] grid@[k]@[c] == 0,
        decreases 9 - r,
    {
        let mut rowv: Vec<u8> = Vec::new();
        let mut c: usize = 0;
        while c < 9
            invariant
                c <= 9,
                rowv@.len() == c,
                forall|k: int| 0 <= k < c ==> #[trigger] rowv@[k] == 0,
            decreases 9 - c,
        {
            rowv.push(0);
            c += 1;
        }
        grid.push(rowv);
        r += 1;
    }
    proof {
        lemma_grid_view(grid);
        assert(grid_wf(grid.deep_view()));
        assert(no_conflicts(grid.deep_view()));
    }
    let ghost zero_grid = grid.deep_view();
    proof {
        lemma_all_empty_solvable(zero_grid);
    }
    let ok = solve_sudoku(&mut grid);
    let ghost full_grid = grid.deep_view();
    proof {
        assert(ok);
        lemma_completes_solved(zero_grid, full_grid);
        lemma_full_count_zeros(full_grid);
        assert(completes(full_grid, full_grid));
    }

    // Remove numbers to create the puzzle
    let mut k: usize = 0;
    while k < 40
        invariant
            k <= 40,
            grid_wf(grid.deep_view()),
            no_conflicts(grid.deep_view()),
            completes(grid.deep_view(), full_grid),
            count_zeros(grid.deep_view()) <= k as int,
            k >= 1 ==> count_zeros(grid.deep_view()) >= 1,
        decreases 40 - k,
    {
        let row: usize = random_below(9);
        let col: usize = random_below(9);
        let ghost gc = grid.deep_view();
        set_cell(&mut grid, row, col, 0);
        proof {
            lemma_clear_keeps_no_conflicts(gc, row as int, col as int);
            lemma_update_cell(gc, row as int, col as int, 0);
            lemma_clear_keeps_completes(gc, full_grid, row as int, col as int);
            lemma_count_zeros_clear(gc, row as int, col as int);
        }
        k += 1;
    }
    proof {
        assert(solvable(grid.deep_view()));
    }
    Puzzle::new(grid)
}

} // verus!
