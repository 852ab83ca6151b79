//! The mathematical model of a Sudoku board and the facts about it that the
//! solver's contracts are stated over.

use vstd::prelude::*;
use vstd::arithmetic::div_mod::{lemma_fundamental_div_mod, lemma_mod_bound};
use vstd::relations::injective_on;
use vstd::set_lib::{
    lemma_int_range, lemma_len_subset, lemma_map_size, lemma_subset_equality, set_int_range,
};

verus! {

/// A board is the mathematical view of a 9x9 grid: nine rows of nine cell
/// values each, 0 meaning empty and 1..=9 a placed digit.
pub type Board = Seq<Seq<u8>>;

/// (r, c) is a coordinate of the 9x9 board.
pub open spec fn in_range(r: int, c: int) -> bool {
    0 <= r < 9 && 0 <= c < 9
}

/// The value of the cell in row r, column c.
pub open spec fn cell(g: Board, r: int, c: int) -> u8 {
    g[r][c]
}

/// The board has nine rows of nine cells, every cell holding a value in [0, 9].
pub open spec fn grid_wf(g: Board) -> bool {
    &&& g.len() == 9
    &&& forall|r: int| 0 <= r < 9 ==> (#[trigger] g[r]).len() == 9
    &&& forall|r: int, c: int| in_range(r, c) ==> #[trigger] cell(g, r, c) <= 9
}

/// The two cells share a row, a column, or a 3x3 box.
pub open spec fn same_unit(r1: int, c1: int, r2: int, c2: int) -> bool {
    r1 == r2 || c1 == c2 || (r1 / 3 == r2 / 3 && c1 / 3 == c2 / 3)
}

/// num appears nowhere in row `row`, nowhere in column `col`, and nowhere in
/// the 3x3 box whose top-left corner is (row / 3 * 3, col / 3 * 3).
pub open spec fn can_place(g: Board, row: int, col: int, num: u8) -> bool {
    &&& forall|j: int| 0 <= j < 9 ==> #[trigger] cell(g, row, j) != num
    &&& forall|i: int| 0 <= i < 9 ==> #[trigger] cell(g, i, col) != num
    &&& forall|i: int, j: int|
        0 <= i < 3 && 0 <= j < 3 ==> #[trigger] cell(g, row / 3 * 3 + i, col / 3 * 3 + j) != num
}

/// No two distinct cells that share a row, a column or a box hold the same
/// non-zero value.
pub open spec fn no_conflicts(g: Board) -> bool {
    forall|r1: int, c1: int, r2: int, c2: int|
        in_range(r1, c1) && in_range(r2, c2) && !(r1 == r2 && c1 == c2) && same_unit(
            r1,
            c1,
            r2,
            c2,
        ) && #[trigger] cell(g, r1, c1) != 0 ==> cell(g, r1, c1) != #[trigger] cell(g, r2, c2)
}

/// Every cell holds a digit.
pub open spec fn full(g: Board) -> bool {
    forall|r: int, c: int| in_range(r, c) ==> #[trigger] cell(g, r, c) != 0
}

/// A completely and legally filled board.
pub open spec fn solved(g: Board) -> bool {
    grid_wf(g) && full(g) && no_conflicts(g)
}

/// s keeps every filled cell of g.
pub open spec fn extends(g: Board, s: Board) -> bool {
    forall|r: int, c: int|
        in_range(r, c) && #[trigger] cell(g, r, c) != 0 ==> cell(s, r, c) == cell(g, r, c)
}

/// s is a way to fill the empty cells of g: a well-formed full board that
/// keeps g's filled cells, in which no cell filled in by the solver agrees
/// with any other cell of its row, column or box.  Cells that were already
/// filled in g are not re-checked against each other.
pub open spec fn completes(g: Board, s: Board) -> bool {
    &&& grid_wf(s)
    &&& full(s)
    &&& extends(g, s)
    &&& forall|r1: int, c1: int, r2: int, c2: int|
        in_range(r1, c1) && in_range(r2, c2) && !(r1 == r2 && c1 == c2) && same_unit(
            r1,
            c1,
            r2,
            c2,
        ) && cell(g, r1, c1) == 0 ==> #[trigger] cell(s, r1, c1) != #[trigger] cell(s, r2, c2)
}

/// Some way to fill the empty cells of g exists.  The backtracking search
/// succeeds exactly on such boards.
pub open spec fn solvable(g: Board) -> bool {
    exists|s: Board| completes(g, s)
}

/// The board g with the cell in row r, column c set to v.
pub open spec fn update_cell(g: Board, r: int, c: int, v: u8) -> Board {
    g.update(r, g[r].update(c, v))
}

/// The list cs, from index i on, holds distinct in-range coordinates of cells
/// that are empty in g, and every empty cell of g appears among them.
pub open spec fn covers_empties(g: Board, cs: Seq<(usize, usize)>, i: int) -> bool {
    &&& forall|k: int|
        i <= k < cs.len() ==> in_range((#[trigger] cs[k]).0 as int, cs[k].1 as int)
    &&& forall|k: int|
        i <= k < cs.len() ==> cell(g, (#[trigger] cs[k]).0 as int, cs[k].1 as int) == 0
    &&& forall|k1: int, k2: int| i <= k1 < k2 < cs.len() ==> #[trigger] cs[k1] != #[trigger] cs[k2]
    &&& forall|r: int, c: int|
        in_range(r, c) && #[trigger] cell(g, r, c) == 0 ==> exists|k: int|
            i <= k < cs.len() && #[trigger] cs[k] == (r as usize, c as usize)
}

/// The character that renders a cell value.
pub open spec fn digit_char(v: u8) -> char {
    if v == 0 {
        '0'
    } else if v == 1 {
        '1'
    } else if v == 2 {
        '2'
    } else if v == 3 {
        '3'
    } else if v == 4 {
        '4'
    } else if v == 5 {
        '5'
    } else if v == 6 {
        '6'
    } else if v == 7 {
        '7'
    } else if v == 8 {
        '8'
    } else {
        '9'
    }
}

/// The character at position i of the board's text: each row is rendered as
/// nine cell digits each followed by one space, then a newline, 19
/// characters per row and 171 in all.
pub open spec fn render_char(g: Board, i: int) -> char {
    let r = i / 19;
    let p = i % 19;
    if p == 18 {
        '\n'
    } else if p % 2 == 1 {
        ' '
    } else {
        digit_char(cell(g, r, p / 2))
    }
}

/// text is the rendering of the board g.
pub open spec fn renders(g: Board, text: Seq<char>) -> bool {
    text.len() == 171 && forall|i: int| 0 <= i < 171 ==> #[trigger] text[i] == render_char(g, i)
}

/// The coordinates in cs are strictly increasing in row-major order.
pub open spec fn row_major(cs: Seq<(usize, usize)>) -> bool {
    forall|k1: int, k2: int|
        0 <= k1 < k2 < cs.len() ==> ((#[trigger] cs[k1]).0 < (#[trigger] cs[k2]).0 || (cs[k1].0
            == cs[k2].0 && cs[k1].1 < cs[k2].1))
}

/// Connects a grid's mathematical board (its deep view) to the vector-of-rows
/// view that executable indexing is specified over.
pub proof fn lemma_grid_view(v: Vec<Vec<u8>>)
    ensures
        v.deep_view().len() == v@.len(),
        forall|r: int|
            0 <= r < v@.len() ==> (#[trigger] v.deep_view()[r]).len() == v@[r]@.len(),
        forall|r: int, c: int|
            0 <= r < v@.len() && 0 <= c < v@[r]@.len() ==> #[trigger] cell(v.deep_view(), r, c)
                == v@[r]@[c],
        forall|r: int| 0 <= r < v@.len() ==> (#[trigger] v@[r])@.len() == v.deep_view()[r].len(),
        forall|r: int, c: int|
            0 <= r < v@.len() && 0 <= c < v@[r]@.len() ==> #[trigger] v@[r]@[c] == cell(
                v.deep_view(),
                r,
                c,
            ),
{
    assert forall|r: int| 0 <= r < v@.len() implies (#[trigger] v.deep_view()[r]).len()
        == v@[r]@.len() by {
        assert(v.deep_view()[r] == v@[r].deep_view());
    }
    assert forall|r: int, c: int|
        0 <= r < v@.len() && 0 <= c < v@[r]@.len() implies #[trigger] cell(v.deep_view(), r, c)
        == v@[r]@[c] by {
        assert(v.deep_view()[r] == v@[r].deep_view());
        assert(v@[r].deep_view()[c] == v@[r]@[c]);
    }
}

/// How update_cell changes the cells: only the named one, and well-formedness
/// is kept when the new value is a legal cell value.
pub proof fn lemma_update_cell(g: Board, r: int, c: int, v: u8)
    requires
        grid_wf(g),
        in_range(r, c),
    ensures
        update_cell(g, r, c, v).len() == 9,
        forall|i: int| 0 <= i < 9 ==> (#[trigger] update_cell(g, r, c, v)[i]).len() == 9,
        cell(update_cell(g, r, c, v), r, c) == v,
        forall|i: int, j: int|
            in_range(i, j) && !(i == r && j == c) ==> #[trigger] cell(update_cell(g, r, c, v), i, j)
                == cell(g, i, j),
        v <= 9 ==> grid_wf(update_cell(g, r, c, v)),
{
    let g2 = update_cell(g, r, c, v);
    assert forall|i: int, j: int|
        in_range(i, j) && !(i == r && j == c) implies #[trigger] cell(g2, i, j) == cell(
        g,
        i,
        j,
    ) by {
        if i == r {
            assert(g2[i] == g[r].update(c, v));
        }
    }
    if v <= 9 {
        assert forall|i: int, j: int| in_range(i, j) implies #[trigger] cell(g2, i, j) <= 9 by {
            if i == r && j == c {
                assert(cell(g2, i, j) == v);
            }
        }
    }
}

/// can_place holds exactly when no cell sharing the unit of (row, col) holds num.
pub proof fn lemma_can_place_iff(g: Board, row: int, col: int, num: u8)
    requires
        in_range(row, col),
    ensures
        can_place(g, row, col, num) <==> (forall|r2: int, c2: int|
            in_range(r2, c2) && same_unit(row, col, r2, c2) ==> #[trigger] cell(g, r2, c2) != num),
{
    lemma_fundamental_div_mod(row, 3);
    lemma_mod_bound(row, 3);
    lemma_fundamental_div_mod(col, 3);
    lemma_mod_bound(col, 3);
    if can_place(g, row, col, num) {
        assert forall|r2: int, c2: int|
            in_range(r2, c2) && same_unit(row, col, r2, c2) implies #[trigger] cell(g, r2, c2)
            != num by {
            lemma_fundamental_div_mod(r2, 3);
            lemma_mod_bound(r2, 3);
            lemma_fundamental_div_mod(c2, 3);
            lemma_mod_bound(c2, 3);
            if r2 == row {
                assert(cell(g, row, c2) != num);
            } else if c2 == col {
                assert(cell(g, r2, col) != num);
            } else {
                let i = r2 - row / 3 * 3;
                let j = c2 - col / 3 * 3;
                assert(cell(g, row / 3 * 3 + i, col / 3 * 3 + j) != num);
            }
        }
    }
    if (forall|r2: int, c2: int|
        in_range(r2, c2) && same_unit(row, col, r2, c2) ==> #[trigger] cell(g, r2, c2) != num) {
        assert forall|j: int| 0 <= j < 9 implies #[trigger] cell(g, row, j) != num by {
            assert(same_unit(row, col, row, j));
        }
        assert forall|i: int| 0 <= i < 9 implies #[trigger] cell(g, i, col) != num by {
            assert(same_unit(row, col, i, col));
        }
        assert forall|i: int, j: int| 0 <= i < 3 && 0 <= j < 3 implies #[trigger] cell(
            g,
            row / 3 * 3 + i,
            col / 3 * 3 + j,
        ) != num by {
            let r2 = row / 3 * 3 + i;
            let c2 = col / 3 * 3 + j;
            lemma_fundamental_div_mod(r2, 3);
            lemma_mod_bound(r2, 3);
            lemma_fundamental_div_mod(c2, 3);
            lemma_mod_bound(c2, 3);
            assert(in_range(r2, c2));
            assert(same_unit(row, col, r2, c2));
        }
    }
}

/// A board that legally fills the empty cells of a conflict-free board is
/// itself conflict-free, hence solved.
pub proof fn lemma_completes_solved(g: Board, s: Board)
    requires
        no_conflicts(g),
        completes(g, s),
    ensures
        solved(s),
{
    assert forall|r1: int, c1: int, r2: int, c2: int|
        in_range(r1, c1) && in_range(r2, c2) && !(r1 == r2 && c1 == c2) && same_unit(
            r1,
            c1,
            r2,
            c2,
        ) && #[trigger] cell(s, r1, c1) != 0 implies cell(s, r1, c1) != #[trigger] cell(
        s,
        r2,
        c2,
    ) by {
        if cell(g, r1, c1) == 0 {
            assert(cell(s, r1, c1) != cell(s, r2, c2));
        } else if cell(g, r2, c2) == 0 {
            assert(same_unit(r2, c2, r1, c1));
            assert(cell(s, r2, c2) != cell(s, r1, c1));
        } else {
            assert(cell(s, r1, c1) == cell(g, r1, c1));
            assert(cell(s, r2, c2) == cell(g, r2, c2));
        }
    }
}

/// The digit a completion puts in an empty cell of g can be placed there:
/// it appears nowhere in the cell's row, column or box of g.
pub proof fn lemma_completion_digit_placeable(g: Board, s: Board, row: int, col: int)
    requires
        completes(g, s),
        in_range(row, col),
        cell(g, row, col) == 0,
    ensures
        can_place(g, row, col, cell(s, row, col)),
        1 <= cell(s, row, col) <= 9,
{
    let v = cell(s, row, col);
    lemma_can_place_iff(g, row, col, v);
    assert forall|r2: int, c2: int|
        in_range(r2, c2) && same_unit(row, col, r2, c2) implies #[trigger] cell(g, r2, c2)
        != v by {
        if cell(g, r2, c2) != 0 {
            assert(!(r2 == row && c2 == col));
            assert(cell(s, row, col) != cell(s, r2, c2));
            assert(cell(s, r2, c2) == cell(g, r2, c2));
        }
    }
}

/// Filling one empty cell with a placeable digit and then completing the rest
/// is one way of completing the original board.
pub proof fn lemma_completes_after_place(g: Board, row: int, col: int, num: u8, s: Board)
    requires
        grid_wf(g),
        in_range(row, col),
        cell(g, row, col) == 0,
        1 <= num <= 9,
        can_place(g, row, col, num),
        completes(update_cell(g, row, col, num), s),
    ensures
        completes(g, s),
{
    let g1 = update_cell(g, row, col, num);
    lemma_update_cell(g, row, col, num);
    lemma_can_place_iff(g, row, col, num);
    assert forall|r: int, c: int|
        in_range(r, c) && #[trigger] cell(g, r, c) != 0 implies cell(s, r, c) == cell(g, r, c) by {
        assert(cell(g1, r, c) == cell(g, r, c));
    }
    assert forall|r1: int, c1: int, r2: int, c2: int|
        in_range(r1, c1) && in_range(r2, c2) && !(r1 == r2 && c1 == c2) && same_unit(
            r1,
            c1,
            r2,
            c2,
        ) && cell(g, r1, c1) == 0 implies #[trigger] cell(s, r1, c1) != #[trigger] cell(
        s,
        r2,
        c2,
    ) by {
        if r1 == row && c1 == col {
            assert(cell(g1, r1, c1) == num);
            assert(cell(s, r1, c1) == num);
            if cell(g1, r2, c2) == 0 {
                assert(same_unit(r2, c2, r1, c1));
                assert(cell(s, r2, c2) != cell(s, r1, c1));
            } else {
                assert(cell(s, r2, c2) == cell(g1, r2, c2));
                if r2 == row && c2 == col {
                    assert(false);
                } else {
                    assert(cell(g1, r2, c2) == cell(g, r2, c2));
                    if cell(g, r2, c2) != 0 {
                        assert(cell(g, r2, c2) != num);
                    } else {
                        assert(false);
                    }
                }
            }
        } else {
            assert(cell(g1, r1, c1) == cell(g, r1, c1));
            assert(cell(s, r1, c1) != cell(s, r2, c2));
        }
    }
}

/// A completion of g also completes the board in which one empty cell of g
/// has been set to the completion's own digit for it.
pub proof fn lemma_completes_to_placed(g: Board, row: int, col: int, s: Board)
    requires
        grid_wf(g),
        in_range(row, col),
        cell(g, row, col) == 0,
        completes(g, s),
    ensures
        completes(update_cell(g, row, col, cell(s, row, col)), s),
{
    let v = cell(s, row, col);
    let g1 = update_cell(g, row, col, v);
    lemma_update_cell(g, row, col, v);
    assert forall|r: int, c: int|
        in_range(r, c) && #[trigger] cell(g1, r, c) != 0 implies cell(s, r, c) == cell(
        g1,
        r,
        c,
    ) by {
        if r == row && c == col {
        } else {
            assert(cell(g1, r, c) == cell(g, r, c));
        }
    }
    assert forall|r1: int, c1: int, r2: int, c2: int|
        in_range(r1, c1) && in_range(r2, c2) && !(r1 == r2 && c1 == c2) && same_unit(
            r1,
            c1,
            r2,
            c2,
        ) && cell(g1, r1, c1) == 0 implies #[trigger] cell(s, r1, c1) != #[trigger] cell(
        s,
        r2,
        c2,
    ) by {
        assert(cell(g1, r1, c1) == cell(g, r1, c1));
    }
}

/// Placing a digit into the empty cell listed at position i leaves the rest
/// of the list covering exactly the remaining empty cells.
pub proof fn lemma_covers_after_place(g: Board, cs: Seq<(usize, usize)>, i: int, num: u8)
    requires
        grid_wf(g),
        covers_empties(g, cs, i),
        0 <= i < cs.len(),
        1 <= num <= 9,
    ensures
        covers_empties(update_cell(g, cs[i].0 as int, cs[i].1 as int, num), cs, i + 1),
{
    let row = cs[i].0 as int;
    let col = cs[i].1 as int;
    let g1 = update_cell(g, row, col, num);
    lemma_update_cell(g, row, col, num);
    assert forall|k: int|
        i + 1 <= k < cs.len() implies cell(g1, (#[trigger] cs[k]).0 as int, cs[k].1 as int)
        == 0 by {
        assert(cs[k] != cs[i]);
        assert(cell(g1, cs[k].0 as int, cs[k].1 as int) == cell(g, cs[k].0 as int, cs[k].1 as int));
    }
    assert forall|r: int, c: int|
        in_range(r, c) && #[trigger] cell(g1, r, c) == 0 implies exists|k: int|
        i + 1 <= k < cs.len() && #[trigger] cs[k] == (r as usize, c as usize) by {
        assert(!(r == row && c == col));
        assert(cell(g, r, c) == cell(g1, r, c));
        let k = choose|k: int| i <= k < cs.len() && #[trigger] cs[k] == (r as usize, c as usize);
        assert(cs[k].0 as int == r && cs[k].1 as int == c);
        assert(k != i);
        assert(i + 1 <= k < cs.len() && cs[k] == (r as usize, c as usize));
    }
}

/// Setting an empty cell and then clearing it again restores the board.
pub proof fn lemma_unplace(g: Board, r: int, c: int, v: u8)
    requires
        grid_wf(g),
        in_range(r, c),
        cell(g, r, c) == 0,
    ensures
        update_cell(update_cell(g, r, c, v), r, c, 0) == g,
{
    let g1 = update_cell(g, r, c, v);
    let g2 = update_cell(g1, r, c, 0);
    assert(g1[r] == g[r].update(c, v));
    assert(g1[r].update(c, 0) =~= g[r]);
    assert(g2 =~= g);
}

/// Emptying a cell cannot create a conflict.
pub proof fn lemma_clear_keeps_no_conflicts(g: Board, r: int, c: int)
    requires
        grid_wf(g),
        in_range(r, c),
        no_conflicts(g),
    ensures
        no_conflicts(update_cell(g, r, c, 0)),
{
    let g2 = update_cell(g, r, c, 0);
    lemma_update_cell(g, r, c, 0);
    assert forall|r1: int, c1: int, r2: int, c2: int|
        in_range(r1, c1) && in_range(r2, c2) && !(r1 == r2 && c1 == c2) && same_unit(
            r1,
            c1,
            r2,
            c2,
        ) && #[trigger] cell(g2, r1, c1) != 0 implies cell(g2, r1, c1) != #[trigger] cell(
        g2,
        r2,
        c2,
    ) by {
        assert(!(r1 == r && c1 == c));
        assert(cell(g2, r1, c1) == cell(g, r1, c1));
        if r2 == r && c2 == c {
            assert(cell(g2, r2, c2) == 0);
        } else {
            assert(cell(g2, r2, c2) == cell(g, r2, c2));
        }
    }
}

/// One fixed legally filled board, the witness that an empty board can be
/// completed: row r, column c holds ((c + 3*(r % 3) + r / 3) % 9) + 1.
pub open spec fn pattern_cell(r: int, c: int) -> u8 {
    (((c + 3 * (r % 3) + r / 3) % 9) + 1) as u8
}

/// The board filled by pattern_cell.
pub open spec fn pattern_board() -> Board {
    Seq::new(9, |r: int| Seq::new(9, |c: int| pattern_cell(r, c)))
}

/// Two values with the same remainder mod 9 that lie within 9 of each other
/// are equal.
proof fn lemma_mod9_injective(x: int, y: int)
    requires
        x >= 0,
        y >= 0,
        x % 9 == y % 9,
        -9 < x - y < 9,
    ensures
        x == y,
{
    lemma_fundamental_div_mod(x, 9);
    lemma_fundamental_div_mod(y, 9);
    let k = x / 9 - y / 9;
    assert(x - y == 9 * k) by (nonlinear_arith)
        requires
            x == 9 * (x / 9) + x % 9,
            y == 9 * (y / 9) + y % 9,
            x % 9 == y % 9,
            k == x / 9 - y / 9,
    ;
    assert(k == 0);
}

/// The pattern board is a solved Sudoku.
pub proof fn lemma_pattern_solved()
    ensures
        solved(pattern_board()),
{
    let g = pattern_board();
    assert forall|r: int, c: int| in_range(r, c) implies 1 <= #[trigger] cell(g, r, c) <= 9 by {
        lemma_fundamental_div_mod(r, 3);
        lemma_mod_bound(r, 3);
        let t = c + 3 * (r % 3) + r / 3;
        lemma_mod_bound(t, 9);
        assert(cell(g, r, c) == pattern_cell(r, c));
    }
    assert forall|r1: int, c1: int, r2: int, c2: int|
        in_range(r1, c1) && in_range(r2, c2) && !(r1 == r2 && c1 == c2) && same_unit(
            r1,
            c1,
            r2,
            c2,
        ) && #[trigger] cell(g, r1, c1) != 0 implies cell(g, r1, c1) != #[trigger] cell(
        g,
        r2,
        c2,
    ) by {
        lemma_fundamental_div_mod(r1, 3);
        lemma_mod_bound(r1, 3);
        lemma_fundamental_div_mod(r2, 3);
        lemma_mod_bound(r2, 3);
        lemma_fundamental_div_mod(c1, 3);
        lemma_mod_bound(c1, 3);
        lemma_fundamental_div_mod(c2, 3);
        lemma_mod_bound(c2, 3);
        let t1 = c1 + 3 * (r1 % 3) + r1 / 3;
        let t2 = c2 + 3 * (r2 % 3) + r2 / 3;
        lemma_mod_bound(t1, 9);
        lemma_mod_bound(t2, 9);
        assert(cell(g, r1, c1) == pattern_cell(r1, c1));
        assert(cell(g, r2, c2) == pattern_cell(r2, c2));
        if cell(g, r1, c1) == cell(g, r2, c2) {
            assert(t1 % 9 == t2 % 9);
            if r1 == r2 {
                lemma_mod9_injective(t1, t2);
                assert(false);
            } else if c1 == c2 {
                lemma_mod9_injective(t1, t2);
                assert(3 * (r1 % 3 - r2 % 3) + (r1 / 3 - r2 / 3) == 0);
                assert(r1 % 3 == r2 % 3 && r1 / 3 == r2 / 3);
                assert(false);
            } else {
                assert(r1 / 3 == r2 / 3 && c1 / 3 == c2 / 3);
                lemma_mod9_injective(t1, t2);
                assert((c1 % 3 - c2 % 3) + 3 * (r1 % 3 - r2 % 3) == 0);
                assert(c1 % 3 == c2 % 3 && r1 % 3 == r2 % 3);
                assert(false);
            }
        }
    }
}

/// Law: a board with every cell empty can be completed; the backtracking
/// search is therefore guaranteed to succeed on it.
pub proof fn lemma_all_empty_solvable(g: Board)
    requires
        grid_wf(g),
        forall|r: int, c: int| in_range(r, c) ==> #[trigger] cell(g, r, c) == 0,
    ensures
        solvable(g),
{
    lemma_pattern_solved();
    let s = pattern_board();
    assert forall|r: int, c: int|
        in_range(r, c) && #[trigger] cell(g, r, c) != 0 implies cell(s, r, c) == cell(g, r, c) by {}
    assert forall|r1: int, c1: int, r2: int, c2: int|
        in_range(r1, c1) && in_range(r2, c2) && !(r1 == r2 && c1 == c2) && same_unit(
            r1,
            c1,
            r2,
            c2,
        ) && cell(g, r1, c1) == 0 implies #[trigger] cell(s, r1, c1) != #[trigger] cell(
        s,
        r2,
        c2,
    ) by {
        assert(cell(s, r1, c1) != 0);
    }
    assert(completes(g, s));
}

/// Clearing a cell of a board that a solved board completes leaves a board
/// that the same solved board still completes.
pub proof fn lemma_clear_keeps_completes(g: Board, s: Board, r: int, c: int)
    requires
        grid_wf(g),
        in_range(r, c),
        completes(g, s),
        solved(s),
    ensures
        completes(update_cell(g, r, c, 0), s),
{
    let g1 = update_cell(g, r, c, 0);
    lemma_update_cell(g, r, c, 0);
    assert forall|rr: int, cc: int|
        in_range(rr, cc) && #[trigger] cell(g1, rr, cc) != 0 implies cell(s, rr, cc) == cell(
        g1,
        rr,
        cc,
    ) by {
        assert(!(rr == r && cc == c));
        assert(cell(g1, rr, cc) == cell(g, rr, cc));
    }
    assert forall|r1: int, c1: int, r2: int, c2: int|
        in_range(r1, c1) && in_range(r2, c2) && !(r1 == r2 && c1 == c2) && same_unit(
            r1,
            c1,
            r2,
            c2,
        ) && cell(g1, r1, c1) == 0 implies #[trigger] cell(s, r1, c1) != #[trigger] cell(
        s,
        r2,
        c2,
    ) by {
        if cell(g, r1, c1) == 0 {
        } else {
            assert(r1 == r && c1 == c);
            assert(cell(s, r1, c1) != 0);
        }
    }
}

/// The number of empty cells among the first n of a row.
pub open spec fn zeros_in_row(row: Seq<u8>, n: int) -> int
    decreases n,
{
    if n <= 0 {
        0
    } else {
        zeros_in_row(row, n - 1) + if row[n - 1] == 0 {
            1int
        } else {
            0int
        }
    }
}

/// The number of empty cells in the first n rows.
pub open spec fn zeros_up_to_row(g: Board, n: int) -> int
    decreases n,
{
    if n <= 0 {
        0
    } else {
        zeros_up_to_row(g, n - 1) + zeros_in_row(g[n - 1], 9)
    }
}

/// The number of empty cells of the board.
pub open spec fn count_zeros(g: Board) -> int {
    zeros_up_to_row(g, 9)
}

/// A row with no empty cell among its first n has zero count there.
proof fn lemma_zeros_in_row_full(row: Seq<u8>, n: int)
    requires
        forall|c: int| 0 <= c < n ==> #[trigger] row[c] != 0,
    ensures
        zeros_in_row(row, n) == 0,
    decreases n,
{
    if n > 0 {
        lemma_zeros_in_row_full(row, n - 1);
    }
}

/// A full board has no empty cells.
pub proof fn lemma_full_count_zeros(g: Board)
    requires
        grid_wf(g),
        full(g),
    ensures
        count_zeros(g) == 0,
{
    lemma_zeros_up_full(g, 9);
}

proof fn lemma_zeros_up_full(g: Board, n: int)
    requires
        grid_wf(g),
        full(g),
        n <= 9,
    ensures
        zeros_up_to_row(g, n) == 0,
    decreases n,
{
    if n > 0 {
        lemma_zeros_up_full(g, n - 1);
        assert forall|c: int| 0 <= c < 9 implies #[trigger] g[n - 1][c] != 0 by {
            assert(cell(g, n - 1, c) != 0);
        }
        lemma_zeros_in_row_full(g[n - 1], 9);
    }
}

proof fn lemma_zeros_in_row_update(row: Seq<u8>, c: int, n: int)
    requires
        0 <= c < row.len(),
        n <= row.len(),
    ensures
        zeros_in_row(row.update(c, 0), n) == zeros_in_row(row, n) + if c < n && row[c] != 0 {
            1int
        } else {
            0int
        },
    decreases n,
{
    if n > 0 {
        lemma_zeros_in_row_update(row, c, n - 1);
    }
}

proof fn lemma_zeros_up_update(g: Board, r: int, c: int, n: int)
    requires
        grid_wf(g),
        in_range(r, c),
        n <= 9,
    ensures
        zeros_up_to_row(update_cell(g, r, c, 0), n) == zeros_up_to_row(g, n) + if r < n && cell(
            g,
            r,
            c,
        ) != 0 {
            1int
        } else {
            0int
        },
    decreases n,
{
    let g1 = update_cell(g, r, c, 0);
    if n > 0 {
        lemma_zeros_up_update(g, r, c, n - 1);
        if n - 1 == r {
            assert(g1[n - 1] == g[r].update(c, 0));
            lemma_zeros_in_row_update(g[r], c, 9);
        } else {
            assert(g1[n - 1] == g[n - 1]);
        }
    }
}

proof fn lemma_zeros_in_row_nonneg(row: Seq<u8>, n: int)
    ensures
        zeros_in_row(row, n) >= 0,
    decreases n,
{
    if n > 0 {
        lemma_zeros_in_row_nonneg(row, n - 1);
    }
}

proof fn lemma_zeros_in_row_pos(row: Seq<u8>, c: int, n: int)
    requires
        0 <= c < n,
        row[c] == 0,
    ensures
        zeros_in_row(row, n) >= 1,
    decreases n,
{
    lemma_zeros_in_row_nonneg(row, n - 1);
    if c < n - 1 {
        lemma_zeros_in_row_pos(row, c, n - 1);
    }
}

proof fn lemma_zeros_up_nonneg(g: Board, n: int)
    ensures
        zeros_up_to_row(g, n) >= 0,
    decreases n,
{
    if n > 0 {
        lemma_zeros_up_nonneg(g, n - 1);
        lemma_zeros_in_row_nonneg(g[n - 1], 9);
    }
}

proof fn lemma_zeros_up_pos(g: Board, r: int, c: int, n: int)
    requires
        0 <= r < n,
        0 <= c < 9,
        cell(g, r, c) == 0,
    ensures
        zeros_up_to_row(g, n) >= 1,
    decreases n,
{
    lemma_zeros_up_nonneg(g, n - 1);
    lemma_zeros_in_row_nonneg(g[n - 1], 9);
    if r < n - 1 {
        lemma_zeros_up_pos(g, r, c, n - 1);
    } else {
        lemma_zeros_in_row_pos(g[r], c, 9);
    }
}

/// A board with an empty cell has a positive count of empty cells.
pub proof fn lemma_count_zeros_pos(g: Board, r: int, c: int)
    requires
        in_range(r, c),
        cell(g, r, c) == 0,
    ensures
        count_zeros(g) >= 1,
{
    lemma_zeros_up_pos(g, r, c, 9);
}

/// Clearing one cell raises the number of empty cells by one if the cell was
/// filled, and leaves it unchanged if it was already empty; either way the
/// cleared board has an empty cell.
pub proof fn lemma_count_zeros_clear(g: Board, r: int, c: int)
    requires
        grid_wf(g),
        in_range(r, c),
    ensures
        count_zeros(update_cell(g, r, c, 0)) == count_zeros(g) + if cell(g, r, c) != 0 {
            1int
        } else {
            0int
        },
        count_zeros(update_cell(g, r, c, 0)) >= 1,
{
    lemma_zeros_up_update(g, r, c, 9);
    lemma_update_cell(g, r, c, 0);
    lemma_count_zeros_pos(update_cell(g, r, c, 0), r, c);
}

/// Nine pairwise distinct values drawn from the nine digits 1..=9 cover them
/// all: the digit d is hit by some index.
proof fn lemma_nine_distinct_cover(f: spec_fn(int) -> int, d: int)
    requires
        forall|i: int| 0 <= i < 9 ==> 1 <= #[trigger] f(i) <= 9,
        forall|i: int, j: int| 0 <= i < 9 && 0 <= j < 9 && i != j ==> #[trigger] f(i) != #[trigger] f(j),
        1 <= d <= 9,
    ensures
        exists|i: int| 0 <= i < 9 && #[trigger] f(i) == d,
{
    let x = set_int_range(0, 9);
    let y = x.map(f);
    lemma_int_range(0, 9);
    lemma_int_range(1, 10);
    assert(injective_on(f, x));
    lemma_map_size(x, y, f);
    assert forall|b: int| y.contains(b) implies set_int_range(1, 10).contains(b) by {
        let a = choose|a: int| x.contains(a) && b == f(a);
        assert(1 <= f(a) <= 9);
    }
    assert(y.subset_of(set_int_range(1, 10)));
    lemma_len_subset(y, set_int_range(1, 10));
    lemma_subset_equality(y, set_int_range(1, 10));
    assert(set_int_range(1, 10).contains(d));
    assert(y.contains(d));
    let a = choose|a: int| x.contains(a) && d == f(a);
    assert(0 <= a < 9 && f(a) == d);
}

/// Law: every row of a solved board holds each digit 1..=9 exactly once.
pub proof fn lemma_solved_row_has_digit(g: Board, r: int, d: u8)
    requires
        solved(g),
        0 <= r < 9,
        1 <= d <= 9,
    ensures
        exists|c: int| 0 <= c < 9 && #[trigger] cell(g, r, c) == d,
        forall|c1: int, c2: int|
            0 <= c1 < 9 && 0 <= c2 < 9 && #[trigger] cell(g, r, c1) == d && #[trigger] cell(
                g,
                r,
                c2,
            ) == d ==> c1 == c2,
{
    let f = |c: int| cell(g, r, c) as int;
    assert forall|i: int| 0 <= i < 9 implies 1 <= #[trigger] f(i) <= 9 by {
        assert(cell(g, r, i) <= 9);
        assert(cell(g, r, i) != 0);
    }
    assert forall|i: int, j: int| 0 <= i < 9 && 0 <= j < 9 && i != j implies #[trigger] f(i)
        != #[trigger] f(j) by {
        assert(same_unit(r, i, r, j));
        assert(cell(g, r, i) != 0);
    }
    lemma_nine_distinct_cover(f, d as int);
    assert(exists|i: int| 0 <= i < 9 && #[trigger] f(i) == d);
    let w = choose|i: int| 0 <= i < 9 && #[trigger] f(i) == d;
    assert(cell(g, r, w) == d);
}

/// Law: every column of a solved board holds each digit 1..=9 exactly once.
pub proof fn lemma_solved_col_has_digit(g: Board, c: int, d: u8)
    requires
        solved(g),
        0 <= c < 9,
        1 <= d <= 9,
    ensures
        exists|r: int| 0 <= r < 9 && #[trigger] cell(g, r, c) == d,
        forall|r1: int, r2: int|
            0 <= r1 < 9 && 0 <= r2 < 9 && #[trigger] cell(g, r1, c) == d && #[trigger] cell(
                g,
                r2,
                c,
            ) == d ==> r1 == r2,
{
    let f = |r: int| cell(g, r, c) as int;
    assert forall|i: int| 0 <= i < 9 implies 1 <= #[trigger] f(i) <= 9 by {
        assert(cell(g, i, c) <= 9);
        assert(cell(g, i, c) != 0);
    }
    assert forall|i: int, j: int| 0 <= i < 9 && 0 <= j < 9 && i != j implies #[trigger] f(i)
        != #[trigger] f(j) by {
        assert(same_unit(i, c, j, c));
        assert(cell(g, i, c) != 0);
    }
    lemma_nine_distinct_cover(f, d as int);
    assert(exists|i: int| 0 <= i < 9 && #[trigger] f(i) == d);
    let w = choose|i: int| 0 <= i < 9 && #[trigger] f(i) == d;
    assert(cell(g, w, c) == d);
}

/// Law: every 3x3 box of a solved board holds each digit 1..=9 exactly once.
/// The box in box-row br and box-column bc covers rows 3*br..3*br+3 and
/// columns 3*bc..3*bc+3.
#[verifier::rlimit(50)]
pub proof fn lemma_solved_box_has_digit(g: Board, br: int, bc: int, d: u8)
    requires
        solved(g),
        0 <= br < 3,
        0 <= bc < 3,
        1 <= d <= 9,
    ensures
        exists|i: int, j: int|
            0 <= i < 3 && 0 <= j < 3 && #[trigger] cell(g, 3 * br + i, 3 * bc + j) == d,
        forall|i1: int, j1: int, i2: int, j2: int|
            0 <= i1 < 3 && 0 <= j1 < 3 && 0 <= i2 < 3 && 0 <= j2 < 3 && #[trigger] cell(
                g,
                3 * br + i1,
                3 * bc + j1,
            ) == d && #[trigger] cell(g, 3 * br + i2, 3 * bc + j2) == d ==> i1 == i2 && j1 == j2,
{
    let f = |k: int| cell(g, 3 * br + k / 3, 3 * bc + k % 3) as int;
    assert forall|i: int| 0 <= i < 9 implies 1 <= #[trigger] f(i) <= 9 by {
        lemma_fundamental_div_mod(i, 3);
        lemma_mod_bound(i, 3);
        assert(in_range(3 * br + i / 3, 3 * bc + i % 3));
        assert(cell(g, 3 * br + i / 3, 3 * bc + i % 3) <= 9);
        assert(cell(g, 3 * br + i / 3, 3 * bc + i % 3) != 0);
    }
    assert forall|i: int, j: int| 0 <= i < 9 && 0 <= j < 9 && i != j implies #[trigger] f(i)
        != #[trigger] f(j) by {
        lemma_fundamental_div_mod(i, 3);
        lemma_mod_bound(i, 3);
        lemma_fundamental_div_mod(j, 3);
        lemma_mod_bound(j, 3);
        let r1 = 3 * br + i / 3;
        let c1 = 3 * bc + i % 3;
        let r2 = 3 * br + j / 3;
        let c2 = 3 * bc + j % 3;
        assert(!(r1 == r2 && c1 == c2));
        assert(same_unit(r1, c1, r2, c2));
        assert(cell(g, r1, c1) != 0);
    }
    lemma_nine_distinct_cover(f, d as int);
    assert(exists|i: int| 0 <= i < 9 && #[trigger] f(i) == d);
    let w = choose|i: int| 0 <= i < 9 && #[trigger] f(i) == d;
    lemma_fundamental_div_mod(w, 3);
    lemma_mod_bound(w, 3);
    assert(cell(g, 3 * br + w / 3, 3 * bc + w % 3) == d);
    assert forall|i1: int, j1: int, i2: int, j2: int|
        0 <= i1 < 3 && 0 <= j1 < 3 && 0 <= i2 < 3 && 0 <= j2 < 3 && #[trigger] cell(
            g,
            3 * br + i1,
            3 * bc + j1,
        ) == d && #[trigger] cell(g, 3 * br + i2, 3 * bc + j2) == d implies i1 == i2 && j1
        == j2 by {
        let r1 = 3 * br + i1;
        let c1 = 3 * bc + j1;
        let r2 = 3 * br + i2;
        let c2 = 3 * bc + j2;
        lemma_fundamental_div_mod(r1, 3);
        lemma_mod_bound(r1, 3);
        lemma_fundamental_div_mod(r2, 3);
        lemma_mod_bound(r2, 3);
        lemma_fundamental_div_mod(c1, 3);
        lemma_mod_bound(c1, 3);
        lemma_fundamental_div_mod(c2, 3);
        lemma_mod_bound(c2, 3);
        if !(i1 == i2 && j1 == j2) {
            assert(in_range(r1, c1) && in_range(r2, c2));
            assert(same_unit(r1, c1, r2, c2));
            assert(cell(g, r1, c1) != 0);
        }
    }
}

} // verus!
