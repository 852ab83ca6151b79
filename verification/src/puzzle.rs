//! The puzzle: an owned 9x9 grid of cell values, 0 for an empty cell and
//! 1..=9 for a placed digit.

use vstd::prelude::*;
use vstd::arithmetic::div_mod::{lemma_fundamental_div_mod, lemma_mod_bound};
use vstd::string::StringExecFns;
use crate::model::{cell, digit_char, grid_wf, lemma_grid_view, render_char, renders};

verus! {

/// Appends the single character that renders a cell value.
fn push_digit(text: &mut String, v: u8)
    requires
        v <= 9,
    ensures
        final(text)@ == old(text)@.push(digit_char(v)),
{
    let s: &str = match v {
        0 => "0",
        1 => "1",
        2 => "2",
        3 => "3",
        4 => "4",
        5 => "5",
        6 => "6",
        7 => "7",
        8 => "8",
        _ => "9",
    };
    text.append(s);
    proof {
        reveal_strlit("0");
        reveal_strlit("1");
        reveal_strlit("2");
        reveal_strlit("3");
        reveal_strlit("4");
        reveal_strlit("5");
        reveal_strlit("6");
        reveal_strlit("7");
        reveal_strlit("8");
        reveal_strlit("9");
        assert(text@ =~= old(text)@.push(digit_char(v)));
    }
}

/// Represents a Sudoku puzzle.  Its view is the mathematical board: the
/// sequence of its rows, each the sequence of that row's cell values.
pub struct Puzzle {
    grid: Vec<Vec<u8>>,
}

impl View for Puzzle {
    type V = Seq<Seq<u8>>;

    closed spec fn view(&self) -> Seq<Seq<u8>> {
        self.grid.deep_view()
    }
}

impl Puzzle {
    /// Creates a new `Puzzle` holding the given grid.  No Sudoku legality
    /// check is made: callers are expected to supply a well-formed board.
    pub fn new(grid: Vec<Vec<u8>>) -> (p: Puzzle)
        ensures
            p@ == grid.deep_view(),
    {
        Puzzle { grid }
    }

    /// Renders the puzzle as text: nine lines, each holding the row's nine
    /// values, every value followed by one space.
    #[verifier::loop_isolation(false)]
    pub fn render(&self) -> (text: String)
        requires
            grid_wf(self@),
        ensures
            renders(self@, text@),
    {
        let ghost g = self@;
        proof {
            lemma_grid_view(self.grid);
        }
        let mut text = String::new();
        let mut r: usize = 0;
        while r < 9
            invariant
                r <= 9,
                text@.len() == 19 * r,
                forall|i: int| 0 <= i < text@.len() ==> #[trigger] text@[i] == render_char(g, i),
            decreases 9 - r,
        {
            let mut c: usize = 0;
            while c < 9
                invariant
                    r < 9,
                    c <= 9,
                    text@.len() == 19 * r + 2 * c,
                    forall|i: int|
                        0 <= i < text@.len() ==> #[trigger] text@[i] == render_char(g, i),
                decreases 9 - c,
            {
                let v = self.grid[r][c];
                push_digit(&mut text, v);
                text.append(" ");
                proof {
                    reveal_strlit(" ");
                    let i0 = 19 * (r as int) + 2 * (c as int);
                    lemma_fundamental_div_mod(i0, 19);
                    lemma_mod_bound(i0, 19);
                    lemma_fundamental_div_mod(2 * (c as int), 2);
                    lemma_mod_bound(2 * (c as int), 2);
                    assert(i0 / 19 == r && i0 % 19 == 2 * (c as int));
                    assert((2 * (c as int)) % 2 == 0 && (2 * (c as int)) / 2 == c as int);
                    assert(render_char(g, i0) == digit_char(cell(g, r as int, c as int)));
                    let i1 = i0 + 1;
                    lemma_fundamental_div_mod(i1, 19);
                    lemma_mod_bound(i1, 19);
                    lemma_fundamental_div_mod(2 * (c as int) + 1, 2);
                    lemma_mod_bound(2 * (c as int) + 1, 2);
                    assert(i1 / 19 == r && i1 % 19 == 2 * (c as int) + 1);
                    assert(render_char(g, i1) == ' ');
                    assert(v == cell(g, r as int, c as int));
                }
                c += 1;
            }
            text.append("\n");
            proof {
                reveal_strlit("\n");
                let i2 = 19 * (r as int) + 18;
                lemma_fundamental_div_mod(i2, 19);
                lemma_mod_bound(i2, 19);
                assert(i2 / 19 == r && i2 % 19 == 18);
                assert(render_char(g, i2) == '\n');
            }
            r += 1;
        }
        text
    }

    /// Returns a mutable reference to the underlying grid, for in-place
    /// mutation by the solver.
    pub fn grid_mut(&mut self) -> (g: &mut Vec<Vec<u8>>)
        ensures
            g.deep_view() == old(self)@,
            final(self)@ == final(g).deep_view(),
    {
        &mut self.grid
    }
}

} // verus!
