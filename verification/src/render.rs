//! The board as a grid of text, framed with box-drawing characters.

use vstd::prelude::*;
use vstd::string::StringExecFns;
use crate::grid::Cells;
use crate::sudoku::Sudoku;

verus! {

/// The line of column numbers.
pub open spec fn header() -> Seq<char> {
    "    0   1   2   3   4   5   6   7   8\n"@
}

/// The upper edge of the frame.
pub open spec fn top_edge() -> Seq<char> {
    "  ┏━━━┯━━━┯━━━┳━━━┯━━━┯━━━┳━━━┯━━━┯━━━┓\n"@
}

/// The heavy line between two bands of boxes.
pub open spec fn band_line() -> Seq<char> {
    "  ┣━━━┿━━━┿━━━╋━━━┿━━━┿━━━╋━━━┿━━━┿━━━┫\n"@
}

/// The thin line between two rows.
pub open spec fn row_line() -> Seq<char> {
    "  ┠───┼───┼───╂───┼───┼───╂───┼───┼───┨\n"@
}

/// The lower edge of the frame.
pub open spec fn bottom_edge() -> Seq<char> {
    "  ┗━━━┷━━━┷━━━┻━━━┷━━━┷━━━┻━━━┷━━━┷━━━┛\n"@
}

/// The decimal digit `d` as text.
pub open spec fn digit_text(d: int) -> Seq<char> {
    seq![(0x30 + d) as char]
}

/// The content of a cell as text: its digit, or a space for an empty cell.
pub open spec fn cell_text(cell: Option<u8>) -> Seq<char> {
    match cell {
        Some(d) => digit_text(d as int),
        None => " "@,
    }
}

/// The bar to the left of column `j`: heavy at the edge of a box, thin inside it.
pub open spec fn bar_text(j: int) -> Seq<char> {
    if j % 3 == 0 {
        "┃ "@
    } else {
        "│ "@
    }
}

/// The first `n` cells of row `i`, each behind its bar.
pub open spec fn cells_text(g: Cells, i: int, n: int) -> Seq<char>
    decreases n,
{
    if n <= 0 {
        Seq::empty()
    } else {
        cells_text(g, i, n - 1) + bar_text(n - 1) + cell_text(g[i * 9 + n - 1]) + " "@
    }
}

/// What is drawn above row `i`: the heavy line before the rows 3 and 6 and, unless the
/// row is the first of its band, the thin line.
pub open spec fn line_above(i: int) -> Seq<char> {
    (if i == 3 || i == 6 {
        band_line()
    } else {
        Seq::empty()
    }) + (if i % 3 != 0 {
        row_line()
    } else {
        Seq::empty()
    })
}

/// The first `n` rows, each with what is drawn above it, its number and its cells.
pub open spec fn rows_text(g: Cells, n: int) -> Seq<char>
    decreases n,
{
    if n <= 0 {
        Seq::empty()
    } else {
        rows_text(g, n - 1) + line_above(n - 1) + digit_text(n - 1) + " "@ + cells_text(
            g,
            n - 1,
            9,
        ) + "┃\n"@
    }
}

/// The board as text: the column numbers, then the nine rows in their frame.
pub open spec fn grid_text(g: Cells) -> Seq<char> {
    header() + top_edge() + rows_text(g, 9) + bottom_edge()
}

/// The decimal digit `d` as a string.
fn digit_str(d: u8) -> (s: &'static str)
    requires
        d <= 9,
    ensures
        s@ == digit_text(d as int),
{
    proof {
        reveal_strlit("0");
        reveal_strlit("1");
        reveal_strlit("2");
        reveal_strlit("3");
        reveal_strlit("4");
        reveal_strlit("5");
        reveal_strlit("6");
        reveal_strlit("7");
        reveal_strlit("8");
        reveal_strlit("9");
    }
    let s = match d {
        0 => "0",
        1 => "1",
        2 => "2",
        3 => "3",
        4 => "4",
        5 => "5",
        6 => "6",
        7 => "7",
        8 => "8",
        _ => "9",
    };
    assert(s@ =~= digit_text(d as int));
    s
}

impl Sudoku {
    /// The board as text: a line of column numbers, then the nine rows, each behind its
    /// number, in a frame whose heavy lines mark the boxes. An empty cell is a space.
    pub fn render(&self) -> (text: String)
        ensures
            text@ == grid_text(self@),
    {
        proof {
            use_type_invariant(self);
        }
        let mut text = String::from_str("    0   1   2   3   4   5   6   7   8\n");
        text.append("  ┏━━━┯━━━┯━━━┳━━━┯━━━┯━━━┳━━━┯━━━┯━━━┓\n");
        let mut i: usize = 0;
        while i < 9
            invariant
                self.wf(),
                i <= 9,
                text@ == header() + top_edge() + rows_text(self@, i as int),
            decreases 9 - i,
        {
            let ghost before = text@;
            if i == 3 || i == 6 {
                text.append("  ┣━━━┿━━━┿━━━╋━━━┿━━━┿━━━╋━━━┿━━━┿━━━┫\n");
            }
            if i % 3 != 0 {
                text.append("  ┠───┼───┼───╂───┼───┼───╂───┼───┼───┨\n");
            }
            assert(text@ =~= before + line_above(i as int));
            text.append(digit_str(i as u8));
            text.append(" ");
            let ghost start = text@;
            let mut j: usize = 0;
            while j < 9
                invariant
                    self.wf(),
                    i < 9,
                    j <= 9,
                    text@ == start + cells_text(self@, i as int, j as int),
                decreases 9 - j,
            {
                match j % 3 == 0 {
                    true => text.append("┃ "),
                    false => text.append("│ "),
                }
                match self.get(i, j) {
                    Some(v) => text.append(digit_str(v)),
                    None => text.append(" "),
                }
                text.append(" ");
                assert(text@ =~= start + cells_text(self@, i as int, j + 1));
                j += 1;
            }
            text.append("┃\n");
            assert(text@ =~= header() + top_edge() + rows_text(self@, i + 1));
            i += 1;
        }
        text.append("  ┗━━━┷━━━┷━━━┻━━━┷━━━┷━━━┻━━━┷━━━┷━━━┛\n");
        text
    }
}

} // verus!
