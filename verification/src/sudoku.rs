//! The board and its constraint evaluator.

use vstd::prelude::*;
use crate::bits::{
    digit_mask, has_bit, lemma_digit_mask_bit, lemma_empty_mask, lemma_mask_from_bits,
    lemma_missing_digits, lemma_or_bit, lemma_or_masks, DIGIT_BITS,
};
use crate::grid::{
    box_digits, col_digits, empty_grid, free_digits, in_box, in_col, in_row, row_digits, wf_grid,
    Cells,
};

pub use crate::bits::{bits_to_nums, nums_to_bits};

verus! {

/// A 9×9 Sudoku board. Each cell is empty or holds a digit from 1 to 9.
#[derive(Debug, PartialEq, Eq)]
pub struct Sudoku {
    grid: [Option<u8>; 81],
}

impl View for Sudoku {
    type V = Cells;

    closed spec fn view(&self) -> Cells {
        self.grid@
    }
}

/// What `options` returns for cell `k`: nothing for a filled cell, else the mask of the
/// digits that the cell may still take.
pub open spec fn candidates(g: Cells, k: int) -> Option<u16> {
    if g[k] is Some {
        None
    } else {
        Some(digit_mask(free_digits(g, k)))
    }
}

impl Default for Sudoku {
    /// The empty board.
    fn default() -> (s: Self)
        ensures
            s@ == empty_grid(),
    {
        let s = Self { grid: [None; 81] };
        assert(s@ =~= empty_grid());
        s
    }
}

impl Sudoku {
    /// What holds of every board: there are eighty-one cells, and every filled cell holds
    /// a digit from 1 to 9.
    #[verifier::type_invariant]
    pub open spec fn wf(&self) -> bool {
        wf_grid(self@)
    }

    /// The empty board.
    pub fn new() -> (s: Self)
        ensures
            s@ == empty_grid(),
    {
        Self::default()
    }

    /// The eighty-one cells in row-major order.
    pub fn grid(&self) -> (cells: [Option<u8>; 81])
        ensures
            cells@ == self@,
    {
        self.grid
    }

    /// Places digit `v` at row `i`, column `j`, whatever the cell held before. Coordinates
    /// outside 0..9 and digits outside 1..=9 are rejected, and the board is left as it was.
    pub fn fill(&mut self, i: usize, j: usize, v: u8) -> (ok: bool)
        ensures
            ok <==> i < 9 && j < 9 && 1 <= v <= 9,
            ok ==> final(self)@ == old(self)@.update(i * 9 + j, Some(v)),
            !ok ==> final(self)@ == old(self)@,
    {
        proof {
            use_type_invariant(&*self);
        }
        if i < 9 && j < 9 && 1 <= v && v <= 9 {
            self.grid[i * 9 + j] = Some(v);
            true
        } else {
            false
        }
    }

    /// Empties the cell at row `i`, column `j`.
    pub fn clear(&mut self, i: usize, j: usize)
        requires
            i < 9,
            j < 9,
        ensures
            final(self)@ == old(self)@.update(i * 9 + j, None),
    {
        proof {
            use_type_invariant(&*self);
        }
        self.grid[i * 9 + j] = None;
    }

    /// The content of the cell at row `i`, column `j`.
    pub fn get(&self, i: usize, j: usize) -> (v: Option<u8>)
        requires
            i < 9,
            j < 9,
        ensures
            v == self@[i * 9 + j],
    {
        self.grid[i * 9 + j]
    }

    /// The mask of the digits present in row `i`.
    pub fn get_horizontal(&self, i: usize, _j: usize) -> (r: u16)
        requires
            i < 9,
        ensures
            r == digit_mask(row_digits(self@, i as int)),
    {
        proof {
            use_type_invariant(self);
        }
        let mut r: u16 = 0;
        let mut j: usize = 0;
        proof {
            assert forall|d: u8| !has_bit(0u16, d) by {
                lemma_empty_mask(d);
            }
        }
        while j < 9
            invariant
                self.wf(),
                i < 9,
                j <= 9,
                forall|d: u8|
                    has_bit(r, d) <==> exists|p: int|
                        in_row(p, i as int) && p % 9 < j && #[trigger] self@[p] == Some(d),
            decreases 9 - j,
        {
            r = with_cell(r, self.get(i, j));
            proof {
                assert forall|d: u8|
                    has_bit(r, d) <==> exists|p: int|
                        in_row(p, i as int) && p % 9 < j + 1 && #[trigger] self@[p] == Some(
                            d,
                        ) by {
                    if self@[i * 9 + j] == Some(d) {
                        assert(in_row(i * 9 + j, i as int));
                    }
                }
            }
            j += 1;
        }
        proof {
            let s = row_digits(self@, i as int);
            assert forall|d: u8| has_bit(r, d) <==> d < 16 && s.contains(d) by {
                assert(s.contains(d) <==> exists|p: int|
                    in_row(p, i as int) && #[trigger] self@[p] == Some(d));
            }
            lemma_mask_from_bits(r, s);
        }
        r
    }

    /// The mask of the digits present in column `j`.
    pub fn get_vertical(&self, _i: usize, j: usize) -> (r: u16)
        requires
            j < 9,
        ensures
            r == digit_mask(col_digits(self@, j as int)),
    {
        proof {
            use_type_invariant(self);
        }
        let mut r: u16 = 0;
        let mut i: usize = 0;
        proof {
            assert forall|d: u8| !has_bit(0u16, d) by {
                lemma_empty_mask(d);
            }
        }
        while i < 9
            invariant
                self.wf(),
                j < 9,
                i <= 9,
                forall|d: u8|
                    has_bit(r, d) <==> exists|p: int|
                        in_col(p, j as int) && p / 9 < i && #[trigger] self@[p] == Some(d),
            decreases 9 - i,
        {
            r = with_cell(r, self.get(i, j));
            proof {
                assert forall|d: u8|
                    has_bit(r, d) <==> exists|p: int|
                        in_col(p, j as int) && p / 9 < i + 1 && #[trigger] self@[p] == Some(
                            d,
                        ) by {
                    if self@[i * 9 + j] == Some(d) {
                        assert(in_col(i * 9 + j, j as int));
                    }
                }
            }
            i += 1;
        }
        proof {
            let s = col_digits(self@, j as int);
            assert forall|d: u8| has_bit(r, d) <==> d < 16 && s.contains(d) by {
                assert(s.contains(d) <==> exists|p: int|
                    in_col(p, j as int) && #[trigger] self@[p] == Some(d));
            }
            lemma_mask_from_bits(r, s);
        }
        r
    }

    /// The mask of the digits present in the 3×3 box that contains `(i, j)`: the centre of
    /// the box and the eight cells around it.
    pub fn get_3by3(&self, i: usize, j: usize) -> (r: u16)
        requires
            i < 9,
            j < 9,
        ensures
            r == digit_mask(box_digits(self@, i as int, j as int)),
    {
        proof {
            use_type_invariant(self);
        }
        let (mid_i, mid_j) = (i / 3 * 3 + 1, j / 3 * 3 + 1);
        let mut r: u16 = 0;
        let mut oi: usize = 0;
        proof {
            assert forall|d: u8| !has_bit(0u16, d) by {
                lemma_empty_mask(d);
            }
        }
        while oi < 3
            invariant
                self.wf(),
                i < 9,
                j < 9,
                mid_i == i / 3 * 3 + 1,
                mid_j == j / 3 * 3 + 1,
                oi <= 3,
                forall|d: u8|
                    has_bit(r, d) <==> exists|p: int|
                        in_box(p, i as int, j as int) && (p / 9) % 3 < oi && #[trigger] self@[p]
                            == Some(d),
            decreases 3 - oi,
        {
            let mut oj: usize = 0;
            while oj < 3
                invariant
                    self.wf(),
                    i < 9,
                    j < 9,
                    mid_i == i / 3 * 3 + 1,
                    mid_j == j / 3 * 3 + 1,
                    oi < 3,
                    oj <= 3,
                    forall|d: u8|
                        has_bit(r, d) <==> exists|p: int|
                            in_box(p, i as int, j as int) && ((p / 9) % 3 < oi || ((p / 9) % 3
                                == oi && (p % 9) % 3 < oj)) && #[trigger] self@[p] == Some(d),
                decreases 3 - oj,
            {
                let row = mid_i + oi - 1;
                let col = mid_j + oj - 1;
                r = with_cell(r, self.get(row, col));
                proof {
                    assert forall|d: u8|
                        has_bit(r, d) <==> exists|p: int|
                            in_box(p, i as int, j as int) && ((p / 9) % 3 < oi || ((p / 9) % 3
                                == oi && (p % 9) % 3 < oj + 1)) && #[trigger] self@[p] == Some(
                                d,
                            ) by {
                        if self@[row * 9 + col] == Some(d) {
                            assert(in_box(row * 9 + col, i as int, j as int));
                        }
                    }
                }
                oj += 1;
            }
            oi += 1;
        }
        proof {
            let s = box_digits(self@, i as int, j as int);
            assert forall|d: u8| has_bit(r, d) <==> d < 16 && s.contains(d) by {
                assert(s.contains(d) <==> exists|p: int|
                    in_box(p, i as int, j as int) && #[trigger] self@[p] == Some(d));
            }
            lemma_mask_from_bits(r, s);
        }
        r
    }

    /// The digits that the cell with index `i` (row `i / 9`, column `i % 9`) may still
    /// take: nothing if the cell is filled, else the mask of the digits from 1 to 9 that
    /// are absent from the cell's row, column and box. No other bit of the mask is set.
    pub fn options(&self, i: usize) -> (ops: Option<u16>)
        requires
            i < 81,
        ensures
            ops == candidates(self@, i as int),
            ops is None <==> self@[i as int] is Some,
            ops matches Some(m) ==> forall|d: u8|
                has_bit(m, d) <==> 1 <= d <= 9 && !row_digits(self@, i as int / 9).contains(d)
                    && !col_digits(self@, i as int % 9).contains(d) && !box_digits(
                    self@,
                    i as int / 9,
                    i as int % 9,
                ).contains(d),
    {
        proof {
            use_type_invariant(self);
        }
        let (row, col) = (i / 9, i % 9);
        match self.get(row, col) {
            Some(_) => None,
            None => {
                let v = self.get_vertical(row, col);
                let h = self.get_horizontal(row, col);
                let b = self.get_3by3(row, col);
                let free = !(v | h | b) & DIGIT_BITS;
                proof {
                    let rows = row_digits(self@, row as int);
                    let cols = col_digits(self@, col as int);
                    let boxes = box_digits(self@, row as int, col as int);
                    assert forall|d: u8|
                        has_bit(free, d) <==> 1 <= d <= 9 && !rows.contains(d) && !cols.contains(d)
                            && !boxes.contains(d) by {
                        lemma_missing_digits(v | h | b, d);
                        lemma_or_masks(v | h, b, d);
                        lemma_or_masks(v, h, d);
                        lemma_digit_mask_bit(rows, d);
                        lemma_digit_mask_bit(cols, d);
                        lemma_digit_mask_bit(boxes, d);
                    }
                    lemma_mask_from_bits(free, free_digits(self@, i as int));
                }
                Some(free)
            },
        }
    }
}

/// `mask` with the digit of `cell` added, if the cell holds one.
fn with_cell(mask: u16, cell: Option<u8>) -> (r: u16)
    requires
        cell matches Some(v) ==> v < 16,
    ensures
        forall|d: u8| has_bit(r, d) <==> has_bit(mask, d) || cell == Some(d),
{
    match cell {
        Some(v) => {
            proof {
                assert forall|d: u8| has_bit(mask | (1u16 << v), d) <==> has_bit(mask, d) || cell
                    == Some(d) by {
                    lemma_or_bit(mask, v, d);
                }
            }
            mask | (1u16 << v)
        },
        None => mask,
    }
}

} // verus!
