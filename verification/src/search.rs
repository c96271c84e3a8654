//! The search engine: depth-first backtracking over the cells in row-major order.

use vstd::prelude::*;
use crate::bits::{has_bit, lemma_digit_mask_bit, lemma_empty_mask};
use crate::grid::{
    box_digits, col_digits, consistent, free_digits, in_box, in_col, in_row, is_solution,
    lemma_consistent_complete_solved, lemma_solved_consistent, peers, row_digits, used_digits,
    wf_grid, Cells,
};
use crate::sudoku::{candidates, Sudoku};

verus! {

/// Digit `d` may be placed in cell `k`: no peer of `k` holds it.
pub open spec fn free_at(g: Cells, k: int, d: u8) -> bool {
    &&& 1 <= d <= 9
    &&& forall|p: int| #[trigger] peers(k, p) ==> g[p] != Some(d)
}

/// `g` is a result that the search may reach from `g0` when it starts at cell `from`:
/// the cells before `from` and the filled cells of `g0` are kept, every cell from `from`
/// on is filled, and each cell that the search filled differs from all of its peers.
pub open spec fn completion(g0: Cells, from: int, g: Cells) -> bool {
    &&& wf_grid(g)
    &&& forall|k: int| 0 <= k < 81 && (k < from || g0[k] is Some) ==> #[trigger] g[k] == g0[k]
    &&& forall|k: int| from <= k < 81 ==> #[trigger] g[k] is Some
    &&& forall|k: int, p: int|
        from <= k < 81 && g0[k] is None && #[trigger] peers(k, p) ==> g[p] != g[k]
}

/// The digit in cell `k`, or 0 for an empty cell.
pub open spec fn digit_at(g: Cells, k: int) -> int {
    match g[k] {
        Some(d) => d as int,
        None => 0,
    }
}

/// `g` and `h` agree before cell `k`, and there `g` holds the smaller digit.
pub open spec fn smaller_at(g: Cells, h: Cells, k: int) -> bool {
    &&& 0 <= k < 81
    &&& forall|j: int| 0 <= j < k ==> #[trigger] g[j] == h[j]
    &&& digit_at(g, k) < digit_at(h, k)
}

/// The search reaches `g` no later than `h`: they are equal, or at the first cell where
/// they differ `g` holds the smaller digit.
pub open spec fn precedes(g: Cells, h: Cells) -> bool {
    g == h || exists|k: int| smaller_at(g, h, k)
}

/// With no cell left to visit the only completion of a board is the board itself.
pub proof fn lemma_completion_end(g0: Cells, g: Cells)
    requires
        wf_grid(g0),
    ensures
        completion(g0, 81, g) <==> g == g0,
{
    if completion(g0, 81, g) {
        assert(g =~= g0);
    }
}

/// A filled cell is no choice point: the completions from it are those from the next cell.
pub proof fn lemma_completion_skip(g0: Cells, i: int, g: Cells)
    requires
        wf_grid(g0),
        0 <= i < 81,
        g0[i] is Some,
    ensures
        completion(g0, i, g) <==> completion(g0, i + 1, g),
{
}

/// Placing a free digit `d` in the empty cell `i` selects, among the completions from `i`,
/// exactly those that hold `d` there.
pub proof fn lemma_completion_place(g0: Cells, i: int, d: u8, g: Cells)
    requires
        wf_grid(g0),
        0 <= i < 81,
        g0[i] is None,
        free_at(g0, i, d),
    ensures
        completion(g0.update(i, Some(d)), i + 1, g) <==> completion(g0, i, g) && g[i] == Some(d),
{
    let g1 = g0.update(i, Some(d));
    if completion(g1, i + 1, g) {
        assert(g[i] == g1[i]);
        assert forall|k: int| 0 <= k < 81 && (k < i || g0[k] is Some) implies #[trigger] g[k]
            == g0[k] by {
            assert(g[k] == g1[k]);
        }
        assert forall|k: int, p: int|
            i <= k < 81 && g0[k] is None && #[trigger] peers(k, p) implies g[p] != g[k] by {
            if k == i {
                if g0[p] is Some || p < i {
                    assert(g[p] == g1[p]);
                } else {
                    assert(peers(p, i));
                }
            } else {
                assert(g1[k] is None);
            }
        }
        assert(completion(g0, i, g));
    }
    if completion(g0, i, g) && g[i] == Some(d) {
        assert forall|k: int| 0 <= k < 81 && (k < i + 1 || g1[k] is Some) implies #[trigger] g[k]
            == g1[k] by {
            if k != i {
                assert(g[k] == g0[k]);
            }
        }
        assert(completion(g1, i + 1, g));
    }
}

/// No completion from the empty cell `i` holds there a digit that a peer already holds.
pub proof fn lemma_completion_blocked(g0: Cells, i: int, d: u8, g: Cells)
    requires
        wf_grid(g0),
        0 <= i < 81,
        g0[i] is None,
        1 <= d <= 9,
        !free_at(g0, i, d),
        completion(g0, i, g),
    ensures
        g[i] != Some(d),
{
    let p = choose|p: int| #[trigger] peers(i, p) && g0[p] == Some(d);
    assert(g[p] == g0[p]);
}

/// For an empty cell, the bits 1 to 9 of its candidate mask are the digits free at it.
pub proof fn lemma_candidates_free(g: Cells, k: int, d: u8)
    requires
        wf_grid(g),
        0 <= k < 81,
        g[k] is None,
        1 <= d <= 9,
    ensures
        has_bit(candidates(g, k)->0, d) <==> free_at(g, k, d),
{
    let used = used_digits(g, k);
    lemma_digit_mask_bit(free_digits(g, k), d);
    let rows = row_digits(g, k / 9);
    let cols = col_digits(g, k % 9);
    let boxes = box_digits(g, k / 9, k % 9);
    assert(rows.contains(d) <==> exists|p: int| in_row(p, k / 9) && #[trigger] g[p] == Some(d));
    assert(cols.contains(d) <==> exists|p: int| in_col(p, k % 9) && #[trigger] g[p] == Some(d));
    assert(boxes.contains(d) <==> exists|p: int|
        in_box(p, k / 9, k % 9) && #[trigger] g[p] == Some(d));
    if used.contains(d) {
        let p = choose|p: int|
            (in_row(p, k / 9) || in_col(p, k % 9) || in_box(p, k / 9, k % 9)) && #[trigger] g[p]
                == Some(d);
        assert(peers(k, p));
    }
    if !free_at(g, k, d) {
        let p = choose|p: int| #[trigger] peers(k, p) && g[p] == Some(d);
        assert(in_row(p, k / 9) || in_col(p, k % 9) || in_box(p, k / 9, k % 9));
    }
}

/// Every solution of a puzzle is a completion of it from the first cell.
pub proof fn lemma_solution_is_completion(g0: Cells, g: Cells)
    requires
        is_solution(g0, g),
    ensures
        completion(g0, 0, g),
{
    lemma_solved_consistent(g);
    assert forall|k: int, p: int|
        0 <= k < 81 && g0[k] is None && #[trigger] peers(k, p) implies g[p] != g[k] by {
        assert(g[k] is Some);
    }
}

/// On a board without a repeated digit among peers, every completion from the first
/// cell is a solution.
pub proof fn lemma_completion_is_solution(g0: Cells, g: Cells)
    requires
        consistent(g0),
        completion(g0, 0, g),
    ensures
        is_solution(g0, g),
{
    assert forall|a: int, b: int| #[trigger] peers(a, b) && g[a] is Some implies g[a] != g[b] by {
        if g0[a] is None {
        } else if g0[b] is None {
            assert(peers(b, a));
        } else {
            assert(g[a] == g0[a]);
            assert(g[b] == g0[b]);
        }
    }
    lemma_consistent_complete_solved(g);
}

/// A puzzle that has a solution has no repeated digit among peers.
pub proof fn lemma_solvable_is_consistent(g0: Cells, g: Cells)
    requires
        wf_grid(g0),
        is_solution(g0, g),
    ensures
        consistent(g0),
{
    lemma_solved_consistent(g);
    assert forall|a: int, b: int| #[trigger] peers(a, b) && g0[a] is Some implies g0[a]
        != g0[b] by {
        if g0[b] is Some {
            assert(g[a] == g0[a]);
            assert(g[b] == g0[b]);
        }
    }
}

impl Sudoku {
    /// Solves the puzzle in place. Returns whether the search found a way to fill every
    /// empty cell; if it did not, the board is as it was.
    ///
    /// A puzzle that has a solution is solved. On a board without a repeated digit among
    /// peers the result is a solution, the first in the order of the search, and `false`
    /// means that there is none. The clues themselves are never checked: where two peers
    /// hold the same digit from the start, the search may still fill the board around them.
    pub fn solve(&mut self) -> (found: bool)
        ensures
            found <==> exists|g: Cells| completion(old(self)@, 0, g),
            found ==> completion(old(self)@, 0, final(self)@),
            found ==> forall|g: Cells| #[trigger]
                completion(old(self)@, 0, g) ==> precedes(final(self)@, g),
            !found ==> final(self)@ == old(self)@,
            (exists|g: Cells| is_solution(old(self)@, g)) ==> found && is_solution(
                old(self)@,
                final(self)@,
            ),
            consistent(old(self)@) ==> (found <==> exists|g: Cells| is_solution(old(self)@, g)),
            consistent(old(self)@) && found ==> is_solution(old(self)@, final(self)@),
            found ==> forall|g: Cells| #[trigger]
                is_solution(old(self)@, g) ==> precedes(final(self)@, g),
    {
        proof {
            use_type_invariant(&*self);
        }
        let ghost g0 = self@;
        let found = self.dfs(0);
        proof {
            assert forall|g: Cells| #[trigger] is_solution(g0, g) implies completion(g0, 0, g)
                && consistent(g0) by {
                lemma_solution_is_completion(g0, g);
                lemma_solvable_is_consistent(g0, g);
            }
            if consistent(g0) && found {
                lemma_completion_is_solution(g0, self@);
            }
        }
        found
    }

    /// Searches for a completion of the board from cell `i` on. Filled cells are skipped;
    /// in an empty cell the free digits are tried in ascending order, each followed by the
    /// search from the next cell and taken out again if that search fails.
    ///
    /// Returns whether a completion exists. If so the board holds the first one in the
    /// order of the search; if not the board is as it was.
    pub fn dfs(&mut self, i: usize) -> (found: bool)
        requires
            i < 81,
        ensures
            found <==> exists|g: Cells| completion(old(self)@, i as int, g),
            found ==> completion(old(self)@, i as int, final(self)@),
            found ==> forall|g: Cells| #[trigger]
                completion(old(self)@, i as int, g) ==> precedes(final(self)@, g),
            !found ==> final(self)@ == old(self)@,
        decreases 81 - i,
    {
        proof {
            use_type_invariant(&*self);
        }
        let ghost g0 = self@;
        match self.options(i) {
            None => {
                proof {
                    assert forall|g: Cells|
                        #![trigger completion(g0, i as int, g)]
                        #![trigger completion(g0, i as int + 1, g)]
                        completion(g0, i as int, g) <==> completion(g0, i as int + 1, g) by {
                        lemma_completion_skip(g0, i as int, g);
                    }
                }
                if i == 80 {
                    proof {
                        lemma_completion_end(g0, g0);
                        assert forall|g: Cells| #[trigger]
                            completion(g0, i as int, g) implies precedes(g0, g) by {
                            lemma_completion_end(g0, g);
                        }
                    }
                    true
                } else {
                    self.dfs(i + 1)
                }
            },
            Some(ops) => {
                if ops == 0 {
                    proof {
                        assert forall|g: Cells| !completion(g0, i as int, g) by {
                            if completion(g0, i as int, g) {
                                let d = g[i as int]->0;
                                lemma_empty_mask(d);
                                lemma_candidates_free(g0, i as int, d);
                                lemma_completion_blocked(g0, i as int, d, g);
                            }
                        }
                    }
                    return false;
                }
                let mut d: u8 = 1;
                while d < 10
                    invariant
                        old(self)@ == g0,
                        self@ == g0,
                        wf_grid(g0),
                        i < 81,
                        g0[i as int] is None,
                        Some(ops) == candidates(g0, i as int),
                        1 <= d <= 10,
                        forall|g: Cells| #[trigger]
                            completion(g0, i as int, g) ==> digit_at(g, i as int) >= d,
                    decreases 10 - d,
                {
                    proof {
                        lemma_candidates_free(g0, i as int, d);
                    }
                    if (ops >> d) & 1 != 0 {
                        proof {
                            lemma_bit_test(ops, d);
                        }
                        self.fill(i / 9, i % 9, d);
                        let ghost g1 = self@;
                        proof {
                            assert(g1 == g0.update(i as int, Some(d)));
                            assert forall|g: Cells|
                                #![trigger completion(g0, i as int, g)]
                                #![trigger completion(g1, i as int + 1, g)]
                                completion(g1, i as int + 1, g) <==> completion(g0, i as int, g)
                                    && g[i as int] == Some(d) by {
                                lemma_completion_place(g0, i as int, d, g);
                            }
                        }
                        let found = if i == 80 {
                            proof {
                                lemma_completion_end(g1, g1);
                                assert forall|g: Cells| #[trigger]
                                    completion(g1, 81, g) implies precedes(g1, g) by {
                                    lemma_completion_end(g1, g);
                                }
                            }
                            true
                        } else {
                            self.dfs(i + 1)
                        };
                        if found {
                            proof {
                                let f = self@;
                                assert(completion(g0, i as int, f));
                                assert forall|g: Cells| #[trigger]
                                    completion(g0, i as int, g) implies precedes(f, g) by {
                                    if g[i as int] == Some(d) {
                                        assert(completion(g1, i as int + 1, g));
                                    } else {
                                        assert(digit_at(g, i as int) >= d);
                                        assert(f[i as int] == Some(d));
                                        assert(smaller_at(f, g, i as int));
                                    }
                                }
                            }
                            return true;
                        }
                        self.clear(i / 9, i % 9);
                        proof {
                            assert(self@ =~= g0);
                        }
                    } else {
                        proof {
                            lemma_bit_test(ops, d);
                            assert forall|g: Cells| #[trigger]
                                completion(g0, i as int, g) implies g[i as int] != Some(d) by {
                                lemma_completion_blocked(g0, i as int, d, g);
                            }
                        }
                    }
                    d += 1;
                }
                proof {
                    assert forall|g: Cells| !completion(g0, i as int, g) by {
                        if completion(g0, i as int, g) {
                            assert(g[i as int] is Some);
                            assert(digit_at(g, i as int) >= 10);
                        }
                    }
                }
                false
            },
        }
    }
}

proof fn lemma_bit_test(mask: u16, d: u8)
    by (bit_vector)
    requires
        d < 16,
    ensures
        ((mask >> d) & 1 != 0) == has_bit(mask, d),
{
}

} // verus!
