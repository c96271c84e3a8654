//! The mathematical model of a board: eighty-one cells in row-major order, each
//! empty or holding a digit from 1 to 9.

use vstd::prelude::*;

verus! {

/// The cells of a board in row-major order: cell `row * 9 + col` is at `(row, col)`.
pub type Cells = Seq<Option<u8>>;

/// There are eighty-one cells, and every filled cell holds a digit from 1 to 9.
pub open spec fn wf_grid(g: Cells) -> bool {
    &&& g.len() == 81
    &&& forall|k: int| 0 <= k < 81 ==> (#[trigger] g[k] matches Some(d) ==> 1 <= d <= 9)
}

/// The board with no cell filled.
pub open spec fn empty_grid() -> Cells {
    Seq::new(81, |k: int| None::<u8>)
}

/// Cell `p` lies in row `row`.
pub open spec fn in_row(p: int, row: int) -> bool {
    0 <= p < 81 && p / 9 == row
}

/// Cell `p` lies in column `col`.
pub open spec fn in_col(p: int, col: int) -> bool {
    0 <= p < 81 && p % 9 == col
}

/// Cell `p` lies in the 3×3 box that contains `(row, col)`.
pub open spec fn in_box(p: int, row: int, col: int) -> bool {
    0 <= p < 81 && (p / 9) / 3 == row / 3 && (p % 9) / 3 == col / 3
}

/// The digits present in row `row`.
pub open spec fn row_digits(g: Cells, row: int) -> Set<u8> {
    Set::new(|d: u8| exists|p: int| in_row(p, row) && #[trigger] g[p] == Some(d))
}

/// The digits present in column `col`.
pub open spec fn col_digits(g: Cells, col: int) -> Set<u8> {
    Set::new(|d: u8| exists|p: int| in_col(p, col) && #[trigger] g[p] == Some(d))
}

/// The digits present in the 3×3 box that contains `(row, col)`.
pub open spec fn box_digits(g: Cells, row: int, col: int) -> Set<u8> {
    Set::new(|d: u8| exists|p: int| in_box(p, row, col) && #[trigger] g[p] == Some(d))
}

/// The digits that cell `k` may not take: those present in its row, its column or its box.
pub open spec fn used_digits(g: Cells, k: int) -> Set<u8> {
    row_digits(g, k / 9) + col_digits(g, k % 9) + box_digits(g, k / 9, k % 9)
}

/// The digits that cell `k` may take: those from 1 to 9 that are absent from its row, its
/// column and its box.
pub open spec fn free_digits(g: Cells, k: int) -> Set<u8> {
    Set::new(|d: u8| 1 <= d <= 9 && !used_digits(g, k).contains(d))
}

/// Cells `a` and `b` are two different cells that share a row, a column or a box.
pub open spec fn peers(a: int, b: int) -> bool {
    &&& 0 <= a < 81
    &&& 0 <= b < 81
    &&& a != b
    &&& (a / 9 == b / 9 || a % 9 == b % 9 || ((a / 9) / 3 == (b / 9) / 3 && (a % 9) / 3 == (b % 9)
        / 3))
}

/// Every cell is filled.
pub open spec fn complete(g: Cells) -> bool {
    forall|k: int| 0 <= k < 81 ==> #[trigger] g[k] is Some
}

/// `g` keeps every filled cell of `g0`.
pub open spec fn extends(g0: Cells, g: Cells) -> bool {
    forall|k: int| 0 <= k < 81 && g0[k] is Some ==> #[trigger] g[k] == g0[k]
}

/// No digit occurs twice in a row, a column or a box. Empty cells are allowed.
pub open spec fn consistent(g: Cells) -> bool {
    &&& wf_grid(g)
    &&& forall|a: int, b: int| #[trigger] peers(a, b) && g[a] is Some ==> g[a] != g[b]
}

/// Digit `d` occurs exactly once in row `row`.
pub open spec fn once_in_row(g: Cells, row: int, d: u8) -> bool {
    exists|p: int|
        in_row(p, row) && #[trigger] g[p] == Some(d) && forall|q: int|
            in_row(q, row) && #[trigger] g[q] == Some(d) ==> q == p
}

/// Digit `d` occurs exactly once in column `col`.
pub open spec fn once_in_col(g: Cells, col: int, d: u8) -> bool {
    exists|p: int|
        in_col(p, col) && #[trigger] g[p] == Some(d) && forall|q: int|
            in_col(q, col) && #[trigger] g[q] == Some(d) ==> q == p
}

/// Digit `d` occurs exactly once in box `b`. The boxes are numbered in row-major order:
/// box `b` begins at row `b / 3 * 3`, column `b % 3 * 3`.
pub open spec fn once_in_box(g: Cells, b: int, d: u8) -> bool {
    exists|p: int|
        in_box(p, b / 3 * 3, b % 3 * 3) && #[trigger] g[p] == Some(d) && forall|q: int|
            in_box(q, b / 3 * 3, b % 3 * 3) && #[trigger] g[q] == Some(d) ==> q == p
}

/// The board is solved: every cell is filled, and every row, every column and every box
/// contains each digit from 1 to 9 exactly once.
pub open spec fn solved(g: Cells) -> bool {
    &&& wf_grid(g)
    &&& complete(g)
    &&& forall|u: int, d: u8| 0 <= u < 9 && 1 <= d <= 9 ==> #[trigger] once_in_row(g, u, d)
    &&& forall|u: int, d: u8| 0 <= u < 9 && 1 <= d <= 9 ==> #[trigger] once_in_col(g, u, d)
    &&& forall|u: int, d: u8| 0 <= u < 9 && 1 <= d <= 9 ==> #[trigger] once_in_box(g, u, d)
}

/// `g` is a solution of the puzzle `g0`: a solved board that keeps the clues of `g0`.
pub open spec fn is_solution(g0: Cells, g: Cells) -> bool {
    extends(g0, g) && solved(g)
}

/// Nine different digits from 1 to 9 are all of them.
proof fn lemma_nine_distinct(vals: Seq<int>, d: int)
    requires
        vals.len() == 9,
        forall|i: int| 0 <= i < 9 ==> 1 <= #[trigger] vals[i] <= 9,
        vals.no_duplicates(),
        1 <= d <= 9,
    ensures
        exists|i: int| 0 <= i < 9 && vals[i] == d,
{
    let all = vstd::set_lib::set_int_range(1, 10);
    vstd::set_lib::lemma_int_range(1, 10);
    vals.unique_seq_to_set();
    vstd::seq_lib::seq_to_set_is_finite(vals);
    assert forall|x: int| vals.to_set().contains(x) implies all.contains(x) by {
        assert(vals.contains(x));
    }
    vstd::set_lib::lemma_subset_equality(vals.to_set(), all);
    assert(all.contains(d));
    assert(vals.to_set().contains(d));
    assert(vals.contains(d));
}

proof fn lemma_full_row(g: Cells, u: int, d: u8)
    requires
        consistent(g),
        complete(g),
        0 <= u < 9,
        1 <= d <= 9,
    ensures
        once_in_row(g, u, d),
{
    let row = Seq::new(9, |c: int| g[u * 9 + c]->0 as int);
    assert forall|i: int, j: int| 0 <= i < 9 && 0 <= j < 9 && i != j implies row[i] != row[j] by {
        assert(peers(u * 9 + i, u * 9 + j));
    }
    lemma_nine_distinct(row, d as int);
    let c = choose|c: int| 0 <= c < 9 && row[c] == d as int;
    let p = u * 9 + c;
    assert(in_row(p, u) && g[p] == Some(d));
    assert forall|q: int| in_row(q, u) && #[trigger] g[q] == Some(d) implies q == p by {
        if q != p {
            assert(peers(q, p));
        }
    }
}

proof fn lemma_full_col(g: Cells, u: int, d: u8)
    requires
        consistent(g),
        complete(g),
        0 <= u < 9,
        1 <= d <= 9,
    ensures
        once_in_col(g, u, d),
{
    let col = Seq::new(9, |r: int| g[r * 9 + u]->0 as int);
    assert forall|i: int, j: int| 0 <= i < 9 && 0 <= j < 9 && i != j implies col[i] != col[j] by {
        assert(peers(i * 9 + u, j * 9 + u));
    }
    lemma_nine_distinct(col, d as int);
    let r = choose|r: int| 0 <= r < 9 && col[r] == d as int;
    let p = r * 9 + u;
    assert(in_col(p, u) && g[p] == Some(d));
    assert forall|q: int| in_col(q, u) && #[trigger] g[q] == Some(d) implies q == p by {
        if q != p {
            assert(peers(q, p));
        }
    }
}

/// The `k`-th cell of box `u`, both counted in row-major order.
spec fn box_cell(u: int, k: int) -> int {
    (u / 3 * 3 + k / 3) * 9 + u % 3 * 3 + k % 3
}

proof fn lemma_box_cell(u: int, k: int)
    requires
        0 <= u < 9,
        0 <= k < 9,
    ensures
        0 <= box_cell(u, k) < 81,
        box_cell(u, k) / 9 == u / 3 * 3 + k / 3,
        box_cell(u, k) % 9 == u % 3 * 3 + k % 3,
        in_box(box_cell(u, k), u / 3 * 3, u % 3 * 3),
{
}

proof fn lemma_full_box(g: Cells, u: int, d: u8)
    requires
        consistent(g),
        complete(g),
        0 <= u < 9,
        1 <= d <= 9,
    ensures
        once_in_box(g, u, d),
{
    let block = Seq::new(9, |k: int| g[box_cell(u, k)]->0 as int);
    assert forall|i: int, j: int| 0 <= i < 9 && 0 <= j < 9 && i != j implies block[i]
        != block[j] by {
        lemma_box_cell(u, i);
        lemma_box_cell(u, j);
        assert(peers(box_cell(u, i), box_cell(u, j)));
    }
    assert forall|i: int| 0 <= i < 9 implies 1 <= #[trigger] block[i] <= 9 by {
        lemma_box_cell(u, i);
    }
    lemma_nine_distinct(block, d as int);
    let k = choose|k: int| 0 <= k < 9 && block[k] == d as int;
    let p = box_cell(u, k);
    lemma_box_cell(u, k);
    assert(g[p] == Some(d));
    assert forall|q: int|
        in_box(q, u / 3 * 3, u % 3 * 3) && #[trigger] g[q] == Some(d) implies q == p by {
        if q != p {
            assert(peers(q, p));
        }
    }
}

/// A full board without a repeated digit among peers is solved.
pub proof fn lemma_consistent_complete_solved(g: Cells)
    requires
        consistent(g),
        complete(g),
    ensures
        solved(g),
{
    assert forall|u: int, d: u8| 0 <= u < 9 && 1 <= d <= 9 implies #[trigger] once_in_row(
        g,
        u,
        d,
    ) by {
        lemma_full_row(g, u, d);
    }
    assert forall|u: int, d: u8| 0 <= u < 9 && 1 <= d <= 9 implies #[trigger] once_in_col(
        g,
        u,
        d,
    ) by {
        lemma_full_col(g, u, d);
    }
    assert forall|u: int, d: u8| 0 <= u < 9 && 1 <= d <= 9 implies #[trigger] once_in_box(
        g,
        u,
        d,
    ) by {
        lemma_full_box(g, u, d);
    }
}

/// A solved board has no repeated digit among peers.
pub proof fn lemma_solved_consistent(g: Cells)
    requires
        solved(g),
    ensures
        consistent(g),
{
    assert forall|a: int, b: int| #[trigger] peers(a, b) && g[a] is Some implies g[a] != g[b] by {
        let d = g[a]->0;
        if g[b] == Some(d) {
            if a / 9 == b / 9 {
                assert(once_in_row(g, a / 9, d));
                assert(in_row(a, a / 9) && in_row(b, a / 9));
            } else if a % 9 == b % 9 {
                assert(once_in_col(g, a % 9, d));
                assert(in_col(a, a % 9) && in_col(b, a % 9));
            } else {
                let u = (a / 9) / 3 * 3 + (a % 9) / 3;
                assert(once_in_box(g, u, d));
                assert(in_box(a, u / 3 * 3, u % 3 * 3) && in_box(b, u / 3 * 3, u % 3 * 3));
            }
        }
    }
}

} // verus!
