//! Digit masks: sixteen-bit words in which bit `d` stands for the digit `d`.
//!
//! Sudoku digits use bits 1 to 9; bit 0 and bits 10 to 15 stand for no digit.

use vstd::prelude::*;

verus! {

/// Bit `d` of `mask` is set. No bit at or above 16 is ever set.
pub open spec fn has_bit(mask: u16, d: u8) -> bool {
    d < 16 && (mask >> d) & 1 == 1
}

/// The bits 1 to 9.
pub const DIGIT_BITS: u16 = 0x03fe;

/// The single bit `d` when `present`, the empty mask otherwise.
pub open spec fn bit_when(present: bool, d: u8) -> u16 {
    if present {
        1u16 << d
    } else {
        0
    }
}

/// The mask assembled from one flag per bit position. It is held opaque: proofs go
/// through `lemma_digit_mask_bit`.
#[verifier::opaque]
pub open spec fn pack(
    b0: bool,
    b1: bool,
    b2: bool,
    b3: bool,
    b4: bool,
    b5: bool,
    b6: bool,
    b7: bool,
    b8: bool,
    b9: bool,
    b10: bool,
    b11: bool,
    b12: bool,
    b13: bool,
    b14: bool,
    b15: bool,
) -> u16 {
    bit_when(b0, 0) | bit_when(b1, 1) | bit_when(b2, 2) | bit_when(b3, 3) | bit_when(b4, 4)
        | bit_when(b5, 5) | bit_when(b6, 6) | bit_when(b7, 7) | bit_when(b8, 8) | bit_when(b9, 9)
        | bit_when(b10, 10) | bit_when(b11, 11) | bit_when(b12, 12) | bit_when(b13, 13) | bit_when(
        b14,
        14,
    ) | bit_when(b15, 15)
}

/// The mask whose set bits are exactly the members of `s` below 16.
pub open spec fn digit_mask(s: Set<u8>) -> u16 {
    pack(
        s.contains(0),
        s.contains(1),
        s.contains(2),
        s.contains(3),
        s.contains(4),
        s.contains(5),
        s.contains(6),
        s.contains(7),
        s.contains(8),
        s.contains(9),
        s.contains(10),
        s.contains(11),
        s.contains(12),
        s.contains(13),
        s.contains(14),
        s.contains(15),
    )
}

/// The first `n` digits `1, 2, .., n` in ascending order.
pub open spec fn digits_to(n: nat) -> Seq<u8> {
    Seq::new(n, |i: int| (i + 1) as u8)
}

/// Membership in `mask`, as a predicate on bit positions.
pub open spec fn in_mask(mask: u16) -> spec_fn(u8) -> bool {
    |d: u8| has_bit(mask, d)
}

/// The digits among 1 to 9 whose bit is set in `mask`, in ascending order.
pub open spec fn mask_digits(mask: u16) -> Seq<u8> {
    digits_to(9).filter(in_mask(mask))
}

/// Each element is smaller than every later one.
pub open spec fn ascending(s: Seq<u8>) -> bool {
    forall|i: int, j: int| 0 <= i < j < s.len() ==> s[i] < s[j]
}

/// The mask with bit `d` set for every `d` that occurs in `v`. The elements of `v` are
/// below 16, the width of a mask.
pub fn nums_to_bits(v: &[u8]) -> (r: u16)
    requires
        forall|k: int| 0 <= k < v@.len() ==> v@[k] < 16,
    ensures
        r == digit_mask(v@.to_set()),
{
    let mut r: u16 = 0;
    let mut k: usize = 0;
    proof {
        assert forall|d: u8| !has_bit(0u16, d) by {
            lemma_empty_mask(d);
        }
    }
    while k < v.len()
        invariant
            k <= v@.len(),
            forall|j: int| 0 <= j < v@.len() ==> v@[j] < 16,
            forall|d: u8| has_bit(r, d) <==> exists|j: int| 0 <= j < k && v@[j] == d,
        decreases v@.len() - k,
    {
        let x = v[k];
        proof {
            assert forall|d: u8| has_bit(r | (1u16 << x), d) <==> exists|j: int|
                0 <= j < k + 1 && v@[j] == d by {
                lemma_or_bit(r, x, d);
                if d == x {
                    assert(v@[k as int] == d);
                }
            }
        }
        r = r | (1u16 << x);
        k += 1;
    }
    proof {
        assert forall|d: u8| has_bit(r, d) <==> d < 16 && v@.to_set().contains(d) by {
            assert(v@.to_set().contains(d) == v@.contains(d));
        }
        lemma_mask_from_bits(r, v@.to_set());
    }
    r
}

/// The digits 1 to 9 whose bit is set in `r`, in ascending order.
pub fn bits_to_nums(r: u16) -> (v: Vec<u8>)
    ensures
        v@ == mask_digits(r),
{
    let mut v: Vec<u8> = Vec::new();
    let mut i: u8 = 1;
    proof {
        digits_to(0).lemma_filter_len(in_mask(r));
        assert(digits_to(0).filter(in_mask(r)) =~= Seq::<u8>::empty());
    }
    while i < 10
        invariant
            1 <= i <= 10,
            v@ == digits_to((i - 1) as nat).filter(in_mask(r)),
        decreases 10 - i,
    {
        proof {
            let before = digits_to((i - 1) as nat);
            assert(digits_to(i as nat) =~= before.push(i));
            before.lemma_filter_push(i, in_mask(r));
        }
        if (r >> i) & 1 == 1 {
            v.push(i);
        }
        i += 1;
    }
    v
}

/// Bit `d` of `digit_mask(s)` is set exactly when `d` is a member of `s` below 16.
pub proof fn lemma_digit_mask_bit(s: Set<u8>, d: u8)
    ensures
        has_bit(digit_mask(s), d) <==> d < 16 && s.contains(d),
{
    lemma_pack_bit(
        s.contains(0),
        s.contains(1),
        s.contains(2),
        s.contains(3),
        s.contains(4),
        s.contains(5),
        s.contains(6),
        s.contains(7),
        s.contains(8),
        s.contains(9),
        s.contains(10),
        s.contains(11),
        s.contains(12),
        s.contains(13),
        s.contains(14),
        s.contains(15),
        d,
    );
}

/// A mask whose bits are the members of `s` below 16 is `digit_mask(s)`.
pub proof fn lemma_mask_from_bits(mask: u16, s: Set<u8>)
    requires
        forall|d: u8| has_bit(mask, d) <==> d < 16 && s.contains(d),
    ensures
        mask == digit_mask(s),
{
    assert forall|d: u8| has_bit(mask, d) == has_bit(digit_mask(s), d) by {
        lemma_digit_mask_bit(s, d);
    }
    lemma_same_bits_same_mask(mask, digit_mask(s));
}

/// `mask_digits(mask)` lists, in ascending order and without repetition, exactly the
/// digits 1 to 9 whose bit is set in `mask`.
pub proof fn lemma_mask_digits(mask: u16)
    ensures
        ascending(mask_digits(mask)),
        forall|d: u8| #[trigger] mask_digits(mask).contains(d) <==> 1 <= d <= 9 && has_bit(mask, d),
{
    lemma_digits_to_filter(mask, 9);
}

/// Two ascending lists with the same members are the same list.
pub proof fn lemma_ascending_unique(a: Seq<u8>, b: Seq<u8>)
    requires
        ascending(a),
        ascending(b),
        forall|d: u8| a.contains(d) <==> b.contains(d),
    ensures
        a == b,
    decreases a.len(),
{
    if a.len() == 0 {
        if b.len() > 0 {
            assert(b.contains(b[0]));
        }
        assert(a =~= b);
    } else {
        let x = a.last();
        assert(a.contains(x));
        let j = choose|j: int| 0 <= j < b.len() && b[j] == x;
        let y = b.last();
        assert(b.contains(y));
        let i = choose|i: int| 0 <= i < a.len() && a[i] == y;
        assert(x == y);
        let a0 = a.drop_last();
        let b0 = b.drop_last();
        assert forall|d: u8| a0.contains(d) <==> b0.contains(d) by {
            if a0.contains(d) {
                let i = choose|i: int| 0 <= i < a0.len() && a0[i] == d;
                assert(a[i] == d);
                assert(a.contains(d));
                let j = choose|j: int| 0 <= j < b.len() && b[j] == d;
                assert(b0[j] == d);
            }
            if b0.contains(d) {
                let j = choose|j: int| 0 <= j < b0.len() && b0[j] == d;
                assert(b[j] == d);
                assert(b.contains(d));
                let i = choose|i: int| 0 <= i < a.len() && a[i] == d;
                assert(a0[i] == d);
            }
        }
        lemma_ascending_unique(a0, b0);
        assert(a =~= a0.push(x));
        assert(b =~= b0.push(y));
    }
}

/// Listing the digits of the mask built from `v` gives every digit of `v` once, in
/// ascending order, whatever the order of `v` and however often a digit occurs in it.
/// A list that is ascending already is given back as it is.
pub proof fn lemma_mask_digits_of_digit_mask(v: Seq<u8>)
    requires
        forall|k: int| 0 <= k < v.len() ==> 1 <= #[trigger] v[k] <= 9,
    ensures
        ascending(mask_digits(digit_mask(v.to_set()))),
        forall|d: u8| mask_digits(digit_mask(v.to_set())).contains(d) <==> v.contains(d),
        ascending(v) ==> mask_digits(digit_mask(v.to_set())) == v,
{
    let mask = digit_mask(v.to_set());
    let listed = mask_digits(mask);
    lemma_mask_digits(mask);
    assert forall|d: u8| listed.contains(d) <==> v.contains(d) by {
        lemma_digit_mask_bit(v.to_set(), d);
        assert(v.to_set().contains(d) == v.contains(d));
        if v.contains(d) {
            let k = choose|k: int| 0 <= k < v.len() && v[k] == d;
            assert(1 <= v[k] <= 9);
        }
    }
    if ascending(v) {
        lemma_ascending_unique(listed, v);
    }
}

/// Building the mask from the listed digits of `mask` gives back its bits 1 to 9.
pub proof fn lemma_digit_mask_of_mask_digits(mask: u16)
    ensures
        digit_mask(mask_digits(mask).to_set()) == mask & DIGIT_BITS,
{
    let listed = mask_digits(mask).to_set();
    lemma_mask_digits(mask);
    assert forall|d: u8| has_bit(mask & DIGIT_BITS, d) <==> d < 16 && listed.contains(d) by {
        lemma_digit_bits(mask, d);
        assert(listed.contains(d) == mask_digits(mask).contains(d));
    }
    lemma_mask_from_bits(mask & DIGIT_BITS, listed);
}

/// Setting bit `v` adds `v` to the bits of a mask and changes no other bit.
pub proof fn lemma_or_bit(mask: u16, v: u8, d: u8)
    by (bit_vector)
    requires
        v < 16,
    ensures
        has_bit(mask | (1u16 << v), d) == (has_bit(mask, d) || d == v),
{
}

/// A bit of a union is set when it is set in either operand.
pub proof fn lemma_or_masks(a: u16, b: u16, d: u8)
    by (bit_vector)
    ensures
        has_bit(a | b, d) == (has_bit(a, d) || has_bit(b, d)),
{
}

/// The complement of a mask within the bits 1 to 9 holds the digits that the mask lacks.
pub proof fn lemma_missing_digits(a: u16, d: u8)
    by (bit_vector)
    ensures
        has_bit(!a & 0x03fe, d) == (1 <= d <= 9 && !has_bit(a, d)),
{
}

/// The empty mask has no bit set.
pub proof fn lemma_empty_mask(d: u8)
    by (bit_vector)
    ensures
        !has_bit(0u16, d),
{
}

proof fn lemma_pack_bit(
    b0: bool,
    b1: bool,
    b2: bool,
    b3: bool,
    b4: bool,
    b5: bool,
    b6: bool,
    b7: bool,
    b8: bool,
    b9: bool,
    b10: bool,
    b11: bool,
    b12: bool,
    b13: bool,
    b14: bool,
    b15: bool,
    d: u8,
)
    by (bit_vector)
    ensures
        has_bit(pack(b0, b1, b2, b3, b4, b5, b6, b7, b8, b9, b10, b11, b12, b13, b14, b15), d) == (
        (d == 0 && b0) || (d == 1 && b1) || (d == 2 && b2) || (d == 3 && b3) || (d == 4 && b4) || (d
            == 5 && b5) || (d == 6 && b6) || (d == 7 && b7) || (d == 8 && b8) || (d == 9 && b9) || (
        d == 10 && b10) || (d == 11 && b11) || (d == 12 && b12) || (d == 13 && b13) || (d == 14
            && b14) || (d == 15 && b15)),
{
}

proof fn lemma_same_bits_same_mask(a: u16, b: u16)
    by (bit_vector)
    requires
        has_bit(a, 0) == has_bit(b, 0),
        has_bit(a, 1) == has_bit(b, 1),
        has_bit(a, 2) == has_bit(b, 2),
        has_bit(a, 3) == has_bit(b, 3),
        has_bit(a, 4) == has_bit(b, 4),
        has_bit(a, 5) == has_bit(b, 5),
        has_bit(a, 6) == has_bit(b, 6),
        has_bit(a, 7) == has_bit(b, 7),
        has_bit(a, 8) == has_bit(b, 8),
        has_bit(a, 9) == has_bit(b, 9),
        has_bit(a, 10) == has_bit(b, 10),
        has_bit(a, 11) == has_bit(b, 11),
        has_bit(a, 12) == has_bit(b, 12),
        has_bit(a, 13) == has_bit(b, 13),
        has_bit(a, 14) == has_bit(b, 14),
        has_bit(a, 15) == has_bit(b, 15),
    ensures
        a == b,
{
}

proof fn lemma_digit_bits(mask: u16, d: u8)
    by (bit_vector)
    ensures
        has_bit(mask & 0x03fe, d) == (1 <= d <= 9 && has_bit(mask, d)),
{
}

proof fn lemma_digits_to_filter(mask: u16, n: nat)
    requires
        n <= 9,
    ensures
        ascending(digits_to(n).filter(in_mask(mask))),
        forall|d: u8| #[trigger]
            digits_to(n).filter(in_mask(mask)).contains(d) <==> 1 <= d <= n && has_bit(mask, d),
    decreases n,
{
    let keep = in_mask(mask);
    if n == 0 {
        assert(digits_to(0).filter(keep).len() <= digits_to(0).len()) by {
            digits_to(0).lemma_filter_len(keep);
        }
    } else {
        let before = digits_to((n - 1) as nat);
        let last = n as u8;
        lemma_digits_to_filter(mask, (n - 1) as nat);
        assert(digits_to(n) =~= before.push(last));
        before.lemma_filter_push(last, keep);
        let kept = before.filter(keep);
        if keep(last) {
            assert forall|i: int, j: int| 0 <= i < j < kept.push(last).len() implies kept.push(
                last,
            )[i] < kept.push(last)[j] by {
                assert(kept.contains(kept[i]));
                if j < kept.len() {
                    assert(kept[i] < kept[j]);
                }
            }
            assert forall|d: u8| #[trigger]
                kept.push(last).contains(d) <==> 1 <= d <= n && has_bit(mask, d) by {
                if kept.push(last).contains(d) {
                    let i = choose|i: int| 0 <= i < kept.push(last).len() && kept.push(last)[i] == d;
                    if i < kept.len() {
                        assert(kept.contains(d));
                    }
                }
                if 1 <= d <= n && has_bit(mask, d) {
                    if d == last {
                        assert(kept.push(last)[kept.len() as int] == d);
                    } else {
                        assert(kept.contains(d));
                        let i = choose|i: int| 0 <= i < kept.len() && kept[i] == d;
                        assert(kept.push(last)[i] == d);
                    }
                }
            }
        }
    }
}

} // verus!
