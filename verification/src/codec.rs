//! The text form of a puzzle: fields separated by commas, each field a token of three
//! digits (row, column, value) that may stand between white space.

use vstd::prelude::*;
use vstd::string::StringSliceAdditionalSpecFns;
use crate::grid::{empty_grid, wf_grid, Cells};
use crate::sudoku::Sudoku;

verus! {

/// A token of three bytes that does not name a row from 0 to 8, a column from 0 to 8 and
/// a digit from 1 to 9. The fields hold the three bytes.
#[derive(Debug, Clone, Copy, PartialEq, Eq)]
pub struct ParseError {
    pub row: u8,
    pub col: u8,
    pub digit: u8,
}

/// One of the six white-space characters of ASCII.
pub open spec fn is_space1(b: u8) -> bool {
    0x09 <= b <= 0x0d || b == 0x20
}

/// The encoding of one of the white-space characters U+0085 and U+00A0.
pub open spec fn is_space2(b0: u8, b1: u8) -> bool {
    b0 == 0xc2 && (b1 == 0x85 || b1 == 0xa0)
}

/// The encoding of one of the white-space characters U+1680, U+2000 to U+200A, U+2028,
/// U+2029, U+202F, U+205F and U+3000.
pub open spec fn is_space3(b0: u8, b1: u8, b2: u8) -> bool {
    ||| b0 == 0xe1 && b1 == 0x9a && b2 == 0x80
    ||| b0 == 0xe2 && b1 == 0x80 && (0x80 <= b2 <= 0x8a || b2 == 0xa8 || b2 == 0xa9 || b2 == 0xaf)
    ||| b0 == 0xe2 && b1 == 0x81 && b2 == 0x9f
    ||| b0 == 0xe3 && b1 == 0x80 && b2 == 0x80
}

/// The length in bytes of the white-space character with which `s` begins, 0 if it
/// begins with none.
pub open spec fn leading_space(s: Seq<u8>) -> int {
    if s.len() >= 1 && is_space1(s[0]) {
        1
    } else if s.len() >= 2 && is_space2(s[0], s[1]) {
        2
    } else if s.len() >= 3 && is_space3(s[0], s[1], s[2]) {
        3
    } else {
        0
    }
}

/// The length in bytes of the white-space character with which `s` ends, 0 if it ends
/// with none.
pub open spec fn trailing_space(s: Seq<u8>) -> int {
    let n = s.len() as int;
    if n >= 1 && is_space1(s[n - 1]) {
        1
    } else if n >= 2 && is_space2(s[n - 2], s[n - 1]) {
        2
    } else if n >= 3 && is_space3(s[n - 3], s[n - 2], s[n - 1]) {
        3
    } else {
        0
    }
}

/// `s` without the white space at its start.
pub open spec fn trim_start(s: Seq<u8>) -> Seq<u8>
    decreases s.len(),
{
    let n = leading_space(s);
    if n > 0 {
        trim_start(s.skip(n))
    } else {
        s
    }
}

/// `s` without the white space at its end.
pub open spec fn trim_end(s: Seq<u8>) -> Seq<u8>
    decreases s.len(),
{
    let n = trailing_space(s);
    if n > 0 {
        trim_end(s.take(s.len() - n))
    } else {
        s
    }
}

/// `s` without the white space at its start and at its end.
pub open spec fn trim(s: Seq<u8>) -> Seq<u8> {
    trim_end(trim_start(s))
}

/// The length of the first field of `s`: the index of the first comma, or the length of
/// `s` where it holds none.
pub open spec fn field_len(s: Seq<u8>) -> int
    decreases s.len(),
{
    if s.len() == 0 || s[0] == 0x2c {
        0
    } else {
        1 + field_len(s.skip(1))
    }
}

/// The three bytes name a row from 0 to 8, a column from 0 to 8 and a digit from 1 to 9.
pub open spec fn names_cell(row: u8, col: u8, digit: u8) -> bool {
    0x30 <= row <= 0x38 && 0x30 <= col <= 0x38 && 0x31 <= digit <= 0x39
}

/// The board `g` after the token `row col digit` has been read.
pub open spec fn place(g: Cells, row: u8, col: u8, digit: u8) -> Cells {
    g.update((row - 0x30) * 9 + (col - 0x30), Some((digit - 0x30) as u8))
}

/// The board `g` after the field `field` has been read: a field that is three bytes long
/// once trimmed must name a cell and a digit, which is then placed; any other field is
/// passed over.
pub open spec fn read_field(g: Cells, field: Seq<u8>) -> Result<Cells, ParseError> {
    let t = trim(field);
    if t.len() != 3 {
        Ok(g)
    } else if names_cell(t[0], t[1], t[2]) {
        Ok(place(g, t[0], t[1], t[2]))
    } else {
        Err(ParseError { row: t[0], col: t[1], digit: t[2] })
    }
}

/// The board `g` after the fields of `s` have been read from left to right, or the first
/// field that was refused.
pub open spec fn read_fields(g: Cells, s: Seq<u8>) -> Result<Cells, ParseError>
    decreases s.len(),
{
    let n = field_len(s);
    match read_field(g, s.take(n)) {
        Err(e) => Err(e),
        Ok(g1) => if 0 <= n < s.len() {
            read_fields(g1, s.skip(n + 1))
        } else {
            Ok(g1)
        },
    }
}

/// The board that the text `s` describes.
pub open spec fn parse(s: Seq<u8>) -> Result<Cells, ParseError> {
    read_fields(empty_grid(), s)
}

/// The length of the first field is at most the length of the text, no comma stands in
/// the field, and a comma follows it unless the text ends there.
pub proof fn lemma_field_len(s: Seq<u8>)
    ensures
        0 <= field_len(s) <= s.len(),
        forall|i: int| 0 <= i < field_len(s) ==> s[i] != 0x2c,
        field_len(s) < s.len() ==> s[field_len(s)] == 0x2c,
    decreases s.len(),
{
    if s.len() == 0 || s[0] == 0x2c {
    } else {
        lemma_field_len(s.skip(1));
        assert forall|i: int| 0 <= i < field_len(s) implies s[i] != 0x2c by {
            if i > 0 {
                assert(s.skip(1)[i - 1] == s[i]);
            }
        }
    }
}

/// Reading fields keeps a board well formed.
pub proof fn lemma_read_fields_wf(g: Cells, s: Seq<u8>)
    requires
        wf_grid(g),
    ensures
        read_fields(g, s) matches Ok(g1) ==> wf_grid(g1),
    decreases s.len(),
{
    let n = field_len(s);
    lemma_field_len(s);
    if let Ok(g1) = read_field(g, s.take(n)) {
        if n < s.len() {
            lemma_read_fields_wf(g1, s.skip(n + 1));
        }
    }
}

/// Every text that is accepted describes a well-formed board.
pub proof fn lemma_parse_wf(s: Seq<u8>)
    ensures
        parse(s) matches Ok(g) ==> wf_grid(g),
{
    lemma_read_fields_wf(empty_grid(), s);
}

/// The end of the field that begins at `start`.
fn field_end(text: &[u8], start: usize) -> (end: usize)
    requires
        start <= text@.len(),
    ensures
        end == start + field_len(text@.skip(start as int)),
        start <= end <= text@.len(),
{
    let mut end = start;
    proof {
        lemma_field_len(text@.skip(start as int));
    }
    while end < text.len() && text[end] != 0x2c
        invariant
            start <= end <= text@.len(),
            start + field_len(text@.skip(start as int)) == end + field_len(text@.skip(end as int)),
        decreases text@.len() - end,
    {
        proof {
            assert(text@.skip(end as int).skip(1) =~= text@.skip(end + 1));
        }
        end += 1;
    }
    end
}

/// The length of the white-space character with which `text[a..b]` begins.
fn leading_space_in(text: &[u8], a: usize, b: usize) -> (n: usize)
    requires
        a <= b <= text@.len(),
    ensures
        n == leading_space(text@.subrange(a as int, b as int)),
{
    let len = b - a;
    if len >= 1 && (0x09 <= text[a] && text[a] <= 0x0d || text[a] == 0x20) {
        1
    } else if len >= 2 && text[a] == 0xc2 && (text[a + 1] == 0x85 || text[a + 1] == 0xa0) {
        2
    } else if len >= 3 && space3(text[a], text[a + 1], text[a + 2]) {
        3
    } else {
        0
    }
}

/// The length of the white-space character with which `text[a..b]` ends.
fn trailing_space_in(text: &[u8], a: usize, b: usize) -> (n: usize)
    requires
        a <= b <= text@.len(),
    ensures
        n == trailing_space(text@.subrange(a as int, b as int)),
{
    let len = b - a;
    if len >= 1 && (0x09 <= text[b - 1] && text[b - 1] <= 0x0d || text[b - 1] == 0x20) {
        1
    } else if len >= 2 && text[b - 2] == 0xc2 && (text[b - 1] == 0x85 || text[b - 1] == 0xa0) {
        2
    } else if len >= 3 && space3(text[b - 3], text[b - 2], text[b - 1]) {
        3
    } else {
        0
    }
}

fn space3(b0: u8, b1: u8, b2: u8) -> (r: bool)
    ensures
        r == is_space3(b0, b1, b2),
{
    (b0 == 0xe1 && b1 == 0x9a && b2 == 0x80) || (b0 == 0xe2 && b1 == 0x80 && (0x80 <= b2 && b2
        <= 0x8a || b2 == 0xa8 || b2 == 0xa9 || b2 == 0xaf)) || (b0 == 0xe2 && b1 == 0x81 && b2
        == 0x9f) || (b0 == 0xe3 && b1 == 0x80 && b2 == 0x80)
}

/// The bounds of `text[a..b]` once trimmed.
fn trim_bounds(text: &[u8], a: usize, b: usize) -> (r: (usize, usize))
    requires
        a <= b <= text@.len(),
    ensures
        a <= r.0 <= r.1 <= b,
        text@.subrange(r.0 as int, r.1 as int) == trim(text@.subrange(a as int, b as int)),
{
    let mut lo = a;
    let mut n = leading_space_in(text, lo, b);
    while n > 0
        invariant
            a <= lo <= b <= text@.len(),
            n == leading_space(text@.subrange(lo as int, b as int)),
            trim_start(text@.subrange(lo as int, b as int)) == trim_start(
                text@.subrange(a as int, b as int),
            ),
        decreases b - lo,
    {
        proof {
            assert(text@.subrange(lo as int, b as int).skip(n as int) =~= text@.subrange(
                lo + n,
                b as int,
            ));
        }
        lo += n;
        n = leading_space_in(text, lo, b);
    }
    let mut hi = b;
    let mut m = trailing_space_in(text, lo, hi);
    while m > 0
        invariant
            lo <= hi <= b <= text@.len(),
            m == trailing_space(text@.subrange(lo as int, hi as int)),
            trim_end(text@.subrange(lo as int, hi as int)) == trim(
                text@.subrange(a as int, b as int),
            ),
        decreases hi - lo,
    {
        proof {
            let s = text@.subrange(lo as int, hi as int);
            assert(s.take(s.len() - m) =~= text@.subrange(lo as int, hi - m));
        }
        hi -= m;
        m = trailing_space_in(text, lo, hi);
    }
    (lo, hi)
}

impl Sudoku {
    /// Reads a puzzle from its text form. Fields are separated by commas and trimmed of
    /// white space. A field of three bytes names a row, a column and a digit, which is
    /// placed; a later token for the same cell replaces an earlier one. Any other field is
    /// passed over. The first token of three bytes that names no cell or no digit is
    /// returned as the error.
    pub fn from_bytes(text: &[u8]) -> (res: Result<Sudoku, ParseError>)
        ensures
            match res {
                Ok(board) => parse(text@) == Ok::<Cells, ParseError>(board@),
                Err(e) => parse(text@) == Err::<Cells, ParseError>(e),
            },
    {
        let mut board = Sudoku::new();
        let mut start: usize = 0;
        proof {
            assert(text@.skip(0) =~= text@);
        }
        loop
            invariant
                start <= text@.len(),
                read_fields(board@, text@.skip(start as int)) == parse(text@),
            decreases text@.len() - start,
        {
            let end = field_end(text, start);
            let (lo, hi) = trim_bounds(text, start, end);
            proof {
                assert(text@.skip(start as int).take(end - start) =~= text@.subrange(
                    start as int,
                    end as int,
                ));
                if end < text@.len() {
                    assert(text@.skip(start as int).skip(end - start + 1) =~= text@.skip(end + 1));
                }
            }
            if hi - lo == 3 {
                let (row, col, digit) = (text[lo], text[lo + 1], text[lo + 2]);
                if 0x30 <= row && row <= 0x38 && 0x30 <= col && col <= 0x38 && 0x31 <= digit
                    && digit <= 0x39 {
                    board.fill((row - 0x30) as usize, (col - 0x30) as usize, digit - 0x30);
                } else {
                    return Err(ParseError { row, col, digit });
                }
            }
            if end >= text.len() {
                return Ok(board);
            }
            start = end + 1;
        }
    }
}

/// The token that names cell `k` and the digit `d`.
pub open spec fn token(k: int, d: u8) -> Seq<u8> {
    seq![(0x30 + k / 9) as u8, (0x30 + k % 9) as u8, (0x30 + d) as u8]
}

/// `a` and `b` with a comma between them, or the one that is not empty.
pub open spec fn join(a: Seq<u8>, b: Seq<u8>) -> Seq<u8> {
    if a.len() == 0 {
        b
    } else if b.len() == 0 {
        a
    } else {
        a + seq![0x2cu8] + b
    }
}

/// The text form of the cells from `from` on: one token for each filled cell, in
/// row-major order, with commas between the tokens.
pub open spec fn encode_from(g: Cells, from: int) -> Seq<u8>
    decreases 81 - from,
{
    if from >= 81 {
        Seq::empty()
    } else {
        match g[from] {
            None => encode_from(g, from + 1),
            Some(d) => join(token(from, d), encode_from(g, from + 1)),
        }
    }
}

/// The text form of a board.
pub open spec fn encode(g: Cells) -> Seq<u8> {
    encode_from(g, 0)
}

/// `acc` with the filled cells of `g` from `from` on laid over it.
spec fn overlay(acc: Cells, g: Cells, from: int) -> Cells {
    Seq::new(
        81,
        |j: int|
            if j >= from && g[j] is Some {
                g[j]
            } else {
                acc[j]
            },
    )
}

proof fn lemma_field_len_is(s: Seq<u8>, n: int)
    requires
        0 <= n <= s.len(),
        forall|i: int| 0 <= i < n ==> s[i] != 0x2c,
        n < s.len() ==> s[n] == 0x2c,
    ensures
        field_len(s) == n,
    decreases n,
{
    if n > 0 {
        lemma_field_len_is(s.skip(1), n - 1);
    }
}

proof fn lemma_trim_token(k: int, d: u8)
    requires
        0 <= k < 81,
        1 <= d <= 9,
    ensures
        trim(token(k, d)) == token(k, d),
{
    let t = token(k, d);
    assert(leading_space(t) == 0);
    assert(trailing_space(t) == 0);
}

proof fn lemma_read_token(acc: Cells, k: int, d: u8)
    requires
        0 <= k < 81,
        1 <= d <= 9,
        acc.len() == 81,
    ensures
        read_field(acc, token(k, d)) == Ok::<Cells, ParseError>(acc.update(k, Some(d))),
{
    lemma_trim_token(k, d);
    let t = token(k, d);
    assert(names_cell(t[0], t[1], t[2]));
    assert((t[0] - 0x30) * 9 + (t[1] - 0x30) == k);
    assert((t[2] - 0x30) as u8 == d);
}

proof fn lemma_read_encoded(acc: Cells, g: Cells, from: int)
    requires
        wf_grid(g),
        acc.len() == 81,
        0 <= from <= 81,
    ensures
        read_fields(acc, encode_from(g, from)) == Ok::<Cells, ParseError>(overlay(acc, g, from)),
    decreases 81 - from,
{
    let s = encode_from(g, from);
    if from >= 81 {
        assert(field_len(s) == 0);
        assert(s.take(0) =~= s);
        assert(trim(s) =~= s);
        assert(overlay(acc, g, from) =~= acc);
    } else {
        match g[from] {
            None => {
                lemma_read_encoded(acc, g, from + 1);
                assert(overlay(acc, g, from) =~= overlay(acc, g, from + 1));
            },
            Some(d) => {
                let t = token(from, d);
                let rest = encode_from(g, from + 1);
                let acc1 = acc.update(from, Some(d));
                lemma_read_token(acc, from, d);
                lemma_read_encoded(acc1, g, from + 1);
                assert(overlay(acc1, g, from + 1) =~= overlay(acc, g, from));
                lemma_field_len_is(s, 3);
                assert(s.take(3) =~= t);
                if rest.len() == 0 {
                    assert(s =~= t);
                    assert(field_len(rest) == 0);
                    assert(rest.take(0) =~= rest);
                    assert(trim(rest) =~= rest);
                } else {
                    assert(s.skip(4) =~= rest);
                }
            },
        }
    }
}

/// Reading the text form of a board gives the board back.
pub proof fn lemma_parse_encode(g: Cells)
    requires
        wf_grid(g),
    ensures
        parse(encode(g)) == Ok::<Cells, ParseError>(g),
{
    lemma_read_encoded(empty_grid(), g, 0);
    assert(overlay(empty_grid(), g, 0) =~= g);
}

impl Sudoku {
    /// The text form of the board: one token for each filled cell, in row-major order,
    /// with commas between the tokens. [`Sudoku::from_bytes`] reads it back.
    pub fn to_bytes(&self) -> (text: Vec<u8>)
        ensures
            text@ == encode(self@),
            parse(text@) == Ok::<Cells, ParseError>(self@),
    {
        proof {
            use_type_invariant(self);
        }
        let mut text: Vec<u8> = Vec::new();
        let mut k: usize = 0;
        while k < 81
            invariant
                self.wf(),
                k <= 81,
                join(text@, encode_from(self@, k as int)) == encode(self@),
            decreases 81 - k,
        {
            let ghost before = text@;
            let ghost rest = encode_from(self@, k + 1);
            if let Some(d) = self.get(k / 9, k % 9) {
                if text.len() > 0 {
                    text.push(0x2c);
                }
                text.push(0x30 + (k / 9) as u8);
                text.push(0x30 + (k % 9) as u8);
                text.push(0x30 + d);
                proof {
                    let t = token(k as int, d);
                    assert(text@ =~= join(before, t));
                    assert(join(join(before, t), rest) =~= join(before, join(t, rest)));
                }
            }
            k += 1;
        }
        proof {
            lemma_parse_encode(self@);
        }
        text
    }
}

impl std::str::FromStr for Sudoku {
    type Err = ParseError;

    /// Reads a puzzle from its text form, as [`Sudoku::from_bytes`] does from the bytes
    /// of `s`.
    fn from_str(s: &str) -> (res: Result<Self, ParseError>)
        ensures
            match res {
                Ok(board) => parse(s.spec_bytes()) == Ok::<Cells, ParseError>(board@),
                Err(e) => parse(s.spec_bytes()) == Err::<Cells, ParseError>(e),
            },
    {
        Sudoku::from_bytes(s.as_bytes())
    }
}

} // verus!
