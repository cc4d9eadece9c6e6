use vstd::prelude::*;
use vstd::string::StringSliceAdditionalSpecFns;

use crate::board::Marble;
use crate::coordinate::Coordinate;

verus! {

/// The first index in `lo..hi` where `s` holds `ch`.
pub open spec fn find_in(s: Seq<u8>, ch: u8, lo: int, hi: int) -> Option<int>
    decreases hi - lo,
{
    if lo >= hi {
        None
    } else if s[lo] == ch {
        Some(lo)
    } else {
        find_in(s, ch, lo + 1, hi)
    }
}

/// ASCII white space: space, tab, line feed, vertical tab, form feed,
/// carriage return.
pub open spec fn is_space(b: u8) -> bool {
    b == 32 || (9 <= b && b <= 13)
}

/// Where `lo..hi` starts once leading white space is dropped.
pub open spec fn trim_lo(s: Seq<u8>, lo: int, hi: int) -> int
    decreases hi - lo,
{
    if lo < hi && is_space(s[lo]) {
        trim_lo(s, lo + 1, hi)
    } else {
        lo
    }
}

/// Where `lo..hi` ends once trailing white space is dropped.
pub open spec fn trim_hi(s: Seq<u8>, lo: int, hi: int) -> int
    decreases hi - lo,
{
    if lo < hi && is_space(s[hi - 1]) {
        trim_hi(s, lo, hi - 1)
    } else {
        hi
    }
}

pub open spec fn is_digit(b: u8) -> bool {
    48 <= b && b <= 57
}

/// The decimal value of the digits in `lo..hi`.
pub open spec fn digits_value(s: Seq<u8>, lo: int, hi: int) -> int
    decreases hi - lo,
{
    if hi <= lo {
        0
    } else {
        digits_value(s, lo, hi - 1) * 10 + (s[hi - 1] - 48)
    }
}

/// The number written in `lo..hi`: white space around it, an optional `+`,
/// then one or more decimal digits, with a value that fits in `usize`.
pub open spec fn number_in(s: Seq<u8>, lo: int, hi: int) -> Option<usize> {
    let a = trim_lo(s, lo, hi);
    let b = trim_hi(s, a, hi);
    let d = if a < b && s[a] == 43 {
        a + 1
    } else {
        a
    };
    if d < b && (forall|i: int| d <= i < b ==> is_digit(#[trigger] s[i])) && digits_value(s, d, b)
        <= usize::MAX {
        Some(digits_value(s, d, b) as usize)
    } else {
        None
    }
}

/// The coordinate written as `(x, y)`: the first `(`, the first `)` after
/// it, and the first `,` between them; text outside the brackets is
/// ignored.
pub open spec fn coord_text(s: Seq<u8>) -> Option<Coordinate> {
    match find_in(s, 40, 0, s.len() as int) {
        None => None,
        Some(a) => match find_in(s, 41, a + 1, s.len() as int) {
            None => None,
            Some(b) => match find_in(s, 44, a + 1, b) {
                None => None,
                Some(k) => match (number_in(s, a + 1, k), number_in(s, k + 1, b)) {
                    (Some(x), Some(y)) => Some(Coordinate { x, y }),
                    _ => None,
                },
            },
        },
    }
}

proof fn lemma_find_in_bounds(s: Seq<u8>, ch: u8, lo: int, hi: int)
    ensures
        match find_in(s, ch, lo, hi) {
            Some(j) => lo <= j < hi && s[j] == ch,
            None => true,
        },
    decreases hi - lo,
{
    if lo < hi && s[lo] != ch {
        lemma_find_in_bounds(s, ch, lo + 1, hi);
    }
}

proof fn lemma_trim_bounds(s: Seq<u8>, lo: int, hi: int)
    requires
        lo <= hi,
    ensures
        lo <= trim_lo(s, lo, hi) <= hi,
        lo <= trim_hi(s, lo, hi) <= hi,
    decreases hi - lo,
{
    if lo < hi && is_space(s[lo]) {
        lemma_trim_bounds(s, lo + 1, hi);
    }
    if lo < hi && is_space(s[hi - 1]) {
        lemma_trim_bounds(s, lo, hi - 1);
    }
}

proof fn lemma_digits_nonneg(s: Seq<u8>, lo: int, hi: int)
    requires
        forall|i: int| lo <= i < hi ==> is_digit(#[trigger] s[i]),
    ensures
        0 <= digits_value(s, lo, hi),
    decreases hi - lo,
{
    if lo < hi {
        lemma_digits_nonneg(s, lo, hi - 1);
    }
}

proof fn lemma_digits_grow(s: Seq<u8>, lo: int, mid: int, hi: int)
    requires
        lo <= mid <= hi,
        forall|i: int| lo <= i < hi ==> is_digit(#[trigger] s[i]),
    ensures
        digits_value(s, lo, mid) <= digits_value(s, lo, hi),
    decreases hi - mid,
{
    if mid < hi {
        lemma_digits_grow(s, lo, mid, hi - 1);
        lemma_digits_nonneg(s, lo, hi - 1);
        assert(is_digit(s[hi - 1]));
    }
}

/// The first index in `lo..hi` where `b` holds `ch`.
fn find_byte(b: &[u8], ch: u8, lo: usize, hi: usize) -> (r: Option<usize>)
    requires
        hi <= b@.len(),
    ensures
        match r {
            Some(j) => find_in(b@, ch, lo as int, hi as int) == Some(j as int),
            None => find_in(b@, ch, lo as int, hi as int) is None,
        },
    decreases hi - lo,
{
    if lo >= hi {
        None
    } else if b[lo] == ch {
        Some(lo)
    } else {
        find_byte(b, ch, lo + 1, hi)
    }
}

fn skip_space(b: &[u8], lo: usize, hi: usize) -> (r: usize)
    requires
        lo <= hi <= b@.len(),
    ensures
        r == trim_lo(b@, lo as int, hi as int),
    decreases hi - lo,
{
    if lo < hi && (b[lo] == 32 || (9 <= b[lo] && b[lo] <= 13)) {
        skip_space(b, lo + 1, hi)
    } else {
        lo
    }
}

fn skip_space_back(b: &[u8], lo: usize, hi: usize) -> (r: usize)
    requires
        lo <= hi <= b@.len(),
    ensures
        r == trim_hi(b@, lo as int, hi as int),
    decreases hi - lo,
{
    if lo < hi && (b[hi - 1] == 32 || (9 <= b[hi - 1] && b[hi - 1] <= 13)) {
        skip_space_back(b, lo, hi - 1)
    } else {
        hi
    }
}

/// The number written in `lo..hi`, if there is one.
fn parse_number(b: &[u8], lo: usize, hi: usize) -> (r: Option<usize>)
    requires
        lo <= hi <= b@.len(),
    ensures
        r == number_in(b@, lo as int, hi as int),
{
    let a = skip_space(b, lo, hi);
    proof {
        lemma_trim_bounds(b@, lo as int, hi as int);
    }
    let e = skip_space_back(b, a, hi);
    proof {
        lemma_trim_bounds(b@, a as int, hi as int);
    }
    let d = if a < e && b[a] == 43 {
        a + 1
    } else {
        a
    };
    if d >= e {
        return None;
    }
    let mut acc: usize = 0;
    let mut i: usize = d;
    while i < e
        invariant
            d <= i <= e,
            e <= b@.len(),
            a == trim_lo(b@, lo as int, hi as int),
            e == trim_hi(b@, a as int, hi as int),
            d == (if a < e && b@[a as int] == 43 {
                a + 1
            } else {
                a as int
            }),
            forall|j: int| d <= j < i ==> is_digit(#[trigger] b@[j]),
            acc == digits_value(b@, d as int, i as int),
        decreases e - i,
    {
        let c = b[i];
        if c < 48 || c > 57 {
            proof {
                assert(!is_digit(b@[i as int]));
                assert(!(forall|j: int| d <= j < e ==> is_digit(#[trigger] b@[j])));
                assert(a == trim_lo(b@, lo as int, hi as int));
                assert(e == trim_hi(b@, a as int, hi as int));
            }
            return None;
        }
        let digit = (c - 48) as usize;
        if acc > (usize::MAX - digit) / 10 {
            proof {
                assert(acc * 10 + digit > usize::MAX) by (nonlinear_arith)
                    requires
                        acc > (usize::MAX - digit) / 10,
                        digit <= 9,
                ;
                assert(is_digit(b@[i as int]));
                assert(digits_value(b@, d as int, i + 1) == acc * 10 + digit);
                if forall|j: int| d <= j < e ==> is_digit(#[trigger] b@[j]) {
                    lemma_digits_grow(b@, d as int, i + 1, e as int);
                    assert(digits_value(b@, d as int, e as int) > usize::MAX);
                }
                assert(a == trim_lo(b@, lo as int, hi as int));
                assert(e == trim_hi(b@, a as int, hi as int));
            }
            return None;
        }
        proof {
            assert(acc * 10 + digit <= usize::MAX) by (nonlinear_arith)
                requires
                    acc <= (usize::MAX - digit) / 10,
                    digit <= 9,
            ;
        }
        acc = acc * 10 + digit;
        i = i + 1;
    }
    Some(acc)
}

/// Reads a coordinate written as `(x, y)`; `None` when the text holds no
/// such form or a number does not fit.
pub fn parse_coord(text: &str) -> (r: Option<Coordinate>)
    ensures
        r == coord_text(text.spec_bytes()),
{
    let b = text.as_bytes();
    let n = b.len();
    let a = match find_byte(b, 40, 0, n) {
        Some(a) => a,
        None => return None,
    };
    proof {
        lemma_find_in_bounds(b@, 40, 0, n as int);
    }
    let close = match find_byte(b, 41, a + 1, n) {
        Some(c) => c,
        None => return None,
    };
    proof {
        lemma_find_in_bounds(b@, 41, a + 1, n as int);
    }
    let k = match find_byte(b, 44, a + 1, close) {
        Some(k) => k,
        None => return None,
    };
    proof {
        lemma_find_in_bounds(b@, 44, a + 1, close as int);
    }
    let x = match parse_number(b, a + 1, k) {
        Some(x) => x,
        None => return None,
    };
    let y = match parse_number(b, k + 1, close) {
        Some(y) => y,
        None => return None,
    };
    Some(Coordinate { x, y })
}

/// The marble named by the text once trimmed: `white`, `gray` or `black`,
/// written in lower case, capitalised, or upper case.
pub open spec fn marble_text(s: Seq<u8>) -> Option<Marble> {
    let t = s.subrange(trim_lo(s, 0, s.len() as int), trim_hi(s, trim_lo(s, 0, s.len() as int), s.len() as int));
    if t == seq![119u8, 104, 105, 116, 101] || t == seq![87u8, 104, 105, 116, 101] || t == seq![87u8, 72, 73, 84, 69] {
        Some(Marble::White)
    } else if t == seq![103u8, 114, 97, 121] || t == seq![71u8, 114, 97, 121] || t == seq![71u8, 82, 65, 89] {
        Some(Marble::Gray)
    } else if t == seq![98u8, 108, 97, 99, 107] || t == seq![66u8, 108, 97, 99, 107] || t == seq![66u8, 76, 65, 67, 75] {
        Some(Marble::Black)
    } else {
        None
    }
}

/// Whether `b[lo..hi]` spells `word`.
fn spells(b: &[u8], lo: usize, hi: usize, word: &[u8]) -> (r: bool)
    requires
        lo <= hi <= b@.len(),
    ensures
        r == (b@.subrange(lo as int, hi as int) == word@),
{
    if hi - lo != word.len() {
        return false;
    }
    let mut i: usize = 0;
    while i < word.len()
        invariant
            hi - lo == word@.len(),
            lo <= hi <= b@.len(),
            i <= word@.len(),
            forall|j: int| 0 <= j < i ==> b@[lo + j] == word@[j],
        decreases word@.len() - i,
    {
        if b[lo + i] != word[i] {
            proof {
                assert(b@.subrange(lo as int, hi as int)[i as int] != word@[i as int]);
            }
            return false;
        }
        i = i + 1;
    }
    proof {
        assert(b@.subrange(lo as int, hi as int) =~= word@);
    }
    true
}

/// Reads a marble colour; `None` for any other text.
pub fn parse_marble(text: &str) -> (r: Option<Marble>)
    ensures
        r == marble_text(text.spec_bytes()),
{
    let b = text.as_bytes();
    let n = b.len();
    let lo = skip_space(b, 0, n);
    proof {
        lemma_trim_bounds(b@, 0, n as int);
    }
    let hi = skip_space_back(b, lo, n);
    proof {
        lemma_trim_bounds(b@, lo as int, n as int);
    }
    let white_lower: [u8; 5] = [119, 104, 105, 116, 101];
    let white_title: [u8; 5] = [87, 104, 105, 116, 101];
    let white_upper: [u8; 5] = [87, 72, 73, 84, 69];
    let gray_lower: [u8; 4] = [103, 114, 97, 121];
    let gray_title: [u8; 4] = [71, 114, 97, 121];
    let gray_upper: [u8; 4] = [71, 82, 65, 89];
    let black_lower: [u8; 5] = [98, 108, 97, 99, 107];
    let black_title: [u8; 5] = [66, 108, 97, 99, 107];
    let black_upper: [u8; 5] = [66, 76, 65, 67, 75];
    proof {
        assert(white_lower@ =~= seq![119u8, 104, 105, 116, 101]);
        assert(white_title@ =~= seq![87u8, 104, 105, 116, 101]);
        assert(white_upper@ =~= seq![87u8, 72, 73, 84, 69]);
        assert(gray_lower@ =~= seq![103u8, 114, 97, 121]);
        assert(gray_title@ =~= seq![71u8, 114, 97, 121]);
        assert(gray_upper@ =~= seq![71u8, 82, 65, 89]);
        assert(black_lower@ =~= seq![98u8, 108, 97, 99, 107]);
        assert(black_title@ =~= seq![66u8, 108, 97, 99, 107]);
        assert(black_upper@ =~= seq![66u8, 76, 65, 67, 75]);
    }
    if spells(b, lo, hi, &white_lower) || spells(b, lo, hi, &white_title) || spells(b, lo, hi, &white_upper) {
        Some(Marble::White)
    } else if spells(b, lo, hi, &gray_lower) || spells(b, lo, hi, &gray_title) || spells(b, lo, hi, &gray_upper) {
        Some(Marble::Gray)
    } else if spells(b, lo, hi, &black_lower) || spells(b, lo, hi, &black_title) || spells(b, lo, hi, &black_upper) {
        Some(Marble::Black)
    } else {
        None
    }
}

} // verus!
