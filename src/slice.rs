//! Slice specifications (`"a:b"`, `"a"`, `"-1"`) and their normalization
//! against a known length.
use vstd::prelude::*;
use vstd::string::StringSliceAdditionalSpecFns;

verus! {

/// Why a slice specification was rejected.
#[derive(Debug, Clone, Copy, PartialEq, Eq, Structural)]
pub enum SpecError {
    /// A bound is not a base-10 integer in the 32-bit signed range.
    BadInteger,
    /// The specification holds more than one colon.
    TooManyColons,
}

/// A parsed slice: either bound may be absent, or negative (counted from the end).
#[derive(Debug, Clone, Copy)]
pub struct Slice {
    pub start: Option<i64>,
    pub end: Option<i64>,
}

pub open spec fn is_digit(b: u8) -> bool {
    48 <= b <= 57
}

pub open spec fn all_digits(s: Seq<u8>) -> bool {
    forall|i: int| 0 <= i < s.len() ==> is_digit(#[trigger] s[i])
}

/// The value of a string of decimal digits.
pub open spec fn digits_value(s: Seq<u8>) -> int
    decreases s.len(),
{
    if s.len() == 0 {
        0
    } else {
        digits_value(s.drop_last()) * 10 + (s.last() - 48)
    }
}

/// The value of a signed decimal literal (`[+-]?[0-9]+`), if `s` is one.
pub open spec fn literal_value(s: Seq<u8>) -> Option<int> {
    if s.len() > 1 && s[0] == 45u8 && all_digits(s.drop_first()) {
        Some(-digits_value(s.drop_first()))
    } else if s.len() > 1 && s[0] == 43u8 && all_digits(s.drop_first()) {
        Some(digits_value(s.drop_first()))
    } else if s.len() > 0 && all_digits(s) {
        Some(digits_value(s))
    } else {
        None
    }
}

/// A literal accepted as a bound: well formed and within the 32-bit signed range.
pub open spec fn bound_value(s: Seq<u8>) -> Option<int> {
    match literal_value(s) {
        Some(v) => if i32::MIN <= v <= i32::MAX {
            Some(v)
        } else {
            None
        },
        None => None,
    }
}

pub open spec fn count_colons(s: Seq<u8>) -> nat
    decreases s.len(),
{
    if s.len() == 0 {
        0
    } else {
        count_colons(s.drop_last()) + if s.last() == 58u8 {
            1nat
        } else {
            0nat
        }
    }
}

/// The index of the last colon in `s`, or -1 when there is none.
pub open spec fn last_colon(s: Seq<u8>) -> int
    decreases s.len(),
{
    if s.len() == 0 {
        -1
    } else if s.last() == 58u8 {
        s.len() - 1
    } else {
        last_colon(s.drop_last())
    }
}

/// One side of a colon: empty means absent.
pub open spec fn spec_side(s: Seq<u8>) -> Result<Option<i64>, SpecError> {
    if s.len() == 0 {
        Ok(None)
    } else {
        match bound_value(s) {
            Some(v) => Ok(Some(v as i64)),
            None => Err(SpecError::BadInteger),
        }
    }
}

/// The slice that a single position `p` denotes: `[p, p+1)`, except that `-1`
/// runs from the last element to the end.
pub open spec fn position_slice(p: i64) -> Slice {
    if p == -1 {
        Slice { start: Some(-1i64), end: None }
    } else {
        Slice { start: Some(p), end: Some((p + 1) as i64) }
    }
}

/// What a slice specification, given by its bytes, denotes.
pub open spec fn spec_slice(s: Seq<u8>) -> Result<Slice, SpecError> {
    if count_colons(s) > 1 {
        Err(SpecError::TooManyColons)
    } else if count_colons(s) == 1 {
        let k = last_colon(s);
        match (spec_side(s.subrange(0, k)), spec_side(s.subrange(k + 1, s.len() as int))) {
            (Ok(a), Ok(b)) => Ok(Slice { start: a, end: b }),
            _ => Err(SpecError::BadInteger),
        }
    } else {
        match bound_value(s) {
            Some(p) => Ok(position_slice(p as i64)),
            None => Err(SpecError::BadInteger),
        }
    }
}

/// Parses the bound written in `b[lo..hi]`.
fn parse_bound(b: &[u8], lo: usize, hi: usize) -> (r: Option<i64>)
    requires
        lo <= hi <= b@.len(),
    ensures
        r == (match bound_value(b@.subrange(lo as int, hi as int)) {
            Some(v) => Some(v as i64),
            None => None::<i64>,
        }),
{
    let ghost s = b@.subrange(lo as int, hi as int);
    if lo == hi {
        return None;
    }
    let negative = b[lo] == 45u8;
    let signed = negative || b[lo] == 43u8;
    let first: usize = if signed { lo + 1 } else { lo };
    if first == hi {
        assert(literal_value(s) is None);
        return None;
    }
    let mut acc: i64 = 0;
    let mut over = false;
    let mut i: usize = first;
    while i < hi
        invariant
            lo <= first <= i <= hi <= b@.len(),
            first < hi,
            s == b@.subrange(lo as int, hi as int),
            signed ==> first == lo + 1 && (s[0] == 45u8 || s[0] == 43u8),
            !signed ==> first == lo && s[0] != 45u8 && s[0] != 43u8,
            negative <==> s[0] == 45u8,
            negative ==> signed,
            0 <= acc <= 2147483648,
            all_digits(b@.subrange(first as int, i as int)),
            !over ==> acc == digits_value(b@.subrange(first as int, i as int)),
            over ==> digits_value(b@.subrange(first as int, i as int)) > 2147483648,
        decreases hi - i,
    {
        let c = b[i];
        if !(48u8 <= c && c <= 57u8) {
            proof {
                let k = (i - lo) as int;
                assert(s[k] == c);
                assert(!all_digits(s));
                if signed {
                    assert(s.drop_first()[k - 1] == c);
                    assert(!all_digits(s.drop_first()));
                }
            }
            return None;
        }
        let ghost prev = b@.subrange(first as int, i as int);
        let ghost next = b@.subrange(first as int, i + 1);
        assert(next.drop_last() =~= prev);
        if !over {
            if acc > 214748364 || (acc == 214748364 && c > 56u8) {
                over = true;
            } else {
                acc = acc * 10 + (c - 48u8) as i64;
            }
        }
        i = i + 1;
    }
    let ghost d = b@.subrange(first as int, hi as int);
    proof {
        if signed {
            assert(s.drop_first() =~= d);
        } else {
            assert(s =~= d);
        }
    }
    if over {
        return None;
    }
    if negative {
        Some(-acc)
    } else if acc <= 2147483647 {
        Some(acc)
    } else {
        None
    }
}

/// Parses one side of a colon: empty means absent.
fn parse_side(b: &[u8], lo: usize, hi: usize) -> (r: Result<Option<i64>, SpecError>)
    requires
        lo <= hi <= b@.len(),
    ensures
        r == spec_side(b@.subrange(lo as int, hi as int)),
{
    if lo == hi {
        Ok(None)
    } else {
        match parse_bound(b, lo, hi) {
            Some(v) => Ok(Some(v)),
            None => Err(SpecError::BadInteger),
        }
    }
}

/// Parses a slice specification: `"a:b"` with either side optional, or a single
/// position `"p"` meaning `p:p+1`, except that `"-1"` means from the last element
/// to the end.
pub fn slice_from_spec(slice_spec: &str) -> (r: Result<Slice, SpecError>)
    ensures
        r == spec_slice(slice_spec.spec_bytes()),
{
    let b = slice_spec.as_bytes();
    let n = b.len();
    let mut colons: usize = 0;
    let mut last: usize = 0;
    let mut i: usize = 0;
    while i < n
        invariant
            n == b@.len(),
            i <= n,
            colons == count_colons(b@.subrange(0, i as int)),
            colons <= i,
            colons > 0 ==> last < i,
            colons > 0 ==> last == last_colon(b@.subrange(0, i as int)),
            colons == 0 ==> last_colon(b@.subrange(0, i as int)) == -1,
        decreases n - i,
    {
        assert(b@.subrange(0, i + 1).drop_last() =~= b@.subrange(0, i as int));
        if b[i] == 58u8 {
            colons = colons + 1;
            last = i;
        }
        i = i + 1;
    }
    assert(b@.subrange(0, n as int) =~= b@);
    if colons > 1 {
        Err(SpecError::TooManyColons)
    } else if colons == 1 {
        let a = parse_side(b, 0, last);
        let e = parse_side(b, last + 1, n);
        match (a, e) {
            (Ok(a), Ok(e)) => Ok(Slice { start: a, end: e }),
            _ => Err(SpecError::BadInteger),
        }
    } else {
        assert(b@.subrange(0, n as int) =~= b@);
        match parse_bound(b, 0, n) {
            Some(p) => if p == -1 {
                Ok(Slice { start: Some(-1), end: None })
            } else {
                Ok(Slice { start: Some(p), end: Some(p + 1) })
            },
            None => Err(SpecError::BadInteger),
        }
    }
}

/// An optional bound, read as a mathematical integer.
pub open spec fn opt_int64(o: Option<i64>) -> Option<int> {
    match o {
        Some(v) => Some(v as int),
        None => None,
    }
}

pub open spec fn opt_int128(o: Option<i128>) -> Option<int> {
    match o {
        Some(v) => Some(v as int),
        None => None,
    }
}

/// A bound resolved against a length: a negative bound counts from the end
/// (and may stay negative when it reaches past the start).
pub open spec fn norm_bound(b: int, len: int) -> int {
    if b < 0 {
        len + b
    } else {
        b
    }
}

/// Resolves negative bounds against `len` when it is known; without a length
/// the bounds pass through unchanged.
pub open spec fn spec_normalize(start: int, end: Option<int>, len: Option<int>) -> (int, Option<int>) {
    match len {
        Some(l) => (
            norm_bound(start, l),
            match end {
                Some(e) => Some(norm_bound(e, l)),
                None => None,
            },
        ),
        None => (start, end),
    }
}

pub fn normalize_indices(start: i64, end: Option<i64>, len: Option<usize>) -> (r: (i128, Option<i128>))
    ensures
        (r.0 as int, opt_int128(r.1)) == spec_normalize(
            start as int,
            opt_int64(end),
            match len {
                Some(l) => Some(l as int),
                None => None,
            },
        ),
{
    match len {
        Some(length) => {
            let s: i128 = if start < 0 {
                length as i128 + start as i128
            } else {
                start as i128
            };
            let e: Option<i128> = match end {
                Some(e) => if e < 0 {
                    Some(length as i128 + e as i128)
                } else {
                    Some(e as i128)
                },
                None => None,
            };
            (s, e)
        },
        None => (
            start as i128,
            match end {
                Some(e) => Some(e as i128),
                None => None,
            },
        ),
    }
}

/// Whether position `i` lies in the normalized range `[start, end)`; an absent
/// end is unbounded.
pub open spec fn in_range(i: int, start: int, end: Option<int>) -> bool {
    start <= i && match end {
        Some(e) => i < e,
        None => true,
    }
}

pub open spec fn clamp(x: int, lo: int, hi: int) -> int {
    if x < lo {
        lo
    } else if x > hi {
        hi
    } else {
        x
    }
}

/// The contiguous index range `[lo, hi)` of a sequence of length `n` that the
/// normalized range `[start, end)` covers.
pub open spec fn window(n: int, start: int, end: Option<int>) -> (int, int) {
    let lo = clamp(start, 0, n);
    let hi = match end {
        Some(e) => clamp(e, lo, n),
        None => n,
    };
    (lo, hi)
}

/// The index range of a sequence of `n` elements that `slice` selects, with
/// negative bounds resolved against `given` when it is known and against `n`
/// otherwise.
pub open spec fn slice_window(n: int, slice: Slice, given: Option<usize>) -> (int, int) {
    let len = match given {
        Some(l) => l as int,
        None => n,
    };
    let start = match slice.start {
        Some(s) => s as int,
        None => 0,
    };
    let r = spec_normalize(start, opt_int64(slice.end), Some(len));
    window(n, r.0, r.1)
}

/// The index range `[lo, hi)` that `slice` selects from `n` elements, with
/// negative bounds resolved against `n`.
pub fn resolve_window(n: usize, slice: Slice) -> (r: (usize, usize))
    ensures
        (r.0 as int, r.1 as int) == slice_window(n as int, slice, None),
        r.0 <= r.1 <= n,
{
    let start = match slice.start {
        Some(s) => s,
        None => 0,
    };
    let (s, e) = normalize_indices(start, slice.end, Some(n));
    let lo: usize = if s < 0 {
        0
    } else if s > n as i128 {
        n
    } else {
        s as usize
    };
    let hi: usize = match e {
        Some(e) => if e < lo as i128 {
            lo
        } else if e > n as i128 {
            n
        } else {
            e as usize
        },
        None => n,
    };
    (lo, hi)
}

} // verus!
