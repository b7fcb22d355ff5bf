//! Laws of row and field selection, proved over the contracts of the library.
use vstd::prelude::*;
use vstd::utf8::*;
use crate::fields::{eol_of, fields_between, lemma_encode_concat, spaces, whitespace_runs};
use crate::pick::{line_output, outputs, picked};
use crate::slice::{Slice, position_slice, slice_window};

verus! {

broadcast use group_utf8_lib;

/// The slice `:`, which selects everything.
pub open spec fn everything() -> Slice {
    Slice { start: None, end: None }
}

/// A line that the identity slice reproduces: `p` plain spaces, then the text
/// from its first field through its last, then its own terminator.
pub open spec fn tidy_split(l: Seq<char>, p: nat, m: Seq<char>) -> bool {
    let bytes = encode_utf8(l);
    let toks = fields_between(whitespace_runs(l), bytes.len() as int);
    &&& l == spaces(p as int) + m + eol_of(bytes)
    &&& toks.len() > 0
    &&& toks[0].0 == p
    &&& toks[toks.len() - 1].1 == p + encode_utf8(m).len()
}

pub open spec fn tidy(l: Seq<char>) -> bool {
    exists|p: nat, m: Seq<char>| tidy_split(l, p, m)
}

proof fn lemma_tidy_line(l: Seq<char>, p: nat, m: Seq<char>)
    requires
        tidy_split(l, p, m),
    ensures
        line_output(l, everything()) == Some(l),
{
    let bytes = encode_utf8(l);
    let toks = fields_between(whitespace_runs(l), bytes.len() as int);
    let sp = spaces(p as int);
    let e = eol_of(bytes);
    assert(is_ascii_chars(sp));
    lemma_encode_concat(sp + m, e);
    lemma_encode_concat(sp, m);
    let em = encode_utf8(m);
    assert(bytes == encode_utf8(sp) + em + encode_utf8(e));
    assert(encode_utf8(sp).len() == p);
    assert(bytes.subrange(p as int, (p + em.len()) as int) =~= em);
    let w = slice_window(toks.len() as int, everything(), None);
    assert(w == (0int, toks.len() as int));
}

/// With the slice `:` for rows and for fields, every line whose first field
/// follows only plain spaces and whose last field ends at the line's end, or
/// just before its final newline, comes out exactly as it went in.
pub proof fn identity_law(lines: Seq<Seq<char>>, line_count: Option<usize>)
    requires
        forall|k: int| 0 <= k < lines.len() ==> tidy(#[trigger] lines[k]),
        line_count is None || line_count == Some(lines.len() as usize),
    ensures
        picked(lines, everything(), everything(), line_count) == lines,
{
    lemma_outputs_identity(lines);
    assert(lines.subrange(0, lines.len() as int) =~= lines);
}

proof fn lemma_outputs_identity(lines: Seq<Seq<char>>)
    requires
        forall|k: int| 0 <= k < lines.len() ==> tidy(#[trigger] lines[k]),
    ensures
        outputs(lines, everything()) == lines,
    decreases lines.len(),
{
    if lines.len() > 0 {
        let init = lines.drop_last();
        assert forall|k: int| 0 <= k < init.len() implies tidy(#[trigger] init[k]) by {
            assert(init[k] == lines[k]);
        }
        lemma_outputs_identity(init);
        let l = lines.last();
        assert(tidy(lines[lines.len() - 1]));
        let (p, m) = choose|p: nat, m: Seq<char>| tidy_split(l, p, m);
        lemma_tidy_line(l, p, m);
        assert(init.push(l) =~= lines);
    }
}

/// Selecting everything twice gives what selecting it once gives, for lines
/// that the identity slice reproduces.
pub proof fn identity_twice_law(lines: Seq<Seq<char>>)
    requires
        forall|k: int| 0 <= k < lines.len() ==> tidy(#[trigger] lines[k]),
    ensures
        picked(picked(lines, everything(), everything(), None), everything(), everything(), None)
            == picked(lines, everything(), everything(), None),
{
    identity_law(lines, None);
}

/// For `0 <= a < b <= L`, the row slice `a:b` selects the `b - a` elements at
/// positions `a` through `b - 1`, in order, whatever line count is given.
pub proof fn row_range_law<T>(items: Seq<T>, a: i64, b: i64, line_count: Option<usize>)
    requires
        0 <= a < b <= items.len(),
    ensures
        ({
            let w = slice_window(items.len() as int, Slice { start: Some(a), end: Some(b) }, line_count);
            &&& items.subrange(w.0, w.1) == items.subrange(a as int, b as int)
            &&& items.subrange(w.0, w.1).len() == b - a
        }),
{
}

/// For `-L <= n < 0`, the single-position slice `n` selects the same element
/// as the position `L + n`; for `n == -1` that is the last element, through
/// to the end.
pub proof fn negative_position_law(len: usize, n: i64)
    requires
        -(len as int) <= n < 0,
        len <= i64::MAX,
    ensures
        slice_window(len as int, position_slice(n), None)
            == slice_window(len as int, position_slice((len + n) as i64), None),
        slice_window(len as int, position_slice(n), Some(len))
            == slice_window(len as int, position_slice(n), None),
        slice_window(len as int, position_slice(n), None) == (len + n, len + n + 1),
{
}

} // verus!
