//! Field selection within one line: whitespace-delimited fields with their
//! byte offsets, and the rendering of a range of them at the column where they stood.
use vstd::prelude::*;
use vstd::string::*;
use vstd::utf8::*;
use crate::slice::{Slice, resolve_window, slice_window};

verus! {

broadcast use group_utf8_lib;

/// Unicode `White_Space`: the characters that `\s` matches.
pub open spec fn is_white_space(c: char) -> bool {
    ||| '\t' <= c <= '\r'
    ||| c == ' ' || c == '\u{85}' || c == '\u{a0}' || c == '\u{1680}'
    ||| '\u{2000}' <= c <= '\u{200a}'
    ||| c == '\u{2028}' || c == '\u{2029}' || c == '\u{202f}' || c == '\u{205f}' || c == '\u{3000}'
}

/// The maximal runs of whitespace in `s`, as character index ranges, from left
/// to right.
pub open spec fn char_runs(s: Seq<char>) -> Seq<(int, int)>
    decreases s.len(),
{
    if s.len() == 0 {
        Seq::empty()
    } else {
        let prev = char_runs(s.drop_last());
        let k = s.len() - 1;
        if !is_white_space(s[k]) {
            prev
        } else if prev.len() > 0 && prev.last().1 == k {
            prev.update(prev.len() - 1, (prev.last().0, k + 1))
        } else {
            prev.push((k, k + 1))
        }
    }
}

/// The byte offset in the UTF-8 encoding of `s` at which character `k` starts.
pub open spec fn byte_offset(s: Seq<char>, k: int) -> int {
    encode_utf8(s.subrange(0, k)).len() as int
}

/// The maximal runs of whitespace in `s`, as byte ranges of its UTF-8 encoding.
pub open spec fn whitespace_runs(s: Seq<char>) -> Seq<(int, int)> {
    let runs = char_runs(s);
    Seq::new(runs.len(), |j: int| (byte_offset(s, runs[j].0), byte_offset(s, runs[j].1)))
}

/// Spans read as integers.
pub open spec fn spans_view(v: Seq<(usize, usize)>) -> Seq<(int, int)> {
    Seq::new(v.len(), |k: int| (v[k].0 as int, v[k].1 as int))
}

/// Byte spans of `bytes` that are non-empty, ordered and apart, and start and
/// end on character boundaries.
pub open spec fn well_placed(spans: Seq<(int, int)>, bytes: Seq<u8>) -> bool {
    &&& forall|k: int| 0 <= k < spans.len() ==> {
        &&& 0 <= #[trigger] spans[k].0 < spans[k].1 <= bytes.len()
        &&& is_char_boundary(bytes, spans[k].0)
        &&& is_char_boundary(bytes, spans[k].1)
    }
    &&& forall|k: int| 0 <= k < spans.len() - 1 ==> #[trigger] spans[k].1 <= spans[k + 1].0
}

/// Relies on `regex::Regex::new` for the pattern `\s+` (one or more of
/// `\p{White_Space}`, which always compiles) and on `Regex::find_iter`, which
/// yields the successive non-overlapping leftmost-first matches; `start` and
/// `end` are their byte offsets. The greedy `+` makes each match a maximal run.
#[verifier::external_body]
fn whitespace_matches(line: &str) -> (r: Vec<(usize, usize)>)
    ensures
        spans_view(r@) == whitespace_runs(line@),
{
    let re = regex::Regex::new(r"\s+").unwrap();
    re.find_iter(line).map(|m| (m.start(), m.end())).collect()
}

/// Encoding a concatenation encodes each part.
pub proof fn lemma_encode_concat(x: Seq<char>, y: Seq<char>)
    ensures
        encode_utf8(x + y) == encode_utf8(x) + encode_utf8(y),
    decreases x.len(),
{
    if x.len() == 0 {
        assert(x + y =~= y);
    } else {
        assert((x + y).drop_first() =~= x.drop_first() + y);
        lemma_encode_concat(x.drop_first(), y);
        assert((x + y)[0] == x[0]);
    }
}

proof fn lemma_encode_len(x: Seq<char>)
    ensures
        encode_utf8(x).len() >= x.len(),
    decreases x.len(),
{
    if x.len() > 0 {
        lemma_encode_len(x.drop_first());
        assert(encode_scalar(x[0] as u32).len() >= 1);
    }
}

/// The end of the encoding of a prefix is a character boundary.
proof fn lemma_prefix_boundary(x: Seq<char>, y: Seq<char>)
    ensures
        is_char_boundary(encode_utf8(x + y), encode_utf8(x).len() as int),
    decreases x.len(),
{
    let bytes = encode_utf8(x + y);
    if x.len() > 0 {
        let rest = x.drop_first();
        assert((x + y).drop_first() =~= rest + y);
        assert((x + y)[0] == x[0]);
        encode_utf8_first_scalar(x + y);
        lemma_prefix_boundary(rest, y);
        let w = encode_scalar(x[0] as u32).len() as int;
        assert(bytes == encode_scalar(x[0] as u32) + encode_utf8(rest + y));
        assert(pop_first_scalar(bytes) =~= encode_utf8(rest + y));
        assert(encode_utf8(x).len() == w + encode_utf8(rest).len());
    }
}

proof fn lemma_byte_offsets(s: Seq<char>, k1: int, k2: int)
    requires
        0 <= k1 < k2 <= s.len(),
    ensures
        byte_offset(s, k1) < byte_offset(s, k2),
        byte_offset(s, k2) <= encode_utf8(s).len(),
        is_char_boundary(encode_utf8(s), byte_offset(s, k1)),
        is_char_boundary(encode_utf8(s), byte_offset(s, k2)),
{
    let a = s.subrange(0, k1);
    let m = s.subrange(k1, k2);
    let t = s.subrange(k2, s.len() as int);
    assert(s.subrange(0, k2) =~= a + m);
    assert(s =~= (a + m) + t);
    assert(s =~= a + (m + t));
    lemma_encode_concat(a, m);
    lemma_encode_concat(a + m, t);
    lemma_encode_len(m);
    lemma_prefix_boundary(a, m + t);
    lemma_prefix_boundary(a + m, t);
}

proof fn lemma_char_runs(s: Seq<char>)
    ensures
        forall|j: int| 0 <= j < char_runs(s).len() ==> 0 <= #[trigger] char_runs(s)[j].0 < char_runs(s)[j].1 <= s.len(),
        forall|j: int| 0 <= j < char_runs(s).len() - 1 ==> #[trigger] char_runs(s)[j].1 < char_runs(s)[j + 1].0,
    decreases s.len(),
{
    if s.len() > 0 {
        let p = s.drop_last();
        lemma_char_runs(p);
        let prev = char_runs(p);
        let runs = char_runs(s);
        let k = s.len() - 1;
        if !is_white_space(s[k]) {
            assert(runs == prev);
        } else if prev.len() > 0 && prev.last().1 == k {
            assert(runs == prev.update(prev.len() - 1, (prev.last().0, k + 1)));
            assert forall|j: int| 0 <= j < runs.len() - 1 implies #[trigger] runs[j].1 < runs[j + 1].0 by {
                assert(runs[j] == prev[j]);
                if j + 1 < prev.len() - 1 {
                    assert(runs[j + 1] == prev[j + 1]);
                }
            }
        } else {
            assert(runs == prev.push((k, k + 1)));
            assert forall|j: int| 0 <= j < runs.len() - 1 implies #[trigger] runs[j].1 < runs[j + 1].0 by {
                assert(runs[j] == prev[j]);
                if j + 1 < prev.len() {
                    assert(runs[j + 1] == prev[j + 1]);
                } else {
                    assert(prev[prev.len() - 1].1 <= k);
                }
            }
            assert forall|j: int| 0 <= j < runs.len() implies 0 <= #[trigger] runs[j].0 < runs[j].1 <= s.len() by {
                if j < prev.len() {
                    assert(runs[j] == prev[j]);
                }
            }
        }
    }
}

proof fn lemma_runs_placed(s: Seq<char>)
    ensures
        well_placed(whitespace_runs(s), encode_utf8(s)),
{
    let runs = char_runs(s);
    let spans = whitespace_runs(s);
    let bytes = encode_utf8(s);
    lemma_char_runs(s);
    assert forall|k: int| 0 <= k < spans.len() implies {
        &&& 0 <= #[trigger] spans[k].0 < spans[k].1 <= bytes.len()
        &&& is_char_boundary(bytes, spans[k].0)
        &&& is_char_boundary(bytes, spans[k].1)
    } by {
        lemma_byte_offsets(s, runs[k].0, runs[k].1);
    }
    assert forall|k: int| 0 <= k < spans.len() - 1 implies #[trigger] spans[k].1 <= spans[k + 1].0 by {
        assert(runs[k].1 < runs[k + 1].0);
        assert(0 <= runs[k].0 < runs[k].1);
        assert(runs[k + 1].0 < runs[k + 1].1 <= s.len());
        lemma_byte_offsets(s, runs[k].1, runs[k + 1].0);
    }
}

/// A field of a line: a maximal run of non-whitespace, by its byte offsets.
#[derive(Debug, Clone, Copy, PartialEq, Eq, Structural)]
pub struct LineToken {
    pub start: usize,
    pub end: usize,
}

pub open spec fn tokens_view(v: Seq<LineToken>) -> Seq<(int, int)> {
    Seq::new(v.len(), |k: int| (v[k].start as int, v[k].end as int))
}

/// The non-empty gaps before each separator span, and where the last one ends.
pub open spec fn gaps_before(seps: Seq<(int, int)>) -> (Seq<(int, int)>, int)
    decreases seps.len(),
{
    if seps.len() == 0 {
        (Seq::empty(), 0)
    } else {
        let (t, last_end) = gaps_before(seps.drop_last());
        let (a, b) = seps.last();
        (if a > last_end { t.push((last_end, a)) } else { t }, b)
    }
}

/// The fields of a line of `len` bytes whose separators are `seps`: the
/// non-empty stretches between them, before the first and after the last.
pub open spec fn fields_between(seps: Seq<(int, int)>, len: int) -> Seq<(int, int)> {
    let (t, last_end) = gaps_before(seps);
    if last_end < len {
        t.push((last_end, len))
    } else {
        t
    }
}

/// The fields of a line, given the separator spans found in it.
pub fn split_at_separators(seps: &Vec<(usize, usize)>, len: usize) -> (r: Vec<LineToken>)
    requires
        forall|k: int| 0 <= k < seps@.len() ==> #[trigger] seps@[k].0 <= seps@[k].1 <= len,
    ensures
        tokens_view(r@) == fields_between(spans_view(seps@), len as int),
{
    let ghost sv = spans_view(seps@);
    let mut out: Vec<LineToken> = Vec::new();
    let mut last_end: usize = 0;
    let mut i: usize = 0;
    while i < seps.len()
        invariant
            i <= seps@.len(),
            sv == spans_view(seps@),
            forall|k: int| 0 <= k < seps@.len() ==> #[trigger] seps@[k].0 <= seps@[k].1 <= len,
            last_end <= len,
            (tokens_view(out@), last_end as int) == gaps_before(sv.subrange(0, i as int)),
        decreases seps@.len() - i,
    {
        let (a, b) = seps[i];
        let ghost prev = sv.subrange(0, i as int);
        assert(sv.subrange(0, i + 1).drop_last() =~= prev);
        assert(sv.subrange(0, i + 1).last() == (a as int, b as int));
        if a > last_end {
            out.push(LineToken { start: last_end, end: a });
            assert(tokens_view(out@) =~= gaps_before(prev).0.push((last_end as int, a as int)));
        }
        last_end = b;
        i = i + 1;
    }
    assert(sv.subrange(0, i as int) =~= sv);
    if last_end < len {
        let ghost t = tokens_view(out@);
        out.push(LineToken { start: last_end, end: len });
        assert(tokens_view(out@) =~= t.push((last_end as int, len as int)));
    }
    out
}

/// Fields of `bytes` that are non-empty, ordered and apart, and start and end
/// on character boundaries.
pub open spec fn tokens_placed(toks: Seq<(int, int)>, bytes: Seq<u8>) -> bool {
    &&& forall|k: int| 0 <= k < toks.len() ==> {
        &&& 0 <= #[trigger] toks[k].0 < toks[k].1 <= bytes.len()
        &&& is_char_boundary(bytes, toks[k].0)
        &&& is_char_boundary(bytes, toks[k].1)
    }
    &&& forall|i: int, j: int| 0 <= i < j < toks.len() ==> #[trigger] toks[i].1 <= #[trigger] toks[j].0
}

pub open spec fn spaces(n: int) -> Seq<char> {
    Seq::new(n as nat, |_i: int| ' ')
}

/// The line terminator kept from a line: `"\n"` when its last byte is one.
pub open spec fn eol_of(bytes: Seq<u8>) -> Seq<char> {
    if bytes.len() > 0 && bytes.last() == 10u8 {
        seq!['\n']
    } else {
        Seq::empty()
    }
}

/// What a line (by its bytes) becomes when the fields `toks` are sliced by
/// `slice`: nothing when no field is selected; otherwise the bytes from the
/// first selected field through the last, preceded by one space for each byte
/// before them, followed by the line's own terminator.
pub open spec fn render(toks: Seq<(int, int)>, bytes: Seq<u8>, slice: Slice) -> Option<Seq<char>> {
    let w = slice_window(toks.len() as int, slice, None);
    if w.0 >= w.1 {
        None
    } else {
        let a = toks[w.0].0;
        let b = toks[w.1 - 1].1;
        Some(spaces(a) + decode_utf8(bytes.subrange(a, b)) + eol_of(bytes))
    }
}

proof fn lemma_boundary_in_suffix(bytes: Seq<u8>, a: int, b: int)
    requires
        valid_utf8(bytes),
        0 <= a <= b <= bytes.len(),
        is_char_boundary(bytes, a),
        is_char_boundary(bytes, b),
    ensures
        valid_utf8(bytes.subrange(a, bytes.len() as int)),
        is_char_boundary(bytes.subrange(a, bytes.len() as int), b - a),
{
    let suffix = bytes.subrange(a, bytes.len() as int);
    valid_utf8_split(bytes, a);
    if b == bytes.len() {
        is_char_boundary_start_end_of_seq(suffix);
    } else {
        is_char_boundary_iff_not_is_continuation_byte(bytes, b);
        is_char_boundary_iff_not_is_continuation_byte(suffix, b - a);
        assert(suffix[b - a] == bytes[b]);
    }
}

/// Renders the fields of `line` that `slice` selects, given the fields found
/// in it.
pub fn render_fields(line: &str, fields: &Vec<LineToken>, slice: Slice) -> (r: Option<String>)
    requires
        tokens_placed(tokens_view(fields@), line.spec_bytes()),
    ensures
        match r {
            Some(s) => render(tokens_view(fields@), line.spec_bytes(), slice) == Some(s@),
            None => render(tokens_view(fields@), line.spec_bytes(), slice) is None,
        },
{
    let ghost bytes = line.spec_bytes();
    let ghost toks = tokens_view(fields@);
    let (lo, hi) = resolve_window(fields.len(), slice);
    if lo >= hi {
        return None;
    }
    let a = fields[lo].start;
    let b = fields[hi - 1].end;
    assert(toks[lo as int] == (a as int, fields@[lo as int].end as int));
    assert(toks[hi - 1] == (fields@[hi - 1].start as int, b as int));
    assert(a <= b) by {
        if lo < hi - 1 {
            assert(toks[lo as int].1 <= toks[hi - 1].0);
        }
    }
    let mut out = String::new();
    let mut k: usize = 0;
    while k < a
        invariant
            k <= a,
            out@ == spaces(k as int),
        decreases a - k,
    {
        proof {
            reveal_strlit(" ");
        }
        out.append(" ");
        k = k + 1;
        assert(out@ =~= spaces(k as int));
    }
    proof {
        lemma_boundary_in_suffix(bytes, a as int, b as int);
    }
    let (_, rest) = line.split_at(a);
    let (piece, _) = rest.split_at(b - a);
    assert(piece.spec_bytes() =~= bytes.subrange(a as int, b as int));
    assert(piece@ == decode_utf8(bytes.subrange(a as int, b as int)));
    out.append(piece);
    let raw = line.as_bytes();
    let n = raw.len();
    if n > 0 && raw[n - 1] == 10u8 {
        proof {
            reveal_strlit("\n");
        }
        out.append("\n");
    }
    assert(out@ =~= spaces(a as int) + decode_utf8(bytes.subrange(a as int, b as int)) + eol_of(bytes));
    Some(out)
}

proof fn lemma_gaps_placed(seps: Seq<(int, int)>, bytes: Seq<u8>)
    requires
        valid_utf8(bytes),
        well_placed(seps, bytes),
    ensures
        ({
            let (t, last_end) = gaps_before(seps);
            &&& 0 <= last_end <= bytes.len()
            &&& is_char_boundary(bytes, last_end)
            &&& seps.len() == 0 ==> last_end == 0
            &&& seps.len() > 0 ==> last_end == seps.last().1
            &&& tokens_placed(t, bytes)
            &&& forall|k: int| 0 <= k < t.len() ==> #[trigger] t[k].1 <= last_end
        }),
    decreases seps.len(),
{
    is_char_boundary_start_end_of_seq(bytes);
    if seps.len() > 0 {
        let init = seps.drop_last();
        assert forall|k: int| 0 <= k < init.len() - 1 implies #[trigger] init[k].1 <= init[k + 1].0 by {
            assert(seps[k].1 <= seps[k + 1].0);
        }
        assert forall|k: int| 0 <= k < init.len() implies {
            &&& 0 <= #[trigger] init[k].0 < init[k].1 <= bytes.len()
            &&& is_char_boundary(bytes, init[k].0)
            &&& is_char_boundary(bytes, init[k].1)
        } by {
            assert(init[k] == seps[k]);
        }
        lemma_gaps_placed(init, bytes);
        let (t, le) = gaps_before(init);
        let (a, b) = seps.last();
        assert(seps[seps.len() - 1] == (a, b));
        if init.len() > 0 {
            assert(seps[init.len() - 1].1 <= seps[init.len() as int].0);
        }
        assert(le <= a);
        if a > le {
            let t2 = t.push((le, a));
            assert(tokens_placed(t2, bytes)) by {
                assert forall|i: int, j: int| 0 <= i < j < t2.len() implies #[trigger] t2[i].1 <= #[trigger] t2[j].0 by {
                    if j == t.len() {
                        assert(t[i].1 <= le);
                    } else {
                        assert(t[i].1 <= t[j].0);
                    }
                }
                assert forall|k: int| 0 <= k < t2.len() implies {
                    &&& 0 <= #[trigger] t2[k].0 < t2[k].1 <= bytes.len()
                    &&& is_char_boundary(bytes, t2[k].0)
                    &&& is_char_boundary(bytes, t2[k].1)
                } by {
                    if k < t.len() {
                        assert(t2[k] == t[k]);
                    }
                }
            }
            assert forall|k: int| 0 <= k < t2.len() implies #[trigger] t2[k].1 <= b by {
                if k < t.len() {
                    assert(t2[k] == t[k]);
                    assert(t[k].1 <= le);
                }
            }
        } else {
            assert forall|k: int| 0 <= k < t.len() implies #[trigger] t[k].1 <= b by {
                assert(t[k].1 <= le);
            }
        }
    }
}

proof fn lemma_fields_placed(seps: Seq<(int, int)>, bytes: Seq<u8>)
    requires
        valid_utf8(bytes),
        well_placed(seps, bytes),
    ensures
        tokens_placed(fields_between(seps, bytes.len() as int), bytes),
{
    lemma_gaps_placed(seps, bytes);
    is_char_boundary_start_end_of_seq(bytes);
    let (t, le) = gaps_before(seps);
    let n = bytes.len() as int;
    if le < n {
        let t2 = t.push((le, n));
        assert forall|i: int, j: int| 0 <= i < j < t2.len() implies #[trigger] t2[i].1 <= #[trigger] t2[j].0 by {
            if j == t.len() {
                assert(t[i].1 <= le);
            } else {
                assert(t[i].1 <= t[j].0);
            }
        }
        assert forall|k: int| 0 <= k < t2.len() implies {
            &&& 0 <= #[trigger] t2[k].0 < t2[k].1 <= bytes.len()
            &&& is_char_boundary(bytes, t2[k].0)
            &&& is_char_boundary(bytes, t2[k].1)
        } by {
            if k < t.len() {
                assert(t2[k] == t[k]);
            }
        }
    }
}

/// Splits a line into its fields, with their byte offsets.
pub fn split_with_positions(line: &str) -> (r: Vec<LineToken>)
    ensures
        tokens_view(r@) == fields_between(whitespace_runs(line@), line.spec_bytes().len() as int),
        tokens_placed(tokens_view(r@), line.spec_bytes()),
{
    let seps = whitespace_matches(line);
    proof {
        lemma_runs_placed(line@);
        lemma_fields_placed(spans_view(seps@), line.spec_bytes());
    }
    let n = line.as_bytes().len();
    assert forall|k: int| 0 <= k < seps@.len() implies #[trigger] seps@[k].0 <= seps@[k].1 <= n by {
        assert(spans_view(seps@)[k] == (seps@[k].0 as int, seps@[k].1 as int));
    }
    split_at_separators(&seps, n)
}

/// The fields of `line` that `slice` selects, at the column where they stood, with
/// the line's terminator kept; `None` when the slice selects no field.
pub fn filtered_line(line: &str, slice: Slice) -> (r: Option<String>)
    ensures
        ({
            let toks = fields_between(whitespace_runs(line@), line.spec_bytes().len() as int);
            match r {
                Some(s) => render(toks, line.spec_bytes(), slice) == Some(s@),
                None => render(toks, line.spec_bytes(), slice) is None,
            }
        }),
{
    let fields = split_with_positions(line);
    render_fields(line, &fields, slice)
}

} // verus!
