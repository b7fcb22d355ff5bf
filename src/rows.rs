//! Row selection: applies a slice to a sequence, streaming it directly when the
//! bounds can be resolved up front and buffering it with positions attached
//! when a negative bound needs the length first.
use std::collections::VecDeque;
use vstd::prelude::*;
use crate::slice::{Slice, in_range, normalize_indices, opt_int128, slice_window, spec_normalize, opt_int64, window};

verus! {

/// Where an `ISlice` draws its elements from.
pub enum Source<T> {
    /// A forward cursor: the elements not yet consumed and the position of the first.
    Direct { rest: VecDeque<T>, pos: usize },
    /// The whole sequence, drained up front, each element with its position.
    Buffered(VecDeque<(usize, T)>),
}

/// The elements of a sequence whose positions lie in a normalized range,
/// handed out one at a time.
pub struct ISlice<T> {
    source: Source<T>,
    start: i128,
    end: Option<i128>,
}

/// `items` with each element tagged by its position, counting from `off`.
pub open spec fn enumerate_from<T>(items: Seq<T>, off: int) -> Seq<(int, T)> {
    Seq::new(items.len(), |k: int| (off + k, items[k]))
}

/// Positioned elements with their positions read as integers.
pub open spec fn untagged<T>(s: Seq<(usize, T)>) -> Seq<(int, T)> {
    Seq::new(s.len(), |k: int| (s[k].0 as int, s[k].1))
}

/// The elements of `tagged` whose positions lie in `[start, end)`, in order.
pub open spec fn keep<T>(tagged: Seq<(int, T)>, start: int, end: Option<int>) -> Seq<T>
    decreases tagged.len(),
{
    if tagged.len() == 0 {
        Seq::empty()
    } else {
        let rest = keep(tagged.drop_first(), start, end);
        if in_range(tagged[0].0, start, end) {
            seq![tagged[0].1] + rest
        } else {
            rest
        }
    }
}

/// Keeping a range of positions from an enumerated sequence is taking a
/// contiguous window of it.
pub proof fn lemma_keep_window<T>(items: Seq<T>, off: int, start: int, end: Option<int>)
    ensures
        keep(enumerate_from(items, off), start, end) == items.subrange(
            window(items.len() as int, start - off, opt_shift(end, off)).0,
            window(items.len() as int, start - off, opt_shift(end, off)).1,
        ),
    decreases items.len(),
{
    let n = items.len() as int;
    let w = window(n, start - off, opt_shift(end, off));
    if n == 0 {
        assert(items.subrange(w.0, w.1) =~= Seq::<T>::empty());
    } else {
        let t = enumerate_from(items, off);
        let tail = items.drop_first();
        assert(t.drop_first() =~= enumerate_from(tail, off + 1));
        lemma_keep_window(tail, off + 1, start, end);
        let w2 = window(n - 1, start - (off + 1), opt_shift(end, off + 1));
        assert(tail.subrange(w2.0, w2.1) =~= items.subrange(w2.0 + 1, w2.1 + 1));
        if in_range(off, start, end) {
            assert(seq![items[0]] + items.subrange(w2.0 + 1, w2.1 + 1) =~= items.subrange(w.0, w.1));
        } else {
            assert(items.subrange(w2.0 + 1, w2.1 + 1) =~= items.subrange(w.0, w.1));
        }
    }
}

pub open spec fn opt_shift(end: Option<int>, off: int) -> Option<int> {
    match end {
        Some(e) => Some(e - off),
        None => None,
    }
}

impl<T> ISlice<T> {
    /// The remaining elements with their positions.
    pub closed spec fn tagged(&self) -> Seq<(int, T)> {
        match &self.source {
            Source::Direct { rest, pos } => enumerate_from(rest@, *pos as int),
            Source::Buffered(buf) => untagged(buf@),
        }
    }

    /// The elements still to be handed out, in order.
    pub closed spec fn pending(&self) -> Seq<T> {
        keep(self.tagged(), self.start as int, opt_int128(self.end))
    }

    pub closed spec fn wf(&self) -> bool {
        match &self.source {
            Source::Direct { rest, pos } => *pos + rest@.len() <= usize::MAX,
            Source::Buffered(_) => true,
        }
    }

    /// Prepares the elements of `items` selected by `slice`. Negative bounds are
    /// resolved against `iterable_len` when it is given, and otherwise against
    /// the length of `items`, which then has to be buffered first.
    pub fn new(items: Vec<T>, slice: Slice, iterable_len: Option<usize>) -> (r: Self)
        ensures
            r.wf(),
            r.pending() == items@.subrange(
                slice_window(items@.len() as int, slice, iterable_len).0,
                slice_window(items@.len() as int, slice, iterable_len).1,
            ),
    {
        let ghost all = items@;
        let n = items.len();
        let need_len = match slice.start {
            Some(s) => s < 0,
            None => false,
        } || match slice.end {
            Some(e) => e < 0,
            None => false,
        };
        let start = match slice.start {
            Some(s) => s,
            None => 0,
        };
        let (s, e, buffer) = if need_len && iterable_len.is_none() {
            let (s, e) = normalize_indices(start, slice.end, Some(n));
            (s, e, true)
        } else {
            let (s, e) = normalize_indices(start, slice.end, iterable_len);
            let buffer = match e {
                Some(e) => s < 0 || e < 0,
                None => false,
            };
            (s, e, buffer)
        };
        let r = if buffer {
            ISlice { source: Source::Buffered(tag_all(items)), start: s, end: e }
        } else {
            ISlice { source: Source::Direct { rest: into_queue(items), pos: 0 }, start: s, end: e }
        };
        proof {
            assert(r.tagged() =~= enumerate_from(all, 0));
            lemma_keep_window(all, 0, s as int, opt_int128(e));
            assert(opt_shift(opt_int128(e), 0) == opt_int128(e));
        }
        r
    }

    /// Hands out the next selected element, or `None` once all have been.
    pub fn next(&mut self) -> (r: Option<T>)
        requires
            old(self).wf(),
        ensures
            final(self).wf(),
            old(self).pending().len() == 0 ==> r is None && final(self).pending() == old(self).pending(),
            old(self).pending().len() > 0 ==> r == Some(old(self).pending()[0])
                && final(self).pending() == old(self).pending().drop_first(),
    {
        let start = self.start;
        let end = self.end;
        match &mut self.source {
            Source::Direct { rest, pos } => next_direct(rest, pos, start, end),
            Source::Buffered(buf) => next_buffered(buf, start, end),
        }
    }
}

fn position_in_range(i: usize, start: i128, end: Option<i128>) -> (r: bool)
    ensures
        r == in_range(i as int, start as int, opt_int128(end)),
{
    (i as i128) >= start && match end {
        Some(e) => (i as i128) < e,
        None => true,
    }
}

fn next_direct<T>(rest: &mut VecDeque<T>, pos: &mut usize, start: i128, end: Option<i128>) -> (r: Option<T>)
    requires
        *old(pos) + old(rest)@.len() <= usize::MAX,
    ensures
        *final(pos) + final(rest)@.len() <= usize::MAX,
        ({
            let before = keep(enumerate_from(old(rest)@, *old(pos) as int), start as int, opt_int128(end));
            let after = keep(enumerate_from(final(rest)@, *final(pos) as int), start as int, opt_int128(end));
            &&& before.len() == 0 ==> r is None && after == before
            &&& before.len() > 0 ==> r == Some(before[0]) && after == before.drop_first()
        }),
{
    let ghost before = keep(enumerate_from(rest@, *pos as int), start as int, opt_int128(end));
    loop
        invariant
            *pos + rest@.len() <= usize::MAX,
            before == keep(enumerate_from(old(rest)@, *old(pos) as int), start as int, opt_int128(end)),
            before == keep(enumerate_from(rest@, *pos as int), start as int, opt_int128(end)),
        decreases rest@.len(),
    {
        let ghost t = enumerate_from(rest@, *pos as int);
        match rest.pop_front() {
            None => {
                assert(t.len() == 0);
                assert(before.len() == 0);
                return None;
            },
            Some(x) => {
                let i = *pos;
                *pos = i + 1;
                assert(t.drop_first() =~= enumerate_from(rest@, *pos as int));
                assert(t[0] == (i as int, x));
                if position_in_range(i, start, end) {
                    assert(before == seq![x] + keep(t.drop_first(), start as int, opt_int128(end)));
                    return Some(x);
                }
            },
        }
    }
}

fn next_buffered<T>(buf: &mut VecDeque<(usize, T)>, start: i128, end: Option<i128>) -> (r: Option<T>)
    ensures
        ({
            let before = keep(untagged(old(buf)@), start as int, opt_int128(end));
            let after = keep(untagged(final(buf)@), start as int, opt_int128(end));
            &&& before.len() == 0 ==> r is None && after == before
            &&& before.len() > 0 ==> r == Some(before[0]) && after == before.drop_first()
        }),
{
    let ghost before = keep(untagged(buf@), start as int, opt_int128(end));
    loop
        invariant
            before == keep(untagged(old(buf)@), start as int, opt_int128(end)),
            before == keep(untagged(buf@), start as int, opt_int128(end)),
        decreases buf@.len(),
    {
        let ghost t = untagged(buf@);
        match buf.pop_front() {
            None => {
                assert(t.len() == 0);
                return None;
            },
            Some(x) => {
                assert(t.drop_first() =~= untagged(buf@));
                assert(t[0] == (x.0 as int, x.1));
                if position_in_range(x.0, start, end) {
                    assert(before == seq![x.1] + keep(t.drop_first(), start as int, opt_int128(end)));
                    return Some(x.1);
                }
            },
        }
    }
}

/// Moves the elements of `items` into a queue, in order.
fn into_queue<T>(items: Vec<T>) -> (r: VecDeque<T>)
    ensures
        r@ == items@,
{
    let ghost all = items@;
    let mut items = items;
    let mut q: VecDeque<T> = VecDeque::new();
    while items.len() > 0
        invariant
            all == items@ + q@,
        decreases items@.len(),
    {
        let x = items.pop().unwrap();
        q.push_front(x);
        assert(all =~= items@ + q@);
    }
    assert(q@ =~= all);
    q
}

/// Drains `items` into a queue, each element tagged with its position.
fn tag_all<T>(items: Vec<T>) -> (r: VecDeque<(usize, T)>)
    ensures
        untagged(r@) == enumerate_from(items@, 0),
{
    let ghost all = items@;
    let mut items = items;
    let mut q: VecDeque<(usize, T)> = VecDeque::new();
    while items.len() > 0
        invariant
            items@.len() <= all.len(),
            items@ == all.subrange(0, items@.len() as int),
            untagged(q@)
                == enumerate_from(all, 0).subrange(items@.len() as int, all.len() as int),
        decreases items@.len(),
    {
        let ghost old_items = items@;
        let x = items.pop().unwrap();
        let i = items.len();
        assert(x == all[i as int]);
        let ghost old_q = q@;
        assert(untagged(old_q).len() == old_q.len());
        assert(old_items.len() == i + 1);
        assert(old_q.len() == all.len() - i - 1);
        q.push_front((i, x));
        assert(items@ =~= all.subrange(0, items@.len() as int));
        assert(q@ == seq![(i, x)] + old_q);
        assert(q@.len() == old_q.len() + 1);
        assert(forall|k: int| 1 <= k < q@.len() ==> q@[k] == old_q[k - 1]);
        let ghost mq = untagged(q@);
        let ghost me = enumerate_from(all, 0).subrange(items@.len() as int, all.len() as int);
        assert(mq.len() == me.len());
        assert(mq[0] == me[0]);
        assert(forall|k: int| 1 <= k < mq.len() ==> mq[k] == me[k]) by {
            let mo = untagged(old_q);
            assert(forall|k: int| 1 <= k < mq.len() ==> mq[k] == mo[k - 1]);
        }
        assert(untagged(q@)
            =~= enumerate_from(all, 0).subrange(items@.len() as int, all.len() as int));
    }
    assert(enumerate_from(all, 0).subrange(0, all.len() as int) =~= enumerate_from(all, 0));
    q
}

/// The elements of `items` that `slice` selects, in order.
pub fn islice<T>(items: Vec<T>, slice: Slice, iterable_len: Option<usize>) -> (r: Vec<T>)
    ensures
        r@ == items@.subrange(
            slice_window(items@.len() as int, slice, iterable_len).0,
            slice_window(items@.len() as int, slice, iterable_len).1,
        ),
{
    let ghost all = items@;
    let ghost w = slice_window(items@.len() as int, slice, iterable_len);
    let mut it = ISlice::new(items, slice, iterable_len);
    let ghost target = it.pending();
    let mut out: Vec<T> = Vec::new();
    loop
        invariant
            it.wf(),
            all == items@,
            w == slice_window(all.len() as int, slice, iterable_len),
            target == all.subrange(w.0, w.1),
            out@ + it.pending() == target,
        decreases it.pending().len(),
    {
        let ghost p = it.pending();
        match it.next() {
            Some(x) => {
                out.push(x);
                assert(out@ + it.pending() =~= target) by {
                    assert(p =~= seq![x] + p.drop_first());
                }
            },
            None => {
                assert(out@ =~= target);
                assert(out@ == all.subrange(w.0, w.1));
                assert(w == slice_window(items@.len() as int, slice, iterable_len));
                return out;
            },
        }
    }
}

} // verus!
