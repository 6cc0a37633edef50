//! Walking the items of a page.
//!
//! The items of a page are the frames from the end of the marker words up to
//! the first slot that is not an item: an erased one, a torn one, or the end
//! of the page.

use crate::flash::NorFlash;
use crate::frame::{
    frame_size, pad_bounds, payload_at, read_frame, slot_at, slot_local, span_at, Frame,
};
use crate::layout::Layout;
use vstd::prelude::*;

verus! {

/// An item of the log: where its frame starts, whether it is present or was
/// removed, and its payload.
pub struct Entry {
    pub page: int,
    pub at: int,
    pub present: bool,
    pub data: Seq<u8>,
}

/// A frame could start at offset `off`: two words fit between it and the end
/// of the page.
pub open spec fn has_room(pg: Seq<u8>, w: int, off: int) -> bool {
    w >= 1 && 0 <= off && off + 2 * w <= pg.len()
}

/// The payload length of an item frame; `None` for a slot without an item.
pub open spec fn item_len(f: Frame) -> Option<int> {
    match f {
        Frame::Present { len } => Some(len as int),
        Frame::Tombstone { len } => Some(len as int),
        _ => None,
    }
}

/// The log entry for the item in the slot at `off` of page `p`.
pub open spec fn entry_at(pg: Seq<u8>, w: int, p: int, off: int) -> Entry {
    let f = slot_at(pg, w, off);
    Entry {
        page: p,
        at: off,
        present: f is Present,
        data: payload_at(pg, w, off, item_len(f).unwrap()),
    }
}

/// The items of page `p` from offset `off` on.
pub open spec fn parse(pg: Seq<u8>, w: int, p: int, off: int) -> Seq<Entry>
    decreases pg.len() - off,
{
    if !has_room(pg, w, off) {
        Seq::empty()
    } else {
        match item_len(slot_at(pg, w, off)) {
            Some(len) => {
                proof {
                    pad_bounds(len, w);
                }
                seq![entry_at(pg, w, p, off)] + parse(pg, w, p, off + frame_size(len, w))
            },
            None => Seq::empty(),
        }
    }
}

/// The offset of the first slot from `off` on that is not an item.
pub open spec fn stop(pg: Seq<u8>, w: int, off: int) -> int
    decreases pg.len() - off,
{
    if !has_room(pg, w, off) {
        off
    } else {
        match item_len(slot_at(pg, w, off)) {
            Some(len) => {
                proof {
                    pad_bounds(len, w);
                }
                stop(pg, w, off + frame_size(len, w))
            },
            None => off,
        }
    }
}

/// The items between the offsets `from` and `to`, if a chain of item frames
/// leads from the one to the other.
pub open spec fn reach(pg: Seq<u8>, w: int, p: int, from: int, to: int) -> Option<Seq<Entry>>
    decreases to - from,
{
    if from == to {
        Some(Seq::empty())
    } else if from > to || !has_room(pg, w, from) {
        None
    } else {
        match item_len(slot_at(pg, w, from)) {
            Some(len) => {
                proof {
                    pad_bounds(len, w);
                }
                if from + frame_size(len, w) > to {
                    None
                } else {
                    match reach(pg, w, p, from + frame_size(len, w), to) {
                        Some(rest) => Some(seq![entry_at(pg, w, p, from)] + rest),
                        None => None,
                    }
                }
            },
            None => None,
        }
    }
}

/// Every slot that a walk from offset `off` on looks at is decided by at most
/// `cap` bytes: a buffer of `cap` bytes is enough for the walk.
pub open spec fn roomy(pg: Seq<u8>, w: int, off: int, cap: int) -> bool
    decreases pg.len() - off,
{
    !has_room(pg, w, off) || (span_at(pg, w, off) <= cap && match item_len(slot_at(pg, w, off)) {
        Some(len) => {
            proof {
                pad_bounds(len, w);
            }
            roomy(pg, w, off + frame_size(len, w), cap)
        },
        None => true,
    })
}

/// The frame of an item lies inside the page, and its span is its size.
pub proof fn item_span(pg: Seq<u8>, w: int, off: int)
    requires
        w >= 1,
        0 <= off,
        item_len(slot_at(pg, w, off)) is Some,
    ensures
        span_at(pg, w, off) == frame_size(item_len(slot_at(pg, w, off)).unwrap(), w),
        off + span_at(pg, w, off) <= pg.len(),
        span_at(pg, w, off) >= 2 * w,
{
    let len = item_len(slot_at(pg, w, off)).unwrap();
    pad_bounds(len, w);
    let lw = pg.subrange(off, off + w);
    assert(crate::frame::len_value(lw) >= 0);
}

/// A span is at least one word, and at least two where the slot announces a
/// frame.
pub proof fn span_shape(pg: Seq<u8>, w: int, off: int)
    requires
        w >= 1,
        0 <= off,
    ensures
        span_at(pg, w, off) == w || (span_at(pg, w, off) >= 2 * w && off + span_at(pg, w, off)
            <= pg.len()),
        item_len(slot_at(pg, w, off)) is Some ==> span_at(pg, w, off) >= 2 * w,
{
    let lw = pg.subrange(off, off + w);
    assert(crate::frame::len_value(lw) >= 0);
    if let Some(n) = crate::frame::decode_len(lw) {
        pad_bounds(n, w);
    }
}

/// A chain ends where the rest of the page carries on: the items from `from`
/// are those up to `to` followed by those from `to`.
pub proof fn reach_then_parse(pg: Seq<u8>, w: int, p: int, from: int, to: int)
    requires
        reach(pg, w, p, from, to) is Some,
    ensures
        parse(pg, w, p, from) == reach(pg, w, p, from, to).unwrap() + parse(pg, w, p, to),
        stop(pg, w, from) == stop(pg, w, to),
    decreases to - from,
{
    if from == to {
        assert(Seq::<Entry>::empty() + parse(pg, w, p, to) =~= parse(pg, w, p, to));
    } else {
        let len = item_len(slot_at(pg, w, from)).unwrap();
        pad_bounds(len, w);
        let next = from + frame_size(len, w);
        reach_then_parse(pg, w, p, next, to);
        let rest = reach(pg, w, p, next, to).unwrap();
        assert((seq![entry_at(pg, w, p, from)] + rest) + parse(pg, w, p, to) =~= seq![
            entry_at(pg, w, p, from),
        ] + (rest + parse(pg, w, p, to)));
    }
}

/// A chain grows by the item that follows it.
pub proof fn reach_step(pg: Seq<u8>, w: int, p: int, from: int, to: int)
    requires
        reach(pg, w, p, from, to) is Some,
        has_room(pg, w, to),
        item_len(slot_at(pg, w, to)) is Some,
    ensures
        reach(pg, w, p, from, to + frame_size(item_len(slot_at(pg, w, to)).unwrap(), w)) == Some(
            reach(pg, w, p, from, to).unwrap().push(entry_at(pg, w, p, to)),
        ),
    decreases to - from,
{
    let last = item_len(slot_at(pg, w, to)).unwrap();
    pad_bounds(last, w);
    let end = to + frame_size(last, w);
    if from == to {
        assert(reach(pg, w, p, end, end) == Some(Seq::<Entry>::empty()));
        assert(seq![entry_at(pg, w, p, to)] + Seq::<Entry>::empty() =~= Seq::<Entry>::empty().push(
            entry_at(pg, w, p, to),
        ));
    } else {
        let len = item_len(slot_at(pg, w, from)).unwrap();
        pad_bounds(len, w);
        let next = from + frame_size(len, w);
        reach_step(pg, w, p, next, to);
        let rest = reach(pg, w, p, next, to).unwrap();
        assert(seq![entry_at(pg, w, p, from)] + rest.push(entry_at(pg, w, p, to)) =~= (seq![
            entry_at(pg, w, p, from),
        ] + rest).push(entry_at(pg, w, p, to)));
    }
}

/// A chain is decided by the bytes between its ends.
pub proof fn reach_local(a: Seq<u8>, b: Seq<u8>, w: int, p: int, from: int, to: int)
    requires
        w >= 1,
        0 <= from,
        a.len() == b.len(),
        to <= a.len(),
        forall|i: int| from <= i < to ==> a[i] == b[i],
    ensures
        reach(b, w, p, from, to) == reach(a, w, p, from, to),
    decreases to - from,
{
    if from < to && has_room(a, w, from) {
        span_shape(a, w, from);
        span_shape(b, w, from);
        if from + w <= to {
            if from + span_at(a, w, from) <= to {
                slot_local(a, b, w, from, to);
                if let Some(len) = item_len(slot_at(a, w, from)) {
                    item_span(a, w, from);
                    reach_local(a, b, w, p, from + frame_size(len, w), to);
                }
            } else {
                // The announced frame runs past `to` in both pages.
                assert(a.subrange(from, from + w) =~= b.subrange(from, from + w));
                if item_len(slot_at(a, w, from)) is Some {
                    item_span(a, w, from);
                }
                if item_len(slot_at(b, w, from)) is Some {
                    item_span(b, w, from);
                }
            }
        } else {
            if item_len(slot_at(a, w, from)) is Some {
                item_span(a, w, from);
            }
            if item_len(slot_at(b, w, from)) is Some {
                item_span(b, w, from);
            }
        }
    }
}

/// From a slot that is not an item on, a page has no items.
pub proof fn parse_ends(pg: Seq<u8>, w: int, p: int, off: int)
    requires
        !has_room(pg, w, off) || item_len(slot_at(pg, w, off)) is None,
    ensures
        parse(pg, w, p, off) == Seq::<Entry>::empty(),
        stop(pg, w, off) == off,
{
}

/// Why a walk over a page ended.
#[derive(Clone, Copy, Debug, PartialEq, Eq, Structural)]
pub enum ScanEnd {
    /// At an erased slot: the page has free space from here on.
    Free,
    /// At a torn frame: nothing behind it can be trusted.
    Torn,
    /// At the end of the page.
    Full,
}

/// The buffer cannot hold the frame that a length word announces.
#[derive(Clone, Copy, Debug, PartialEq, Eq, Structural)]
pub struct TooSmall;

/// A walk over the frames of one page, from the marker words on.
#[derive(Clone, Copy, Debug)]
pub struct PageScanner {
    pub page: u32,
    pub off: u32,
    pub end: Option<ScanEnd>,
}

impl PageScanner {
    /// The walk is inside page `page` of the layout.
    pub open spec fn wf(&self, l: &Layout) -> bool {
        self.page < l.pages && 2 * l.word <= self.off <= l.page
    }

    /// A walk at the first slot of page `page`.
    pub fn new(l: &Layout, page: u32) -> (s: PageScanner)
        requires
            l.wf(),
            page < l.pages,
        ensures
            s.wf(l),
            s.page == page,
            s.off == 2 * l.word,
            s.end is None,
    {
        PageScanner { page, off: 2 * l.word, end: None }
    }

    /// A walk that starts at offset `off` of page `page`.
    pub fn from_offset(l: &Layout, page: u32, off: u32) -> (s: PageScanner)
        requires
            l.wf(),
            page < l.pages,
            2 * l.word <= off <= l.page,
        ensures
            s.wf(l),
            s.page == page,
            s.off == off,
            s.end is None,
    {
        PageScanner { page, off, end: None }
    }

    /// Reads the next slot. An item or a torn frame is handed out with its
    /// offset; for an item the walk moves behind it and its payload is left
    /// in `buf` from index `word` on. At an erased slot, a torn frame or the
    /// end of the page the walk ends.
    pub fn next<F: NorFlash>(&mut self, flash: &F, l: &Layout, buf: &mut [u8]) -> (r: Result<
        Option<(u32, Frame)>,
        TooSmall,
    >)
        requires
            old(self).wf(l),
            l.on(flash),
            old(buf)@.len() >= 2 * l.word,
        ensures
            final(self).wf(l),
            final(self).page == old(self).page,
            final(buf)@.len() == old(buf)@.len(),
            r is Err <==> old(self).end is None && has_room(
                l.page_at(flash.contents(), old(self).page as int),
                l.word as int,
                old(self).off as int,
            ) && span_at(
                l.page_at(flash.contents(), old(self).page as int),
                l.word as int,
                old(self).off as int,
            ) > old(buf)@.len(),
            ({
                let pg = l.page_at(flash.contents(), old(self).page as int);
                let w = l.word as int;
                let off = old(self).off as int;
                match r {
                    Err(_) => {
                        &&& *final(self) == *old(self)
                        &&& old(self).end is None
                        &&& has_room(pg, w, off)
                        &&& span_at(pg, w, off) > old(buf)@.len()
                    },
                    Ok(Some((at, f))) => {
                        &&& old(self).end is None
                        &&& at == off
                        &&& has_room(pg, w, off)
                        &&& f == slot_at(pg, w, off)
                        &&& match item_len(f) {
                            Some(len) => {
                                &&& final(self).off == off + frame_size(len, w)
                                &&& final(self).end is None
                                &&& frame_size(len, w) <= old(buf)@.len()
                                &&& final(buf)@.subrange(w, w + len) == payload_at(pg, w, off, len)
                            },
                            None => {
                                &&& f == Frame::Corrupt
                                &&& final(self).off == off
                                &&& final(self).end == Some(ScanEnd::Torn)
                            },
                        }
                    },
                    Ok(None) => {
                        &&& final(self).off == off
                        &&& final(self).end is Some
                        &&& old(self).end is Some ==> final(self).end == old(self).end
                        &&& old(self).end is None ==> if has_room(pg, w, off) {
                            slot_at(pg, w, off) == Frame::Erased && final(self).end == Some(
                                ScanEnd::Free,
                            )
                        } else {
                            final(self).end == Some(ScanEnd::Full)
                        }
                    },
                }
            }),
    {
        if self.end.is_some() {
            return Ok(None);
        }
        proof {
            l.page_len(flash.contents(), self.page as int);
        }
        if l.page - self.off < 2 * l.word {
            self.end = Some(ScanEnd::Full);
            return Ok(None);
        }
        match read_frame(flash, l, self.page, self.off, buf) {
            None => Err(TooSmall),
            Some(f) => {
                match f {
                    Frame::Erased => {
                        self.end = Some(ScanEnd::Free);
                        Ok(None)
                    },
                    Frame::Corrupt => {
                        self.end = Some(ScanEnd::Torn);
                        Ok(Some((self.off, f)))
                    },
                    Frame::Present { len } => {
                        let at: u32 = self.off;
                        proof {
                            pad_bounds(len as int, l.word as int);
                        }
                        self.off = at + 2 * l.word + crate::frame::pad_to(len, l.word);
                        Ok(Some((at, f)))
                    },
                    Frame::Tombstone { len } => {
                        let at: u32 = self.off;
                        proof {
                            pad_bounds(len as int, l.word as int);
                        }
                        self.off = at + 2 * l.word + crate::frame::pad_to(len, l.word);
                        Ok(Some((at, f)))
                    },
                }
            },
        }
    }
}

/// The items from `off` on are decided by the bytes from `off` on.
pub proof fn parse_local(a: Seq<u8>, b: Seq<u8>, w: int, p: int, off: int)
    requires
        a.len() == b.len(),
        forall|i: int| off <= i < a.len() ==> a[i] == b[i],
    ensures
        parse(b, w, p, off) == parse(a, w, p, off),
        stop(b, w, off) == stop(a, w, off),
    decreases a.len() - off,
{
    if has_room(a, w, off) {
        span_shape(a, w, off);
        slot_local(a, b, w, off, a.len() as int);
        if let Some(len) = item_len(slot_at(a, w, off)) {
            pad_bounds(len, w);
            item_span(a, w, off);
            parse_local(a, b, w, p, off + frame_size(len, w));
        }
    }
}

/// Two chains that meet make one.
pub proof fn reach_join(pg: Seq<u8>, w: int, p: int, a: int, b: int, c: int)
    requires
        reach(pg, w, p, a, b) is Some,
        reach(pg, w, p, b, c) is Some,
    ensures
        reach(pg, w, p, a, c) == Some(
            reach(pg, w, p, a, b).unwrap() + reach(pg, w, p, b, c).unwrap(),
        ),
    decreases b - a,
{
    let y = reach(pg, w, p, b, c).unwrap();
    if a == b {
        assert(Seq::<Entry>::empty() + y =~= y);
    } else {
        let len = item_len(slot_at(pg, w, a)).unwrap();
        pad_bounds(len, w);
        let next = a + frame_size(len, w);
        reach_join(pg, w, p, next, b, c);
        reach_ordered(pg, w, p, b, c);
        let rest = reach(pg, w, p, next, b).unwrap();
        assert((seq![entry_at(pg, w, p, a)] + rest) + y =~= seq![entry_at(pg, w, p, a)] + (rest + y));
    }
}

/// A chain leads forward.
pub proof fn reach_ordered(pg: Seq<u8>, w: int, p: int, a: int, b: int)
    requires
        reach(pg, w, p, a, b) is Some,
    ensures
        a <= b,
{
}

/// Whether a buffer is enough for a walk from `off` on is decided by the
/// bytes from `off` on.
pub proof fn roomy_local(a: Seq<u8>, b: Seq<u8>, w: int, off: int, cap: int)
    requires
        a.len() == b.len(),
        forall|i: int| off <= i < a.len() ==> a[i] == b[i],
    ensures
        roomy(b, w, off, cap) == roomy(a, w, off, cap),
    decreases a.len() - off,
{
    if has_room(a, w, off) {
        span_shape(a, w, off);
        slot_local(a, b, w, off, a.len() as int);
        if let Some(len) = item_len(slot_at(a, w, off)) {
            pad_bounds(len, w);
            item_span(a, w, off);
            roomy_local(a, b, w, off + frame_size(len, w), cap);
        }
    }
}

/// A buffer that is enough for a walk is enough for the rest of the walk.
pub proof fn roomy_along(pg: Seq<u8>, w: int, p: int, from: int, to: int, cap: int)
    requires
        reach(pg, w, p, from, to) is Some,
        roomy(pg, w, from, cap),
    ensures
        roomy(pg, w, to, cap),
    decreases to - from,
{
    if from != to {
        let len = item_len(slot_at(pg, w, from)).unwrap();
        pad_bounds(len, w);
        roomy_along(pg, w, p, from + frame_size(len, w), to, cap);
    }
}

/// A buffer that was enough for a walk is still enough where the page
/// changed only behind a chain of items, and the buffer is enough for the
/// walk from the end of that chain on.
pub proof fn roomy_rebuilt(a: Seq<u8>, b: Seq<u8>, w: int, p: int, from: int, to: int, cap: int)
    requires
        w >= 1,
        0 <= from,
        a.len() == b.len(),
        to <= a.len(),
        forall|i: int| from <= i < to ==> a[i] == b[i],
        reach(a, w, p, from, to) is Some,
        roomy(a, w, from, cap),
        roomy(b, w, to, cap),
    ensures
        roomy(b, w, from, cap),
    decreases to - from,
{
    if from != to {
        let len = item_len(slot_at(a, w, from)).unwrap();
        pad_bounds(len, w);
        item_span(a, w, from);
        slot_local(a, b, w, from, to);
        roomy_rebuilt(a, b, w, p, from + frame_size(len, w), to, cap);
    }
}

/// Whether a buffer is enough to walk a page is decided by what the page
/// holds behind its marker words.
pub proof fn roomy_by_body(a: Seq<u8>, b: Seq<u8>, w: int, cap: int)
    requires
        w >= 1,
        a.len() == b.len(),
        a.subrange(2 * w, a.len() as int) == b.subrange(2 * w, b.len() as int),
    ensures
        roomy(b, w, 2 * w, cap) == roomy(a, w, 2 * w, cap),
{
    if a.len() >= 2 * w {
        assert forall|i: int| 2 * w <= i < a.len() implies a[i] == b[i] by {
            assert(a.subrange(2 * w, a.len() as int)[i - 2 * w] == b.subrange(
                2 * w,
                b.len() as int,
            )[i - 2 * w]);
        }
        roomy_local(a, b, w, 2 * w, cap);
    }
}

/// Any buffer of a word or more is enough to walk a blank page.
pub proof fn blank_roomy(pg: Seq<u8>, w: int, cap: int)
    requires
        w >= 1,
        cap >= w,
        crate::flash::all_ones(pg),
    ensures
        roomy(pg, w, 2 * w, cap),
{
    if has_room(pg, w, 2 * w) {
        assert(pg.subrange(0, pg.len() as int) =~= pg);
        crate::flash::ones_within(pg, 0, pg.len() as int, 2 * w, 3 * w);
    }
}

/// The sum of two multiples of `w` is a multiple of `w`.
pub proof fn sum_aligned(a: int, b: int, w: int)
    requires
        w >= 1,
        a >= 0,
        b >= 0,
        a % w == 0,
        b % w == 0,
    ensures
        (a + b) % w == 0,
        w % w == 0,
        (2 * w) % w == 0,
{
    crate::mock::divides(a, w);
    crate::mock::divides(b, w);
    let q = a / w + b / w;
    assert(a + b == q * w) by (nonlinear_arith)
        requires
            a == (a / w) * w,
            b == (b / w) * w,
            q == a / w + b / w,
    ;
    crate::mock::multiples(q, 0, w);
    crate::mock::multiples(1, 0, w);
    crate::mock::multiples(2, 0, w);
}

/// The size of a frame is a whole number of words.
pub proof fn frame_aligned(n: int, w: int)
    requires
        w >= 1,
        n >= 0,
    ensures
        frame_size(n, w) % w == 0,
        frame_size(n, w) >= 2 * w,
        (w + crate::frame::pad(n, w)) % w == 0,
{
    pad_bounds(n, w);
    sum_aligned(w, crate::frame::pad(n, w), w);
    sum_aligned(w, w + crate::frame::pad(n, w), w);
}

/// A chain of items that starts at a word boundary ends at one.
pub proof fn reach_aligned(pg: Seq<u8>, w: int, p: int, from: int, to: int)
    requires
        w >= 1,
        0 <= from,
        from % w == 0,
        reach(pg, w, p, from, to) is Some,
    ensures
        to % w == 0,
    decreases to - from,
{
    if from != to {
        let len = item_len(slot_at(pg, w, from)).unwrap();
        frame_aligned(len, w);
        sum_aligned(from, frame_size(len, w), w);
        reach_aligned(pg, w, p, from + frame_size(len, w), to);
    }
}

} // verus!
