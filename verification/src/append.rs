//! Appending an item to the page at the head of the ring.

use crate::cache::Cache;
use crate::find::last_for_push;
use crate::flash::{
    all_ones, fair, lost, mended, partly_written, refused, spared, splice, tolled, FlashError,
    NorFlash,
};
use crate::frame::{
    encode_frame, frame_size, len_limit, limit_for, pad_bounds, pad_to, sealed_reads_back, slot_at,
    span_at, torn_reads_corrupt, write_frame, Frame,
};
use crate::header::{state_by_markers, PageState};
use crate::item::{balked, cut, rejected, short, wants, Error, StorageItem};
use crate::layout::{others_kept, read_at, Layout};
use crate::ring::{
    agrees, frees_agree, head_in_range, head_of, in_log, items_extend, items_from, items_keep,
    keys_agree, live_in, log_of, nth, nth_closed, page_items, snug, snug_step, states_of,
};
use crate::scan::{
    frame_aligned, has_room, item_span, parse, parse_ends, reach, reach_aligned, reach_join,
    reach_local, reach_step, reach_then_parse, roomy, roomy_along, roomy_rebuilt, span_shape,
    sum_aligned, Entry, PageScanner, ScanEnd, TooSmall,
};
use vstd::prelude::*;

verus! {

/// The entry of a present item with payload `data` at offset `at` of page
/// `p`.
pub open spec fn fresh(p: int, at: int, data: Seq<u8>) -> Entry {
    Entry { page: p, at, present: true, data }
}

/// The page is blank where the frame of `size` bytes at offset `at` will lie,
/// and in the length word behind it where another frame could start.
pub open spec fn landing_blank(pg: Seq<u8>, w: int, at: int, size: int) -> bool {
    &&& all_ones(pg.subrange(at, at + size))
    &&& at + size + 2 * w <= pg.len() ==> all_ones(pg.subrange(at + size, at + size + w))
}

/// A frame written behind the items of a page adds its item to them.
pub proof fn append_parse(pg: Seq<u8>, w: int, p: int, at: int, payload: Seq<u8>)
    requires
        w >= 1,
        2 * w <= at,
        reach(pg, w, p, 2 * w, at) is Some,
        payload.len() < len_limit(w),
        at + frame_size(payload.len() as int, w) <= pg.len(),
        landing_blank(pg, w, at, frame_size(payload.len() as int, w)),
    ensures
        ({
            let after = splice(pg, at, encode_frame(payload, w));
            let es = reach(pg, w, p, 2 * w, at).unwrap();
            &&& parse(pg, w, p, 2 * w) == es
            &&& parse(after, w, p, 2 * w) == es.push(fresh(p, at, payload))
            &&& reach(after, w, p, 2 * w, at + frame_size(payload.len() as int, w)) == Some(
                es.push(fresh(p, at, payload)),
            )
            &&& !has_room(after, w, at + frame_size(payload.len() as int, w)) || slot_at(
                after,
                w,
                at + frame_size(payload.len() as int, w),
            ) == Frame::Erased
            &&& after.subrange(0, 2 * w) == pg.subrange(0, 2 * w)
        }),
{
    let n = payload.len() as int;
    let size = frame_size(n, w);
    let after = splice(pg, at, encode_frame(payload, w));
    let es = reach(pg, w, p, 2 * w, at).unwrap();
    pad_bounds(n, w);
    sealed_reads_back(pg, w, at, payload);
    assert(after.subrange(0, 2 * w) =~= pg.subrange(0, 2 * w));
    // Before: the slot at `at` is erased.
    assert(all_ones(pg.subrange(at, at + w))) by {
        let blank = pg.subrange(at, at + size);
        let first = pg.subrange(at, at + w);
        assert forall|i: int| 0 <= i < w implies #[trigger] first[i] == 0xFFu8 by {
            assert(first[i] == blank[i]);
        }
    }
    reach_then_parse(pg, w, p, 2 * w, at);
    parse_ends(pg, w, p, at);
    assert(es + Seq::<Entry>::empty() =~= es);
    // After: the chain leads to the new item, and nothing follows it.
    reach_local(pg, after, w, p, 2 * w, at);
    reach_step(after, w, p, 2 * w, at);
    if has_room(after, w, at + size) {
        assert(after.subrange(at + size, at + size + w) =~= pg.subrange(at + size, at + size + w));
    }
    parse_ends(after, w, p, at + size);
    reach_then_parse(after, w, p, 2 * w, at + size);
    assert(es.push(fresh(p, at, payload)) + Seq::<Entry>::empty() =~= es.push(
        fresh(p, at, payload),
    ));
}

/// A frame of which only a part was written behind the items of a page adds
/// nothing to them, unless all of it was written.
pub proof fn torn_parse(pg: Seq<u8>, w: int, p: int, at: int, payload: Seq<u8>, done: int)
    requires
        w >= 1,
        2 * w <= at,
        reach(pg, w, p, 2 * w, at) is Some,
        payload.len() < len_limit(w),
        at + frame_size(payload.len() as int, w) <= pg.len(),
        landing_blank(pg, w, at, frame_size(payload.len() as int, w)),
        0 <= done <= frame_size(payload.len() as int, w),
        done % w == 0,
    ensures
        ({
            let after = splice(pg, at, encode_frame(payload, w).subrange(0, done));
            let es = reach(pg, w, p, 2 * w, at).unwrap();
            &&& parse(pg, w, p, 2 * w) == es
            &&& parse(after, w, p, 2 * w) == (if done == frame_size(payload.len() as int, w) {
                es.push(fresh(p, at, payload))
            } else {
                es
            })
            &&& after.subrange(0, 2 * w) == pg.subrange(0, 2 * w)
        }),
{
    let n = payload.len() as int;
    let size = frame_size(n, w);
    let ef = encode_frame(payload, w);
    let after = splice(pg, at, ef.subrange(0, done));
    let es = reach(pg, w, p, 2 * w, at).unwrap();
    pad_bounds(n, w);
    append_parse(pg, w, p, at, payload);
    sealed_reads_back(pg, w, at, payload);
    assert(after.subrange(0, 2 * w) =~= pg.subrange(0, 2 * w));
    if done == size {
        assert(ef.subrange(0, done) =~= ef);
    } else if done == 0 {
        assert(after =~= pg);
    } else {
        torn_reads_corrupt(pg, w, at, payload, done);
        reach_local(pg, after, w, p, 2 * w, at);
        reach_then_parse(after, w, p, 2 * w, at);
        parse_ends(after, w, p, at);
        assert(es + Seq::<Entry>::empty() =~= es);
    }
}

/// Where the page at the head of the ring gains an item and nothing else
/// changes, the log gains that item.
pub proof fn log_appended(l: Layout, a: Seq<u8>, b: Seq<u8>, h: int, e: Entry)
    requires
        l.wf(),
        l.base + l.pages * l.page <= a.len(),
        a.len() == b.len(),
        head_of(l, states_of(l, a)) == Some(h),
        states_of(l, a)[h] == PageState::PartialOpen,
        others_kept(l, a, b, h),
        l.page_at(b, h).subrange(0, 2 * l.word) == l.page_at(a, h).subrange(0, 2 * l.word),
        parse(l.page_at(b, h), l.word as int, h, 2 * l.word) == parse(
            l.page_at(a, h),
            l.word as int,
            h,
            2 * l.word,
        ).push(e),
    ensures
        states_of(l, b) == states_of(l, a),
        log_of(l, b) == log_of(l, a).push(e),
{
    head_in_range(l, states_of(l, a));
    l.page_len(a, h);
    l.page_len(b, h);
    state_by_markers(l.page_at(a, h), l.page_at(b, h), l.word as int);
    assert(states_of(l, b) =~= states_of(l, a)) by {
        assert forall|x: int| 0 <= x < l.pages implies states_of(l, b)[x] == states_of(l, a)[x] by {
            if x != h {
                assert(l.page_at(b, x) == l.page_at(a, x));
            }
        }
    }
    let start = l.succ(l.succ(h));
    let n = (l.pages - 2) as nat;
    items_extend(l, a, start, n);
    items_extend(l, b, start, n);
    nth_closed(l, start, n);
    assert(nth(l, start, n) == h);
    assert forall|j: nat| j < n implies page_items(l, b, #[trigger] nth(l, start, j)) == page_items(
        l,
        a,
        nth(l, start, j),
    ) by {
        nth_closed(l, start, j);
        assert(nth(l, start, j) != h);
        assert(l.page_at(b, nth(l, start, j)) == l.page_at(a, nth(l, start, j)));
    }
    items_keep(l, a, b, start, n);
    let front = items_from(l, a, start, n);
    let last = page_items(l, a, h);
    assert(front + last.push(e) =~= (front + last).push(e));
}

/// Where only a page that lies outside the log changes, and no page changes
/// its state, the log stays as it is.
pub proof fn log_untouched(l: Layout, a: Seq<u8>, b: Seq<u8>, x: int)
    requires
        l.wf(),
        0 <= x < l.pages,
        states_of(l, b) == states_of(l, a),
        others_kept(l, a, b, x),
        head_of(l, states_of(l, a)) matches Some(h) ==> x == l.succ(h) || page_items(l, b, x)
            == page_items(l, a, x),
    ensures
        log_of(l, b) == log_of(l, a),
{
    head_in_range(l, states_of(l, a));
    if let Some(h) = head_of(l, states_of(l, a)) {
        let start = l.succ(l.succ(h));
        let n = (l.pages - 1) as nat;
        assert forall|j: nat| j < n implies page_items(l, b, #[trigger] nth(l, start, j))
            == page_items(l, a, nth(l, start, j)) by {
            nth_closed(l, start, j);
            let y = nth(l, start, j);
            assert(y != l.succ(h));
            if y != x {
                assert(l.page_at(b, y) == l.page_at(a, y));
            }
        }
        items_keep(l, a, b, start, n);
    }
}

/// Whether the bytes `[from, to)` of page `p` are all erased.
pub fn is_blank<F: NorFlash>(flash: &F, l: &Layout, p: u32, from: u32, to: u32, buf: &mut [u8]) -> (r:
    bool)
    requires
        l.on(flash),
        p < l.pages,
        from <= to <= l.page,
        old(buf)@.len() >= 2 * l.word,
    ensures
        final(buf)@.len() == old(buf)@.len(),
        r == all_ones(l.page_at(flash.contents(), p as int).subrange(from as int, to as int)),
{
    let ghost pg = l.page_at(flash.contents(), p as int);
    let cap: usize = buf.len();
    let mut at: u32 = from;
    proof {
        l.page_len(flash.contents(), p as int);
    }
    while at < to
        invariant
            l.on(flash),
            p < l.pages,
            from <= at <= to <= l.page,
            pg == l.page_at(flash.contents(), p as int),
            pg.len() == l.page,
            cap == buf@.len(),
            buf@.len() == old(buf)@.len(),
            buf@.len() >= 2 * l.word,
            all_ones(pg.subrange(from as int, at as int)),
        decreases to - at,
    {
        let left: u32 = to - at;
        let n: usize = if (left as usize) < cap {
            left as usize
        } else {
            cap
        };
        read_at(flash, l, p, at, buf, n);
        let ghost chunk = pg.subrange(at as int, at + n);
        let mut i: usize = 0;
        while i < n
            invariant
                i <= n <= buf@.len(),
                buf@.len() == old(buf)@.len(),
                pg == l.page_at(flash.contents(), p as int),
                pg.len() == l.page,
                to <= l.page,
                chunk == pg.subrange(at as int, at + n),
                buf@.subrange(0, n as int) == chunk,
                from <= at,
                at + n <= to <= pg.len(),
                all_ones(pg.subrange(from as int, at as int)),
                forall|j: int| 0 <= j < i ==> chunk[j] == 0xFFu8,
            decreases n - i,
        {
            if buf[i] != 0xFF {
                proof {
                    assert(buf@[i as int] == buf@.subrange(0, n as int)[i as int]);
                    let whole = pg.subrange(from as int, to as int);
                    assert(whole[at - from + i] == chunk[i as int]);
                }
                return false;
            }
            proof {
                assert(buf@[i as int] == buf@.subrange(0, n as int)[i as int]);
            }
            i += 1;
        }
        proof {
            let next = pg.subrange(from as int, at + n);
            let prev = pg.subrange(from as int, at as int);
            assert forall|j: int| 0 <= j < next.len() implies next[j] == 0xFFu8 by {
                if j < prev.len() {
                    assert(next[j] == prev[j]);
                } else {
                    assert(next[j] == chunk[j - prev.len()]);
                }
            }
        }
        at = at + n as u32;
    }
    true
}

/// Walks page `p` from offset `from` to the first slot that is not an item,
/// and tells where that is and what is there.
pub fn find_stop<F: NorFlash>(flash: &F, l: &Layout, p: u32, from: u32, buf: &mut [u8]) -> (r:
    Result<(u32, ScanEnd), TooSmall>)
    requires
        l.on(flash),
        p < l.pages,
        2 * l.word <= from <= l.page,
        old(buf)@.len() >= 2 * l.word,
    ensures
        final(buf)@.len() == old(buf)@.len(),
        roomy(
            l.page_at(flash.contents(), p as int),
            l.word as int,
            from as int,
            old(buf)@.len() as int,
        ) ==> r is Ok,
        match r {
            Ok((at, end)) => {
                let pg = l.page_at(flash.contents(), p as int);
                &&& from <= at <= l.page
                &&& reach(pg, l.word as int, p as int, from as int, at as int) is Some
                &&& match end {
                    ScanEnd::Free => has_room(pg, l.word as int, at as int) && slot_at(
                        pg,
                        l.word as int,
                        at as int,
                    ) == Frame::Erased,
                    ScanEnd::Torn => has_room(pg, l.word as int, at as int) && slot_at(
                        pg,
                        l.word as int,
                        at as int,
                    ) == Frame::Corrupt,
                    ScanEnd::Full => !has_room(pg, l.word as int, at as int),
                }
            },
            Err(_) => old(buf)@.len() < l.page,
        },
{
    let ghost pg = l.page_at(flash.contents(), p as int);
    let ghost w = l.word as int;
    let mut sc = PageScanner::from_offset(l, p, from);
    proof {
        l.page_len(flash.contents(), p as int);
    }
    loop
        invariant
            l.on(flash),
            pg == l.page_at(flash.contents(), p as int),
            pg.len() == l.page,
            w == l.word,
            sc.wf(l),
            sc.page == p,
            sc.end is None,
            from <= sc.off,
            2 * l.word <= from,
            buf@.len() == old(buf)@.len(),
            buf@.len() >= 2 * l.word,
            reach(pg, w, p as int, from as int, sc.off as int) is Some,
            roomy(pg, w, from as int, buf@.len() as int) ==> roomy(
                pg,
                w,
                sc.off as int,
                buf@.len() as int,
            ),
        decreases l.page - sc.off,
    {
        let ghost before = sc.off;
        match sc.next(flash, l, buf) {
            Err(e) => {
                proof {
                    span_shape(pg, w, sc.off as int);
                }
                return Err(e);
            },
            Ok(None) => {
                let end = match sc.end {
                    Some(ScanEnd::Free) => ScanEnd::Free,
                    _ => ScanEnd::Full,
                };
                return Ok((sc.off, end));
            },
            Ok(Some((at, f))) => {
                match f {
                    Frame::Present { len } => {
                        proof {
                            item_span(pg, w, at as int);
                            reach_step(pg, w, p as int, from as int, at as int);
                        }
                    },
                    Frame::Tombstone { len } => {
                        proof {
                            item_span(pg, w, at as int);
                            reach_step(pg, w, p as int, from as int, at as int);
                        }
                    },
                    _ => {
                        return Ok((at, ScanEnd::Torn));
                    },
                }
            },
        }
    }
}

/// Page `h` has blank room for an item with a payload of `n` bytes: its
/// items end at an erased slot, the frame fits between that slot and the end
/// of the page, and the page is blank where the frame will lie.
pub open spec fn lands(l: Layout, c: Seq<u8>, h: int, n: int) -> bool {
    let pg = l.page_at(c, h);
    let w = l.word as int;
    let at = crate::scan::stop(pg, w, 2 * w);
    &&& has_room(pg, w, at)
    &&& slot_at(pg, w, at) == Frame::Erased
    &&& n < len_limit(w)
    &&& at + frame_size(n, w) <= l.page
    &&& landing_blank(pg, w, at, frame_size(n, w))
}

/// The store `b` is the store `a` with the frame of the payload `wire`
/// programmed behind the items of page `h`: no other byte of any page differs.
pub open spec fn placed(l: Layout, a: Seq<u8>, b: Seq<u8>, h: int, wire: Seq<u8>) -> bool {
    let pg = l.page_at(a, h);
    let w = l.word as int;
    &&& others_kept(l, a, b, h)
    &&& l.page_at(b, h) == splice(pg, crate::scan::stop(pg, w, 2 * w), encode_frame(wire, w))
}

/// The log `b` is the log `a` and one more item, present, with payload
/// `data`.
pub open spec fn grown(a: Seq<Entry>, b: Seq<Entry>, data: Seq<u8>) -> bool {
    &&& b.len() == a.len() + 1
    &&& b.drop_last() == a
    &&& b.last().present
    &&& b.last().data == data
}

/// Writes the wire form of `item` into `buf` from index `w` on.
pub fn encode<I: StorageItem>(item: &I, buf: &mut [u8], w: usize) -> (r: Result<usize, I::Error>)
    requires
        w <= old(buf)@.len(),
    ensures
        final(buf)@.len() == old(buf)@.len(),
        r is Ok <==> item.encodes((old(buf)@.len() - w) as nat),
        r matches Ok(n) ==> n == item.wire().len() && w + n <= old(buf)@.len()
            && final(buf)@.subrange(w as int, w + n) == item.wire(),
{
    let (head, tail) = buf.split_at_mut(w);
    let r = item.serialize_into(tail);
    proof {
        if let Ok(n) = r {
            assert((head@ + tail@).subrange(w as int, w + n) =~= tail@.subrange(0, n as int));
        }
    }
    r
}

/// Claims about other keys survive the arrival of an item.
pub proof fn claims_outlast<I: StorageItem>(
    claims: Seq<(I::Key, u32, u32)>,
    l: Layout,
    a: Seq<u8>,
    b: Seq<u8>,
    key: I::Key,
    e: Entry,
)
    requires
        keys_agree::<I>(claims, l, a),
        log_of(l, b) == log_of(l, a) || log_of(l, b) == log_of(l, a).push(e),
        I::key_in(e.data) == Some(key),
        forall|i: int| 0 <= i < claims.len() ==> (#[trigger] claims[i]).0 != key,
    ensures
        keys_agree::<I>(claims, l, b),
{
    assert forall|i: int| 0 <= i < claims.len() implies match live_in(
        log_of(l, b),
        wants::<I>((#[trigger] claims[i]).0),
    ) {
        Some(x) => x.page == claims[i].1 && x.at == claims[i].2,
        None => false,
    } by {
        last_for_push(log_of(l, a), e, wants::<I>(claims[i].0));
    }
}

/// Frames the payload `buf[word..word + n]` and programs the frame behind the
/// items of page `p`, at offset `at`, where the page is blank. The item joins
/// the items of the page when the last word of its frame is written, and not
/// before.
#[verifier::rlimit(60)]
pub fn lay_frame<F: NorFlash>(
    flash: &mut F,
    l: &Layout,
    p: u32,
    at: u32,
    buf: &mut [u8],
    n: u32,
) -> (r: Result<u32, FlashError>)
    requires
        l.on(old(flash)),
        p < l.pages,
        n < len_limit(l.word as int),
        2 * l.word <= at,
        at + frame_size(n as int, l.word as int) <= l.page,
        frame_size(n as int, l.word as int) <= old(buf)@.len(),
        reach(
            l.page_at(old(flash).contents(), p as int),
            l.word as int,
            p as int,
            2 * l.word,
            at as int,
        ) is Some,
        landing_blank(
            l.page_at(old(flash).contents(), p as int),
            l.word as int,
            at as int,
            frame_size(n as int, l.word as int),
        ),
    ensures
        l.on(final(flash)),
        final(flash).contents().len() == old(flash).contents().len(),
        final(buf)@.len() == old(buf)@.len(),
        others_kept(*l, old(flash).contents(), final(flash).contents(), p as int),
        final(flash).rewrites() == old(flash).rewrites(),
        tolled(old(flash).losses(), final(flash).losses(), lost(r)),
        mended(
            old(flash).mends(),
            final(flash).mends(),
            final(flash).reserve(),
            lost(r),
        ),
        spared(
            old(flash).reserve(),
            final(flash).reserve(),
            frame_size(n as int, l.word as int),
            lost(r),
        ),
        old(flash).tidy() ==> !refused(r) && final(flash).tidy(),
        ({
            let w = l.word as int;
            let pg = l.page_at(old(flash).contents(), p as int);
            let after = l.page_at(final(flash).contents(), p as int);
            let es = reach(pg, w, p as int, 2 * w, at as int).unwrap();
            let e = fresh(p as int, at as int, old(buf)@.subrange(w, w + n));
            &&& after.subrange(0, 2 * w) == pg.subrange(0, 2 * w)
            &&& parse(pg, w, p as int, 2 * w) == es
            &&& reach(after, w, p as int, 2 * w, at as int) == Some(es)
            &&& roomy(pg, w, 2 * w, old(buf)@.len() as int) ==> roomy(
                after,
                w,
                2 * w,
                old(buf)@.len() as int,
            )
            &&& match r {
                Ok(next) => {
                    &&& next == at + frame_size(n as int, w)
                    &&& after == splice(
                        pg,
                        at as int,
                        encode_frame(old(buf)@.subrange(w, w + n), w),
                    )
                    &&& parse(after, w, p as int, 2 * w) == es.push(e)
                    &&& reach(after, w, p as int, 2 * w, next as int) == Some(es.push(e))
                    &&& all_ones(pg.subrange(next as int, l.page as int)) ==> all_ones(
                        after.subrange(next as int, l.page as int),
                    )
                },
                Err(x) => if x is EarlyShutoff {
                    parse(after, w, p as int, 2 * w) == es || parse(after, w, p as int, 2 * w)
                        == es.push(e)
                } else {
                    final(flash).contents() == old(flash).contents()
                },
            }
        }),
{
    let ghost c = flash.contents();
    let ghost w = l.word as int;
    let ghost pg = l.page_at(c, p as int);
    let ghost payload = buf@.subrange(w, w + n);
    let ghost size = frame_size(n as int, w);
    let ghost cap = buf@.len() as int;
    proof {
        l.page_len(c, p as int);
        sum_aligned(w, w, w);
        reach_aligned(pg, w, p as int, 2 * w, at as int);
        frame_aligned(n as int, w);
        sealed_reads_back(pg, w, at as int, payload);
        append_parse(pg, w, p as int, at as int, payload);
        assert(fair(pg, w, flash.rewrites(), at as int, encode_frame(payload, w)));
    }
    let r = write_frame(flash, l, p, at, buf, n);
    proof {
        let c1 = flash.contents();
        let after = l.page_at(c1, p as int);
        l.page_len(c1, p as int);
        let done = if r is Ok {
            size
        } else if r matches Err(x) && x is EarlyShutoff {
            choose|done: int|
                done % w == 0 && #[trigger] partly_written(
                    pg,
                    after,
                    at as int,
                    encode_frame(payload, w),
                    done,
                )
        } else {
            0
        };
        if r is Ok {
            assert(encode_frame(payload, w).subrange(0, size) =~= encode_frame(payload, w));
        } else if !(r matches Err(x) && x is EarlyShutoff) {
            assert(splice(pg, at as int, encode_frame(payload, w).subrange(0, 0)) =~= pg);
        }
        assert(after == splice(pg, at as int, encode_frame(payload, w).subrange(0, done)));
        assert(done % w == 0) by {
            if r is Ok {
                frame_aligned(n as int, w);
            } else if !(r matches Err(x) && x is EarlyShutoff) {
                assert(0int % w == 0) by (nonlinear_arith)
                    requires
                        w >= 1,
                ;
            }
        }
        torn_parse(pg, w, p as int, at as int, payload, done);
        reach_local(pg, after, w, p as int, 2 * w, at as int);
        if roomy(pg, w, 2 * w, cap) {
            roomy_append(pg, w, p as int, at as int, payload, done, cap);
        }
        if r is Ok {
            if all_ones(pg.subrange(at + size, l.page as int)) {
                assert(after.subrange(at + size, l.page as int) =~= pg.subrange(
                    at + size,
                    l.page as int,
                ));
            }
        }
    }
    r
}

/// Tries to append `item` to page `h`, the partially open head of the ring.
/// Says `false`, and writes nothing, where the page has no blank room left
/// for the item.
#[verifier::rlimit(60)]
pub fn append_item<I: StorageItem, F: NorFlash>(
    flash: &mut F,
    l: &Layout,
    cache: &mut Cache<I::Key>,
    buf: &mut [u8],
    h: u32,
    item: &I,
) -> (r: Result<bool, Error<I::Error>>)
    requires
        l.on(old(flash)),
        h < l.pages,
        old(buf)@.len() >= 2 * l.word,
        head_of(*l, states_of(*l, old(flash).contents())) == Some(h as int),
        states_of(*l, old(flash).contents())[h as int] == PageState::PartialOpen,
        agrees::<I>(old(cache), *l, old(flash).contents()),
    ensures
        l.on(final(flash)),
        final(flash).contents().len() == old(flash).contents().len(),
        final(buf)@.len() == old(buf)@.len(),
        agrees::<I>(final(cache), *l, final(flash).contents()),
        states_of(*l, final(flash).contents()) == states_of(*l, old(flash).contents()),
        short(r) ==> old(buf)@.len() < l.page,
        r matches Err(e) ==> e is Storage || e is BufferTooSmall || e is Item,
        final(flash).rewrites() == old(flash).rewrites(),
        tolled(old(flash).losses(), final(flash).losses(), cut(r)),
        mended(
            old(flash).mends(),
            final(flash).mends(),
            final(flash).reserve(),
            cut(r),
        ),
        spared(old(flash).reserve(), final(flash).reserve(), l.page as int, cut(r)),
        old(flash).tidy() ==> !balked(r) && final(flash).tidy(),
        rejected(r) ==> !item.encodes((old(buf)@.len() - l.word) as nat),
        snug(*l, old(flash).contents(), old(buf)@.len() as int) ==> snug(
            *l,
            final(flash).contents(),
            old(buf)@.len() as int,
        ) && (frame_size(item.wire().len() as int, l.word as int) <= old(buf)@.len() ==> !short(
            r,
        )),
        r matches Ok(true) ==> placed(
            *l,
            old(flash).contents(),
            final(flash).contents(),
            h as int,
            item.wire(),
        ),
        r matches Ok(done) ==> done == lands(
            *l,
            old(flash).contents(),
            h as int,
            item.wire().len() as int,
        ),
        match r {
            Ok(done) => if done {
                grown(
                    log_of(*l, old(flash).contents()),
                    log_of(*l, final(flash).contents()),
                    item.wire(),
                )
            } else {
                final(flash).contents() == old(flash).contents()
            },
            Err(e) => if e matches Error::Storage(FlashError::EarlyShutoff(_)) {
                ||| log_of(*l, final(flash).contents()) == log_of(*l, old(flash).contents())
                ||| grown(
                    log_of(*l, old(flash).contents()),
                    log_of(*l, final(flash).contents()),
                    item.wire(),
                )
            } else {
                final(flash).contents() == old(flash).contents()
            },
        },
{
    let w: u32 = l.word;
    let wu: usize = w as usize;
    let ghost c0 = flash.contents();
    let ghost pg = l.page_at(c0, h as int);
    let ghost wi = l.word as int;
    proof {
        l.page_len(c0, h as int);
        assert(reach(pg, wi, h as int, 2 * wi, 2 * wi) is Some);
    }
    let from: u32 = match cache.query_page_free(h) {
        Some(o) => o,
        None => 2 * w,
    };
    proof {
        if snug(*l, c0, buf@.len() as int) {
            assert(in_log(*l, c0, h as int));
            roomy_along(pg, wi, h as int, 2 * wi, from as int, buf@.len() as int);
        }
    }
    let (at, end) = match find_stop(flash, l, h, from, buf) {
        Err(_) => {
            return Err(Error::BufferTooSmall);
        },
        Ok(x) => x,
    };
    proof {
        reach_join(pg, wi, h as int, 2 * wi, from as int, at as int);
        reach_then_parse(pg, wi, h as int, 2 * wi, at as int);
        parse_ends(pg, wi, h as int, at as int);
        assert(crate::scan::stop(pg, wi, 2 * wi) == at);
    }
    cache.notify_page_free(h, at);
    match end {
        ScanEnd::Free => {},
        _ => {
            return Ok(false);
        },
    }
    let n: usize = match encode(item, buf, wu) {
        Err(e) => {
            return Err(Error::Item(e));
        },
        Ok(n) => n,
    };
    let room: u32 = l.page - at - 2 * w;
    if n >= limit_for(w) as usize || n > room as usize {
        return Ok(false);
    }
    let n32: u32 = n as u32;
    proof {
        pad_bounds(n as int, wi);
    }
    let padded: u32 = pad_to(n32, w);
    if padded > room {
        return Ok(false);
    }
    let size: u32 = 2 * w + padded;
    if size as usize > buf.len() {
        return Err(Error::BufferTooSmall);
    }
    let clean: bool = is_blank(flash, l, h, at, at + size, buf);
    let beyond: bool = if l.page - (at + size) >= 2 * w {
        is_blank(flash, l, h, at + size, at + size + w, buf)
    } else {
        true
    };
    if !clean || !beyond {
        return Ok(false);
    }
    let n2: usize = match encode(item, buf, wu) {
        Err(e) => {
            return Err(Error::Item(e));
        },
        Ok(n) => n,
    };
    let ghost payload = item.wire();
    let key = item.key();
    let ghost e = fresh(h as int, at as int, payload);
    let r = lay_frame(flash, l, h, at, buf, n32);
    proof {
        let c1 = flash.contents();
        let pg1 = l.page_at(c1, h as int);
        l.page_len(c1, h as int);
        let cap = buf@.len() as int;
        if parse(pg1, wi, h as int, 2 * wi) == parse(pg, wi, h as int, 2 * wi).push(e) {
            log_appended(*l, c0, c1, h as int, e);
            assert(log_of(*l, c1).drop_last() =~= log_of(*l, c0));
        } else {
            state_by_markers(pg, pg1, wi);
            assert(states_of(*l, c1) =~= states_of(*l, c0)) by {
                assert forall|x: int| 0 <= x < l.pages implies states_of(*l, c1)[x] == states_of(
                    *l,
                    c0,
                )[x] by {
                    if x != h {
                        assert(l.page_at(c1, x) == l.page_at(c0, x));
                    }
                }
            }
            log_untouched(*l, c0, c1, h as int);
        }
        if snug(*l, c0, cap) {
            snug_step(*l, c0, c1, h as int, cap);
        }
        assert(frees_agree(cache.free_claims(), *l, c1)) by {
            assert forall|p: int|
                0 <= p < cache.free_claims().len() && (#[trigger] cache.free_claims()[p])
                    is Some implies reach(
                l.page_at(c1, p),
                wi,
                p,
                2 * wi,
                cache.free_claims()[p].unwrap() as int,
            ) is Some by {
                if p != h {
                    assert(l.page_at(c1, p) == l.page_at(c0, p));
                }
            }
        }
    }
    let ghost before = cache.key_claims();
    cache.notify_erase(key);
    proof {
        let c1 = flash.contents();
        let claims = cache.key_claims();
        assert(keys_agree::<I>(claims, *l, c0)) by {
            assert forall|i: int| 0 <= i < claims.len() implies match live_in(
                log_of(*l, c0),
                wants::<I>((#[trigger] claims[i]).0),
            ) {
                Some(x) => x.page == claims[i].1 && x.at == claims[i].2,
                None => false,
            } by {
                let j = choose|j: int| 0 <= j < before.len() && before[j] == claims[i];
                assert(before[j].0 == claims[i].0);
            }
        }
        if r is Ok || (r matches Err(x) && x is EarlyShutoff) {
            if log_of(*l, c1) != log_of(*l, c0) {
                assert(log_of(*l, c1) =~= log_of(*l, c0).push(e));
            }
            claims_outlast::<I>(claims, *l, c0, c1, key, e);
        }
    }
    match r {
        Err(x) => Err(Error::Storage(x)),
        Ok(next) => {
            let ghost kept = cache.key_claims();
            cache.notify_page_free(h, next);
            cache.notify_write(key, h, at);
            proof {
                let c1 = flash.contents();
                let claims = cache.key_claims();
                last_for_push(log_of(*l, c0), e, wants::<I>(key));
                assert forall|i: int| 0 <= i < claims.len() implies match live_in(
                    log_of(*l, c1),
                    wants::<I>((#[trigger] claims[i]).0),
                ) {
                    Some(x) => x.page == claims[i].1 && x.at == claims[i].2,
                    None => false,
                } by {
                    if claims[i] == (key, h, at) {
                    } else {
                        let j = choose|j: int| 0 <= j < kept.len() && kept[j] == claims[i];
                        assert(kept[j].0 == claims[i].0);
                    }
                }
            }
            Ok(true)
        },
    }
}

/// A buffer that is enough to walk a page and to hold a frame is enough to
/// walk the page once the frame was written behind its items, wholly or in
/// part.
pub proof fn roomy_append(
    pg: Seq<u8>,
    w: int,
    p: int,
    at: int,
    payload: Seq<u8>,
    done: int,
    cap: int,
)
    requires
        w >= 1,
        2 * w <= at,
        reach(pg, w, p, 2 * w, at) is Some,
        payload.len() < len_limit(w),
        at + frame_size(payload.len() as int, w) <= pg.len(),
        landing_blank(pg, w, at, frame_size(payload.len() as int, w)),
        0 <= done <= frame_size(payload.len() as int, w),
        done % w == 0,
        roomy(pg, w, 2 * w, cap),
        frame_size(payload.len() as int, w) <= cap,
    ensures
        roomy(splice(pg, at, encode_frame(payload, w).subrange(0, done)), w, 2 * w, cap),
{
    let n = payload.len() as int;
    let size = frame_size(n, w);
    let ef = encode_frame(payload, w);
    let after = splice(pg, at, ef.subrange(0, done));
    pad_bounds(n, w);
    sealed_reads_back(pg, w, at, payload);
    if done == 0 {
        assert(after =~= pg);
    } else {
        if done == size {
            assert(ef.subrange(0, done) =~= ef);
            item_span(after, w, at);
            if has_room(after, w, at + size) {
                assert(after.subrange(at + size, at + size + w) =~= pg.subrange(
                    at + size,
                    at + size + w,
                ));
                assert(slot_at(after, w, at + size) == Frame::Erased);
                assert(span_at(after, w, at + size) == w);
            }
            assert(roomy(after, w, at + size, cap));
            assert(roomy(after, w, at, cap));
        } else {
            torn_reads_corrupt(pg, w, at, payload, done);
            crate::frame::len_round_trip(n, w);
            assert(w <= done) by (nonlinear_arith)
                requires
                    w >= 1,
                    0 < done,
                    done % w == 0,
            ;
            assert(after.subrange(at, at + w) =~= crate::frame::encode_len(n, w));
            assert(span_at(after, w, at) == size);
            assert(roomy(after, w, at, cap));
        }
        roomy_rebuilt(pg, after, w, p, 2 * w, at, cap);
    }
}

/// A page whose body is blank has room for every item that fits an empty
/// page.
pub proof fn blank_body_lands(l: Layout, c: Seq<u8>, h: int, n: int)
    requires
        l.wf(),
        0 <= h < l.pages,
        l.base + l.pages * l.page <= c.len(),
        0 <= n < len_limit(l.word as int),
        frame_size(n, l.word as int) <= l.page - 2 * l.word,
        all_ones(l.page_at(c, h).subrange(2 * l.word, l.page as int)),
    ensures
        lands(l, c, h, n),
{
    let pg = l.page_at(c, h);
    let w = l.word as int;
    let size = frame_size(n, w);
    l.page_len(c, h);
    pad_bounds(n, w);
    crate::flash::ones_within(pg, 2 * w, l.page as int, 2 * w, 3 * w);
    crate::flash::ones_within(pg, 2 * w, l.page as int, 2 * w, 2 * w + size);
    if 2 * w + size + 2 * w <= pg.len() {
        crate::flash::ones_within(pg, 2 * w, l.page as int, 2 * w + size, 2 * w + size + w);
    }
    assert(slot_at(pg, w, 2 * w) == Frame::Erased);
    assert(crate::scan::stop(pg, w, 2 * w) == 2 * w);
}

} // verus!
