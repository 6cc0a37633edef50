//! Moving on to the next page, and reclaiming the oldest.
//!
//! When the head is full it is closed. The page behind it, kept blank for
//! this, then takes a copy of every item of the oldest page that is still
//! the last of its key, and becomes the new head by a single marker write.
//! Only then is the oldest page erased. At every step the page that changes
//! is either outside the log or changes by one word, so that a step cut
//! short leaves the answers of the store as they were.

use crate::append::{fresh, is_blank, lands, lay_frame};
use crate::cache::Cache;
use crate::find::{last_for_concat, locate};
use crate::flash::{
    all_ones, drawn, fair, lasts, mended, ones_within, partly_wiped, spared, splice, tolled,
    NorFlash,
};
use crate::frame::{frame_size, pad_bounds, read_frame, slot_at, Frame};
use crate::header::{
    blank_is_erased, closed, mark_closed, mark_open, opened, state_by_markers, zeros, PageState,
};
use crate::item::{balked, cut, short, wants, Error, StorageItem, StorageKey};
use crate::jam::{jammed, jammed_closed, jammed_commit, jammed_junk};
use crate::layout::{erase_page, others_kept, Layout};
use crate::pack::{
    blank_is_clean, clean, clean_by_body, packed, packed_closed, packed_commit, packed_junk, step,
};
use crate::ring::{
    find_head, first_in_range, first_lead, head_in_range, head_of, in_log, items_extend, items_from,
    items_keep, last_for, last_for_is_in, leads, live_in, log_of, lookup, nth, nth_closed,
    page_items, page_state, snug, snug_commit, snug_step, states_agree, states_of,
};
use crate::scan::{
    blank_roomy, entry_at, has_room, item_len, item_span, parse, parse_ends, parse_local, reach,
    reach_step, reach_then_parse, roomy, roomy_by_body, span_shape, Entry, PageScanner,
};
use crate::shape::{
    harmless, lone_head, ready, snug_kept, sound_close, sound_erase, sound_is_sturdy, sound_open,
    sound_ring, sound_start, steady, twin_heads,
};
use vstd::prelude::*;
use vstd::slice::slice_subrange;

verus! {

/// Every key has in `b` the live payload that it has in `a`.
pub open spec fn same_answers<I: StorageItem>(l: Layout, a: Seq<u8>, b: Seq<u8>) -> bool {
    forall|k: I::Key| #[trigger] lookup::<I>(l, b, k) == lookup::<I>(l, a, k)
}

/// Closing a partially open page changes its state and nothing else.
pub proof fn closing(l: Layout, a: Seq<u8>, b: Seq<u8>, h: int)
    requires
        l.wf(),
        l.base + l.pages * l.page <= a.len(),
        a.len() == b.len(),
        0 <= h < l.pages,
        others_kept(l, a, b, h),
        l.page_at(b, h) == splice(l.page_at(a, h), l.word as int, zeros(l.word as int)),
        states_of(l, a)[h] == PageState::PartialOpen,
    ensures
        states_of(l, b) == states_of(l, a).update(h, PageState::Closed),
        forall|x: int| 0 <= x < l.pages ==> #[trigger] page_items(l, b, x) == page_items(l, a, x),
{
    let w = l.word as int;
    l.page_len(a, h);
    l.page_len(b, h);
    closed(l.page_at(a, h), w);
    assert(states_of(l, b) =~= states_of(l, a).update(h, PageState::Closed)) by {
        assert forall|x: int| 0 <= x < l.pages && x != h implies states_of(l, b)[x] == states_of(
            l,
            a,
        )[x] by {
            assert(l.page_at(b, x) == l.page_at(a, x));
        }
    }
    assert forall|x: int| 0 <= x < l.pages implies #[trigger] page_items(l, b, x) == page_items(
        l,
        a,
        x,
    ) by {
        if x == h {
            parse_local(l.page_at(a, h), l.page_at(b, h), w, h, 2 * w);
        } else {
            assert(l.page_at(b, x) == l.page_at(a, x));
        }
    }
}

/// Opening an erased page makes it partially open; its items are those that
/// its body already held.
pub proof fn opening(l: Layout, a: Seq<u8>, b: Seq<u8>, t: int)
    requires
        l.wf(),
        l.base + l.pages * l.page <= a.len(),
        a.len() == b.len(),
        0 <= t < l.pages,
        others_kept(l, a, b, t),
        l.page_at(b, t) == splice(l.page_at(a, t), 0, zeros(l.word as int)),
        states_of(l, a)[t] == PageState::Erased,
    ensures
        states_of(l, b) == states_of(l, a).update(t, PageState::PartialOpen),
        forall|x: int|
            0 <= x < l.pages && x != t ==> #[trigger] page_items(l, b, x) == page_items(l, a, x),
        page_items(l, b, t) == parse(l.page_at(a, t), l.word as int, t, 2 * l.word),
{
    let w = l.word as int;
    l.page_len(a, t);
    l.page_len(b, t);
    opened(l.page_at(a, t), w);
    assert(states_of(l, b) =~= states_of(l, a).update(t, PageState::PartialOpen)) by {
        assert forall|x: int| 0 <= x < l.pages && x != t implies states_of(l, b)[x] == states_of(
            l,
            a,
        )[x] by {
            assert(l.page_at(b, x) == l.page_at(a, x));
        }
    }
    assert forall|x: int| 0 <= x < l.pages && x != t implies #[trigger] page_items(l, b, x)
        == page_items(l, a, x) by {
        assert(l.page_at(b, x) == l.page_at(a, x));
    }
    parse_local(l.page_at(a, t), l.page_at(b, t), w, t, 2 * w);
}

/// Erasing a page, wholly or in part, changes no other page. A page that is
/// blank afterwards is in the erased state; a page that was in the erased
/// state stays in it.
pub proof fn wiping(l: Layout, a: Seq<u8>, b: Seq<u8>, x: int)
    requires
        l.wf(),
        l.base + l.pages * l.page <= a.len(),
        a.len() == b.len(),
        0 <= x < l.pages,
        others_kept(l, a, b, x),
        all_ones(l.page_at(b, x)) || partly_wiped(
            l.page_at(a, x),
            l.page_at(b, x),
            0,
            l.page as int,
        ),
    ensures
        states_of(l, b) == states_of(l, a).update(x, states_of(l, b)[x]),
        forall|y: int|
            0 <= y < l.pages && y != x ==> #[trigger] page_items(l, b, y) == page_items(l, a, y),
        all_ones(l.page_at(b, x)) ==> states_of(l, b)[x] == PageState::Erased,
        states_of(l, a)[x] == PageState::Erased ==> states_of(l, b)[x] == PageState::Erased,
{
    let w = l.word as int;
    l.page_len(a, x);
    l.page_len(b, x);
    assert(states_of(l, b) =~= states_of(l, a).update(x, states_of(l, b)[x])) by {
        assert forall|y: int| 0 <= y < l.pages && y != x implies states_of(l, b)[y] == states_of(
            l,
            a,
        )[y] by {
            assert(l.page_at(b, y) == l.page_at(a, y));
        }
    }
    assert forall|y: int| 0 <= y < l.pages && y != x implies #[trigger] page_items(l, b, y)
        == page_items(l, a, y) by {
        assert(l.page_at(b, y) == l.page_at(a, y));
    }
    if all_ones(l.page_at(b, x)) {
        blank_is_erased(l.page_at(b, x), w);
    }
    if states_of(l, a)[x] == PageState::Erased {
        let pa = l.page_at(a, x);
        let pb = l.page_at(b, x);
        if !all_ones(pb) {
            assert(all_ones(pa.subrange(0, w)));
            assert(all_ones(pa.subrange(w, 2 * w)));
            let open_a = pa.subrange(0, w);
            let close_a = pa.subrange(w, 2 * w);
            let open_b = pb.subrange(0, w);
            let close_b = pb.subrange(w, 2 * w);
            assert forall|i: int| 0 <= i < w implies #[trigger] open_b[i] == 0xFFu8 by {
                assert(open_a[i] == 0xFFu8);
                assert(pb[i] == pa[i] || pb[i] == 0xFFu8);
            }
            assert forall|i: int| 0 <= i < w implies #[trigger] close_b[i] == 0xFFu8 by {
                assert(close_a[i] == 0xFFu8);
                assert(pb[w + i] == pa[w + i] || pb[w + i] == 0xFFu8);
            }
        }
    }
}

/// Rings in which the same pages lead have the same first leading page.
pub proof fn first_lead_same(l: Layout, a: Seq<PageState>, b: Seq<PageState>, from: int)
    requires
        forall|p: int| from <= p < l.pages ==> leads(l, a, p) == leads(l, b, p),
    ensures
        first_lead(l, a, from) == first_lead(l, b, from),
    decreases l.pages - from,
{
    if 0 <= from < l.pages {
        first_lead_same(l, a, b, from + 1);
    }
}

/// The head of a ring is not moved by whatever happens to the state of the
/// page behind it, as long as the head is partially open and the page two
/// behind it is not.
pub proof fn head_sturdy(l: Layout, st: Seq<PageState>, h: int, s: PageState)
    requires
        l.wf(),
        st.len() == l.pages,
        head_of(l, st) == Some(h),
        st[h] == PageState::PartialOpen,
        st[l.succ(l.succ(h))] != PageState::PartialOpen,
    ensures
        head_of(l, st.update(l.succ(h), s)) == Some(h),
{
    first_in_range(l, st, 0);
    let x = l.succ(h);
    let after = st.update(x, s);
    assert(first_lead(l, st, 0) == Some(h));
    assert forall|p: int| 0 <= p < l.pages implies leads(l, st, p) == leads(l, after, p) by {
        if p == x {
            assert(l.pred(x) == h);
        } else if p == l.succ(x) {
            assert(l.pred(p) == x);
        } else {
            assert(l.pred(p) != x);
        }
    }
    first_lead_same(l, st, after, 0);
}

/// Where the head stays and every page of the log keeps its items, the log
/// stays as it is.
pub proof fn log_kept(l: Layout, a: Seq<u8>, b: Seq<u8>)
    requires
        l.wf(),
        head_of(l, states_of(l, b)) == head_of(l, states_of(l, a)),
        forall|y: int|
            0 <= y < l.pages && (head_of(l, states_of(l, a)) matches Some(h) && y != l.succ(h))
                ==> #[trigger] page_items(l, b, y) == page_items(l, a, y),
    ensures
        log_of(l, b) == log_of(l, a),
{
    head_in_range(l, states_of(l, a));
    if let Some(h) = head_of(l, states_of(l, a)) {
        let start = l.succ(l.succ(h));
        let n = (l.pages - 1) as nat;
        assert forall|j: nat| j < n implies page_items(l, b, #[trigger] nth(l, start, j))
            == page_items(l, a, nth(l, start, j)) by {
            nth_closed(l, start, j);
            assert(nth(l, start, j) != l.succ(h));
        }
        items_keep(l, a, b, start, n);
    }
}

/// The entry `e` is present and is the last entry of its key in `log`.
pub open spec fn is_live<I: StorageItem>(log: Seq<Entry>, e: Entry) -> bool {
    e.present && match I::key_in(e.data) {
        Some(k) => last_for(log, wants::<I>(k)) == Some(e),
        None => false,
    }
}

/// The payloads of the entries of `es` that are live in `log`, in order.
pub open spec fn survivors<I: StorageItem>(es: Seq<Entry>, log: Seq<Entry>) -> Seq<Seq<u8>>
    decreases es.len(),
{
    if es.len() == 0 {
        Seq::empty()
    } else if is_live::<I>(log, es.last()) {
        survivors::<I>(es.drop_last(), log).push(es.last().data)
    } else {
        survivors::<I>(es.drop_last(), log)
    }
}

/// The entries `et` are present items with the payloads `ds`.
pub open spec fn copies(et: Seq<Entry>, ds: Seq<Seq<u8>>) -> bool {
    &&& et.len() == ds.len()
    &&& forall|i: int| 0 <= i < et.len() ==> (#[trigger] et[i]).present && et[i].data == ds[i]
}

/// Every surviving payload is that of a live entry.
pub proof fn survivors_from<I: StorageItem>(es: Seq<Entry>, log: Seq<Entry>, i: int)
    requires
        0 <= i < survivors::<I>(es, log).len(),
    ensures
        exists|j: int|
            0 <= j < es.len() && is_live::<I>(log, #[trigger] es[j])
                && es[j].data == survivors::<I>(
                es,
                log,
            )[i],
    decreases es.len(),
{
    if es.len() > 0 {
        let rest = survivors::<I>(es.drop_last(), log);
        if is_live::<I>(log, es.last()) && i == rest.len() {
            assert(es[es.len() - 1] == es.last());
        } else {
            survivors_from::<I>(es.drop_last(), log, i);
            let j = choose|j: int|
                0 <= j < es.drop_last().len() && is_live::<I>(log, #[trigger] es.drop_last()[j])
                    && es.drop_last()[j].data == rest[i];
            assert(es[j] == es.drop_last()[j]);
        }
    }
}

/// The payload of every live entry survives.
pub proof fn survivors_hold<I: StorageItem>(es: Seq<Entry>, log: Seq<Entry>, j: int)
    requires
        0 <= j < es.len(),
        is_live::<I>(log, es[j]),
    ensures
        exists|i: int|
            0 <= i < survivors::<I>(es, log).len() && #[trigger] survivors::<I>(es, log)[i]
                == es[j].data,
    decreases es.len(),
{
    let rest = survivors::<I>(es.drop_last(), log);
    if j == es.len() - 1 {
        assert(es.last() == es[j]);
        assert(survivors::<I>(es, log)[rest.len() as int] == es[j].data);
    } else {
        assert(es.drop_last()[j] == es[j]);
        survivors_hold::<I>(es.drop_last(), log, j);
        let i = choose|i: int| 0 <= i < rest.len() && #[trigger] rest[i] == es[j].data;
        assert(survivors::<I>(es, log)[i] == rest[i]);
    }
}

/// A run with an accepted entry has a last accepted entry.
pub proof fn last_for_some(es: Seq<Entry>, want: spec_fn(Seq<u8>) -> bool, i: int)
    requires
        0 <= i < es.len(),
        want(es[i].data),
    ensures
        last_for(es, want) is Some,
    decreases es.len(),
{
    if !want(es.last().data) {
        assert(es.drop_last()[i] == es[i]);
        last_for_some(es.drop_last(), want, i);
    }
}

/// The live payload of the kind `want` in `log`.
pub open spec fn live_data(log: Seq<Entry>, want: spec_fn(Seq<u8>) -> bool) -> Option<Seq<u8>> {
    match live_in(log, want) {
        Some(e) => Some(e.data),
        None => None,
    }
}

/// Reclaiming keeps every answer: a log that starts with the items `es` and
/// goes on with `mid` answers as the log that holds `mid` followed by copies
/// of those items of `es` that were live.
pub proof fn reclaimed<I: StorageItem>(
    es: Seq<Entry>,
    mid: Seq<Entry>,
    et: Seq<Entry>,
    key: I::Key,
)
    requires
        copies(et, survivors::<I>(es, es + mid)),
    ensures
        live_data(mid + et, wants::<I>(key)) == live_data(es + mid, wants::<I>(key)),
{
    let want = wants::<I>(key);
    let log = es + mid;
    let ds = survivors::<I>(es, log);
    last_for_concat(mid, et, want);
    last_for_concat(es, mid, want);
    last_for_is_in(et, want);
    last_for_is_in(es, want);
    match last_for(et, want) {
        Some(x) => {
            let i = choose|i: int| 0 <= i < et.len() && et[i] == x;
            assert(et[i].present && et[i].data == ds[i]);
            survivors_from::<I>(es, log, i);
            let j = choose|j: int|
                0 <= j < es.len() && is_live::<I>(log, #[trigger] es[j]) && es[j].data == ds[i];
            assert(I::key_in(es[j].data) == Some(key));
            assert(last_for(log, want) == Some(es[j]));
        },
        None => {
            if last_for(mid, want) is None {
                if let Some(e) = last_for(es, want) {
                    if e.present {
                        let j = choose|j: int| 0 <= j < es.len() && es[j] == e;
                        assert(is_live::<I>(log, es[j]));
                        survivors_hold::<I>(es, log, j);
                        let i = choose|i: int| 0 <= i < ds.len() && #[trigger] ds[i] == es[j].data;
                        assert(et[i].data == ds[i]);
                        last_for_some(et, want, i);
                    }
                }
            }
        },
    }
}

/// The log of a ring whose head was closed last, split into the items of the
/// oldest page and the rest.
pub proof fn log_before_commit(l: Layout, c: Seq<u8>, a: int)
    requires
        l.wf(),
        head_of(l, states_of(l, c)) == Some(a),
    ensures
        log_of(l, c) == page_items(l, c, l.succ(l.succ(a))) + items_from(
            l,
            c,
            l.succ(l.succ(l.succ(a))),
            (l.pages - 2) as nat,
        ),
{
}

/// The log of a ring whose head is `t`, split into the items of the pages
/// before it and its own.
pub proof fn log_after_commit(l: Layout, c: Seq<u8>, t: int)
    requires
        l.wf(),
        head_of(l, states_of(l, c)) == Some(t),
    ensures
        log_of(l, c) == items_from(l, c, l.succ(l.succ(t)), (l.pages - 2) as nat) + page_items(
            l,
            c,
            t,
        ),
{
    head_in_range(l, states_of(l, c));
    let start = l.succ(l.succ(t));
    let n = (l.pages - 2) as nat;
    items_extend(l, c, start, n);
    nth_closed(l, start, n);
}

/// The commit: where the page behind a closed head holds copies of the live
/// items of the oldest page, making it the head keeps every answer.
pub proof fn committed<I: StorageItem>(l: Layout, a: Seq<u8>, b: Seq<u8>, head: int)
    requires
        l.wf(),
        head_of(l, states_of(l, a)) == Some(head),
        head_of(l, states_of(l, b)) == Some(l.succ(head)),
        forall|x: int|
            0 <= x < l.pages && x != l.succ(head) ==> #[trigger] page_items(l, b, x) == page_items(
                l,
                a,
                x,
            ),
        copies(
            page_items(l, b, l.succ(head)),
            survivors::<I>(page_items(l, a, l.succ(l.succ(head))), log_of(l, a)),
        ),
    ensures
        same_answers::<I>(l, a, b),
{
    head_in_range(l, states_of(l, a));
    let t = l.succ(head);
    let s = l.succ(t);
    let start = l.succ(s);
    let n = (l.pages - 2) as nat;
    log_before_commit(l, a, head);
    log_after_commit(l, b, t);
    assert forall|j: nat| j < n implies page_items(l, b, #[trigger] nth(l, start, j)) == page_items(
        l,
        a,
        nth(l, start, j),
    ) by {
        nth_closed(l, start, j);
        assert(nth(l, start, j) != t);
    }
    items_keep(l, a, b, start, n);
    let es = page_items(l, a, s);
    let mid = items_from(l, a, start, n);
    let et = page_items(l, b, t);
    assert(log_of(l, a) == es + mid);
    assert(log_of(l, b) == mid + et);
    assert forall|k: I::Key| #[trigger] lookup::<I>(l, b, k) == lookup::<I>(l, a, k) by {
        reclaimed::<I>(es, mid, et, k);
    }
}

/// The cache claims nothing about what any page holds behind its marker
/// words.
pub open spec fn quiet<K: StorageKey>(cache: &Cache<K>) -> bool {
    &&& cache.wf()
    &&& forall|p: int| 0 <= p < cache.free_claims().len() ==> cache.free_claims()[p] is None
    &&& cache.key_claims().len() == 0
}

/// Whether `found` is the page `h`.
pub fn is_page(found: Option<u32>, h: u32) -> (r: bool)
    ensures
        r == (found == Some(h)),
{
    match found {
        Some(x) => x == h,
        None => false,
    }
}

/// Erases the page behind the partially open head `h`.
///
/// The page is outside the log, so the log stays as it is, provided that the
/// head is still found afterwards. That is checked before the erasure, for
/// the erased page and, in rings of three pages or more, for whatever a power
/// loss may leave of it. In a ring of two pages a power loss can leave the
/// page looking like a second head, which no order of the steps avoids: the
/// log is then claimed to stay only where that did not happen.
pub fn erase_behind<I: StorageItem, F: NorFlash>(
    flash: &mut F,
    l: &Layout,
    cache: &mut Cache<I::Key>,
    buf: &mut [u8],
    h: u32,
) -> (r: Result<(), Error<I::Error>>)
    requires
        l.on(old(flash)),
        h < l.pages,
        old(buf)@.len() >= 2 * l.word,
        quiet(old(cache)),
        states_agree(old(cache).state_claims(), *l, old(flash).contents()),
        head_of(*l, states_of(*l, old(flash).contents())) == Some(h as int),
        states_of(*l, old(flash).contents())[h as int] == PageState::PartialOpen,
    ensures
        l.on(final(flash)),
        final(flash).contents().len() == old(flash).contents().len(),
        final(buf)@.len() == old(buf)@.len(),
        final(cache).wf(),
        final(cache).is_blank(),
        !short(r),
        others_kept(*l, old(flash).contents(), final(flash).contents(), l.succ(h as int)),
        r is Ok ==> forall|room: int, m: int, fresh: bool| #[trigger]
            packed::<I>(*l, old(flash).contents(), room, m, fresh) ==> packed::<I>(
                *l,
                final(flash).contents(),
                room,
                m,
                fresh,
            ),
        r is Ok ==> forall|n: int| #[trigger]
            jammed::<I>(*l, old(flash).contents(), n) == jammed::<I>(
                *l,
                final(flash).contents(),
                n,
            ),
        final(flash).rewrites() == old(flash).rewrites(),
        tolled(old(flash).losses(), final(flash).losses(), cut(r)),
        mended(
            old(flash).mends(),
            final(flash).mends(),
            final(flash).reserve(),
            cut(r),
        ),
        spared(old(flash).reserve(), final(flash).reserve(), l.page as int, cut(r)),
        old(flash).tidy() ==> !balked(r) && final(flash).tidy(),
        r matches Err(e) ==> e is Storage || e is Corrupted,
        steady(*l, old(flash).contents(), final(flash).contents(), r),
        snug_kept(*l, old(flash).contents(), final(flash).contents(), r, old(buf)@.len() as int),
        match r {
            Ok(()) => {
                &&& log_of(*l, final(flash).contents()) == log_of(*l, old(flash).contents())
                &&& states_of(*l, final(flash).contents()) == states_of(
                    *l,
                    old(flash).contents(),
                ).update(l.succ(h as int), PageState::Erased)
                &&& head_of(*l, states_of(*l, final(flash).contents())) == Some(h as int)
                &&& all_ones(l.page_at(final(flash).contents(), l.succ(h as int)))
            },
            Err(e) => harmless(*l, final(flash).contents(), e) ==> log_of(*l, final(flash).contents()) == log_of(
                *l,
                old(flash).contents(),
            ),
        },
{
    let ghost c0 = flash.contents();
    let ghost st = states_of(*l, c0);
    let x: u32 = l.next_page(h);
    let two: u32 = l.next_page(x);
    let beyond = page_state(flash, l, cache, buf, two);
    let sturdy: bool = beyond != PageState::PartialOpen;
    if !sturdy && l.pages >= 3 {
        proof {
            if sound_ring(*l, st) {
                sound_is_sturdy(*l, st, h as int);
            }
        }
        cache.invalidate();
        return Err(Error::Corrupted);
    }
    let planned = find_head(flash, l, cache, buf, Some((x, PageState::Erased)));
    if !is_page(planned, h) {
        proof {
            if sound_ring(*l, st) {
                sound_erase(*l, st, h as int, PageState::Erased);
            }
        }
        cache.invalidate();
        return Err(Error::Corrupted);
    }
    let r = erase_page(flash, l, x);
    cache.invalidate();
    proof {
        let c1 = flash.contents();
        match r {
            Ok(()) => {
                wiping(*l, c0, c1, x as int);
                assert(states_of(*l, c1) == st.update(x as int, PageState::Erased));
                log_kept(*l, c0, c1);
                if snug(*l, c0, buf@.len() as int) {
                    snug_step(*l, c0, c1, x as int, buf@.len() as int);
                }
                if sound_ring(*l, st) {
                    sound_erase(*l, st, h as int, PageState::Erased);
                }
                assert forall|room: int, m: int, fresh: bool| #[trigger]
                    packed::<I>(*l, c0, room, m, fresh) implies packed::<I>(
                    *l,
                    c1,
                    room,
                    m,
                    fresh,
                ) by {
                    packed_junk::<I>(*l, c0, c1, room, m, fresh);
                }
                assert forall|n: int| #[trigger]
                    jammed::<I>(*l, c0, n) == jammed::<I>(*l, c1, n) by {
                    jammed_junk::<I>(*l, c0, c1, n);
                }
            },
            Err(e) => {
                if e is EarlyShutoff {
                    if sturdy {
                        wiping(*l, c0, c1, x as int);
                        head_sturdy(*l, st, h as int, states_of(*l, c1)[x as int]);
                        log_kept(*l, c0, c1);
                        if snug(*l, c0, buf@.len() as int) {
                            snug_step(*l, c0, c1, x as int, buf@.len() as int);
                        }
                    }
                    if sound_ring(*l, st) && l.pages >= 3 {
                        wiping(*l, c0, c1, x as int);
                        sound_erase(*l, st, h as int, states_of(*l, c1)[x as int]);
                    }
                    if l.pages == 2 && !twin_heads(*l, c1) {
                        // The page behind the head does not look like a head.
                        wiping(*l, c0, c1, x as int);
                        assert(states_of(*l, c1)[h as int] == PageState::PartialOpen);
                        lone_head(*l, st, h as int, states_of(*l, c1)[x as int]);
                        log_kept(*l, c0, c1);
                        if sound_ring(*l, st) {
                            sound_erase(*l, st, h as int, states_of(*l, c1)[x as int]);
                        }
                        if snug(*l, c0, buf@.len() as int) {
                            snug_step(*l, c0, c1, x as int, buf@.len() as int);
                        }
                    }
                }
            },
        }
    }
    match r {
        Ok(()) => Ok(()),
        Err(e) => Err(Error::Storage(e)),
    }
}

/// Closes the partially open head `h`, after making sure that the page
/// behind it is in the erased state. The log stays as it is, and `h` stays
/// the head.
pub fn retire<I: StorageItem, F: NorFlash>(
    flash: &mut F,
    l: &Layout,
    cache: &mut Cache<I::Key>,
    buf: &mut [u8],
    h: u32,
) -> (r: Result<(), Error<I::Error>>)
    requires
        l.on(old(flash)),
        h < l.pages,
        old(buf)@.len() >= 2 * l.word,
        quiet(old(cache)),
        states_agree(old(cache).state_claims(), *l, old(flash).contents()),
        head_of(*l, states_of(*l, old(flash).contents())) == Some(h as int),
        states_of(*l, old(flash).contents())[h as int] == PageState::PartialOpen,
    ensures
        l.on(final(flash)),
        final(flash).contents().len() == old(flash).contents().len(),
        final(buf)@.len() == old(buf)@.len(),
        final(cache).wf(),
        final(cache).is_blank(),
        !short(r),
        r is Ok ==> forall|room: int, m: int| #[trigger]
            packed::<I>(*l, old(flash).contents(), room, m, false) ==> packed::<I>(
                *l,
                final(flash).contents(),
                room,
                m,
                false,
            ),
        r is Ok ==> forall|n: int|
            #![trigger jammed::<I>(*l, old(flash).contents(), n)]
            (jammed::<I>(*l, old(flash).contents(), n) ==> jammed::<I>(
                *l,
                final(flash).contents(),
                n,
            )) && (jammed::<I>(*l, final(flash).contents(), n) && !lands(
                *l,
                old(flash).contents(),
                h as int,
                n,
            ) ==> jammed::<I>(*l, old(flash).contents(), n)),
        final(flash).rewrites() == old(flash).rewrites(),
        tolled(old(flash).losses(), final(flash).losses(), cut(r)),
        mended(
            old(flash).mends(),
            final(flash).mends(),
            final(flash).reserve(),
            cut(r),
        ),
        spared(old(flash).reserve(), final(flash).reserve(), 2 * l.page, cut(r)),
        old(flash).tidy() ==> !balked(r) && final(flash).tidy(),
        r matches Err(e) ==> e is Storage || e is Corrupted,
        steady(*l, old(flash).contents(), final(flash).contents(), r),
        snug_kept(*l, old(flash).contents(), final(flash).contents(), r, old(buf)@.len() as int),
        match r {
            Ok(()) => {
                &&& log_of(*l, final(flash).contents()) == log_of(*l, old(flash).contents())
                &&& head_of(*l, states_of(*l, final(flash).contents())) == Some(h as int)
                &&& states_of(*l, final(flash).contents())[h as int] == PageState::Closed
            },
            Err(e) => harmless(*l, final(flash).contents(), e) ==> log_of(*l, final(flash).contents()) == log_of(
                *l,
                old(flash).contents(),
            ),
        },
{
    let ghost c0 = flash.contents();
    let x: u32 = l.next_page(h);
    let behind = page_state(flash, l, cache, buf, x);
    if behind != PageState::Erased {
        match erase_behind::<I, F>(flash, l, cache, buf, h) {
            Err(e) => {
                return Err(e);
            },
            Ok(()) => {},
        }
    }
    let ghost c1 = flash.contents();
    let ghost st = states_of(*l, c1);
    let planned = find_head(flash, l, cache, buf, Some((h, PageState::Closed)));
    if !is_page(planned, h) {
        proof {
            if sound_ring(*l, st) {
                sound_close(*l, st, h as int);
            }
        }
        cache.invalidate();
        return Err(Error::Corrupted);
    }
    proof {
        let ph = l.page_at(c1, h as int);
        l.page_len(c1, h as int);
        crate::scan::sum_aligned(l.word as int, l.word as int, l.word as int);
        assert(states_of(*l, c1)[h as int] == PageState::PartialOpen);
        assert(all_ones(ph.subrange(l.word as int, 2 * l.word)));
        assert(zeros(l.word as int).len() == l.word);
        assert(fair(ph, l.word as int, flash.rewrites(), l.word as int, zeros(l.word as int)));
    }
    let r = mark_closed(flash, l, h, buf);
    cache.invalidate();
    proof {
        let c2 = flash.contents();
        let w = l.word as int;
        l.page_len(c1, h as int);
        l.page_len(c2, h as int);
        if l.page_at(c2, h as int) == splice(l.page_at(c1, h as int), w, zeros(w)) {
            closing(*l, c1, c2, h as int);
            log_kept(*l, c1, c2);
            closed(l.page_at(c1, h as int), w);
            assert(l.page_at(c1, h as int) == l.page_at(c0, h as int));
            assert forall|n: int|
                #![trigger jammed::<I>(*l, c0, n)]
                (jammed::<I>(*l, c0, n) ==> jammed::<I>(*l, c2, n)) && (jammed::<I>(*l, c2, n)
                    && !lands(*l, c0, h as int, n) ==> jammed::<I>(*l, c0, n)) by {
                jammed_closed::<I>(*l, c1, c2, n);
                assert(jammed::<I>(*l, c0, n) == jammed::<I>(*l, c1, n));
                assert(lands(*l, c1, h as int, n) == lands(*l, c0, h as int, n));
            }
            if sound_ring(*l, st) {
                sound_close(*l, st, h as int);
                closed(l.page_at(c1, h as int), w);
                assert forall|room: int, m: int| #[trigger]
                    packed::<I>(*l, c1, room, m, false) implies packed::<I>(
                    *l,
                    c2,
                    room,
                    m,
                    false,
                ) by {
                    packed_closed::<I>(*l, c1, c2, room, m);
                }
            }
            closed(l.page_at(c1, h as int), w);
            roomy_by_body(l.page_at(c1, h as int), l.page_at(c2, h as int), w, buf@.len() as int);
            if snug(*l, c1, buf@.len() as int) {
                assert(in_log(*l, c1, h as int));
                snug_step(*l, c1, c2, h as int, buf@.len() as int);
            }
            if sound_ring(*l, st) {
                sound_close(*l, st, h as int);
            }
        } else {
            assert(states_of(*l, c2) =~= states_of(*l, c1)) by {
                assert forall|y: int| 0 <= y < l.pages implies states_of(*l, c2)[y] == states_of(
                    *l,
                    c1,
                )[y] by {
                    assert(l.page_at(c2, y) == l.page_at(c1, y));
                }
            }
            assert forall|y: int| 0 <= y < l.pages implies #[trigger] page_items(*l, c2, y)
                == page_items(*l, c1, y) by {
                assert(l.page_at(c2, y) == l.page_at(c1, y));
            }
            log_kept(*l, c1, c2);
            if snug(*l, c1, buf@.len() as int) {
                snug_step(*l, c1, c2, h as int, buf@.len() as int);
            }
        }
    }
    match r {
        Ok(()) => Ok(()),
        Err(e) => Err(Error::Storage(e)),
    }
}

/// Copies the present item at offset `at` of page `s` to offset `to` of page
/// `t`, the page behind the head, which is blank from `to` on. Returns the
/// offset behind the copy.
pub fn copy_item<I: StorageItem, F: NorFlash>(
    flash: &mut F,
    l: &Layout,
    buf: &mut [u8],
    s: u32,
    at: u32,
    len: u32,
    t: u32,
    to: u32,
) -> (r: Result<u32, Error<I::Error>>)
    requires
        l.on(old(flash)),
        s < l.pages,
        t < l.pages,
        s != t,
        old(buf)@.len() >= 2 * l.word,
        2 * l.word <= to <= at,
        has_room(l.page_at(old(flash).contents(), s as int), l.word as int, at as int),
        slot_at(l.page_at(old(flash).contents(), s as int), l.word as int, at as int) == (
        Frame::Present { len }),
        frame_size(len as int, l.word as int) <= old(buf)@.len(),
        head_of(*l, states_of(*l, old(flash).contents())) matches Some(a) && t == l.succ(a),
        reach(
            l.page_at(old(flash).contents(), t as int),
            l.word as int,
            t as int,
            2 * l.word,
            to as int,
        ) is Some,
        all_ones(l.page_at(old(flash).contents(), t as int).subrange(to as int, l.page as int)),
    ensures
        l.on(final(flash)),
        final(flash).contents().len() == old(flash).contents().len(),
        final(buf)@.len() == old(buf)@.len(),
        others_kept(*l, old(flash).contents(), final(flash).contents(), t as int),
        states_of(*l, final(flash).contents()) == states_of(*l, old(flash).contents()),
        log_of(*l, final(flash).contents()) == log_of(*l, old(flash).contents()),
        l.page_at(final(flash).contents(), t as int).subrange(0, 2 * l.word) == l.page_at(
            old(flash).contents(),
            t as int,
        ).subrange(0, 2 * l.word),
        r matches Err(e) ==> e is Storage,
        final(flash).rewrites() == old(flash).rewrites(),
        tolled(old(flash).losses(), final(flash).losses(), cut(r)),
        mended(
            old(flash).mends(),
            final(flash).mends(),
            final(flash).reserve(),
            cut(r),
        ),
        spared(
            old(flash).reserve(),
            final(flash).reserve(),
            frame_size(len as int, l.word as int),
            cut(r),
        ),
        old(flash).tidy() ==> !balked(r) && final(flash).tidy(),
        roomy(
            l.page_at(old(flash).contents(), t as int),
            l.word as int,
            2 * l.word,
            old(buf)@.len() as int,
        ) ==> roomy(
            l.page_at(final(flash).contents(), t as int),
            l.word as int,
            2 * l.word,
            old(buf)@.len() as int,
        ),
        r matches Ok(next) ==> {
            &&& next == to + frame_size(len as int, l.word as int)
            &&& reach(
                l.page_at(final(flash).contents(), t as int),
                l.word as int,
                t as int,
                2 * l.word,
                next as int,
            ) == Some(
                reach(
                    l.page_at(old(flash).contents(), t as int),
                    l.word as int,
                    t as int,
                    2 * l.word,
                    to as int,
                ).unwrap().push(
                    fresh(
                        t as int,
                        to as int,
                        crate::frame::payload_at(
                            l.page_at(old(flash).contents(), s as int),
                            l.word as int,
                            at as int,
                            len as int,
                        ),
                    ),
                ),
            )
            &&& all_ones(
                l.page_at(final(flash).contents(), t as int).subrange(next as int, l.page as int),
            )
        },
{
    let ghost c = flash.contents();
    let ghost w = l.word as int;
    let ghost ps = l.page_at(c, s as int);
    let ghost pt = l.page_at(c, t as int);
    let ghost size = frame_size(len as int, w);
    proof {
        l.page_len(c, s as int);
        l.page_len(c, t as int);
        item_span(ps, w, at as int);
        pad_bounds(len as int, w);
        ones_within(pt, to as int, l.page as int, to as int, to + size);
        ones_within(pt, to as int, l.page as int, to + size, l.page as int);
        if to + size + 2 * w <= pt.len() {
            ones_within(pt, to as int, l.page as int, to + size, to + size + w);
        }
    }
    match read_frame(flash, l, s, at, buf) {
        Some(Frame::Present { .. }) => {},
        _ => {
            return Err(Error::Corrupted);
        },
    }
    let r = lay_frame(flash, l, t, to, buf, len);
    proof {
        let c2 = flash.contents();
        let pt2 = l.page_at(c2, t as int);
        l.page_len(c2, t as int);
        state_by_markers(pt, pt2, w);
        assert(states_of(*l, c2) =~= states_of(*l, c)) by {
            assert forall|y: int| 0 <= y < l.pages implies states_of(*l, c2)[y] == states_of(
                *l,
                c,
            )[y] by {
                if y != t {
                    assert(l.page_at(c2, y) == l.page_at(c, y));
                }
            }
        }
        assert forall|y: int| 0 <= y < l.pages && y != t implies #[trigger] page_items(*l, c2, y)
            == page_items(*l, c, y) by {
            assert(l.page_at(c2, y) == l.page_at(c, y));
        }
        log_kept(*l, c, c2);
    }
    match r {
        Ok(next) => Ok(next),
        Err(e) => Err(Error::Storage(e)),
    }
}

/// Copies to the blank page `t` every item of page `s` that is live: present
/// and the last of its key in the log.
#[verifier::rlimit(60)]
pub fn gather<I: StorageItem, F: NorFlash>(
    flash: &mut F,
    l: &Layout,
    cache: &mut Cache<I::Key>,
    buf: &mut [u8],
    s: u32,
    t: u32,
) -> (r: Result<(), Error<I::Error>>)
    requires
        l.on(old(flash)),
        s < l.pages,
        t < l.pages,
        s != t,
        old(buf)@.len() >= 2 * l.word,
        quiet(old(cache)),
        states_agree(old(cache).state_claims(), *l, old(flash).contents()),
        head_of(*l, states_of(*l, old(flash).contents())) matches Some(a) && t == l.succ(a),
        all_ones(l.page_at(old(flash).contents(), t as int)),
    ensures
        l.on(final(flash)),
        final(flash).contents().len() == old(flash).contents().len(),
        final(buf)@.len() == old(buf)@.len(),
        quiet(final(cache)),
        states_agree(final(cache).state_claims(), *l, final(flash).contents()),
        others_kept(*l, old(flash).contents(), final(flash).contents(), t as int),
        states_of(*l, final(flash).contents()) == states_of(*l, old(flash).contents()),
        log_of(*l, final(flash).contents()) == log_of(*l, old(flash).contents()),
        short(r) ==> old(buf)@.len() < l.page,
        snug(*l, old(flash).contents(), old(buf)@.len() as int) && in_log(
            *l,
            old(flash).contents(),
            s as int,
        ) ==> !short(r),
        snug(*l, old(flash).contents(), old(buf)@.len() as int) ==> snug(
            *l,
            final(flash).contents(),
            old(buf)@.len() as int,
        ),
        roomy(
            l.page_at(final(flash).contents(), t as int),
            l.word as int,
            2 * l.word,
            old(buf)@.len() as int,
        ),
        r is Ok ==> copies(
            parse(l.page_at(final(flash).contents(), t as int), l.word as int, t as int, 2 * l.word),
            survivors::<I>(
                parse(
                    l.page_at(old(flash).contents(), s as int),
                    l.word as int,
                    s as int,
                    2 * l.word,
                ),
                log_of(*l, old(flash).contents()),
            ),
        ),
        r is Ok ==> clean(*l, final(flash).contents(), t as int),
        r matches Err(e) ==> e is Storage || e is BufferTooSmall,
        final(flash).rewrites() == old(flash).rewrites(),
        tolled(old(flash).losses(), final(flash).losses(), cut(r)),
        mended(
            old(flash).mends(),
            final(flash).mends(),
            final(flash).reserve(),
            cut(r),
        ),
        spared(old(flash).reserve(), final(flash).reserve(), l.page as int, cut(r)),
        old(flash).tidy() ==> !balked(r) && final(flash).tidy(),
{
    let ghost c0 = flash.contents();
    let ghost w = l.word as int;
    let ghost ps = l.page_at(c0, s as int);
    let ghost log = log_of(*l, c0);
    let ghost st0 = states_of(*l, c0);
    let ghost mut es: Seq<Entry> = Seq::empty();
    let ghost mut et: Seq<Entry> = Seq::empty();
    let wu: usize = l.word as usize;
    let mut sc = PageScanner::new(l, s);
    let mut to: u32 = 2 * l.word;
    proof {
        l.page_len(c0, s as int);
        l.page_len(c0, t as int);
        let pt = l.page_at(c0, t as int);
        assert(pt.subrange(0, l.page as int) =~= pt);
        ones_within(pt, 0, l.page as int, to as int, l.page as int);
    }
    while sc.end.is_none()
        invariant
            l.on(flash),
            s < l.pages,
            t < l.pages,
            s != t,
            w == l.word,
            wu == l.word,
            c0 == old(flash).contents(),
            flash.contents().len() == c0.len(),
            ps == l.page_at(c0, s as int),
            ps == l.page_at(flash.contents(), s as int),
            ps.len() == l.page,
            l.page_at(flash.contents(), t as int).len() == l.page,
            log == log_of(*l, c0),
            st0 == states_of(*l, c0),
            head_of(*l, st0) matches Some(a) && t == l.succ(a),
            sc.wf(l),
            sc.page == s,
            2 * l.word <= to <= sc.off,
            buf@.len() == old(buf)@.len(),
            buf@.len() >= 2 * l.word,
            quiet(cache),
            states_agree(cache.state_claims(), *l, flash.contents()),
            others_kept(*l, c0, flash.contents(), t as int),
            states_of(*l, flash.contents()) == st0,
            log_of(*l, flash.contents()) == log,
            l.page_at(flash.contents(), t as int).subrange(0, 2 * w) == l.page_at(
                c0,
                t as int,
            ).subrange(0, 2 * w),
            all_ones(l.page_at(flash.contents(), t as int).subrange(to as int, l.page as int)),
            reach(ps, w, s as int, 2 * w, sc.off as int) == Some(es),
            reach(l.page_at(flash.contents(), t as int), w, t as int, 2 * w, to as int) == Some(et),
            copies(et, survivors::<I>(es, log)),
            flash.rewrites() == old(flash).rewrites(),
            flash.losses() == old(flash).losses(),
            old(flash).mends() ==> flash.mends(),
            lasts(old(flash).reserve(), l.page as int) ==> drawn(
                old(flash).reserve(),
                flash.reserve(),
                to - 2 * l.word,
            ),
            old(flash).tidy() ==> flash.tidy(),
            snug(*l, c0, buf@.len() as int) ==> snug(*l, flash.contents(), buf@.len() as int),
            snug(*l, c0, buf@.len() as int) && in_log(*l, c0, s as int) ==> roomy(
                ps,
                w,
                sc.off as int,
                buf@.len() as int,
            ),
            roomy(l.page_at(flash.contents(), t as int), w, 2 * w, buf@.len() as int),
            sc.end is Some ==> !has_room(ps, w, sc.off as int) || item_len(
                slot_at(ps, w, sc.off as int),
            ) is None,
        decreases l.page - sc.off + (if sc.end is None { 1int } else { 0int }),
    {
        let ghost c = flash.contents();
        let ghost pt = l.page_at(c, t as int);
        match sc.next(flash, l, buf) {
            Err(_) => {
                proof {
                    span_shape(ps, w, sc.off as int);
                }
                return Err(Error::BufferTooSmall);
            },
            Ok(None) => {},
            Ok(Some((at, f))) => {
                match f {
                    Frame::Present { len } => {
                        let ghost e = entry_at(ps, w, s as int, at as int);
                        proof {
                            item_span(ps, w, at as int);
                            pad_bounds(len as int, w);
                            reach_step(ps, w, s as int, 2 * w, at as int);
                            assert(es.push(e).drop_last() =~= es);
                        }
                        let k = I::deserialize_key_only(slice_subrange(buf, wu, wu + len as usize));
                        let mut live: bool = false;
                        if let Ok(key) = k {
                            match locate::<I, F>(flash, l, cache, buf, key) {
                                Err(_) => {
                                    return Err(Error::BufferTooSmall);
                                },
                                Ok(found) => {
                                    if let Some(x) = found {
                                        live = x.page == s && x.at == at;
                                    }
                                },
                            }
                        }
                        proof {
                            assert(live == is_live::<I>(log, e));
                        }
                        if live {
                            let ghost payload = e.data;
                            let r = copy_item::<I, F>(flash, l, buf, s, at, len, t, to);
                            proof {
                                let c2 = flash.contents();
                                l.page_len(c2, t as int);
                                assert(l.page_at(c2, s as int) == ps);
                                assert forall|y: int|
                                    0 <= y < l.pages && y != t implies #[trigger] l.page_at(c2, y)
                                    == l.page_at(c0, y) by {
                                    assert(l.page_at(c2, y) == l.page_at(c, y));
                                }
                                if snug(*l, c, buf@.len() as int) {
                                    snug_step(*l, c, c2, t as int, buf@.len() as int);
                                }
                            }
                            let next: u32 = match r {
                                Err(x) => {
                                    cache.invalidate();
                                    return Err(x);
                                },
                                Ok(next) => next,
                            };
                            proof {
                                let next = fresh(t as int, to as int, payload);
                                assert(copies(et.push(next), survivors::<I>(es.push(e), log))) by {
                                    let ds = survivors::<I>(es, log);
                                    assert(survivors::<I>(es.push(e), log) == ds.push(payload));
                                    assert forall|i: int| 0 <= i < et.push(next).len() implies (
                                    #[trigger] et.push(next)[i]).present && et.push(next)[i].data
                                        == ds.push(payload)[i] by {
                                        if i < et.len() {
                                            assert(et.push(next)[i] == et[i]);
                                        }
                                    }
                                }
                                et = et.push(next);
                            }
                            to = next;
                        }
                        proof {
                            es = es.push(e);
                        }
                    },
                    Frame::Tombstone { len } => {
                        proof {
                            let e = entry_at(ps, w, s as int, at as int);
                            item_span(ps, w, at as int);
                            reach_step(ps, w, s as int, 2 * w, at as int);
                            assert(es.push(e).drop_last() =~= es);
                            es = es.push(e);
                        }
                    },
                    _ => {},
                }
            },
        }
    }
    proof {
        let c = flash.contents();
        let pt = l.page_at(c, t as int);
        reach_then_parse(ps, w, s as int, 2 * w, sc.off as int);
        parse_ends(ps, w, s as int, sc.off as int);
        assert(es + Seq::<Entry>::empty() =~= es);
        reach_then_parse(pt, w, t as int, 2 * w, to as int);
        if has_room(pt, w, to as int) {
            ones_within(pt, to as int, l.page as int, to as int, to + w);
        }
        parse_ends(pt, w, t as int, to as int);
        assert(et + Seq::<Entry>::empty() =~= et);
        assert(crate::scan::stop(pt, w, 2 * w) == to);
    }
    Ok(())
}

/// A run of pages without items has no items.
pub proof fn items_none(l: Layout, c: Seq<u8>, p: int, count: nat)
    requires
        forall|j: nat| j < count ==> page_items(l, c, #[trigger] nth(l, p, j)).len() == 0,
    ensures
        items_from(l, c, p, count) == Seq::<Entry>::empty(),
    decreases count,
{
    if count > 0 {
        assert(nth(l, p, 0) == p);
        assert forall|j: nat| j < count - 1 implies page_items(
            l,
            c,
            #[trigger] nth(l, l.succ(p), j),
        ).len() == 0 by {
            assert(nth(l, p, j + 1) == nth(l, l.succ(p), j));
        }
        items_none(l, c, l.succ(p), (count - 1) as nat);
        assert(page_items(l, c, p) + Seq::<Entry>::empty() =~= Seq::<Entry>::empty());
    }
}

/// A blank page has no items.
pub proof fn blank_has_none(pg: Seq<u8>, w: int, p: int)
    requires
        w >= 1,
        all_ones(pg),
    ensures
        parse(pg, w, p, 2 * w) == Seq::<Entry>::empty(),
{
    if has_room(pg, w, 2 * w) {
        assert(pg.subrange(0, pg.len() as int) =~= pg);
        ones_within(pg, 0, pg.len() as int, 2 * w, 3 * w);
    }
    parse_ends(pg, w, p, 2 * w);
}

/// Equal logs give equal answers.
pub proof fn same_log_same_answers<I: StorageItem>(l: Layout, a: Seq<u8>, b: Seq<u8>)
    requires
        log_of(l, a) == log_of(l, b),
    ensures
        same_answers::<I>(l, a, b),
{
}

/// Makes the page behind the closed head `a` the new head: fills it with
/// copies of the live items of the oldest page, opens it, and erases the
/// oldest page. Every key keeps its answer.
#[verifier::rlimit(100)]
pub fn advance<I: StorageItem, F: NorFlash>(
    flash: &mut F,
    l: &Layout,
    cache: &mut Cache<I::Key>,
    buf: &mut [u8],
    a: u32,
) -> (r: Result<(), Error<I::Error>>)
    requires
        l.on(old(flash)),
        a < l.pages,
        old(buf)@.len() >= 2 * l.word,
        quiet(old(cache)),
        states_agree(old(cache).state_claims(), *l, old(flash).contents()),
        head_of(*l, states_of(*l, old(flash).contents())) == Some(a as int),
        states_of(*l, old(flash).contents())[a as int] == PageState::Closed,
    ensures
        l.on(final(flash)),
        final(flash).contents().len() == old(flash).contents().len(),
        final(buf)@.len() == old(buf)@.len(),
        final(cache).wf(),
        final(cache).is_blank(),
        short(r) ==> old(buf)@.len() < l.page,
        r is Ok ==> forall|room: int, m: int| #[trigger]
            packed::<I>(*l, old(flash).contents(), room, m, false) ==> packed::<I>(
                *l,
                final(flash).contents(),
                room,
                step(*l, m),
                m < l.pages - 1,
            ),
        r is Ok ==> forall|n: int| #[trigger]
            jammed::<I>(*l, old(flash).contents(), n) == jammed::<I>(
                *l,
                final(flash).contents(),
                n,
            ),
        final(flash).rewrites() == old(flash).rewrites(),
        tolled(old(flash).losses(), final(flash).losses(), cut(r)),
        mended(
            old(flash).mends(),
            final(flash).mends(),
            final(flash).reserve(),
            cut(r),
        ),
        spared(old(flash).reserve(), final(flash).reserve(), 4 * l.page, cut(r)),
        old(flash).tidy() ==> !balked(r) && final(flash).tidy(),
        r matches Err(e) ==> e is Storage || e is Corrupted || e is BufferTooSmall,
        steady(*l, old(flash).contents(), final(flash).contents(), r),
        snug_kept(*l, old(flash).contents(), final(flash).contents(), r, old(buf)@.len() as int),
        snug(*l, old(flash).contents(), old(buf)@.len() as int) ==> !short(r),
        match r {
            Ok(()) => {
                &&& same_answers::<I>(*l, old(flash).contents(), final(flash).contents())
                &&& head_of(*l, states_of(*l, final(flash).contents())) == Some(
                    l.succ(a as int),
                )
                &&& states_of(*l, final(flash).contents())[l.succ(a as int)]
                    == PageState::PartialOpen
                &&& ready(*l, states_of(*l, final(flash).contents()))
            },
            Err(e) => harmless(*l, final(flash).contents(), e) ==> same_answers::<I>(
                *l,
                old(flash).contents(),
                final(flash).contents(),
            ),
        },
{
    let ghost c0 = flash.contents();
    let ghost w = l.word as int;
    let t: u32 = l.next_page(a);
    let s: u32 = l.next_page(t);
    proof {
        first_in_range(*l, states_of(*l, c0), 0);
        l.page_len(c0, t as int);
    }
    let blank = is_blank(flash, l, t, 0, l.page, buf);
    if !blank {
        let r = erase_page(flash, l, t);
        cache.invalidate();
        proof {
            let c1 = flash.contents();
            if r is Ok || (r matches Err(e) && e is EarlyShutoff) {
                wiping(*l, c0, c1, t as int);
                assert(states_of(*l, c1) =~= states_of(*l, c0));
                log_kept(*l, c0, c1);
                if snug(*l, c0, buf@.len() as int) {
                    snug_step(*l, c0, c1, t as int, buf@.len() as int);
                }
                assert forall|room: int, m: int, fresh: bool| #[trigger]
                    packed::<I>(*l, c0, room, m, fresh) implies packed::<I>(
                    *l,
                    c1,
                    room,
                    m,
                    fresh,
                ) by {
                    packed_junk::<I>(*l, c0, c1, room, m, fresh);
                }
                assert forall|n: int| #[trigger]
                    jammed::<I>(*l, c0, n) == jammed::<I>(*l, c1, n) by {
                    jammed_junk::<I>(*l, c0, c1, n);
                }
            }
            same_log_same_answers::<I>(*l, c0, c1);
        }
        match r {
            Err(e) => {
                return Err(Error::Storage(e));
            },
            Ok(()) => {},
        }
    } else {
        proof {
            let pt = l.page_at(c0, t as int);
            assert(pt.subrange(0, l.page as int) =~= pt);
        }
    }
    let ghost c1 = flash.contents();
    let oldest = page_state(flash, l, cache, buf, s);
    let holds: bool = oldest == PageState::Closed || oldest == PageState::PartialOpen;
    proof {
        if holds {
            assert(in_log(*l, c1, s as int));
        }
        blank_roomy(l.page_at(c1, t as int), w, buf@.len() as int);
    }
    if holds {
        match gather::<I, F>(flash, l, cache, buf, s, t) {
            Err(e) => {
                cache.invalidate();
                proof {
                    same_log_same_answers::<I>(*l, c0, flash.contents());
                }
                return Err(e);
            },
            Ok(()) => {},
        }
    }
    let ghost c2 = flash.contents();
    proof {
        assert forall|room: int, m: int, fresh: bool| #[trigger]
            packed::<I>(*l, c1, room, m, fresh) implies packed::<I>(*l, c2, room, m, fresh) by {
            packed_junk::<I>(*l, c1, c2, room, m, fresh);
        }
        assert forall|n: int| #[trigger] jammed::<I>(*l, c1, n) == jammed::<I>(*l, c2, n) by {
            jammed_junk::<I>(*l, c1, c2, n);
        }
        l.page_len(c2, t as int);
        if !holds {
            blank_has_none(l.page_at(c2, t as int), w, t as int);
            blank_is_clean(*l, c2, t as int);
            assert(survivors::<I>(page_items(*l, c2, s as int), log_of(*l, c2)) =~= Seq::empty());
        } else {
            assert(l.page_at(c2, s as int) == l.page_at(c1, s as int));
        }
        assert(copies(
            parse(l.page_at(c2, t as int), w, t as int, 2 * w),
            survivors::<I>(page_items(*l, c2, s as int), log_of(*l, c2)),
        ));
    }
    let planned = find_head(flash, l, cache, buf, Some((t, PageState::PartialOpen)));
    if !is_page(planned, t) {
        cache.invalidate();
        proof {
            same_log_same_answers::<I>(*l, c0, c2);
            if sound_ring(*l, states_of(*l, c2)) {
                sound_open(*l, states_of(*l, c2), a as int);
            }
        }
        return Err(Error::Corrupted);
    }
    proof {
        let pt = l.page_at(c2, t as int);
        crate::scan::sum_aligned(l.word as int, l.word as int, l.word as int);
        assert(states_of(*l, c2)[t as int] == PageState::Erased);
        assert(all_ones(pt.subrange(0, l.word as int)));
        assert(zeros(l.word as int).len() == l.word);
        assert(fair(pt, l.word as int, flash.rewrites(), 0, zeros(l.word as int)));
    }
    let r = mark_open(flash, l, t, buf);
    cache.invalidate();
    proof {
        let c3 = flash.contents();
        if l.page_at(c3, t as int) == splice(l.page_at(c2, t as int), 0, zeros(w)) {
            opening(*l, c2, c3, t as int);
            committed::<I>(*l, c2, c3, a as int);
            l.page_len(c3, t as int);
            opened(l.page_at(c2, t as int), w);
            assert(l.page_at(c3, t as int).subrange(2 * w, l.page as int) =~= l.page_at(
                c2,
                t as int,
            ).subrange(2 * w, l.page as int)) by {
                let a2 = l.page_at(c2, t as int);
                let a3 = l.page_at(c3, t as int);
                assert forall|i: int| 2 * w <= i < l.page implies a3[i] == a2[i] by {
                    assert(a3.subrange(w, l.page as int)[i - w] == a2.subrange(w, l.page as int)[i
                        - w]);
                }
            }
            roomy_by_body(l.page_at(c2, t as int), l.page_at(c3, t as int), w, buf@.len() as int);
            if snug(*l, c2, buf@.len() as int) {
                snug_commit(*l, c2, c3, a as int, buf@.len() as int);
            }
            clean_by_body(*l, c2, c3, t as int);
            assert forall|n: int| #[trigger] jammed::<I>(*l, c2, n) == jammed::<I>(*l, c3, n) by {
                jammed_commit::<I>(*l, c2, c3, n);
            }
            assert forall|room: int, m: int| #[trigger]
                packed::<I>(*l, c2, room, m, false) implies packed::<I>(
                *l,
                c3,
                room,
                step(*l, m),
                m < l.pages - 1,
            ) by {
                sound_open(*l, states_of(*l, c2), a as int);
                packed_commit::<I>(*l, c2, c3, room, m);
            }
            if sound_ring(*l, states_of(*l, c2)) {
                sound_open(*l, states_of(*l, c2), a as int);
            }
        } else {
            assert(states_of(*l, c3) =~= states_of(*l, c2)) by {
                assert forall|y: int| 0 <= y < l.pages implies states_of(*l, c3)[y] == states_of(
                    *l,
                    c2,
                )[y] by {
                    assert(l.page_at(c3, y) == l.page_at(c2, y));
                }
            }
            assert forall|y: int| 0 <= y < l.pages implies #[trigger] page_items(*l, c3, y)
                == page_items(*l, c2, y) by {
                assert(l.page_at(c3, y) == l.page_at(c2, y));
            }
            log_kept(*l, c2, c3);
            if snug(*l, c2, buf@.len() as int) {
                snug_step(*l, c2, c3, t as int, buf@.len() as int);
            }
        }
        assert(same_answers::<I>(*l, c0, c3)) by {
            assert forall|k: I::Key| #[trigger] lookup::<I>(*l, c3, k) == lookup::<I>(*l, c0, k) by {
                assert(lookup::<I>(*l, c3, k) == lookup::<I>(*l, c2, k));
            }
        }
    }
    match r {
        Err(e) => {
            return Err(Error::Storage(e));
        },
        Ok(()) => {},
    }
    let ghost c3 = flash.contents();
    if oldest != PageState::Erased {
        match erase_behind::<I, F>(flash, l, cache, buf, t) {
            Err(e) => {
                proof {
                    let c4 = flash.contents();
                    if harmless(*l, flash.contents(), e) {
                        assert forall|k: I::Key| #[trigger] lookup::<I>(*l, c4, k) == lookup::<I>(
                            *l,
                            c0,
                            k,
                        ) by {
                            assert(lookup::<I>(*l, c4, k) == lookup::<I>(*l, c3, k));
                            assert(lookup::<I>(*l, c3, k) == lookup::<I>(*l, c0, k));
                        }
                    }
                }
                return Err(e);
            },
            Ok(()) => {
                proof {
                    let c4 = flash.contents();
                    assert forall|k: I::Key| #[trigger] lookup::<I>(*l, c4, k) == lookup::<I>(
                        *l,
                        c0,
                        k,
                    ) by {
                        assert(lookup::<I>(*l, c4, k) == lookup::<I>(*l, c3, k));
                        assert(lookup::<I>(*l, c3, k) == lookup::<I>(*l, c0, k));
                    }
                }
            },
        }
    }
    Ok(())
}

/// Takes a ring of erased pages into use: makes sure that every page is
/// blank and opens page 0.
pub fn start<I: StorageItem, F: NorFlash>(
    flash: &mut F,
    l: &Layout,
    cache: &mut Cache<I::Key>,
    buf: &mut [u8],
) -> (r: Result<(), Error<I::Error>>)
    requires
        l.on(old(flash)),
        old(buf)@.len() >= 2 * l.word,
        quiet(old(cache)),
        states_agree(old(cache).state_claims(), *l, old(flash).contents()),
        forall|p: int|
            0 <= p < l.pages ==> states_of(*l, old(flash).contents())[p] == PageState::Erased,
    ensures
        l.on(final(flash)),
        final(flash).contents().len() == old(flash).contents().len(),
        final(buf)@.len() == old(buf)@.len(),
        final(cache).wf(),
        final(cache).is_blank(),
        !short(r),
        final(flash).rewrites() == old(flash).rewrites(),
        tolled(old(flash).losses(), final(flash).losses(), cut(r)),
        mended(
            old(flash).mends(),
            final(flash).mends(),
            final(flash).reserve(),
            cut(r),
        ),
        spared(old(flash).reserve(), final(flash).reserve(), l.pages * l.page + l.page, cut(r)),
        old(flash).tidy() ==> !balked(r) && final(flash).tidy(),
        r matches Err(e) ==> e is Storage,
        snug(*l, final(flash).contents(), old(buf)@.len() as int),
        r is Ok ==> all_ones(
            l.page_at(final(flash).contents(), 0).subrange(2 * l.word, l.page as int),
        ),
        sound_ring(*l, states_of(*l, final(flash).contents())),
        log_of(*l, final(flash).contents()) == log_of(*l, old(flash).contents()),
        r is Ok ==> head_of(*l, states_of(*l, final(flash).contents())) == Some(0int) && states_of(
            *l,
            final(flash).contents(),
        )[0] == PageState::PartialOpen && ready(*l, states_of(*l, final(flash).contents())),
{
    let ghost c0 = flash.contents();
    let ghost w = l.word as int;
    cache.invalidate();
    proof {
        none_leads(*l, states_of(*l, c0));
        crate::shape::blank_is_sound(*l, states_of(*l, c0));
    }
    let mut p: u32 = 0;
    while p < l.pages
        invariant
            l.on(flash),
            p <= l.pages,
            w == l.word,
            flash.contents().len() == c0.len(),
            c0 == old(flash).contents(),
            buf@.len() == old(buf)@.len(),
            buf@.len() >= 2 * l.word,
            cache.wf(),
            cache.is_blank(),
            flash.rewrites() == old(flash).rewrites(),
            flash.losses() == old(flash).losses(),
            old(flash).mends() ==> flash.mends(),
            lasts(old(flash).reserve(), l.pages * l.page + l.page) ==> drawn(
                old(flash).reserve(),
                flash.reserve(),
                p * l.page,
            ),
            old(flash).tidy() ==> flash.tidy(),
            states_of(*l, flash.contents()) == states_of(*l, c0),
            head_of(*l, states_of(*l, c0)) is None,
            forall|q: int| 0 <= q < l.pages ==> states_of(*l, c0)[q] == PageState::Erased,
            forall|q: int| 0 <= q < p ==> all_ones(#[trigger] l.page_at(flash.contents(), q)),
        decreases l.pages - p,
    {
        proof {
            assert((p + 1) * l.page == p * l.page + l.page && p * l.page + l.page <= l.pages
                * l.page && p * l.page >= 0) by (nonlinear_arith)
                requires
                    0 <= p < l.pages,
                    l.page >= 0,
            ;
        }
        let ghost c = flash.contents();
        proof {
            l.page_len(c, p as int);
        }
        if !is_blank(flash, l, p, 0, l.page, buf) {
            let r = erase_page(flash, l, p);
            proof {
                let c1 = flash.contents();
                if r is Ok || (r matches Err(e) && e is EarlyShutoff) {
                    wiping(*l, c, c1, p as int);
                    assert(states_of(*l, c1) =~= states_of(*l, c));
                }
                assert forall|q: int| 0 <= q < p implies all_ones(#[trigger] l.page_at(c1, q)) by {
                    assert(l.page_at(c1, q) == l.page_at(c, q));
                }
            }
            match r {
                Err(e) => {
                    return Err(Error::Storage(e));
                },
                Ok(()) => {},
            }
        } else {
            proof {
                let pg = l.page_at(c, p as int);
                assert(pg.subrange(0, l.page as int) =~= pg);
            }
        }
        p += 1;
    }
    let ghost c1 = flash.contents();
    let planned = find_head(flash, l, cache, buf, Some((0, PageState::PartialOpen)));
    if !is_page(planned, 0) {
        proof {
            sound_start(*l, states_of(*l, c1));
        }
        cache.invalidate();
        return Err(Error::Corrupted);
    }
    proof {
        let p0 = l.page_at(c1, 0);
        l.page_len(c1, 0);
        crate::scan::sum_aligned(l.word as int, l.word as int, l.word as int);
        assert(p0.subrange(0, l.page as int) =~= p0);
        ones_within(p0, 0, l.page as int, 0, l.word as int);
        assert(zeros(l.word as int).len() == l.word);
        assert(fair(p0, l.word as int, flash.rewrites(), 0, zeros(l.word as int)));
    }
    let r = mark_open(flash, l, 0, buf);
    cache.invalidate();
    proof {
        let c2 = flash.contents();
        l.page_len(c1, 0);
        if l.page_at(c2, 0) == splice(l.page_at(c1, 0), 0, zeros(w)) {
            opening(*l, c1, c2, 0);
            sound_start(*l, states_of(*l, c1));
            assert(l.page_at(c1, 0).subrange(0, l.page as int) =~= l.page_at(c1, 0));
            ones_within(l.page_at(c1, 0), 0, l.page as int, 2 * w, l.page as int);
            assert(l.page_at(c2, 0).subrange(2 * w, l.page as int) =~= l.page_at(c1, 0).subrange(
                2 * w,
                l.page as int,
            ));
            l.page_len(c2, 0);
            opened(l.page_at(c1, 0), w);
            blank_roomy(l.page_at(c1, 0), w, buf@.len() as int);
            assert(l.page_at(c2, 0).subrange(2 * w, l.page as int) =~= l.page_at(c1, 0).subrange(
                2 * w,
                l.page as int,
            )) by {
                let a1 = l.page_at(c1, 0);
                let a2 = l.page_at(c2, 0);
                assert forall|i: int| 2 * w <= i < l.page implies a2[i] == a1[i] by {
                    assert(a2.subrange(w, l.page as int)[i - w] == a1.subrange(w, l.page as int)[i
                        - w]);
                }
            }
            roomy_by_body(l.page_at(c1, 0), l.page_at(c2, 0), w, buf@.len() as int);
            assert(snug(*l, c2, buf@.len() as int)) by {
                assert forall|p: int| 0 <= p < l.pages && in_log(*l, c2, p) implies roomy(
                    #[trigger] l.page_at(c2, p),
                    w,
                    2 * w,
                    buf@.len() as int,
                ) by {
                    if p != 0 {
                        assert(states_of(*l, c2)[p] == PageState::Erased);
                    }
                }
            }
            blank_has_none(l.page_at(c1, 0), w, 0);
            head_in_range(*l, states_of(*l, c2));
            let start = l.succ(l.succ(0));
            assert forall|j: nat| j < (l.pages - 1) as nat implies page_items(
                *l,
                c2,
                #[trigger] nth(*l, start, j),
            ).len() == 0 by {
                nth_closed(*l, start, j);
                let y = nth(*l, start, j);
                if y != 0 {
                    assert(states_of(*l, c2)[y] == PageState::Erased);
                }
            }
            items_none(*l, c2, start, (l.pages - 1) as nat);
        } else {
            assert(states_of(*l, c2) =~= states_of(*l, c1)) by {
                assert forall|y: int| 0 <= y < l.pages implies states_of(*l, c2)[y] == states_of(
                    *l,
                    c1,
                )[y] by {
                    assert(l.page_at(c2, y) == l.page_at(c1, y));
                }
            }
        }
    }
    match r {
        Ok(()) => Ok(()),
        Err(e) => Err(Error::Storage(e)),
    }
}

/// A ring of erased pages has no head, and so an empty log.
pub proof fn none_leads(l: Layout, st: Seq<PageState>)
    requires
        l.wf(),
        st.len() == l.pages,
        forall|p: int| 0 <= p < l.pages ==> st[p] == PageState::Erased,
    ensures
        head_of(l, st) is None,
{
    first_in_range(l, st, 0);
}

} // verus!
