//! When the store is full: every page but the spare one is in use, none has
//! room for the item, and every item is present and the only one of its key.
//! Reclaiming then frees nothing, and the store stays full whatever it tries.

use crate::frame::{frame_size, pad_bounds, slot_at};
use crate::header::PageState;
use crate::item::{wants, StorageItem};
use crate::layout::{others_kept, Layout};
use crate::ring::{
    head_in_range, head_of, items_extend, items_from, items_keep, last_for, log_of, lookup, nth,
    nth_closed, page_items, states_of,
};
use crate::rotate::{copies, is_live, log_after_commit, log_before_commit, survivors};
use crate::scan::{entry_at, has_room, item_len, item_span, parse, stop, Entry};
use crate::shape::sound_ring;
use vstd::prelude::*;

verus! {

/// The bytes that the frames of `es` take together.
pub open spec fn extent(es: Seq<Entry>, w: int) -> int
    decreases es.len(),
{
    if es.len() == 0 {
        0
    } else {
        extent(es.drop_last(), w) + frame_size(es.last().data.len() as int, w)
    }
}

/// Every entry of `es` is present and the only one of its key.
pub open spec fn single<I: StorageItem>(es: Seq<Entry>) -> bool {
    &&& forall|i: int|
        0 <= i < es.len() ==> (#[trigger] es[i]).present && I::key_in(es[i].data) is Some
    &&& forall|i: int, j: int|
        0 <= i < es.len() && 0 <= j < es.len() && i != j ==> I::key_in((#[trigger] es[i]).data)
            != I::key_in((#[trigger] es[j]).data)
}

/// Page `p` is in use and has less than `room` bytes behind its items.
pub open spec fn tight(l: Layout, c: Seq<u8>, p: int, room: int) -> bool {
    let s = states_of(l, c)[p];
    &&& s == PageState::Closed || s == PageState::PartialOpen
    &&& l.page - stop(l.page_at(c, p), l.word as int, 2 * l.word) < room
}

/// The store is full for a frame of `room` bytes: the ring is sound and has
/// a head, every page but the one behind the head is in use and has less
/// than `room` bytes left, and every item of the log is present and the only
/// one of its key.
pub open spec fn crowded<I: StorageItem>(l: Layout, c: Seq<u8>, room: int) -> bool {
    &&& l.wf()
    &&& l.base + l.pages * l.page <= c.len()
    &&& sound_ring(l, states_of(l, c))
    &&& head_of(l, states_of(l, c)) matches Some(h) && forall|p: int|
        0 <= p < l.pages && p != l.succ(h) ==> #[trigger] tight(l, c, p, room)
    &&& single::<I>(log_of(l, c))
}

/// The frames of an entry and of those behind it.
pub proof fn extent_front(e: Entry, rest: Seq<Entry>, w: int)
    ensures
        extent(seq![e] + rest, w) == frame_size(e.data.len() as int, w) + extent(rest, w),
    decreases rest.len(),
{
    let all = seq![e] + rest;
    assert(all.len() == rest.len() + 1);
    assert(extent(all, w) == extent(all.drop_last(), w) + frame_size(
        all.last().data.len() as int,
        w,
    ));
    if rest.len() == 0 {
        assert(all.drop_last() =~= Seq::<Entry>::empty());
        assert(all.last() == e);
        assert(extent(all.drop_last(), w) == 0);
        assert(extent(rest, w) == 0);
    } else {
        assert(all.drop_last() =~= seq![e] + rest.drop_last());
        assert(all.last() == rest.last());
        extent_front(e, rest.drop_last(), w);
        assert(extent(rest, w) == extent(rest.drop_last(), w) + frame_size(
            rest.last().data.len() as int,
            w,
        ));
    }
}

/// The items of a page end where their frames end.
pub proof fn stop_extent(pg: Seq<u8>, w: int, p: int, off: int)
    requires
        w >= 1,
        0 <= off,
    ensures
        stop(pg, w, off) == off + extent(parse(pg, w, p, off), w),
    decreases pg.len() - off,
{
    if has_room(pg, w, off) {
        if let Some(len) = item_len(slot_at(pg, w, off)) {
            pad_bounds(len, w);
            item_span(pg, w, off);
            let e = entry_at(pg, w, p, off);
            assert(e.data.len() == len);
            stop_extent(pg, w, p, off + frame_size(len, w));
            extent_front(e, parse(pg, w, p, off + frame_size(len, w)), w);
        }
    }
}

/// Entries with payloads of the same lengths take the same bytes.
pub proof fn same_extent(a: Seq<Entry>, b: Seq<Entry>, w: int)
    requires
        a.len() == b.len(),
        forall|i: int| 0 <= i < a.len() ==> (#[trigger] a[i]).data.len() == b[i].data.len(),
    ensures
        extent(a, w) == extent(b, w),
    decreases a.len(),
{
    if a.len() > 0 {
        assert(a.last().data.len() == b[a.len() - 1].data.len());
        assert forall|i: int| 0 <= i < a.drop_last().len() implies (
        #[trigger] a.drop_last()[i]).data.len() == b.drop_last()[i].data.len() by {
            assert(a[i].data.len() == b[i].data.len());
        }
        same_extent(a.drop_last(), b.drop_last(), w);
    }
}

/// Where only one entry is accepted, it is the last accepted entry.
pub proof fn last_for_only(es: Seq<Entry>, want: spec_fn(Seq<u8>) -> bool, i: int)
    requires
        0 <= i < es.len(),
        want(es[i].data),
        forall|j: int| 0 <= j < es.len() && j != i ==> !want((#[trigger] es[j]).data),
    ensures
        last_for(es, want) == Some(es[i]),
    decreases es.len(),
{
    if i != es.len() - 1 {
        assert(!want(es[es.len() - 1].data));
        assert(es.drop_last()[i] == es[i]);
        assert forall|j: int| 0 <= j < es.drop_last().len() && j != i implies !want(
            (#[trigger] es.drop_last()[j]).data,
        ) by {
            assert(es.drop_last()[j] == es[j]);
        }
        last_for_only(es.drop_last(), want, i);
    }
}

/// In a log where every entry is the only one of its key, every entry is
/// live.
pub proof fn single_is_live<I: StorageItem>(log: Seq<Entry>, i: int)
    requires
        single::<I>(log),
        0 <= i < log.len(),
    ensures
        is_live::<I>(log, log[i]),
{
    let k = I::key_in(log[i].data).unwrap();
    assert forall|j: int| 0 <= j < log.len() && j != i implies !wants::<I>(k)(
        (#[trigger] log[j]).data,
    ) by {
        assert(I::key_in(log[i].data) != I::key_in(log[j].data));
    }
    last_for_only(log, wants::<I>(k), i);
}

/// Where every entry is live, every payload survives.
pub proof fn survivors_all<I: StorageItem>(es: Seq<Entry>, log: Seq<Entry>)
    requires
        forall|i: int| 0 <= i < es.len() ==> is_live::<I>(log, #[trigger] es[i]),
    ensures
        survivors::<I>(es, log).len() == es.len(),
        forall|i: int| 0 <= i < es.len() ==> (#[trigger] survivors::<I>(es, log)[i]) == es[i].data,
    decreases es.len(),
{
    if es.len() > 0 {
        assert(is_live::<I>(log, es[es.len() - 1]));
        assert forall|i: int| 0 <= i < es.drop_last().len() implies is_live::<I>(
            log,
            #[trigger] es.drop_last()[i],
        ) by {
            assert(es.drop_last()[i] == es[i]);
        }
        survivors_all::<I>(es.drop_last(), log);
    }
}

/// Moving the first entries of a log to its end, as copies, keeps every
/// entry the only one of its key.
pub proof fn single_rotated<I: StorageItem>(es: Seq<Entry>, mid: Seq<Entry>, et: Seq<Entry>)
    requires
        single::<I>(es + mid),
        et.len() == es.len(),
        forall|i: int| 0 <= i < es.len() ==> (#[trigger] et[i]).present && et[i].data == es[i].data,
    ensures
        single::<I>(mid + et),
{
    let old_log = es + mid;
    let new_log = mid + et;
    assert forall|i: int| 0 <= i < new_log.len() implies (#[trigger] new_log[i]).present
        && I::key_in(new_log[i].data) is Some by {
        if i < mid.len() {
            assert(new_log[i] == old_log[es.len() + i]);
        } else {
            assert(new_log[i] == et[i - mid.len()]);
            assert(old_log[i - mid.len()] == es[i - mid.len()]);
        }
    }
    assert forall|i: int, j: int|
        0 <= i < new_log.len() && 0 <= j < new_log.len() && i != j implies I::key_in(
        (#[trigger] new_log[i]).data,
    ) != I::key_in((#[trigger] new_log[j]).data) by {
        let oi = if i < mid.len() {
            es.len() + i
        } else {
            i - mid.len()
        };
        let oj = if j < mid.len() {
            es.len() + j
        } else {
            j - mid.len()
        };
        assert(new_log[i].data == old_log[oi].data) by {
            if i >= mid.len() {
                assert(new_log[i] == et[i - mid.len()]);
                assert(old_log[oi] == es[oi]);
            }
        }
        assert(new_log[j].data == old_log[oj].data) by {
            if j >= mid.len() {
                assert(new_log[j] == et[j - mid.len()]);
                assert(old_log[oj] == es[oj]);
            }
        }
        assert(I::key_in(old_log[oi].data) != I::key_in(old_log[oj].data));
    }
}

/// A full store stays full where the page behind its closed head, filled
/// with copies of the live items of the oldest page, becomes the head.
pub proof fn crowded_commit<I: StorageItem>(l: Layout, a: Seq<u8>, b: Seq<u8>, room: int)
    requires
        crowded::<I>(l, a, room),
        a.len() == b.len(),
        sound_ring(l, states_of(l, b)),
        head_of(l, states_of(l, a)) matches Some(head) && {
            let t = l.succ(head);
            let s = l.succ(t);
            &&& head_of(l, states_of(l, b)) == Some(t)
            &&& states_of(l, b) == states_of(l, a).update(t, PageState::PartialOpen)
            &&& others_kept(l, a, b, t)
            &&& copies(page_items(l, b, t), survivors::<I>(page_items(l, a, s), log_of(l, a)))
        },
    ensures
        crowded::<I>(l, b, room),
{
    let head = head_of(l, states_of(l, a)).unwrap();
    head_in_range(l, states_of(l, a));
    head_in_range(l, states_of(l, b));
    let t = l.succ(head);
    let s = l.succ(t);
    let w = l.word as int;
    let start = l.succ(s);
    let n = (l.pages - 2) as nat;
    let es = page_items(l, a, s);
    let mid = items_from(l, a, start, n);
    let et = page_items(l, b, t);
    log_before_commit(l, a, head);
    log_after_commit(l, b, t);
    assert forall|j: nat| j < n implies page_items(l, b, #[trigger] nth(l, start, j)) == page_items(
        l,
        a,
        nth(l, start, j),
    ) by {
        nth_closed(l, start, j);
        assert(l.page_at(b, nth(l, start, j)) == l.page_at(a, nth(l, start, j)));
    }
    items_keep(l, a, b, start, n);
    let log = es + mid;
    assert(log_of(l, a) == log);
    assert(log_of(l, b) == mid + et);
    // Every item of the oldest page is live, so every one was copied.
    assert forall|i: int| 0 <= i < es.len() implies is_live::<I>(log, #[trigger] es[i]) by {
        assert(log[i] == es[i]);
        single_is_live::<I>(log, i);
    }
    survivors_all::<I>(es, log);
    let ds = survivors::<I>(es, log);
    assert forall|i: int| 0 <= i < es.len() implies (#[trigger] et[i]).present && et[i].data
        == es[i].data by {
        assert(ds[i] == es[i].data);
    }
    single_rotated::<I>(es, mid, et);
    // The copies take the room that the items took.
    assert(tight(l, a, s, room));
    assert forall|i: int| 0 <= i < et.len() implies (#[trigger] et[i]).data.len()
        == es[i].data.len() by {}
    same_extent(et, es, w);
    stop_extent(l.page_at(a, s), w, s, 2 * w);
    stop_extent(l.page_at(b, t), w, t, 2 * w);
    assert forall|p: int| 0 <= p < l.pages && p != l.succ(t) implies #[trigger] tight(
        l,
        b,
        p,
        room,
    ) by {
        if p != t {
            assert(tight(l, a, p, room));
            assert(l.page_at(b, p) == l.page_at(a, p));
        }
    }
}

/// The store holds an item and, in a ring of three pages or more, items of
/// two keys.
pub open spec fn peopled<I: StorageItem>(l: Layout, c: Seq<u8>) -> bool {
    &&& exists|k: I::Key| #[trigger] lookup::<I>(l, c, k) is Some
    &&& l.pages >= 3 ==> exists|j: I::Key, k: I::Key|
        j != k && #[trigger] lookup::<I>(l, c, j) is Some && #[trigger] lookup::<I>(l, c, k) is Some
}

/// A page without room for a frame that fits an empty page holds an item.
pub proof fn tight_has_item(l: Layout, c: Seq<u8>, p: int, room: int)
    requires
        l.wf(),
        0 <= p < l.pages,
        l.base + l.pages * l.page <= c.len(),
        tight(l, c, p, room),
        2 * l.word + room <= l.page,
    ensures
        page_items(l, c, p).len() > 0,
{
    let pg = l.page_at(c, p);
    stop_extent(pg, l.word as int, p, 2 * l.word);
    assert(states_of(l, c)[p] == crate::header::state_of(pg, l.word as int));
}

/// In a log where every entry is the only one of its key, every entry is the
/// answer for its key.
pub proof fn single_answers<I: StorageItem>(l: Layout, c: Seq<u8>, i: int)
    requires
        single::<I>(log_of(l, c)),
        0 <= i < log_of(l, c).len(),
    ensures
        I::key_in(log_of(l, c)[i].data) is Some,
        lookup::<I>(l, c, I::key_in(log_of(l, c)[i].data).unwrap()) == Some(log_of(l, c)[i].data),
{
    single_is_live::<I>(log_of(l, c), i);
}

/// A store that is full for a frame that fits an empty page holds an item in
/// every page of its log, each of a key of its own.
pub proof fn crowded_peopled<I: StorageItem>(l: Layout, c: Seq<u8>, room: int)
    requires
        crowded::<I>(l, c, room),
        2 * l.word + room <= l.page,
    ensures
        peopled::<I>(l, c),
{
    let h = head_of(l, states_of(l, c)).unwrap();
    head_in_range(l, states_of(l, c));
    let start = l.succ(l.succ(h));
    let log = log_of(l, c);
    let n2 = (l.pages - 2) as nat;
    let front = items_from(l, c, start, n2);
    log_after_commit(l, c, h);
    assert(tight(l, c, h, room));
    tight_has_item(l, c, h, room);
    let i0 = front.len() as int;
    assert(log[i0] == page_items(l, c, h)[0]);
    single_answers::<I>(l, c, i0);
    let k0 = I::key_in(log[i0].data).unwrap();
    assert(lookup::<I>(l, c, k0) is Some);
    if l.pages >= 3 {
        let n3 = (l.pages - 3) as nat;
        let older = items_from(l, c, start, n3);
        items_extend(l, c, start, n3);
        nth_closed(l, start, n3);
        let p1 = nth(l, start, n3);
        assert(p1 == l.pred(h));
        assert(0 <= p1 < l.pages && p1 != l.succ(h));
        assert(tight(l, c, p1, room));
        tight_has_item(l, c, p1, room);
        let i1 = older.len() as int;
        assert(front == older + page_items(l, c, p1));
        assert(log[i1] == page_items(l, c, p1)[0]);
        single_answers::<I>(l, c, i1);
        let k1 = I::key_in(log[i1].data).unwrap();
        assert(I::key_in(log[i0].data) != I::key_in(log[i1].data));
        assert(k0 != k1);
        assert(lookup::<I>(l, c, k1) is Some);
    }
}

} // verus!
