//! How a store fills up: the youngest pages of the log, counted back from the
//! head, hold live items only and have no room for the item. Each move to
//! the next page adds a page to that run; when the run is the whole log, the
//! store is full.

use crate::append::lands;
use crate::find::{last_for_concat, later};
use crate::flash::{all_ones, ones_within};
use crate::frame::{frame_size, len_limit, pad_bounds, slot_at, Frame};
use crate::full::{crowded, crowded_commit, single, tight};
use crate::header::PageState;
use crate::item::{wants, StorageItem};
use crate::layout::{others_kept, Layout};
use crate::ring::{
    head_in_range, head_of, items_extend, items_from, items_keep, last_for, last_for_is_in, log_of,
    nth, nth_closed, page_items, states_of,
};
use crate::rotate::{copies, is_live, last_for_some, log_before_commit, survivors, survivors_from};
use crate::scan::{has_room, item_len, item_span, parse, parse_local, stop, Entry};
use crate::shape::sound_ring;
use vstd::prelude::*;

verus! {

/// The page `k` places before page `h` in the ring, for `k` up to one turn.
pub open spec fn back(l: Layout, h: int, k: int) -> int {
    if h - k >= 0 {
        h - k
    } else {
        h - k + l.pages
    }
}

/// Nothing but blank bytes follows the items of page `p`.
pub open spec fn clean(l: Layout, c: Seq<u8>, p: int) -> bool {
    let pg = l.page_at(c, p);
    all_ones(pg.subrange(stop(pg, l.word as int, 2 * l.word), l.page as int))
}

/// The `m` youngest pages of the log are packed for a frame of `room`
/// bytes: each is in use and has less than `room` bytes left, and their items
/// are present and each the only one of its key among them. With `fresh`, the
/// head may have room still, if it is partially open and blank behind its
/// items.
pub open spec fn packed<I: StorageItem>(l: Layout, c: Seq<u8>, room: int, m: int, fresh: bool)
    -> bool {
    &&& l.wf()
    &&& l.base + l.pages * l.page <= c.len()
    &&& sound_ring(l, states_of(l, c))
    &&& 0 <= m <= l.pages - 1
    &&& head_of(l, states_of(l, c)) matches Some(h) && {
        &&& forall|k: int|
            0 <= k < m ==> #[trigger] tight(l, c, back(l, h, k), room) || (fresh && k == 0
                && states_of(l, c)[h] == PageState::PartialOpen && clean(l, c, h))
        &&& single::<I>(items_from(l, c, back(l, h, m - 1), m as nat))
    }
}

/// The number of packed pages after a move to the next page.
pub open spec fn step(l: Layout, m: int) -> int {
    if m < l.pages - 1 {
        m + 1
    } else {
        m
    }
}

/// The store has come as far as `turns` rounds of storing can take it: all
/// of its log is packed, or it has packed a page for every two rounds.
pub open spec fn paced<I: StorageItem>(
    l: Layout,
    c: Seq<u8>,
    room: int,
    m: int,
    fresh: bool,
    turns: int,
) -> bool {
    &&& packed::<I>(l, c, room, m, fresh)
    &&& head_of(l, states_of(l, c)) matches Some(h) && {
        ||| m == l.pages - 1 && !fresh
        ||| states_of(l, c)[h] == PageState::PartialOpen && turns <= 2 * m
        ||| states_of(l, c)[h] == PageState::Closed && !fresh && turns <= 2 * m + 1
    }
}

/// Counting forward from the oldest page of a run reaches the pages that
/// counting back from the head names.
pub proof fn back_nth(l: Layout, h: int, m: int, j: nat)
    requires
        l.wf(),
        0 <= h < l.pages,
        1 <= m <= l.pages,
        j <= m,
    ensures
        0 <= back(l, h, m - 1) < l.pages,
        j < m ==> nth(l, back(l, h, m - 1), j) == back(l, h, m - 1 - j) && 0 <= back(
            l,
            h,
            m - 1 - j,
        ) < l.pages,
        j == m ==> nth(l, back(l, h, m - 1), j) == l.succ(h),
{
    nth_closed(l, back(l, h, m - 1), j);
}

/// A run of pages that hold the same items in two stores has the same items.
pub proof fn run_keep(l: Layout, a: Seq<u8>, b: Seq<u8>, h: int, m: int)
    requires
        l.wf(),
        0 <= h < l.pages,
        0 <= m <= l.pages,
        forall|k: int|
            0 <= k < m ==> #[trigger] page_items(l, b, back(l, h, k)) == page_items(
                l,
                a,
                back(l, h, k),
            ),
    ensures
        items_from(l, b, back(l, h, m - 1), m as nat) == items_from(
            l,
            a,
            back(l, h, m - 1),
            m as nat,
        ),
{
    if m > 0 {
        let first = back(l, h, m - 1);
        assert forall|j: nat| j < m implies page_items(l, b, #[trigger] nth(l, first, j))
            == page_items(l, a, nth(l, first, j)) by {
            back_nth(l, h, m, j);
            assert(page_items(l, b, back(l, h, m - 1 - j)) == page_items(
                l,
                a,
                back(l, h, m - 1 - j),
            ));
        }
        items_keep(l, a, b, first, m as nat);
    }
}

/// The items of a page name that page, lie behind each other, and so are
/// all different.
pub proof fn parse_places(pg: Seq<u8>, w: int, p: int, off: int)
    requires
        w >= 1,
        0 <= off,
    ensures
        forall|i: int|
            0 <= i < parse(pg, w, p, off).len() ==> (#[trigger] parse(pg, w, p, off)[i]).page == p
                && parse(pg, w, p, off)[i].at >= off,
        forall|i: int, j: int|
            0 <= i < j < parse(pg, w, p, off).len() ==> (#[trigger] parse(pg, w, p, off)[i]).at < (
            #[trigger] parse(pg, w, p, off)[j]).at,
    decreases pg.len() - off,
{
    let es = parse(pg, w, p, off);
    if has_room(pg, w, off) {
        if let Some(len) = item_len(slot_at(pg, w, off)) {
            pad_bounds(len, w);
            item_span(pg, w, off);
            let next = off + frame_size(len, w);
            parse_places(pg, w, p, next);
            let rest = parse(pg, w, p, next);
            assert(es.len() == rest.len() + 1);
            assert(es[0].at == off && es[0].page == p);
            assert forall|i: int| 0 <= i < es.len() implies (#[trigger] es[i]).page == p
                && es[i].at >= off by {
                if i > 0 {
                    assert(es[i] == rest[i - 1]);
                }
            }
            assert forall|i: int, j: int| 0 <= i < j < es.len() implies (#[trigger] es[i]).at < (
            #[trigger] es[j]).at by {
                assert(es[j] == rest[j - 1]);
                if i > 0 {
                    assert(es[i] == rest[i - 1]);
                }
            }
        }
    }
}

/// The items of a page name that page and are all different.
pub proof fn page_places(l: Layout, c: Seq<u8>, p: int)
    requires
        l.wf(),
    ensures
        forall|i: int|
            0 <= i < page_items(l, c, p).len() ==> (#[trigger] page_items(l, c, p)[i]).page == p,
        forall|i: int, j: int|
            0 <= i < j < page_items(l, c, p).len() ==> (#[trigger] page_items(l, c, p)[i]) != (
            #[trigger] page_items(l, c, p)[j]),
{
    parse_places(l.page_at(c, p), l.word as int, p, 2 * l.word);
}

/// No item of a run of pages names a page outside the run.
pub proof fn items_elsewhere(l: Layout, c: Seq<u8>, p: int, count: nat, x: int)
    requires
        l.wf(),
        forall|j: nat| j < count ==> #[trigger] nth(l, p, j) != x,
    ensures
        forall|i: int|
            0 <= i < items_from(l, c, p, count).len() ==> (#[trigger] items_from(
                l,
                c,
                p,
                count,
            )[i]).page != x,
    decreases count,
{
    if count > 0 {
        let first = page_items(l, c, p);
        let rest = items_from(l, c, l.succ(p), (count - 1) as nat);
        assert(nth(l, p, 0) == p);
        page_places(l, c, p);
        assert forall|j: nat| j < count - 1 implies #[trigger] nth(l, l.succ(p), j) != x by {
            assert(nth(l, p, j + 1) == nth(l, l.succ(p), j));
        }
        items_elsewhere(l, c, l.succ(p), (count - 1) as nat, x);
        let all = items_from(l, c, p, count);
        assert(all == first + rest);
        assert forall|i: int| 0 <= i < all.len() implies (#[trigger] all[i]).page != x by {
            if i < first.len() {
                assert(all[i] == first[i]);
            } else {
                assert(all[i] == rest[i - first.len()]);
            }
        }
    }
}

/// The items of `i + j` pages are those of the first `i` followed by those
/// of the next `j`.
pub proof fn items_split(l: Layout, c: Seq<u8>, p: int, i: nat, j: nat)
    requires
        l.wf(),
        0 <= p < l.pages,
        i + j <= l.pages,
    ensures
        items_from(l, c, p, i + j) == items_from(l, c, p, i) + items_from(l, c, nth(l, p, i), j),
    decreases j,
{
    let q = nth(l, p, i);
    nth_closed(l, p, i);
    if j == 0 {
        assert(items_from(l, c, q, 0) =~= Seq::<Entry>::empty());
        assert(items_from(l, c, p, i) + Seq::<Entry>::empty() =~= items_from(l, c, p, i));
    } else {
        let j1 = (j - 1) as nat;
        items_split(l, c, p, i, j1);
        items_extend(l, c, p, i + j1);
        items_extend(l, c, q, j1);
        nth_closed(l, p, i + j1);
        nth_closed(l, q, j1);
        assert(nth(l, q, j1) == nth(l, p, i + j1));
        let x = items_from(l, c, p, i);
        let y = items_from(l, c, q, j1);
        let z = page_items(l, c, nth(l, q, j1));
        assert((x + y) + z =~= x + (y + z));
    }
}

/// No two surviving payloads have the same key.
pub proof fn survivors_apart<I: StorageItem>(es: Seq<Entry>, log: Seq<Entry>, i: int, j: int)
    requires
        forall|a: int, b: int| 0 <= a < b < es.len() ==> (#[trigger] es[a]) != (#[trigger] es[b]),
        0 <= i < j < survivors::<I>(es, log).len(),
    ensures
        I::key_in(survivors::<I>(es, log)[i]) != I::key_in(survivors::<I>(es, log)[j]),
    decreases es.len(),
{
    let ds = survivors::<I>(es, log);
    let front = es.drop_last();
    let rest = survivors::<I>(front, log);
    assert forall|a: int, b: int| 0 <= a < b < front.len() implies (#[trigger] front[a]) != (
    #[trigger] front[b]) by {
        assert(front[a] == es[a] && front[b] == es[b]);
    }
    if is_live::<I>(log, es.last()) && j == rest.len() {
        assert(ds[j] == es.last().data);
        assert(ds[i] == rest[i]);
        survivors_from::<I>(front, log, i);
        let a = choose|a: int|
            0 <= a < front.len() && is_live::<I>(log, #[trigger] front[a]) && front[a].data
                == rest[i];
        assert(front[a] == es[a]);
        assert(es[es.len() - 1] == es.last());
        if I::key_in(ds[i]) == I::key_in(ds[j]) {
            assert(es[a] == es[es.len() - 1]);
        }
    } else {
        assert(ds[i] == rest[i] && ds[j] == rest[j]);
        survivors_apart::<I>(front, log, i, j);
    }
}

/// Behind the youngest items of a log, the copies of the live items of its
/// oldest page are present, and each the only one of its key among them all.
pub proof fn single_joined<I: StorageItem>(
    es: Seq<Entry>,
    front: Seq<Entry>,
    young: Seq<Entry>,
    et: Seq<Entry>,
)
    requires
        copies(et, survivors::<I>(es, es + (front + young))),
        single::<I>(young),
        forall|a: int, b: int| 0 <= a < b < es.len() ==> (#[trigger] es[a]) != (#[trigger] es[b]),
        forall|a: int, b: int|
            0 <= a < es.len() && 0 <= b < (front + young).len() ==> (#[trigger] es[a]) != (
            #[trigger] (front + young)[b]),
    ensures
        single::<I>(young + et),
{
    let mid = front + young;
    let log = es + mid;
    let ds = survivors::<I>(es, log);
    let all = young + et;
    assert forall|u: int| 0 <= u < all.len() implies (#[trigger] all[u]).present && I::key_in(
        all[u].data,
    ) is Some by {
        if u < young.len() {
            assert(all[u] == young[u]);
        } else {
            let i = u - young.len();
            assert(all[u] == et[i]);
            assert(et[i].present && et[i].data == ds[i]);
            survivors_from::<I>(es, log, i);
        }
    }
    assert forall|u: int, v: int|
        0 <= u < all.len() && 0 <= v < all.len() && u != v implies I::key_in(
        (#[trigger] all[u]).data,
    ) != I::key_in((#[trigger] all[v]).data) by {
        if u < young.len() && v < young.len() {
            assert(all[u] == young[u] && all[v] == young[v]);
        } else if u >= young.len() && v >= young.len() {
            let i = u - young.len();
            let j = v - young.len();
            assert(all[u] == et[i] && all[v] == et[j]);
            assert(et[i].data == ds[i] && et[j].data == ds[j]);
            if i < j {
                survivors_apart::<I>(es, log, i, j);
            } else {
                survivors_apart::<I>(es, log, j, i);
            }
        } else {
            let (y, i) = if u < young.len() {
                (u, v - young.len())
            } else {
                (v, u - young.len())
            };
            assert(all[y] == young[y]);
            assert(all[young.len() + i] == et[i]);
            assert(et[i].data == ds[i]);
            survivors_from::<I>(es, log, i);
            let a = choose|a: int|
                0 <= a < es.len() && is_live::<I>(log, #[trigger] es[a]) && es[a].data == ds[i];
            let k = I::key_in(es[a].data).unwrap();
            if I::key_in(young[y].data) == Some(k) {
                let want = wants::<I>(k);
                assert(mid[front.len() + y] == young[y]);
                last_for_some(mid, want, front.len() + y);
                last_for_is_in(mid, want);
                last_for_concat(es, mid, want);
                let e = last_for(mid, want).unwrap();
                assert(last_for(log, want) == later(last_for(es, want), mid, want));
                assert(last_for(log, want) == Some(e));
                let b = choose|b: int| 0 <= b < mid.len() && mid[b] == e;
                assert(es[a] == mid[b]);
            }
        }
    }
}

/// The items of a page end inside the page, behind its header.
pub proof fn stop_bounds(pg: Seq<u8>, w: int, off: int)
    requires
        w >= 1,
        0 <= off <= pg.len(),
    ensures
        off <= stop(pg, w, off) <= pg.len(),
    decreases pg.len() - off,
{
    if has_room(pg, w, off) {
        if let Some(len) = item_len(slot_at(pg, w, off)) {
            pad_bounds(len, w);
            item_span(pg, w, off);
            stop_bounds(pg, w, off + frame_size(len, w));
        }
    }
}

/// A page that is blank behind its items takes every item whose frame fits
/// behind them.
pub proof fn clean_lands(l: Layout, c: Seq<u8>, h: int, n: int)
    requires
        l.wf(),
        0 <= h < l.pages,
        l.base + l.pages * l.page <= c.len(),
        0 <= n < len_limit(l.word as int),
        clean(l, c, h),
        stop(l.page_at(c, h), l.word as int, 2 * l.word) + frame_size(n, l.word as int) <= l.page,
    ensures
        lands(l, c, h, n),
{
    let pg = l.page_at(c, h);
    let w = l.word as int;
    let size = frame_size(n, w);
    let at = stop(pg, w, 2 * w);
    l.page_len(c, h);
    pad_bounds(n, w);
    stop_bounds(pg, w, 2 * w);
    ones_within(pg, at, l.page as int, at, at + w);
    ones_within(pg, at, l.page as int, at, at + size);
    if at + size + 2 * w <= pg.len() {
        ones_within(pg, at, l.page as int, at + size, at + size + w);
    }
    assert(slot_at(pg, w, at) == Frame::Erased);
}

/// A head that was tried and took no item of `n` bytes has no room for it:
/// what was packed but for the head's room is packed.
pub proof fn packed_tested<I: StorageItem>(l: Layout, c: Seq<u8>, n: int, m: int)
    requires
        packed::<I>(l, c, frame_size(n, l.word as int), m, true),
        0 <= n < len_limit(l.word as int),
        head_of(l, states_of(l, c)) matches Some(h) && !lands(l, c, h, n),
    ensures
        packed::<I>(l, c, frame_size(n, l.word as int), m, false),
{
    let h = head_of(l, states_of(l, c)).unwrap();
    let room = frame_size(n, l.word as int);
    head_in_range(l, states_of(l, c));
    assert forall|k: int| 0 <= k < m implies #[trigger] tight(l, c, back(l, h, k), room) by {
        if !tight(l, c, back(l, h, k), room) {
            assert(k == 0 && clean(l, c, h));
            clean_lands(l, c, h, n);
        }
    }
}

/// A store whose whole log is packed is full.
pub proof fn packed_is_crowded<I: StorageItem>(l: Layout, c: Seq<u8>, room: int)
    requires
        packed::<I>(l, c, room, l.pages - 1, false),
    ensures
        crowded::<I>(l, c, room),
{
    let h = head_of(l, states_of(l, c)).unwrap();
    head_in_range(l, states_of(l, c));
    assert forall|p: int| 0 <= p < l.pages && p != l.succ(h) implies #[trigger] tight(
        l,
        c,
        p,
        room,
    ) by {
        let k = if h - p >= 0 {
            h - p
        } else {
            h - p + l.pages
        };
        assert(back(l, h, k) == p);
        assert(tight(l, c, back(l, h, k), room));
    }
    assert(back(l, h, l.pages - 2) == l.succ(l.succ(h)));
}

/// A full store has its whole log packed.
pub proof fn crowded_is_packed<I: StorageItem>(l: Layout, c: Seq<u8>, room: int)
    requires
        crowded::<I>(l, c, room),
    ensures
        packed::<I>(l, c, room, l.pages - 1, false),
{
    let h = head_of(l, states_of(l, c)).unwrap();
    head_in_range(l, states_of(l, c));
    assert forall|k: int| 0 <= k < l.pages - 1 implies #[trigger] tight(
        l,
        c,
        back(l, h, k),
        room,
    ) by {
        let p = back(l, h, k);
        assert(0 <= p < l.pages && p != l.succ(h));
    }
    assert(back(l, h, l.pages - 2) == l.succ(l.succ(h)));
}

/// What is packed stays packed where only the page behind the head changes.
pub proof fn packed_junk<I: StorageItem>(
    l: Layout,
    a: Seq<u8>,
    b: Seq<u8>,
    room: int,
    m: int,
    fresh: bool,
)
    requires
        packed::<I>(l, a, room, m, fresh),
        a.len() == b.len(),
        sound_ring(l, states_of(l, b)),
        head_of(l, states_of(l, b)) == head_of(l, states_of(l, a)),
        others_kept(l, a, b, l.succ(head_of(l, states_of(l, a)).unwrap())),
    ensures
        packed::<I>(l, b, room, m, fresh),
{
    let h = head_of(l, states_of(l, a)).unwrap();
    head_in_range(l, states_of(l, a));
    assert forall|k: int| 0 <= k < m implies l.page_at(b, #[trigger] back(l, h, k)) == l.page_at(
        a,
        back(l, h, k),
    ) by {
        let p = back(l, h, k);
        assert(0 <= p < l.pages && p != l.succ(h));
    }
    assert forall|k: int| 0 <= k < m implies #[trigger] tight(l, b, back(l, h, k), room) || (fresh
        && k == 0 && states_of(l, b)[h] == PageState::PartialOpen && clean(l, b, h)) by {
        assert(l.page_at(b, back(l, h, k)) == l.page_at(a, back(l, h, k)));
        assert(0 <= back(l, h, k) < l.pages);
        assert(tight(l, a, back(l, h, k), room) || (fresh && k == 0 && states_of(l, a)[h]
            == PageState::PartialOpen && clean(l, a, h)));
    }
    assert forall|k: int| 0 <= k < m implies #[trigger] page_items(l, b, back(l, h, k))
        == page_items(l, a, back(l, h, k)) by {
        assert(l.page_at(b, back(l, h, k)) == l.page_at(a, back(l, h, k)));
    }
    run_keep(l, a, b, h, m);
}

/// What is packed stays packed where the head is closed.
pub proof fn packed_closed<I: StorageItem>(l: Layout, a: Seq<u8>, b: Seq<u8>, room: int, m: int)
    requires
        packed::<I>(l, a, room, m, false),
        a.len() == b.len(),
        sound_ring(l, states_of(l, b)),
        head_of(l, states_of(l, b)) == head_of(l, states_of(l, a)),
        states_of(l, b) == states_of(l, a).update(
            head_of(l, states_of(l, a)).unwrap(),
            PageState::Closed,
        ),
        others_kept(l, a, b, head_of(l, states_of(l, a)).unwrap()),
        l.page_at(b, head_of(l, states_of(l, a)).unwrap()).subrange(2 * l.word, l.page as int)
            == l.page_at(a, head_of(l, states_of(l, a)).unwrap()).subrange(
            2 * l.word,
            l.page as int,
        ),
    ensures
        packed::<I>(l, b, room, m, false),
{
    let h = head_of(l, states_of(l, a)).unwrap();
    head_in_range(l, states_of(l, a));
    let w = l.word as int;
    let pa = l.page_at(a, h);
    let pb = l.page_at(b, h);
    l.page_len(a, h);
    l.page_len(b, h);
    assert forall|i: int| 2 * w <= i < pa.len() implies pa[i] == pb[i] by {
        assert(pa.subrange(2 * w, l.page as int)[i - 2 * w] == pb.subrange(2 * w, l.page as int)[i
            - 2 * w]);
    }
    parse_local(pa, pb, w, h, 2 * w);
    assert forall|k: int| 0 <= k < m implies #[trigger] tight(l, b, back(l, h, k), room) by {
        let p = back(l, h, k);
        assert(tight(l, a, back(l, h, k), room));
        assert(0 <= p < l.pages);
        if p != h {
            assert(l.page_at(b, p) == l.page_at(a, p));
        }
    }
    assert forall|k: int| 0 <= k < m implies #[trigger] page_items(l, b, back(l, h, k))
        == page_items(l, a, back(l, h, k)) by {
        let p = back(l, h, k);
        assert(tight(l, a, back(l, h, k), room));
        assert(0 <= p < l.pages);
        if p != h {
            assert(l.page_at(b, p) == l.page_at(a, p));
        }
    }
    run_keep(l, a, b, h, m);
}

/// Where the page behind the closed head, filled with copies of the live
/// items of the oldest page and blank behind them, becomes the head, it
/// joins what was packed; it may have room still.
pub proof fn packed_commit<I: StorageItem>(l: Layout, a: Seq<u8>, b: Seq<u8>, room: int, m: int)
    requires
        packed::<I>(l, a, room, m, false),
        a.len() == b.len(),
        sound_ring(l, states_of(l, b)),
        head_of(l, states_of(l, a)) matches Some(head) && {
            let t = l.succ(head);
            let s = l.succ(t);
            &&& head_of(l, states_of(l, b)) == Some(t)
            &&& states_of(l, b) == states_of(l, a).update(t, PageState::PartialOpen)
            &&& others_kept(l, a, b, t)
            &&& copies(page_items(l, b, t), survivors::<I>(page_items(l, a, s), log_of(l, a)))
            &&& clean(l, b, t)
        },
    ensures
        packed::<I>(l, b, room, step(l, m), m < l.pages - 1),
{
    let head = head_of(l, states_of(l, a)).unwrap();
    head_in_range(l, states_of(l, a));
    head_in_range(l, states_of(l, b));
    let t = l.succ(head);
    let s = l.succ(t);
    if m == l.pages - 1 {
        packed_is_crowded::<I>(l, a, room);
        crowded_commit::<I>(l, a, b, room);
        crowded_is_packed::<I>(l, b, room);
    } else {
        let n2 = (l.pages - 2) as nat;
        let es = page_items(l, a, s);
        let et = page_items(l, b, t);
        let young = items_from(l, a, back(l, head, m - 1), m as nat);
        let front = items_from(l, a, l.succ(s), (n2 - m) as nat);
        // The pages that were packed are packed, one place further from the head.
        assert forall|k: int| 0 <= k < m + 1 implies #[trigger] tight(l, b, back(l, t, k), room)
            || (k == 0 && states_of(l, b)[t] == PageState::PartialOpen && clean(l, b, t)) by {
            if k > 0 {
                let p = back(l, head, k - 1);
                assert(back(l, t, k) == p);
                assert(tight(l, a, back(l, head, k - 1), room));
                assert(0 <= p < l.pages && p != t);
                assert(l.page_at(b, p) == l.page_at(a, p));
            }
        }
        // Their items, followed by those of the new head.
        assert forall|k: int| 0 <= k < m implies #[trigger] page_items(l, b, back(l, head, k))
            == page_items(l, a, back(l, head, k)) by {
            let p = back(l, head, k);
            assert(0 <= p < l.pages && p != t);
            assert(l.page_at(b, p) == l.page_at(a, p));
        }
        run_keep(l, a, b, head, m);
        let first = back(l, t, m);
        if m > 0 {
            assert(first == back(l, head, m - 1));
            back_nth(l, head, m, m as nat);
        } else {
            assert(first == t);
            assert(nth(l, first, 0) == first);
            assert(items_from(l, b, first, 0) =~= Seq::<Entry>::empty());
            assert(young =~= Seq::<Entry>::empty());
        }
        assert(nth(l, first, m as nat) == t);
        items_extend(l, b, first, m as nat);
        assert(items_from(l, b, first, (m + 1) as nat) == young + et);
        // The log before: the oldest page, the pages between, the packed pages.
        log_before_commit(l, a, head);
        items_split(l, a, l.succ(s), (n2 - m) as nat, m as nat);
        nth_closed(l, l.succ(s), (n2 - m) as nat);
        if m > 0 {
            assert(nth(l, l.succ(s), (n2 - m) as nat) == back(l, head, m - 1));
        } else {
            assert(items_from(l, a, nth(l, l.succ(s), (n2 - m) as nat), 0) =~= Seq::<
                Entry,
            >::empty());
        }
        let mid = front + young;
        assert(items_from(l, a, l.succ(s), n2) == mid);
        assert(log_of(l, a) == es + mid);
        // The items of the oldest page are all different, and none is an
        // item of another page.
        page_places(l, a, s);
        assert forall|j: nat| j < n2 implies #[trigger] nth(l, l.succ(s), j) != s by {
            nth_closed(l, l.succ(s), j);
        }
        items_elsewhere(l, a, l.succ(s), n2, s);
        single_joined::<I>(es, front, young, et);
    }
}

/// A blank page is blank behind its items: it has none.
pub proof fn blank_is_clean(l: Layout, c: Seq<u8>, p: int)
    requires
        l.wf(),
        0 <= p < l.pages,
        l.base + l.pages * l.page <= c.len(),
        all_ones(l.page_at(c, p)),
    ensures
        clean(l, c, p),
{
    let pg = l.page_at(c, p);
    let w = l.word as int;
    l.page_len(c, p);
    stop_bounds(pg, w, 2 * w);
    assert(pg.subrange(0, l.page as int) =~= pg);
    ones_within(pg, 0, l.page as int, stop(pg, w, 2 * w), l.page as int);
}

/// A page stays blank behind its items where only its header changes.
pub proof fn clean_by_body(l: Layout, a: Seq<u8>, b: Seq<u8>, p: int)
    requires
        l.wf(),
        0 <= p < l.pages,
        l.base + l.pages * l.page <= a.len(),
        a.len() == b.len(),
        clean(l, a, p),
        l.page_at(b, p).subrange(2 * l.word, l.page as int) == l.page_at(a, p).subrange(
            2 * l.word,
            l.page as int,
        ),
    ensures
        clean(l, b, p),
{
    let pa = l.page_at(a, p);
    let pb = l.page_at(b, p);
    let w = l.word as int;
    l.page_len(a, p);
    l.page_len(b, p);
    assert forall|i: int| 2 * w <= i < pa.len() implies pa[i] == pb[i] by {
        assert(pa.subrange(2 * w, l.page as int)[i - 2 * w] == pb.subrange(2 * w, l.page as int)[i
            - 2 * w]);
    }
    parse_local(pa, pb, w, p, 2 * w);
    stop_bounds(pa, w, 2 * w);
    let at = stop(pa, w, 2 * w);
    assert(pb.subrange(at, l.page as int) =~= pa.subrange(at, l.page as int));
}

} // verus!
