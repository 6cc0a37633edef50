//! When a store has no room for an item whatever it reclaims: its head takes
//! the item no more, and no page of its log has room for it once the items
//! that are no longer live are dropped. This is decided by the flash alone.

use crate::append::lands;
use crate::find::last_for_concat;
use crate::frame::frame_size;
use crate::full::{
    crowded, extent, last_for_only, single_is_live, stop_extent, survivors_all, tight,
};
use crate::header::PageState;
use crate::item::{wants, StorageItem};
use crate::layout::{others_kept, Layout};
use crate::pack::{back, items_elsewhere, items_split, page_places, run_keep, survivors_apart};
use crate::ring::{
    head_in_range, head_of, items_from, items_keep, last_for, last_for_is_in, log_of, nth,
    nth_closed, page_items, states_of,
};
use crate::rotate::{
    copies, is_live, last_for_some, log_after_commit, log_before_commit, survivors, survivors_from,
};
use crate::scan::{parse_local, Entry};
use vstd::prelude::*;

verus! {

/// The bytes that the frames of the payloads `ds` take together.
pub open spec fn weight(ds: Seq<Seq<u8>>, w: int) -> int
    decreases ds.len(),
{
    if ds.len() == 0 {
        0
    } else {
        weight(ds.drop_last(), w) + frame_size(ds.last().len() as int, w)
    }
}

/// The bytes that the frames of the live items of page `p` take together.
pub open spec fn live_weight<I: StorageItem>(l: Layout, c: Seq<u8>, p: int) -> int {
    weight(survivors::<I>(page_items(l, c, p), log_of(l, c)), l.word as int)
}

/// A page that holds the live items of page `p` and nothing else has less
/// than `room` bytes left.
pub open spec fn heavy<I: StorageItem>(l: Layout, c: Seq<u8>, p: int, room: int) -> bool {
    2 * l.word + live_weight::<I>(l, c, p) + room > l.page
}

/// The store has no room for an item with a payload of `n` bytes, whatever
/// it reclaims: a partially open head does not take the item, and every page
/// of the log is heavy with live items.
pub open spec fn jammed<I: StorageItem>(l: Layout, c: Seq<u8>, n: int) -> bool {
    &&& l.wf()
    &&& l.base + l.pages * l.page <= c.len()
    &&& head_of(l, states_of(l, c)) matches Some(h) && {
        &&& states_of(l, c)[h] == PageState::PartialOpen ==> !lands(l, c, h, n)
        &&& forall|p: int|
            0 <= p < l.pages && p != l.succ(h) ==> #[trigger] heavy::<I>(
                l,
                c,
                p,
                frame_size(n, l.word as int),
            )
    }
}

/// Copies take the bytes that their payloads weigh.
pub proof fn weight_copies(et: Seq<Entry>, ds: Seq<Seq<u8>>, w: int)
    requires
        et.len() == ds.len(),
        forall|i: int| 0 <= i < et.len() ==> (#[trigger] et[i]).data == ds[i],
    ensures
        extent(et, w) == weight(ds, w),
    decreases et.len(),
{
    if et.len() > 0 {
        assert(et.last().data == ds[et.len() - 1]);
        assert(ds.last() == ds[ds.len() - 1]);
        assert forall|i: int| 0 <= i < et.drop_last().len() implies (
        #[trigger] et.drop_last()[i]).data == ds.drop_last()[i] by {
            assert(et.drop_last()[i] == et[i]);
        }
        weight_copies(et.drop_last(), ds.drop_last(), w);
    }
}

/// Entries that are live in two logs alike survive in both alike.
pub proof fn survivors_cong<I: StorageItem>(es: Seq<Entry>, first: Seq<Entry>, second: Seq<Entry>)
    requires
        forall|i: int|
            0 <= i < es.len() ==> is_live::<I>(first, #[trigger] es[i]) == is_live::<I>(
                second,
                es[i],
            ),
    ensures
        survivors::<I>(es, first) == survivors::<I>(es, second),
    decreases es.len(),
{
    if es.len() > 0 {
        assert(es[es.len() - 1] == es.last());
        assert(is_live::<I>(first, es[es.len() - 1]) == is_live::<I>(second, es[es.len() - 1]));
        assert forall|i: int| 0 <= i < es.drop_last().len() implies is_live::<I>(
            first,
            #[trigger] es.drop_last()[i],
        ) == is_live::<I>(second, es.drop_last()[i]) by {
            assert(es.drop_last()[i] == es[i]);
        }
        survivors_cong::<I>(es.drop_last(), first, second);
    }
}

/// Reclaiming the oldest page changes nothing for the items of the other
/// pages: each is live behind the copies as it was live behind the page.
pub proof fn live_across<I: StorageItem>(
    es: Seq<Entry>,
    mid: Seq<Entry>,
    et: Seq<Entry>,
    x: Entry,
)
    requires
        copies(et, survivors::<I>(es, es + mid)),
        mid.contains(x),
        forall|a: int, b: int|
            0 <= a < es.len() && 0 <= b < mid.len() ==> (#[trigger] es[a]) != (#[trigger] mid[b]),
        forall|a: int, b: int|
            0 <= a < et.len() && 0 <= b < mid.len() ==> (#[trigger] et[a]) != (#[trigger] mid[b]),
    ensures
        is_live::<I>(es + mid, x) == is_live::<I>(mid + et, x),
{
    if x.present {
        if let Some(k) = I::key_in(x.data) {
            let want = wants::<I>(k);
            let log = es + mid;
            let ds = survivors::<I>(es, log);
            let ix = choose|i: int| 0 <= i < mid.len() && mid[i] == x;
            last_for_concat(es, mid, want);
            last_for_concat(mid, et, want);
            last_for_is_in(et, want);
            last_for_is_in(mid, want);
            last_for_some(mid, want, ix);
            let z = last_for(mid, want).unwrap();
            assert(last_for(log, want) == Some(z));
            match last_for(et, want) {
                Some(y) => {
                    let i = choose|i: int| 0 <= i < et.len() && et[i] == y;
                    assert(last_for(mid + et, want) == Some(y));
                    assert(et[i] != mid[ix]);
                    assert(et[i].data == ds[i]);
                    survivors_from::<I>(es, log, i);
                    let a = choose|a: int|
                        0 <= a < es.len() && is_live::<I>(log, #[trigger] es[a]) && es[a].data
                            == ds[i];
                    assert(I::key_in(es[a].data) == Some(k));
                    assert(last_for(log, want) == Some(es[a]));
                    let b = choose|b: int| 0 <= b < mid.len() && mid[b] == z;
                    assert(es[a] == mid[b]);
                },
                None => {
                    assert(last_for(mid + et, want) == Some(z));
                },
            }
        }
    }
}

/// The copies of the live items of the oldest page are live behind the other
/// pages.
pub proof fn copies_live<I: StorageItem>(es: Seq<Entry>, mid: Seq<Entry>, et: Seq<Entry>, i: int)
    requires
        copies(et, survivors::<I>(es, es + mid)),
        0 <= i < et.len(),
        forall|a: int, b: int| 0 <= a < b < es.len() ==> (#[trigger] es[a]) != (#[trigger] es[b]),
        forall|a: int, b: int|
            0 <= a < es.len() && 0 <= b < mid.len() ==> (#[trigger] es[a]) != (#[trigger] mid[b]),
    ensures
        is_live::<I>(mid + et, et[i]),
{
    let log = es + mid;
    let ds = survivors::<I>(es, log);
    assert(et[i].present && et[i].data == ds[i]);
    survivors_from::<I>(es, log, i);
    let a = choose|a: int|
        0 <= a < es.len() && is_live::<I>(log, #[trigger] es[a]) && es[a].data == ds[i];
    let k = I::key_in(es[a].data).unwrap();
    let want = wants::<I>(k);
    last_for_concat(es, mid, want);
    last_for_is_in(mid, want);
    if let Some(z) = last_for(mid, want) {
        let b = choose|b: int| 0 <= b < mid.len() && mid[b] == z;
        assert(last_for(log, want) == Some(z));
        assert(es[a] == mid[b]);
    }
    assert(last_for(mid, want) is None);
    assert forall|j: int| 0 <= j < et.len() && j != i implies !want((#[trigger] et[j]).data) by {
        assert(et[j].data == ds[j]);
        if i < j {
            survivors_apart::<I>(es, log, i, j);
        } else {
            survivors_apart::<I>(es, log, j, i);
        }
    }
    last_for_only(et, want, i);
    last_for_concat(mid, et, want);
}

/// Every item of a page of a run of pages is an item of the run.
pub proof fn page_in_run(l: Layout, c: Seq<u8>, first: int, n: nat, j: nat, i: int)
    requires
        l.wf(),
        0 <= first < l.pages,
        j < n <= l.pages,
        0 <= i < page_items(l, c, nth(l, first, j)).len(),
    ensures
        items_from(l, c, first, n).contains(page_items(l, c, nth(l, first, j))[i]),
{
    items_split(l, c, first, j, (n - j) as nat);
    let q = nth(l, first, j);
    let front = items_from(l, c, first, j);
    let rest = items_from(l, c, q, (n - j) as nat);
    let all = items_from(l, c, first, n);
    assert(all == front + rest);
    assert(rest == page_items(l, c, q) + items_from(l, c, l.succ(q), (n - j - 1) as nat));
    assert(rest[i] == page_items(l, c, q)[i]);
    assert(all[front.len() + i] == page_items(l, c, q)[i]);
}

/// Whether a store is jammed is not changed by what becomes of the page
/// behind its head.
pub proof fn jammed_junk<I: StorageItem>(l: Layout, a: Seq<u8>, b: Seq<u8>, n: int)
    requires
        l.wf(),
        l.base + l.pages * l.page <= a.len(),
        a.len() == b.len(),
        head_of(l, states_of(l, a)) is Some,
        head_of(l, states_of(l, b)) == head_of(l, states_of(l, a)),
        others_kept(l, a, b, l.succ(head_of(l, states_of(l, a)).unwrap())),
    ensures
        jammed::<I>(l, a, n) == jammed::<I>(l, b, n),
{
    let h = head_of(l, states_of(l, a)).unwrap();
    head_in_range(l, states_of(l, a));
    assert(l.page_at(b, h) == l.page_at(a, h));
    assert forall|k: int| 0 <= k < l.pages - 1 implies #[trigger] page_items(l, b, back(l, h, k))
        == page_items(l, a, back(l, h, k)) by {
        let p = back(l, h, k);
        assert(0 <= p < l.pages && p != l.succ(h));
        assert(l.page_at(b, p) == l.page_at(a, p));
    }
    run_keep(l, a, b, h, l.pages - 1);
    assert(back(l, h, l.pages - 2) == l.succ(l.succ(h)));
    assert(log_of(l, b) == log_of(l, a));
    assert forall|p: int| 0 <= p < l.pages && p != l.succ(h) implies heavy::<I>(
        l,
        b,
        p,
        frame_size(n, l.word as int),
    ) == heavy::<I>(l, a, p, frame_size(n, l.word as int)) by {
        assert(l.page_at(b, p) == l.page_at(a, p));
    }
}

/// Closing the head does not jam a store, nor free one whose head took the
/// item no more.
pub proof fn jammed_closed<I: StorageItem>(l: Layout, a: Seq<u8>, b: Seq<u8>, n: int)
    requires
        l.wf(),
        l.base + l.pages * l.page <= a.len(),
        a.len() == b.len(),
        head_of(l, states_of(l, a)) is Some,
        head_of(l, states_of(l, b)) == head_of(l, states_of(l, a)),
        states_of(l, a)[head_of(l, states_of(l, a)).unwrap()] == PageState::PartialOpen,
        states_of(l, b) == states_of(l, a).update(
            head_of(l, states_of(l, a)).unwrap(),
            PageState::Closed,
        ),
        others_kept(l, a, b, head_of(l, states_of(l, a)).unwrap()),
        l.page_at(b, head_of(l, states_of(l, a)).unwrap()).subrange(2 * l.word, l.page as int)
            == l.page_at(a, head_of(l, states_of(l, a)).unwrap()).subrange(
            2 * l.word,
            l.page as int,
        ),
    ensures
        jammed::<I>(l, a, n) ==> jammed::<I>(l, b, n),
        jammed::<I>(l, b, n) && !lands(l, a, head_of(l, states_of(l, a)).unwrap(), n) ==> jammed::<
            I,
        >(l, a, n),
{
    let h = head_of(l, states_of(l, a)).unwrap();
    head_in_range(l, states_of(l, a));
    let w = l.word as int;
    let pa = l.page_at(a, h);
    let pb = l.page_at(b, h);
    l.page_len(a, h);
    l.page_len(b, h);
    assert forall|i: int| 2 * w <= i < pa.len() implies pa[i] == pb[i] by {
        assert(pa.subrange(2 * w, l.page as int)[i - 2 * w] == pb.subrange(2 * w, l.page as int)[i
            - 2 * w]);
    }
    parse_local(pa, pb, w, h, 2 * w);
    assert(states_of(l, b)[h] == PageState::Closed);
    assert(page_items(l, b, h) == page_items(l, a, h));
    assert forall|k: int| 0 <= k < l.pages - 1 implies #[trigger] page_items(l, b, back(l, h, k))
        == page_items(l, a, back(l, h, k)) by {
        let p = back(l, h, k);
        assert(0 <= p < l.pages);
        if p != h {
            assert(l.page_at(b, p) == l.page_at(a, p));
        }
    }
    run_keep(l, a, b, h, l.pages - 1);
    assert(back(l, h, l.pages - 2) == l.succ(l.succ(h)));
    assert(log_of(l, b) == log_of(l, a));
    assert forall|p: int| 0 <= p < l.pages && p != l.succ(h) implies heavy::<I>(
        l,
        b,
        p,
        frame_size(n, l.word as int),
    ) == heavy::<I>(l, a, p, frame_size(n, l.word as int)) by {
        if p != h {
            assert(l.page_at(b, p) == l.page_at(a, p));
        }
    }
}

/// Making the page behind the closed head the head, filled with copies of
/// the live items of the oldest page, neither jams a store nor frees one.
pub proof fn jammed_commit<I: StorageItem>(l: Layout, a: Seq<u8>, b: Seq<u8>, n: int)
    requires
        l.wf(),
        l.base + l.pages * l.page <= a.len(),
        a.len() == b.len(),
        head_of(l, states_of(l, a)) matches Some(head) && {
            let t = l.succ(head);
            let s = l.succ(t);
            &&& states_of(l, a)[head] == PageState::Closed
            &&& head_of(l, states_of(l, b)) == Some(t)
            &&& states_of(l, b) == states_of(l, a).update(t, PageState::PartialOpen)
            &&& others_kept(l, a, b, t)
            &&& copies(page_items(l, b, t), survivors::<I>(page_items(l, a, s), log_of(l, a)))
        },
    ensures
        jammed::<I>(l, a, n) == jammed::<I>(l, b, n),
{
    let head = head_of(l, states_of(l, a)).unwrap();
    head_in_range(l, states_of(l, a));
    head_in_range(l, states_of(l, b));
    let t = l.succ(head);
    let s = l.succ(t);
    let w = l.word as int;
    let room = frame_size(n, w);
    let start = l.succ(s);
    let n2 = (l.pages - 2) as nat;
    let es = page_items(l, a, s);
    let mid = items_from(l, a, start, n2);
    let et = page_items(l, b, t);
    let la = log_of(l, a);
    let lb = log_of(l, b);
    let ds = survivors::<I>(es, la);
    log_before_commit(l, a, head);
    log_after_commit(l, b, t);
    assert forall|j: nat| j < n2 implies page_items(l, b, #[trigger] nth(l, start, j))
        == page_items(l, a, nth(l, start, j)) by {
        nth_closed(l, start, j);
        assert(l.page_at(b, nth(l, start, j)) == l.page_at(a, nth(l, start, j)));
    }
    items_keep(l, a, b, start, n2);
    assert(la == es + mid);
    assert(lb == mid + et);
    // No item of one page is an item of another.
    page_places(l, a, s);
    page_places(l, b, t);
    assert forall|j: nat| j < n2 implies #[trigger] nth(l, start, j) != s && nth(l, start, j)
        != t by {
        nth_closed(l, start, j);
    }
    items_elsewhere(l, a, start, n2, s);
    items_elsewhere(l, a, start, n2, t);
    // The copies weigh what the live items of the oldest page weigh.
    assert forall|i: int| 0 <= i < et.len() implies is_live::<I>(lb, #[trigger] et[i]) by {
        copies_live::<I>(es, mid, et, i);
    }
    survivors_all::<I>(et, lb);
    assert(survivors::<I>(et, lb) =~= ds);
    assert(live_weight::<I>(l, b, t) == live_weight::<I>(l, a, s));
    // The other pages weigh what they weighed.
    assert forall|p: int| 0 <= p < l.pages && p != s && p != t implies live_weight::<I>(l, b, p)
        == live_weight::<I>(l, a, p) by {
        let j = (if p - start >= 0 {
            p - start
        } else {
            p - start + l.pages
        }) as nat;
        nth_closed(l, start, j);
        assert(nth(l, start, j) == p);
        assert(l.page_at(b, p) == l.page_at(a, p));
        let ps = page_items(l, a, p);
        assert forall|i: int| 0 <= i < ps.len() implies is_live::<I>(la, #[trigger] ps[i])
            == is_live::<I>(lb, ps[i]) by {
            page_in_run(l, a, start, n2, j, i);
            live_across::<I>(es, mid, et, ps[i]);
        }
        survivors_cong::<I>(ps, la, lb);
    }
    // A head that is heavy with its copies takes the item no more.
    if heavy::<I>(l, b, t, room) {
        stop_extent(l.page_at(b, t), w, t, 2 * w);
        weight_copies(et, ds, w);
    }
    if jammed::<I>(l, a, n) {
        assert(heavy::<I>(l, a, s, room));
        assert forall|p: int| 0 <= p < l.pages && p != l.succ(t) implies #[trigger] heavy::<I>(
            l,
            b,
            p,
            room,
        ) by {
            if p != t {
                assert(heavy::<I>(l, a, p, room));
            }
        }
    }
    if jammed::<I>(l, b, n) {
        assert(heavy::<I>(l, b, t, room));
        assert forall|p: int| 0 <= p < l.pages && p != l.succ(head) implies #[trigger] heavy::<I>(
            l,
            a,
            p,
            room,
        ) by {
            if p != s {
                assert(heavy::<I>(l, b, p, room));
            }
        }
    }
}

/// A store that is full is jammed.
pub proof fn crowded_jammed<I: StorageItem>(l: Layout, c: Seq<u8>, n: int)
    requires
        crowded::<I>(l, c, frame_size(n, l.word as int)),
    ensures
        jammed::<I>(l, c, n),
{
    let h = head_of(l, states_of(l, c)).unwrap();
    head_in_range(l, states_of(l, c));
    let w = l.word as int;
    let room = frame_size(n, w);
    let log = log_of(l, c);
    let start = l.succ(l.succ(h));
    assert forall|p: int| 0 <= p < l.pages && p != l.succ(h) implies #[trigger] heavy::<I>(
        l,
        c,
        p,
        room,
    ) by {
        assert(tight(l, c, p, room));
        let ps = page_items(l, c, p);
        let j = (if p - start >= 0 {
            p - start
        } else {
            p - start + l.pages
        }) as nat;
        nth_closed(l, start, j);
        assert(nth(l, start, j) == p);
        assert forall|i: int| 0 <= i < ps.len() implies is_live::<I>(log, #[trigger] ps[i]) by {
            page_in_run(l, c, start, (l.pages - 1) as nat, j, i);
            let x = choose|x: int| 0 <= x < log.len() && log[x] == ps[i];
            single_is_live::<I>(log, x);
        }
        survivors_all::<I>(ps, log);
        weight_copies(ps, survivors::<I>(ps, log), w);
        stop_extent(l.page_at(c, p), w, p, 2 * w);
    }
    assert(tight(l, c, h, room));
}

} // verus!
