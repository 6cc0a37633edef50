//! Removing the items of a key: every present item of the key gets a
//! tombstone, oldest first.

use crate::flash::{drawn, lasts, mended, spared, splice, tolled, NorFlash};
use crate::frame::{frame_size, mark_tombstone, pad, pad_bounds, slot_at, tombstoned, Frame};
use crate::header::{state_by_markers, zeros};
use crate::item::{balked, cut, short, wants, Error, StorageItem, StorageKey};
use crate::layout::{others_kept, Layout};
use crate::ring::{
    head_in_range, head_of, items_from, keys_agree, last_for, last_for_is_in, live_in, log_of,
    lookup, nth, nth_closed, page_items, states_of,
};
use crate::scan::{
    entry_at, has_room, item_len, item_span, parse, parse_ends, parse_local, reach, reach_local,
    reach_step, reach_then_parse, roomy, span_shape, Entry, PageScanner,
};
use vstd::prelude::*;
use vstd::slice::slice_subrange;

verus! {

/// The entry `e`, removed.
pub open spec fn dead(e: Entry) -> Entry {
    Entry { page: e.page, at: e.at, present: false, data: e.data }
}

/// `b` is `a` with some of the entries that `want` accepts removed.
pub open spec fn killed(a: Seq<Entry>, b: Seq<Entry>, want: spec_fn(Seq<u8>) -> bool) -> bool {
    &&& a.len() == b.len()
    &&& forall|i: int|
        0 <= i < a.len() ==> #[trigger] b[i] == a[i] || (want(a[i].data) && b[i] == dead(a[i]))
}

/// No entry of `es` that `want` accepts is present.
pub open spec fn all_gone(es: Seq<Entry>, want: spec_fn(Seq<u8>) -> bool) -> bool {
    forall|i: int| 0 <= i < es.len() && want((#[trigger] es[i]).data) ==> !es[i].present
}

/// Removing more after removing some is removing some.
pub proof fn killed_trans(
    a: Seq<Entry>,
    b: Seq<Entry>,
    c: Seq<Entry>,
    want: spec_fn(Seq<u8>) -> bool,
)
    requires
        killed(a, b, want),
        killed(b, c, want),
    ensures
        killed(a, c, want),
{
    assert forall|i: int| 0 <= i < a.len() implies #[trigger] c[i] == a[i] || (want(a[i].data)
        && c[i] == dead(a[i])) by {
        assert(b[i] == a[i] || (want(a[i].data) && b[i] == dead(a[i])));
    }
}

/// Removing in two runs is removing in their concatenation.
pub proof fn killed_concat(
    a1: Seq<Entry>,
    b1: Seq<Entry>,
    a2: Seq<Entry>,
    b2: Seq<Entry>,
    want: spec_fn(Seq<u8>) -> bool,
)
    requires
        killed(a1, b1, want),
        killed(a2, b2, want),
    ensures
        killed(a1 + a2, b1 + b2, want),
{
    let a = a1 + a2;
    let b = b1 + b2;
    assert forall|i: int| 0 <= i < a.len() implies #[trigger] b[i] == a[i] || (want(a[i].data)
        && b[i] == dead(a[i])) by {
        if i < a1.len() {
            assert(b1[i] == a1[i] || (want(a1[i].data) && b1[i] == dead(a1[i])));
        } else {
            let j = i - a1.len();
            assert(b2[j] == a2[j] || (want(a2[j].data) && b2[j] == dead(a2[j])));
        }
    }
}

/// What was gone stays gone.
pub proof fn gone_stays(a: Seq<Entry>, b: Seq<Entry>, want: spec_fn(Seq<u8>) -> bool)
    requires
        killed(a, b, want),
        all_gone(a, want),
    ensures
        all_gone(b, want),
{
    assert forall|i: int| 0 <= i < b.len()
        && want((#[trigger] b[i]).data) implies !b[i].present by {
        assert(b[i] == a[i] || (want(a[i].data) && b[i] == dead(a[i])));
    }
}

/// Removing entries of one kind leaves the last entry of any other kind as it
/// was.
pub proof fn killed_keeps_others(
    a: Seq<Entry>,
    b: Seq<Entry>,
    want: spec_fn(Seq<u8>) -> bool,
    other: spec_fn(Seq<u8>) -> bool,
)
    requires
        killed(a, b, want),
        forall|d: Seq<u8>| #[trigger] want(d) ==> !other(d),
    ensures
        last_for(b, other) == last_for(a, other),
    decreases a.len(),
{
    if a.len() > 0 {
        assert(b.last() == a.last() || (want(a.last().data) && b.last() == dead(a.last()))) by {
            assert(b[a.len() - 1] == b.last());
        }
        assert(killed(a.drop_last(), b.drop_last(), want)) by {
            assert forall|i: int| 0 <= i < a.len() - 1 implies #[trigger] b.drop_last()[i]
                == a.drop_last()[i] || (want(a.drop_last()[i].data) && b.drop_last()[i] == dead(
                a.drop_last()[i],
            )) by {
                assert(b[i] == a[i] || (want(a[i].data) && b[i] == dead(a[i])));
            }
        }
        killed_keeps_others(a.drop_last(), b.drop_last(), want, other);
    }
}

/// After removing entries of a kind, the live entry of that kind is the one
/// that was live before, or none.
pub proof fn killed_live(a: Seq<Entry>, b: Seq<Entry>, want: spec_fn(Seq<u8>) -> bool)
    requires
        killed(a, b, want),
    ensures
        live_in(b, want) is None || live_in(b, want) == live_in(a, want),
        all_gone(b, want) ==> live_in(b, want) is None,
    decreases a.len(),
{
    last_for_is_in(b, want);
    if a.len() > 0 {
        assert(b.last() == a.last() || (want(a.last().data) && b.last() == dead(a.last()))) by {
            assert(b[a.len() - 1] == b.last());
        }
        if !want(a.last().data) {
            assert(killed(a.drop_last(), b.drop_last(), want)) by {
                assert forall|i: int| 0 <= i < a.len() - 1 implies #[trigger] b.drop_last()[i]
                    == a.drop_last()[i] || (want(a.drop_last()[i].data) && b.drop_last()[i]
                    == dead(a.drop_last()[i])) by {
                    assert(b[i] == a[i] || (want(a[i].data) && b[i] == dead(a[i])));
                }
            }
            killed_live(a.drop_last(), b.drop_last(), want);
            assert(all_gone(b, want) ==> all_gone(b.drop_last(), want)) by {
                if all_gone(b, want) {
                    assert forall|i: int|
                        0 <= i < b.drop_last().len() && want(
                            (#[trigger] b.drop_last()[i]).data,
                        ) implies !b.drop_last()[i].present by {
                        assert(b.drop_last()[i] == b[i]);
                    }
                }
            }
        }
    }
}

/// Where every page of a run had some entries removed, the run had.
pub proof fn items_killed(
    l: Layout,
    a: Seq<u8>,
    b: Seq<u8>,
    p: int,
    count: nat,
    want: spec_fn(Seq<u8>) -> bool,
)
    requires
        forall|j: nat|
            j < count ==> killed(
                page_items(l, a, #[trigger] nth(l, p, j)),
                page_items(l, b, nth(l, p, j)),
                want,
            ),
    ensures
        killed(items_from(l, a, p, count), items_from(l, b, p, count), want),
    decreases count,
{
    if count > 0 {
        assert(nth(l, p, 0) == p);
        assert forall|j: nat| j < count - 1 implies killed(
            page_items(l, a, #[trigger] nth(l, l.succ(p), j)),
            page_items(l, b, nth(l, l.succ(p), j)),
            want,
        ) by {
            assert(nth(l, p, j + 1) == nth(l, l.succ(p), j));
        }
        items_killed(l, a, b, l.succ(p), (count - 1) as nat, want);
        killed_concat(
            page_items(l, a, p),
            page_items(l, b, p),
            items_from(l, a, l.succ(p), (count - 1) as nat),
            items_from(l, b, l.succ(p), (count - 1) as nat),
            want,
        );
    }
}

/// Where no page of a run holds a present entry of a kind, the run holds
/// none.
pub proof fn items_gone(
    l: Layout,
    c: Seq<u8>,
    p: int,
    count: nat,
    want: spec_fn(Seq<u8>) -> bool,
)
    requires
        forall|j: nat| j < count ==> all_gone(page_items(l, c, #[trigger] nth(l, p, j)), want),
    ensures
        all_gone(items_from(l, c, p, count), want),
    decreases count,
{
    if count > 0 {
        assert(nth(l, p, 0) == p);
        assert forall|j: nat| j < count - 1 implies all_gone(
            page_items(l, c, #[trigger] nth(l, l.succ(p), j)),
            want,
        ) by {
            assert(nth(l, p, j + 1) == nth(l, l.succ(p), j));
        }
        items_gone(l, c, l.succ(p), (count - 1) as nat, want);
        let first = page_items(l, c, p);
        let rest = items_from(l, c, l.succ(p), (count - 1) as nat);
        let es = items_from(l, c, p, count);
        assert forall|i: int| 0 <= i < es.len()
            && want((#[trigger] es[i]).data) implies !es[i].present by {
            if i < first.len() {
                assert(es[i] == first[i]);
            } else {
                assert(es[i] == rest[i - first.len()]);
            }
        }
    }
}

/// A tombstone over the item at offset `at` removes that entry from the
/// items of the page and changes nothing else.
pub proof fn tomb_parse(
    pg: Seq<u8>,
    w: int,
    q: int,
    at: int,
    len: u32,
    want: spec_fn(Seq<u8>) -> bool,
)
    requires
        w >= 1,
        reach(pg, w, q, 2 * w, at) is Some,
        has_room(pg, w, at),
        2 * w <= at,
        slot_at(pg, w, at) == (Frame::Present { len }),
        want(entry_at(pg, w, q, at).data),
    ensures
        ({
            let after = splice(pg, at + w + pad(len as int, w), zeros(w));
            &&& killed(parse(pg, w, q, 2 * w), parse(after, w, q, 2 * w), want)
            &&& after.subrange(0, 2 * w) == pg.subrange(0, 2 * w)
            &&& reach(after, w, q, 2 * w, at + frame_size(len as int, w)) == Some(
                reach(pg, w, q, 2 * w, at).unwrap().push(dead(entry_at(pg, w, q, at))),
            )
        }),
{
    let size = frame_size(len as int, w);
    let after = splice(pg, at + w + pad(len as int, w), zeros(w));
    let es = reach(pg, w, q, 2 * w, at).unwrap();
    pad_bounds(len as int, w);
    tombstoned(pg, w, at, len);
    item_span(pg, w, at);
    assert(after.subrange(0, 2 * w) =~= pg.subrange(0, 2 * w));
    reach_local(pg, after, w, q, 2 * w, at);
    parse_local(pg, after, w, q, at + size);
    reach_step(pg, w, q, 2 * w, at);
    reach_step(after, w, q, 2 * w, at);
    reach_then_parse(pg, w, q, 2 * w, at + size);
    reach_then_parse(after, w, q, 2 * w, at + size);
    let rest = parse(pg, w, q, at + size);
    let e = entry_at(pg, w, q, at);
    assert(entry_at(after, w, q, at) == dead(e));
    let a = es.push(e) + rest;
    let b = es.push(dead(e)) + rest;
    assert forall|i: int| 0 <= i < a.len() implies #[trigger] b[i] == a[i] || (want(a[i].data)
        && b[i] == dead(a[i])) by {
        if i < es.len() {
            assert(a[i] == es[i] && b[i] == es[i]);
        } else if i == es.len() {
            assert(a[i] == e && b[i] == dead(e));
        } else {
            assert(a[i] == rest[i - es.len() - 1] && b[i] == rest[i - es.len() - 1]);
        }
    }
}

/// Puts a tombstone on every present item of `key` in page `q`.
pub fn kill_in_page<I: StorageItem, F: NorFlash>(
    flash: &mut F,
    l: &Layout,
    q: u32,
    buf: &mut [u8],
    key: I::Key,
) -> (r: Result<(), Error<I::Error>>)
    requires
        l.on(old(flash)),
        q < l.pages,
        old(buf)@.len() >= 2 * l.word,
    ensures
        l.on(final(flash)),
        final(flash).contents().len() == old(flash).contents().len(),
        final(buf)@.len() == old(buf)@.len(),
        others_kept(*l, old(flash).contents(), final(flash).contents(), q as int),
        l.page_at(final(flash).contents(), q as int).subrange(0, 2 * l.word) == l.page_at(
            old(flash).contents(),
            q as int,
        ).subrange(0, 2 * l.word),
        killed(
            parse(l.page_at(old(flash).contents(), q as int), l.word as int, q as int, 2 * l.word),
            parse(
                l.page_at(final(flash).contents(), q as int),
                l.word as int,
                q as int,
                2 * l.word,
            ),
            wants::<I>(key),
        ),
        r is Ok ==> all_gone(
            parse(
                l.page_at(final(flash).contents(), q as int),
                l.word as int,
                q as int,
                2 * l.word,
            ),
            wants::<I>(key),
        ),
        short(r) ==> old(buf)@.len() < l.page,
        roomy(
            l.page_at(old(flash).contents(), q as int),
            l.word as int,
            2 * l.word,
            old(buf)@.len() as int,
        ) ==> !short(r) && roomy(
            l.page_at(final(flash).contents(), q as int),
            l.word as int,
            2 * l.word,
            old(buf)@.len() as int,
        ),
        r matches Err(e) ==> e is Storage || e is BufferTooSmall,
        final(flash).rewrites() == old(flash).rewrites(),
        tolled(old(flash).losses(), final(flash).losses(), cut(r)),
        mended(
            old(flash).mends(),
            final(flash).mends(),
            final(flash).reserve(),
            cut(r),
        ),
        spared(old(flash).reserve(), final(flash).reserve(), l.page as int, cut(r)),
        old(flash).tidy() && old(flash).rewrites() ==> !balked(r) && final(flash).tidy(),
        all_gone(
            parse(l.page_at(old(flash).contents(), q as int), l.word as int, q as int, 2 * l.word),
            wants::<I>(key),
        ) ==> final(flash).contents() == old(flash).contents() && (roomy(
            l.page_at(old(flash).contents(), q as int),
            l.word as int,
            2 * l.word,
            old(buf)@.len() as int,
        ) ==> r is Ok),
{
    let ghost c0 = flash.contents();
    let ghost pg0 = l.page_at(c0, q as int);
    let ghost w = l.word as int;
    let ghost want = wants::<I>(key);
    let ghost mut es: Seq<Entry> = Seq::empty();
    let wu: usize = l.word as usize;
    let mut sc = PageScanner::new(l, q);
    proof {
        l.page_len(c0, q as int);
    }
    while sc.end.is_none()
        invariant
            l.on(flash),
            flash.contents().len() == c0.len(),
            q < l.pages,
            pg0 == l.page_at(c0, q as int),
            c0 == old(flash).contents(),
            pg0.len() == l.page,
            l.page_at(flash.contents(), q as int).len() == l.page,
            w == l.word,
            wu == l.word,
            want == wants::<I>(key),
            sc.wf(l),
            sc.page == q,
            buf@.len() == old(buf)@.len(),
            buf@.len() >= 2 * l.word,
            others_kept(*l, c0, flash.contents(), q as int),
            l.page_at(flash.contents(), q as int).subrange(0, 2 * w) == pg0.subrange(0, 2 * w),
            killed(
                parse(pg0, w, q as int, 2 * w),
                parse(l.page_at(flash.contents(), q as int), w, q as int, 2 * w),
                want,
            ),
            reach(l.page_at(flash.contents(), q as int), w, q as int, 2 * w, sc.off as int)
                == Some(es),
            all_gone(es, want),
            flash.rewrites() == old(flash).rewrites(),
            flash.losses() == old(flash).losses(),
            old(flash).mends() ==> flash.mends(),
            lasts(old(flash).reserve(), l.page as int) ==> drawn(
                old(flash).reserve(),
                flash.reserve(),
                sc.off - 2 * l.word,
            ),
            old(flash).tidy() && old(flash).rewrites() ==> flash.tidy(),
            all_gone(parse(pg0, w, q as int, 2 * w), want) ==> flash.contents() == c0,
            roomy(pg0, w, 2 * w, buf@.len() as int) ==> roomy(
                l.page_at(flash.contents(), q as int),
                w,
                2 * w,
                buf@.len() as int,
            ) && roomy(
                l.page_at(flash.contents(), q as int),
                w,
                sc.off as int,
                buf@.len() as int,
            ),
            sc.end is Some ==> !has_room(
                l.page_at(flash.contents(), q as int),
                w,
                sc.off as int,
            ) || item_len(slot_at(l.page_at(flash.contents(), q as int), w, sc.off as int))
                is None,
        decreases l.page - sc.off + (if sc.end is None { 1int } else { 0int }),
    {
        let ghost c = flash.contents();
        let ghost pg = l.page_at(c, q as int);
        match sc.next(flash, l, buf) {
            Err(_) => {
                proof {
                    span_shape(pg, w, sc.off as int);
                }
                return Err(Error::BufferTooSmall);
            },
            Ok(None) => {},
            Ok(Some((at, f))) => {
                match f {
                    Frame::Present { len } => {
                        proof {
                            item_span(pg, w, at as int);
                            pad_bounds(len as int, w);
                            reach_step(pg, w, q as int, 2 * w, at as int);
                        }
                        let k = I::deserialize_key_only(slice_subrange(buf, wu, wu + len as usize));
                        let hit: bool = match k {
                            Ok(k) => k.same(&key),
                            Err(_) => false,
                        };
                        let ghost e = entry_at(pg, w, q as int, at as int);
                        proof {
                            if hit && all_gone(parse(pg0, w, q as int, 2 * w), want) {
                                // A present item of the key among items of which
                                // none of the key is present.
                                reach_then_parse(
                                    pg,
                                    w,
                                    q as int,
                                    2 * w,
                                    at + frame_size(len as int, w),
                                );
                                assert(parse(pg0, w, q as int, 2 * w)[es.len() as int] == e);
                                assert(false);
                            }
                        }
                        if hit {
                            proof {
                                crate::scan::sum_aligned(w, w, w);
                                crate::scan::reach_aligned(pg, w, q as int, 2 * w, at as int);
                                crate::scan::frame_aligned(len as int, w);
                                crate::scan::sum_aligned(
                                    at as int,
                                    w + pad(len as int, w),
                                    w,
                                );
                                let cw = pg.subrange(
                                    at + w + pad(len as int, w),
                                    at + frame_size(len as int, w),
                                );
                                assert(!crate::flash::all_zeros(cw));
                                assert(zeros(w)[0] == 0u8);
                                assert(crate::flash::all_zeros(zeros(w)));
                                if flash.rewrites() {
                                    assert(crate::flash::fair(
                                        pg,
                                        w,
                                        flash.rewrites(),
                                        at + w + pad(len as int, w),
                                        zeros(w),
                                    ));
                                }
                            }
                            let r = mark_tombstone(flash, l, q, at, len, buf);
                            proof {
                                let c2 = flash.contents();
                                let pg2 = l.page_at(c2, q as int);
                                l.page_len(c2, q as int);
                                tomb_parse(pg, w, q as int, at as int, len, want);
                                if roomy(pg, w, 2 * w, buf@.len() as int) {
                                    roomy_tomb(pg, w, q as int, at as int, len, buf@.len() as int);
                                }
                                assert forall|x: int| 0 <= x < l.pages && x != q implies l.page_at(
                                    c2,
                                    x,
                                ) == l.page_at(c0, x) by {
                                    assert(l.page_at(c2, x) == l.page_at(c, x));
                                }
                                if pg2 == pg {
                                } else {
                                    killed_trans(
                                        parse(pg0, w, q as int, 2 * w),
                                        parse(pg, w, q as int, 2 * w),
                                        parse(pg2, w, q as int, 2 * w),
                                        want,
                                    );
                                }
                            }
                            match r {
                                Err(e) => {
                                    return Err(Error::Storage(e));
                                },
                                Ok(()) => {},
                            }
                            proof {
                                es = es.push(dead(e));
                            }
                        } else {
                            proof {
                                es = es.push(e);
                            }
                        }
                    },
                    Frame::Tombstone { len } => {
                        proof {
                            reach_step(pg, w, q as int, 2 * w, at as int);
                            es = es.push(entry_at(pg, w, q as int, at as int));
                        }
                    },
                    _ => {},
                }
            },
        }
    }
    proof {
        let pg = l.page_at(flash.contents(), q as int);
        reach_then_parse(pg, w, q as int, 2 * w, sc.off as int);
        parse_ends(pg, w, q as int, sc.off as int);
        assert(es + Seq::<Entry>::empty() =~= es);
    }
    Ok(())
}

/// The store `b` is the store `a` with some items of the kind `want`
/// removed: the pages are in the same states, and every page holds the items
/// it held, some of that kind removed.
pub open spec fn pages_killed(l: Layout, a: Seq<u8>, b: Seq<u8>, want: spec_fn(Seq<u8>) -> bool)
    -> bool {
    &&& states_of(l, a) == states_of(l, b)
    &&& forall|x: int|
        0 <= x < l.pages ==> killed(
            #[trigger] page_items(l, a, x),
            page_items(l, b, x),
            want,
        )
}

/// A store is itself with nothing removed.
pub proof fn pages_killed_refl(l: Layout, a: Seq<u8>, want: spec_fn(Seq<u8>) -> bool)
    ensures
        pages_killed(l, a, a, want),
{
}

/// Removing items from one page of a store that had items removed is
/// removing items from the store.
pub proof fn pages_killed_step(
    l: Layout,
    a: Seq<u8>,
    b: Seq<u8>,
    c: Seq<u8>,
    q: int,
    want: spec_fn(Seq<u8>) -> bool,
)
    requires
        l.wf(),
        0 <= q < l.pages,
        l.base + l.pages * l.page <= b.len(),
        b.len() == c.len(),
        pages_killed(l, a, b, want),
        others_kept(l, b, c, q),
        l.page_at(c, q).subrange(0, 2 * l.word) == l.page_at(b, q).subrange(0, 2 * l.word),
        killed(
            parse(l.page_at(b, q), l.word as int, q, 2 * l.word),
            parse(l.page_at(c, q), l.word as int, q, 2 * l.word),
            want,
        ),
    ensures
        pages_killed(l, b, c, want),
        pages_killed(l, a, c, want),
{
    l.page_len(b, q);
    l.page_len(c, q);
    state_by_markers(l.page_at(b, q), l.page_at(c, q), l.word as int);
    assert(states_of(l, b) =~= states_of(l, c)) by {
        assert forall|x: int| 0 <= x < l.pages implies states_of(l, b)[x] == states_of(l, c)[x] by {
            if x != q {
                assert(l.page_at(c, x) == l.page_at(b, x));
            }
        }
    }
    assert forall|x: int| 0 <= x < l.pages implies killed(
        #[trigger] page_items(l, b, x),
        page_items(l, c, x),
        want,
    ) by {
        if x != q {
            assert(l.page_at(c, x) == l.page_at(b, x));
        }
    }
    assert forall|x: int| 0 <= x < l.pages implies killed(
        #[trigger] page_items(l, a, x),
        page_items(l, c, x),
        want,
    ) by {
        assert(killed(page_items(l, a, x), page_items(l, b, x), want));
        killed_trans(page_items(l, a, x), page_items(l, b, x), page_items(l, c, x), want);
    }
}

/// What removing items of `key` does to the answers of the store: the key
/// has its old live item or none, and every other key has the live item it
/// had.
pub open spec fn removed<I: StorageItem>(l: Layout, a: Seq<u8>, b: Seq<u8>, key: I::Key) -> bool {
    &&& killed(log_of(l, a), log_of(l, b), wants::<I>(key))
    &&& lookup::<I>(l, b, key) is None || lookup::<I>(l, b, key) == lookup::<I>(l, a, key)
    &&& forall|k: I::Key| k != key ==> #[trigger] lookup::<I>(l, b, k) == lookup::<I>(l, a, k)
}

/// Where every page had items of `key` removed, the log had, and the answers
/// of the store changed accordingly.
pub proof fn log_killed<I: StorageItem>(l: Layout, a: Seq<u8>, b: Seq<u8>, key: I::Key)
    requires
        l.wf(),
        pages_killed(l, a, b, wants::<I>(key)),
    ensures
        removed::<I>(l, a, b, key),
        all_gone(log_of(l, b), wants::<I>(key)) ==> lookup::<I>(l, b, key) is None,
        forall|k: I::Key|
            k != key ==> #[trigger] live_in(log_of(l, b), wants::<I>(k)) == live_in(
                log_of(l, a),
                wants::<I>(k),
            ),
{
    let want = wants::<I>(key);
    let st = states_of(l, a);
    head_in_range(l, st);
    match head_of(l, st) {
        None => {},
        Some(h) => {
            let start = l.succ(l.succ(h));
            let n = (l.pages - 1) as nat;
            assert forall|j: nat| j < n implies killed(
                page_items(l, a, #[trigger] nth(l, start, j)),
                page_items(l, b, nth(l, start, j)),
                want,
            ) by {
                nth_closed(l, start, j);
            }
            items_killed(l, a, b, start, n, want);
        },
    }
    killed_live(log_of(l, a), log_of(l, b), want);
    assert forall|k: I::Key| k != key implies #[trigger] live_in(log_of(l, b), wants::<I>(k))
        == live_in(log_of(l, a), wants::<I>(k)) by {
        killed_keeps_others(log_of(l, a), log_of(l, b), want, wants::<I>(k));
    }
}

/// Claims about other keys survive the removal of items of `key`.
pub proof fn claims_survive<I: StorageItem>(
    claims: Seq<(I::Key, u32, u32)>,
    l: Layout,
    a: Seq<u8>,
    b: Seq<u8>,
    key: I::Key,
)
    requires
        l.wf(),
        pages_killed(l, a, b, wants::<I>(key)),
        keys_agree::<I>(claims, l, a),
        forall|i: int| 0 <= i < claims.len() ==> (#[trigger] claims[i]).0 != key,
    ensures
        keys_agree::<I>(claims, l, b),
{
    log_killed::<I>(l, a, b, key);
    assert forall|i: int| 0 <= i < claims.len() implies match live_in(
        log_of(l, b),
        wants::<I>((#[trigger] claims[i]).0),
    ) {
        Some(e) => e.page == claims[i].1 && e.at == claims[i].2,
        None => false,
    } by {
        let k = claims[i].0;
        assert(live_in(log_of(l, b), wants::<I>(k)) == live_in(log_of(l, a), wants::<I>(k)));
    }
}

/// A buffer that is enough to walk a page is still enough once an item of the
/// page got a tombstone.
pub proof fn roomy_tomb(pg: Seq<u8>, w: int, q: int, at: int, len: u32, cap: int)
    requires
        w >= 1,
        2 * w <= at,
        reach(pg, w, q, 2 * w, at) is Some,
        has_room(pg, w, at),
        slot_at(pg, w, at) == (Frame::Present { len }),
        roomy(pg, w, 2 * w, cap),
    ensures
        roomy(splice(pg, at + w + pad(len as int, w), zeros(w)), w, 2 * w, cap),
        roomy(
            splice(pg, at + w + pad(len as int, w), zeros(w)),
            w,
            at + frame_size(len as int, w),
            cap,
        ),
{
    let size = frame_size(len as int, w);
    let after = splice(pg, at + w + pad(len as int, w), zeros(w));
    pad_bounds(len as int, w);
    tombstoned(pg, w, at, len);
    item_span(pg, w, at);
    item_span(after, w, at);
    crate::scan::roomy_along(pg, w, q, 2 * w, at, cap);
    crate::scan::roomy_local(pg, after, w, at + size, cap);
    crate::scan::roomy_rebuilt(pg, after, w, q, 2 * w, at, cap);
}

/// Where a run of pages holds no present entry of a kind, none of its pages
/// does.
pub proof fn gone_in_run(
    l: Layout,
    c: Seq<u8>,
    p: int,
    count: nat,
    j: nat,
    want: spec_fn(Seq<u8>) -> bool,
)
    requires
        all_gone(items_from(l, c, p, count), want),
        j < count,
    ensures
        all_gone(page_items(l, c, nth(l, p, j)), want),
    decreases count,
{
    let first = page_items(l, c, p);
    let rest = items_from(l, c, l.succ(p), (count - 1) as nat);
    let es = items_from(l, c, p, count);
    if j == 0 {
        assert forall|i: int|
            0 <= i < first.len() && want((#[trigger] first[i]).data) implies !first[i].present by {
            assert(es[i] == first[i]);
        }
    } else {
        assert forall|i: int|
            0 <= i < rest.len() && want((#[trigger] rest[i]).data) implies !rest[i].present by {
            assert(es[first.len() + i] == rest[i]);
        }
        gone_in_run(l, c, l.succ(p), (count - 1) as nat, (j - 1) as nat, want);
        assert(nth(l, p, j) == nth(l, l.succ(p), (j - 1) as nat));
    }
}

} // verus!
