//! Finding the last item of a key in the log.

use crate::cache::Cache;
use crate::flash::NorFlash;
use crate::frame::{frame_size, slot_at, Frame};
use crate::header::PageState;
use crate::item::{wants, StorageItem, StorageKey};
use crate::layout::Layout;
use crate::ring::{
    find_head, head_of, items_from, last_for, log_of, nth, nth_closed, nth_step, page_items,
    page_state, snug, states_agree, states_of,
};
use crate::scan::{
    entry_at, has_room, item_len, parse, parse_ends, reach, reach_step, reach_then_parse, roomy,
    Entry, PageScanner, TooSmall,
};
use vstd::prelude::*;
use vstd::slice::slice_subrange;

verus! {

/// Where an item of the log starts, how long its payload is, and whether it
/// is present or was removed.
#[derive(Clone, Copy, Debug, PartialEq, Eq, Structural)]
pub struct Place {
    pub page: u32,
    pub at: u32,
    pub len: u32,
    pub present: bool,
}

/// The slot that `x` points to holds the item that `x` describes.
pub open spec fn place_ok(l: Layout, contents: Seq<u8>, x: Place) -> bool {
    let pg = l.page_at(contents, x.page as int);
    &&& x.page < l.pages
    &&& 2 * l.word <= x.at
    &&& has_room(pg, l.word as int, x.at as int)
    &&& x.at + frame_size(x.len as int, l.word as int) <= l.page
    &&& slot_at(pg, l.word as int, x.at as int) == (if x.present {
        Frame::Present { len: x.len }
    } else {
        Frame::Tombstone { len: x.len }
    })
}

/// The log entry of the item that `x` points to.
pub open spec fn place_entry(l: Layout, contents: Seq<u8>, x: Place) -> Entry {
    entry_at(l.page_at(contents, x.page as int), l.word as int, x.page as int, x.at as int)
}

/// The log entry of the item that `x` points to, if it points to one.
pub open spec fn seen(l: Layout, contents: Seq<u8>, x: Option<Place>) -> Option<Entry> {
    match x {
        Some(x) => Some(place_entry(l, contents, x)),
        None => None,
    }
}

/// `x` points to an item, if it points anywhere.
pub open spec fn seen_ok(l: Layout, contents: Seq<u8>, x: Option<Place>) -> bool {
    x matches Some(x) ==> place_ok(l, contents, x)
}

/// A buffer of `cap` bytes holds the frame of the item that `x` points to, if
/// it points to one.
pub open spec fn held(l: Layout, x: Option<Place>, cap: int) -> bool {
    x matches Some(x) ==> frame_size(x.len as int, l.word as int) <= cap
}

/// The last accepted entry of `b` if there is one, `prior` otherwise.
pub open spec fn later(prior: Option<Entry>, b: Seq<Entry>, want: spec_fn(Seq<u8>) -> bool)
    -> Option<Entry> {
    match last_for(b, want) {
        Some(e) => Some(e),
        None => prior,
    }
}

/// The last accepted entry of two runs is that of the second where it has
/// one, and that of the first otherwise.
pub proof fn last_for_concat(a: Seq<Entry>, b: Seq<Entry>, want: spec_fn(Seq<u8>) -> bool)
    ensures
        last_for(a + b, want) == later(last_for(a, want), b, want),
    decreases b.len(),
{
    if b.len() == 0 {
        assert(a + b =~= a);
    } else {
        assert((a + b).last() == b.last());
        assert((a + b).drop_last() =~= a + b.drop_last());
        last_for_concat(a, b.drop_last(), want);
    }
}

/// The last accepted entry after one more entry.
pub proof fn last_for_push(a: Seq<Entry>, e: Entry, want: spec_fn(Seq<u8>) -> bool)
    ensures
        last_for(a.push(e), want) == (if want(e.data) {
            Some(e)
        } else {
            last_for(a, want)
        }),
{
    assert(a.push(e).last() == e);
    assert(a.push(e).drop_last() =~= a);
}

/// Walks page `q` from offset `from` on and returns the place of the last
/// item of `key` there, or `prior` where there is none.
pub fn last_in_page<I: StorageItem, F: NorFlash>(
    flash: &F,
    l: &Layout,
    q: u32,
    from: u32,
    buf: &mut [u8],
    key: I::Key,
    prior: Option<Place>,
) -> (r: Result<Option<Place>, TooSmall>)
    requires
        l.on(flash),
        q < l.pages,
        2 * l.word <= from <= l.page,
        old(buf)@.len() >= 2 * l.word,
        seen_ok(*l, flash.contents(), prior),
        held(*l, prior, old(buf)@.len() as int),
    ensures
        final(buf)@.len() == old(buf)@.len(),
        roomy(
            l.page_at(flash.contents(), q as int),
            l.word as int,
            from as int,
            old(buf)@.len() as int,
        ) ==> r is Ok,
        r matches Ok(x) ==> held(*l, x, old(buf)@.len() as int),
        match r {
            Ok(x) => {
                &&& seen_ok(*l, flash.contents(), x)
                &&& seen(*l, flash.contents(), x) == later(
                    seen(*l, flash.contents(), prior),
                    parse(l.page_at(flash.contents(), q as int), l.word as int, q as int, from as int),
                    wants::<I>(key),
                )
            },
            Err(_) => old(buf)@.len() < l.page,
        },
{
    let ghost c = flash.contents();
    let ghost pg = l.page_at(c, q as int);
    let ghost w = l.word as int;
    let ghost want = wants::<I>(key);
    let ghost mut es: Seq<Entry> = Seq::empty();
    let mut found: Option<Place> = prior;
    let mut sc = PageScanner::from_offset(l, q, from);
    proof {
        l.page_len(c, q as int);
    }
    while sc.end.is_none()
        invariant
            l.on(flash),
            c == flash.contents(),
            pg == l.page_at(c, q as int),
            pg.len() == l.page,
            w == l.word,
            want == wants::<I>(key),
            sc.wf(l),
            sc.page == q,
            2 * l.word <= from <= sc.off,
            buf@.len() == old(buf)@.len(),
            buf@.len() >= 2 * l.word,
            reach(pg, w, q as int, from as int, sc.off as int) == Some(es),
            sc.end is Some ==> !has_room(pg, w, sc.off as int) || item_len(
                slot_at(pg, w, sc.off as int),
            ) is None,
            seen_ok(*l, c, found),
            held(*l, found, buf@.len() as int),
            roomy(pg, w, from as int, buf@.len() as int) ==> roomy(
                pg,
                w,
                sc.off as int,
                buf@.len() as int,
            ),
            seen(*l, c, found) == later(seen(*l, c, prior), es, want),
        decreases l.page - sc.off + (if sc.end is None { 1int } else { 0int }),
    {
        match sc.next(flash, l, buf) {
            Err(_) => {
                proof {
                    crate::scan::span_shape(pg, w, sc.off as int);
                }
                return Err(TooSmall);
            },
            Ok(None) => {},
            Ok(Some((at, f))) => {
                let item: Option<(u32, bool)> = match f {
                    Frame::Present { len } => Some((len, true)),
                    Frame::Tombstone { len } => Some((len, false)),
                    _ => None,
                };
                if let Some((len, present)) = item {
                    let wu: usize = l.word as usize;
                    proof {
                        crate::scan::item_span(pg, w, at as int);
                        crate::frame::pad_bounds(len as int, w);
                    }
                    let k = I::deserialize_key_only(slice_subrange(buf, wu, wu + len as usize));
                    let ghost e = entry_at(pg, w, q as int, at as int);
                    proof {
                        reach_step(pg, w, q as int, from as int, at as int);
                        last_for_push(es, e, want);
                        es = es.push(e);
                    }
                    let hit: bool = match k {
                        Ok(k) => k.same(&key),
                        Err(_) => false,
                    };
                    if hit {
                        found = Some(Place { page: q, at, len, present });
                    }
                }
            },
        }
    }
    proof {
        reach_then_parse(pg, w, q as int, from as int, sc.off as int);
        parse_ends(pg, w, q as int, sc.off as int);
        assert(es + Seq::<Entry>::empty() =~= es);
    }
    Ok(found)
}

/// Walks the whole log and returns the place of the last item of `key`.
pub fn locate<I: StorageItem, F: NorFlash>(
    flash: &F,
    l: &Layout,
    cache: &mut Cache<I::Key>,
    buf: &mut [u8],
    key: I::Key,
) -> (r: Result<Option<Place>, TooSmall>)
    requires
        l.on(flash),
        old(buf)@.len() >= 2 * l.word,
        old(cache).wf(),
        states_agree(old(cache).state_claims(), *l, flash.contents()),
    ensures
        final(buf)@.len() == old(buf)@.len(),
        snug(*l, flash.contents(), old(buf)@.len() as int) ==> r is Ok,
        r matches Ok(x) ==> held(*l, x, old(buf)@.len() as int),
        match r {
            Ok(x) => {
                &&& seen_ok(*l, flash.contents(), x)
                &&& seen(*l, flash.contents(), x) == last_for(
                    log_of(*l, flash.contents()),
                    wants::<I>(key),
                )
            },
            Err(_) => old(buf)@.len() < l.page,
        },
        final(cache).wf(),
        states_agree(final(cache).state_claims(), *l, flash.contents()),
        final(cache).free_claims() == old(cache).free_claims(),
        final(cache).key_claims() == old(cache).key_claims(),
        final(cache).shape() == old(cache).shape(),
        final(cache).capacity() == old(cache).capacity(),
        final(cache).state_claims().len() == old(cache).state_claims().len(),
{
    let ghost c = flash.contents();
    let ghost want = wants::<I>(key);
    let head = find_head(flash, l, cache, buf, None);
    let h: u32 = match head {
        None => {
            return Ok(None);
        },
        Some(h) => h,
    };
    let n: u32 = l.pages - 1;
    let start: u32 = l.next_page(l.next_page(h));
    let mut q: u32 = start;
    let mut i: u32 = 0;
    let mut found: Option<Place> = None;
    let ghost mut done: Seq<Entry> = Seq::empty();
    assert(done + items_from(*l, c, q as int, n as nat) =~= log_of(*l, c));
    while i < n
        invariant
            l.on(flash),
            c == flash.contents(),
            want == wants::<I>(key),
            n == l.pages - 1,
            i <= n,
            q < l.pages,
            buf@.len() == old(buf)@.len(),
            buf@.len() >= 2 * l.word,
            log_of(*l, c) == done + items_from(*l, c, q as int, (n - i) as nat),
            head_of(*l, states_of(*l, c)) == Some(h as int),
            start == l.succ(l.succ(h as int)),
            q == nth(*l, start as int, i as nat),
            seen_ok(*l, c, found),
            held(*l, found, buf@.len() as int),
            seen(*l, c, found) == last_for(done, want),
            cache.wf(),
            states_agree(cache.state_claims(), *l, c),
            cache.free_claims() == old(cache).free_claims(),
            cache.key_claims() == old(cache).key_claims(),
            cache.shape() == old(cache).shape(),
            cache.capacity() == old(cache).capacity(),
            cache.state_claims().len() == old(cache).state_claims().len(),
        decreases n - i,
    {
        let s = page_state(flash, l, cache, buf, q);
        let holds: bool = match s {
            PageState::Closed => true,
            PageState::PartialOpen => true,
            _ => false,
        };
        let ghost items = page_items(*l, c, q as int);
        proof {
            nth_closed(*l, start as int, i as nat);
            nth_step(*l, start as int, i as nat);
        }
        if holds {
            match last_in_page::<I, F>(flash, l, q, 2 * l.word, buf, key, found) {
                Err(e) => {
                    return Err(e);
                },
                Ok(x) => {
                    found = x;
                },
            }
        }
        proof {
            last_for_concat(done, items, want);
            let rest = items_from(*l, c, l.succ(q as int), (n - i - 1) as nat);
            assert(done + (items + rest) =~= (done + items) + rest);
            done = done + items;
        }
        q = l.next_page(q);
        i += 1;
    }
    proof {
        assert(done + Seq::<Entry>::empty() =~= done);
    }
    Ok(found)
}

} // verus!
