//! The operations of the store: fetching, storing and removing items.

use crate::append::{append_item, blank_body_lands, encode, grown, lands, placed};
use crate::cache::Cache;
use crate::find::{last_for_push, locate, place_ok, Place};
use crate::flash::{all_ones, drawn, lasts, mended, spared, tolled, FlashError, NorFlash};
use crate::frame::{frame_size, len_limit, limit_for, pad_bounds, pad_to, read_frame, Frame};
use crate::full::{crowded, crowded_peopled, peopled};
use crate::header::{blank_is_erased, PageState};
use crate::item::{balked, cut, full, rejected, short, wants, Error, StorageItem};
use crate::jam::{crowded_jammed, jammed};
use crate::layout::{erase_page, region, region_spec, Layout};
use crate::pack::{back, crowded_is_packed, paced, packed, packed_is_crowded, packed_tested, step};
use crate::remove::{
    all_gone, claims_survive, gone_in_run, gone_stays, items_gone, kill_in_page, killed, log_killed,
    pages_killed, pages_killed_refl, pages_killed_step, removed,
};
use crate::ring::{
    agrees, all_erased, blank_agrees, find_head, frees_agree, head_of, in_log, items_from,
    keys_agree, live_in, log_of, log_sound, lookup, nth, nth_closed, nth_step, page_items,
    page_state, snug, snug_step, states_agree, states_of,
};
use crate::rotate::{advance, erase_behind, retire, same_answers, start};
use crate::scan::Entry;
use crate::shape::{harmless, head_kind, poised, ready, snug_kept, sound_ring, steady};
use std::ops::Range;
use vstd::prelude::*;
use vstd::slice::slice_subrange;

verus! {

/// What `fetch_item` answers for a key whose live payload in the store is
/// `live`: nothing where there is none, the decoded item where the payload
/// decodes, the decoder's error where it does not.
pub open spec fn fetched<I: StorageItem>(
    live: Option<Seq<u8>>,
    r: Result<Option<I>, Error<I::Error>>,
) -> bool {
    match live {
        None => r matches Ok(None),
        Some(d) => match I::unwire(d) {
            Some(m) => r matches Ok(Some(item)) && item.model() == m,
            None => r matches Err(Error::Item(_)),
        },
    }
}

/// Reads the item at `x` and decodes it.
fn load<I: StorageItem, F: NorFlash>(flash: &F, l: &Layout, buf: &mut [u8], x: Place) -> (r: Result<
    Option<I>,
    Error<I::Error>,
>)
    requires
        l.on(flash),
        old(buf)@.len() >= 2 * l.word,
        place_ok(*l, flash.contents(), x),
        x.present,
    ensures
        final(buf)@.len() == old(buf)@.len(),
        short(r) ==> old(buf)@.len() < l.page,
        frame_size(x.len as int, l.word as int) <= old(buf)@.len() ==> !short(r),
        !short(r) ==> fetched::<I>(
            Some(crate::find::place_entry(*l, flash.contents(), x).data),
            r,
        ),
{
    let w: usize = l.word as usize;
    proof {
        l.page_len(flash.contents(), x.page as int);
        crate::scan::span_shape(
            l.page_at(flash.contents(), x.page as int),
            l.word as int,
            x.at as int,
        );
        crate::frame::pad_bounds(x.len as int, l.word as int);
    }
    match read_frame(flash, l, x.page, x.at, buf) {
        None => Err(Error::BufferTooSmall),
        Some(f) => match f {
            Frame::Present { len } => {
                match I::deserialize_from(slice_subrange(buf, w, w + len as usize)) {
                    Ok(item) => Ok(Some(item)),
                    Err(e) => Err(Error::Item(e)),
                }
            },
            _ => Err(Error::Corrupted),
        },
    }
}

/// Returns the live item of `key`: the item that was stored last under that
/// key, unless it has been removed since.
///
/// The flash is only read. The answer is decided by what the flash holds; a
/// cache that agrees with the flash changes how the answer is found, not the
/// answer.
pub fn fetch_item<I: StorageItem, F: NorFlash>(
    flash: &F,
    range: Range<u32>,
    cache: &mut Cache<I::Key>,
    buf: &mut [u8],
    key: I::Key,
) -> (r: Result<Option<I>, Error<I::Error>>)
    requires
        flash.sound(),
        region_spec(
            flash.word(),
            flash.page(),
            flash.contents().len(),
            range.start as nat,
            range.end as nat,
        ) matches Ok(l) ==> agrees::<I>(old(cache), l, flash.contents()),
    ensures
        final(buf)@.len() == old(buf)@.len(),
        match region_spec(
            flash.word(),
            flash.page(),
            flash.contents().len(),
            range.start as nat,
            range.end as nat,
        ) {
            Err(e) => r matches Err(Error::Storage(x)) && x == e,
            Ok(l) => {
                &&& agrees::<I>(final(cache), l, flash.contents())
                &&& old(buf)@.len() < 2 * l.word ==> short(r)
                &&& short(r) ==> old(buf)@.len() < l.page
                &&& old(buf)@.len() >= 2 * l.word && snug(
                    l,
                    flash.contents(),
                    old(buf)@.len() as int,
                ) ==> !short(r)
                &&& !short(r) ==> fetched::<I>(
                    lookup::<I>(l, flash.contents(), key),
                    r,
                )
            },
        },
{
    let l = match region(flash, range) {
        Err(e) => {
            return Err(Error::Storage(e));
        },
        Ok(l) => l,
    };
    if buf.len() < 2 * (l.word as usize) {
        return Err(Error::BufferTooSmall);
    }
    let ghost c = flash.contents();
    let ghost want = wants::<I>(key);
    proof {
        log_sound(l, c, want);
    }
    if let Some((p, o)) = cache.query_key(key) {
        if p < l.pages && o >= 2 * l.word && o <= l.page && l.page - o >= 2 * l.word {
            proof {
                let i = choose|i: int|
                    0 <= i < cache.key_claims().len() && cache.key_claims()[i] == (key, p, o);
                assert(cache.key_claims()[i].0 == key);
                l.page_len(c, p as int);
            }
            if let Some(Frame::Present { len }) = read_frame(flash, &l, p, o, buf) {
                let x = Place { page: p, at: o, len, present: true };
                return load::<I, F>(flash, &l, buf, x);
            }
        }
    }
    let found = match locate::<I, F>(flash, &l, cache, buf, key) {
        Err(_) => {
            return Err(Error::BufferTooSmall);
        },
        Ok(found) => found,
    };
    match found {
        None => Ok(None),
        Some(x) => {
            if !x.present {
                return Ok(None);
            }
            let r = load::<I, F>(flash, &l, buf, x);
            cache.notify_write(key, x.page, x.at);
            r
        },
    }
}

/// Removes the item of `key`: puts a tombstone on every present item of the
/// key, oldest first.
///
/// Whatever happens, every other key keeps its live item, and `key` has its
/// old live item or none. After success it has none.
pub fn remove_item<I: StorageItem, F: NorFlash>(
    flash: &mut F,
    range: Range<u32>,
    cache: &mut Cache<I::Key>,
    buf: &mut [u8],
    key: I::Key,
) -> (r: Result<(), Error<I::Error>>)
    requires
        old(flash).sound(),
        region_spec(
            old(flash).word(),
            old(flash).page(),
            old(flash).contents().len(),
            range.start as nat,
            range.end as nat,
        ) matches Ok(l) ==> agrees::<I>(old(cache), l, old(flash).contents()),
    ensures
        final(flash).sound(),
        final(flash).word() == old(flash).word(),
        final(flash).page() == old(flash).page(),
        final(flash).contents().len() == old(flash).contents().len(),
        final(buf)@.len() == old(buf)@.len(),
        final(flash).rewrites() == old(flash).rewrites(),
        tolled(old(flash).losses(), final(flash).losses(), cut(r)),
        mended(
            old(flash).mends(),
            final(flash).mends(),
            final(flash).reserve(),
            cut(r),
        ),
        old(flash).tidy() && old(flash).rewrites() ==> final(flash).tidy(),
        match region_spec(
            old(flash).word(),
            old(flash).page(),
            old(flash).contents().len(),
            range.start as nat,
            range.end as nat,
        ) {
            Err(e) => r matches Err(Error::Storage(x)) && x == e
                && final(flash).contents() == old(flash).contents(),
            Ok(l) => {
                &&& agrees::<I>(final(cache), l, final(flash).contents())
                &&& spared(old(flash).reserve(), final(flash).reserve(), remove_reserve(l), cut(r))
                &&& old(buf)@.len() < 2 * l.word ==> short(r)
                    && final(flash).contents() == old(flash).contents()
                &&& short(r) ==> old(buf)@.len() < l.page
                &&& old(buf)@.len() >= 2 * l.word && snug(
                    l,
                    old(flash).contents(),
                    old(buf)@.len() as int,
                ) ==> !short(r) && snug(l, final(flash).contents(), old(buf)@.len() as int)
                &&& states_of(l, final(flash).contents()) == states_of(l, old(flash).contents())
                &&& removed::<I>(l, old(flash).contents(), final(flash).contents(), key)
                &&& r is Ok ==> lookup::<I>(l, final(flash).contents(), key) is None
                &&& r matches Err(e) ==> e is Storage || e is BufferTooSmall
                &&& old(flash).tidy() && old(flash).rewrites() ==> !balked(r)
                &&& old(flash).tidy() && old(flash).rewrites() && old(buf)@.len() >= 2 * l.word
                    && snug(l, old(flash).contents(), old(buf)@.len() as int) ==> r is Ok || cut(
                    r,
                )
                &&& old(buf)@.len() >= 2 * l.word && all_gone(
                    log_of(l, old(flash).contents()),
                    wants::<I>(key),
                ) ==> final(flash).contents() == old(flash).contents() && (snug(
                    l,
                    old(flash).contents(),
                    old(buf)@.len() as int,
                ) ==> r is Ok)
            },
        },
{
    let l = match region(flash, range) {
        Err(e) => {
            return Err(Error::Storage(e));
        },
        Ok(l) => l,
    };
    let ghost c0 = flash.contents();
    let ghost want = wants::<I>(key);
    proof {
        pages_killed_refl(l, c0, want);
        log_killed::<I>(l, c0, c0, key);
    }
    if buf.len() < 2 * (l.word as usize) {
        return Err(Error::BufferTooSmall);
    }
    cache.notify_erase(key);
    assert(keys_agree::<I>(cache.key_claims(), l, c0)) by {
        assert forall|i: int| 0 <= i < cache.key_claims().len() implies match live_in(
            log_of(l, c0),
            wants::<I>((#[trigger] cache.key_claims()[i]).0),
        ) {
            Some(e) => e.page == cache.key_claims()[i].1 && e.at == cache.key_claims()[i].2,
            None => false,
        } by {
            let x = cache.key_claims()[i];
            let j = choose|j: int|
                0 <= j < old(cache).key_claims().len() && old(cache).key_claims()[j] == x;
            assert(old(cache).key_claims()[j].0 == x.0);
        }
    }
    let head = find_head(flash, &l, cache, buf, None);
    let h: u32 = match head {
        None => {
            proof {
                assert(log_of(l, c0) =~= Seq::empty());
            }
            return Ok(());
        },
        Some(h) => h,
    };
    let n: u32 = l.pages - 1;
    let start: u32 = l.next_page(l.next_page(h));
    let mut q: u32 = start;
    let mut i: u32 = 0;
    let ghost claims = cache.key_claims();
    while i < n
        invariant
            l.on(flash),
            l.wf(),
            region_spec(
                old(flash).word(),
                old(flash).page(),
                old(flash).contents().len(),
                range.start as nat,
                range.end as nat,
            ) == Ok::<Layout, FlashError>(l),
            flash.word() == old(flash).word(),
            flash.page() == old(flash).page(),
            flash.contents().len() == c0.len(),
            c0 == old(flash).contents(),
            want == wants::<I>(key),
            n == l.pages - 1,
            i <= n,
            q < l.pages,
            start < l.pages,
            head_of(l, states_of(l, c0)) == Some(h as int),
            start == l.succ(l.succ(h as int)),
            q == nth(l, start as int, i as nat),
            buf@.len() == old(buf)@.len(),
            buf@.len() >= 2 * l.word,
            pages_killed(l, c0, flash.contents(), want),
            flash.rewrites() == old(flash).rewrites(),
            flash.losses() == old(flash).losses(),
            old(flash).mends() ==> flash.mends(),
            lasts(old(flash).reserve(), remove_reserve(l)) ==> drawn(
                old(flash).reserve(),
                flash.reserve(),
                i * l.page,
            ),
            old(flash).tidy() && old(flash).rewrites() ==> flash.tidy(),
            all_gone(log_of(l, c0), want) ==> flash.contents() == c0,
            snug(l, c0, buf@.len() as int) ==> snug(l, flash.contents(), buf@.len() as int),
            forall|j: nat|
                j < i ==> all_gone(
                    page_items(l, flash.contents(), #[trigger] nth(l, start as int, j)),
                    want,
                ),
            cache.wf(),
            states_agree(cache.state_claims(), l, flash.contents()),
            frees_agree(cache.free_claims(), l, flash.contents()),
            cache.key_claims() == claims,
            keys_agree::<I>(claims, l, c0),
            forall|j: int| 0 <= j < claims.len() ==> (#[trigger] claims[j]).0 != key,
        decreases n - i,
    {
        proof {
            assert((i + 1) * l.page == i * l.page + l.page && i * l.page + l.page <= l.pages
                * l.page && i * l.page >= 0) by (nonlinear_arith)
                requires
                    0 <= i < l.pages,
                    l.page >= 0,
            ;
        }
        let ghost c = flash.contents();
        let s = page_state(flash, &l, cache, buf, q);
        let holds: bool = match s {
            PageState::Closed => true,
            PageState::PartialOpen => true,
            _ => false,
        };
        if holds {
            cache.forget_free(q);
            proof {
                nth_closed(l, start as int, i as nat);
                assert(in_log(l, c, q as int));
                if all_gone(log_of(l, c0), want) {
                    gone_in_run(l, c0, start as int, n as nat, i as nat, want);
                }
            }
            let r = kill_in_page::<I, F>(flash, &l, q, buf, key);
            proof {
                let c2 = flash.contents();
                pages_killed_step(l, c0, c, c2, q as int, want);
                if snug(l, c, buf@.len() as int) {
                    snug_step(l, c, c2, q as int, buf@.len() as int);
                }
                assert(states_agree(cache.state_claims(), l, c2));
                assert(frees_agree(cache.free_claims(), l, c2)) by {
                    assert forall|p: int|
                        0 <= p < cache.free_claims().len() && (
                        #[trigger] cache.free_claims()[p]) is Some implies l.page_at(c2, p)
                        == l.page_at(c, p) && p < l.pages by {
                        assert(p != q);
                    }
                }
                assert forall|j: nat| j < i implies all_gone(
                    page_items(l, c2, #[trigger] nth(l, start as int, j)),
                    want,
                ) by {
                    let x = nth(l, start as int, j);
                    nth_closed(l, start as int, j);
                    assert(killed(page_items(l, c, x), page_items(l, c2, x), want));
                    gone_stays(page_items(l, c, x), page_items(l, c2, x), want);
                }
            }
            match r {
                Err(e) => {
                    proof {
                        log_killed::<I>(l, c0, flash.contents(), key);
                        claims_survive::<I>(claims, l, c0, flash.contents(), key);
                    }
                    return Err(e);
                },
                Ok(()) => {},
            }
        }
        proof {
            nth_step(l, start as int, i as nat);
        }
        q = l.next_page(q);
        i += 1;
    }
    proof {
        let c = flash.contents();
        log_killed::<I>(l, c0, c, key);
        claims_survive::<I>(claims, l, c0, c, key);
        items_gone(l, c, start as int, n as nat, want);
        assert(states_of(l, c) == states_of(l, c0));
    }
    proof {
        assert(n * l.page <= l.pages * l.page) by (nonlinear_arith)
            requires
                0 <= n <= l.pages,
                l.page >= 0,
        ;
    }
    Ok(())
}

/// What storing an item with the wire form `wire` does to the answers of the
/// store: the key of the item has that wire form as its live payload, and
/// every other key has the live payload it had.
pub open spec fn stored<I: StorageItem>(l: Layout, a: Seq<u8>, b: Seq<u8>, wire: Seq<u8>) -> bool {
    forall|k: I::Key|
        #[trigger] lookup::<I>(l, b, k) == (if I::key_in(wire) == Some(k) {
            Some(wire)
        } else {
            lookup::<I>(l, a, k)
        })
}

/// The operation was refused before anything was written: for want of room
/// or of buffer space, or by the item's own code.
pub open spec fn refused<T, E>(r: Result<T, Error<E>>) -> bool {
    r matches Err(e) && (e is FullStorage || e is BufferTooSmall || e is Item)
}

/// The head of the ring is partially open and has blank room for an item
/// with a payload of `n` bytes: the item can be appended where the ring
/// stands.
pub open spec fn roomy_head(l: Layout, c: Seq<u8>, n: int) -> bool {
    head_of(l, states_of(l, c)) matches Some(h) && states_of(l, c)[h] == PageState::PartialOpen
        && lands(l, c, h, n)
}

/// The ring is not yet in use: no page is its head and every page is in the
/// erased state.
pub open spec fn untouched(l: Layout, c: Seq<u8>) -> bool {
    head_of(l, states_of(l, c)) is None && forall|p: int|
        0 <= p < l.pages ==> states_of(l, c)[p] == PageState::Erased
}

/// An item with a payload of `n` bytes fits a page that holds nothing else.
pub open spec fn fits_empty(l: Layout, n: int) -> bool {
    n < len_limit(l.word as int) && frame_size(n, l.word as int) <= l.page - 2 * l.word
}

/// A log that has grown by an item answers as `stored` says.
pub proof fn grown_stored<I: StorageItem>(l: Layout, a: Seq<u8>, b: Seq<u8>, wire: Seq<u8>)
    requires
        grown(log_of(l, a), log_of(l, b), wire),
    ensures
        stored::<I>(l, a, b, wire),
{
    let e = log_of(l, b).last();
    assert(log_of(l, b) =~= log_of(l, a).push(e));
    assert forall|k: I::Key|
        #[trigger] lookup::<I>(l, b, k) == (if I::key_in(wire) == Some(k) {
            Some(wire)
        } else {
            lookup::<I>(l, a, k)
        }) by {
        last_for_push(log_of(l, a), e, wants::<I>(k));
    }
}

/// Storing after steps that kept every answer is storing.
pub proof fn stored_after<I: StorageItem>(
    l: Layout,
    a: Seq<u8>,
    b: Seq<u8>,
    c: Seq<u8>,
    wire: Seq<u8>,
)
    requires
        same_answers::<I>(l, a, b),
        stored::<I>(l, b, c, wire) || same_answers::<I>(l, b, c),
    ensures
        stored::<I>(l, b, c, wire) ==> stored::<I>(l, a, c, wire),
        same_answers::<I>(l, b, c) ==> same_answers::<I>(l, a, c),
{
    if stored::<I>(l, b, c, wire) {
        assert forall|k: I::Key|
            #[trigger] lookup::<I>(l, c, k) == (if I::key_in(wire) == Some(k) {
                Some(wire)
            } else {
                lookup::<I>(l, a, k)
            }) by {
            assert(lookup::<I>(l, b, k) == lookup::<I>(l, a, k));
        }
    }
    if same_answers::<I>(l, b, c) {
        assert forall|k: I::Key| #[trigger] lookup::<I>(l, c, k) == lookup::<I>(l, a, k) by {
            assert(lookup::<I>(l, b, k) == lookup::<I>(l, a, k));
        }
    }
}

/// A reserve of this many bytes lasts for a store: for each of its rounds, a
/// ring taken into use or a move to the next page with what it erases and
/// copies.
pub open spec fn store_reserve(l: Layout) -> int {
    (2 * l.pages + 2) * (l.pages * l.page + 5 * l.page)
}

/// A reserve of this many bytes lasts for a removal: no more than every page
/// is programmed.
pub open spec fn remove_reserve(l: Layout) -> int {
    l.pages * l.page
}

/// A reserve of this many bytes lasts for a recovery.
pub open spec fn recover_reserve(l: Layout) -> int {
    l.pages * l.page + 6 * l.page
}

/// A reserve of this many bytes lasts for formatting: every page is erased,
/// and the ring is taken into use.
pub open spec fn format_reserve(l: Layout) -> int {
    2 * (l.pages * l.page) + l.page
}

/// Stores `item`: appends it to the head of the ring, moving on to the next
/// page, and reclaiming the oldest, where the head has no room.
///
/// After success the key of the item answers with the item, and every other
/// key answers as before. After a failure every key answers as before,
/// except that after a power loss the key of the item may already answer
/// with the item. Of a ring of two pages that a power loss left with two
/// pages that look like heads nothing is claimed.
///
/// On a sound ring, with a buffer that covers the frames of the store and
/// the new one, and a device that is written by the rule, only a power loss
/// or a full store keep the item from being stored. The power is not lost
/// while the reserve of the device lasts for `store_reserve`, and it is
/// counted by the device where it is lost. The store is full exactly when
/// the flash is jammed: the head takes the item no more, and no page of the
/// log has room for it once the items that are no longer live are dropped.
/// It is then left with live items only, in pages without room for the
/// item. Where the head has room, the frame goes behind its items and no
/// other byte of any page changes.
#[verifier::rlimit(80)]
pub fn store_item<I: StorageItem, F: NorFlash>(
    flash: &mut F,
    range: Range<u32>,
    cache: &mut Cache<I::Key>,
    buf: &mut [u8],
    item: &I,
) -> (r: Result<(), Error<I::Error>>)
    requires
        old(flash).sound(),
        region_spec(
            old(flash).word(),
            old(flash).page(),
            old(flash).contents().len(),
            range.start as nat,
            range.end as nat,
        ) matches Ok(l) ==> agrees::<I>(old(cache), l, old(flash).contents()),
    ensures
        final(flash).sound(),
        final(flash).word() == old(flash).word(),
        final(flash).page() == old(flash).page(),
        final(flash).contents().len() == old(flash).contents().len(),
        final(buf)@.len() == old(buf)@.len(),
        final(flash).rewrites() == old(flash).rewrites(),
        tolled(old(flash).losses(), final(flash).losses(), cut(r)),
        mended(
            old(flash).mends(),
            final(flash).mends(),
            final(flash).reserve(),
            cut(r),
        ),
        old(flash).tidy() ==> final(flash).tidy(),
        match region_spec(
            old(flash).word(),
            old(flash).page(),
            old(flash).contents().len(),
            range.start as nat,
            range.end as nat,
        ) {
            Err(e) => r matches Err(Error::Storage(x)) && x == e
                && final(flash).contents() == old(flash).contents(),
            Ok(l) => {
                &&& agrees::<I>(final(cache), l, final(flash).contents())
                &&& spared(old(flash).reserve(), final(flash).reserve(), store_reserve(l), cut(r))
                &&& old(buf)@.len() < 2 * l.word ==> short(r)
                &&& short(r) ==> old(buf)@.len() < l.page
                &&& steady(l, old(flash).contents(), final(flash).contents(), r)
                &&& old(flash).tidy() ==> !balked(r)
                &&& old(flash).tidy() && sound_ring(l, states_of(l, old(flash).contents()))
                    && snug(l, old(flash).contents(), old(buf)@.len() as int)
                    && frame_size(item.wire().len() as int, l.word as int) <= old(buf)@.len()
                    && item.encodes((old(buf)@.len() - l.word) as nat) ==> {
                    &&& r is Ok || cut(r) || full(r)
                    &&& fits_empty(l, item.wire().len() as int) && (roomy_head(
                        l,
                        old(flash).contents(),
                        item.wire().len() as int,
                    ) || untouched(l, old(flash).contents())) ==> r is Ok || cut(r)
                    &&& crowded::<I>(
                        l,
                        old(flash).contents(),
                        frame_size(item.wire().len() as int, l.word as int),
                    ) ==> cut(r) || full(r)
                }
                &&& crowded::<I>(
                    l,
                    old(flash).contents(),
                    frame_size(item.wire().len() as int, l.word as int),
                ) ==> !(r is Ok)
                &&& full(r) && fits_empty(l, item.wire().len() as int) && sound_ring(
                    l,
                    states_of(l, old(flash).contents()),
                ) ==> crowded::<I>(
                    l,
                    final(flash).contents(),
                    frame_size(item.wire().len() as int, l.word as int),
                ) && peopled::<I>(l, old(flash).contents()) && jammed::<I>(
                    l,
                    old(flash).contents(),
                    item.wire().len() as int,
                )
                &&& jammed::<I>(l, old(flash).contents(), item.wire().len() as int) ==> !(r is Ok)
                &&& fits_empty(l, item.wire().len() as int) && roomy_head(
                    l,
                    old(flash).contents(),
                    item.wire().len() as int,
                ) ==> !full(r)
                &&& fits_empty(l, item.wire().len() as int) && untouched(
                    l,
                    old(flash).contents(),
                ) ==> !full(r)
                &&& rejected(r) <==> old(buf)@.len() >= 2 * l.word && !item.encodes(
                    (old(buf)@.len() - l.word) as nat,
                )
                &&& rejected(r) ==> final(flash).contents() == old(flash).contents()
                &&& r is Ok && roomy_head(l, old(flash).contents(), item.wire().len() as int)
                    ==> placed(
                    l,
                    old(flash).contents(),
                    final(flash).contents(),
                    head_of(l, states_of(l, old(flash).contents())).unwrap(),
                    item.wire(),
                )
                &&& snug_kept(
                    l,
                    old(flash).contents(),
                    final(flash).contents(),
                    r,
                    old(buf)@.len() as int,
                )
                &&& old(buf)@.len() >= 2 * l.word && snug(
                    l,
                    old(flash).contents(),
                    old(buf)@.len() as int,
                ) && frame_size(item.wire().len() as int, l.word as int) <= old(buf)@.len()
                    ==> !short(r)
                &&& r is Ok && ready(l, states_of(l, old(flash).contents())) ==> ready(
                    l,
                    states_of(l, final(flash).contents()),
                )
                &&& !fits_empty(l, item.wire().len() as int) ==> refused(r)
                    && final(flash).contents() == old(flash).contents()
                &&& match r {
                    Ok(()) => stored::<I>(
                        l,
                        old(flash).contents(),
                        final(flash).contents(),
                        item.wire(),
                    ),
                    Err(e) => harmless(l, final(flash).contents(), e) ==> {
                        ||| same_answers::<I>(l, old(flash).contents(), final(flash).contents())
                        ||| e matches Error::Storage(FlashError::EarlyShutoff(_)) && stored::<I>(
                            l,
                            old(flash).contents(),
                            final(flash).contents(),
                            item.wire(),
                        )
                    },
                }
            },
        },
{
    let l = match region(flash, range) {
        Err(e) => {
            return Err(Error::Storage(e));
        },
        Ok(l) => l,
    };
    let ghost c0 = flash.contents();
    let ghost wire = item.wire();
    if buf.len() < 2 * (l.word as usize) {
        return Err(Error::BufferTooSmall);
    }
    let n: usize = match encode(item, buf, l.word as usize) {
        Err(e) => {
            return Err(Error::Item(e));
        },
        Ok(n) => n,
    };
    let body: u32 = l.page - 2 * l.word;
    if n >= limit_for(l.word) as usize || n > body as usize {
        proof {
            pad_bounds(n as int, l.word as int);
        }
        return Err(Error::FullStorage);
    }
    proof {
        pad_bounds(n as int, l.word as int);
    }
    if body < 2 * l.word || pad_to(n as u32, l.word) > body - 2 * l.word {
        return Err(Error::FullStorage);
    }
    let limit: u64 = 2 * (l.pages as u64) + 2;
    let mut turns: u64 = 0;
    let ghost room = frame_size(wire.len() as int, l.word as int);
    let ghost mut m: int = 0;
    let ghost mut fresh: bool = false;
    proof {
        head_kind(l, states_of(l, c0));
        if sound_ring(l, states_of(l, c0)) && !untouched(l, c0) {
            let h = head_of(l, states_of(l, c0)).unwrap();
            assert(items_from(l, c0, back(l, h, -1), 0) =~= Seq::<Entry>::empty());
            assert(packed::<I>(l, c0, room, 0, false));
        }
    }
    while turns < limit
        invariant
            l.on(flash),
            region_spec(
                old(flash).word(),
                old(flash).page(),
                old(flash).contents().len(),
                range.start as nat,
                range.end as nat,
            ) == Ok::<Layout, FlashError>(l),
            flash.contents().len() == c0.len(),
            flash.word() == old(flash).word(),
            flash.page() == old(flash).page(),
            c0 == old(flash).contents(),
            wire == item.wire(),
            fits_empty(l, wire.len() as int),
            item.encodes((buf@.len() - l.word) as nat),
            buf@.len() == old(buf)@.len(),
            buf@.len() >= 2 * l.word,
            agrees::<I>(cache, l, flash.contents()),
            same_answers::<I>(l, c0, flash.contents()),
            sound_ring(l, states_of(l, c0)) ==> sound_ring(l, states_of(l, flash.contents())),
            ready(l, states_of(l, c0)) ==> poised(l, states_of(l, flash.contents())),
            snug(l, c0, buf@.len() as int) ==> snug(l, flash.contents(), buf@.len() as int),
            turns <= limit,
            crowded::<I>(l, c0, frame_size(wire.len() as int, l.word as int)) ==> crowded::<I>(
                l,
                flash.contents(),
                frame_size(wire.len() as int, l.word as int),
            ),
            flash.rewrites() == old(flash).rewrites(),
            flash.losses() == old(flash).losses(),
            old(flash).mends() ==> flash.mends(),
            lasts(old(flash).reserve(), store_reserve(l)) ==> drawn(
                old(flash).reserve(),
                flash.reserve(),
                turns * (l.pages * l.page + 5 * l.page),
            ),
            old(flash).tidy() ==> flash.tidy(),
            turns == 0 ==> flash.contents() == c0,
            room == frame_size(wire.len() as int, l.word as int),
            jammed::<I>(l, c0, wire.len() as int) == jammed::<I>(
                l,
                flash.contents(),
                wire.len() as int,
            ),
            limit == 2 * l.pages + 2,
            sound_ring(l, states_of(l, c0)) && !untouched(l, c0) ==> paced::<I>(
                l,
                flash.contents(),
                room,
                m,
                fresh,
                turns as int,
            ),
            turns > 0 ==> !roomy_head(l, c0, wire.len() as int),
            untouched(l, c0) ==> turns <= 1 && (turns == 1 ==> roomy_head(
                l,
                flash.contents(),
                wire.len() as int,
            )),
        decreases limit - turns,
    {
        proof {
            let t = l.pages * l.page + 5 * l.page;
            assert(l.pages * l.page >= 0) by (nonlinear_arith)
                requires
                    l.pages >= 0,
                    l.page >= 0,
            ;
            assert((turns + 1) * t == turns * t + t && turns * t + t <= (2 * l.pages + 2) * t
                && turns * t >= 0) by (nonlinear_arith)
                requires
                    0 <= turns < 2 * l.pages + 2,
                    t >= 0,
            ;
        }
        turns += 1;
        let ghost c = flash.contents();
        let head = find_head(flash, &l, cache, buf, None);
        match head {
            None => {
                if !all_erased(flash, &l, cache, buf) {
                    return Err(Error::Corrupted);
                }
                proof {
                    head_kind(l, states_of(l, c));
                }
                cache.invalidate();
                let r = start::<I, F>(flash, &l, cache, buf);
                proof {
                    let c1 = flash.contents();
                    blank_agrees::<I>(cache, l, c1);
                    if r is Ok {
                        blank_body_lands(l, c1, 0, wire.len() as int);
                        assert(!jammed::<I>(l, c1, wire.len() as int));
                    }
                    stored_after::<I>(l, c0, c, c1, wire);
                }
                match r {
                    Err(e) => {
                        return Err(e);
                    },
                    Ok(()) => {},
                }
            },
            Some(h) => {
                let st = page_state(flash, &l, cache, buf, h);
                proof {
                    head_kind(l, states_of(l, c));
                    if crowded::<I>(l, c, frame_size(wire.len() as int, l.word as int)) {
                        assert(crate::full::tight(
                            l,
                            c,
                            h as int,
                            frame_size(wire.len() as int, l.word as int),
                        ));
                    }
                }
                if st == PageState::PartialOpen {
                    let r = append_item::<I, F>(flash, &l, cache, buf, h, item);
                    proof {
                        let c1 = flash.contents();
                        if grown(log_of(l, c), log_of(l, c1), wire) {
                            grown_stored::<I>(l, c, c1, wire);
                        }
                        stored_after::<I>(l, c0, c, c1, wire);
                    }
                    match r {
                        Err(e) => {
                            return Err(e);
                        },
                        Ok(done) => {
                            if done {
                                return Ok(());
                            }
                        },
                    }
                    cache.invalidate();
                    proof {
                        if sound_ring(l, states_of(l, c0)) && !untouched(l, c0) {
                            packed_tested::<I>(l, c, wire.len() as int, m);
                        }
                        if crowded::<I>(l, c, room) {
                            crowded_is_packed::<I>(l, c, room);
                        }
                    }
                    let r = retire::<I, F>(flash, &l, cache, buf, h);
                    proof {
                        blank_agrees::<I>(cache, l, flash.contents());
                        fresh = false;
                        if r is Ok && crowded::<I>(l, c, room) {
                            packed_is_crowded::<I>(l, flash.contents(), room);
                        }
                    }
                    match r {
                        Err(e) => {
                            proof {
                                if harmless(l, flash.contents(), e) {
                                    stored_after::<I>(l, c0, c, flash.contents(), wire);
                                }
                            }
                            return Err(e);
                        },
                        Ok(()) => {
                            proof {
                                stored_after::<I>(l, c0, c, flash.contents(), wire);
                            }
                        },
                    }
                } else if st == PageState::Closed {
                    cache.invalidate();
                    proof {
                        if crowded::<I>(l, c, room) {
                            crowded_is_packed::<I>(l, c, room);
                        }
                    }
                    let r = advance::<I, F>(flash, &l, cache, buf, h);
                    proof {
                        blank_agrees::<I>(cache, l, flash.contents());
                        if r is Ok && crowded::<I>(l, c, room) {
                            packed_is_crowded::<I>(l, flash.contents(), room);
                        }
                        fresh = m < l.pages - 1;
                        m = step(l, m);
                    }
                    match r {
                        Err(e) => {
                            proof {
                                if harmless(l, flash.contents(), e) {
                                    stored_after::<I>(l, c0, c, flash.contents(), wire);
                                }
                            }
                            return Err(e);
                        },
                        Ok(()) => {
                            proof {
                                stored_after::<I>(l, c0, c, flash.contents(), wire);
                            }
                        },
                    }
                } else {
                    return Err(Error::Corrupted);
                }
            },
        }
    }
    proof {
        if sound_ring(l, states_of(l, c0)) {
            let c = flash.contents();
            packed_is_crowded::<I>(l, c, room);
            crowded_peopled::<I>(l, c, room);
            crowded_jammed::<I>(l, c, wire.len() as int);
            let k = choose|k: I::Key| #[trigger] lookup::<I>(l, c, k) is Some;
            assert(lookup::<I>(l, c0, k) == lookup::<I>(l, c, k));
            if l.pages >= 3 {
                let (j, k) = choose|j: I::Key, k: I::Key|
                    j != k && #[trigger] lookup::<I>(l, c, j) is Some && #[trigger] lookup::<I>(
                        l,
                        c,
                        k,
                    ) is Some;
                assert(lookup::<I>(l, c0, j) == lookup::<I>(l, c, j));
                assert(lookup::<I>(l, c0, k) == lookup::<I>(l, c, k));
            }
        }
    }
    Err(Error::FullStorage)
}

/// Brings the ring into the state in which items are appended, after a start
/// or a power loss: takes a blank region into use, completes a move to the
/// next page that was cut short, and erases what an interrupted erasure left
/// behind the head. Every key keeps its answer. The cache is emptied.
pub fn recover<I: StorageItem, F: NorFlash>(
    flash: &mut F,
    range: Range<u32>,
    cache: &mut Cache<I::Key>,
    buf: &mut [u8],
) -> (r: Result<(), Error<I::Error>>)
    requires
        old(flash).sound(),
        old(cache).wf(),
    ensures
        final(flash).sound(),
        final(flash).word() == old(flash).word(),
        final(flash).page() == old(flash).page(),
        final(flash).contents().len() == old(flash).contents().len(),
        final(buf)@.len() == old(buf)@.len(),
        final(flash).rewrites() == old(flash).rewrites(),
        tolled(old(flash).losses(), final(flash).losses(), cut(r)),
        mended(
            old(flash).mends(),
            final(flash).mends(),
            final(flash).reserve(),
            cut(r),
        ),
        old(flash).tidy() ==> final(flash).tidy(),
        final(cache).wf(),
        match region_spec(
            old(flash).word(),
            old(flash).page(),
            old(flash).contents().len(),
            range.start as nat,
            range.end as nat,
        ) {
            Err(e) => r matches Err(Error::Storage(x)) && x == e
                && final(flash).contents() == old(flash).contents(),
            Ok(l) => {
                &&& agrees::<I>(final(cache), l, final(flash).contents())
                &&& spared(old(flash).reserve(), final(flash).reserve(), recover_reserve(l), cut(r))
                &&& old(buf)@.len() < 2 * l.word ==> short(r)
                &&& short(r) ==> old(buf)@.len() < l.page
                &&& r matches Err(e) ==> e is Storage || e is Corrupted || e is BufferTooSmall
                &&& old(buf)@.len() >= 2 * l.word && ready(
                    l,
                    states_of(l, old(flash).contents()),
                ) ==> r is Ok && final(flash).contents() == old(flash).contents()
                &&& steady(l, old(flash).contents(), final(flash).contents(), r)
                &&& old(flash).tidy() ==> !balked(r)
                &&& old(flash).tidy() && sound_ring(l, states_of(l, old(flash).contents()))
                    && old(buf)@.len() >= 2 * l.word && snug(
                    l,
                    old(flash).contents(),
                    old(buf)@.len() as int,
                ) ==> r is Ok || cut(r)
                &&& snug_kept(
                    l,
                    old(flash).contents(),
                    final(flash).contents(),
                    r,
                    old(buf)@.len() as int,
                )
                &&& old(buf)@.len() >= 2 * l.word && snug(
                    l,
                    old(flash).contents(),
                    old(buf)@.len() as int,
                ) ==> !short(r)
                &&& match r {
                    Ok(()) => same_answers::<I>(l, old(flash).contents(), final(flash).contents())
                        && ready(l, states_of(l, final(flash).contents())),
                    Err(e) => harmless(l, final(flash).contents(), e) ==> same_answers::<I>(
                        l,
                        old(flash).contents(),
                        final(flash).contents(),
                    ),
                }
            },
        },
{
    let l = match region(flash, range) {
        Err(e) => {
            return Err(Error::Storage(e));
        },
        Ok(l) => l,
    };
    let ghost c0 = flash.contents();
    cache.invalidate();
    proof {
        blank_agrees::<I>(cache, l, c0);
    }
    if buf.len() < 2 * (l.word as usize) {
        return Err(Error::BufferTooSmall);
    }
    let head = find_head(flash, &l, cache, buf, None);
    proof {
        head_kind(l, states_of(l, c0));
    }
    match head {
        None => {
            if !all_erased(flash, &l, cache, buf) {
                cache.invalidate();
                proof {
                    blank_agrees::<I>(cache, l, c0);
                }
                return Err(Error::Corrupted);
            }
            let r = start::<I, F>(flash, &l, cache, buf);
            proof {
                blank_agrees::<I>(cache, l, flash.contents());
            }
            match r {
                Err(e) => {
                    return Err(e);
                },
                Ok(()) => {},
            }
        },
        Some(h) => {
            let st = page_state(flash, &l, cache, buf, h);
            if st == PageState::Closed {
                let r = advance::<I, F>(flash, &l, cache, buf, h);
                proof {
                    blank_agrees::<I>(cache, l, flash.contents());
                }
                match r {
                    Err(e) => {
                        return Err(e);
                    },
                    Ok(()) => {},
                }
            }
        },
    }
    let ghost c1 = flash.contents();
    let head = find_head(flash, &l, cache, buf, None);
    let h: u32 = match head {
        None => {
            cache.invalidate();
            proof {
                blank_agrees::<I>(cache, l, c1);
            }
            return Err(Error::Corrupted);
        },
        Some(h) => h,
    };
    let st = page_state(flash, &l, cache, buf, h);
    proof {
        head_kind(l, states_of(l, c1));
    }
    if st != PageState::PartialOpen {
        cache.invalidate();
        proof {
            blank_agrees::<I>(cache, l, c1);
        }
        return Err(Error::Corrupted);
    }
    let behind = page_state(flash, &l, cache, buf, l.next_page(h));
    if behind != PageState::Erased {
        let r = erase_behind::<I, F>(flash, &l, cache, buf, h);
        proof {
            let c2 = flash.contents();
            blank_agrees::<I>(cache, l, c2);
            if log_of(l, c2) == log_of(l, c1) {
                assert forall|k: I::Key| #[trigger] lookup::<I>(l, c2, k) == lookup::<I>(l, c0, k) by {
                    assert(lookup::<I>(l, c1, k) == lookup::<I>(l, c0, k));
                }
            }
        }
        match r {
            Err(e) => {
                return Err(e);
            },
            Ok(()) => {},
        }
    }
    cache.invalidate();
    proof {
        blank_agrees::<I>(cache, l, flash.contents());
    }
    Ok(())
}

/// Makes the region an empty store: erases every page and opens page 0.
/// Whatever the region held is lost.
pub fn format<I: StorageItem, F: NorFlash>(
    flash: &mut F,
    range: Range<u32>,
    cache: &mut Cache<I::Key>,
    buf: &mut [u8],
) -> (r: Result<(), Error<I::Error>>)
    requires
        old(flash).sound(),
        old(cache).wf(),
    ensures
        final(flash).sound(),
        final(flash).word() == old(flash).word(),
        final(flash).page() == old(flash).page(),
        final(flash).contents().len() == old(flash).contents().len(),
        final(buf)@.len() == old(buf)@.len(),
        final(flash).rewrites() == old(flash).rewrites(),
        tolled(old(flash).losses(), final(flash).losses(), cut(r)),
        mended(
            old(flash).mends(),
            final(flash).mends(),
            final(flash).reserve(),
            cut(r),
        ),
        old(flash).tidy() ==> final(flash).tidy(),
        final(cache).wf(),
        match region_spec(
            old(flash).word(),
            old(flash).page(),
            old(flash).contents().len(),
            range.start as nat,
            range.end as nat,
        ) {
            Err(e) => r matches Err(Error::Storage(x)) && x == e
                && final(flash).contents() == old(flash).contents(),
            Ok(l) => {
                &&& agrees::<I>(final(cache), l, final(flash).contents())
                &&& spared(old(flash).reserve(), final(flash).reserve(), format_reserve(l), cut(r))
                &&& old(buf)@.len() < 2 * l.word <==> short(r)
                &&& r matches Err(e) ==> e is Storage || e is BufferTooSmall
                &&& old(flash).tidy() ==> !balked(r)
                &&& old(flash).tidy() && old(buf)@.len() >= 2 * l.word ==> r is Ok || cut(r)
                &&& r is Ok ==> {
                    &&& forall|k: I::Key| lookup::<I>(l, final(flash).contents(), k) is None
                    &&& ready(l, states_of(l, final(flash).contents()))
                    &&& sound_ring(l, states_of(l, final(flash).contents()))
                    &&& snug(l, final(flash).contents(), old(buf)@.len() as int)
                }
            },
        },
{
    let l = match region(flash, range) {
        Err(e) => {
            return Err(Error::Storage(e));
        },
        Ok(l) => l,
    };
    cache.invalidate();
    proof {
        blank_agrees::<I>(cache, l, flash.contents());
    }
    if buf.len() < 2 * (l.word as usize) {
        return Err(Error::BufferTooSmall);
    }
    let mut p: u32 = 0;
    while p < l.pages
        invariant
            l.on(flash),
            p <= l.pages,
            flash.word() == old(flash).word(),
            flash.page() == old(flash).page(),
            flash.contents().len() == old(flash).contents().len(),
            region_spec(
                old(flash).word(),
                old(flash).page(),
                old(flash).contents().len(),
                range.start as nat,
                range.end as nat,
            ) == Ok::<Layout, FlashError>(l),
            buf@.len() == old(buf)@.len(),
            buf@.len() >= 2 * l.word,
            cache.wf(),
            cache.is_blank(),
            flash.rewrites() == old(flash).rewrites(),
            flash.losses() == old(flash).losses(),
            old(flash).mends() ==> flash.mends(),
            lasts(old(flash).reserve(), format_reserve(l)) ==> drawn(
                old(flash).reserve(),
                flash.reserve(),
                p * l.page,
            ),
            old(flash).tidy() ==> flash.tidy(),
            forall|q: int| 0 <= q < p ==> all_ones(#[trigger] l.page_at(flash.contents(), q)),
        decreases l.pages - p,
    {
        proof {
            assert((p + 1) * l.page == p * l.page + l.page && p * l.page + l.page <= l.pages
                * l.page && p * l.page >= 0) by (nonlinear_arith)
                requires
                    0 <= p < l.pages,
                    l.page >= 0,
            ;
        }
        let ghost c = flash.contents();
        let r = erase_page(flash, &l, p);
        proof {
            let c1 = flash.contents();
            blank_agrees::<I>(cache, l, c1);
            assert forall|q: int| 0 <= q < p implies all_ones(#[trigger] l.page_at(c1, q)) by {
                assert(l.page_at(c1, q) == l.page_at(c, q));
            }
        }
        match r {
            Err(e) => {
                return Err(Error::Storage(e));
            },
            Ok(()) => {},
        }
        p += 1;
    }
    let ghost c1 = flash.contents();
    proof {
        assert forall|q: int| 0 <= q < l.pages implies states_of(l, c1)[q] == PageState::Erased by {
            l.page_len(c1, q);
            blank_is_erased(l.page_at(c1, q), l.word as int);
        }
        assert forall|k: I::Key| lookup::<I>(l, c1, k) is None by {
            crate::laws::blank_store_is_empty::<I>(l, c1, k);
        }
    }
    let r = start::<I, F>(flash, &l, cache, buf);
    proof {
        let c2 = flash.contents();
        blank_agrees::<I>(cache, l, c2);
        assert forall|k: I::Key| lookup::<I>(l, c2, k) is None by {
            assert(lookup::<I>(l, c1, k) is None);
        }
    }
    r
}

} // verus!
