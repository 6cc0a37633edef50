//! The ring of pages and the log that it holds.
//!
//! The pages are used in turn. The head is the page that items are appended
//! to, or, while the store moves on to the next page, the closed page that was
//! filled last. The page behind the head is kept out of the log: it is blank,
//! or it is being prepared as the next head, or it is being erased. The log
//! runs over all other pages, from the second page behind the head round to
//! the head itself.

use crate::cache::Cache;
use crate::flash::NorFlash;
use crate::frame::slot_at;
use crate::header::{read_state, state_of, PageState};
use crate::item::{wants, StorageItem, StorageKey};
use crate::layout::{others_kept, Layout};
use crate::scan::{entry_at, has_room, item_len, parse, reach, roomy, Entry};
use vstd::prelude::*;

verus! {

/// The states of all pages of the store.
pub open spec fn states_of(l: Layout, contents: Seq<u8>) -> Seq<PageState> {
    Seq::new(l.pages as nat, |p: int| state_of(l.page_at(contents, p), l.word as int))
}

/// `st` with the state of one page replaced, where `patch` names one.
pub open spec fn patched(st: Seq<PageState>, patch: Option<(u32, PageState)>) -> Seq<PageState> {
    match patch {
        Some((p, s)) => if p < st.len() {
            st.update(p as int, s)
        } else {
            st
        },
        None => st,
    }
}

/// Page `p` is partially open and the page before it is not.
pub open spec fn leads(l: Layout, st: Seq<PageState>, p: int) -> bool {
    st[p] == PageState::PartialOpen && st[l.pred(p)] != PageState::PartialOpen
}

/// Page `p` is closed and the page behind it is erased.
pub open spec fn trails(l: Layout, st: Seq<PageState>, p: int) -> bool {
    st[p] == PageState::Closed && st[l.succ(p)] == PageState::Erased
}

/// The first page from `from` on that leads.
pub open spec fn first_lead(l: Layout, st: Seq<PageState>, from: int) -> Option<int>
    decreases l.pages - from,
{
    if from < 0 || from >= l.pages {
        None
    } else if leads(l, st, from) {
        Some(from)
    } else {
        first_lead(l, st, from + 1)
    }
}

/// The first page from `from` on that trails.
pub open spec fn first_trail(l: Layout, st: Seq<PageState>, from: int) -> Option<int>
    decreases l.pages - from,
{
    if from < 0 || from >= l.pages {
        None
    } else if trails(l, st, from) {
        Some(from)
    } else {
        first_trail(l, st, from + 1)
    }
}

/// The head of the ring: the first page that leads; where none does, the
/// first that trails.
pub open spec fn head_of(l: Layout, st: Seq<PageState>) -> Option<int> {
    match first_lead(l, st, 0) {
        Some(p) => Some(p),
        None => first_trail(l, st, 0),
    }
}

/// The items of page `p`: those of its body where the page is closed or
/// partially open, none otherwise.
pub open spec fn page_items(l: Layout, contents: Seq<u8>, p: int) -> Seq<Entry> {
    let pg = l.page_at(contents, p);
    let s = state_of(pg, l.word as int);
    if s == PageState::Closed || s == PageState::PartialOpen {
        parse(pg, l.word as int, p, 2 * l.word)
    } else {
        Seq::empty()
    }
}

/// The items of `count` pages in ring order, starting with page `p`.
pub open spec fn items_from(l: Layout, contents: Seq<u8>, p: int, count: nat) -> Seq<Entry>
    decreases count,
{
    if count == 0 {
        Seq::empty()
    } else {
        page_items(l, contents, p) + items_from(l, contents, l.succ(p), (count - 1) as nat)
    }
}

/// The log of a ring whose head is `head`: the items of all pages but the one
/// behind the head, oldest first.
pub open spec fn log_at(l: Layout, contents: Seq<u8>, head: Option<int>) -> Seq<Entry> {
    match head {
        Some(h) => items_from(l, contents, l.succ(l.succ(h)), (l.pages - 1) as nat),
        None => Seq::empty(),
    }
}

/// The log of the store.
pub open spec fn log_of(l: Layout, contents: Seq<u8>) -> Seq<Entry> {
    log_at(l, contents, head_of(l, states_of(l, contents)))
}

/// Page `p` is part of the log: it is not the page behind the head, and it
/// is closed or partially open.
pub open spec fn in_log(l: Layout, contents: Seq<u8>, p: int) -> bool {
    let s = states_of(l, contents)[p];
    &&& head_of(l, states_of(l, contents)) matches Some(h) && p != l.succ(h)
    &&& s == PageState::Closed || s == PageState::PartialOpen
}

/// A buffer of `cap` bytes is enough to walk the log: no page of the log
/// holds a length word that announces a frame of more than `cap` bytes where
/// a walk would read it.
pub open spec fn snug(l: Layout, contents: Seq<u8>, cap: int) -> bool {
    forall|p: int|
        0 <= p < l.pages && in_log(l, contents, p) ==> roomy(
            #[trigger] l.page_at(contents, p),
            l.word as int,
            2 * l.word,
            cap,
        )
}

/// The last entry of `es`, present or removed, whose payload `want` accepts.
pub open spec fn last_for(es: Seq<Entry>, want: spec_fn(Seq<u8>) -> bool) -> Option<Entry>
    decreases es.len(),
{
    if es.len() == 0 {
        None
    } else if want(es.last().data) {
        Some(es.last())
    } else {
        last_for(es.drop_last(), want)
    }
}

/// The live entry among `es` for the payloads that `want` accepts: the last
/// such entry, unless it was removed.
pub open spec fn live_in(es: Seq<Entry>, want: spec_fn(Seq<u8>) -> bool) -> Option<Entry> {
    match last_for(es, want) {
        Some(e) => if e.present {
            Some(e)
        } else {
            None
        },
        None => None,
    }
}

/// The payload of the live item of `key` in the store, if there is one.
pub open spec fn lookup<I: StorageItem>(l: Layout, contents: Seq<u8>, key: I::Key) -> Option<
    Seq<u8>,
> {
    match live_in(log_of(l, contents), wants::<I>(key)) {
        Some(e) => Some(e.data),
        None => None,
    }
}

/// Every state that is claimed is the state of the page.
pub open spec fn states_agree(claims: Seq<Option<PageState>>, l: Layout, contents: Seq<u8>) -> bool {
    forall|p: int|
        0 <= p < claims.len() && (#[trigger] claims[p]) is Some ==> p < l.pages && claims[p]
            == Some(states_of(l, contents)[p])
}

/// Every offset that is claimed is one that a chain of items leads to.
pub open spec fn frees_agree(claims: Seq<Option<u32>>, l: Layout, contents: Seq<u8>) -> bool {
    forall|p: int|
        0 <= p < claims.len() && (#[trigger] claims[p]) is Some ==> {
            &&& p < l.pages
            &&& 2 * l.word <= claims[p].unwrap() <= l.page
            &&& reach(
                l.page_at(contents, p),
                l.word as int,
                p,
                2 * l.word,
                claims[p].unwrap() as int,
            ) is Some
        }
}

/// Every place that is claimed for a key is where the live item of that key
/// starts.
pub open spec fn keys_agree<I: StorageItem>(
    claims: Seq<(I::Key, u32, u32)>,
    l: Layout,
    contents: Seq<u8>,
) -> bool {
    forall|i: int|
        0 <= i < claims.len() ==> match live_in(
            log_of(l, contents),
            wants::<I>((#[trigger] claims[i]).0),
        ) {
            Some(e) => e.page == claims[i].1 && e.at == claims[i].2,
            None => false,
        }
}

/// Everything that the cache claims is true of the store.
pub open spec fn agrees<I: StorageItem>(cache: &Cache<I::Key>, l: Layout, contents: Seq<u8>) -> bool {
    &&& cache.wf()
    &&& states_agree(cache.state_claims(), l, contents)
    &&& frees_agree(cache.free_claims(), l, contents)
    &&& keys_agree::<I>(cache.key_claims(), l, contents)
}

/// The state of page `p`, from the cache where it claims one, from the flash
/// otherwise.
pub fn page_state<F: NorFlash, K: StorageKey>(
    flash: &F,
    l: &Layout,
    cache: &mut Cache<K>,
    buf: &mut [u8],
    p: u32,
) -> (s: PageState)
    requires
        l.on(flash),
        p < l.pages,
        old(buf)@.len() >= 2 * l.word,
        old(cache).wf(),
        states_agree(old(cache).state_claims(), *l, flash.contents()),
    ensures
        final(buf)@.len() == old(buf)@.len(),
        s == states_of(*l, flash.contents())[p as int],
        final(cache).wf(),
        states_agree(final(cache).state_claims(), *l, flash.contents()),
        final(cache).free_claims() == old(cache).free_claims(),
        final(cache).key_claims() == old(cache).key_claims(),
        final(cache).shape() == old(cache).shape(),
        final(cache).capacity() == old(cache).capacity(),
        final(cache).state_claims().len() == old(cache).state_claims().len(),
{
    match cache.query_page_state(p) {
        Some(s) => s,
        None => {
            let s = read_state(flash, l, p, buf);
            cache.notify_page_state(p, s);
            s
        },
    }
}

/// The state of page `p` in the ring in which `patch` replaces the state of
/// one page.
pub fn peek<F: NorFlash, K: StorageKey>(
    flash: &F,
    l: &Layout,
    cache: &mut Cache<K>,
    buf: &mut [u8],
    p: u32,
    patch: Option<(u32, PageState)>,
) -> (s: PageState)
    requires
        l.on(flash),
        p < l.pages,
        old(buf)@.len() >= 2 * l.word,
        old(cache).wf(),
        states_agree(old(cache).state_claims(), *l, flash.contents()),
    ensures
        final(buf)@.len() == old(buf)@.len(),
        s == patched(states_of(*l, flash.contents()), patch)[p as int],
        final(cache).wf(),
        states_agree(final(cache).state_claims(), *l, flash.contents()),
        final(cache).free_claims() == old(cache).free_claims(),
        final(cache).key_claims() == old(cache).key_claims(),
        final(cache).shape() == old(cache).shape(),
        final(cache).capacity() == old(cache).capacity(),
        final(cache).state_claims().len() == old(cache).state_claims().len(),
{
    match patch {
        Some((x, s)) => {
            if x == p {
                return s;
            }
        },
        None => {},
    }
    page_state(flash, l, cache, buf, p)
}

/// Finds the head of the ring in which `patch` replaces the state of one
/// page.
pub fn find_head<F: NorFlash, K: StorageKey>(
    flash: &F,
    l: &Layout,
    cache: &mut Cache<K>,
    buf: &mut [u8],
    patch: Option<(u32, PageState)>,
) -> (r: Option<u32>)
    requires
        l.on(flash),
        old(buf)@.len() >= 2 * l.word,
        old(cache).wf(),
        states_agree(old(cache).state_claims(), *l, flash.contents()),
    ensures
        final(buf)@.len() == old(buf)@.len(),
        match r {
            Some(h) => h < l.pages && head_of(*l, patched(states_of(*l, flash.contents()), patch))
                == Some(h as int),
            None => head_of(*l, patched(states_of(*l, flash.contents()), patch)) is None,
        },
        final(cache).wf(),
        states_agree(final(cache).state_claims(), *l, flash.contents()),
        final(cache).free_claims() == old(cache).free_claims(),
        final(cache).key_claims() == old(cache).key_claims(),
        final(cache).shape() == old(cache).shape(),
        final(cache).capacity() == old(cache).capacity(),
        final(cache).state_claims().len() == old(cache).state_claims().len(),
{
    let ghost st = patched(states_of(*l, flash.contents()), patch);
    let mut p: u32 = 0;
    while p < l.pages
        invariant
            l.on(flash),
            p <= l.pages,
            buf@.len() == old(buf)@.len(),
            buf@.len() >= 2 * l.word,
            st == patched(states_of(*l, flash.contents()), patch),
            first_lead(*l, st, 0) == first_lead(*l, st, p as int),
            cache.wf(),
            states_agree(cache.state_claims(), *l, flash.contents()),
            cache.free_claims() == old(cache).free_claims(),
            cache.key_claims() == old(cache).key_claims(),
            cache.shape() == old(cache).shape(),
            cache.capacity() == old(cache).capacity(),
            cache.state_claims().len() == old(cache).state_claims().len(),
        decreases l.pages - p,
    {
        let s = peek(flash, l, cache, buf, p, patch);
        if let PageState::PartialOpen = s {
            let before = peek(flash, l, cache, buf, l.prev_page(p), patch);
            let follows: bool = match before {
                PageState::PartialOpen => true,
                _ => false,
            };
            if !follows {
                return Some(p);
            }
        }
        p += 1;
    }
    let mut c: u32 = 0;
    while c < l.pages
        invariant
            l.on(flash),
            c <= l.pages,
            buf@.len() == old(buf)@.len(),
            buf@.len() >= 2 * l.word,
            st == patched(states_of(*l, flash.contents()), patch),
            first_lead(*l, st, 0) is None,
            first_trail(*l, st, 0) == first_trail(*l, st, c as int),
            cache.wf(),
            states_agree(cache.state_claims(), *l, flash.contents()),
            cache.free_claims() == old(cache).free_claims(),
            cache.key_claims() == old(cache).key_claims(),
            cache.shape() == old(cache).shape(),
            cache.capacity() == old(cache).capacity(),
            cache.state_claims().len() == old(cache).state_claims().len(),
        decreases l.pages - c,
    {
        let s = peek(flash, l, cache, buf, c, patch);
        if let PageState::Closed = s {
            let after = peek(flash, l, cache, buf, l.next_page(c), patch);
            if let PageState::Erased = after {
                return Some(c);
            }
        }
        c += 1;
    }
    None
}

/// Whether every page of the ring is in the erased state.
pub fn all_erased<F: NorFlash, K: StorageKey>(
    flash: &F,
    l: &Layout,
    cache: &mut Cache<K>,
    buf: &mut [u8],
) -> (r: bool)
    requires
        l.on(flash),
        old(buf)@.len() >= 2 * l.word,
        old(cache).wf(),
        states_agree(old(cache).state_claims(), *l, flash.contents()),
    ensures
        final(buf)@.len() == old(buf)@.len(),
        r == (forall|p: int|
            0 <= p < l.pages ==> states_of(*l, flash.contents())[p] == PageState::Erased),
        final(cache).wf(),
        states_agree(final(cache).state_claims(), *l, flash.contents()),
        final(cache).free_claims() == old(cache).free_claims(),
        final(cache).key_claims() == old(cache).key_claims(),
        final(cache).shape() == old(cache).shape(),
        final(cache).capacity() == old(cache).capacity(),
        final(cache).state_claims().len() == old(cache).state_claims().len(),
{
    let mut p: u32 = 0;
    while p < l.pages
        invariant
            l.on(flash),
            p <= l.pages,
            buf@.len() == old(buf)@.len(),
            buf@.len() >= 2 * l.word,
            forall|q: int| 0 <= q < p ==> states_of(*l, flash.contents())[q] == PageState::Erased,
            cache.wf(),
            states_agree(cache.state_claims(), *l, flash.contents()),
            cache.free_claims() == old(cache).free_claims(),
            cache.key_claims() == old(cache).key_claims(),
            cache.shape() == old(cache).shape(),
            cache.capacity() == old(cache).capacity(),
            cache.state_claims().len() == old(cache).state_claims().len(),
        decreases l.pages - p,
    {
        let s = page_state(flash, l, cache, buf, p);
        match s {
            PageState::Erased => {},
            _ => {
                return false;
            },
        }
        p += 1;
    }
    true
}

/// A cache without claims agrees with every store.
pub proof fn blank_agrees<I: StorageItem>(cache: &Cache<I::Key>, l: Layout, contents: Seq<u8>)
    requires
        cache.wf(),
        cache.is_blank(),
    ensures
        agrees::<I>(cache, l, contents),
{
}

/// The entry `e` is the item that page `e.page` holds at offset `e.at`.
pub open spec fn entry_sound(l: Layout, contents: Seq<u8>, e: Entry) -> bool {
    let pg = l.page_at(contents, e.page);
    &&& 0 <= e.page < l.pages
    &&& 2 * l.word <= e.at
    &&& has_room(pg, l.word as int, e.at)
    &&& item_len(slot_at(pg, l.word as int, e.at)) is Some
    &&& e == entry_at(pg, l.word as int, e.page, e.at)
}

/// Every item that a walk over a page yields is an item of that page.
pub proof fn parse_sound(l: Layout, contents: Seq<u8>, p: int, off: int)
    requires
        0 <= p < l.pages,
        2 * l.word <= off,
    ensures
        forall|i: int|
            0 <= i < parse(l.page_at(contents, p), l.word as int, p, off).len() ==> entry_sound(
                l,
                contents,
                #[trigger] parse(l.page_at(contents, p), l.word as int, p, off)[i],
            ),
    decreases l.page_at(contents, p).len() - off,
{
    let pg = l.page_at(contents, p);
    let w = l.word as int;
    let es = parse(pg, w, p, off);
    if has_room(pg, w, off) {
        if let Some(len) = item_len(slot_at(pg, w, off)) {
            crate::frame::pad_bounds(len, w);
            let next = off + crate::frame::frame_size(len, w);
            parse_sound(l, contents, p, next);
            let rest = parse(pg, w, p, next);
            assert forall|i: int| 0 <= i < es.len() implies entry_sound(
                l,
                contents,
                #[trigger] es[i],
            ) by {
                if i > 0 {
                    assert(es[i] == rest[i - 1]);
                }
            }
        }
    }
}

/// Every item of the log is an item of the page that it names.
pub proof fn items_sound(l: Layout, contents: Seq<u8>, p: int, count: nat)
    requires
        l.wf(),
        0 <= p < l.pages,
    ensures
        forall|i: int|
            0 <= i < items_from(l, contents, p, count).len() ==> entry_sound(
                l,
                contents,
                #[trigger] items_from(l, contents, p, count)[i],
            ),
    decreases count,
{
    if count > 0 {
        parse_sound(l, contents, p, 2 * l.word);
        items_sound(l, contents, l.succ(p), (count - 1) as nat);
        let es = items_from(l, contents, p, count);
        let first = page_items(l, contents, p);
        let rest = items_from(l, contents, l.succ(p), (count - 1) as nat);
        assert forall|i: int| 0 <= i < es.len() implies entry_sound(l, contents, #[trigger] es[i]) by {
            if i < first.len() {
                assert(es[i] == first[i]);
            } else {
                assert(es[i] == rest[i - first.len()]);
            }
        }
    }
}

/// The first leading or trailing page from `from` on is a page of the ring.
pub proof fn first_in_range(l: Layout, st: Seq<PageState>, from: int)
    ensures
        first_lead(l, st, from) matches Some(p) ==> from <= p < l.pages && leads(l, st, p),
        first_trail(l, st, from) matches Some(p) ==> from <= p < l.pages && trails(l, st, p),
    decreases l.pages - from,
{
    if 0 <= from < l.pages {
        first_in_range(l, st, from + 1);
    }
}

/// The head is a page of the ring.
pub proof fn head_in_range(l: Layout, st: Seq<PageState>)
    ensures
        head_of(l, st) matches Some(h) ==> 0 <= h < l.pages,
{
    first_in_range(l, st, 0);
}

/// The last accepted entry is an entry that is accepted.
pub proof fn last_for_is_in(es: Seq<Entry>, want: spec_fn(Seq<u8>) -> bool)
    ensures
        last_for(es, want) matches Some(e) ==> es.contains(e) && want(e.data),
    decreases es.len(),
{
    if es.len() > 0 {
        if want(es.last().data) {
            assert(es[es.len() - 1] == es.last());
        } else {
            last_for_is_in(es.drop_last(), want);
            if let Some(e) = last_for(es.drop_last(), want) {
                let i = choose|i: int| 0 <= i < es.drop_last().len() && es.drop_last()[i] == e;
                assert(es[i] == e);
            }
        }
    }
}

/// The last accepted entry of the log is an item of the page that it names.
pub proof fn log_sound(l: Layout, contents: Seq<u8>, want: spec_fn(Seq<u8>) -> bool)
    requires
        l.wf(),
    ensures
        last_for(log_of(l, contents), want) matches Some(e) ==> entry_sound(l, contents, e)
            && want(e.data),
{
    let log = log_of(l, contents);
    last_for_is_in(log, want);
    head_in_range(l, states_of(l, contents));
    if let Some(h) = head_of(l, states_of(l, contents)) {
        items_sound(l, contents, l.succ(l.succ(h)), (l.pages - 1) as nat);
    }
    if let Some(e) = last_for(log, want) {
        let i = choose|i: int| 0 <= i < log.len() && log[i] == e;
        assert(entry_sound(l, contents, log[i]));
    }
}

/// The page `i` steps behind `p` in the ring.
pub open spec fn nth(l: Layout, p: int, i: nat) -> int
    decreases i,
{
    if i == 0 {
        p
    } else {
        nth(l, l.succ(p), (i - 1) as nat)
    }
}

/// One step further is the successor.
pub proof fn nth_step(l: Layout, p: int, i: nat)
    ensures
        nth(l, p, i + 1) == l.succ(nth(l, p, i)),
    decreases i,
{
    assert(nth(l, p, i + 1) == nth(l, l.succ(p), i));
    if i > 0 {
        let j = (i - 1) as nat;
        nth_step(l, l.succ(p), j);
        assert(j + 1 == i);
        assert(nth(l, p, i) == nth(l, l.succ(p), j));
    } else {
        assert(nth(l, l.succ(p), 0) == l.succ(p));
    }
}

/// Up to one turn round the ring, the page `i` steps behind `p` is `p + i`,
/// wrapped once.
pub proof fn nth_closed(l: Layout, p: int, i: nat)
    requires
        l.wf(),
        0 <= p < l.pages,
        i <= l.pages,
    ensures
        nth(l, p, i) == (if p + i < l.pages {
            p + i
        } else {
            p + i - l.pages
        }),
    decreases i,
{
    if i > 0 {
        nth_closed(l, p, (i - 1) as nat);
        nth_step(l, p, (i - 1) as nat);
    }
}

/// The items of `count + 1` pages are those of the first `count` followed by
/// those of the last.
pub proof fn items_extend(l: Layout, contents: Seq<u8>, p: int, count: nat)
    ensures
        items_from(l, contents, p, count + 1) == items_from(l, contents, p, count) + page_items(
            l,
            contents,
            nth(l, p, count),
        ),
    decreases count,
{
    if count == 0 {
        assert(items_from(l, contents, l.succ(p), 0) =~= Seq::<Entry>::empty());
        assert(items_from(l, contents, p, 1) =~= page_items(l, contents, p));
        assert(items_from(l, contents, p, 0) + page_items(l, contents, p) =~= page_items(
            l,
            contents,
            p,
        ));
    } else {
        items_extend(l, contents, l.succ(p), (count - 1) as nat);
        let a = page_items(l, contents, p);
        let b = items_from(l, contents, l.succ(p), (count - 1) as nat);
        let c = page_items(l, contents, nth(l, p, count));
        assert(a + (b + c) =~= (a + b) + c);
    }
}

/// A run of pages that holds the same pages in two stores holds the same
/// items.
pub proof fn items_keep(l: Layout, a: Seq<u8>, b: Seq<u8>, p: int, count: nat)
    requires
        forall|j: nat|
            j < count ==> page_items(l, b, #[trigger] nth(l, p, j)) == page_items(
                l,
                a,
                nth(l, p, j),
            ),
    ensures
        items_from(l, b, p, count) == items_from(l, a, p, count),
    decreases count,
{
    if count > 0 {
        assert(nth(l, p, 0) == p);
        assert forall|j: nat| j < count - 1 implies page_items(
            l,
            b,
            #[trigger] nth(l, l.succ(p), j),
        ) == page_items(l, a, nth(l, l.succ(p), j)) by {
            assert(nth(l, p, j + 1) == nth(l, l.succ(p), j));
        }
        items_keep(l, a, b, l.succ(p), (count - 1) as nat);
    }
}

/// A buffer that is enough to walk the log stays enough where the head stays
/// and a single page changes that is outside the log or can still be walked
/// with the buffer.
pub proof fn snug_step(l: Layout, a: Seq<u8>, b: Seq<u8>, x: int, cap: int)
    requires
        l.wf(),
        0 <= x < l.pages,
        snug(l, a, cap),
        head_of(l, states_of(l, b)) == head_of(l, states_of(l, a)),
        others_kept(l, a, b, x),
        in_log(l, b, x) ==> roomy(l.page_at(b, x), l.word as int, 2 * l.word, cap),
    ensures
        snug(l, b, cap),
{
    assert forall|p: int| 0 <= p < l.pages && in_log(l, b, p) implies roomy(
        #[trigger] l.page_at(b, p),
        l.word as int,
        2 * l.word,
        cap,
    ) by {
        if p != x {
            assert(l.page_at(b, p) == l.page_at(a, p));
            assert(in_log(l, a, p));
        }
    }
}

/// A buffer that is enough to walk the log stays enough where the page
/// behind the head becomes the head, if it can be walked with the buffer.
pub proof fn snug_commit(l: Layout, a: Seq<u8>, b: Seq<u8>, head: int, cap: int)
    requires
        l.wf(),
        0 <= head < l.pages,
        snug(l, a, cap),
        head_of(l, states_of(l, a)) == Some(head),
        head_of(l, states_of(l, b)) == Some(l.succ(head)),
        others_kept(l, a, b, l.succ(head)),
        roomy(l.page_at(b, l.succ(head)), l.word as int, 2 * l.word, cap),
    ensures
        snug(l, b, cap),
{
    let t = l.succ(head);
    assert forall|p: int| 0 <= p < l.pages && in_log(l, b, p) implies roomy(
        #[trigger] l.page_at(b, p),
        l.word as int,
        2 * l.word,
        cap,
    ) by {
        if p != t {
            assert(l.page_at(b, p) == l.page_at(a, p));
            assert(in_log(l, a, p));
        }
    }
}

} // verus!
