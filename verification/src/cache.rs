//! Optional memory of what the flash holds, so that it need not be read
//! again.
//!
//! A cache holds claims: that a page is in some state, that a chain of items
//! in a page leads to some offset, that the live item of a key starts at some
//! place. A cache of a lesser shape simply forgets what it is told. Every
//! claim must be true of the flash when it is made, and whoever changes the
//! flash takes back the claims that the change may have broken.

use crate::header::PageState;
use crate::item::StorageKey;
use vstd::prelude::*;

verus! {

/// What a cache remembers.
#[derive(Clone, Copy, Debug, PartialEq, Eq, Structural)]
pub enum CacheShape {
    /// Nothing.
    NoCache,
    /// The state of each page.
    PageState,
    /// Also, for each page, an offset that a chain of items leads to.
    PagePointer,
    /// Also where the live items of some keys start.
    KeyPointer,
}

/// A cache of one of the four shapes.
pub struct Cache<K> {
    shape: CacheShape,
    states: Vec<Option<PageState>>,
    frees: Vec<Option<u32>>,
    keys: Vec<(K, u32, u32)>,
    slots: usize,
}

/// Which claims about keys are taken back.
pub enum Taken<K> {
    /// Those about this key.
    Key(K),
    /// Those about places in this page.
    Page(u32),
}

/// Accepts the claims that stay when `what` is taken back.
pub open spec fn stays<K>(what: Taken<K>) -> spec_fn((K, u32, u32)) -> bool {
    match what {
        Taken::Key(key) => not_of(key),
        Taken::Page(page) => not_in(page),
    }
}

/// The claims of `s` that `keep` accepts, in order.
pub open spec fn sift<K>(s: Seq<(K, u32, u32)>, keep: spec_fn((K, u32, u32)) -> bool) -> Seq<
    (K, u32, u32),
>
    decreases s.len(),
{
    if s.len() == 0 {
        Seq::empty()
    } else if keep(s.last()) {
        sift(s.drop_last(), keep).push(s.last())
    } else {
        sift(s.drop_last(), keep)
    }
}

/// Accepts the claims about keys other than `key`.
pub open spec fn not_of<K>(key: K) -> spec_fn((K, u32, u32)) -> bool {
    |x: (K, u32, u32)| x.0 != key
}

/// Accepts the claims about places outside page `page`.
pub open spec fn not_in<K>(page: u32) -> spec_fn((K, u32, u32)) -> bool {
    |x: (K, u32, u32)| x.1 != page
}

/// The place of the first claim about `key` from index `from` on.
pub open spec fn first_of<K>(s: Seq<(K, u32, u32)>, key: K, from: int) -> Option<(u32, u32)>
    decreases s.len() - from,
{
    if from < 0 || from >= s.len() {
        None
    } else if s[from].0 == key {
        Some((s[from].1, s[from].2))
    } else {
        first_of(s, key, from + 1)
    }
}

/// The claims after the place of `key` was recorded in a cache of
/// `capacity` claims: the new claim first, then the claims about other keys,
/// the last of them dropped where the cache would overflow.
pub open spec fn placed<K>(s: Seq<(K, u32, u32)>, key: K, page: u32, at: u32, capacity: nat) -> Seq<
    (K, u32, u32),
> {
    if capacity == 0 {
        Seq::empty()
    } else {
        let kept = sift(s, not_of(key));
        seq![(key, page, at)] + (if kept.len() >= capacity {
            kept.take(capacity - 1)
        } else {
            kept
        })
    }
}

/// Sifting keeps claims that were there, and only those that are accepted.
pub proof fn sift_sound<K>(s: Seq<(K, u32, u32)>, keep: spec_fn((K, u32, u32)) -> bool)
    ensures
        sift(s, keep).len() <= s.len(),
        forall|i: int|
            0 <= i < sift(s, keep).len() ==> s.contains(#[trigger] sift(s, keep)[i]) && keep(
                sift(s, keep)[i],
            ),
    decreases s.len(),
{
    if s.len() > 0 {
        sift_sound(s.drop_last(), keep);
        let rest = sift(s.drop_last(), keep);
        assert forall|i: int| 0 <= i < sift(s, keep).len() implies s.contains(
            #[trigger] sift(s, keep)[i],
        ) && keep(sift(s, keep)[i]) by {
            if i < rest.len() {
                let x = rest[i];
                let j = choose|j: int| 0 <= j < s.drop_last().len() && s.drop_last()[j] == x;
                assert(s[j] == x);
            } else {
                assert(s[s.len() - 1] == s.last());
            }
        }
    }
}

impl<K: StorageKey> Cache<K> {
    /// The shape of this cache.
    pub closed spec fn shape(&self) -> CacheShape {
        self.shape
    }

    /// For each page, the state that the cache claims for it.
    pub closed spec fn state_claims(&self) -> Seq<Option<PageState>> {
        self.states@
    }

    /// For each page, the offset that the cache claims a chain of items to
    /// lead to.
    pub closed spec fn free_claims(&self) -> Seq<Option<u32>> {
        self.frees@
    }

    /// The keys whose live item the cache claims to know, each with the page
    /// and the offset of that item, most recently written first.
    pub closed spec fn key_claims(&self) -> Seq<(K, u32, u32)> {
        self.keys@
    }

    /// The number of keys that the cache can hold.
    pub closed spec fn capacity(&self) -> nat {
        self.slots as nat
    }

    /// The cache holds no more than its shape allows.
    pub closed spec fn wf(&self) -> bool {
        &&& self.keys@.len() <= self.slots
        &&& self.frees@.len() <= self.states@.len()
        &&& self.shape == CacheShape::NoCache ==> self.states@.len() == 0
        &&& self.shape == CacheShape::PageState ==> self.frees@.len() == 0
        &&& self.shape != CacheShape::KeyPointer ==> self.slots == 0
    }

    /// No claim is held.
    pub open spec fn is_blank(&self) -> bool {
        &&& forall|p: int| 0 <= p < self.state_claims().len() ==> self.state_claims()[p] is None
        &&& forall|p: int| 0 <= p < self.free_claims().len() ==> self.free_claims()[p] is None
        &&& self.key_claims().len() == 0
    }

    fn with(shape: CacheShape, states: usize, frees: usize, slots: usize) -> (c: Cache<K>)
        requires
            frees <= states,
            shape == CacheShape::NoCache ==> states == 0,
            shape == CacheShape::PageState ==> frees == 0,
            shape != CacheShape::KeyPointer ==> slots == 0,
        ensures
            c.wf(),
            c.is_blank(),
            c.shape() == shape,
            c.state_claims().len() == states,
            c.free_claims().len() == frees,
            c.capacity() == slots,
    {
        let mut s: Vec<Option<PageState>> = Vec::new();
        while s.len() < states
            invariant
                s@.len() <= states,
                forall|p: int| 0 <= p < s@.len() ==> s@[p] is None,
            decreases states - s@.len(),
        {
            s.push(None);
        }
        let mut f: Vec<Option<u32>> = Vec::new();
        while f.len() < frees
            invariant
                f@.len() <= frees,
                forall|p: int| 0 <= p < f@.len() ==> f@[p] is None,
            decreases frees - f@.len(),
        {
            f.push(None);
        }
        Cache { shape, states: s, frees: f, keys: Vec::new(), slots }
    }

    /// A cache that remembers nothing.
    pub fn no_cache() -> (c: Cache<K>)
        ensures
            c.wf(),
            c.is_blank(),
            c.shape() == CacheShape::NoCache,
    {
        Cache::with(CacheShape::NoCache, 0, 0, 0)
    }

    /// A cache for the states of `pages` pages.
    pub fn page_state(pages: usize) -> (c: Cache<K>)
        ensures
            c.wf(),
            c.is_blank(),
            c.shape() == CacheShape::PageState,
            c.state_claims().len() == pages,
    {
        Cache::with(CacheShape::PageState, pages, 0, 0)
    }

    /// A cache for the states and the offsets of `pages` pages.
    pub fn page_pointer(pages: usize) -> (c: Cache<K>)
        ensures
            c.wf(),
            c.is_blank(),
            c.shape() == CacheShape::PagePointer,
            c.state_claims().len() == pages,
            c.free_claims().len() == pages,
    {
        Cache::with(CacheShape::PagePointer, pages, pages, 0)
    }

    /// A cache for the states and the offsets of `pages` pages and for the
    /// places of up to `slots` keys.
    pub fn key_pointer(pages: usize, slots: usize) -> (c: Cache<K>)
        ensures
            c.wf(),
            c.is_blank(),
            c.shape() == CacheShape::KeyPointer,
            c.state_claims().len() == pages,
            c.free_claims().len() == pages,
            c.capacity() == slots,
    {
        Cache::with(CacheShape::KeyPointer, pages, pages, slots)
    }

    /// The state that the cache claims for page `p`.
    pub fn query_page_state(&self, p: u32) -> (r: Option<PageState>)
        ensures
            r == (if p < self.state_claims().len() {
                self.state_claims()[p as int]
            } else {
                None
            }),
    {
        if (p as usize) < self.states.len() {
            self.states[p as usize]
        } else {
            None
        }
    }

    /// The offset that the cache claims a chain of items in page `p` to lead
    /// to.
    pub fn query_page_free(&self, p: u32) -> (r: Option<u32>)
        ensures
            r == (if p < self.free_claims().len() {
                self.free_claims()[p as int]
            } else {
                None
            }),
    {
        if (p as usize) < self.frees.len() {
            self.frees[p as usize]
        } else {
            None
        }
    }

    /// The place that the cache claims for the live item of `key`: that of
    /// the first claim about the key.
    pub fn query_key(&self, key: K) -> (r: Option<(u32, u32)>)
        ensures
            r == first_of(self.key_claims(), key, 0),
            match r {
                Some((page, at)) => self.key_claims().contains((key, page, at)),
                None => forall|i: int|
                    0 <= i < self.key_claims().len() ==> self.key_claims()[i].0 != key,
            },
    {
        let mut i: usize = 0;
        while i < self.keys.len()
            invariant
                i <= self.keys@.len(),
                first_of(self.keys@, key, 0) == first_of(self.keys@, key, i as int),
                forall|j: int| 0 <= j < i ==> self.keys@[j].0 != key,
            decreases self.keys@.len() - i,
        {
            let (k, page, at) = self.keys[i];
            if k.same(&key) {
                assert(self.keys@[i as int] == (key, page, at));
                return Some((page, at));
            }
            i += 1;
        }
        None
    }

    /// Records that page `p` is in state `s`.
    pub fn notify_page_state(&mut self, p: u32, s: PageState)
        requires
            old(self).wf(),
        ensures
            final(self).wf(),
            final(self).shape() == old(self).shape(),
            final(self).capacity() == old(self).capacity(),
            final(self).state_claims() == (if p < old(self).state_claims().len() {
                old(self).state_claims().update(p as int, Some(s))
            } else {
                old(self).state_claims()
            }),
            final(self).free_claims() == old(self).free_claims(),
            final(self).key_claims() == old(self).key_claims(),
    {
        if (p as usize) < self.states.len() {
            self.states[p as usize] = Some(s);
        }
    }

    /// Records that a chain of items in page `p` leads to offset `off`.
    pub fn notify_page_free(&mut self, p: u32, off: u32)
        requires
            old(self).wf(),
        ensures
            final(self).wf(),
            final(self).shape() == old(self).shape(),
            final(self).capacity() == old(self).capacity(),
            final(self).state_claims() == old(self).state_claims(),
            final(self).free_claims() == (if p < old(self).free_claims().len() {
                old(self).free_claims().update(p as int, Some(off))
            } else {
                old(self).free_claims()
            }),
            final(self).key_claims() == old(self).key_claims(),
    {
        if (p as usize) < self.frees.len() {
            self.frees[p as usize] = Some(off);
        }
    }

    /// Takes back the offset that is claimed for page `p`.
    pub fn forget_free(&mut self, p: u32)
        requires
            old(self).wf(),
        ensures
            final(self).wf(),
            final(self).shape() == old(self).shape(),
            final(self).capacity() == old(self).capacity(),
            final(self).state_claims() == old(self).state_claims(),
            final(self).free_claims() == (if p < old(self).free_claims().len() {
                old(self).free_claims().update(p as int, None)
            } else {
                old(self).free_claims()
            }),
            final(self).key_claims() == old(self).key_claims(),
    {
        if (p as usize) < self.frees.len() {
            self.frees[p as usize] = None;
        }
    }

    /// Takes back the claims that `what` names.
    fn drop_claims(&mut self, what: Taken<K>)
        requires
            old(self).wf(),
        ensures
            final(self).wf(),
            final(self).shape == old(self).shape,
            final(self).slots == old(self).slots,
            final(self).states == old(self).states,
            final(self).frees == old(self).frees,
            final(self).keys@ == sift(old(self).keys@, stays(what)),
    {
        let ghost orig = self.keys@;
        let ghost keep = stays(what);
        let ghost mut j: int = 0;
        let mut i: usize = 0;
        proof {
            assert(orig.subrange(0, 0) =~= Seq::empty());
            assert(self.keys@.subrange(0, 0) =~= Seq::empty());
            assert(self.keys@.subrange(0, self.keys@.len() as int) =~= orig.subrange(
                0,
                orig.len() as int,
            ));
        }
        while i < self.keys.len()
            invariant
                i <= self.keys@.len(),
                0 <= j <= orig.len(),
                self.keys@.len() - i == orig.len() - j,
                orig == old(self).keys@,
                keep == stays(what),
                self.shape == old(self).shape,
                self.slots == old(self).slots,
                self.states == old(self).states,
                self.frees == old(self).frees,
                old(self).wf(),
                self.keys@.subrange(0, i as int) == sift(orig.subrange(0, j), keep),
                self.keys@.subrange(i as int, self.keys@.len() as int) == orig.subrange(
                    j,
                    orig.len() as int,
                ),
            decreases self.keys@.len() - i,
        {
            let ghost before = self.keys@;
            let claim = self.keys[i];
            let goes: bool = match &what {
                Taken::Page(p) => claim.1 == *p,
                Taken::Key(key) => claim.0.same(key),
            };
            proof {
                assert(before[i as int] == before.subrange(i as int, before.len() as int)[0]);
                assert(claim == orig[j]);
                assert(orig.subrange(0, j + 1).drop_last() =~= orig.subrange(0, j));
                assert(orig.subrange(0, j + 1).last() == orig[j]);
                assert(goes == !keep(orig[j]));
            }
            if goes {
                self.keys.remove(i);
                proof {
                    assert(self.keys@.subrange(0, i as int) =~= before.subrange(0, i as int));
                    assert(self.keys@.subrange(i as int, self.keys@.len() as int)
                        =~= before.subrange(i as int, before.len() as int).subrange(
                        1,
                        before.len() - i,
                    ));
                    assert(orig.subrange(j, orig.len() as int).subrange(1, orig.len() - j)
                        =~= orig.subrange(j + 1, orig.len() as int));
                    j = j + 1;
                }
            } else {
                proof {
                    assert(self.keys@.subrange(0, i + 1) =~= before.subrange(0, i as int).push(
                        claim,
                    ));
                    assert(self.keys@.subrange(i + 1, self.keys@.len() as int)
                        =~= orig.subrange(j + 1, orig.len() as int)) by {
                        assert(before.subrange(i as int, before.len() as int).subrange(
                            1,
                            before.len() - i,
                        ) =~= before.subrange(i + 1, before.len() as int));
                        assert(orig.subrange(j, orig.len() as int).subrange(1, orig.len() - j)
                            =~= orig.subrange(j + 1, orig.len() as int));
                    }
                    j = j + 1;
                }
                i += 1;
            }
        }
        proof {
            assert(self.keys@.subrange(0, i as int) =~= self.keys@);
            assert(orig.subrange(0, j) =~= orig);
            sift_sound(orig, keep);
        }
    }

    /// Takes back every claim about what page `p` holds behind its marker
    /// words.
    pub fn forget_page(&mut self, p: u32)
        requires
            old(self).wf(),
        ensures
            final(self).wf(),
            final(self).shape() == old(self).shape(),
            final(self).capacity() == old(self).capacity(),
            final(self).state_claims() == old(self).state_claims(),
            final(self).free_claims() == (if p < old(self).free_claims().len() {
                old(self).free_claims().update(p as int, None)
            } else {
                old(self).free_claims()
            }),
            final(self).key_claims() == sift(old(self).key_claims(), not_in(p)),
            forall|i: int|
                0 <= i < final(self).key_claims().len() ==> old(self).key_claims().contains(
                    #[trigger] final(self).key_claims()[i],
                ) && final(self).key_claims()[i].1 != p,
    {
        if (p as usize) < self.frees.len() {
            self.frees[p as usize] = None;
        }
        self.drop_claims(Taken::Page(p));
        proof {
            sift_sound(old(self).keys@, not_in::<K>(p));
        }
    }

    /// Records that page `p` was erased: it is blank, and nothing that was
    /// claimed of its contents holds any more.
    pub fn notify_page_erased(&mut self, p: u32)
        requires
            old(self).wf(),
        ensures
            final(self).wf(),
            final(self).shape() == old(self).shape(),
            final(self).capacity() == old(self).capacity(),
            final(self).state_claims() == (if p < old(self).state_claims().len() {
                old(self).state_claims().update(p as int, Some(PageState::Erased))
            } else {
                old(self).state_claims()
            }),
            final(self).free_claims() == (if p < old(self).free_claims().len() {
                old(self).free_claims().update(p as int, None)
            } else {
                old(self).free_claims()
            }),
            final(self).key_claims() == sift(old(self).key_claims(), not_in(p)),
            forall|i: int|
                0 <= i < final(self).key_claims().len() ==> old(self).key_claims().contains(
                    #[trigger] final(self).key_claims()[i],
                ) && final(self).key_claims()[i].1 != p,
    {
        self.forget_page(p);
        self.notify_page_state(p, PageState::Erased);
    }

    /// Takes back what is claimed of `key`.
    pub fn notify_erase(&mut self, key: K)
        requires
            old(self).wf(),
        ensures
            final(self).wf(),
            final(self).shape() == old(self).shape(),
            final(self).capacity() == old(self).capacity(),
            final(self).state_claims() == old(self).state_claims(),
            final(self).free_claims() == old(self).free_claims(),
            final(self).key_claims() == sift(old(self).key_claims(), not_of(key)),
            forall|i: int|
                0 <= i < final(self).key_claims().len() ==> old(self).key_claims().contains(
                    #[trigger] final(self).key_claims()[i],
                ) && final(self).key_claims()[i].0 != key,
    {
        self.drop_claims(Taken::Key(key));
        proof {
            sift_sound(old(self).keys@, not_of(key));
        }
    }

    /// Records that the live item of `key` now starts at offset `at` of page
    /// `page`. The claim goes to the front. Where the cache is full, the last
    /// claim, which was made longest ago, is dropped.
    pub fn notify_write(&mut self, key: K, page: u32, at: u32)
        requires
            old(self).wf(),
        ensures
            final(self).wf(),
            final(self).shape() == old(self).shape(),
            final(self).capacity() == old(self).capacity(),
            final(self).state_claims() == old(self).state_claims(),
            final(self).free_claims() == old(self).free_claims(),
            final(self).key_claims() == placed(
                old(self).key_claims(),
                key,
                page,
                at,
                old(self).capacity(),
            ),
            forall|i: int|
                0 <= i < final(self).key_claims().len() ==> {
                    ||| #[trigger] final(self).key_claims()[i] == (key, page, at)
                    ||| old(self).key_claims().contains(final(self).key_claims()[i])
                        && final(self).key_claims()[i].0 != key
                },
            old(self).capacity() > 0 ==> final(self).key_claims().len() > 0
                && final(self).key_claims()[0] == (key, page, at),
            old(self).capacity() == 0 ==> final(self).key_claims().len() == 0,
    {
        self.notify_erase(key);
        if self.slots == 0 {
            assert(self.keys@ =~= Seq::empty());
            return ;
        }
        let ghost kept = self.key_claims();
        assert(forall|i: int|
            0 <= i < kept.len() ==> old(self).key_claims().contains(#[trigger] kept[i]) && kept[i].0
                != key);
        if self.keys.len() == self.slots {
            self.keys.pop();
        }
        let ghost cut = self.keys@;
        self.keys.insert(0, (key, page, at));
        proof {
            assert(cut =~= (if kept.len() >= self.slots {
                kept.take(self.slots - 1)
            } else {
                kept
            }));
            assert(self.keys@ =~= seq![(key, page, at)] + cut);
            assert forall|i: int| 0 <= i < self.keys@.len() implies {
                ||| #[trigger] self.keys@[i] == (key, page, at)
                ||| old(self).keys@.contains(self.keys@[i]) && self.keys@[i].0 != key
            } by {
                if i > 0 {
                    assert(self.keys@[i] == cut[i - 1]);
                    assert(cut[i - 1] == kept[i - 1]);
                }
            }
        }
    }

    /// Takes back every claim.
    pub fn invalidate(&mut self)
        requires
            old(self).wf(),
        ensures
            final(self).wf(),
            final(self).is_blank(),
            final(self).shape() == old(self).shape(),
            final(self).capacity() == old(self).capacity(),
            final(self).state_claims().len() == old(self).state_claims().len(),
            final(self).free_claims().len() == old(self).free_claims().len(),
    {
        let mut i: usize = 0;
        while i < self.states.len()
            invariant
                self.states@.len() == old(self).states@.len(),
                self.frees == old(self).frees,
                self.shape == old(self).shape,
                self.slots == old(self).slots,
                self.keys == old(self).keys,
                forall|p: int| 0 <= p < i && p < self.states@.len() ==> self.states@[p] is None,
            decreases self.states@.len() - i,
        {
            self.states[i] = None;
            i += 1;
        }
        let mut j: usize = 0;
        while j < self.frees.len()
            invariant
                self.states@.len() == old(self).states@.len(),
                self.frees@.len() == old(self).frees@.len(),
                self.shape == old(self).shape,
                self.slots == old(self).slots,
                self.keys == old(self).keys,
                forall|p: int| 0 <= p < self.states@.len() ==> self.states@[p] is None,
                forall|p: int| 0 <= p < j && p < self.frees@.len() ==> self.frees@[p] is None,
            decreases self.frees@.len() - j,
        {
            self.frees[j] = None;
            j += 1;
        }
        self.keys.clear();
    }
}

} // verus!
