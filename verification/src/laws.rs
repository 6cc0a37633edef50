//! What the store promises, stated over its answers.

use crate::append::placed;
use crate::flash::all_ones;
use crate::header::{blank_is_erased, PageState};
use crate::item::{full, Error, StorageItem};
use crate::jam::jammed;
use crate::layout::Layout;
use crate::map::{fetched, stored};
use crate::ring::{lookup, states_of};
use crate::rotate::{none_leads, same_answers};
use vstd::prelude::*;

verus! {

/// A change of the store that an operation made and reported as done.
pub enum Step<K> {
    /// An item with this key and this wire form was stored.
    Store { key: K, wire: Seq<u8> },
    /// The item of this key was removed.
    Remove { key: K },
}

/// The payload that `key` has after the steps `steps` on an empty store: the
/// wire form of the last store of the key that no removal of the key
/// follows.
pub open spec fn replay<K>(steps: Seq<Step<K>>, key: K) -> Option<Seq<u8>>
    decreases steps.len(),
{
    if steps.len() == 0 {
        None
    } else {
        match steps.last() {
            Step::Store { key: k, wire } => if k == key {
                Some(wire)
            } else {
                replay(steps.drop_last(), key)
            },
            Step::Remove { key: k } => if k == key {
                None
            } else {
                replay(steps.drop_last(), key)
            },
        }
    }
}

/// The store `b` is what a successful `step` makes of the store `a`, going
/// by what `store_item` and `remove_item` promise of their success.
pub open spec fn follows<I: StorageItem>(l: Layout, a: Seq<u8>, b: Seq<u8>, step: Step<I::Key>)
    -> bool {
    match step {
        Step::Store { key, wire } => I::key_in(wire) == Some(key) && stored::<I>(l, a, b, wire),
        Step::Remove { key } => {
            &&& lookup::<I>(l, b, key) is None
            &&& forall|k: I::Key| k != key ==> #[trigger] lookup::<I>(l, b, k) == lookup::<I>(l, a, k)
        },
    }
}

/// The stores `images` are what the successful `steps` made, one after the
/// other, of the first of them.
pub open spec fn history<I: StorageItem>(
    l: Layout,
    images: Seq<Seq<u8>>,
    steps: Seq<Step<I::Key>>,
) -> bool {
    &&& images.len() == steps.len() + 1
    &&& forall|i: int|
        0 <= i < steps.len() ==> follows::<I>(l, images[i], images[i + 1], #[trigger] steps[i])
}

/// After any run of successful stores and removals on an empty store, every
/// key answers with the item that was stored last under it, unless that item
/// was removed since.
pub proof fn last_store_wins<I: StorageItem>(
    l: Layout,
    images: Seq<Seq<u8>>,
    steps: Seq<Step<I::Key>>,
    key: I::Key,
)
    requires
        history::<I>(l, images, steps),
        forall|k: I::Key| lookup::<I>(l, images[0], k) is None,
    ensures
        lookup::<I>(l, images.last(), key) == replay(steps, key),
    decreases steps.len(),
{
    if steps.len() > 0 {
        let n = steps.len() as int;
        let before = images.drop_last();
        let earlier = steps.drop_last();
        assert(history::<I>(l, before, earlier)) by {
            assert forall|i: int| 0 <= i < earlier.len() implies follows::<I>(
                l,
                before[i],
                before[i + 1],
                #[trigger] earlier[i],
            ) by {
                assert(follows::<I>(l, images[i], images[i + 1], steps[i]));
            }
        }
        assert(before[0] == images[0]);
        last_store_wins::<I>(l, before, earlier, key);
        assert(follows::<I>(l, images[n - 1], images[n], steps[n - 1]));
        assert(before.last() == images[n - 1]);
    }
}

/// Two runs that made the same stores and removals on empty stores, each with
/// a cache of its own, end with stores that answer alike for every key: the
/// cache that a run used has no part in what its store answers.
pub proof fn runs_agree<I: StorageItem>(
    l: Layout,
    first: Seq<Seq<u8>>,
    second: Seq<Seq<u8>>,
    steps: Seq<Step<I::Key>>,
    key: I::Key,
)
    requires
        history::<I>(l, first, steps),
        history::<I>(l, second, steps),
        forall|k: I::Key| lookup::<I>(l, first[0], k) is None,
        forall|k: I::Key| lookup::<I>(l, second[0], k) is None,
    ensures
        lookup::<I>(l, first.last(), key) == lookup::<I>(l, second.last(), key),
{
    last_store_wins::<I>(l, first, steps, key);
    last_store_wins::<I>(l, second, steps, key);
}

/// Two answers of `fetch_item` for the same key on the same flash agree,
/// whatever cache each of them was found with: both find nothing, or both
/// find the same item, or both fail to decode it.
pub proof fn answers_ignore_cache<I: StorageItem>(
    live: Option<Seq<u8>>,
    first: Result<Option<I>, Error<I::Error>>,
    second: Result<Option<I>, Error<I::Error>>,
)
    requires
        fetched::<I>(live, first),
        fetched::<I>(live, second),
    ensures
        first matches Ok(None) <==> second matches Ok(None),
        first matches Ok(Some(x)) ==> second matches Ok(Some(y)) && x.model() == y.model(),
        first matches Err(Error::Item(_)) <==> second matches Err(Error::Item(_)),
{
}

/// The same item stored into stores that answer alike leaves stores that
/// answer alike, however each store came about.
pub proof fn stores_agree<I: StorageItem>(
    l: Layout,
    a1: Seq<u8>,
    b1: Seq<u8>,
    a2: Seq<u8>,
    b2: Seq<u8>,
    wire: Seq<u8>,
)
    requires
        forall|k: I::Key| lookup::<I>(l, a1, k) == lookup::<I>(l, a2, k),
        stored::<I>(l, a1, b1, wire),
        stored::<I>(l, a2, b2, wire),
    ensures
        forall|k: I::Key| #[trigger] lookup::<I>(l, b1, k) == lookup::<I>(l, b2, k),
{
    assert forall|k: I::Key| #[trigger] lookup::<I>(l, b1, k) == lookup::<I>(l, b2, k) by {
        assert(lookup::<I>(l, a1, k) == lookup::<I>(l, a2, k));
        assert(lookup::<I>(l, b2, k) == (if I::key_in(wire) == Some(k) {
            Some(wire)
        } else {
            lookup::<I>(l, a2, k)
        }));
    }
}

/// A store whose pages are all blank answers nothing for any key.
pub proof fn blank_store_is_empty<I: StorageItem>(l: Layout, c: Seq<u8>, key: I::Key)
    requires
        l.wf(),
        l.base + l.pages * l.page <= c.len(),
        forall|p: int| 0 <= p < l.pages ==> all_ones(#[trigger] l.page_at(c, p)),
    ensures
        lookup::<I>(l, c, key) is None,
{
    assert forall|p: int| 0 <= p < l.pages implies states_of(l, c)[p] == PageState::Erased by {
        l.page_len(c, p);
        blank_is_erased(l.page_at(c, p), l.word as int);
    }
    none_leads(l, states_of(l, c));
}

/// What comes back for an item that was stored is the item: its wire form
/// decodes to it.
pub proof fn stored_item_comes_back<I: StorageItem>(
    l: Layout,
    a: Seq<u8>,
    b: Seq<u8>,
    item: I,
    key: I::Key,
    r: Result<Option<I>, Error<I::Error>>,
)
    requires
        I::key_in(item.wire()) == Some(key),
        stored::<I>(l, a, b, item.wire()),
        fetched::<I>(lookup::<I>(l, b, key), r),
    ensures
        r matches Ok(Some(got)) && got.model() == item.model(),
{
    item.round_trip();
}

/// A store that a power loss cut short, and the recovery after it, leave the
/// store as it was or as the finished store would have left it: no key but
/// that of the item answers otherwise than before, and the key of the item
/// answers with the old item or with the new one.
pub proof fn cut_store_is_whole<I: StorageItem>(
    l: Layout,
    before: Seq<u8>,
    cut: Seq<u8>,
    after: Seq<u8>,
    wire: Seq<u8>,
    key: I::Key,
)
    requires
        same_answers::<I>(l, before, cut) || stored::<I>(l, before, cut, wire),
        same_answers::<I>(l, cut, after),
    ensures
        same_answers::<I>(l, before, after) || stored::<I>(l, before, after, wire),
        I::key_in(wire) != Some(key) ==> lookup::<I>(l, after, key) == lookup::<I>(l, before, key),
        lookup::<I>(l, after, key) == lookup::<I>(l, before, key) || lookup::<I>(l, after, key)
            == Some(wire),
{
    assert(lookup::<I>(l, after, key) == lookup::<I>(l, cut, key));
    if same_answers::<I>(l, before, cut) {
        assert forall|k: I::Key| #[trigger]
            lookup::<I>(l, after, k) == lookup::<I>(l, before, k) by {
            assert(lookup::<I>(l, after, k) == lookup::<I>(l, cut, k));
            assert(lookup::<I>(l, cut, k) == lookup::<I>(l, before, k));
        }
    } else {
        assert forall|k: I::Key| #[trigger]
            lookup::<I>(l, after, k) == (if I::key_in(wire) == Some(k) {
                Some(wire)
            } else {
                lookup::<I>(l, before, k)
            }) by {
            assert(lookup::<I>(l, after, k) == lookup::<I>(l, cut, k));
        }
        assert(lookup::<I>(l, cut, key) == (if I::key_in(wire) == Some(key) {
            Some(wire)
        } else {
            lookup::<I>(l, before, key)
        }));
    }
}

/// Two stores of the same item into the same flash that need no new page
/// leave the same bytes in every page, whatever cache each of them used.
pub proof fn placed_stores_agree(
    l: Layout,
    a: Seq<u8>,
    first: Seq<u8>,
    second: Seq<u8>,
    h: int,
    wire: Seq<u8>,
    p: int,
)
    requires
        placed(l, a, first, h, wire),
        placed(l, a, second, h, wire),
        0 <= p < l.pages,
    ensures
        l.page_at(first, p) == l.page_at(second, p),
{
    if p != h {
        assert(l.page_at(first, p) == l.page_at(a, p));
        assert(l.page_at(second, p) == l.page_at(a, p));
    }
}

/// Two stores of the same item into the same flash, each with a cache of
/// its own, on devices that neither refuse a write nor lose power, end alike:
/// both store the item, or both report a full store. Which of the two it is
/// the flash decides: the store is full exactly when it is jammed.
pub proof fn stores_end_alike<I: StorageItem>(
    l: Layout,
    c: Seq<u8>,
    n: int,
    first: Result<(), Error<I::Error>>,
    second: Result<(), Error<I::Error>>,
)
    requires
        first is Ok || full(first),
        second is Ok || full(second),
        full(first) ==> jammed::<I>(l, c, n),
        full(second) ==> jammed::<I>(l, c, n),
        jammed::<I>(l, c, n) ==> !(first is Ok) && !(second is Ok),
    ensures
        first is Ok <==> second is Ok,
        full(first) <==> jammed::<I>(l, c, n),
{
}

} // verus!
