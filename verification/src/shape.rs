//! The shape that the ring keeps.
//!
//! A ring that the store has written is blank; or it has a partially open
//! head, with closed pages in an unbroken run up to the head and erased pages
//! elsewhere, and no matter what behind the head; or, while the store moves
//! on, it has a closed head with an erased page behind it and the same run of
//! closed pages. Every step of the store keeps this shape, and in a ring of
//! this shape every step finds the head where it expects it.

use crate::flash::FlashError;
use crate::header::PageState;
use crate::item::Error;
use crate::layout::Layout;
use crate::ring::{first_in_range, first_lead, first_trail, head_of, leads, snug, states_of, trails};
use vstd::prelude::*;

verus! {

/// Page `p` is closed or erased.
pub open spec fn settled(st: Seq<PageState>, p: int) -> bool {
    st[p] == PageState::Closed || st[p] == PageState::Erased
}

/// The ring has the shape that the store keeps.
pub open spec fn sound_ring(l: Layout, st: Seq<PageState>) -> bool {
    &&& st.len() == l.pages
    &&& match head_of(l, st) {
        None => forall|p: int| 0 <= p < l.pages ==> st[p] == PageState::Erased,
        Some(h) => if st[h] == PageState::PartialOpen {
            &&& l.pages == 2 ==> st[l.succ(h)] != PageState::PartialOpen
            &&& forall|p: int|
                0 <= p < l.pages && p != h && p != l.succ(h) ==> settled(st, p) && (st[p]
                    == PageState::Closed ==> l.succ(p) == h || st[l.succ(p)] == PageState::Closed)
        } else {
            &&& st[l.succ(h)] == PageState::Erased
            &&& forall|p: int|
                0 <= p < l.pages ==> settled(st, p) && (p != h && st[p] == PageState::Closed
                    ==> st[l.succ(p)] == PageState::Closed)
        },
    }
}

/// Both pages of a ring of two pages look partially open. This is what a
/// power loss can leave of such a ring while the page behind the head is
/// erased: where the cut erases the close marker of that page and spares its
/// open marker, the page looks like a head, and nothing on the flash tells
/// which of the two pages is the head. A cut erasure can take the page back
/// to any state that it had while it was the head, so the same bytes are left
/// by a store whose one page holds the newer item of a key and by a store
/// whose other page does: no rule can find the head of both.
pub open spec fn twin_heads(l: Layout, c: Seq<u8>) -> bool {
    l.pages == 2 && states_of(l, c)[0] == PageState::PartialOpen && states_of(l, c)[1]
        == PageState::PartialOpen
}

/// The error `e`, after which the store holds `c`, leaves the answers of the
/// store as they were. The one exception is a power loss that leaves a ring
/// of two pages with two pages that look like heads.
pub open spec fn harmless<E>(l: Layout, c: Seq<u8>, e: Error<E>) -> bool {
    !(e matches Error::Storage(FlashError::EarlyShutoff(_))) || !twin_heads(l, c)
}

/// In a ring of two pages, the head stays the head as long as the other page
/// does not come to look like one.
pub proof fn lone_head(l: Layout, st: Seq<PageState>, h: int, s: PageState)
    requires
        l.wf(),
        l.pages == 2,
        st.len() == 2,
        head_of(l, st) == Some(h),
        st[h] == PageState::PartialOpen,
        s != PageState::PartialOpen,
    ensures
        head_of(l, st.update(l.succ(h), s)) == Some(h),
{
    first_in_range(l, st, 0);
    let after = st.update(l.succ(h), s);
    assert(leads(l, after, h));
    assert forall|p: int| 0 <= p < l.pages && p != h implies !leads(l, after, p) by {}
    first_lead_unique(l, after, h, 0);
}

/// An operation that took the store from `a` to `b` and ended with `r` kept
/// the ring in shape: if the ring was sound, the operation did not find it
/// corrupted, and the ring is sound again, unless the operation ended with an
/// error that is not harmless.
pub open spec fn steady<T, E>(l: Layout, a: Seq<u8>, b: Seq<u8>, r: Result<T, Error<E>>) -> bool {
    sound_ring(l, states_of(l, a)) ==> {
        &&& !(r matches Err(Error::Corrupted))
        &&& (r matches Err(e) ==> harmless(l, b, e)) ==> sound_ring(l, states_of(l, b))
    }
}

/// An operation that took the store from `a` to `b` and ended with `r` kept a
/// buffer of `cap` bytes enough to walk the log, unless it ended with an
/// error that is not harmless.
pub open spec fn snug_kept<T, E>(
    l: Layout,
    a: Seq<u8>,
    b: Seq<u8>,
    r: Result<T, Error<E>>,
    cap: int,
) -> bool {
    snug(l, a, cap) && (r matches Err(e) ==> harmless(l, b, e)) ==> snug(l, b, cap)
}

/// The ring is ready for use: its head is partially open and the page behind
/// the head is in the erased state.
pub open spec fn ready(l: Layout, st: Seq<PageState>) -> bool {
    head_of(l, st) matches Some(h) && st[h] == PageState::PartialOpen && st[l.succ(h)]
        == PageState::Erased
}

/// The ring is ready, or it has no head yet, or its head is closed and the
/// store is about to move on.
pub open spec fn poised(l: Layout, st: Seq<PageState>) -> bool {
    head_of(l, st) matches Some(h) ==> st[h] == PageState::Closed || st[l.succ(h)]
        == PageState::Erased
}

/// A blank ring is sound.
pub proof fn blank_is_sound(l: Layout, st: Seq<PageState>)
    requires
        l.wf(),
        st.len() == l.pages,
        forall|p: int| 0 <= p < l.pages ==> st[p] == PageState::Erased,
    ensures
        sound_ring(l, st),
{
    first_in_range(l, st, 0);
}

/// The only page that leads is the first that leads.
pub proof fn first_lead_unique(l: Layout, st: Seq<PageState>, h: int, from: int)
    requires
        0 <= from <= h < l.pages,
        leads(l, st, h),
        forall|p: int| 0 <= p < l.pages && p != h ==> !leads(l, st, p),
    ensures
        first_lead(l, st, from) == Some(h),
    decreases h - from,
{
    if from < h {
        first_lead_unique(l, st, h, from + 1);
    }
}

/// The only page that trails is the first that trails.
pub proof fn first_trail_unique(l: Layout, st: Seq<PageState>, h: int, from: int)
    requires
        0 <= from <= h < l.pages,
        trails(l, st, h),
        forall|p: int| 0 <= p < l.pages && p != h ==> !trails(l, st, p),
    ensures
        first_trail(l, st, from) == Some(h),
    decreases h - from,
{
    if from < h {
        first_trail_unique(l, st, h, from + 1);
    }
}

/// Where no page leads, there is no first that leads.
pub proof fn first_lead_none(l: Layout, st: Seq<PageState>, from: int)
    requires
        forall|p: int| 0 <= p < l.pages ==> !leads(l, st, p),
    ensures
        first_lead(l, st, from) is None,
    decreases l.pages - from,
{
    if 0 <= from < l.pages {
        first_lead_none(l, st, from + 1);
    }
}

/// The head of a ring leads or trails.
pub proof fn head_kind(l: Layout, st: Seq<PageState>)
    ensures
        head_of(l, st) matches Some(h) ==> {
            &&& 0 <= h < l.pages
            &&& st[h] == PageState::PartialOpen || st[h] == PageState::Closed
            &&& st[h] == PageState::PartialOpen ==> first_lead(l, st, 0) == Some(h) && leads(
                l,
                st,
                h,
            )
            &&& st[h] == PageState::Closed ==> first_lead(l, st, 0) is None && trails(l, st, h)
        },
{
    first_in_range(l, st, 0);
}

/// In a sound ring of three pages or more, the page two behind a partially
/// open head is not partially open.
pub proof fn sound_is_sturdy(l: Layout, st: Seq<PageState>, h: int)
    requires
        l.wf(),
        sound_ring(l, st),
        head_of(l, st) == Some(h),
        st[h] == PageState::PartialOpen,
        l.pages >= 3,
    ensures
        st[l.succ(l.succ(h))] != PageState::PartialOpen,
{
    head_kind(l, st);
    let p = l.succ(l.succ(h));
    assert(settled(st, p));
}

/// Whatever becomes of the page behind a partially open head, the head stays
/// and the ring stays sound. In a ring of two pages this holds as long as the
/// page does not come to look partially open.
pub proof fn sound_erase(l: Layout, st: Seq<PageState>, h: int, s: PageState)
    requires
        l.wf(),
        sound_ring(l, st),
        head_of(l, st) == Some(h),
        st[h] == PageState::PartialOpen,
        l.pages >= 3 || s != PageState::PartialOpen,
    ensures
        head_of(l, st.update(l.succ(h), s)) == Some(h),
        sound_ring(l, st.update(l.succ(h), s)),
{
    head_kind(l, st);
    let x = l.succ(h);
    let after = st.update(x, s);
    assert(leads(l, after, h));
    assert forall|p: int| 0 <= p < l.pages && p != h implies !leads(l, after, p) by {
        if p == x {
            assert(l.pred(x) == h);
        } else {
            assert(settled(st, p));
        }
    }
    first_lead_unique(l, after, h, 0);
    assert forall|p: int| 0 <= p < l.pages && p != h && p != l.succ(h) implies settled(after, p)
        && (after[p] == PageState::Closed ==> l.succ(p) == h || after[l.succ(p)]
        == PageState::Closed) by {
        assert(settled(st, p));
        if st[p] == PageState::Closed && l.succ(p) != h {
            assert(l.succ(p) != x);
        }
    }
}

/// Closing the partially open head of a sound ring, with an erased page
/// behind it, leaves it the head of a sound ring.
pub proof fn sound_close(l: Layout, st: Seq<PageState>, h: int)
    requires
        l.wf(),
        sound_ring(l, st),
        head_of(l, st) == Some(h),
        st[h] == PageState::PartialOpen,
        st[l.succ(h)] == PageState::Erased,
    ensures
        head_of(l, st.update(h, PageState::Closed)) == Some(h),
        sound_ring(l, st.update(h, PageState::Closed)),
{
    head_kind(l, st);
    let x = l.succ(h);
    let after = st.update(h, PageState::Closed);
    assert forall|p: int| 0 <= p < l.pages implies settled(after, p) by {
        if p != h && p != x {
            assert(settled(st, p));
        }
    }
    assert forall|p: int| 0 <= p < l.pages implies !leads(l, after, p) by {
        assert(settled(after, p));
    }
    first_lead_none(l, after, 0);
    assert(trails(l, after, h));
    assert forall|p: int| 0 <= p < l.pages && p != h
        && after[p] == PageState::Closed implies after[l.succ(
        p,
    )] == PageState::Closed by {
        assert(p != x);
        assert(settled(st, p));
    }
    assert forall|p: int| 0 <= p < l.pages && p != h implies !trails(l, after, p) by {
        if after[p] == PageState::Closed {
            assert(after[l.succ(p)] == PageState::Closed);
        }
    }
    first_trail_unique(l, after, h, 0);
}

/// Opening the page behind the closed head of a sound ring makes it the head
/// of a sound ring.
pub proof fn sound_open(l: Layout, st: Seq<PageState>, a: int)
    requires
        l.wf(),
        sound_ring(l, st),
        head_of(l, st) == Some(a),
        st[a] == PageState::Closed,
    ensures
        head_of(l, st.update(l.succ(a), PageState::PartialOpen)) == Some(l.succ(a)),
        sound_ring(l, st.update(l.succ(a), PageState::PartialOpen)),
{
    head_kind(l, st);
    let t = l.succ(a);
    let after = st.update(t, PageState::PartialOpen);
    assert(l.pred(t) == a);
    assert(leads(l, after, t));
    assert forall|p: int| 0 <= p < l.pages && p != t implies !leads(l, after, p) by {
        assert(settled(st, p));
    }
    first_lead_unique(l, after, t, 0);
    assert forall|p: int| 0 <= p < l.pages && p != t && p != l.succ(t) implies settled(after, p)
        && (after[p] == PageState::Closed ==> l.succ(p) == t || after[l.succ(p)]
        == PageState::Closed) by {
        assert(settled(st, p));
        if st[p] == PageState::Closed && p != a {
            assert(st[l.succ(p)] == PageState::Closed);
        }
    }
    if l.pages == 2 {
        assert(l.succ(t) == a);
    }
}

/// Opening page 0 of a ring of erased pages makes it the head of a sound
/// ring.
pub proof fn sound_start(l: Layout, st: Seq<PageState>)
    requires
        l.wf(),
        st.len() == l.pages,
        forall|p: int| 0 <= p < l.pages ==> st[p] == PageState::Erased,
    ensures
        head_of(l, st.update(0, PageState::PartialOpen)) == Some(0int),
        sound_ring(l, st.update(0, PageState::PartialOpen)),
{
    let after = st.update(0, PageState::PartialOpen);
    assert(leads(l, after, 0));
    assert forall|p: int| 0 <= p < l.pages && p != 0 implies !leads(l, after, p) by {}
    first_lead_unique(l, after, 0, 0);
}

} // verus!
