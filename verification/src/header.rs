//! The two marker words at the start of a page, and the page state they
//! encode.
//!
//! A marker word is either erased (all ones) or programmed (all zeros). The
//! first word is the open marker, the second the close marker. Programming a
//! marker is a single word write, so a page moves from erased to partially
//! open to closed without passing through any other state.

use crate::flash::{
    all_ones, all_zeros, answers, fair, lost, mended, partly_written, refused, spared, splice,
    tolled, FlashError, NorFlash,
};
use crate::layout::{others_kept, read_at, write_at, Layout};
use vstd::prelude::*;
use vstd::slice::slice_subrange;

verus! {

/// The state of a page, as its two marker words encode it.
#[derive(Clone, Copy, Debug, PartialEq, Eq, Structural)]
pub enum PageState {
    /// Both markers erased: the page is blank.
    Erased,
    /// Open marker programmed, close marker erased: items are appended here.
    PartialOpen,
    /// Both markers programmed: the page takes no more items.
    Closed,
    /// Open marker erased, close marker programmed: left by an interrupted
    /// erasure.
    Open,
    /// A marker is neither erased nor programmed.
    Corrupt,
}

/// What a single marker word holds.
#[derive(Clone, Copy, Debug, PartialEq, Eq, Structural)]
pub enum Marker {
    Erased,
    Programmed,
    Other,
}

/// A word of `w` zero bytes: the programmed marker, and the tombstone.
pub open spec fn zeros(w: int) -> Seq<u8> {
    Seq::new(w as nat, |i: int| 0u8)
}

/// The marker that the word `word` holds.
pub open spec fn marker_of(word: Seq<u8>) -> Marker {
    if all_ones(word) {
        Marker::Erased
    } else if all_zeros(word) {
        Marker::Programmed
    } else {
        Marker::Other
    }
}

/// The state that an open marker and a close marker encode together.
pub open spec fn state_from(open: Marker, close: Marker) -> PageState {
    match (open, close) {
        (Marker::Erased, Marker::Erased) => PageState::Erased,
        (Marker::Programmed, Marker::Erased) => PageState::PartialOpen,
        (Marker::Programmed, Marker::Programmed) => PageState::Closed,
        (Marker::Erased, Marker::Programmed) => PageState::Open,
        _ => PageState::Corrupt,
    }
}

/// The state of the page with bytes `pg` and words of `w` bytes.
pub open spec fn state_of(pg: Seq<u8>, w: int) -> PageState {
    state_from(marker_of(pg.subrange(0, w)), marker_of(pg.subrange(w, 2 * w)))
}

/// Tells which marker the bytes `buf[from..to]` hold.
pub fn classify(buf: &[u8], from: usize, to: usize) -> (m: Marker)
    requires
        from <= to <= buf@.len(),
    ensures
        m == marker_of(buf@.subrange(from as int, to as int)),
{
    let ghost word = buf@.subrange(from as int, to as int);
    let mut ones: bool = true;
    let mut zero: bool = true;
    let mut i: usize = from;
    while i < to
        invariant
            from <= i <= to <= buf@.len(),
            word == buf@.subrange(from as int, to as int),
            ones == all_ones(word.subrange(0, i - from)),
            zero == all_zeros(word.subrange(0, i - from)),
        decreases to - i,
    {
        let b: u8 = buf[i];
        proof {
            let before = word.subrange(0, i - from);
            let after = word.subrange(0, i - from + 1);
            assert(after[i - from] == b);
            assert(forall|j: int| 0 <= j < before.len() ==> before[j] == after[j]);
            if all_ones(after) {
                assert(forall|j: int| 0 <= j < before.len() ==> before[j] == 0xFFu8);
            }
            if all_zeros(after) {
                assert(forall|j: int| 0 <= j < before.len() ==> before[j] == 0u8);
            }
        }
        if b != 0xFF {
            ones = false;
        }
        if b != 0 {
            zero = false;
        }
        i += 1;
    }
    assert(word.subrange(0, to - from) =~= word);
    if ones {
        Marker::Erased
    } else if zero {
        Marker::Programmed
    } else {
        Marker::Other
    }
}

/// Combines two markers into a page state.
pub fn combine(open: Marker, close: Marker) -> (s: PageState)
    ensures
        s == state_from(open, close),
{
    match open {
        Marker::Erased => match close {
            Marker::Erased => PageState::Erased,
            Marker::Programmed => PageState::Open,
            Marker::Other => PageState::Corrupt,
        },
        Marker::Programmed => match close {
            Marker::Erased => PageState::PartialOpen,
            Marker::Programmed => PageState::Closed,
            Marker::Other => PageState::Corrupt,
        },
        Marker::Other => PageState::Corrupt,
    }
}

/// Reads the state of page `p` from its marker words.
pub fn read_state<F: NorFlash>(flash: &F, l: &Layout, p: u32, buf: &mut [u8]) -> (s: PageState)
    requires
        l.on(flash),
        p < l.pages,
        old(buf)@.len() >= 2 * l.word,
    ensures
        final(buf)@.len() == old(buf)@.len(),
        s == state_of(l.page_at(flash.contents(), p as int), l.word as int),
{
    let w: usize = l.word as usize;
    read_at(flash, l, p, 0, buf, 2 * w);
    let open = classify(buf, 0, w);
    let close = classify(buf, w, 2 * w);
    proof {
        let pg = l.page_at(flash.contents(), p as int);
        l.page_len(flash.contents(), p as int);
        let got = buf@.subrange(0, 2 * w);
        assert(buf@.subrange(0, w as int) =~= got.subrange(0, w as int));
        assert(buf@.subrange(w as int, 2 * w) =~= got.subrange(w as int, 2 * w));
        assert(pg.subrange(0, 2 * w).subrange(0, w as int) =~= pg.subrange(0, w as int));
        assert(pg.subrange(0, 2 * w).subrange(w as int, 2 * w) =~= pg.subrange(w as int, 2 * w));
    }
    combine(open, close)
}

/// Fills the first `w` bytes of `buf` with zeros.
pub fn fill_zeros(buf: &mut [u8], w: usize)
    requires
        w <= old(buf)@.len(),
    ensures
        final(buf)@.len() == old(buf)@.len(),
        final(buf)@.subrange(0, w as int) == zeros(w as int),
{
    let mut i: usize = 0;
    while i < w
        invariant
            i <= w <= buf@.len(),
            buf@.len() == old(buf)@.len(),
            forall|j: int| 0 <= j < i ==> buf@[j] == 0u8,
        decreases w - i,
    {
        buf[i] = 0;
        i += 1;
    }
    assert(buf@.subrange(0, w as int) =~= zeros(w as int));
}

/// Programs one word of zeros at offset `off` of page `p`. The write is a
/// single word, so it takes effect as a whole or not at all.
pub fn program_word<F: NorFlash>(flash: &mut F, l: &Layout, p: u32, off: u32, buf: &mut [u8]) -> (r:
    Result<(), FlashError>)
    requires
        l.on(old(flash)),
        p < l.pages,
        off + l.word <= l.page,
        old(buf)@.len() >= l.word,
    ensures
        answers(
            old(flash).write_refusal((l.start_of(p as int) + off) as u32, zeros(l.word as int)),
            r,
        ),
        final(flash).rewrites() == old(flash).rewrites(),
        tolled(old(flash).losses(), final(flash).losses(), lost(r)),
        mended(
            old(flash).mends(),
            final(flash).mends(),
            final(flash).reserve(),
            lost(r),
        ),
        spared(old(flash).reserve(), final(flash).reserve(), l.word as int, lost(r)),
        old(flash).tidy() && fair(
            l.page_at(old(flash).contents(), p as int),
            l.word as int,
            old(flash).rewrites(),
            off as int,
            zeros(l.word as int),
        ) ==> !refused(r) && final(flash).tidy(),
        l.on(final(flash)),
        final(flash).contents().len() == old(flash).contents().len(),
        final(buf)@.len() == old(buf)@.len(),
        others_kept(*l, old(flash).contents(), final(flash).contents(), p as int),
        r is Ok ==> l.page_at(final(flash).contents(), p as int) == splice(
            l.page_at(old(flash).contents(), p as int),
            off as int,
            zeros(l.word as int),
        ),
        r is Err ==> {
            ||| l.page_at(final(flash).contents(), p as int) == l.page_at(
                old(flash).contents(),
                p as int,
            )
            ||| l.page_at(final(flash).contents(), p as int) == splice(
                l.page_at(old(flash).contents(), p as int),
                off as int,
                zeros(l.word as int),
            )
        },
{
    let w: usize = l.word as usize;
    fill_zeros(buf, w);
    let ghost before = l.page_at(flash.contents(), p as int);
    let r = write_at(flash, l, p, off, slice_subrange(buf, 0, w));
    proof {
        let after = l.page_at(flash.contents(), p as int);
        let data = zeros(w as int);
        if let Err(e) = r {
            if e is EarlyShutoff {
                let done = choose|done: int|
                    done % (l.word as int) == 0 && #[trigger] partly_written(
                        before,
                        after,
                        off as int,
                        data,
                        done,
                    );
                if done == 0 {
                    assert(after =~= before);
                } else {
                    assert(done == w) by (nonlinear_arith)
                        requires
                            0 < done <= w,
                            done % (w as int) == 0,
                    ;
                    assert(data.subrange(0, done) =~= data);
                }
            } else {
                assert(after == before);
            }
        }
    }
    r
}

/// Programs the open marker of page `p`.
pub fn mark_open<F: NorFlash>(flash: &mut F, l: &Layout, p: u32, buf: &mut [u8]) -> (r: Result<
    (),
    FlashError,
>)
    requires
        l.on(old(flash)),
        p < l.pages,
        old(buf)@.len() >= l.word,
    ensures
        answers(old(flash).write_refusal(l.start_of(p as int) as u32, zeros(l.word as int)), r),
        final(flash).rewrites() == old(flash).rewrites(),
        tolled(old(flash).losses(), final(flash).losses(), lost(r)),
        mended(
            old(flash).mends(),
            final(flash).mends(),
            final(flash).reserve(),
            lost(r),
        ),
        spared(old(flash).reserve(), final(flash).reserve(), l.word as int, lost(r)),
        old(flash).tidy() && fair(
            l.page_at(old(flash).contents(), p as int),
            l.word as int,
            old(flash).rewrites(),
            0,
            zeros(l.word as int),
        ) ==> !refused(r) && final(flash).tidy(),
        l.on(final(flash)),
        final(flash).contents().len() == old(flash).contents().len(),
        final(buf)@.len() == old(buf)@.len(),
        others_kept(*l, old(flash).contents(), final(flash).contents(), p as int),
        r is Ok ==> l.page_at(final(flash).contents(), p as int) == splice(
            l.page_at(old(flash).contents(), p as int),
            0,
            zeros(l.word as int),
        ),
        r is Err ==> {
            ||| l.page_at(final(flash).contents(), p as int) == l.page_at(
                old(flash).contents(),
                p as int,
            )
            ||| l.page_at(final(flash).contents(), p as int) == splice(
                l.page_at(old(flash).contents(), p as int),
                0,
                zeros(l.word as int),
            )
        },
{
    program_word(flash, l, p, 0, buf)
}

/// Programs the close marker of page `p`.
pub fn mark_closed<F: NorFlash>(flash: &mut F, l: &Layout, p: u32, buf: &mut [u8]) -> (r: Result<
    (),
    FlashError,
>)
    requires
        l.on(old(flash)),
        p < l.pages,
        old(buf)@.len() >= l.word,
    ensures
        answers(
            old(flash).write_refusal(
                (l.start_of(p as int) + l.word) as u32,
                zeros(l.word as int),
            ),
            r,
        ),
        final(flash).rewrites() == old(flash).rewrites(),
        tolled(old(flash).losses(), final(flash).losses(), lost(r)),
        mended(
            old(flash).mends(),
            final(flash).mends(),
            final(flash).reserve(),
            lost(r),
        ),
        spared(old(flash).reserve(), final(flash).reserve(), l.word as int, lost(r)),
        old(flash).tidy() && fair(
            l.page_at(old(flash).contents(), p as int),
            l.word as int,
            old(flash).rewrites(),
            l.word as int,
            zeros(l.word as int),
        ) ==> !refused(r) && final(flash).tidy(),
        l.on(final(flash)),
        final(flash).contents().len() == old(flash).contents().len(),
        final(buf)@.len() == old(buf)@.len(),
        others_kept(*l, old(flash).contents(), final(flash).contents(), p as int),
        r is Ok ==> l.page_at(final(flash).contents(), p as int) == splice(
            l.page_at(old(flash).contents(), p as int),
            l.word as int,
            zeros(l.word as int),
        ),
        r is Err ==> {
            ||| l.page_at(final(flash).contents(), p as int) == l.page_at(
                old(flash).contents(),
                p as int,
            )
            ||| l.page_at(final(flash).contents(), p as int) == splice(
                l.page_at(old(flash).contents(), p as int),
                l.word as int,
                zeros(l.word as int),
            )
        },
{
    program_word(flash, l, p, l.word, buf)
}

/// Programming the open marker of an erased page makes it partially open, and
/// leaves everything behind the first word as it was.
pub proof fn opened(pg: Seq<u8>, w: int)
    requires
        w >= 1,
        pg.len() >= 2 * w,
    ensures
        marker_of(splice(pg, 0, zeros(w)).subrange(0, w)) == Marker::Programmed,
        splice(pg, 0, zeros(w)).subrange(w, pg.len() as int) == pg.subrange(w, pg.len() as int),
        state_of(pg, w) == PageState::Erased ==> state_of(splice(pg, 0, zeros(w)), w)
            == PageState::PartialOpen,
{
    let after = splice(pg, 0, zeros(w));
    assert(after.subrange(w, pg.len() as int) =~= pg.subrange(w, pg.len() as int));
    assert(after.subrange(w, 2 * w) =~= pg.subrange(w, 2 * w));
    assert(after.subrange(0, w) =~= zeros(w));
    assert(zeros(w)[0] == 0u8);
    assert(!all_ones(zeros(w)));
}

/// Programming the close marker of a partially open page makes it closed, and
/// leaves everything but the second word as it was.
pub proof fn closed(pg: Seq<u8>, w: int)
    requires
        w >= 1,
        pg.len() >= 2 * w,
    ensures
        marker_of(splice(pg, w, zeros(w)).subrange(w, 2 * w)) == Marker::Programmed,
        splice(pg, w, zeros(w)).subrange(0, w) == pg.subrange(0, w),
        splice(pg, w, zeros(w)).subrange(2 * w, pg.len() as int) == pg.subrange(
            2 * w,
            pg.len() as int,
        ),
        state_of(pg, w) == PageState::PartialOpen ==> state_of(splice(pg, w, zeros(w)), w)
            == PageState::Closed,
{
    let after = splice(pg, w, zeros(w));
    assert(after.subrange(0, w) =~= pg.subrange(0, w));
    assert(after.subrange(2 * w, pg.len() as int) =~= pg.subrange(2 * w, pg.len() as int));
    assert(after.subrange(w, 2 * w) =~= zeros(w));
    assert(zeros(w)[0] == 0u8);
    assert(!all_ones(zeros(w)));
}

/// A page's state depends on its first two words only.
pub proof fn state_by_markers(a: Seq<u8>, b: Seq<u8>, w: int)
    requires
        w >= 1,
        a.len() >= 2 * w,
        b.len() >= 2 * w,
        a.subrange(0, 2 * w) == b.subrange(0, 2 * w),
    ensures
        state_of(a, w) == state_of(b, w),
{
    assert(a.subrange(0, w) =~= a.subrange(0, 2 * w).subrange(0, w));
    assert(b.subrange(0, w) =~= b.subrange(0, 2 * w).subrange(0, w));
    assert(a.subrange(w, 2 * w) =~= a.subrange(0, 2 * w).subrange(w, 2 * w));
    assert(b.subrange(w, 2 * w) =~= b.subrange(0, 2 * w).subrange(w, 2 * w));
}

/// A blank page is in the erased state.
pub proof fn blank_is_erased(pg: Seq<u8>, w: int)
    requires
        w >= 1,
        pg.len() >= 2 * w,
        all_ones(pg),
    ensures
        state_of(pg, w) == PageState::Erased,
{
}

} // verus!
