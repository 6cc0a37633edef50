//! The contract between the store and a NOR flash device.

use vstd::prelude::*;

verus! {

/// What a flash device reports when an operation does not complete.
#[derive(Clone, Copy, Debug, PartialEq, Eq, Structural)]
pub enum FlashError {
    /// The addressed range is not inside the device.
    OutOfBounds,
    /// The address or the length is not a multiple of the required unit.
    NotAligned,
    /// The write would have to set a bit or program a word too often.
    WriteError,
    /// Power was lost at the given address; a prefix of the operation may
    /// have taken effect.
    EarlyShutoff(u32),
}

/// Every byte of `s` reads as erased flash.
pub open spec fn all_ones(s: Seq<u8>) -> bool {
    forall|i: int| 0 <= i < s.len() ==> s[i] == 0xFFu8
}

/// Every byte of `s` is zero.
pub open spec fn all_zeros(s: Seq<u8>) -> bool {
    forall|i: int| 0 <= i < s.len() ==> s[i] == 0u8
}

/// A stretch inside an erased stretch is erased.
pub proof fn ones_within(s: Seq<u8>, a: int, b: int, c: int, d: int)
    requires
        0 <= a <= c <= d <= b <= s.len(),
        all_ones(s.subrange(a, b)),
    ensures
        all_ones(s.subrange(c, d)),
{
    let outer = s.subrange(a, b);
    let inner = s.subrange(c, d);
    assert forall|i: int| 0 <= i < inner.len() implies #[trigger] inner[i] == 0xFFu8 by {
        assert(outer[c - a + i] == 0xFFu8);
    }
}

/// `base` with `data` laid over it from index `at` on.
pub open spec fn splice(base: Seq<u8>, at: int, data: Seq<u8>) -> Seq<u8> {
    Seq::new(
        base.len(),
        |i: int|
            if at <= i < at + data.len() {
                data[i - at]
            } else {
                base[i]
            },
    )
}

/// `base` with the bytes in `[from, to)` erased.
pub open spec fn wipe(base: Seq<u8>, from: int, to: int) -> Seq<u8> {
    Seq::new(
        base.len(),
        |i: int|
            if from <= i < to {
                0xFFu8
            } else {
                base[i]
            },
    )
}

/// `after` differs from `before` only inside `[from, to)`, and there only by
/// bytes that became erased.
pub open spec fn partly_wiped(before: Seq<u8>, after: Seq<u8>, from: int, to: int) -> bool {
    &&& after.len() == before.len()
    &&& forall|i: int|
        0 <= i < before.len() ==> #[trigger] after[i] == before[i] || (from <= i < to && after[i]
            == 0xFFu8)
}

/// `after` is `before` with the first `done` bytes of `data` written at `at`.
pub open spec fn partly_written(
    before: Seq<u8>,
    after: Seq<u8>,
    at: int,
    data: Seq<u8>,
    done: int,
) -> bool {
    &&& 0 <= done <= data.len()
    &&& after == splice(before, at, data.subrange(0, done))
}

/// The device refused: the operation failed, and not by a power loss.
pub open spec fn refused<T>(r: Result<T, FlashError>) -> bool {
    r matches Err(e) && !(e is EarlyShutoff)
}

/// The device reported that its power failed.
pub open spec fn lost<T>(r: Result<T, FlashError>) -> bool {
    r matches Err(FlashError::EarlyShutoff(_))
}

/// The count of power losses went from `before` to `after` over an
/// operation: it went up by one if the operation was cut short, and stayed
/// as it was if not.
pub open spec fn tolled(before: nat, after: nat, cut: bool) -> bool {
    after == before + if cut {
        1nat
    } else {
        0nat
    }
}

/// A device with the reserve `reserve` can take `cost` bytes more before its
/// power may fail.
pub open spec fn lasts(reserve: Option<nat>, cost: int) -> bool {
    reserve matches Some(n) ==> n >= cost
}

/// An operation that took at most `cost` bytes left the reserve `after` of
/// the reserve `before`.
pub open spec fn drawn(before: Option<nat>, after: Option<nat>, cost: int) -> bool {
    match before {
        None => after is None,
        Some(n) => after matches Some(m) && m + cost >= n,
    }
}

/// An operation that takes at most `cost` bytes is not cut short on a device
/// whose reserve lasts that long, and leaves what is left of the reserve.
pub open spec fn spared(before: Option<nat>, after: Option<nat>, cost: int, cut: bool) -> bool {
    lasts(before, cost) ==> !cut && drawn(before, after, cost)
}

/// On a device whose limit a power loss lifts, an operation that was cut
/// short leaves no reserve that could run out, and the device stays such a
/// device.
pub open spec fn mended(before: bool, after: bool, reserve: Option<nat>, cut: bool) -> bool {
    before ==> after && (cut ==> reserve is None)
}

/// A write of `data` at `at` keeps to the rule by which the store programs a
/// device with words of `w` bytes: it is made of whole words inside the
/// device, and it goes onto erased bytes, or it puts one word of zeros over a
/// word that is not yet zero, on a device whose words can be programmed a
/// second time.
pub open spec fn fair(base: Seq<u8>, w: int, rewrites: bool, at: int, data: Seq<u8>) -> bool {
    &&& w >= 1
    &&& at >= 0
    &&& at % w == 0
    &&& (data.len() as int) % w == 0
    &&& at + data.len() <= base.len()
    &&& all_ones(base.subrange(at, at + data.len())) || (rewrites && data.len() == w
        && all_zeros(data) && !all_zeros(base.subrange(at, at + w)))
}

/// The answer `r` goes with the refusal `refusal`: where the device refuses,
/// the answer is that refusal; where it does not, the operation is done or a
/// power loss cut it short.
pub open spec fn answers<T>(refusal: Option<FlashError>, r: Result<T, FlashError>) -> bool {
    match refusal {
        Some(e) => r == Err::<T, FlashError>(e) && !(e is EarlyShutoff),
        None => r is Ok || r matches Err(FlashError::EarlyShutoff(_)),
    }
}

/// A NOR flash device: bytes that are read freely, programmed word by word and
/// erased page by page.
///
/// A write either takes effect as a whole, or reports an early shutoff after a
/// whole number of leading words, or fails and changes nothing. An erase either
/// blanks its page, or reports an early shutoff after blanking some of the
/// page's bytes, or fails and changes nothing.
///
/// The device says of itself which writes it refuses, whether it was written
/// by the store's rule so far, how often its power has failed, how many
/// bytes it is sure to take before its power fails, and whether a power loss
/// lifts that limit. What the store promises of its own operations it
/// promises in these terms.
pub trait NorFlash {
    /// The bytes on the device.
    spec fn contents(&self) -> Seq<u8>;

    /// Bytes per word, the unit of programming.
    spec fn word(&self) -> nat;

    /// Bytes per page, the unit of erasure.
    spec fn page(&self) -> nat;

    /// The device's own consistency condition.
    spec fn sound(&self) -> bool;

    fn word_size(&self) -> (w: u32)
        requires
            self.sound(),
        ensures
            w == self.word(),
    ;

    fn page_size(&self) -> (p: u32)
        requires
            self.sound(),
        ensures
            p == self.page(),
    ;

    fn capacity(&self) -> (c: u32)
        requires
            self.sound(),
        ensures
            c == self.contents().len(),
    ;

    /// Fills `buf` with the bytes from `offset` on. Fails only when the range
    /// leaves the device.
    fn read(&self, offset: u32, buf: &mut [u8]) -> (r: Result<(), FlashError>)
        requires
            self.sound(),
        ensures
            final(buf)@.len() == old(buf)@.len(),
            r is Ok <==> offset + old(buf)@.len() <= self.contents().len(),
            r is Ok ==> final(buf)@ == self.contents().subrange(
                offset as int,
                offset + old(buf)@.len(),
            ),
            r is Err ==> r == Err::<(), FlashError>(FlashError::OutOfBounds)
                && final(buf)@ == old(buf)@,
    ;

    /// The error with which the device refuses to program `data` at
    /// `offset`, if it refuses. It is for the device to say which writes it
    /// refuses; the store asks only that the answer depends on nothing but
    /// the device and the write. A power loss is no refusal.
    spec fn write_refusal(&self, offset: u32, data: Seq<u8>) -> Option<FlashError>;

    /// The error with which the device refuses to erase the page that starts
    /// at `offset`, if it refuses.
    spec fn erase_refusal(&self, offset: u32) -> Option<FlashError>;

    /// Whether a word that was programmed once can be programmed again, as a
    /// tombstone needs it.
    spec fn rewrites(&self) -> bool;

    /// Whether every write so far kept to the store's rule (see `fair`). It
    /// is for the device to say what that means for it; the store asks that
    /// a device in this state refuses no fair write and stays in this state
    /// under fair writes and under erasures.
    spec fn tidy(&self) -> bool;

    /// How often the power of the device has failed during a write or an
    /// erasure. A device reports a power loss exactly when it counts one.
    spec fn losses(&self) -> nat;

    /// The bytes that the device is sure to program or erase before its
    /// power fails: `None` where its power does not fail, `Some(0)` where
    /// nothing is known. It is for the device to say; the store asks that a
    /// write or an erasure within the reserve is not cut short and takes no
    /// more from the reserve than the bytes it covers.
    spec fn reserve(&self) -> Option<nat>;

    /// Whether a power loss lifts the limit of the device: after an
    /// operation that was cut short it has no reserve that could run out.
    spec fn mends(&self) -> bool;

    /// Programs `data` at `offset`.
    fn write(&mut self, offset: u32, data: &[u8]) -> (r: Result<(), FlashError>)
        requires
            old(self).sound(),
        ensures
            mended(
                old(self).mends(),
                final(self).mends(),
                final(self).reserve(),
                lost(r),
            ),
            spared(old(self).reserve(), final(self).reserve(), data@.len() as int, lost(r)),
            tolled(old(self).losses(), final(self).losses(), lost(r)),
            answers(old(self).write_refusal(offset, data@), r),
            final(self).rewrites() == old(self).rewrites(),
            old(self).tidy() && fair(
                old(self).contents(),
                old(self).word() as int,
                old(self).rewrites(),
                offset as int,
                data@,
            ) ==> final(self).tidy() && old(self).write_refusal(offset, data@) is None,
            final(self).sound(),
            final(self).word() == old(self).word(),
            final(self).page() == old(self).page(),
            final(self).contents().len() == old(self).contents().len(),
            r is Ok ==> offset + data@.len() <= old(self).contents().len()
                && final(self).contents() == splice(old(self).contents(), offset as int, data@),
            r matches Err(e) ==> if e is EarlyShutoff {
                &&& offset + data@.len() <= old(self).contents().len()
                &&& old(self).word() > 0
                &&& exists|done: int|
                    done % (old(self).word() as int) == 0 && #[trigger] partly_written(
                        old(self).contents(),
                        final(self).contents(),
                        offset as int,
                        data@,
                        done,
                    )
            } else {
                final(self).contents() == old(self).contents()
            },
    ;

    /// Erases the page that starts at `offset`.
    fn erase(&mut self, offset: u32) -> (r: Result<(), FlashError>)
        requires
            old(self).sound(),
        ensures
            mended(
                old(self).mends(),
                final(self).mends(),
                final(self).reserve(),
                lost(r),
            ),
            spared(old(self).reserve(), final(self).reserve(), old(self).page() as int, lost(r)),
            tolled(old(self).losses(), final(self).losses(), lost(r)),
            answers(old(self).erase_refusal(offset), r),
            final(self).rewrites() == old(self).rewrites(),
            old(self).tidy() ==> final(self).tidy(),
            old(self).page() >= 1 && (offset as int) % (old(self).page() as int) == 0 && offset
                + old(self).page() <= old(self).contents().len() ==> old(self).erase_refusal(
                offset,
            ) is None,
            final(self).sound(),
            final(self).word() == old(self).word(),
            final(self).page() == old(self).page(),
            final(self).contents().len() == old(self).contents().len(),
            r is Ok ==> offset + old(self).page() <= old(self).contents().len()
                && final(self).contents() == wipe(
                old(self).contents(),
                offset as int,
                offset + old(self).page(),
            ),
            r matches Err(e) ==> if e is EarlyShutoff {
                &&& offset + old(self).page() <= old(self).contents().len()
                &&& partly_wiped(
                    old(self).contents(),
                    final(self).contents(),
                    offset as int,
                    offset + old(self).page(),
                )
            } else {
                final(self).contents() == old(self).contents()
            },
    ;
}

} // verus!
