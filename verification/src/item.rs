//! What the store asks of the items it holds, and the errors it reports.

use crate::flash::FlashError;
use vstd::prelude::*;

verus! {

/// A key by which items are found. Two keys are the same exactly when they
/// are equal.
pub trait StorageKey: Copy {
    fn same(&self, other: &Self) -> (r: bool)
        ensures
            r == (*self == *other),
    ;
}

impl StorageKey for u8 {
    fn same(&self, other: &Self) -> (r: bool) {
        *self == *other
    }
}

impl StorageKey for u16 {
    fn same(&self, other: &Self) -> (r: bool) {
        *self == *other
    }
}

impl StorageKey for u32 {
    fn same(&self, other: &Self) -> (r: bool) {
        *self == *other
    }
}

impl StorageKey for u64 {
    fn same(&self, other: &Self) -> (r: bool) {
        *self == *other
    }
}

/// An item that the store can hold: a key and a value with a wire form from
/// which both can be read back.
///
/// The wire form is the item's own business. The store asks only that
/// decoding undoes encoding and that the key can be read from the wire form
/// without decoding the value.
pub trait StorageItem: Sized {
    type Key: StorageKey;

    type Error;

    /// What an item is, whatever its representation in memory.
    type Model;

    /// What this item is.
    spec fn model(&self) -> Self::Model;

    /// The bytes that stand for this item on flash.
    spec fn wire(&self) -> Seq<u8>;

    /// The item that the bytes stand for, if they stand for one.
    spec fn unwire(bytes: Seq<u8>) -> Option<Self::Model>;

    /// The key of the item that the bytes stand for, if one can be read.
    spec fn key_in(bytes: Seq<u8>) -> Option<Self::Key>;

    /// Decoding an item's wire form gives the item back.
    proof fn round_trip(&self)
        ensures
            Self::unwire(self.wire()) == Some(self.model()),
    ;

    /// Whether `serialize_into` writes this item into a buffer of `room`
    /// bytes. It is for the item's own code to say when it does; the store
    /// asks only that the answer depends on nothing but the item and the
    /// room.
    spec fn encodes(&self, room: nat) -> bool;

    /// Writes the wire form to the front of `buffer` and returns its length.
    fn serialize_into(&self, buffer: &mut [u8]) -> (r: Result<usize, Self::Error>)
        ensures
            final(buffer)@.len() == old(buffer)@.len(),
            r is Ok <==> self.encodes(old(buffer)@.len()),
            r matches Ok(n) ==> n == self.wire().len() && n <= old(buffer)@.len()
                && final(buffer)@.subrange(0, n as int) == self.wire(),
    ;

    /// Decodes an item from its wire form.
    fn deserialize_from(buffer: &[u8]) -> (r: Result<Self, Self::Error>)
        ensures
            match r {
                Ok(item) => Self::unwire(buffer@) == Some(item.model()),
                Err(_) => Self::unwire(buffer@) is None,
            },
    ;

    /// The key of this item: the one that can be read from its wire form.
    fn key(&self) -> (k: Self::Key)
        ensures
            Self::key_in(self.wire()) == Some(k),
    ;

    /// Reads the key from an item's wire form.
    fn deserialize_key_only(buffer: &[u8]) -> (r: Result<Self::Key, Self::Error>)
        ensures
            match r {
                Ok(k) => Self::key_in(buffer@) == Some(k),
                Err(_) => Self::key_in(buffer@) is None,
            },
    ;
}

/// The payloads that belong to `key`.
pub open spec fn wants<I: StorageItem>(key: I::Key) -> spec_fn(Seq<u8>) -> bool {
    |d: Seq<u8>| I::key_in(d) == Some(key)
}

/// Why an operation on the store failed.
#[derive(Debug)]
pub enum Error<E> {
    /// The item is larger than an empty page can hold, or no page has room
    /// for it after reclaiming.
    FullStorage,
    /// The flash device reported an error.
    Storage(FlashError),
    /// The pages do not form a ring that the store could have written.
    Corrupted,
    /// The buffer is too small for a frame that had to pass through it.
    BufferTooSmall,
    /// The item's own code rejected a buffer.
    Item(E),
}

/// The operation failed because the item's own code rejected a buffer.
pub open spec fn rejected<T, E>(r: Result<T, Error<E>>) -> bool {
    r matches Err(Error::Item(_))
}

/// The operation was cut short by a power loss.
pub open spec fn cut<T, E>(r: Result<T, Error<E>>) -> bool {
    r matches Err(Error::Storage(FlashError::EarlyShutoff(_)))
}

/// The operation failed because the store has no room left.
pub open spec fn full<T, E>(r: Result<T, Error<E>>) -> bool {
    r matches Err(Error::FullStorage)
}

/// The operation failed because the device refused a write or an erasure.
pub open spec fn balked<T, E>(r: Result<T, Error<E>>) -> bool {
    r matches Err(Error::Storage(e)) && !(e is EarlyShutoff)
}

/// The operation failed for want of buffer space.
pub open spec fn short<T, E>(r: Result<T, Error<E>>) -> bool {
    r matches Err(Error::BufferTooSmall)
}

} // verus!
