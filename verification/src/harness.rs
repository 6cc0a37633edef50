//! A small item type and a driver that runs random operations against the
//! store and checks every answer against a plain map.

use crate::cache::{Cache, CacheShape};
use crate::flash::{all_ones, FlashError, NorFlash};
use crate::header::{blank_is_erased, PageState};
use crate::item::{short, Error, StorageItem};
use crate::laws::blank_store_is_empty;
use crate::layout::{region_spec, Layout};
use crate::map::{fetch_item, remove_item, store_item};
use crate::mock::{MockFlash, WriteCountCheck};
use crate::ring::{agrees, blank_agrees, lookup, snug, states_of};
use crate::shape::{blank_is_sound, harmless, sound_ring};
use std::collections::HashMap;
use vstd::prelude::*;
use vstd::slice::{slice_subrange, slice_to_vec};

verus! {

/// An item with a one-byte key and a short value.
#[derive(Debug, Clone, PartialEq, Eq)]
pub struct TestItem {
    pub key: u8,
    pub value: Vec<u8>,
}

impl StorageItem for TestItem {
    type Key = u8;

    type Error = ();

    type Model = (u8, Seq<u8>);

    open spec fn model(&self) -> (u8, Seq<u8>) {
        (self.key, self.value@)
    }

    /// The key, then the value.
    open spec fn wire(&self) -> Seq<u8> {
        seq![self.key] + self.value@
    }

    open spec fn unwire(bytes: Seq<u8>) -> Option<(u8, Seq<u8>)> {
        if bytes.len() == 0 {
            None
        } else {
            Some((bytes[0], bytes.subrange(1, bytes.len() as int)))
        }
    }

    open spec fn key_in(bytes: Seq<u8>) -> Option<u8> {
        if bytes.len() == 0 {
            None
        } else {
            Some(bytes[0])
        }
    }

    /// The buffer must hold the key and the value.
    open spec fn encodes(&self, room: nat) -> bool {
        self.value@.len() < room
    }

    proof fn round_trip(&self) {
        let bytes = self.wire();
        assert(bytes.subrange(1, bytes.len() as int) =~= self.value@);
    }

    /// Fails when `buffer` is shorter than the key and the value together.
    fn serialize_into(&self, buffer: &mut [u8]) -> (r: Result<usize, ()>)
        ensures
            r is Err ==> final(buffer)@ == old(buffer)@,
            r matches Ok(m) ==> forall|j: int|
                m <= j < old(buffer)@.len() ==> final(buffer)@[j] == old(buffer)@[j],
    {
        let n: usize = self.value.len();
        if buffer.len() <= n {
            return Err(());
        }
        buffer[0] = self.key;
        let mut i: usize = 0;
        while i < n
            invariant
                i <= n,
                n == self.value@.len(),
                n < buffer@.len(),
                buffer@.len() == old(buffer)@.len(),
                buffer@[0] == self.key,
                forall|j: int| 0 <= j < i ==> buffer@[1 + j] == self.value@[j],
                forall|j: int| 1 + i <= j < buffer@.len() ==> buffer@[j] == old(buffer)@[j],
            decreases n - i,
        {
            buffer[1 + i] = self.value[i];
            i += 1;
        }
        assert(buffer@.subrange(0, 1 + n) =~= self.wire());
        Ok(1 + n)
    }

    /// Fails on an empty buffer.
    fn deserialize_from(buffer: &[u8]) -> (r: Result<TestItem, ()>) {
        if buffer.len() == 0 {
            return Err(());
        }
        let value = slice_to_vec(slice_subrange(buffer, 1, buffer.len()));
        Ok(TestItem { key: buffer[0], value })
    }

    fn key(&self) -> (k: u8) {
        self.key
    }

    /// Fails on an empty buffer.
    fn deserialize_key_only(buffer: &[u8]) -> (r: Result<u8, ()>) {
        if buffer.len() == 0 {
            return Err(());
        }
        Ok(buffer[0])
    }
}

/// Pages of the simulated device.
pub const PAGES: u32 = 4;

/// Bytes per word of the simulated device.
pub const WORD_SIZE: u32 = 4;

/// Words per page of the simulated device.
pub const WORDS_PER_PAGE: u32 = 256;

/// Which cache a run uses.
#[derive(Debug, Clone, Copy, PartialEq, Eq, Structural)]
pub enum CacheType {
    NoCache,
    PageStateCache,
    PagePointerCache,
    KeyPointerCache,
}

/// A store of a value of `value_len % 8` random bytes under `key`.
#[derive(Debug, Clone, Copy, PartialEq, Eq, Structural)]
pub struct StoreOp {
    pub key: u8,
    pub value_len: u8,
}

/// One operation of a run.
#[derive(Debug, Clone, Copy, PartialEq, Eq, Structural)]
pub enum Op {
    Store(StoreOp),
    Fetch(u8),
    Remove(u8),
}

/// A run: the operations, the seed of the values, and the number of words
/// that the device programs or erases before its power fails once.
#[derive(Debug, Clone)]
pub struct Input {
    pub seed: u64,
    pub fuel: u16,
    pub ops: Vec<Op>,
    pub cache_type: CacheType,
}

/// How a run ended.
#[derive(Debug, Clone, Copy, PartialEq, Eq, Structural)]
pub enum Outcome {
    /// Every answer of the store was the answer of the map.
    Passed,
    /// The store answered otherwise than the map.
    Mismatch,
    /// The store reported that its pages do not form a ring.
    Corrupted,
    /// The store reported an error that a run does not expect.
    Failed,
}

#[verifier::external_type_specification]
#[verifier::external_body]
pub struct ExPcg32(rand_pcg::Lcg64Xsh32);

/// `rand_pcg::Pcg32` seeded by `rand::SeedableRng::seed_from_u64`. Nothing is
/// claimed of the generator.
#[verifier::external_body]
fn seeded(seed: u64) -> (rng: rand_pcg::Lcg64Xsh32) {
    rand::SeedableRng::seed_from_u64(seed)
}

/// The next byte that `rand::Rng::gen` draws from the generator. Nothing is
/// claimed of the byte.
#[verifier::external_body]
fn next_byte(rng: &mut rand_pcg::Lcg64Xsh32) -> (b: u8) {
    rand::Rng::gen::<u8>(rng)
}

/// The item that the store operation `op` makes of the bytes drawn for it:
/// the key of the operation with the bytes, in the order drawn, as its value.
pub fn item_of(op: StoreOp, bytes: Vec<u8>) -> (item: TestItem)
    requires
        bytes@.len() == op.value_len % 8,
    ensures
        item.key == op.key,
        item.value@ == bytes@,
{
    TestItem { key: op.key, value: bytes }
}

impl StoreOp {
    /// The item to store: the key, and `value_len % 8` bytes drawn from
    /// `rng`, one draw for each byte.
    pub fn into_test_item(self, rng: &mut rand_pcg::Lcg64Xsh32) -> (item: TestItem)
        ensures
            item.key == self.key,
            item.value@.len() == self.value_len % 8,
            self.value_len % 8 == 0 ==> *final(rng) == *old(rng),
    {
        let n: usize = (self.value_len % 8) as usize;
        let mut value: Vec<u8> = Vec::new();
        while value.len() < n
            invariant
                value@.len() <= n,
                n == 0 ==> *rng == *old(rng),
            decreases n - value@.len(),
        {
            value.push(next_byte(rng));
        }
        item_of(self, value)
    }
}

/// Whether two byte vectors hold the same bytes.
pub fn same_bytes(a: &Vec<u8>, b: &Vec<u8>) -> (r: bool)
    ensures
        r == (a@ == b@),
{
    if a.len() != b.len() {
        return false;
    }
    let mut i: usize = 0;
    while i < a.len()
        invariant
            i <= a@.len(),
            a@.len() == b@.len(),
            forall|j: int| 0 <= j < i ==> a@[j] == b@[j],
        decreases a@.len() - i,
    {
        if a[i] != b[i] {
            return false;
        }
        i += 1;
    }
    assert(a@ =~= b@);
    true
}

/// Whether any of the operations is a removal.
pub fn any_remove(ops: &Vec<Op>) -> (r: bool)
    ensures
        r == exists|i: int| 0 <= i < ops@.len() && (#[trigger] ops@[i]) is Remove,
{
    let mut i: usize = 0;
    while i < ops.len()
        invariant
            i <= ops@.len(),
            forall|j: int| 0 <= j < i ==> !((#[trigger] ops@[j]) is Remove),
        decreases ops@.len() - i,
    {
        if let Op::Remove(_) = ops[i] {
            return true;
        }
        i += 1;
    }
    false
}

/// The layout of the store on the simulated device.
pub open spec fn bench() -> Layout {
    Layout { base: 0, word: 4, page: 1024, pages: 4 }
}

/// The map holds for every key what the store answers for it.
pub open spec fn mirrors(map: Map<u8, Vec<u8>>, c: Seq<u8>) -> bool {
    forall|k: u8|
        #[trigger] lookup::<TestItem>(bench(), c, k) == (if map.contains_key(k) {
            Some(seq![k] + map[k]@)
        } else {
            None
        })
}

/// What a fetch found is what the map holds.
pub fn check_fetch(found: &Option<TestItem>, key: u8, expected: Option<&Vec<u8>>) -> (ok: bool)
    ensures
        ok == match (*found, expected) {
            (Some(item), Some(value)) => item.key == key && item.value@ == value@,
            (None, None) => true,
            _ => false,
        },
{
    match found {
        Some(item) => match expected {
            Some(value) => item.key == key && same_bytes(&item.value, value),
            None => false,
        },
        None => expected.is_none(),
    }
}

/// Runs the operations of `input` against a store on a blank simulated
/// device and against a map, and compares every answer.
///
/// The power of the device fails once, after `input.fuel` words. An operation
/// that the power loss cut short counts as done if the store answers as if it
/// were done. Whatever the operations and wherever the power fails, the run
/// passes: the store never answers otherwise than the map, never finds its
/// ring corrupted, never runs out of buffer space, and never asks of the
/// device a write that it refuses.
pub fn fuzz(input: Input, cache: Cache<u8>) -> (v: Outcome)
    requires
        cache.wf(),
        cache.is_blank(),
    ensures
        v == Outcome::Passed,
{
    broadcast use vstd::std_specs::hash::group_hash_axioms;

    let mut cache = cache;
    let removes: bool = any_remove(&input.ops);
    let policy = if removes {
        WriteCountCheck::Twice
    } else {
        WriteCountCheck::OnceOnly
    };
    let mut flash = MockFlash::new(
        PAGES,
        WORD_SIZE,
        WORDS_PER_PAGE,
        policy,
        Some(input.fuel as u32),
    );
    let mut map: HashMap<u8, Vec<u8>> = HashMap::new();
    let mut space: Vec<u8> = vec![0u8; 260];
    let mut rng = seeded(input.seed);
    let ghost l = bench();
    proof {
        let c = flash.contents();
        assert forall|k: u8| #[trigger] lookup::<TestItem>(l, c, k) is None by {
            assert forall|p: int| 0 <= p < l.pages implies all_ones(#[trigger] l.page_at(c, p)) by {
                l.page_len(c, p);
            }
            blank_store_is_empty::<TestItem>(l, c, k);
        }
        blank_agrees::<TestItem>(&cache, l, c);
        assert forall|p: int| 0 <= p < l.pages implies states_of(l, c)[p] == PageState::Erased by {
            l.page_len(c, p);
            blank_is_erased(l.page_at(c, p), l.word as int);
        }
        blank_is_sound(l, states_of(l, c));
    }
    let mut i: usize = 0;
    while i < input.ops.len()
        invariant
            i <= input.ops@.len(),
            l == bench(),
            flash.sound(),
            flash.word() == 4,
            flash.page() == 1024,
            flash.contents().len() == 4096,
            space@.len() == 260,
            agrees::<TestItem>(&cache, l, flash.contents()),
            mirrors(map@, flash.contents()),
            sound_ring(l, states_of(l, flash.contents())),
            snug(l, flash.contents(), 260),
            flash.tidy(),
            flash.rewrites() == removes,
            removes == exists|j: int|
                0 <= j < input.ops@.len() && (#[trigger] input.ops@[j]) is Remove,
        decreases input.ops@.len() - i,
    {
        let ghost c = flash.contents();
        let op = input.ops[i];
        assert(input.ops@[i as int] is Remove ==> removes);
        i += 1;
        assert(region_spec(4, 1024, 4096, 0, 0x1000) == Ok::<Layout, FlashError>(l));
        assert(forall|c: Seq<u8>, e: Error<()>| #[trigger] harmless::<()>(l, c, e));
        match op {
            Op::Store(op) => {
                let item = op.into_test_item(&mut rng);
                let ghost wire = item.wire();
                let r = store_item(&mut flash, 0x000..0x1000, &mut cache, space.as_mut_slice(), &item);
                match r {
                    Ok(()) => {
                        let key = item.key;
                        map.insert(key, item.value);
                    },
                    Err(Error::FullStorage) => {},
                    Err(Error::Storage(FlashError::EarlyShutoff(_))) => {
                        let ghost c1 = flash.contents();
                        let got = fetch_item::<TestItem, MockFlash>(
                            &flash,
                            0x000..0x1000,
                            &mut cache,
                            space.as_mut_slice(),
                            item.key,
                        );
                        proof {
                            // The old payload and the new one both decode.
                            item.round_trip();
                            if let Some(d) = lookup::<TestItem>(l, c1, item.key) {
                                assert(d.len() > 0);
                            }
                            assert(got is Ok);
                        }
                        match got {
                            Ok(found) => {
                                let arrived = match &found {
                                    Some(other) => other.key == item.key && same_bytes(
                                        &other.value,
                                        &item.value,
                                    ),
                                    None => false,
                                };
                                proof {
                                    item.round_trip();
                                    if let Some(d) = lookup::<TestItem>(l, c1, item.key) {
                                        if arrived {
                                            assert(d =~= wire);
                                        }
                                    }
                                }
                                if arrived {
                                    let key = item.key;
                                    map.insert(key, item.value);
                                }
                            },
                            Err(_) => {
                                return Outcome::Failed;
                            },
                        }
                    },
                    Err(Error::Corrupted) => {
                        return Outcome::Corrupted;
                    },
                    Err(_) => {
                        return Outcome::Failed;
                    },
                }
            },
            Op::Fetch(key) => {
                let got = fetch_item::<TestItem, MockFlash>(
                    &flash,
                    0x000..0x1000,
                    &mut cache,
                    space.as_mut_slice(),
                    key,
                );
                proof {
                    // What the map mirrors decodes, and the buffer is enough.
                    if let Some(d) = lookup::<TestItem>(l, c, key) {
                        assert(d.len() > 0);
                    }
                    assert(got is Ok);
                }
                match got {
                    Ok(found) => {
                        let expected = map.get(&key);
                        if !check_fetch(&found, key, expected) {
                            proof {
                                if let Some(d) = lookup::<TestItem>(l, c, key) {
                                    assert(d.subrange(1, d.len() as int) =~= map@[key]@);
                                }
                            }
                            return Outcome::Mismatch;
                        }
                    },
                    Err(Error::Storage(FlashError::EarlyShutoff(_))) => {},
                    Err(Error::Corrupted) => {
                        return Outcome::Corrupted;
                    },
                    Err(_) => {
                        return Outcome::Failed;
                    },
                }
            },
            Op::Remove(key) => {
                let r = remove_item::<TestItem, MockFlash>(
                    &mut flash,
                    0x000..0x1000,
                    &mut cache,
                    space.as_mut_slice(),
                    key,
                );
                match r {
                    Ok(()) => {
                        map.remove(&key);
                    },
                    Err(Error::Storage(FlashError::EarlyShutoff(_))) => {
                        let got = fetch_item::<TestItem, MockFlash>(
                            &flash,
                            0x000..0x1000,
                            &mut cache,
                            space.as_mut_slice(),
                            key,
                        );
                        proof {
                            if let Some(d) = lookup::<TestItem>(l, flash.contents(), key) {
                                assert(d.len() > 0);
                            }
                            assert(got is Ok);
                        }
                        match got {
                            Ok(Some(_)) => {},
                            Ok(None) => {
                                map.remove(&key);
                            },
                            Err(_) => {
                                return Outcome::Failed;
                            },
                        }
                    },
                    Err(Error::Corrupted) => {
                        return Outcome::Corrupted;
                    },
                    Err(_) => {
                        return Outcome::Failed;
                    },
                }
            },
        }
    }
    Outcome::Passed
}

/// A blank cache of the shape that `kind` names, for the simulated device.
pub fn cache_for(kind: CacheType) -> (c: Cache<u8>)
    ensures
        c.wf(),
        c.is_blank(),
        c.shape() == match kind {
            CacheType::NoCache => CacheShape::NoCache,
            CacheType::PageStateCache => CacheShape::PageState,
            CacheType::PagePointerCache => CacheShape::PagePointer,
            CacheType::KeyPointerCache => CacheShape::KeyPointer,
        },
        kind != CacheType::NoCache ==> c.state_claims().len() == PAGES,
        kind == CacheType::KeyPointerCache ==> c.capacity() == 64,
{
    match kind {
        CacheType::NoCache => Cache::no_cache(),
        CacheType::PageStateCache => Cache::page_state(PAGES as usize),
        CacheType::PagePointerCache => Cache::page_pointer(PAGES as usize),
        CacheType::KeyPointerCache => Cache::key_pointer(PAGES as usize, 64),
    }
}

} // verus!
