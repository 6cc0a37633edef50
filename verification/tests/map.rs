use norflash_map::cache::Cache;
use norflash_map::flash::{FlashError, NorFlash};
use norflash_map::harness::TestItem;
use norflash_map::item::Error;
use norflash_map::map::{fetch_item, remove_item, store_item};
use norflash_map::mock::{MockFlash, WriteCountCheck};
use std::collections::HashMap;

const RANGE: std::ops::Range<u32> = 0x000..0x1000;

fn flash() -> MockFlash {
    MockFlash::new(4, 4, 256, WriteCountCheck::Twice, None)
}

fn item(key: u8, value: &[u8]) -> TestItem {
    TestItem { key, value: value.to_vec() }
}

fn store(f: &mut MockFlash, c: &mut Cache<u8>, key: u8, value: &[u8]) -> Result<(), Error<()>> {
    let mut buf = [0u8; 260];
    store_item(f, RANGE, c, &mut buf, &item(key, value))
}

fn fetch(f: &MockFlash, c: &mut Cache<u8>, key: u8) -> Result<Option<TestItem>, Error<()>> {
    let mut buf = [0u8; 260];
    fetch_item::<TestItem, _>(f, RANGE, c, &mut buf, key)
}

fn remove(f: &mut MockFlash, c: &mut Cache<u8>, key: u8) -> Result<(), Error<()>> {
    let mut buf = [0u8; 260];
    remove_item::<TestItem, _>(f, RANGE, c, &mut buf, key)
}

fn value_of(r: Result<Option<TestItem>, Error<()>>) -> Option<Vec<u8>> {
    match r {
        Ok(Some(it)) => Some(it.value),
        Ok(None) => None,
        Err(e) => panic!("fetch failed: {:?}", e),
    }
}

fn caches() -> Vec<Cache<u8>> {
    vec![
        Cache::no_cache(),
        Cache::page_state(4),
        Cache::page_pointer(4),
        Cache::key_pointer(4, 64),
        Cache::key_pointer(4, 2),
    ]
}

#[test]
fn empty_value_is_stored_and_other_keys_stay_absent() {
    for mut c in caches() {
        let mut f = flash();
        store(&mut f, &mut c, 1, &[]).unwrap();
        assert_eq!(fetch(&f, &mut c, 1).unwrap(), Some(item(1, &[])));
        assert_eq!(fetch(&f, &mut c, 2).unwrap(), None);
    }
}

#[test]
fn later_store_wins() {
    for mut c in caches() {
        let mut f = flash();
        store(&mut f, &mut c, 1, &[0xAA, 0xBB]).unwrap();
        store(&mut f, &mut c, 1, &[0xCC]).unwrap();
        assert_eq!(fetch(&f, &mut c, 1).unwrap(), Some(item(1, &[0xCC])));
    }
}

#[test]
fn removed_key_is_absent_until_stored_again() {
    for mut c in caches() {
        let mut f = flash();
        store(&mut f, &mut c, 1, &[0xAA]).unwrap();
        remove(&mut f, &mut c, 1).unwrap();
        assert_eq!(fetch(&f, &mut c, 1).unwrap(), None);
        store(&mut f, &mut c, 1, &[0xBB]).unwrap();
        assert_eq!(fetch(&f, &mut c, 1).unwrap(), Some(item(1, &[0xBB])));
    }
}

#[test]
fn removing_an_absent_key_succeeds() {
    for mut c in caches() {
        let mut f = flash();
        remove(&mut f, &mut c, 9).unwrap();
        store(&mut f, &mut c, 1, &[1]).unwrap();
        remove(&mut f, &mut c, 9).unwrap();
        remove(&mut f, &mut c, 1).unwrap();
        remove(&mut f, &mut c, 1).unwrap();
        assert_eq!(fetch(&f, &mut c, 1).unwrap(), None);
    }
}

#[test]
fn live_keys_survive_rotation_and_reclaiming() {
    for mut c in caches() {
        let mut f = flash();
        let mut model: HashMap<u8, Vec<u8>> = HashMap::new();
        // Each frame takes 16 bytes; a page body holds 63 of them. Writing
        // 40 keys 20 times over goes round the ring several times.
        for round in 0..20u8 {
            for key in 0..40u8 {
                let value = [round, key, round ^ key, 7, 9];
                store(&mut f, &mut c, key, &value).unwrap();
                model.insert(key, value.to_vec());
            }
            for key in 0..40u8 {
                assert_eq!(value_of(fetch(&f, &mut c, key)), model.get(&key).cloned());
            }
        }
        let mut fresh = Cache::no_cache();
        for key in 0..=255u8 {
            assert_eq!(value_of(fetch(&f, &mut fresh, key)), model.get(&key).cloned());
        }
    }
}

#[test]
fn removed_keys_stay_removed_across_reclaiming() {
    for mut c in caches() {
        let mut f = flash();
        for key in 0..30u8 {
            store(&mut f, &mut c, key, &[key; 5]).unwrap();
        }
        for key in 0..30u8 {
            if key % 3 == 0 {
                remove(&mut f, &mut c, key).unwrap();
            }
        }
        for round in 0..30u8 {
            for key in 100..130u8 {
                store(&mut f, &mut c, key, &[round; 6]).unwrap();
            }
        }
        for key in 0..30u8 {
            let want = if key % 3 == 0 { None } else { Some(vec![key; 5]) };
            assert_eq!(value_of(fetch(&f, &mut c, key)), want);
        }
    }
}

#[test]
fn an_item_larger_than_a_page_is_refused() {
    let mut f = MockFlash::new(4, 4, 16, WriteCountCheck::Twice, None);
    let mut c: Cache<u8> = Cache::no_cache();
    let mut buf = [0u8; 260];
    // A page has 64 bytes, 56 of them for items; a frame needs 8 bytes
    // besides the padded payload, so 48 bytes of payload fit and 49 do not.
    let fits = item(1, &[3u8; 47]);
    let too_big = item(2, &[3u8; 48]);
    assert!(matches!(
        store_item(&mut f, 0..0x100, &mut c, &mut buf, &too_big),
        Err(Error::FullStorage)
    ));
    assert!(f.snapshot().iter().all(|b| *b == 0xFF));
    store_item(&mut f, 0..0x100, &mut c, &mut buf, &fits).unwrap();
    let got = fetch_item::<TestItem, _>(&f, 0..0x100, &mut c, &mut buf, 1).unwrap();
    assert_eq!(got, Some(fits));
}

#[test]
fn a_region_full_of_live_keys_refuses_a_new_key() {
    let mut f = MockFlash::new(4, 4, 16, WriteCountCheck::Twice, None);
    let mut c: Cache<u8> = Cache::no_cache();
    let mut buf = [0u8; 260];
    // Every frame takes 16 bytes, so a page holds three items. With one page
    // kept blank, at most nine distinct keys can be live.
    let mut stored: Vec<u8> = Vec::new();
    let mut refused = false;
    for key in 0..40u8 {
        match store_item(&mut f, 0..0x100, &mut c, &mut buf, &item(key, &[key; 7])) {
            Ok(()) => stored.push(key),
            Err(Error::FullStorage) => {
                refused = true;
                break;
            }
            Err(e) => panic!("{:?}", e),
        }
    }
    assert!(refused);
    assert!(stored.len() >= 6 && stored.len() <= 9);
    for key in stored {
        let got = fetch_item::<TestItem, _>(&f, 0..0x100, &mut c, &mut buf, key).unwrap();
        assert_eq!(got, Some(item(key, &[key; 7])));
    }
}

#[test]
fn a_bad_range_is_reported() {
    let mut f = flash();
    let mut c: Cache<u8> = Cache::no_cache();
    let mut buf = [0u8; 260];
    assert!(matches!(
        store_item(&mut f, 0x10..0x1000, &mut c, &mut buf, &item(1, &[])),
        Err(Error::Storage(FlashError::NotAligned))
    ));
    assert!(matches!(
        fetch_item::<TestItem, _>(&f, 0..0x2000, &mut c, &mut buf, 1),
        Err(Error::Storage(FlashError::OutOfBounds))
    ));
    assert!(matches!(
        remove_item::<TestItem, _>(&mut f, 0..0x400, &mut c, &mut buf, 1),
        Err(Error::Storage(FlashError::OutOfBounds))
    ));
}

#[test]
fn a_short_buffer_is_reported() {
    let mut f = flash();
    let mut c: Cache<u8> = Cache::no_cache();
    let mut tiny = [0u8; 7];
    assert!(matches!(
        store_item(&mut f, RANGE, &mut c, &mut tiny, &item(1, &[])),
        Err(Error::BufferTooSmall)
    ));
    assert!(matches!(
        fetch_item::<TestItem, _>(&f, RANGE, &mut c, &mut tiny, 1),
        Err(Error::BufferTooSmall)
    ));
    let mut small = [0u8; 12];
    assert!(matches!(
        store_item(&mut f, RANGE, &mut c, &mut small, &item(1, &[1, 2, 3, 4, 5, 6, 7, 8])),
        Err(Error::Item(()))
    ));
}

#[test]
fn power_loss_during_a_store_leaves_the_old_or_the_new_value() {
    for fuel in 0..40u32 {
        for mut c in caches() {
            let mut f = flash();
            store(&mut f, &mut c, 1, &[0x11, 0x22]).unwrap();
            f.set_fuel(Some(fuel));
            let second = store(&mut f, &mut c, 1, &[0x33, 0x44, 0x55]);
            f.set_fuel(None);
            let mut reopened: Cache<u8> = Cache::no_cache();
            let got = value_of(fetch(&f, &mut reopened, 1));
            match second {
                Ok(()) => assert_eq!(got, Some(vec![0x33, 0x44, 0x55])),
                Err(Error::Storage(FlashError::EarlyShutoff(_))) => {
                    assert!(got == Some(vec![0x11, 0x22]) || got == Some(vec![0x33, 0x44, 0x55]));
                }
                Err(e) => panic!("{:?}", e),
            }
            assert_eq!(value_of(fetch(&f, &mut c, 1)), got);
            store(&mut f, &mut c, 1, &[0x66]).unwrap();
            assert_eq!(value_of(fetch(&f, &mut c, 1)), Some(vec![0x66]));
        }
    }
}

#[test]
fn power_loss_during_a_remove_leaves_the_value_or_nothing() {
    for fuel in 0..6u32 {
        let mut f = flash();
        let mut c: Cache<u8> = Cache::key_pointer(4, 8);
        store(&mut f, &mut c, 1, &[1]).unwrap();
        store(&mut f, &mut c, 2, &[2]).unwrap();
        store(&mut f, &mut c, 1, &[3]).unwrap();
        f.set_fuel(Some(fuel));
        let r = remove(&mut f, &mut c, 1);
        f.set_fuel(None);
        let got = value_of(fetch(&f, &mut c, 1));
        match r {
            Ok(()) => assert_eq!(got, None),
            Err(Error::Storage(FlashError::EarlyShutoff(_))) => {
                assert!(got == None || got == Some(vec![3]));
            }
            Err(e) => panic!("{:?}", e),
        }
        assert_eq!(value_of(fetch(&f, &mut c, 2)), Some(vec![2]));
    }
}

struct Rng(u64);

impl Rng {
    fn next(&mut self) -> u32 {
        self.0 = self.0.wrapping_mul(6364136223846793005).wrapping_add(1442695040888963407);
        (self.0 >> 33) as u32
    }
}

fn random_ops(seed: u64, count: usize, mut c: Cache<u8>, lose_power: bool) {
    let mut rng = Rng(seed);
    let mut f = flash();
    let mut model: HashMap<u8, Vec<u8>> = HashMap::new();
    for _ in 0..count {
        let kind = rng.next() % 4;
        let key = (rng.next() % 24) as u8;
        if lose_power && rng.next() % 16 == 0 {
            f.set_fuel(Some(rng.next() % 300));
        }
        if kind < 2 {
            let len = (rng.next() % 8) as usize;
            let value: Vec<u8> = (0..len).map(|_| rng.next() as u8).collect();
            match store(&mut f, &mut c, key, &value) {
                Ok(()) => {
                    model.insert(key, value);
                }
                Err(Error::FullStorage) => {}
                Err(Error::Storage(FlashError::EarlyShutoff(_))) => {
                    let got = value_of(fetch(&f, &mut c, key));
                    assert!(got == Some(value.clone()) || got == model.get(&key).cloned());
                    if got == Some(value.clone()) {
                        model.insert(key, value);
                    }
                }
                Err(e) => panic!("{:?}", e),
            }
        } else if kind == 2 {
            match remove(&mut f, &mut c, key) {
                Ok(()) => {
                    model.remove(&key);
                }
                Err(Error::Storage(FlashError::EarlyShutoff(_))) => {
                    let got = value_of(fetch(&f, &mut c, key));
                    assert!(got == None || got == model.get(&key).cloned());
                    if got == None {
                        model.remove(&key);
                    }
                }
                Err(e) => panic!("{:?}", e),
            }
        } else {
            assert_eq!(value_of(fetch(&f, &mut c, key)), model.get(&key).cloned());
        }
    }
    let mut rescan: Cache<u8> = Cache::no_cache();
    for key in 0..=255u8 {
        let cached = value_of(fetch(&f, &mut c, key));
        let scanned = value_of(fetch(&f, &mut rescan, key));
        assert_eq!(cached, scanned);
        assert_eq!(scanned, model.get(&key).cloned());
    }
}

#[test]
fn a_thousand_random_ops_with_a_key_cache_match_a_rescan() {
    for seed in 0..8u64 {
        random_ops(seed, 1000, Cache::key_pointer(4, 64), false);
    }
}

#[test]
fn random_ops_match_a_map_for_every_cache() {
    for (seed, c) in caches().into_iter().enumerate() {
        random_ops(100 + seed as u64, 1500, c, false);
    }
}

#[test]
fn random_ops_with_power_losses_match_a_map() {
    for seed in 0..6u64 {
        for c in caches() {
            random_ops(1000 + seed, 800, c, true);
        }
    }
}

#[test]
fn every_cache_sees_the_same_flash() {
    let mut images: Vec<Vec<u8>> = Vec::new();
    for mut c in caches() {
        let mut f = flash();
        let mut rng = Rng(42);
        for _ in 0..600 {
            let key = (rng.next() % 50) as u8;
            if rng.next() % 5 == 0 {
                remove(&mut f, &mut c, key).unwrap();
            } else {
                let len = (rng.next() % 8) as usize;
                let value: Vec<u8> = (0..len).map(|_| rng.next() as u8).collect();
                store(&mut f, &mut c, key, &value).unwrap();
            }
        }
        images.push(f.snapshot());
    }
    for image in &images {
        assert!(image == &images[0]);
    }
}

#[test]
fn fetching_twice_gives_the_same_answer_and_changes_nothing() {
    for mut c in caches() {
        let mut f = flash();
        for key in 0..20u8 {
            store(&mut f, &mut c, key, &[key, 1, 2]).unwrap();
        }
        remove(&mut f, &mut c, 7).unwrap();
        let image = f.snapshot();
        for key in 0..30u8 {
            let first = fetch(&f, &mut c, key).unwrap();
            let second = fetch(&f, &mut c, key).unwrap();
            assert_eq!(first, second);
        }
        assert!(f.snapshot() == image);
    }
}

#[test]
fn a_ring_of_closed_pages_is_reported_as_corrupted() {
    let mut f = flash();
    let mut c: Cache<u8> = Cache::no_cache();
    // Both markers of every page programmed: no page can be the head.
    for page in 0..4u32 {
        norflash_map::flash::NorFlash::write(&mut f, page * 1024, &[0u8; 8]).unwrap();
    }
    assert!(matches!(store(&mut f, &mut c, 1, &[1]), Err(Error::Corrupted)));
    assert_eq!(fetch(&f, &mut c, 1).unwrap(), None);
    assert!(remove(&mut f, &mut c, 1).is_ok());
}

#[test]
fn an_item_that_its_own_code_cannot_write_is_reported() {
    let mut f = flash();
    let mut c: Cache<u8> = Cache::no_cache();
    // Twelve bytes of buffer leave eight for the wire form, which needs nine.
    let mut small = [0u8; 12];
    let r = store_item(&mut f, RANGE, &mut c, &mut small, &item(1, &[1, 2, 3, 4, 5, 6, 7, 8]));
    assert!(matches!(r, Err(Error::Item(()))));
    assert!(f.snapshot().iter().all(|b| *b == 0xFF));
}

#[test]
fn the_first_store_takes_a_blank_region_into_use() {
    let mut f = flash();
    let mut c: Cache<u8> = Cache::no_cache();
    store(&mut f, &mut c, 5, &[1, 2, 3]).unwrap();
    let image = f.snapshot();
    // Page 0 is partially open and holds one frame: length, payload with
    // padding, check word.
    assert_eq!(&image[..8], &[0, 0, 0, 0, 0xFF, 0xFF, 0xFF, 0xFF]);
    assert_eq!(&image[8..12], &[4, 0, 0, 0]);
    assert_eq!(&image[12..16], &[5, 1, 2, 3]);
    let crc = norflash_map::frame::checksum(&image, 8, 16);
    let check = [(crc % 254 + 1) as u8, (crc >> 8) as u8, (crc >> 16) as u8, (crc >> 24) as u8];
    assert_eq!(&image[16..20], &check);
    assert!(image[20..].iter().all(|b| *b == 0xFF));
}

#[test]
fn removing_puts_a_tombstone_on_the_check_word() {
    let mut f = flash();
    let mut c: Cache<u8> = Cache::no_cache();
    store(&mut f, &mut c, 5, &[1, 2, 3]).unwrap();
    store(&mut f, &mut c, 6, &[9]).unwrap();
    remove(&mut f, &mut c, 5).unwrap();
    let image = f.snapshot();
    assert_eq!(&image[8..16], &[4, 0, 0, 0, 5, 1, 2, 3]);
    assert_eq!(&image[16..20], &[0, 0, 0, 0]);
    assert_eq!(&image[20..28], &[2, 0, 0, 0, 6, 9, 0xFF, 0xFF]);
    assert_ne!(&image[28..32], &[0, 0, 0, 0]);
}

#[test]
fn a_buffer_shorter_than_a_stored_frame_is_reported_and_a_page_always_suffices() {
    let mut f = flash();
    let mut c: Cache<u8> = Cache::no_cache();
    let mut page = [0u8; 1024];
    let long = item(1, &[7u8; 300]);
    store_item(&mut f, RANGE, &mut c, &mut page, &long).unwrap();
    store_item(&mut f, RANGE, &mut c, &mut page, &item(2, &[1])).unwrap();
    let mut short = [0u8; 260];
    assert!(matches!(
        fetch_item::<TestItem, _>(&f, RANGE, &mut c, &mut short, 2),
        Err(Error::BufferTooSmall)
    ));
    assert!(matches!(
        remove_item::<TestItem, _>(&mut f, RANGE, &mut c, &mut short, 2),
        Err(Error::BufferTooSmall)
    ));
    assert_eq!(fetch_item::<TestItem, _>(&f, RANGE, &mut c, &mut page, 1).unwrap(), Some(long));
    assert_eq!(
        fetch_item::<TestItem, _>(&f, RANGE, &mut c, &mut page, 2).unwrap(),
        Some(item(2, &[1]))
    );
}

#[test]
fn values_up_to_a_page_go_round_the_ring() {
    let mut f = flash();
    let mut c: Cache<u8> = Cache::key_pointer(4, 8);
    let mut page = [0u8; 1024];
    for round in 0..12u8 {
        for key in 0..3u8 {
            let value = vec![round ^ key; 200 + 40 * key as usize];
            store_item(&mut f, RANGE, &mut c, &mut page, &item(key, &value)).unwrap();
        }
        for key in 0..3u8 {
            let got = fetch_item::<TestItem, _>(&f, RANGE, &mut c, &mut page, key).unwrap();
            assert_eq!(got, Some(item(key, &vec![round ^ key; 200 + 40 * key as usize])));
        }
    }
    // The largest payload that fits a page: 1024 bytes less two marker
    // words, a length word and a check word.
    let largest = item(9, &[5u8; 1007]);
    let mut wide = [0u8; 2048];
    let r = store_item(&mut f, RANGE, &mut c, &mut wide, &largest);
    assert!(matches!(r, Ok(()) | Err(Error::FullStorage)));
    let too_large = item(9, &[5u8; 1008]);
    assert!(matches!(
        store_item(&mut f, RANGE, &mut c, &mut wide, &too_large),
        Err(Error::FullStorage)
    ));
}

#[test]
fn removing_a_key_without_a_present_item_writes_nothing_and_succeeds() {
    for mut c in caches() {
        let mut f = flash();
        for key in 0..10u8 {
            store(&mut f, &mut c, key, &[key; 3]).unwrap();
        }
        remove(&mut f, &mut c, 4).unwrap();
        let image = f.snapshot();
        // No word is programmed, so not even a device without power refuses.
        f.set_fuel(Some(0));
        remove(&mut f, &mut c, 4).unwrap();
        remove(&mut f, &mut c, 77).unwrap();
        assert!(f.snapshot() == image);
        // A present item needs its tombstone.
        assert!(matches!(
            remove(&mut f, &mut c, 5),
            Err(Error::Storage(FlashError::EarlyShutoff(_)))
        ));
    }
}

#[test]
fn an_item_error_comes_exactly_when_the_item_does_not_fit_the_buffer() {
    let mut f = flash();
    let mut c: Cache<u8> = Cache::no_cache();
    // With words of four bytes, the wire form is written behind the first
    // four bytes of the buffer.
    let mut thirteen = [0u8; 13];
    let r = store_item(&mut f, RANGE, &mut c, &mut thirteen, &item(1, &[1, 2, 3, 4, 5, 6, 7, 8]));
    assert!(!matches!(r, Err(Error::Item(()))));
    let mut twelve = [0u8; 12];
    let r = store_item(&mut f, RANGE, &mut c, &mut twelve, &item(1, &[1, 2, 3, 4, 5, 6, 7, 8]));
    assert!(matches!(r, Err(Error::Item(()))));
}

#[test]
fn power_loss_in_a_ring_of_two_pages_leaves_the_old_or_the_new_value() {
    // Pages of 16 words hold three frames of five payload bytes. Every third
    // store moves on to the other page, so the sweep cuts erasures, closings,
    // copies and openings at every word.
    for rounds in 1..8u8 {
        for fuel in 0..60u32 {
            let mut f = MockFlash::new(2, 4, 16, WriteCountCheck::Twice, None);
            let mut c: Cache<u8> = Cache::page_pointer(2);
            let mut buf = [0u8; 64];
            for round in 0..rounds {
                let it = item(round % 2, &[round; 4]);
                store_item(&mut f, 0..128, &mut c, &mut buf, &it).unwrap();
            }
            let old: Vec<Option<TestItem>> = (0..3u8)
                .map(|k| fetch_item::<TestItem, _>(&f, 0..128, &mut c, &mut buf, k).unwrap())
                .collect();
            f.set_fuel(Some(fuel));
            let new = item(rounds % 2, &[0xC3; 4]);
            let r = store_item(&mut f, 0..128, &mut c, &mut buf, &new);
            f.set_fuel(None);
            let mut rescan: Cache<u8> = Cache::no_cache();
            for k in 0..3u8 {
                let got = fetch_item::<TestItem, _>(&f, 0..128, &mut rescan, &mut buf, k).unwrap();
                let kept = fetch_item::<TestItem, _>(&f, 0..128, &mut c, &mut buf, k).unwrap();
                assert_eq!(got, kept);
                if k != new.key {
                    assert_eq!(got, old[k as usize]);
                } else {
                    match r {
                        Ok(()) => assert_eq!(got, Some(new.clone())),
                        Err(Error::Storage(FlashError::EarlyShutoff(_))) => {
                            assert!(got == old[k as usize] || got == Some(new.clone()))
                        }
                        Err(e) => panic!("fuel {}: {:?}", fuel, e),
                    }
                }
            }
            store_item(&mut f, 0..128, &mut c, &mut buf, &item(2, &[7; 4])).unwrap();
            assert_eq!(
                fetch_item::<TestItem, _>(&f, 0..128, &mut c, &mut buf, 2).unwrap(),
                Some(item(2, &[7; 4]))
            );
        }
    }
}

#[test]
fn two_pages_that_both_look_like_heads_are_reported_by_a_store() {
    let mut f = MockFlash::new(2, 4, 16, WriteCountCheck::Twice, None);
    f.write(0, &[0; 4]).unwrap();
    f.write(64, &[0; 4]).unwrap();
    let image = f.snapshot();
    let mut c: Cache<u8> = Cache::no_cache();
    let mut buf = [0u8; 64];
    let r = store_item(&mut f, 0..128, &mut c, &mut buf, &item(1, &[1]));
    assert!(matches!(r, Err(Error::Corrupted)));
    assert!(f.snapshot() == image);
}

#[test]
fn stores_and_removals_end_alike_under_every_cache() {
    // The same operations on the same device, with the same power loss, end
    // with the same results and the same flash, whatever the cache.
    for fuel in [None, Some(3u32), Some(17), Some(40), Some(90), Some(200)] {
        let mut ends: Vec<(Vec<bool>, Vec<u8>)> = Vec::new();
        for mut c in caches() {
            let mut f = MockFlash::new(4, 4, 16, WriteCountCheck::Twice, fuel);
            let mut buf = [0u8; 64];
            let mut results: Vec<bool> = Vec::new();
            for step in 0..60u8 {
                let key = step % 5;
                if step % 7 == 3 {
                    let r = remove_item::<TestItem, _>(&mut f, 0..256, &mut c, &mut buf, key);
                    results.push(r.is_ok());
                } else {
                    let it = item(key, &vec![step; (step % 6) as usize]);
                    results.push(store_item(&mut f, 0..256, &mut c, &mut buf, &it).is_ok());
                }
            }
            ends.push((results, f.snapshot()));
        }
        for end in &ends[1..] {
            assert!(end.0 == ends[0].0);
            assert!(end.1 == ends[0].1);
        }
    }
}

#[test]
fn a_store_that_needs_no_new_page_succeeds_unless_the_power_fails() {
    for fuel in 0..12u32 {
        let mut f = MockFlash::new(4, 4, 16, WriteCountCheck::OnceOnly, Some(fuel));
        let mut c: Cache<u8> = Cache::no_cache();
        let mut buf = [0u8; 64];
        let first = store_item(&mut f, 0..256, &mut c, &mut buf, &item(1, &[1, 2, 3]));
        // One word for the marker, three for the frame.
        if fuel >= 4 {
            assert!(first.is_ok());
        } else {
            assert!(matches!(first, Err(Error::Storage(FlashError::EarlyShutoff(_)))));
        }
        f.set_fuel(None);
        let second = store_item(&mut f, 0..256, &mut c, &mut buf, &item(2, &[4]));
        assert!(second.is_ok());
        assert_eq!(fetch_item::<TestItem, _>(&f, 0..256, &mut c, &mut buf, 2).unwrap(), Some(item(2, &[4])));
    }
}

#[test]
fn a_store_full_of_old_values_takes_new_ones_after_reclaiming() {
    // One key, stored over and over: the region fills with values that are
    // no longer live, and every store still finds room by reclaiming.
    for mut c in caches() {
        let mut f = MockFlash::new(4, 4, 16, WriteCountCheck::OnceOnly, None);
        let mut buf = [0u8; 64];
        for round in 0..200u8 {
            let it = item(round % 2, &[round; 7]);
            assert!(store_item(&mut f, 0..0x100, &mut c, &mut buf, &it).is_ok());
        }
        assert_eq!(
            fetch_item::<TestItem, _>(&f, 0..0x100, &mut c, &mut buf, 1).unwrap(),
            Some(item(1, &[199; 7]))
        );
        assert_eq!(
            fetch_item::<TestItem, _>(&f, 0..0x100, &mut c, &mut buf, 0).unwrap(),
            Some(item(0, &[198; 7]))
        );
    }
}

#[test]
fn a_full_store_holds_live_items_in_every_page_of_its_log() {
    let mut f = MockFlash::new(4, 4, 16, WriteCountCheck::Twice, None);
    let mut c: Cache<u8> = Cache::no_cache();
    let mut buf = [0u8; 64];
    let mut live: Vec<u8> = Vec::new();
    for key in 0..40u8 {
        match store_item(&mut f, 0..0x100, &mut c, &mut buf, &item(key, &[key; 7])) {
            Ok(()) => live.push(key),
            Err(Error::FullStorage) => break,
            Err(e) => panic!("{:?}", e),
        }
    }
    // Three pages of the four are in use, none with room for a frame of 16
    // bytes, and every frame in them is the live item of a key.
    let image = f.snapshot();
    let mut frames = 0;
    let mut used = 0;
    for page in 0..4usize {
        let pg = &image[page * 64..(page + 1) * 64];
        if pg[..4] == [0u8; 4] {
            used += 1;
            for slot in 0..3usize {
                let at = 8 + slot * 16;
                if pg[at..at + 4] != [0xFFu8; 4] {
                    frames += 1;
                    assert!(live.contains(&pg[at + 4]));
                }
            }
        }
    }
    assert_eq!(used, 3);
    assert_eq!(frames, live.len());
    assert_eq!(frames, 9);
    // Removing a key makes room again.
    remove_item::<TestItem, _>(&mut f, 0..0x100, &mut c, &mut buf, live[0]).unwrap();
    assert!(store_item(&mut f, 0..0x100, &mut c, &mut buf, &item(99, &[1; 7])).is_ok());
}

#[test]
fn no_operation_is_cut_short_within_its_reserve() {
    // Four pages of 64 bytes. A store takes at most (2 * 4 + 2) * (256 + 5 * 64)
    // = 5760 bytes, which are 1440 words; a removal at most 256 bytes, which
    // are 64 words.
    for mut c in caches() {
        let mut f = MockFlash::new(4, 4, 16, WriteCountCheck::Twice, None);
        let mut buf = [0u8; 64];
        for step in 0..300u32 {
            let key = (step % 11) as u8;
            if step % 5 == 4 {
                f.set_fuel(Some(64));
                let r = remove_item::<TestItem, _>(&mut f, 0..0x100, &mut c, &mut buf, key);
                assert!(r.is_ok());
            } else {
                f.set_fuel(Some(1440));
                let it = item(key, &vec![step as u8; (step % 8) as usize]);
                let r = store_item(&mut f, 0..0x100, &mut c, &mut buf, &it);
                assert!(!matches!(r, Err(Error::Storage(FlashError::EarlyShutoff(_)))));
                assert!(matches!(r, Ok(()) | Err(Error::FullStorage)));
            }
        }
    }
}

#[test]
fn a_store_that_finds_room_at_the_head_changes_the_bytes_of_its_frame_only() {
    for mut c in caches() {
        let mut f = MockFlash::new(4, 4, 16, WriteCountCheck::OnceOnly, None);
        let mut buf = [0u8; 64];
        store_item(&mut f, 0..0x100, &mut c, &mut buf, &item(1, &[0x11, 0x22])).unwrap();
        let before = f.snapshot();
        store_item(&mut f, 0..0x100, &mut c, &mut buf, &item(2, &[0x33; 5])).unwrap();
        let after = f.snapshot();
        // The first frame takes the 12 bytes behind the header; the second
        // takes 16: a length word, six payload bytes padded to eight, and a
        // check word.
        assert_eq!(&after[..20], &before[..20]);
        assert_eq!(&after[20..24], &[6, 0, 0, 0]);
        assert_eq!(&after[24..32], &[2, 0x33, 0x33, 0x33, 0x33, 0x33, 0xFF, 0xFF]);
        assert!(after[32..36] != [0xFF; 4] && after[32..36] != [0; 4]);
        assert_eq!(&after[36..], &before[36..]);
    }
}

#[test]
fn a_full_store_refuses_the_smallest_item_and_keeps_every_item() {
    // Nine items of 16 bytes fill three pages, each with 56 bytes for items.
    // Eight bytes are left in each page, too few for the smallest frame, which
    // takes twelve. All nine items are live, so reclaiming frees nothing.
    let mut f = MockFlash::new(4, 4, 16, WriteCountCheck::OnceOnly, None);
    let mut c: Cache<u8> = Cache::page_pointer(4);
    let mut buf = [0u8; 64];
    for key in 0..9u8 {
        store_item(&mut f, 0..0x100, &mut c, &mut buf, &item(key, &[key; 7])).unwrap();
    }
    let r = store_item(&mut f, 0..0x100, &mut c, &mut buf, &item(50, &[5; 7]));
    assert!(matches!(r, Err(Error::FullStorage)));
    let r = store_item(&mut f, 0..0x100, &mut c, &mut buf, &item(50, &[]));
    assert!(matches!(r, Err(Error::FullStorage)));
    for key in 0..9u8 {
        let got = fetch_item::<TestItem, _>(&f, 0..0x100, &mut c, &mut buf, key).unwrap();
        assert_eq!(got, Some(item(key, &[key; 7])));
    }
}
