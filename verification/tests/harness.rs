use norflash_map::harness::{
    any_remove, cache_for, check_fetch, fuzz, item_of, same_bytes, CacheType, Input, Op, Outcome,
    StoreOp, TestItem,
};
use norflash_map::item::StorageItem;
use rand::{Rng, SeedableRng};

#[test]
fn test_item_wire_form_is_key_then_value() {
    let item = TestItem { key: 7, value: vec![1, 2, 3] };
    let mut buf = [0xEEu8; 8];
    assert_eq!(item.serialize_into(&mut buf), Ok(4));
    assert_eq!(buf, [7, 1, 2, 3, 0xEE, 0xEE, 0xEE, 0xEE]);
    assert_eq!(TestItem::deserialize_from(&buf[..4]), Ok(item.clone()));
    assert_eq!(TestItem::deserialize_key_only(&buf[..4]), Ok(7));
    assert_eq!(item.key(), 7);
}

#[test]
fn test_item_with_empty_value_takes_one_byte() {
    let item = TestItem { key: 9, value: vec![] };
    let mut buf = [0u8; 1];
    assert_eq!(item.serialize_into(&mut buf), Ok(1));
    assert_eq!(TestItem::deserialize_from(&buf), Ok(item));
}

#[test]
fn test_item_needs_room_for_key_and_value() {
    let item = TestItem { key: 9, value: vec![1, 2] };
    let mut two = [0u8; 2];
    assert_eq!(item.serialize_into(&mut two), Err(()));
    let mut none: [u8; 0] = [];
    assert_eq!(item.serialize_into(&mut none), Err(()));
    let mut three = [0u8; 3];
    assert_eq!(item.serialize_into(&mut three), Ok(3));
}

#[test]
fn nothing_decodes_from_an_empty_buffer() {
    assert_eq!(TestItem::deserialize_from(&[]), Err(()));
    assert_eq!(TestItem::deserialize_key_only(&[]), Err(()));
}

#[test]
fn store_op_draws_value_len_modulo_eight_bytes() {
    for value_len in 0..=255u8 {
        let mut rng = rand_pcg::Pcg32::seed_from_u64(value_len as u64);
        let item = StoreOp { key: 3, value_len }.into_test_item(&mut rng);
        assert_eq!(item.key, 3);
        assert_eq!(item.value.len(), (value_len % 8) as usize);
    }
}

#[test]
fn store_op_values_follow_the_seed() {
    let mut a = rand_pcg::Pcg32::seed_from_u64(5);
    let mut b = rand_pcg::Pcg32::seed_from_u64(5);
    let mut c = rand_pcg::Pcg32::seed_from_u64(6);
    let op = StoreOp { key: 1, value_len: 7 };
    let x = op.into_test_item(&mut a);
    let y = op.into_test_item(&mut b);
    let z = op.into_test_item(&mut c);
    assert_eq!(x, y);
    assert_ne!(x, z);
    let next = op.into_test_item(&mut a);
    assert_ne!(x, next);
}

#[test]
fn same_bytes_compares_contents() {
    assert!(same_bytes(&vec![], &vec![]));
    assert!(same_bytes(&vec![1, 2], &vec![1, 2]));
    assert!(!same_bytes(&vec![1, 2], &vec![1, 3]));
    assert!(!same_bytes(&vec![1, 2], &vec![1]));
}

#[test]
fn any_remove_finds_a_removal() {
    assert!(!any_remove(&vec![]));
    assert!(!any_remove(&vec![Op::Fetch(1), Op::Store(StoreOp { key: 1, value_len: 2 })]));
    assert!(any_remove(&vec![Op::Fetch(1), Op::Remove(2)]));
}

#[test]
fn check_fetch_compares_with_the_map() {
    let item = TestItem { key: 4, value: vec![8, 9] };
    assert!(check_fetch(&Some(item.clone()), 4, Some(&vec![8, 9])));
    assert!(!check_fetch(&Some(item.clone()), 5, Some(&vec![8, 9])));
    assert!(!check_fetch(&Some(item.clone()), 4, Some(&vec![8])));
    assert!(!check_fetch(&Some(item), 4, None));
    assert!(!check_fetch(&None, 4, Some(&vec![])));
    assert!(check_fetch(&None, 4, None));
}

fn ops(seed: u64, count: usize) -> Vec<Op> {
    let mut state = seed;
    let mut next = move || {
        state = state.wrapping_mul(6364136223846793005).wrapping_add(1442695040888963407);
        (state >> 33) as u32
    };
    (0..count)
        .map(|_| {
            let key = (next() % 40) as u8;
            match next() % 4 {
                0 => Op::Fetch(key),
                1 => Op::Remove(key),
                _ => Op::Store(StoreOp { key, value_len: next() as u8 }),
            }
        })
        .collect()
}

#[test]
fn runs_pass_for_every_cache_and_every_power_loss() {
    let kinds = [
        CacheType::NoCache,
        CacheType::PageStateCache,
        CacheType::PagePointerCache,
        CacheType::KeyPointerCache,
    ];
    for seed in 0..6u64 {
        for kind in kinds {
            for fuel in [0u16, 1, 2, 3, 5, 17, 100, 263, 999, 5000, u16::MAX] {
                let input = Input { seed, fuel, ops: ops(seed * 31 + fuel as u64, 700), cache_type: kind };
                assert_eq!(fuzz(input, cache_for(kind)), Outcome::Passed);
            }
        }
    }
}

#[test]
fn runs_without_removals_pass_on_a_write_once_device() {
    for seed in 0..4u64 {
        let stores: Vec<Op> = ops(seed, 900)
            .into_iter()
            .filter(|op| !matches!(op, Op::Remove(_)))
            .collect();
        let input = Input { seed, fuel: 4000, ops: stores, cache_type: CacheType::KeyPointerCache };
        assert_eq!(fuzz(input, cache_for(CacheType::KeyPointerCache)), Outcome::Passed);
    }
}

#[test]
fn an_empty_run_passes() {
    let input = Input { seed: 0, fuel: 0, ops: vec![], cache_type: CacheType::NoCache };
    assert_eq!(fuzz(input, cache_for(CacheType::NoCache)), Outcome::Passed);
}

#[test]
fn a_run_without_stores_passes_whatever_the_fuel() {
    let quiet: Vec<Op> = ops(7, 400)
        .into_iter()
        .filter(|op| !matches!(op, Op::Store(_)))
        .collect();
    assert!(!quiet.is_empty());
    for fuel in [0u16, 1, 50, u16::MAX] {
        for kind in [CacheType::NoCache, CacheType::KeyPointerCache] {
            let input = Input { seed: 3, fuel, ops: quiet.clone(), cache_type: kind };
            assert_eq!(fuzz(input, cache_for(kind)), Outcome::Passed);
        }
    }
}

#[test]
fn a_store_op_without_value_bytes_draws_nothing() {
    let mut used = rand_pcg::Pcg32::seed_from_u64(11);
    let mut fresh = rand_pcg::Pcg32::seed_from_u64(11);
    for value_len in [0u8, 8, 16, 248] {
        let item = StoreOp { key: 4, value_len }.into_test_item(&mut used);
        assert_eq!(item, TestItem { key: 4, value: vec![] });
    }
    let op = StoreOp { key: 1, value_len: 7 };
    assert_eq!(op.into_test_item(&mut used), op.into_test_item(&mut fresh));
}

#[test]
fn a_test_item_writes_its_own_bytes_and_no_others() {
    let item = TestItem { key: 9, value: vec![1, 2, 3, 4, 5] };
    for room in 0..6usize {
        let mut buf = vec![0xA5u8; room];
        assert_eq!(item.serialize_into(&mut buf), Err(()));
        assert_eq!(buf, vec![0xA5u8; room]);
    }
    for room in 6..12usize {
        let mut buf = vec![0xA5u8; room];
        assert_eq!(item.serialize_into(&mut buf), Ok(6));
        assert_eq!(&buf[..6], &[9, 1, 2, 3, 4, 5]);
        assert!(buf[6..].iter().all(|b| *b == 0xA5));
    }
}

#[test]
fn an_item_is_the_key_with_the_bytes_drawn() {
    let op = StoreOp { key: 3, value_len: 10 };
    assert_eq!(item_of(op, vec![7, 8]), TestItem { key: 3, value: vec![7, 8] });
    assert_eq!(item_of(StoreOp { key: 9, value_len: 0 }, vec![]), TestItem { key: 9, value: vec![] });
}

#[test]
fn a_store_op_holds_the_bytes_of_the_generator_in_order() {
    let mut used = rand_pcg::Pcg32::seed_from_u64(77);
    let mut plain = rand_pcg::Pcg32::seed_from_u64(77);
    for value_len in [7u8, 3, 0, 13, 255] {
        let item = StoreOp { key: 1, value_len }.into_test_item(&mut used);
        let drawn: Vec<u8> = (0..value_len % 8).map(|_| plain.gen::<u8>()).collect();
        assert_eq!(item, TestItem { key: 1, value: drawn });
    }
}
