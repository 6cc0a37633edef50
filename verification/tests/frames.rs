use norflash_map::cache::Cache;
use norflash_map::frame::{get_len, put_check, put_len, read_frame, seal, Frame};
use norflash_map::harness::TestItem;
use norflash_map::header::program_word;
use norflash_map::item::Error;
use norflash_map::layout::{region, write_at};
use norflash_map::map::{fetch_item, recover, remove_item, store_item};
use norflash_map::mock::{MockFlash, WriteCountCheck};
use norflash_map::scan::{PageScanner, ScanEnd, TooSmall};

#[test]
fn a_length_word_spells_the_length() {
    let mut buf = [0xEEu8; 8];
    put_len(&mut buf, 2, 0x0403_0201, 4);
    assert_eq!(buf, [0xEE, 0xEE, 1, 2, 3, 4, 0xEE, 0xEE]);
    assert_eq!(get_len(&buf, 2, 4), Some(0x0403_0201));

    let mut wide = [0xEEu8; 8];
    put_len(&mut wide, 0, 300, 8);
    assert_eq!(wide, [44, 1, 0, 0, 0, 0, 0, 0]);
    assert_eq!(get_len(&wide, 0, 8), Some(300));
    wide[6] = 1;
    assert_eq!(get_len(&wide, 0, 8), None);

    let mut narrow = [0xEEu8; 2];
    put_len(&mut narrow, 0, 0x1234, 2);
    assert_eq!(narrow, [0x34, 0x12]);
    assert_eq!(get_len(&narrow, 0, 2), Some(0x1234));
    assert_eq!(get_len(&[7], 0, 1), Some(7));
}

#[test]
fn a_check_word_is_neither_blank_nor_a_tombstone() {
    for c in [0u32, 253, 254, 255, 0xFFFF_FFFF, 0x0000_FF00, 0xCBF4_3926] {
        for w in [1usize, 2, 4, 8] {
            let mut buf = [0xEEu8; 8];
            put_check(&mut buf, 0, c, w);
            assert!(buf[0] >= 1 && buf[0] <= 254);
            assert_eq!(buf[0] as u32, c % 254 + 1);
            assert!(buf[w..].iter().all(|b| *b == 0xEE));
        }
    }
    let mut buf = [0xEEu8; 8];
    put_check(&mut buf, 0, 0x0403_0201, 8);
    assert_eq!(buf, [(0x0403_0201u32 % 254 + 1) as u8, 2, 3, 4, 0, 0, 0, 0]);
}

#[test]
fn a_sealed_frame_has_length_payload_padding_and_check() {
    let mut buf = [0u8; 24];
    buf[4..9].copy_from_slice(&[10, 20, 30, 40, 50]);
    let size = seal(&mut buf, 5, 4);
    assert_eq!(size, 16);
    assert_eq!(&buf[..4], &[5, 0, 0, 0]);
    assert_eq!(&buf[4..9], &[10, 20, 30, 40, 50]);
    assert_eq!(&buf[9..12], &[0xFF, 0xFF, 0xFF]);
    let c = norflash_map::frame::checksum(&buf, 0, 9);
    assert_eq!(&buf[12..16], &[(c % 254 + 1) as u8, (c >> 8) as u8, (c >> 16) as u8, (c >> 24) as u8]);
    assert!(buf[16..].iter().all(|b| *b == 0));
}

#[test]
fn frames_are_read_back_and_told_apart() {
    let mut f = MockFlash::new(2, 4, 16, WriteCountCheck::Twice, None);
    let l = region(&f, 0..128).unwrap();
    let mut buf = [0u8; 64];
    assert_eq!(read_frame(&f, &l, 0, 8, &mut buf), Some(Frame::Erased));

    buf[4..7].copy_from_slice(&[7, 8, 9]);
    let size = seal(&mut buf, 3, 4);
    assert_eq!(size, 12);
    write_at(&mut f, &l, 0, 8, &buf[..12]).unwrap();
    let mut back = [0u8; 64];
    assert_eq!(read_frame(&f, &l, 0, 8, &mut back), Some(Frame::Present { len: 3 }));
    assert_eq!(&back[4..7], &[7, 8, 9]);
    assert_eq!(read_frame(&f, &l, 0, 20, &mut back), Some(Frame::Erased));

    // A buffer that cannot hold the frame.
    let mut short = [0u8; 8];
    assert_eq!(read_frame(&f, &l, 0, 8, &mut short), None);

    // A tombstone over the check word.
    program_word(&mut f, &l, 0, 16, &mut back).unwrap();
    assert_eq!(read_frame(&f, &l, 0, 8, &mut back), Some(Frame::Tombstone { len: 3 }));
    assert_eq!(&back[4..7], &[7, 8, 9]);

    // A frame whose check word never arrived.
    write_at(&mut f, &l, 0, 20, &buf[..8]).unwrap();
    assert_eq!(read_frame(&f, &l, 0, 20, &mut back), Some(Frame::Corrupt));

    // A length that runs past the page.
    write_at(&mut f, &l, 1, 8, &[200, 0, 0, 0]).unwrap();
    assert_eq!(read_frame(&f, &l, 1, 8, &mut back), Some(Frame::Corrupt));
}

#[test]
fn a_walk_yields_items_and_stops_at_free_space() {
    let mut f = MockFlash::new(2, 4, 16, WriteCountCheck::Twice, None);
    let l = region(&f, 0..128).unwrap();
    let mut buf = [0u8; 64];
    let mut at = 8;
    for n in [0u32, 5, 1] {
        for b in buf.iter_mut() {
            *b = 0xAB;
        }
        let size = seal(&mut buf, n, 4);
        write_at(&mut f, &l, 0, at, &buf[..size as usize]).unwrap();
        at += size;
    }
    let mut walk = PageScanner::new(&l, 0);
    assert_eq!(walk.next(&f, &l, &mut buf), Ok(Some((8, Frame::Present { len: 0 }))));
    assert_eq!(walk.next(&f, &l, &mut buf), Ok(Some((16, Frame::Present { len: 5 }))));
    assert_eq!(&buf[4..9], &[0xAB; 5]);
    assert_eq!(walk.next(&f, &l, &mut buf), Ok(Some((32, Frame::Present { len: 1 }))));
    assert_eq!(walk.next(&f, &l, &mut buf), Ok(None));
    assert_eq!(walk.end, Some(ScanEnd::Free));
    assert_eq!(walk.off, 44);
    assert_eq!(walk.next(&f, &l, &mut buf), Ok(None));

    let mut tiny = [0u8; 8];
    let mut again = PageScanner::from_offset(&l, 0, 16);
    assert_eq!(again.next(&f, &l, &mut tiny), Err(TooSmall));
    assert_eq!(again.off, 16);
}

#[test]
fn a_walk_hands_out_a_torn_frame_and_stops() {
    let mut f = MockFlash::new(2, 4, 16, WriteCountCheck::Twice, None);
    let l = region(&f, 0..128).unwrap();
    let mut buf = [0u8; 64];
    write_at(&mut f, &l, 0, 8, &[3, 0, 0, 0, 1, 2, 3, 0xFF]).unwrap();
    let mut walk = PageScanner::new(&l, 0);
    assert_eq!(walk.next(&f, &l, &mut buf), Ok(Some((8, Frame::Corrupt))));
    assert_eq!(walk.end, Some(ScanEnd::Torn));
    assert_eq!(walk.next(&f, &l, &mut buf), Ok(None));
}

#[test]
fn a_walk_ends_with_the_page() {
    let f = MockFlash::new(2, 4, 16, WriteCountCheck::Twice, None);
    let l = region(&f, 0..128).unwrap();
    let mut buf = [0u8; 64];
    let mut walk = PageScanner::from_offset(&l, 1, 60);
    assert_eq!(walk.next(&f, &l, &mut buf), Ok(None));
    assert_eq!(walk.end, Some(ScanEnd::Full));
}

fn exercise(pages: u32, word: u32, words_per_page: u32, keys: u8, rounds: u8) {
    let mut f = MockFlash::new(pages, word, words_per_page, WriteCountCheck::Twice, None);
    let end = pages * word * words_per_page;
    let mut c: Cache<u8> = Cache::key_pointer(pages as usize, 4);
    let mut buf = vec![0u8; (word * words_per_page) as usize];
    for round in 0..rounds {
        for key in 0..keys {
            let item = TestItem { key, value: vec![round, key, 3] };
            store_item(&mut f, 0..end, &mut c, &mut buf, &item).unwrap();
            if key % 2 == 1 {
                remove_item::<TestItem, _>(&mut f, 0..end, &mut c, &mut buf, key).unwrap();
            }
        }
        for key in 0..keys {
            let got = fetch_item::<TestItem, _>(&f, 0..end, &mut c, &mut buf, key).unwrap();
            let want = if key % 2 == 1 { None } else { Some(TestItem { key, value: vec![round, key, 3] }) };
            assert_eq!(got, want);
        }
    }
}

#[test]
fn the_store_works_with_words_of_every_size() {
    exercise(4, 1, 64, 5, 30);
    exercise(4, 2, 32, 5, 30);
    exercise(3, 3, 40, 5, 30);
    exercise(4, 8, 16, 5, 30);
    exercise(4, 16, 16, 5, 30);
}

#[test]
fn the_store_works_with_two_pages() {
    exercise(2, 4, 64, 5, 40);
}

#[test]
fn recovery_takes_a_blank_region_into_use() {
    let mut f = MockFlash::new(4, 4, 16, WriteCountCheck::Twice, None);
    let mut c: Cache<u8> = Cache::page_state(4);
    let mut buf = [0u8; 64];
    recover::<TestItem, _>(&mut f, 0..256, &mut c, &mut buf).unwrap();
    let image = f.snapshot();
    assert_eq!(&image[..8], &[0, 0, 0, 0, 0xFF, 0xFF, 0xFF, 0xFF]);
    assert!(image[8..].iter().all(|b| *b == 0xFF));
    recover::<TestItem, _>(&mut f, 0..256, &mut c, &mut buf).unwrap();
    assert!(f.snapshot() == image);
}

#[test]
fn recovery_completes_an_interrupted_move_to_the_next_page() {
    // Three items fill a page. Find, for every point at which the power can
    // fail during the store that moves on to the next page, that recovery
    // keeps every answer and leaves the ring ready.
    for fuel in 0..80u32 {
        let mut f = MockFlash::new(3, 4, 16, WriteCountCheck::Twice, None);
        let mut c: Cache<u8> = Cache::no_cache();
        let mut buf = [0u8; 64];
        for round in 0..3u8 {
            for key in 0..3u8 {
                let item = TestItem { key, value: vec![round; 5] };
                store_item(&mut f, 0..192, &mut c, &mut buf, &item).unwrap();
            }
        }
        f.set_fuel(Some(fuel));
        let cut = store_item(&mut f, 0..192, &mut c, &mut buf, &TestItem { key: 9, value: vec![9; 5] });
        f.set_fuel(None);
        let before: Vec<Option<TestItem>> = (0..10u8)
            .map(|k| fetch_item::<TestItem, _>(&f, 0..192, &mut c, &mut buf, k).unwrap())
            .collect();
        for key in 0..3u8 {
            assert_eq!(before[key as usize], Some(TestItem { key, value: vec![2; 5] }));
        }
        match cut {
            Ok(()) => assert_eq!(before[9], Some(TestItem { key: 9, value: vec![9; 5] })),
            Err(Error::Storage(_)) => {}
            Err(e) => panic!("{:?}", e),
        }
        recover::<TestItem, _>(&mut f, 0..192, &mut c, &mut buf).unwrap();
        let after: Vec<Option<TestItem>> = (0..10u8)
            .map(|k| fetch_item::<TestItem, _>(&f, 0..192, &mut c, &mut buf, k).unwrap())
            .collect();
        assert_eq!(before, after);
        store_item(&mut f, 0..192, &mut c, &mut buf, &TestItem { key: 9, value: vec![1] }).unwrap();
        let got = fetch_item::<TestItem, _>(&f, 0..192, &mut c, &mut buf, 9).unwrap();
        assert_eq!(got, Some(TestItem { key: 9, value: vec![1] }));
    }
}

#[test]
fn formatting_empties_the_store() {
    let mut f = MockFlash::new(3, 4, 16, WriteCountCheck::Twice, None);
    let mut c: Cache<u8> = Cache::key_pointer(3, 4);
    let mut buf = [0u8; 64];
    for round in 0..4u8 {
        for key in 0..3u8 {
            store_item(&mut f, 0..192, &mut c, &mut buf, &TestItem { key, value: vec![round; 5] }).unwrap();
        }
    }
    norflash_map::map::format::<TestItem, _>(&mut f, 0..192, &mut c, &mut buf).unwrap();
    let image = f.snapshot();
    assert_eq!(&image[..8], &[0, 0, 0, 0, 0xFF, 0xFF, 0xFF, 0xFF]);
    assert!(image[8..].iter().all(|b| *b == 0xFF));
    for key in 0..3u8 {
        assert_eq!(fetch_item::<TestItem, _>(&f, 0..192, &mut c, &mut buf, key).unwrap(), None);
    }
    store_item(&mut f, 0..192, &mut c, &mut buf, &TestItem { key: 1, value: vec![7] }).unwrap();
    let got = fetch_item::<TestItem, _>(&f, 0..192, &mut c, &mut buf, 1).unwrap();
    assert_eq!(got, Some(TestItem { key: 1, value: vec![7] }));
}

#[test]
fn formatting_reports_a_power_loss() {
    let mut f = MockFlash::new(3, 4, 16, WriteCountCheck::Twice, Some(20));
    let mut c: Cache<u8> = Cache::no_cache();
    let mut buf = [0u8; 64];
    let r = norflash_map::map::format::<TestItem, _>(&mut f, 0..192, &mut c, &mut buf);
    assert!(matches!(r, Err(Error::Storage(norflash_map::flash::FlashError::EarlyShutoff(_)))));
    assert!(norflash_map::map::format::<TestItem, _>(&mut f, 0..192, &mut c, &mut buf).is_ok());
    let mut tiny = [0u8; 4];
    assert!(matches!(
        norflash_map::map::format::<TestItem, _>(&mut f, 0..192, &mut c, &mut tiny),
        Err(Error::BufferTooSmall)
    ));
}
