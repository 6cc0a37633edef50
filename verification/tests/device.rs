use norflash_map::flash::{FlashError, NorFlash};
use norflash_map::header::{mark_closed, mark_open, read_state, PageState};
use norflash_map::layout::{erase_page, read_at, region, write_at, Layout};
use norflash_map::mock::{MockFlash, WriteCountCheck};

fn flash() -> MockFlash {
    MockFlash::new(4, 4, 16, WriteCountCheck::Twice, None)
}

#[test]
fn a_new_device_is_blank() {
    let f = flash();
    assert_eq!(f.word_size(), 4);
    assert_eq!(f.page_size(), 64);
    assert_eq!(f.capacity(), 256);
    assert!(f.snapshot().iter().all(|b| *b == 0xFF));
}

#[test]
fn written_bytes_read_back() {
    let mut f = flash();
    f.write(8, &[1, 2, 3, 4, 5, 6, 7, 8]).unwrap();
    let mut buf = [0u8; 12];
    f.read(4, &mut buf).unwrap();
    assert_eq!(buf, [0xFF, 0xFF, 0xFF, 0xFF, 1, 2, 3, 4, 5, 6, 7, 8]);
}

#[test]
fn reads_and_writes_outside_the_device_fail() {
    let mut f = flash();
    let mut buf = [0u8; 8];
    assert_eq!(f.read(252, &mut buf), Err(FlashError::OutOfBounds));
    assert_eq!(buf, [0u8; 8]);
    assert_eq!(f.write(252, &[0u8; 8]), Err(FlashError::OutOfBounds));
    assert_eq!(f.erase(256), Err(FlashError::OutOfBounds));
    assert!(f.read(248, &mut buf).is_ok());
}

#[test]
fn misaligned_writes_and_erasures_fail() {
    let mut f = flash();
    assert_eq!(f.write(2, &[0u8; 4]), Err(FlashError::NotAligned));
    assert_eq!(f.write(4, &[0u8; 3]), Err(FlashError::NotAligned));
    assert_eq!(f.erase(32), Err(FlashError::NotAligned));
    assert!(f.snapshot().iter().all(|b| *b == 0xFF));
}

#[test]
fn a_write_cannot_set_bits() {
    let mut f = flash();
    f.write(0, &[0xF0, 0xFF, 0xFF, 0xFF]).unwrap();
    assert_eq!(f.write(0, &[0x0F, 0xFF, 0xFF, 0xFF]), Err(FlashError::WriteError));
    assert_eq!(f.write(0, &[0x00, 0xFF, 0xFF, 0xFF]), Ok(()));
    assert_eq!(f.snapshot()[0], 0x00);
}

#[test]
fn write_counts_are_enforced() {
    let mut once = MockFlash::new(4, 4, 16, WriteCountCheck::OnceOnly, None);
    once.write(0, &[0xF0; 4]).unwrap();
    assert_eq!(once.write(0, &[0x00; 4]), Err(FlashError::WriteError));
    once.erase(0).unwrap();
    assert_eq!(once.write(0, &[0x00; 4]), Ok(()));

    let mut twice = flash();
    twice.write(0, &[0xF0; 4]).unwrap();
    twice.write(0, &[0x30; 4]).unwrap();
    assert_eq!(twice.write(0, &[0x00; 4]), Err(FlashError::WriteError));

    let mut free = MockFlash::new(4, 4, 16, WriteCountCheck::Disabled, None);
    free.write(0, &[0xF0; 4]).unwrap();
    free.write(0, &[0x30; 4]).unwrap();
    assert_eq!(free.write(0, &[0x00; 4]), Ok(()));
}

#[test]
fn power_loss_stops_a_write_between_words() {
    let mut f = MockFlash::new(4, 4, 16, WriteCountCheck::Twice, Some(2));
    let data = [1u8, 2, 3, 4, 5, 6, 7, 8, 9, 10, 11, 12];
    assert_eq!(f.write(16, &data), Err(FlashError::EarlyShutoff(24)));
    let image = f.snapshot();
    assert_eq!(&image[16..24], &data[..8]);
    assert!(image[24..].iter().all(|b| *b == 0xFF));
    // The power fails once.
    assert_eq!(f.write(24, &data[8..]), Ok(()));
    assert_eq!(&f.snapshot()[16..28], &data[..]);
}

#[test]
fn power_loss_stops_an_erasure_between_words() {
    let mut f = flash();
    f.write(64, &[0u8; 64]).unwrap();
    f.set_fuel(Some(3));
    assert_eq!(f.erase(64), Err(FlashError::EarlyShutoff(76)));
    let image = f.snapshot();
    assert!(image[64..76].iter().all(|b| *b == 0xFF));
    assert!(image[76..128].iter().all(|b| *b == 0x00));
    assert_eq!(f.erase(64), Ok(()));
    assert!(f.snapshot().iter().all(|b| *b == 0xFF));
}

#[test]
fn erasing_touches_one_page() {
    let mut f = flash();
    f.write(0, &[0u8; 64]).unwrap();
    f.write(64, &[0u8; 64]).unwrap();
    f.write(128, &[0u8; 64]).unwrap();
    f.erase(64).unwrap();
    let image = f.snapshot();
    assert!(image[..64].iter().all(|b| *b == 0));
    assert!(image[64..128].iter().all(|b| *b == 0xFF));
    assert!(image[128..192].iter().all(|b| *b == 0));
}

#[test]
fn a_region_is_checked() {
    let f = flash();
    assert_eq!(region(&f, 0..256), Ok(Layout { base: 0, word: 4, page: 64, pages: 4 }));
    assert_eq!(region(&f, 64..192), Ok(Layout { base: 64, word: 4, page: 64, pages: 2 }));
    assert_eq!(region(&f, 64..128), Err(FlashError::OutOfBounds));
    assert_eq!(region(&f, 0..0), Err(FlashError::OutOfBounds));
    assert_eq!(region(&f, 128..64), Err(FlashError::OutOfBounds));
    assert_eq!(region(&f, 0..320), Err(FlashError::OutOfBounds));
    assert_eq!(region(&f, 4..256), Err(FlashError::NotAligned));
    assert_eq!(region(&f, 0..252), Err(FlashError::NotAligned));
    let narrow = MockFlash::new(4, 4, 1, WriteCountCheck::Twice, None);
    assert_eq!(region(&narrow, 0..16), Err(FlashError::NotAligned));
}

#[test]
fn pages_follow_each_other_in_a_ring() {
    let l = Layout { base: 64, word: 4, page: 64, pages: 3 };
    assert_eq!(l.next_page(0), 1);
    assert_eq!(l.next_page(1), 2);
    assert_eq!(l.next_page(2), 0);
    assert_eq!(l.prev_page(0), 2);
    assert_eq!(l.prev_page(2), 1);
    assert_eq!(l.page_start(0), 64);
    assert_eq!(l.page_start(2), 192);
    assert_eq!(l.body_range(1), (136, 192));
    assert_eq!(l.page_of(63), None);
    assert_eq!(l.page_of(64), Some(0));
    assert_eq!(l.page_of(127), Some(0));
    assert_eq!(l.page_of(128), Some(1));
    assert_eq!(l.page_of(255), Some(2));
    assert_eq!(l.page_of(256), None);
}

#[test]
fn page_access_is_relative_to_the_page() {
    let mut f = flash();
    let l = region(&f, 64..256).unwrap();
    write_at(&mut f, &l, 1, 8, &[9, 8, 7, 6]).unwrap();
    assert_eq!(&f.snapshot()[136..140], &[9, 8, 7, 6]);
    let mut buf = [0u8; 6];
    read_at(&f, &l, 1, 8, &mut buf, 4);
    assert_eq!(buf, [9, 8, 7, 6, 0, 0]);
    erase_page(&mut f, &l, 1).unwrap();
    assert!(f.snapshot().iter().all(|b| *b == 0xFF));
}

#[test]
fn markers_move_a_page_through_its_states() {
    let mut f = flash();
    let l = region(&f, 0..256).unwrap();
    let mut buf = [0u8; 8];
    assert_eq!(read_state(&f, &l, 2, &mut buf), PageState::Erased);
    mark_open(&mut f, &l, 2, &mut buf).unwrap();
    assert_eq!(read_state(&f, &l, 2, &mut buf), PageState::PartialOpen);
    assert_eq!(&f.snapshot()[128..136], &[0, 0, 0, 0, 0xFF, 0xFF, 0xFF, 0xFF]);
    mark_closed(&mut f, &l, 2, &mut buf).unwrap();
    assert_eq!(read_state(&f, &l, 2, &mut buf), PageState::Closed);
    assert_eq!(read_state(&f, &l, 1, &mut buf), PageState::Erased);
    erase_page(&mut f, &l, 2).unwrap();
    assert_eq!(read_state(&f, &l, 2, &mut buf), PageState::Erased);
}

#[test]
fn odd_markers_are_told_apart() {
    let mut f = flash();
    let l = region(&f, 0..256).unwrap();
    let mut buf = [0u8; 8];
    mark_closed(&mut f, &l, 0, &mut buf).unwrap();
    assert_eq!(read_state(&f, &l, 0, &mut buf), PageState::Open);
    f.write(64, &[0x0F, 0xFF, 0xFF, 0xFF]).unwrap();
    assert_eq!(read_state(&f, &l, 1, &mut buf), PageState::Corrupt);
    f.write(132, &[0xFF, 0xFF, 0xFF, 0x7F]).unwrap();
    assert_eq!(read_state(&f, &l, 2, &mut buf), PageState::Corrupt);
}

#[test]
fn power_loss_leaves_a_marker_whole() {
    let mut f = flash();
    let l = region(&f, 0..256).unwrap();
    let mut buf = [0u8; 8];
    f.set_fuel(Some(0));
    assert!(mark_open(&mut f, &l, 0, &mut buf).is_err());
    assert_eq!(read_state(&f, &l, 0, &mut buf), PageState::Erased);
    assert!(mark_open(&mut f, &l, 0, &mut buf).is_ok());
    assert_eq!(read_state(&f, &l, 0, &mut buf), PageState::PartialOpen);
}
