use norflash_map::cache::Cache;
use norflash_map::harness::TestItem;
use norflash_map::map::fetch_item;
use norflash_map::mock::{MockFlash, WriteCountCheck};

#[test]
fn fetch_from_blank_flash_finds_nothing() {
    let flash = MockFlash::new(4, 4, 256, WriteCountCheck::Twice, None);
    let mut cache = Cache::<u8>::no_cache();
    let mut buf = [0u8; 260];
    for key in 0..=255u8 {
        let r = fetch_item::<TestItem, _>(&flash, 0..0x1000, &mut cache, &mut buf, key);
        assert!(matches!(r, Ok(None)));
    }
}
