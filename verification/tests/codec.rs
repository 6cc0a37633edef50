use norflash_map::frame::{checksum, limit_for, pad_to};

#[test]
fn checksum_of_the_standard_check_string() {
    assert_eq!(checksum(b"123456789", 0, 9), 0xCBF4_3926);
}

#[test]
fn checksum_of_nothing_is_zero() {
    assert_eq!(checksum(&[], 0, 0), 0);
}

#[test]
fn checksum_covers_only_the_given_range() {
    let bytes = b"xx123456789yy";
    assert_eq!(checksum(bytes, 2, 11), 0xCBF4_3926);
}

#[test]
fn padding_rounds_up_to_the_word() {
    assert_eq!(pad_to(0, 4), 0);
    assert_eq!(pad_to(1, 4), 4);
    assert_eq!(pad_to(4, 4), 4);
    assert_eq!(pad_to(5, 4), 8);
    assert_eq!(pad_to(7, 1), 7);
    assert_eq!(pad_to(9, 8), 16);
}

#[test]
fn length_limit_depends_on_the_word() {
    assert_eq!(limit_for(1), 0xFF);
    assert_eq!(limit_for(2), 0xFFFF);
    assert_eq!(limit_for(3), 0xFF_FFFF);
    assert_eq!(limit_for(4), 0xFFFF_FFFF);
    assert_eq!(limit_for(8), 0xFFFF_FFFF);
}
