use norflash_map::cache::Cache;
use norflash_map::header::PageState;

#[test]
fn a_cache_without_shape_forgets_everything() {
    let mut c: Cache<u8> = Cache::no_cache();
    c.notify_page_state(0, PageState::Closed);
    c.notify_page_free(0, 16);
    c.notify_write(1, 0, 8);
    assert_eq!(c.query_page_state(0), None);
    assert_eq!(c.query_page_free(0), None);
    assert_eq!(c.query_key(1), None);
}

#[test]
fn a_page_state_cache_remembers_states_only() {
    let mut c: Cache<u8> = Cache::page_state(3);
    c.notify_page_state(1, PageState::Closed);
    c.notify_page_state(3, PageState::Closed);
    c.notify_page_free(1, 16);
    c.notify_write(1, 1, 8);
    assert_eq!(c.query_page_state(0), None);
    assert_eq!(c.query_page_state(1), Some(PageState::Closed));
    assert_eq!(c.query_page_state(3), None);
    assert_eq!(c.query_page_free(1), None);
    assert_eq!(c.query_key(1), None);
}

#[test]
fn a_page_pointer_cache_remembers_offsets_too() {
    let mut c: Cache<u8> = Cache::page_pointer(3);
    c.notify_page_state(2, PageState::PartialOpen);
    c.notify_page_free(2, 24);
    c.notify_write(1, 2, 8);
    assert_eq!(c.query_page_state(2), Some(PageState::PartialOpen));
    assert_eq!(c.query_page_free(2), Some(24));
    assert_eq!(c.query_page_free(1), None);
    assert_eq!(c.query_key(1), None);
    c.forget_free(2);
    assert_eq!(c.query_page_free(2), None);
    assert_eq!(c.query_page_state(2), Some(PageState::PartialOpen));
}

#[test]
fn a_key_pointer_cache_remembers_the_latest_place_of_a_key() {
    let mut c: Cache<u8> = Cache::key_pointer(3, 4);
    c.notify_write(1, 0, 8);
    c.notify_write(2, 0, 24);
    c.notify_write(1, 1, 40);
    assert_eq!(c.query_key(1), Some((1, 40)));
    assert_eq!(c.query_key(2), Some((0, 24)));
    assert_eq!(c.query_key(3), None);
    c.notify_erase(1);
    assert_eq!(c.query_key(1), None);
    assert_eq!(c.query_key(2), Some((0, 24)));
}

#[test]
fn a_full_key_pointer_cache_drops_the_oldest_claim() {
    let mut c: Cache<u8> = Cache::key_pointer(3, 2);
    c.notify_write(1, 0, 8);
    c.notify_write(2, 0, 24);
    c.notify_write(3, 0, 40);
    assert_eq!(c.query_key(1), None);
    assert_eq!(c.query_key(2), Some((0, 24)));
    assert_eq!(c.query_key(3), Some((0, 40)));
    c.notify_write(2, 1, 8);
    c.notify_write(4, 1, 24);
    assert_eq!(c.query_key(3), None);
    assert_eq!(c.query_key(2), Some((1, 8)));
    assert_eq!(c.query_key(4), Some((1, 24)));
}

#[test]
fn erasing_a_page_takes_back_what_was_claimed_of_it() {
    let mut c: Cache<u8> = Cache::key_pointer(3, 4);
    c.notify_page_state(1, PageState::Closed);
    c.notify_page_free(1, 56);
    c.notify_write(1, 1, 8);
    c.notify_write(2, 2, 8);
    c.notify_page_erased(1);
    assert_eq!(c.query_page_state(1), Some(PageState::Erased));
    assert_eq!(c.query_page_free(1), None);
    assert_eq!(c.query_key(1), None);
    assert_eq!(c.query_key(2), Some((2, 8)));
}

#[test]
fn invalidating_takes_back_everything() {
    let mut c: Cache<u8> = Cache::key_pointer(3, 4);
    c.notify_page_state(1, PageState::Closed);
    c.notify_page_free(1, 56);
    c.notify_write(1, 1, 8);
    c.invalidate();
    assert_eq!(c.query_page_state(1), None);
    assert_eq!(c.query_page_free(1), None);
    assert_eq!(c.query_key(1), None);
    c.notify_write(1, 1, 8);
    assert_eq!(c.query_key(1), Some((1, 8)));
}
