//! A log-structured key-value store for NOR flash.
//!
//! The store lives in a page-aligned region of a flash device, at least two
//! pages long. Flash is written word by word, a write can only clear bits,
//! and only the erasure of a whole page sets them again. The store is built
//! from steps that fit these limits and that a power loss cannot tear: it
//! changes the state of a page by programming a single word, and it adds an
//! item by a write whose last word makes the item count.
//!
//! # On flash
//!
//! A page starts with two marker words, the open marker and the close
//! marker. A marker is erased (every byte `0xFF`) or programmed (every byte
//! `0x00`). Erased and erased is an erased page; programmed and erased a
//! partially open page, to which items are appended; programmed and
//! programmed a closed page. Anything else is left by an interrupted erasure.
//!
//! The rest of the page holds frames, one behind the other. A frame is a
//! length word, the payload, padding of `0xFF` bytes up to the next word
//! boundary, and a check word. The length word holds the payload length in
//! its first four bytes, least significant first, and `0x00` in the others.
//! The check word is derived from the CRC-32 of the length word and the
//! payload (reflected polynomial `0xEDB88320`, register all ones at the
//! start, inverted at the end): its first byte is the checksum modulo 254,
//! plus one; bytes two to four are the second to fourth byte of the checksum,
//! least significant first; the others are `0x00`. A check word of `0x00`
//! bytes is a tombstone: the item was removed. An erased length word ends the
//! items of a page.
//!
//! # In the library
//!
//! [`flash`] states what the store asks of a device, [`mock`] simulates one.
//! [`layout`] finds the pages, [`header`] reads and writes the markers,
//! [`frame`] the frames, and [`scan`] walks the frames of a page. [`ring`]
//! says which page is the head and what the log of the store is; [`shape`]
//! says which rings the store produces. [`find`], [`append`], [`remove`] and
//! [`rotate`] are the parts of the operations in [`map`], and [`cache`] is
//! their memory between calls. [`laws`] states what the operations add up to.
//! [`harness`] drives the store with random operations.

pub mod append;
pub mod cache;
pub mod find;
pub mod flash;
pub mod frame;
pub mod full;
pub mod harness;
pub mod header;
pub mod item;
pub mod jam;
pub mod laws;
pub mod layout;
pub mod map;
pub mod mock;
pub mod pack;
pub mod remove;
pub mod ring;
pub mod rotate;
pub mod scan;
pub mod shape;
