//! The frame that holds one item on flash.
//!
//! A frame is a length word, the payload padded with erased bytes to a whole
//! number of words, and a check word. The length word holds the payload
//! length in its first four bytes, least significant first, and zeros in the
//! rest; an erased length word marks free space. The check word is derived
//! from the CRC-32 (reflected polynomial `0xEDB88320`) of the length word and
//! the payload, and is never all ones nor all zeros; an all-zero check word is
//! a tombstone.

use crate::flash::{
    all_ones, all_zeros, answers, fair, lost, mended, partly_written, refused, spared, splice,
    tolled, FlashError, NorFlash,
};
use crate::header::{program_word, zeros};
use crate::layout::{others_kept, read_at, write_at, Layout};
use vstd::prelude::*;
use vstd::slice::slice_subrange;

verus! {

/// What a slot of a page holds.
#[derive(Clone, Copy, Debug, PartialEq, Eq, Structural)]
pub enum Frame {
    /// A committed item whose payload has `len` bytes.
    Present { len: u32 },
    /// An item that was removed; its payload had `len` bytes.
    Tombstone { len: u32 },
    /// Nothing was written here.
    Erased,
    /// The bytes here are not a frame: a write was torn.
    Corrupt,
}

/// `n` rounded up to a multiple of `w`.
pub open spec fn pad(n: int, w: int) -> int {
    if n % w == 0 {
        n
    } else {
        n + w - n % w
    }
}

/// The bytes that a frame with a payload of `n` bytes takes.
pub open spec fn frame_size(n: int, w: int) -> int {
    2 * w + pad(n, w)
}

/// Payload lengths below this bound can be written into a length word of `w`
/// bytes without reading as erased.
pub open spec fn len_limit(w: int) -> int {
    if w == 1 {
        0xFF
    } else if w == 2 {
        0xFFFF
    } else if w == 3 {
        0xFF_FFFF
    } else {
        0xFFFF_FFFF
    }
}

/// Byte `i` of the length word for a payload of `n` bytes.
pub open spec fn len_byte(n: int, i: int) -> u8 {
    if i == 0 {
        (n % 256) as u8
    } else if i == 1 {
        ((n / 256) % 256) as u8
    } else if i == 2 {
        ((n / 65536) % 256) as u8
    } else if i == 3 {
        ((n / 16777216) % 256) as u8
    } else {
        0u8
    }
}

/// The length word of `w` bytes for a payload of `n` bytes.
pub open spec fn encode_len(n: int, w: int) -> Seq<u8> {
    Seq::new(w as nat, |i: int| len_byte(n, i))
}

/// The number that the first four bytes of a length word spell.
pub open spec fn len_value(word: Seq<u8>) -> int {
    word[0] as int + (if word.len() > 1 {
        256 * word[1] as int
    } else {
        0
    }) + (if word.len() > 2 {
        65536 * word[2] as int
    } else {
        0
    }) + (if word.len() > 3 {
        16777216 * word[3] as int
    } else {
        0
    })
}

/// The payload length that a length word holds, if its bytes beyond the
/// fourth are all zero.
pub open spec fn decode_len(word: Seq<u8>) -> Option<int> {
    if forall|i: int| 4 <= i < word.len() ==> word[i] == 0u8 {
        Some(len_value(word))
    } else {
        None
    }
}

/// One bit step of the CRC.
pub open spec fn crc_shift(c: u32) -> u32 {
    if c & 1 == 1 {
        (c >> 1) ^ 0xEDB8_8320u32
    } else {
        c >> 1
    }
}

/// The CRC register after taking in the byte `b`.
pub open spec fn crc_byte(c: u32, b: u8) -> u32 {
    crc_shift(
        crc_shift(
            crc_shift(crc_shift(crc_shift(crc_shift(crc_shift(crc_shift(c ^ (b as u32))))))),
        ),
    )
}

/// The CRC register after taking in `data`, starting from all ones.
pub open spec fn crc_run(data: Seq<u8>) -> u32
    decreases data.len(),
{
    if data.len() == 0 {
        0xFFFF_FFFFu32
    } else {
        crc_byte(crc_run(data.drop_last()), data.last())
    }
}

/// The CRC-32 of `data`.
pub open spec fn crc32(data: Seq<u8>) -> u32 {
    crc_run(data) ^ 0xFFFF_FFFFu32
}

/// Byte `i` of the check word for the checksum `c`. The first byte lies
/// between 1 and 254, so the word is neither erased nor a tombstone.
pub open spec fn check_byte(c: u32, i: int) -> u8 {
    if i == 0 {
        (c % 254 + 1) as u8
    } else if i == 1 {
        ((c / 256) % 256) as u8
    } else if i == 2 {
        ((c / 65536) % 256) as u8
    } else if i == 3 {
        ((c / 16777216) % 256) as u8
    } else {
        0u8
    }
}

/// The check word of `w` bytes for the checksum `c`.
pub open spec fn check_word(c: u32, w: int) -> Seq<u8> {
    Seq::new(w as nat, |i: int| check_byte(c, i))
}

/// The frame that holds `payload`.
pub open spec fn encode_frame(payload: Seq<u8>, w: int) -> Seq<u8> {
    let n = payload.len() as int;
    let head = encode_len(n, w) + payload;
    head + Seq::new((pad(n, w) - n) as nat, |i: int| 0xFFu8) + check_word(crc32(head), w)
}

/// What the slot at offset `off` of the page `pg` holds.
pub open spec fn slot_at(pg: Seq<u8>, w: int, off: int) -> Frame {
    let lw = pg.subrange(off, off + w);
    if all_ones(lw) {
        Frame::Erased
    } else {
        match decode_len(lw) {
            None => Frame::Corrupt,
            Some(n) => {
                if n >= len_limit(w) || off + frame_size(n, w) > pg.len() {
                    Frame::Corrupt
                } else {
                    let cw = pg.subrange(off + w + pad(n, w), off + frame_size(n, w));
                    if all_zeros(cw) {
                        Frame::Tombstone { len: n as u32 }
                    } else if cw == check_word(crc32(pg.subrange(off, off + w + n)), w) {
                        Frame::Present { len: n as u32 }
                    } else {
                        Frame::Corrupt
                    }
                }
            },
        }
    }
}

/// The bytes from offset `off` on that decide what the slot there holds: the
/// whole frame where the length word announces one that fits the page, the
/// length word alone otherwise.
pub open spec fn span_at(pg: Seq<u8>, w: int, off: int) -> int {
    let lw = pg.subrange(off, off + w);
    if all_ones(lw) {
        w
    } else {
        match decode_len(lw) {
            None => w,
            Some(n) => {
                if n >= len_limit(w) || off + frame_size(n, w) > pg.len() {
                    w
                } else {
                    frame_size(n, w)
                }
            },
        }
    }
}

/// The payload of the item in the slot at `off`, which holds `len` bytes.
pub open spec fn payload_at(pg: Seq<u8>, w: int, off: int, len: int) -> Seq<u8> {
    pg.subrange(off + w, off + w + len)
}

/// Rounding up stays below the next multiple and lands on a multiple.
pub proof fn pad_bounds(n: int, w: int)
    requires
        n >= 0,
        w >= 1,
    ensures
        n <= pad(n, w) < n + w,
        pad(n, w) % w == 0,
{
    assert(0 <= n % w < w && pad(n, w) % w == 0) by (nonlinear_arith)
        requires
            n >= 0,
            w >= 1,
            pad(n, w) == (if n % w == 0 {
                n
            } else {
                n + w - n % w
            }),
    ;
}

/// `n` rounded up to a multiple of `w`.
pub fn pad_to(n: u32, w: u32) -> (r: u32)
    requires
        w >= 1,
        n + w <= u32::MAX,
    ensures
        r == pad(n as int, w as int),
{
    proof {
        pad_bounds(n as int, w as int);
    }
    let rest: u32 = n % w;
    if rest == 0 {
        n
    } else {
        n + (w - rest)
    }
}

/// The largest payload length plus one that a length word of `w` bytes can
/// hold.
pub fn limit_for(w: u32) -> (r: u32)
    ensures
        r == len_limit(w as int),
{
    if w == 1 {
        0xFF
    } else if w == 2 {
        0xFFFF
    } else if w == 3 {
        0xFF_FFFF
    } else {
        0xFFFF_FFFF
    }
}

/// Writes the length word for a payload of `n` bytes into `buf[at..at + w]`.
pub fn put_len(buf: &mut [u8], at: usize, n: u32, w: usize)
    requires
        w >= 1,
        at + w <= old(buf)@.len(),
    ensures
        final(buf)@.len() == old(buf)@.len(),
        final(buf)@.subrange(at as int, at + w) == encode_len(n as int, w as int),
        forall|j: int|
            0 <= j < old(buf)@.len() && !(at <= j < at + w) ==> final(buf)@[j] == old(buf)@[j],
{
    let total: usize = buf.len();
    let mut i: usize = 0;
    while i < w
        invariant
            i <= w,
            at + w <= total,
            total == buf@.len(),
            buf@.len() == old(buf)@.len(),
            forall|j: int| 0 <= j < i ==> buf@[at + j] == len_byte(n as int, j),
            forall|j: int|
                0 <= j < old(buf)@.len() && !(at <= j < at + w) ==> buf@[j] == old(buf)@[j],
        decreases w - i,
    {
        let b: u8 = if i == 0 {
            (n % 256) as u8
        } else if i == 1 {
            ((n / 256) % 256) as u8
        } else if i == 2 {
            ((n / 65536) % 256) as u8
        } else if i == 3 {
            ((n / 16777216) % 256) as u8
        } else {
            0
        };
        buf[at + i] = b;
        i += 1;
    }
    assert(buf@.subrange(at as int, at + w) =~= encode_len(n as int, w as int));
}

/// Writes the check word for the checksum `c` into `buf[at..at + w]`.
pub fn put_check(buf: &mut [u8], at: usize, c: u32, w: usize)
    requires
        w >= 1,
        at + w <= old(buf)@.len(),
    ensures
        final(buf)@.len() == old(buf)@.len(),
        final(buf)@.subrange(at as int, at + w) == check_word(c, w as int),
        forall|j: int|
            0 <= j < old(buf)@.len() && !(at <= j < at + w) ==> final(buf)@[j] == old(buf)@[j],
{
    let total: usize = buf.len();
    let mut i: usize = 0;
    while i < w
        invariant
            i <= w,
            at + w <= total,
            total == buf@.len(),
            buf@.len() == old(buf)@.len(),
            forall|j: int| 0 <= j < i ==> buf@[at + j] == check_byte(c, j),
            forall|j: int|
                0 <= j < old(buf)@.len() && !(at <= j < at + w) ==> buf@[j] == old(buf)@[j],
        decreases w - i,
    {
        let b: u8 = if i == 0 {
            (c % 254 + 1) as u8
        } else if i == 1 {
            ((c / 256) % 256) as u8
        } else if i == 2 {
            ((c / 65536) % 256) as u8
        } else if i == 3 {
            ((c / 16777216) % 256) as u8
        } else {
            0
        };
        buf[at + i] = b;
        i += 1;
    }
    assert(buf@.subrange(at as int, at + w) =~= check_word(c, w as int));
}

/// Reads the payload length from the length word `buf[at..at + w]`.
pub fn get_len(buf: &[u8], at: usize, w: usize) -> (r: Option<u32>)
    requires
        w >= 1,
        at + w <= buf@.len(),
    ensures
        match r {
            Some(n) => decode_len(buf@.subrange(at as int, at + w)) == Some(n as int),
            None => decode_len(buf@.subrange(at as int, at + w)) is None,
        },
{
    let ghost word = buf@.subrange(at as int, at + w);
    let total: usize = buf.len();
    let mut value: u32 = buf[at] as u32;
    if w > 1 {
        value = value + 256 * (buf[at + 1] as u32);
    }
    if w > 2 {
        value = value + 65536 * (buf[at + 2] as u32);
    }
    if w > 3 {
        value = value + 16777216 * (buf[at + 3] as u32);
    }
    assert(value == len_value(word));
    let mut i: usize = 4;
    while i < w
        invariant
            4 <= i,
            at + w <= total,
            total == buf@.len(),
            word == buf@.subrange(at as int, at + w),
            forall|j: int| 4 <= j < i && j < w ==> word[j] == 0u8,
        decreases w - i,
    {
        if buf[at + i] != 0 {
            assert(word[i as int] != 0u8);
            return None;
        }
        i += 1;
    }
    Some(value)
}

/// One bit step of the CRC.
pub fn shift(c: u32) -> (r: u32)
    ensures
        r == crc_shift(c),
{
    if c & 1 == 1 {
        (c >> 1) ^ 0xEDB8_8320u32
    } else {
        c >> 1
    }
}

/// Takes the byte `b` into the CRC register `c`.
pub fn feed(c: u32, b: u8) -> (r: u32)
    ensures
        r == crc_byte(c, b),
{
    let c0: u32 = c ^ (b as u32);
    let c1: u32 = shift(c0);
    let c2: u32 = shift(c1);
    let c3: u32 = shift(c2);
    let c4: u32 = shift(c3);
    let c5: u32 = shift(c4);
    let c6: u32 = shift(c5);
    let c7: u32 = shift(c6);
    shift(c7)
}

/// The CRC-32 of `buf[from..to]`.
pub fn checksum(buf: &[u8], from: usize, to: usize) -> (r: u32)
    requires
        from <= to <= buf@.len(),
    ensures
        r == crc32(buf@.subrange(from as int, to as int)),
{
    let mut c: u32 = 0xFFFF_FFFF;
    let mut i: usize = from;
    while i < to
        invariant
            from <= i <= to <= buf@.len(),
            c == crc_run(buf@.subrange(from as int, i as int)),
        decreases to - i,
    {
        proof {
            let next = buf@.subrange(from as int, i + 1);
            assert(next.drop_last() =~= buf@.subrange(from as int, i as int));
            assert(next.last() == buf@[i as int]);
        }
        c = feed(c, buf[i]);
        i += 1;
    }
    c ^ 0xFFFF_FFFFu32
}

/// Whether `buf[from..to]` equals the check word for the checksum `c`.
pub fn check_matches(buf: &[u8], from: usize, to: usize, c: u32) -> (r: bool)
    requires
        from <= to <= buf@.len(),
    ensures
        r == (buf@.subrange(from as int, to as int) == check_word(c, to - from)),
{
    let ghost word = buf@.subrange(from as int, to as int);
    let ghost want = check_word(c, to - from);
    let mut i: usize = 0;
    while i < to - from
        invariant
            from <= to <= buf@.len(),
            i <= to - from,
            word == buf@.subrange(from as int, to as int),
            want == check_word(c, to - from),
            forall|j: int| 0 <= j < i ==> word[j] == want[j],
        decreases to - from - i,
    {
        let b: u8 = if i == 0 {
            (c % 254 + 1) as u8
        } else if i == 1 {
            ((c / 256) % 256) as u8
        } else if i == 2 {
            ((c / 65536) % 256) as u8
        } else if i == 3 {
            ((c / 16777216) % 256) as u8
        } else {
            0
        };
        if buf[from + i] != b {
            assert(word[i as int] != want[i as int]);
            return false;
        }
        i += 1;
    }
    assert(word =~= want);
    true
}

/// Completes the frame in `buf` around the payload `buf[w..w + n]`: writes
/// the length word before it, erased padding and the check word behind it.
pub fn seal(buf: &mut [u8], n: u32, w: u32) -> (size: u32)
    requires
        w >= 1,
        n < len_limit(w as int),
        2 * w + n + w <= u32::MAX,
        frame_size(n as int, w as int) <= old(buf)@.len(),
    ensures
        final(buf)@.len() == old(buf)@.len(),
        size == frame_size(n as int, w as int),
        size <= old(buf)@.len(),
        final(buf)@.subrange(0, size as int) == encode_frame(
            old(buf)@.subrange(w as int, w + n),
            w as int,
        ),
{
    let ghost payload = buf@.subrange(w as int, w + n);
    proof {
        pad_bounds(n as int, w as int);
    }
    let padded: u32 = pad_to(n, w);
    let wu: usize = w as usize;
    put_len(buf, 0, n, wu);
    assert(buf@.subrange(0, wu + n) =~= encode_len(n as int, w as int) + payload);
    let c: u32 = checksum(buf, 0, wu + n as usize);
    let mut i: usize = wu + n as usize;
    while i < wu + padded as usize
        invariant
            wu + n <= i <= wu + padded,
            wu == w,
            2 * w + padded <= buf@.len(),
            buf@.len() == old(buf)@.len(),
            buf@.subrange(0, wu + n) == encode_len(n as int, w as int) + payload,
            forall|j: int| wu + n <= j < i ==> buf@[j] == 0xFFu8,
        decreases wu + padded - i,
    {
        let ghost prev = buf@;
        buf[i] = 0xFF;
        assert(buf@.subrange(0, wu + n) =~= prev.subrange(0, wu + n));
        i += 1;
    } 
    let ghost mid = buf@;
    put_check(buf, wu + padded as usize, c, wu);
    proof {
        let size = 2 * w + padded;
        let head = encode_len(n as int, w as int) + payload;
        assert(buf@.subrange(0, wu + n) =~= mid.subrange(0, wu + n));
        let want = encode_frame(payload, w as int);
        let tail = buf@.subrange(wu + padded, size as int);
        assert(want.len() == size);
        assert forall|j: int| 0 <= j < size implies buf@[j] == want[j] by {
            if j < wu + n {
                assert(buf@[j] == buf@.subrange(0, wu + n)[j]);
            } else if j < wu + padded {
                assert(buf@[j] == mid[j]);
            } else {
                assert(buf@[j] == tail[j - wu - padded]);
            }
        }
        assert(buf@.subrange(0, size as int) =~= want);
    }
    2 * w + padded
}

/// Reads the slot at offset `off` of page `p` and tells what it holds. For an
/// item, the frame is left at the front of `buf`, the payload from index
/// `word` on. Says `None` when `buf` cannot hold the frame that the length
/// word announces.
pub fn read_frame<F: NorFlash>(flash: &F, l: &Layout, p: u32, off: u32, buf: &mut [u8]) -> (r:
    Option<Frame>)
    requires
        l.on(flash),
        p < l.pages,
        off + 2 * l.word <= l.page,
        old(buf)@.len() >= 2 * l.word,
    ensures
        final(buf)@.len() == old(buf)@.len(),
        r is None <==> span_at(l.page_at(flash.contents(), p as int), l.word as int, off as int)
            > old(buf)@.len(),
        r matches Some(f) ==> {
            &&& f == slot_at(l.page_at(flash.contents(), p as int), l.word as int, off as int)
            &&& (f matches Frame::Present { len } ==> off + frame_size(len as int, l.word as int)
                <= l.page && frame_size(len as int, l.word as int) <= old(buf)@.len()
                    && final(buf)@.subrange(l.word as int, l.word + len) == payload_at(
                l.page_at(flash.contents(), p as int),
                l.word as int,
                off as int,
                len as int,
            ))
            &&& (f matches Frame::Tombstone { len } ==> off + frame_size(len as int, l.word as int)
                <= l.page && frame_size(len as int, l.word as int) <= old(buf)@.len()
                    && final(buf)@.subrange(l.word as int, l.word + len) == payload_at(
                l.page_at(flash.contents(), p as int),
                l.word as int,
                off as int,
                len as int,
            ))
        },
{
    let w: usize = l.word as usize;
    let ghost pg = l.page_at(flash.contents(), p as int);
    proof {
        l.page_len(flash.contents(), p as int);
    }
    read_at(flash, l, p, off, buf, w);
    proof {
        assert(buf@.subrange(0, w as int) =~= pg.subrange(off as int, off + w));
    }
    if let crate::header::Marker::Erased = crate::header::classify(buf, 0, w) {
        return Some(Frame::Erased);
    }
    let n: u32 = match get_len(buf, 0, w) {
        None => {
            return Some(Frame::Corrupt);
        },
        Some(n) => n,
    };
    if n >= limit_for(l.word) {
        return Some(Frame::Corrupt);
    }
    let room: u32 = l.page - off - 2 * l.word;
    if n > room {
        proof {
            pad_bounds(n as int, w as int);
        }
        return Some(Frame::Corrupt);
    }
    let padded: u32 = pad_to(n, l.word);
    if padded > room {
        return Some(Frame::Corrupt);
    }
    let size: usize = 2 * w + padded as usize;
    if size > buf.len() {
        return None;
    }
    read_at(flash, l, p, off, buf, size);
    proof {
        let got = buf@.subrange(0, size as int);
        assert(buf@.subrange(w + padded, size as int) =~= pg.subrange(
            off + w + padded,
            off + size,
        )) by {
            assert(buf@.subrange(w + padded, size as int) =~= got.subrange(
                w + padded,
                size as int,
            ));
        }
        assert(buf@.subrange(0, w + n) =~= pg.subrange(off as int, off + w + n)) by {
            assert(buf@.subrange(0, w + n) =~= got.subrange(0, w + n));
            pad_bounds(n as int, w as int);
        }
        assert(buf@.subrange(w as int, w + n) =~= payload_at(pg, w as int, off as int, n as int))
            by {
            assert(buf@.subrange(w as int, w + n) =~= got.subrange(w as int, w + n));
            pad_bounds(n as int, w as int);
        }
    }
    if let crate::header::Marker::Programmed = crate::header::classify(
        buf,
        w + padded as usize,
        size,
    ) {
        return Some(Frame::Tombstone { len: n });
    }
    let c: u32 = checksum(buf, 0, w + n as usize);
    proof {
        let cw = pg.subrange(off + w + padded, off + size);
        if all_ones(cw) {
            assert(cw[0] == 0xFFu8);
        }
        assert(pg.subrange(off as int, off + w).len() == w);
        assert(size - (w + padded) == w);
    }
    if check_matches(buf, w + padded as usize, size, c) {
        Some(Frame::Present { len: n })
    } else {
        Some(Frame::Corrupt)
    }
}

/// A length below the limit survives the length word, and the word does not
/// read as erased.
#[verifier::rlimit(60)]
#[verifier::spinoff_prover]
pub proof fn len_round_trip(n: int, w: int)
    requires
        w >= 1,
        0 <= n < len_limit(w),
    ensures
        decode_len(encode_len(n, w)) == Some(n),
        !all_ones(encode_len(n, w)),
{
    let word = encode_len(n, w);
    assert(word[0] == len_byte(n, 0));
    if w > 1 {
        assert(word[1] == len_byte(n, 1));
    }
    if w > 2 {
        assert(word[2] == len_byte(n, 2));
    }
    if w > 3 {
        assert(word[3] == len_byte(n, 3));
    }
    if w > 4 {
        assert(word[4] == 0u8);
    }
    assert(len_value(word) == n);
    if all_ones(word) {
        assert(word[0] == 0xFFu8);
        if w > 1 {
            assert(word[1] == 0xFFu8);
        }
        if w > 2 {
            assert(word[2] == 0xFFu8);
        }
        if w > 3 {
            assert(word[3] == 0xFFu8);
        }
        if w > 4 {
            assert(word[4] == 0xFFu8);
        }
        assert(false);
    }
}

/// What a slot holds is decided by the bytes of its span.
pub proof fn slot_local(a: Seq<u8>, b: Seq<u8>, w: int, off: int, upto: int)
    requires
        w >= 1,
        0 <= off,
        a.len() == b.len(),
        upto <= a.len(),
        off + span_at(a, w, off) <= upto,
        forall|i: int| off <= i < upto ==> a[i] == b[i],
    ensures
        slot_at(b, w, off) == slot_at(a, w, off),
        span_at(b, w, off) == span_at(a, w, off),
        forall|len: int|
            0 <= len && off + w + len <= upto ==> #[trigger] payload_at(b, w, off, len)
                == payload_at(a, w, off, len),
{
    assert(a.subrange(off, off + w) =~= b.subrange(off, off + w));
    assert forall|len: int| 0 <= len && off + w + len <= upto implies #[trigger] payload_at(
        b,
        w,
        off,
        len,
    ) == payload_at(a, w, off, len) by {
        assert(payload_at(b, w, off, len) =~= payload_at(a, w, off, len));
    }
    let lw = a.subrange(off, off + w);
    if !all_ones(lw) {
        if let Some(n) = decode_len(lw) {
            if !(n >= len_limit(w) || off + frame_size(n, w) > a.len()) {
                assert(len_value(lw) >= 0);
                pad_bounds(n, w);
                assert(a.subrange(off + w + pad(n, w), off + frame_size(n, w)) =~= b.subrange(
                    off + w + pad(n, w),
                    off + frame_size(n, w),
                ));
                assert(a.subrange(off, off + w + n) =~= b.subrange(off, off + w + n));
            }
        }
    }
}

/// A frame written into a page reads back as a present item with the same
/// payload.
pub proof fn sealed_reads_back(pg: Seq<u8>, w: int, off: int, payload: Seq<u8>)
    requires
        w >= 1,
        0 <= off,
        payload.len() < len_limit(w),
        off + frame_size(payload.len() as int, w) <= pg.len(),
    ensures
        slot_at(splice(pg, off, encode_frame(payload, w)), w, off) == (Frame::Present {
            len: payload.len() as u32,
        }),
        payload_at(splice(pg, off, encode_frame(payload, w)), w, off, payload.len() as int)
            == payload,
        encode_frame(payload, w).len() == frame_size(payload.len() as int, w),
{
    let n = payload.len() as int;
    let ef = encode_frame(payload, w);
    let b = splice(pg, off, ef);
    let head = encode_len(n, w) + payload;
    pad_bounds(n, w);
    len_round_trip(n, w);
    assert(ef.len() == frame_size(n, w));
    assert(b.subrange(off, off + w) =~= encode_len(n, w));
    assert(b.subrange(off, off + w + n) =~= head);
    let cw = b.subrange(off + w + pad(n, w), off + frame_size(n, w));
    assert(cw =~= check_word(crc32(head), w));
    assert(cw[0] == check_byte(crc32(head), 0));
    assert(payload_at(b, w, off, n) =~= payload);
}

/// A frame of which only some leading words reached a blank stretch of the
/// page, but not the last, reads as corrupt.
pub proof fn torn_reads_corrupt(pg: Seq<u8>, w: int, off: int, payload: Seq<u8>, done: int)
    requires
        w >= 1,
        0 <= off,
        payload.len() < len_limit(w),
        off + frame_size(payload.len() as int, w) <= pg.len(),
        0 < done < frame_size(payload.len() as int, w),
        done % w == 0,
        all_ones(pg.subrange(off, off + frame_size(payload.len() as int, w))),
    ensures
        slot_at(splice(pg, off, encode_frame(payload, w).subrange(0, done)), w, off)
            == Frame::Corrupt,
{
    let n = payload.len() as int;
    let ef = encode_frame(payload, w);
    let size = frame_size(n, w);
    let b = splice(pg, off, ef.subrange(0, done));
    pad_bounds(n, w);
    len_round_trip(n, w);
    assert(w <= done <= size - w) by (nonlinear_arith)
        requires
            w >= 1,
            0 < done < size,
            done % w == 0,
            size == 2 * w + pad(n, w),
            pad(n, w) % w == 0,
            pad(n, w) >= 0,
    ;
    assert(ef.len() == size);
    assert(b.subrange(off, off + w) =~= encode_len(n, w));
    let cw = b.subrange(off + w + pad(n, w), off + size);
    let blank = pg.subrange(off, off + size);
    assert forall|i: int| 0 <= i < w implies cw[i] == 0xFFu8 by {
        assert(cw[i] == blank[w + pad(n, w) + i]);
    }
    assert(cw[0] == 0xFFu8);
    let want = check_word(crc32(b.subrange(off, off + w + n)), w);
    assert(want[0] == check_byte(crc32(b.subrange(off, off + w + n)), 0));
}

/// Programming zeros over the check word of an item turns it into a tombstone
/// with the same payload.
pub proof fn tombstoned(pg: Seq<u8>, w: int, off: int, len: u32)
    requires
        w >= 1,
        0 <= off,
        slot_at(pg, w, off) == (Frame::Present { len }) || slot_at(pg, w, off) == (
        Frame::Tombstone { len }),
    ensures
        slot_at(splice(pg, off + w + pad(len as int, w), zeros(w)), w, off) == (Frame::Tombstone {
            len,
        }),
        span_at(pg, w, off) == frame_size(len as int, w),
        off + frame_size(len as int, w) <= pg.len(),
        payload_at(splice(pg, off + w + pad(len as int, w), zeros(w)), w, off, len as int)
            == payload_at(pg, w, off, len as int),
{
    let lw = pg.subrange(off, off + w);
    let n = decode_len(lw).unwrap();
    assert(len_value(lw) >= 0);
    assert(n == len);
    pad_bounds(n, w);
    let b = splice(pg, off + w + pad(n, w), zeros(w));
    assert(b.subrange(off, off + w) =~= lw);
    assert(b.subrange(off + w + pad(n, w), off + frame_size(n, w)) =~= zeros(w));
    assert(payload_at(b, w, off, n) =~= payload_at(pg, w, off, n));
}

/// Frames the payload `buf[word..word + n]` and programs the frame at offset
/// `off` of page `p`. Returns the offset behind the frame.
///
/// The frame goes out in one write, length word first and check word last, so
/// that a write cut short leaves a frame without its check word.
pub fn write_frame<F: NorFlash>(
    flash: &mut F,
    l: &Layout,
    p: u32,
    off: u32,
    buf: &mut [u8],
    n: u32,
) -> (r: Result<u32, FlashError>)
    requires
        l.on(old(flash)),
        p < l.pages,
        n < len_limit(l.word as int),
        off + frame_size(n as int, l.word as int) <= l.page,
        frame_size(n as int, l.word as int) <= old(buf)@.len(),
    ensures
        answers(
            old(flash).write_refusal(
                (l.start_of(p as int) + off) as u32,
                encode_frame(old(buf)@.subrange(l.word as int, l.word + n), l.word as int),
            ),
            r,
        ),
        final(flash).rewrites() == old(flash).rewrites(),
        tolled(old(flash).losses(), final(flash).losses(), lost(r)),
        mended(
            old(flash).mends(),
            final(flash).mends(),
            final(flash).reserve(),
            lost(r),
        ),
        spared(
            old(flash).reserve(),
            final(flash).reserve(),
            frame_size(n as int, l.word as int),
            lost(r),
        ),
        old(flash).tidy() && fair(
            l.page_at(old(flash).contents(), p as int),
            l.word as int,
            old(flash).rewrites(),
            off as int,
            encode_frame(old(buf)@.subrange(l.word as int, l.word + n), l.word as int),
        ) ==> !refused(r) && final(flash).tidy(),
        l.on(final(flash)),
        final(flash).contents().len() == old(flash).contents().len(),
        final(buf)@.len() == old(buf)@.len(),
        others_kept(*l, old(flash).contents(), final(flash).contents(), p as int),
        match r {
            Ok(next) => {
                &&& next == off + frame_size(n as int, l.word as int)
                &&& l.page_at(final(flash).contents(), p as int) == splice(
                    l.page_at(old(flash).contents(), p as int),
                    off as int,
                    encode_frame(old(buf)@.subrange(l.word as int, l.word + n), l.word as int),
                )
            },
            Err(e) => if e is EarlyShutoff {
                exists|done: int|
                    done % (l.word as int) == 0 && #[trigger] partly_written(
                        l.page_at(old(flash).contents(), p as int),
                        l.page_at(final(flash).contents(), p as int),
                        off as int,
                        encode_frame(old(buf)@.subrange(l.word as int, l.word + n), l.word as int),
                        done,
                    )
            } else {
                final(flash).contents() == old(flash).contents()
            },
        },
{
    proof {
        pad_bounds(n as int, l.word as int);
        assert(l.pages * l.page >= 2 * l.page) by (nonlinear_arith)
            requires
                l.pages >= 2,
                l.page >= 0,
        ;
    }
    let size: u32 = seal(buf, n, l.word);
    match write_at(flash, l, p, off, slice_subrange(buf, 0, size as usize)) {
        Ok(()) => Ok(off + size),
        Err(e) => Err(e),
    }
}

/// Puts a tombstone on the item at offset `off` of page `p`, whose payload
/// has `len` bytes: programs zeros over its check word. The write is a single
/// word, so it takes effect as a whole or not at all.
pub fn mark_tombstone<F: NorFlash>(
    flash: &mut F,
    l: &Layout,
    p: u32,
    off: u32,
    len: u32,
    buf: &mut [u8],
) -> (r: Result<(), FlashError>)
    requires
        l.on(old(flash)),
        p < l.pages,
        off + frame_size(len as int, l.word as int) <= l.page,
        old(buf)@.len() >= l.word,
    ensures
        answers(
            old(flash).write_refusal(
                (l.start_of(p as int) + off + l.word + pad(len as int, l.word as int)) as u32,
                zeros(l.word as int),
            ),
            r,
        ),
        final(flash).rewrites() == old(flash).rewrites(),
        tolled(old(flash).losses(), final(flash).losses(), lost(r)),
        mended(
            old(flash).mends(),
            final(flash).mends(),
            final(flash).reserve(),
            lost(r),
        ),
        spared(old(flash).reserve(), final(flash).reserve(), l.word as int, lost(r)),
        old(flash).tidy() && fair(
            l.page_at(old(flash).contents(), p as int),
            l.word as int,
            old(flash).rewrites(),
            off + l.word + pad(len as int, l.word as int),
            zeros(l.word as int),
        ) ==> !refused(r) && final(flash).tidy(),
        l.on(final(flash)),
        final(flash).contents().len() == old(flash).contents().len(),
        final(buf)@.len() == old(buf)@.len(),
        others_kept(*l, old(flash).contents(), final(flash).contents(), p as int),
        r is Ok ==> l.page_at(final(flash).contents(), p as int) == splice(
            l.page_at(old(flash).contents(), p as int),
            off + l.word + pad(len as int, l.word as int),
            zeros(l.word as int),
        ),
        r is Err ==> {
            ||| l.page_at(final(flash).contents(), p as int) == l.page_at(
                old(flash).contents(),
                p as int,
            )
            ||| l.page_at(final(flash).contents(), p as int) == splice(
                l.page_at(old(flash).contents(), p as int),
                off + l.word + pad(len as int, l.word as int),
                zeros(l.word as int),
            )
        },
{
    proof {
        pad_bounds(len as int, l.word as int);
    }
    program_word(flash, l, p, off + l.word + pad_to(len, l.word), buf)
}

} // verus!
