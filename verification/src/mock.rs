//! An in-memory flash device with the physical limits of NOR flash, for tests
//! and simulation.
//!
//! The device programs and erases whole words. It rejects a write that would
//! set a bit, counts how often each word was programmed since its page was
//! erased, and can cut the power once, after a given number of words.

use crate::flash::{
    all_ones, all_zeros, fair, lost, partly_wiped, partly_written, spared, splice, tolled, wipe,
    FlashError, NorFlash,
};
use vstd::prelude::*;

verus! {

/// How often a word may be programmed between two erasures.
#[derive(Clone, Copy, Debug, PartialEq, Eq, Structural)]
pub enum WriteCountCheck {
    /// Every word may be programmed once.
    OnceOnly,
    /// A word may be programmed a second time.
    Twice,
    /// Words may be programmed any number of times.
    Disabled,
}

/// A simulated flash device.
pub struct MockFlash {
    data: Vec<u8>,
    writes: Vec<u8>,
    word: u32,
    page: u32,
    policy: WriteCountCheck,
    fuel: Option<u32>,
    losses: Ghost<nat>,
}

/// Whether a word that was programmed `count` times may be programmed again.
pub open spec fn may_program(policy: WriteCountCheck, count: u8) -> bool {
    match policy {
        WriteCountCheck::OnceOnly => count < 1,
        WriteCountCheck::Twice => count < 2,
        WriteCountCheck::Disabled => true,
    }
}

/// The count of a word after it was programmed once more. The count stops at
/// 255.
pub open spec fn bumped(count: u8) -> u8 {
    if count < 255 {
        (count + 1) as u8
    } else {
        count
    }
}

/// Word `x` of `bytes`, for words of `w` bytes.
pub open spec fn word_of(bytes: Seq<u8>, x: int, w: int) -> Seq<u8> {
    bytes.subrange(x * w, x * w + w)
}

/// The counts after the first `k` words of `data` were programmed from word
/// `first` on. A word of ones programs nothing and is not counted.
pub open spec fn programmed(counts: Seq<u8>, first: int, k: int, data: Seq<u8>, w: int) -> Seq<u8> {
    Seq::new(
        counts.len(),
        |x: int|
            if first <= x < first + k && !all_ones(word_of(data, x - first, w)) {
                bumped(counts[x])
            } else {
                counts[x]
            },
    )
}

/// The rule that a device keeps whose every write was fair: a word that reads
/// as erased was not programmed, and a word that is not zero was programmed
/// at most once.
pub open spec fn kept_rule(bytes: Seq<u8>, counts: Seq<u8>, w: int) -> bool {
    forall|x: int|
        0 <= x < counts.len() ==> {
            &&& all_ones(#[trigger] word_of(bytes, x, w)) ==> counts[x] == 0
            &&& !all_zeros(word_of(bytes, x, w)) ==> counts[x] <= 1
        }
}

/// The counts after the `k` words from word `first` on were erased.
pub open spec fn cleared(counts: Seq<u8>, first: int, k: int) -> Seq<u8> {
    Seq::new(
        counts.len(),
        |w: int|
            if first <= w < first + k {
                0u8
            } else {
                counts[w]
            },
    )
}

/// The fuel that is left of `fuel` after an operation on `words` words that
/// ended with `r`: none after a power loss, `words` less after success, all of
/// it after a refusal.
pub open spec fn fuel_after(fuel: Option<u32>, words: int, r: Result<(), FlashError>) -> Option<
    u32,
> {
    match fuel {
        None => None,
        Some(n) => match r {
            Ok(()) => Some((n - words) as u32),
            Err(FlashError::EarlyShutoff(_)) => None,
            Err(_) => Some(n),
        },
    }
}

/// Fuel for `f` words of `w` bytes is a reserve of `f * w` bytes: it lasts
/// for `len` bytes exactly when the fuel lasts for the words in them, and
/// what is left of it is the fuel that is left.
pub proof fn fuel_bytes(f: int, len: int, w: int)
    requires
        f >= 0,
        len >= 0,
        w >= 1,
    ensures
        f * w >= 0,
        len % w == 0 ==> (f < len / w <==> f * w < len),
        len % w == 0 ==> (f - len / w) * w + len == f * w,
{
    if len % w == 0 {
        divides(len, w);
        let words = len / w;
        assert(f < words ==> f * w < words * w) by (nonlinear_arith)
            requires
                w >= 1,
        ;
        assert(f >= words ==> f * w >= words * w) by (nonlinear_arith)
            requires
                w >= 1,
        ;
        assert((f - words) * w + words * w == f * w) by (nonlinear_arith);
    }
    assert(f * w >= 0) by (nonlinear_arith)
        requires
            f >= 0,
            w >= 1,
    ;
}

/// The reserve of a device with the fuel `fuel` and words of `w` bytes: the
/// bytes of the words that the fuel lasts for.
#[verifier::opaque]
pub open spec fn reserve_of(fuel: Option<u32>, w: nat) -> Option<nat> {
    match fuel {
        None => None,
        Some(f) => Some((f * w) as nat),
    }
}

/// An operation on `len` bytes that the fuel lasted for took `len` bytes
/// from the reserve; after one that the fuel did not last for, no reserve is
/// left to run out.
pub proof fn reserve_after(fuel: Option<u32>, w: int, len: int, r: Result<(), FlashError>)
    requires
        w >= 1,
        len >= 0,
        lost(r) ==> fuel is Some && len % w == 0 && fuel.unwrap() < len / w,
        r is Ok ==> len % w == 0,
        fuel is Some && len % w == 0 && fuel.unwrap() < len / w ==> !(r is Ok),
    ensures
        spared(
            reserve_of(fuel, w as nat),
            reserve_of(fuel_after(fuel, len / w, r), w as nat),
            len,
            lost(r),
        ),
        lost(r) ==> reserve_of(fuel_after(fuel, len / w, r), w as nat) is None,
{
    reveal(reserve_of);
    if let Some(f) = fuel {
        fuel_bytes(f as int, len, w);
    }
}

/// A multiple of `m` divided by `m`, and what lies between two multiples.
pub proof fn multiples(a: int, j: int, m: int)
    requires
        m >= 1,
        a >= 0,
        0 <= j < m,
    ensures
        (a * m + j) / m == a,
        (a * m) % m == 0,
        (a * m + j) % m == j,
        (a + 1) * m == a * m + m,
{
    assert((a * m + j) / m == a && (a * m) % m == 0 && (a * m + j) % m == j && (a + 1) * m == a
        * m + m) by (nonlinear_arith)
        requires
            m >= 1,
            a >= 0,
            0 <= j < m,
    ;
}

/// A number that `m` divides is its quotient times `m`.
pub proof fn divides(x: int, m: int)
    requires
        m >= 1,
        x >= 0,
        x % m == 0,
    ensures
        x == (x / m) * m,
        x / m >= 0,
{
    assert(x == (x / m) * m && x / m >= 0) by (nonlinear_arith)
        requires
            m >= 1,
            x >= 0,
            x % m == 0,
    ;
}

/// Multiples of `m` are ordered as their factors.
pub proof fn factors(a: int, b: int, m: int)
    requires
        m >= 1,
        a * m <= b * m,
    ensures
        a <= b,
{
    assert(a <= b) by (nonlinear_arith)
        requires
            m >= 1,
            a * m <= b * m,
    ;
}

/// Where byte `t` of word `x` lies, seen from the words `first` to
/// `first + k`.
pub proof fn word_span(x: int, first: int, k: int, w: int, t: int)
    requires
        w >= 1,
        0 <= t < w,
        0 <= first,
        0 <= k,
    ensures
        x < first ==> x * w + t < first * w,
        x >= first + k ==> x * w + t >= first * w + k * w,
        first <= x < first + k ==> first * w <= x * w + t < first * w + k * w && x * w + t
            - first * w == (x - first) * w + t,
{
    assert((x < first ==> x * w + t < first * w) && (x >= first + k ==> x * w + t >= first * w + k
        * w) && (first <= x < first + k ==> first * w <= x * w + t < first * w + k * w && x * w
        + t - first * w == (x - first) * w + t)) by (nonlinear_arith)
        requires
            w >= 1,
            0 <= t < w,
            0 <= first,
            0 <= k,
    ;
}

/// A byte of ones takes any byte, and any byte takes a zero.
pub proof fn bits_clear(o: u8, d: u8)
    ensures
        o == 0xFFu8 ==> (o & d) == d,
        d == 0u8 ==> (o & d) == d,
{
    assert(o == 0xFFu8 ==> (o & d) == d) by (bit_vector);
    assert(d == 0u8 ==> (o & d) == d) by (bit_vector);
}

/// A fair write leaves the rule kept, however many of its words are done.
pub proof fn rule_after_write(
    bytes: Seq<u8>,
    counts: Seq<u8>,
    w: int,
    rewrites: bool,
    first: int,
    done: int,
    data: Seq<u8>,
)
    requires
        kept_rule(bytes, counts, w),
        0 <= first,
        fair(bytes, w, rewrites, first * w, data),
        0 <= done,
        done * w <= data.len(),
        bytes.len() == counts.len() * w,
    ensures
        kept_rule(
            splice(bytes, first * w, data.subrange(0, done * w)),
            programmed(counts, first, done, data, w),
            w,
        ),
{
    let after = splice(bytes, first * w, data.subrange(0, done * w));
    let marks = programmed(counts, first, done, data, w);
    assert forall|x: int| 0 <= x < marks.len() implies {
        &&& all_ones(#[trigger] word_of(after, x, w)) ==> marks[x] == 0
        &&& !all_zeros(word_of(after, x, w)) ==> marks[x] <= 1
    } by {
        assert(x * w + w <= bytes.len()) by (nonlinear_arith)
            requires
                0 <= x < counts.len(),
                bytes.len() == counts.len() * w,
                w >= 1,
        ;
        if first <= x < first + done {
            let piece = word_of(data, x - first, w);
            assert(0 <= (x - first) * w && (x - first) * w + w <= done * w) by (nonlinear_arith)
                requires
                    first <= x < first + done,
                    w >= 1,
            ;
            assert forall|t: int| 0 <= t < w implies word_of(after, x, w)[t] == piece[t] by {
                word_span(x, first, done, w, t);
                let at = x * w + t;
                assert(after[at] == data.subrange(0, done * w)[at - first * w]);
                assert(piece[t] == data[(x - first) * w + t]);
            }
            assert(word_of(after, x, w) =~= piece);
            let was = word_of(bytes, x, w);
            if all_ones(bytes.subrange(first * w, first * w + data.len())) {
                let blank = bytes.subrange(first * w, first * w + data.len());
                assert forall|t: int| 0 <= t < w implies was[t] == 0xFFu8 by {
                    word_span(x, first, done, w, t);
                    assert(was[t] == blank[x * w + t - first * w]);
                }
                assert(all_ones(was));
            } else {
                // One word of zeros over a word that is not zero.
                assert(done * w <= w);
                assert(done == 1 && x == first) by (nonlinear_arith)
                    requires
                        done * w <= w,
                        w >= 1,
                        first <= x < first + done,
                ;
                assert(was =~= bytes.subrange(first * w, first * w + w));
                assert(piece =~= data);
                assert(piece[0] == 0u8);
                assert(!all_ones(piece));
                assert(all_zeros(word_of(after, x, w)));
            }
        } else {
            assert forall|t: int| 0 <= t < w implies word_of(after, x, w)[t] == word_of(
                bytes,
                x,
                w,
            )[t] by {
                word_span(x, first, done, w, t);
            }
            assert(word_of(after, x, w) =~= word_of(bytes, x, w));
        }
    }
}

/// An erasure leaves the rule kept, however many of its words are done.
pub proof fn rule_after_erase(bytes: Seq<u8>, counts: Seq<u8>, w: int, first: int, done: int)
    requires
        kept_rule(bytes, counts, w),
        w >= 1,
        0 <= first,
        0 <= done,
        first * w + done * w <= bytes.len(),
        bytes.len() == counts.len() * w,
    ensures
        kept_rule(
            wipe(bytes, first * w, first * w + done * w),
            cleared(counts, first, done),
            w,
        ),
{
    let after = wipe(bytes, first * w, first * w + done * w);
    let marks = cleared(counts, first, done);
    assert forall|x: int| 0 <= x < marks.len() implies {
        &&& all_ones(#[trigger] word_of(after, x, w)) ==> marks[x] == 0
        &&& !all_zeros(word_of(after, x, w)) ==> marks[x] <= 1
    } by {
        assert(x * w + w <= bytes.len()) by (nonlinear_arith)
            requires
                0 <= x < counts.len(),
                bytes.len() == counts.len() * w,
                w >= 1,
        ;
        if !(first <= x < first + done) {
            assert forall|t: int| 0 <= t < w implies word_of(after, x, w)[t] == word_of(
                bytes,
                x,
                w,
            )[t] by {
                word_span(x, first, done, w, t);
            }
            assert(word_of(after, x, w) =~= word_of(bytes, x, w));
        }
    }
}

impl MockFlash {
    /// A blank device of `pages` pages, each of `words_per_page` words of
    /// `word_size` bytes, on which no word has been programmed. With `fuel`
    /// set, the power fails once that many words have been programmed or
    /// erased; afterwards the device works on without limit.
    pub fn new(
        pages: u32,
        word_size: u32,
        words_per_page: u32,
        policy: WriteCountCheck,
        fuel: Option<u32>,
    ) -> (f: MockFlash)
        requires
            pages >= 1,
            word_size >= 1,
            words_per_page >= 1,
            pages * words_per_page * word_size <= u32::MAX,
        ensures
            f.sound(),
            f.word() == word_size,
            f.page() == words_per_page * word_size,
            f.contents().len() == pages * words_per_page * word_size,
            all_ones(f.contents()),
            f.counts().len() == pages * words_per_page,
            forall|w: int| 0 <= w < f.counts().len() ==> f.counts()[w] == 0,
            f.policy() == policy,
            f.fuel_left() == fuel,
            f.losses() == 0,
            f.reserve() == match fuel {
                None => None::<nat>,
                Some(n) => Some((n * word_size) as nat),
            },
            f.tidy(),
    {
        proof {
            assert(words_per_page * word_size <= pages * words_per_page * word_size
                && pages * words_per_page <= pages * words_per_page * word_size
                && (pages * words_per_page) * word_size == pages * (words_per_page * word_size)
                && words_per_page * word_size >= 1) by (nonlinear_arith)
                requires
                    word_size >= 1,
                    words_per_page >= 1,
                    pages >= 1,
            ;
        }
        let page: u32 = words_per_page * word_size;
        let words: u32 = pages * words_per_page;
        let total: u32 = words * word_size;
        let f = MockFlash {
            data: vec![0xFFu8; total as usize],
            writes: vec![0u8; words as usize],
            word: word_size,
            page,
            policy,
            fuel,
            losses: Ghost(0),
        };
        proof {
            assert(total == pages * page);
            multiples(pages as int, 0, page as int);
            multiples(words_per_page as int, 0, word_size as int);
            assert(kept_rule(f.data@, f.writes@, word_size as int));
            reveal(reserve_of);
        }
        f
    }

    /// Words that can still be programmed or erased before the power fails.
    pub closed spec fn fuel_left(&self) -> Option<u32> {
        self.fuel
    }

    /// For each word, how often it was programmed since its page was erased.
    pub closed spec fn counts(&self) -> Seq<u8> {
        self.writes@
    }

    /// How often the device lets a word be programmed.
    pub closed spec fn policy(&self) -> WriteCountCheck {
        self.policy
    }

    /// The device takes byte `i` of `data` at `offset`: the byte sets no bit,
    /// and its word may still be programmed.
    pub open spec fn takes_byte(&self, offset: int, data: Seq<u8>, i: int) -> bool {
        (self.contents()[offset + i] & data[i]) == data[i] && may_program(
            self.policy(),
            self.counts()[(offset + i) / (self.word() as int)],
        )
    }

    /// The device takes `data` at `offset`.
    pub open spec fn takes(&self, offset: int, data: Seq<u8>) -> bool {
        forall|i: int| 0 <= i < data.len() ==> self.takes_byte(offset, data, i)
    }

    /// What `write` answers.
    pub open spec fn write_answer(&self, offset: u32, data: Seq<u8>) -> Result<(), FlashError> {
        let word = self.word() as int;
        if offset + data.len() > self.contents().len() {
            Err(FlashError::OutOfBounds)
        } else if (offset as int) % word != 0 || (data.len() as int) % word != 0 {
            Err(FlashError::NotAligned)
        } else if !self.takes(offset as int, data) {
            Err(FlashError::WriteError)
        } else if self.fuel_left() is Some && self.fuel_left().unwrap() < (data.len() as int)
            / word {
            Err(FlashError::EarlyShutoff((offset + self.fuel_left().unwrap() * word) as u32))
        } else {
            Ok(())
        }
    }

    /// What `erase` answers.
    pub open spec fn erase_answer(&self, offset: u32) -> Result<(), FlashError> {
        let word = self.word() as int;
        let page = self.page() as int;
        if offset + page > self.contents().len() {
            Err(FlashError::OutOfBounds)
        } else if (offset as int) % page != 0 {
            Err(FlashError::NotAligned)
        } else if self.fuel_left() is Some && self.fuel_left().unwrap() < page / word {
            Err(FlashError::EarlyShutoff((offset + self.fuel_left().unwrap() * word) as u32))
        } else {
            Ok(())
        }
    }

    /// The number of words in `len` bytes.
    pub open spec fn words_in(&self, len: nat) -> int {
        (len as int) / (self.word() as int)
    }

    /// The index of the word at `offset`.
    pub open spec fn word_at(&self, offset: u32) -> int {
        (offset as int) / (self.word() as int)
    }

    /// The words that an operation on `words` words got done before it ended
    /// with `r`.
    pub open spec fn done_words(&self, words: int, r: Result<(), FlashError>) -> int {
        match r {
            Ok(()) => words,
            Err(FlashError::EarlyShutoff(_)) => self.fuel_left().unwrap() as int,
            Err(_) => 0,
        }
    }

    /// Sets how many words can be programmed or erased before the power
    /// fails; `None` lifts the limit.
    pub fn set_fuel(&mut self, fuel: Option<u32>)
        requires
            old(self).sound(),
        ensures
            final(self).sound(),
            final(self).word() == old(self).word(),
            final(self).page() == old(self).page(),
            final(self).contents() == old(self).contents(),
            final(self).counts() == old(self).counts(),
            final(self).policy() == old(self).policy(),
            final(self).fuel_left() == fuel,
            final(self).reserve() == match fuel {
                None => None::<nat>,
                Some(n) => Some((n * old(self).word()) as nat),
            },
            final(self).losses() == old(self).losses(),
            final(self).tidy() == old(self).tidy(),
            final(self).rewrites() == old(self).rewrites(),
    {
        self.fuel = fuel;
        proof {
            reveal(reserve_of);
        }
    }

    /// A copy of the device's bytes.
    pub fn snapshot(&self) -> (v: Vec<u8>)
        ensures
            v@ == self.contents(),
    {
        self.data.clone()
    }

    /// Takes one unit of fuel. Says `false` when the power fails instead.
    fn burn(&mut self) -> (alive: bool)
        ensures
            final(self).data == old(self).data,
            final(self).writes == old(self).writes,
            final(self).word == old(self).word,
            final(self).page == old(self).page,
            final(self).policy == old(self).policy,
            final(self).losses@ == old(self).losses@ + if alive {
                0nat
            } else {
                1nat
            },
            alive == (old(self).fuel != Some(0u32)),
            final(self).fuel == match old(self).fuel {
                None => None,
                Some(n) => if n == 0 {
                    None
                } else {
                    Some((n - 1) as u32)
                },
            },
    {
        match self.fuel {
            None => true,
            Some(n) => {
                if n == 0 {
                    self.fuel = None;
                    self.losses = Ghost((self.losses@ + 1) as nat);
                    false
                } else {
                    self.fuel = Some(n - 1);
                    true
                }
            },
        }
    }

    /// Whether the device takes `data` at `offset`.
    fn accepts(&self, offset: usize, data: &[u8]) -> (ok: bool)
        requires
            self.sound(),
            offset + data@.len() <= self.data@.len(),
        ensures
            ok == self.takes(offset as int, data@),
    {
        let word: usize = self.word as usize;
        let mut i: usize = 0;
        while i < data.len()
            invariant
                self.sound(),
                word == self.word,
                i <= data@.len(),
                offset + data@.len() <= self.data@.len(),
                forall|j: int| 0 <= j < i ==> self.takes_byte(offset as int, data@, j),
            decreases data@.len() - i,
        {
            let w: usize = (offset + i) / word;
            assert(w < self.writes@.len()) by (nonlinear_arith)
                requires
                    w == (offset + i) / (word as int),
                    offset + i < self.data@.len(),
                    self.data@.len() == self.writes@.len() * word,
                    word > 0,
            ;
            let count: u8 = self.writes[w];
            let free: bool = match self.policy {
                WriteCountCheck::OnceOnly => count < 1,
                WriteCountCheck::Twice => count < 2,
                WriteCountCheck::Disabled => true,
            };
            if self.data[offset + i] & data[i] != data[i] || !free {
                assert(!self.takes_byte(offset as int, data@, i as int));
                return false;
            }
            i += 1;
        }
        true
    }
}

impl MockFlash {
    /// Does what `write` does.
    fn program(&mut self, offset: u32, data: &[u8]) -> (r: Result<(), FlashError>)
        requires
            old(self).sound(),
        ensures
            final(self).sound(),
            final(self).word == old(self).word,
            final(self).page == old(self).page,
            final(self).data@.len() == old(self).data@.len(),
            r == old(self).write_answer(offset, data@),
            tolled(old(self).losses@, final(self).losses@, lost(r)),
            final(self).policy() == old(self).policy(),
            final(self).fuel_left() == fuel_after(
                old(self).fuel_left(),
                old(self).words_in(data@.len()),
                r,
            ),
            final(self).contents() == splice(
                old(self).contents(),
                offset as int,
                data@.subrange(
                    0,
                    old(self).done_words(old(self).words_in(data@.len()), r) * old(self).word(),
                ),
            ),
            final(self).counts() == programmed(
                old(self).counts(),
                old(self).word_at(offset),
                old(self).done_words(old(self).words_in(data@.len()), r),
                data@,
                old(self).word() as int,
            ),
    {
        let n: usize = data.len();
        let off: usize = offset as usize;
        let word: usize = self.word as usize;
        let ghost before = self.data@;
        let ghost counts = self.writes@;
        let ghost fuel = self.fuel;
        proof {
            assert(data@.subrange(0, 0) =~= Seq::<u8>::empty());
            assert(splice(before, off as int, Seq::<u8>::empty()) =~= before);
            assert(programmed(counts, (off as int) / (word as int), 0, data@, word as int) =~= counts);
        }
        if off > self.data.len() || n > self.data.len() - off {
            return Err(FlashError::OutOfBounds);
        }
        if off % word != 0 || n % word != 0 {
            return Err(FlashError::NotAligned);
        }
        if !self.accepts(off, data) {
            return Err(FlashError::WriteError);
        }
        let first: usize = off / word;
        let total: usize = n / word;
        let capacity: usize = self.writes.len();
        proof {
            divides(off as int, word as int);
            divides(n as int, word as int);
            assert((first + total) * word == first * word + total * word) by (nonlinear_arith);
            factors(first + total, self.writes@.len() as int, word as int);
        }
        let mut k: usize = 0;
        while k < total
            invariant
                k <= total,
                n == data@.len(),
                off == offset,
                word == self.word,
                word >= 1,
                off == first * word,
                n == total * word,
                first + total <= self.writes@.len(),
                self.writes@.len() == capacity,
                (off as int) % (word as int) == 0,
                (n as int) % (word as int) == 0,
                off + n <= self.data@.len(),
                self.data@.len() <= u32::MAX,
                first == old(self).word_at(offset),
                total == old(self).words_in(data@.len()),
                old(self).sound(),
                self.word == old(self).word,
                self.page == old(self).page,
                self.policy == old(self).policy,
                self.losses@ == old(self).losses@,
                self.data@.len() == before.len(),
                self.writes@.len() == counts.len(),
                before == old(self).data@,
                counts == old(self).writes@,
                fuel == old(self).fuel,
                old(self).takes(off as int, data@),
                fuel matches Some(f) ==> k <= f && self.fuel == Some((f - k) as u32),
                fuel is None ==> self.fuel is None,
                self.data@ == splice(before, off as int, data@.subrange(0, k * word)),
                self.writes@ == programmed(counts, first as int, k as int, data@, word as int),
            decreases total - k,
        {
            proof {
                multiples(k as int, 0, word as int);
                assert(k * word + word <= total * word) by (nonlinear_arith)
                    requires
                        k < total,
                        word >= 1,
                ;
            }
            let base: usize = k * word;
            if !self.burn() {
                proof {
                    assert(partly_written(
                        old(self).contents(),
                        self.contents(),
                        offset as int,
                        data@,
                        base as int,
                    ));
                    assert(old(self).fuel_left() == Some(k as u32));
                    assert(old(self).write_answer(offset, data@) == Err::<(), FlashError>(
                        FlashError::EarlyShutoff((offset + k * word) as u32),
                    ));
                }
                return Err(FlashError::EarlyShutoff(offset + base as u32));
            }
            let ones: bool = reads_ones(data, base, base + word);
            let count: u8 = self.writes[first + k];
            if !ones && count < u8::MAX {
                self.writes[first + k] = count + 1;
            }
            assert(self.writes@ =~= programmed(counts, first as int, k + 1, data@, word as int));
            let mut j: usize = 0;
            while j < word
                invariant
                    j <= word,
                    base == k * word,
                    base + word <= n,
                    n == data@.len(),
                    off + n <= self.data@.len(),
                    self.data@.len() <= u32::MAX,
                    self.word == old(self).word,
                    self.page == old(self).page,
                    self.policy == old(self).policy,
                    self.losses@ == old(self).losses@,
                self.losses@ == old(self).losses@,
                    self.data@.len() == before.len(),
                    self.writes@ == programmed(counts, first as int, k + 1, data@, word as int),
                    fuel matches Some(f) ==> k < f && self.fuel == Some((f - k - 1) as u32),
                    fuel is None ==> self.fuel is None,
                    self.data@ == splice(before, off as int, data@.subrange(0, base + j)),
                decreases word - j,
            {
                self.data[off + base + j] = data[base + j];
                assert(self.data@ =~= splice(before, off as int, data@.subrange(0, base + j + 1)));
                j += 1;
            }
            k += 1;
        }
        assert(data@.subrange(0, n as int) =~= data@);
        Ok(())
    }


    /// Does what `erase` does.
    fn blank(&mut self, offset: u32) -> (r: Result<(), FlashError>)
        requires
            old(self).sound(),
        ensures
            final(self).sound(),
            final(self).word == old(self).word,
            final(self).page == old(self).page,
            final(self).data@.len() == old(self).data@.len(),
            r == old(self).erase_answer(offset),
            tolled(old(self).losses@, final(self).losses@, lost(r)),
            final(self).policy() == old(self).policy(),
            final(self).fuel_left() == fuel_after(
                old(self).fuel_left(),
                old(self).words_in(old(self).page()),
                r,
            ),
            final(self).contents() == wipe(
                old(self).contents(),
                offset as int,
                offset + old(self).done_words(old(self).words_in(old(self).page()), r)
                    * old(self).word(),
            ),
            final(self).counts() == cleared(
                old(self).counts(),
                old(self).word_at(offset),
                old(self).done_words(old(self).words_in(old(self).page()), r),
            ),
    {
        let off: usize = offset as usize;
        let page: usize = self.page as usize;
        let word: usize = self.word as usize;
        let ghost before = self.data@;
        let ghost counts = self.writes@;
        let ghost fuel = self.fuel;
        proof {
            assert(wipe(before, off as int, off as int) =~= before);
            assert(cleared(counts, (off as int) / (word as int), 0) =~= counts);
        }
        if off > self.data.len() || page > self.data.len() - off {
            return Err(FlashError::OutOfBounds);
        }
        if off % page != 0 {
            return Err(FlashError::NotAligned);
        }
        let total: usize = page / word;
        proof {
            divides(page as int, word as int);
            divides(off as int, page as int);
            let q = (off as int) / (page as int);
            assert(off == (q * total) * word) by (nonlinear_arith)
                requires
                    off == q * page,
                    page == total * word,
            ;
            multiples(q * total, 0, word as int);
            divides(off as int, word as int);
        }
        let first: usize = off / word;
        let capacity: usize = self.writes.len();
        proof {
            assert((first + total) * word == first * word + total * word) by (nonlinear_arith);
            factors(first + total, self.writes@.len() as int, word as int);
        }
        let mut k: usize = 0;
        while k < total
            invariant
                k <= total,
                off == offset,
                word == self.word,
                word >= 1,
                page == self.page,
                off == first * word,
                page == total * word,
                first + total <= self.writes@.len(),
                self.writes@.len() == capacity,
                (off as int) % (page as int) == 0,
                off + page <= self.data@.len(),
                self.data@.len() <= u32::MAX,
                first == old(self).word_at(offset),
                total == old(self).words_in(old(self).page()),
                old(self).sound(),
                self.word == old(self).word,
                self.page == old(self).page,
                self.policy == old(self).policy,
                self.losses@ == old(self).losses@,
                self.data@.len() == before.len(),
                self.writes@.len() == counts.len(),
                before == old(self).data@,
                counts == old(self).writes@,
                fuel == old(self).fuel,
                fuel matches Some(f) ==> k <= f && self.fuel == Some((f - k) as u32),
                fuel is None ==> self.fuel is None,
                self.data@ == wipe(before, off as int, off + k * word),
                self.writes@ == cleared(counts, first as int, k as int),
            decreases total - k,
        {
            proof {
                multiples(k as int, 0, word as int);
                assert(k * word + word <= total * word) by (nonlinear_arith)
                    requires
                        k < total,
                        word >= 1,
                ;
            }
            let base: usize = k * word;
            if !self.burn() {
                proof {
                    assert(partly_wiped(before, self.data@, off as int, off + page));
                    assert(old(self).fuel_left() == Some(k as u32));
                    assert(old(self).erase_answer(offset) == Err::<(), FlashError>(
                        FlashError::EarlyShutoff((offset + k * word) as u32),
                    ));
                }
                return Err(FlashError::EarlyShutoff(offset + base as u32));
            }
            self.writes[first + k] = 0;
            assert(self.writes@ =~= cleared(counts, first as int, k + 1));
            let mut j: usize = 0;
            while j < word
                invariant
                    j <= word,
                    base == k * word,
                    base + word <= page,
                    off + page <= self.data@.len(),
                    self.data@.len() <= u32::MAX,
                    self.word == old(self).word,
                    self.page == old(self).page,
                    self.policy == old(self).policy,
                    self.losses@ == old(self).losses@,
                self.losses@ == old(self).losses@,
                    self.data@.len() == before.len(),
                    self.writes@ == cleared(counts, first as int, k + 1),
                    fuel matches Some(f) ==> k < f && self.fuel == Some((f - k - 1) as u32),
                    fuel is None ==> self.fuel is None,
                    self.data@ == wipe(before, off as int, off + base + j),
                decreases word - j,
            {
                self.data[off + base + j] = 0xFF;
                assert(self.data@ =~= wipe(before, off as int, off + base + j + 1));
                j += 1;
            }
            k += 1;
        }
        Ok(())
    }
    /// A device that keeps the rule takes every fair write.
    proof fn fair_taken(&self, offset: u32, data: Seq<u8>)
        requires
            self.sound(),
            self.tidy(),
            fair(self.contents(), self.word() as int, self.rewrites(), offset as int, data),
        ensures
            self.takes(offset as int, data),
    {
        let w = self.word as int;
        let bytes = self.data@;
        let first = (offset as int) / w;
        divides(offset as int, w);
        divides(data.len() as int, w);
        let words = (data.len() as int) / w;
        assert forall|i: int| 0 <= i < data.len() implies self.takes_byte(offset as int, data, i) by {
            let q = i / w;
            let t = i % w;
            assert(i == q * w + t && 0 <= t < w && 0 <= q < words) by (nonlinear_arith)
                requires
                    0 <= i < words * w,
                    w >= 1,
                    q == i / w,
                    t == i % w,
            ;
            let x = first + q;
            word_span(x, first, words, w, t);
            multiples(x, t, w);
            assert((offset + i) / w == x);
            assert(x * w + w <= bytes.len()) by (nonlinear_arith)
                requires
                    x * w + t < first * w + words * w,
                    first * w + words * w <= bytes.len(),
                    0 <= t < w,
                    x >= 0,
                    w >= 1,
                    (x * w + t - first * w) == (x - first) * w + t,
                    x - first < words,
            ;
            assert(x < self.writes@.len()) by (nonlinear_arith)
                requires
                    x * w + w <= bytes.len(),
                    bytes.len() == self.writes@.len() * w,
                    w >= 1,
            ;
            bits_clear(bytes[offset + i], data[i]);
            let was = word_of(bytes, x, w);
            if all_ones(bytes.subrange(offset as int, offset + data.len())) {
                let blank = bytes.subrange(offset as int, offset + data.len());
                assert(bytes[offset + i] == blank[i]);
                assert forall|u: int| 0 <= u < w implies was[u] == 0xFFu8 by {
                    word_span(x, first, words, w, u);
                    assert(was[u] == blank[x * w + u - first * w]);
                }
                assert(all_ones(was));
            } else {
                assert(words == 1 && q == 0) by (nonlinear_arith)
                    requires
                        words * w == w,
                        w >= 1,
                        0 <= q < words,
                ;
                assert(was =~= bytes.subrange(offset as int, offset + w));
                assert(data[i] == 0u8);
            }
        }
    }
}

/// Whether the bytes `data[from..to]` are all ones.
fn reads_ones(data: &[u8], from: usize, to: usize) -> (r: bool)
    requires
        from <= to <= data@.len(),
    ensures
        r == all_ones(data@.subrange(from as int, to as int)),
{
    let ghost piece = data@.subrange(from as int, to as int);
    let mut i: usize = from;
    while i < to
        invariant
            from <= i <= to <= data@.len(),
            piece == data@.subrange(from as int, to as int),
            forall|j: int| 0 <= j < i - from ==> piece[j] == 0xFFu8,
        decreases to - i,
    {
        if data[i] != 0xFF {
            assert(piece[i - from] != 0xFFu8);
            return false;
        }
        i += 1;
    }
    true
}

impl NorFlash for MockFlash {
    /// A word can be programmed a second time unless the device lets every
    /// word be programmed once only.
    open spec fn rewrites(&self) -> bool {
        self.policy() != WriteCountCheck::OnceOnly
    }

    /// The device keeps the rule of fair writes.
    closed spec fn tidy(&self) -> bool {
        kept_rule(self.data@, self.writes@, self.word as int)
    }

    closed spec fn losses(&self) -> nat {
        self.losses@
    }

    open spec fn mends(&self) -> bool {
        true
    }

    open spec fn reserve(&self) -> Option<nat> {
        reserve_of(self.fuel_left(), self.word())
    }

    closed spec fn contents(&self) -> Seq<u8> {
        self.data@
    }

    closed spec fn word(&self) -> nat {
        self.word as nat
    }

    closed spec fn page(&self) -> nat {
        self.page as nat
    }

    /// The device refuses a write that leaves it, that is not made of whole
    /// words, or that holds a byte it does not take.
    open spec fn write_refusal(&self, offset: u32, data: Seq<u8>) -> Option<FlashError> {
        match self.write_answer(offset, data) {
            Ok(()) => None,
            Err(e) => if e is EarlyShutoff {
                None
            } else {
                Some(e)
            },
        }
    }

    /// The device refuses to erase what is not a page of it.
    open spec fn erase_refusal(&self, offset: u32) -> Option<FlashError> {
        match self.erase_answer(offset) {
            Ok(()) => None,
            Err(e) => if e is EarlyShutoff {
                None
            } else {
                Some(e)
            },
        }
    }

    closed spec fn sound(&self) -> bool {
        &&& self.word >= 1
        &&& self.page >= 1
        &&& (self.page as int) % (self.word as int) == 0
        &&& self.data@.len() <= u32::MAX
        &&& self.data@.len() == self.writes@.len() * self.word
        &&& (self.data@.len() as int) % (self.page as int) == 0
    }

    fn word_size(&self) -> (w: u32) {
        self.word
    }

    fn page_size(&self) -> (p: u32) {
        self.page
    }

    fn capacity(&self) -> (c: u32) {
        self.data.len() as u32
    }

    fn read(&self, offset: u32, buf: &mut [u8]) -> (r: Result<(), FlashError>) {
        let n: usize = buf.len();
        let off: usize = offset as usize;
        if off > self.data.len() || n > self.data.len() - off {
            return Err(FlashError::OutOfBounds);
        }
        let mut i: usize = 0;
        while i < n
            invariant
                i <= n,
                n == buf@.len(),
                off + n <= self.data@.len(),
                self.data@.len() <= usize::MAX,
                forall|j: int| 0 <= j < i ==> buf@[j] == self.data@[off + j],
            decreases n - i,
        {
            buf[i] = self.data[off + i];
            i += 1;
        }
        assert(buf@ =~= self.contents().subrange(offset as int, offset + n));
        Ok(())
    }

    /// Programs `data` at `offset`, word by word. Refuses, and changes
    /// nothing, where the range leaves the device, is not made of whole
    /// words, or holds a byte that the device does not take. Each word costs
    /// one unit of fuel; where the fuel runs out the power fails before the
    /// next word.
    #[verifier::spinoff_prover]
    fn write(&mut self, offset: u32, data: &[u8]) -> (r: Result<(), FlashError>)
        ensures
            r == old(self).write_answer(offset, data@),
            final(self).policy() == old(self).policy(),
            final(self).fuel_left() == fuel_after(
                old(self).fuel_left(),
                old(self).words_in(data@.len()),
                r,
            ),
            final(self).contents() == splice(
                old(self).contents(),
                offset as int,
                data@.subrange(
                    0,
                    old(self).done_words(old(self).words_in(data@.len()), r) * old(self).word(),
                ),
            ),
            final(self).counts() == programmed(
                old(self).counts(),
                old(self).word_at(offset),
                old(self).done_words(old(self).words_in(data@.len()), r),
                data@,
                old(self).word() as int,
            ),
    {
        let r = self.program(offset, data);
        proof {
            let w = old(self).word as int;
            let words = old(self).words_in(data@.len());
            let done = old(self).done_words(words, r);
            let bytes = old(self).data@;
            if offset + data@.len() <= bytes.len() && (offset as int) % w == 0 && (
            data@.len() as int) % w == 0 {
                divides(offset as int, w);
                divides(data@.len() as int, w);
                if r is Ok {
                    assert(data@.subrange(0, data@.len() as int) =~= data@);
                } else if r matches Err(e) && e is EarlyShutoff {
                    let f = old(self).fuel.unwrap() as int;
                    multiples(f, 0, w);
                    assert(f * w <= words * w) by (nonlinear_arith)
                        requires
                            0 <= f < words,
                            w >= 1,
                    ;
                    assert(partly_written(bytes, self.data@, offset as int, data@, f * w));
                }
                if old(self).tidy() && fair(bytes, w, old(self).rewrites(), offset as int, data@) {
                    old(self).fair_taken(offset, data@);
                    assert(0 <= done && done * w <= data@.len()) by (nonlinear_arith)
                        requires
                            0 <= done <= words,
                            words * w == data@.len(),
                            w >= 1,
                    ;
                    rule_after_write(
                        bytes,
                        old(self).writes@,
                        w,
                        old(self).rewrites(),
                        (offset as int) / w,
                        done,
                        data@,
                    );
                }
            }
            if r matches Err(e) && !(e is EarlyShutoff) {
                assert(data@.subrange(0, 0) =~= Seq::<u8>::empty());
                assert(splice(bytes, offset as int, Seq::<u8>::empty()) =~= bytes);
            }
            reserve_after(old(self).fuel, w, data@.len() as int, r);
        }
        r
    }

    /// Erases the page at `offset`, word by word. Refuses, and changes
    /// nothing, where the page leaves the device or `offset` is not the start
    /// of a page. Each word costs one unit of fuel; where the fuel runs out
    /// the power fails before the next word.
    #[verifier::spinoff_prover]
    fn erase(&mut self, offset: u32) -> (r: Result<(), FlashError>)
        ensures
            r == old(self).erase_answer(offset),
            final(self).policy() == old(self).policy(),
            final(self).fuel_left() == fuel_after(
                old(self).fuel_left(),
                old(self).words_in(old(self).page()),
                r,
            ),
            final(self).contents() == wipe(
                old(self).contents(),
                offset as int,
                offset + old(self).done_words(old(self).words_in(old(self).page()), r)
                    * old(self).word(),
            ),
            final(self).counts() == cleared(
                old(self).counts(),
                old(self).word_at(offset),
                old(self).done_words(old(self).words_in(old(self).page()), r),
            ),
    {
        let r = self.blank(offset);
        proof {
            let w = old(self).word as int;
            let page = old(self).page as int;
            let words = old(self).words_in(old(self).page());
            let done = old(self).done_words(words, r);
            let bytes = old(self).data@;
            let first = (offset as int) / w;
            if offset + page <= bytes.len() && (offset as int) % page == 0 {
                divides(page, w);
                divides(offset as int, page);
                let q = (offset as int) / page;
                assert(offset == (q * words) * w) by (nonlinear_arith)
                    requires
                        offset == q * page,
                        page == words * w,
                ;
                multiples(q * words, 0, w);
                divides(offset as int, w);
                assert(0 <= done && first * w + done * w <= bytes.len()) by (nonlinear_arith)
                    requires
                        0 <= done <= words,
                        words * w == page,
                        first * w == offset,
                        offset + page <= bytes.len(),
                        w >= 1,
                ;
                assert(done * w <= page) by (nonlinear_arith)
                    requires
                        0 <= done <= words,
                        words * w == page,
                        w >= 1,
                ;
                assert(done * old(self).word() == done * w);
                assert(self.data@ == wipe(bytes, offset as int, offset + done * w));
                assert(self.writes@ == cleared(old(self).writes@, first, done));
                if old(self).tidy() {
                    rule_after_erase(bytes, old(self).writes@, w, first, done);
                    assert(self.tidy());
                }
                if lost(r) {
                    assert(partly_wiped(bytes, self.data@, offset as int, offset + page));
                }
            } else {
                assert(done == 0);
                let wn = old(self).word();
                assert(done * wn == 0) by (nonlinear_arith)
                    requires
                        done == 0,
                ;
                assert(wipe(bytes, offset as int, offset as int) =~= bytes);
                assert(cleared(old(self).writes@, first, 0) =~= old(self).writes@);
                assert(self.data@ == bytes);
                assert(self.writes@ == old(self).writes@);
            }
            divides(page, w);
            reserve_after(old(self).fuel, w, page, r);
        }
        r
    }

}

} // verus!
