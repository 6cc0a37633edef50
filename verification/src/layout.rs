//! Where the store's pages lie on the device, and page-relative access to
//! them.

use crate::flash::{
    all_ones, answers, fair, lost, mended, partly_wiped, partly_written, refused, spared, splice,
    tolled, FlashError, NorFlash,
};
use crate::mock::{divides, multiples};
use std::ops::Range;
use vstd::prelude::*;

verus! {

/// The pages of a store: `pages` pages of `page` bytes from address `base` on,
/// programmed in words of `word` bytes.
#[derive(Clone, Copy, Debug, PartialEq, Eq, Structural)]
pub struct Layout {
    pub base: u32,
    pub word: u32,
    pub page: u32,
    pub pages: u32,
}

/// What `region` answers for a device with the given word size, page size and
/// capacity, asked for the byte range `[start, end)`.
///
/// The range must start and end on a page boundary, lie inside the device and
/// hold at least two pages; a page must hold at least two whole words.
pub open spec fn region_spec(word: nat, page: nat, capacity: nat, start: nat, end: nat) -> Result<
    Layout,
    FlashError,
> {
    if word == 0 || page < 2 * word || page % word != 0 {
        Err(FlashError::NotAligned)
    } else if start % page != 0 || end % page != 0 {
        Err(FlashError::NotAligned)
    } else if start > end || end > capacity || (end - start) / (page as int) < 2 {
        Err(FlashError::OutOfBounds)
    } else {
        Ok(
            Layout {
                base: start as u32,
                word: word as u32,
                page: page as u32,
                pages: ((end - start) / (page as int)) as u32,
            },
        )
    }
}

/// Checks a byte range of a device and describes the pages it holds.
pub fn region<F: NorFlash>(flash: &F, range: Range<u32>) -> (r: Result<Layout, FlashError>)
    requires
        flash.sound(),
    ensures
        r == region_spec(
            flash.word(),
            flash.page(),
            flash.contents().len(),
            range.start as nat,
            range.end as nat,
        ),
        r matches Ok(l) ==> l.on(flash),
{
    let word: u32 = flash.word_size();
    let page: u32 = flash.page_size();
    let capacity: u32 = flash.capacity();
    if word == 0 || page / 2 < word {
        return Err(FlashError::NotAligned);
    }
    if page % word != 0 {
        return Err(FlashError::NotAligned);
    }
    if range.start % page != 0 || range.end % page != 0 {
        return Err(FlashError::NotAligned);
    }
    if range.start > range.end || range.end > capacity {
        return Err(FlashError::OutOfBounds);
    }
    let pages: u32 = (range.end - range.start) / page;
    if pages < 2 {
        return Err(FlashError::OutOfBounds);
    }
    proof {
        let span = (range.end - range.start) as int;
        assert(pages * page <= span) by (nonlinear_arith)
            requires
                pages == span / (page as int),
                page > 0,
                span >= 0,
        ;
    }
    Ok(Layout { base: range.start, word, page, pages })
}

impl Layout {
    /// The numbers describe a usable store.
    pub open spec fn wf(&self) -> bool {
        &&& self.word >= 1
        &&& self.page >= 2 * self.word
        &&& self.page % self.word == 0
        &&& self.pages >= 2
        &&& self.base % self.page == 0
        &&& self.base + self.pages * self.page <= u32::MAX
    }

    /// The layout is usable and describes pages of the device `flash`.
    pub open spec fn on<F: NorFlash>(&self, flash: &F) -> bool {
        &&& self.wf()
        &&& flash.sound()
        &&& flash.word() == self.word
        &&& flash.page() == self.page
        &&& self.base + self.pages * self.page <= flash.contents().len()
    }

    /// The address at which page `p` starts.
    pub open spec fn start_of(&self, p: int) -> int {
        self.base + p * self.page
    }

    /// The bytes of page `p` in the device contents `contents`.
    pub open spec fn page_at(&self, contents: Seq<u8>, p: int) -> Seq<u8> {
        contents.subrange(self.start_of(p), self.start_of(p) + self.page)
    }

    /// The page that follows `p` in the ring.
    pub open spec fn succ(&self, p: int) -> int {
        if p + 1 >= self.pages {
            0
        } else {
            p + 1
        }
    }

    /// The page that precedes `p` in the ring.
    pub open spec fn pred(&self, p: int) -> int {
        if p <= 0 {
            self.pages - 1
        } else {
            p - 1
        }
    }

    /// Page `p` lies inside the region.
    pub proof fn page_span(&self, p: int)
        requires
            self.wf(),
            0 <= p < self.pages,
        ensures
            self.base <= self.start_of(p),
            self.start_of(p) + self.page <= self.base + self.pages * self.page,
    {
        let page = self.page as int;
        let pages = self.pages as int;
        assert(p * page + page <= pages * page && p * page >= 0) by (nonlinear_arith)
            requires
                0 <= p < pages,
                page > 0,
        ;
    }

    /// Every page starts at a page boundary of the device, which is a word
    /// boundary too.
    pub proof fn page_aligned(&self, p: int)
        requires
            self.wf(),
            0 <= p < self.pages,
        ensures
            self.start_of(p) % (self.page as int) == 0,
            self.start_of(p) % (self.word as int) == 0,
    {
        let page = self.page as int;
        let word = self.word as int;
        let base = self.base as int;
        divides(base, page);
        divides(page, word);
        let q = base / page + p;
        let k = page / word;
        assert(self.start_of(p) == q * page) by (nonlinear_arith)
            requires
                self.start_of(p) == base + p * page,
                base == (base / page) * page,
                q == base / page + p,
        ;
        assert(q * page == (q * k) * word) by (nonlinear_arith)
            requires
                page == k * word,
        ;
        assert(q >= 0 && q * k >= 0) by (nonlinear_arith)
            requires
                base / page >= 0,
                p >= 0,
                k >= 0,
                q == base / page + p,
        ;
        multiples(q, 0, page);
        multiples(q * k, 0, word);
    }

    /// A page of the region has `page` bytes.
    pub proof fn page_len(&self, contents: Seq<u8>, p: int)
        requires
            self.wf(),
            0 <= p < self.pages,
            self.base + self.pages * self.page <= contents.len(),
        ensures
            self.page_at(contents, p).len() == self.page,
    {
        self.page_span(p);
    }

    /// Two different pages do not overlap.
    pub proof fn pages_apart(&self, p: int, q: int)
        requires
            self.wf(),
            0 <= p < q,
        ensures
            self.start_of(p) + self.page <= self.start_of(q),
    {
        let page = self.page as int;
        assert(p * page + page <= q * page) by (nonlinear_arith)
            requires
                0 <= p < q,
                page > 0,
        ;
    }

    /// The page after `p` in the ring.
    pub fn next_page(&self, p: u32) -> (q: u32)
        requires
            self.wf(),
            p < self.pages,
        ensures
            q == self.succ(p as int),
            q < self.pages,
    {
        if p + 1 >= self.pages {
            0
        } else {
            p + 1
        }
    }

    /// The page before `p` in the ring.
    pub fn prev_page(&self, p: u32) -> (q: u32)
        requires
            self.wf(),
            p < self.pages,
        ensures
            q == self.pred(p as int),
            q < self.pages,
    {
        if p == 0 {
            self.pages - 1
        } else {
            p - 1
        }
    }

    /// The address at which page `p` starts.
    pub fn page_start(&self, p: u32) -> (a: u32)
        requires
            self.wf(),
            p < self.pages,
        ensures
            a == self.start_of(p as int),
            a + self.page <= u32::MAX,
    {
        proof {
            self.page_span(p as int);
        }
        self.base + p * self.page
    }

    /// The page that holds address `addr`, if the region holds it.
    pub fn page_of(&self, addr: u32) -> (r: Option<u32>)
        requires
            self.wf(),
        ensures
            match r {
                Some(p) => p < self.pages && self.start_of(p as int) <= addr < self.start_of(
                    p as int,
                ) + self.page,
                None => addr < self.base || addr >= self.base + self.pages * self.page,
            },
    {
        if addr < self.base {
            return None;
        }
        let rel: u32 = addr - self.base;
        let p: u32 = rel / self.page;
        proof {
            let page = self.page as int;
            assert(p * page <= rel < p * page + page) by (nonlinear_arith)
                requires
                    p == (rel as int) / page,
                    page > 0,
                    rel >= 0,
            ;
            if p >= self.pages {
                assert(p * page >= self.pages * page) by (nonlinear_arith)
                    requires
                        p >= self.pages,
                        page > 0,
                ;
            } else {
                self.page_span(p as int);
            }
        }
        if p >= self.pages {
            None
        } else {
            Some(p)
        }
    }

    /// The addresses `[from, to)` of the part of page `p` that holds items:
    /// all of it but the two marker words.
    pub fn body_range(&self, p: u32) -> (r: (u32, u32))
        requires
            self.wf(),
            p < self.pages,
        ensures
            r.0 == self.start_of(p as int) + 2 * self.word,
            r.1 == self.start_of(p as int) + self.page,
            r.0 <= r.1,
    {
        let start: u32 = self.page_start(p);
        (start + 2 * self.word, start + self.page)
    }
}

/// The pages other than `p` hold in `after` what they held in `before`.
pub open spec fn others_kept(l: Layout, before: Seq<u8>, after: Seq<u8>, p: int) -> bool {
    forall|q: int| 0 <= q < l.pages
        && q != p ==> #[trigger] l.page_at(after, q) == l.page_at(before, q)
}

/// Reads `len` bytes at offset `off` of page `p` into the front of `buf`.
pub fn read_at<F: NorFlash>(flash: &F, l: &Layout, p: u32, off: u32, buf: &mut [u8], len: usize)
    requires
        l.on(flash),
        p < l.pages,
        off + len <= l.page,
        len <= old(buf)@.len(),
    ensures
        final(buf)@.len() == old(buf)@.len(),
        final(buf)@.subrange(0, len as int) == l.page_at(flash.contents(), p as int).subrange(
            off as int,
            off + len,
        ),
        final(buf)@.subrange(len as int, old(buf)@.len() as int) == old(buf)@.subrange(
            len as int,
            old(buf)@.len() as int,
        ),
{
    let start: u32 = l.page_start(p);
    proof {
        l.page_span(p as int);
    }
    let (head, tail) = buf.split_at_mut(len);
    let r = flash.read(start + off, head);
    proof {
        let c = flash.contents();
        assert(r is Ok);
        assert(c.subrange(start + off, start + off + len) =~= l.page_at(c, p as int).subrange(
            off as int,
            off + len,
        ));
        assert((head@ + tail@).subrange(0, len as int) =~= head@);
        assert((head@ + tail@).subrange(len as int, old(buf)@.len() as int) =~= tail@);
    }
}

/// Programs `data` at offset `off` of page `p`.
pub fn write_at<F: NorFlash>(flash: &mut F, l: &Layout, p: u32, off: u32, data: &[u8]) -> (r:
    Result<(), FlashError>)
    requires
        l.on(old(flash)),
        p < l.pages,
        off + data@.len() <= l.page,
    ensures
        answers(old(flash).write_refusal((l.start_of(p as int) + off) as u32, data@), r),
        final(flash).rewrites() == old(flash).rewrites(),
        tolled(old(flash).losses(), final(flash).losses(), lost(r)),
        mended(
            old(flash).mends(),
            final(flash).mends(),
            final(flash).reserve(),
            lost(r),
        ),
        spared(old(flash).reserve(), final(flash).reserve(), data@.len() as int, lost(r)),
        old(flash).tidy() && fair(
            l.page_at(old(flash).contents(), p as int),
            l.word as int,
            old(flash).rewrites(),
            off as int,
            data@,
        ) ==> !refused(r) && final(flash).tidy(),
        l.on(final(flash)),
        final(flash).contents().len() == old(flash).contents().len(),
        others_kept(*l, old(flash).contents(), final(flash).contents(), p as int),
        r is Ok ==> l.page_at(final(flash).contents(), p as int) == splice(
            l.page_at(old(flash).contents(), p as int),
            off as int,
            data@,
        ),
        r matches Err(e) ==> if e is EarlyShutoff {
            exists|done: int|
                done % (l.word as int) == 0 && #[trigger] partly_written(
                    l.page_at(old(flash).contents(), p as int),
                    l.page_at(final(flash).contents(), p as int),
                    off as int,
                    data@,
                    done,
                )
        } else {
            final(flash).contents() == old(flash).contents()
        },
{
    let start: u32 = l.page_start(p);
    let ghost before = flash.contents();
    proof {
        l.page_span(p as int);
        l.page_aligned(p as int);
        let w = l.word as int;
        let pg = l.page_at(before, p as int);
        if fair(pg, w, flash.rewrites(), off as int, data@) {
            divides(start as int, w);
            divides(off as int, w);
            let a = (start as int) / w + (off as int) / w;
            assert(start + off == a * w) by (nonlinear_arith)
                requires
                    start == ((start as int) / w) * w,
                    off == ((off as int) / w) * w,
                    a == (start as int) / w + (off as int) / w,
            ;
            multiples(a, 0, w);
            assert(before.subrange(start + off, start + off + data@.len()) =~= pg.subrange(
                off as int,
                off + data@.len(),
            ));
            if data@.len() == w {
                assert(before.subrange(start + off, start + off + w) =~= pg.subrange(
                    off as int,
                    off + w,
                ));
            }
        }
    }
    let r = flash.write(start + off, data);
    proof {
        let after = flash.contents();
        let at = (start + off) as int;
        assert forall|done: int|
            0 <= done <= data@.len() && after == splice(
                before,
                at,
                data@.subrange(0, done),
            ) implies l.page_at(after, p as int) == splice(
            l.page_at(before, p as int),
            off as int,
            data@.subrange(0, done),
        ) && others_kept(*l, before, after, p as int) by {
            assert(l.page_at(after, p as int) =~= splice(
                l.page_at(before, p as int),
                off as int,
                data@.subrange(0, done),
            ));
            assert forall|q: int| 0 <= q < l.pages && q != p implies #[trigger] l.page_at(
                after,
                q,
            ) == l.page_at(before, q) by {
                l.page_span(q);
                if q < p {
                    l.pages_apart(q, p as int);
                } else {
                    l.pages_apart(p as int, q);
                }
                assert(l.page_at(after, q) =~= l.page_at(before, q));
            }
        }
        match r {
            Ok(()) => {
                assert(data@.subrange(0, data@.len() as int) =~= data@);
            },
            Err(e) => {
                if e is EarlyShutoff {
                    let done = choose|done: int|
                        done % (l.word as int) == 0 && #[trigger] partly_written(
                            before,
                            after,
                            at,
                            data@,
                            done,
                        );
                    assert(partly_written(
                        l.page_at(before, p as int),
                        l.page_at(after, p as int),
                        off as int,
                        data@,
                        done,
                    ));
                }
            },
        }
    }
    r
}

/// Erases page `p`.
pub fn erase_page<F: NorFlash>(flash: &mut F, l: &Layout, p: u32) -> (r: Result<(), FlashError>)
    requires
        l.on(old(flash)),
        p < l.pages,
    ensures
        answers(old(flash).erase_refusal(l.start_of(p as int) as u32), r),
        !refused(r),
        final(flash).rewrites() == old(flash).rewrites(),
        tolled(old(flash).losses(), final(flash).losses(), lost(r)),
        mended(
            old(flash).mends(),
            final(flash).mends(),
            final(flash).reserve(),
            lost(r),
        ),
        spared(old(flash).reserve(), final(flash).reserve(), l.page as int, lost(r)),
        old(flash).tidy() ==> final(flash).tidy(),
        l.on(final(flash)),
        final(flash).contents().len() == old(flash).contents().len(),
        others_kept(*l, old(flash).contents(), final(flash).contents(), p as int),
        r is Ok ==> all_ones(l.page_at(final(flash).contents(), p as int)),
        r matches Err(e) ==> if e is EarlyShutoff {
            partly_wiped(
                l.page_at(old(flash).contents(), p as int),
                l.page_at(final(flash).contents(), p as int),
                0,
                l.page as int,
            )
        } else {
            final(flash).contents() == old(flash).contents()
        },
{
    let start: u32 = l.page_start(p);
    let ghost before = flash.contents();
    proof {
        l.page_span(p as int);
        l.page_aligned(p as int);
    }
    let r = flash.erase(start);
    proof {
        let after = flash.contents();
        if partly_wiped(before, after, start as int, start + l.page) {
            assert forall|q: int| 0 <= q < l.pages && q != p implies #[trigger] l.page_at(
                after,
                q,
            ) == l.page_at(before, q) by {
                l.page_span(q);
                if q < p {
                    l.pages_apart(q, p as int);
                } else {
                    l.pages_apart(p as int, q);
                }
                assert(l.page_at(after, q) =~= l.page_at(before, q));
            }
            let pb = l.page_at(before, p as int);
            let pa = l.page_at(after, p as int);
            assert forall|i: int| 0 <= i < pb.len() implies #[trigger] pa[i] == pb[i] || (0 <= i
                < l.page && pa[i] == 0xFFu8) by {
                assert(pa[i] == after[start + i]);
                assert(pb[i] == before[start + i]);
            }
        }
    }
    r
}

} // verus!
