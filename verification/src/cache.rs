use vstd::prelude::*;

use std::collections::HashMap;

use crate::stream::ReadSeek;
use crate::stream::SeekFrom;
use crate::stream::StreamError;

verus! {

broadcast use vstd::std_specs::hash::group_hash_axioms;

/// Size of one cache page in bytes.
pub const PAGE_SIZE: u64 = 4096;

/// `PAGE_SIZE` as a buffer length.
pub const PAGE_LEN: usize = 4096;

/// The page-aligned offset of the page holding `off`.
pub open spec fn page_of(off: int) -> int {
    off - off % (PAGE_SIZE as int)
}

/// How many bytes of content a page starting at `page` holds, for a stream of
/// `len` bytes: a full page, or what remains of the content.
pub open spec fn page_fill(len: int, page: int) -> int {
    if len - page < PAGE_SIZE as int {
        len - page
    } else {
        PAGE_SIZE as int
    }
}

/// A fixed-page read cache in front of any seekable byte source. Reads are
/// served from page-aligned, page-sized cache fills; each page is fetched from
/// the wrapped stream at most once and never evicted, so the backing content
/// at a cached offset must never change. The cache holds no position state of
/// its own: its position is the wrapped stream's position.
pub struct CachedReadSeek<R: ReadSeek> {
    reader: R,
    cache: HashMap<u64, Vec<u8>>,
}

/// A cache entry is a page-aligned key below the content length, mapped to a
/// page-sized buffer whose prefix holds exactly the content bytes that existed
/// at that offset; bytes past the fill are never exposed.
spec fn page_ok(content: Seq<u8>, k: u64, data: Seq<u8>) -> bool {
    &&& k % PAGE_SIZE == 0
    &&& (k as int) < content.len()
    &&& data.len() == PAGE_SIZE
    &&& data.subrange(0, page_fill(content.len() as int, k as int)) == content.subrange(
        k as int,
        k as int + page_fill(content.len() as int, k as int),
    )
}

impl<R: ReadSeek> CachedReadSeek<R> {
    /// The page-aligned offsets whose pages have been fetched.
    pub closed spec fn cached_pages(&self) -> Set<int> {
        Set::new(|p: int| 0 <= p <= u64::MAX && self.cache@.dom().contains(p as u64))
    }

    /// Wrap a stream; the cache starts empty and adopts the stream's position.
    pub fn new(reader: R) -> (c: CachedReadSeek<R>)
        requires
            reader.inv(),
            0 <= reader.pos() <= u64::MAX,
            reader.content().len() <= u64::MAX,
        ensures
            c.inv(),
            c.content() == reader.content(),
            c.pos() == reader.pos(),
            c.cached_pages() == Set::<int>::empty(),
    {
        let c = CachedReadSeek { reader, cache: HashMap::new() };
        proof {
            assert(c.cached_pages() =~= Set::<int>::empty());
        }
        c
    }

    /// The wrapped stream, for callers that observe it (its position always
    /// equals the cache's own).
    pub fn reader(&self) -> (r: &R)
        requires
            self.inv(),
        ensures
            r.inv(),
            r.content() == self.content(),
            r.pos() == self.pos(),
    {
        &self.reader
    }
}

impl<R: ReadSeek> ReadSeek for CachedReadSeek<R> {
    /// The cache is transparent: it exposes the wrapped stream's bytes.
    closed spec fn content(&self) -> Seq<u8> {
        self.reader.content()
    }

    /// The externally observable position is the wrapped stream's position.
    closed spec fn pos(&self) -> int {
        self.reader.pos()
    }

    closed spec fn inv(&self) -> bool {
        &&& self.reader.inv()
        &&& 0 <= self.reader.pos() <= u64::MAX
        &&& self.reader.content().len() <= u64::MAX
        &&& forall|k: u64| #[trigger]
            self.cache@.dom().contains(k) ==> page_ok(
                self.reader.content(),
                k,
                self.cache@[k]@,
            )
    }

    /// Seeks delegate directly to the wrapped stream; the page table is kept.
    fn seek(&mut self, from: SeekFrom) -> (r: Result<u64, StreamError>)
        ensures
            final(self).cached_pages() == old(self).cached_pages(),
    {
        let r = self.reader.seek(from);
        proof {
            assert forall|k: u64| #[trigger]
                self.cache@.dom().contains(k) implies page_ok(
                self.reader.content(),
                k,
                self.cache@[k]@,
            ) by {
                assert(old(self).cache@.dom().contains(k));
            }
        }
        r
    }

    /// Serve a read from the page holding the current offset, fetching that
    /// page from the wrapped stream only if no read has touched it before;
    /// the wrapped stream's position advances by exactly the count returned.
    /// Reading at or past the end of the content returns zero bytes and puts
    /// the position back where it was.
    fn read(&mut self, buf: &mut Vec<u8>) -> (n: usize)
        ensures
            ({
                let start = old(self).pos();
                let len = old(self).content().len() as int;
                let page = page_of(start);
                if start < len && !old(self).cached_pages().contains(page) {
                    final(self).cached_pages() == old(self).cached_pages().insert(page)
                } else {
                    final(self).cached_pages() == old(self).cached_pages()
                }
            }),
    {
        let ghost gcontent = self.reader.content();
        let ghost glen = gcontent.len() as int;
        let start = self.reader.seek(SeekFrom::Current(0)).unwrap();
        let total = self.reader.seek(SeekFrom::End(0)).unwrap();
        if start >= total {
            self.reader.seek(SeekFrom::Start(start)).unwrap();
            proof {
                assert(buf@.skip(0) =~= old(buf)@.skip(0));
                assert forall|k: u64| #[trigger]
                    self.cache@.dom().contains(k) implies page_ok(
                    self.reader.content(),
                    k,
                    self.cache@[k]@,
                ) by {
                    assert(old(self).cache@.dom().contains(k));
                }
            }
            return 0;
        }
        let delta = start % PAGE_SIZE;
        let page = start - delta;
        proof {
            assert(page as int == page_of(start as int));
            vstd::arithmetic::div_mod::lemma_fundamental_div_mod(start as int, PAGE_SIZE as int);
            assert(page as int == PAGE_SIZE as int * (start as int / PAGE_SIZE as int));
            vstd::arithmetic::div_mod::lemma_mod_multiples_basic(
                start as int / PAGE_SIZE as int,
                PAGE_SIZE as int,
            );
            assert(page % PAGE_SIZE == 0);
        }
        let ghost gfill = page_fill(glen, page as int);
        let ghost had_page = self.cache@.dom().contains(page);
        if !self.cache.contains_key(&page) {
            self.reader.seek(SeekFrom::Start(page)).unwrap();
            let m64 = if total - page < PAGE_SIZE {
                total - page
            } else {
                PAGE_SIZE
            };
            let m = m64 as usize;
            let fetched = read_exact_from(&mut self.reader, m);
            let ghost gfetched = fetched@;
            let mut data = fetched;
            while data.len() < PAGE_LEN
                invariant
                    gfetched.len() <= data@.len() <= PAGE_LEN,
                    data@.subrange(0, gfetched.len() as int) == gfetched,
                decreases PAGE_LEN - data@.len(),
            {
                data.push(0);
                proof {
                    assert(data@.subrange(0, gfetched.len() as int) =~= gfetched);
                }
            }
            self.cache.insert(page, data);
            proof {
                assert(page_ok(gcontent, page, self.cache@[page]@)) by {
                    assert(self.cache@[page]@.subrange(0, gfill) =~= gcontent.subrange(
                        page as int,
                        page as int + gfill,
                    ));
                }
                assert forall|k: u64| #[trigger]
                    self.cache@.dom().contains(k) implies page_ok(
                    self.reader.content(),
                    k,
                    self.cache@[k]@,
                ) by {
                    if k != page {
                        assert(old(self).cache@.dom().contains(k));
                    }
                }
            }
        }
        let data = self.cache.get(&page).unwrap();
        proof {
            assert(self.cache@.dom().contains(page));
            assert(page_ok(gcontent, page, self.cache@[page]@));
        }
        let bl = buf.len();
        let rem_total = total - start;
        let rem_page = PAGE_SIZE - delta;
        let mut n64 = bl as u64;
        if rem_total < n64 {
            n64 = rem_total;
        }
        if rem_page < n64 {
            n64 = rem_page;
        }
        let n = n64 as usize;
        let delta_us = delta as usize;
        proof {
            assert(delta as int + n as int <= gfill);
            assert(data@.len() == PAGE_SIZE);
        }
        let mut i: usize = 0;
        while i < n
            invariant
                i <= n,
                n <= buf.len(),
                buf.len() == old(buf).len(),
                delta_us as int + n as int <= gfill,
                gfill <= PAGE_SIZE as int,
                page as int + gfill <= gcontent.len(),
                start as int == page as int + delta_us as int,
                data@.len() == PAGE_SIZE,
                data@.subrange(0, gfill) == gcontent.subrange(page as int, page as int + gfill),
                forall|j: int| 0 <= j < i ==> buf@[j] == gcontent[start as int + j],
                forall|j: int| i <= j < buf.len() ==> buf@[j] == old(buf)@[j],
            decreases n - i,
        {
            let b = data[delta_us + i];
            proof {
                assert(data@[delta_us + i] == data@.subrange(0, gfill)[delta_us as int + i as int]);
                assert(gcontent.subrange(page as int, page as int + gfill)[delta_us as int
                    + i as int] == gcontent[start as int + i as int]);
            }
            buf.set(i, b);
            i = i + 1;
        }
        self.reader.seek(SeekFrom::Start(start + n64)).unwrap();
        proof {
            if n > 0 {
                assert(buf@.subrange(0, n as int) =~= gcontent.subrange(
                    start as int,
                    start as int + n as int,
                ));
            }
            assert(buf@.skip(n as int) =~= old(buf)@.skip(n as int));
            if had_page {
                assert(self.cached_pages() =~= old(self).cached_pages());
            } else {
                assert(self.cached_pages() =~= old(self).cached_pages().insert(page as int));
            }
            assert forall|k: u64| #[trigger]
                self.cache@.dom().contains(k) implies page_ok(
                self.reader.content(),
                k,
                self.cache@[k]@,
            ) by {
                if k != page {
                    assert(old(self).cache@.dom().contains(k));
                }
            }
        }
        n
    }
}

/// Read exactly `count` bytes from the stream's current position, looping over
/// partial reads; the position advances by exactly `count`.
fn read_exact_from<R: ReadSeek>(reader: &mut R, count: usize) -> (out: Vec<u8>)
    requires
        old(reader).inv(),
        0 <= old(reader).pos(),
        old(reader).pos() + count <= old(reader).content().len(),
    ensures
        final(reader).inv(),
        final(reader).content() == old(reader).content(),
        final(reader).pos() == old(reader).pos() + count,
        out@ == old(reader).content().subrange(old(reader).pos(), old(reader).pos() + count),
{
    let ghost gcontent = reader.content();
    let ghost gstart = reader.pos();
    let mut out: Vec<u8> = Vec::new();
    proof {
        assert(out@ =~= gcontent.subrange(gstart, gstart + 0));
    }
    while out.len() < count
        invariant
            reader.inv(),
            reader.content() == gcontent,
            0 <= gstart,
            out@.len() <= count,
            reader.pos() == gstart + out@.len(),
            gstart + count <= gcontent.len(),
            out@ == gcontent.subrange(gstart, gstart + out@.len()),
        decreases count - out@.len(),
    {
        let ghost gpos = reader.pos();
        let base = out.len();
        let need = count - base;
        let mut chunk = byte_buffer(need);
        let k = reader.read(&mut chunk);
        let mut i: usize = 0;
        while i < k
            invariant
                i <= k,
                k <= chunk@.len(),
                k > 0,
                out@.len() == base + i,
                gpos == gstart + base,
                0 <= gstart,
                gpos + k <= gcontent.len(),
                chunk@.subrange(0, k as int) == gcontent.subrange(gpos, gpos + k),
                out@ == gcontent.subrange(gstart, gstart + base + i),
            decreases k - i,
        {
            let b = chunk[i];
            proof {
                assert(chunk@[i as int] == chunk@.subrange(0, k as int)[i as int]);
                assert(gcontent.subrange(gpos, gpos + k)[i as int] == gcontent[gpos + i]);
            }
            out.push(b);
            i = i + 1;
            proof {
                assert(out@ =~= gcontent.subrange(gstart, gstart + base + i));
            }
        }
    }
    out
}

/// A zeroed buffer of the requested length.
fn byte_buffer(n: usize) -> (v: Vec<u8>)
    ensures
        v@.len() == n,
{
    let mut v: Vec<u8> = Vec::new();
    while v.len() < n
        invariant
            v@.len() <= n,
        decreases n - v@.len(),
    {
        v.push(0);
    }
    v
}

} // verus!
