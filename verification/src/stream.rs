use vstd::prelude::*;

verus! {

/// Where a seek starts from: an absolute offset, the end of the stream,
/// or the current position.
#[derive(Clone, Copy, Debug, PartialEq, Eq, Structural)]
pub enum SeekFrom {
    Start(u64),
    End(i64),
    Current(i64),
}

/// The one failure a stream operation reports: a seek whose target would be
/// negative or would not fit in a `u64`.
#[derive(Clone, Copy, Debug, PartialEq, Eq, Structural)]
pub enum StreamError {
    InvalidSeek,
}

/// The absolute offset a seek request asks for, given the current position
/// and the total length of the stream.
pub open spec fn seek_target(from: SeekFrom, cur: int, len: int) -> int {
    match from {
        SeekFrom::Start(o) => o as int,
        SeekFrom::End(d) => len + d as int,
        SeekFrom::Current(d) => cur + d as int,
    }
}

/// A seek request is valid when its target is representable as a position.
pub open spec fn seek_ok(from: SeekFrom, cur: int, len: int) -> bool {
    0 <= seek_target(from, cur, len) <= u64::MAX
}

/// What one read call does: it fills a prefix of the buffer with the bytes of
/// `content` that start at `old_pos`, leaves the rest of the buffer alone, and
/// advances the position by exactly the number of bytes produced. At or past
/// the end of the content it produces nothing; before the end it produces at
/// least one byte whenever the buffer has room, but may stop short of filling
/// the buffer.
pub open spec fn read_result(
    content: Seq<u8>,
    old_pos: int,
    old_buf: Seq<u8>,
    new_pos: int,
    new_buf: Seq<u8>,
    n: int,
) -> bool {
    &&& 0 <= n <= old_buf.len()
    &&& new_buf.len() == old_buf.len()
    &&& new_pos == old_pos + n
    &&& old_pos >= content.len() ==> n == 0
    &&& old_pos < content.len() ==> old_pos + n <= content.len()
    &&& (old_pos < content.len() && old_buf.len() > 0) ==> n >= 1
    &&& n > 0 ==> new_buf.subrange(0, n) == content.subrange(old_pos, old_pos + n)
    &&& new_buf.skip(n) == old_buf.skip(n)
}

/// A byte source that is readable and seekable by absolute offset: the sole
/// capability the page cache and the archive backend require of their backing
/// source. `content` is the full byte string the stream exposes and `pos` the
/// current position; both are fixed per value except that reads and seeks move
/// the position. A failed transport is not modelled here: implementations
/// follow the policy of erroring only on invalid seek targets.
pub trait ReadSeek: Sized {
    /// The bytes the stream exposes, from offset zero to its total length.
    /// The default is for impls outside the library, of which nothing is
    /// known: no contract holds of them, since `inv` defaults to false.
    open spec fn content(&self) -> Seq<u8> {
        Seq::empty()
    }

    /// The current position; reads serve bytes starting here. May lie past
    /// the end of the content, where reads produce nothing.
    open spec fn pos(&self) -> int {
        0
    }

    /// Well-formedness carried by every value of the stream. Its default is
    /// false: of an implementation outside the library nothing is known, so
    /// no verified caller can assume anything of one.
    open spec fn inv(&self) -> bool {
        false
    }

    /// Move the position to the requested target, failing exactly when the
    /// target is negative or does not fit in a `u64`; the content and, on
    /// failure, the position are untouched.
    fn seek(&mut self, from: SeekFrom) -> (r: Result<u64, StreamError>)
        requires
            old(self).inv(),
        ensures
            final(self).inv(),
            final(self).content() == old(self).content(),
            seek_ok(from, old(self).pos(), old(self).content().len() as int) ==> (r matches Ok(p)
                && p as int == seek_target(
                from,
                old(self).pos(),
                old(self).content().len() as int,
            ) && final(self).pos() == p as int),
            !seek_ok(from, old(self).pos(), old(self).content().len() as int) ==> (r matches Err(_)
                && final(self).pos() == old(self).pos()),
    ;

    /// Fill a prefix of `buf` with bytes of the content starting at the
    /// current position, and advance the position by the count returned.
    fn read(&mut self, buf: &mut Vec<u8>) -> (n: usize)
        requires
            old(self).inv(),
        ensures
            final(self).inv(),
            final(self).content() == old(self).content(),
            read_result(
                old(self).content(),
                old(self).pos(),
                old(buf)@,
                final(self).pos(),
                final(buf)@,
                n as int,
            ),
    ;
}

/// An in-memory stream over a byte vector. Besides backing tests and archive
/// payloads, it counts how often `read` is called, so a wrapping cache can be
/// observed fetching each page only once.
pub struct MemStream {
    data: Vec<u8>,
    pos: u64,
    reads: u64,
}

impl MemStream {
    /// A stream over the given bytes, positioned at the start.
    pub fn new(data: Vec<u8>) -> (s: MemStream)
        ensures
            s.inv(),
            s.content() == data@,
            s.pos() == 0,
            s.content().len() <= u64::MAX,
            s.read_calls() == 0,
    {
        let s = MemStream { data, pos: 0, reads: 0 };
        proof {
            broadcast use vstd::std_specs::vec::axiom_spec_len;

            assert(vstd::std_specs::vec::spec_vec_len(&s.data) == s.data@.len());
        }
        s
    }

    /// How many times `read` has been called on this stream (saturating).
    pub closed spec fn read_calls(&self) -> int {
        self.reads as int
    }

    /// The observed number of `read` calls, for instrumented tests.
    pub fn reads_made(&self) -> (n: u64)
        ensures
            n as int == self.read_calls(),
    {
        self.reads
    }
}

impl ReadSeek for MemStream {
    closed spec fn content(&self) -> Seq<u8> {
        self.data@
    }

    closed spec fn pos(&self) -> int {
        self.pos as int
    }

    closed spec fn inv(&self) -> bool {
        true
    }

    fn seek(&mut self, from: SeekFrom) -> (r: Result<u64, StreamError>) {
        let base: i128 = match from {
            SeekFrom::Start(o) => o as i128,
            SeekFrom::End(d) => self.data.len() as i128 + d as i128,
            SeekFrom::Current(d) => self.pos as i128 + d as i128,
        };
        if 0 <= base && base <= u64::MAX as i128 {
            self.pos = base as u64;
            Ok(self.pos)
        } else {
            Err(StreamError::InvalidSeek)
        }
    }

    fn read(&mut self, buf: &mut Vec<u8>) -> (n: usize) {
        if self.reads < u64::MAX {
            self.reads = self.reads + 1;
        }
        let len = self.data.len();
        if self.pos >= len as u64 {
            return 0;
        }
        let start = self.pos as usize;
        let avail = len - start;
        let want = buf.len();
        let n = if want < avail {
            want
        } else {
            avail
        };
        let mut i: usize = 0;
        while i < n
            invariant
                n <= buf.len(),
                buf.len() == old(buf).len(),
                i <= n,
                start + n <= self.data.len(),
                forall|j: int| 0 <= j < i ==> buf@[j] == self.data@[start + j],
                forall|j: int| i <= j < buf.len() ==> buf@[j] == old(buf)@[j],
            decreases n - i,
        {
            let b = self.data[start + i];
            buf.set(i, b);
            i = i + 1;
        }
        self.pos = self.pos + n as u64;
        proof {
            if n > 0 {
                assert(buf@.subrange(0, n as int) =~= self.data@.subrange(
                    start as int,
                    start + n,
                ));
            }
            assert(buf@.skip(n as int) =~= old(buf)@.skip(n as int));
        }
        n
    }
}

} // verus!
