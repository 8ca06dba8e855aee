use vstd::prelude::*;

use crate::fs::FileType;
use crate::fs::Metadata;
use crate::stream::seek_ok;
use crate::stream::seek_target;
use crate::stream::SeekFrom;
use crate::stream::StreamError;

verus! {

/// Why a content-length header failed to parse as a size.
#[derive(Clone, Copy, Debug, PartialEq, Eq, Structural)]
pub enum ContentLengthError {
    /// The header value is empty.
    Empty,
    /// The header value holds a byte that is no decimal digit.
    InvalidDigit,
    /// The decimal value does not fit in a `u64`.
    Overflow,
}

/// A decimal digit byte.
pub open spec fn is_digit(b: u8) -> bool {
    48 <= b <= 57
}

/// Every byte is a decimal digit.
pub open spec fn all_digits(s: Seq<u8>) -> bool {
    forall|i: int| 0 <= i < s.len() ==> is_digit(#[trigger] s[i])
}

/// The value of a decimal digit string.
pub open spec fn dec_value(s: Seq<u8>) -> int
    decreases s.len(),
{
    if s.len() == 0 {
        0
    } else {
        dec_value(s.drop_last()) * 10 + (s.last() - 48)
    }
}

/// What parsing a content-length header value yields: the decimal value of a
/// non-empty all-digit byte string that fits a `u64`, or the failure naming
/// what went wrong.
pub open spec fn content_length_spec(s: Seq<u8>) -> Result<u64, ContentLengthError> {
    if s.len() == 0 {
        Err(ContentLengthError::Empty)
    } else if !all_digits(s) {
        Err(ContentLengthError::InvalidDigit)
    } else if dec_value(s) > u64::MAX {
        Err(ContentLengthError::Overflow)
    } else {
        Ok(dec_value(s) as u64)
    }
}

/// The value of a longer digit string is never smaller: appended digits only
/// scale it up.
proof fn lemma_dec_value_grows(s: Seq<u8>, i: int)
    requires
        0 <= i <= s.len(),
        all_digits(s),
    ensures
        0 <= dec_value(s.subrange(0, i)) <= dec_value(s),
    decreases s.len() - i,
{
    assert(all_digits(s.subrange(0, i))) by {
        assert(forall|j: int| 0 <= j < i ==> is_digit(#[trigger] s.subrange(0, i)[j]));
    }
    lemma_dec_value_nonneg(s.subrange(0, i));
    if i < s.len() {
        lemma_dec_value_grows(s, i + 1);
        let shorter = s.subrange(0, i);
        let longer = s.subrange(0, i + 1);
        assert(longer.drop_last() =~= shorter);
        assert(is_digit(s[i]));
        lemma_dec_value_nonneg(shorter);
    } else {
        assert(s.subrange(0, i) =~= s);
    }
}

proof fn lemma_dec_value_nonneg(s: Seq<u8>)
    requires
        all_digits(s),
    ensures
        dec_value(s) >= 0,
    decreases s.len(),
{
    if s.len() > 0 {
        assert(all_digits(s.drop_last())) by {
            assert(forall|j: int| 0 <= j < s.len() - 1 ==> is_digit(#[trigger] s.drop_last()[j]));
        }
        assert(is_digit(s.last()));
        lemma_dec_value_nonneg(s.drop_last());
    }
}

/// Parse a content-length header value: the decimal size it names, if and
/// only if the value is a non-empty digit string fitting a `u64`, else the
/// failure naming the first reason it cannot be one.
pub fn parse_content_length(s: &[u8]) -> (r: Result<u64, ContentLengthError>)
    ensures
        r == content_length_spec(s@),
{
    if s.len() == 0 {
        return Err(ContentLengthError::Empty);
    }
    let mut n: u64 = 0;
    let mut i: usize = 0;
    while i < s.len()
        invariant
            i <= s@.len(),
            all_digits(s@.subrange(0, i as int)),
            n as int == dec_value(s@.subrange(0, i as int)),
        decreases s@.len() - i,
    {
        let b = s[i];
        if b < 48 || b > 57 {
            proof {
                assert(!is_digit(s@[i as int]));
            }
            return Err(ContentLengthError::InvalidDigit);
        }
        let d = (b - 48) as u64;
        if n > (u64::MAX - d) / 10 {
            proof {
                assert(all_digits(s@.subrange(0, i as int + 1))) by {
                    assert(forall|j: int|
                        0 <= j < i ==> is_digit(#[trigger] s@.subrange(0, i as int + 1)[j]));
                    assert(s@.subrange(0, i as int + 1)[i as int] == s@[i as int]);
                }
            }
            // the digits seen so far already exceed what one more digit can
            // keep inside a u64: show the whole string overflows, unless a
            // later byte is no digit at all
            let mut j = i + 1;
            while j < s.len()
                invariant
                    i < j <= s@.len(),
                    all_digits(s@.subrange(0, j as int)),
                    dec_value(s@.subrange(0, i as int)) * 10 + (s@[i as int] - 48) > u64::MAX,
                    i < s@.len(),
                decreases s@.len() - j,
            {
                let b2 = s[j];
                if b2 < 48 || b2 > 57 {
                    proof {
                        assert(!is_digit(s@[j as int]));
                    }
                    return Err(ContentLengthError::InvalidDigit);
                }
                proof {
                    assert(all_digits(s@.subrange(0, j as int + 1))) by {
                        assert(forall|q: int|
                            0 <= q < j ==> is_digit(#[trigger] s@.subrange(0, j as int + 1)[q]));
                        assert(s@.subrange(0, j as int + 1)[j as int] == s@[j as int]);
                    }
                }
                j = j + 1;
            }
            proof {
                assert(s@.subrange(0, j as int) =~= s@);
                assert(dec_value(s@) > u64::MAX) by {
                    lemma_dec_value_grows(s@, i as int + 1);
                    assert(s@.subrange(0, i as int + 1).drop_last() =~= s@.subrange(0, i as int));
                    assert(s@.subrange(0, i as int + 1).last() == s@[i as int]);
                }
            }
            return Err(ContentLengthError::Overflow);
        }
        n = n * 10 + d;
        i = i + 1;
        proof {
            assert(s@.subrange(0, i as int).drop_last() =~= s@.subrange(0, i as int - 1));
            assert(s@.subrange(0, i as int).last() == s@[i as int - 1]);
            assert(all_digits(s@.subrange(0, i as int))) by {
                assert(forall|q: int|
                    0 <= q < i - 1 ==> is_digit(#[trigger] s@.subrange(0, i as int)[q]));
                assert(s@.subrange(0, i as int)[i as int - 1] == s@[i as int - 1]);
            }
        }
    }
    proof {
        assert(s@.subrange(0, i as int) =~= s@);
    }
    Ok(n)
}

/// The compute half of the HTTP metadata probe: a remote resource is always
/// reported as a file, its length read from the content-length header the
/// transport handed over.
pub fn metadata_from_content_length(value: &[u8]) -> (r: Result<Metadata, ContentLengthError>)
    ensures
        r == match content_length_spec(value@) {
            Ok(n) => Ok::<Metadata, ContentLengthError>(Metadata { file_type: FileType::File, len: n }),
            Err(e) => Err::<Metadata, ContentLengthError>(e),
        },
{
    match parse_content_length(value) {
        Ok(n) => Ok(Metadata { file_type: FileType::File, len: n }),
        Err(e) => Err(e),
    }
}

/// The scheme prefix a remote path is put behind.
pub open spec fn url_prefix(use_https: bool) -> Seq<char> {
    if use_https {
        "https://"@
    } else {
        "http://"@
    }
}

/// Render the URL of a remote path: the scheme, `://`, and the path.
pub fn path_to_url(use_https: bool, path: &str) -> (url: String)
    ensures
        url@ == url_prefix(use_https) + path@,
{
    let mut url = if use_https {
        String::from_str("https://")
    } else {
        String::from_str("http://")
    };
    url.append(path);
    url
}

/// The canonical decimal rendering of a number.
pub open spec fn dec_repr(n: int) -> Seq<u8>
    decreases n,
{
    if n < 10 {
        seq![(48 + n) as u8]
    } else {
        dec_repr(n / 10) + seq![(48 + n % 10) as u8]
    }
}

/// Append the decimal rendering of `n`.
fn push_dec(n: u64, out: &mut Vec<u8>)
    ensures
        final(out)@ == old(out)@ + dec_repr(n as int),
    decreases n,
{
    if n < 10 {
        out.push(48 + n as u8);
        proof {
            assert(out@ =~= old(out)@ + dec_repr(n as int));
        }
    } else {
        push_dec(n / 10, out);
        out.push(48 + (n % 10) as u8);
        proof {
            assert(out@ =~= old(out)@ + dec_repr(n as int));
        }
    }
}

/// The exact bytes of a range header value asking for `[start, end]`:
/// `bytes=`, the two bounds in decimal, a hyphen between them.
pub open spec fn range_header_spec(start: int, end: int) -> Seq<u8> {
    seq![98u8, 121u8, 116u8, 101u8, 115u8, 61u8] + dec_repr(start) + seq![45u8] + dec_repr(end)
}

/// The uncached HTTP file: offset bookkeeping for a range-fetched remote
/// resource of a known size. The transport that issues the GET holds this
/// state, asks it which range header to send, and reports back how many bytes
/// arrived; a range the server refuses as unsatisfiable is logical EOF.
pub struct CachelessHttpFile {
    size: u64,
    offset: u64,
}

impl CachelessHttpFile {
    /// The remote resource's reported length in bytes.
    pub closed spec fn size_spec(&self) -> int {
        self.size as int
    }

    /// The offset the next read starts at.
    pub closed spec fn offset_spec(&self) -> int {
        self.offset as int
    }

    /// A fresh file over a resource of the given size, at offset zero.
    pub fn new(size: u64) -> (f: CachelessHttpFile)
        ensures
            f.size_spec() == size as int,
            f.offset_spec() == 0,
    {
        CachelessHttpFile { size, offset: 0 }
    }

    /// Move the offset as a stream seek would, against the reported size;
    /// a negative or overflowing target is refused and changes nothing.
    pub fn seek(&mut self, from: SeekFrom) -> (r: Result<u64, StreamError>)
        ensures
            final(self).size_spec() == old(self).size_spec(),
            seek_ok(from, old(self).offset_spec(), old(self).size_spec()) ==> (r matches Ok(p)
                && p as int == seek_target(from, old(self).offset_spec(), old(self).size_spec())
                && final(self).offset_spec() == p as int),
            !seek_ok(from, old(self).offset_spec(), old(self).size_spec()) ==> (r matches Err(_)
                && final(self).offset_spec() == old(self).offset_spec()),
    {
        let base: i128 = match from {
            SeekFrom::Start(o) => o as i128,
            SeekFrom::End(d) => self.size as i128 + d as i128,
            SeekFrom::Current(d) => self.offset as i128 + d as i128,
        };
        if 0 <= base && base <= u64::MAX as i128 {
            self.offset = base as u64;
            Ok(self.offset)
        } else {
            Err(StreamError::InvalidSeek)
        }
    }

    /// The range header value for a read of up to `want` bytes from the
    /// current offset.
    pub fn range_request(&self, want: usize) -> (v: Vec<u8>)
        requires
            self.offset_spec() + want <= u64::MAX,
        ensures
            v@ == range_header_spec(self.offset_spec(), self.offset_spec() + want),
    {
        let mut v: Vec<u8> = Vec::new();
        v.push(98);
        v.push(121);
        v.push(116);
        v.push(101);
        v.push(115);
        v.push(61);
        let ghost prefix = v@;
        proof {
            assert(prefix =~= seq![98u8, 121u8, 116u8, 101u8, 115u8, 61u8]);
        }
        push_dec(self.offset, &mut v);
        v.push(45);
        push_dec(self.offset + want as u64, &mut v);
        proof {
            assert(v@ =~= range_header_spec(self.offset_spec(), self.offset_spec() + want));
        }
        v
    }

    /// Record that the transport produced `n` bytes: the offset advances by
    /// exactly that count.
    pub fn advance(&mut self, n: u64)
        requires
            old(self).offset_spec() + n <= u64::MAX,
        ensures
            final(self).size_spec() == old(self).size_spec(),
            final(self).offset_spec() == old(self).offset_spec() + n,
    {
        self.offset = self.offset + n;
    }
}

} // verus!
