//! The GZIP container: header, footer, and the inflating of the payload.

use crate::bits::{byte_bit, byte_bits};
use crate::inflate::{inflate_blocks, DeflateData, DeflateError};
use vstd::prelude::*;
use vstd::utf8::{decode_utf8, valid_utf8};

verus! {

/// The ways in which reading a GZIP file fails.
#[derive(Debug)]
pub enum GzipError {
    /// The header ends too early or holds text that is not UTF-8. Holds
    /// the first bytes of the input, ten of them where there are as many.
    InvalidHeader(Vec<u8>),
    /// The input does not begin with the bytes 0x1f, 0x8b. Holds its first
    /// two bytes.
    NotGzipFile(Vec<u8>),
    /// The input ends before the footer of eight bytes is complete.
    Truncated,
    /// The payload could not be inflated.
    Inflate(DeflateError),
}

/// The fields of a GZIP header.
///
/// `flg` holds the flags FTEXT, FHCRC, FEXTRA, FNAME and FCOMMENT in this
/// order, `crc` the two bytes of the header checksum with the first as the
/// more significant, and `end_idx` is the place of the first byte behind
/// the header.
#[derive(Debug)]
pub struct GzipHeader {
    pub cm: u8,
    pub flg: [bool; 5],
    pub mtime: u32,
    pub xfl: u8,
    pub os: u8,
    pub crc: Option<u16>,
    pub fextra: Option<Vec<u8>>,
    pub fname: Option<String>,
    pub fcomment: Option<String>,
    pub end_idx: usize,
}

/// The number of two bytes at `at`, the less significant first.
pub open spec fn le16(bytes: Seq<u8>, at: int) -> nat {
    (bytes[at] + 256 * bytes[at + 1]) as nat
}

/// The number of two bytes at `at`, the more significant first.
pub open spec fn be16(bytes: Seq<u8>, at: int) -> nat {
    (256 * bytes[at] + bytes[at + 1]) as nat
}

/// The number of four bytes at `at`, the least significant first.
pub open spec fn le32(bytes: Seq<u8>, at: int) -> nat {
    (bytes[at] + 256 * bytes[at + 1] + 65536 * bytes[at + 2] + 16777216 * bytes[at + 3]) as nat
}

/// Flag `x` of the header's flag byte: 0 is FTEXT, 1 FHCRC, 2 FEXTRA, 3
/// FNAME and 4 FCOMMENT.
pub open spec fn has_flag(bytes: Seq<u8>, x: int) -> bool {
    byte_bit(bytes[3], x)
}

/// The place of the first zero byte at or behind `from`, or the length of
/// the input where there is none.
pub open spec fn terminator(bytes: Seq<u8>, from: int) -> int
    decreases bytes.len() - from,
{
    if from < 0 || from >= bytes.len() {
        bytes.len() as int
    } else if bytes[from] == 0 {
        from
    } else {
        terminator(bytes, from + 1)
    }
}

/// The place behind the extra field, which begins at 10 with its length in
/// two bytes; nothing where the input ends inside it.
pub open spec fn extra_end(bytes: Seq<u8>) -> Option<int> {
    if !has_flag(bytes, 2) {
        Some(10)
    } else if bytes.len() < 12 || 12 + le16(bytes, 10) > bytes.len() {
        None
    } else {
        Some(12 + le16(bytes, 10) as int)
    }
}

/// The place behind a text that ends with a zero byte and begins at
/// `from`, where `present` says that the header has it; nothing where the
/// input ends before the zero byte.
pub open spec fn text_end(bytes: Seq<u8>, from: Option<int>, present: bool) -> Option<int> {
    match from {
        None => None,
        Some(start) => if !present {
            Some(start)
        } else if terminator(bytes, start) >= bytes.len() {
            None
        } else {
            Some(terminator(bytes, start) + 1)
        },
    }
}

/// The place behind the file name.
pub open spec fn name_end(bytes: Seq<u8>) -> Option<int> {
    text_end(bytes, extra_end(bytes), has_flag(bytes, 3))
}

/// The place behind the comment.
pub open spec fn comment_end(bytes: Seq<u8>) -> Option<int> {
    text_end(bytes, name_end(bytes), has_flag(bytes, 4))
}

/// The place behind the header, whose last field is the header checksum
/// of two bytes; nothing where the input ends inside the header.
pub open spec fn header_end(bytes: Seq<u8>) -> Option<int> {
    match comment_end(bytes) {
        None => None,
        Some(start) => if !has_flag(bytes, 1) {
            Some(start)
        } else if start + 2 > bytes.len() {
            None
        } else {
            Some(start + 2)
        },
    }
}

/// The bytes of the file name, without the zero byte behind them.
pub open spec fn name_bytes(bytes: Seq<u8>) -> Seq<u8> {
    bytes.subrange(extra_end(bytes)->Some_0, name_end(bytes)->Some_0 - 1)
}

/// The bytes of the comment, without the zero byte behind them.
pub open spec fn comment_bytes(bytes: Seq<u8>) -> Seq<u8> {
    bytes.subrange(name_end(bytes)->Some_0, comment_end(bytes)->Some_0 - 1)
}

/// Whether the input holds a whole header with the GZIP magic bytes and
/// with texts in UTF-8.
pub open spec fn header_ok(bytes: Seq<u8>) -> bool {
    &&& bytes.len() >= 10
    &&& bytes[0] == 0x1f
    &&& bytes[1] == 0x8b
    &&& header_end(bytes) is Some
    &&& has_flag(bytes, 3) ==> valid_utf8(name_bytes(bytes))
    &&& has_flag(bytes, 4) ==> valid_utf8(comment_bytes(bytes))
}

/// `String::from_utf8` of std: the string that the bytes encode in UTF-8,
/// and nothing where they are not valid UTF-8.
#[verifier::external_body]
fn string_from_utf8(bytes: Vec<u8>) -> (r: Option<String>)
    ensures
        r is Some <==> valid_utf8(bytes@),
        r matches Some(s) ==> s@ == decode_utf8(bytes@),
{
    match String::from_utf8(bytes) {
        Ok(s) => Some(s),
        Err(_) => None,
    }
}

/// The bytes from `from` up to `to`, as a vector.
fn copy_range(bytes: &[u8], from: usize, to: usize) -> (v: Vec<u8>)
    requires
        from <= to <= bytes@.len(),
    ensures
        v@ == bytes@.subrange(from as int, to as int),
{
    vstd::slice::slice_to_vec(vstd::slice::slice_subrange(bytes, from, to))
}

/// The place of the first zero byte at or behind `from`.
fn find_terminator(bytes: &[u8], from: usize) -> (at: usize)
    requires
        from <= bytes@.len(),
    ensures
        at == terminator(bytes@, from as int),
        from <= at <= bytes@.len(),
{
    let mut at = from;
    while at < bytes.len() && bytes[at] != 0
        invariant
            from <= at <= bytes@.len(),
            terminator(bytes@, at as int) == terminator(bytes@, from as int),
        decreases bytes@.len() - at,
    {
        at += 1;
    }
    at
}

/// How reading a header that is not in order fails: a header of fewer than
/// ten bytes is invalid, then wrong magic bytes are no GZIP file, and every
/// other fault is an invalid header.
pub open spec fn header_failure(bytes: Seq<u8>, e: GzipError) -> bool {
    if bytes.len() < 10 {
        e matches GzipError::InvalidHeader(seen) && seen@ == bytes
    } else if bytes[0] != 0x1f || bytes[1] != 0x8b {
        e matches GzipError::NotGzipFile(seen) && seen@ == bytes.take(2)
    } else {
        e matches GzipError::InvalidHeader(seen) && seen@ == bytes.take(10)
    }
}

impl GzipHeader {
    /// Whether the fields are those of the header at the beginning of `bytes`.
    pub open spec fn describes(&self, bytes: Seq<u8>) -> bool {
        &&& self.cm == bytes[2]
        &&& forall|x: int| 0 <= x < 5 ==> self.flg@[x] == has_flag(bytes, x)
        &&& self.mtime == le32(bytes, 4)
        &&& self.xfl == bytes[8]
        &&& self.os == bytes[9]
        &&& self.end_idx == header_end(bytes)->Some_0
        &&& self.end_idx <= bytes.len()
        &&& match self.crc {
            Some(crc) => has_flag(bytes, 1) && crc == be16(bytes, self.end_idx - 2),
            None => !has_flag(bytes, 1),
        }
        &&& match self.fextra {
            Some(extra) => has_flag(bytes, 2) && extra@ == bytes.subrange(12, extra_end(bytes)->Some_0),
            None => !has_flag(bytes, 2),
        }
        &&& match self.fname {
            Some(name) => has_flag(bytes, 3) && name@ == decode_utf8(name_bytes(bytes)),
            None => !has_flag(bytes, 3),
        }
        &&& match self.fcomment {
            Some(comment) => has_flag(bytes, 4) && comment@ == decode_utf8(comment_bytes(bytes)),
            None => !has_flag(bytes, 4),
        }
    }

    /// Reads the header at the beginning of a GZIP file.
    pub fn build(bytes: &[u8]) -> (r: Result<Self, GzipError>)
        ensures
            header_ok(bytes@) ==> (r matches Ok(header) && header.describes(bytes@)),
            !header_ok(bytes@) ==> (r matches Err(e) && header_failure(bytes@, e)),
    {
        let len = bytes.len();
        if len < 10 {
            assert(bytes@.subrange(0, len as int) =~= bytes@);
            return Err(GzipError::InvalidHeader(copy_range(bytes, 0, len)));
        }
        if bytes[0] != 0x1f || bytes[1] != 0x8b {
            return Err(GzipError::NotGzipFile(copy_range(bytes, 0, 2)));
        }
        let cm = bytes[2];
        let flg = bytes[3];
        let mtime: u32 = bytes[4] as u32 + 256 * (bytes[5] as u32) + 65536 * (bytes[6] as u32) + 16777216
            * (bytes[7] as u32);
        let xfl = bytes[8];
        let os = bytes[9];
        let flags: [bool; 5] = [
            (flg >> 0u8) & 1 == 1,
            (flg >> 1u8) & 1 == 1,
            (flg >> 2u8) & 1 == 1,
            (flg >> 3u8) & 1 == 1,
            (flg >> 4u8) & 1 == 1,
        ];
        let mut idx: usize = 10;
        let mut fextra: Option<Vec<u8>> = None;
        if flags[2] {
            if len < 12 {
                return Err(GzipError::InvalidHeader(copy_range(bytes, 0, 10)));
            }
            let xlen: usize = bytes[10] as usize + 256 * (bytes[11] as usize);
            if xlen > len - 12 {
                return Err(GzipError::InvalidHeader(copy_range(bytes, 0, 10)));
            }
            fextra = Some(copy_range(bytes, 12, 12 + xlen));
            idx = 12 + xlen;
        }
        let mut fname: Option<String> = None;
        if flags[3] {
            let end = find_terminator(bytes, idx);
            if end >= len {
                return Err(GzipError::InvalidHeader(copy_range(bytes, 0, 10)));
            }
            match string_from_utf8(copy_range(bytes, idx, end)) {
                Some(name) => {
                    fname = Some(name);
                },
                None => {
                    return Err(GzipError::InvalidHeader(copy_range(bytes, 0, 10)));
                },
            }
            idx = end + 1;
        }
        let mut fcomment: Option<String> = None;
        if flags[4] {
            let end = find_terminator(bytes, idx);
            if end >= len {
                return Err(GzipError::InvalidHeader(copy_range(bytes, 0, 10)));
            }
            match string_from_utf8(copy_range(bytes, idx, end)) {
                Some(comment) => {
                    fcomment = Some(comment);
                },
                None => {
                    return Err(GzipError::InvalidHeader(copy_range(bytes, 0, 10)));
                },
            }
            idx = end + 1;
        }
        let mut crc: Option<u16> = None;
        if flags[1] {
            if len - idx < 2 {
                return Err(GzipError::InvalidHeader(copy_range(bytes, 0, 10)));
            }
            crc = Some(256 * (bytes[idx] as u16) + bytes[idx + 1] as u16);
            idx += 2;
        }
        Ok(Self { cm, flg: flags, mtime, xfl, os, crc, fextra, fname, fcomment, end_idx: idx })
    }
}

/// A GZIP file: its header, its payload ready to be inflated, and the
/// checksum and length of the output that its footer states.
pub struct GzipFile {
    pub header: GzipHeader,
    pub deflate: DeflateData,
    pub crc32: u32,
    pub isize: u32,
}

/// Whether the input holds a header in order and, behind it, at least the
/// eight bytes of the footer.
pub open spec fn container_ok(bytes: Seq<u8>) -> bool {
    header_ok(bytes) && header_end(bytes)->Some_0 + 8 <= bytes.len()
}

/// The DEFLATE stream between header and footer.
pub open spec fn payload(bytes: Seq<u8>) -> Seq<u8> {
    bytes.subrange(header_end(bytes)->Some_0, bytes.len() - 8)
}

/// The checksum of the output that the footer states.
pub open spec fn stated_crc(bytes: Seq<u8>) -> nat {
    le32(bytes, bytes.len() - 8)
}

/// The length of the output, modulo 2^32, that the footer states.
pub open spec fn stated_size(bytes: Seq<u8>) -> nat {
    le32(bytes, bytes.len() - 4)
}

/// The number of four bytes at `at`, the least significant first.
fn read_le32(bytes: &[u8], at: usize) -> (r: u32)
    requires
        at + 4 <= bytes@.len(),
    ensures
        r == le32(bytes@, at as int),
{
    bytes[at] as u32 + 256 * (bytes[at + 1] as u32) + 65536 * (bytes[at + 2] as u32) + 16777216 * (bytes[at
        + 3] as u32)
}

impl GzipFile {
    /// Takes a GZIP file apart: header, payload and footer.
    pub fn from_bytes(bytes: &[u8]) -> (r: Result<Self, GzipError>)
        ensures
            !header_ok(bytes@) ==> (r matches Err(e) && header_failure(bytes@, e)),
            header_ok(bytes@) && !container_ok(bytes@) ==> r matches Err(GzipError::Truncated),
            container_ok(bytes@) && payload(bytes@).len() * 8 > usize::MAX ==> r matches Err(
                GzipError::Inflate(DeflateError::ResourceLimit),
            ),
            container_ok(bytes@) && payload(bytes@).len() * 8 <= usize::MAX ==> (r matches Ok(file) && {
                &&& file.header.describes(bytes@)
                &&& file.crc32 == stated_crc(bytes@)
                &&& file.isize == stated_size(bytes@)
                &&& file.deflate.wf()
                &&& file.deflate.input() == payload(bytes@)
                &&& file.deflate.produced() == Seq::<u8>::empty()
                &&& file.deflate.cursor() == 0
                &&& !file.deflate.done()
                &&& file.deflate.failed() is None
            }),
    {
        let header = match GzipHeader::build(bytes) {
            Ok(header) => header,
            Err(e) => {
                return Err(e);
            },
        };
        let len = bytes.len();
        if len - header.end_idx < 8 {
            return Err(GzipError::Truncated);
        }
        let crc32 = read_le32(bytes, len - 8);
        let isize = read_le32(bytes, len - 4);
        let deflate_raw = vstd::slice::slice_subrange(bytes, header.end_idx, len - 8);
        if deflate_raw.len() > usize::MAX / 8 {
            return Err(GzipError::Inflate(DeflateError::ResourceLimit));
        }
        Ok(Self { header, deflate: DeflateData::build(deflate_raw), crc32, isize })
    }

    /// Inflates the payload. Neither the checksum nor the length that the
    /// footer states is held against the output.
    pub fn decompress(&mut self) -> (r: Result<Vec<u8>, GzipError>)
        requires
            old(self).deflate.wf(),
        ensures
            final(self).deflate.wf(),
            final(self).deflate.input() == old(self).deflate.input(),
            final(self).isize == old(self).isize,
            final(self).crc32 == old(self).crc32,
            final(self).deflate.produced() == old(self).deflate.outcome().0,
            match old(self).deflate.outcome().1 {
                Ok(end) => r matches Ok(out) && out@ == old(self).deflate.outcome().0,
                Err(e) => r matches Err(GzipError::Inflate(failure)) && failure == e,
            },
    {
        match self.deflate.decompress() {
            Ok(out) => Ok(out),
            Err(e) => Err(GzipError::Inflate(e)),
        }
    }
}

/// Decompresses a GZIP file: the header is read, and the payload between
/// header and footer is inflated.
pub fn decompress_gzip(bytes: &[u8]) -> (r: Result<Vec<u8>, GzipError>)
    ensures
        !header_ok(bytes@) ==> (r matches Err(e) && header_failure(bytes@, e)),
        header_ok(bytes@) && !container_ok(bytes@) ==> r matches Err(GzipError::Truncated),
        container_ok(bytes@) && payload(bytes@).len() * 8 > usize::MAX ==> r matches Err(
            GzipError::Inflate(DeflateError::ResourceLimit),
        ),
        container_ok(bytes@) && payload(bytes@).len() * 8 <= usize::MAX ==> ({
            let all = inflate_blocks(byte_bits(payload(bytes@)), 0, Seq::<u8>::empty());
            match all.1 {
                Ok(end) => r matches Ok(out) && out@ == all.0,
                Err(e) => r matches Err(GzipError::Inflate(failure)) && failure == e,
            }
        }),
{
    let mut file = match GzipFile::from_bytes(bytes) {
        Ok(file) => file,
        Err(e) => {
            return Err(e);
        },
    };
    file.decompress()
}

} // verus!
