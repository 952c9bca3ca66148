use crate::codec::{le64, lemma_u64_round_trip, parse_u64, put_u64};
use crate::error::KpdbError;
use vstd::prelude::*;
use vstd::array::*;
use vstd::bytes::*;
use vstd::slice::*;

verus! {

/// Width of an encoded header.
pub const HEADER_SIZE: usize = 39;

/// Default size of the reserved region after the header.
pub const HEADER_PADDING_SIZE: u64 = 10;

/// The major version this library writes and reads.
pub const VERSION_MAJOR: u8 = 0;

pub const VERSION_MINOR: u8 = 1;

pub const VERSION_PATCH: u8 = 0;

/// The four bytes that open every archive: "KPDB".
pub open spec fn magic() -> Seq<u8> {
    seq![75u8, 80u8, 68u8, 66u8]
}

#[derive(Clone, Copy, Debug)]
pub struct Version {
    pub major: u8,
    pub minor: u8,
    pub patch: u8,
}

#[derive(Clone, Copy, Debug)]
pub struct Header {
    pub magic_number: [u8; 4],
    pub version: Version,
    pub timestamp: u64,
    pub central_directory_offset: u64,
    pub central_directory_size: u64,
    pub padding_size: u64,
}

/// A header as a writer starts it: the magic, version 0.1.0, zero
/// directory offset and size, and the default padding.
pub open spec fn fresh_header(h: Header) -> bool {
    &&& h.magic_number@ == magic()
    &&& h.version == (Version { major: VERSION_MAJOR, minor: VERSION_MINOR, patch: VERSION_PATCH })
    &&& h.central_directory_offset == 0
    &&& h.central_directory_size == 0
    &&& h.padding_size == HEADER_PADDING_SIZE
}

/// The fixed-width encoding of a header.
pub open spec fn header_bytes(h: Header) -> Seq<u8> {
    h.magic_number@ + seq![h.version.major, h.version.minor, h.version.patch] + le64(h.timestamp)
        + le64(h.central_directory_offset) + le64(h.central_directory_size) + le64(
        h.padding_size,
    )
}

/// What a reader accepts as a header: enough bytes, the magic, and the
/// supported major version.
pub open spec fn header_accepted(s: Seq<u8>) -> bool {
    &&& s.len() >= HEADER_SIZE
    &&& s.subrange(0, 4) == magic()
    &&& s[4] == VERSION_MAJOR
}

/// The header that the first bytes of `s` encode.
pub open spec fn parse_header(s: Seq<u8>) -> Option<Header> {
    if header_accepted(s) {
        Some(
            Header {
                magic_number: [s[0], s[1], s[2], s[3]],
                version: Version { major: s[4], minor: s[5], patch: s[6] },
                timestamp: parse_u64(s, 7).unwrap().0,
                central_directory_offset: parse_u64(s, 15).unwrap().0,
                central_directory_size: parse_u64(s, 23).unwrap().0,
                padding_size: parse_u64(s, 31).unwrap().0,
            },
        )
    } else {
        None
    }
}

/// Relies on std::time::SystemTime: the seconds since the Unix epoch now,
/// or 0 where the clock stands before it.
#[verifier::external_body]
fn seconds_since_epoch() -> (r: u64) {
    std::time::SystemTime::now().duration_since(std::time::UNIX_EPOCH).unwrap_or_default().as_secs()
}

fn read_u64_at(s: &[u8], p: usize) -> (r: u64)
    requires
        p + 8 <= s@.len(),
    ensures
        parse_u64(s@, p as int) == Some((r, p + 8)),
{
    let n = s.len();
    assert(p + 8 <= n);
    u64_from_le_bytes(slice_subrange(s, p, p + 8))
}

impl Header {
    /// A fresh header stamped with the current time: whole seconds since
    /// the Unix epoch, or 0 where the clock stands before it.
    pub fn new() -> (r: Header)
        ensures
            fresh_header(r),
    {
        Header::stamped(seconds_since_epoch())
    }

    /// A fresh header stamped with `timestamp`: the magic, version 0.1.0,
    /// no directory yet, and the default padding.
    pub fn stamped(timestamp: u64) -> (r: Header)
        ensures
            fresh_header(r),
            r.timestamp == timestamp,
    {
        let h = Header {
            magic_number: [75u8, 80u8, 68u8, 66u8],
            version: Version { major: VERSION_MAJOR, minor: VERSION_MINOR, patch: VERSION_PATCH },
            timestamp,
            central_directory_offset: 0,
            central_directory_size: 0,
            padding_size: HEADER_PADDING_SIZE,
        };
        assert(h.magic_number@ =~= magic());
        h
    }

    /// The fixed-width encoding: magic, version, timestamp, directory
    /// offset and size, padding size, integers little-endian.
    pub fn serialize(&self) -> (r: Vec<u8>)
        ensures
            r@ == header_bytes(*self),
            r@.len() == HEADER_SIZE,
    {
        let mut out: Vec<u8> = Vec::new();
        out.push(self.magic_number[0]);
        out.push(self.magic_number[1]);
        out.push(self.magic_number[2]);
        out.push(self.magic_number[3]);
        out.push(self.version.major);
        out.push(self.version.minor);
        out.push(self.version.patch);
        put_u64(&mut out, self.timestamp);
        put_u64(&mut out, self.central_directory_offset);
        put_u64(&mut out, self.central_directory_size);
        put_u64(&mut out, self.padding_size);
        proof {
            lemma_auto_spec_u64_to_from_le_bytes();
            assert(self.magic_number@.len() == 4);
            assert(out@ =~= header_bytes(*self));
        }
        out
    }

    /// Decodes the header at the start of `data`, refusing a short input,
    /// a wrong magic and an unsupported major version.
    pub fn deserialize(data: &[u8]) -> (r: Result<Header, KpdbError>)
        ensures
            match r {
                Ok(h) => parse_header(data@) == Some(h),
                Err(e) => parse_header(data@) is None && e == KpdbError::Format,
            },
    {
        if data.len() < HEADER_SIZE || data[0] != 75u8 || data[1] != 80u8 || data[2] != 68u8
            || data[3] != 66u8 || data[4] != VERSION_MAJOR {
            proof {
                if data@.len() >= HEADER_SIZE && data@.subrange(0, 4) == magic() {
                    assert(data@[0] == data@.subrange(0, 4)[0]);
                    assert(data@[1] == data@.subrange(0, 4)[1]);
                    assert(data@[2] == data@.subrange(0, 4)[2]);
                    assert(data@[3] == data@.subrange(0, 4)[3]);
                }
            }
            return Err(KpdbError::Format);
        }
        assert(data@.subrange(0, 4) =~= magic());
        Ok(
            Header {
                magic_number: [data[0], data[1], data[2], data[3]],
                version: Version { major: data[4], minor: data[5], patch: data[6] },
                timestamp: read_u64_at(data, 7),
                central_directory_offset: read_u64_at(data, 15),
                central_directory_size: read_u64_at(data, 23),
                padding_size: read_u64_at(data, 31),
            },
        )
    }
}

/// A header with the magic and the supported major version decodes to
/// itself, whatever follows it.
pub proof fn lemma_header_round_trip(h: Header, rest: Seq<u8>)
    requires
        h.magic_number@ == magic(),
        h.version.major == VERSION_MAJOR,
    ensures
        parse_header(header_bytes(h) + rest) == Some(h),
{
    let s = header_bytes(h) + rest;
    lemma_auto_spec_u64_to_from_le_bytes();
    assert(h.magic_number@.len() == 4);
    assert(s.subrange(0, 4) =~= magic());
    assert(s.subrange(7, 15) =~= le64(h.timestamp));
    assert(s.subrange(15, 23) =~= le64(h.central_directory_offset));
    assert(s.subrange(23, 31) =~= le64(h.central_directory_size));
    assert(s.subrange(31, 39) =~= le64(h.padding_size));
    lemma_u64_round_trip(s, 7, h.timestamp);
    lemma_u64_round_trip(s, 15, h.central_directory_offset);
    lemma_u64_round_trip(s, 23, h.central_directory_size);
    lemma_u64_round_trip(s, 31, h.padding_size);
    let m: [u8; 4] = [s[0], s[1], s[2], s[3]];
    assert(m@ =~= h.magic_number@);
    axiom_array_ext_equal(m, h.magic_number);
    assert(m == h.magic_number);
}

} // verus!
