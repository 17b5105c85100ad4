//! The byte cursor: a sequential, consuming, big-endian reader over a byte
//! buffer, the sole primitive the decoder reads through.

use vstd::prelude::*;
use vstd::utf8::*;

use crate::tag::{spec_code, spec_id_of_code, TagID};

verus! {

/// A decode-time failure, fatal to the whole parse.
#[derive(Clone, Copy, PartialEq, Eq, Structural, Debug)]
pub enum ByteError {
    /// The buffer ended where `n` more bytes were declared.
    NextByteError(usize),
    /// A string's bytes were not valid UTF-8.
    Utf8Error,
    /// A tag-kind byte outside 0 through 12.
    InvalidTagID(u8),
}

pub type ByteResult<T> = Result<T, ByteError>;

/// The value of two big-endian bytes.
pub open spec fn be16(b: Seq<u8>) -> int
    recommends
        b.len() == 2,
{
    b[0] * 0x100 + b[1]
}

/// The value of four big-endian bytes.
pub open spec fn be32(b: Seq<u8>) -> int
    recommends
        b.len() == 4,
{
    b[0] * 0x100_0000 + b[1] * 0x1_0000 + b[2] * 0x100 + b[3]
}

/// The value of eight big-endian bytes.
pub open spec fn be64(b: Seq<u8>) -> int
    recommends
        b.len() == 8,
{
    b[0] * 0x100_0000_0000_0000 + b[1] * 0x1_0000_0000_0000 + b[2] * 0x100_0000_0000
        + b[3] * 0x1_0000_0000 + b[4] * 0x100_0000 + b[5] * 0x1_0000 + b[6] * 0x100 + b[7]
}

/// The signed reading of an 8-bit value, by two's complement.
pub open spec fn signed8(v: int) -> int {
    if v < 0x80 {
        v
    } else {
        v - 0x100
    }
}

/// The signed reading of a 16-bit value, by two's complement.
pub open spec fn signed16(v: int) -> int {
    if v < 0x8000 {
        v
    } else {
        v - 0x1_0000
    }
}

/// The signed reading of a 32-bit value, by two's complement.
pub open spec fn signed32(v: int) -> int {
    if v < 0x8000_0000 {
        v
    } else {
        v - 0x1_0000_0000
    }
}

/// The signed reading of a 64-bit value, by two's complement.
pub open spec fn signed64(v: int) -> int {
    if v < 0x8000_0000_0000_0000 {
        v
    } else {
        v - 0x1_0000_0000_0000_0000
    }
}

/// The unsigned 8-bit carrier of a signed value, by two's complement.
pub open spec fn unsigned8(v: int) -> int {
    if v >= 0 {
        v
    } else {
        v + 0x100
    }
}

/// The unsigned 16-bit carrier of a signed value, by two's complement.
pub open spec fn unsigned16(v: int) -> int {
    if v >= 0 {
        v
    } else {
        v + 0x1_0000
    }
}

/// The unsigned 32-bit carrier of a signed value, by two's complement.
pub open spec fn unsigned32(v: int) -> int {
    if v >= 0 {
        v
    } else {
        v + 0x1_0000_0000
    }
}

/// The unsigned 64-bit carrier of a signed value, by two's complement.
pub open spec fn unsigned64(v: int) -> int {
    if v >= 0 {
        v
    } else {
        v + 0x1_0000_0000_0000_0000
    }
}

/// The two big-endian bytes of a 16-bit value.
pub open spec fn u16_bytes(v: int) -> Seq<u8>
    recommends
        0 <= v < 0x1_0000,
{
    seq![(v / 0x100 % 0x100) as u8, (v % 0x100) as u8]
}

/// The four big-endian bytes of a 32-bit value.
pub open spec fn u32_bytes(v: int) -> Seq<u8>
    recommends
        0 <= v < 0x1_0000_0000,
{
    seq![
        (v / 0x100_0000 % 0x100) as u8,
        (v / 0x1_0000 % 0x100) as u8,
        (v / 0x100 % 0x100) as u8,
        (v % 0x100) as u8,
    ]
}

/// The eight big-endian bytes of a 64-bit value.
pub open spec fn u64_bytes(v: int) -> Seq<u8>
    recommends
        0 <= v < 0x1_0000_0000_0000_0000,
{
    seq![
        (v / 0x100_0000_0000_0000 % 0x100) as u8,
        (v / 0x1_0000_0000_0000 % 0x100) as u8,
        (v / 0x100_0000_0000 % 0x100) as u8,
        (v / 0x1_0000_0000 % 0x100) as u8,
        (v / 0x100_0000 % 0x100) as u8,
        (v / 0x1_0000 % 0x100) as u8,
        (v / 0x100 % 0x100) as u8,
        (v % 0x100) as u8,
    ]
}

/// Reading back the bytes of a 16-bit value gives the value.
pub broadcast proof fn lemma_be16_of_u16_bytes(v: int)
    requires
        0 <= v < 0x1_0000,
    ensures
        be16(#[trigger] u16_bytes(v)) == v,
        u16_bytes(v).len() == 2,
{
}

/// Reading back the bytes of a 32-bit value gives the value.
pub broadcast proof fn lemma_be32_of_u32_bytes(v: int)
    requires
        0 <= v < 0x1_0000_0000,
    ensures
        be32(#[trigger] u32_bytes(v)) == v,
        u32_bytes(v).len() == 4,
{
}

/// Reading back the bytes of a 64-bit value gives the value.
#[verifier::rlimit(60)]
pub broadcast proof fn lemma_be64_of_u64_bytes(v: int)
    requires
        0 <= v < 0x1_0000_0000_0000_0000,
    ensures
        be64(#[trigger] u64_bytes(v)) == v,
        u64_bytes(v).len() == 8,
{
    assert(v == (v / 0x100) * 0x100 + v % 0x100);
    assert(v / 0x100 == (v / 0x1_0000 * 0x100) + v / 0x100 % 0x100);
    assert(v / 0x1_0000 == (v / 0x100_0000 * 0x100) + v / 0x1_0000 % 0x100);
    assert(v / 0x100_0000 == (v / 0x1_0000_0000 * 0x100) + v / 0x100_0000 % 0x100);
    assert(v / 0x1_0000_0000 == (v / 0x100_0000_0000 * 0x100) + v / 0x1_0000_0000 % 0x100);
    assert(v / 0x100_0000_0000 == (v / 0x1_0000_0000_0000 * 0x100) + v / 0x100_0000_0000 % 0x100);
    assert(v / 0x1_0000_0000_0000 == (v / 0x100_0000_0000_0000 * 0x100) + v / 0x1_0000_0000_0000
        % 0x100);
    assert(v / 0x100_0000_0000_0000 % 0x100 == v / 0x100_0000_0000_0000);
}

/// Two bytes are the encoding of their own 16-bit reading.
pub broadcast proof fn lemma_u16_bytes_of_be16(b: Seq<u8>)
    requires
        b.len() == 2,
    ensures
        #[trigger] u16_bytes(be16(b)) == b,
{
    assert(u16_bytes(be16(b)) =~= b);
}

/// Four bytes are the encoding of their own 32-bit reading.
#[verifier::rlimit(60)]
pub broadcast proof fn lemma_u32_bytes_of_be32(b: Seq<u8>)
    requires
        b.len() == 4,
    ensures
        #[trigger] u32_bytes(be32(b)) == b,
{
    let v = be32(b);
    assert(v / 0x100 == b[0] * 0x1_0000 + b[1] * 0x100 + b[2]);
    assert(v / 0x1_0000 == b[0] * 0x100 + b[1]);
    assert(v / 0x100_0000 == b[0]);
    assert(u32_bytes(be32(b)) =~= b);
}

/// Eight bytes are the encoding of their own 64-bit reading.
#[verifier::rlimit(60)]
pub broadcast proof fn lemma_u64_bytes_of_be64(b: Seq<u8>)
    requires
        b.len() == 8,
    ensures
        #[trigger] u64_bytes(be64(b)) == b,
{
    let v = be64(b);
    assert(v / 0x100 == b[0] * 0x1_0000_0000_0000 + b[1] * 0x100_0000_0000 + b[2] * 0x1_0000_0000
        + b[3] * 0x100_0000 + b[4] * 0x1_0000 + b[5] * 0x100 + b[6]);
    assert(v / 0x1_0000 == b[0] * 0x100_0000_0000 + b[1] * 0x1_0000_0000 + b[2] * 0x100_0000
        + b[3] * 0x1_0000 + b[4] * 0x100 + b[5]);
    assert(v / 0x100_0000 == b[0] * 0x1_0000_0000 + b[1] * 0x100_0000 + b[2] * 0x1_0000
        + b[3] * 0x100 + b[4]);
    assert(v / 0x1_0000_0000 == b[0] * 0x100_0000 + b[1] * 0x1_0000 + b[2] * 0x100 + b[3]);
    assert(v / 0x100_0000_0000 == b[0] * 0x1_0000 + b[1] * 0x100 + b[2]);
    assert(v / 0x1_0000_0000_0000 == b[0] * 0x100 + b[1]);
    assert(v / 0x100_0000_0000_0000 == b[0]);
    assert(u64_bytes(be64(b)) =~= b);
}

/// A wrapper around a byte buffer and a read position that provides
/// functions to read bytes and turn them into data.
pub struct NbtBytesIter<'a> {
    pub bytes: &'a [u8],
    pub pos: usize,
}

impl<'a> NbtBytesIter<'a> {
    /// The read position has not run past the buffer.
    pub open spec fn wf(self) -> bool {
        self.pos <= self.bytes@.len()
    }

    /// The bytes not yet consumed.
    pub open spec fn remaining(self) -> Seq<u8> {
        self.bytes@.skip(self.pos as int)
    }

    /// A cursor at the start of a buffer.
    pub fn new(bytes: &'a [u8]) -> (r: NbtBytesIter<'a>)
        ensures
            r.wf(),
            r.bytes@ == bytes@,
            r.remaining() == bytes@,
    {
        let r = NbtBytesIter { bytes, pos: 0 };
        proof {
            assert(r.remaining() =~= bytes@);
        }
        r
    }

    /// Reads and consumes `n` bytes. Returns them on success, or
    /// `ByteError::NextByteError(n)` if fewer than `n` bytes remain.
    pub fn next_bytes(&mut self, n: usize) -> (r: ByteResult<Vec<u8>>)
        requires
            old(self).wf(),
        ensures
            final(self).wf(),
            final(self).bytes@ == old(self).bytes@,
            match r {
                Ok(v) => old(self).remaining().len() >= n && v@ == old(self).remaining().take(
                    n as int,
                ) && final(self).pos == old(self).pos + n,
                Err(e) => e == ByteError::NextByteError(n) && old(self).remaining().len() < n
                    && final(self).pos == old(self).pos,
            },
    {
        if n > self.bytes.len() - self.pos {
            return Err(ByteError::NextByteError(n));
        }
        let mut v: Vec<u8> = Vec::new();
        let mut i: usize = 0;
        while i < n
            invariant
                self.wf(),
                i <= n,
                self.pos + n <= self.bytes@.len(),
                self.bytes@.len() <= usize::MAX,
                v@ =~= self.remaining().take(i as int),
            decreases n - i,
        {
            v.push(self.bytes[self.pos + i]);
            i = i + 1;
        }
        proof {
            assert(v@ =~= self.remaining().take(n as int));
        }
        self.pos = self.pos + n;
        Ok(v)
    }

    /// Takes the next byte and constructs an `i8`.
    pub fn next_i8(&mut self) -> (r: ByteResult<i8>)
        requires
            old(self).wf(),
        ensures
            final(self).wf(),
            final(self).bytes@ == old(self).bytes@,
            match r {
                Ok(x) => old(self).remaining().len() >= 1 && x == signed8(
                    old(self).remaining()[0] as int,
                ) && final(self).pos == old(self).pos + 1,
                Err(e) => e == ByteError::NextByteError(1) && old(self).remaining().len() == 0
                    && final(self).pos == old(self).pos,
            },
    {
        if self.pos == self.bytes.len() {
            return Err(ByteError::NextByteError(1));
        }
        let b = self.bytes[self.pos];
        self.pos = self.pos + 1;
        if b < 0x80 {
            Ok(b as i8)
        } else {
            Ok((b as i16 - 0x100) as i8)
        }
    }

    /// Takes the next 2 bytes and constructs a big-endian `u16`.
    pub fn next_u16(&mut self) -> (r: ByteResult<u16>)
        requires
            old(self).wf(),
        ensures
            final(self).wf(),
            final(self).bytes@ == old(self).bytes@,
            match r {
                Ok(x) => old(self).remaining().len() >= 2 && x == be16(
                    old(self).remaining().take(2),
                ) && final(self).pos == old(self).pos + 2,
                Err(e) => e == ByteError::NextByteError(2) && old(self).remaining().len() < 2
                    && final(self).pos == old(self).pos,
            },
    {
        let v = self.next_bytes(2)?;
        Ok((v[0] as u16) * 0x100 + (v[1] as u16))
    }

    /// Takes the next 2 bytes and constructs a big-endian `i16`.
    pub fn next_i16(&mut self) -> (r: ByteResult<i16>)
        requires
            old(self).wf(),
        ensures
            final(self).wf(),
            final(self).bytes@ == old(self).bytes@,
            match r {
                Ok(x) => old(self).remaining().len() >= 2 && x == signed16(
                    be16(old(self).remaining().take(2)),
                ) && final(self).pos == old(self).pos + 2,
                Err(e) => e == ByteError::NextByteError(2) && old(self).remaining().len() < 2
                    && final(self).pos == old(self).pos,
            },
    {
        let v = self.next_u16()?;
        if v < 0x8000 {
            Ok(v as i16)
        } else {
            Ok((v as i32 - 0x1_0000) as i16)
        }
    }

    /// Takes the next 4 bytes and constructs a big-endian `u32`.
    pub fn next_u32(&mut self) -> (r: ByteResult<u32>)
        requires
            old(self).wf(),
        ensures
            final(self).wf(),
            final(self).bytes@ == old(self).bytes@,
            match r {
                Ok(x) => old(self).remaining().len() >= 4 && x == be32(
                    old(self).remaining().take(4),
                ) && final(self).pos == old(self).pos + 4,
                Err(e) => e == ByteError::NextByteError(4) && old(self).remaining().len() < 4
                    && final(self).pos == old(self).pos,
            },
    {
        let v = self.next_bytes(4)?;
        Ok(
            (v[0] as u32) * 0x100_0000 + (v[1] as u32) * 0x1_0000 + (v[2] as u32) * 0x100 + (
            v[3] as u32),
        )
    }

    /// Takes the next 4 bytes and constructs a big-endian `i32`.
    pub fn next_i32(&mut self) -> (r: ByteResult<i32>)
        requires
            old(self).wf(),
        ensures
            final(self).wf(),
            final(self).bytes@ == old(self).bytes@,
            match r {
                Ok(x) => old(self).remaining().len() >= 4 && x == signed32(
                    be32(old(self).remaining().take(4)),
                ) && final(self).pos == old(self).pos + 4,
                Err(e) => e == ByteError::NextByteError(4) && old(self).remaining().len() < 4
                    && final(self).pos == old(self).pos,
            },
    {
        let v = self.next_u32()?;
        if v < 0x8000_0000 {
            Ok(v as i32)
        } else {
            Ok((v as i64 - 0x1_0000_0000) as i32)
        }
    }

    /// Takes the next 8 bytes and constructs a big-endian `u64`.
    pub fn next_u64(&mut self) -> (r: ByteResult<u64>)
        requires
            old(self).wf(),
        ensures
            final(self).wf(),
            final(self).bytes@ == old(self).bytes@,
            match r {
                Ok(x) => old(self).remaining().len() >= 8 && x == be64(
                    old(self).remaining().take(8),
                ) && final(self).pos == old(self).pos + 8,
                Err(e) => e == ByteError::NextByteError(8) && old(self).remaining().len() < 8
                    && final(self).pos == old(self).pos,
            },
    {
        let v = self.next_bytes(8)?;
        Ok(
            (v[0] as u64) * 0x100_0000_0000_0000 + (v[1] as u64) * 0x1_0000_0000_0000 + (
            v[2] as u64) * 0x100_0000_0000 + (v[3] as u64) * 0x1_0000_0000 + (v[4] as u64)
                * 0x100_0000 + (v[5] as u64) * 0x1_0000 + (v[6] as u64) * 0x100 + (v[7] as u64),
        )
    }

    /// Takes the next 8 bytes and constructs a big-endian `i64`.
    pub fn next_i64(&mut self) -> (r: ByteResult<i64>)
        requires
            old(self).wf(),
        ensures
            final(self).wf(),
            final(self).bytes@ == old(self).bytes@,
            match r {
                Ok(x) => old(self).remaining().len() >= 8 && x == signed64(
                    be64(old(self).remaining().take(8)),
                ) && final(self).pos == old(self).pos + 8,
                Err(e) => e == ByteError::NextByteError(8) && old(self).remaining().len() < 8
                    && final(self).pos == old(self).pos,
            },
    {
        let v = self.next_u64()?;
        if v < 0x8000_0000_0000_0000 {
            Ok(v as i64)
        } else {
            Ok((v as i128 - 0x1_0000_0000_0000_0000) as i64)
        }
    }

    /// Gets the next bytes that represent a string: a 2-byte big-endian
    /// length that counts UTF-8 bytes, then that many bytes of text. A
    /// length of zero yields the empty string and consumes no further bytes.
    pub fn next_str(&mut self) -> (r: ByteResult<String>)
        requires
            old(self).wf(),
        ensures
            final(self).wf(),
            final(self).bytes@ == old(self).bytes@,
            match r {
                Ok(s) => {
                    let len = be16(old(self).remaining().take(2));
                    old(self).remaining().len() >= 2 + len
                        && encode_utf8(s@) == old(self).remaining().subrange(2, 2 + len)
                        && final(self).pos == old(self).pos + 2 + len
                },
                Err(ByteError::NextByteError(n)) => (n == 2 && old(self).remaining().len() < 2) || (
                old(self).remaining().len() >= 2 && n == be16(old(self).remaining().take(2))
                    && old(self).remaining().len() < 2 + n),
                Err(ByteError::Utf8Error) => {
                    let len = be16(old(self).remaining().take(2));
                    old(self).remaining().len() >= 2 + len && !valid_utf8(
                        old(self).remaining().subrange(2, 2 + len),
                    )
                },
                Err(ByteError::InvalidTagID(_)) => false,
            },
    {
        let name_len = self.next_u16()?;
        if name_len == 0 {
            proof {
                let ghost empty: Seq<char> = Seq::empty();
                reveal_with_fuel(encode_utf8, 1);
                assert(encode_utf8(empty) =~= old(self).remaining().subrange(2, 2));
            }
            Ok(String::new())
        } else {
            let raw = self.next_bytes(name_len as usize)?;
            proof {
                assert(raw@ =~= old(self).remaining().subrange(2, 2 + name_len as int));
            }
            match string_from_utf8(raw) {
                Some(s) => Ok(s),
                None => Err(ByteError::Utf8Error),
            }
        }
    }

    /// Gets the next byte and transforms it into a [`TagID`]. A byte
    /// outside 0 through 12 yields `ByteError::InvalidTagID` with the byte.
    pub fn next_id(&mut self) -> (r: ByteResult<TagID>)
        requires
            old(self).wf(),
        ensures
            final(self).wf(),
            final(self).bytes@ == old(self).bytes@,
            match r {
                Ok(id) => old(self).remaining().len() >= 1
                    && spec_code(id) == old(self).remaining()[0]
                    && spec_id_of_code(old(self).remaining()[0]) == Some(id)
                    && final(self).pos == old(self).pos + 1,
                Err(ByteError::NextByteError(n)) => n == 1 && old(self).remaining().len() == 0
                    && final(self).pos == old(self).pos,
                Err(ByteError::InvalidTagID(b)) => old(self).remaining().len() >= 1
                    && b == old(self).remaining()[0]
                    && spec_id_of_code(b) is None
                    && final(self).pos == old(self).pos,
                Err(ByteError::Utf8Error) => false,
            },
    {
        if self.pos == self.bytes.len() {
            return Err(ByteError::NextByteError(1));
        }
        let b = self.bytes[self.pos];
        match TagID::from_code(b) {
            Some(id) => {
                self.pos = self.pos + 1;
                Ok(id)
            },
            None => Err(ByteError::InvalidTagID(b)),
        }
    }
}

/// Relies on `String::from_utf8`: it succeeds exactly on UTF-8 input, and
/// the returned string's UTF-8 bytes are exactly the input bytes.
#[verifier::external_body]
fn string_from_utf8(v: Vec<u8>) -> (r: Option<String>)
    ensures
        r is Some <==> valid_utf8(v@),
        r matches Some(s) ==> encode_utf8(s@) == v@,
{
    String::from_utf8(v).ok()
}

} // verus!
