//! The CompactSize encoding of counts, as `zcash_encoding` reads and writes it.

use crate::error::{ReadError, WriteError};
use corez::io::ErrorKind;
use vstd::bytes::*;
use vstd::prelude::*;
use zcash_encoding::CompactSize;

verus! {

/// The largest count that a CompactSize may carry.
pub const MAX_COMPACT_SIZE: u32 = 0x0200_0000;

/// The canonical CompactSize encoding of `n`: one byte below 253, otherwise a
/// marker byte followed by the shortest little-endian form that holds `n`.
pub open spec fn compact_size_bytes(n: u64) -> Seq<u8> {
    if n < 253 {
        seq![n as u8]
    } else if n <= 0xffff {
        seq![253u8] + spec_u16_to_le_bytes(n as u16)
    } else if n <= 0xffff_ffff {
        seq![254u8] + spec_u32_to_le_bytes(n as u32)
    } else {
        seq![255u8] + spec_u64_to_le_bytes(n)
    }
}

/// The count at the front of `s`, read without the consensus bound, with the
/// number of bytes it takes; non-canonical encodings are refused.
pub open spec fn compact_size_read_unbounded(s: Seq<u8>) -> Result<(u64, nat), ReadError> {
    if s.len() < 1 {
        Err(ReadError::UnexpectedEof)
    } else if s[0] < 253 {
        Ok((s[0] as u64, 1))
    } else if s[0] == 253 {
        if s.len() < 3 {
            Err(ReadError::UnexpectedEof)
        } else if spec_u16_from_le_bytes(s.subrange(1, 3)) < 253 {
            Err(ReadError::InvalidCompactSize)
        } else {
            Ok((spec_u16_from_le_bytes(s.subrange(1, 3)) as u64, 3))
        }
    } else if s[0] == 254 {
        if s.len() < 5 {
            Err(ReadError::UnexpectedEof)
        } else if spec_u32_from_le_bytes(s.subrange(1, 5)) < 0x10000 {
            Err(ReadError::InvalidCompactSize)
        } else {
            Ok((spec_u32_from_le_bytes(s.subrange(1, 5)) as u64, 5))
        }
    } else {
        if s.len() < 9 {
            Err(ReadError::UnexpectedEof)
        } else if spec_u64_from_le_bytes(s.subrange(1, 9)) < 0x1_0000_0000 {
            Err(ReadError::InvalidCompactSize)
        } else {
            Ok((spec_u64_from_le_bytes(s.subrange(1, 9)), 9))
        }
    }
}

/// The count at the front of `s` and the number of bytes it takes, as
/// `CompactSize::read` reads it: canonical, and at most `MAX_COMPACT_SIZE`.
pub open spec fn compact_size_read(s: Seq<u8>) -> Result<(u64, nat), ReadError> {
    match compact_size_read_unbounded(s) {
        Ok((n, k)) => if n > MAX_COMPACT_SIZE as u64 {
            Err(ReadError::InvalidCompactSize)
        } else {
            Ok((n, k))
        },
        Err(e) => Err(e),
    }
}

/// `compact_size_read` with, in place of the bytes taken, the number of bytes
/// left after the count.
pub open spec fn compact_size_read_leaving(s: Seq<u8>) -> Result<(u64, usize), ReadError> {
    match compact_size_read(s) {
        Ok((n, k)) => Ok((n, (s.len() - k) as usize)),
        Err(e) => Err(e),
    }
}

/// Reads the CompactSize count that starts at `input[pos]`.
///
/// Calls `CompactSize::read` on the bytes from `pos` on. That function reads a
/// flag byte, then two, four or eight little-endian bytes for flags 253, 254
/// and 255; it refuses an encoding that a shorter form could hold, and a count
/// above `MAX_COMPACT_SIZE` (`ErrorKind::InvalidInput`), and it fails with
/// `ErrorKind::UnexpectedEof` where the bytes run out. On success the wrapper
/// returns the count and the number of bytes left after it.
#[verifier::external_body]
pub(crate) fn compact_size_read_at(input: &[u8], pos: usize) -> (r: Result<(u64, usize), ReadError>)
    requires
        pos <= input.len(),
    ensures
        r == compact_size_read_leaving(input@.skip(pos as int)),
{
    let mut reader: &[u8] = &input[pos..];
    match CompactSize::read(&mut reader) {
        Ok(n) => Ok((n, reader.len())),
        Err(e) => Err(match e.kind() {
            ErrorKind::UnexpectedEof => ReadError::UnexpectedEof,
            _ => ReadError::InvalidCompactSize,
        }),
    }
}

/// Appends the CompactSize encoding of `size` to `out`.
///
/// Calls `CompactSize::write`, which refuses a count above `MAX_COMPACT_SIZE`
/// before writing anything, and otherwise writes the canonical encoding;
/// writing into a `Vec<u8>` cannot fail in any other way.
#[verifier::external_body]
pub(crate) fn compact_size_write(out: &mut Vec<u8>, size: usize) -> (r: Result<(), WriteError>)
    ensures
        r == (if size <= MAX_COMPACT_SIZE {
            Ok::<(), WriteError>(())
        } else {
            Err(WriteError::CompactSizeTooLarge)
        }),
        size <= MAX_COMPACT_SIZE ==> final(out)@ == old(out)@ + compact_size_bytes(size as u64),
        size > MAX_COMPACT_SIZE ==> final(out)@ == old(out)@,
{
    match CompactSize::write(&mut *out, size) {
        Ok(()) => Ok(()),
        Err(_) => Err(WriteError::CompactSizeTooLarge),
    }
}

/// A count written by `CompactSize::write` is read back, whatever follows it.
pub proof fn lemma_compact_size_round_trip(n: u64, rest: Seq<u8>)
    requires
        n <= MAX_COMPACT_SIZE,
    ensures
        compact_size_read(compact_size_bytes(n) + rest) == Ok::<(u64, nat), ReadError>(
            (n, compact_size_bytes(n).len()),
        ),
{
    lemma_auto_spec_u16_to_from_le_bytes();
    lemma_auto_spec_u32_to_from_le_bytes();
    let b = compact_size_bytes(n);
    let s = b + rest;
    if n < 253 {
        assert(s[0] == n as u8);
    } else if n <= 0xffff {
        assert(s.subrange(1, 3) =~= spec_u16_to_le_bytes(n as u16));
    } else {
        assert(s.subrange(1, 5) =~= spec_u32_to_le_bytes(n as u32));
    }
}

/// A count that was read is encoded by exactly the bytes it was read from.
pub proof fn lemma_compact_size_read_canonical(s: Seq<u8>)
    requires
        compact_size_read(s) is Ok,
    ensures
        compact_size_read(s) matches Ok((n, k)) && k <= s.len() && compact_size_bytes(n)
            == s.subrange(0, k as int),
{
    lemma_auto_spec_u16_to_from_le_bytes();
    lemma_auto_spec_u32_to_from_le_bytes();
    if s[0] < 253 {
        assert(compact_size_bytes(s[0] as u64) =~= s.subrange(0, 1));
    } else if s[0] == 253 {
        let t = s.subrange(1, 3);
        assert(spec_u16_to_le_bytes(spec_u16_from_le_bytes(t)) == t);
        assert(compact_size_bytes(spec_u16_from_le_bytes(t) as u64) =~= s.subrange(0, 3));
    } else if s[0] == 254 {
        let t = s.subrange(1, 5);
        assert(spec_u32_to_le_bytes(spec_u32_from_le_bytes(t)) == t);
        assert(compact_size_bytes(spec_u32_from_le_bytes(t) as u64) =~= s.subrange(0, 5));
    }
}

} // verus!
