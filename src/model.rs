//! The container layout, stated over byte sequences.

use vstd::prelude::*;
use vstd::utf8::{decode_utf8, valid_utf8};
use crate::{DecodeError, WxapkgHeader};

verus! {

/// Size of the fixed header.
pub const HEADER_LEN: usize = 14;

/// Position of the first directory record, right after the file count.
pub const DIRECTORY_START: usize = 18;

/// First byte of every container.
pub const START_MARKER: u8 = 0xBE;

/// Last byte of the header.
pub const END_MARKER: u8 = 0xED;

/// What a decoded entry is: its path and its content.
pub type Entry = (Seq<char>, Seq<u8>);

/// The big-endian unsigned 32-bit value of the four bytes at `p`.
pub open spec fn be_u32(b: Seq<u8>, p: int) -> int {
    b[p] as int * 0x100_0000 + b[p + 1] as int * 0x1_0000 + b[p + 2] as int * 0x100
        + b[p + 3] as int
}

/// The four reserved bytes after the start marker are all zero.
pub open spec fn padding_is_zero(b: Seq<u8>) -> bool {
    forall|j: int| 1 <= j < 5 ==> b[j] == 0
}

/// Validation of the first `HEADER_LEN` bytes of `b`.
pub open spec fn header_of(b: Seq<u8>) -> Result<WxapkgHeader, DecodeError> {
    if b[0] != START_MARKER || b[13] != END_MARKER {
        Err(DecodeError::BadMagic { first: b[0], last: b[13] })
    } else if !padding_is_zero(b) {
        Err(DecodeError::BadPadding)
    } else {
        Ok(WxapkgHeader { len_index: be_u32(b, 5) as u32, len_data: be_u32(b, 9) as u32 })
    }
}

/// The error for `count` bytes wanted at `start` of `b`.
pub open spec fn out_of_bounds(b: Seq<u8>, start: int, count: int) -> DecodeError {
    DecodeError::OutOfBounds { start: start as usize, count: count as usize, len: b.len() as usize }
}

/// The directory record at `pos`: its entry and the position of the next record.
pub open spec fn record_at(b: Seq<u8>, pos: int) -> Result<(Entry, int), DecodeError> {
    if pos + 4 > b.len() {
        Err(out_of_bounds(b, pos, 4))
    } else {
        let name_len = be_u32(b, pos);
        let name_at = pos + 4;
        if name_at + name_len > b.len() {
            Err(out_of_bounds(b, name_at, name_len))
        } else {
            let name = b.subrange(name_at, name_at + name_len);
            let base = name_at + name_len;
            if !valid_utf8(name) {
                Err(DecodeError::InvalidFilenameEncoding { offset: name_at as usize })
            } else if base + 8 > b.len() {
                Err(out_of_bounds(b, base, 8))
            } else {
                let offset = be_u32(b, base);
                let size = be_u32(b, base + 4);
                if offset + size > b.len() {
                    Err(out_of_bounds(b, offset, size))
                } else {
                    Ok(((decode_utf8(name), b.subrange(offset, offset + size)), base + 8))
                }
            }
        }
    }
}

/// The first `n` records of the directory that starts at `pos`, and the
/// position right after them; the first failing record's error otherwise.
pub open spec fn walk(b: Seq<u8>, pos: int, n: nat) -> Result<(Seq<Entry>, int), DecodeError>
    decreases n,
{
    if n == 0 {
        Ok((seq![], pos))
    } else {
        match walk(b, pos, (n - 1) as nat) {
            Err(e) => Err(e),
            Ok((es, p)) => match record_at(b, p) {
                Err(e) => Err(e),
                Ok((e, q)) => Ok((es.push(e), q)),
            },
        }
    }
}

/// The number of records that the container declares.
pub open spec fn declared_count(b: Seq<u8>) -> nat {
    be_u32(b, HEADER_LEN as int) as nat
}

/// What decoding the whole buffer `b` gives.
pub open spec fn decode(b: Seq<u8>) -> Result<Seq<Entry>, DecodeError> {
    if b.len() < HEADER_LEN {
        Err(DecodeError::Truncated { len: b.len() as usize })
    } else {
        match header_of(b) {
            Err(e) => Err(e),
            Ok(_) => if b.len() < DIRECTORY_START {
                Err(out_of_bounds(b, HEADER_LEN as int, 4))
            } else {
                match walk(b, DIRECTORY_START as int, declared_count(b)) {
                    Err(e) => Err(e),
                    Ok((es, _)) => Ok(es),
                }
            },
        }
    }
}

/// Once the walk fails, walking further gives the same error.
pub proof fn lemma_walk_error_persists(b: Seq<u8>, pos: int, k: nat, n: nat)
    requires
        k <= n,
        walk(b, pos, k) is Err,
    ensures
        walk(b, pos, n) == walk(b, pos, k),
    decreases n - k,
{
    if k < n {
        lemma_walk_error_persists(b, pos, k, (n - 1) as nat);
    }
}

} // verus!
