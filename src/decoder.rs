//! The executable decoder.

use vstd::prelude::*;
use vstd::slice::{slice_subrange, slice_to_vec};
use vstd::utf8::{decode_utf8, valid_utf8};
use crate::model::{
    be_u32, declared_count, decode, header_of, lemma_walk_error_persists, padding_is_zero,
    record_at, walk, Entry, DIRECTORY_START, END_MARKER, HEADER_LEN, START_MARKER,
};
use crate::{DecodeError, MiniappFile, WxapkgHeader};

verus! {

/// Relies on `std::str::from_utf8`: it accepts exactly the byte sequences that
/// are valid UTF-8, and the text it returns is the characters they encode.
#[verifier::external_body]
fn utf8_text(bytes: &[u8]) -> (r: Option<String>)
    ensures
        r is Some <==> valid_utf8(bytes@),
        r is Some ==> r->Some_0@ == decode_utf8(bytes@),
{
    match std::str::from_utf8(bytes) {
        Ok(s) => Some(s.to_string()),
        Err(_) => None,
    }
}

/// Reads four bytes as a big-endian unsigned integer.
pub fn convert_to_u32(bytes: &[u8]) -> (r: u32)
    requires
        bytes@.len() == 4,
    ensures
        r == be_u32(bytes@, 0),
{
    (bytes[0] as u32) * 0x100_0000 + (bytes[1] as u32) * 0x1_0000 + (bytes[2] as u32) * 0x100
        + (bytes[3] as u32)
}

/// Reads the four bytes of `buf` at `pos` as a big-endian unsigned integer.
fn u32_at(buf: &[u8], pos: usize) -> (r: u32)
    requires
        pos + 4 <= buf@.len(),
    ensures
        r == be_u32(buf@, pos as int),
{
    // the length of a slice fits a usize, so `pos + 4` does not overflow
    let _ = buf.len();
    convert_to_u32(slice_subrange(buf, pos, pos + 4))
}

/// Validates the framing of a header and reads its two declared lengths.
pub fn convert_to_header(buf: &[u8]) -> (r: Result<WxapkgHeader, DecodeError>)
    requires
        buf@.len() == HEADER_LEN,
    ensures
        r == header_of(buf@),
{
    if buf[0] != START_MARKER || buf[13] != END_MARKER {
        return Err(DecodeError::BadMagic { first: buf[0], last: buf[13] });
    }
    let mut i: usize = 1;
    while i < 5
        invariant
            1 <= i <= 5,
            buf@.len() == HEADER_LEN,
            buf@[0] == START_MARKER,
            buf@[13] == END_MARKER,
            forall|j: int| 1 <= j < i ==> buf@[j] == 0,
        decreases 5 - i,
    {
        if buf[i] != 0 {
            assert(!padding_is_zero(buf@));
            return Err(DecodeError::BadPadding);
        }
        i += 1;
    }
    Ok(WxapkgHeader { len_index: u32_at(buf, 5), len_data: u32_at(buf, 9) })
}

/// Decodes the directory record at `start_index` and copies its content out
/// of the buffer; also gives the position of the next record.
pub fn convert_to_miniapp_file(wxapkg: &[u8], start_index: usize) -> (r: Result<
    (MiniappFile, usize),
    DecodeError,
>)
    requires
        start_index <= wxapkg@.len(),
    ensures
        match record_at(wxapkg@, start_index as int) {
            Ok((e, next)) => r is Ok && r->Ok_0.0@ == e && r->Ok_0.1 == next,
            Err(e) => r == Err::<(MiniappFile, usize), DecodeError>(e),
        },
{
    let len = wxapkg.len();
    if len - start_index < 4 {
        return Err(DecodeError::OutOfBounds { start: start_index, count: 4, len });
    }
    let len_filename = u32_at(wxapkg, start_index) as usize;
    let name_at = start_index + 4;
    if len - name_at < len_filename {
        return Err(DecodeError::OutOfBounds { start: name_at, count: len_filename, len });
    }
    let base = name_at + len_filename;
    let filename = match utf8_text(slice_subrange(wxapkg, name_at, base)) {
        Some(s) => s,
        None => {
            return Err(DecodeError::InvalidFilenameEncoding { offset: name_at });
        },
    };
    if len - base < 8 {
        return Err(DecodeError::OutOfBounds { start: base, count: 8, len });
    }
    let offset = u32_at(wxapkg, base) as usize;
    let content_size = u32_at(wxapkg, base + 4) as usize;
    if offset > len || len - offset < content_size {
        return Err(DecodeError::OutOfBounds { start: offset, count: content_size, len });
    }
    let content = slice_to_vec(slice_subrange(wxapkg, offset, offset + content_size));
    Ok((MiniappFile { filename, content }, base + 8))
}

/// Decodes a whole container held in memory: validates the header, then walks
/// the directory and copies out the content of each record, in directory order.
/// Fails with the first error met; nothing is returned from a failed walk.
pub fn decode_wxapkg(buf: &[u8]) -> (r: Result<Vec<MiniappFile>, DecodeError>)
    ensures
        match decode(buf@) {
            Ok(es) => r is Ok && r->Ok_0@.map_values(|f: MiniappFile| f@) == es,
            Err(e) => r == Err::<Vec<MiniappFile>, DecodeError>(e),
        },
        buf@.len() < HEADER_LEN ==> r == Err::<Vec<MiniappFile>, DecodeError>(
            DecodeError::Truncated { len: buf@.len() as usize },
        ),
        buf@.len() >= HEADER_LEN && (buf@[0] != START_MARKER || buf@[13] != END_MARKER) ==> (r
            matches Err(DecodeError::BadMagic { .. })),
        buf@.len() >= HEADER_LEN && buf@[0] == START_MARKER && buf@[13] == END_MARKER && (exists|
            j: int,
        | 1 <= j < 5 && buf@[j] != 0) ==> r == Err::<Vec<MiniappFile>, DecodeError>(
            DecodeError::BadPadding,
        ),
{
    let len = buf.len();
    if len < HEADER_LEN {
        return Err(DecodeError::Truncated { len });
    }
    match convert_to_header(slice_subrange(buf, 0, HEADER_LEN)) {
        Ok(_) => {},
        Err(e) => {
            assert(buf@.subrange(0, HEADER_LEN as int)[0] == buf@[0]);
            assert(buf@.subrange(0, HEADER_LEN as int)[13] == buf@[13]);
            return Err(e);
        },
    }
    assert(header_of(buf@) is Ok) by {
        assert(buf@.subrange(0, HEADER_LEN as int)[0] == buf@[0]);
        assert(buf@.subrange(0, HEADER_LEN as int)[13] == buf@[13]);
        assert forall|j: int| 1 <= j < 5 implies buf@[j] == 0 by {
            assert(buf@.subrange(0, HEADER_LEN as int)[j] == buf@[j]);
        }
    }
    if len < DIRECTORY_START {
        return Err(DecodeError::OutOfBounds { start: HEADER_LEN, count: 4, len });
    }
    let num_files = u32_at(buf, HEADER_LEN);
    let mut files: Vec<MiniappFile> = Vec::new();
    let mut start_index: usize = DIRECTORY_START;
    let mut i: u32 = 0;
    assert(files@.map_values(|f: MiniappFile| f@) =~= Seq::<Entry>::empty());
    while i < num_files
        invariant
            len == buf@.len(),
            len >= DIRECTORY_START,
            header_of(buf@) is Ok,
            num_files as nat == declared_count(buf@),
            i <= num_files,
            start_index <= len,
            walk(buf@, DIRECTORY_START as int, i as nat) == Ok::<(Seq<Entry>, int), DecodeError>(
                (files@.map_values(|f: MiniappFile| f@), start_index as int),
            ),
        decreases num_files - i,
    {
        match convert_to_miniapp_file(buf, start_index) {
            Ok((file, next_index)) => {
                proof {
                    let ghost old_view = files@.map_values(|f: MiniappFile| f@);
                    assert(files@.push(file).map_values(|f: MiniappFile| f@) =~= old_view.push(
                        file@,
                    ));
                }
                files.push(file);
                start_index = next_index;
            },
            Err(e) => {
                proof {
                    lemma_walk_error_persists(
                        buf@,
                        DIRECTORY_START as int,
                        (i + 1) as nat,
                        num_files as nat,
                    );
                }
                return Err(e);
            },
        }
        i += 1;
    }
    Ok(files)
}

} // verus!
