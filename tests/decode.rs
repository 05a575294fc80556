use unwxapkg::decode_wxapkg;
use unwxapkg::decoder::{convert_to_header, convert_to_miniapp_file, convert_to_u32};
use unwxapkg::{DecodeError, MiniappFile, WxapkgHeader};

fn be(v: u32) -> Vec<u8> {
    v.to_be_bytes().to_vec()
}

fn header(len_index: u32, len_data: u32) -> Vec<u8> {
    let mut h = vec![0xBE, 0, 0, 0, 0];
    h.extend(be(len_index));
    h.extend(be(len_data));
    h.push(0xED);
    h
}

/// Writes a container with the records in the given order and the contents
/// laid out back to back after the directory, in the same order.
fn container(entries: &[(&[u8], &[u8])]) -> Vec<u8> {
    let dir_len: usize = entries.iter().map(|(n, _)| 12 + n.len()).sum();
    let mut out = header(0, 0);
    out.extend(be(entries.len() as u32));
    let mut offset = 18 + dir_len;
    for (name, content) in entries {
        out.extend(be(name.len() as u32));
        out.extend_from_slice(name);
        out.extend(be(offset as u32));
        out.extend(be(content.len() as u32));
        offset += content.len();
    }
    for (_, content) in entries {
        out.extend_from_slice(content);
    }
    out
}

fn filenames(files: &[MiniappFile]) -> Vec<String> {
    files.iter().map(|f| f.filename.clone()).collect()
}

fn scenario_buffer(offset: u32) -> Vec<u8> {
    let mut buf = vec![0xBE, 0, 0, 0, 0, 0, 0, 0, 3, 0, 0, 0, 5, 0xED];
    buf.extend(be(1));
    buf.extend(be(6));
    buf.extend_from_slice(b"/a.txt");
    buf.extend(be(offset));
    buf.extend(be(3));
    buf.extend_from_slice(&[0x41, 0x42, 0x43]);
    buf
}

#[test]
fn scenario_single_entry() {
    let buf = scenario_buffer(36);
    assert_eq!(buf.len(), 39);
    let files = decode_wxapkg(&buf).unwrap();
    assert_eq!(files.len(), 1);
    assert_eq!(files[0].filename, "/a.txt");
    assert_eq!(files[0].content, b"ABC".to_vec());
}

#[test]
fn scenario_offset_one_past_end() {
    let buf = scenario_buffer(37);
    assert_eq!(
        decode_wxapkg(&buf).err(),
        Some(DecodeError::OutOfBounds { start: 37, count: 3, len: 39 })
    );
}

#[test]
fn short_buffers_are_truncated() {
    let full = scenario_buffer(36);
    for n in 0..14 {
        assert_eq!(decode_wxapkg(&full[..n]).err(), Some(DecodeError::Truncated { len: n }));
    }
}

#[test]
fn bad_start_marker() {
    for v in 0..=255u8 {
        if v == 0xBE {
            continue;
        }
        let mut buf = scenario_buffer(36);
        buf[0] = v;
        assert_eq!(
            decode_wxapkg(&buf).err(),
            Some(DecodeError::BadMagic { first: v, last: 0xED })
        );
    }
}

#[test]
fn bad_end_marker() {
    for v in 0..=255u8 {
        if v == 0xED {
            continue;
        }
        let mut buf = scenario_buffer(36);
        buf[13] = v;
        assert_eq!(
            decode_wxapkg(&buf).err(),
            Some(DecodeError::BadMagic { first: 0xBE, last: v })
        );
    }
}

#[test]
fn nonzero_padding() {
    for i in 1..5 {
        for v in [1u8, 0x80, 0xFF] {
            let mut buf = scenario_buffer(36);
            buf[i] = v;
            assert_eq!(decode_wxapkg(&buf).err(), Some(DecodeError::BadPadding));
        }
    }
}

#[test]
fn header_without_file_count() {
    let buf = header(0, 0);
    for extra in 0..4 {
        let mut b = buf.clone();
        b.extend(vec![0u8; extra]);
        assert_eq!(
            decode_wxapkg(&b).err(),
            Some(DecodeError::OutOfBounds { start: 14, count: 4, len: 14 + extra })
        );
    }
}

#[test]
fn empty_directory() {
    let buf = container(&[]);
    assert_eq!(buf.len(), 18);
    assert!(decode_wxapkg(&buf).unwrap().is_empty());
}

#[test]
fn round_trip_keeps_order_and_content() {
    let entries: Vec<(&[u8], &[u8])> = vec![
        (b"/app.json", b"{}"),
        (b"/pages/index/index.html", b"<html></html>"),
        (b"/empty.js", b""),
        (b"/img/logo.png", &[0x89, 0x50, 0x4E, 0x47, 0x00, 0xFF]),
    ];
    let files = decode_wxapkg(&container(&entries)).unwrap();
    assert_eq!(files.len(), entries.len());
    for (f, (n, c)) in files.iter().zip(entries.iter()) {
        assert_eq!(f.filename.as_bytes(), *n);
        assert_eq!(f.content.as_slice(), *c);
    }
}

#[test]
fn utf8_names_are_decoded() {
    let name = "/頁面/索引.html";
    let files = decode_wxapkg(&container(&[(name.as_bytes(), b"x")])).unwrap();
    assert_eq!(files[0].filename, name);
    assert_eq!(files[0].filename.chars().count(), 11);
}

#[test]
fn invalid_utf8_name() {
    let buf = container(&[(b"/ok", b"1"), (&[0x2F, 0xC3, 0x28], b"2")]);
    // second record: 18 + (12 + 3) bytes of the first, then its 4-byte length
    assert_eq!(
        decode_wxapkg(&buf).err(),
        Some(DecodeError::InvalidFilenameEncoding { offset: 37 })
    );
}

#[test]
fn empty_name_decodes() {
    let buf = container(&[(b"", b"content")]);
    let files = decode_wxapkg(&buf).unwrap();
    assert_eq!(files.len(), 1);
    assert_eq!(files[0].filename, "");
    assert_eq!(files[0].content, b"content".to_vec());
}

#[test]
fn directory_order_not_offset_order() {
    // contents stored in the reverse order of the directory
    let mut buf = header(0, 0);
    buf.extend(be(3));
    let names: [&[u8]; 3] = [b"/a", b"/b", b"/c"];
    let data_at = 18 + 3 * 14;
    for (i, n) in names.iter().enumerate() {
        buf.extend(be(2));
        buf.extend_from_slice(n);
        buf.extend(be((data_at + (2 - i)) as u32));
        buf.extend(be(1));
    }
    buf.extend_from_slice(b"CBA");
    let files = decode_wxapkg(&buf).unwrap();
    assert_eq!(filenames(&files), vec!["/a", "/b", "/c"]);
    let contents: Vec<Vec<u8>> = files.iter().map(|f| f.content.clone()).collect();
    assert_eq!(contents, vec![b"A".to_vec(), b"B".to_vec(), b"C".to_vec()]);
}

#[test]
fn content_past_end_in_later_record() {
    let mut buf = container(&[(b"/a", b"aa"), (b"/b", b"bb"), (b"/c", b"cc")]);
    let len = buf.len();
    // size field of the third record
    let size_at = 18 + 2 * 14 + 4 + 2 + 4;
    buf[size_at..size_at + 4].copy_from_slice(&be(3));
    assert_eq!(
        decode_wxapkg(&buf).err(),
        Some(DecodeError::OutOfBounds { start: len - 2, count: 3, len })
    );
}

#[test]
fn huge_offset_is_out_of_bounds() {
    let mut buf = container(&[(b"/a", b"aa")]);
    let len = buf.len();
    buf[24..28].copy_from_slice(&be(u32::MAX));
    buf[28..32].copy_from_slice(&be(u32::MAX));
    assert_eq!(
        decode_wxapkg(&buf).err(),
        Some(DecodeError::OutOfBounds { start: u32::MAX as usize, count: u32::MAX as usize, len })
    );
}

#[test]
fn fewer_records_than_declared() {
    let mut buf = container(&[(b"/a", b"aa")]);
    buf[14..18].copy_from_slice(&be(2));
    // the second record would start where the content begins
    let len = buf.len();
    assert_eq!(
        decode_wxapkg(&buf).err(),
        Some(DecodeError::OutOfBounds { start: 32, count: 4, len })
    );
}

#[test]
fn name_longer_than_buffer() {
    let mut buf = container(&[(b"/a", b"aa")]);
    buf[18..22].copy_from_slice(&be(1000));
    let len = buf.len();
    assert_eq!(
        decode_wxapkg(&buf).err(),
        Some(DecodeError::OutOfBounds { start: 22, count: 1000, len })
    );
}

#[test]
fn fields_cut_off() {
    let buf = container(&[(b"/a", b"")]);
    let cut = &buf[..28];
    assert_eq!(
        decode_wxapkg(cut).err(),
        Some(DecodeError::OutOfBounds { start: 24, count: 8, len: 28 })
    );
}

#[test]
fn header_lengths_are_read() {
    let h = convert_to_header(&header(3, 5)).unwrap();
    assert_eq!(h, WxapkgHeader { len_index: 3, len_data: 5 });
    let h = convert_to_header(&header(0x0102_0304, 0xFFFF_FFFF)).unwrap();
    assert_eq!(h.len_index, 0x0102_0304);
    assert_eq!(h.len_data, 0xFFFF_FFFF);
}

#[test]
fn u32_is_big_endian() {
    assert_eq!(convert_to_u32(&[0, 0, 0, 5]), 5);
    assert_eq!(convert_to_u32(&[0x12, 0x34, 0x56, 0x78]), 0x1234_5678);
    assert_eq!(convert_to_u32(&[0xFF, 0xFF, 0xFF, 0xFF]), u32::MAX);
    assert_eq!(convert_to_u32(&[1, 0, 0, 0]), 0x0100_0000);
}

#[test]
fn single_record_and_next_position() {
    let buf = container(&[(b"/x.js", b"abc"), (b"/y", b"")]);
    let (f, next) = convert_to_miniapp_file(&buf, 18).unwrap();
    assert_eq!(f.filename, "/x.js");
    assert_eq!(f.content, b"abc".to_vec());
    assert_eq!(next, 18 + 12 + 5);
    let (g, after) = convert_to_miniapp_file(&buf, next).unwrap();
    assert_eq!(g.filename, "/y");
    assert!(g.content.is_empty());
    assert_eq!(after, next + 14);
}
