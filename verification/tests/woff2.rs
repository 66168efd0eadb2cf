use browser::woff2::{
    assemble_sfnt, checksum, decode, read_base128, read_u16, read_u32, round4, split_tables,
};
use std::io::Write;

fn brotli(bytes: &[u8]) -> Vec<u8> {
    let mut w = brotli::CompressorWriter::new(Vec::new(), 4096, 5, 22);
    w.write_all(bytes).unwrap();
    w.flush().unwrap();
    w.into_inner()
}

fn put_u32(v: &mut Vec<u8>, off: usize, x: u32) {
    v[off..off + 4].copy_from_slice(&x.to_be_bytes());
}

/// A WOFF2 file with one verbatim table: directory entry `flags` + base128 `orig_len`, then
/// `compressed` as the font data block, zero padding to a four-byte boundary, then `trailer`.
fn woff2_file(flags: u8, orig_len: &[u8], compressed: &[u8], trailer: &[u8]) -> Vec<u8> {
    let mut v = vec![0u8; 48];
    v[0..4].copy_from_slice(b"wOF2");
    put_u32(&mut v, 4, 0x0001_0000);
    v[12..14].copy_from_slice(&1u16.to_be_bytes());
    put_u32(&mut v, 20, compressed.len() as u32);
    v.push(flags);
    v.extend_from_slice(orig_len);
    v.extend_from_slice(compressed);
    while v.len() % 4 != 0 {
        v.push(0);
    }
    v.extend_from_slice(trailer);
    let n = v.len() as u32;
    put_u32(&mut v, 8, n);
    v
}

const HEAD_DATA: [u8; 5] = [1, 2, 3, 4, 5];

fn expected_sfnt() -> Vec<u8> {
    vec![
        0x00, 0x01, 0x00, 0x00, // flavor
        0x00, 0x01, // numTables
        0x00, 0x10, // searchRange
        0x00, 0x00, // entrySelector
        0x00, 0x00, // rangeShift
        b'h', b'e', b'a', b'd', // tag
        0x06, 0x02, 0x03, 0x04, // checksum
        0x00, 0x00, 0x00, 0x1c, // offset
        0x00, 0x00, 0x00, 0x05, // length
        1, 2, 3, 4, 5, 0, 0, 0, // padded data
    ]
}

#[test]
fn decodes_a_single_verbatim_table() {
    let file = woff2_file(1, &[5], &brotli(&HEAD_DATA), &[]);
    assert_eq!(decode(&file), Some(expected_sfnt()));
}

#[test]
fn rejects_malformed_woff2_headers_too() {
    let good = woff2_file(1, &[5], &brotli(&HEAD_DATA), &[]);
    // Bad signature.
    let mut bad = good.clone();
    bad[0] = b'x';
    assert_eq!(decode(&bad), None);
    // Font collection flavor.
    let mut bad = good.clone();
    put_u32(&mut bad, 4, 0x7474_6366);
    assert_eq!(decode(&bad), None);
    // Declared length differs from the file size.
    let mut bad = good.clone();
    let n = bad.len() as u32 + 1;
    put_u32(&mut bad, 8, n);
    assert_eq!(decode(&bad), None);
    // Zero tables.
    let mut bad = good.clone();
    bad[12] = 0;
    bad[13] = 0;
    assert_eq!(decode(&bad), None);
    // Too short to hold a header.
    assert_eq!(decode(&good[..40]), None);
}

#[test]
fn rejects_malformed_woff2_so_the_caller_falls_back() {
    let c = brotli(&HEAD_DATA);
    let good = woff2_file(1, &[5], &c, &[]);
    assert!(decode(&good).is_some());
    // Bad signature.
    let mut bad = good.clone();
    bad[1] = b'X';
    assert_eq!(decode(&bad), None);
    // Header length differs from the file size.
    let mut bad = good.clone();
    let n = bad.len() as u32 - 4;
    put_u32(&mut bad, 8, n);
    assert_eq!(decode(&bad), None);
    // Zero tables.
    let mut bad = good.clone();
    bad[13] = 0;
    assert_eq!(decode(&bad), None);
    // Extraneous bytes after the (final) compressed block.
    assert_eq!(decode(&woff2_file(1, &[5], &c, &[0, 0, 0, 0])), None);
    // Leading-zero base128 length.
    assert_eq!(decode(&woff2_file(1, &[0x80, 5], &c, &[])), None);
    // A transform version on a table that has no such transform.
    assert_eq!(decode(&woff2_file(0x41, &[5], &c, &[])), None);
    // Declared table length disagrees with the decompressed stream.
    assert_eq!(decode(&woff2_file(1, &[4], &c, &[])), None);
    // Garbage in place of a Brotli stream.
    assert_eq!(decode(&woff2_file(1, &[5], &[0xff, 0xff, 0xff, 0xff], &[])), None);
    // A metadata block that overlaps the compressed block.
    let mut overlap = woff2_file(1, &[5], &c, &[]);
    let off = 50 + c.len() as u32 - 1;
    put_u32(&mut overlap, 28, off);
    put_u32(&mut overlap, 32, 1);
    assert_eq!(decode(&overlap), None);
    // The block without its alignment padding is refused too.
    let mut unpadded = woff2_file(1, &[5], &c, &[]);
    if (50 + c.len()) % 4 != 0 {
        unpadded.truncate(50 + c.len());
        let n = unpadded.len() as u32;
        put_u32(&mut unpadded, 8, n);
        assert_eq!(decode(&unpadded), None);
    }
}

#[test]
fn accepts_a_valid_woff2_with_a_metadata_block() {
    let c = brotli(&HEAD_DATA);
    let mut file = woff2_file(1, &[5], &c, &[]);
    let meta_off = round4(50 + c.len());
    assert_eq!(file.len(), meta_off);
    file.extend_from_slice(b"meta");
    put_u32(&mut file, 28, meta_off as u32);
    put_u32(&mut file, 32, 4);
    let n = file.len() as u32;
    put_u32(&mut file, 8, n);
    assert_eq!(decode(&file), Some(expected_sfnt()));
    // The same block at a misaligned offset is refused.
    put_u32(&mut file, 28, meta_off as u32 + 1);
    assert_eq!(decode(&file), None);
}

#[test]
fn rounds_up_to_four() {
    assert_eq!(round4(0), 0);
    assert_eq!(round4(1), 4);
    assert_eq!(round4(4), 4);
    assert_eq!(round4(5), 8);
    assert_eq!(round4(usize::MAX), usize::MAX & !3);
}

#[test]
fn reads_big_endian_words() {
    let b = [0x12, 0x34, 0x56, 0x78, 0x9a];
    assert_eq!(read_u16(&b, 0), Some(0x1234));
    assert_eq!(read_u32(&b, 1), Some(0x3456_789a));
    assert_eq!(read_u32(&b, 2), None);
    assert_eq!(read_u16(&b, 4), None);
}

#[test]
fn base128_is_strict() {
    let mut off = 0;
    assert_eq!(read_base128(&[0x3f], &mut off), Some(63));
    assert_eq!(off, 1);
    let mut off = 1;
    assert_eq!(read_base128(&[0, 0x81, 0x00], &mut off), Some(128));
    assert_eq!(off, 3);
    let mut off = 0;
    assert_eq!(read_base128(&[0x8f, 0xff, 0xff, 0xff, 0x7f], &mut off), Some(u32::MAX));
    let mut off = 0;
    assert_eq!(read_base128(&[0x80, 0x01], &mut off), None);
    let mut off = 0;
    assert_eq!(read_base128(&[0x90, 0x80, 0x80, 0x80, 0x00], &mut off), None);
    let mut off = 0;
    assert_eq!(read_base128(&[0x81, 0x81, 0x81, 0x81, 0x81, 0x01], &mut off), None);
    let mut off = 0;
    assert_eq!(read_base128(&[0x81], &mut off), None);
}

#[test]
fn checksum_sums_padded_words() {
    assert_eq!(checksum(&[]), 0);
    assert_eq!(checksum(&HEAD_DATA), 0x0602_0304);
    assert_eq!(checksum(&[0xff, 0xff, 0xff, 0xff, 0, 0, 0, 2]), 1);
}

#[test]
fn assembles_records_in_tag_order_and_data_in_directory_order() {
    let b = u32::from_be_bytes(*b"bbbb");
    let a = u32::from_be_bytes(*b"aaaa");
    let out = assemble_sfnt(0x4f54_544f, &vec![(b, vec![9]), (a, vec![7, 7, 7, 7])]);
    assert_eq!(out.len(), 12 + 32 + 4 + 4);
    assert_eq!(&out[0..12], &[0x4f, 0x54, 0x54, 0x4f, 0, 2, 0, 32, 0, 1, 0, 0]);
    // First record: "aaaa", data at offset 48.
    assert_eq!(&out[12..16], b"aaaa");
    assert_eq!(&out[20..24], &48u32.to_be_bytes());
    // Second record: "bbbb", data at offset 44.
    assert_eq!(&out[28..32], b"bbbb");
    assert_eq!(&out[32..36], &0x0900_0000u32.to_be_bytes());
    assert_eq!(&out[36..40], &44u32.to_be_bytes());
    assert_eq!(&out[44..52], &[9, 0, 0, 0, 7, 7, 7, 7]);
}

/// A minimal CFF-flavoured (`OTTO`) font: `head`, `hhea` and `maxp` tables only.
fn otto_woff2() -> Vec<u8> {
    let mut head = vec![0u8; 54];
    head[0..4].copy_from_slice(&0x0001_0000u32.to_be_bytes());
    head[12..16].copy_from_slice(&0x5F0F_3CF5u32.to_be_bytes());
    head[18..20].copy_from_slice(&1000u16.to_be_bytes());
    let mut hhea = vec![0u8; 36];
    hhea[0..4].copy_from_slice(&0x0001_0000u32.to_be_bytes());
    hhea[4..6].copy_from_slice(&800i16.to_be_bytes());
    hhea[6..8].copy_from_slice(&(-200i16).to_be_bytes());
    let mut maxp = vec![0u8; 6];
    maxp[0..4].copy_from_slice(&0x0000_5000u32.to_be_bytes());
    maxp[4..6].copy_from_slice(&1u16.to_be_bytes());
    let mut stream = head.clone();
    stream.extend_from_slice(&hhea);
    stream.extend_from_slice(&maxp);
    let c = brotli(&stream);

    let mut v = vec![0u8; 48];
    v[0..4].copy_from_slice(b"wOF2");
    put_u32(&mut v, 4, 0x4F54_544F);
    v[12..14].copy_from_slice(&3u16.to_be_bytes());
    put_u32(&mut v, 20, c.len() as u32);
    // head (known tag 1), hhea (2), maxp (4), each with the null transform.
    v.extend_from_slice(&[1, 54, 2, 36, 4, 6]);
    v.extend_from_slice(&c);
    while v.len() % 4 != 0 {
        v.push(0);
    }
    let n = v.len() as u32;
    put_u32(&mut v, 8, n);
    v
}

#[test]
fn decodes_a_valid_cff_woff2_to_parseable_sfnt() {
    let bytes = otto_woff2();
    let sfnt = decode(&bytes).expect("a valid CFF woff2 should decode");
    // OTTO (CFF) signature, and fontdue must accept the reconstructed SFNT.
    assert_eq!(&sfnt[0..4], b"OTTO");
    assert_eq!(sfnt.len(), 12 + 3 * 16 + 56 + 36 + 8);
    assert!(browser::font::SystemFont::from_bytes(sfnt).is_some());
}

#[test]
fn the_decompressed_stream_is_cut_into_tables_in_directory_order() {
    let entries = vec![(1u32, 2u32), (7, 0), (9, 3)];
    let stream = vec![10u8, 11, 12, 13, 14];
    assert_eq!(
        split_tables(&entries, &stream),
        vec![(1, vec![10, 11]), (7, vec![]), (9, vec![12, 13, 14])]
    );
    assert_eq!(split_tables(&vec![], &vec![]), Vec::<(u32, Vec<u8>)>::new());
}
