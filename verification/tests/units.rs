use flate2::write::ZlibEncoder;
use flate2::Compression;
use rdict::checksum::adler32_of;
use rdict::codec::{decompress, decompress_raw, finish_payload};
use rdict::error::MdictError;
use rdict::header::{
    attr_is_yes, attr_or, decode_attributes, find_attr, header_from_attrs, parse_encoding,
    parse_encryption, parse_header_attrs, parse_version, read_header, scan_attributes, Encryption,
    FormatVersion,
};
use rdict::index::{
    parse_key_block_info, parse_record_block_info, read_key, read_key_info, RecordBlockInfo,
};
use rdict::keys::{
    find_entry, index_is_ordered, parse_key_entries, read_key_entry, select_key_block, KeyEntry,
};
use rdict::index::KeyBlockInfo;
use rdict::mdict::with_leading_slash;
use rdict::records::{cut_record, locate_record_block, read_record};
use rdict::text::{
    decode_text, fold_case, has_prefix, key_form_of, lex_order, normalize, strip_key, text_is,
    units_of, widen, Encoding, KeyOrder,
};
use rdict::wire::{read_be, take_span};
use std::io::Write;

fn deflated(data: &[u8]) -> Vec<u8> {
    let mut encoder = ZlibEncoder::new(Vec::new(), Compression::best());
    encoder.write_all(data).unwrap();
    encoder.finish().unwrap()
}

fn framed(tag: u8, checksum: u32, payload: &[u8]) -> Vec<u8> {
    let mut out = vec![tag, 0, 0, 0];
    out.extend_from_slice(&checksum.to_be_bytes());
    out.extend_from_slice(payload);
    out
}

fn utf16(text: &str) -> Vec<u16> {
    text.encode_utf16().collect()
}

fn pairs(list: &[(&str, &str)]) -> Vec<(String, String)> {
    list.iter().map(|(k, v)| (k.to_string(), v.to_string())).collect()
}

#[test]
fn big_endian_numbers_are_read_at_every_width() {
    let data = [0x01, 0x02, 0x03, 0x04, 0x05, 0x06, 0x07, 0x08, 0xff];
    assert_eq!(read_be(&data, 0, 1), Some(0x01));
    assert_eq!(read_be(&data, 8, 1), Some(0xff));
    assert_eq!(read_be(&data, 0, 2), Some(0x0102));
    assert_eq!(read_be(&data, 1, 2), Some(0x0203));
    assert_eq!(read_be(&data, 0, 4), Some(0x0102_0304));
    assert_eq!(read_be(&data, 5, 4), Some(0x0607_08ff));
    assert_eq!(read_be(&data, 0, 8), Some(0x0102_0304_0506_0708));
    assert_eq!(read_be(&data, 1, 8), Some(0x0203_0405_0607_08ff));
    assert_eq!(read_be(&data, 2, 8), None);
    assert_eq!(read_be(&data, 9, 1), None);
    assert_eq!(read_be(&data, 10, 1), None);
    assert_eq!(read_be(&data, usize::MAX, 4), None);
    assert_eq!(read_be(&[], 0, 1), None);
    // Numbers are one, two, four or eight bytes wide.
    assert_eq!(read_be(&data, 0, 0), None);
    assert_eq!(read_be(&data, 0, 3), None);
    assert_eq!(read_be(&data, 0, 9), None);
}

#[test]
fn spans_stay_inside_the_file() {
    let data = [1u8, 2, 3, 4, 5];
    assert_eq!(take_span(&data, 1, 3), Some(&data[1..4]));
    assert_eq!(take_span(&data, 0, 5), Some(&data[..]));
    assert_eq!(take_span(&data, 5, 0), Some(&data[5..]));
    assert_eq!(take_span(&data, 5, 1), None);
    assert_eq!(take_span(&data, 6, 0), None);
    assert_eq!(take_span(&data, 2, u64::MAX), None);
    assert_eq!(take_span(&data, u64::MAX, 1), None);
}

#[test]
fn adler32_of_known_texts() {
    assert_eq!(adler32_of(b""), 1);
    assert_eq!(adler32_of(b"a"), 0x0062_0062);
    assert_eq!(adler32_of(b"Wikipedia"), 0x11e6_0398);
    assert_eq!(adler32_of(&[0xff; 6000]), {
        let mut a: u64 = 1;
        let mut b: u64 = 0;
        for _ in 0..6000 {
            a = (a + 255) % 65521;
            b = (b + a) % 65521;
        }
        ((b << 16) | a) as u32
    });
}

#[test]
fn raw_payloads_decode_by_their_tag() {
    let text = b"hello hello hello hello".to_vec();
    assert_eq!(decompress_raw(0, &text).unwrap(), text);
    assert_eq!(decompress_raw(0, &[]).unwrap(), Vec::<u8>::new());
    let packed = deflated(&text);
    assert_ne!(packed, text);
    assert_eq!(decompress_raw(2, &packed).unwrap(), text);
    assert_eq!(decompress_raw(2, &text).unwrap_err(), MdictError::CorruptBlock);
    assert_eq!(decompress_raw(2, &packed[..packed.len() - 5]).unwrap_err(), MdictError::CorruptBlock);
    assert_eq!(decompress_raw(1, &text).unwrap_err(), MdictError::UnsupportedCompression);
    assert_eq!(decompress_raw(3, &text).unwrap_err(), MdictError::UnsupportedCompression);
    assert_eq!(decompress_raw(255, &[]).unwrap_err(), MdictError::UnsupportedCompression);
}

#[test]
fn the_outcome_of_inflating_decides_a_zlib_payload() {
    let payload = [1u8, 2, 3];
    assert_eq!(finish_payload(2, &payload, Some(vec![9, 9])).unwrap(), vec![9, 9]);
    assert_eq!(finish_payload(2, &payload, None).unwrap_err(), MdictError::CorruptBlock);
    assert_eq!(finish_payload(0, &payload, None).unwrap(), vec![1, 2, 3]);
    assert_eq!(finish_payload(0, &payload, Some(vec![9])).unwrap(), vec![1, 2, 3]);
    assert_eq!(
        finish_payload(1, &payload, Some(vec![9])).unwrap_err(),
        MdictError::UnsupportedCompression
    );
}

#[test]
fn framed_blocks_are_held_against_their_checksum() {
    let text = b"some definition, some definition".to_vec();
    let sum = adler32_of(&text);
    assert_eq!(decompress(&framed(0, sum, &text)).unwrap(), text);
    assert_eq!(decompress(&framed(2, sum, &deflated(&text))).unwrap(), text);
    assert_eq!(
        decompress(&framed(0, sum ^ 1, &text)).unwrap_err(),
        MdictError::CorruptBlock
    );
    assert_eq!(
        decompress(&framed(2, sum + 1, &deflated(&text))).unwrap_err(),
        MdictError::CorruptBlock
    );
    assert_eq!(
        decompress(&framed(1, sum, &text)).unwrap_err(),
        MdictError::UnsupportedCompression
    );
    assert_eq!(decompress(&framed(9, sum, &text)).unwrap_err(), MdictError::UnsupportedCompression);
    // The reserved bytes are not examined.
    let mut block = framed(0, sum, &text);
    block[1] = 7;
    block[3] = 2;
    assert_eq!(decompress(&block).unwrap(), text);
    // A frame needs its eight bytes.
    assert_eq!(decompress(&[]).unwrap_err(), MdictError::CorruptBlock);
    assert_eq!(decompress(&[0, 0, 0, 0, 0, 0, 0]).unwrap_err(), MdictError::CorruptBlock);
    assert_eq!(decompress(&[0, 0, 0, 0, 0, 0, 0, 1]).unwrap(), Vec::<u8>::new());
    assert_eq!(decompress(&[0, 0, 0, 0, 0, 0, 0, 2]).unwrap_err(), MdictError::CorruptBlock);
}

#[test]
fn text_is_decoded_in_the_codec_of_the_file() {
    assert_eq!(decode_text("gr\u{fc}n".as_bytes(), Encoding::Utf8), "gr\u{fc}n");
    assert_eq!(decode_text(&[b'a', 0xff, b'b'], Encoding::Utf8), "a\u{fffd}b");
    assert_eq!(decode_text(&[b'a', 0xe9], Encoding::Latin1), "a\u{e9}");
    assert_eq!(decode_text(&[0x61, 0x00, 0x2d, 0x4e], Encoding::Utf16Le), "a\u{4e2d}");
    assert_eq!(decode_text(&[0x61, 0x00, 0x2d], Encoding::Utf16Le), "a");
    assert_eq!(decode_text(&[0x00, 0xd8, 0x61, 0x00], Encoding::Utf16Le), "\u{fffd}a");
    assert_eq!(decode_text(b"abc", Encoding::Gbk), "abc");
    assert_eq!(decode_text(b"abc", Encoding::Gb18030), "abc");
    assert_eq!(decode_text(b"abc", Encoding::Big5), "abc");
    assert_eq!(decode_text(b"", Encoding::Utf16Le), "");
    assert_eq!(units_of(&[1, 2, 3, 4, 5]), vec![0x0201, 0x0403]);
    assert_eq!(widen(&[1, 0xff]), vec![1, 0xff]);
    assert_eq!(
        decode_attributes(&vec![(utf16("d"), utf16("d\u{1f600}"))]).unwrap(),
        pairs(&[("d", "d\u{1f600}")])
    );
    assert!(decode_attributes(&vec![(vec![0x61, 0xd800], utf16("x"))]).is_none());
    assert_eq!(decode_attributes(&vec![(vec![], vec![])]).unwrap(), pairs(&[("", "")]));
    assert!(text_is(&"abc".to_string(), "abc"));
    assert!(!text_is(&"abc".to_string(), "abd"));
    assert!(!text_is(&"abc".to_string(), ""));
    assert_eq!(Encoding::Utf16Le.terminator_len(), 2);
    assert_eq!(Encoding::Utf8.terminator_len(), 1);
    assert_eq!(Encoding::Latin1.terminator_len(), 1);
}

#[test]
fn keys_are_folded_and_stripped_for_comparison() {
    assert_eq!(fold_case(b"Hello, WORLD @[`{ az AZ"), b"hello, world @[`{ az az".to_vec());
    assert_eq!(fold_case("\u{c9}A".as_bytes()), "\u{c9}a".as_bytes().to_vec());
    assert_eq!(strip_key(b" a-b_c.d\te9!Z~\x7f"), b"abcde9Z".to_vec());
    assert_eq!(strip_key("d\u{e9}j\u{e0} vu".as_bytes()), "d\u{e9}j\u{e0}vu".as_bytes().to_vec());
    assert_eq!(strip_key(b""), Vec::<u8>::new());
    assert_eq!(normalize(b"Ab-C", false, true), b"Ab-C".to_vec());
    assert_eq!(normalize(b"Ab-C", false, false), b"ab-c".to_vec());
    assert_eq!(normalize(b"Ab-C", true, true), b"AbC".to_vec());
    assert_eq!(normalize(b"Ab-C", true, false), b"abc".to_vec());
    assert_eq!(key_form_of("X y", true, false), b"xy".to_vec());
    assert_eq!(key_form_of("\u{4e2d}", true, false), "\u{4e2d}".as_bytes().to_vec());
}

#[test]
fn keys_are_ordered_byte_by_byte() {
    assert_eq!(lex_order(b"", b""), KeyOrder::Same);
    assert_eq!(lex_order(b"", b"a"), KeyOrder::Before);
    assert_eq!(lex_order(b"a", b""), KeyOrder::After);
    assert_eq!(lex_order(b"abc", b"abc"), KeyOrder::Same);
    assert_eq!(lex_order(b"abc", b"abd"), KeyOrder::Before);
    assert_eq!(lex_order(b"abd", b"abc"), KeyOrder::After);
    assert_eq!(lex_order(b"ab", b"abc"), KeyOrder::Before);
    assert_eq!(lex_order(b"abc", b"ab"), KeyOrder::After);
    assert_eq!(lex_order(b"Z", b"a"), KeyOrder::Before);
    assert_eq!(lex_order(&[0x7f], &[0x80]), KeyOrder::Before);
    assert_eq!(lex_order(&[0xff], &[0x00, 0xff]), KeyOrder::After);
    assert!(has_prefix(b"banana", b"ban"));
    assert!(has_prefix(b"banana", b""));
    assert!(has_prefix(b"banana", b"banana"));
    assert!(!has_prefix(b"banana", b"bananas"));
    assert!(!has_prefix(b"banana", b"bat"));
    assert!(!has_prefix(b"", b"a"));
}

#[test]
fn attributes_are_found_in_a_header_text() {
    let text = utf16("<Dictionary Title=\"A &amp; B\" x_1=\"y\" Empty=\"\" Format = \"no\" Last=\"z\"/>");
    let found = scan_attributes(&text).unwrap();
    let names: Vec<String> = found.iter().map(|p| String::from_utf16(&p.0).unwrap()).collect();
    let values: Vec<String> = found.iter().map(|p| String::from_utf16(&p.1).unwrap()).collect();
    assert_eq!(names, vec!["Title", "x_1", "Last"]);
    assert_eq!(values, vec!["A &amp; B", "y", "z"]);
    assert_eq!(scan_attributes(&utf16("")).unwrap().len(), 0);
    assert_eq!(scan_attributes(&utf16("no attributes here = \"")).unwrap().len(), 0);
    // A name that runs up to the quote takes the whole run.
    let found = scan_attributes(&utf16("a b\u{e9}cd=\"1\"")).unwrap();
    assert_eq!(found.len(), 1);
    assert_eq!(found[0].0, utf16("cd"));
    // A value that no quote closes makes the header unreadable.
    assert!(scan_attributes(&utf16("Title=\"open")).is_none());
    assert!(scan_attributes(&utf16("A=\"1\" B=\"")).is_none());
    assert!(scan_attributes(&utf16("A=\"1\" B=\"\"")).is_some());
    let decoded = decode_attributes(&found).unwrap();
    assert_eq!(decoded, pairs(&[("cd", "1")]));
    assert!(decode_attributes(&vec![(utf16("a"), vec![0xd800])]).is_none());
    assert_eq!(decode_attributes(&Vec::new()).unwrap(), Vec::new());
}

#[test]
fn the_last_attribute_of_a_name_counts() {
    let attrs = pairs(&[("A", "1"), ("B", "2"), ("A", "3"), ("StripKey", "Yes"), ("C", "yes")]);
    assert_eq!(find_attr(&attrs, "A"), Some("3".to_string()));
    assert_eq!(find_attr(&attrs, "B"), Some("2".to_string()));
    assert_eq!(find_attr(&attrs, "a"), None);
    assert_eq!(find_attr(&Vec::new(), "A"), None);
    assert_eq!(attr_or(&attrs, "B", "x"), "2");
    assert_eq!(attr_or(&attrs, "D", "x"), "x");
    assert!(attr_is_yes(&attrs, "StripKey"));
    assert!(!attr_is_yes(&attrs, "C"));
    assert!(!attr_is_yes(&attrs, "A"));
    assert!(!attr_is_yes(&attrs, "Missing"));
}

#[test]
fn engine_versions_tell_the_generation() {
    for text in ["1", "1.0", "1.2", "1.", "0.9", "01.5", "0", "1.99999999999999999999"] {
        assert_eq!(parse_version(text), FormatVersion::V1, "{}", text);
    }
    for text in ["2", "2.0", "2.", "3.0", "10", "12.5", "99999999999999999999999.0", "002"] {
        assert_eq!(parse_version(text), FormatVersion::V2, "{}", text);
    }
    for text in ["", ".5", "1.2.3", "1,2", "v1", "1 ", " 1", "1a", "1.a", "-1", "+1", "1e0"] {
        assert_eq!(parse_version(text), FormatVersion::V2, "{}", text);
    }
    assert_eq!(FormatVersion::V1.number_len(), 4);
    assert_eq!(FormatVersion::V2.number_len(), 8);
    assert_eq!(FormatVersion::V1.key_length_len(), 1);
    assert_eq!(FormatVersion::V2.key_length_len(), 2);
}

#[test]
fn encryption_and_encoding_are_read_off_their_attributes() {
    let none = Encryption { record: false, key_index: false };
    for text in ["", "No", "0"] {
        assert_eq!(parse_encryption(&text.to_string()), none);
    }
    for text in ["Yes", "1"] {
        assert_eq!(
            parse_encryption(&text.to_string()),
            Encryption { record: true, key_index: false }
        );
    }
    assert_eq!(
        parse_encryption(&"2".to_string()),
        Encryption { record: false, key_index: true }
    );
    for text in ["3", "4", "no", "yes", " "] {
        assert_eq!(
            parse_encryption(&text.to_string()),
            Encryption { record: true, key_index: true }
        );
    }
    assert_eq!(parse_encoding(&"UTF-8".to_string()), Encoding::Utf8);
    assert_eq!(parse_encoding(&"UTF-16LE".to_string()), Encoding::Utf16Le);
    assert_eq!(parse_encoding(&"GB18030".to_string()), Encoding::Gb18030);
    assert_eq!(parse_encoding(&"GBK".to_string()), Encoding::Gbk);
    assert_eq!(parse_encoding(&"BIG5".to_string()), Encoding::Big5);
    assert_eq!(parse_encoding(&"Latin-1".to_string()), Encoding::Latin1);
    assert_eq!(parse_encoding(&"".to_string()), Encoding::Utf8);
    assert_eq!(parse_encoding(&"KOI8-R".to_string()), Encoding::Utf8);
    assert_eq!(parse_encoding(&"gbk".to_string()), Encoding::Utf8);
}

#[test]
fn a_header_is_built_from_its_attributes() {
    let attrs = pairs(&[
        ("GeneratedByEngineVersion", "1.2"),
        ("Format", "Text"),
        ("KeyCaseSensitive", "Yes"),
        ("StripKey", "No"),
        ("Encryption", "1"),
        ("Encoding", "BIG5"),
        ("CreationDate", "2020-1-1"),
        ("Compact", "Yes"),
        ("Left2Right", "Yes"),
        ("StyleSheet", "1 <b> </b>"),
        ("Title", "T"),
        ("Description", "D"),
    ]);
    let h = header_from_attrs(&attrs, 77);
    assert_eq!(h.version, FormatVersion::V1);
    assert_eq!(h.engine_version, "1.2");
    assert_eq!(h.format, "Text");
    assert!(h.key_case_sensitive);
    assert!(!h.strip_key);
    assert_eq!(h.encryption, Encryption { record: true, key_index: false });
    assert_eq!(h.encoding, Encoding::Big5);
    assert_eq!(h.creation_date, "2020-1-1");
    assert!(h.compact);
    assert!(h.left2right);
    assert_eq!(h.data_offset, 77);
    assert_eq!(h.stylesheet, "1 <b> </b>");
    assert_eq!(h.title, "T");
    assert_eq!(h.description, "D");

    let h = header_from_attrs(&Vec::new(), 0);
    assert_eq!(h.version, FormatVersion::V2);
    assert_eq!(h.engine_version, "");
    assert_eq!(h.format, "Html");
    assert!(!h.key_case_sensitive);
    assert!(!h.strip_key);
    assert_eq!(h.encryption, Encryption { record: false, key_index: false });
    assert_eq!(h.encoding, Encoding::Utf8);
    assert_eq!(h.creation_date, "");
    assert!(!h.compact);
    assert!(!h.left2right);
    assert_eq!(h.stylesheet, "");
    assert_eq!(h.title, "Dictionary");
    assert_eq!(h.description, "");
}

fn header_file(text: &[u16]) -> Vec<u8> {
    let mut out = Vec::new();
    out.extend_from_slice(&((text.len() * 2) as u32).to_be_bytes());
    for unit in text {
        out.extend_from_slice(&unit.to_le_bytes());
    }
    out.extend_from_slice(&[0xde, 0xad, 0xbe, 0xef]);
    out
}

#[test]
fn a_header_is_read_from_the_start_of_a_file() {
    let text = utf16("<Dictionary GeneratedByEngineVersion=\"2.0\" Title=\"\u{8bcd}\u{5178}\" Encoding=\"UTF-16LE\"/>");
    let mut file = header_file(&text);
    let offset = file.len() as u64;
    file.extend_from_slice(b"what follows");
    let h = read_header(&file).unwrap();
    assert_eq!(h.data_offset, offset);
    assert_eq!(h.data_offset, text.len() as u64 * 2 + 8);
    assert_eq!(h.title, "\u{8bcd}\u{5178}");
    assert_eq!(h.encoding, Encoding::Utf16Le);
    assert_eq!(h.version, FormatVersion::V2);
    let parsed = parse_header_attrs(&text).unwrap();
    assert_eq!(parsed.data_offset, 0);
    assert_eq!(parsed.title, h.title);

    // An empty header stands for the defaults.
    let h = read_header(&[0, 0, 0, 0, 1, 2, 3, 4]).unwrap();
    assert_eq!(h.data_offset, 8);
    assert_eq!(h.title, "Dictionary");
    // Too short for the length, for the text, for the checksum.
    assert_eq!(read_header(&[0, 0, 0]).unwrap_err(), MdictError::Io);
    assert_eq!(read_header(&[0, 0, 0, 0]).unwrap_err(), MdictError::BadHeader);
    assert_eq!(read_header(&[0, 0, 0, 2, b'a', 0, 1, 2, 3]).unwrap_err(), MdictError::BadHeader);
    assert!(read_header(&[0, 0, 0, 2, b'a', 0, 1, 2, 3, 4]).is_ok());
    // An odd length.
    assert_eq!(
        read_header(&[0, 0, 0, 1, b'a', 0, 0, 0, 0, 0]).unwrap_err(),
        MdictError::BadHeader
    );
    // An unpaired surrogate.
    assert_eq!(read_header(&header_file(&[0x61, 0xdc00])).unwrap_err(), MdictError::BadHeader);
    // A value that no quote closes.
    assert_eq!(
        read_header(&header_file(&utf16("<Dictionary Title=\"x>"))).unwrap_err(),
        MdictError::BadHeader
    );
    assert_eq!(
        parse_header_attrs(&utf16("<Dictionary Title=\"x>")).unwrap_err(),
        MdictError::BadHeader
    );
}

fn key_info_entry(sizes: (u64, u64, u64), first: &[u8], last: &[u8], width: usize, tail: &[u8]) -> Vec<u8> {
    let mut out = Vec::new();
    out.extend_from_slice(&sizes.0.to_be_bytes());
    out.extend_from_slice(&sizes.1.to_be_bytes());
    out.extend_from_slice(&sizes.2.to_be_bytes());
    for key in [first, last] {
        out.extend_from_slice(&(key.len() as u64).to_be_bytes()[8 - width..]);
        out.extend_from_slice(key);
        out.extend_from_slice(tail);
    }
    out
}

#[test]
fn key_descriptors_are_read_with_the_widths_of_the_generation() {
    let mut data = key_info_entry((30, 100, 2), b"ant", b"bee", 2, &[0]);
    data.extend_from_slice(&key_info_entry((12, 40, 1), b"cat", b"cat", 2, &[0]));
    let infos = parse_key_block_info(&data, 2, 1000, FormatVersion::V2, Encoding::Utf8).unwrap();
    assert_eq!(infos.len(), 2);
    assert_eq!(infos[0].compressed_size, 30);
    assert_eq!(infos[0].decompressed_size, 100);
    assert_eq!(infos[0].num_entries, 2);
    assert_eq!(infos[0].first_key, "ant");
    assert_eq!(infos[0].last_key, "bee");
    assert_eq!(infos[0].file_offset, 1000);
    assert_eq!(infos[1].first_key, "cat");
    assert_eq!(infos[1].file_offset, 1030);
    // Fewer descriptors than the index holds are read from its start.
    assert_eq!(
        parse_key_block_info(&data, 1, 5, FormatVersion::V2, Encoding::Utf8).unwrap().len(),
        1
    );
    assert!(parse_key_block_info(&data, 0, 5, FormatVersion::V2, Encoding::Utf8)
        .unwrap()
        .is_empty());
    // More than it holds drain it.
    assert_eq!(
        parse_key_block_info(&data, 3, 5, FormatVersion::V2, Encoding::Utf8).unwrap_err(),
        MdictError::CorruptBlock
    );
    assert_eq!(
        parse_key_block_info(&data[..data.len() - 1], 2, 5, FormatVersion::V2, Encoding::Utf8)
            .unwrap_err(),
        MdictError::CorruptBlock
    );
    // Offsets must stay within 64 bits.
    assert_eq!(
        parse_key_block_info(&data, 2, u64::MAX - 29, FormatVersion::V2, Encoding::Utf8)
            .unwrap_err(),
        MdictError::BadHeader
    );
    assert!(parse_key_block_info(&data, 1, u64::MAX - 30, FormatVersion::V2, Encoding::Utf8)
        .is_ok());

    // The first generation has one byte for a key's length.
    let narrow = key_info_entry((1, 2, 3), b"k", b"kk", 1, &[0]);
    let infos = parse_key_block_info(&narrow, 1, 0, FormatVersion::V1, Encoding::Utf8).unwrap();
    assert_eq!(infos[0].last_key, "kk");
    assert_eq!(read_key_info(&narrow, 0, FormatVersion::V1, Encoding::Utf8).unwrap().1, narrow.len());
    assert!(read_key_info(&narrow, 1, FormatVersion::V1, Encoding::Utf8).is_none());
    assert!(read_key_info(&narrow, usize::MAX, FormatVersion::V1, Encoding::Utf8).is_none());

    // UTF-16 keys end in two zero bytes.
    let wide = key_info_entry((1, 2, 3), &[0x2d, 0x4e], &[0x87, 0x65], 2, &[0, 0]);
    let infos = parse_key_block_info(&wide, 1, 0, FormatVersion::V2, Encoding::Utf16Le).unwrap();
    assert_eq!(infos[0].first_key, "\u{4e2d}");
    assert_eq!(infos[0].last_key, "\u{6587}");

    let (key, next) = read_key(&[0, 2, b'h', b'i', 0, 9], 0, FormatVersion::V2, Encoding::Utf8).unwrap();
    assert_eq!((key.as_str(), next), ("hi", 5));
    let (key, next) = read_key(&[9, 2, b'h', b'i', 0], 1, FormatVersion::V1, Encoding::Utf8).unwrap();
    assert_eq!((key.as_str(), next), ("hi", 5));
    assert!(read_key(&[0, 2, b'h', b'i'], 0, FormatVersion::V2, Encoding::Utf8).is_none());
    assert!(read_key(&[0], 0, FormatVersion::V2, Encoding::Utf8).is_none());
    assert!(read_key(&[0, 0, 0], 0, FormatVersion::V2, Encoding::Utf16Le).is_none());
    assert_eq!(read_key(&[0, 0, 0], 0, FormatVersion::V2, Encoding::Utf8).unwrap().1, 3);
}

fn record_pairs(list: &[(u64, u64)]) -> Vec<u8> {
    let mut out = Vec::new();
    for (c, d) in list {
        out.extend_from_slice(&c.to_be_bytes());
        out.extend_from_slice(&d.to_be_bytes());
    }
    out
}

#[test]
fn record_descriptors_get_their_offsets_from_the_sizes_before_them() {
    let data = record_pairs(&[(10, 100), (20, 0), (5, 50)]);
    let (infos, total) = parse_record_block_info(&data, 3, 500).unwrap();
    assert_eq!(total, 150);
    assert_eq!(
        infos,
        vec![
            RecordBlockInfo { compressed_size: 10, decompressed_size: 100, file_offset: 500, logical_offset: 0 },
            RecordBlockInfo { compressed_size: 20, decompressed_size: 0, file_offset: 510, logical_offset: 100 },
            RecordBlockInfo { compressed_size: 5, decompressed_size: 50, file_offset: 530, logical_offset: 100 },
        ]
    );
    assert_eq!(parse_record_block_info(&data, 0, 7).unwrap(), (Vec::new(), 0));
    assert_eq!(parse_record_block_info(&data, 2, 0).unwrap().1, 100);
    assert_eq!(parse_record_block_info(&data, 4, 0).unwrap_err(), MdictError::CorruptBlock);
    assert_eq!(parse_record_block_info(&data[..47], 3, 0).unwrap_err(), MdictError::CorruptBlock);
    assert_eq!(
        parse_record_block_info(&data, 3, u64::MAX - 34).unwrap_err(),
        MdictError::BadHeader
    );
    assert!(parse_record_block_info(&data, 3, u64::MAX - 35).is_ok());
    let large = record_pairs(&[(1, u64::MAX), (1, 1)]);
    assert_eq!(parse_record_block_info(&large, 2, 0).unwrap_err(), MdictError::BadHeader);
    assert_eq!(parse_record_block_info(&large, 1, 0).unwrap().1, u64::MAX);

    // Every address below the total lies in one block.
    for address in 0..150u64 {
        let at = locate_record_block(&infos, total, address).unwrap();
        let block = infos[at];
        assert!(block.logical_offset <= address);
        assert!(address < block.logical_offset + block.decompressed_size);
        assert_eq!(at, if address < 100 { 0 } else { 2 });
    }
    assert_eq!(locate_record_block(&infos, total, 150), None);
    assert_eq!(locate_record_block(&infos, total, u64::MAX), None);
    assert_eq!(locate_record_block(&Vec::new(), 0, 0), None);
}

#[test]
fn a_record_is_cut_out_of_its_block() {
    let text = b"0123456789".to_vec();
    let frame = framed(2, adler32_of(&text), &deflated(&text));
    let block = RecordBlockInfo {
        compressed_size: frame.len() as u64,
        decompressed_size: 10,
        file_offset: 3,
        logical_offset: 40,
    };
    assert_eq!(cut_record(&frame, &block, 40, 4).unwrap(), b"0123".to_vec());
    assert_eq!(cut_record(&frame, &block, 43, 7).unwrap(), b"3456789".to_vec());
    assert_eq!(cut_record(&frame, &block, 43, 8).unwrap(), b"3456789".to_vec());
    assert_eq!(cut_record(&frame, &block, 49, u64::MAX).unwrap(), b"9".to_vec());
    assert_eq!(cut_record(&frame, &block, 45, 0).unwrap(), Vec::<u8>::new());
    assert_eq!(cut_record(&frame, &block, 50, 1).unwrap_err(), MdictError::CorruptBlock);
    assert_eq!(cut_record(&frame, &block, 39, 1).unwrap_err(), MdictError::CorruptBlock);
    let longer = RecordBlockInfo { decompressed_size: 11, ..block };
    assert_eq!(cut_record(&frame, &longer, 40, 1).unwrap_err(), MdictError::CorruptBlock);

    let mut file = vec![0xaa, 0xbb, 0xcc];
    file.extend_from_slice(&frame);
    let infos = vec![
        RecordBlockInfo { compressed_size: 3, decompressed_size: 40, file_offset: 0, logical_offset: 0 },
        block,
    ];
    assert_eq!(read_record(&file, &infos, 50, 42, 3).unwrap(), b"234".to_vec());
    assert_eq!(read_record(&file, &infos, 50, 50, 3).unwrap_err(), MdictError::CorruptBlock);
    // The first block's three bytes are no frame.
    assert_eq!(read_record(&file, &infos, 50, 0, 3).unwrap_err(), MdictError::CorruptBlock);
    file.truncate(file.len() - 1);
    assert_eq!(read_record(&file, &infos, 50, 42, 3).unwrap_err(), MdictError::Io);
}

fn entry_bytes(address: u64, key: &[u8], width: usize, tail: &[u8]) -> Vec<u8> {
    let mut out = address.to_be_bytes()[8 - width..].to_vec();
    out.extend_from_slice(key);
    out.extend_from_slice(tail);
    out
}

#[test]
fn key_entries_end_at_their_terminator() {
    let mut data = entry_bytes(7, b"one", 8, &[0]);
    data.extend_from_slice(&entry_bytes(0x0102_0304_0506_0708, b"", 8, &[0]));
    data.extend_from_slice(&entry_bytes(9, "dr\u{fc}".as_bytes(), 8, &[0]));
    let entries = parse_key_entries(&data, 3, FormatVersion::V2, Encoding::Utf8).unwrap();
    assert_eq!(entries.len(), 3);
    assert_eq!((entries[0].key.as_str(), entries[0].offset), ("one", 7));
    assert_eq!((entries[1].key.as_str(), entries[1].offset), ("", 0x0102_0304_0506_0708));
    assert_eq!((entries[2].key.as_str(), entries[2].offset), ("dr\u{fc}", 9));
    // Fewer entries than stated leave bytes behind; more drain the block.
    assert_eq!(
        parse_key_entries(&data, 2, FormatVersion::V2, Encoding::Utf8).unwrap_err(),
        MdictError::CorruptBlock
    );
    assert_eq!(
        parse_key_entries(&data, 4, FormatVersion::V2, Encoding::Utf8).unwrap_err(),
        MdictError::CorruptBlock
    );
    assert_eq!(
        parse_key_entries(&data[..data.len() - 1], 3, FormatVersion::V2, Encoding::Utf8).unwrap_err(),
        MdictError::CorruptBlock
    );
    assert!(parse_key_entries(&[], 0, FormatVersion::V2, Encoding::Utf8).unwrap().is_empty());
    assert_eq!(
        parse_key_entries(&[0], 0, FormatVersion::V2, Encoding::Utf8).unwrap_err(),
        MdictError::CorruptBlock
    );
    assert_eq!(
        parse_key_entries(&[], u64::MAX, FormatVersion::V2, Encoding::Utf8).unwrap_err(),
        MdictError::CorruptBlock
    );

    // The first generation has four bytes for the address.
    let narrow = entry_bytes(0xffff_ffff, b"k", 4, &[0]);
    let entries = parse_key_entries(&narrow, 1, FormatVersion::V1, Encoding::Utf8).unwrap();
    assert_eq!((entries[0].key.as_str(), entries[0].offset), ("k", 0xffff_ffff));

    // In UTF-16 a zero byte inside a code unit ends nothing.
    let wide = entry_bytes(1, &[0x61, 0x00, 0x00, 0x4e], 8, &[0, 0]);
    let (entry, next) = read_key_entry(&wide, 0, FormatVersion::V2, Encoding::Utf16Le).unwrap();
    assert_eq!(entry.key, "a\u{4e00}");
    assert_eq!(next, wide.len());
    assert!(read_key_entry(&wide[..wide.len() - 1], 0, FormatVersion::V2, Encoding::Utf16Le).is_none());
    // Read one byte late, the key begins at two zero bytes and is empty.
    let (entry, next) = read_key_entry(&wide, 1, FormatVersion::V2, Encoding::Utf16Le).unwrap();
    assert_eq!((entry.key.as_str(), entry.offset, next), ("", 0x161, 11));
    assert!(read_key_entry(&wide, 3, FormatVersion::V2, Encoding::Utf16Le).is_none());
    assert!(read_key_entry(&wide, wide.len(), FormatVersion::V2, Encoding::Utf16Le).is_none());
}

fn entries_of(list: &[(&str, u64)]) -> Vec<KeyEntry> {
    list.iter().map(|(k, o)| KeyEntry { key: k.to_string(), offset: *o }).collect()
}

#[test]
fn the_first_entry_with_the_form_of_the_query_is_found() {
    let entries = entries_of(&[("Ant", 0), ("a-n-t", 1), ("ant", 2), ("bee", 3)]);
    assert_eq!(find_entry(&entries, b"ant", false, true), Some(2));
    assert_eq!(find_entry(&entries, b"ant", false, false), Some(0));
    assert_eq!(find_entry(&entries, b"ant", true, true), Some(1));
    assert_eq!(find_entry(&entries, b"Ant", true, true), Some(0));
    assert_eq!(find_entry(&entries, b"bee", true, false), Some(3));
    assert_eq!(find_entry(&entries, b"a-n-t", false, true), Some(1));
    assert_eq!(find_entry(&entries, b"a-n-t", true, true), None);
    assert_eq!(find_entry(&entries, b"cow", false, false), None);
    assert_eq!(find_entry(&Vec::new(), b"ant", false, false), None);
}

fn blocks_of(ranges: &[(&str, &str)]) -> Vec<KeyBlockInfo> {
    ranges
        .iter()
        .map(|(first, last)| KeyBlockInfo {
            compressed_size: 0,
            decompressed_size: 0,
            num_entries: 1,
            first_key: first.to_string(),
            last_key: last.to_string(),
            file_offset: 0,
        })
        .collect()
}

#[test]
fn the_block_whose_range_holds_the_query_is_selected() {
    let blocks = blocks_of(&[("a", "c"), ("d", "d"), ("e", "moon"), ("n", "z")]);
    assert!(index_is_ordered(&blocks, false, true));
    for ordered in [true, false] {
        assert_eq!(select_key_block(&blocks, ordered, b"a", false, true), Some(0));
        assert_eq!(select_key_block(&blocks, ordered, b"b", false, true), Some(0));
        assert_eq!(select_key_block(&blocks, ordered, b"c", false, true), Some(0));
        assert_eq!(select_key_block(&blocks, ordered, b"ca", false, true), None);
        assert_eq!(select_key_block(&blocks, ordered, b"d", false, true), Some(1));
        assert_eq!(select_key_block(&blocks, ordered, b"moon", false, true), Some(2));
        assert_eq!(select_key_block(&blocks, ordered, b"moons", false, true), None);
        assert_eq!(select_key_block(&blocks, ordered, b"noon", false, true), Some(3));
        assert_eq!(select_key_block(&blocks, ordered, b"z", false, true), Some(3));
        assert_eq!(select_key_block(&blocks, ordered, b"zz", false, true), None);
        assert_eq!(select_key_block(&blocks, ordered, b"", false, true), None);
        assert_eq!(select_key_block(&blocks, ordered, b"A", false, true), None);
        assert_eq!(select_key_block(&Vec::new(), ordered, b"a", false, true), None);
    }
    // Ranges that meet in one key: the first block counts.
    let meeting = blocks_of(&[("a", "m"), ("m", "m"), ("m", "z")]);
    assert!(index_is_ordered(&meeting, false, true));
    assert_eq!(select_key_block(&meeting, true, b"m", false, true), Some(0));
    assert_eq!(select_key_block(&meeting, false, b"m", false, true), Some(0));
    assert_eq!(select_key_block(&meeting, true, b"n", false, true), Some(2));
    // What is in order depends on the form in which keys are compared.
    let mixed = blocks_of(&[("B", "c"), ("D", "e")]);
    assert!(!index_is_ordered(&mixed, false, true));
    assert!(index_is_ordered(&mixed, false, false));
    assert_eq!(select_key_block(&mixed, true, b"d", false, false), Some(1));
    assert_eq!(select_key_block(&mixed, false, b"D", false, true), Some(0));
    assert_eq!(select_key_block(&mixed, false, b"d", false, true), Some(1));
    assert_eq!(select_key_block(&mixed, false, b"f", false, true), None);
    assert_eq!(select_key_block(&mixed, false, b"a", false, true), Some(0));
    let backwards = blocks_of(&[("z", "a")]);
    assert!(!index_is_ordered(&backwards, false, true));
    assert_eq!(select_key_block(&backwards, false, b"m", false, true), None);
    let apart = blocks_of(&[("n", "z"), ("a", "m")]);
    assert!(!index_is_ordered(&apart, false, true));
    assert_eq!(select_key_block(&apart, false, b"b", false, true), Some(1));
    assert!(index_is_ordered(&Vec::new(), true, true));
}

#[test]
fn a_resource_name_gets_its_leading_slash() {
    assert_eq!(with_leading_slash("img/cat.png"), "/img/cat.png");
    assert_eq!(with_leading_slash("/img/cat.png"), "/img/cat.png");
    assert_eq!(with_leading_slash(""), "/");
    assert_eq!(with_leading_slash("/"), "/");
    assert_eq!(with_leading_slash("//x"), "//x");
    assert_eq!(with_leading_slash("\u{4e2d}/x"), "/\u{4e2d}/x");
    assert_eq!(with_leading_slash("\\x"), "/\\x");
}
