use mdict::bytes::has_bytes;
use mdict::bytes::narrow_number;
use mdict::bytes::read_exact;
use mdict::bytes::read_number;
use mdict::bytes::read_u16_be;
use mdict::bytes::read_u16_le;
use mdict::bytes::read_u32_be;
use mdict::bytes::read_u32_le;
use mdict::bytes::read_u64_be;
use mdict::bytes::read_u64_le;
use mdict::bytes::read_u8;
use mdict::bytes::wide_number;
use mdict::codec::content_block;
use mdict::codec::decode_content_block;
use mdict::codec::unpack_payload;
use mdict::codec::ContentBlock;
use mdict::cond_if;
use mdict::decimal::digit;
use mdict::decimal::parse_decimal;
use mdict::decimal::Decimal;
use mdict::error::ContentBlockType;
use mdict::error::DecompressionCause;
use mdict::error::MetadataCause;
use mdict::key_index::key_block_info;
use mdict::key_index::read_directory;
use mdict::key_index::read_entries;
use mdict::key_index::read_entry;
use mdict::key_index::read_info;
use mdict::key_index::read_info_text;
use mdict::key_index::read_infos;
use mdict::key_index::read_key_blocks;
use mdict::key_index::read_key_header;
use mdict::key_index::KeyBlockHeader;
use mdict::key_index::KeyBlockInfo;
use mdict::key_index::KeyEntry;
use mdict::keys::find;
use mdict::keys::found_at;
use mdict::keys::normalize;
use mdict::keys::same_chars;
use mdict::keys::space;
use mdict::keys::to_lower;
use mdict::meta::dict_meta;
use mdict::meta::find_attribute;
use mdict::meta::parse_dict_meta;
use mdict::obfuscate::deobfuscate;
use mdict::obfuscate::derive_key;
use mdict::obfuscate::obfuscate;
use mdict::obfuscate::swap;
use mdict::record_index::read_record_blocks;
use mdict::record_index::read_record_header;
use mdict::record_index::read_record_infos;
use mdict::record_index::record_block;
use mdict::record_index::RecordBlockHeader;
use mdict::record_index::RecordBlockInfo;
use mdict::text::chars_of;
use mdict::text::decode_run;
use mdict::text::decode_utf16;
use mdict::text::decode_utf16_lossy;
use mdict::text::is_text;
use mdict::text::read_cstr;
use mdict::text::read_units;
use mdict::text::read_wide_len_prefixed;
use mdict::DictMeta;
use mdict::Error;
use ripemd128::Digest;
use ripemd128::Ripemd128;
use std::io::Write;

fn deflated(data: &[u8]) -> Vec<u8> {
    let mut encoder = flate2::write::ZlibEncoder::new(Vec::new(), flate2::Compression::default());
    encoder.write_all(data).unwrap();
    encoder.finish().unwrap()
}

fn framed(tag: u32, checksum: u32, payload: &[u8]) -> Vec<u8> {
    let mut out = Vec::new();
    out.extend_from_slice(&tag.to_le_bytes());
    out.extend_from_slice(&checksum.to_le_bytes());
    out.extend_from_slice(payload);
    out
}

fn chars(s: &str) -> Vec<char> {
    s.chars().collect()
}

fn codec_failure(method: ContentBlockType, cause: DecompressionCause) -> Error {
    Error::DecompressionFailed { method, cause }
}

#[test]
fn reads_numbers_in_both_orders() {
    let data = [0x01u8, 0x02, 0x03, 0x04, 0x05, 0x06, 0x07, 0x08, 0xff];
    assert_eq!(read_u8(&data, 8), Ok(0xff));
    assert_eq!(read_u8(&data, 9), Err(Error::Truncated));
    assert_eq!(read_u16_be(&data, 0), Ok(0x0102));
    assert_eq!(read_u16_le(&data, 0), Ok(0x0201));
    assert_eq!(read_u16_be(&data, 8), Err(Error::Truncated));
    assert_eq!(read_u16_le(&data, 8), Err(Error::Truncated));
    assert_eq!(read_u32_be(&data, 0), Ok(0x0102_0304));
    assert_eq!(read_u32_le(&data, 0), Ok(0x0403_0201));
    assert_eq!(read_u32_be(&data, 5), Ok(0x0607_08ff));
    assert_eq!(read_u32_be(&data, 6), Err(Error::Truncated));
    assert_eq!(read_u32_le(&data, 6), Err(Error::Truncated));
    assert_eq!(read_u64_be(&data, 0), Ok(0x0102_0304_0506_0708));
    assert_eq!(read_u64_le(&data, 0), Ok(0x0807_0605_0403_0201));
    assert_eq!(read_u64_be(&data, 1), Ok(0x0203_0405_0607_08ff));
    assert_eq!(read_u64_be(&data, 2), Err(Error::Truncated));
    assert_eq!(read_u64_le(&data, 2), Err(Error::Truncated));
    assert_eq!(read_u32_be(&data, usize::MAX), Err(Error::Truncated));
    assert_eq!(read_u64_be(&[0xff; 8], 0), Ok(u64::MAX));
    assert_eq!(read_u32_le(&[0xff; 4], 0), Ok(u32::MAX));
}

#[test]
fn number_width_follows_the_version() {
    let data = [0x01u8, 0x02, 0x03, 0x04, 0x05, 0x06, 0x07, 0x08];
    assert_eq!(read_number(&data, 0, true), Ok(0x0102_0304_0506_0708));
    assert_eq!(read_number(&data, 0, false), Ok(0x0102_0304));
    assert_eq!(read_number(&data, 4, false), Ok(0x0506_0708));
    assert_eq!(read_number(&data, 4, true), Err(Error::Truncated));
    assert_eq!(read_number(&data, 5, false), Err(Error::Truncated));
    assert_eq!(wide_number((&data, 0)), Ok(0x0102_0304_0506_0708));
    assert_eq!(narrow_number((&data, 0)), Ok(0x0102_0304));
}

#[test]
fn cond_if_picks_by_the_condition() {
    let double = |x: u32| x * 2;
    let square = |x: u32| x * x;
    assert_eq!(cond_if(true, double, square, 7), 14);
    assert_eq!(cond_if(false, double, square, 7), 49);
}

#[test]
fn byte_runs_are_bounded_by_the_source() {
    let data = [1u8, 2, 3, 4];
    assert!(has_bytes(&data, 0, 4));
    assert!(has_bytes(&data, 4, 0));
    assert!(!has_bytes(&data, 1, 4));
    assert!(!has_bytes(&data, 5, 0));
    assert!(!has_bytes(&data, 1, usize::MAX));
    assert_eq!(read_exact(&data, 1, 2), Ok(&data[1..3]));
    assert_eq!(read_exact(&data, 4, 0), Ok(&data[4..]));
    assert_eq!(read_exact(&data, 1, 4), Err(Error::Truncated));
    assert_eq!(read_exact(&data, 5, 0), Err(Error::Truncated));
    assert_eq!(read_exact(&data, 0, u64::MAX), Err(Error::Truncated));
}

#[test]
fn zero_terminated_strings() {
    let data = b"ab\0cd\0e";
    assert_eq!(read_cstr(data, 0, false), Ok(("ab".to_string(), 3)));
    assert_eq!(read_cstr(data, 2, false), Ok((String::new(), 3)));
    assert_eq!(read_cstr(data, 3, false), Ok(("cd".to_string(), 6)));
    assert_eq!(read_cstr(data, 6, false), Err(Error::Truncated));
    assert_eq!(read_cstr(data, 7, false), Err(Error::Truncated));
    assert_eq!(read_cstr(data, 70, false), Err(Error::Truncated));
    let wide = [0x08u8, 0x67, 0x00, 0x01, 0x41, 0x00, 0x00, 0x00, 0x42];
    assert_eq!(read_cstr(&wide, 0, true), Ok(("月\u{100}A".to_string(), 8)));
    assert_eq!(read_cstr(&wide, 4, true), Ok(("A".to_string(), 8)));
    assert_eq!(read_cstr(&wide, 6, true), Ok((String::new(), 8)));
    assert_eq!(read_cstr(&wide, 1, true), Ok(("g\u{4101}".to_string(), 7)));
    assert_eq!(read_cstr(&wide, 7, true), Err(Error::Truncated));
    assert_eq!(read_cstr(&wide, 8, true), Err(Error::Truncated));
}

#[test]
fn malformed_text_is_replaced() {
    assert_eq!(decode_run(b"caf\xc3\xa9", false), "café");
    assert_eq!(decode_run(b"a\xffb", false), "a\u{fffd}b");
    assert_eq!(decode_run(b"", false), "");
    assert_eq!(decode_run(&[0x41, 0x00, 0x08, 0x67], true), "A月");
    assert_eq!(decode_run(&[0x41, 0x00, 0x00, 0xd8], true), "A\u{fffd}");
    assert_eq!(decode_run(&[0x3d, 0xd8, 0x00, 0xde], true), "\u{1f600}");
    assert_eq!(decode_run(&[0x41, 0x00, 0x42], true), "A");
    assert_eq!(read_cstr(b"\xff\0", 0, false), Ok(("\u{fffd}".to_string(), 2)));
}

#[test]
fn utf16_is_decoded_as_the_standard_library_does() {
    assert_eq!(decode_utf16_lossy(&[]), "");
    assert_eq!(decode_utf16_lossy(&[0x41, 0x6708]), "A月");
    assert_eq!(decode_utf16_lossy(&[0xd83d, 0xde00]), "\u{1f600}");
    assert_eq!(decode_utf16_lossy(&[0xd800, 0xdc00]), "\u{10000}");
    assert_eq!(decode_utf16_lossy(&[0xdbff, 0xdfff]), "\u{10ffff}");
    assert_eq!(decode_utf16_lossy(&[0xd83d]), "\u{fffd}");
    assert_eq!(decode_utf16_lossy(&[0xde00, 0x41]), "\u{fffd}A");
    assert_eq!(decode_utf16_lossy(&[0xd83d, 0x41]), "\u{fffd}A");
    assert_eq!(decode_utf16_lossy(&[0xd83d, 0xd83d, 0xde00]), "\u{fffd}\u{1f600}");
    assert_eq!(decode_utf16(&[0x41, 0xd83d, 0xde00]), Some("A\u{1f600}".to_string()));
    assert_eq!(decode_utf16(&[]), Some(String::new()));
    assert_eq!(decode_utf16(&[0x41, 0xd83d]), None);
    assert_eq!(decode_utf16(&[0xde00]), None);
    let samples: [u16; 9] = [0x41, 0xd7ff, 0xd800, 0xdbff, 0xdc00, 0xdfff, 0xe000, 0xffff, 0];
    for a in samples {
        for b in samples {
            for c in samples {
                let units = [a, b, c];
                assert_eq!(decode_utf16_lossy(&units), String::from_utf16_lossy(&units));
                assert_eq!(decode_utf16(&units), String::from_utf16(&units).ok());
            }
        }
    }
}

#[test]
fn units_are_little_endian() {
    let data = [0xaau8, 0x01, 0x02, 0x03, 0x04, 0x05];
    assert_eq!(read_units(&data, 1, 2), Ok(vec![0x0201, 0x0403]));
    assert_eq!(read_units(&data, 0, 0), Ok(Vec::<u16>::new()));
    assert_eq!(read_units(&data, 0, 3), Ok(vec![0x01aa, 0x0302, 0x0504]));
    assert_eq!(read_units(&data, 1, 3), Err(Error::Truncated));
    assert_eq!(read_units(&data, 7, 0), Err(Error::Truncated));
    assert_eq!(read_units(&data, 0, usize::MAX), Err(Error::Truncated));
    assert_eq!(
        read_wide_len_prefixed(&[1, 0, 2, 0, 0x78, 0x56, 0x34, 0x12], 0, 2),
        Ok((vec![1, 2], 0x1234_5678))
    );
    assert_eq!(read_wide_len_prefixed(&[9, 1, 0, 4, 3, 2, 1], 1, 1), Ok((vec![1], 0x0102_0304)));
    assert_eq!(read_wide_len_prefixed(&[1, 0, 2, 0, 0, 0, 0], 0, 2), Err(Error::Truncated));
    assert_eq!(read_wide_len_prefixed(&[1, 0], 3, 0), Err(Error::Truncated));
    assert_eq!(read_wide_len_prefixed(&[1, 0], 0, u32::MAX), Err(Error::Truncated));
}

#[test]
fn strings_and_characters() {
    assert_eq!(chars_of("a月"), vec!['a', '月']);
    assert_eq!(chars_of(""), Vec::<char>::new());
    assert!(is_text(&"Yes".to_string(), "Yes"));
    assert!(!is_text(&"yes".to_string(), "Yes"));
}

#[test]
fn decimals() {
    assert_eq!(parse_decimal("2.0"), Some(Decimal { whole: 2, fraction: vec![0] }));
    assert_eq!(parse_decimal("1.25"), Some(Decimal { whole: 1, fraction: vec![2, 5] }));
    assert_eq!(parse_decimal("12"), Some(Decimal { whole: 12, fraction: vec![] }));
    assert_eq!(parse_decimal("3."), Some(Decimal { whole: 3, fraction: vec![] }));
    assert_eq!(parse_decimal("007.50"), Some(Decimal { whole: 7, fraction: vec![5, 0] }));
    assert_eq!(
        parse_decimal("18446744073709551615"),
        Some(Decimal { whole: u64::MAX, fraction: vec![] })
    );
    assert_eq!(parse_decimal("18446744073709551616"), None);
    assert_eq!(parse_decimal("99999999999999999999.5"), None);
    assert_eq!(parse_decimal(""), None);
    assert_eq!(parse_decimal(".5"), None);
    assert_eq!(parse_decimal("-1"), None);
    assert_eq!(parse_decimal("1.2.3"), None);
    assert_eq!(parse_decimal("1,5"), None);
    assert_eq!(parse_decimal("2.0 "), None);
    assert_eq!(parse_decimal("1e3"), None);
    assert_eq!(parse_decimal("٢"), None);
    assert_eq!(digit('7'), Some(7));
    assert_eq!(digit('0'), Some(0));
    assert_eq!(digit('a'), None);
    assert_eq!(digit('/'), None);
    assert_eq!(digit(':'), None);
}

#[test]
fn raw_blocks_round_trip() {
    for data in [&b""[..], &b"x"[..], &b"hello world"[..]] {
        let f = framed(0, 77, data);
        assert_eq!(
            decode_content_block(&f, data.len() as u64, 1 << 20),
            Ok(ContentBlock {
                block_type: ContentBlockType::Raw,
                checksum: 77,
                data: data.to_vec()
            })
        );
    }
}

#[test]
fn zlib_blocks_round_trip() {
    let long: Vec<u8> = (0..100_000u32).map(|i| (i * 7 % 251) as u8).collect();
    for data in [&b""[..], &b"x"[..], &b"hello hello hello hello"[..], &long[..]] {
        let f = framed(2, 5, &deflated(data));
        assert_eq!(
            decode_content_block(&f, data.len() as u64, 1 << 20),
            Ok(ContentBlock {
                block_type: ContentBlockType::Zlib,
                checksum: 5,
                data: data.to_vec()
            })
        );
    }
}

#[test]
fn lzo_blocks_decode() {
    let stored = [22u8, b'h', b'e', b'l', b'l', b'o', 0x11, 0, 0];
    assert_eq!(
        decode_content_block(&framed(1, 1, &stored), 5, 1 << 20),
        Ok(ContentBlock { block_type: ContentBlockType::Lzo, checksum: 1, data: b"hello".to_vec() })
    );
    let long: Vec<u8> = (0..5000u32).map(|i| (i % 13) as u8).collect();
    let packed = minilzo_rs::LZO::init().unwrap().compress(&long).unwrap();
    assert!(packed.len() < long.len());
    assert_eq!(
        unpack_payload(ContentBlockType::Lzo, &packed, long.len()),
        Ok(long.clone())
    );
    assert_eq!(
        unpack_payload(ContentBlockType::Lzo, &packed, 10),
        Err(codec_failure(ContentBlockType::Lzo, DecompressionCause::Codec))
    );
    assert_eq!(
        unpack_payload(ContentBlockType::Lzo, &packed[..packed.len() / 2], long.len()),
        Err(codec_failure(ContentBlockType::Lzo, DecompressionCause::Codec))
    );
}

#[test]
fn block_failures_are_told_apart() {
    let packed = deflated(b"hello");
    assert_eq!(
        decode_content_block(&framed(2, 0, &packed), 1 << 40, 1 << 20),
        Err(Error::SizeCeilingExceeded { declared: 1 << 40, limit: 1 << 20 })
    );
    assert_eq!(
        decode_content_block(&framed(9, 0, &packed), 1 << 40, 1 << 20),
        Err(Error::SizeCeilingExceeded { declared: 1 << 40, limit: 1 << 20 })
    );
    assert_eq!(decode_content_block(&[2, 0, 0, 0, 0, 0, 0], 0, 10), Err(Error::Truncated));
    assert_eq!(decode_content_block(&[], 0, 10), Err(Error::Truncated));
    assert_eq!(
        decode_content_block(&framed(3, 0, &packed), 5, 10),
        Err(Error::UnknownBlockType { value: 3 })
    );
    assert_eq!(
        decode_content_block(&framed(0x0100_0000, 0, &packed), 5, 10),
        Err(Error::UnknownBlockType { value: 0x0100_0000 })
    );
    assert_eq!(
        decode_content_block(&framed(2, 0, &packed), 4, 10),
        Err(codec_failure(ContentBlockType::Zlib, DecompressionCause::WrongLength))
    );
    assert_eq!(
        decode_content_block(&framed(2, 0, b"not zlib"), 5, 10),
        Err(codec_failure(ContentBlockType::Zlib, DecompressionCause::Codec))
    );
    assert_eq!(
        decode_content_block(&framed(2, 0, &packed[..packed.len() - 3]), 5, 10),
        Err(codec_failure(ContentBlockType::Zlib, DecompressionCause::Codec))
    );
    assert_eq!(
        decode_content_block(&framed(0, 0, b"hello"), 4, 10),
        Err(codec_failure(ContentBlockType::Raw, DecompressionCause::WrongLength))
    );
    assert_eq!(
        decode_content_block(&framed(1, 0, b"\xff\xff"), 4, 10),
        Err(codec_failure(ContentBlockType::Lzo, DecompressionCause::Codec))
    );
    assert_eq!(decode_content_block(&framed(0, 0, b""), 0, 0).map(|b| b.data), Ok(vec![]));
}

#[test]
fn blocks_are_read_where_they_stand() {
    let mut source = b"junk".to_vec();
    source.extend_from_slice(&framed(0, 3, b"abc"));
    source.extend_from_slice(b"more");
    assert_eq!(content_block(&source, 4, 11, 3, 10).map(|b| b.data), Ok(b"abc".to_vec()));
    assert_eq!(content_block(&source, 4, 12, 4, 10).map(|b| b.data), Ok(b"abcm".to_vec()));
    assert_eq!(content_block(&source, 4, 16, 3, 10), Err(Error::Truncated));
    assert_eq!(content_block(&source, 40, 0, 3, 10), Err(Error::Truncated));
    assert_eq!(content_block(&source, 4, 7, 3, 10), Err(Error::Truncated));
    assert_eq!(
        content_block(&source, 4, 16, 11, 10),
        Err(Error::SizeCeilingExceeded { declared: 11, limit: 10 })
    );
}

#[test]
fn key_is_the_digest_of_checksum_and_salt() {
    let key = derive_key(0x6463_6261);
    let mut hasher = Ripemd128::new();
    hasher.input(b"abcd\x95\x36\x00\x00");
    assert_eq!(key.to_vec(), hasher.result().to_vec());
    assert_ne!(key, derive_key(0x6463_6262));
    assert_ne!(&key[..8], b"abcd\x95\x36\x00\x00");
    let mut plain = Ripemd128::new();
    plain.input(b"abc");
    assert_eq!(
        plain.result().to_vec(),
        vec![
            0xc1, 0x4a, 0x12, 0x19, 0x9c, 0x66, 0xe4, 0xba, 0x84, 0x63, 0x6b, 0x0f, 0x69, 0x14,
            0x4c, 0x77
        ]
    );
}

#[test]
fn deobfuscation_follows_the_formula() {
    let key: [u8; 16] = [1, 2, 3, 4, 5, 6, 7, 8, 9, 10, 11, 12, 13, 14, 15, 16];
    assert_eq!(swap(0x12), 0x21);
    assert_eq!(swap(0xf0), 0x0f);
    assert_eq!(deobfuscate(&[], &key), Vec::<u8>::new());
    assert_eq!(deobfuscate(&[0x12], &key), vec![0x21 ^ 0x36 ^ 0 ^ 1]);
    assert_eq!(
        deobfuscate(&[0x12, 0x34, 0xab], &key),
        vec![0x21 ^ 0x36 ^ 0 ^ 1, 0x43 ^ 0x12 ^ 1 ^ 2, 0xba ^ 0x34 ^ 2 ^ 3]
    );
    let long = vec![0u8; 300];
    let plain = deobfuscate(&long, &key);
    assert_eq!(plain[0], 0x36 ^ 1);
    assert_eq!(plain[17], 17 ^ 2);
    assert_eq!(plain[256], 0 ^ 1);
    assert_eq!(plain[257], 1 ^ 2);
}

#[test]
fn obfuscation_and_deobfuscation_undo_each_other() {
    let key = derive_key(0x0bad_cafe);
    let text: Vec<u8> = (0..1000u32).map(|i| (i * 31 % 256) as u8).collect();
    let cipher = obfuscate(&text, &key);
    assert_ne!(cipher, text);
    assert_eq!(deobfuscate(&cipher, &key), text);
    let plain = deobfuscate(&text, &key);
    assert_eq!(obfuscate(&plain, &key), text);
    assert_eq!(obfuscate(&[0x17], &key), vec![swap(0x17 ^ 0x36 ^ key[0])]);
}

#[test]
fn headword_comparison() {
    for c in ['\t', '\n', '\u{b}', '\u{c}', '\r', ' ', '\u{85}', '\u{a0}', '\u{1680}', '\u{2000}',
        '\u{200a}', '\u{2028}', '\u{2029}', '\u{202f}', '\u{205f}', '\u{3000}']
    {
        assert!(space(c), "{:?}", c);
        assert!(c.is_whitespace());
    }
    for c in ['a', '\u{8}', '\u{e}', '\u{200b}', '\u{2027}', '\u{feff}', '\u{1f}'] {
        assert!(!space(c), "{:?}", c);
    }
    assert_eq!(to_lower('A'), 'a');
    assert_eq!(to_lower('Z'), 'z');
    assert_eq!(to_lower('a'), 'a');
    assert_eq!(to_lower('@'), '@');
    assert_eq!(to_lower('['), '[');
    assert_eq!(to_lower('É'), 'É');
    assert_eq!(normalize(&chars("  Ap Ple\t"), true, true), chars("apple"));
    assert_eq!(normalize(&chars("  Ap Ple\t"), true, false), chars("ApPle"));
    assert_eq!(normalize(&chars(" Ap Ple"), false, true), chars(" ap ple"));
    assert_eq!(normalize(&chars(" Ap Ple"), false, false), chars(" Ap Ple"));
    assert_eq!(normalize(&chars(""), true, true), chars(""));
    assert!(same_chars(&chars("ab"), &chars("ab")));
    assert!(!same_chars(&chars("ab"), &chars("ac")));
    assert!(!same_chars(&chars("ab"), &chars("abc")));
    assert!(same_chars(&chars(""), &chars("")));
}

#[test]
fn substring_search() {
    assert!(find(&chars("banana"), &chars("nan")));
    assert!(find(&chars("banana"), &chars("banana")));
    assert!(find(&chars("banana"), &chars("a")));
    assert!(find(&chars("banana"), &chars("")));
    assert!(find(&chars(""), &chars("")));
    assert!(find(&chars("banana"), &chars("na")));
    assert!(!find(&chars("banana"), &chars("nab")));
    assert!(!find(&chars("banana"), &chars("bananas")));
    assert!(!find(&chars(""), &chars("a")));
    assert!(found_at(&chars("banana"), &chars("nan"), 2));
    assert!(!found_at(&chars("banana"), &chars("nan"), 1));
    assert!(found_at(&chars("banana"), &chars(""), 6));
    assert!(!found_at(&chars("banana"), &chars(""), 7));
    assert!(!found_at(&chars("banana"), &chars("na"), 5));
    assert!(found_at(&chars("banana"), &chars("na"), 4));
}

#[test]
fn attributes_are_found_by_name() {
    let attrs = vec![
        ("A".to_string(), "1".to_string()),
        ("B".to_string(), "2".to_string()),
        ("A".to_string(), "3".to_string()),
    ];
    assert_eq!(find_attribute(&attrs, "A"), Some("1".to_string()));
    assert_eq!(find_attribute(&attrs, "B"), Some("2".to_string()));
    assert_eq!(find_attribute(&attrs, "C"), None);
    assert_eq!(find_attribute(&attrs, "a"), None);
    assert_eq!(find_attribute(&Vec::new(), "A"), None);
}

fn pairs(list: &[(&str, &str)]) -> Vec<(String, String)> {
    list.iter().map(|p| (p.0.to_string(), p.1.to_string())).collect()
}

fn required() -> Vec<(&'static str, &'static str)> {
    vec![
        ("GeneratedByEngineVersion", "1.2"),
        ("RequiredEngineVersion", "2.0"),
        ("Format", "Html"),
        ("KeyCaseSensitive", "No"),
        ("Encrypted", "0"),
        ("Description", "d"),
        ("Title", "t"),
        ("Encoding", "UTF-8"),
        ("Compact", "Yes"),
        ("Compat", "No"),
        ("Left2Right", "Yes"),
        ("DataSourceFormat", "106"),
        ("StyleSheet", "s"),
    ]
}

#[test]
fn metadata_from_attributes() {
    let meta = DictMeta::from_attributes(&pairs(&required())).unwrap();
    assert_eq!(meta.generated_by_engine_version, Decimal { whole: 1, fraction: vec![2] });
    assert_eq!(meta.required_engine_version, Decimal { whole: 2, fraction: vec![0] });
    assert_eq!(meta.format, "Html");
    assert_eq!(meta.key_case_sensitive, "No");
    assert_eq!(meta.strip_key, None);
    assert_eq!(meta.encrypted, "0");
    assert_eq!(meta.register_by, None);
    assert_eq!(meta.description, "d");
    assert_eq!(meta.title, "t");
    assert_eq!(meta.encoding, "UTF-8");
    assert_eq!(meta.creation_date, None);
    assert_eq!(meta.compact, "Yes");
    assert_eq!(meta.compat, "No");
    assert_eq!(meta.left2right, "Yes");
    assert_eq!(meta.data_source_format, "106");
    assert_eq!(meta.style_sheet, "s");
    assert!(meta.is_ver2());
    assert!(!meta.is_utf16());
    assert!(meta.folds_case());
    assert!(!meta.strips_keys());
    for missing in 0..required().len() {
        let mut list = required();
        list.remove(missing);
        assert_eq!(
            DictMeta::from_attributes(&pairs(&list)),
            Err(Error::MetadataDecodeFailed { cause: MetadataCause::MissingAttribute })
        );
    }
}

#[test]
fn version_and_flags() {
    let mut list = required();
    list[1] = ("RequiredEngineVersion", "1.99");
    list[7] = ("Encoding", "UTF-16");
    list[3] = ("KeyCaseSensitive", "Yes");
    list.push(("StripKey", "Yes"));
    list.push(("RegisterBy", "EMail"));
    list.push(("CreationDate", "today"));
    let meta = DictMeta::from_attributes(&pairs(&list)).unwrap();
    assert!(!meta.is_ver2());
    assert!(meta.is_utf16());
    assert!(!meta.folds_case());
    assert!(meta.strips_keys());
    assert_eq!(meta.register_by, Some("EMail".to_string()));
    assert_eq!(meta.creation_date, Some("today".to_string()));
    list[1] = ("RequiredEngineVersion", "3");
    assert!(DictMeta::from_attributes(&pairs(&list)).unwrap().is_ver2());
    list[0] = ("GeneratedByEngineVersion", "x");
    assert_eq!(
        DictMeta::from_attributes(&pairs(&list)),
        Err(Error::MetadataDecodeFailed { cause: MetadataCause::InvalidNumber })
    );
    list[0] = ("GeneratedByEngineVersion", "1");
    list[4] = ("Encrypted", "3");
    assert_eq!(
        DictMeta::from_attributes(&pairs(&list)),
        Err(Error::UnsupportedEncrypted { value: "3".to_string() })
    );
    list[4] = ("Encrypted", "");
    assert_eq!(
        DictMeta::from_attributes(&pairs(&list)),
        Err(Error::UnsupportedEncrypted { value: String::new() })
    );
}

fn xml() -> String {
    let mut text = "<Dictionary".to_string();
    for (name, value) in required() {
        text.push_str(&format!(" {}=\"{}\"", name, value));
    }
    text.push_str(" Other=\"&amp;\"/>\r\n");
    text
}

#[test]
fn metadata_from_xml() {
    let meta = parse_dict_meta(&xml()).unwrap();
    assert_eq!(meta, DictMeta::from_attributes(&pairs(&required())).unwrap());
    assert_eq!(
        parse_dict_meta("<Dictionary Title=\"a\" Title"),
        Err(Error::MetadataDecodeFailed { cause: MetadataCause::MalformedXml })
    );
    assert_eq!(
        parse_dict_meta(""),
        Err(Error::MetadataDecodeFailed { cause: MetadataCause::MalformedXml })
    );
    assert_eq!(
        parse_dict_meta("<Dictionary/>"),
        Err(Error::MetadataDecodeFailed { cause: MetadataCause::MissingAttribute })
    );
    let escaped = xml().replace("Title=\"t\"", "Title=\"&lt;b&gt; &amp; &quot;q&quot;\"");
    assert_eq!(parse_dict_meta(&escaped).unwrap().title, "<b> & \"q\"");
    let with_child = xml().replace("/>", "><Note>seen</Note></Dictionary>");
    assert_eq!(parse_dict_meta(&with_child).unwrap().title, "t");
    let declared = format!("<?xml version=\"1.0\"?>\n<!-- a comment -->\n{}", xml());
    assert_eq!(parse_dict_meta(&declared).unwrap().title, "t");
    let terminated = format!("{}\0", xml());
    assert_eq!(parse_dict_meta(&terminated).unwrap().title, "t");
}

#[test]
fn metadata_section() {
    let text = xml();
    let mut bytes = Vec::new();
    let units: Vec<u16> = text.encode_utf16().collect();
    bytes.extend_from_slice(&((units.len() * 2) as u32).to_be_bytes());
    for u in &units {
        bytes.extend_from_slice(&u.to_le_bytes());
    }
    bytes.extend_from_slice(&[9, 9, 9, 9]);
    let end = bytes.len();
    bytes.extend_from_slice(b"rest");
    let (meta, next) = dict_meta(&bytes).unwrap();
    assert_eq!(next, end);
    assert_eq!(meta.title, "t");
    assert_eq!(dict_meta(&bytes[..end - 1]), Err(Error::Truncated));
    assert_eq!(dict_meta(&bytes[..3]), Err(Error::Truncated));
    let mut odd = bytes.clone();
    odd[3] += 1;
    assert_eq!(dict_meta(&odd).map(|r| r.1), Ok(end));
}

#[test]
fn key_header_by_version() {
    let mut v2 = Vec::new();
    for n in [1u64, 2, 3, 4, 5] {
        v2.extend_from_slice(&n.to_be_bytes());
    }
    v2.extend_from_slice(&6u32.to_le_bytes());
    assert_eq!(
        read_key_header(&v2, 0, true),
        Ok(KeyBlockHeader {
            n_blocks: 1,
            n_entries: 2,
            nb_decompressed: Some(3),
            nb_block_info: 4,
            nb_blocks: 5,
            checksum: Some(6)
        })
    );
    assert_eq!(read_key_header(&v2[..43], 0, true), Err(Error::Truncated));
    assert_eq!(read_key_header(&v2, 1, true), Err(Error::Truncated));
    let mut v1 = vec![0xeeu8];
    for n in [1u32, 2, 4, 5] {
        v1.extend_from_slice(&n.to_be_bytes());
    }
    assert_eq!(
        read_key_header(&v1, 1, false),
        Ok(KeyBlockHeader {
            n_blocks: 1,
            n_entries: 2,
            nb_decompressed: None,
            nb_block_info: 4,
            nb_blocks: 5,
            checksum: None
        })
    );
    assert_eq!(read_key_header(&v1, 2, false), Err(Error::Truncated));
}

#[test]
fn directory_texts() {
    assert_eq!(read_info_text(b"\x00\x02hi\0x", 0, true, false), Ok(("hi".to_string(), 5)));
    assert_eq!(read_info_text(b"\x00\x02hiZx", 0, true, false), Ok(("hi".to_string(), 5)));
    assert_eq!(read_info_text(b"\x02hix", 0, false, false), Ok(("hi".to_string(), 3)));
    assert_eq!(read_info_text(b"\x00\x00\0", 0, true, false), Ok((String::new(), 3)));
    assert_eq!(read_info_text(b"\x00", 0, false, false), Ok((String::new(), 1)));
    assert_eq!(read_info_text(b"\x00\x02hi", 0, true, false), Err(Error::Truncated));
    assert_eq!(read_info_text(b"\x00", 0, true, false), Err(Error::Truncated));
    assert_eq!(read_info_text(b"\x03hi", 0, false, false), Err(Error::Truncated));
    assert_eq!(read_info_text(b"", 0, false, false), Err(Error::Truncated));
    assert_eq!(
        read_info_text(&[0, 1, 0x08, 0x67, 0, 0, 7], 0, true, true),
        Ok(("月".to_string(), 6))
    );
    assert_eq!(read_info_text(&[1, 0x08, 0x67, 7], 0, false, true), Ok(("月".to_string(), 3)));
    assert_eq!(read_info_text(&[0, 1, 0x08, 0x67, 0], 0, true, true), Err(Error::Truncated));
}

fn info_v2(n: u64, head: &str, tail: &str, packed: u64, size: u64) -> Vec<u8> {
    let mut out = Vec::new();
    out.extend_from_slice(&n.to_be_bytes());
    out.extend_from_slice(&(head.len() as u16).to_be_bytes());
    out.extend_from_slice(head.as_bytes());
    out.push(0);
    out.extend_from_slice(&(tail.len() as u16).to_be_bytes());
    out.extend_from_slice(tail.as_bytes());
    out.push(0);
    out.extend_from_slice(&packed.to_be_bytes());
    out.extend_from_slice(&size.to_be_bytes());
    out
}

fn info(n: u64, head: &str, tail: &str, packed: u64, size: u64) -> KeyBlockInfo {
    KeyBlockInfo {
        n_entries: n,
        head: head.to_string(),
        tail: tail.to_string(),
        nb_compressed: packed,
        nb_decompressed: size,
    }
}

#[test]
fn directory_entries() {
    let mut t = info_v2(3, "a", "c", 50, 60);
    let first = t.len();
    t.extend_from_slice(&info_v2(1, "dd", "dd", 70, 80));
    assert_eq!(read_info(&t, 0, true, false), Ok((info(3, "a", "c", 50, 60), first)));
    assert_eq!(
        read_infos(&t, 0, 2, true, false),
        Ok((vec![info(3, "a", "c", 50, 60), info(1, "dd", "dd", 70, 80)], t.len()))
    );
    assert_eq!(read_infos(&t, 0, 0, true, false), Ok((vec![], 0)));
    assert_eq!(read_infos(&t, 0, 1, true, false).map(|r| r.1), Ok(first));
    assert_eq!(read_infos(&t, 0, 3, true, false), Err(Error::Truncated));
    assert_eq!(read_infos(&t, 0, u64::MAX, true, false), Err(Error::Truncated));
    assert_eq!(read_info(&t[..first - 1], 0, true, false), Err(Error::Truncated));
    assert_eq!(read_info(&t[..9], 0, true, false), Err(Error::Truncated));
    let v1 = [0u8, 0, 0, 2, 1, b'a', 1, b'b', 0, 0, 0, 9, 0, 0, 0, 8];
    assert_eq!(read_info(&v1, 0, false, false), Ok((info(2, "a", "b", 9, 8), 16)));
    assert_eq!(read_info(&v1[..15], 0, false, false), Err(Error::Truncated));
}

#[test]
fn key_entries() {
    let mut b = Vec::new();
    b.extend_from_slice(&5u64.to_be_bytes());
    b.extend_from_slice(b"one\0");
    b.extend_from_slice(&9u64.to_be_bytes());
    b.extend_from_slice(b"two\0");
    let one = KeyEntry { record_offset: 5, headword: "one".to_string() };
    let two = KeyEntry { record_offset: 9, headword: "two".to_string() };
    assert_eq!(read_entry(&b, 0, true, false), Ok((one, 12)));
    let mut entries = vec![KeyEntry { record_offset: 0, headword: "zero".to_string() }];
    assert_eq!(read_entries(&b, 0, 2, true, false, &mut entries), Ok(24));
    assert_eq!(entries.len(), 3);
    assert_eq!(entries[2], two);
    let mut none = Vec::new();
    assert_eq!(read_entries(&b, 0, 0, true, false, &mut none), Ok(0));
    assert!(none.is_empty());
    assert_eq!(read_entries(&b, 0, 3, true, false, &mut none), Err(Error::Truncated));
    assert_eq!(read_entries(&b[..23], 0, 2, true, false, &mut none), Err(Error::Truncated));
    let v1 = [0u8, 0, 0, 7, 0x08, 0x67, 0, 0, 0xaa];
    let mut wide = Vec::new();
    assert_eq!(read_entries(&v1, 0, 1, false, true, &mut wide), Ok(8));
    assert_eq!(wide, vec![KeyEntry { record_offset: 7, headword: "月".to_string() }]);
}

#[test]
fn key_blocks_follow_their_directory() {
    let mut first = Vec::new();
    first.extend_from_slice(&0u64.to_be_bytes());
    first.extend_from_slice(b"a\0");
    let mut second = Vec::new();
    second.extend_from_slice(&4u64.to_be_bytes());
    second.extend_from_slice(b"b\0");
    second.extend_from_slice(&8u64.to_be_bytes());
    second.extend_from_slice(b"c\0padding");
    let f1 = framed(0, 0, &first);
    let f2 = framed(2, 0, &deflated(&second));
    let mut source = b"xx".to_vec();
    source.extend_from_slice(&f1);
    source.extend_from_slice(&f2);
    let infos = vec![
        info(1, "a", "a", f1.len() as u64, first.len() as u64),
        info(2, "b", "c", f2.len() as u64, second.len() as u64),
    ];
    let (entries, next) = read_key_blocks(&source, 2, &infos, true, false, 100).unwrap();
    assert_eq!(next, source.len());
    let words: Vec<&str> = entries.iter().map(|e| e.headword.as_str()).collect();
    assert_eq!(words, vec!["a", "b", "c"]);
    let offsets: Vec<u64> = entries.iter().map(|e| e.record_offset).collect();
    assert_eq!(offsets, vec![0, 4, 8]);
    assert_eq!(read_key_blocks(&source, 2, &Vec::new(), true, false, 100), Ok((vec![], 2)));
    let greedy = vec![info(2, "a", "a", f1.len() as u64, first.len() as u64)];
    assert_eq!(read_key_blocks(&source, 2, &greedy, true, false, 100), Err(Error::Truncated));
    let short = vec![info(1, "a", "a", 7, first.len() as u64)];
    assert_eq!(read_key_blocks(&source, 2, &short, true, false, 100), Err(Error::Truncated));
}

#[test]
fn directory_section_by_version() {
    let plain = info_v2(3, "a", "c", 50, 60);
    let key = derive_key(0xcafe);
    let mut section = Vec::new();
    section.extend_from_slice(&2u32.to_le_bytes());
    section.extend_from_slice(&0xcafeu32.to_le_bytes());
    section.extend_from_slice(&obfuscate(&deflated(&plain), &key));
    let n = section.len() as u64;
    let size = plain.len() as u64;
    assert_eq!(read_directory(&section, 0, n, Some(size), 100), Ok(plain.clone()));
    assert_eq!(read_directory(&plain, 0, size, None, 0), Ok(plain.clone()));
    assert_eq!(read_directory(&plain, 1, size, None, 0), Err(Error::Truncated));
    assert_eq!(
        read_directory(&section, 0, n, Some(101), 100),
        Err(Error::SizeCeilingExceeded { declared: 101, limit: 100 })
    );
    assert_eq!(read_directory(&section[..3], 0, n, Some(size), 100), Err(Error::Truncated));
    assert_eq!(read_directory(&section, 0, 7, Some(size), 100), Err(Error::Truncated));
    assert_eq!(read_directory(&section, 0, n + 1, Some(size), 100), Err(Error::Truncated));
    assert_eq!(
        read_directory(&section, 0, n, Some(size + 1), 100),
        Err(codec_failure(ContentBlockType::Zlib, DecompressionCause::WrongLength))
    );
    assert_eq!(
        read_directory(&section, 0, n - 1, Some(size), 100),
        Err(codec_failure(ContentBlockType::Zlib, DecompressionCause::Codec))
    );
    let mut wrong = section.clone();
    wrong[0] = 1;
    assert_eq!(
        read_directory(&wrong, 0, n, Some(size), 100),
        Err(Error::BadMagic { expected: 2, found: 1, offset: 0 })
    );
    let mut other_key = section.clone();
    other_key[4] ^= 1;
    assert_eq!(
        read_directory(&other_key, 0, n, Some(size), 100),
        Err(codec_failure(ContentBlockType::Zlib, DecompressionCause::Codec))
    );
    let header = KeyBlockHeader {
        n_blocks: 1,
        n_entries: 3,
        nb_decompressed: Some(size),
        nb_block_info: n,
        nb_blocks: 50,
        checksum: Some(0),
    };
    assert_eq!(
        key_block_info(&section, 0, &header, true, false, 100),
        Ok((vec![info(3, "a", "c", 50, 60)], section.len()))
    );
}

#[test]
fn record_index_parts() {
    let mut source = Vec::new();
    for n in [2u32, 9, 16, 100] {
        source.extend_from_slice(&n.to_be_bytes());
    }
    let header = RecordBlockHeader { n_blocks: 2, n_entries: 9, nb_info: 16, nb_blocks: 100 };
    assert_eq!(read_record_header(&source, 0, false), Ok(header));
    assert_eq!(read_record_header(&source, 0, true), Err(Error::Truncated));
    assert_eq!(read_record_header(&source[..15], 0, false), Err(Error::Truncated));
    assert!(header.check_directory_size(false));
    assert!(!header.check_directory_size(true));
    let f1 = framed(0, 0, b"abc");
    let f2 = framed(2, 0, &deflated(b"defgh"));
    for n in [f1.len() as u32, 3, f2.len() as u32, 5] {
        source.extend_from_slice(&n.to_be_bytes());
    }
    let infos = vec![
        RecordBlockInfo { nb_compressed: f1.len() as u64, nb_decompressed: 3 },
        RecordBlockInfo { nb_compressed: f2.len() as u64, nb_decompressed: 5 },
    ];
    assert_eq!(read_record_infos(&source, 16, 2, false), Ok((infos.clone(), 32)));
    assert_eq!(read_record_infos(&source, 16, 3, false), Err(Error::Truncated));
    assert_eq!(read_record_infos(&source, 16, 0, false), Ok((vec![], 16)));
    source.extend_from_slice(&f1);
    source.extend_from_slice(&f2);
    assert_eq!(
        read_record_blocks(&source, 32, &infos, 10),
        Ok((b"abcdefgh".to_vec(), source.len()))
    );
    assert_eq!(
        read_record_blocks(&source, 32, &infos, 4),
        Err(Error::SizeCeilingExceeded { declared: 5, limit: 4 })
    );
    let (index, next) = record_block(&source, 0, false, 10).unwrap();
    assert_eq!(next, source.len());
    assert_eq!(index.header, header);
    assert_eq!(index.infos, infos);
    assert_eq!(index.space, b"abcdefgh".to_vec());
    assert_eq!(record_block(&source[..source.len() - 1], 0, false, 10), Err(Error::Truncated));
}
