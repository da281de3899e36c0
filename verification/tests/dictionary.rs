use mdict::error::ContentBlockType;
use mdict::error::DecompressionCause;
use mdict::error::MetadataCause;
use mdict::key_index::KeyEntry;
use mdict::parse;
use mdict::parse_with_limit;
use mdict::Error;
use mdict::Mdx;
use mdict::DEFAULT_CEILING;
use ripemd128::Digest;
use ripemd128::Ripemd128;
use std::io::Write;

const RAW: u32 = 0;
const LZO: u32 = 1;
const ZLIB: u32 = 2;

fn utf16le(text: &str) -> Vec<u8> {
    let mut out = Vec::new();
    for unit in text.encode_utf16() {
        out.push((unit & 0xff) as u8);
        out.push((unit >> 8) as u8);
    }
    out
}

fn attributes(version: &str, encoding: &str, case_sensitive: &str, strip: &str) -> String {
    format!(
        "<Dictionary GeneratedByEngineVersion=\"{}\" RequiredEngineVersion=\"{}\" Format=\"Html\" \
         KeyCaseSensitive=\"{}\" StripKey=\"{}\" Encrypted=\"0\" RegisterBy=\"EMail\" \
         Description=\"A &lt;small&gt; dictionary\" Title=\"Fruit\" Encoding=\"{}\" \
         CreationDate=\"2020-1-1\" Compact=\"No\" Compat=\"No\" Left2Right=\"Yes\" \
         DataSourceFormat=\"106\" StyleSheet=\"\"/>",
        version, version, case_sensitive, strip, encoding
    )
}

fn header_of(xml: &str) -> Vec<u8> {
    let body = utf16le(xml);
    let mut out = Vec::new();
    out.extend_from_slice(&(body.len() as u32).to_be_bytes());
    out.extend_from_slice(&body);
    out.extend_from_slice(&0x1234_5678u32.to_le_bytes());
    out
}

fn number(value: u64, v2: bool) -> Vec<u8> {
    if v2 {
        value.to_be_bytes().to_vec()
    } else {
        (value as u32).to_be_bytes().to_vec()
    }
}

fn zlib(data: &[u8]) -> Vec<u8> {
    let mut encoder = flate2::write::ZlibEncoder::new(Vec::new(), flate2::Compression::default());
    encoder.write_all(data).unwrap();
    encoder.finish().unwrap()
}

fn lzo(data: &[u8]) -> Vec<u8> {
    let mut lzo = minilzo_rs::LZO::init().unwrap();
    lzo.compress(data).unwrap()
}

fn frame(kind: u32, data: &[u8]) -> Vec<u8> {
    let payload = match kind {
        RAW => data.to_vec(),
        LZO => lzo(data),
        _ => zlib(data),
    };
    let mut out = Vec::new();
    out.extend_from_slice(&kind.to_le_bytes());
    out.extend_from_slice(&0xdead_beefu32.to_le_bytes());
    out.extend_from_slice(&payload);
    out
}

fn key_for(checksum: u32) -> Vec<u8> {
    let mut message = Vec::new();
    message.extend_from_slice(&checksum.to_le_bytes());
    message.extend_from_slice(&0x3695u32.to_le_bytes());
    let mut hasher = Ripemd128::new();
    hasher.input(&message);
    hasher.result().to_vec()
}

fn scramble(plain: &[u8], checksum: u32) -> Vec<u8> {
    let key = key_for(checksum);
    let mut out: Vec<u8> = Vec::new();
    let mut previous = 0x36u8;
    for (i, p) in plain.iter().enumerate() {
        let mixed = *p ^ previous ^ (i as u8) ^ key[i % 16];
        let c = mixed.rotate_left(4);
        out.push(c);
        previous = c;
    }
    out
}

fn text(s: &str, utf16: bool) -> Vec<u8> {
    if utf16 {
        utf16le(s)
    } else {
        s.as_bytes().to_vec()
    }
}

fn terminated(s: &str, utf16: bool) -> Vec<u8> {
    let mut out = text(s, utf16);
    out.push(0);
    if utf16 {
        out.push(0);
    }
    out
}

fn units(s: &str, utf16: bool) -> usize {
    if utf16 {
        s.encode_utf16().count()
    } else {
        s.len()
    }
}

fn info_text(s: &str, v2: bool, utf16: bool) -> Vec<u8> {
    let mut out = Vec::new();
    if v2 {
        out.extend_from_slice(&(units(s, utf16) as u16).to_be_bytes());
        out.extend_from_slice(&terminated(s, utf16));
    } else {
        out.push(units(s, utf16) as u8);
        out.extend_from_slice(&text(s, utf16));
    }
    out
}

fn key_block_data(entries: &[(u64, String)], v2: bool, utf16: bool) -> Vec<u8> {
    let mut out = Vec::new();
    for (offset, word) in entries {
        out.extend_from_slice(&number(*offset, v2));
        out.extend_from_slice(&terminated(word, utf16));
    }
    out
}

struct Layout {
    xml: String,
    v2: bool,
    utf16: bool,
    key_blocks: Vec<Vec<(u64, String)>>,
    key_kind: u32,
    record_blocks: Vec<(u32, Vec<u8>)>,
    declared_info_size: Option<u64>,
    info_magic: u32,
}

fn layout(version: &str, encoding: &str) -> Layout {
    Layout {
        xml: attributes(version, encoding, "Yes", "No"),
        v2: version == "2.0",
        utf16: encoding != "UTF-8",
        key_blocks: Vec::new(),
        key_kind: ZLIB,
        record_blocks: Vec::new(),
        declared_info_size: None,
        info_magic: 2,
    }
}

fn build(l: &Layout) -> Vec<u8> {
    let mut frames: Vec<Vec<u8>> = Vec::new();
    let mut infos = Vec::new();
    let mut total = 0u64;
    for block in &l.key_blocks {
        let data = key_block_data(block, l.v2, l.utf16);
        let f = frame(l.key_kind, &data);
        infos.extend_from_slice(&number(block.len() as u64, l.v2));
        let head = block.first().map(|e| e.1.clone()).unwrap_or_default();
        let tail = block.last().map(|e| e.1.clone()).unwrap_or_default();
        infos.extend_from_slice(&info_text(&head, l.v2, l.utf16));
        infos.extend_from_slice(&info_text(&tail, l.v2, l.utf16));
        infos.extend_from_slice(&number(f.len() as u64, l.v2));
        infos.extend_from_slice(&number(data.len() as u64, l.v2));
        total += block.len() as u64;
        frames.push(f);
    }
    let info_checksum = 0x0bad_cafeu32;
    let section = if l.v2 {
        let mut s = Vec::new();
        s.extend_from_slice(&l.info_magic.to_le_bytes());
        s.extend_from_slice(&info_checksum.to_le_bytes());
        s.extend_from_slice(&scramble(&zlib(&infos), info_checksum));
        s
    } else {
        infos.clone()
    };
    let frames_len: usize = frames.iter().map(|f| f.len()).sum();
    let mut out = header_of(&l.xml);
    out.extend_from_slice(&number(l.key_blocks.len() as u64, l.v2));
    out.extend_from_slice(&number(total, l.v2));
    if l.v2 {
        out.extend_from_slice(&number(l.declared_info_size.unwrap_or(infos.len() as u64), true));
    }
    out.extend_from_slice(&number(section.len() as u64, l.v2));
    out.extend_from_slice(&number(frames_len as u64, l.v2));
    if l.v2 {
        out.extend_from_slice(&0u32.to_le_bytes());
    }
    out.extend_from_slice(&section);
    for f in &frames {
        out.extend_from_slice(f);
    }
    let mut record_frames: Vec<Vec<u8>> = Vec::new();
    let mut directory = Vec::new();
    for (kind, data) in &l.record_blocks {
        let f = frame(*kind, data);
        directory.extend_from_slice(&number(f.len() as u64, l.v2));
        directory.extend_from_slice(&number(data.len() as u64, l.v2));
        record_frames.push(f);
    }
    let record_len: usize = record_frames.iter().map(|f| f.len()).sum();
    out.extend_from_slice(&number(l.record_blocks.len() as u64, l.v2));
    out.extend_from_slice(&number(total, l.v2));
    out.extend_from_slice(&number(directory.len() as u64, l.v2));
    out.extend_from_slice(&number(record_len as u64, l.v2));
    out.extend_from_slice(&directory);
    for f in &record_frames {
        out.extend_from_slice(f);
    }
    out
}

fn fruit(kind: u32) -> Layout {
    let mut l = layout("2.0", "UTF-8");
    l.key_blocks = vec![vec![
        (0, "apple".to_string()),
        (11, "banana".to_string()),
        (25, "cherry".to_string()),
    ]];
    l.record_blocks = vec![(kind, b"<p>red</p>\0<p>yellow</p>\0<p>dark red</p>\0".to_vec())];
    l
}

fn entry(offset: u64, word: &str) -> KeyEntry {
    KeyEntry { record_offset: offset, headword: word.to_string() }
}

#[test]
fn tiny_v2_utf8() {
    let bytes = build(&fruit(ZLIB));
    let mdx = Mdx::parse(&bytes).unwrap();
    assert!(mdx.dict_meta.is_ver2());
    assert!(!mdx.dict_meta.is_utf16());
    assert_eq!(mdx.dict_meta.title, "Fruit");
    assert_eq!(mdx.dict_meta.description, "A <small> dictionary");
    assert_eq!(mdx.dict_meta.required_engine_version.whole, 2);
    assert_eq!(mdx.dict_meta.required_engine_version.fraction, vec![0u8]);
    assert_eq!(mdx.dict_meta.creation_date, Some("2020-1-1".to_string()));
    assert_eq!(
        mdx.entries(),
        &vec![entry(0, "apple"), entry(11, "banana"), entry(25, "cherry")]
    );
    assert_eq!(mdx.headwords(), vec!["apple", "banana", "cherry"]);
    assert_eq!(mdx.article(&entry(11, "banana")), b"<p>yellow</p>".to_vec());
    assert_eq!(mdx.article_at(0), Some(b"<p>red</p>".to_vec()));
    assert_eq!(mdx.article_at(2), Some(b"<p>dark red</p>".to_vec()));
    assert_eq!(mdx.article_at(3), None);
    assert_eq!(mdx.article(&entry(12, "banana")), Vec::<u8>::new());
    assert_eq!(
        mdx.lookup("banana"),
        vec![("banana".to_string(), b"<p>yellow</p>".to_vec())]
    );
}

#[test]
fn tiny_v1_utf16() {
    let mut l = layout("1.2", "UTF-16");
    l.key_blocks = vec![vec![(0, "月".to_string()), (10, "日".to_string())]];
    let mut space = utf16le("moon");
    space.extend_from_slice(&[0, 0]);
    space.extend_from_slice(&utf16le("太陽"));
    space.extend_from_slice(&[0, 0]);
    l.record_blocks = vec![(ZLIB, space)];
    let bytes = build(&l);
    let mdx = Mdx::parse(&bytes).unwrap();
    assert!(!mdx.dict_meta.is_ver2());
    assert!(mdx.dict_meta.is_utf16());
    assert_eq!(mdx.key_index.header.nb_decompressed, None);
    assert_eq!(mdx.key_index.header.checksum, None);
    assert_eq!(mdx.entries(), &vec![entry(0, "月"), entry(10, "日")]);
    assert_eq!(mdx.key_index.infos[0].head, "月");
    assert_eq!(mdx.key_index.infos[0].tail, "日");
    let moon = mdx.article_at(0).unwrap();
    let sun = mdx.article_at(1).unwrap();
    assert_eq!(moon, utf16le("moon"));
    assert_eq!(sun, utf16le("太陽"));
    let units: Vec<u16> = sun.chunks(2).map(|c| u16::from_le_bytes([c[0], c[1]])).collect();
    assert_eq!(String::from_utf16(&units).unwrap(), "太陽");
}

fn many() -> Layout {
    let mut l = layout("2.0", "UTF-8");
    let mut offset = 0u64;
    let mut blocks: Vec<Vec<(u64, String)>> = Vec::new();
    let mut records: Vec<(u32, Vec<u8>)> = Vec::new();
    let mut space = Vec::new();
    for b in 0..4 {
        let mut block = Vec::new();
        for i in 0..1024 {
            let n = b * 1024 + i;
            block.push((offset, format!("key{:04}word", n)));
            let article = format!("<b>{}</b>\0", n);
            space.extend_from_slice(article.as_bytes());
            offset += article.len() as u64;
        }
        blocks.push(block);
        if b % 2 == 1 {
            records.push((ZLIB, space.clone()));
            space.clear();
        }
    }
    l.key_blocks = blocks;
    l.record_blocks = records;
    l
}

#[test]
fn multi_block() {
    let bytes = build(&many());
    let mdx = Mdx::parse(&bytes).unwrap();
    assert_eq!(mdx.key_index.infos.len(), 4);
    assert_eq!(mdx.record_index.infos.len(), 2);
    assert_eq!(mdx.entries().len(), 4096);
    let found = mdx.search("word".to_string());
    assert_eq!(found.len(), 4096);
    for (n, hit) in found.iter().enumerate() {
        assert_eq!(hit.0, format!("key{:04}word", n));
        assert_eq!(hit.1, format!("<b>{}</b>", n).into_bytes());
    }
    assert_eq!(mdx.search("y4095".to_string()).len(), 1);
    assert_eq!(mdx.search("absent".to_string()).len(), 0);
}

fn lookups(from: usize, to: usize) {
    let bytes = build(&many());
    let mdx = Mdx::parse(&bytes).unwrap();
    for n in from..to {
        let found = mdx.lookup(&format!("key{:04}word", n));
        assert_eq!(found, vec![(format!("key{:04}word", n), format!("<b>{}</b>", n).into_bytes())]);
    }
}

#[test]
fn multi_block_lookup_first_quarter() {
    lookups(0, 1024);
}

#[test]
fn multi_block_lookup_second_quarter() {
    lookups(1024, 2048);
}

#[test]
fn multi_block_lookup_third_quarter() {
    lookups(2048, 3072);
}

#[test]
fn multi_block_lookup_fourth_quarter() {
    lookups(3072, 4096);
}

#[test]
fn lzo_block() {
    let with_lzo = Mdx::parse(&build(&fruit(LZO))).unwrap();
    let with_zlib = Mdx::parse(&build(&fruit(ZLIB))).unwrap();
    let with_raw = Mdx::parse(&build(&fruit(RAW))).unwrap();
    assert_eq!(with_lzo.record_index.space, with_zlib.record_index.space);
    assert_eq!(with_raw.record_index.space, with_zlib.record_index.space);
    for i in 0..3 {
        assert_eq!(with_lzo.article_at(i), with_zlib.article_at(i));
    }
    assert_eq!(with_lzo.article_at(1), Some(b"<p>yellow</p>".to_vec()));
}

#[test]
fn stripkey_caseinsensitive() {
    let mut l = fruit(ZLIB);
    l.xml = attributes("2.0", "UTF-8", "No", "Yes");
    l.key_blocks = vec![vec![
        (0, "Apple".to_string()),
        (11, "ba na na".to_string()),
        (25, "cherry".to_string()),
    ]];
    let mdx = Mdx::parse(&build(&l)).unwrap();
    assert!(mdx.dict_meta.strips_keys());
    assert!(mdx.dict_meta.folds_case());
    assert_eq!(mdx.lookup("  APPLE "), mdx.lookup("apple"));
    assert_eq!(mdx.lookup("apple"), vec![("Apple".to_string(), b"<p>red</p>".to_vec())]);
    assert_eq!(mdx.lookup("BANANA"), vec![("ba na na".to_string(), b"<p>yellow</p>".to_vec())]);
    assert_eq!(mdx.search("N A N".to_string()).len(), 1);
    assert_eq!(mdx.search("\u{3000}E\tR".to_string()).len(), 1);
}

#[test]
fn keys_are_exact_where_the_metadata_says_so() {
    let mut l = fruit(ZLIB);
    l.xml = attributes("2.0", "UTF-8", "Yes", "No");
    let mdx = Mdx::parse(&build(&l)).unwrap();
    assert_eq!(mdx.lookup("Apple").len(), 0);
    assert_eq!(mdx.lookup(" apple").len(), 0);
    assert_eq!(mdx.lookup("apple").len(), 1);
    assert_eq!(mdx.search("PP".to_string()).len(), 0);
    assert_eq!(mdx.search("pp".to_string()).len(), 1);
    assert_eq!(mdx.search("".to_string()).len(), 3);
}

#[test]
fn corrupt_ceiling() {
    let mut l = fruit(ZLIB);
    l.declared_info_size = Some(1u64 << 40);
    assert_eq!(
        Mdx::parse(&build(&l)),
        Err(Error::SizeCeilingExceeded { declared: 1u64 << 40, limit: DEFAULT_CEILING as u64 })
    );
}

#[test]
fn ceiling_applies_to_every_block() {
    let bytes = build(&fruit(ZLIB));
    assert!(parse_with_limit(&bytes, 44).is_ok());
    assert_eq!(
        parse_with_limit(&bytes, 43).map(|r| r.1),
        Err(Error::SizeCeilingExceeded { declared: 44, limit: 43 })
    );
    assert_eq!(
        parse_with_limit(&bytes, 40).map(|r| r.1),
        Err(Error::SizeCeilingExceeded { declared: 41, limit: 40 })
    );
}

#[test]
fn parse_returns_the_rest_of_the_input() {
    let mut bytes = build(&fruit(ZLIB));
    let length = bytes.len();
    bytes.extend_from_slice(b"trailer");
    let (rest, mdx) = parse(&bytes).unwrap();
    assert_eq!(rest, b"trailer");
    assert_eq!(mdx.entries().len(), 3);
    assert_eq!(parse_with_limit(&bytes, DEFAULT_CEILING).unwrap().1, length);
}

#[test]
fn two_parses_agree() {
    let bytes = build(&many());
    assert_eq!(Mdx::parse(&bytes), Mdx::parse(&bytes));
    let lzo = build(&fruit(LZO));
    assert_eq!(Mdx::parse(&lzo), Mdx::parse(&lzo));
}

#[test]
fn counts_agree_on_a_well_formed_file() {
    let mdx = Mdx::parse(&build(&many())).unwrap();
    let declared: u64 = mdx.key_index.infos.iter().map(|i| i.n_entries).sum();
    assert_eq!(mdx.entries().len() as u64, declared);
    assert_eq!(mdx.key_index.header.n_entries, declared);
    assert_eq!(mdx.record_index.header.n_entries, declared);
    assert!(mdx.record_index.header.check_directory_size(true));
    let total: u64 = mdx.record_index.infos.iter().map(|i| i.nb_decompressed).sum();
    assert_eq!(mdx.record_index.space.len() as u64, total);
    let mut first = 0usize;
    for info in &mdx.key_index.infos {
        let last = first + info.n_entries as usize - 1;
        assert_eq!(info.head, mdx.entries()[first].headword);
        assert_eq!(info.tail, mdx.entries()[last].headword);
        first = last + 1;
    }
    for pair in mdx.entries().windows(2) {
        assert!(pair[0].record_offset <= pair[1].record_offset);
    }
    for e in mdx.entries() {
        assert!(e.record_offset < total);
    }
}

#[test]
fn empty_key_blocks_contribute_nothing() {
    let mut l = fruit(ZLIB);
    l.key_blocks.insert(0, Vec::new());
    l.key_blocks.push(Vec::new());
    let mdx = Mdx::parse(&build(&l)).unwrap();
    assert_eq!(mdx.key_index.infos.len(), 3);
    assert_eq!(mdx.key_index.infos[0].n_entries, 0);
    assert_eq!(mdx.entries().len(), 3);
}

#[test]
fn key_block_may_end_in_a_zero_byte() {
    let mut data = key_block_data(&[(0, "apple".to_string())], true, false);
    let exact = data.len();
    data.push(0);
    let mut entries = Vec::new();
    assert_eq!(
        mdict::key_index::read_entries(&data, 0, 1, true, false, &mut entries),
        Ok(exact)
    );
    assert_eq!(entries, vec![entry(0, "apple")]);
    let mut entries = Vec::new();
    assert_eq!(
        mdict::key_index::read_entries(&data[..exact], 0, 1, true, false, &mut entries),
        Ok(exact)
    );
}

#[test]
fn empty_record_block_is_accepted() {
    let mut l = fruit(ZLIB);
    l.record_blocks.insert(0, (ZLIB, Vec::new()));
    l.record_blocks.push((RAW, Vec::new()));
    let mdx = Mdx::parse(&build(&l)).unwrap();
    assert_eq!(mdx.record_index.infos[0].nb_decompressed, 0);
    assert_eq!(mdx.record_index.space.len(), 41);
}

#[test]
fn single_byte_article_is_empty() {
    let mut l = layout("2.0", "UTF-8");
    l.key_blocks = vec![vec![(0, "a".to_string()), (1, "b".to_string())]];
    l.record_blocks = vec![(RAW, b"\0x".to_vec())];
    let mdx = Mdx::parse(&build(&l)).unwrap();
    assert_eq!(mdx.article_at(0), Some(Vec::new()));
    assert_eq!(mdx.article_at(1), Some(b"x".to_vec()));
}

#[test]
fn offsets_beyond_the_space_give_empty_articles() {
    let mut l = layout("2.0", "UTF-8");
    l.key_blocks = vec![vec![(3, "a".to_string()), (1, "b".to_string()), (9, "c".to_string())]];
    l.record_blocks = vec![(RAW, b"wxyz".to_vec())];
    let mdx = Mdx::parse(&build(&l)).unwrap();
    assert_eq!(mdx.article_at(0), Some(Vec::new()));
    assert_eq!(mdx.article_at(1), Some(b"xyz".to_vec()));
    assert_eq!(mdx.article_at(2), Some(Vec::new()));
}

#[test]
fn truncated_input_is_reported() {
    let bytes = build(&fruit(ZLIB));
    for cut in [0usize, 3, 4, 100, bytes.len() / 2, bytes.len() - 1] {
        assert_eq!(Mdx::parse(&bytes[..cut]), Err(Error::Truncated), "cut at {}", cut);
    }
}

#[test]
fn bad_magic_is_reported() {
    let mut l = fruit(ZLIB);
    l.info_magic = 7;
    let offset = (header_of(&l.xml).len() + 44) as u64;
    assert_eq!(
        Mdx::parse(&build(&l)),
        Err(Error::BadMagic { expected: 2, found: 7, offset })
    );
}

#[test]
fn unknown_block_type_is_reported() {
    let mut l = fruit(ZLIB);
    l.key_kind = 3;
    assert_eq!(Mdx::parse(&build(&l)), Err(Error::UnknownBlockType { value: 3 }));
}

#[test]
fn wrong_directory_size_is_reported() {
    let mut l = fruit(ZLIB);
    l.declared_info_size = Some(5);
    assert_eq!(
        Mdx::parse(&build(&l)),
        Err(Error::DecompressionFailed {
            method: ContentBlockType::Zlib,
            cause: DecompressionCause::WrongLength
        })
    );
}

#[test]
fn encrypted_dictionary_is_refused() {
    let mut l = fruit(ZLIB);
    l.xml = l.xml.replace("Encrypted=\"0\"", "Encrypted=\"2\"");
    assert_eq!(
        Mdx::parse(&build(&l)),
        Err(Error::UnsupportedEncrypted { value: "2".to_string() })
    );
}

#[test]
fn metadata_failures_are_told_apart() {
    let mut l = fruit(ZLIB);
    l.xml = l.xml.replace("Title=\"Fruit\" ", "");
    assert_eq!(
        Mdx::parse(&build(&l)),
        Err(Error::MetadataDecodeFailed { cause: MetadataCause::MissingAttribute })
    );
    let mut l = fruit(ZLIB);
    l.xml = l.xml.replace("RequiredEngineVersion=\"2.0\"", "RequiredEngineVersion=\"two\"");
    assert_eq!(
        Mdx::parse(&build(&l)),
        Err(Error::MetadataDecodeFailed { cause: MetadataCause::InvalidNumber })
    );
    let mut l = fruit(ZLIB);
    l.xml = "<Dictionary Title=\"unclosed".to_string();
    assert_eq!(
        Mdx::parse(&build(&l)),
        Err(Error::MetadataDecodeFailed { cause: MetadataCause::MalformedXml })
    );
    let mut bytes = Vec::new();
    bytes.extend_from_slice(&2u32.to_be_bytes());
    bytes.extend_from_slice(&[0x00, 0xd8]);
    bytes.extend_from_slice(&[0, 0, 0, 0]);
    assert_eq!(
        Mdx::parse(&bytes),
        Err(Error::MetadataDecodeFailed { cause: MetadataCause::InvalidUtf16 })
    );
}

#[test]
fn optional_attributes_may_be_absent() {
    let mut l = fruit(ZLIB);
    l.xml = l
        .xml
        .replace("StripKey=\"No\" ", "")
        .replace("RegisterBy=\"EMail\" ", "")
        .replace("CreationDate=\"2020-1-1\" ", "")
        .replace("/>", " Unknown=\"whatever\"/>");
    let mdx = Mdx::parse(&build(&l)).unwrap();
    assert_eq!(mdx.dict_meta.strip_key, None);
    assert_eq!(mdx.dict_meta.register_by, None);
    assert_eq!(mdx.dict_meta.creation_date, None);
    assert!(!mdx.dict_meta.strips_keys());
    assert_eq!(mdx.metadata().format, "Html");
}
