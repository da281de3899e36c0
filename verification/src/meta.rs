//! The metadata header: a length-prefixed UTF-16LE XML element whose
//! attributes describe the dictionary.

use crate::bytes::be32;
use crate::bytes::lemma_len_fits;
use crate::bytes::read_u32_be;
use crate::decimal::decimal_of;
use crate::decimal::parse_decimal;
use crate::decimal::Decimal;
use crate::decimal::DecimalView;
use crate::error::Error;
use crate::error::ErrorView;
use crate::error::MetadataCause;
use crate::text::is_text;
use crate::text::read_wide_len_prefixed;
use crate::text::decode_utf16;
use crate::text::utf16_strict;
use crate::text::wide_len_prefixed_at;
use std::collections::BTreeMap;
use vstd::prelude::*;
use vstd::string::StringExecFns;

verus! {

/// The attributes that `quick_xml` reads out of an XML text as a map from
/// names to values, as pairs in the order of the names; `None` where it
/// reports an error.
pub uninterp spec fn xml_attributes(text: Seq<char>) -> Option<Seq<(Seq<char>, Seq<char>)>>;

/// Calls `quick_xml::de::from_str` for a `BTreeMap` from `String` to
/// `String`, which reads the attributes of the root element, and hands the
/// map's pairs out in its order. The pairs are named by [`xml_attributes`];
/// `None` stands for an error of the deserializer.
#[verifier::external_body]
pub(crate) fn xml_attribute_pairs(text: &str) -> (pairs: Option<Vec<(String, String)>>)
    ensures
        match pairs {
            Some(p) => xml_attributes(text@) == Some(p.deep_view()),
            None => xml_attributes(text@).is_none(),
        },
{
    match quick_xml::de::from_str::<BTreeMap<String, String>>(text) {
        Ok(map) => Some(map.into_iter().collect()),
        Err(_) => None,
    }
}

/// What the header says of the dictionary.
#[derive(Debug, PartialEq, Eq)]
pub struct DictMeta {
    pub generated_by_engine_version: Decimal,
    pub required_engine_version: Decimal,
    pub format: String,
    pub key_case_sensitive: String,
    pub strip_key: Option<String>,
    pub encrypted: String,
    pub register_by: Option<String>,
    pub description: String,
    pub title: String,
    pub encoding: String,
    pub creation_date: Option<String>,
    pub compact: String,
    pub compat: String,
    pub left2right: String,
    pub data_source_format: String,
    pub style_sheet: String,
}

/// The mathematical value of a [`DictMeta`].
pub struct DictMetaView {
    pub generated_by_engine_version: DecimalView,
    pub required_engine_version: DecimalView,
    pub format: Seq<char>,
    pub key_case_sensitive: Seq<char>,
    pub strip_key: Option<Seq<char>>,
    pub encrypted: Seq<char>,
    pub register_by: Option<Seq<char>>,
    pub description: Seq<char>,
    pub title: Seq<char>,
    pub encoding: Seq<char>,
    pub creation_date: Option<Seq<char>>,
    pub compact: Seq<char>,
    pub compat: Seq<char>,
    pub left2right: Seq<char>,
    pub data_source_format: Seq<char>,
    pub style_sheet: Seq<char>,
}

/// The text of an optional string.
pub open spec fn text_of(s: Option<String>) -> Option<Seq<char>> {
    match s {
        Some(t) => Some(t@),
        None => None,
    }
}

impl View for DictMeta {
    type V = DictMetaView;

    open spec fn view(&self) -> DictMetaView {
        DictMetaView {
            generated_by_engine_version: self.generated_by_engine_version@,
            required_engine_version: self.required_engine_version@,
            format: self.format@,
            key_case_sensitive: self.key_case_sensitive@,
            strip_key: text_of(self.strip_key),
            encrypted: self.encrypted@,
            register_by: text_of(self.register_by),
            description: self.description@,
            title: self.title@,
            encoding: self.encoding@,
            creation_date: text_of(self.creation_date),
            compact: self.compact@,
            compat: self.compat@,
            left2right: self.left2right@,
            data_source_format: self.data_source_format@,
            style_sheet: self.style_sheet@,
        }
    }
}

impl DictMetaView {
    /// Whether the dictionary is in version 2 of the format: whether the
    /// engine version that it requires is 2.0 or more.
    pub open spec fn is_ver2(self) -> bool {
        self.required_engine_version.whole >= 2
    }

    /// Whether the text of the dictionary is UTF-16LE rather than UTF-8.
    pub open spec fn is_utf16(self) -> bool {
        self.encoding != "UTF-8"@
    }

    /// Whether whitespace counts for nothing in a headword.
    pub open spec fn strips_keys(self) -> bool {
        self.strip_key == Some("Yes"@)
    }

    /// Whether upper and lower case count as one in a headword.
    pub open spec fn folds_case(self) -> bool {
        self.key_case_sensitive == "No"@
    }
}

impl DictMeta {
    /// Tells whether the dictionary is in version 2 of the format.
    pub fn is_ver2(&self) -> (r: bool)
        ensures
            r == self@.is_ver2(),
    {
        self.required_engine_version.whole >= 2
    }

    /// Tells whether the text of the dictionary is UTF-16LE rather than
    /// UTF-8.
    pub fn is_utf16(&self) -> (r: bool)
        ensures
            r == self@.is_utf16(),
    {
        !is_text(&self.encoding, "UTF-8")
    }

    /// Tells whether whitespace counts for nothing in a headword.
    pub fn strips_keys(&self) -> (r: bool)
        ensures
            r == self@.strips_keys(),
    {
        match &self.strip_key {
            Some(s) => is_text(s, "Yes"),
            None => false,
        }
    }

    /// Tells whether upper and lower case count as one in a headword.
    pub fn folds_case(&self) -> (r: bool)
        ensures
            r == self@.folds_case(),
    {
        is_text(&self.key_case_sensitive, "No")
    }
}

/// The value of the first attribute of the given name.
pub open spec fn attribute(attrs: Seq<(Seq<char>, Seq<char>)>, name: Seq<char>) -> Option<
    Seq<char>,
>
    decreases attrs.len(),
{
    if attrs.len() == 0 {
        None
    } else if attrs[0].0 == name {
        Some(attrs[0].1)
    } else {
        attribute(attrs.drop_first(), name)
    }
}

/// Finds the value of the first attribute of the given name.
pub fn find_attribute(attrs: &Vec<(String, String)>, name: &str) -> (r: Option<String>)
    ensures
        text_of(r) == attribute(attrs.deep_view(), name@),
{
    let wanted = String::from_str(name);
    let mut i: usize = 0;
    assert(attrs.deep_view().skip(0) =~= attrs.deep_view());
    while i < attrs.len()
        invariant
            i <= attrs@.len(),
            wanted@ == name@,
            attribute(attrs.deep_view(), name@) == attribute(
                attrs.deep_view().skip(i as int),
                name@,
            ),
        decreases attrs@.len() - i,
    {
        proof {
            let rest = attrs.deep_view().skip(i as int);
            assert(rest.drop_first() =~= attrs.deep_view().skip(i + 1));
            assert(rest[0] == attrs@[i as int].deep_view());
        }
        if attrs[i].0 == wanted {
            return Some(attrs[i].1.clone());
        }
        i += 1;
    }
    None
}

/// Whether every attribute that a dictionary must have is there.
pub open spec fn required_present(attrs: Seq<(Seq<char>, Seq<char>)>) -> bool {
    &&& attribute(attrs, "GeneratedByEngineVersion"@) is Some
    &&& attribute(attrs, "RequiredEngineVersion"@) is Some
    &&& attribute(attrs, "Format"@) is Some
    &&& attribute(attrs, "KeyCaseSensitive"@) is Some
    &&& attribute(attrs, "Encrypted"@) is Some
    &&& attribute(attrs, "Description"@) is Some
    &&& attribute(attrs, "Title"@) is Some
    &&& attribute(attrs, "Encoding"@) is Some
    &&& attribute(attrs, "Compact"@) is Some
    &&& attribute(attrs, "Compat"@) is Some
    &&& attribute(attrs, "Left2Right"@) is Some
    &&& attribute(attrs, "DataSourceFormat"@) is Some
    &&& attribute(attrs, "StyleSheet"@) is Some
}

/// The metadata that a list of attributes stands for. Attributes of other
/// names count for nothing.
pub open spec fn meta_of(attrs: Seq<(Seq<char>, Seq<char>)>) -> Result<DictMetaView, ErrorView> {
    if !required_present(attrs) {
        Err(ErrorView::MetadataDecodeFailed { cause: MetadataCause::MissingAttribute })
    } else {
        let generated = decimal_of(attribute(attrs, "GeneratedByEngineVersion"@)->0);
        let required = decimal_of(attribute(attrs, "RequiredEngineVersion"@)->0);
        let encrypted = attribute(attrs, "Encrypted"@)->0;
        if generated is None || required is None {
            Err(ErrorView::MetadataDecodeFailed { cause: MetadataCause::InvalidNumber })
        } else if encrypted != "0"@ {
            Err(ErrorView::UnsupportedEncrypted { value: encrypted })
        } else {
            Ok(
                DictMetaView {
                    generated_by_engine_version: generated->0,
                    required_engine_version: required->0,
                    format: attribute(attrs, "Format"@)->0,
                    key_case_sensitive: attribute(attrs, "KeyCaseSensitive"@)->0,
                    strip_key: attribute(attrs, "StripKey"@),
                    encrypted,
                    register_by: attribute(attrs, "RegisterBy"@),
                    description: attribute(attrs, "Description"@)->0,
                    title: attribute(attrs, "Title"@)->0,
                    encoding: attribute(attrs, "Encoding"@)->0,
                    creation_date: attribute(attrs, "CreationDate"@),
                    compact: attribute(attrs, "Compact"@)->0,
                    compat: attribute(attrs, "Compat"@)->0,
                    left2right: attribute(attrs, "Left2Right"@)->0,
                    data_source_format: attribute(attrs, "DataSourceFormat"@)->0,
                    style_sheet: attribute(attrs, "StyleSheet"@)->0,
                },
            )
        }
    }
}

/// Relates what a function returned to what the format prescribes.
pub open spec fn meta_result_is(r: Result<DictMeta, Error>, expected: Result<DictMetaView, ErrorView>) -> bool {
    match r {
        Ok(meta) => expected == Ok::<DictMetaView, ErrorView>(meta@),
        Err(e) => expected == Err::<DictMetaView, ErrorView>(e@),
    }
}

/// Finds an attribute that a dictionary must have.
fn required_attribute(attrs: &Vec<(String, String)>, name: &str) -> (r: Result<String, Error>)
    ensures
        match r {
            Ok(v) => attribute(attrs.deep_view(), name@) == Some(v@),
            Err(e) => attribute(attrs.deep_view(), name@) is None && e@ == (
            ErrorView::MetadataDecodeFailed { cause: MetadataCause::MissingAttribute }),
        },
{
    match find_attribute(attrs, name) {
        Some(v) => Ok(v),
        None => Err(Error::MetadataDecodeFailed { cause: MetadataCause::MissingAttribute }),
    }
}

impl DictMeta {
    /// Builds the metadata from the attributes of the header element.
    pub fn from_attributes(attrs: &Vec<(String, String)>) -> (r: Result<DictMeta, Error>)
        ensures
            meta_result_is(r, meta_of(attrs.deep_view())),
    {
        let generated = required_attribute(attrs, "GeneratedByEngineVersion")?;
        let required = required_attribute(attrs, "RequiredEngineVersion")?;
        let format = required_attribute(attrs, "Format")?;
        let key_case_sensitive = required_attribute(attrs, "KeyCaseSensitive")?;
        let encrypted = required_attribute(attrs, "Encrypted")?;
        let description = required_attribute(attrs, "Description")?;
        let title = required_attribute(attrs, "Title")?;
        let encoding = required_attribute(attrs, "Encoding")?;
        let compact = required_attribute(attrs, "Compact")?;
        let compat = required_attribute(attrs, "Compat")?;
        let left2right = required_attribute(attrs, "Left2Right")?;
        let data_source_format = required_attribute(attrs, "DataSourceFormat")?;
        let style_sheet = required_attribute(attrs, "StyleSheet")?;
        let generated_by_engine_version = match parse_decimal(generated.as_str()) {
            Some(d) => d,
            None => {
                return Err(Error::MetadataDecodeFailed { cause: MetadataCause::InvalidNumber });
            },
        };
        let required_engine_version = match parse_decimal(required.as_str()) {
            Some(d) => d,
            None => {
                return Err(Error::MetadataDecodeFailed { cause: MetadataCause::InvalidNumber });
            },
        };
        if !is_text(&encrypted, "0") {
            return Err(Error::UnsupportedEncrypted { value: encrypted });
        }
        Ok(
            DictMeta {
                generated_by_engine_version,
                required_engine_version,
                format,
                key_case_sensitive,
                strip_key: find_attribute(attrs, "StripKey"),
                encrypted,
                register_by: find_attribute(attrs, "RegisterBy"),
                description,
                title,
                encoding,
                creation_date: find_attribute(attrs, "CreationDate"),
                compact,
                compat,
                left2right,
                data_source_format,
                style_sheet,
            },
        )
    }
}

/// The metadata that the XML text of a header stands for.
pub open spec fn meta_of_xml(text: Seq<char>) -> Result<DictMetaView, ErrorView> {
    match xml_attributes(text) {
        None => Err(ErrorView::MetadataDecodeFailed { cause: MetadataCause::MalformedXml }),
        Some(attrs) => meta_of(attrs),
    }
}

/// The metadata at the start of a dictionary and the position after it: a
/// big-endian length in bytes, half as many UTF-16LE units of XML, and a
/// checksum of four bytes that is not looked at.
pub open spec fn dict_meta_at(s: Seq<u8>) -> Result<(DictMetaView, int), ErrorView> {
    if s.len() < 4 {
        Err(ErrorView::Truncated)
    } else {
        let n = be32(s, 0) / 2;
        match wide_len_prefixed_at(s, 4, n) {
            Err(e) => Err(e),
            Ok((units, checksum)) => match utf16_strict(units) {
                None => Err(
                    ErrorView::MetadataDecodeFailed { cause: MetadataCause::InvalidUtf16 },
                ),
                Some(text) => match meta_of_xml(text) {
                    Err(e) => Err(e),
                    Ok(meta) => Ok((meta, 8 + 2 * n)),
                },
            },
        }
    }
}

/// Reads the XML text of a header into metadata.
pub fn parse_dict_meta(text: &str) -> (r: Result<DictMeta, Error>)
    ensures
        meta_result_is(r, meta_of_xml(text@)),
{
    match xml_attribute_pairs(text) {
        Some(attrs) => DictMeta::from_attributes(&attrs),
        None => Err(Error::MetadataDecodeFailed { cause: MetadataCause::MalformedXml }),
    }
}

/// Reads the metadata at the start of a dictionary and returns it with the
/// position after it.
pub fn dict_meta(data: &[u8]) -> (r: Result<(DictMeta, usize), Error>)
    ensures
        match r {
            Ok((meta, next)) => dict_meta_at(data@) == Ok::<(DictMetaView, int), ErrorView>(
                (meta@, next as int),
            ),
            Err(e) => dict_meta_at(data@) == Err::<(DictMetaView, int), ErrorView>(e@),
        },
{
    proof {
        lemma_len_fits(data);
    }
    let length: u32 = read_u32_be(data, 0)?;
    let n: u32 = length / 2;
    let (units, _checksum) = read_wide_len_prefixed(data, 4, n)?;
    let text = match decode_utf16(units.as_slice()) {
        Some(t) => t,
        None => {
            return Err(Error::MetadataDecodeFailed { cause: MetadataCause::InvalidUtf16 });
        },
    };
    let meta = parse_dict_meta(text.as_str())?;
    Ok((meta, 8 + 2 * (n as usize)))
}

} // verus!
