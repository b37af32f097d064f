//! The header of a file: a length, a text of attributes in UTF-16LE, and
//! the descriptor that the attributes stand for.

use crate::error::MdictError;
use crate::text::{le_units, text_is, units_of, utf16_strict, utf16_text, Encoding};
use crate::wire::{be_field, read_be};
use vstd::prelude::*;
use vstd::slice::slice_subrange;
use vstd::string::StrSliceExecFns;

verus! {

/// The two generations of the format. They differ in the width of the
/// numbers that frame the sections.
#[derive(Debug, Clone, Copy, PartialEq, Eq, Structural)]
pub enum FormatVersion {
    V1,
    V2,
}

impl FormatVersion {
    /// The width in bytes of a section's counts and sizes, and of the record
    /// offset inside a key entry.
    pub open spec fn number_width(self) -> int {
        if self == FormatVersion::V1 {
            4
        } else {
            8
        }
    }

    /// The width in bytes of the length that precedes a key in the key index.
    pub open spec fn key_length_width(self) -> int {
        if self == FormatVersion::V1 {
            1
        } else {
            2
        }
    }

    /// The width in bytes of a section's counts and sizes.
    pub fn number_len(self) -> (w: usize)
        ensures
            w as int == self.number_width(),
    {
        match self {
            FormatVersion::V1 => 4,
            FormatVersion::V2 => 8,
        }
    }

    /// The width in bytes of the length that precedes a key in the key index.
    pub fn key_length_len(self) -> (w: usize)
        ensures
            w as int == self.key_length_width(),
    {
        match self {
            FormatVersion::V1 => 1,
            FormatVersion::V2 => 2,
        }
    }
}

/// Which parts of a file are encrypted.
#[derive(Debug, Clone, Copy, PartialEq, Eq, Structural)]
pub struct Encryption {
    /// The record blocks are encrypted.
    pub record: bool,
    /// The key index is encrypted.
    pub key_index: bool,
}

/// The descriptor that a file's header decodes to.
#[derive(Debug, Clone)]
pub struct DictionaryHeader {
    pub version: FormatVersion,
    pub engine_version: String,
    pub format: String,
    pub key_case_sensitive: bool,
    pub strip_key: bool,
    pub encryption: Encryption,
    pub encoding: Encoding,
    pub creation_date: String,
    pub compact: bool,
    pub left2right: bool,
    /// The position in the file at which the key section begins.
    pub data_offset: u64,
    pub stylesheet: String,
    pub title: String,
    pub description: String,
}

/// A header descriptor as a mathematical value.
pub struct HeaderView {
    pub version: FormatVersion,
    pub engine_version: Seq<char>,
    pub format: Seq<char>,
    pub key_case_sensitive: bool,
    pub strip_key: bool,
    pub encryption: Encryption,
    pub encoding: Encoding,
    pub creation_date: Seq<char>,
    pub compact: bool,
    pub left2right: bool,
    pub data_offset: u64,
    pub stylesheet: Seq<char>,
    pub title: Seq<char>,
    pub description: Seq<char>,
}

impl View for DictionaryHeader {
    type V = HeaderView;

    open spec fn view(&self) -> HeaderView {
        HeaderView {
            version: self.version,
            engine_version: self.engine_version@,
            format: self.format@,
            key_case_sensitive: self.key_case_sensitive,
            strip_key: self.strip_key,
            encryption: self.encryption,
            encoding: self.encoding,
            creation_date: self.creation_date@,
            compact: self.compact,
            left2right: self.left2right,
            data_offset: self.data_offset,
            stylesheet: self.stylesheet@,
            title: self.title@,
            description: self.description@,
        }
    }
}

/// The code unit of `=`.
pub const EQUALS: u16 = 0x3d;

/// The code unit of `"`.
pub const QUOTE: u16 = 0x22;

/// Whether a code unit may stand in an attribute's name: an ASCII letter, a
/// digit or an underscore.
pub open spec fn is_name_unit(u: u16) -> bool {
    (0x30 <= u <= 0x39) || (0x41 <= u <= 0x5a) || (0x61 <= u <= 0x7a) || u == 0x5f
}

/// The first position at or after `from` that holds no name unit.
pub open spec fn name_end(t: Seq<u16>, from: int) -> int
    decreases t.len() - from,
{
    if 0 <= from < t.len() && is_name_unit(t[from]) {
        name_end(t, from + 1)
    } else {
        from
    }
}

/// The first position at or after `from` that holds a quote, or the length
/// of the text where none follows.
pub open spec fn quote_at(t: Seq<u16>, from: int) -> int
    decreases t.len() - from,
{
    if 0 <= from < t.len() && t[from] != QUOTE {
        quote_at(t, from + 1)
    } else {
        from
    }
}

/// An attribute's name and value, in code units.
pub type UnitPair = (Seq<u16>, Seq<u16>);

/// An attribute's name and value, as text.
pub type TextPair = (Seq<char>, Seq<char>);

/// `rest` with `first` put before it, where there is a `rest`.
pub open spec fn with_first(first: UnitPair, rest: Option<Seq<UnitPair>>) -> Option<Seq<UnitPair>> {
    match rest {
        Some(pairs) => Some(seq![first] + pairs),
        None => None,
    }
}

/// The attributes that the text holds from position `i` on, in order. An
/// attribute is a run of name units, `="`, a value of at least one unit and
/// a closing quote. A name with an empty value counts for nothing. A value
/// that no quote closes makes the whole text unreadable.
pub open spec fn attrs_from(t: Seq<u16>, i: int) -> Option<Seq<UnitPair>>
    decreases t.len() - i,
    via attrs_from_decreases
{
    if i < 0 || i >= t.len() {
        Some(Seq::empty())
    } else if !is_name_unit(t[i]) {
        attrs_from(t, i + 1)
    } else {
        let e = name_end(t, i + 1);
        if e + 1 < t.len() && t[e] == EQUALS && t[e + 1] == QUOTE {
            let q = quote_at(t, e + 2);
            if q >= t.len() {
                None
            } else if q == e + 2 {
                attrs_from(t, q + 1)
            } else {
                with_first((t.subrange(i, e), t.subrange(e + 2, q)), attrs_from(t, q + 1))
            }
        } else {
            attrs_from(t, e)
        }
    }
}

#[via_fn]
proof fn attrs_from_decreases(t: Seq<u16>, i: int) {
    if 0 <= i < t.len() {
        lemma_scan_bounds(t, i + 1);
        let e = name_end(t, i + 1);
        if e + 2 <= t.len() {
            lemma_scan_bounds(t, e + 2);
        }
    }
}

/// `name_end` and `quote_at` do not go back, and stay inside the text.
pub proof fn lemma_scan_bounds(t: Seq<u16>, from: int)
    requires
        0 <= from <= t.len(),
    ensures
        from <= name_end(t, from) <= t.len(),
        from <= quote_at(t, from) <= t.len(),
        forall|j: int| from <= j < name_end(t, from) ==> is_name_unit(#[trigger] t[j]),
        name_end(t, from) < t.len() ==> !is_name_unit(t[name_end(t, from)]),
        forall|j: int| from <= j < quote_at(t, from) ==> #[trigger] t[j] != QUOTE,
        quote_at(t, from) < t.len() ==> t[quote_at(t, from)] == QUOTE,
    decreases t.len() - from,
{
    if from < t.len() {
        lemma_scan_bounds(t, from + 1);
    }
}

/// The unit pairs that a vector of pairs holds.
pub open spec fn unit_pairs(v: Seq<(Vec<u16>, Vec<u16>)>) -> Seq<UnitPair> {
    Seq::new(v.len(), |i: int| (v[i].0@, v[i].1@))
}

/// The text pairs that a vector of pairs holds.
pub open spec fn text_pairs(v: Seq<(String, String)>) -> Seq<TextPair> {
    Seq::new(v.len(), |i: int| (v[i].0@, v[i].1@))
}

/// Copies the units of `t` from `from` up to `to`.
fn copy_units(t: &[u16], from: usize, to: usize) -> (out: Vec<u16>)
    requires
        from <= to <= t@.len(),
    ensures
        out@ == t@.subrange(from as int, to as int),
{
    vstd::slice::slice_to_vec(slice_subrange(t, from, to))
}

/// Finds the attributes of a header text given in code units.
pub fn scan_attributes(t: &[u16]) -> (r: Option<Vec<(Vec<u16>, Vec<u16>)>>)
    ensures
        r is Some <==> attrs_from(t@, 0) is Some,
        r matches Some(v) ==> attrs_from(t@, 0) == Some(unit_pairs(v@)),
{
    let mut found: Vec<(Vec<u16>, Vec<u16>)> = Vec::new();
    let mut i: usize = 0;
    let n: usize = t.len();
    assert(unit_pairs(found@) =~= Seq::<UnitPair>::empty());
    while i < n
        invariant
            n == t@.len(),
            i <= n,
            attrs_from(t@, 0) is Some <==> attrs_from(t@, i as int) is Some,
            attrs_from(t@, i as int) matches Some(rest) ==> attrs_from(t@, 0) == Some(
                unit_pairs(found@) + rest,
            ),
        decreases n - i,
    {
        let u: u16 = t[i];
        if !is_name(u) {
            i = i + 1;
        } else {
            let mut e: usize = i + 1;
            while e < n && is_name(t[e])
                invariant
                    n == t@.len(),
                    i < e <= n,
                    name_end(t@, i + 1) == name_end(t@, e as int),
                decreases n - e,
            {
                e = e + 1;
            }
            assert(name_end(t@, i + 1) == e);
            if n - e >= 2 && t[e] == EQUALS && t[e + 1] == QUOTE {
                let mut q: usize = e + 2;
                while q < n && t[q] != QUOTE
                    invariant
                        n == t@.len(),
                        e + 2 <= q <= n,
                        quote_at(t@, e + 2) == quote_at(t@, q as int),
                    decreases n - q,
                {
                    q = q + 1;
                }
                assert(quote_at(t@, e + 2) == q);
                if q >= n {
                    return None;
                }
                if q > e + 2 {
                    let name = copy_units(t, i, e);
                    let value = copy_units(t, e + 2, q);
                    let ghost before = unit_pairs(found@);
                    found.push((name, value));
                    proof {
                        let pair: UnitPair = (
                            t@.subrange(i as int, e as int),
                            t@.subrange(e + 2, q as int),
                        );
                        assert(unit_pairs(found@) =~= before.push(pair));
                        match attrs_from(t@, q + 1) {
                            Some(rest) => {
                                assert(before + (seq![pair] + rest) =~= before.push(pair) + rest);
                            },
                            None => {},
                        }
                    }
                }
                i = q + 1;
            } else {
                i = e;
            }
        }
    }
    proof {
        let rest = attrs_from(t@, i as int).unwrap();
        assert(unit_pairs(found@) + rest =~= unit_pairs(found@));
    }
    Some(found)
}

/// Whether a code unit may stand in an attribute's name.
fn is_name(u: u16) -> (r: bool)
    ensures
        r == is_name_unit(u),
{
    (0x30 <= u && u <= 0x39) || (0x41 <= u && u <= 0x5a) || (0x61 <= u && u <= 0x7a) || u == 0x5f
}

/// Whether every name and every value is well-formed UTF-16.
pub open spec fn all_decode(pairs: Seq<UnitPair>) -> bool {
    forall|i: int|
        0 <= i < pairs.len() ==> utf16_text(#[trigger] pairs[i].0) is Some && utf16_text(
            pairs[i].1,
        ) is Some
}

/// The names and values as text.
pub open spec fn decoded_attrs(pairs: Seq<UnitPair>) -> Seq<TextPair> {
    Seq::new(
        pairs.len(),
        |i: int| (utf16_text(pairs[i].0).unwrap(), utf16_text(pairs[i].1).unwrap()),
    )
}

/// Decodes the names and values of the attributes, or nothing where one of
/// them is not well-formed UTF-16.
pub fn decode_attributes(pairs: &Vec<(Vec<u16>, Vec<u16>)>) -> (r: Option<Vec<(String, String)>>)
    ensures
        r is Some <==> all_decode(unit_pairs(pairs@)),
        r matches Some(v) ==> text_pairs(v@) == decoded_attrs(unit_pairs(pairs@)),
{
    let mut out: Vec<(String, String)> = Vec::new();
    let mut i: usize = 0;
    let ghost units = unit_pairs(pairs@);
    while i < pairs.len()
        invariant
            i <= pairs.len(),
            units == unit_pairs(pairs@),
            out@.len() == i,
            forall|j: int|
                0 <= j < i ==> utf16_text(#[trigger] units[j].0) == Some(out@[j].0@)
                    && utf16_text(units[j].1) == Some(out@[j].1@),
        decreases pairs.len() - i,
    {
        let name = utf16_strict(pairs[i].0.as_slice());
        let value = utf16_strict(pairs[i].1.as_slice());
        assert(units[i as int].0 == pairs@[i as int].0@);
        match (name, value) {
            (Some(n), Some(v)) => {
                out.push((n, v));
            },
            _ => {
                return None;
            },
        }
        i = i + 1;
    }
    assert(text_pairs(out@) =~= decoded_attrs(units));
    Some(out)
}

/// The value of the last attribute of the given name.
pub open spec fn attr_value(attrs: Seq<TextPair>, name: Seq<char>) -> Option<Seq<char>>
    decreases attrs.len(),
{
    if attrs.len() == 0 {
        None
    } else if attrs.last().0 == name {
        Some(attrs.last().1)
    } else {
        attr_value(attrs.drop_last(), name)
    }
}

/// The text in `value`, or `default` where there is none.
pub open spec fn text_or(value: Option<Seq<char>>, default: Seq<char>) -> Seq<char> {
    match value {
        Some(t) => t,
        None => default,
    }
}

/// Looks up the value of the last attribute of the given name.
pub fn find_attr(attrs: &Vec<(String, String)>, name: &str) -> (r: Option<String>)
    ensures
        r is Some <==> attr_value(text_pairs(attrs@), name@) is Some,
        r matches Some(v) ==> attr_value(text_pairs(attrs@), name@) == Some(v@),
{
    let mut i: usize = attrs.len();
    let ghost all = text_pairs(attrs@);
    assert(all.take(i as int) =~= all);
    while i > 0
        invariant
            i <= attrs.len(),
            all == text_pairs(attrs@),
            attr_value(all, name@) == attr_value(all.take(i as int), name@),
        decreases i,
    {
        let ghost part = all.take(i as int);
        assert(part.last() == all[i - 1]);
        assert(part.drop_last() =~= all.take(i - 1));
        if text_is(&attrs[i - 1].0, name) {
            return Some(attrs[i - 1].1.clone());
        }
        i = i - 1;
    }
    None
}

/// The value of an attribute, or a default where the header lacks it.
pub fn attr_or(attrs: &Vec<(String, String)>, name: &str, default: &str) -> (r: String)
    ensures
        r@ == text_or(attr_value(text_pairs(attrs@), name@), default@),
{
    match find_attr(attrs, name) {
        Some(v) => v,
        None => default.to_owned(),
    }
}

/// Whether the header gives an attribute the value `Yes`.
pub fn attr_is_yes(attrs: &Vec<(String, String)>, name: &str) -> (r: bool)
    ensures
        r == (attr_value(text_pairs(attrs@), name@) == Some("Yes"@)),
{
    match find_attr(attrs, name) {
        Some(v) => text_is(&v, "Yes"),
        None => false,
    }
}

/// Whether a character is a decimal digit.
pub open spec fn is_digit(c: char) -> bool {
    '0' <= c && c <= '9'
}

/// The first position at or after `from` that holds no digit.
pub open spec fn digits_end(t: Seq<char>, from: int) -> int
    decreases t.len() - from,
{
    if 0 <= from < t.len() && is_digit(t[from]) {
        digits_end(t, from + 1)
    } else {
        from
    }
}

/// The number that the first `end` characters, all of them digits, stand for.
pub open spec fn whole_part(t: Seq<char>, end: int) -> nat
    decreases end,
{
    if end <= 0 {
        0
    } else {
        whole_part(t, end - 1) * 10 + ((t[end - 1] as u32 - 0x30) as nat)
    }
}

/// Whether a text is a decimal number: digits, and after them at most a
/// point and more digits.
pub open spec fn is_decimal(t: Seq<char>) -> bool {
    let e = digits_end(t, 0);
    e > 0 && (e == t.len() || (t[e] == '.' && digits_end(t, e + 1) == t.len()))
}

/// The generation that an engine version stands for: below 2 the first,
/// from 2 on the second. What is no decimal number counts as 2.0.
pub open spec fn version_of(t: Seq<char>) -> FormatVersion {
    if is_decimal(t) && whole_part(t, digits_end(t, 0)) < 2 {
        FormatVersion::V1
    } else {
        FormatVersion::V2
    }
}

/// Reads the generation of the format off an engine version.
pub fn parse_version(text: &str) -> (v: FormatVersion)
    ensures
        v == version_of(text@),
{
    let n: usize = text.unicode_len();
    let mut i: usize = 0;
    // The whole part, counted no further than 2.
    let mut whole: u8 = 0;
    while i < n && is_digit_char(text.get_char(i))
        invariant
            n == text@.len(),
            i <= n,
            digits_end(text@, 0) == digits_end(text@, i as int),
            whole <= 2,
            whole as nat == if whole_part(text@, i as int) < 2 {
                whole_part(text@, i as int)
            } else {
                2
            },
        decreases n - i,
    {
        let c: char = text.get_char(i);
        let d: u8 = (c as u32 - 0x30) as u8;
        if whole >= 2 || whole * 10 + d >= 2 {
            whole = 2;
        } else {
            whole = whole * 10 + d;
        }
        i = i + 1;
    }
    assert(digits_end(text@, 0) == i);
    if i == 0 {
        return FormatVersion::V2;
    }
    if i < n {
        if text.get_char(i) != '.' {
            return FormatVersion::V2;
        }
        let mut j: usize = i + 1;
        while j < n && is_digit_char(text.get_char(j))
            invariant
                n == text@.len(),
                i < j <= n,
                digits_end(text@, i + 1) == digits_end(text@, j as int),
            decreases n - j,
        {
            j = j + 1;
        }
        assert(digits_end(text@, i + 1) == j);
        if j < n {
            return FormatVersion::V2;
        }
    }
    if whole < 2 {
        FormatVersion::V1
    } else {
        FormatVersion::V2
    }
}

/// Whether a character is a decimal digit.
fn is_digit_char(c: char) -> (r: bool)
    ensures
        r == is_digit(c),
{
    '0' <= c && c <= '9'
}

/// What an `Encryption` attribute stands for. The empty text, `No` and `0`
/// mean that nothing is encrypted; `Yes` and `1` that the records are; `2`
/// that the key index is; `3` and any other text that both are.
pub open spec fn encryption_of(t: Seq<char>) -> Encryption {
    if t == ""@ || t == "No"@ || t == "0"@ {
        Encryption { record: false, key_index: false }
    } else if t == "Yes"@ || t == "1"@ {
        Encryption { record: true, key_index: false }
    } else if t == "2"@ {
        Encryption { record: false, key_index: true }
    } else {
        Encryption { record: true, key_index: true }
    }
}

/// Reads the encryption flags off an `Encryption` attribute.
pub fn parse_encryption(text: &String) -> (e: Encryption)
    ensures
        e == encryption_of(text@),
{
    if text_is(text, "") || text_is(text, "No") || text_is(text, "0") {
        Encryption { record: false, key_index: false }
    } else if text_is(text, "Yes") || text_is(text, "1") {
        Encryption { record: true, key_index: false }
    } else if text_is(text, "2") {
        Encryption { record: false, key_index: true }
    } else {
        Encryption { record: true, key_index: true }
    }
}

/// The codec that an `Encoding` attribute names. An unknown label counts as UTF-8.
pub open spec fn encoding_of(t: Seq<char>) -> Encoding {
    if t == "UTF-16LE"@ {
        Encoding::Utf16Le
    } else if t == "GB18030"@ {
        Encoding::Gb18030
    } else if t == "GBK"@ {
        Encoding::Gbk
    } else if t == "BIG5"@ {
        Encoding::Big5
    } else if t == "Latin-1"@ {
        Encoding::Latin1
    } else {
        Encoding::Utf8
    }
}

/// Reads the codec off an `Encoding` attribute.
pub fn parse_encoding(text: &String) -> (e: Encoding)
    ensures
        e == encoding_of(text@),
{
    if text_is(text, "UTF-16LE") {
        Encoding::Utf16Le
    } else if text_is(text, "GB18030") {
        Encoding::Gb18030
    } else if text_is(text, "GBK") {
        Encoding::Gbk
    } else if text_is(text, "BIG5") {
        Encoding::Big5
    } else if text_is(text, "Latin-1") {
        Encoding::Latin1
    } else {
        Encoding::Utf8
    }
}

/// The descriptor that a header's attributes stand for.
pub open spec fn header_of(attrs: Seq<TextPair>, data_offset: u64) -> HeaderView {
    let engine = text_or(attr_value(attrs, "GeneratedByEngineVersion"@), ""@);
    HeaderView {
        version: version_of(engine),
        engine_version: engine,
        format: text_or(attr_value(attrs, "Format"@), "Html"@),
        key_case_sensitive: attr_value(attrs, "KeyCaseSensitive"@) == Some("Yes"@),
        strip_key: attr_value(attrs, "StripKey"@) == Some("Yes"@),
        encryption: encryption_of(text_or(attr_value(attrs, "Encryption"@), ""@)),
        encoding: encoding_of(text_or(attr_value(attrs, "Encoding"@), "UTF-8"@)),
        creation_date: text_or(attr_value(attrs, "CreationDate"@), ""@),
        compact: attr_value(attrs, "Compact"@) == Some("Yes"@),
        left2right: attr_value(attrs, "Left2Right"@) == Some("Yes"@),
        data_offset: data_offset,
        stylesheet: text_or(attr_value(attrs, "StyleSheet"@), ""@),
        title: text_or(attr_value(attrs, "Title"@), "Dictionary"@),
        description: text_or(attr_value(attrs, "Description"@), ""@),
    }
}

/// Builds the descriptor from a header's attributes.
pub fn header_from_attrs(attrs: &Vec<(String, String)>, data_offset: u64) -> (h: DictionaryHeader)
    ensures
        h@ == header_of(text_pairs(attrs@), data_offset),
{
    let engine = attr_or(attrs, "GeneratedByEngineVersion", "");
    let encryption = attr_or(attrs, "Encryption", "");
    let encoding = attr_or(attrs, "Encoding", "UTF-8");
    DictionaryHeader {
        version: parse_version(engine.as_str()),
        engine_version: engine,
        format: attr_or(attrs, "Format", "Html"),
        key_case_sensitive: attr_is_yes(attrs, "KeyCaseSensitive"),
        strip_key: attr_is_yes(attrs, "StripKey"),
        encryption: parse_encryption(&encryption),
        encoding: parse_encoding(&encoding),
        creation_date: attr_or(attrs, "CreationDate", ""),
        compact: attr_is_yes(attrs, "Compact"),
        left2right: attr_is_yes(attrs, "Left2Right"),
        data_offset,
        stylesheet: attr_or(attrs, "StyleSheet", ""),
        title: attr_or(attrs, "Title", "Dictionary"),
        description: attr_or(attrs, "Description", ""),
    }
}

/// The descriptor that a header text in code units stands for, before the
/// position of the key section is known.
pub open spec fn attrs_parsed(units: Seq<u16>) -> Result<HeaderView, MdictError> {
    match attrs_from(units, 0) {
        None => Err(MdictError::BadHeader),
        Some(pairs) => if all_decode(pairs) {
            Ok(header_of(decoded_attrs(pairs), 0))
        } else {
            Err(MdictError::BadHeader)
        },
    }
}

/// Reads the attributes of a header text and builds the descriptor, with the
/// position of the key section left at zero.
pub fn parse_header_attrs(units: &[u16]) -> (r: Result<DictionaryHeader, MdictError>)
    ensures
        r matches Ok(h) ==> attrs_parsed(units@) == Ok::<HeaderView, MdictError>(h@),
        r matches Err(e) ==> attrs_parsed(units@) == Err::<HeaderView, MdictError>(e),
{
    match scan_attributes(units) {
        None => Err(MdictError::BadHeader),
        Some(pairs) => match decode_attributes(&pairs) {
            None => Err(MdictError::BadHeader),
            Some(attrs) => Ok(header_from_attrs(&attrs, 0)),
        },
    }
}

/// The length in bytes of the header text, where the file holds the four
/// bytes that give it.
pub open spec fn header_length(file: Seq<u8>) -> Option<nat> {
    be_field(file, 0, 4)
}

/// Whether a header of `length` bytes is plausible in a file: the text is
/// made of whole code units, and the file holds it and the four bytes of
/// its checksum.
pub open spec fn plausible_length(file: Seq<u8>, length: nat) -> bool {
    length % 2 == 0 && 8 + length <= file.len()
}

/// The descriptor that a file's header stands for.
pub open spec fn header_parsed(file: Seq<u8>) -> Result<HeaderView, MdictError> {
    match header_length(file) {
        None => Err(MdictError::Io),
        Some(length) => if !plausible_length(file, length) {
            Err(MdictError::BadHeader)
        } else {
            let units = le_units(file.subrange(4, 4 + length as int));
            if utf16_text(units) is None {
                Err(MdictError::BadHeader)
            } else {
                match attrs_parsed(units) {
                    Err(e) => Err(e),
                    Ok(h) => Ok(HeaderView { data_offset: (length + 8) as u64, ..h }),
                }
            }
        },
    }
}

/// Reads the header at the start of a file: a four-byte big-endian length,
/// the header text in UTF-16LE, and a four-byte checksum that is not
/// examined.
pub fn read_header(file: &[u8]) -> (r: Result<DictionaryHeader, MdictError>)
    ensures
        r matches Ok(h) ==> header_parsed(file@) == Ok::<HeaderView, MdictError>(h@),
        r matches Err(e) ==> header_parsed(file@) == Err::<HeaderView, MdictError>(e),
{
    let length: u64 = match read_be(file, 0, 4) {
        None => {
            return Err(MdictError::Io);
        },
        Some(l) => l,
    };
    if length % 2 != 0 || file.len() < 8 || length > (file.len() - 8) as u64 {
        return Err(MdictError::BadHeader);
    }
    let text = slice_subrange(file, 4, 4 + length as usize);
    let units = units_of(text);
    if utf16_strict(units.as_slice()).is_none() {
        return Err(MdictError::BadHeader);
    }
    match parse_header_attrs(units.as_slice()) {
        Err(e) => Err(e),
        Ok(h) => Ok(DictionaryHeader { data_offset: length + 8, ..h }),
    }
}

} // verus!
