//! Text: the codecs of keys and records, and the form in which keys are
//! compared.

use vstd::prelude::*;
use vstd::utf8::encode_utf8;

verus! {

/// The text codec that a file names in its header.
#[derive(Debug, Clone, Copy, PartialEq, Eq, Structural)]
pub enum Encoding {
    Utf8,
    Utf16Le,
    Gb18030,
    Gbk,
    Big5,
    Latin1,
}

impl Encoding {
    /// The number of zero bytes that end a key: two for UTF-16, else one.
    pub open spec fn terminator_width(self) -> int {
        if self == Encoding::Utf16Le {
            2
        } else {
            1
        }
    }

    /// The number of zero bytes that end a key.
    pub fn terminator_len(self) -> (w: usize)
        ensures
            w as int == self.terminator_width(),
    {
        match self {
            Encoding::Utf16Le => 2,
            _ => 1,
        }
    }
}

/// What `String::from_utf8_lossy` makes of a byte sequence.
pub uninterp spec fn utf8_lossy_text(bytes: Seq<u8>) -> Seq<char>;

/// What `String::from_utf16_lossy` makes of a sequence of code units.
pub uninterp spec fn utf16_lossy_text(units: Seq<u16>) -> Seq<char>;

/// What `String::from_utf16` makes of a sequence of code units: the text, or
/// nothing where the units are not well-formed UTF-16.
pub uninterp spec fn utf16_text(units: Seq<u16>) -> Option<Seq<char>>;

/// Calls `String::from_utf8_lossy`, which decodes UTF-8 and puts U+FFFD in
/// place of what is not well-formed. The result depends on the bytes alone.
#[verifier::external_body]
fn utf8_lossy(bytes: &[u8]) -> (s: String)
    ensures
        s@ == utf8_lossy_text(bytes@),
{
    String::from_utf8_lossy(bytes).into_owned()
}

/// Calls `String::from_utf16_lossy`, which decodes UTF-16 and puts U+FFFD in
/// place of each unpaired surrogate. The result depends on the units alone.
#[verifier::external_body]
fn utf16_lossy(units: &[u16]) -> (s: String)
    ensures
        s@ == utf16_lossy_text(units@),
{
    String::from_utf16_lossy(units)
}

/// Calls `String::from_utf16`, which decodes UTF-16 and fails on an unpaired
/// surrogate. The result depends on the units alone.
#[verifier::external_body]
pub(crate) fn utf16_strict(units: &[u16]) -> (s: Option<String>)
    ensures
        s is Some <==> utf16_text(units@) is Some,
        s matches Some(t) ==> utf16_text(units@) == Some(t@),
{
    String::from_utf16(units).ok()
}

/// The code unit that two bytes stand for, least significant byte first.
pub open spec fn le_unit(low: u8, high: u8) -> u16 {
    (low as int + 256 * (high as int)) as u16
}

/// The UTF-16 code units of a little-endian byte sequence. A last odd byte
/// belongs to no unit.
pub open spec fn le_units(bytes: Seq<u8>) -> Seq<u16> {
    Seq::new((bytes.len() / 2) as nat, |i: int| le_unit(bytes[2 * i], bytes[2 * i + 1]))
}

/// Each byte as a code unit of its own.
pub open spec fn wide_units(bytes: Seq<u8>) -> Seq<u16> {
    Seq::new(bytes.len(), |i: int| bytes[i] as u16)
}

/// The text that a byte sequence stands for in a codec. UTF-16 and Latin-1
/// are decoded as such; the other codecs are read as UTF-8.
pub open spec fn text_of(bytes: Seq<u8>, encoding: Encoding) -> Seq<char> {
    match encoding {
        Encoding::Utf16Le => utf16_lossy_text(le_units(bytes)),
        Encoding::Latin1 => utf16_lossy_text(wide_units(bytes)),
        _ => utf8_lossy_text(bytes),
    }
}

/// Pairs the bytes of a little-endian sequence into code units.
pub fn units_of(bytes: &[u8]) -> (units: Vec<u16>)
    ensures
        units@ == le_units(bytes@),
{
    let count: usize = bytes.len() / 2;
    let mut units: Vec<u16> = Vec::new();
    let mut i: usize = 0;
    while i < count
        invariant
            count == bytes.len() / 2,
            i <= count,
            units@.len() == i,
            forall|j: int| 0 <= j < i ==> units@[j] == le_unit(bytes@[2 * j], bytes@[2 * j + 1]),
        decreases count - i,
    {
        let low: u16 = bytes[2 * i] as u16;
        let high: u16 = bytes[2 * i + 1] as u16;
        units.push(low + 256 * high);
        i = i + 1;
    }
    assert(units@ =~= le_units(bytes@));
    units
}

/// Widens each byte into a code unit.
pub fn widen(bytes: &[u8]) -> (units: Vec<u16>)
    ensures
        units@ == wide_units(bytes@),
{
    let mut units: Vec<u16> = Vec::new();
    let mut i: usize = 0;
    while i < bytes.len()
        invariant
            i <= bytes.len(),
            units@.len() == i,
            forall|j: int| 0 <= j < i ==> units@[j] == bytes@[j] as u16,
        decreases bytes.len() - i,
    {
        units.push(bytes[i] as u16);
        i = i + 1;
    }
    assert(units@ =~= wide_units(bytes@));
    units
}

/// Decodes bytes in the given codec into text.
pub fn decode_text(bytes: &[u8], encoding: Encoding) -> (s: String)
    ensures
        s@ == text_of(bytes@, encoding),
{
    match encoding {
        Encoding::Utf16Le => {
            let units = units_of(bytes);
            utf16_lossy(units.as_slice())
        },
        Encoding::Latin1 => {
            let units = widen(bytes);
            utf16_lossy(units.as_slice())
        },
        _ => utf8_lossy(bytes),
    }
}

/// Whether a byte is an ASCII capital letter.
pub open spec fn is_upper(b: u8) -> bool {
    0x41 <= b <= 0x5a
}

/// Whether a byte is an ASCII letter or digit.
pub open spec fn is_alphanumeric(b: u8) -> bool {
    (0x30 <= b <= 0x39) || (0x41 <= b <= 0x5a) || (0x61 <= b <= 0x7a)
}

/// Whether stripping keeps a byte: ASCII letters and digits stay, and so does
/// every byte of a character outside ASCII.
pub open spec fn is_kept(b: u8) -> bool {
    b >= 0x80 || is_alphanumeric(b)
}

/// A byte with an ASCII capital letter turned into its small letter.
pub open spec fn fold_byte(b: u8) -> u8 {
    if is_upper(b) {
        (b + 32) as u8
    } else {
        b
    }
}

/// A byte sequence with its ASCII capital letters turned into small letters.
pub open spec fn folded(s: Seq<u8>) -> Seq<u8> {
    Seq::new(s.len(), |i: int| fold_byte(s[i]))
}

/// A byte sequence without its ASCII whitespace, punctuation and controls.
pub open spec fn stripped(s: Seq<u8>) -> Seq<u8>
    decreases s.len(),
{
    if s.len() == 0 {
        Seq::empty()
    } else if is_kept(s.last()) {
        stripped(s.drop_last()).push(s.last())
    } else {
        stripped(s.drop_last())
    }
}

/// The form in which keys are compared: stripped where the file strips keys,
/// folded where it does not tell capital from small letters.
pub open spec fn normalized(s: Seq<u8>, strip: bool, case_sensitive: bool) -> Seq<u8> {
    let kept = if strip {
        stripped(s)
    } else {
        s
    };
    if case_sensitive {
        kept
    } else {
        folded(kept)
    }
}

/// Byte-wise order: whether `a` comes strictly before `b`.
pub open spec fn lex_lt(a: Seq<u8>, b: Seq<u8>) -> bool
    decreases a.len(),
{
    if b.len() == 0 {
        false
    } else if a.len() == 0 {
        true
    } else if a[0] != b[0] {
        a[0] < b[0]
    } else {
        lex_lt(a.drop_first(), b.drop_first())
    }
}

/// Byte-wise order: whether `a` comes before `b` or equals it.
pub open spec fn lex_le(a: Seq<u8>, b: Seq<u8>) -> bool {
    a == b || lex_lt(a, b)
}

/// How one key stands to another in byte-wise order.
#[derive(Debug, Clone, Copy, PartialEq, Eq, Structural)]
pub enum KeyOrder {
    Before,
    Same,
    After,
}

/// Nothing comes before itself.
pub proof fn lemma_lex_irreflexive(a: Seq<u8>)
    ensures
        !lex_lt(a, a),
    decreases a.len(),
{
    if a.len() > 0 {
        lemma_lex_irreflexive(a.drop_first());
    }
}

/// Of two different sequences exactly one comes before the other.
pub proof fn lemma_lex_total(a: Seq<u8>, b: Seq<u8>)
    ensures
        a == b || lex_lt(a, b) || lex_lt(b, a),
        !(lex_lt(a, b) && lex_lt(b, a)),
        a == b ==> !lex_lt(a, b),
    decreases a.len(),
{
    lemma_lex_irreflexive(a);
    if a.len() > 0 && b.len() > 0 && a[0] == b[0] {
        lemma_lex_total(a.drop_first(), b.drop_first());
        if a.drop_first() == b.drop_first() {
            assert(a =~= seq![a[0]] + a.drop_first());
            assert(b =~= seq![b[0]] + b.drop_first());
        }
    } else if a.len() == 0 && b.len() == 0 {
        assert(a =~= b);
    }
}

/// Byte-wise order is transitive.
pub proof fn lemma_lex_transitive(a: Seq<u8>, b: Seq<u8>, c: Seq<u8>)
    requires
        lex_lt(a, b),
        lex_lt(b, c),
    ensures
        lex_lt(a, c),
    decreases a.len(),
{
    if a.len() > 0 && a[0] == b[0] && b[0] == c[0] {
        lemma_lex_transitive(a.drop_first(), b.drop_first(), c.drop_first());
    }
}

/// `lex_le` is transitive.
pub proof fn lemma_lex_le_transitive(a: Seq<u8>, b: Seq<u8>, c: Seq<u8>)
    requires
        lex_le(a, b),
        lex_le(b, c),
    ensures
        lex_le(a, c),
{
    if a != b && b != c {
        lemma_lex_transitive(a, b, c);
    }
}

/// Skipping a common prefix leaves the order of two sequences as it is.
pub proof fn lemma_lex_skip(a: Seq<u8>, b: Seq<u8>, n: int)
    requires
        0 <= n <= a.len(),
        n <= b.len(),
        a.take(n) == b.take(n),
    ensures
        lex_lt(a, b) == lex_lt(a.skip(n), b.skip(n)),
    decreases n,
{
    if n == 0 {
        assert(a.skip(0) =~= a);
        assert(b.skip(0) =~= b);
    } else {
        assert(a.take(n - 1) =~= a.take(n).take(n - 1));
        assert(b.take(n - 1) =~= b.take(n).take(n - 1));
        lemma_lex_skip(a, b, n - 1);
        let x = a.skip(n - 1);
        let y = b.skip(n - 1);
        assert(x[0] == a.take(n)[n - 1]);
        assert(y[0] == b.take(n)[n - 1]);
        assert(x.drop_first() =~= a.skip(n));
        assert(y.drop_first() =~= b.skip(n));
    }
}

/// Compares two byte sequences byte by byte.
pub fn lex_order(a: &[u8], b: &[u8]) -> (o: KeyOrder)
    ensures
        o == KeyOrder::Before <==> lex_lt(a@, b@),
        o == KeyOrder::Same <==> a@ == b@,
        o == KeyOrder::After <==> lex_lt(b@, a@),
{
    let mut i: usize = 0;
    proof {
        lemma_lex_total(a@, b@);
    }
    while i < a.len() && i < b.len()
        invariant
            i <= a.len(),
            i <= b.len(),
            a@.take(i as int) == b@.take(i as int),
        decreases a.len() - i,
    {
        if a[i] != b[i] {
            proof {
                lemma_lex_skip(a@, b@, i as int);
                lemma_lex_skip(b@, a@, i as int);
                assert(a@.skip(i as int)[0] == a@[i as int]);
                assert(b@.skip(i as int)[0] == b@[i as int]);
                assert(a@ != b@);
            }
            if a[i] < b[i] {
                return KeyOrder::Before;
            } else {
                return KeyOrder::After;
            }
        }
        assert(a@.take(i + 1) =~= a@.take(i as int).push(a@[i as int]));
        assert(b@.take(i + 1) =~= b@.take(i as int).push(b@[i as int]));
        i = i + 1;
    }
    proof {
        lemma_lex_skip(a@, b@, i as int);
        lemma_lex_skip(b@, a@, i as int);
    }
    if i < b.len() {
        assert(a@.skip(i as int).len() == 0);
        assert(a@.len() != b@.len());
        KeyOrder::Before
    } else if i < a.len() {
        assert(b@.skip(i as int).len() == 0);
        assert(a@.len() != b@.len());
        KeyOrder::After
    } else {
        assert(a@ =~= a@.take(i as int));
        assert(b@ =~= b@.take(i as int));
        KeyOrder::Same
    }
}

/// Whether `s` begins with `p`.
pub fn has_prefix(s: &[u8], p: &[u8]) -> (r: bool)
    ensures
        r == p@.is_prefix_of(s@),
{
    if p.len() > s.len() {
        return false;
    }
    let mut i: usize = 0;
    while i < p.len()
        invariant
            i <= p.len(),
            p.len() <= s.len(),
            forall|j: int| 0 <= j < i ==> p@[j] == s@[j],
        decreases p.len() - i,
    {
        if p[i] != s[i] {
            return false;
        }
        i = i + 1;
    }
    assert(p@ =~= s@.subrange(0, p@.len() as int));
    true
}

/// Turns the ASCII capital letters of `bytes` into small letters.
pub fn fold_case(bytes: &[u8]) -> (out: Vec<u8>)
    ensures
        out@ == folded(bytes@),
{
    let mut out: Vec<u8> = Vec::new();
    let mut i: usize = 0;
    while i < bytes.len()
        invariant
            i <= bytes.len(),
            out@.len() == i,
            forall|j: int| 0 <= j < i ==> out@[j] == fold_byte(bytes@[j]),
        decreases bytes.len() - i,
    {
        let b: u8 = bytes[i];
        if 0x41 <= b && b <= 0x5a {
            out.push(b + 32);
        } else {
            out.push(b);
        }
        i = i + 1;
    }
    assert(out@ =~= folded(bytes@));
    out
}

/// Removes from `bytes` every ASCII byte that is no letter and no digit.
pub fn strip_key(bytes: &[u8]) -> (out: Vec<u8>)
    ensures
        out@ == stripped(bytes@),
{
    let mut out: Vec<u8> = Vec::new();
    let mut i: usize = 0;
    assert(bytes@.take(0) =~= Seq::<u8>::empty());
    while i < bytes.len()
        invariant
            i <= bytes.len(),
            out@ == stripped(bytes@.take(i as int)),
        decreases bytes.len() - i,
    {
        let b: u8 = bytes[i];
        assert(bytes@.take(i + 1).drop_last() =~= bytes@.take(i as int));
        if b >= 0x80 || (0x30 <= b && b <= 0x39) || (0x41 <= b && b <= 0x5a) || (0x61 <= b && b
            <= 0x7a) {
            out.push(b);
        }
        i = i + 1;
    }
    assert(bytes@.take(i as int) =~= bytes@);
    out
}

/// Brings `bytes` into the form in which keys are compared.
pub fn normalize(bytes: &[u8], strip: bool, case_sensitive: bool) -> (out: Vec<u8>)
    ensures
        out@ == normalized(bytes@, strip, case_sensitive),
{
    if strip {
        let kept = strip_key(bytes);
        if case_sensitive {
            kept
        } else {
            fold_case(kept.as_slice())
        }
    } else if case_sensitive {
        vstd::slice::slice_to_vec(bytes)
    } else {
        fold_case(bytes)
    }
}

/// The form in which a key's text is compared: its UTF-8 bytes, normalized.
pub open spec fn key_form(key: Seq<char>, strip: bool, case_sensitive: bool) -> Seq<u8> {
    normalized(encode_utf8(key), strip, case_sensitive)
}

/// The form in which a key's text is held against a prefix: its UTF-8
/// bytes, folded where the file does not tell capital from small letters.
pub open spec fn fold_form(key: Seq<char>, case_sensitive: bool) -> Seq<u8> {
    normalized(encode_utf8(key), false, case_sensitive)
}

/// Brings a key's text into the form in which keys are compared.
pub fn key_form_of(key: &str, strip: bool, case_sensitive: bool) -> (out: Vec<u8>)
    ensures
        out@ == key_form(key@, strip, case_sensitive),
{
    normalize(key.as_bytes(), strip, case_sensitive)
}

/// The texts that a vector of strings holds.
pub open spec fn texts(v: Seq<String>) -> Seq<Seq<char>> {
    Seq::new(v.len(), |i: int| v[i]@)
}

/// Whether a string holds the given text.
pub fn text_is(s: &String, text: &str) -> (r: bool)
    ensures
        r == (s@ == text@),
{
    let other = text.to_owned();
    *s == other
}

} // verus!
