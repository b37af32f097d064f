//! Key blocks: their entries, the search for a key among them, and the
//! choice of the block whose range of keys holds a query.

use crate::codec::{decompress, frame_decoded};
use crate::error::MdictError;
use crate::header::{DictionaryHeader, FormatVersion, HeaderView};
use crate::index::{key_views, KeyBlockInfo, KeyBlockView};
use crate::text::{
    decode_text, key_form, key_form_of, lemma_lex_le_transitive, lemma_lex_total, lex_le, lex_lt,
    lex_order, text_of, Encoding, KeyOrder,
};
use crate::wire::{be_field, read_be, span, take_span};
use vstd::prelude::*;
use vstd::slice::slice_subrange;

verus! {

/// One entry of a key block: a key and the address of its record among the
/// decoded bytes of all record blocks.
#[derive(Debug, Clone)]
pub struct KeyEntry {
    pub key: String,
    pub offset: u64,
}

/// A key entry as a mathematical value.
pub struct KeyEntryView {
    pub key: Seq<char>,
    pub offset: u64,
}

impl View for KeyEntry {
    type V = KeyEntryView;

    open spec fn view(&self) -> KeyEntryView {
        KeyEntryView { key: self.key@, offset: self.offset }
    }
}

/// The entries that a vector of key entries holds.
pub open spec fn entry_views(v: Seq<KeyEntry>) -> Seq<KeyEntryView> {
    Seq::new(v.len(), |i: int| v[i]@)
}

/// Whether the `width` bytes at `pos` are all zero.
pub open spec fn is_terminator(data: Seq<u8>, pos: int, width: int) -> bool {
    forall|k: int| 0 <= k < width ==> #[trigger] data[pos + k] == 0
}

/// The position of the terminator that ends the key starting at `from`: the
/// first run of `width` zero bytes that lies a whole number of code units
/// after `from`. There is none where the data ends first.
pub open spec fn key_end(data: Seq<u8>, from: int, width: int) -> Option<int>
    decreases data.len() - from,
{
    if from < 0 || width <= 0 || from + width > data.len() {
        None
    } else if is_terminator(data, from, width) {
        Some(from)
    } else {
        key_end(data, from + width, width)
    }
}

/// The entry that a decoded key block holds at `pos`, and the position
/// after it: the record's address, then the key and its terminator.
pub open spec fn entry_at(data: Seq<u8>, pos: int, version: FormatVersion, encoding: Encoding)
    -> Option<(KeyEntryView, int)> {
    match be_field(data, pos, version.number_width()) {
        None => None,
        Some(offset) => {
            let start = pos + version.number_width();
            match key_end(data, start, encoding.terminator_width()) {
                None => None,
                Some(end) => Some(
                    (
                        KeyEntryView {
                            key: text_of(data.subrange(start, end), encoding),
                            offset: offset as u64,
                        },
                        end + encoding.terminator_width(),
                    ),
                ),
            }
        },
    }
}

/// The first `count` entries of a decoded key block and the position after
/// them, or nothing where the block ends before them.
pub open spec fn entries_scan(data: Seq<u8>, count: nat, version: FormatVersion, encoding: Encoding)
    -> Option<(Seq<KeyEntryView>, int)>
    decreases count,
{
    if count == 0 {
        Some((Seq::empty(), 0))
    } else {
        match entries_scan(data, (count - 1) as nat, version, encoding) {
            None => None,
            Some((entries, pos)) => match entry_at(data, pos, version, encoding) {
                None => None,
                Some((entry, next)) => Some((entries.push(entry), next)),
            },
        }
    }
}

/// The entries of a decoded key block that is said to hold `count` of them.
/// The block is corrupt where it ends before the last entry, and where
/// bytes are left after it.
pub open spec fn block_entries(data: Seq<u8>, count: nat, version: FormatVersion, encoding: Encoding)
    -> Result<Seq<KeyEntryView>, MdictError> {
    match entries_scan(data, count, version, encoding) {
        Some((entries, pos)) => if pos == data.len() {
            Ok(entries)
        } else {
            Err(MdictError::CorruptBlock)
        },
        None => Err(MdictError::CorruptBlock),
    }
}

/// A scan that went through holds `count` entries and stays inside the data.
pub proof fn lemma_entries_scan(data: Seq<u8>, count: nat, version: FormatVersion, encoding: Encoding)
    requires
        entries_scan(data, count, version, encoding) is Some,
    ensures
        entries_scan(data, count, version, encoding).unwrap().0.len() == count,
        0 <= entries_scan(data, count, version, encoding).unwrap().1 <= data.len(),
    decreases count,
{
    if count > 0 {
        lemma_entries_scan(data, (count - 1) as nat, version, encoding);
        let pos = entries_scan(data, (count - 1) as nat, version, encoding).unwrap().1;
        lemma_key_end(data, pos + version.number_width(), encoding.terminator_width());
    }
}

/// A key's terminator lies at or after the key's start, and inside the data.
pub proof fn lemma_key_end(data: Seq<u8>, from: int, width: int)
    ensures
        key_end(data, from, width) matches Some(end) ==> from <= end && end + width <= data.len(),
    decreases data.len() - from,
{
    if !(from < 0 || width <= 0 || from + width > data.len()) && !is_terminator(data, from, width) {
        lemma_key_end(data, from + width, width);
    }
}

/// A scan that fails after `reached` entries fails for every larger count.
pub proof fn lemma_entries_scan_fails_on(
    data: Seq<u8>,
    reached: nat,
    count: nat,
    version: FormatVersion,
    encoding: Encoding,
)
    requires
        reached <= count,
        entries_scan(data, reached, version, encoding) is None,
    ensures
        entries_scan(data, count, version, encoding) is None,
    decreases count - reached,
{
    if reached < count {
        lemma_entries_scan_fails_on(data, reached, (count - 1) as nat, version, encoding);
    }
}

/// Finds the terminator of the key that starts at `from`.
fn find_key_end(data: &[u8], from: usize, width: usize) -> (r: Option<usize>)
    requires
        width == 1 || width == 2,
        from <= data@.len(),
    ensures
        r is Some <==> key_end(data@, from as int, width as int) is Some,
        r matches Some(end) ==> key_end(data@, from as int, width as int) == Some(end as int)
            && from <= end && end + width <= data@.len(),
{
    let size: usize = data.len();
    let mut p: usize = from;
    while size - p >= width
        invariant
            size == data@.len(),
            width == 1 || width == 2,
            from <= p <= size,
            key_end(data@, from as int, width as int) == key_end(data@, p as int, width as int),
        decreases size - p,
    {
        let zero: bool = if width == 1 {
            data[p] == 0
        } else {
            data[p] == 0 && data[p + 1] == 0
        };
        if zero {
            assert(is_terminator(data@, p as int, width as int)) by {
                assert forall|k: int| 0 <= k < width implies #[trigger] data@[p + k] == 0 by {
                    assert(k == 0 || k == 1);
                }
            }
            return Some(p);
        }
        assert(!is_terminator(data@, p as int, width as int)) by {
            if is_terminator(data@, p as int, width as int) {
                assert(data@[p + 0] == 0);
                if width == 2 {
                    assert(data@[p + 1] == 0);
                }
            }
        }
        p = p + width;
    }
    None
}

/// Reads the entry of a decoded key block at `pos`: the record's address,
/// then the key up to its terminator. Gives the entry and the position
/// after it.
pub fn read_key_entry(data: &[u8], pos: usize, version: FormatVersion, encoding: Encoding) -> (r:
    Option<(KeyEntry, usize)>)
    ensures
        r is Some <==> entry_at(data@, pos as int, version, encoding) is Some,
        r matches Some((entry, next)) ==> entry_at(data@, pos as int, version, encoding) == Some(
            (entry@, next as int),
        ) && pos < next <= data@.len(),
{
    let size: usize = data.len();
    let width: usize = version.number_len();
    let offset: u64 = match read_be(data, pos, width) {
        None => {
            return None;
        },
        Some(v) => v,
    };
    let start: usize = pos + width;
    let tail: usize = encoding.terminator_len();
    let end: usize = match find_key_end(data, start, tail) {
        None => {
            return None;
        },
        Some(e) => e,
    };
    let key = decode_text(slice_subrange(data, start, end), encoding);
    Some((KeyEntry { key, offset }, end + tail))
}

/// Reads the `num_entries` entries of a decoded key block. The block is
/// corrupt where it ends before the last entry, and where bytes are left
/// after it.
pub fn parse_key_entries(
    data: &[u8],
    num_entries: u64,
    version: FormatVersion,
    encoding: Encoding,
) -> (r: Result<Vec<KeyEntry>, MdictError>)
    ensures
        r matches Ok(entries) ==> block_entries(data@, num_entries as nat, version, encoding)
            == Ok::<Seq<KeyEntryView>, MdictError>(entry_views(entries@)) && entries@.len()
            == num_entries,
        r matches Err(e) ==> block_entries(data@, num_entries as nat, version, encoding) == Err::<
            Seq<KeyEntryView>,
            MdictError,
        >(e),
{
    let mut entries: Vec<KeyEntry> = Vec::new();
    let mut pos: usize = 0;
    let mut i: u64 = 0;
    assert(entry_views(entries@) =~= Seq::<KeyEntryView>::empty());
    while i < num_entries
        invariant
            i <= num_entries,
            pos <= data@.len(),
            entries@.len() == i,
            entries_scan(data@, i as nat, version, encoding) == Some(
                (entry_views(entries@), pos as int),
            ),
        decreases num_entries - i,
    {
        let ghost before = entry_views(entries@);
        match read_key_entry(data, pos, version, encoding) {
            None => {
                proof {
                    lemma_entries_scan_fails_on(
                        data@,
                        (i + 1) as nat,
                        num_entries as nat,
                        version,
                        encoding,
                    );
                }
                return Err(MdictError::CorruptBlock);
            },
            Some((entry, next)) => {
                entries.push(entry);
                pos = next;
                assert(entry_views(entries@) =~= before.push(entry@));
            },
        }
        i = i + 1;
    }
    if pos != data.len() {
        return Err(MdictError::CorruptBlock);
    }
    Ok(entries)
}

/// Whether the first and the last entry of a block bear the keys that the
/// block's descriptor states.
pub open spec fn keys_agree(info: KeyBlockView, entries: Seq<KeyEntryView>) -> bool {
    entries.len() > 0 ==> entries[0].key == info.first_key && entries.last().key == info.last_key
}

/// The entries that the frame of a key block decodes to. The decoded
/// length, the number of entries and the first and last key must be those
/// that the block's descriptor states, or the block is corrupt.
pub open spec fn frame_entries(frame: Seq<u8>, info: KeyBlockView, header: HeaderView) -> Result<
    Seq<KeyEntryView>,
    MdictError,
> {
    match frame_decoded(frame) {
        Err(e) => Err(e),
        Ok(data) => if data.len() != info.decompressed_size {
            Err(MdictError::CorruptBlock)
        } else {
            match block_entries(data, info.num_entries as nat, header.version, header.encoding) {
                Err(e) => Err(e),
                Ok(entries) => if keys_agree(info, entries) {
                    Ok(entries)
                } else {
                    Err(MdictError::CorruptBlock)
                },
            }
        },
    }
}

/// The entries of the key block that a descriptor points at: those of the
/// frame at the descriptor's offset in the file.
pub open spec fn key_block_decoded(file: Seq<u8>, info: KeyBlockView, header: HeaderView) -> Result<
    Seq<KeyEntryView>,
    MdictError,
> {
    match span(file, info.file_offset as int, info.compressed_size as int) {
        None => Err(MdictError::Io),
        Some(frame) => frame_entries(frame, info, header),
    }
}

/// Whether two strings hold the same text.
fn same_text(a: &String, b: &String) -> (r: bool)
    ensures
        r == (a@ == b@),
{
    *a == *b
}

/// Decodes the frame of a key block and holds the block against its
/// descriptor. Every block that this function returns holds as many
/// entries as its descriptor states, and its first and last key are those
/// of the descriptor.
pub fn decode_key_block(frame: &[u8], info: &KeyBlockInfo, header: &DictionaryHeader) -> (r: Result<
    Vec<KeyEntry>,
    MdictError,
>)
    ensures
        r matches Ok(entries) ==> {
            &&& frame_entries(frame@, info@, header@) == Ok::<Seq<KeyEntryView>, MdictError>(
                entry_views(entries@),
            )
            &&& entries@.len() == info.num_entries
            &&& entries@.len() > 0 ==> entries@[0].key@ == info.first_key@
                && entries@[entries@.len() - 1].key@ == info.last_key@
        },
        r matches Err(e) ==> frame_entries(frame@, info@, header@) == Err::<
            Seq<KeyEntryView>,
            MdictError,
        >(e),
{
    let data = decompress(frame)?;
    if data.len() as u64 != info.decompressed_size {
        return Err(MdictError::CorruptBlock);
    }
    let entries = parse_key_entries(
        data.as_slice(),
        info.num_entries,
        header.version,
        header.encoding,
    )?;
    let count: usize = entries.len();
    if count > 0 {
        assert(entry_views(entries@)[0] == entries@[0]@);
        assert(entry_views(entries@).last() == entries@[count - 1]@);
        if !same_text(&entries[0].key, &info.first_key) || !same_text(
            &entries[count - 1].key,
            &info.last_key,
        ) {
            return Err(MdictError::CorruptBlock);
        }
    }
    Ok(entries)
}

/// Reads the frame of a key block at the offset that its descriptor
/// states, and decodes it.
pub fn read_key_block_entries(file: &[u8], info: &KeyBlockInfo, header: &DictionaryHeader) -> (r:
    Result<Vec<KeyEntry>, MdictError>)
    ensures
        r matches Ok(entries) ==> {
            &&& key_block_decoded(file@, info@, header@) == Ok::<Seq<KeyEntryView>, MdictError>(
                entry_views(entries@),
            )
            &&& entries@.len() == info.num_entries
            &&& entries@.len() > 0 ==> entries@[0].key@ == info.first_key@
                && entries@[entries@.len() - 1].key@ == info.last_key@
        },
        r matches Err(e) ==> key_block_decoded(file@, info@, header@) == Err::<
            Seq<KeyEntryView>,
            MdictError,
        >(e),
{
    match take_span(file, info.file_offset, info.compressed_size) {
        None => Err(MdictError::Io),
        Some(frame) => decode_key_block(frame, info, header),
    }
}

/// The position of the first entry from `from` on whose key, in the form
/// in which keys are compared, is `target`.
pub open spec fn first_match(
    entries: Seq<KeyEntryView>,
    target: Seq<u8>,
    strip: bool,
    case_sensitive: bool,
    from: int,
) -> Option<int>
    decreases entries.len() - from,
{
    if from < 0 || from >= entries.len() {
        None
    } else if key_form(entries[from].key, strip, case_sensitive) == target {
        Some(from)
    } else {
        first_match(entries, target, strip, case_sensitive, from + 1)
    }
}

/// What `first_match` finds is an entry with the target's form, and no
/// entry between `from` and it has that form.
pub proof fn lemma_first_match(
    entries: Seq<KeyEntryView>,
    target: Seq<u8>,
    strip: bool,
    case_sensitive: bool,
    from: int,
)
    requires
        0 <= from,
    ensures
        first_match(entries, target, strip, case_sensitive, from) matches Some(i) ==> from <= i
            < entries.len() && key_form(entries[i].key, strip, case_sensitive) == target
            && forall|j: int|
            from <= j < i ==> key_form(#[trigger] entries[j].key, strip, case_sensitive) != target,
        first_match(entries, target, strip, case_sensitive, from) is None ==> forall|j: int|
            from <= j < entries.len() ==> key_form(#[trigger] entries[j].key, strip, case_sensitive)
                != target,
    decreases entries.len() - from,
{
    if from < entries.len() && key_form(entries[from].key, strip, case_sensitive) != target {
        lemma_first_match(entries, target, strip, case_sensitive, from + 1);
    }
}

/// Finds the first entry whose key, in the form in which keys are compared,
/// is `target`.
pub fn find_entry(entries: &Vec<KeyEntry>, target: &[u8], strip: bool, case_sensitive: bool) -> (r:
    Option<usize>)
    ensures
        r is Some <==> first_match(entry_views(entries@), target@, strip, case_sensitive, 0)
            is Some,
        r matches Some(i) ==> first_match(entry_views(entries@), target@, strip, case_sensitive, 0)
            == Some(i as int) && i < entries@.len(),
{
    let mut i: usize = 0;
    while i < entries.len()
        invariant
            i <= entries@.len(),
            first_match(entry_views(entries@), target@, strip, case_sensitive, 0) == first_match(
                entry_views(entries@),
                target@,
                strip,
                case_sensitive,
                i as int,
            ),
        decreases entries@.len() - i,
    {
        let form = key_form_of(entries[i].key.as_str(), strip, case_sensitive);
        assert(entry_views(entries@)[i as int].key == entries@[i as int].key@);
        match lex_order(form.as_slice(), target) {
            KeyOrder::Same => {
                return Some(i);
            },
            _ => {},
        }
        i = i + 1;
    }
    None
}

/// The form of the first key of block `i`.
pub open spec fn first_form(infos: Seq<KeyBlockView>, strip: bool, case_sensitive: bool, i: int)
    -> Seq<u8> {
    key_form(infos[i].first_key, strip, case_sensitive)
}

/// The form of the last key of block `i`.
pub open spec fn last_form(infos: Seq<KeyBlockView>, strip: bool, case_sensitive: bool, i: int)
    -> Seq<u8> {
    key_form(infos[i].last_key, strip, case_sensitive)
}

/// Whether the range of keys of block `i` holds a query.
pub open spec fn block_holds(
    infos: Seq<KeyBlockView>,
    query: Seq<u8>,
    strip: bool,
    case_sensitive: bool,
    i: int,
) -> bool {
    lex_le(first_form(infos, strip, case_sensitive, i), query) && lex_le(
        query,
        last_form(infos, strip, case_sensitive, i),
    )
}

/// The first block from `from` on whose range of keys holds a query.
pub open spec fn holding_key_block(
    infos: Seq<KeyBlockView>,
    query: Seq<u8>,
    strip: bool,
    case_sensitive: bool,
    from: int,
) -> Option<int>
    decreases infos.len() - from,
{
    if from < 0 || from >= infos.len() {
        None
    } else if block_holds(infos, query, strip, case_sensitive, from) {
        Some(from)
    } else {
        holding_key_block(infos, query, strip, case_sensitive, from + 1)
    }
}

/// Whether block `i` is in order: its first key does not come after its
/// last, and its last key does not come after the first key of the next block.
pub open spec fn ordered_at(infos: Seq<KeyBlockView>, strip: bool, case_sensitive: bool, i: int)
    -> bool {
    &&& lex_le(
        first_form(infos, strip, case_sensitive, i),
        last_form(infos, strip, case_sensitive, i),
    )
    &&& i + 1 < infos.len() ==> lex_le(
        last_form(infos, strip, case_sensitive, i),
        first_form(infos, strip, case_sensitive, i + 1),
    )
}

/// Whether the ranges of a key index are in order: each range begins no
/// later than it ends, and ends no later than the next one begins.
pub open spec fn keys_ordered(infos: Seq<KeyBlockView>, strip: bool, case_sensitive: bool) -> bool {
    forall|i: int| 0 <= i < infos.len() ==> #[trigger] ordered_at(infos, strip, case_sensitive, i)
}

/// In an ordered key index the ranges rise: a later block's keys do not
/// come before an earlier block's.
pub proof fn lemma_ordered_rises(
    infos: Seq<KeyBlockView>,
    strip: bool,
    case_sensitive: bool,
    i: int,
    j: int,
)
    requires
        keys_ordered(infos, strip, case_sensitive),
        0 <= i <= j < infos.len(),
    ensures
        lex_le(
            first_form(infos, strip, case_sensitive, i),
            first_form(infos, strip, case_sensitive, j),
        ),
        lex_le(
            last_form(infos, strip, case_sensitive, i),
            last_form(infos, strip, case_sensitive, j),
        ),
        i < j ==> lex_le(
            last_form(infos, strip, case_sensitive, i),
            first_form(infos, strip, case_sensitive, j),
        ),
    decreases j - i,
{
    assert(ordered_at(infos, strip, case_sensitive, j));
    if i < j {
        lemma_ordered_rises(infos, strip, case_sensitive, i, j - 1);
        assert(ordered_at(infos, strip, case_sensitive, j - 1));
        let fi = first_form(infos, strip, case_sensitive, i);
        let li = last_form(infos, strip, case_sensitive, i);
        let fp = first_form(infos, strip, case_sensitive, j - 1);
        let lp = last_form(infos, strip, case_sensitive, j - 1);
        let fj = first_form(infos, strip, case_sensitive, j);
        let lj = last_form(infos, strip, case_sensitive, j);
        lemma_lex_le_transitive(li, lp, fj);
        lemma_lex_le_transitive(fi, fp, lp);
        lemma_lex_le_transitive(fi, lp, fj);
        lemma_lex_le_transitive(li, fj, lj);
    }
}

/// Where no block from `from` up to `to` holds a query, the first block
/// that holds it from `from` on is the first that holds it from `to` on.
pub proof fn lemma_skip_blocks(
    infos: Seq<KeyBlockView>,
    query: Seq<u8>,
    strip: bool,
    case_sensitive: bool,
    from: int,
    to: int,
)
    requires
        0 <= from <= to <= infos.len(),
        forall|j: int| from <= j < to ==> !#[trigger] block_holds(
            infos,
            query,
            strip,
            case_sensitive,
            j,
        ),
    ensures
        holding_key_block(infos, query, strip, case_sensitive, from) == holding_key_block(
            infos,
            query,
            strip,
            case_sensitive,
            to,
        ),
    decreases to - from,
{
    if from < to {
        assert(!block_holds(infos, query, strip, case_sensitive, from));
        lemma_skip_blocks(infos, query, strip, case_sensitive, from + 1, to);
    }
}

/// Whether the ranges of a key index are in order.
pub fn index_is_ordered(infos: &Vec<KeyBlockInfo>, strip: bool, case_sensitive: bool) -> (r: bool)
    ensures
        r == keys_ordered(key_views(infos@), strip, case_sensitive),
{
    let ghost views = key_views(infos@);
    let mut i: usize = 0;
    while i < infos.len()
        invariant
            i <= infos@.len(),
            views == key_views(infos@),
            forall|j: int| 0 <= j < i ==> #[trigger] ordered_at(views, strip, case_sensitive, j),
        decreases infos@.len() - i,
    {
        let first = key_form_of(infos[i].first_key.as_str(), strip, case_sensitive);
        let last = key_form_of(infos[i].last_key.as_str(), strip, case_sensitive);
        proof {
            lemma_lex_total(first@, last@);
        }
        match lex_order(first.as_slice(), last.as_slice()) {
            KeyOrder::After => {
                assert(!ordered_at(views, strip, case_sensitive, i as int));
                return false;
            },
            _ => {},
        }
        if i + 1 < infos.len() {
            let next = key_form_of(infos[i + 1].first_key.as_str(), strip, case_sensitive);
            proof {
                lemma_lex_total(last@, next@);
            }
            match lex_order(last.as_slice(), next.as_slice()) {
                KeyOrder::After => {
                    assert(!ordered_at(views, strip, case_sensitive, i as int));
                    return false;
                },
                _ => {},
            }
        }
        i = i + 1;
    }
    true
}

/// Whether the range of keys of block `i` holds a query.
fn holds_query(infos: &Vec<KeyBlockInfo>, i: usize, query: &[u8], strip: bool, case_sensitive: bool)
    -> (r: bool)
    requires
        i < infos@.len(),
    ensures
        r == block_holds(key_views(infos@), query@, strip, case_sensitive, i as int),
{
    let first = key_form_of(infos[i].first_key.as_str(), strip, case_sensitive);
    proof {
        lemma_lex_total(first@, query@);
    }
    match lex_order(first.as_slice(), query) {
        KeyOrder::After => {
            return false;
        },
        _ => {},
    }
    let last = key_form_of(infos[i].last_key.as_str(), strip, case_sensitive);
    proof {
        lemma_lex_total(query@, last@);
    }
    match lex_order(query, last.as_slice()) {
        KeyOrder::After => false,
        _ => true,
    }
}

/// Finds the first key block whose range holds a query. Where the index is
/// known to be in order, the search halves the range of blocks whose last
/// key does not come before the query; else it tries the blocks in turn.
pub fn select_key_block(
    infos: &Vec<KeyBlockInfo>,
    ordered: bool,
    query: &[u8],
    strip: bool,
    case_sensitive: bool,
) -> (r: Option<usize>)
    requires
        ordered ==> keys_ordered(key_views(infos@), strip, case_sensitive),
    ensures
        r is Some <==> holding_key_block(key_views(infos@), query@, strip, case_sensitive, 0)
            is Some,
        r matches Some(b) ==> holding_key_block(key_views(infos@), query@, strip, case_sensitive, 0)
            == Some(b as int) && b < infos@.len(),
{
    let ghost views = key_views(infos@);
    if !ordered {
        let mut i: usize = 0;
        while i < infos.len()
            invariant
                i <= infos@.len(),
                views == key_views(infos@),
                holding_key_block(views, query@, strip, case_sensitive, 0) == holding_key_block(
                    views,
                    query@,
                    strip,
                    case_sensitive,
                    i as int,
                ),
            decreases infos@.len() - i,
        {
            if holds_query(infos, i, query, strip, case_sensitive) {
                return Some(i);
            }
            i = i + 1;
        }
        return None;
    }
    let mut low: usize = 0;
    let mut high: usize = infos.len();
    while low < high
        invariant
            views == key_views(infos@),
            keys_ordered(views, strip, case_sensitive),
            low <= high <= infos@.len(),
            low > 0 ==> lex_lt(last_form(views, strip, case_sensitive, low - 1), query@),
            high < infos@.len() ==> lex_le(
                query@,
                last_form(views, strip, case_sensitive, high as int),
            ),
        decreases high - low,
    {
        let mid: usize = low + (high - low) / 2;
        let last = key_form_of(infos[mid].last_key.as_str(), strip, case_sensitive);
        proof {
            lemma_lex_total(last@, query@);
        }
        match lex_order(last.as_slice(), query) {
            KeyOrder::Before => {
                low = mid + 1;
            },
            _ => {
                high = mid;
            },
        }
    }
    // No block before `low` holds the query: the last key of each comes before it.
    proof {
        assert forall|j: int| 0 <= j < low implies !#[trigger] block_holds(
            views,
            query@,
            strip,
            case_sensitive,
            j,
        ) by {
            lemma_ordered_rises(views, strip, case_sensitive, j, low - 1);
            let lj = last_form(views, strip, case_sensitive, j);
            let lp = last_form(views, strip, case_sensitive, low - 1);
            lemma_lex_total(query@, lj);
            if lex_le(query@, lj) {
                lemma_lex_le_transitive(query@, lj, lp);
                lemma_lex_total(query@, lp);
            }
        }
        lemma_skip_blocks(views, query@, strip, case_sensitive, 0, low as int);
    }
    if low < infos.len() && holds_query(infos, low, query, strip, case_sensitive) {
        return Some(low);
    }
    // No block from `low` on holds it either: the first key of each comes after it.
    proof {
        assert forall|j: int| low <= j < infos@.len() implies !#[trigger] block_holds(
            views,
            query@,
            strip,
            case_sensitive,
            j,
        ) by {
            lemma_ordered_rises(views, strip, case_sensitive, low as int, j);
            let fl = first_form(views, strip, case_sensitive, low as int);
            let fj = first_form(views, strip, case_sensitive, j);
            lemma_lex_total(fl, query@);
            if lex_le(fj, query@) {
                lemma_lex_le_transitive(fl, fj, query@);
            }
        }
        lemma_skip_blocks(views, query@, strip, case_sensitive, low as int, infos@.len() as int);
    }
    None
}

/// Every key block that decodes holds as many entries as its descriptor
/// states, and its first and last key are those of the descriptor.
pub proof fn lemma_key_block_decoded(file: Seq<u8>, info: KeyBlockView, header: HeaderView)
    requires
        key_block_decoded(file, info, header) is Ok,
    ensures
        ({
            let entries = key_block_decoded(file, info, header)->Ok_0;
            &&& entries.len() == info.num_entries
            &&& entries.len() > 0 ==> entries[0].key == info.first_key && entries.last().key
                == info.last_key
        }),
{
    let frame = span(file, info.file_offset as int, info.compressed_size as int).unwrap();
    let data = frame_decoded(frame)->Ok_0;
    lemma_entries_scan(data, info.num_entries as nat, header.version, header.encoding);
}

/// Whether the ranges of a key index lie apart: each range begins no later
/// than it ends, and ends before every later range begins.
pub open spec fn keys_apart(infos: Seq<KeyBlockView>, strip: bool, case_sensitive: bool) -> bool {
    &&& forall|i: int|
        0 <= i < infos.len() ==> lex_le(
            #[trigger] first_form(infos, strip, case_sensitive, i),
            last_form(infos, strip, case_sensitive, i),
        )
    &&& forall|i: int, j: int|
        0 <= i < j < infos.len() ==> lex_lt(
            #[trigger] last_form(infos, strip, case_sensitive, i),
            #[trigger] first_form(infos, strip, case_sensitive, j),
        )
}

/// Where the ranges of a key index lie apart, a query lies in the range of
/// one block at most.
pub proof fn lemma_one_block_holds(
    infos: Seq<KeyBlockView>,
    query: Seq<u8>,
    strip: bool,
    case_sensitive: bool,
    i: int,
    j: int,
)
    requires
        keys_apart(infos, strip, case_sensitive),
        0 <= i < infos.len(),
        0 <= j < infos.len(),
        block_holds(infos, query, strip, case_sensitive, i),
        block_holds(infos, query, strip, case_sensitive, j),
    ensures
        i == j,
{
    if i < j {
        let li = last_form(infos, strip, case_sensitive, i);
        let fj = first_form(infos, strip, case_sensitive, j);
        lemma_lex_le_transitive(fj, query, li);
        lemma_lex_total(li, fj);
    } else if j < i {
        let lj = last_form(infos, strip, case_sensitive, j);
        let fi = first_form(infos, strip, case_sensitive, i);
        lemma_lex_le_transitive(fi, query, lj);
        lemma_lex_total(lj, fi);
    }
}

/// The block that `holding_key_block` gives holds the query, and no block
/// before it does.
pub proof fn lemma_holding_key_block(
    infos: Seq<KeyBlockView>,
    query: Seq<u8>,
    strip: bool,
    case_sensitive: bool,
    from: int,
)
    requires
        0 <= from,
    ensures
        holding_key_block(infos, query, strip, case_sensitive, from) matches Some(b) ==> from <= b
            < infos.len() && block_holds(infos, query, strip, case_sensitive, b) && forall|j: int|
            from <= j < b ==> !#[trigger] block_holds(infos, query, strip, case_sensitive, j),
        holding_key_block(infos, query, strip, case_sensitive, from) is None ==> forall|j: int|
            from <= j < infos.len() ==> !#[trigger] block_holds(
                infos,
                query,
                strip,
                case_sensitive,
                j,
            ),
    decreases infos.len() - from,
{
    if from < infos.len() && !block_holds(infos, query, strip, case_sensitive, from) {
        lemma_holding_key_block(infos, query, strip, case_sensitive, from + 1);
    }
}

} // verus!
