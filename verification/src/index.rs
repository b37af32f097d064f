//! The key index and the record index: the sections that introduce them,
//! and the descriptors of the blocks.

use crate::codec::{decompress, decompress_raw, frame_decoded, raw_decoded, TAG_STORED};
use crate::error::MdictError;
use crate::header::{DictionaryHeader, FormatVersion, HeaderView};
use crate::text::{decode_text, text_of, Encoding};
use crate::wire::{be_field, be_value, read_be, span, take_span};
use vstd::prelude::*;
use vstd::slice::slice_subrange;

verus! {

/// The descriptor of one key block.
#[derive(Debug, Clone)]
pub struct KeyBlockInfo {
    pub compressed_size: u64,
    pub decompressed_size: u64,
    pub num_entries: u64,
    pub first_key: String,
    pub last_key: String,
    /// The position in the file at which the block's frame begins.
    pub file_offset: u64,
}

/// The descriptor of a key block as a mathematical value.
pub struct KeyBlockView {
    pub compressed_size: u64,
    pub decompressed_size: u64,
    pub num_entries: u64,
    pub first_key: Seq<char>,
    pub last_key: Seq<char>,
    pub file_offset: u64,
}

impl View for KeyBlockInfo {
    type V = KeyBlockView;

    open spec fn view(&self) -> KeyBlockView {
        KeyBlockView {
            compressed_size: self.compressed_size,
            decompressed_size: self.decompressed_size,
            num_entries: self.num_entries,
            first_key: self.first_key@,
            last_key: self.last_key@,
            file_offset: self.file_offset,
        }
    }
}

/// The descriptor of one record block.
#[derive(Debug, Clone, Copy, PartialEq, Eq, Structural)]
pub struct RecordBlockInfo {
    pub compressed_size: u64,
    pub decompressed_size: u64,
    /// The position in the file at which the block's frame begins.
    pub file_offset: u64,
    /// The address of the block's first decoded byte among the decoded bytes
    /// of all record blocks.
    pub logical_offset: u64,
}

/// The descriptors that a vector of key block descriptors holds.
pub open spec fn key_views(v: Seq<KeyBlockInfo>) -> Seq<KeyBlockView> {
    Seq::new(v.len(), |i: int| v[i]@)
}

/// The key that the key index holds at `pos`, and the position after it: a
/// length, that many bytes of text, and the codec's terminator.
pub open spec fn key_at(data: Seq<u8>, pos: int, version: FormatVersion, encoding: Encoding)
    -> Option<(Seq<char>, int)> {
    match be_field(data, pos, version.key_length_width()) {
        None => None,
        Some(len) => {
            let start = pos + version.key_length_width();
            let end = start + len + encoding.terminator_width();
            if end <= data.len() {
                Some((text_of(data.subrange(start, start + len), encoding), end))
            } else {
                None
            }
        },
    }
}

/// The descriptor that the key index holds at `pos`, with its file offset
/// left at zero, and the position after it.
pub open spec fn key_info_at(data: Seq<u8>, pos: int, version: FormatVersion, encoding: Encoding)
    -> Option<(KeyBlockView, int)> {
    match (be_field(data, pos, 8), be_field(data, pos + 8, 8), be_field(data, pos + 16, 8)) {
        (Some(compressed), Some(decompressed), Some(entries)) => match key_at(
            data,
            pos + 24,
            version,
            encoding,
        ) {
            None => None,
            Some((first, after_first)) => match key_at(data, after_first, version, encoding) {
                None => None,
                Some((last, after_last)) => Some(
                    (
                        KeyBlockView {
                            compressed_size: compressed as u64,
                            decompressed_size: decompressed as u64,
                            num_entries: entries as u64,
                            first_key: first,
                            last_key: last,
                            file_offset: 0,
                        },
                        after_last,
                    ),
                ),
            },
        },
        _ => None,
    }
}

/// Where the reading of a key index stands: the descriptors read so far, the
/// position in the index, and the file offset of the next block.
pub struct KeyScan {
    pub infos: Seq<KeyBlockView>,
    pub pos: int,
    pub offset: nat,
}

/// The first `count` descriptors of a key index, each with the file offset
/// that the sizes of the blocks before it give, the first block standing at
/// `base`. An index that ends too early is corrupt; offsets beyond 64 bits
/// make a bad header.
pub open spec fn key_infos_scan(
    data: Seq<u8>,
    count: nat,
    base: nat,
    version: FormatVersion,
    encoding: Encoding,
) -> Result<KeyScan, MdictError>
    decreases count,
{
    if count == 0 {
        Ok(KeyScan { infos: Seq::empty(), pos: 0, offset: base })
    } else {
        match key_infos_scan(data, (count - 1) as nat, base, version, encoding) {
            Err(e) => Err(e),
            Ok(scan) => match key_info_at(data, scan.pos, version, encoding) {
                None => Err(MdictError::CorruptBlock),
                Some((info, next)) => if scan.offset + info.compressed_size > u64::MAX {
                    Err(MdictError::BadHeader)
                } else {
                    Ok(
                        KeyScan {
                            infos: scan.infos.push(
                                KeyBlockView { file_offset: scan.offset as u64, ..info },
                            ),
                            pos: next,
                            offset: scan.offset + info.compressed_size as nat,
                        },
                    )
                },
            },
        }
    }
}

/// The descriptors of the `count` key blocks that a key index describes.
pub open spec fn key_index_parsed(
    data: Seq<u8>,
    count: nat,
    base: nat,
    version: FormatVersion,
    encoding: Encoding,
) -> Result<Seq<KeyBlockView>, MdictError> {
    match key_infos_scan(data, count, base, version, encoding) {
        Err(e) => Err(e),
        Ok(scan) => Ok(scan.infos),
    }
}

/// Reads one key of the key index at `pos`: its length, its text and the
/// terminator after it. Gives the key and the position after it.
pub fn read_key(data: &[u8], pos: usize, version: FormatVersion, encoding: Encoding) -> (r: Option<
    (String, usize),
>)
    ensures
        r is Some <==> key_at(data@, pos as int, version, encoding) is Some,
        r matches Some((key, next)) ==> key_at(data@, pos as int, version, encoding) == Some(
            (key@, next as int),
        ),
{
    let size: usize = data.len();
    let width: usize = version.key_length_len();
    let len: u64 = match read_be(data, pos, width) {
        None => {
            return None;
        },
        Some(l) => l,
    };
    let start: usize = pos + width;
    let tail: usize = encoding.terminator_len();
    let room: u64 = (size - start) as u64;
    if room < tail as u64 || len > room - tail as u64 {
        return None;
    }
    let end: usize = start + len as usize;
    let key = decode_text(slice_subrange(data, start, end), encoding);
    Some((key, end + tail))
}

/// Reads one descriptor of the key index at `pos`, with its file offset
/// left at zero. Gives the descriptor and the position after it.
pub fn read_key_info(data: &[u8], pos: usize, version: FormatVersion, encoding: Encoding) -> (r:
    Option<(KeyBlockInfo, usize)>)
    ensures
        r is Some <==> key_info_at(data@, pos as int, version, encoding) is Some,
        r matches Some((info, next)) ==> key_info_at(data@, pos as int, version, encoding) == Some(
            (info@, next as int),
        ),
{
    if data.len() < 24 || pos > data.len() - 24 {
        return None;
    }
    let compressed_size: u64 = match read_be(data, pos, 8) {
        None => {
            return None;
        },
        Some(v) => v,
    };
    let decompressed_size: u64 = match read_be(data, pos + 8, 8) {
        None => {
            return None;
        },
        Some(v) => v,
    };
    let num_entries: u64 = match read_be(data, pos + 16, 8) {
        None => {
            return None;
        },
        Some(v) => v,
    };
    let (first_key, after_first) = match read_key(data, pos + 24, version, encoding) {
        None => {
            return None;
        },
        Some(found) => found,
    };
    let (last_key, after_last) = match read_key(data, after_first, version, encoding) {
        None => {
            return None;
        },
        Some(found) => found,
    };
    Some(
        (
            KeyBlockInfo {
                compressed_size,
                decompressed_size,
                num_entries,
                first_key,
                last_key,
                file_offset: 0,
            },
            after_last,
        ),
    )
}

/// Reads the descriptors of `num_blocks` key blocks from a decoded key
/// index, and gives each the file offset that follows from `base`, the
/// position of the first block, and the sizes of the blocks before it.
pub fn parse_key_block_info(
    data: &[u8],
    num_blocks: u64,
    base: u64,
    version: FormatVersion,
    encoding: Encoding,
) -> (r: Result<Vec<KeyBlockInfo>, MdictError>)
    ensures
        r matches Ok(infos) ==> key_index_parsed(
            data@,
            num_blocks as nat,
            base as nat,
            version,
            encoding,
        ) == Ok::<Seq<KeyBlockView>, MdictError>(key_views(infos@)),
        r matches Err(e) ==> key_index_parsed(
            data@,
            num_blocks as nat,
            base as nat,
            version,
            encoding,
        ) == Err::<Seq<KeyBlockView>, MdictError>(e),
{
    let mut infos: Vec<KeyBlockInfo> = Vec::new();
    let mut pos: usize = 0;
    let mut offset: u64 = base;
    let mut i: u64 = 0;
    assert(key_views(infos@) =~= Seq::<KeyBlockView>::empty());
    while i < num_blocks
        invariant
            i <= num_blocks,
            key_infos_scan(data@, i as nat, base as nat, version, encoding) == Ok::<
                KeyScan,
                MdictError,
            >(KeyScan { infos: key_views(infos@), pos: pos as int, offset: offset as nat }),
        decreases num_blocks - i,
    {
        let ghost before = key_views(infos@);
        proof {
            lemma_scan_fails_on(data@, (i + 1) as nat, num_blocks as nat, base as nat, version,
                encoding);
        }
        match read_key_info(data, pos, version, encoding) {
            None => {
                return Err(MdictError::CorruptBlock);
            },
            Some((info, next)) => {
                if info.compressed_size > u64::MAX - offset {
                    return Err(MdictError::BadHeader);
                }
                let placed = KeyBlockInfo { file_offset: offset, ..info };
                offset = offset + placed.compressed_size;
                infos.push(placed);
                pos = next;
                assert(key_views(infos@) =~= before.push(placed@));
            },
        }
        i = i + 1;
    }
    Ok(infos)
}

/// A scan that fails after `reached` descriptors fails for every larger count.
pub proof fn lemma_scan_fails_on(
    data: Seq<u8>,
    reached: nat,
    count: nat,
    base: nat,
    version: FormatVersion,
    encoding: Encoding,
)
    requires
        reached <= count,
    ensures
        key_infos_scan(data, reached, base, version, encoding) matches Err(e) ==> key_infos_scan(
            data,
            count,
            base,
            version,
            encoding,
        ) == Err::<KeyScan, MdictError>(e),
    decreases count - reached,
{
    if reached < count {
        lemma_scan_fails_on(data, reached, (count - 1) as nat, base, version, encoding);
    }
}

/// Where the reading of a record index stands: the descriptors read so far,
/// and the file offset and the logical offset of the next block.
pub struct RecordScan {
    pub infos: Seq<RecordBlockInfo>,
    pub file_offset: nat,
    pub logical_offset: nat,
}

/// The first `count` descriptors of a record index: pairs of a compressed
/// and a decompressed size, eight bytes each. The first block stands at
/// `base` in the file and at zero among the decoded bytes; each further one
/// stands where the sizes of the blocks before it put it.
pub open spec fn record_infos_scan(data: Seq<u8>, count: nat, base: nat) -> Result<
    RecordScan,
    MdictError,
>
    decreases count,
{
    if count == 0 {
        Ok(RecordScan { infos: Seq::empty(), file_offset: base, logical_offset: 0 })
    } else {
        match record_infos_scan(data, (count - 1) as nat, base) {
            Err(e) => Err(e),
            Ok(scan) => match (
                be_field(data, 16 * (count - 1), 8),
                be_field(data, 16 * (count - 1) + 8, 8),
            ) {
                (Some(compressed), Some(decompressed)) => if scan.file_offset + compressed
                    > u64::MAX || scan.logical_offset + decompressed > u64::MAX {
                    Err(MdictError::BadHeader)
                } else {
                    Ok(
                        RecordScan {
                            infos: scan.infos.push(
                                RecordBlockInfo {
                                    compressed_size: compressed as u64,
                                    decompressed_size: decompressed as u64,
                                    file_offset: scan.file_offset as u64,
                                    logical_offset: scan.logical_offset as u64,
                                },
                            ),
                            file_offset: scan.file_offset + compressed,
                            logical_offset: scan.logical_offset + decompressed,
                        },
                    )
                },
                _ => Err(MdictError::CorruptBlock),
            },
        }
    }
}

/// Whether block `i` of a record index ends where the next block begins,
/// or at `total` where it is the last.
pub open spec fn chained_at(infos: Seq<RecordBlockInfo>, total: nat, i: int) -> bool {
    infos[i].logical_offset + infos[i].decompressed_size == if i + 1 < infos.len() {
        infos[i + 1].logical_offset as int
    } else {
        total as int
    }
}

/// Whether the blocks of a record index lie one after another among the
/// decoded bytes, from zero up to `total`.
pub open spec fn records_chained(infos: Seq<RecordBlockInfo>, total: nat) -> bool {
    &&& forall|i: int| 0 <= i < infos.len() ==> #[trigger] chained_at(infos, total, i)
    &&& infos.len() > 0 ==> infos[0].logical_offset == 0
    &&& infos.len() == 0 ==> total == 0
}

/// The decoded sizes of a record index that was read partition the
/// addresses from zero up to the sum of those sizes: each block begins
/// where the one before it ends.
pub proof fn lemma_record_scan(data: Seq<u8>, count: nat, base: nat)
    requires
        record_infos_scan(data, count, base) is Ok,
    ensures
        ({
            let scan = record_infos_scan(data, count, base)->Ok_0;
            &&& scan.infos.len() == count
            &&& scan.logical_offset <= u64::MAX
            &&& records_chained(scan.infos, scan.logical_offset)
        }),
    decreases count,
{
    if count > 0 {
        lemma_record_scan(data, (count - 1) as nat, base);
        let before = record_infos_scan(data, (count - 1) as nat, base)->Ok_0;
        let scan = record_infos_scan(data, count, base)->Ok_0;
        assert forall|i: int| 0 <= i < scan.infos.len() implies #[trigger] chained_at(
            scan.infos,
            scan.logical_offset,
            i,
        ) by {
            if i + 1 < scan.infos.len() {
                assert(chained_at(before.infos, before.logical_offset, i));
                assert(scan.infos[i] == before.infos[i]);
            }
        }
    }
}

/// A record scan that fails after `reached` descriptors fails for every larger count.
pub proof fn lemma_record_scan_fails_on(data: Seq<u8>, reached: nat, count: nat, base: nat)
    requires
        reached <= count,
    ensures
        record_infos_scan(data, reached, base) matches Err(e) ==> record_infos_scan(
            data,
            count,
            base,
        ) == Err::<RecordScan, MdictError>(e),
    decreases count - reached,
{
    if reached < count {
        lemma_record_scan_fails_on(data, reached, (count - 1) as nat, base);
    }
}

/// Reads the descriptors of `num_blocks` record blocks from a record index.
/// Gives the descriptors and the sum of their decoded sizes.
pub fn parse_record_block_info(data: &[u8], num_blocks: u64, base: u64) -> (r: Result<
    (Vec<RecordBlockInfo>, u64),
    MdictError,
>)
    ensures
        r matches Ok((infos, total)) ==> {
            &&& record_infos_scan(data@, num_blocks as nat, base as nat) is Ok
            &&& record_infos_scan(data@, num_blocks as nat, base as nat)->Ok_0.infos == infos@
            &&& record_infos_scan(data@, num_blocks as nat, base as nat)->Ok_0.logical_offset
                == total
        },
        r matches Err(e) ==> record_infos_scan(data@, num_blocks as nat, base as nat) == Err::<
            RecordScan,
            MdictError,
        >(e),
{
    let mut infos: Vec<RecordBlockInfo> = Vec::new();
    let mut pos: usize = 0;
    let mut file_offset: u64 = base;
    let mut logical_offset: u64 = 0;
    let mut i: u64 = 0;
    let size: usize = data.len();
    while i < num_blocks
        invariant
            i <= num_blocks,
            size == data@.len(),
            pos == 16 * i,
            pos <= size,
            record_infos_scan(data@, i as nat, base as nat) == Ok::<RecordScan, MdictError>(
                RecordScan {
                    infos: infos@,
                    file_offset: file_offset as nat,
                    logical_offset: logical_offset as nat,
                },
            ),
        decreases num_blocks - i,
    {
        proof {
            lemma_record_scan_fails_on(data@, (i + 1) as nat, num_blocks as nat, base as nat);
        }
        if size - pos < 16 {
            return Err(MdictError::CorruptBlock);
        }
        let compressed_size: u64 = match read_be(data, pos, 8) {
            None => {
                return Err(MdictError::CorruptBlock);
            },
            Some(v) => v,
        };
        let decompressed_size: u64 = match read_be(data, pos + 8, 8) {
            None => {
                return Err(MdictError::CorruptBlock);
            },
            Some(v) => v,
        };
        if compressed_size > u64::MAX - file_offset || decompressed_size > u64::MAX
            - logical_offset {
            return Err(MdictError::BadHeader);
        }
        infos.push(
            RecordBlockInfo { compressed_size, decompressed_size, file_offset, logical_offset },
        );
        file_offset = file_offset + compressed_size;
        logical_offset = logical_offset + decompressed_size;
        pos = pos + 16;
        i = i + 1;
    }
    Ok((infos, logical_offset))
}

/// The numbers that introduce the key section.
pub struct KeySection {
    pub num_blocks: nat,
    pub num_entries: nat,
    /// The length that the key index decodes to. Only the second generation states it.
    pub info_decoded_size: nat,
    pub info_size: nat,
    pub blocks_size: nat,
    /// The position in the file at which the key index begins.
    pub info_start: nat,
}

/// The numbers that introduce the record section.
pub struct RecordSection {
    pub num_blocks: nat,
    pub num_entries: nat,
    pub info_size: nat,
    pub blocks_size: nat,
    /// The position in the file at which the record index begins.
    pub info_start: nat,
}

/// The length in bytes of the numbers that introduce the key section: four
/// numbers in the first generation; in the second, three numbers, four
/// bytes of padding, and two numbers.
pub open spec fn key_section_len(version: FormatVersion) -> int {
    if version == FormatVersion::V1 {
        16
    } else {
        44
    }
}

/// The numbers that introduce the key section at `start`.
pub open spec fn key_section(file: Seq<u8>, start: nat, version: FormatVersion) -> Option<
    KeySection,
> {
    match span(file, start as int, key_section_len(version)) {
        None => None,
        Some(s) => if version == FormatVersion::V1 {
            Some(
                KeySection {
                    num_blocks: be_value(s.subrange(0, 4)),
                    num_entries: be_value(s.subrange(4, 8)),
                    info_decoded_size: 0,
                    info_size: be_value(s.subrange(8, 12)),
                    blocks_size: be_value(s.subrange(12, 16)),
                    info_start: start + 16,
                },
            )
        } else {
            Some(
                KeySection {
                    num_blocks: be_value(s.subrange(0, 8)),
                    num_entries: be_value(s.subrange(8, 16)),
                    info_decoded_size: be_value(s.subrange(16, 24)),
                    info_size: be_value(s.subrange(28, 36)),
                    blocks_size: be_value(s.subrange(36, 44)),
                    info_start: start + 44,
                },
            )
        },
    }
}

/// The numbers that introduce the record section at `start`: four numbers
/// of the generation's width.
pub open spec fn record_section(file: Seq<u8>, start: nat, version: FormatVersion) -> Option<
    RecordSection,
> {
    let w = version.number_width();
    match span(file, start as int, 4 * w) {
        None => None,
        Some(s) => Some(
            RecordSection {
                num_blocks: be_value(s.subrange(0, w)),
                num_entries: be_value(s.subrange(w, 2 * w)),
                info_size: be_value(s.subrange(2 * w, 3 * w)),
                blocks_size: be_value(s.subrange(3 * w, 4 * w)),
                info_start: (start + 4 * w) as nat,
            },
        ),
    }
}

/// The decoded bytes of the key index. The second generation stores it as
/// a framed block and states the decoded length; the first stores it as it is.
pub open spec fn key_info_data(file: Seq<u8>, section: KeySection, version: FormatVersion)
    -> Result<Seq<u8>, MdictError> {
    match span(file, section.info_start as int, section.info_size as int) {
        None => Err(MdictError::Io),
        Some(bytes) => if version == FormatVersion::V1 {
            raw_decoded(TAG_STORED, bytes)
        } else {
            match frame_decoded(bytes) {
                Err(e) => Err(e),
                Ok(out) => if out.len() == section.info_decoded_size {
                    Ok(out)
                } else {
                    Err(MdictError::CorruptBlock)
                },
            }
        },
    }
}

/// The two indexes of a file.
#[derive(Debug, Clone)]
pub struct BlockIndex {
    /// The number of entries that the key section states for the whole file.
    pub num_entries: u64,
    pub key_blocks: Vec<KeyBlockInfo>,
    pub record_blocks: Vec<RecordBlockInfo>,
    /// The sum of the decoded sizes of all record blocks.
    pub total_size: u64,
}

/// The two indexes of a file as a mathematical value.
pub struct IndexView {
    pub num_entries: u64,
    pub key_blocks: Seq<KeyBlockView>,
    pub record_blocks: Seq<RecordBlockInfo>,
    pub total_size: u64,
}

impl View for BlockIndex {
    type V = IndexView;

    open spec fn view(&self) -> IndexView {
        IndexView {
            num_entries: self.num_entries,
            key_blocks: key_views(self.key_blocks@),
            record_blocks: self.record_blocks@,
            total_size: self.total_size,
        }
    }
}

/// The record index of a file whose record section begins at `start`.
pub open spec fn record_index_parsed(file: Seq<u8>, start: nat, version: FormatVersion) -> Result<
    RecordScan,
    MdictError,
> {
    match record_section(file, start, version) {
        None => Err(MdictError::Io),
        Some(section) => match span(file, section.info_start as int, section.info_size as int) {
            None => Err(MdictError::Io),
            Some(data) => record_infos_scan(
                data,
                section.num_blocks,
                section.info_start + section.info_size,
            ),
        },
    }
}

/// The two indexes that a file holds behind its header: the key section at
/// the header's data offset, the key blocks after the key index, and the
/// record section after the key blocks.
pub open spec fn index_parsed(file: Seq<u8>, header: HeaderView) -> Result<IndexView, MdictError> {
    match key_section(file, header.data_offset as nat, header.version) {
        None => Err(MdictError::Io),
        Some(section) => match key_info_data(file, section, header.version) {
            Err(e) => Err(e),
            Ok(data) => {
                let blocks_start = section.info_start + section.info_size;
                if blocks_start + section.blocks_size > u64::MAX {
                    Err(MdictError::BadHeader)
                } else {
                    match key_index_parsed(
                        data,
                        section.num_blocks,
                        blocks_start,
                        header.version,
                        header.encoding,
                    ) {
                        Err(e) => Err(e),
                        Ok(keys) => match record_index_parsed(
                            file,
                            blocks_start + section.blocks_size,
                            header.version,
                        ) {
                            Err(e) => Err(e),
                            Ok(records) => Ok(
                                IndexView {
                                    num_entries: section.num_entries as u64,
                                    key_blocks: keys,
                                    record_blocks: records.infos,
                                    total_size: records.logical_offset as u64,
                                },
                            ),
                        },
                    }
                }
            },
        },
    }
}

/// The numbers of a section, as read from the file.
struct SectionNumbers {
    num_blocks: u64,
    num_entries: u64,
    info_decoded_size: u64,
    info_size: u64,
    blocks_size: u64,
    info_start: u64,
}

/// Reads the number of `width` bytes at `pos` in a section's introduction.
fn number_in(section: &[u8], pos: usize, width: usize) -> (v: u64)
    requires
        width == 4 || width == 8,
        pos + width <= section@.len(),
    ensures
        v as nat == be_value(section@.subrange(pos as int, pos + width)),
{
    match read_be(section, pos, width) {
        Some(v) => v,
        None => 0,
    }
}

/// Reads the numbers that introduce the key section at `start`.
fn read_key_section(file: &[u8], start: u64, version: FormatVersion) -> (r: Option<SectionNumbers>)
    ensures
        r is Some <==> key_section(file@, start as nat, version) is Some,
        r matches Some(n) ==> {
            let section = key_section(file@, start as nat, version).unwrap();
            &&& n.num_blocks == section.num_blocks
            &&& n.num_entries == section.num_entries
            &&& n.info_decoded_size == section.info_decoded_size
            &&& n.info_size == section.info_size
            &&& n.blocks_size == section.blocks_size
            &&& n.info_start == section.info_start
        },
{
    match version {
        FormatVersion::V1 => {
            let s = match take_span(file, start, 16) {
                None => {
                    return None;
                },
                Some(s) => s,
            };
            Some(
                SectionNumbers {
                    num_blocks: number_in(s, 0, 4),
                    num_entries: number_in(s, 4, 4),
                    info_decoded_size: 0,
                    info_size: number_in(s, 8, 4),
                    blocks_size: number_in(s, 12, 4),
                    info_start: start + 16,
                },
            )
        },
        FormatVersion::V2 => {
            let s = match take_span(file, start, 44) {
                None => {
                    return None;
                },
                Some(s) => s,
            };
            Some(
                SectionNumbers {
                    num_blocks: number_in(s, 0, 8),
                    num_entries: number_in(s, 8, 8),
                    info_decoded_size: number_in(s, 16, 8),
                    info_size: number_in(s, 28, 8),
                    blocks_size: number_in(s, 36, 8),
                    info_start: start + 44,
                },
            )
        },
    }
}

/// Reads the numbers that introduce the record section at `start`.
fn read_record_section(file: &[u8], start: u64, version: FormatVersion) -> (r: Option<
    SectionNumbers,
>)
    ensures
        r is Some <==> record_section(file@, start as nat, version) is Some,
        r matches Some(n) ==> {
            let section = record_section(file@, start as nat, version).unwrap();
            &&& n.num_blocks == section.num_blocks
            &&& n.num_entries == section.num_entries
            &&& n.info_size == section.info_size
            &&& n.blocks_size == section.blocks_size
            &&& n.info_start == section.info_start
        },
{
    let w: usize = version.number_len();
    let s = match take_span(file, start, 4 * w as u64) {
        None => {
            return None;
        },
        Some(s) => s,
    };
    Some(
        SectionNumbers {
            num_blocks: number_in(s, 0, w),
            num_entries: number_in(s, w, w),
            info_decoded_size: 0,
            info_size: number_in(s, 2 * w, w),
            blocks_size: number_in(s, 3 * w, w),
            info_start: start + 4 * w as u64,
        },
    )
}

/// Reads and decodes the key index that the numbers of a key section point at.
fn read_key_info_data(file: &[u8], numbers: &SectionNumbers, version: FormatVersion) -> (r: Result<
    Vec<u8>,
    MdictError,
>)
    ensures
        ({
            let section = KeySection {
                num_blocks: numbers.num_blocks as nat,
                num_entries: numbers.num_entries as nat,
                info_decoded_size: numbers.info_decoded_size as nat,
                info_size: numbers.info_size as nat,
                blocks_size: numbers.blocks_size as nat,
                info_start: numbers.info_start as nat,
            };
            &&& r matches Ok(v) ==> key_info_data(file@, section, version) == Ok::<
                Seq<u8>,
                MdictError,
            >(v@)
            &&& r matches Err(e) ==> key_info_data(file@, section, version) == Err::<
                Seq<u8>,
                MdictError,
            >(e)
        }),
        r is Ok ==> numbers.info_start + numbers.info_size <= usize::MAX,
{
    let bytes = match take_span(file, numbers.info_start, numbers.info_size) {
        None => {
            return Err(MdictError::Io);
        },
        Some(b) => b,
    };
    match version {
        FormatVersion::V1 => decompress_raw(TAG_STORED, bytes),
        FormatVersion::V2 => match decompress(bytes) {
            Err(e) => Err(e),
            Ok(out) => {
                if out.len() as u64 == numbers.info_decoded_size {
                    Ok(out)
                } else {
                    Err(MdictError::CorruptBlock)
                }
            },
        },
    }
}

/// Reads the key index and the record index of a file whose header is known.
pub fn read_block_infos(file: &[u8], header: &DictionaryHeader) -> (r: Result<
    BlockIndex,
    MdictError,
>)
    ensures
        r matches Ok(index) ==> index_parsed(file@, header@) == Ok::<IndexView, MdictError>(index@)
            && records_chained(index.record_blocks@, index.total_size as nat),
        r matches Err(e) ==> index_parsed(file@, header@) == Err::<IndexView, MdictError>(e),
{
    proof {
        if index_parsed(file@, header@) is Ok {
            lemma_index_chained(file@, header@);
        }
    }
    let version = header.version;
    let keys = match read_key_section(file, header.data_offset, version) {
        None => {
            return Err(MdictError::Io);
        },
        Some(n) => n,
    };
    let ghost section = key_section(file@, header.data_offset as nat, version).unwrap();
    let key_info = read_key_info_data(file, &keys, version)?;
    let blocks_start: u64 = keys.info_start + keys.info_size;
    if keys.blocks_size > u64::MAX - blocks_start {
        return Err(MdictError::BadHeader);
    }
    let key_blocks = parse_key_block_info(
        key_info.as_slice(),
        keys.num_blocks,
        blocks_start,
        version,
        header.encoding,
    )?;
    let records = match read_record_section(file, blocks_start + keys.blocks_size, version) {
        None => {
            return Err(MdictError::Io);
        },
        Some(n) => n,
    };
    let record_info = match take_span(file, records.info_start, records.info_size) {
        None => {
            return Err(MdictError::Io);
        },
        Some(b) => b,
    };
    let (record_blocks, total_size) = parse_record_block_info(
        record_info,
        records.num_blocks,
        records.info_start + records.info_size,
    )?;
    Ok(BlockIndex { num_entries: keys.num_entries, key_blocks, record_blocks, total_size })
}

/// The record blocks of an index that was read lie one after another among
/// the decoded bytes: the sums of their decoded sizes partition the
/// addresses from zero up to the total.
pub proof fn lemma_index_chained(file: Seq<u8>, header: HeaderView)
    requires
        index_parsed(file, header) is Ok,
    ensures
        records_chained(
            index_parsed(file, header)->Ok_0.record_blocks,
            index_parsed(file, header)->Ok_0.total_size as nat,
        ),
{
    let section = key_section(file, header.data_offset as nat, header.version).unwrap();
    let blocks_start = section.info_start + section.info_size;
    let start = (blocks_start + section.blocks_size) as nat;
    let records = record_section(file, start, header.version).unwrap();
    let data = span(file, records.info_start as int, records.info_size as int).unwrap();
    lemma_record_scan(data, records.num_blocks, records.info_start + records.info_size);
}

} // verus!
