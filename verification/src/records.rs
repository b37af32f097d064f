//! Record blocks: the block that holds a logical address, and the record
//! cut out of it.

use crate::codec::{decompress, frame_decoded};
use crate::error::MdictError;
use crate::index::{chained_at, records_chained, RecordBlockInfo};
use crate::wire::{span, take_span};
use vstd::prelude::*;
use vstd::slice::slice_subrange;

verus! {

/// Whether a record block holds the byte at a logical address.
pub open spec fn holds(block: RecordBlockInfo, address: u64) -> bool {
    block.logical_offset <= address < block.logical_offset + block.decompressed_size
}

/// The first block from `from` on that holds a logical address.
pub open spec fn holding_block(infos: Seq<RecordBlockInfo>, address: u64, from: int) -> Option<int>
    decreases infos.len() - from,
{
    if from < 0 || from >= infos.len() {
        None
    } else if holds(infos[from], address) {
        Some(from)
    } else {
        holding_block(infos, address, from + 1)
    }
}

/// Whether every block of a record index ends at or before the beginning
/// of every later block, and none ends beyond `total`.
pub open spec fn records_sorted(infos: Seq<RecordBlockInfo>, total: nat) -> bool {
    &&& forall|i: int, j: int|
        0 <= i < j < infos.len() ==> (#[trigger] infos[i]).logical_offset
            + infos[i].decompressed_size <= (#[trigger] infos[j]).logical_offset
    &&& forall|i: int|
        0 <= i < infos.len() ==> (#[trigger] infos[i]).logical_offset + infos[i].decompressed_size
            <= total
}

/// In a chained record index a later block begins at or after the end of
/// every earlier block, and no block ends beyond the total.
pub proof fn lemma_chained_monotone(infos: Seq<RecordBlockInfo>, total: nat, i: int, j: int)
    requires
        records_chained(infos, total),
        0 <= i <= j < infos.len(),
    ensures
        infos[i].logical_offset <= infos[j].logical_offset,
        i < j ==> infos[i].logical_offset + infos[i].decompressed_size <= infos[j].logical_offset,
        infos[j].logical_offset + infos[j].decompressed_size <= total,
    decreases infos.len() - i,
{
    assert(chained_at(infos, total, i));
    if i < j {
        lemma_chained_monotone(infos, total, i + 1, j);
    } else if j + 1 < infos.len() {
        lemma_chained_monotone(infos, total, j + 1, j + 1);
    }
}

/// A chained record index is sorted.
pub proof fn lemma_chained_sorted(infos: Seq<RecordBlockInfo>, total: nat)
    requires
        records_chained(infos, total),
    ensures
        records_sorted(infos, total),
{
    assert forall|i: int, j: int| 0 <= i < j < infos.len() implies (#[trigger] infos[i]).logical_offset
        + infos[i].decompressed_size <= (#[trigger] infos[j]).logical_offset by {
        lemma_chained_monotone(infos, total, i, j);
    }
    assert forall|i: int| 0 <= i < infos.len() implies (#[trigger] infos[i]).logical_offset
        + infos[i].decompressed_size <= total by {
        lemma_chained_monotone(infos, total, i, i);
    }
}

/// In a sorted record index a block that holds an address is the first
/// that does.
pub proof fn lemma_holding_block_is(
    infos: Seq<RecordBlockInfo>,
    total: nat,
    address: u64,
    r: int,
    from: int,
)
    requires
        records_sorted(infos, total),
        0 <= from <= r < infos.len(),
        holds(infos[r], address),
    ensures
        holding_block(infos, address, from) == Some(r),
    decreases r - from,
{
    if from < r {
        lemma_holding_block_is(infos, total, address, r, from + 1);
    }
}

/// No block holds an address at or beyond the total.
pub proof fn lemma_no_block_beyond(
    infos: Seq<RecordBlockInfo>,
    total: nat,
    address: u64,
    from: int,
)
    requires
        records_sorted(infos, total),
        0 <= from,
        address >= total,
    ensures
        holding_block(infos, address, from) is None,
    decreases infos.len() - from,
{
    if from < infos.len() {
        lemma_no_block_beyond(infos, total, address, from + 1);
    }
}

/// Finds the record block that holds a logical address, by halving the
/// range of blocks whose end lies beyond the address.
pub fn locate_record_block(infos: &Vec<RecordBlockInfo>, total: u64, address: u64) -> (r: Option<
    usize,
>)
    requires
        records_chained(infos@, total as nat),
    ensures
        r is Some <==> holding_block(infos@, address, 0) is Some,
        r matches Some(i) ==> holding_block(infos@, address, 0) == Some(i as int) && i
            < infos@.len() && holds(infos@[i as int], address),
{
    proof {
        lemma_chained_sorted(infos@, total as nat);
    }
    if address >= total {
        proof {
            lemma_no_block_beyond(infos@, total as nat, address, 0);
        }
        return None;
    }
    let mut low: usize = 0;
    let mut high: usize = infos.len();
    while low < high
        invariant
            records_sorted(infos@, total as nat),
            address < total,
            low <= high <= infos@.len(),
            low > 0 ==> infos@[low - 1].logical_offset + infos@[low - 1].decompressed_size
                <= address,
            high < infos@.len() ==> infos@[high as int].logical_offset
                + infos@[high as int].decompressed_size > address,
        decreases high - low,
    {
        let mid: usize = low + (high - low) / 2;
        let block = infos[mid];
        if block.logical_offset + block.decompressed_size <= address {
            low = mid + 1;
        } else {
            high = mid;
        }
    }
    if low < infos.len() {
        proof {
            assert(chained_at(infos@, total as nat, low - 1) || low == 0);
            lemma_holding_block_is(infos@, total as nat, address, low as int, 0);
        }
        Some(low)
    } else {
        proof {
            if infos@.len() > 0 {
                assert(chained_at(infos@, total as nat, infos@.len() - 1));
            }
        }
        None
    }
}

/// The part of a decoded block that begins at `start` and holds `len`
/// bytes, or as many as the block has left.
pub open spec fn record_slice(block: Seq<u8>, start: int, len: int) -> Seq<u8> {
    if start + len <= block.len() {
        block.subrange(start, start + len)
    } else {
        block.subrange(start, block.len() as int)
    }
}

/// The record at a logical address, cut out of the frame of the block
/// that holds the address, no further than the block's end. A block that
/// does not hold the address, and one that decodes to another length than
/// its descriptor states, make the file corrupt.
pub open spec fn frame_record(frame: Seq<u8>, block: RecordBlockInfo, address: u64, len: u64)
    -> Result<Seq<u8>, MdictError> {
    if !holds(block, address) {
        Err(MdictError::CorruptBlock)
    } else {
        match frame_decoded(frame) {
            Err(e) => Err(e),
            Ok(data) => if data.len() != block.decompressed_size {
                Err(MdictError::CorruptBlock)
            } else {
                Ok(record_slice(data, address - block.logical_offset, len as int))
            },
        }
    }
}

/// The bytes of the record at a logical address: the frame of the block
/// that holds the address is read, and the record is cut out of it. An
/// address that no block holds makes the file corrupt.
pub open spec fn record_read(file: Seq<u8>, infos: Seq<RecordBlockInfo>, address: u64, len: u64)
    -> Result<Seq<u8>, MdictError> {
    match holding_block(infos, address, 0) {
        None => Err(MdictError::CorruptBlock),
        Some(r) => match span(
            file,
            infos[r].file_offset as int,
            infos[r].compressed_size as int,
        ) {
            None => Err(MdictError::Io),
            Some(frame) => frame_record(frame, infos[r], address, len),
        },
    }
}

/// Decodes the frame of a record block and cuts the record of `len` bytes
/// at a logical address out of it.
pub fn cut_record(frame: &[u8], block: &RecordBlockInfo, address: u64, len: u64) -> (r: Result<
    Vec<u8>,
    MdictError,
>)
    ensures
        r matches Ok(v) ==> frame_record(frame@, *block, address, len) == Ok::<
            Seq<u8>,
            MdictError,
        >(v@),
        r matches Err(e) ==> frame_record(frame@, *block, address, len) == Err::<
            Seq<u8>,
            MdictError,
        >(e),
{
    if address < block.logical_offset || address - block.logical_offset
        >= block.decompressed_size {
        return Err(MdictError::CorruptBlock);
    }
    let data = decompress(frame)?;
    if data.len() as u64 != block.decompressed_size {
        return Err(MdictError::CorruptBlock);
    }
    let start: usize = (address - block.logical_offset) as usize;
    let left: usize = data.len() - start;
    let end: usize = if len > left as u64 {
        data.len()
    } else {
        start + len as usize
    };
    Ok(vstd::slice::slice_to_vec(slice_subrange(data.as_slice(), start, end)))
}

/// Reads the record of `len` bytes at a logical address: finds the block
/// that holds the address, reads its frame, and cuts the record out of it.
pub fn read_record(
    file: &[u8],
    infos: &Vec<RecordBlockInfo>,
    total: u64,
    address: u64,
    len: u64,
) -> (r: Result<Vec<u8>, MdictError>)
    requires
        records_chained(infos@, total as nat),
    ensures
        r matches Ok(v) ==> record_read(file@, infos@, address, len) == Ok::<Seq<u8>, MdictError>(
            v@,
        ),
        r matches Err(e) ==> record_read(file@, infos@, address, len) == Err::<
            Seq<u8>,
            MdictError,
        >(e),
{
    let block = match locate_record_block(infos, total, address) {
        None => {
            return Err(MdictError::CorruptBlock);
        },
        Some(i) => infos[i],
    };
    match take_span(file, block.file_offset, block.compressed_size) {
        None => Err(MdictError::Io),
        Some(frame) => cut_record(frame, &block, address, len),
    }
}

/// The record blocks partition the addresses below the total: every such
/// address lies in one block, and in no other.
pub proof fn lemma_address_partition(infos: Seq<RecordBlockInfo>, total: nat, address: u64)
    requires
        records_chained(infos, total),
        address < total,
    ensures
        holding_block(infos, address, 0) matches Some(r) && 0 <= r < infos.len() && holds(
            infos[r],
            address,
        ) && forall|j: int| 0 <= j < infos.len() && j != r ==> !holds(#[trigger] infos[j], address),
{
    lemma_chained_sorted(infos, total);
    lemma_some_block_holds(infos, total, address, 0);
    let r = holding_block(infos, address, 0).unwrap();
    lemma_holding_block(infos, address, 0);
}

/// What `holding_block` gives is a block that holds the address.
pub proof fn lemma_holding_block(infos: Seq<RecordBlockInfo>, address: u64, from: int)
    requires
        0 <= from,
    ensures
        holding_block(infos, address, from) matches Some(r) ==> from <= r < infos.len() && holds(
            infos[r],
            address,
        ),
    decreases infos.len() - from,
{
    if from < infos.len() && !holds(infos[from], address) {
        lemma_holding_block(infos, address, from + 1);
    }
}

/// In a chained record index some block from `from` on holds an address
/// that lies below the total and at or beyond the beginning of block `from`.
pub proof fn lemma_some_block_holds(
    infos: Seq<RecordBlockInfo>,
    total: nat,
    address: u64,
    from: int,
)
    requires
        records_chained(infos, total),
        address < total,
        0 <= from < infos.len(),
        infos[from].logical_offset <= address,
    ensures
        holding_block(infos, address, from) is Some,
    decreases infos.len() - from,
{
    assert(chained_at(infos, total, from));
    if !holds(infos[from], address) {
        lemma_some_block_holds(infos, total, address, from + 1);
    }
}

} // verus!
