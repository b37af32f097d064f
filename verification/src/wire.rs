//! Big-endian numbers and spans of bytes, as the sections of a file hold them.

use byteorder::{BigEndian, ByteOrder};
use vstd::prelude::*;
use vstd::slice::slice_subrange;

verus! {

/// The number that a sequence of bytes stands for when read most significant byte first.
pub open spec fn be_value(s: Seq<u8>) -> nat
    decreases s.len(),
{
    if s.len() == 0 {
        0
    } else {
        be_value(s.drop_last()) * 256 + s.last() as nat
    }
}

/// The big-endian number of `width` bytes at `pos`, where the data holds that many bytes.
pub open spec fn be_field(data: Seq<u8>, pos: int, width: int) -> Option<nat> {
    if 0 <= pos && 0 <= width && pos + width <= data.len() {
        Some(be_value(data.subrange(pos, pos + width)))
    } else {
        None
    }
}

/// Calls `byteorder::BigEndian::read_u16`, which reads the first two bytes of
/// the buffer as a big-endian number and panics on a shorter buffer.
#[verifier::external_body]
fn be_u16(buf: &[u8]) -> (v: u16)
    requires
        buf@.len() >= 2,
    ensures
        v as nat == be_value(buf@.subrange(0, 2)),
{
    BigEndian::read_u16(buf)
}

/// Calls `byteorder::BigEndian::read_u32`, which reads the first four bytes of
/// the buffer as a big-endian number and panics on a shorter buffer.
#[verifier::external_body]
fn be_u32(buf: &[u8]) -> (v: u32)
    requires
        buf@.len() >= 4,
    ensures
        v as nat == be_value(buf@.subrange(0, 4)),
{
    BigEndian::read_u32(buf)
}

/// Calls `byteorder::BigEndian::read_u64`, which reads the first eight bytes of
/// the buffer as a big-endian number and panics on a shorter buffer.
#[verifier::external_body]
fn be_u64(buf: &[u8]) -> (v: u64)
    requires
        buf@.len() >= 8,
    ensures
        v as nat == be_value(buf@.subrange(0, 8)),
{
    BigEndian::read_u64(buf)
}

/// A one-byte sequence stands for its byte.
pub proof fn lemma_be_value_one(s: Seq<u8>)
    requires
        s.len() == 1,
    ensures
        be_value(s) == s[0] as nat,
{
    assert(be_value(s.drop_last()) == 0);
}

/// Whether a number of bytes is a width in which numbers are stored.
pub open spec fn is_width(width: int) -> bool {
    width == 1 || width == 2 || width == 4 || width == 8
}

/// Reads the big-endian number of `width` bytes at `pos`, or nothing where
/// the data ends before `pos + width`. Numbers are one, two, four or eight
/// bytes wide; there is none of any other width.
pub fn read_be(data: &[u8], pos: usize, width: usize) -> (r: Option<u64>)
    ensures
        r is Some <==> is_width(width as int) && be_field(data@, pos as int, width as int) is Some,
        r matches Some(v) ==> Some(v as nat) == be_field(data@, pos as int, width as int),
{
    if pos > data.len() || width > data.len() - pos {
        return None;
    }
    if width == 1 {
        let field = slice_subrange(data, pos, pos + 1);
        proof {
            lemma_be_value_one(field@);
        }
        let b: u8 = field[0];
        Some(b as u64)
    } else if width == 2 {
        let field = slice_subrange(data, pos, pos + 2);
        assert(field@.subrange(0, 2) =~= field@);
        let v: u16 = be_u16(field);
        Some(v as u64)
    } else if width == 4 {
        let field = slice_subrange(data, pos, pos + 4);
        assert(field@.subrange(0, 4) =~= field@);
        let v: u32 = be_u32(field);
        Some(v as u64)
    } else if width == 8 {
        let field = slice_subrange(data, pos, pos + 8);
        assert(field@.subrange(0, 8) =~= field@);
        let v: u64 = be_u64(field);
        Some(v)
    } else {
        None
    }
}

/// The `len` bytes of a file that start at `start`, where the file holds them.
pub open spec fn span(file: Seq<u8>, start: int, len: int) -> Option<Seq<u8>> {
    if 0 <= start && 0 <= len && start + len <= file.len() {
        Some(file.subrange(start, start + len))
    } else {
        None
    }
}

/// Borrows the `len` bytes of a file that start at `start`, or nothing where
/// the file ends before them.
pub fn take_span<'a>(file: &'a [u8], start: u64, len: u64) -> (r: Option<&'a [u8]>)
    ensures
        r is Some <==> span(file@, start as int, len as int) is Some,
        r matches Some(s) ==> span(file@, start as int, len as int) == Some(s@),
        r is Some ==> start + len <= usize::MAX,
{
    let size: u64 = file.len() as u64;
    if start > size || len > size - start {
        return None;
    }
    Some(slice_subrange(file, start as usize, (start + len) as usize))
}

} // verus!
