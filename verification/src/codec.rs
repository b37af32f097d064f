//! Decoding of blocks: the frame, the codecs, and the checksum.

use crate::checksum::{adler32, adler32_of};
use crate::error::MdictError;
use crate::wire::{be_value, read_be};
use vstd::prelude::*;
use vstd::slice::slice_subrange;

verus! {

/// The tag of a block that is stored as it is.
pub const TAG_STORED: u8 = 0;

/// The tag of an LZO block. No LZO decoder is linked.
pub const TAG_LZO: u8 = 1;

/// The tag of a zlib block.
pub const TAG_ZLIB: u8 = 2;

/// The length of a block's frame: the tag, three reserved bytes and the checksum.
pub const FRAME_LEN: usize = 8;

/// What `flate2`'s zlib decoder yields for a complete input: the inflated
/// bytes, or nothing where it reports an error.
pub uninterp spec fn zlib_inflated(data: Seq<u8>) -> Option<Seq<u8>>;

/// Runs `flate2::read::ZlibDecoder` over `data` until it reports the end of
/// its output. The result is the decoder's whole output, or nothing where
/// the decoder fails; it depends on `data` alone.
#[verifier::external_body]
fn zlib_inflate(data: &[u8]) -> (out: Option<Vec<u8>>)
    ensures
        out is Some <==> zlib_inflated(data@) is Some,
        out matches Some(v) ==> zlib_inflated(data@) == Some(v@),
{
    let mut out = Vec::new();
    let mut decoder = flate2::read::ZlibDecoder::new(data);
    match std::io::Read::read_to_end(&mut decoder, &mut out) {
        Ok(_) => Some(out),
        Err(_) => None,
    }
}

/// What the payload of a block decodes to under the given tag, for each
/// outcome of the zlib decoder.
pub open spec fn payload_decoded(tag: u8, payload: Seq<u8>, inflated: Option<Seq<u8>>) -> Result<
    Seq<u8>,
    MdictError,
> {
    if tag == TAG_STORED {
        Ok(payload)
    } else if tag == TAG_ZLIB {
        match inflated {
            Some(out) => Ok(out),
            None => Err(MdictError::CorruptBlock),
        }
    } else {
        Err(MdictError::UnsupportedCompression)
    }
}

/// What an unframed payload decodes to under the given tag.
pub open spec fn raw_decoded(tag: u8, payload: Seq<u8>) -> Result<Seq<u8>, MdictError> {
    payload_decoded(tag, payload, zlib_inflated(payload))
}

/// What the bytes decoded from a framed block amount to once the frame's
/// checksum is held against them.
pub open spec fn frame_checked(frame: Seq<u8>, decoded: Result<Seq<u8>, MdictError>) -> Result<
    Seq<u8>,
    MdictError,
> {
    match decoded {
        Err(e) => Err(e),
        Ok(out) => if adler32(out) == be_value(frame.subrange(4, 8)) {
            Ok(out)
        } else {
            Err(MdictError::CorruptBlock)
        },
    }
}

/// What a framed block decodes to: the tag in its first byte selects the
/// codec, bytes 4 to 8 hold the Adler-32 checksum of the decoded bytes, and
/// the payload follows.
pub open spec fn frame_decoded(frame: Seq<u8>) -> Result<Seq<u8>, MdictError> {
    if frame.len() < 8 {
        Err(MdictError::CorruptBlock)
    } else {
        frame_checked(frame, raw_decoded(frame[0], frame.subrange(8, frame.len() as int)))
    }
}

/// Decodes a payload whose codec the zlib decoder's outcome `inflated` belongs to.
pub fn finish_payload(tag: u8, payload: &[u8], inflated: Option<Vec<u8>>) -> (r: Result<
    Vec<u8>,
    MdictError,
>)
    ensures
        r matches Ok(v) ==> payload_decoded(tag, payload@, view_of(inflated)) == Ok::<
            Seq<u8>,
            MdictError,
        >(v@),
        r matches Err(e) ==> payload_decoded(tag, payload@, view_of(inflated)) == Err::<
            Seq<u8>,
            MdictError,
        >(e),
{
    if tag == TAG_STORED {
        Ok(vstd::slice::slice_to_vec(payload))
    } else if tag == TAG_ZLIB {
        match inflated {
            Some(out) => Ok(out),
            None => Err(MdictError::CorruptBlock),
        }
    } else {
        Err(MdictError::UnsupportedCompression)
    }
}

/// The byte sequence that an optional vector holds.
pub open spec fn view_of(v: Option<Vec<u8>>) -> Option<Seq<u8>> {
    match v {
        Some(bytes) => Some(bytes@),
        None => None,
    }
}

/// Decodes an unframed payload under an explicit tag: stored bytes are
/// copied, zlib bytes are inflated, any other tag is refused.
pub fn decompress_raw(tag: u8, payload: &[u8]) -> (r: Result<Vec<u8>, MdictError>)
    ensures
        r matches Ok(v) ==> raw_decoded(tag, payload@) == Ok::<Seq<u8>, MdictError>(v@),
        r matches Err(e) ==> raw_decoded(tag, payload@) == Err::<Seq<u8>, MdictError>(e),
{
    let inflated = if tag == TAG_ZLIB {
        zlib_inflate(payload)
    } else {
        None
    };
    finish_payload(tag, payload, inflated)
}

/// Decodes a framed block and holds the decoded bytes against the frame's
/// Adler-32 checksum.
pub fn decompress(frame: &[u8]) -> (r: Result<Vec<u8>, MdictError>)
    ensures
        r matches Ok(v) ==> frame_decoded(frame@) == Ok::<Seq<u8>, MdictError>(v@),
        r matches Err(e) ==> frame_decoded(frame@) == Err::<Seq<u8>, MdictError>(e),
{
    if frame.len() < FRAME_LEN {
        return Err(MdictError::CorruptBlock);
    }
    let tag: u8 = frame[0];
    let payload = slice_subrange(frame, FRAME_LEN, frame.len());
    let declared = read_be(frame, 4, 4);
    match decompress_raw(tag, payload) {
        Err(e) => Err(e),
        Ok(out) => {
            let actual: u32 = adler32_of(out.as_slice());
            match declared {
                Some(sum) => {
                    if actual as u64 == sum {
                        Ok(out)
                    } else {
                        Err(MdictError::CorruptBlock)
                    }
                },
                None => Err(MdictError::CorruptBlock),
            }
        },
    }
}

} // verus!
