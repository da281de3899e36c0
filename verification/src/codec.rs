//! Content blocks: the framed, possibly compressed units that hold the keys
//! and the records of a dictionary.
//!
//! A frame is a little-endian type tag of four bytes, a checksum of four
//! bytes, and a payload. The checksum is carried along and never verified.

use crate::bytes::in_bounds;
use crate::bytes::le32;
use crate::bytes::le_bytes32;
use crate::bytes::lemma_le32_of_le_bytes32;
use crate::bytes::read_exact;
use crate::bytes::read_u32_le;
pub use crate::error::ContentBlockType;
use crate::error::DecompressionCause;
use crate::error::Error;
use crate::error::ErrorView;
use flate2::read::ZlibDecoder;
use std::io::Read;
use vstd::prelude::*;
use vstd::slice::slice_subrange;
use vstd::slice::slice_to_vec;

verus! {

/// The data that `flate2` inflates from a zlib stream, or `None` where it
/// reports an error.
pub uninterp spec fn zlib_inflated(stream: Seq<u8>) -> Option<Seq<u8>>;

/// The buffer that `minilzo_rs` hands back for an LZO1X stream and a buffer
/// size, or `None` where it reports an error.
pub uninterp spec fn lzo1x_decompressed(stream: Seq<u8>, size: nat) -> Option<Seq<u8>>;

/// Reads a `flate2::read::ZlibDecoder` over `stream` to its end. The data
/// that comes out is named by [`zlib_inflated`]; `None` stands for an error
/// of the decoder.
#[verifier::external_body]
pub(crate) fn zlib_inflate(stream: &[u8]) -> (data: Option<Vec<u8>>)
    ensures
        match data {
            Some(d) => zlib_inflated(stream@) == Some(d@),
            None => zlib_inflated(stream@).is_none(),
        },
{
    let mut data = Vec::new();
    match ZlibDecoder::new(stream).read_to_end(&mut data) {
        Ok(_) => Some(data),
        Err(_) => None,
    }
}

/// Calls `minilzo_rs::LZO::decompress_safe` on a decompressor fresh from
/// `minilzo_rs::LZO::init`, with a buffer of `size` bytes. The buffer that
/// comes back is named by [`lzo1x_decompressed`]; `None` stands for an error
/// of either call.
#[verifier::external_body]
pub(crate) fn lzo1x_decompress(stream: &[u8], size: usize) -> (data: Option<Vec<u8>>)
    ensures
        match data {
            Some(d) => lzo1x_decompressed(stream@, size as nat) == Some(d@),
            None => lzo1x_decompressed(stream@, size as nat).is_none(),
        },
{
    match minilzo_rs::LZO::init() {
        Ok(lzo) => lzo.decompress_safe(stream, size).ok(),
        Err(_) => None,
    }
}

/// A decoded content block.
#[derive(Debug, PartialEq, Eq)]
pub struct ContentBlock {
    /// How the payload was stored.
    pub block_type: ContentBlockType,
    /// The checksum that the frame carries.
    pub checksum: u32,
    /// The data of the block.
    pub data: Vec<u8>,
}

/// The mathematical value of a [`ContentBlock`].
pub struct ContentBlockView {
    pub block_type: ContentBlockType,
    pub checksum: u32,
    pub data: Seq<u8>,
}

impl View for ContentBlock {
    type V = ContentBlockView;

    open spec fn view(&self) -> ContentBlockView {
        ContentBlockView { block_type: self.block_type, checksum: self.checksum, data: self.data@ }
    }
}

/// The block type that a type tag stands for.
pub open spec fn block_type_of(tag: int) -> Option<ContentBlockType> {
    if tag == 0 {
        Some(ContentBlockType::Raw)
    } else if tag == 1 {
        Some(ContentBlockType::Lzo)
    } else if tag == 2 {
        Some(ContentBlockType::Zlib)
    } else {
        None
    }
}

/// What the payload of a block of the given type holds, before its length
/// is compared with the declared one.
pub open spec fn unpacked(block_type: ContentBlockType, payload: Seq<u8>, size: nat) -> Option<
    Seq<u8>,
> {
    match block_type {
        ContentBlockType::Raw => Some(payload),
        ContentBlockType::Lzo => lzo1x_decompressed(payload, size),
        ContentBlockType::Zlib => zlib_inflated(payload),
    }
}

/// The data of a payload of the given type and declared size.
pub open spec fn payload_data(block_type: ContentBlockType, payload: Seq<u8>, size: nat) -> Result<
    Seq<u8>,
    ErrorView,
> {
    match unpacked(block_type, payload, size) {
        None => Err(
            ErrorView::DecompressionFailed {
                method: block_type,
                cause: DecompressionCause::Codec,
            },
        ),
        Some(data) => if data.len() == size {
            Ok(data)
        } else {
            Err(
                ErrorView::DecompressionFailed {
                    method: block_type,
                    cause: DecompressionCause::WrongLength,
                },
            )
        },
    }
}

/// The content block that a frame decodes to, given the decompressed size
/// that the directory declares for it and the ceiling on such sizes.
#[verifier::opaque]
pub open spec fn decoded_block(frame: Seq<u8>, nb_decompressed: u64, limit: usize) -> Result<
    ContentBlockView,
    ErrorView,
> {
    if nb_decompressed > limit {
        Err(ErrorView::SizeCeilingExceeded { declared: nb_decompressed, limit: limit as u64 })
    } else if frame.len() < 8 {
        Err(ErrorView::Truncated)
    } else {
        match block_type_of(le32(frame, 0)) {
            None => Err(ErrorView::UnknownBlockType { value: le32(frame, 0) as u32 }),
            Some(block_type) => match payload_data(
                block_type,
                frame.subrange(8, frame.len() as int),
                nb_decompressed as nat,
            ) {
                Err(e) => Err(e),
                Ok(data) => Ok(
                    ContentBlockView { block_type, checksum: le32(frame, 4) as u32, data },
                ),
            },
        }
    }
}

/// Relates what a decoder returned to what the format prescribes.
pub open spec fn block_result_is(
    r: Result<ContentBlock, Error>,
    expected: Result<ContentBlockView, ErrorView>,
) -> bool {
    match r {
        Ok(block) => expected == Ok::<ContentBlockView, ErrorView>(block@),
        Err(e) => expected == Err::<ContentBlockView, ErrorView>(e@),
    }
}

/// Checks the length of unpacked data against the declared size.
fn sized(block_type: ContentBlockType, data: Vec<u8>, size: usize) -> (r: Result<Vec<u8>, Error>)
    ensures
        match r {
            Ok(d) => d@ == data@ && data@.len() == size,
            Err(e) => data@.len() != size && e@ == (ErrorView::DecompressionFailed {
                method: block_type,
                cause: DecompressionCause::WrongLength,
            }),
        },
{
    if data.len() == size {
        Ok(data)
    } else {
        Err(Error::DecompressionFailed { method: block_type, cause: DecompressionCause::WrongLength })
    }
}

/// Turns a payload into its data: copies it, or decompresses it with LZO1X
/// or zlib, and checks that the data has the declared size.
pub fn unpack_payload(block_type: ContentBlockType, payload: &[u8], size: usize) -> (r: Result<
    Vec<u8>,
    Error,
>)
    ensures
        match r {
            Ok(data) => payload_data(block_type, payload@, size as nat) == Ok::<
                Seq<u8>,
                ErrorView,
            >(data@),
            Err(e) => payload_data(block_type, payload@, size as nat) == Err::<Seq<u8>, ErrorView>(
                e@,
            ),
        },
{
    match block_type {
        ContentBlockType::Raw => sized(block_type, slice_to_vec(payload), size),
        ContentBlockType::Lzo => match lzo1x_decompress(payload, size) {
            Some(data) => sized(block_type, data, size),
            None => Err(
                Error::DecompressionFailed { method: block_type, cause: DecompressionCause::Codec },
            ),
        },
        ContentBlockType::Zlib => match zlib_inflate(payload) {
            Some(data) => sized(block_type, data, size),
            None => Err(
                Error::DecompressionFailed { method: block_type, cause: DecompressionCause::Codec },
            ),
        },
    }
}

/// Decodes one content block frame. `nb_decompressed` is the size that the
/// directory declares for its data, `limit` the ceiling on such sizes.
pub fn decode_content_block(frame: &[u8], nb_decompressed: u64, limit: usize) -> (r: Result<
    ContentBlock,
    Error,
>)
    ensures
        block_result_is(r, decoded_block(frame@, nb_decompressed, limit)),
{
    reveal(decoded_block);
    if nb_decompressed > limit as u64 {
        return Err(Error::SizeCeilingExceeded { declared: nb_decompressed, limit: limit as u64 });
    }
    if frame.len() < 8 {
        return Err(Error::Truncated);
    }
    let tag: u32 = match read_u32_le(frame, 0) {
        Ok(v) => v,
        Err(e) => { return Err(e); },
    };
    let checksum: u32 = match read_u32_le(frame, 4) {
        Ok(v) => v,
        Err(e) => { return Err(e); },
    };
    let block_type = if tag == 0 {
        ContentBlockType::Raw
    } else if tag == 1 {
        ContentBlockType::Lzo
    } else if tag == 2 {
        ContentBlockType::Zlib
    } else {
        return Err(Error::UnknownBlockType { value: tag });
    };
    let payload = slice_subrange(frame, 8, frame.len());
    match unpack_payload(block_type, payload, nb_decompressed as usize) {
        Ok(data) => Ok(ContentBlock { block_type, checksum, data }),
        Err(e) => Err(e),
    }
}

/// The content block whose frame of `nb_compressed` bytes stands at `at`.
pub open spec fn block_at(
    s: Seq<u8>,
    at: int,
    nb_compressed: u64,
    nb_decompressed: u64,
    limit: usize,
) -> Result<ContentBlockView, ErrorView> {
    if nb_decompressed > limit {
        Err(ErrorView::SizeCeilingExceeded { declared: nb_decompressed, limit: limit as u64 })
    } else if !in_bounds(s.len() as int, at, nb_compressed as int) {
        Err(ErrorView::Truncated)
    } else {
        decoded_block(s.subrange(at, at + nb_compressed), nb_decompressed, limit)
    }
}

/// Reads the content block whose frame of `nb_compressed` bytes stands at
/// `pos`.
pub fn content_block(
    data: &[u8],
    pos: usize,
    nb_compressed: u64,
    nb_decompressed: u64,
    limit: usize,
) -> (r: Result<ContentBlock, Error>)
    ensures
        block_result_is(r, block_at(data@, pos as int, nb_compressed, nb_decompressed, limit)),
{
    if nb_decompressed > limit as u64 {
        return Err(Error::SizeCeilingExceeded { declared: nb_decompressed, limit: limit as u64 });
    }
    match read_exact(data, pos, nb_compressed) {
        Ok(frame) => decode_content_block(frame, nb_decompressed, limit),
        Err(e) => Err(e),
    }
}

/// The type tag of a block type.
pub open spec fn tag_of(block_type: ContentBlockType) -> u32 {
    match block_type {
        ContentBlockType::Raw => 0,
        ContentBlockType::Lzo => 1,
        ContentBlockType::Zlib => 2,
    }
}

/// The frame that holds a payload: the type tag, the checksum and the
/// payload.
pub open spec fn frame_of(block_type: ContentBlockType, checksum: u32, payload: Seq<u8>) -> Seq<
    u8,
> {
    le_bytes32(tag_of(block_type)) + le_bytes32(checksum) + payload
}

/// A frame decodes to the data that its payload unpacks to: if a payload
/// of some type unpacks to `data`, the frame around it decodes to a block
/// of that type with that data and the checksum of the frame.
pub proof fn lemma_frame_round_trip(
    block_type: ContentBlockType,
    checksum: u32,
    payload: Seq<u8>,
    data: Seq<u8>,
    limit: usize,
)
    requires
        data.len() <= limit,
        unpacked(block_type, payload, data.len()) == Some(data),
    ensures
        decoded_block(frame_of(block_type, checksum, payload), data.len() as u64, limit) == Ok::<
            ContentBlockView,
            ErrorView,
        >(ContentBlockView { block_type, checksum, data }),
{
    reveal(decoded_block);
    let frame = frame_of(block_type, checksum, payload);
    let tag = tag_of(block_type);
    lemma_le32_of_le_bytes32(tag, le_bytes32(checksum) + payload);
    assert(frame =~= le_bytes32(tag) + (le_bytes32(checksum) + payload));
    lemma_le32_of_le_bytes32(checksum, payload);
    assert(le32(frame, 4) == le32(le_bytes32(checksum) + payload, 0)) by {
        let tail = le_bytes32(checksum) + payload;
        assert(frame[4] == tail[0]);
        assert(frame[5] == tail[1]);
        assert(frame[6] == tail[2]);
        assert(frame[7] == tail[3]);
    }
    assert(frame.subrange(8, frame.len() as int) =~= payload);
}

/// A raw frame decodes to its payload.
pub proof fn lemma_raw_round_trip(checksum: u32, data: Seq<u8>, limit: usize)
    requires
        data.len() <= limit,
    ensures
        decoded_block(frame_of(ContentBlockType::Raw, checksum, data), data.len() as u64, limit)
            == Ok::<ContentBlockView, ErrorView>(
            ContentBlockView { block_type: ContentBlockType::Raw, checksum, data },
        ),
{
    lemma_frame_round_trip(ContentBlockType::Raw, checksum, data, data, limit);
}

/// The data of a decoded block has the declared size, which is not above
/// the ceiling.
pub proof fn lemma_decoded_size(frame: Seq<u8>, nb_decompressed: u64, limit: usize)
    ensures
        decoded_block(frame, nb_decompressed, limit) matches Ok(block) ==> block.data.len()
            == nb_decompressed && nb_decompressed <= limit,
{
    reveal(decoded_block);
}

} // verus!
