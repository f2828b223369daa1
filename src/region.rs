//! What a region file does with a chunk's bytes: the compression of each payload, and its tag.
//! The file itself, an SQLite database, is opened and queried by the application.
use std::io::{Read, Write};

use vstd::prelude::*;

verus! {

/// The coordinate of a chunk within a region.
#[derive(Clone, Debug, PartialEq, Eq, Hash, Structural)]
pub struct ChunkCoord {
    x: i64,
    y: i64,
    z: i64,
}

impl ChunkCoord {
    /// The coordinate `(x, y, z)`.
    pub fn new(x: i64, y: i64, z: i64) -> (r: ChunkCoord)
        ensures
            r.x() == x && r.y() == y && r.z() == z,
    {
        ChunkCoord { x, y, z }
    }

    /// The x coordinate.
    pub closed spec fn x(&self) -> i64 {
        self.x
    }

    /// The y coordinate.
    pub closed spec fn y(&self) -> i64 {
        self.y
    }

    /// The z coordinate.
    pub closed spec fn z(&self) -> i64 {
        self.z
    }

    /// The three coordinates.
    pub fn to_xyz(&self) -> (r: (i64, i64, i64))
        ensures
            r == (self.x(), self.y(), self.z()),
    {
        (self.x, self.y, self.z)
    }
}

/// How the payload of a chunk is compressed.
#[derive(Copy, Clone, Debug, PartialEq, Eq, Structural)]
pub enum ChunkCompression {
    /// Brotli at quality 11; stored as `1`.
    Brotli,
}

impl ChunkCompression {
    /// The compression that a stored tag denotes.
    pub fn from_int(encoded: u8) -> (r: Option<ChunkCompression>)
        ensures
            r == (if encoded == 1 {
                Some(ChunkCompression::Brotli)
            } else {
                None
            }),
    {
        match encoded {
            1 => Some(ChunkCompression::Brotli),
            _ => None,
        }
    }

    /// The tag that stores this compression.
    pub fn as_int(self) -> (r: u8)
        ensures
            r == 1,
    {
        match self {
            ChunkCompression::Brotli => 1,
        }
    }
}

/// Why a chunk's payload could not be packed or unpacked.
#[derive(Copy, Clone, Debug, PartialEq, Eq, Structural)]
pub enum PayloadError {
    /// The stored bytes are not a complete Brotli stream.
    Decompression,
    /// The stored compression tag denotes no known compression.
    UnknownCompression(u8),
}

/// The bytes that Brotli at quality 11 makes of `data`.
pub uninterp spec fn brotli_compressed(data: Seq<u8>) -> Seq<u8>;

/// Relies on `brotli2::write::BrotliEncoder` (quality 11) writing into a `Vec`: `finish` hands
/// back the compressed stream, which depends on the input bytes alone. Writing into a `Vec`
/// cannot fail, and the encoder reports an error only where it cannot allocate.
#[verifier::external_body]
fn brotli_compress(data: &[u8]) -> (r: Option<Vec<u8>>)
    ensures
        r is Some,
        r matches Some(c) ==> c@ == brotli_compressed(data@),
{
    let mut encoder = brotli2::write::BrotliEncoder::new(Vec::new(), 11);
    if encoder.write_all(data).is_err() {
        return None;
    }
    encoder.finish().ok()
}

/// Relies on `brotli2::read::BrotliDecoder` read to its end over the bytes: Brotli is
/// lossless, so a stream that the encoder made decodes back to the encoder's input.
#[verifier::external_body]
fn brotli_decompress(data: &[u8]) -> (r: Option<Vec<u8>>)
    ensures
        forall|s: Seq<u8>|
            #[trigger] brotli_compressed(s) == data@ ==> r is Some && r->Some_0@ == s,
{
    let mut decoder = brotli2::read::BrotliDecoder::new(data);
    let mut out = Vec::new();
    if decoder.read_to_end(&mut out).is_err() {
        return None;
    }
    Some(out)
}

/// A chunk's payload as a region stores it: the compression tag and the compressed bytes.
pub struct StoredChunk {
    pub compression: u8,
    pub data: Vec<u8>,
}

/// Pack a chunk's bytes for storage: compressed with Brotli at quality 11, tagged `1`.
pub fn compress_chunk(chunk_data: &[u8]) -> (r: StoredChunk)
    ensures
        r.compression == 1,
        r.data@ == brotli_compressed(chunk_data@),
{
    let compression = ChunkCompression::Brotli;
    let data = brotli_compress(chunk_data).unwrap();
    StoredChunk { compression: compression.as_int(), data }
}

/// Unpack a stored payload with the compression that its tag names. What `compress_chunk`
/// made of some bytes unpacks to exactly those bytes.
pub fn decompress_chunk(compression: u8, data: &[u8]) -> (r: Result<Vec<u8>, PayloadError>)
    ensures
        compression != 1 ==> r == Err::<Vec<u8>, PayloadError>(
            PayloadError::UnknownCompression(compression),
        ),
        compression == 1 ==> forall|s: Seq<u8>|
            #[trigger] brotli_compressed(s) == data@ ==> r is Ok && r->Ok_0@ == s,
        compression == 1 && r is Err ==> r == Err::<Vec<u8>, PayloadError>(
            PayloadError::Decompression,
        ),
{
    match ChunkCompression::from_int(compression) {
        Some(ChunkCompression::Brotli) => match brotli_decompress(data) {
            Some(bytes) => Ok(bytes),
            None => Err(PayloadError::Decompression),
        },
        None => Err(PayloadError::UnknownCompression(compression)),
    }
}

} // verus!
