//! Compression of the cache file's contents.
//!
//! The cache file is a gzip stream of the encoded map list. Reading and
//! writing the file happen outside the library; here the bytes are packed
//! and unpacked with flate2, and the map list is read from them.

use flate2::read::GzDecoder;
use flate2::write::GzEncoder;
use flate2::Compression;
use std::io::{Read, Write};
use vstd::prelude::*;

use crate::codec::{decode_map_list, keys_listed, lemma_map_list_roundtrip, spec_decode_map_list, spec_encode_map_list};
use crate::mapdata::{MapList, MapMetadataView};

verus! {

#[verifier::external_type_specification]
#[verifier::external_body]
pub struct ExIoError(std::io::Error);

/// The gzip stream that flate2's `GzEncoder`, at the default compression
/// level and with the default header, writes for `data`.
pub uninterp spec fn gzip_encoded(data: Seq<u8>) -> Seq<u8>;

/// What flate2's `GzDecoder` reads from `stream`: the data it unpacks, or
/// `None` where it reports an error.
pub uninterp spec fn gzip_decoded(stream: Seq<u8>) -> Option<Seq<u8>>;

/// The ten header bytes that `GzEncoder::new` writes: the gzip magic, the
/// deflate method, no flags, no modification time, no extra flags for the
/// default level, and the "unknown" operating system.
pub open spec fn default_gzip_header() -> Seq<u8> {
    seq![0x1fu8, 0x8bu8, 8u8, 0u8, 0u8, 0u8, 0u8, 0u8, 0u8, 255u8]
}

/// Compresses bytes to gzip format.
///
/// Trusted: calls flate2's `GzEncoder` (default level, writing into a `Vec`)
/// with `write_all` and `finish`. Claimed: the result is a function of the
/// input alone (`gzip_encoded`); it starts with the header that
/// `GzBuilder::into_header` writes and ends with the 8-byte CRC and length
/// trailer; and `GzDecoder` unpacks it to the input again. Writing into a
/// `Vec` cannot fail, so `finish` always succeeds.
#[verifier::external_body]
pub fn compress_bytes_gz(bytes: Vec<u8>) -> (r: Vec<u8>)
    ensures
        r@ == gzip_encoded(bytes@),
        r@.len() >= 18,
        r@.take(10) == default_gzip_header(),
        gzip_decoded(r@) == Some(bytes@),
{
    let mut gz = GzEncoder::new(Vec::new(), Compression::default());
    let _res = gz.write_all(&bytes);
    gz.finish().unwrap()
}

/// Unpacks a gzip stream.
///
/// Trusted: calls flate2's `GzDecoder` over the bytes with `read_to_end`.
/// Claimed: the outcome is a function of the stream alone (`gzip_decoded`).
#[verifier::external_body]
fn gzip_decode(stream: &[u8]) -> (r: Result<Vec<u8>, std::io::Error>)
    ensures
        match r {
            Ok(data) => gzip_decoded(stream@) == Some(data@),
            Err(_) => gzip_decoded(stream@) is None,
        },
{
    let mut decoder = GzDecoder::new(stream);
    let mut buffer: Vec<u8> = Vec::new();
    match decoder.read_to_end(&mut buffer) {
        Ok(_) => Ok(buffer),
        Err(e) => Err(e),
    }
}

/// Decompresses the contents of a gzip file, or gives `None` where they are
/// not a valid gzip stream.
pub fn decompress_bytes_gz(file_bytes: &[u8]) -> (r: Option<Vec<u8>>)
    ensures
        match r {
            Some(data) => gzip_decoded(file_bytes@) == Some(data@),
            None => gzip_decoded(file_bytes@) is None,
        },
{
    match gzip_decode(file_bytes) {
        Ok(data) => Some(data),
        Err(_) => None,
    }
}

/// The map list that the contents of a cache file hold: the one that the
/// data of the gzip stream encode, or `None` where the contents are no gzip
/// stream or the data no well-formed map list.
pub open spec fn spec_read_cache_file(file_bytes: Seq<u8>) -> Option<Map<Seq<char>, MapMetadataView>> {
    match gzip_decoded(file_bytes) {
        Some(data) => spec_decode_map_list(data),
        None => None,
    }
}

/// Reads the map list from the contents of a compressed cache file. The
/// contents must be a gzip stream of a well-formed map list.
pub fn read_gzip(file_bytes: &[u8]) -> (r: MapList)
    requires
        spec_read_cache_file(file_bytes@) is Some,
    ensures
        spec_read_cache_file(file_bytes@) == Some(r@),
{
    match decompress_bytes_gz(file_bytes) {
        Some(data) => match decode_map_list(&data) {
            Some(list) => list,
            None => {
                assert(false);
                MapList::new()
            },
        },
        None => {
            assert(false);
            MapList::new()
        },
    }
}

/// Reads the map list from the contents of a compressed cache file where
/// they are a gzip stream of a well-formed map list, and gives `None` where
/// they are not.
pub fn try_read_gzip(file_bytes: &[u8]) -> (r: Option<MapList>)
    ensures
        match r {
            Some(list) => spec_read_cache_file(file_bytes@) == Some(list@),
            None => spec_read_cache_file(file_bytes@) is None,
        },
{
    let readable = match decompress_bytes_gz(file_bytes) {
        Some(data) => decode_map_list(&data).is_some(),
        None => false,
    };
    if readable {
        Some(read_gzip(file_bytes))
    } else {
        None
    }
}

/// A cache file reads back as the map it was written from: contents that
/// unpack to the encoding of a map, its keys listed once each, hold that map.
pub proof fn lemma_cache_file_roundtrip(
    file_bytes: Seq<u8>,
    ids: Seq<Seq<char>>,
    m: Map<Seq<char>, MapMetadataView>,
)
    requires
        keys_listed(ids, m),
        spec_encode_map_list(ids, m).len() <= u64::MAX,
        gzip_decoded(file_bytes) == Some(spec_encode_map_list(ids, m)),
    ensures
        spec_read_cache_file(file_bytes) == Some(m),
{
    lemma_map_list_roundtrip(ids, m);
}

} // verus!
