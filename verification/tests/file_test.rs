use drm_beatsaver_cacher::codec::encode_map_list;
use drm_beatsaver_cacher::file::{compress_bytes_gz, decompress_bytes_gz, read_gzip, try_read_gzip};
use drm_beatsaver_cacher::mapdata::{MapList, MapMetadata, Votes};

#[test]
fn compressed_bytes_are_a_gzip_stream() {
    let packed = compress_bytes_gz(b"hello world".to_vec());
    assert_eq!(&packed[..10], &[0x1f, 0x8b, 8, 0, 0, 0, 0, 0, 0, 255]);
    assert!(packed.len() >= 18);
    // the trailer ends with the input length
    assert_eq!(&packed[packed.len() - 4..], &[11, 0, 0, 0]);
}

#[test]
fn decompression_gives_back_the_compressed_bytes() {
    let data: Vec<u8> = (0..5000u32).map(|i| (i * 7 % 251) as u8).collect();
    let packed = compress_bytes_gz(data.clone());
    assert_ne!(packed, data);
    assert_eq!(decompress_bytes_gz(&packed), Some(data));
    let empty = compress_bytes_gz(Vec::new());
    assert_eq!(decompress_bytes_gz(&empty), Some(Vec::new()));
}

#[test]
fn compression_depends_on_the_input_alone() {
    let a = compress_bytes_gz(b"same input".to_vec());
    let b = compress_bytes_gz(b"same input".to_vec());
    assert_eq!(a, b);
}

#[test]
fn bytes_that_are_no_gzip_stream_are_refused() {
    assert_eq!(decompress_bytes_gz(b"not gzip at all"), None);
    let mut packed = compress_bytes_gz(b"hello world".to_vec());
    let last = packed.len() - 6;
    packed[last] ^= 0xff;
    assert_eq!(decompress_bytes_gz(&packed), None);
}

#[test]
fn a_cache_file_reads_back_as_the_written_map_list() {
    let record = MapMetadata {
        key: 0x4b6f1,
        hash: "e5c654bfaf385feda0df68a406dfadda471df62e".to_string(),
        song_name: "FOCUS".to_string(),
        song_sub_name: String::new(),
        song_author_name: "Hearts2Hearts".to_string(),
        level_author_name: "Jonas".to_string(),
        duration: 179,
        uploaded: 1761001614,
        last_updated: 1761093231,
        mods: 1,
        curator_name: Some("Taranchola".to_string()),
        votes: Votes { up: 204, down: 9 },
        difficulties: Vec::new(),
    };
    let mut list = MapList::new();
    list.insert("4b6f1".to_string(), record.clone());
    let file = compress_bytes_gz(encode_map_list(&list));
    let back = read_gzip(&file);
    assert_eq!(back.len(), 1);
    assert_eq!(back.get(&"4b6f1".to_string()), Some(&record));
}

#[test]
fn a_cache_file_that_holds_no_map_list_is_refused() {
    assert!(try_read_gzip(b"not gzip at all").is_none());
    // a gzip stream of bytes that are no map list: field 1 as a varint
    let file = compress_bytes_gz(vec![0x08, 0x01]);
    assert!(try_read_gzip(&file).is_none());
    // an empty map list
    let empty = compress_bytes_gz(Vec::new());
    assert_eq!(try_read_gzip(&empty).map(|l| l.len()), Some(0));
    assert_eq!(read_gzip(&empty).len(), 0);
}
