use drm_beatsaver_cacher::codec::{decode_map_list, encode_map_list};
use drm_beatsaver_cacher::file::{compress_bytes_gz, decompress_bytes_gz};
use drm_beatsaver_cacher::mapdata::{Difficulty, MapList, MapMetadata, Ranked, RankedValue, Votes};

fn bare_record(key: u32) -> MapMetadata {
    MapMetadata {
        key,
        hash: String::new(),
        song_name: String::new(),
        song_sub_name: String::new(),
        song_author_name: String::new(),
        level_author_name: String::new(),
        duration: 0,
        uploaded: 0,
        last_updated: 0,
        mods: 0,
        curator_name: None,
        votes: Votes { up: 0, down: 0 },
        difficulties: Vec::new(),
    }
}

fn full_record() -> MapMetadata {
    MapMetadata {
        key: 0x4b6f1,
        hash: "6d6e0bfb0ecbd33a68f7e7d1ef1cfbf6ab47d25b".to_string(),
        song_name: "Focus".to_string(),
        song_sub_name: "Sub ♪".to_string(),
        song_author_name: "Artist".to_string(),
        level_author_name: "Mapper".to_string(),
        duration: 204,
        uploaded: 1761001614,
        last_updated: 1761093231,
        mods: 0b1010,
        curator_name: Some("Curator".to_string()),
        votes: Votes { up: 42, down: 3 },
        difficulties: vec![
            Difficulty {
                njs: 18.5f32.to_bits(),
                notes: 1234,
                characteristic_name: "Standard".to_string(),
                difficulty_name: "ExpertPlus".to_string(),
                mods: 0b10,
                environment_name: "TimbalandEnvironment".to_string(),
                ranked: Ranked {
                    score_saber: RankedValue { is_ranked: true, stars_bits: 7.25f32.to_bits() },
                    beat_leader: RankedValue { is_ranked: false, stars_bits: 0 },
                },
            },
            Difficulty {
                njs: 0,
                notes: 0,
                characteristic_name: String::new(),
                difficulty_name: "Easy".to_string(),
                mods: 0,
                environment_name: String::new(),
                ranked: Ranked {
                    score_saber: RankedValue { is_ranked: false, stars_bits: 0 },
                    beat_leader: RankedValue { is_ranked: true, stars_bits: 3.5f32.to_bits() },
                },
            },
        ],
    }
}

fn same_records(a: &MapList, b: &MapList) {
    assert_eq!(a.len(), b.len());
    for id in a.ids() {
        assert_eq!(a.get(id), b.get(id));
    }
}

#[test]
fn an_empty_list_is_written_as_no_bytes() {
    let list = MapList::new();
    let bytes = encode_map_list(&list);
    assert!(bytes.is_empty());
    let back = decode_map_list(&bytes).expect("an empty list reads back");
    assert_eq!(back.len(), 0);
}

#[test]
fn a_small_list_has_the_expected_bytes() {
    let mut list = MapList::new();
    list.insert("a".to_string(), bare_record(300));
    let bytes = encode_map_list(&list);
    let mut record = vec![0x08, 0xac, 0x02];
    // the empty strings and zero numbers of fields 2 to 10 are written too
    for number in 2u8..=6 {
        record.extend([number << 3 | 2, 0x00]);
    }
    for number in 7u8..=10 {
        record.extend([number << 3, 0x00]);
    }
    // votes: up and down, both 0
    record.extend([0x62, 0x04, 0x08, 0x00, 0x10, 0x00]);
    assert_eq!(record.len(), 27);
    let mut expected = vec![0x0a, 32, 0x0a, 0x01, 0x61, 0x12, 27];
    expected.extend(record);
    assert_eq!(bytes, expected);
}

#[test]
fn a_default_record_is_left_out_of_its_entry() {
    let mut list = MapList::new();
    list.insert("a".to_string(), bare_record(0));
    let bytes = encode_map_list(&list);
    assert_eq!(bytes, vec![0x0a, 0x03, 0x0a, 0x01, 0x61]);
    let back = decode_map_list(&bytes).expect("the entry reads back");
    assert_eq!(back.get(&"a".to_string()), Some(&bare_record(0)));

    let mut empty_id = MapList::new();
    empty_id.insert(String::new(), bare_record(0));
    let bytes = encode_map_list(&empty_id);
    assert_eq!(bytes, vec![0x0a, 0x00]);
    let back = decode_map_list(&bytes).expect("the entry reads back");
    assert_eq!(back.get(&String::new()), Some(&bare_record(0)));
}

#[test]
fn absent_fields_read_as_their_defaults() {
    // an entry "a" whose record holds only key = 5
    let back = decode_map_list(&[0x0a, 0x07, 0x0a, 0x01, 0x61, 0x12, 0x02, 0x08, 0x05])
        .expect("a sparse record reads");
    assert_eq!(back.get(&"a".to_string()), Some(&bare_record(5)));
}

#[test]
fn a_written_list_reads_back_as_the_same_records() {
    let mut list = MapList::new();
    list.insert("4b6f1".to_string(), full_record());
    list.insert("1".to_string(), bare_record(1));
    list.insert("empty".to_string(), bare_record(0));
    let bytes = encode_map_list(&list);
    let back = decode_map_list(&bytes).expect("the written list reads back");
    same_records(&list, &back);
    assert_eq!(back.get(&"4b6f1".to_string()), Some(&full_record()));
}

#[test]
fn the_cache_file_round_trips_through_gzip() {
    let mut list = MapList::new();
    list.insert("4b6f1".to_string(), full_record());
    list.insert("2".to_string(), bare_record(2));
    let file = compress_bytes_gz(encode_map_list(&list));
    let raw = decompress_bytes_gz(&file).expect("the file is a gzip stream");
    let back = decode_map_list(&raw).expect("the file holds a map list");
    same_records(&list, &back);
}

#[test]
fn unknown_fields_are_skipped() {
    // field 5, varint 1
    let back = decode_map_list(&[0x28, 0x01]).expect("unknown fields are skipped");
    assert_eq!(back.len(), 0);
}

#[test]
fn a_later_entry_takes_the_place_of_an_earlier_one() {
    let mut first = MapList::new();
    first.insert("a".to_string(), bare_record(1));
    let mut second = MapList::new();
    second.insert("a".to_string(), bare_record(2));
    let mut bytes = encode_map_list(&first);
    bytes.extend(encode_map_list(&second));
    let back = decode_map_list(&bytes).expect("both entries read");
    assert_eq!(back.len(), 1);
    assert_eq!(back.get(&"a".to_string()), Some(&bare_record(2)));
}

#[test]
fn a_field_of_the_wrong_wire_type_is_refused() {
    // field 1 as a varint where an entry message is expected
    assert!(decode_map_list(&[0x08, 0x01]).is_none());
}

#[test]
fn a_truncated_list_is_refused() {
    let mut list = MapList::new();
    list.insert("a".to_string(), bare_record(300));
    let bytes = encode_map_list(&list);
    assert!(decode_map_list(&bytes[..bytes.len() - 1]).is_none());
    // a length that runs past the end
    assert!(decode_map_list(&[0x0a, 0x05, 0x01]).is_none());
    // a varint that never ends
    assert!(decode_map_list(&[0x80]).is_none());
}

#[test]
fn text_that_is_not_utf8_is_refused() {
    // entry with id bytes [0xff]
    assert!(decode_map_list(&[0x0a, 0x03, 0x0a, 0x01, 0xff]).is_none());
}

#[test]
fn unknown_groups_are_skipped() {
    // field 5 as a group holding a varint field, then its end key
    let back = decode_map_list(&[0x2b, 0x08, 0x01, 0x2c]).expect("an unknown group is skipped");
    assert_eq!(back.len(), 0);
    // a group nested in a group
    assert!(decode_map_list(&[0x2b, 0x33, 0x34, 0x2c]).is_some());
    // an entry that holds an unknown group besides its id
    let back = decode_map_list(&[0x0a, 0x05, 0x0a, 0x01, 0x61, 0x1b, 0x1c]).expect("the entry reads");
    assert_eq!(back.get(&"a".to_string()), Some(&bare_record(0)));
}

#[test]
fn malformed_groups_are_refused() {
    // an end key of another number
    assert!(decode_map_list(&[0x2b, 0x34]).is_none());
    // a group that never ends
    assert!(decode_map_list(&[0x2b, 0x08, 0x01]).is_none());
    // an end key with no group
    assert!(decode_map_list(&[0x2c]).is_none());
    // a known field given as a group
    assert!(decode_map_list(&[0x0b, 0x0c]).is_none());
}

#[test]
fn groups_nest_within_the_recursion_budget() {
    let nested = |depth: usize| {
        let mut bytes = vec![0x2b; depth];
        bytes.extend(vec![0x2c; depth]);
        bytes
    };
    assert!(decode_map_list(&nested(100)).is_some());
    assert!(decode_map_list(&nested(101)).is_none());
}
