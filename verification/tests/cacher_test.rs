use drm_beatsaver_cacher::cacher::protogen::{
    encode_mods, generate_protobuf_curator, generate_protobuf_diff_mods, generate_protobuf_diffs,
    generate_protobuf_map_mods, generate_protobuf_ranked_values, generate_protobuf_tags,
    generate_protobuf_votes, to_u32_or_zero,
};
use drm_beatsaver_cacher::cacher::{
    cache_map_data, get_map_mods, parse_map_key, should_cache_map, CacheScan, FetchOutcome,
    ScanStep, SearchParams,
};
use drm_beatsaver_cacher::codec::encode_map_list;
use drm_beatsaver_cacher::file::{compress_bytes_gz, read_gzip};
use drm_beatsaver_cacher::mapdata::{MapList, MapMetadata, RankedValue};
use drm_beatsaver_cacher::models::{
    AIDeclarationType, BeatSaverMap, MapDifficulty, MapState, MapStats, MapVersion, SongMetadata,
};

fn difficulty(njs: f32, notes: i64, name: &str) -> MapDifficulty {
    MapDifficulty {
        njs_bits: njs.to_bits(),
        notes,
        characteristic: "Standard".to_string(),
        difficulty: name.to_string(),
        chroma: false,
        me: false,
        ne: false,
        cinema: true,
        vivify: false,
        environment: Some("NiceEnvironment".to_string()),
        ss_stars_bits: None,
        bl_stars_bits: None,
    }
}

// https://beatsaver.com/maps/4b6f1
fn focus_map() -> BeatSaverMap {
    BeatSaverMap {
        id: "4b6f1".to_string(),
        metadata: SongMetadata {
            duration: 179,
            song_name: "FOCUS".to_string(),
            song_sub_name: "".to_string(),
            song_author_name: "Hearts2Hearts".to_string(),
            level_author_name: "Jonas".to_string(),
        },
        stats: MapStats { upvotes: 204, downvotes: 9 },
        // 2025-10-20T23:06:54.743598Z
        uploaded: 1761001614,
        automapper: false,
        declared_ai: AIDeclarationType::Undeclared,
        versions: vec![MapVersion {
            hash: "e5c654bfaf385feda0df68a406dfadda471df62e".to_string(),
            state: MapState::Published,
            diffs: vec![
                difficulty(10.0, 212, "Easy"),
                difficulty(12.0, 474, "Normal"),
                difficulty(13.0, 586, "Hard"),
                difficulty(15.0, 779, "Expert"),
                difficulty(16.0, 778, "ExpertPlus"),
            ],
        }],
        curator: Some("Taranchola".to_string()),
        // 2025-10-22T00:33:51.715837Z
        updated_at: Some(1761093231),
        // 2025-10-20T23:06:54.743598Z
        last_published_at: Some(1761001614),
        tags: vec!["tech".to_string(), "dance-style".to_string(), "k-pop".to_string()],
    }
}

fn focus() -> MapMetadata {
    cache_map_data(&focus_map()).unwrap()
}

#[test]
fn it_caches_focus() {
    // https://beatsaver.com/maps/4b6f1
    let focus_but_drm = focus();

    // DRM-specific:

    // curator
    assert_eq!(focus_but_drm.curator_name, Some("Taranchola".into()));

    // mod requirements/suggestions (should just be cinema)
    assert_eq!(focus_but_drm.mods, 1);

    // upload time and last updated are different
    assert_ne!(focus_but_drm.uploaded, focus_but_drm.last_updated);
}

/// The bytes of a cache file that holds the focus record alone.
fn write_focus() -> Vec<u8> {
    let mut maps = MapList::new();
    maps.insert("4b6f1".into(), focus());
    compress_bytes_gz(encode_map_list(&maps))
}

#[test]
fn it_writes() {
    let _ = write_focus();
}

#[test]
fn it_reads() {
    let focus_but_drm = focus();

    let file_bytes = write_focus();

    // Decompress and decode
    let proto_cache = read_gzip(&file_bytes);

    // validation
    assert!(proto_cache.contains_key(&"4b6f1".to_string()));
    assert_eq!(proto_cache.len(), 1);

    let focus_but_cached = proto_cache.get(&"4b6f1".to_string()).unwrap();
    println!("{:?}", focus_but_cached);

    assert_eq!(*focus_but_cached, focus_but_drm);
}

#[test]
fn focus_record_holds_every_field() {
    let record = focus();
    assert_eq!(record.key, 0x4b6f1);
    assert_eq!(record.hash, "e5c654bfaf385feda0df68a406dfadda471df62e");
    assert_eq!(record.song_name, "FOCUS");
    assert_eq!(record.song_sub_name, "");
    assert_eq!(record.song_author_name, "Hearts2Hearts");
    assert_eq!(record.level_author_name, "Jonas");
    assert_eq!(record.duration, 179);
    assert_eq!(record.uploaded, 1761001614);
    assert_eq!(record.last_updated, 1761093231);
    assert_eq!(record.votes.up, 204);
    assert_eq!(record.votes.down, 9);
    assert_eq!(record.difficulties.len(), 5);
    let notes: Vec<u32> = record.difficulties.iter().map(|d| d.notes).collect();
    assert_eq!(notes, vec![212, 474, 586, 779, 778]);
    assert_eq!(record.difficulties[4].difficulty_name, "ExpertPlus");
    assert_eq!(record.difficulties[4].characteristic_name, "Standard");
    assert_eq!(record.difficulties[4].environment_name, "NiceEnvironment");
    assert_eq!(f32::from_bits(record.difficulties[3].njs), 15.0);
    assert_eq!(record.difficulties[0].mods, 1);
    assert!(!record.difficulties[0].ranked.score_saber.is_ranked);
    assert_eq!(record.difficulties[0].ranked.beat_leader.stars_bits, 0.0f32.to_bits());
}

#[test]
fn unpublished_maps_are_not_cached() {
    let mut map = focus_map();
    map.last_published_at = None;
    map.versions.clear();
    assert!(!should_cache_map(&map));
    assert!(cache_map_data(&map).is_none());
}

#[test]
fn maps_whose_newest_version_is_unpublished_are_not_cached() {
    let mut map = focus_map();
    map.versions[0].state = MapState::Testplay;
    assert!(!should_cache_map(&map));
    assert!(cache_map_data(&map).is_none());
}

#[test]
fn ai_maps_are_not_cached() {
    let mut map = focus_map();
    map.declared_ai = AIDeclarationType::Uploader;
    assert!(!should_cache_map(&map));
    assert!(cache_map_data(&map).is_none());
}

#[test]
fn automapped_maps_are_not_cached() {
    let mut map = focus_map();
    map.automapper = true;
    assert!(!should_cache_map(&map));
    assert!(cache_map_data(&map).is_none());
}

#[test]
fn maps_without_update_time_are_not_cached() {
    let mut map = focus_map();
    map.updated_at = None;
    assert!(should_cache_map(&map));
    assert!(cache_map_data(&map).is_none());
}

#[test]
fn out_of_range_times_and_counts_become_zero() {
    let mut map = focus_map();
    map.metadata.duration = -5;
    map.last_published_at = Some(-1);
    map.updated_at = Some(1 << 33);
    map.stats = MapStats { upvotes: -3, downvotes: 7 };
    map.versions[0].diffs[0].notes = 5_000_000_000;
    let record = cache_map_data(&map).unwrap();
    assert_eq!(record.duration, 0);
    assert_eq!(record.uploaded, 0);
    assert_eq!(record.last_updated, 0);
    assert_eq!(record.votes.up, 0);
    assert_eq!(record.votes.down, 7);
    assert_eq!(record.difficulties[0].notes, 0);
}

#[test]
fn map_keys_are_read_as_hexadecimal() {
    assert_eq!(parse_map_key("4b6f1"), 308977);
    assert_eq!(parse_map_key("0"), 0);
    assert_eq!(parse_map_key("ABCdef"), 0xabcdef);
    assert_eq!(parse_map_key("+ff"), 255);
    assert_eq!(parse_map_key("ffffffff"), u32::MAX);
}

#[test]
fn map_keys_that_are_no_hexadecimal_u32_become_zero() {
    assert_eq!(parse_map_key(""), 0);
    assert_eq!(parse_map_key("+"), 0);
    assert_eq!(parse_map_key("-1"), 0);
    assert_eq!(parse_map_key("4b6g1"), 0);
    assert_eq!(parse_map_key(" 4b6f1"), 0);
    assert_eq!(parse_map_key("100000000"), 0);
    assert_eq!(parse_map_key("ffffffffff"), 0);
}

#[test]
fn lower_hex_ids_give_their_number_back() {
    for n in [0u32, 1, 15, 16, 255, 0x4b6f1, 0xdead_beef, u32::MAX] {
        assert_eq!(parse_map_key(&format!("{:x}", n)), n);
    }
}

#[test]
fn conversion_to_u32_falls_back_to_zero() {
    assert_eq!(to_u32_or_zero(-1), 0);
    assert_eq!(to_u32_or_zero(0), 0);
    assert_eq!(to_u32_or_zero(42), 42);
    assert_eq!(to_u32_or_zero(4_294_967_295), u32::MAX);
    assert_eq!(to_u32_or_zero(4_294_967_296), 0);
}

#[test]
fn mods_are_encoded_as_bits() {
    assert_eq!(encode_mods(false, false, false, false, false), 0);
    assert_eq!(encode_mods(true, false, false, false, false), 1);
    assert_eq!(encode_mods(false, true, false, false, false), 2);
    assert_eq!(encode_mods(false, false, true, false, false), 4);
    assert_eq!(encode_mods(false, false, false, true, false), 8);
    assert_eq!(encode_mods(false, false, false, false, true), 16);
    assert_eq!(encode_mods(true, true, true, true, true), 31);
}

#[test]
fn map_mods_combine_the_difficulties() {
    let mut version = focus_map().versions[0].clone();
    version.diffs[0].cinema = false;
    version.diffs[1].chroma = true;
    version.diffs[2].ne = true;
    version.diffs[2].cinema = false;
    let mods = get_map_mods(&version);
    assert!(mods.cinema && mods.chroma && mods.noodle_extensions);
    assert!(!mods.mapping_extensions && !mods.vivify);
    let combined = version
        .diffs
        .iter()
        .fold(0u32, |acc, d| acc | generate_protobuf_diff_mods(d));
    assert_eq!(generate_protobuf_map_mods(&version), combined);
    assert_eq!(combined, 1 | 4 | 8);
}

#[test]
fn map_without_difficulties_needs_no_mods() {
    let mut version = focus_map().versions[0].clone();
    version.diffs.clear();
    assert_eq!(generate_protobuf_map_mods(&version), 0);
    assert!(generate_protobuf_diffs(&version).is_empty());
}

#[test]
fn ranked_values_follow_the_star_ratings() {
    let mut diff = difficulty(18.0, 1000, "Expert");
    diff.ss_stars_bits = Some(7.5f32.to_bits());
    let ranked = generate_protobuf_ranked_values(&diff);
    assert_eq!(ranked.score_saber, RankedValue { is_ranked: true, stars_bits: 7.5f32.to_bits() });
    assert_eq!(ranked.beat_leader, RankedValue { is_ranked: false, stars_bits: 0 });
}

#[test]
fn votes_below_zero_become_zero() {
    let votes = generate_protobuf_votes(-1, 12);
    assert_eq!((votes.up, votes.down), (0, 12));
    let votes = generate_protobuf_votes(i32::MAX, i32::MIN);
    assert_eq!((votes.up, votes.down), (i32::MAX as u32, 0));
}

#[test]
fn curator_and_tags_are_copied() {
    let map = focus_map();
    assert_eq!(generate_protobuf_curator(&map), Some("Taranchola".to_string()));
    assert_eq!(generate_protobuf_tags(&map), vec!["tech", "dance-style", "k-pop"]);
    let mut uncurated = map.clone();
    uncurated.curator = None;
    assert_eq!(generate_protobuf_curator(&uncurated), None);
}

fn page_map(id: &str, uploaded: i64, published: bool) -> BeatSaverMap {
    let mut map = focus_map();
    map.id = id.to_string();
    map.uploaded = uploaded;
    if !published {
        map.last_published_at = None;
    }
    map
}

#[test]
fn cache_scan_asks_for_a_page_before_its_time() {
    let scan = CacheScan::new(1_700_000_000);
    assert_eq!(
        scan.next_request(),
        SearchParams { before: 1_700_000_000, page_size: 100, automapper: false }
    );
    assert!(scan.caching);
    assert_eq!(scan.map_list.len(), 0);
}

#[test]
fn cache_scan_caches_a_page_and_stops() {
    let mut scan = CacheScan::new(1_700_000_000);
    let docs = vec![
        page_map("a1", 30, true),
        page_map("a2", 20, false),
        page_map("a3", 10, true),
        page_map("a4", 5, false),
    ];
    let step = scan.on_fetch(FetchOutcome::Page { docs });
    assert_eq!(step, ScanStep::Finished { delay_ms: 100 });
    assert_eq!(scan.map_list.len(), 2);
    assert!(scan.map_list.contains_key(&"a1".to_string()));
    assert!(scan.map_list.contains_key(&"a3".to_string()));
    assert!(!scan.map_list.contains_key(&"a2".to_string()));
    assert_eq!(scan.last_map.as_ref().unwrap().id, "a3");
    assert_eq!(scan.current_time, 10);
    assert_eq!(scan.next_request().before, 10);
}

#[test]
fn cache_scan_ends_on_an_empty_page() {
    let mut scan = CacheScan::new(99);
    let step = scan.on_fetch(FetchOutcome::Page { docs: vec![] });
    assert_eq!(step, ScanStep::Finished { delay_ms: 0 });
    assert!(!scan.caching);
    assert_eq!(scan.current_time, 99);
}

#[test]
fn cache_scan_retries_failed_requests() {
    let mut scan = CacheScan::new(99);
    assert_eq!(scan.on_fetch(FetchOutcome::RequestFailed), ScanStep::Retry { delay_ms: 3000 });
    assert_eq!(scan.on_fetch(FetchOutcome::DecodeFailed), ScanStep::Retry { delay_ms: 0 });
    assert!(scan.caching);
    assert_eq!(scan.current_time, 99);
    assert_eq!(scan.map_list.len(), 0);
}

#[test]
fn cache_scan_page_without_cacheable_maps_keeps_time() {
    let mut scan = CacheScan::new(99);
    let step = scan.on_fetch(FetchOutcome::Page { docs: vec![page_map("b1", 5, false)] });
    assert_eq!(step, ScanStep::Finished { delay_ms: 100 });
    assert!(scan.last_map.is_none());
    assert_eq!(scan.current_time, 99);
    assert_eq!(scan.map_list.len(), 0);
}
