use drm_beatsaver_cacher::mapdata::{Difficulty, MapList, MapMetadata, Ranked, RankedValue, Votes};

fn record(key: u32, uploaded: u32) -> MapMetadata {
    MapMetadata {
        key,
        hash: format!("hash{key}"),
        song_name: "song".to_string(),
        song_sub_name: String::new(),
        song_author_name: "artist".to_string(),
        level_author_name: "mapper".to_string(),
        duration: 120,
        uploaded,
        last_updated: uploaded + 1,
        mods: 0,
        curator_name: None,
        votes: Votes { up: 1, down: 2 },
        difficulties: vec![Difficulty {
            njs: 16.0f32.to_bits(),
            notes: 500,
            characteristic_name: "Standard".to_string(),
            difficulty_name: "Expert".to_string(),
            mods: 0,
            environment_name: "DefaultEnvironment".to_string(),
            ranked: Ranked {
                score_saber: RankedValue { is_ranked: false, stars_bits: 0 },
                beat_leader: RankedValue { is_ranked: false, stars_bits: 0 },
            },
        }],
    }
}

fn id(s: &str) -> String {
    s.to_string()
}

#[test]
fn a_lookup_gives_back_what_was_inserted() {
    let mut maps = MapList::new();
    assert_eq!(maps.len(), 0);
    assert!(maps.get(&id("a")).is_none());
    maps.insert(id("a"), record(10, 100));
    maps.insert(id("b"), record(11, 200));
    assert_eq!(maps.len(), 2);
    assert_eq!(maps.get(&id("a")), Some(&record(10, 100)));
    assert_eq!(maps.get(&id("b")), Some(&record(11, 200)));
    assert!(maps.contains_key(&id("a")));
    assert!(!maps.contains_key(&id("c")));
}

#[test]
fn inserting_again_replaces_the_record() {
    let mut maps = MapList::new();
    maps.insert(id("a"), record(10, 100));
    maps.insert(id("a"), record(12, 300));
    assert_eq!(maps.len(), 1);
    assert_eq!(maps.get(&id("a")), Some(&record(12, 300)));
    assert_eq!(maps.ids(), &vec![id("a")]);
}

#[test]
fn removing_drops_only_that_record() {
    let mut maps = MapList::new();
    maps.insert(id("a"), record(10, 100));
    maps.insert(id("b"), record(11, 200));
    maps.insert(id("c"), record(12, 300));
    assert_eq!(maps.remove(&id("b")), Some(record(11, 200)));
    assert_eq!(maps.len(), 2);
    assert!(maps.get(&id("b")).is_none());
    assert_eq!(maps.get(&id("a")), Some(&record(10, 100)));
    assert_eq!(maps.get(&id("c")), Some(&record(12, 300)));
    assert_eq!(maps.remove(&id("b")), None);
    assert_eq!(maps.len(), 2);
    let mut ids = maps.ids().clone();
    ids.sort();
    assert_eq!(ids, vec![id("a"), id("c")]);
}

#[test]
fn extending_prefers_the_new_records() {
    let mut old = MapList::new();
    old.insert(id("a"), record(10, 100));
    old.insert(id("b"), record(11, 200));
    let mut new = MapList::new();
    new.insert(id("b"), record(21, 250));
    new.insert(id("c"), record(22, 300));
    old.extend(&new);
    assert_eq!(old.len(), 3);
    assert_eq!(old.get(&id("a")), Some(&record(10, 100)));
    assert_eq!(old.get(&id("b")), Some(&record(21, 250)));
    assert_eq!(old.get(&id("c")), Some(&record(22, 300)));
    assert_eq!(new.len(), 2);
}

#[test]
fn latest_upload_is_the_newest_publication() {
    let mut maps = MapList::new();
    assert_eq!(maps.latest_upload(), None);
    maps.insert(id("a"), record(10, 100));
    maps.insert(id("b"), record(11, 300));
    maps.insert(id("c"), record(12, 200));
    assert_eq!(maps.latest_upload(), Some(300));
}

#[test]
fn a_copy_holds_the_same_records() {
    let mut maps = MapList::new();
    maps.insert(id("a"), record(10, 100));
    maps.insert(id("b"), record(11, 200));
    let mut copy = maps.duplicate();
    assert_eq!(copy.len(), 2);
    assert_eq!(copy.get(&id("a")), maps.get(&id("a")));
    copy.remove(&id("a"));
    assert_eq!(maps.len(), 2);
}

#[test]
fn records_are_copied_field_by_field() {
    let r = record(10, 100);
    assert_eq!(r.duplicate(), r);
    assert_eq!(r.difficulties[0].duplicate(), r.difficulties[0]);
}
