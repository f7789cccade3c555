use drm_beatsaver_cacher::mapdata::{MapList, MapMetadata, Votes};
use drm_beatsaver_cacher::models::{
    AIDeclarationType, BeatSaverMap, MapDifficulty, MapState, MapStats, MapVersion, SongMetadata,
};
use drm_beatsaver_cacher::websocket::is_ping;
use drm_beatsaver_cacher::websocket::mapactivity::{handle_map_message, MapWebsocketMessage};
use drm_beatsaver_cacher::websocket::voteactivity::{
    apply_vote, update_map, VoteMessage, VoteWebsocketMessage,
};

fn map(id: &str, published: bool) -> BeatSaverMap {
    BeatSaverMap {
        id: id.to_string(),
        metadata: SongMetadata {
            duration: 200,
            song_name: "song".to_string(),
            song_sub_name: "sub".to_string(),
            song_author_name: "artist".to_string(),
            level_author_name: "mapper".to_string(),
        },
        stats: MapStats { upvotes: 10, downvotes: 1 },
        uploaded: 1_700_000_000,
        automapper: false,
        declared_ai: AIDeclarationType::Undeclared,
        versions: vec![MapVersion {
            hash: "0123abcd".to_string(),
            state: if published { MapState::Published } else { MapState::Uploaded },
            diffs: vec![MapDifficulty {
                njs_bits: 18.0f32.to_bits(),
                notes: 900,
                characteristic: "Standard".to_string(),
                difficulty: "ExpertPlus".to_string(),
                chroma: true,
                me: false,
                ne: false,
                cinema: false,
                vivify: false,
                environment: Some("BillieEnvironment".to_string()),
                ss_stars_bits: None,
                bl_stars_bits: Some(9.25f32.to_bits()),
            }],
        }],
        curator: None,
        updated_at: Some(1_700_000_100),
        last_published_at: Some(1_700_000_000),
        tags: vec![],
    }
}

fn update(id: &str, published: bool) -> MapWebsocketMessage {
    MapWebsocketMessage::MapUpdate { msg: Box::new(map(id, published)) }
}

fn vote(id: &str, up: i32, down: i32) -> VoteMessage {
    VoteMessage { hash: "0123abcd".to_string(), map_id: id.to_string(), upvotes: up, downvotes: down }
}

#[test]
fn an_update_caches_the_map() {
    let mut maps = MapList::new();
    assert!(handle_map_message(&mut maps, update("1a", true)));
    let record = maps.get(&"1a".to_string()).unwrap();
    assert_eq!(record.key, 0x1a);
    assert_eq!(record.mods, 4);
    assert_eq!(record.difficulties[0].ranked.beat_leader.stars_bits, 9.25f32.to_bits());
    assert!(record.difficulties[0].ranked.beat_leader.is_ranked);
}

#[test]
fn an_update_of_an_uncached_map_changes_nothing() {
    let mut maps = MapList::new();
    assert!(handle_map_message(&mut maps, update("1a", true)));
    assert!(!handle_map_message(&mut maps, update("1a", false)));
    assert!(maps.contains_key(&"1a".to_string()));
    assert!(!handle_map_message(&mut maps, update("2b", false)));
    assert_eq!(maps.len(), 1);
}

#[test]
fn a_deletion_after_an_update_leaves_no_record() {
    let mut maps = MapList::new();
    handle_map_message(&mut maps, update("1a", true));
    handle_map_message(&mut maps, update("2b", true));
    let stored = handle_map_message(&mut maps, MapWebsocketMessage::MapDelete { msg: "1a".to_string() });
    assert!(!stored);
    assert!(maps.get(&"1a".to_string()).is_none());
    assert!(maps.contains_key(&"2b".to_string()));
    assert_eq!(maps.len(), 1);
}

#[test]
fn pings_are_recognised() {
    assert!(is_ping("[ping]"));
    assert!(is_ping("[ping"));
    assert!(!is_ping("[pin"));
    assert!(!is_ping(" [ping]"));
    assert!(!is_ping("{\"type\":\"VOTE\"}"));
    assert!(!is_ping(""));
}

#[test]
fn update_map_replaces_only_the_votes() {
    let mut maps = MapList::new();
    handle_map_message(&mut maps, update("1a", true));
    let before: MapMetadata = maps.get(&"1a".to_string()).unwrap().clone();
    let after = update_map(before.clone(), vote("1a", 42, -4));
    assert_eq!(after.votes, Votes { up: 42, down: 0 });
    let mut expected = before;
    expected.votes = Votes { up: 42, down: 0 };
    assert_eq!(after, expected);
}

#[test]
fn a_vote_gives_a_copy_with_new_votes() {
    let mut maps = MapList::new();
    handle_map_message(&mut maps, update("1a", true));
    handle_map_message(&mut maps, update("2b", true));
    let updated = apply_vote(&maps, VoteWebsocketMessage::Vote { msg: vote("1a", 500, 3) });
    assert_eq!(updated.get(&"1a".to_string()).unwrap().votes, Votes { up: 500, down: 3 });
    assert_eq!(updated.get(&"2b".to_string()), maps.get(&"2b".to_string()));
    assert_eq!(updated.len(), 2);
    // the cache the vote was applied to keeps its votes
    assert_eq!(maps.get(&"1a".to_string()).unwrap().votes, Votes { up: 10, down: 1 });
}

#[test]
fn a_vote_for_an_unknown_map_changes_nothing() {
    let mut maps = MapList::new();
    handle_map_message(&mut maps, update("1a", true));
    let updated = apply_vote(&maps, VoteWebsocketMessage::Vote { msg: vote("ff", 1, 1) });
    assert_eq!(updated.len(), 1);
    assert!(!updated.contains_key(&"ff".to_string()));
    assert_eq!(updated.get(&"1a".to_string()), maps.get(&"1a".to_string()));
}
