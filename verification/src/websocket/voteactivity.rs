//! Vote updates from the BeatSaver vote websocket.

use vstd::prelude::*;

use crate::cacher::protogen::{generate_protobuf_votes, spec_votes};
use crate::mapdata::{MapList, MapMetadata, MapMetadataView};

verus! {

/// New vote counts for a map.
#[derive(Clone, Debug, PartialEq, Eq)]
pub struct VoteMessage {
    pub hash: String,
    pub map_id: String,
    pub upvotes: i32,
    pub downvotes: i32,
}

/// A message of the vote websocket; votes are its only kind.
#[derive(Clone, Debug, PartialEq, Eq)]
pub enum VoteWebsocketMessage {
    Vote { msg: VoteMessage },
}

/// A record with the vote counts of `new_votes` in place of its own.
pub open spec fn spec_update_map(map: MapMetadataView, new_votes: VoteMessage) -> MapMetadataView {
    MapMetadataView {
        votes: spec_votes(new_votes.upvotes as int, new_votes.downvotes as int),
        ..map
    }
}

/// Replaces the vote counts of a record with those of a vote message.
pub fn update_map(map: MapMetadata, new_votes: VoteMessage) -> (r: MapMetadata)
    ensures
        r@ == spec_update_map(map@, new_votes),
{
    let mut map = map;
    map.votes = generate_protobuf_votes(new_votes.upvotes, new_votes.downvotes);
    map
}

/// The cache with the votes of a message applied to the map it names, where
/// the cache holds that map.
pub open spec fn spec_apply_vote(
    maps: Map<Seq<char>, MapMetadataView>,
    message: VoteWebsocketMessage,
) -> Map<Seq<char>, MapMetadataView> {
    match message {
        VoteWebsocketMessage::Vote { msg } => if maps.contains_key(msg.map_id@) {
            maps.insert(msg.map_id@, spec_update_map(maps[msg.map_id@], msg))
        } else {
            maps
        },
    }
}

/// A copy of the cache with the votes of a message applied. The cache itself
/// is left as it is.
pub fn apply_vote(maps: &MapList, message: VoteWebsocketMessage) -> (r: MapList)
    ensures
        r@ == spec_apply_vote(maps@, message),
{
    match message {
        VoteWebsocketMessage::Vote { msg } => {
            let mut new_maps = maps.duplicate();
            let map_key = msg.map_id.clone();
            match maps.get(&map_key) {
                Some(map) => {
                    let updated = update_map(map.duplicate(), msg);
                    new_maps.insert(map_key, updated);
                },
                None => {},
            }
            new_maps
        },
    }
}

/// A vote changes nothing but the vote counts: the same maps stay cached,
/// and every other part of every record stays as it was.
pub proof fn lemma_vote_only_changes_votes(
    maps: Map<Seq<char>, MapMetadataView>,
    message: VoteWebsocketMessage,
    id: Seq<char>,
)
    ensures
        spec_apply_vote(maps, message).dom() == maps.dom(),
        maps.contains_key(id) ==> spec_apply_vote(maps, message)[id] == (MapMetadataView {
            votes: spec_apply_vote(maps, message)[id].votes,
            ..maps[id]
        }),
{
    assert(spec_apply_vote(maps, message).dom() =~= maps.dom());
}

} // verus!
