//! Map updates and deletions from the BeatSaver map websocket.

use vstd::prelude::*;

use crate::cacher::{cache_map_data, record_defined, spec_cache_map_data};
use crate::mapdata::{MapList, MapMetadataView};
use crate::models::BeatSaverMap;

verus! {

/// A message of the map websocket.
#[derive(Debug)]
pub enum MapWebsocketMessage {
    /// The map with this id was deleted.
    MapDelete { msg: String },
    /// The map was uploaded or changed.
    MapUpdate { msg: Box<BeatSaverMap> },
}

/// The inputs on which a message can be applied: an update carries a map
/// whose record can be built.
pub open spec fn message_defined(message: MapWebsocketMessage) -> bool {
    message matches MapWebsocketMessage::MapUpdate { msg } ==> record_defined(*msg)
}

/// The cache after a message: an update keeps the map's record where the
/// cache keeps the map, and leaves the cache as it is otherwise; a deletion
/// drops the map's record.
pub open spec fn spec_apply_map_message(
    maps: Map<Seq<char>, MapMetadataView>,
    message: MapWebsocketMessage,
) -> Map<Seq<char>, MapMetadataView> {
    match message {
        MapWebsocketMessage::MapUpdate { msg } => match spec_cache_map_data(*msg) {
            Some(record) => maps.insert(msg.id@, record),
            None => maps,
        },
        MapWebsocketMessage::MapDelete { msg } => maps.remove(msg@),
    }
}

/// Whether the message stores a new record, after which the cache file is written again.
pub open spec fn spec_stores_record(message: MapWebsocketMessage) -> bool {
    message matches MapWebsocketMessage::MapUpdate { msg } && spec_cache_map_data(*msg) is Some
}

/// Applies a map websocket message to the cache. Gives whether a record was
/// stored, in which case the cache file is to be written again.
pub fn handle_map_message(maps: &mut MapList, message: MapWebsocketMessage) -> (stored: bool)
    requires
        message_defined(message),
    ensures
        final(maps)@ == spec_apply_map_message(old(maps)@, message),
        stored == spec_stores_record(message),
{
    match message {
        MapWebsocketMessage::MapUpdate { msg } => {
            match cache_map_data(&msg) {
                Some(cached_map) => {
                    let id = msg.id.clone();
                    maps.insert(id, cached_map);
                    true
                },
                None => false,
            }
        },
        MapWebsocketMessage::MapDelete { msg } => {
            let _ = maps.remove(&msg);
            false
        },
    }
}

/// Deleting a map after an update of it leaves no record of it, whatever the
/// update stored: the cache is the one before the update without that map.
pub proof fn lemma_delete_after_update(maps: Map<Seq<char>, MapMetadataView>, map: BeatSaverMap)
    ensures
        spec_apply_map_message(
            spec_apply_map_message(maps, MapWebsocketMessage::MapUpdate { msg: Box::new(map) }),
            MapWebsocketMessage::MapDelete { msg: map.id },
        ) == maps.remove(map.id@),
{
    let after = spec_apply_map_message(maps, MapWebsocketMessage::MapUpdate { msg: Box::new(map) });
    assert(after.remove(map.id@) =~= maps.remove(map.id@));
}

/// An update of a map that the cache keeps makes a lookup of its id give its
/// record, and touches no other id.
pub proof fn lemma_update_then_lookup(
    maps: Map<Seq<char>, MapMetadataView>,
    map: BeatSaverMap,
    other: Seq<char>,
)
    requires
        spec_cache_map_data(map) is Some,
        other != map.id@,
    ensures
        ({
            let after = spec_apply_map_message(maps, MapWebsocketMessage::MapUpdate { msg: Box::new(map) });
            &&& after.contains_key(map.id@)
            &&& Some(after[map.id@]) == spec_cache_map_data(map)
            &&& after.contains_key(other) == maps.contains_key(other)
            &&& maps.contains_key(other) ==> after[other] == maps[other]
        }),
{
}

} // verus!
