//! BeatSaver map data as the caching logic reads it.
//!
//! These types hold, as plain values, the parts of a BeatSaver map that the
//! cacher looks at: times are Unix timestamps in seconds, enumerations that
//! BeatSaver writes as names are kept as their names, and floating-point
//! values are kept as the bit pattern of the `f32` the cache stores.

use vstd::prelude::*;

verus! {

/// Publication state of one version of a map.
#[derive(Clone, Copy, Debug, PartialEq, Eq, Structural)]
pub enum MapState {
    Uploaded,
    Testplay,
    Published,
    Feedback,
    Scheduled,
}

/// What the mapper declared about AI involvement in a map.
#[derive(Clone, Copy, Debug, PartialEq, Eq, Structural)]
pub enum AIDeclarationType {
    Admin,
    Uploader,
    SageScore,
    /// Nothing was declared (BeatSaver's `None`).
    Undeclared,
}

/// Song metadata of a map.
#[derive(Clone, Debug, PartialEq, Eq)]
pub struct SongMetadata {
    /// Length of the song in seconds.
    pub duration: i64,
    pub song_name: String,
    pub song_sub_name: String,
    pub song_author_name: String,
    pub level_author_name: String,
}

/// Vote counts of a map.
#[derive(Clone, Copy, Debug, PartialEq, Eq, Structural)]
pub struct MapStats {
    pub upvotes: i32,
    pub downvotes: i32,
}

/// One difficulty of a map version.
#[derive(Clone, Debug, PartialEq, Eq)]
pub struct MapDifficulty {
    /// Note jump speed, as the bits of an `f32`.
    pub njs_bits: u32,
    pub notes: i64,
    /// Name of the characteristic, such as `Standard`.
    pub characteristic: String,
    /// Name of the difficulty, such as `ExpertPlus`.
    pub difficulty: String,
    pub chroma: bool,
    pub me: bool,
    pub ne: bool,
    pub cinema: bool,
    pub vivify: bool,
    /// Name of the environment, where BeatSaver gives one.
    pub environment: Option<String>,
    /// ScoreSaber star rating, as the bits of an `f32`, where the map is ranked there.
    pub ss_stars_bits: Option<u32>,
    /// BeatLeader star rating, as the bits of an `f32`, where the map is ranked there.
    pub bl_stars_bits: Option<u32>,
}

/// One version of a map.
#[derive(Clone, Debug, PartialEq, Eq)]
pub struct MapVersion {
    pub hash: String,
    pub state: MapState,
    pub diffs: Vec<MapDifficulty>,
}

/// A map as BeatSaver describes it.
#[derive(Clone, Debug, PartialEq, Eq)]
pub struct BeatSaverMap {
    /// The map's key, a hexadecimal number such as `4b6f1`.
    pub id: String,
    pub metadata: SongMetadata,
    pub stats: MapStats,
    /// Upload time.
    pub uploaded: i64,
    pub automapper: bool,
    pub declared_ai: AIDeclarationType,
    /// Versions, newest first.
    pub versions: Vec<MapVersion>,
    /// Name of the curator, where the map was curated.
    pub curator: Option<String>,
    /// Time of the last update, where BeatSaver gives one.
    pub updated_at: Option<i64>,
    /// Time of the last publication, where the map was ever published.
    pub last_published_at: Option<i64>,
    /// Tag names.
    pub tags: Vec<String>,
}

} // verus!
