//! The records that the cache holds, and the cache itself.

use vstd::hash_map::StringHashMap;
use vstd::prelude::*;

verus! {

/// Whether a difficulty is ranked on one leaderboard, and its star rating there.
#[derive(Clone, Copy, Debug, PartialEq, Eq, Structural)]
pub struct RankedValue {
    pub is_ranked: bool,
    /// Star rating, as the bits of an `f32`; the bits of `0.0` where unranked.
    pub stars_bits: u32,
}

/// Ranking of a difficulty on ScoreSaber and on BeatLeader.
#[derive(Clone, Copy, Debug, PartialEq, Eq, Structural)]
pub struct Ranked {
    pub score_saber: RankedValue,
    pub beat_leader: RankedValue,
}

/// Vote counts as the cache stores them.
#[derive(Clone, Copy, Debug, PartialEq, Eq, Structural)]
pub struct Votes {
    pub up: u32,
    pub down: u32,
}

/// One difficulty as the cache stores it.
#[derive(Clone, Debug, PartialEq, Eq)]
pub struct Difficulty {
    /// Note jump speed, as the bits of an `f32`.
    pub njs: u32,
    pub notes: u32,
    pub characteristic_name: String,
    pub difficulty_name: String,
    /// Mod bit set, see `cacher::protogen::mod_bits`.
    pub mods: u32,
    pub environment_name: String,
    pub ranked: Ranked,
}

/// Mathematical value of a [`Difficulty`].
pub struct DifficultyView {
    pub njs: u32,
    pub notes: u32,
    pub characteristic_name: Seq<char>,
    pub difficulty_name: Seq<char>,
    pub mods: u32,
    pub environment_name: Seq<char>,
    pub ranked: Ranked,
}

impl View for Difficulty {
    type V = DifficultyView;

    open spec fn view(&self) -> DifficultyView {
        DifficultyView {
            njs: self.njs,
            notes: self.notes,
            characteristic_name: self.characteristic_name@,
            difficulty_name: self.difficulty_name@,
            mods: self.mods,
            environment_name: self.environment_name@,
            ranked: self.ranked,
        }
    }
}

/// One map as the cache stores it.
#[derive(Clone, Debug, PartialEq, Eq)]
pub struct MapMetadata {
    /// The map's key, read as a hexadecimal number.
    pub key: u32,
    pub hash: String,
    pub song_name: String,
    pub song_sub_name: String,
    pub song_author_name: String,
    pub level_author_name: String,
    pub duration: u32,
    /// Time of the last publication, in seconds since the Unix epoch.
    pub uploaded: u32,
    /// Time of the last update, in seconds since the Unix epoch.
    pub last_updated: u32,
    /// Mod bit set of the whole map.
    pub mods: u32,
    pub curator_name: Option<String>,
    pub votes: Votes,
    pub difficulties: Vec<Difficulty>,
}

/// Mathematical value of a [`MapMetadata`].
pub struct MapMetadataView {
    pub key: u32,
    pub hash: Seq<char>,
    pub song_name: Seq<char>,
    pub song_sub_name: Seq<char>,
    pub song_author_name: Seq<char>,
    pub level_author_name: Seq<char>,
    pub duration: u32,
    pub uploaded: u32,
    pub last_updated: u32,
    pub mods: u32,
    pub curator_name: Option<Seq<char>>,
    pub votes: Votes,
    pub difficulties: Seq<DifficultyView>,
}

/// The view of an optional string.
pub open spec fn opt_string_view(s: Option<String>) -> Option<Seq<char>> {
    match s {
        Some(s) => Some(s@),
        None => None,
    }
}

impl View for MapMetadata {
    type V = MapMetadataView;

    open spec fn view(&self) -> MapMetadataView {
        MapMetadataView {
            key: self.key,
            hash: self.hash@,
            song_name: self.song_name@,
            song_sub_name: self.song_sub_name@,
            song_author_name: self.song_author_name@,
            level_author_name: self.level_author_name@,
            duration: self.duration,
            uploaded: self.uploaded,
            last_updated: self.last_updated,
            mods: self.mods,
            curator_name: opt_string_view(self.curator_name),
            votes: self.votes,
            difficulties: self.difficulties@.map_values(|d: Difficulty| d@),
        }
    }
}

impl Difficulty {
    /// A copy of this difficulty.
    pub fn duplicate(&self) -> (r: Difficulty)
        ensures
            r@ == self@,
    {
        Difficulty {
            njs: self.njs,
            notes: self.notes,
            characteristic_name: self.characteristic_name.clone(),
            difficulty_name: self.difficulty_name.clone(),
            mods: self.mods,
            environment_name: self.environment_name.clone(),
            ranked: self.ranked,
        }
    }
}

/// A copy of an optional string.
pub fn copy_opt_string(s: &Option<String>) -> (r: Option<String>)
    ensures
        opt_string_view(r) == opt_string_view(*s),
{
    match s {
        Some(s) => Some(s.clone()),
        None => None,
    }
}

impl MapMetadata {
    /// A copy of this record.
    pub fn duplicate(&self) -> (r: MapMetadata)
        ensures
            r@ == self@,
    {
        let mut difficulties: Vec<Difficulty> = Vec::new();
        let n = self.difficulties.len();
        for i in 0..n
            invariant
                n == self.difficulties@.len(),
                difficulties@.len() == i,
                forall|j: int| 0 <= j < i ==> #[trigger] difficulties@[j]@ == self.difficulties@[j]@,
        {
            difficulties.push(self.difficulties[i].duplicate());
        }
        let r = MapMetadata {
            key: self.key,
            hash: self.hash.clone(),
            song_name: self.song_name.clone(),
            song_sub_name: self.song_sub_name.clone(),
            song_author_name: self.song_author_name.clone(),
            level_author_name: self.level_author_name.clone(),
            duration: self.duration,
            uploaded: self.uploaded,
            last_updated: self.last_updated,
            mods: self.mods,
            curator_name: copy_opt_string(&self.curator_name),
            votes: self.votes,
            difficulties,
        };
        assert(r@.difficulties =~= self@.difficulties);
        r
    }
}


/// The cache: for each map id, the record kept for that map.
///
/// Besides the records, the cache lists the ids it holds, each once, so that
/// the records can be gone through in turn.
pub struct MapList {
    records: StringHashMap<MapMetadata>,
    ids: Vec<String>,
}

impl View for MapList {
    type V = Map<Seq<char>, MapMetadataView>;

    closed spec fn view(&self) -> Map<Seq<char>, MapMetadataView> {
        self.records@.map_values(|m: MapMetadata| m@)
    }
}

impl Default for MapList {
    /// An empty cache.
    fn default() -> (r: MapList)
        ensures
            r@ == Map::<Seq<char>, MapMetadataView>::empty(),
    {
        MapList::new()
    }
}

/// No string occurs twice in `s`.
pub open spec fn distinct_strings(s: Seq<String>) -> bool {
    forall|i: int, j: int| 0 <= i < j < s.len() ==> s[i]@ != s[j]@
}

/// The ids among the first `i` of `ids`.
pub open spec fn ids_before(ids: Seq<String>, i: int) -> Set<Seq<char>> {
    Set::new(|k: Seq<char>| exists|j: int| 0 <= j < i && (#[trigger] ids[j])@ == k)
}

/// `ids` lists the keys of `m`, each once.
pub open spec fn lists_keys<V>(ids: Seq<String>, m: Map<Seq<char>, V>) -> bool {
    &&& distinct_strings(ids)
    &&& forall|i: int| 0 <= i < ids.len() ==> m.contains_key(#[trigger] ids[i]@)
    &&& forall|k: Seq<char>| #[trigger] m.contains_key(k) ==> exists|i: int|
        0 <= i < ids.len() && (#[trigger] ids[i])@ == k
}

impl MapList {
    #[verifier::type_invariant]
    closed spec fn ids_match_records(self) -> bool {
        lists_keys(self.ids@, self.records@)
    }

    /// An empty cache.
    pub fn new() -> (r: MapList)
        ensures
            r@ == Map::<Seq<char>, MapMetadataView>::empty(),
    {
        let r = MapList { records: StringHashMap::new(), ids: Vec::new() };
        assert(r@ =~= Map::<Seq<char>, MapMetadataView>::empty());
        r
    }

    /// The number of maps in the cache.
    pub fn len(&self) -> (r: usize)
        ensures
            r == self@.len(),
    {
        let r = self.records.len();
        assert(self@.dom() =~= self.records@.dom());
        r
    }

    /// Whether the cache holds a record for `id`.
    pub fn contains_key(&self, id: &String) -> (r: bool)
        ensures
            r == self@.contains_key(id@),
    {
        self.records.contains_key(id.as_str())
    }

    /// The record kept for `id`, if there is one.
    pub fn get(&self, id: &String) -> (r: Option<&MapMetadata>)
        ensures
            match r {
                Some(m) => self@.contains_key(id@) && m@ == self@[id@],
                None => !self@.contains_key(id@),
            },
    {
        self.records.get(id.as_str())
    }

    /// Keeps `metadata` as the record for `id`, in place of any earlier one.
    pub fn insert(&mut self, id: String, metadata: MapMetadata)
        ensures
            final(self)@ == old(self)@.insert(id@, metadata@),
    {
        proof {
            use_type_invariant(&*self);
        }
        let mut taken = MapList::new();
        std::mem::swap(&mut taken, self);
        proof {
            use_type_invariant(&taken);
        }
        let MapList { mut records, mut ids } = taken;
        let ghost old_ids = ids@;
        let ghost old_records = records@;
        if !records.contains_key(id.as_str()) {
            ids.push(id.clone());
            proof {
                assert forall|i: int| 0 <= i < old_ids.len() implies old_ids[i]@ != id@ by {
                    assert(old_records.contains_key(old_ids[i]@));
                }
                assert(ids@.last() == id);
                assert forall|i: int| 0 <= i < old_ids.len() implies ids@[i] == old_ids[i] by {}
            }
        }
        records.insert(id, metadata);
        proof {
            assert(lists_keys(ids@, records@)) by {
                assert forall|k: Seq<char>| #[trigger] records@.contains_key(k) implies exists|i: int|
                    0 <= i < ids@.len() && (#[trigger] ids@[i])@ == k by {
                    if k != id@ {
                        let i = choose|i: int| 0 <= i < old_ids.len() && (#[trigger] old_ids[i])@ == k;
                        assert(ids@[i] == old_ids[i]);
                    } else if old_records.contains_key(id@) {
                        let i = choose|i: int| 0 <= i < old_ids.len() && (#[trigger] old_ids[i])@ == k;
                        assert(ids@[i] == old_ids[i]);
                    } else {
                        assert(ids@[ids@.len() - 1]@ == k);
                    }
                }
            }
        }
        *self = MapList { records, ids };
        assert(self@ =~= old(self)@.insert(id@, metadata@));
    }

    /// Drops the record for `id`, giving it back if there was one.
    pub fn remove(&mut self, id: &String) -> (r: Option<MapMetadata>)
        ensures
            final(self)@ == old(self)@.remove(id@),
            match r {
                Some(m) => old(self)@.contains_key(id@) && m@ == old(self)@[id@],
                None => !old(self)@.contains_key(id@),
            },
    {
        proof {
            use_type_invariant(&*self);
        }
        let old_record = match self.records.get(id.as_str()) {
            Some(m) => m.duplicate(),
            None => {
                assert(old(self)@.remove(id@) =~= old(self)@);
                return None;
            },
        };
        let mut taken = MapList::new();
        std::mem::swap(&mut taken, self);
        proof {
            use_type_invariant(&taken);
        }
        let MapList { mut records, mut ids } = taken;
        let ghost old_ids = ids@;
        let ghost old_records = records@;
        let n = ids.len();
        let mut pos: usize = 0;
        while pos < n
            invariant
                n == ids@.len(),
                ids@ == old_ids,
                pos <= n,
                forall|j: int| 0 <= j < pos ==> (#[trigger] old_ids[j])@ != id@,
            ensures
                pos <= n,
                forall|j: int| 0 <= j < pos ==> (#[trigger] old_ids[j])@ != id@,
                pos < n ==> old_ids[pos as int]@ == id@,
            decreases n - pos,
        {
            if ids[pos] == *id {
                break;
            }
            pos = pos + 1;
        }
        proof {
            if pos == n {
                let i = choose|i: int| 0 <= i < old_ids.len() && (#[trigger] old_ids[i])@ == id@;
                assert(false);
            }
        }
        let ghost at = pos as int;
        assert(old_ids[at]@ == id@);
        ids.remove(pos);
        records.remove(id.as_str());
        proof {
            assert forall|a: int, b: int| 0 <= a < b < ids@.len() implies ids@[a]@ != ids@[b]@ by {
                let a2 = if a < at { a } else { a + 1 };
                let b2 = if b < at { b } else { b + 1 };
                assert(ids@[a] == old_ids[a2]);
                assert(ids@[b] == old_ids[b2]);
            }
            assert forall|i: int| 0 <= i < ids@.len() implies records@.contains_key(#[trigger] ids@[i]@) by {
                let i2 = if i < at { i } else { i + 1 };
                assert(ids@[i] == old_ids[i2]);
                assert(old_ids[i2]@ != old_ids[at]@);
            }
            assert forall|k: Seq<char>| #[trigger] records@.contains_key(k) implies exists|i: int|
                0 <= i < ids@.len() && (#[trigger] ids@[i])@ == k by {
                let j = choose|j: int| 0 <= j < old_ids.len() && (#[trigger] old_ids[j])@ == k;
                assert(j != at);
                let i = if j < at { j } else { j - 1 };
                assert(ids@[i] == old_ids[j]);
            }
        }
        *self = MapList { records, ids };
        assert(self@ =~= old(self)@.remove(id@));
        Some(old_record)
    }

    /// Keeps every record of `other`, in place of any earlier one for the same id.
    pub fn extend(&mut self, other: &MapList)
        ensures
            final(self)@ == old(self)@.union_prefer_right(other@),
    {
        let ids = other.ids();
        let n = ids.len();
        let ghost start = self@;
        assert(other@.restrict(ids_before(ids@, 0)) =~= Map::empty());
        assert(start.union_prefer_right(Map::empty()) =~= start);
        for i in 0..n
            invariant
                n == ids@.len(),
                lists_keys(ids@, other@),
                start == old(self)@,
                self@ == start.union_prefer_right(other@.restrict(ids_before(ids@, i as int))),
        {
            let id = &ids[i];
            let record = match other.get(id) {
                Some(m) => m.duplicate(),
                None => {
                    assert(false);
                    return;
                },
            };
            let ghost before = other@.restrict(ids_before(ids@, i as int));
            let ghost after = other@.restrict(ids_before(ids@, i + 1));
            assert(after =~= before.insert(id@, other@[id@]));
            assert(start.union_prefer_right(after) =~= start.union_prefer_right(before).insert(
                id@,
                other@[id@],
            ));
            self.insert(id.clone(), record);
        }
        assert(other@.restrict(ids_before(ids@, n as int)) =~= other@);
    }

    /// A copy of the cache.
    pub fn duplicate(&self) -> (r: MapList)
        ensures
            r@ == self@,
    {
        let mut r = MapList::new();
        r.extend(self);
        assert(r@ =~= self@);
        r
    }

    /// The latest publication time of a map in the cache, if it holds any.
    pub fn latest_upload(&self) -> (r: Option<u32>)
        ensures
            r is None <==> self@.dom().is_empty(),
            r matches Some(t) ==> (exists|k: Seq<char>|
                #[trigger] self@.contains_key(k) && self@[k].uploaded == t),
            r matches Some(t) ==> (forall|k: Seq<char>|
                #[trigger] self@.contains_key(k) ==> self@[k].uploaded <= t),
    {
        let ids = self.ids();
        let n = ids.len();
        let mut best: Option<u32> = None;
        for i in 0..n
            invariant
                n == ids@.len(),
                lists_keys(ids@, self@),
                best is None <==> i == 0,
                best matches Some(t) ==> (exists|j: int|
                    0 <= j < i && self@[(#[trigger] ids@[j])@].uploaded == t),
                best matches Some(t) ==> (forall|j: int|
                    0 <= j < i ==> self@[(#[trigger] ids@[j])@].uploaded <= t),
        {
            let uploaded = match self.get(&ids[i]) {
                Some(m) => m.uploaded,
                None => {
                    assert(false);
                    return None;
                },
            };
            best = match best {
                Some(t) => if uploaded > t { Some(uploaded) } else { Some(t) },
                None => Some(uploaded),
            };
        }
        proof {
            if n == 0 {
                assert forall|k: Seq<char>| !self@.dom().contains(k) by {
                    if self@.contains_key(k) {
                        let j = choose|j: int| 0 <= j < ids@.len() && (#[trigger] ids@[j])@ == k;
                    }
                }
                assert(self@.dom() =~= Set::empty());
            } else {
                assert(self@.contains_key(ids@[0]@));
            }
            if let Some(t) = best {
                let j = choose|j: int| 0 <= j < n && self@[(#[trigger] ids@[j])@].uploaded == t;
                assert(self@.contains_key(ids@[j]@));
                assert forall|k: Seq<char>| #[trigger] self@.contains_key(k) implies self@[k].uploaded <= t by {
                    let j = choose|j: int| 0 <= j < ids@.len() && (#[trigger] ids@[j])@ == k;
                }
            }
        }
        best
    }

    /// The order in which the cache lists its ids.
    pub closed spec fn id_seq(&self) -> Seq<String> {
        self.ids@
    }

    /// The ids of the maps in the cache, each once.
    pub fn ids(&self) -> (r: &Vec<String>)
        ensures
            lists_keys(r@, self@),
            r@ == self.id_seq(),
    {
        proof {
            use_type_invariant(self);
        }
        assert(self@.dom() =~= self.records@.dom());
        &self.ids
    }
}

} // verus!
