//! Which BeatSaver maps the cache keeps, and the record it keeps for each.

pub mod protogen;

use vstd::prelude::*;

use crate::cacher::protogen::{
    environments_named, lemma_mod_bits_flags, generate_protobuf_curator, generate_protobuf_diffs,
    generate_protobuf_map_mods, generate_protobuf_votes, mod_bits, spec_difficulty, spec_votes,
    to_u32_or_zero, u32_or_zero,
};
use crate::mapdata::{opt_string_view, MapList, MapMetadata, MapMetadataView};
use crate::models::{AIDeclarationType, BeatSaverMap, MapDifficulty, MapState, MapVersion};

verus! {

/// The mods that some difficulty of a map version needs.
#[derive(Clone, Copy, Debug, PartialEq, Eq, Structural)]
pub struct MapMods {
    pub cinema: bool,
    pub mapping_extensions: bool,
    pub chroma: bool,
    pub noodle_extensions: bool,
    pub vivify: bool,
}

/// For each mod, whether some difficulty in `diffs` needs it.
pub open spec fn spec_map_mods(diffs: Seq<MapDifficulty>) -> MapMods {
    MapMods {
        cinema: exists|i: int| 0 <= i < diffs.len() && (#[trigger] diffs[i]).cinema,
        mapping_extensions: exists|i: int| 0 <= i < diffs.len() && (#[trigger] diffs[i]).me,
        chroma: exists|i: int| 0 <= i < diffs.len() && (#[trigger] diffs[i]).chroma,
        noodle_extensions: exists|i: int| 0 <= i < diffs.len() && (#[trigger] diffs[i]).ne,
        vivify: exists|i: int| 0 <= i < diffs.len() && (#[trigger] diffs[i]).vivify,
    }
}

/// The mods that the difficulties of a map version need, taken together.
pub fn get_map_mods(map_version: &MapVersion) -> (mods: MapMods)
    ensures
        mods == spec_map_mods(map_version.diffs@),
{
    let mut mods = MapMods {
        cinema: false,
        mapping_extensions: false,
        chroma: false,
        noodle_extensions: false,
        vivify: false,
    };
    let n = map_version.diffs.len();
    for i in 0..n
        invariant
            n == map_version.diffs@.len(),
            mods == spec_map_mods(map_version.diffs@.take(i as int)),
    {
        let diff = &map_version.diffs[i];
        if diff.chroma {
            mods.chroma = true;
        }
        if diff.cinema {
            mods.cinema = true;
        }
        if diff.me {
            mods.mapping_extensions = true;
        }
        if diff.ne {
            mods.noodle_extensions = true;
        }
        if diff.vivify {
            mods.vivify = true;
        }
        let ghost prefix = map_version.diffs@.take(i + 1);
        assert(prefix[i as int] == map_version.diffs@[i as int]);
        assert(forall|j: int| 0 <= j < i ==> prefix[j] == map_version.diffs@.take(i as int)[j]);
    }
    assert(map_version.diffs@.take(n as int) =~= map_version.diffs@);
    mods
}


/// Whether the cache keeps a map: it has been published, its newest version is
/// published, nothing about AI was declared for it, and it is not automapped.
pub open spec fn spec_should_cache_map(map: BeatSaverMap) -> bool {
    &&& map.last_published_at is Some
    &&& map.versions@[0].state == MapState::Published
    &&& map.declared_ai == AIDeclarationType::Undeclared
    &&& !map.automapper
}

/// The inputs on which deciding whether to cache a map is defined: a map that
/// was published has a version to look at.
pub open spec fn has_versions_if_published(map: BeatSaverMap) -> bool {
    map.last_published_at is Some ==> map.versions@.len() > 0
}

/// Decides whether the cache keeps a map.
pub fn should_cache_map(map: &BeatSaverMap) -> (r: bool)
    requires
        has_versions_if_published(*map),
    ensures
        r == spec_should_cache_map(*map),
{
    // not published yet
    if map.last_published_at.is_none() {
        return false;
    }
    // the newest version is not published
    if map.versions[0].state != MapState::Published {
        return false;
    }
    // AI-generated (map or song)
    if map.declared_ai != AIDeclarationType::Undeclared {
        return false;
    }
    if map.automapper {
        return false;
    }
    true
}

/// Value of a hexadecimal digit.
pub open spec fn hex_digit(c: char) -> Option<nat> {
    let v = c as u32;
    if 0x30 <= v <= 0x39 {
        Some((v - 0x30) as nat)
    } else if 0x61 <= v <= 0x66 {
        Some((v - 0x61 + 10) as nat)
    } else if 0x41 <= v <= 0x46 {
        Some((v - 0x41 + 10) as nat)
    } else {
        None
    }
}

/// Every character of `s` is a hexadecimal digit.
pub open spec fn all_hex_digits(s: Seq<char>) -> bool {
    forall|i: int| 0 <= i < s.len() ==> (#[trigger] hex_digit(s[i])) is Some
}

/// The number that the hexadecimal digits `s` write.
pub open spec fn hex_value(s: Seq<char>) -> nat
    decreases s.len(),
{
    if s.len() == 0 {
        0
    } else {
        hex_value(s.drop_last()) * 16 + match hex_digit(s.last()) {
            Some(d) => d,
            None => 0,
        }
    }
}

/// The digits of a key: the text after an optional leading `+`.
pub open spec fn key_digits(s: Seq<char>) -> Seq<char> {
    if s.len() > 0 && s[0] == '+' {
        s.skip(1)
    } else {
        s
    }
}

/// A hexadecimal `u32`: an optional `+` and then at least one hexadecimal
/// digit, of a value that fits in 32 bits.
pub open spec fn parse_hex_u32(s: Seq<char>) -> Option<u32> {
    let d = key_digits(s);
    if d.len() > 0 && all_hex_digits(d) && hex_value(d) <= u32::MAX {
        Some(hex_value(d) as u32)
    } else {
        None
    }
}

/// The key that the cache stores for a map id: the id read as a hexadecimal
/// number, or 0 where it is not one.
pub open spec fn spec_map_key(id: Seq<char>) -> u32 {
    match parse_hex_u32(id) {
        Some(v) => v,
        None => 0,
    }
}

fn hex_digit_value(c: char) -> (r: Option<u64>)
    ensures
        match r {
            Some(d) => hex_digit(c) == Some(d as nat) && d < 16,
            None => hex_digit(c) is None,
        },
{
    let v = c as u32;
    if 0x30 <= v && v <= 0x39 {
        Some((v - 0x30) as u64)
    } else if 0x61 <= v && v <= 0x66 {
        Some((v - 0x61 + 10) as u64)
    } else if 0x41 <= v && v <= 0x46 {
        Some((v - 0x41 + 10) as u64)
    } else {
        None
    }
}

proof fn lemma_hex_value_push(t: Seq<char>, c: char)
    ensures
        hex_value(t.push(c)) == hex_value(t) * 16 + match hex_digit(c) {
            Some(d) => d,
            None => 0,
        },
{
    assert(t.push(c).drop_last() =~= t);
}

/// Reads a map id as a hexadecimal number, giving 0 where it is not one that
/// fits in a `u32`.
pub fn parse_map_key(id: &str) -> (r: u32)
    ensures
        r == spec_map_key(id@),
{
    let len = id.unicode_len();
    let mut start: usize = 0;
    if len > 0 && id.get_char(0) == '+' {
        start = 1;
    }
    let ghost digits = key_digits(id@);
    assert(digits =~= id@.skip(start as int));
    if start >= len {
        return 0;
    }
    let mut acc: u64 = 0;
    let mut overflow = false;
    let mut i: usize = start;
    assert(digits.take(0) =~= Seq::<char>::empty());
    while i < len
        invariant
            start <= i <= len,
            len == id@.len(),
            start < len,
            digits == id@.skip(start as int),
            digits == key_digits(id@),
            all_hex_digits(digits.take(i - start)),
            !overflow ==> acc == hex_value(digits.take(i - start)) && acc <= u32::MAX,
            overflow ==> hex_value(digits.take(i - start)) > u32::MAX,
        decreases len - i,
    {
        let c = id.get_char(i);
        let ghost before = digits.take(i - start);
        assert(digits.take(i - start + 1) =~= before.push(c));
        proof {
            lemma_hex_value_push(before, c);
        }
        match hex_digit_value(c) {
            None => {
                assert(!all_hex_digits(digits)) by {
                    assert(digits[i - start] == c);
                    assert(hex_digit(digits[i - start]) is None);
                }
                return 0;
            },
            Some(d) => {
                if !overflow {
                    acc = acc * 16 + d;
                    if acc > 0xffff_ffff {
                        overflow = true;
                    }
                }
            },
        }
        i = i + 1;
    }
    assert(digits.take(len - start) =~= digits);
    if overflow {
        0
    } else {
        acc as u32
    }
}

/// The lowercase hexadecimal digit for a value below 16.
pub open spec fn hex_char(d: nat) -> char {
    if d < 10 {
        (0x30 + d) as char
    } else {
        (0x61 + d - 10) as char
    }
}

/// The lowercase hexadecimal numeral of `n`, without leading zeros, as
/// BeatSaver writes map ids.
pub open spec fn lower_hex(n: nat) -> Seq<char>
    decreases n,
{
    if n < 16 {
        seq![hex_char(n)]
    } else {
        lower_hex(n / 16).push(hex_char(n % 16))
    }
}

proof fn lemma_lower_hex(n: nat)
    ensures
        lower_hex(n).len() > 0,
        lower_hex(n)[0] != '+',
        all_hex_digits(lower_hex(n)),
        hex_value(lower_hex(n)) == n,
    decreases n,
{
    let c = hex_char(n % 16);
    assert(hex_digit(c) == Some(n % 16));
    if n < 16 {
        let s = lower_hex(n);
        assert(s.drop_last() =~= Seq::<char>::empty());
        assert(hex_value(s) == hex_value(s.drop_last()) * 16 + n);
    } else {
        lemma_lower_hex(n / 16);
        let t = lower_hex(n / 16);
        lemma_hex_value_push(t, c);
        assert(lower_hex(n) == t.push(c));
        assert(lower_hex(n)[0] == t[0]);
        assert forall|i: int| 0 <= i < t.len() + 1 implies (#[trigger] hex_digit(t.push(c)[i])) is Some by {
            if i < t.len() {
                assert(t.push(c)[i] == t[i]);
            }
        }
    }
}

/// Reading a map id back: the key of the lowercase hexadecimal numeral of a
/// number that fits in 32 bits is that number.
pub proof fn lemma_key_of_lower_hex(n: u32)
    ensures
        spec_map_key(lower_hex(n as nat)) == n,
{
    lemma_lower_hex(n as nat);
    assert(key_digits(lower_hex(n as nat)) == lower_hex(n as nat));
}

/// Where the cache keeps a map and BeatSaver gives its update time.
pub open spec fn cacheable(map: BeatSaverMap) -> bool {
    spec_should_cache_map(map) && map.updated_at is Some
}

/// The inputs on which building a map's record is defined: those on which
/// deciding whether to cache it is, and where it is cached, every difficulty
/// of its newest version names its environment.
pub open spec fn record_defined(map: BeatSaverMap) -> bool {
    &&& has_versions_if_published(map)
    &&& cacheable(map) ==> environments_named(map.versions@[0])
}

/// The record that the cache keeps for a cacheable map.
pub open spec fn spec_map_record(map: BeatSaverMap) -> MapMetadataView {
    let version = map.versions@[0];
    let mods = spec_map_mods(version.diffs@);
    MapMetadataView {
        key: spec_map_key(map.id@),
        hash: version.hash@,
        song_name: map.metadata.song_name@,
        song_sub_name: map.metadata.song_sub_name@,
        song_author_name: map.metadata.song_author_name@,
        level_author_name: map.metadata.level_author_name@,
        duration: u32_or_zero(map.metadata.duration as int),
        uploaded: u32_or_zero(map.last_published_at->0 as int),
        last_updated: u32_or_zero(map.updated_at->0 as int),
        mods: mod_bits(
            mods.cinema,
            mods.mapping_extensions,
            mods.chroma,
            mods.noodle_extensions,
            mods.vivify,
        ) as u32,
        curator_name: opt_string_view(map.curator),
        votes: spec_votes(map.stats.upvotes as int, map.stats.downvotes as int),
        difficulties: version.diffs@.map_values(|d: MapDifficulty| spec_difficulty(d)),
    }
}

/// The record that the cache keeps for a map, if it keeps one.
pub open spec fn spec_cache_map_data(map: BeatSaverMap) -> Option<MapMetadataView> {
    if cacheable(map) {
        Some(spec_map_record(map))
    } else {
        None
    }
}

/// Builds the record that the cache keeps for a map, or `None` where the
/// cache does not keep it.
pub fn cache_map_data(map: &BeatSaverMap) -> (r: Option<MapMetadata>)
    requires
        record_defined(*map),
    ensures
        match r {
            Some(m) => spec_cache_map_data(*map) == Some(m@),
            None => spec_cache_map_data(*map) is None,
        },
{
    if !should_cache_map(map) {
        return None;
    }
    let uploaded = match map.last_published_at {
        Some(t) => t,
        None => return None,
    };
    let last_updated = match map.updated_at {
        Some(t) => t,
        None => return None,
    };
    let version = &map.versions[0];
    let difficulties = generate_protobuf_diffs(version);
    let cached_map = MapMetadata {
        key: parse_map_key(map.id.as_str()),
        hash: version.hash.clone(),
        song_name: map.metadata.song_name.clone(),
        song_sub_name: map.metadata.song_sub_name.clone(),
        song_author_name: map.metadata.song_author_name.clone(),
        level_author_name: map.metadata.level_author_name.clone(),
        duration: to_u32_or_zero(map.metadata.duration),
        uploaded: to_u32_or_zero(uploaded),
        last_updated: to_u32_or_zero(last_updated),
        mods: generate_protobuf_map_mods(version),
        curator_name: generate_protobuf_curator(map),
        votes: generate_protobuf_votes(map.stats.upvotes, map.stats.downvotes),
        difficulties,
    };
    Some(cached_map)
}


/// The cache keeps a map only where it was published, its newest version is
/// published, no AI involvement of any kind was declared for it (by an admin,
/// by the uploader or by SageScore), it is not automapped, and BeatSaver gives
/// its update time; a map it does not keep gets no record, and every map that
/// meets all of these gets one.
pub proof fn lemma_cache_decision(map: BeatSaverMap)
    ensures
        map.declared_ai != AIDeclarationType::Undeclared ==> !spec_should_cache_map(map)
            && spec_cache_map_data(map) is None,
        map.last_published_at is None ==> !spec_should_cache_map(map) && spec_cache_map_data(map) is None,
        map.automapper ==> !spec_should_cache_map(map) && spec_cache_map_data(map) is None,
        map.versions@[0].state != MapState::Published ==> !spec_should_cache_map(map)
            && spec_cache_map_data(map) is None,
        map.updated_at is None ==> spec_cache_map_data(map) is None,
        (map.last_published_at is Some && map.versions@[0].state == MapState::Published
            && map.declared_ai == AIDeclarationType::Undeclared && !map.automapper) ==> spec_should_cache_map(
            map,
        ),
        (map.last_published_at is Some && map.versions@[0].state == MapState::Published
            && map.declared_ai == AIDeclarationType::Undeclared && !map.automapper
            && map.updated_at is Some) ==> spec_cache_map_data(map) is Some,
{
}

/// A record's mod bit set says which mods the map needs: its bit for a mod
/// is set exactly where some difficulty of the newest version needs that mod
/// (cinema bit 0, Mapping Extensions bit 1, Chroma bit 2, Noodle Extensions
/// bit 3, Vivify bit 4), and no other bit is set.
pub proof fn lemma_record_mods_are_the_needed_mods(map: BeatSaverMap)
    ensures
        spec_cache_map_data(map) matches Some(r) ==> {
            let diffs = map.versions@[0].diffs@;
            &&& r.mods < 32
            &&& (r.mods & 1u32 == 1u32) == (exists|i: int| 0 <= i < diffs.len() && (#[trigger] diffs[i]).cinema)
            &&& (r.mods & 2u32 == 2u32) == (exists|i: int| 0 <= i < diffs.len() && (#[trigger] diffs[i]).me)
            &&& (r.mods & 4u32 == 4u32) == (exists|i: int| 0 <= i < diffs.len() && (#[trigger] diffs[i]).chroma)
            &&& (r.mods & 8u32 == 8u32) == (exists|i: int| 0 <= i < diffs.len() && (#[trigger] diffs[i]).ne)
            &&& (r.mods & 16u32 == 16u32) == (exists|i: int| 0 <= i < diffs.len() && (#[trigger] diffs[i]).vivify)
        },
{
    let m = spec_map_mods(map.versions@[0].diffs@);
    lemma_mod_bits_flags(m.cinema, m.mapping_extensions, m.chroma, m.noodle_extensions, m.vivify);
}

/// What a record holds, field by field, in terms of the map it was built
/// from: the key read from the id, the newest version's hash, the song's
/// names, the times and counts where they fit in 32 bits (0 otherwise), the
/// curator, and one difficulty record per difficulty of the newest version,
/// in order, with its own values.
pub proof fn lemma_record_of_a_map(map: BeatSaverMap)
    ensures
        spec_cache_map_data(map) matches Some(r) ==> {
            let version = map.versions@[0];
            let diffs = version.diffs@;
            &&& r.key == spec_map_key(map.id@)
            &&& r.hash == version.hash@
            &&& r.song_name == map.metadata.song_name@
            &&& r.song_sub_name == map.metadata.song_sub_name@
            &&& r.song_author_name == map.metadata.song_author_name@
            &&& r.level_author_name == map.metadata.level_author_name@
            &&& (0 <= map.metadata.duration <= u32::MAX ==> r.duration == map.metadata.duration)
            &&& (!(0 <= map.metadata.duration <= u32::MAX) ==> r.duration == 0)
            &&& (0 <= map.last_published_at->0 <= u32::MAX ==> r.uploaded == map.last_published_at->0)
            &&& (!(0 <= map.last_published_at->0 <= u32::MAX) ==> r.uploaded == 0)
            &&& (0 <= map.updated_at->0 <= u32::MAX ==> r.last_updated == map.updated_at->0)
            &&& (!(0 <= map.updated_at->0 <= u32::MAX) ==> r.last_updated == 0)
            &&& r.curator_name == opt_string_view(map.curator)
            &&& (map.stats.upvotes >= 0 ==> r.votes.up == map.stats.upvotes)
            &&& (map.stats.upvotes < 0 ==> r.votes.up == 0)
            &&& (map.stats.downvotes >= 0 ==> r.votes.down == map.stats.downvotes)
            &&& (map.stats.downvotes < 0 ==> r.votes.down == 0)
            &&& r.difficulties.len() == diffs.len()
            &&& forall|i: int| 0 <= i < diffs.len() ==> {
                let d = #[trigger] r.difficulties[i];
                let src = diffs[i];
                &&& d.njs == src.njs_bits
                &&& (0 <= src.notes <= u32::MAX ==> d.notes == src.notes)
                &&& (!(0 <= src.notes <= u32::MAX) ==> d.notes == 0)
                &&& d.characteristic_name == src.characteristic@
                &&& d.difficulty_name == src.difficulty@
                &&& (src.environment matches Some(e) ==> d.environment_name == e@)
                &&& d.ranked.score_saber.is_ranked == src.ss_stars_bits is Some
                &&& (src.ss_stars_bits matches Some(b) ==> d.ranked.score_saber.stars_bits == b)
                &&& (src.ss_stars_bits is None ==> d.ranked.score_saber.stars_bits == 0)
                &&& d.ranked.beat_leader.is_ranked == src.bl_stars_bits is Some
                &&& (src.bl_stars_bits matches Some(b) ==> d.ranked.beat_leader.stars_bits == b)
                &&& (src.bl_stars_bits is None ==> d.ranked.beat_leader.stars_bits == 0)
                &&& (d.mods & 1u32 == 1u32) == src.cinema
                &&& (d.mods & 2u32 == 2u32) == src.me
                &&& (d.mods & 4u32 == 4u32) == src.chroma
                &&& (d.mods & 8u32 == 8u32) == src.ne
                &&& (d.mods & 16u32 == 16u32) == src.vivify
                &&& d.mods < 32
            }
        },
{
    if spec_cache_map_data(map) is Some {
        let r = spec_map_record(map);
        let diffs = map.versions@[0].diffs@;
        assert forall|i: int| 0 <= i < diffs.len() implies {
            let d = #[trigger] r.difficulties[i];
            let src = diffs[i];
            &&& (d.mods & 1u32 == 1u32) == src.cinema
            &&& (d.mods & 2u32 == 2u32) == src.me
            &&& (d.mods & 4u32 == 4u32) == src.chroma
            &&& (d.mods & 8u32 == 8u32) == src.ne
            &&& (d.mods & 16u32 == 16u32) == src.vivify
            &&& d.mods < 32
        } by {
            let src = diffs[i];
            lemma_mod_bits_flags(src.cinema, src.me, src.chroma, src.ne, src.vivify);
        }
    }
}

/// What the cache scan asks BeatSaver for: the latest maps uploaded before
/// `before`, a page of `page_size` at a time, automapped maps included only
/// where `automapper` is set.
#[derive(Clone, Copy, Debug, PartialEq, Eq, Structural)]
pub struct SearchParams {
    pub before: i64,
    pub page_size: u32,
    pub automapper: bool,
}

/// What a request for the latest maps came back with.
#[derive(Debug)]
pub enum FetchOutcome {
    /// A page of maps, newest first.
    Page { docs: Vec<BeatSaverMap> },
    /// The request failed, such as with a status other than 200.
    RequestFailed,
    /// The response could not be decoded.
    DecodeFailed,
}

/// What the cache scan does next: wait `delay_ms` milliseconds and then
/// request again, or wait `delay_ms` milliseconds and stop.
#[derive(Clone, Copy, Debug, PartialEq, Eq, Structural)]
pub enum ScanStep {
    Retry { delay_ms: u64 },
    Finished { delay_ms: u64 },
}

/// The state of building a cache from BeatSaver's latest maps.
pub struct CacheScan {
    /// Maps uploaded before this time are requested next.
    pub current_time: i64,
    /// The last map that was cached.
    pub last_map: Option<BeatSaverMap>,
    /// The cache built so far.
    pub map_list: MapList,
    /// Whether there may be more maps to request.
    pub caching: bool,
}

/// The cache after the maps of a page, in order: each map that the cache
/// keeps gets its record.
pub open spec fn cache_page(
    maps: Map<Seq<char>, MapMetadataView>,
    docs: Seq<BeatSaverMap>,
) -> Map<Seq<char>, MapMetadataView>
    decreases docs.len(),
{
    if docs.len() == 0 {
        maps
    } else {
        let before = cache_page(maps, docs.drop_last());
        match spec_cache_map_data(docs.last()) {
            Some(record) => before.insert(docs.last().id@, record),
            None => before,
        }
    }
}

/// The last map of a page that the cache keeps.
pub open spec fn last_cached(docs: Seq<BeatSaverMap>) -> Option<BeatSaverMap>
    decreases docs.len(),
{
    if docs.len() == 0 {
        None
    } else if cacheable(docs.last()) {
        Some(docs.last())
    } else {
        last_cached(docs.drop_last())
    }
}

/// Every map of a page is one whose record can be built.
pub open spec fn page_defined(docs: Seq<BeatSaverMap>) -> bool {
    forall|i: int| 0 <= i < docs.len() ==> record_defined(#[trigger] docs[i])
}

/// The page size of the scan's requests.
pub const PAGE_SIZE: u32 = 100;

/// How long the scan waits after a page, in milliseconds.
pub const PAGE_DELAY_MS: u64 = 100;

/// How long the scan waits after a failed request, in milliseconds.
pub const RETRY_DELAY_MS: u64 = 3000;

impl CacheScan {
    /// A scan that starts with the maps uploaded before `start_time`.
    pub fn new(start_time: i64) -> (r: CacheScan)
        ensures
            r.current_time == start_time,
            r.last_map is None,
            r.map_list@ == Map::<Seq<char>, MapMetadataView>::empty(),
            r.caching,
    {
        CacheScan { current_time: start_time, last_map: None, map_list: MapList::new(), caching: true }
    }

    /// The request that the scan makes next.
    pub fn next_request(&self) -> (r: SearchParams)
        ensures
            r == (SearchParams { before: self.current_time, page_size: PAGE_SIZE, automapper: false }),
    {
        SearchParams { before: self.current_time, page_size: PAGE_SIZE, automapper: false }
    }

    /// Takes in what a request came back with, and says what to do next.
    ///
    /// An empty page ends the scan. A page with maps is cached, the scan moves
    /// on to the time of the last map it cached, and stops after a short
    /// wait. A failed request is made again after a longer wait; a response
    /// that could not be decoded is requested again at once.
    pub fn on_fetch(&mut self, outcome: FetchOutcome) -> (step: ScanStep)
        requires
            outcome matches FetchOutcome::Page { docs } ==> page_defined(docs@),
        ensures
            match outcome {
                FetchOutcome::Page { docs } => if docs@.len() == 0 {
                    &&& step == ScanStep::Finished { delay_ms: 0 }
                    &&& !final(self).caching
                    &&& final(self).map_list@ == old(self).map_list@
                    &&& final(self).last_map == old(self).last_map
                    &&& final(self).current_time == old(self).current_time
                } else {
                    &&& step == ScanStep::Finished { delay_ms: PAGE_DELAY_MS }
                    &&& final(self).caching == old(self).caching
                    &&& final(self).map_list@ == cache_page(old(self).map_list@, docs@)
                    &&& final(self).last_map == match last_cached(docs@) {
                        Some(m) => Some(m),
                        None => old(self).last_map,
                    }
                    &&& final(self).current_time == match final(self).last_map {
                        Some(m) => m.uploaded,
                        None => old(self).current_time,
                    }
                },
                FetchOutcome::RequestFailed => {
                    &&& step == ScanStep::Retry { delay_ms: RETRY_DELAY_MS }
                    &&& final(self).caching == old(self).caching
                    &&& final(self).map_list@ == old(self).map_list@
                    &&& final(self).last_map == old(self).last_map
                    &&& final(self).current_time == old(self).current_time
                },
                FetchOutcome::DecodeFailed => {
                    &&& step == ScanStep::Retry { delay_ms: 0 }
                    &&& final(self).caching == old(self).caching
                    &&& final(self).map_list@ == old(self).map_list@
                    &&& final(self).last_map == old(self).last_map
                    &&& final(self).current_time == old(self).current_time
                },
            },
    {
        match outcome {
            FetchOutcome::Page { docs } => {
                if docs.len() == 0 {
                    self.caching = false;
                    return ScanStep::Finished { delay_ms: 0 };
                }
                let mut docs = docs;
                let n = docs.len();
                let mut last_index: Option<usize> = None;
                let ghost start = self.map_list@;
                let ghost caching0 = self.caching;
                let ghost last0 = self.last_map;
                let ghost time0 = self.current_time;
                assert(docs@.take(0) =~= Seq::<BeatSaverMap>::empty());
                for i in 0..n
                    invariant
                        n == docs@.len(),
                        page_defined(docs@),
                        self.map_list@ == cache_page(start, docs@.take(i as int)),
                        self.caching == caching0,
                        self.last_map == last0,
                        self.current_time == time0,
                        match last_index {
                            Some(j) => j < i && last_cached(docs@.take(i as int)) == Some(docs@[j as int]),
                            None => last_cached(docs@.take(i as int)) is None,
                        },
                {
                    let ghost prefix = docs@.take(i + 1);
                    assert(prefix.drop_last() =~= docs@.take(i as int));
                    assert(prefix.last() == docs@[i as int]);
                    assert(record_defined(docs@[i as int]));
                    match cache_map_data(&docs[i]) {
                        Some(cached_map) => {
                            let map_key = docs[i].id.clone();
                            self.map_list.insert(map_key, cached_map);
                            last_index = Some(i);
                        },
                        None => {},
                    }
                }
                assert(docs@.take(n as int) =~= docs@);
                match last_index {
                    Some(j) => {
                        let map = docs.remove(j);
                        self.current_time = map.uploaded;
                        self.last_map = Some(map);
                    },
                    None => {
                        match &self.last_map {
                            Some(map) => {
                                self.current_time = map.uploaded;
                            },
                            None => {},
                        }
                    },
                }
                ScanStep::Finished { delay_ms: PAGE_DELAY_MS }
            },
            FetchOutcome::RequestFailed => ScanStep::Retry { delay_ms: RETRY_DELAY_MS },
            FetchOutcome::DecodeFailed => ScanStep::Retry { delay_ms: 0 },
        }
    }
}

/// A page never drops a cached map: every id cached before is cached after,
/// and every id cached after was cached before or belongs to a map of the
/// page that the cache keeps.
pub proof fn lemma_page_only_adds(maps: Map<Seq<char>, MapMetadataView>, docs: Seq<BeatSaverMap>)
    ensures
        forall|k: Seq<char>| maps.contains_key(k) ==> #[trigger] cache_page(maps, docs).contains_key(k),
        forall|k: Seq<char>|
            #[trigger] cache_page(maps, docs).contains_key(k) ==> maps.contains_key(k) || exists|i: int|
                0 <= i < docs.len() && cacheable(#[trigger] docs[i]) && docs[i].id@ == k,
    decreases docs.len(),
{
    if docs.len() > 0 {
        let rest = docs.drop_last();
        lemma_page_only_adds(maps, rest);
        assert forall|k: Seq<char>| maps.contains_key(k) implies #[trigger] cache_page(
            maps,
            docs,
        ).contains_key(k) by {
            assert(cache_page(maps, rest).contains_key(k));
        }
        assert forall|k: Seq<char>|
            #[trigger] cache_page(maps, docs).contains_key(k) implies maps.contains_key(k) || exists|i: int|
                0 <= i < docs.len() && cacheable(#[trigger] docs[i]) && docs[i].id@ == k by {
            if !maps.contains_key(k) {
                if cache_page(maps, rest).contains_key(k) {
                    let i = choose|i: int| 0 <= i < rest.len() && cacheable(#[trigger] rest[i]) && rest[i].id@ == k;
                    assert(docs[i] == rest[i]);
                } else {
                    assert(docs[docs.len() - 1] == docs.last());
                }
            }
        }
    }
}

/// Whether the cache keeps some map of the page with id `k`.
pub open spec fn page_keeps(docs: Seq<BeatSaverMap>, k: Seq<char>) -> bool {
    exists|i: int| 0 <= i < docs.len() && cacheable(#[trigger] docs[i]) && docs[i].id@ == k
}

/// After a page the scan moves on to the last map of the page that the cache
/// keeps: it is a map of the page, the cache keeps it, and it keeps none that
/// come after it; where the cache keeps no map of the page, there is none.
pub proof fn lemma_scan_moves_to_last_kept(docs: Seq<BeatSaverMap>)
    ensures
        last_cached(docs) is None <==> (forall|j: int| 0 <= j < docs.len() ==> !cacheable(#[trigger] docs[j])),
        last_cached(docs) matches Some(m) ==> exists|i: int|
            0 <= i < docs.len() && docs[i] == m && cacheable(m) && forall|j: int|
                i < j < docs.len() ==> !cacheable(#[trigger] docs[j]),
    decreases docs.len(),
{
    if docs.len() > 0 {
        let rest = docs.drop_last();
        let n = docs.len() - 1;
        lemma_scan_moves_to_last_kept(rest);
        assert forall|j: int| 0 <= j < rest.len() implies rest[j] == docs[j] by {}
        if cacheable(docs.last()) {
            assert(docs[n] == docs.last());
        } else {
            assert(docs[n] == docs.last());
            if last_cached(rest) is None {
                assert forall|j: int| 0 <= j < docs.len() implies !cacheable(#[trigger] docs[j]) by {
                    if j < n {
                        assert(rest[j] == docs[j]);
                    }
                }
            } else {
                let m = last_cached(rest)->0;
                let i = choose|i: int|
                    0 <= i < rest.len() && rest[i] == m && cacheable(m) && forall|j: int|
                        i < j < rest.len() ==> !cacheable(#[trigger] rest[j]);
                assert(docs[i] == m);
                assert forall|j: int| i < j < docs.len() implies !cacheable(#[trigger] docs[j]) by {
                    if j < n {
                        assert(rest[j] == docs[j]);
                    }
                }
                assert(!(forall|j: int| 0 <= j < docs.len() ==> !cacheable(#[trigger] docs[j])));
            }
        }
    }
}

/// After a page, an id of a map of the page that the cache keeps holds the
/// record of the last such map with that id; every other id holds what it
/// held before the page, and ids that were not cached stay uncached.
pub proof fn lemma_page_records(maps: Map<Seq<char>, MapMetadataView>, docs: Seq<BeatSaverMap>)
    ensures
        forall|k: Seq<char>| #[trigger] page_keeps(docs, k) ==> cache_page(maps, docs).contains_key(k) && exists|i: int|
            0 <= i < docs.len() && cacheable(#[trigger] docs[i]) && docs[i].id@ == k && cache_page(maps, docs)[k]
                == spec_map_record(docs[i]) && forall|j: int|
                i < j < docs.len() && docs[j].id@ == k ==> !cacheable(#[trigger] docs[j]),
        forall|k: Seq<char>| !#[trigger] page_keeps(docs, k) ==> cache_page(maps, docs).contains_key(k) == maps.contains_key(k)
            && (maps.contains_key(k) ==> cache_page(maps, docs)[k] == maps[k]),
    decreases docs.len(),
{
    if docs.len() > 0 {
        let rest = docs.drop_last();
        let n = docs.len() - 1;
        let d = docs.last();
        lemma_page_records(maps, rest);
        let before = cache_page(maps, rest);
        let after = cache_page(maps, docs);
        assert(docs[n] == d);
        assert forall|j: int| 0 <= j < rest.len() implies rest[j] == docs[j] by {}
        assert forall|k: Seq<char>| #[trigger] page_keeps(docs, k) implies after.contains_key(k) && exists|i: int|
            0 <= i < docs.len() && cacheable(#[trigger] docs[i]) && docs[i].id@ == k && after[k] == spec_map_record(
                docs[i],
            ) && forall|j: int| i < j < docs.len() && docs[j].id@ == k ==> !cacheable(#[trigger] docs[j]) by {
            if cacheable(d) && d.id@ == k {
                assert(after == before.insert(k, spec_map_record(d)));
                assert(cacheable(docs[n]) && docs[n].id@ == k && after[k] == spec_map_record(docs[n]));
            } else {
                let i0 = choose|i: int| 0 <= i < docs.len() && cacheable(#[trigger] docs[i]) && docs[i].id@ == k;
                assert(i0 < n);
                assert(rest[i0] == docs[i0]);
                assert(page_keeps(rest, k));
                let i = choose|i: int|
                    0 <= i < rest.len() && cacheable(#[trigger] rest[i]) && rest[i].id@ == k && before[k]
                        == spec_map_record(rest[i]) && forall|j: int|
                        i < j < rest.len() && rest[j].id@ == k ==> !cacheable(#[trigger] rest[j]);
                assert(docs[i] == rest[i]);
                assert(after[k] == before[k]);
                assert forall|j: int| i < j < docs.len() && docs[j].id@ == k implies !cacheable(#[trigger] docs[j]) by {
                    if j < n {
                        assert(rest[j] == docs[j]);
                    }
                }
            }
        }
        assert forall|k: Seq<char>| !#[trigger] page_keeps(docs, k) implies after.contains_key(k) == maps.contains_key(k)
            && (maps.contains_key(k) ==> after[k] == maps[k]) by {
            if page_keeps(rest, k) {
                let i = choose|i: int| 0 <= i < rest.len() && cacheable(#[trigger] rest[i]) && rest[i].id@ == k;
                assert(docs[i] == rest[i]);
            }
            if cacheable(d) && d.id@ == k {
                assert(cacheable(docs[n]) && docs[n].id@ == k);
            }
        }
    }
}

} // verus!
