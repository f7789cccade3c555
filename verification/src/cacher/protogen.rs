//! Conversion of BeatSaver map data into the records that the cache stores.

use vstd::prelude::*;

use crate::cacher::{get_map_mods, spec_map_mods, MapMods};
use crate::mapdata::{Difficulty, DifficultyView, Ranked, RankedValue, Votes};
use crate::models::{BeatSaverMap, MapDifficulty, MapVersion};

verus! {

/// `v` where it fits in a `u32`, else 0 (a conversion to `u32` that falls back to zero).
pub open spec fn u32_or_zero(v: int) -> u32 {
    if 0 <= v <= u32::MAX {
        v as u32
    } else {
        0
    }
}

/// Converts `v` to a `u32`, giving 0 where it does not fit.
pub fn to_u32_or_zero(v: i64) -> (r: u32)
    ensures
        r == u32_or_zero(v as int),
{
    if 0 <= v && v <= 0xffff_ffff {
        v as u32
    } else {
        0
    }
}

/// `bit` where `b` holds, else 0.
pub open spec fn flag(b: bool, bit: int) -> int {
    if b {
        bit
    } else {
        0
    }
}

/// The mod bit set: cinema is bit 0, Mapping Extensions bit 1, Chroma bit 2,
/// Noodle Extensions bit 3 and Vivify bit 4.
pub open spec fn mod_bits(cinema: bool, me: bool, chroma: bool, ne: bool, vivify: bool) -> int {
    flag(cinema, 1) + flag(me, 2) + flag(chroma, 4) + flag(ne, 8) + flag(vivify, 16)
}

/// The ranking that the cache stores for one leaderboard's star rating.
pub open spec fn spec_ranked_value(stars_bits: Option<u32>) -> RankedValue {
    RankedValue {
        is_ranked: stars_bits is Some,
        stars_bits: match stars_bits {
            Some(b) => b,
            None => 0,
        },
    }
}

/// The ranking that the cache stores for a difficulty.
pub open spec fn spec_ranked(diff: MapDifficulty) -> Ranked {
    Ranked {
        score_saber: spec_ranked_value(diff.ss_stars_bits),
        beat_leader: spec_ranked_value(diff.bl_stars_bits),
    }
}

/// The mod bit set of one difficulty.
pub open spec fn spec_diff_mods(diff: MapDifficulty) -> int {
    mod_bits(diff.cinema, diff.me, diff.chroma, diff.ne, diff.vivify)
}

/// The record that the cache stores for a difficulty.
pub open spec fn spec_difficulty(diff: MapDifficulty) -> DifficultyView {
    DifficultyView {
        njs: diff.njs_bits,
        notes: u32_or_zero(diff.notes as int),
        characteristic_name: diff.characteristic@,
        difficulty_name: diff.difficulty@,
        mods: spec_diff_mods(diff) as u32,
        environment_name: match diff.environment {
            Some(e) => e@,
            None => Seq::empty(),
        },
        ranked: spec_ranked(diff),
    }
}

/// The vote counts that the cache stores: a negative count is stored as 0.
pub open spec fn spec_votes(up: int, down: int) -> Votes {
    Votes { up: u32_or_zero(up), down: u32_or_zero(down) }
}

/// Every difficulty of the version names its environment.
pub open spec fn environments_named(version: MapVersion) -> bool {
    forall|i: int| 0 <= i < version.diffs@.len() ==> (#[trigger] version.diffs@[i]).environment is Some
}

fn ranked_value(stars_bits: Option<u32>) -> (r: RankedValue)
    ensures
        r == spec_ranked_value(stars_bits),
{
    RankedValue {
        is_ranked: stars_bits.is_some(),
        stars_bits: match stars_bits {
            Some(b) => b,
            None => 0,
        },
    }
}

/// Converts the ScoreSaber and BeatLeader ratings of a difficulty.
pub fn generate_protobuf_ranked_values(diff: &MapDifficulty) -> (r: Ranked)
    ensures
        r == spec_ranked(*diff),
{
    Ranked {
        score_saber: ranked_value(diff.ss_stars_bits),
        beat_leader: ranked_value(diff.bl_stars_bits),
    }
}

fn flag_bit(b: bool, bit: u32) -> (r: u32)
    ensures
        r == flag(b, bit as int),
{
    if b {
        bit
    } else {
        0
    }
}

/// Encodes five mod flags as a bit set.
pub fn encode_mods(cinema: bool, me: bool, chroma: bool, ne: bool, vivify: bool) -> (r: u32)
    ensures
        r == mod_bits(cinema, me, chroma, ne, vivify),
        r < 32,
{
    flag_bit(cinema, 1) + flag_bit(me, 2) + flag_bit(chroma, 4) + flag_bit(ne, 8) + flag_bit(vivify, 16)
}

/// The mods that a map version needs, as a bit set.
pub fn generate_protobuf_map_mods(map_version: &MapVersion) -> (r: u32)
    ensures
        r == ({
            let m = spec_map_mods(map_version.diffs@);
            mod_bits(m.cinema, m.mapping_extensions, m.chroma, m.noodle_extensions, m.vivify)
        }),
        r < 32,
{
    let map_mods: MapMods = get_map_mods(map_version);
    encode_mods(
        map_mods.cinema,
        map_mods.mapping_extensions,
        map_mods.chroma,
        map_mods.noodle_extensions,
        map_mods.vivify,
    )
}

/// The mods that one difficulty needs, as a bit set.
pub fn generate_protobuf_diff_mods(diff: &MapDifficulty) -> (r: u32)
    ensures
        r == spec_diff_mods(*diff),
        r < 32,
{
    encode_mods(diff.cinema, diff.me, diff.chroma, diff.ne, diff.vivify)
}

fn generate_protobuf_diff(diff: &MapDifficulty) -> (r: Difficulty)
    requires
        diff.environment is Some,
    ensures
        r@ == spec_difficulty(*diff),
{
    let environment_name = match &diff.environment {
        Some(e) => e.clone(),
        None => String::new(),
    };
    Difficulty {
        njs: diff.njs_bits,
        notes: to_u32_or_zero(diff.notes),
        characteristic_name: diff.characteristic.clone(),
        difficulty_name: diff.difficulty.clone(),
        mods: generate_protobuf_diff_mods(diff),
        environment_name,
        ranked: generate_protobuf_ranked_values(diff),
    }
}

/// Converts each difficulty of a map version, in order.
pub fn generate_protobuf_diffs(map_version: &MapVersion) -> (r: Vec<Difficulty>)
    requires
        environments_named(*map_version),
    ensures
        r@.map_values(|d: Difficulty| d@) == map_version.diffs@.map_values(
            |d: MapDifficulty| spec_difficulty(d),
        ),
{
    let mut diffs: Vec<Difficulty> = Vec::new();
    let n = map_version.diffs.len();
    for i in 0..n
        invariant
            n == map_version.diffs@.len(),
            environments_named(*map_version),
            diffs@.len() == i,
            forall|j: int| 0 <= j < i ==> #[trigger] diffs@[j]@ == spec_difficulty(map_version.diffs@[j]),
    {
        let d = generate_protobuf_diff(&map_version.diffs[i]);
        diffs.push(d);
    }
    assert(diffs@.map_values(|d: Difficulty| d@) =~= map_version.diffs@.map_values(
        |d: MapDifficulty| spec_difficulty(d),
    ));
    diffs
}

/// The curator's name, where the map was curated.
pub fn generate_protobuf_curator(map: &BeatSaverMap) -> (r: Option<String>)
    ensures
        r == map.curator,
{
    match &map.curator {
        Some(curator) => Some(curator.clone()),
        None => None,
    }
}

/// Converts BeatSaver vote counts; a negative count becomes 0.
pub fn generate_protobuf_votes(up: i32, down: i32) -> (r: Votes)
    ensures
        r == spec_votes(up as int, down as int),
{
    Votes { up: to_u32_or_zero(up as i64), down: to_u32_or_zero(down as i64) }
}

/// The map's tag names, in order.
pub fn generate_protobuf_tags(map: &BeatSaverMap) -> (r: Vec<String>)
    ensures
        r@ == map.tags@,
{
    let mut tags: Vec<String> = Vec::new();
    let n = map.tags.len();
    for i in 0..n
        invariant
            n == map.tags@.len(),
            tags@ == map.tags@.take(i as int),
    {
        tags.push(map.tags[i].clone());
        assert(tags@ =~= map.tags@.take(i + 1));
    }
    assert(map.tags@.take(n as int) =~= map.tags@);
    tags
}


/// The mod bit sets of the difficulties, combined with bitwise or.
pub open spec fn or_diff_mods(diffs: Seq<MapDifficulty>) -> u32
    decreases diffs.len(),
{
    if diffs.len() == 0 {
        0
    } else {
        or_diff_mods(diffs.drop_last()) | (spec_diff_mods(diffs.last()) as u32)
    }
}

proof fn lemma_mod_bits_or(
    a1: bool,
    a2: bool,
    a3: bool,
    a4: bool,
    a5: bool,
    b1: bool,
    b2: bool,
    b3: bool,
    b4: bool,
    b5: bool,
)
    ensures
        (mod_bits(a1, a2, a3, a4, a5) as u32) | (mod_bits(b1, b2, b3, b4, b5) as u32) == mod_bits(
            a1 || b1,
            a2 || b2,
            a3 || b3,
            a4 || b4,
            a5 || b5,
        ) as u32,
{
    let x: u32 = mod_bits(a1, a2, a3, a4, a5) as u32;
    let y: u32 = mod_bits(b1, b2, b3, b4, b5) as u32;
    let z: u32 = mod_bits(a1 || b1, a2 || b2, a3 || b3, a4 || b4, a5 || b5) as u32;
    assert(x == (if a1 { 1u32 } else { 0u32 }) | (if a2 { 2u32 } else { 0u32 }) | (if a3 { 4u32 } else { 0u32 })
        | (if a4 { 8u32 } else { 0u32 }) | (if a5 { 16u32 } else { 0u32 })) by (bit_vector)
        requires
            x == (if a1 { 1u32 } else { 0u32 }) + (if a2 { 2u32 } else { 0u32 }) + (if a3 { 4u32 } else { 0u32 })
                + (if a4 { 8u32 } else { 0u32 }) + (if a5 { 16u32 } else { 0u32 }),
    ;
    assert(y == (if b1 { 1u32 } else { 0u32 }) | (if b2 { 2u32 } else { 0u32 }) | (if b3 { 4u32 } else { 0u32 })
        | (if b4 { 8u32 } else { 0u32 }) | (if b5 { 16u32 } else { 0u32 })) by (bit_vector)
        requires
            y == (if b1 { 1u32 } else { 0u32 }) + (if b2 { 2u32 } else { 0u32 }) + (if b3 { 4u32 } else { 0u32 })
                + (if b4 { 8u32 } else { 0u32 }) + (if b5 { 16u32 } else { 0u32 }),
    ;
    assert(z == (if a1 || b1 { 1u32 } else { 0u32 }) | (if a2 || b2 { 2u32 } else { 0u32 }) | (if a3 || b3 { 4u32 } else { 0u32 })
        | (if a4 || b4 { 8u32 } else { 0u32 }) | (if a5 || b5 { 16u32 } else { 0u32 })) by (bit_vector)
        requires
            z == (if a1 || b1 { 1u32 } else { 0u32 }) + (if a2 || b2 { 2u32 } else { 0u32 }) + (if a3 || b3 { 4u32 } else { 0u32 })
                + (if a4 || b4 { 8u32 } else { 0u32 }) + (if a5 || b5 { 16u32 } else { 0u32 }),
    ;
    assert(x | y == z) by (bit_vector)
        requires
            x == (if a1 { 1u32 } else { 0u32 }) | (if a2 { 2u32 } else { 0u32 }) | (if a3 { 4u32 } else { 0u32 })
                | (if a4 { 8u32 } else { 0u32 }) | (if a5 { 16u32 } else { 0u32 }),
            y == (if b1 { 1u32 } else { 0u32 }) | (if b2 { 2u32 } else { 0u32 }) | (if b3 { 4u32 } else { 0u32 })
                | (if b4 { 8u32 } else { 0u32 }) | (if b5 { 16u32 } else { 0u32 }),
            z == (if a1 || b1 { 1u32 } else { 0u32 }) | (if a2 || b2 { 2u32 } else { 0u32 }) | (if a3 || b3 { 4u32 } else { 0u32 })
                | (if a4 || b4 { 8u32 } else { 0u32 }) | (if a5 || b5 { 16u32 } else { 0u32 }),
    ;
}

/// Each mod has its own bit in the mod bit set: cinema bit 0, Mapping
/// Extensions bit 1, Chroma bit 2, Noodle Extensions bit 3, Vivify bit 4; a
/// bit is set exactly where its mod is needed, and no other bit is set.
pub proof fn lemma_mod_bits_flags(cinema: bool, me: bool, chroma: bool, ne: bool, vivify: bool)
    ensures
        ({
            let x = mod_bits(cinema, me, chroma, ne, vivify) as u32;
            &&& 0 <= mod_bits(cinema, me, chroma, ne, vivify) < 32
            &&& (x & 1u32 == 1u32) == cinema
            &&& (x & 2u32 == 2u32) == me
            &&& (x & 4u32 == 4u32) == chroma
            &&& (x & 8u32 == 8u32) == ne
            &&& (x & 16u32 == 16u32) == vivify
        }),
{
    let x: u32 = mod_bits(cinema, me, chroma, ne, vivify) as u32;
    assert(x == (if cinema { 1u32 } else { 0u32 }) + (if me { 2u32 } else { 0u32 }) + (if chroma { 4u32 } else { 0u32 })
        + (if ne { 8u32 } else { 0u32 }) + (if vivify { 16u32 } else { 0u32 }));
    assert({
        &&& (x & 1u32 == 1u32) == cinema
        &&& (x & 2u32 == 2u32) == me
        &&& (x & 4u32 == 4u32) == chroma
        &&& (x & 8u32 == 8u32) == ne
        &&& (x & 16u32 == 16u32) == vivify
    }) by (bit_vector)
        requires
            x == (if cinema { 1u32 } else { 0u32 }) + (if me { 2u32 } else { 0u32 }) + (if chroma { 4u32 } else { 0u32 })
                + (if ne { 8u32 } else { 0u32 }) + (if vivify { 16u32 } else { 0u32 }),
    ;
}

/// The mod bit set of a map version is the bitwise or of the mod bit sets of
/// its difficulties: a map needs a mod exactly where one of its difficulties does.
pub proof fn lemma_map_mods_combine_diff_mods(diffs: Seq<MapDifficulty>)
    ensures
        ({
            let m = spec_map_mods(diffs);
            mod_bits(m.cinema, m.mapping_extensions, m.chroma, m.noodle_extensions, m.vivify) as u32
        }) == or_diff_mods(diffs),
    decreases diffs.len(),
{
    if diffs.len() == 0 {
    } else {
        let rest = diffs.drop_last();
        let d = diffs.last();
        lemma_map_mods_combine_diff_mods(rest);
        let m = spec_map_mods(rest);
        let full = spec_map_mods(diffs);
        assert(full.cinema == (m.cinema || d.cinema)) by {
            if m.cinema {
                let i = choose|i: int| 0 <= i < rest.len() && (#[trigger] rest[i]).cinema;
                assert(diffs[i] == rest[i]);
            }
            if full.cinema && !d.cinema {
                let i = choose|i: int| 0 <= i < diffs.len() && (#[trigger] diffs[i]).cinema;
                assert(rest[i] == diffs[i]);
            }
            assert(diffs[diffs.len() - 1] == d);
        }
        assert(full.mapping_extensions == (m.mapping_extensions || d.me)) by {
            if m.mapping_extensions {
                let i = choose|i: int| 0 <= i < rest.len() && (#[trigger] rest[i]).me;
                assert(diffs[i] == rest[i]);
            }
            if full.mapping_extensions && !d.me {
                let i = choose|i: int| 0 <= i < diffs.len() && (#[trigger] diffs[i]).me;
                assert(rest[i] == diffs[i]);
            }
            assert(diffs[diffs.len() - 1] == d);
        }
        assert(full.chroma == (m.chroma || d.chroma)) by {
            if m.chroma {
                let i = choose|i: int| 0 <= i < rest.len() && (#[trigger] rest[i]).chroma;
                assert(diffs[i] == rest[i]);
            }
            if full.chroma && !d.chroma {
                let i = choose|i: int| 0 <= i < diffs.len() && (#[trigger] diffs[i]).chroma;
                assert(rest[i] == diffs[i]);
            }
            assert(diffs[diffs.len() - 1] == d);
        }
        assert(full.noodle_extensions == (m.noodle_extensions || d.ne)) by {
            if m.noodle_extensions {
                let i = choose|i: int| 0 <= i < rest.len() && (#[trigger] rest[i]).ne;
                assert(diffs[i] == rest[i]);
            }
            if full.noodle_extensions && !d.ne {
                let i = choose|i: int| 0 <= i < diffs.len() && (#[trigger] diffs[i]).ne;
                assert(rest[i] == diffs[i]);
            }
            assert(diffs[diffs.len() - 1] == d);
        }
        assert(full.vivify == (m.vivify || d.vivify)) by {
            if m.vivify {
                let i = choose|i: int| 0 <= i < rest.len() && (#[trigger] rest[i]).vivify;
                assert(diffs[i] == rest[i]);
            }
            if full.vivify && !d.vivify {
                let i = choose|i: int| 0 <= i < diffs.len() && (#[trigger] diffs[i]).vivify;
                assert(rest[i] == diffs[i]);
            }
            assert(diffs[diffs.len() - 1] == d);
        }
        lemma_mod_bits_or(
            m.cinema,
            m.mapping_extensions,
            m.chroma,
            m.noodle_extensions,
            m.vivify,
            d.cinema,
            d.me,
            d.chroma,
            d.ne,
            d.vivify,
        );
    }
}

} // verus!
