//! Settings of a streamed scene, and the choice of a level by distance.

use vstd::prelude::*;

use vstd::arithmetic::power2::{lemma2_to64, pow2};

use crate::float_bits::FloatBits;

verus! {

/// Settings of a streamed scene.
#[derive(Clone, Copy, Debug, PartialEq, Eq, Structural)]
pub struct LodSettings {
    /// where the first band of distances ends, in scene units
    pub base_distance: FloatBits,
    /// each further band ends this many times as far away
    pub multiplier: FloatBits,
    /// levels are chosen anew once the camera has moved this far
    pub update_distance: FloatBits,
    /// show every leaf at this level, whatever the distance
    pub forced_lod: Option<usize>,
    /// frames that a unit stays after its last user let go of it
    pub cooldown_frames: u32,
    /// how many runs of leaves may be decoded at the same time
    pub max_decodes_in_flight: usize,
    /// show the whole scene through one cloud
    pub composite: bool,
    /// how many splats that cloud holds; zero for as many as the scene needs
    pub splat_budget: usize,
}

/// The binary32 patterns of 5, 3 and 1.
pub const FIVE_BITS: u32 = 0x40a0_0000;

pub const THREE_BITS: u32 = 0x4040_0000;

pub const ONE_BITS: u32 = 0x3f80_0000;

/// The settings that a scene has unless it is given others.
pub open spec fn default_settings() -> LodSettings {
    LodSettings {
        base_distance: FloatBits { bits: FIVE_BITS },
        multiplier: FloatBits { bits: THREE_BITS },
        update_distance: FloatBits { bits: ONE_BITS },
        forced_lod: None,
        cooldown_frames: 100,
        max_decodes_in_flight: 4,
        composite: false,
        splat_budget: 0,
    }
}

impl Default for LodSettings {
    fn default() -> (r: LodSettings)
        ensures
            r == default_settings(),
    {
        LodSettings {
            base_distance: FloatBits { bits: FIVE_BITS },
            multiplier: FloatBits { bits: THREE_BITS },
            update_distance: FloatBits { bits: ONE_BITS },
            forced_lod: None,
            cooldown_frames: 100,
            max_decodes_in_flight: 4,
            composite: false,
            splat_budget: 0,
        }
    }
}

/// The first band from `level` on that ends beyond `distance`; the last level
/// has no end.
pub open spec fn band_from(
    distance: FloatBits,
    thresholds: Seq<FloatBits>,
    levels: int,
    level: int,
) -> int
    decreases levels - level,
{
    if level >= levels - 1 {
        levels - 1
    } else if distance.below(thresholds[level]) {
        level
    } else {
        band_from(distance, thresholds, levels, level + 1)
    }
}

/// The level for a distance among `levels` levels: `thresholds[i]` is where the
/// band of level `i` ends.
pub open spec fn band(distance: FloatBits, thresholds: Seq<FloatBits>, levels: int) -> int {
    if levels <= 1 {
        0
    } else {
        band_from(distance, thresholds, levels, 0)
    }
}

/// The level for a distance among `levels` levels: `thresholds[i]` is where the
/// band of level `i` ends, `base * multiplier^i`. The last level has no end.
pub fn select_lod_level(distance: FloatBits, thresholds: &Vec<FloatBits>, levels: usize) -> (r:
    usize)
    requires
        thresholds@.len() + 1 >= levels,
    ensures
        r == band(distance, thresholds@, levels as int),
{
    if levels <= 1 {
        return 0;
    }
    let mut level: usize = 0;
    while level < levels - 1
        invariant
            level <= levels - 1,
            thresholds@.len() + 1 >= levels,
            band(distance, thresholds@, levels as int) == band_from(
                distance,
                thresholds@,
                levels as int,
                level as int,
            ),
        decreases levels - level,
    {
        if distance.lt(thresholds[level]) {
            return level;
        }
        level = level + 1;
    }
    levels - 1
}

/// What `band_from` finds.
proof fn lemma_band_from(
    distance: FloatBits,
    thresholds: Seq<FloatBits>,
    levels: int,
    level: int,
)
    requires
        0 <= level < levels,
    ensures
        ({
            let r = band_from(distance, thresholds, levels, level);
            &&& level <= r < levels
            &&& r < levels - 1 ==> distance.below(thresholds[r])
            &&& forall|k: int| level <= k < r ==> !distance.below(#[trigger] thresholds[k])
        }),
    decreases levels - level,
{
    if level < levels - 1 && !distance.below(thresholds[level]) {
        lemma_band_from(distance, thresholds, levels, level + 1);
    }
}

/// Level `i` is chosen for the distances below the end of its band that are not
/// below the end of any finer band; there always is a level.
pub proof fn level_covers_its_band(distance: FloatBits, thresholds: Seq<FloatBits>, levels: int)
    requires
        1 <= levels,
    ensures
        0 <= band(distance, thresholds, levels) < levels,
        band(distance, thresholds, levels) < levels - 1 ==> distance.below(
            thresholds[band(distance, thresholds, levels)],
        ),
        forall|k: int|
            0 <= k < band(distance, thresholds, levels) ==> !distance.below(
                #[trigger] thresholds[k],
            ),
{
    lemma_band_from(distance, thresholds, levels, 0);
}

/// Farther away is never finer.
pub proof fn levels_grow_with_distance(
    near: FloatBits,
    far: FloatBits,
    thresholds: Seq<FloatBits>,
    levels: int,
)
    requires
        1 <= levels,
        near.below(far) || near.same_number(far),
    ensures
        band(near, thresholds, levels) <= band(far, thresholds, levels),
{
    level_covers_its_band(near, thresholds, levels);
    level_covers_its_band(far, thresholds, levels);
    let n = band(near, thresholds, levels);
    let f = band(far, thresholds, levels);
    if f < n {
        assert(far.below(thresholds[f]));
        assert(near.below(thresholds[f]));
    }
}

/// Whether a pattern is that of a whole number: the significand of a pattern with
/// exponent `127 + e` counts steps of `2^e / 2^23`.
pub open spec fn is_whole_number(pattern: FloatBits, number: int, e: nat) -> bool {
    &&& pattern.bits as int / 0x80_0000 == 127 + e
    &&& (0x80_0000 + pattern.bits as int % 0x80_0000) * pow2(e) == number * 0x80_0000
}

/// Unless it is given others, a scene's first band of distances ends at 5 and each
/// further one three times as far away, levels are chosen anew after a way of 1,
/// units stay 100 frames, four runs are decoded at the same time, and nothing is
/// forced or limited.
pub proof fn default_settings_are_these()
    ensures
        is_whole_number(default_settings().base_distance, 5, 2),
        is_whole_number(default_settings().multiplier, 3, 1),
        is_whole_number(default_settings().update_distance, 1, 0),
        default_settings().forced_lod is None,
        default_settings().cooldown_frames == 100,
        default_settings().max_decodes_in_flight == 4,
        !default_settings().composite,
        default_settings().splat_budget == 0,
{
    lemma2_to64();
}

} // verus!
