//! Layout of the bloom chain: a half-resolution mip chain of at most
//! `BLOOM_LEVELS` levels, filled by a prefilter pass, a downsample pass per
//! extra level and an additive upsample pass back up each level.
use crate::assets::{mip_level_count, mip_levels};
use vstd::prelude::*;

verus! {

/// Most mip levels the bloom chain uses.
pub const BLOOM_LEVELS: u32 = 6;

/// One render pass of the bloom chain, in recording order.
#[derive(Clone, Copy, PartialEq, Eq, Structural, Debug)]
pub enum BloomStage {
    /// Thresholded copy of the HDR resolve into mip 0.
    Prefilter,
    /// Downsample of mip `source` into mip `target`; the source's size sets
    /// the sampling offsets. The target is cleared first.
    Down { source: u32, target: u32, source_width: u32, source_height: u32 },
    /// Upsample of mip `source` added onto mip `target`.
    Up { source: u32, target: u32, source_width: u32, source_height: u32 },
}

/// Size and passes of the bloom chain for one render target.
pub struct BloomPlan {
    /// Size of mip 0 of the chain.
    pub width: u32,
    pub height: u32,
    /// Mip levels of the chain.
    pub levels: u32,
    /// Passes in recording order.
    pub stages: Vec<BloomStage>,
}

pub open spec fn at_least_one(v: u32) -> u32 {
    if v == 0 {
        1
    } else {
        v
    }
}

/// Size of mip `level` along a side whose mip 0 is `base` texels.
pub open spec fn mip_extent(base: u32, level: u32) -> u32 {
    at_least_one(base >> level)
}

/// Pass `k` of a chain of `levels` mips whose mip 0 is `cw` x `ch`: the
/// prefilter, then a downsample into each deeper mip in turn, then an
/// upsample out of each mip but the first, deepest first.
pub open spec fn bloom_stage(cw: u32, ch: u32, levels: u32, k: int) -> BloomStage {
    if k == 0 {
        BloomStage::Prefilter
    } else if k < levels {
        BloomStage::Down {
            source: (k - 1) as u32,
            target: k as u32,
            source_width: mip_extent(cw, (k - 1) as u32),
            source_height: mip_extent(ch, (k - 1) as u32),
        }
    } else {
        let i = (2 * levels - 1 - k) as u32;
        BloomStage::Up {
            source: i,
            target: (i - 1) as u32,
            source_width: mip_extent(cw, i),
            source_height: mip_extent(ch, i),
        }
    }
}

fn mip_extent_of(base: u32, level: u32) -> (e: u32)
    requires
        level < 32,
    ensures
        e == mip_extent(base, level),
{
    let v = base >> level;
    if v == 0 {
        1
    } else {
        v
    }
}

/// The bloom chain for a `width` x `height` HDR target: mip 0 is half its
/// size (at least one texel per side), the chain has as many levels as a
/// full mip chain of that size but at most `BLOOM_LEVELS`, and it is filled
/// by `2 * levels - 1` passes.
pub fn bloom_chain_plan(width: u32, height: u32) -> (p: BloomPlan)
    ensures
        p.width == at_least_one(width / 2),
        p.height == at_least_one(height / 2),
        p.levels == (if mip_levels(p.width, p.height) < BLOOM_LEVELS {
            mip_levels(p.width, p.height)
        } else {
            BLOOM_LEVELS as nat
        }),
        p.stages@.len() == 2 * p.levels - 1,
        forall|k: int| 0 <= k < p.stages@.len() ==> #[trigger] p.stages@[k] == bloom_stage(p.width, p.height, p.levels, k),
{
    let cw: u32 = if width / 2 == 0 {
        1
    } else {
        width / 2
    };
    let ch: u32 = if height / 2 == 0 {
        1
    } else {
        height / 2
    };
    let full = mip_level_count(cw, ch);
    let levels: u32 = if full < BLOOM_LEVELS {
        full
    } else {
        BLOOM_LEVELS
    };
    let mut stages: Vec<BloomStage> = Vec::new();
    stages.push(BloomStage::Prefilter);
    let mut i: u32 = 1;
    while i < levels
        invariant
            1 <= levels <= BLOOM_LEVELS,
            1 <= i <= levels,
            stages@.len() == i,
            forall|k: int| 0 <= k < i ==> #[trigger] stages@[k] == bloom_stage(cw, ch, levels, k),
        decreases levels - i,
    {
        let sw = mip_extent_of(cw, i - 1);
        let sh = mip_extent_of(ch, i - 1);
        stages.push(BloomStage::Down { source: i - 1, target: i, source_width: sw, source_height: sh });
        i = i + 1;
    }
    let mut j: u32 = levels - 1;
    while j > 0
        invariant
            1 <= levels <= BLOOM_LEVELS,
            j < levels,
            stages@.len() == 2 * levels - 1 - j,
            forall|k: int| 0 <= k < stages@.len() ==> #[trigger] stages@[k] == bloom_stage(cw, ch, levels, k),
        decreases j,
    {
        let sw = mip_extent_of(cw, j);
        let sh = mip_extent_of(ch, j);
        stages.push(BloomStage::Up { source: j, target: j - 1, source_width: sw, source_height: sh });
        j = j - 1;
    }
    BloomPlan { width: cw, height: ch, levels, stages }
}

} // verus!
