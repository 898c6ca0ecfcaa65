//! GPU frame timing: six (begin, end) timestamp pairs bracket the recorded
//! passes. A pass's duration in ticks is end minus begin, or zero when a
//! stale bracket has its end before its begin.
use vstd::prelude::*;

verus! {

/// The bracketed passes, in query-set order.
#[derive(Clone, Copy, PartialEq, Eq, Structural, Debug)]
pub enum GpuPass {
    Shadow,
    Main,
    Particles,
    Bloom,
    Tonemap,
    Egui,
}

/// Index of a pass's bracket in the query set.
pub open spec fn pass_slot(p: GpuPass) -> int {
    match p {
        GpuPass::Shadow => 0,
        GpuPass::Main => 1,
        GpuPass::Particles => 2,
        GpuPass::Bloom => 3,
        GpuPass::Tonemap => 4,
        GpuPass::Egui => 5,
    }
}

/// Number of timestamps in the query set.
pub const QUERY_COUNT: usize = 12;

/// Duration of a bracket, clamped at zero.
pub open spec fn bracket_ticks(stamps: Seq<u64>, slot: int) -> u64 {
    if stamps[2 * slot + 1] >= stamps[2 * slot] {
        (stamps[2 * slot + 1] - stamps[2 * slot]) as u64
    } else {
        0
    }
}

/// Ticks each pass took in one sampled frame.
pub fn pass_ticks(stamps: &Vec<u64>, pass: GpuPass) -> (t: u64)
    requires
        stamps@.len() >= QUERY_COUNT,
    ensures
        t == bracket_ticks(stamps@, pass_slot(pass)),
{
    let i: usize = match pass {
        GpuPass::Shadow => 0,
        GpuPass::Main => 2,
        GpuPass::Particles => 4,
        GpuPass::Bloom => 6,
        GpuPass::Tonemap => 8,
        GpuPass::Egui => 10,
    };
    stamps[i + 1].saturating_sub(stamps[i])
}

} // verus!
