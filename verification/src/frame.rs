//! Per-frame bookkeeping of the render loop: when to sample GPU pass
//! timings (every so many frames while the stats overlay is open), and when
//! to warn that live particles are close to the engine cap (on the first
//! frame over budget, then once per warning period while it stays over).
use vstd::prelude::*;

verus! {

/// Frames between GPU timing samples while the overlay is open.
pub const GPU_TIMING_INTERVAL: u64 = 30;

/// Engine-wide cap on live particles.
pub const MAX_PARTICLES: usize = 4096;

/// Consecutive over-budget frames between two particle warnings.
pub const PARTICLE_WARN_PERIOD: u32 = 300;

/// The particle count is past 80% of the cap.
pub open spec fn over_particle_budget(count: int) -> bool {
    count * 10 > MAX_PARTICLES * 8
}

/// What this frame should do besides drawing.
#[derive(Clone, Copy, PartialEq, Eq, Structural, Debug)]
pub struct FramePlan {
    /// Time this frame's GPU passes.
    pub sample_gpu: bool,
    /// Log the particle-budget warning.
    pub warn_particles: bool,
}

/// Counters carried from frame to frame.
pub struct FrameCounters {
    /// Frames begun so far.
    pub frame_index: u64,
    /// Consecutive frames over the particle budget.
    pub particle_warn: u32,
}

impl FrameCounters {
    pub fn new() -> (c: FrameCounters)
        ensures
            c.frame_index == 0,
            c.particle_warn == 0,
    {
        FrameCounters { frame_index: 0, particle_warn: 0 }
    }

    /// Starts a frame with `particle_count` live particles.
    pub fn begin_frame(&mut self, overlay_open: bool, particle_count: usize) -> (plan: FramePlan)
        requires
            old(self).frame_index < u64::MAX,
            particle_count <= usize::MAX / 10,
            over_particle_budget(particle_count as int) ==> old(self).particle_warn < u32::MAX,
        ensures
            final(self).frame_index == old(self).frame_index + 1,
            plan.sample_gpu == (overlay_open && final(self).frame_index % GPU_TIMING_INTERVAL == 0),
            over_particle_budget(particle_count as int) ==> {
                &&& final(self).particle_warn == old(self).particle_warn + 1
                &&& plan.warn_particles == (final(self).particle_warn % PARTICLE_WARN_PERIOD == 1)
            },
            !over_particle_budget(particle_count as int) ==> {
                &&& final(self).particle_warn == 0
                &&& !plan.warn_particles
            },
    {
        self.frame_index = self.frame_index + 1;
        let sample_gpu = overlay_open && self.frame_index % GPU_TIMING_INTERVAL == 0;
        let warn_particles = if particle_count * 10 > MAX_PARTICLES * 8 {
            self.particle_warn = self.particle_warn + 1;
            self.particle_warn % PARTICLE_WARN_PERIOD == 1
        } else {
            self.particle_warn = 0;
            false
        };
        FramePlan { sample_gpu, warn_particles }
    }
}

} // verus!
