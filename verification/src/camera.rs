//! Camera projection modes and the key handler that cycles through them:
//! perspective, then isometric, then top-down, then perspective again.
use vstd::prelude::*;

verus! {

/// Which projection the camera uses.
#[derive(Clone, Copy, PartialEq, Eq, Structural, Debug)]
pub enum ProjectionMode {
    Perspective,
    /// Orthographic, pitched and turned for a three-quarter view.
    Isometric,
    /// Orthographic, looking straight down.
    TopDown,
}

/// The mode after `m` in the cycle.
pub open spec fn next_mode(m: ProjectionMode) -> ProjectionMode {
    match m {
        ProjectionMode::Perspective => ProjectionMode::Isometric,
        ProjectionMode::Isometric => ProjectionMode::TopDown,
        ProjectionMode::TopDown => ProjectionMode::Perspective,
    }
}

impl ProjectionMode {
    /// The next mode in the cycle.
    pub fn cycled(self) -> (n: ProjectionMode)
        ensures
            n == next_mode(self),
    {
        match self {
            ProjectionMode::Perspective => ProjectionMode::Isometric,
            ProjectionMode::Isometric => ProjectionMode::TopDown,
            ProjectionMode::TopDown => ProjectionMode::Perspective,
        }
    }
}

/// Cycling visits every mode and comes back after three presses.
pub proof fn lemma_cycle_period(m: ProjectionMode)
    ensures
        next_mode(next_mode(next_mode(m))) == m,
        next_mode(m) != m,
        next_mode(next_mode(m)) != m,
{
}

/// The cycle key's handler.
pub struct CycleCameraSystem;

impl CycleCameraSystem {
    /// The camera's mode after a frame in which the cycle key was or was
    /// not pressed.
    pub fn step(pressed: bool, mode: ProjectionMode) -> (r: ProjectionMode)
        ensures
            r == (if pressed {
                next_mode(mode)
            } else {
                mode
            }),
    {
        if pressed {
            mode.cycled()
        } else {
            mode
        }
    }
}

/// Cycle-order law: from perspective the key goes to isometric, from
/// isometric to top-down, and from top-down back to perspective.
pub proof fn lemma_cycle_order()
    ensures
        next_mode(ProjectionMode::Perspective) == ProjectionMode::Isometric,
        next_mode(ProjectionMode::Isometric) == ProjectionMode::TopDown,
        next_mode(ProjectionMode::TopDown) == ProjectionMode::Perspective,
{
}

} // verus!
