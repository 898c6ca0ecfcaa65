//! Debug views: the channel an offscreen frame shows instead of the lit
//! image, and the stats overlay's toggle.
use vstd::prelude::*;

verus! {

/// What an offscreen frame shows: the lit image, or one material input.
#[derive(Clone, Copy, PartialEq, Eq, Structural, Debug)]
pub enum DebugChannel {
    Beauty,
    Albedo,
    Roughness,
    Metallic,
    Normal,
    Occlusion,
}

/// The shader's switch value for each channel.
pub open spec fn channel_code(c: DebugChannel) -> u32 {
    match c {
        DebugChannel::Beauty => 0,
        DebugChannel::Albedo => 1,
        DebugChannel::Roughness => 2,
        DebugChannel::Metallic => 3,
        DebugChannel::Normal => 4,
        DebugChannel::Occlusion => 5,
    }
}

impl DebugChannel {
    /// The value the shader switches on.
    pub fn mode(self) -> (m: u32)
        ensures
            m == channel_code(self),
            m <= 5,
    {
        match self {
            DebugChannel::Beauty => 0,
            DebugChannel::Albedo => 1,
            DebugChannel::Roughness => 2,
            DebugChannel::Metallic => 3,
            DebugChannel::Normal => 4,
            DebugChannel::Occlusion => 5,
        }
    }
}

/// Distinct channels switch the shader to distinct values.
pub proof fn lemma_channel_codes_distinct(a: DebugChannel, b: DebugChannel)
    requires
        a != b,
    ensures
        channel_code(a) != channel_code(b),
{
}

/// The stats overlay's toggle key handler.
pub struct DevOverlaySystem;

impl DevOverlaySystem {
    /// Whether the overlay is open after a frame in which the toggle key was
    /// or was not pressed.
    pub fn step(open: bool, toggle_pressed: bool) -> (r: bool)
        ensures
            r == (open != toggle_pressed),
    {
        if toggle_pressed {
            !open
        } else {
            open
        }
    }
}

/// Shader-numbering law: the lit image is channel 0, then albedo,
/// roughness, metallic, normal and occlusion are 1 to 5, in that order.
pub proof fn lemma_channel_numbering()
    ensures
        channel_code(DebugChannel::Beauty) == 0,
        channel_code(DebugChannel::Albedo) == 1,
        channel_code(DebugChannel::Roughness) == 2,
        channel_code(DebugChannel::Metallic) == 3,
        channel_code(DebugChannel::Normal) == 4,
        channel_code(DebugChannel::Occlusion) == 5,
{
}

} // verus!
