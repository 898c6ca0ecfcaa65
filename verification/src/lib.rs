//! Verified core of the smirk engine: the network layer's clock-sync filter,
//! wire framing, handshake, admission and rate-limit policies; the physics
//! pipeline's grid footprints and pair bookkeeping; and the renderer's slot
//! pool, draw packing, pose level of detail, light selection, bloom chain
//! layout, menu state machine, asset catalog and per-frame decisions.
pub mod clock;
pub mod metrics;
pub mod wire;
pub mod limits;
pub mod events;
pub mod jitter;
pub mod deadline;
pub mod grid;
pub mod pairs;
pub mod instance;
pub mod draw;
pub mod menu;
pub mod camera;
pub mod overlay;
pub mod assets;
pub mod bloom;
pub mod size_arg;
pub mod catalog;
pub mod pixels;
pub mod timing;
pub mod frame;
pub mod lod;
pub mod lights;
