use smirk_engine::assets::{keyframe_values, mip_level_count, ImageData, Interp, SocketConfig, TextureHandle};
use smirk_engine::bloom::{bloom_chain_plan, BloomStage};
use smirk_engine::camera::{CycleCameraSystem, ProjectionMode};
use smirk_engine::catalog::{Completion, Lookup, MeshCatalog, MeshEntry};
use smirk_engine::draw::{classify_visibility, drawable_ranges, pack_visible, Visibility};
use smirk_engine::frame::{FrameCounters, GPU_TIMING_INTERVAL, MAX_PARTICLES};
use smirk_engine::instance::{alloc_shape_group_slots, InstancePool, InstanceSlot, ShapeGroupSlots};
use smirk_engine::lights::{select_nearest, MAX_POINT_LIGHTS};
use smirk_engine::lod::{admit_skinned, skinned_near_cap, LodSchedule, PoseChoice};
use smirk_engine::menu::{
    apply_menu_actions, MenuAction, MenuKeys, MenuScreen, MenuState, MenuSystem, Resolution,
    SettingsDraft, WindowConfig, WindowMode,
};
use smirk_engine::overlay::{DebugChannel, DevOverlaySystem};
use smirk_engine::pixels::{expand_to_rgba8, PixelLayout};
use smirk_engine::size_arg::parse_size;
use smirk_engine::timing::{pass_ticks, GpuPass};

fn pool() -> InstancePool<u32> {
    InstancePool::new(10, 0)
}

#[test]
fn test_used_runs_all_allocated() {
    let mut pool = pool();
    let _slot0 = pool.alloc_slot();
    let _slot1 = pool.alloc_slot();
    let _slot2 = pool.alloc_slot();
    let _slot3 = pool.alloc_slot();
    let _slot4 = pool.alloc_slot();

    let mut runs = Vec::new();
    pool.used_runs(&mut runs);

    assert_eq!(runs, vec![(0, 5)], "5 allocated slots should give one contiguous run");
}

#[test]
fn test_used_runs_with_interior_frees() {
    let mut pool = pool();
    pool.alloc_slot();
    pool.alloc_slot();
    pool.alloc_slot();
    pool.alloc_slot();
    pool.alloc_slot();

    pool.free(1);
    pool.free(3);

    let mut runs = Vec::new();
    pool.used_runs(&mut runs);

    assert_eq!(
        runs,
        vec![(0, 1), (2, 1), (4, 1)],
        "freeing indices 1 and 3 should give three separate runs"
    );
}

#[test]
fn test_used_runs_with_trailing_free() {
    let mut pool = pool();
    pool.alloc_slot();
    pool.alloc_slot();
    pool.alloc_slot();
    pool.alloc_slot();
    pool.alloc_slot();

    pool.free(1);
    pool.free(3);
    pool.free(4);

    let mut runs = Vec::new();
    pool.used_runs(&mut runs);

    assert_eq!(runs, vec![(0, 1), (2, 1)], "trailing free should be excluded from runs");
}

#[test]
fn test_used_runs_realloc_maintains_invariant() {
    let mut pool = pool();
    pool.alloc_slot();
    pool.alloc_slot();
    pool.alloc_slot();

    pool.free(1);

    let mut runs = Vec::new();
    pool.used_runs(&mut runs);
    let sum_before: usize = runs.iter().map(|(_, count)| *count as usize).sum();
    assert_eq!(sum_before, pool.used());

    let _realloc = pool.alloc_slot();

    runs.clear();
    pool.used_runs(&mut runs);
    let sum_after: usize = runs.iter().map(|(_, count)| *count as usize).sum();
    assert_eq!(sum_after, pool.used(), "invariant: sum(count) == pool.used()");
}

#[test]
fn test_used_runs_empty() {
    let pool = pool();
    let mut runs = Vec::new();
    pool.used_runs(&mut runs);

    assert_eq!(runs, vec![], "empty pool should give no runs");
}

#[test]
fn freed_slots_are_reused_last_freed_first_and_blanked() {
    let mut pool: InstancePool<u32> = InstancePool::new(4, 0);
    let a = pool.alloc_slot();
    let b = pool.alloc_slot();
    let c = pool.alloc_slot();
    pool.write(b, 77);
    assert_eq!(pool.slot(b), 77);
    pool.free(a);
    pool.free(b);
    assert_eq!(pool.slot(b), 0, "a freed slot holds the blank payload");
    assert_eq!(pool.alloc_slot(), b);
    assert_eq!(pool.alloc_slot(), a);
    assert_eq!(pool.alloc_slot(), 3, "with no freed index left the pool grows");
    assert_eq!(pool.used(), 4);
    let _ = c;
}

#[test]
fn dirty_runs_carry_their_payloads_and_are_cleared() {
    let mut pool: InstancePool<u32> = InstancePool::new(4, 0);
    for _ in 0..5 {
        pool.alloc_slot();
    }
    let mut ranges = Vec::new();
    let mut items = Vec::new();
    assert_eq!(pool.take_dirty(&mut ranges, &mut items), 5);
    assert_eq!(ranges, vec![(0, 5)]);
    pool.write(1, 11);
    pool.write(2, 22);
    pool.write(4, 44);
    assert_eq!(pool.take_dirty(&mut ranges, &mut items), 5);
    assert_eq!(ranges, vec![(1, 2), (4, 1)]);
    assert_eq!(items, vec![11, 22, 44]);
    pool.take_dirty(&mut ranges, &mut items);
    assert!(ranges.is_empty(), "flags were cleared by the previous take");
    assert!(items.is_empty());
}

#[test]
fn slot_handles_wrap_indices() {
    let s = InstanceSlot(3);
    let g = ShapeGroupSlots(vec![1, 2]);
    assert_eq!(s.0, 3);
    assert_eq!(g.0, vec![1, 2]);
}

#[test]
fn pack_visible_orders_by_mesh_then_visibility_and_splits_camera_shadow_ranges() {
    let mut items: Vec<(usize, Visibility, u32)> = vec![
        (0, Visibility::ShadowOnly, 102),
        (0, Visibility::Both, 100),
        (0, Visibility::CamOnly, 101),
        (1, Visibility::ShadowOnly, 200),
    ];
    let mut instances: Vec<u32> = Vec::new();
    let mut ranges = Vec::new();
    let mut shadow_ranges = Vec::new();

    pack_visible(&mut items, &mut instances, &mut ranges, &mut shadow_ranges);

    assert!(items.is_empty(), "items must be drained for reuse next frame");
    assert_eq!(instances, vec![100, 101, 102, 200], "Both, then CamOnly, then ShadowOnly, per mesh group");
    assert_eq!(ranges, vec![(0, 0, 2)], "camera range covers only the Both+CamOnly prefix of mesh 0");
    assert_eq!(
        shadow_ranges,
        vec![(0, 0, 1), (0, 2, 1), (1, 3, 1)],
        "shadow ranges: mesh 0's Both prefix, mesh 0's ShadowOnly suffix, then mesh 1's ShadowOnly-only run"
    );
    assert!(
        !ranges.iter().any(|&(idx, _, _)| idx == 1),
        "mesh 1 has no camera-visible instances, so it must be absent from the camera ranges"
    );
}

#[derive(Clone, Copy)]
struct SkinnedMeshInstance {
    model: [[f32; 4]; 4],
    tint: [f32; 4],
    joint_base: u32,
    _pad: [u32; 3],
}

#[test]
fn pack_visible_preserves_joint_base_across_reordering() {
    fn skinned(joint_base: u32) -> SkinnedMeshInstance {
        SkinnedMeshInstance { model: glam::Mat4::IDENTITY.to_cols_array_2d(), tint: [1.0; 4], joint_base, _pad: [0; 3] }
    }
    let mut items: Vec<(usize, Visibility, SkinnedMeshInstance)> = vec![
        (0, Visibility::ShadowOnly, skinned(30)),
        (0, Visibility::Both, skinned(10)),
        (0, Visibility::CamOnly, skinned(20)),
    ];
    let mut instances = Vec::new();
    let mut ranges = Vec::new();
    let mut shadow_ranges = Vec::new();

    pack_visible(&mut items, &mut instances, &mut ranges, &mut shadow_ranges);

    let packed_bases: Vec<u32> = instances.iter().map(|i| i.joint_base).collect();
    assert_eq!(
        packed_bases,
        vec![10, 20, 30],
        "joint_base must travel with its instance through the Both/CamOnly/ShadowOnly reorder"
    );
    assert_eq!(ranges, vec![(0, 0, 2)], "camera range covers the Both+CamOnly prefix");
    assert_eq!(shadow_ranges, vec![(0, 0, 1), (0, 2, 1)], "shadow ranges: the Both prefix, then the ShadowOnly suffix");
    assert_eq!(instances[0].tint, [1.0; 4]);
    assert_eq!(instances[0].model[0][0], 1.0);
    assert_eq!(instances[0]._pad, [0; 3]);
}

#[test]
fn pack_visible_is_stable_appends_and_orders_meshes() {
    let mut items: Vec<(usize, Visibility, u32)> = vec![
        (7, Visibility::CamOnly, 71),
        (2, Visibility::Both, 21),
        (7, Visibility::CamOnly, 72),
        (2, Visibility::Both, 22),
    ];
    let mut instances = vec![999u32];
    let mut ranges = vec![(9usize, 0u32, 1u32)];
    let mut shadow_ranges = Vec::new();
    pack_visible(&mut items, &mut instances, &mut ranges, &mut shadow_ranges);
    assert_eq!(instances, vec![999, 21, 22, 71, 72]);
    assert_eq!(ranges, vec![(9, 0, 1), (2, 1, 2), (7, 3, 2)]);
    assert_eq!(shadow_ranges, vec![(2, 1, 2)]);
}

#[test]
fn classify_visibility_covers_all_four_cases() {
    assert_eq!(classify_visibility(true, true), Some(Visibility::Both));
    assert_eq!(classify_visibility(true, false), Some(Visibility::CamOnly));
    assert_eq!(classify_visibility(false, true), Some(Visibility::ShadowOnly));
    assert_eq!(classify_visibility(false, false), None);
}

#[test]
fn mip_count_covers_full_chain() {
    assert_eq!(mip_level_count(1, 1), 1);
    assert_eq!(mip_level_count(2, 2), 2);
    assert_eq!(mip_level_count(256, 256), 9);
    assert_eq!(mip_level_count(512, 256), 10);
    assert_eq!(mip_level_count(1000, 1000), 10);
}

#[test]
fn mip_count_of_degenerate_and_largest_images() {
    assert_eq!(mip_level_count(0, 0), 1);
    assert_eq!(mip_level_count(0, 3), 2);
    assert_eq!(mip_level_count(u32::MAX, 1), 32);
}

#[test]
fn cubic_keyframes_keep_the_middle_of_each_triple() {
    assert_eq!(keyframe_values(vec![1, 2, 3, 4, 5, 6], 2, true), vec![2, 5]);
    assert_eq!(keyframe_values(vec![1, 2, 3, 4, 5], 2, true), vec![1, 2, 3, 4, 5]);
    assert_eq!(keyframe_values(vec![1, 2, 3, 4, 5, 6], 2, false), vec![1, 2, 3, 4, 5, 6]);
    assert_eq!(Interp::Linear, Interp::Linear);
    assert_ne!(Interp::Linear, Interp::Step);
}

#[test]
fn socket_config_defaults_to_both_hands_and_head() {
    let c = SocketConfig::default();
    assert_eq!(c.bones, vec!["handslot.r".to_string(), "handslot.l".to_string(), "head".to_string()]);
}

#[test]
fn texture_handle_keeps_its_index() {
    let h = TextureHandle::from_index(4);
    assert_eq!(h.index(), 4);
    assert_eq!(h, TextureHandle::from_index(4));
    let img = ImageData { width: 1, height: 1, pixels: vec![1, 2, 3, 4] };
    assert_eq!(img.pixels.len() as u32, img.width * img.height * 4);
}

#[test]
fn size_argument_parses_both_separators() {
    assert_eq!(parse_size("512x256"), Some((512, 256)));
    assert_eq!(parse_size("640X480"), Some((640, 480)));
    assert_eq!(parse_size("+8x+9"), Some((8, 9)));
    assert_eq!(parse_size("4294967295x1"), Some((u32::MAX, 1)));
}

#[test]
fn malformed_size_arguments_are_refused() {
    assert_eq!(parse_size("512"), None);
    assert_eq!(parse_size("x5"), None);
    assert_eq!(parse_size("5x"), None);
    assert_eq!(parse_size("5x5x5"), None);
    assert_eq!(parse_size("4294967296x1"), None);
    assert_eq!(parse_size("-1x2"), None);
    assert_eq!(parse_size("+x2"), None);
    assert_eq!(parse_size(" 1x2"), None);
}

#[test]
fn projection_cycles_through_three_modes() {
    let m = ProjectionMode::Perspective;
    assert_eq!(m.cycled(), ProjectionMode::Isometric);
    assert_eq!(m.cycled().cycled(), ProjectionMode::TopDown);
    assert_eq!(m.cycled().cycled().cycled(), ProjectionMode::Perspective);
    assert_eq!(CycleCameraSystem::step(false, m), m);
    assert_eq!(CycleCameraSystem::step(true, m), ProjectionMode::Isometric);
}

#[test]
fn debug_channels_map_to_shader_modes() {
    assert_eq!(DebugChannel::Beauty.mode(), 0);
    assert_eq!(DebugChannel::Albedo.mode(), 1);
    assert_eq!(DebugChannel::Roughness.mode(), 2);
    assert_eq!(DebugChannel::Metallic.mode(), 3);
    assert_eq!(DebugChannel::Normal.mode(), 4);
    assert_eq!(DebugChannel::Occlusion.mode(), 5);
}

#[test]
fn fast_f3_tap_toggles_overlay_once_across_catch_up_steps() {
    let open = DevOverlaySystem::step(false, true);
    assert!(open, "fast tap must toggle the overlay open exactly once");
    let open = DevOverlaySystem::step(open, false);
    assert!(open, "no new input must leave the overlay open");
}

fn config() -> WindowConfig {
    WindowConfig {
        title: "smirk".to_string(),
        resolution: Resolution::Fixed(1280, 720),
        mode: WindowMode::Windowed,
        vsync: true,
        max_fps: None,
    }
}

fn keys(escape: bool, up: bool, down: bool, enter: bool) -> MenuKeys {
    MenuKeys { escape, up, down, enter }
}

#[test]
fn fast_escape_tap_opens_menu() {
    let mut menu = MenuState::new(&config());
    MenuSystem::step(&mut menu, keys(true, false, false, false));
    assert!(menu.open, "fast escape tap must open the menu");
}

#[test]
fn menu_navigation_clamps_and_enter_activates() {
    let mut menu = MenuState::new(&config());
    menu.open = true;
    MenuSystem::step(&mut menu, keys(false, true, false, false));
    assert_eq!(menu.selected, 0, "up at the top stays");
    MenuSystem::step(&mut menu, keys(false, false, true, false));
    MenuSystem::step(&mut menu, keys(false, false, true, false));
    MenuSystem::step(&mut menu, keys(false, false, true, false));
    assert_eq!(menu.selected, 2, "down at the bottom stays");
    MenuSystem::step(&mut menu, keys(false, false, false, true));
    assert!(menu.quit_requested, "Enter on Quit requests the exit");
    menu.quit_requested = false;
    MenuSystem::step(&mut menu, keys(false, true, false, true));
    assert_eq!(menu.screen, MenuScreen::Settings);
    assert_eq!(menu.selected, 0);
    MenuSystem::step(&mut menu, keys(false, false, true, true));
    assert_eq!(menu.screen, MenuScreen::Main, "Back returns to the main screen");
    assert_eq!(menu.selected, 1);
    MenuSystem::step(&mut menu, keys(true, false, false, false));
    assert!(!menu.open, "Escape on the main screen closes");
}

#[test]
fn escape_backs_out_of_settings() {
    let mut menu = MenuState::new(&config());
    menu.open = true;
    menu.screen = MenuScreen::Settings;
    menu.selected = 1;
    MenuSystem::step(&mut menu, keys(true, false, false, false));
    assert!(menu.open);
    assert_eq!(menu.screen, MenuScreen::Main);
    assert_eq!(menu.selected, 0);
}

#[test]
fn draft_round_trips_the_config() {
    let d = SettingsDraft::from_config(&config());
    assert_eq!((d.res_fixed_w, d.res_fixed_h, d.res_auto, d.max_fps_val), (1280, 720, false, 0));
    let back = d.into_config();
    assert_eq!(back.resolution, Resolution::Fixed(1280, 720));
    assert_eq!(back.max_fps, None);
    assert_eq!(back.title, "smirk");
    let auto = WindowConfig { resolution: Resolution::Auto, max_fps: Some(144), ..config() };
    let d = SettingsDraft::from_config(&auto);
    assert_eq!((d.res_fixed_w, d.res_fixed_h, d.res_auto, d.max_fps_val), (1920, 1080, true, 144));
    let back = d.into_config();
    assert_eq!(back.resolution, Resolution::Auto);
    assert_eq!(back.max_fps, Some(144));
}

#[test]
fn menu_actions_apply_last_draft_then_in_order() {
    let menu = MenuState::new(&config());
    let mut edited = SettingsDraft::from_config(&config());
    edited.vsync = false;
    let mut later = SettingsDraft::from_config(&config());
    later.max_fps_val = 60;
    let actions = vec![
        MenuAction::UpdateDraft(edited),
        MenuAction::HoverSelect(1),
        MenuAction::UpdateDraft(later),
        MenuAction::SaveAndBack,
    ];
    let e = apply_menu_actions(actions, menu, config());
    assert!(e.saved);
    assert!(!e.quit);
    assert_eq!(e.config.max_fps, Some(60), "the last draft is the one saved");
    assert!(e.config.vsync);
    assert_eq!(e.menu.screen, MenuScreen::Main);
    assert_eq!(e.menu.selected, 1);
}

#[test]
fn quit_stops_the_action_pass() {
    let menu = MenuState::new(&config());
    let actions = vec![MenuAction::OpenSettings, MenuAction::Quit, MenuAction::Resume, MenuAction::HoverSelect(2)];
    let e = apply_menu_actions(actions, menu, config());
    assert!(e.quit);
    assert_eq!(e.menu.screen, MenuScreen::Settings);
    assert_eq!(e.menu.selected, 0);
    assert!(!e.saved);
}

#[test]
fn cancel_resets_the_draft_from_config() {
    let mut menu = MenuState::new(&config());
    menu.draft.vsync = false;
    let e = apply_menu_actions(vec![MenuAction::CancelAndBack], menu, config());
    assert!(e.menu.draft.vsync);
    assert_eq!(e.menu.selected, 1);
    assert!(!e.saved);
}

#[test]
fn register_same_key_replaces_in_place() {
    let mut store = MeshCatalog::new();
    let (idx1, new1) = store.register("zone-ground:start");
    let (idx2, new2) = store.register("zone-ground:start");
    assert_eq!(idx1, idx2, "re-registering the same key must return the same index");
    assert!(new1 && !new2, "re-registering must not take a new slot");
}

#[test]
fn first_sight_streams_in_background() {
    let mut store = MeshCatalog::new();
    assert_eq!(store.get_or_request("a.glb"), Lookup::StartLoad, "first sight must not block on decode");
    assert_eq!(store.get_or_request("a.glb"), Lookup::Waiting, "a pending path is requested once");
    assert_eq!(store.pending_count(), 1);
    assert_eq!(store.complete("a.glb", true), Completion::Upload(0));
    assert_eq!(store.get_or_request("a.glb"), Lookup::Ready(0), "a loaded path resolves immediately");
    assert_eq!(store.pending_count(), 0);
}

#[test]
fn failed_load_is_cached_not_retried() {
    let mut store = MeshCatalog::new();
    assert_eq!(store.get_or_request("does/not/exist.glb"), Lookup::StartLoad);
    assert_eq!(store.complete("does/not/exist.glb", false), Completion::Failed);
    assert_eq!(store.get_or_request("does/not/exist.glb"), Lookup::Waiting);
    assert_eq!(store.entry_state("does/not/exist.glb"), Some(MeshEntry::Failed));
}

#[test]
fn a_decode_raced_by_register_is_dropped() {
    let mut store = MeshCatalog::new();
    assert_eq!(store.get_or_request("b.glb"), Lookup::StartLoad);
    assert_eq!(store.register("b.glb"), (0, true));
    assert_eq!(store.complete("b.glb", true), Completion::Dropped);
    assert_eq!(store.complete("never-asked.glb", true), Completion::Dropped);
    assert_eq!(store.entry_state("b.glb"), Some(MeshEntry::Loaded(0)));
}

#[test]
fn image_layouts_expand_to_rgba() {
    assert_eq!(expand_to_rgba8(PixelLayout::Rgb, &vec![1, 2, 3, 4, 5, 6, 7]), vec![1, 2, 3, 255, 4, 5, 6, 255]);
    assert_eq!(expand_to_rgba8(PixelLayout::Gray, &vec![9, 8]), vec![9, 9, 9, 255, 8, 8, 8, 255]);
    assert_eq!(expand_to_rgba8(PixelLayout::GrayAlpha, &vec![5, 6]), vec![5, 5, 5, 6]);
    assert_eq!(expand_to_rgba8(PixelLayout::Rgba, &vec![1, 2, 3, 4]), vec![1, 2, 3, 4]);
    // RGBA data is kept whole, a trailing partial pixel included.
    assert_eq!(expand_to_rgba8(PixelLayout::Rgba, &vec![1, 2, 3, 4, 5, 6]), vec![1, 2, 3, 4, 5, 6]);
}

#[test]
fn pass_ticks_clamp_out_of_order_timestamps_to_zero() {
    let mut stamps = vec![0u64; 12];
    stamps[2] = 500;
    stamps[3] = 100;
    assert_eq!(pass_ticks(&stamps, GpuPass::Main), 0);
}

#[test]
fn pass_ticks_isolate_each_bracket() {
    let stamps: Vec<u64> = vec![0, 100, 100, 250, 250, 300, 300, 350, 350, 420, 420, 450];
    assert_eq!(pass_ticks(&stamps, GpuPass::Shadow), 100);
    assert_eq!(pass_ticks(&stamps, GpuPass::Main), 150);
    assert_eq!(pass_ticks(&stamps, GpuPass::Particles), 50);
    assert_eq!(pass_ticks(&stamps, GpuPass::Bloom) + pass_ticks(&stamps, GpuPass::Tonemap), 120);
    assert_eq!(pass_ticks(&stamps, GpuPass::Egui), 30);
}

#[test]
fn gpu_timing_is_sampled_every_interval_only_with_the_overlay_open() {
    let mut c = FrameCounters::new();
    let mut sampled = Vec::new();
    for _ in 0..(2 * GPU_TIMING_INTERVAL) {
        if c.begin_frame(true, 0).sample_gpu {
            sampled.push(c.frame_index);
        }
    }
    assert_eq!(sampled, vec![30, 60]);
    let mut closed = FrameCounters::new();
    for _ in 0..GPU_TIMING_INTERVAL {
        assert!(!closed.begin_frame(false, 0).sample_gpu);
    }
}

#[test]
fn particle_warning_is_throttled_and_resets_under_budget() {
    let over = MAX_PARTICLES * 8 / 10 + 1;
    let mut c = FrameCounters::new();
    let mut warned = Vec::new();
    for i in 1..=601u32 {
        if c.begin_frame(false, over).warn_particles {
            warned.push(i);
        }
    }
    assert_eq!(warned, vec![1, 301, 601]);
    assert!(!c.begin_frame(false, MAX_PARTICLES * 8 / 10).warn_particles);
    assert_eq!(c.particle_warn, 0);
    assert!(c.begin_frame(false, over).warn_particles, "a new streak warns at once");
}

#[test]
fn far_rig_poses_every_other_frame_after_its_first() {
    let mut lod = LodSchedule::new();
    let entity = 7u64;
    let stagger = 3u64;
    assert_eq!(lod.far_step(entity, stagger, 0), PoseChoice::Pose, "first sight always poses");
    let mut poses = 0;
    for frame in 1..=4u64 {
        if lod.far_step(entity, stagger, frame) == PoseChoice::Pose {
            poses += 1;
        }
    }
    assert_eq!(poses, 2, "far rig must pose exactly twice across the 4 tracked frames");
}

#[test]
fn pose_with_lod_poses_near_rig_every_frame_with_no_cache_entry() {
    let mut lod = LodSchedule::new();
    let near_entity = 11u64;
    for _frame in 1..=4u64 {
        assert!(!lod.forget(near_entity), "near rig must leave no lod cache entry");
    }
    assert_eq!(lod.far_step(near_entity, 0, 5), PoseChoice::Pose);
    assert!(lod.forget(near_entity), "coming near drops the far cache");
    assert_eq!(lod.far_step(near_entity, 1, 6), PoseChoice::Pose, "after coming back far it is new again");
}

#[test]
fn lod_retain_evicts_rigs_not_seen_this_frame() {
    let mut lod = LodSchedule::new();
    lod.far_step(1, 0, 5);
    lod.far_step(2, 0, 5);
    lod.far_step(2, 0, 6);
    let evicted = lod.retain_seen(6);
    assert_eq!(evicted, vec![1], "a rig absent this frame must be evicted from the lod cache");
    assert_eq!(lod.far_step(1, 0, 7), PoseChoice::Pose, "an evicted rig starts over");
    assert_eq!(lod.far_step(2, 0, 7), PoseChoice::Replay);
}

#[test]
fn nearest_lights_keep_the_cap_nearest_in_order() {
    // Twenty lights at distances 20, 19, ..., 1: the sixteen nearest are
    // the last sixteen gathered, nearest first.
    let keys: Vec<u32> = (0..20u32).map(|i| 20 - i).collect();
    let chosen = select_nearest(&keys, MAX_POINT_LIGHTS);
    let expected: Vec<usize> = (4..20usize).rev().collect();
    assert_eq!(chosen, expected);
}

#[test]
fn fewer_lights_than_the_cap_are_all_kept_and_ties_keep_gather_order() {
    let keys = vec![5u32, 1, 5, 0];
    assert_eq!(select_nearest(&keys, MAX_POINT_LIGHTS), vec![3, 1, 0, 2]);
    assert_eq!(select_nearest(&keys, 2), vec![3, 1]);
    assert!(select_nearest(&Vec::new(), MAX_POINT_LIGHTS).is_empty());
}

#[test]
fn ranges_past_the_instance_cap_are_cut_then_dropped() {
    let ranges = vec![(0usize, 0u32, 4u32), (1, 4, 10), (2, 14, 3), (3, 20, 1)];
    assert_eq!(drawable_ranges(&ranges, 10), vec![(0, 0, 4), (1, 4, 6)]);
    assert_eq!(drawable_ranges(&ranges, 100), ranges);
    assert!(drawable_ranges(&ranges, 0).is_empty());
}

#[test]
fn bloom_chain_is_half_size_and_capped_at_six_levels() {
    let p = bloom_chain_plan(1920, 1080);
    assert_eq!((p.width, p.height, p.levels), (960, 540, 6));
    assert_eq!(p.stages.len(), 11);
    assert_eq!(p.stages[0], BloomStage::Prefilter);
    assert_eq!(p.stages[1], BloomStage::Down { source: 0, target: 1, source_width: 960, source_height: 540 });
    assert_eq!(p.stages[5], BloomStage::Down { source: 4, target: 5, source_width: 60, source_height: 33 });
    assert_eq!(p.stages[6], BloomStage::Up { source: 5, target: 4, source_width: 30, source_height: 16 });
    assert_eq!(p.stages[10], BloomStage::Up { source: 1, target: 0, source_width: 480, source_height: 270 });
}

#[test]
fn bloom_chain_of_a_tiny_target() {
    let p = bloom_chain_plan(1, 1);
    assert_eq!((p.width, p.height, p.levels), (1, 1, 1));
    assert_eq!(p.stages, vec![BloomStage::Prefilter]);
    let p = bloom_chain_plan(2, 8);
    assert_eq!((p.width, p.height, p.levels), (1, 4, 3));
    assert_eq!(
        p.stages,
        vec![
            BloomStage::Prefilter,
            BloomStage::Down { source: 0, target: 1, source_width: 1, source_height: 4 },
            BloomStage::Down { source: 1, target: 2, source_width: 1, source_height: 2 },
            BloomStage::Up { source: 2, target: 1, source_width: 1, source_height: 1 },
            BloomStage::Up { source: 1, target: 0, source_width: 1, source_height: 2 },
        ]
    );
}

#[test]
fn collector_breaks_on_mesh_range_past_instance_cap() {
    // Whatever the instance cap, a range starting at it contributes nothing.
    for cap in [1u32, 64, 4096] {
        let mesh0 = 0usize;
        let ranges = vec![(mesh0, 0u32, 1u32), (mesh0, cap, 1)];
        let out = drawable_ranges(&ranges, cap);
        assert_eq!(out.len(), 1, "the range starting at the cap must contribute nothing");
    }
}

#[test]
fn held_down_key_moves_selection_once_across_catch_up_steps() {
    let mut menu = MenuState::new(&config());
    menu.open = true;
    // Held, not tapped: the press is one edge, seen by the one menu step of
    // the catch-up frame.
    MenuSystem::step(&mut menu, keys(false, false, true, false));
    assert_eq!(menu.selected, 1, "held key must move selection exactly once across a catch-up frame");
    // A later tick with no new edge must not move the selection further.
    MenuSystem::step(&mut menu, keys(false, false, false, false));
    assert_eq!(menu.selected, 1, "no new input must leave selection unchanged");
}

fn png_bytes(img: image::DynamicImage) -> Vec<u8> {
    let mut buf = Vec::new();
    img.write_to(&mut std::io::Cursor::new(&mut buf), image::ImageFormat::Png).unwrap();
    buf
}

#[test]
fn encoded_png_decodes_to_rgba8() {
    let rgba = image::RgbaImage::from_raw(2, 1, vec![1, 2, 3, 4, 5, 6, 7, 8]).unwrap();
    let bytes = png_bytes(image::DynamicImage::ImageRgba8(rgba));
    let img = smirk_engine::assets::load_image_rgba("png", &bytes).unwrap();
    assert_eq!((img.width, img.height), (2, 1));
    assert_eq!(img.pixels, vec![1, 2, 3, 4, 5, 6, 7, 8]);
    // Gray data gains gray colour channels and an opaque alpha.
    let gray = image::GrayImage::from_raw(1, 2, vec![9, 200]).unwrap();
    let bytes = png_bytes(image::DynamicImage::ImageLuma8(gray));
    let img = smirk_engine::assets::load_image_rgba("PNG", &bytes).unwrap();
    assert_eq!((img.width, img.height), (1, 2));
    assert_eq!(img.pixels, vec![9, 9, 9, 255, 200, 200, 200, 255]);
}

#[test]
fn unknown_format_or_bad_bytes_do_not_decode() {
    let rgba = image::RgbaImage::from_raw(1, 1, vec![1, 2, 3, 4]).unwrap();
    let bytes = png_bytes(image::DynamicImage::ImageRgba8(rgba));
    assert!(smirk_engine::assets::load_image_rgba("txt", &bytes).is_err());
    assert!(smirk_engine::assets::load_image_rgba("", &bytes).is_err());
    assert!(smirk_engine::assets::load_image_rgba("png", &[1, 2, 3]).is_err());
}

#[test]
fn shape_group_slots_reuse_freed_slots_newest_first_then_grow() {
    let mut p = pool();
    assert_eq!(alloc_shape_group_slots(&mut p, 3).0, vec![0, 1, 2]);
    p.free(1);
    p.free(0);
    let g = alloc_shape_group_slots(&mut p, 4);
    assert_eq!(g.0, vec![0, 1, 3, 4]);
    assert_eq!(p.used(), 5);
    assert!(alloc_shape_group_slots(&mut p, 0).0.is_empty());
}

#[test]
fn skinned_instances_respect_the_instance_and_palette_caps() {
    assert_eq!(admit_skinned(0, 0, 4, 2, 10), Some(0));
    assert_eq!(admit_skinned(1, 4, 6, 2, 10), Some(4), "exactly filling the palette is allowed");
    assert_eq!(admit_skinned(1, 4, 7, 2, 10), None, "one joint past the palette cap");
    assert_eq!(admit_skinned(2, 0, 1, 2, 10), None, "the instance cap is reached");
    assert_eq!(admit_skinned(0, 0, usize::MAX, 2, 10), None);
    assert!(!skinned_near_cap(8, 10));
    assert!(skinned_near_cap(9, 10));
    assert!(!skinned_near_cap(0, 0));
}
