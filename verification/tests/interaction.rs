use x_planets_core::collections::{TileMap, TileSet};
use x_planets_core::engine::{CameraLimits, MapConfig, MapEngine, Viewport};
use x_planets_core::interaction::animation::{
    smoothstep, AnimationController, CameraAnimation, EasingMode, InteractionConfig, Release,
    ScreenPoint, TickStep, ZoomStep, FADE_DURATION,
};
use x_planets_core::interaction::crossfade::{
    build_crossfade_overlay, compute_crossfade, compute_fade_overrides, update_tile_visibility,
};
use x_planets_core::interaction::gestures::{GestureAction, Touch, TouchGestureState};
use x_planets_core::pipeline::tile_uniforms::{resolve_fallbacks, UvRect};
use x_planets_core::scalar::Real64;
use x_planets_core::tile::{TileCoord, VisibleTile};

fn r64(v: f64) -> Real64 {
    Real64 { bits: v.to_bits() }
}

fn f(v: Real64) -> f64 {
    f64::from_bits(v.bits)
}

fn us(seconds: f64) -> i64 {
    (seconds * 1e6).round() as i64
}

fn px(x: f64, y: f64) -> ScreenPoint {
    ScreenPoint { x: (x * 1024.0).round() as i32, y: (y * 1024.0).round() as i32 }
}

fn touch(id: i32, x: f64, y: f64) -> Touch {
    Touch { id, pos: px(x, y) }
}

fn animating(a: &AnimationController, zoom: f64) -> bool {
    let gap = (f(a.zoom_target) - zoom).abs();
    let speed = f(a.pan_velocity.0).hypot(f(a.pan_velocity.1));
    a.is_animating(r64(gap), r64(speed))
}

fn engine() -> MapEngine {
    let viewport = Viewport {
        width: 800,
        height: 600,
        center_lat: r64(0.0),
        center_lon: r64(0.0),
        zoom: r64(0.0),
        bearing: r64(0.0),
        pitch: r64(0.0),
        frustum_margin: r64(0.05),
        tile_budget: 256,
    };
    let limits = CameraLimits { min_zoom: r64(0.0), max_zoom: r64(22.0), max_pitch: r64(85.0) };
    MapEngine::new(MapConfig::default(), viewport, limits, vec!["Web Mercator".to_string()])
}

/// One frame as the platform performs it.
fn frame(a: &mut AnimationController, e: &mut MapEngine, dt: f64) {
    let goal = f(a.zoom_goal(&e.camera));
    let gap = (goal - f(e.viewport.zoom)).abs();
    let speed = f(a.pan_velocity.0).hypot(f(a.pan_velocity.1));
    let step = a.tick_with_mode(&e.camera, us(dt), r64(gap), r64(speed));
    if let TickStep::Free { zoom, coast } = step {
        match zoom {
            ZoomStep::Glide { goal, .. } => {
                let z = f(e.viewport.zoom);
                let k = 1.0 - (-f(a.config.zoom_anim_speed) * dt).exp();
                e.viewport.zoom = r64(z + (f(goal) - z) * k);
            }
            ZoomStep::Snap { goal } => e.viewport.zoom = goal,
            ZoomStep::Hold => {}
        }
        if coast {
            let k = (-f(a.config.inertia_friction) * dt).exp();
            a.pan_velocity = (r64(f(a.pan_velocity.0) * k), r64(f(a.pan_velocity.1) * k));
        }
    }
}

fn set(coords: &[TileCoord]) -> TileSet {
    let mut s = TileSet::new();
    for c in coords {
        s.insert(*c);
    }
    s
}

fn check_double_click_detection() {
    let mut anim = AnimationController::new(r64(5.0));
    let pos = px(100.0, 100.0);
    assert!(!anim.check_double_click(pos, us(1.0)));
    assert!(anim.check_double_click(pos, us(1.2)));
    assert!(!anim.check_double_click(pos, us(1.4)));
}

fn check_double_click_too_far() {
    let mut anim = AnimationController::new(r64(5.0));
    assert!(!anim.check_double_click(px(100.0, 100.0), us(1.0)));
    assert!(!anim.check_double_click(px(200.0, 200.0), us(1.2)));
}

fn check_double_click_too_slow() {
    let mut anim = AnimationController::new(r64(5.0));
    let pos = px(100.0, 100.0);
    assert!(!anim.check_double_click(pos, us(1.0)));
    assert!(!anim.check_double_click(pos, us(2.0)));
}

fn check_drag_velocity_estimation() {
    let mut anim = AnimationController::new(r64(5.0));
    anim.record_drag(px(0.0, 0.0), us(1.0));
    anim.record_drag(px(100.0, 0.0), us(1.05));
    anim.record_drag(px(200.0, 0.0), us(1.1));
    // The window has the first sample just outside: the other two remain.
    match anim.compute_release_velocity(us(1.1)) {
        Release::Fling { dx, dy, dt } => {
            let vx = dx as f64 / 1024.0 / (dt as f64 / 1e6);
            let vy = dy as f64 / 1024.0 / (dt as f64 / 1e6);
            assert!((vx - 2000.0).abs() < 1.0, "vx={} expected ~2000", vx);
            assert!(vy.abs() < 1.0, "vy={} expected ~0", vy);
        }
        Release::Still => panic!("expected a velocity"),
    }
}

fn check_drag_velocity_too_few_samples() {
    let mut anim = AnimationController::new(r64(5.0));
    anim.record_drag(px(0.0, 0.0), us(1.0));
    assert_eq!(anim.compute_release_velocity(us(1.1)), Release::Still);
    assert_eq!(anim.pan_velocity, (r64(0.0), r64(0.0)));
}

fn check_crossfade_with_parent() {
    let parent = TileCoord::new(1, 0, 0);
    let child = TileCoord::new(2, 0, 0);
    let visible = vec![VisibleTile::canonical(child)];
    let available = set(&[parent, child]);
    let mut fades: TileMap<i64> = TileMap::new();
    fades.insert(child, 0);

    let (base_available, crossfade) = compute_crossfade(&visible, &available, &fades, us(0.15));

    assert!(!base_available.contains(&child));
    assert!(base_available.contains(&parent));
    assert_eq!(crossfade.len(), 1);
    assert_eq!(crossfade[0].coord, child);
    assert!(crossfade[0].fade.num > 0 && crossfade[0].fade.num < crossfade[0].fade.den);
}

fn check_crossfade_without_parent() {
    let child = TileCoord::new(2, 0, 0);
    let visible = vec![VisibleTile::canonical(child)];
    let available = set(&[child]);
    let mut fades: TileMap<i64> = TileMap::new();
    fades.insert(child, 0);

    let (base_available, crossfade) = compute_crossfade(&visible, &available, &fades, us(0.15));

    assert!(base_available.contains(&child));
    assert!(crossfade.is_empty());
}

fn check_touch_grace_period() {
    let mut ts = TouchGestureState::new();
    ts.touch_start(0, px(100.0, 100.0), us(1.0));
    assert!(ts.in_grace_period(us(1.0)));
    assert!(ts.in_grace_period(us(1.05)));
    assert!(!ts.in_grace_period(us(1.1)));
}

fn check_touch_grace_skipped_for_first_finger() {
    let mut ts = TouchGestureState::new();
    ts.touch_start(0, px(100.0, 100.0), us(1.0));

    let action = ts.process_moves(&[touch(0, 150.0, 100.0)], us(1.02));
    assert!(matches!(action, Some(GestureAction::Pan { .. })));

    let action = ts.process_moves(&[touch(0, 200.0, 100.0)], us(1.1));
    assert!(matches!(action, Some(GestureAction::Pan { .. })));
}

fn check_touch_grace_suppresses_multi_finger_transition() {
    let mut ts = TouchGestureState::new();
    ts.touch_start(0, px(100.0, 100.0), us(0.0));
    let _ = ts.process_moves(&[touch(0, 110.0, 100.0)], us(0.2));
    ts.touch_start(1, px(200.0, 100.0), us(0.3));
    let action = ts.process_moves(&[touch(0, 115.0, 100.0), touch(1, 205.0, 100.0)], us(0.32));
    assert!(action.is_none());
}

fn check_touch_two_finger_transition() {
    let mut ts = TouchGestureState::new();
    ts.touch_start(0, px(100.0, 100.0), us(1.0));
    let _ = ts.process_moves(&[touch(0, 110.0, 100.0)], us(1.1));

    ts.touch_start(1, px(200.0, 100.0), us(1.15));
    assert!(ts.in_grace_period(us(1.15)));

    let action = ts.process_moves(&[touch(0, 115.0, 100.0), touch(1, 205.0, 100.0)], us(1.18));
    assert!(action.is_none());

    let action = ts.process_moves(&[touch(0, 120.0, 100.0), touch(1, 210.0, 100.0)], us(1.25));
    assert!(matches!(action, Some(GestureAction::MultiTouch { .. })));
}

fn check_is_animating_idle() {
    let anim = AnimationController::new(r64(5.0));
    assert!(!animating(&anim, 5.0));
}

fn check_is_animating_zoom() {
    let mut anim = AnimationController::new(r64(5.0));
    anim.zoom_target = r64(8.0);
    assert!(animating(&anim, 5.0));
}

fn check_is_animating_pan() {
    let mut anim = AnimationController::new(r64(5.0));
    anim.pan_velocity = (r64(100.0), r64(0.0));
    assert!(animating(&anim, 5.0));
}

fn check_tick_zoom_converges() {
    let mut anim = AnimationController::new(r64(5.0));
    anim.zoom_target = r64(8.0);
    let mut engine = engine();
    for _ in 0..100 {
        frame(&mut anim, &mut engine, 0.016);
    }
    let zoom = f(engine.viewport.zoom);
    assert!((zoom - 8.0).abs() < 0.01, "Zoom should converge to target: got {}", zoom);
}

fn check_tick_inertia_decays() {
    let mut anim = AnimationController::new(r64(5.0));
    anim.pan_velocity = (r64(500.0), r64(0.0));
    let mut engine = engine();
    for _ in 0..60 {
        frame(&mut anim, &mut engine, 0.016);
    }
    let vx = f(anim.pan_velocity.0);
    assert!(vx.abs() < 10.0, "Inertia should decay: velocity still at {}", vx);
}

fn check_begin_drag_stops_inertia() {
    let mut anim = AnimationController::new(r64(5.0));
    anim.pan_velocity = (r64(500.0), r64(300.0));
    anim.begin_drag();
    assert_eq!(anim.pan_velocity, (r64(0.0), r64(0.0)));
}

fn check_gc_fades() {
    let mut anim = AnimationController::new(r64(5.0));
    let c1 = TileCoord::new(5, 10, 10);
    let c2 = TileCoord::new(5, 11, 10);
    anim.register_tile_loaded(c1, us(1.0));
    anim.register_tile_loaded(c2, us(2.0));

    anim.gc_fades(us(2.0));
    assert!(anim.tile_fade_elapsed(&c1, us(2.0)).is_none());
    assert!(anim.tile_fade_elapsed(&c2, us(2.0)).is_some());
}

#[test]
fn interaction_test_double_click_detection() {
    check_double_click_detection();
}

#[test]
fn animation_test_double_click_detection() {
    check_double_click_detection();
}

#[test]
fn interaction_test_double_click_too_far() {
    check_double_click_too_far();
}

#[test]
fn animation_test_double_click_too_far() {
    check_double_click_too_far();
}

#[test]
fn interaction_test_double_click_too_slow() {
    check_double_click_too_slow();
}

#[test]
fn animation_test_double_click_too_slow() {
    check_double_click_too_slow();
}

#[test]
fn interaction_test_drag_velocity_estimation() {
    check_drag_velocity_estimation();
}

#[test]
fn animation_test_drag_velocity_estimation() {
    check_drag_velocity_estimation();
}

#[test]
fn interaction_test_drag_velocity_too_few_samples() {
    check_drag_velocity_too_few_samples();
}

#[test]
fn animation_test_drag_velocity_too_few_samples() {
    check_drag_velocity_too_few_samples();
}

/// With a fade of 0.3 s.
#[test]
fn interaction_test_tile_fade_lifecycle() {
    let mut anim = AnimationController::new(r64(5.0));
    anim.config.fade_duration = us(0.3);
    let coord = TileCoord::new(5, 10, 10);
    anim.register_tile_loaded(coord, us(1.0));

    let elapsed = anim.tile_fade_elapsed(&coord, us(1.15));
    assert!(elapsed.is_some());
    assert!((elapsed.unwrap() as f64 / 1e6 - 0.15).abs() < 0.001);

    let elapsed = anim.tile_fade_elapsed(&coord, us(1.5));
    assert!(elapsed.unwrap() > us(0.3) as i128);

    anim.gc_fades(us(1.5));
    assert!(anim.tile_fade_elapsed(&coord, us(1.5)).is_none());
}

#[test]
fn animation_test_tile_fade_lifecycle() {
    let mut anim = AnimationController::new(r64(5.0));
    let coord = TileCoord::new(5, 10, 10);
    anim.register_tile_loaded(coord, us(1.0));

    let elapsed = anim.tile_fade_elapsed(&coord, us(1.15));
    assert!(elapsed.is_some());
    assert!((elapsed.unwrap() as f64 / 1e6 - 0.15).abs() < 0.001);

    let after = us(1.0) + FADE_DURATION + us(0.1);
    assert!(anim.tile_fade_elapsed(&coord, after).unwrap() > FADE_DURATION as i128);

    let later = us(1.0) + FADE_DURATION + us(0.2);
    anim.gc_fades(later);
    assert!(anim.tile_fade_elapsed(&coord, later).is_none());
}

#[test]
fn interaction_test_crossfade_with_parent() {
    check_crossfade_with_parent();
}

#[test]
fn crossfade_test_crossfade_with_parent() {
    check_crossfade_with_parent();
}

#[test]
fn interaction_test_crossfade_without_parent() {
    check_crossfade_without_parent();
}

#[test]
fn crossfade_test_crossfade_without_parent() {
    check_crossfade_without_parent();
}

#[test]
fn interaction_test_touch_grace_period() {
    check_touch_grace_period();
}

#[test]
fn gestures_test_touch_grace_period() {
    check_touch_grace_period();
}

#[test]
fn interaction_test_touch_grace_skipped_for_first_finger() {
    check_touch_grace_skipped_for_first_finger();
}

#[test]
fn gestures_test_touch_grace_skipped_for_first_finger() {
    check_touch_grace_skipped_for_first_finger();
}

#[test]
fn interaction_test_touch_grace_suppresses_multi_finger_transition() {
    check_touch_grace_suppresses_multi_finger_transition();
}

#[test]
fn gestures_test_touch_grace_suppresses_multi_finger_transition() {
    check_touch_grace_suppresses_multi_finger_transition();
}

#[test]
fn interaction_test_touch_two_finger_transition() {
    check_touch_two_finger_transition();
}

#[test]
fn gestures_test_touch_two_finger_transition() {
    check_touch_two_finger_transition();
}

#[test]
fn interaction_test_animation_controller_is_animating_idle() {
    check_is_animating_idle();
}

#[test]
fn animation_test_animation_controller_is_animating_idle() {
    check_is_animating_idle();
}

#[test]
fn interaction_test_animation_controller_is_animating_zoom() {
    check_is_animating_zoom();
}

#[test]
fn animation_test_animation_controller_is_animating_zoom() {
    check_is_animating_zoom();
}

#[test]
fn interaction_test_animation_controller_is_animating_pan() {
    check_is_animating_pan();
}

#[test]
fn animation_test_animation_controller_is_animating_pan() {
    check_is_animating_pan();
}

#[test]
fn interaction_test_animation_controller_tick_zoom_converges() {
    check_tick_zoom_converges();
}

#[test]
fn animation_test_animation_controller_tick_zoom_converges() {
    check_tick_zoom_converges();
}

#[test]
fn interaction_test_animation_controller_tick_inertia_decays() {
    check_tick_inertia_decays();
}

#[test]
fn animation_test_animation_controller_tick_inertia_decays() {
    check_tick_inertia_decays();
}

#[test]
fn interaction_test_animation_controller_begin_drag_stops_inertia() {
    check_begin_drag_stops_inertia();
}

#[test]
fn animation_test_animation_controller_begin_drag_stops_inertia() {
    check_begin_drag_stops_inertia();
}

#[test]
fn interaction_test_animation_controller_gc_fades() {
    check_gc_fades();
}

#[test]
fn animation_test_animation_controller_gc_fades() {
    check_gc_fades();
}

#[test]
fn default_parameters() {
    let c = InteractionConfig::default();
    assert_eq!(c.fade_duration, 500_000);
    assert_eq!(c.double_click_time, 300_000);
    assert_eq!(c.double_click_dist, 10 * 1024);
    assert_eq!(c.pan_amount, r64(50.0));
    assert_eq!(c.zoom_step, r64(0.5));
    assert_eq!(c.keyboard_rotate, r64(10.0));
    assert_eq!(c.pitch_sensitivity, r64(0.3));
    assert_eq!(c.rotate_sensitivity, r64(0.3));
    assert_eq!(c.touch_grace_period, 80_000);
    assert_eq!(c.inertia_friction, r64(4.5));
    assert_eq!(c.inertia_min_speed, r64(1.0));
    assert_eq!(c.zoom_anim_speed, r64(16.0));
    assert_eq!(c.drag_sample_window, 100_000);
}

#[test]
fn smooth_step_values() {
    let half = smoothstep(1, 2);
    assert_eq!((half.num, half.den), (4, 8));
    let quarter = smoothstep(1, 4);
    assert_eq!((quarter.num, quarter.den), (10, 64));
    assert_eq!(smoothstep(0, 7).num, 0);
    let all = smoothstep(7, 7);
    assert_eq!(all.num, all.den);
}

fn flight(easing: EasingMode, duration: i64) -> CameraAnimation {
    CameraAnimation {
        start_lat: r64(0.0),
        start_lon: r64(0.0),
        target_lat: r64(10.0),
        target_lon: r64(20.0),
        start_zoom: r64(2.0),
        target_zoom: r64(6.0),
        start_bearing: r64(0.0),
        target_bearing: r64(90.0),
        start_pitch: r64(0.0),
        target_pitch: r64(30.0),
        duration,
        elapsed: 0,
        easing,
    }
}

#[test]
fn camera_transition_runs_and_ends() {
    let mut a = AnimationController::new(r64(2.0));
    let e = engine();
    a.pan_velocity = (r64(9.0), r64(9.0));
    a.start_camera_animation(flight(EasingMode::EaseTo, us(1.0)));
    assert_eq!(a.pan_velocity, (r64(0.0), r64(0.0)));
    assert!(a.is_animating(r64(0.0), r64(0.0)));
    match a.tick_with_mode(&e.camera, us(0.25), r64(0.0), r64(0.0)) {
        TickStep::Camera { progress, finished, anim } => {
            assert_eq!((progress.num, progress.den), (250_000, 1_000_000));
            assert!(!finished);
            assert_eq!(anim.elapsed, us(0.25));
        }
        _ => panic!("transition should run"),
    }
    match a.tick_with_mode(&e.camera, us(0.75), r64(0.0), r64(0.0)) {
        TickStep::Camera { progress, finished, .. } => {
            assert_eq!(progress.num, progress.den);
            assert!(finished);
        }
        _ => panic!("transition should run"),
    }
    assert!(a.camera_anim.is_none());
    a.settle_zoom(r64(6.0));
    assert_eq!(a.zoom_target, r64(6.0));
}

#[test]
fn flights_ease_in_and_out() {
    let mut c = flight(EasingMode::FlyTo, 4);
    c.elapsed = 1;
    let p = c.progress();
    assert_eq!((p.num, p.den), (10, 64));
    c.elapsed = 99;
    assert!(c.is_done());
    assert_eq!(c.progress().num, c.progress().den);
}

#[test]
fn slow_inertia_stops_and_near_zoom_snaps() {
    let mut a = AnimationController::new(r64(2.0));
    let e = engine();
    a.pan_velocity = (r64(0.5), r64(0.0));
    let step = a.tick_with_mode(&e.camera, us(0.016), r64(0.0005), r64(0.5));
    assert_eq!(step, TickStep::Free { zoom: ZoomStep::Snap { goal: r64(2.0) }, coast: false });
    assert_eq!(a.pan_velocity, (r64(0.0), r64(0.0)));
    let step = a.tick_with_mode(&e.camera, us(0.016), r64(0.0), r64(0.0));
    assert_eq!(step, TickStep::Free { zoom: ZoomStep::Hold, coast: false });
}

#[test]
fn zoom_goal_is_limited() {
    let mut a = AnimationController::new(r64(2.0));
    a.zoom_target = r64(99.0);
    assert_eq!(a.zoom_goal(&engine().camera), r64(22.0));
}

#[test]
fn drag_too_short_in_time_leaves_no_velocity() {
    let mut a = AnimationController::new(r64(2.0));
    a.record_drag(px(0.0, 0.0), us(1.0));
    a.record_drag(px(50.0, 0.0), us(1.0005));
    assert_eq!(a.compute_release_velocity(us(1.0005)), Release::Still);
}

#[test]
fn old_drag_samples_are_forgotten() {
    let mut a = AnimationController::new(r64(2.0));
    a.record_drag(px(0.0, 0.0), us(1.0));
    a.record_drag(px(50.0, 0.0), us(2.0));
    assert_eq!(a.drag_samples.len(), 1);
    assert_eq!(a.compute_release_velocity(us(2.05)), Release::Still);
}

#[test]
fn fade_share_is_half_in_the_middle() {
    let child = TileCoord::new(2, 1, 1);
    let parent = TileCoord::new(1, 0, 0);
    let visible = vec![VisibleTile::canonical(child)];
    let available = set(&[parent, child]);
    let mut fades: TileMap<i64> = TileMap::new();
    fades.insert(child, us(3.0));
    let (base, overlay) = compute_crossfade(&visible, &available, &fades, us(3.25));
    assert_eq!(2 * overlay[0].fade.num, overlay[0].fade.den);
    let (tiles, shares) = build_crossfade_overlay(&overlay);
    assert_eq!(tiles[0].uv_rect, UvRect::full());
    assert_eq!(shares.get(&child), Some(overlay[0].fade));

    // The base pass shows the parent meanwhile, at full opacity.
    let shown = resolve_fallbacks(&visible, &base);
    assert_eq!(shown[0].texture_coord, parent);
    assert_eq!(compute_fade_overrides(&shown, &fades, us(3.25)).len(), 0);

    // When the fade is over the tile is back in the base pass.
    let (base, overlay) = compute_crossfade(&visible, &available, &fades, us(3.5));
    assert!(overlay.is_empty());
    assert_eq!(resolve_fallbacks(&visible, &base)[0].texture_coord, child);
}

#[test]
fn a_fade_without_stand_in_changes_the_opacity() {
    let root = TileCoord::new(0, 0, 0);
    let visible = vec![VisibleTile::canonical(root)];
    let available = set(&[root]);
    let mut fades: TileMap<i64> = TileMap::new();
    fades.insert(root, 0);
    let (base, overlay) = compute_crossfade(&visible, &available, &fades, us(0.25));
    assert!(overlay.is_empty());
    let shown = resolve_fallbacks(&visible, &base);
    let shares = compute_fade_overrides(&shown, &fades, us(0.25));
    let s = shares.get(&root).unwrap();
    assert_eq!(2 * s.num, s.den);
}

#[test]
fn entering_and_departing_tiles() {
    let a = TileCoord::new(3, 1, 1);
    let b = TileCoord::new(3, 2, 1);
    let available = set(&[a, b]);
    let none: TileMap<i64> = TileMap::new();
    let mut departing: TileMap<i64> = TileMap::new();
    let (shown, entering) = update_tile_visibility(
        &[VisibleTile::canonical(a)],
        &available,
        &TileSet::new(),
        &none,
        &mut departing,
        us(1.0),
    );
    assert_eq!(entering, vec![a]);
    assert!(shown.contains(&a) && !shown.contains(&b));
    assert_eq!(departing.len(), 0);
    let (shown, entering) = update_tile_visibility(
        &[VisibleTile::canonical(b)],
        &available,
        &shown,
        &none,
        &mut departing,
        us(2.0),
    );
    assert_eq!(entering, vec![b]);
    assert!(shown.contains(&b) && !shown.contains(&a));
    assert_eq!(departing.get(&a), Some(us(2.0)));
}

#[test]
fn touching_down_and_lifting_restores_the_touches() {
    let mut ts = TouchGestureState::new();
    ts.touch_start(7, px(1.0, 2.0), us(1.0));
    let before = ts.touches.clone();
    ts.touch_start(8, px(3.0, 4.0), us(2.0));
    assert_eq!(ts.touch_count(), 2);
    assert_eq!(ts.prev_count, 1);
    ts.touch_end(8, us(3.0));
    assert_eq!(ts.touches, before);
    assert_eq!(ts.prev_count, 2);
    assert_eq!(ts.count_change_time, us(3.0));
    ts.touch_end(99, us(9.0));
    assert_eq!(ts.count_change_time, us(3.0));
}

#[test]
fn one_finger_left_over_waits_longer() {
    let mut ts = TouchGestureState::new();
    ts.touch_start(0, px(0.0, 0.0), us(0.0));
    ts.touch_start(1, px(100.0, 0.0), us(1.0));
    ts.touch_end(1, us(2.0));
    assert!(ts.process_moves(&[touch(0, 5.0, 0.0)], us(2.12)).is_none());
    assert!(ts.process_moves(&[touch(0, 9.0, 0.0)], us(2.17)).is_some());
}

#[test]
fn two_fingers_zoom_rotate_and_pitch() {
    let mut ts = TouchGestureState::new();
    ts.touch_start(0, px(0.0, 0.0), us(0.0));
    ts.touch_start(1, px(100.0, 0.0), us(1.0));
    // Both move down by ten pixels.
    match ts.process_moves(&[touch(0, 0.0, 10.0), touch(1, 100.0, 10.0)], us(2.0)) {
        Some(GestureAction::MultiTouch { action }) => {
            assert!(action.zoom);
            assert!(action.rotate);
            assert_eq!(action.pitch, Some(20 * 1024));
        }
        _ => panic!("expected a two-finger gesture"),
    }
    // A quarter turn is no slight turn, and the midpoint stays at the same height.
    match ts.process_moves(&[touch(0, 50.0, -40.0), touch(1, 50.0, 60.0)], us(2.1)) {
        Some(GestureAction::MultiTouch { action }) => {
            assert!(!action.rotate);
            assert_eq!(action.pitch, None);
        }
        _ => panic!("expected a two-finger gesture"),
    }
}

#[test]
fn turns_below_thirty_degrees_are_slight() {
    let turn = |degrees: f64| {
        let mut ts = TouchGestureState::new();
        ts.touch_start(0, px(0.0, 0.0), us(0.0));
        ts.touch_start(1, px(1000.0, 0.0), us(1.0));
        let a = degrees.to_radians();
        let moved = [touch(0, 0.0, 0.0), touch(1, 1000.0 * a.cos(), 1000.0 * a.sin())];
        match ts.process_moves(&moved, us(2.0)) {
            Some(GestureAction::MultiTouch { action }) => action.rotate,
            _ => panic!("expected a two-finger gesture"),
        }
    };
    assert!(turn(29.9));
    assert!(!turn(30.1));
    assert!(turn(-29.9));
    assert!(!turn(-30.1));
    assert!(!turn(180.0));
}

#[test]
fn fingers_on_one_spot_do_not_zoom() {
    let mut ts = TouchGestureState::new();
    ts.touch_start(0, px(10.0, 10.0), us(0.0));
    ts.touch_start(1, px(10.0, 10.0), us(1.0));
    match ts.process_moves(&[touch(1, 60.0, 10.0)], us(2.0)) {
        Some(GestureAction::MultiTouch { action }) => {
            assert!(!action.zoom);
            assert!(action.rotate);
        }
        _ => panic!("expected a two-finger gesture"),
    }
}

#[test]
fn three_fingers_do_nothing() {
    let mut ts = TouchGestureState::new();
    for id in 0..3 {
        ts.touch_start(id, px(id as f64 * 10.0, 0.0), us(id as f64));
    }
    assert!(ts.process_moves(&[touch(0, 3.0, 3.0)], us(9.0)).is_none());
    assert!(ts.process_moves(&[], us(9.0)).is_none());
}

#[test]
fn moves_of_unknown_fingers_are_ignored() {
    let mut ts = TouchGestureState::new();
    ts.touch_start(0, px(0.0, 0.0), us(0.0));
    assert!(ts.process_moves(&[touch(5, 3.0, 3.0)], us(1.0)).is_none());
    assert_eq!(ts.touches[0].pos, px(0.0, 0.0));
}
