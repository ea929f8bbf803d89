use unladen_coconut::geometry::Geometries;
use unladen_coconut::gui::GuiState;
use unladen_coconut::input::{
    accepts_surface_size, ActiveMoveItem, ControlKeys, InputState, KeyResponse, RedrawAction,
};
use unladen_coconut::move_controller::{AxisSteps, MoveControlKeySet};

const KEYS: ControlKeys = ControlKeys { select_camera: 1, select_cube: 2, reset: 3, exit: 4 };

fn press(s: &mut InputState, code: usize) -> KeyResponse {
    s.key_event(&KEYS, Some(code), true, false, true)
}

fn release(s: &mut InputState, code: usize) -> KeyResponse {
    s.key_event(&KEYS, Some(code), false, false, true)
}

fn keybinds() -> MoveControlKeySet {
    MoveControlKeySet {
        rot_x_ccw: 10,
        rot_x_cw: 11,
        rot_y_ccw: 12,
        rot_y_cw: 13,
        rot_z_ccw: 14,
        rot_z_cw: 15,
        trans_x_dec: 20,
        trans_x_inc: 21,
        trans_y_dec: 22,
        trans_y_inc: 23,
        trans_z_dec: 24,
        trans_z_inc: 25,
    }
}

#[test]
fn keys_are_held_between_press_and_release() {
    let mut s = InputState::new();
    assert!(!s.is_pressed(7));
    assert_eq!(press(&mut s, 7), KeyResponse { exit: false, pass_to_gui: true });
    assert!(s.is_pressed(7));
    release(&mut s, 7);
    assert!(!s.is_pressed(7));
}

#[test]
fn repeats_and_early_keys_are_ignored() {
    let mut s = InputState::new();
    let r = s.key_event(&KEYS, Some(7), true, true, true);
    assert_eq!(r, KeyResponse { exit: false, pass_to_gui: false });
    assert!(!s.is_pressed(7));
    let r = s.key_event(&KEYS, Some(7), true, false, false);
    assert_eq!(r, KeyResponse { exit: false, pass_to_gui: false });
    assert!(!s.is_pressed(7));
    let r = s.key_event(&KEYS, None, true, false, true);
    assert_eq!(r, KeyResponse { exit: false, pass_to_gui: true });
}

#[test]
fn exit_key_asks_to_quit() {
    let mut s = InputState::new();
    assert!(press(&mut s, 4).exit);
    assert!(!release(&mut s, 4).exit);
}

#[test]
fn redraw_chooses_the_item_and_reset() {
    let mut s = InputState::new();
    assert_eq!(s.active_move_item(), ActiveMoveItem::Cube);
    assert_eq!(s.redraw(&KEYS, false), RedrawAction::Nothing);
    press(&mut s, 1);
    assert_eq!(s.redraw(&KEYS, true), RedrawAction::DrawCamera { reset: false });
    release(&mut s, 1);
    assert_eq!(s.active_move_item(), ActiveMoveItem::Camera);
    press(&mut s, 3);
    assert_eq!(s.redraw(&KEYS, true), RedrawAction::DrawCamera { reset: true });
    press(&mut s, 1);
    press(&mut s, 2);
    assert_eq!(s.redraw(&KEYS, true), RedrawAction::DrawCube { reset: true });
}

#[test]
fn press_then_release_restores_the_held_keys() {
    let mut s = InputState::new();
    press(&mut s, 9);
    press(&mut s, 5);
    release(&mut s, 5);
    assert!(s.is_pressed(9));
    assert!(!s.is_pressed(5));
}

#[test]
fn surface_sizes() {
    assert!(accepts_surface_size(800, 600));
    assert!(!accepts_surface_size(0, 600));
    assert!(!accepts_surface_size(800, 0));
}

#[test]
fn rotation_axis_from_keys() {
    let mut s = InputState::new();
    let k = keybinds();
    assert_eq!(k.rotation_axis(s.pressed_keys()), AxisSteps { x: 0, y: 0, z: 0 });
    press(&mut s, 10);
    press(&mut s, 13);
    press(&mut s, 14);
    assert_eq!(k.rotation_axis(s.pressed_keys()), AxisSteps { x: 1, y: -1, z: -1 });
    press(&mut s, 11);
    press(&mut s, 15);
    assert_eq!(k.rotation_axis(s.pressed_keys()), AxisSteps { x: 0, y: -1, z: 0 });
    assert_eq!(k.trans_dir(s.pressed_keys()), AxisSteps { x: 0, y: 0, z: 0 });
}

#[test]
fn translation_direction_from_keys() {
    let mut s = InputState::new();
    let k = keybinds();
    press(&mut s, 20);
    press(&mut s, 23);
    press(&mut s, 25);
    assert_eq!(k.trans_dir(s.pressed_keys()), AxisSteps { x: -1, y: 1, z: 1 });
    press(&mut s, 24);
    assert_eq!(k.trans_dir(s.pressed_keys()), AxisSteps { x: -1, y: 1, z: 0 });
}

#[test]
fn gui_starts_with_a_wireframe_sphere() {
    let g = GuiState::new();
    assert_eq!(g.subdivisions, 2);
    assert!(g.mesh_dirty && g.wireframe_mode && !g.wireframe_mode_dirty);
    assert_eq!(g.selected_geometry, Geometries::Sphere);
    assert_eq!(g.frame_time_max_nanos, 0);
}

#[test]
fn frame_statistics() {
    let mut g = GuiState::new();
    let s = g.frame_stats(16_700_000);
    assert_eq!(s.fps, 62);
    assert_eq!(s.frame_time_ms, 16);
    assert_eq!(s.frame_time_max_ms, 16);
    let s = g.frame_stats(500_000);
    assert_eq!(s.fps, 0);
    assert_eq!(s.frame_time_ms, 0);
    assert_eq!(s.frame_time_max_ms, 16);
    assert_eq!(g.frame_time_max_nanos, 16_700_000);
}

#[test]
fn control_changes_mark_what_to_rebuild() {
    let mut g = GuiState::new();
    g.mesh_dirty = false;
    assert!(!g.controls_changed(false, false, Geometries::Sphere));
    assert!(!g.mesh_dirty && !g.wireframe_mode_dirty);
    assert!(g.controls_changed(true, false, Geometries::Sphere));
    assert!(g.wireframe_mode_dirty && !g.mesh_dirty);
    g.selected_geometry = Geometries::Cube;
    assert!(!g.controls_changed(false, false, Geometries::Sphere));
    assert!(g.mesh_dirty);
    g.mesh_dirty = false;
    assert!(g.controls_changed(false, true, Geometries::Cube));
    assert!(g.mesh_dirty);
}

#[test]
fn releasing_any_key_code_is_accepted() {
    let mut s = InputState::new();
    press(&mut s, 5);
    let r = release(&mut s, usize::MAX);
    assert_eq!(r, KeyResponse { exit: false, pass_to_gui: true });
    assert!(s.is_pressed(5));
    assert!(!s.is_pressed(usize::MAX));
}
