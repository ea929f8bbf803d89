//! The viewer's reaction to keys: which keys are held, which item the keys
//! control, and what each window event asks the viewer to do.
use crate::key_set::{key_codes, KeySet};
use vstd::prelude::*;

verus! {

/// The item that the movement keys currently control.
#[derive(Clone, Copy, Debug, PartialEq, Eq, Structural)]
pub enum ActiveMoveItem {
    Camera,
    Cube,
}

/// Key codes with a fixed meaning: choose the camera, choose the cube, put
/// the controlled item back where it started, and quit.
#[derive(Clone, Copy, Debug, PartialEq, Eq, Structural)]
pub struct ControlKeys {
    pub select_camera: usize,
    pub select_cube: usize,
    pub reset: usize,
    pub exit: usize,
}

/// What the viewer does after a key event.
#[derive(Clone, Copy, Debug, PartialEq, Eq, Structural)]
pub struct KeyResponse {
    /// Leave the event loop.
    pub exit: bool,
    /// Hand the event on to the controls overlay.
    pub pass_to_gui: bool,
}

/// What a redraw request asks for.
#[derive(Clone, Copy, Debug, PartialEq, Eq, Structural)]
pub enum RedrawAction {
    /// Nothing can be drawn yet.
    Nothing,
    /// Move the camera (after resetting it, if asked) and draw a frame.
    DrawCamera { reset: bool },
    /// Move the cube (after resetting it, if asked) and draw a frame.
    DrawCube { reset: bool },
}

/// The keys held down and the item they control.
pub struct InputState {
    pressed_keys: KeySet,
    active_move_item: ActiveMoveItem,
}

/// The keys held after a key event: a new press adds its key and a release
/// takes it away, once something can be drawn; repeated presses and keys
/// without a code change nothing.
pub open spec fn keys_after_event(
    held: Set<usize>,
    code: Option<usize>,
    pressed: bool,
    repeat: bool,
    renderer_ready: bool,
) -> Set<usize> {
    if repeat || !renderer_ready {
        held
    } else {
        match code {
            Some(c) => if pressed {
                held.insert(c)
            } else {
                held.remove(c)
            },
            None => held,
        }
    }
}

/// The item controlled after a redraw with `held` keys: the cube key wins
/// over the camera key, and without either the choice stays.
pub open spec fn item_after_redraw(
    item: ActiveMoveItem,
    held: Set<usize>,
    keys: ControlKeys,
) -> ActiveMoveItem {
    if held.contains(keys.select_cube) {
        ActiveMoveItem::Cube
    } else if held.contains(keys.select_camera) {
        ActiveMoveItem::Camera
    } else {
        item
    }
}

impl InputState {
    /// The codes of the keys held down.
    pub closed spec fn pressed_codes(&self) -> Set<usize> {
        key_codes(self.pressed_keys)
    }

    /// The item that the movement keys control.
    pub closed spec fn active(&self) -> ActiveMoveItem {
        self.active_move_item
    }

    /// The item that the movement keys control.
    pub fn active_move_item(&self) -> (item: ActiveMoveItem)
        ensures
            item == self.active(),
    {
        self.active_move_item
    }

    /// No key held; the keys control the cube.
    pub fn new() -> (s: InputState)
        ensures
            s.pressed_codes() == Set::<usize>::empty(),
            s.active() == ActiveMoveItem::Cube,
    {
        InputState { pressed_keys: KeySet::empty(), active_move_item: ActiveMoveItem::Cube }
    }

    /// The keys held down.
    pub fn pressed_keys(&self) -> (keys: &KeySet)
        ensures
            key_codes(*keys) == self.pressed_codes(),
    {
        &self.pressed_keys
    }

    /// Whether the key `code` is held down.
    pub fn is_pressed(&self, code: usize) -> (held: bool)
        ensures
            held == self.pressed_codes().contains(code),
    {
        self.pressed_keys.contains(code)
    }

    /// A key was pressed (`pressed`) or released, `code` being its code if it
    /// has one. Repeats of a held key are dropped altogether. Keys count only
    /// once something can be drawn; pressing the exit key then asks to quit.
    pub fn key_event(
        &mut self,
        keys: &ControlKeys,
        code: Option<usize>,
        pressed: bool,
        repeat: bool,
        renderer_ready: bool,
    ) -> (r: KeyResponse)
        requires
            pressed && !repeat && renderer_ready ==> (code matches Some(c) ==> c < usize::MAX),
        ensures
            final(self).pressed_codes() == keys_after_event(
                old(self).pressed_codes(),
                code,
                pressed,
                repeat,
                renderer_ready,
            ),
            final(self).active() == old(self).active(),
            r.exit == (!repeat && renderer_ready && pressed && code == Some(keys.exit)),
            r.pass_to_gui == (!repeat && renderer_ready),
    {
        if repeat {
            return KeyResponse { exit: false, pass_to_gui: false };
        }
        let mut exit = false;
        if renderer_ready {
            match code {
                Some(c) => {
                    if pressed {
                        self.pressed_keys.insert(c);
                        if c == keys.exit {
                            exit = true;
                        }
                    } else {
                        self.pressed_keys.remove(c);
                    }
                },
                None => {},
            }
        }
        KeyResponse { exit, pass_to_gui: renderer_ready }
    }

    /// A frame is due: the camera and cube keys choose the controlled item,
    /// and once something can be drawn that item is moved, reset first if
    /// the reset key is held, and a frame drawn.
    pub fn redraw(&mut self, keys: &ControlKeys, renderer_ready: bool) -> (action: RedrawAction)
        ensures
            final(self).pressed_codes() == old(self).pressed_codes(),
            final(self).active() == item_after_redraw(
                old(self).active(),
                old(self).pressed_codes(),
                *keys,
            ),
            !renderer_ready ==> action == RedrawAction::Nothing,
            renderer_ready && final(self).active() == ActiveMoveItem::Camera ==> action
                == (RedrawAction::DrawCamera {
                    reset: old(self).pressed_codes().contains(keys.reset),
                }),
            renderer_ready && final(self).active() == ActiveMoveItem::Cube ==> action
                == (RedrawAction::DrawCube {
                    reset: old(self).pressed_codes().contains(keys.reset),
                }),
    {
        if self.pressed_keys.contains(keys.select_camera) {
            self.active_move_item = ActiveMoveItem::Camera;
        }
        if self.pressed_keys.contains(keys.select_cube) {
            self.active_move_item = ActiveMoveItem::Cube;
        }
        if !renderer_ready {
            return RedrawAction::Nothing;
        }
        let reset = self.pressed_keys.contains(keys.reset);
        match self.active_move_item {
            ActiveMoveItem::Camera => RedrawAction::DrawCamera { reset },
            ActiveMoveItem::Cube => RedrawAction::DrawCube { reset },
        }
    }
}

/// Whether the drawing surface can take a new size: both sides non-zero.
pub fn accepts_surface_size(width: u32, height: u32) -> (ok: bool)
    ensures
        ok == (width != 0 && height != 0),
{
    width != 0 && height != 0
}

/// Pressing a key that was not held and releasing it again leaves the held
/// keys as they were.
pub proof fn lemma_press_release_restores(held: Set<usize>, code: usize)
    requires
        !held.contains(code),
    ensures
        keys_after_event(
            keys_after_event(held, Some(code), true, false, true),
            Some(code),
            false,
            false,
            true,
        ) == held,
{
    assert(held.insert(code).remove(code) =~= held);
}

/// Releasing a key always leaves it not held, and pressing it always leaves
/// it held, whatever was held before.
pub proof fn lemma_last_event_decides(held: Set<usize>, code: usize, pressed: bool)
    ensures
        keys_after_event(held, Some(code), pressed, false, true).contains(code) == pressed,
{
}

} // verus!
