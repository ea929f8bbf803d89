//! Which way the held keys ask an object to move and to turn.
use crate::key_set::{key_codes, KeySet};
use vstd::prelude::*;

verus! {

/// The keys that move an object along and turn it about each axis, as key
/// codes.
#[derive(Clone, Copy, Debug, PartialEq, Eq, Structural)]
pub struct MoveControlKeySet {
    pub trans_x_dec: usize,
    pub trans_x_inc: usize,
    pub trans_y_dec: usize,
    pub trans_y_inc: usize,
    pub trans_z_dec: usize,
    pub trans_z_inc: usize,
    pub rot_x_ccw: usize,
    pub rot_x_cw: usize,
    pub rot_y_ccw: usize,
    pub rot_y_cw: usize,
    pub rot_z_ccw: usize,
    pub rot_z_cw: usize,
}

/// A direction given as one step of -1, 0 or 1 along each axis, before it
/// is scaled to length 1.
#[derive(Clone, Copy, Debug, PartialEq, Eq, Structural)]
pub struct AxisSteps {
    pub x: i8,
    pub y: i8,
    pub z: i8,
}

/// 1 if `code` is held, else 0.
pub open spec fn held(keys: Set<usize>, code: usize) -> int {
    if keys.contains(code) {
        1
    } else {
        0
    }
}

/// The step along one axis: +1 for the key that increases, -1 for the one
/// that decreases, nothing when both or neither are held.
pub open spec fn axis_step(keys: Set<usize>, inc: usize, dec: usize) -> int {
    held(keys, inc) - held(keys, dec)
}

fn step(pressed_keys: &KeySet, inc: usize, dec: usize) -> (s: i8)
    ensures
        s == axis_step(key_codes(*pressed_keys), inc, dec),
{
    let mut s: i8 = 0;
    if pressed_keys.contains(inc) {
        s = s + 1;
    }
    if pressed_keys.contains(dec) {
        s = s - 1;
    }
    s
}

impl MoveControlKeySet {
    /// The axis to turn about: counter-clockwise keys count positive about x
    /// and y, and negative about z.
    pub fn rotation_axis(&self, pressed_keys: &KeySet) -> (axis: AxisSteps)
        ensures
            axis.x == axis_step(key_codes(*pressed_keys), self.rot_x_ccw, self.rot_x_cw),
            axis.y == axis_step(key_codes(*pressed_keys), self.rot_y_ccw, self.rot_y_cw),
            axis.z == axis_step(key_codes(*pressed_keys), self.rot_z_cw, self.rot_z_ccw),
    {
        AxisSteps {
            x: step(pressed_keys, self.rot_x_ccw, self.rot_x_cw),
            y: step(pressed_keys, self.rot_y_ccw, self.rot_y_cw),
            z: step(pressed_keys, self.rot_z_cw, self.rot_z_ccw),
        }
    }

    /// The direction to move in.
    pub fn trans_dir(&self, pressed_keys: &KeySet) -> (dir: AxisSteps)
        ensures
            dir.x == axis_step(key_codes(*pressed_keys), self.trans_x_inc, self.trans_x_dec),
            dir.y == axis_step(key_codes(*pressed_keys), self.trans_y_inc, self.trans_y_dec),
            dir.z == axis_step(key_codes(*pressed_keys), self.trans_z_inc, self.trans_z_dec),
    {
        AxisSteps {
            x: step(pressed_keys, self.trans_x_inc, self.trans_x_dec),
            y: step(pressed_keys, self.trans_y_inc, self.trans_y_dec),
            z: step(pressed_keys, self.trans_z_inc, self.trans_z_dec),
        }
    }
}

} // verus!
