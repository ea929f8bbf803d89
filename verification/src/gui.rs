//! The state behind the viewer's controls overlay: the chosen shape, its
//! subdivision level, wireframe drawing, what needs rebuilding, and frame
//! timing.
use crate::geometry::Geometries;
use vstd::prelude::*;

verus! {

/// The settings chosen in the controls overlay and what they require to be
/// rebuilt.
#[derive(Clone, Copy, Debug, PartialEq, Eq, Structural)]
pub struct GuiState {
    /// The mesh must be built again.
    pub mesh_dirty: bool,
    /// The subdivision level (for the prism: the number of sides).
    pub subdivisions: u32,
    /// Draw edges instead of filled faces.
    pub wireframe_mode: bool,
    /// The render pipeline must be built again for a changed drawing mode.
    pub wireframe_mode_dirty: bool,
    /// The shape shown.
    pub selected_geometry: Geometries,
    /// The shape was changed.
    pub selected_geometry_dirty: bool,
    /// The longest frame seen so far, in nanoseconds.
    pub frame_time_max_nanos: u128,
}

/// The frame statistics that the overlay shows.
#[derive(Clone, Copy, Debug, PartialEq, Eq, Structural)]
pub struct FrameStats {
    /// Frames per second for the last frame's duration, in whole
    /// milliseconds; 0 for a frame shorter than a millisecond.
    pub fps: u128,
    /// The last frame's duration in whole milliseconds.
    pub frame_time_ms: u128,
    /// The longest frame's duration in whole milliseconds.
    pub frame_time_max_ms: u128,
}

impl GuiState {
    /// The smallest subdivision level the overlay offers.
    pub const MIN_SUBDIVISIONS: u32 = 0;
    /// The largest subdivision level the overlay offers.
    pub const MAX_SUBDIVISIONS: u32 = 10;

    /// The starting settings: a sphere at level 2, drawn as a wireframe,
    /// with its mesh still to be built.
    pub fn new() -> (g: GuiState)
        ensures
            g.subdivisions == 2,
            g.mesh_dirty,
            g.wireframe_mode,
            !g.wireframe_mode_dirty,
            g.selected_geometry == Geometries::Sphere,
            g.selected_geometry_dirty,
            g.frame_time_max_nanos == 0,
    {
        GuiState {
            subdivisions: 2,
            mesh_dirty: true,
            wireframe_mode: true,
            wireframe_mode_dirty: false,
            selected_geometry: Geometries::Sphere,
            selected_geometry_dirty: true,
            frame_time_max_nanos: 0,
        }
    }

    /// Records a frame that took `dt_nanos` nanoseconds and gives the
    /// statistics to show.
    pub fn frame_stats(&mut self, dt_nanos: u128) -> (stats: FrameStats)
        ensures
            final(self).frame_time_max_nanos == if dt_nanos > old(self).frame_time_max_nanos {
                dt_nanos
            } else {
                old(self).frame_time_max_nanos
            },
            stats.frame_time_ms == dt_nanos / 1_000_000,
            stats.frame_time_max_ms == final(self).frame_time_max_nanos / 1_000_000,
            stats.fps == if dt_nanos / 1_000_000 != 0 {
                1000u128 / (dt_nanos / 1_000_000)
            } else {
                0
            },
            *final(self) == (GuiState {
                frame_time_max_nanos: final(self).frame_time_max_nanos,
                ..*old(self)
            }),
    {
        if dt_nanos > self.frame_time_max_nanos {
            self.frame_time_max_nanos = dt_nanos;
        }
        let dt_ms: u128 = dt_nanos / 1_000_000;
        let fps: u128 = if dt_ms != 0 {
            1000 / dt_ms
        } else {
            0
        };
        FrameStats {
            fps,
            frame_time_ms: dt_ms,
            frame_time_max_ms: self.frame_time_max_nanos / 1_000_000,
        }
    }

    /// Takes note of what the controls changed in a frame: the drawing mode,
    /// the subdivision level, or the shape (compared with `geometry_before`,
    /// the shape at the start of the frame). Gives whether another frame
    /// should be drawn at once to show the change.
    pub fn controls_changed(
        &mut self,
        wireframe_changed: bool,
        subdivisions_changed: bool,
        geometry_before: Geometries,
    ) -> (repaint: bool)
        ensures
            final(self).wireframe_mode_dirty == (old(self).wireframe_mode_dirty
                || wireframe_changed),
            final(self).mesh_dirty == (old(self).mesh_dirty || subdivisions_changed
                || geometry_before != old(self).selected_geometry),
            *final(self) == (GuiState {
                wireframe_mode_dirty: final(self).wireframe_mode_dirty,
                mesh_dirty: final(self).mesh_dirty,
                ..*old(self)
            }),
            repaint == (wireframe_changed || subdivisions_changed),
    {
        if wireframe_changed {
            self.wireframe_mode_dirty = true;
        }
        if subdivisions_changed {
            self.mesh_dirty = true;
        }
        if geometry_before != self.selected_geometry {
            self.mesh_dirty = true;
        }
        wireframe_changed || subdivisions_changed
    }
}

} // verus!
