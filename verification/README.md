# unladen_coconut

A small mesh viewer: a window that shows a sphere, a polygonal prism or a
cube, turned and moved with the keyboard, with an egui overlay to choose the
shape, its subdivision level and wireframe drawing.

- `src/` is the library, written in Verus. It builds the meshes'
  triangle lists and exact vertex recipes (`geometry`): the cube, the
  icosahedron and the pie-sliced prism, each shown closed and wound one way
  throughout, and the sphere of `12 · 2^level` triangles made from the
  cube's faces, every triangle shown to turn as the cube's do. It
  subdivides triangles on a shared regular grid of points per triangle,
  every resulting cell keeping the parent's counter-clockwise winding and
  every point in use; tracks the keys held down in a `bit_set::BitSet`
  (`key_set`, `input`, `move_controller`); and keeps the overlay's settings
  (`gui`). No floating point appears there.
- `app/` is the program around it: winit, wgpu and egui, the float
  evaluation of vertex recipes, and the camera and movement matrices (glam).
  It reads its WGSL shaders `shader.wgsl` and `shader-wireframe.wgsl` from the
  directory named by `UNLADEN_COCONUT_SHADERS` (default `shaders`).
- `tests/` exercises the library.
