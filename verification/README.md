# modelador

A small 3D cube modeller with a software rasterizer: cubes are transformed
by a viewing pipeline, clipped against the canonical view volume
(Sutherland-Hodgman), projected, and scan-converted with flat or Phong
shading into a colour buffer with a 16-bit depth buffer.

`src/` is the verified library (Verus). It holds everything that can be
decided over integers:

- `raster`: the frame and depth buffers and depth-tested span filling, one span or a whole polygon's spans at a time;
- `clip`: which vertices and crossings make up a polygon clipped against a plane;
- `scanline`: the rows a polygon spans, the sides crossing each row, and the
  even-odd inside test;
- `cyclic`: counting lemmas over closed polygons;
- `cube`: the cube's faces and corners;
- `editor`: the cubes of the scene with the hover and selection state;
- `motor`: the prototype browser renderer.

`app/` is the desktop program (egui) and the browser bindings
(wasm-bindgen); the geometry and lighting there are floating point.
