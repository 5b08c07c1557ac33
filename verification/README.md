# nitroray

The verified core of a small ray tracer.

`src/` is a Verus library holding the ray tracer's integer and structural
logic, each function with a contract proved by Verus:

- `octree`: a generic octree whose nodes carry a bounding box of the caller's type;
- `mesh`: triangles assembled from a glTF index stream, and the construction of a
  mesh's octree (the box placement and the triangle/box overlap test are supplied
  by the caller), with the shape and soundness of the resulting tree;
- `hits`: the choice of the nearest of a list of ray hits;
- `scene`: material lookup by identifier and the plan that loads every shared
  texture or model once;
- `render`: the split of the framebuffer between render workers (disjoint, and
  covering the image under the stated conditions) and framebuffer addressing;
- `texture`, `trace`: texel clamping and the ray recursion limit.

`app/` is the program around it: JSON scene loading, glTF and image I/O, the
floating-point geometry and shading (with `glam`), and the render loop.
`tests/` exercises the library on concrete values.
