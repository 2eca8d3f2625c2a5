# raytracer

The scene index and model loading of a small ray tracer, verified with Verus.

`src/` is the verified library:

- `scalar` - single-precision numbers held by their IEEE-754 bit patterns,
  with the hardware's comparisons, `min`, `max`, `abs` and negation.
- `geometry` - points, axis-aligned boxes (splitting, overlap) and the
  bounding box of a triangle.
- `scene` - the coordinate axes, the k-d tree over the objects' bounding
  boxes (building and searching it), and rays and hits.
- `hits` - the decisions of the ray-sphere, ray-triangle and ray-box tests.
- `models` - reading the triangles of a PLY model (parsed with `ply-rs`).
- `tone` - the largest luminance of an image.

The library never does floating-point arithmetic; where an algorithm needs a
midpoint or a ray parameter, its caller passes a function that computes it.

`app/` is the renderer around the library: materials and shading, object
transforms and intersection arithmetic, the camera, tone mapping and image
output, all of which compute with floating-point numbers.
