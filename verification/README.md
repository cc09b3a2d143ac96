# eruptrace

The verified core of a GPU ray tracer, written in Verus.

`src/` is the library, every function of it verified but those that call
outside crates: `scene::decode_rgba8`, which decodes an image file with the
`image` crate, and `json::parse_json`, which parses a JSON text with `serde_json`
(with `json::json_value_from`, which converts what it reads); their contracts are
trusted.

- `mesh`: fixed-point points, triangles and indexed meshes; the triangles of a
  mesh and their bounds.
- `bih`: the bounding interval hierarchy built over a scene's triangles, with
  its layout proved (every node over a window of the triangle list, leaves
  holding every triangle once, clipping planes that bound each child, and the
  nodes forming one binary tree rooted at node 0), and the exact order of the
  triangles and the exact nodes that the build gives (`bih_build`).
- `materials`: material types by name, materials from their descriptions.
- `scene`: putting a scene together (meshes kept in their own coordinates with
  their transforms, beside the triangles that the transforms place), and
  array-texture data from image files.
- `json`: JSON values as `serde_json` reads them, and reading members, strings,
  numbers and lists out of them.
- `description`: the entries of a scene description's text (its image tables,
  materials and meshes), and which of them the scene is built from.
- `geometry`, `gui`: the buffers and draws of the rasterising passes, and the
  countdown before GPU resources are destroyed, with the retiring of old meshes
  and the decision to grow a buffer.
- `pipeline`, `surface`: how a pipeline groups its descriptor bindings into
  writes and pool sizes, and which surface format the renderer draws to.
- `push_constants`, `args`: the ray tracer's switches and the program's arguments.
- `seqs`: facts about sequences reordered inside a window.

`app/` is the program around it: command line, files, and the floating-point
work: turning the numbers of the description into fixed-point coordinates and
single-precision bit patterns, the camera, and the mesh transforms.

`tests/` runs the library on concrete scenes.
