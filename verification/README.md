# pathfinder

A library for building graphs of positioned nodes and groups of nodes, and for
drawing them, with their connecting lines, onto an RGBA image. Its behaviour
is stated in Verus contracts and proved.

Layout of `src/`:

- `lib.rs`: `Coordinate` and `Color`.
- `tools.rs`: line plotting (Bresenham) with its exact closed form, and colour
  clamping.
- `shape.rs`: the `Shape` trait and the square, triangle and midpoint-circle
  areas, with their symmetry and bounds laws.
- `data.rs`: name hashing and letter names (trusted calls into std).
- `coordinates.rs`: building values from lists, random placement around a
  centre (trusted calls into `rand`).
- `node.rs`, `group.rs`: nodes, links, groups, reachability.
- `canvas.rs`: the image, seen through its size and pixel map (trusted calls
  into `image`), and the meaning of a run of pixel writes.
- `draw.rs`: the `Draw` trait and exactly which pixels nodes, links and groups
  write.
- `network.rs`: lookup by name and first-link paths.
- `image_map.rs`: fitting an image to a set of elements and drawing them all.

`app/` holds what computes with floating point, the shade a group gives the
nodes it creates, and the printing of the nodes a first-link path goes to.
