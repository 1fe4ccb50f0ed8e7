# rsnav

Navigation meshes with proofs: a Verus library that triangulates planar
straight-line graphs, turns triangle soups into walkable regions, and finds
paths across regions and stitched layers.

## Numbers

Coordinates are given by the bits of binary64 numbers. The geometric predicates
are exact: they read the bits as integers and compare with big integers, so a
sign is never rounded. Costs are ordered by their bits too, which order
nonnegative numbers as the numbers do. On the voxel side everything is counted
in cells and half cells; world units appear only in `app/`.

## How triangulations are built

`delaunay` divides the vertices, triangulates the halves and merges them. What
comes of it is compared with the definition: no vertex inside any circle, as
many triangles as Euler's relation asks for. Should it not be the Delaunay
triangulation, the vertices are triangulated anew, outward from one triangle,
and edges are flipped until all are locally Delaunay. That this ends, and ends
with the Delaunay triangulation, is proved for every set of vertices, so that
`delaunay` succeeds on every mesh that holds no triangle yet and has room.

`insert_segment` refuses a segment that crosses a subsegment. Any other is dug
into the triangulation, and the outcome is looked at. Should it not hold the
segment, or not be a constrained Delaunay triangulation any more, the segment is
led from corner to corner instead: edges across it are flipped, always one at
which the plane, folded along the segment, bends down, until an edge runs along
it. There is such an edge as long as the segment is not one, and each flip lets
the folded plane down, so that every segment that crosses no subsegment goes in.
`form_skeleton` does the same for a whole graph, and takes every graph of whose
segments no two cross.

A string is pulled tight through the doorways of a channel. That each of its
stretches passes between the ends of all doorways on its way is proved for
every channel of triangles that lie side by side.

## Layout

- `src/` the library
  - `bigint`, `coord`, `predicates` exact arithmetic and orientation tests
  - `mesh`, `flip`, `sort`, `divconq`, `knitting`, `empty_circle`, `plane`,
    `lawson`, `advance` the triangle mesh and its Delaunay triangulation
  - `paving`, `settle`, `fold`, `forcing`, `threading`, `skeleton`, `survey`
    triangulations with constrained edges
  - `pslg`, `segment`, `trail`, `holes`, `clip`, `winding`, `cull`, `inset`
    constraints, holes, ears and rings
  - `text`, `io`, `write`, `roundtrip`, `obj`, `stl`, `messages` file formats
  - `grid`, `voxelize`, `walkability`, `distance`, `watershed`, `contour`,
    `portals`, `navmesh` from soups to regions
  - `search`, `channel`, `funnel`, `taut`, `pathfind` paths in and across regions
  - `world`, `unionfind`, `path`, `crossing` stitched layers
  - `polysoup`, `builder`, `synth`, `scene`, `config`, `output` what goes in and
    comes out
- `tests/` the library run on concrete values
- `app/` world units, files and the command line

What goes on outside (parsing and printing decimal fractions, distances, whether
a triangle meets a cell) comes into the library through closures or as plain
values.
