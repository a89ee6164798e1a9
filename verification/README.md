# crochet_generator

Turns a triangle mesh (an STL file) into rows of crochet stitches: from a seed point it walks
the mesh along geodesics, cuts the surface into isolines (rows of circles), joins the circles
into a tree, and counts where walks back towards the seed cross the rows.

The crate is written in Verus. `src/` holds the combinatorial core, each function with a
contract proved by Verus:

- `mesh`: mesh connectivity (faces around each vertex, faces shared by vertices, the edges and
  vertices a walk step can reach, index buffers), read from STL bytes by `stl`.
- `isoline_map`: which isoline nodes lie on which mesh edge; which row a walk along an edge
  crosses.
- `circles`: sorting isoline nodes by circle and by place on the circle.
- `crossing`: the walk round a face that decides whether a backtrack segment crosses an isoline
  segment.
- `geometry`: exact segment intersection on fixed-point coordinates.
- `connect`: joining circles into a tree, and the decisions of the walk back to the row before.
- `chunks`, `processor_state`: bookkeeping for the debug renderer and the background job.

`app/` is the program around it: file reading, floating-point geometry, rendering with
`three-d`, and the tokio task that drives the debug display.
