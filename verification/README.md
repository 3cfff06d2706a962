# contour

A vector-network editor core for the browser: nodes joined by edges
(lines, cubics, polylines), shapes made of edges, filled regions, layers
and groups, gradients and text elements.

## Layout

- `src/` is the verified library (Verus). It holds the logic that decides
  which items exist and how they are connected; positions and curve
  geometry are payloads of generic types that it stores and hands back.
  - `graph.rs`, `graph_layers.rs`: the network, its region fills and the
    layer/group forest seen through it; `layers.rs`: the forest itself.
  - `faces.rs`: tracing face boundaries of a planar subdivision;
    `regions.rs`: region keys (independent of where and in which direction
    a boundary is read); `rings.rs`: rings used when no face is found.
  - `cycles.rs`: inferring shapes from closed loops of edges;
    `detach.rs`: which nodes move when edges are dragged, and detaching
    dragged edges from edges that stay.
  - `boolean.rs`: operands, kept regions and the result for shapes that do
    not cross; `picking.rs`: first-occurrence deduplication.
  - `text.rs`: text elements; `store.rs`: id-indexed slots and gradients.
  - `document.rs`: saving a drawing as a document and loading one back:
    caps, refused documents and their error codes, id slots, the layer
    migration of old documents and the rebuild of layers and groups.
  - `errors.rs`, `replies.rs`, `api.rs`: the checked operations and their
    structured errors; `svg.rs`: XML escaping; `pathdata.rs`: the items
    of SVG path data; `model.rs`: plain types.
- `app/` is the JavaScript-facing layer and everything that computes on
  floating point: planarization, angles and areas, hit testing, path
  lengths, reading numbers of SVG path data and SVG export, freehand fitting, text layout and
  outlines, boolean geometry.
  It also reads and writes JSON documents, converting them to and from
  the library's documents and checking their coordinates and widths.
- `tests/` exercises the library from outside.

Not carried: the incremental region updates (a cache over subset
planarization; regions are always computed in full); elliptical arcs in
SVG path data (`A`/`a`), which some tests expect but no import code reads;
and undo/redo, whose code is not part of the build.
Effects in JSON documents are not read or written.
