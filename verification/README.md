# landsurvey

The Land Survey add-on for Open CAD Studio, with its decisions and file
formats verified in Verus.

## Layout

- `src/` — the verified library:
  - `text.rs` — character-level building blocks (`split`, `splitn`,
    `split_whitespace`, `lines`, `trim`, `replace`) with their specifications;
  - `pnezd.rs`, `resection.rs`, `transform.rs` — the text side of PNEZD point
    files, resection shot files and Helmert control-pair files;
  - `landxml.rs` — the LandXML TIN scanner and the face-id resolution;
  - `xdata.rs` — the raw XDATA byte codec and the per-entity commit/hydrate
    decisions that keep `LANDSURVEY_*` records through DWG save and reopen;
  - `tables.rs` — which application ids and layers the drawing's name tables
    need before a save;
  - `state.rs` — the session's surfaces, stored by name regardless of ASCII case;
  - `dispatch.rs` — command routing, arguments and keyword modes;
  - `ribbon.rs` — the ribbon tab;
  - `surface.rs` — TIN edges and the combinatorial step of incremental
    Delaunay triangulation (refilling the cavity a new point opens);
  - `dxf.rs`, `viz.rs`, `plan.rs` — the DXF layer table, SVG text pieces, plan
    label codes and direction-independent segment keys.
- `tests/` — tests of the library on concrete values.
- `app/` — the plugin around the library: host glue, the document model, and
  the real-valued survey math (COGO, volumes, triangulation, transforms,
  resection solvers, animated SVG), which stays in ordinary Rust.
