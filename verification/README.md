# zeno_compositor

The core of a retained-mode UI compositor, written in Verus and verified:
every public function carries a contract over a mathematical model of its
data, and laws that relate several calls are proved as lemmas. A frame of
the tile cache is stated exactly: which surface each tile receives and which
reusable surfaces stay pooled. Its counters are bounded, so a caller checks
`TileCache::has_frame_headroom` before each frame.

## Layout

- `src/` — the verified library.
  - `invalidation` — dirty flags and what each kind of invalidation asks for.
  - `retained` — the compose tree's preorder index and its dirty-root
    bookkeeping (which nodes need layout again, and from where).
  - `damage` — damage regions and their accumulation over a frame.
  - `tile`, `resource_pool`, `tile_cache` — the tile grid, the surfaces that
    back tiles, and the cache that plans each frame, recycles surfaces and
    keeps its reusable pool within budget; `tile_alloc` states a frame's
    surface bookkeeping as a replay of its steps.
  - `planner`, `composite` — the layer tree built from stacking contexts and
    the composite pass that draws it.
  - `render_scope` — how a display-list renderer finds stacking contexts and
    clip chains by id and orders the painting of a scope.
  - `layer_ops` — scissor intersection and skipping a layer's subtree while
    walking a retained scene.
  - `scheduler`, `frame` — frame queues that keep only the latest frames and
    the tasks each frame needs.
  - `keyed_cache`, `texture_cache`, `glyph` — caches for decoded images,
    textures and offscreen contexts, and glyph coverage blending.
  - `font` — choosing a system font, with parsing done by `fontdue`.
- `tests/` — tests of the library, run against the compiled crate.
- `app/` — what stays outside verification: floating-point geometry (tile
  rectangles, damage bounds, effect bounds), threads around the scheduler,
  and font loading and glyph rasterization through `font-kit` and `fontdue`.
