use vstd::prelude::*;

use crate::damage::DamageRegion;

verus! {

/// Column `x`, row `y` of the tile grid.
#[derive(Debug, Clone, Copy, PartialEq, Eq, Structural, Hash)]
pub struct TileId {
    pub x: u32,
    pub y: u32,
}

/// The order of tile ids: by column, then by row.
pub open spec fn tile_lt(a: TileId, b: TileId) -> bool {
    a.x < b.x || (a.x == b.x && a.y < b.y)
}

/// Compares two tile ids in tile order.
pub fn tile_less(a: TileId, b: TileId) -> (r: bool)
    ensures
        r == tile_lt(a, b),
{
    a.x < b.x || (a.x == b.x && a.y < b.y)
}

/// A sequence of tile ids in strictly increasing tile order (so without repeats).
pub open spec fn tiles_sorted(s: Seq<TileId>) -> bool {
    forall|i: int, j: int| 0 <= i < j < s.len() ==> tile_lt(#[trigger] s[i], #[trigger] s[j])
}

/// Inserts `tile` into a strictly sorted list, keeping it strictly sorted.
pub fn insert_tile_sorted(tiles: &mut Vec<TileId>, tile: TileId)
    requires
        tiles_sorted(old(tiles)@),
    ensures
        tiles_sorted(final(tiles)@),
        forall|t: TileId| final(tiles)@.contains(t) <==> (old(tiles)@.contains(t) || t == tile),
{
    let mut p: usize = 0;
    while p < tiles.len() && tile_less(tiles[p], tile)
        invariant
            0 <= p <= tiles@.len(),
            tiles@ == old(tiles)@,
            tiles_sorted(tiles@),
            forall|k: int| 0 <= k < p ==> tile_lt(#[trigger] tiles@[k], tile),
        decreases tiles@.len() - p,
    {
        p = p + 1;
    }
    if p < tiles.len() && tiles[p] == tile {
        proof {
            assert(tiles@[p as int] == tile);
        }
        return;
    }
    let ghost before = tiles@;
    tiles.insert(p, tile);
    proof {
        assert(tiles@ == before.insert(p as int, tile));
        assert forall|i: int, j: int| 0 <= i < j < tiles@.len() implies tile_lt(
            #[trigger] tiles@[i],
            #[trigger] tiles@[j],
        ) by {
            if j < p {
            } else if i < p && j == p {
            } else if i < p {
                assert(tiles@[j] == before[j - 1]);
            } else if i == p {
                assert(tiles@[j] == before[j - 1]);
                assert(!tile_lt(before[p as int], tile));
                if j - 1 > p {
                    assert(tile_lt(before[p as int], before[j - 1]));
                }
            } else {
                assert(tiles@[i] == before[i - 1]);
                assert(tiles@[j] == before[j - 1]);
            }
        }
        assert forall|t: TileId| tiles@.contains(t) <==> (before.contains(t) || t == tile) by {
            if tiles@.contains(t) {
                let k = choose|k: int| 0 <= k < tiles@.len() && tiles@[k] == t;
                if k < p {
                    assert(before[k] == t);
                } else if k > p {
                    assert(before[k - 1] == t);
                }
            }
            if before.contains(t) {
                let k = choose|k: int| 0 <= k < before.len() && before[k] == t;
                if k < p {
                    assert(tiles@[k] == t);
                } else {
                    assert(tiles@[k + 1] == t);
                }
            }
            if t == tile {
                assert(tiles@[p as int] == t);
            }
        }
        assert(forall|t: TileId| tiles@.contains(t) <==> (old(tiles)@.contains(t) || t == tile));
    }
}

/// The inclusive range of tile columns and rows that one damaged rectangle
/// touches, as the grid geometry computed it.
#[derive(Debug, Clone, Copy, PartialEq, Eq, Structural)]
pub struct TileSpan {
    pub start_x: u32,
    pub start_y: u32,
    pub end_x: u32,
    pub end_y: u32,
}

pub open spec fn min_u32(a: u32, b: u32) -> u32 {
    if a <= b {
        a
    } else {
        b
    }
}

/// Whether `span`, clamped to the last column `max_x` and last row `max_y`, covers `t`.
pub open spec fn span_covers(span: TileSpan, max_x: u32, max_y: u32, t: TileId) -> bool {
    &&& min_u32(span.start_x, max_x) <= t.x <= min_u32(span.end_x, max_x)
    &&& min_u32(span.start_y, max_y) <= t.y <= min_u32(span.end_y, max_y)
}

/// Whether one of the first `n` spans covers `t`; a `None` span covers nothing.
pub open spec fn spans_cover(
    spans: Seq<Option<TileSpan>>,
    n: int,
    max_x: u32,
    max_y: u32,
    t: TileId,
) -> bool {
    exists|i: int|
        0 <= i < n && #[trigger] spans[i] is Some && span_covers(spans[i]->0, max_x, max_y, t)
}

/// Identifies a tile grid: the bit patterns of its viewport and tile sizes.
/// Two grids are the same grid exactly when their keys are equal.
#[derive(Debug, Clone, Copy, PartialEq, Eq, Structural)]
pub struct TileGridKey {
    pub viewport_width_bits: u32,
    pub viewport_height_bits: u32,
    pub tile_width_bits: u32,
    pub tile_height_bits: u32,
}

/// The integer shape of a tile grid: its key, and the pixel width of each
/// column and pixel height of each row (the last ones may be narrower).
#[derive(Debug, Clone, PartialEq)]
pub struct TileLayout {
    pub key: TileGridKey,
    pub column_widths: Vec<u32>,
    pub row_heights: Vec<u32>,
}

/// The tile at position `k` of the row-major enumeration of a grid with `cx` columns.
pub open spec fn tile_at(cx: nat, k: int) -> TileId {
    TileId { x: (k % (cx as int)) as u32, y: (k / (cx as int)) as u32 }
}

/// All tiles of a `cx` by `cy` grid, row by row.
pub open spec fn spec_all_tiles(cx: nat, cy: nat) -> Seq<TileId> {
    Seq::new(cx * cy, |k: int| tile_at(cx, k))
}

pub proof fn lemma_tile_at(cx: nat, x: nat, y: nat)
    requires
        x < cx,
    ensures
        tile_at(cx, (y * cx + x) as int) == (TileId { x: x as u32, y: y as u32 }),
{
    vstd::arithmetic::div_mod::lemma_fundamental_div_mod_converse(
        (y * cx + x) as int,
        cx as int,
        y as int,
        x as int,
    );
}

/// A tile belongs to the row-major enumeration exactly when it lies in the grid.
pub proof fn lemma_all_tiles_contains(cx: nat, cy: nat, t: TileId)
    requires
        cx <= u32::MAX,
        cy <= u32::MAX,
    ensures
        spec_all_tiles(cx, cy).contains(t) <==> (t.x < cx && t.y < cy),
{
    let s = spec_all_tiles(cx, cy);
    if t.x < cx && t.y < cy {
        let k = t.y * cx + t.x;
        assert(k < cx * cy) by (nonlinear_arith)
            requires
                k == t.y * cx + t.x,
                t.x < cx,
                t.y < cy,
        ;
        lemma_tile_at(cx, t.x as nat, t.y as nat);
        assert(s[k as int] == t);
    }
    if s.contains(t) {
        let k = choose|k: int| 0 <= k < s.len() && s[k] == t;
        let q = k / (cx as int);
        let r = k % (cx as int);
        assert(cx > 0) by (nonlinear_arith)
            requires
                0 <= k < cx * cy,
        ;
        vstd::arithmetic::div_mod::lemma_fundamental_div_mod(k, cx as int);
        vstd::arithmetic::div_mod::lemma_mod_pos_bound(k, cx as int);
        assert(0 <= q) by (nonlinear_arith)
            requires
                k == cx * q + r,
                0 <= r < cx,
                k >= 0,
        ;
        assert(q < cy) by (nonlinear_arith)
            requires
                k == cx * q + r,
                0 <= r < cx,
                k < cx * cy,
        ;
    }
}

/// A tile's rank in column-major order on a grid with `h` rows.
pub open spec fn tile_rank(t: TileId, h: nat) -> int {
    t.x * h + t.y
}

pub proof fn lemma_tile_rank_lt(a: TileId, b: TileId, h: nat)
    requires
        tile_lt(a, b),
        a.y < h,
        b.y < h,
    ensures
        tile_rank(a, h) < tile_rank(b, h),
{
    if a.x < b.x {
        assert(a.x * h + a.y < b.x * h + b.y) by (nonlinear_arith)
            requires
                a.x < b.x,
                a.y < h,
                b.y >= 0,
        ;
    }
}

proof fn lemma_rank_at_least_index(s: Seq<TileId>, h: nat, i: int)
    requires
        tiles_sorted(s),
        forall|j: int| 0 <= j < s.len() ==> (#[trigger] s[j]).y < h,
        0 <= i < s.len(),
    ensures
        tile_rank(s[i], h) >= i,
    decreases i,
{
    if i > 0 {
        lemma_rank_at_least_index(s, h, i - 1);
        lemma_tile_rank_lt(s[i - 1], s[i], h);
    } else {
        assert(s[i].x * h >= 0) by (nonlinear_arith);
    }
}

/// A sorted list of tiles inside a `w` by `h` box has at most `w * h` entries.
pub proof fn lemma_sorted_box_len(s: Seq<TileId>, w: nat, h: nat)
    requires
        tiles_sorted(s),
        forall|j: int| 0 <= j < s.len() ==> (#[trigger] s[j]).x < w && s[j].y < h,
    ensures
        s.len() <= w * h,
{
    if s.len() > 0 {
        let last = s.len() - 1;
        lemma_rank_at_least_index(s, h, last);
        let t = s[last];
        assert(t.x * h + t.y < w * h) by (nonlinear_arith)
            requires
                t.x < w,
                t.y < h,
        ;
    }
}

/// The row-major enumeration lists each tile once.
pub proof fn lemma_all_tiles_distinct(cx: nat, cy: nat, i: int, j: int)
    requires
        cx <= u32::MAX,
        cy <= u32::MAX,
        0 <= i < cx * cy,
        0 <= j < cx * cy,
        i != j,
    ensures
        spec_all_tiles(cx, cy)[i] != spec_all_tiles(cx, cy)[j],
{
    assert(cx > 0) by (nonlinear_arith)
        requires
            0 <= i < cx * cy,
    ;
    vstd::arithmetic::div_mod::lemma_fundamental_div_mod(i, cx as int);
    vstd::arithmetic::div_mod::lemma_fundamental_div_mod(j, cx as int);
    vstd::arithmetic::div_mod::lemma_mod_pos_bound(i, cx as int);
    vstd::arithmetic::div_mod::lemma_mod_pos_bound(j, cx as int);
    assert(0 <= i / (cx as int)) by (nonlinear_arith)
        requires
            i == cx * (i / (cx as int)) + i % (cx as int),
            0 <= i % (cx as int) < cx,
            i >= 0,
    ;
    assert(0 <= j / (cx as int)) by (nonlinear_arith)
        requires
            j == cx * (j / (cx as int)) + j % (cx as int),
            0 <= j % (cx as int) < cx,
            j >= 0,
    ;
    assert(i / (cx as int) < cy) by (nonlinear_arith)
        requires
            i == cx * (i / (cx as int)) + i % (cx as int),
            0 <= i % (cx as int) < cx,
            i < cx * cy,
    ;
    assert(j / (cx as int) < cy) by (nonlinear_arith)
        requires
            j == cx * (j / (cx as int)) + j % (cx as int),
            0 <= j % (cx as int) < cx,
            j < cx * cy,
    ;
    if spec_all_tiles(cx, cy)[i] == spec_all_tiles(cx, cy)[j] {
        assert(i % (cx as int) == j % (cx as int));
        assert(i / (cx as int) == j / (cx as int));
    }
}

impl TileLayout {
    pub open spec fn count_x(&self) -> nat {
        self.column_widths@.len()
    }

    pub open spec fn count_y(&self) -> nat {
        self.row_heights@.len()
    }

    /// The counts fit the integer types the grid uses, and every tile's
    /// byte size fits in `usize`.
    pub open spec fn wf(&self) -> bool {
        &&& self.count_x() <= u32::MAX
        &&& self.count_y() <= u32::MAX
        &&& self.count_x() * self.count_y() <= usize::MAX
        &&& forall|i: int, j: int|
            0 <= i < self.count_x() && 0 <= j < self.count_y() ==> #[trigger] self.column_widths@[i]
                * #[trigger] self.row_heights@[j] * 4 <= usize::MAX
    }

    /// Whether `t` lies in the grid (the grid has a rectangle for it).
    pub open spec fn in_grid(&self, t: TileId) -> bool {
        t.x < self.count_x() && t.y < self.count_y()
    }

    pub open spec fn spec_all_tiles(&self) -> Seq<TileId> {
        spec_all_tiles(self.count_x(), self.count_y())
    }

    /// The surface a tile is rasterized into: its pixel size, or an empty
    /// surface for a tile outside the grid.
    pub open spec fn spec_descriptor_for(&self, t: TileId) -> TileResourceDescriptor {
        if self.in_grid(t) {
            TileResourceDescriptor {
                kind: TileResourceKind::OffscreenSurface,
                width: self.column_widths@[t.x as int],
                height: self.row_heights@[t.y as int],
            }
        } else {
            TileResourceDescriptor { kind: TileResourceKind::OffscreenSurface, width: 0, height: 0 }
        }
    }

    /// The tiles that `damage` touches, in tile order.
    pub open spec fn damaged(&self, damage: DamageRegion<Option<TileSpan>>, t: TileId) -> bool {
        match damage {
            DamageRegion::Empty => false,
            DamageRegion::Full => self.in_grid(t),
            DamageRegion::Rects(spans) => spans_cover(
                spans@,
                spans@.len() as int,
                sat_dec(self.count_x() as u32),
                sat_dec(self.count_y() as u32),
                t,
            ),
        }
    }

    /// Checks `wf`.
    pub fn is_well_formed(&self) -> (b: bool)
        ensures
            b == self.wf(),
    {
        let cx = self.column_widths.len();
        let cy = self.row_heights.len();
        if cx > u32::MAX as usize || cy > u32::MAX as usize {
            return false;
        }
        if cx.checked_mul(cy).is_none() {
            return false;
        }
        let mut i: usize = 0;
        while i < cx
            invariant
                0 <= i <= cx,
                cx == self.count_x(),
                cy == self.count_y(),
                forall|a: int, b: int|
                    0 <= a < i && 0 <= b < cy ==> #[trigger] self.column_widths@[a]
                        * #[trigger] self.row_heights@[b] * 4 <= usize::MAX,
            decreases cx - i,
        {
            let mut j: usize = 0;
            while j < cy
                invariant
                    0 <= i < cx,
                    0 <= j <= cy,
                    cx == self.count_x(),
                    cy == self.count_y(),
                    forall|a: int, b: int|
                        0 <= a < i && 0 <= b < cy ==> #[trigger] self.column_widths@[a]
                            * #[trigger] self.row_heights@[b] * 4 <= usize::MAX,
                    forall|b: int|
                        0 <= b < j ==> self.column_widths@[i as int] * #[trigger] self.row_heights@[b]
                            * 4 <= usize::MAX,
                decreases cy - j,
            {
                let w = self.column_widths[i] as usize;
                let h = self.row_heights[j] as usize;
                match w.checked_mul(h) {
                    None => {
                        proof {
                            assert(w * h * 4 > usize::MAX) by (nonlinear_arith)
                                requires
                                    w * h > usize::MAX,
                            ;
                        }
                        return false;
                    },
                    Some(p) => {
                        if p.checked_mul(4).is_none() {
                            return false;
                        }
                    },
                }
                j = j + 1;
            }
            i = i + 1;
        }
        true
    }

    pub fn tile_count_x(&self) -> (n: u32)
        requires
            self.wf(),
        ensures
            n == self.count_x(),
    {
        self.column_widths.len() as u32
    }

    pub fn tile_count_y(&self) -> (n: u32)
        requires
            self.wf(),
        ensures
            n == self.count_y(),
    {
        self.row_heights.len() as u32
    }

    pub fn tile_count(&self) -> (n: usize)
        requires
            self.wf(),
        ensures
            n == self.count_x() * self.count_y(),
    {
        self.column_widths.len() * self.row_heights.len()
    }

    /// Whether the grid has a rectangle for `tile_id`.
    pub fn contains_tile(&self, tile_id: TileId) -> (b: bool)
        requires
            self.wf(),
        ensures
            b == self.in_grid(tile_id),
    {
        (tile_id.x as usize) < self.column_widths.len() && (tile_id.y as usize)
            < self.row_heights.len()
    }

    pub fn descriptor_for_tile(&self, tile_id: TileId) -> (d: TileResourceDescriptor)
        requires
            self.wf(),
        ensures
            d == self.spec_descriptor_for(tile_id),
            d.width * d.height * 4 <= usize::MAX,
    {
        if self.contains_tile(tile_id) {
            let d = TileResourceDescriptor {
                kind: TileResourceKind::OffscreenSurface,
                width: self.column_widths[tile_id.x as usize],
                height: self.row_heights[tile_id.y as usize],
            };
            proof {
                assert(self.column_widths@[tile_id.x as int] * self.row_heights@[tile_id.y as int]
                    * 4 <= usize::MAX);
            }
            d
        } else {
            TileResourceDescriptor { kind: TileResourceKind::OffscreenSurface, width: 0, height: 0 }
        }
    }

    /// Every tile of the grid, row by row.
    pub fn all_tiles(&self) -> (tiles: Vec<TileId>)
        requires
            self.wf(),
        ensures
            tiles@ == self.spec_all_tiles(),
    {
        let cx = self.tile_count_x();
        let cy = self.tile_count_y();
        let ghost ncx = cx as nat;
        let mut tiles: Vec<TileId> = Vec::new();
        let mut y: u32 = 0;
        while y < cy
            invariant
                0 <= y <= cy,
                cx == self.count_x(),
                cy == self.count_y(),
                ncx == cx,
                tiles@.len() == y * ncx,
                forall|k: int| 0 <= k < tiles@.len() ==> tiles@[k] == tile_at(ncx, k),
            decreases cy - y,
        {
            let mut x: u32 = 0;
            while x < cx
                invariant
                    0 <= x <= cx,
                    0 <= y < cy,
                    ncx == cx,
                    tiles@.len() == y * ncx + x,
                    forall|k: int| 0 <= k < tiles@.len() ==> tiles@[k] == tile_at(ncx, k),
                decreases cx - x,
            {
                proof {
                    lemma_tile_at(ncx, x as nat, y as nat);
                }
                tiles.push(TileId { x, y });
                x = x + 1;
            }
            proof {
                assert((y + 1) * ncx == y * ncx + ncx) by (nonlinear_arith);
            }
            y = y + 1;
        }
        proof {
            assert(cy * ncx == ncx * cy) by (nonlinear_arith);
            assert(tiles@ =~= self.spec_all_tiles());
        }
        tiles
    }

    /// The tiles that `damage` touches: none for `Empty`, the whole grid (row
    /// by row) for `Full`, and otherwise every tile that one of the spans
    /// covers once clamped to the last column and row, in tile order.
    pub fn tiles_for_damage(&self, damage: &DamageRegion<Option<TileSpan>>) -> (tiles: Vec<TileId>)
        requires
            self.wf(),
        ensures
            damage is Empty ==> tiles@.len() == 0,
            damage is Full ==> tiles@ == self.spec_all_tiles(),
            damage is Rects ==> tiles_sorted(tiles@),
            forall|t: TileId| tiles@.contains(t) <==> self.damaged(*damage, t),
    {
        match damage {
            DamageRegion::Empty => Vec::new(),
            DamageRegion::Full => {
                let tiles = self.all_tiles();
                proof {
                    assert forall|t: TileId| tiles@.contains(t) <==> self.damaged(*damage, t) by {
                        lemma_all_tiles_contains(self.count_x(), self.count_y(), t);
                    }
                }
                tiles
            },
            DamageRegion::Rects(spans) => {
                let max_x = self.tile_count_x().saturating_sub(1);
                let max_y = self.tile_count_y().saturating_sub(1);
                let mut tiles: Vec<TileId> = Vec::new();
                let mut i: usize = 0;
                while i < spans.len()
                    invariant
                        0 <= i <= spans@.len(),
                        tiles_sorted(tiles@),
                        forall|t: TileId|
                            tiles@.contains(t) <==> spans_cover(spans@, i as int, max_x, max_y, t),
                    decreases spans@.len() - i,
                {
                    if let Some(span) = spans[i] {
                        collect_span(&mut tiles, span, max_x, max_y, Ghost(spans@), Ghost(i as int));
                    } else {
                        proof {
                            assert forall|t: TileId|
                                spans_cover(spans@, i + 1, max_x, max_y, t) <==> spans_cover(
                                    spans@,
                                    i as int,
                                    max_x,
                                    max_y,
                                    t,
                                ) by {
                                if spans_cover(spans@, i + 1, max_x, max_y, t) {
                                    let k = choose|k: int|
                                        0 <= k < i + 1 && #[trigger] spans@[k] is Some
                                            && span_covers(spans@[k]->0, max_x, max_y, t);
                                    assert(k != i);
                                }
                            }
                        }
                    }
                    i = i + 1;
                }
                tiles
            },
        }
    }
}

pub open spec fn sat_dec(a: u32) -> u32 {
    if a == 0 {
        0
    } else {
        (a - 1) as u32
    }
}

/// Adds the tiles that `span` covers (clamped) to a sorted set of tiles.
fn collect_span(
    tiles: &mut Vec<TileId>,
    span: TileSpan,
    max_x: u32,
    max_y: u32,
    Ghost(spans): Ghost<Seq<Option<TileSpan>>>,
    Ghost(i): Ghost<int>,
)
    requires
        0 <= i < spans.len(),
        spans[i] == Some(span),
        tiles_sorted(old(tiles)@),
        forall|t: TileId| old(tiles)@.contains(t) <==> spans_cover(spans, i, max_x, max_y, t),
    ensures
        tiles_sorted(final(tiles)@),
        forall|t: TileId| final(tiles)@.contains(t) <==> spans_cover(spans, i + 1, max_x, max_y, t),
{
    let x0 = if span.start_x <= max_x { span.start_x } else { max_x };
    let x1 = if span.end_x <= max_x { span.end_x } else { max_x };
    let y0 = if span.start_y <= max_y { span.start_y } else { max_y };
    let y1 = if span.end_y <= max_y { span.end_y } else { max_y };
    let ghost before = tiles@;
    if y0 <= y1 && x0 <= x1 {
        let mut y: u32 = y0;
        loop
            invariant_except_break
                y0 <= y <= y1,
                forall|t: TileId|
                    tiles@.contains(t) <==> (before.contains(t) || (x0 <= t.x <= x1 && y0 <= t.y
                        < y)),
            invariant
                x0 <= x1,
                y0 <= y1,
                tiles_sorted(tiles@),
            ensures
                forall|t: TileId|
                    tiles@.contains(t) <==> (before.contains(t) || (x0 <= t.x <= x1 && y0 <= t.y
                        <= y1)),
            decreases y1 - y,
        {
            let mut x: u32 = x0;
            loop
                invariant_except_break
                    x0 <= x <= x1,
                    forall|t: TileId|
                        tiles@.contains(t) <==> (before.contains(t) || (x0 <= t.x <= x1 && y0
                            <= t.y < y) || (t.y == y && x0 <= t.x < x)),
                invariant
                    y0 <= y <= y1,
                    x0 <= x1,
                    tiles_sorted(tiles@),
                ensures
                    forall|t: TileId|
                        tiles@.contains(t) <==> (before.contains(t) || (x0 <= t.x <= x1 && y0
                            <= t.y < y) || (t.y == y && x0 <= t.x <= x1)),
                decreases x1 - x,
            {
                insert_tile_sorted(tiles, TileId { x, y });
                if x == x1 {
                    break;
                }
                x = x + 1;
            }
            if y == y1 {
                break;
            }
            y = y + 1;
        }
    }
    assert(forall|t: TileId|
        #[trigger] tiles@.contains(t) <==> (before.contains(t) || (x0 <= t.x <= x1 && y0 <= t.y
            <= y1)));
    proof {
        assert forall|t: TileId|
            tiles@.contains(t) <==> spans_cover(spans, i + 1, max_x, max_y, t) by {
            let c = span_covers(span, max_x, max_y, t);
            assert(c <==> (x0 <= t.x <= x1 && y0 <= t.y <= y1));
            assert(tiles@.contains(t) <==> (before.contains(t) || c));
            if c {
                assert(spans[i] is Some && span_covers(spans[i]->0, max_x, max_y, t));
                assert(spans_cover(spans, i + 1, max_x, max_y, t));
            }
            if spans_cover(spans, i, max_x, max_y, t) {
                let k = choose|k: int|
                    0 <= k < i && #[trigger] spans[k] is Some && span_covers(
                        spans[k]->0,
                        max_x,
                        max_y,
                        t,
                    );
                assert(0 <= k < i + 1 && spans[k] is Some);
                assert(spans_cover(spans, i + 1, max_x, max_y, t));
            }
            if spans_cover(spans, i + 1, max_x, max_y, t) {
                let k = choose|k: int|
                    0 <= k < i + 1 && #[trigger] spans[k] is Some && span_covers(
                        spans[k]->0,
                        max_x,
                        max_y,
                        t,
                    );
                if k < i {
                    assert(spans_cover(spans, i, max_x, max_y, t));
                } else {
                    assert(c);
                }
            }
        }
    }
}

#[derive(Debug, Clone, Copy, PartialEq, Eq, Structural, Hash)]
pub struct TileContentHandle(pub u64);

#[derive(Debug, Clone, Copy, PartialEq, Eq, Structural)]
pub enum TileContentState {
    Allocated,
    Rasterized,
    Reused,
}

#[derive(Debug, Clone, Copy, PartialEq, Eq, Structural)]
pub enum TileResourceKind {
    OffscreenSurface,
    Texture,
}

#[derive(Debug, Clone, Copy, PartialEq, Eq, Structural)]
pub struct TileResourceDescriptor {
    pub kind: TileResourceKind,
    pub width: u32,
    pub height: u32,
}

/// The bytes a surface of this description takes: four per pixel.
pub open spec fn desc_bytes(d: TileResourceDescriptor) -> int {
    d.width * d.height * 4
}

impl TileResourceDescriptor {
    pub fn estimated_byte_size(self) -> (n: usize)
        requires
            self.width * self.height * 4 <= usize::MAX,
        ensures
            n == desc_bytes(self),
    {
        let bytes_per_pixel: usize = match self.kind {
            TileResourceKind::OffscreenSurface | TileResourceKind::Texture => 4,
        };
        proof {
            assert(self.width * self.height <= usize::MAX) by (nonlinear_arith)
                requires
                    self.width * self.height * 4 <= usize::MAX,
            ;
        }
        self.width as usize * self.height as usize * bytes_per_pixel
    }
}

} // verus!
