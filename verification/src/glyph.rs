use vstd::prelude::*;

verus! {

/// Identifies a rasterized glyph: its index in the font and the bit
/// pattern of the pixel size it was rasterized at.
#[derive(Debug, Clone, Copy, PartialEq, Eq, Structural, Hash)]
pub struct GlyphCacheKey {
    pub glyph_id: u16,
    pub font_size_bits: u32,
}

pub open spec fn max_u8(a: u8, b: u8) -> u8 {
    if a >= b {
        a
    } else {
        b
    }
}

/// Pixel `p` of a `width`-wide alpha mask after a `glyph_width` by
/// `glyph_height` glyph bitmap was drawn at (`glyph_x`, `glyph_y`): the
/// larger of its old coverage and the glyph's, where the glyph lies.
pub open spec fn blended_pixel(
    old: Seq<u8>,
    width: nat,
    bitmap: Seq<u8>,
    glyph_width: nat,
    glyph_height: nat,
    glyph_x: nat,
    glyph_y: nat,
    p: int,
) -> u8 {
    let x = p % (width as int);
    let y = p / (width as int);
    if glyph_x <= x < glyph_x + glyph_width && glyph_y <= y < glyph_y + glyph_height {
        max_u8(old[p], bitmap[(y - glyph_y) * glyph_width + (x - glyph_x)])
    } else {
        old[p]
    }
}

/// Position `y * width + x` of a mask is pixel (`x`, `y`).
pub proof fn lemma_pixel_position(width: int, height: int, x: int, y: int)
    requires
        0 <= x < width,
        0 <= y < height,
    ensures
        0 <= y * width + x < width * height,
        (y * width + x) % width == x,
        (y * width + x) / width == y,
{
    assert(0 <= y * width + x < width * height) by (nonlinear_arith)
        requires
            0 <= x < width,
            0 <= y < height,
    ;
    vstd::arithmetic::div_mod::lemma_fundamental_div_mod_converse(y * width + x, width, y, x);
}

/// Index `row * glyph_width + col` of a glyph bitmap lies within it.
pub proof fn lemma_bitmap_index(glyph_width: int, glyph_height: int, row: int, col: int)
    requires
        0 <= col < glyph_width,
        0 <= row < glyph_height,
    ensures
        0 <= row * glyph_width + col < glyph_width * glyph_height,
{
    assert(0 <= row * glyph_width + col < glyph_width * glyph_height) by (nonlinear_arith)
        requires
            0 <= col < glyph_width,
            0 <= row < glyph_height,
    ;
}

/// Whether glyph pixel (`col`, `row`) comes before (`c`, `r`) in row order.
pub open spec fn before(row: int, col: int, r: int, c: int) -> bool {
    row < r || (row == r && col < c)
}

/// The mask pixel `p` once the glyph pixels before (`c`, `r`) were drawn.
pub open spec fn partly_blended(
    old: Seq<u8>,
    width: nat,
    bitmap: Seq<u8>,
    glyph_width: nat,
    glyph_height: nat,
    glyph_x: nat,
    glyph_y: nat,
    r: int,
    c: int,
    p: int,
) -> u8 {
    let x = p % (width as int);
    let y = p / (width as int);
    if glyph_x <= x < glyph_x + glyph_width && glyph_y <= y < glyph_y + glyph_height && before(
        y - glyph_y,
        x - glyph_x,
        r,
        c,
    ) {
        max_u8(old[p], bitmap[(y - glyph_y) * glyph_width + (x - glyph_x)])
    } else {
        old[p]
    }
}

/// Draws a glyph's coverage bitmap into a `width` by `height` alpha mask
/// at (`glyph_x`, `glyph_y`), keeping the larger coverage per pixel and
/// clipping at the mask's edges.
pub fn blend_glyph_alpha(
    alpha: &mut Vec<u8>,
    width: usize,
    height: usize,
    bitmap: &Vec<u8>,
    glyph_width: usize,
    glyph_height: usize,
    glyph_x: usize,
    glyph_y: usize,
)
    requires
        old(alpha)@.len() == width * height,
        bitmap@.len() >= glyph_width * glyph_height,
        glyph_x + glyph_width <= usize::MAX,
        glyph_y + glyph_height <= usize::MAX,
    ensures
        final(alpha)@.len() == old(alpha)@.len(),
        forall|p: int|
            0 <= p < final(alpha)@.len() ==> #[trigger] final(alpha)@[p] == blended_pixel(
                old(alpha)@,
                width as nat,
                bitmap@,
                glyph_width as nat,
                glyph_height as nat,
                glyph_x as nat,
                glyph_y as nat,
                p,
            ),
{
    let ghost old_alpha = alpha@;
    let ghost w = width as nat;
    let ghost gw = glyph_width as nat;
    let ghost gh = glyph_height as nat;
    let ghost gx = glyph_x as nat;
    let ghost gy = glyph_y as nat;
    let blen = bitmap.len();
    let alen = alpha.len();
    let mut row: usize = 0;
    while row < glyph_height
        invariant
            0 <= row <= glyph_height,
            blen == bitmap@.len(),
            alen == alpha@.len(),
            w == width as nat,
            gw == glyph_width as nat,
            gh == glyph_height as nat,
            gx == glyph_x as nat,
            gy == glyph_y as nat,
            alpha@.len() == old_alpha.len(),
            old_alpha.len() == width * height,
            bitmap@.len() >= glyph_width * glyph_height,
            glyph_x + glyph_width <= usize::MAX,
            glyph_y + glyph_height <= usize::MAX,
            forall|p: int|
                0 <= p < alpha@.len() ==> #[trigger] alpha@[p] == partly_blended(
                    old_alpha,
                    w,
                    bitmap@,
                    gw,
                    gh,
                    gx,
                    gy,
                    row as int,
                    0,
                    p,
                ),
        decreases glyph_height - row,
    {
        let mut col: usize = 0;
        while col < glyph_width
            invariant
                0 <= row < glyph_height,
                0 <= col <= glyph_width,
                blen == bitmap@.len(),
                alen == alpha@.len(),
                w == width as nat,
                gw == glyph_width as nat,
                gh == glyph_height as nat,
                gx == glyph_x as nat,
                gy == glyph_y as nat,
                alpha@.len() == old_alpha.len(),
                old_alpha.len() == width * height,
                bitmap@.len() >= glyph_width * glyph_height,
                glyph_x + glyph_width <= usize::MAX,
                glyph_y + glyph_height <= usize::MAX,
                forall|p: int|
                    0 <= p < alpha@.len() ==> #[trigger] alpha@[p] == partly_blended(
                        old_alpha,
                        w,
                        bitmap@,
                        gw,
                        gh,
                        gx,
                        gy,
                        row as int,
                        col as int,
                        p,
                    ),
            decreases glyph_width - col,
        {
            proof {
                lemma_bitmap_index(glyph_width as int, glyph_height as int, row as int, col as int);
                assert(row * glyph_width + col < blen);
            }
            let src = bitmap[row * glyph_width + col];
            let x = glyph_x + col;
            let y = glyph_y + row;
            let ghost before_alpha = alpha@;
            if src != 0 && x < width && y < height {
                proof {
                    lemma_pixel_position(width as int, height as int, x as int, y as int);
                    assert(y * width + x < alen);
                }
                let idx = y * width + x;
                let current = alpha[idx];
                let value = if current >= src {
                    current
                } else {
                    src
                };
                alpha.set(idx, value);
                proof {
                    assert forall|p: int| 0 <= p < alpha@.len() implies #[trigger] alpha@[p] == partly_blended(
                        old_alpha,
                        w,
                        bitmap@,
                        gw,
                        gh,
                        gx,
                        gy,
                        row as int,
                        col + 1,
                        p,
                    ) by {
                        if p != idx {
                            let px = p % (width as int);
                            let py = p / (width as int);
                            if px == x && py == y {
                                vstd::arithmetic::div_mod::lemma_fundamental_div_mod(p, width as int);
                                assert(p == idx) by (nonlinear_arith)
                                    requires
                                        p == (width as int) * py + px,
                                        py == y,
                                        px == x,
                                        idx == y * width + x,
                                ;
                            }
                        }
                    }
                }
            } else {
                proof {
                    assert forall|p: int| 0 <= p < alpha@.len() implies #[trigger] alpha@[p] == partly_blended(
                        old_alpha,
                        w,
                        bitmap@,
                        gw,
                        gh,
                        gx,
                        gy,
                        row as int,
                        col + 1,
                        p,
                    ) by {
                        let px = p % (width as int);
                        let py = p / (width as int);
                        if px == x && py == y {
                            vstd::arithmetic::div_mod::lemma_fundamental_div_mod(p, width as int);
                            vstd::arithmetic::div_mod::lemma_mod_bound(p, width as int);
                            if src != 0 {
                                assert(py < height as int) by (nonlinear_arith)
                                    requires
                                        p == (width as int) * py + px,
                                        0 <= px,
                                        p < (width as int) * (height as int),
                                        0 < (width as int),
                                ;
                            }
                        }
                    }
                }
            }
            col = col + 1;
        }
        proof {
            assert forall|p: int| 0 <= p < alpha@.len() implies #[trigger] alpha@[p] == partly_blended(
                old_alpha,
                w,
                bitmap@,
                gw,
                gh,
                gx,
                gy,
                row + 1,
                0,
                p,
            ) by {
                let x = p % (width as int);
                let y = p / (width as int);
                assert(col == glyph_width);
                if gx <= x < gx + gw && gy <= y < gy + gh && y - gy == row {
                    assert(x - gx < col);
                }
                assert(partly_blended(old_alpha, w, bitmap@, gw, gh, gx, gy, row as int, col as int, p)
                    == partly_blended(old_alpha, w, bitmap@, gw, gh, gx, gy, row + 1, 0, p));
            }
        }
        row = row + 1;
    }
    proof {
        assert forall|p: int| 0 <= p < alpha@.len() implies #[trigger] alpha@[p] == blended_pixel(
            old_alpha,
            w,
            bitmap@,
            gw,
            gh,
            gx,
            gy,
            p,
        ) by {
            assert(partly_blended(old_alpha, w, bitmap@, gw, gh, gx, gy, row as int, 0, p) == blended_pixel(
                old_alpha,
                w,
                bitmap@,
                gw,
                gh,
                gx,
                gy,
                p,
            ));
        }
    }
}

} // verus!
