use crate::color::{packed, unpacked, Rgba};
use crate::framebuffer::{blended, lemma_index_in_range, FrameView, Framebuffer};
use vstd::arithmetic::div_mod::{lemma_fundamental_div_mod, lemma_fundamental_div_mod_converse};
use vstd::prelude::*;

verus! {

/// A color with its red, green and blue channels at four fifths, rounded down.
pub open spec fn darkened(c: Rgba) -> Rgba {
    Rgba { r: (c.r as nat * 4 / 5) as u8, g: (c.g as nat * 4 / 5) as u8, b: (c.b as nat * 4 / 5) as u8, a: c.a }
}

/// The color drawn at offset `(dx, dy)` of a `size` by `size` block: darkened on
/// the block's border when `soft`, else the block's color.
pub open spec fn block_shade(c: Rgba, dx: int, dy: int, size: int, soft: bool) -> Rgba {
    if soft && (dx == 0 || dy == 0 || dx == size - 1 || dy == size - 1) {
        darkened(c)
    } else {
        c
    }
}

/// Whether `(x, y)` lies in the `size` by `size` block whose corner is `(bx, by)`.
pub open spec fn in_block(x: int, y: int, bx: int, by: int, size: int) -> bool {
    bx <= x < bx + size && by <= y < by + size
}

/// The buffer `v` with the block at `(bx, by)` filled with `color` (shaded as
/// `block_shade` says), clipped to the buffer.
pub open spec fn with_block(v: FrameView, bx: int, by: int, color: Rgba, size: int, soft: bool) -> Seq<u32> {
    Seq::new(
        v.pixels.len(),
        |i: int|
            if in_block(i % v.width as int, i / v.width as int, bx, by, size) {
                packed(block_shade(color, i % v.width as int - bx, i / v.width as int - by, size, soft))
            } else {
                v.pixels[i]
            },
    )
}

/// Pixel `i` of a buffer of the given width is `(i % width, i / width)`.
proof fn lemma_coords(i: int, width: int, x: int, y: int)
    requires
        width > 0,
        0 <= x < width,
        0 <= y,
        i == y * width + x,
    ensures
        i % width == x,
        i / width == y,
{
    lemma_fundamental_div_mod_converse(i, width, y, x);
}

/// Darkens one channel to four fifths.
fn darken_u8(c: u8) -> (r: u8)
    ensures
        r == (c as nat * 4 / 5) as u8,
{
    ((c as u32) * 4 / 5) as u8
}

/// Whether `(x, y)` is in the block at `(bx, by)` and comes, in raster order
/// within the block, before offset `(dx, dy)`.
pub open spec fn block_done(x: int, y: int, bx: int, by: int, size: int, dx: int, dy: int) -> bool {
    in_block(x, y, bx, by, size) && (y - by < dy || (y - by == dy && x - bx < dx))
}

/// The pixels of `v` with the block's pixels before offset `(dx, dy)` filled.
pub open spec fn partial_block(
    v: FrameView,
    bx: int,
    by: int,
    color: Rgba,
    size: int,
    soft: bool,
    dx: int,
    dy: int,
) -> Seq<u32> {
    Seq::new(
        v.pixels.len(),
        |i: int|
            if block_done(i % v.width as int, i / v.width as int, bx, by, size, dx, dy) {
                packed(block_shade(color, i % v.width as int - bx, i / v.width as int - by, size, soft))
            } else {
                v.pixels[i]
            },
    )
}

/// The coordinates of an index inside a `width * height` buffer lie inside it,
/// and only the index of `(x, y)` has coordinates `(x, y)`.
proof fn lemma_index_coords(i: int, width: int, height: int)
    requires
        width > 0,
        0 <= i < width * height,
    ensures
        0 <= i % width < width,
        0 <= i / width < height,
        i == (i / width) * width + i % width,
{
    lemma_fundamental_div_mod(i, width);
    let q = i / width;
    let r = i % width;
    assert(q < height && 0 <= q && q * width == width * q) by (nonlinear_arith)
        requires
            i == width * q + r,
            0 <= r < width,
            i < width * height,
            0 <= i,
            width > 0,
    ;
}

/// Fills the `size` by `size` block whose corner is `(base_x, base_y)` with
/// `color`, clipped to the buffer; when `soft`, the block's border pixels are
/// darkened to four fifths. The current color is left as it was.
fn fill_block(framebuffer: &mut Framebuffer, base_x: u32, base_y: u32, color: Rgba, size: u32, soft: bool)
    requires
        old(framebuffer).wf(),
    ensures
        final(framebuffer).wf(),
        final(framebuffer)@ == (FrameView {
            pixels: with_block(old(framebuffer)@, base_x as int, base_y as int, color, size as int, soft),
            dirty: final(framebuffer)@.dirty,
            ..old(framebuffer)@
        }),
        final(framebuffer)@.dirty == (old(framebuffer)@.dirty || (size > 0 && base_x < old(framebuffer)@.width && base_y < old(framebuffer)@.height)),
{
    let ghost v0 = framebuffer@;
    let width = framebuffer.width();
    let height = framebuffer.height();
    let dark = Rgba { r: darken_u8(color.r), g: darken_u8(color.g), b: darken_u8(color.b), a: color.a };
    let ghost bx = base_x as int;
    let ghost by = base_y as int;
    let mut dy: u32 = 0;
    while dy < size
        invariant
            framebuffer.wf(),
            framebuffer@ == (FrameView { pixels: framebuffer@.pixels, dirty: framebuffer@.dirty, ..v0 }),
            framebuffer@.dirty == (v0.dirty || (dy > 0 && base_x < width && base_y < height)),
            width == v0.width,
            height == v0.height,
            dark == darkened(color),
            bx == base_x,
            by == base_y,
            dy <= size,
            framebuffer@.pixels == partial_block(v0, bx, by, color, size as int, soft, 0, dy as int),
        decreases size - dy,
    {
        let mut dx: u32 = 0;
        while dx < size
            invariant
                framebuffer.wf(),
                framebuffer@ == (FrameView { pixels: framebuffer@.pixels, dirty: framebuffer@.dirty, ..v0 }),
                framebuffer@.dirty == (v0.dirty || ((dy > 0 || dx > 0) && base_x < width && base_y < height)),
                width == v0.width,
                height == v0.height,
                dark == darkened(color),
                bx == base_x,
                by == base_y,
                dy < size,
                dx <= size,
                framebuffer@.pixels == partial_block(v0, bx, by, color, size as int, soft, dx as int, dy as int),
            decreases size - dx,
        {
            let px = base_x as u64 + dx as u64;
            let py = base_y as u64 + dy as u64;
            let ghost before = framebuffer@.pixels;
            if px < width as u64 && py < height as u64 {
                let edge = dx == 0 || dy == 0 || dx == size - 1 || dy == size - 1;
                let c = if soft && edge {
                    dark
                } else {
                    color
                };
                framebuffer.put_pixel(px as u32, py as u32, c);
                proof {
                    let j = py * width + px;
                    lemma_coords(j, width as int, px as int, py as int);
                    lemma_index_in_range(width as nat, height as nat, px as int, py as int);
                    assert(c == block_shade(color, dx as int, dy as int, size as int, soft));
                    assert forall|i: int| 0 <= i < v0.pixels.len() implies #[trigger] framebuffer@.pixels[i]
                        == partial_block(v0, bx, by, color, size as int, soft, dx + 1, dy as int)[i] by {
                        lemma_index_coords(i, width as int, height as int);
                        if i == j {
                            assert(framebuffer@.pixels[i] == packed(c));
                        } else {
                            assert(framebuffer@.pixels[i] == before[i]);
                            assert(i / width as int != py || i % width as int != px);
                        }
                    }
                    assert(framebuffer@.pixels =~= partial_block(v0, bx, by, color, size as int, soft, dx + 1, dy as int));
                }
            } else {
                proof {
                    assert forall|i: int| 0 <= i < v0.pixels.len() implies #[trigger] framebuffer@.pixels[i]
                        == partial_block(v0, bx, by, color, size as int, soft, dx + 1, dy as int)[i] by {
                        assert(framebuffer@.pixels[i] == before[i]);
                        if width > 0 {
                            lemma_index_coords(i, width as int, height as int);
                        } else {
                            assert(v0.width * v0.height == 0) by (nonlinear_arith)
                                requires
                                    v0.width == 0,
                            ;
                        }
                    }
                    assert(framebuffer@.pixels =~= partial_block(v0, bx, by, color, size as int, soft, dx + 1, dy as int));
                }
            }
            dx = dx + 1;
        }
        proof {
            assert forall|i: int| 0 <= i < v0.pixels.len() implies #[trigger] framebuffer@.pixels[i]
                == partial_block(v0, bx, by, color, size as int, soft, 0, dy + 1)[i] by {
            }
            assert(framebuffer@.pixels =~= partial_block(v0, bx, by, color, size as int, soft, 0, dy + 1));
        }
        dy = dy + 1;
    }
    proof {
        assert(framebuffer@.pixels =~= with_block(v0, bx, by, color, size as int, soft));
    }
}

/// Fills the `size` by `size` block whose corner is `(base_x, base_y)` with
/// `color`, clipped to the buffer, its border pixels darkened to four fifths
/// (red, green and blue; alpha is kept). The current color is left as it was.
pub fn fill_adaptive_block(framebuffer: &mut Framebuffer, base_x: u32, base_y: u32, color: Rgba, size: u32)
    requires
        old(framebuffer).wf(),
    ensures
        final(framebuffer).wf(),
        final(framebuffer)@ == (FrameView {
            pixels: with_block(old(framebuffer)@, base_x as int, base_y as int, color, size as int, true),
            dirty: final(framebuffer)@.dirty,
            ..old(framebuffer)@
        }),
        final(framebuffer)@.dirty == (old(framebuffer)@.dirty || (size > 0 && base_x < old(framebuffer)@.width && base_y < old(framebuffer)@.height)),
{
    fill_block(framebuffer, base_x, base_y, color, size, true);
}

/// How many grid points `0, step, 2 * step, ...` lie below `n`.
pub open spec fn grid_count(n: nat, step: nat) -> nat
    recommends
        step > 0,
{
    ((n + step - 1) as nat / step) as nat
}

/// The color drawn at `(x, y)` by a grid pass of blocks `step` wide, whose block
/// colors `colors` are in raster order over the grid.
pub open spec fn grid_pixel(colors: Seq<Rgba>, width: nat, step: nat, soft: bool, x: int, y: int) -> u32 {
    packed(
        block_shade(
            colors[(y / step as int) * grid_count(width, step) + x / step as int],
            x % step as int,
            y % step as int,
            step as int,
            soft,
        ),
    )
}

/// The pixels of `v` after a grid pass has drawn every block before block
/// `(bx, by)` in raster order.
pub open spec fn partial_grid(v: FrameView, step: nat, colors: Seq<Rgba>, soft: bool, bx: int, by: int) -> Seq<u32> {
    Seq::new(
        v.pixels.len(),
        |i: int|
            {
                let x = i % v.width as int;
                let y = i / v.width as int;
                if y / (step as int) < by || (y / (step as int) == by && x / (step as int) < bx) {
                    grid_pixel(colors, v.width, step, soft, x, y)
                } else {
                    v.pixels[i]
                }
            },
    )
}

/// Grid point `b` lies below `n` exactly when `b < grid_count(n, step)`.
proof fn lemma_grid_count(n: nat, step: nat, b: nat)
    requires
        step > 0,
    ensures
        b < grid_count(n, step) <==> b * step < n,
{
    let c = grid_count(n, step);
    lemma_fundamental_div_mod((n + step - 1) as int, step as int);
    let r = ((n + step - 1) as nat % step) as int;
    assert(b < c <==> b * step < n) by (nonlinear_arith)
        requires
            n + step - 1 == step * c + r,
            0 <= r < step,
            step > 0,
    ;
}

/// `x` lies in block `b` of width `step` exactly when `x / step == b`, and
/// then its offset in the block is `x % step`.
proof fn lemma_block_of(x: int, step: int, b: int)
    requires
        step > 0,
        0 <= x,
    ensures
        (b * step <= x < b * step + step) <==> x / step == b,
        x / step == b ==> x - b * step == x % step,
{
    lemma_fundamental_div_mod(x, step);
    if b * step <= x < b * step + step {
        lemma_fundamental_div_mod_converse(x, step, b, x - b * step);
    }
    if x / step == b {
        assert(b * step == step * (x / step)) by (nonlinear_arith)
            requires
                x / step == b,
        ;
    }
}

/// A buffer with a pixel has a positive width.
proof fn lemma_nonempty_width(v: FrameView)
    requires
        v.pixels.len() == v.width * v.height,
        v.pixels.len() > 0,
    ensures
        v.width > 0,
{
    if v.width == 0 {
        assert(v.width * v.height == 0) by (nonlinear_arith)
            requires
                v.width == 0,
        ;
    }
}

/// A buffer has pixels exactly when both sides are positive.
proof fn lemma_positive_area(width: nat, height: nat)
    ensures
        (width * height > 0) == (width > 0 && height > 0),
{
    if width > 0 && height > 0 {
        assert(width * height > 0) by (nonlinear_arith)
            requires
                width > 0,
                height > 0,
        ;
    } else if width == 0 {
        assert(width * height == 0);
    } else {
        assert(width * height == 0) by (nonlinear_arith)
            requires
                height == 0,
        ;
    }
}

/// `grid_count(n, step)`, computed without overflow.
fn grid_count_u32(n: u32, step: u32) -> (r: u32)
    requires
        step > 0,
    ensures
        r == grid_count(n as nat, step as nat),
{
    let c = (n as u64 + step as u64 - 1) / step as u64;
    proof {
        let t = n + step - 1;
        lemma_fundamental_div_mod(t as int, step as int);
        assert(c <= u32::MAX) by (nonlinear_arith)
            requires
                t == step * c + t % (step as int),
                t % (step as int) >= 0,
                t <= u32::MAX + step - 1,
                step >= 1,
        ;
    }
    c as u32
}

/// Covers the buffer with `step` by `step` blocks, one per grid point in raster
/// order, block `k` colored `colors[k]` (border-darkened when `soft`).
fn splat_grid(framebuffer: &mut Framebuffer, step: u32, colors: &Vec<Rgba>, soft: bool)
    requires
        old(framebuffer).wf(),
        step > 0,
        colors@.len() == grid_count(old(framebuffer)@.width, step as nat) * grid_count(
            old(framebuffer)@.height,
            step as nat,
        ),
    ensures
        final(framebuffer).wf(),
        final(framebuffer)@ == (FrameView {
            pixels: Seq::new(
                old(framebuffer)@.pixels.len(),
                |i: int|
                    grid_pixel(
                        colors@,
                        old(framebuffer)@.width,
                        step as nat,
                        soft,
                        i % old(framebuffer)@.width as int,
                        i / old(framebuffer)@.width as int,
                    ),
            ),
            dirty: final(framebuffer)@.dirty,
            ..old(framebuffer)@
        }),
        final(framebuffer)@.dirty == (old(framebuffer)@.dirty || old(framebuffer)@.pixels.len() > 0),
{
    let ghost v0 = framebuffer@;
    let width = framebuffer.width();
    let height = framebuffer.height();
    let cols = grid_count_u32(width, step);
    let rows = grid_count_u32(height, step);
    let n = colors.len();
    let ghost s = step as int;
    let mut by: u32 = 0;
    while by < rows
        invariant
            framebuffer.wf(),
            framebuffer@ == (FrameView { pixels: framebuffer@.pixels, dirty: framebuffer@.dirty, ..v0 }),
            framebuffer@.dirty == (v0.dirty || (by > 0 && cols > 0)),
            width == v0.width,
            height == v0.height,
            s == step,
            step > 0,
            cols == grid_count(width as nat, step as nat),
            rows == grid_count(height as nat, step as nat),
            colors@.len() == cols * rows,
            n == colors@.len(),
            by <= rows,
            framebuffer@.pixels == partial_grid(v0, step as nat, colors@, soft, 0, by as int),
        decreases rows - by,
    {
        proof {
            lemma_grid_count(height as nat, step as nat, by as nat);
        }
        let mut bx: u32 = 0;
        while bx < cols
            invariant
                framebuffer.wf(),
                framebuffer@ == (FrameView { pixels: framebuffer@.pixels, dirty: framebuffer@.dirty, ..v0 }),
                framebuffer@.dirty == (v0.dirty || ((by > 0 || bx > 0) && cols > 0)),
                width == v0.width,
                height == v0.height,
                s == step,
                step > 0,
                cols == grid_count(width as nat, step as nat),
                rows == grid_count(height as nat, step as nat),
                colors@.len() == cols * rows,
                n == colors@.len(),
                by < rows,
                by * step < height,
                bx <= cols,
                framebuffer@.pixels == partial_grid(v0, step as nat, colors@, soft, bx as int, by as int),
            decreases cols - bx,
        {
            proof {
                lemma_grid_count(width as nat, step as nat, bx as nat);
                assert(by * cols + bx < cols * rows) by (nonlinear_arith)
                    requires
                        by < rows,
                        bx < cols,
                ;
            }
            let k = by as usize * cols as usize + bx as usize;
            let base_x = bx * step;
            let base_y = by * step;
            let ghost before = framebuffer@;
            fill_block(framebuffer, base_x, base_y, colors[k], step, soft);
            proof {
                assert forall|i: int| 0 <= i < v0.pixels.len() implies #[trigger] framebuffer@.pixels[i]
                    == partial_grid(v0, step as nat, colors@, soft, bx + 1, by as int)[i] by {
                    lemma_index_coords(i, width as int, height as int);
                    let x = i % width as int;
                    let y = i / width as int;
                    lemma_block_of(x, s, bx as int);
                    lemma_block_of(y, s, by as int);
                }
                assert(framebuffer@.pixels =~= partial_grid(v0, step as nat, colors@, soft, bx + 1, by as int));
            }
            bx = bx + 1;
        }
        proof {
            assert forall|i: int| 0 <= i < v0.pixels.len() implies #[trigger] framebuffer@.pixels[i]
                == partial_grid(v0, step as nat, colors@, soft, 0, by + 1)[i] by {
                lemma_nonempty_width(v0);
                lemma_index_coords(i, width as int, height as int);
                let x = i % width as int;
                lemma_fundamental_div_mod(x, s);
                lemma_grid_count(width as nat, step as nat, (x / s) as nat);
                assert((x / s) * s <= x) by (nonlinear_arith)
                    requires
                        x == s * (x / s) + x % s,
                        x % s >= 0,
                ;
            }
            assert(framebuffer@.pixels =~= partial_grid(v0, step as nat, colors@, soft, 0, by + 1));
        }
        by = by + 1;
    }
    proof {
        assert forall|i: int| 0 <= i < v0.pixels.len() implies #[trigger] framebuffer@.pixels[i]
            == grid_pixel(colors@, width as nat, step as nat, soft, i % width as int, i / width as int) by {
            lemma_nonempty_width(v0);
            lemma_index_coords(i, width as int, height as int);
            let y = i / width as int;
            lemma_fundamental_div_mod(y, s);
            lemma_grid_count(height as nat, step as nat, (y / s) as nat);
            assert((y / s) * s <= y) by (nonlinear_arith)
                requires
                    y == s * (y / s) + y % s,
                    y % s >= 0,
            ;
        }
    }
    assert(framebuffer@.pixels =~= Seq::new(
        v0.pixels.len(),
        |i: int| grid_pixel(colors@, width as nat, step as nat, soft, i % width as int, i / width as int),
    ));
    proof {
        lemma_grid_count(width as nat, step as nat, 0);
        lemma_grid_count(height as nat, step as nat, 0);
        lemma_positive_area(width as nat, height as nat);
    }
}

/// Opacity, per thousand, of a new sample over the old pixel in a blended pass.
pub const TEMPORAL_ALPHA: u32 = 700;

/// The packed pixel `w` with `c` laid over it at opacity `TEMPORAL_ALPHA`.
pub open spec fn temporal_blend(w: u32, c: Rgba) -> u32 {
    packed(blended(unpacked(w), c, TEMPORAL_ALPHA as nat))
}

/// Blends `colors[i]` over pixel `i`, for every pixel in raster order.
fn blend_all(framebuffer: &mut Framebuffer, colors: &Vec<Rgba>)
    requires
        old(framebuffer).wf(),
        colors@.len() == old(framebuffer)@.pixels.len(),
    ensures
        final(framebuffer).wf(),
        final(framebuffer)@ == (FrameView {
            pixels: Seq::new(
                old(framebuffer)@.pixels.len(),
                |i: int| temporal_blend(old(framebuffer)@.pixels[i], colors@[i]),
            ),
            dirty: final(framebuffer)@.dirty,
            ..old(framebuffer)@
        }),
        final(framebuffer)@.dirty == (old(framebuffer)@.dirty || old(framebuffer)@.pixels.len() > 0),
{
    let ghost v0 = framebuffer@;
    let width = framebuffer.width();
    let height = framebuffer.height();
    let n = colors.len();
    let mut i: usize = 0;
    while i < n
        invariant
            framebuffer.wf(),
            framebuffer@ == (FrameView { pixels: framebuffer@.pixels, dirty: framebuffer@.dirty, ..v0 }),
            framebuffer@.dirty == (v0.dirty || i > 0),
            width == v0.width,
            height == v0.height,
            n == colors@.len(),
            n == v0.pixels.len(),
            v0.pixels.len() == width * height,
            i <= n,
            forall|j: int|
                0 <= j < n ==> #[trigger] framebuffer@.pixels[j] == if j < i {
                    temporal_blend(v0.pixels[j], colors@[j])
                } else {
                    v0.pixels[j]
                },
        decreases n - i,
    {
        proof {
            lemma_nonempty_width(v0);
            lemma_index_coords(i as int, width as int, height as int);
        }
        let x = (i as u32) % width;
        let y = (i as u32) / width;
        proof {
            lemma_coords(i as int, width as int, x as int, y as int);
        }
        framebuffer.blend_pixel(x, y, colors[i], TEMPORAL_ALPHA);
        i = i + 1;
    }
    assert(framebuffer@.pixels =~= Seq::new(v0.pixels.len(), |j: int| temporal_blend(v0.pixels[j], colors@[j])));
}

/// Sampling stride of a detail level: every pixel at levels 1 and 2, then
/// every second, third and fourth pixel.
pub open spec fn lod_step(lod: u32) -> u32 {
    if lod == 1 || lod == 2 {
        1
    } else if lod == 3 {
        2
    } else if lod == 4 {
        3
    } else {
        4
    }
}

/// Sample offset of a detail level: level 2 casts each pixel's ray one row
/// further down (clamped to the last row).
pub open spec fn lod_jitter(lod: u32) -> Option<(u32, u32)> {
    if lod == 2 {
        Some((0u32, 1u32))
    } else {
        None
    }
}

/// The sampling stride of detail level `lod_level`.
pub fn step_size(lod_level: u32) -> (r: u32)
    ensures
        r == lod_step(lod_level),
        r > 0,
{
    match lod_level {
        1 => 1,
        2 => 1,
        3 => 2,
        4 => 3,
        _ => 4,
    }
}

/// The sample offset of detail level `lod_level`, taken from a fixed pattern of
/// four offsets.
pub fn jitter_offset(lod_level: u32) -> (r: Option<(u32, u32)>)
    ensures
        r == lod_jitter(lod_level),
{
    let pattern: [(u32, u32); 4] = [(0, 0), (1, 0), (0, 1), (1, 1)];
    match lod_level {
        2 => Some(pattern[(lod_level % 4) as usize]),
        _ => None,
    }
}

/// Sample `k` of a grid pass over a `width` by `height` buffer: grid point
/// `k` in raster order, moved by `jitter` and clamped to the last column and row.
pub open spec fn sample_at(width: nat, height: nat, step: nat, jitter: Option<(u32, u32)>, k: int) -> (u32, u32) {
    let cols = grid_count(width, step) as int;
    let x = (k % cols) * step;
    let y = (k / cols) * step;
    match jitter {
        None => (x as u32, y as u32),
        Some(j) => (
            (if x + j.0 < width - 1 { x + j.0 } else { width - 1 }) as u32,
            (if y + j.1 < height - 1 { y + j.1 } else { height - 1 }) as u32,
        ),
    }
}

/// A grid has no more points than the range has values.
proof fn lemma_grid_count_le(n: nat, step: nat)
    requires
        step > 0,
    ensures
        grid_count(n, step) <= n,
        step == 1 ==> grid_count(n, step) == n,
{
    let c = grid_count(n, step);
    if c > 0 {
        lemma_grid_count(n, step, (c - 1) as nat);
        assert(c <= n) by (nonlinear_arith)
            requires
                (c - 1) * step < n,
                step >= 1,
                c >= 1,
        ;
    }
    if step == 1 && n > 0 {
        lemma_grid_count(n, step, (n - 1) as nat);
        lemma_grid_count(n, step, n);
    }
}

/// The points where a grid pass with stride `step` samples, in raster order.
pub fn sample_points(width: u32, height: u32, step: u32, jitter: Option<(u32, u32)>) -> (r: Vec<(u32, u32)>)
    requires
        step > 0,
        width * height <= u32::MAX,
    ensures
        r@.len() == grid_count(width as nat, step as nat) * grid_count(height as nat, step as nat),
        forall|k: int| 0 <= k < r@.len() ==> #[trigger] r@[k] == sample_at(width as nat, height as nat, step as nat, jitter, k),
{
    let cols = grid_count_u32(width, step);
    let rows = grid_count_u32(height, step);
    proof {
        lemma_grid_count_le(width as nat, step as nat);
        lemma_grid_count_le(height as nat, step as nat);
        assert(cols * rows <= width * height) by (nonlinear_arith)
            requires
                cols <= width,
                rows <= height,
        ;
    }
    let mut points: Vec<(u32, u32)> = Vec::new();
    let mut by: u32 = 0;
    while by < rows
        invariant
            cols == grid_count(width as nat, step as nat),
            rows == grid_count(height as nat, step as nat),
            cols * rows <= u32::MAX,
            step > 0,
            by <= rows,
            points@.len() == by * cols,
            forall|k: int| 0 <= k < points@.len() ==> #[trigger] points@[k] == sample_at(width as nat, height as nat, step as nat, jitter, k),
        decreases rows - by,
    {
        proof {
            lemma_grid_count(height as nat, step as nat, by as nat);
        }
        let mut bx: u32 = 0;
        while bx < cols
            invariant
                cols == grid_count(width as nat, step as nat),
                rows == grid_count(height as nat, step as nat),
                cols * rows <= u32::MAX,
                step > 0,
                by < rows,
                by * step < height,
                bx <= cols,
                points@.len() == by * cols + bx,
                forall|k: int| 0 <= k < points@.len() ==> #[trigger] points@[k] == sample_at(width as nat, height as nat, step as nat, jitter, k),
            decreases cols - bx,
        {
            proof {
                lemma_grid_count(width as nat, step as nat, bx as nat);
                lemma_coords(by * cols + bx, cols as int, bx as int, by as int);
            }
            let x = bx * step;
            let y = by * step;
            let p = match jitter {
                None => (x, y),
                Some((jx, jy)) => {
                    let px = if (x as u64 + jx as u64) < (width - 1) as u64 {
                        x + jx
                    } else {
                        width - 1
                    };
                    let py = if (y as u64 + jy as u64) < (height - 1) as u64 {
                        y + jy
                    } else {
                        height - 1
                    };
                    (px, py)
                },
            };
            points.push(p);
            bx = bx + 1;
        }
        assert(by * cols + cols == (by + 1) * cols) by (nonlinear_arith);
        by = by + 1;
    }
    assert(rows * cols == cols * rows) by (nonlinear_arith);
    points
}

/// The points where an adaptive pass at detail level `lod_level` casts its rays,
/// in the order `render_adaptive` takes their colors.
pub fn adaptive_samples(width: u32, height: u32, lod_level: u32) -> (r: Vec<(u32, u32)>)
    requires
        width * height <= u32::MAX,
    ensures
        r@.len() == grid_count(width as nat, lod_step(lod_level) as nat) * grid_count(
            height as nat,
            lod_step(lod_level) as nat,
        ),
        forall|k: int|
            0 <= k < r@.len() ==> #[trigger] r@[k] == sample_at(
                width as nat,
                height as nat,
                lod_step(lod_level) as nat,
                lod_jitter(lod_level),
                k,
            ),
{
    let step = step_size(lod_level);
    let jitter = jitter_offset(lod_level);
    sample_points(width, height, step, jitter)
}

/// The pixels of `v` cleared to its background color.
pub open spec fn cleared(v: FrameView) -> Seq<u32> {
    Seq::new(v.pixels.len(), |i: int| packed(v.background))
}

/// The pixels after an adaptive pass at detail level `lod` with sample colors
/// `colors`: at level 1 each pixel takes its sample; at level 2 each pixel's
/// sample (cast one row further down) is blended over it; coarser levels fill one block per
/// sample with darkened borders, on a cleared buffer from level 4 on.
pub open spec fn adaptive_pixels(v: FrameView, lod: u32, colors: Seq<Rgba>) -> Seq<u32> {
    let base = if lod >= 4 {
        cleared(v)
    } else {
        v.pixels
    };
    Seq::new(
        v.pixels.len(),
        |i: int|
            if lod == 2 {
                temporal_blend(base[i], colors[i])
            } else {
                grid_pixel(colors, v.width, lod_step(lod) as nat, lod != 1, i % v.width as int, i / v.width as int)
            },
    )
}

/// Adaptive pass at detail level `lod_level`: `colors` holds the color of each
/// point of `adaptive_samples`, in order.
pub fn render_adaptive(framebuffer: &mut Framebuffer, lod_level: u32, colors: &Vec<Rgba>)
    requires
        old(framebuffer).wf(),
        colors@.len() == grid_count(old(framebuffer)@.width, lod_step(lod_level) as nat) * grid_count(
            old(framebuffer)@.height,
            lod_step(lod_level) as nat,
        ),
    ensures
        final(framebuffer).wf(),
        final(framebuffer)@ == (FrameView {
            pixels: adaptive_pixels(old(framebuffer)@, lod_level, colors@),
            dirty: final(framebuffer)@.dirty,
            ..old(framebuffer)@
        }),
        final(framebuffer)@.dirty == (old(framebuffer)@.dirty || lod_level >= 4 || old(framebuffer)@.pixels.len() > 0),
{
    let ghost v0 = framebuffer@;
    if lod_level >= 4 {
        framebuffer.clear();
    }
    let step = step_size(lod_level);
    if lod_level == 2 {
        proof {
            lemma_grid_count_le(v0.width, 1);
            lemma_grid_count_le(v0.height, 1);
        }
        blend_all(framebuffer, colors);
    } else {
        splat_grid(framebuffer, step, colors, lod_level != 1);
    }
    assert(framebuffer@.pixels =~= adaptive_pixels(v0, lod_level, colors@));
}

/// Low-resolution pass: the buffer is cleared, then each `scale_factor` by
/// `scale_factor` block takes the color of its corner sample, `colors` holding
/// those colors in raster order over the grid.
pub fn render_fast(framebuffer: &mut Framebuffer, scale_factor: u32, colors: &Vec<Rgba>)
    requires
        old(framebuffer).wf(),
        scale_factor > 0,
        colors@.len() == grid_count(old(framebuffer)@.width, scale_factor as nat) * grid_count(
            old(framebuffer)@.height,
            scale_factor as nat,
        ),
    ensures
        final(framebuffer).wf(),
        final(framebuffer)@ == (FrameView {
            pixels: Seq::new(
                old(framebuffer)@.pixels.len(),
                |i: int|
                    grid_pixel(
                        colors@,
                        old(framebuffer)@.width,
                        scale_factor as nat,
                        false,
                        i % old(framebuffer)@.width as int,
                        i / old(framebuffer)@.width as int,
                    ),
            ),
            dirty: true,
            ..old(framebuffer)@
        }),
{
    framebuffer.clear();
    splat_grid(framebuffer, scale_factor, colors, false);
}

/// Full pass: the buffer is cleared, then pixel `i` (in raster order) takes
/// `colors[i]`.
pub fn render(framebuffer: &mut Framebuffer, colors: &Vec<Rgba>)
    requires
        old(framebuffer).wf(),
        colors@.len() == old(framebuffer)@.pixels.len(),
    ensures
        final(framebuffer).wf(),
        final(framebuffer)@ == (FrameView {
            pixels: Seq::new(old(framebuffer)@.pixels.len(), |i: int| packed(colors@[i])),
            dirty: true,
            ..old(framebuffer)@
        }),
{
    let ghost v0 = framebuffer@;
    proof {
        lemma_grid_count_le(v0.width, 1);
        lemma_grid_count_le(v0.height, 1);
    }
    framebuffer.clear();
    splat_grid(framebuffer, 1, colors, false);
    proof {
        assert forall|i: int| 0 <= i < v0.pixels.len() implies #[trigger] framebuffer@.pixels[i] == packed(colors@[i]) by {
            lemma_nonempty_width(v0);
            lemma_index_coords(i, v0.width as int, v0.height as int);
        }
    }
    assert(framebuffer@.pixels =~= Seq::new(v0.pixels.len(), |i: int| packed(colors@[i])));
}

} // verus!
