use crate::color::{color_to_u32, packed, u32_to_color, unpacked, Rgba};
use vstd::arithmetic::div_mod::lemma_fundamental_div_mod_converse;
use vstd::arithmetic::mul::lemma_mul_inequality;
use vstd::prelude::*;

verus! {

/// What a framebuffer holds, seen mathematically.
pub ghost struct FrameView {
    pub width: nat,
    pub height: nat,
    /// Packed colors in raster order, row `y` starting at `y * width`.
    pub pixels: Seq<u32>,
    pub background: Rgba,
    pub current: Rgba,
    pub dirty: bool,
}

/// A row-major buffer of packed RGBA pixels with a background color (used by
/// `clear`) and a current drawing color (used by `set_pixel`).
pub struct Framebuffer {
    width: u32,
    height: u32,
    background_color: Rgba,
    current_color: Rgba,
    buffer_dirty: bool,
    pixel_data: Vec<u32>,
}

/// Index of pixel `(x, y)` in a buffer of the given width.
pub open spec fn pixel_index(width: nat, x: int, y: int) -> int {
    y * width + x
}

/// The pixels `p` with `(x, y)` set to `w` if it lies inside the buffer.
pub open spec fn put(p: Seq<u32>, width: nat, height: nat, x: int, y: int, w: u32) -> Seq<u32> {
    if 0 <= x < width && 0 <= y < height {
        p.update(pixel_index(width, x, y), w)
    } else {
        p
    }
}

/// One channel of `alpha` parts per thousand of `new` over `1000 - alpha` of `cur`,
/// rounded down.
pub open spec fn blend_channel(cur: u8, new: u8, alpha: nat) -> u8 {
    ((cur as nat * (1000 - alpha) + new as nat * alpha) / 1000) as u8
}

/// The color `new` laid over `cur` with opacity `alpha` per thousand.
pub open spec fn blended(cur: Rgba, new: Rgba, alpha: nat) -> Rgba {
    Rgba {
        r: blend_channel(cur.r, new.r, alpha),
        g: blend_channel(cur.g, new.g, alpha),
        b: blend_channel(cur.b, new.b, alpha),
        a: blend_channel(cur.a, new.a, alpha),
    }
}

/// The buffer after step `i` of a region copy: step `i` copies column `i % w`
/// of row `i / w` of the region, when both source and target lie inside.
pub open spec fn blit_step(
    p: Seq<u32>,
    width: nat,
    height: nat,
    src_x: int,
    src_y: int,
    w: int,
    dst_x: int,
    dst_y: int,
    i: int,
) -> Seq<u32> {
    let sr = src_y + i / w;
    let dr = dst_y + i / w;
    let sc = src_x + i % w;
    let dc = dst_x + i % w;
    if sr < height && dr < height && sc < width && dc < width {
        p.update(pixel_index(width, dc, dr), p[pixel_index(width, sc, sr)])
    } else {
        p
    }
}

/// The buffer after the first `n` steps of a region copy, taken in raster order.
pub open spec fn blit_upto(
    p: Seq<u32>,
    width: nat,
    height: nat,
    src_x: int,
    src_y: int,
    w: int,
    dst_x: int,
    dst_y: int,
    n: nat,
) -> Seq<u32>
    decreases n,
{
    if n == 0 {
        p
    } else {
        blit_step(
            blit_upto(p, width, height, src_x, src_y, w, dst_x, dst_y, (n - 1) as nat),
            width,
            height,
            src_x,
            src_y,
            w,
            dst_x,
            dst_y,
            n - 1,
        )
    }
}

/// One channel of `new` laid over `cur` with opacity `alpha` per thousand.
fn blend_u8(cur: u8, new: u8, alpha: u32) -> (r: u8)
    requires
        alpha <= 1000,
    ensures
        r == blend_channel(cur, new, alpha as nat),
{
    let c = cur as u32;
    let n = new as u32;
    assert(c * (1000 - alpha) + n * alpha <= 255 * 1000) by (nonlinear_arith)
        requires
            c <= 255,
            n <= 255,
            alpha <= 1000,
    ;
    let sum = c * (1000 - alpha) + n * alpha;
    (sum / 1000) as u8
}

impl View for Framebuffer {
    type V = FrameView;

    closed spec fn view(&self) -> FrameView {
        FrameView {
            width: self.width as nat,
            height: self.height as nat,
            pixels: self.pixel_data@,
            background: self.background_color,
            current: self.current_color,
            dirty: self.buffer_dirty,
        }
    }
}

/// In a buffer of `width * height` pixels, the index of an inside pixel is in range.
pub proof fn lemma_index_in_range(width: nat, height: nat, x: int, y: int)
    requires
        0 <= x < width,
        0 <= y < height,
    ensures
        0 <= pixel_index(width, x, y) < width * height,
{
    lemma_mul_inequality(y + 1, height as int, width as int);
    assert((y + 1) * width == y * width + width) by (nonlinear_arith);
    assert(0 <= y * width) by (nonlinear_arith)
        requires
            0 <= y,
    ;
}

impl Framebuffer {
    /// The buffer holds exactly one pixel per position and its size fits in 32 bits.
    pub open spec fn wf(&self) -> bool {
        &&& self@.pixels.len() == self@.width * self@.height
        &&& self@.width * self@.height <= u32::MAX
    }

    /// A `width` by `height` buffer of zero pixels, black background, white pen.
    pub fn new(width: u32, height: u32) -> (fb: Framebuffer)
        requires
            width * height <= u32::MAX,
        ensures
            fb.wf(),
            fb@.width == width,
            fb@.height == height,
            fb@.pixels == Seq::new((width * height) as nat, |i: int| 0u32),
            fb@.background == (Rgba { r: 0, g: 0, b: 0, a: 255 }),
            fb@.current == (Rgba { r: 255, g: 255, b: 255, a: 255 }),
            fb@.dirty,
    {
        let n = width * height;
        let pixel_data = vec![0u32; n as usize];
        assert(pixel_data@ =~= Seq::new((width * height) as nat, |i: int| 0u32));
        Framebuffer {
            width,
            height,
            background_color: Rgba::black(),
            current_color: Rgba::white(),
            buffer_dirty: true,
            pixel_data,
        }
    }

    /// Width in pixels.
    pub fn width(&self) -> (r: u32)
        ensures
            r == self@.width,
    {
        self.width
    }

    /// Height in pixels.
    pub fn height(&self) -> (r: u32)
        ensures
            r == self@.height,
    {
        self.height
    }

    /// The packed pixels in raster order.
    pub fn pixel_data(&self) -> (r: &Vec<u32>)
        ensures
            r@ == self@.pixels,
    {
        &self.pixel_data
    }

    /// The color of pixel `(x, y)`, or `None` outside the buffer.
    pub fn get_pixel(&self, x: u32, y: u32) -> (r: Option<Rgba>)
        requires
            self.wf(),
        ensures
            x < self@.width && y < self@.height ==> r == Some(
                unpacked(self@.pixels[pixel_index(self@.width, x as int, y as int)]),
            ),
            !(x < self@.width && y < self@.height) ==> r.is_none(),
    {
        if x < self.width && y < self.height {
            proof {
                lemma_index_in_range(self@.width, self@.height, x as int, y as int);
            }
            let index = (y * self.width + x) as usize;
            Some(u32_to_color(self.pixel_data[index]))
        } else {
            None
        }
    }

    /// Whether the pixels changed since the flag was last taken.
    pub fn is_dirty(&self) -> (r: bool)
        ensures
            r == self@.dirty,
    {
        self.buffer_dirty
    }

    /// Returns the change flag and clears it.
    pub fn take_dirty(&mut self) -> (r: bool)
        ensures
            r == old(self)@.dirty,
            final(self)@ == (FrameView { dirty: false, ..old(self)@ }),
    {
        let r = self.buffer_dirty;
        self.buffer_dirty = false;
        r
    }

    /// Fills every pixel with the background color.
    pub fn clear(&mut self)
        requires
            old(self).wf(),
        ensures
            final(self).wf(),
            final(self)@ == (FrameView {
                pixels: Seq::new(old(self)@.pixels.len(), |i: int| packed(old(self)@.background)),
                dirty: true,
                ..old(self)@
            }),
    {
        let bg = color_to_u32(self.background_color);
        let n = self.pixel_data.len();
        let mut i: usize = 0;
        while i < n
            invariant
                n == self.pixel_data@.len(),
                n == old(self)@.pixels.len(),
                i <= n,
                self.width == old(self).width,
                self.height == old(self).height,
                self.background_color == old(self).background_color,
                self.current_color == old(self).current_color,
                self.buffer_dirty == old(self).buffer_dirty,
                bg == packed(self.background_color),
                forall|j: int| 0 <= j < i ==> self.pixel_data@[j] == bg,
            decreases n - i,
        {
            self.pixel_data.set(i, bg);
            i = i + 1;
        }
        self.buffer_dirty = true;
        assert(self.pixel_data@ =~= Seq::new(old(self)@.pixels.len(), |i: int| bg));
    }

    /// Writes the current color at `(x, y)`; does nothing outside the buffer.
    pub fn set_pixel(&mut self, x: u32, y: u32)
        requires
            old(self).wf(),
        ensures
            final(self).wf(),
            final(self)@ == (FrameView {
                pixels: put(
                    old(self)@.pixels,
                    old(self)@.width,
                    old(self)@.height,
                    x as int,
                    y as int,
                    packed(old(self)@.current),
                ),
                dirty: old(self)@.dirty || (x < old(self)@.width && y < old(self)@.height),
                ..old(self)@
            }),
    {
        if x < self.width && y < self.height {
            proof {
                lemma_index_in_range(self@.width, self@.height, x as int, y as int);
            }
            let index = (y * self.width + x) as usize;
            let w = color_to_u32(self.current_color);
            self.pixel_data.set(index, w);
            self.buffer_dirty = true;
        }
    }

    /// Writes `color` at `(x, y)`; does nothing outside the buffer. The current
    /// color is left as it was.
    pub fn put_pixel(&mut self, x: u32, y: u32, color: Rgba)
        requires
            old(self).wf(),
        ensures
            final(self).wf(),
            final(self)@ == (FrameView {
                pixels: put(
                    old(self)@.pixels,
                    old(self)@.width,
                    old(self)@.height,
                    x as int,
                    y as int,
                    packed(color),
                ),
                dirty: old(self)@.dirty || (x < old(self)@.width && y < old(self)@.height),
                ..old(self)@
            }),
    {
        if x < self.width && y < self.height {
            proof {
                lemma_index_in_range(self@.width, self@.height, x as int, y as int);
            }
            let index = (y * self.width + x) as usize;
            let w = color_to_u32(color);
            self.pixel_data.set(index, w);
            self.buffer_dirty = true;
        }
    }

    /// Lays `color` over pixel `(x, y)` with opacity `alpha` per thousand; does
    /// nothing outside the buffer.
    pub fn blend_pixel(&mut self, x: u32, y: u32, color: Rgba, alpha: u32)
        requires
            old(self).wf(),
            alpha <= 1000,
        ensures
            final(self).wf(),
            final(self)@ == (FrameView {
                pixels: put(
                    old(self)@.pixels,
                    old(self)@.width,
                    old(self)@.height,
                    x as int,
                    y as int,
                    packed(
                        blended(
                            unpacked(
                                old(self)@.pixels[pixel_index(old(self)@.width, x as int, y as int)],
                            ),
                            color,
                            alpha as nat,
                        ),
                    ),
                ),
                dirty: old(self)@.dirty || (x < old(self)@.width && y < old(self)@.height),
                ..old(self)@
            }),
    {
        if x < self.width && y < self.height {
            proof {
                lemma_index_in_range(self@.width, self@.height, x as int, y as int);
            }
            let index = (y * self.width + x) as usize;
            let current = u32_to_color(self.pixel_data[index]);
            let mixed = Rgba {
                r: blend_u8(current.r, color.r, alpha),
                g: blend_u8(current.g, color.g, alpha),
                b: blend_u8(current.b, color.b, alpha),
                a: blend_u8(current.a, color.a, alpha),
            };
            let w = color_to_u32(mixed);
            self.pixel_data.set(index, w);
            self.buffer_dirty = true;
        }
    }

    /// Copies the `width` by `height` region at `(src_x, src_y)` to `(dst_x, dst_y)`,
    /// pixel by pixel in raster order, skipping pairs where either end lies outside
    /// the buffer. Overlapping regions read pixels already written by the copy.
    pub fn blit_region(
        &mut self,
        src_x: u32,
        src_y: u32,
        width: u32,
        height: u32,
        dst_x: u32,
        dst_y: u32,
    )
        requires
            old(self).wf(),
        ensures
            final(self).wf(),
            final(self)@ == (FrameView {
                pixels: blit_upto(
                    old(self)@.pixels,
                    old(self)@.width,
                    old(self)@.height,
                    src_x as int,
                    src_y as int,
                    width as int,
                    dst_x as int,
                    dst_y as int,
                    (width * height) as nat,
                ),
                dirty: true,
                ..old(self)@
            }),
    {
        let ghost p0 = self.pixel_data@;
        let ghost fw = self@.width;
        let ghost fh = self@.height;
        let mut y: u32 = 0;
        while y < height
            invariant
                self.wf(),
                self@ == (FrameView { pixels: self@.pixels, ..old(self)@ }),
                fw == self@.width,
                fh == self@.height,
                y <= height,
                self.pixel_data@ == blit_upto(
                    p0,
                    fw,
                    fh,
                    src_x as int,
                    src_y as int,
                    width as int,
                    dst_x as int,
                    dst_y as int,
                    (y * width) as nat,
                ),
            decreases height - y,
        {
            let src_row = src_y as u64 + y as u64;
            let dst_row = dst_y as u64 + y as u64;
            let mut x: u32 = 0;
            while x < width
                invariant
                    self.wf(),
                    self@ == (FrameView { pixels: self@.pixels, ..old(self)@ }),
                    fw == self@.width,
                    fh == self@.height,
                    y < height,
                    x <= width,
                    src_row == src_y + y,
                    dst_row == dst_y + y,
                    self.pixel_data@ == blit_upto(
                        p0,
                        fw,
                        fh,
                        src_x as int,
                        src_y as int,
                        width as int,
                        dst_x as int,
                        dst_y as int,
                        (y * width + x) as nat,
                    ),
                decreases width - x,
            {
                let src_col = src_x as u64 + x as u64;
                let dst_col = dst_x as u64 + x as u64;
                proof {
                    let i = y * width + x;
                    lemma_fundamental_div_mod_converse(i, width as int, y as int, x as int);
                    assert(blit_upto(p0, fw, fh, src_x as int, src_y as int, width as int,
                        dst_x as int, dst_y as int, (i + 1) as nat) == blit_step(
                        blit_upto(p0, fw, fh, src_x as int, src_y as int, width as int,
                        dst_x as int, dst_y as int, i as nat), fw, fh, src_x as int,
                        src_y as int, width as int, dst_x as int, dst_y as int, i));
                }
                if src_row < self.height as u64 && dst_row < self.height as u64
                    && src_col < self.width as u64 && dst_col < self.width as u64 {
                    proof {
                        lemma_index_in_range(fw, fh, src_col as int, src_row as int);
                        lemma_index_in_range(fw, fh, dst_col as int, dst_row as int);
                    }
                    let src_index = (src_row * self.width as u64 + src_col) as usize;
                    let dst_index = (dst_row * self.width as u64 + dst_col) as usize;
                    let w = self.pixel_data[src_index];
                    self.pixel_data.set(dst_index, w);
                }
                assert((y * width + x) + 1 == y * width + (x + 1));
                x = x + 1;
            }
            assert(y * width + width == (y + 1) * width) by (nonlinear_arith);
            y = y + 1;
        }
        assert(height * width == width * height) by (nonlinear_arith);
        self.buffer_dirty = true;
    }

    /// Sets the color that `clear` fills with.
    pub fn set_background_color(&mut self, color: Rgba)
        ensures
            final(self)@ == (FrameView { background: color, ..old(self)@ }),
    {
        self.background_color = color;
    }

    /// Sets the color that `set_pixel` writes.
    pub fn set_current_color(&mut self, color: Rgba)
        ensures
            final(self)@ == (FrameView { current: color, ..old(self)@ }),
    {
        self.current_color = color;
    }

    /// Marks the pixels as changed.
    pub fn invalidate_cache(&mut self)
        ensures
            final(self)@ == (FrameView { dirty: true, ..old(self)@ }),
    {
        self.buffer_dirty = true;
    }
}

} // verus!
