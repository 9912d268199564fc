use crate::color::{packed, Rgba};
use crate::framebuffer::{FrameView, Framebuffer};
use vstd::arithmetic::div_mod::{lemma_fundamental_div_mod, lemma_fundamental_div_mod_converse};
use vstd::prelude::*;

verus! {

/// Where a progressive pass that starts at `cursor` stops: `budget` pixels
/// further on, but never past `total`.
pub open spec fn chunk_end(cursor: nat, budget: nat, total: nat) -> nat {
    if cursor + budget < total {
        cursor + budget
    } else {
        total
    }
}

/// How many pixels a progressive pass from `cursor` renders.
pub open spec fn chunk_len(cursor: nat, budget: nat, total: nat) -> nat {
    if chunk_end(cursor, budget, total) > cursor {
        (chunk_end(cursor, budget, total) - cursor) as nat
    } else {
        0
    }
}

/// The cursor after `k` progressive passes started from zero.
pub open spec fn cursor_after(budget: nat, total: nat, k: nat) -> nat
    decreases k,
{
    if k == 0 {
        0
    } else {
        chunk_end(cursor_after(budget, total, (k - 1) as nat), budget, total)
    }
}

/// The number of passes that cover `total` pixels, `budget` at a time.
pub open spec fn passes_needed(budget: nat, total: nat) -> nat
    recommends
        budget > 0,
{
    ((total + budget - 1) as nat / budget) as nat
}

/// After `k` passes the cursor stands at `k * budget`, or at `total` once that
/// is passed.
pub proof fn lemma_cursor_after(budget: nat, total: nat, k: nat)
    ensures
        cursor_after(budget, total, k) == if k * budget < total {
            k * budget
        } else {
            total
        },
    decreases k,
{
    if k == 0 {
        assert(k * budget == 0);
    } else {
        let j = (k - 1) as nat;
        lemma_cursor_after(budget, total, j);
        assert(j * budget + budget == k * budget) by (nonlinear_arith)
            requires
                j == k - 1,
        ;
        assert(j * budget <= k * budget) by (nonlinear_arith)
            requires
                j == k - 1,
        ;
        assert(cursor_after(budget, total, k) == chunk_end(cursor_after(budget, total, j), budget, total));
    }
}

/// The pass (counting from one) that renders pixel `p`.
pub open spec fn pass_of(budget: nat, p: nat) -> nat
    recommends
        budget > 0,
{
    p / budget + 1
}

/// `passes_needed` is the least number of passes whose budgets cover `total`.
proof fn lemma_passes_needed(budget: nat, total: nat)
    requires
        budget > 0,
        total > 0,
    ensures
        passes_needed(budget, total) >= 1,
        passes_needed(budget, total) * budget >= total,
        (passes_needed(budget, total) - 1) * budget < total,
{
    let q = (total - 1) as nat / budget;
    let r = (total - 1) as nat % budget;
    lemma_fundamental_div_mod((total - 1) as int, budget as int);
    assert(total + budget - 1 == (q + 1) * budget + r) by (nonlinear_arith)
        requires
            (total - 1) == budget * q + r,
    ;
    lemma_fundamental_div_mod_converse((total + budget - 1) as int, budget as int, (q + 1) as int, r as int);
    let n = passes_needed(budget, total);
    assert(n == q + 1);
    assert(n * budget >= total && (n - 1) * budget < total) by (nonlinear_arith)
        requires
            n == q + 1,
            (total - 1) == budget * q + r,
            0 <= r < budget,
    ;
}

/// Pixel `p` lies in the budget-sized block of its pass.
proof fn lemma_pass_of(budget: nat, p: nat)
    requires
        budget > 0,
    ensures
        pass_of(budget, p) >= 1,
        (pass_of(budget, p) - 1) * budget <= p < pass_of(budget, p) * budget,
{
    let j = p / budget;
    lemma_fundamental_div_mod(p as int, budget as int);
    assert(j * budget <= p && p < (j + 1) * budget) by (nonlinear_arith)
        requires
            p == budget * j + p % budget,
            0 <= p % budget < budget,
    ;
}

/// Progressive rendering of `total` pixels, `budget` per pass, from a cursor at
/// zero: pass `k` starts where pass `k - 1` stopped and renders the pixels from
/// `cursor_after(k - 1)` up to `cursor_after(k)`; the passes before pass
/// `ceil(total / budget)` report no completion, that pass reports it with the
/// cursor at `total`, and every pixel is rendered by exactly one of them, pass
/// `pass_of(budget, p)`.
pub proof fn lemma_progressive_completion(budget: nat, total: nat)
    requires
        budget > 0,
        total > 0,
    ensures
        cursor_after(budget, total, passes_needed(budget, total)) == total,
        forall|k: nat|
            1 <= k ==> #[trigger] cursor_after(budget, total, k) == chunk_end(
                cursor_after(budget, total, (k - 1) as nat),
                budget,
                total,
            ) && chunk_len(cursor_after(budget, total, (k - 1) as nat), budget, total) == cursor_after(
                budget,
                total,
                k,
            ) - cursor_after(budget, total, (k - 1) as nat),
        forall|k: nat|
            1 <= k <= passes_needed(budget, total) ==> (#[trigger] cursor_after(budget, total, k) >= total
                <==> k == passes_needed(budget, total)),
        forall|k: nat|
            k < passes_needed(budget, total) ==> #[trigger] cursor_after(budget, total, k) < total,
        forall|p: nat| p < total ==> 1 <= #[trigger] pass_of(budget, p) <= passes_needed(budget, total),
        forall|p: nat, k: nat|
            #![trigger cursor_after(budget, total, k), pass_of(budget, p)]
            p < total && 1 <= k ==> (cursor_after(budget, total, (k - 1) as nat) <= p
                < cursor_after(budget, total, k) <==> k == pass_of(budget, p)),
{
    let n = passes_needed(budget, total);
    lemma_passes_needed(budget, total);
    lemma_cursor_after(budget, total, n);
    assert forall|k: nat| 1 <= k implies #[trigger] cursor_after(budget, total, k) == chunk_end(
        cursor_after(budget, total, (k - 1) as nat),
        budget,
        total,
    ) && chunk_len(cursor_after(budget, total, (k - 1) as nat), budget, total) == cursor_after(
        budget,
        total,
        k,
    ) - cursor_after(budget, total, (k - 1) as nat) by {
        lemma_cursor_after(budget, total, k);
        lemma_cursor_after(budget, total, (k - 1) as nat);
        assert(((k - 1) as nat) * budget <= k * budget) by (nonlinear_arith)
            requires
                k >= 1,
        ;
    }
    assert forall|k: nat| k < n implies #[trigger] cursor_after(budget, total, k) < total by {
        lemma_cursor_after(budget, total, k);
        assert(k * budget <= (n - 1) * budget) by (nonlinear_arith)
            requires
                k <= n - 1,
        ;
    }
    assert forall|p: nat| p < total implies 1 <= #[trigger] pass_of(budget, p) <= n by {
        lemma_pass_of(budget, p);
        let j = pass_of(budget, p);
        if j > n {
            assert(n * budget <= (j - 1) * budget) by (nonlinear_arith)
                requires
                    n <= j - 1,
            ;
        }
    }
    assert forall|p: nat, k: nat| p < total && 1 <= k implies (cursor_after(
        budget,
        total,
        (k - 1) as nat,
    ) <= p < #[trigger] cursor_after(budget, total, k) <==> k == #[trigger] pass_of(budget, p)) by {
        lemma_pass_of(budget, p);
        let j = pass_of(budget, p);
        let i = (k - 1) as nat;
        lemma_cursor_after(budget, total, k);
        lemma_cursor_after(budget, total, i);
        if k < j {
            assert(k * budget <= (j - 1) * budget) by (nonlinear_arith)
                requires
                    k <= j - 1,
            ;
        } else if k > j {
            assert(j * budget <= i * budget) by (nonlinear_arith)
                requires
                    j <= i,
            ;
        }
    }
}

/// End of the pass that starts at `cursor`, computed without overflow.
pub fn progressive_end(cursor: u32, samples_per_frame: u32, total: u32) -> (r: u32)
    ensures
        r == chunk_end(cursor as nat, samples_per_frame as nat, total as nat),
{
    let end = cursor as u64 + samples_per_frame as u64;
    if end < total as u64 {
        end as u32
    } else {
        total
    }
}

/// The buffer after a progressive chunk from `start` drawn with `colors`: the
/// pixels are cleared first when `start` is zero, then pixels `start`,
/// `start + 1`, ... take the colors in order.
pub open spec fn after_chunk(v: FrameView, start: nat, colors: Seq<Rgba>) -> FrameView {
    let base = if start == 0 {
        Seq::new(v.pixels.len(), |i: int| packed(v.background))
    } else {
        v.pixels
    };
    FrameView {
        pixels: Seq::new(
            v.pixels.len(),
            |i: int|
                if start <= i < start + colors.len() {
                    packed(colors[i - start])
                } else {
                    base[i]
                },
        ),
        dirty: v.dirty || start == 0 || colors.len() > 0,
        ..v
    }
}

/// Renders the next chunk of a progressive pass: pixels `*current_sample` up
/// to `samples_per_frame` further (but not past the last pixel) get, in raster
/// order, the colors `colors`. The buffer is cleared first when the cursor is
/// at zero. The cursor moves to the chunk's end; returns whether it reached the
/// last pixel.
pub fn render_progressive(
    framebuffer: &mut Framebuffer,
    samples_per_frame: u32,
    current_sample: &mut u32,
    colors: &Vec<Rgba>,
) -> (done: bool)
    requires
        old(framebuffer).wf(),
        *old(current_sample) + samples_per_frame <= u32::MAX,
        colors@.len() == chunk_len(
            *old(current_sample) as nat,
            samples_per_frame as nat,
            old(framebuffer)@.width * old(framebuffer)@.height,
        ),
    ensures
        final(framebuffer).wf(),
        final(framebuffer)@ == after_chunk(old(framebuffer)@, *old(current_sample) as nat, colors@),
        *final(current_sample) == chunk_end(
            *old(current_sample) as nat,
            samples_per_frame as nat,
            old(framebuffer)@.width * old(framebuffer)@.height,
        ),
        done == (*final(current_sample) >= old(framebuffer)@.width * old(framebuffer)@.height),
{
    let ghost v0 = framebuffer@;
    let width = framebuffer.width();
    let height = framebuffer.height();
    let total = width * height;
    let start = *current_sample;
    if start == 0 {
        framebuffer.clear();
    }
    let ghost base = framebuffer@.pixels;
    let ghost v1 = framebuffer@;
    let end = progressive_end(start, samples_per_frame, total);
    let mut pixel_index: u32 = start;
    let mut k: usize = 0;
    assert(width > 0 || end == 0) by (nonlinear_arith)
        requires
            total == width * height,
            end <= total,
    ;
    while pixel_index < end
        invariant
            width > 0 || end == 0,
            framebuffer.wf(),
            framebuffer@ == (FrameView { pixels: framebuffer@.pixels, dirty: framebuffer@.dirty, ..v1 }),
            v1.width == width,
            v1.height == height,
            total == width * height,
            end == chunk_end(start as nat, samples_per_frame as nat, total as nat),
            end <= total,
            colors@.len() == chunk_len(start as nat, samples_per_frame as nat, total as nat),
            start <= pixel_index <= end || (start > end && pixel_index == start),
            start <= end ==> k == pixel_index - start,
            start > end ==> k == 0,
            framebuffer@.dirty == (v1.dirty || k > 0),
            base.len() == total,
            framebuffer@.pixels.len() == total,
            forall|i: int|
                0 <= i < total ==> framebuffer@.pixels[i] == if start <= i < pixel_index {
                    packed(colors@[i - start])
                } else {
                    base[i]
                },
        decreases end - pixel_index,
    {
        let x = pixel_index % width;
        let y = pixel_index / width;
        proof {
            lemma_fundamental_div_mod(pixel_index as int, width as int);
            assert(y < height) by (nonlinear_arith)
                requires
                    pixel_index == width * y + x,
                    pixel_index < width * height,
                    0 <= x,
            ;
            assert(pixel_index == y * width + x) by (nonlinear_arith)
                requires
                    pixel_index == width * y + x,
            ;
        }
        framebuffer.put_pixel(x, y, colors[k]);
        pixel_index = pixel_index + 1;
        k = k + 1;
    }
    assert(framebuffer@.pixels =~= Seq::new(
        v0.pixels.len(),
        |i: int|
            if start <= i < start + colors@.len() {
                packed(colors@[i - start])
            } else {
                base[i]
            },
    ));
    *current_sample = end;
    end >= total
}

} // verus!
