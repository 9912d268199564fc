use crate::color::Rgba;
use crate::framebuffer::Framebuffer;
use crate::progressive::{
    after_chunk, chunk_end, chunk_len, cursor_after, lemma_progressive_completion, passes_needed,
    progressive_end, render_progressive,
};
use vstd::prelude::*;

verus! {

/// Detail level right after the camera moves (coarse blocks).
pub const COARSE_LOD: u32 = 4;

/// Detail level the scheduler works toward (every pixel).
pub const FINEST_LOD: u32 = 1;

/// Frames after a camera change that use adaptive passes.
pub const ADAPTIVE_FRAMES: u32 = 8;

/// Frames after a camera change up to which one full pass is made.
pub const FULL_FRAMES: u32 = 20;

/// What to draw in one displayed frame.
#[derive(Clone, Copy, Debug, PartialEq, Eq, Structural)]
pub enum FramePass {
    /// An adaptive pass at the given detail level.
    Adaptive(u32),
    /// One pass over every pixel.
    Full,
    /// The next chunk of a progressive pass.
    Progressive,
    /// Nothing: the image is complete.
    Idle,
}

/// The scheduler's state, seen mathematically.
pub ghost struct SchedulerView {
    pub frames: nat,
    pub lod: nat,
    pub target: nat,
    pub complete: bool,
    pub progressive: bool,
    pub cursor: nat,
}

/// Chooses, frame by frame, how much of the image to render: coarse adaptive
/// passes right after the camera moves, then one full pass, then progressive
/// chunks.
pub struct FrameScheduler {
    frames_since_camera_change: u32,
    current_lod: u32,
    target_lod: u32,
    render_complete: bool,
    use_progressive: bool,
    current_sample: u32,
}

impl View for FrameScheduler {
    type V = SchedulerView;

    closed spec fn view(&self) -> SchedulerView {
        SchedulerView {
            frames: self.frames_since_camera_change as nat,
            lod: self.current_lod as nat,
            target: self.target_lod as nat,
            complete: self.render_complete,
            progressive: self.use_progressive,
            cursor: self.current_sample as nat,
        }
    }
}

/// The state at the start of a camera-motion episode: no frames yet, coarse
/// detail, nothing complete, not progressive. The cursor is kept.
pub open spec fn episode_start(v: SchedulerView) -> SchedulerView {
    SchedulerView {
        frames: 0,
        lod: COARSE_LOD as nat,
        target: FINEST_LOD as nat,
        complete: false,
        progressive: false,
        ..v
    }
}

/// Every second frame the detail level moves one step toward the target.
pub open spec fn refined(v: SchedulerView) -> SchedulerView {
    if v.frames % 2 == 0 && v.lod > v.target {
        SchedulerView { lod: if v.lod - 1 > v.target { (v.lod - 1) as nat } else { v.target }, ..v }
    } else {
        v
    }
}

/// The frame counter moves on by one, stopping at the largest `u32`.
pub open spec fn counted(v: SchedulerView) -> SchedulerView {
    SchedulerView { frames: if v.frames < u32::MAX { v.frames + 1 } else { v.frames }, ..v }
}

/// The state after one frame's decisions and the pass to draw in it.
pub open spec fn frame_plan(v: SchedulerView, camera_changed: bool) -> (SchedulerView, FramePass) {
    let a = if camera_changed {
        episode_start(v)
    } else {
        v
    };
    let b = counted(refined(a));
    if b.frames <= ADAPTIVE_FRAMES {
        (b, FramePass::Adaptive(b.lod as u32))
    } else if b.frames <= FULL_FRAMES {
        if !b.complete {
            (SchedulerView { complete: true, ..b }, FramePass::Full)
        } else {
            (b, FramePass::Idle)
        }
    } else {
        let c = if !b.progressive {
            SchedulerView { cursor: 0, complete: false, progressive: true, ..b }
        } else {
            b
        };
        if !c.complete {
            (c, FramePass::Progressive)
        } else {
            (c, FramePass::Idle)
        }
    }
}

/// After a camera change, the frame's decisions do not depend on the earlier
/// episode: two states that differ in anything but the progressive cursor give
/// the same pass and the same next state, up to that cursor.
pub proof fn lemma_camera_change_forgets(v1: SchedulerView, v2: SchedulerView)
    ensures
        frame_plan(v1, true).1 == frame_plan(v2, true).1,
        frame_plan(v1, true).0 == (SchedulerView { cursor: v1.cursor, ..frame_plan(v2, true).0 }),
{
}

/// One frame without camera motion in which a progressive pass, when chosen,
/// is drawn by `progressive_step` on a buffer of `total` pixels with `budget`
/// pixels per frame: the next state and the pass.
pub open spec fn progressive_frame(v: SchedulerView, budget: nat, total: nat) -> (SchedulerView, FramePass) {
    let (w, pass) = frame_plan(v, false);
    if pass == FramePass::Progressive {
        let end = chunk_end(w.cursor, budget, total);
        (SchedulerView { cursor: end, complete: end >= total, ..w }, pass)
    } else {
        (w, pass)
    }
}

/// The state after `k` such frames.
pub open spec fn frames_run(v: SchedulerView, budget: nat, total: nat, k: nat) -> SchedulerView
    decreases k,
{
    if k == 0 {
        v
    } else {
        progressive_frame(frames_run(v, budget, total, (k - 1) as nat), budget, total).0
    }
}

/// From the frame that enters progressive mode, with the camera still, the
/// scheduler chooses a progressive pass in exactly the first
/// `ceil(total / budget)` frames, its cursor standing at `cursor_after(k)`
/// after `k` of them, and the frame after those is idle with the image
/// complete.
pub proof fn lemma_progressive_episode(v: SchedulerView, budget: nat, total: nat)
    requires
        budget > 0,
        total > 0,
        v.frames >= FULL_FRAMES,
        v.frames <= u32::MAX,
        !v.progressive,
    ensures
        forall|k: nat|
            k < passes_needed(budget, total) ==> (#[trigger] progressive_frame(frames_run(v, budget, total, k), budget, total)).1
                == FramePass::Progressive,
        forall|k: nat|
            1 <= k <= passes_needed(budget, total) ==> (#[trigger] frames_run(v, budget, total, k)).cursor
                == cursor_after(budget, total, k),
        frames_run(v, budget, total, passes_needed(budget, total)).complete,
        progressive_frame(frames_run(v, budget, total, passes_needed(budget, total)), budget, total).1
            == FramePass::Idle,
{
    let n = passes_needed(budget, total);
    lemma_progressive_completion(budget, total);
    assert forall|k: nat| k <= n implies #[trigger] frames_run(v, budget, total, k).frames >= FULL_FRAMES && (k
        >= 1 ==> frames_run(v, budget, total, k).progressive && frames_run(v, budget, total, k).cursor
        == cursor_after(budget, total, k) && frames_run(v, budget, total, k).complete == (cursor_after(
        budget,
        total,
        k,
    ) >= total)) && (k == 0 ==> frames_run(v, budget, total, k) == v) by {
        lemma_frames_run(v, budget, total, k);
    }
    assert forall|k: nat| k < n implies (#[trigger] progressive_frame(
        frames_run(v, budget, total, k),
        budget,
        total,
    )).1 == FramePass::Progressive by {
        assert(frames_run(v, budget, total, k).frames >= FULL_FRAMES);
        if k >= 1 {
            assert(cursor_after(budget, total, k) < total);
        }
    }
}

/// The state after `k` frames of a progressive episode, frame by frame.
proof fn lemma_frames_run(v: SchedulerView, budget: nat, total: nat, k: nat)
    requires
        budget > 0,
        total > 0,
        v.frames >= FULL_FRAMES,
        v.frames <= u32::MAX,
        !v.progressive,
        k <= passes_needed(budget, total),
    ensures
        frames_run(v, budget, total, k).frames >= FULL_FRAMES,
        k == 0 ==> frames_run(v, budget, total, k) == v,
        k >= 1 ==> frames_run(v, budget, total, k).progressive && frames_run(v, budget, total, k).cursor
            == cursor_after(budget, total, k) && frames_run(v, budget, total, k).complete == (cursor_after(
            budget,
            total,
            k,
        ) >= total),
    decreases k,
{
    lemma_progressive_completion(budget, total);
    if k >= 1 {
        let j = (k - 1) as nat;
        lemma_frames_run(v, budget, total, j);
        if j >= 1 {
            assert(cursor_after(budget, total, j) < total);
        }
        assert(cursor_after(budget, total, 1) == chunk_end(cursor_after(budget, total, 0), budget, total));
    }
}

impl FrameScheduler {
    /// Values stay in the ranges of their machine types.
    pub open spec fn wf(&self) -> bool {
        &&& self@.lod <= u32::MAX
        &&& self@.frames <= u32::MAX
        &&& self@.cursor <= u32::MAX
    }

    /// A scheduler at the start of an episode with its cursor at zero.
    pub fn new() -> (s: FrameScheduler)
        ensures
            s.wf(),
            s@ == (SchedulerView {
                frames: 0,
                lod: COARSE_LOD as nat,
                target: FINEST_LOD as nat,
                complete: false,
                progressive: false,
                cursor: 0,
            }),
    {
        FrameScheduler {
            frames_since_camera_change: 0,
            current_lod: COARSE_LOD,
            target_lod: FINEST_LOD,
            render_complete: false,
            use_progressive: false,
            current_sample: 0,
        }
    }

    /// Frames since the camera last moved.
    pub fn frames_since_camera_change(&self) -> (r: u32)
        ensures
            r == self@.frames,
    {
        self.frames_since_camera_change
    }

    /// The current detail level (1 is every pixel).
    pub fn current_lod(&self) -> (r: u32)
        ensures
            r == self@.lod,
    {
        self.current_lod
    }

    /// The detail level worked toward.
    pub fn target_lod(&self) -> (r: u32)
        ensures
            r == self@.target,
    {
        self.target_lod
    }

    /// Whether the current phase has finished its image.
    pub fn render_complete(&self) -> (r: bool)
        ensures
            r == self@.complete,
    {
        self.render_complete
    }

    /// Whether progressive chunks are being drawn.
    pub fn use_progressive(&self) -> (r: bool)
        ensures
            r == self@.progressive,
    {
        self.use_progressive
    }

    /// The first pixel of the next progressive chunk.
    pub fn current_sample(&self) -> (r: u32)
        ensures
            r == self@.cursor,
    {
        self.current_sample
    }

    /// Starts a new camera-motion episode, whatever the state was.
    pub fn reset_episode(&mut self)
        ensures
            final(self)@ == episode_start(old(self)@),
            final(self)@.lod == COARSE_LOD,
            !final(self)@.complete,
            !final(self)@.progressive,
            final(self)@.frames == 0,
    {
        self.frames_since_camera_change = 0;
        self.use_progressive = false;
        self.current_lod = COARSE_LOD;
        self.target_lod = FINEST_LOD;
        self.render_complete = false;
    }

    /// Makes one frame's decisions and returns the pass to draw. A camera change
    /// starts a new episode first.
    pub fn begin_frame(&mut self, camera_changed: bool) -> (pass: FramePass)
        requires
            old(self).wf(),
        ensures
            final(self).wf(),
            (final(self)@, pass) == frame_plan(old(self)@, camera_changed),
            !camera_changed ==> final(self)@.lod <= old(self)@.lod,
            !camera_changed && old(self)@.lod >= old(self)@.target ==> final(self)@.lod
                >= old(self)@.target,
    {
        if camera_changed {
            self.reset_episode();
        }
        if self.frames_since_camera_change % 2 == 0 && self.current_lod > self.target_lod {
            let lowered = self.current_lod - 1;
            self.current_lod = if lowered > self.target_lod {
                lowered
            } else {
                self.target_lod
            };
        }
        if self.frames_since_camera_change < u32::MAX {
            self.frames_since_camera_change = self.frames_since_camera_change + 1;
        }
        if self.frames_since_camera_change <= ADAPTIVE_FRAMES {
            FramePass::Adaptive(self.current_lod)
        } else if self.frames_since_camera_change <= FULL_FRAMES {
            if !self.render_complete {
                self.render_complete = true;
                FramePass::Full
            } else {
                FramePass::Idle
            }
        } else {
            if !self.use_progressive {
                self.current_sample = 0;
                self.render_complete = false;
                self.use_progressive = true;
            }
            if !self.render_complete {
                FramePass::Progressive
            } else {
                FramePass::Idle
            }
        }
    }

    /// The pixel range `[start, end)` that the next progressive chunk covers.
    pub fn progressive_range(&self, samples_per_frame: u32, total: u32) -> (r: (u32, u32))
        ensures
            r.0 == self@.cursor,
            r.1 == chunk_end(self@.cursor, samples_per_frame as nat, total as nat),
    {
        (self.current_sample, progressive_end(self.current_sample, samples_per_frame, total))
    }

    /// Draws the next progressive chunk with `colors` (one per pixel of
    /// `progressive_range`) and records whether the image is complete.
    pub fn progressive_step(
        &mut self,
        framebuffer: &mut Framebuffer,
        samples_per_frame: u32,
        colors: &Vec<Rgba>,
    ) -> (done: bool)
        requires
            old(self).wf(),
            old(framebuffer).wf(),
            old(self)@.cursor + samples_per_frame <= u32::MAX,
            colors@.len() == chunk_len(
                old(self)@.cursor,
                samples_per_frame as nat,
                old(framebuffer)@.width * old(framebuffer)@.height,
            ),
        ensures
            final(self).wf(),
            final(framebuffer).wf(),
            final(framebuffer)@ == after_chunk(old(framebuffer)@, old(self)@.cursor, colors@),
            final(self)@ == (SchedulerView {
                cursor: chunk_end(
                    old(self)@.cursor,
                    samples_per_frame as nat,
                    old(framebuffer)@.width * old(framebuffer)@.height,
                ),
                complete: done,
                ..old(self)@
            }),
            done == (final(self)@.cursor >= old(framebuffer)@.width * old(framebuffer)@.height),
    {
        let done = render_progressive(framebuffer, samples_per_frame, &mut self.current_sample, colors);
        self.render_complete = done;
        done
    }
}

} // verus!
