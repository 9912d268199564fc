use cube_tracer::color::Rgba;
use cube_tracer::framebuffer::Framebuffer;
use cube_tracer::scheduler::{FramePass, FrameScheduler};

#[test]
fn camera_change_resets_episode() {
    let mut s = FrameScheduler::new();
    s.begin_frame(true);
    for _ in 0..30 {
        s.begin_frame(false);
    }
    assert!(s.use_progressive());
    s.reset_episode();
    assert_eq!(s.current_lod(), 4);
    assert!(!s.render_complete());
    assert!(!s.use_progressive());
    assert_eq!(s.frames_since_camera_change(), 0);
}

#[test]
fn camera_change_frame_starts_coarse() {
    let mut s = FrameScheduler::new();
    for _ in 0..12 {
        s.begin_frame(false);
    }
    assert!(s.render_complete());
    let pass = s.begin_frame(true);
    assert_eq!(pass, FramePass::Adaptive(3));
    assert!(!s.render_complete());
    assert_eq!(s.frames_since_camera_change(), 1);
}

#[test]
fn episode_runs_adaptive_then_full_then_progressive() {
    let mut s = FrameScheduler::new();
    let mut passes = Vec::new();
    passes.push(s.begin_frame(true));
    for _ in 0..21 {
        passes.push(s.begin_frame(false));
    }
    let lods: Vec<FramePass> = [3, 3, 2, 2, 1, 1, 1, 1].iter().map(|&l| FramePass::Adaptive(l)).collect();
    assert_eq!(&passes[0..8], &lods[..]);
    assert_eq!(passes[8], FramePass::Full);
    for p in &passes[9..20] {
        assert_eq!(*p, FramePass::Idle);
    }
    assert_eq!(passes[20], FramePass::Progressive);
    assert_eq!(passes[21], FramePass::Progressive);
    assert_eq!(s.current_sample(), 0);
    assert_eq!(s.current_lod(), 1);
    assert_eq!(s.target_lod(), 1);
}

#[test]
fn progressive_steps_until_complete_then_idle() {
    let mut s = FrameScheduler::new();
    let mut fb = Framebuffer::new(3, 3);
    s.begin_frame(true);
    let mut pass = FramePass::Idle;
    for _ in 0..20 {
        pass = s.begin_frame(false);
    }
    assert_eq!(pass, FramePass::Progressive);
    let mut steps = 0;
    while pass == FramePass::Progressive {
        let (start, end) = s.progressive_range(4, 9);
        let colors: Vec<Rgba> = (start..end).map(|i| Rgba::new(i as u8, 0, 0, 255)).collect();
        s.progressive_step(&mut fb, 4, &colors);
        steps += 1;
        pass = s.begin_frame(false);
    }
    assert_eq!(steps, 3);
    assert_eq!(pass, FramePass::Idle);
    assert!(s.render_complete());
    assert_eq!(fb.get_pixel(2, 2), Some(Rgba::new(8, 0, 0, 255)));
}
