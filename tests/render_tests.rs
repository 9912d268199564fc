use cube_tracer::color::{color_to_u32, Rgba};
use cube_tracer::framebuffer::Framebuffer;
use cube_tracer::passes::{
    adaptive_samples, fill_adaptive_block, jitter_offset, render, render_adaptive, render_fast,
    sample_points, step_size,
};
use cube_tracer::progressive::{progressive_end, render_progressive};

fn gray(v: u8) -> Rgba {
    Rgba::new(v, v, v, 255)
}

fn dark(v: u8) -> Rgba {
    Rgba::new((v as u32 * 4 / 5) as u8, (v as u32 * 4 / 5) as u8, (v as u32 * 4 / 5) as u8, 255)
}

#[test]
fn step_sizes_by_level() {
    assert_eq!(step_size(1), 1);
    assert_eq!(step_size(2), 1);
    assert_eq!(step_size(3), 2);
    assert_eq!(step_size(4), 3);
    assert_eq!(step_size(5), 4);
    assert_eq!(step_size(0), 4);
    assert_eq!(jitter_offset(2), Some((0, 1)));
    assert_eq!(jitter_offset(1), None);
    assert_eq!(jitter_offset(6), None);
}

#[test]
fn sample_points_cover_grid_in_raster_order() {
    let pts = sample_points(5, 3, 2, None);
    assert_eq!(pts, vec![(0, 0), (2, 0), (4, 0), (0, 2), (2, 2), (4, 2)]);
}

#[test]
fn jittered_samples_are_clamped() {
    let pts = adaptive_samples(2, 2, 2);
    assert_eq!(pts, vec![(0, 1), (1, 1), (0, 1), (1, 1)]);
    let pts = sample_points(3, 3, 2, Some((1, 1)));
    assert_eq!(pts, vec![(1, 1), (2, 1), (1, 2), (2, 2)]);
}

#[test]
fn full_render_writes_every_pixel() {
    let mut fb = Framebuffer::new(2, 2);
    let colors: Vec<Rgba> = (0..4).map(|i| gray(i * 10)).collect();
    render(&mut fb, &colors);
    for (i, c) in colors.iter().enumerate() {
        assert_eq!(fb.pixel_data()[i], color_to_u32(*c));
    }
}

#[test]
fn fill_adaptive_block_darkens_border() {
    let mut fb = Framebuffer::new(4, 4);
    fill_adaptive_block(&mut fb, 0, 0, gray(200), 3);
    for y in 0..3u32 {
        for x in 0..3u32 {
            let expected = if x == 1 && y == 1 { gray(200) } else { dark(200) };
            assert_eq!(fb.get_pixel(x, y), Some(expected));
        }
    }
    assert_eq!(fb.get_pixel(3, 3), Some(Rgba::new(0, 0, 0, 0)));
    // 255 * 0.8 rounds down to 204
    assert_eq!(dark(255), Rgba::new(204, 204, 204, 255));
}

#[test]
fn fill_adaptive_block_is_clipped() {
    let mut fb = Framebuffer::new(2, 2);
    fill_adaptive_block(&mut fb, 1, 1, gray(100), 4);
    assert_eq!(fb.get_pixel(1, 1), Some(dark(100)));
    assert_eq!(fb.get_pixel(0, 0), Some(Rgba::new(0, 0, 0, 0)));
}

#[test]
fn render_fast_upscales_blocks() {
    let mut fb = Framebuffer::new(3, 3);
    let colors = vec![gray(1), gray(2), gray(3), gray(4)];
    render_fast(&mut fb, 2, &colors);
    assert_eq!(fb.get_pixel(1, 1), Some(gray(1)));
    assert_eq!(fb.get_pixel(2, 0), Some(gray(2)));
    assert_eq!(fb.get_pixel(0, 2), Some(gray(3)));
    assert_eq!(fb.get_pixel(2, 2), Some(gray(4)));
}

#[test]
fn adaptive_level_one_sets_each_pixel() {
    let mut fb = Framebuffer::new(2, 1);
    render_adaptive(&mut fb, 1, &vec![gray(7), gray(8)]);
    assert_eq!(fb.get_pixel(0, 0), Some(gray(7)));
    assert_eq!(fb.get_pixel(1, 0), Some(gray(8)));
}

#[test]
fn adaptive_level_two_blends_every_pixel_in_place() {
    let mut fb = Framebuffer::new(1, 3);
    fb.set_current_color(gray(100));
    for y in 0..3u32 {
        fb.set_pixel(0, y);
    }
    render_adaptive(&mut fb, 2, &vec![gray(200), gray(0), gray(50)]);
    // each pixel: 100 * 0.3 + sample * 0.7
    assert_eq!(fb.get_pixel(0, 0), Some(gray(170)));
    assert_eq!(fb.get_pixel(0, 1), Some(gray(30)));
    assert_eq!(fb.get_pixel(0, 2), Some(gray(65)));
}

#[test]
fn adaptive_level_two_blends_top_row() {
    let mut fb = Framebuffer::new(1, 2);
    fb.set_current_color(Rgba::new(0, 0, 0, 255));
    fb.set_pixel(0, 0);
    fb.set_pixel(0, 1);
    render_adaptive(&mut fb, 2, &vec![Rgba::white(), Rgba::new(0, 0, 0, 255)]);
    assert_eq!(fb.get_pixel(0, 0), Some(Rgba::new(178, 178, 178, 255)));
    assert_eq!(fb.get_pixel(0, 1), Some(Rgba::new(0, 0, 0, 255)));
}

#[test]
fn adaptive_level_three_splats_two_by_two() {
    let mut fb = Framebuffer::new(2, 2);
    render_adaptive(&mut fb, 3, &vec![gray(100)]);
    for y in 0..2u32 {
        for x in 0..2u32 {
            assert_eq!(fb.get_pixel(x, y), Some(dark(100)));
        }
    }
}

#[test]
fn adaptive_level_four_clears_first() {
    let mut fb = Framebuffer::new(4, 1);
    fb.set_background_color(gray(9));
    fb.set_current_color(gray(77));
    fb.set_pixel(3, 0);
    render_adaptive(&mut fb, 4, &vec![gray(100), gray(50)]);
    assert_eq!(fb.get_pixel(0, 0), Some(dark(100)));
    assert_eq!(fb.get_pixel(3, 0), Some(dark(50)));
}

#[test]
fn progressive_end_never_passes_total() {
    assert_eq!(progressive_end(0, 5, 12), 5);
    assert_eq!(progressive_end(10, 5, 12), 12);
    assert_eq!(progressive_end(u32::MAX - 1, 5, 12), 12);
}

#[test]
fn progressive_completes_after_ceil_steps_visiting_each_pixel_once() {
    let (w, h, s) = (4u32, 3u32, 5u32);
    let total = w * h;
    let mut fb = Framebuffer::new(w, h);
    let mut cursor = 0u32;
    let mut visits = vec![0u32; total as usize];
    let mut steps = 0u32;
    loop {
        let start = cursor;
        let end = progressive_end(cursor, s, total);
        let colors: Vec<Rgba> = (start..end).map(|i| gray(i as u8 + 1)).collect();
        for i in start..end {
            visits[i as usize] += 1;
        }
        let done = render_progressive(&mut fb, s, &mut cursor, &colors);
        steps += 1;
        if done {
            break;
        }
    }
    assert_eq!(steps, (total + s - 1) / s);
    assert!(visits.iter().all(|&v| v == 1));
    for i in 0..total {
        assert_eq!(fb.get_pixel(i % w, i / w), Some(gray(i as u8 + 1)));
    }
}

#[test]
fn progressive_clears_only_at_start() {
    let mut fb = Framebuffer::new(2, 1);
    fb.set_background_color(gray(3));
    fb.set_current_color(gray(99));
    fb.set_pixel(1, 0);
    let mut cursor = 1u32;
    let done = render_progressive(&mut fb, 1, &mut cursor, &vec![gray(5)]);
    assert!(done);
    assert_eq!(cursor, 2);
    assert_eq!(fb.get_pixel(1, 0), Some(gray(5)));
    assert_eq!(fb.get_pixel(0, 0), Some(Rgba::new(0, 0, 0, 0)));
    let mut cursor = 0u32;
    let done = render_progressive(&mut fb, 1, &mut cursor, &vec![gray(6)]);
    assert!(!done);
    assert_eq!(fb.get_pixel(0, 0), Some(gray(6)));
    assert_eq!(fb.get_pixel(1, 0), Some(gray(3)));
}
