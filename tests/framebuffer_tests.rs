use cube_tracer::color::{color_to_u32, u32_to_color, Rgba};
use cube_tracer::framebuffer::Framebuffer;

fn rgba(r: u8, g: u8, b: u8, a: u8) -> Rgba {
    Rgba::new(r, g, b, a)
}

#[test]
fn packs_alpha_red_green_blue() {
    assert_eq!(color_to_u32(rgba(0x12, 0x34, 0x56, 0x78)), 0x7812_3456);
    assert_eq!(color_to_u32(Rgba::black()), 0xFF00_0000);
    assert_eq!(color_to_u32(Rgba::white()), 0xFFFF_FFFF);
}

#[test]
fn unpack_inverts_pack() {
    let c = rgba(1, 200, 33, 7);
    assert_eq!(u32_to_color(color_to_u32(c)), c);
    assert_eq!(u32_to_color(0x0A0B_0C0D), rgba(0x0B, 0x0C, 0x0D, 0x0A));
}

#[test]
fn new_buffer_is_zero_and_dirty() {
    let fb = Framebuffer::new(3, 2);
    assert_eq!(fb.width(), 3);
    assert_eq!(fb.height(), 2);
    assert_eq!(fb.pixel_data().len(), 6);
    assert!(fb.pixel_data().iter().all(|&p| p == 0));
    assert!(fb.is_dirty());
}

#[test]
fn clear_fills_with_background() {
    let mut fb = Framebuffer::new(2, 2);
    fb.set_background_color(rgba(10, 20, 30, 255));
    fb.take_dirty();
    fb.clear();
    assert!(fb.pixel_data().iter().all(|&p| p == 0xFF0A_141E));
    assert!(fb.take_dirty());
    assert!(!fb.is_dirty());
}

#[test]
fn set_pixel_writes_current_color_in_raster_order() {
    let mut fb = Framebuffer::new(3, 2);
    fb.set_current_color(rgba(1, 2, 3, 4));
    fb.take_dirty();
    fb.set_pixel(2, 1);
    assert_eq!(fb.pixel_data()[5], 0x0401_0203);
    assert_eq!(fb.get_pixel(2, 1), Some(rgba(1, 2, 3, 4)));
    assert!(fb.is_dirty());
}

#[test]
fn set_pixel_outside_is_ignored() {
    let mut fb = Framebuffer::new(3, 2);
    fb.take_dirty();
    fb.set_pixel(3, 0);
    fb.set_pixel(0, 2);
    assert!(fb.pixel_data().iter().all(|&p| p == 0));
    assert!(!fb.is_dirty());
    assert_eq!(fb.get_pixel(3, 0), None);
}

#[test]
fn blend_pixel_mixes_by_alpha() {
    let mut fb = Framebuffer::new(1, 1);
    fb.set_current_color(rgba(100, 0, 200, 255));
    fb.set_pixel(0, 0);
    fb.blend_pixel(0, 0, rgba(200, 100, 0, 155), 700);
    // 100*0.3 + 200*0.7 = 170; 0*0.3 + 100*0.7 = 70; 200*0.3 = 60; 255*0.3 + 155*0.7 = 185
    assert_eq!(fb.get_pixel(0, 0), Some(rgba(170, 70, 60, 185)));
}

#[test]
fn blend_pixel_rounds_down_and_ignores_outside() {
    let mut fb = Framebuffer::new(1, 1);
    fb.blend_pixel(0, 0, rgba(1, 3, 255, 255), 500);
    assert_eq!(fb.get_pixel(0, 0), Some(rgba(0, 1, 127, 127)));
    fb.blend_pixel(1, 0, rgba(255, 255, 255, 255), 1000);
    assert_eq!(fb.get_pixel(0, 0), Some(rgba(0, 1, 127, 127)));
}

#[test]
fn blit_region_copies_and_clips() {
    let mut fb = Framebuffer::new(4, 2);
    for x in 0..4u32 {
        fb.set_current_color(rgba(x as u8, 0, 0, 255));
        fb.set_pixel(x, 0);
    }
    fb.take_dirty();
    // two columns from (0, 0) to (3, 1): only the first fits
    fb.blit_region(0, 0, 2, 1, 3, 1);
    assert_eq!(fb.get_pixel(3, 1), Some(rgba(0, 0, 0, 255)));
    assert_eq!(fb.get_pixel(0, 1), Some(rgba(0, 0, 0, 0)));
    assert!(fb.is_dirty());
}

#[test]
fn blit_region_overlap_reads_written_pixels() {
    let mut fb = Framebuffer::new(4, 1);
    for x in 0..4u32 {
        fb.set_current_color(rgba(x as u8 + 1, 0, 0, 255));
        fb.set_pixel(x, 0);
    }
    // copying [0..3) one to the right, left to right, smears the first pixel
    fb.blit_region(0, 0, 3, 1, 1, 0);
    for x in 0..4u32 {
        assert_eq!(fb.get_pixel(x, 0), Some(rgba(1, 0, 0, 255)));
    }
}

#[test]
fn put_pixel_keeps_current_color() {
    let mut fb = Framebuffer::new(2, 1);
    fb.set_current_color(rgba(9, 9, 9, 9));
    fb.put_pixel(1, 0, rgba(5, 6, 7, 8));
    fb.set_pixel(0, 0);
    assert_eq!(fb.get_pixel(1, 0), Some(rgba(5, 6, 7, 8)));
    assert_eq!(fb.get_pixel(0, 0), Some(rgba(9, 9, 9, 9)));
}

#[test]
fn invalidate_cache_marks_dirty() {
    let mut fb = Framebuffer::new(1, 1);
    fb.take_dirty();
    fb.invalidate_cache();
    assert!(fb.is_dirty());
}
