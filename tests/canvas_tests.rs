use ruling_pen::canvas::{calc_ssaa_variables, Canvas, CanvasError, DEPTH_FAR, SSAA};
use ruling_pen::color::Color;

fn black() -> Color {
    Color::new(0, 0, 0, 255)
}

#[test]
fn upscaling_quarter_needs_divisible_size() {
    let c = Canvas::new(800, 800, black(), SSAA::X0_25).unwrap();
    assert_eq!(c.size_x_supersized, 200);
    assert_eq!(c.size_y_supersized, 200);
    assert_eq!(c.buffer_supersized.len(), 200 * 200);
    assert_eq!(c.z_buffer_supersized.len(), 200 * 200);
    assert_eq!(c.buffer.len(), 800 * 800);
    assert_eq!(c.size_x_supersized_half, 100);
    assert!(matches!(
        Canvas::new(802, 800, black(), SSAA::X0_25),
        Err(CanvasError::SizeNotDivisible)
    ));
    assert!(matches!(
        Canvas::new(800, 798, black(), SSAA::X0_25),
        Err(CanvasError::SizeNotDivisible)
    ));
}

#[test]
fn supersized_sizes_per_level() {
    let bg = Color::new(1, 2, 3, 255);
    let dims = |level: SSAA, x: usize, y: usize| {
        calc_ssaa_variables(&level, x, y, &bg).map(|(sx, sy, hx, hy, _, _)| (sx, sy, hx, hy))
    };
    assert_eq!(dims(SSAA::X0_125, 64, 32), Ok((8, 4, 4, 2)));
    assert_eq!(dims(SSAA::X0_125, 60, 32), Err(CanvasError::SizeNotDivisible));
    assert_eq!(dims(SSAA::X1, 63, 31), Ok((63, 31, 31, 15)));
    assert_eq!(dims(SSAA::X4, 63, 31), Ok((126, 62, 63, 31)));
    assert_eq!(dims(SSAA::X16, 10, 10), Ok((40, 40, 20, 20)));
    assert_eq!(dims(SSAA::X64, 10, 3), Ok((80, 24, 40, 12)));
    let (_, _, _, _, buf, zs) = calc_ssaa_variables(&SSAA::X4, 3, 2, &bg).unwrap();
    assert_eq!(buf, vec![0x0001_0203; 24]);
    assert_eq!(zs, vec![DEPTH_FAR; 24]);
}

#[test]
fn wide_display_is_accepted() {
    let c = Canvas::new(7680, 2, black(), SSAA::X1).unwrap();
    assert_eq!(c.buffer.len(), 7680 * 2);
    assert_eq!(c.size_x_supersized, 7680);
}

#[test]
fn new_canvas_is_cleared() {
    let bg = Color::new(1, 2, 3, 255);
    let c = Canvas::new(4, 3, bg, SSAA::X4).unwrap();
    assert!(c.buffer.iter().all(|p| *p == 0x0001_0203));
    assert!(c.buffer_supersized.iter().all(|p| *p == 0x0001_0203));
    assert!(c.z_buffer_supersized.iter().all(|z| *z == DEPTH_FAR));
    assert_eq!(c.buffer_supersized.len(), 8 * 6);
}

#[test]
fn buffer_rows_count_from_the_top() {
    let c = Canvas::new(4, 3, black(), SSAA::X1).unwrap();
    assert_eq!(c.to_buffer_index(0, 0), 8);
    assert_eq!(c.to_buffer_index(3, 2), 3);
    assert!(c.integer_coords_in_canvas(3, 2));
    assert!(!c.integer_coords_in_canvas(4, 0));
    assert!(!c.integer_coords_in_canvas(0, 3));
    assert!(!c.integer_coords_in_canvas(-1, 0));
}

#[test]
fn nearer_write_wins_in_either_order() {
    let red = Color::new(255, 0, 0, 255);
    let green = Color::new(0, 255, 0, 255);
    let mut a = Canvas::new(8, 8, black(), SSAA::X1).unwrap();
    a.set_pixel_with_z((3, 4), 5, &red);
    a.set_pixel_with_z((3, 4), 10, &green);
    let mut b = Canvas::new(8, 8, black(), SSAA::X1).unwrap();
    b.set_pixel_with_z((3, 4), 10, &green);
    b.set_pixel_with_z((3, 4), 5, &red);
    let i = a.to_buffer_index(3, 4);
    assert_eq!(a.buffer_supersized[i], 0x00ff_0000);
    assert_eq!(b.buffer_supersized[i], 0x00ff_0000);
    assert_eq!(a.buffer_supersized, b.buffer_supersized);
    assert_eq!(a.z_buffer_supersized, b.z_buffer_supersized);
    assert_eq!(a.z_buffer_supersized[i], 5);
}

#[test]
fn equal_depth_does_not_overwrite() {
    let mut c = Canvas::new(8, 8, black(), SSAA::X1).unwrap();
    c.set_pixel_with_z((1, 1), 7, &Color::new(255, 0, 0, 255));
    c.set_pixel_with_z((1, 1), 7, &Color::new(0, 0, 255, 255));
    let i = c.to_buffer_index(1, 1);
    assert_eq!(c.buffer_supersized[i], 0x00ff_0000);
}

#[test]
fn far_depth_is_never_drawn() {
    let mut c = Canvas::new(8, 8, black(), SSAA::X1).unwrap();
    c.set_pixel_with_z((1, 1), DEPTH_FAR, &Color::new(255, 0, 0, 255));
    assert!(c.buffer_supersized.iter().all(|p| *p == 0));
}

#[test]
fn writes_outside_are_dropped() {
    let mut c = Canvas::new(4, 4, black(), SSAA::X1).unwrap();
    let before = c.clone();
    c.set_pixel_with_z((4, 0), 1, &Color::new(255, 0, 0, 255));
    c.set_pixel_with_z((0, -1), 1, &Color::new(255, 0, 0, 255));
    c.set_pixel((-3, 2), &Color::new(255, 0, 0, 255));
    assert_eq!(c.buffer_supersized, before.buffer_supersized);
    assert_eq!(c.z_buffer_supersized, before.z_buffer_supersized);
}

#[test]
fn set_pixel_blends_over_existing() {
    let mut c = Canvas::new(2, 2, Color::new(100, 0, 255, 255), SSAA::X1).unwrap();
    c.set_pixel((0, 0), &Color::new(200, 255, 0, 128));
    let i = c.to_buffer_index(0, 0);
    assert_eq!(c.buffer_supersized[i], 0x0096_807f);
}

fn fill_supersized(c: &mut Canvas, color: &Color) {
    for y in 0..c.size_y_supersized as i32 {
        for x in 0..c.size_x_supersized as i32 {
            c.set_pixel_with_z((x, y), 1, color);
        }
    }
}

#[test]
fn box_filter_of_uniform_colour_is_that_colour() {
    for level in [SSAA::X1, SSAA::X4, SSAA::X16, SSAA::X64] {
        let mut c = Canvas::new(6, 5, black(), level).unwrap();
        let col = Color::new(13, 200, 77, 255);
        fill_supersized(&mut c, &col);
        c.apply_ssaa();
        assert!(c.buffer.iter().all(|p| *p == 0x000d_c84d));
    }
}

#[test]
fn box_filter_averages_the_block() {
    let mut c = Canvas::new(1, 1, black(), SSAA::X4).unwrap();
    c.set_pixel((0, 0), &Color::new(255, 0, 10, 255));
    c.set_pixel((1, 0), &Color::new(0, 0, 10, 255));
    c.set_pixel((0, 1), &Color::new(0, 100, 10, 255));
    c.set_pixel((1, 1), &Color::new(0, 0, 11, 255));
    c.apply_ssaa();
    // red 255 / 4 = 63, green 100 / 4 = 25, blue 41 / 4 = 10
    assert_eq!(c.buffer[0], 0x003f_190a);
}

#[test]
fn upscaling_replicates_pixels() {
    let mut c = Canvas::new(8, 8, black(), SSAA::X0_25).unwrap();
    assert_eq!((c.size_x_supersized, c.size_y_supersized), (2, 2));
    c.set_pixel((1, 1), &Color::new(255, 255, 255, 255));
    c.apply_ssaa();
    for y in 0..8 {
        for x in 0..8 {
            let expect = if x >= 4 && y < 4 { 0x00ff_ffff } else { 0 };
            assert_eq!(c.buffer[y * 8 + x], expect);
        }
    }
}

#[test]
fn ssaa_steps_up_and_down() {
    let mut c = Canvas::new(16, 16, black(), SSAA::X1).unwrap();
    c.increase_ssaa().unwrap();
    assert_eq!(c.ssaa, SSAA::X4);
    assert_eq!(c.size_x_supersized, 32);
    c.increase_ssaa().unwrap();
    c.increase_ssaa().unwrap();
    assert_eq!(c.ssaa, SSAA::X64);
    c.increase_ssaa().unwrap();
    assert_eq!(c.ssaa, SSAA::X64);
    c.set_ssaa(SSAA::X1).unwrap();
    c.decrease_ssaa().unwrap();
    assert_eq!(c.ssaa, SSAA::X0_25);
    assert_eq!(c.size_x_supersized, 4);
    c.decrease_ssaa().unwrap();
    assert_eq!(c.ssaa, SSAA::X0_125);
    assert_eq!(c.size_x_supersized, 2);
    c.decrease_ssaa().unwrap();
    assert_eq!(c.ssaa, SSAA::X0_125);
}

#[test]
fn ssaa_change_refused_keeps_canvas() {
    let mut c = Canvas::new(12, 12, black(), SSAA::X0_25).unwrap();
    assert_eq!(c.decrease_ssaa(), Err(CanvasError::SizeNotDivisible));
    assert_eq!(c.ssaa, SSAA::X0_25);
    assert_eq!(c.size_x_supersized, 3);
    assert_eq!(c.set_ssaa(SSAA::X0_125), Err(CanvasError::SizeNotDivisible));
}

#[test]
fn reset_clears_colour_and_depth() {
    let mut c = Canvas::new(4, 4, black(), SSAA::X4).unwrap();
    fill_supersized(&mut c, &Color::new(9, 9, 9, 255));
    c.apply_ssaa();
    c.reset();
    assert!(c.buffer.iter().all(|p| *p == 0));
    assert!(c.buffer_supersized.iter().all(|p| *p == 0));
    assert!(c.z_buffer_supersized.iter().all(|z| *z == 1));
    c.reset_z_buffer();
    assert!(c.z_buffer_supersized.iter().all(|z| *z == DEPTH_FAR));
}

#[test]
fn layer_is_copied_at_its_offset() {
    let mut c = Canvas::new(5, 4, black(), SSAA::X1).unwrap();
    let layer = Canvas::new(2, 2, Color::new(0, 0, 1, 255), SSAA::X1).unwrap();
    c.add_layer(layer, 3, 1);
    for y in 0..4 {
        for x in 0..5 {
            let expect = if x >= 3 && (1..3).contains(&y) { 1 } else { 0 };
            assert_eq!(c.buffer[y * 5 + x], expect);
        }
    }
}

#[test]
fn level_descriptions() {
    assert_eq!(SSAA::X4.description(), "4X SSAA");
    assert_eq!(SSAA::X0_25.magnification(), 1);
    assert_eq!(SSAA::X0_25.reduction(), 4);
    assert_eq!(SSAA::X64.magnification(), 8);
}
