use ray_tracer::canvas::Canvas;
use ray_tracer::colors::Color;

// Channels are given in thousandths of the unit scale: 1000 is full
// intensity, so 1.5 is written 1500 and 0.5 is written 500.

#[test]
fn creating_a_canvas() {
    let c = Canvas::new(10, 20);
    assert_eq!(c.width, 10);
    assert_eq!(c.height, 20);
    for x in 0..10 {
        for y in 0..20 {
            assert_eq!(c.pixel_at(x, y), Color::new(0, 0, 0));
        }
    }
}

#[test]
fn writing_pixels_to_a_canvas() {
    let mut c = Canvas::new(10, 20);
    let red = Color::new(1000, 0, 0);
    c.write_pixel(2, 3, red);
    assert_eq!(c.pixel_at(2, 3), red);
}

#[test]
fn constructing_the_ppm_header() {
    let c = Canvas::new(5, 3);
    let ppm = c.to_ppm();

    let ppm_header = ppm.lines().take(3).collect::<Vec<_>>();
    assert_eq!(ppm_header, vec!["P3", "5 3", "255"]);
}

#[test]
fn constructing_the_ppm_pixel_data() {
    let mut c = Canvas::new(5, 3);
    let c1 = Color::new(1500, 0, 0);
    let c2 = Color::new(0, 500, 0);
    let c3 = Color::new(-500, 0, 1000);
    c.write_pixel(0, 0, c1);
    c.write_pixel(2, 1, c2);
    c.write_pixel(4, 2, c3);
    let ppm = c.to_ppm();
    let ppm_pixel_data = ppm.lines().skip(3).collect::<Vec<_>>();
    assert_eq!(
        ppm_pixel_data,
        vec![
            "255 0 0 0 0 0 0 0 0 0 0 0 0 0 0",
            "0 0 0 0 0 0 0 128 0 0 0 0 0 0 0",
            "0 0 0 0 0 0 0 0 0 0 0 0 0 0 255"
        ]
    );
}

#[test]
fn splitting_long_lines_in_ppm_files() {
    let mut c = Canvas::new(10, 2);
    for x in 0..10 {
        for y in 0..2 {
            c.write_pixel(x, y, Color::new(1000, 800, 600));
        }
    }
    let ppm = c.to_ppm();
    let ppm_pixel_data = ppm.lines().skip(3).collect::<Vec<_>>();
    assert_eq!(
        ppm_pixel_data,
        vec![
            "255 204 153 255 204 153 255 204 153 255 204 153 255 204 153 255 204",
            "153 255 204 153 255 204 153 255 204 153 255 204 153",
            "255 204 153 255 204 153 255 204 153 255 204 153 255 204 153 255 204",
            "153 255 204 153 255 204 153 255 204 153 255 204 153",
        ]
    );
}

#[test]
fn ppm_files_are_terminated_by_a_newline_character() {
    let c = Canvas::new(5, 3);
    let ppm = c.to_ppm();
    assert!(ppm.ends_with('\n'));
}

#[test]
fn the_whole_ppm_text_of_a_small_canvas() {
    let mut c = Canvas::new(2, 2);
    c.write_pixel(0, 0, Color::new(1000, 0, 0));
    c.write_pixel(1, 1, Color::new(0, 0, 500));
    let ppm = c.to_ppm();
    assert_eq!(ppm, "P3\n2 2\n255\n255 0 0 0 0 0\n0 0 0 0 0 128\n");
}

#[test]
fn channels_are_clamped_to_the_ppm_range() {
    let mut c = Canvas::new(1, 1);
    c.write_pixel(0, 0, Color::new(-1000, 2500, 999));
    let ppm = c.to_ppm();
    assert_eq!(ppm, "P3\n1 1\n255\n0 255 255\n");
}

#[test]
fn a_canvas_with_no_rows_has_no_pixel_data() {
    let c = Canvas::new(4, 0);
    assert_eq!(c.to_ppm(), "P3\n4 0\n255\n\n");
}

#[test]
fn the_header_carries_multi_digit_dimensions() {
    let c = Canvas::new(255, 101);
    let ppm = c.to_ppm();
    let header = ppm.lines().take(3).collect::<Vec<_>>();
    assert_eq!(header, vec!["P3", "255 101", "255"]);
}
