use katvisualizer::canvas::{Canvas, MASKING_MARK_COLOR};

fn pixel(c: &Canvas, x: usize, y: usize) -> (u8, u8, u8, u8) {
    let w = c.width_px() as usize;
    let b = &c.as_bytes()[(y * w + x) * 4..(y * w + x) * 4 + 4];
    (b[0], b[1], b[2], b[3])
}

#[test]
fn new_canvas_is_transparent_black() {
    let c = Canvas::new(4, 3);
    assert_eq!(c.width_px(), 4);
    assert_eq!(c.height_px(), 3);
    assert_eq!(c.as_bytes().len(), 48);
    assert!(c.as_bytes().iter().all(|&b| b == 0));
}

#[test]
fn fill_rect_paints_only_the_rect() {
    let mut c = Canvas::new(4, 3);
    c.fill_rect(1, 3, 1, 3, (1, 2, 3, 4));
    for y in 0..3 {
        for x in 0..4 {
            let expected = if (1..3).contains(&y) && (1..3).contains(&x) { (1, 2, 3, 4) } else { (0, 0, 0, 0) };
            assert_eq!(pixel(&c, x, y), expected);
        }
    }
}

#[test]
fn fill_rect_clips_columns_at_width() {
    let mut c = Canvas::new(3, 2);
    c.fill_rect(2, 100, 0, 2, (9, 9, 9, 9));
    assert_eq!(pixel(&c, 2, 0), (9, 9, 9, 9));
    assert_eq!(pixel(&c, 2, 1), (9, 9, 9, 9));
    assert_eq!(pixel(&c, 1, 1), (0, 0, 0, 0));
    c.fill_rect(5, 100, 0, 2, (7, 7, 7, 7));
    assert_eq!(pixel(&c, 2, 0), (9, 9, 9, 9));
}

#[test]
fn bar_rises_from_bargraph_bottom() {
    let mut c = Canvas::new(2, 6);
    c.draw_bar(4, 2, 0, 1, (10, 20, 30));
    for y in 0..6 {
        let expected = if y == 2 || y == 3 { (10, 20, 30, 255) } else { (0, 0, 0, 0) };
        assert_eq!(pixel(&c, 0, y), expected);
        assert_eq!(pixel(&c, 1, y), (0, 0, 0, 0));
    }
}

#[test]
fn masking_mark_is_three_rows() {
    let mut c = Canvas::new(1, 10);
    c.draw_masking_mark(8, 2, 0, 1);
    for y in 0..10 {
        let expected = if (2..5).contains(&y) { MASKING_MARK_COLOR } else { (0, 0, 0, 0) };
        assert_eq!(pixel(&c, 0, y), expected);
    }
}

#[test]
fn masking_mark_stops_at_bargraph_bottom() {
    let mut c = Canvas::new(1, 10);
    c.draw_masking_mark(8, 7, 0, 1);
    assert_eq!(pixel(&c, 0, 7), (60, 0, 10, 255));
    assert_eq!(pixel(&c, 0, 8), (0, 0, 0, 0));
    let before = c.as_bytes().to_vec();
    c.draw_masking_mark(8, 8, 0, 1);
    assert_eq!(c.as_bytes(), &before[..]);
}

#[test]
fn row_span_and_clear() {
    let mut c = Canvas::new(3, 2);
    c.draw_row_span(1, 0, 2, (5, 6, 7));
    assert_eq!(pixel(&c, 0, 1), (5, 6, 7, 255));
    assert_eq!(pixel(&c, 1, 1), (5, 6, 7, 255));
    assert_eq!(pixel(&c, 2, 1), (0, 0, 0, 0));
    assert_eq!(pixel(&c, 0, 0), (0, 0, 0, 0));
    c.clear();
    assert!(c.as_bytes().iter().all(|&b| b == 0));
}

#[test]
fn empty_canvas() {
    let mut c = Canvas::new(0, 5);
    c.fill_rect(0, 10, 0, 5, (1, 1, 1, 1));
    assert!(c.as_bytes().is_empty());
}
