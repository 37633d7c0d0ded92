use katvisualizer::color_table::{ColorTable, COLOR_TABLE_CHROMA_SIZE, COLOR_TABLE_LIGHTNESS_SIZE};

#[test]
fn default_table_size_and_black() {
    let t = ColorTable::new();
    assert_eq!(t.size(), (COLOR_TABLE_CHROMA_SIZE, COLOR_TABLE_LIGHTNESS_SIZE));
    assert_eq!(t.size(), (512, 1024));
    assert_eq!(t.lookup_cell(100, 500), (0, 0, 0));
}

#[test]
fn build_fills_cells_and_keeps_zero_black() {
    let mut t = ColorTable::with_size(3, 4);
    t.build_with(|s, i| (s as u8, i as u8, 7));
    assert_eq!(t.lookup_cell(1, 2), (1, 2, 7));
    assert_eq!(t.lookup_cell(2, 3), (2, 3, 7));
    assert_eq!(t.lookup_cell(2, 0), (0, 0, 0));
    assert_eq!(t.lookup_cell(0, 0), (0, 0, 0));
}

#[test]
fn lookup_clamps_positions() {
    let mut t = ColorTable::with_size(3, 4);
    t.build_with(|s, i| (s as u8, i as u8, 1));
    assert_eq!(t.lookup_cell(-5, 2), (0, 2, 1));
    assert_eq!(t.lookup_cell(9, 2), (2, 2, 1));
    assert_eq!(t.lookup_cell(1, 99), (1, 3, 1));
    assert_eq!(t.lookup_cell(i64::MAX, i64::MAX), (2, 3, 1));
}

#[test]
fn zero_or_negative_intensity_is_black() {
    let mut t = ColorTable::with_size(5, 5);
    t.build_with(|_, _| (200, 100, 50));
    for s in -3..8 {
        assert_eq!(t.lookup_cell(s, 0), (0, 0, 0));
        assert_eq!(t.lookup_cell(s, -4), (0, 0, 0));
    }
    assert_eq!(t.lookup_cell(2, 1), (200, 100, 50));
}
