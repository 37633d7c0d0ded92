use katvisualizer::masking::masking_range;

#[test]
fn no_hits_span_whole_band_list() {
    let below = vec![false; 6];
    let above = vec![false; 6];
    assert_eq!(masking_range(3, &below, &above), (1, 4));
    assert_eq!(masking_range(0, &below, &above), (0, 4));
    assert_eq!(masking_range(5, &below, &above), (1, 4));
}

#[test]
fn nearest_lower_hit_bounds_range() {
    // band 3: search from band 1 downwards; band 1 lies below the spread
    let below = vec![true, true, false, false, false, false];
    let above = vec![false; 6];
    assert_eq!(masking_range(3, &below, &above), (2, 4));
}

#[test]
fn band_just_below_is_not_searched() {
    // band i - 1 is never checked
    let below = vec![false, false, true, false, false, false];
    let above = vec![false; 6];
    assert_eq!(masking_range(3, &below, &above), (1, 4));
}

#[test]
fn first_upper_hit_bounds_range() {
    let below = vec![false; 6];
    let above = vec![false, false, false, false, true, true];
    assert_eq!(masking_range(1, &below, &above), (1, 3));
}

#[test]
fn upper_hit_at_band_itself() {
    let below = vec![false; 6];
    let above = vec![false, false, true, false, false, false];
    assert_eq!(masking_range(2, &below, &above), (1, 1));
}

#[test]
fn single_band() {
    assert_eq!(masking_range(0, &vec![false], &vec![false]), (0, 0));
    assert_eq!(masking_range(0, &vec![true], &vec![true]), (0, 0));
}

#[test]
fn lower_end_never_passes_band() {
    let below = vec![true, true, true];
    let above = vec![false, false, false];
    assert_eq!(masking_range(1, &below, &above), (1, 1));
    assert_eq!(masking_range(2, &below, &above), (1, 1));
}
