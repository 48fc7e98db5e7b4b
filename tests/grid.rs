use lg_desktop::grid::grid_to_pixel;

#[test]
fn test_grid_to_pixel_a1() {
    assert_eq!(grid_to_pixel("A1", 1000, 1000), Some((50, 50)));
}

#[test]
fn test_grid_to_pixel_j10() {
    assert_eq!(grid_to_pixel("J10", 1000, 1000), Some((950, 950)));
}

#[test]
fn test_grid_to_pixel_center() {
    // E5 on 1000x1000: col=4, row=4, cell=100x100, center=(450, 450)
    assert_eq!(grid_to_pixel("E5", 1000, 1000), Some((450, 450)));
}

#[test]
fn test_grid_to_pixel_out_of_range() {
    assert_eq!(grid_to_pixel("K1", 1000, 1000), None);
    assert_eq!(grid_to_pixel("A11", 1000, 1000), None);
}

#[test]
fn test_grid_to_pixel_lowercase() {
    assert_eq!(grid_to_pixel("a1", 1000, 1000), Some((50, 50)));
}

#[test]
fn test_grid_to_pixel_real_resolution() {
    // 1280x1024: cell_w=128, cell_h=102
    let (x, y) = grid_to_pixel("A1", 1280, 1024).unwrap();
    assert_eq!(x, 64);
    assert_eq!(y, 51);
}

#[test]
fn grid_rejects_row_zero_and_malformed() {
    assert_eq!(grid_to_pixel("A0", 1000, 1000), None);
    assert_eq!(grid_to_pixel("", 1000, 1000), None);
    assert_eq!(grid_to_pixel("A", 1000, 1000), None);
    assert_eq!(grid_to_pixel("1A", 1000, 1000), None);
    assert_eq!(grid_to_pixel("é1", 1000, 1000), None);
    assert_eq!(grid_to_pixel("B-1", 1000, 1000), None);
}

#[test]
fn grid_accepts_plus_sign_and_small_images() {
    assert_eq!(grid_to_pixel("B+2", 1000, 1000), Some((150, 150)));
    assert_eq!(grid_to_pixel("J10", 5, 5), Some((0, 0)));
}
