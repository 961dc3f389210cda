use raytracer::grid::{flipped_row_index, pixel_coords, pixel_index};

#[test]
fn index_is_row_major() {
    assert_eq!(pixel_index(0, 0, 8, 4), 0);
    assert_eq!(pixel_index(3, 0, 8, 4), 3);
    assert_eq!(pixel_index(0, 1, 8, 4), 8);
    assert_eq!(pixel_index(7, 3, 8, 4), 31);
}

#[test]
fn coords_invert_the_index() {
    assert_eq!(pixel_coords(0, 8), (0, 0));
    assert_eq!(pixel_coords(3, 8), (3, 0));
    assert_eq!(pixel_coords(8, 8), (0, 1));
    assert_eq!(pixel_coords(31, 8), (7, 3));
    for k in 0..32 {
        let (i, j) = pixel_coords(k, 8);
        assert_eq!(pixel_index(i, j, 8, 4), k);
    }
}

#[test]
fn flipped_index_reads_rows_bottom_up() {
    // Buffer row 0 is the bottom image row: the top image row (y = 0) of a
    // 4-row image lives at buffer rows starting at index 3 * width.
    assert_eq!(flipped_row_index(0, 0, 8, 4), 24);
    assert_eq!(flipped_row_index(5, 0, 8, 4), 29);
    assert_eq!(flipped_row_index(0, 3, 8, 4), 0);
    assert_eq!(flipped_row_index(7, 3, 8, 4), 7);
}

#[test]
fn flipped_index_touches_every_cell_once() {
    let width = 5;
    let height = 7;
    let mut seen = vec![false; width * height];
    for y in 0..height {
        for x in 0..width {
            let k = flipped_row_index(x, y, width, height);
            assert!(!seen[k]);
            seen[k] = true;
        }
    }
    assert!(seen.iter().all(|&s| s));
}
