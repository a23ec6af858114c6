use mandelbrot_raster::band::{band_pixels, maybe_reverse_range, Band};
use mandelbrot_raster::field::{get_index, PixelField, RasterError, Rgb};
use mandelbrot_raster::plane::move_block;
use mandelbrot_raster::shade::{shade_rgb, Shade};

/// A field whose pixel `(row, col)` holds `(row, col, 9)`.
fn numbered(width: u32, height: u32) -> PixelField {
    let mut f = PixelField::new(width, height).unwrap();
    for row in 0..height {
        for col in 0..width {
            f.set(row, col, (row as u8, col as u8, 9));
        }
    }
    f
}

fn pixels(f: &PixelField) -> Vec<Rgb> {
    let mut out = Vec::new();
    for row in 0..f.height() {
        for col in 0..f.width() {
            out.push(f.get(row, col));
        }
    }
    out
}

/// The colour a test scene gives pixel `(row, col)` of the unbounded raster.
fn scene(row: i64, col: i64) -> Rgb {
    ((row * 7 + 100) as u8, (col * 3 + 100) as u8, ((row + col) & 0xff) as u8)
}

/// The colours of a band's pixels for the window whose top-left is `(row0, col0)`.
fn scene_colors(b: &Band, row0: i64, col0: i64) -> Vec<Rgb> {
    band_pixels(b)
        .iter()
        .map(|&(r, c)| scene(row0 + r as i64, col0 + c as i64))
        .collect()
}

fn full_render(width: u32, height: u32, row0: i64, col0: i64) -> PixelField {
    let mut f = PixelField::new(width, height).unwrap();
    let b = f.full_band();
    let colors = scene_colors(&b, row0, col0);
    f.paint_band(&b, &colors);
    f
}

#[test]
fn reverse_range_ascending() {
    assert_eq!(maybe_reverse_range(2, 5), vec![2, 3, 4]);
}

#[test]
fn reverse_range_descending() {
    assert_eq!(maybe_reverse_range(5, 2), vec![4, 3, 2]);
}

#[test]
fn reverse_range_empty() {
    assert_eq!(maybe_reverse_range(3, 3), Vec::<u32>::new());
}

#[test]
fn index_is_row_major() {
    assert_eq!(get_index(10, 0, 0), 0);
    assert_eq!(get_index(10, 2, 3), 23);
}

#[test]
fn zero_width_is_rejected() {
    assert!(matches!(PixelField::new(0, 5), Err(RasterError::InvalidDimensions)));
}

#[test]
fn zero_height_is_rejected() {
    assert!(matches!(PixelField::new(5, 0), Err(RasterError::InvalidDimensions)));
}

#[test]
fn new_field_is_black() {
    let f = PixelField::new(3, 2).unwrap();
    assert_eq!(f.width(), 3);
    assert_eq!(f.height(), 2);
    assert_eq!(f.cells_r(), &[0u8; 6][..]);
    assert_eq!(f.cells_g(), &[0u8; 6][..]);
    assert_eq!(f.cells_b(), &[0u8; 6][..]);
}

#[test]
fn set_then_get_and_planes() {
    let mut f = PixelField::new(3, 2).unwrap();
    f.set(1, 2, (10, 20, 30));
    assert_eq!(f.get(1, 2), (10, 20, 30));
    assert_eq!(f.get(0, 0), (0, 0, 0));
    assert_eq!(f.cells_r(), &[0, 0, 0, 0, 0, 10][..]);
    assert_eq!(f.cells_g(), &[0, 0, 0, 0, 0, 20][..]);
    assert_eq!(f.cells_b(), &[0, 0, 0, 0, 0, 30][..]);
}

#[test]
fn move_block_forward_overlap() {
    let mut v = vec![1u8, 2, 3, 4, 5, 6];
    move_block(&mut v, 2, 4, 0);
    assert_eq!(v, vec![3, 4, 5, 6, 5, 6]);
}

#[test]
fn move_block_backward_overlap() {
    let mut v = vec![1u8, 2, 3, 4, 5, 6];
    move_block(&mut v, 0, 4, 2);
    assert_eq!(v, vec![1, 2, 1, 2, 3, 4]);
}

#[test]
fn copy_band_moves_all_planes() {
    let mut f = numbered(3, 2);
    f.copy_band(0, 3, 3);
    assert_eq!(f.get(1, 0), (0, 0, 9));
    assert_eq!(f.get(1, 2), (0, 2, 9));
    assert_eq!(f.get(0, 1), (0, 1, 9));
}

#[test]
fn shift_down_moves_rows_up_in_memory() {
    let mut f = numbered(2, 4);
    let b = f.shift_vertical(1);
    assert_eq!(b, Band { row_start: 4, row_end: 3, col_start: 0, col_end: 2 });
    assert_eq!(f.get(0, 1), (1, 1, 9));
    assert_eq!(f.get(2, 0), (3, 0, 9));
    // the exposed row keeps its old colour until it is painted
    assert_eq!(f.get(3, 0), (3, 0, 9));
}

#[test]
fn shift_up_moves_rows_down_in_memory() {
    let mut f = numbered(2, 4);
    let b = f.shift_vertical(-2);
    assert_eq!(b, Band { row_start: 0, row_end: 2, col_start: 0, col_end: 2 });
    assert_eq!(f.get(2, 0), (0, 0, 9));
    assert_eq!(f.get(3, 1), (1, 1, 9));
    assert_eq!(f.get(0, 0), (0, 0, 9));
}

#[test]
fn shift_right_moves_columns() {
    let mut f = numbered(4, 2);
    let b = f.shift_horizontal(1);
    assert_eq!(b, Band { row_start: 0, row_end: 2, col_start: 4, col_end: 3 });
    assert_eq!(f.get(0, 0), (0, 1, 9));
    assert_eq!(f.get(1, 2), (1, 3, 9));
    assert_eq!(f.get(1, 3), (1, 3, 9));
}

#[test]
fn shift_left_moves_columns() {
    let mut f = numbered(4, 2);
    let b = f.shift_horizontal(-3);
    assert_eq!(b, Band { row_start: 0, row_end: 2, col_start: 0, col_end: 3 });
    assert_eq!(f.get(0, 3), (0, 0, 9));
    assert_eq!(f.get(1, 3), (1, 0, 9));
    assert_eq!(f.get(1, 1), (1, 1, 9));
}

#[test]
fn oversized_pans_give_the_whole_field() {
    let mut f = numbered(4, 3);
    let before = pixels(&f);
    assert_eq!(f.shift_vertical(3), f.full_band());
    assert_eq!(f.shift_vertical(-7), f.full_band());
    assert_eq!(f.shift_horizontal(4), f.full_band());
    assert_eq!(f.shift_horizontal(i64::MIN), f.full_band());
    assert_eq!(pixels(&f), before);
}

#[test]
fn zero_pans_change_nothing() {
    let mut f = numbered(4, 3);
    let before = pixels(&f);
    let v = f.shift_vertical(0);
    let h = f.shift_horizontal(0);
    assert!(band_pixels(&v).is_empty());
    assert!(band_pixels(&h).is_empty());
    assert_eq!(pixels(&f), before);
}

#[test]
fn band_pixels_walk_columns_outside_rows_inside() {
    let b = Band { row_start: 3, row_end: 1, col_start: 0, col_end: 2 };
    assert_eq!(band_pixels(&b), vec![(2, 0), (1, 0), (2, 1), (1, 1)]);
}

#[test]
fn write_pixels_later_colour_wins() {
    let mut f = PixelField::new(2, 2).unwrap();
    f.write_pixels(&vec![(0, 1), (1, 0), (0, 1)], &vec![(1, 1, 1), (2, 2, 2), (3, 3, 3)]);
    assert_eq!(pixels(&f), vec![(0, 0, 0), (3, 3, 3), (2, 2, 2), (0, 0, 0)]);
}

#[test]
fn paint_band_follows_visiting_order() {
    let mut f = PixelField::new(2, 2).unwrap();
    let b = Band { row_start: 2, row_end: 0, col_start: 1, col_end: 2 };
    f.paint_band(&b, &vec![(5, 5, 5), (6, 6, 6)]);
    assert_eq!(f.get(1, 1), (5, 5, 5));
    assert_eq!(f.get(0, 1), (6, 6, 6));
    assert_eq!(f.get(0, 0), (0, 0, 0));
}

#[test]
fn incremental_pans_match_full_render() {
    let (w, h) = (6u32, 5u32);
    let mut f = full_render(w, h, 0, 0);
    let (mut row0, mut col0) = (0i64, 0i64);
    for &(vertical, offset) in &[(true, 2i64), (false, -3), (false, 1), (true, -4), (true, 9), (false, 0)] {
        let b = if vertical { f.shift_vertical(offset) } else { f.shift_horizontal(offset) };
        if vertical {
            row0 += offset;
        } else {
            col0 += offset;
        }
        let colors = scene_colors(&b, row0, col0);
        f.paint_band(&b, &colors);
        assert_eq!(pixels(&f), pixels(&full_render(w, h, row0, col0)));
    }
}

#[test]
fn full_repaint_twice_is_same() {
    let mut f = full_render(4, 4, 3, -2);
    let once = pixels(&f);
    let b = f.full_band();
    let colors = scene_colors(&b, 3, -2);
    f.paint_band(&b, &colors);
    assert_eq!(pixels(&f), once);
}

#[test]
fn zero_pan_keeps_rendered_field() {
    let mut f = full_render(5, 3, 1, 1);
    let before = pixels(&f);
    let b = f.shift_vertical(0);
    f.paint_band(&b, &scene_colors(&b, 1, 1));
    let b = f.shift_horizontal(0);
    f.paint_band(&b, &scene_colors(&b, 1, 1));
    assert_eq!(pixels(&f), before);
}

#[test]
fn shade_in_set_is_black() {
    assert_eq!(shade_rgb(Shade::InSet), (0, 0, 0));
}

#[test]
fn shade_bright_band() {
    assert_eq!(shade_rgb(Shade::Bright(200)), (200, 255, 200));
}

#[test]
fn shade_dark_band() {
    assert_eq!(shade_rgb(Shade::Dark(77)), (0, 77, 0));
}
