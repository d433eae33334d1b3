use pixel_unsort::art::draw;
use pixel_unsort::art::draw_resampled;
use pixel_unsort::art::pixel_gather;
use pixel_unsort::art::pixel_map;
use pixel_unsort::art::pixel_map_column;
use pixel_unsort::art::pixel_map_row;
use pixel_unsort::art::pixel_sort;
use pixel_unsort::art::pixel_sort_column;
use pixel_unsort::art::pixel_sort_row;
use pixel_unsort::art::pixel_unsort;
use pixel_unsort::matrix::identity_grid;
use pixel_unsort::matrix::ImgGrid;
use pixel_unsort::matrix::Matrix;
use pixel_unsort::art::DrawType;
use pixel_unsort::order::SortBy;
use pixel_unsort::order::SortOrder;
use pixel_unsort::pixel::Pixel;
use pixel_unsort::pixel::SortKey;
use pixel_unsort::raster::fits_resampling;
use pixel_unsort::raster::Image;
use pixel_unsort::stable::stable_order;

fn grey(v: u8) -> Pixel {
    Pixel { r: v, g: v, b: v, a: 255 }
}

/// A grey image with the given lightness values, row by row. The alpha
/// channel numbers the pixels, so that pixels of equal lightness can be
/// told apart.
fn grey_image(width: u32, height: u32, values: &[u8]) -> Image {
    let mut data = Vec::new();
    for (i, v) in values.iter().enumerate() {
        data.extend_from_slice(&[*v, *v, *v, i as u8]);
    }
    Image::from_raw(width, height, data).unwrap()
}

fn lightness(img: &Image) -> Vec<u8> {
    let mut out = Vec::new();
    for y in 0..img.height() {
        for x in 0..img.width() {
            out.push(img.get_pixel(x, y).r);
        }
    }
    out
}

fn tags(img: &Image) -> Vec<u8> {
    let mut out = Vec::new();
    for y in 0..img.height() {
        for x in 0..img.width() {
            out.push(img.get_pixel(x, y).a);
        }
    }
    out
}

fn cells(grid: &ImgGrid) -> Vec<(usize, usize)> {
    let mut out = Vec::new();
    for y in 0..grid.height() {
        for x in 0..grid.width() {
            out.push(*grid.get(x, y));
        }
    }
    out
}

fn is_bijection(grid: &ImgGrid) -> bool {
    let mut seen = vec![false; grid.width() * grid.height()];
    for c in cells(grid) {
        if c.0 >= grid.width() || c.1 >= grid.height() {
            return false;
        }
        let i = c.1 * grid.width() + c.0;
        if seen[i] {
            return false;
        }
        seen[i] = true;
    }
    seen.iter().all(|s| *s)
}

#[test]
fn sort_order_dir_is_the_sign() {
    assert_eq!(SortOrder::Ascending.dir(), 1);
    assert_eq!(SortOrder::Descending.dir(), -1);
}

#[test]
fn sort_order_neg_is_an_involution() {
    assert_eq!(SortOrder::Ascending.neg(), SortOrder::Descending);
    assert_eq!(SortOrder::Descending.neg(), SortOrder::Ascending);
    assert_eq!(SortOrder::Ascending.neg().neg(), SortOrder::Ascending);
    assert_eq!(SortOrder::Descending.neg().neg(), SortOrder::Descending);
}

#[test]
fn stable_order_lists_positions_by_key_then_position() {
    assert_eq!(stable_order(&vec![2, 3, 1]), vec![2, 0, 1]);
    assert_eq!(stable_order(&vec![5, 1, 5, 1, 5]), vec![1, 3, 0, 2, 4]);
    assert_eq!(stable_order(&vec![-1, -3, -2]), vec![1, 2, 0]);
    assert_eq!(stable_order(&Vec::new()), Vec::<usize>::new());
    assert_eq!(stable_order(&vec![7]), vec![0]);
}

#[test]
fn lightness_is_the_luma_of_the_colour_channels() {
    assert_eq!(SortKey::Lightness.key(Pixel { r: 255, g: 255, b: 255, a: 0 }), 255);
    assert_eq!(SortKey::Lightness.key(Pixel { r: 0, g: 0, b: 0, a: 255 }), 0);
    assert_eq!(SortKey::Lightness.key(Pixel { r: 255, g: 0, b: 0, a: 255 }), 54);
    assert_eq!(SortKey::Lightness.key(Pixel { r: 0, g: 255, b: 0, a: 255 }), 182);
    assert_eq!(SortKey::Lightness.key(Pixel { r: 0, g: 0, b: 255, a: 255 }), 18);
    assert_eq!(SortKey::Lightness.key(Pixel { r: 10, g: 20, b: 30, a: 255 }), 18);
    assert_eq!(SortKey::Lightness.key(grey(77)), 77);
}

#[test]
fn hue_divides_the_colour_wheel_into_256_steps() {
    assert_eq!(SortKey::Hue.key(Pixel { r: 255, g: 0, b: 0, a: 255 }), 0);
    assert_eq!(SortKey::Hue.key(Pixel { r: 255, g: 255, b: 0, a: 255 }), 42);
    assert_eq!(SortKey::Hue.key(Pixel { r: 0, g: 255, b: 0, a: 255 }), 85);
    assert_eq!(SortKey::Hue.key(Pixel { r: 0, g: 255, b: 255, a: 255 }), 128);
    assert_eq!(SortKey::Hue.key(Pixel { r: 0, g: 0, b: 255, a: 255 }), 170);
    assert_eq!(SortKey::Hue.key(Pixel { r: 255, g: 0, b: 255, a: 255 }), 213);
    assert_eq!(SortKey::Hue.key(Pixel { r: 255, g: 0, b: 1, a: 255 }), 255);
    assert_eq!(SortKey::Hue.key(grey(90)), 0);
}

#[test]
fn saturation_is_chroma_over_the_largest_channel() {
    assert_eq!(SortKey::Saturation.key(Pixel { r: 255, g: 0, b: 0, a: 255 }), 255);
    assert_eq!(SortKey::Saturation.key(Pixel { r: 200, g: 100, b: 100, a: 255 }), 127);
    assert_eq!(SortKey::Saturation.key(Pixel { r: 10, g: 20, b: 40, a: 255 }), 191);
    assert_eq!(SortKey::Saturation.key(grey(90)), 0);
    assert_eq!(SortKey::Saturation.key(grey(0)), 0);
}

#[test]
fn channel_keys_read_one_channel() {
    let p = Pixel { r: 1, g: 2, b: 3, a: 4 };
    assert_eq!(SortKey::Red.key(p), 1);
    assert_eq!(SortKey::Green.key(p), 2);
    assert_eq!(SortKey::Blue.key(p), 3);
}

#[test]
fn keys_ignore_alpha() {
    let keys = [
        SortKey::Lightness,
        SortKey::Hue,
        SortKey::Saturation,
        SortKey::Red,
        SortKey::Green,
        SortKey::Blue,
    ];
    for key in keys {
        let a = key.key(Pixel { r: 12, g: 200, b: 77, a: 0 });
        let b = key.key(Pixel { r: 12, g: 200, b: 77, a: 255 });
        assert_eq!(a, b);
    }
}

#[test]
fn signed_key_negates_for_descending() {
    let p = grey(9);
    assert_eq!(SortKey::Lightness.signed(SortOrder::Ascending, p), 9);
    assert_eq!(SortKey::Lightness.signed(SortOrder::Descending, p), -9);
}

#[test]
fn matrix_generate_fills_each_cell_from_its_coordinate() {
    let m = Matrix::generate(3, 2, |x, y| 10 * y + x);
    assert_eq!(m.width(), 3);
    assert_eq!(m.height(), 2);
    assert_eq!(m.row(0), &[0, 1, 2]);
    assert_eq!(m.row(1), &[10, 11, 12]);
    assert_eq!(m.get_column(1), vec![1, 11]);
    assert_eq!(*m.get(2, 1), 12);
}

#[test]
fn matrix_set_changes_one_cell() {
    let mut m = Matrix::generate(2, 2, |x, y| (x, y));
    m.set(1, 0, (7, 7));
    assert_eq!(cells(&m), vec![(0, 0), (7, 7), (0, 1), (1, 1)]);
}

#[test]
fn empty_matrix_has_no_cells() {
    let m: ImgGrid = identity_grid(0, 0);
    assert_eq!(m.width(), 0);
    assert_eq!(m.height(), 0);
    assert_eq!(cells(&m), Vec::new());
    let n: ImgGrid = identity_grid(3, 0);
    assert_eq!(n.width(), 3);
    assert_eq!(cells(&n), Vec::new());
}

#[test]
fn image_from_raw_wants_four_bytes_a_pixel() {
    assert!(Image::from_raw(2, 2, vec![0; 16]).is_some());
    assert!(Image::from_raw(2, 2, vec![0; 15]).is_none());
    assert!(Image::from_raw(2, 2, vec![0; 17]).is_none());
    assert!(Image::from_raw(0, 5, Vec::new()).is_some());
    assert!(Image::from_raw(0, 5, vec![0; 4]).is_none());
}

#[test]
fn image_pixels_are_stored_row_by_row() {
    let data: Vec<u8> = (0..24).collect();
    let mut img = Image::from_raw(3, 2, data.clone()).unwrap();
    assert_eq!(img.width(), 3);
    assert_eq!(img.height(), 2);
    assert_eq!(img.get_pixel(0, 0), Pixel { r: 0, g: 1, b: 2, a: 3 });
    assert_eq!(img.get_pixel(2, 0), Pixel { r: 8, g: 9, b: 10, a: 11 });
    assert_eq!(img.get_pixel(1, 1), Pixel { r: 16, g: 17, b: 18, a: 19 });
    assert_eq!(img.row(1)[2], Pixel { r: 20, g: 21, b: 22, a: 23 });
    img.put_pixel(1, 1, Pixel { r: 100, g: 101, b: 102, a: 103 });
    let mut expected = data;
    expected[16] = 100;
    expected[17] = 101;
    expected[18] = 102;
    expected[19] = 103;
    assert_eq!(img.into_raw(), expected);
}

#[test]
fn new_image_is_blank() {
    let img = Image::new(2, 3);
    assert_eq!(img.width(), 2);
    assert_eq!(img.height(), 3);
    assert_eq!(img.into_raw(), vec![0; 24]);
}

#[test]
fn rotate90_turns_clockwise() {
    // 1 2 3      4 1
    // 4 5 6  ->  5 2
    //            6 3
    let img = grey_image(3, 2, &[1, 2, 3, 4, 5, 6]);
    let out = img.rotate90();
    assert_eq!((out.width(), out.height()), (2, 3));
    assert_eq!(lightness(&out), vec![4, 1, 5, 2, 6, 3]);
}

#[test]
fn rotate270_turns_counter_clockwise() {
    // 1 2 3      3 6
    // 4 5 6  ->  2 5
    //            1 4
    let img = grey_image(3, 2, &[1, 2, 3, 4, 5, 6]);
    let out = img.rotate270();
    assert_eq!((out.width(), out.height()), (2, 3));
    assert_eq!(lightness(&out), vec![3, 6, 2, 5, 1, 4]);
}

#[test]
fn rotate270_undoes_rotate90() {
    let data: Vec<u8> = (0..48).collect();
    let img = Image::from_raw(4, 3, data.clone()).unwrap();
    assert_eq!(img.rotate90().rotate270().into_raw(), data);
}

#[test]
fn resize_exact_to_the_same_size_copies() {
    let data: Vec<u8> = (0..48).collect();
    let img = Image::from_raw(4, 3, data.clone()).unwrap();
    let out = img.resize_exact(4, 3);
    assert_eq!(out.into_raw(), data);
}

#[test]
fn resize_exact_yields_the_size_asked_for() {
    let img = grey_image(3, 2, &[1, 2, 3, 4, 5, 6]);
    let out = img.resize_exact(5, 7);
    assert_eq!((out.width(), out.height()), (5, 7));
    assert_eq!(out.into_raw().len(), 4 * 5 * 7);
    let flat = grey_image(2, 2, &[9, 9, 9, 9]).resize_exact(3, 1);
    assert_eq!(lightness(&flat), vec![9, 9, 9]);
}

#[test]
fn resize_exact_of_an_empty_image_is_blank() {
    let img = Image::from_raw(0, 0, Vec::new()).unwrap();
    let out = img.resize_exact(2, 2);
    assert_eq!(out.into_raw(), vec![0; 16]);
    let none = grey_image(2, 1, &[1, 2]).resize_exact(0, 3);
    assert_eq!((none.width(), none.height()), (0, 3));
}

#[test]
fn row_grid_of_ascending_rows_is_the_identity() {
    let img = grey_image(2, 2, &[10, 200, 50, 150]);
    let grid = pixel_map_row(&img, SortKey::Lightness, SortOrder::Ascending, None);
    assert_eq!(cells(&grid), vec![(0, 0), (1, 0), (0, 1), (1, 1)]);
    let sorted = pixel_sort_row(&img, SortKey::Lightness, SortOrder::Ascending);
    assert_eq!(lightness(&sorted), vec![10, 200, 50, 150]);
}

#[test]
fn row_grid_of_descending_sort_swaps_rising_rows() {
    let img = grey_image(2, 2, &[10, 200, 50, 150]);
    let grid = pixel_map_row(&img, SortKey::Lightness, SortOrder::Descending, None);
    assert_eq!(cells(&grid), vec![(1, 0), (0, 0), (1, 1), (0, 1)]);
    let sorted = pixel_sort_row(&img, SortKey::Lightness, SortOrder::Descending);
    assert_eq!(lightness(&sorted), vec![200, 10, 150, 50]);
    let drawn = draw(
        &img,
        &img,
        SortBy::Row,
        SortKey::Lightness,
        DrawType::Sort,
        SortOrder::Descending,
        SortOrder::Ascending,
        false,
    );
    assert_eq!(lightness(&drawn), vec![200, 10, 150, 50]);
}

#[test]
fn row_grid_holds_the_source_of_each_place() {
    let img = grey_image(3, 1, &[20, 30, 10]);
    let grid = pixel_map_row(&img, SortKey::Lightness, SortOrder::Ascending, None);
    // Place 0 takes its pixel from x = 2, place 1 from x = 0, place 2 from
    // x = 1.
    assert_eq!(cells(&grid), vec![(2, 0), (0, 0), (1, 0)]);
    let down = pixel_map_row(&img, SortKey::Lightness, SortOrder::Descending, None);
    assert_eq!(cells(&down), vec![(1, 0), (0, 0), (2, 0)]);
}

#[test]
fn keys_read_through_the_row_grid_come_out_sorted() {
    let values = [5, 1, 4, 1, 2, 9, 0, 9, 8, 3, 6, 3];
    let img = grey_image(4, 3, &values);
    let grid = pixel_map_row(&img, SortKey::Lightness, SortOrder::Ascending, None);
    for y in 0..3 {
        for x in 1..4 {
            let a = *grid.get(x - 1, y);
            let b = *grid.get(x, y);
            let ka = img.get_pixel(a.0 as u32, a.1 as u32).r;
            let kb = img.get_pixel(b.0 as u32, b.1 as u32).r;
            assert!(ka < kb || (ka == kb && a.0 < b.0));
        }
    }
}

#[test]
fn column_grid_holds_the_source_of_each_place() {
    let img = grey_image(1, 3, &[20, 30, 10]);
    let grid = pixel_map_column(&img, SortKey::Lightness, SortOrder::Ascending, None);
    assert_eq!(cells(&grid), vec![(0, 2), (0, 0), (0, 1)]);
}

#[test]
fn sorted_row_keeps_ties_in_their_order() {
    let img = grey_image(5, 1, &[7, 3, 7, 3, 7]);
    let up = pixel_sort_row(&img, SortKey::Lightness, SortOrder::Ascending);
    assert_eq!(lightness(&up), vec![3, 3, 7, 7, 7]);
    assert_eq!(tags(&up), vec![1, 3, 0, 2, 4]);
    let down = pixel_sort_row(&img, SortKey::Lightness, SortOrder::Descending);
    assert_eq!(lightness(&down), vec![7, 7, 7, 3, 3]);
    assert_eq!(tags(&down), vec![0, 2, 4, 1, 3]);
}

#[test]
fn sorted_column_keeps_ties_in_their_order() {
    let img = grey_image(1, 5, &[7, 3, 7, 3, 7]);
    let up = pixel_sort_column(&img, SortKey::Lightness, SortOrder::Ascending);
    assert_eq!(lightness(&up), vec![3, 3, 7, 7, 7]);
    assert_eq!(tags(&up), vec![1, 3, 0, 2, 4]);
    let down = pixel_sort_column(&img, SortKey::Lightness, SortOrder::Descending);
    assert_eq!(lightness(&down), vec![7, 7, 7, 3, 3]);
    assert_eq!(tags(&down), vec![0, 2, 4, 1, 3]);
}

#[test]
fn sorted_columns_of_a_wide_image() {
    // 5 1 4      2 1 0
    // 2 9 0  ->  5 3 4
    // 8 3 6      8 9 6
    let img = grey_image(3, 3, &[5, 1, 4, 2, 9, 0, 8, 3, 6]);
    let out = pixel_sort_column(&img, SortKey::Lightness, SortOrder::Ascending);
    assert_eq!(lightness(&out), vec![2, 1, 0, 5, 3, 4, 8, 9, 6]);
}

#[test]
fn direct_sort_equals_gather_through_the_grid() {
    let values = [5, 1, 4, 1, 2, 9, 0, 9, 8, 3, 6, 3];
    let img = grey_image(4, 3, &values);
    for order in [SortOrder::Ascending, SortOrder::Descending] {
        let rows = pixel_map_row(&img, SortKey::Lightness, order, None);
        assert_eq!(
            pixel_gather(&img, &rows).into_raw(),
            pixel_sort_row(&img, SortKey::Lightness, order).into_raw()
        );
        let columns = pixel_map_column(&img, SortKey::Lightness, order, None);
        assert_eq!(
            pixel_gather(&img, &columns).into_raw(),
            pixel_sort_column(&img, SortKey::Lightness, order).into_raw()
        );
    }
    let column = grey_image(1, 3, &[20, 30, 10]);
    let grid = pixel_map_column(&column, SortKey::Lightness, SortOrder::Ascending, None);
    assert_eq!(lightness(&pixel_gather(&column, &grid)), vec![10, 20, 30]);
    assert_eq!(
        lightness(&pixel_sort_column(&column, SortKey::Lightness, SortOrder::Ascending)),
        vec![10, 20, 30]
    );
}

#[test]
fn direct_sort_equals_gather_for_every_choice_of_axes() {
    let values = [5, 1, 4, 1, 2, 9, 0, 9, 8, 3, 6, 3];
    let img = grey_image(4, 3, &values);
    let modes = [SortBy::Row, SortBy::Column, SortBy::RowCol, SortBy::ColRow, SortBy::Nothing];
    for dir in modes {
        for row_order in [SortOrder::Ascending, SortOrder::Descending] {
            for col_order in [SortOrder::Ascending, SortOrder::Descending] {
                let grid = pixel_map(&img, dir, SortKey::Lightness, row_order, col_order);
                let direct = pixel_sort(&img, dir, SortKey::Lightness, row_order, col_order);
                assert_eq!(pixel_gather(&img, &grid).into_raw(), direct.into_raw());
            }
        }
    }
}

#[test]
fn gather_fetches_and_scatter_sends() {
    let img = grey_image(3, 1, &[2, 3, 1]);
    let grid = pixel_map_row(&img, SortKey::Lightness, SortOrder::Ascending, None);
    // The grid is (2, 0, 1).
    assert_eq!(lightness(&pixel_gather(&img, &grid)), vec![1, 2, 3]);
    assert_eq!(lightness(&pixel_unsort(&img, &grid)), vec![3, 1, 2]);
}

#[test]
fn scatter_undoes_gather() {
    let values = [5, 1, 4, 1, 2, 9, 0, 9, 8, 3, 6, 3];
    let img = grey_image(4, 3, &values);
    let modes = [SortBy::Row, SortBy::Column, SortBy::RowCol, SortBy::ColRow, SortBy::Nothing];
    for dir in modes {
        let grid = pixel_map(&img, dir, SortKey::Lightness, SortOrder::Ascending, SortOrder::Descending);
        let gathered = pixel_gather(&img, &grid);
        let back = pixel_unsort(&gathered, &grid);
        assert_eq!(back.into_raw(), grey_image(4, 3, &values).into_raw());
    }
}

#[test]
fn scatter_lets_the_last_cell_win_and_leaves_the_rest_blank() {
    let img = grey_image(3, 1, &[10, 20, 30]);
    let grid = Matrix::generate(3, 1, |x, _| if x == 1 { (2, 0) } else { (0, 0) });
    // Cells 0 and 2 both send to pixel 0; nothing is sent to pixel 1.
    assert_eq!(lightness(&pixel_unsort(&img, &grid)), vec![30, 0, 20]);
}

#[test]
fn gather_through_a_smaller_grid_leaves_the_rest_blank() {
    let img = grey_image(3, 1, &[10, 20, 30]);
    let grid = Matrix::generate(2, 1, |x, _| (2 - x, 0));
    assert_eq!(lightness(&pixel_gather(&img, &grid)), vec![30, 20, 0]);
}

#[test]
fn every_built_grid_is_a_bijection() {
    let values = [5, 1, 4, 1, 2, 9, 0, 9, 8, 3, 6, 3, 7, 7, 7];
    let img = grey_image(5, 3, &values);
    let modes = [SortBy::Row, SortBy::Column, SortBy::RowCol, SortBy::ColRow, SortBy::Nothing];
    for dir in modes {
        for row_order in [SortOrder::Ascending, SortOrder::Descending] {
            for col_order in [SortOrder::Ascending, SortOrder::Descending] {
                let grid = pixel_map(&img, dir, SortKey::Lightness, row_order, col_order);
                assert_eq!((grid.width(), grid.height()), (5, 3));
                assert!(is_bijection(&grid));
            }
        }
    }
}

#[test]
fn row_then_column_grid() {
    // 3 1
    // 2 4
    let img = grey_image(2, 2, &[3, 1, 2, 4]);
    let rows = pixel_map_row(&img, SortKey::Lightness, SortOrder::Ascending, None);
    assert_eq!(cells(&rows), vec![(1, 0), (0, 0), (0, 1), (1, 1)]);
    // Column 0 holds (1,0), (0,1) with keys 1, 2: already in order.
    // Column 1 holds (0,0), (1,1) with keys 3, 4: already in order.
    let both = pixel_map_column(&img, SortKey::Lightness, SortOrder::Ascending, Some(rows));
    assert_eq!(cells(&both), vec![(1, 0), (0, 0), (0, 1), (1, 1)]);
    let built = pixel_map(&img, SortBy::RowCol, SortKey::Lightness, SortOrder::Ascending, SortOrder::Ascending);
    assert_eq!(cells(&built), vec![(1, 0), (0, 0), (0, 1), (1, 1)]);
}

#[test]
fn nothing_grid_is_the_identity() {
    let img = grey_image(2, 2, &[3, 1, 2, 4]);
    let grid = pixel_map(&img, SortBy::Nothing, SortKey::Hue, SortOrder::Descending, SortOrder::Descending);
    assert_eq!(cells(&grid), vec![(0, 0), (1, 0), (0, 1), (1, 1)]);
}

#[test]
fn direct_sort_of_both_axes() {
    // 3 1      1 3      1 3
    // 2 4  ->  2 4  ->  2 4   rows, then columns
    let img = grey_image(2, 2, &[3, 1, 2, 4]);
    let out = pixel_sort(&img, SortBy::RowCol, SortKey::Lightness, SortOrder::Ascending, SortOrder::Descending);
    assert_eq!(lightness(&out), vec![2, 4, 1, 3]);
    // Columns descending first: 3 4 / 2 1; then rows ascending: 3 4 / 1 2.
    let other = pixel_sort(&img, SortBy::ColRow, SortKey::Lightness, SortOrder::Ascending, SortOrder::Descending);
    assert_eq!(lightness(&other), vec![3, 4, 1, 2]);
}

#[test]
fn drawing_nothing_returns_the_input() {
    let values = [5, 1, 4, 1, 2, 9];
    let a = grey_image(3, 2, &values);
    let b = grey_image(3, 2, &[9, 8, 7, 6, 5, 4]);
    for pre_sort in [false, true] {
        let sorted = draw(
            &a,
            &b,
            SortBy::Nothing,
            SortKey::Lightness,
            DrawType::Sort,
            SortOrder::Ascending,
            SortOrder::Ascending,
            pre_sort,
        );
        assert_eq!(sorted.into_raw(), grey_image(3, 2, &values).into_raw());
        let unsorted = draw(
            &a,
            &b,
            SortBy::Nothing,
            SortKey::Lightness,
            DrawType::Unsort,
            SortOrder::Ascending,
            SortOrder::Ascending,
            pre_sort,
        );
        assert_eq!(unsorted.into_raw(), grey_image(3, 2, &[9, 8, 7, 6, 5, 4]).into_raw());
    }
}

#[test]
fn draw_has_the_size_of_the_sort_image() {
    let a = grey_image(3, 2, &[5, 1, 4, 1, 2, 9]);
    let b = grey_image(2, 5, &[1, 2, 3, 4, 5, 6, 7, 8, 9, 10]);
    let modes = [SortBy::Row, SortBy::Column, SortBy::RowCol, SortBy::ColRow, SortBy::Nothing];
    for dir in modes {
        for pre_sort in [false, true] {
            let out = draw(
                &a,
                &b,
                dir,
                SortKey::Lightness,
                DrawType::Unsort,
                SortOrder::Ascending,
                SortOrder::Descending,
                pre_sort,
            );
            assert_eq!((out.width(), out.height()), (3, 2));
            let sorted = draw(
                &a,
                &b,
                dir,
                SortKey::Lightness,
                DrawType::Sort,
                SortOrder::Ascending,
                SortOrder::Descending,
                pre_sort,
            );
            assert_eq!((sorted.width(), sorted.height()), (3, 2));
        }
    }
}

#[test]
fn unsort_scatters_the_second_image_through_the_grid_of_the_first() {
    let a = grey_image(3, 1, &[20, 30, 10]);
    // The grid of `a` is (2, 0, 1): pixel 0 goes to 2, 1 to 0, 2 to 1.
    let unsort = |values: &[u8], pre_sort: bool| {
        let b = grey_image(3, 1, values);
        let out = draw(
            &a,
            &b,
            SortBy::Row,
            SortKey::Lightness,
            DrawType::Unsort,
            SortOrder::Ascending,
            SortOrder::Ascending,
            pre_sort,
        );
        lightness(&out)
    };
    assert_eq!(unsort(&[100, 150, 200], false), vec![150, 200, 100]);
    assert_eq!(unsort(&[200, 100, 150], false), vec![100, 150, 200]);
    assert_eq!(unsort(&[200, 100, 150], true), vec![150, 200, 100]);
    let given = draw_resampled(
        &a,
        grey_image(3, 1, &[200, 100, 150]),
        SortBy::Row,
        SortKey::Lightness,
        DrawType::Unsort,
        SortOrder::Ascending,
        SortOrder::Ascending,
        true,
    );
    assert_eq!(lightness(&given), vec![150, 200, 100]);
}

#[test]
fn unsort_undoes_sort() {
    let values = [5, 1, 4, 1, 2, 9, 0, 9, 8, 3, 6, 3];
    let modes = [SortBy::Row, SortBy::Column, SortBy::RowCol, SortBy::ColRow, SortBy::Nothing];
    for dir in modes {
        for row_order in [SortOrder::Ascending, SortOrder::Descending] {
            for col_order in [SortOrder::Ascending, SortOrder::Descending] {
                let a = grey_image(4, 3, &values);
                let sorted = draw(&a, &a, dir, SortKey::Lightness, DrawType::Sort, row_order, col_order, false);
                let back = draw(
                    &a,
                    &sorted,
                    dir,
                    SortKey::Lightness,
                    DrawType::Unsort,
                    row_order,
                    col_order,
                    false,
                );
                assert_eq!(back.into_raw(), grey_image(4, 3, &values).into_raw());
            }
        }
    }
    let a = grey_image(3, 1, &[20, 30, 10]);
    let sorted = pixel_sort_row(&a, SortKey::Lightness, SortOrder::Ascending);
    let grid = pixel_map_row(&a, SortKey::Lightness, SortOrder::Ascending, None);
    assert_eq!(lightness(&pixel_unsort(&sorted, &grid)), vec![20, 30, 10]);
}

#[test]
fn unsort_of_a_sorted_image_carries_the_order_of_the_sort_image() {
    let a = grey_image(4, 2, &[20, 30, 10, 30, 7, 7, 9, 1]);
    let b = grey_image(4, 2, &[200, 100, 150, 100, 3, 90, 90, 14]);
    for order in [SortOrder::Ascending, SortOrder::Descending] {
        let out = draw(&a, &b, SortBy::Row, SortKey::Lightness, DrawType::Unsort, order, order, true);
        for y in 0..2 {
            let mut before = b.row(y).iter().map(|p| p.r).collect::<Vec<u8>>();
            let mut after = out.row(y).iter().map(|p| p.r).collect::<Vec<u8>>();
            for x1 in 0..4 {
                for x2 in 0..4 {
                    if a.get_pixel(x1, y).r < a.get_pixel(x2, y).r {
                        assert!(after[x1 as usize] <= after[x2 as usize]);
                    }
                }
            }
            before.sort();
            after.sort();
            assert_eq!(before, after);
        }
    }
    let first = draw(
        &grey_image(2, 1, &[20, 30]),
        &grey_image(2, 1, &[200, 100]),
        SortBy::Row,
        SortKey::Lightness,
        DrawType::Unsort,
        SortOrder::Ascending,
        SortOrder::Ascending,
        true,
    );
    assert_eq!(lightness(&first), vec![100, 200]);
}

#[test]
fn empty_image_draws_empty() {
    let a = Image::from_raw(0, 0, Vec::new()).unwrap();
    let b = grey_image(2, 1, &[1, 2]);
    let modes = [SortBy::Row, SortBy::Column, SortBy::RowCol, SortBy::ColRow, SortBy::Nothing];
    for dir in modes {
        let grid = pixel_map(&a, dir, SortKey::Lightness, SortOrder::Ascending, SortOrder::Ascending);
        assert_eq!((grid.width(), grid.height()), (0, 0));
        for draw_type in [DrawType::Sort, DrawType::Unsort] {
            let out = draw(
                &a,
                &b,
                dir,
                SortKey::Lightness,
                draw_type,
                SortOrder::Ascending,
                SortOrder::Ascending,
                true,
            );
            assert_eq!((out.width(), out.height()), (0, 0));
            assert_eq!(out.into_raw(), Vec::<u8>::new());
        }
    }
}

#[test]
fn sorting_by_hue_and_saturation() {
    let red = Pixel { r: 255, g: 0, b: 0, a: 255 };
    let green = Pixel { r: 0, g: 255, b: 0, a: 255 };
    let blue = Pixel { r: 0, g: 0, b: 255, a: 255 };
    let pale = Pixel { r: 200, g: 100, b: 100, a: 255 };
    let mut img = Image::new(4, 1);
    img.put_pixel(0, 0, blue);
    img.put_pixel(1, 0, pale);
    img.put_pixel(2, 0, green);
    img.put_pixel(3, 0, red);
    let by_hue = pixel_sort_row(&img, SortKey::Hue, SortOrder::Ascending);
    assert_eq!(by_hue.row(0), vec![pale, red, green, blue]);
    let by_sat = pixel_sort_row(&img, SortKey::Saturation, SortOrder::Descending);
    assert_eq!(by_sat.row(0), vec![blue, green, red, pale]);
    let by_red = pixel_sort_row(&img, SortKey::Red, SortOrder::Ascending);
    assert_eq!(by_red.row(0), vec![blue, green, pale, red]);
}

#[test]
fn column_then_row_grid_starts_from_the_column_grid() {
    // 3 1
    // 2 4
    let img = grey_image(2, 2, &[3, 1, 2, 4]);
    let columns = pixel_map_column(&img, SortKey::Lightness, SortOrder::Ascending, None);
    // Column 0 (3, 2) is swapped, column 1 (1, 4) is kept.
    assert_eq!(cells(&columns), vec![(0, 1), (1, 0), (0, 0), (1, 1)]);
    // Row 0 holds (0,1), (1,0) with keys 2, 1 and is swapped; row 1 holds
    // (0,0), (1,1) with keys 3, 4 and is kept.
    let both = pixel_map_row(&img, SortKey::Lightness, SortOrder::Ascending, Some(columns));
    assert_eq!(cells(&both), vec![(1, 0), (0, 1), (0, 0), (1, 1)]);
    let built = pixel_map(&img, SortBy::ColRow, SortKey::Lightness, SortOrder::Ascending, SortOrder::Ascending);
    assert_eq!(cells(&built), vec![(1, 0), (0, 1), (0, 0), (1, 1)]);
    assert_eq!(lightness(&pixel_gather(&img, &built)), vec![1, 2, 3, 4]);
}

#[test]
fn a_pass_works_on_a_grid_of_another_size() {
    let img = grey_image(3, 2, &[9, 5, 7, 1, 2, 3]);
    // One row of two cells that name pixels of both rows of the image,
    // with the keys 7 and 1.
    let grid = Matrix::generate(2, 1, |x, _| if x == 0 { (2, 0) } else { (0, 1) });
    let out = pixel_map_row(&img, SortKey::Lightness, SortOrder::Ascending, Some(grid));
    assert_eq!((out.width(), out.height()), (2, 1));
    assert_eq!(cells(&out), vec![(0, 1), (2, 0)]);
}

#[test]
fn unsort_with_equal_sizes_resamples_nothing() {
    let a = grey_image(2, 2, &[4, 3, 2, 1]);
    let b = grey_image(2, 2, &[10, 20, 30, 40]);
    // The row grid of `a` swaps both rows.
    let out = draw(
        &a,
        &b,
        SortBy::Row,
        SortKey::Lightness,
        DrawType::Unsort,
        SortOrder::Ascending,
        SortOrder::Ascending,
        false,
    );
    assert_eq!(lightness(&out), vec![20, 10, 40, 30]);
    assert_eq!(tags(&out), vec![1, 0, 3, 2]);
}

#[test]
fn images_without_rows_or_columns_stay_empty() {
    for (width, height) in [(0, 3), (3, 0)] {
        let img = Image::from_raw(width, height, Vec::new()).unwrap();
        let modes = [SortBy::Row, SortBy::Column, SortBy::RowCol, SortBy::ColRow, SortBy::Nothing];
        for dir in modes {
            let grid = pixel_map(&img, dir, SortKey::Lightness, SortOrder::Ascending, SortOrder::Descending);
            assert_eq!((grid.width(), grid.height()), (width as usize, height as usize));
            assert_eq!(cells(&grid), Vec::new());
            let sorted = pixel_sort(&img, dir, SortKey::Lightness, SortOrder::Ascending, SortOrder::Descending);
            assert_eq!((sorted.width(), sorted.height()), (width, height));
            let sent = pixel_unsort(&img, &grid);
            assert_eq!((sent.width(), sent.height()), (width, height));
            assert_eq!(sent.into_raw(), Vec::<u8>::new());
        }
    }
}

#[test]
fn pre_sort_changes_nothing_when_sorting() {
    let a = grey_image(3, 2, &[5, 1, 4, 1, 2, 9]);
    let b = grey_image(3, 2, &[9, 8, 7, 6, 5, 4]);
    let plain = draw(
        &a,
        &b,
        SortBy::ColRow,
        SortKey::Lightness,
        DrawType::Sort,
        SortOrder::Descending,
        SortOrder::Ascending,
        false,
    );
    let pre = draw(
        &a,
        &b,
        SortBy::ColRow,
        SortKey::Lightness,
        DrawType::Sort,
        SortOrder::Descending,
        SortOrder::Ascending,
        true,
    );
    // Columns ascending: 1 1 4 / 5 2 9; rows descending: 4 1 1 / 9 5 2.
    assert_eq!(lightness(&plain), vec![4, 1, 1, 9, 5, 2]);
    assert_eq!(pre.into_raw(), plain.into_raw());
}

#[test]
fn unsort_of_both_axes_uses_the_composed_grid() {
    // 3 1
    // 2 4
    let a = grey_image(2, 2, &[3, 1, 2, 4]);
    let b = grey_image(2, 2, &[10, 20, 30, 40]);
    // The grid of column-then-row passes is (1,0) (0,1) / (0,0) (1,1).
    let out = draw(
        &a,
        &b,
        SortBy::ColRow,
        SortKey::Lightness,
        DrawType::Unsort,
        SortOrder::Ascending,
        SortOrder::Ascending,
        false,
    );
    assert_eq!(lightness(&out), vec![30, 10, 20, 40]);
}

#[test]
fn quarter_turns_of_empty_images_are_empty() {
    for (width, height) in [(0, 0), (0, 3), (3, 0), (1 << 30, 0), (0, 1 << 30)] {
        let img = Image::from_raw(width, height, Vec::new()).unwrap();
        let right = img.rotate90();
        assert_eq!((right.width(), right.height()), (height, width));
        assert_eq!(right.into_raw(), Vec::<u8>::new());
        let left = img.rotate270();
        assert_eq!((left.width(), left.height()), (height, width));
    }
    for (width, height) in [(0, 0), (0, 3), (3, 0), (0, 1 << 30)] {
        let img = Image::from_raw(width, height, Vec::new()).unwrap();
        let sorted = pixel_sort_column(&img, SortKey::Hue, SortOrder::Descending);
        assert_eq!((sorted.width(), sorted.height()), (width, height));
    }
}

#[test]
fn resampling_to_or_from_nothing_is_blank() {
    let empty = Image::from_raw(1 << 30, 0, Vec::new()).unwrap();
    assert!(fits_resampling(1 << 30, 0, 2, 2));
    assert_eq!(empty.resize_exact(2, 2).into_raw(), vec![0; 16]);
    let img = grey_image(2, 1, &[1, 2]);
    assert!(fits_resampling(2, 1, 1 << 30, 0));
    let none = img.resize_exact(1 << 30, 0);
    assert_eq!((none.width(), none.height()), (1 << 30, 0));
    assert_eq!(none.into_raw(), Vec::<u8>::new());
}

#[test]
fn fits_resampling_bounds_the_sides_handed_to_the_resampler() {
    let limit = 4194304;
    assert!(fits_resampling(3, 2, 5, 7));
    assert!(fits_resampling(limit, 1, limit - 1, 1));
    assert!(!fits_resampling(limit + 1, 1, limit, 1));
    assert!(!fits_resampling(limit, 1, limit + 1, 1));
    assert!(!fits_resampling(1, limit + 1, 1, 2));
    assert!(!fits_resampling(1, 2, 1, limit + 1));
    assert!(!fits_resampling(16777216, 1, 16777217, 1));
    // An image that has the wanted size already is copied, whatever its
    // size.
    assert!(fits_resampling(16777217, 1, 16777217, 1));
}

#[test]
fn resampling_keeps_a_flat_image_flat_up_to_the_largest_side() {
    let limit = 4194304;
    let img = Image::from_raw(limit - 1, 1, vec![77; 4 * (limit as usize - 1)]).unwrap();
    let out = img.resize_exact(limit, 1);
    assert_eq!(out.width(), limit);
    assert_eq!(out.get_pixel(0, 0), Pixel { r: 77, g: 77, b: 77, a: 77 });
    assert_eq!(out.get_pixel(limit - 1, 0), Pixel { r: 77, g: 77, b: 77, a: 77 });
    assert_eq!(out.get_pixel(limit / 2, 0), Pixel { r: 77, g: 77, b: 77, a: 77 });
}
