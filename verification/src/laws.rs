//! What holds across the functions of the engine: the contracts pin their
//! results, the coordinate grid records the very rearrangement that the
//! direct sort carries out, a gather through the grid is that sort, and a
//! scatter through it undoes the sort.

use crate::art::column_pass_of;
use crate::art::columns_sorted;
use crate::art::coord_keys;
use crate::art::directly_sorted;
use crate::art::drawn;
use crate::art::DrawType;
use crate::art::gathered;
use crate::art::grid_built;
use crate::art::is_bijective_grid;
use crate::art::is_stable_sort;
use crate::art::keys_in_order;
use crate::art::lemma_column_pass_keeps_bijection;
use crate::art::lemma_identity_grid_bijective;
use crate::art::lemma_line_passed;
use crate::art::lemma_row_pass_keeps_bijection;
use crate::art::lemma_scattered_through_bijection;
use crate::art::lemma_stable_sort_keys;
use crate::art::line_passed;
use crate::art::pass_order;
use crate::art::pixel_keys;
use crate::art::row_pass_of;
use crate::art::rows_sorted;
use crate::art::scattered;
use crate::art::start_cell;
use crate::art::start_column;
use crate::art::start_height;
use crate::art::start_row;
use crate::art::start_width;
use crate::matrix::ImgGrid;
use crate::order::SortBy;
use crate::order::SortOrder;
use crate::pixel::key_of;
use crate::pixel::signed_key;
use crate::pixel::Pixel;
use crate::pixel::SortKey;
use crate::raster::lemma_same_pixels_same_view;
use crate::raster::lemma_same_view_same_pixels;
use crate::raster::Image;
use crate::stable::is_stable_order;
use crate::stable::lemma_stable_order_unique;
use crate::stable::permuted;
use crate::stable::precedes;
use vstd::prelude::*;

verus! {

/// A line of pixels has one stable sort only.
pub proof fn lemma_stable_sort_unique(
    before: Seq<Pixel>,
    first: Seq<Pixel>,
    second: Seq<Pixel>,
    key: SortKey,
    order: SortOrder,
)
    requires
        is_stable_sort(before, first, key, order),
        is_stable_sort(before, second, key, order),
    ensures
        first == second,
{
    let keys = pixel_keys(key, order, before);
    let a = choose|ord: Seq<int>| #[trigger] is_stable_order(keys, ord) && first == permuted(before, ord);
    let b = choose|ord: Seq<int>| #[trigger] is_stable_order(keys, ord) && second == permuted(before, ord);
    lemma_stable_order_unique(keys, a, b);
}

/// A pass makes one thing only of a line of coordinates.
pub proof fn lemma_line_passed_unique(
    img: &Image,
    key: SortKey,
    order: SortOrder,
    before: Seq<(usize, usize)>,
    first: Seq<(usize, usize)>,
    second: Seq<(usize, usize)>,
)
    requires
        line_passed(img, key, order, before, first),
        line_passed(img, key, order, before, second),
    ensures
        first == second,
{
    let keys = coord_keys(img, key, order, before);
    lemma_stable_order_unique(
        keys,
        pass_order(img, key, order, before, first),
        pass_order(img, key, order, before, second),
    );
}

/// `shown` is what `img` looks like through the grid a pass starts from:
/// the grid has the size of `img`, and each pixel of `shown` is the pixel
/// of `img` that the cell at its place names.
pub open spec fn shows(img: &Image, grid: Option<ImgGrid>, shown: &Image) -> bool {
    &&& shown.spec_width() == img.spec_width()
    &&& shown.spec_height() == img.spec_height()
    &&& start_width(grid, img) == img.spec_width()
    &&& start_height(grid, img) == img.spec_height()
    &&& forall|x: int, y: int|
        shown.has_pixel(x, y) ==> #[trigger] shown.at(x, y) == img.at(
            start_cell(grid, x, y).0 as int,
            start_cell(grid, x, y).1 as int,
        )
}

/// A row pass does to the grid what the direct sort of the rows does to
/// the image seen through the grid: through the passed grid the image
/// looks row-sorted.
pub proof fn lemma_row_pass_sorts_rows(
    img: &Image,
    key: SortKey,
    order: SortOrder,
    grid: Option<ImgGrid>,
    out: &ImgGrid,
    before: &Image,
    after: &Image,
)
    requires
        shows(img, grid, before),
        row_pass_of(img, key, order, grid, out),
        rows_sorted(before, after, key, order),
    ensures
        shows(img, Some(*out), after),
{
    assert forall|x: int, y: int| after.has_pixel(x, y) implies #[trigger] after.at(x, y) == img.at(
        out.at(x, y).0 as int,
        out.at(x, y).1 as int,
    ) by {
        let line = before.row_seq(y);
        let coords = start_row(grid, img, y);
        let keys = pixel_keys(key, order, line);
        assert(coord_keys(img, key, order, coords) =~= keys);
        lemma_line_passed(img, key, order, coords, out.row_seq(y));
        let moved = pass_order(img, key, order, coords, out.row_seq(y));
        assert(is_stable_sort(line, after.row_seq(y), key, order));
        let ord = choose|ord: Seq<int>| #[trigger]
            is_stable_order(keys, ord) && after.row_seq(y) == permuted(line, ord);
        lemma_stable_order_unique(keys, moved, ord);
        assert(0 <= ord[x] < line.len());
        assert(after.row_seq(y)[x] == line[ord[x]]);
        assert(out.row_seq(y)[x] == coords[ord[x]]);
        assert(before.at(ord[x], y) == img.at(
            start_cell(grid, ord[x], y).0 as int,
            start_cell(grid, ord[x], y).1 as int,
        ));
    }
}

/// A column pass does to the grid what the direct sort of the columns does
/// to the image seen through the grid: through the passed grid the image
/// looks column-sorted.
pub proof fn lemma_column_pass_sorts_columns(
    img: &Image,
    key: SortKey,
    order: SortOrder,
    grid: Option<ImgGrid>,
    out: &ImgGrid,
    before: &Image,
    after: &Image,
)
    requires
        shows(img, grid, before),
        column_pass_of(img, key, order, grid, out),
        columns_sorted(before, after, key, order),
    ensures
        shows(img, Some(*out), after),
{
    assert forall|x: int, y: int| after.has_pixel(x, y) implies #[trigger] after.at(x, y) == img.at(
        out.at(x, y).0 as int,
        out.at(x, y).1 as int,
    ) by {
        let line = before.column_seq(x);
        let coords = start_column(grid, img, x);
        let keys = pixel_keys(key, order, line);
        assert(coord_keys(img, key, order, coords) =~= keys);
        lemma_line_passed(img, key, order, coords, out.column_seq(x));
        let moved = pass_order(img, key, order, coords, out.column_seq(x));
        assert(is_stable_sort(line, after.column_seq(x), key, order));
        let ord = choose|ord: Seq<int>| #[trigger]
            is_stable_order(keys, ord) && after.column_seq(x) == permuted(line, ord);
        lemma_stable_order_unique(keys, moved, ord);
        assert(0 <= ord[y] < line.len());
        assert(after.column_seq(x)[y] == line[ord[y]]);
        assert(out.column_seq(x)[y] == coords[ord[y]]);
        assert(before.at(x, ord[y]) == img.at(
            start_cell(grid, x, ord[y]).0 as int,
            start_cell(grid, x, ord[y]).1 as int,
        ));
    }
}

/// The grid built for the axes `dir` records the direct sort along `dir`:
/// each cell names the pixel that the sort puts at its place.
pub proof fn lemma_built_grid_shows_sort(
    img: &Image,
    dir: SortBy,
    key: SortKey,
    row_order: SortOrder,
    col_order: SortOrder,
    grid: &ImgGrid,
    direct: &Image,
)
    requires
        grid_built(img, dir, key, row_order, col_order, grid),
        directly_sorted(img, direct, dir, key, row_order, col_order),
    ensures
        shows(img, Some(*grid), direct),
{
    assert(shows(img, None, img));
    match dir {
        SortBy::Row => {
            lemma_row_pass_sorts_rows(img, key, row_order, None, grid, img, direct);
        },
        SortBy::Column => {
            lemma_column_pass_sorts_columns(img, key, col_order, None, grid, img, direct);
        },
        SortBy::RowCol => {
            let mid_grid = choose|mid: ImgGrid| #[trigger]
                row_pass_of(img, key, row_order, None, &mid) && column_pass_of(
                    img,
                    key,
                    col_order,
                    Some(mid),
                    grid,
                );
            let mid = choose|mid: Image| #[trigger]
                rows_sorted(img, &mid, key, row_order) && columns_sorted(&mid, direct, key, col_order);
            lemma_row_pass_sorts_rows(img, key, row_order, None, &mid_grid, img, &mid);
            lemma_column_pass_sorts_columns(img, key, col_order, Some(mid_grid), grid, &mid, direct);
        },
        SortBy::ColRow => {
            let mid_grid = choose|mid: ImgGrid| #[trigger]
                column_pass_of(img, key, col_order, None, &mid) && row_pass_of(
                    img,
                    key,
                    row_order,
                    Some(mid),
                    grid,
                );
            let mid = choose|mid: Image| #[trigger]
                columns_sorted(img, &mid, key, col_order) && rows_sorted(&mid, direct, key, row_order);
            lemma_column_pass_sorts_columns(img, key, col_order, None, &mid_grid, img, &mid);
            lemma_row_pass_sorts_rows(img, key, row_order, Some(mid_grid), grid, &mid, direct);
        },
        SortBy::Nothing => {
            lemma_same_view_same_pixels(direct, img);
        },
    }
}

/// Every built grid is a bijection on the rectangle of the image.
pub proof fn lemma_built_grid_bijective(
    img: &Image,
    dir: SortBy,
    key: SortKey,
    row_order: SortOrder,
    col_order: SortOrder,
    grid: &ImgGrid,
)
    requires
        grid_built(img, dir, key, row_order, col_order, grid),
    ensures
        grid.spec_width() == img.spec_width(),
        grid.spec_height() == img.spec_height(),
        is_bijective_grid(grid),
{
    match dir {
        SortBy::Row => {
            lemma_row_pass_keeps_bijection(img, key, row_order, None, grid);
        },
        SortBy::Column => {
            lemma_column_pass_keeps_bijection(img, key, col_order, None, grid);
        },
        SortBy::RowCol => {
            let mid = choose|mid: ImgGrid| #[trigger]
                row_pass_of(img, key, row_order, None, &mid) && column_pass_of(
                    img,
                    key,
                    col_order,
                    Some(mid),
                    grid,
                );
            lemma_row_pass_keeps_bijection(img, key, row_order, None, &mid);
            lemma_column_pass_keeps_bijection(img, key, col_order, Some(mid), grid);
        },
        SortBy::ColRow => {
            let mid = choose|mid: ImgGrid| #[trigger]
                column_pass_of(img, key, col_order, None, &mid) && row_pass_of(
                    img,
                    key,
                    row_order,
                    Some(mid),
                    grid,
                );
            lemma_column_pass_keeps_bijection(img, key, col_order, None, &mid);
            lemma_row_pass_keeps_bijection(img, key, row_order, Some(mid), grid);
        },
        SortBy::Nothing => {
            lemma_identity_grid_bijective(grid, img.spec_width() as int, img.spec_height() as int);
        },
    }
}

/// The direct sort and the grid agree: gathering an image through the grid
/// built for the axes `dir` gives, pixel for pixel, what the direct sort
/// along `dir` gives.
pub proof fn lemma_grid_gathers_direct_sort(
    img: &Image,
    dir: SortBy,
    key: SortKey,
    row_order: SortOrder,
    col_order: SortOrder,
    grid: &ImgGrid,
    direct: &Image,
    fetched: &Image,
)
    requires
        grid_built(img, dir, key, row_order, col_order, grid),
        directly_sorted(img, direct, dir, key, row_order, col_order),
        gathered(img, grid, fetched),
    ensures
        fetched@ == direct@,
{
    lemma_built_grid_shows_sort(img, dir, key, row_order, col_order, grid, direct);
    lemma_same_pixels_same_view(fetched, direct);
}

/// The direct sort of the columns, with its two quarter turns, gives pixel
/// for pixel what a gather through the column grid built from the identity
/// gives.
pub proof fn lemma_column_grid_gathers_sorted_columns(
    img: &Image,
    key: SortKey,
    order: SortOrder,
    grid: &ImgGrid,
    direct: &Image,
    fetched: &Image,
)
    requires
        column_pass_of(img, key, order, None, grid),
        columns_sorted(img, direct, key, order),
        gathered(img, grid, fetched),
    ensures
        fetched@ == direct@,
{
    assert(shows(img, None, img));
    lemma_column_pass_sorts_columns(img, key, order, None, grid, img, direct);
    lemma_same_pixels_same_view(fetched, direct);
}

/// The direct sort of the rows gives pixel for pixel what a gather through
/// the row grid built from the identity gives.
pub proof fn lemma_row_grid_gathers_sorted_rows(
    img: &Image,
    key: SortKey,
    order: SortOrder,
    grid: &ImgGrid,
    direct: &Image,
    fetched: &Image,
)
    requires
        row_pass_of(img, key, order, None, grid),
        rows_sorted(img, direct, key, order),
        gathered(img, grid, fetched),
    ensures
        fetched@ == direct@,
{
    assert(shows(img, None, img));
    lemma_row_pass_sorts_rows(img, key, order, None, grid, img, direct);
    lemma_same_pixels_same_view(fetched, direct);
}

/// A scatter undoes a gather: gathering an image through a grid that is a
/// bijection on its rectangle and scattering the result through the same
/// grid gives the image back.
pub proof fn lemma_scatter_undoes_gather(img: &Image, grid: &ImgGrid, fetched: &Image, back: &Image)
    requires
        is_bijective_grid(grid),
        grid.spec_width() == img.spec_width(),
        grid.spec_height() == img.spec_height(),
        gathered(img, grid, fetched),
        scattered(fetched, grid, back),
    ensures
        back@ == img@,
{
    lemma_scattered_through_bijection(fetched, grid, back);
    assert forall|a: int, b: int| back.has_pixel(a, b) implies #[trigger] back.at(a, b) == img.at(a, b) by {
        assert(grid.has_cell(a, b));
        let (x, y) = choose|x: int, y: int|
            grid.has_cell(x, y) && #[trigger] grid.at(x, y) == (a as usize, b as usize);
        assert(fetched.at(x, y) == img.at(a, b));
    }
    lemma_same_pixels_same_view(back, img);
}

/// An unsort undoes a sort: scattering the directly sorted image through
/// the grid of the image it was sorted from gives that image back.
pub proof fn lemma_unsort_undoes_sort(
    img: &Image,
    dir: SortBy,
    key: SortKey,
    row_order: SortOrder,
    col_order: SortOrder,
    grid: &ImgGrid,
    sorted: &Image,
    back: &Image,
)
    requires
        grid_built(img, dir, key, row_order, col_order, grid),
        directly_sorted(img, sorted, dir, key, row_order, col_order),
        scattered(sorted, grid, back),
    ensures
        back@ == img@,
{
    lemma_built_grid_shows_sort(img, dir, key, row_order, col_order, grid, sorted);
    lemma_built_grid_bijective(img, dir, key, row_order, col_order, grid);
    lemma_scattered_through_bijection(sorted, grid, back);
    assert forall|a: int, b: int| back.has_pixel(a, b) implies #[trigger] back.at(a, b) == img.at(a, b) by {
        assert(grid.has_cell(a, b));
        let (x, y) = choose|x: int, y: int|
            grid.has_cell(x, y) && #[trigger] grid.at(x, y) == (a as usize, b as usize);
        assert(sorted.at(x, y) == img.at(a, b));
    }
    lemma_same_pixels_same_view(back, img);
}

/// The direct sort of an image is the direct sort of every image that
/// looks the same.
pub proof fn lemma_directly_sorted_same_view(
    img: &Image,
    sorted: &Image,
    same: &Image,
    dir: SortBy,
    key: SortKey,
    row_order: SortOrder,
    col_order: SortOrder,
)
    requires
        directly_sorted(img, sorted, dir, key, row_order, col_order),
        same@ == sorted@,
    ensures
        directly_sorted(img, same, dir, key, row_order, col_order),
{
    lemma_same_view_same_pixels(same, sorted);
    assert forall|y: int| 0 <= y < same.spec_height() implies #[trigger] same.row_seq(y) == sorted.row_seq(
        y,
    ) by {
        assert(same.row_seq(y) =~= sorted.row_seq(y));
    }
    assert forall|x: int| 0 <= x < same.spec_width() implies #[trigger] same.column_seq(x)
        == sorted.column_seq(x) by {
        assert(same.column_seq(x) =~= sorted.column_seq(x));
    }
    match dir {
        SortBy::RowCol => {
            let mid = choose|mid: Image| #[trigger]
                rows_sorted(img, &mid, key, row_order) && columns_sorted(&mid, sorted, key, col_order);
            assert(rows_sorted(img, &mid, key, row_order) && columns_sorted(&mid, same, key, col_order));
        },
        SortBy::ColRow => {
            let mid = choose|mid: Image| #[trigger]
                columns_sorted(img, &mid, key, col_order) && rows_sorted(&mid, sorted, key, row_order);
            assert(columns_sorted(img, &mid, key, col_order) && rows_sorted(&mid, same, key, row_order));
        },
        _ => {},
    }
}

/// Rendering an unsort of a sorted image undoes the sort: where the second
/// image is the direct sort of the sort image along `dir`, and is not
/// sorted again beforehand, the rendering gives the sort image back.
pub proof fn lemma_drawn_unsort_undoes_sort(
    sort_image: &Image,
    sorted: &Image,
    out: &Image,
    dir: SortBy,
    key: SortKey,
    row_order: SortOrder,
    col_order: SortOrder,
)
    requires
        directly_sorted(sort_image, sorted, dir, key, row_order, col_order),
        drawn(sort_image, sorted, out, dir, key, DrawType::Unsort, row_order, col_order, false),
    ensures
        out@ == sort_image@,
{
    let (source, grid) = choose|source: Image, grid: ImgGrid|
        source@ == sorted@ && grid_built(sort_image, dir, key, row_order, col_order, &grid)
            && #[trigger] scattered(&source, &grid, out);
    lemma_directly_sorted_same_view(sort_image, sorted, &source, dir, key, row_order, col_order);
    lemma_unsort_undoes_sort(sort_image, dir, key, row_order, col_order, &grid, &source, out);
}

/// In a stable arrangement a position with a smaller key comes earlier.
pub proof fn lemma_smaller_key_earlier(keys: Seq<int>, ord: Seq<int>, i1: int, i2: int)
    requires
        is_stable_order(keys, ord),
        0 <= i1 < ord.len(),
        0 <= i2 < ord.len(),
        keys[ord[i1]] < keys[ord[i2]],
    ensures
        i1 < i2,
{
    if i2 < i1 {
        assert(precedes(keys, ord[i2], ord[i1]));
    }
}

/// Scattered through the row grid of `sort_image`, the pixel that lands at
/// `(x, y)` is the one that stood at the rank of `(x, y)` in its row of the
/// sort image: the place `i` with `pass_order(..)[i] == x`.
pub proof fn lemma_scattered_from_rank(
    sort_image: &Image,
    source: &Image,
    out: &Image,
    key: SortKey,
    order: SortOrder,
    grid: &ImgGrid,
    x: int,
    y: int,
) -> (i: int)
    requires
        row_pass_of(sort_image, key, order, None, grid),
        scattered(source, grid, out),
        source.spec_width() == sort_image.spec_width(),
        source.spec_height() == sort_image.spec_height(),
        out.has_pixel(x, y),
    ensures
        0 <= i < sort_image.spec_width(),
        pass_order(sort_image, key, order, start_row(None, sort_image, y), grid.row_seq(y))[i] == x,
        out.at(x, y) == source.at(i, y),
{
    lemma_row_pass_keeps_bijection(sort_image, key, order, None, grid);
    lemma_scattered_through_bijection(source, grid, out);
    let coords = start_row(None, sort_image, y);
    lemma_line_passed(sort_image, key, order, coords, grid.row_seq(y));
    let ord = pass_order(sort_image, key, order, coords, grid.row_seq(y));
    assert(ord.contains(x));
    let i = choose|i: int| 0 <= i < ord.len() && #[trigger] ord[i] == x;
    assert(grid.row_seq(y)[i] == coords[x]);
    assert(grid.at(i, y) == (x as usize, y as usize));
    i
}

/// An unsort of a sorted image carries the order of the sort image over.
/// Where the rows of `source` are sorted in the direction in which the row
/// grid of `sort_image` was built, a pixel of the sort image with a
/// smaller key never gets a larger key in the scattered image than a pixel
/// of its row with a larger key.
pub proof fn lemma_sorted_rows_scatter_in_order(
    sort_image: &Image,
    resampled: &Image,
    source: &Image,
    out: &Image,
    key: SortKey,
    order: SortOrder,
    grid: &ImgGrid,
)
    requires
        resampled.spec_width() == sort_image.spec_width(),
        resampled.spec_height() == sort_image.spec_height(),
        row_pass_of(sort_image, key, order, None, grid),
        rows_sorted(resampled, source, key, order),
        scattered(source, grid, out),
    ensures
        forall|x1: int, x2: int, y: int|
            out.has_pixel(x1, y) && out.has_pixel(x2, y) && key_of(key, sort_image.at(x1, y)) < key_of(
                key,
                sort_image.at(x2, y),
            ) ==> key_of(key, #[trigger] out.at(x1, y)) <= key_of(key, #[trigger] out.at(x2, y)),
{
    assert forall|x1: int, x2: int, y: int|
        out.has_pixel(x1, y) && out.has_pixel(x2, y) && key_of(key, sort_image.at(x1, y)) < key_of(
            key,
            sort_image.at(x2, y),
        ) implies key_of(key, #[trigger] out.at(x1, y)) <= key_of(key, #[trigger] out.at(x2, y)) by {
        let i1 = lemma_scattered_from_rank(sort_image, source, out, key, order, grid, x1, y);
        let i2 = lemma_scattered_from_rank(sort_image, source, out, key, order, grid, x2, y);
        let coords = start_row(None, sort_image, y);
        let keys = coord_keys(sort_image, key, order, coords);
        let ord = pass_order(sort_image, key, order, coords, grid.row_seq(y));
        lemma_line_passed(sort_image, key, order, coords, grid.row_seq(y));
        let line = source.row_seq(y);
        assert(is_stable_sort(resampled.row_seq(y), line, key, order));
        lemma_stable_sort_keys(resampled.row_seq(y), line, key, order);
        assert(keys_in_order(line, key, order));
        assert(line[i1] == source.at(i1, y) && line[i2] == source.at(i2, y));
        assert(keys[x1] == signed_key(key, order, sort_image.at(x1, y)));
        assert(keys[x2] == signed_key(key, order, sort_image.at(x2, y)));
        match order {
            SortOrder::Ascending => {
                lemma_smaller_key_earlier(keys, ord, i1, i2);
            },
            SortOrder::Descending => {
                lemma_smaller_key_earlier(keys, ord, i2, i1);
            },
        }
    }
}

} // verus!
