//! The permutation engine: coordinate grids built by row and column
//! passes, the direct sort of rows and columns, and the application of a
//! grid to an image.

use crate::matrix::identity_grid;
use crate::matrix::ImgGrid;
use crate::order::SortBy;
use crate::order::SortOrder;
use crate::pixel::key_of;
use crate::pixel::signed_key;
use crate::pixel::Pixel;
use crate::pixel::SortKey;
use crate::raster::needs_resampler;
use crate::raster::resample_fits;
use crate::raster::resampled_bytes;
use crate::raster::lemma_same_pixels_same_view;
use crate::raster::lemma_same_view_same_bytes;
use crate::raster::Image;
use crate::stable::index_ints;
use crate::stable::is_permutation;
use crate::stable::is_stable_order;
use crate::stable::key_ints;
use crate::stable::lemma_mirrored_order;
use crate::stable::lemma_stable_order_is_permutation;
use crate::stable::mirrored_keys;
use crate::stable::mirrored_order;
use crate::stable::permuted;
use crate::stable::precedes;
use crate::stable::stable_order;
use vstd::prelude::*;

verus! {

/// Every cell of `grid` names a pixel of `img`.
pub open spec fn grid_within(grid: &ImgGrid, img: &Image) -> bool {
    forall|x: int, y: int|
        grid.has_cell(x, y) ==> img.has_pixel(
            (#[trigger] grid.at(x, y)).0 as int,
            grid.at(x, y).1 as int,
        )
}

/// The sort values of the pixels of `img` that the coordinates `coords`
/// name, in the order of `coords`.
pub open spec fn coord_keys(
    img: &Image,
    key: SortKey,
    order: SortOrder,
    coords: Seq<(usize, usize)>,
) -> Seq<int> {
    Seq::new(
        coords.len(),
        |j: int| signed_key(key, order, img.at(coords[j].0 as int, coords[j].1 as int)),
    )
}

/// What a pass makes of one line of a grid: the coordinates of the line,
/// sorted stably by the sort value of the pixel that each of them names.
/// Place `i` of the line then holds the source of the pixel that the sort
/// puts at place `i`.
pub open spec fn line_passed(
    img: &Image,
    key: SortKey,
    order: SortOrder,
    before: Seq<(usize, usize)>,
    after: Seq<(usize, usize)>,
) -> bool {
    exists|ord: Seq<int>|
        #[trigger] is_stable_order(coord_keys(img, key, order, before), ord) && after == permuted(before, ord)
}

/// The coordinate that a pass finds in cell `(x, y)` before it starts: that
/// of the grid it was given, or the cell's own where it was given none.
pub open spec fn start_cell(grid: Option<ImgGrid>, x: int, y: int) -> (usize, usize) {
    match grid {
        Some(g) => g.at(x, y),
        None => (x as usize, y as usize),
    }
}

/// The width of the grid a pass works on.
pub open spec fn start_width(grid: Option<ImgGrid>, img: &Image) -> int {
    match grid {
        Some(g) => g.spec_width() as int,
        None => img.spec_width() as int,
    }
}

/// The height of the grid a pass works on.
pub open spec fn start_height(grid: Option<ImgGrid>, img: &Image) -> int {
    match grid {
        Some(g) => g.spec_height() as int,
        None => img.spec_height() as int,
    }
}

/// Row `y` of the grid a pass works on, before the pass.
pub open spec fn start_row(grid: Option<ImgGrid>, img: &Image, y: int) -> Seq<(usize, usize)> {
    Seq::new(start_width(grid, img) as nat, |x: int| start_cell(grid, x, y))
}

/// Column `x` of the grid a pass works on, before the pass.
pub open spec fn start_column(grid: Option<ImgGrid>, img: &Image, x: int) -> Seq<(usize, usize)> {
    Seq::new(start_height(grid, img) as nat, |y: int| start_cell(grid, x, y))
}

/// Every coordinate of the grid's own rectangle is held by exactly one
/// cell.
pub open spec fn is_bijective_grid(grid: &ImgGrid) -> bool {
    &&& forall|x: int, y: int|
        grid.has_cell(x, y) ==> grid.has_cell(
            (#[trigger] grid.at(x, y)).0 as int,
            grid.at(x, y).1 as int,
        )
    &&& forall|x1: int, y1: int, x2: int, y2: int|
        grid.has_cell(x1, y1) && grid.has_cell(x2, y2) && #[trigger] grid.at(x1, y1) == #[trigger] grid.at(
            x2,
            y2,
        ) ==> x1 == x2 && y1 == y2
    &&& forall|a: int, b: int| #[trigger]
        grid.has_cell(a, b) ==> exists|x: int, y: int|
            grid.has_cell(x, y) && #[trigger] grid.at(x, y) == (a as usize, b as usize)
}

/// `out` is what a row pass makes of the grid it is given: a grid of the
/// same size, each row passed on its own.
pub open spec fn row_pass_of(
    img: &Image,
    key: SortKey,
    order: SortOrder,
    grid: Option<ImgGrid>,
    out: &ImgGrid,
) -> bool {
    &&& out.spec_width() == start_width(grid, img)
    &&& out.spec_height() == start_height(grid, img)
    &&& forall|y: int|
        0 <= y < out.spec_height() ==> line_passed(
            img,
            key,
            order,
            start_row(grid, img, y),
            #[trigger] out.row_seq(y),
        )
}

/// `out` is what a column pass makes of the grid it is given: a grid of
/// the same size, each column passed on its own.
pub open spec fn column_pass_of(
    img: &Image,
    key: SortKey,
    order: SortOrder,
    grid: Option<ImgGrid>,
    out: &ImgGrid,
) -> bool {
    &&& out.spec_width() == start_width(grid, img)
    &&& out.spec_height() == start_height(grid, img)
    &&& forall|x: int|
        0 <= x < out.spec_width() ==> line_passed(
            img,
            key,
            order,
            start_column(grid, img, x),
            #[trigger] out.column_seq(x),
        )
}

/// The grid a pass starts from is a bijection on its rectangle. The
/// identity grid, from which a pass without a grid starts, is one.
pub open spec fn start_is_bijective(grid: Option<ImgGrid>) -> bool {
    match grid {
        Some(g) => is_bijective_grid(&g),
        None => true,
    }
}

/// Sorts the coordinates in every row of a grid by the key of the pixels of
/// `img` that they name. Without a grid the pass starts from the identity
/// grid of the size of `img`; cell `(x, y)` then holds the place in row `y`
/// from which the sort of that row takes the pixel for `(x, y)`.
pub fn pixel_map_row(img: &Image, key: SortKey, order: SortOrder, grid: Option<ImgGrid>) -> (out: ImgGrid)
    requires
        img.wf(),
        grid matches Some(g) ==> g.wf() && grid_within(&g, img),
    ensures
        out.wf(),
        row_pass_of(img, key, order, grid, &out),
        grid_within(&out, img),
        start_is_bijective(grid) ==> is_bijective_grid(&out),
{
    proof {
        img.lemma_size_fits();
    }
    let mut px_map = match grid {
        Some(g) => g,
        None => identity_grid(img.width() as usize, img.height() as usize),
    };
    let width: usize = px_map.width();
    let height: usize = px_map.height();
    let ghost start = px_map;
    assert forall|x: int, y: int| start.has_cell(x, y) implies #[trigger] start.at(x, y) == start_cell(
        grid,
        x,
        y,
    ) by {}
    let mut y: usize = 0;
    while y < height
        invariant
            img.wf(),
            px_map.wf(),
            start.wf(),
            grid_within(&start, img),
            width == start.spec_width(),
            height == start.spec_height(),
            px_map.spec_width() == width,
            px_map.spec_height() == height,
            y <= height,
            forall|x2: int, y2: int|
                0 <= x2 < width && y <= y2 < height ==> #[trigger] px_map.at(x2, y2) == start.at(x2, y2),
            forall|y2: int|
                0 <= y2 < y ==> line_passed(img, key, order, start.row_seq(y2), #[trigger] px_map.row_seq(y2)),
        decreases height - y,
    {
        let row = px_map.row(y);
        let mut coords: Vec<(usize, usize)> = Vec::with_capacity(width);
        let mut keys: Vec<i64> = Vec::with_capacity(width);
        let mut x: usize = 0;
        while x < width
            invariant
                img.wf(),
                grid_within(&start, img),
                width == start.spec_width(),
                height == start.spec_height(),
                y < height,
                x <= width,
                row@.len() == width,
                forall|x2: int| 0 <= x2 < width ==> #[trigger] row@[x2] == start.at(x2, y as int),
                coords@.len() == x,
                keys@.len() == x,
                forall|j: int| 0 <= j < x ==> #[trigger] coords@[j] == start.at(j, y as int),
                forall|j: int|
                    0 <= j < x ==> #[trigger] keys@[j] == signed_key(
                        key,
                        order,
                        img.at(start.at(j, y as int).0 as int, start.at(j, y as int).1 as int),
                    ),
            decreases width - x,
        {
            let c = row[x];
            assert(c == start.at(x as int, y as int));
            assert(img.has_pixel(c.0 as int, c.1 as int));
            let p = img.get_pixel(c.0 as u32, c.1 as u32);
            keys.push(key.signed(order, p));
            coords.push(c);
            x = x + 1;
        }
        let ord = stable_order(&keys);
        proof {
            assert(key_ints(keys@) =~= coord_keys(img, key, order, start.row_seq(y as int)));
        }
        let ghost rows_before = px_map;
        let mut i: usize = 0;
        while i < width
            invariant
                px_map.wf(),
                px_map.spec_width() == width,
                px_map.spec_height() == height,
                rows_before.spec_width() == width,
                rows_before.spec_height() == height,
                y < height,
                i <= width,
                coords@.len() == width,
                is_stable_order(key_ints(keys@), index_ints(ord@)),
                keys@.len() == width,
                forall|x2: int, y2: int|
                    0 <= x2 < width && 0 <= y2 < height && y2 != y ==> #[trigger] px_map.at(x2, y2)
                        == rows_before.at(x2, y2),
                forall|k: int| 0 <= k < i ==> #[trigger] px_map.at(k, y as int) == coords@[ord@[k] as int],
            decreases width - i,
        {
            assert(0 <= index_ints(ord@)[i as int] < width);
            px_map.set(i, y, coords[ord[i]]);
            i = i + 1;
        }
        proof {
            assert(px_map.row_seq(y as int) =~= permuted(start.row_seq(y as int), index_ints(ord@)));
            assert forall|y2: int| 0 <= y2 < y implies line_passed(
                img,
                key,
                order,
                start.row_seq(y2),
                #[trigger] px_map.row_seq(y2),
            ) by {
                assert(px_map.row_seq(y2) =~= rows_before.row_seq(y2));
            }
        }
        y = y + 1;
    }
    proof {
        assert forall|y: int| 0 <= y < px_map.spec_height() implies line_passed(
            img,
            key,
            order,
            start_row(grid, img, y),
            #[trigger] px_map.row_seq(y),
        ) by {
            assert(start_row(grid, img, y) =~= start.row_seq(y));
            assert(line_passed(img, key, order, start.row_seq(y), px_map.row_seq(y)));
        }
        lemma_row_pass_stays_within(img, key, order, grid, &px_map);
        if start_is_bijective(grid) {
            lemma_row_pass_keeps_bijection(img, key, order, grid, &px_map);
        }
    }
    px_map
}

/// Sorts the coordinates in every column of a grid by the key of the pixels
/// of `img` that they name. Without a grid the pass starts from the
/// identity grid of the size of `img`; cell `(x, y)` then holds the place
/// in column `x` from which the sort of that column takes the pixel for
/// `(x, y)`.
pub fn pixel_map_column(img: &Image, key: SortKey, order: SortOrder, grid: Option<ImgGrid>) -> (out:
    ImgGrid)
    requires
        img.wf(),
        grid matches Some(g) ==> g.wf() && grid_within(&g, img),
    ensures
        out.wf(),
        column_pass_of(img, key, order, grid, &out),
        grid_within(&out, img),
        start_is_bijective(grid) ==> is_bijective_grid(&out),
{
    proof {
        img.lemma_size_fits();
    }
    let mut px_map = match grid {
        Some(g) => g,
        None => identity_grid(img.width() as usize, img.height() as usize),
    };
    let width: usize = px_map.width();
    let height: usize = px_map.height();
    let ghost start = px_map;
    assert forall|x: int, y: int| start.has_cell(x, y) implies #[trigger] start.at(x, y) == start_cell(
        grid,
        x,
        y,
    ) by {}
    let mut x: usize = 0;
    while x < width
        invariant
            img.wf(),
            px_map.wf(),
            start.wf(),
            grid_within(&start, img),
            width == start.spec_width(),
            height == start.spec_height(),
            px_map.spec_width() == width,
            px_map.spec_height() == height,
            x <= width,
            forall|x2: int, y2: int|
                x <= x2 < width && 0 <= y2 < height ==> #[trigger] px_map.at(x2, y2) == start.at(x2, y2),
            forall|x2: int|
                0 <= x2 < x ==> line_passed(
                    img,
                    key,
                    order,
                    start.column_seq(x2),
                    #[trigger] px_map.column_seq(x2),
                ),
        decreases width - x,
    {
        let column = px_map.get_column(x);
        let mut keys: Vec<i64> = Vec::with_capacity(height);
        let mut y: usize = 0;
        while y < height
            invariant
                img.wf(),
                grid_within(&start, img),
                width == start.spec_width(),
                height == start.spec_height(),
                x < width,
                y <= height,
                column@.len() == height,
                forall|y2: int| 0 <= y2 < height ==> #[trigger] column@[y2] == start.at(x as int, y2),
                keys@.len() == y,
                forall|j: int|
                    0 <= j < y ==> #[trigger] keys@[j] == signed_key(
                        key,
                        order,
                        img.at(start.at(x as int, j).0 as int, start.at(x as int, j).1 as int),
                    ),
            decreases height - y,
        {
            let c = column[y];
            assert(c == start.at(x as int, y as int));
            assert(img.has_pixel(c.0 as int, c.1 as int));
            let p = img.get_pixel(c.0 as u32, c.1 as u32);
            keys.push(key.signed(order, p));
            y = y + 1;
        }
        let ord = stable_order(&keys);
        proof {
            assert(key_ints(keys@) =~= coord_keys(img, key, order, start.column_seq(x as int)));
        }
        let ghost columns_before = px_map;
        let mut i: usize = 0;
        while i < height
            invariant
                px_map.wf(),
                px_map.spec_width() == width,
                px_map.spec_height() == height,
                columns_before.spec_width() == width,
                columns_before.spec_height() == height,
                x < width,
                i <= height,
                column@.len() == height,
                is_stable_order(key_ints(keys@), index_ints(ord@)),
                keys@.len() == height,
                forall|x2: int, y2: int|
                    0 <= x2 < width && 0 <= y2 < height && x2 != x ==> #[trigger] px_map.at(x2, y2)
                        == columns_before.at(x2, y2),
                forall|k: int| 0 <= k < i ==> #[trigger] px_map.at(x as int, k) == column@[ord@[k] as int],
            decreases height - i,
        {
            assert(0 <= index_ints(ord@)[i as int] < height);
            px_map.set(x, i, column[ord[i]]);
            i = i + 1;
        }
        proof {
            assert(px_map.column_seq(x as int) =~= permuted(start.column_seq(x as int), index_ints(ord@)));
            assert forall|x2: int| 0 <= x2 < x implies line_passed(
                img,
                key,
                order,
                start.column_seq(x2),
                #[trigger] px_map.column_seq(x2),
            ) by {
                assert(px_map.column_seq(x2) =~= columns_before.column_seq(x2));
            }
        }
        x = x + 1;
    }
    proof {
        assert forall|x: int| 0 <= x < px_map.spec_width() implies line_passed(
            img,
            key,
            order,
            start_column(grid, img, x),
            #[trigger] px_map.column_seq(x),
        ) by {
            assert(start_column(grid, img, x) =~= start.column_seq(x));
            assert(line_passed(img, key, order, start.column_seq(x), px_map.column_seq(x)));
        }
        lemma_column_pass_stays_within(img, key, order, grid, &px_map);
        if start_is_bijective(grid) {
            lemma_column_pass_keeps_bijection(img, key, order, grid, &px_map);
        }
    }
    px_map
}

/// The arrangement by which a pass has sorted the line `before` into the
/// line `after`.
pub open spec fn pass_order(
    img: &Image,
    key: SortKey,
    order: SortOrder,
    before: Seq<(usize, usize)>,
    after: Seq<(usize, usize)>,
) -> Seq<int> {
    choose|ord: Seq<int>|
        #[trigger] is_stable_order(coord_keys(img, key, order, before), ord) && after == permuted(before, ord)
}

/// Each place of a passed line holds what the line held at the place that
/// the arrangement of the pass names, and that arrangement is a
/// permutation of the places.
pub proof fn lemma_line_passed(
    img: &Image,
    key: SortKey,
    order: SortOrder,
    before: Seq<(usize, usize)>,
    after: Seq<(usize, usize)>,
)
    requires
        line_passed(img, key, order, before, after),
    ensures
        after.len() == before.len(),
        pass_order(img, key, order, before, after).len() == before.len(),
        is_stable_order(coord_keys(img, key, order, before), pass_order(img, key, order, before, after)),
        is_permutation(pass_order(img, key, order, before, after)),
        forall|i: int|
            0 <= i < after.len() ==> #[trigger] after[i] == before[pass_order(
                img,
                key,
                order,
                before,
                after,
            )[i]],
{
    let ord = pass_order(img, key, order, before, after);
    lemma_stable_order_is_permutation(coord_keys(img, key, order, before), ord);
}

/// `(x, y)` names a cell of the grid a pass works on.
pub open spec fn start_has_cell(grid: Option<ImgGrid>, img: &Image, x: int, y: int) -> bool {
    0 <= x < start_width(grid, img) && 0 <= y < start_height(grid, img)
}

/// Every cell of the grid a pass works on names a pixel of `img`.
pub open spec fn start_within(grid: Option<ImgGrid>, img: &Image) -> bool {
    match grid {
        Some(g) => grid_within(&g, img),
        None => true,
    }
}

/// A row pass only moves coordinates about: what its result names, the
/// grid it started from named too.
pub proof fn lemma_row_pass_stays_within(
    img: &Image,
    key: SortKey,
    order: SortOrder,
    grid: Option<ImgGrid>,
    out: &ImgGrid,
)
    requires
        start_within(grid, img),
        row_pass_of(img, key, order, grid, out),
    ensures
        grid_within(out, img),
{
    assert forall|x: int, y: int| out.has_cell(x, y) implies img.has_pixel(
        (#[trigger] out.at(x, y)).0 as int,
        out.at(x, y).1 as int,
    ) by {
        let before = start_row(grid, img, y);
        lemma_line_passed(img, key, order, before, out.row_seq(y));
        let ord = pass_order(img, key, order, before, out.row_seq(y));
        assert(out.row_seq(y)[x] == before[ord[x]]);
        assert(start_has_cell(grid, img, ord[x], y));
        if let Some(g) = grid {
            assert(g.has_cell(ord[x], y));
        }
    }
}

/// A column pass only moves coordinates about: what its result names, the
/// grid it started from named too.
pub proof fn lemma_column_pass_stays_within(
    img: &Image,
    key: SortKey,
    order: SortOrder,
    grid: Option<ImgGrid>,
    out: &ImgGrid,
)
    requires
        start_within(grid, img),
        column_pass_of(img, key, order, grid, out),
    ensures
        grid_within(out, img),
{
    assert forall|x: int, y: int| out.has_cell(x, y) implies img.has_pixel(
        (#[trigger] out.at(x, y)).0 as int,
        out.at(x, y).1 as int,
    ) by {
        let before = start_column(grid, img, x);
        lemma_line_passed(img, key, order, before, out.column_seq(x));
        let ord = pass_order(img, key, order, before, out.column_seq(x));
        assert(out.column_seq(x)[y] == before[ord[y]]);
        assert(start_has_cell(grid, img, x, ord[y]));
        if let Some(g) = grid {
            assert(g.has_cell(x, ord[y]));
        }
    }
}

/// The grid a pass starts from holds each coordinate of its rectangle in
/// exactly one cell, where it is a bijection.
pub proof fn lemma_start_bijective(grid: Option<ImgGrid>, img: &Image)
    requires
        start_is_bijective(grid),
    ensures
        forall|x: int, y: int|
            start_has_cell(grid, img, x, y) ==> start_has_cell(
                grid,
                img,
                (#[trigger] start_cell(grid, x, y)).0 as int,
                start_cell(grid, x, y).1 as int,
            ),
        forall|x1: int, y1: int, x2: int, y2: int|
            start_has_cell(grid, img, x1, y1) && start_has_cell(grid, img, x2, y2) && #[trigger] start_cell(
                grid,
                x1,
                y1,
            ) == #[trigger] start_cell(grid, x2, y2) ==> x1 == x2 && y1 == y2,
        forall|a: int, b: int| #[trigger]
            start_has_cell(grid, img, a, b) ==> exists|x: int, y: int|
                start_has_cell(grid, img, x, y) && #[trigger] start_cell(grid, x, y) == (a as usize, b as usize),
{
    match grid {
        Some(g) => {
            assert forall|x: int, y: int| start_has_cell(grid, img, x, y) implies start_has_cell(
                grid,
                img,
                (#[trigger] start_cell(grid, x, y)).0 as int,
                start_cell(grid, x, y).1 as int,
            ) by {
                assert(g.has_cell(x, y));
                assert(g.has_cell(g.at(x, y).0 as int, g.at(x, y).1 as int));
            }
            assert forall|x1: int, y1: int, x2: int, y2: int|
                start_has_cell(grid, img, x1, y1) && start_has_cell(grid, img, x2, y2)
                    && #[trigger] start_cell(grid, x1, y1) == #[trigger] start_cell(
                    grid,
                    x2,
                    y2,
                ) implies x1 == x2 && y1 == y2 by {
                assert(g.has_cell(x1, y1) && g.has_cell(x2, y2));
                assert(g.at(x1, y1) == g.at(x2, y2));
            }
            assert forall|a: int, b: int| #[trigger] start_has_cell(grid, img, a, b) implies exists|
                x: int,
                y: int,
            |
                start_has_cell(grid, img, x, y) && #[trigger] start_cell(grid, x, y) == (
                    a as usize,
                    b as usize,
                ) by {
                assert(g.has_cell(a, b));
                let (x, y) = choose|x: int, y: int|
                    g.has_cell(x, y) && #[trigger] g.at(x, y) == (a as usize, b as usize);
                assert(start_has_cell(grid, img, x, y) && start_cell(grid, x, y) == (a as usize, b as usize));
            }
        },
        None => {
            assert forall|a: int, b: int| #[trigger] start_has_cell(grid, img, a, b) implies exists|
                x: int,
                y: int,
            |
                start_has_cell(grid, img, x, y) && #[trigger] start_cell(grid, x, y) == (
                    a as usize,
                    b as usize,
                ) by {
                assert(start_has_cell(grid, img, a, b) && start_cell(grid, a, b) == (a as usize, b as usize));
            }
        },
    }
}

/// A row pass turns a bijection into a bijection: every row of the result
/// holds the coordinates of the row it started from, each once.
pub proof fn lemma_row_pass_keeps_bijection(
    img: &Image,
    key: SortKey,
    order: SortOrder,
    grid: Option<ImgGrid>,
    out: &ImgGrid,
)
    requires
        start_is_bijective(grid),
        row_pass_of(img, key, order, grid, out),
    ensures
        is_bijective_grid(out),
{
    lemma_start_bijective(grid, img);
    let ords = |y: int| pass_order(img, key, order, start_row(grid, img, y), out.row_seq(y));
    assert forall|x: int, y: int| out.has_cell(x, y) implies #[trigger] out.at(x, y) == start_cell(
        grid,
        ords(y)[x],
        y,
    ) && start_has_cell(grid, img, ords(y)[x], y) && is_permutation(ords(y)) && ords(y).len()
        == out.spec_width() by {
        lemma_line_passed(img, key, order, start_row(grid, img, y), out.row_seq(y));
        assert(out.row_seq(y)[x] == start_row(grid, img, y)[ords(y)[x]]);
        assert(0 <= ords(y)[x] < out.spec_width());
    }
    assert forall|x: int, y: int| out.has_cell(x, y) implies out.has_cell(
        (#[trigger] out.at(x, y)).0 as int,
        out.at(x, y).1 as int,
    ) by {
        assert(out.at(x, y) == start_cell(grid, ords(y)[x], y));
    }
    assert forall|x1: int, y1: int, x2: int, y2: int|
        out.has_cell(x1, y1) && out.has_cell(x2, y2) && #[trigger] out.at(x1, y1) == #[trigger] out.at(
            x2,
            y2,
        ) implies x1 == x2 && y1 == y2 by {
        assert(start_cell(grid, ords(y1)[x1], y1) == start_cell(grid, ords(y2)[x2], y2));
    }
    assert forall|a: int, b: int| #[trigger] out.has_cell(a, b) implies exists|x: int, y: int|
        out.has_cell(x, y) && #[trigger] out.at(x, y) == (a as usize, b as usize) by {
        assert(start_has_cell(grid, img, a, b));
        let (x, y) = choose|x: int, y: int|
            start_has_cell(grid, img, x, y) && #[trigger] start_cell(grid, x, y) == (a as usize, b as usize);
        lemma_line_passed(img, key, order, start_row(grid, img, y), out.row_seq(y));
        let ord = ords(y);
        assert(ord.contains(x));
        let i = choose|i: int| 0 <= i < ord.len() && #[trigger] ord[i] == x;
        assert(out.has_cell(i, y));
        assert(out.at(i, y) == start_cell(grid, x, y));
    }
}

/// A column pass turns a bijection into a bijection: every column of the
/// result holds the coordinates of the column it started from, each once.
pub proof fn lemma_column_pass_keeps_bijection(
    img: &Image,
    key: SortKey,
    order: SortOrder,
    grid: Option<ImgGrid>,
    out: &ImgGrid,
)
    requires
        start_is_bijective(grid),
        column_pass_of(img, key, order, grid, out),
    ensures
        is_bijective_grid(out),
{
    lemma_start_bijective(grid, img);
    let ords = |x: int| pass_order(img, key, order, start_column(grid, img, x), out.column_seq(x));
    assert forall|x: int, y: int| out.has_cell(x, y) implies #[trigger] out.at(x, y) == start_cell(
        grid,
        x,
        ords(x)[y],
    ) && start_has_cell(grid, img, x, ords(x)[y]) && is_permutation(ords(x)) && ords(x).len()
        == out.spec_height() by {
        lemma_line_passed(img, key, order, start_column(grid, img, x), out.column_seq(x));
        assert(out.column_seq(x)[y] == start_column(grid, img, x)[ords(x)[y]]);
        assert(0 <= ords(x)[y] < out.spec_height());
    }
    assert forall|x: int, y: int| out.has_cell(x, y) implies out.has_cell(
        (#[trigger] out.at(x, y)).0 as int,
        out.at(x, y).1 as int,
    ) by {
        assert(out.at(x, y) == start_cell(grid, x, ords(x)[y]));
    }
    assert forall|x1: int, y1: int, x2: int, y2: int|
        out.has_cell(x1, y1) && out.has_cell(x2, y2) && #[trigger] out.at(x1, y1) == #[trigger] out.at(
            x2,
            y2,
        ) implies x1 == x2 && y1 == y2 by {
        assert(start_cell(grid, x1, ords(x1)[y1]) == start_cell(grid, x2, ords(x2)[y2]));
    }
    assert forall|a: int, b: int| #[trigger] out.has_cell(a, b) implies exists|x: int, y: int|
        out.has_cell(x, y) && #[trigger] out.at(x, y) == (a as usize, b as usize) by {
        assert(start_has_cell(grid, img, a, b));
        let (x, y) = choose|x: int, y: int|
            start_has_cell(grid, img, x, y) && #[trigger] start_cell(grid, x, y) == (a as usize, b as usize);
        lemma_line_passed(img, key, order, start_column(grid, img, x), out.column_seq(x));
        let ord = ords(x);
        assert(ord.contains(y));
        let i = choose|i: int| 0 <= i < ord.len() && #[trigger] ord[i] == y;
        assert(out.has_cell(x, i));
        assert(out.at(x, i) == start_cell(grid, x, y));
    }
}

/// The sort values of a line of pixels.
pub open spec fn pixel_keys(key: SortKey, order: SortOrder, line: Seq<Pixel>) -> Seq<int> {
    Seq::new(line.len(), |j: int| signed_key(key, order, line[j]))
}

/// `after` is the line `before` sorted stably by `key` in the direction
/// `order`: the pixels of `before` in the one order in which their sort
/// values never fall and pixels of equal sort value stay in the order they
/// had.
pub open spec fn is_stable_sort(before: Seq<Pixel>, after: Seq<Pixel>, key: SortKey, order: SortOrder) -> bool {
    exists|ord: Seq<int>|
        #[trigger] is_stable_order(pixel_keys(key, order, before), ord) && after == permuted(before, ord)
}

/// `after` has the size of `before`, and each of its rows is the row of
/// `before` sorted stably.
pub open spec fn rows_sorted(before: &Image, after: &Image, key: SortKey, order: SortOrder) -> bool {
    &&& after.spec_width() == before.spec_width()
    &&& after.spec_height() == before.spec_height()
    &&& forall|y: int|
        0 <= y < before.spec_height() ==> is_stable_sort(
            before.row_seq(y),
            #[trigger] after.row_seq(y),
            key,
            order,
        )
}

/// `after` has the size of `before`, and each of its columns is the column
/// of `before` sorted stably, from the top down.
pub open spec fn columns_sorted(before: &Image, after: &Image, key: SortKey, order: SortOrder) -> bool {
    &&& after.spec_width() == before.spec_width()
    &&& after.spec_height() == before.spec_height()
    &&& forall|x: int|
        0 <= x < before.spec_width() ==> is_stable_sort(
            before.column_seq(x),
            #[trigger] after.column_seq(x),
            key,
            order,
        )
}

/// The keys along `line` follow the direction `order`: they never fall in
/// an ascending line and never rise in a descending one.
pub open spec fn keys_in_order(line: Seq<Pixel>, key: SortKey, order: SortOrder) -> bool {
    forall|i: int, j: int|
        0 <= i < j < line.len() ==> match order {
            SortOrder::Ascending => key_of(key, #[trigger] line[i]) <= key_of(key, #[trigger] line[j]),
            SortOrder::Descending => key_of(key, line[i]) >= key_of(key, line[j]),
        }
}

/// Along a stably sorted line the keys follow the direction of the sort,
/// and pixels of equal key stand in the order they had before the sort.
pub proof fn lemma_stable_sort_keys(before: Seq<Pixel>, after: Seq<Pixel>, key: SortKey, order: SortOrder)
    requires
        is_stable_sort(before, after, key, order),
    ensures
        after.len() == before.len(),
        keys_in_order(after, key, order),
        exists|ord: Seq<int>|
            {
                &&& #[trigger] is_permutation(ord)
                &&& after == permuted(before, ord)
                &&& forall|i: int, j: int|
                    0 <= i < j < after.len() && key_of(key, after[i]) == key_of(key, after[j])
                        ==> #[trigger] ord[i] < #[trigger] ord[j]
            },
{
    let keys = pixel_keys(key, order, before);
    let ord = choose|ord: Seq<int>| #[trigger]
        is_stable_order(keys, ord) && after == permuted(before, ord);
    lemma_stable_order_is_permutation(keys, ord);
    assert forall|i: int, j: int| 0 <= i < j < after.len() implies signed_key(key, order, #[trigger] after[i])
        <= signed_key(key, order, #[trigger] after[j]) && (signed_key(key, order, after[i]) == signed_key(
        key,
        order,
        after[j],
    ) ==> ord[i] < ord[j]) by {
        assert(precedes(keys, ord[i], ord[j]));
        assert(0 <= ord[i] < before.len() && 0 <= ord[j] < before.len());
    }
    assert(is_permutation(ord) && after == permuted(before, ord));
}

/// Sorts the pixels of every row by `key` in the direction `order`, with a
/// stable sort.
pub fn pixel_sort_row(img: &Image, key: SortKey, order: SortOrder) -> (out: Image)
    requires
        img.wf(),
    ensures
        out.wf(),
        rows_sorted(img, &out, key, order),
        forall|y: int| 0 <= y < out.spec_height() ==> keys_in_order(#[trigger] out.row_seq(y), key, order),
{
    proof {
        img.lemma_size_fits();
    }
    let width: u32 = img.width();
    let height: u32 = img.height();
    let mut out = Image::new(width, height);
    let mut y: u32 = 0;
    while y < height
        invariant
            img.wf(),
            out.wf(),
            width == img.spec_width(),
            height == img.spec_height(),
            out.spec_width() == width,
            out.spec_height() == height,
            y <= height,
            forall|y2: int|
                0 <= y2 < y ==> is_stable_sort(img.row_seq(y2), #[trigger] out.row_seq(y2), key, order),
        decreases height - y,
    {
        let row = img.row(y);
        let mut keys: Vec<i64> = Vec::with_capacity(width as usize);
        let mut x: u32 = 0;
        while x < width
            invariant
                x <= width,
                row@.len() == width,
                keys@.len() == x,
                forall|j: int| 0 <= j < x ==> #[trigger] keys@[j] == signed_key(key, order, row@[j]),
            decreases width - x,
        {
            keys.push(key.signed(order, row[x as usize]));
            x = x + 1;
        }
        let ord = stable_order(&keys);
        assert(key_ints(keys@) =~= pixel_keys(key, order, row@));
        let ghost rows_before = out;
        let mut i: u32 = 0;
        while i < width
            invariant
                out.wf(),
                out.spec_width() == width,
                out.spec_height() == height,
                rows_before.spec_width() == width,
                rows_before.spec_height() == height,
                y < height,
                i <= width,
                row@.len() == width,
                is_stable_order(pixel_keys(key, order, row@), index_ints(ord@)),
                forall|x2: int, y2: int|
                    0 <= x2 < width && 0 <= y2 < height && y2 != y ==> #[trigger] out.at(x2, y2)
                        == rows_before.at(x2, y2),
                forall|k: int| 0 <= k < i ==> #[trigger] out.at(k, y as int) == row@[ord@[k] as int],
            decreases width - i,
        {
            assert(0 <= index_ints(ord@)[i as int] < width);
            out.put_pixel(i, y, row[ord[i as usize]]);
            i = i + 1;
        }
        proof {
            assert(out.row_seq(y as int) =~= permuted(row@, index_ints(ord@)));
            assert forall|y2: int| 0 <= y2 < y implies is_stable_sort(
                img.row_seq(y2),
                #[trigger] out.row_seq(y2),
                key,
                order,
            ) by {
                assert(out.row_seq(y2) =~= rows_before.row_seq(y2));
            }
        }
        y = y + 1;
    }
    proof {
        assert forall|y: int| 0 <= y < out.spec_height() implies keys_in_order(
            #[trigger] out.row_seq(y),
            key,
            order,
        ) by {
            lemma_stable_sort_keys(img.row_seq(y), out.row_seq(y), key, order);
        }
    }
    out
}

/// The sort value of a pixel changes sign with the direction of the sort.
pub proof fn lemma_reversed_signed_key(key: SortKey, order: SortOrder, p: Pixel)
    ensures
        signed_key(key, order.reversed(), p) == -signed_key(key, order, p),
{
}

/// Sorts the pixels of every column by `key` in the direction `order`,
/// with a stable sort. The image is turned a quarter turn, its rows are
/// sorted in the opposite direction, and the result is turned back.
pub fn pixel_sort_column(img: &Image, key: SortKey, order: SortOrder) -> (out: Image)
    requires
        img.wf(),
    ensures
        out.wf(),
        columns_sorted(img, &out, key, order),
        forall|x: int| 0 <= x < out.spec_width() ==> keys_in_order(#[trigger] out.column_seq(x), key, order),
{
    let turned = img.rotate90();
    let sorted = pixel_sort_row(&turned, key, order.neg());
    let out = sorted.rotate270();
    proof {
        let h = img.spec_height() as int;
        assert forall|x: int| 0 <= x < img.spec_width() implies is_stable_sort(
            img.column_seq(x),
            #[trigger] out.column_seq(x),
            key,
            order,
        ) by {
            let column = img.column_seq(x);
            let line = turned.row_seq(x);
            let line_keys = pixel_keys(key, order.reversed(), line);
            let ord = choose|ord: Seq<int>| #[trigger]
                is_stable_order(line_keys, ord) && sorted.row_seq(x) == permuted(line, ord);
            let keys = pixel_keys(key, order, column);
            assert(line_keys =~= mirrored_keys(keys)) by {
                assert forall|j: int| 0 <= j < h implies line_keys[j] == -keys[h - 1 - j] by {
                    assert(line[j] == turned.at(j, x));
                    lemma_reversed_signed_key(key, order, line[j]);
                }
            }
            lemma_mirrored_order(keys, ord);
            let back = mirrored_order(ord);
            assert(out.column_seq(x) =~= permuted(column, back)) by {
                assert forall|y: int| 0 <= y < h implies out.column_seq(x)[y] == column[back[y]] by {
                    assert(out.at(x, y) == sorted.at(h - 1 - y, x));
                    assert(sorted.row_seq(x)[h - 1 - y] == line[ord[h - 1 - y]]);
                    assert(0 <= ord[h - 1 - y] < h);
                    assert(line[ord[h - 1 - y]] == turned.at(ord[h - 1 - y], x));
                }
            }
        }
        assert forall|x: int| 0 <= x < out.spec_width() implies keys_in_order(
            #[trigger] out.column_seq(x),
            key,
            order,
        ) by {
            lemma_stable_sort_keys(img.column_seq(x), out.column_seq(x), key, order);
        }
    }
    out
}

/// The pixel of an image that nothing was written to: every channel zero.
pub open spec fn blank() -> Pixel {
    Pixel { r: 0, g: 0, b: 0, a: 0 }
}

/// Cell `(x1, y1)` is visited before cell `(x2, y2)` when a grid is walked
/// row by row, each row from left to right.
pub open spec fn cell_before(x1: int, y1: int, x2: int, y2: int) -> bool {
    y1 < y2 || (y1 == y2 && x1 < x2)
}

/// A cell that is visited after `(x, y)` and before `(x_end, y_end)` holds
/// the same coordinate as `(x, y)`.
pub open spec fn overwritten_before(grid: &ImgGrid, x: int, y: int, x_end: int, y_end: int) -> bool {
    exists|x2: int, y2: int|
        grid.has_cell(x2, y2) && cell_before(x, y, x2, y2) && cell_before(x2, y2, x_end, y_end)
            && #[trigger] grid.at(x2, y2) == grid.at(x, y)
}

/// A cell that is visited before `(x_end, y_end)` holds the coordinate
/// `(a, b)`.
pub open spec fn targeted_before(grid: &ImgGrid, a: int, b: int, x_end: int, y_end: int) -> bool {
    exists|x: int, y: int|
        grid.has_cell(x, y) && cell_before(x, y, x_end, y_end) && #[trigger] grid.at(x, y) == (
            a as usize,
            b as usize,
        )
}

/// A cell that is visited after `(x, y)` holds the same coordinate as
/// `(x, y)`.
pub open spec fn overwritten(grid: &ImgGrid, x: int, y: int) -> bool {
    overwritten_before(grid, x, y, 0, grid.spec_height() as int)
}

/// Some cell of the grid holds the coordinate `(a, b)`.
pub open spec fn targeted(grid: &ImgGrid, a: int, b: int) -> bool {
    targeted_before(grid, a, b, 0, grid.spec_height() as int)
}

/// `out` is `img` scattered through `grid`: the pixel at each cell of the
/// grid has gone to the coordinate that the cell holds. Where several
/// cells hold one coordinate the last of them in row-major order decides,
/// and a pixel that no cell names is blank.
pub open spec fn scattered(img: &Image, grid: &ImgGrid, out: &Image) -> bool {
    &&& out.spec_width() == img.spec_width()
    &&& out.spec_height() == img.spec_height()
    &&& forall|x: int, y: int|
        grid.has_cell(x, y) && !overwritten(grid, x, y) ==> out.at(
            (#[trigger] grid.at(x, y)).0 as int,
            grid.at(x, y).1 as int,
        ) == img.at(x, y)
    &&& forall|a: int, b: int|
        out.has_pixel(a, b) && !targeted(grid, a, b) ==> #[trigger] out.at(a, b) == blank()
}

/// `out` is `img` gathered through `grid`: each cell of the grid has
/// fetched the pixel at the coordinate that it holds. A pixel outside the
/// grid is blank.
pub open spec fn gathered(img: &Image, grid: &ImgGrid, out: &Image) -> bool {
    &&& out.spec_width() == img.spec_width()
    &&& out.spec_height() == img.spec_height()
    &&& forall|x: int, y: int|
        out.has_pixel(x, y) ==> #[trigger] out.at(x, y) == if grid.has_cell(x, y) {
            img.at(grid.at(x, y).0 as int, grid.at(x, y).1 as int)
        } else {
            blank()
        }
}

/// Scatters the pixels of `img` through `grid`: the pixel at `(x, y)` is
/// written to the coordinate held by cell `(x, y)`. The cells are walked
/// row by row.
pub fn pixel_unsort(img: &Image, px_map: &ImgGrid) -> (out: Image)
    requires
        img.wf(),
        px_map.wf(),
        px_map.spec_width() <= img.spec_width(),
        px_map.spec_height() <= img.spec_height(),
        grid_within(px_map, img),
    ensures
        out.wf(),
        scattered(img, px_map, &out),
{
    proof {
        img.lemma_size_fits();
    }
    let width: usize = px_map.width();
    let height: usize = px_map.height();
    let mut out_image = Image::new(img.width(), img.height());
    let mut y: usize = 0;
    while y < height
        invariant
            img.wf(),
            px_map.wf(),
            out_image.wf(),
            grid_within(px_map, img),
            width == px_map.spec_width(),
            height == px_map.spec_height(),
            width <= img.spec_width(),
            height <= img.spec_height(),
            out_image.spec_width() == img.spec_width(),
            out_image.spec_height() == img.spec_height(),
            y <= height,
            forall|x1: int, y1: int|
                px_map.has_cell(x1, y1) && cell_before(x1, y1, 0, y as int) && !overwritten_before(
                    px_map,
                    x1,
                    y1,
                    0,
                    y as int,
                ) ==> out_image.at((#[trigger] px_map.at(x1, y1)).0 as int, px_map.at(x1, y1).1 as int)
                    == img.at(x1, y1),
            forall|a: int, b: int|
                out_image.has_pixel(a, b) && !targeted_before(px_map, a, b, 0, y as int)
                    ==> #[trigger] out_image.at(a, b) == blank(),
        decreases height - y,
    {
        let mut x: usize = 0;
        while x < width
            invariant
                img.wf(),
                px_map.wf(),
                out_image.wf(),
                grid_within(px_map, img),
                width == px_map.spec_width(),
                height == px_map.spec_height(),
                width <= img.spec_width(),
                height <= img.spec_height(),
                out_image.spec_width() == img.spec_width(),
                out_image.spec_height() == img.spec_height(),
                y < height,
                x <= width,
                forall|x1: int, y1: int|
                    px_map.has_cell(x1, y1) && cell_before(x1, y1, x as int, y as int)
                        && !overwritten_before(px_map, x1, y1, x as int, y as int) ==> out_image.at(
                        (#[trigger] px_map.at(x1, y1)).0 as int,
                        px_map.at(x1, y1).1 as int,
                    ) == img.at(x1, y1),
                forall|a: int, b: int|
                    out_image.has_pixel(a, b) && !targeted_before(px_map, a, b, x as int, y as int)
                        ==> #[trigger] out_image.at(a, b) == blank(),
            decreases width - x,
        {
            let c = *px_map.get(x, y);
            assert(img.has_pixel(c.0 as int, c.1 as int));
            let p = img.get_pixel(x as u32, y as u32);
            let ghost earlier = out_image;
            out_image.put_pixel(c.0 as u32, c.1 as u32, p);
            proof {
                assert forall|x1: int, y1: int|
                    px_map.has_cell(x1, y1) && cell_before(x1, y1, x + 1, y as int) && !overwritten_before(
                        px_map,
                        x1,
                        y1,
                        x + 1,
                        y as int,
                    ) implies out_image.at(
                    (#[trigger] px_map.at(x1, y1)).0 as int,
                    px_map.at(x1, y1).1 as int,
                ) == img.at(x1, y1) by {
                    if x1 == x && y1 == y {
                    } else {
                        let c1 = px_map.at(x1, y1);
                        assert(img.has_pixel(c1.0 as int, c1.1 as int));
                        assert(cell_before(x1, y1, x as int, y as int));
                        assert(cell_before(x as int, y as int, x + 1, y as int));
                        assert(px_map.at(x as int, y as int) != c1);
                        if overwritten_before(px_map, x1, y1, x as int, y as int) {
                            let (x2, y2) = choose|x2: int, y2: int|
                                px_map.has_cell(x2, y2) && cell_before(x1, y1, x2, y2) && cell_before(
                                    x2,
                                    y2,
                                    x as int,
                                    y as int,
                                ) && #[trigger] px_map.at(x2, y2) == px_map.at(x1, y1);
                            assert(cell_before(x2, y2, x + 1, y as int));
                        }
                        assert(earlier.at(c1.0 as int, c1.1 as int) == img.at(x1, y1));
                    }
                }
                assert forall|a: int, b: int|
                    out_image.has_pixel(a, b) && !targeted_before(
                        px_map,
                        a,
                        b,
                        x + 1,
                        y as int,
                    ) implies #[trigger] out_image.at(a, b) == blank() by {
                    assert(cell_before(x as int, y as int, x + 1, y as int));
                    assert(px_map.at(x as int, y as int) != (a as usize, b as usize));
                    if targeted_before(px_map, a, b, x as int, y as int) {
                        let (x2, y2) = choose|x2: int, y2: int|
                            px_map.has_cell(x2, y2) && cell_before(x2, y2, x as int, y as int)
                                && #[trigger] px_map.at(x2, y2) == (a as usize, b as usize);
                        assert(cell_before(x2, y2, x + 1, y as int));
                    }
                    assert(earlier.at(a, b) == blank());
                }
            }
            x = x + 1;
        }
        proof {
            assert forall|x1: int, y1: int|
                px_map.has_cell(x1, y1) && cell_before(x1, y1, 0, y + 1) && !overwritten_before(
                    px_map,
                    x1,
                    y1,
                    0,
                    y + 1,
                ) implies out_image.at((#[trigger] px_map.at(x1, y1)).0 as int, px_map.at(x1, y1).1 as int)
                == img.at(x1, y1) by {
                assert(cell_before(x1, y1, width as int, y as int));
                if overwritten_before(px_map, x1, y1, width as int, y as int) {
                    let (x2, y2) = choose|x2: int, y2: int|
                        px_map.has_cell(x2, y2) && cell_before(x1, y1, x2, y2) && cell_before(
                            x2,
                            y2,
                            width as int,
                            y as int,
                        ) && #[trigger] px_map.at(x2, y2) == px_map.at(x1, y1);
                    assert(cell_before(x2, y2, 0, y + 1));
                }
            }
            assert forall|a: int, b: int|
                out_image.has_pixel(a, b) && !targeted_before(
                    px_map,
                    a,
                    b,
                    0,
                    y + 1,
                ) implies #[trigger] out_image.at(a, b) == blank() by {
                if targeted_before(px_map, a, b, width as int, y as int) {
                    let (x2, y2) = choose|x2: int, y2: int|
                        px_map.has_cell(x2, y2) && cell_before(x2, y2, width as int, y as int)
                            && #[trigger] px_map.at(x2, y2) == (a as usize, b as usize);
                    assert(cell_before(x2, y2, 0, y + 1));
                }
            }
        }
        y = y + 1;
    }
    out_image
}

/// Gathers the pixels of `img` through `grid`: the pixel at `(x, y)` of the
/// result is the pixel of `img` at the coordinate held by cell `(x, y)`.
pub fn pixel_gather(img: &Image, px_map: &ImgGrid) -> (out: Image)
    requires
        img.wf(),
        px_map.wf(),
        px_map.spec_width() <= img.spec_width(),
        px_map.spec_height() <= img.spec_height(),
        grid_within(px_map, img),
    ensures
        out.wf(),
        gathered(img, px_map, &out),
{
    proof {
        img.lemma_size_fits();
    }
    let width: usize = px_map.width();
    let height: usize = px_map.height();
    let mut out_image = Image::new(img.width(), img.height());
    let mut y: usize = 0;
    while y < height
        invariant
            img.wf(),
            px_map.wf(),
            out_image.wf(),
            grid_within(px_map, img),
            width == px_map.spec_width(),
            height == px_map.spec_height(),
            width <= img.spec_width(),
            height <= img.spec_height(),
            out_image.spec_width() == img.spec_width(),
            out_image.spec_height() == img.spec_height(),
            y <= height,
            forall|x1: int, y1: int|
                out_image.has_pixel(x1, y1) ==> #[trigger] out_image.at(x1, y1) == if px_map.has_cell(x1, y1)
                    && y1 < y {
                    img.at(px_map.at(x1, y1).0 as int, px_map.at(x1, y1).1 as int)
                } else {
                    blank()
                },
        decreases height - y,
    {
        let mut x: usize = 0;
        while x < width
            invariant
                img.wf(),
                px_map.wf(),
                out_image.wf(),
                grid_within(px_map, img),
                width == px_map.spec_width(),
                height == px_map.spec_height(),
                width <= img.spec_width(),
                height <= img.spec_height(),
                out_image.spec_width() == img.spec_width(),
                out_image.spec_height() == img.spec_height(),
                y < height,
                x <= width,
                forall|x1: int, y1: int|
                    out_image.has_pixel(x1, y1) ==> #[trigger] out_image.at(x1, y1) == if px_map.has_cell(
                        x1,
                        y1,
                    ) && cell_before(x1, y1, x as int, y as int) {
                        img.at(px_map.at(x1, y1).0 as int, px_map.at(x1, y1).1 as int)
                    } else {
                        blank()
                    },
            decreases width - x,
        {
            let c = *px_map.get(x, y);
            assert(img.has_pixel(c.0 as int, c.1 as int));
            let p = img.get_pixel(c.0 as u32, c.1 as u32);
            out_image.put_pixel(x as u32, y as u32, p);
            x = x + 1;
        }
        y = y + 1;
    }
    out_image
}

/// Every cell of `grid`, which is `width` by `height` cells large, holds
/// its own coordinate.
pub open spec fn is_identity_grid(grid: &ImgGrid, width: int, height: int) -> bool {
    &&& grid.spec_width() == width
    &&& grid.spec_height() == height
    &&& forall|x: int, y: int| grid.has_cell(x, y) ==> #[trigger] grid.at(x, y) == (x as usize, y as usize)
}

/// `out` is the coordinate grid of `img` for the axes `dir`: the identity
/// grid of the size of `img`, put through the passes that `dir` names, rows
/// in the direction `row_order` and columns in the direction `col_order`.
pub open spec fn grid_built(
    img: &Image,
    dir: SortBy,
    key: SortKey,
    row_order: SortOrder,
    col_order: SortOrder,
    out: &ImgGrid,
) -> bool {
    match dir {
        SortBy::Row => row_pass_of(img, key, row_order, None, out),
        SortBy::Column => column_pass_of(img, key, col_order, None, out),
        SortBy::RowCol => exists|mid: ImgGrid| #[trigger]
            row_pass_of(img, key, row_order, None, &mid) && column_pass_of(
                img,
                key,
                col_order,
                Some(mid),
                out,
            ),
        SortBy::ColRow => exists|mid: ImgGrid| #[trigger]
            column_pass_of(img, key, col_order, None, &mid) && row_pass_of(
                img,
                key,
                row_order,
                Some(mid),
                out,
            ),
        SortBy::Nothing => is_identity_grid(out, img.spec_width() as int, img.spec_height() as int),
    }
}

/// A grid that is a bijection on the rectangle of `img` names pixels of
/// `img` only.
pub proof fn lemma_bijective_grid_within(grid: &ImgGrid, img: &Image)
    requires
        is_bijective_grid(grid),
        grid.spec_width() == img.spec_width(),
        grid.spec_height() == img.spec_height(),
    ensures
        grid_within(grid, img),
{
}

/// The identity grid is a bijection.
pub proof fn lemma_identity_grid_bijective(grid: &ImgGrid, width: int, height: int)
    requires
        is_identity_grid(grid, width, height),
    ensures
        is_bijective_grid(grid),
{
    assert forall|a: int, b: int| #[trigger] grid.has_cell(a, b) implies exists|x: int, y: int|
        grid.has_cell(x, y) && #[trigger] grid.at(x, y) == (a as usize, b as usize) by {
        assert(grid.at(a, b) == (a as usize, b as usize));
    }
}

/// Builds the coordinate grid of `img` for the axes `dir`.
pub fn pixel_map(img: &Image, dir: SortBy, key: SortKey, row_order: SortOrder, col_order: SortOrder) -> (out:
    ImgGrid)
    requires
        img.wf(),
    ensures
        out.wf(),
        out.spec_width() == img.spec_width(),
        out.spec_height() == img.spec_height(),
        grid_built(img, dir, key, row_order, col_order, &out),
        is_bijective_grid(&out),
{
    match dir {
        SortBy::Row => pixel_map_row(img, key, row_order, None),
        SortBy::Column => pixel_map_column(img, key, col_order, None),
        SortBy::RowCol => {
            let pm = pixel_map_row(img, key, row_order, None);
            let ghost mid = pm;
            let out = pixel_map_column(img, key, col_order, Some(pm));
            assert(row_pass_of(img, key, row_order, None, &mid) && column_pass_of(
                img,
                key,
                col_order,
                Some(mid),
                &out,
            ));
            out
        },
        SortBy::ColRow => {
            let pm = pixel_map_column(img, key, col_order, None);
            let ghost mid = pm;
            let out = pixel_map_row(img, key, row_order, Some(pm));
            assert(column_pass_of(img, key, col_order, None, &mid) && row_pass_of(
                img,
                key,
                row_order,
                Some(mid),
                &out,
            ));
            out
        },
        SortBy::Nothing => {
            proof {
                img.lemma_size_fits();
            }
            let out = identity_grid(img.width() as usize, img.height() as usize);
            proof {
                lemma_identity_grid_bijective(&out, img.spec_width() as int, img.spec_height() as int);
            }
            out
        },
    }
}

/// `after` is `before` sorted along the axes `dir` without a grid: rows in
/// the direction `row_order`, columns in the direction `col_order`, one
/// axis after the other where `dir` names two.
pub open spec fn directly_sorted(
    before: &Image,
    after: &Image,
    dir: SortBy,
    key: SortKey,
    row_order: SortOrder,
    col_order: SortOrder,
) -> bool {
    match dir {
        SortBy::Row => rows_sorted(before, after, key, row_order),
        SortBy::Column => columns_sorted(before, after, key, col_order),
        SortBy::RowCol => exists|mid: Image| #[trigger]
            rows_sorted(before, &mid, key, row_order) && columns_sorted(&mid, after, key, col_order),
        SortBy::ColRow => exists|mid: Image| #[trigger]
            columns_sorted(before, &mid, key, col_order) && rows_sorted(&mid, after, key, row_order),
        SortBy::Nothing => after@ == before@,
    }
}

/// Through a grid that is a bijection on the rectangle of the image, every
/// pixel is scattered to the coordinate that its cell holds; none is
/// overwritten and none is left blank.
pub proof fn lemma_scattered_through_bijection(img: &Image, grid: &ImgGrid, out: &Image)
    requires
        scattered(img, grid, out),
        is_bijective_grid(grid),
        grid.spec_width() == img.spec_width(),
        grid.spec_height() == img.spec_height(),
    ensures
        forall|x: int, y: int|
            grid.has_cell(x, y) ==> out.at((#[trigger] grid.at(x, y)).0 as int, grid.at(x, y).1 as int)
                == img.at(x, y),
{
    assert forall|x: int, y: int| grid.has_cell(x, y) implies !overwritten(grid, x, y) by {
        if overwritten(grid, x, y) {
            let (x2, y2) = choose|x2: int, y2: int|
                grid.has_cell(x2, y2) && cell_before(x, y, x2, y2) && cell_before(
                    x2,
                    y2,
                    0,
                    grid.spec_height() as int,
                ) && #[trigger] grid.at(x2, y2) == grid.at(x, y);
            assert(x2 == x && y2 == y);
        }
    }
}

/// Sorts `img` along the axes `dir` without building a grid.
pub fn pixel_sort(img: &Image, dir: SortBy, key: SortKey, row_order: SortOrder, col_order: SortOrder) -> (out:
    Image)
    requires
        img.wf(),
    ensures
        out.wf(),
        out.spec_width() == img.spec_width(),
        out.spec_height() == img.spec_height(),
        directly_sorted(img, &out, dir, key, row_order, col_order),
{
    match dir {
        SortBy::Row => pixel_sort_row(img, key, row_order),
        SortBy::Column => pixel_sort_column(img, key, col_order),
        SortBy::RowCol => {
            let row_sort = pixel_sort_row(img, key, row_order);
            let out = pixel_sort_column(&row_sort, key, col_order);
            assert(rows_sorted(img, &row_sort, key, row_order) && columns_sorted(
                &row_sort,
                &out,
                key,
                col_order,
            ));
            out
        },
        SortBy::ColRow => {
            let col_sort = pixel_sort_column(img, key, col_order);
            let out = pixel_sort_row(&col_sort, key, row_order);
            assert(columns_sorted(img, &col_sort, key, col_order) && rows_sorted(
                &col_sort,
                &out,
                key,
                row_order,
            ));
            out
        },
        SortBy::Nothing => {
            let px_map = pixel_map(img, SortBy::Nothing, key, row_order, col_order);
            let out = pixel_gather(img, &px_map);
            proof {
                lemma_same_pixels_same_view(&out, img);
            }
            out
        },
    }
}

/// The two kinds of rendering.
#[derive(Debug, PartialEq, Eq, Clone, Copy, Structural)]
pub enum DrawType {
    /// The sort image itself is sorted.
    Sort,
    /// The pixels of the second image are scattered through the grid of
    /// the sort image.
    Unsort,
}

/// What a rendering yields, given the second image already resampled to
/// the size of the sort image. A sort is the direct sort of the sort image
/// along `dir`. An unsort scatters a source image through the grid of the
/// sort image; the source is the resampled image, sorted along `dir` first
/// where `pre_sort` is set.
pub open spec fn drawn(
    sort_image: &Image,
    resampled: &Image,
    out: &Image,
    dir: SortBy,
    key: SortKey,
    draw_type: DrawType,
    row_order: SortOrder,
    col_order: SortOrder,
    pre_sort: bool,
) -> bool {
    match draw_type {
        DrawType::Sort => directly_sorted(sort_image, out, dir, key, row_order, col_order),
        DrawType::Unsort => exists|source: Image, grid: ImgGrid|
            {
                &&& if pre_sort {
                    directly_sorted(resampled, &source, dir, key, row_order, col_order)
                } else {
                    source@ == resampled@
                }
                &&& grid_built(sort_image, dir, key, row_order, col_order, &grid)
                &&& #[trigger] scattered(&source, &grid, out)
            },
    }
}

/// Renders from the sort image and a second image that has the size of the
/// sort image already.
pub fn draw_resampled(
    sort_image: &Image,
    resampled: Image,
    dir: SortBy,
    key: SortKey,
    draw_type: DrawType,
    row_sort_order: SortOrder,
    col_sort_order: SortOrder,
    pre_sort: bool,
) -> (out: Image)
    requires
        sort_image.wf(),
        resampled.wf(),
        resampled.spec_width() == sort_image.spec_width(),
        resampled.spec_height() == sort_image.spec_height(),
    ensures
        out.wf(),
        out.spec_width() == sort_image.spec_width(),
        out.spec_height() == sort_image.spec_height(),
        drawn(sort_image, &resampled, &out, dir, key, draw_type, row_sort_order, col_sort_order, pre_sort),
        dir == SortBy::Nothing && draw_type == DrawType::Sort ==> out@ == sort_image@,
        dir == SortBy::Nothing && draw_type == DrawType::Unsort ==> out@ == resampled@,
{
    match draw_type {
        DrawType::Sort => pixel_sort(sort_image, dir, key, row_sort_order, col_sort_order),
        DrawType::Unsort => {
            let source = if pre_sort {
                pixel_sort(&resampled, dir, key, row_sort_order, col_sort_order)
            } else {
                resampled
            };
            let px_map = pixel_map(sort_image, dir, key, row_sort_order, col_sort_order);
            proof {
                lemma_bijective_grid_within(&px_map, &source);
            }
            let out = pixel_unsort(&source, &px_map);
            proof {
                if dir == SortBy::Nothing {
                    lemma_scattered_through_bijection(&source, &px_map, &out);
                    assert forall|x: int, y: int| out.has_pixel(x, y) implies #[trigger] out.at(x, y)
                        == source.at(x, y) by {
                        assert(px_map.at(x, y) == (x as usize, y as usize));
                    }
                    lemma_same_pixels_same_view(&out, &source);
                }
            }
            out
        },
    }
}

/// Renders from two images of any size. For an unsort the second image is
/// resampled to the size of the sort image, and the rendering goes on from
/// there; a sort does not look at the second image.
pub fn draw(
    sort_image: &Image,
    unsort_image: &Image,
    dir: SortBy,
    key: SortKey,
    draw_type: DrawType,
    row_sort_order: SortOrder,
    col_sort_order: SortOrder,
    pre_sort: bool,
) -> (out: Image)
    requires
        sort_image.wf(),
        unsort_image.wf(),
        draw_type == DrawType::Unsort && needs_resampler(
            unsort_image.spec_width(),
            unsort_image.spec_height(),
            sort_image.spec_width(),
            sort_image.spec_height(),
        ) ==> resample_fits(
            unsort_image.spec_width(),
            unsort_image.spec_height(),
            sort_image.spec_width(),
            sort_image.spec_height(),
        ),
    ensures
        out.wf(),
        out.spec_width() == sort_image.spec_width(),
        out.spec_height() == sort_image.spec_height(),
        draw_type == DrawType::Sort ==> directly_sorted(
            sort_image,
            &out,
            dir,
            key,
            row_sort_order,
            col_sort_order,
        ),
        draw_type == DrawType::Unsort ==> exists|resampled: Image|
            {
                &&& resampled.wf()
                &&& resampled.spec_width() == sort_image.spec_width()
                &&& resampled.spec_height() == sort_image.spec_height()
                &&& resampled.bytes() == resampled_bytes(
                    unsort_image.spec_width(),
                    unsort_image.spec_height(),
                    unsort_image.bytes(),
                    sort_image.spec_width(),
                    sort_image.spec_height(),
                )
                &&& #[trigger] drawn(
                    sort_image,
                    &resampled,
                    &out,
                    dir,
                    key,
                    draw_type,
                    row_sort_order,
                    col_sort_order,
                    pre_sort,
                )
            },
        dir == SortBy::Nothing && draw_type == DrawType::Sort ==> out@ == sort_image@,
        dir == SortBy::Nothing && draw_type == DrawType::Unsort ==> out.bytes() == resampled_bytes(
            unsort_image.spec_width(),
            unsort_image.spec_height(),
            unsort_image.bytes(),
            sort_image.spec_width(),
            sort_image.spec_height(),
        ),
        dir == SortBy::Nothing && draw_type == DrawType::Unsort && unsort_image.spec_width()
            == sort_image.spec_width() && unsort_image.spec_height() == sort_image.spec_height() ==> out@
            == unsort_image@,
{
    match draw_type {
        DrawType::Sort => pixel_sort(sort_image, dir, key, row_sort_order, col_sort_order),
        DrawType::Unsort => {
            proof {
                sort_image.lemma_size_fits();
            }
            let resampled = unsort_image.resize_exact(sort_image.width(), sort_image.height());
            let ghost given = resampled;
            let out = draw_resampled(
                sort_image,
                resampled,
                dir,
                key,
                draw_type,
                row_sort_order,
                col_sort_order,
                pre_sort,
            );
            proof {
                if dir == SortBy::Nothing {
                    lemma_same_view_same_bytes(&out, &given);
                }
            }
            assert(drawn(
                sort_image,
                &given,
                &out,
                dir,
                key,
                draw_type,
                row_sort_order,
                col_sort_order,
                pre_sort,
            ));
            out
        },
    }
}

} // verus!
