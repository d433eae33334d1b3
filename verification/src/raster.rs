//! RGBA images held as a flat byte buffer, and the whole-image operations
//! that are handed to the `image` crate: quarter turns and resampling.

use crate::matrix::cell_index;
use crate::matrix::lemma_cell_index_bounds;
use crate::matrix::lemma_cell_index_order;
use crate::pixel::Pixel;
use image::imageops::FilterType;
use image::ImageBuffer;
use image::Rgba;
use vstd::arithmetic::div_mod::lemma_fundamental_div_mod;
use vstd::prelude::*;

verus! {

/// The pixel at `(x, y)` of a row-major RGBA byte buffer that is `width`
/// pixels wide: four bytes, red first.
pub open spec fn pixel_in(data: Seq<u8>, width: int, x: int, y: int) -> Pixel {
    let i = 4 * cell_index(width, x, y);
    Pixel { r: data[i], g: data[i + 1], b: data[i + 2], a: data[i + 3] }
}

/// The length of the byte buffer of a `width` by `height` image.
pub open spec fn buffer_len(width: int, height: int) -> int {
    4 * (width * height)
}

/// The byte buffer of a `width` by `height` image whose every channel is
/// zero.
pub open spec fn blank_bytes(width: int, height: int) -> Seq<u8> {
    Seq::new(buffer_len(width, height) as nat, |i: int| 0u8)
}

/// The largest width or height that is handed to the resampler. The
/// resampler finds its sample positions in single precision, which holds
/// every half pixel up to this size exactly.
pub const MAX_RESAMPLED_SIDE: u32 = 4194304;

/// The bytes that `image::imageops::resize` with the Catmull-Rom filter
/// returns for the RGBA image of `width` by `height` pixels over `data`,
/// asked for `new_width` by `new_height` pixels.
pub uninterp spec fn resampled_catmull_rom(
    width: u32,
    height: u32,
    data: Seq<u8>,
    new_width: u32,
    new_height: u32,
) -> Seq<u8>;

/// A resampling from `width` by `height` to `new_width` by `new_height`
/// pixels has work for the resampler: the size changes, and neither image
/// is empty.
pub open spec fn needs_resampler(width: u32, height: u32, new_width: u32, new_height: u32) -> bool {
    &&& new_width != width || new_height != height
    &&& width > 0 && height > 0 && new_width > 0 && new_height > 0
}

/// The bytes of an image resampled to `new_width` by `new_height` pixels.
/// An image that has that size already stays as it is; an empty image
/// gives a blank one, and so does every image resampled to nothing; all
/// other images go through the resampler.
pub open spec fn resampled_bytes(
    width: u32,
    height: u32,
    data: Seq<u8>,
    new_width: u32,
    new_height: u32,
) -> Seq<u8> {
    if new_width == width && new_height == height {
        data
    } else if needs_resampler(width, height, new_width, new_height) {
        resampled_catmull_rom(width, height, data, new_width, new_height)
    } else {
        blank_bytes(new_width as int, new_height as int)
    }
}

/// The machine can carry a resampling from `width` by `height` to
/// `new_width` by `new_height` pixels out. An image that has the wanted
/// size already asks for nothing. Where the resampler is needed, no side
/// is beyond what it handles, and its two buffers, one of floats in
/// between and the result, fit into a vector. A blank result fits into
/// the address space.
pub open spec fn resample_fits(width: u32, height: u32, new_width: u32, new_height: u32) -> bool {
    if new_width == width && new_height == height {
        true
    } else if needs_resampler(width, height, new_width, new_height) {
        &&& width <= MAX_RESAMPLED_SIDE
        &&& height <= MAX_RESAMPLED_SIDE
        &&& new_width <= MAX_RESAMPLED_SIDE
        &&& new_height <= MAX_RESAMPLED_SIDE
        &&& 4 * buffer_len(width as int, new_height as int) <= isize::MAX
        &&& buffer_len(new_width as int, new_height as int) <= isize::MAX
    } else {
        buffer_len(new_width as int, new_height as int) <= usize::MAX
    }
}

/// Tells whether the machine can carry a resampling from `width` by
/// `height` to `new_width` by `new_height` pixels out.
pub fn fits_resampling(width: u32, height: u32, new_width: u32, new_height: u32) -> (ok: bool)
    ensures
        ok == resample_fits(width, height, new_width, new_height),
{
    assert(0 <= new_width * new_height <= 0xffff_ffff * 0xffff_ffff && 0 <= width * new_height
        <= 0xffff_ffff * 0xffff_ffff) by (nonlinear_arith)
        requires
            0 <= width <= 0xffff_ffff,
            0 <= new_width <= 0xffff_ffff,
            0 <= new_height <= 0xffff_ffff,
    ;
    let result: u128 = 4 * ((new_width as u128) * (new_height as u128));
    let between: u128 = 16 * ((width as u128) * (new_height as u128));
    if new_width == width && new_height == height {
        true
    } else if width > 0 && height > 0 && new_width > 0 && new_height > 0 {
        width <= MAX_RESAMPLED_SIDE && height <= MAX_RESAMPLED_SIDE && new_width <= MAX_RESAMPLED_SIDE
            && new_height <= MAX_RESAMPLED_SIDE && between <= isize::MAX as u128 && result
            <= isize::MAX as u128
    } else {
        result <= usize::MAX as u128
    }
}

/// What an image is: its size and its pixels, row by row, each row from
/// left to right.
pub struct ImageView {
    pub width: nat,
    pub height: nat,
    pub rows: Seq<Seq<Pixel>>,
}

/// A rectangular RGBA image. Pixel `(x, y)` lies in column `x` of row `y`;
/// the origin is the top left corner.
#[derive(Debug)]
pub struct Image {
    width: u32,
    height: u32,
    data: Vec<u8>,
}

impl View for Image {
    type V = ImageView;

    open spec fn view(&self) -> ImageView {
        ImageView {
            width: self.spec_width() as nat,
            height: self.spec_height() as nat,
            rows: Seq::new(self.spec_height() as nat, |y: int| self.row_seq(y)),
        }
    }
}

impl Image {
    /// The buffer holds exactly four bytes for each pixel.
    pub closed spec fn wf(&self) -> bool {
        &&& self.data@.len() == buffer_len(self.width as int, self.height as int)
        &&& self.data@.len() <= usize::MAX
    }

    /// The number of pixels in a row.
    pub closed spec fn spec_width(&self) -> u32 {
        self.width
    }

    /// The number of rows.
    pub closed spec fn spec_height(&self) -> u32 {
        self.height
    }

    /// The buffer of the image: its pixels row by row, four bytes each.
    pub closed spec fn bytes(&self) -> Seq<u8> {
        self.data@
    }

    /// The pixel at `(x, y)`.
    pub closed spec fn at(&self, x: int, y: int) -> Pixel {
        pixel_in(self.data@, self.width as int, x, y)
    }

    /// `(x, y)` names a pixel of this image.
    pub open spec fn has_pixel(&self, x: int, y: int) -> bool {
        0 <= x < self.spec_width() && 0 <= y < self.spec_height()
    }

    /// Row `y`, from left to right.
    pub open spec fn row_seq(&self, y: int) -> Seq<Pixel> {
        Seq::new(self.spec_width() as nat, |x: int| self.at(x, y))
    }

    /// Column `x`, from top to bottom.
    pub open spec fn column_seq(&self, x: int) -> Seq<Pixel> {
        Seq::new(self.spec_height() as nat, |y: int| self.at(x, y))
    }

    /// The pixels of an image are those of its buffer, and the buffer of a
    /// well-formed image holds four bytes for each pixel.
    pub proof fn lemma_pixels_from_bytes(&self)
        ensures
            forall|x: int, y: int|
                #[trigger] self.at(x, y) == pixel_in(self.bytes(), self.spec_width() as int, x, y),
            self.wf() ==> self.bytes().len() == buffer_len(
                self.spec_width() as int,
                self.spec_height() as int,
            ),
    {
    }

    /// A well-formed image leaves room for its buffer in the address
    /// space.
    pub proof fn lemma_size_fits(&self)
        requires
            self.wf(),
        ensures
            buffer_len(self.spec_width() as int, self.spec_height() as int) <= usize::MAX,
            0 <= self.spec_width() * self.spec_height() <= usize::MAX,
    {
        let w = self.width as int;
        let h = self.height as int;
        assert(0 <= w * h) by (nonlinear_arith)
            requires
                0 <= w,
                0 <= h,
        ;
    }

    /// The number of pixels in a row.
    #[verifier::when_used_as_spec(spec_width)]
    pub fn width(&self) -> (w: u32)
        ensures
            w == self.spec_width(),
    {
        self.width
    }

    /// The number of rows.
    #[verifier::when_used_as_spec(spec_height)]
    pub fn height(&self) -> (h: u32)
        ensures
            h == self.spec_height(),
    {
        self.height
    }

    /// An image of the given size over `data`, which must hold the pixels
    /// row by row, four bytes each. A buffer of any other length is
    /// turned down.
    pub fn from_raw(width: u32, height: u32, data: Vec<u8>) -> (r: Option<Image>)
        ensures
            r.is_some() <==> data@.len() == buffer_len(width as int, height as int),
            r matches Some(img) ==> {
                &&& img.wf()
                &&& img.spec_width() == width
                &&& img.spec_height() == height
                &&& img.bytes() == data@
                &&& forall|x: int, y: int|
                    img.has_pixel(x, y) ==> #[trigger] img.at(x, y) == pixel_in(data@, width as int, x, y)
            },
    {
        assert(0 <= width * height <= 0xffff_ffff * 0xffff_ffff) by (nonlinear_arith)
            requires
                0 <= width <= 0xffff_ffff,
                0 <= height <= 0xffff_ffff,
        ;
        let pixels: u128 = (width as u128) * (height as u128);
        let need: u128 = 4 * pixels;
        if data.len() as u128 == need {
            Some(Image { width, height, data })
        } else {
            None
        }
    }

    /// An image of the given size, every channel of every pixel zero.
    pub fn new(width: u32, height: u32) -> (img: Image)
        requires
            buffer_len(width as int, height as int) <= usize::MAX,
        ensures
            img.wf(),
            img.spec_width() == width,
            img.spec_height() == height,
            img.bytes() == blank_bytes(width as int, height as int),
            forall|x: int, y: int|
                img.has_pixel(x, y) ==> #[trigger] img.at(x, y) == (Pixel { r: 0, g: 0, b: 0, a: 0 }),
    {
        proof {
            let w = width as int;
            let h = height as int;
            assert(0 <= w * h) by (nonlinear_arith)
                requires
                    0 <= w,
                    0 <= h,
            ;
        }
        let pixels: usize = (width as usize) * (height as usize);
        let n: usize = 4 * pixels;
        let mut data: Vec<u8> = Vec::with_capacity(n);
        let mut i: usize = 0;
        while i < n
            invariant
                i <= n,
                data@.len() == i,
                forall|k: int| 0 <= k < i ==> #[trigger] data@[k] == 0,
            decreases n - i,
        {
            data.push(0);
            i = i + 1;
        }
        let img = Image { width, height, data };
        proof {
            assert(img.bytes() =~= blank_bytes(width as int, height as int));
            assert forall|x: int, y: int| img.has_pixel(x, y) implies #[trigger] img.at(x, y) == (Pixel {
                r: 0,
                g: 0,
                b: 0,
                a: 0,
            }) by {
                lemma_cell_index_bounds(width as int, height as int, x, y);
            }
        }
        img
    }

    /// The buffer of the image: its pixels row by row, four bytes each.
    pub fn into_raw(self) -> (data: Vec<u8>)
        requires
            self.wf(),
        ensures
            data@ == self.bytes(),
            data@.len() == buffer_len(self.spec_width() as int, self.spec_height() as int),
            forall|x: int, y: int|
                self.has_pixel(x, y) ==> self.at(x, y) == #[trigger] pixel_in(
                    data@,
                    self.spec_width() as int,
                    x,
                    y,
                ),
    {
        self.data
    }

    /// The pixel at `(x, y)`.
    pub fn get_pixel(&self, x: u32, y: u32) -> (p: Pixel)
        requires
            self.wf(),
            self.has_pixel(x as int, y as int),
        ensures
            p == self.at(x as int, y as int),
    {
        proof {
            lemma_cell_index_bounds(self.width as int, self.height as int, x as int, y as int);
        }
        let i: usize = 4 * ((y as usize) * (self.width as usize) + (x as usize));
        Pixel { r: self.data[i], g: self.data[i + 1], b: self.data[i + 2], a: self.data[i + 3] }
    }

    /// Puts `p` at `(x, y)` and leaves every other pixel as it was.
    pub fn put_pixel(&mut self, x: u32, y: u32, p: Pixel)
        requires
            old(self).wf(),
            old(self).has_pixel(x as int, y as int),
        ensures
            final(self).wf(),
            final(self).spec_width() == old(self).spec_width(),
            final(self).spec_height() == old(self).spec_height(),
            final(self).at(x as int, y as int) == p,
            forall|x2: int, y2: int|
                old(self).has_pixel(x2, y2) && (x2 != x || y2 != y) ==> #[trigger] final(self).at(x2, y2)
                    == old(self).at(x2, y2),
    {
        proof {
            lemma_cell_index_bounds(self.width as int, self.height as int, x as int, y as int);
            assert forall|x2: int, y2: int|
                self.has_pixel(x2, y2) && (x2 != x || y2 != y) implies cell_index(self.width as int, x2, y2)
                != cell_index(self.width as int, x as int, y as int) && 0 <= cell_index(
                self.width as int,
                x2,
                y2,
            ) < self.width * self.height by {
                lemma_cell_index_order(self.width as int, x2, y2, x as int, y as int);
                lemma_cell_index_bounds(self.width as int, self.height as int, x2, y2);
            }
        }
        let i: usize = 4 * ((y as usize) * (self.width as usize) + (x as usize));
        self.data.set(i, p.r);
        self.data.set(i + 1, p.g);
        self.data.set(i + 2, p.b);
        self.data.set(i + 3, p.a);
    }

    /// Row `y` as a vector of pixels, from left to right.
    pub fn row(&self, y: u32) -> (r: Vec<Pixel>)
        requires
            self.wf(),
            y < self.spec_height(),
        ensures
            r@ == self.row_seq(y as int),
    {
        let mut r: Vec<Pixel> = Vec::with_capacity(self.width as usize);
        let mut x: u32 = 0;
        while x < self.width
            invariant
                self.wf(),
                y < self.spec_height(),
                x <= self.width,
                r@.len() == x,
                forall|k: int| 0 <= k < x ==> #[trigger] r@[k] == self.at(k, y as int),
            decreases self.width - x,
        {
            r.push(self.get_pixel(x, y));
            x = x + 1;
        }
        assert(r@ =~= self.row_seq(y as int));
        r
    }

    /// The image turned a quarter turn clockwise: the pixel at `(x, y)`
    /// of the result is the one that stood in column `y` of row
    /// `height - 1 - x`.
    pub fn rotate90(&self) -> (out: Image)
        requires
            self.wf(),
        ensures
            out.wf(),
            out.spec_width() == self.spec_height(),
            out.spec_height() == self.spec_width(),
            forall|x: int, y: int|
                out.has_pixel(x, y) ==> #[trigger] out.at(x, y) == self.at(y, self.spec_height() - 1 - x),
    {
        if self.width == 0 || self.height == 0 {
            assert(buffer_len(self.height as int, self.width as int) == 0) by (nonlinear_arith)
                requires
                    self.width == 0 || self.height == 0,
            ;
            return Image::new(self.height, self.width);
        }
        let data = rotate90_raw(self.width, self.height, &self.data);
        let out = Image { width: self.height, height: self.width, data };
        proof {
            let w = self.width as int;
            let h = self.height as int;
            assert(h * w == w * h) by (nonlinear_arith);
            assert forall|x: int, y: int| out.has_pixel(x, y) implies #[trigger] out.at(x, y) == self.at(
                y,
                h - 1 - x,
            ) by {
                assert(pixel_in(self.data@, w, y, h - 1 - x) == pixel_in(out.data@, h, h - 1 - (h - 1 - x), y));
            }
        }
        out
    }

    /// The image turned three quarter turns clockwise: the pixel at
    /// `(x, y)` of the result is the one that stood in column
    /// `width - 1 - y` of row `x`.
    pub fn rotate270(&self) -> (out: Image)
        requires
            self.wf(),
        ensures
            out.wf(),
            out.spec_width() == self.spec_height(),
            out.spec_height() == self.spec_width(),
            forall|x: int, y: int|
                out.has_pixel(x, y) ==> #[trigger] out.at(x, y) == self.at(self.spec_width() - 1 - y, x),
    {
        if self.width == 0 || self.height == 0 {
            assert(buffer_len(self.height as int, self.width as int) == 0) by (nonlinear_arith)
                requires
                    self.width == 0 || self.height == 0,
            ;
            return Image::new(self.height, self.width);
        }
        let data = rotate270_raw(self.width, self.height, &self.data);
        let out = Image { width: self.height, height: self.width, data };
        proof {
            let w = self.width as int;
            let h = self.height as int;
            assert(h * w == w * h) by (nonlinear_arith);
            assert forall|x: int, y: int| out.has_pixel(x, y) implies #[trigger] out.at(x, y) == self.at(
                w - 1 - y,
                x,
            ) by {
                assert(pixel_in(self.data@, w, w - 1 - y, x) == pixel_in(out.data@, h, x, w - 1 - (w - 1 - y)));
            }
        }
        out
    }

    /// The image resampled to `width` by `height` pixels with the
    /// Catmull-Rom filter. An image that has the wanted size already comes
    /// back pixel for pixel, and an empty image, or a resampling to
    /// nothing, gives a blank image without a call of the resampler.
    pub fn resize_exact(&self, width: u32, height: u32) -> (out: Image)
        requires
            self.wf(),
            resample_fits(self.spec_width(), self.spec_height(), width, height),
        ensures
            out.wf(),
            out.spec_width() == width,
            out.spec_height() == height,
            out.bytes() == resampled_bytes(self.spec_width(), self.spec_height(), self.bytes(), width, height),
            width == self.spec_width() && height == self.spec_height() ==> out@ == self@,
    {
        if width == self.width && height == self.height {
            let out = Image { width, height, data: copy_bytes(&self.data) };
            proof {
                lemma_same_pixels_same_view(&out, self);
            }
            out
        } else if self.width == 0 || self.height == 0 || width == 0 || height == 0 {
            Image::new(width, height)
        } else {
            let data = resize_raw(self.width, self.height, &self.data, width, height);
            Image { width, height, data }
        }
    }
}

/// A copy of a byte buffer.
fn copy_bytes(data: &Vec<u8>) -> (out: Vec<u8>)
    ensures
        out@ == data@,
{
    let n: usize = data.len();
    let mut out: Vec<u8> = Vec::with_capacity(n);
    let mut i: usize = 0;
    while i < n
        invariant
            n == data@.len(),
            i <= n,
            out@.len() == i,
            forall|k: int| 0 <= k < i ==> #[trigger] out@[k] == data@[k],
        decreases n - i,
    {
        out.push(data[i]);
        i = i + 1;
    }
    assert(out@ =~= data@);
    out
}

/// Two images of one size that agree at every pixel are the same image.
pub proof fn lemma_same_pixels_same_view(a: &Image, b: &Image)
    requires
        a.spec_width() == b.spec_width(),
        a.spec_height() == b.spec_height(),
        forall|x: int, y: int| a.has_pixel(x, y) ==> #[trigger] a.at(x, y) == b.at(x, y),
    ensures
        a@ == b@,
{
    assert forall|y: int| 0 <= y < a.spec_height() implies #[trigger] a.row_seq(y) == b.row_seq(y) by {
        assert(a.row_seq(y) =~= b.row_seq(y));
    }
    assert(a@.rows =~= b@.rows);
}

/// Images of one size over the same bytes are the same image.
pub proof fn lemma_same_bytes_same_view(a: &Image, b: &Image)
    requires
        a.spec_width() == b.spec_width(),
        a.spec_height() == b.spec_height(),
        a.bytes() == b.bytes(),
    ensures
        a@ == b@,
{
    lemma_same_pixels_same_view(a, b);
}

/// Well-formed images that are the same image lie over the same bytes.
pub proof fn lemma_same_view_same_bytes(a: &Image, b: &Image)
    requires
        a.wf(),
        b.wf(),
        a@ == b@,
    ensures
        a.bytes() == b.bytes(),
{
    lemma_same_view_same_pixels(a, b);
    let w = a.width as int;
    let h = a.height as int;
    assert(a.data@.len() == b.data@.len());
    assert forall|i: int| 0 <= i < a.data@.len() implies a.data@[i] == b.data@[i] by {
        let c = i / 4;
        assert(0 <= c < w * h);
        assert(w > 0) by (nonlinear_arith)
            requires
                0 <= c < w * h,
                0 <= w,
        ;
        let x = c % w;
        let y = c / w;
        lemma_fundamental_div_mod(c, w);
        assert(0 <= y < h) by (nonlinear_arith)
            requires
                c == w * y + x,
                0 <= x < w,
                0 <= c < w * h,
                0 <= h,
        ;
        assert(cell_index(w, x, y) == c) by (nonlinear_arith)
            requires
                c == w * y + x,
                cell_index(w, x, y) == y * w + x,
        ;
        assert(a.has_pixel(x, y));
        assert(a.at(x, y) == b.at(x, y));
    }
    assert(a.data@ =~= b.data@);
}

/// The same image has the same size and the same pixel at every place.
pub proof fn lemma_same_view_same_pixels(a: &Image, b: &Image)
    requires
        a@ == b@,
    ensures
        a.spec_width() == b.spec_width(),
        a.spec_height() == b.spec_height(),
        forall|x: int, y: int| a.has_pixel(x, y) ==> #[trigger] a.at(x, y) == b.at(x, y),
{
    assert forall|x: int, y: int| a.has_pixel(x, y) implies #[trigger] a.at(x, y) == b.at(x, y) by {
        assert(a@.rows[y] == a.row_seq(y));
        assert(b@.rows[y] == b.row_seq(y));
        assert(a.row_seq(y)[x] == b.row_seq(y)[x]);
    }
}

/// Calls `image::imageops::rotate90` on the buffer read as an RGBA image of
/// `width` by `height` pixels. That function makes an image of `height` by
/// `width` pixels and copies the pixel at `(x, y)` to `(height - 1 - y, x)`,
/// for every pixel of its input; the contract says this and is not proved.
/// The image is not empty, so that the length of its buffer, which a
/// vector holds, bounds every product that the call forms of its sides.
#[verifier::external_body]
fn rotate90_raw(width: u32, height: u32, data: &Vec<u8>) -> (out: Vec<u8>)
    requires
        width > 0,
        height > 0,
        data@.len() == buffer_len(width as int, height as int),
    ensures
        out@.len() == data@.len(),
        forall|x: int, y: int|
            0 <= x < width && 0 <= y < height ==> pixel_in(out@, height as int, height - 1 - y, x)
                == #[trigger] pixel_in(data@, width as int, x, y),
{
    let src = ImageBuffer::<Rgba<u8>, &[u8]>::from_raw(width, height, data.as_slice()).unwrap();
    image::imageops::rotate90(&src).into_raw()
}

/// Calls `image::imageops::rotate270` on the buffer read as an RGBA image
/// of `width` by `height` pixels. That function makes an image of `height`
/// by `width` pixels and copies the pixel at `(x, y)` to
/// `(y, width - 1 - x)`, for every pixel of its input; the contract says
/// this and is not proved. The image is not empty, so that the length of
/// its buffer, which a vector holds, bounds every product that the call
/// forms of its sides.
#[verifier::external_body]
fn rotate270_raw(width: u32, height: u32, data: &Vec<u8>) -> (out: Vec<u8>)
    requires
        width > 0,
        height > 0,
        data@.len() == buffer_len(width as int, height as int),
    ensures
        out@.len() == data@.len(),
        forall|x: int, y: int|
            0 <= x < width && 0 <= y < height ==> pixel_in(out@, height as int, y, width - 1 - x)
                == #[trigger] pixel_in(data@, width as int, x, y),
{
    let src = ImageBuffer::<Rgba<u8>, &[u8]>::from_raw(width, height, data.as_slice()).unwrap();
    image::imageops::rotate270(&src).into_raw()
}

/// Calls `image::imageops::resize` with the Catmull-Rom filter on the
/// buffer read as an RGBA image of `width` by `height` pixels. The contract
/// claims of it, unproved: the result has the size asked for, and it is a
/// function of the image and the size asked for, which is given a name.
/// The preconditions leave out what the call cannot take: an empty image
/// on either side, a side beyond `MAX_RESAMPLED_SIDE`, where the sample
/// positions lose their half pixel in single precision and the weights of
/// an output column can add up to nothing, and buffers (one of
/// `4 * width * new_height` floats in between) that no vector can hold.
#[verifier::external_body]
fn resize_raw(width: u32, height: u32, data: &Vec<u8>, new_width: u32, new_height: u32) -> (out: Vec<u8>)
    requires
        0 < width <= MAX_RESAMPLED_SIDE,
        0 < height <= MAX_RESAMPLED_SIDE,
        0 < new_width <= MAX_RESAMPLED_SIDE,
        0 < new_height <= MAX_RESAMPLED_SIDE,
        data@.len() == buffer_len(width as int, height as int),
        4 * buffer_len(width as int, new_height as int) <= isize::MAX,
        buffer_len(new_width as int, new_height as int) <= isize::MAX,
    ensures
        out@.len() == buffer_len(new_width as int, new_height as int),
        out@ == resampled_catmull_rom(width, height, data@, new_width, new_height),
{
    let src = ImageBuffer::<Rgba<u8>, &[u8]>::from_raw(width, height, data.as_slice()).unwrap();
    image::imageops::resize(&src, new_width, new_height, FilterType::CatmullRom).into_raw()
}

} // verus!
