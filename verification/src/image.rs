//! Image buffers: a fixed grid of pixels with addressed reads and writes.

use vstd::prelude::*;
use crate::color::Pixel;

verus! {

/// The mathematical model of an image: `height` rows of `width` pixels.
pub struct Raster {
    pub width: nat,
    pub height: nat,
    pub rows: Seq<Seq<Pixel>>,
}

impl Raster {
    /// Every row is there and has the full width.
    pub open spec fn wf(self) -> bool {
        &&& self.rows.len() == self.height
        &&& forall|y: int| 0 <= y < self.height ==> (#[trigger] self.rows[y]).len() == self.width
    }

    /// Whether `(x, y)` addresses a pixel of the image.
    pub open spec fn contains(self, x: int, y: int) -> bool {
        0 <= x < self.width && 0 <= y < self.height
    }

    /// The pixel in column `x` of row `y`.
    pub open spec fn at(self, x: int, y: int) -> Pixel {
        self.rows[y][x]
    }

    /// An image of one colour.
    pub open spec fn filled(width: nat, height: nat, fill: Pixel) -> Raster {
        Raster { width, height, rows: Seq::new(height, |y: int| Seq::new(width, |x: int| fill)) }
    }

    /// The image whose rows lie one after another in `pixels`.
    pub open spec fn from_row_major(width: nat, height: nat, pixels: Seq<Pixel>) -> Raster {
        Raster {
            width,
            height,
            rows: Seq::new(height, |y: int| Seq::new(width, |x: int| pixels[y * width + x])),
        }
    }

    /// The image with the pixel at `(x, y)` replaced by `p`.
    pub open spec fn with_pixel(self, x: int, y: int, p: Pixel) -> Raster {
        Raster {
            width: self.width,
            height: self.height,
            rows: self.rows.update(y, self.rows[y].update(x, p)),
        }
    }

    /// Whether two images have the same width and height.
    pub open spec fn same_size(self, other: Raster) -> bool {
        self.width == other.width && self.height == other.height
    }

    /// The pixels of the image, row after row, as bytes: red, green, blue
    /// and alpha of the first pixel, then of the second, and so on.
    pub open spec fn rgba(self) -> Seq<u8> {
        Seq::new(
            4 * self.width * self.height,
            |i: int|
                {
                    let p = self.at((i / 4) % (self.width as int), (i / 4) / (self.width as int));
                    if i % 4 == 0 {
                        p.r
                    } else if i % 4 == 1 {
                        p.g
                    } else if i % 4 == 2 {
                        p.b
                    } else {
                        p.a
                    }
                },
        )
    }
}

/// The pixel that four bytes starting at `4 * i` describe.
pub open spec fn pixel_of_bytes(bytes: Seq<u8>, i: int) -> Pixel {
    Pixel { r: bytes[4 * i], g: bytes[4 * i + 1], b: bytes[4 * i + 2], a: bytes[4 * i + 3] }
}

/// A position inside a grid has an index inside its row-major storage.
pub proof fn lemma_cell_index(x: int, y: int, width: int, height: int)
    requires
        0 <= x < width,
        0 <= y < height,
    ensures
        0 <= y * width + x < width * height,
        y * width + x <= (height - 1) * width + (width - 1),
        (y * width + x) / width == y,
        (y * width + x) % width == x,
{
    assert(0 <= y * width && y * width + width <= height * width && height * width == width
        * height && (height - 1) * width == height * width - width) by (nonlinear_arith)
        requires
            0 <= y < height,
            0 < width,
    ;
    vstd::arithmetic::div_mod::lemma_fundamental_div_mod_converse(y * width + x, width, y, x);
}

/// Two different positions have different row-major indices.
pub proof fn lemma_cell_index_injective(x1: int, y1: int, x2: int, y2: int, width: int)
    requires
        0 <= x1 < width,
        0 <= x2 < width,
        0 <= y1,
        0 <= y2,
        y1 * width + x1 == y2 * width + x2,
    ensures
        x1 == x2,
        y1 == y2,
{
    vstd::arithmetic::div_mod::lemma_fundamental_div_mod_converse(
        y1 * width + x1,
        width,
        y1,
        x1,
    );
    vstd::arithmetic::div_mod::lemma_fundamental_div_mod_converse(
        y2 * width + x2,
        width,
        y2,
        x2,
    );
}

/// An addressable grid of RGBA pixels of fixed width and height that owns its
/// storage.
#[derive(Debug)]
pub struct ImageBuffer {
    width: u16,
    height: u16,
    pixels: Vec<Pixel>,
}

impl View for ImageBuffer {
    type V = Raster;

    closed spec fn view(&self) -> Raster {
        Raster::from_row_major(self.width as nat, self.height as nat, self.pixels@)
    }
}

impl Clone for ImageBuffer {
    /// A copy with the same size and the same pixels.
    fn clone(&self) -> (res: Self)
        ensures
            res@ == self@,
            self.wf() ==> res.wf(),
    {
        let mut pixels: Vec<Pixel> = Vec::new();
        let mut i: usize = 0;
        while i < self.pixels.len()
            invariant
                i <= self.pixels@.len(),
                pixels@ == self.pixels@.take(i as int),
            decreases self.pixels@.len() - i,
        {
            pixels.push(self.pixels[i]);
            assert(pixels@ == self.pixels@.take(i + 1));
            i += 1;
        }
        assert(pixels@ == self.pixels@);
        ImageBuffer { width: self.width, height: self.height, pixels }
    }
}

impl ImageBuffer {
    /// The storage holds exactly one pixel for each position.
    pub closed spec fn well_sized(&self) -> bool {
        self.pixels@.len() == self.width * self.height
    }

    /// The invariant of an image buffer.
    pub open spec fn wf(&self) -> bool {
        &&& self.well_sized()
        &&& self@.wf()
        &&& self@.width <= u16::MAX
        &&& self@.height <= u16::MAX
    }

    /// Creates an image of the given size in which every pixel is `fill`.
    pub fn new(width: u16, height: u16, fill: Pixel) -> (img: ImageBuffer)
        ensures
            img.wf(),
            img@ == Raster::filled(width as nat, height as nat, fill),
    {
        assert(width * height <= 0xffff * 0xffff) by (nonlinear_arith)
            requires
                0 <= width <= 0xffff,
                0 <= height <= 0xffff,
        ;
        let count: usize = width as usize * height as usize;
        let mut pixels: Vec<Pixel> = Vec::new();
        let mut i: usize = 0;
        while i < count
            invariant
                i <= count,
                pixels@.len() == i,
                forall|k: int| 0 <= k < i ==> pixels@[k] == fill,
            decreases count - i,
        {
            pixels.push(fill);
            i += 1;
        }
        let img = ImageBuffer { width, height, pixels };
        proof {
            assert forall|y: int| 0 <= y < height implies #[trigger] img@.rows[y] == Raster::filled(
                width as nat,
                height as nat,
                fill,
            ).rows[y] by {
                assert forall|x: int| 0 <= x < width implies img@.rows[y][x] == fill by {
                    lemma_cell_index(x, y, width as int, height as int);
                }
                assert(img@.rows[y] =~= Raster::filled(width as nat, height as nat, fill).rows[y]);
            }
            assert(img@.rows =~= Raster::filled(width as nat, height as nat, fill).rows);
        }
        img
    }

    /// Takes over pixels that lie row after row. The result is `None` unless
    /// there is exactly one pixel for each position.
    pub fn from_pixels(width: u16, height: u16, pixels: Vec<Pixel>) -> (res: Option<ImageBuffer>)
        ensures
            res is Some <==> pixels@.len() == width * height,
            res matches Some(img) ==> img.wf() && img@ == Raster::from_row_major(
                width as nat,
                height as nat,
                pixels@,
            ),
    {
        assert(width * height <= 0xffff * 0xffff) by (nonlinear_arith)
            requires
                0 <= width <= 0xffff,
                0 <= height <= 0xffff,
        ;
        if pixels.len() == width as usize * height as usize {
            Some(ImageBuffer { width, height, pixels })
        } else {
            None
        }
    }

    /// Reads an image from RGBA bytes: four bytes for each pixel, row after
    /// row. The result is `None` unless there are exactly four bytes for each
    /// position.
    pub fn from_rgba(width: u16, height: u16, bytes: &Vec<u8>) -> (res: Option<ImageBuffer>)
        ensures
            res is Some <==> bytes@.len() == 4 * (width * height),
            res matches Some(img) ==> img.wf() && img@ == Raster::from_row_major(
                width as nat,
                height as nat,
                Seq::new((width * height) as nat, |i: int| pixel_of_bytes(bytes@, i)),
            ),
    {
        assert(width * height <= 0xffff * 0xffff) by (nonlinear_arith)
            requires
                0 <= width <= 0xffff,
                0 <= height <= 0xffff,
        ;
        let count: usize = width as usize * height as usize;
        if bytes.len() / 4 != count || bytes.len() % 4 != 0 {
            return None;
        }
        let mut pixels: Vec<Pixel> = Vec::new();
        let mut i: usize = 0;
        while i < count
            invariant
                i <= count,
                bytes@.len() == 4 * count,
                4 * count <= usize::MAX,
                pixels@.len() == i,
                forall|k: int| 0 <= k < i ==> pixels@[k] == pixel_of_bytes(bytes@, k),
            decreases count - i,
        {
            pixels.push(
                Pixel {
                    r: bytes[4 * i],
                    g: bytes[4 * i + 1],
                    b: bytes[4 * i + 2],
                    a: bytes[4 * i + 3],
                },
            );
            i += 1;
        }
        assert(pixels@ =~= Seq::new((width * height) as nat, |i: int| pixel_of_bytes(bytes@, i)));
        Some(ImageBuffer { width, height, pixels })
    }

    /// Writes the image out as RGBA bytes: four bytes for each pixel, row
    /// after row.
    pub fn to_rgba(&self) -> (bytes: Vec<u8>)
        requires
            self.wf(),
        ensures
            bytes@ == self@.rgba(),
    {
        let mut bytes: Vec<u8> = Vec::new();
        let mut i: usize = 0;
        while i < self.pixels.len()
            invariant
                i <= self.pixels@.len(),
                bytes@.len() == 4 * i,
                forall|k: int|
                    0 <= k < i ==> pixel_of_bytes(bytes@, k) == #[trigger] self.pixels@[k],
            decreases self.pixels@.len() - i,
        {
            let p = self.pixels[i];
            let ghost before = bytes@;
            bytes.push(p.r);
            bytes.push(p.g);
            bytes.push(p.b);
            bytes.push(p.a);
            assert forall|k: int| 0 <= k < i + 1 implies pixel_of_bytes(bytes@, k)
                == #[trigger] self.pixels@[k] by {
                if k < i {
                    assert(pixel_of_bytes(before, k) == self.pixels@[k]);
                }
            }
            i += 1;
        }
        proof {
            let w = self.width as int;
            let h = self.height as int;
            assert(self@.rgba().len() == 4 * (w * h)) by (nonlinear_arith)
                requires
                    self@.rgba().len() == 4 * w * h,
            ;
            assert forall|j: int| 0 <= j < bytes@.len() implies bytes@[j] == self@.rgba()[j] by {
                let k = j / 4;
                assert(0 <= k < w * h);
                assert(w > 0) by (nonlinear_arith)
                    requires
                        0 <= k < w * h,
                        0 <= w,
                ;
                let x = k % w;
                let y = k / w;
                vstd::arithmetic::div_mod::lemma_fundamental_div_mod(k, w);
                assert(y < h) by (nonlinear_arith)
                    requires
                        k == w * y + x,
                        0 <= x,
                        k < w * h,
                        0 < w,
                ;
                assert(0 <= y) by (nonlinear_arith)
                    requires
                        y == k / w,
                        0 <= k,
                        0 < w,
                ;
                assert(w * y == y * w) by (nonlinear_arith);
                assert(self@.at(x, y) == self.pixels@[k]);
                assert(pixel_of_bytes(bytes@, k) == self.pixels@[k]);
            }
            assert(bytes@ =~= self@.rgba());
        }
        bytes
    }

    /// The number of columns.
    pub fn width(&self) -> (w: u16)
        ensures
            w == self@.width,
    {
        self.width
    }

    /// The number of rows.
    pub fn height(&self) -> (h: u16)
        ensures
            h == self@.height,
    {
        self.height
    }

    /// The pixel in column `x` of row `y`.
    pub fn get_pixel(&self, x: u32, y: u32) -> (p: Pixel)
        requires
            self.wf(),
            self@.contains(x as int, y as int),
        ensures
            p == self@.at(x as int, y as int),
    {
        proof {
            lemma_cell_index(x as int, y as int, self.width as int, self.height as int);
            assert((self.height - 1) * self.width + (self.width - 1) <= 0xffff * 0xffff)
                by (nonlinear_arith)
                requires
                    0 < self.width <= 0xffff,
                    0 < self.height <= 0xffff,
            ;
        }
        self.pixels[y as usize * self.width as usize + x as usize]
    }

    /// Replaces the pixel in column `x` of row `y` by `p`.
    pub fn set_pixel(&mut self, x: u32, y: u32, p: Pixel)
        requires
            old(self).wf(),
            old(self)@.contains(x as int, y as int),
        ensures
            final(self).wf(),
            final(self)@ == old(self)@.with_pixel(x as int, y as int, p),
    {
        proof {
            lemma_cell_index(x as int, y as int, self.width as int, self.height as int);
            assert((self.height - 1) * self.width + (self.width - 1) <= 0xffff * 0xffff)
                by (nonlinear_arith)
                requires
                    0 < self.width <= 0xffff,
                    0 < self.height <= 0xffff,
            ;
        }
        let i: usize = y as usize * self.width as usize + x as usize;
        self.pixels.set(i, p);
        proof {
            let w = self.width as int;
            let h = self.height as int;
            let want = old(self)@.with_pixel(x as int, y as int, p);
            assert forall|yy: int| 0 <= yy < h implies #[trigger] self@.rows[yy]
                == want.rows[yy] by {
                assert forall|xx: int| 0 <= xx < w implies self@.rows[yy][xx]
                    == want.rows[yy][xx] by {
                    lemma_cell_index(xx, yy, w, h);
                    if yy * w + xx == i {
                        lemma_cell_index_injective(xx, yy, x as int, y as int, w);
                    }
                }
                assert(self@.rows[yy] =~= want.rows[yy]);
            }
            assert(self@.rows =~= want.rows);
        }
    }
}

} // verus!
