//! A decoded image: rows of RGBA pixels, four bytes each.
//!
//! The fourth byte of a pixel is split in two.  Its high four bits are the
//! visible opacity, its low four bits are the collision bits, which say
//! whether the pixel takes part in collision, whatever its opacity.

use vstd::prelude::*;

verus! {

/// One pixel: red, green, blue and the opacity byte.
#[derive(Clone, Copy, Debug, PartialEq, Eq)]
pub struct Rgba {
    pub data: [u8; 4],
}

/// The mathematical content of a [`PixelBuf`].
pub ghost struct PixelGrid {
    pub width: nat,
    pub height: nat,
    /// The pixels row by row, four bytes a pixel.
    pub bytes: Seq<u8>,
}

impl PixelGrid {
    /// Every pixel has its four bytes.
    pub open spec fn wf(self) -> bool {
        self.bytes.len() == 4 * self.width * self.height
    }

    pub open spec fn in_bounds(self, x: int, y: int) -> bool {
        0 <= x < self.width && 0 <= y < self.height
    }

    /// Byte `c` of the pixel in column `x` of row `y`.
    pub open spec fn channel(self, x: int, y: int, c: int) -> u8 {
        self.bytes[4 * (y * self.width + x) + c]
    }

    pub open spec fn pixel(self, x: int, y: int) -> Seq<u8> {
        seq![
            self.channel(x, y, 0),
            self.channel(x, y, 1),
            self.channel(x, y, 2),
            self.channel(x, y, 3),
        ]
    }

    /// The collision bits of a pixel; none outside the image.
    pub open spec fn collision_bits(self, x: int, y: int) -> u8 {
        if self.in_bounds(x, y) {
            self.channel(x, y, 3) & 0x0f
        } else {
            0
        }
    }
}

/// An image held as plain bytes.
pub struct PixelBuf {
    width: u32,
    height: u32,
    data: Vec<u8>,
}

impl View for PixelBuf {
    type V = PixelGrid;

    closed spec fn view(&self) -> PixelGrid {
        PixelGrid { width: self.width as nat, height: self.height as nat, bytes: self.data@ }
    }
}

/// Position of a pixel's first byte stays below the number of bytes.
pub proof fn lemma_pixel_index(w: int, h: int, x: int, y: int)
    requires
        0 <= x < w,
        0 <= y < h,
    ensures
        0 <= y * w,
        y * w + x < w * h,
        4 * (y * w + x) + 3 < 4 * w * h,
{
    assert(y * w + x < w * h) by (nonlinear_arith)
        requires
            0 <= x < w,
            0 <= y < h,
    ;
    assert(0 <= y * w) by (nonlinear_arith)
        requires
            0 <= w,
            0 <= y,
    ;
    assert(4 * (w * h) == 4 * w * h) by (nonlinear_arith);
}

impl PixelBuf {
    /// Every pixel has its four bytes.
    #[verifier::type_invariant]
    spec fn inv(&self) -> bool {
        self.data@.len() == 4 * self.width * self.height
    }

    /// An image has four bytes for each of its pixels, and its width and
    /// height are `u32` values.  Nothing is done when the program runs.
    pub fn inv_holds(&self)
        ensures
            self@.wf(),
            self@.width <= u32::MAX,
            self@.height <= u32::MAX,
    {
        proof {
            use_type_invariant(self);
        }
    }

    /// A fully transparent image of the given size, without collision bits.
    pub fn new(width: u32, height: u32) -> (buf: PixelBuf)
        requires
            4 * width * height <= usize::MAX,
        ensures
            buf@.width == width,
            buf@.height == height,
            buf@.bytes.len() == 4 * width * height,
            forall|i: int| 0 <= i < buf@.bytes.len() ==> buf@.bytes[i] == 0,
    {
        proof {
            assert(4 * (width * height) == 4 * width * height) by (nonlinear_arith);
            assert(0 <= width * height) by (nonlinear_arith)
                requires
                    0 <= width,
                    0 <= height,
            ;
        }
        let pixels: usize = (width as usize) * (height as usize);
        let len: usize = 4 * pixels;
        let data: Vec<u8> = vec![0u8; len];
        PixelBuf { width, height, data }
    }

    /// The image of the given size over `data`, where `data` has four bytes
    /// for each pixel and no more.
    pub fn from_raw(width: u32, height: u32, data: Vec<u8>) -> (made: Option<PixelBuf>)
        ensures
            made is Some <==> data@.len() == 4 * width * height,
            made matches Some(buf) ==> buf@ == (PixelGrid {
                width: width as nat,
                height: height as nat,
                bytes: data@,
            }),
    {
        assert(0 <= width * height <= 0xffff_ffff * 0xffff_ffff) by (nonlinear_arith)
            requires
                0 <= width <= 0xffff_ffff,
                0 <= height <= 0xffff_ffff,
        ;
        assert(4 * (width * height) == 4 * width * height) by (nonlinear_arith);
        let need: u128 = 4u128 * ((width as u128) * (height as u128));
        if (data.len() as u128) == need {
            Some(PixelBuf { width, height, data })
        } else {
            None
        }
    }

    pub fn width(&self) -> (w: u32)
        ensures
            w == self@.width,
    {
        self.width
    }

    pub fn height(&self) -> (h: u32)
        ensures
            h == self@.height,
    {
        self.height
    }

    /// The bytes of the image, row by row.
    pub fn as_raw(&self) -> (data: &Vec<u8>)
        ensures
            data@ == self@.bytes,
    {
        &self.data
    }

    /// The pixel in column `x` of row `y`.
    pub fn get_pixel(&self, x: u32, y: u32) -> (p: Rgba)
        requires
            self@.in_bounds(x as int, y as int),
        ensures
            p.data@ == self@.pixel(x as int, y as int),
    {
        proof {
            use_type_invariant(self);
            lemma_pixel_index(self.width as int, self.height as int, x as int, y as int);
            assert(self.data.len() <= usize::MAX);
        }
        let at: usize = 4 * ((y as usize) * (self.width as usize) + (x as usize));
        let p = Rgba { data: [self.data[at], self.data[at + 1], self.data[at + 2], self.data[at + 3]] };
        assert(p.data@ =~= self@.pixel(x as int, y as int));
        p
    }

    /// Overwrites the pixel in column `x` of row `y`.
    pub fn put_pixel(&mut self, x: u32, y: u32, p: Rgba)
        requires
            old(self)@.in_bounds(x as int, y as int),
        ensures
            final(self)@.width == old(self)@.width,
            final(self)@.height == old(self)@.height,
            final(self)@.pixel(x as int, y as int) == p.data@,
            forall|i: int, j: int|
                old(self)@.in_bounds(i, j) && (i != x || j != y) ==> final(self)@.pixel(i, j)
                    == old(self)@.pixel(i, j),
    {
        proof {
            use_type_invariant(&*self);
            lemma_pixel_index(self.width as int, self.height as int, x as int, y as int);
            assert(self.data.len() <= usize::MAX);
        }
        let at: usize = 4 * ((y as usize) * (self.width as usize) + (x as usize));
        self.data[at] = p.data[0];
        self.data[at + 1] = p.data[1];
        self.data[at + 2] = p.data[2];
        self.data[at + 3] = p.data[3];
        proof {
            assert(self@.pixel(x as int, y as int) =~= p.data@);
            assert forall|i: int, j: int|
                old(self)@.in_bounds(i, j) && (i != x || j != y) implies self@.pixel(i, j) == old(
                self)@.pixel(i, j) by {
                lemma_pixel_index(self.width as int, self.height as int, i, j);
                let w = self.width as int;
                assert(j * w + i != y * w + x) by (nonlinear_arith)
                    requires
                        0 <= i < w,
                        0 <= x < w,
                        i != x || j != y,
                ;
            }
        }
    }
}

} // verus!
