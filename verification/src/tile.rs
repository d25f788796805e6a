//! Colours, opacity and the tile that the renderer draws.

use vstd::prelude::*;
use crate::pixels::Rgba;
use crate::tile::tiletypes::TILE_SIZE;

pub mod tiletypes;

verus! {

/// The bits of an opacity byte that hold the opacity.
pub const ALPHA_MASK: u8 = 0b11110000;

/// The bits of an opacity byte that hold the collision bits.
pub const COLLISION_MASK: u8 = 0b00001111;

/// An opacity from 0, transparent, to 15, opaque.
#[derive(Clone, Copy, Debug, PartialEq, Eq, Structural)]
pub struct Alpha(pub u8);

/// The greatest opacity.
pub const MAX_VALUE: u8 = 0b00001111;

/// The share `alpha / 15` of the channel value `v`, rounded to the nearest
/// whole number.
pub open spec fn comp_spec(alpha: int, v: int) -> int {
    (alpha * v + 7) / 15
}

/// The channel value `orig` seen through a layer of value `new` and of
/// opacity `alpha`.
pub open spec fn blend_spec(alpha: int, orig: int, new: int) -> int {
    comp_spec(15 - alpha, orig) + comp_spec(alpha, new)
}

/// A blend of two channel values is a channel value.
pub proof fn lemma_blend_range(alpha: int, orig: int, new: int)
    requires
        0 <= alpha <= 15,
        0 <= orig <= 255,
        0 <= new <= 255,
    ensures
        0 <= comp_spec(alpha, new) <= 17 * alpha,
        0 <= comp_spec(15 - alpha, orig) <= 255 - 17 * alpha,
        0 <= blend_spec(alpha, orig, new) <= 255,
        0 <= alpha * new <= 3825,
        0 <= (15 - alpha) * orig <= 3825,
{
    assert(0 <= alpha * new <= alpha * 255) by (nonlinear_arith)
        requires
            0 <= alpha,
            0 <= new <= 255,
    ;
    assert(0 <= (15 - alpha) * orig <= (15 - alpha) * 255) by (nonlinear_arith)
        requires
            0 <= 15 - alpha,
            0 <= orig <= 255,
    ;
}

impl Alpha {
    /// The opacity is one of the sixteen steps.
    pub open spec fn wf(self) -> bool {
        self.0 <= MAX_VALUE
    }

    /// Raises the opacity to `other` where that is greater, and hands the
    /// opacity back for further changes.
    pub fn max(&mut self, other: Self) -> (me: &mut Self)
        ensures
            me.0 == if old(self).0 >= other.0 {
                old(self).0
            } else {
                other.0
            },
            *final(self) == *final(me),
    {
        if other.0 > self.0 {
            self.0 = other.0;
        }
        self
    }

    /// What is left of full opacity.
    pub fn inv(self) -> (rest: Alpha)
        requires
            self.wf(),
        ensures
            rest.0 == 15 - self.0,
            rest.wf(),
    {
        Alpha(MAX_VALUE - self.0)
    }

    /// No opacity at all.
    pub fn is_trans(self) -> (t: bool)
        ensures
            t == (self.0 == 0),
    {
        self.0 == 0
    }

    /// The channel value `orig` seen through a layer of value `new` and of
    /// this opacity.
    pub fn blend(self, orig: u8, new: u8) -> (mixed: u8)
        requires
            self.wf(),
        ensures
            mixed == blend_spec(self.0 as int, orig as int, new as int),
    {
        proof {
            lemma_blend_range(self.0 as int, orig as int, new as int);
        }
        let o = self.inv().comp(orig);
        let n = self.comp(new);
        o + n
    }

    /// The share of the channel value `v` that this opacity lets through.
    pub fn comp(self, v: u8) -> (part: u8)
        requires
            self.wf(),
        ensures
            part == comp_spec(self.0 as int, v as int),
    {
        proof {
            lemma_blend_range(self.0 as int, 0, v as int);
        }
        let scaled: u16 = (self.0 as u16) * (v as u16);
        ((scaled + 7) / 15) as u8
    }

    /// Adds `u` to the opacity, up to full opacity, and hands the opacity
    /// back for further changes.
    pub fn plus(&mut self, u: u8) -> (me: &mut Self)
        requires
            old(self).0 + u <= u8::MAX,
        ensures
            me.0 == if old(self).0 + u <= 15 {
                (old(self).0 + u) as u8
            } else {
                15u8
            },
            me.wf(),
            *final(self) == *final(me),
    {
        let sum: u8 = self.0 + u;
        self.0 = if sum < MAX_VALUE {
            sum
        } else {
            MAX_VALUE
        };
        self
    }

    /// The opacity with each of its four bits moved up: bit `i` becomes bit
    /// `2 * i + 1` of the result.
    pub open spec fn to_256_spec(self) -> u8 {
        ((self.0 & 1) << 1) | ((self.0 & 2) << 2) | ((self.0 & 4) << 3) | ((self.0 & 8) << 4)
    }

    /// The opacity with each of its four bits moved up.
    pub fn to_256(&self) -> (spread: u8)
        ensures
            spread == self.to_256_spec(),
    {
        let a = self.0;
        let mut res: u8 = 0;
        let mut i: u8 = 0;
        while i < 4
            invariant
                0 <= i <= 4,
                a == self.0,
                i == 0 ==> res == 0,
                i == 1 ==> res == (a & 1) << 1,
                i == 2 ==> res == ((a & 1) << 1) | ((a & 2) << 2),
                i == 3 ==> res == ((a & 1) << 1) | ((a & 2) << 2) | ((a & 4) << 3),
                i == 4 ==> res == ((a & 1) << 1) | ((a & 2) << 2) | ((a & 4) << 3) | ((a & 8) << 4),
            decreases 4 - i,
        {
            let ghost before = res;
            assert(1u8 << 0u8 == 1 && 1u8 << 1u8 == 2 && 1u8 << 2u8 == 4 && 1u8 << 3u8 == 8)
                by (bit_vector);
            assert(0u8 | ((a & 1) << 1) == (a & 1) << 1) by (bit_vector);
            let bit: u8 = a & (1u8 << i);
            res = res | (bit << (i + 1));
            i += 1;
        }
        res
    }
}

/// The opacity byte of a pixel holds two things: in its four high bits the
/// opacity, in its four low bits the collision bits.
pub trait AltenaAlpha {
    /// The opacity byte.
    spec fn spec_value(&self) -> u8;

    fn value(&self) -> (v: u8)
        ensures
            v == self.spec_value(),
    ;

    fn collision_bits(&self) -> (bits: u8)
        ensures
            bits == self.spec_value() & COLLISION_MASK,
            bits <= 15,
    {
        let v = self.value();
        assert(v & COLLISION_MASK <= 15) by (bit_vector)
            requires
                COLLISION_MASK == 0x0fu8,
        ;
        v & COLLISION_MASK
    }

    fn alpha(&self) -> (a: Alpha)
        ensures
            a.0 == (self.spec_value() & ALPHA_MASK) >> 4,
            a.0 <= 15,
    {
        let v = self.value();
        assert((v & ALPHA_MASK) >> 4 <= 15) by (bit_vector)
            requires
                ALPHA_MASK == 0xf0u8,
        ;
        Alpha((v & ALPHA_MASK) >> 4)
    }

    fn is_trans(&self) -> (t: bool)
        ensures
            t == ((self.spec_value() & ALPHA_MASK) >> 4 == 0),
    {
        self.alpha().0 == 0
    }
}

impl AltenaAlpha for Rgba {
    open spec fn spec_value(&self) -> u8 {
        self.data[3]
    }

    fn value(&self) -> (v: u8) {
        self.data[3]
    }
}

/// A colour without opacity.
#[derive(Clone, Copy, Debug, Default, PartialEq, Eq, Structural)]
pub struct Color {
    pub r: u8,
    pub g: u8,
    pub b: u8,
}

/// A dot of a tile: a colour, or nothing where the tile is transparent.
pub type Dot = Option<Color>;

/// The dot that a pixel is drawn as.
pub open spec fn dot_of(pixel: Seq<u8>) -> Dot {
    if (pixel[3] & ALPHA_MASK) >> 4 == 0 {
        None
    } else {
        Some(Color { r: pixel[0], g: pixel[1], b: pixel[2] })
    }
}

impl Color {
    /// The colour of a pixel, where the pixel is not transparent.
    pub fn from_rgba(rgba: &Rgba) -> (dot: Option<Color>)
        ensures
            dot == dot_of(rgba.data@),
    {
        if rgba.is_trans() {
            return None;
        }
        Some(Color { r: rgba.data[0], g: rgba.data[1], b: rgba.data[2] })
    }

    /// The pixel of this colour with an opacity byte of zero.
    pub fn to_rgba(&self) -> (rgba: Rgba)
        ensures
            rgba.data@ == seq![self.r, self.g, self.b, 0u8],
    {
        let rgba = Rgba { data: [self.r, self.g, self.b, 0] };
        assert(rgba.data@ =~= seq![self.r, self.g, self.b, 0u8]);
        rgba
    }

    pub fn black() -> (c: Color)
        ensures
            c == (Color { r: 0, g: 0, b: 0 }),
    {
        Color { r: 0, g: 0, b: 0 }
    }

    pub fn white() -> (c: Color)
        ensures
            c == (Color { r: 255, g: 255, b: 255 }),
    {
        Color { r: 255, g: 255, b: 255 }
    }

    /// Channel `id` of the colour: red, green, blue.
    pub open spec fn channel(self, id: int) -> Option<u8> {
        if id == 0 {
            Some(self.r)
        } else if id == 1 {
            Some(self.g)
        } else if id == 2 {
            Some(self.b)
        } else {
            None
        }
    }

    /// Channel `id` of the colour: red, green, blue; `None` for another.
    pub fn get(&self, id: usize) -> (v: Option<u8>)
        ensures
            v == self.channel(id as int),
    {
        match id {
            0 => Some(self.r),
            1 => Some(self.g),
            2 => Some(self.b),
            _ => None,
        }
    }

    /// This colour seen through a layer of the colour `other` and of the
    /// opacity `alpha`.
    pub open spec fn blended(self, other: Color, alpha: Alpha) -> Color {
        Color {
            r: blend_spec(alpha.0 as int, self.r as int, other.r as int) as u8,
            g: blend_spec(alpha.0 as int, self.g as int, other.g as int) as u8,
            b: blend_spec(alpha.0 as int, self.b as int, other.b as int) as u8,
        }
    }
}

/// What can be painted over with a colour of some opacity.
pub trait Blend: Sized {
    /// The value after it was painted over.
    spec fn blend_result(self, other: Color, alpha: Alpha) -> Self;

    fn blend(&mut self, other: Color, alpha: Alpha)
        requires
            alpha.wf(),
        ensures
            *final(self) == old(self).blend_result(other, alpha),
    ;
}

impl Blend for Color {
    open spec fn blend_result(self, other: Color, alpha: Alpha) -> Color {
        self.blended(other, alpha)
    }

    fn blend(&mut self, other: Color, alpha: Alpha) {
        self.r = alpha.blend(self.r, other.r);
        self.g = alpha.blend(self.g, other.g);
        self.b = alpha.blend(self.b, other.b);
    }
}

impl Blend for Rgba {
    /// The three colour channels are painted over; the opacity byte stays.
    open spec fn blend_result(self, other: Color, alpha: Alpha) -> Rgba {
        let mixed = (Color { r: self.data[0], g: self.data[1], b: self.data[2] }).blended(
            other,
            alpha,
        );
        Rgba { data: [mixed.r, mixed.g, mixed.b, self.data[3]] }
    }

    fn blend(&mut self, other: Color, alpha: Alpha) {
        let r = alpha.blend(self.data[0], other.r);
        let g = alpha.blend(self.data[1], other.g);
        let b = alpha.blend(self.data[2], other.b);
        let a = self.data[3];
        *self = Rgba { data: [r, g, b, a] };
    }
}

impl Blend for Dot {
    /// A colour is painted over.  A transparent dot takes the share of
    /// `other` that the rest of the opacity lets through.
    open spec fn blend_result(self, other: Color, alpha: Alpha) -> Dot {
        match self {
            Some(rgb) => Some(rgb.blended(other, alpha)),
            None => Some(
                Color {
                    r: comp_spec(15 - alpha.0, other.r as int) as u8,
                    g: comp_spec(15 - alpha.0, other.g as int) as u8,
                    b: comp_spec(15 - alpha.0, other.b as int) as u8,
                },
            ),
        }
    }

    fn blend(&mut self, other: Color, alpha: Alpha) {
        match *self {
            Some(mut rgb) => {
                rgb.blend(other, alpha);
                *self = Some(rgb);
            },
            None => {
                let mut new = Color { r: 0, g: 0, b: 0 };
                new.r = alpha.inv().comp(other.r);
                new.g = alpha.inv().comp(other.g);
                new.b = alpha.inv().comp(other.b);
                *self = Some(new)
            },
        }
    }
}

/// What can be drawn on with a colour of some opacity.
pub trait Draw {
    fn blend(&mut self, other: Color, alpha: Alpha);
}

/// The dots of a [`Tile`], row by row.
pub ghost struct TileModel {
    pub dots: Seq<Dot>,
}

impl TileModel {
    /// The dot in column `x` of row `y`.
    pub open spec fn dot(self, x: int, y: int) -> Dot {
        self.dots[y * 16 + x]
    }
}

/// 16×16 tile used to draw objects.
#[derive(Clone)]
pub struct Tile {
    /// Buffer of tile data
    inner: [Dot; 256],
}

impl View for Tile {
    type V = TileModel;

    closed spec fn view(&self) -> TileModel {
        TileModel { dots: self.inner@ }
    }
}

impl Tile {
    /// The tile whose dots are all `d`.
    pub fn new(d: Dot) -> (tile: Tile)
        ensures
            tile@.dots.len() == 256,
            forall|i: int| 0 <= i < 256 ==> tile@.dots[i] == d,
    {
        Tile { inner: [d; 256] }
    }

    /// The dot in column `x` of row `y`; `None` outside the tile.
    pub fn get_xy(&self, x: usize, y: usize) -> (dot: Option<&Dot>)
        ensures
            dot is Some <==> x < 16 && y < 16,
            dot matches Some(d) ==> *d == self@.dot(x as int, y as int),
    {
        if TILE_SIZE <= x || TILE_SIZE <= y {
            return None;
        }
        Some(&self.inner[y * TILE_SIZE + x])
    }

    /// Puts `d` in column `x` of row `y`; says whether that is in the tile.
    pub fn set_xy(&mut self, x: usize, y: usize, d: Dot) -> (done: bool)
        ensures
            done == (x < 16 && y < 16),
            final(self)@.dots.len() == old(self)@.dots.len(),
            done ==> final(self)@.dots == old(self)@.dots.update(y * 16 + x, d),
            !done ==> final(self)@ == old(self)@,
    {
        if TILE_SIZE <= x || TILE_SIZE <= y {
            return false;
        }
        self.inner[y * TILE_SIZE + x] = d;
        assert(self@.dots =~= old(self)@.dots.update(y * 16 + x, d));
        true
    }
}

impl Default for Tile {
    /// The transparent tile.
    fn default() -> (tile: Tile)
        ensures
            tile@.dots.len() == 256,
            forall|i: int| 0 <= i < 256 ==> tile@.dots[i] is None,
    {
        Tile { inner: [None; 256] }
    }
}

} // verus!
