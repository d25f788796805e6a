//! The cache of a drawn glyph: the opacity of each of its dots, two dots to
//! a byte.

use vstd::prelude::*;
use crate::tile::Alpha;

verus! {

/// The opacity of the dot at the place `pos` in the packed bytes: the low
/// four bits of a byte for an even place, the high four bits for an odd one.
pub open spec fn cell_of(bytes: Seq<u8>, pos: int) -> u8 {
    if pos % 2 == 1 {
        (bytes[pos / 2] & 0xf0) >> 4
    } else {
        bytes[pos / 2] & 0x0f
    }
}

/// What putting the four bits `v` into one half of the byte `b` does to the
/// two halves.
pub proof fn lemma_pack(b: u8, v: u8)
    by (bit_vector)
    requires
        v <= 15,
    ensures
        ((b | (v << 4)) & 0xf0) >> 4 == ((b & 0xf0) >> 4) | v,
        (b | (v << 4)) & 0x0f == b & 0x0f,
        (b | v) & 0x0f == (b & 0x0f) | v,
        ((b | v) & 0xf0) >> 4 == (b & 0xf0) >> 4,
        (b & 0xf0) >> 4 <= 15,
        b & 0x0f <= 15,
        (0u8 & 0xf0) >> 4 == 0,
        0u8 & 0x0f == 0,
{
}

/// The lowest bit of a number says whether the number is odd.
pub proof fn lemma_odd(pos: usize)
    by (bit_vector)
    ensures
        (pos & 1 == 1) == (pos % 2 == 1),
{
}

/// The least opacity of a dot of a glyph that is drawn at all.
pub const LEAST_DRAWN: u8 = 5;

/// What is added to the opacity of a dot that is drawn.
pub const DRAWN_MORE: u8 = 3;

/// The opacity with which a dot of a glyph is drawn, given how much of the
/// dot the glyph covers: nothing is drawn below [`LEAST_DRAWN`], and what is
/// drawn is made more opaque by [`DRAWN_MORE`].
pub fn drawn_alpha(covered: Alpha) -> (drawn: Option<Alpha>)
    requires
        covered.wf(),
    ensures
        drawn == if covered.0 < LEAST_DRAWN {
            None
        } else if covered.0 + DRAWN_MORE <= 15 {
            Some(Alpha((covered.0 + DRAWN_MORE) as u8))
        } else {
            Some(Alpha(15))
        },
{
    let mut alpha = covered;
    if alpha.0 < LEAST_DRAWN {
        return None;
    }
    alpha.plus(DRAWN_MORE);
    Some(alpha)
}

/// The opacities of the dots of a square glyph.
#[derive(Debug)]
pub struct FontCache {
    inner: Vec<u8>,
    scale: usize,
}

impl FontCache {
    /// The side of the glyph in dots.
    pub closed spec fn side(&self) -> nat {
        self.scale as nat
    }

    /// The opacity of each dot, row by row.
    pub closed spec fn cells(&self) -> Seq<u8> {
        Seq::new((self.scale * self.scale) as nat, |pos: int| cell_of(self.inner@, pos))
    }

    /// There is half a byte for each dot.
    #[verifier::type_invariant]
    spec fn inv(&self) -> bool {
        &&& self.scale * self.scale + 1 <= usize::MAX
        &&& self.inner@.len() == (self.scale * self.scale + 1) / 2
    }

    /// The cache of a glyph of the given side, with no opacity anywhere.
    pub fn new(scale: usize) -> (cache: FontCache)
        requires
            scale * scale + 1 <= usize::MAX,
        ensures
            cache.side() == scale,
            cache.cells().len() == scale * scale,
            forall|pos: int| 0 <= pos < scale * scale ==> cache.cells()[pos] == 0,
    {
        assert(0 <= scale * scale) by (nonlinear_arith);
        let len: usize = (scale * scale + 1) / 2;
        let cache = FontCache { inner: vec![0u8; len], scale: scale };
        proof {
            lemma_pack(0, 0);
        }
        cache
    }

    /// The place of the dot in column `x` of row `y`.
    pub open spec fn place(&self, x: int, y: int) -> int {
        self.side() * y + x
    }

    proof fn lemma_place(&self, x: int, y: int)
        requires
            0 <= x < self.side(),
            0 <= y < self.side(),
        ensures
            0 <= self.place(x, y) < self.side() * self.side(),
            0 <= self.side() * y,
    {
        let side = self.side() as int;
        assert(0 <= side * y && side * y + side <= side * side) by (nonlinear_arith)
            requires
                0 <= y < side,
        ;
    }

    /// Adds the bits of `val` to the opacity of the dot in column `x` of row
    /// `y`.
    pub fn set(&mut self, x: u32, y: u32, val: Alpha)
        requires
            x < old(self).side(),
            y < old(self).side(),
            val.wf(),
        ensures
            final(self).side() == old(self).side(),
            final(self).cells() == old(self).cells().update(
                old(self).place(x as int, y as int),
                old(self).cells()[old(self).place(x as int, y as int)] | val.0,
            ),
    {
        proof {
            use_type_invariant(&*self);
            self.lemma_place(x as int, y as int);
        }
        let (x, y) = (x as usize, y as usize);
        assert(self.scale * y == self.side() * y);
        let id: usize = self.scale * y + x;
        let id2: usize = id / 2;
        let before: u8 = self.inner[id2];
        proof {
            lemma_odd(id);
            lemma_pack(before, val.0);
        }
        if (id & 1) == 1 {
            self.inner[id2] = before | (val.0 << 4);
        } else {
            self.inner[id2] = before | val.0;
        };
        assert(self.cells() =~= old(self).cells().update(
            id as int,
            old(self).cells()[id as int] | val.0,
        ));
    }

    /// The opacity of the dot in column `x` of row `y`.
    pub fn get(&self, x: u32, y: u32) -> (val: Alpha)
        requires
            x < self.side(),
            y < self.side(),
        ensures
            val.0 == self.cells()[self.place(x as int, y as int)],
            val.wf(),
    {
        proof {
            use_type_invariant(self);
            self.lemma_place(x as int, y as int);
        }
        let (x, y) = (x as usize, y as usize);
        assert(self.scale * y == self.side() * y);
        let pos: usize = self.scale * y + x;
        let id: usize = pos / 2;
        proof {
            lemma_odd(pos);
            lemma_pack(self.inner@[id as int], 0);
        }
        let val = if (pos & 1) == 1 {
            (self.inner[id] & 0b11110000) >> 4
        } else {
            self.inner[id] & 0b00001111
        };
        Alpha(val)
    }
}

} // verus!
