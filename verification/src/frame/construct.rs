//! Building a mesh from the collision bits of an image.
//!
//! A region of at most 16×16 pixels becomes a leaf.  A larger one becomes a
//! node of the least scale among 2, 4, 8 and 16 whose square holds it, with
//! one child for each quadrant in which a pixel has a collision bit.  A
//! region without such a pixel gives nothing.  Scales are powers of two, so
//! that a quadrant of a node is exactly the square of a node of half its
//! scale, down to the tile.

use vstd::prelude::*;
use crate::tile::AltenaAlpha;
use crate::frame::collide::{slide_rect, view_opt};
use crate::frame::dottypes::{
    euclid_union,
    DotPoint,
    DotRect,
    DotSize,
    DotVector,
    SpecPoint,
    SpecRect,
};
use crate::frame::rows::{lemma_low_bits, lemma_or_nibble, nibble};
use crate::frame::{child_models, first_bits, lemma_dir_times, square, LeafModel, MeshLeaf, MeshNode, MeshTree, NodeModel, TileDir, TreeModel};
use crate::pixels::{PixelBuf, PixelGrid};
use crate::tile::tiletypes::TILE_SIZE;

verus! {

/// The side in dots of the largest mesh: a node of scale 16.
pub const MAX_SPAN: u32 = 256;

/// A rectangle of pixels of an image: its upper left pixel and its size.
#[derive(Clone, Copy, Debug, PartialEq, Eq, Structural)]
pub struct RectRange {
    pub x: u32,
    pub y: u32,
    pub xlen: u32,
    pub ylen: u32,
}

/// A rectangle of pixels of an image, the subject of one step of building.
pub ghost struct Region {
    pub grid: PixelGrid,
    pub x: int,
    pub y: int,
    pub w: int,
    pub h: int,
}

/// The least scale of a mesh that is `len` dots wide.
pub open spec fn scale_for(len: int) -> int {
    if len <= 16 {
        1
    } else if len <= 32 {
        2
    } else if len <= 64 {
        4
    } else if len <= 128 {
        8
    } else {
        16
    }
}

impl RectRange {
    /// The region of `grid` that the rectangle stands for.
    pub open spec fn on(self, grid: PixelGrid) -> Region {
        Region { grid, x: self.x as int, y: self.y as int, w: self.xlen as int, h: self.ylen as int }
    }
}

impl Region {
    /// The region has a pixel and lies in its image.
    pub open spec fn wf(self) -> bool {
        &&& self.grid.wf()
        &&& 0 <= self.x
        &&& 0 <= self.y
        &&& 1 <= self.w
        &&& 1 <= self.h
        &&& self.x + self.w <= self.grid.width
        &&& self.y + self.h <= self.grid.height
    }

    /// The collision bits of the pixel `(x, y)`, counted from the upper left
    /// pixel of the region; none outside the region.
    pub open spec fn bits(self, x: int, y: int) -> u8 {
        if 0 <= x < self.w && 0 <= y < self.h {
            self.grid.collision_bits(self.x + x, self.y + y)
        } else {
            0
        }
    }

    /// Some pixel of the region has a collision bit.
    pub open spec fn has_marks(self) -> bool {
        exists|x: int, y: int| self.bits(x, y) != 0
    }

    /// `r` is the bounding box of the pixels with a collision bit: it holds
    /// them all, and one of them lies on each of its four edges.
    pub open spec fn is_bounding_box(self, r: SpecRect) -> bool {
        &&& r.nonempty()
        &&& forall|x: int, y: int| #[trigger] self.bits(x, y) != 0 ==> r.contains(x, y)
        &&& exists|y: int| #[trigger] self.bits(r.x, y) != 0
        &&& exists|y: int| #[trigger] self.bits(r.max_x() - 1, y) != 0
        &&& exists|x: int| #[trigger] self.bits(x, r.y) != 0
        &&& exists|x: int| #[trigger] self.bits(x, r.max_y() - 1) != 0
    }

    /// The bounding box of the pixels with a collision bit.
    pub open spec fn bounding_box(self) -> SpecRect {
        choose|r: SpecRect| self.is_bounding_box(r)
    }

    /// The scale of the mesh of the region.
    pub open spec fn scale(self) -> int {
        scale_for(if self.w >= self.h { self.w } else { self.h })
    }

    /// The side in dots of a quadrant of the region's node.
    pub open spec fn half(self) -> int {
        8 * self.scale()
    }

    /// Where the quadrant `dir` of the region's node starts.
    pub open spec fn corner(self, dir: TileDir) -> SpecPoint {
        dir.unit().times(self.half())
    }

    /// Some pixel of the region lies in the quadrant `dir`.
    pub open spec fn reaches(self, dir: TileDir) -> bool {
        self.corner(dir).x < self.w && self.corner(dir).y < self.h
    }

    /// The part of the region in the quadrant `dir` of its node.
    pub open spec fn quadrant(self, dir: TileDir) -> Region {
        let at = self.corner(dir);
        Region {
            grid: self.grid,
            x: self.x + at.x,
            y: self.y + at.y,
            w: if self.w - at.x <= self.half() { self.w - at.x } else { self.half() },
            h: if self.h - at.y <= self.half() { self.h - at.y } else { self.half() },
        }
    }

    /// The place, in the order of [`TileDir::all`], of the quadrant of the
    /// region's node in which the pixel `(x, y)` lies.
    pub open spec fn quadrant_index(self, x: int, y: int) -> int {
        if y < self.half() {
            if x < self.half() {
                0
            } else {
                1
            }
        } else {
            if x >= self.half() {
                2
            } else {
                3
            }
        }
    }

    /// The region is no larger than the largest mesh.
    pub open spec fn fits(self) -> bool {
        self.w <= MAX_SPAN && self.h <= MAX_SPAN
    }

    /// The mask of row `y` of the region, of which only the first `n`
    /// columns are taken.
    pub open spec fn row_mask(self, y: int, n: nat) -> u64
        decreases n,
    {
        if n == 0 {
            0
        } else {
            self.row_mask(y, (n - 1) as nat) | ((self.bits(n - 1, y) as u64) << (((16 - n)
                * 4) as u64))
        }
    }

    /// The sixteen row masks of the leaf of a region of at most one tile.
    pub open spec fn leaf_rows(self) -> Seq<u64> {
        Seq::new(16, |y: int| self.row_mask(y, self.w as nat))
    }

    /// The leaf of a region of at most one tile.
    pub open spec fn leaf(self) -> Option<LeafModel> {
        if self.has_marks() {
            Some(LeafModel { rows: self.leaf_rows(), bbox: self.bounding_box() })
        } else {
            None
        }
    }

    /// The pixel `(i, j)` has a collision bit and comes before the pixel
    /// `(x, y)`, row by row.
    pub open spec fn marked_before(self, x: int, y: int, i: int, j: int) -> bool {
        self.bits(i, j) != 0 && (j < y || (j == y && i < x))
    }

    /// The mesh of the region.
    pub open spec fn mesh(self) -> Option<TreeModel>
        decreases self.scale(), 2nat, 0nat,
    {
        if !self.has_marks() {
            None
        } else if self.scale() <= 1 {
            Some(TreeModel::Leaf(self.leaf()->0))
        } else {
            Some(
                TreeModel::Node(
                    NodeModel {
                        children: self.children(4),
                        bbox: self.bounding_box(),
                        scale: self.scale(),
                    },
                ),
            )
        }
    }

    /// The children of the region's node in the first `upto` quadrants.
    pub open spec fn children(self, upto: nat) -> Seq<(TreeModel, TileDir)>
        decreases self.scale(), 1nat, upto,
    {
        if upto == 0 || upto > 4 {
            Seq::empty()
        } else {
            self.children((upto - 1) as nat) + self.child(TileDir::all()[upto - 1])
        }
    }

    /// The child of the region's node in the quadrant `dir`, if it has one.
    pub open spec fn child(self, dir: TileDir) -> Seq<(TreeModel, TileDir)>
        decreases self.scale(), 0nat, 0nat,
    {
        if self.scale() >= 2 && self.reaches(dir) {
            match self.quadrant(dir).mesh() {
                Some(t) => seq![(t, dir)],
                None => Seq::empty(),
            }
        } else {
            Seq::empty()
        }
    }
}

/// The view of a leaf that may be absent.
pub open spec fn leaf_view(leaf: Option<MeshLeaf>) -> Option<LeafModel> {
    match leaf {
        Some(l) => Some(l@),
        None => None,
    }
}

/// The view of a tree that may be absent.
pub open spec fn tree_view(tree: Option<MeshTree>) -> Option<TreeModel> {
    match tree {
        Some(t) => Some(t@),
        None => None,
    }
}

/// A region has at most one bounding box.
pub proof fn lemma_unique_box(region: Region, r1: SpecRect, r2: SpecRect)
    requires
        region.is_bounding_box(r1),
        region.is_bounding_box(r2),
    ensures
        r1 == r2,
{
    let y1 = choose|y: int| #[trigger] region.bits(r1.x, y) != 0;
    let y2 = choose|y: int| #[trigger] region.bits(r2.x, y) != 0;
    assert(r2.contains(r1.x, y1));
    assert(r1.contains(r2.x, y2));
    let y3 = choose|y: int| #[trigger] region.bits(r1.max_x() - 1, y) != 0;
    let y4 = choose|y: int| #[trigger] region.bits(r2.max_x() - 1, y) != 0;
    assert(r2.contains(r1.max_x() - 1, y3));
    assert(r1.contains(r2.max_x() - 1, y4));
    let x1 = choose|x: int| #[trigger] region.bits(x, r1.y) != 0;
    let x2 = choose|x: int| #[trigger] region.bits(x, r2.y) != 0;
    assert(r2.contains(x1, r1.y));
    assert(r1.contains(x2, r2.y));
    let x3 = choose|x: int| #[trigger] region.bits(x, r1.max_y() - 1) != 0;
    let x4 = choose|x: int| #[trigger] region.bits(x, r2.max_y() - 1) != 0;
    assert(r2.contains(x3, r1.max_y() - 1));
    assert(r1.contains(x4, r2.max_y() - 1));
}

/// Column `i` of a row mask holds the collision bits of pixel `i` of the
/// row, where the mask has taken that column.
pub proof fn lemma_row_mask_nibble(region: Region, y: int, n: nat, i: u64)
    requires
        n <= 16,
        i < 16,
    ensures
        nibble(region.row_mask(y, n), i) == if i < n {
            region.bits(i as int, y) as u64
        } else {
            0
        },
    decreases n,
{
    if n == 0 {
        lemma_or_nibble(0, 0, 1, i);
    } else {
        lemma_row_mask_nibble(region, y, (n - 1) as nat, i);
        let v = region.bits(n - 1, y);
        lemma_low_bits(region.grid.channel(region.x + n - 1, region.y + y, 3));
        lemma_or_nibble(region.row_mask(y, (n - 1) as nat), v as u64, n as u64, i);
    }
}

/// The collision bits of the pixel `(x, y)` of the region, where it lies in
/// one of the first `d` quadrants.
pub open spec fn part_bits(region: Region, d: int, x: int, y: int) -> u8 {
    if region.quadrant_index(x, y) < d {
        region.bits(x, y)
    } else {
        0
    }
}

/// `r` is the bounding box of the pixels with a collision bit in the first
/// `d` quadrants of the region.
pub open spec fn is_part_box(region: Region, d: int, r: SpecRect) -> bool {
    &&& r.nonempty()
    &&& forall|x: int, y: int| #[trigger] part_bits(region, d, x, y) != 0 ==> r.contains(x, y)
    &&& exists|y: int| #[trigger] part_bits(region, d, r.x, y) != 0
    &&& exists|y: int| #[trigger] part_bits(region, d, r.max_x() - 1, y) != 0
    &&& exists|x: int| #[trigger] part_bits(region, d, x, r.y) != 0
    &&& exists|x: int| #[trigger] part_bits(region, d, x, r.max_y() - 1) != 0
}

/// The bounding box of the first `d` quadrants, if one of them has a pixel
/// with a collision bit.
pub open spec fn part_box_is(region: Region, d: int, found: Option<SpecRect>) -> bool {
    match found {
        Some(b) => is_part_box(region, d, b),
        None => forall|x: int, y: int| #[trigger] part_bits(region, d, x, y) == 0,
    }
}

/// One more child at the end is asked last.
pub proof fn lemma_first_bits_push(
    c: Seq<(TreeModel, TileDir)>,
    half: int,
    k: nat,
    e: (TreeModel, TileDir),
    x: int,
    y: int,
)
    requires
        k <= c.len(),
    ensures
        first_bits(c.push(e), half, k, x, y) == if first_bits(c, half, k, x, y) != 0 {
            first_bits(c, half, k, x, y)
        } else {
            e.0.bits(x - e.1.dx() * half, y - e.1.dy() * half)
        },
    decreases c.len() - k,
{
    let c2 = c.push(e);
    if k < c.len() {
        assert(c2[k as int] == c[k as int]);
        lemma_first_bits_push(c, half, k + 1, e, x, y);
    } else {
        assert(c2[k as int] == e);
        assert(first_bits(c2, half, k + 1, x, y) == 0);
    }
}

/// The quadrants of a region that needs a node: each is a region of its
/// own, of at most half the scale.
pub proof fn lemma_quadrant_wf(region: Region, dir: TileDir)
    requires
        region.wf(),
        region.fits(),
        region.scale() >= 2,
        region.reaches(dir),
    ensures
        region.quadrant(dir).wf(),
        region.quadrant(dir).fits(),
        region.quadrant(dir).w <= region.half(),
        region.quadrant(dir).h <= region.half(),
        2 * region.quadrant(dir).scale() <= region.scale(),
        region.corner(dir).x == dir.dx() * region.half(),
        region.corner(dir).y == dir.dy() * region.half(),
        region.w <= 2 * region.half(),
        region.h <= 2 * region.half(),
{
}

/// A pixel of a quadrant is the pixel of the region at the same place.
pub proof fn lemma_quadrant_bits(region: Region, dir: TileDir, x: int, y: int)
    requires
        region.wf(),
        region.fits(),
        region.scale() >= 2,
    ensures
        region.reaches(dir) ==> region.quadrant(dir).bits(
            x - region.corner(dir).x,
            y - region.corner(dir).y,
        ) == if region.quadrant_index(x, y) == dir.ord() {
            region.bits(x, y)
        } else {
            0
        },
        !region.reaches(dir) && region.quadrant_index(x, y) == dir.ord() ==> region.bits(x, y) == 0,
{
}

/// The bounding box of the first `d` quadrants is that of the first `d + 1`
/// where the next quadrant has no pixel with a collision bit.
pub proof fn lemma_box_skip(region: Region, d: int, dir: TileDir, found: Option<SpecRect>)
    requires
        region.wf(),
        region.fits(),
        region.scale() >= 2,
        dir.ord() == d,
        part_box_is(region, d, found),
        !region.reaches(dir) || !region.quadrant(dir).has_marks(),
    ensures
        part_box_is(region, d + 1, found),
        forall|x: int, y: int| part_bits(region, d + 1, x, y) == part_bits(region, d, x, y),
{
    assert forall|x: int, y: int| part_bits(region, d + 1, x, y) == part_bits(region, d, x, y) by {
        lemma_quadrant_bits(region, dir, x, y);
    }
    match found {
        Some(b) => {
            let y1 = choose|y: int| #[trigger] part_bits(region, d, b.x, y) != 0;
            let y2 = choose|y: int| #[trigger] part_bits(region, d, b.max_x() - 1, y) != 0;
            let x1 = choose|x: int| #[trigger] part_bits(region, d, x, b.y) != 0;
            let x2 = choose|x: int| #[trigger] part_bits(region, d, x, b.max_y() - 1) != 0;
            assert(part_bits(region, d + 1, b.x, y1) != 0);
            assert(part_bits(region, d + 1, b.max_x() - 1, y2) != 0);
            assert(part_bits(region, d + 1, x1, b.y) != 0);
            assert(part_bits(region, d + 1, x2, b.max_y() - 1) != 0);
            assert forall|x: int, y: int| #[trigger]
                part_bits(region, d + 1, x, y) != 0 implies b.contains(x, y) by {
                assert(part_bits(region, d, x, y) != 0);
            }
        },
        None => {
            assert forall|x: int, y: int| #[trigger] part_bits(region, d + 1, x, y) == 0 by {
                assert(part_bits(region, d, x, y) == 0);
            }
        },
    }
}

/// The bounding box of the first `d + 1` quadrants from that of the first
/// `d` and the bounding box of the next quadrant.
pub proof fn lemma_box_step(
    region: Region,
    d: int,
    dir: TileDir,
    found: Option<SpecRect>,
    kid_box: SpecRect,
)
    requires
        region.wf(),
        region.fits(),
        region.scale() >= 2,
        dir.ord() == d,
        region.reaches(dir),
        part_box_is(region, d, found),
        region.quadrant(dir).is_bounding_box(kid_box),
    ensures
        is_part_box(
            region,
            d + 1,
            match found {
                Some(b) => b.union(kid_box.translate(region.corner(dir))),
                None => kid_box.translate(region.corner(dir)),
            },
        ),
{
    let q = region.quadrant(dir);
    let at = region.corner(dir);
    let moved = kid_box.translate(at);
    let all = match found {
        Some(b) => b.union(moved),
        None => moved,
    };
    let ky1 = choose|y: int| #[trigger] q.bits(kid_box.x, y) != 0;
    let ky2 = choose|y: int| #[trigger] q.bits(kid_box.max_x() - 1, y) != 0;
    let kx1 = choose|x: int| #[trigger] q.bits(x, kid_box.y) != 0;
    let kx2 = choose|x: int| #[trigger] q.bits(x, kid_box.max_y() - 1) != 0;
    lemma_quadrant_bits(region, dir, kid_box.x + at.x, ky1 + at.y);
    lemma_quadrant_bits(region, dir, kid_box.max_x() - 1 + at.x, ky2 + at.y);
    lemma_quadrant_bits(region, dir, kx1 + at.x, kid_box.y + at.y);
    lemma_quadrant_bits(region, dir, kx2 + at.x, kid_box.max_y() - 1 + at.y);
    assert(part_bits(region, d + 1, moved.x, ky1 + at.y) != 0);
    assert(part_bits(region, d + 1, moved.max_x() - 1, ky2 + at.y) != 0);
    assert(part_bits(region, d + 1, kx1 + at.x, moved.y) != 0);
    assert(part_bits(region, d + 1, kx2 + at.x, moved.max_y() - 1) != 0);
    assert forall|x: int, y: int| #[trigger]
        part_bits(region, d + 1, x, y) != 0 implies all.contains(x, y) by {
        lemma_quadrant_bits(region, dir, x, y);
        if region.quadrant_index(x, y) < d {
            assert(part_bits(region, d, x, y) != 0);
        } else {
            assert(q.bits(x - at.x, y - at.y) != 0);
            assert(kid_box.contains(x - at.x, y - at.y));
        }
    }
    match found {
        Some(b) => {
            let y1 = choose|y: int| #[trigger] part_bits(region, d, b.x, y) != 0;
            let y2 = choose|y: int| #[trigger] part_bits(region, d, b.max_x() - 1, y) != 0;
            let x1 = choose|x: int| #[trigger] part_bits(region, d, x, b.y) != 0;
            let x2 = choose|x: int| #[trigger] part_bits(region, d, x, b.max_y() - 1) != 0;
            assert(part_bits(region, d + 1, b.x, y1) != 0);
            assert(part_bits(region, d + 1, b.max_x() - 1, y2) != 0);
            assert(part_bits(region, d + 1, x1, b.y) != 0);
            assert(part_bits(region, d + 1, x2, b.max_y() - 1) != 0);
            assert(part_bits(region, d + 1, all.x, if b.x <= moved.x { y1 } else { ky1 + at.y }) != 0);
            assert(part_bits(
                region,
                d + 1,
                all.max_x() - 1,
                if b.max_x() >= moved.max_x() { y2 } else { ky2 + at.y },
            ) != 0);
            assert(part_bits(region, d + 1, if b.y <= moved.y { x1 } else { kx1 + at.x }, all.y) != 0);
            assert(part_bits(
                region,
                d + 1,
                if b.max_y() >= moved.max_y() { x2 } else { kx2 + at.x },
                all.max_y() - 1,
            ) != 0);
        },
        None => {},
    }
}

/// A bounding box of part of a region lies in the region.
pub proof fn lemma_part_box_inside(region: Region, d: int, b: SpecRect)
    requires
        is_part_box(region, d, b),
    ensures
        0 <= b.x,
        0 <= b.y,
        b.max_x() <= region.w,
        b.max_y() <= region.h,
{
    let y1 = choose|y: int| #[trigger] part_bits(region, d, b.x, y) != 0;
    let y2 = choose|y: int| #[trigger] part_bits(region, d, b.max_x() - 1, y) != 0;
    let x1 = choose|x: int| #[trigger] part_bits(region, d, x, b.y) != 0;
    let x2 = choose|x: int| #[trigger] part_bits(region, d, x, b.max_y() - 1) != 0;
}

impl MeshLeaf {
    /// The leaf of a region of at most one tile: `None` where no pixel of
    /// the region has a collision bit.
    pub fn from_buf(buf: &PixelBuf, range: RectRange) -> (made: Option<MeshLeaf>)
        requires
            range.on(buf@).wf(),
            range.xlen <= 16,
            range.ylen <= 16,
        ensures
            leaf_view(made) == range.on(buf@).leaf(),
            made matches Some(leaf) ==> {
                &&& leaf@.wf()
                &&& range.on(buf@).is_bounding_box(leaf@.bbox)
                &&& forall|x: int, y: int| leaf@.bits(x, y) == range.on(buf@).bits(x, y)
            },
    {
        let ghost region = range.on(buf@);
        buf.inv_holds();
        let mut inner: [u64; TILE_SIZE] = [0u64; TILE_SIZE];
        let mut min_x: u32 = TILE_SIZE as u32;
        let mut min_y: u32 = TILE_SIZE as u32;
        let mut max_x: u32 = 0;
        let mut max_y: u32 = 0;
        // the rows of a marked pixel in the columns `min_x` and `max_x`, the
        // columns of one in the rows `min_y` and `max_y`
        let ghost mut at_min_x: int = 0;
        let ghost mut at_max_x: int = 0;
        let ghost mut at_min_y: int = 0;
        let ghost mut at_max_y: int = 0;
        let mut y: u32 = 0;
        while y < range.ylen
            invariant
                0 <= y <= range.ylen,
                region == range.on(buf@),
                region.wf(),
                region.grid.width <= u32::MAX,
                region.grid.height <= u32::MAX,
                range.xlen <= 16,
                range.ylen <= 16,
                inner@.len() == 16,
                forall|j: int| 0 <= j < y ==> inner@[j] == region.row_mask(j, range.xlen as nat),
                forall|j: int| y <= j < 16 ==> inner@[j] == 0,
                forall|i: int, j: int| #[trigger]
                    region.marked_before(0, y as int, i, j) ==> min_x <= i <= max_x && min_y <= j
                        <= max_y,
                (min_x == 16 && min_y == 16 && max_x == 0 && max_y == 0) || {
                    &&& region.marked_before(0, y as int, min_x as int, at_min_x)
                    &&& region.marked_before(0, y as int, max_x as int, at_max_x)
                    &&& region.marked_before(0, y as int, at_min_y, min_y as int)
                    &&& region.marked_before(0, y as int, at_max_y, max_y as int)
                },
            decreases range.ylen - y,
        {
            let mut row: u64 = 0;
            let mut x: u32 = 0;
            while x < range.xlen
                invariant
                    0 <= x <= range.xlen,
                    0 <= y < range.ylen,
                    region == range.on(buf@),
                    region.wf(),
                    region.grid.width <= u32::MAX,
                    region.grid.height <= u32::MAX,
                    range.xlen <= 16,
                    range.ylen <= 16,
                    row == region.row_mask(y as int, x as nat),
                    forall|i: int, j: int| #[trigger]
                        region.marked_before(x as int, y as int, i, j) ==> min_x <= i <= max_x
                            && min_y <= j <= max_y,
                    (min_x == 16 && min_y == 16 && max_x == 0 && max_y == 0) || {
                        &&& region.marked_before(x as int, y as int, min_x as int, at_min_x)
                        &&& region.marked_before(x as int, y as int, max_x as int, at_max_x)
                        &&& region.marked_before(x as int, y as int, at_min_y, min_y as int)
                        &&& region.marked_before(x as int, y as int, at_max_y, max_y as int)
                    },
                decreases range.xlen - x,
            {
                let p = buf.get_pixel(range.x + x, range.y + y);
                let collision_bits = p.collision_bits();
                assert(collision_bits == region.bits(x as int, y as int));
                let ghost before = row;
                if collision_bits != 0 {
                    proof {
                        if min_x == 16 && min_y == 16 && max_x == 0 && max_y == 0 {
                            at_min_x = y as int;
                            at_max_x = y as int;
                            at_min_y = x as int;
                            at_max_y = x as int;
                        } else {
                            if x < min_x {
                                at_min_x = y as int;
                            }
                            if x > max_x {
                                at_max_x = y as int;
                            }
                            if y < min_y {
                                at_min_y = x as int;
                            }
                            if y > max_y {
                                at_max_y = x as int;
                            }
                        }
                    }
                    if x < min_x {
                        min_x = x;
                    }
                    if y < min_y {
                        min_y = y;
                    }
                    if x > max_x {
                        max_x = x;
                    }
                    if y > max_y {
                        max_y = y;
                    }
                    let shift: u64 = ((TILE_SIZE - (x as usize) - 1) * 4) as u64;
                    row = row | ((collision_bits as u64) << shift);
                } else {
                    proof {
                        lemma_or_nibble(before, 0, (x + 1) as u64, 0);
                    }
                }
                assert(row == region.row_mask(y as int, (x + 1) as nat));
                assert forall|i: int, j: int| #[trigger]
                    region.marked_before(x + 1, y as int, i, j) implies min_x <= i <= max_x
                    && min_y <= j <= max_y by {
                    if !(i == x && j == y) {
                        assert(region.marked_before(x as int, y as int, i, j));
                    }
                }
                x += 1;
            }
            inner[y as usize] = row;
            assert forall|i: int, j: int| #[trigger]
                region.marked_before(0, y + 1, i, j) implies min_x <= i <= max_x && min_y <= j
                <= max_y by {
                assert(region.marked_before(range.xlen as int, y as int, i, j));
            }
            y += 1;
        }
        assert forall|i: int, j: int| #[trigger] region.bits(i, j) != 0 implies min_x <= i <= max_x
            && min_y <= j <= max_y by {
            assert(region.marked_before(0, range.ylen as int, i, j));
        }
        if min_x > max_x {
            assert(!region.has_marks());
            return None;
        }
        let bbox = DotRect {
            origin: DotPoint { x: min_x as i16, y: min_y as i16 },
            size: DotSize {
                width: (max_x + 1 - min_x) as i16,
                height: (max_y + 1 - min_y) as i16,
            },
        };
        let ghost leaf_model = LeafModel { rows: inner@, bbox: bbox@ };
        proof {
            assert(region.bits(min_x as int, at_min_x) != 0);
            assert(region.bits(max_x as int, at_max_x) != 0);
            assert(region.bits(at_min_y, min_y as int) != 0);
            assert(region.bits(at_max_y, max_y as int) != 0);
            assert(region.has_marks());
            let r = bbox@;
            assert(r.x == min_x && r.y == min_y && r.max_x() - 1 == max_x && r.max_y() - 1 == max_y);
            assert(r.nonempty());
            assert(region.bits(r.x, at_min_x) != 0);
            assert(region.bits(r.max_x() - 1, at_max_x) != 0);
            assert(region.bits(at_min_y, r.y) != 0);
            assert(region.bits(at_max_y, r.max_y() - 1) != 0);
            assert(region.is_bounding_box(bbox@));
            assert(region.is_bounding_box(region.bounding_box()));
            lemma_unique_box(region, bbox@, region.bounding_box());
            assert forall|j: int| 0 <= j < 16 implies inner@[j] == region.row_mask(
                j,
                range.xlen as nat,
            ) by {
                if j >= range.ylen {
                    lemma_row_mask_empty(region, j, range.xlen as nat);
                }
            }
            assert(leaf_model.rows =~= region.leaf_rows());
            assert forall|x: int, y: int| leaf_model.bits(x, y) == region.bits(x, y) by {
                if 0 <= x < 16 && 0 <= y < 16 {
                    lemma_row_mask_nibble(region, y, range.xlen as nat, x as u64);
                    lemma_low_bits(region.grid.channel(region.x + x, region.y + y, 3));
                }
            }
            assert(leaf_model.rows.len() == 16);
            assert(square(16).encloses(leaf_model.bbox));
            assert forall|x: int, y: int| #[trigger]
                leaf_model.bits(x, y) != 0 implies leaf_model.bbox.contains(x, y) by {
                assert(region.bits(x, y) != 0);
            }
            assert(leaf_model.wf());
            assert(region.is_bounding_box(leaf_model.bbox));
        }
        let leaf = MeshLeaf { inner, bbox };
        assert(leaf@ == leaf_model);
        Some(leaf)
    }
}

/// The bounding box of a region lies in the region.
pub proof fn lemma_box_inside(region: Region, b: SpecRect)
    requires
        region.is_bounding_box(b),
    ensures
        0 <= b.x,
        0 <= b.y,
        b.max_x() <= region.w,
        b.max_y() <= region.h,
{
    let y1 = choose|y: int| #[trigger] region.bits(b.x, y) != 0;
    let y2 = choose|y: int| #[trigger] region.bits(b.max_x() - 1, y) != 0;
    let x1 = choose|x: int| #[trigger] region.bits(x, b.y) != 0;
    let x2 = choose|x: int| #[trigger] region.bits(x, b.max_y() - 1) != 0;
}

/// The bounding box of all four quadrants is that of the region.
pub proof fn lemma_part_box_full(region: Region, b: SpecRect)
    requires
        is_part_box(region, 4, b),
    ensures
        region.is_bounding_box(b),
        region.has_marks(),
{
    let y1 = choose|y: int| #[trigger] part_bits(region, 4, b.x, y) != 0;
    let y2 = choose|y: int| #[trigger] part_bits(region, 4, b.max_x() - 1, y) != 0;
    let x1 = choose|x: int| #[trigger] part_bits(region, 4, x, b.y) != 0;
    let x2 = choose|x: int| #[trigger] part_bits(region, 4, x, b.max_y() - 1) != 0;
    assert(region.bits(b.x, y1) != 0);
    assert(region.bits(b.max_x() - 1, y2) != 0);
    assert(region.bits(x1, b.y) != 0);
    assert(region.bits(x2, b.max_y() - 1) != 0);
    assert forall|x: int, y: int| #[trigger] region.bits(x, y) != 0 implies b.contains(x, y) by {
        assert(part_bits(region, 4, x, y) != 0);
    }
}

/// What holds while the node of a region is built, after its first `d`
/// quadrants: `kids` are the children so far and `found` is their bounding
/// box.
#[verifier::opaque]
pub open spec fn building(
    region: Region,
    d: int,
    kids: Seq<(TreeModel, TileDir)>,
    found: Option<SpecRect>,
) -> bool {
    &&& kids == region.children(d as nat)
    &&& kids.len() <= d
    &&& forall|i: int|
        0 <= i < kids.len() ==> {
            &&& (#[trigger] kids[i]).0.wf()
            &&& 2 * kids[i].0.scale() <= region.scale()
            &&& kids[i].1.ord() < d
        }
    &&& forall|i: int, j: int|
        0 <= i < j < kids.len() ==> (#[trigger] kids[i]).1.ord() < (#[trigger] kids[j]).1.ord()
    &&& forall|x: int, y: int| #[trigger]
        first_bits(kids, region.half(), 0, x, y) == part_bits(region, d, x, y)
    &&& part_box_is(region, d, found)
    &&& found is Some <==> kids.len() > 0
    &&& found matches Some(b) ==> forall|i: int|
        0 <= i < kids.len() ==> b.encloses(
            (#[trigger] kids[i]).0.bbox().translate(kids[i].1.unit().times(region.half())),
        )
}

/// Before the first quadrant there is no child.
pub proof fn lemma_building_start(region: Region)
    ensures
        building(region, 0, Seq::empty(), None),
{
    reveal(building);
    assert(region.children(0) =~= Seq::empty());
}

/// A quadrant without a pixel that has a collision bit adds no child.
pub proof fn lemma_building_skip(
    region: Region,
    d: int,
    dir: TileDir,
    kids: Seq<(TreeModel, TileDir)>,
    found: Option<SpecRect>,
)
    requires
        region.wf(),
        region.fits(),
        region.scale() >= 2,
        0 <= d < 4,
        dir == TileDir::all()[d],
        building(region, d, kids, found),
        !region.reaches(dir) || region.quadrant(dir).mesh() is None,
    ensures
        building(region, d + 1, kids, found),
{
    reveal(building);
    assert(dir.ord() == d);
    if region.reaches(dir) {
        lemma_quadrant_wf(region, dir);
    }
    lemma_box_skip(region, d, dir, found);
    assert(region.child(dir) =~= Seq::empty());
    assert(region.children((d + 1) as nat) == region.children(d as nat) + region.child(dir));
    assert(kids + region.child(dir) =~= kids);
    assert forall|x: int, y: int| #[trigger]
        first_bits(kids, region.half(), 0, x, y) == part_bits(region, d + 1, x, y) by {
        assert(part_bits(region, d + 1, x, y) == part_bits(region, d, x, y));
    }
}

/// The bounding box of the children so far after one more child, whose own
/// bounding box is `kid_box`, in the quadrant `dir`.
pub open spec fn grown_box(region: Region, dir: TileDir, found: Option<SpecRect>, kid_box: SpecRect) -> SpecRect {
    match found {
        Some(b) => b.union(kid_box.translate(region.corner(dir))),
        None => kid_box.translate(region.corner(dir)),
    }
}

/// A quadrant with a pixel that has a collision bit adds its mesh as a
/// child.
pub proof fn lemma_building_grow(
    region: Region,
    d: int,
    dir: TileDir,
    kids: Seq<(TreeModel, TileDir)>,
    found: Option<SpecRect>,
    t: TreeModel,
)
    requires
        region.wf(),
        region.fits(),
        region.scale() >= 2,
        0 <= d < 4,
        dir == TileDir::all()[d],
        building(region, d, kids, found),
        region.reaches(dir),
        region.quadrant(dir).mesh() == Some(t),
        t.wf(),
        t.scale() == region.quadrant(dir).scale(),
        region.quadrant(dir).is_bounding_box(t.bbox()),
        forall|x: int, y: int| t.bits(x, y) == region.quadrant(dir).bits(x, y),
    ensures
        building(
            region,
            d + 1,
            kids.push((t, dir)),
            Some(grown_box(region, dir, found, t.bbox())),
        ),
        0 <= t.bbox().x,
        0 <= t.bbox().y,
        t.bbox().nonempty(),
        t.bbox().max_x() <= region.half(),
        t.bbox().max_y() <= region.half(),
        found matches Some(b) ==> 0 <= b.x && 0 <= b.y && b.nonempty() && b.max_x() <= region.w
            && b.max_y() <= region.h,
        0 <= grown_box(region, dir, found, t.bbox()).x,
        0 <= grown_box(region, dir, found, t.bbox()).y,
        grown_box(region, dir, found, t.bbox()).nonempty(),
        grown_box(region, dir, found, t.bbox()).max_x() <= region.w,
        grown_box(region, dir, found, t.bbox()).max_y() <= region.h,
{
    reveal(building);
    let kid = (t, dir);
    let q = region.quadrant(dir);
    let at = region.corner(dir);
    let all = grown_box(region, dir, found, t.bbox());
    assert(dir.ord() == d);
    lemma_quadrant_wf(region, dir);
    lemma_box_step(region, d, dir, found, t.bbox());
    lemma_part_box_inside(region, d + 1, all);
    if found is Some {
        lemma_part_box_inside(region, d, found->0);
    }
    lemma_box_inside(q, t.bbox());
    let grown = kids.push(kid);
    assert forall|x: int, y: int| #[trigger]
        first_bits(grown, region.half(), 0, x, y) == part_bits(region, d + 1, x, y) by {
        lemma_first_bits_push(kids, region.half(), 0, kid, x, y);
        lemma_quadrant_bits(region, dir, x, y);
        assert(first_bits(kids, region.half(), 0, x, y) == part_bits(region, d, x, y));
    }
    assert(region.child(dir) == seq![kid]);
    assert(grown =~= kids + seq![kid]);
    assert(region.children((d + 1) as nat) == region.children(d as nat) + region.child(dir));
    assert forall|i: int| 0 <= i < grown.len() implies {
        &&& (#[trigger] grown[i]).0.wf()
        &&& 2 * grown[i].0.scale() <= region.scale()
        &&& grown[i].1.ord() < d + 1
    } by {
        if i < kids.len() {
            assert(grown[i] == kids[i]);
        }
    }
    assert forall|i: int, j: int| 0 <= i < j < grown.len() implies (#[trigger] grown[i]).1.ord() < (
    #[trigger] grown[j]).1.ord() by {
        assert(grown[i] == kids[i]);
        if j < kids.len() {
            assert(grown[j] == kids[j]);
        }
    }
    assert forall|i: int| 0 <= i < grown.len() implies all.encloses(
        (#[trigger] grown[i]).0.bbox().translate(grown[i].1.unit().times(region.half())),
    ) by {
        if i < kids.len() {
            assert(grown[i] == kids[i]);
        }
    }
}

/// After the fourth quadrant the children and their bounding box make the
/// mesh of the region.
pub proof fn lemma_building_done(
    region: Region,
    kids: Seq<(TreeModel, TileDir)>,
    found: Option<SpecRect>,
)
    requires
        region.wf(),
        region.fits(),
        region.scale() >= 2,
        building(region, 4, kids, found),
    ensures
        found is None ==> region.mesh() is None && !region.has_marks(),
        found matches Some(b) ==> {
            let node = NodeModel { children: kids, bbox: b, scale: region.scale() };
            &&& region.mesh() == Some(TreeModel::Node(node))
            &&& region.has_marks()
            &&& node.wf()
            &&& region.is_bounding_box(b)
            &&& forall|x: int, y: int| TreeModel::Node(node).bits(x, y) == region.bits(x, y)
        },
{
    reveal(building);
    match found {
        Some(b) => {
            let node = NodeModel { children: kids, bbox: b, scale: region.scale() };
            lemma_part_box_full(region, b);
            assert(region.is_bounding_box(region.bounding_box()));
            lemma_unique_box(region, b, region.bounding_box());
            lemma_part_box_inside(region, 4, b);
            assert forall|i: int, j: int| 0 <= i < j < kids.len() implies kids[i].1 != kids[j].1 by {
                assert(kids[i].1.ord() < kids[j].1.ord());
            }
            assert forall|i: int| 0 <= i < kids.len() implies b.encloses(
                (#[trigger] kids[i]).0.bbox().translate(node.child_offset(kids[i].1)),
            ) by {}
            assert(node.wf());
            assert forall|x: int, y: int| TreeModel::Node(node).bits(x, y) == region.bits(x, y) by {
                assert(first_bits(kids, region.half(), 0, x, y) == part_bits(region, 4, x, y));
            }
        },
        None => {
            assert forall|x: int, y: int| region.bits(x, y) == 0 by {
                assert(part_bits(region, 4, x, y) == 0);
            }
        },
    }
}

/// The whole of an image as a region.
pub open spec fn whole(grid: PixelGrid) -> Region {
    Region { grid, x: 0, y: 0, w: grid.width as int, h: grid.height as int }
}

/// The least scale of a mesh that is `max_len` dots wide: the tile is
/// doubled until it is wide enough.
pub fn get_scale(max_len: u32) -> (scale: u32)
    requires
        max_len <= MAX_SPAN,
    ensures
        scale == scale_for(max_len as int),
{
    let mut len: u32 = TILE_SIZE as u32;
    let mut scale: u32 = 1;
    while max_len > len
        invariant
            max_len <= MAX_SPAN,
            len == 16 * scale,
            scale == 1 || scale == 2 || scale == 4 || scale == 8 || scale == 16,
            scale > 1 ==> max_len > 8 * scale,
        decreases 256 - len,
    {
        len = len * 2;
        scale = scale * 2;
    }
    scale
}

impl MeshTree {
    /// The bounding box of the marked pixels, from the upper left corner of
    /// the mesh.
    pub fn bbox(&self) -> (bbox: DotRect)
        ensures
            bbox@ == self@.bbox(),
    {
        match self {
            MeshTree::Node(node) => node.bbox,
            MeshTree::Leaf(leaf) => leaf.bbox,
        }
    }

    /// The mesh of a region of an image: `None` where no pixel of the region
    /// has a collision bit.
    pub fn from_buf_(buf: &PixelBuf, range_orig: RectRange) -> (made: Option<MeshTree>)
        requires
            range_orig.on(buf@).wf(),
            range_orig.on(buf@).fits(),
        ensures
            tree_view(made) == range_orig.on(buf@).mesh(),
            made is Some <==> range_orig.on(buf@).has_marks(),
            made matches Some(tree) ==> {
                &&& tree@.wf()
                &&& tree@.scale() == range_orig.on(buf@).scale()
                &&& range_orig.on(buf@).is_bounding_box(tree@.bbox())
                &&& forall|x: int, y: int| tree@.bits(x, y) == range_orig.on(buf@).bits(x, y)
            },
        decreases range_orig.on(buf@).scale(),
    {
        let ghost region = range_orig.on(buf@);
        buf.inv_holds();
        let max_len = if range_orig.xlen >= range_orig.ylen {
            range_orig.xlen
        } else {
            range_orig.ylen
        };
        let scale = get_scale(max_len);
        if scale == 1 {
            return match MeshLeaf::from_buf(buf, range_orig) {
                Some(leaf) => Some(MeshTree::Leaf(leaf)),
                None => None,
            };
        }
        let mut bbox_res: Option<DotRect> = None;
        let child_scale: u32 = scale / 2;
        let tile: u32 = TILE_SIZE as u32;
        assert(child_scale * tile == 16 * child_scale) by (nonlinear_arith)
            requires
                tile == 16,
        ;
        let half: u32 = child_scale * tile;
        let dirs = TileDir::variants();
        let mut children: Vec<(MeshTree, TileDir)> = Vec::new();
        let ghost mut kids: Seq<(TreeModel, TileDir)> = Seq::empty();
        proof {
            lemma_building_start(region);
        }
        let mut d: usize = 0;
        while d < 4
            invariant
                0 <= d <= 4,
                region == range_orig.on(buf@),
                region.wf(),
                region.fits(),
                region.grid == buf@,
                region.grid.width <= u32::MAX,
                region.grid.height <= u32::MAX,
                scale == region.scale(),
                scale >= 2,
                half == region.half(),
                dirs@ == TileDir::all(),
                kids.len() == children@.len(),
                forall|i: int|
                    0 <= i < kids.len() ==> #[trigger] kids[i] == (children@[i].0@, children@[i].1),
                building(region, d as int, kids, view_opt(bbox_res)),
            decreases 4 - d,
        {
            let dir = dirs[d];
            let ghost q = region.quadrant(dir);
            proof {
                lemma_dir_times(dir, region.half());
            }
            let toward_x: u32 = dir.x::<u32>();
            let toward_y: u32 = dir.y::<u32>();
            assert(toward_x * half == dir.dx() * region.half() && toward_y * half == dir.dy()
                * region.half()) by (nonlinear_arith)
                requires
                    toward_x == dir.dx(),
                    toward_y == dir.dy(),
                    half == region.half(),
            ;
            let left_up_x: u32 = toward_x * half;
            let left_up_y: u32 = toward_y * half;
            let mut grown = false;
            if left_up_x < range_orig.xlen && left_up_y < range_orig.ylen {
                proof {
                    lemma_quadrant_wf(region, dir);
                }
                let rest_x: u32 = range_orig.xlen - left_up_x;
                let rest_y: u32 = range_orig.ylen - left_up_y;
                let inter = RectRange {
                    x: range_orig.x + left_up_x,
                    y: range_orig.y + left_up_y,
                    xlen: if rest_x <= half {
                        rest_x
                    } else {
                        half
                    },
                    ylen: if rest_y <= half {
                        rest_y
                    } else {
                        half
                    },
                };
                assert(inter.on(buf@) == q);
                match MeshTree::from_buf_(buf, inter) {
                    Some(res) => {
                        let kid_box = res.bbox();
                        proof {
                            lemma_building_grow(
                                region,
                                d as int,
                                dir,
                                kids,
                                view_opt(bbox_res),
                                res@,
                            );
                        }
                        let bbox = slide_rect(
                            kid_box,
                            DotVector { x: left_up_x as i16, y: left_up_y as i16 },
                        );
                        bbox_res = Some(
                            match bbox_res {
                                Some(b) => euclid_union(b, bbox),
                                None => bbox,
                            },
                        );
                        proof {
                            kids = kids.push((res@, dir));
                        }
                        children.push((res, dir));
                        grown = true;
                    },
                    None => {},
                }
            }
            proof {
                if !grown {
                    lemma_building_skip(region, d as int, dir, kids, view_opt(bbox_res));
                }
            }
            d += 1;
        }
        proof {
            lemma_building_done(region, kids, view_opt(bbox_res));
        }
        match bbox_res {
            Some(bbox) => {
                proof {
                    assert(child_models(children@) =~= kids);
                }
                let node = MeshNode { inner: children, bbox, scale: scale as i16 };
                assert(node@ == (NodeModel { children: kids, bbox: bbox@, scale: region.scale() }));
                Some(MeshTree::Node(node))
            },
            None => None,
        }
    }

    /// Constructs the mesh of an image from its collision bits: `None` where
    /// no pixel has any.  The image is at most 256 dots wide and high.
    pub fn from_buf(buf: &PixelBuf) -> (made: Option<MeshTree>)
        requires
            whole(buf@).fits(),
        ensures
            tree_view(made) == whole(buf@).mesh(),
            made is Some <==> exists|x: int, y: int| buf@.collision_bits(x, y) != 0,
            made matches Some(tree) ==> {
                &&& tree@.wf()
                &&& tree@.scale() == whole(buf@).scale()
                &&& whole(buf@).is_bounding_box(tree@.bbox())
                &&& forall|x: int, y: int| tree@.bits(x, y) == buf@.collision_bits(x, y)
            },
    {
        buf.inv_holds();
        let (h, w) = (buf.height(), buf.width());
        assert forall|x: int, y: int| whole(buf@).bits(x, y) == #[trigger] buf@.collision_bits(
            x,
            y,
        ) by {}
        if w == 0 || h == 0 {
            return None;
        }
        MeshTree::from_buf_(buf, RectRange { x: 0, y: 0, xlen: w, ylen: h })
    }
}

/// The mask of a row without a collision bit is zero.
pub proof fn lemma_row_mask_empty(region: Region, y: int, n: nat)
    requires
        n <= 16,
        forall|i: int| region.bits(i, y) == 0,
    ensures
        region.row_mask(y, n) == 0,
    decreases n,
{
    if n > 0 {
        lemma_row_mask_empty(region, y, (n - 1) as nat);
        lemma_or_nibble(0, 0, n as u64, 0);
    }
}

} // verus!
