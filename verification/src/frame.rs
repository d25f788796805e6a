//! Tiles, frames and collision detection.
//!
//! The pixels of a sprite frame that take part in collision are kept as a
//! quadtree.  A leaf is one tile: sixteen row masks with four collision bits
//! for each pixel, and the bounding box of the pixels that have any.  A node spans a square of
//! `scale` × `scale` tiles, where `scale` is 2, 4, 8 or 16, and holds up to
//! four children, one for each quadrant that has such a pixel.  A child lies
//! `scale / 2` tiles right of, or below, the node's origin as its direction
//! says.

use vstd::prelude::*;
use vstd::std_specs::convert::FromSpec;
use crate::frame::dottypes::{DotRect, DotVector, SpecPoint, SpecRect};
use crate::frame::rows::nibble;
use crate::tile::tiletypes::TILE_SIZE;

pub mod construct;
pub mod debug;
pub mod collide;
pub mod dottypes;
pub mod laws;
pub mod rows;
pub mod sprite;

verus! {

/// The quadrant of a node in which a child lies.
#[derive(Debug, Copy, Clone, Eq, PartialEq, Structural)]
pub enum TileDir {
    LeftUp,
    RightUp,
    RightDown,
    LeftDown,
}

impl TileDir {
    /// 1 for the two right quadrants, else 0.
    pub open spec fn dx(self) -> int {
        match self {
            TileDir::LeftUp => 0,
            TileDir::RightUp => 1,
            TileDir::RightDown => 1,
            TileDir::LeftDown => 0,
        }
    }

    /// 1 for the two lower quadrants, else 0.
    pub open spec fn dy(self) -> int {
        match self {
            TileDir::LeftUp => 0,
            TileDir::RightUp => 0,
            TileDir::RightDown => 1,
            TileDir::LeftDown => 1,
        }
    }

    /// The place of the quadrant in the order of [`TileDir::all`].
    pub open spec fn ord(self) -> int {
        match self {
            TileDir::LeftUp => 0,
            TileDir::RightUp => 1,
            TileDir::RightDown => 2,
            TileDir::LeftDown => 3,
        }
    }

    /// The quadrant as a step of one quadrant's side: `(dx, dy)`.
    pub open spec fn unit(self) -> SpecPoint {
        SpecPoint { x: self.dx(), y: self.dy() }
    }

    /// The four quadrants in the order in which a tree is built and walked.
    pub open spec fn all() -> Seq<TileDir> {
        seq![TileDir::LeftUp, TileDir::RightUp, TileDir::RightDown, TileDir::LeftDown]
    }

    /// The four quadrants in the order in which a tree is built and walked.
    pub fn variants() -> (dirs: [TileDir; 4])
        ensures
            dirs@ == TileDir::all(),
    {
        let dirs = [TileDir::LeftUp, TileDir::RightUp, TileDir::RightDown, TileDir::LeftDown];
        assert(dirs@ =~= TileDir::all());
        dirs
    }

    /// The quadrant as a step of one quadrant's side: `(dx, dy)`.
    pub fn to_vec(&self) -> (v: DotVector)
        ensures
            v@ == self.unit(),
    {
        match self {
            TileDir::LeftUp => DotVector { x: 0, y: 0 },
            TileDir::RightUp => DotVector { x: 1, y: 0 },
            TileDir::RightDown => DotVector { x: 1, y: 1 },
            TileDir::LeftDown => DotVector { x: 0, y: 1 },
        }
    }

    /// 1 for the two right quadrants, else 0, in the number type `T`.
    pub fn x<T: From<u8>>(&self) -> (v: T)
        ensures
            T::obeys_from_spec() ==> v == T::from_spec(self.dx() as u8),
    {
        match self {
            TileDir::LeftUp => T::from(0u8),
            TileDir::RightUp => T::from(1u8),
            TileDir::RightDown => T::from(1u8),
            TileDir::LeftDown => T::from(0u8),
        }
    }

    /// 1 for the two lower quadrants, else 0, in the number type `T`.
    pub fn y<T: From<u8>>(&self) -> (v: T)
        ensures
            T::obeys_from_spec() ==> v == T::from_spec(self.dy() as u8),
    {
        match self {
            TileDir::LeftUp => T::from(0u8),
            TileDir::RightUp => T::from(0u8),
            TileDir::RightDown => T::from(1u8),
            TileDir::LeftDown => T::from(1u8),
        }
    }
}

/// The four collision bits of column `x` in a row mask.
pub open spec fn row_bits(row: u64, x: int) -> u8 {
    nibble(row, x as u64) as u8
}

/// The square of the given side at the origin.
pub open spec fn square(side: int) -> SpecRect {
    SpecRect { x: 0, y: 0, w: side, h: side }
}

/// What a [`MeshLeaf`] holds.
pub ghost struct LeafModel {
    /// One mask for each of the sixteen rows of the tile.
    pub rows: Seq<u64>,
    /// The bounding box of the marked pixels, from the tile's upper left
    /// corner.
    pub bbox: SpecRect,
}

/// What a [`MeshNode`] holds.
pub ghost struct NodeModel {
    /// The children with their quadrants, in the order in which they are
    /// walked.
    pub children: Seq<(TreeModel, TileDir)>,
    /// The bounding box of the marked pixels, from the node's upper left
    /// corner.
    pub bbox: SpecRect,
    /// The side of the node in tiles.
    pub scale: int,
}

/// What a [`MeshTree`] holds.
pub ghost enum TreeModel {
    Leaf(LeafModel),
    Node(NodeModel),
}

impl LeafModel {
    /// The collision bits of the pixel `(x, y)` of the tile; none outside it.
    pub open spec fn bits(self, x: int, y: int) -> u8 {
        if 0 <= x < 16 && 0 <= y < 16 {
            row_bits(self.rows[y], x)
        } else {
            0
        }
    }

    /// There are sixteen rows, the bounding box holds a pixel and lies in
    /// the tile, and every pixel with a collision bit lies in the bounding
    /// box.
    pub open spec fn wf(self) -> bool {
        &&& self.rows.len() == 16
        &&& self.bbox.nonempty()
        &&& square(16).encloses(self.bbox)
        &&& forall|x: int, y: int| #[trigger] self.bits(x, y) != 0 ==> self.bbox.contains(x, y)
    }
}

impl NodeModel {
    /// The side of a quadrant in dots.
    pub open spec fn half(self) -> int {
        8 * self.scale
    }

    /// Where the quadrant `dir` starts, from the node's upper left corner.
    pub open spec fn child_offset(self, dir: TileDir) -> SpecPoint {
        dir.unit().times(self.half())
    }

    /// The invariant of a node: that of the tree which it is the root of.
    pub open spec fn wf(self) -> bool {
        TreeModel::Node(self).wf()
    }
}

impl TreeModel {
    /// The side of the tree in tiles.
    pub open spec fn scale(self) -> int {
        match self {
            TreeModel::Leaf(_) => 1,
            TreeModel::Node(n) => n.scale,
        }
    }

    /// The side of the tree in dots.
    pub open spec fn span(self) -> int {
        16 * self.scale()
    }

    /// The bounding box of the marked pixels, from the tree's upper left
    /// corner.
    pub open spec fn bbox(self) -> SpecRect {
        match self {
            TreeModel::Leaf(l) => l.bbox,
            TreeModel::Node(n) => n.bbox,
        }
    }

    /// The collision bits of the pixel `(x, y)`, counted from the tree's
    /// upper left corner: those that the first child with any has there.
    pub open spec fn bits(self, x: int, y: int) -> u8
        decreases self,
    {
        match self {
            TreeModel::Leaf(l) => l.bits(x, y),
            TreeModel::Node(n) => first_bits(n.children, n.half(), 0, x, y),
        }
    }

    /// The invariant of a tree.
    ///
    /// Of a node: its scale is 2, 4, 8 or 16; it has a child, and no two of
    /// them in one quadrant; each child is itself well formed and no larger
    /// than a quadrant; the bounding box lies in the node's square and holds
    /// the bounding box of each child, moved to the child's quadrant.
    pub open spec fn wf(self) -> bool
        decreases self,
    {
        match self {
            TreeModel::Leaf(l) => l.wf(),
            TreeModel::Node(n) => {
                &&& (n.scale == 2 || n.scale == 4 || n.scale == 8 || n.scale == 16)
                &&& 1 <= n.children.len() <= 4
                &&& n.bbox.nonempty()
                &&& square(16 * n.scale).encloses(n.bbox)
                &&& forall|i: int, j: int|
                    0 <= i < j < n.children.len() ==> n.children[i].1 != n.children[j].1
                &&& forall|i: int|
                    0 <= i < n.children.len() ==> {
                        &&& (#[trigger] n.children[i]).0.wf()
                        &&& 2 * n.children[i].0.scale() <= n.scale
                        &&& n.bbox.encloses(
                            n.children[i].0.bbox().translate(n.child_offset(n.children[i].1)),
                        )
                    }
            },
        }
    }
}

/// The collision bits of the pixel `(x, y)` in the first of the children
/// from the `k`-th on that has any there.  Each child lies in its quadrant,
/// whose side is `half`.
pub open spec fn first_bits(
    children: Seq<(TreeModel, TileDir)>,
    half: int,
    k: nat,
    x: int,
    y: int,
) -> u8
    decreases children, children.len() - k,
{
    if k >= children.len() {
        0
    } else {
        let (child, dir) = children[k as int];
        let here = child.bits(x - dir.dx() * half, y - dir.dy() * half);
        if here != 0 {
            here
        } else {
            first_bits(children, half, k + 1, x, y)
        }
    }
}

/// The step of a quadrant times a length is nothing or that length.
pub proof fn lemma_dir_times(dir: TileDir, half: int)
    ensures
        dir.dx() * half == if dir.dx() == 1 { half } else { 0 },
        dir.dy() * half == if dir.dy() == 1 { half } else { 0 },
{
    assert(dir.dx() * half == if dir.dx() == 1 { half } else { 0 }) by (nonlinear_arith)
        requires
            dir.dx() == 0 || dir.dx() == 1,
    ;
    assert(dir.dy() * half == if dir.dy() == 1 { half } else { 0 }) by (nonlinear_arith)
        requires
            dir.dy() == 0 || dir.dy() == 1,
    ;
}

/// A quadrant starts at the node's origin or half its side away from it.
pub proof fn lemma_child_offset(n: NodeModel, dir: TileDir)
    ensures
        n.child_offset(dir).x == dir.dx() * n.half(),
        n.child_offset(dir).y == dir.dy() * n.half(),
        n.child_offset(dir).x == if dir.dx() == 1 { n.half() } else { 0 },
        n.child_offset(dir).y == if dir.dy() == 1 { n.half() } else { 0 },
{
    lemma_dir_times(dir, n.half());
}

/// One tile of a mesh: the collision bits of its 16×16 pixels.
#[derive(Copy, Clone)]
pub struct MeshLeaf {
    /// A mask for each row, four bits a pixel, the leftmost pixel highest.
    inner: [u64; TILE_SIZE],
    /// Bounding box of the marked pixels, from the tile's upper left corner.
    bbox: DotRect,
}

/// An inner node of a mesh.
pub struct MeshNode {
    inner: Vec<(MeshTree, TileDir)>,
    bbox: DotRect,
    scale: i16,
}

/// The pixels of a sprite frame that take part in collision.
pub enum MeshTree {
    Leaf(MeshLeaf),
    Node(MeshNode),
}

impl View for MeshLeaf {
    type V = LeafModel;

    closed spec fn view(&self) -> LeafModel {
        LeafModel { rows: self.inner@, bbox: self.bbox@ }
    }
}

/// What the children of a node hold.
pub closed spec fn child_models(inner: Seq<(MeshTree, TileDir)>) -> Seq<(TreeModel, TileDir)>
    decreases inner,
{
    Seq::new(
        inner.len(),
        |i: int|
            if 0 <= i < inner.len() {
                (inner[i].0.model(), inner[i].1)
            } else {
                arbitrary()
            },
    )
}

impl MeshLeaf {
    /// A leaf is well formed.
    #[verifier::type_invariant]
    spec fn inv(&self) -> bool {
        self@.wf()
    }

    /// A leaf is well formed.  Nothing is done when the program runs.
    pub fn inv_holds(&self)
        ensures
            self@.wf(),
    {
        proof {
            use_type_invariant(self);
        }
    }
}

impl MeshNode {
    /// What the node holds: its view.
    pub closed spec fn model(&self) -> NodeModel
        decreases self,
    {
        NodeModel {
            children: child_models(self.inner@),
            bbox: self.bbox@,
            scale: self.scale as int,
        }
    }

    /// A node is well formed.
    #[verifier::type_invariant]
    spec fn inv(&self) -> bool {
        self.model().wf()
    }

    /// A node is well formed.  Nothing is done when the program runs.
    pub fn inv_holds(&self)
        ensures
            self@.wf(),
    {
        proof {
            use_type_invariant(self);
        }
    }
}

impl MeshTree {
    /// What the tree holds: its view.
    pub closed spec fn model(&self) -> TreeModel
        decreases self,
    {
        match self {
            MeshTree::Leaf(l) => TreeModel::Leaf(l@),
            MeshTree::Node(n) => TreeModel::Node(n.model()),
        }
    }

    /// A tree is well formed.  Nothing is done when the program runs.
    pub fn inv_holds(&self)
        ensures
            self@.wf(),
    {
        match self {
            MeshTree::Leaf(l) => l.inv_holds(),
            MeshTree::Node(n) => n.inv_holds(),
        }
    }
}

impl View for MeshNode {
    type V = NodeModel;

    closed spec fn view(&self) -> NodeModel {
        self.model()
    }
}

impl View for MeshTree {
    type V = TreeModel;

    closed spec fn view(&self) -> TreeModel {
        self.model()
    }
}

} // verus!
