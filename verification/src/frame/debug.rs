//! The row masks of a whole mesh laid out as one grid, for inspection and
//! for restoring the image that a frame was made from.

use vstd::prelude::*;
use crate::frame::laws::{lemma_bits_in_bbox, lemma_bits_witness};
use crate::frame::construct::lemma_first_bits_push;
use crate::frame::rows::{lemma_or_nibble, nibble};
use crate::frame::{
    first_bits,
    lemma_child_offset,
    lemma_dir_times,
    MeshLeaf,
    MeshNode,
    MeshTree,
    NodeModel,
    TileDir,
    TreeModel,
};
use crate::tile::tiletypes::TILE_SIZE;

verus! {

/// `mask` holds the collision bits of the sixteen pixels from column
/// `16 * c` on in row `y` of the mesh.
pub open spec fn is_mask_of(t: TreeModel, c: int, y: int, mask: u64) -> bool {
    forall|i: u64| i < 16 ==> #[trigger] nibble(mask, i) == t.bits(16 * c + i, y) as u64
}

/// `buf` is the grid of the row masks of the mesh: a row for each row of
/// pixels, and in it a mask for each column of tiles.
pub open spec fn is_debug_buf(t: TreeModel, buf: Seq<Vec<u64>>) -> bool {
    &&& buf.len() == 16 * t.scale()
    &&& forall|y: int| 0 <= y < buf.len() ==> (#[trigger] buf[y])@.len() == t.scale()
    &&& forall|y: int, c: int|
        0 <= y < 16 * t.scale() && 0 <= c < t.scale() ==> is_mask_of(t, c, y, #[trigger] buf[y]@[c])
}

/// `mask` holds the collision bits that the given children show in the
/// sixteen pixels from column `16 * c` on in row `y`.
pub open spec fn is_mask_of_children(
    children: Seq<(TreeModel, TileDir)>,
    half: int,
    c: int,
    y: int,
    mask: u64,
) -> bool {
    forall|i: u64|
        i < 16 ==> #[trigger] nibble(mask, i) == first_bits(children, half, 0, 16 * c + i, y) as u64
}

/// The mask of a cell of a node's grid after the grid of one more child was
/// copied into its quadrant.
proof fn lemma_copy_cell(n: NodeModel, k: int, c: int, y: int, before: u64, kid_mask: u64)
    requires
        n.wf(),
        0 <= k < n.children.len(),
        is_mask_of_children(n.children.subrange(0, k), n.half(), c, y, before),
        ({
            let (kid, dir) = n.children[k];
            let col = c - dir.dx() * (n.scale / 2);
            let row = y - dir.dy() * n.half();
            0 <= col < kid.scale() && 0 <= row < 16 * kid.scale() ==> is_mask_of(
                kid,
                col,
                row,
                kid_mask,
            )
        }),
    ensures
        ({
            let (kid, dir) = n.children[k];
            let col = c - dir.dx() * (n.scale / 2);
            let row = y - dir.dy() * n.half();
            is_mask_of_children(
                n.children.subrange(0, k + 1),
                n.half(),
                c,
                y,
                if 0 <= col < kid.scale() && 0 <= row < 16 * kid.scale() {
                    kid_mask
                } else {
                    before
                },
            )
        }),
{
    let (kid, dir) = n.children[k];
    let at = n.child_offset(dir);
    let col = c - dir.dx() * (n.scale / 2);
    let row = y - dir.dy() * n.half();
    let inside = 0 <= col < kid.scale() && 0 <= row < 16 * kid.scale();
    let after = if inside { kid_mask } else { before };
    let prefix = n.children.subrange(0, k);
    assert(n.children.subrange(0, k + 1) =~= prefix.push(n.children[k]));
    lemma_child_offset(n, dir);
    assert(kid.wf());
    assert(2 * kid.scale() <= n.scale);
    lemma_dir_times(dir, n.scale / 2);
    assert forall|i: u64| i < 16 implies #[trigger] nibble(after, i) == first_bits(
        prefix.push(n.children[k]),
        n.half(),
        0,
        16 * c + i,
        y,
    ) as u64 by {
        let x = 16 * c + i;
        lemma_first_bits_push(prefix, n.half(), 0, n.children[k], x, y);
        let earlier = first_bits(prefix, n.half(), 0, x, y);
        let here = kid.bits(x - at.x, y - at.y);
        assert(x - at.x == 16 * col + i);
        if here != 0 {
            lemma_bits_in_bbox(kid, x - at.x, y - at.y);
            assert(inside);
            if earlier != 0 {
                let j = lemma_bits_witness(prefix, n.half(), 0, x, y);
                assert(prefix[j] == n.children[j]);
                let (other, other_dir) = n.children[j];
                let other_at = n.child_offset(other_dir);
                lemma_child_offset(n, other_dir);
                assert(other.wf());
                assert(2 * other.scale() <= n.scale);
                lemma_bits_in_bbox(other, x - other_at.x, y - other_at.y);
                assert(other_dir != dir);
                assert(false);
            }
        } else {
            if inside {
                assert(nibble(kid_mask, i) == 0);
                if earlier != 0 {
                    let j = lemma_bits_witness(prefix, n.half(), 0, x, y);
                    assert(prefix[j] == n.children[j]);
                    let (other, other_dir) = n.children[j];
                    let other_at = n.child_offset(other_dir);
                    lemma_child_offset(n, other_dir);
                    assert(other.wf());
                    assert(2 * other.scale() <= n.scale);
                    lemma_bits_in_bbox(other, x - other_at.x, y - other_at.y);
                    assert(other_dir != dir);
                    assert(false);
                }
            }
        }
    }
}

impl MeshLeaf {
    /// The sixteen row masks of the tile, each in a row of its own.
    pub fn get_debug_buf(&self) -> (buf: Vec<Vec<u64>>)
        ensures
            is_debug_buf(TreeModel::Leaf(self@), buf@),
    {
        self.inv_holds();
        let mut buf: Vec<Vec<u64>> = Vec::new();
        let mut y: usize = 0;
        while y < TILE_SIZE
            invariant
                0 <= y <= 16,
                self@.rows.len() == 16,
                buf@.len() == y,
                forall|j: int| 0 <= j < y ==> (#[trigger] buf@[j])@ == seq![self@.rows[j]],
            decreases 16 - y,
        {
            let mut row: Vec<u64> = Vec::new();
            row.push(self.inner[y]);
            assert(row@ =~= seq![self@.rows[y as int]]);
            buf.push(row);
            y += 1;
        }
        proof {
            let t = TreeModel::Leaf(self@);
            assert forall|y: int, c: int| 0 <= y < 16 * t.scale() && 0 <= c < t.scale() implies is_mask_of(
                t,
                c,
                y,
                #[trigger] buf@[y]@[c],
            ) by {
                assert forall|i: u64| i < 16 implies #[trigger] nibble(buf@[y]@[c], i) == t.bits(
                    16 * c + i,
                    y,
                ) as u64 by {
                    lemma_or_nibble(buf@[y]@[c], 0, 1, i);
                }
            }
        }
        buf
    }
}

impl MeshNode {
    /// The grid of the row masks of the node: the grid of each child, copied
    /// into the child's quadrant of a grid of empty masks.
    pub fn get_debug_buf(&self) -> (buf: Vec<Vec<u64>>)
        ensures
            is_debug_buf(TreeModel::Node(self@), buf@),
        decreases self@.scale,
    {
        let ghost n = self@;
        self.inv_holds();
        assert(2 <= n.scale <= 16);
        let uscale: usize = self.scale as usize;
        let child_scale: usize = uscale / 2;
        let mut buf: Vec<Vec<u64>> = Vec::new();
        let mut y: usize = 0;
        while y < TILE_SIZE * uscale
            invariant
                0 <= y <= 16 * uscale,
                2 <= uscale <= 16,
                buf@.len() == y,
                forall|j: int| 0 <= j < y ==> (#[trigger] buf@[j])@.len() == uscale,
                forall|j: int, c: int| 0 <= j < y && 0 <= c < uscale ==> #[trigger] buf@[j]@[c] == 0,
            decreases 16 * uscale - y,
        {
            let mut row: Vec<u64> = Vec::new();
            let mut c: usize = 0;
            while c < uscale
                invariant
                    0 <= c <= uscale,
                    row@.len() == c,
                    forall|j: int| 0 <= j < c ==> row@[j] == 0,
                decreases uscale - c,
            {
                row.push(0u64);
                c += 1;
            }
            buf.push(row);
            y += 1;
        }
        proof {
            assert forall|y: int, c: int| 0 <= y < 16 * n.scale && 0 <= c < n.scale implies is_mask_of_children(
                n.children.subrange(0, 0),
                n.half(),
                c,
                y,
                #[trigger] buf@[y]@[c],
            ) by {
                assert forall|i: u64| i < 16 implies #[trigger] nibble(buf@[y]@[c], i) == first_bits(
                    n.children.subrange(0, 0),
                    n.half(),
                    0,
                    16 * c + i,
                    y,
                ) as u64 by {
                    lemma_or_nibble(0, 0, 1, i);
                }
            }
        }
        let mut k: usize = 0;
        while k < self.inner.len()
            invariant
                0 <= k <= self.inner.len(),
                n == self@,
                n.wf(),
                self.inner@.len() == n.children.len(),
                uscale == n.scale,
                child_scale == n.scale / 2,
                buf@.len() == 16 * n.scale,
                forall|j: int| 0 <= j < buf@.len() ==> (#[trigger] buf@[j])@.len() == n.scale,
                forall|y: int, c: int|
                    0 <= y < 16 * n.scale && 0 <= c < n.scale ==> is_mask_of_children(
                        n.children.subrange(0, k as int),
                        n.half(),
                        c,
                        y,
                        #[trigger] buf@[y]@[c],
                    ),
            decreases self.inner.len() - k,
        {
            let child = &self.inner[k].0;
            let dir = self.inner[k].1;
            let ghost kid = n.children[k as int];
            assert(kid == (child@, dir));
            assert(kid.0.wf() && 2 * kid.0.scale() <= n.scale);
            let child_buf = match child {
                MeshTree::Leaf(leaf) => leaf.get_debug_buf(),
                MeshTree::Node(node) => node.get_debug_buf(),
            };
            let toward_x: usize = dir.x::<usize>();
            let toward_y: usize = dir.y::<usize>();
            let tile: usize = TILE_SIZE;
            proof {
                lemma_child_offset(n, dir);
                lemma_dir_times(dir, child_scale as int);
                assert((toward_y * child_scale) * tile == 16 * (toward_y * child_scale))
                    by (nonlinear_arith)
                    requires
                        tile == 16,
                ;
            }
            let col0: usize = toward_x * child_scale;
            let row0: usize = toward_y * child_scale * tile;
            assert(col0 == dir.dx() * (n.scale / 2));
            assert(row0 == dir.dy() * n.half());
            let ghost before = buf@;
            let rows = child_buf.len();
            let mut r: usize = 0;
            while r < rows
                invariant
                    0 <= r <= rows,
                    rows == 16 * kid.0.scale(),
                    rows == child_buf@.len(),
                    1 <= kid.0.scale(),
                    2 * kid.0.scale() <= n.scale,
                    n.scale <= 16,
                    col0 + kid.0.scale() <= n.scale,
                    row0 + rows <= 16 * n.scale,
                    is_debug_buf(kid.0, child_buf@),
                    buf@.len() == 16 * n.scale,
                    before.len() == 16 * n.scale,
                    forall|j: int| 0 <= j < buf@.len() ==> (#[trigger] buf@[j])@.len() == n.scale,
                    forall|j: int| 0 <= j < before.len() ==> (#[trigger] before[j])@.len() == n.scale,
                    forall|y: int, c: int|
                        0 <= y < 16 * n.scale && 0 <= c < n.scale ==> #[trigger] buf@[y]@[c] == if row0
                            <= y < row0 + r && col0 <= c < col0 + kid.0.scale() {
                            child_buf@[y - row0]@[c - col0]
                        } else {
                            before[y]@[c]
                        },
                decreases rows - r,
            {
                let cols = child_buf[r].len();
                let mut c: usize = 0;
                while c < cols
                    invariant
                        0 <= c <= cols,
                        0 <= r < rows,
                        rows == 16 * kid.0.scale(),
                        rows == child_buf@.len(),
                        cols == kid.0.scale(),
                        cols == child_buf@[r as int]@.len(),
                        n.scale <= 16,
                        col0 + cols <= n.scale,
                        row0 + rows <= 16 * n.scale,
                        buf@.len() == 16 * n.scale,
                        before.len() == 16 * n.scale,
                        forall|j: int|
                            0 <= j < buf@.len() ==> (#[trigger] buf@[j])@.len() == n.scale,
                        forall|j: int|
                            0 <= j < before.len() ==> (#[trigger] before[j])@.len() == n.scale,
                        forall|y: int, cc: int|
                            0 <= y < 16 * n.scale && 0 <= cc < n.scale ==> #[trigger] buf@[y]@[cc]
                                == if col0 <= cc < col0 + cols && (row0 <= y < row0 + r || (y == row0
                                + r && cc < col0 + c)) {
                                child_buf@[y - row0]@[cc - col0]
                            } else {
                                before[y]@[cc]
                            },
                    decreases cols - c,
                {
                    let v = child_buf[r][c];
                    buf[row0 + r][col0 + c] = v;
                    c += 1;
                }
                r += 1;
            }
            proof {
                assert forall|y: int, c: int|
                    0 <= y < 16 * n.scale && 0 <= c < n.scale implies is_mask_of_children(
                    n.children.subrange(0, k + 1),
                    n.half(),
                    c,
                    y,
                    #[trigger] buf@[y]@[c],
                ) by {
                    let col = c - col0;
                    let row = y - row0;
                    let inside = 0 <= col < kid.0.scale() && 0 <= row < 16 * kid.0.scale();
                    let kid_mask = if inside {
                        child_buf@[row]@[col]
                    } else {
                        0
                    };
                    assert(is_mask_of_children(
                        n.children.subrange(0, k as int),
                        n.half(),
                        c,
                        y,
                        before[y]@[c],
                    ));
                    lemma_copy_cell(n, k as int, c, y, before[y]@[c], kid_mask);
                }
            }
            k += 1;
        }
        proof {
            let t = TreeModel::Node(n);
            assert(n.children.subrange(0, n.children.len() as int) =~= n.children);
            assert forall|y: int, c: int| 0 <= y < 16 * t.scale() && 0 <= c < t.scale() implies is_mask_of(
                t,
                c,
                y,
                #[trigger] buf@[y]@[c],
            ) by {
                assert(is_mask_of_children(n.children, n.half(), c, y, buf@[y]@[c]));
            }
        }
        buf
    }
}

impl MeshTree {
    /// The grid of the row masks of the mesh.
    pub fn get_debug_buf(&self) -> (buf: Vec<Vec<u64>>)
        ensures
            is_debug_buf(self@, buf@),
    {
        match self {
            MeshTree::Node(node) => node.get_debug_buf(),
            MeshTree::Leaf(leaf) => leaf.get_debug_buf(),
        }
    }
}

} // verus!
