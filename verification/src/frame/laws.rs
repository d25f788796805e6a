//! What holds of every well-formed mesh and of every collision query.

use vstd::prelude::*;
use crate::frame::collide::{
    collide_spec,
    leaf_overlap,
    lemma_leaf_overlap_symmetric,
    lemma_leaf_swap,
    scan_other,
    scan_self,
    both_marked,
};
use crate::frame::construct::{lemma_unique_box, whole, Region};
use crate::frame::dottypes::{SpecPoint, SpecRect};
use crate::frame::{first_bits, lemma_child_offset, lemma_dir_times, square, LeafModel, NodeModel, TileDir, TreeModel};
use crate::pixels::PixelGrid;

verus! {

/// Every pixel of a well-formed mesh that has a collision bit lies within
/// the bounding box of the mesh, and so within its square.
pub proof fn lemma_bits_in_bbox(t: TreeModel, x: int, y: int)
    requires
        t.wf(),
        t.bits(x, y) != 0,
    ensures
        t.bbox().contains(x, y),
        square(t.span()).contains(x, y),
    decreases t,
{
    match t {
        TreeModel::Leaf(l) => {},
        TreeModel::Node(n) => {
            let j = lemma_bits_witness(n.children, n.half(), 0, x, y);
            let (child, dir) = n.children[j];
            let at = n.child_offset(dir);
            assert(child.wf());
            lemma_bits_in_bbox(child, x - at.x, y - at.y);
            assert(n.bbox.encloses(child.bbox().translate(at)));
        },
    }
}

/// The child whose collision bits a node shows at a pixel.
pub proof fn lemma_bits_witness(
    children: Seq<(TreeModel, TileDir)>,
    half: int,
    k: nat,
    x: int,
    y: int,
) -> (j: int)
    requires
        first_bits(children, half, k, x, y) != 0,
    ensures
        k <= j < children.len(),
        first_bits(children, half, k, x, y) == children[j].0.bits(
            x - children[j].1.dx() * half,
            y - children[j].1.dy() * half,
        ),
    decreases children.len() - k,
{
    let (child, dir) = children[k as int];
    if child.bits(x - dir.dx() * half, y - dir.dy() * half) != 0 {
        k as int
    } else {
        lemma_bits_witness(children, half, k + 1, x, y)
    }
}

/// The answer of a query where both meshes are moved by `by`: the answer
/// before, moved by `by`.
pub open spec fn moved(hit: Option<SpecRect>, by: SpecPoint) -> Option<SpecRect> {
    match hit {
        Some(r) => Some(r.translate(by)),
        None => None,
    }
}

/// Moving both meshes by the same vector moves the answer by that vector,
/// and changes nothing else.
pub proof fn lemma_translation_invariant(
    a: TreeModel,
    b: TreeModel,
    oa: SpecPoint,
    ob: SpecPoint,
    by: SpecPoint,
)
    ensures
        collide_spec(a, b, oa.plus(by), ob.plus(by)) == moved(collide_spec(a, b, oa, ob), by),
    decreases a, b, 1nat, 0nat,
{
    match a {
        TreeModel::Leaf(la) => match b {
            TreeModel::Leaf(lb) => lemma_leaf_moved(la, lb, oa, ob, by),
            TreeModel::Node(_) => lemma_scan_other_moved(a, b, 0, oa, ob, by),
        },
        TreeModel::Node(_) => lemma_scan_self_moved(a, b, 0, oa, ob, by),
    }
}

proof fn lemma_leaf_moved(a: LeafModel, b: LeafModel, oa: SpecPoint, ob: SpecPoint, by: SpecPoint)
    ensures
        leaf_overlap(a, b, oa.plus(by), ob.plus(by)) == moved(leaf_overlap(a, b, oa, ob), by),
{
    if exists|x: int, y: int| both_marked(a, b, oa, ob, x, y) {
        let (x, y) = choose|x: int, y: int| both_marked(a, b, oa, ob, x, y);
        assert(both_marked(a, b, oa.plus(by), ob.plus(by), x + by.x, y + by.y));
    }
    if exists|x: int, y: int| both_marked(a, b, oa.plus(by), ob.plus(by), x, y) {
        let (x, y) = choose|x: int, y: int| both_marked(a, b, oa.plus(by), ob.plus(by), x, y);
        assert(both_marked(a, b, oa, ob, x - by.x, y - by.y));
    }
}

proof fn lemma_scan_self_moved(
    a: TreeModel,
    b: TreeModel,
    k: nat,
    oa: SpecPoint,
    ob: SpecPoint,
    by: SpecPoint,
)
    requires
        a is Node,
    ensures
        scan_self(a, b, k, oa.plus(by), ob.plus(by)) == moved(scan_self(a, b, k, oa, ob), by),
    decreases a, b, 0nat, a->Node_0.children.len() - k,
{
    let n = a->Node_0;
    if k < n.children.len() {
        let (child, dir) = n.children[k as int];
        let at = n.child_offset(dir);
        assert(oa.plus(by).plus(at) == oa.plus(at).plus(by));
        lemma_translation_invariant(child, b, oa.plus(at), ob, by);
        lemma_scan_self_moved(a, b, k + 1, oa, ob, by);
    }
}

proof fn lemma_scan_other_moved(
    a: TreeModel,
    b: TreeModel,
    k: nat,
    oa: SpecPoint,
    ob: SpecPoint,
    by: SpecPoint,
)
    requires
        b is Node,
    ensures
        scan_other(a, b, k, oa.plus(by), ob.plus(by)) == moved(scan_other(a, b, k, oa, ob), by),
    decreases a, b, 0nat, b->Node_0.children.len() - k,
{
    let n = b->Node_0;
    if k < n.children.len() {
        let (child, dir) = n.children[k as int];
        let at = n.child_offset(dir);
        assert(ob.plus(by).plus(at) == ob.plus(at).plus(by));
        lemma_translation_invariant(a, child, oa, ob.plus(at), by);
        lemma_scan_other_moved(a, b, k + 1, oa, ob, by);
    }
}

/// The least of the numbers from `lo` up to `hi` that `p` holds of.
proof fn lemma_least(p: spec_fn(int) -> bool, lo: int, hi: int) -> (m: int)
    requires
        exists|i: int| lo <= i < hi && #[trigger] p(i),
    ensures
        lo <= m < hi,
        p(m),
        forall|i: int| lo <= i < m ==> !#[trigger] p(i),
    decreases hi - lo,
{
    if p(lo) {
        lo
    } else {
        let i = choose|i: int| lo <= i < hi && #[trigger] p(i);
        assert(lo + 1 <= i < hi && p(i));
        lemma_least(p, lo + 1, hi)
    }
}

/// The greatest of the numbers from `lo` up to `hi` that `p` holds of.
proof fn lemma_greatest(p: spec_fn(int) -> bool, lo: int, hi: int) -> (m: int)
    requires
        exists|i: int| lo <= i < hi && #[trigger] p(i),
    ensures
        lo <= m < hi,
        p(m),
        forall|i: int| m < i < hi ==> !#[trigger] p(i),
    decreases hi - lo,
{
    if p(hi - 1) {
        hi - 1
    } else {
        let i = choose|i: int| lo <= i < hi && #[trigger] p(i);
        assert(lo <= i < hi - 1 && p(i));
        lemma_greatest(p, lo, hi - 1)
    }
}

/// A region with a pixel that has a collision bit has a bounding box.
pub proof fn lemma_box_exists(region: Region)
    requires
        region.has_marks(),
    ensures
        region.is_bounding_box(region.bounding_box()),
{
    let (x0, y0) = choose|x: int, y: int| region.bits(x, y) != 0;
    let in_col = |x: int| exists|y: int| #[trigger] region.bits(x, y) != 0;
    let in_row = |y: int| exists|x: int| #[trigger] region.bits(x, y) != 0;
    assert(0 <= x0 < region.w && in_col(x0));
    assert(0 <= y0 < region.h && in_row(y0));
    let min_x = lemma_least(in_col, 0, region.w);
    let max_x = lemma_greatest(in_col, 0, region.w);
    let min_y = lemma_least(in_row, 0, region.h);
    let max_y = lemma_greatest(in_row, 0, region.h);
    let r = SpecRect { x: min_x, y: min_y, w: max_x - min_x + 1, h: max_y - min_y + 1 };
    assert forall|x: int, y: int| #[trigger] region.bits(x, y) != 0 implies r.contains(x, y) by {
        assert(in_col(x));
        assert(in_row(y));
    }
    assert(r.contains(x0, y0));
    assert(in_col(min_x) && in_col(max_x) && in_row(min_y) && in_row(max_y));
    let y1 = choose|y: int| #[trigger] region.bits(min_x, y) != 0;
    let y2 = choose|y: int| #[trigger] region.bits(max_x, y) != 0;
    let x1 = choose|x: int| #[trigger] region.bits(x, min_y) != 0;
    let x2 = choose|x: int| #[trigger] region.bits(x, max_y) != 0;
    assert(region.bits(r.x, y1) != 0);
    assert(region.bits(r.max_x() - 1, y2) != 0);
    assert(region.bits(x1, r.y) != 0);
    assert(region.bits(x2, r.max_y() - 1) != 0);
    assert(region.is_bounding_box(r));
}

/// Two regions of one size that agree on the collision bits of each pixel
/// have the same row masks.
proof fn lemma_same_row_mask(r1: Region, r2: Region, y: int, n: nat)
    requires
        forall|x: int, y: int| r1.bits(x, y) == r2.bits(x, y),
    ensures
        r1.row_mask(y, n) == r2.row_mask(y, n),
    decreases n,
{
    if n > 0 {
        lemma_same_row_mask(r1, r2, y, (n - 1) as nat);
    }
}

/// Two regions of one size that agree on the collision bits of each pixel
/// have the same bounding boxes.
proof fn lemma_same_box(r1: Region, r2: Region)
    requires
        forall|x: int, y: int| r1.bits(x, y) == r2.bits(x, y),
        r1.has_marks(),
    ensures
        r2.has_marks(),
        r1.bounding_box() == r2.bounding_box(),
{
    let (x0, y0) = choose|x: int, y: int| r1.bits(x, y) != 0;
    assert(r2.bits(x0, y0) != 0);
    lemma_box_exists(r1);
    lemma_box_exists(r2);
    let b = r1.bounding_box();
    let y1 = choose|y: int| #[trigger] r1.bits(b.x, y) != 0;
    let y2 = choose|y: int| #[trigger] r1.bits(b.max_x() - 1, y) != 0;
    let x1 = choose|x: int| #[trigger] r1.bits(x, b.y) != 0;
    let x2 = choose|x: int| #[trigger] r1.bits(x, b.max_y() - 1) != 0;
    assert(r2.bits(b.x, y1) != 0);
    assert(r2.bits(b.max_x() - 1, y2) != 0);
    assert(r2.bits(x1, b.y) != 0);
    assert(r2.bits(x2, b.max_y() - 1) != 0);
    assert forall|x: int, y: int| #[trigger] r2.bits(x, y) != 0 implies b.contains(x, y) by {
        assert(r1.bits(x, y) != 0);
    }
    assert(r2.is_bounding_box(b));
    lemma_unique_box(r2, b, r2.bounding_box());
}

/// The mesh of a region is a matter of the collision bits of its pixels
/// alone: two regions of one size that agree on them have the same mesh,
/// row mask for row mask and bounding box for bounding box.
pub proof fn lemma_mesh_of_bits(r1: Region, r2: Region)
    requires
        r1.w == r2.w,
        r1.h == r2.h,
        forall|x: int, y: int| r1.bits(x, y) == r2.bits(x, y),
    ensures
        r1.mesh() == r2.mesh(),
    decreases r1.scale(), 2nat, 0nat,
{
    if r1.has_marks() {
        lemma_same_box(r1, r2);
        if r1.scale() <= 1 {
            assert forall|y: int| 0 <= y < 16 implies r1.leaf_rows()[y] == r2.leaf_rows()[y] by {
                lemma_same_row_mask(r1, r2, y, r1.w as nat);
            }
            assert(r1.leaf_rows() =~= r2.leaf_rows());
        } else {
            lemma_children_of_bits(r1, r2, 4);
        }
    } else {
        if r2.has_marks() {
            let (x0, y0) = choose|x: int, y: int| r2.bits(x, y) != 0;
            assert(r1.bits(x0, y0) != 0);
        }
    }
}

proof fn lemma_children_of_bits(r1: Region, r2: Region, upto: nat)
    requires
        r1.w == r2.w,
        r1.h == r2.h,
        forall|x: int, y: int| r1.bits(x, y) == r2.bits(x, y),
    ensures
        r1.children(upto) == r2.children(upto),
    decreases r1.scale(), 1nat, upto,
{
    if !(upto == 0 || upto > 4) {
        lemma_children_of_bits(r1, r2, (upto - 1) as nat);
        let dir = TileDir::all()[upto - 1];
        assert(r1.scale() == r2.scale());
        assert(r1.corner(dir) == r2.corner(dir));
        assert(r1.reaches(dir) == r2.reaches(dir));
        if r1.scale() >= 2 && r1.reaches(dir) {
            let q1 = r1.quadrant(dir);
            let q2 = r2.quadrant(dir);
            let at = r1.corner(dir);
            lemma_dir_times(dir, r1.half());
            assert(0 <= at.x && 0 <= at.y);
            assert forall|x: int, y: int| q1.bits(x, y) == q2.bits(x, y) by {
                assert(r1.bits(x + at.x, y + at.y) == r2.bits(x + at.x, y + at.y));
            }
            lemma_mesh_of_bits(q1, q2);
        }
        assert(r1.child(dir) == r2.child(dir));
    }
}

/// Building is deterministic, and blind to colour and opacity: two images
/// of one size whose pixels have the same collision bits have the same mesh.
pub proof fn lemma_same_bits_same_mesh(g1: PixelGrid, g2: PixelGrid)
    requires
        g1.width == g2.width,
        g1.height == g2.height,
        forall|x: int, y: int| g1.collision_bits(x, y) == g2.collision_bits(x, y),
    ensures
        whole(g1).mesh() == whole(g2).mesh(),
{
    assert forall|x: int, y: int| whole(g1).bits(x, y) == whole(g2).bits(x, y) by {
        assert(g1.collision_bits(x, y) == g2.collision_bits(x, y));
    }
    lemma_mesh_of_bits(whole(g1), whole(g2));
}

/// On the dot `(x, y)` lie an occupied pixel of `a`, placed at `oa`, and an
/// occupied pixel of `b`, placed at `ob`.
pub open spec fn touching(
    a: TreeModel,
    b: TreeModel,
    oa: SpecPoint,
    ob: SpecPoint,
    x: int,
    y: int,
) -> bool {
    a.bits(x - oa.x, y - oa.y) != 0 && b.bits(x - ob.x, y - ob.y) != 0
}

/// Somewhere an occupied pixel of `a`, placed at `oa`, and an occupied pixel
/// of `b`, placed at `ob`, lie on the same dot.
pub open spec fn overlaps(a: TreeModel, b: TreeModel, oa: SpecPoint, ob: SpecPoint) -> bool {
    exists|x: int, y: int| touching(a, b, oa, ob, x, y)
}

/// The `j`-th child of the node `n`, placed with `n` at `on`, touches `t`,
/// placed at `ot`, on the dot `(x, y)`.
pub open spec fn kid_touching(
    n: NodeModel,
    t: TreeModel,
    on: SpecPoint,
    ot: SpecPoint,
    j: int,
    x: int,
    y: int,
) -> bool {
    touching(n.children[j].0, t, on.plus(n.child_offset(n.children[j].1)), ot, x, y)
}

/// A node shows at a pixel the collision bits of the child that has any
/// there: no other child reaches into its quadrant.
pub proof fn lemma_child_bits(n: NodeModel, j: int, x: int, y: int)
    requires
        n.wf(),
        0 <= j < n.children.len(),
        n.children[j].0.bits(
            x - n.child_offset(n.children[j].1).x,
            y - n.child_offset(n.children[j].1).y,
        ) != 0,
    ensures
        TreeModel::Node(n).bits(x, y) == n.children[j].0.bits(
            x - n.child_offset(n.children[j].1).x,
            y - n.child_offset(n.children[j].1).y,
        ),
{
    lemma_first_bits_at(n, 0, j, x, y);
}

proof fn lemma_first_bits_at(n: NodeModel, k: nat, j: int, x: int, y: int)
    requires
        n.wf(),
        k <= j < n.children.len(),
        n.children[j].0.bits(
            x - n.child_offset(n.children[j].1).x,
            y - n.child_offset(n.children[j].1).y,
        ) != 0,
    ensures
        first_bits(n.children, n.half(), k, x, y) == n.children[j].0.bits(
            x - n.child_offset(n.children[j].1).x,
            y - n.child_offset(n.children[j].1).y,
        ),
    decreases j - k,
{
    let (kid, dir) = n.children[j];
    let at = n.child_offset(dir);
    assert(kid.wf());
    assert(2 * kid.scale() <= n.scale);
    lemma_bits_in_bbox(kid, x - at.x, y - at.y);
    lemma_child_offset(n, dir);
    assert(0 <= x - at.x < n.half() && 0 <= y - at.y < n.half());
    if k < j {
        let (other, other_dir) = n.children[k as int];
        let other_at = n.child_offset(other_dir);
        assert(other.wf());
        assert(2 * other.scale() <= n.scale);
        assert(other_dir != dir);
        lemma_child_offset(n, other_dir);
        if other.bits(x - other_at.x, y - other_at.y) != 0 {
            lemma_bits_in_bbox(other, x - other_at.x, y - other_at.y);
            assert(0 <= x - other_at.x < n.half() && 0 <= y - other_at.y < n.half());
            assert(other_dir.dx() != dir.dx() || other_dir.dy() != dir.dy());
            assert(false);
        }
        lemma_first_bits_at(n, k + 1, j, x, y);
    }
}

/// A collision query answers with a rectangle just where the two meshes
/// overlap: where an occupied pixel of the one and an occupied pixel of the
/// other lie on the same dot.
pub proof fn lemma_collide_meaning(a: TreeModel, b: TreeModel, oa: SpecPoint, ob: SpecPoint)
    requires
        a.wf(),
        b.wf(),
    ensures
        collide_spec(a, b, oa, ob) is Some <==> overlaps(a, b, oa, ob),
    decreases a, b, 1nat, 0nat,
{
    match a {
        TreeModel::Leaf(la) => match b {
            TreeModel::Leaf(lb) => {
                if exists|x: int, y: int| both_marked(la, lb, oa, ob, x, y) {
                    let (x, y) = choose|x: int, y: int| both_marked(la, lb, oa, ob, x, y);
                    assert(la.bbox.contains(x - oa.x, y - oa.y));
                    assert(lb.bbox.contains(x - ob.x, y - ob.y));
                    assert(touching(a, b, oa, ob, x, y));
                }
                if overlaps(a, b, oa, ob) {
                    let (x, y) = choose|x: int, y: int| touching(a, b, oa, ob, x, y);
                    assert(both_marked(la, lb, oa, ob, x, y));
                }
            },
            TreeModel::Node(nb) => {
                lemma_scan_other_meaning(a, b, 0, oa, ob);
                if exists|j: int, x: int, y: int|
                    0 <= j < nb.children.len() && kid_touching(nb, a, ob, oa, j, x, y) {
                    let (j, x, y) = choose|j: int, x: int, y: int|
                        0 <= j < nb.children.len() && kid_touching(nb, a, ob, oa, j, x, y);
                    let at = nb.child_offset(nb.children[j].1);
                    lemma_child_bits(nb, j, x - ob.x, y - ob.y);
                    assert(touching(a, b, oa, ob, x, y));
                }
                if overlaps(a, b, oa, ob) {
                    let (x, y) = choose|x: int, y: int| touching(a, b, oa, ob, x, y);
                    let j = lemma_bits_witness(nb.children, nb.half(), 0, x - ob.x, y - ob.y);
                    assert(kid_touching(nb, a, ob, oa, j, x, y));
                }
            },
        },
        TreeModel::Node(na) => {
            lemma_scan_self_meaning(a, b, 0, oa, ob);
            if exists|j: int, x: int, y: int|
                0 <= j < na.children.len() && kid_touching(na, b, oa, ob, j, x, y) {
                let (j, x, y) = choose|j: int, x: int, y: int|
                    0 <= j < na.children.len() && kid_touching(na, b, oa, ob, j, x, y);
                let at = na.child_offset(na.children[j].1);
                lemma_child_bits(na, j, x - oa.x, y - oa.y);
                assert(touching(a, b, oa, ob, x, y));
            }
            if overlaps(a, b, oa, ob) {
                let (x, y) = choose|x: int, y: int| touching(a, b, oa, ob, x, y);
                let j = lemma_bits_witness(na.children, na.half(), 0, x - oa.x, y - oa.y);
                assert(kid_touching(na, b, oa, ob, j, x, y));
            }
        },
    }
}

proof fn lemma_scan_self_meaning(a: TreeModel, b: TreeModel, k: nat, oa: SpecPoint, ob: SpecPoint)
    requires
        a is Node,
        a.wf(),
        b.wf(),
    ensures
        scan_self(a, b, k, oa, ob) is Some <==> exists|j: int, x: int, y: int|
            k <= j < a->Node_0.children.len() && kid_touching(a->Node_0, b, oa, ob, j, x, y),
    decreases a, b, 0nat, a->Node_0.children.len() - k,
{
    let n = a->Node_0;
    if k < n.children.len() {
        let (child, dir) = n.children[k as int];
        let at = n.child_offset(dir);
        assert(child.wf());
        lemma_collide_meaning(child, b, oa.plus(at), ob);
        lemma_scan_self_meaning(a, b, k + 1, oa, ob);
        if collide_spec(child, b, oa.plus(at), ob) is Some {
            let (x, y) = choose|x: int, y: int| touching(child, b, oa.plus(at), ob, x, y);
            assert(kid_touching(n, b, oa, ob, k as int, x, y));
        } else if scan_self(a, b, k + 1, oa, ob) is Some {
            let (j, x, y) = choose|j: int, x: int, y: int|
                k + 1 <= j < n.children.len() && kid_touching(n, b, oa, ob, j, x, y);
            assert(k <= j < n.children.len() && kid_touching(n, b, oa, ob, j, x, y));
        }
        if exists|j: int, x: int, y: int|
            k <= j < n.children.len() && kid_touching(n, b, oa, ob, j, x, y) {
            let (j, x, y) = choose|j: int, x: int, y: int|
                k <= j < n.children.len() && kid_touching(n, b, oa, ob, j, x, y);
            if j == k {
                assert(touching(child, b, oa.plus(at), ob, x, y));
            } else {
                assert(k + 1 <= j < n.children.len() && kid_touching(n, b, oa, ob, j, x, y));
            }
        }
    }
}

proof fn lemma_scan_other_meaning(a: TreeModel, b: TreeModel, k: nat, oa: SpecPoint, ob: SpecPoint)
    requires
        b is Node,
        a.wf(),
        b.wf(),
    ensures
        scan_other(a, b, k, oa, ob) is Some <==> exists|j: int, x: int, y: int|
            k <= j < b->Node_0.children.len() && kid_touching(b->Node_0, a, ob, oa, j, x, y),
    decreases a, b, 0nat, b->Node_0.children.len() - k,
{
    let n = b->Node_0;
    if k < n.children.len() {
        let (child, dir) = n.children[k as int];
        let at = n.child_offset(dir);
        assert(child.wf());
        lemma_collide_meaning(a, child, oa, ob.plus(at));
        lemma_scan_other_meaning(a, b, k + 1, oa, ob);
        if collide_spec(a, child, oa, ob.plus(at)) is Some {
            let (x, y) = choose|x: int, y: int| touching(a, child, oa, ob.plus(at), x, y);
            assert(kid_touching(n, a, ob, oa, k as int, x, y));
        } else if scan_other(a, b, k + 1, oa, ob) is Some {
            let (j, x, y) = choose|j: int, x: int, y: int|
                k + 1 <= j < n.children.len() && kid_touching(n, a, ob, oa, j, x, y);
            assert(k <= j < n.children.len() && kid_touching(n, a, ob, oa, j, x, y));
        }
        if exists|j: int, x: int, y: int|
            k <= j < n.children.len() && kid_touching(n, a, ob, oa, j, x, y) {
            let (j, x, y) = choose|j: int, x: int, y: int|
                k <= j < n.children.len() && kid_touching(n, a, ob, oa, j, x, y);
            if j == k {
                assert(touching(a, child, oa, ob.plus(at), x, y));
            } else {
                assert(k + 1 <= j < n.children.len() && kid_touching(n, a, ob, oa, j, x, y));
            }
        }
    }
}

/// The two orders of a query agree on whether the meshes collide.
pub proof fn lemma_collide_symmetric(a: TreeModel, b: TreeModel, oa: SpecPoint, ob: SpecPoint)
    requires
        a.wf(),
        b.wf(),
    ensures
        collide_spec(a, b, oa, ob) is Some <==> collide_spec(b, a, ob, oa) is Some,
{
    lemma_collide_meaning(a, b, oa, ob);
    lemma_collide_meaning(b, a, ob, oa);
    if overlaps(a, b, oa, ob) {
        let (x, y) = choose|x: int, y: int| touching(a, b, oa, ob, x, y);
        assert(touching(b, a, ob, oa, x, y));
    }
    if overlaps(b, a, ob, oa) {
        let (x, y) = choose|x: int, y: int| touching(b, a, ob, oa, x, y);
        assert(touching(a, b, oa, ob, x, y));
    }
}

/// The mesh `t`, placed at `o`, has the tile `l` at `p`.
pub open spec fn has_leaf(t: TreeModel, o: SpecPoint, l: LeafModel, p: SpecPoint) -> bool
    decreases t,
{
    match t {
        TreeModel::Leaf(own) => l == own && p == o,
        TreeModel::Node(n) => exists|j: int|
            0 <= j < n.children.len() && has_leaf(
                (#[trigger] n.children[j]).0,
                o.plus(n.child_offset(n.children[j].1)),
                l,
                p,
            ),
    }
}

/// A tile of `a` and a tile of `b` that collide, each where its mesh has
/// it.
pub ghost struct LeafPair {
    pub tile_a: LeafModel,
    pub at_a: SpecPoint,
    pub tile_b: LeafModel,
    pub at_b: SpecPoint,
}

impl LeafPair {
    /// The two tiles belong to the two placed meshes and collide.
    pub open spec fn collides_in(self, a: TreeModel, b: TreeModel, oa: SpecPoint, ob: SpecPoint) -> bool {
        &&& has_leaf(a, oa, self.tile_a, self.at_a)
        &&& has_leaf(b, ob, self.tile_b, self.at_b)
        &&& self.overlap() is Some
    }

    /// The overlap of the bounding boxes of the two tiles.
    pub open spec fn overlap(self) -> Option<SpecRect> {
        leaf_overlap(self.tile_a, self.tile_b, self.at_a, self.at_b)
    }

    /// The same pair seen from the other mesh.
    pub open spec fn swapped(self) -> LeafPair {
        LeafPair { tile_a: self.tile_b, at_a: self.at_b, tile_b: self.tile_a, at_b: self.at_a }
    }
}

/// The rectangle that a query answers with is the overlap of the bounding
/// boxes of two tiles that collide, one of each mesh.
pub proof fn lemma_answer_is_leaf_pair(a: TreeModel, b: TreeModel, oa: SpecPoint, ob: SpecPoint) -> (pair:
    LeafPair)
    requires
        collide_spec(a, b, oa, ob) is Some,
    ensures
        pair.collides_in(a, b, oa, ob),
        pair.overlap() == collide_spec(a, b, oa, ob),
    decreases a, b, 1nat, 0nat,
{
    match a {
        TreeModel::Leaf(la) => match b {
            TreeModel::Leaf(lb) => LeafPair { tile_a: la, at_a: oa, tile_b: lb, at_b: ob },
            TreeModel::Node(_) => lemma_scan_other_pair(a, b, 0, oa, ob),
        },
        TreeModel::Node(_) => lemma_scan_self_pair(a, b, 0, oa, ob),
    }
}

proof fn lemma_scan_self_pair(a: TreeModel, b: TreeModel, k: nat, oa: SpecPoint, ob: SpecPoint) -> (pair:
    LeafPair)
    requires
        a is Node,
        scan_self(a, b, k, oa, ob) is Some,
    ensures
        pair.collides_in(a, b, oa, ob),
        pair.overlap() == scan_self(a, b, k, oa, ob),
    decreases a, b, 0nat, a->Node_0.children.len() - k,
{
    let n = a->Node_0;
    let (child, dir) = n.children[k as int];
    let at = oa.plus(n.child_offset(dir));
    if collide_spec(child, b, at, ob) is Some {
        let pair = lemma_answer_is_leaf_pair(child, b, at, ob);
        assert(has_leaf(n.children[k as int].0, at, pair.tile_a, pair.at_a));
        pair
    } else {
        lemma_scan_self_pair(a, b, k + 1, oa, ob)
    }
}

proof fn lemma_scan_other_pair(a: TreeModel, b: TreeModel, k: nat, oa: SpecPoint, ob: SpecPoint) -> (pair:
    LeafPair)
    requires
        b is Node,
        scan_other(a, b, k, oa, ob) is Some,
    ensures
        pair.collides_in(a, b, oa, ob),
        pair.overlap() == scan_other(a, b, k, oa, ob),
    decreases a, b, 0nat, b->Node_0.children.len() - k,
{
    let n = b->Node_0;
    let (child, dir) = n.children[k as int];
    let at = ob.plus(n.child_offset(dir));
    if collide_spec(a, child, oa, at) is Some {
        let pair = lemma_answer_is_leaf_pair(a, child, oa, at);
        assert(has_leaf(n.children[k as int].0, at, pair.tile_b, pair.at_b));
        pair
    } else {
        lemma_scan_other_pair(a, b, k + 1, oa, ob)
    }
}

/// Whichever pairs of tiles of the two meshes collide, the overlap of
/// their bounding boxes is the same rectangle.  It is so where only one
/// pair collides.
pub open spec fn one_overlap(a: TreeModel, b: TreeModel, oa: SpecPoint, ob: SpecPoint) -> bool {
    forall|p: LeafPair, q: LeafPair|
        #[trigger] p.collides_in(a, b, oa, ob) && #[trigger] q.collides_in(a, b, oa, ob)
            ==> p.overlap() == q.overlap()
}

/// The two orders of a query give the same rectangle where the colliding
/// tiles leave no choice of it.  Where two pairs of tiles collide in
/// different rectangles, each order may answer with the pair that it meets
/// first.
pub proof fn lemma_collide_symmetric_one_overlap(
    a: TreeModel,
    b: TreeModel,
    oa: SpecPoint,
    ob: SpecPoint,
)
    requires
        a.wf(),
        b.wf(),
        one_overlap(a, b, oa, ob),
    ensures
        collide_spec(a, b, oa, ob) == collide_spec(b, a, ob, oa),
{
    lemma_collide_symmetric(a, b, oa, ob);
    if collide_spec(a, b, oa, ob) is Some {
        let p = lemma_answer_is_leaf_pair(a, b, oa, ob);
        let back = lemma_answer_is_leaf_pair(b, a, ob, oa);
        let q = back.swapped();
        lemma_leaf_overlap_symmetric(back.tile_a, back.tile_b, back.at_a, back.at_b);
        assert(q.overlap() == back.overlap());
        assert(p.collides_in(a, b, oa, ob));
        assert(q.collides_in(a, b, oa, ob));
    }
}

/// Where one of the two meshes is a single tile, the two orders of a query
/// give the same rectangle.
pub proof fn lemma_collide_symmetric_rect(a: TreeModel, b: TreeModel, oa: SpecPoint, ob: SpecPoint)
    requires
        a is Leaf || b is Leaf,
    ensures
        collide_spec(a, b, oa, ob) == collide_spec(b, a, ob, oa),
{
    match a {
        TreeModel::Leaf(la) => lemma_leaf_swap(la, b, oa, ob),
        TreeModel::Node(_) => lemma_leaf_swap(b->Leaf_0, a, ob, oa),
    }
}

} // verus!
