//! Collision between two meshes, each at its own place in the dot space.
//!
//! A pixel is occupied where it has a collision bit.  Two leaves collide
//! where an occupied pixel of the one and an occupied pixel of the other lie
//! on the same dot.  Two trees collide where two of their leaves do.  The answer is the overlap of the bounding boxes of
//! the first such pair of leaves: the leaves of the first tree are tried in
//! the order in which its children are held, depth first, and for each of
//! them the leaves of the second tree in the same way.

use vstd::prelude::*;
use crate::frame::dottypes::{
    euclid_intersection,
    euclid_intersects,
    DotPoint,
    DotRect,
    DotSize,
    DotVector,
    SpecPoint,
    SpecRect,
};
use crate::frame::rows::{
    lemma_both_set,
    lemma_find_nibble,
    lemma_occupancy,
    lemma_row_pair,
    line_mask,
    nibble,
    occupied,
};
use crate::frame::{lemma_child_offset, square, LeafModel, MeshLeaf, MeshNode, MeshTree, NodeModel, TreeModel};
use crate::tile::tiletypes::TILE_SIZE;

verus! {

/// The view of a rectangle that may be absent.
pub open spec fn view_opt(r: Option<DotRect>) -> Option<SpecRect> {
    match r {
        Some(r) => Some(r@),
        None => None,
    }
}

/// The bounding box `bbox` of a mesh whose upper left corner is put at `at`
/// lies within the `i16` coordinates.
pub open spec fn can_place(bbox: SpecRect, at: SpecPoint) -> bool {
    at.in_i16() && bbox.translate(at).in_i16()
}

/// On the dot `(x, y)` lie an occupied pixel of `a`, placed at `oa`, and an
/// occupied pixel of `b`, placed at `ob`.
pub open spec fn both_marked(
    a: LeafModel,
    b: LeafModel,
    oa: SpecPoint,
    ob: SpecPoint,
    x: int,
    y: int,
) -> bool {
    a.bits(x - oa.x, y - oa.y) != 0 && b.bits(x - ob.x, y - ob.y) != 0
}

/// The overlap of the bounding boxes of two placed leaves, where the leaves
/// collide.
pub open spec fn leaf_overlap(a: LeafModel, b: LeafModel, oa: SpecPoint, ob: SpecPoint) -> Option<
    SpecRect,
> {
    if exists|x: int, y: int| both_marked(a, b, oa, ob, x, y) {
        a.bbox.translate(oa).intersection(b.bbox.translate(ob))
    } else {
        None
    }
}

/// What a collision query answers for two placed trees: the overlap of the
/// bounding boxes of the first pair of leaves that collide.
pub open spec fn collide_spec(a: TreeModel, b: TreeModel, oa: SpecPoint, ob: SpecPoint) -> Option<
    SpecRect,
>
    decreases a, b, 1nat, 0nat,
{
    match a {
        TreeModel::Leaf(la) => match b {
            TreeModel::Leaf(lb) => leaf_overlap(la, lb, oa, ob),
            TreeModel::Node(_) => scan_other(a, b, 0, oa, ob),
        },
        TreeModel::Node(_) => scan_self(a, b, 0, oa, ob),
    }
}

/// The first answer that a child of the node `a`, from the `k`-th on, gives
/// against `b`.
pub open spec fn scan_self(a: TreeModel, b: TreeModel, k: nat, oa: SpecPoint, ob: SpecPoint) -> Option<
    SpecRect,
>
    decreases a, b, 0nat, a->Node_0.children.len() - k,
{
    match a {
        TreeModel::Leaf(_) => None,
        TreeModel::Node(n) => {
            if k >= n.children.len() {
                None
            } else {
                let (child, dir) = n.children[k as int];
                match collide_spec(child, b, oa.plus(n.child_offset(dir)), ob) {
                    Some(r) => Some(r),
                    None => scan_self(a, b, k + 1, oa, ob),
                }
            }
        },
    }
}

/// The first answer that `a` gives against a child of the node `b`, from
/// the `k`-th on.
pub open spec fn scan_other(a: TreeModel, b: TreeModel, k: nat, oa: SpecPoint, ob: SpecPoint) -> Option<
    SpecRect,
>
    decreases a, b, 0nat, b->Node_0.children.len() - k,
{
    match b {
        TreeModel::Leaf(_) => None,
        TreeModel::Node(n) => {
            if k >= n.children.len() {
                None
            } else {
                let (child, dir) = n.children[k as int];
                match collide_spec(a, child, oa, ob.plus(n.child_offset(dir))) {
                    Some(r) => Some(r),
                    None => scan_other(a, b, k + 1, oa, ob),
                }
            }
        },
    }
}

/// Two trees whose bounding boxes do not overlap do not collide.
pub proof fn lemma_prune(a: TreeModel, b: TreeModel, oa: SpecPoint, ob: SpecPoint)
    requires
        a.wf(),
        b.wf(),
        !a.bbox().translate(oa).intersects(b.bbox().translate(ob)),
    ensures
        collide_spec(a, b, oa, ob) is None,
    decreases a, b, 1nat, 0nat,
{
    match a {
        TreeModel::Leaf(la) => match b {
            TreeModel::Leaf(lb) => {},
            TreeModel::Node(_) => lemma_prune_other(a, b, 0, oa, ob),
        },
        TreeModel::Node(_) => lemma_prune_self(a, b, 0, oa, ob),
    }
}

proof fn lemma_prune_self(a: TreeModel, b: TreeModel, k: nat, oa: SpecPoint, ob: SpecPoint)
    requires
        a is Node,
        a.wf(),
        b.wf(),
        !a.bbox().translate(oa).intersects(b.bbox().translate(ob)),
    ensures
        scan_self(a, b, k, oa, ob) is None,
    decreases a, b, 0nat, a->Node_0.children.len() - k,
{
    let n = a->Node_0;
    if k < n.children.len() {
        let (child, dir) = n.children[k as int];
        assert(n.bbox.encloses(child.bbox().translate(n.child_offset(dir))));
        lemma_prune(child, b, oa.plus(n.child_offset(dir)), ob);
        lemma_prune_self(a, b, k + 1, oa, ob);
    }
}

proof fn lemma_prune_other(a: TreeModel, b: TreeModel, k: nat, oa: SpecPoint, ob: SpecPoint)
    requires
        b is Node,
        a.wf(),
        b.wf(),
        !a.bbox().translate(oa).intersects(b.bbox().translate(ob)),
    ensures
        scan_other(a, b, k, oa, ob) is None,
    decreases a, b, 0nat, b->Node_0.children.len() - k,
{
    let n = b->Node_0;
    if k < n.children.len() {
        let (child, dir) = n.children[k as int];
        assert(n.bbox.encloses(child.bbox().translate(n.child_offset(dir))));
        lemma_prune(a, child, oa, ob.plus(n.child_offset(dir)));
        lemma_prune_other(a, b, k + 1, oa, ob);
    }
}

/// Two leaves give the same answer in either order.
pub proof fn lemma_leaf_overlap_symmetric(a: LeafModel, b: LeafModel, oa: SpecPoint, ob: SpecPoint)
    ensures
        leaf_overlap(a, b, oa, ob) == leaf_overlap(b, a, ob, oa),
{
    assert forall|x: int, y: int|
        both_marked(a, b, oa, ob, x, y) == both_marked(b, a, ob, oa, x, y) by {}
}

/// A leaf against a tree gives the answer of the tree against the leaf.
pub proof fn lemma_leaf_swap(l: LeafModel, t: TreeModel, ol: SpecPoint, ot: SpecPoint)
    ensures
        collide_spec(TreeModel::Leaf(l), t, ol, ot) == collide_spec(t, TreeModel::Leaf(l), ot, ol),
    decreases t, 1nat, 0nat,
{
    match t {
        TreeModel::Leaf(lt) => lemma_leaf_overlap_symmetric(l, lt, ol, ot),
        TreeModel::Node(_) => lemma_leaf_swap_from(l, t, 0, ol, ot),
    }
}

proof fn lemma_leaf_swap_from(l: LeafModel, t: TreeModel, k: nat, ol: SpecPoint, ot: SpecPoint)
    requires
        t is Node,
    ensures
        scan_other(TreeModel::Leaf(l), t, k, ol, ot) == scan_self(t, TreeModel::Leaf(l), k, ot, ol),
    decreases t, 0nat, t->Node_0.children.len() - k,
{
    let n = t->Node_0;
    if k < n.children.len() {
        let (child, dir) = n.children[k as int];
        lemma_leaf_swap(l, child, ol, ot.plus(n.child_offset(dir)));
        lemma_leaf_swap_from(l, t, k + 1, ol, ot);
    }
}

/// Slide rectangle (`rect.origin += offset`).
pub fn slide_rect(rect: DotRect, offset: DotVector) -> (moved: DotRect)
    requires
        i16::MIN <= rect.origin.x + offset.x <= i16::MAX,
        i16::MIN <= rect.origin.y + offset.y <= i16::MAX,
    ensures
        moved@ == rect@.translate(offset@),
{
    DotRect {
        origin: DotPoint { x: rect.origin.x + offset.x, y: rect.origin.y + offset.y },
        size: rect.size,
    }
}

/// Return tile size (16 × 16).
pub fn tile_size() -> (s: DotSize)
    ensures
        s.width == 16,
        s.height == 16,
{
    DotSize { width: TILE_SIZE as i16, height: TILE_SIZE as i16 }
}

/// The part of `rect` that lies in the tile whose upper left corner is at
/// `offset`, counted from that corner; `None` where no pixel of it does.
pub fn get_tile_range(rect: DotRect, offset: DotPoint) -> (part: Option<DotRect>)
    requires
        rect@.translate(SpecPoint { x: -offset.x, y: -offset.y }).in_i16(),
    ensures
        view_opt(part) == match square(16).intersection(
            rect@.translate(SpecPoint { x: -offset.x, y: -offset.y }),
        ) {
            Some(r) => if r.nonempty() {
                Some(r)
            } else {
                None
            },
            None => None,
        },
{
    let tile_rect = DotRect { origin: DotPoint { x: 0, y: 0 }, size: tile_size() };
    let local = DotRect {
        origin: DotPoint { x: rect.origin.x - offset.x, y: rect.origin.y - offset.y },
        size: rect.size,
    };
    match euclid_intersection(tile_rect, local) {
        Some(inter) => {
            if inter.size.width > 0 && inter.size.height > 0 {
                Some(inter)
            } else {
                None
            }
        },
        None => None,
    }
}

/// Whether two bounding boxes overlap, each moved to its place.
pub fn bbox_intersects(bbox_1: DotRect, bbox_2: DotRect, offset_1: DotPoint, offset_2: DotPoint) -> (hit:
    bool)
    requires
        bbox_1@.translate(offset_1@).in_i16(),
        bbox_2@.translate(offset_2@).in_i16(),
    ensures
        hit == bbox_1@.translate(offset_1@).intersects(bbox_2@.translate(offset_2@)),
{
    let s1 = slide_rect(bbox_1, offset_1.to_vector());
    let s2 = slide_rect(bbox_2, offset_2.to_vector());
    euclid_intersects(s1, s2)
}

/// The overlap of two bounding boxes, each moved to its place.
pub fn bbox_intersection(
    bbox_1: DotRect,
    bbox_2: DotRect,
    offset_1: DotPoint,
    offset_2: DotPoint,
) -> (common: Option<DotRect>)
    requires
        bbox_1@.translate(offset_1@).in_i16(),
        bbox_2@.translate(offset_2@).in_i16(),
    ensures
        view_opt(common) == bbox_1@.translate(offset_1@).intersection(
            bbox_2@.translate(offset_2@),
        ),
{
    let s1 = slide_rect(bbox_1, offset_1.to_vector());
    let s2 = slide_rect(bbox_2, offset_2.to_vector());
    euclid_intersection(s1, s2)
}

/// The bounding box of a well-formed mesh holds a pixel and lies in the
/// square of the mesh.
pub proof fn lemma_box_in_square(t: TreeModel)
    requires
        t.wf(),
    ensures
        t.bbox().nonempty(),
        square(t.span()).encloses(t.bbox()),
        1 <= t.scale() <= 16,
{
}

/// Where the bounding box of a node stays within the `i16` coordinates, so
/// does the place of each child and the child's bounding box there.
pub proof fn lemma_place_child(n: NodeModel, i: int, at: SpecPoint)
    requires
        n.wf(),
        0 <= i < n.children.len(),
        can_place(n.bbox, at),
    ensures
        2 <= n.scale <= 16,
        n.children[i].0.wf(),
        1 <= n.children[i].0.scale(),
        2 * n.children[i].0.scale() <= n.scale,
        n.child_offset(n.children[i].1).x == n.children[i].1.dx() * n.half(),
        n.child_offset(n.children[i].1).y == n.children[i].1.dy() * n.half(),
        0 <= n.child_offset(n.children[i].1).x <= n.half(),
        0 <= n.child_offset(n.children[i].1).y <= n.half(),
        can_place(n.children[i].0.bbox(), at.plus(n.child_offset(n.children[i].1))),
        n.bbox.encloses(n.children[i].0.bbox().translate(n.child_offset(n.children[i].1))),
{
    let (child, dir) = n.children[i];
    assert(child.wf());
    lemma_box_in_square(child);
    lemma_child_offset(n, dir);
    assert(n.bbox.encloses(child.bbox().translate(n.child_offset(dir))));
}

impl MeshLeaf {
    /// Tests two tiles against each other, row by row: the overlap of their
    /// bounding boxes where, in some row of it, an occupied pixel of the one
    /// lies on an occupied pixel of the other.
    pub fn collide_l(&self, other: &MeshLeaf, offset_s: DotPoint, offset_o: DotPoint) -> (hit:
        Option<DotRect>)
        requires
            can_place(self@.bbox, offset_s@),
            can_place(other@.bbox, offset_o@),
        ensures
            view_opt(hit) == leaf_overlap(self@, other@, offset_s@, offset_o@),
    {
        self.inv_holds();
        other.inv_holds();
        let intersect = match bbox_intersection(self.bbox, other.bbox, offset_s, offset_o) {
            Some(r) => r,
            None => {
                return None;
            },
        };
        let range_s = match get_tile_range(intersect, offset_s) {
            Some(r) => r,
            None => {
                return None;
            },
        };
        let range_o = match get_tile_range(intersect, offset_o) {
            Some(r) => r,
            None => {
                return None;
            },
        };
        let len: u64 = intersect.size.width as u64;
        let start_s: u64 = range_s.origin.x as u64;
        let start_o: u64 = range_o.origin.x as u64;
        let height: i16 = intersect.size.height;
        let mut y: i16 = 0;
        while y < height
            invariant
                0 <= y <= height,
                1 <= len <= 16,
                start_s + len <= 16,
                start_o + len <= 16,
                0 <= range_s.origin.y,
                range_s.origin.y + height <= 16,
                0 <= range_o.origin.y,
                range_o.origin.y + height <= 16,
                self@.rows.len() == 16,
                other@.rows.len() == 16,
                Some(intersect@) == self@.bbox.translate(offset_s@).intersection(
                    other@.bbox.translate(offset_o@),
                ),
                intersect.origin.x - offset_s.x == start_s,
                intersect.origin.x - offset_o.x == start_o,
                intersect.origin.y - offset_s.y == range_s.origin.y,
                intersect.origin.y - offset_o.y == range_o.origin.y,
                forall|px: int, py: int|
                    intersect.origin.x <= px < intersect.origin.x + len && intersect.origin.y <= py
                        < intersect.origin.y + y ==> !both_marked(
                        self@,
                        other@,
                        offset_s@,
                        offset_o@,
                        px,
                        py,
                    ),
            decreases height - y,
        {
            let row_s = self.inner[(range_s.origin.y + y) as usize];
            let row_o = other.inner[(range_o.origin.y + y) as usize];
            let marks_s = occupied(row_s);
            let marks_o = occupied(row_o);
            let masked_s = line_mask(marks_s, start_s, len);
            let masked_o = line_mask(marks_o, start_o, len);
            if (masked_s & masked_o) != 0 {
                proof {
                    let i = lemma_find_nibble(masked_s & masked_o);
                    lemma_row_pair(marks_s, start_s, marks_o, start_o, len, i);
                    lemma_occupancy(row_s, (start_s + i) as u64);
                    lemma_occupancy(row_o, (start_o + i) as u64);
                    lemma_both_set(
                        nibble(marks_s, (start_s + i) as u64),
                        nibble(marks_o, (start_o + i) as u64),
                    );
                    assert(both_marked(
                        self@,
                        other@,
                        offset_s@,
                        offset_o@,
                        intersect.origin.x + i,
                        intersect.origin.y + y,
                    ));
                }
                return Some(intersect);
            }
            proof {
                let py = intersect.origin.y + y;
                assert forall|px: int|
                    intersect.origin.x <= px < intersect.origin.x + len implies !both_marked(
                    self@,
                    other@,
                    offset_s@,
                    offset_o@,
                    px,
                    py,
                ) by {
                    let i = (px - intersect.origin.x) as u64;
                    lemma_row_pair(marks_s, start_s, marks_o, start_o, len, i);
                    lemma_occupancy(row_s, (start_s + i) as u64);
                    lemma_occupancy(row_o, (start_o + i) as u64);
                    lemma_both_set(
                        nibble(marks_s, (start_s + i) as u64),
                        nibble(marks_o, (start_o + i) as u64),
                    );
                }
            }
            y += 1;
        }
        proof {
            assert forall|x: int, y: int| !both_marked(self@, other@, offset_s@, offset_o@, x, y) by {
                let bits_s = self@.bits(x - offset_s.x, y - offset_s.y);
                let bits_o = other@.bits(x - offset_o.x, y - offset_o.y);
                if bits_s != 0 && bits_o != 0 {
                    assert(self@.bbox.contains(x - offset_s.x, y - offset_s.y));
                    assert(other@.bbox.contains(x - offset_o.x, y - offset_o.y));
                    assert(intersect@.contains(x, y));
                }
            }
        }
        None
    }

    /// Tests a tile against a node: the first answer that the tile gives
    /// against a child of the node.  A child whose bounding box the tile's
    /// bounding box does not reach is passed over.
    pub fn collide_n(&self, other: &MeshNode, offset_s: DotPoint, offset_o: DotPoint) -> (hit:
        Option<DotRect>)
        requires
            can_place(self@.bbox, offset_s@),
            can_place(other@.bbox, offset_o@),
        ensures
            view_opt(hit) == collide_spec(
                TreeModel::Leaf(self@),
                TreeModel::Node(other@),
                offset_s@,
                offset_o@,
            ),
        decreases other@.scale,
    {
        let ghost a = TreeModel::Leaf(self@);
        let ghost b = TreeModel::Node(other@);
        self.inv_holds();
        other.inv_holds();
        if !bbox_intersects(self.bbox, other.bbox, offset_s, offset_o) {
            proof {
                lemma_prune(a, b, offset_s@, offset_o@);
            }
            return None;
        }
        assert(2 <= other@.scale <= 16);
        let half_tile: i16 = (TILE_SIZE / 2) as i16;
        assert(other.scale * half_tile == 8 * other@.scale) by (nonlinear_arith)
            requires
                half_tile == 8,
                other.scale == other@.scale,
        ;
        let step: i16 = other.scale * half_tile;
        let mut i: usize = 0;
        while i < other.inner.len()
            invariant
                0 <= i <= other.inner.len(),
                other.inner@.len() == other@.children.len(),
                a == TreeModel::Leaf(self@),
                b == TreeModel::Node(other@),
                self@.wf(),
                other@.wf(),
                can_place(self@.bbox, offset_s@),
                can_place(other@.bbox, offset_o@),
                step == other@.half(),
                collide_spec(a, b, offset_s@, offset_o@) == scan_other(
                    a,
                    b,
                    i as nat,
                    offset_s@,
                    offset_o@,
                ),
            decreases other.inner.len() - i,
        {
            let child = &other.inner[i].0;
            let dir = other.inner[i].1;
            let toward = dir.to_vec();
            let ghost kid = other@.children[i as int];
            assert(kid == (child@, dir));
            proof {
                lemma_place_child(other@, i as int, offset_o@);
            }
            let offset_c = DotPoint {
                x: offset_o.x + toward.x * step,
                y: offset_o.y + toward.y * step,
            };
            assert(offset_c@ == offset_o@.plus(other@.child_offset(dir)));
            let mut found: Option<DotRect> = None;
            match child {
                MeshTree::Leaf(leaf) => {
                    if bbox_intersects(self.bbox, leaf.bbox, offset_s, offset_c) {
                        found = self.collide_l(leaf, offset_s, offset_c);
                    } else {
                        proof {
                            lemma_prune(a, kid.0, offset_s@, offset_c@);
                        }
                    }
                },
                MeshTree::Node(node) => {
                    if bbox_intersects(self.bbox, node.bbox, offset_s, offset_c) {
                        found = self.collide_n(node, offset_s, offset_c);
                    } else {
                        proof {
                            lemma_prune(a, kid.0, offset_s@, offset_c@);
                        }
                    }
                },
            }
            assert(view_opt(found) == collide_spec(a, kid.0, offset_s@, offset_c@));
            if found.is_some() {
                return found;
            }
            i += 1;
        }
        None
    }
}

impl MeshNode {
    /// Tests a node against a node: the first answer that a child of this
    /// node gives against the other node.  A child whose bounding box does
    /// not reach the other node's bounding box is passed over.
    pub fn collide(&self, other: &MeshNode, offset_s: DotPoint, offset_o: DotPoint) -> (hit: Option<
        DotRect,
    >)
        requires
            can_place(self@.bbox, offset_s@),
            can_place(other@.bbox, offset_o@),
        ensures
            view_opt(hit) == collide_spec(
                TreeModel::Node(self@),
                TreeModel::Node(other@),
                offset_s@,
                offset_o@,
            ),
        decreases self@.scale,
    {
        let ghost a = TreeModel::Node(self@);
        let ghost b = TreeModel::Node(other@);
        self.inv_holds();
        other.inv_holds();
        if !bbox_intersects(self.bbox, other.bbox, offset_s, offset_o) {
            proof {
                lemma_prune(a, b, offset_s@, offset_o@);
            }
            return None;
        }
        assert(2 <= self@.scale <= 16);
        let half_tile: i16 = (TILE_SIZE / 2) as i16;
        assert(self.scale * half_tile == 8 * self@.scale) by (nonlinear_arith)
            requires
                half_tile == 8,
                self.scale == self@.scale,
        ;
        let step: i16 = self.scale * half_tile;
        let mut i: usize = 0;
        while i < self.inner.len()
            invariant
                0 <= i <= self.inner.len(),
                self.inner@.len() == self@.children.len(),
                a == TreeModel::Node(self@),
                b == TreeModel::Node(other@),
                self@.wf(),
                other@.wf(),
                can_place(self@.bbox, offset_s@),
                can_place(other@.bbox, offset_o@),
                step == self@.half(),
                collide_spec(a, b, offset_s@, offset_o@) == scan_self(
                    a,
                    b,
                    i as nat,
                    offset_s@,
                    offset_o@,
                ),
            decreases self.inner.len() - i,
        {
            let child = &self.inner[i].0;
            let dir = self.inner[i].1;
            let toward = dir.to_vec();
            let ghost kid = self@.children[i as int];
            assert(kid == (child@, dir));
            proof {
                lemma_place_child(self@, i as int, offset_s@);
            }
            let offset_c = DotPoint {
                x: offset_s.x + toward.x * step,
                y: offset_s.y + toward.y * step,
            };
            assert(offset_c@ == offset_s@.plus(self@.child_offset(dir)));
            let mut found: Option<DotRect> = None;
            match child {
                MeshTree::Leaf(leaf) => {
                    if bbox_intersects(leaf.bbox, other.bbox, offset_c, offset_o) {
                        found = leaf.collide_n(other, offset_c, offset_o);
                    } else {
                        proof {
                            lemma_prune(kid.0, b, offset_c@, offset_o@);
                        }
                    }
                },
                MeshTree::Node(node) => {
                    if bbox_intersects(node.bbox, other.bbox, offset_c, offset_o) {
                        found = node.collide(other, offset_c, offset_o);
                    } else {
                        proof {
                            lemma_prune(kid.0, b, offset_c@, offset_o@);
                        }
                    }
                },
            }
            assert(view_opt(found) == collide_spec(kid.0, b, offset_c@, offset_o@));
            if found.is_some() {
                return found;
            }
            i += 1;
        }
        None
    }
}

impl MeshTree {
    /// Detects collision between this mesh, placed with its upper left
    /// corner at `offset_s`, and `other`, placed at `offset_o`.
    pub fn collide(&self, other: &MeshTree, offset_s: DotPoint, offset_o: DotPoint) -> (hit: Option<
        DotRect,
    >)
        requires
            can_place(self@.bbox(), offset_s@),
            can_place(other@.bbox(), offset_o@),
        ensures
            view_opt(hit) == collide_spec(self@, other@, offset_s@, offset_o@),
    {
        match self {
            MeshTree::Leaf(leaf_s) => match other {
                MeshTree::Leaf(leaf_o) => leaf_s.collide_l(leaf_o, offset_s, offset_o),
                MeshTree::Node(node_o) => leaf_s.collide_n(node_o, offset_s, offset_o),
            },
            MeshTree::Node(node_s) => match other {
                MeshTree::Leaf(leaf_o) => {
                    proof {
                        lemma_leaf_swap(leaf_o@, self@, offset_o@, offset_s@);
                    }
                    leaf_o.collide_n(node_s, offset_o, offset_s)
                },
                MeshTree::Node(node_o) => node_s.collide(node_o, offset_s, offset_o),
            },
        }
    }
}

} // verus!
