use altena_core::frame::construct::{get_scale, RectRange};
use altena_core::frame::collide::{
    bbox_intersection, bbox_intersects, get_tile_range, slide_rect, tile_size,
};
use altena_core::frame::dottypes::{point2, rect, vec2};
use altena_core::frame::dottypes::DotPoint;
use altena_core::frame::sprite::{collide, tile_from_buf, tile_num, Collide, Frame};
use altena_core::tile::{Color, Dot};
use altena_core::frame::{MeshLeaf, MeshTree};
use altena_core::pixels::{PixelBuf, Rgba};

/// A white, transparent image in which the pixels of the rectangle from
/// `(x0, y0)` up to `(x1, y1)` are opaque and have the byte `last` as their
/// opacity byte.
fn filled(w: u32, h: u32, x0: u32, y0: u32, x1: u32, y1: u32, last: u8) -> PixelBuf {
    let mut buf = PixelBuf::new(w, h);
    for y in 0..h {
        for x in 0..w {
            let inside = x0 <= x && x < x1 && y0 <= y && y < y1;
            let p = if inside {
                Rgba { data: [(x * 7) as u8, (y * 5) as u8, 40, last] }
            } else {
                Rgba { data: [255, 255, 255, 0] }
            };
            buf.put_pixel(x, y, p);
        }
    }
    buf
}

/// One tile whose marked pixels fill the rectangle (2, 2, 11, 14).
fn chara1() -> PixelBuf {
    filled(16, 16, 2, 2, 13, 16, 0xff)
}

/// One tile with a single marked pixel at (7, 8).
fn bullet() -> PixelBuf {
    filled(16, 16, 7, 8, 8, 9, 0xff)
}

/// Four tiles whose marked pixels fill the rectangle (1, 2, 30, 30).
fn chara2() -> PixelBuf {
    filled(32, 32, 1, 2, 31, 32, 0xff)
}

fn load_frame(buf: &PixelBuf, name: &str) -> Frame {
    Frame::from_buf(buf, name).unwrap()
}

fn load_mesh(buf: &PixelBuf) -> MeshTree {
    MeshTree::from_buf(buf).unwrap()
}

#[test]
fn load_1tile() {
    let frame = load_frame(&chara1(), "chara1");
    assert_eq!(Some(rect(2, 2, 11, 14)), frame.bbox());
}

#[test]
fn load_1pixel() {
    let frame = load_frame(&bullet(), "bullet");
    assert_eq!(Some(rect(7, 8, 1, 1)), frame.bbox());
}

#[test]
fn load_4tile() {
    let frame = load_frame(&chara2(), "chara2");
    assert_eq!(Some(rect(1, 2, 30, 30)), frame.bbox());
}

#[test]
fn collide_l_1() {
    let bullet = load_mesh(&bullet());
    let chara1 = load_mesh(&chara1());
    let c = chara1.collide(&bullet, point2(0, 0), point2(0, 0));
    assert_eq!(c, Some(rect(7, 8, 1, 1)))
}

#[test]
fn collide_l_2() {
    let bullet = load_mesh(&bullet());
    let chara1 = load_mesh(&chara1());
    let c = chara1.collide(&bullet, point2(16, 16), point2(12, 11));
    assert_eq!(c, Some(rect(19, 19, 1, 1)));
}

#[test]
fn collide_n_1() {
    let chara1 = load_mesh(&chara1());
    let chara2 = load_mesh(&chara2());
    let c = chara2.collide(&chara1, point2(0, 0), point2(19, 16));
    assert_eq!(c, Some(rect(21, 18, 10, 14)));
}

#[test]
fn frame_to_img_buf() {
    let img = chara2();
    let chara2 = load_frame(&img, "chara2");
    let chara_img = chara2.restore_buf().unwrap();
    assert_eq!(chara_img.width(), img.width());
    assert_eq!(chara_img.height(), img.height());
    for y in 0..img.height() {
        for x in 0..img.width() {
            assert_eq!(img.get_pixel(x, y), chara_img.get_pixel(x, y));
        }
    }
}

#[test]
fn empty_image_has_no_mesh() {
    assert!(MeshTree::from_buf(&PixelBuf::new(0, 0)).is_none());
    assert!(MeshTree::from_buf(&PixelBuf::new(0, 5)).is_none());
    assert!(Frame::from_buf(&PixelBuf::new(0, 0), "none").is_none());
}

#[test]
fn transparent_image_has_no_mesh() {
    assert!(MeshTree::from_buf(&PixelBuf::new(16, 16)).is_none());
    assert!(MeshTree::from_buf(&PixelBuf::new(40, 70)).is_none());
    let whole = RectRange { x: 0, y: 0, xlen: 16, ylen: 16 };
    assert!(MeshLeaf::from_buf(&PixelBuf::new(16, 16), whole).is_none());
}

#[test]
fn visible_pixel_without_collision_bits_is_not_in_mesh() {
    // opaque, but the low four bits of the opacity byte are zero
    let img = filled(16, 16, 3, 3, 9, 9, 0xf0);
    assert!(MeshTree::from_buf(&img).is_none());
}

#[test]
fn invisible_pixel_with_collision_bits_is_in_mesh() {
    let img = filled(16, 16, 3, 4, 9, 9, 0x01);
    let mesh = MeshTree::from_buf(&img).unwrap();
    assert_eq!(mesh.bbox(), rect(3, 4, 6, 5));
}

#[test]
fn scale_is_a_power_of_two_at_each_tier() {
    assert_eq!(get_scale(1), 1);
    assert_eq!(get_scale(16), 1);
    assert_eq!(get_scale(17), 2);
    assert_eq!(get_scale(32), 2);
    assert_eq!(get_scale(33), 4);
    assert_eq!(get_scale(64), 4);
    assert_eq!(get_scale(65), 8);
    assert_eq!(get_scale(128), 8);
    assert_eq!(get_scale(129), 16);
    assert_eq!(get_scale(256), 16);
}

/// The bounding box of a mesh is that of the marked pixels, whatever the
/// tier, and a single pixel of each corner region is found again by a
/// one-pixel probe.
fn check_tier(side: u32) {
    let last = side - 1;
    let mut img = PixelBuf::new(side, side);
    img.put_pixel(1, 2, Rgba { data: [1, 2, 3, 0xff] });
    img.put_pixel(last, last, Rgba { data: [1, 2, 3, 0xff] });
    let mesh = MeshTree::from_buf(&img).unwrap();
    assert_eq!(mesh.bbox(), rect(1, 2, last as i16, last as i16 - 1));
    let probe = load_mesh(&filled(16, 16, 0, 0, 1, 1, 0xff));
    let far = point2(last as i16, last as i16);
    assert_eq!(mesh.collide(&probe, point2(0, 0), far), Some(rect(last as i16, last as i16, 1, 1)));
    assert_eq!(probe.collide(&mesh, far, point2(0, 0)), Some(rect(last as i16, last as i16, 1, 1)));
    assert_eq!(mesh.collide(&probe, point2(0, 0), point2(1, 2)), Some(rect(1, 2, 1, 1)));
    assert_eq!(mesh.collide(&probe, point2(0, 0), point2(2, 2)), None);
    assert_eq!(mesh.collide(&probe, point2(0, 0), point2(last as i16 - 1, last as i16)), None);
}

#[test]
fn tier_of_one_tile() {
    check_tier(16);
}

#[test]
fn tier_of_two_tiles() {
    check_tier(17);
    check_tier(32);
}

#[test]
fn tier_of_four_tiles() {
    check_tier(33);
    check_tier(64);
}

#[test]
fn tier_of_eight_tiles() {
    check_tier(65);
    check_tier(128);
}

#[test]
fn tier_of_sixteen_tiles() {
    check_tier(129);
    check_tier(256);
}

#[test]
fn image_that_ends_within_a_tile() {
    // 20 × 10: a node of scale 2 whose right child is 4 pixels wide
    let img = filled(20, 10, 14, 3, 20, 10, 0xff);
    let mesh = MeshTree::from_buf(&img).unwrap();
    assert_eq!(mesh.bbox(), rect(14, 3, 6, 7));
    let probe = load_mesh(&filled(16, 16, 0, 0, 1, 1, 0xff));
    assert_eq!(mesh.collide(&probe, point2(0, 0), point2(19, 9)), Some(rect(19, 9, 1, 1)));
    assert_eq!(mesh.collide(&probe, point2(0, 0), point2(17, 5)), Some(rect(17, 5, 1, 1)));
    assert_eq!(mesh.collide(&probe, point2(0, 0), point2(13, 5)), None);
    assert_eq!(mesh.collide(&probe, point2(0, 0), point2(19, 2)), None);
}

#[test]
fn building_twice_gives_the_same_mesh() {
    let img = chara2();
    let a = MeshTree::from_buf(&img).unwrap();
    let b = MeshTree::from_buf(&img).unwrap();
    assert_eq!(a.bbox(), b.bbox());
    assert_eq!(a.get_debug_buf(), b.get_debug_buf());
}

#[test]
fn mesh_does_not_depend_on_colour() {
    let a = MeshTree::from_buf(&filled(32, 32, 5, 6, 20, 30, 0xff)).unwrap();
    let mut other = filled(32, 32, 5, 6, 20, 30, 0x3f);
    other.put_pixel(0, 0, Rgba { data: [9, 9, 9, 0x70] });
    let b = MeshTree::from_buf(&other).unwrap();
    assert_eq!(a.bbox(), b.bbox());
    assert_eq!(a.get_debug_buf(), b.get_debug_buf());
}

#[test]
fn marked_pixels_lie_in_bounding_box() {
    let img = filled(48, 40, 9, 11, 37, 33, 0xff);
    let mesh = MeshTree::from_buf(&img).unwrap();
    let bbox = mesh.bbox();
    assert_eq!(bbox, rect(9, 11, 28, 22));
    let grid = mesh.get_debug_buf();
    assert_eq!(grid.len(), 64);
    for (y, row) in grid.iter().enumerate() {
        assert_eq!(row.len(), 4);
        for (c, mask) in row.iter().enumerate() {
            for i in 0..16usize {
                let bits = (mask >> ((15 - i) * 4)) & 0xf;
                let x = (16 * c + i) as i16;
                let inside = bbox.origin.x <= x
                    && x < bbox.origin.x + bbox.size.width
                    && bbox.origin.y <= y as i16
                    && (y as i16) < bbox.origin.y + bbox.size.height;
                assert_eq!(bits != 0, inside);
            }
        }
    }
}

#[test]
fn leaf_mask_holds_collision_bits_leftmost_highest() {
    let mut img = PixelBuf::new(16, 16);
    img.put_pixel(0, 0, Rgba { data: [0, 0, 0, 0x0a] });
    img.put_pixel(15, 0, Rgba { data: [0, 0, 0, 0xf3] });
    img.put_pixel(2, 5, Rgba { data: [0, 0, 0, 0x1f] });
    let mesh = MeshTree::from_buf(&img).unwrap();
    let grid = mesh.get_debug_buf();
    assert_eq!(grid.len(), 16);
    assert_eq!(grid[0], vec![0xa000_0000_0000_0003u64]);
    assert_eq!(grid[5], vec![0x00f0_0000_0000_0000u64]);
    assert_eq!(grid[1], vec![0u64]);
    assert_eq!(mesh.bbox(), rect(0, 0, 16, 6));
}

#[test]
fn collision_is_symmetric() {
    let a = load_mesh(&chara2());
    let b = load_mesh(&filled(48, 48, 20, 20, 40, 40, 0xff));
    let leaf = load_mesh(&chara1());
    for (oa, ob) in [((0, 0), (5, 3)), ((10, 10), (-30, -25)), ((0, 0), (40, 0)), ((7, 0), (-12, 9))] {
        let (pa, pb) = (point2(oa.0, oa.1), point2(ob.0, ob.1));
        assert_eq!(a.collide(&b, pa, pb).is_some(), b.collide(&a, pb, pa).is_some());
        assert_eq!(a.collide(&leaf, pa, pb), leaf.collide(&a, pb, pa));
        assert_eq!(leaf.collide(&leaf, pa, pb), leaf.collide(&leaf, pb, pa));
    }
}

#[test]
fn two_nodes_may_answer_with_different_rectangles() {
    // each mesh has two tiles with one marked pixel each, and each tile of
    // the one touches one tile of the other: a query answers with the pair
    // of the first tile of the mesh that it was put to
    let mut one = PixelBuf::new(32, 32);
    one.put_pixel(8, 12, Rgba { data: [0, 0, 0, 0xff] });
    one.put_pixel(18, 2, Rgba { data: [0, 0, 0, 0xff] });
    let mut two = PixelBuf::new(32, 32);
    two.put_pixel(10, 10, Rgba { data: [0, 0, 0, 0xff] });
    two.put_pixel(0, 20, Rgba { data: [0, 0, 0, 0xff] });
    let (a, b) = (load_mesh(&one), load_mesh(&two));
    let hit = a.collide(&b, point2(0, 0), point2(8, -8));
    let back = b.collide(&a, point2(8, -8), point2(0, 0));
    assert_eq!(hit, Some(rect(8, 12, 1, 1)));
    assert_eq!(back, Some(rect(18, 2, 1, 1)));
}

#[test]
fn two_nodes_with_one_colliding_pair_answer_alike() {
    let mut one = PixelBuf::new(32, 32);
    one.put_pixel(8, 12, Rgba { data: [0, 0, 0, 0xff] });
    one.put_pixel(18, 2, Rgba { data: [0, 0, 0, 0xff] });
    let mut two = PixelBuf::new(32, 32);
    two.put_pixel(10, 10, Rgba { data: [0, 0, 0, 0xff] });
    two.put_pixel(30, 30, Rgba { data: [0, 0, 0, 0xff] });
    let (a, b) = (load_mesh(&one), load_mesh(&two));
    // only the pixel (18, 2) of the one meets a pixel of the other
    let hit = a.collide(&b, point2(0, 0), point2(8, -8));
    let back = b.collide(&a, point2(8, -8), point2(0, 0));
    assert_eq!(hit, Some(rect(18, 2, 1, 1)));
    assert_eq!(back, hit);
}

#[test]
fn moving_both_meshes_moves_the_answer() {
    let a = load_mesh(&chara2());
    let b = load_mesh(&chara1());
    let hit = a.collide(&b, point2(0, 0), point2(19, 16)).unwrap();
    for (dx, dy) in [(1, 0), (0, 1), (-40, 25), (300, -200), (-1000, -1000)] {
        let moved = a.collide(&b, point2(dx, dy), point2(19 + dx, 16 + dy));
        assert_eq!(moved, Some(rect(hit.origin.x + dx, hit.origin.y + dy, 10, 14)));
    }
    let miss = a.collide(&b, point2(0, 0), point2(40, 0));
    assert_eq!(miss, None);
    assert_eq!(a.collide(&b, point2(-7, 9), point2(33, 9)), None);
}

#[test]
fn boxes_apart_give_no_collision() {
    let a = load_mesh(&chara2());
    let b = load_mesh(&chara1());
    // chara2 covers x from 1 to 30; chara1 starts at its own x = 2
    assert_eq!(a.collide(&b, point2(0, 0), point2(29, 0)), None);
    assert_eq!(a.collide(&b, point2(0, 0), point2(28, 0)), Some(rect(30, 2, 1, 14)));
    assert_eq!(b.collide(&a, point2(29, 0), point2(0, 0)), None);
    assert_eq!(a.collide(&a, point2(0, 0), point2(0, 30)), None);
    assert_eq!(b.collide(&b, point2(0, 0), point2(-11, 0)), None);
}

#[test]
fn boxes_that_overlap_without_a_shared_pixel_give_no_collision() {
    // an L and a single pixel in the corner that the L leaves free
    let mut l = PixelBuf::new(16, 16);
    for i in 0..8 {
        l.put_pixel(0, i, Rgba { data: [0, 0, 0, 0xff] });
        l.put_pixel(i, 7, Rgba { data: [0, 0, 0, 0xff] });
    }
    let l = load_mesh(&l);
    let dot = load_mesh(&filled(16, 16, 0, 0, 1, 1, 0xff));
    assert_eq!(l.bbox(), rect(0, 0, 8, 8));
    assert_eq!(l.collide(&dot, point2(0, 0), point2(5, 2)), None);
    assert_eq!(l.collide(&dot, point2(0, 0), point2(5, 7)), Some(rect(5, 7, 1, 1)));
    assert_eq!(l.collide(&dot, point2(0, 0), point2(0, 3)), Some(rect(0, 3, 1, 1)));
}

#[test]
fn occupied_pixels_collide_whatever_their_collision_bits() {
    let one = load_mesh(&filled(16, 16, 0, 0, 16, 16, 0xf1));
    let two = load_mesh(&filled(16, 16, 0, 0, 16, 16, 0xf2));
    let both = load_mesh(&filled(16, 16, 0, 0, 16, 16, 0xf3));
    assert_eq!(one.collide(&two, point2(0, 0), point2(3, 3)), Some(rect(3, 3, 13, 13)));
    assert_eq!(two.collide(&one, point2(3, 3), point2(0, 0)), Some(rect(3, 3, 13, 13)));
    assert_eq!(one.collide(&both, point2(0, 0), point2(3, 3)), Some(rect(3, 3, 13, 13)));
    assert_eq!(two.collide(&both, point2(0, 0), point2(-3, 4)), Some(rect(0, 4, 13, 12)));
    // one marked pixel each at (0, 0), with the bits 0x1 and 0x2
    let low = load_mesh(&filled(16, 16, 0, 0, 1, 1, 0x01));
    let high = load_mesh(&filled(16, 16, 0, 0, 1, 1, 0x02));
    assert_eq!(low.collide(&high, point2(0, 0), point2(0, 0)), Some(rect(0, 0, 1, 1)));
    assert_eq!(low.collide(&high, point2(0, 0), point2(1, 0)), None);
    // each of the four bits marks a pixel, in a tile and in a node
    for bit in [0x01u8, 0x02, 0x04, 0x08] {
        let mut img = PixelBuf::new(32, 32);
        img.put_pixel(21, 19, Rgba { data: [0, 0, 0, bit] });
        img.put_pixel(3, 4, Rgba { data: [0, 0, 0, 0x0f ^ bit] });
        let mesh = load_mesh(&img);
        assert_eq!(mesh.collide(&low, point2(0, 0), point2(21, 19)), Some(rect(21, 19, 1, 1)));
        assert_eq!(high.collide(&mesh, point2(3, 4), point2(0, 0)), Some(rect(3, 4, 1, 1)));
        assert_eq!(mesh.collide(&low, point2(0, 0), point2(20, 19)), None);
    }
}

#[test]
fn meshes_near_the_edge_of_the_dot_space_can_be_placed() {
    let dot = load_mesh(&filled(16, 16, 0, 0, 1, 1, 0xff));
    let far = point2(32760, 32760);
    assert_eq!(dot.collide(&dot, far, far), Some(rect(32760, 32760, 1, 1)));
    assert_eq!(dot.collide(&dot, far, point2(32761, 32760)), None);
    assert_eq!(dot.collide(&dot, point2(32766, 0), point2(32766, 0)), Some(rect(32766, 0, 1, 1)));
    // the box (1, 2, 30, 30) of four tiles, with its right edge on the last dot
    let mesh = load_mesh(&chara2());
    let at = point2(32767 - 31, -32768);
    assert_eq!(mesh.collide(&dot, at, point2(32766, -32766)), Some(rect(32766, -32766, 1, 1)));
    assert_eq!(dot.collide(&mesh, point2(32737, -32766), at), Some(rect(32737, -32766, 1, 1)));
    assert_eq!(mesh.collide(&mesh, at, at), Some(rect(32737, -32766, 15, 14)));
}

#[test]
fn image_without_occupied_pixel_gives_a_frame_without_mesh() {
    // visible, but without collision bits
    let img = filled(20, 33, 2, 2, 19, 30, 0x90);
    assert!(MeshTree::from_buf(&img).is_none());
    let frame = Frame::from_buf(&img, "ghost").unwrap();
    assert_eq!(frame.name(), "ghost");
    assert_eq!(frame.size(), (20, 33));
    assert_eq!(frame.alpha().0, 9);
    assert_eq!(frame.tiles().len(), 2 * 3);
    assert!(frame.mesh().is_none());
    assert_eq!(frame.bbox(), None);
    assert_eq!(frame.dot_at(2, 2), Some(Color { r: 14, g: 10, b: 40 }));
    assert_eq!(frame.dot_at(0, 0), None);
    let back = frame.restore_buf().unwrap();
    for y in 0..33 {
        for x in 0..20 {
            assert_eq!(back.get_pixel(x, y), img.get_pixel(x, y));
        }
    }
    // fully transparent
    let blank = Frame::from_buf(&PixelBuf::new(32, 32), "none").unwrap();
    assert!(blank.mesh().is_none());
    assert_eq!(blank.tiles().len(), 4);
    assert_eq!(blank.size(), (32, 32));
    assert_eq!(blank.alpha().0, 0);
    // queries with a frame without mesh report no collision
    let solid = load_frame(&chara2(), "chara2");
    let o = point2(0, 0);
    assert_eq!(frame.collide(&solid, o, o), None);
    assert_eq!(solid.collide(&frame, o, o), None);
    assert_eq!(frame.collide(&frame, o, o), None);
    assert_eq!(blank.collide(&solid, point2(32767, 32767), o), None);
}

#[test]
fn frames_collide_as_their_meshes_do() {
    let a = load_frame(&chara2(), "chara2");
    let b = load_frame(&chara1(), "chara1");
    assert_eq!(a.collide(&b, point2(0, 0), point2(19, 16)), Some(rect(21, 18, 10, 14)));
    assert_eq!(b.collide(&a, point2(19, 16), point2(0, 0)), Some(rect(21, 18, 10, 14)));
    assert_eq!(a.collide(&b, point2(0, 0), point2(29, 0)), None);
    assert_eq!(
        a.collide(&b, point2(0, 0), point2(19, 16)),
        a.mesh().unwrap().collide(b.mesh().unwrap(), point2(0, 0), point2(19, 16))
    );
}

#[test]
fn first_colliding_child_answers() {
    // a probe that touches both the upper left and the lower right tile of a
    // four tile mesh: the upper left tile is asked first
    let mesh = load_mesh(&filled(32, 32, 0, 0, 32, 32, 0xff));
    let probe = load_mesh(&filled(16, 16, 0, 0, 16, 16, 0xff));
    assert_eq!(mesh.collide(&probe, point2(0, 0), point2(8, 8)), Some(rect(8, 8, 8, 8)));
    assert_eq!(probe.collide(&mesh, point2(8, 8), point2(0, 0)), Some(rect(8, 8, 8, 8)));
    assert_eq!(mesh.collide(&probe, point2(0, 0), point2(20, 8)), Some(rect(20, 8, 12, 8)));
}

#[test]
fn frame_keeps_tiles_and_size() {
    let img = filled(20, 33, 2, 2, 19, 30, 0x9f);
    let frame = Frame::from_buf(&img, "odd").unwrap();
    assert_eq!(frame.name(), "odd");
    assert_eq!(frame.tiles().len(), 2 * 3);
    for (k, (_, at)) in frame.tiles().iter().enumerate() {
        assert_eq!((at.x as usize, at.y as usize), (k % 2, k / 2));
    }
    let dots = frame.get_debug_buf().unwrap();
    assert_eq!(dots.len(), 33);
    for (y, row) in dots.iter().enumerate() {
        assert_eq!(row.len(), 20);
        for (x, dot) in row.iter().enumerate() {
            let inside = 2 <= x && x < 19 && 2 <= y && y < 30;
            assert_eq!(dot.is_some(), inside);
            if let Some(c) = dot {
                assert_eq!((c.r, c.g, c.b), ((x * 7) as u8, (y * 5) as u8, 40));
            }
        }
    }
    assert_eq!(frame.bbox(), Some(rect(2, 2, 17, 28)));
    let back = frame.restore_buf().unwrap();
    for y in 0..33 {
        for x in 0..20 {
            assert_eq!(back.get_pixel(x, y), img.get_pixel(x, y));
        }
    }
}

#[test]
fn restored_image_has_one_opacity() {
    let mut img = PixelBuf::new(16, 16);
    img.put_pixel(1, 1, Rgba { data: [10, 20, 30, 0x51] });
    img.put_pixel(2, 1, Rgba { data: [11, 21, 31, 0xc0] });
    img.put_pixel(3, 1, Rgba { data: [12, 22, 32, 0x04] });
    let frame = Frame::from_buf(&img, "mixed").unwrap();
    let back = frame.restore_buf().unwrap();
    assert_eq!(back.get_pixel(1, 1), Rgba { data: [10, 20, 30, 0xc1] });
    assert_eq!(back.get_pixel(2, 1), Rgba { data: [11, 21, 31, 0xc0] });
    assert_eq!(back.get_pixel(3, 1), Rgba { data: [255, 255, 255, 0x04] });
    assert_eq!(back.get_pixel(0, 0), Rgba { data: [255, 255, 255, 0] });
}

#[test]
fn placed_boxes_intersect_as_rectangles_do() {
    let a = rect(0, 0, 10, 10);
    let b = rect(5, 6, 10, 10);
    let o = point2(0, 0);
    assert!(bbox_intersects(a, b, o, o));
    assert_eq!(bbox_intersection(a, b, o, o), Some(rect(5, 6, 5, 4)));
    assert_eq!(bbox_intersection(b, a, o, o), Some(rect(5, 6, 5, 4)));
    assert!(!bbox_intersects(a, b, o, point2(5, 0)));
    assert_eq!(bbox_intersection(a, b, o, point2(5, 0)), None);
    assert!(bbox_intersects(a, b, point2(1, 0), point2(5, 0)));
    assert_eq!(bbox_intersection(a, b, point2(1, 0), point2(5, 0)), Some(rect(10, 6, 1, 4)));
    assert_eq!(bbox_intersection(a, b, point2(-7, -9), point2(-9, -9)), Some(rect(-4, -3, 7, 4)));
    assert_eq!(slide_rect(a, vec2(-3, 4)), rect(-3, 4, 10, 10));
    assert_eq!(get_tile_range(rect(20, 20, 10, 10), point2(12, 14)), Some(rect(8, 6, 8, 10)));
    assert_eq!(get_tile_range(rect(20, 20, 10, 10), point2(0, 0)), None);
    assert_eq!(tile_size().width, 16);
}

#[test]
fn bounding_box_of_a_node_is_the_union_of_its_children() {
    // one marked pixel in the upper right tile, one in the lower left tile
    let mut img = PixelBuf::new(32, 32);
    img.put_pixel(20, 3, Rgba { data: [0, 0, 0, 0x01] });
    img.put_pixel(5, 30, Rgba { data: [0, 0, 0, 0x01] });
    assert_eq!(load_mesh(&img).bbox(), rect(5, 3, 16, 28));
}

struct Placed {
    at: DotPoint,
    mesh: MeshTree,
}

impl Collide for Placed {
    fn spec_origin(&self) -> DotPoint {
        self.at
    }
    fn spec_mesh(&self) -> &MeshTree {
        &self.mesh
    }
    fn origin(&self) -> DotPoint {
        self.at
    }
    fn mesh(&self) -> &MeshTree {
        &self.mesh
    }
}

#[test]
fn objects_collide_at_their_origins() {
    let a = Placed { at: point2(0, 0), mesh: load_mesh(&chara2()) };
    let b = Placed { at: point2(19, 16), mesh: load_mesh(&chara1()) };
    let c = Placed { at: point2(100, 0), mesh: load_mesh(&bullet()) };
    assert_eq!(collide(&a, &b), Some(rect(21, 18, 10, 14)));
    assert_eq!(collide(&b, &a), Some(rect(21, 18, 10, 14)));
    assert_eq!(collide(&a, &c), None);
    assert_eq!(collide(&c, &c), Some(rect(107, 8, 1, 1)));
}

#[test]
fn colour_buffer_turns_each_dot_into_a_pixel() {
    let img = filled(20, 18, 3, 4, 10, 12, 0x7f);
    let frame = Frame::from_buf(&img, "part").unwrap();
    let cnv = |d: &Dot| match d {
        Some(c) => Rgba { data: [c.b, c.g, c.r, 1] },
        None => Rgba { data: [9, 9, 9, 2] },
    };
    let buf = frame.get_color_buf(&cnv).unwrap();
    assert_eq!((buf.width(), buf.height()), (20, 18));
    for y in 0..18u32 {
        for x in 0..20u32 {
            let inside = 3 <= x && x < 10 && 4 <= y && y < 12;
            let want = if inside {
                Rgba { data: [40, (y * 5) as u8, (x * 7) as u8, 1] }
            } else {
                Rgba { data: [9, 9, 9, 2] }
            };
            assert_eq!(buf.get_pixel(x, y), want);
            let dot = if inside {
                Some(Color { r: (x * 7) as u8, g: (y * 5) as u8, b: 40 })
            } else {
                None
            };
            assert_eq!(frame.dot_at(x as usize, y as usize), dot);
        }
    }
    assert_eq!(frame.alpha().0, 7);
    assert_eq!(frame.size(), (20, 18));
    assert_eq!(Some(frame.mesh().unwrap().bbox()), frame.bbox());
}

#[test]
fn tiles_are_cut_from_the_image() {
    assert_eq!(tile_num(0), 0);
    assert_eq!(tile_num(1), 1);
    assert_eq!(tile_num(16), 1);
    assert_eq!(tile_num(17), 2);
    assert_eq!(tile_num(256), 16);
    let img = filled(20, 18, 0, 0, 20, 18, 0x7f);
    let tile = tile_from_buf(&img, 1, 1);
    for y in 0..16usize {
        for x in 0..16usize {
            let inside = x < 4 && y < 2;
            assert_eq!(tile.get_xy(x, y).unwrap().is_some(), inside);
        }
    }
    assert_eq!(
        tile.get_xy(3, 1),
        Some(&Some(Color { r: 19 * 7, g: 17 * 5, b: 40 }))
    );
}
