use altena_core::font::{drawn_alpha, FontCache};
use altena_core::frame::TileDir;
use altena_core::pixels::{PixelBuf, Rgba};
use altena_core::tile::tiletypes::{TilePoint, TILE_SIZE};
use altena_core::tile::{Alpha, AltenaAlpha, Blend, Color, Dot, Tile};

#[test]
fn opacity_byte_has_two_halves() {
    let p = Rgba { data: [1, 2, 3, 0b1011_0110] };
    assert_eq!(p.value(), 0b1011_0110);
    assert_eq!(p.alpha(), Alpha(0b1011));
    assert_eq!(p.collision_bits(), 0b0110);
    assert!(!p.is_trans());
    let q = Rgba { data: [1, 2, 3, 0b0000_1111] };
    assert!(q.is_trans());
    assert_eq!(q.collision_bits(), 15);
    assert_eq!(q.alpha(), Alpha(0));
}

#[test]
fn alpha_max_and_plus() {
    let mut a = Alpha(3);
    a.max(Alpha(9));
    assert_eq!(a, Alpha(9));
    a.max(Alpha(2));
    assert_eq!(a, Alpha(9));
    a.plus(3);
    assert_eq!(a, Alpha(12));
    a.plus(3);
    assert_eq!(a, Alpha(15));
    a.plus(200);
    assert_eq!(a, Alpha(15));
    let mut b = Alpha(1);
    b.max(Alpha(4)).plus(2).plus(1);
    assert_eq!(b, Alpha(7));
}

#[test]
fn alpha_inv_and_trans() {
    assert_eq!(Alpha(0).inv(), Alpha(15));
    assert_eq!(Alpha(15).inv(), Alpha(0));
    assert_eq!(Alpha(6).inv(), Alpha(9));
    assert!(Alpha(0).is_trans());
    assert!(!Alpha(1).is_trans());
}

#[test]
fn alpha_comp_rounds_to_nearest() {
    assert_eq!(Alpha(0).comp(255), 0);
    assert_eq!(Alpha(15).comp(255), 255);
    assert_eq!(Alpha(15).comp(77), 77);
    assert_eq!(Alpha(1).comp(7), 0);
    assert_eq!(Alpha(1).comp(8), 1);
    assert_eq!(Alpha(1).comp(22), 1);
    assert_eq!(Alpha(1).comp(23), 2);
    assert_eq!(Alpha(1).comp(255), 17);
    assert_eq!(Alpha(2).comp(3), 0);
    assert_eq!(Alpha(2).comp(4), 1);
    assert_eq!(Alpha(8).comp(255), 136);
    assert_eq!(Alpha(7).comp(255), 119);
    assert_eq!(Alpha(14).comp(254), 237);
}

#[test]
fn alpha_blend_mixes_two_values() {
    assert_eq!(Alpha(0).blend(200, 50), 200);
    assert_eq!(Alpha(15).blend(200, 50), 50);
    assert_eq!(Alpha(7).blend(255, 255), 255);
    assert_eq!(Alpha(8).blend(0, 255), 136);
    assert_eq!(Alpha(5).blend(90, 30), 70);
    for a in 0..16u8 {
        for v in [0u8, 1, 17, 128, 254, 255] {
            assert_eq!(Alpha(a).blend(v, v), Alpha(a).inv().comp(v) + Alpha(a).comp(v));
        }
    }
}

#[test]
fn alpha_to_256_moves_each_bit_up() {
    assert_eq!(Alpha(0).to_256(), 0);
    assert_eq!(Alpha(0b0001).to_256(), 0b0000_0010);
    assert_eq!(Alpha(0b0010).to_256(), 0b0000_1000);
    assert_eq!(Alpha(0b0100).to_256(), 0b0010_0000);
    assert_eq!(Alpha(0b1000).to_256(), 0b1000_0000);
    assert_eq!(Alpha(0b1111).to_256(), 0b1010_1010);
    assert_eq!(Alpha(0b0101).to_256(), 0b0010_0010);
}

#[test]
fn colour_from_and_to_pixel() {
    assert_eq!(Color::from_rgba(&Rgba { data: [1, 2, 3, 0x0f] }), None);
    assert_eq!(
        Color::from_rgba(&Rgba { data: [1, 2, 3, 0x10] }),
        Some(Color { r: 1, g: 2, b: 3 })
    );
    assert_eq!(Color { r: 9, g: 8, b: 7 }.to_rgba(), Rgba { data: [9, 8, 7, 0] });
    assert_eq!(Color::black(), Color { r: 0, g: 0, b: 0 });
    assert_eq!(Color::white(), Color { r: 255, g: 255, b: 255 });
    let c = Color { r: 4, g: 5, b: 6 };
    assert_eq!(c.get(0), Some(4));
    assert_eq!(c.get(1), Some(5));
    assert_eq!(c.get(2), Some(6));
    assert_eq!(c.get(3), None);
    assert_eq!(Color::default(), Color::black());
}

#[test]
fn blend_paints_over() {
    let mut c = Color { r: 200, g: 0, b: 90 };
    c.blend(Color { r: 50, g: 255, b: 30 }, Alpha(15));
    assert_eq!(c, Color { r: 50, g: 255, b: 30 });
    let mut c = Color { r: 200, g: 0, b: 90 };
    c.blend(Color { r: 50, g: 255, b: 30 }, Alpha(0));
    assert_eq!(c, Color { r: 200, g: 0, b: 90 });
    let mut c = Color { r: 200, g: 0, b: 90 };
    c.blend(Color { r: 50, g: 255, b: 30 }, Alpha(5));
    assert_eq!(c, Color { r: 150, g: 85, b: 70 });

    let mut p = Rgba { data: [200, 0, 90, 0xab] };
    p.blend(Color { r: 50, g: 255, b: 30 }, Alpha(5));
    assert_eq!(p, Rgba { data: [150, 85, 70, 0xab] });

    let mut d: Dot = Some(Color { r: 200, g: 0, b: 90 });
    d.blend(Color { r: 50, g: 255, b: 30 }, Alpha(5));
    assert_eq!(d, Some(Color { r: 150, g: 85, b: 70 }));
    let mut d: Dot = None;
    d.blend(Color { r: 50, g: 255, b: 30 }, Alpha(5));
    assert_eq!(d, Some(Color { r: 33, g: 170, b: 20 }));
}

#[test]
fn tile_holds_256_dots() {
    assert_eq!(TILE_SIZE, 16);
    let mut t = Tile::new(Some(Color::white()));
    assert_eq!(t.get_xy(0, 0), Some(&Some(Color::white())));
    assert_eq!(t.get_xy(15, 15), Some(&Some(Color::white())));
    assert_eq!(t.get_xy(16, 0), None);
    assert_eq!(t.get_xy(0, 16), None);
    assert!(t.set_xy(3, 4, None));
    assert!(!t.set_xy(16, 4, None));
    assert!(!t.set_xy(3, 16, Some(Color::black())));
    assert_eq!(t.get_xy(3, 4), Some(&None));
    assert_eq!(t.get_xy(4, 3), Some(&Some(Color::white())));
    let d = Tile::default();
    for y in 0..16 {
        for x in 0..16 {
            assert_eq!(d.get_xy(x, y), Some(&None));
        }
    }
    assert_eq!(TilePoint::new(2, 3), TilePoint { x: 2, y: 3 });
}

#[test]
fn quadrants() {
    let all = TileDir::variants();
    assert_eq!(all, [TileDir::LeftUp, TileDir::RightUp, TileDir::RightDown, TileDir::LeftDown]);
    let at: Vec<(u8, u8)> = all.iter().map(|d| (d.x::<u8>(), d.y::<u8>())).collect();
    assert_eq!(at, vec![(0, 0), (1, 0), (1, 1), (0, 1)]);
    for d in all.iter() {
        let v = d.to_vec();
        assert_eq!((v.x, v.y), (d.x::<i16>(), d.y::<i16>()));
    }
}

#[test]
fn pixel_buffer_keeps_its_pixels() {
    let mut buf = PixelBuf::new(3, 2);
    assert_eq!((buf.width(), buf.height()), (3, 2));
    assert_eq!(buf.as_raw(), &vec![0u8; 24]);
    buf.put_pixel(2, 1, Rgba { data: [1, 2, 3, 4] });
    buf.put_pixel(0, 0, Rgba { data: [5, 6, 7, 8] });
    assert_eq!(buf.get_pixel(2, 1), Rgba { data: [1, 2, 3, 4] });
    assert_eq!(buf.get_pixel(0, 0), Rgba { data: [5, 6, 7, 8] });
    assert_eq!(buf.get_pixel(1, 0), Rgba { data: [0, 0, 0, 0] });
    assert_eq!(&buf.as_raw()[20..24], &[1, 2, 3, 4]);
    let raw = buf.as_raw().clone();
    let again = PixelBuf::from_raw(3, 2, raw).unwrap();
    assert_eq!(again.get_pixel(2, 1), Rgba { data: [1, 2, 3, 4] });
    assert!(PixelBuf::from_raw(3, 2, vec![0; 23]).is_none());
    assert!(PixelBuf::from_raw(3, 2, vec![0; 25]).is_none());
    assert!(PixelBuf::from_raw(0, 7, vec![]).is_some());
}

#[test]
fn font_cache_packs_two_dots_in_a_byte() {
    let mut cache = FontCache::new(5);
    for y in 0..5 {
        for x in 0..5 {
            assert_eq!(cache.get(x, y), Alpha(0));
        }
    }
    cache.set(0, 0, Alpha(9));
    cache.set(1, 0, Alpha(3));
    cache.set(4, 4, Alpha(15));
    cache.set(2, 3, Alpha(4));
    assert_eq!(cache.get(0, 0), Alpha(9));
    assert_eq!(cache.get(1, 0), Alpha(3));
    assert_eq!(cache.get(4, 4), Alpha(15));
    assert_eq!(cache.get(2, 3), Alpha(4));
    assert_eq!(cache.get(3, 3), Alpha(0));
    assert_eq!(cache.get(1, 3), Alpha(0));
    // bits are added, not replaced
    cache.set(2, 3, Alpha(3));
    assert_eq!(cache.get(2, 3), Alpha(7));
    cache.set(1, 0, Alpha(12));
    assert_eq!(cache.get(1, 0), Alpha(15));
    assert_eq!(cache.get(0, 0), Alpha(9));
}

#[test]
fn glyph_dots_below_the_threshold_are_not_drawn() {
    assert_eq!(drawn_alpha(Alpha(0)), None);
    assert_eq!(drawn_alpha(Alpha(4)), None);
    assert_eq!(drawn_alpha(Alpha(5)), Some(Alpha(8)));
    assert_eq!(drawn_alpha(Alpha(12)), Some(Alpha(15)));
    assert_eq!(drawn_alpha(Alpha(13)), Some(Alpha(15)));
    assert_eq!(drawn_alpha(Alpha(15)), Some(Alpha(15)));
}
