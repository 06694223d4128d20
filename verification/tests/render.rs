use brass_engine::render::renderer2d::{hex_channels, layer_order, Animation, SpriteSheet, Tilemap, EMPTY_TILE};
use brass_engine::render::mesh::{face_indices, fan_indices, quad_indices, sphere_indices};
use brass_engine::{AppConfig, TextureManager};

#[test]
fn app_config_default() {
    let c = AppConfig::default();
    assert_eq!(c.title, "Brass Engine");
    assert_eq!((c.width, c.height), (1280, 720));
}

#[test]
fn hex_splits_channels() {
    assert_eq!(hex_channels(0xFF8C00), (255, 140, 0));
    assert_eq!(hex_channels(0x12345678), (0x34, 0x56, 0x78));
}

#[test]
fn sheet_cells() {
    let s = SpriteSheet::new(3, 4, 2);
    assert_eq!(s.frame_cell(0), (0, 0));
    assert_eq!(s.frame_cell(6), (2, 1));
}

#[test]
fn animation_loops_and_stops() {
    let mut a = Animation::new(SpriteSheet::new(1, 4, 4), vec![5, 6, 7], true);
    assert_eq!(a.current_frame(), 5);
    a.advance();
    a.advance();
    assert_eq!(a.current_frame(), 7);
    a.advance();
    assert_eq!(a.current_frame(), 5);
    let mut once = Animation::new(SpriteSheet::new(1, 4, 4), vec![1, 2], false);
    assert!(!once.advance());
    assert!(once.advance());
    assert!(once.finished);
    assert_eq!(once.current_frame(), 2);
    assert!(once.advance());
    once.reset();
    assert!(!once.finished);
    assert_eq!(once.current_frame(), 1);
    assert_eq!(once.texture_id(), 1);
    assert_eq!(once.frames(), &vec![1, 2]);
    assert_eq!(once.sheet().cols, 4);
    assert!(!once.is_looping() && !once.is_finished());
}

#[test]
fn tile_grid_sentinel() {
    let mut t = Tilemap::new(9, 8, 3, 2);
    assert_eq!(t.layer, 64);
    assert!(t.tiles.iter().all(|x| *x == EMPTY_TILE));
    assert_eq!(t.get(1, 1), None);
    t.set(1, 1, 12);
    assert_eq!(t.get(1, 1), Some(12));
    t.set(3, 0, 1);
    assert_eq!(t.get(3, 0), None);
    assert_eq!(t.tile_cell(12), (4, 1));
}

#[test]
fn layer_order_is_stable() {
    let order = layer_order(&vec![128, 64, 250, 64, 0, 128]);
    assert_eq!(order, vec![4, 1, 3, 0, 5, 2]);
    assert!(layer_order(&vec![]).is_empty());
}

#[test]
fn texture_cache() {
    let mut m: TextureManager<&str> = TextureManager::new("white");
    assert_eq!(m.white(), &"white");
    assert_eq!(m.cached("hero"), None);
    let id = m.load_keyed("hero", || "hero-tex");
    assert_eq!(id, 1);
    let again = m.load_keyed("hero", || panic!("loaded twice"));
    assert_eq!(again, id);
    assert_eq!(m.cached("hero"), Some(1));
    let raw = m.insert("raw");
    assert_eq!(raw, 2);
    assert_eq!(m.get(2), Some(&"raw"));
    m.remove(2);
    assert_eq!(m.get(2), None);
    assert_eq!(m.insert("x"), 3);
}

#[test]
fn quad_two_triangles() {
    assert_eq!(quad_indices(8), [8, 9, 10, 8, 10, 11]);
}

#[test]
fn fan_around_center() {
    assert_eq!(fan_indices(10, 3), vec![10, 11, 12, 10, 12, 13, 10, 13, 14]);
    assert!(fan_indices(0, 0).is_empty());
}

#[test]
fn cube_faces() {
    let v = face_indices(6);
    assert_eq!(v.len(), 36);
    assert_eq!(&v[0..6], &[0, 1, 2, 0, 2, 3]);
    assert_eq!(&v[30..36], &[20, 21, 22, 20, 22, 23]);
}

#[test]
fn sphere_grid() {
    let v = sphere_indices(2, 3);
    assert_eq!(v.len(), 36);
    assert_eq!(&v[0..6], &[0, 4, 1, 4, 5, 1]);
    // second stack, last slice: cur = 1*4 + 2 = 6, next = 10
    assert_eq!(&v[30..36], &[6, 10, 7, 10, 11, 7]);
}

/// A 2×1 RGBA PNG: one opaque red pixel, one half-transparent blue one.
const TWO_PIXELS_PNG: [u8; 71] = [
    137, 80, 78, 71, 13, 10, 26, 10, 0, 0, 0, 13, 73, 72, 68, 82, 0, 0, 0, 2, 0, 0, 0, 1, 8, 6, 0, 0, 0, 244,
    34, 127, 138, 0, 0, 0, 14, 73, 68, 65, 84, 120, 156, 99, 248, 207, 192, 0, 66, 13, 0, 15, 122, 3, 126, 119,
    233, 127, 151, 0, 0, 0, 0, 73, 69, 78, 68, 174, 66, 96, 130,
];

#[test]
fn load_bytes_decodes_once_per_key() {
    let mut m: TextureManager<(Vec<u8>, u32, u32)> = TextureManager::new((vec![255; 4], 1, 1));
    let id = m.load_bytes_keyed("two", &TWO_PIXELS_PNG, |px, w, h| (px, w, h));
    assert_eq!(id, Some(1));
    assert_eq!(m.get(1), Some(&(vec![255, 0, 0, 255, 0, 0, 255, 128], 2, 1)));
    // The key is cached: the bytes are not decoded again, so bad bytes do not matter.
    let again = m.load_bytes_keyed("two", b"not an image", |_, _, _| panic!("uploaded twice"));
    assert_eq!(again, Some(1));
    assert_eq!(m.cached("two"), Some(1));
}

#[test]
fn load_bytes_rejects_non_images() {
    let mut m: TextureManager<u32> = TextureManager::new(0);
    assert_eq!(m.load_bytes_keyed("bad", b"not an image", |_, w, _| w), None);
    assert_eq!(m.cached("bad"), None);
    assert_eq!(m.insert_bytes(&[], |_, w, _| w), None);
    assert_eq!(m.insert_bytes(&TWO_PIXELS_PNG, |px, w, h| px.len() as u32 + w * 100 + h * 1000), Some(1));
    assert_eq!(m.get(1), Some(&1208));
    assert_eq!(m.insert(7), 2);
}
