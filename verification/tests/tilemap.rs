use brass_engine::tilemap::{TileLayer, TileMap, TileMapBuilder, TileMeta, TileSet};

#[test]
fn tileset_cuts_sheet() {
    let ts = TileSet::new(7, 512, 256, 16, 32);
    assert_eq!(ts.cols, 32);
    assert_eq!(ts.rows, 8);
    assert_eq!(ts.meta.len(), 256);
    assert!(ts.meta.iter().all(|m| !m.solid && m.tag.is_none()));
}

#[test]
fn tileset_id_and_cell_roundtrip() {
    let ts = TileSet::new(0, 64, 64, 16, 16);
    assert_eq!(ts.tile_id(3, 2), 11);
    assert_eq!(ts.tile_cell(11), (3, 2));
    assert_eq!(ts.tile_cell(0), (0, 0));
}

#[test]
fn tileset_meta_and_solid() {
    let mut ts = TileSet::new(0, 32, 32, 16, 16);
    ts.set_solid(&[1, 3, 99]);
    assert!(!ts.meta(0).solid);
    assert!(ts.meta(1).solid);
    assert!(!ts.meta(2).solid);
    assert!(ts.meta(3).solid);
    assert!(!ts.meta(99).solid);
    ts.set_meta(2, TileMeta { solid: true, tag: Some("lava".to_string()) });
    assert_eq!(ts.meta(2).tag.as_deref(), Some("lava"));
    ts.set_meta(50, TileMeta { solid: true, tag: None });
    assert_eq!(ts.meta.len(), 4);
    assert!(ts.meta(50).tag.is_none() && !ts.meta(50).solid);
    let d = TileMeta::default();
    assert!(!d.solid && d.tag.is_none());
}

#[test]
fn layer_set_get_and_bounds() {
    let mut l = TileLayer::new("bg", 4, 3);
    assert_eq!(l.tiles.len(), 12);
    assert_eq!(l.get(1, 1), None);
    l.set(1, 2, Some(5));
    assert_eq!(l.get(1, 2), Some(5));
    assert_eq!(l.tiles[2 * 4 + 1], Some(5));
    l.set(4, 0, Some(9));
    l.set(0, 3, Some(9));
    assert_eq!(l.get(4, 0), None);
    assert!(l.tiles.iter().filter(|t| t.is_some()).count() == 1);
}

#[test]
fn layer_fill_rect_clips() {
    let mut l = TileLayer::new("bg", 4, 3);
    l.fill_rect(2, 1, 5, 5, 7);
    for r in 0..3 {
        for c in 0..4 {
            let inside = c >= 2 && r >= 1;
            assert_eq!(l.get(c, r), if inside { Some(7) } else { None });
        }
    }
    l.fill_all(1);
    assert!(l.tiles.iter().all(|t| *t == Some(1)));
    l.clear();
    assert!(l.tiles.iter().all(|t| t.is_none()));
}

#[test]
fn layer_iter_tiles_in_order() {
    let mut l = TileLayer::new("objects", 3, 2);
    l.set(2, 0, Some(4));
    l.set(0, 1, Some(8));
    assert_eq!(l.iter_tiles(), vec![(2, 0, 4), (0, 1, 8)]);
}

#[test]
fn map_layers_and_solid() {
    let mut ts = TileSet::new(0, 32, 32, 16, 16);
    ts.set_solid(&[1]);
    let mut map = TileMap::new(ts);
    assert_eq!(map.layer_count(), 0);
    assert_eq!(map.locate_tile(0, 0), None);
    let bg = map.add_layer("bg", 5, 4);
    let fg = map.add_layer("fg", 5, 4);
    assert_eq!((bg, fg), (0, 1));
    map.layer_mut(bg).fill_all(0);
    map.layer_mut(fg).set(2, 3, Some(1));
    assert!(map.is_solid(2, 3));
    assert!(!map.is_solid(1, 3));
    assert!(!map.is_solid(9, 9));
    assert_eq!(map.layer(fg).get(2, 3), Some(1));
    assert_eq!(map.locate_tile(4, 3), Some((4, 3)));
    assert_eq!(map.locate_tile(5, 0), None);
}

#[test]
fn builder_reads_text_rows() {
    let ts = TileSet::new(0, 32, 32, 16, 16);
    let map = TileMapBuilder::new(ts)
        .layer("bg", vec!["012", " 3", "x9"])
        .layer_raw("raw", 2, 1, vec![Some(5), None])
        .build();
    assert_eq!(map.layer_count(), 2);
    let l = map.layer(0);
    assert_eq!((l.width, l.height), (3, 3));
    assert_eq!(l.get(0, 0), Some(0));
    assert_eq!(l.get(2, 0), Some(2));
    assert_eq!(l.get(0, 1), None);
    assert_eq!(l.get(1, 1), Some(3));
    assert_eq!(l.get(2, 1), None);
    assert_eq!(l.get(0, 2), None);
    assert_eq!(l.get(1, 2), Some(9));
    assert_eq!(map.layer(1).tiles, vec![Some(5), None]);
    assert_eq!(map.layer(1).name, "raw");
}
