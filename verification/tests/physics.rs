use brass_engine::physics2d::{pair_response, PairResponse, PhysicsId, PhysicsWorld, TilemapCollider};

#[test]
fn collider_grid() {
    let mut m = TilemapCollider::new(4, 3);
    assert!(!m.get_tile(1, 1));
    m.set_tile(1, 1, true);
    m.set_tile(9, 9, true);
    assert!(m.get_tile(1, 1));
    assert!(!m.get_tile(9, 9));
    m.set_tile(1, 1, false);
    assert!(!m.get_tile(1, 1));
    assert_eq!((m.width(), m.height()), (4, 3));
}

#[test]
fn collider_region_is_clamped_and_row_major() {
    let mut m = TilemapCollider::new(5, 5);
    m.set_tile(4, 0, true);
    m.set_tile(0, 2, true);
    m.set_tile(3, 2, true);
    m.set_tile(2, 4, true);
    assert_eq!(m.tiles_in_region(-3, -3, 10, 10), vec![(4, 0), (0, 2), (3, 2), (2, 4)]);
    assert_eq!(m.tiles_in_region(1, 1, 3, 3), vec![(3, 2)]);
    assert!(m.tiles_in_region(3, 3, 1, 1).is_empty());
}

#[test]
fn collider_from_grid() {
    let rows: [&[bool]; 2] = [&[true, false, true], &[false, true]];
    let m = TilemapCollider::from_grid(&rows);
    assert_eq!((m.width, m.height), (3, 2));
    assert!(m.get_tile(0, 0) && !m.get_tile(1, 0) && m.get_tile(2, 0));
    assert!(!m.get_tile(0, 1) && m.get_tile(1, 1) && !m.get_tile(2, 1));
}

#[test]
fn collider_from_str() {
    let m = TilemapCollider::from_str("#  #\r\n # \n\n##");
    assert_eq!((m.width, m.height), (4, 4));
    assert!(m.get_tile(0, 0) && !m.get_tile(1, 0) && m.get_tile(3, 0));
    assert!(m.get_tile(1, 1) && !m.get_tile(3, 1));
    assert!(!m.get_tile(0, 2));
    assert!(m.get_tile(0, 3) && m.get_tile(1, 3));
    let e = TilemapCollider::from_str("");
    assert_eq!((e.width, e.height), (0, 0));
    let t = TilemapCollider::from_str("##\n");
    assert_eq!((t.width, t.height), (2, 1));
}

#[test]
fn physics_world_ids() {
    let mut w: PhysicsWorld<&str> = PhysicsWorld::new();
    let a = w.add("player");
    let b = w.add("box");
    assert_eq!(a, PhysicsId(1));
    assert_eq!(b, PhysicsId(2));
    assert_eq!(w.get(a), Some(&"player"));
    if let Some(x) = w.get_mut(b) {
        *x = "crate";
    }
    assert_eq!(w.get(b), Some(&"crate"));
    let mut ids = w.ids();
    ids.sort_by_key(|i| i.0);
    assert_eq!(ids, vec![a, b]);
    w.remove(a);
    assert_eq!(w.get(a), None);
    assert_eq!(w.add("new"), PhysicsId(3));
}

#[test]
fn pair_responses() {
    assert_eq!(pair_response(false, false), PairResponse::Split);
    assert_eq!(pair_response(true, false), PairResponse::PushSecond);
    assert_eq!(pair_response(false, true), PairResponse::PushFirst);
    assert_eq!(pair_response(true, true), PairResponse::Ignore);
}
