use brass_engine::ecs::systems::cleanup_system;
use brass_engine::{Entity, ScriptComponent, Tag, World};

type W = World<i32, i32, i32, ScriptComponent<u8>>;

#[test]
fn tag_new_copies_text() {
    let t = Tag::new("player");
    assert_eq!(t.0, "player");
}

#[test]
fn spawn_hands_out_increasing_ids() {
    let mut w = W::new();
    let a = w.spawn();
    let b = w.spawn();
    assert_eq!(a, Entity(1));
    assert_eq!(b, Entity(2));
    assert_eq!(w.entities(), vec![Entity(1), Entity(2)]);
}

#[test]
fn destroy_is_deferred_until_flush() {
    let mut w = W::new();
    let a = w.spawn();
    let b = w.spawn();
    w.add_transform(a, 10).add_rigidbody(a, 20).add_sprite(a, 30).add_tag(a, "enemy");
    w.add_transform(b, 11);
    w.destroy(a);
    assert_eq!(w.entities(), vec![a, b]);
    assert_eq!(w.get_transform(a), Some(&10));
    w.flush_destroyed();
    assert_eq!(w.entities(), vec![b]);
    assert_eq!(w.get_transform(a), None);
    assert_eq!(w.get_rigidbody(a), None);
    assert_eq!(w.get_sprite(a), None);
    assert_eq!(w.find_by_tag("enemy"), None);
    assert_eq!(w.get_transform(b), Some(&11));
}

#[test]
fn cleanup_system_flushes() {
    let mut w = W::new();
    let a = w.spawn();
    w.destroy(a);
    cleanup_system(&mut w);
    assert!(w.entities().is_empty());
}

#[test]
fn components_read_back() {
    let mut w = W::new();
    let e = w.spawn();
    w.add_transform(e, 1).add_rigidbody(e, 2).add_sprite(e, 3);
    assert_eq!(w.get_transform(e), Some(&1));
    assert_eq!(w.get_rigidbody(e), Some(&2));
    assert_eq!(w.get_sprite(e), Some(&3));
    if let Some(t) = w.get_transform_mut(e) {
        *t = 5;
    }
    if let Some(r) = w.get_rigidbody_mut(e) {
        *r += 1;
    }
    if let Some(s) = w.get_sprite_mut(e) {
        *s *= 10;
    }
    assert_eq!(w.get_transform(e), Some(&5));
    assert_eq!(w.get_rigidbody(e), Some(&3));
    assert_eq!(w.get_sprite(e), Some(&30));
    assert!(w.get_transform_mut(Entity(99)).is_none());
}

#[test]
fn find_by_tag_and_all() {
    let mut w = W::new();
    let a = w.spawn();
    let b = w.spawn();
    let c = w.spawn();
    w.add_tag(a, "enemy").add_tag(b, "player").add_tag(c, "enemy");
    assert_eq!(w.find_by_tag("player"), Some(b));
    assert_eq!(w.find_by_tag("wall"), None);
    let found = w.find_by_tag("enemy").unwrap();
    assert!(found == a || found == c);
    let mut all = w.find_all_by_tag("enemy");
    all.sort_by_key(|e| e.0);
    assert_eq!(all, vec![a, c]);
    assert!(w.find_all_by_tag("nobody").is_empty());
}

#[test]
fn queries_follow_spawn_order() {
    let mut w = W::new();
    let a = w.spawn();
    let b = w.spawn();
    let c = w.spawn();
    w.add_transform(c, 0).add_rigidbody(c, 0);
    w.add_transform(a, 0).add_rigidbody(a, 0).add_sprite(a, 0);
    w.add_transform(b, 0).add_sprite(b, 0);
    w.add_script_component(b, ScriptComponent::new());
    assert_eq!(w.query_physics(), vec![a, c]);
    assert_eq!(w.query_renderable(), vec![a, b]);
    assert_eq!(w.query_scripted(), vec![b]);
}

#[test]
fn script_component_start_flag() {
    let mut sc: ScriptComponent<u8> = ScriptComponent::default();
    assert!(!sc.is_started());
    sc.add(7);
    sc.add(9);
    assert_eq!(sc.scripts, vec![7, 9]);
    sc.mark_started();
    assert!(sc.is_started());
}

#[test]
fn world_default_is_empty() {
    let w: W = World::default();
    assert!(w.entities().is_empty());
    assert!(w.query_physics().is_empty());
}

#[test]
fn destroyed_scripts_are_handed_over_once() {
    let mut w = W::new();
    let a = w.spawn();
    let b = w.spawn();
    let c = w.spawn();
    let mut sa = ScriptComponent::new();
    sa.add(1u8);
    sa.add(2u8);
    let mut sc = ScriptComponent::new();
    sc.add(3u8);
    w.add_script_component(a, sa).add_script_component(c, sc).add_transform(a, 5);
    w.destroy(c);
    w.destroy(b);
    w.destroy(a);
    w.destroy(c);
    let taken = w.take_destroyed_scripts();
    let got: Vec<(Entity, Vec<u8>)> = taken.into_iter().map(|(e, s)| (e, s.scripts)).collect();
    assert_eq!(got, vec![(c, vec![3]), (a, vec![1, 2])]);
    // The entities are still there, with their other components, until the flush.
    assert_eq!(w.entities(), vec![a, b, c]);
    assert_eq!(w.get_transform(a), Some(&5));
    assert!(w.query_scripted().is_empty());
    assert!(w.take_destroyed_scripts().is_empty());
    cleanup_system(&mut w);
    assert!(w.entities().is_empty());
}
