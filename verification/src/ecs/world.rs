use vstd::prelude::*;
use std::collections::HashMap;
use std::collections::hash_map::Entry as MapEntry;
use crate::ecs::components::Tag;

verus! {

broadcast use vstd::std_specs::hash::group_hash_axioms;

/// Handle of an entity: a plain numeric id.
#[derive(Clone, Copy, Debug, PartialEq, Eq, Structural, Hash)]
pub struct Entity(pub u64);

/// The registry of all entities and of their components, keyed by entity id.
pub struct World<T, R, S, C> {
    next_id: u64,
    entities: Vec<Entity>,
    pub transforms: HashMap<u64, T>,
    pub rigidbodies: HashMap<u64, R>,
    pub sprites: HashMap<u64, S>,
    pub tags: HashMap<u64, Tag>,
    pub scripts: HashMap<u64, C>,
    to_destroy: Vec<Entity>,
}

/// The entities of `s` whose ids do not occur in `gone`.
pub open spec fn without(s: Seq<Entity>, gone: Seq<Entity>) -> Seq<Entity> {
    s.filter(|x: Entity| !gone.contains(x))
}

/// The ids of the entities in `s`.
pub open spec fn ids_of(s: Seq<Entity>) -> Set<u64> {
    Set::new(|k: u64| s.contains(Entity(k)))
}

/// The script components that removing the queued entities `gone` takes out of the store
/// `m`: one for each queued entity that has one, in queue order.
pub open spec fn removed_scripts<C>(m: Map<u64, C>, gone: Seq<Entity>) -> Seq<(Entity, C)>
    decreases gone.len(),
{
    if gone.len() == 0 {
        Seq::empty()
    } else {
        let prev = gone.drop_last();
        let e = gone.last();
        let rest = removed_scripts(m, prev);
        if m.contains_key(e.0) && !ids_of(prev).contains(e.0) {
            rest.push((e, m[e.0]))
        } else {
            rest
        }
    }
}

impl<T, R, S, C> World<T, R, S, C> {
    /// Live entities, in the order in which they were spawned.
    pub closed spec fn live(&self) -> Seq<Entity> {
        self.entities@
    }

    /// Entities queued for removal, in the order in which they were queued.
    pub closed spec fn pending(&self) -> Seq<Entity> {
        self.to_destroy@
    }

    /// The id that the next spawn hands out.
    pub closed spec fn next_id_spec(&self) -> u64 {
        self.next_id
    }

    /// Transform components by entity id.
    pub closed spec fn transforms_map(&self) -> Map<u64, T> {
        self.transforms@
    }

    /// Rigid-body components by entity id.
    pub closed spec fn rigidbodies_map(&self) -> Map<u64, R> {
        self.rigidbodies@
    }

    /// Sprite components by entity id.
    pub closed spec fn sprites_map(&self) -> Map<u64, S> {
        self.sprites@
    }

    /// Tags by entity id.
    pub closed spec fn tags_map(&self) -> Map<u64, Tag> {
        self.tags@
    }

    /// Script components by entity id.
    pub closed spec fn scripts_map(&self) -> Map<u64, C> {
        self.scripts@
    }

    /// Every live entity has an id below the next one, and none occurs twice.
    pub closed spec fn wf(&self) -> bool {
        &&& self.next_id >= 1
        &&& self.entities@.no_duplicates()
        &&& forall|i: int| 0 <= i < self.entities@.len() ==> 1 <= #[trigger] self.entities@[i].0 < self.next_id
    }

    pub fn new() -> (w: Self)
        ensures
            w.wf(),
            w.live() == Seq::<Entity>::empty(),
            w.pending() == Seq::<Entity>::empty(),
            w.next_id_spec() == 1,
            w.transforms_map() == Map::<u64, T>::empty(),
            w.rigidbodies_map() == Map::<u64, R>::empty(),
            w.sprites_map() == Map::<u64, S>::empty(),
            w.tags_map() == Map::<u64, Tag>::empty(),
            w.scripts_map() == Map::<u64, C>::empty(),
    {
        World {
            next_id: 1,
            entities: Vec::new(),
            transforms: HashMap::new(),
            rigidbodies: HashMap::new(),
            sprites: HashMap::new(),
            tags: HashMap::new(),
            scripts: HashMap::new(),
            to_destroy: Vec::new(),
        }
    }

    /// Creates an entity with a fresh id.
    pub fn spawn(&mut self) -> (e: Entity)
        requires
            old(self).wf(),
            old(self).next_id_spec() < u64::MAX,
        ensures
            final(self).wf(),
            e == Entity(old(self).next_id_spec()),
            !old(self).live().contains(e),
            final(self).live() == old(self).live().push(e),
            final(self).next_id_spec() == old(self).next_id_spec() + 1,
            final(self).pending() == old(self).pending(),
            final(self).transforms_map() == old(self).transforms_map(),
            final(self).rigidbodies_map() == old(self).rigidbodies_map(),
            final(self).sprites_map() == old(self).sprites_map(),
            final(self).tags_map() == old(self).tags_map(),
            final(self).scripts_map() == old(self).scripts_map(),
    {
        let e = Entity(self.next_id);
        proof {
            assert forall|i: int| 0 <= i < self.entities@.len() implies self.entities@[i] != e by {
                assert(self.entities@[i].0 < self.next_id);
            }
        }
        self.next_id = self.next_id + 1;
        self.entities.push(e);
        proof {
            assert forall|i: int, j: int| 0 <= i < j < self.entities@.len() implies self.entities@[i] != self.entities@[j] by {
                if j == self.entities@.len() - 1 {
                    assert(old(self).entities@[i].0 < old(self).next_id);
                } else {
                    assert(old(self).entities@.no_duplicates());
                }
            }
        }
        e
    }

    /// Queues an entity for removal at the end of the frame.
    pub fn destroy(&mut self, entity: Entity)
        ensures
            final(self).live() == old(self).live(),
            final(self).pending() == old(self).pending().push(entity),
            final(self).next_id_spec() == old(self).next_id_spec(),
            final(self).transforms_map() == old(self).transforms_map(),
            final(self).rigidbodies_map() == old(self).rigidbodies_map(),
            final(self).sprites_map() == old(self).sprites_map(),
            final(self).tags_map() == old(self).tags_map(),
            final(self).scripts_map() == old(self).scripts_map(),
            old(self).wf() ==> final(self).wf(),
    {
        self.to_destroy.push(entity);
    }

    /// Removes the queued entities: from the live list and from every component store.
    pub fn flush_destroyed(&mut self)
        requires
            old(self).wf(),
        ensures
            final(self).wf(),
            final(self).live() == without(old(self).live(), old(self).pending()),
            final(self).pending() == Seq::<Entity>::empty(),
            final(self).next_id_spec() == old(self).next_id_spec(),
            final(self).transforms_map() == old(self).transforms_map().remove_keys(ids_of(old(self).pending())),
            final(self).rigidbodies_map() == old(self).rigidbodies_map().remove_keys(ids_of(old(self).pending())),
            final(self).sprites_map() == old(self).sprites_map().remove_keys(ids_of(old(self).pending())),
            final(self).tags_map() == old(self).tags_map().remove_keys(ids_of(old(self).pending())),
            final(self).scripts_map() == old(self).scripts_map().remove_keys(ids_of(old(self).pending())),
    {
        let ghost gone = self.to_destroy@;
        let ghost t0 = self.transforms@;
        let ghost r0 = self.rigidbodies@;
        let ghost s0 = self.sprites@;
        let ghost g0 = self.tags@;
        let ghost c0 = self.scripts@;
        // The live list keeps, in order, the entities that were not queued.
        let kept = keep_not_in(&self.entities, &self.to_destroy);
        proof {
            lemma_filter_no_duplicates(self.entities@, |x: Entity| !gone.contains(x));
            lemma_filter_members(self.entities@, |x: Entity| !gone.contains(x));
        }
        self.entities = kept;
        assert(self.wf()) by {
            assert forall|i: int| 0 <= i < self.entities@.len() implies 1 <= #[trigger] self.entities@[i].0 < self.next_id by {
                assert(self.entities@.contains(self.entities@[i]));
                let j = choose|j: int| 0 <= j < old(self).entities@.len() && old(self).entities@[j] == self.entities@[i];
                assert(1 <= old(self).entities@[j].0 < old(self).next_id);
            }
        }
        let n = self.to_destroy.len();
        let mut i: usize = 0;
        while i < n
            invariant
                n == self.to_destroy@.len(),
                self.to_destroy@ == gone,
                0 <= i <= n,
                self.entities@ == without(old(self).entities@, gone),
                self.next_id == old(self).next_id,
                self.wf(),
                self.transforms@ == t0.remove_keys(ids_of(gone.take(i as int))),
                self.rigidbodies@ == r0.remove_keys(ids_of(gone.take(i as int))),
                self.sprites@ == s0.remove_keys(ids_of(gone.take(i as int))),
                self.tags@ == g0.remove_keys(ids_of(gone.take(i as int))),
                self.scripts@ == c0.remove_keys(ids_of(gone.take(i as int))),
            decreases n - i,
        {
            let k = self.to_destroy[i].0;
            self.transforms.remove(&k);
            self.rigidbodies.remove(&k);
            self.sprites.remove(&k);
            self.tags.remove(&k);
            self.scripts.remove(&k);
            proof {
                lemma_ids_of_take_push(gone, i as int);
            }
            i = i + 1;
        }
        proof {
            assert(gone.take(n as int) =~= gone);
        }
        self.to_destroy.clear();
    }

    /// Takes the script components of the queued entities out of the world, each once and
    /// in queue order, so that their scripts can be told before the queue is flushed.
    /// Nothing else changes.
    pub fn take_destroyed_scripts(&mut self) -> (r: Vec<(Entity, C)>)
        ensures
            r@ == removed_scripts(old(self).scripts_map(), old(self).pending()),
            final(self).scripts_map() == old(self).scripts_map().remove_keys(ids_of(old(self).pending())),
            final(self).same_entities(old(self)),
            final(self).transforms_map() == old(self).transforms_map(),
            final(self).rigidbodies_map() == old(self).rigidbodies_map(),
            final(self).sprites_map() == old(self).sprites_map(),
            final(self).tags_map() == old(self).tags_map(),
    {
        let ghost gone = self.to_destroy@;
        let ghost c0 = self.scripts@;
        let mut r: Vec<(Entity, C)> = Vec::new();
        let n = self.to_destroy.len();
        let mut i: usize = 0;
        proof {
            assert(gone.take(0) =~= Seq::<Entity>::empty());
            assert(ids_of(gone.take(0)) =~= Set::<u64>::empty());
            assert(c0.remove_keys(Set::<u64>::empty()) =~= c0);
        }
        while i < n
            invariant
                n == self.to_destroy@.len(),
                self.to_destroy@ == gone,
                0 <= i <= n,
                self.scripts@ == c0.remove_keys(ids_of(gone.take(i as int))),
                r@ == removed_scripts(c0, gone.take(i as int)),
                self.entities@ == old(self).entities@,
                self.next_id == old(self).next_id,
                self.transforms@ == old(self).transforms@,
                self.rigidbodies@ == old(self).rigidbodies@,
                self.sprites@ == old(self).sprites@,
                self.tags@ == old(self).tags@,
            decreases n - i,
        {
            let e = self.to_destroy[i];
            proof {
                lemma_ids_of_take_push(gone, i as int);
                assert(gone.take(i + 1).drop_last() =~= gone.take(i as int));
                assert(gone.take(i + 1).last() == e);
            }
            match self.scripts.remove(&e.0) {
                Some(c) => {
                    r.push((e, c));
                },
                None => {},
            }
            proof {
                assert(self.scripts@ =~= c0.remove_keys(ids_of(gone.take(i + 1))));
            }
            i = i + 1;
        }
        proof {
            assert(gone.take(n as int) =~= gone);
        }
        r
    }

    /// A copy of the live entities, safe to iterate while the world changes.
    pub fn entities(&self) -> (v: Vec<Entity>)
        ensures
            v@ == self.live(),
    {
        self.entities.clone()
    }

    /// `e` has both a transform and a rigid body.
    pub open spec fn is_physics(&self, e: Entity) -> bool {
        self.transforms_map().contains_key(e.0) && self.rigidbodies_map().contains_key(e.0)
    }

    /// `e` has both a transform and a sprite.
    pub open spec fn is_renderable(&self, e: Entity) -> bool {
        self.transforms_map().contains_key(e.0) && self.sprites_map().contains_key(e.0)
    }

    /// `e` has a script component.
    pub open spec fn is_scripted(&self, e: Entity) -> bool {
        self.scripts_map().contains_key(e.0)
    }

    /// Same entities, same queue, same id counter; components may differ.
    pub open spec fn same_entities(&self, other: &Self) -> bool {
        &&& self.live() == other.live()
        &&& self.pending() == other.pending()
        &&& self.next_id_spec() == other.next_id_spec()
        &&& self.wf() == other.wf()
    }

    /// Attaches (or replaces) the transform of `e`.
    pub fn add_transform(&mut self, e: Entity, t: T) -> (r: &mut Self)
        ensures
            r.same_entities(old(self)),
            r.transforms_map() == old(self).transforms_map().insert(e.0, t),
            r.rigidbodies_map() == old(self).rigidbodies_map(),
            r.sprites_map() == old(self).sprites_map(),
            r.tags_map() == old(self).tags_map(),
            r.scripts_map() == old(self).scripts_map(),
            *final(self) == *final(r),
    {
        self.transforms.insert(e.0, t);
        self
    }

    /// Attaches (or replaces) the rigid body of `e`.
    pub fn add_rigidbody(&mut self, e: Entity, rb: R) -> (r: &mut Self)
        ensures
            r.same_entities(old(self)),
            r.transforms_map() == old(self).transforms_map(),
            r.rigidbodies_map() == old(self).rigidbodies_map().insert(e.0, rb),
            r.sprites_map() == old(self).sprites_map(),
            r.tags_map() == old(self).tags_map(),
            r.scripts_map() == old(self).scripts_map(),
            *final(self) == *final(r),
    {
        self.rigidbodies.insert(e.0, rb);
        self
    }

    /// Attaches (or replaces) the sprite of `e`.
    pub fn add_sprite(&mut self, e: Entity, s: S) -> (r: &mut Self)
        ensures
            r.same_entities(old(self)),
            r.transforms_map() == old(self).transforms_map(),
            r.rigidbodies_map() == old(self).rigidbodies_map(),
            r.sprites_map() == old(self).sprites_map().insert(e.0, s),
            r.tags_map() == old(self).tags_map(),
            r.scripts_map() == old(self).scripts_map(),
            *final(self) == *final(r),
    {
        self.sprites.insert(e.0, s);
        self
    }

    /// Attaches (or replaces) the tag of `e` with a copy of `tag`.
    pub fn add_tag(&mut self, e: Entity, tag: &str) -> (r: &mut Self)
        ensures
            r.same_entities(old(self)),
            r.transforms_map() == old(self).transforms_map(),
            r.rigidbodies_map() == old(self).rigidbodies_map(),
            r.sprites_map() == old(self).sprites_map(),
            r.tags_map().dom() == old(self).tags_map().dom().insert(e.0),
            r.tags_map()[e.0].0@ == tag@,
            forall|k: u64| k != e.0 && #[trigger] old(self).tags_map().contains_key(k)
                ==> r.tags_map()[k] == old(self).tags_map()[k],
            r.scripts_map() == old(self).scripts_map(),
            *final(self) == *final(r),
    {
        self.tags.insert(e.0, Tag::new(tag));
        self
    }

    /// Attaches (or replaces) the script component of `e`.
    pub fn add_script_component(&mut self, e: Entity, sc: C) -> (r: &mut Self)
        ensures
            r.same_entities(old(self)),
            r.transforms_map() == old(self).transforms_map(),
            r.rigidbodies_map() == old(self).rigidbodies_map(),
            r.sprites_map() == old(self).sprites_map(),
            r.tags_map() == old(self).tags_map(),
            r.scripts_map() == old(self).scripts_map().insert(e.0, sc),
            *final(self) == *final(r),
    {
        self.scripts.insert(e.0, sc);
        self
    }

    /// The transform of `e`, if it has one.
    pub fn get_transform(&self, e: Entity) -> (r: Option<&T>)
        ensures
            r == (if self.transforms_map().contains_key(e.0) { Some(&self.transforms_map()[e.0]) } else { None }),
    {
        self.transforms.get(&e.0)
    }

    /// Mutable access to the transform of `e`, if it has one.
    pub fn get_transform_mut(&mut self, e: Entity) -> (r: Option<&mut T>)
        ensures
            match r {
                Some(v) => old(self).transforms_map().contains_key(e.0)
                    && *v == old(self).transforms_map()[e.0]
                    && final(self).transforms_map() == old(self).transforms_map().insert(e.0, *final(v)),
                None => !old(self).transforms_map().contains_key(e.0)
                    && final(self).transforms_map() == old(self).transforms_map(),
            },
            final(self).same_entities(old(self)),
            final(self).rigidbodies_map() == old(self).rigidbodies_map(),
            final(self).sprites_map() == old(self).sprites_map(),
            final(self).tags_map() == old(self).tags_map(),
            final(self).scripts_map() == old(self).scripts_map(),
    {
        match self.transforms.entry(e.0) {
            MapEntry::Occupied(o) => Some(o.into_mut()),
            MapEntry::Vacant(_) => None,
        }
    }

    /// The rigid body of `e`, if it has one.
    pub fn get_rigidbody(&self, e: Entity) -> (r: Option<&R>)
        ensures
            r == (if self.rigidbodies_map().contains_key(e.0) { Some(&self.rigidbodies_map()[e.0]) } else { None }),
    {
        self.rigidbodies.get(&e.0)
    }

    /// The sprite of `e`, if it has one.
    pub fn get_sprite(&self, e: Entity) -> (r: Option<&S>)
        ensures
            r == (if self.sprites_map().contains_key(e.0) { Some(&self.sprites_map()[e.0]) } else { None }),
    {
        self.sprites.get(&e.0)
    }

    /// Mutable access to the rigid body of `e`, if it has one.
    pub fn get_rigidbody_mut(&mut self, e: Entity) -> (r: Option<&mut R>)
        ensures
            match r {
                Some(v) => old(self).rigidbodies_map().contains_key(e.0)
                    && *v == old(self).rigidbodies_map()[e.0]
                    && final(self).rigidbodies_map() == old(self).rigidbodies_map().insert(e.0, *final(v)),
                None => !old(self).rigidbodies_map().contains_key(e.0)
                    && final(self).rigidbodies_map() == old(self).rigidbodies_map(),
            },
            final(self).same_entities(old(self)),
            final(self).transforms_map() == old(self).transforms_map(),
            final(self).sprites_map() == old(self).sprites_map(),
            final(self).tags_map() == old(self).tags_map(),
            final(self).scripts_map() == old(self).scripts_map(),
    {
        match self.rigidbodies.entry(e.0) {
            MapEntry::Occupied(o) => Some(o.into_mut()),
            MapEntry::Vacant(_) => None,
        }
    }

    /// Mutable access to the sprite of `e`, if it has one.
    pub fn get_sprite_mut(&mut self, e: Entity) -> (r: Option<&mut S>)
        ensures
            match r {
                Some(v) => old(self).sprites_map().contains_key(e.0)
                    && *v == old(self).sprites_map()[e.0]
                    && final(self).sprites_map() == old(self).sprites_map().insert(e.0, *final(v)),
                None => !old(self).sprites_map().contains_key(e.0)
                    && final(self).sprites_map() == old(self).sprites_map(),
            },
            final(self).same_entities(old(self)),
            final(self).rigidbodies_map() == old(self).rigidbodies_map(),
            final(self).transforms_map() == old(self).transforms_map(),
            final(self).tags_map() == old(self).tags_map(),
            final(self).scripts_map() == old(self).scripts_map(),
    {
        match self.sprites.entry(e.0) {
            MapEntry::Occupied(o) => Some(o.into_mut()),
            MapEntry::Vacant(_) => None,
        }
    }

    /// Some entity carrying the tag `tag`, or `None` when no entity carries it.
    pub fn find_by_tag(&self, tag: &str) -> (r: Option<Entity>)
        ensures
            match r {
                Some(e) => self.tags_map().contains_key(e.0) && self.tags_map()[e.0].0@ == tag@,
                None => forall|k: u64| #[trigger] self.tags_map().contains_key(k) ==> self.tags_map()[k].0@ != tag@,
            },
    {
        let want = tag.to_string();
        let ghost m = self.tags@;
        for (k, t) in it: self.tags.iter()
            invariant
                want@ == tag@,
                m == self.tags@,
                forall|j: int| 0 <= j < it.index() ==> (#[trigger] it.seq()[j]).1.0@ != tag@,
        {
            if t.0 == want {
                return Some(Entity(*k));
            }
        }
        None
    }

    /// Every entity carrying the tag `tag`, each once, in the map's iteration order.
    pub fn find_all_by_tag(&self, tag: &str) -> (r: Vec<Entity>)
        ensures
            r@.no_duplicates(),
            forall|i: int| 0 <= i < r@.len() ==> self.tags_map().contains_key(#[trigger] r@[i].0)
                && self.tags_map()[r@[i].0].0@ == tag@,
            forall|k: u64| #[trigger] self.tags_map().contains_key(k) && self.tags_map()[k].0@ == tag@
                ==> r@.contains(Entity(k)),
    {
        let want = tag.to_string();
        let mut r: Vec<Entity> = Vec::new();
        for (k, t) in it: self.tags.iter()
            invariant
                want@ == tag@,
                it.seq().no_duplicates(),
                forall|j: int| 0 <= j < it.seq().len() ==> self.tags@.contains_key(*(#[trigger] it.seq()[j]).0)
                    && self.tags@[*it.seq()[j].0] == *it.seq()[j].1,
                forall|i: int| 0 <= i < r@.len() ==> self.tags@.contains_key(#[trigger] r@[i].0)
                    && self.tags@[r@[i].0].0@ == tag@,
                forall|j: int| 0 <= j < it.index() && (#[trigger] it.seq()[j]).1.0@ == tag@ ==> r@.contains(Entity(*it.seq()[j].0)),
                forall|j: int| it.index() <= j < it.seq().len() ==> !r@.contains(Entity(*(#[trigger] it.seq()[j]).0)),
                r@.no_duplicates(),
        {
            let ghost here = it.index();
            let ghost r0 = r@;
            assert(it.seq()[here] == (k, t));
            proof {
                lemma_distinct_keys(self.tags@, it.seq());
            }
            if t.0 == want {
                r.push(Entity(*k));
                proof {
                    assert forall|x: Entity| r@.contains(x) <==> r0.contains(x) || x == Entity(*k) by {
                        lemma_push_contains(r0, Entity(*k), x);
                    }
                    assert forall|a: int, b: int| 0 <= a < b < r@.len() implies r@[a] != r@[b] by {
                        if b == r0.len() {
                            assert(r0.contains(r0[a]));
                        } else {
                            assert(r@[a] == r0[a] && r@[b] == r0[b]);
                        }
                    }
                }
            }
            proof {
                assert forall|j: int| here + 1 <= j < it.seq().len() implies !r@.contains(Entity(*(#[trigger] it.seq()[j]).0)) by {
                    assert(it.seq()[j].0 != it.seq()[here].0);
                }
            }
        }
        r
    }

    /// Live entities having both a transform and a rigid body, in spawn order.
    pub fn query_physics(&self) -> (r: Vec<Entity>)
        ensures
            r@ == self.live().filter(|e: Entity| self.is_physics(e)),
    {
        let mut r: Vec<Entity> = Vec::new();
        let n = self.entities.len();
        let mut i: usize = 0;
        while i < n
            invariant
                n == self.entities@.len(),
                0 <= i <= n,
                r@ == self.entities@.take(i as int).filter(|e: Entity| self.is_physics(e)),
            decreases n - i,
        {
            let e = self.entities[i];
            proof {
                assert(self.entities@.take(i + 1).drop_last() =~= self.entities@.take(i as int));
                reveal_with_fuel(Seq::filter, 1);
            }
            let keep = self.transforms.contains_key(&e.0) && self.rigidbodies.contains_key(&e.0);
            proof {
                assert(keep == self.is_physics(e));
            }
            if keep {
                r.push(e);
            }
            i = i + 1;
        }
        proof {
            assert(self.entities@.take(n as int) =~= self.entities@);
        }
        r
    }

    /// Live entities having both a transform and a sprite, in spawn order.
    pub fn query_renderable(&self) -> (r: Vec<Entity>)
        ensures
            r@ == self.live().filter(|e: Entity| self.is_renderable(e)),
    {
        let mut r: Vec<Entity> = Vec::new();
        let n = self.entities.len();
        let mut i: usize = 0;
        while i < n
            invariant
                n == self.entities@.len(),
                0 <= i <= n,
                r@ == self.entities@.take(i as int).filter(|e: Entity| self.is_renderable(e)),
            decreases n - i,
        {
            let e = self.entities[i];
            proof {
                assert(self.entities@.take(i + 1).drop_last() =~= self.entities@.take(i as int));
                reveal_with_fuel(Seq::filter, 1);
            }
            let keep = self.transforms.contains_key(&e.0) && self.sprites.contains_key(&e.0);
            proof {
                assert(keep == self.is_renderable(e));
            }
            if keep {
                r.push(e);
            }
            i = i + 1;
        }
        proof {
            assert(self.entities@.take(n as int) =~= self.entities@);
        }
        r
    }

    /// Live entities having a script component, in spawn order.
    pub fn query_scripted(&self) -> (r: Vec<Entity>)
        ensures
            r@ == self.live().filter(|e: Entity| self.is_scripted(e)),
    {
        let mut r: Vec<Entity> = Vec::new();
        let n = self.entities.len();
        let mut i: usize = 0;
        while i < n
            invariant
                n == self.entities@.len(),
                0 <= i <= n,
                r@ == self.entities@.take(i as int).filter(|e: Entity| self.is_scripted(e)),
            decreases n - i,
        {
            let e = self.entities[i];
            proof {
                assert(self.entities@.take(i + 1).drop_last() =~= self.entities@.take(i as int));
                reveal_with_fuel(Seq::filter, 1);
            }
            let keep = self.scripts.contains_key(&e.0);
            proof {
                assert(keep == self.is_scripted(e));
            }
            if keep {
                r.push(e);
            }
            i = i + 1;
        }
        proof {
            assert(self.entities@.take(n as int) =~= self.entities@);
        }
        r
    }
}

impl<T, R, S, C> Default for World<T, R, S, C> {
    fn default() -> (w: Self)
        ensures
            w.wf(),
            w.live() == Seq::<Entity>::empty(),
            w.pending() == Seq::<Entity>::empty(),
            w.next_id_spec() == 1,
            w.transforms_map() == Map::<u64, T>::empty(),
            w.rigidbodies_map() == Map::<u64, R>::empty(),
            w.sprites_map() == Map::<u64, S>::empty(),
            w.tags_map() == Map::<u64, Tag>::empty(),
            w.scripts_map() == Map::<u64, C>::empty(),
    {
        Self::new()
    }
}

// ─── Laws ─────────────────────────────────────────────────────────────────────

/// Spawning never reuses an id: every live entity of a well-formed world has an id
/// below the next one handed out, so the next spawned entity is not live yet.
pub proof fn law_spawn_is_fresh<T, R, S, C>(w: World<T, R, S, C>)
    requires
        w.wf(),
    ensures
        forall|i: int| 0 <= i < w.live().len() ==> (#[trigger] w.live()[i]).0 < w.next_id_spec(),
        !w.live().contains(Entity(w.next_id_spec())),
{
    if w.live().contains(Entity(w.next_id_spec())) {
        let i = choose|i: int| 0 <= i < w.live().len() && w.live()[i] == Entity(w.next_id_spec());
        assert(w.live()[i].0 < w.next_id_spec());
    }
}

/// Removal is deferred and then complete: after `destroy(e)` and a flush of the queue,
/// `e` is no longer live and has no component left, while every live entity that was
/// not queued stays live with all its components.
pub proof fn law_destroy_then_flush<T, R, S, C>(
    w0: World<T, R, S, C>,
    w1: World<T, R, S, C>,
    w2: World<T, R, S, C>,
    e: Entity,
)
    requires
        w1.live() == w0.live(),
        w1.pending() == w0.pending().push(e),
        w1.transforms_map() == w0.transforms_map(),
        w1.rigidbodies_map() == w0.rigidbodies_map(),
        w1.sprites_map() == w0.sprites_map(),
        w1.tags_map() == w0.tags_map(),
        w1.scripts_map() == w0.scripts_map(),
        w2.live() == without(w1.live(), w1.pending()),
        w2.transforms_map() == w1.transforms_map().remove_keys(ids_of(w1.pending())),
        w2.rigidbodies_map() == w1.rigidbodies_map().remove_keys(ids_of(w1.pending())),
        w2.sprites_map() == w1.sprites_map().remove_keys(ids_of(w1.pending())),
        w2.tags_map() == w1.tags_map().remove_keys(ids_of(w1.pending())),
        w2.scripts_map() == w1.scripts_map().remove_keys(ids_of(w1.pending())),
    ensures
        !w2.live().contains(e),
        !w2.transforms_map().contains_key(e.0),
        !w2.rigidbodies_map().contains_key(e.0),
        !w2.sprites_map().contains_key(e.0),
        !w2.tags_map().contains_key(e.0),
        !w2.scripts_map().contains_key(e.0),
        forall|x: Entity| w0.live().contains(x) && !w1.pending().contains(x) ==> #[trigger] w2.live().contains(x),
        forall|k: u64| #[trigger] w0.transforms_map().contains_key(k) && !ids_of(w1.pending()).contains(k)
            ==> w2.transforms_map().contains_key(k) && w2.transforms_map()[k] == w0.transforms_map()[k],
{
    let gone = w1.pending();
    assert(gone[gone.len() - 1] == e);
    assert(gone.contains(e));
    assert(ids_of(gone).contains(e.0));
    lemma_filter_members(w1.live(), |x: Entity| !gone.contains(x));
}

/// Every queued entity that has scripts has them handed over exactly once, with the
/// component it had: no entity twice, only queued entities, and none left out.
pub proof fn law_removed_scripts_once<C>(m: Map<u64, C>, gone: Seq<Entity>)
    ensures
        ({
            let r = removed_scripts(m, gone);
            &&& forall|i: int, j: int| 0 <= i < j < r.len() ==> (#[trigger] r[i]).0 != (#[trigger] r[j]).0
            &&& forall|i: int| 0 <= i < r.len() ==> gone.contains((#[trigger] r[i]).0)
                && m.contains_key(r[i].0.0) && r[i].1 == m[r[i].0.0]
            &&& forall|e: Entity| #[trigger] gone.contains(e) && m.contains_key(e.0)
                ==> exists|i: int| 0 <= i < r.len() && (#[trigger] r[i]).0 == e
        }),
    decreases gone.len(),
{
    if gone.len() > 0 {
        let prev = gone.drop_last();
        let e = gone.last();
        law_removed_scripts_once(m, prev);
        let rest = removed_scripts(m, prev);
        let r = removed_scripts(m, gone);
        assert(gone =~= prev.push(e));
        assert forall|x: Entity| gone.contains(x) <==> prev.contains(x) || x == e by {
            lemma_push_contains(prev, e, x);
        }
        if m.contains_key(e.0) && !ids_of(prev).contains(e.0) {
            assert(r == rest.push((e, m[e.0])));
            assert forall|i: int, j: int| 0 <= i < j < r.len() implies (#[trigger] r[i]).0 != (#[trigger] r[j]).0 by {
                if j == rest.len() {
                    assert(prev.contains(rest[i].0));
                    assert(Entity(rest[i].0.0) == rest[i].0);
                    assert(ids_of(prev).contains(rest[i].0.0));
                } else {
                    assert(r[i] == rest[i] && r[j] == rest[j]);
                }
            }
            assert forall|i: int| 0 <= i < r.len() implies gone.contains((#[trigger] r[i]).0)
                && m.contains_key(r[i].0.0) && r[i].1 == m[r[i].0.0] by {
                if i < rest.len() {
                    assert(r[i] == rest[i]);
                }
            }
            assert forall|x: Entity| #[trigger] gone.contains(x) && m.contains_key(x.0)
                implies exists|i: int| 0 <= i < r.len() && (#[trigger] r[i]).0 == x by {
                if x == e {
                    assert(r[rest.len() as int].0 == x);
                } else {
                    assert(prev.contains(x));
                    let i = choose|i: int| 0 <= i < rest.len() && (#[trigger] rest[i]).0 == x;
                    assert(r[i] == rest[i]);
                }
            }
        } else {
            assert(r == rest);
            assert forall|x: Entity| #[trigger] gone.contains(x) && m.contains_key(x.0)
                implies exists|i: int| 0 <= i < r.len() && (#[trigger] r[i]).0 == x by {
                if x == e {
                    assert(ids_of(prev).contains(e.0));
                    assert(prev.contains(Entity(e.0)));
                    assert(Entity(e.0) == e);
                }
                assert(prev.contains(x));
                let i = choose|i: int| 0 <= i < rest.len() && (#[trigger] rest[i]).0 == x;
                assert(r[i] == rest[i]);
            }
        }
    }
}

/// What is added is read back: after adding a transform to `e`, the transform of `e`
/// is the one added, and the transforms of other entities are untouched.
pub proof fn law_add_then_get<T, R, S, C>(w0: World<T, R, S, C>, w1: World<T, R, S, C>, e: Entity, t: T)
    requires
        w1.transforms_map() == w0.transforms_map().insert(e.0, t),
    ensures
        w1.transforms_map().contains_key(e.0),
        w1.transforms_map()[e.0] == t,
        forall|k: u64| k != e.0 ==> #[trigger] w1.transforms_map().contains_key(k) == w0.transforms_map().contains_key(k)
            && (w0.transforms_map().contains_key(k) ==> w1.transforms_map()[k] == w0.transforms_map()[k]),
{
}

/// The physics query returns exactly the live entities that have both a transform and a
/// rigid body, each once.
pub proof fn law_query_physics_members<T, R, S, C>(w: World<T, R, S, C>, r: Seq<Entity>)
    requires
        w.wf(),
        r == w.live().filter(|e: Entity| w.is_physics(e)),
    ensures
        r.no_duplicates(),
        forall|x: Entity| #[trigger] r.contains(x) <==> w.live().contains(x) && w.is_physics(x),
        forall|x: Entity| #[trigger] r.contains(x) ==> w.transforms_map().contains_key(x.0) && w.rigidbodies_map().contains_key(x.0),
        forall|x: Entity| w.live().contains(x) && #[trigger] w.transforms_map().contains_key(x.0)
            && w.rigidbodies_map().contains_key(x.0) ==> r.contains(x),
        forall|x: Entity| !w.transforms_map().contains_key(x.0) ==> !#[trigger] r.contains(x),
{
    lemma_filter_members(w.live(), |e: Entity| w.is_physics(e));
    lemma_filter_no_duplicates(w.live(), |e: Entity| w.is_physics(e));
}

/// The render query returns exactly the live entities that have both a transform and a
/// sprite, each once.
pub proof fn law_query_renderable_members<T, R, S, C>(w: World<T, R, S, C>, r: Seq<Entity>)
    requires
        w.wf(),
        r == w.live().filter(|e: Entity| w.is_renderable(e)),
    ensures
        r.no_duplicates(),
        forall|x: Entity| #[trigger] r.contains(x) ==> w.live().contains(x)
            && w.transforms_map().contains_key(x.0) && w.sprites_map().contains_key(x.0),
        forall|x: Entity| w.live().contains(x) && #[trigger] w.transforms_map().contains_key(x.0)
            && w.sprites_map().contains_key(x.0) ==> r.contains(x),
{
    lemma_filter_members(w.live(), |e: Entity| w.is_renderable(e));
    lemma_filter_no_duplicates(w.live(), |e: Entity| w.is_renderable(e));
}

/// The script query returns exactly the live entities that have a script component,
/// each once.
pub proof fn law_query_scripted_members<T, R, S, C>(w: World<T, R, S, C>, r: Seq<Entity>)
    requires
        w.wf(),
        r == w.live().filter(|e: Entity| w.is_scripted(e)),
    ensures
        r.no_duplicates(),
        forall|x: Entity| #[trigger] r.contains(x) <==> w.live().contains(x) && w.scripts_map().contains_key(x.0),
{
    lemma_filter_members(w.live(), |e: Entity| w.is_scripted(e));
    lemma_filter_no_duplicates(w.live(), |e: Entity| w.is_scripted(e));
}

/// The entities of `v` that do not occur in `gone`, in order.
fn keep_not_in(v: &Vec<Entity>, gone: &Vec<Entity>) -> (r: Vec<Entity>)
    ensures
        r@ == without(v@, gone@),
{
    let mut r: Vec<Entity> = Vec::new();
    let n = v.len();
    let mut i: usize = 0;
    while i < n
        invariant
            n == v@.len(),
            0 <= i <= n,
            r@ == without(v@.take(i as int), gone@),
        decreases n - i,
    {
        let x = v[i];
        let hit = contains_entity(gone, x);
        proof {
            assert(v@.take(i + 1).drop_last() =~= v@.take(i as int));
            reveal_with_fuel(Seq::filter, 1);
        }
        if !hit {
            r.push(x);
        }
        i = i + 1;
    }
    proof {
        assert(v@.take(n as int) =~= v@);
    }
    r
}

/// Whether `x` occurs in `v`.
fn contains_entity(v: &Vec<Entity>, x: Entity) -> (b: bool)
    ensures
        b == v@.contains(x),
{
    let n = v.len();
    let mut i: usize = 0;
    while i < n
        invariant
            n == v@.len(),
            0 <= i <= n,
            forall|j: int| 0 <= j < i ==> v@[j] != x,
        decreases n - i,
    {
        if v[i].0 == x.0 {
            return true;
        }
        i = i + 1;
    }
    false
}

proof fn lemma_ids_of_take_push(s: Seq<Entity>, i: int)
    requires
        0 <= i < s.len(),
    ensures
        ids_of(s.take(i + 1)) == ids_of(s.take(i)).insert(s[i].0),
{
    let u = s.take(i);
    let t = s.take(i + 1);
    assert(t =~= u.push(s[i]));
    assert forall|k: u64| ids_of(t).contains(k) <==> ids_of(u).insert(s[i].0).contains(k) by {
        lemma_push_contains(u, s[i], Entity(k));
    }
    assert(ids_of(t) =~= ids_of(u).insert(s[i].0));
}

/// In the pairs that iterating a map yields, no key occurs twice.
proof fn lemma_distinct_keys<'a, V>(m: Map<u64, V>, s: Seq<(&'a u64, &'a V)>)
    requires
        s.no_duplicates(),
        forall|j: int| 0 <= j < s.len() ==> m.contains_key(*(#[trigger] s[j]).0) && m[*s[j].0] == *s[j].1,
    ensures
        forall|a: int, b: int| 0 <= a < s.len() && 0 <= b < s.len() && a != b ==> (#[trigger] s[a]).0 != (#[trigger] s[b]).0,
{
    assert forall|a: int, b: int| 0 <= a < s.len() && 0 <= b < s.len() && a != b implies (#[trigger] s[a]).0 != (#[trigger] s[b]).0 by {
        if s[a].0 == s[b].0 {
            assert(*s[a].1 == m[*s[a].0]);
            assert(*s[b].1 == m[*s[b].0]);
            assert(s[a] == s[b]);
        }
    }
}

/// Membership in a sequence with one more element.
proof fn lemma_push_contains(u: Seq<Entity>, a: Entity, x: Entity)
    ensures
        u.push(a).contains(x) <==> u.contains(x) || x == a,
{
    let t = u.push(a);
    if t.contains(x) {
        let j = choose|j: int| 0 <= j < t.len() && #[trigger] t[j] == x;
        if j < u.len() {
            assert(u[j] == x);
        }
    }
    if u.contains(x) {
        let j = choose|j: int| 0 <= j < u.len() && #[trigger] u[j] == x;
        assert(t[j] == x);
    }
    if x == a {
        assert(t[u.len() as int] == x);
    }
}

proof fn lemma_filter_no_duplicates(s: Seq<Entity>, p: spec_fn(Entity) -> bool)
    requires
        s.no_duplicates(),
    ensures
        s.filter(p).no_duplicates(),
    decreases s.len(),
{
    reveal_with_fuel(Seq::filter, 1);
    if s.len() > 0 {
        let t = s.drop_last();
        assert(t.no_duplicates());
        lemma_filter_no_duplicates(t, p);
        lemma_filter_members(t, p);
        if p(s.last()) {
            assert(!t.contains(s.last())) by {
                if t.contains(s.last()) {
                    let j = choose|j: int| 0 <= j < t.len() && t[j] == s.last();
                    assert(s[j] == s[s.len() - 1]);
                }
            }
            let f = t.filter(p);
            assert forall|a: int, b: int| 0 <= a < b < f.push(s.last()).len() implies f.push(s.last())[a] != f.push(s.last())[b] by {
                if b == f.len() {
                    assert(f.contains(f[a]));
                }
            }
        }
    }
}

/// An element is in the filtered sequence exactly when it is in the sequence and passes.
proof fn lemma_filter_members(s: Seq<Entity>, p: spec_fn(Entity) -> bool)
    ensures
        forall|x: Entity| #[trigger] s.filter(p).contains(x) <==> s.contains(x) && p(x),
    decreases s.len(),
{
    reveal_with_fuel(Seq::filter, 1);
    if s.len() > 0 {
        let t = s.drop_last();
        lemma_filter_members(t, p);
        assert forall|x: Entity| #[trigger] s.contains(x) <==> t.contains(x) || x == s.last() by {
            if s.contains(x) {
                let j = choose|j: int| 0 <= j < s.len() && s[j] == x;
                if j < s.len() - 1 {
                    assert(t[j] == x);
                }
            }
            if t.contains(x) {
                let j = choose|j: int| 0 <= j < t.len() && t[j] == x;
                assert(s[j] == x);
            }
            if x == s.last() {
                assert(s[s.len() - 1] == x);
            }
        }
        let f = t.filter(p);
        if p(s.last()) {
            assert forall|x: Entity| #[trigger] f.push(s.last()).contains(x) <==> f.contains(x) || x == s.last() by {
                if f.push(s.last()).contains(x) {
                    let j = choose|j: int| 0 <= j < f.push(s.last()).len() && f.push(s.last())[j] == x;
                    if j < f.len() {
                        assert(f[j] == x);
                    }
                }
                if f.contains(x) {
                    let j = choose|j: int| 0 <= j < f.len() && f[j] == x;
                    assert(f.push(s.last())[j] == x);
                }
                if x == s.last() {
                    assert(f.push(s.last())[f.len() as int] == x);
                }
            }
        }
    }
}

} // verus!
