use vstd::prelude::*;
use crate::ecs::world::{World, without, ids_of};

verus! {

/// Removes the entities queued by `World::destroy`: the last step of each frame.
pub fn cleanup_system<T, R, S, C>(world: &mut World<T, R, S, C>)
    requires
        old(world).wf(),
    ensures
        final(world).wf(),
        final(world).live() == without(old(world).live(), old(world).pending()),
        final(world).pending() == Seq::<crate::ecs::world::Entity>::empty(),
        final(world).next_id_spec() == old(world).next_id_spec(),
        final(world).transforms_map() == old(world).transforms_map().remove_keys(ids_of(old(world).pending())),
        final(world).rigidbodies_map() == old(world).rigidbodies_map().remove_keys(ids_of(old(world).pending())),
        final(world).sprites_map() == old(world).sprites_map().remove_keys(ids_of(old(world).pending())),
        final(world).tags_map() == old(world).tags_map().remove_keys(ids_of(old(world).pending())),
        final(world).scripts_map() == old(world).scripts_map().remove_keys(ids_of(old(world).pending())),
{
    world.flush_destroyed();
}

} // verus!
