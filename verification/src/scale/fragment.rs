//! Fragments with the operators of all their actors, and what the scaling rules keep of them.
use crate::common::bitmap::Bitmap;
use crate::common::collections::copy_ids;
use crate::scale::model::{ActorMapping, CustomActorInfo, CustomFragmentInfo, Dispatcher};
use crate::scale::model::{FragmentDistributionType, StreamActor};
use vstd::prelude::*;

verus! {

/// A fragment with its actors.
#[derive(Debug)]
pub struct Fragment {
    pub fragment_id: u32,
    pub fragment_type_mask: u32,
    pub distribution_type: FragmentDistributionType,
    pub state_table_ids: Vec<u32>,
    pub upstream_fragment_ids: Vec<u32>,
    pub actors: Vec<StreamActor>,
}

/// The dispatchers say the same.
pub open spec fn same_dispatcher(a: Dispatcher, b: Dispatcher) -> bool {
    &&& a.dispatcher_type == b.dispatcher_type
    &&& a.dispatcher_id == b.dispatcher_id
    &&& a.downstream_actor_id@ == b.downstream_actor_id@
    &&& match a.hash_mapping {
        Some(mapping) => b.hash_mapping matches Some(other) && other@ == mapping@,
        None => b.hash_mapping is None,
    }
}

/// The info is that of the actor: everything but its operators.
pub open spec fn is_info_of(actor: StreamActor, info: CustomActorInfo) -> bool {
    &&& info.actor_id == actor.actor_id
    &&& info.fragment_id == actor.fragment_id
    &&& info.upstream_actor_id@ == actor.upstream_actor_id@
    &&& info.dispatcher@.len() == actor.dispatcher@.len()
    &&& forall|i: int|
        0 <= i < actor.dispatcher@.len() ==> same_dispatcher(
            #[trigger] actor.dispatcher@[i],
            info.dispatcher@[i],
        )
    &&& match actor.vnode_bitmap {
        Some(bitmap) => info.vnode_bitmap matches Some(copied) && copied@ == bitmap@,
        None => info.vnode_bitmap is None,
    }
}

/// A dispatcher that says the same.
fn copy_dispatcher(d: &Dispatcher) -> (res: Dispatcher)
    ensures
        same_dispatcher(*d, res),
{
    Dispatcher {
        dispatcher_type: d.dispatcher_type,
        dispatcher_id: d.dispatcher_id,
        hash_mapping: match &d.hash_mapping {
            Some(mapping) => Some(ActorMapping { owners: copy_ids(&mapping.owners) }),
            None => None,
        },
        downstream_actor_id: copy_ids(&d.downstream_actor_id),
    }
}

impl CustomActorInfo {
    /// What the scaling rules keep of an actor.
    pub fn from_actor(actor: &StreamActor) -> (res: CustomActorInfo)
        ensures
            is_info_of(*actor, res),
    {
        let mut dispatcher: Vec<Dispatcher> = Vec::new();
        let mut i: usize = 0;
        while i < actor.dispatcher.len()
            invariant
                i <= actor.dispatcher.len(),
                dispatcher@.len() == i,
                forall|j: int|
                    0 <= j < i ==> same_dispatcher(
                        #[trigger] actor.dispatcher@[j],
                        dispatcher@[j],
                    ),
            decreases actor.dispatcher.len() - i,
        {
            dispatcher.push(copy_dispatcher(&actor.dispatcher[i]));
            i = i + 1;
        }
        let vnode_bitmap: Option<Bitmap> = match &actor.vnode_bitmap {
            Some(bitmap) => Some(bitmap.clone()),
            None => None,
        };
        CustomActorInfo {
            actor_id: actor.actor_id,
            fragment_id: actor.fragment_id,
            dispatcher,
            upstream_actor_id: copy_ids(&actor.upstream_actor_id),
            vnode_bitmap,
        }
    }
}

impl CustomFragmentInfo {
    /// What the scaling rules keep of a fragment: its first actor serves as the template of new ones, and
    /// of the others the operators are dropped.
    pub fn from_fragment(fragment: Fragment) -> (res: CustomFragmentInfo)
        requires
            fragment.actors@.len() > 0,
        ensures
            res.fragment_id == fragment.fragment_id,
            res.fragment_type_mask == fragment.fragment_type_mask,
            res.distribution_type == fragment.distribution_type,
            res.state_table_ids == fragment.state_table_ids,
            res.upstream_fragment_ids == fragment.upstream_fragment_ids,
            res.actor_template == fragment.actors@[0],
            res.actors@.len() == fragment.actors@.len(),
            forall|i: int|
                0 <= i < fragment.actors@.len() ==> is_info_of(
                    #[trigger] fragment.actors@[i],
                    res.actors@[i],
                ),
    {
        let mut actors: Vec<CustomActorInfo> = Vec::new();
        let mut i: usize = 0;
        while i < fragment.actors.len()
            invariant
                i <= fragment.actors.len(),
                actors@.len() == i,
                forall|j: int|
                    0 <= j < i ==> is_info_of(#[trigger] fragment.actors@[j], actors@[j]),
            decreases fragment.actors.len() - i,
        {
            actors.push(CustomActorInfo::from_actor(&fragment.actors[i]));
            i = i + 1;
        }
        let mut with_operators = fragment.actors;
        CustomFragmentInfo {
            fragment_id: fragment.fragment_id,
            fragment_type_mask: fragment.fragment_type_mask,
            distribution_type: fragment.distribution_type,
            state_table_ids: fragment.state_table_ids,
            upstream_fragment_ids: fragment.upstream_fragment_ids,
            actor_template: with_operators.remove(0),
            actors,
        }
    }
}

} // verus!
