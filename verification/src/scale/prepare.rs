//! What a reschedule comes to: where the actors of each fragment are afterwards, which virtual
//! nodes they own, and the actors that are new.
use crate::common::bitmap::Bitmap;
use crate::common::collections::{ascending_of, map_keys};
use crate::scale::actors::{is_wired_actor, modify_actor_upstream_and_downstream, template_ready};
use crate::scale::arrange::{added_count, all_actors_after, arrange_reschedules};
use crate::scale::arrange::{collect_actors_after, creations, first_unplaced, first_unplaced_in};
use crate::scale::arrange::{nested, removals};
use crate::scale::context::RescheduleContext;
use crate::scale::links::dispatcher_index;
use crate::scale::model::{ActorStatus, CustomFragmentInfo, ParallelUnitReschedule, ScaleError};
use crate::scale::model::{StreamActor, UnitChange};
use crate::scale::no_shuffle::plans_of;
use crate::scale::relation::{all_bits, all_pairs, bits_of, collect_pairs, copies_agree};
use crate::scale::relation::copy_to_followers;
use crate::scale::relation::{edges_aligned, followers_aligned, rebalance_roots, root_bits};
use crate::scale::relation::{inner_bits, roots_rebalance, NoShufflePair};
use std::collections::BTreeMap;
use vstd::prelude::*;

verus! {

broadcast use {
    vstd::std_specs::btree::group_btree_axioms,
    vstd::laws_cmp::group_laws_cmp,
};

/// What a reschedule comes to.
pub struct Outcome {
    /// The actors that go, by fragment, with their parallel units.
    pub to_remove: Map<u32, Map<u32, u32>>,
    /// The actors that come, by fragment, with their parallel units.
    pub to_create: Map<u32, Map<u32, u32>>,
    /// The actors afterwards, by fragment, with their parallel units.
    pub places: Map<u32, Map<u32, u32>>,
    /// The virtual nodes of the actors, by fragment.
    pub bits: Map<u32, Map<u32, Seq<bool>>>,
    /// The actors that are joined one to one.
    pub pairs: Seq<NoShufflePair>,
}

/// What a reschedule comes to.
pub open spec fn outcome(
    ctx: &RescheduleContext,
    plans: Map<u32, UnitChange>,
    new_ids: Seq<u32>,
) -> Outcome {
    let ids = ascending_of(plans.dom());
    let fragments = ctx.fragment_map@;
    let index = dispatcher_index(ctx.fragment_dispatcher_map@);
    let sources = ctx.no_shuffle_source_fragment_ids@;
    let targets = ctx.no_shuffle_target_fragment_ids@;
    let to_remove = removals(ids, plans, fragments, ctx.actor_status@);
    let to_create = creations(ids, plans, new_ids);
    let places = all_actors_after(
        plans.dom(),
        fragments,
        to_remove,
        to_create,
        ctx.actor_status@,
    );
    let own = root_bits(plans.dom(), fragments, targets, to_remove, to_create);
    Outcome {
        to_remove,
        to_create,
        places,
        bits: all_bits(ids, own, index, sources, targets, places),
        pairs: all_pairs(ids, index, sources, targets, places),
    }
}

/// The jobs and the reschedule fit together: every fragment is known and keeps an actor, the
/// virtual nodes can be spread, fragments that follow one another are placed alike, a fragment that
/// follows several gets the same virtual nodes from each, and the templates of new actors can be
/// wired.
pub open spec fn can_prepare(
    ctx: &RescheduleContext,
    plans: Map<u32, UnitChange>,
    new_ids: Seq<u32>,
) -> bool {
    let o = outcome(ctx, plans, new_ids);
    let index = dispatcher_index(ctx.fragment_dispatcher_map@);
    let sources = ctx.no_shuffle_source_fragment_ids@;
    let targets = ctx.no_shuffle_target_fragment_ids@;
    &&& forall|f: u32| #[trigger]
        plans.contains_key(f) ==> ctx.fragment_map@.contains_key(f)
            && ctx.fragment_map@[f].actors@.len() > 0 && o.places[f].dom().len() > 0
    &&& roots_rebalance(plans.dom(), ctx.fragment_map@, targets, o.to_remove, o.to_create)
    &&& followers_aligned(plans.dom(), index, sources, targets, o.places)
    &&& edges_aligned(plans.dom(), index, sources, targets, o.places)
    &&& copies_agree(plans.dom(), index, sources, targets, o.places, o.bits)
    &&& forall|f: u32, a: u32| #[trigger]
        is_new(o.to_create, f, a) ==> ctx.fragment_map@.contains_key(f) && template_ready(
            ctx,
            o.to_remove,
            o.to_create,
            o.bits,
            o.pairs,
            ctx.fragment_map@[f].actor_template,
            a,
        )
}

/// The actor is created in the fragment.
pub open spec fn is_new(to_create: Map<u32, Map<u32, u32>>, f: u32, a: u32) -> bool {
    to_create.contains_key(f) && to_create[f].contains_key(a)
}

/// The actor is created in some fragment.
pub open spec fn is_created(to_create: Map<u32, Map<u32, u32>>, a: u32) -> bool {
    exists|f: u32| #[trigger] is_new(to_create, f, a)
}

/// The new actors behind a map of maps.
pub open spec fn actors_in(m: Map<u32, BTreeMap<u32, StreamActor>>) -> Map<
    u32,
    Map<u32, StreamActor>,
> {
    Map::new(|k: u32| m.contains_key(k), |k: u32| m[k]@)
}

/// The virtual nodes of a new actor: those that the reschedule gives it, or those of the template.
pub open spec fn is_new_bitmap(
    own: Map<u32, Seq<bool>>,
    template: StreamActor,
    a: u32,
    bitmap: Option<Bitmap>,
) -> bool {
    if own.contains_key(a) {
        bitmap matches Some(b) && b@ == own[a]
    } else {
        match template.vnode_bitmap {
            Some(t) => bitmap matches Some(b) && b@ == t@,
            None => bitmap is None,
        }
    }
}

/// The new actor is made from the template of its fragment.
pub open spec fn is_new_actor(
    ctx: &RescheduleContext,
    o: Outcome,
    f: u32,
    a: u32,
    actor: StreamActor,
) -> bool {
    let template = ctx.fragment_map@[f].actor_template;
    &&& is_wired_actor(ctx, o.to_remove, o.to_create, o.bits, o.pairs, template, a, actor)
    &&& is_new_bitmap(inner_bits(o.bits, f), template, a, actor.vnode_bitmap)
}

/// The actors are those that the reschedule creates.
pub open spec fn are_new_actors(
    ctx: &RescheduleContext,
    o: Outcome,
    m: Map<u32, Map<u32, StreamActor>>,
) -> bool {
    &&& m.dom() == o.to_create.dom()
    &&& forall|f: u32| #[trigger] m.contains_key(f) ==> m[f].dom() == o.to_create[f].dom()
    &&& forall|f: u32, a: u32| #[trigger]
        is_new(o.to_create, f, a) ==> is_new_actor(ctx, o, f, a, m[f][a])
}

/// What a reschedule comes to, with the new actors.
pub struct PreparedReschedule {
    pub fragment_actors_to_remove: BTreeMap<u32, BTreeMap<u32, u32>>,
    pub fragment_actors_to_create: BTreeMap<u32, BTreeMap<u32, u32>>,
    pub fragment_actors_after_reschedule: BTreeMap<u32, BTreeMap<u32, u32>>,
    pub fragment_actor_bitmap: BTreeMap<u32, BTreeMap<u32, Bitmap>>,
    pub new_created_actors: BTreeMap<u32, BTreeMap<u32, StreamActor>>,
}

impl PreparedReschedule {
    /// The value holds the outcome and its new actors.
    pub open spec fn holds(&self, ctx: &RescheduleContext, o: Outcome) -> bool {
        &&& nested(self.fragment_actors_to_remove@) == o.to_remove
        &&& nested(self.fragment_actors_to_create@) == o.to_create
        &&& nested(self.fragment_actors_after_reschedule@) == o.places
        &&& bits_of(self.fragment_actor_bitmap@) == o.bits
        &&& are_new_actors(ctx, o, actors_in(self.new_created_actors@))
    }
}

proof fn lemma_all_placed_in(
    ids: Seq<u32>,
    fragments: Map<u32, &CustomFragmentInfo>,
    statuses: Map<u32, ActorStatus>,
)
    requires
        first_unplaced_in(ids, fragments, statuses) is None,
    ensures
        forall|i: int|
            0 <= i < ids.len() ==> first_unplaced(
                fragments[#[trigger] ids[i]].actors@,
                statuses,
            ) is None,
    decreases ids.len(),
{
    if ids.len() > 0 {
        lemma_all_placed_in(ids.skip(1), fragments, statuses);
        assert forall|i: int| 0 <= i < ids.len() implies first_unplaced(
            fragments[#[trigger] ids[i]].actors@,
            statuses,
        ) is None by {
            if i > 0 {
                assert(ids.skip(1)[i - 1] == ids[i]);
            }
        }
    }
}

/// The bitmap of an actor of a fragment, if it has one.
fn find_bitmap<'a>(m: &'a BTreeMap<u32, BTreeMap<u32, Bitmap>>, f: u32, a: u32) -> (res: Option<
    &'a Bitmap,
>)
    ensures
        match res {
            Some(b) => inner_bits(bits_of(m@), f).contains_key(a) && b@ == inner_bits(
                bits_of(m@),
                f,
            )[a],
            None => !inner_bits(bits_of(m@), f).contains_key(a),
        },
{
    match m.get(&f) {
        Some(own) => own.get(&a),
        None => None,
    }
}

/// Makes the new actors of one fragment.
fn create_actors_of(
    ctx: &RescheduleContext,
    Ghost(o): Ghost<Outcome>,
    to_remove: &BTreeMap<u32, BTreeMap<u32, u32>>,
    to_create: &BTreeMap<u32, BTreeMap<u32, u32>>,
    bitmap_of: &BTreeMap<u32, BTreeMap<u32, Bitmap>>,
    pairs: &Vec<NoShufflePair>,
    f: u32,
) -> (res: BTreeMap<u32, StreamActor>)
    requires
        to_create@.contains_key(f),
        nested(to_remove@) == o.to_remove,
        nested(to_create@) == o.to_create,
        bits_of(bitmap_of@) == o.bits,
        pairs@ == o.pairs,
        ctx.fragment_map@.contains_key(f),
        forall|a: u32| #[trigger]
            is_new(o.to_create, f, a) ==> template_ready(
                ctx,
                o.to_remove,
                o.to_create,
                o.bits,
                o.pairs,
                ctx.fragment_map@[f].actor_template,
                a,
            ),
    ensures
        res@.dom() == o.to_create[f].dom(),
        forall|a: u32| #[trigger]
            is_new(o.to_create, f, a) ==> is_new_actor(ctx, o, f, a, res@[a]),
{
    let created = to_create.get(&f).unwrap();
    let fragment: &CustomFragmentInfo = *ctx.fragment_map.get(&f).unwrap();
    let ids = map_keys(created);
    let mut res: BTreeMap<u32, StreamActor> = BTreeMap::new();
    let mut i: usize = 0;
    assert(res@.dom() =~= ids@.take(0).to_set());
    while i < ids.len()
        invariant
            i <= ids.len(),
            to_create@.contains_key(f),
            created == to_create@[f],
            fragment == ctx.fragment_map@[f],
            ids@.to_set() == created@.dom(),
            nested(to_remove@) == o.to_remove,
            nested(to_create@) == o.to_create,
            bits_of(bitmap_of@) == o.bits,
            pairs@ == o.pairs,
            forall|a: u32| #[trigger]
                is_new(o.to_create, f, a) ==> template_ready(
                    ctx,
                    o.to_remove,
                    o.to_create,
                    o.bits,
                    o.pairs,
                    fragment.actor_template,
                    a,
                ),
            res@.dom() == ids@.take(i as int).to_set(),
            forall|a: u32| #[trigger]
                res@.contains_key(a) ==> is_new_actor(ctx, o, f, a, res@[a]),
        decreases ids.len() - i,
    {
        let a: u32 = ids[i];
        assert(ids@.to_set().contains(ids@[i as int]));
        assert(is_new(o.to_create, f, a));
        let mut actor = modify_actor_upstream_and_downstream(
            ctx,
            to_remove,
            to_create,
            bitmap_of,
            pairs,
            &fragment.actor_template,
            a,
        );
        if let Some(bitmap) = find_bitmap(bitmap_of, f, a) {
            let copied = bitmap.clone();
            actor.vnode_bitmap = Some(copied);
        }
        assert(is_new_actor(ctx, o, f, a, actor));
        res.insert(a, actor);
        proof {
            assert(ids@.take(i + 1) =~= ids@.take(i as int).push(a));
            crate::common::collections::lemma_to_set_push(ids@.take(i as int), a);
            assert(res@.dom() =~= ids@.take(i + 1).to_set());
        }
        i = i + 1;
    }
    assert(ids@.take(i as int) =~= ids@);
    assert(forall|a: u32| #[trigger] is_new(o.to_create, f, a) ==> res@.contains_key(a));
    res
}

/// Works out what the reschedule comes to, and makes the new actors. The ids of the new actors
/// are taken from `new_actor_ids` in order.
pub fn prepare_reschedule(
    reschedules: &BTreeMap<u32, ParallelUnitReschedule>,
    ctx: &RescheduleContext,
    new_actor_ids: &Vec<u32>,
) -> (res: Result<PreparedReschedule, ScaleError>)
    requires
        can_prepare(ctx, plans_of(reschedules@), new_actor_ids@),
        added_count(ascending_of(reschedules@.dom()), plans_of(reschedules@))
            == new_actor_ids.len(),
    ensures
        match res {
            Ok(prepared) => {
                &&& first_unplaced_in(
                    ascending_of(reschedules@.dom()),
                    ctx.fragment_map@,
                    ctx.actor_status@,
                ) is None
                &&& prepared.holds(ctx, outcome(ctx, plans_of(reschedules@), new_actor_ids@))
            },
            Err(e) => first_unplaced_in(
                ascending_of(reschedules@.dom()),
                ctx.fragment_map@,
                ctx.actor_status@,
            ) matches Some(actor_id) && e == (ScaleError::ActorWithoutParallelUnit { actor_id }),
        },
{
    let ghost plans = plans_of(reschedules@);
    let ghost o = outcome(ctx, plans, new_actor_ids@);
    assert(plans.dom() =~= reschedules@.dom());
    assert forall|f: u32| #[trigger] reschedules@.contains_key(f) implies ctx.fragment_map@.contains_key(
        f,
    ) by {
        assert(plans.contains_key(f));
    }
    let (to_remove, to_create) = match arrange_reschedules(reschedules, ctx, new_actor_ids) {
        Ok(arranged) => arranged,
        Err(e) => {
            return Err(e);
        },
    };
    let ids = map_keys(reschedules);
    proof {
        lemma_all_placed_in(ids@, ctx.fragment_map@, ctx.actor_status@);
        assert forall|f: u32| #[trigger] reschedules@.dom().contains(
            f,
        ) implies ctx.fragment_map@.contains_key(f) && first_unplaced(
            ctx.fragment_map@[f].actors@,
            ctx.actor_status@,
        ) is None by {
            assert(plans.contains_key(f));
            assert(ids@.to_set().contains(f));
            let i = choose|i: int| 0 <= i < ids@.len() && ids@[i] == f;
            assert(ids@[i] == f);
        }
    }
    let mut bitmap_of = rebalance_roots(reschedules, ctx, &to_remove, &to_create);
    let places = collect_actors_after(reschedules, ctx, &to_remove, &to_create);
    copy_to_followers(reschedules, ctx, &places, &mut bitmap_of);
    let pairs = collect_pairs(reschedules, ctx, &places);
    let created_in = map_keys(&to_create);
    let mut new_actors: BTreeMap<u32, BTreeMap<u32, StreamActor>> = BTreeMap::new();
    let mut i: usize = 0;
    assert(actors_in(new_actors@).dom() =~= created_in@.take(0).to_set());
    assert(nested(to_create@).dom() =~= to_create@.dom());
    while i < created_in.len()
        invariant
            i <= created_in.len(),
            created_in@.to_set() == to_create@.dom(),
            can_prepare(ctx, plans, new_actor_ids@),
            ascending_of(plans.dom()).to_set() == plans.dom(),
            o == outcome(ctx, plans, new_actor_ids@),
            nested(to_remove@) == o.to_remove,
            nested(to_create@) == o.to_create,
            bits_of(bitmap_of@) == o.bits,
            pairs@ == o.pairs,
            actors_in(new_actors@).dom() == created_in@.take(i as int).to_set(),
            forall|f: u32| #[trigger]
                actors_in(new_actors@).contains_key(f) ==> actors_in(new_actors@)[f].dom()
                    == o.to_create[f].dom(),
            forall|f: u32, a: u32| #[trigger]
                is_new(o.to_create, f, a) && actors_in(new_actors@).contains_key(f)
                    ==> is_new_actor(ctx, o, f, a, actors_in(new_actors@)[f][a]),
        decreases created_in.len() - i,
    {
        let f: u32 = created_in[i];
        assert(created_in@.to_set().contains(created_in@[i as int]));
        assert(to_create@.contains_key(f));
        proof {
            lemma_created_known(ctx, plans, new_actor_ids@, f);
        }
        let actors = create_actors_of(
            ctx,
            Ghost(o),
            &to_remove,
            &to_create,
            &bitmap_of,
            &pairs,
            f,
        );
        let ghost before = actors_in(new_actors@);
        let ghost own = actors@;
        new_actors.insert(f, actors);
        proof {
            assert(actors_in(new_actors@) =~= before.insert(f, own));
            assert(created_in@.take(i + 1) =~= created_in@.take(i as int).push(f));
            crate::common::collections::lemma_to_set_push(created_in@.take(i as int), f);
            assert(actors_in(new_actors@).dom() =~= created_in@.take(i + 1).to_set());
        }
        i = i + 1;
    }
    assert(created_in@.take(i as int) =~= created_in@);
    Ok(
        PreparedReschedule {
            fragment_actors_to_remove: to_remove,
            fragment_actors_to_create: to_create,
            fragment_actors_after_reschedule: places,
            fragment_actor_bitmap: bitmap_of,
            new_created_actors: new_actors,
        },
    )
}

/// A fragment that gets an actor is one of the rescheduled ones.
proof fn lemma_created_known(
    ctx: &RescheduleContext,
    plans: Map<u32, UnitChange>,
    new_ids: Seq<u32>,
    f: u32,
)
    requires
        can_prepare(ctx, plans, new_ids),
        ascending_of(plans.dom()).to_set() == plans.dom(),
        creations(ascending_of(plans.dom()), plans, new_ids).contains_key(f),
    ensures
        ctx.fragment_map@.contains_key(f),
{
    let ids = ascending_of(plans.dom());
    lemma_created_in(ids, plans, new_ids, f);
    assert(ids.to_set().contains(f));
    assert(plans.contains_key(f));
}

proof fn lemma_created_in(ids: Seq<u32>, plans: Map<u32, UnitChange>, new_ids: Seq<u32>, f: u32)
    requires
        creations(ids, plans, new_ids).contains_key(f),
    ensures
        ids.contains(f),
    decreases ids.len(),
{
    if ids.len() > 0 && ids.last() != f {
        assert(creations(ids.drop_last(), plans, new_ids).contains_key(f));
        lemma_created_in(ids.drop_last(), plans, new_ids, f);
        let i = choose|i: int| 0 <= i < ids.drop_last().len() && ids.drop_last()[i] == f;
        assert(ids[i] == f);
    }
}

} // verus!
