//! Indexes over the fragments and actors of all streaming jobs.
use crate::common::collections::{ascending_of, constant, map_keys, merge_constant, merge_copy};
use crate::common::collections::{merge_refs, refs};
use crate::scale::model::{ActorStatus, CustomActorInfo, CustomFragmentInfo};
use crate::scale::model::{FragmentDistributionType, TableFragments, TableState};
use std::collections::BTreeMap;
use vstd::prelude::*;

verus! {

broadcast use {
    vstd::std_specs::btree::group_btree_axioms,
    vstd::laws_cmp::group_laws_cmp,
};

/// All fragments by id.
pub open spec fn fragments_of<'a>(tables: Seq<TableFragments>) -> Map<u32, &'a CustomFragmentInfo>
    decreases tables.len(),
{
    if tables.len() == 0 {
        Map::empty()
    } else {
        fragments_of(tables.drop_last()).union_prefer_right(refs(tables.last().fragments@))
    }
}

/// Where every actor runs.
pub open spec fn statuses_of(tables: Seq<TableFragments>) -> Map<u32, ActorStatus>
    decreases tables.len(),
{
    if tables.len() == 0 {
        Map::empty()
    } else {
        statuses_of(tables.drop_last()).union_prefer_right(tables.last().actor_status@)
    }
}

/// The state of the job that each fragment belongs to.
pub open spec fn states_of(tables: Seq<TableFragments>) -> Map<u32, TableState>
    decreases tables.len(),
{
    if tables.len() == 0 {
        Map::empty()
    } else {
        states_of(tables.drop_last()).union_prefer_right(
            constant(tables.last().fragments@.dom(), tables.last().state),
        )
    }
}

/// The table that each fragment belongs to.
pub open spec fn tables_of(tables: Seq<TableFragments>) -> Map<u32, u32>
    decreases tables.len(),
{
    if tables.len() == 0 {
        Map::empty()
    } else {
        tables_of(tables.drop_last()).union_prefer_right(
            constant(tables.last().fragments@.dom(), tables.last().table_id),
        )
    }
}

/// The map with the given actors entered under their ids.
pub open spec fn add_actors<'a>(
    m: Map<u32, &'a CustomActorInfo>,
    actors: Seq<CustomActorInfo>,
) -> Map<u32, &'a CustomActorInfo>
    decreases actors.len(),
{
    if actors.len() == 0 {
        m
    } else {
        add_actors(m, actors.drop_last()).insert(actors.last().actor_id, &actors.last())
    }
}

/// The map with the actors of the given fragments entered.
pub open spec fn add_fragments<'a>(
    m: Map<u32, &'a CustomActorInfo>,
    ids: Seq<u32>,
    fragments: Map<u32, CustomFragmentInfo>,
) -> Map<u32, &'a CustomActorInfo>
    decreases ids.len(),
{
    if ids.len() == 0 {
        m
    } else {
        add_actors(add_fragments(m, ids.drop_last(), fragments), fragments[ids.last()].actors@)
    }
}

/// All actors by id.
pub open spec fn actors_of<'a>(tables: Seq<TableFragments>) -> Map<u32, &'a CustomActorInfo>
    decreases tables.len(),
{
    if tables.len() == 0 {
        Map::empty()
    } else {
        add_fragments(
            actors_of(tables.drop_last()),
            ascending_of(tables.last().fragments@.dom()),
            tables.last().fragments@,
        )
    }
}

/// The job is in a known state, each fragment and its actors carry the id of the fragment, the
/// distribution of each fragment is known, and every actor is placed.
pub open spec fn table_valid(table: TableFragments) -> bool {
    &&& table.state != TableState::Unspecified
    &&& forall|f: u32| #[trigger]
        table.fragments@.contains_key(f) ==> fragment_valid(table, f, table.fragments@[f])
    &&& forall|a: u32| #[trigger]
        table.actor_status@.contains_key(a) ==> table.actor_status@[a].parallel_unit is Some
}

pub open spec fn fragment_valid(table: TableFragments, f: u32, fragment: CustomFragmentInfo) -> bool {
    &&& fragment.fragment_id == f
    &&& fragment.actor_template.fragment_id == f
    &&& fragment.distribution_type != FragmentDistributionType::Unspecified
    &&& forall|j: int|
        0 <= j < fragment.actors@.len() ==> (#[trigger] fragment.actors@[j]).fragment_id == f
            && table.actor_status@.contains_key(fragment.actors@[j].actor_id)
}

pub open spec fn tables_valid(tables: Seq<TableFragments>) -> bool {
    forall|i: int| 0 <= i < tables.len() ==> table_valid(#[trigger] tables[i])
}

/// All fragments by id.
pub fn collect_fragments<'a>(tables: &'a Vec<TableFragments>) -> (res: BTreeMap<
    u32,
    &'a CustomFragmentInfo,
>)
    ensures
        res@ == fragments_of(tables@),
{
    let mut res: BTreeMap<u32, &'a CustomFragmentInfo> = BTreeMap::new();
    let mut i: usize = 0;
    assert(tables@.take(0) =~= Seq::<TableFragments>::empty());
    while i < tables.len()
        invariant
            i <= tables.len(),
            res@ == fragments_of(tables@.take(i as int)),
        decreases tables.len() - i,
    {
        merge_refs(&mut res, &tables[i].fragments);
        assert(tables@.take(i + 1).drop_last() =~= tables@.take(i as int));
        i = i + 1;
    }
    assert(tables@.take(i as int) =~= tables@);
    res
}

/// Where every actor runs.
pub fn collect_statuses(tables: &Vec<TableFragments>) -> (res: BTreeMap<u32, ActorStatus>)
    ensures
        res@ == statuses_of(tables@),
{
    let mut res: BTreeMap<u32, ActorStatus> = BTreeMap::new();
    let mut i: usize = 0;
    assert(tables@.take(0) =~= Seq::<TableFragments>::empty());
    while i < tables.len()
        invariant
            i <= tables.len(),
            res@ == statuses_of(tables@.take(i as int)),
        decreases tables.len() - i,
    {
        merge_copy(&mut res, &tables[i].actor_status);
        assert(tables@.take(i + 1).drop_last() =~= tables@.take(i as int));
        i = i + 1;
    }
    assert(tables@.take(i as int) =~= tables@);
    res
}

/// The state of the job that each fragment belongs to.
pub fn collect_states(tables: &Vec<TableFragments>) -> (res: BTreeMap<u32, TableState>)
    ensures
        res@ == states_of(tables@),
{
    let mut res: BTreeMap<u32, TableState> = BTreeMap::new();
    let mut i: usize = 0;
    assert(tables@.take(0) =~= Seq::<TableFragments>::empty());
    while i < tables.len()
        invariant
            i <= tables.len(),
            res@ == states_of(tables@.take(i as int)),
        decreases tables.len() - i,
    {
        merge_constant(&mut res, &tables[i].fragments, tables[i].state);
        assert(tables@.take(i + 1).drop_last() =~= tables@.take(i as int));
        i = i + 1;
    }
    assert(tables@.take(i as int) =~= tables@);
    res
}

/// The table that each fragment belongs to.
pub fn collect_tables(tables: &Vec<TableFragments>) -> (res: BTreeMap<u32, u32>)
    ensures
        res@ == tables_of(tables@),
{
    let mut res: BTreeMap<u32, u32> = BTreeMap::new();
    let mut i: usize = 0;
    assert(tables@.take(0) =~= Seq::<TableFragments>::empty());
    while i < tables.len()
        invariant
            i <= tables.len(),
            res@ == tables_of(tables@.take(i as int)),
        decreases tables.len() - i,
    {
        merge_constant(&mut res, &tables[i].fragments, tables[i].table_id);
        assert(tables@.take(i + 1).drop_last() =~= tables@.take(i as int));
        i = i + 1;
    }
    assert(tables@.take(i as int) =~= tables@);
    res
}

fn push_actors<'a>(m: &mut BTreeMap<u32, &'a CustomActorInfo>, actors: &'a Vec<CustomActorInfo>)
    ensures
        final(m)@ == add_actors(old(m)@, actors@),
{
    let ghost m0 = m@;
    let mut i: usize = 0;
    assert(actors@.take(0) =~= Seq::<CustomActorInfo>::empty());
    while i < actors.len()
        invariant
            i <= actors.len(),
            m@ == add_actors(m0, actors@.take(i as int)),
        decreases actors.len() - i,
    {
        let actor: &'a CustomActorInfo = &actors[i];
        m.insert(actor.actor_id, actor);
        assert(actors@.take(i + 1).drop_last() =~= actors@.take(i as int));
        i = i + 1;
    }
    assert(actors@.take(i as int) =~= actors@);
}

/// All actors by id.
pub fn collect_actors<'a>(tables: &'a Vec<TableFragments>) -> (res: BTreeMap<
    u32,
    &'a CustomActorInfo,
>)
    ensures
        res@ == actors_of(tables@),
{
    let mut res: BTreeMap<u32, &'a CustomActorInfo> = BTreeMap::new();
    let mut i: usize = 0;
    assert(tables@.take(0) =~= Seq::<TableFragments>::empty());
    while i < tables.len()
        invariant
            i <= tables.len(),
            res@ == actors_of(tables@.take(i as int)),
        decreases tables.len() - i,
    {
        let fragments: &'a BTreeMap<u32, CustomFragmentInfo> = &tables[i].fragments;
        let keys = map_keys(fragments);
        let ghost m0 = res@;
        let mut j: usize = 0;
        assert(keys@.take(0) =~= Seq::<u32>::empty());
        while j < keys.len()
            invariant
                j <= keys.len(),
                keys@.to_set() == fragments@.dom(),
                res@ == add_fragments(m0, keys@.take(j as int), fragments@),
            decreases keys.len() - j,
        {
            assert(keys@.to_set().contains(keys@[j as int]));
            let fragment: &'a CustomFragmentInfo = fragments.get(&keys[j]).unwrap();
            push_actors(&mut res, &fragment.actors);
            assert(keys@.take(j + 1).drop_last() =~= keys@.take(j as int));
            j = j + 1;
        }
        assert(keys@.take(j as int) =~= keys@);
        assert(tables@.take(i + 1).drop_last() =~= tables@.take(i as int));
        i = i + 1;
    }
    assert(tables@.take(i as int) =~= tables@);
    res
}

/// A fragment, its table and its state are known together, and a known fragment is one of a job.
pub proof fn lemma_fragments_of(tables: Seq<TableFragments>)
    requires
        tables_valid(tables),
    ensures
        fragments_of(tables).dom() == states_of(tables).dom(),
        fragments_of(tables).dom() == tables_of(tables).dom(),
        forall|f: u32| #[trigger]
            fragments_of(tables).contains_key(f) ==> states_of(tables)[f] != TableState::Unspecified
                && fragments_of(tables)[f].fragment_id == f && fragments_of(
                tables,
            )[f].actor_template.fragment_id == f && fragments_of(tables)[f].distribution_type
                != FragmentDistributionType::Unspecified,
        forall|f: u32, j: int|
            fragments_of(tables).contains_key(f) && 0 <= j < fragments_of(tables)[f].actors@.len()
                ==> (#[trigger] fragments_of(tables)[f].actors@[j]).fragment_id == f && statuses_of(
                tables,
            ).contains_key(fragments_of(tables)[f].actors@[j].actor_id),
        forall|a: u32| #[trigger]
            statuses_of(tables).contains_key(a) ==> statuses_of(tables)[a].parallel_unit is Some,
    decreases tables.len(),
{
    if tables.len() > 0 {
        let t0 = tables.drop_last();
        let t = tables.last();
        assert(tables_valid(t0));
        lemma_fragments_of(t0);
        assert(tables[tables.len() - 1] == t);
        assert(table_valid(t));
        assert(fragments_of(tables).dom() =~= states_of(tables).dom());
        assert(fragments_of(tables).dom() =~= tables_of(tables).dom());
        assert forall|f: u32| #[trigger] fragments_of(tables).contains_key(f) implies states_of(
            tables,
        )[f] != TableState::Unspecified && fragments_of(tables)[f].fragment_id == f && fragments_of(
            tables,
        )[f].actor_template.fragment_id == f && fragments_of(tables)[f].distribution_type
            != FragmentDistributionType::Unspecified by {
            if t.fragments@.contains_key(f) {
                assert(fragment_valid(t, f, t.fragments@[f]));
            } else {
                assert(fragments_of(t0).contains_key(f));
            }
        }
        assert forall|f: u32, j: int|
            fragments_of(tables).contains_key(f) && 0 <= j < fragments_of(
                tables,
            )[f].actors@.len() implies (#[trigger] fragments_of(
            tables,
        )[f].actors@[j]).fragment_id == f && statuses_of(tables).contains_key(
            fragments_of(tables)[f].actors@[j].actor_id,
        ) by {
            if t.fragments@.contains_key(f) {
                assert(fragment_valid(t, f, t.fragments@[f]));
                assert(fragments_of(tables)[f].actors@[j] == t.fragments@[f].actors@[j]);
            } else {
                assert(fragments_of(t0).contains_key(f));
                assert(fragments_of(tables)[f] == fragments_of(t0)[f]);
                let actor = fragments_of(t0)[f].actors@[j];
                assert(statuses_of(t0).contains_key(actor.actor_id));
            }
        }
    }
}

proof fn lemma_add_actors(
    m: Map<u32, &CustomActorInfo>,
    actors: Seq<CustomActorInfo>,
    known: Set<u32>,
)
    requires
        forall|a: u32| #[trigger]
            m.contains_key(a) ==> m[a].actor_id == a && known.contains(m[a].fragment_id),
        forall|j: int| 0 <= j < actors.len() ==> known.contains((#[trigger] actors[j]).fragment_id),
    ensures
        forall|a: u32| #[trigger]
            add_actors(m, actors).contains_key(a) ==> add_actors(m, actors)[a].actor_id == a
                && known.contains(add_actors(m, actors)[a].fragment_id),
    decreases actors.len(),
{
    if actors.len() > 0 {
        lemma_add_actors(m, actors.drop_last(), known);
        assert(actors[actors.len() - 1] == actors.last());
    }
}

proof fn lemma_add_fragments(
    m: Map<u32, &CustomActorInfo>,
    ids: Seq<u32>,
    fragments: Map<u32, CustomFragmentInfo>,
    known: Set<u32>,
)
    requires
        forall|a: u32| #[trigger]
            m.contains_key(a) ==> m[a].actor_id == a && known.contains(m[a].fragment_id),
        forall|i: int, j: int|
            0 <= i < ids.len() && 0 <= j < fragments[ids[i]].actors@.len() ==> known.contains(
                (#[trigger] fragments[ids[i]].actors@[j]).fragment_id,
            ),
    ensures
        forall|a: u32| #[trigger]
            add_fragments(m, ids, fragments).contains_key(a) ==> add_fragments(
                m,
                ids,
                fragments,
            )[a].actor_id == a && known.contains(add_fragments(m, ids, fragments)[a].fragment_id),
    decreases ids.len(),
{
    if ids.len() > 0 {
        let ids0 = ids.drop_last();
        assert forall|i: int, j: int|
            0 <= i < ids0.len() && 0 <= j < fragments[ids0[i]].actors@.len() implies known.contains(
            (#[trigger] fragments[ids0[i]].actors@[j]).fragment_id,
        ) by {
            assert(ids0[i] == ids[i]);
            assert(known.contains(fragments[ids[i]].actors@[j].fragment_id));
        }
        lemma_add_fragments(m, ids0, fragments, known);
        let l = ids.len() - 1;
        assert forall|j: int| 0 <= j < fragments[ids.last()].actors@.len() implies known.contains(
            (#[trigger] fragments[ids.last()].actors@[j]).fragment_id,
        ) by {
            assert(known.contains(fragments[ids[l]].actors@[j].fragment_id));
        }
        lemma_add_actors(
            add_fragments(m, ids0, fragments),
            fragments[ids.last()].actors@,
            known,
        );
    }
}

/// Every known actor stands under its id, and its fragment is known.
pub proof fn lemma_actors_of(tables: Seq<TableFragments>)
    requires
        tables_valid(tables),
        forall|i: int| 0 <= i < tables.len() ==> (#[trigger] tables[i]).fragments@.dom().finite(),
    ensures
        forall|a: u32| #[trigger]
            actors_of(tables).contains_key(a) ==> actors_of(tables)[a].actor_id == a
                && fragments_of(tables).contains_key(actors_of(tables)[a].fragment_id),
    decreases tables.len(),
{
    if tables.len() > 0 {
        let t0 = tables.drop_last();
        let t = tables.last();
        assert(tables[tables.len() - 1] == t);
        assert(table_valid(t));
        assert(tables_valid(t0));
        lemma_actors_of(t0);
        let ids = ascending_of(t.fragments@.dom());
        crate::common::collections::lemma_ascending_exists(t.fragments@.dom());
        let known = fragments_of(tables).dom();
        assert forall|i: int, j: int|
            0 <= i < ids.len() && 0 <= j < t.fragments@[ids[i]].actors@.len() implies known.contains(
            (#[trigger] t.fragments@[ids[i]].actors@[j]).fragment_id,
        ) by {
            assert(ids.to_set().contains(ids[i]));
            assert(t.fragments@.contains_key(ids[i]));
            assert(fragment_valid(t, ids[i], t.fragments@[ids[i]]));
        }
        lemma_add_fragments(actors_of(t0), ids, t.fragments@, known);
    }
}

} // verus!
