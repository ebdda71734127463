//! The indexes of fragments hold those of all jobs, what is kept of fragments is theirs, and revisions read back.
use crate::scale::fragment::{is_info_of, same_dispatcher, Fragment};
use crate::scale::model::{
    ActorStatus, CustomActorInfo, CustomFragmentInfo, TableFragments, TableState,
};
use crate::scale::revision::{TableRevision, Transaction};
use crate::common::collections::{ascending_of, lemma_ascending_exists};
use crate::scale::tables::{
    actors_of, add_actors, add_fragments, collect_actors, collect_fragments, collect_states,
    collect_statuses, collect_tables, fragments_of, states_of, statuses_of, tables_of,
};
use std::collections::BTreeMap;
use vstd::prelude::*;

verus! {

broadcast use {vstd::std_specs::btree::group_btree_axioms, vstd::laws_cmp::group_laws_cmp};

/// The job is the last one that has the fragment.
pub open spec fn last_with(tables: Seq<TableFragments>, i: int, f: u32) -> bool {
    &&& 0 <= i < tables.len() && tables[i].fragments@.contains_key(f)
    &&& forall|j: int| i < j < tables.len() ==> !(#[trigger] tables[j]).fragments@.contains_key(f)
}

/// The job is the last one that says where the actor runs.
pub open spec fn last_placing(tables: Seq<TableFragments>, i: int, a: u32) -> bool {
    &&& 0 <= i < tables.len() && tables[i].actor_status@.contains_key(a)
    &&& forall|j: int| i < j < tables.len() ==> !(#[trigger] tables[j]).actor_status@.contains_key(a)
}

proof fn lemma_last(tables: Seq<TableFragments>, f: u32)
    ensures
        fragments_of(tables).contains_key(f) <==> exists|i: int| last_with(tables, i, f),
        states_of(tables).contains_key(f) <==> exists|i: int| last_with(tables, i, f),
        tables_of(tables).contains_key(f) <==> exists|i: int| last_with(tables, i, f),
        statuses_of(tables).contains_key(f) <==> exists|i: int| last_placing(tables, i, f),
        forall|i: int| #[trigger]
            last_with(tables, i, f) ==> *fragments_of(tables)[f] == tables[i].fragments@[f]
                && states_of(tables)[f] == tables[i].state && tables_of(tables)[f]
                == tables[i].table_id,
        forall|i: int| #[trigger]
            last_placing(tables, i, f) ==> statuses_of(tables)[f] == tables[i].actor_status@[f],
    decreases tables.len(),
{
    if tables.len() > 0 {
        let rest = tables.drop_last();
        let n = tables.len() - 1;
        lemma_last(rest, f);
        assert(tables[n] == tables.last());
        if tables.last().fragments@.contains_key(f) {
            assert(last_with(tables, n, f));
            assert forall|i: int| #[trigger] last_with(tables, i, f) implies i == n by {
                if i < n {
                    assert(tables[n].fragments@.contains_key(f));
                }
            }
        } else {
            assert forall|i: int| #[trigger] last_with(tables, i, f) implies last_with(rest, i, f) by {
                assert(rest[i] == tables[i]);
                assert(forall|j: int| i < j < rest.len() ==> #[trigger] rest[j] == tables[j]);
            }
            assert forall|i: int| #[trigger] last_with(rest, i, f) implies last_with(tables, i, f) by {
                assert(rest[i] == tables[i]);
                assert forall|j: int| i < j < tables.len() implies !(
                #[trigger] tables[j]).fragments@.contains_key(f) by {
                    if j < n {
                        assert(rest[j] == tables[j]);
                    }
                }
            }
            if exists|i: int| last_with(rest, i, f) {
                let i = choose|i: int| last_with(rest, i, f);
                assert(last_with(tables, i, f));
            }
        }
        if tables.last().actor_status@.contains_key(f) {
            assert(last_placing(tables, n, f));
            assert forall|i: int| #[trigger] last_placing(tables, i, f) implies i == n by {
                if i < n {
                    assert(tables[n].actor_status@.contains_key(f));
                }
            }
        } else {
            assert forall|i: int| #[trigger] last_placing(tables, i, f) implies last_placing(
                rest,
                i,
                f,
            ) by {
                assert(rest[i] == tables[i]);
                assert(forall|j: int| i < j < rest.len() ==> #[trigger] rest[j] == tables[j]);
            }
            assert forall|i: int| #[trigger] last_placing(rest, i, f) implies last_placing(
                tables,
                i,
                f,
            ) by {
                assert(rest[i] == tables[i]);
                assert forall|j: int| i < j < tables.len() implies !(
                #[trigger] tables[j]).actor_status@.contains_key(f) by {
                    if j < n {
                        assert(rest[j] == tables[j]);
                    }
                }
            }
            if exists|i: int| last_placing(rest, i, f) {
                let i = choose|i: int| last_placing(rest, i, f);
                assert(last_placing(tables, i, f));
            }
        }
    }
}

/// A fragment is in the indexes if and only if a job has it: with what it is there, and with the state and the id of
/// that job. An actor is in the index of places if and only if a job says where it runs. Of two jobs the later
/// counts.
pub proof fn lemma_fragments_indexed<'a>(
    tables: &'a Vec<TableFragments>,
    fragments: BTreeMap<u32, &'a CustomFragmentInfo>,
    states: BTreeMap<u32, TableState>,
    owners: BTreeMap<u32, u32>,
    statuses: BTreeMap<u32, ActorStatus>,
    f: u32,
    i: int,
)
    requires
        call_ensures(collect_fragments, (tables,), fragments),
        call_ensures(collect_states, (tables,), states),
        call_ensures(collect_tables, (tables,), owners),
        call_ensures(collect_statuses, (tables,), statuses),
    ensures
        last_with(tables@, i, f) ==> fragments@.contains_key(f) && *fragments@[f]
            == tables@[i].fragments@[f] && states@.contains_key(f) && states@[f] == tables@[i].state
            && owners@.contains_key(f) && owners@[f] == tables@[i].table_id,
        fragments@.contains_key(f) || states@.contains_key(f) || owners@.contains_key(f) ==> exists|
            k: int,
        | last_with(tables@, k, f),
        last_placing(tables@, i, f) ==> statuses@.contains_key(f) && statuses@[f]
            == tables@[i].actor_status@[f],
        statuses@.contains_key(f) ==> exists|k: int| last_placing(tables@, k, f),
{
    lemma_last(tables@, f);
}

proof fn lemma_actors_added(
    m: Map<u32, &CustomActorInfo>,
    actors: Seq<CustomActorInfo>,
    a: u32,
)
    ensures
        add_actors(m, actors).contains_key(a) <==> m.contains_key(a) || exists|j: int|
            0 <= j < actors.len() && (#[trigger] actors[j]).actor_id == a,
        add_actors(m, actors).contains_key(a) ==> (exists|j: int|
            0 <= j < actors.len() && (#[trigger] actors[j]).actor_id == a && *add_actors(
                m,
                actors,
            )[a] == actors[j]) || m.contains_key(a) && add_actors(m, actors)[a] == m[a],
    decreases actors.len(),
{
    if actors.len() > 0 {
        let rest = actors.drop_last();
        let n = actors.len() - 1;
        lemma_actors_added(m, rest, a);
        assert(actors[n] == actors.last());
        assert(forall|j: int| 0 <= j < n ==> #[trigger] rest[j] == actors[j]);
        assert forall|j: int| 0 <= j < rest.len() && (#[trigger] rest[j]).actor_id == a implies exists|
            k: int,
        | 0 <= k < actors.len() && (#[trigger] actors[k]).actor_id == a && actors[k] == rest[j] by {
            assert(actors[j] == rest[j]);
        }
        if exists|j: int| 0 <= j < actors.len() && (#[trigger] actors[j]).actor_id == a {
            let j = choose|j: int| 0 <= j < actors.len() && (#[trigger] actors[j]).actor_id == a;
            if j < n {
                assert(rest[j].actor_id == a);
            }
        }
    }
}

/// The actor in the place of the fragment has the id.
pub open spec fn stands_in(fragments: Map<u32, CustomFragmentInfo>, f: u32, j: int, a: u32) -> bool {
    fragments.contains_key(f) && 0 <= j < fragments[f].actors@.len()
        && fragments[f].actors@[j].actor_id == a
}

proof fn lemma_fragments_added(
    m: Map<u32, &CustomActorInfo>,
    ids: Seq<u32>,
    fragments: Map<u32, CustomFragmentInfo>,
    a: u32,
)
    requires
        forall|i: int| 0 <= i < ids.len() ==> fragments.contains_key(#[trigger] ids[i]),
    ensures
        add_fragments(m, ids, fragments).contains_key(a) <==> m.contains_key(a) || exists|f: u32, j: int|
            ids.contains(f) && #[trigger] stands_in(fragments, f, j, a),
        add_fragments(m, ids, fragments).contains_key(a) ==> (exists|f: u32, j: int|
            ids.contains(f) && #[trigger] stands_in(fragments, f, j, a) && *add_fragments(
                m,
                ids,
                fragments,
            )[a] == fragments[f].actors@[j]) || m.contains_key(a) && add_fragments(
            m,
            ids,
            fragments,
        )[a] == m[a],
    decreases ids.len(),
{
    if ids.len() > 0 {
        let rest = ids.drop_last();
        let n = ids.len() - 1;
        let last = ids[n];
        assert forall|i: int| 0 <= i < rest.len() implies fragments.contains_key(#[trigger] rest[i]) by {
            assert(rest[i] == ids[i]);
        }
        lemma_fragments_added(m, rest, fragments, a);
        let before = add_fragments(m, rest, fragments);
        let actors = fragments[last].actors@;
        lemma_actors_added(before, actors, a);
        assert(ids.contains(last));
        assert forall|f: u32| rest.contains(f) implies #[trigger] ids.contains(f) by {
            let i = choose|i: int| 0 <= i < rest.len() && rest[i] == f;
            assert(ids[i] == f);
        }
        assert forall|f: u32| #[trigger] ids.contains(f) implies rest.contains(f) || f == last by {
            let i = choose|i: int| 0 <= i < ids.len() && ids[i] == f;
            if i < n {
                assert(rest[i] == f);
            }
        }
        assert forall|j: int| 0 <= j < actors.len() && (#[trigger] actors[j]).actor_id
            == a implies stands_in(fragments, last, j, a) by {}
        if exists|f: u32, j: int| ids.contains(f) && #[trigger] stands_in(fragments, f, j, a) {
            let (f, j) = choose|f: u32, j: int| ids.contains(f) && #[trigger] stands_in(
                fragments,
                f,
                j,
                a,
            );
            if f == last {
                assert(actors[j].actor_id == a);
            }
        }
    }
}

/// The actor in the place of the fragment of the job has the id.
pub open spec fn is_actor_of(tables: Seq<TableFragments>, i: int, f: u32, j: int, a: u32) -> bool {
    0 <= i < tables.len() && stands_in(tables[i].fragments@, f, j, a)
}

proof fn lemma_actors_listed(tables: Seq<TableFragments>, a: u32)
    ensures
        actors_of(tables).contains_key(a) <==> exists|i: int, f: u32, j: int|
            is_actor_of(tables, i, f, j, a),
        actors_of(tables).contains_key(a) ==> exists|i: int, f: u32, j: int|
            #[trigger] is_actor_of(tables, i, f, j, a) && *actors_of(tables)[a]
                == tables[i].fragments@[f].actors@[j],
    decreases tables.len(),
{
    if tables.len() > 0 {
        let rest = tables.drop_last();
        let n = tables.len() - 1;
        let fragments = tables[n].fragments@;
        let ids = ascending_of(fragments.dom());
        lemma_actors_listed(rest, a);
        lemma_ascending_exists(fragments.dom());
        assert forall|i: int| 0 <= i < ids.len() implies fragments.contains_key(#[trigger] ids[i]) by {
            assert(ids.to_set().contains(ids[i]));
        }
        lemma_fragments_added(actors_of(rest), ids, fragments, a);
        assert forall|i: int, f: u32, j: int| #[trigger]
            is_actor_of(rest, i, f, j, a) implies is_actor_of(tables, i, f, j, a) && tables[i]
            == rest[i] by {
            assert(rest[i] == tables[i]);
        }
        assert forall|f: u32, j: int| #[trigger] stands_in(fragments, f, j, a) implies is_actor_of(
            tables,
            n,
            f,
            j,
            a,
        ) by {}
        if exists|i: int, f: u32, j: int| is_actor_of(tables, i, f, j, a) {
            let (i, f, j) = choose|i: int, f: u32, j: int| is_actor_of(tables, i, f, j, a);
            if i < n {
                assert(rest[i] == tables[i]);
                assert(is_actor_of(rest, i, f, j, a));
            } else {
                assert(ids.to_set().contains(f));
                assert(ids.contains(f) && stands_in(fragments, f, j, a));
            }
        }
    }
}

/// An actor is in the index of actors if and only if a fragment of a job has it, and it is what it is there.
pub proof fn lemma_actors_indexed<'a>(
    tables: &'a Vec<TableFragments>,
    actors: BTreeMap<u32, &'a CustomActorInfo>,
    a: u32,
)
    requires
        call_ensures(collect_actors, (tables,), actors),
    ensures
        actors@.contains_key(a) <==> exists|i: int, f: u32, j: int|
            is_actor_of(tables@, i, f, j, a),
        actors@.contains_key(a) ==> exists|i: int, f: u32, j: int|
            #[trigger] is_actor_of(tables@, i, f, j, a) && *actors@[a]
                == tables@[i].fragments@[f].actors@[j],
{
    lemma_actors_listed(tables@, a);
}

/// Of a fragment all is kept but the operators of its actors, which only the template, its first actor, has.
pub proof fn lemma_kept_of_fragment(
    fragment: Fragment,
    res: CustomFragmentInfo,
    i: int,
    d: int,
)
    requires
        call_ensures(CustomFragmentInfo::from_fragment, (fragment,), res),
        0 <= i < fragment.actors@.len(),
        0 <= d < fragment.actors@[i].dispatcher@.len(),
    ensures
        res.fragment_id == fragment.fragment_id && res.distribution_type
            == fragment.distribution_type,
        res.fragment_type_mask == fragment.fragment_type_mask,
        res.upstream_fragment_ids@ == fragment.upstream_fragment_ids@,
        res.state_table_ids@ == fragment.state_table_ids@,
        res.actor_template == fragment.actors@[0],
        ({
            let actor = fragment.actors@[i];
            let kept = res.actors@[i];
            &&& res.actors@.len() == fragment.actors@.len()
            &&& kept.actor_id == actor.actor_id && kept.fragment_id == actor.fragment_id
            &&& kept.upstream_actor_id@ == actor.upstream_actor_id@
            &&& kept.dispatcher@.len() == actor.dispatcher@.len()
            &&& kept.dispatcher@[d].dispatcher_id == actor.dispatcher@[d].dispatcher_id
            &&& kept.dispatcher@[d].dispatcher_type == actor.dispatcher@[d].dispatcher_type
            &&& kept.dispatcher@[d].downstream_actor_id@
                == actor.dispatcher@[d].downstream_actor_id@
            &&& actor.dispatcher@[d].hash_mapping matches Some(m) ==> (
            kept.dispatcher@[d].hash_mapping matches Some(k) && k@ == m@)
            &&& actor.vnode_bitmap matches Some(b) ==> (kept.vnode_bitmap matches Some(k) && k@
                == b@)
            &&& actor.vnode_bitmap is None ==> kept.vnode_bitmap is None
        }),
{
    let actor = fragment.actors@[i];
    assert(is_info_of(fragment.actors@[i], res.actors@[i]));
    assert(same_dispatcher(actor.dispatcher@[d], res.actors@[i].dispatcher@[d]));
}

/// A revision that is stored is read back, behind what the transaction held before; the next revision is one more
/// than it, and without anything stored the revision is the first.
pub proof fn lemma_revision_read_back(
    revision: &TableRevision,
    txn: &mut Transaction,
    bytes: &Vec<u8>,
    read: TableRevision,
    first: TableRevision,
    next: TableRevision,
    i: int,
)
    requires
        call_ensures(TableRevision::store, (revision, txn), ()),
        *bytes == final(txn).puts@[old(txn).puts@.len() as int].1,
        call_ensures(TableRevision::get, (Some(bytes),), read),
        call_ensures(TableRevision::get, (None::<&Vec<u8>>,), first),
        call_ensures(TableRevision::next, (revision,), next),
    ensures
        read == *revision,
        first.0 == 0,
        next.0 == revision.0 + 1,
        final(txn).puts@.len() == old(txn).puts@.len() + 1,
        0 <= i < old(txn).puts@.len() ==> final(txn).puts@[i] == old(txn).puts@[i],
        final(txn).puts@[old(txn).puts@.len() as int].0@.len() == "table_revision"@.len(),
        0 <= i < "table_revision"@.len() ==> final(txn).puts@[old(txn).puts@.len() as int].0@[i] as int
            == "table_revision"@[i] as int,
{
    reveal_strlit("table_revision");
    if 0 <= i < old(txn).puts@.len() {
        assert(final(txn).puts@.drop_last()[i] == final(txn).puts@[i]);
    }
    assert(final(txn).puts@[old(txn).puts@.len() as int] == final(txn).puts@.last());
}

} // verus!
