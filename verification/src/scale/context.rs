//! The context of a reschedule: indexes over the cluster, and the checked and completed plan.
use crate::common::collections::{ascending, ascending_of, constant, key_set, lemma_id_set_bound};
use crate::common::collections::{lemma_to_set_push, map_keys, set_to_vec};
use crate::common::worker::WorkerNode;
use crate::scale::checks::{collect_units, collect_workers, find_refused, find_unschedulable};
use crate::scale::checks::{first_refused, first_unschedulable, placed, unit_owners, worker_map};
use crate::scale::links::{build_fragment_dispatcher_index, build_no_shuffle_relation_index};
use crate::scale::links::{collect_upstream_dispatchers, dispatcher_index, first_actors};
use crate::scale::links::{index_links, is_first_actor, is_no_shuffle, is_upstream_index};
use crate::scale::links::{lemma_links_from, links, links_from};
use crate::scale::links::{no_shuffle_sources, no_shuffle_targets};
use crate::scale::model::{ActorStatus, CustomActorInfo, CustomFragmentInfo, DispatcherType};
use crate::scale::model::{NodeBody, ParallelUnitReschedule, PlanOps, RescheduleOptions};
use crate::scale::model::{ScaleError, StreamNode, TableFragments, TableParallelism, UnitChange};
use crate::scale::no_shuffle::{conflicting, consistent, custom_passed_up, downstream_tables};
use crate::scale::no_shuffle::{made_custom, plans_of, queue_of, reaches, resolved};
use crate::scale::no_shuffle::resolve_no_shuffle_upstream_fragments;
use crate::scale::table_parallelism::resolve_no_shuffle_upstream_tables;
use crate::scale::tables::{actors_of, collect_actors, collect_fragments, collect_states};
use crate::scale::tables::{collect_statuses, collect_tables, fragments_of, lemma_actors_of};
use crate::scale::tables::{lemma_fragments_of, states_of, statuses_of, tables_of, tables_valid};
use std::collections::BTreeMap;
use std::collections::BTreeSet;
use std::collections::VecDeque;
use vstd::prelude::*;

verus! {

broadcast use {
    vstd::std_specs::btree::group_btree_axioms,
    vstd::laws_cmp::group_laws_cmp,
};

/// The path leads from a fragment over any edge to a downstream end of a `NoShuffle` relation,
/// and from there over `NoShuffle` edges to others.
pub open spec fn is_down_path(
    index: Map<u32, Map<u32, DispatcherType>>,
    targets: Set<u32>,
    path: Seq<u32>,
) -> bool {
    path.len() >= 2 && forall|i: int|
        #![trigger path[i]]
        0 <= i < path.len() - 1 ==> down_step(index, targets, path[i], path[i + 1], i == 0)
}

/// One step of such a path.
pub open spec fn down_step(
    index: Map<u32, Map<u32, DispatcherType>>,
    targets: Set<u32>,
    x: u32,
    y: u32,
    any_type: bool,
) -> bool {
    index.contains_key(x) && index[x].contains_key(y) && targets.contains(y) && (any_type
        || index[x][y] == DispatcherType::NoShuffle)
}

/// The fragments that follow every reschedule of `root`.
pub open spec fn followers(
    index: Map<u32, Map<u32, DispatcherType>>,
    targets: Set<u32>,
    root: u32,
) -> Set<u32> {
    Set::new(
        |y: u32|
            exists|path: Seq<u32>| #[trigger]
                is_down_path(index, targets, path) && path.first() == root && path.last() == y,
    )
}

proof fn lemma_follow_first(
    index: Map<u32, Map<u32, DispatcherType>>,
    targets: Set<u32>,
    root: u32,
    y: u32,
)
    requires
        down_step(index, targets, root, y, true),
    ensures
        followers(index, targets, root).contains(y),
{
    let path = seq![root, y];
    assert(path[0] == root && path[1] == y);
    assert(is_down_path(index, targets, path));
    assert(path.first() == root && path.last() == y);
}

proof fn lemma_follow_next(
    index: Map<u32, Map<u32, DispatcherType>>,
    targets: Set<u32>,
    root: u32,
    x: u32,
    y: u32,
)
    requires
        followers(index, targets, root).contains(x),
        down_step(index, targets, x, y, false),
    ensures
        followers(index, targets, root).contains(y),
{
    let path = choose|path: Seq<u32>| #[trigger]
        is_down_path(index, targets, path) && path.first() == root && path.last() == x;
    let longer = path.push(y);
    assert forall|i: int| #![trigger longer[i]] 0 <= i < longer.len() - 1 implies down_step(
        index,
        targets,
        longer[i],
        longer[i + 1],
        i == 0,
    ) by {
        assert(longer[i] == path[i]);
        if i + 1 < path.len() {
            assert(longer[i + 1] == path[i + 1]);
        }
    }
    assert(is_down_path(index, targets, longer));
    assert(longer.first() == root && longer.last() == y);
}

/// A fragment at the end of a followed edge follows what the fragment at its start follows or is.
pub proof fn lemma_follow_edge(
    index: Map<u32, Map<u32, DispatcherType>>,
    targets: Set<u32>,
    root: u32,
    x: u32,
    y: u32,
)
    requires
        if x == root {
            down_step(index, targets, x, y, true)
        } else {
            followers(index, targets, root).contains(x) && down_step(index, targets, x, y, false)
        },
    ensures
        followers(index, targets, root).contains(y),
{
    if x == root {
        lemma_follow_first(index, targets, root, y);
    } else {
        lemma_follow_next(index, targets, root, x, y);
    }
}

proof fn lemma_follow_closed(
    index: Map<u32, Map<u32, DispatcherType>>,
    targets: Set<u32>,
    root: u32,
    set: Set<u32>,
    path: Seq<u32>,
)
    requires
        is_down_path(index, targets, path),
        path.first() == root,
        forall|y: u32| #[trigger] down_step(index, targets, root, y, true) ==> set.contains(y),
        forall|x: u32, y: u32|
            set.contains(x) && #[trigger] down_step(index, targets, x, y, false) ==> set.contains(y),
    ensures
        set.contains(path.last()),
    decreases path.len(),
{
    let k = path.len() - 2;
    assert(down_step(index, targets, path[k], path[k + 1], k == 0));
    if k > 0 {
        let shorter = path.drop_last();
        assert forall|i: int| #![trigger shorter[i]] 0 <= i < shorter.len() - 1 implies down_step(
            index,
            targets,
            shorter[i],
            shorter[i + 1],
            i == 0,
        ) by {
            assert(shorter[i] == path[i] && shorter[i + 1] == path[i + 1]);
        }
        assert(shorter.first() == root);
        lemma_follow_closed(index, targets, root, set, shorter);
        assert(shorter.last() == path[k]);
    }
}

/// A fragment in the queue is reached by one edge from the root or from a follower.
spec fn is_next(
    index: Map<u32, Map<u32, DispatcherType>>,
    root: u32,
    found: Set<u32>,
    y: u32,
) -> bool {
    (index.contains_key(root) && index[root].contains_key(y)) || exists|x: u32|
        #![trigger found.contains(x)]
        found.contains(x) && index.contains_key(x) && index[x].contains_key(y) && index[x][y]
            == DispatcherType::NoShuffle
}

/// The fragments that follow every reschedule of `root`.
pub fn collect_followers(
    root: u32,
    index: &BTreeMap<u32, BTreeMap<u32, DispatcherType>>,
    targets: &BTreeSet<u32>,
) -> (res: BTreeSet<u32>)
    ensures
        res@ == followers(dispatcher_index(index@), targets@, root),
{
    let ghost idx = dispatcher_index(index@);
    let mut found: BTreeSet<u32> = BTreeSet::new();
    let mut queue: VecDeque<u32> = VecDeque::new();
    if let Some(inner) = index.get(&root) {
        let keys = map_keys(inner);
        queue = queue_of(&keys);
        proof {
            assert(idx[root] == inner@);
            assert forall|y: u32| inner@.contains_key(y) implies #[trigger] queue@.contains(y) by {
                assert(keys@.to_set().contains(y));
            }
            assert forall|j: int| 0 <= j < queue@.len() implies idx[root].contains_key(
                #[trigger] queue@[j],
            ) by {
                assert(keys@.to_set().contains(keys@[j]));
            }
        }
    }
    while queue.len() > 0
        invariant
            idx == dispatcher_index(index@),
            found@.finite(),
            forall|x: u32| #[trigger]
                found@.contains(x) ==> followers(idx, targets@, root).contains(x),
            forall|j: int| 0 <= j < queue@.len() ==> is_next(idx, root, found@, #[trigger] queue@[j]),
            forall|y: u32| #[trigger]
                down_step(idx, targets@, root, y, true) ==> found@.contains(y) || queue@.contains(y),
            forall|x: u32, y: u32|
                found@.contains(x) && #[trigger] down_step(idx, targets@, x, y, false)
                    ==> found@.contains(y) || queue@.contains(y),
        decreases 0x1_0000_0000 - found@.len(), queue@.len(),
    {
        let ghost queue0 = queue@;
        let ghost found0 = found@;
        proof {
            lemma_id_set_bound(found@);
        }
        let id: u32 = queue.pop_front().unwrap();
        assert(queue0[0] == id);
        assert forall|y: u32| queue0.contains(y) && y != id implies #[trigger] queue@.contains(y) by {
            let j = queue0.index_of(y);
            assert(queue@[j - 1] == y);
        }
        assert forall|j: int| 0 <= j < queue@.len() implies is_next(
            idx,
            root,
            found@,
            #[trigger] queue@[j],
        ) by {
            assert(queue@[j] == queue0[j + 1]);
        }
        if !targets.contains(&id) || found.contains(&id) {
            continue;
        }
        proof {
            assert(is_next(idx, root, found@, queue0[0]));
            if idx.contains_key(root) && idx[root].contains_key(id) {
                lemma_follow_first(idx, targets@, root, id);
            } else {
                let x = choose|x: u32|
                    #![trigger found@.contains(x)]
                    found@.contains(x) && idx.contains_key(x) && idx[x].contains_key(id)
                        && idx[x][id] == DispatcherType::NoShuffle;
                lemma_follow_next(idx, targets@, root, x, id);
            }
        }
        found.insert(id);
        proof {
            lemma_id_set_bound(found@);
        }
        assert forall|j: int| 0 <= j < queue@.len() implies is_next(
            idx,
            root,
            found@,
            #[trigger] queue@[j],
        ) by {
            assert(is_next(idx, root, found0, queue@[j]));
            if !(idx.contains_key(root) && idx[root].contains_key(queue@[j])) {
                let x = choose|x: u32|
                    #![trigger found0.contains(x)]
                    found0.contains(x) && idx.contains_key(x) && idx[x].contains_key(queue@[j])
                        && idx[x][queue@[j]] == DispatcherType::NoShuffle;
                assert(found@.contains(x));
            }
        }
        let ghost queue1 = queue@;
        if let Some(inner) = index.get(&id) {
            let keys = map_keys(inner);
            let mut i: usize = 0;
            assert(idx[id] == inner@);
            while i < keys.len()
                invariant
                    i <= keys.len(),
                    idx == dispatcher_index(index@),
                    idx.contains_key(id),
                    idx[id] == inner@,
                    found@.contains(id),
                    keys@.to_set() == inner@.dom(),
                    forall|y: u32| queue1.contains(y) ==> #[trigger] queue@.contains(y),
                    forall|j: int|
                        0 <= j < queue@.len() ==> is_next(idx, root, found@, #[trigger] queue@[j]),
                    forall|j: int|
                        0 <= j < i && inner@[#[trigger] keys@[j]] == DispatcherType::NoShuffle
                            ==> queue@.contains(keys@[j]),
                decreases keys.len() - i,
            {
                let k: u32 = keys[i];
                assert(keys@.to_set().contains(keys@[i as int]));
                let ghost queue2 = queue@;
                if *inner.get(&k).unwrap() == DispatcherType::NoShuffle {
                    queue.push_back(k);
                    proof {
                        assert(queue@[queue2.len() as int] == k);
                        assert forall|y: u32| queue2.contains(y) implies #[trigger] queue@.contains(
                            y,
                        ) by {
                            assert(queue@[queue2.index_of(y)] == y);
                        }
                        assert forall|j: int| 0 <= j < queue@.len() implies is_next(
                            idx,
                            root,
                            found@,
                            #[trigger] queue@[j],
                        ) by {
                            if j < queue2.len() {
                                assert(queue@[j] == queue2[j]);
                            } else {
                                assert(found@.contains(id));
                            }
                        }
                    }
                }
                i = i + 1;
            }
            proof {
                assert forall|y: u32| #[trigger]
                    down_step(idx, targets@, id, y, false) implies queue@.contains(y) by {
                    assert(keys@.to_set().contains(y));
                    let j = keys@.index_of(y);
                    assert(keys@[j] == y);
                }
            }
        }
    }
    proof {
        assert(forall|y: u32| !(#[trigger] queue@.contains(y)));
        assert forall|y: u32| followers(idx, targets@, root).contains(y) implies #[trigger] found@.contains(
            y,
        ) by {
            let path = choose|path: Seq<u32>| #[trigger]
                is_down_path(idx, targets@, path) && path.first() == root && path.last() == y;
            lemma_follow_closed(idx, targets@, root, found@, path);
        }
        assert(found@ =~= followers(idx, targets@, root));
    }
    found
}

/// Some operator of the tree reads a source with an inner stream.
pub open spec fn has_stream_source(node: StreamNode) -> bool
    decreases node,
{
    node.node_body == (NodeBody::Source { has_inner_stream: true }) || exists|i: int|
        0 <= i < node.input@.len() && has_stream_source(#[trigger] node.input@[i])
}

/// Whether some operator of the tree reads a source with an inner stream.
pub fn find_stream_source(node: &StreamNode) -> (res: bool)
    ensures
        res == has_stream_source(*node),
    decreases node,
{
    if let NodeBody::Source { has_inner_stream } = &node.node_body {
        if *has_inner_stream {
            return true;
        }
    }
    let mut i: usize = 0;
    while i < node.input.len()
        invariant
            i <= node.input.len(),
            node.node_body != (NodeBody::Source { has_inner_stream: true }),
            forall|j: int| 0 <= j < i ==> !has_stream_source(#[trigger] node.input@[j]),
        decreases node.input.len() - i,
    {
        let child = &node.input[i];
        if find_stream_source(child) {
            assert(has_stream_source(node.input@[i as int]));
            return true;
        }
        i = i + 1;
    }
    false
}

/// The fragment reads a source whose splits have to be placed.
pub open spec fn reads_stream_source(fragment: &CustomFragmentInfo, source_flag: u32) -> bool {
    (fragment.fragment_type_mask & source_flag) != 0 && (fragment.actor_template.nodes matches Some(
        node,
    ) && has_stream_source(node))
}

/// The indexes that the steps of a reschedule share.
pub struct RescheduleContext<'a> {
    /// The worker of each parallel unit.
    pub parallel_unit_id_to_worker_id: BTreeMap<u32, u32>,
    /// All actors.
    pub actor_map: BTreeMap<u32, &'a CustomActorInfo>,
    /// Where each actor runs.
    pub actor_status: BTreeMap<u32, ActorStatus>,
    /// All fragments.
    pub fragment_map: BTreeMap<u32, &'a CustomFragmentInfo>,
    /// All workers.
    pub worker_nodes: BTreeMap<u32, &'a WorkerNode>,
    /// What reaches each actor from upstream.
    pub upstream_dispatchers: BTreeMap<u32, Vec<(u32, u64, DispatcherType)>>,
    /// The rescheduled fragments that read a source with splits.
    pub stream_source_fragment_ids: BTreeSet<u32>,
    /// The downstream ends of `NoShuffle` relations.
    pub no_shuffle_target_fragment_ids: BTreeSet<u32>,
    /// The upstream ends of `NoShuffle` relations.
    pub no_shuffle_source_fragment_ids: BTreeSet<u32>,
    /// The type of the dispatcher between two fragments.
    pub fragment_dispatcher_map: BTreeMap<u32, BTreeMap<u32, DispatcherType>>,
}

/// The upstream ends of `NoShuffle` relations among all actors.
pub open spec fn sources_of(tables: Seq<TableFragments>) -> Set<u32> {
    no_shuffle_sources(
        actors_of(tables),
        links_from(first_actors(actors_of(tables)), actors_of(tables)),
    )
}

/// The downstream ends of `NoShuffle` relations among all actors.
pub open spec fn targets_of(tables: Seq<TableFragments>) -> Set<u32> {
    no_shuffle_targets(
        actors_of(tables),
        links_from(first_actors(actors_of(tables)), actors_of(tables)),
    )
}

/// The type of the dispatcher between two fragments, over all actors.
pub open spec fn dispatchers_of(tables: Seq<TableFragments>) -> Map<u32, Map<u32, DispatcherType>> {
    index_links(Map::empty(), actors_of(tables), links(actors_of(tables)))
}

/// The context holds the indexes of the given workers and jobs.
pub open spec fn is_context(
    ctx: RescheduleContext,
    workers: Seq<WorkerNode>,
    tables: Seq<TableFragments>,
    roots: Map<u32, UnitChange>,
    source_flag: u32,
) -> bool {
    &&& ctx.worker_nodes@ == worker_map(workers)
    &&& ctx.parallel_unit_id_to_worker_id@ == unit_owners(worker_map(workers), false)
    &&& ctx.actor_map@ == actors_of(tables)
    &&& ctx.actor_status@ == statuses_of(tables)
    &&& ctx.fragment_map@ == fragments_of(tables)
    &&& is_upstream_index(ctx.upstream_dispatchers@, links(actors_of(tables)))
    &&& ctx.no_shuffle_source_fragment_ids@ == sources_of(tables)
    &&& ctx.no_shuffle_target_fragment_ids@ == targets_of(tables)
    &&& dispatcher_index(ctx.fragment_dispatcher_map@) == dispatchers_of(tables)
    &&& forall|f: u32| #[trigger]
        ctx.stream_source_fragment_ids@.contains(f) <==> roots.contains_key(f)
            && reads_stream_source(fragments_of(tables)[f], source_flag)
}

/// Fragment `x` follows the reschedule of root `r`.
pub open spec fn follows(tables: Seq<TableFragments>, r: u32, x: u32) -> bool {
    sources_of(tables).contains(r) && followers(
        dispatchers_of(tables),
        targets_of(tables),
        r,
    ).contains(x)
}

/// The plan completed for the fragments that follow: they have the plan of a root that they
/// follow, and the roots keep theirs.
pub open spec fn completed(
    tables: Seq<TableFragments>,
    roots: Map<u32, UnitChange>,
    plans: Map<u32, UnitChange>,
) -> bool {
    forall|x: u32|
        (#[trigger] plans.contains_key(x) <==> roots.contains_key(x) || exists|r: u32|
            roots.contains_key(r) && #[trigger] follows(tables, r, x)) && (plans.contains_key(x)
            ==> (roots.contains_key(x) && plans[x] == roots[x]) || exists|r: u32|
            roots.contains_key(r) && #[trigger] follows(tables, r, x) && plans[x] == roots[r])
}

/// The plans before they are judged: resolved to the roots where that is asked for.
pub open spec fn is_rooted(
    tables: Seq<TableFragments>,
    resolve: bool,
    plans: Map<u32, UnitChange>,
    roots: Map<u32, UnitChange>,
) -> bool {
    if resolve {
        resolved(fragments_of(tables), sources_of(tables), targets_of(tables), plans, roots)
    } else {
        roots == plans
    }
}

/// The first refusal of the rooted plans.
pub open spec fn refusal(
    workers: Seq<WorkerNode>,
    tables: Seq<TableFragments>,
    roots: Map<u32, UnitChange>,
) -> Option<ScaleError> {
    first_refused(
        ascending_of(roots.dom()),
        roots,
        fragments_of(tables),
        states_of(tables),
        statuses_of(tables),
        targets_of(tables),
        unit_owners(worker_map(workers), false),
    )
}

/// The first move to an unschedulable parallel unit.
pub open spec fn unschedulable_move(
    workers: Seq<WorkerNode>,
    plans: Map<u32, UnitChange>,
) -> Option<(u32, u32, u32)> {
    first_unschedulable(
        ascending_of(plans.dom()),
        plans,
        unit_owners(worker_map(workers), true),
    )
}

/// Why a reschedule is refused. Where several fragments are in the way, any may be named.
pub open spec fn is_refused(
    workers: Seq<WorkerNode>,
    tables: Seq<TableFragments>,
    plans: Map<u32, UnitChange>,
    resolve: bool,
    parallelisms: Option<Map<u32, TableParallelism>>,
    e: ScaleError,
) -> bool {
    if workers.len() == 0 {
        e == ScaleError::NoComputeNode
    } else {
        match unschedulable_move(workers, plans) {
            Some((fragment_id, parallel_unit_id, worker_id)) => e
                == (ScaleError::UnschedulableParallelUnit {
                fragment_id,
                parallel_unit_id,
                worker_id,
            }),
            None => {
                let fragments = fragments_of(tables);
                let sources = sources_of(tables);
                let targets = targets_of(tables);
                if resolve && !consistent(fragments, sources, targets, plans) {
                    e matches ScaleError::InconsistentNoShufflePlan {
                        fragment_id,
                        upstream_fragment_id,
                    } && conflicting(
                        fragments,
                        sources,
                        targets,
                        plans,
                        fragment_id,
                        upstream_fragment_id,
                    )
                } else {
                    ||| resolve && parallelisms is Some && is_upstream_conflict(
                        tables,
                        plans.dom(),
                        parallelisms->Some_0,
                        e,
                    )
                    ||| exists|roots: Map<u32, UnitChange>| #[trigger]
                        is_rooted(tables, resolve, plans, roots) && refusal(workers, tables, roots)
                            == Some(e)
                }
            },
        }
    }
}

/// A table upstream of one that was set by hand has another parallelism.
pub open spec fn is_upstream_conflict(
    tables: Seq<TableFragments>,
    ids: Set<u32>,
    before: Map<u32, TableParallelism>,
    e: ScaleError,
) -> bool {
    e matches ScaleError::UpstreamTableParallelism { upstream_table_id, parallelism }
        && parallelism != TableParallelism::Custom && before.contains_key(upstream_table_id)
        && before[upstream_table_id] == parallelism && made_custom(
        fragments_of(tables),
        sources_of(tables),
        targets_of(tables),
        ids,
        tables_of(tables),
        before,
        upstream_table_id,
    )
}

/// What becomes of the parallelisms of the tables.
pub open spec fn parallelisms_resolved(
    tables: Seq<TableFragments>,
    ids: Set<u32>,
    resolve: bool,
    before: Option<BTreeMap<u32, TableParallelism>>,
    after: Option<BTreeMap<u32, TableParallelism>>,
) -> bool {
    if resolve && before is Some {
        after is Some && exists|par: Map<u32, TableParallelism>| #[trigger]
            custom_passed_up(
                fragments_of(tables),
                sources_of(tables),
                targets_of(tables),
                ids,
                tables_of(tables),
                before->Some_0@,
                par,
            ) && after->Some_0@ == par.remove_keys(
                downstream_tables(
                    fragments_of(tables),
                    sources_of(tables),
                    targets_of(tables),
                    ids,
                    tables_of(tables),
                ),
            )
    } else {
        after == before
    }
}

/// Both ends of every `NoShuffle` relation are known fragments.
pub proof fn lemma_ends_known(tables: Seq<TableFragments>)
    requires
        tables_valid(tables),
        forall|i: int| 0 <= i < tables.len() ==> (#[trigger] tables[i]).fragments@.dom().finite(),
        actors_of(tables).dom().finite(),
    ensures
        forall|f: u32| #[trigger]
            sources_of(tables).contains(f) ==> fragments_of(tables).contains_key(f),
        forall|f: u32| #[trigger]
            targets_of(tables).contains(f) ==> fragments_of(tables).contains_key(f),
{
    let actors = actors_of(tables);
    let firsts = first_actors(actors);
    let ls = links_from(firsts, actors);
    lemma_actors_of(tables);
    lemma_links_from(firsts, actors);
    assert forall|id: u32| firsts.contains(id) implies #[trigger] actors.contains_key(id) by {
        let ids = ascending_of(actors.dom());
        ids.lemma_filter_pred(|id: u32| is_first_actor(actors, id), firsts.index_of(id));
    }
    assert forall|f: u32| #[trigger] sources_of(tables).contains(f) implies fragments_of(
        tables,
    ).contains_key(f) by {
        let i = choose|i: int|
            0 <= i < ls.len() && is_no_shuffle(actors, #[trigger] ls[i]) && ls[i].fragment_id == f;
        assert(firsts.contains(ls[i].actor_id));
        assert(actors.contains_key(ls[i].actor_id));
    }
    assert forall|f: u32| #[trigger] targets_of(tables).contains(f) implies fragments_of(
        tables,
    ).contains_key(f) by {
        let i = choose|i: int|
            0 <= i < ls.len() && is_no_shuffle(actors, #[trigger] ls[i])
                && actors[ls[i].downstream_actor_id].fragment_id == f;
        assert(actors.contains_key(ls[i].downstream_actor_id));
    }
}

/// The plans that the followers of the given roots get; of two roots that a fragment follows, the
/// later one counts.
pub open spec fn copies_from(
    ids: Seq<u32>,
    roots: Map<u32, UnitChange>,
    index: Map<u32, Map<u32, DispatcherType>>,
    sources: Set<u32>,
    targets: Set<u32>,
) -> Map<u32, UnitChange>
    decreases ids.len(),
{
    if ids.len() == 0 {
        Map::empty()
    } else {
        let m = copies_from(ids.drop_last(), roots, index, sources, targets);
        if sources.contains(ids.last()) {
            m.union_prefer_right(
                constant(followers(index, targets, ids.last()), roots[ids.last()]),
            )
        } else {
            m
        }
    }
}

/// The plan completed for the fragments that follow.
pub open spec fn with_followers(
    tables: Seq<TableFragments>,
    roots: Map<u32, UnitChange>,
) -> Map<u32, UnitChange> {
    roots.union_prefer_right(
        copies_from(
            ascending_of(roots.dom()),
            roots,
            dispatchers_of(tables),
            sources_of(tables),
            targets_of(tables),
        ),
    )
}

proof fn lemma_copies_from(
    ids: Seq<u32>,
    roots: Map<u32, UnitChange>,
    index: Map<u32, Map<u32, DispatcherType>>,
    sources: Set<u32>,
    targets: Set<u32>,
    x: u32,
)
    ensures
        copies_from(ids, roots, index, sources, targets).contains_key(x) <==> exists|i: int|
            0 <= i < ids.len() && sources.contains(#[trigger] ids[i]) && followers(
                index,
                targets,
                ids[i],
            ).contains(x),
        copies_from(ids, roots, index, sources, targets).contains_key(x) ==> exists|i: int|
            0 <= i < ids.len() && sources.contains(#[trigger] ids[i]) && followers(
                index,
                targets,
                ids[i],
            ).contains(x) && copies_from(ids, roots, index, sources, targets)[x] == roots[ids[i]],
    decreases ids.len(),
{
    if ids.len() > 0 {
        let ids0 = ids.drop_last();
        lemma_copies_from(ids0, roots, index, sources, targets, x);
        let m = copies_from(ids, roots, index, sources, targets);
        let m0 = copies_from(ids0, roots, index, sources, targets);
        let l = ids.len() - 1;
        assert(ids[l] == ids.last());
        if m0.contains_key(x) {
            let i = choose|i: int|
                0 <= i < ids0.len() && sources.contains(#[trigger] ids0[i]) && followers(
                    index,
                    targets,
                    ids0[i],
                ).contains(x) && m0[x] == roots[ids0[i]];
            assert(ids[i] == ids0[i]);
        }
        if exists|i: int|
            0 <= i < ids.len() && sources.contains(#[trigger] ids[i]) && followers(
                index,
                targets,
                ids[i],
            ).contains(x) {
            let i = choose|i: int|
                0 <= i < ids.len() && sources.contains(#[trigger] ids[i]) && followers(
                    index,
                    targets,
                    ids[i],
                ).contains(x);
            if i < l {
                assert(ids0[i] == ids[i]);
            }
        }
    }
}

/// Completing the plan gives every fragment that follows a root the plan of such a root, adds no
/// other fragment, and leaves the roots alone where no root is itself a follower.
pub proof fn lemma_completed(tables: Seq<TableFragments>, roots: Map<u32, UnitChange>)
    requires
        roots.dom().finite(),
        forall|r: u32| #[trigger] roots.contains_key(r) ==> !targets_of(tables).contains(r),
    ensures
        completed(tables, roots, with_followers(tables, roots)),
        forall|r: u32| #[trigger]
            roots.contains_key(r) ==> with_followers(tables, roots)[r] == roots[r],
{
    let ids = ascending_of(roots.dom());
    let index = dispatchers_of(tables);
    let sources = sources_of(tables);
    let targets = targets_of(tables);
    crate::common::collections::lemma_ascending_exists(roots.dom());
    let plans = with_followers(tables, roots);
    assert forall|x: u32|
        (#[trigger] plans.contains_key(x) <==> roots.contains_key(x) || exists|r: u32|
            roots.contains_key(r) && #[trigger] follows(tables, r, x)) && (plans.contains_key(x)
            ==> (roots.contains_key(x) && plans[x] == roots[x]) || exists|r: u32|
            roots.contains_key(r) && #[trigger] follows(tables, r, x) && plans[x] == roots[r]) by {
        lemma_copies_from(ids, roots, index, sources, targets, x);
        let copies = copies_from(ids, roots, index, sources, targets);
        if copies.contains_key(x) {
            let i = choose|i: int|
                0 <= i < ids.len() && sources.contains(#[trigger] ids[i]) && followers(
                    index,
                    targets,
                    ids[i],
                ).contains(x) && copies[x] == roots[ids[i]];
            assert(ids.to_set().contains(ids[i]));
            assert(follows(tables, ids[i], x));
        }
        if exists|r: u32| roots.contains_key(r) && #[trigger] follows(tables, r, x) {
            let r = choose|r: u32| roots.contains_key(r) && #[trigger] follows(tables, r, x);
            assert(ids.to_set().contains(r));
            let i = ids.index_of(r);
            assert(ids[i] == r);
        }
    }
    assert forall|r: u32| #[trigger] roots.contains_key(r) implies plans[r] == roots[r] by {
        lemma_copies_from(ids, roots, index, sources, targets, r);
        let copies = copies_from(ids, roots, index, sources, targets);
        if copies.contains_key(r) {
            let i = choose|i: int|
                0 <= i < ids.len() && sources.contains(#[trigger] ids[i]) && followers(
                    index,
                    targets,
                    ids[i],
                ).contains(r);
            let path = choose|path: Seq<u32>| #[trigger]
                is_down_path(index, targets, path) && path.first() == ids[i] && path.last() == r;
            let k = path.len() - 2;
            assert(down_step(index, targets, path[k], path[k + 1], k == 0));
        }
    }
}

/// Gives all fragments of the set the same plan.
fn add_copies(
    copies: &mut BTreeMap<u32, ParallelUnitReschedule>,
    set: &BTreeSet<u32>,
    plan: &ParallelUnitReschedule,
)
    ensures
        plans_of(final(copies)@) == plans_of(old(copies)@).union_prefer_right(
            constant(set@, plan@),
        ),
{
    let keys = set_to_vec(set);
    let ghost m0 = plans_of(copies@);
    let mut i: usize = 0;
    assert(plans_of(copies@) =~= m0.union_prefer_right(constant(keys@.take(0).to_set(), plan@)));
    while i < keys.len()
        invariant
            i <= keys.len(),
            plans_of(copies@) == m0.union_prefer_right(
                constant(keys@.take(i as int).to_set(), plan@),
            ),
        decreases keys.len() - i,
    {
        let ghost m1 = copies@;
        copies.insert(keys[i], plan.copy_plan());
        proof {
            assert(plans_of(copies@) =~= plans_of(m1).insert(keys@[i as int], plan@));
            assert(keys@.take(i + 1) =~= keys@.take(i as int).push(keys@[i as int]));
            lemma_to_set_push(keys@.take(i as int), keys@[i as int]);
            assert(plans_of(copies@) =~= m0.union_prefer_right(
                constant(keys@.take(i + 1).to_set(), plan@),
            ));
        }
        i = i + 1;
    }
    assert(keys@.take(i as int) =~= keys@);
}

/// The plans of the followers of all roots.
fn collect_copies(
    reschedule: &BTreeMap<u32, ParallelUnitReschedule>,
    index: &BTreeMap<u32, BTreeMap<u32, DispatcherType>>,
    sources: &BTreeSet<u32>,
    targets: &BTreeSet<u32>,
) -> (res: BTreeMap<u32, ParallelUnitReschedule>)
    ensures
        plans_of(res@) == copies_from(
            ascending_of(reschedule@.dom()),
            plans_of(reschedule@),
            dispatcher_index(index@),
            sources@,
            targets@,
        ),
{
    let ids = map_keys(reschedule);
    let ghost roots = plans_of(reschedule@);
    let ghost idx = dispatcher_index(index@);
    let mut res: BTreeMap<u32, ParallelUnitReschedule> = BTreeMap::new();
    let mut i: usize = 0;
    assert(ids@.take(0) =~= Seq::<u32>::empty());
    assert(plans_of(res@) =~= Map::<u32, UnitChange>::empty());
    while i < ids.len()
        invariant
            i <= ids.len(),
            ids@.to_set() == reschedule@.dom(),
            roots == plans_of(reschedule@),
            idx == dispatcher_index(index@),
            plans_of(res@) == copies_from(ids@.take(i as int), roots, idx, sources@, targets@),
        decreases ids.len() - i,
    {
        let id: u32 = ids[i];
        assert(ids@.to_set().contains(ids@[i as int]));
        assert(ids@.take(i + 1).drop_last() =~= ids@.take(i as int));
        assert(ids@.take(i + 1).last() == id);
        if sources.contains(&id) {
            let set = collect_followers(id, index, targets);
            add_copies(&mut res, &set, reschedule.get(&id).unwrap());
        }
        i = i + 1;
    }
    assert(ids@.take(i as int) =~= ids@);
    res
}

/// Moves all plans of `copies` into `reschedule`.
fn move_plans(
    reschedule: &mut BTreeMap<u32, ParallelUnitReschedule>,
    copies: BTreeMap<u32, ParallelUnitReschedule>,
)
    ensures
        plans_of(final(reschedule)@) == plans_of(old(reschedule)@).union_prefer_right(
            plans_of(copies@),
        ),
{
    let keys = map_keys(&copies);
    let ghost all = plans_of(copies@);
    let ghost m0 = plans_of(reschedule@);
    let mut copies = copies;
    let mut i: usize = 0;
    assert(plans_of(reschedule@) =~= m0.union_prefer_right(all.restrict(keys@.take(0).to_set())));
    while i < keys.len()
        invariant
            i <= keys.len(),
            ascending(keys@),
            keys@.to_set() == all.dom(),
            forall|j: int|
                i <= j < keys@.len() ==> copies@.contains_key(#[trigger] keys@[j])
                    && copies@[keys@[j]]@ == all[keys@[j]],
            plans_of(reschedule@) == m0.union_prefer_right(
                all.restrict(keys@.take(i as int).to_set()),
            ),
        decreases keys.len() - i,
    {
        let k: u32 = keys[i];
        assert(copies@.contains_key(keys@[i as int]));
        assert(keys@.to_set().contains(keys@[i as int]));
        let ghost m1 = reschedule@;
        let plan = copies.remove(&k).unwrap();
        assert(plan@ == all[k]);
        reschedule.insert(k, plan);
        proof {
            assert(plans_of(reschedule@) =~= plans_of(m1).insert(k, all[k]));
            assert(keys@.take(i + 1) =~= keys@.take(i as int).push(k));
            lemma_to_set_push(keys@.take(i as int), k);
            assert(plans_of(reschedule@) =~= m0.union_prefer_right(
                all.restrict(keys@.take(i + 1).to_set()),
            ));
        }
        i = i + 1;
    }
    assert(keys@.take(i as int) =~= keys@);
    assert(all.restrict(keys@.to_set()) =~= all);
}

/// The rescheduled fragments that read a source with splits.
fn collect_stream_sources(
    reschedule: &BTreeMap<u32, ParallelUnitReschedule>,
    fragments: &BTreeMap<u32, &CustomFragmentInfo>,
    source_flag: u32,
) -> (res: BTreeSet<u32>)
    requires
        forall|f: u32| #[trigger] reschedule@.contains_key(f) ==> fragments@.contains_key(f),
    ensures
        forall|f: u32| #[trigger]
            res@.contains(f) <==> reschedule@.contains_key(f) && reads_stream_source(
                fragments@[f],
                source_flag,
            ),
{
    let ids = map_keys(reschedule);
    let mut res: BTreeSet<u32> = BTreeSet::new();
    let mut i: usize = 0;
    while i < ids.len()
        invariant
            i <= ids.len(),
            ids@.to_set() == reschedule@.dom(),
            forall|f: u32| #[trigger] reschedule@.contains_key(f) ==> fragments@.contains_key(f),
            forall|f: u32| #[trigger]
                res@.contains(f) <==> ids@.take(i as int).to_set().contains(f)
                    && reads_stream_source(fragments@[f], source_flag),
        decreases ids.len() - i,
    {
        let id: u32 = ids[i];
        assert(ids@.to_set().contains(ids@[i as int]));
        assert(reschedule@.contains_key(id));
        let fragment: &CustomFragmentInfo = *fragments.get(&id).unwrap();
        if (fragment.get_fragment_type_mask() & source_flag) != 0 {
            if let Some(node) = &fragment.actor_template.nodes {
                if find_stream_source(node) {
                    res.insert(id);
                }
            }
        }
        proof {
            assert(ids@.take(i + 1) =~= ids@.take(i as int).push(id));
            lemma_to_set_push(ids@.take(i as int), id);
        }
        i = i + 1;
    }
    assert(ids@.take(i as int) =~= ids@);
    res
}

/// Checks the reschedule, completes it for the fragments that follow it, and builds the indexes
/// that its further steps need.
pub fn build_reschedule_context<'a>(
    workers: &'a Vec<WorkerNode>,
    tables: &'a Vec<TableFragments>,
    reschedule: &mut BTreeMap<u32, ParallelUnitReschedule>,
    options: RescheduleOptions,
    table_parallelisms: &mut Option<BTreeMap<u32, TableParallelism>>,
    source_flag: u32,
) -> (res: Result<RescheduleContext<'a>, ScaleError>)
    requires
        tables_valid(tables@),
        forall|roots: Map<u32, UnitChange>, f: u32|
            #![trigger is_rooted(
                tables@,
                options.resolve_no_shuffle_upstream,
                plans_of(old(reschedule)@),
                roots,
            ), roots.contains_key(f)]
            is_rooted(
                tables@,
                options.resolve_no_shuffle_upstream,
                plans_of(old(reschedule)@),
                roots,
            ) && roots.contains_key(f) && (fragments_of(
                tables@,
            )[f].fragment_type_mask & source_flag) != 0 ==> fragments_of(
                tables@,
            )[f].actor_template.nodes is Some,
    ensures
        res matches Ok(ctx) ==> workers.len() > 0 && unschedulable_move(
            workers@,
            plans_of(old(reschedule)@),
        ) is None && exists|roots: Map<u32, UnitChange>| #[trigger]
            is_rooted(
                tables@,
                options.resolve_no_shuffle_upstream,
                plans_of(old(reschedule)@),
                roots,
            ) && refusal(workers@, tables@, roots) is None && is_context(
                ctx,
                workers@,
                tables@,
                roots,
                source_flag,
            ) && plans_of(final(reschedule)@) == with_followers(tables@, roots),
        res is Ok ==> parallelisms_resolved(
            tables@,
            old(reschedule)@.dom(),
            options.resolve_no_shuffle_upstream,
            *old(table_parallelisms),
            *final(table_parallelisms),
        ),
        res matches Err(e) ==> is_refused(
            workers@,
            tables@,
            plans_of(old(reschedule)@),
            options.resolve_no_shuffle_upstream,
            (match *old(table_parallelisms) {
                Some(m) => Some(m@),
                None => None,
            }),
            e,
        ),
{
    let ghost plans0 = plans_of(reschedule@);
    let worker_nodes = collect_workers(workers);
    if workers.len() == 0 {
        return Err(ScaleError::NoComputeNode);
    }
    assert(plans0.dom() =~= reschedule@.dom());
    let unschedulable = collect_units(&worker_nodes, true);
    if let Some((fragment_id, parallel_unit_id, worker_id)) = find_unschedulable(
        reschedule,
        &unschedulable,
    ) {
        return Err(
            ScaleError::UnschedulableParallelUnit { fragment_id, parallel_unit_id, worker_id },
        );
    }
    let parallel_unit_id_to_worker_id = collect_units(&worker_nodes, false);
    let actor_map = collect_actors(tables);
    let fragment_map = collect_fragments(tables);
    let actor_status = collect_statuses(tables);
    let fragment_state = collect_states(tables);
    let fragment_to_table = collect_tables(tables);
    proof {
        lemma_fragments_of(tables@);
        lemma_ends_known(tables@);
    }
    let mut no_shuffle_source_fragment_ids: BTreeSet<u32> = BTreeSet::new();
    let mut no_shuffle_target_fragment_ids: BTreeSet<u32> = BTreeSet::new();
    build_no_shuffle_relation_index(
        &actor_map,
        &mut no_shuffle_source_fragment_ids,
        &mut no_shuffle_target_fragment_ids,
    );
    assert(no_shuffle_source_fragment_ids@ =~= sources_of(tables@));
    assert(no_shuffle_target_fragment_ids@ =~= targets_of(tables@));
    if options.resolve_no_shuffle_upstream {
        let original_reschedule_keys: BTreeSet<u32> = key_set(reschedule);
        if let Err(e) = resolve_no_shuffle_upstream_fragments(
            reschedule,
            &fragment_map,
            &no_shuffle_source_fragment_ids,
            &no_shuffle_target_fragment_ids,
        ) {
            return Err(e);
        }
        let mut taken: Option<BTreeMap<u32, TableParallelism>> = table_parallelisms.take();
        if let Some(parallelisms) = taken {
            let mut parallelisms = parallelisms;
            let ghost before = parallelisms@;
            let resolution = resolve_no_shuffle_upstream_tables(
                &original_reschedule_keys,
                &fragment_map,
                &no_shuffle_source_fragment_ids,
                &no_shuffle_target_fragment_ids,
                &fragment_to_table,
                &mut parallelisms,
            );
            *table_parallelisms = Some(parallelisms);
            if let Err(e) = resolution {
                assert(is_upstream_conflict(tables@, plans0.dom(), before, e));
                return Err(e);
            }
        }
    }
    let ghost roots = plans_of(reschedule@);
    assert(is_rooted(tables@, options.resolve_no_shuffle_upstream, plans0, roots));
    assert(roots.dom() =~= reschedule@.dom());
    let mut fragment_dispatcher_map: BTreeMap<u32, BTreeMap<u32, DispatcherType>> = BTreeMap::new();
    assert(dispatcher_index(fragment_dispatcher_map@) =~= Map::empty());
    build_fragment_dispatcher_index(&actor_map, &mut fragment_dispatcher_map);
    let upstream_dispatchers = collect_upstream_dispatchers(&actor_map);
    if let Some(e) = find_refused(
        reschedule,
        &fragment_map,
        &fragment_state,
        &actor_status,
        &no_shuffle_target_fragment_ids,
        &parallel_unit_id_to_worker_id,
    ) {
        return Err(e);
    }
    let stream_source_fragment_ids = collect_stream_sources(
        reschedule,
        &fragment_map,
        source_flag,
    );
    let copies = collect_copies(
        reschedule,
        &fragment_dispatcher_map,
        &no_shuffle_source_fragment_ids,
        &no_shuffle_target_fragment_ids,
    );
    // The followers of a reschedule share its plan.
    move_plans(reschedule, copies);
    Ok(
        RescheduleContext {
            parallel_unit_id_to_worker_id,
            actor_map,
            actor_status,
            fragment_map,
            worker_nodes,
            upstream_dispatchers,
            stream_source_fragment_ids,
            no_shuffle_target_fragment_ids,
            no_shuffle_source_fragment_ids,
            fragment_dispatcher_map,
        },
    )
}

} // verus!
