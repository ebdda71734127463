//! Resolution of reschedules along `NoShuffle` relations.
//!
//! The two ends of a `NoShuffle` edge have the same number of actors in the same places, so a plan
//! for the downstream fragment is a plan for the upstream one.
use crate::common::collections::{lemma_id_set_bound, map_keys};
use crate::scale::model::{CustomFragmentInfo, PlanOps, ScaleError, TableParallelism};
use std::collections::BTreeMap;
use std::collections::BTreeSet;
use std::collections::VecDeque;
use vstd::prelude::*;

verus! {

broadcast use {
    vstd::std_specs::btree::group_btree_axioms,
    vstd::laws_cmp::group_laws_cmp,
};

/// A plan of fragment `f` is also one of its upstream fragment `u`.
pub open spec fn passes_up(
    fragments: Map<u32, &CustomFragmentInfo>,
    sources: Set<u32>,
    targets: Set<u32>,
    f: u32,
    u: u32,
) -> bool {
    targets.contains(f) && fragments.contains_key(f)
        && fragments[f].upstream_fragment_ids@.contains(u) && sources.contains(u)
}

/// Each fragment of the path passes its plan up to the next one.
pub open spec fn is_path(
    fragments: Map<u32, &CustomFragmentInfo>,
    sources: Set<u32>,
    targets: Set<u32>,
    path: Seq<u32>,
) -> bool {
    path.len() >= 1 && forall|i: int|
        #![trigger path[i]]
        0 <= i < path.len() - 1 ==> passes_up(fragments, sources, targets, path[i], path[i + 1])
}

/// A plan of fragment `a` reaches fragment `x`.
pub open spec fn reaches(
    fragments: Map<u32, &CustomFragmentInfo>,
    sources: Set<u32>,
    targets: Set<u32>,
    a: u32,
    x: u32,
) -> bool {
    exists|path: Seq<u32>| #[trigger]
        is_path(fragments, sources, targets, path) && path.first() == a && path.last() == x
}

/// Plans that reach the same fragment are the same plan.
pub open spec fn consistent<P>(
    fragments: Map<u32, &CustomFragmentInfo>,
    sources: Set<u32>,
    targets: Set<u32>,
    plans: Map<u32, P>,
) -> bool {
    forall|a: u32, b: u32, x: u32|
        plans.contains_key(a) && plans.contains_key(b) && #[trigger] reaches(
            fragments,
            sources,
            targets,
            a,
            x,
        ) && #[trigger] reaches(fragments, sources, targets, b, x) ==> plans[a] == plans[b]
}

/// The fragment `f` passes its plan up to `u`, and different plans reach the two.
pub open spec fn conflicting<P>(
    fragments: Map<u32, &CustomFragmentInfo>,
    sources: Set<u32>,
    targets: Set<u32>,
    plans: Map<u32, P>,
    f: u32,
    u: u32,
) -> bool {
    passes_up(fragments, sources, targets, f, u) && exists|a: u32, b: u32|
        plans.contains_key(a) && plans.contains_key(b) && #[trigger] reaches(
            fragments,
            sources,
            targets,
            a,
            f,
        ) && #[trigger] reaches(fragments, sources, targets, b, u) && plans[a] != plans[b]
}

/// The plan of some fragment reaches `x`.
pub open spec fn reached<P>(
    fragments: Map<u32, &CustomFragmentInfo>,
    sources: Set<u32>,
    targets: Set<u32>,
    plans: Map<u32, P>,
    x: u32,
) -> bool {
    exists|a: u32| plans.contains_key(a) && #[trigger] reaches(fragments, sources, targets, a, x)
}

/// What the plans in a map say.
pub open spec fn plans_of<T: View>(m: Map<u32, T>) -> Map<u32, T::V> {
    Map::new(|k: u32| m.contains_key(k), |k: u32| m[k]@)
}

/// The plans moved to the roots of the `NoShuffle` trees: exactly the fragments that a plan
/// reaches and that are not themselves downstream have one, and it is the plan that reaches them.
pub open spec fn resolved<P>(
    fragments: Map<u32, &CustomFragmentInfo>,
    sources: Set<u32>,
    targets: Set<u32>,
    plans: Map<u32, P>,
    roots: Map<u32, P>,
) -> bool {
    &&& forall|x: u32| #[trigger]
        roots.contains_key(x) <==> !targets.contains(x) && reached(
            fragments,
            sources,
            targets,
            plans,
            x,
        )
    &&& forall|a: u32, x: u32|
        plans.contains_key(a) && roots.contains_key(x) && #[trigger] reaches(
            fragments,
            sources,
            targets,
            a,
            x,
        ) ==> roots[x] == plans[a]
}

/// No plan is lost or changed, and every fragment with a plan is one that a plan reaches.
pub open spec fn extended<P>(
    fragments: Map<u32, &CustomFragmentInfo>,
    sources: Set<u32>,
    targets: Set<u32>,
    plans: Map<u32, P>,
    more: Map<u32, P>,
) -> bool {
    &&& forall|k: u32| #[trigger] plans.contains_key(k) ==> more.contains_key(k) && more[k] == plans[k]
    &&& forall|k: u32| #[trigger]
        more.contains_key(k) ==> reached(fragments, sources, targets, plans, k)
}

/// Every plan reaches its own fragment.
pub proof fn lemma_reaches_self(
    fragments: Map<u32, &CustomFragmentInfo>,
    sources: Set<u32>,
    targets: Set<u32>,
    a: u32,
)
    ensures
        reaches(fragments, sources, targets, a, a),
{
    let path = seq![a];
    assert(is_path(fragments, sources, targets, path));
    assert(path.first() == a && path.last() == a);
}

/// What reaches a fragment reaches those that it passes its plan up to.
pub proof fn lemma_reaches_up(
    fragments: Map<u32, &CustomFragmentInfo>,
    sources: Set<u32>,
    targets: Set<u32>,
    a: u32,
    f: u32,
    u: u32,
)
    requires
        reaches(fragments, sources, targets, a, f),
        passes_up(fragments, sources, targets, f, u),
    ensures
        reaches(fragments, sources, targets, a, u),
{
    let path = choose|path: Seq<u32>| #[trigger]
        is_path(fragments, sources, targets, path) && path.first() == a && path.last() == f;
    let longer = path.push(u);
    assert(longer.first() == a && longer.last() == u);
    assert forall|i: int| #![trigger longer[i]] 0 <= i < longer.len() - 1 implies passes_up(
        fragments,
        sources,
        targets,
        longer[i],
        longer[i + 1],
    ) by {
        assert(longer[i] == path[i]);
        if i + 1 < path.len() {
            assert(longer[i + 1] == path[i + 1]);
        }
    }
    assert(is_path(fragments, sources, targets, longer));
}

/// The map of plans is closed at fragment `f`: those that it passes its plan up to have it.
spec fn closed_at<P>(
    fragments: Map<u32, &CustomFragmentInfo>,
    sources: Set<u32>,
    targets: Set<u32>,
    m: Map<u32, P>,
    f: u32,
) -> bool {
    forall|u: u32| #[trigger]
        passes_up(fragments, sources, targets, f, u) ==> m.contains_key(u) && m[u] == m[f]
}

proof fn lemma_path_closed<P>(
    fragments: Map<u32, &CustomFragmentInfo>,
    sources: Set<u32>,
    targets: Set<u32>,
    m: Map<u32, P>,
    path: Seq<u32>,
)
    requires
        is_path(fragments, sources, targets, path),
        m.contains_key(path.first()),
        forall|f: u32| #[trigger] m.contains_key(f) ==> closed_at(fragments, sources, targets, m, f),
    ensures
        m.contains_key(path.last()),
        m[path.last()] == m[path.first()],
    decreases path.len(),
{
    if path.len() > 1 {
        let shorter = path.drop_last();
        assert(shorter.first() == path.first());
        assert forall|i: int| #![trigger shorter[i]] 0 <= i < shorter.len() - 1 implies passes_up(
            fragments,
            sources,
            targets,
            shorter[i],
            shorter[i + 1],
        ) by {
            assert(shorter[i] == path[i] && shorter[i + 1] == path[i + 1]);
        }
        lemma_path_closed(fragments, sources, targets, m, shorter);
        let k = path.len() - 2;
        assert(passes_up(fragments, sources, targets, path[k], path[k + 1]));
        assert(shorter.last() == path[k]);
        assert(closed_at(fragments, sources, targets, m, path[k]));
    }
}

/// The plan of `k` in `m` is one of the plans at the start, and that one reaches `k`.
#[verifier::opaque]
spec fn has_origin<P>(
    fragments: Map<u32, &CustomFragmentInfo>,
    sources: Set<u32>,
    targets: Set<u32>,
    start: Map<u32, P>,
    m: Map<u32, P>,
    k: u32,
) -> bool {
    exists|a: u32|
        start.contains_key(a) && #[trigger] reaches(fragments, sources, targets, a, k) && m[k]
            == start[a]
}

/// The state of the resolution: `m` holds the plans at the start and plans that those reach, and
/// only the fragments in the queue, and the one that is looked at, are still to pass theirs up.
#[verifier::opaque]
spec fn resolving<P>(
    fragments: Map<u32, &CustomFragmentInfo>,
    sources: Set<u32>,
    targets: Set<u32>,
    start: Map<u32, P>,
    m: Map<u32, P>,
    queue: Seq<u32>,
    busy: Option<u32>,
) -> bool {
    &&& forall|k: u32| #[trigger] start.contains_key(k) ==> m.contains_key(k) && m[k] == start[k]
    &&& forall|k: u32| #[trigger]
        m.contains_key(k) ==> has_origin(fragments, sources, targets, start, m, k)
    &&& forall|k: u32| #[trigger]
        m.contains_key(k) ==> busy == Some(k) || queue.contains(k) || closed_at(
            fragments,
            sources,
            targets,
            m,
            k,
        )
    &&& forall|j: int| 0 <= j < queue.len() ==> m.contains_key(#[trigger] queue[j])
    &&& busy matches Some(k) ==> m.contains_key(k)
}

proof fn lemma_resolving_init<P>(
    fragments: Map<u32, &CustomFragmentInfo>,
    sources: Set<u32>,
    targets: Set<u32>,
    start: Map<u32, P>,
    queue: Seq<u32>,
)
    requires
        queue.to_set() == start.dom(),
    ensures
        resolving(fragments, sources, targets, start, start, queue, None),
{
    reveal(resolving);
    reveal(has_origin);
    assert forall|k: u32| #[trigger] start.contains_key(k) implies has_origin(
        fragments,
        sources,
        targets,
        start,
        start,
        k,
    ) && queue.contains(k) by {
        lemma_reaches_self(fragments, sources, targets, k);
        assert(queue.to_set().contains(k));
    }
    assert forall|j: int| 0 <= j < queue.len() implies start.contains_key(#[trigger] queue[j]) by {
        assert(queue.to_set().contains(queue[j]));
    }
}

proof fn lemma_resolving_pop<P>(
    fragments: Map<u32, &CustomFragmentInfo>,
    sources: Set<u32>,
    targets: Set<u32>,
    start: Map<u32, P>,
    m: Map<u32, P>,
    queue: Seq<u32>,
)
    requires
        resolving(fragments, sources, targets, start, m, queue, None),
        queue.len() > 0,
    ensures
        resolving(
            fragments,
            sources,
            targets,
            start,
            m,
            queue.subrange(1, queue.len() as int),
            Some(queue[0]),
        ),
        m.contains_key(queue[0]),
        has_origin(fragments, sources, targets, start, m, queue[0]),
{
    reveal(resolving);
    let rest = queue.subrange(1, queue.len() as int);
    assert forall|k: u32| queue.contains(k) && k != queue[0] implies #[trigger] rest.contains(k) by {
        let j = queue.index_of(k);
        assert(rest[j - 1] == k);
    }
    assert forall|j: int| 0 <= j < rest.len() implies m.contains_key(#[trigger] rest[j]) by {
        assert(rest[j] == queue[j + 1]);
    }
}

proof fn lemma_resolving_done<P>(
    fragments: Map<u32, &CustomFragmentInfo>,
    sources: Set<u32>,
    targets: Set<u32>,
    start: Map<u32, P>,
    m: Map<u32, P>,
    queue: Seq<u32>,
    f: u32,
)
    requires
        resolving(fragments, sources, targets, start, m, queue, Some(f)),
        closed_at(fragments, sources, targets, m, f),
    ensures
        resolving(fragments, sources, targets, start, m, queue, None),
{
    reveal(resolving);
}

proof fn lemma_resolving_insert<P>(
    fragments: Map<u32, &CustomFragmentInfo>,
    sources: Set<u32>,
    targets: Set<u32>,
    start: Map<u32, P>,
    m: Map<u32, P>,
    queue: Seq<u32>,
    f: u32,
    u: u32,
)
    requires
        resolving(fragments, sources, targets, start, m, queue, Some(f)),
        passes_up(fragments, sources, targets, f, u),
        !m.contains_key(u),
    ensures
        resolving(
            fragments,
            sources,
            targets,
            start,
            m.insert(u, m[f]),
            queue.push(u),
            Some(f),
        ),
{
    reveal(resolving);
    let m2 = m.insert(u, m[f]);
    let q2 = queue.push(u);
    assert(m.contains_key(f));
    assert(q2[queue.len() as int] == u);
    assert forall|k: u32| queue.contains(k) implies #[trigger] q2.contains(k) by {
        assert(q2[queue.index_of(k)] == k);
    }
    assert forall|j: int| 0 <= j < q2.len() implies m2.contains_key(#[trigger] q2[j]) by {
        if j < queue.len() {
            assert(q2[j] == queue[j]);
        }
    }
    assert forall|k: u32| #[trigger] m2.contains_key(k) implies has_origin(
        fragments,
        sources,
        targets,
        start,
        m2,
        k,
    ) by {
        reveal(has_origin);
        if k == u {
            assert(has_origin(fragments, sources, targets, start, m, f));
            let a = choose|a: u32|
                start.contains_key(a) && #[trigger] reaches(fragments, sources, targets, a, f)
                    && m[f] == start[a];
            lemma_reaches_up(fragments, sources, targets, a, f, u);
        } else {
            assert(has_origin(fragments, sources, targets, start, m, k));
        }
    }
    assert forall|k: u32| #[trigger] m2.contains_key(k) implies Some(f) == Some(k) || q2.contains(k)
        || closed_at(fragments, sources, targets, m2, k) by {
        if k != u && k != f && !q2.contains(k) {
            assert(m.contains_key(k));
            assert(closed_at(fragments, sources, targets, m, k));
            assert forall|x: u32| #[trigger]
                passes_up(fragments, sources, targets, k, x) implies m2.contains_key(x) && m2[x]
                == m2[k] by {
                assert(m.contains_key(x));
            }
        }
    }
}

proof fn lemma_resolving_conflict<P>(
    fragments: Map<u32, &CustomFragmentInfo>,
    sources: Set<u32>,
    targets: Set<u32>,
    start: Map<u32, P>,
    m: Map<u32, P>,
    queue: Seq<u32>,
    f: u32,
    u: u32,
)
    requires
        resolving(fragments, sources, targets, start, m, queue, Some(f)),
        passes_up(fragments, sources, targets, f, u),
        m.contains_key(u),
        m[u] != m[f],
    ensures
        !consistent(fragments, sources, targets, start),
        conflicting(fragments, sources, targets, start, f, u),
{
    reveal(resolving);
    reveal(has_origin);
    assert(m.contains_key(f));
    assert(has_origin(fragments, sources, targets, start, m, f));
    assert(has_origin(fragments, sources, targets, start, m, u));
    let a = choose|a: u32|
        start.contains_key(a) && #[trigger] reaches(fragments, sources, targets, a, f) && m[f]
            == start[a];
    let b = choose|a: u32|
        start.contains_key(a) && #[trigger] reaches(fragments, sources, targets, a, u) && m[u]
            == start[a];
    lemma_reaches_up(fragments, sources, targets, a, f, u);
    assert(start[a] != start[b]);
}

proof fn lemma_resolving_extends<P>(
    fragments: Map<u32, &CustomFragmentInfo>,
    sources: Set<u32>,
    targets: Set<u32>,
    start: Map<u32, P>,
    m: Map<u32, P>,
    queue: Seq<u32>,
    busy: Option<u32>,
)
    requires
        resolving(fragments, sources, targets, start, m, queue, busy),
    ensures
        extended(fragments, sources, targets, start, m),
{
    reveal(resolving);
    reveal(has_origin);
}

proof fn lemma_resolving_end<P>(
    fragments: Map<u32, &CustomFragmentInfo>,
    sources: Set<u32>,
    targets: Set<u32>,
    start: Map<u32, P>,
    m: Map<u32, P>,
)
    requires
        resolving(fragments, sources, targets, start, m, Seq::empty(), None),
    ensures
        consistent(fragments, sources, targets, start),
        resolved(fragments, sources, targets, start, m.remove_keys(targets)),
{
    reveal(resolving);
    let roots = m.remove_keys(targets);
    assert forall|k: u32| #[trigger] m.contains_key(k) implies closed_at(
        fragments,
        sources,
        targets,
        m,
        k,
    ) by {
        assert(!Seq::<u32>::empty().contains(k));
    }
    assert forall|a: u32, x: u32|
        start.contains_key(a) && #[trigger] reaches(
            fragments,
            sources,
            targets,
            a,
            x,
        ) implies m.contains_key(x) && m[x] == start[a] by {
        let path = choose|path: Seq<u32>| #[trigger]
            is_path(fragments, sources, targets, path) && path.first() == a && path.last() == x;
        lemma_path_closed(fragments, sources, targets, m, path);
    }
    assert forall|x: u32| #[trigger] roots.contains_key(x) <==> !targets.contains(x) && reached(
        fragments,
        sources,
        targets,
        start,
        x,
    ) by {
        reveal(has_origin);
        if m.contains_key(x) {
            assert(has_origin(fragments, sources, targets, start, m, x));
        }
    }
}

/// Passes the plan of one downstream fragment up. Returns the upstream fragment whose own plan
/// differs from it, if there is one.
fn pass_plan_up<T: PlanOps>(
    reschedule: &mut BTreeMap<u32, T>,
    queue: &mut VecDeque<u32>,
    fragment_id: u32,
    fragment: &CustomFragmentInfo,
    fragment_map: &BTreeMap<u32, &CustomFragmentInfo>,
    sources: &BTreeSet<u32>,
    targets: &BTreeSet<u32>,
    Ghost(start): Ghost<Map<u32, T::V>>,
) -> (res: Option<u32>)
    requires
        fragment_map@.contains_key(fragment_id),
        fragment_map@[fragment_id] == fragment,
        targets@.contains(fragment_id),
        resolving(
            fragment_map@,
            sources@,
            targets@,
            start,
            plans_of(old(reschedule)@),
            old(queue)@,
            Some(fragment_id),
        ),
    ensures
        res matches Some(u) ==> conflicting(
            fragment_map@,
            sources@,
            targets@,
            start,
            fragment_id,
            u,
        ) && !consistent(fragment_map@, sources@, targets@, start) && resolving(
            fragment_map@,
            sources@,
            targets@,
            start,
            plans_of(final(reschedule)@),
            final(queue)@,
            Some(fragment_id),
        ),
        res is None ==> resolving(
            fragment_map@,
            sources@,
            targets@,
            start,
            plans_of(final(reschedule)@),
            final(queue)@,
            None,
        ),
        final(reschedule)@.dom().len() > old(reschedule)@.dom().len()
            || (final(reschedule)@.dom().len() == old(reschedule)@.dom().len()
            && final(queue)@.len() == old(queue)@.len()),
{
    let ups = &fragment.upstream_fragment_ids;
    let mut i: usize = 0;
    while i < ups.len()
        invariant
            i <= ups.len(),
            ups == fragment.upstream_fragment_ids,
            fragment_map@.contains_key(fragment_id),
            fragment_map@[fragment_id] == fragment,
            targets@.contains(fragment_id),
            resolving(
                fragment_map@,
                sources@,
                targets@,
                start,
                plans_of(reschedule@),
                queue@,
                Some(fragment_id),
            ),
            forall|j: int|
                0 <= j < i && sources@.contains(#[trigger] ups@[j]) ==> reschedule@.contains_key(
                    ups@[j],
                ) && reschedule@[ups@[j]]@ == reschedule@[fragment_id]@,
            reschedule@.dom().len() > old(reschedule)@.dom().len() || (reschedule@.dom().len()
                == old(reschedule)@.dom().len() && queue@.len() == old(queue)@.len()),
        decreases ups.len() - i,
    {
        let u: u32 = ups[i];
        if sources.contains(&u) {
            assert(ups@.contains(ups@[i as int]));
            assert(passes_up(fragment_map@, sources@, targets@, fragment_id, u));
            assert(plans_of(reschedule@).contains_key(fragment_id)) by {
                reveal(resolving);
            }
            let plan = reschedule.get(&fragment_id).unwrap();
            match reschedule.get(&u) {
                Some(other) => {
                    if !other.same_plan(plan) {
                        proof {
                            lemma_resolving_conflict(
                                fragment_map@,
                                sources@,
                                targets@,
                                start,
                                plans_of(reschedule@),
                                queue@,
                                fragment_id,
                                u,
                            );
                        }
                        return Some(u);
                    }
                },
                None => {
                    let copied = plan.copy_plan();
                    let ghost m1 = reschedule@;
                    proof {
                        lemma_resolving_insert(
                            fragment_map@,
                            sources@,
                            targets@,
                            start,
                            plans_of(m1),
                            queue@,
                            fragment_id,
                            u,
                        );
                    }
                    reschedule.insert(u, copied);
                    queue.push_back(u);
                    proof {
                        assert(plans_of(reschedule@) =~= plans_of(m1).insert(
                            u,
                            plans_of(m1)[fragment_id],
                        ));
                        assert(reschedule@.dom() =~= m1.dom().insert(u));
                    }
                },
            }
        }
        i = i + 1;
    }
    proof {
        let m = plans_of(reschedule@);
        assert(m.contains_key(fragment_id)) by {
            reveal(resolving);
        }
        assert forall|u: u32| #[trigger]
            passes_up(fragment_map@, sources@, targets@, fragment_id, u) implies m.contains_key(u)
            && m[u] == m[fragment_id] by {
            assert(ups@[ups@.index_of(u)] == u);
        }
        lemma_resolving_done(
            fragment_map@,
            sources@,
            targets@,
            start,
            m,
            queue@,
            fragment_id,
        );
    }
    None
}

/// The queue that holds the given ids in order.
pub fn queue_of(keys: &Vec<u32>) -> (queue: VecDeque<u32>)
    ensures
        queue@ == keys@,
{
    let mut queue: VecDeque<u32> = VecDeque::new();
    let mut i: usize = 0;
    while i < keys.len()
        invariant
            i <= keys.len(),
            queue@ == keys@.take(i as int),
        decreases keys.len() - i,
    {
        queue.push_back(keys[i]);
        i = i + 1;
        assert(queue@ =~= keys@.take(i as int));
    }
    assert(queue@ =~= keys@);
    queue
}

/// Moves the plans to the roots of the `NoShuffle` trees. Fails where two plans that differ reach
/// the same fragment.
pub fn resolve_no_shuffle_upstream_fragments<T: PlanOps>(
    reschedule: &mut BTreeMap<u32, T>,
    fragment_map: &BTreeMap<u32, &CustomFragmentInfo>,
    no_shuffle_source_fragment_ids: &BTreeSet<u32>,
    no_shuffle_target_fragment_ids: &BTreeSet<u32>,
) -> (res: Result<(), ScaleError>)
    requires
        forall|a: u32, f: u32|
            old(reschedule)@.contains_key(a) && #[trigger] reaches(
                fragment_map@,
                no_shuffle_source_fragment_ids@,
                no_shuffle_target_fragment_ids@,
                a,
                f,
            ) && no_shuffle_target_fragment_ids@.contains(f) ==> fragment_map@.contains_key(f),
    ensures
        res is Ok <==> consistent(
            fragment_map@,
            no_shuffle_source_fragment_ids@,
            no_shuffle_target_fragment_ids@,
            plans_of(old(reschedule)@),
        ),
        res is Ok ==> resolved(
            fragment_map@,
            no_shuffle_source_fragment_ids@,
            no_shuffle_target_fragment_ids@,
            plans_of(old(reschedule)@),
            plans_of(final(reschedule)@),
        ),
        res matches Err(e) ==> e matches ScaleError::InconsistentNoShufflePlan {
            fragment_id,
            upstream_fragment_id,
        } && conflicting(
            fragment_map@,
            no_shuffle_source_fragment_ids@,
            no_shuffle_target_fragment_ids@,
            plans_of(old(reschedule)@),
            fragment_id,
            upstream_fragment_id,
        ),
        res is Err ==> extended(
            fragment_map@,
            no_shuffle_source_fragment_ids@,
            no_shuffle_target_fragment_ids@,
            plans_of(old(reschedule)@),
            plans_of(final(reschedule)@),
        ),
{
    let ghost frags = fragment_map@;
    let ghost src = no_shuffle_source_fragment_ids@;
    let ghost tgt = no_shuffle_target_fragment_ids@;
    let ghost start = plans_of(reschedule@);
    let keys = map_keys(reschedule);
    let mut queue = queue_of(&keys);
    proof {
        assert(start.dom() =~= reschedule@.dom());
        lemma_resolving_init(frags, src, tgt, start, queue@);
    }
    while queue.len() > 0
        invariant
            frags == fragment_map@,
            src == no_shuffle_source_fragment_ids@,
            tgt == no_shuffle_target_fragment_ids@,
            start == plans_of(old(reschedule)@),
            forall|a: u32, f: u32|
                start.contains_key(a) && #[trigger] reaches(frags, src, tgt, a, f) && tgt.contains(
                    f,
                ) ==> frags.contains_key(f),
            resolving(frags, src, tgt, start, plans_of(reschedule@), queue@, None),
        decreases 0x1_0000_0000 - reschedule@.dom().len(), queue@.len(),
    {
        let ghost queue0 = queue@;
        let ghost m0 = reschedule@;
        proof {
            lemma_resolving_pop(frags, src, tgt, start, plans_of(reschedule@), queue@);
        }
        let fragment_id: u32 = queue.pop_front().unwrap();
        assert(queue@ =~= queue0.subrange(1, queue0.len() as int));
        if no_shuffle_target_fragment_ids.contains(&fragment_id) {
            assert(frags.contains_key(fragment_id)) by {
                reveal(has_origin);
            }
            let fragment: &CustomFragmentInfo = *fragment_map.get(&fragment_id).unwrap();
            let conflict = pass_plan_up(
                reschedule,
                &mut queue,
                fragment_id,
                fragment,
                fragment_map,
                no_shuffle_source_fragment_ids,
                no_shuffle_target_fragment_ids,
                Ghost(start),
            );
            if let Some(upstream_fragment_id) = conflict {
                proof {
                    lemma_resolving_extends(
                        frags,
                        src,
                        tgt,
                        start,
                        plans_of(reschedule@),
                        queue@,
                        Some(fragment_id),
                    );
                }
                return Err(
                    ScaleError::InconsistentNoShufflePlan { fragment_id, upstream_fragment_id },
                );
            }
            proof {
                lemma_id_set_bound(reschedule@.dom());
            }
        } else {
            proof {
                assert(closed_at(frags, src, tgt, plans_of(reschedule@), fragment_id));
                lemma_resolving_done(
                    frags,
                    src,
                    tgt,
                    start,
                    plans_of(reschedule@),
                    queue@,
                    fragment_id,
                );
            }
        }
    }
    let ghost full = plans_of(reschedule@);
    proof {
        assert(queue@ =~= Seq::<u32>::empty());
        lemma_resolving_end(frags, src, tgt, start, full);
    }
    retain_not_in(reschedule, no_shuffle_target_fragment_ids);
    assert(plans_of(reschedule@) =~= full.remove_keys(tgt));
    Ok(())
}

/// Keeps the entries whose keys are not in `gone`.
pub fn retain_not_in<T>(map: &mut BTreeMap<u32, T>, gone: &BTreeSet<u32>)
    ensures
        final(map)@ == old(map)@.remove_keys(gone@),
{
    let keys = map_keys(map);
    let ghost m0 = map@;
    let mut i: usize = 0;
    assert(map@ =~= m0.remove_keys(keys@.take(0).to_set().intersect(gone@)));
    while i < keys.len()
        invariant
            i <= keys.len(),
            map@ == m0.remove_keys(keys@.take(i as int).to_set().intersect(gone@)),
        decreases keys.len() - i,
    {
        let k: u32 = keys[i];
        if gone.contains(&k) {
            map.remove(&k);
        }
        proof {
            assert(keys@.take(i + 1) =~= keys@.take(i as int).push(k));
            crate::common::collections::lemma_to_set_push(keys@.take(i as int), k);
            assert(map@ =~= m0.remove_keys(keys@.take(i + 1).to_set().intersect(gone@)));
        }
        i = i + 1;
    }
    assert(keys@.take(i as int) =~= keys@);
    assert(map@ =~= m0.remove_keys(gone@));
}

/// The table runs with a parallelism set by hand.
pub open spec fn is_custom(parallelisms: Map<u32, TableParallelism>, table_id: u32) -> bool {
    parallelisms.contains_key(table_id) && parallelisms[table_id] == TableParallelism::Custom
}

/// Fragment `x` is one of `ids` or upstream of one of them.
pub open spec fn upstream_of_any(
    fragments: Map<u32, &CustomFragmentInfo>,
    sources: Set<u32>,
    targets: Set<u32>,
    ids: Set<u32>,
    x: u32,
) -> bool {
    exists|a: u32|
        ids.contains(a) && #[trigger] reaches(fragments, sources, targets.union(sources), a, x)
}

/// A fragment of the one table, upstream of one of `ids` or one of them, passes up to a fragment of the
/// other table.
pub open spec fn hands_up(
    fragments: Map<u32, &CustomFragmentInfo>,
    sources: Set<u32>,
    targets: Set<u32>,
    ids: Set<u32>,
    table_of: Map<u32, u32>,
    from: u32,
    to: u32,
) -> bool {
    exists|f: u32, u: u32| #[trigger]
        passes_up(fragments, sources, targets.union(sources), f, u) && upstream_of_any(
            fragments,
            sources,
            targets,
            ids,
            f,
        ) && table_of[f] == from && table_of[u] == to
}

/// The tables lead, each to the next, from one with a parallelism set by hand to others upstream.
pub open spec fn is_custom_chain(
    fragments: Map<u32, &CustomFragmentInfo>,
    sources: Set<u32>,
    targets: Set<u32>,
    ids: Set<u32>,
    table_of: Map<u32, u32>,
    before: Map<u32, TableParallelism>,
    chain: Seq<u32>,
) -> bool {
    &&& chain.len() >= 2
    &&& is_custom(before, chain[0])
    &&& forall|i: int|
        #![trigger chain[i]]
        0 <= i < chain.len() - 1 ==> hands_up(
            fragments,
            sources,
            targets,
            ids,
            table_of,
            chain[i],
            chain[i + 1],
        )
}

/// The table is upstream of one that had a parallelism set by hand.
pub open spec fn made_custom(
    fragments: Map<u32, &CustomFragmentInfo>,
    sources: Set<u32>,
    targets: Set<u32>,
    ids: Set<u32>,
    table_of: Map<u32, u32>,
    before: Map<u32, TableParallelism>,
    table_id: u32,
) -> bool {
    exists|chain: Seq<u32>| #[trigger]
        is_custom_chain(fragments, sources, targets, ids, table_of, before, chain) && chain.last()
            == table_id
}

/// The parallelisms once those set by hand have been passed to the upstream tables: what was
/// there stays, only tables upstream of such ones are added, and whatever is upstream of a fragment
/// whose table was set by hand is set by hand.
pub open spec fn custom_passed_up(
    fragments: Map<u32, &CustomFragmentInfo>,
    sources: Set<u32>,
    targets: Set<u32>,
    ids: Set<u32>,
    table_of: Map<u32, u32>,
    before: Map<u32, TableParallelism>,
    after: Map<u32, TableParallelism>,
) -> bool {
    &&& forall|t: u32| #[trigger]
        before.contains_key(t) ==> after.contains_key(t) && after[t] == before[t]
    &&& forall|t: u32| #[trigger]
        after.contains_key(t) && !before.contains_key(t) ==> after[t] == TableParallelism::Custom
            && made_custom(fragments, sources, targets, ids, table_of, before, t)
    &&& forall|a: u32, x: u32| #[trigger]
        upstream_of_any(fragments, sources, targets, ids, a) && is_custom(before, table_of[a]) && #[trigger] reaches(
            fragments,
            sources,
            targets.union(sources),
            a,
            x,
        ) ==> is_custom(after, table_of[x])
}

/// The tables of the downstream fragments among those that `ids` lead to.
pub open spec fn downstream_tables(
    fragments: Map<u32, &CustomFragmentInfo>,
    sources: Set<u32>,
    targets: Set<u32>,
    ids: Set<u32>,
    table_of: Map<u32, u32>,
) -> Set<u32> {
    Set::new(
        |t: u32|
            exists|x: u32| #[trigger]
                upstream_of_any(fragments, sources, targets, ids, x) && targets.contains(x)
                    && table_of[x] == t,
    )
}

} // verus!
