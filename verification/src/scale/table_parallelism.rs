//! Passing hand-set parallelisms up along `NoShuffle` relations.
use crate::common::collections::{lemma_id_set_bound, set_to_vec};
use crate::scale::model::{CustomFragmentInfo, ScaleError, TableParallelism};
use crate::scale::no_shuffle::{custom_passed_up, downstream_tables, hands_up, is_custom};
use crate::scale::no_shuffle::{is_custom_chain, made_custom};
use crate::scale::no_shuffle::{is_path, passes_up, queue_of, reaches, retain_not_in};
use crate::scale::no_shuffle::{lemma_reaches_self, lemma_reaches_up, upstream_of_any};
use std::collections::BTreeMap;
use std::collections::BTreeSet;
use vstd::prelude::*;

verus! {

broadcast use {
    vstd::std_specs::btree::group_btree_axioms,
    vstd::laws_cmp::group_laws_cmp,
};

/// What was there stays, and what is added is set by hand and upstream of such a table.
pub open spec fn grown(
    fragments: Map<u32, &CustomFragmentInfo>,
    sources: Set<u32>,
    targets: Set<u32>,
    ids: Set<u32>,
    table_of: Map<u32, u32>,
    before: Map<u32, TableParallelism>,
    after: Map<u32, TableParallelism>,
) -> bool {
    &&& forall|t: u32| #[trigger]
        before.contains_key(t) ==> after.contains_key(t) && after[t] == before[t]
    &&& forall|t: u32| #[trigger]
        after.contains_key(t) && !before.contains_key(t) ==> after[t] == TableParallelism::Custom
            && made_custom(fragments, sources, targets, ids, table_of, before, t)
}

/// All fragments that `f` passes its plan up to are in the set.
spec fn ups_in(
    fragments: Map<u32, &CustomFragmentInfo>,
    sources: Set<u32>,
    targets: Set<u32>,
    set: Set<u32>,
    f: u32,
) -> bool {
    forall|u: u32| #[trigger]
        passes_up(fragments, sources, targets.union(sources), f, u) ==> set.contains(u)
}

/// The state of the walk: which fragments were visited, which of them with a table set by hand,
/// what the parallelisms are, and which fragments are still to be looked at.
#[verifier::opaque]
spec fn walking(
    fragments: Map<u32, &CustomFragmentInfo>,
    sources: Set<u32>,
    targets: Set<u32>,
    ids: Set<u32>,
    table_of: Map<u32, u32>,
    before: Map<u32, TableParallelism>,
    visited: Set<u32>,
    custom: Set<u32>,
    par: Map<u32, TableParallelism>,
    queue: Seq<u32>,
    busy: Option<u32>,
) -> bool {
    &&& grown(fragments, sources, targets, ids, table_of, before, par)
    &&& forall|x: u32| #[trigger]
        visited.contains(x) ==> upstream_of_any(fragments, sources, targets, ids, x)
    &&& forall|a: u32| #[trigger] ids.contains(a) ==> visited.contains(a)
    &&& forall|f: u32| #[trigger]
        custom.contains(f) ==> visited.contains(f) && is_custom(par, table_of[f])
    &&& forall|f: u32| #[trigger]
        visited.contains(f) ==> busy == Some(f) || queue.contains(f) || ups_in(
            fragments,
            sources,
            targets,
            visited,
            f,
        )
    &&& forall|f: u32| #[trigger]
        custom.contains(f) ==> busy == Some(f) || queue.contains(f) || ups_in(
            fragments,
            sources,
            targets,
            custom,
            f,
        )
    &&& forall|a: u32| #[trigger]
        visited.contains(a) && targets.union(sources).contains(a) && is_custom(before, table_of[a])
            ==> custom.contains(a) || queue.contains(a) || busy == Some(a)
    &&& forall|j: int| 0 <= j < queue.len() ==> visited.contains(#[trigger] queue[j])
    &&& busy matches Some(f) ==> visited.contains(f)
}

proof fn lemma_walking_init(
    fragments: Map<u32, &CustomFragmentInfo>,
    sources: Set<u32>,
    targets: Set<u32>,
    ids: Set<u32>,
    table_of: Map<u32, u32>,
    before: Map<u32, TableParallelism>,
    queue: Seq<u32>,
)
    requires
        queue.to_set() == ids,
    ensures
        walking(
            fragments,
            sources,
            targets,
            ids,
            table_of,
            before,
            ids,
            Set::empty(),
            before,
            queue,
            None,
        ),
{
    reveal(walking);
    assert forall|x: u32| #[trigger] ids.contains(x) implies upstream_of_any(
        fragments,
        sources,
        targets,
        ids,
        x,
    ) && queue.contains(x) by {
        lemma_reaches_self(fragments, sources, targets.union(sources), x);
        assert(queue.to_set().contains(x));
    }
    assert forall|j: int| 0 <= j < queue.len() implies ids.contains(#[trigger] queue[j]) by {
        assert(queue.to_set().contains(queue[j]));
    }
}

proof fn lemma_walking_pop(
    fragments: Map<u32, &CustomFragmentInfo>,
    sources: Set<u32>,
    targets: Set<u32>,
    ids: Set<u32>,
    table_of: Map<u32, u32>,
    before: Map<u32, TableParallelism>,
    visited: Set<u32>,
    custom: Set<u32>,
    par: Map<u32, TableParallelism>,
    queue: Seq<u32>,
)
    requires
        queue.len() > 0,
        walking(
            fragments,
            sources,
            targets,
            ids,
            table_of,
            before,
            visited,
            custom,
            par,
            queue,
            None,
        ),
    ensures
        visited.contains(queue[0]),
        upstream_of_any(fragments, sources, targets, ids, queue[0]),
        custom.contains(queue[0]) ==> is_custom(par, table_of[queue[0]]),
        walking(
            fragments,
            sources,
            targets,
            ids,
            table_of,
            before,
            visited,
            if targets.union(sources).contains(queue[0]) && is_custom(par, table_of[queue[0]]) {
                custom.insert(queue[0])
            } else {
                custom
            },
            par,
            queue.subrange(1, queue.len() as int),
            Some(queue[0]),
        ),
{
    reveal(walking);
    let rest = queue.subrange(1, queue.len() as int);
    let custom2 = if targets.union(sources).contains(queue[0]) && is_custom(par, table_of[queue[0]]) {
        custom.insert(queue[0])
    } else {
        custom
    };
    assert(visited.contains(queue[0]));
    assert forall|k: u32| queue.contains(k) && k != queue[0] implies #[trigger] rest.contains(k) by {
        let j = queue.index_of(k);
        assert(rest[j - 1] == k);
    }
    assert forall|j: int| 0 <= j < rest.len() implies visited.contains(#[trigger] rest[j]) by {
        assert(rest[j] == queue[j + 1]);
    }
    assert forall|f: u32| #[trigger] custom2.contains(f) implies Some(queue[0]) == Some(f)
        || rest.contains(f) || ups_in(fragments, sources, targets, custom2, f) by {
        if f != queue[0] && !rest.contains(f) {
            assert(custom.contains(f));
            assert(!queue.contains(f));
            assert(ups_in(fragments, sources, targets, custom, f));
        }
    }
}

/// What is upstream of a table that is set by hand now is upstream of one that was.
proof fn lemma_made_custom_up(
    fragments: Map<u32, &CustomFragmentInfo>,
    sources: Set<u32>,
    targets: Set<u32>,
    ids: Set<u32>,
    table_of: Map<u32, u32>,
    before: Map<u32, TableParallelism>,
    par: Map<u32, TableParallelism>,
    f: u32,
    u: u32,
)
    requires
        grown(fragments, sources, targets, ids, table_of, before, par),
        passes_up(fragments, sources, targets.union(sources), f, u),
        upstream_of_any(fragments, sources, targets, ids, f),
        is_custom(par, table_of[f]),
    ensures
        made_custom(fragments, sources, targets, ids, table_of, before, table_of[u]),
{
    let s = table_of[f];
    let t = table_of[u];
    assert(hands_up(fragments, sources, targets, ids, table_of, s, t));
    let shorter = if before.contains_key(s) {
        seq![s]
    } else {
        choose|chain: Seq<u32>| #[trigger]
            is_custom_chain(fragments, sources, targets, ids, table_of, before, chain)
                && chain.last() == s
    };
    let chain = shorter.push(t);
    assert forall|i: int| #![trigger chain[i]] 0 <= i < chain.len() - 1 implies hands_up(
        fragments,
        sources,
        targets,
        ids,
        table_of,
        chain[i],
        chain[i + 1],
    ) by {
        assert(chain[i] == shorter[i]);
        if i + 1 < shorter.len() {
            assert(chain[i + 1] == shorter[i + 1]);
        } else {
            assert(shorter[i] == shorter.last());
        }
    }
    assert(chain[0] == shorter[0]);
    assert(is_custom_chain(fragments, sources, targets, ids, table_of, before, chain));
    assert(chain.last() == t);
}

/// One edge has been looked at.
#[verifier::spinoff_prover]
#[verifier::rlimit(80)]
proof fn lemma_walking_edge(
    fragments: Map<u32, &CustomFragmentInfo>,
    sources: Set<u32>,
    targets: Set<u32>,
    ids: Set<u32>,
    table_of: Map<u32, u32>,
    before: Map<u32, TableParallelism>,
    visited: Set<u32>,
    custom: Set<u32>,
    par: Map<u32, TableParallelism>,
    queue: Seq<u32>,
    f: u32,
    u: u32,
    par2: Map<u32, TableParallelism>,
    queue2: Seq<u32>,
)
    requires
        walking(
            fragments,
            sources,
            targets,
            ids,
            table_of,
            before,
            visited,
            custom,
            par,
            queue,
            Some(f),
        ),
        passes_up(fragments, sources, targets.union(sources), f, u),
        is_custom(par, table_of[f]) ==> is_custom(par2, table_of[u]) && (par2 == par || (
        !par.contains_key(table_of[u]) && par2 == par.insert(
            table_of[u],
            TableParallelism::Custom,
        ))),
        !is_custom(par, table_of[f]) ==> par2 == par,
        queue2 == queue.push(u) || (queue2 == queue && visited.contains(u) && (is_custom(
            par,
            table_of[f],
        ) ==> custom.contains(u))),
    ensures
        walking(
            fragments,
            sources,
            targets,
            ids,
            table_of,
            before,
            visited.insert(u),
            if is_custom(par, table_of[f]) {
                custom.insert(u)
            } else {
                custom
            },
            par2,
            queue2,
            Some(f),
        ),
{
    reveal(walking);
    let was_custom = is_custom(par, table_of[f]);
    let visited2 = visited.insert(u);
    let custom2 = if was_custom {
        custom.insert(u)
    } else {
        custom
    };
    assert(visited.contains(f));
    assert(upstream_of_any(fragments, sources, targets, ids, u)) by {
        assert(upstream_of_any(fragments, sources, targets, ids, f));
        let a = choose|a: u32|
            ids.contains(a) && #[trigger] reaches(
                fragments,
                sources,
                targets.union(sources),
                a,
                f,
            );
        lemma_reaches_up(fragments, sources, targets.union(sources), a, f, u);
    }
    assert forall|k: u32| queue.contains(k) implies #[trigger] queue2.contains(k) by {
        assert(queue2[queue.index_of(k)] == k);
    }
    assert(queue2 == queue.push(u) ==> queue2.contains(u)) by {
        if queue2 == queue.push(u) {
            assert(queue2[queue.len() as int] == u);
        }
    }
    assert forall|j: int| 0 <= j < queue2.len() implies visited2.contains(#[trigger] queue2[j]) by {
        if j < queue.len() {
            assert(queue2[j] == queue[j]);
        }
    }
    assert forall|t: u32| #[trigger]
        par2.contains_key(t) && !before.contains_key(t) implies par2[t] == TableParallelism::Custom
        && made_custom(fragments, sources, targets, ids, table_of, before, t) by {
        if !par.contains_key(t) {
            lemma_made_custom_up(fragments, sources, targets, ids, table_of, before, par, f, u);
        }
    }
    assert forall|g: u32| #[trigger] visited2.contains(g) implies Some(f) == Some(g)
        || queue2.contains(g) || ups_in(fragments, sources, targets, visited2, g) by {
        if g != f && !queue2.contains(g) {
            assert(visited.contains(g));
            assert(!queue.contains(g));
            assert(ups_in(fragments, sources, targets, visited, g));
        }
    }
    assert forall|g: u32| #[trigger] custom2.contains(g) implies Some(f) == Some(g)
        || queue2.contains(g) || ups_in(fragments, sources, targets, custom2, g) by {
        if g != f && !queue2.contains(g) {
            assert(custom.contains(g));
            assert(!queue.contains(g));
            assert(ups_in(fragments, sources, targets, custom, g));
        }
    }
}

/// What the walk knows of an edge before it looks at it.
proof fn lemma_walking_up(
    fragments: Map<u32, &CustomFragmentInfo>,
    sources: Set<u32>,
    targets: Set<u32>,
    ids: Set<u32>,
    table_of: Map<u32, u32>,
    before: Map<u32, TableParallelism>,
    visited: Set<u32>,
    custom: Set<u32>,
    par: Map<u32, TableParallelism>,
    queue: Seq<u32>,
    f: u32,
    u: u32,
)
    requires
        walking(
            fragments,
            sources,
            targets,
            ids,
            table_of,
            before,
            visited,
            custom,
            par,
            queue,
            Some(f),
        ),
        passes_up(fragments, sources, targets.union(sources), f, u),
    ensures
        upstream_of_any(fragments, sources, targets, ids, u),
        is_custom(par, table_of[f]) ==> made_custom(
            fragments,
            sources,
            targets,
            ids,
            table_of,
            before,
            table_of[u],
        ),
        grown(fragments, sources, targets, ids, table_of, before, par),
{
    reveal(walking);
    assert(visited.contains(f));
    assert(upstream_of_any(fragments, sources, targets, ids, f));
    let a = choose|a: u32|
        ids.contains(a) && #[trigger] reaches(fragments, sources, targets.union(sources), a, f);
    lemma_reaches_up(fragments, sources, targets.union(sources), a, f, u);
    if is_custom(par, table_of[f]) {
        lemma_made_custom_up(fragments, sources, targets, ids, table_of, before, par, f, u);
    }
}

proof fn lemma_walking_done(
    fragments: Map<u32, &CustomFragmentInfo>,
    sources: Set<u32>,
    targets: Set<u32>,
    ids: Set<u32>,
    table_of: Map<u32, u32>,
    before: Map<u32, TableParallelism>,
    visited: Set<u32>,
    custom: Set<u32>,
    par: Map<u32, TableParallelism>,
    queue: Seq<u32>,
    f: u32,
)
    requires
        walking(
            fragments,
            sources,
            targets,
            ids,
            table_of,
            before,
            visited,
            custom,
            par,
            queue,
            Some(f),
        ),
        ups_in(fragments, sources, targets, visited, f),
        targets.union(sources).contains(f) && is_custom(par, table_of[f]) ==> custom.contains(f),
        custom.contains(f) ==> ups_in(fragments, sources, targets, custom, f),
    ensures
        walking(
            fragments,
            sources,
            targets,
            ids,
            table_of,
            before,
            visited,
            custom,
            par,
            queue,
            None,
        ),
{
    reveal(walking);
}

proof fn lemma_path_in(
    fragments: Map<u32, &CustomFragmentInfo>,
    sources: Set<u32>,
    targets: Set<u32>,
    set: Set<u32>,
    path: Seq<u32>,
)
    requires
        is_path(fragments, sources, targets.union(sources), path),
        set.contains(path.first()),
        forall|f: u32| #[trigger]
            set.contains(f) ==> ups_in(fragments, sources, targets, set, f),
    ensures
        set.contains(path.last()),
    decreases path.len(),
{
    if path.len() > 1 {
        let shorter = path.drop_last();
        let both = targets.union(sources);
        assert forall|i: int| #![trigger shorter[i]] 0 <= i < shorter.len() - 1 implies passes_up(
            fragments,
            sources,
            both,
            shorter[i],
            shorter[i + 1],
        ) by {
            assert(shorter[i] == path[i] && shorter[i + 1] == path[i + 1]);
        }
        assert(shorter.first() == path.first());
        lemma_path_in(fragments, sources, targets, set, shorter);
        let k = path.len() - 2;
        assert(passes_up(fragments, sources, both, path[k], path[k + 1]));
        assert(shorter.last() == path[k]);
        assert(ups_in(fragments, sources, targets, set, path[k]));
    }
}

/// What a finished walk knows of the fragments with a table that is set by hand.
proof fn lemma_walking_custom(
    fragments: Map<u32, &CustomFragmentInfo>,
    sources: Set<u32>,
    targets: Set<u32>,
    ids: Set<u32>,
    table_of: Map<u32, u32>,
    before: Map<u32, TableParallelism>,
    visited: Set<u32>,
    custom: Set<u32>,
    par: Map<u32, TableParallelism>,
)
    requires
        walking(
            fragments,
            sources,
            targets,
            ids,
            table_of,
            before,
            visited,
            custom,
            par,
            Seq::empty(),
            None,
        ),
    ensures
        forall|f: u32| #[trigger] custom.contains(f) ==> is_custom(par, table_of[f]),
        forall|f: u32| #[trigger]
            custom.contains(f) ==> ups_in(fragments, sources, targets, custom, f),
        forall|a: u32| #[trigger]
            visited.contains(a) && targets.union(sources).contains(a) && is_custom(
                before,
                table_of[a],
            ) ==> custom.contains(a),
        forall|t: u32| #[trigger]
            before.contains_key(t) ==> par.contains_key(t) && par[t] == before[t],
        grown(fragments, sources, targets, ids, table_of, before, par),
{
    reveal(walking);
    assert(forall|k: u32| !(#[trigger] Seq::<u32>::empty().contains(k)));
}

/// Which fragments a finished walk has visited.
proof fn lemma_walking_visited(
    fragments: Map<u32, &CustomFragmentInfo>,
    sources: Set<u32>,
    targets: Set<u32>,
    ids: Set<u32>,
    table_of: Map<u32, u32>,
    before: Map<u32, TableParallelism>,
    visited: Set<u32>,
    custom: Set<u32>,
    par: Map<u32, TableParallelism>,
    x: u32,
)
    requires
        walking(
            fragments,
            sources,
            targets,
            ids,
            table_of,
            before,
            visited,
            custom,
            par,
            Seq::empty(),
            None,
        ),
    ensures
        visited.contains(x) <==> upstream_of_any(fragments, sources, targets, ids, x),
{
    reveal(walking);
    let both = targets.union(sources);
    assert(forall|k: u32| !(#[trigger] Seq::<u32>::empty().contains(k)));
    if upstream_of_any(fragments, sources, targets, ids, x) {
        let a = choose|a: u32|
            ids.contains(a) && #[trigger] reaches(fragments, sources, both, a, x);
        let path = choose|path: Seq<u32>| #[trigger]
            is_path(fragments, sources, both, path) && path.first() == a && path.last() == x;
        lemma_path_in(fragments, sources, targets, visited, path);
    }
}

proof fn lemma_walking_end(
    fragments: Map<u32, &CustomFragmentInfo>,
    sources: Set<u32>,
    targets: Set<u32>,
    ids: Set<u32>,
    table_of: Map<u32, u32>,
    before: Map<u32, TableParallelism>,
    visited: Set<u32>,
    custom: Set<u32>,
    par: Map<u32, TableParallelism>,
)
    requires
        walking(
            fragments,
            sources,
            targets,
            ids,
            table_of,
            before,
            visited,
            custom,
            par,
            Seq::empty(),
            None,
        ),
    ensures
        custom_passed_up(fragments, sources, targets, ids, table_of, before, par),
        forall|x: u32| #[trigger]
            visited.contains(x) <==> upstream_of_any(fragments, sources, targets, ids, x),
{
    let both = targets.union(sources);
    lemma_walking_custom(
        fragments,
        sources,
        targets,
        ids,
        table_of,
        before,
        visited,
        custom,
        par,
    );
    assert forall|x: u32| #[trigger] visited.contains(x) <==> upstream_of_any(
        fragments,
        sources,
        targets,
        ids,
        x,
    ) by {
        lemma_walking_visited(
            fragments,
            sources,
            targets,
            ids,
            table_of,
            before,
            visited,
            custom,
            par,
            x,
        );
    }
    assert forall|a: u32, x: u32| #[trigger]
        upstream_of_any(fragments, sources, targets, ids, a) && is_custom(before, table_of[a])
            && #[trigger] reaches(fragments, sources, both, a, x) implies is_custom(
        par,
        table_of[x],
    ) by {
        let path = choose|path: Seq<u32>| #[trigger]
            is_path(fragments, sources, both, path) && path.first() == a && path.last() == x;
        assert(visited.contains(a));
        if path.len() > 1 {
            assert(passes_up(fragments, sources, both, path[0], path[1]));
            assert(custom.contains(a));
            lemma_path_in(fragments, sources, targets, custom, path);
        }
    }
}

/// Passes hand-set parallelisms to the tables upstream of the given fragments, and takes the
/// downstream tables out. Fails where an upstream table has another parallelism of its own.
pub fn resolve_no_shuffle_upstream_tables(
    fragment_ids: &BTreeSet<u32>,
    fragment_map: &BTreeMap<u32, &CustomFragmentInfo>,
    no_shuffle_source_fragment_ids: &BTreeSet<u32>,
    no_shuffle_target_fragment_ids: &BTreeSet<u32>,
    fragment_to_table: &BTreeMap<u32, u32>,
    table_parallelisms: &mut BTreeMap<u32, TableParallelism>,
) -> (res: Result<(), ScaleError>)
    requires
        forall|x: u32| #[trigger]
            upstream_of_any(
                fragment_map@,
                no_shuffle_source_fragment_ids@,
                no_shuffle_target_fragment_ids@,
                fragment_ids@,
                x,
            ) && (no_shuffle_source_fragment_ids@.contains(x)
                || no_shuffle_target_fragment_ids@.contains(x)) ==> fragment_map@.contains_key(x)
                && fragment_to_table@.contains_key(x),
    ensures
        res is Ok ==> exists|par: Map<u32, TableParallelism>| #[trigger]
            custom_passed_up(
                fragment_map@,
                no_shuffle_source_fragment_ids@,
                no_shuffle_target_fragment_ids@,
                fragment_ids@,
                fragment_to_table@,
                old(table_parallelisms)@,
                par,
            ) && final(table_parallelisms)@ == par.remove_keys(
                downstream_tables(
                    fragment_map@,
                    no_shuffle_source_fragment_ids@,
                    no_shuffle_target_fragment_ids@,
                    fragment_ids@,
                    fragment_to_table@,
                ),
            ),
        res matches Err(e) ==> e matches ScaleError::UpstreamTableParallelism {
            upstream_table_id,
            parallelism,
        } && parallelism != TableParallelism::Custom && old(table_parallelisms)@.contains_key(
            upstream_table_id,
        ) && old(table_parallelisms)@[upstream_table_id] == parallelism && made_custom(
            fragment_map@,
            no_shuffle_source_fragment_ids@,
            no_shuffle_target_fragment_ids@,
            fragment_ids@,
            fragment_to_table@,
            old(table_parallelisms)@,
            upstream_table_id,
        ),
        res is Err ==> grown(
            fragment_map@,
            no_shuffle_source_fragment_ids@,
            no_shuffle_target_fragment_ids@,
            fragment_ids@,
            fragment_to_table@,
            old(table_parallelisms)@,
            final(table_parallelisms)@,
        ),
{
    let sources = no_shuffle_source_fragment_ids;
    let targets = no_shuffle_target_fragment_ids;
    let ghost both = targets@.union(sources@);
    let ghost ids = fragment_ids@;
    let ghost table_of = fragment_to_table@;
    let ghost before = table_parallelisms@;
    let start = set_to_vec(fragment_ids);
    let mut queue = queue_of(&start);
    let mut visited: BTreeSet<u32> = fragment_ids.clone();
    let mut custom: BTreeSet<u32> = BTreeSet::new();
    proof {
        lemma_walking_init(fragment_map@, sources@, targets@, ids, table_of, before, queue@);
    }
    while queue.len() > 0
        invariant
            sources == no_shuffle_source_fragment_ids,
            targets == no_shuffle_target_fragment_ids,
            both == targets@.union(sources@),
            ids == fragment_ids@,
            table_of == fragment_to_table@,
            before == old(table_parallelisms)@,
            visited@.finite(),
            custom@.finite(),
            forall|x: u32| #[trigger]
                upstream_of_any(fragment_map@, sources@, targets@, ids, x) && (sources@.contains(x)
                    || targets@.contains(x)) ==> fragment_map@.contains_key(x)
                    && table_of.contains_key(x),
            walking(
                fragment_map@,
                sources@,
                targets@,
                ids,
                table_of,
                before,
                visited@,
                custom@,
                table_parallelisms@,
                queue@,
                None,
            ),
        decreases 0x2_0000_0000 - visited@.len() - custom@.len(), queue@.len(),
    {
        let ghost queue0 = queue@;
        let ghost visited0 = visited@;
        let ghost custom0 = custom@;
        proof {
            lemma_id_set_bound(visited@);
            lemma_id_set_bound(custom@);
            lemma_walking_pop(
                fragment_map@,
                sources@,
                targets@,
                ids,
                table_of,
                before,
                visited@,
                custom@,
                table_parallelisms@,
                queue@,
            );
        }
        let fragment_id: u32 = queue.pop_front().unwrap();
        assert(queue@ =~= queue0.subrange(1, queue0.len() as int));
        if targets.contains(&fragment_id) || sources.contains(&fragment_id) {
            assert(both.contains(fragment_id));
            assert(fragment_map@.contains_key(fragment_id) && table_of.contains_key(fragment_id));
            let fragment: &CustomFragmentInfo = *fragment_map.get(&fragment_id).unwrap();
            let table_id: u32 = *fragment_to_table.get(&fragment_id).unwrap();
            let was_custom: bool = match table_parallelisms.get(&table_id) {
                Some(parallelism) => *parallelism == TableParallelism::Custom,
                None => false,
            };
            if was_custom {
                custom.insert(fragment_id);
            }
            let ghost custom1 = custom@;
            let ups = &fragment.upstream_fragment_ids;
            let mut i: usize = 0;
            while i < ups.len()
                invariant
                    i <= ups.len(),
                    ups == fragment.upstream_fragment_ids,
                    sources == no_shuffle_source_fragment_ids,
                    targets == no_shuffle_target_fragment_ids,
                    both == targets@.union(sources@),
                    ids == fragment_ids@,
                    table_of == fragment_to_table@,
                    before == old(table_parallelisms)@,
                    both.contains(fragment_id),
                    fragment_map@.contains_key(fragment_id),
                    fragment_map@[fragment_id] == fragment,
                    was_custom == is_custom(table_parallelisms@, table_of[fragment_id]),
                    was_custom ==> custom@.contains(fragment_id),
                    custom@.contains(fragment_id) ==> was_custom,
                    visited@.finite(),
                    custom@.finite(),
                    visited0.subset_of(visited@),
                    custom0.subset_of(custom@),
                    visited@.len() + custom@.len() > visited0.len() + custom0.len() || (
                    visited@.len() + custom@.len() == visited0.len() + custom0.len() && queue@.len()
                        < queue0.len()),
                    forall|x: u32| #[trigger]
                        upstream_of_any(fragment_map@, sources@, targets@, ids, x) && (
                        sources@.contains(x) || targets@.contains(x)) ==> fragment_map@.contains_key(
                            x,
                        ) && table_of.contains_key(x),
                    walking(
                        fragment_map@,
                        sources@,
                        targets@,
                        ids,
                        table_of,
                        before,
                        visited@,
                        custom@,
                        table_parallelisms@,
                        queue@,
                        Some(fragment_id),
                    ),
                    forall|j: int|
                        0 <= j < i && sources@.contains(#[trigger] ups@[j]) ==> visited@.contains(
                            ups@[j],
                        ) && (was_custom ==> custom@.contains(ups@[j])),
                decreases ups.len() - i,
            {
                let u: u32 = ups[i];
                if sources.contains(&u) {
                    let ghost par1 = table_parallelisms@;
                    let ghost visited1 = visited@;
                    let ghost custom1 = custom@;
                    let ghost queue1 = queue@;
                    proof {
                        assert(ups@.contains(ups@[i as int]));
                        assert(passes_up(fragment_map@, sources@, both, fragment_id, u));
                        lemma_walking_up(
                            fragment_map@,
                            sources@,
                            targets@,
                            ids,
                            table_of,
                            before,
                            visited@,
                            custom@,
                            par1,
                            queue@,
                            fragment_id,
                            u,
                        );
                    }
                    let upstream_table_id: u32 = *fragment_to_table.get(&u).unwrap();
                    if was_custom {
                        match table_parallelisms.get(&upstream_table_id) {
                            Some(parallelism) => {
                                let parallelism: TableParallelism = *parallelism;
                                if parallelism != TableParallelism::Custom {
                                    return Err(
                                        ScaleError::UpstreamTableParallelism {
                                            upstream_table_id,
                                            parallelism,
                                        },
                                    );
                                }
                            },
                            None => {
                                table_parallelisms.insert(
                                    upstream_table_id,
                                    TableParallelism::Custom,
                                );
                            },
                        }
                    }
                    let newly_visited: bool = visited.insert(u);
                    let newly_custom: bool = was_custom && custom.insert(u);
                    if newly_visited || newly_custom {
                        queue.push_back(u);
                    }
                    proof {
                        lemma_walking_edge(
                            fragment_map@,
                            sources@,
                            targets@,
                            ids,
                            table_of,
                            before,
                            visited1,
                            custom1,
                            par1,
                            queue1,
                            fragment_id,
                            u,
                            table_parallelisms@,
                            queue@,
                        );
                        assert(custom@ =~= (if was_custom {
                            custom1.insert(u)
                        } else {
                            custom1
                        }));
                    }
                }
                i = i + 1;
            }
            proof {
                assert forall|u: u32| #[trigger]
                    passes_up(fragment_map@, sources@, both, fragment_id, u) implies visited@.contains(
                    u,
                ) && (was_custom ==> custom@.contains(u)) by {
                    assert(ups@[ups@.index_of(u)] == u);
                }
                lemma_walking_done(
                    fragment_map@,
                    sources@,
                    targets@,
                    ids,
                    table_of,
                    before,
                    visited@,
                    custom@,
                    table_parallelisms@,
                    queue@,
                    fragment_id,
                );
                lemma_id_set_bound(visited@);
                lemma_id_set_bound(custom@);
            }
        } else {
            proof {
                assert(!both.contains(fragment_id));
                lemma_walking_done(
                    fragment_map@,
                    sources@,
                    targets@,
                    ids,
                    table_of,
                    before,
                    visited@,
                    custom@,
                    table_parallelisms@,
                    queue@,
                    fragment_id,
                );
            }
        }
    }
    let ghost par = table_parallelisms@;
    proof {
        assert(queue@ =~= Seq::<u32>::empty());
        lemma_walking_end(
            fragment_map@,
            sources@,
            targets@,
            ids,
            table_of,
            before,
            visited@,
            custom@,
            par,
        );
    }
    let reached = set_to_vec(&visited);
    let mut gone: BTreeSet<u32> = BTreeSet::new();
    let mut i: usize = 0;
    while i < reached.len()
        invariant
            i <= reached.len(),
            ids == fragment_ids@,
            table_of == fragment_to_table@,
            reached@.to_set() == visited@,
            forall|x: u32| #[trigger]
                visited@.contains(x) <==> upstream_of_any(
                    fragment_map@,
                    sources@,
                    targets@,
                    ids,
                    x,
                ),
            forall|x: u32| #[trigger]
                upstream_of_any(fragment_map@, sources@, targets@, ids, x) && (sources@.contains(x)
                    || targets@.contains(x)) ==> fragment_map@.contains_key(x)
                    && table_of.contains_key(x),
            forall|t: u32| #[trigger]
                gone@.contains(t) <==> exists|j: int|
                    0 <= j < i && targets@.contains(#[trigger] reached@[j]) && table_of[reached@[j]]
                        == t,
        decreases reached.len() - i,
    {
        let x: u32 = reached[i];
        let ghost gone0 = gone@;
        assert(reached@.to_set().contains(reached@[i as int]));
        if targets.contains(&x) {
            assert(upstream_of_any(fragment_map@, sources@, targets@, ids, x));
            let table_id: u32 = *fragment_to_table.get(&x).unwrap();
            gone.insert(table_id);
        }
        proof {
            assert forall|t: u32| #[trigger] gone@.contains(t) <==> exists|j: int|
                0 <= j < i + 1 && targets@.contains(#[trigger] reached@[j]) && table_of[reached@[j]]
                    == t by {
                if gone0.contains(t) {
                    let j = choose|j: int|
                        0 <= j < i && targets@.contains(#[trigger] reached@[j])
                            && table_of[reached@[j]] == t;
                    assert(0 <= j < i + 1 && targets@.contains(reached@[j]));
                }
                if gone@.contains(t) && !gone0.contains(t) {
                    assert(reached@[i as int] == x);
                }
            }
        }
        i = i + 1;
    }
    retain_not_in(table_parallelisms, &gone);
    proof {
        let down = downstream_tables(fragment_map@, sources@, targets@, ids, table_of);
        assert forall|t: u32| gone@.contains(t) <==> down.contains(t) by {
            if gone@.contains(t) {
                let j = choose|j: int|
                    0 <= j < i && targets@.contains(#[trigger] reached@[j]) && table_of[reached@[j]]
                        == t;
                assert(reached@.to_set().contains(reached@[j]));
                assert(visited@.contains(reached@[j]));
                assert(upstream_of_any(fragment_map@, sources@, targets@, ids, reached@[j]));
            }
            if down.contains(t) {
                let x = choose|x: u32| #[trigger]
                    upstream_of_any(fragment_map@, sources@, targets@, ids, x) && targets@.contains(
                        x,
                    ) && table_of[x] == t;
                assert(visited@.contains(x));
                assert(reached@.to_set().contains(x));
                let j = reached@.index_of(x);
                assert(reached@[j] == x);
            }
        }
        assert(gone@ =~= down);
    }
    Ok(())
}

} // verus!
