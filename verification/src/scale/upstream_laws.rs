//! Plans and parallelisms set by hand move upstream along edges that join actors one to one.
use crate::scale::model::{CustomFragmentInfo, PlanOps, ScaleError, TableParallelism};
use crate::scale::no_shuffle::{
    custom_passed_up, downstream_tables, is_custom, is_path, lemma_reaches_self, lemma_reaches_up,
    passes_up, plans_of, reached, reaches, resolve_no_shuffle_upstream_fragments, upstream_of_any,
};
use crate::scale::table_parallelism::resolve_no_shuffle_upstream_tables;
use std::collections::{BTreeMap, BTreeSet};
use vstd::prelude::*;

verus! {

broadcast use {vstd::std_specs::btree::group_btree_axioms, vstd::laws_cmp::group_laws_cmp};

proof fn lemma_reached_ends(
    fragments: Map<u32, &CustomFragmentInfo>,
    sources: Set<u32>,
    targets: Set<u32>,
    a: u32,
    x: u32,
)
    requires
        reaches(fragments, sources, targets, a, x),
    ensures
        a == x || sources.contains(x) && targets.contains(a),
{
    let path = choose|path: Seq<u32>| #[trigger]
        is_path(fragments, sources, targets, path) && path.first() == a && path.last() == x;
    if path.len() > 1 {
        let n = path.len() - 2;
        assert(passes_up(fragments, sources, targets, path[n], path[n + 1]));
        assert(passes_up(fragments, sources, targets, path[0], path[1]));
    }
}

/// The fragment gets its rows from the other one.
pub open spec fn fed_by(fragments: Map<u32, &CustomFragmentInfo>, f: u32, u: u32) -> bool {
    fragments.contains_key(f) && exists|i: int|
        0 <= i < fragments[f].upstream_fragment_ids@.len()
            && #[trigger] fragments[f].upstream_fragment_ids@[i] == u
}

/// The plan of a fragment that others lead to one to one is given to the fragment before it, and taken from the
/// fragment itself. The plan of a fragment that follows none stays. A fragment without a plan that no such edge
/// starts at gets none. Two fragments of which one follows the other cannot have different plans.
pub proof fn lemma_plan_moves_up<T: PlanOps>(
    reschedule: &mut BTreeMap<u32, T>,
    fragment_map: &BTreeMap<u32, &CustomFragmentInfo>,
    sources: &BTreeSet<u32>,
    targets: &BTreeSet<u32>,
    res: Result<(), ScaleError>,
    f: u32,
    u: u32,
)
    requires
        call_ensures(
            resolve_no_shuffle_upstream_fragments::<T>,
            (reschedule, fragment_map, sources, targets),
            res,
        ),
    ensures
        ({
            let before = old(reschedule)@;
            let after = final(reschedule)@;
            &&& res is Ok && targets@.contains(f) ==> !after.contains_key(f)
            &&& res is Ok && before.contains_key(f) && !targets@.contains(f) ==> after.contains_key(f)
                && after[f]@ == before[f]@
            &&& res is Ok && before.contains_key(f) && targets@.contains(f) && fed_by(
                fragment_map@,
                f,
                u,
            ) && sources@.contains(u) && !targets@.contains(u) ==> after.contains_key(u)
                && after[u]@ == before[f]@
            &&& res is Ok && !before.contains_key(u) && !sources@.contains(u)
                ==> !after.contains_key(u)
            &&& before.contains_key(f) && targets@.contains(f) && fed_by(fragment_map@, f, u)
                && sources@.contains(u) && before.contains_key(u) && before[u]@ != before[f]@
                ==> res is Err
            &&& res is Err ==> (before.contains_key(f) ==> after.contains_key(f) && after[f]@
                == before[f]@)
        }),
{
    let fragments = fragment_map@;
    let before = plans_of(old(reschedule)@);
    let after = plans_of(final(reschedule)@);
    let src = sources@;
    let tgt = targets@;
    lemma_reaches_self(fragments, src, tgt, f);
    lemma_reaches_self(fragments, src, tgt, u);
    if targets@.contains(f) && fed_by(fragments, f, u) && src.contains(u) {
        let i = choose|i: int|
            0 <= i < fragments[f].upstream_fragment_ids@.len()
                && #[trigger] fragments[f].upstream_fragment_ids@[i] == u;
        assert(fragments[f].upstream_fragment_ids@.contains(u));
        lemma_reaches_up(fragments, src, tgt, f, f, u);
    }
    assert(before.contains_key(f) <==> old(reschedule)@.contains_key(f));
    assert(before.contains_key(u) <==> old(reschedule)@.contains_key(u));
    assert(after.contains_key(f) <==> final(reschedule)@.contains_key(f));
    assert(after.contains_key(u) <==> final(reschedule)@.contains_key(u));
    if res is Ok {
        if before.contains_key(f) {
            assert(reached(fragments, src, tgt, before, f));
        }
        if before.contains_key(f) && reaches(fragments, src, tgt, f, u) {
            assert(reached(fragments, src, tgt, before, u));
        }
        if after.contains_key(u) {
            assert(reached(fragments, src, tgt, before, u));
            let a = choose|a: u32|
                before.contains_key(a) && #[trigger] reaches(fragments, src, tgt, a, u);
            lemma_reached_ends(fragments, src, tgt, a, u);
        }
    }
}

/// A parallelism that was set by hand is that of the table before, along the edges that join actors one to one; if
/// that table has another parallelism nothing is accepted. The tables of the fragments that follow others have no
/// parallelism of their own any more, and no other is changed.
pub proof fn lemma_hand_set_moves_up(
    fragment_ids: &BTreeSet<u32>,
    fragment_map: &BTreeMap<u32, &CustomFragmentInfo>,
    sources: &BTreeSet<u32>,
    targets: &BTreeSet<u32>,
    fragment_to_table: &BTreeMap<u32, u32>,
    parallelisms: &mut BTreeMap<u32, TableParallelism>,
    res: Result<(), ScaleError>,
    f: u32,
    u: u32,
    t: u32,
)
    requires
        call_ensures(
            resolve_no_shuffle_upstream_tables,
            (fragment_ids, fragment_map, sources, targets, fragment_to_table, parallelisms),
            res,
        ),
        fragment_ids@.contains(f),
    ensures
        ({
            let before = old(parallelisms)@;
            let after = final(parallelisms)@;
            let table_of = fragment_to_table@;
            let up = (targets@.contains(f) || sources@.contains(f)) && fed_by(fragment_map@, f, u)
                && sources@.contains(u);
            let by_hand = before.contains_key(table_of[f]) && before[table_of[f]]
                == TableParallelism::Custom;
            &&& res is Ok && targets@.contains(f) ==> !after.contains_key(table_of[f])
            &&& res is Ok && up && by_hand && (forall|x: u32|
                #[trigger] targets@.contains(x) ==> table_of[x] != table_of[u])
                ==> after.contains_key(table_of[u]) && after[table_of[u]] == TableParallelism::Custom
            &&& up && by_hand && before.contains_key(table_of[u]) && before[table_of[u]]
                != TableParallelism::Custom ==> res is Err
            &&& res is Ok && before.contains_key(t) && (forall|x: u32|
                #[trigger] targets@.contains(x) ==> table_of[x] != t) ==> after.contains_key(t)
                && after[t] == before[t]
            &&& after.contains_key(t) ==> (before.contains_key(t) && after[t] == before[t])
                || (!before.contains_key(t) && after[t] == TableParallelism::Custom)
            &&& res matches Err(e) ==> (e matches ScaleError::UpstreamTableParallelism {
                upstream_table_id,
                parallelism,
            } && before.contains_key(upstream_table_id) && before[upstream_table_id] == parallelism
                && parallelism != TableParallelism::Custom)
        }),
{
    let fragments = fragment_map@;
    let src = sources@;
    let tgt = targets@;
    let ids = fragment_ids@;
    let both = tgt.union(src);
    let table_of = fragment_to_table@;
    let before = old(parallelisms)@;
    lemma_reaches_self(fragments, src, both, f);
    assert(upstream_of_any(fragments, src, tgt, ids, f));
    if (tgt.contains(f) || src.contains(f)) && fed_by(fragments, f, u) && src.contains(u) {
        let i = choose|i: int|
            0 <= i < fragments[f].upstream_fragment_ids@.len()
                && #[trigger] fragments[f].upstream_fragment_ids@[i] == u;
        assert(fragments[f].upstream_fragment_ids@.contains(u));
        lemma_reaches_up(fragments, src, both, f, f, u);
    }
    if res is Ok {
        let gone = downstream_tables(fragments, src, tgt, ids, table_of);
        let par = choose|par: Map<u32, TableParallelism>| #[trigger]
            custom_passed_up(fragments, src, tgt, ids, table_of, before, par)
                && final(parallelisms)@ == par.remove_keys(gone);
        if before.contains_key(table_of[f]) && before[table_of[f]] == TableParallelism::Custom
            && reaches(fragments, src, both, f, u) {
            assert(is_custom(before, table_of[f]));
            assert(is_custom(par, table_of[u]));
        }
        if tgt.contains(f) {
            assert(gone.contains(table_of[f]));
        }
        if forall|x: u32| #[trigger] tgt.contains(x) ==> table_of[x] != t {
            assert(!gone.contains(t));
        }
        if forall|x: u32| #[trigger] tgt.contains(x) ==> table_of[x] != table_of[u] {
            assert(!gone.contains(table_of[u]));
        }
    }
}

} // verus!
