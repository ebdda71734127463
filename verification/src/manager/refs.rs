//! How often objects are referred to.
use crate::common::collections::copy_ids;
use crate::manager::objects::{LogicalView, Sink, Source, Subscription, Table};
use std::collections::BTreeMap;
use vstd::prelude::*;

verus! {

broadcast use {
    vstd::std_specs::btree::group_btree_axioms,
    vstd::laws_cmp::group_laws_cmp,
};

/// An object that refers to others.
pub trait Refers {
    /// The objects that it refers to.
    spec fn refers(&self) -> Seq<u32>;

    /// The objects that it refers to.
    fn referred(&self) -> (res: Vec<u32>)
        ensures
            res@ == self.refers(),
    ;
}

impl Refers for Source {
    open spec fn refers(&self) -> Seq<u32> {
        match self.connection_id {
            Some(id) => seq![id],
            None => Seq::empty(),
        }
    }

    fn referred(&self) -> (res: Vec<u32>) {
        let mut res: Vec<u32> = Vec::new();
        if let Some(id) = self.connection_id {
            res.push(id);
        }
        assert(res@ =~= self.refers());
        res
    }
}

impl Refers for Subscription {
    open spec fn refers(&self) -> Seq<u32> {
        seq![self.dependent_table_id]
    }

    fn referred(&self) -> (res: Vec<u32>) {
        let mut res: Vec<u32> = Vec::new();
        res.push(self.dependent_table_id);
        assert(res@ =~= self.refers());
        res
    }
}

impl Refers for Sink {
    open spec fn refers(&self) -> Seq<u32> {
        self.dependent_relations@
    }

    fn referred(&self) -> (res: Vec<u32>) {
        copy_ids(&self.dependent_relations)
    }
}

impl Refers for Table {
    open spec fn refers(&self) -> Seq<u32> {
        self.dependent_relations@
    }

    fn referred(&self) -> (res: Vec<u32>) {
        copy_ids(&self.dependent_relations)
    }
}

impl Refers for LogicalView {
    open spec fn refers(&self) -> Seq<u32> {
        self.dependent_relations@
    }

    fn referred(&self) -> (res: Vec<u32>) {
        copy_ids(&self.dependent_relations)
    }
}

/// All references of the objects.
pub open spec fn refs_of<T: Refers>(list: Seq<T>) -> Seq<u32>
    decreases list.len(),
{
    if list.len() == 0 {
        Seq::empty()
    } else {
        refs_of(list.drop_last()) + list.last().refers()
    }
}

/// How often the id occurs.
pub open spec fn occurrences(refs: Seq<u32>, id: u32) -> nat
    decreases refs.len(),
{
    if refs.len() == 0 {
        0
    } else {
        occurrences(refs.drop_last(), id) + if refs.last() == id {
            1nat
        } else {
            0nat
        }
    }
}

/// The map counts how often each id occurs; one that does not occur is not counted.
pub open spec fn is_ref_count(counts: Map<u32, usize>, refs: Seq<u32>) -> bool {
    forall|id: u32|
        (#[trigger] counts.contains_key(id) <==> occurrences(refs, id) > 0) && (counts.contains_key(
            id,
        ) ==> counts[id] == occurrences(refs, id))
}

proof fn lemma_occurrences_bound(refs: Seq<u32>, id: u32)
    ensures
        occurrences(refs, id) <= refs.len(),
    decreases refs.len(),
{
    if refs.len() > 0 {
        lemma_occurrences_bound(refs.drop_last(), id);
    }
}

/// An empty map counts no references.
pub proof fn lemma_refs_start(counts: Map<u32, usize>)
    requires
        counts == Map::<u32, usize>::empty(),
    ensures
        is_ref_count(counts, Seq::empty()),
{
}

/// Counts the references of the objects.
pub(crate) fn add_refs<T: Refers>(
    counts: &mut BTreeMap<u32, usize>,
    list: &Vec<T>,
    Ghost(refs): Ghost<Seq<u32>>,
)
    requires
        is_ref_count(old(counts)@, refs),
        refs.len() + refs_of(list@).len() <= usize::MAX,
    ensures
        is_ref_count(final(counts)@, refs + refs_of(list@)),
{
    let mut i: usize = 0;
    assert(list@.take(0) =~= Seq::<T>::empty());
    assert(refs + refs_of(list@.take(0)) =~= refs);
    while i < list.len()
        invariant
            i <= list.len(),
            is_ref_count(counts@, refs + refs_of(list@.take(i as int))),
            refs.len() + refs_of(list@).len() <= usize::MAX,
        decreases list.len() - i,
    {
        assert(list@.take(i + 1).drop_last() =~= list@.take(i as int));
        assert(list@.take(i + 1).last() == list@[i as int]);
        proof {
            lemma_prefix_refs(list@, i + 1);
        }
        let own = list[i].referred();
        let ghost base = refs + refs_of(list@.take(i as int));
        let mut k: usize = 0;
        assert(base + own@.take(0) =~= base);
        while k < own.len()
            invariant
                k <= own.len(),
                base.len() + own@.len() <= usize::MAX,
                is_ref_count(counts@, base + own@.take(k as int)),
            decreases own.len() - k,
        {
            let id: u32 = own[k];
            let ghost now = base + own@.take(k as int);
            proof {
                lemma_occurrences_bound(now, id);
            }
            let count: usize = match counts.get(&id) {
                Some(count) => *count + 1,
                None => 1,
            };
            counts.insert(id, count);
            proof {
                let next = base + own@.take(k + 1);
                assert(next =~= now.push(id));
                assert(next.drop_last() =~= now);
            }
            k = k + 1;
        }
        assert(own@.take(k as int) =~= own@);
        assert(base + own@ =~= refs + refs_of(list@.take(i + 1)));
        i = i + 1;
    }
    assert(list@.take(i as int) =~= list@);
}

proof fn lemma_prefix_refs<T: Refers>(list: Seq<T>, k: int)
    requires
        0 <= k <= list.len(),
    ensures
        refs_of(list.take(k)).len() <= refs_of(list).len(),
    decreases list.len() - k,
{
    if k < list.len() {
        assert(list.take(k + 1).drop_last() =~= list.take(k));
        lemma_prefix_refs(list, k + 1);
    } else {
        assert(list.take(k) =~= list);
    }
}

} // verus!
