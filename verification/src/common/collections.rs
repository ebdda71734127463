//! Walks over ordered sets and maps of ids.
use std::collections::BTreeMap;
use std::collections::BTreeSet;
use vstd::prelude::*;
use vstd::std_specs::iter::IteratorSpec;

verus! {

broadcast use {
    vstd::std_specs::btree::group_btree_axioms,
    vstd::laws_cmp::group_laws_cmp,
};

/// Each element is smaller than those after it.
pub open spec fn ascending(s: Seq<u32>) -> bool {
    forall|i: int, j: int| 0 <= i < j < s.len() ==> s[i] < s[j]
}

/// The elements of a finite set of ids, in ascending order.
pub open spec fn ascending_of(set: Set<u32>) -> Seq<u32> {
    choose|s: Seq<u32>| ascending(s) && #[trigger] s.to_set() == set
}

/// Ascending sequences with the same elements are the same sequence.
pub proof fn lemma_ascending_unique(a: Seq<u32>, b: Seq<u32>)
    requires
        ascending(a),
        ascending(b),
        a.to_set() == b.to_set(),
    ensures
        a == b,
    decreases a.len(),
{
    if a.len() == 0 {
        if b.len() > 0 {
            assert(b.to_set().contains(b[0]));
            assert(a.to_set().contains(b[0]));
        }
        assert(a =~= b);
    } else {
        assert(a.to_set().contains(a.last()));
        assert(b.to_set().contains(a.last()));
        assert(b.contains(a.last()));
        assert(b.to_set().contains(b.last()));
        assert(a.to_set().contains(b.last()));
        assert(a.contains(b.last()));
        let i = b.index_of(a.last());
        let j = a.index_of(b.last());
        assert(a.last() == b.last());
        let a0 = a.drop_last();
        let b0 = b.drop_last();
        assert forall|x: u32| a0.to_set().contains(x) <==> b0.to_set().contains(x) by {
            if a0.contains(x) {
                let k = a0.index_of(x);
                assert(a[k] == x);
                assert(a.to_set().contains(x));
                assert(b.contains(x));
                let m = b.index_of(x);
                assert(b0[m] == x);
            }
            if b0.contains(x) {
                let k = b0.index_of(x);
                assert(b[k] == x);
                assert(b.to_set().contains(x));
                assert(a.contains(x));
                let m = a.index_of(x);
                assert(a0[m] == x);
            }
        }
        assert(a0.to_set() =~= b0.to_set());
        lemma_ascending_unique(a0, b0);
        assert(a =~= a0.push(a.last()));
        assert(b =~= b0.push(b.last()));
    }
}

/// The ascending sequence of a set is the one that `ascending_of` names.
pub proof fn lemma_ascending_of(s: Seq<u32>)
    requires
        ascending(s),
    ensures
        ascending_of(s.to_set()) == s,
{
    let t = ascending_of(s.to_set());
    assert(ascending(t) && t.to_set() == s.to_set());
    lemma_ascending_unique(s, t);
}

/// Puts `x` at its place in an ascending vector; an `x` that is there already is not put twice.
pub fn insert_ascending(v: &mut Vec<u32>, x: u32)
    requires
        ascending(old(v)@),
    ensures
        ascending(final(v)@),
        final(v)@.to_set() == old(v)@.to_set().insert(x),
{
    let mut k: usize = 0;
    while k < v.len() && v[k] < x
        invariant
            k <= v.len(),
            v@ == old(v)@,
            forall|i: int| 0 <= i < k ==> v@[i] < x,
        decreases v.len() - k,
    {
        k = k + 1;
    }
    let ghost before = v@;
    if k < v.len() && v[k] == x {
        assert(before.contains(before[k as int]));
        assert(before.to_set() =~= before.to_set().insert(x));
        return;
    }
    v.insert(k, x);
    assert(v@[k as int] == x);
    assert forall|y: u32| v@.to_set().contains(y) <==> before.to_set().insert(x).contains(y) by {
        if v@.contains(y) {
            let i = v@.index_of(y);
            if i < k {
                assert(before[i] == y);
            } else if i > k {
                assert(before[i - 1] == y);
            }
        }
        if before.contains(y) {
            let i = before.index_of(y);
            if i < k {
                assert(v@[i] == y);
            } else {
                assert(v@[i + 1] == y);
            }
        }
    }
    assert(v@.to_set() =~= before.to_set().insert(x));
}

/// An ascending vector holds no element twice.
pub proof fn lemma_ascending_len(s: Seq<u32>)
    requires
        ascending(s),
    ensures
        s.no_duplicates(),
        s.to_set().finite(),
        s.to_set().len() == s.len(),
{
    s.unique_seq_to_set();
}

/// The elements of `set` in ascending order.
pub fn set_to_vec(set: &BTreeSet<u32>) -> (res: Vec<u32>)
    ensures
        res@ == ascending_of(set@),
        ascending(res@),
        res@.to_set() == set@,
        res@.len() == set@.len(),
        set@.finite(),
{
    let mut res: Vec<u32> = Vec::new();
    assert(res@.to_set() =~= set.iter().remaining().unref().take(0).to_set());
    for k in it: set.iter()
        invariant
            ascending(res@),
            res@.to_set() == it.seq().unref().take(it.index() as int).to_set(),
            it.seq() == set.iter().remaining(),
    {
        let ghost seen = it.seq().unref().take(it.index() as int);
        insert_ascending(&mut res, *k);
        proof {
            lemma_to_set_push(seen, *k);
            assert(it.seq().unref().take(it.index() + 1) =~= seen.push(*k));
        }
    }
    proof {
        let all = set.iter().remaining().unref();
        assert(all.take(all.len() as int) =~= all);
        lemma_ascending_of(res@);
        lemma_ascending_len(res@);
    }
    res
}

/// Appending an element adds it to the set of elements.
pub proof fn lemma_to_set_push(s: Seq<u32>, x: u32)
    ensures
        s.push(x).to_set() == s.to_set().insert(x),
{
    assert forall|y: u32| s.push(x).to_set().contains(y) <==> s.to_set().insert(x).contains(y) by {
        if s.contains(y) {
            assert(s.push(x)[s.index_of(y)] == y);
        }
        assert(s.push(x)[s.len() as int] == x);
        if s.push(x).contains(y) {
            let i = s.push(x).index_of(y);
            if i < s.len() {
                assert(s[i] == y);
            }
        }
    }
    assert(s.push(x).to_set() =~= s.to_set().insert(x));
}

/// The keys of `map` in ascending order.
pub fn map_keys<V>(map: &BTreeMap<u32, V>) -> (res: Vec<u32>)
    ensures
        res@ == ascending_of(map@.dom()),
        ascending(res@),
        res@.to_set() == map@.dom(),
        res@.len() == map@.len(),
        map@.dom().finite(),
{
    let mut res: Vec<u32> = Vec::new();
    assert(res@.to_set() =~= map.keys().remaining().unref().take(0).to_set());
    for k in it: map.keys()
        invariant
            ascending(res@),
            res@.to_set() == it.seq().unref().take(it.index() as int).to_set(),
            it.seq() == map.keys().remaining(),
    {
        let ghost seen = it.seq().unref().take(it.index() as int);
        insert_ascending(&mut res, *k);
        proof {
            lemma_to_set_push(seen, *k);
            assert(it.seq().unref().take(it.index() + 1) =~= seen.push(*k));
        }
    }
    proof {
        let all = map.keys().remaining().unref();
        assert(all.take(all.len() as int) =~= all);
        lemma_ascending_of(res@);
        lemma_ascending_len(res@);
    }
    res
}

/// A set of ids has no more elements than there are ids.
pub proof fn lemma_id_set_bound(s: Set<u32>)
    requires
        s.finite(),
    ensures
        s.len() <= 0x1_0000_0000,
{
    let ints = s.map(|x: u32| x as int);
    let range = vstd::set_lib::set_int_range(0, 0x1_0000_0000);
    vstd::set_lib::lemma_int_range(0, 0x1_0000_0000);
    assert(ints.subset_of(range));
    vstd::set_lib::lemma_len_subset(ints, range);
    vstd::set_lib::lemma_map_size(s, ints, |x: u32| x as int);
}

/// The place of `x` in an ascending sequence that does not hold it.
proof fn lemma_place(s: Seq<u32>, x: u32) -> (p: int)
    requires
        ascending(s),
        !s.contains(x),
    ensures
        0 <= p <= s.len(),
        forall|i: int| 0 <= i < p ==> s[i] < x,
        forall|i: int| p <= i < s.len() ==> s[i] > x,
    decreases s.len(),
{
    if s.len() == 0 {
        0
    } else if s.last() < x {
        s.len() as int
    } else {
        assert(s[s.len() - 1] == s.last());
        assert(s.last() != x);
        let s0 = s.drop_last();
        assert(!s0.contains(x)) by {
            if s0.contains(x) {
                assert(s[s0.index_of(x)] == x);
            }
        }
        let p = lemma_place(s0, x);
        assert(forall|i: int| 0 <= i < s0.len() ==> s0[i] == s[i]);
        p
    }
}

/// Every finite set of ids has an ascending sequence.
pub proof fn lemma_ascending_exists(set: Set<u32>)
    requires
        set.finite(),
    ensures
        ascending(ascending_of(set)),
        ascending_of(set).to_set() == set,
        ascending_of(set).len() == set.len(),
    decreases set.len(),
{
    if set.len() == 0 {
        let s = Seq::<u32>::empty();
        assert(s.to_set() =~= set);
        lemma_ascending_of(s);
    } else {
        let x = set.choose();
        let rest = set.remove(x);
        lemma_ascending_exists(rest);
        let t = ascending_of(rest);
        assert(!t.contains(x)) by {
            if t.contains(x) {
                assert(t.to_set().contains(x));
            }
        }
        let p = lemma_place(t, x);
        let s = t.insert(p, x);
        assert(ascending(s));
        assert forall|y: u32| s.to_set().contains(y) <==> set.contains(y) by {
            assert(s[p] == x);
            if s.contains(y) {
                let i = s.index_of(y);
                if i < p {
                    assert(t[i] == y);
                    assert(t.to_set().contains(y));
                } else if i > p {
                    assert(t[i - 1] == y);
                    assert(t.to_set().contains(y));
                }
            }
            if set.contains(y) && y != x {
                assert(t.to_set().contains(y));
                let i = t.index_of(y);
                if i < p {
                    assert(s[i] == y);
                } else {
                    assert(s[i + 1] == y);
                }
            }
        }
        assert(s.to_set() =~= set);
        lemma_ascending_of(s);
    }
}

/// Whether the sets have the same elements.
pub fn same_set(a: &BTreeSet<u32>, b: &BTreeSet<u32>) -> (res: bool)
    ensures
        res == (a@ == b@),
{
    let x = set_to_vec(a);
    let y = set_to_vec(b);
    if x.len() != y.len() {
        return false;
    }
    let mut i: usize = 0;
    while i < x.len()
        invariant
            i <= x.len(),
            x.len() == y.len(),
            x@ == ascending_of(a@),
            y@ == ascending_of(b@),
            forall|j: int| 0 <= j < i ==> x@[j] == y@[j],
        decreases x.len() - i,
    {
        if x[i] != y[i] {
            assert(x@[i as int] != y@[i as int]);
            return false;
        }
        i = i + 1;
    }
    assert(x@ =~= y@);
    true
}

/// The first element of `s` that is in `bad`.
pub open spec fn first_in(s: Seq<u32>, bad: Set<u32>) -> Option<u32>
    decreases s.len(),
{
    if s.len() == 0 {
        None
    } else if bad.contains(s[0]) {
        Some(s[0])
    } else {
        first_in(s.skip(1), bad)
    }
}

/// The element that `first_in` gives is one, and it gives one where there is one.
pub proof fn lemma_first_in(s: Seq<u32>, bad: Set<u32>)
    ensures
        match first_in(s, bad) {
            Some(x) => s.contains(x) && bad.contains(x),
            None => forall|i: int| 0 <= i < s.len() ==> !bad.contains(#[trigger] s[i]),
        },
    decreases s.len(),
{
    if s.len() > 0 && !bad.contains(s[0]) {
        lemma_first_in(s.skip(1), bad);
        match first_in(s.skip(1), bad) {
            Some(x) => {
                let k = s.skip(1).index_of(x);
                assert(s[k + 1] == x);
            },
            None => {
                assert forall|i: int| 0 <= i < s.len() implies !bad.contains(#[trigger] s[i]) by {
                    if i > 0 {
                        assert(s.skip(1)[i - 1] == s[i]);
                    }
                }
            },
        }
    }
}

/// The first element of an index on is the first of all where none before it is bad.
pub proof fn lemma_first_from(s: Seq<u32>, bad: Set<u32>, k: int)
    requires
        0 <= k <= s.len(),
        forall|i: int| 0 <= i < k ==> !bad.contains(#[trigger] s[i]),
    ensures
        first_in(s, bad) == first_in(s.skip(k), bad),
    decreases k,
{
    if k > 0 {
        let t = s.skip(1);
        assert forall|i: int| 0 <= i < k - 1 implies !bad.contains(#[trigger] t[i]) by {
            assert(t[i] == s[i + 1]);
        }
        assert(!bad.contains(s[0]));
        lemma_first_from(t, bad, k - 1);
        assert(t.skip(k - 1) =~= s.skip(k));
    } else {
        assert(s.skip(0) =~= s);
    }
}

/// References to the values of a map.
pub open spec fn refs<'a, V>(m: Map<u32, V>) -> Map<u32, &'a V> {
    Map::new(|k: u32| m.contains_key(k), |k: u32| &m[k])
}

/// The map that gives every key of a set the same value.
pub open spec fn constant<W>(keys: Set<u32>, w: W) -> Map<u32, W> {
    Map::new(|k: u32| keys.contains(k), |k: u32| w)
}

/// Enters references to all values of `src` into `dst`.
pub fn merge_refs<'a, V>(dst: &mut BTreeMap<u32, &'a V>, src: &'a BTreeMap<u32, V>)
    ensures
        final(dst)@ == old(dst)@.union_prefer_right(refs(src@)),
{
    let keys = map_keys(src);
    let ghost d0 = dst@;
    let mut i: usize = 0;
    assert(dst@ =~= d0.union_prefer_right(refs(src@).restrict(keys@.take(0).to_set())));
    while i < keys.len()
        invariant
            i <= keys.len(),
            keys@.to_set() == src@.dom(),
            dst@ == d0.union_prefer_right(refs(src@).restrict(keys@.take(i as int).to_set())),
        decreases keys.len() - i,
    {
        let k: u32 = keys[i];
        assert(keys@.to_set().contains(keys@[i as int]));
        let v: &'a V = src.get(&k).unwrap();
        dst.insert(k, v);
        proof {
            assert(keys@.take(i + 1) =~= keys@.take(i as int).push(k));
            lemma_to_set_push(keys@.take(i as int), k);
            assert(dst@ =~= d0.union_prefer_right(
                refs(src@).restrict(keys@.take(i + 1).to_set()),
            ));
        }
        i = i + 1;
    }
    assert(keys@.take(i as int) =~= keys@);
    assert(refs(src@).restrict(keys@.to_set()) =~= refs(src@));
}

/// Enters all entries of `src` into `dst`.
pub fn merge_copy<V: Copy>(dst: &mut BTreeMap<u32, V>, src: &BTreeMap<u32, V>)
    ensures
        final(dst)@ == old(dst)@.union_prefer_right(src@),
{
    let keys = map_keys(src);
    let ghost d0 = dst@;
    let mut i: usize = 0;
    assert(dst@ =~= d0.union_prefer_right(src@.restrict(keys@.take(0).to_set())));
    while i < keys.len()
        invariant
            i <= keys.len(),
            keys@.to_set() == src@.dom(),
            dst@ == d0.union_prefer_right(src@.restrict(keys@.take(i as int).to_set())),
        decreases keys.len() - i,
    {
        let k: u32 = keys[i];
        assert(keys@.to_set().contains(keys@[i as int]));
        let v: V = *src.get(&k).unwrap();
        dst.insert(k, v);
        proof {
            assert(keys@.take(i + 1) =~= keys@.take(i as int).push(k));
            lemma_to_set_push(keys@.take(i as int), k);
            assert(dst@ =~= d0.union_prefer_right(src@.restrict(keys@.take(i + 1).to_set())));
        }
        i = i + 1;
    }
    assert(keys@.take(i as int) =~= keys@);
    assert(src@.restrict(keys@.to_set()) =~= src@);
}

/// Enters `w` into `dst` for every key of `src`.
pub fn merge_constant<V, W: Copy>(dst: &mut BTreeMap<u32, W>, src: &BTreeMap<u32, V>, w: W)
    ensures
        final(dst)@ == old(dst)@.union_prefer_right(constant(src@.dom(), w)),
{
    let keys = map_keys(src);
    let ghost d0 = dst@;
    let mut i: usize = 0;
    assert(dst@ =~= d0.union_prefer_right(constant(keys@.take(0).to_set(), w)));
    while i < keys.len()
        invariant
            i <= keys.len(),
            dst@ == d0.union_prefer_right(constant(keys@.take(i as int).to_set(), w)),
        decreases keys.len() - i,
    {
        let k: u32 = keys[i];
        dst.insert(k, w);
        proof {
            assert(keys@.take(i + 1) =~= keys@.take(i as int).push(k));
            lemma_to_set_push(keys@.take(i as int), k);
            assert(dst@ =~= d0.union_prefer_right(constant(keys@.take(i + 1).to_set(), w)));
        }
        i = i + 1;
    }
    assert(keys@.take(i as int) =~= keys@);
}

/// The keys of a map.
pub fn key_set<V>(map: &BTreeMap<u32, V>) -> (res: BTreeSet<u32>)
    ensures
        res@ == map@.dom(),
{
    let keys = map_keys(map);
    let mut res: BTreeSet<u32> = BTreeSet::new();
    let mut i: usize = 0;
    assert(res@ =~= keys@.take(0).to_set());
    while i < keys.len()
        invariant
            i <= keys.len(),
            res@ == keys@.take(i as int).to_set(),
        decreases keys.len() - i,
    {
        res.insert(keys[i]);
        proof {
            assert(keys@.take(i + 1) =~= keys@.take(i as int).push(keys@[i as int]));
            lemma_to_set_push(keys@.take(i as int), keys@[i as int]);
        }
        i = i + 1;
    }
    assert(keys@.take(i as int) =~= keys@);
    res
}

/// Copies a list of ids.
pub fn copy_ids(ids: &Vec<u32>) -> (res: Vec<u32>)
    ensures
        res@ == ids@,
{
    let res = ids.clone();
    assert(res@ =~= ids@);
    res
}

} // verus!
