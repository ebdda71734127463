//! The groups of an aggregation, found by hash.
use vstd::prelude::*;

verus! {

/// The states of the aggregates of each group, by group key.
#[verifier::external_body]
pub struct GroupMap {
    map: hashbrown::HashMap<Vec<Option<i64>>, Vec<Option<i64>>>,
}

/// What the map holds.
pub uninterp spec fn group_contents(groups: &GroupMap) -> Map<
    Seq<Option<i64>>,
    Seq<Option<i64>>,
>;

/// No group.
pub open spec fn no_groups() -> Map<Seq<Option<i64>>, Seq<Option<i64>>> {
    Map::empty()
}

/// The keys behind a list.
pub open spec fn key_views(keys: Seq<Vec<Option<i64>>>) -> Seq<Seq<Option<i64>>> {
    Seq::new(keys.len(), |i: int| keys[i]@)
}

impl GroupMap {
    /// `hashbrown::HashMap::new`: the map is empty.
    #[verifier::external_body]
    pub(crate) fn new() -> (res: GroupMap)
        ensures
            group_contents(&res) == no_groups(),
    {
        GroupMap { map: hashbrown::HashMap::new() }
    }

    /// `hashbrown::HashMap::insert`: the key has the new states afterwards, and all other keys what they
    /// had.
    #[verifier::external_body]
    pub(crate) fn insert(&mut self, key: Vec<Option<i64>>, states: Vec<Option<i64>>)
        ensures
            group_contents(final(self)) == group_contents(old(self)).insert(key@, states@),
    {
        self.map.insert(key, states);
    }

    /// `hashbrown::HashMap::get`: the states of the key, if it is there.
    #[verifier::external_body]
    pub(crate) fn get(&self, key: &Vec<Option<i64>>) -> (res: Option<&Vec<Option<i64>>>)
        ensures
            match res {
                Some(states) => group_contents(self).contains_key(key@) && states@
                    == group_contents(self)[key@],
                None => !group_contents(self).contains_key(key@),
            },
    {
        self.map.get(key)
    }

    /// `hashbrown::HashMap::keys`: each key of the map once, in an order that is not said.
    #[verifier::external_body]
    pub(crate) fn keys(&self) -> (res: Vec<Vec<Option<i64>>>)
        ensures
            key_views(res@).no_duplicates(),
            key_views(res@).to_set() == group_contents(self).dom(),
    {
        self.map.keys().cloned().collect()
    }
}

} // verus!
