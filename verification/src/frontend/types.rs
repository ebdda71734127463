//! Types of values, and maps from names.
use vstd::prelude::*;

verus! {

/// The type of a value. Structures and lists are given by the number under which they are known.
#[derive(Clone, Copy, Debug, PartialEq, Eq, Structural)]
pub enum SqlType {
    Boolean,
    Int16,
    Int32,
    Int64,
    Int256,
    Serial,
    Float32,
    Float64,
    Decimal,
    Date,
    Time,
    Timestamp,
    Timestamptz,
    Interval,
    Varchar,
    Bytea,
    Jsonb,
    Struct(u32),
    List(u32),
}

/// A map from names to numbers under which something is known.
#[derive(Debug)]
pub struct NameMap {
    pub entries: Vec<(String, u64)>,
}

/// The place of the name among the entries.
pub open spec fn place_of(entries: Seq<(String, u64)>, name: Seq<char>) -> Option<int>
    decreases entries.len(),
{
    if entries.len() == 0 {
        None
    } else if entries.last().0@ == name {
        Some(entries.len() - 1)
    } else {
        place_of(entries.drop_last(), name)
    }
}

impl View for NameMap {
    type V = Map<Seq<char>, u64>;

    open spec fn view(&self) -> Map<Seq<char>, u64> {
        Map::new(
            |name: Seq<char>| place_of(self.entries@, name) is Some,
            |name: Seq<char>| self.entries@[place_of(self.entries@, name)->Some_0].1,
        )
    }
}

/// A place that was found holds the name, and every place that holds it is found or comes before.
proof fn lemma_place_of(entries: Seq<(String, u64)>, name: Seq<char>)
    ensures
        match place_of(entries, name) {
            Some(i) => 0 <= i < entries.len() && entries[i].0@ == name && forall|j: int|
                i < j < entries.len() ==> (#[trigger] entries[j]).0@ != name,
            None => forall|j: int| 0 <= j < entries.len() ==> (#[trigger] entries[j]).0@ != name,
        },
    decreases entries.len(),
{
    if entries.len() > 0 && entries.last().0@ != name {
        lemma_place_of(entries.drop_last(), name);
        assert forall|j: int|
            0 <= j < entries.len() - 1 && entries.drop_last()[j].0@ != name implies (
        #[trigger] entries[j]).0@ != name by {
            assert(entries.drop_last()[j] == entries[j]);
        }
        match place_of(entries.drop_last(), name) {
            Some(i) => {
                assert forall|j: int| i < j < entries.len() implies (
                #[trigger] entries[j]).0@ != name by {
                    if j < entries.len() - 1 {
                        assert(entries.drop_last()[j] == entries[j]);
                    }
                }
            },
            None => {
                assert forall|j: int| 0 <= j < entries.len() implies (
                #[trigger] entries[j]).0@ != name by {
                    if j < entries.len() - 1 {
                        assert(entries.drop_last()[j] == entries[j]);
                    }
                }
            },
        }
    }
}

impl NameMap {
    /// A map without entries.
    pub fn new() -> (res: NameMap)
        ensures
            res@ == Map::<Seq<char>, u64>::empty(),
    {
        let res = NameMap { entries: Vec::new() };
        assert(res@ =~= Map::<Seq<char>, u64>::empty());
        res
    }

    /// Maps the name to the value, whatever it was mapped to.
    pub fn insert(&mut self, name: String, value: u64)
        ensures
            final(self)@ == old(self)@.insert(name@, value),
    {
        let ghost before = self.entries@;
        self.entries.push((name, value));
        proof {
            assert(self.entries@.drop_last() =~= before);
            assert forall|n: Seq<char>| n != name@ && place_of(before, n) is Some implies (
            #[trigger] self@.dom().contains(n)) && self@[n] == old(self)@[n] by {
                lemma_place_of(before, n);
            }
            assert(self@ =~= old(self)@.insert(name@, value));
        }
    }

    /// What the name is mapped to.
    pub fn get(&self, name: &str) -> (res: Option<u64>)
        ensures
            res == (if self@.dom().contains(name@) {
                Some(self@[name@])
            } else {
                None
            }),
    {
        let wanted = name.to_owned();
        let mut i: usize = self.entries.len();
        assert(self.entries@.take(i as int) =~= self.entries@);
        while i > 0
            invariant
                i <= self.entries.len(),
                wanted@ == name@,
                place_of(self.entries@, name@) == place_of(self.entries@.take(i as int), name@),
            decreases i,
        {
            assert(self.entries@.take(i as int).drop_last() =~= self.entries@.take(i - 1));
            if self.entries[i - 1].0 == wanted {
                return Some(self.entries[i - 1].1);
            }
            i = i - 1;
        }
        None
    }

    /// Whether nothing is mapped.
    pub fn is_empty(&self) -> (res: bool)
        ensures
            res == (self@ == Map::<Seq<char>, u64>::empty()),
    {
        proof {
            if self.entries@.len() == 0 {
                assert(self@ =~= Map::<Seq<char>, u64>::empty());
            } else {
                assert(self@.dom().contains(self.entries@.last().0@));
            }
        }
        self.entries.len() == 0
    }
}

impl Clone for NameMap {
    fn clone(&self) -> (res: NameMap)
        ensures
            res@ == self@,
    {
        let mut res = NameMap::new();
        let mut i: usize = 0;
        proof {
            assert(NameMap { entries: res.entries }@ =~= res@);
        }
        while i < self.entries.len()
            invariant
                i <= self.entries.len(),
                res@ == map_of(self.entries@.take(i as int)),
            decreases self.entries.len() - i,
        {
            let ghost part = self.entries@.take(i as int);
            proof {
                lemma_map_push(part, self.entries@[i as int]);
                assert(part.push(self.entries@[i as int]) =~= self.entries@.take(i + 1));
            }
            res.insert(self.entries[i].0.clone(), self.entries[i].1);
            i = i + 1;
        }
        assert(self.entries@.take(i as int) =~= self.entries@);
        assert(self@ =~= map_of(self.entries@));
        res
    }
}

/// The map that the entries give: a later one takes the place of an earlier one.
pub open spec fn map_of(entries: Seq<(String, u64)>) -> Map<Seq<char>, u64> {
    Map::new(
        |name: Seq<char>| place_of(entries, name) is Some,
        |name: Seq<char>| entries[place_of(entries, name)->Some_0].1,
    )
}

/// One more entry is inserted.
proof fn lemma_map_push(entries: Seq<(String, u64)>, entry: (String, u64))
    ensures
        map_of(entries.push(entry)) == map_of(entries).insert(entry.0@, entry.1),
{
    let more = entries.push(entry);
    assert(more.drop_last() =~= entries);
    assert forall|n: Seq<char>| n != entry.0@ && place_of(entries, n) is Some implies map_of(
        more,
    )[n] == map_of(entries)[n] by {
        lemma_place_of(entries, n);
    }
    assert(map_of(more) =~= map_of(entries).insert(entry.0@, entry.1));
}

} // verus!
