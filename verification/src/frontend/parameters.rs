//! The types of the parameters of a statement.
use crate::frontend::types::SqlType;
use std::collections::BTreeMap;
use vstd::prelude::*;

verus! {

broadcast use {vstd::std_specs::btree::group_btree_axioms, vstd::laws_cmp::group_laws_cmp};

/// The types of the parameters, which are counted from one. A parameter may be there without a type.
#[derive(Debug)]
pub struct ParameterTypes {
    pub types: BTreeMap<u64, Option<SqlType>>,
}

impl View for ParameterTypes {
    type V = Map<u64, Option<SqlType>>;

    open spec fn view(&self) -> Map<u64, Option<SqlType>> {
        self.types@
    }
}

/// The parameters that were given with a statement.
pub open spec fn given(types: Seq<Option<SqlType>>) -> Map<u64, Option<SqlType>> {
    Map::new(|i: u64| 1 <= i <= types.len(), |i: u64| types[i - 1])
}

/// The parameters are there without gaps.
pub open spec fn complete(types: Map<u64, Option<SqlType>>) -> bool {
    forall|i: u64| #[trigger] types.dom().contains(i) <==> 1 <= i <= types.dom().len()
}

/// The first place, in the order of the parameters, where another parameter is expected.
pub open spec fn first_gap(types: Map<u64, Option<SqlType>>, gap: u64) -> bool {
    if types.dom().contains(0) {
        gap == 1
    } else {
        &&& 1 <= gap <= types.dom().len()
        &&& !types.dom().contains(gap)
        &&& forall|i: u64| 1 <= i < gap ==> #[trigger] types.dom().contains(i)
    }
}

/// The numbers from one on.
pub open spec fn counting(n: nat) -> Set<u64> {
    Set::new(|i: u64| 1 <= i <= n)
}

/// There are as many as counted.
proof fn lemma_counting(n: nat)
    requires
        n <= u64::MAX,
    ensures
        counting(n).finite(),
        counting(n).len() == n,
    decreases n,
{
    if n == 0 {
        assert(counting(0) =~= Set::<u64>::empty());
    } else {
        lemma_counting((n - 1) as nat);
        assert(counting(n) =~= counting((n - 1) as nat).insert(n as u64));
    }
}

impl ParameterTypes {
    /// The parameters that were given with a statement.
    pub fn new(specified_param_types: Vec<Option<SqlType>>) -> (res: ParameterTypes)
        ensures
            res@ == given(specified_param_types@),
    {
        let mut types: BTreeMap<u64, Option<SqlType>> = BTreeMap::new();
        let mut i: usize = 0;
        assert(types@ =~= given(specified_param_types@.take(0)));
        while i < specified_param_types.len()
            invariant
                i <= specified_param_types.len(),
                types@ == given(specified_param_types@.take(i as int)),
            decreases specified_param_types.len() - i,
        {
            let index: u64 = i as u64 + 1;
            types.insert(index, specified_param_types[i]);
            i = i + 1;
            assert(types@ =~= given(specified_param_types@.take(i as int)));
        }
        assert(specified_param_types@.take(i as int) =~= specified_param_types@);
        ParameterTypes { types }
    }

    /// Whether the type of the parameter is known.
    pub fn has_infer(&self, index: u64) -> (res: bool)
        requires
            self@.dom().contains(index),
        ensures
            res == (self@[index] is Some),
    {
        self.types.get(&index).unwrap().is_some()
    }

    /// The type of the parameter, if it is known.
    pub fn read_type(&self, index: u64) -> (res: Option<SqlType>)
        requires
            self@.dom().contains(index),
        ensures
            res == self@[index],
    {
        *self.types.get(&index).unwrap()
    }

    /// A parameter was met: it is there now, without a type if it was not there before.
    pub fn record_new_param(&mut self, index: u64)
        ensures
            final(self)@ == (if old(self)@.dom().contains(index) {
                old(self)@
            } else {
                old(self)@.insert(index, None)
            }),
    {
        if !self.types.contains_key(&index) {
            self.types.insert(index, None);
        }
    }

    /// The type of a parameter was found.
    pub fn record_infer_type(&mut self, index: u64, data_type: SqlType)
        requires
            old(self)@.dom().contains(index),
            old(self)@[index] is None,
        ensures
            final(self)@ == old(self)@.insert(index, Some(data_type)),
    {
        self.types.insert(index, Some(data_type));
    }

    /// The types of all parameters; one whose type is not known is a text. It is an error if a parameter is
    /// missing: the place where it is expected is returned.
    pub fn export(&self) -> (res: Result<Vec<SqlType>, u64>)
        ensures
            match res {
                Ok(types) => complete(self@) && types@ == Seq::new(
                    self@.dom().len(),
                    |i: int|
                        match self@[(i + 1) as u64] {
                            Some(t) => t,
                            None => SqlType::Varchar,
                        },
                ),
                Err(gap) => !complete(self@) && first_gap(self@, gap),
            },
    {
        let len: usize = self.types.len();
        let n: u64 = len as u64;
        let mut types: Vec<SqlType> = Vec::new();
        if self.types.contains_key(&0) {
            assert(self@.dom().contains(0));
            return Err(1);
        }
        let mut i: u64 = 0;
        while i < n
            invariant
                i <= n,
                n == self@.dom().len(),
                self@ == self.types@,
                self@.dom().finite(),
                !self@.dom().contains(0),
                forall|j: u64| 1 <= j <= i ==> #[trigger] self@.dom().contains(j),
                types@ == Seq::new(
                    i as nat,
                    |j: int|
                        match self@[(j + 1) as u64] {
                            Some(t) => t,
                            None => SqlType::Varchar,
                        },
                ),
            decreases n - i,
        {
            let index: u64 = i + 1;
            match self.types.get(&index) {
                Some(t) => {
                    let found = match t {
                        Some(x) => *x,
                        None => SqlType::Varchar,
                    };
                    types.push(found);
                },
                None => {
                    assert(!self@.dom().contains(index));
                    return Err(index);
                },
            }
            i = i + 1;
            assert(types@ =~= Seq::new(
                i as nat,
                |j: int|
                    match self@[(j + 1) as u64] {
                        Some(t) => t,
                        None => SqlType::Varchar,
                    },
            ));
        }
        proof {
            lemma_counting(n as nat);
            assert(counting(n as nat).subset_of(self@.dom()));
            vstd::set_lib::lemma_subset_equality(counting(n as nat), self@.dom());
            assert(forall|j: u64| #[trigger] self@.dom().contains(j) <==> counting(n as nat).contains(j));
        }
        Ok(types)
    }
}

/// The parameters that a statement was given with are all there, and their types are those that were given;
/// those without one are texts.
pub proof fn lemma_given_complete(types: Seq<Option<SqlType>>)
    requires
        types.len() <= u64::MAX,
    ensures
        complete(given(types)),
        given(types).dom().len() == types.len(),
{
    lemma_counting(types.len());
    assert(given(types).dom() =~= counting(types.len()));
}

/// Meeting a parameter again changes nothing, and never what is known of another.
pub proof fn lemma_new_param_keeps(types: Map<u64, Option<SqlType>>, index: u64, other: u64)
    requires
        types.dom().contains(other),
    ensures
        ({
            let after = if types.dom().contains(index) {
                types
            } else {
                types.insert(index, None)
            };
            after.dom().contains(other) && after[other] == types[other] && after.dom().contains(index)
        }),
{
}

} // verus!
