//! Aggregates rows by group.
use crate::batch::groups::{group_contents, key_views, GroupMap};
use crate::batch::memory::MemoryContext;
use crate::batch::merge_sort_exchange::row_views;
use crate::batch::row::{copy_values, DataChunk, Row};
use crate::frontend::types::SqlType;
use vstd::prelude::*;

verus! {

/// Why an aggregation fails.
#[derive(Clone, Copy, Debug, PartialEq, Eq, Structural)]
pub enum AggError {
    /// A number is out of range.
    NumericOutOfRange,
    /// The query was cancelled.
    Aborted,
    /// The groups take more memory than the limit allows.
    OutOfMemory(u64),
}

/// A function that aggregates the rows of a group. The state of a group is a value that may be missing.
pub trait AggregateFunction {
    /// The function can be applied to rows of the given width.
    spec fn fits(&self, width: nat) -> bool;

    /// The state of a group without rows.
    spec fn initial(&self) -> Result<Option<i64>, AggError>;

    /// The state of a group after one more row.
    spec fn updated(&self, state: Option<i64>, row: Seq<Option<i64>>) -> Result<
        Option<i64>,
        AggError,
    >;

    /// The result for a group in the given state.
    spec fn value(&self, state: Option<i64>) -> Result<Option<i64>, AggError>;

    /// How much memory the state takes.
    spec fn size(&self, state: Option<i64>) -> usize;

    /// The state of a group without rows.
    fn create_state(&self) -> (res: Result<Option<i64>, AggError>)
        ensures
            res == self.initial(),
    ;

    /// The state of a group after one more row.
    fn update(&self, state: Option<i64>, row: &Row) -> (res: Result<Option<i64>, AggError>)
        requires
            self.fits(row@.len()),
        ensures
            res == self.updated(state, row@),
    ;

    /// The result for a group in the given state.
    fn get_result(&self, state: Option<i64>) -> (res: Result<Option<i64>, AggError>)
        ensures
            res == self.value(state),
    ;

    /// How much memory the state takes.
    fn estimated_size(&self, state: Option<i64>) -> (res: usize)
        ensures
            res == self.size(state),
    ;
}

/// Aggregates of integers.
#[derive(Clone, Copy, Debug, PartialEq, Eq, Structural)]
pub enum IntAggregate {
    /// The number of rows.
    CountStar,
    /// The number of values in a column.
    Count(usize),
    /// The sum of the values in a column; missing if there is none.
    Sum(usize),
}

/// How much memory a state of one value takes.
pub const STATE_SIZE: usize = 24;

impl AggregateFunction for IntAggregate {
    open spec fn fits(&self, width: nat) -> bool {
        match self {
            IntAggregate::CountStar => true,
            IntAggregate::Count(column) => *column < width,
            IntAggregate::Sum(column) => *column < width,
        }
    }

    open spec fn initial(&self) -> Result<Option<i64>, AggError> {
        match self {
            IntAggregate::Sum(_) => Ok(None),
            _ => Ok(Some(0)),
        }
    }

    open spec fn updated(&self, state: Option<i64>, row: Seq<Option<i64>>) -> Result<
        Option<i64>,
        AggError,
    > {
        let added: Option<i64> = match self {
            IntAggregate::CountStar => Some(1),
            IntAggregate::Count(column) => if row[*column as int] is Some {
                Some(1)
            } else {
                None
            },
            IntAggregate::Sum(column) => row[*column as int],
        };
        match (state, added) {
            (_, None) => Ok(state),
            (None, Some(x)) => Ok(Some(x)),
            (Some(s), Some(x)) => if i64::MIN <= s + x <= i64::MAX {
                Ok(Some((s + x) as i64))
            } else {
                Err(AggError::NumericOutOfRange)
            },
        }
    }

    open spec fn value(&self, state: Option<i64>) -> Result<Option<i64>, AggError> {
        Ok(state)
    }

    open spec fn size(&self, state: Option<i64>) -> usize {
        STATE_SIZE
    }

    fn create_state(&self) -> (res: Result<Option<i64>, AggError>) {
        match self {
            IntAggregate::Sum(_) => Ok(None),
            _ => Ok(Some(0)),
        }
    }

    fn update(&self, state: Option<i64>, row: &Row) -> (res: Result<Option<i64>, AggError>) {
        let added: Option<i64> = match self {
            IntAggregate::CountStar => Some(1),
            IntAggregate::Count(column) => if row.values[*column].is_some() {
                Some(1)
            } else {
                None
            },
            IntAggregate::Sum(column) => row.values[*column],
        };
        match (state, added) {
            (_, None) => Ok(state),
            (None, Some(x)) => Ok(Some(x)),
            (Some(s), Some(x)) => match s.checked_add(x) {
                Some(sum) => Ok(Some(sum)),
                None => Err(AggError::NumericOutOfRange),
            },
        }
    }

    fn get_result(&self, state: Option<i64>) -> (res: Result<Option<i64>, AggError>) {
        Ok(state)
    }

    fn estimated_size(&self, state: Option<i64>) -> (res: usize) {
        STATE_SIZE
    }
}

/// The states of a group without rows.
pub open spec fn initial_states<A: AggregateFunction>(aggs: Seq<A>) -> Result<
    Seq<Option<i64>>,
    AggError,
>
    decreases aggs.len(),
{
    if aggs.len() == 0 {
        Ok(Seq::empty())
    } else {
        match initial_states(aggs.drop_last()) {
            Err(e) => Err(e),
            Ok(states) => match aggs.last().initial() {
                Err(e) => Err(e),
                Ok(state) => Ok(states.push(state)),
            },
        }
    }
}

/// The states of a group after one more row.
pub open spec fn updated_states<A: AggregateFunction>(
    aggs: Seq<A>,
    states: Seq<Option<i64>>,
    row: Seq<Option<i64>>,
) -> Result<Seq<Option<i64>>, AggError>
    decreases aggs.len(),
{
    if aggs.len() == 0 {
        Ok(Seq::empty())
    } else {
        match updated_states(aggs.drop_last(), states, row) {
            Err(e) => Err(e),
            Ok(before) => match aggs.last().updated(states[aggs.len() - 1], row) {
                Err(e) => Err(e),
                Ok(state) => Ok(before.push(state)),
            },
        }
    }
}

/// The key of the group of a row.
pub open spec fn key_of(row: Seq<Option<i64>>, columns: Seq<usize>) -> Seq<Option<i64>> {
    Seq::new(columns.len(), |i: int| row[columns[i] as int])
}

/// The states of the group after one more row, from those before or from those without rows.
pub open spec fn step<A: AggregateFunction>(
    aggs: Seq<A>,
    before: Option<Seq<Option<i64>>>,
    row: Seq<Option<i64>>,
) -> Result<Seq<Option<i64>>, AggError> {
    match before {
        Some(states) => updated_states(aggs, states, row),
        None => match initial_states(aggs) {
            Err(e) => Err(e),
            Ok(states) => updated_states(aggs, states, row),
        },
    }
}

/// The states of a key, if it is there.
pub open spec fn states_of(
    groups: Map<Seq<Option<i64>>, Seq<Option<i64>>>,
    key: Seq<Option<i64>>,
) -> Option<Seq<Option<i64>>> {
    if groups.contains_key(key) {
        Some(groups[key])
    } else {
        None
    }
}

/// The groups after the first rows of a chunk.
pub open spec fn grouped<A: AggregateFunction>(
    aggs: Seq<A>,
    columns: Seq<usize>,
    groups: Map<Seq<Option<i64>>, Seq<Option<i64>>>,
    chunk: DataChunk,
    k: nat,
) -> Result<Map<Seq<Option<i64>>, Seq<Option<i64>>>, AggError>
    decreases k,
{
    if k == 0 {
        Ok(groups)
    } else {
        match grouped(aggs, columns, groups, chunk, (k - 1) as nat) {
            Err(e) => Err(e),
            Ok(m) => if !chunk.visibility@[k - 1] {
                Ok(m)
            } else {
                let row = chunk.rows@[k - 1]@;
                let key = key_of(row, columns);
                match step(aggs, states_of(m, key), row) {
                    Err(e) => Err(e),
                    Ok(states) => Ok(m.insert(key, states)),
                }
            },
        }
    }
}

/// The groups are those that the rows before the first bad row come to.
pub open spec fn stopped_at<A: AggregateFunction>(
    aggs: Seq<A>,
    columns: Seq<usize>,
    groups: Map<Seq<Option<i64>>, Seq<Option<i64>>>,
    chunk: DataChunk,
    after: Map<Seq<Option<i64>>, Seq<Option<i64>>>,
) -> bool {
    exists|k: nat|
        k < chunk.rows@.len() && #[trigger] grouped(aggs, columns, groups, chunk, k) == Ok::<
            Map<Seq<Option<i64>>, Seq<Option<i64>>>,
            AggError,
        >(after) && grouped(aggs, columns, groups, chunk, k + 1) is Err
}

/// The memory that states take.
pub open spec fn states_size<A: AggregateFunction>(aggs: Seq<A>, states: Seq<Option<i64>>) -> int
    decreases aggs.len(),
{
    if aggs.len() == 0 {
        0
    } else {
        states_size(aggs.drop_last(), states) + aggs.last().size(states[aggs.len() - 1])
    }
}

/// How the memory of the groups changes with the first rows of a chunk.
pub open spec fn size_change<A: AggregateFunction>(
    aggs: Seq<A>,
    columns: Seq<usize>,
    groups: Map<Seq<Option<i64>>, Seq<Option<i64>>>,
    chunk: DataChunk,
    k: nat,
) -> int
    decreases k,
{
    if k == 0 {
        0
    } else {
        let before = size_change(aggs, columns, groups, chunk, (k - 1) as nat);
        match grouped(aggs, columns, groups, chunk, (k - 1) as nat) {
            Err(_) => before,
            Ok(m) => if !chunk.visibility@[k - 1] {
                before
            } else {
                let row = chunk.rows@[k - 1]@;
                let key = key_of(row, columns);
                match step(aggs, states_of(m, key), row) {
                    Err(_) => before,
                    Ok(states) => before + states_size(aggs, states) - (if m.contains_key(key) {
                        states_size(aggs, m[key])
                    } else {
                        0
                    }),
                }
            },
        }
    }
}

/// The memory that all groups take.
pub open spec fn groups_size<A: AggregateFunction>(
    aggs: Seq<A>,
    groups: Map<Seq<Option<i64>>, Seq<Option<i64>>>,
) -> int
    decreases groups.dom().len(),
    when groups.dom().finite()
{
    if groups.dom().len() == 0 {
        0
    } else {
        let key = groups.dom().choose();
        states_size(aggs, groups[key]) + groups_size(aggs, groups.remove(key))
    }
}

/// The memory of all groups is that of one and that of the others.
proof fn lemma_groups_size<A: AggregateFunction>(
    aggs: Seq<A>,
    groups: Map<Seq<Option<i64>>, Seq<Option<i64>>>,
    key: Seq<Option<i64>>,
)
    requires
        groups.dom().finite(),
        groups.contains_key(key),
    ensures
        groups_size(aggs, groups) == states_size(aggs, groups[key]) + groups_size(
            aggs,
            groups.remove(key),
        ),
    decreases groups.dom().len(),
{
    assert(groups.dom().len() > 0) by {
        if groups.dom().len() == 0 {
            assert(groups.dom() =~= Set::empty());
        }
    }
    let first = groups.dom().choose();
    if first != key {
        lemma_groups_size(aggs, groups.remove(first), key);
        lemma_groups_size(aggs, groups.remove(key), first);
        assert(groups.remove(first).remove(key) =~= groups.remove(key).remove(first));
    }
}

/// The changes that are counted add up to the memory of the groups: after the rows of a chunk the groups take
/// as much more memory as the change says.
pub proof fn lemma_memory_is_counted<A: AggregateFunction>(
    aggs: Seq<A>,
    columns: Seq<usize>,
    groups: Map<Seq<Option<i64>>, Seq<Option<i64>>>,
    chunk: DataChunk,
    k: nat,
)
    requires
        groups.dom().finite(),
        grouped(aggs, columns, groups, chunk, k) is Ok,
    ensures
        ({
            let after = grouped(aggs, columns, groups, chunk, k)->Ok_0;
            after.dom().finite() && groups_size(aggs, after) == groups_size(aggs, groups)
                + size_change(aggs, columns, groups, chunk, k)
        }),
    decreases k,
{
    if k > 0 {
        lemma_memory_is_counted(aggs, columns, groups, chunk, (k - 1) as nat);
        let m = grouped(aggs, columns, groups, chunk, (k - 1) as nat)->Ok_0;
        if chunk.visibility@[k - 1] {
            let row = chunk.rows@[k - 1]@;
            let key = key_of(row, columns);
            let states = step(aggs, states_of(m, key), row)->Ok_0;
            let after = m.insert(key, states);
            lemma_groups_size(aggs, after, key);
            if m.contains_key(key) {
                lemma_groups_size(aggs, m, key);
                assert(after.remove(key) =~= m.remove(key));
            } else {
                assert(after.remove(key) =~= m);
            }
        }
    }
}

/// A number that leaves room in 64 bits.
pub open spec fn has_room(x: int) -> bool {
    -0x4000_0000_0000_0000 < x < 0x4000_0000_0000_0000
}

/// No state takes more memory than the bound.
pub open spec fn sizes_within<A: AggregateFunction>(aggs: Seq<A>, bound: nat) -> bool {
    forall|a: int, state: Option<i64>|
        0 <= a < aggs.len() ==> #[trigger] aggs[a].size(state) <= bound
}

/// The states of a group take no more memory than the bound for each.
proof fn lemma_states_size<A: AggregateFunction>(
    aggs: Seq<A>,
    states: Seq<Option<i64>>,
    bound: nat,
)
    requires
        sizes_within(aggs, bound),
    ensures
        0 <= states_size(aggs, states) <= aggs.len() * bound,
    decreases aggs.len(),
{
    if aggs.len() > 0 {
        let init = aggs.drop_last();
        assert forall|a: int, state: Option<i64>| 0 <= a < init.len() implies #[trigger] init[a].size(
            state,
        ) <= bound by {
            assert(aggs[a].size(state) <= bound);
        }
        lemma_states_size(init, states, bound);
        assert(aggs[aggs.len() - 1].size(states[aggs.len() - 1]) <= bound);
        assert((aggs.len() - 1) * bound + bound == aggs.len() * bound) by (nonlinear_arith);
    }
}

/// With states that take no more memory than a bound, the memory changes by no more than the bound for each
/// state and row. So there is room in 64 bits where the product of all three is small.
pub proof fn lemma_change_has_room<A: AggregateFunction>(
    aggs: Seq<A>,
    columns: Seq<usize>,
    groups: Map<Seq<Option<i64>>, Seq<Option<i64>>>,
    chunk: DataChunk,
    k: nat,
    bound: nat,
)
    requires
        sizes_within(aggs, bound),
        k * (aggs.len() * bound) < 0x4000_0000_0000_0000,
    ensures
        -(k * (aggs.len() * bound)) <= size_change(aggs, columns, groups, chunk, k) <= k * (
        aggs.len() * bound),
        has_room(size_change(aggs, columns, groups, chunk, k)),
    decreases k,
{
    let n = aggs.len() * bound;
    if k > 0 {
        assert((k - 1) * n + n == k * n) by (nonlinear_arith);
        lemma_change_has_room(aggs, columns, groups, chunk, (k - 1) as nat, bound);
        match grouped(aggs, columns, groups, chunk, (k - 1) as nat) {
            Err(_) => {},
            Ok(m) => {
                let row = chunk.rows@[k - 1]@;
                let key = key_of(row, columns);
                lemma_states_size(aggs, m[key], bound);
                match step(aggs, states_of(m, key), row) {
                    Err(_) => {},
                    Ok(states) => {
                        lemma_states_size(aggs, states, bound);
                    },
                }
            },
        }
    }
}

/// The visible rows of a group among the first rows of a chunk.
pub open spec fn rows_of_group(
    chunk: DataChunk,
    columns: Seq<usize>,
    key: Seq<Option<i64>>,
    k: nat,
) -> Seq<Seq<Option<i64>>>
    decreases k,
{
    if k == 0 {
        Seq::empty()
    } else {
        let before = rows_of_group(chunk, columns, key, (k - 1) as nat);
        let row = chunk.rows@[k - 1]@;
        if chunk.visibility@[k - 1] && key_of(row, columns) == key {
            before.push(row)
        } else {
            before
        }
    }
}

/// The states of a group after the given rows, one after the other.
pub open spec fn folded<A: AggregateFunction>(
    aggs: Seq<A>,
    before: Option<Seq<Option<i64>>>,
    rows: Seq<Seq<Option<i64>>>,
) -> Result<Option<Seq<Option<i64>>>, AggError>
    decreases rows.len(),
{
    if rows.len() == 0 {
        Ok(before)
    } else {
        match folded(aggs, before, rows.drop_last()) {
            Err(e) => Err(e),
            Ok(states) => match step(aggs, states, rows.last()) {
                Err(e) => Err(e),
                Ok(after) => Ok(Some(after)),
            },
        }
    }
}

/// Every group holds what its own rows come to, in their order, and nothing else: a group is there if it
/// was there before or has a visible row, and rows of other groups do not change it.
pub proof fn lemma_groups_fold<A: AggregateFunction>(
    aggs: Seq<A>,
    columns: Seq<usize>,
    groups: Map<Seq<Option<i64>>, Seq<Option<i64>>>,
    chunk: DataChunk,
    k: nat,
    key: Seq<Option<i64>>,
)
    requires
        grouped(aggs, columns, groups, chunk, k) is Ok,
    ensures
        folded(aggs, states_of(groups, key), rows_of_group(chunk, columns, key, k)) == Ok::<
            Option<Seq<Option<i64>>>,
            AggError,
        >(states_of(grouped(aggs, columns, groups, chunk, k)->Ok_0, key)),
        states_of(grouped(aggs, columns, groups, chunk, k)->Ok_0, key) is Some
            <==> groups.contains_key(key) || rows_of_group(chunk, columns, key, k).len() > 0,
    decreases k,
{
    if k > 0 {
        lemma_groups_fold(aggs, columns, groups, chunk, (k - 1) as nat, key);
        let before = rows_of_group(chunk, columns, key, (k - 1) as nat);
        let row = chunk.rows@[k - 1]@;
        if chunk.visibility@[k - 1] && key_of(row, columns) == key {
            assert(before.push(row).drop_last() =~= before);
        }
    }
}

/// Aggregates rows by group.
pub struct HashAggExecutor<A: AggregateFunction> {
    pub aggs: Vec<A>,
    /// The columns that make up the key of a group.
    pub group_key_columns: Vec<usize>,
    /// The maximum size of the chunks that are produced.
    pub chunk_size: usize,
    pub groups: GroupMap,
}

/// Makes executors from the description of an aggregation.
#[derive(Clone, Copy, Debug, PartialEq, Eq, Structural)]
pub struct HashAggExecutorBuilder {}

/// The types of the columns that are put out: those of the key of a group, and then those of the results.
pub open spec fn output_types(
    group_key: Seq<u32>,
    child_types: Seq<SqlType>,
    return_types: Seq<SqlType>,
) -> Seq<SqlType> {
    Seq::new(group_key.len(), |i: int| child_types[group_key[i] as int]) + return_types
}

impl HashAggExecutorBuilder {
    /// The executor for the given columns and functions, and the types of the columns that it puts out.
    pub fn deserialize<A: AggregateFunction>(
        group_key: &Vec<u32>,
        child_types: &Vec<SqlType>,
        aggs: Vec<A>,
        return_types: &Vec<SqlType>,
        chunk_size: usize,
    ) -> (res: (HashAggExecutor<A>, Vec<SqlType>))
        requires
            forall|i: int|
                0 <= i < group_key@.len() ==> (#[trigger] group_key@[i]) < child_types@.len(),
        ensures
            res.0.wf(),
            res.0.aggs == aggs,
            res.0.group_key_columns@ == Seq::new(
                group_key@.len(),
                |i: int| group_key@[i] as usize,
            ),
            res.0.chunk_size == chunk_size,
            group_contents(&res.0.groups) == Map::<Seq<Option<i64>>, Seq<Option<i64>>>::empty(),
            res.1@ == output_types(group_key@, child_types@, return_types@),
    {
        let mut group_key_columns: Vec<usize> = Vec::new();
        let mut schema: Vec<SqlType> = Vec::new();
        let mut i: usize = 0;
        while i < group_key.len()
            invariant
                i <= group_key.len(),
                forall|i: int|
                    0 <= i < group_key@.len() ==> (#[trigger] group_key@[i]) < child_types@.len(),
                group_key_columns@ == Seq::new(i as nat, |j: int| group_key@[j] as usize),
                schema@ == Seq::new(i as nat, |j: int| child_types@[group_key@[j] as int]),
            decreases group_key.len() - i,
        {
            let column: usize = group_key[i] as usize;
            group_key_columns.push(column);
            schema.push(child_types[column]);
            i = i + 1;
            assert(group_key_columns@ =~= Seq::new(i as nat, |j: int| group_key@[j] as usize));
            assert(schema@ =~= Seq::new(i as nat, |j: int| child_types@[group_key@[j] as int]));
        }
        let ghost keys = schema@;
        let mut k: usize = 0;
        assert(schema@ =~= keys + return_types@.take(0));
        while k < return_types.len()
            invariant
                k <= return_types.len(),
                schema@ == keys + return_types@.take(k as int),
            decreases return_types.len() - k,
        {
            schema.push(return_types[k]);
            k = k + 1;
            assert(schema@ =~= keys + return_types@.take(k as int));
        }
        assert(return_types@.take(k as int) =~= return_types@);
        (HashAggExecutor::new(aggs, group_key_columns, chunk_size), schema)
    }
}

/// The keys of the groups, in the order in which they are put out, and how many have been.
#[derive(Debug)]
pub struct GroupResults {
    pub keys: Vec<Vec<Option<i64>>>,
    pub next: usize,
}

/// The results for a group.
pub open spec fn results_of<A: AggregateFunction>(aggs: Seq<A>, states: Seq<Option<i64>>) -> Result<
    Seq<Option<i64>>,
    AggError,
>
    decreases aggs.len(),
{
    if aggs.len() == 0 {
        Ok(Seq::empty())
    } else {
        match results_of(aggs.drop_last(), states) {
            Err(e) => Err(e),
            Ok(before) => match aggs.last().value(states[aggs.len() - 1]) {
                Err(e) => Err(e),
                Ok(x) => Ok(before.push(x)),
            },
        }
    }
}

/// The rows that are put out for the given groups: the key of each and its results.
pub open spec fn output_rows<A: AggregateFunction>(
    aggs: Seq<A>,
    groups: Map<Seq<Option<i64>>, Seq<Option<i64>>>,
    keys: Seq<Seq<Option<i64>>>,
) -> Result<Seq<Seq<Option<i64>>>, AggError>
    decreases keys.len(),
{
    if keys.len() == 0 {
        Ok(Seq::empty())
    } else {
        match output_rows(aggs, groups, keys.drop_last()) {
            Err(e) => Err(e),
            Ok(rows) => match results_of(aggs, groups[keys.last()]) {
                Err(e) => Err(e),
                Ok(results) => Ok(rows.push(keys.last() + results)),
            },
        }
    }
}

impl<A: AggregateFunction> HashAggExecutor<A> {
    /// Every group has a state for each aggregate.
    pub open spec fn wf(&self) -> bool {
        forall|key: Seq<Option<i64>>| #[trigger]
            group_contents(&self.groups).contains_key(key) ==> group_contents(
                &self.groups,
            )[key].len() == self.aggs@.len()
    }

    /// An executor that has seen no row.
    pub fn new(aggs: Vec<A>, group_key_columns: Vec<usize>, chunk_size: usize) -> (res: HashAggExecutor<
        A,
    >)
        ensures
            res.wf(),
            res.aggs == aggs,
            res.group_key_columns == group_key_columns,
            res.chunk_size == chunk_size,
            group_contents(&res.groups) == Map::<Seq<Option<i64>>, Seq<Option<i64>>>::empty(),
    {
        HashAggExecutor { aggs, group_key_columns, chunk_size, groups: GroupMap::new() }
    }

    /// The columns of the chunk that the key and the aggregates need are there.
    pub open spec fn chunk_fits(&self, chunk: DataChunk) -> bool {
        &&& chunk.wf()
        &&& forall|i: int|
            0 <= i < chunk.rows@.len() ==> self.row_fits((#[trigger] chunk.rows@[i])@)
    }

    /// The columns of the row that the key and the aggregates need are there.
    pub open spec fn row_fits(&self, row: Seq<Option<i64>>) -> bool {
        &&& forall|c: int|
            0 <= c < self.group_key_columns@.len() ==> (#[trigger] self.group_key_columns@[c])
                < row.len()
        &&& forall|j: int| 0 <= j < self.aggs@.len() ==> (#[trigger] self.aggs@[j]).fits(row.len())
    }

    /// The key of the group of a row.
    fn build_key(&self, row: &Row) -> (res: Vec<Option<i64>>)
        requires
            self.row_fits(row@),
        ensures
            res@ == key_of(row@, self.group_key_columns@),
    {
        let mut res: Vec<Option<i64>> = Vec::new();
        let mut i: usize = 0;
        while i < self.group_key_columns.len()
            invariant
                i <= self.group_key_columns.len(),
                self.row_fits(row@),
                res@ == key_of(row@, self.group_key_columns@.take(i as int)),
            decreases self.group_key_columns.len() - i,
        {
            let column: usize = self.group_key_columns[i];
            assert(self.group_key_columns@[i as int] < row@.len());
            res.push(row.values[column]);
            i = i + 1;
            assert(res@ =~= key_of(row@, self.group_key_columns@.take(i as int)));
        }
        assert(self.group_key_columns@.take(i as int) =~= self.group_key_columns@);
        res
    }

    /// The states of a group without rows.
    fn create_states(&self) -> (res: Result<Vec<Option<i64>>, AggError>)
        ensures
            match res {
                Ok(states) => initial_states(self.aggs@) == Ok::<Seq<Option<i64>>, AggError>(
                    states@,
                ) && states@.len() == self.aggs@.len(),
                Err(e) => initial_states(self.aggs@) == Err::<Seq<Option<i64>>, AggError>(e),
            },
    {
        let mut res: Vec<Option<i64>> = Vec::new();
        let mut i: usize = 0;
        assert(self.aggs@.take(0) =~= Seq::<A>::empty());
        assert(res@ =~= Seq::<Option<i64>>::empty());
        while i < self.aggs.len()
            invariant
                i <= self.aggs.len(),
                res@.len() == i,
                initial_states(self.aggs@.take(i as int)) == Ok::<Seq<Option<i64>>, AggError>(res@),
            decreases self.aggs.len() - i,
        {
            assert(self.aggs@.take(i + 1).drop_last() =~= self.aggs@.take(i as int));
            assert(self.aggs@.take(i + 1).last() == self.aggs@[i as int]);
            match self.aggs[i].create_state() {
                Ok(state) => {
                    res.push(state);
                },
                Err(e) => {
                    proof {
                        lemma_initial_fails(self.aggs@, i + 1);
                    }
                    return Err(e);
                },
            }
            i = i + 1;
        }
        assert(self.aggs@.take(i as int) =~= self.aggs@);
        Ok(res)
    }

    /// The states of a group after one more row.
    fn update_states(&self, states: &Vec<Option<i64>>, row: &Row) -> (res: Result<
        Vec<Option<i64>>,
        AggError,
    >)
        requires
            states@.len() == self.aggs@.len(),
            self.row_fits(row@),
        ensures
            match res {
                Ok(after) => updated_states(self.aggs@, states@, row@) == Ok::<
                    Seq<Option<i64>>,
                    AggError,
                >(after@) && after@.len() == self.aggs@.len(),
                Err(e) => updated_states(self.aggs@, states@, row@) == Err::<
                    Seq<Option<i64>>,
                    AggError,
                >(e),
            },
    {
        let mut res: Vec<Option<i64>> = Vec::new();
        let mut i: usize = 0;
        assert(self.aggs@.take(0) =~= Seq::<A>::empty());
        assert(res@ =~= Seq::<Option<i64>>::empty());
        while i < self.aggs.len()
            invariant
                i <= self.aggs.len(),
                states@.len() == self.aggs@.len(),
                self.row_fits(row@),
                res@.len() == i,
                updated_states(self.aggs@.take(i as int), states@, row@) == Ok::<
                    Seq<Option<i64>>,
                    AggError,
                >(res@),
            decreases self.aggs.len() - i,
        {
            assert(self.aggs@.take(i + 1).drop_last() =~= self.aggs@.take(i as int));
            assert(self.aggs@.take(i + 1).last() == self.aggs@[i as int]);
            assert(self.aggs@[i as int].fits(row@.len()));
            match self.aggs[i].update(states[i], row) {
                Ok(state) => {
                    res.push(state);
                },
                Err(e) => {
                    proof {
                        lemma_update_fails(self.aggs@, states@, row@, i + 1);
                    }
                    return Err(e);
                },
            }
            i = i + 1;
        }
        assert(self.aggs@.take(i as int) =~= self.aggs@);
        Ok(res)
    }

    /// The memory that states take.
    fn measure(&self, states: &Vec<Option<i64>>) -> (res: i128)
        requires
            states@.len() == self.aggs@.len(),
            self.aggs@.len() <= u32::MAX,
        ensures
            res == states_size(self.aggs@, states@),
    {
        let mut res: i128 = 0;
        let mut i: usize = 0;
        assert(self.aggs@.take(0) =~= Seq::<A>::empty());
        while i < self.aggs.len()
            invariant
                i <= self.aggs.len(),
                self.aggs.len() <= u32::MAX,
                states@.len() == self.aggs@.len(),
                res == states_size(self.aggs@.take(i as int), states@),
                0 <= res <= i * usize::MAX,
            decreases self.aggs.len() - i,
        {
            assert(self.aggs@.take(i + 1).drop_last() =~= self.aggs@.take(i as int));
            assert(self.aggs@.take(i + 1).last() == self.aggs@[i as int]);
            let size: usize = self.aggs[i].estimated_size(states[i]);
            assert(i * usize::MAX + usize::MAX == (i + 1) * usize::MAX) by (nonlinear_arith);
            assert((i + 1) * usize::MAX <= 0x1_0000_0000int * 0x1_0000_0000_0000_0000int)
                by (nonlinear_arith)
                requires
                    i + 1 <= 0x1_0000_0000int,
                    usize::MAX <= 0x1_0000_0000_0000_0000int,
            ;
            res = res + size as i128;
            i = i + 1;
        }
        assert(self.aggs@.take(i as int) =~= self.aggs@);
        res
    }

    /// Takes in the rows of a chunk: each visible row updates the states of its group, which is made if it
    /// is not there. How the memory of the groups has changed is returned.
    pub fn consume_chunk(&mut self, chunk: &DataChunk) -> (res: Result<i64, AggError>)
        requires
            old(self).wf(),
            old(self).chunk_fits(*chunk),
            old(self).aggs@.len() <= u32::MAX,
            forall|k: nat|
                k <= chunk.rows@.len() ==> has_room(
                    #[trigger] size_change(
                        old(self).aggs@,
                        old(self).group_key_columns@,
                        group_contents(&old(self).groups),
                        *chunk,
                        k,
                    ),
                ),
        ensures
            final(self).wf(),
            final(self).aggs == old(self).aggs,
            final(self).group_key_columns == old(self).group_key_columns,
            final(self).chunk_size == old(self).chunk_size,
            ({
                let after = grouped(
                    old(self).aggs@,
                    old(self).group_key_columns@,
                    group_contents(&old(self).groups),
                    *chunk,
                    chunk.rows@.len(),
                );
                match res {
                    Ok(change) => {
                        &&& after == Ok::<Map<Seq<Option<i64>>, Seq<Option<i64>>>, AggError>(
                            group_contents(&final(self).groups),
                        )
                        &&& change == size_change(
                            old(self).aggs@,
                            old(self).group_key_columns@,
                            group_contents(&old(self).groups),
                            *chunk,
                            chunk.rows@.len(),
                        )
                    },
                    Err(e) => after == Err::<Map<Seq<Option<i64>>, Seq<Option<i64>>>, AggError>(e)
                        && stopped_at(
                        old(self).aggs@,
                        old(self).group_key_columns@,
                        group_contents(&old(self).groups),
                        *chunk,
                        group_contents(&final(self).groups),
                    ),
                }
            }),
    {
        let ghost aggs = self.aggs@;
        let ghost columns = self.group_key_columns@;
        let ghost groups0 = group_contents(&self.groups);
        let mut change: i64 = 0;
        let mut i: usize = 0;
        while i < chunk.rows.len()
            invariant
                i <= chunk.rows.len(),
                self.wf(),
                self.aggs == old(self).aggs,
                self.group_key_columns == old(self).group_key_columns,
                self.chunk_size == old(self).chunk_size,
                aggs == self.aggs@,
                columns == self.group_key_columns@,
                groups0 == group_contents(&old(self).groups),
                self.chunk_fits(*chunk),
                self.aggs@.len() <= u32::MAX,
                forall|k: nat|
                    k <= chunk.rows@.len() ==> has_room(
                        #[trigger] size_change(aggs, columns, groups0, *chunk, k),
                    ),
                grouped(aggs, columns, groups0, *chunk, i as nat) == Ok::<
                    Map<Seq<Option<i64>>, Seq<Option<i64>>>,
                    AggError,
                >(group_contents(&self.groups)),
                change == size_change(aggs, columns, groups0, *chunk, i as nat),
            decreases chunk.rows.len() - i,
        {
            let ghost m = group_contents(&self.groups);
            assert(has_room(size_change(aggs, columns, groups0, *chunk, i as nat)));
            assert(has_room(size_change(aggs, columns, groups0, *chunk, (i + 1) as nat)));
            if chunk.visibility[i] {
                let row = &chunk.rows[i];
                assert(self.row_fits(row@));
                let key = self.build_key(row);
                let existing: Option<Vec<Option<i64>>> = match self.groups.get(&key) {
                    Some(states) => Some(copy_values(states)),
                    None => None,
                };
                let (before, old_size) = match existing {
                    Some(states) => {
                        let size: i128 = self.measure(&states);
                        (states, size)
                    },
                    None => match self.create_states() {
                        Ok(states) => (states, 0i128),
                        Err(e) => {
                            proof {
                                lemma_grouped_fails(
                                    aggs,
                                    columns,
                                    groups0,
                                    *chunk,
                                    (i + 1) as nat,
                                    chunk.rows@.len(),
                                );
                            }
                            return Err(e);
                        },
                    },
                };
                let states = match self.update_states(&before, row) {
                    Ok(states) => states,
                    Err(e) => {
                        proof {
                            lemma_grouped_fails(
                                aggs,
                                columns,
                                groups0,
                                *chunk,
                                (i + 1) as nat,
                                chunk.rows@.len(),
                            );
                        }
                        return Err(e);
                    },
                };
                let new_size: i128 = self.measure(&states);
                proof {
                    lemma_size_bound(aggs, before@);
                    lemma_size_bound(aggs, states@);
                }
                let diff: i128 = new_size - old_size;
                assert(size_change(aggs, columns, groups0, *chunk, (i + 1) as nat) == change
                    + diff);
                change = change + diff as i64;
                self.groups.insert(key, states);
            }
            i = i + 1;
        }
        Ok(change)
    }

    /// Takes in the rows of a chunk, and counts the memory that the groups take more or less. It is an error
    /// if this leads over the limit.
    pub fn consume_chunk_within(&mut self, chunk: &DataChunk, mem_context: &mut MemoryContext) -> (res:
        Result<(), AggError>)
        requires
            old(self).wf(),
            old(self).chunk_fits(*chunk),
            old(self).aggs@.len() <= u32::MAX,
            has_room(old(mem_context).bytes_used as int),
            forall|k: nat|
                k <= chunk.rows@.len() ==> has_room(
                    #[trigger] size_change(
                        old(self).aggs@,
                        old(self).group_key_columns@,
                        group_contents(&old(self).groups),
                        *chunk,
                        k,
                    ),
                ),
        ensures
            final(self).wf(),
            final(self).aggs == old(self).aggs,
            final(self).group_key_columns == old(self).group_key_columns,
            final(self).chunk_size == old(self).chunk_size,
            final(mem_context).mem_limit == old(mem_context).mem_limit,
            ({
                let after = grouped(
                    old(self).aggs@,
                    old(self).group_key_columns@,
                    group_contents(&old(self).groups),
                    *chunk,
                    chunk.rows@.len(),
                );
                let change = size_change(
                    old(self).aggs@,
                    old(self).group_key_columns@,
                    group_contents(&old(self).groups),
                    *chunk,
                    chunk.rows@.len(),
                );
                match after {
                    Ok(groups) => {
                        &&& group_contents(&final(self).groups) == groups
                        &&& final(mem_context).bytes_used == old(mem_context).bytes_used + change
                        &&& if final(mem_context).within_limit() {
                            res is Ok
                        } else {
                            res == Err::<(), AggError>(
                                AggError::OutOfMemory(old(mem_context).mem_limit),
                            )
                        }
                    },
                    Err(e) => res == Err::<(), AggError>(e) && *final(mem_context) == *old(
                        mem_context,
                    ) && stopped_at(
                        old(self).aggs@,
                        old(self).group_key_columns@,
                        group_contents(&old(self).groups),
                        *chunk,
                        group_contents(&final(self).groups),
                    ),
                }
            }),
    {
        assert(has_room(
            size_change(
                self.aggs@,
                self.group_key_columns@,
                group_contents(&self.groups),
                *chunk,
                chunk.rows@.len(),
            ),
        ));
        match self.consume_chunk(chunk) {
            Ok(change) => if mem_context.add(change) {
                Ok(())
            } else {
                Err(AggError::OutOfMemory(mem_context.mem_limit()))
            },
            Err(e) => Err(e),
        }
    }

    /// The groups, in the order in which they are put out.
    pub fn finish(&self) -> (res: GroupResults)
        ensures
            key_views(res.keys@).no_duplicates(),
            key_views(res.keys@).to_set() == group_contents(&self.groups).dom(),
            res.next == 0,
    {
        GroupResults { keys: self.groups.keys(), next: 0 }
    }

    /// The results for a group.
    fn collect_results(&self, states: &Vec<Option<i64>>) -> (res: Result<Vec<Option<i64>>, AggError>)
        requires
            states@.len() == self.aggs@.len(),
        ensures
            match res {
                Ok(results) => results_of(self.aggs@, states@) == Ok::<
                    Seq<Option<i64>>,
                    AggError,
                >(results@),
                Err(e) => results_of(self.aggs@, states@) == Err::<Seq<Option<i64>>, AggError>(e),
            },
    {
        let mut res: Vec<Option<i64>> = Vec::new();
        let mut i: usize = 0;
        assert(self.aggs@.take(0) =~= Seq::<A>::empty());
        assert(res@ =~= Seq::<Option<i64>>::empty());
        while i < self.aggs.len()
            invariant
                i <= self.aggs.len(),
                states@.len() == self.aggs@.len(),
                results_of(self.aggs@.take(i as int), states@) == Ok::<
                    Seq<Option<i64>>,
                    AggError,
                >(res@),
            decreases self.aggs.len() - i,
        {
            assert(self.aggs@.take(i + 1).drop_last() =~= self.aggs@.take(i as int));
            assert(self.aggs@.take(i + 1).last() == self.aggs@[i as int]);
            match self.aggs[i].get_result(states[i]) {
                Ok(x) => {
                    res.push(x);
                },
                Err(e) => {
                    proof {
                        lemma_results_fail(self.aggs@, states@, i + 1);
                    }
                    return Err(e);
                },
            }
            i = i + 1;
        }
        assert(self.aggs@.take(i as int) =~= self.aggs@);
        Ok(res)
    }

    /// The next chunk of results: as many groups as fit, or none if all have been put out. The query may
    /// have been cancelled.
    pub fn next_output(&self, results: &mut GroupResults, cancelled: bool) -> (res: Result<
        Option<Vec<Row>>,
        AggError,
    >)
        requires
            self.wf(),
            old(results).next <= old(results).keys@.len(),
            key_views(old(results).keys@).to_set() == group_contents(&self.groups).dom(),
        ensures
            final(results).keys == old(results).keys,
            res is Err ==> final(results).next == old(results).next,
            ({
                let from = old(results).next as int;
                let left = old(results).keys@.len() - from;
                let n = if self.chunk_size < left {
                    self.chunk_size as int
                } else {
                    left
                };
                let keys = key_views(old(results).keys@).subrange(from, from + n);
                if n == 0 {
                    res matches Ok(None) && final(results).next == from
                } else if cancelled {
                    res == Err::<Option<Vec<Row>>, AggError>(AggError::Aborted)
                } else {
                    match output_rows(self.aggs@, group_contents(&self.groups), keys) {
                        Err(e) => res matches Err(err) && err == e,
                        Ok(rows) => {
                            &&& res matches Ok(Some(out))
                                && row_views(out@) == rows
                            &&& final(results).next == from + n
                        },
                    }
                }
            }),
    {
        let from: usize = results.next;
        let left: usize = results.keys.len() - from;
        let n: usize = if self.chunk_size < left {
            self.chunk_size
        } else {
            left
        };
        if n == 0 {
            return Ok(None);
        }
        if cancelled {
            return Err(AggError::Aborted);
        }
        let ghost all = key_views(results.keys@);
        let ghost keys = all.subrange(from as int, from + n);
        let ghost groups = group_contents(&self.groups);
        let ghost aggs = self.aggs@;
        let mut out: Vec<Row> = Vec::new();
        let mut i: usize = 0;
        assert(keys.take(0) =~= Seq::<Seq<Option<i64>>>::empty());
        assert(row_views(out@) =~= Seq::<
            Seq<Option<i64>>,
        >::empty());
        while i < n
            invariant
                i <= n,
                from + n <= results.keys.len(),
                results.keys == old(results).keys,
                results.next == from,
                from == old(results).next,
                n > 0,
                !cancelled,
                n == (if self.chunk_size < old(results).keys@.len() - from {
                    self.chunk_size as int
                } else {
                    old(results).keys@.len() - from
                }),
                all == key_views(results.keys@),
                keys == all.subrange(from as int, from + n),
                groups == group_contents(&self.groups),
                aggs == self.aggs@,
                all.to_set() == groups.dom(),
                self.wf(),
                output_rows(aggs, groups, keys.take(i as int)) == Ok::<
                    Seq<Seq<Option<i64>>>,
                    AggError,
                >(row_views(out@)),
            decreases n - i,
        {
            let key = &results.keys[from + i];
            assert(all[from + i] == key@);
            assert(all.to_set().contains(all[from + i]));
            assert(groups.contains_key(key@));
            assert(keys.take(i + 1).drop_last() =~= keys.take(i as int));
            assert(keys.take(i + 1).last() == key@);
            let states = self.groups.get(key).unwrap();
            let mut found = match self.collect_results(states) {
                Ok(found) => found,
                Err(e) => {
                    proof {
                        lemma_output_fails(aggs, groups, keys, i + 1);
                    }
                    return Err(e);
                },
            };
            let mut values = copy_values(key);
            values.append(&mut found);
            let ghost before = row_views(out@);
            let row = Row { values };
            let ghost v = row@;
            out.push(row);
            assert(row_views(out@) =~= before.push(v));
            i = i + 1;
        }
        assert(keys.take(n as int) =~= keys);
        results.next = from + n;
        Ok(Some(out))
    }
}

proof fn lemma_initial_fails<A: AggregateFunction>(aggs: Seq<A>, k: int)
    requires
        0 <= k <= aggs.len(),
        initial_states(aggs.take(k)) is Err,
    ensures
        initial_states(aggs) == initial_states(aggs.take(k)),
    decreases aggs.len() - k,
{
    if k < aggs.len() {
        assert(aggs.take(k + 1).drop_last() =~= aggs.take(k));
        lemma_initial_fails(aggs, k + 1);
    } else {
        assert(aggs.take(k) =~= aggs);
    }
}

proof fn lemma_update_fails<A: AggregateFunction>(
    aggs: Seq<A>,
    states: Seq<Option<i64>>,
    row: Seq<Option<i64>>,
    k: int,
)
    requires
        0 <= k <= aggs.len(),
        updated_states(aggs.take(k), states, row) is Err,
    ensures
        updated_states(aggs, states, row) == updated_states(aggs.take(k), states, row),
    decreases aggs.len() - k,
{
    if k < aggs.len() {
        assert(aggs.take(k + 1).drop_last() =~= aggs.take(k));
        lemma_update_fails(aggs, states, row, k + 1);
    } else {
        assert(aggs.take(k) =~= aggs);
    }
}

proof fn lemma_results_fail<A: AggregateFunction>(aggs: Seq<A>, states: Seq<Option<i64>>, k: int)
    requires
        0 <= k <= aggs.len(),
        results_of(aggs.take(k), states) is Err,
    ensures
        results_of(aggs, states) == results_of(aggs.take(k), states),
    decreases aggs.len() - k,
{
    if k < aggs.len() {
        assert(aggs.take(k + 1).drop_last() =~= aggs.take(k));
        lemma_results_fail(aggs, states, k + 1);
    } else {
        assert(aggs.take(k) =~= aggs);
    }
}

proof fn lemma_output_fails<A: AggregateFunction>(
    aggs: Seq<A>,
    groups: Map<Seq<Option<i64>>, Seq<Option<i64>>>,
    keys: Seq<Seq<Option<i64>>>,
    k: int,
)
    requires
        0 <= k <= keys.len(),
        output_rows(aggs, groups, keys.take(k)) is Err,
    ensures
        output_rows(aggs, groups, keys) == output_rows(aggs, groups, keys.take(k)),
    decreases keys.len() - k,
{
    if k < keys.len() {
        assert(keys.take(k + 1).drop_last() =~= keys.take(k));
        lemma_output_fails(aggs, groups, keys, k + 1);
    } else {
        assert(keys.take(k) =~= keys);
    }
}

proof fn lemma_grouped_fails<A: AggregateFunction>(
    aggs: Seq<A>,
    columns: Seq<usize>,
    groups: Map<Seq<Option<i64>>, Seq<Option<i64>>>,
    chunk: DataChunk,
    k: nat,
    n: nat,
)
    requires
        k <= n,
        grouped(aggs, columns, groups, chunk, k) is Err,
    ensures
        grouped(aggs, columns, groups, chunk, n) == grouped(aggs, columns, groups, chunk, k),
    decreases n - k,
{
    if k < n {
        lemma_grouped_fails(aggs, columns, groups, chunk, k, (n - 1) as nat);
    }
}

proof fn lemma_size_bound<A: AggregateFunction>(aggs: Seq<A>, states: Seq<Option<i64>>)
    requires
        aggs.len() <= u32::MAX,
    ensures
        0 <= states_size(aggs, states) <= aggs.len() * 0x1_0000_0000_0000_0000int,
        aggs.len() * 0x1_0000_0000_0000_0000int <= 0x1_0000_0000int * 0x1_0000_0000_0000_0000int,
    decreases aggs.len(),
{
    if aggs.len() > 0 {
        lemma_size_bound(aggs.drop_last(), states);
    }
    assert(aggs.len() * 0x1_0000_0000_0000_0000int <= 0x1_0000_0000int
        * 0x1_0000_0000_0000_0000int) by (nonlinear_arith)
        requires
            aggs.len() <= 0x1_0000_0000int,
    ;
}

} // verus!
