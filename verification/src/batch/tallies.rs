//! What the groups of an aggregation hold and put out, said of the values of their rows.
use crate::batch::groups::{group_contents, key_views};
use crate::batch::hash_agg::{grouped, initial_states, key_of, output_rows, results_of, size_change};
use crate::batch::hash_agg::{states_of, states_size, step, updated_states};
use crate::batch::hash_agg::{AggError, AggregateFunction, GroupResults, HashAggExecutor, IntAggregate};
use crate::batch::hash_agg::HashAggExecutorBuilder;
use crate::batch::merge_sort_exchange::row_views;
use crate::batch::row::{DataChunk, Row};
use crate::frontend::types::SqlType;
use vstd::prelude::*;

verus! {

/// The row has the values of the key in the columns of the group.
pub open spec fn agrees(row: Seq<Option<i64>>, columns: Seq<usize>, key: Seq<Option<i64>>) -> bool {
    key.len() == columns.len() && forall|c: int|
        0 <= c < columns.len() ==> row[columns[c] as int] == #[trigger] key[c]
}

/// The sum of what the rows with the values of the key come to, among the first visible rows of a chunk.
pub open spec fn total(
    chunk: DataChunk,
    columns: Seq<usize>,
    key: Seq<Option<i64>>,
    k: nat,
    worth: spec_fn(Seq<Option<i64>>) -> int,
) -> int
    decreases k,
{
    if k == 0 {
        0
    } else {
        let row = chunk.rows@[k - 1].values@;
        total(chunk, columns, key, (k - 1) as nat, worth) + (if chunk.visibility@[k - 1] && agrees(
            row,
            columns,
            key,
        ) {
            worth(row)
        } else {
            0
        })
    }
}

/// A missing number counts as zero.
pub open spec fn number(x: Option<i64>) -> int {
    match x {
        Some(n) => n as int,
        None => 0,
    }
}

/// What a row adds to an aggregate: one where rows are counted, one where values are counted and there is a
/// value, and the value where values are added up.
pub open spec fn worth_of(agg: IntAggregate) -> spec_fn(Seq<Option<i64>>) -> int {
    |row: Seq<Option<i64>>|
        match agg {
            IntAggregate::CountStar => 1int,
            IntAggregate::Count(c) => if row[c as int] is Some {
                1int
            } else {
                0int
            },
            IntAggregate::Sum(c) => number(row[c as int]),
        }
}

/// One for a row that adds something to the aggregate.
pub open spec fn adds_to(agg: IntAggregate) -> spec_fn(Seq<Option<i64>>) -> int {
    |row: Seq<Option<i64>>|
        match agg {
            IntAggregate::CountStar => 1int,
            IntAggregate::Count(c) => if row[c as int] is Some {
                1int
            } else {
                0int
            },
            IntAggregate::Sum(c) => if row[c as int] is Some {
                1int
            } else {
                0int
            },
        }
}

/// What an aggregate of a group is before the rows of a chunk; a sum without values is missing.
pub open spec fn start_of(
    agg: IntAggregate,
    groups: Map<Seq<Option<i64>>, Seq<Option<i64>>>,
    key: Seq<Option<i64>>,
    a: int,
) -> Option<i64> {
    if groups.contains_key(key) {
        groups[key][a]
    } else if agg is Sum {
        None
    } else {
        Some(0)
    }
}

/// Two rows have the same key if and only if they agree on every column of the group, and the key holds their
/// values in these columns, in this order.
pub proof fn lemma_same_group(
    x: Seq<Option<i64>>,
    y: Seq<Option<i64>>,
    columns: Seq<usize>,
    key: Seq<Option<i64>>,
)
    ensures
        key_of(x, columns) == key_of(y, columns) <==> (forall|c: int|
            0 <= c < columns.len() ==> x[#[trigger] columns[c] as int] == y[columns[c] as int]),
        key == key_of(x, columns) <==> agrees(x, columns, key),
        key_of(x, columns).len() == columns.len(),
        forall|c: int|
            0 <= c < columns.len() ==> #[trigger] key_of(x, columns)[c] == x[columns[c] as int],
{
    let kx = key_of(x, columns);
    let ky = key_of(y, columns);
    if forall|c: int|
        0 <= c < columns.len() ==> x[#[trigger] columns[c] as int] == y[columns[c] as int] {
        assert(kx =~= ky);
    }
    if kx == ky {
        assert forall|c: int| 0 <= c < columns.len() implies x[#[trigger] columns[c] as int]
            == y[columns[c] as int] by {
            assert(kx[c] == ky[c]);
        }
    }
    if agrees(x, columns, key) {
        assert(kx =~= key);
    }
}

proof fn lemma_initial(aggs: Seq<IntAggregate>)
    ensures
        initial_states(aggs) matches Ok(s) && s.len() == aggs.len() && forall|a: int|
            0 <= a < aggs.len() ==> #[trigger] s[a] == (if aggs[a] is Sum {
                None::<i64>
            } else {
                Some(0i64)
            }),
    decreases aggs.len(),
{
    if aggs.len() > 0 {
        lemma_initial(aggs.drop_last());
    }
}

/// What the aggregate comes to after a row, in whole numbers.
pub open spec fn is_after(agg: IntAggregate, before: Option<i64>, row: Seq<Option<i64>>, after: Option<i64>) -> bool {
    &&& number(after) == number(before) + worth_of(agg)(row)
    &&& after is Some <==> before is Some || adds_to(agg)(row) == 1
}

/// The sum is out of range.
pub open spec fn too_far(agg: IntAggregate, before: Option<i64>, row: Seq<Option<i64>>) -> bool {
    before is Some && adds_to(agg)(row) == 1 && !(i64::MIN <= number(before) + worth_of(agg)(row)
        <= i64::MAX)
}

proof fn lemma_updated(
    aggs: Seq<IntAggregate>,
    states: Seq<Option<i64>>,
    row: Seq<Option<i64>>,
)
    ensures
        match updated_states(aggs, states, row) {
            Ok(s) => s.len() == aggs.len() && forall|a: int|
                0 <= a < aggs.len() ==> is_after(#[trigger] aggs[a], states[a], row, s[a]) && !too_far(
                    aggs[a],
                    states[a],
                    row,
                ),
            Err(e) => e == AggError::NumericOutOfRange && exists|a: int|
                0 <= a < aggs.len() && too_far(#[trigger] aggs[a], states[a], row),
        },
    decreases aggs.len(),
{
    if aggs.len() > 0 {
        let front = aggs.drop_last();
        lemma_updated(front, states, row);
        let n = aggs.len() - 1;
        match updated_states(front, states, row) {
            Ok(s) => {
                match aggs[n].updated(states[n], row) {
                    Ok(x) => {
                        assert(is_after(aggs[n], states[n], row, x));
                        assert forall|a: int| 0 <= a < aggs.len() implies is_after(
                            #[trigger] aggs[a],
                            states[a],
                            row,
                            s.push(x)[a],
                        ) && !too_far(aggs[a], states[a], row) by {
                            if a < n {
                                assert(front[a] == aggs[a]);
                                assert(s.push(x)[a] == s[a]);
                            }
                        }
                    },
                    Err(_) => {
                        assert(too_far(aggs[n], states[n], row));
                    },
                }
            },
            Err(_) => {
                let a = choose|a: int|
                    0 <= a < front.len() && too_far(#[trigger] front[a], states[a], row);
                assert(too_far(aggs[a], states[a], row));
            },
        }
    }
}

proof fn lemma_tallied(
    aggs: Seq<IntAggregate>,
    columns: Seq<usize>,
    groups: Map<Seq<Option<i64>>, Seq<Option<i64>>>,
    chunk: DataChunk,
    k: nat,
    key: Seq<Option<i64>>,
)
    requires
        grouped(aggs, columns, groups, chunk, k) is Ok,
    ensures
        ({
            let after = grouped(aggs, columns, groups, chunk, k)->Ok_0;
            let here = total(chunk, columns, key, k, |row: Seq<Option<i64>>| 1int);
            &&& here >= 0
            &&& after.contains_key(key) <==> groups.contains_key(key) || here > 0
            &&& forall|a: int|
                0 <= a < aggs.len() ==> {
                    let start = start_of(#[trigger] aggs[a], groups, key, a);
                    let added = total(chunk, columns, key, k, adds_to(aggs[a]));
                    &&& added >= 0
                    &&& after.contains_key(key) ==> number(after[key][a]) == number(start) + total(
                        chunk,
                        columns,
                        key,
                        k,
                        worth_of(aggs[a]),
                    )
                    &&& after.contains_key(key) ==> (after[key][a] is Some <==> start is Some
                        || added > 0)
                    &&& here == 0 ==> added == 0 && total(
                        chunk,
                        columns,
                        key,
                        k,
                        worth_of(aggs[a]),
                    ) == 0
                }
        }),
    decreases k,
{
    if k > 0 {
        lemma_tallied(aggs, columns, groups, chunk, (k - 1) as nat, key);
        let m = grouped(aggs, columns, groups, chunk, (k - 1) as nat)->Ok_0;
        if chunk.visibility@[k - 1] {
            let row = chunk.rows@[k - 1].values@;
            assert(row == chunk.rows@[k - 1]@);
            lemma_same_group(row, row, columns, key);
            lemma_initial(aggs);
            if key_of(row, columns) == key {
                let before = match states_of(m, key) {
                    Some(s) => s,
                    None => initial_states(aggs)->Ok_0,
                };
                lemma_updated(aggs, before, row);
            }
        }
    }
}

/// After the rows of a chunk, a group is there if it was there before or a visible row has the values of its
/// key. Its number of rows, its number of values of a column and its sum of a column are those before, and in
/// addition those of the visible rows with the values of its key, and of no others.
pub proof fn lemma_chunk_tallied(
    executor: &mut HashAggExecutor<IntAggregate>,
    chunk: &DataChunk,
    change: i64,
    key: Seq<Option<i64>>,
    a: int,
)
    requires
        call_ensures(
            HashAggExecutor::<IntAggregate>::consume_chunk,
            (executor, chunk),
            Ok::<i64, AggError>(change),
        ),
        0 <= a < old(executor).aggs@.len(),
    ensures
        ({
            let agg = old(executor).aggs@[a];
            let columns = old(executor).group_key_columns@;
            let before = group_contents(&old(executor).groups);
            let after = group_contents(&final(executor).groups);
            let n = chunk.rows@.len();
            let start = start_of(agg, before, key, a);
            &&& after.contains_key(key) <==> before.contains_key(key) || exists|i: int|
                0 <= i < n && chunk.visibility@[i] && agrees(
                    (#[trigger] chunk.rows@[i]).values@,
                    columns,
                    key,
                )
            &&& after.contains_key(key) ==> number(after[key][a]) == number(start) + total(
                *chunk,
                columns,
                key,
                n,
                worth_of(agg),
            )
            &&& after.contains_key(key) ==> (after[key][a] is Some <==> start is Some || total(
                *chunk,
                columns,
                key,
                n,
                adds_to(agg),
            ) > 0)
        }),
{
    let aggs = old(executor).aggs@;
    let columns = old(executor).group_key_columns@;
    let before = group_contents(&old(executor).groups);
    lemma_tallied(aggs, columns, before, *chunk, chunk.rows@.len(), key);
    lemma_some_row(*chunk, columns, key, chunk.rows@.len());
    assert(aggs[a] == old(executor).aggs@[a]);
}

proof fn lemma_some_row(chunk: DataChunk, columns: Seq<usize>, key: Seq<Option<i64>>, k: nat)
    ensures
        total(chunk, columns, key, k, |row: Seq<Option<i64>>| 1int) >= 0,
        total(chunk, columns, key, k, |row: Seq<Option<i64>>| 1int) > 0 <==> exists|i: int|
            0 <= i < k && chunk.visibility@[i] && agrees(
                (#[trigger] chunk.rows@[i]).values@,
                columns,
                key,
            ),
    decreases k,
{
    if k > 0 {
        lemma_some_row(chunk, columns, key, (k - 1) as nat);
        if chunk.visibility@[k - 1] && agrees(chunk.rows@[k - 1].values@, columns, key) {
            assert(agrees(chunk.rows@[k - 1].values@, columns, key));
        } else if total(chunk, columns, key, (k - 1) as nat, |row: Seq<Option<i64>>| 1int) > 0 {
            let i = choose|i: int|
                0 <= i < k - 1 && chunk.visibility@[i] && agrees(
                    (#[trigger] chunk.rows@[i]).values@,
                    columns,
                    key,
                );
            assert(agrees(chunk.rows@[i].values@, columns, key));
        }
    }
}

/// Every visible row falls into exactly one group, whose key holds its values in the columns of the group, and
/// two visible rows fall into the same group if and only if they agree on all of these columns.
pub proof fn lemma_one_group_each(
    executor: &mut HashAggExecutor<IntAggregate>,
    chunk: &DataChunk,
    change: i64,
    i: int,
    j: int,
    x: Seq<Option<i64>>,
    y: Seq<Option<i64>>,
)
    requires
        call_ensures(
            HashAggExecutor::<IntAggregate>::consume_chunk,
            (executor, chunk),
            Ok::<i64, AggError>(change),
        ),
        0 <= i < chunk.rows@.len(),
        0 <= j < chunk.rows@.len(),
        chunk.visibility@[i],
        chunk.visibility@[j],
        agrees(chunk.rows@[i].values@, old(executor).group_key_columns@, x),
        agrees(chunk.rows@[j].values@, old(executor).group_key_columns@, y),
    ensures
        group_contents(&final(executor).groups).contains_key(x),
        group_contents(&final(executor).groups).contains_key(y),
        x == y <==> (forall|c: int|
            0 <= c < old(executor).group_key_columns@.len()
                ==> chunk.rows@[i].values@[#[trigger] old(executor).group_key_columns@[c] as int]
                == chunk.rows@[j].values@[old(executor).group_key_columns@[c] as int]),
{
    let aggs = old(executor).aggs@;
    let columns = old(executor).group_key_columns@;
    let before = group_contents(&old(executor).groups);
    let n = chunk.rows@.len();
    lemma_tallied(aggs, columns, before, *chunk, n, x);
    lemma_tallied(aggs, columns, before, *chunk, n, y);
    lemma_some_row(*chunk, columns, x, n);
    lemma_some_row(*chunk, columns, y, n);
    lemma_same_group(chunk.rows@[i].values@, chunk.rows@[j].values@, columns, x);
    lemma_same_group(chunk.rows@[j].values@, chunk.rows@[i].values@, columns, y);
}

proof fn lemma_first_failure(
    aggs: Seq<IntAggregate>,
    columns: Seq<usize>,
    groups: Map<Seq<Option<i64>>, Seq<Option<i64>>>,
    chunk: DataChunk,
    n: nat,
) -> (k: nat)
    requires
        grouped(aggs, columns, groups, chunk, n) is Err,
    ensures
        k < n,
        grouped(aggs, columns, groups, chunk, k) is Ok,
        grouped(aggs, columns, groups, chunk, k + 1) == grouped(aggs, columns, groups, chunk, n),
    decreases n,
{
    if grouped(aggs, columns, groups, chunk, (n - 1) as nat) is Ok {
        (n - 1) as nat
    } else {
        lemma_first_failure(aggs, columns, groups, chunk, (n - 1) as nat)
    }
}

/// A chunk is refused only where a count or a sum of a group leaves the range of its numbers.
pub proof fn lemma_refused_out_of_range(
    executor: &mut HashAggExecutor<IntAggregate>,
    chunk: &DataChunk,
    e: AggError,
)
    requires
        call_ensures(
            HashAggExecutor::<IntAggregate>::consume_chunk,
            (executor, chunk),
            Err::<i64, AggError>(e),
        ),
    ensures
        e == AggError::NumericOutOfRange,
        exists|i: int, a: int, key: Seq<Option<i64>>|
            0 <= i < chunk.rows@.len() && 0 <= a < old(executor).aggs@.len() && chunk.visibility@[i]
                && #[trigger] agrees(
                chunk.rows@[i].values@,
                old(executor).group_key_columns@,
                key,
            ) && !(i64::MIN <= number(
                start_of(
                    #[trigger] old(executor).aggs@[a],
                    group_contents(&old(executor).groups),
                    key,
                    a,
                ),
            ) + total(
                *chunk,
                old(executor).group_key_columns@,
                key,
                (i + 1) as nat,
                worth_of(old(executor).aggs@[a]),
            ) <= i64::MAX),
{
    let aggs = old(executor).aggs@;
    let columns = old(executor).group_key_columns@;
    let before = group_contents(&old(executor).groups);
    let k = lemma_first_failure(aggs, columns, before, *chunk, chunk.rows@.len());
    let m = grouped(aggs, columns, before, *chunk, k)->Ok_0;
    let row = chunk.rows@[k as int].values@;
    assert(row == chunk.rows@[k as int]@);
    let key = key_of(row, columns);
    lemma_same_group(row, row, columns, key);
    lemma_initial(aggs);
    lemma_tallied(aggs, columns, before, *chunk, k, key);
    let states = match states_of(m, key) {
        Some(s) => s,
        None => initial_states(aggs)->Ok_0,
    };
    lemma_updated(aggs, states, row);
    let a = choose|a: int| 0 <= a < aggs.len() && too_far(#[trigger] aggs[a], states[a], row);
    let i = k as int;
    assert(agrees(chunk.rows@[i].values@, columns, key));
    assert(number(states[a]) == number(start_of(aggs[a], before, key, a)) + total(
        *chunk,
        columns,
        key,
        k,
        worth_of(aggs[a]),
    ));
    assert((i + 1) as nat == k + 1);
    assert(total(*chunk, columns, key, k + 1, worth_of(aggs[a])) == total(
        *chunk,
        columns,
        key,
        k,
        worth_of(aggs[a]),
    ) + worth_of(aggs[a])(row));
    assert(old(executor).aggs@[a] == aggs[a]);
}

proof fn lemma_results(aggs: Seq<IntAggregate>, states: Seq<Option<i64>>)
    requires
        states.len() >= aggs.len(),
    ensures
        results_of(aggs, states) == Ok::<Seq<Option<i64>>, AggError>(
            states.take(aggs.len() as int),
        ),
    decreases aggs.len(),
{
    if aggs.len() > 0 {
        lemma_results(aggs.drop_last(), states);
        assert(states.take(aggs.len() - 1).push(states[aggs.len() - 1]) =~= states.take(
            aggs.len() as int,
        ));
    } else {
        assert(states.take(0) =~= Seq::empty());
    }
}

proof fn lemma_rows_put_out(
    aggs: Seq<IntAggregate>,
    groups: Map<Seq<Option<i64>>, Seq<Option<i64>>>,
    keys: Seq<Seq<Option<i64>>>,
)
    requires
        forall|j: int|
            0 <= j < keys.len() ==> groups[#[trigger] keys[j]].len() == aggs.len(),
    ensures
        output_rows(aggs, groups, keys) == Ok::<Seq<Seq<Option<i64>>>, AggError>(
            Seq::new(keys.len(), |j: int| keys[j] + groups[keys[j]]),
        ),
    decreases keys.len(),
{
    let rows = Seq::new(keys.len(), |j: int| keys[j] + groups[keys[j]]);
    if keys.len() > 0 {
        let front = keys.drop_last();
        assert forall|j: int| 0 <= j < front.len() implies groups[#[trigger] front[j]].len()
            == aggs.len() by {
            assert(front[j] == keys[j]);
        }
        lemma_rows_put_out(aggs, groups, front);
        let last = groups[keys.last()];
        assert(keys[keys.len() - 1] == keys.last());
        lemma_results(aggs, last);
        assert(last.take(aggs.len() as int) =~= last);
        assert(Seq::new(front.len(), |j: int| front[j] + groups[front[j]]).push(keys.last() + last)
            =~= rows);
    } else {
        assert(rows =~= Seq::empty());
    }
}

/// Of the groups that are left, as many come out as a chunk takes, in their order: first the values of the key
/// of a group, and after them its aggregates.
pub proof fn lemma_groups_come_out(
    executor: &HashAggExecutor<IntAggregate>,
    results: &mut GroupResults,
    out: Vec<Row>,
    j: int,
)
    requires
        executor.wf(),
        key_views(old(results).keys@).to_set() == group_contents(&executor.groups).dom(),
        old(results).next <= old(results).keys@.len(),
        call_ensures(
            HashAggExecutor::<IntAggregate>::next_output,
            (executor, results, false),
            Ok::<Option<Vec<Row>>, AggError>(Some(out)),
        ),
        0 <= j < out@.len(),
    ensures
        0 < out@.len() <= executor.chunk_size,
        out@.len() == executor.chunk_size || final(results).next == old(results).keys@.len(),
        final(results).next == old(results).next + out@.len() <= old(results).keys@.len(),
        ({
            let key = old(results).keys@[old(results).next + j]@;
            let row = out@[j].values@;
            &&& row.len() == key.len() + executor.aggs@.len()
            &&& forall|c: int| 0 <= c < key.len() ==> #[trigger] row[c] == key[c]
            &&& forall|a: int|
                0 <= a < executor.aggs@.len() ==> #[trigger] row[key.len() + a] == group_contents(
                    &executor.groups,
                )[key][a]
        }),
{
    let from = old(results).next as int;
    let left = old(results).keys@.len() - from;
    let n = if executor.chunk_size < left {
        executor.chunk_size as int
    } else {
        left
    };
    let all = key_views(old(results).keys@);
    let keys = all.subrange(from, from + n);
    let groups = group_contents(&executor.groups);
    assert forall|i: int| 0 <= i < keys.len() implies groups[#[trigger] keys[i]].len()
        == executor.aggs@.len() by {
        assert(keys[i] == all[from + i]);
        assert(all.contains(all[from + i]));
        assert(all.to_set().contains(keys[i]));
        assert(groups.contains_key(keys[i]));
    }
    lemma_rows_put_out(executor.aggs@, groups, keys);
    let rows = Seq::new(keys.len(), |i: int| keys[i] + groups[keys[i]]);
    assert(row_views(out@) == rows);
    assert(row_views(out@).len() == out@.len());
    assert(row_views(out@)[j] == out@[j]@);
    assert(rows[j] == keys[j] + groups[keys[j]]);
    assert(keys[j] == old(results).keys@[from + j]@);
}

/// A chunk that is taken in from the start and put out again: every row that comes out has, in its first
/// columns, the values of a visible row in the columns of the group, one by one; and every visible row has a
/// group among those that are put out.
pub proof fn lemma_from_rows_to_groups(
    aggs: Vec<IntAggregate>,
    columns: Vec<usize>,
    chunk_size: usize,
    executor: &mut HashAggExecutor<IntAggregate>,
    chunk: &DataChunk,
    change: i64,
    filled: &HashAggExecutor<IntAggregate>,
    results: &mut GroupResults,
    out: Vec<Row>,
    j: int,
)
    requires
        call_ensures(
            HashAggExecutor::<IntAggregate>::new,
            (aggs, columns, chunk_size),
            *old(executor),
        ),
        call_ensures(
            HashAggExecutor::<IntAggregate>::consume_chunk,
            (executor, chunk),
            Ok::<i64, AggError>(change),
        ),
        *filled == *final(executor),
        call_ensures(HashAggExecutor::<IntAggregate>::finish, (filled,), *old(results)),
        call_ensures(
            HashAggExecutor::<IntAggregate>::next_output,
            (filled, results, false),
            Ok::<Option<Vec<Row>>, AggError>(Some(out)),
        ),
        0 <= j < out@.len(),
    ensures
        exists|i: int|
            0 <= i < chunk.rows@.len() && chunk.visibility@[i] && forall|c: int|
                0 <= c < columns@.len() ==> out@[j].values@[c] == (
                #[trigger] chunk.rows@[i]).values@[#[trigger] columns@[c] as int],
        forall|i: int|
            0 <= i < chunk.rows@.len() && chunk.visibility@[i] ==> exists|g: int|
                0 <= g < old(results).keys@.len() && agrees(
                    (#[trigger] chunk.rows@[i]).values@,
                    columns@,
                    #[trigger] old(results).keys@[g]@,
                ),
        forall|g: int, h: int|
            0 <= g < h < old(results).keys@.len() ==> (#[trigger] old(results).keys@[g])@ != (
            #[trigger] old(results).keys@[h])@,
{
    let all = key_views(old(results).keys@);
    let cols = columns@;
    let n = chunk.rows@.len();
    let before = group_contents(&old(executor).groups);
    let after = group_contents(&final(executor).groups);
    lemma_groups_come_out(filled, results, out, j);
    let key = old(results).keys@[j]@;
    assert(all[j] == key);
    assert(all.contains(key));
    assert(all.to_set().contains(key));
    assert(after.contains_key(key));
    lemma_tallied(aggs@, cols, before, *chunk, n, key);
    lemma_some_row(*chunk, cols, key, n);
    let i = choose|i: int|
        0 <= i < n && chunk.visibility@[i] && agrees((#[trigger] chunk.rows@[i]).values@, cols, key);
    assert forall|c: int| 0 <= c < cols.len() implies out@[j].values@[c] == chunk.rows@[i].values@[
    #[trigger] cols[c] as int] by {
        assert(out@[j].values@[c] == key[c]);
    }
    assert forall|i: int| 0 <= i < n && chunk.visibility@[i] implies exists|g: int|
        0 <= g < old(results).keys@.len() && agrees(
            (#[trigger] chunk.rows@[i]).values@,
            cols,
            #[trigger] old(results).keys@[g]@,
        ) by {
        let row = chunk.rows@[i].values@;
        let k = key_of(row, cols);
        lemma_same_group(row, row, cols, k);
        lemma_tallied(aggs@, cols, before, *chunk, n, k);
        assert(agrees(chunk.rows@[i].values@, cols, k));
        lemma_some_row(*chunk, cols, k, n);
        assert(after.contains_key(k));
        assert(all.to_set().contains(k));
        let g = choose|g: int| 0 <= g < all.len() && all[g] == k;
        assert(old(results).keys@[g]@ == k);
    }
    assert forall|g: int, h: int| 0 <= g < h < old(results).keys@.len() implies (
    #[trigger] old(results).keys@[g])@ != (#[trigger] old(results).keys@[h])@ by {
        assert(all[g] != all[h]);
    }
}

proof fn lemma_states_take(aggs: Seq<IntAggregate>, states: Seq<Option<i64>>)
    ensures
        states_size(aggs, states) == aggs.len() * 24,
    decreases aggs.len(),
{
    if aggs.len() > 0 {
        lemma_states_take(aggs.drop_last(), states);
    }
}

proof fn lemma_new_groups_take(
    aggs: Seq<IntAggregate>,
    columns: Seq<usize>,
    groups: Map<Seq<Option<i64>>, Seq<Option<i64>>>,
    chunk: DataChunk,
    k: nat,
)
    requires
        groups.dom().finite(),
        grouped(aggs, columns, groups, chunk, k) is Ok,
    ensures
        ({
            let after = grouped(aggs, columns, groups, chunk, k)->Ok_0;
            after.dom().finite() && size_change(aggs, columns, groups, chunk, k) == (aggs.len()
                * 24) * (after.dom().len() - groups.dom().len())
        }),
    decreases k,
{
    let each = aggs.len() * 24;
    if k > 0 {
        lemma_new_groups_take(aggs, columns, groups, chunk, (k - 1) as nat);
        let m = grouped(aggs, columns, groups, chunk, (k - 1) as nat)->Ok_0;
        if chunk.visibility@[k - 1] {
            let row = chunk.rows@[k - 1]@;
            let key = key_of(row, columns);
            let states = step(aggs, states_of(m, key), row)->Ok_0;
            let after = m.insert(key, states);
            assert(after.dom() =~= m.dom().insert(key));
            lemma_states_take(aggs, states);
            if m.contains_key(key) {
                lemma_states_take(aggs, m[key]);
                assert(after.dom() =~= m.dom());
            } else {
                let d = m.dom().len() - groups.dom().len();
                assert(each * (d + 1) == each * d + each) by (nonlinear_arith);
            }
        }
    } else {
        assert(each * 0 == 0) by (nonlinear_arith);
    }
}

/// The memory grows by the same amount for every new group and every aggregate, and by nothing else.
pub proof fn lemma_memory_of_new_groups(
    executor: &mut HashAggExecutor<IntAggregate>,
    chunk: &DataChunk,
    change: i64,
)
    requires
        call_ensures(
            HashAggExecutor::<IntAggregate>::consume_chunk,
            (executor, chunk),
            Ok::<i64, AggError>(change),
        ),
        group_contents(&old(executor).groups).dom().finite(),
    ensures
        change == (old(executor).aggs@.len() * 24) * (group_contents(
            &final(executor).groups,
        ).dom().len() - group_contents(&old(executor).groups).dom().len()),
{
    lemma_new_groups_take(
        old(executor).aggs@,
        old(executor).group_key_columns@,
        group_contents(&old(executor).groups),
        *chunk,
        chunk.rows@.len(),
    );
}

/// An aggregation puts out the columns of its groups and behind them the results of its functions, with their types,
/// and starts without groups.
pub proof fn lemma_columns_put_out(
    group_key: &Vec<u32>,
    child_types: &Vec<SqlType>,
    aggs: Vec<IntAggregate>,
    return_types: &Vec<SqlType>,
    chunk_size: usize,
    res: (HashAggExecutor<IntAggregate>, Vec<SqlType>),
    i: int,
    key: Seq<Option<i64>>,
)
    requires
        call_ensures(
            HashAggExecutorBuilder::deserialize::<IntAggregate>,
            (group_key, child_types, aggs, return_types, chunk_size),
            res,
        ),
    ensures
        res.1@.len() == group_key@.len() + return_types@.len(),
        0 <= i < group_key@.len() ==> res.1@[i] == child_types@[group_key@[i] as int]
            && res.0.group_key_columns@[i] == group_key@[i],
        0 <= i < return_types@.len() ==> res.1@[group_key@.len() + i] == return_types@[i],
        res.0.aggs@ == aggs@ && res.0.chunk_size == chunk_size,
        !group_contents(&res.0.groups).contains_key(key),
{
}

} // verus!
