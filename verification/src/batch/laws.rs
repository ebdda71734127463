//! What comparing and merging rows is for, said of the values themselves.
use crate::batch::merge_sort_exchange::visible_from;
use crate::batch::merge_sort_exchange::MergeSortExchangeExecutorImpl;
use crate::batch::merged::{flat, queues, rows_in, rows_of, source_sorted, sources_sorted};
use crate::batch::row::{compare_rows, not_after, rows_compared, values_compared};
use crate::batch::row::{ColumnOrder, Compared, DataChunk, NullsAre, Row};
use std::collections::VecDeque;
use vstd::multiset::Multiset;
use vstd::prelude::*;

verus! {

/// Numbers compare as numbers, and a missing value comes after all numbers or before them, as is asked.
pub proof fn lemma_values_in_order(x: i64, y: i64, nulls_are: NullsAre)
    ensures
        values_compared(Some(x), Some(y), nulls_are) == Compared::Less <==> x < y,
        values_compared(Some(x), Some(y), nulls_are) == Compared::Equal <==> x == y,
        values_compared(Some(x), Some(y), nulls_are) == Compared::Greater <==> x > y,
        values_compared(None, None, nulls_are) == Compared::Equal,
        values_compared(None, Some(y), NullsAre::Largest) == Compared::Greater,
        values_compared(None, Some(y), NullsAre::Smallest) == Compared::Less,
        values_compared(Some(x), None, NullsAre::Largest) == Compared::Less,
        values_compared(Some(x), None, NullsAre::Smallest) == Compared::Greater,
{
}

/// The value stands before a different one in a column of the given order.
pub open spec fn stands_before(a: Option<i64>, b: Option<i64>, order: ColumnOrder) -> bool {
    match (a, b) {
        (Some(x), Some(y)) => if order.is_descending {
            x > y
        } else {
            x < y
        },
        (None, Some(_)) => order.is_descending == (order.nulls_are == NullsAre::Largest),
        (Some(_), None) => order.is_descending == (order.nulls_are == NullsAre::Smallest),
        (None, None) => false,
    }
}

/// Of two rows the first column in which they differ decides: the row whose value stands before the other's
/// comes first. Rows that differ in no column of the order are equal.
pub proof fn lemma_first_difference_decides(
    a: Seq<Option<i64>>,
    b: Seq<Option<i64>>,
    orders: Seq<ColumnOrder>,
    k: int,
)
    requires
        0 <= k <= orders.len(),
        forall|m: int|
            0 <= m < k ==> a[(#[trigger] orders[m]).column_index as int]
                == b[orders[m].column_index as int],
        k < orders.len() ==> a[orders[k].column_index as int] != b[orders[k].column_index as int],
    ensures
        k == orders.len() ==> rows_compared(a, b, orders) == Compared::Equal,
        k < orders.len() ==> {
            let x = a[orders[k].column_index as int];
            let y = b[orders[k].column_index as int];
            &&& rows_compared(a, b, orders) == Compared::Less <==> stands_before(x, y, orders[k])
            &&& rows_compared(a, b, orders) == Compared::Greater <==> stands_before(
                y,
                x,
                orders[k],
            )
            &&& rows_compared(a, b, orders) != Compared::Equal
        },
    decreases k,
{
    if k > 0 {
        assert(a[orders[0].column_index as int] == b[orders[0].column_index as int]);
        let rest = orders.skip(1);
        assert forall|m: int| 0 <= m < k - 1 implies a[(#[trigger] rest[m]).column_index as int]
            == b[rest[m].column_index as int] by {
            assert(rest[m] == orders[m + 1]);
        }
        if k < orders.len() {
            assert(rest[k - 1] == orders[k]);
        }
        lemma_first_difference_decides(a, b, rest, k - 1);
    }
}

/// What comparing two rows gives: the first column in which they differ decides.
pub proof fn lemma_compared_by_columns(
    a: &Row,
    b: &Row,
    orders: &Vec<ColumnOrder>,
    res: Compared,
    k: int,
)
    requires
        call_ensures(compare_rows, (a, b, orders), res),
        0 <= k <= orders@.len(),
        forall|m: int|
            0 <= m < k ==> a.values@[(#[trigger] orders@[m]).column_index as int]
                == b.values@[orders@[m].column_index as int],
        k < orders@.len() ==> a.values@[orders@[k].column_index as int]
            != b.values@[orders@[k].column_index as int],
    ensures
        k == orders@.len() ==> res == Compared::Equal,
        k < orders@.len() ==> res == (if stands_before(
            a.values@[orders@[k].column_index as int],
            b.values@[orders@[k].column_index as int],
            orders@[k],
        ) {
            Compared::Less
        } else {
            Compared::Greater
        }),
{
    lemma_first_difference_decides(a@, b@, orders@, k);
}

/// The place of the first column in which two rows differ.
proof fn lemma_first_difference(
    a: Seq<Option<i64>>,
    b: Seq<Option<i64>>,
    orders: Seq<ColumnOrder>,
) -> (k: int)
    ensures
        0 <= k <= orders.len(),
        forall|m: int|
            0 <= m < k ==> a[(#[trigger] orders[m]).column_index as int]
                == b[orders[m].column_index as int],
        k < orders.len() ==> a[orders[k].column_index as int] != b[orders[k].column_index as int],
    decreases orders.len(),
{
    if orders.len() == 0 {
        0
    } else {
        let init = orders.drop_last();
        let k = lemma_first_difference(a, b, init);
        if k < init.len() {
            assert(init[k] == orders[k]);
            assert forall|m: int| 0 <= m < k implies a[(#[trigger] orders[m]).column_index as int]
                == b[orders[m].column_index as int] by {
                assert(init[m] == orders[m]);
            }
            k
        } else {
            let last = orders.len() - 1;
            assert forall|m: int| 0 <= m < last implies a[(
            #[trigger] orders[m]).column_index as int] == b[orders[m].column_index as int] by {
                assert(init[m] == orders[m]);
            }
            if a[orders[last].column_index as int] != b[orders[last].column_index as int] {
                last
            } else {
                orders.len() as int
            }
        }
    }
}

/// The place of a row of a produced chunk among all rows.
pub open spec fn row_place(chunks: Seq<Vec<Row>>, u: int, i: int) -> int
    decreases u,
{
    if u <= 0 {
        i
    } else {
        chunks[u - 1]@.len() + row_place(chunks, u - 1, i)
    }
}

proof fn lemma_row_place(chunks: Seq<Vec<Row>>, u: int, i: int)
    requires
        0 <= u < chunks.len(),
        0 <= i < chunks[u]@.len(),
    ensures
        0 <= row_place(chunks, u, i) < flat(chunks).len(),
        flat(chunks)[row_place(chunks, u, i)] == chunks[u]@[i]@,
        row_place(chunks, u, i) == flat(chunks.take(u)).len() + i,
    decreases chunks.len(),
{
    lemma_place_len(chunks, u, i);
    if u < chunks.len() - 1 {
        let front = chunks.drop_last();
        lemma_row_place(front, u, i);
        lemma_place_len(front, u, i);
        assert(front.take(u) =~= chunks.take(u));
    } else {
        assert(chunks.take(u) =~= chunks.drop_last());
    }
}

proof fn lemma_place_len(chunks: Seq<Vec<Row>>, u: int, i: int)
    requires
        0 <= u <= chunks.len(),
    ensures
        row_place(chunks, u, i) == flat(chunks.take(u)).len() + i,
    decreases u,
{
    if u == 0 {
        assert(chunks.take(0) =~= Seq::<Vec<Row>>::empty());
    } else {
        lemma_place_len(chunks, u - 1, i);
        assert(chunks.take(u).drop_last() =~= chunks.take(u - 1));
        assert(chunks.take(u).last() == chunks[u - 1]);
    }
}

proof fn lemma_place_grows(chunks: Seq<Vec<Row>>, u: int, i: int, v: int, j: int)
    requires
        0 <= u <= v < chunks.len(),
        0 <= i < chunks[u]@.len(),
        0 <= j < chunks[v]@.len(),
        u < v || i <= j,
    ensures
        row_place(chunks, u, i) <= row_place(chunks, v, j),
    decreases v - u,
{
    if u < v {
        lemma_later_place(chunks, u, i, v, j);
    } else {
        lemma_place_len(chunks, u, i);
        lemma_place_len(chunks, v, j);
    }
}

proof fn lemma_later_place(chunks: Seq<Vec<Row>>, u: int, i: int, v: int, j: int)
    requires
        0 <= u < v < chunks.len(),
        0 <= i < chunks[u]@.len(),
        0 <= j,
    ensures
        row_place(chunks, u, i) <= row_place(chunks, v, j),
    decreases v - u,
{
    lemma_place_len(chunks, u, i);
    lemma_place_len(chunks, v, j);
    assert(chunks.take(u + 1).drop_last() =~= chunks.take(u));
    assert(chunks.take(u + 1).last() == chunks[u]);
    lemma_flat_grows(chunks, u + 1, v);
}

proof fn lemma_flat_grows(chunks: Seq<Vec<Row>>, u: int, v: int)
    requires
        0 <= u <= v <= chunks.len(),
    ensures
        flat(chunks.take(u)).len() <= flat(chunks.take(v)).len(),
    decreases v - u,
{
    if u < v {
        lemma_flat_grows(chunks, u, v - 1);
        assert(chunks.take(v).drop_last() =~= chunks.take(v - 1));
    }
}

/// The visible rows of every source are in the given order: of two of them, the later differs from the earlier
/// in no column, or the earlier stands before it in the first column in which they differ.
pub open spec fn given_in_order(sources: Seq<VecDeque<DataChunk>>, orders: Seq<ColumnOrder>) -> bool {
    forall|s: int, a: int, i: int, b: int, j: int, k: int|
        #![trigger sources[s]@[a].rows@[i], sources[s]@[b].rows@[j], orders[k]]
        0 <= s < sources.len() && 0 <= a <= b < sources[s]@.len() && 0 <= i
            < sources[s]@[a].rows@.len() && 0 <= j < sources[s]@[b].rows@.len()
            && sources[s]@[a].visibility@[i] && sources[s]@[b].visibility@[j] && (a < b || i <= j)
            && 0 <= k < orders.len() && first_apart(
            sources[s]@[a].rows@[i].values@,
            sources[s]@[b].rows@[j].values@,
            orders,
            k,
        ) ==> stands_before(
            sources[s]@[a].rows@[i].values@[orders[k].column_index as int],
            sources[s]@[b].rows@[j].values@[orders[k].column_index as int],
            orders[k],
        )
}

/// The column is the first in which the rows differ.
pub open spec fn first_apart(
    a: Seq<Option<i64>>,
    b: Seq<Option<i64>>,
    orders: Seq<ColumnOrder>,
    k: int,
) -> bool {
    &&& a[orders[k].column_index as int] != b[orders[k].column_index as int]
    &&& forall|m: int|
        0 <= m < k ==> a[(#[trigger] orders[m]).column_index as int]
            == b[orders[m].column_index as int]
}

proof fn lemma_given_sorted(sources: Seq<VecDeque<DataChunk>>, orders: Seq<ColumnOrder>)
    requires
        given_in_order(sources, orders),
    ensures
        sources_sorted(queues(sources), orders),
{
    let q = queues(sources);
    assert forall|s: int| 0 <= s < q.len() implies source_sorted(#[trigger] q[s], orders) by {
        assert forall|a: int, i: int, b: int, j: int|
            0 <= a <= b < q[s].len() && #[trigger] q[s][a].visible(i) && #[trigger] q[s][b].visible(j)
                && (a < b || i <= j) implies not_after(
            q[s][a].rows@[i]@,
            q[s][b].rows@[j]@,
            orders,
        ) by {
            let x = sources[s]@[a].rows@[i];
            let y = sources[s]@[b].rows@[j];
            let k = lemma_first_difference(x@, y@, orders);
            lemma_first_difference_decides(x@, y@, orders, k);
            if k < orders.len() {
                let o = orders[k];
                assert(first_apart(x.values@, y.values@, orders, k));
                assert(stands_before(
                    x.values@[o.column_index as int],
                    y.values@[o.column_index as int],
                    o,
                ));
            }
        }
    }
}

/// Merging sources in order gives rows in order: of two rows that come out, the earlier stands before the
/// later in the first column in which they differ.
pub proof fn lemma_merged_in_order(
    executor: MergeSortExchangeExecutorImpl,
    sources: Vec<VecDeque<DataChunk>>,
    res: Vec<Vec<Row>>,
    u: int,
    i: int,
    v: int,
    j: int,
    k: int,
)
    requires
        call_ensures(MergeSortExchangeExecutorImpl::do_execute, (executor, sources), res),
        given_in_order(sources@, executor.column_orders@),
        0 <= u <= v < res@.len(),
        0 <= i < res@[u]@.len(),
        0 <= j < res@[v]@.len(),
        u < v || i <= j,
        0 <= k < executor.column_orders@.len(),
        first_apart(res@[u]@[i].values@, res@[v]@[j].values@, executor.column_orders@, k),
    ensures
        stands_before(
            res@[u]@[i].values@[executor.column_orders@[k].column_index as int],
            res@[v]@[j].values@[executor.column_orders@[k].column_index as int],
            executor.column_orders@[k],
        ),
{
    let orders = executor.column_orders@;
    lemma_given_sorted(sources@, orders);
    lemma_row_place(res@, u, i);
    lemma_row_place(res@, v, j);
    lemma_place_grows(res@, u, i, v, j);
    let f = flat(res@);
    assert(not_after(f[row_place(res@, u, i)], f[row_place(res@, v, j)], orders));
    lemma_first_difference_decides(res@[u]@[i]@, res@[v]@[j]@, orders, k);
}

/// Merging by one column without missing values gives the numbers of that column in ascending order, or in
/// descending order where that is asked.
pub proof fn lemma_merged_numbers_in_order(
    executor: MergeSortExchangeExecutorImpl,
    sources: Vec<VecDeque<DataChunk>>,
    res: Vec<Vec<Row>>,
    u: int,
    i: int,
    v: int,
    j: int,
    x: i64,
    y: i64,
)
    requires
        call_ensures(MergeSortExchangeExecutorImpl::do_execute, (executor, sources), res),
        executor.column_orders@.len() == 1,
        given_in_order(sources@, executor.column_orders@),
        0 <= u <= v < res@.len(),
        0 <= i < res@[u]@.len(),
        0 <= j < res@[v]@.len(),
        u < v || i <= j,
        res@[u]@[i].values@[executor.column_orders@[0].column_index as int] == Some(x),
        res@[v]@[j].values@[executor.column_orders@[0].column_index as int] == Some(y),
    ensures
        if executor.column_orders@[0].is_descending {
            x >= y
        } else {
            x <= y
        },
{
    if x != y {
        lemma_merged_in_order(executor, sources, res, u, i, v, j, 0);
    }
}

/// The visible rows of a chunk, as they stand in it.
pub open spec fn shown_rows(chunk: DataChunk) -> Seq<Seq<Option<i64>>> {
    Seq::new(chunk.rows@.len(), |i: int| (chunk.visibility@[i], chunk.rows@[i].values@)).filter(
        |p: (bool, Seq<Option<i64>>)| p.0,
    ).map_values(|p: (bool, Seq<Option<i64>>)| p.1)
}

proof fn lemma_shown_rows(chunk: DataChunk, n: int)
    requires
        0 <= n <= chunk.rows@.len(),
    ensures
        ({
            let marked = Seq::new(
                chunk.rows@.len(),
                |i: int| (chunk.visibility@[i], chunk.rows@[i].values@),
            );
            let shown = marked.take(n).filter(|p: (bool, Seq<Option<i64>>)| p.0).map_values(
                |p: (bool, Seq<Option<i64>>)| p.1,
            );
            visible_from(chunk, 0) == shown.to_multiset().add(visible_from(chunk, n))
        }),
    decreases n,
{
    let marked = Seq::new(
        chunk.rows@.len(),
        |i: int| (chunk.visibility@[i], chunk.rows@[i].values@),
    );
    let keep = |p: (bool, Seq<Option<i64>>)| p.0;
    let out = |p: (bool, Seq<Option<i64>>)| p.1;
    let shown = marked.take(n).filter(keep).map_values(out);
    reveal(Seq::filter);
    if n == 0 {
        assert(shown =~= Seq::empty());
        shown.to_multiset_ensures();
        assert(shown.to_multiset().len() == 0);
        assert(shown.to_multiset() =~= Multiset::empty());
        assert(Multiset::empty().add(visible_from(chunk, 0)) =~= visible_from(chunk, 0));
    } else {
        lemma_shown_rows(chunk, n - 1);
        let before = marked.take(n - 1).filter(keep).map_values(out);
        assert(marked.take(n).drop_last() =~= marked.take(n - 1));
        assert(marked.take(n).last() == marked[n - 1]);
        before.to_multiset_ensures();
        if chunk.visibility@[n - 1] {
            assert(marked.take(n).filter(keep) == marked.take(n - 1).filter(keep).push(
                marked[n - 1],
            ));
            assert(shown =~= before.push(chunk.rows@[n - 1].values@));
            assert(chunk.rows@[n - 1]@ == chunk.rows@[n - 1].values@);
            assert(shown.to_multiset().add(visible_from(chunk, n)) =~= before.to_multiset().add(
                visible_from(chunk, n - 1),
            ));
        } else {
            assert(shown =~= before);
        }
    }
}

/// The rows of a chunk that count are exactly its visible ones.
pub proof fn lemma_chunk_rows(chunk: DataChunk)
    ensures
        rows_of(seq![chunk]) == shown_rows(chunk).to_multiset(),
{
    let marked = Seq::new(
        chunk.rows@.len(),
        |i: int| (chunk.visibility@[i], chunk.rows@[i].values@),
    );
    lemma_shown_rows(chunk, chunk.rows@.len() as int);
    assert(marked.take(chunk.rows@.len() as int) =~= marked);
    assert(seq![chunk].skip(1) =~= Seq::<DataChunk>::empty());
    assert(rows_of(Seq::<DataChunk>::empty()) == Multiset::<Seq<Option<i64>>>::empty());
    assert(visible_from(chunk, chunk.rows@.len() as int) == Multiset::<Seq<Option<i64>>>::empty());
    assert(rows_of(seq![chunk]) =~= shown_rows(chunk).to_multiset());
}

/// The rows of two lists of chunks are those of the first and those of the second.
pub proof fn lemma_chunks_add_up(a: Seq<DataChunk>, b: Seq<DataChunk>)
    ensures
        rows_of(a + b) == rows_of(a).add(rows_of(b)),
    decreases a.len(),
{
    if a.len() == 0 {
        assert(a + b =~= b);
        assert(rows_of(a).add(rows_of(b)) =~= rows_of(b));
    } else {
        lemma_chunks_add_up(a.skip(1), b);
        assert((a + b).skip(1) =~= a.skip(1) + b);
        assert(rows_of(a + b) =~= rows_of(a).add(rows_of(b)));
    }
}

/// The rows of all sources are those of the first ones and those of the last.
pub proof fn lemma_sources_add_up(sources: Seq<Seq<DataChunk>>, last: Seq<DataChunk>)
    ensures
        rows_in(Seq::empty()) == Multiset::<Seq<Option<i64>>>::empty(),
        rows_of(Seq::empty()) == Multiset::<Seq<Option<i64>>>::empty(),
        rows_in(sources.push(last)) == rows_in(sources).add(rows_of(last)),
{
    assert(sources.push(last).drop_last() =~= sources);
}

/// A row is among those of a chunk that count if and only if it is a visible row of it.
proof fn lemma_visible_row(chunk: DataChunk, from: int, row: Seq<Option<i64>>)
    requires
        0 <= from,
    ensures
        visible_from(chunk, from).count(row) > 0 <==> exists|i: int|
            from <= i < chunk.rows@.len() && chunk.visibility@[i] && (
            #[trigger] chunk.rows@[i]).values@ == row,
    decreases chunk.rows@.len() - from,
{
    if from < chunk.rows@.len() {
        lemma_visible_row(chunk, from + 1, row);
        assert(chunk.rows@[from]@ == chunk.rows@[from].values@);
    }
}

proof fn lemma_source_row(chunks: Seq<DataChunk>, row: Seq<Option<i64>>)
    ensures
        rows_of(chunks).count(row) > 0 <==> exists|a: int, i: int|
            0 <= a < chunks.len() && 0 <= i < chunks[a].rows@.len() && chunks[a].visibility@[i] && (
            #[trigger] chunks[a].rows@[i]).values@ == row,
    decreases chunks.len(),
{
    if chunks.len() > 0 {
        let rest = chunks.skip(1);
        lemma_source_row(rest, row);
        lemma_visible_row(chunks[0], 0, row);
        if rows_of(chunks).count(row) > 0 {
            if visible_from(chunks[0], 0).count(row) > 0 {
                let i = choose|i: int|
                    0 <= i < chunks[0].rows@.len() && chunks[0].visibility@[i] && (
                    #[trigger] chunks[0].rows@[i]).values@ == row;
                assert(chunks[0].rows@[i].values@ == row);
            } else {
                let (a, i) = choose|a: int, i: int|
                    0 <= a < rest.len() && 0 <= i < rest[a].rows@.len() && rest[a].visibility@[i] && (
                    #[trigger] rest[a].rows@[i]).values@ == row;
                assert(chunks[a + 1] == rest[a]);
                assert(chunks[a + 1].rows@[i].values@ == row);
            }
        }
        if exists|a: int, i: int|
            0 <= a < chunks.len() && 0 <= i < chunks[a].rows@.len() && chunks[a].visibility@[i] && (
            #[trigger] chunks[a].rows@[i]).values@ == row {
            let (a, i) = choose|a: int, i: int|
                0 <= a < chunks.len() && 0 <= i < chunks[a].rows@.len()
                    && chunks[a].visibility@[i] && (#[trigger] chunks[a].rows@[i]).values@ == row;
            if a > 0 {
                assert(rest[a - 1] == chunks[a]);
                assert(rest[a - 1].rows@[i].values@ == row);
            }
        }
    }
}

proof fn lemma_row_in(sources: Seq<Seq<DataChunk>>, row: Seq<Option<i64>>)
    ensures
        rows_in(sources).count(row) > 0 <==> exists|s: int, a: int, i: int|
            0 <= s < sources.len() && 0 <= a < sources[s].len() && 0 <= i
                < sources[s][a].rows@.len() && sources[s][a].visibility@[i] && (
            #[trigger] sources[s][a].rows@[i]).values@ == row,
    decreases sources.len(),
{
    if sources.len() > 0 {
        let front = sources.drop_last();
        let last = sources.len() - 1;
        lemma_row_in(front, row);
        lemma_source_row(sources[last], row);
        if rows_in(sources).count(row) > 0 {
            if rows_of(sources[last]).count(row) > 0 {
                let (a, i) = choose|a: int, i: int|
                    0 <= a < sources[last].len() && 0 <= i < sources[last][a].rows@.len()
                        && sources[last][a].visibility@[i] && (
                    #[trigger] sources[last][a].rows@[i]).values@ == row;
                assert(sources[last][a].rows@[i].values@ == row);
            } else {
                let (s, a, i) = choose|s: int, a: int, i: int|
                    0 <= s < front.len() && 0 <= a < front[s].len() && 0 <= i
                        < front[s][a].rows@.len() && front[s][a].visibility@[i] && (
                    #[trigger] front[s][a].rows@[i]).values@ == row;
                assert(sources[s] == front[s]);
                assert(sources[s][a].rows@[i].values@ == row);
            }
        }
        if exists|s: int, a: int, i: int|
            0 <= s < sources.len() && 0 <= a < sources[s].len() && 0 <= i
                < sources[s][a].rows@.len() && sources[s][a].visibility@[i] && (
            #[trigger] sources[s][a].rows@[i]).values@ == row {
            let (s, a, i) = choose|s: int, a: int, i: int|
                0 <= s < sources.len() && 0 <= a < sources[s].len() && 0 <= i
                    < sources[s][a].rows@.len() && sources[s][a].visibility@[i] && (
                #[trigger] sources[s][a].rows@[i]).values@ == row;
            if s < last {
                assert(front[s] == sources[s]);
                assert(front[s][a].rows@[i].values@ == row);
            }
        }
    }
}

proof fn lemma_row_out(chunks: Seq<Vec<Row>>, row: Seq<Option<i64>>)
    ensures
        flat(chunks).contains(row) <==> exists|u: int, j: int|
            0 <= u < chunks.len() && 0 <= j < chunks[u]@.len() && (
            #[trigger] chunks[u]@[j]).values@ == row,
    decreases chunks.len(),
{
    if chunks.len() > 0 {
        let front = chunks.drop_last();
        let last = chunks.len() - 1;
        lemma_row_out(front, row);
        let f = flat(chunks);
        if f.contains(row) {
            let p = f.index_of(row);
            let n = flat(front).len();
            if p < n {
                assert(flat(front)[p] == row);
                let (u, j) = choose|u: int, j: int|
                    0 <= u < front.len() && 0 <= j < front[u]@.len() && (
                    #[trigger] front[u]@[j]).values@ == row;
                assert(chunks[u]@[j].values@ == row);
            } else {
                assert(chunks[last]@[p - n].values@ == row);
            }
        }
        if exists|u: int, j: int|
            0 <= u < chunks.len() && 0 <= j < chunks[u]@.len() && (
            #[trigger] chunks[u]@[j]).values@ == row {
            let (u, j) = choose|u: int, j: int|
                0 <= u < chunks.len() && 0 <= j < chunks[u]@.len() && (
                #[trigger] chunks[u]@[j]).values@ == row;
            lemma_row_place(chunks, u, j);
        }
    } else {
        assert(!flat(chunks).contains(row));
    }
}

/// A row comes out if and only if it is a visible row of a source, and no chunk is empty or larger than it may
/// be.
pub proof fn lemma_merged_rows(
    executor: MergeSortExchangeExecutorImpl,
    sources: Vec<VecDeque<DataChunk>>,
    res: Vec<Vec<Row>>,
    row: Seq<Option<i64>>,
)
    requires
        call_ensures(MergeSortExchangeExecutorImpl::do_execute, (executor, sources), res),
    ensures
        (exists|u: int, j: int|
            0 <= u < res@.len() && 0 <= j < res@[u]@.len() && (
            #[trigger] res@[u]@[j]).values@ == row) <==> (exists|s: int, a: int, i: int|
            0 <= s < sources@.len() && 0 <= a < sources@[s]@.len() && 0 <= i
                < sources@[s]@[a].rows@.len() && sources@[s]@[a].visibility@[i] && (
            #[trigger] sources@[s]@[a].rows@[i]).values@ == row),
        forall|u: int|
            0 <= u < res@.len() ==> 0 < (#[trigger] res@[u])@.len() <= executor.chunk_size && (u
                < res@.len() - 1 ==> res@[u]@.len() == executor.chunk_size),
{
    let q = queues(sources@);
    let f = flat(res@);
    f.to_multiset_ensures();
    lemma_row_out(res@, row);
    lemma_row_in(q, row);
    assert(f.contains(row) <==> f.to_multiset().count(row) > 0);
    if rows_in(q).count(row) > 0 {
        let (s, a, i) = choose|s: int, a: int, i: int|
            0 <= s < q.len() && 0 <= a < q[s].len() && 0 <= i < q[s][a].rows@.len()
                && q[s][a].visibility@[i] && (#[trigger] q[s][a].rows@[i]).values@ == row;
        assert(sources@[s]@[a].rows@[i].values@ == row);
    }
    if exists|s: int, a: int, i: int|
        0 <= s < sources@.len() && 0 <= a < sources@[s]@.len() && 0 <= i
            < sources@[s]@[a].rows@.len() && sources@[s]@[a].visibility@[i] && (
        #[trigger] sources@[s]@[a].rows@[i]).values@ == row {
        let (s, a, i) = choose|s: int, a: int, i: int|
            0 <= s < sources@.len() && 0 <= a < sources@[s]@.len() && 0 <= i
                < sources@[s]@[a].rows@.len() && sources@[s]@[a].visibility@[i] && (
            #[trigger] sources@[s]@[a].rows@[i]).values@ == row;
        assert(q[s][a].rows@[i].values@ == row);
    }
}

/// How many visible rows a chunk has from the given one on.
pub open spec fn shown_count(visibility: Seq<bool>, from: int) -> nat
    decreases visibility.len() - from,
{
    if from < 0 || from >= visibility.len() {
        0
    } else if visibility[from] {
        1 + shown_count(visibility, from + 1)
    } else {
        shown_count(visibility, from + 1)
    }
}

/// As many rows come out of one source of one chunk as are visible in it.
pub proof fn lemma_merged_count(
    executor: MergeSortExchangeExecutorImpl,
    sources: Vec<VecDeque<DataChunk>>,
    res: Vec<Vec<Row>>,
)
    requires
        call_ensures(MergeSortExchangeExecutorImpl::do_execute, (executor, sources), res),
        sources@.len() == 1,
        sources@[0]@.len() == 1,
        sources@[0]@[0].rows@.len() == sources@[0]@[0].visibility@.len(),
    ensures
        flat(res@).len() == shown_count(sources@[0]@[0].visibility@, 0),
{
    let q = queues(sources@);
    let c = sources@[0]@[0];
    flat(res@).to_multiset_ensures();
    lemma_visible_len(c, 0);
    assert(q.drop_last() =~= Seq::empty());
    assert(q[0] =~= seq![c]);
    assert(q[0].skip(1) =~= Seq::<DataChunk>::empty());
    assert(rows_of(Seq::<DataChunk>::empty()) == Multiset::<Seq<Option<i64>>>::empty());
    assert(rows_in(Seq::<Seq<DataChunk>>::empty()) == Multiset::<Seq<Option<i64>>>::empty());
    assert(rows_in(q) =~= visible_from(c, 0));
}

proof fn lemma_visible_len(chunk: DataChunk, from: int)
    requires
        0 <= from,
        chunk.rows@.len() == chunk.visibility@.len(),
    ensures
        visible_from(chunk, from).len() == shown_count(chunk.visibility@, from),
    decreases chunk.rows@.len() - from,
{
    if from < chunk.rows@.len() {
        lemma_visible_len(chunk, from + 1);
    }
}

} // verus!
