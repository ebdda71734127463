//! Merging sorted sources as a whole: all their rows come out, in order, in chunks that are full but for the
//! last.
use crate::batch::merge_sort_exchange::{has_head, in_order, inputs_ordered, is_row_of, last_or};
use crate::batch::merge_sort_exchange::{left_in, left_of, lemma_left_update, lemma_visible_from};
use crate::batch::merge_sort_exchange::{row_views, rows_sorted, visible_from};
use crate::batch::merge_sort_exchange::{MergeSortExchangeExecutorImpl, Progress, SourceInput};
use crate::batch::row::{has_columns, lemma_compared_transitive, not_after};
use crate::batch::row::{ColumnOrder, DataChunk, Row};
use std::collections::VecDeque;
use vstd::multiset::Multiset;
use vstd::prelude::*;
use vstd::seq_lib::lemma_multiset_commutative;

verus! {

/// The chunks behind the sources.
pub open spec fn queues(sources: Seq<VecDeque<DataChunk>>) -> Seq<Seq<DataChunk>> {
    Seq::new(sources.len(), |i: int| sources[i]@)
}

/// The visible rows of the chunks of a source.
pub open spec fn rows_of(chunks: Seq<DataChunk>) -> Multiset<Seq<Option<i64>>>
    decreases chunks.len(),
{
    if chunks.len() == 0 {
        Multiset::empty()
    } else {
        visible_from(chunks[0], 0).add(rows_of(chunks.skip(1)))
    }
}

/// The visible rows of all sources.
pub open spec fn rows_in(sources: Seq<Seq<DataChunk>>) -> Multiset<Seq<Option<i64>>>
    decreases sources.len(),
{
    if sources.len() == 0 {
        Multiset::empty()
    } else {
        rows_in(sources.drop_last()).add(rows_of(sources.last()))
    }
}

/// The rows of the chunks that were produced, one after another.
pub open spec fn flat(chunks: Seq<Vec<Row>>) -> Seq<Seq<Option<i64>>>
    decreases chunks.len(),
{
    if chunks.len() == 0 {
        Seq::empty()
    } else {
        flat(chunks.drop_last()) + row_views(chunks.last()@)
    }
}

/// The chunk has a visible row, and its rows have the columns that they are ordered by.
pub open spec fn chunk_fits(chunk: DataChunk, orders: Seq<ColumnOrder>) -> bool {
    &&& chunk.wf()
    &&& chunk.next_visible(0) is Some
    &&& forall|i: int|
        0 <= i < chunk.rows@.len() ==> has_columns((#[trigger] chunk.rows@[i])@, orders)
}

/// All chunks can be merged.
pub open spec fn sources_fit(sources: Seq<Seq<DataChunk>>, orders: Seq<ColumnOrder>) -> bool {
    forall|i: int, a: int|
        0 <= i < sources.len() && 0 <= a < sources[i].len() ==> chunk_fits(
            #[trigger] sources[i][a],
            orders,
        )
}

/// The visible rows of a source are in order, within its chunks and from chunk to chunk.
pub open spec fn source_sorted(chunks: Seq<DataChunk>, orders: Seq<ColumnOrder>) -> bool {
    forall|a: int, i: int, b: int, j: int|
        0 <= a <= b < chunks.len() && #[trigger] chunks[a].visible(i)
            && #[trigger] chunks[b].visible(j) && (a < b || i <= j) ==> not_after(
            chunks[a].rows@[i]@,
            chunks[b].rows@[j]@,
            orders,
        )
}

/// Every source is in order.
pub open spec fn sources_sorted(sources: Seq<Seq<DataChunk>>, orders: Seq<ColumnOrder>) -> bool {
    forall|i: int| 0 <= i < sources.len() ==> source_sorted(#[trigger] sources[i], orders)
}

/// The chunks of a source that are left are its last ones.
pub open spec fn is_rest(all: Seq<DataChunk>, rest: Seq<DataChunk>) -> bool {
    rest.len() <= all.len() && rest == all.skip(all.len() - rest.len())
}

/// The chunk of a source that was read last.
pub open spec fn read_last(all: Seq<DataChunk>, rest: Seq<DataChunk>) -> DataChunk {
    all[all.len() - rest.len() - 1]
}

/// The executor has read the sources up to the chunks that are left, and has put out the given rows.
pub open spec fn running(
    executor: MergeSortExchangeExecutorImpl,
    all: Seq<Seq<DataChunk>>,
    rest: Seq<Seq<DataChunk>>,
    done: Seq<Seq<Option<i64>>>,
) -> bool {
    let inputs = executor.source_inputs@;
    &&& executor.wf()
    &&& executor.building@.len() <= executor.chunk_size
    &&& inputs.len() == all.len()
    &&& rest.len() == all.len()
    &&& forall|i: int| 0 <= i < all.len() ==> is_rest(all[i], #[trigger] rest[i])
    &&& forall|i: int| #[trigger]
        has_head(inputs, i) ==> rest[i].len() < all[i].len() && inputs[i]->Some_0.chunk
            == read_last(all[i], rest[i])
    &&& forall|i: int|
        0 <= i < executor.opened && inputs[i] is None && executor.awaited != Some(i as usize)
            ==> (#[trigger] rest[i]).len() == 0
    &&& executor.opened < all.len() ==> done.len() == 0 && executor.building@.len() == 0
    &&& done.to_multiset().add(row_views(executor.building@).to_multiset()).add(
        left_in(inputs),
    ).add(rows_in(rest)) == rows_in(all)
}

/// What was put out is in order, and nothing that is left comes before it.
pub open spec fn sorted_so_far(
    executor: MergeSortExchangeExecutorImpl,
    all: Seq<Seq<DataChunk>>,
    rest: Seq<Seq<DataChunk>>,
    done: Seq<Seq<Option<i64>>>,
) -> bool {
    let orders = executor.column_orders@;
    let building = row_views(executor.building@);
    &&& rows_sorted(done, orders)
    &&& in_order(executor.source_inputs@, building, last_or(done, None), orders)
    &&& executor.awaited matches Some(k) ==> (done.len() == 0 && building.len() == 0) || (
    building.len() > 0 && rest[k as int].len() < all[k as int].len() && is_row_of(
        read_last(all[k as int], rest[k as int]),
        building.last(),
    ))
}

/// The rows of all sources but for those of a chunk that one of them gives away.
proof fn lemma_rows_taken(sources: Seq<Seq<DataChunk>>, k: int)
    requires
        0 <= k < sources.len(),
        sources[k].len() > 0,
    ensures
        rows_in(sources) == rows_in(sources.update(k, sources[k].skip(1))).add(
            visible_from(sources[k][0], 0),
        ),
    decreases sources.len(),
{
    let after = sources.update(k, sources[k].skip(1));
    let taken = visible_from(sources[k][0], 0);
    if k == sources.len() - 1 {
        assert(after.drop_last() =~= sources.drop_last());
        assert(rows_in(sources) =~= rows_in(after).add(taken));
    } else {
        assert(after.drop_last() =~= sources.drop_last().update(k, sources[k].skip(1)));
        assert(sources.drop_last()[k] == sources[k]);
        lemma_rows_taken(sources.drop_last(), k);
        assert(after.last() == sources.last());
        let b = rows_in(sources.drop_last());
        let a = rows_in(after.drop_last());
        assert(b == a.add(taken));
        assert(rows_in(sources) =~= rows_in(after).add(taken));
    }
}

/// Sources without chunks have no rows.
proof fn lemma_rows_none(sources: Seq<Seq<DataChunk>>)
    requires
        forall|i: int| 0 <= i < sources.len() ==> (#[trigger] sources[i]).len() == 0,
    ensures
        rows_in(sources) == Multiset::<Seq<Option<i64>>>::empty(),
    decreases sources.len(),
{
    if sources.len() > 0 {
        let front = sources.drop_last();
        assert forall|i: int| 0 <= i < front.len() implies (#[trigger] front[i]).len() == 0 by {
            assert(front[i] == sources[i]);
        }
        lemma_rows_none(front);
        assert(rows_in(sources) =~= Multiset::<Seq<Option<i64>>>::empty());
    }
}

/// Inputs that are used up have no rows.
proof fn lemma_left_none(inputs: Seq<Option<SourceInput>>)
    requires
        forall|i: int| !#[trigger] has_head(inputs, i),
    ensures
        left_in(inputs) == Multiset::<Seq<Option<i64>>>::empty(),
    decreases inputs.len(),
{
    if inputs.len() > 0 {
        let front = inputs.drop_last();
        assert forall|i: int| !#[trigger] has_head(front, i) by {
            if has_head(front, i) {
                assert(has_head(inputs, i));
            }
        }
        lemma_left_none(front);
        assert(!has_head(inputs, inputs.len() - 1));
        assert(left_in(inputs) =~= Multiset::<Seq<Option<i64>>>::empty());
    }
}

/// Rows in order that come after rows in order are in order with them.
proof fn lemma_sorted_together(
    done: Seq<Seq<Option<i64>>>,
    rows: Seq<Seq<Option<i64>>>,
    orders: Seq<ColumnOrder>,
)
    requires
        rows_sorted(done, orders),
        rows_sorted(rows, orders),
        done.len() > 0 && rows.len() > 0 ==> not_after(done.last(), rows[0], orders),
    ensures
        rows_sorted(done + rows, orders),
{
    let both = done + rows;
    let n = done.len();
    assert forall|i: int, j: int| 0 <= i <= j < both.len() implies not_after(
        #[trigger] both[i],
        #[trigger] both[j],
        orders,
    ) by {
        if j < n {
            assert(not_after(done[i], done[j], orders));
        } else if i >= n {
            assert(not_after(rows[i - n], rows[j - n], orders));
        } else {
            assert(not_after(done[i], done[n - 1], orders));
            assert(not_after(rows[0], rows[j - n], orders));
            lemma_compared_transitive(done[i], done.last(), rows[0], orders);
            lemma_compared_transitive(done[i], rows[0], rows[j - n], orders);
        }
    }
}

/// Takes the next chunk of a source.
fn take_data(sources: &mut Vec<VecDeque<DataChunk>>, k: usize) -> (res: Option<DataChunk>)
    requires
        k < old(sources)@.len(),
    ensures
        ({
            let before = queues(old(sources)@);
            let after = queues(final(sources)@);
            match res {
                Some(chunk) => before[k as int].len() > 0 && chunk == before[k as int][0]
                    && after == before.update(k as int, before[k as int].skip(1)),
                None => before[k as int].len() == 0 && after == before,
            }
        }),
{
    let ghost before = sources@;
    let source = &mut sources[k];
    let res = source.pop_front();
    proof {
        let b = queues(before);
        let a = queues(sources@);
        if b[k as int].len() > 0 {
            assert(a[k as int] =~= b[k as int].skip(1));
            assert(a =~= b.update(k as int, b[k as int].skip(1)));
        } else {
            assert(a =~= b);
        }
    }
    res
}

impl MergeSortExchangeExecutorImpl {
    /// Nothing was read yet.
    pub open spec fn is_fresh(&self) -> bool {
        self.wf() && self.opened == 0 && self.building@.len() == 0
    }

    /// All sources are used up, and all rows are put out.
    pub open spec fn is_finished(&self) -> bool {
        &&& self.awaited is None
        &&& self.building@.len() == 0
        &&& forall|i: int| !#[trigger] has_head(self.source_inputs@, i)
    }

    /// Reads the chunk that is awaited.
    fn refill(
        &mut self,
        sources: &mut Vec<VecDeque<DataChunk>>,
        Ghost(all): Ghost<Seq<Seq<DataChunk>>>,
        Ghost(done): Ghost<Seq<Seq<Option<i64>>>>,
    )
        requires
            old(self).awaited is Some,
            running(*old(self), all, queues(old(sources)@), done),
            sources_fit(all, old(self).column_orders@),
        ensures
            running(*final(self), all, queues(final(sources)@), done),
            sources_sorted(all, old(self).column_orders@) && sorted_so_far(
                *old(self),
                all,
                queues(old(sources)@),
                done,
            ) ==> sorted_so_far(*final(self), all, queues(final(sources)@), done),
            final(self).column_orders == old(self).column_orders,
            final(self).chunk_size == old(self).chunk_size,
            final(self).building == old(self).building,
            final(self).opened == (if old(self).opened < all.len() {
                old(self).opened + 1
            } else {
                old(self).opened as int
            }),
            final(self).opened == all.len() ==> final(self).awaited is None,
    {
        let k: usize = self.awaited.unwrap();
        let ghost before = *self;
        let ghost rest0 = queues(sources@);
        let chunk = take_data(sources, k);
        let ghost rest = queues(sources@);
        let ghost orders = self.column_orders@;
        proof {
            assert(is_rest(all[k as int], rest0[k as int]));
            if chunk is Some {
                let c = all[k as int].len() - rest0[k as int].len();
                assert(rest0[k as int][0] == all[k as int][c]);
                assert(chunk_fits(all[k as int][c], orders));
                assert(rest[k as int] =~= all[k as int].skip(c + 1));
            }
        }
        let ghost given = chunk;
        self.get_source_chunk(chunk);
        proof {
            let inputs0 = before.source_inputs@;
            let inputs = self.source_inputs@;
            assert(inputs =~= inputs0.update(k as int, inputs[k as int]));
            lemma_left_update(inputs0, k as int, inputs[k as int]);
            assert(left_of(inputs0[k as int]) == Multiset::<Seq<Option<i64>>>::empty());
            assert(left_in(inputs).add(Multiset::empty()) =~= left_in(inputs));
            match given {
                Some(c) => {
                    lemma_visible_from(c, 0);
                    lemma_rows_taken(rest0, k as int);
                    assert(left_in(inputs) == left_in(inputs0).add(visible_from(c, 0)));
                    assert(left_in(inputs).add(rows_in(rest)) =~= left_in(inputs0).add(
                        rows_in(rest0),
                    ));
                },
                None => {
                    assert(inputs =~= inputs0);
                },
            }
            let out = done.to_multiset().add(row_views(self.building@).to_multiset());
            assert(out.add(left_in(inputs)).add(rows_in(rest)) =~= out.add(
                left_in(inputs).add(rows_in(rest)),
            ));
            assert(out.add(left_in(inputs0)).add(rows_in(rest0)) =~= out.add(
                left_in(inputs0).add(rows_in(rest0)),
            ));
            assert forall|i: int| 0 <= i < all.len() implies is_rest(
                all[i],
                #[trigger] rest[i],
            ) by {
                assert(is_rest(all[i], rest0[i]));
            }
            assert forall|i: int| #[trigger] has_head(inputs, i) implies rest[i].len()
                < all[i].len() && inputs[i]->Some_0.chunk == read_last(all[i], rest[i]) by {
                if i != k {
                    assert(has_head(inputs0, i));
                }
            }
            assert forall|i: int|
                0 <= i < self.opened && inputs[i] is None && self.awaited != Some(
                    i as usize,
                ) implies (#[trigger] rest[i]).len() == 0 by {
                if i != k {
                    assert(rest[i] == rest0[i]);
                    assert(i < before.opened);
                }
            }
            if sources_sorted(all, orders) && sorted_so_far(before, all, rest0, done) {
                lemma_refill_sorted(before, *self, all, rest0, rest, done, k as int);
            }
        }
    }

    /// Merges sources that are at hand: all their visible rows come out, in order if the sources are in order,
    /// in chunks that are full but for the last.
    pub fn do_execute(self, sources: Vec<VecDeque<DataChunk>>) -> (res: Vec<Vec<Row>>)
        requires
            self.is_fresh(),
            self.chunk_size > 0,
            self.source_inputs@.len() == sources@.len(),
            sources_fit(queues(sources@), self.column_orders@),
        ensures
            flat(res@).to_multiset() == rows_in(queues(sources@)),
            sources_sorted(queues(sources@), self.column_orders@) ==> rows_sorted(
                flat(res@),
                self.column_orders@,
            ),
            sizes_full(res@, self.chunk_size),
    {
        let ghost all = queues(sources@);
        let ghost orders = self.column_orders@;
        let ghost sorted = sources_sorted(all, orders);
        let mut executor = self;
        let mut sources = sources;
        let mut out: Vec<Vec<Row>> = Vec::new();
        proof {
            let inputs = executor.source_inputs@;
            assert forall|i: int| !#[trigger] has_head(inputs, i) by {}
            lemma_left_none(inputs);
            assert(flat(out@) =~= Seq::empty());
            assert(row_views(executor.building@) =~= Seq::empty());
            Seq::<Seq<Option<i64>>>::empty().to_multiset_ensures();
            let none = Seq::<Seq<Option<i64>>>::empty().to_multiset();
            assert(none.len() == 0);
            assert(none =~= Multiset::empty());
            assert(none.add(none).add(left_in(inputs)).add(rows_in(all)) =~= rows_in(all));
            assert forall|i: int| 0 <= i < all.len() implies is_rest(
                all[i],
                #[trigger] all[i],
            ) by {
                assert(all[i] =~= all[i].skip(0));
            }
        }
        while executor.opened < executor.source_inputs.len()
            invariant
                executor.column_orders@ == orders,
                executor.chunk_size == self.chunk_size,
                executor.source_inputs@.len() == all.len(),
                running(executor, all, queues(sources@), flat(out@)),
                out@.len() == 0,
                executor.building@.len() == 0,
                executor.opened == all.len() ==> executor.awaited is None,
                sources_fit(all, orders),
                sorted == sources_sorted(all, orders),
                sorted ==> sorted_so_far(executor, all, queues(sources@), flat(out@)),
            decreases executor.source_inputs.len() - executor.opened,
        {
            executor.refill(&mut sources, Ghost(all), Ghost(flat(out@)));
        }
        loop
            invariant_except_break
                executor.column_orders@ == orders,
                executor.chunk_size == self.chunk_size,
                executor.chunk_size > 0,
                executor.opened == all.len(),
                executor.awaited is None,
                running(executor, all, queues(sources@), flat(out@)),
                sources_fit(all, orders),
                sorted == sources_sorted(all, orders),
                sorted ==> sorted_so_far(executor, all, queues(sources@), flat(out@)),
                sizes_full(out@, self.chunk_size),
                out@.len() > 0 && out@.last()@.len() < self.chunk_size
                    ==> executor.is_finished(),
            ensures
                flat(out@).to_multiset() == rows_in(all),
                sorted ==> rows_sorted(flat(out@), orders),
                sizes_full(out@, self.chunk_size),
            decreases
                    rows_in(all).len() - flat(out@).len(),
                    executor.chunk_size - executor.building.len(),
        {
            let ghost before = executor;
            let ghost rest = queues(sources@);
            let ghost done = flat(out@);
            let ghost chunks = out@;
            proof {
                done.to_multiset_ensures();
                row_views(executor.building@).to_multiset_ensures();
                lemma_whole_len(done, executor, rest, all);
            }
            match executor.produce() {
                Progress::NeedChunk(k) => {
                    proof {
                        lemma_awaits(before, executor, all, rest, done, k as int);
                    }
                    executor.refill(&mut sources, Ghost(all), Ghost(done));
                },
                Progress::Chunk(rows) => {
                    let ghost put = rows@;
                    out.push(rows);
                    proof {
                        assert(out@.drop_last() =~= chunks);
                        assert(flat(out@) == done + row_views(put));
                        lemma_put_out(before, executor, all, rest, done, put);
                        lemma_whole_len(flat(out@), executor, rest, all);
                        if before.is_finished() {
                            lemma_nothing_left(before, executor, put);
                        }
                        assert forall|i: int| 0 <= i < out@.len() - 1 implies (
                        #[trigger] out@[i])@.len() == self.chunk_size by {
                            if i < chunks.len() - 1 {
                                assert(chunks[i]@.len() == self.chunk_size);
                            } else {
                                assert(chunks.last()@.len() == self.chunk_size);
                            }
                        }
                    }
                },
                Progress::Done => {
                    proof {
                        lemma_all_out(before, executor, all, rest, done);
                    }
                    break;
                },
            }
        }
        out
    }
}

/// A chunk that is read comes after what was put out.
proof fn lemma_refill_sorted(
    before: MergeSortExchangeExecutorImpl,
    after: MergeSortExchangeExecutorImpl,
    all: Seq<Seq<DataChunk>>,
    rest0: Seq<Seq<DataChunk>>,
    rest: Seq<Seq<DataChunk>>,
    done: Seq<Seq<Option<i64>>>,
    k: int,
)
    requires
        sources_sorted(all, before.column_orders@),
        running(before, all, rest0, done),
        running(after, all, rest, done),
        sorted_so_far(before, all, rest0, done),
        before.awaited == Some(k as usize),
        0 <= k < all.len(),
        after.column_orders == before.column_orders,
        after.building == before.building,
        before.opened == all.len() ==> after.awaited is None,
        before.opened < all.len() ==> done.len() == 0 && before.building@.len() == 0,
        forall|i: int|
            0 <= i < all.len() && i != k ==> #[trigger] after.source_inputs@[i]
                == before.source_inputs@[i],
        after.source_inputs@[k] matches Some(input) ==> rest[k].len() + 1 == rest0[k].len(),
    ensures
        sorted_so_far(after, all, rest, done),
{
    let orders = before.column_orders@;
    let building = row_views(before.building@);
    let low = last_or(building, last_or(done, None));
    let inputs = after.source_inputs@;
    assert forall|i: int| #[trigger] has_head(inputs, i) implies inputs[i]->Some_0.ordered(
        low,
        orders,
    ) by {
        if i != k {
            assert(has_head(before.source_inputs@, i));
        } else {
            let input = inputs[k]->Some_0;
            let c = all[k].len() - rest[k].len() - 1;
            assert(input.chunk == all[k][c]);
            assert(source_sorted(all[k], orders));
            assert(input.wf(orders));
            assert forall|x: int, y: int|
                input.row_idx <= x <= y && #[trigger] input.chunk.visible(x)
                    && #[trigger] input.chunk.visible(y) implies not_after(
                input.chunk.rows@[x]@,
                input.chunk.rows@[y]@,
                orders,
            ) by {
                assert(all[k][c].visible(x) && all[k][c].visible(y));
            }
            if !(done.len() == 0 && building.len() == 0) {
                let chunk = read_last(all[k], rest0[k]);
                let j = choose|j: int| #[trigger]
                    chunk.visible(j) && chunk.rows@[j]@ == building.last();
                assert(all[k][c - 1].visible(j));
                assert(all[k][c].visible(input.row_idx as int));
            }
        }
    }
}

/// All chunks but the last are full, and none is empty.
pub open spec fn sizes_full(chunks: Seq<Vec<Row>>, size: usize) -> bool {
    &&& forall|i: int| 0 <= i < chunks.len() - 1 ==> (#[trigger] chunks[i])@.len() == size
    &&& chunks.len() > 0 ==> 0 < chunks.last()@.len() <= size
}

/// No more rows are put out than there are.
proof fn lemma_whole_len(
    done: Seq<Seq<Option<i64>>>,
    executor: MergeSortExchangeExecutorImpl,
    rest: Seq<Seq<DataChunk>>,
    all: Seq<Seq<DataChunk>>,
)
    requires
        running(executor, all, rest, done),
    ensures
        done.len() <= rows_in(all).len(),
{
    done.to_multiset_ensures();
    let building = row_views(executor.building@).to_multiset();
    let a = done.to_multiset().add(building);
    let b = a.add(left_in(executor.source_inputs@));
    assert(a.len() == done.len() + building.len());
    assert(b.len() == a.len() + left_in(executor.source_inputs@).len());
    assert(b.add(rows_in(rest)).len() == b.len() + rows_in(rest).len());
}

/// Going on until a chunk is awaited keeps what holds of a run.
proof fn lemma_awaits(
    before: MergeSortExchangeExecutorImpl,
    after: MergeSortExchangeExecutorImpl,
    all: Seq<Seq<DataChunk>>,
    rest: Seq<Seq<DataChunk>>,
    done: Seq<Seq<Option<i64>>>,
    k: int,
)
    requires
        running(before, all, rest, done),
        before.awaited is None,
        before.opened == all.len(),
        after.wf(),
        after.column_orders == before.column_orders,
        after.chunk_size == before.chunk_size,
        after.opened == before.opened,
        after.source_inputs@.len() == before.source_inputs@.len(),
        0 <= k < all.len(),
        after.awaited == Some(k as usize),
        has_head(before.source_inputs@, k),
        after.source_inputs@[k] is None,
        after.building@.len() <= after.chunk_size,
        after.building@.len() > 0,
        is_row_of(before.source_inputs@[k]->Some_0.chunk, after.building@.last()@),
        forall|i: int| #[trigger]
            has_head(after.source_inputs@, i) ==> has_head(before.source_inputs@, i)
                && after.source_inputs@[i]->Some_0.chunk
                == before.source_inputs@[i]->Some_0.chunk,
        forall|i: int| #[trigger]
            has_head(before.source_inputs@, i) && i != k ==> has_head(after.source_inputs@, i),
        row_views(before.building@).to_multiset().add(left_in(before.source_inputs@))
            == row_views(after.building@).to_multiset().add(left_in(after.source_inputs@)),
    ensures
        running(after, all, rest, done),
        sorted_so_far(before, all, rest, done) && in_order(
            after.source_inputs@,
            row_views(after.building@),
            last_or(done, None),
            before.column_orders@,
        ) ==> sorted_so_far(after, all, rest, done),
{
    lemma_same_rows(before, after, rest, done, row_views(after.building@));
    let inputs0 = before.source_inputs@;
    let inputs = after.source_inputs@;
    assert forall|i: int|
        0 <= i < after.opened && inputs[i] is None && after.awaited != Some(i as usize) implies (
    #[trigger] rest[i]).len() == 0 by {
        if has_head(inputs0, i) {
            assert(has_head(inputs, i));
        }
    }
    assert(row_views(after.building@).last() == after.building@.last()@);
}

/// Rows that move from the sources to what is put out are neither lost nor doubled.
proof fn lemma_same_rows(
    before: MergeSortExchangeExecutorImpl,
    after: MergeSortExchangeExecutorImpl,
    rest: Seq<Seq<DataChunk>>,
    done: Seq<Seq<Option<i64>>>,
    rows: Seq<Seq<Option<i64>>>,
)
    requires
        row_views(before.building@).to_multiset().add(left_in(before.source_inputs@))
            == rows.to_multiset().add(left_in(after.source_inputs@)),
    ensures
        done.to_multiset().add(row_views(before.building@).to_multiset()).add(
            left_in(before.source_inputs@),
        ).add(rows_in(rest)) == done.to_multiset().add(rows.to_multiset()).add(
            left_in(after.source_inputs@),
        ).add(rows_in(rest)),
{
    let d = done.to_multiset();
    let b = row_views(before.building@).to_multiset();
    let a = rows.to_multiset();
    let l0 = left_in(before.source_inputs@);
    let l = left_in(after.source_inputs@);
    assert(d.add(b).add(l0) =~= d.add(b.add(l0)));
    assert(d.add(a).add(l) =~= d.add(a.add(l)));
}

/// Putting out a chunk keeps what holds of a run.
proof fn lemma_put_out(
    before: MergeSortExchangeExecutorImpl,
    after: MergeSortExchangeExecutorImpl,
    all: Seq<Seq<DataChunk>>,
    rest: Seq<Seq<DataChunk>>,
    done: Seq<Seq<Option<i64>>>,
    rows: Seq<Row>,
)
    requires
        running(before, all, rest, done),
        before.awaited is None,
        before.opened == all.len(),
        after.wf(),
        after.column_orders == before.column_orders,
        after.chunk_size == before.chunk_size,
        after.opened == before.opened,
        after.source_inputs@.len() == before.source_inputs@.len(),
        after.awaited is None,
        after.building@.len() == 0,
        rows.len() > 0,
        forall|i: int| #[trigger]
            has_head(after.source_inputs@, i) ==> has_head(before.source_inputs@, i)
                && after.source_inputs@[i]->Some_0.chunk
                == before.source_inputs@[i]->Some_0.chunk,
        forall|i: int| #[trigger]
            has_head(before.source_inputs@, i) ==> has_head(after.source_inputs@, i),
        row_views(before.building@).to_multiset().add(left_in(before.source_inputs@))
            == row_views(rows).to_multiset().add(left_in(after.source_inputs@)),
    ensures
        running(after, all, rest, done + row_views(rows)),
        sorted_so_far(before, all, rest, done) && in_order(
            after.source_inputs@,
            row_views(rows),
            last_or(done, None),
            before.column_orders@,
        ) ==> sorted_so_far(after, all, rest, done + row_views(rows)),
{
    let put = row_views(rows);
    let orders = before.column_orders@;
    lemma_same_rows(before, after, rest, done, put);
    lemma_multiset_commutative(done, put);
    assert(row_views(after.building@) =~= Seq::empty());
    Seq::<Seq<Option<i64>>>::empty().to_multiset_ensures();
    let none = Seq::<Seq<Option<i64>>>::empty().to_multiset();
    assert(none.len() == 0);
    assert(none =~= Multiset::empty());
    assert((done + put).to_multiset().add(none) =~= done.to_multiset().add(put.to_multiset()));
    let inputs0 = before.source_inputs@;
    let inputs = after.source_inputs@;
    assert forall|i: int|
        0 <= i < after.opened && inputs[i] is None && after.awaited != Some(i as usize) implies (
    #[trigger] rest[i]).len() == 0 by {
        if has_head(inputs0, i) {
            assert(has_head(inputs, i));
        }
    }
    if sorted_so_far(before, all, rest, done) && in_order(
        inputs,
        put,
        last_or(done, None),
        orders,
    ) {
        lemma_sorted_together(done, put, orders);
        assert((done + put).last() == put.last());
        assert(inputs_ordered(inputs, last_or(put, last_or(done, None)), orders));
    }
}

/// A run that is finished puts out nothing more.
proof fn lemma_nothing_left(
    before: MergeSortExchangeExecutorImpl,
    after: MergeSortExchangeExecutorImpl,
    rows: Seq<Row>,
)
    requires
        before.is_finished(),
        row_views(before.building@).to_multiset().add(left_in(before.source_inputs@))
            == row_views(rows).to_multiset().add(left_in(after.source_inputs@)),
    ensures
        rows.len() == 0,
{
    lemma_left_none(before.source_inputs@);
    row_views(before.building@).to_multiset_ensures();
    row_views(rows).to_multiset_ensures();
    let a = row_views(rows).to_multiset();
    assert(a.add(left_in(after.source_inputs@)).len() == a.len() + left_in(
        after.source_inputs@,
    ).len());
    let b = row_views(before.building@).to_multiset();
    assert(b.add(left_in(before.source_inputs@)).len() == b.len() + left_in(
        before.source_inputs@,
    ).len());
}

/// Once all sources are used up, all rows are put out.
proof fn lemma_all_out(
    before: MergeSortExchangeExecutorImpl,
    after: MergeSortExchangeExecutorImpl,
    all: Seq<Seq<DataChunk>>,
    rest: Seq<Seq<DataChunk>>,
    done: Seq<Seq<Option<i64>>>,
)
    requires
        running(before, all, rest, done),
        before.awaited is None,
        before.opened == all.len(),
        before.building@.len() == 0,
        forall|i: int| !#[trigger] has_head(after.source_inputs@, i),
        forall|i: int| #[trigger]
            has_head(before.source_inputs@, i) ==> has_head(after.source_inputs@, i),
    ensures
        done.to_multiset() == rows_in(all),
{
    let inputs = before.source_inputs@;
    assert forall|i: int| !#[trigger] has_head(inputs, i) by {
        if has_head(inputs, i) {
            assert(has_head(after.source_inputs@, i));
        }
    }
    lemma_left_none(inputs);
    assert forall|i: int| 0 <= i < rest.len() implies (#[trigger] rest[i]).len() == 0 by {
        assert(!has_head(inputs, i));
    }
    lemma_rows_none(rest);
    assert(row_views(before.building@) =~= Seq::empty());
    Seq::<Seq<Option<i64>>>::empty().to_multiset_ensures();
    let none = Seq::<Seq<Option<i64>>>::empty().to_multiset();
    assert(none.len() == 0);
    assert(none =~= Multiset::empty());
    assert(done.to_multiset().add(none).add(Multiset::empty()).add(Multiset::empty())
        =~= done.to_multiset());
}

} // verus!
