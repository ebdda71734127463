//! Merges sources that are sorted alike into one sorted sequence of chunks.
use crate::batch::row::{compare_rows, has_columns, lemma_compared_reversed};
use crate::batch::row::{lemma_compared_transitive, not_after};
use crate::batch::row::{ColumnOrder, Compared, DataChunk, Row};
use vstd::multiset::Multiset;
use vstd::prelude::*;

verus! {

/// Builds executors that merge sorted sources.
#[derive(Clone, Copy, Debug, Default, PartialEq, Eq, Structural)]
pub struct MergeSortExchangeExecutorBuilder {}

/// Why the executor cannot be built.
#[derive(Clone, Copy, Debug, PartialEq, Eq, Structural)]
pub enum BuildError {
    /// The executor takes no input from other executors.
    HasChild,
    /// There is nothing to merge.
    NoSource,
}

/// The chunk of a source that is being read, and the row that comes next.
#[derive(Debug)]
pub struct SourceInput {
    pub chunk: DataChunk,
    pub row_idx: usize,
}

impl SourceInput {
    /// The row that comes next.
    pub open spec fn head(&self) -> Seq<Option<i64>> {
        self.chunk.rows@[self.row_idx as int]@
    }

    /// The row that comes next is there, and all rows have the columns that they are ordered by.
    pub open spec fn wf(&self, orders: Seq<ColumnOrder>) -> bool {
        &&& self.chunk.wf()
        &&& self.chunk.visible(self.row_idx as int)
        &&& forall|i: int|
            0 <= i < self.chunk.rows@.len() ==> has_columns(
                (#[trigger] self.chunk.rows@[i])@,
                orders,
            )
    }

    /// The visible rows that are left do not come before the given row, and are in order.
    pub open spec fn ordered(&self, low: Option<Seq<Option<i64>>>, orders: Seq<ColumnOrder>) -> bool {
        &&& forall|i: int, j: int|
            self.row_idx <= i <= j && #[trigger] self.chunk.visible(i)
                && #[trigger] self.chunk.visible(j) ==> not_after(
                self.chunk.rows@[i]@,
                self.chunk.rows@[j]@,
                orders,
            )
        &&& low matches Some(row) ==> not_after(row, self.head(), orders)
    }
}

/// What the executor needs, or has produced.
#[derive(Debug)]
pub enum Progress {
    /// It needs the next chunk of this source.
    NeedChunk(usize),
    /// It has produced a chunk.
    Chunk(Vec<Row>),
    /// All sources are used up.
    Done,
}

/// Merges sources that are sorted alike.
#[derive(Debug)]
pub struct MergeSortExchangeExecutorImpl {
    /// The chunk of each source that is being read; none where a source is used up, or where the next
    /// chunk is awaited.
    pub source_inputs: Vec<Option<SourceInput>>,
    pub column_orders: Vec<ColumnOrder>,
    /// The maximum size of the chunks that are produced.
    pub chunk_size: usize,
    /// The rows of the chunk that is being produced.
    pub building: Vec<Row>,
    /// The source whose next chunk is awaited.
    pub awaited: Option<usize>,
    /// How many sources have been read so far.
    pub opened: usize,
}

/// The rows behind a list.
pub open spec fn row_views(rows: Seq<Row>) -> Seq<Seq<Option<i64>>> {
    Seq::new(rows.len(), |i: int| rows[i]@)
}

/// The rows are in order.
pub open spec fn rows_sorted(rows: Seq<Seq<Option<i64>>>, orders: Seq<ColumnOrder>) -> bool {
    forall|i: int, j: int|
        0 <= i <= j < rows.len() ==> not_after(#[trigger] rows[i], #[trigger] rows[j], orders)
}

/// The row that comes next is the first of the source, at the given place.
pub open spec fn has_head(inputs: Seq<Option<SourceInput>>, i: int) -> bool {
    0 <= i < inputs.len() && inputs[i] is Some
}

/// The row of the source comes before or with the rows of all other sources.
pub open spec fn is_least(inputs: Seq<Option<SourceInput>>, k: int, orders: Seq<ColumnOrder>) -> bool {
    &&& has_head(inputs, k)
    &&& forall|i: int| #[trigger]
        has_head(inputs, i) ==> not_after(
            inputs[k]->Some_0.head(),
            inputs[i]->Some_0.head(),
            orders,
        )
}

/// All inputs are well-formed.
pub open spec fn inputs_wf(inputs: Seq<Option<SourceInput>>, orders: Seq<ColumnOrder>) -> bool {
    forall|i: int| #[trigger] has_head(inputs, i) ==> inputs[i]->Some_0.wf(orders)
}

/// All rows that are left in the inputs come in order and not before the given row.
pub open spec fn inputs_ordered(
    inputs: Seq<Option<SourceInput>>,
    low: Option<Seq<Option<i64>>>,
    orders: Seq<ColumnOrder>,
) -> bool {
    forall|i: int| #[trigger] has_head(inputs, i) ==> inputs[i]->Some_0.ordered(low, orders)
}

/// The last row that was put into the chunk, or the given row if there is none.
pub open spec fn last_or(rows: Seq<Seq<Option<i64>>>, low: Option<Seq<Option<i64>>>) -> Option<
    Seq<Option<i64>>,
> {
    if rows.len() > 0 {
        Some(rows.last())
    } else {
        low
    }
}

/// The row is a visible row of the chunk.
pub open spec fn is_row_of(chunk: DataChunk, row: Seq<Option<i64>>) -> bool {
    exists|i: int| #[trigger] chunk.visible(i) && chunk.rows@[i]@ == row
}

/// The visible rows of a chunk from the given one on.
pub open spec fn visible_from(chunk: DataChunk, from: int) -> Multiset<Seq<Option<i64>>>
    decreases chunk.rows@.len() - from,
{
    if from < 0 || from >= chunk.rows@.len() {
        Multiset::empty()
    } else if chunk.visibility@[from] {
        visible_from(chunk, from + 1).insert(chunk.rows@[from]@)
    } else {
        visible_from(chunk, from + 1)
    }
}

/// The rows that are left of an input.
pub open spec fn left_of(input: Option<SourceInput>) -> Multiset<Seq<Option<i64>>> {
    match input {
        Some(i) => visible_from(i.chunk, i.row_idx as int),
        None => Multiset::empty(),
    }
}

/// The rows that are left of all inputs.
pub open spec fn left_in(inputs: Seq<Option<SourceInput>>) -> Multiset<Seq<Option<i64>>>
    decreases inputs.len(),
{
    if inputs.len() == 0 {
        Multiset::empty()
    } else {
        left_in(inputs.drop_last()).add(left_of(inputs.last()))
    }
}

/// What the rows left in all inputs have to do with those left in one of them.
pub proof fn lemma_left_update(inputs: Seq<Option<SourceInput>>, k: int, x: Option<SourceInput>)
    requires
        0 <= k < inputs.len(),
    ensures
        left_in(inputs.update(k, x)).add(left_of(inputs[k])) == left_in(inputs).add(left_of(x)),
    decreases inputs.len(),
{
    let after = inputs.update(k, x);
    if k == inputs.len() - 1 {
        assert(after.drop_last() =~= inputs.drop_last());
    } else {
        assert(after.drop_last() =~= inputs.drop_last().update(k, x));
        lemma_left_update(inputs.drop_last(), k, x);
        assert(inputs.drop_last()[k] == inputs[k]);
        let a = left_in(after.drop_last());
        let b = left_in(inputs.drop_last());
        assert(after.last() == inputs.last());
        assert forall|y: Seq<Option<i64>>| #[trigger] left_in(after).add(left_of(inputs[k])).count(
            y,
        ) == left_in(inputs).add(left_of(x)).count(y) by {
            assert(a.add(left_of(inputs[k])).count(y) == b.add(left_of(x)).count(y));
        }
    }
    assert(left_in(after).add(left_of(inputs[k])) =~= left_in(inputs).add(left_of(x)));
}

/// The invisible rows before the first visible one do not count.
pub proof fn lemma_visible_from(chunk: DataChunk, from: int)
    requires
        0 <= from,
    ensures
        match chunk.next_visible(from) {
            Some(i) => visible_from(chunk, from) == visible_from(chunk, i),
            None => visible_from(chunk, from) == Multiset::<Seq<Option<i64>>>::empty(),
        },
    decreases chunk.rows@.len() - from,
{
    if from < chunk.rows@.len() && !chunk.visibility@[from] {
        lemma_visible_from(chunk, from + 1);
    }
}

/// The row that comes next leaves the input; the rest stays.
proof fn lemma_take_head(
    inputs: Seq<Option<SourceInput>>,
    k: int,
    x: Option<SourceInput>,
)
    requires
        0 <= k < inputs.len(),
        inputs[k] matches Some(input) && input.chunk.visible(input.row_idx as int),
        ({
            let input = inputs[k]->Some_0;
            match input.chunk.next_visible(input.row_idx + 1) {
                Some(i) => x matches Some(next) && next.chunk == input.chunk && next.row_idx == i,
                None => x is None,
            }
        }),
    ensures
        left_in(inputs) == left_in(inputs.update(k, x)).insert(inputs[k]->Some_0.head()),
{
    let input = inputs[k]->Some_0;
    lemma_visible_from(input.chunk, input.row_idx + 1);
    lemma_left_update(inputs, k, x);
    let a = left_in(inputs.update(k, x));
    let b = left_in(inputs);
    let rest = left_of(x);
    let r = input.head();
    assert(left_of(inputs[k]) == rest.insert(r));
    assert(a.add(rest.insert(r)) == b.add(rest));
    assert forall|y: Seq<Option<i64>>| #[trigger] b.count(y) == a.insert(r).count(y) by {
        assert(a.add(rest.insert(r)).count(y) == b.add(rest).count(y));
    }
    assert(b =~= a.insert(r));
}

/// The rows that were put out come in order and not before the given row, and no row that is left comes before
/// one of them, nor before the given row.
pub open spec fn in_order(
    inputs: Seq<Option<SourceInput>>,
    out: Seq<Seq<Option<i64>>>,
    low: Option<Seq<Option<i64>>>,
    orders: Seq<ColumnOrder>,
) -> bool {
    &&& rows_sorted(out, orders)
    &&& inputs_ordered(inputs, last_or(out, low), orders)
    &&& low matches Some(row) ==> out.len() > 0 ==> not_after(row, out[0], orders)
}

impl MergeSortExchangeExecutorBuilder {
    /// An executor for the given number of sources.
    pub fn build(
        inputs: usize,
        num_sources: usize,
        column_orders: Vec<ColumnOrder>,
        chunk_size: usize,
    ) -> (res: Result<MergeSortExchangeExecutorImpl, BuildError>)
        ensures
            match res {
                Ok(executor) => inputs == 0 && num_sources > 0 && executor.wf()
                    && executor.source_inputs@.len() == num_sources && executor.column_orders
                    == column_orders && executor.chunk_size == chunk_size
                    && executor.building@.len() == 0 && executor.awaited == Some(0usize)
                    && executor.opened == 0,
                Err(e) => if inputs != 0 {
                    e == BuildError::HasChild
                } else {
                    num_sources == 0 && e == BuildError::NoSource
                },
            },
    {
        if inputs != 0 {
            return Err(BuildError::HasChild);
        }
        if num_sources == 0 {
            return Err(BuildError::NoSource);
        }
        Ok(MergeSortExchangeExecutorImpl::new(num_sources, column_orders, chunk_size))
    }
}

impl MergeSortExchangeExecutorImpl {
    /// The inputs are well-formed, and the chunk that is awaited is that of a source that has none.
    pub open spec fn wf(&self) -> bool {
        &&& inputs_wf(self.source_inputs@, self.column_orders@)
        &&& self.opened <= self.source_inputs@.len()
        &&& self.awaited matches Some(k) ==> k < self.source_inputs@.len()
            && self.source_inputs@[k as int] is None
        &&& self.opened < self.source_inputs@.len() ==> self.awaited == Some(self.opened)
        &&& forall|i: int|
            self.opened <= i < self.source_inputs@.len() ==> (
            #[trigger] self.source_inputs@[i]) is None
    }

    /// An executor that has read nothing yet: the first chunk of the first source is awaited.
    pub fn new(num_sources: usize, column_orders: Vec<ColumnOrder>, chunk_size: usize) -> (res:
        MergeSortExchangeExecutorImpl)
        ensures
            res.wf(),
            res.source_inputs@.len() == num_sources,
            forall|i: int| 0 <= i < num_sources ==> (#[trigger] res.source_inputs@[i]) is None,
            res.column_orders == column_orders,
            res.chunk_size == chunk_size,
            res.building@.len() == 0,
            res.opened == 0,
            res.awaited == (if num_sources > 0 {
                Some(0usize)
            } else {
                None
            }),
    {
        let mut source_inputs: Vec<Option<SourceInput>> = Vec::new();
        let mut i: usize = 0;
        while i < num_sources
            invariant
                i <= num_sources,
                source_inputs@.len() == i,
                forall|j: int| 0 <= j < i ==> (#[trigger] source_inputs@[j]) is None,
            decreases num_sources - i,
        {
            source_inputs.push(None);
            i = i + 1;
        }
        let awaited: Option<usize> = if num_sources > 0 {
            Some(0)
        } else {
            None
        };
        MergeSortExchangeExecutorImpl {
            source_inputs,
            column_orders,
            chunk_size,
            building: Vec::new(),
            awaited,
            opened: 0,
        }
    }

    /// Hands the executor the next chunk of the source that it awaits, or tells it that the source is used
    /// up. A chunk has a visible row.
    pub fn get_source_chunk(&mut self, chunk: Option<DataChunk>)
        requires
            old(self).wf(),
            old(self).awaited is Some,
            chunk matches Some(c) ==> c.wf() && c.next_visible(0) is Some && forall|i: int|
                0 <= i < c.rows@.len() ==> has_columns(
                    (#[trigger] c.rows@[i])@,
                    old(self).column_orders@,
                ),
        ensures
            final(self).wf(),
            final(self).column_orders == old(self).column_orders,
            final(self).chunk_size == old(self).chunk_size,
            final(self).building == old(self).building,
            ({
                let k = old(self).awaited->Some_0;
                let opened = if old(self).opened < old(self).source_inputs@.len() {
                    old(self).opened + 1
                } else {
                    old(self).opened as int
                };
                &&& final(self).opened == opened
                &&& final(self).awaited == (if opened < old(self).source_inputs@.len() {
                    Some(opened as usize)
                } else {
                    None
                })
                &&& final(self).source_inputs@.len() == old(self).source_inputs@.len()
                &&& forall|i: int|
                    0 <= i < old(self).source_inputs@.len() && i != k
                        ==> #[trigger] final(self).source_inputs@[i] == old(self).source_inputs@[i]
                &&& match chunk {
                    Some(c) => final(self).source_inputs@[k as int] matches Some(input)
                        && input.chunk == c && c.next_visible(0) == Some(input.row_idx as int),
                    None => final(self).source_inputs@[k as int] is None,
                }
            }),
    {
        let k: usize = self.awaited.unwrap();
        let ghost inputs0 = self.source_inputs@;
        match chunk {
            Some(c) => {
                let row_idx: usize = c.next_visible_row_idx(0).unwrap();
                self.source_inputs.set(k, Some(SourceInput { chunk: c, row_idx }));
            },
            None => {},
        }
        if self.opened < self.source_inputs.len() {
            self.opened = self.opened + 1;
        }
        self.awaited = if self.opened < self.source_inputs.len() {
            Some(self.opened)
        } else {
            None
        };
        proof {
            let inputs = self.source_inputs@;
            assert forall|i: int| #[trigger] has_head(inputs, i) implies inputs[i]->Some_0.wf(
                self.column_orders@,
            ) by {
                if i != k {
                    assert(has_head(inputs0, i));
                }
            }
        }
    }

    /// The source whose row comes first.
    fn find_least(&self) -> (res: Option<usize>)
        requires
            self.wf(),
        ensures
            match res {
                Some(k) => is_least(self.source_inputs@, k as int, self.column_orders@),
                None => forall|i: int| !#[trigger] has_head(self.source_inputs@, i),
            },
    {
        let ghost inputs = self.source_inputs@;
        let ghost orders = self.column_orders@;
        let mut best: Option<usize> = None;
        let mut i: usize = 0;
        while i < self.source_inputs.len()
            invariant
                i <= self.source_inputs.len(),
                inputs == self.source_inputs@,
                orders == self.column_orders@,
                inputs_wf(inputs, orders),
                match best {
                    Some(k) => k < i && has_head(inputs, k as int) && forall|j: int|
                        0 <= j < i && #[trigger] has_head(inputs, j) ==> not_after(
                            inputs[k as int]->Some_0.head(),
                            inputs[j]->Some_0.head(),
                            orders,
                        ),
                    None => forall|j: int| 0 <= j < i ==> !#[trigger] has_head(inputs, j),
                },
            decreases self.source_inputs.len() - i,
        {
            if let Some(input) = &self.source_inputs[i] {
                assert(has_head(inputs, i as int));
                match best {
                    None => {
                        best = Some(i);
                        proof {
                            lemma_compared_reversed(input.head(), input.head(), orders);
                        }
                    },
                    Some(k) => {
                        assert(has_head(inputs, k as int));
                        let least = self.source_inputs[k].as_ref().unwrap();
                        let c = compare_rows(
                            &input.chunk.rows[input.row_idx],
                            &least.chunk.rows[least.row_idx],
                            &self.column_orders,
                        );
                        proof {
                            lemma_compared_reversed(input.head(), least.head(), orders);
                            lemma_compared_reversed(input.head(), input.head(), orders);
                        }
                        if c == Compared::Less {
                            best = Some(i);
                            proof {
                                assert forall|j: int|
                                    0 <= j < i + 1 && #[trigger] has_head(
                                        inputs,
                                        j,
                                    ) implies not_after(
                                    input.head(),
                                    inputs[j]->Some_0.head(),
                                    orders,
                                ) by {
                                    lemma_compared_transitive(
                                        input.head(),
                                        least.head(),
                                        inputs[j]->Some_0.head(),
                                        orders,
                                    );
                                }
                            }
                        }
                    },
                }
            }
            i = i + 1;
        }
        best
    }

    /// Goes on until the next chunk of a source is needed, a chunk is full, or all sources are used up. The
    /// rows come out in order if the sources are in order: no row that is left comes before one that has
    /// been put out.
    pub fn produce(&mut self) -> (res: Progress)
        requires
            old(self).wf(),
            old(self).chunk_size > 0,
            old(self).building@.len() <= old(self).chunk_size,
        ensures
            final(self).wf(),
            final(self).column_orders == old(self).column_orders,
            final(self).chunk_size == old(self).chunk_size,
            final(self).opened == old(self).opened,
            final(self).source_inputs@.len() == old(self).source_inputs@.len(),
            old(self).awaited is Some ==> res is NeedChunk,
            forall|i: int| #[trigger]
                has_head(final(self).source_inputs@, i) ==> has_head(old(self).source_inputs@, i)
                    && final(self).source_inputs@[i]->Some_0.chunk
                    == old(self).source_inputs@[i]->Some_0.chunk,
            forall|i: int| #[trigger]
                has_head(old(self).source_inputs@, i) && !(res matches Progress::NeedChunk(k) && k
                    == i) ==> has_head(final(self).source_inputs@, i),
            match res {
                Progress::NeedChunk(k) => {
                    &&& final(self).awaited == Some(k)
                    &&& match old(self).awaited {
                        Some(awaited) => k == awaited && *final(self) == *old(self),
                        None => has_head(old(self).source_inputs@, k as int)
                            && final(self).source_inputs@[k as int] is None
                            && final(self).building@.len() > old(self).building@.len()
                            && is_row_of(
                            old(self).source_inputs@[k as int]->Some_0.chunk,
                            final(self).building@.last()@,
                        ),
                    }
                    &&& final(self).building@.len() <= final(self).chunk_size
                    &&& old(self).building@.len() <= final(self).building@.len()
                    &&& final(self).building@.take(old(self).building@.len() as int) == old(self).building@
                },
                Progress::Chunk(rows) => {
                    &&& final(self).awaited is None
                    &&& final(self).building@.len() == 0
                    &&& 0 < rows@.len() <= old(self).chunk_size
                    &&& rows@.len() < old(self).chunk_size ==> forall|i: int|
                        !#[trigger] has_head(final(self).source_inputs@, i)
                    &&& old(self).building@.len() <= rows@.len()
                    &&& rows@.take(old(self).building@.len() as int) == old(self).building@
                },
                Progress::Done => {
                    &&& final(self).awaited is None
                    &&& final(self).building@.len() == 0
                    &&& forall|i: int| !#[trigger] has_head(final(self).source_inputs@, i)
                    &&& old(self).building@.len() == 0
                },
            },
            ({
                let out = match res {
                    Progress::Chunk(rows) => row_views(rows@),
                    _ => row_views(final(self).building@),
                };
                row_views(old(self).building@).to_multiset().add(left_in(old(self).source_inputs@))
                    == out.to_multiset().add(left_in(final(self).source_inputs@))
            }),
            forall|low: Option<Seq<Option<i64>>>| #[trigger]
                in_order(
                    old(self).source_inputs@,
                    row_views(old(self).building@),
                    low,
                    old(self).column_orders@,
                ) ==> in_order(
                    final(self).source_inputs@,
                    (match res {
                        Progress::Chunk(rows) => row_views(rows@),
                        _ => row_views(final(self).building@),
                    }),
                    low,
                    old(self).column_orders@,
                ),
    {
        let ghost orders = self.column_orders@;
        let ghost start = row_views(self.building@);
        let ghost inputs_start = self.source_inputs@;
        if let Some(k) = self.awaited {
            assert(self.building@.take(self.building@.len() as int) =~= self.building@);
            return Progress::NeedChunk(k);
        }
        assert(self.building@.take(self.building@.len() as int) =~= self.building@);
        let ghost building0 = self.building@;
        while self.building.len() < self.chunk_size
            invariant
                self.wf(),
                self.awaited is None,
                old(self).awaited is None,
                self.column_orders == old(self).column_orders,
                self.column_orders@ == orders,
                self.chunk_size == old(self).chunk_size,
                self.opened == old(self).opened,
                self.opened == self.source_inputs@.len(),
                self.source_inputs@.len() == old(self).source_inputs@.len(),
                self.building@.len() <= self.chunk_size,
                building0 == old(self).building@,
                building0.len() <= self.building@.len(),
                self.building@.take(building0.len() as int) == building0,
                inputs_start == old(self).source_inputs@,
                forall|i: int| #[trigger]
                    has_head(self.source_inputs@, i) ==> has_head(inputs_start, i)
                        && self.source_inputs@[i]->Some_0.chunk == inputs_start[i]->Some_0.chunk,
                forall|i: int| #[trigger]
                    has_head(inputs_start, i) ==> has_head(self.source_inputs@, i),
                start == row_views(old(self).building@),
                start.to_multiset().add(left_in(inputs_start)) == row_views(
                    self.building@,
                ).to_multiset().add(left_in(self.source_inputs@)),
                forall|low: Option<Seq<Option<i64>>>| #[trigger]
                    in_order(inputs_start, start, low, orders) ==> in_order(
                        self.source_inputs@,
                        row_views(self.building@),
                        low,
                        orders,
                    ),
            decreases self.chunk_size - self.building.len(),
        {
            let least = self.find_least();
            let k: usize = match least {
                Some(k) => k,
                None => {
                    if self.building.len() == 0 {
                        return Progress::Done;
                    }
                    let mut rows: Vec<Row> = Vec::new();
                    rows.append(&mut self.building);
                    return Progress::Chunk(rows);
                },
            };
            let ghost inputs0 = self.source_inputs@;
            let ghost out0 = row_views(self.building@);
            let ghost input0 = inputs0[k as int]->Some_0;
            assert(has_head(inputs0, k as int));
            let input = self.source_inputs[k].as_ref().unwrap();
            assert(input.row_idx < input.chunk.rows.len());
            let row = input.chunk.rows[input.row_idx].clone();
            let next = input.chunk.next_visible_row_idx(input.row_idx + 1);
            let ghost r = row@;
            let ghost built = self.building@;
            self.building.push(row);
            proof {
                assert(row_views(self.building@) =~= out0.push(r));
                assert(self.building@.take(building0.len() as int) =~= built.take(
                    building0.len() as int,
                ));
            }
            match next {
                Some(row_idx) => {
                    let taken = take_input(&mut self.source_inputs, k);
                    let SourceInput { chunk, row_idx: _ } = taken;
                    self.source_inputs.set(k, Some(SourceInput { chunk, row_idx }));
                    proof {
                        let inputs = self.source_inputs@;
                        assert(inputs =~= inputs0.update(k as int, inputs[k as int]));
                        assert forall|i: int| #[trigger] has_head(inputs, i) implies has_head(
                            inputs_start,
                            i,
                        ) && inputs[i]->Some_0.chunk == inputs_start[i]->Some_0.chunk by {
                            assert(has_head(inputs0, i));
                        }
                        assert forall|i: int| #[trigger]
                            has_head(inputs_start, i) implies has_head(inputs, i) by {
                            assert(has_head(inputs0, i));
                        }
                        lemma_take_head(inputs0, k as int, inputs[k as int]);
                        out0.to_multiset_ensures();
                        assert(out0.push(r).to_multiset().add(left_in(inputs))
                            =~= out0.to_multiset().add(left_in(inputs0)));
                        assert forall|i: int| #[trigger] has_head(
                            inputs,
                            i,
                        ) implies inputs[i]->Some_0.wf(orders) by {
                            assert(has_head(inputs0, i));
                        }
                        assert forall|low: Option<Seq<Option<i64>>>| #[trigger] in_order(
                            inputs_start,
                            start,
                            low,
                            orders,
                        ) implies in_order(inputs, out0.push(r), low, orders) by {
                            lemma_push_sorted(inputs0, k as int, out0, low, orders);
                            lemma_advance_ordered(
                                inputs0,
                                inputs,
                                k as int,
                                last_or(out0, low),
                                orders,
                            );
                        }
                    }
                },
                None => {
                    let taken = take_input(&mut self.source_inputs, k);
                    self.awaited = Some(k);
                    proof {
                        let inputs = self.source_inputs@;
                        assert(inputs =~= inputs0.update(k as int, inputs[k as int]));
                        assert forall|i: int| #[trigger] has_head(inputs, i) implies has_head(
                            inputs_start,
                            i,
                        ) && inputs[i]->Some_0.chunk == inputs_start[i]->Some_0.chunk by {
                            assert(has_head(inputs0, i));
                        }
                        assert forall|i: int| #[trigger]
                            has_head(inputs_start, i) && i != k implies has_head(inputs, i) by {
                            assert(has_head(inputs0, i));
                        }
                        lemma_take_head(inputs0, k as int, inputs[k as int]);
                        out0.to_multiset_ensures();
                        assert(out0.push(r).to_multiset().add(left_in(inputs))
                            =~= out0.to_multiset().add(left_in(inputs0)));
                        assert forall|i: int| #[trigger] has_head(
                            inputs,
                            i,
                        ) implies inputs[i]->Some_0.wf(orders) by {
                            assert(has_head(inputs0, i));
                        }
                        assert forall|low: Option<Seq<Option<i64>>>| #[trigger] in_order(
                            inputs_start,
                            start,
                            low,
                            orders,
                        ) implies in_order(inputs, out0.push(r), low, orders) by {
                            lemma_push_sorted(inputs0, k as int, out0, low, orders);
                            lemma_retire_ordered(
                                inputs0,
                                inputs,
                                k as int,
                                last_or(out0, low),
                                orders,
                            );
                        }
                    }
                    return Progress::NeedChunk(k);
                },
            }
        }
        let mut rows: Vec<Row> = Vec::new();
        rows.append(&mut self.building);
        Progress::Chunk(rows)
    }
}

/// Takes the input of a source out of the list.
fn take_input(inputs: &mut Vec<Option<SourceInput>>, k: usize) -> (res: SourceInput)
    requires
        k < old(inputs)@.len(),
        old(inputs)@[k as int] is Some,
    ensures
        Some(res) == old(inputs)@[k as int],
        final(inputs)@ == old(inputs)@.update(k as int, None),
{
    let mut none: Option<SourceInput> = None;
    let slot = &mut inputs[k];
    std::mem::swap(slot, &mut none);
    none.unwrap()
}

proof fn lemma_push_sorted(
    inputs: Seq<Option<SourceInput>>,
    k: int,
    out: Seq<Seq<Option<i64>>>,
    low: Option<Seq<Option<i64>>>,
    orders: Seq<ColumnOrder>,
)
    requires
        is_least(inputs, k, orders),
        rows_sorted(out, orders),
        inputs_ordered(inputs, last_or(out, low), orders),
        low matches Some(row) ==> out.len() > 0 ==> not_after(row, out[0], orders),
    ensures
        rows_sorted(out.push(inputs[k]->Some_0.head()), orders),
        low matches Some(row) ==> not_after(row, out.push(inputs[k]->Some_0.head())[0], orders),
{
    let r = inputs[k]->Some_0.head();
    let after = out.push(r);
    assert(has_head(inputs, k));
    lemma_compared_reversed(r, r, orders);
    assert forall|i: int, j: int| 0 <= i <= j < after.len() implies not_after(
        #[trigger] after[i],
        #[trigger] after[j],
        orders,
    ) by {
        if i < out.len() && j == out.len() {
            assert(not_after(out[i], out[out.len() - 1], orders));
            assert(not_after(out.last(), r, orders));
            lemma_compared_transitive(out[i], out.last(), r, orders);
        }
    }
}

proof fn lemma_advance_ordered(
    before: Seq<Option<SourceInput>>,
    after: Seq<Option<SourceInput>>,
    k: int,
    low: Option<Seq<Option<i64>>>,
    orders: Seq<ColumnOrder>,
)
    requires
        inputs_wf(before, orders),
        is_least(before, k, orders),
        inputs_ordered(before, low, orders),
        after.len() == before.len(),
        after[k] matches Some(input) && input.chunk == before[k]->Some_0.chunk && input.row_idx
            > before[k]->Some_0.row_idx && input.chunk.visible(input.row_idx as int),
        forall|i: int| 0 <= i < before.len() && i != k ==> #[trigger] after[i] == before[i],
    ensures
        inputs_ordered(after, Some(before[k]->Some_0.head()), orders),
{
    let r = before[k]->Some_0.head();
    assert(has_head(before, k));
    assert forall|i: int| #[trigger] has_head(after, i) implies after[i]->Some_0.ordered(
        Some(r),
        orders,
    ) by {
        assert(has_head(before, i));
        if i == k {
            let b = before[k]->Some_0;
            let a = after[k]->Some_0;
            assert(b.chunk.visible(b.row_idx as int));
            assert(b.chunk.visible(a.row_idx as int));
            assert forall|x: int, y: int|
                a.row_idx <= x <= y && #[trigger] a.chunk.visible(x)
                    && #[trigger] a.chunk.visible(y) implies not_after(
                a.chunk.rows@[x]@,
                a.chunk.rows@[y]@,
                orders,
            ) by {
                assert(b.chunk.visible(x) && b.chunk.visible(y));
            }
        }
    }
}

proof fn lemma_retire_ordered(
    before: Seq<Option<SourceInput>>,
    after: Seq<Option<SourceInput>>,
    k: int,
    low: Option<Seq<Option<i64>>>,
    orders: Seq<ColumnOrder>,
)
    requires
        is_least(before, k, orders),
        inputs_ordered(before, low, orders),
        after == before.update(k, None),
    ensures
        inputs_ordered(after, Some(before[k]->Some_0.head()), orders),
{
    assert forall|i: int| #[trigger] has_head(after, i) implies after[i]->Some_0.ordered(
        Some(before[k]->Some_0.head()),
        orders,
    ) by {
        assert(has_head(before, i));
    }
}

} // verus!
