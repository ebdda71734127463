//! The first rows of every group of a stream.
use crate::batch::row::ColumnOrder;
use fixedbitset::FixedBitSet;
use vstd::prelude::*;

verus! {

/// A set of small numbers, from the crate `fixedbitset`.
#[verifier::external_type_specification]
#[verifier::external_body]
pub struct ExFixedBitSet(FixedBitSet);

/// The numbers that are in the set.
pub uninterp spec fn bits_of(set: FixedBitSet) -> Set<usize>;

/// The bound that the set was made with: all its numbers are below it.
pub uninterp spec fn bound_of(set: FixedBitSet) -> usize;

/// `FixedBitSet::with_capacity` makes a set without numbers that can hold those below the bound.
pub assume_specification[ FixedBitSet::with_capacity ](bits: usize) -> (res: FixedBitSet)
    ensures
        bits_of(res) == Set::<usize>::empty(),
        bound_of(res) == bits,
;

/// `FixedBitSet::insert` puts a number below the bound into the set, and panics on any other.
pub assume_specification[ FixedBitSet::insert ](set: &mut FixedBitSet, bit: usize)
    requires
        bit < bound_of(*old(set)),
    ensures
        bits_of(*final(set)) == bits_of(*old(set)).insert(bit),
        bound_of(*final(set)) == bound_of(*old(set)),
;

/// `FixedBitSet::contains` says whether a number is in the set.
pub assume_specification[ FixedBitSet::contains ](set: &FixedBitSet, bit: usize) -> (res: bool)
    ensures
        res == bits_of(*set).contains(bit),
;

/// The `clone` of `FixedBitSet` makes a set with the same numbers and the same bound.
pub assume_specification[ <FixedBitSet as Clone>::clone ](set: &FixedBitSet) -> (res: FixedBitSet)
    ensures
        bits_of(res) == bits_of(*set),
        bound_of(res) == bound_of(*set),
;

/// How many rows are kept, and whether those that equal the last one are kept as well.
#[derive(Clone, Copy, Debug, PartialEq, Eq, Structural)]
pub enum TopNLimit {
    Simple(u64),
    WithTies(u64),
}

impl TopNLimit {
    /// How many rows are kept.
    pub open spec fn count(self) -> u64 {
        match self {
            TopNLimit::Simple(n) => n,
            TopNLimit::WithTies(n) => n,
        }
    }

    /// How many rows are kept.
    pub fn limit(&self) -> (res: u64)
        ensures
            res == self.count(),
    {
        match self {
            TopNLimit::Simple(n) => *n,
            TopNLimit::WithTies(n) => *n,
        }
    }

    /// Whether rows that equal the last one are kept as well.
    pub fn with_ties(&self) -> (res: bool)
        ensures
            res == (*self is WithTies),
    {
        match self {
            TopNLimit::Simple(_) => false,
            TopNLimit::WithTies(_) => true,
        }
    }
}

/// What is known of the rows that come in.
#[derive(Debug)]
pub struct TopNInput {
    /// How many columns they have.
    pub schema_len: usize,
    /// Rows are never taken back.
    pub append_only: bool,
    /// The columns that grow.
    pub watermark_columns: FixedBitSet,
}

/// The first rows of every group.
#[derive(Debug)]
pub struct TopN {
    pub input: TopNInput,
    pub limit_attr: TopNLimit,
    pub offset: u64,
    pub order: Vec<ColumnOrder>,
    pub group_key: Vec<usize>,
    /// The columns that tell the rows that come out apart.
    pub stream_key: Vec<usize>,
}

/// What is known of the rows that come out.
#[derive(Debug)]
pub struct StreamBase {
    pub stream_key: Vec<usize>,
    pub append_only: bool,
    pub emit_on_window_close: bool,
    pub watermark_columns: FixedBitSet,
}

/// The first rows of every group of a stream.
#[derive(Debug)]
pub struct StreamGroupTopN {
    pub base: StreamBase,
    pub core: TopN,
    /// The column with the virtual node of each row.
    pub vnode_col_idx: Option<usize>,
}

/// The node as it is sent.
#[derive(Debug)]
pub struct GroupTopNNode<T> {
    pub limit: u64,
    pub offset: u64,
    pub with_ties: bool,
    pub group_key: Vec<u32>,
    /// The table that holds the state of the node.
    pub table: T,
    pub order_by: Vec<ColumnOrder>,
    /// The node is that for streams in which rows are never taken back.
    pub append_only: bool,
}

/// The columns of the group key that grow.
pub open spec fn growing(group_key: Seq<usize>, watermark_columns: Set<usize>) -> Set<usize> {
    group_key.to_set().intersect(watermark_columns)
}

/// The columns of the group key that grow are columns of the rows.
pub open spec fn marks_fit(
    group_key: Seq<usize>,
    watermark_columns: Set<usize>,
    schema_len: usize,
) -> bool {
    forall|i: int|
        0 <= i < group_key.len() && watermark_columns.contains(#[trigger] group_key[i])
            ==> group_key[i] < schema_len
}

/// The position of the first occurrence.
pub open spec fn first_place(key: Seq<usize>, column: usize) -> int
    decreases key.len(),
{
    if key.len() == 0 || key[0] == column {
        0
    } else {
        1 + first_place(key.skip(1), column)
    }
}

/// The columns that tell the rows that come out apart: the column of virtual nodes is left out, unless none
/// would be left.
pub open spec fn output_key(stream_key: Seq<usize>, vnode_col_idx: Option<usize>) -> Seq<usize> {
    match vnode_col_idx {
        Some(column) => if stream_key.len() > 1 {
            stream_key.remove(first_place(stream_key, column))
        } else {
            stream_key
        },
        None => stream_key,
    }
}

/// The place of the first occurrence.
fn find_place(key: &Vec<usize>, column: usize) -> (res: usize)
    requires
        key@.contains(column),
    ensures
        res == first_place(key@, column),
        res < key@.len(),
        key@[res as int] == column,
{
    let mut i: usize = 0;
    assert(key@.skip(0) =~= key@);
    while i < key.len() && key[i] != column
        invariant
            i <= key.len(),
            key@.contains(column),
            forall|j: int| 0 <= j < i ==> key@[j] != column,
            first_place(key@, column) == i + first_place(key@.skip(i as int), column),
        decreases key.len() - i,
    {
        assert(key@.skip(i as int)[0] == key@[i as int]);
        assert(key@.skip(i as int).skip(1) =~= key@.skip(i + 1));
        i = i + 1;
    }
    proof {
        let k = choose|k: int| 0 <= k < key@.len() && key@[k] == column;
        assert(i <= k);
        assert(key@.skip(i as int)[0] == key@[i as int]);
    }
    i
}

/// The columns of the group key that grow.
fn output_watermarks(core: &TopN) -> (res: FixedBitSet)
    requires
        marks_fit(
            core.group_key@,
            bits_of(core.input.watermark_columns),
            core.input.schema_len,
        ),
    ensures
        bits_of(res) == growing(core.group_key@, bits_of(core.input.watermark_columns)),
        bound_of(res) == core.input.schema_len,
{
    let mut columns = FixedBitSet::with_capacity(core.input.schema_len);
    let ghost marks = bits_of(core.input.watermark_columns);
    let mut i: usize = 0;
    assert(bits_of(columns) =~= growing(core.group_key@.take(0), marks));
    while i < core.group_key.len()
        invariant
            i <= core.group_key.len(),
            marks == bits_of(core.input.watermark_columns),
            bound_of(columns) == core.input.schema_len,
            marks_fit(core.group_key@, marks, core.input.schema_len),
            bits_of(columns) == growing(core.group_key@.take(i as int), marks),
        decreases core.group_key.len() - i,
    {
        let idx: usize = core.group_key[i];
        let ghost part = core.group_key@.take(i as int);
        proof {
            let next = core.group_key@.take(i + 1);
            assert(next =~= part.push(idx));
            assert forall|c: usize| next.contains(c) <==> part.contains(c) || c == idx by {
                if part.contains(c) {
                    let k = choose|k: int| 0 <= k < part.len() && part[k] == c;
                    assert(next[k] == c);
                }
                if c == idx {
                    assert(next[i as int] == c);
                }
            }
            assert(growing(next, marks) =~= (if marks.contains(idx) {
                growing(part, marks).insert(idx)
            } else {
                growing(part, marks)
            }));
        }
        if core.input.watermark_columns.contains(idx) {
            columns.insert(idx);
        }
        i = i + 1;
    }
    assert(core.group_key@.take(i as int) =~= core.group_key@);
    columns
}

impl StreamGroupTopN {
    /// The node for the given rows. Groups are made, at least one row is kept, and the column of virtual
    /// nodes is one of those that tell rows apart.
    pub fn new(core: TopN, vnode_col_idx: Option<usize>) -> (res: StreamGroupTopN)
        requires
            core.group_key@.len() > 0,
            core.limit_attr.count() > 0,
            !core.input.append_only ==> marks_fit(
                core.group_key@,
                bits_of(core.input.watermark_columns),
                core.input.schema_len,
            ),
            vnode_col_idx matches Some(c) ==> core.stream_key@.len() > 1 ==> core.stream_key@.contains(
                c,
            ),
        ensures
            res.core == core,
            res.vnode_col_idx == vnode_col_idx,
            res.base.stream_key@ == output_key(core.stream_key@, vnode_col_idx),
            !res.base.append_only,
            !res.base.emit_on_window_close,
            core.input.append_only ==> bits_of(res.base.watermark_columns) == bits_of(
                core.input.watermark_columns,
            ) && bound_of(res.base.watermark_columns) == bound_of(core.input.watermark_columns),
            !core.input.append_only ==> bits_of(res.base.watermark_columns) == growing(
                core.group_key@,
                bits_of(core.input.watermark_columns),
            ) && bound_of(res.base.watermark_columns) == core.input.schema_len,
    {
        let watermark_columns = if core.input.append_only {
            core.input.watermark_columns.clone()
        } else {
            output_watermarks(&core)
        };
        let mut stream_key: Vec<usize> = Vec::new();
        let mut i: usize = 0;
        while i < core.stream_key.len()
            invariant
                i <= core.stream_key.len(),
                stream_key@ == core.stream_key@.take(i as int),
            decreases core.stream_key.len() - i,
        {
            stream_key.push(core.stream_key[i]);
            i = i + 1;
            assert(stream_key@ =~= core.stream_key@.take(i as int));
        }
        assert(core.stream_key@.take(i as int) =~= core.stream_key@);
        if let Some(column) = vnode_col_idx {
            if stream_key.len() > 1 {
                let place: usize = find_place(&stream_key, column);
                stream_key.remove(place);
            }
        }
        StreamGroupTopN {
            base: StreamBase {
                stream_key,
                append_only: false,
                emit_on_window_close: false,
                watermark_columns,
            },
            core,
            vnode_col_idx,
        }
    }

    /// The node for rows of another input, with the columns that tell rows apart then.
    pub fn clone_with_input(&self, input: TopNInput, stream_key: Vec<usize>) -> (res:
        StreamGroupTopN)
        requires
            self.core.group_key@.len() > 0,
            self.core.limit_attr.count() > 0,
            !input.append_only ==> marks_fit(
                self.core.group_key@,
                bits_of(input.watermark_columns),
                input.schema_len,
            ),
            self.vnode_col_idx matches Some(c) ==> stream_key@.len() > 1 ==> stream_key@.contains(
                c,
            ),
        ensures
            res.core.input == input,
            res.core.limit_attr == self.core.limit_attr,
            res.core.offset == self.core.offset,
            res.core.order@ == self.core.order@,
            res.core.group_key@ == self.core.group_key@,
            res.core.stream_key == stream_key,
            res.vnode_col_idx == self.vnode_col_idx,
            res.base.stream_key@ == output_key(stream_key@, self.vnode_col_idx),
            !res.base.append_only,
            !res.base.emit_on_window_close,
            bits_of(res.base.watermark_columns) == (if input.append_only {
                bits_of(input.watermark_columns)
            } else {
                growing(self.core.group_key@, bits_of(input.watermark_columns))
            }),
    {
        let order = self.core.order.clone();
        let group_key = self.core.group_key.clone();
        proof {
            assert(order@ =~= self.core.order@);
            assert(group_key@ =~= self.core.group_key@);
        }
        let core = TopN {
            input,
            limit_attr: self.core.limit_attr,
            offset: self.core.offset,
            order,
            group_key,
            stream_key,
        };
        StreamGroupTopN::new(core, self.vnode_col_idx)
    }

    /// How many rows are kept.
    pub fn limit_attr(&self) -> (res: TopNLimit)
        ensures
            res == self.core.limit_attr,
    {
        self.core.limit_attr
    }

    /// How many rows are passed over first.
    pub fn offset(&self) -> (res: u64)
        ensures
            res == self.core.offset,
    {
        self.core.offset
    }

    /// The order of the rows.
    pub fn topn_order(&self) -> (res: &Vec<ColumnOrder>)
        ensures
            *res == self.core.order,
    {
        &self.core.order
    }

    /// The columns by which groups are made.
    pub fn group_key(&self) -> (res: &Vec<usize>)
        ensures
            *res == self.core.group_key,
    {
        &self.core.group_key
    }

    /// The node as it is sent, with the given table for its state.
    pub fn to_stream_prost_body<T>(&self, table: T) -> (res: GroupTopNNode<T>)
        requires
            self.core.group_key@.len() > 0,
        ensures
            res.limit == self.core.limit_attr.count(),
            res.offset == self.core.offset,
            res.with_ties == (self.core.limit_attr is WithTies),
            res.group_key@ == Seq::new(
                self.core.group_key@.len(),
                |i: int| self.core.group_key@[i] as u32,
            ),
            res.table == table,
            res.order_by@ == self.core.order@,
            res.append_only == self.core.input.append_only,
    {
        let mut group_key: Vec<u32> = Vec::new();
        let mut i: usize = 0;
        while i < self.core.group_key.len()
            invariant
                i <= self.core.group_key.len(),
                group_key@ == Seq::new(i as nat, |j: int| self.core.group_key@[j] as u32),
            decreases self.core.group_key.len() - i,
        {
            group_key.push(#[verifier::truncate] (self.core.group_key[i] as u32));
            i = i + 1;
            assert(group_key@ =~= Seq::new(i as nat, |j: int| self.core.group_key@[j] as u32));
        }
        let order_by = self.core.order.clone();
        assert(order_by@ =~= self.core.order@);
        GroupTopNNode {
            limit: self.limit_attr().limit(),
            offset: self.offset(),
            with_ties: self.limit_attr().with_ties(),
            group_key,
            table,
            order_by,
            append_only: self.core.input.append_only,
        }
    }
}

/// The columns that tell rows apart are never all left out.
pub proof fn lemma_output_key_not_empty(stream_key: Seq<usize>, vnode_col_idx: Option<usize>)
    requires
        stream_key.len() > 0,
        vnode_col_idx matches Some(c) ==> stream_key.len() > 1 ==> stream_key.contains(c),
    ensures
        output_key(stream_key, vnode_col_idx).len() > 0,
{
    if let Some(c) = vnode_col_idx {
        if stream_key.len() > 1 {
            lemma_first_place(stream_key, c);
        }
    }
}

/// The first place of a column that is there holds it.
proof fn lemma_first_place(key: Seq<usize>, column: usize)
    requires
        key.contains(column),
    ensures
        0 <= first_place(key, column) < key.len(),
        key[first_place(key, column)] == column,
    decreases key.len(),
{
    if key[0] != column {
        let k = choose|k: int| 0 <= k < key.len() && key[k] == column;
        assert(key.skip(1)[k - 1] == column);
        lemma_first_place(key.skip(1), column);
    }
}

/// In a stream whose rows may be taken back, only columns of the group key that grew before still grow.
pub proof fn lemma_growing(group_key: Seq<usize>, watermark_columns: Set<usize>, column: usize)
    ensures
        growing(group_key, watermark_columns).contains(column) <==> group_key.contains(column)
            && watermark_columns.contains(column),
{
}

} // verus!
