//! Planning the relations of a query.
use crate::frontend::types::SqlType;
use std::collections::BTreeMap;
use vstd::prelude::*;

verus! {

broadcast use {vstd::std_specs::btree::group_btree_axioms, vstd::laws_cmp::group_laws_cmp};

/// The time or version at which a table is read.
#[derive(Clone, Copy, Debug, PartialEq, Eq, Structural)]
pub enum AsOf {
    ProcessTime,
    TimestampNum(i64),
    TimestampString(u64),
    VersionNum(i64),
    VersionString(u64),
}

/// How relations are joined.
#[derive(Clone, Copy, Debug, PartialEq, Eq, Structural)]
pub enum JoinType {
    Inner,
    LeftOuter,
    RightOuter,
    FullOuter,
    LeftSemi,
    RightSemi,
    LeftAnti,
    RightAnti,
}

/// An interval of time, and whether it is positive.
#[derive(Clone, Copy, Debug, PartialEq, Eq, Structural)]
pub struct Interval {
    pub months: i32,
    pub days: i32,
    pub usecs: i64,
    pub positive: bool,
}

/// An argument of a window.
#[derive(Clone, Copy, Debug, PartialEq, Eq, Structural)]
pub enum WindowArg {
    /// A literal that is an interval.
    Interval(Interval),
    /// Another literal.
    Literal(u64),
    /// No literal.
    Other(u64),
}

/// A column of the input.
#[derive(Clone, Copy, Debug, PartialEq, Eq, Structural)]
pub struct InputRef {
    pub index: usize,
    pub data_type: SqlType,
}

/// An expression of a projection.
#[derive(Clone, Copy, Debug, PartialEq, Eq, Structural)]
pub enum OutExpr {
    /// A column of the input.
    InputRef(InputRef),
    /// A field of the only column of the input.
    Field { index: usize, data_type: SqlType },
    /// The start of the window of a row.
    TumbleStart { time_col: InputRef, size: WindowArg, offset: Option<WindowArg> },
    /// The start of the window of a row with the size of the window added to it.
    TumbleEnd { time_col: InputRef, size: WindowArg, offset: Option<WindowArg> },
    /// A number.
    Bigint(i64),
}

/// How rows are put into windows.
#[derive(Clone, Copy, Debug, PartialEq, Eq, Structural)]
pub enum WindowTableFunctionKind {
    Tumble,
    Hop,
}

/// A query: what became of planning it, and the types of its columns.
#[derive(Debug)]
pub struct BoundQuery {
    pub planned: Result<u64, u32>,
    pub data_types: Vec<SqlType>,
}

/// A join of two relations.
#[derive(Debug)]
pub struct BoundJoin {
    pub left: Relation,
    pub right: Relation,
    pub join_type: JoinType,
    pub on: u64,
    /// The condition holds a query.
    pub on_has_subquery: bool,
    /// The columns of the left relation that the right one uses.
    pub correlated_indices: Vec<usize>,
}

/// Rows put into windows.
#[derive(Debug)]
pub struct BoundWindowTableFunction {
    pub kind: WindowTableFunctionKind,
    pub input: Relation,
    pub time_col: InputRef,
    pub args: Vec<WindowArg>,
    /// What became of finding types for the start and the end of a window.
    pub typed: Result<(), u32>,
    /// The size of a window can be divided by the distance between windows.
    pub divides: bool,
}

/// A source.
#[derive(Debug)]
pub struct BoundSource {
    pub source: u32,
    pub is_shareable_cdc_connector: bool,
    pub as_of: Option<AsOf>,
    pub data_types: Vec<SqlType>,
    /// What became of making a plan node of the source.
    pub created: Result<(), u32>,
}

/// What is shared.
#[derive(Debug)]
pub enum ShareInput {
    Query(BoundQuery),
    /// A query that refers to itself.
    Recursive(BoundQuery),
}

/// What a function of a table is.
#[derive(Debug)]
pub enum TableExpr {
    TableFunction(u64),
    /// Another expression with its type, and the types of its fields if it is a structure.
    Other { expr: u64, return_type: SqlType, fields: Option<Vec<SqlType>> },
}

/// A relation.
#[derive(Debug)]
pub enum Relation {
    BaseTable { table: u32, table_as_of: Option<AsOf>, data_types: Vec<SqlType> },
    SystemTable { table: u32 },
    Subquery(BoundQuery),
    Join(Box<BoundJoin>),
    Apply(Box<BoundJoin>),
    WindowTableFunction(Box<BoundWindowTableFunction>),
    Source(BoundSource),
    TableFunction { function: TableExpr, with_ordinality: bool },
    Watermark,
    Share { share_id: u64, input: ShareInput },
    BackCteRef { cte_share_id: u64, base: Result<u64, u32> },
}

/// A plan.
#[derive(Debug)]
pub enum Plan {
    Scan { table: u32, as_of: Option<AsOf> },
    SysScan { sys_table: u32 },
    /// What a query was planned as, without its order.
    Query { query: u64 },
    Join { left: Box<Plan>, right: Box<Plan>, join_type: JoinType, on: u64 },
    Apply {
        outer: Box<Plan>,
        inner: Box<Plan>,
        apply_type: JoinType,
        apply_on: u64,
        correlated_id: u32,
        correlated_indices: Vec<usize>,
    },
    Project { input: Box<Plan>, exprs: Vec<OutExpr> },
    Values { expr: u64 },
    TableFunction { function: u64, with_ordinality: bool },
    Source { source: u32, source_as_of: Option<AsOf> },
    /// A plan that several parts of the query use.
    Share { shared: u64 },
    RecursiveUnion { union: u64 },
    HopWindow {
        rows: Box<Plan>,
        time_col: InputRef,
        slide: Interval,
        size: Interval,
        offset: Interval,
    },
    CteRef { share_id: u64, base: u64 },
}

/// Why a relation cannot be planned.
#[derive(Clone, Copy, Debug, PartialEq, Eq, Structural)]
pub enum PlanError {
    AsOfTimestamp,
    AsOfVersion,
    AsOfProcessTime,
    /// A source that follows the changes of a database is used directly.
    SharedCdcSource,
    /// The condition of a join holds a query.
    SubqueryInJoin,
    /// Rows of this relation cannot be put into windows.
    InvalidTumbleInput,
    /// The size of a window has to be a literal interval.
    WindowSizeArg,
    NotPositive { size: Interval, slide: Interval },
    NotDivisible { size: Interval, slide: Interval },
    /// What went wrong in another part.
    Other(u32),
}

/// A plan as plain values.
pub enum PlanTree {
    Scan { table: u32, as_of: Option<AsOf> },
    SysScan { sys_table: u32 },
    Query { query: u64 },
    Join { left: Box<PlanTree>, right: Box<PlanTree>, join_type: JoinType, on: u64 },
    Apply {
        outer: Box<PlanTree>,
        inner: Box<PlanTree>,
        apply_type: JoinType,
        apply_on: u64,
        correlated_id: u32,
        correlated_indices: Seq<usize>,
    },
    Project { input: Box<PlanTree>, exprs: Seq<OutExpr> },
    Values { expr: u64 },
    TableFunction { function: u64, with_ordinality: bool },
    Source { source: u32, source_as_of: Option<AsOf> },
    Share { shared: u64 },
    RecursiveUnion { union: u64 },
    HopWindow {
        rows: Box<PlanTree>,
        time_col: InputRef,
        slide: Interval,
        size: Interval,
        offset: Interval,
    },
    CteRef { share_id: u64, base: u64 },
}

/// The plan as plain values.
pub open spec fn tree(plan: Plan) -> PlanTree
    decreases plan,
{
    match plan {
        Plan::Scan { table, as_of } => PlanTree::Scan { table, as_of },
        Plan::SysScan { sys_table } => PlanTree::SysScan { sys_table },
        Plan::Query { query } => PlanTree::Query { query },
        Plan::Join { left, right, join_type, on } => PlanTree::Join {
            left: Box::new(tree(*left)),
            right: Box::new(tree(*right)),
            join_type,
            on,
        },
        Plan::Apply { outer, inner, apply_type, apply_on, correlated_id, correlated_indices } => PlanTree::Apply {
            outer: Box::new(tree(*outer)),
            inner: Box::new(tree(*inner)),
            apply_type,
            apply_on,
            correlated_id,
            correlated_indices: correlated_indices@,
        },
        Plan::Project { input, exprs } => PlanTree::Project {
            input: Box::new(tree(*input)),
            exprs: exprs@,
        },
        Plan::Values { expr } => PlanTree::Values { expr },
        Plan::TableFunction { function, with_ordinality } => PlanTree::TableFunction {
            function,
            with_ordinality,
        },
        Plan::Source { source, source_as_of } => PlanTree::Source { source, source_as_of },
        Plan::Share { shared } => PlanTree::Share { shared },
        Plan::RecursiveUnion { union } => PlanTree::RecursiveUnion { union },
        Plan::HopWindow { rows, time_col, slide, size, offset } => PlanTree::HopWindow {
            rows: Box::new(tree(*rows)),
            time_col,
            slide,
            size,
            offset,
        },
        Plan::CteRef { share_id, base } => PlanTree::CteRef { share_id, base },
    }
}

/// What a planner has made so far.
pub struct PlannerState {
    /// The plans of the queries that are shared.
    pub shared: Map<u64, u64>,
    /// The number of the next relation that uses columns of another.
    pub next_correlated_id: int,
}

/// What becomes of planning a relation.
pub struct Planned {
    pub result: Result<PlanTree, PlanError>,
    pub state: PlannerState,
}

/// A table.
pub open spec fn base_table_plan(table: u32, as_of: Option<AsOf>) -> Result<PlanTree, PlanError> {
    match as_of {
        None | Some(AsOf::ProcessTime) => Ok(PlanTree::Scan { table, as_of }),
        Some(AsOf::TimestampString(_)) | Some(AsOf::TimestampNum(_)) => Err(
            PlanError::AsOfTimestamp,
        ),
        Some(AsOf::VersionNum(_)) | Some(AsOf::VersionString(_)) => Err(PlanError::AsOfVersion),
    }
}

/// A source.
pub open spec fn source_plan(source: BoundSource) -> Result<PlanTree, PlanError> {
    if source.is_shareable_cdc_connector {
        Err(PlanError::SharedCdcSource)
    } else {
        match source.as_of {
            Some(AsOf::ProcessTime) => Err(PlanError::AsOfProcessTime),
            Some(AsOf::VersionString(_)) => Err(PlanError::AsOfVersion),
            _ => match source.created {
                Ok(_) => Ok(
                    PlanTree::Source { source: source.source, source_as_of: source.as_of },
                ),
                Err(e) => Err(PlanError::Other(e)),
            },
        }
    }
}

/// A function of a table.
pub open spec fn table_function_plan(function: TableExpr, with_ordinality: bool) -> PlanTree {
    match function {
        TableExpr::TableFunction(f) => PlanTree::TableFunction { function: f, with_ordinality },
        TableExpr::Other { expr, return_type, fields } => {
            let columns = match fields {
                Some(types) => Seq::new(
                    types@.len(),
                    |i: int| OutExpr::Field { index: i as usize, data_type: types@[i] },
                ),
                None => seq![OutExpr::InputRef(InputRef { index: 0, data_type: return_type })],
            };
            PlanTree::Project {
                input: Box::new(PlanTree::Values { expr }),
                exprs: if with_ordinality {
                    columns.push(OutExpr::Bigint(1))
                } else {
                    columns
                },
            }
        },
    }
}

/// The types of the columns of a relation whose rows can be put into windows that do not overlap.
pub open spec fn tumble_types(relation: Relation) -> Option<Seq<SqlType>> {
    match relation {
        Relation::Source(source) => Some(source.data_types@),
        Relation::BaseTable { table, table_as_of, data_types } => Some(data_types@),
        Relation::Subquery(query) => Some(query.data_types@),
        Relation::Share { share_id, input: ShareInput::Query(query) } => Some(query.data_types@),
        Relation::Share { share_id, input: ShareInput::Recursive(query) } => Some(
            query.data_types@,
        ),
        _ => None,
    }
}

/// The argument is a literal.
pub open spec fn is_literal(arg: WindowArg) -> bool {
    !(arg is Other)
}

/// The size and the offset of windows that do not overlap.
pub open spec fn tumble_args(args: Seq<WindowArg>) -> Option<(WindowArg, Option<WindowArg>)> {
    if args.len() == 1 && is_literal(args[0]) {
        Some((args[0], None))
    } else if args.len() == 2 && is_literal(args[0]) && is_literal(args[1]) {
        Some((args[0], Some(args[1])))
    } else {
        None
    }
}

/// The columns of rows in windows that do not overlap: those of the input, and the start and the end of the
/// window.
pub open spec fn tumble_exprs(
    types: Seq<SqlType>,
    time_col: InputRef,
    size: WindowArg,
    offset: Option<WindowArg>,
) -> Seq<OutExpr> {
    Seq::new(
        types.len(),
        |i: int| OutExpr::InputRef(InputRef { index: i as usize, data_type: types[i] }),
    ).push(OutExpr::TumbleStart { time_col, size, offset }).push(
        OutExpr::TumbleEnd { time_col, size, offset },
    )
}

/// No time.
pub open spec fn zero_interval() -> Interval {
    Interval { months: 0, days: 0, usecs: 0, positive: false }
}

/// The distance, the size and the offset of windows that may overlap.
pub open spec fn hop_args(args: Seq<WindowArg>, divides: bool) -> Result<
    (Interval, Interval, Interval),
    PlanError,
> {
    if args.len() < 2 || args.len() > 3 {
        Err(PlanError::WindowSizeArg)
    } else {
        match (args[0], args[1]) {
            (WindowArg::Interval(slide), WindowArg::Interval(size)) => {
                let offset = if args.len() == 2 {
                    Some(zero_interval())
                } else {
                    match args[2] {
                        WindowArg::Interval(offset) => Some(offset),
                        _ => None,
                    }
                };
                match offset {
                    None => Err(PlanError::WindowSizeArg),
                    Some(offset) => if !size.positive || !slide.positive {
                        Err(PlanError::NotPositive { size, slide })
                    } else if !divides {
                        Err(PlanError::NotDivisible { size, slide })
                    } else {
                        Ok((slide, size, offset))
                    },
                }
            },
            _ => Err(PlanError::WindowSizeArg),
        }
    }
}

/// What a query was planned as.
pub open spec fn query_plan(planned: Result<u64, u32>) -> Result<PlanTree, PlanError> {
    match planned {
        Ok(query) => Ok(PlanTree::Query { query }),
        Err(e) => Err(PlanError::Other(e)),
    }
}

/// What becomes of planning a shared relation.
pub open spec fn share_plan(share_id: u64, input: ShareInput, state: PlannerState) -> Planned {
    match input {
        ShareInput::Query(query) => if state.shared.dom().contains(share_id) {
            Planned { result: Ok(PlanTree::Share { shared: state.shared[share_id] }), state }
        } else {
            match query.planned {
                Ok(shared) => Planned {
                    result: Ok(PlanTree::Share { shared }),
                    state: PlannerState { shared: state.shared.insert(share_id, shared), ..state },
                },
                Err(e) => Planned { result: Err(PlanError::Other(e)), state },
            }
        },
        ShareInput::Recursive(query) => Planned {
            result: match query.planned {
                Ok(union) => Ok(PlanTree::RecursiveUnion { union }),
                Err(e) => Err(PlanError::Other(e)),
            },
            state,
        },
    }
}

/// What becomes of planning a relation.
pub open spec fn planned(relation: Relation, state: PlannerState) -> Planned
    decreases relation,
{
    match relation {
        Relation::BaseTable { table, table_as_of, data_types } => Planned {
            result: base_table_plan(table, table_as_of),
            state,
        },
        Relation::SystemTable { table } => Planned {
            result: Ok(PlanTree::SysScan { sys_table: table }),
            state,
        },
        Relation::Subquery(query) => Planned { result: query_plan(query.planned), state },
        Relation::Join(join) => {
            let left = planned(join.left, state);
            match left.result {
                Err(e) => Planned { result: Err(e), state: left.state },
                Ok(l) => {
                    let right = planned(join.right, left.state);
                    match right.result {
                        Err(e) => Planned { result: Err(e), state: right.state },
                        Ok(r) => Planned {
                            result: if join.on_has_subquery {
                                Err(PlanError::SubqueryInJoin)
                            } else {
                                Ok(
                                    PlanTree::Join {
                                        left: Box::new(l),
                                        right: Box::new(r),
                                        join_type: join.join_type,
                                        on: join.on,
                                    },
                                )
                            },
                            state: right.state,
                        },
                    }
                },
            }
        },
        Relation::Apply(join) => if join.on_has_subquery {
            Planned { result: Err(PlanError::SubqueryInJoin), state }
        } else {
            let next = PlannerState {
                next_correlated_id: state.next_correlated_id + 1,
                ..state
            };
            let left = planned(join.left, next);
            match left.result {
                Err(e) => Planned { result: Err(e), state: left.state },
                Ok(l) => {
                    let right = planned(join.right, left.state);
                    match right.result {
                        Err(e) => Planned { result: Err(e), state: right.state },
                        Ok(r) => Planned {
                            result: Ok(
                                PlanTree::Apply {
                                    outer: Box::new(l),
                                    inner: Box::new(r),
                                    apply_type: join.join_type,
                                    apply_on: join.on,
                                    correlated_id: state.next_correlated_id as u32,
                                    correlated_indices: join.correlated_indices@,
                                },
                            ),
                            state: right.state,
                        },
                    }
                },
            }
        },
        Relation::WindowTableFunction(window) => match window.kind {
            WindowTableFunctionKind::Tumble => match tumble_types(window.input) {
                None => Planned { result: Err(PlanError::InvalidTumbleInput), state },
                Some(types) => match tumble_args(window.args@) {
                    None => Planned { result: Err(PlanError::WindowSizeArg), state },
                    Some((size, offset)) => match window.typed {
                        Err(e) => Planned { result: Err(PlanError::Other(e)), state },
                        Ok(_) => {
                            let input = planned(window.input, state);
                            Planned {
                                result: match input.result {
                                    Err(e) => Err(e),
                                    Ok(plan) => Ok(
                                        PlanTree::Project {
                                            input: Box::new(plan),
                                            exprs: tumble_exprs(
                                                types,
                                                window.time_col,
                                                size,
                                                offset,
                                            ),
                                        },
                                    ),
                                },
                                state: input.state,
                            }
                        },
                    },
                },
            },
            WindowTableFunctionKind::Hop => {
                let input = planned(window.input, state);
                Planned {
                    result: match input.result {
                        Err(e) => Err(e),
                        Ok(plan) => match hop_args(window.args@, window.divides) {
                            Err(e) => Err(e),
                            Ok((slide, size, offset)) => Ok(
                                PlanTree::HopWindow {
                                    rows: Box::new(plan),
                                    time_col: window.time_col,
                                    slide,
                                    size,
                                    offset,
                                },
                            ),
                        },
                    },
                    state: input.state,
                }
            },
        },
        Relation::Source(source) => Planned { result: source_plan(source), state },
        Relation::TableFunction { function, with_ordinality } => Planned {
            result: Ok(table_function_plan(function, with_ordinality)),
            state,
        },
        Relation::Watermark => Planned { result: Err(PlanError::Other(0)), state },
        Relation::Share { share_id, input } => share_plan(share_id, input, state),
        Relation::BackCteRef { cte_share_id, base } => Planned {
            result: match base {
                Ok(base) => Ok(PlanTree::CteRef { share_id: cte_share_id, base }),
                Err(e) => Err(PlanError::Other(e)),
            },
            state,
        },
    }
}

/// Planning comes to no watermark: how one is planned is not settled. What comes after an error does not count.
pub open spec fn plannable(relation: Relation, state: PlannerState) -> bool
    decreases relation,
{
    match relation {
        Relation::Watermark => false,
        Relation::Join(join) => {
            let left = planned(join.left, state);
            plannable(join.left, state) && (left.result is Ok ==> plannable(join.right, left.state))
        },
        Relation::Apply(join) => {
            let next = PlannerState {
                next_correlated_id: state.next_correlated_id + 1,
                ..state
            };
            let left = planned(join.left, next);
            plannable(join.left, next) && (left.result is Ok ==> plannable(join.right, left.state))
        },
        Relation::WindowTableFunction(window) => match window.kind {
            WindowTableFunctionKind::Tumble => tumble_types(window.input) is Some && tumble_args(
                window.args@,
            ) is Some && window.typed is Ok ==> plannable(window.input, state),
            WindowTableFunctionKind::Hop => plannable(window.input, state),
        },
        Relation::TableFunction {
            function: TableExpr::Other { expr, return_type, fields: Some(types) },
            with_ordinality,
        } => types@.len() <= i32::MAX,
        _ => true,
    }
}

/// How many relations in the relation use columns of another.
pub open spec fn applies(relation: Relation) -> nat
    decreases relation,
{
    match relation {
        Relation::Join(join) => applies(join.left) + applies(join.right),
        Relation::Apply(join) => 1 + applies(join.left) + applies(join.right),
        Relation::WindowTableFunction(window) => applies(window.input),
        _ => 0,
    }
}

/// Plans queries.
#[derive(Debug)]
pub struct Planner {
    /// The plans of the queries that are shared.
    pub share_cache: BTreeMap<u64, u64>,
    /// The number of the next relation that uses columns of another.
    pub next_correlated_id: u32,
}

impl View for Planner {
    type V = PlannerState;

    open spec fn view(&self) -> PlannerState {
        PlannerState {
            shared: self.share_cache@,
            next_correlated_id: self.next_correlated_id as int,
        }
    }
}

/// The plan is what planning gives.
pub open spec fn gives(res: Result<Plan, PlanError>, expected: Result<PlanTree, PlanError>) -> bool {
    match res {
        Ok(plan) => expected == Ok::<PlanTree, PlanError>(tree(plan)),
        Err(e) => expected == Err::<PlanTree, PlanError>(e),
    }
}

/// Each relation that uses columns of another takes one number, and no number is taken otherwise.
pub proof fn lemma_ids_taken(relation: Relation, state: PlannerState)
    ensures
        state.next_correlated_id <= planned(relation, state).state.next_correlated_id
            <= state.next_correlated_id + applies(relation),
        planned(relation, state).result is Ok ==> planned(relation, state).state.next_correlated_id
            == state.next_correlated_id + applies(relation),
    decreases relation,
{
    match relation {
        Relation::Join(join) => {
            lemma_ids_taken(join.left, state);
            let left = planned(join.left, state);
            lemma_ids_taken(join.right, left.state);
        },
        Relation::Apply(join) => {
            let next = PlannerState {
                next_correlated_id: state.next_correlated_id + 1,
                ..state
            };
            lemma_ids_taken(join.left, next);
            let left = planned(join.left, next);
            lemma_ids_taken(join.right, left.state);
        },
        Relation::WindowTableFunction(window) => {
            lemma_ids_taken(window.input, state);
        },
        _ => {},
    }
}

/// A plan that is shared stays shared, whatever is planned after it.
pub proof fn lemma_shared_stays(relation: Relation, state: PlannerState, share_id: u64)
    requires
        state.shared.dom().contains(share_id),
    ensures
        planned(relation, state).state.shared.dom().contains(share_id),
        planned(relation, state).state.shared[share_id] == state.shared[share_id],
    decreases relation,
{
    match relation {
        Relation::Join(join) => {
            lemma_shared_stays(join.left, state, share_id);
            let left = planned(join.left, state);
            lemma_shared_stays(join.right, left.state, share_id);
        },
        Relation::Apply(join) => {
            let next = PlannerState {
                next_correlated_id: state.next_correlated_id + 1,
                ..state
            };
            lemma_shared_stays(join.left, next, share_id);
            let left = planned(join.left, next);
            lemma_shared_stays(join.right, left.state, share_id);
        },
        Relation::WindowTableFunction(window) => {
            lemma_shared_stays(window.input, state, share_id);
        },
        _ => {},
    }
}

/// A shared query is planned once: once it was planned, every use of it gives the same plan, whatever was
/// planned in between.
pub proof fn lemma_shared_once(
    share_id: u64,
    query: BoundQuery,
    state: PlannerState,
    between: Relation,
    again: BoundQuery,
)
    requires
        share_plan(share_id, ShareInput::Query(query), state).result is Ok,
    ensures
        ({
            let first = share_plan(share_id, ShareInput::Query(query), state);
            let later = planned(between, first.state).state;
            let second = share_plan(share_id, ShareInput::Query(again), later);
            second.result == first.result && second.state == later
        }),
{
    let first = share_plan(share_id, ShareInput::Query(query), state);
    assert(first.state.shared.dom().contains(share_id));
    lemma_shared_stays(between, first.state, share_id);
}

/// Copies columns.
fn copy_columns(columns: &Vec<usize>) -> (res: Vec<usize>)
    ensures
        res@ == columns@,
{
    let mut res: Vec<usize> = Vec::new();
    let mut i: usize = 0;
    while i < columns.len()
        invariant
            i <= columns.len(),
            res@ == columns@.take(i as int),
        decreases columns.len() - i,
    {
        res.push(columns[i]);
        i = i + 1;
        assert(res@ =~= columns@.take(i as int));
    }
    assert(columns@.take(i as int) =~= columns@);
    res
}

impl Planner {
    /// Nothing was planned yet.
    pub fn new() -> (res: Planner)
        ensures
            res@.shared == Map::<u64, u64>::empty(),
            res@.next_correlated_id == 0,
    {
        Planner { share_cache: BTreeMap::new(), next_correlated_id: 0 }
    }

    /// Plans a relation.
    pub fn plan_relation(&mut self, relation: &Relation) -> (res: Result<Plan, PlanError>)
        requires
            plannable(*relation, old(self)@),
            old(self).next_correlated_id + applies(*relation) <= u32::MAX,
        ensures
            gives(res, planned(*relation, old(self)@).result),
            final(self)@ == planned(*relation, old(self)@).state,
        decreases relation,
    {
        match relation {
            Relation::BaseTable { table, table_as_of, data_types: _ } => Planner::plan_base_table(
                *table,
                *table_as_of,
            ),
            Relation::SystemTable { table } => Ok(Plan::SysScan { sys_table: *table }),
            Relation::Subquery(query) => match query.planned {
                Ok(query) => Ok(Plan::Query { query }),
                Err(e) => Err(PlanError::Other(e)),
            },
            Relation::Join(join) => self.plan_join(join),
            Relation::Apply(join) => self.plan_apply(join),
            Relation::WindowTableFunction(window) => match window.kind {
                WindowTableFunctionKind::Tumble => self.plan_tumble_window(window),
                WindowTableFunctionKind::Hop => self.plan_hop_window(window),
            },
            Relation::Source(source) => Planner::plan_source(source),
            Relation::TableFunction { function, with_ordinality } => Ok(
                Planner::plan_table_function(function, *with_ordinality),
            ),
            Relation::Watermark => Err(PlanError::Other(0)),
            Relation::Share { share_id, input } => self.plan_share(*share_id, input),
            Relation::BackCteRef { cte_share_id, base } => match base {
                Ok(base) => Ok(Plan::CteRef { share_id: *cte_share_id, base: *base }),
                Err(e) => Err(PlanError::Other(*e)),
            },
        }
    }

    fn plan_base_table(table: u32, as_of: Option<AsOf>) -> (res: Result<Plan, PlanError>)
        ensures
            gives(res, base_table_plan(table, as_of)),
    {
        match as_of {
            None | Some(AsOf::ProcessTime) => Ok(Plan::Scan { table, as_of }),
            Some(AsOf::TimestampString(_)) | Some(AsOf::TimestampNum(_)) => Err(
                PlanError::AsOfTimestamp,
            ),
            Some(AsOf::VersionNum(_)) | Some(AsOf::VersionString(_)) => Err(
                PlanError::AsOfVersion,
            ),
        }
    }

    fn plan_source(source: &BoundSource) -> (res: Result<Plan, PlanError>)
        ensures
            gives(res, source_plan(*source)),
    {
        if source.is_shareable_cdc_connector {
            return Err(PlanError::SharedCdcSource);
        }
        match source.as_of {
            Some(AsOf::ProcessTime) => Err(PlanError::AsOfProcessTime),
            Some(AsOf::VersionString(_)) => Err(PlanError::AsOfVersion),
            _ => match source.created {
                Ok(_) => Ok(Plan::Source { source: source.source, source_as_of: source.as_of }),
                Err(e) => Err(PlanError::Other(e)),
            },
        }
    }

    fn plan_join(&mut self, join: &Box<BoundJoin>) -> (res: Result<Plan, PlanError>)
        requires
            plannable(Relation::Join(*join), old(self)@),
            old(self).next_correlated_id + applies(Relation::Join(*join)) <= u32::MAX,
        ensures
            gives(res, planned(Relation::Join(*join), old(self)@).result),
            final(self)@ == planned(Relation::Join(*join), old(self)@).state,
        decreases join,
    {
        proof {
            lemma_ids_taken(join.left, self@);
        }
        let left = match self.plan_relation(&join.left) {
            Ok(plan) => plan,
            Err(e) => {
                return Err(e);
            },
        };
        let right = match self.plan_relation(&join.right) {
            Ok(plan) => plan,
            Err(e) => {
                return Err(e);
            },
        };
        if join.on_has_subquery {
            Err(PlanError::SubqueryInJoin)
        } else {
            Ok(
                Plan::Join {
                    left: Box::new(left),
                    right: Box::new(right),
                    join_type: join.join_type,
                    on: join.on,
                },
            )
        }
    }

    fn plan_apply(&mut self, join: &Box<BoundJoin>) -> (res: Result<Plan, PlanError>)
        requires
            plannable(Relation::Apply(*join), old(self)@),
            old(self).next_correlated_id + applies(Relation::Apply(*join)) <= u32::MAX,
        ensures
            gives(res, planned(Relation::Apply(*join), old(self)@).result),
            final(self)@ == planned(Relation::Apply(*join), old(self)@).state,
        decreases join,
    {
        if join.on_has_subquery {
            return Err(PlanError::SubqueryInJoin);
        }
        let correlated_id: u32 = self.next_correlated_id;
        self.next_correlated_id = correlated_id + 1;
        proof {
            lemma_ids_taken(join.left, self@);
        }
        let left = match self.plan_relation(&join.left) {
            Ok(plan) => plan,
            Err(e) => {
                return Err(e);
            },
        };
        let right = match self.plan_relation(&join.right) {
            Ok(plan) => plan,
            Err(e) => {
                return Err(e);
            },
        };
        Ok(
            Plan::Apply {
                outer: Box::new(left),
                inner: Box::new(right),
                apply_type: join.join_type,
                apply_on: join.on,
                correlated_id,
                correlated_indices: copy_columns(&join.correlated_indices),
            },
        )
    }

    fn plan_table_function(function: &TableExpr, with_ordinality: bool) -> (res: Plan)
        requires
            match *function {
                TableExpr::Other { expr, return_type, fields: Some(types) } => types@.len()
                    <= i32::MAX,
                _ => true,
            },
        ensures
            tree(res) == table_function_plan(*function, with_ordinality),
    {
        match function {
            TableExpr::TableFunction(f) => Plan::TableFunction { function: *f, with_ordinality },
            TableExpr::Other { expr, return_type, fields } => {
                let mut exprs: Vec<OutExpr> = Vec::new();
                match fields {
                    Some(types) => {
                        let mut i: usize = 0;
                        while i < types.len()
                            invariant
                                i <= types.len(),
                                exprs@ == Seq::new(
                                    i as nat,
                                    |j: int|
                                        OutExpr::Field { index: j as usize, data_type: types@[j] },
                                ),
                            decreases types.len() - i,
                        {
                            exprs.push(OutExpr::Field { index: i, data_type: types[i] });
                            i = i + 1;
                            assert(exprs@ =~= Seq::new(
                                i as nat,
                                |j: int|
                                    OutExpr::Field { index: j as usize, data_type: types@[j] },
                            ));
                        }
                    },
                    None => {
                        exprs.push(
                            OutExpr::InputRef(InputRef { index: 0, data_type: *return_type }),
                        );
                        assert(exprs@ =~= seq![
                            OutExpr::InputRef(InputRef { index: 0, data_type: *return_type }),
                        ]);
                    },
                }
                if with_ordinality {
                    exprs.push(OutExpr::Bigint(1));
                }
                let plan = Plan::Project { input: Box::new(Plan::Values { expr: *expr }), exprs };
                assert(tree(Plan::Values { expr: *expr }) == PlanTree::Values { expr: *expr });
                plan
            },
        }
    }

    fn plan_share(&mut self, share_id: u64, input: &ShareInput) -> (res: Result<Plan, PlanError>)
        ensures
            gives(res, share_plan(share_id, *input, old(self)@).result),
            final(self)@ == share_plan(share_id, *input, old(self)@).state,
    {
        match input {
            ShareInput::Query(query) => {
                match self.share_cache.get(&share_id) {
                    Some(shared) => {
                        return Ok(Plan::Share { shared: *shared });
                    },
                    None => {},
                }
                match query.planned {
                    Ok(shared) => {
                        self.share_cache.insert(share_id, shared);
                        Ok(Plan::Share { shared })
                    },
                    Err(e) => Err(PlanError::Other(e)),
                }
            },
            ShareInput::Recursive(query) => match query.planned {
                Ok(union) => Ok(Plan::RecursiveUnion { union }),
                Err(e) => Err(PlanError::Other(e)),
            },
        }
    }

    /// The types of the columns of a relation whose rows can be put into windows that do not overlap.
    fn collect_col_data_types_for_tumble_window(relation: &Relation) -> (res: Option<&Vec<SqlType>>)
        ensures
            match res {
                Some(types) => tumble_types(*relation) == Some(types@),
                None => tumble_types(*relation) is None,
            },
    {
        match relation {
            Relation::Source(source) => Some(&source.data_types),
            Relation::BaseTable { table: _, table_as_of: _, data_types } => Some(data_types),
            Relation::Subquery(query) => Some(&query.data_types),
            Relation::Share { share_id: _, input } => match input {
                ShareInput::Query(query) => Some(&query.data_types),
                ShareInput::Recursive(query) => Some(&query.data_types),
            },
            _ => None,
        }
    }

    fn plan_tumble_window(&mut self, window: &Box<BoundWindowTableFunction>) -> (res: Result<
        Plan,
        PlanError,
    >)
        requires
            window.kind == WindowTableFunctionKind::Tumble,
            plannable(Relation::WindowTableFunction(*window), old(self)@),
            old(self).next_correlated_id + applies(window.input) <= u32::MAX,
        ensures
            gives(res, planned(Relation::WindowTableFunction(*window), old(self)@).result),
            final(self)@ == planned(Relation::WindowTableFunction(*window), old(self)@).state,
        decreases window,
    {
        let types = match Planner::collect_col_data_types_for_tumble_window(&window.input) {
            Some(types) => types,
            None => {
                return Err(PlanError::InvalidTumbleInput);
            },
        };
        let (size, offset): (WindowArg, Option<WindowArg>) = if window.args.len() == 1
            && !matches!(window.args[0], WindowArg::Other(_)) {
            (window.args[0], None)
        } else if window.args.len() == 2 && !matches!(window.args[0], WindowArg::Other(_))
            && !matches!(window.args[1], WindowArg::Other(_)) {
            (window.args[0], Some(window.args[1]))
        } else {
            return Err(PlanError::WindowSizeArg);
        };
        match window.typed {
            Ok(_) => {},
            Err(e) => {
                return Err(PlanError::Other(e));
            },
        }
        let time_col = window.time_col;
        let mut exprs: Vec<OutExpr> = Vec::new();
        let mut i: usize = 0;
        while i < types.len()
            invariant
                i <= types.len(),
                exprs@ == Seq::new(
                    i as nat,
                    |j: int| OutExpr::InputRef(InputRef { index: j as usize, data_type: types@[j] }),
                ),
            decreases types.len() - i,
        {
            exprs.push(OutExpr::InputRef(InputRef { index: i, data_type: types[i] }));
            i = i + 1;
            assert(exprs@ =~= Seq::new(
                i as nat,
                |j: int| OutExpr::InputRef(InputRef { index: j as usize, data_type: types@[j] }),
            ));
        }
        exprs.push(OutExpr::TumbleStart { time_col, size, offset });
        exprs.push(OutExpr::TumbleEnd { time_col, size, offset });
        assert(exprs@ =~= tumble_exprs(types@, time_col, size, offset));
        match self.plan_relation(&window.input) {
            Ok(plan) => Ok(Plan::Project { input: Box::new(plan), exprs }),
            Err(e) => Err(e),
        }
    }

    /// The distance, the size and the offset of windows that may overlap.
    fn read_hop_args(args: &Vec<WindowArg>, divides: bool) -> (res: Result<
        (Interval, Interval, Interval),
        PlanError,
    >)
        ensures
            res == hop_args(args@, divides),
    {
        if args.len() < 2 || args.len() > 3 {
            return Err(PlanError::WindowSizeArg);
        }
        let (slide, size) = match (args[0], args[1]) {
            (WindowArg::Interval(slide), WindowArg::Interval(size)) => (slide, size),
            _ => {
                return Err(PlanError::WindowSizeArg);
            },
        };
        let offset = if args.len() == 2 {
            Interval { months: 0, days: 0, usecs: 0, positive: false }
        } else {
            match args[2] {
                WindowArg::Interval(offset) => offset,
                _ => {
                    return Err(PlanError::WindowSizeArg);
                },
            }
        };
        if !size.positive || !slide.positive {
            return Err(PlanError::NotPositive { size, slide });
        }
        if !divides {
            return Err(PlanError::NotDivisible { size, slide });
        }
        Ok((slide, size, offset))
    }

    fn plan_hop_window(&mut self, window: &Box<BoundWindowTableFunction>) -> (res: Result<
        Plan,
        PlanError,
    >)
        requires
            window.kind == WindowTableFunctionKind::Hop,
            plannable(Relation::WindowTableFunction(*window), old(self)@),
            old(self).next_correlated_id + applies(window.input) <= u32::MAX,
        ensures
            gives(res, planned(Relation::WindowTableFunction(*window), old(self)@).result),
            final(self)@ == planned(Relation::WindowTableFunction(*window), old(self)@).state,
        decreases window,
    {
        let rows = match self.plan_relation(&window.input) {
            Ok(plan) => plan,
            Err(e) => {
                return Err(e);
            },
        };
        match Planner::read_hop_args(&window.args, window.divides) {
            Ok((slide, size, offset)) => Ok(
                Plan::HopWindow {
                    rows: Box::new(rows),
                    time_col: window.time_col,
                    slide,
                    size,
                    offset,
                },
            ),
            Err(e) => Err(e),
        }
    }
}

} // verus!
