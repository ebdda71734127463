//! How a plan mirrors the relation that it was made of.
use crate::frontend::planner::{lemma_ids_taken, lemma_shared_stays, planned, tree};
use crate::frontend::planner::{AsOf, BoundJoin, BoundWindowTableFunction, Interval, OutExpr, InputRef};
use crate::frontend::planner::{Plan, PlanError, PlanTree, Planner, PlannerState, Relation, ShareInput};
use crate::frontend::planner::{TableExpr, WindowArg, WindowTableFunctionKind};
use crate::frontend::types::SqlType;
use vstd::prelude::*;

verus! {

broadcast use {vstd::std_specs::btree::group_btree_axioms, vstd::laws_cmp::group_laws_cmp};

/// The columns of rows in windows that do not overlap: every column of the input, in order and with its type,
/// and after them the start and the end of the window.
pub open spec fn window_columns(
    exprs: Seq<OutExpr>,
    types: Seq<SqlType>,
    window: BoundWindowTableFunction,
) -> bool {
    let args = window.args@;
    let offset = if args.len() == 2 {
        Some(args[1])
    } else {
        None
    };
    &&& 1 <= args.len() <= 2
    &&& forall|i: int| 0 <= i < args.len() ==> !(#[trigger] args[i] is Other)
    &&& exprs.len() == types.len() + 2
    &&& forall|i: int|
        0 <= i < types.len() ==> (#[trigger] exprs[i]) == OutExpr::InputRef(
            InputRef { index: i as usize, data_type: types[i] },
        )
    &&& exprs[types.len() as int] == (OutExpr::TumbleStart {
        time_col: window.time_col,
        size: args[0],
        offset,
    })
    &&& exprs[types.len() as int + 1] == (OutExpr::TumbleEnd {
        time_col: window.time_col,
        size: args[0],
        offset,
    })
}

/// The plan is one of the relation: the plan of a join has the plan of the left relation on its left and that
/// of the right relation on its right, and every part reads what the part of the relation names.
pub open spec fn mirrors(relation: Relation, plan: Plan) -> bool
    decreases relation,
{
    match relation {
        Relation::BaseTable { table, table_as_of, data_types } => match plan {
            Plan::Scan { table: t, as_of } => t == table && as_of == table_as_of && (as_of is None
                || as_of == Some(AsOf::ProcessTime)),
            _ => false,
        },
        Relation::SystemTable { table } => match plan {
            Plan::SysScan { sys_table } => sys_table == table,
            _ => false,
        },
        Relation::Subquery(query) => match plan {
            Plan::Query { query: q } => query.planned == Ok::<u64, u32>(q),
            _ => false,
        },
        Relation::Join(join) => match plan {
            Plan::Join { left, right, join_type, on } => {
                &&& mirrors(join.left, *left)
                &&& mirrors(join.right, *right)
                &&& join_type == join.join_type
                &&& on == join.on
                &&& !join.on_has_subquery
            },
            _ => false,
        },
        Relation::Apply(join) => match plan {
            Plan::Apply { outer, inner, apply_type, apply_on, correlated_id, correlated_indices } => {
                &&& mirrors(join.left, *outer)
                &&& mirrors(join.right, *inner)
                &&& apply_type == join.join_type
                &&& apply_on == join.on
                &&& correlated_indices@ == join.correlated_indices@
                &&& !join.on_has_subquery
            },
            _ => false,
        },
        Relation::WindowTableFunction(window) => match window.kind {
            WindowTableFunctionKind::Tumble => match plan {
                Plan::Project { input, exprs } => {
                    &&& mirrors(window.input, *input)
                    &&& window.typed is Ok
                    &&& match window.input {
                        Relation::Source(source) => window_columns(
                            exprs@,
                            source.data_types@,
                            *window,
                        ),
                        Relation::BaseTable { table, table_as_of, data_types } => window_columns(
                            exprs@,
                            data_types@,
                            *window,
                        ),
                        Relation::Subquery(query) => window_columns(
                            exprs@,
                            query.data_types@,
                            *window,
                        ),
                        Relation::Share { share_id, input } => match input {
                            ShareInput::Query(query) => window_columns(
                                exprs@,
                                query.data_types@,
                                *window,
                            ),
                            ShareInput::Recursive(query) => window_columns(
                                exprs@,
                                query.data_types@,
                                *window,
                            ),
                        },
                        _ => false,
                    }
                },
                _ => false,
            },
            WindowTableFunctionKind::Hop => match plan {
                Plan::HopWindow { rows, time_col, slide, size, offset } => {
                    let args = window.args@;
                    &&& mirrors(window.input, *rows)
                    &&& time_col == window.time_col
                    &&& 2 <= args.len() <= 3
                    &&& args[0] == WindowArg::Interval(slide)
                    &&& args[1] == WindowArg::Interval(size)
                    &&& args.len() == 3 ==> args[2] == WindowArg::Interval(offset)
                    &&& args.len() == 2 ==> offset.months == 0 && offset.days == 0 && offset.usecs
                        == 0
                    &&& slide.positive
                    &&& size.positive
                    &&& window.divides
                },
                _ => false,
            },
        },
        Relation::Source(source) => match plan {
            Plan::Source { source: s, source_as_of } => {
                &&& s == source.source
                &&& source_as_of == source.as_of
                &&& source_as_of != Some(AsOf::ProcessTime)
                &&& !(source_as_of matches Some(AsOf::VersionString(_)))
                &&& !source.is_shareable_cdc_connector
                &&& source.created is Ok
            },
            _ => false,
        },
        Relation::TableFunction { function, with_ordinality } => match function {
            TableExpr::TableFunction(f) => match plan {
                Plan::TableFunction { function: g, with_ordinality: w } => g == f && w
                    == with_ordinality,
                _ => false,
            },
            TableExpr::Other { expr, return_type, fields } => match plan {
                Plan::Project { input, exprs } => {
                    let n: int = match fields {
                        Some(types) => types@.len() as int,
                        None => 1,
                    };
                    &&& *input matches Plan::Values { expr: e }
                    &&& e == expr
                    &&& exprs@.len() == n + (if with_ordinality {
                        1int
                    } else {
                        0int
                    })
                    &&& with_ordinality ==> exprs@[n] == OutExpr::Bigint(1)
                    &&& match fields {
                        Some(types) => forall|i: int|
                            0 <= i < n ==> (#[trigger] exprs@[i]) == (OutExpr::Field {
                                index: i as usize,
                                data_type: types@[i],
                            }),
                        None => exprs@[0] == OutExpr::InputRef(
                            InputRef { index: 0, data_type: return_type },
                        ),
                    }
                },
                _ => false,
            },
        },
        Relation::Watermark => false,
        Relation::Share { share_id, input } => match input {
            ShareInput::Query(query) => plan is Share,
            ShareInput::Recursive(query) => match plan {
                Plan::RecursiveUnion { union } => query.planned == Ok::<u64, u32>(union),
                _ => false,
            },
        },
        Relation::BackCteRef { cte_share_id, base } => match plan {
            Plan::CteRef { share_id, base: b } => share_id == cte_share_id && base == Ok::<
                u64,
                u32,
            >(b),
            _ => false,
        },
    }
}

#[verifier::rlimit(40)]
proof fn lemma_mirrored(relation: Relation, state: PlannerState, plan: Plan)
    requires
        planned(relation, state).result == Ok::<PlanTree, PlanError>(tree(plan)),
    ensures
        mirrors(relation, plan),
    decreases relation,
{
    match relation {
        Relation::Join(join) => {
            let left = planned(join.left, state);
            match plan {
                Plan::Join { left: l, right: r, join_type, on } => {
                    lemma_mirrored(join.left, state, *l);
                    lemma_mirrored(join.right, left.state, *r);
                },
                _ => {},
            }
        },
        Relation::Apply(join) => {
            let next = PlannerState {
                next_correlated_id: state.next_correlated_id + 1,
                ..state
            };
            let left = planned(join.left, next);
            match plan {
                Plan::Apply {
                    outer,
                    inner,
                    apply_type,
                    apply_on,
                    correlated_id,
                    correlated_indices,
                } => {
                    lemma_mirrored(join.left, next, *outer);
                    lemma_mirrored(join.right, left.state, *inner);
                },
                _ => {},
            }
        },
        Relation::WindowTableFunction(window) => match window.kind {
            WindowTableFunctionKind::Tumble => {
                match plan {
                    Plan::Project { input, exprs } => {
                        lemma_mirrored(window.input, state, *input);
                    },
                    _ => {},
                }
            },
            WindowTableFunctionKind::Hop => {
                match plan {
                    Plan::HopWindow { rows, time_col, slide, size, offset } => {
                        lemma_mirrored(window.input, state, *rows);
                    },
                    _ => {},
                }
            },
        },
        Relation::TableFunction { function, with_ordinality } => {
            match plan {
                Plan::Project { input, exprs } => {
                    match *input {
                        Plan::Values { expr } => {},
                        _ => {},
                    }
                },
                _ => {},
            }
        },
        _ => {},
    }
}

/// A relation that is planned is mirrored by its plan, part by part.
pub proof fn lemma_plan_mirrors(planner: &mut Planner, relation: &Relation, plan: Plan)
    requires
        call_ensures(Planner::plan_relation, (planner, relation), Ok::<Plan, PlanError>(plan)),
    ensures
        mirrors(*relation, plan),
{
    lemma_mirrored(*relation, old(planner)@, plan);
}

/// The tables that a relation reads, from left to right.
pub open spec fn tables_of(relation: Relation) -> Seq<u32>
    decreases relation,
{
    match relation {
        Relation::BaseTable { table, table_as_of, data_types } => seq![table],
        Relation::Join(join) => tables_of(join.left) + tables_of(join.right),
        Relation::Apply(join) => tables_of(join.left) + tables_of(join.right),
        Relation::WindowTableFunction(window) => tables_of(window.input),
        _ => Seq::empty(),
    }
}

/// The tables that a plan scans, from left to right.
pub open spec fn scanned(plan: Plan) -> Seq<u32>
    decreases plan,
{
    match plan {
        Plan::Scan { table, as_of } => seq![table],
        Plan::Join { left, right, join_type, on } => scanned(*left) + scanned(*right),
        Plan::Apply { outer, inner, apply_type, apply_on, correlated_id, correlated_indices } => scanned(
            *outer,
        ) + scanned(*inner),
        Plan::Project { input, exprs } => scanned(*input),
        Plan::HopWindow { rows, time_col, slide, size, offset } => scanned(*rows),
        _ => Seq::empty(),
    }
}

proof fn lemma_scanned(relation: Relation, plan: Plan)
    requires
        mirrors(relation, plan),
    ensures
        scanned(plan) == tables_of(relation),
    decreases relation,
{
    match relation {
        Relation::Join(join) => {
            match plan {
                Plan::Join { left, right, join_type, on } => {
                    lemma_scanned(join.left, *left);
                    lemma_scanned(join.right, *right);
                },
                _ => {},
            }
        },
        Relation::Apply(join) => {
            match plan {
                Plan::Apply {
                    outer,
                    inner,
                    apply_type,
                    apply_on,
                    correlated_id,
                    correlated_indices,
                } => {
                    lemma_scanned(join.left, *outer);
                    lemma_scanned(join.right, *inner);
                },
                _ => {},
            }
        },
        Relation::WindowTableFunction(window) => match window.kind {
            WindowTableFunctionKind::Tumble => {
                match plan {
                    Plan::Project { input, exprs } => {
                        lemma_scanned(window.input, *input);
                    },
                    _ => {},
                }
            },
            WindowTableFunctionKind::Hop => {
                match plan {
                    Plan::HopWindow { rows, time_col, slide, size, offset } => {
                        lemma_scanned(window.input, *rows);
                    },
                    _ => {},
                }
            },
        },
        Relation::TableFunction { function, with_ordinality } => {
            match plan {
                Plan::Project { input, exprs } => {
                    assert(*input is Values);
                    assert(scanned(*input) =~= Seq::empty());
                },
                _ => {},
            }
        },
        _ => {},
    }
}

/// The tables that a plan scans from left to right are those of the relation from left to right.
pub proof fn lemma_tables_in_order(planner: &mut Planner, relation: &Relation, plan: Plan)
    requires
        call_ensures(Planner::plan_relation, (planner, relation), Ok::<Plan, PlanError>(plan)),
    ensures
        scanned(plan) == tables_of(*relation),
{
    lemma_plan_mirrors(planner, relation, plan);
    lemma_scanned(*relation, plan);
}

/// The left relation of a join is planned first and the right one after it. A join that is planned has the
/// plan of the left relation on its left and that of the right relation on its right; it fails as the first of
/// them that fails, and else if its condition holds a query, and only there.
pub proof fn lemma_join_of_plans(
    planner: &mut Planner,
    join: Box<BoundJoin>,
    relation: &Relation,
    res: Result<Plan, PlanError>,
    first: &mut Planner,
    left: Result<Plan, PlanError>,
    second: &mut Planner,
    right: Result<Plan, PlanError>,
)
    requires
        *relation == Relation::Join(join),
        call_ensures(Planner::plan_relation, (planner, relation), res),
        old(first)@ == old(planner)@,
        call_ensures(Planner::plan_relation, (first, &join.left), left),
        old(second)@ == final(first)@,
        call_ensures(Planner::plan_relation, (second, &join.right), right),
    ensures
        match (left, right) {
            (Err(e), _) => res == Err::<Plan, PlanError>(e) && final(planner)@ == final(first)@,
            (Ok(_), Err(e)) => res == Err::<Plan, PlanError>(e) && final(planner)@ == final(second)@,
            (Ok(l), Ok(r)) => {
                &&& final(planner)@ == final(second)@
                &&& join.on_has_subquery ==> res == Err::<Plan, PlanError>(
                    PlanError::SubqueryInJoin,
                )
                &&& !join.on_has_subquery ==> match res {
                    Ok(Plan::Join { left: a, right: b, join_type, on }) => tree(*a) == tree(l)
                        && tree(*b) == tree(r) && join_type == join.join_type && on == join.on,
                    _ => false,
                }
            },
        },
{
    match res {
        Ok(plan) => {
            match plan {
                Plan::Join { left: a, right: b, join_type, on } => {},
                _ => {},
            }
        },
        Err(_) => {},
    }
}

/// A relation that uses columns of another: its number is the next free one, and it is taken before the two
/// relations are planned, the left one first. It is refused at once if its condition holds a query.
pub proof fn lemma_apply_of_plans(
    planner: &mut Planner,
    join: Box<BoundJoin>,
    relation: &Relation,
    res: Result<Plan, PlanError>,
    first: &mut Planner,
    left: Result<Plan, PlanError>,
    second: &mut Planner,
    right: Result<Plan, PlanError>,
)
    requires
        *relation == Relation::Apply(join),
        call_ensures(Planner::plan_relation, (planner, relation), res),
        old(first)@.shared == old(planner)@.shared,
        old(first)@.next_correlated_id == old(planner)@.next_correlated_id + 1,
        call_ensures(Planner::plan_relation, (first, &join.left), left),
        old(second)@ == final(first)@,
        call_ensures(Planner::plan_relation, (second, &join.right), right),
    ensures
        join.on_has_subquery ==> res == Err::<Plan, PlanError>(PlanError::SubqueryInJoin) && final(planner)@
            == old(planner)@,
        !join.on_has_subquery ==> match (left, right) {
            (Err(e), _) => res == Err::<Plan, PlanError>(e) && final(planner)@ == final(first)@,
            (Ok(_), Err(e)) => res == Err::<Plan, PlanError>(e) && final(planner)@ == final(second)@,
            (Ok(l), Ok(r)) => {
                &&& final(planner)@ == final(second)@
                &&& match res {
                    Ok(
                        Plan::Apply {
                            outer,
                            inner,
                            apply_type,
                            apply_on,
                            correlated_id,
                            correlated_indices,
                        },
                    ) => tree(*outer) == tree(l) && tree(*inner) == tree(r) && apply_type
                        == join.join_type && apply_on == join.on && correlated_id == old(planner).next_correlated_id && correlated_indices@ == join.correlated_indices@,
                    _ => false,
                }
            },
        },
{
    match res {
        Ok(plan) => {
            match plan {
                Plan::Apply {
                    outer,
                    inner,
                    apply_type,
                    apply_on,
                    correlated_id,
                    correlated_indices,
                } => {},
                _ => {},
            }
        },
        Err(_) => {},
    }
}

/// The numbers that a plan holds for relations that use columns of another: that of the whole, those on its
/// left, and those on its right.
pub open spec fn ids_in(plan: Plan) -> Seq<int>
    decreases plan,
{
    match plan {
        Plan::Join { left, right, join_type, on } => ids_in(*left) + ids_in(*right),
        Plan::Apply { outer, inner, apply_type, apply_on, correlated_id, correlated_indices } => seq![
            correlated_id as int,
        ] + ids_in(*outer) + ids_in(*inner),
        Plan::Project { input, exprs } => ids_in(*input),
        Plan::HopWindow { rows, time_col, slide, size, offset } => ids_in(*rows),
        _ => Seq::empty(),
    }
}

#[verifier::rlimit(40)]
proof fn lemma_ids_in(relation: Relation, state: PlannerState, plan: Plan)
    requires
        planned(relation, state).result == Ok::<PlanTree, PlanError>(tree(plan)),
        0 <= state.next_correlated_id,
        planned(relation, state).state.next_correlated_id <= u32::MAX,
    ensures
        ids_in(plan).len() == planned(relation, state).state.next_correlated_id
            - state.next_correlated_id,
        forall|i: int|
            0 <= i < ids_in(plan).len() ==> #[trigger] ids_in(plan)[i] == state.next_correlated_id
                + i,
    decreases relation,
{
    match relation {
        Relation::Join(join) => {
            let left = planned(join.left, state);
            lemma_ids_taken(join.left, state);
            lemma_ids_taken(join.right, left.state);
            match plan {
                Plan::Join { left: l, right: r, join_type, on } => {
                    lemma_ids_in(join.left, state, *l);
                    lemma_ids_in(join.right, left.state, *r);
                },
                _ => {},
            }
        },
        Relation::Apply(join) => {
            let next = PlannerState {
                next_correlated_id: state.next_correlated_id + 1,
                ..state
            };
            let left = planned(join.left, next);
            lemma_ids_taken(join.left, next);
            lemma_ids_taken(join.right, left.state);
            match plan {
                Plan::Apply {
                    outer,
                    inner,
                    apply_type,
                    apply_on,
                    correlated_id,
                    correlated_indices,
                } => {
                    lemma_ids_in(join.left, next, *outer);
                    lemma_ids_in(join.right, left.state, *inner);
                    assert(correlated_id == state.next_correlated_id);
                },
                _ => {},
            }
        },
        Relation::WindowTableFunction(window) => match window.kind {
            WindowTableFunctionKind::Tumble => {
                match plan {
                    Plan::Project { input, exprs } => {
                        lemma_ids_in(window.input, state, *input);
                    },
                    _ => {},
                }
            },
            WindowTableFunctionKind::Hop => {
                match plan {
                    Plan::HopWindow { rows, time_col, slide, size, offset } => {
                        lemma_ids_in(window.input, state, *rows);
                    },
                    _ => {},
                }
            },
        },
        Relation::TableFunction { function, with_ordinality } => {
            match plan {
                Plan::Project { input, exprs } => {
                    match *input {
                        Plan::Values { expr } => {
                            assert(ids_in(*input) =~= Seq::empty());
                        },
                        _ => {},
                    }
                },
                _ => {},
            }
        },
        _ => {},
    }
}

/// The relations of a plan that use columns of another are numbered one by one from the next free number on,
/// and that number is the first one free after them.
pub proof fn lemma_ids_one_by_one(planner: &mut Planner, relation: &Relation, plan: Plan, i: int)
    requires
        call_ensures(Planner::plan_relation, (planner, relation), Ok::<Plan, PlanError>(plan)),
    ensures
        ids_in(plan).len() == final(planner).next_correlated_id - old(planner).next_correlated_id,
        0 <= i < ids_in(plan).len() ==> ids_in(plan)[i] == old(planner).next_correlated_id + i,
{
    lemma_ids_in(*relation, old(planner)@, plan);
}

/// A shared query is planned as it was before if it was, and nothing is kept anew; else it is planned as the
/// query is, and kept under its number and no other. What is kept stays as it is, whatever is planned.
pub proof fn lemma_share_kept(
    planner: &mut Planner,
    relation: &Relation,
    res: Result<Plan, PlanError>,
    id: u64,
)
    requires
        call_ensures(Planner::plan_relation, (planner, relation), res),
    ensures
        *relation matches Relation::Share { share_id, input } ==> input matches ShareInput::Query(
            query,
        ) ==> if old(planner).share_cache@.dom().contains(share_id) {
            &&& res matches Ok(Plan::Share { shared })
            &&& shared == old(planner).share_cache@[share_id]
            &&& final(planner).share_cache@ == old(planner).share_cache@
        } else {
            match query.planned {
                Ok(plan) => {
                    &&& res matches Ok(Plan::Share { shared })
                    &&& shared == plan
                    &&& final(planner).share_cache@ == old(planner).share_cache@.insert(
                        share_id,
                        plan,
                    )
                },
                Err(e) => res == Err::<Plan, PlanError>(PlanError::Other(e)) && final(planner).share_cache@ == old(planner).share_cache@,
            }
        },
        old(planner).share_cache@.dom().contains(id) ==> final(planner).share_cache@.dom().contains(id)
            && final(planner).share_cache@[id] == old(planner).share_cache@[id],
{
    match res {
        Ok(plan) => {
            match plan {
                Plan::Share { shared } => {},
                _ => {},
            }
        },
        Err(_) => {},
    }
    if old(planner).share_cache@.dom().contains(id) {
        lemma_shared_stays(*relation, old(planner)@, id);
        assert(final(planner)@.shared == final(planner).share_cache@);
    }
}

/// What makes planning a part fail: a table is read as it is now or in the course of the query, and at no other
/// time; a source is not read in the course of the query or by the name of a version, nor directly where it
/// follows a database.
pub proof fn lemma_refused_reads(
    planner: &mut Planner,
    relation: &Relation,
    res: Result<Plan, PlanError>,
)
    requires
        call_ensures(Planner::plan_relation, (planner, relation), res),
    ensures
        *relation matches Relation::BaseTable { table, table_as_of, data_types } ==> match table_as_of {
            None => res is Ok,
            Some(AsOf::ProcessTime) => res is Ok,
            Some(AsOf::TimestampNum(_)) => res == Err::<Plan, PlanError>(PlanError::AsOfTimestamp),
            Some(AsOf::TimestampString(_)) => res == Err::<Plan, PlanError>(
                PlanError::AsOfTimestamp,
            ),
            Some(AsOf::VersionNum(_)) => res == Err::<Plan, PlanError>(PlanError::AsOfVersion),
            Some(AsOf::VersionString(_)) => res == Err::<Plan, PlanError>(PlanError::AsOfVersion),
        },
        *relation matches Relation::Source(source) ==> {
            &&& source.is_shareable_cdc_connector ==> res == Err::<Plan, PlanError>(
                PlanError::SharedCdcSource,
            )
            &&& !source.is_shareable_cdc_connector && source.as_of == Some(AsOf::ProcessTime)
                ==> res == Err::<Plan, PlanError>(PlanError::AsOfProcessTime)
            &&& !source.is_shareable_cdc_connector && (source.as_of matches Some(
                AsOf::VersionString(_),
            )) ==> res == Err::<Plan, PlanError>(PlanError::AsOfVersion)
            &&& !source.is_shareable_cdc_connector && source.as_of != Some(AsOf::ProcessTime) && !(
            source.as_of matches Some(AsOf::VersionString(_))) ==> match source.created {
                Ok(_) => res is Ok,
                Err(e) => res == Err::<Plan, PlanError>(PlanError::Other(e)),
            }
        },
        *relation matches Relation::SystemTable { table } ==> res is Ok,
        *relation matches Relation::Subquery(query) ==> match query.planned {
            Ok(_) => res is Ok,
            Err(e) => res == Err::<Plan, PlanError>(PlanError::Other(e)),
        },
        *relation matches Relation::TableFunction { function, with_ordinality } ==> res is Ok,
        *relation matches Relation::BackCteRef { cte_share_id, base } ==> match base {
            Ok(_) => res is Ok,
            Err(e) => res == Err::<Plan, PlanError>(PlanError::Other(e)),
        },
{
}

/// When rows are put into windows that may overlap: the input is planned, the two or three arguments are
/// intervals, the first two of them positive, and the second can be divided by the first.
pub proof fn lemma_hop_owed(
    planner: &mut Planner,
    relation: &Relation,
    window: Box<BoundWindowTableFunction>,
    res: Result<Plan, PlanError>,
    inner: &mut Planner,
    input: Result<Plan, PlanError>,
)
    requires
        *relation == Relation::WindowTableFunction(window),
        window.kind == WindowTableFunctionKind::Hop,
        call_ensures(Planner::plan_relation, (planner, relation), res),
        old(inner)@ == old(planner)@,
        call_ensures(Planner::plan_relation, (inner, &window.input), input),
    ensures
        ({
            let args = window.args@;
            let intervals = 2 <= args.len() <= 3 && forall|i: int|
                0 <= i < args.len() ==> (#[trigger] args[i]) is Interval;
            &&& input is Err ==> res == Err::<Plan, PlanError>(input->Err_0)
            &&& input is Ok && !intervals ==> res == Err::<Plan, PlanError>(
                PlanError::WindowSizeArg,
            )
            &&& input is Ok && intervals ==> {
                let slide = args[0]->Interval_0;
                let size = args[1]->Interval_0;
                if !size.positive || !slide.positive {
                    res == Err::<Plan, PlanError>(PlanError::NotPositive { size, slide })
                } else if !window.divides {
                    res == Err::<Plan, PlanError>(PlanError::NotDivisible { size, slide })
                } else {
                    res is Ok
                }
            }
        }),
{
    let args = window.args@;
    if args.len() >= 2 {
        assert(args[0] is Interval || !(args[0] is Interval));
        assert(args[1] is Interval || !(args[1] is Interval));
    }
    if args.len() == 3 {
        assert(args[2] is Interval || !(args[2] is Interval));
    }
}

/// When rows are put into windows that do not overlap: the input has known columns, there are one or two
/// arguments that are literals, and the start and the end of a window have types; and then the input has to be
/// planned.
pub proof fn lemma_tumble_owed(
    planner: &mut Planner,
    relation: &Relation,
    window: Box<BoundWindowTableFunction>,
    res: Result<Plan, PlanError>,
    inner: &mut Planner,
    input: Result<Plan, PlanError>,
)
    requires
        *relation == Relation::WindowTableFunction(window),
        window.kind == WindowTableFunctionKind::Tumble,
        call_ensures(Planner::plan_relation, (planner, relation), res),
        old(inner)@ == old(planner)@,
        call_ensures(Planner::plan_relation, (inner, &window.input), input),
    ensures
        ({
            let args = window.args@;
            let known = window.input is Source || window.input is BaseTable || window.input is Subquery
                || window.input is Share;
            let literals = 1 <= args.len() <= 2 && forall|i: int|
                0 <= i < args.len() ==> !((#[trigger] args[i]) is Other);
            &&& !known ==> res == Err::<Plan, PlanError>(PlanError::InvalidTumbleInput)
            &&& known && !literals ==> res == Err::<Plan, PlanError>(PlanError::WindowSizeArg)
            &&& known && literals ==> match window.typed {
                Err(e) => res == Err::<Plan, PlanError>(PlanError::Other(e)),
                Ok(_) => match input {
                    Err(e) => res == Err::<Plan, PlanError>(e),
                    Ok(_) => res is Ok,
                },
            }
        }),
{
    let args = window.args@;
    if args.len() >= 1 {
        assert(args[0] is Other || !(args[0] is Other));
    }
    if args.len() == 2 {
        assert(args[1] is Other || !(args[1] is Other));
    }
    match window.input {
        Relation::Share { share_id, input: shared } => {
            match shared {
                ShareInput::Query(q) => {},
                ShareInput::Recursive(q) => {},
            }
        },
        _ => {},
    }
}

} // verus!
