//! What holds of cursors, parameters, functions written in SQL, contexts of names and the first rows of groups.
use crate::frontend::binder::{BindContext, BindFor, Binder, ContextError};
use crate::frontend::declare_cursor::{check_cursor_unix_millis, cursor_start};
use crate::frontend::declare_cursor::{CursorError, CursorStart, Since};
use crate::frontend::group_topn::{bits_of, first_place};
use crate::frontend::group_topn::{GroupTopNNode, StreamGroupTopN, TopN, TopNInput, TopNLimit};
use crate::frontend::parameters::ParameterTypes;
use crate::frontend::types::{NameMap, SqlType};
use crate::frontend::udf::{
    context_of, decimal, digit, first_bad_arg, name_at, FunctionArg, QueryBody, SelectItem,
    UdfContext, UdfError, UdfStatement, UnnamedArg,
};
use vstd::prelude::*;

verus! {

broadcast use {vstd::std_specs::btree::group_btree_axioms, vstd::laws_cmp::group_laws_cmp};

/// A cursor can start at a time that lies neither ahead nor further back than what is kept.
pub proof fn lemma_start_within_retention(
    unix_millis: u64,
    retention_seconds: u64,
    now: u64,
    res: Result<(), CursorError>,
)
    requires
        call_ensures(check_cursor_unix_millis, (unix_millis, retention_seconds, now), res),
    ensures
        res is Ok <==> now - retention_seconds * 1000 <= unix_millis <= now,
        (res matches Err(CursorError::TooLarge)) <==> unix_millis > now,
        (res matches Err(CursorError::TooSmall)) <==> unix_millis <= now && unix_millis < now
            - retention_seconds * 1000,
{
}

/// A cursor starts at the time that was asked for, now, or as early as both the retention and the age of the
/// subscription allow.
pub proof fn lemma_cursor_starts(
    since: Option<Since>,
    retention_seconds: u64,
    now: u64,
    now_epoch: u64,
    created_at: u64,
    res: Result<Option<CursorStart>, CursorError>,
)
    requires
        call_ensures(cursor_start, (since, retention_seconds, now, now_epoch, created_at), res),
    ensures
        since is None ==> (res matches Ok(None)),
        since == Some(Since::ProcessTime) ==> (res matches Ok(Some(start)) && start
            == CursorStart::Epoch(now_epoch)),
        since == Some(Since::Begin) ==> (res matches Ok(Some(CursorStart::Millis(t))) && t
            >= created_at && t >= now - retention_seconds * 1000 && (t == created_at || t == now
            - retention_seconds * 1000)),
        since matches Some(Since::TimestampMsNum(t)) ==> (if t > now {
            res matches Err(CursorError::TooLarge)
        } else if now - retention_seconds * 1000 > t {
            res matches Err(CursorError::TooSmall)
        } else {
            res matches Ok(Some(start)) && start == CursorStart::Millis(t)
        }),
{
}

/// The type of a parameter that a statement was given with is the one that was given in its place, counted from
/// one.
pub proof fn lemma_given_type_read(
    given_types: Vec<Option<SqlType>>,
    params: ParameterTypes,
    index: u64,
    known: bool,
    read: Option<SqlType>,
)
    requires
        call_ensures(ParameterTypes::new, (given_types,), params),
        1 <= index <= given_types@.len(),
        call_ensures(ParameterTypes::has_infer, (&params, index), known),
        call_ensures(ParameterTypes::read_type, (&params, index), read),
    ensures
        read == given_types@[index - 1],
        known == (given_types@[index - 1] is Some),
{
}

/// A type that was found is the one that is read, and no other parameter changes.
pub proof fn lemma_found_type_read(
    before: &mut ParameterTypes,
    after: ParameterTypes,
    index: u64,
    data_type: SqlType,
    other: u64,
    read: Option<SqlType>,
)
    requires
        call_ensures(ParameterTypes::record_infer_type, (before, index, data_type), ()),
        *final(before) == after,
        call_ensures(ParameterTypes::read_type, (&after, other), read),
    ensures
        other == index ==> read == Some(data_type),
        other != index && old(before)@.dom().contains(other) ==> read == old(before)@[other],
{
}

/// The types come out if the parameters are those from one up to their number: in each place the type of its
/// parameter, and a text where none is known. Otherwise the first place without a parameter is told.
pub proof fn lemma_types_exported(params: &ParameterTypes, res: Result<Vec<SqlType>, u64>, i: u64)
    requires
        call_ensures(ParameterTypes::export, (params,), res),
    ensures
        match res {
            Ok(types) => {
                &&& params@.dom().contains(i) <==> 1 <= i <= types@.len()
                &&& 1 <= i <= types@.len() ==> match params@[i] {
                    Some(t) => types@[i - 1] == t,
                    None => types@[i - 1] == SqlType::Varchar,
                }
            },
            Err(gap) => params@.dom().contains(0) || (gap >= 1 && !params@.dom().contains(gap) && (1
                <= i < gap ==> params@.dom().contains(i))),
        },
        res is Ok ==> !params@.dom().contains(0),
{
    match res {
        Ok(types) => {
            assert(types@.len() == params@.dom().len());
            if 1 <= i <= types@.len() {
                assert(((i - 1) + 1) as u64 == i);
            }
        },
        Err(_) => {},
    }
}

/// The number that the digits write.
pub open spec fn number_of(digits: Seq<char>) -> nat
    decreases digits.len(),
{
    if digits.len() == 0 {
        0
    } else {
        number_of(digits.drop_last()) * 10 + value_of(digits.last())
    }
}

/// The number that a digit writes.
pub open spec fn value_of(c: char) -> nat {
    if '0' <= c <= '9' {
        (c as int - '0' as int) as nat
    } else {
        0
    }
}

proof fn lemma_decimal_read(n: nat)
    ensures
        number_of(decimal(n)) == n,
        decimal(n).len() > 0,
        n > 0 ==> decimal(n)[0] != '0',
    decreases n,
{
    if n < 10 {
        assert(decimal(n) =~= seq![digit(n)]);
        assert(decimal(n).drop_last() =~= Seq::<char>::empty());
        assert(number_of(Seq::<char>::empty()) == 0);
        assert(value_of(digit(n)) == n);
    } else {
        lemma_decimal_read(n / 10);
        let front = decimal(n / 10);
        assert(decimal(n) == front.push(digit(n % 10)));
        assert(decimal(n).drop_last() =~= front);
        assert(value_of(digit(n % 10)) == n % 10);
        assert((n / 10) * 10 + n % 10 == n);
    }
}

/// The parameter in the place goes by the name: its own, or, if it has none, a dollar and the number of the place,
/// counted from one.
pub open spec fn goes_by(names: Seq<String>, place: int, name: Seq<char>) -> bool {
    if names[place]@.len() > 0 {
        names[place]@ == name
    } else {
        name.len() >= 2 && name[0] == '$' && name[1] != '0' && number_of(name.skip(1)) == place + 1
            && name == name_at(names, place)
    }
}

proof fn lemma_goes_by(names: Seq<String>, place: int)
    requires
        0 <= place,
    ensures
        goes_by(names, place, name_at(names, place)),
{
    if names[place]@.len() == 0 {
        let digits = decimal((place + 1) as nat);
        lemma_decimal_read((place + 1) as nat);
        let name = name_at(names, place);
        assert(name =~= seq!['$'] + digits);
        assert(name.skip(1) =~= digits);
        assert(name[1] == digits[0]);
    }
}

proof fn lemma_context_of(args: Seq<FunctionArg>, names: Seq<String>, i: int, e: u64)
    requires
        0 <= i < args.len(),
        args[i] == FunctionArg::Unnamed(UnnamedArg::Expr(e)),
        forall|j: int| i < j < args.len() ==> #[trigger] name_at(names, j) != name_at(names, i),
    ensures
        context_of(args, names).dom().contains(name_at(names, i)),
        context_of(args, names)[name_at(names, i)] == e,
    decreases args.len(),
{
    let n = args.len() - 1;
    if i < n {
        assert(name_at(names, n) != name_at(names, i));
        lemma_context_of(args.drop_last(), names, i, e);
    }
}

proof fn lemma_context_names(args: Seq<FunctionArg>, names: Seq<String>, name: Seq<char>)
    requires
        context_of(args, names).dom().contains(name),
    ensures
        exists|i: int| 0 <= i < args.len() && #[trigger] name_at(names, i) == name,
    decreases args.len(),
{
    if args.len() > 0 {
        let n = args.len() - 1;
        if name_at(names, n) != name {
            lemma_context_names(args.drop_last(), names, name);
        }
    }
}

proof fn lemma_bad_arg(args: Seq<FunctionArg>)
    ensures
        first_bad_arg(args) is None <==> forall|i: int|
            0 <= i < args.len() ==> is_expr(#[trigger] args[i]),
        first_bad_arg(args) matches Some(e) ==> exists|i: int| first_refused(args, i, e),
    decreases args.len(),
{
    if args.len() > 0 {
        let rest = args.drop_last();
        let n = args.len() - 1;
        lemma_bad_arg(rest);
        if first_bad_arg(rest) is Some {
            let e = first_bad_arg(rest)->Some_0;
            let i = choose|i: int| first_refused(rest, i, e);
            assert(first_refused(args, i, e)) by {
                assert(args[i] == rest[i]);
                assert forall|j: int| 0 <= j < i implies is_expr(#[trigger] args[j]) by {
                    assert(args[j] == rest[j]);
                }
            }
            assert(!is_expr(args[i]));
        } else {
            assert forall|j: int| 0 <= j < n implies is_expr(#[trigger] args[j]) by {
                assert(args[j] == rest[j]);
            }
            if first_bad_arg(args) is Some {
                assert(first_refused(args, n, first_bad_arg(args)->Some_0));
                assert(!is_expr(args[n]));
            } else {
                assert forall|j: int| 0 <= j < args.len() implies is_expr(#[trigger] args[j]) by {
                    if j == n {
                        assert(args[j] == args.last());
                    }
                }
            }
        }
    }
}

/// The argument is an expression without a name.
pub open spec fn is_expr(arg: FunctionArg) -> bool {
    arg matches FunctionArg::Unnamed(UnnamedArg::Expr(_))
}

/// The argument is the first that is no expression without a name, and the error says what it is.
pub open spec fn first_refused(args: Seq<FunctionArg>, i: int, e: UdfError) -> bool {
    &&& 0 <= i < args.len()
    &&& forall|j: int| 0 <= j < i ==> is_expr(#[trigger] args[j])
    &&& args[i] == FunctionArg::Named && e == UdfError::NamedArg || args[i]
        == FunctionArg::Unnamed(UnnamedArg::Other) && e == UdfError::NotAnExprArg
}

/// In the context of a call the name of a parameter stands for the expression of its argument, unless a later
/// parameter goes by the same name. A name is known only if a parameter goes by it.
pub proof fn lemma_args_by_name(
    args: &Vec<FunctionArg>,
    names: &Vec<String>,
    res: Result<NameMap, UdfError>,
    context: UdfContext,
    i: int,
    e: u64,
    name: &str,
    found: Option<u64>,
)
    requires
        call_ensures(UdfContext::create_udf_context, (args, names), res),
        res matches Ok(map) && context.udf_param_context == map,
        call_ensures(UdfContext::get_expr, (&context, name), found),
        0 <= i < args@.len(),
        args@[i] == FunctionArg::Unnamed(UnnamedArg::Expr(e)),
    ensures
        goes_by(names@, i, name@) && (forall|j: int|
            i < j < args@.len() ==> !#[trigger] goes_by(names@, j, name@)) ==> found == Some(e),
        found is Some ==> exists|k: int| 0 <= k < args@.len() && #[trigger] goes_by(names@, k, name@),
{
    if goes_by(names@, i, name@) && (forall|j: int|
        i < j < args@.len() ==> !#[trigger] goes_by(names@, j, name@)) {
        assert(name@ == name_at(names@, i));
        assert forall|j: int| i < j < args@.len() implies #[trigger] name_at(names@, j) != name_at(
            names@,
            i,
        ) by {
            lemma_goes_by(names@, j);
            assert(!goes_by(names@, j, name@));
        }
        lemma_context_of(args@, names@, i, e);
    }
    if found is Some {
        lemma_context_names(args@, names@, name@);
        let k = choose|k: int| 0 <= k < args@.len() && #[trigger] name_at(names@, k) == name@;
        lemma_goes_by(names@, k);
        assert(goes_by(names@, k, name@));
    }
}

/// A call is bound if and only if all its arguments are expressions without names; the first that is not decides
/// the error.
pub proof fn lemma_args_bound(
    args: &Vec<FunctionArg>,
    names: &Vec<String>,
    res: Result<NameMap, UdfError>,
)
    requires
        call_ensures(UdfContext::create_udf_context, (args, names), res),
    ensures
        res is Ok <==> forall|i: int| 0 <= i < args@.len() ==> is_expr(#[trigger] args@[i]),
        res matches Err(e) ==> exists|i: int| first_refused(args@, i, e),
{
    lemma_bad_arg(args@);
}

/// A function is defined by an expression if and only if there is one statement, a query that selects that
/// expression alone, without a name.
pub proof fn lemma_defining_expression(ast: &Vec<UdfStatement>, res: Result<u64, UdfError>, e: u64)
    requires
        call_ensures(UdfContext::extract_udf_expression, (ast,), res),
    ensures
        res matches Ok(x) ==> selects_alone(ast@, SelectItem::UnnamedExpr(x)),
        selects_alone(ast@, SelectItem::UnnamedExpr(e)) ==> (res matches Ok(x) && x == e),
        selects_alone(ast@, SelectItem::Other) <==> (res matches Err(UdfError::NotAnUnnamedExpr)),
        ast@.len() != 1 <==> (res matches Err(UdfError::NotOneStatement)),
        (res matches Err(UdfError::NotAQuery)) <==> ast@.len() == 1 && !(ast@[0] is Query),
        (res matches Err(UdfError::NotASelect)) <==> ast@.len() == 1 && ast@[0] is Query && !(
        ast@[0]->Query_0 is Select),
        (res matches Err(UdfError::NotOneItem)) <==> ast@.len() == 1 && ast@[0] is Query
            && ast@[0]->Query_0 is Select && ast@[0]->Query_0->Select_0@.len() != 1,
{
}

/// There is one statement, and it selects that item alone.
pub open spec fn selects_alone(ast: Seq<UdfStatement>, item: SelectItem) -> bool {
    ast.len() == 1 && (ast[0] matches UdfStatement::Query(QueryBody::Select(items)) && items@.len()
        == 1 && items@[0] == item)
}

/// In a nested query no column of the outer one can be used by its name alone, and its named queries can. Coming
/// back from it, whatever happened in it, gives the outer names, the tables to the left and the outer queries back.
pub proof fn lemma_into_query_and_back(
    entering: &mut Binder,
    leaving: &mut Binder,
    res: Result<(), ContextError>,
)
    requires
        call_ensures(Binder::push_context, (entering,), ()),
        old(leaving).upper_subquery_contexts@ == final(entering).upper_subquery_contexts@,
        call_ensures(Binder::pop_context, (leaving,), res),
    ensures
        final(entering).context.columns@.dom() == Set::<Seq<char>>::empty(),
        final(entering).context.cte_to_relation@ == old(entering).context.cte_to_relation@,
        final(entering).context.clause is None,
        final(entering).lateral_contexts@.len() == 0,
        res is Ok,
        final(leaving).context == old(entering).context,
        final(leaving).lateral_contexts == old(entering).lateral_contexts,
        final(leaving).upper_subquery_contexts@ == old(entering).upper_subquery_contexts@,
        final(leaving).next_subquery_id == old(leaving).next_subquery_id,
        final(leaving).shared_views == old(leaving).shared_views,
        final(leaving).param_types == old(leaving).param_types,
        final(leaving).included_relations == old(leaving).included_relations,
{
    assert(final(leaving).upper_subquery_contexts@ =~= old(entering).upper_subquery_contexts@);
}

/// To the right of a table its names cannot be used until the table is marked as one that can be. Coming back gives
/// the tables further left back, and the merged names if there are any.
pub proof fn lemma_right_of_table_and_back(
    entering: &mut Binder,
    marking: &mut Binder,
    leaving: &mut Binder,
    merged: Option<BindContext>,
    res: Result<(), ContextError>,
)
    requires
        call_ensures(Binder::push_lateral_context, (entering,), ()),
        old(marking).lateral_contexts@ == final(entering).lateral_contexts@,
        call_ensures(Binder::try_mark_lateral_as_visible, (marking,), ()),
        old(leaving).lateral_contexts@ == final(marking).lateral_contexts@,
        call_ensures(Binder::pop_and_merge_lateral_context, (leaving, merged), res),
    ensures
        ({
            let n = old(entering).lateral_contexts@.len() as int;
            let right = final(entering).lateral_contexts@;
            let seen = final(marking).lateral_contexts@;
            &&& right.len() == n + 1 && seen.len() == n + 1
            &&& right[n].context == old(entering).context && !right[n].is_visible
            &&& seen[n].context == old(entering).context && seen[n].is_visible
            &&& seen.take(n) == old(entering).lateral_contexts@
            &&& final(leaving).lateral_contexts@ == old(entering).lateral_contexts@
            &&& final(entering).context.cte_to_relation@
                == old(entering).context.cte_to_relation@
            &&& final(entering).context.columns@.dom() == Set::<Seq<char>>::empty()
            &&& match merged {
                Some(context) => res is Ok && final(leaving).context == context,
                None => res matches Err(ContextError::Unmergeable),
            }
        }),
{
    let n = old(entering).lateral_contexts@.len() as int;
    assert(final(marking).lateral_contexts@.take(n) =~= old(entering).lateral_contexts@);
    assert(final(leaving).lateral_contexts@ =~= old(entering).lateral_contexts@);
}

/// There is nothing to come back to before something was entered.
pub proof fn lemma_nothing_to_leave(
    binder: Binder,
    leaving: &mut Binder,
    res: Result<(), ContextError>,
)
    requires
        call_ensures(Binder::new, (), binder),
        *old(leaving) == binder,
        call_ensures(Binder::pop_context, (leaving,), res),
    ensures
        res matches Err(ContextError::NonExistent),
        binder.context.columns@.dom() == Set::<Seq<char>>::empty(),
        binder.context.cte_to_relation@.dom() == Set::<Seq<char>>::empty(),
        binder.included_relations@ == Set::<u32>::empty(),
        binder.bind_for == BindFor::Batch,
{
}

/// Of two nested queries that get their numbers one after the other the second has the next number.
pub proof fn lemma_numbers_in_turn(first: &mut Binder, second: &mut Binder, a: usize, b: usize)
    requires
        old(first).next_subquery_id < usize::MAX,
        call_ensures(Binder::next_subquery_id, (first,), a),
        *old(second) == *final(first),
        call_ensures(Binder::next_subquery_id, (second,), b),
    ensures
        b == a + 1,
        final(first).context == old(first).context,
        final(first).next_values_id == old(first).next_values_id,
        final(first).next_share_id == old(first).next_share_id,
{
}

/// Without a column of virtual nodes, or with no other to tell rows apart, the columns that tell rows apart stay.
/// Otherwise they are the same in the same order without the first that is the column of virtual nodes. Where rows
/// may be taken back, a column still grows if and only if it grew before and groups are made by it.
pub proof fn lemma_first_rows_base(
    core: TopN,
    vnode_column: Option<usize>,
    res: StreamGroupTopN,
    column: usize,
)
    requires
        call_requires(StreamGroupTopN::new, (core, vnode_column)),
        vnode_column matches Some(c) ==> core.stream_key@.len() > 1 ==> core.stream_key@.contains(c),
        call_ensures(StreamGroupTopN::new, (core, vnode_column), res),
    ensures
        ({
            let key = core.stream_key@;
            let kept = res.base.stream_key@;
            match vnode_column {
                Some(c) if key.len() > 1 => {
                    &&& kept.len() == key.len() - 1
                    &&& exists|p: int| left_out(key, kept, c, p)
                },
                _ => kept == key,
            }
        }),
        core.input.append_only ==> (bits_of(res.base.watermark_columns).contains(column) <==> bits_of(
            core.input.watermark_columns,
        ).contains(column)),
        !core.input.append_only ==> (bits_of(res.base.watermark_columns).contains(column)
            <==> bits_of(core.input.watermark_columns).contains(column) && core.group_key@.contains(
            column,
        )),
        !res.base.append_only && !res.base.emit_on_window_close,
{
    let key = core.stream_key@;
    if vnode_column is Some && key.len() > 1 {
        let c = vnode_column->Some_0;
        lemma_first_place_first(key, c);
        assert(left_out(key, res.base.stream_key@, c, first_place(key, c)));
    }
}

/// The kept columns are those of the key without the one in the place, which is the first that is the column.
pub open spec fn left_out(key: Seq<usize>, kept: Seq<usize>, column: usize, place: int) -> bool {
    &&& 0 <= place < key.len() && key[place] == column
    &&& forall|i: int| 0 <= i < place ==> #[trigger] key[i] != column && kept[i] == key[i]
    &&& forall|i: int| place < i < key.len() ==> #[trigger] key[i] == kept[i - 1]
}

proof fn lemma_first_place_first(key: Seq<usize>, column: usize)
    requires
        key.contains(column),
    ensures
        0 <= first_place(key, column) < key.len(),
        key[first_place(key, column)] == column,
        forall|i: int| 0 <= i < first_place(key, column) ==> key[i] != column,
    decreases key.len(),
{
    if key[0] != column {
        let rest = key.skip(1);
        let k = choose|k: int| 0 <= k < key.len() && key[k] == column;
        assert(rest[k - 1] == column);
        lemma_first_place_first(rest, column);
        assert forall|i: int| 0 <= i < first_place(key, column) implies key[i] != column by {
            if i > 0 {
                assert(rest[i - 1] == key[i]);
            }
        }
    }
}

/// The node for another input has the rules of the first one: groups, order, limit, rows passed over, and the
/// column of virtual nodes.
pub proof fn lemma_first_rows_of_other_input(
    node: &StreamGroupTopN,
    input: TopNInput,
    stream_key: Vec<usize>,
    res: StreamGroupTopN,
    a: GroupTopNNode<u64>,
    b: GroupTopNNode<u64>,
    table: u64,
)
    requires
        call_ensures(StreamGroupTopN::clone_with_input, (node, input, stream_key), res),
        call_ensures(StreamGroupTopN::to_stream_prost_body::<u64>, (node, table), a),
        call_ensures(StreamGroupTopN::to_stream_prost_body::<u64>, (&res, table), b),
    ensures
        a.limit == b.limit && a.offset == b.offset && a.with_ties == b.with_ties,
        a.group_key@ == b.group_key@ && a.order_by@ == b.order_by@ && a.table == b.table,
        b.append_only == input.append_only,
        res.core.input == input && res.core.stream_key == stream_key,
        res.vnode_col_idx == node.vnode_col_idx,
{
    assert(a.group_key@ =~= b.group_key@);
}

/// The node is sent with its number of rows, with ties if and only if they are kept, and with its columns.
pub proof fn lemma_first_rows_sent(
    node: &StreamGroupTopN,
    table: u64,
    res: GroupTopNNode<u64>,
    i: int,
)
    requires
        call_ensures(StreamGroupTopN::to_stream_prost_body::<u64>, (node, table), res),
    ensures
        match node.core.limit_attr {
            TopNLimit::Simple(n) => res.limit == n && !res.with_ties,
            TopNLimit::WithTies(n) => res.limit == n && res.with_ties,
        },
        res.offset == node.core.offset,
        res.group_key@.len() == node.core.group_key@.len(),
        0 <= i < node.core.group_key@.len() && node.core.group_key@[i] <= u32::MAX
            ==> res.group_key@[i] == node.core.group_key@[i],
        res.order_by@ == node.core.order@ && res.append_only == node.core.input.append_only,
        res.table == table,
{
}

} // verus!
