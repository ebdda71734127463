use fixedbitset::FixedBitSet;
use risingwave_core::batch::row::{ColumnOrder, NullsAre};
use risingwave_core::frontend::alter_source::{
    alter_definition_format_encode, apply_alter_source, check_alter_source, check_format_encode,
    columns_minus, encode_type_to_encode, format_type_to_format, AlterSourceError, ColumnCatalog,
    CompatibleSourceSchema, ConnectorSchema, Definition, Encode, EncodeType, Format, FormatType,
    SourceCatalog, SqlOption, StreamSourceInfo,
};
use risingwave_core::frontend::binder::{BindFor, Binder, Clause, ContextError};
use risingwave_core::frontend::declare_cursor::{
    check_cursor_unix_millis, cursor_start, CursorError, CursorStart, Since,
};
use risingwave_core::frontend::group_topn::{StreamGroupTopN, TopN, TopNInput, TopNLimit};
use risingwave_core::frontend::parameters::ParameterTypes;
use risingwave_core::frontend::planner::{
    AsOf, BoundJoin, BoundQuery, BoundSource, BoundWindowTableFunction, InputRef, Interval,
    JoinType, OutExpr, Plan, PlanError, Planner, Relation, ShareInput, TableExpr, WindowArg,
    WindowTableFunctionKind,
};
use risingwave_core::frontend::types::{NameMap, SqlType};
use risingwave_core::frontend::udf::{
    FunctionArg, QueryBody, SelectItem, UdfContext, UdfError, UdfStatement, UnnamedArg,
};

#[test]
fn names_are_mapped() {
    let mut map = NameMap::new();
    assert!(map.is_empty());
    map.insert("a".to_string(), 1);
    map.insert("b".to_string(), 2);
    map.insert("a".to_string(), 3);
    assert_eq!(map.get("a"), Some(3));
    assert_eq!(map.get("b"), Some(2));
    assert_eq!(map.get("c"), None);
    assert_eq!(map.clone().get("a"), Some(3));
    assert!(!map.is_empty());
}

#[test]
fn calls_are_nested() {
    let mut udf = UdfContext::new();
    udf.incr_global_count();
    udf.incr_global_count();
    udf.decr_global_count();
    assert_eq!(udf.global_count(), 1);
    assert!(udf._is_empty());
    let mut context = NameMap::new();
    context.insert("x".to_string(), 5);
    udf.update_context(context);
    assert_eq!(udf.get_expr("x"), Some(5));
    assert_eq!(udf.get_expr("y"), None);
    assert_eq!(udf.get_context().get("x"), Some(5));
    udf._clear();
    assert_eq!(udf.global_count(), 0);
    assert!(udf._is_empty());
}

#[test]
fn functions_are_defined_by_one_expression() {
    let select = |items: Vec<SelectItem>| UdfStatement::Query(QueryBody::Select(items));
    assert_eq!(
        UdfContext::extract_udf_expression(&vec![select(vec![SelectItem::UnnamedExpr(8)])]),
        Ok(8)
    );
    assert_eq!(UdfContext::extract_udf_expression(&vec![]), Err(UdfError::NotOneStatement));
    assert_eq!(
        UdfContext::extract_udf_expression(&vec![UdfStatement::Other]),
        Err(UdfError::NotAQuery)
    );
    assert_eq!(
        UdfContext::extract_udf_expression(&vec![UdfStatement::Query(QueryBody::Other)]),
        Err(UdfError::NotASelect)
    );
    assert_eq!(
        UdfContext::extract_udf_expression(&vec![select(vec![])]),
        Err(UdfError::NotOneItem)
    );
    assert_eq!(
        UdfContext::extract_udf_expression(&vec![select(vec![SelectItem::Other])]),
        Err(UdfError::NotAnUnnamedExpr)
    );
}

#[test]
fn arguments_go_by_names_or_places() {
    let names: Vec<String> = (0..12).map(|i| if i == 1 { "y".to_string() } else { String::new() }).collect();
    let args: Vec<FunctionArg> =
        (0..12).map(|i| FunctionArg::Unnamed(UnnamedArg::Expr(100 + i))).collect();
    let context = UdfContext::create_udf_context(&args, &names).unwrap();
    assert_eq!(context.get("$1"), Some(100));
    assert_eq!(context.get("$2"), None);
    assert_eq!(context.get("y"), Some(101));
    assert_eq!(context.get("$12"), Some(111));
    assert!(matches!(
        UdfContext::create_udf_context(&vec![FunctionArg::Named], &names),
        Err(UdfError::NamedArg)
    ));
    let args = vec![FunctionArg::Unnamed(UnnamedArg::Other), FunctionArg::Named];
    assert!(matches!(
        UdfContext::create_udf_context(&args, &names),
        Err(UdfError::NotAnExprArg)
    ));
    assert!(matches!(
        UdfContext::create_udf_context(&args, &vec![]),
        Err(UdfError::NotAnExprArg)
    ));
}

#[test]
fn parameters_are_found() {
    let mut params = ParameterTypes::new(vec![Some(SqlType::Int32), None]);
    assert!(params.has_infer(1));
    assert!(!params.has_infer(2));
    params.record_new_param(3);
    params.record_new_param(1);
    assert_eq!(params.read_type(1), Some(SqlType::Int32));
    params.record_infer_type(3, SqlType::Boolean);
    assert_eq!(
        params.export().unwrap(),
        vec![SqlType::Int32, SqlType::Varchar, SqlType::Boolean]
    );
    params.record_new_param(5);
    assert_eq!(params.export(), Err(4));
    let mut zero = ParameterTypes::new(vec![None]);
    zero.record_new_param(0);
    assert_eq!(zero.export(), Err(1));
    assert_eq!(ParameterTypes::new(vec![]).export().unwrap(), vec![]);
}

#[test]
fn contexts_are_put_back() {
    let mut binder = Binder::new();
    binder.context.cte_to_relation.insert("cte".to_string(), 1);
    binder.context.columns.insert("col".to_string(), 2);
    binder.set_clause(Some(Clause::Where));
    binder.push_lateral_context();
    binder.try_mark_lateral_as_visible();
    assert!(binder.lateral_contexts[0].is_visible);
    binder.push_context();
    assert!(binder.lateral_contexts.is_empty());
    assert_eq!(binder.context.cte_to_relation.get("cte"), Some(1));
    assert_eq!(binder.context.columns.get("col"), None);
    binder.try_mark_lateral_as_invisible();
    binder.pop_context().unwrap();
    assert_eq!(binder.lateral_contexts.len(), 1);
    assert!(binder.lateral_contexts[0].is_visible);
    binder.try_mark_lateral_as_invisible();
    assert!(!binder.lateral_contexts[0].is_visible);
    assert_eq!(binder.lateral_contexts[0].context.clause, Some(Clause::Where));
    assert_eq!(binder.pop_context(), Err(ContextError::NonExistent));
    assert_eq!(binder.pop_and_merge_lateral_context(None), Err(ContextError::Unmergeable));
    assert_eq!(binder.pop_and_merge_lateral_context(None), Err(ContextError::NonExistent));
    assert_eq!((binder.next_share_id(), binder.next_share_id()), (0, 1));
    assert_eq!((binder.next_subquery_id(), binder.next_values_id()), (0, 0));
    binder.udf_context_mut().incr_global_count();
    assert_eq!(binder.udf_context.global_count(), 1);
}

#[test]
fn binders_are_made_for_something() {
    assert!(Binder::new_for_stream().is_for_stream());
    assert!(Binder::new().is_for_batch());
    assert!(Binder::new_for_ddl().is_for_ddl());
    assert_eq!(Binder::new_for_system().bind_for, BindFor::System);
    let with = Binder::new_with_param_types(vec![Some(SqlType::Date)]);
    assert_eq!(with.export_param_types().unwrap(), vec![SqlType::Date]);
    let with = Binder::new_for_stream_with_param_types(vec![None]);
    assert_eq!(with.export_param_types().unwrap(), vec![SqlType::Varchar]);
    assert!(with.included_relations().is_empty());
}

#[test]
fn cursors_start_where_rows_are_kept() {
    let now = 100_000;
    assert_eq!(check_cursor_unix_millis(95_000, 10, now), Ok(()));
    assert_eq!(check_cursor_unix_millis(90_000, 10, now), Ok(()));
    assert_eq!(check_cursor_unix_millis(89_999, 10, now), Err(CursorError::TooSmall));
    assert_eq!(check_cursor_unix_millis(100_001, 10, now), Err(CursorError::TooLarge));
    assert_eq!(cursor_start(None, 10, now, 7, 0), Ok(None));
    assert_eq!(
        cursor_start(Some(Since::ProcessTime), 10, now, 7, 0),
        Ok(Some(CursorStart::Epoch(7)))
    );
    assert_eq!(
        cursor_start(Some(Since::Begin), 10, now, 7, 0),
        Ok(Some(CursorStart::Millis(90_000)))
    );
    assert_eq!(
        cursor_start(Some(Since::Begin), 10, now, 7, 93_000),
        Ok(Some(CursorStart::Millis(93_000)))
    );
    assert_eq!(
        cursor_start(Some(Since::TimestampMsNum(95_000)), 10, now, 7, 0),
        Ok(Some(CursorStart::Millis(95_000)))
    );
    assert_eq!(
        cursor_start(Some(Since::TimestampMsNum(5)), 10, now, 7, 0),
        Err(CursorError::TooSmall)
    );
}

fn column(name: &str, data_type: SqlType) -> ColumnCatalog {
    ColumnCatalog { name: name.to_string(), data_type, is_hidden: false }
}

fn option(name: &str, value: &str) -> SqlOption {
    SqlOption { name: name.to_string(), value: value.to_string() }
}

fn info(row_encode: EncodeType, format_encode_options: Vec<SqlOption>) -> StreamSourceInfo {
    StreamSourceInfo { format: FormatType::Plain, row_encode, format_encode_options }
}

/// The value that counts under a name.
fn value<'a>(options: &'a [SqlOption], name: &str) -> Option<&'a str> {
    options.iter().rev().find(|o| o.name == name).map(|o| o.value.as_str())
}

fn source() -> SourceCatalog {
    SourceCatalog {
        info: info(EncodeType::Protobuf, vec![option("message", ".test.TestRecord")]),
        columns: vec![column("id", SqlType::Int32), column("zipcode", SqlType::Int64)],
        definition: Definition::CreateSource {
            source_schema: CompatibleSourceSchema::V2 {
                schema: ConnectorSchema { format: Format::Plain, row_encode: Encode::Protobuf },
                row_options: vec![option("message", ".test.TestRecord")],
            },
        },
        associated_table_id: None,
        version: 1,
    }
}

#[test]
fn sources_gain_columns() {
    let plain = ConnectorSchema { format: Format::Plain, row_encode: Encode::Protobuf };
    let upsert = ConnectorSchema { format: Format::Upsert, row_encode: Encode::Protobuf };
    assert!(matches!(
        check_format_encode(&source(), &upsert),
        Err(AlterSourceError::FormatChanged {
            format: Format::Plain,
            row_encode: Encode::Protobuf
        })
    ));
    assert!(check_alter_source(&source(), &plain, true, false).is_ok());

    let mut src = source();
    let changed = vec![column("id", SqlType::Varchar), column("zipcode", SqlType::Int32)];
    let refused = apply_alter_source(
        &mut src,
        info(EncodeType::Protobuf, vec![]),
        &changed,
        vec![option("message", ".test.TestRecordAlterType")],
    );
    match refused {
        Err(AlterSourceError::DroppedColumns(dropped)) => {
            let names: Vec<String> = dropped.into_iter().map(|c| c.name).collect();
            assert_eq!(names, vec!["id", "zipcode"]);
        }
        _ => panic!("columns are gone"),
    }
    assert_eq!(src.version, 1);
    assert_eq!(src.columns.len(), 2);
    assert_eq!(
        value(&src.info.format_encode_options, "message"),
        Some(".test.TestRecord")
    );

    let more = vec![
        column("id", SqlType::Int32),
        column("zipcode", SqlType::Int64),
        column("name", SqlType::Varchar),
    ];
    apply_alter_source(
        &mut src,
        info(EncodeType::Protobuf, vec![option("message", "old"), option("kept", "k")]),
        &more,
        vec![option("message", ".test.TestRecordExt"), option("schema.location", "file")],
    )
    .unwrap();
    let options = &src.info.format_encode_options;
    assert_eq!(value(options, "message"), Some(".test.TestRecordExt"));
    assert_eq!(value(options, "schema.location"), Some("file"));
    assert_eq!(value(options, "kept"), Some("k"));
    match &src.definition {
        Definition::CreateSource {
            source_schema: CompatibleSourceSchema::V2 { row_options, .. },
        } => {
            assert_eq!(row_options.len(), 2);
            assert_eq!(value(row_options, "message"), Some(".test.TestRecordExt"));
        }
        _ => panic!("another definition"),
    }
    assert_eq!(src.columns[2].name, "name");
    assert_eq!(src.columns[2].data_type, SqlType::Varchar);
    assert_eq!(src.version, 2);
}

#[test]
fn some_sources_cannot_be_altered() {
    let plain = ConnectorSchema { format: Format::Plain, row_encode: Encode::Protobuf };
    let mut owned = source();
    owned.associated_table_id = Some(3);
    assert!(matches!(
        check_alter_source(&owned, &plain, true, false),
        Err(AlterSourceError::AssociatedTable)
    ));
    let mut legacy = source();
    legacy.info.row_encode = EncodeType::Unspecified;
    assert!(matches!(
        check_alter_source(&legacy, &plain, true, false),
        Err(AlterSourceError::LegacySource)
    ));
    assert!(matches!(
        check_alter_source(&source(), &plain, false, false),
        Err(AlterSourceError::NoSchemaRegistry)
    ));
    assert!(matches!(
        check_alter_source(&source(), &plain, true, true),
        Err(AlterSourceError::CdcSource)
    ));
    assert_eq!(format_type_to_format(FormatType::Unspecified), None);
    assert_eq!(format_type_to_format(FormatType::Canal), Some(Format::Canal));
    assert_eq!(encode_type_to_encode(EncodeType::Text), Some(Encode::Text));
}

#[test]
fn hidden_columns_are_ignored() {
    let mut hidden = column("h", SqlType::Int16);
    hidden.is_hidden = true;
    let left = columns_minus(&vec![hidden, column("a", SqlType::Date)], &vec![]);
    assert_eq!(left.len(), 1);
    assert_eq!(left[0].name, "a");
    let same = vec![column("a", SqlType::Date)];
    assert!(columns_minus(&same, &same).is_empty());
}

#[test]
fn definitions_get_other_options() {
    let schema = ConnectorSchema { format: Format::Plain, row_encode: Encode::Json };
    let option = || vec![SqlOption { name: "message".to_string(), value: "m".to_string() }];
    let source = Definition::CreateSource {
        source_schema: CompatibleSourceSchema::V2 { schema, row_options: vec![] },
    };
    assert!(matches!(
        alter_definition_format_encode(source, option()),
        Definition::CreateSource { source_schema: CompatibleSourceSchema::V2 { row_options, .. } }
            if row_options.len() == 1 && row_options[0].name == "message"
    ));
    let table = Definition::CreateTable {
        table_schema: Some(CompatibleSourceSchema::V2 { schema, row_options: vec![] }),
    };
    assert!(matches!(
        alter_definition_format_encode(table, option()),
        Definition::CreateTable { table_schema: Some(CompatibleSourceSchema::V2 { row_options, .. }) }
            if row_options.len() == 1
    ));
}

fn topn(append_only: bool) -> TopN {
    let mut watermark_columns = FixedBitSet::with_capacity(4);
    watermark_columns.insert(1);
    watermark_columns.insert(3);
    TopN {
        input: TopNInput { schema_len: 4, append_only, watermark_columns },
        limit_attr: TopNLimit::WithTies(5),
        offset: 2,
        order: vec![ColumnOrder {
            column_index: 0,
            is_descending: true,
            nulls_are: NullsAre::Largest,
        }],
        group_key: vec![2, 1],
        stream_key: vec![2, 1, 0],
    }
}

#[test]
fn groups_keep_their_first_rows() {
    let node = StreamGroupTopN::new(topn(false), Some(1));
    assert_eq!(node.base.stream_key, vec![2, 0]);
    assert!(node.base.watermark_columns.contains(1));
    assert!(!node.base.watermark_columns.contains(3));
    assert!(!node.base.append_only);
    assert_eq!(node.limit_attr(), TopNLimit::WithTies(5));
    assert_eq!(node.offset(), 2);
    assert_eq!(node.group_key(), &vec![2, 1]);
    assert_eq!(node.topn_order().len(), 1);
    let body = node.to_stream_prost_body("state");
    assert_eq!((body.limit, body.offset, body.with_ties), (5, 2, true));
    assert_eq!(body.group_key, vec![2, 1]);
    assert_eq!(body.table, "state");
    assert_eq!(body.order_by, topn(false).order);
    assert!(!body.append_only);

    let node = StreamGroupTopN::new(topn(true), None);
    assert!(node.base.watermark_columns.contains(3));
    assert_eq!(node.base.stream_key, vec![2, 1, 0]);
    assert!(node.to_stream_prost_body(0).append_only);

    let again = node.clone_with_input(topn(false).input, vec![1, 2]);
    assert_eq!(again.base.stream_key, vec![1, 2]);
    assert!(!again.base.watermark_columns.contains(3));
    assert_eq!(again.group_key(), &vec![2, 1]);

    let mut only = topn(false);
    only.stream_key = vec![1];
    assert_eq!(StreamGroupTopN::new(only, Some(1)).base.stream_key, vec![1]);
}

fn table(id: u32) -> Relation {
    Relation::BaseTable {
        table: id,
        table_as_of: None,
        data_types: vec![SqlType::Int32, SqlType::Timestamp],
    }
}

fn join(left: Relation, right: Relation, subquery: bool) -> Box<BoundJoin> {
    Box::new(BoundJoin {
        left,
        right,
        join_type: JoinType::Inner,
        on: 77,
        on_has_subquery: subquery,
        correlated_indices: vec![1],
    })
}

fn interval(days: i32) -> Interval {
    Interval { months: 0, days, usecs: 0, positive: days > 0 }
}

fn window(
    kind: WindowTableFunctionKind,
    input: Relation,
    args: Vec<WindowArg>,
    divides: bool,
) -> Relation {
    Relation::WindowTableFunction(Box::new(BoundWindowTableFunction {
        kind,
        input,
        time_col: InputRef { index: 1, data_type: SqlType::Timestamp },
        args,
        typed: Ok(()),
        divides,
    }))
}

#[test]
fn tables_and_sources_are_planned() {
    let mut planner = Planner::new();
    assert!(matches!(
        planner.plan_relation(&table(4)),
        Ok(Plan::Scan { table: 4, as_of: None })
    ));
    let at = |as_of| Relation::BaseTable { table: 4, table_as_of: Some(as_of), data_types: vec![] };
    assert!(planner.plan_relation(&at(AsOf::ProcessTime)).is_ok());
    assert!(matches!(
        planner.plan_relation(&at(AsOf::TimestampNum(1))),
        Err(PlanError::AsOfTimestamp)
    ));
    assert!(matches!(
        planner.plan_relation(&at(AsOf::VersionNum(1))),
        Err(PlanError::AsOfVersion)
    ));
    let source = |cdc, as_of, created| {
        Relation::Source(BoundSource {
            source: 6,
            is_shareable_cdc_connector: cdc,
            as_of,
            data_types: vec![],
            created,
        })
    };
    assert!(matches!(
        planner.plan_relation(&source(true, None, Ok(()))),
        Err(PlanError::SharedCdcSource)
    ));
    assert!(matches!(
        planner.plan_relation(&source(false, Some(AsOf::ProcessTime), Ok(()))),
        Err(PlanError::AsOfProcessTime)
    ));
    assert!(matches!(
        planner.plan_relation(&source(false, Some(AsOf::VersionString(1)), Ok(()))),
        Err(PlanError::AsOfVersion)
    ));
    assert!(matches!(
        planner.plan_relation(&source(false, Some(AsOf::VersionNum(1)), Ok(()))),
        Ok(Plan::Source { source: 6, .. })
    ));
    assert!(matches!(
        planner.plan_relation(&source(false, None, Err(9))),
        Err(PlanError::Other(9))
    ));
    assert!(matches!(
        planner.plan_relation(&Relation::SystemTable { table: 2 }),
        Ok(Plan::SysScan { sys_table: 2 })
    ));
}

#[test]
fn joins_are_planned() {
    let mut planner = Planner::new();
    let nested = Relation::Apply(join(table(1), Relation::Apply(join(table(2), table(3), false)), false));
    match planner.plan_relation(&nested) {
        Ok(Plan::Apply { correlated_id, inner, correlated_indices, .. }) => {
            assert_eq!(correlated_id, 0);
            assert_eq!(correlated_indices, vec![1]);
            assert!(matches!(*inner, Plan::Apply { correlated_id: 1, .. }));
        }
        _ => panic!("an apply is planned as one"),
    }
    assert_eq!(planner.next_correlated_id, 2);
    assert!(matches!(
        planner.plan_relation(&Relation::Join(join(table(1), table(2), true))),
        Err(PlanError::SubqueryInJoin)
    ));
    assert!(matches!(
        planner.plan_relation(&Relation::Apply(join(table(1), table(2), true))),
        Err(PlanError::SubqueryInJoin)
    ));
    assert_eq!(planner.next_correlated_id, 2);
    assert!(matches!(
        planner.plan_relation(&Relation::Join(join(table(1), table(2), false))),
        Ok(Plan::Join { on: 77, .. })
    ));
}

#[test]
fn windows_are_planned() {
    let mut planner = Planner::new();
    let size = WindowArg::Interval(interval(2));
    let tumble = |args| window(WindowTableFunctionKind::Tumble, table(1), args, true);
    match planner.plan_relation(&tumble(vec![size])) {
        Ok(Plan::Project { exprs, .. }) => {
            assert_eq!(exprs.len(), 4);
            assert_eq!(
                exprs[1],
                OutExpr::InputRef(InputRef { index: 1, data_type: SqlType::Timestamp })
            );
            assert!(matches!(exprs[2], OutExpr::TumbleStart { offset: None, .. }));
            assert!(matches!(exprs[3], OutExpr::TumbleEnd { .. }));
        }
        _ => panic!("a window is planned as a projection"),
    }
    assert!(planner.plan_relation(&tumble(vec![size, WindowArg::Literal(1)])).is_ok());
    assert!(matches!(
        planner.plan_relation(&tumble(vec![WindowArg::Other(1)])),
        Err(PlanError::WindowSizeArg)
    ));
    assert!(matches!(
        planner.plan_relation(&tumble(vec![])),
        Err(PlanError::WindowSizeArg)
    ));
    let of_system =
        window(WindowTableFunctionKind::Tumble, Relation::SystemTable { table: 1 }, vec![size], true);
    assert!(matches!(
        planner.plan_relation(&of_system),
        Err(PlanError::InvalidTumbleInput)
    ));

    let slide = WindowArg::Interval(interval(1));
    let hop = |args, divides| window(WindowTableFunctionKind::Hop, table(1), args, divides);
    assert!(matches!(
        planner.plan_relation(&hop(vec![slide, size], true)),
        Ok(Plan::HopWindow { offset: Interval { months: 0, days: 0, usecs: 0, .. }, .. })
    ));
    assert!(matches!(
        planner.plan_relation(&hop(vec![slide, size, slide], true)),
        Ok(Plan::HopWindow { offset: Interval { days: 1, .. }, .. })
    ));
    assert!(matches!(
        planner.plan_relation(&hop(vec![slide, size], false)),
        Err(PlanError::NotDivisible { .. })
    ));
    assert!(matches!(
        planner.plan_relation(&hop(vec![WindowArg::Interval(interval(0)), size], true)),
        Err(PlanError::NotPositive { .. })
    ));
    assert!(matches!(
        planner.plan_relation(&hop(vec![slide, WindowArg::Literal(1)], true)),
        Err(PlanError::WindowSizeArg)
    ));
    assert!(matches!(
        planner.plan_relation(&hop(vec![slide], true)),
        Err(PlanError::WindowSizeArg)
    ));
}

#[test]
fn shared_queries_are_planned_once() {
    let mut planner = Planner::new();
    let share = |planned| Relation::Share {
        share_id: 5,
        input: ShareInput::Query(BoundQuery { planned, data_types: vec![] }),
    };
    assert!(matches!(planner.plan_relation(&share(Err(3))), Err(PlanError::Other(3))));
    assert!(matches!(planner.plan_relation(&share(Ok(10))), Ok(Plan::Share { shared: 10 })));
    planner.plan_relation(&table(1)).unwrap();
    assert!(matches!(planner.plan_relation(&share(Ok(20))), Ok(Plan::Share { shared: 10 })));
    let recursive = Relation::Share {
        share_id: 6,
        input: ShareInput::Recursive(BoundQuery { planned: Ok(30), data_types: vec![] }),
    };
    assert!(matches!(
        planner.plan_relation(&recursive),
        Ok(Plan::RecursiveUnion { union: 30 })
    ));
    assert!(matches!(
        planner.plan_relation(&Relation::BackCteRef { cte_share_id: 6, base: Ok(31) }),
        Ok(Plan::CteRef { share_id: 6, base: 31 })
    ));
    let subquery = Relation::Subquery(BoundQuery { planned: Ok(40), data_types: vec![] });
    assert!(matches!(planner.plan_relation(&subquery), Ok(Plan::Query { query: 40 })));
}

#[test]
fn table_functions_are_planned() {
    let mut planner = Planner::new();
    let function = Relation::TableFunction {
        function: TableExpr::TableFunction(1),
        with_ordinality: true,
    };
    assert!(matches!(
        planner.plan_relation(&function),
        Ok(Plan::TableFunction { function: 1, with_ordinality: true })
    ));
    let other = |fields, with_ordinality| Relation::TableFunction {
        function: TableExpr::Other { expr: 2, return_type: SqlType::Jsonb, fields },
        with_ordinality,
    };
    match planner.plan_relation(&other(Some(vec![SqlType::Int16, SqlType::Date]), true)) {
        Ok(Plan::Project { exprs, .. }) => assert_eq!(
            exprs,
            vec![
                OutExpr::Field { index: 0, data_type: SqlType::Int16 },
                OutExpr::Field { index: 1, data_type: SqlType::Date },
                OutExpr::Bigint(1),
            ]
        ),
        _ => panic!("an expression is planned as a projection"),
    }
    match planner.plan_relation(&other(None, false)) {
        Ok(Plan::Project { exprs, .. }) => assert_eq!(
            exprs,
            vec![OutExpr::InputRef(InputRef { index: 0, data_type: SqlType::Jsonb })]
        ),
        _ => panic!("an expression is planned as a projection"),
    }
}
