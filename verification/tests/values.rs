use risingwave_core::batch::row::{ColumnOrder, DataChunk, NullsAre, Row};
use risingwave_core::common::bitmap::{Bitmap, VirtualNode};
use risingwave_core::common::table_distribution::{
    compute_vnode, get_vnode_from_row, ComputeVnode, TableDistribution,
};
use risingwave_core::connector::client::{
    CommitResponse, ConnectorClient, GeneratedOrDefaultColumn, RpcError, SinkCoordinatorRequest,
    SinkCoordinatorResponse, SinkCoordinatorStreamHandle, SinkWriterRequest, SinkWriterResponse,
    SinkWriterStreamHandle, TableColumn, TableSchema,
};
use risingwave_core::connector::mock_external_table::{
    CdcOffset, CdcOffsetParser, MockExternalTableReader, MySqlOffset,
};
use risingwave_core::connector::webhdfs::{EngineType, OpendalObjectStore, WebhdfsSettings};
use risingwave_core::expr::agg_call::{
    parse_aggregation, AggArgs, AggCall, AggCallError, InputRef, PbAggCall, PbColumnOrder, Token,
};
use risingwave_core::expr::agg_kind::{AggKind, PbType};
use risingwave_core::expr::error::{ContextUnavailable, ExprError, MultiExprError};
use risingwave_core::manager::objects::DataType;
use risingwave_core::scale::revision::{TableRevision, Transaction};
use risingwave_core::vector_op::compare::{
    is_false, is_not_false, is_not_true, is_not_unknown, is_true, is_unknown, str_eq, str_ge,
    str_gt, str_le, str_lt, str_ne, total_order_eq, total_order_ge, total_order_gt,
    total_order_le, total_order_lt, total_order_ne, ConvertError,
};
use rust_decimal::Decimal;
use std::collections::HashMap;
use std::str::FromStr;

#[test]
fn test_deci_f() {
    assert!(total_order_eq::<_, _, Decimal>(Decimal::from_str("1.1").unwrap(), 1.1f32).unwrap())
}

#[test]
fn values_of_different_types_compare() {
    assert_eq!(total_order_lt::<u8, i64, i32>(3, 4), Ok(true));
    assert_eq!(total_order_le::<u8, i64, i32>(4, 4), Ok(true));
    assert_eq!(total_order_gt::<u8, i64, i32>(4, 4), Ok(false));
    assert_eq!(total_order_ge::<u8, i64, i32>(4, 4), Ok(true));
    assert_eq!(total_order_ne::<u8, i64, i32>(4, 5), Ok(true));
    assert_eq!(total_order_eq::<u8, i64, i32>(4, 5), Ok(false));
    for (a, b) in [(4, 4), (4, 5), (5, 4)] {
        let eq = total_order_eq::<u8, i64, i32>(a, b).unwrap();
        assert_eq!(total_order_ne::<u8, i64, i32>(a, b), Ok(!eq));
    }
    assert_eq!(total_order_eq::<i64, i64, i32>(i64::MAX, 5), Err(ConvertError::Left));
    assert_eq!(total_order_eq::<i64, i64, i32>(5, i64::MIN), Err(ConvertError::Right));
}

#[test]
fn texts_compare_by_characters() {
    assert_eq!(str_eq("a", "a"), Ok(true));
    assert_eq!(str_ne("a", "b"), Ok(true));
    assert_eq!(str_lt("ab", "b"), Ok(true));
    assert_eq!(str_lt("a", "ab"), Ok(true));
    assert_eq!(str_le("", ""), Ok(true));
    assert_eq!(str_gt("b", "ab"), Ok(true));
    assert_eq!(str_ge("ab", "abc"), Ok(false));
    for (l, r) in [("a", "B"), ("\u{e9}", "z"), ("\u{10000}", "\u{ffff}"), ("x", "")] {
        assert_eq!(str_lt(l, r), Ok(l < r));
        assert_eq!(str_ge(l, r), Ok(l >= r));
    }
}

#[test]
fn tests_of_truth_are_complements() {
    for v in [Some(true), Some(false), None] {
        assert_eq!(is_true(v).unwrap().map(|b| !b), is_not_true(v).unwrap());
        assert_eq!(is_false(v).unwrap().map(|b| !b), is_not_false(v).unwrap());
        assert_eq!(is_unknown(v).unwrap().map(|b| !b), is_not_unknown(v).unwrap());
    }
    assert_eq!(is_true(Some(true)), Ok(Some(true)));
    assert_eq!(is_true(None), Ok(Some(false)));
    assert_eq!(is_not_true(None), Ok(Some(true)));
    assert_eq!(is_unknown(None), Ok(Some(true)));
}

#[test]
fn revisions_are_read_as_they_are_stored() {
    for n in [0u64, 1, 41, 255, 256, u64::MAX / 3] {
        let mut txn = Transaction::new();
        TableRevision(n).store(&mut txn);
        assert_eq!(txn.puts.len(), 1);
        assert_eq!(TableRevision::get(Some(&txn.puts[0].1)).inner(), n);
    }
    assert_eq!(TableRevision::get(None).inner(), 0);
    assert_eq!(TableRevision(7).next().inner(), 8);
    assert_eq!(u64::from(TableRevision(9)), 9);
    let mut txn = Transaction::new();
    TableRevision(258).store(&mut txn);
    assert_eq!(txn.puts[0].1, vec![0, 0, 0, 0, 0, 0, 1, 2]);
}

#[test]
fn distributions_are_made_from_their_parts() {
    assert!(TableDistribution::new(None, vec![], None).is_singleton());
    let keyed = TableDistribution::new(None, vec![2], None);
    assert!(matches!(
        &keyed.compute_vnode,
        ComputeVnode::DistKeyIndices { dist_key_in_pk_indices } if *dist_key_in_pk_indices == vec![2]
    ));
    let column = TableDistribution::new_from_storage_table_desc(None, &vec![2], Some(1));
    assert!(matches!(
        column.compute_vnode,
        ComputeVnode::VnodeColumnIndex { vnode_col_idx_in_pk: 1 }
    ));
    assert_eq!(column.vnodes().count_ones(), 1);
    assert!(column.vnodes().is_set(0));
    assert_eq!(TableDistribution::all(vec![0]).vnodes().count_ones(), 256);
    assert!(TableDistribution::singleton().is_singleton());
    assert_eq!(TableDistribution::singleton_vnode_bitmap().count_ones(), 1);
    assert_eq!(TableDistribution::all_vnodes().len(), 256);
}

#[test]
fn virtual_nodes_of_keys() {
    let hashed = VirtualNode::from_index(17);
    let pk = vec![Some(5), Some(9), None];
    let single = TableDistribution::singleton();
    assert_eq!(single.compute_vnode_by_pk(&pk, hashed).to_index(), 0);
    assert_eq!(single.try_compute_vnode_by_pk_prefix(&vec![], hashed).unwrap().to_index(), 0);

    let keyed = TableDistribution::all(vec![0, 1]);
    assert_eq!(keyed.compute_vnode_by_pk(&pk, hashed).to_index(), 17);
    assert!(keyed.try_compute_vnode_by_pk_prefix(&vec![Some(5)], hashed).is_none());
    assert_eq!(
        keyed.try_compute_vnode_by_pk_prefix(&vec![Some(5), Some(9)], hashed).unwrap(),
        hashed
    );

    let column =
        TableDistribution::new(Some(TableDistribution::all_vnodes()), vec![], Some(1));
    assert_eq!(column.compute_vnode_by_pk(&pk, hashed).to_index(), 9);
    assert!(column.try_compute_vnode_by_pk_prefix(&vec![Some(5)], hashed).is_none());
    let all = TableDistribution::all_vnodes();
    assert_eq!(get_vnode_from_row(&pk, 0, &all).to_index(), 5);
    assert_eq!(compute_vnode(hashed, &vec![0], &all), hashed);
}

#[test]
fn virtual_nodes_of_chunks() {
    let chunk = DataChunk {
        rows: vec![
            Row { values: vec![Some(1), Some(3)] },
            Row { values: vec![Some(2), None] },
        ],
        visibility: vec![true, false],
    };
    let hashed = vec![VirtualNode::from_index(7), VirtualNode::from_index(8)];
    let single = TableDistribution::singleton();
    let zeros = single.compute_chunk_vnode(&chunk, &vec![0], &hashed);
    assert_eq!(zeros, vec![VirtualNode::from_index(0); 2]);
    let keyed = TableDistribution::all(vec![0]);
    assert_eq!(keyed.compute_chunk_vnode(&chunk, &vec![0], &hashed), hashed);
    let column =
        TableDistribution::new(Some(TableDistribution::all_vnodes()), vec![], Some(0));
    let vnodes = column.compute_chunk_vnode(&chunk, &vec![1], &hashed);
    assert_eq!(vnodes, vec![VirtualNode::from_index(3), VirtualNode::from_index(0)]);
    assert_eq!(TableDistribution::all(vec![2, 0]).dist_key_columns(&vec![4, 1, 6]), vec![6, 4]);
    assert!(single.dist_key_columns(&vec![4]).is_empty());
    assert!(column.dist_key_columns(&vec![4]).is_empty());
}

#[test]
fn replaced_virtual_nodes_are_returned() {
    let mut dist = TableDistribution::all(vec![0]);
    let old = dist.update_vnode_bitmap(Bitmap::zeros(256));
    assert_eq!(old.count_ones(), 256);
    assert_eq!(dist.vnodes().count_ones(), 0);
}

#[test]
fn the_made_up_table_is_read_once() {
    let mut reader = MockExternalTableReader::new(vec![MySqlOffset {
        filename: "mysql-bin.1".to_string(),
        position: 4,
    }]);
    let rows: Vec<(i64, i64)> =
        reader.snapshot_read().iter().map(|r| (r.id, r.ten_thousandths)).collect();
    assert_eq!(
        rows,
        vec![(1, 10001), (1, 110000), (2, 220000), (5, 10005), (6, 10006), (8, 10008)]
    );
    assert!(reader.snapshot_read().is_empty());
    assert_eq!(MockExternalTableReader::get_normalized_table_name("t"), "`mock_table`");
    let CdcOffset::MySql(first) = reader.current_cdc_offset(0);
    assert_eq!((first.filename.as_str(), first.position), ("mysql-bin.1", 4));
    let CdcOffset::MySql(last) = reader.current_cdc_offset(1);
    assert_eq!((last.filename.as_str(), last.position), ("1.binlog", u64::MAX));
    let parser = MockExternalTableReader::get_cdc_offset_parser();
    assert_eq!(parser, CdcOffsetParser::MySql);
    assert!(parser.parsed(None).is_none());
    assert!(parser.parsed(Some(first)).is_some());
}

#[test]
fn kinds_are_received_as_they_are_sent() {
    for kind in [AggKind::Sum0, AggKind::JsonbObjectAgg, AggKind::UserDefined, AggKind::Mode] {
        assert_eq!(AggKind::from_protobuf(kind.to_protobuf()).unwrap(), kind);
    }
    assert!(AggKind::from_protobuf(PbType::Unspecified).is_err());
    assert_eq!(AggKind::Count.partial_to_total(), Some(AggKind::Sum0));
    assert_eq!(AggKind::Max.partial_to_total(), Some(AggKind::Max));
    assert_eq!(AggKind::Avg.partial_to_total(), None);
    assert_eq!(AggKind::StringAgg.partial_to_total(), None);
    assert_eq!(AggKind::ApproxCountDistinct.name(), "approx_count_distinct");
    assert_eq!(AggKind::Sum0.name(), "sum0");
    assert_eq!(AggKind::from_name("sum0"), Some(AggKind::Sum0));
    assert_eq!(AggKind::from_name("internal_last_seen_value"), Some(AggKind::InternalLastSeenValue));
    assert_eq!(AggKind::from_name("Sum"), None);
    assert!(AggKind::Mode.ordered_set());
    assert!(AggKind::Mode.unimplemented_in_stream());
    assert!(AggKind::FirstValue.must_have_order_by());
    assert!(AggKind::Avg.rewritten());
    assert!(AggKind::Min.result_unaffected_by_distinct());
    assert!(AggKind::Sum.result_unaffected_by_order_by());
    assert!(AggKind::Sum.single_value_state());
    assert!(AggKind::Max.single_value_state_iff_in_append_only());
    assert!(AggKind::ArrayAgg.simply_cannot_two_phase());
}

fn int_type() -> DataType {
    DataType {
        type_code: 1,
        precision: 0,
        scale: 0,
        is_nullable: true,
        interval_type: 0,
        field_type: vec![],
        field_names: vec![],
    }
}

fn sent_call() -> PbAggCall {
    PbAggCall {
        agg_type: Some(PbType::Sum),
        args: vec![InputRef { index: 2, data_type: int_type() }],
        return_type: Some(int_type()),
        distinct: true,
        order_by: vec![PbColumnOrder {
            column_index: 1,
            is_descending: true,
            nulls_are: NullsAre::Largest,
        }],
        filter: Some(4),
        direct_args: vec![],
        udf: None,
    }
}

#[test]
fn calls_are_received() {
    let call = AggCall::from_protobuf(sent_call(), true).unwrap();
    assert_eq!(call.kind, AggKind::Sum);
    assert_eq!(call.args.val_indices(), &vec![2]);
    assert_eq!(call.args.arg_types().len(), 1);
    assert_eq!(
        call.column_orders,
        vec![ColumnOrder { column_index: 1, is_descending: true, nulls_are: NullsAre::Largest }]
    );
    assert_eq!(call.filter, Some(4));
    assert!(call.distinct);
    assert_eq!(call.with_filter(9).filter, Some(9));
    let args = AggArgs::from_pairs(vec![(int_type(), 4), (int_type(), 6)]);
    assert_eq!(args.val_indices(), &vec![4, 6]);

    let mut bad = sent_call();
    bad.agg_type = None;
    assert!(matches!(AggCall::from_protobuf(bad, true), Err(AggCallError::UnknownType)));
    let mut bad = sent_call();
    bad.agg_type = Some(PbType::Unspecified);
    assert!(matches!(AggCall::from_protobuf(bad, true), Err(AggCallError::UnrecognizedAgg)));
    assert!(matches!(AggCall::from_protobuf(sent_call(), false), Err(AggCallError::BadFilter)));
    let mut bad = sent_call();
    bad.return_type = None;
    assert!(matches!(AggCall::from_protobuf(bad, true), Err(AggCallError::NoReturnType)));
}

fn word(text: &str) -> Token {
    Token::Literal(text.to_string())
}

#[test]
fn calls_are_read() {
    let tokens = vec![
        Token::LParen,
        word("count"),
        Token::Colon,
        word("int8"),
        Token::Index(3),
        Token::Colon,
        word("varchar"),
        word("distinct"),
        word("orderby"),
        Token::Index(1),
        Token::Colon,
        word("asc"),
        Token::Index(2),
        Token::Colon,
        word("desc"),
        Token::RParen,
    ];
    let call = parse_aggregation(&tokens).unwrap();
    assert_eq!(call.function, "count");
    assert_eq!(call.return_type, "int8");
    assert_eq!(call.args, vec![(3, "varchar".to_string())]);
    assert!(call.distinct);
    let orders: Vec<(usize, bool)> =
        call.column_orders.iter().map(|o| (o.column_index, o.is_descending)).collect();
    assert_eq!(orders, vec![(1, false), (2, true)]);
    let bound = AggCall::from_pretty(call, PbType::Count, int_type(), vec![int_type()]);
    assert_eq!(bound.kind, AggKind::Count);
    assert_eq!(bound.args.val_indices(), &vec![3]);
    assert!(bound.filter.is_none());

    assert!(parse_aggregation(&vec![Token::LParen]).is_none());
    let bad = vec![Token::LParen, word("sum"), Token::Colon, word("int8"), Token::Index(1)];
    assert!(parse_aggregation(&bad).is_none());
    let bad = vec![
        Token::LParen,
        word("sum"),
        Token::Colon,
        word("int8"),
        word("orderby"),
        Token::Index(1),
        Token::Colon,
        word("up"),
    ];
    assert!(parse_aggregation(&bad).is_none());
}

#[test]
fn errors_of_expressions() {
    let e = ExprError::from(ContextUnavailable::new("TIME_ZONE"));
    assert!(matches!(e, ExprError::Context("TIME_ZONE")));
    let many = MultiExprError::from(vec![ExprError::DivisionByZero, ExprError::NotConstant]);
    assert_eq!(many.errors.len(), 2);
    assert!(matches!(many.into_first(), ExprError::DivisionByZero));
    let many = MultiExprError::from(vec![ExprError::NumericOverflow]);
    assert_eq!(many.into_errors().len(), 1);
}

#[test]
fn sinks_are_committed() {
    assert!(matches!(
        SinkWriterStreamHandle::write_batch(3, 1, vec![7]),
        SinkWriterRequest::WriteBatch { epoch: 3, batch_id: 1, .. }
    ));
    assert!(matches!(
        SinkWriterStreamHandle::barrier(3),
        SinkWriterRequest::Barrier { epoch: 3, is_checkpoint: false }
    ));
    assert!(matches!(
        SinkWriterStreamHandle::commit(3),
        SinkWriterRequest::Barrier { epoch: 3, is_checkpoint: true }
    ));
    let rsp = SinkWriterResponse::Commit(CommitResponse { epoch: 3, metadata: vec![] });
    assert!(matches!(
        SinkWriterStreamHandle::started(&rsp),
        Err(RpcError::NotStart)
    ));
    assert_eq!(SinkWriterStreamHandle::next_commit_response(rsp).unwrap().epoch, 3);
    assert!(matches!(
        SinkWriterStreamHandle::next_commit_response(SinkWriterResponse::Start),
        Err(RpcError::NotCommit)
    ));
    assert!(SinkWriterStreamHandle::started(&SinkWriterResponse::Start).is_ok());

    let SinkCoordinatorRequest::Commit { epoch, metadata } =
        SinkCoordinatorStreamHandle::commit(5, vec![vec![1]]);
    assert_eq!((epoch, metadata.len()), (5, 1));
    let committed = SinkCoordinatorResponse::Commit { epoch: 5 };
    assert!(SinkCoordinatorStreamHandle::committed(5, committed).is_ok());
    assert!(matches!(
        SinkCoordinatorStreamHandle::committed(6, committed),
        Err(RpcError::DifferentEpoch { epoch: 6, response_epoch: 5 })
    ));
    assert!(matches!(
        SinkCoordinatorStreamHandle::committed(6, SinkCoordinatorResponse::Empty),
        Err(RpcError::NotCommit)
    ));
    assert!(matches!(
        SinkCoordinatorStreamHandle::started(committed),
        Err(RpcError::NotStart)
    ));
}

#[test]
fn connectors_are_asked() {
    let endpoint = "localhost:50051".to_string();
    assert_eq!(ConnectorClient::url(&endpoint), "http://localhost:50051");
    assert_eq!(ConnectorClient::new(&endpoint, true).unwrap().endpoint(), "localhost:50051");
    assert!(matches!(
        ConnectorClient::new(&endpoint, false),
        Err(RpcError::InvalidEndpoint)
    ));
    assert!(ConnectorClient::try_new(None, true).is_none());
    assert!(ConnectorClient::try_new(Some(&endpoint), false).is_none());
    assert!(ConnectorClient::try_new(Some(&endpoint), true).is_some());
    let properties: HashMap<String, String> =
        [("topic".to_string(), "t".to_string())].into_iter().collect();
    let request =
        ConnectorClient::start_source_stream(1, 2, None, properties.clone(), false, true);
    assert_eq!(request.start_offset, "");
    assert_eq!(request.properties, properties);
    let column = |name: &str, how| TableColumn {
        name: name.to_string(),
        generated_or_default_column: how,
    };
    let schema = TableSchema {
        columns: vec![
            column("a", None),
            column("b", Some(GeneratedOrDefaultColumn::GeneratedColumn)),
            column("c", Some(GeneratedOrDefaultColumn::DefaultColumn)),
        ],
        pk_indices: vec![0],
    };
    let request = ConnectorClient::validate_source_properties(
        1,
        2,
        properties.clone(),
        Some(schema),
        true,
        false,
    );
    assert_eq!(request.properties, properties);
    let names: Vec<String> =
        request.table_schema.unwrap().columns.into_iter().map(|c| c.name).collect();
    assert_eq!(names, vec!["a", "c"]);
    assert!(ConnectorClient::source_validated(None).is_ok());
    assert!(matches!(
        ConnectorClient::source_validated(Some("no".to_string())),
        Err(RpcError::InvalidSource(m)) if m == "no"
    ));
    assert!(matches!(
        ConnectorClient::sink_validated(Some("no".to_string())),
        Err(RpcError::InvalidSink(_))
    ));
    assert!(ConnectorClient::sink_validated(None).is_ok());
}

#[test]
fn stores_write_below_their_root() {
    let settings =
        WebhdfsSettings::new("http://hdfs:9870".to_string(), "/data".to_string(), "atomic");
    assert_eq!(settings.atomic_write_dir, "/data/atomic");
    assert_eq!(settings.root, "/data");
    let store = OpendalObjectStore::new_webhdfs_engine(
        settings.endpoint,
        settings.root,
        "atomic",
        3u8,
    );
    if let Ok(store) = store {
        assert_eq!(store.engine_type, EngineType::Webhdfs);
        assert_eq!(store.config, 3);
        assert_eq!(store.op.info().root(), "/data/");
        let again = OpendalObjectStore::on_webhdfs(Ok(store.op), 4u8).ok().unwrap();
        assert_eq!(again.config, 4);
        assert_eq!(again.op.info().scheme(), opendal::Scheme::Webhdfs);
    }
}
