//! What a connector node is asked, and what the mock table gives when it is read again and again.
use crate::connector::client::{
    is_given, ConnectorClient, GeneratedOrDefaultColumn, RpcError, SinkCoordinatorResponse,
    SinkCoordinatorStreamHandle, SinkWriterRequest, SinkWriterStreamHandle, TableColumn, TableSchema,
    ValidateSourceRequest,
};
use crate::connector::mock_external_table::{
    CdcOffset, MockExternalTableReader, MySqlOffset, SnapshotRow,
};
use crate::connector::webhdfs::WebhdfsSettings;
use std::collections::HashMap;
use vstd::prelude::*;

verus! {

/// The columns are among the given ones, the first before the second.
pub open spec fn in_turn(columns: Seq<TableColumn>, first: TableColumn, second: TableColumn) -> bool {
    exists|p: int, q: int|
        0 <= p < q < columns.len() && #[trigger] columns[p] == first && #[trigger] columns[q]
            == second
}

proof fn lemma_given(columns: Seq<TableColumn>, c: TableColumn)
    ensures
        columns.filter(is_given()).contains(c) <==> columns.contains(c)
            && c.generated_or_default_column != Some(GeneratedOrDefaultColumn::GeneratedColumn),
    decreases columns.len(),
{
    reveal(Seq::filter);
    if columns.len() > 0 {
        let rest = columns.drop_last();
        let n = columns.len() - 1;
        lemma_given(rest, c);
        let kept = rest.filter(is_given());
        let all = columns.filter(is_given());
        if columns.contains(c) {
            let i = choose|i: int| 0 <= i < columns.len() && columns[i] == c;
            if i < n {
                assert(rest[i] == c);
            }
        }
        if rest.contains(c) {
            let i = choose|i: int| 0 <= i < rest.len() && rest[i] == c;
            assert(columns[i] == c);
        }
        if kept.contains(c) {
            let i = choose|i: int| 0 <= i < kept.len() && kept[i] == c;
            assert(all[i] == c);
        }
        if all.contains(c) {
            let i = choose|i: int| 0 <= i < all.len() && all[i] == c;
            if i < kept.len() {
                assert(kept[i] == c);
            } else {
                assert(columns[n] == c);
            }
        }
        if columns[n] == c && is_given()(c) {
            assert(all[kept.len() as int] == c);
        }
    }
}

proof fn lemma_given_in_turn(columns: Seq<TableColumn>, i: int, j: int)
    requires
        0 <= i < j < columns.filter(is_given()).len(),
    ensures
        in_turn(columns, columns.filter(is_given())[i], columns.filter(is_given())[j]),
    decreases columns.len(),
{
    reveal(Seq::filter);
    if columns.len() > 0 {
        let rest = columns.drop_last();
        let kept = rest.filter(is_given());
        if j < kept.len() {
            lemma_given_in_turn(rest, i, j);
            let (p, q) = choose|p: int, q: int|
                0 <= p < q < rest.len() && #[trigger] rest[p] == kept[i] && #[trigger] rest[q]
                    == kept[j];
            assert(columns[p] == kept[i] && columns[q] == kept[j]);
        } else {
            lemma_given(rest, kept[i]);
            assert(kept.contains(kept[i]));
            let p = choose|p: int| 0 <= p < rest.len() && rest[p] == kept[i];
            assert(columns[p] == kept[i]);
            assert(columns[columns.len() - 1] == columns.filter(is_given())[j]);
        }
    }
}

/// A source is checked with all columns but those that are generated, in their order, and with its key.
pub proof fn lemma_checked_columns(
    source_id: u64,
    source_type: i32,
    properties: HashMap<String, String>,
    schema: TableSchema,
    is_source_job: bool,
    is_backfill_table: bool,
    res: ValidateSourceRequest,
    c: TableColumn,
    i: int,
    j: int,
)
    requires
        call_ensures(
            ConnectorClient::validate_source_properties,
            (source_id, source_type, properties, Some(schema), is_source_job, is_backfill_table),
            res,
        ),
    ensures
        res.source_id == source_id && res.source_type == source_type,
        res.is_source_job == is_source_job && res.is_backfill_table == is_backfill_table,
        res.table_schema matches Some(s) && s.pk_indices@ == schema.pk_indices@ && (
        s.columns@.contains(c) <==> schema.columns@.contains(c) && c.generated_or_default_column
            != Some(GeneratedOrDefaultColumn::GeneratedColumn)) && (0 <= i < j < s.columns@.len()
            ==> in_turn(schema.columns@, s.columns@[i], s.columns@[j])),
{
    lemma_given(schema.columns@, c);
    if 0 <= i < j < res.table_schema->Some_0.columns@.len() {
        lemma_given_in_turn(schema.columns@, i, j);
    }
}

/// An epoch is committed if and only if the coordinator answers with that epoch.
pub proof fn lemma_committed(epoch: u64, response: SinkCoordinatorResponse, res: Result<(), RpcError>)
    requires
        call_ensures(SinkCoordinatorStreamHandle::committed, (epoch, response), res),
    ensures
        res is Ok <==> response == (SinkCoordinatorResponse::Commit { epoch }),
        res matches Err(RpcError::DifferentEpoch { epoch: asked, response_epoch }) ==> asked == epoch
            && response == (SinkCoordinatorResponse::Commit { epoch: response_epoch })
            && response_epoch != epoch,
{
}

/// A commit and a barrier end the epoch that they are for, and only a commit makes a checkpoint of it.
pub proof fn lemma_epoch_ended(epoch: u64, plain: SinkWriterRequest, commit: SinkWriterRequest)
    requires
        call_ensures(SinkWriterStreamHandle::barrier, (epoch,), plain),
        call_ensures(SinkWriterStreamHandle::commit, (epoch,), commit),
    ensures
        plain matches SinkWriterRequest::Barrier { epoch: e, is_checkpoint } && e == epoch
            && !is_checkpoint,
        commit matches SinkWriterRequest::Barrier { epoch: e, is_checkpoint } && e == epoch
            && is_checkpoint,
{
}

/// The mock table gives its rows to the first reading and none to the second.
pub proof fn lemma_read_once(
    marks: Vec<MySqlOffset>,
    reader: MockExternalTableReader,
    first: &mut MockExternalTableReader,
    second: &mut MockExternalTableReader,
    a: Vec<SnapshotRow>,
    b: Vec<SnapshotRow>,
)
    requires
        call_ensures(MockExternalTableReader::new, (marks,), reader),
        *old(first) == reader,
        call_ensures(MockExternalTableReader::snapshot_read, (first,), a),
        *old(second) == *final(first),
        call_ensures(MockExternalTableReader::snapshot_read, (second,), b),
    ensures
        a@.len() > 0,
        b@.len() == 0,
        forall|i: int, j: int| 0 <= i < j < a@.len() ==> (#[trigger] a@[i]).id <= (#[trigger] a@[j]).id,
        final(second).binlog_watermarks == marks,
{
}

/// The places of the log come in the order of the watermarks, and no place is further than the one after them.
pub proof fn lemma_places_in_order(
    marks: Vec<MySqlOffset>,
    reader: MockExternalTableReader,
    i: usize,
    place: CdcOffset,
)
    requires
        call_ensures(MockExternalTableReader::new, (marks,), reader),
        call_ensures(MockExternalTableReader::current_cdc_offset, (&reader, i), place),
    ensures
        i < marks@.len() ==> (place matches CdcOffset::MySql(p) && p.filename@
            == marks@[i as int].filename@ && p.position == marks@[i as int].position),
        i >= marks@.len() ==> (place matches CdcOffset::MySql(p) && p.position == u64::MAX),
{
}

/// The directory to write to first lies under the root: the path of the root and a slash stand before it.
pub proof fn lemma_written_under_root(
    endpoint: String,
    root: String,
    write_dir: &str,
    res: WebhdfsSettings,
)
    requires
        call_ensures(WebhdfsSettings::new, (endpoint, root, write_dir), res),
    ensures
        res.endpoint@ == endpoint@ && res.root@ == root@,
        ({
            let n = root@.len() as int;
            &&& res.atomic_write_dir@.len() == n + 1 + write_dir@.len()
            &&& res.atomic_write_dir@.take(n) == root@
            &&& res.atomic_write_dir@[n] == '/'
            &&& res.atomic_write_dir@.skip(n + 1) == write_dir@
        }),
{
    reveal_strlit("/");
    let n = root@.len() as int;
    assert(res.atomic_write_dir@.take(n) =~= root@);
    assert(res.atomic_write_dir@.skip(n + 1) =~= write_dir@);
}

/// The address of a node is its endpoint behind the scheme.
pub proof fn lemma_url(endpoint: &String, res: String)
    requires
        call_ensures(ConnectorClient::url, (endpoint,), res),
    ensures
        res@.len() == 7 + endpoint@.len(),
        res@.skip(7) == endpoint@,
        res@.take(4) == seq!['h', 't', 't', 'p'],
        res@.subrange(4, 7) == seq![':', '/', '/'],
{
    reveal_strlit("http://");
    assert(res@.skip(7) =~= endpoint@);
    assert(res@.take(4) =~= seq!['h', 't', 't', 'p']);
    assert(res@.subrange(4, 7) =~= seq![':', '/', '/']);
}

} // verus!
