//! Talking to a connector node: what is sent, and what its answers mean.
use std::collections::HashMap;
use vstd::prelude::*;
use vstd::string::*;

verus! {

/// What is sent to a writer of a sink.
#[derive(Debug)]
pub enum SinkWriterRequest {
    /// Rows of an epoch, in their encoded form.
    WriteBatch { epoch: u64, batch_id: u64, payload: Vec<u8> },
    /// The end of an epoch.
    Barrier { epoch: u64, is_checkpoint: bool },
}

/// What a writer of a sink has written, in its encoded form.
#[derive(Debug)]
pub struct CommitResponse {
    pub epoch: u64,
    pub metadata: Vec<u8>,
}

/// The answer of a writer of a sink.
#[derive(Debug)]
pub enum SinkWriterResponse {
    Start,
    Commit(CommitResponse),
    Empty,
}

/// What is sent to the coordinator of a sink.
#[derive(Debug)]
pub enum SinkCoordinatorRequest {
    Commit { epoch: u64, metadata: Vec<Vec<u8>> },
}

/// The answer of the coordinator of a sink.
#[derive(Clone, Copy, Debug, PartialEq, Eq, Structural)]
pub enum SinkCoordinatorResponse {
    Start,
    Commit { epoch: u64 },
    Empty,
}

/// What goes wrong when a connector node is used.
#[derive(Debug)]
pub enum RpcError {
    /// An answer to a start was expected.
    NotStart,
    /// An answer to a commit was expected.
    NotCommit,
    /// Another epoch was committed.
    DifferentEpoch { epoch: u64, response_epoch: u64 },
    /// A source is not valid.
    InvalidSource(String),
    /// A sink is not valid.
    InvalidSink(String),
    /// The address of the node is not valid.
    InvalidEndpoint,
}

/// The sending half of a writer of a sink.
#[derive(Clone, Copy, Debug, PartialEq, Eq, Structural)]
pub struct SinkWriterRequestSender {}

impl SinkWriterRequestSender {
    /// Rows of an epoch.
    pub fn write_batch(epoch: u64, batch_id: u64, payload: Vec<u8>) -> (res: SinkWriterRequest)
        ensures
            res == (SinkWriterRequest::WriteBatch { epoch, batch_id, payload }),
    {
        SinkWriterRequest::WriteBatch { epoch, batch_id, payload }
    }

    /// The end of an epoch.
    pub fn barrier(epoch: u64, is_checkpoint: bool) -> (res: SinkWriterRequest)
        ensures
            res == (SinkWriterRequest::Barrier { epoch, is_checkpoint }),
    {
        SinkWriterRequest::Barrier { epoch, is_checkpoint }
    }
}

/// A writer of a sink.
#[derive(Clone, Copy, Debug, PartialEq, Eq, Structural)]
pub struct SinkWriterStreamHandle {}

impl SinkWriterStreamHandle {
    /// Rows of an epoch.
    pub fn write_batch(epoch: u64, batch_id: u64, payload: Vec<u8>) -> (res: SinkWriterRequest)
        ensures
            res == (SinkWriterRequest::WriteBatch { epoch, batch_id, payload }),
    {
        SinkWriterRequestSender::write_batch(epoch, batch_id, payload)
    }

    /// The end of an epoch after which nothing is committed.
    pub fn barrier(epoch: u64) -> (res: SinkWriterRequest)
        ensures
            res == (SinkWriterRequest::Barrier { epoch, is_checkpoint: false }),
    {
        SinkWriterRequestSender::barrier(epoch, false)
    }

    /// The end of an epoch after which the writer says what it has written.
    pub fn commit(epoch: u64) -> (res: SinkWriterRequest)
        ensures
            res == (SinkWriterRequest::Barrier { epoch, is_checkpoint: true }),
    {
        SinkWriterRequestSender::barrier(epoch, true)
    }

    /// What the writer has written.
    pub fn next_commit_response(response: SinkWriterResponse) -> (res: Result<
        CommitResponse,
        RpcError,
    >)
        ensures
            match response {
                SinkWriterResponse::Commit(rsp) => res == Ok::<CommitResponse, RpcError>(rsp),
                _ => res matches Err(RpcError::NotCommit),
            },
    {
        match response {
            SinkWriterResponse::Commit(rsp) => Ok(rsp),
            _ => Err(RpcError::NotCommit),
        }
    }

    /// Whether the writer has started, by its first answer.
    pub fn started(first_rsp: &SinkWriterResponse) -> (res: Result<(), RpcError>)
        ensures
            *first_rsp is Start ==> res is Ok,
            !(*first_rsp is Start) ==> (res matches Err(RpcError::NotStart)),
    {
        match first_rsp {
            SinkWriterResponse::Start => Ok(()),
            _ => Err(RpcError::NotStart),
        }
    }
}

/// The coordinator of a sink.
#[derive(Clone, Copy, Debug, PartialEq, Eq, Structural)]
pub struct SinkCoordinatorStreamHandle {}

impl SinkCoordinatorStreamHandle {
    /// Asks for the commit of what the writers have written in an epoch.
    pub fn commit(epoch: u64, metadata: Vec<Vec<u8>>) -> (res: SinkCoordinatorRequest)
        ensures
            res == (SinkCoordinatorRequest::Commit { epoch, metadata }),
    {
        SinkCoordinatorRequest::Commit { epoch, metadata }
    }

    /// Whether the epoch was committed, by the answer.
    pub fn committed(epoch: u64, response: SinkCoordinatorResponse) -> (res: Result<(), RpcError>)
        ensures
            match response {
                SinkCoordinatorResponse::Commit { epoch: response_epoch } => if epoch
                    == response_epoch {
                    res is Ok
                } else {
                    res == Err::<(), RpcError>(RpcError::DifferentEpoch { epoch, response_epoch })
                },
                _ => res matches Err(RpcError::NotCommit),
            },
    {
        match response {
            SinkCoordinatorResponse::Commit { epoch: response_epoch } => {
                if epoch == response_epoch {
                    Ok(())
                } else {
                    Err(RpcError::DifferentEpoch { epoch, response_epoch })
                }
            },
            _ => Err(RpcError::NotCommit),
        }
    }

    /// Whether the coordinator has started, by its first answer.
    pub fn started(first_rsp: SinkCoordinatorResponse) -> (res: Result<(), RpcError>)
        ensures
            first_rsp is Start ==> res is Ok,
            !(first_rsp is Start) ==> (res matches Err(RpcError::NotStart)),
    {
        match first_rsp {
            SinkCoordinatorResponse::Start => Ok(()),
            _ => Err(RpcError::NotStart),
        }
    }
}

/// How the values of a column come about, if they are not given.
#[derive(Clone, Copy, Debug, PartialEq, Eq, Structural)]
pub enum GeneratedOrDefaultColumn {
    GeneratedColumn,
    DefaultColumn,
}

/// A column of a table.
#[derive(Debug)]
pub struct TableColumn {
    pub name: String,
    pub generated_or_default_column: Option<GeneratedOrDefaultColumn>,
}

/// The columns of a table.
#[derive(Debug)]
pub struct TableSchema {
    pub columns: Vec<TableColumn>,
    pub pk_indices: Vec<u32>,
}

/// The values of the column are given.
pub open spec fn is_given() -> spec_fn(TableColumn) -> bool {
    |c: TableColumn|
        c.generated_or_default_column != Some(GeneratedOrDefaultColumn::GeneratedColumn)
}

/// The columns without those that are generated.
fn without_generated(columns: Vec<TableColumn>) -> (res: Vec<TableColumn>)
    ensures
        res@ == columns@.filter(is_given()),
{
    let ghost all = columns@;
    let mut res: Vec<TableColumn> = Vec::new();
    assert(res@ =~= all.take(0).filter(is_given())) by {
        reveal(Seq::filter);
    }
    for column in it: columns
        invariant
            it.seq() == all,
            res@ == all.take(it.index() as int).filter(is_given()),
    {
        let ghost i: int = it.index() as int;
        proof {
            assert(all.take(i + 1).drop_last() =~= all.take(i));
            assert(all.take(i + 1).last() == column);
            reveal(Seq::filter);
        }
        let generated: bool = match column.generated_or_default_column {
            Some(GeneratedOrDefaultColumn::GeneratedColumn) => true,
            _ => false,
        };
        if !generated {
            res.push(column);
        }
    }
    assert(all.take(all.len() as int) =~= all);
    res
}

/// What is sent to start a stream of events.
#[derive(Debug)]
pub struct GetEventStreamRequest {
    pub source_id: u64,
    pub source_type: i32,
    pub start_offset: String,
    pub properties: HashMap<String, String>,
    pub snapshot_done: bool,
    pub is_source_job: bool,
}

/// What is sent to check a source.
#[derive(Debug)]
pub struct ValidateSourceRequest {
    pub source_id: u64,
    pub source_type: i32,
    pub properties: HashMap<String, String>,
    pub table_schema: Option<TableSchema>,
    pub is_source_job: bool,
    pub is_backfill_table: bool,
}

/// A connector node.
#[derive(Debug)]
pub struct ConnectorClient {
    pub endpoint: String,
}

impl ConnectorClient {
    /// The address under which a node is reached.
    pub fn url(connector_endpoint: &String) -> (res: String)
        ensures
            res@ == "http://"@ + connector_endpoint@,
    {
        let mut url = "http://".to_owned();
        url.append(connector_endpoint.as_str());
        url
    }

    /// A node, if its address is valid.
    pub fn new(connector_endpoint: &String, url_is_valid: bool) -> (res: Result<
        ConnectorClient,
        RpcError,
    >)
        ensures
            url_is_valid ==> (res matches Ok(client) && client.endpoint@ == connector_endpoint@),
            !url_is_valid ==> (res matches Err(RpcError::InvalidEndpoint)),
    {
        if url_is_valid {
            Ok(ConnectorClient { endpoint: connector_endpoint.clone() })
        } else {
            Err(RpcError::InvalidEndpoint)
        }
    }

    /// A node, if there is an address and it is valid.
    pub fn try_new(connector_endpoint: Option<&String>, url_is_valid: bool) -> (res: Option<
        ConnectorClient,
    >)
        ensures
            match connector_endpoint {
                Some(endpoint) => if url_is_valid {
                    res matches Some(client) && client.endpoint@ == endpoint@
                } else {
                    res is None
                },
                None => res is None,
            },
    {
        match connector_endpoint {
            None => None,
            Some(endpoint) => match ConnectorClient::new(endpoint, url_is_valid) {
                Ok(client) => Some(client),
                Err(_) => None,
            },
        }
    }

    /// The address of the node.
    pub fn endpoint(&self) -> (res: &String)
        ensures
            *res == self.endpoint,
    {
        &self.endpoint
    }

    /// What is sent to start a stream of events: without an offset it starts at the empty one.
    pub fn start_source_stream(
        source_id: u64,
        source_type: i32,
        start_offset: Option<String>,
        properties: HashMap<String, String>,
        snapshot_done: bool,
        is_source_job: bool,
    ) -> (res: GetEventStreamRequest)
        ensures
            res.source_id == source_id,
            res.source_type == source_type,
            res.start_offset@ == (match start_offset {
                Some(offset) => offset@,
                None => Seq::empty(),
            }),
            res.properties == properties,
            res.snapshot_done == snapshot_done,
            res.is_source_job == is_source_job,
    {
        let start_offset = match start_offset {
            Some(offset) => offset,
            None => String::new(),
        };
        assert(start_offset@ =~= start_offset@);
        GetEventStreamRequest {
            source_id,
            source_type,
            start_offset,
            properties,
            snapshot_done,
            is_source_job,
        }
    }

    /// What is sent to check a source: columns that are generated are left out.
    pub fn validate_source_properties(
        source_id: u64,
        source_type: i32,
        properties: HashMap<String, String>,
        table_schema: Option<TableSchema>,
        is_source_job: bool,
        is_backfill_table: bool,
    ) -> (res: ValidateSourceRequest)
        ensures
            res.source_id == source_id,
            res.source_type == source_type,
            res.properties == properties,
            res.is_source_job == is_source_job,
            res.is_backfill_table == is_backfill_table,
            match table_schema {
                Some(schema) => res.table_schema matches Some(s) && s.columns@
                    == schema.columns@.filter(is_given()) && s.pk_indices == schema.pk_indices,
                None => res.table_schema is None,
            },
    {
        let table_schema = match table_schema {
            Some(schema) => Some(
                TableSchema {
                    columns: without_generated(schema.columns),
                    pk_indices: schema.pk_indices,
                },
            ),
            None => None,
        };
        ValidateSourceRequest {
            source_id,
            source_type,
            properties,
            table_schema,
            is_source_job,
            is_backfill_table,
        }
    }

    /// Whether a source is valid, by the error in the answer.
    pub fn source_validated(error_message: Option<String>) -> (res: Result<(), RpcError>)
        ensures
            match error_message {
                Some(message) => res == Err::<(), RpcError>(RpcError::InvalidSource(message)),
                None => res is Ok,
            },
    {
        match error_message {
            Some(message) => Err(RpcError::InvalidSource(message)),
            None => Ok(()),
        }
    }

    /// Whether a sink is valid, by the error in the answer.
    pub fn sink_validated(error_message: Option<String>) -> (res: Result<(), RpcError>)
        ensures
            match error_message {
                Some(message) => res == Err::<(), RpcError>(RpcError::InvalidSink(message)),
                None => res is Ok,
            },
    {
        match error_message {
            Some(message) => Err(RpcError::InvalidSink(message)),
            None => Ok(()),
        }
    }
}

} // verus!
