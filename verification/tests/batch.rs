use risingwave_core::batch::hash_agg::{
    AggError, GroupResults, HashAggExecutor, HashAggExecutorBuilder, IntAggregate,
};
use risingwave_core::batch::memory::{MemoryContext, OutOfMemory};
use risingwave_core::batch::merge_sort_exchange::{
    BuildError, MergeSortExchangeExecutorBuilder, MergeSortExchangeExecutorImpl, Progress,
};
use risingwave_core::frontend::types::SqlType;
use risingwave_core::batch::row::{compare_rows, ColumnOrder, Compared, DataChunk, NullsAre, Row};
use std::collections::VecDeque;

const CHUNK_SIZE: usize = 1024;

fn row(values: &[i64]) -> Row {
    Row { values: values.iter().map(|v| Some(*v)).collect() }
}

fn chunk(rows: &[&[i64]]) -> DataChunk {
    DataChunk { rows: rows.iter().map(|r| row(r)).collect(), visibility: vec![true; rows.len()] }
}

fn values(rows: &[Row]) -> Vec<Vec<Option<i64>>> {
    rows.iter().map(|r| r.values.clone()).collect()
}

fn sorted_values(rows: &[Row]) -> Vec<Vec<Option<i64>>> {
    let mut all = values(rows);
    all.sort();
    all
}

#[test]
fn execute_int32_grouped() {
    let input = chunk(&[
        &[0, 1, 1],
        &[1, 1, 1],
        &[0, 0, 1],
        &[1, 1, 2],
        &[1, 0, 1],
        &[0, 0, 2],
        &[1, 1, 3],
        &[0, 1, 2],
    ]);
    let (mut executor, schema) = HashAggExecutorBuilder::deserialize(
        &vec![0, 1],
        &vec![SqlType::Int32, SqlType::Int32, SqlType::Int64],
        vec![IntAggregate::Sum(2)],
        &vec![SqlType::Int64],
        CHUNK_SIZE,
    );
    assert_eq!(schema, vec![SqlType::Int32, SqlType::Int32, SqlType::Int64]);
    let used = executor.consume_chunk(&input).unwrap();

    let mut results: GroupResults = executor.finish();
    let rows = executor.next_output(&mut results, false).unwrap().unwrap();
    let expected: Vec<Vec<Option<i64>>> = vec![
        vec![Some(0), Some(0), Some(3)],
        vec![Some(0), Some(1), Some(3)],
        vec![Some(1), Some(0), Some(1)],
        vec![Some(1), Some(1), Some(6)],
    ];
    assert_eq!(sorted_values(&rows), expected);
    assert!(executor.next_output(&mut results, false).unwrap().is_none());

    // check estimated memory usage = 4 groups x state size
    assert_eq!(used as usize, 4 * 24);
}

#[test]
fn execute_count_star() {
    let input = chunk(&[&[0], &[1], &[0], &[1], &[1], &[0], &[1], &[0]]);
    let mut executor = HashAggExecutor::new(vec![IntAggregate::CountStar], vec![], CHUNK_SIZE);
    executor.consume_chunk(&input).unwrap();
    let mut results = executor.finish();
    let rows = executor.next_output(&mut results, false).unwrap().unwrap();
    assert_eq!(values(&rows), vec![vec![Some(8)]]);
    assert!(executor.next_output(&mut results, false).unwrap().is_none());
}

#[test]
fn test_shutdown() {
    let input = chunk(&[&[0, 1, 1]]);
    let mut executor = HashAggExecutor::new(vec![IntAggregate::Sum(2)], vec![0, 1], CHUNK_SIZE);
    executor.consume_chunk(&input).unwrap();
    let mut results = executor.finish();
    let data = executor.next_output(&mut results, true);
    assert!(matches!(data, Err(AggError::Aborted)));
}

#[test]
fn invisible_rows_are_not_counted() {
    let mut input = chunk(&[&[0, 5], &[0, 6], &[1, 7]]);
    input.visibility[1] = false;
    input.rows.push(Row { values: vec![Some(0), None] });
    input.visibility.push(true);
    let aggs = vec![IntAggregate::Sum(1), IntAggregate::Count(1), IntAggregate::CountStar];
    let mut executor = HashAggExecutor::new(aggs, vec![0], CHUNK_SIZE);
    executor.consume_chunk(&input).unwrap();
    let mut results = executor.finish();
    let rows = executor.next_output(&mut results, false).unwrap().unwrap();
    assert_eq!(
        sorted_values(&rows),
        vec![
            vec![Some(0), Some(5), Some(1), Some(2)],
            vec![Some(1), Some(7), Some(1), Some(1)],
        ]
    );
}

#[test]
fn sums_out_of_range_are_errors() {
    let input = chunk(&[&[i64::MAX], &[1]]);
    let mut executor = HashAggExecutor::new(vec![IntAggregate::Sum(0)], vec![], CHUNK_SIZE);
    assert!(matches!(executor.consume_chunk(&input), Err(AggError::NumericOutOfRange)));
    let mut results = executor.finish();
    let rows = executor.next_output(&mut results, false).unwrap().unwrap();
    assert_eq!(values(&rows), vec![vec![Some(i64::MAX)]]);
}

#[test]
fn results_come_in_chunks() {
    let input = chunk(&[&[1], &[2], &[3], &[2]]);
    let mut executor = HashAggExecutor::new(vec![IntAggregate::CountStar], vec![0], 2);
    executor.consume_chunk(&input).unwrap();
    let mut results = executor.finish();
    let first = executor.next_output(&mut results, false).unwrap().unwrap();
    let second = executor.next_output(&mut results, false).unwrap().unwrap();
    assert_eq!(first.len(), 2);
    assert_eq!(second.len(), 1);
    assert!(executor.next_output(&mut results, false).unwrap().is_none());
    let mut all = first;
    all.extend(second);
    assert_eq!(
        sorted_values(&all),
        vec![vec![Some(1), Some(1)], vec![Some(2), Some(2)], vec![Some(3), Some(1)]]
    );
}

#[test]
fn groups_hold_what_their_rows_come_to() {
    let mut one = HashAggExecutor::new(vec![IntAggregate::Sum(1)], vec![0], CHUNK_SIZE);
    one.consume_chunk(&chunk(&[&[1, 10], &[2, 20], &[1, 30]])).unwrap();
    one.consume_chunk(&chunk(&[&[2, 5]])).unwrap();
    let mut results = one.finish();
    let rows = one.next_output(&mut results, false).unwrap().unwrap();
    assert_eq!(
        sorted_values(&rows),
        vec![vec![Some(1), Some(40)], vec![Some(2), Some(25)]]
    );
}

#[test]
fn groups_stay_within_the_memory() {
    let mut executor = HashAggExecutor::new(vec![IntAggregate::Sum(1)], vec![0], CHUNK_SIZE);
    let mut memory = MemoryContext::new(60);
    executor.consume_chunk_within(&chunk(&[&[1, 10], &[2, 20]]), &mut memory).unwrap();
    assert_eq!(memory.get_bytes_used(), 48);
    executor.consume_chunk_within(&chunk(&[&[1, 10], &[2, 20]]), &mut memory).unwrap();
    assert_eq!(memory.get_bytes_used(), 48);
    assert_eq!(
        executor.consume_chunk_within(&chunk(&[&[3, 30]]), &mut memory),
        Err(AggError::OutOfMemory(60))
    );
    assert_eq!(
        executor.consume_chunk_within(&chunk(&[&[1, i64::MAX]]), &mut memory),
        Err(AggError::NumericOutOfRange)
    );
}

#[test]
fn memory_is_counted() {
    let mut memory = MemoryContext::new(10);
    assert!(memory.add(10));
    assert!(memory.check_memory_usage());
    assert_eq!(memory.ensure_within_limit(), Ok(()));
    assert!(!memory.add(1));
    assert_eq!(memory.ensure_within_limit(), Err(OutOfMemory { mem_limit: 10 }));
    assert!(memory.add(-4));
    assert_eq!((memory.get_bytes_used(), memory.mem_limit()), (7, 10));
}

fn ascending(column_index: usize) -> ColumnOrder {
    ColumnOrder { column_index, is_descending: false, nulls_are: NullsAre::Largest }
}

#[test]
fn test_exchange_multiple_sources() {
    let num_sources = 2;
    let mut executor =
        MergeSortExchangeExecutorImpl::new(num_sources, vec![ascending(0)], CHUNK_SIZE);
    let mut sources: Vec<Vec<DataChunk>> =
        (0..num_sources).map(|_| vec![chunk(&[&[1], &[2], &[3]])]).collect();
    let mut out: Vec<Vec<Row>> = vec![];
    while let Some(k) = executor.awaited {
        executor.get_source_chunk(sources[k].pop());
    }
    loop {
        match executor.produce() {
            Progress::NeedChunk(k) => executor.get_source_chunk(sources[k].pop()),
            Progress::Chunk(rows) => out.push(rows),
            Progress::Done => break,
        }
    }
    assert_eq!(out.len(), 1);
    let res = &out[0];
    assert_eq!(res.len(), 3 * num_sources);
    assert_eq!(res[0].values[0], Some(1));
    assert_eq!(res[1].values[0], Some(1));
    assert_eq!(res[2].values[0], Some(2));
    assert_eq!(res[3].values[0], Some(2));
    assert_eq!(res[4].values[0], Some(3));
    assert_eq!(res[5].values[0], Some(3));
}

#[test]
fn merged_rows_come_in_order_and_in_chunks() {
    let mut executor = MergeSortExchangeExecutorImpl::new(3, vec![ascending(0)], 4);
    let mut sources: Vec<Vec<DataChunk>> = vec![
        vec![chunk(&[&[8], &[9]]), chunk(&[&[1], &[4]])],
        vec![],
        vec![chunk(&[&[2], &[3], &[10]])],
    ];
    while let Some(k) = executor.awaited {
        executor.get_source_chunk(sources[k].pop());
    }
    let mut out: Vec<Vec<i64>> = vec![];
    loop {
        match executor.produce() {
            Progress::NeedChunk(k) => executor.get_source_chunk(sources[k].pop()),
            Progress::Chunk(rows) => out.push(rows.iter().map(|r| r.values[0].unwrap()).collect()),
            Progress::Done => break,
        }
    }
    assert_eq!(out, vec![vec![1, 2, 3, 4], vec![8, 9, 10]]);
}

#[test]
fn a_whole_run_gives_all_rows_in_order() {
    let run = |size: usize, sources: Vec<Vec<DataChunk>>| -> Vec<Vec<i64>> {
        MergeSortExchangeExecutorImpl::new(sources.len(), vec![ascending(0)], size)
            .do_execute(sources.into_iter().map(VecDeque::from).collect())
            .iter()
            .map(|rows| rows.iter().map(|r| r.values[0].unwrap()).collect())
            .collect()
    };
    let source = || vec![chunk(&[&[1], &[2], &[3]])];
    assert_eq!(run(6, vec![source(), source()]), vec![vec![1, 1, 2, 2, 3, 3]]);
    assert_eq!(run(CHUNK_SIZE, vec![source(), source()]), vec![vec![1, 1, 2, 2, 3, 3]]);
    assert_eq!(run(4, vec![source(), source()]), vec![vec![1, 1, 2, 2], vec![3, 3]]);
    let mut hidden = chunk(&[&[5], &[0], &[7]]);
    hidden.visibility[1] = false;
    assert_eq!(
        run(2, vec![vec![chunk(&[&[4]]), hidden], vec![], vec![chunk(&[&[6]])]]),
        vec![vec![4, 5], vec![6, 7]]
    );
    assert!(run(3, vec![vec![], vec![]]).is_empty());
    assert!(run(3, vec![]).is_empty());
}

#[test]
fn exchanges_need_sources() {
    assert!(matches!(
        MergeSortExchangeExecutorBuilder::build(1, 1, vec![], 1),
        Err(BuildError::HasChild)
    ));
    assert!(matches!(
        MergeSortExchangeExecutorBuilder::build(0, 0, vec![], 1),
        Err(BuildError::NoSource)
    ));
    assert!(MergeSortExchangeExecutorBuilder::build(0, 2, vec![], 1).is_ok());
}

#[test]
fn rows_compare_by_columns_and_missing_values() {
    let orders = vec![
        ascending(0),
        ColumnOrder { column_index: 1, is_descending: true, nulls_are: NullsAre::Smallest },
    ];
    let a = row(&[1, 5]);
    let b = row(&[1, 7]);
    let missing = Row { values: vec![Some(1), None] };
    assert_eq!(compare_rows(&a, &b, &orders), Compared::Greater);
    assert_eq!(compare_rows(&b, &a, &orders), Compared::Less);
    assert_eq!(compare_rows(&a, &a, &orders), Compared::Equal);
    assert_eq!(compare_rows(&missing, &a, &orders), Compared::Greater);
    let first = vec![ascending(1)];
    assert_eq!(compare_rows(&missing, &a, &first), Compared::Greater);
}
