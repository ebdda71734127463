//! How the parallelism of one job is changed.
use crate::common::collections::map_keys;
use crate::common::worker::WorkerNode;
use crate::scale::control::{schedulable_workers, schedulable_workers_of};
use crate::scale::model::{ParallelUnitReschedule, ScaleError, TableFragments, TableParallelism};
use crate::scale::model::TableResizePolicy;
use crate::scale::no_shuffle::plans_of;
use crate::scale::resize::{all_one_downstream, generate_table_resize_plan, table_resize_plan};
use crate::scale::resize::tables_resizable;
use crate::scale::tables::tables_valid;
use crate::scale::units::{all_units, slots_countable, units_of_workers};
use std::collections::BTreeMap;
use vstd::prelude::*;

verus! {

broadcast use {
    vstd::std_specs::btree::group_btree_axioms,
    vstd::laws_cmp::group_laws_cmp,
};

/// How a change of parallelism is carried out.
#[derive(Debug)]
pub enum AlterDecision {
    /// The parallelism is recorded; nothing moves.
    Record,
    /// The actors are rescheduled.
    Reschedule(BTreeMap<u32, ParallelUnitReschedule>),
}

/// Decides how the parallelism of a job is changed: a deferred change, and one that moves no actor, is only
/// recorded.
pub fn alter_table_parallelism(
    table_id: u32,
    parallelism: TableParallelism,
    deferred: bool,
    workers: &Vec<WorkerNode>,
    tables: &Vec<TableFragments>,
) -> (res: Result<AlterDecision, ScaleError>)
    requires
        deferred || {
            &&& tables_valid(tables@)
            &&& all_one_downstream(tables@)
            &&& tables_resizable(tables@, Map::empty().insert(table_id, parallelism))
            &&& slots_countable(units_of_workers(workers@, schedulable_workers_of(workers@)))
            &&& all_units(units_of_workers(workers@, schedulable_workers_of(workers@))).len()
                <= u32::MAX
        },
    ensures
        if deferred {
            res matches Ok(decision) && decision is Record
        } else {
            match table_resize_plan(
                schedulable_workers_of(workers@),
                Map::empty().insert(table_id, parallelism),
                workers@,
                tables@,
            ) {
                Err(e) => res matches Err(err) && err == e,
                Ok(plan) => if plan.dom().is_empty() {
                    res matches Ok(decision) && decision is Record
                } else {
                    res matches Ok(AlterDecision::Reschedule(p)) && plans_of(p@) == plan
                },
            }
        },
{
    if deferred {
        return Ok(AlterDecision::Record);
    }
    let worker_ids = schedulable_workers(workers);
    let mut table_parallelisms: BTreeMap<u32, TableParallelism> = BTreeMap::new();
    table_parallelisms.insert(table_id, parallelism);
    assert(table_parallelisms@ =~= Map::empty().insert(table_id, parallelism));
    let policy = TableResizePolicy { worker_ids, table_parallelisms };
    let plan = match generate_table_resize_plan(&policy, workers, tables) {
        Ok(plan) => plan,
        Err(e) => {
            return Err(e);
        },
    };
    assert(plans_of(plan@).dom() =~= plan@.dom());
    let keys = map_keys(&plan);
    assert(plan@.dom().is_empty() <==> keys@.len() == 0) by {
        if keys@.len() > 0 {
            assert(keys@.to_set().contains(keys@[0]));
        } else {
            assert(keys@.to_set() =~= Set::<u32>::empty());
        }
    }
    if keys.len() == 0 {
        Ok(AlterDecision::Record)
    } else {
        Ok(AlterDecision::Reschedule(plan))
    }
}

} // verus!
