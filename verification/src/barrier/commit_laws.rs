//! What a checkpoint commits, said of the files, watermarks and subscriptions one by one.
use crate::barrier::commit::{all_extended, collect_commit_epoch_info, collect_progress, enter_worker};
use crate::barrier::commit::{finished_commands, get_ddl_progress, old_values, present, progress_map};
use crate::barrier::commit::{progress_of, subscribed, synced, with_creating, writers};
use crate::barrier::commit::{CommitEpochInfo, CreatingTable, DdlProgress, NewTableFragmentInfo, Progress};
use crate::barrier::model::{BarrierCompleteResponse, CreateMviewProgress, GroupedSstableInfo};
use crate::common::collections::{ascending, ascending_of, lemma_ascending_exists};
use std::collections::BTreeMap;
use vstd::prelude::*;

verus! {

broadcast use {vstd::std_specs::btree::group_btree_axioms, vstd::laws_cmp::group_laws_cmp};

/// How many files the first workers wrote.
pub open spec fn files_before(resps: Seq<BarrierCompleteResponse>, i: int) -> int
    decreases i,
{
    if i <= 0 {
        0
    } else {
        files_before(resps, i - 1) + resps[i - 1].synced_sstables@.len()
    }
}

/// How many files with old values the first workers wrote.
pub open spec fn old_files_before(resps: Seq<BarrierCompleteResponse>, i: int) -> int
    decreases i,
{
    if i <= 0 {
        0
    } else {
        old_files_before(resps, i - 1) + resps[i - 1].old_value_sstables@.len()
    }
}

/// How many reports of progress the first workers sent.
pub open spec fn reports_before(resps: Seq<BarrierCompleteResponse>, i: int) -> int
    decreases i,
{
    if i <= 0 {
        0
    } else {
        reports_before(resps, i - 1) + resps[i - 1].create_mview_progress@.len()
    }
}

proof fn lemma_files_prefix(
    a: Seq<BarrierCompleteResponse>,
    b: Seq<BarrierCompleteResponse>,
    i: int,
)
    requires
        i <= a.len(),
        i <= b.len(),
        forall|k: int| 0 <= k < i ==> a[k] == b[k],
    ensures
        files_before(a, i) == files_before(b, i),
        old_files_before(a, i) == old_files_before(b, i),
        reports_before(a, i) == reports_before(b, i),
    decreases i,
{
    if i > 0 {
        lemma_files_prefix(a, b, i - 1);
    }
}

proof fn lemma_synced(resps: Seq<BarrierCompleteResponse>, i: int, j: int)
    ensures
        synced(resps).len() == files_before(resps, resps.len() as int),
        old_values(resps).len() == old_files_before(resps, resps.len() as int),
        progress_of(resps).len() == reports_before(resps, resps.len() as int),
        0 <= i < resps.len() && 0 <= j < resps[i].synced_sstables@.len() ==> {
            let at = files_before(resps, i) + j;
            let file = resps[i].synced_sstables@[j];
            &&& 0 <= at < synced(resps).len()
            &&& synced(resps)[at].sst_info == file.sst
            &&& synced(resps)[at].compaction_group_id == file.compaction_group_id
            &&& synced(resps)[at].table_stats == file.table_stats_map
        },
        0 <= i < resps.len() && 0 <= j < resps[i].old_value_sstables@.len() ==> {
            let at = old_files_before(resps, i) + j;
            &&& 0 <= at < old_values(resps).len()
            &&& old_values(resps)[at] == resps[i].old_value_sstables@[j]
        },
        0 <= i < resps.len() && 0 <= j < resps[i].create_mview_progress@.len() ==> {
            let at = reports_before(resps, i) + j;
            &&& 0 <= at < progress_of(resps).len()
            &&& progress_of(resps)[at] == resps[i].create_mview_progress@[j]
        },
    decreases resps.len(),
{
    if resps.len() > 0 {
        let front = resps.drop_last();
        let n = resps.len() - 1;
        lemma_synced(front, i, j);
        lemma_files_prefix(front, resps, n);
        assert(resps[n] == resps.last());
        assert(all_extended(resps[n].synced_sstables@).len() == resps[n].synced_sstables@.len());
        if 0 <= i < n {
            lemma_files_prefix(front, resps, i);
            assert(front[i] == resps[i]);
        }
    }
}

/// A checkpoint commits every file of every worker as it came, worker by worker, and no other; likewise the files
/// with old values, and the watermarks of every worker.
pub proof fn lemma_every_file_committed(
    resps: Vec<BarrierCompleteResponse>,
    job: Option<NewTableFragmentInfo>,
    subscriptions: &BTreeMap<u32, BTreeMap<u32, u64>>,
    res: CommitEpochInfo,
    i: int,
    j: int,
)
    requires
        call_ensures(collect_commit_epoch_info, (resps, job, subscriptions), res),
        0 <= i < resps@.len(),
    ensures
        res.sstables@.len() == files_before(resps@, resps@.len() as int),
        res.old_value_ssts@.len() == old_files_before(resps@, resps@.len() as int),
        res.new_table_watermarks@.len() == resps@.len(),
        res.new_table_watermarks@[i] == resps@[i].table_watermarks,
        res.new_table_fragment_info == job,
        0 <= j < resps@[i].synced_sstables@.len() ==> {
            let file = resps@[i].synced_sstables@[j];
            let out = res.sstables@[files_before(resps@, i) + j];
            out.sst_info == file.sst && out.compaction_group_id == file.compaction_group_id
                && out.table_stats == file.table_stats_map
        },
        0 <= j < resps@[i].old_value_sstables@.len() ==> res.old_value_ssts@[old_files_before(
            resps@,
            i,
        ) + j] == resps@[i].old_value_sstables@[j],
{
    lemma_synced(resps@, i, j);
}

/// All reports of progress are taken over, worker by worker.
pub proof fn lemma_every_report_taken(
    resps: &Vec<BarrierCompleteResponse>,
    res: Vec<CreateMviewProgress>,
    i: int,
    j: int,
)
    requires
        call_ensures(collect_progress, (resps,), res),
        0 <= i < resps@.len(),
        0 <= j < resps@[i].create_mview_progress@.len(),
    ensures
        res@.len() == reports_before(resps@, resps@.len() as int),
        res@[reports_before(resps@, i) + j] == resps@[i].create_mview_progress@[j],
{
    lemma_synced(resps@, i, j);
}

/// The worker wrote the file.
pub open spec fn wrote(resp: BarrierCompleteResponse, file: u64) -> bool {
    exists|j: int|
        0 <= j < resp.synced_sstables@.len() && (#[trigger] resp.synced_sstables@[j]).sst.object_id
            == file
}

proof fn lemma_enter_worker(
    m: Map<u64, u32>,
    groups: Seq<GroupedSstableInfo>,
    worker_id: u32,
    file: u64,
)
    ensures
        ({
            let own = exists|j: int|
                0 <= j < groups.len() && (#[trigger] groups[j]).sst.object_id == file;
            let after = enter_worker(m, groups, worker_id);
            &&& after.contains_key(file) <==> own || m.contains_key(file)
            &&& own ==> after[file] == worker_id
            &&& !own && m.contains_key(file) ==> after[file] == m[file]
        }),
    decreases groups.len(),
{
    if groups.len() > 0 {
        let front = groups.drop_last();
        let n = groups.len() - 1;
        lemma_enter_worker(m, front, worker_id, file);
        assert(groups[n] == groups.last());
        if exists|j: int| 0 <= j < front.len() && (#[trigger] front[j]).sst.object_id == file {
            let j = choose|j: int|
                0 <= j < front.len() && (#[trigger] front[j]).sst.object_id == file;
            assert(groups[j] == front[j]);
        }
        if exists|j: int| 0 <= j < groups.len() && (#[trigger] groups[j]).sst.object_id == file {
            let j = choose|j: int|
                0 <= j < groups.len() && (#[trigger] groups[j]).sst.object_id == file;
            if j < n {
                assert(front[j] == groups[j]);
            }
        }
    }
}

proof fn lemma_writers(resps: Seq<BarrierCompleteResponse>, file: u64)
    ensures
        writers(resps).contains_key(file) <==> exists|i: int|
            0 <= i < resps.len() && wrote(#[trigger] resps[i], file),
        writers(resps).contains_key(file) ==> exists|i: int|
            0 <= i < resps.len() && wrote(#[trigger] resps[i], file) && writers(resps)[file]
                == resps[i].worker_id && forall|k: int|
                i < k < resps.len() ==> !wrote(#[trigger] resps[k], file),
    decreases resps.len(),
{
    if resps.len() > 0 {
        let front = resps.drop_last();
        let n = resps.len() - 1;
        lemma_writers(front, file);
        let last = resps.last();
        assert(resps[n] == last);
        lemma_enter_worker(writers(front), last.synced_sstables@, last.worker_id, file);
        if wrote(last, file) {
            assert(wrote(resps[n], file));
        } else {
            if writers(front).contains_key(file) {
                let i = choose|i: int|
                    0 <= i < front.len() && wrote(#[trigger] front[i], file) && writers(
                        front,
                    )[file] == front[i].worker_id && forall|k: int|
                        i < k < front.len() ==> !wrote(#[trigger] front[k], file);
                assert(wrote(resps[i], file));
                assert forall|k: int| i < k < resps.len() implies !wrote(
                    #[trigger] resps[k],
                    file,
                ) by {
                    if k < n {
                        assert(front[k] == resps[k]);
                    }
                }
            }
            if exists|i: int| 0 <= i < resps.len() && wrote(#[trigger] resps[i], file) {
                let i = choose|i: int| 0 <= i < resps.len() && wrote(#[trigger] resps[i], file);
                assert(front[i] == resps[i]);
            }
        }
    }
}

/// A file is entered with the worker that wrote it, or with the last of several; one that none wrote is not
/// entered.
pub proof fn lemma_writer_entered(
    resps: Vec<BarrierCompleteResponse>,
    job: Option<NewTableFragmentInfo>,
    subscriptions: &BTreeMap<u32, BTreeMap<u32, u64>>,
    res: CommitEpochInfo,
    file: u64,
)
    requires
        call_ensures(collect_commit_epoch_info, (resps, job, subscriptions), res),
    ensures
        res.sst_to_worker@.contains_key(file) <==> exists|i: int|
            0 <= i < resps@.len() && wrote(#[trigger] resps@[i], file),
        res.sst_to_worker@.contains_key(file) ==> exists|i: int|
            0 <= i < resps@.len() && wrote(#[trigger] resps@[i], file) && res.sst_to_worker@[file]
                == resps@[i].worker_id && forall|k: int|
                i < k < resps@.len() ==> !wrote(#[trigger] resps@[k], file),
{
    lemma_writers(resps@, file);
}

proof fn lemma_subscribed(ids: Seq<u32>, subscriptions: Map<u32, BTreeMap<u32, u64>>, t: u32)
    requires
        ascending(ids),
    ensures
        subscribed(ids, subscriptions).contains(t) <==> ids.contains(t)
            && !subscriptions[t]@.dom().is_empty(),
        ascending(subscribed(ids, subscriptions)),
        ids.len() > 0 ==> forall|i: int|
            0 <= i < subscribed(ids, subscriptions).len() ==> subscribed(ids, subscriptions)[i]
                <= ids.last(),
    decreases ids.len(),
{
    if ids.len() > 0 {
        let front = ids.drop_last();
        lemma_subscribed(front, subscriptions, t);
        let before = subscribed(front, subscriptions);
        let now = subscribed(ids, subscriptions);
        assert(ids[ids.len() - 1] == ids.last());
        if front.len() > 0 {
            assert(front.last() == ids[ids.len() - 2]);
        }
        if ids.contains(t) && ids.last() != t {
            let i = ids.index_of(t);
            assert(front[i] == t);
        }
        if front.contains(t) {
            assert(ids[front.index_of(t)] == t);
        }
        if !subscriptions[ids.last()]@.dom().is_empty() {
            assert(now[before.len() as int] == ids.last());
            if before.contains(t) {
                assert(now[before.index_of(t)] == t);
            }
        }
    } else {
        assert(!ids.contains(t));
        assert(!subscribed(ids, subscriptions).contains(t));
    }
}

/// The changes of a table are kept if something subscribes to it, and for the longest time that a subscription
/// asks for; each table is listed once.
pub proof fn lemma_longest_retention(
    resps: Vec<BarrierCompleteResponse>,
    job: Option<NewTableFragmentInfo>,
    subscriptions: &BTreeMap<u32, BTreeMap<u32, u64>>,
    res: CommitEpochInfo,
    t: u32,
    s: u32,
)
    requires
        call_ensures(collect_commit_epoch_info, (resps, job, subscriptions), res),
        subscriptions@.contains_key(t),
        subscriptions@[t]@.contains_key(s),
    ensures
        exists|i: int|
            0 <= i < res.max_retentions@.len() && (#[trigger] res.max_retentions@[i]).0 == t
                && res.max_retentions@[i].1 >= subscriptions@[t]@[s] && exists|x: u32| #[trigger]
                subscriptions@[t]@.contains_key(x) && subscriptions@[t]@[x]
                    == res.max_retentions@[i].1,
        forall|i: int, j: int|
            0 <= i < j < res.max_retentions@.len() ==> (#[trigger] res.max_retentions@[i]).0 < (
            #[trigger] res.max_retentions@[j]).0,
        forall|i: int|
            0 <= i < res.max_retentions@.len() ==> subscriptions@.contains_key(
                (#[trigger] res.max_retentions@[i]).0,
            ),
{
    lemma_ascending_exists(subscriptions@.dom());
    let ids = ascending_of(subscriptions@.dom());
    lemma_subscribed(ids, subscriptions@, t);
    let list = subscribed(ids, subscriptions@);
    assert(ids.to_set().contains(t));
    assert(subscriptions@[t]@.dom().contains(s));
    assert(list.contains(t));
    let i = list.index_of(t);
    assert(res.max_retentions@[i].0 == t);
    assert forall|i: int| 0 <= i < res.max_retentions@.len() implies subscriptions@.contains_key(
        (#[trigger] res.max_retentions@[i]).0,
    ) by {
        let x = list[i];
        lemma_subscribed(ids, subscriptions@, x);
        assert(list.contains(x));
        assert(ids.to_set().contains(x));
    }
}

/// How many of the first commands are there.
pub open spec fn there_before(commands: Seq<Option<u64>>, i: int) -> int
    decreases i,
{
    if i <= 0 {
        0
    } else {
        there_before(commands, i - 1) + (if commands[i - 1] is Some {
            1int
        } else {
            0int
        })
    }
}

proof fn lemma_there_prefix(a: Seq<Option<u64>>, b: Seq<Option<u64>>, i: int)
    requires
        i <= a.len(),
        i <= b.len(),
        forall|k: int| 0 <= k < i ==> a[k] == b[k],
    ensures
        there_before(a, i) == there_before(b, i),
        i >= 0 ==> 0 <= there_before(a, i) <= i,
    decreases i,
{
    if i > 0 {
        lemma_there_prefix(a, b, i - 1);
    }
}

proof fn lemma_present(commands: Seq<Option<u64>>)
    ensures
        present(commands).len() == there_before(commands, commands.len() as int),
        forall|i: int|
            0 <= i < commands.len() && (#[trigger] commands[i]) is Some ==> 0 <= there_before(
                commands,
                i,
            ) < present(commands).len() && present(commands)[there_before(commands, i)]
                == commands[i]->Some_0,
    decreases commands.len(),
{
    if commands.len() > 0 {
        let front = commands.drop_last();
        let n = commands.len() - 1;
        lemma_present(front);
        lemma_there_prefix(front, commands, n);
        assert(commands[n] == commands.last());
        assert forall|i: int| 0 <= i < commands.len() && (#[trigger] commands[i]) is Some implies 0
            <= there_before(commands, i) < present(commands).len() && present(
            commands,
        )[there_before(commands, i)] == commands[i]->Some_0 by {
            if i < n {
                lemma_there_prefix(front, commands, i);
                assert(front[i] == commands[i]);
            }
        }
    }
}

/// The commands that are finished: first the new one if it is there, and after it those that are there among the
/// others, in their order, and nothing else.
pub proof fn lemma_finished_in_order(
    added: Option<u64>,
    updated: &Vec<Option<u64>>,
    res: Vec<u64>,
    i: int,
)
    requires
        call_ensures(finished_commands, (added, updated), res),
    ensures
        ({
            let first: int = if added is Some {
                1
            } else {
                0
            };
            &&& res@.len() == first + there_before(updated@, updated@.len() as int)
            &&& added is Some ==> res@[0] == added->Some_0
            &&& 0 <= i < updated@.len() && updated@[i] is Some ==> res@[first + there_before(
                updated@,
                i,
            )] == updated@[i]->Some_0
        }),
{
    lemma_present(updated@);
    if 0 <= i < updated@.len() && updated@[i] is Some {
        assert(updated@[i] is Some);
    }
}

proof fn lemma_with_creating(m: Map<u32, Progress>, tables: Seq<CreatingTable>, id: u32)
    ensures
        ({
            let waiting = exists|j: int|
                0 <= j < tables.len() && (#[trigger] tables[j]).id == id
                    && tables[j].is_materialized_view;
            let all = with_creating(m, tables);
            &&& all.contains_key(id) <==> m.contains_key(id) || waiting
            &&& m.contains_key(id) ==> all[id] == m[id]
            &&& !m.contains_key(id) && waiting ==> all[id].id == id as u64 && all[id].progress
                == "0.0%"@ && exists|j: int|
                0 <= j < tables.len() && (#[trigger] tables[j]).id == id
                    && tables[j].is_materialized_view && all[id].statement == tables[j].definition@
        }),
    decreases tables.len(),
{
    if tables.len() > 0 {
        let front = tables.drop_last();
        let n = tables.len() - 1;
        lemma_with_creating(m, front, id);
        let before = with_creating(m, front);
        assert(tables[n] == tables.last());
        if exists|j: int|
            0 <= j < front.len() && (#[trigger] front[j]).id == id
                && front[j].is_materialized_view {
            let j = choose|j: int|
                0 <= j < front.len() && (#[trigger] front[j]).id == id
                    && front[j].is_materialized_view;
            assert(tables[j] == front[j]);
            if !m.contains_key(id) {
                let k = choose|k: int|
                    0 <= k < front.len() && (#[trigger] front[k]).id == id
                        && front[k].is_materialized_view && before[id].statement
                        == front[k].definition@;
                assert(tables[k] == front[k]);
            }
        }
        if exists|j: int|
            0 <= j < tables.len() && (#[trigger] tables[j]).id == id
                && tables[j].is_materialized_view {
            let j = choose|j: int|
                0 <= j < tables.len() && (#[trigger] tables[j]).id == id
                    && tables[j].is_materialized_view;
            if j < n {
                assert(front[j] == tables[j]);
            }
        }
    }
}

/// What is being created is listed once each: with the progress that is known, or with none yet for a
/// materialized view of which nothing is known; and nothing else is listed.
pub proof fn lemma_progress_listed(
    known: BTreeMap<u32, DdlProgress>,
    creating: Vec<CreatingTable>,
    res: Vec<DdlProgress>,
    id: u32,
    j: int,
)
    requires
        call_ensures(get_ddl_progress, (known, creating), res),
    ensures
        known@.contains_key(id) ==> exists|i: int|
            0 <= i < res@.len() && (#[trigger] res@[i])@ == known@[id]@,
        0 <= j < creating@.len() && creating@[j].is_materialized_view && !known@.contains_key(
            creating@[j].id,
        ) ==> exists|i: int|
            0 <= i < res@.len() && (#[trigger] res@[i]).id == creating@[j].id as u64
                && res@[i].progress@ == "0.0%"@,
        0 <= j < res@.len() ==> (exists|x: u32| #[trigger]
            known@.contains_key(x) && res@[j]@ == known@[x]@) || exists|i: int|
            0 <= i < creating@.len() && (#[trigger] creating@[i]).is_materialized_view
                && !known@.contains_key(creating@[i].id) && res@[j].id == creating@[i].id as u64
                && res@[j].progress@ == "0.0%"@ && res@[j].statement@ == creating@[i].definition@,
{
    let m = progress_map(known@);
    let all = with_creating(m, creating@);
    assert(m.dom() =~= known@.dom());
    lemma_creating_finite(m, creating@);
    lemma_ascending_exists(all.dom());
    let ids = ascending_of(all.dom());
    lemma_with_creating(m, creating@, id);
    if known@.contains_key(id) {
        assert(m.contains_key(id));
        assert(ids.to_set().contains(id));
        let i = ids.index_of(id);
        assert(res@[i]@ == all[ids[i]]);
    }
    if 0 <= j < creating@.len() && creating@[j].is_materialized_view && !known@.contains_key(
        creating@[j].id,
    ) {
        let x = creating@[j].id;
        lemma_with_creating(m, creating@, x);
        assert(!m.contains_key(x));
        assert(ids.to_set().contains(x));
        let i = ids.index_of(x);
        assert(res@[i]@ == all[ids[i]]);
        assert(res@[i]@.id == res@[i].id);
        assert(res@[i]@.progress == res@[i].progress@);
    }
    if 0 <= j < res@.len() {
        let x = ids[j];
        lemma_with_creating(m, creating@, x);
        assert(ids.to_set().contains(x));
        assert(res@[j]@ == all[ids[j]]);
        assert(res@[j]@.id == res@[j].id);
        assert(res@[j]@.progress == res@[j].progress@);
        assert(res@[j]@.statement == res@[j].statement@);
        if known@.contains_key(x) {
            assert(m.contains_key(x));
        } else {
            assert(!m.contains_key(x));
            let i = choose|i: int|
                0 <= i < creating@.len() && (#[trigger] creating@[i]).id == x
                    && creating@[i].is_materialized_view && all[x].statement
                    == creating@[i].definition@;
            assert(creating@[i].is_materialized_view);
        }
    }
}

proof fn lemma_creating_finite(m: Map<u32, Progress>, tables: Seq<CreatingTable>)
    requires
        m.dom().finite(),
    ensures
        with_creating(m, tables).dom().finite(),
    decreases tables.len(),
{
    if tables.len() > 0 {
        lemma_creating_finite(m, tables.drop_last());
    }
}

} // verus!
