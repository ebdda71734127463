//! What a checkpoint commits, gathered from the answers of the workers.
use crate::barrier::model::{BarrierCompleteResponse, BarrierKind, CommandContext};
use crate::barrier::model::{CreateMviewProgress, GroupedSstableInfo, SstableInfo, TableStats};
use crate::common::collections::{ascending_of, map_keys};
use std::collections::BTreeMap;
use vstd::prelude::*;

verus! {

broadcast use {
    vstd::std_specs::btree::group_btree_axioms,
    vstd::laws_cmp::group_laws_cmp,
};

/// A file to commit.
#[derive(Debug)]
pub struct ExtendedSstableInfo {
    pub compaction_group_id: u64,
    pub sst_info: SstableInfo,
    pub table_stats: BTreeMap<u32, TableStats>,
}

/// The tables of a job that is new with the checkpoint.
#[derive(Debug)]
pub struct NewTableFragmentInfo {
    pub table_id: u32,
    pub mv_table_id: Option<u32>,
    pub internal_table_ids: Vec<u32>,
}

/// What a checkpoint commits.
#[derive(Debug)]
pub struct CommitEpochInfo {
    /// The files, in the order in which they came.
    pub sstables: Vec<ExtendedSstableInfo>,
    /// The watermarks that each worker sent.
    pub new_table_watermarks: Vec<BTreeMap<u32, Vec<u8>>>,
    /// The worker that wrote each file.
    pub sst_to_worker: BTreeMap<u64, u32>,
    /// The tables of a new job.
    pub new_table_fragment_info: Option<NewTableFragmentInfo>,
    /// The files with the old values of changed rows.
    pub old_value_ssts: Vec<SstableInfo>,
    /// How long the changes of a table are kept for those that subscribe to it.
    pub max_retentions: Vec<(u32, u64)>,
}

/// A file of a worker, as it is committed.
pub open spec fn extended(grouped: GroupedSstableInfo) -> ExtendedSstableInfo {
    ExtendedSstableInfo {
        compaction_group_id: grouped.compaction_group_id,
        sst_info: grouped.sst,
        table_stats: grouped.table_stats_map,
    }
}

/// The files of one worker, as they are committed.
pub open spec fn all_extended(groups: Seq<GroupedSstableInfo>) -> Seq<ExtendedSstableInfo> {
    Seq::new(groups.len(), |i: int| extended(groups[i]))
}

/// The files of all workers, as they are committed.
pub open spec fn synced(resps: Seq<BarrierCompleteResponse>) -> Seq<ExtendedSstableInfo>
    decreases resps.len(),
{
    if resps.len() == 0 {
        Seq::empty()
    } else {
        synced(resps.drop_last()) + all_extended(resps.last().synced_sstables@)
    }
}

/// The worker is entered for each of the files.
pub open spec fn enter_worker(
    m: Map<u64, u32>,
    groups: Seq<GroupedSstableInfo>,
    worker_id: u32,
) -> Map<u64, u32>
    decreases groups.len(),
{
    if groups.len() == 0 {
        m
    } else {
        enter_worker(m, groups.drop_last(), worker_id).insert(
            groups.last().sst.object_id,
            worker_id,
        )
    }
}

/// The worker that wrote each file.
pub open spec fn writers(resps: Seq<BarrierCompleteResponse>) -> Map<u64, u32>
    decreases resps.len(),
{
    if resps.len() == 0 {
        Map::empty()
    } else {
        enter_worker(
            writers(resps.drop_last()),
            resps.last().synced_sstables@,
            resps.last().worker_id,
        )
    }
}

/// The files with old values of all workers.
pub open spec fn old_values(resps: Seq<BarrierCompleteResponse>) -> Seq<SstableInfo>
    decreases resps.len(),
{
    if resps.len() == 0 {
        Seq::empty()
    } else {
        old_values(resps.drop_last()) + resps.last().old_value_sstables@
    }
}

/// The watermarks of all workers.
pub open spec fn watermarks(resps: Seq<BarrierCompleteResponse>) -> Seq<BTreeMap<u32, Vec<u8>>> {
    Seq::new(resps.len(), |i: int| resps[i].table_watermarks)
}

/// The value is the largest of the map.
pub open spec fn is_largest(m: Map<u32, u64>, x: u64) -> bool {
    &&& exists|k: u32| #[trigger] m.contains_key(k) && m[k] == x
    &&& forall|k: u32| #[trigger] m.contains_key(k) ==> m[k] <= x
}

/// The tables that something subscribes to.
pub open spec fn subscribed(ids: Seq<u32>, subscriptions: Map<u32, BTreeMap<u32, u64>>) -> Seq<u32>
    decreases ids.len(),
{
    if ids.len() == 0 {
        Seq::empty()
    } else if subscriptions[ids.last()]@.dom().is_empty() {
        subscribed(ids.drop_last(), subscriptions)
    } else {
        subscribed(ids.drop_last(), subscriptions).push(ids.last())
    }
}

/// Enters the files of one worker.
fn add_synced(
    sstables: &mut Vec<ExtendedSstableInfo>,
    sst_to_worker: &mut BTreeMap<u64, u32>,
    groups: Vec<GroupedSstableInfo>,
    worker_id: u32,
)
    ensures
        final(sstables)@ == old(sstables)@ + all_extended(groups@),
        final(sst_to_worker)@ == enter_worker(old(sst_to_worker)@, groups@, worker_id),
{
    let ghost sst0 = sstables@;
    let ghost map0 = sst_to_worker@;
    let ghost all = groups@;
    assert(all.take(0) =~= Seq::<GroupedSstableInfo>::empty());
    assert(sstables@ =~= sst0 + all_extended(all.take(0)));
    for grouped in it: groups
        invariant
            it.seq() == all,
            sstables@ == sst0 + all_extended(all.take(it.index() as int)),
            sst_to_worker@ == enter_worker(map0, all.take(it.index() as int), worker_id),
    {
        let ghost i: int = it.index() as int;
        assert(all.take(i + 1).drop_last() =~= all.take(i));
        assert(all.take(i + 1).last() == grouped);
        sst_to_worker.insert(grouped.sst.object_id, worker_id);
        sstables.push(
            ExtendedSstableInfo {
                compaction_group_id: grouped.compaction_group_id,
                sst_info: grouped.sst,
                table_stats: grouped.table_stats_map,
            },
        );
        assert(sstables@ =~= sst0 + all_extended(all.take(i + 1)));
    }
    assert(all.take(all.len() as int) =~= all);
}

/// The largest value of a map.
fn find_largest(m: &BTreeMap<u32, u64>) -> (res: Option<u64>)
    ensures
        match res {
            Some(x) => is_largest(m@, x),
            None => m@.dom().is_empty(),
        },
{
    let ids = map_keys(m);
    if ids.len() == 0 {
        assert(ids@.to_set() =~= Set::<u32>::empty());
        return None;
    }
    assert(ids@.to_set().contains(ids@[0]));
    let mut best: u64 = *m.get(&ids[0]).unwrap();
    let mut i: usize = 1;
    while i < ids.len()
        invariant
            1 <= i <= ids.len(),
            ids@.to_set() == m@.dom(),
            exists|k: u32| #[trigger] m@.contains_key(k) && m@[k] == best,
            forall|j: int| 0 <= j < i ==> m@[#[trigger] ids@[j]] <= best,
        decreases ids.len() - i,
    {
        assert(ids@.to_set().contains(ids@[i as int]));
        let x: u64 = *m.get(&ids[i]).unwrap();
        if x > best {
            best = x;
        }
        i = i + 1;
    }
    assert forall|k: u32| #[trigger] m@.contains_key(k) implies m@[k] <= best by {
        assert(ids@.to_set().contains(k));
        let j = choose|j: int| 0 <= j < ids@.len() && ids@[j] == k;
        assert(m@[ids@[j]] <= best);
    }
    Some(best)
}

/// How long the changes of each table are kept: the longest time that a subscription asks for.
fn collect_retentions(subscriptions: &BTreeMap<u32, BTreeMap<u32, u64>>) -> (res: Vec<(u32, u64)>)
    ensures
        ({
            let ids = subscribed(ascending_of(subscriptions@.dom()), subscriptions@);
            &&& res@.len() == ids.len()
            &&& forall|i: int|
                0 <= i < ids.len() ==> (#[trigger] res@[i]).0 == ids[i] && is_largest(
                    subscriptions@[ids[i]]@,
                    res@[i].1,
                )
        }),
{
    let ids = map_keys(subscriptions);
    let mut res: Vec<(u32, u64)> = Vec::new();
    let mut i: usize = 0;
    assert(ids@.take(0) =~= Seq::<u32>::empty());
    while i < ids.len()
        invariant
            i <= ids.len(),
            ids@.to_set() == subscriptions@.dom(),
            res@.len() == subscribed(ids@.take(i as int), subscriptions@).len(),
            forall|j: int|
                0 <= j < res@.len() ==> (#[trigger] res@[j]).0 == subscribed(
                    ids@.take(i as int),
                    subscriptions@,
                )[j] && is_largest(subscriptions@[res@[j].0]@, res@[j].1),
        decreases ids.len() - i,
    {
        assert(ids@.to_set().contains(ids@[i as int]));
        assert(ids@.take(i + 1).drop_last() =~= ids@.take(i as int));
        assert(ids@.take(i + 1).last() == ids@[i as int]);
        if let Some(retention) = find_largest(subscriptions.get(&ids[i]).unwrap()) {
            assert(!subscriptions@[ids@[i as int]]@.dom().is_empty()) by {
                let m = subscriptions@[ids@[i as int]]@;
                let k = choose|k: u32| #[trigger] m.contains_key(k) && m[k] == retention;
                assert(m.dom().contains(k));
            }
            res.push((ids[i], retention));
        }
        i = i + 1;
    }
    assert(ids@.take(i as int) =~= ids@);
    res
}

/// Gathers what a checkpoint commits from the answers of the workers: all files with the worker that
/// wrote each, the watermarks, the files with old values, the tables of a new job, and how long the
/// changes of tables that have subscriptions are kept.
pub fn collect_commit_epoch_info(
    resps: Vec<BarrierCompleteResponse>,
    new_table_fragment_info: Option<NewTableFragmentInfo>,
    mv_depended_subscriptions: &BTreeMap<u32, BTreeMap<u32, u64>>,
) -> (res: CommitEpochInfo)
    ensures
        res.sstables@ == synced(resps@),
        res.sst_to_worker@ == writers(resps@),
        res.new_table_watermarks@ == watermarks(resps@),
        res.old_value_ssts@ == old_values(resps@),
        res.new_table_fragment_info == new_table_fragment_info,
        ({
            let ids = subscribed(
                ascending_of(mv_depended_subscriptions@.dom()),
                mv_depended_subscriptions@,
            );
            &&& res.max_retentions@.len() == ids.len()
            &&& forall|i: int|
                0 <= i < ids.len() ==> (#[trigger] res.max_retentions@[i]).0 == ids[i]
                    && is_largest(
                    mv_depended_subscriptions@[ids[i]]@,
                    res.max_retentions@[i].1,
                )
        }),
{
    let ghost all = resps@;
    let mut sst_to_worker: BTreeMap<u64, u32> = BTreeMap::new();
    let mut synced_ssts: Vec<ExtendedSstableInfo> = Vec::new();
    let mut table_watermarks: Vec<BTreeMap<u32, Vec<u8>>> = Vec::new();
    let mut old_value_ssts: Vec<SstableInfo> = Vec::new();
    assert(all.take(0) =~= Seq::<BarrierCompleteResponse>::empty());
    for resp in it: resps
        invariant
            it.seq() == all,
            synced_ssts@ == synced(all.take(it.index() as int)),
            sst_to_worker@ == writers(all.take(it.index() as int)),
            table_watermarks@ == watermarks(all.take(it.index() as int)),
            old_value_ssts@ == old_values(all.take(it.index() as int)),
    {
        let ghost i: int = it.index() as int;
        assert(all.take(i + 1).drop_last() =~= all.take(i));
        assert(all.take(i + 1).last() == resp);
        add_synced(&mut synced_ssts, &mut sst_to_worker, resp.synced_sstables, resp.worker_id);
        table_watermarks.push(resp.table_watermarks);
        let mut old_values_of_worker = resp.old_value_sstables;
        old_value_ssts.append(&mut old_values_of_worker);
        assert(table_watermarks@ =~= watermarks(all.take(i + 1)));
    }
    assert(all.take(all.len() as int) =~= all);
    let max_retentions = collect_retentions(mv_depended_subscriptions);
    CommitEpochInfo {
        sstables: synced_ssts,
        new_table_watermarks: table_watermarks,
        sst_to_worker,
        new_table_fragment_info,
        old_value_ssts,
        max_retentions,
    }
}

/// The progress of new jobs that the workers reported, in order.
pub open spec fn progress_of(resps: Seq<BarrierCompleteResponse>) -> Seq<CreateMviewProgress>
    decreases resps.len(),
{
    if resps.len() == 0 {
        Seq::empty()
    } else {
        progress_of(resps.drop_last()) + resps.last().create_mview_progress@
    }
}

/// Gathers the progress of new jobs that the workers reported.
pub fn collect_progress(resps: &Vec<BarrierCompleteResponse>) -> (res: Vec<CreateMviewProgress>)
    ensures
        res@ == progress_of(resps@),
{
    let mut res: Vec<CreateMviewProgress> = Vec::new();
    let mut i: usize = 0;
    assert(resps@.take(0) =~= Seq::<BarrierCompleteResponse>::empty());
    while i < resps.len()
        invariant
            i <= resps.len(),
            res@ == progress_of(resps@.take(i as int)),
        decreases resps.len() - i,
    {
        assert(resps@.take(i + 1).drop_last() =~= resps@.take(i as int));
        assert(resps@.take(i + 1).last() == resps@[i as int]);
        let own = &resps[i].create_mview_progress;
        let ghost res0 = res@;
        let mut k: usize = 0;
        assert(res@ =~= res0 + own@.take(0));
        while k < own.len()
            invariant
                k <= own.len(),
                res@ == res0 + own@.take(k as int),
            decreases own.len() - k,
        {
            res.push(own[k]);
            k = k + 1;
            assert(res@ =~= res0 + own@.take(k as int));
        }
        assert(own@.take(k as int) =~= own@);
        i = i + 1;
    }
    assert(resps@.take(i as int) =~= resps@);
    res
}

/// What the completion of a barrier does to the snapshot of the storage.
#[derive(Debug)]
pub enum SnapshotUpdate {
    /// Nothing.
    Keep,
    /// Commit the given epochs up to this one.
    Commit { prev_epoch: u64, epochs: Vec<u64> },
    /// Make this the current epoch.
    UpdateCurrent { prev_epoch: u64 },
}

/// What the completion of a barrier does to the snapshot of the storage.
pub fn snapshot_update(command_ctx: CommandContext, kind: BarrierKind) -> (res: SnapshotUpdate)
    requires
        kind is Barrier ==> !command_ctx.need_checkpoint,
    ensures
        match kind {
            BarrierKind::Initial => res is Keep,
            BarrierKind::Checkpoint(epochs) => res == (SnapshotUpdate::Commit {
                prev_epoch: command_ctx.prev_epoch,
                epochs,
            }),
            BarrierKind::Barrier => res == (SnapshotUpdate::UpdateCurrent {
                prev_epoch: command_ctx.prev_epoch,
            }),
        },
{
    match kind {
        BarrierKind::Initial => SnapshotUpdate::Keep,
        BarrierKind::Checkpoint(epochs) => SnapshotUpdate::Commit {
            prev_epoch: command_ctx.prev_epoch,
            epochs,
        },
        BarrierKind::Barrier => SnapshotUpdate::UpdateCurrent { prev_epoch: command_ctx.prev_epoch },
    }
}

/// The commands that are there.
pub open spec fn present(commands: Seq<Option<u64>>) -> Seq<u64>
    decreases commands.len(),
{
    if commands.len() == 0 {
        Seq::empty()
    } else {
        match commands.last() {
            Some(command) => present(commands.drop_last()).push(command),
            None => present(commands.drop_last()),
        }
    }
}

/// The commands that are finished with a barrier: the new command if it has nothing to wait for, and
/// those that some reported progress finishes, in order.
pub fn finished_commands(added: Option<u64>, updated: &Vec<Option<u64>>) -> (res: Vec<u64>)
    ensures
        res@ == (match added {
            Some(command) => seq![command],
            None => Seq::empty(),
        }) + present(updated@),
{
    let mut res: Vec<u64> = Vec::new();
    if let Some(command) = added {
        res.push(command);
    }
    let ghost res0 = res@;
    assert(res0 =~= (match added {
        Some(command) => seq![command],
        None => Seq::empty(),
    }));
    let mut i: usize = 0;
    assert(updated@.take(0) =~= Seq::<Option<u64>>::empty());
    assert(res@ =~= res0 + present(updated@.take(0)));
    while i < updated.len()
        invariant
            i <= updated.len(),
            res@ == res0 + present(updated@.take(i as int)),
        decreases updated.len() - i,
    {
        assert(updated@.take(i + 1).drop_last() =~= updated@.take(i as int));
        assert(updated@.take(i + 1).last() == updated@[i as int]);
        if let Some(command) = updated[i] {
            res.push(command);
        }
        assert(res@ =~= res0 + present(updated@.take(i + 1)));
        i = i + 1;
    }
    assert(updated@.take(i as int) =~= updated@);
    res
}

/// How far a statement that creates something has come.
#[derive(Debug)]
pub struct DdlProgress {
    pub id: u64,
    pub statement: String,
    pub progress: String,
}

/// Progress as plain values.
pub struct Progress {
    pub id: u64,
    pub statement: Seq<char>,
    pub progress: Seq<char>,
}

impl View for DdlProgress {
    type V = Progress;

    open spec fn view(&self) -> Progress {
        Progress { id: self.id, statement: self.statement@, progress: self.progress@ }
    }
}

/// A table that is being created.
#[derive(Debug)]
pub struct CreatingTable {
    pub id: u32,
    pub is_materialized_view: bool,
    pub definition: String,
}

/// The progress behind a map.
pub open spec fn progress_map(m: Map<u32, DdlProgress>) -> Map<u32, Progress> {
    Map::new(|k: u32| m.contains_key(k), |k: u32| m[k]@)
}

/// The progress with that of materialized views that have not started entered.
pub open spec fn with_creating(m: Map<u32, Progress>, tables: Seq<CreatingTable>) -> Map<
    u32,
    Progress,
>
    decreases tables.len(),
{
    if tables.len() == 0 {
        m
    } else {
        let before = with_creating(m, tables.drop_last());
        let table = tables.last();
        if !table.is_materialized_view || before.contains_key(table.id) {
            before
        } else {
            before.insert(
                table.id,
                Progress {
                    id: table.id as u64,
                    statement: table.definition@,
                    progress: "0.0%"@,
                },
            )
        }
    }
}

/// The progress of everything that is being created: what is known, and zero for materialized views
/// whose first barrier has not been collected yet.
pub fn get_ddl_progress(known: BTreeMap<u32, DdlProgress>, creating: Vec<CreatingTable>) -> (res: Vec<
    DdlProgress,
>)
    ensures
        ({
            let all = with_creating(progress_map(known@), creating@);
            let ids = ascending_of(all.dom());
            &&& res@.len() == ids.len()
            &&& forall|i: int| 0 <= i < ids.len() ==> (#[trigger] res@[i])@ == all[ids[i]]
        }),
{
    let ghost m0 = progress_map(known@);
    let ghost tables = creating@;
    let mut progress = known;
    assert(tables.take(0) =~= Seq::<CreatingTable>::empty());
    for table in it: creating
        invariant
            it.seq() == tables,
            progress_map(progress@) == with_creating(m0, tables.take(it.index() as int)),
    {
        let ghost i: int = it.index() as int;
        assert(tables.take(i + 1).drop_last() =~= tables.take(i));
        assert(tables.take(i + 1).last() == table);
        let ghost before = progress_map(progress@);
        if table.is_materialized_view && !progress.contains_key(&table.id) {
            let entry = DdlProgress {
                id: table.id as u64,
                statement: table.definition,
                progress: "0.0%".to_owned(),
            };
            let ghost view = entry@;
            progress.insert(table.id, entry);
            assert(progress_map(progress@) =~= before.insert(table.id, view));
        }
    }
    assert(tables.take(tables.len() as int) =~= tables);
    let ghost all = progress_map(progress@);
    assert(all.dom() =~= progress@.dom());
    let ids = map_keys(&progress);
    let ghost whole = progress@;
    let mut res: Vec<DdlProgress> = Vec::new();
    let mut i: usize = 0;
    while i < ids.len()
        invariant
            i <= ids.len(),
            crate::common::collections::ascending(ids@),
            all == progress_map(whole),
            forall|j: int|
                i <= j < ids.len() ==> progress@.contains_key(#[trigger] ids@[j])
                    && progress@[ids@[j]] == whole[ids@[j]],
            ids@.to_set() == whole.dom(),
            res@.len() == i,
            forall|j: int| 0 <= j < i ==> (#[trigger] res@[j])@ == all[ids@[j]],
        decreases ids.len() - i,
    {
        assert(ids@.to_set().contains(ids@[i as int]));
        let entry = progress.remove(&ids[i]).unwrap();
        res.push(entry);
        i = i + 1;
    }
    res
}

} // verus!
