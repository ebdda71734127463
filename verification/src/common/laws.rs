//! Where the rows of a table go: to the virtual node in their column, to that of their distribution key, or all to
//! one.
use crate::batch::row::DataChunk;
use crate::common::bitmap::{Bitmap, VirtualNode, VNODE_COUNT};
use crate::common::table_distribution::{ComputeVnode, TableDistribution};
use vstd::prelude::*;

verus! {

/// A row goes to the virtual node that its column holds, if the table has such a column; else to that of its
/// distribution key, if it has one; else to the first.
pub proof fn lemma_row_goes(
    vnodes: Option<Bitmap>,
    key_places: Vec<usize>,
    column: Option<usize>,
    dist: TableDistribution,
    pk: &Vec<Option<i64>>,
    key_vnode: VirtualNode,
    res: VirtualNode,
    alone: bool,
)
    requires
        call_ensures(TableDistribution::new, (vnodes, key_places, column), dist),
        call_ensures(TableDistribution::compute_vnode_by_pk, (&dist, pk, key_vnode), res),
        call_ensures(TableDistribution::is_singleton, (&dist,), alone),
    ensures
        column matches Some(c) ==> (pk@[c as int] matches Some(x) ==> (0 <= x <= u16::MAX
            ==> res.index == x)),
        column is None && key_places@.len() > 0 ==> res == key_vnode,
        column is None && key_places@.len() == 0 ==> res.index == 0,
        alone <==> column is None && key_places@.len() == 0,
        vnodes matches Some(bitmap) ==> dist.vnodes@ == bitmap@,
        vnodes is None ==> dist.vnodes@.len() == VNODE_COUNT && dist.vnodes@[0] && forall|i: int|
            0 < i < VNODE_COUNT ==> !(#[trigger] dist.vnodes@[i]),
{
}

/// The distribution of a stored table is that of a table with the same places.
pub proof fn lemma_stored_goes(
    vnodes: Option<Bitmap>,
    key_places: &Vec<u32>,
    column: Option<u32>,
    dist: TableDistribution,
    i: int,
)
    requires
        call_ensures(
            TableDistribution::new_from_storage_table_desc,
            (vnodes, key_places, column),
            dist,
        ),
    ensures
        match dist.compute_vnode {
            ComputeVnode::VnodeColumnIndex { vnode_col_idx_in_pk } => column matches Some(c)
                && vnode_col_idx_in_pk == c,
            ComputeVnode::DistKeyIndices { dist_key_in_pk_indices } => column is None
                && dist_key_in_pk_indices@.len() == key_places@.len() && key_places@.len() > 0 && (0
                <= i < key_places@.len() ==> dist_key_in_pk_indices@[i] == key_places@[i]),
            ComputeVnode::Singleton => column is None && key_places@.len() == 0,
        },
{
    match column {
        Some(c) => {
            assert(c as usize == c);
        },
        None => {},
    }
}

/// A prefix of the primary key decides where a row goes if and only if it holds all that the virtual node is found
/// from, and any row whose primary key starts with it goes there.
pub proof fn lemma_prefix_goes(
    dist: &TableDistribution,
    prefix: &Vec<Option<i64>>,
    pk: &Vec<Option<i64>>,
    key_vnode: VirtualNode,
    decided: Option<VirtualNode>,
    res: VirtualNode,
)
    requires
        call_ensures(
            TableDistribution::try_compute_vnode_by_pk_prefix,
            (dist, prefix, key_vnode),
            decided,
        ),
        call_ensures(TableDistribution::compute_vnode_by_pk, (dist, pk, key_vnode), res),
        prefix@.len() <= pk@.len(),
        forall|i: int| 0 <= i < prefix@.len() ==> #[trigger] prefix@[i] == pk@[i],
    ensures
        decided is Some <==> match dist.compute_vnode {
            ComputeVnode::Singleton => true,
            ComputeVnode::DistKeyIndices { dist_key_in_pk_indices } => forall|i: int|
                0 <= i < dist_key_in_pk_indices@.len() ==> (#[trigger] dist_key_in_pk_indices@[i])
                    < prefix@.len(),
            ComputeVnode::VnodeColumnIndex { vnode_col_idx_in_pk } => vnode_col_idx_in_pk
                < prefix@.len(),
        },
        decided matches Some(vnode) ==> vnode == res,
{
}

/// The rows of a chunk go where their primary keys send them, one by one.
pub proof fn lemma_chunk_goes(
    dist: &TableDistribution,
    chunk: &DataChunk,
    pk_indices: &Vec<usize>,
    key_vnodes: &Vec<VirtualNode>,
    res: Vec<VirtualNode>,
    i: int,
    pk: &Vec<Option<i64>>,
    row_vnode: VirtualNode,
)
    requires
        call_ensures(
            TableDistribution::compute_chunk_vnode,
            (dist, chunk, pk_indices, key_vnodes),
            res,
        ),
        chunk.visible(i),
        pk@.len() == pk_indices@.len(),
        forall|j: int|
            0 <= j < pk@.len() ==> #[trigger] pk@[j] == chunk.rows@[i]@[pk_indices@[j] as int],
        call_ensures(TableDistribution::compute_vnode_by_pk, (dist, pk, key_vnodes@[i]), row_vnode),
        dist.compute_vnode matches ComputeVnode::VnodeColumnIndex { vnode_col_idx_in_pk }
            ==> vnode_col_idx_in_pk < pk@.len(),
    ensures
        res@.len() == chunk.rows@.len(),
        res@[i] == row_vnode,
{
}

/// The columns that are hashed are the columns of the primary key in the places of the distribution key.
pub proof fn lemma_hashed_columns(
    key_places: Vec<usize>,
    dist: TableDistribution,
    pk_indices: &Vec<usize>,
    res: Vec<usize>,
    j: int,
)
    requires
        call_ensures(TableDistribution::all, (key_places,), dist),
        call_ensures(TableDistribution::dist_key_columns, (&dist, pk_indices), res),
    ensures
        res@.len() == key_places@.len(),
        0 <= j < res@.len() ==> res@[j] == pk_indices@[key_places@[j] as int],
        dist.vnodes@.len() == VNODE_COUNT,
        0 <= j < VNODE_COUNT ==> dist.vnodes@[j],
{
}

/// Taking other virtual nodes gives the former ones back and changes nothing else.
pub proof fn lemma_vnodes_exchanged(dist: &mut TableDistribution, vnodes: Bitmap, res: Bitmap)
    requires
        call_ensures(TableDistribution::update_vnode_bitmap, (dist, vnodes), res),
    ensures
        final(dist).vnodes@ == vnodes@ && res@ == old(dist).vnodes@,
        final(dist).compute_vnode == old(dist).compute_vnode,
{
}

} // verus!
