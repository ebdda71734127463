//! Which virtual node a row of a table belongs to.
use crate::batch::row::DataChunk;
use crate::common::bitmap::{Bitmap, VirtualNode, VNODE_COUNT};
use vstd::prelude::*;

verus! {

/// The virtual node of tables that are not distributed.
pub const DEFAULT_VNODE: u16 = 0;

/// The virtual node of tables that are not distributed.
pub const SINGLETON_VNODE: u16 = 0;

/// How the virtual node of a row is found from its primary key.
#[derive(Debug)]
pub enum ComputeVnode {
    /// It is always the same.
    Singleton,
    /// It is the hash of the columns of the distribution key, given by their places in the primary key.
    DistKeyIndices { dist_key_in_pk_indices: Vec<usize> },
    /// It is in a column, given by its place in the primary key.
    VnodeColumnIndex { vnode_col_idx_in_pk: usize },
}

/// How a table is distributed, and the virtual nodes that are accessed.
#[derive(Debug)]
pub struct TableDistribution {
    pub compute_vnode: ComputeVnode,
    pub vnodes: Bitmap,
}

/// Only the virtual node of tables that are not distributed.
pub open spec fn singleton_bits() -> Seq<bool> {
    Seq::new(VNODE_COUNT as nat, |i: int| i == SINGLETON_VNODE)
}

/// All virtual nodes.
pub open spec fn all_bits() -> Seq<bool> {
    Seq::new(VNODE_COUNT as nat, |i: int| true)
}

/// The virtual node is one that is accessed.
pub open spec fn vnode_is_set(vnode: VirtualNode, vnodes: Seq<bool>) -> bool {
    vnode.index < vnodes.len() && vnodes[vnode.index as int]
}

/// The value of a column can stand for a virtual node.
pub open spec fn is_vnode_value(value: Option<i64>) -> bool {
    value matches Some(x) && 0 <= x < VNODE_COUNT
}

/// The columns of the distribution key are all in a prefix of the primary key.
pub open spec fn all_within(indices: Seq<usize>, len: nat) -> bool {
    forall|i: int| 0 <= i < indices.len() ==> (#[trigger] indices[i]) < len
}

/// The virtual node of a row, from the hash of its distribution key. It has to be one that is accessed.
pub fn compute_vnode(key_vnode: VirtualNode, indices: &Vec<usize>, vnodes: &Bitmap) -> (res: VirtualNode)
    requires
        indices@.len() > 0,
        vnode_is_set(key_vnode, vnodes@),
    ensures
        res == key_vnode,
{
    key_vnode
}

/// The virtual node of a row, from a column. It has to be one that is accessed.
pub fn get_vnode_from_row(row: &Vec<Option<i64>>, index: usize, vnodes: &Bitmap) -> (res: VirtualNode)
    requires
        index < row@.len(),
        is_vnode_value(row@[index as int]),
        vnode_is_set(VirtualNode { index: row@[index as int]->Some_0 as u16 }, vnodes@),
    ensures
        res.index == row@[index as int]->Some_0,
{
    let value: i64 = row[index].unwrap();
    VirtualNode { index: value as u16 }
}

impl TableDistribution {
    /// The distribution of a stored table.
    pub fn new_from_storage_table_desc(
        vnodes: Option<Bitmap>,
        dist_key_in_pk_indices: &Vec<u32>,
        vnode_col_idx_in_pk: Option<u32>,
    ) -> (res: TableDistribution)
        ensures
            res.is_new(
                vnodes,
                Seq::new(
                    dist_key_in_pk_indices@.len(),
                    |i: int| dist_key_in_pk_indices@[i] as usize,
                ),
                (match vnode_col_idx_in_pk {
                    Some(idx) => Some(idx as usize),
                    None => None,
                }),
            ),
    {
        let mut indices: Vec<usize> = Vec::new();
        let mut i: usize = 0;
        let ghost all = Seq::new(
            dist_key_in_pk_indices@.len(),
            |i: int| dist_key_in_pk_indices@[i] as usize,
        );
        while i < dist_key_in_pk_indices.len()
            invariant
                i <= dist_key_in_pk_indices.len(),
                all == Seq::new(
                    dist_key_in_pk_indices@.len(),
                    |i: int| dist_key_in_pk_indices@[i] as usize,
                ),
                indices@ == all.take(i as int),
            decreases dist_key_in_pk_indices.len() - i,
        {
            indices.push(dist_key_in_pk_indices[i] as usize);
            i = i + 1;
            assert(indices@ =~= all.take(i as int));
        }
        assert(all.take(i as int) =~= all);
        let column: Option<usize> = match vnode_col_idx_in_pk {
            Some(idx) => Some(idx as usize),
            None => None,
        };
        TableDistribution::new(vnodes, indices, column)
    }

    /// The distribution is made from the given parts: a column of virtual nodes comes first, then a
    /// distribution key; without either the table is not distributed.
    pub open spec fn is_new(
        &self,
        vnodes: Option<Bitmap>,
        indices: Seq<usize>,
        column: Option<usize>,
    ) -> bool {
        &&& match column {
            Some(idx) => self.compute_vnode == (ComputeVnode::VnodeColumnIndex {
                vnode_col_idx_in_pk: idx,
            }),
            None => if indices.len() > 0 {
                self.compute_vnode matches ComputeVnode::DistKeyIndices { dist_key_in_pk_indices }
                    && dist_key_in_pk_indices@ == indices
            } else {
                self.compute_vnode is Singleton
            },
        }
        &&& self.vnodes@ == (match vnodes {
            Some(bitmap) => bitmap@,
            None => singleton_bits(),
        })
    }

    /// The distribution of a table.
    pub fn new(
        vnodes: Option<Bitmap>,
        dist_key_in_pk_indices: Vec<usize>,
        vnode_col_idx_in_pk: Option<usize>,
    ) -> (res: TableDistribution)
        ensures
            res.is_new(vnodes, dist_key_in_pk_indices@, vnode_col_idx_in_pk),
    {
        let compute_vnode = match vnode_col_idx_in_pk {
            Some(idx) => ComputeVnode::VnodeColumnIndex { vnode_col_idx_in_pk: idx },
            None => if dist_key_in_pk_indices.len() > 0 {
                ComputeVnode::DistKeyIndices { dist_key_in_pk_indices }
            } else {
                ComputeVnode::Singleton
            },
        };
        let vnodes = match vnodes {
            Some(bitmap) => bitmap,
            None => TableDistribution::singleton_vnode_bitmap(),
        };
        TableDistribution { compute_vnode, vnodes }
    }

    /// Whether the table is not distributed.
    pub fn is_singleton(&self) -> (res: bool)
        ensures
            res == (self.compute_vnode is Singleton),
    {
        match &self.compute_vnode {
            ComputeVnode::Singleton => true,
            _ => false,
        }
    }

    /// The bitmap with only the virtual node of tables that are not distributed.
    pub fn singleton_vnode_bitmap_ref() -> (res: Bitmap)
        ensures
            res@ == singleton_bits(),
    {
        let mut vnodes = Bitmap::zeros(VNODE_COUNT);
        vnodes.set(SINGLETON_VNODE as usize, true);
        assert(vnodes@ =~= singleton_bits());
        vnodes
    }

    /// The bitmap with only the virtual node of tables that are not distributed.
    pub fn singleton_vnode_bitmap() -> (res: Bitmap)
        ensures
            res@ == singleton_bits(),
    {
        TableDistribution::singleton_vnode_bitmap_ref()
    }

    /// The bitmap with all virtual nodes.
    pub fn all_vnodes_ref() -> (res: Bitmap)
        ensures
            res@ == all_bits(),
    {
        let res = Bitmap::ones(VNODE_COUNT);
        assert(res@ =~= all_bits());
        res
    }

    /// The bitmap with all virtual nodes.
    pub fn all_vnodes() -> (res: Bitmap)
        ensures
            res@ == all_bits(),
    {
        TableDistribution::all_vnodes_ref()
    }

    /// A distribution that accesses all virtual nodes.
    pub fn all(dist_key_in_pk_indices: Vec<usize>) -> (res: TableDistribution)
        ensures
            res.compute_vnode == (ComputeVnode::DistKeyIndices { dist_key_in_pk_indices }),
            res.vnodes@ == all_bits(),
    {
        TableDistribution {
            compute_vnode: ComputeVnode::DistKeyIndices { dist_key_in_pk_indices },
            vnodes: TableDistribution::all_vnodes(),
        }
    }

    /// The distribution of a table that is not distributed.
    pub fn singleton() -> (res: TableDistribution)
        ensures
            res.compute_vnode is Singleton,
            res.vnodes@ == singleton_bits(),
    {
        TableDistribution {
            compute_vnode: ComputeVnode::Singleton,
            vnodes: TableDistribution::singleton_vnode_bitmap(),
        }
    }

    /// Replaces the virtual nodes that are accessed, and returns those that were.
    pub fn update_vnode_bitmap(&mut self, new_vnodes: Bitmap) -> (res: Bitmap)
        requires
            old(self).vnodes@.len() == new_vnodes@.len(),
        ensures
            res == old(self).vnodes,
            final(self).vnodes == new_vnodes,
            final(self).compute_vnode == old(self).compute_vnode,
    {
        let mut vnodes = new_vnodes;
        std::mem::swap(&mut self.vnodes, &mut vnodes);
        vnodes
    }

    /// The virtual nodes that are accessed.
    pub fn vnodes(&self) -> (res: &Bitmap)
        ensures
            *res == self.vnodes,
    {
        &self.vnodes
    }

    /// The virtual node of the row can be found, and is one that is accessed.
    pub open spec fn pk_fits(&self, pk: Seq<Option<i64>>, key_vnode: VirtualNode) -> bool {
        match self.compute_vnode {
            ComputeVnode::Singleton => true,
            ComputeVnode::DistKeyIndices {
                dist_key_in_pk_indices,
            } => dist_key_in_pk_indices@.len() > 0 && vnode_is_set(key_vnode, self.vnodes@),
            ComputeVnode::VnodeColumnIndex { vnode_col_idx_in_pk } => {
                &&& vnode_col_idx_in_pk < pk.len()
                &&& is_vnode_value(pk[vnode_col_idx_in_pk as int])
                &&& vnode_is_set(
                    VirtualNode { index: pk[vnode_col_idx_in_pk as int]->Some_0 as u16 },
                    self.vnodes@,
                )
            },
        }
    }

    /// The virtual node of a row with the given primary key, whose distribution key hashes to `key_vnode`.
    pub open spec fn vnode_of(&self, pk: Seq<Option<i64>>, key_vnode: VirtualNode) -> VirtualNode {
        match self.compute_vnode {
            ComputeVnode::Singleton => VirtualNode { index: SINGLETON_VNODE },
            ComputeVnode::DistKeyIndices { .. } => key_vnode,
            ComputeVnode::VnodeColumnIndex { vnode_col_idx_in_pk } => VirtualNode {
                index: pk[vnode_col_idx_in_pk as int]->Some_0 as u16,
            },
        }
    }

    /// The virtual node of a row with the given primary key, whose distribution key hashes to `key_vnode`.
    pub fn compute_vnode_by_pk(&self, pk: &Vec<Option<i64>>, key_vnode: VirtualNode) -> (res: VirtualNode)
        requires
            self.pk_fits(pk@, key_vnode),
        ensures
            res == self.vnode_of(pk@, key_vnode),
    {
        match &self.compute_vnode {
            ComputeVnode::Singleton => VirtualNode { index: SINGLETON_VNODE },
            ComputeVnode::DistKeyIndices { dist_key_in_pk_indices } => compute_vnode(
                key_vnode,
                dist_key_in_pk_indices,
                &self.vnodes,
            ),
            ComputeVnode::VnodeColumnIndex { vnode_col_idx_in_pk } => get_vnode_from_row(
                pk,
                *vnode_col_idx_in_pk,
                &self.vnodes,
            ),
        }
    }

    /// The prefix of a primary key says which virtual node a row belongs to.
    pub open spec fn prefix_decides(&self, len: nat) -> bool {
        match self.compute_vnode {
            ComputeVnode::Singleton => true,
            ComputeVnode::DistKeyIndices { dist_key_in_pk_indices } => all_within(
                dist_key_in_pk_indices@,
                len,
            ),
            ComputeVnode::VnodeColumnIndex { vnode_col_idx_in_pk } => vnode_col_idx_in_pk < len,
        }
    }

    /// The virtual node of all rows whose primary key starts with the given prefix, if the prefix says which
    /// it is. The distribution key then hashes to `key_vnode`.
    pub fn try_compute_vnode_by_pk_prefix(
        &self,
        pk_prefix: &Vec<Option<i64>>,
        key_vnode: VirtualNode,
    ) -> (res: Option<VirtualNode>)
        requires
            self.prefix_decides(pk_prefix@.len()) ==> self.pk_fits(pk_prefix@, key_vnode),
        ensures
            res == (if self.prefix_decides(pk_prefix@.len()) {
                Some(self.vnode_of(pk_prefix@, key_vnode))
            } else {
                None
            }),
    {
        match &self.compute_vnode {
            ComputeVnode::Singleton => Some(VirtualNode { index: SINGLETON_VNODE }),
            ComputeVnode::DistKeyIndices { dist_key_in_pk_indices } => {
                let mut i: usize = 0;
                while i < dist_key_in_pk_indices.len()
                    invariant
                        i <= dist_key_in_pk_indices.len(),
                        self.compute_vnode == (ComputeVnode::DistKeyIndices {
                            dist_key_in_pk_indices: *dist_key_in_pk_indices,
                        }),
                        all_within(dist_key_in_pk_indices@.take(i as int), pk_prefix@.len()),
                    decreases dist_key_in_pk_indices.len() - i,
                {
                    if dist_key_in_pk_indices[i] >= pk_prefix.len() {
                        assert(dist_key_in_pk_indices@[i as int] >= pk_prefix@.len());
                        return None;
                    }
                    assert forall|j: int|
                        0 <= j < i + 1 implies (#[trigger] dist_key_in_pk_indices@.take(
                        i + 1,
                    )[j]) < pk_prefix@.len() by {
                        if j < i {
                            assert(dist_key_in_pk_indices@.take(i as int)[j]
                                < pk_prefix@.len());
                        }
                    }
                    i = i + 1;
                }
                assert(dist_key_in_pk_indices@.take(i as int) =~= dist_key_in_pk_indices@);
                Some(compute_vnode(key_vnode, dist_key_in_pk_indices, &self.vnodes))
            },
            ComputeVnode::VnodeColumnIndex { vnode_col_idx_in_pk } => if *vnode_col_idx_in_pk
                >= pk_prefix.len() {
                None
            } else {
                Some(get_vnode_from_row(pk_prefix, *vnode_col_idx_in_pk, &self.vnodes))
            },
        }
    }

    /// The columns of a chunk that make up the distribution key, where the primary key is in the given
    /// columns.
    pub open spec fn key_columns(&self, pk_indices: Seq<usize>) -> Seq<usize> {
        match self.compute_vnode {
            ComputeVnode::DistKeyIndices { dist_key_in_pk_indices } => Seq::new(
                dist_key_in_pk_indices@.len(),
                |j: int| pk_indices[dist_key_in_pk_indices@[j] as int],
            ),
            _ => Seq::empty(),
        }
    }

    /// The columns of a chunk whose values are hashed to the virtual nodes of its rows, where the primary key
    /// is in the given columns; none where nothing is hashed.
    pub fn dist_key_columns(&self, pk_indices: &Vec<usize>) -> (res: Vec<usize>)
        requires
            self.compute_vnode matches ComputeVnode::DistKeyIndices { dist_key_in_pk_indices }
                ==> all_within(dist_key_in_pk_indices@, pk_indices@.len()),
        ensures
            res@ == self.key_columns(pk_indices@),
    {
        let mut res: Vec<usize> = Vec::new();
        if let ComputeVnode::DistKeyIndices { dist_key_in_pk_indices } = &self.compute_vnode {
            let mut j: usize = 0;
            while j < dist_key_in_pk_indices.len()
                invariant
                    j <= dist_key_in_pk_indices.len(),
                    self.compute_vnode == (ComputeVnode::DistKeyIndices {
                        dist_key_in_pk_indices: *dist_key_in_pk_indices,
                    }),
                    all_within(dist_key_in_pk_indices@, pk_indices@.len()),
                    res@ == self.key_columns(pk_indices@).take(j as int),
                decreases dist_key_in_pk_indices.len() - j,
            {
                assert(dist_key_in_pk_indices@[j as int] < pk_indices@.len());
                res.push(pk_indices[dist_key_in_pk_indices[j]]);
                j = j + 1;
                assert(res@ =~= self.key_columns(pk_indices@).take(j as int));
            }
        }
        assert(res@ =~= self.key_columns(pk_indices@));
        res
    }

    /// The virtual nodes of the rows of the chunk can be found, and those of visible rows are accessed.
    pub open spec fn chunk_fits(
        &self,
        chunk: DataChunk,
        pk_indices: Seq<usize>,
        key_vnodes: Seq<VirtualNode>,
    ) -> bool {
        &&& chunk.wf()
        &&& match self.compute_vnode {
            ComputeVnode::Singleton => true,
            ComputeVnode::DistKeyIndices { dist_key_in_pk_indices } => {
                &&& all_within(dist_key_in_pk_indices@, pk_indices.len())
                &&& key_vnodes.len() == chunk.rows@.len()
                &&& forall|i: int| #[trigger]
                    chunk.visible(i) ==> vnode_is_set(key_vnodes[i], self.vnodes@)
            },
            ComputeVnode::VnodeColumnIndex { vnode_col_idx_in_pk } => {
                &&& vnode_col_idx_in_pk < pk_indices.len()
                &&& forall|i: int|
                    0 <= i < chunk.rows@.len() ==> pk_indices[vnode_col_idx_in_pk as int] < (
                    #[trigger] chunk.rows@[i])@.len()
                &&& forall|i: int|
                    0 <= i < chunk.rows@.len() ==> (
                    #[trigger] chunk.rows@[i])@[pk_indices[vnode_col_idx_in_pk as int] as int] is None
                        || is_vnode_value(
                        chunk.rows@[i]@[pk_indices[vnode_col_idx_in_pk as int] as int],
                    )
                &&& forall|i: int| #[trigger]
                    chunk.visible(i) ==> chunk.rows@[i]@[pk_indices[vnode_col_idx_in_pk as int] as int] is Some
                        && vnode_is_set(
                        VirtualNode {
                            index: chunk.rows@[i]@[pk_indices[vnode_col_idx_in_pk as int] as int]->Some_0 as u16,
                        },
                        self.vnodes@,
                    )
            },
        }
    }

    /// The virtual nodes of the rows of a chunk, whose distribution keys, in the columns that
    /// `dist_key_columns` gives, hash to `key_vnodes`. Invisible rows have one too: the first one, where the
    /// column of virtual nodes holds none. A visible row has that of its primary key.
    pub fn compute_chunk_vnode(
        &self,
        chunk: &DataChunk,
        pk_indices: &Vec<usize>,
        key_vnodes: &Vec<VirtualNode>,
    ) -> (res: Vec<VirtualNode>)
        requires
            self.chunk_fits(*chunk, pk_indices@, key_vnodes@),
        ensures
            res@.len() == chunk.rows@.len(),
            match self.compute_vnode {
                ComputeVnode::Singleton => forall|i: int|
                    0 <= i < chunk.rows@.len() ==> (#[trigger] res@[i]).index == SINGLETON_VNODE,
                ComputeVnode::DistKeyIndices { .. } => res@ == key_vnodes@,
                ComputeVnode::VnodeColumnIndex { vnode_col_idx_in_pk } => forall|i: int|
                    0 <= i < chunk.rows@.len() ==> (#[trigger] res@[i]).index == vnode_value(
                        chunk.rows@[i]@[pk_indices@[vnode_col_idx_in_pk as int] as int],
                    ),
            },
            forall|i: int| #[trigger]
                chunk.visible(i) ==> res@[i] == self.vnode_of(
                    projected(chunk.rows@[i]@, pk_indices@),
                    key_vnodes@[i],
                ),
    {
        let mut res: Vec<VirtualNode> = Vec::new();
        let mut i: usize = 0;
        while i < chunk.rows.len()
            invariant
                i <= chunk.rows.len(),
                self.chunk_fits(*chunk, pk_indices@, key_vnodes@),
                res@.len() == i,
                forall|j: int|
                    0 <= j < i ==> match self.compute_vnode {
                        ComputeVnode::Singleton => (#[trigger] res@[j]).index == SINGLETON_VNODE,
                        ComputeVnode::DistKeyIndices { .. } => res@[j] == key_vnodes@[j],
                        ComputeVnode::VnodeColumnIndex { vnode_col_idx_in_pk } => res@[j].index
                            == vnode_value(
                            chunk.rows@[j]@[pk_indices@[vnode_col_idx_in_pk as int] as int],
                        ),
                    },
            decreases chunk.rows.len() - i,
        {
            let vnode = match &self.compute_vnode {
                ComputeVnode::Singleton => VirtualNode { index: SINGLETON_VNODE },
                ComputeVnode::DistKeyIndices { .. } => key_vnodes[i],
                ComputeVnode::VnodeColumnIndex { vnode_col_idx_in_pk } => {
                    let column: usize = pk_indices[*vnode_col_idx_in_pk];
                    assert(column < chunk.rows@[i as int]@.len());
                    to_vnode(chunk.rows[i].values[column])
                },
            };
            res.push(vnode);
            i = i + 1;
        }
        proof {
            if self.compute_vnode is DistKeyIndices {
                assert(res@ =~= key_vnodes@);
            }
        }
        res
    }
}

/// The virtual node that a value stands for; the first one where it is missing.
pub open spec fn vnode_value(value: Option<i64>) -> u16 {
    match value {
        Some(x) => x as u16,
        None => 0,
    }
}

/// The virtual node that a value stands for; the first one where it is missing.
fn to_vnode(value: Option<i64>) -> (res: VirtualNode)
    requires
        value is None || is_vnode_value(value),
    ensures
        res.index == vnode_value(value),
{
    match value {
        Some(x) => VirtualNode { index: x as u16 },
        None => VirtualNode { index: 0 },
    }
}

/// The values of a row in the given columns.
pub open spec fn projected(row: Seq<Option<i64>>, columns: Seq<usize>) -> Seq<Option<i64>> {
    Seq::new(columns.len(), |j: int| row[columns[j] as int])
}

/// The distribution key of a row of a chunk is that of its primary key: the columns that are hashed are
/// found through those of the primary key.
pub proof fn lemma_chunk_key(
    dist: TableDistribution,
    row: Seq<Option<i64>>,
    pk_indices: Seq<usize>,
)
    requires
        dist.compute_vnode matches ComputeVnode::DistKeyIndices { dist_key_in_pk_indices }
            && all_within(dist_key_in_pk_indices@, pk_indices.len()),
    ensures
        dist.compute_vnode matches ComputeVnode::DistKeyIndices { dist_key_in_pk_indices }
            && projected(row, dist.key_columns(pk_indices)) == projected(
            projected(row, pk_indices),
            dist_key_in_pk_indices@,
        ),
{
    if let ComputeVnode::DistKeyIndices { dist_key_in_pk_indices } = dist.compute_vnode {
        assert(projected(row, dist.key_columns(pk_indices)) =~= projected(
            projected(row, pk_indices),
            dist_key_in_pk_indices@,
        ));
    }
}

/// The virtual node that a prefix of a primary key decides is that of every row whose primary key starts
/// with the prefix and whose distribution key hashes alike.
pub proof fn lemma_prefix_agrees(
    dist: TableDistribution,
    prefix: Seq<Option<i64>>,
    pk: Seq<Option<i64>>,
    key_vnode: VirtualNode,
)
    requires
        prefix.len() <= pk.len(),
        prefix == pk.take(prefix.len() as int),
        dist.prefix_decides(prefix.len()),
    ensures
        dist.vnode_of(prefix, key_vnode) == dist.vnode_of(pk, key_vnode),
{
    if let ComputeVnode::VnodeColumnIndex { vnode_col_idx_in_pk } = dist.compute_vnode {
        assert(prefix[vnode_col_idx_in_pk as int] == pk[vnode_col_idx_in_pk as int]);
    }
}

} // verus!
