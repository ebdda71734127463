//! Bitmaps over virtual nodes.
use vstd::prelude::*;

verus! {

/// The number of virtual nodes that the key space of a table is hashed into.
pub const VNODE_COUNT: usize = 256;

/// A virtual node, that is one slot of the hashed key space.
#[derive(Clone, Copy, Debug, PartialEq, Eq, Structural)]
pub struct VirtualNode {
    pub index: u16,
}

impl VirtualNode {
    /// The virtual node with the given index.
    pub fn from_index(index: usize) -> (vnode: VirtualNode)
        requires
            index < VNODE_COUNT,
        ensures
            vnode.index == index,
    {
        VirtualNode { index: index as u16 }
    }

    /// The index of this virtual node.
    pub fn to_index(&self) -> (index: usize)
        ensures
            index == self.index,
    {
        self.index as usize
    }
}

/// The number of positions of `bits` that hold `true`.
pub open spec fn ones(bits: Seq<bool>) -> nat
    decreases bits.len(),
{
    if bits.len() == 0 {
        0
    } else {
        ones(bits.drop_last()) + (if bits.last() {
            1nat
        } else {
            0nat
        })
    }
}

/// No position is set in both bit sequences.
pub open spec fn disjoint_bits(a: Seq<bool>, b: Seq<bool>) -> bool {
    forall|k: int| 0 <= k < a.len() && 0 <= k < b.len() ==> !(#[trigger] a[k] && #[trigger] b[k])
}

/// The position-wise union of two bit sequences of equal length.
pub open spec fn union_bits(a: Seq<bool>, b: Seq<bool>) -> Seq<bool> {
    Seq::new(a.len(), |k: int| a[k] || b[k])
}

/// A fixed-length sequence of bits.
#[derive(Debug)]
pub struct Bitmap {
    bits: Vec<bool>,
}

impl View for Bitmap {
    type V = Seq<bool>;

    closed spec fn view(&self) -> Seq<bool> {
        self.bits@
    }
}

impl Clone for Bitmap {
    fn clone(&self) -> (res: Bitmap)
        ensures
            res@ == self@,
    {
        let bits = self.bits.clone();
        assert(bits@ =~= self.bits@);
        Bitmap { bits }
    }
}

impl Bitmap {
    /// The bitmap that holds the given bits in order.
    pub fn from_bool_vec(bits: Vec<bool>) -> (res: Bitmap)
        ensures
            res@ == bits@,
    {
        Bitmap { bits }
    }

    /// A bitmap of `len` bits, none of them set.
    pub fn zeros(len: usize) -> (res: Bitmap)
        ensures
            res@ == Seq::new(len as nat, |k: int| false),
    {
        let mut bits: Vec<bool> = Vec::new();
        let mut k: usize = 0;
        while k < len
            invariant
                k <= len,
                bits@ == Seq::new(k as nat, |k: int| false),
            decreases len - k,
        {
            bits.push(false);
            k = k + 1;
            assert(bits@ =~= Seq::new(k as nat, |k: int| false));
        }
        Bitmap { bits }
    }

    /// A bitmap of `len` bits, all of them set.
    pub fn ones(len: usize) -> (res: Bitmap)
        ensures
            res@ == Seq::new(len as nat, |k: int| true),
    {
        let mut bits: Vec<bool> = Vec::new();
        let mut k: usize = 0;
        while k < len
            invariant
                k <= len,
                bits@ == Seq::new(k as nat, |k: int| true),
            decreases len - k,
        {
            bits.push(true);
            k = k + 1;
            assert(bits@ =~= Seq::new(k as nat, |k: int| true));
        }
        Bitmap { bits }
    }

    /// The number of bits.
    pub fn len(&self) -> (res: usize)
        ensures
            res == self@.len(),
    {
        self.bits.len()
    }

    /// Whether the bit at `idx` is set.
    pub fn is_set(&self, idx: usize) -> (res: bool)
        requires
            idx < self@.len(),
        ensures
            res == self@[idx as int],
    {
        self.bits[idx]
    }

    /// Sets the bit at `idx` to `val`.
    pub fn set(&mut self, idx: usize, val: bool)
        requires
            idx < old(self)@.len(),
        ensures
            final(self)@ == old(self)@.update(idx as int, val),
    {
        self.bits.set(idx, val);
    }

    /// The number of bits that are set.
    pub fn count_ones(&self) -> (res: usize)
        ensures
            res == ones(self@),
    {
        let mut count: usize = 0;
        let mut k: usize = 0;
        while k < self.bits.len()
            invariant
                k <= self.bits.len(),
                count <= k,
                count == ones(self.bits@.take(k as int)),
            decreases self.bits.len() - k,
        {
            assert(self.bits@.take(k + 1).drop_last() =~= self.bits@.take(k as int));
            if self.bits[k] {
                count = count + 1;
            }
            k = k + 1;
        }
        assert(self.bits@.take(k as int) =~= self.bits@);
        count
    }

    /// Whether no bit differs between the two bitmaps.
    pub fn same_bits(&self, other: &Bitmap) -> (res: bool)
        ensures
            res == (self@ == other@),
    {
        if self.bits.len() != other.bits.len() {
            return false;
        }
        let mut k: usize = 0;
        while k < self.bits.len()
            invariant
                k <= self.bits.len(),
                self.bits.len() == other.bits.len(),
                forall|j: int| 0 <= j < k ==> self.bits@[j] == other.bits@[j],
            decreases self.bits.len() - k,
        {
            if self.bits[k] != other.bits[k] {
                assert(self.bits@[k as int] != other.bits@[k as int]);
                return false;
            }
            k = k + 1;
        }
        assert(self.bits@ =~= other.bits@);
        true
    }
}

/// A bit sequence has at most as many set positions as positions.
pub proof fn lemma_ones_bound(bits: Seq<bool>)
    ensures
        ones(bits) <= bits.len(),
    decreases bits.len(),
{
    if bits.len() > 0 {
        lemma_ones_bound(bits.drop_last());
    }
}

/// Counting splits over concatenation.
pub proof fn lemma_ones_concat(a: Seq<bool>, b: Seq<bool>)
    ensures
        ones(a + b) == ones(a) + ones(b),
    decreases b.len(),
{
    if b.len() == 0 {
        assert(a + b =~= a);
    } else {
        lemma_ones_concat(a, b.drop_last());
        assert((a + b).drop_last() =~= a + b.drop_last());
    }
}

/// Setting a clear bit adds one to the count, clearing a set bit takes one away.
pub proof fn lemma_ones_update(bits: Seq<bool>, k: int, val: bool)
    requires
        0 <= k < bits.len(),
        bits[k] != val,
    ensures
        val ==> ones(bits.update(k, val)) == ones(bits) + 1,
        !val ==> ones(bits.update(k, val)) + 1 == ones(bits),
    decreases bits.len(),
{
    let upd = bits.update(k, val);
    if k == bits.len() - 1 {
        assert(upd.drop_last() =~= bits.drop_last());
    } else {
        assert(upd.drop_last() =~= bits.drop_last().update(k, val));
        lemma_ones_update(bits.drop_last(), k, val);
    }
}

/// No position is set exactly when the count is zero.
pub proof fn lemma_ones_zero(bits: Seq<bool>)
    ensures
        ones(bits) == 0 <==> (forall|k: int| 0 <= k < bits.len() ==> !#[trigger] bits[k]),
    decreases bits.len(),
{
    if bits.len() > 0 {
        lemma_ones_zero(bits.drop_last());
        assert(forall|k: int| 0 <= k < bits.len() - 1 ==> bits[k] == bits.drop_last()[k]);
        if bits.last() {
            assert(bits[bits.len() - 1]);
        }
    }
}

/// Every position is set exactly when the count is the length.
pub proof fn lemma_ones_full(bits: Seq<bool>)
    requires
        forall|k: int| 0 <= k < bits.len() ==> #[trigger] bits[k],
    ensures
        ones(bits) == bits.len(),
    decreases bits.len(),
{
    if bits.len() > 0 {
        lemma_ones_full(bits.drop_last());
    }
}

/// The union of disjoint bit sequences counts what both count.
pub proof fn lemma_ones_union(a: Seq<bool>, b: Seq<bool>)
    requires
        a.len() == b.len(),
        disjoint_bits(a, b),
    ensures
        ones(union_bits(a, b)) == ones(a) + ones(b),
    decreases a.len(),
{
    if a.len() > 0 {
        assert(union_bits(a, b).drop_last() =~= union_bits(a.drop_last(), b.drop_last()));
        assert(disjoint_bits(a.drop_last(), b.drop_last()));
        lemma_ones_union(a.drop_last(), b.drop_last());
        assert(!(a[a.len() - 1] && b[a.len() - 1]));
    }
}

} // verus!
