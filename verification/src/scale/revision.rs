//! The revision of the tables, as it is counted and stored.
use vstd::prelude::*;
use vstd::std_specs::convert::FromSpecImpl;

verus! {

/// The value of a sequence of bytes, the most significant one first.
pub open spec fn big_endian(bytes: Seq<u8>) -> nat
    decreases bytes.len(),
{
    if bytes.len() == 0 {
        0
    } else {
        big_endian(bytes.drop_last()) * 256 + bytes.last() as nat
    }
}

/// `memcomparable::to_vec` on a `u64`: it returns the eight bytes of the number, the most
/// significant one first, and does not fail.
#[verifier::external_body]
fn encode_u64(value: u64) -> (res: Vec<u8>)
    ensures
        res@.len() == 8,
        big_endian(res@) == value,
{
    memcomparable::to_vec(&value).unwrap()
}

/// `memcomparable::from_slice` for a `u64`: on eight bytes it returns the number that they
/// write, the most significant one first. It panics on fewer bytes and fails on more.
#[verifier::external_body]
fn decode_u64(bytes: &Vec<u8>) -> (res: u64)
    requires
        bytes@.len() == 8,
    ensures
        res == big_endian(bytes@),
{
    memcomparable::from_slice(bytes).unwrap()
}

/// The puts of a transaction, by key and value, in order.
#[derive(Debug)]
pub struct Transaction {
    pub puts: Vec<(Vec<u8>, Vec<u8>)>,
}

impl Transaction {
    /// A transaction that does nothing.
    pub fn new() -> (res: Transaction)
        ensures
            res.puts@.len() == 0,
    {
        Transaction { puts: Vec::new() }
    }
}

/// The key of the revision: the bytes of `table_revision`.
pub open spec fn table_revision_key() -> Seq<u8> {
    seq![
        0x74u8,
        0x61u8,
        0x62u8,
        0x6cu8,
        0x65u8,
        0x5fu8,
        0x72u8,
        0x65u8,
        0x76u8,
        0x69u8,
        0x73u8,
        0x69u8,
        0x6fu8,
        0x6eu8,
    ]
}

/// The revision of the tables: it grows by one with every change.
#[derive(Clone, Copy, Debug, Default, PartialEq, Eq, PartialOrd, Ord, Structural)]
pub struct TableRevision(pub u64);

impl From<TableRevision> for u64 {
    fn from(value: TableRevision) -> (res: u64) {
        value.0
    }
}

impl FromSpecImpl<TableRevision> for u64 {
    open spec fn obeys_from_spec() -> bool {
        true
    }

    open spec fn from_spec(value: TableRevision) -> u64 {
        value.0
    }
}

impl TableRevision {
    /// The revision that the stored bytes hold; the first revision where nothing is stored.
    pub fn get(stored: Option<&Vec<u8>>) -> (res: TableRevision)
        requires
            stored matches Some(bytes) ==> bytes@.len() == 8,
        ensures
            match stored {
                Some(bytes) => res.0 == big_endian(bytes@),
                None => res.0 == 0,
            },
    {
        match stored {
            Some(bytes) => TableRevision(decode_u64(bytes)),
            None => TableRevision(0),
        }
    }

    /// The following revision.
    pub fn next(&self) -> (res: TableRevision)
        requires
            self.0 < u64::MAX,
        ensures
            res.0 == self.0 + 1,
    {
        TableRevision(self.0 + 1)
    }

    /// Adds a put of the revision to the transaction.
    pub fn store(&self, txn: &mut Transaction)
        ensures
            final(txn).puts@.len() == old(txn).puts@.len() + 1,
            final(txn).puts@.drop_last() == old(txn).puts@,
            final(txn).puts@.last().0@ == table_revision_key(),
            final(txn).puts@.last().1@.len() == 8,
            big_endian(final(txn).puts@.last().1@) == self.0,
    {
        let key: Vec<u8> = vec![
            0x74u8,
            0x61u8,
            0x62u8,
            0x6cu8,
            0x65u8,
            0x5fu8,
            0x72u8,
            0x65u8,
            0x76u8,
            0x69u8,
            0x73u8,
            0x69u8,
            0x6fu8,
            0x6eu8,
        ];
        assert(key@ =~= table_revision_key());
        let value = encode_u64(self.0);
        let ghost puts0 = txn.puts@;
        txn.puts.push((key, value));
        assert(txn.puts@.drop_last() =~= puts0);
    }

    /// The number of the revision.
    pub fn inner(&self) -> (res: u64)
        ensures
            res == self.0,
    {
        self.0
    }
}

/// What is stored as a revision is read back as that revision: bytes that hold the number of a
/// revision hold the number of no other.
pub proof fn lemma_store_get(stored: Seq<u8>, revision: TableRevision, read: TableRevision)
    requires
        big_endian(stored) == revision.0,
        big_endian(stored) == read.0,
    ensures
        read == revision,
{
}

/// The stored bytes of a revision are determined by the revision.
pub proof fn lemma_big_endian_injective(a: Seq<u8>, b: Seq<u8>)
    requires
        a.len() == b.len(),
        big_endian(a) == big_endian(b),
    ensures
        a == b,
    decreases a.len(),
{
    if a.len() > 0 {
        assert(big_endian(a.drop_last()) == big_endian(b.drop_last()) && a.last() == b.last())
            by (nonlinear_arith)
            requires
                big_endian(a.drop_last()) * 256 + a.last() as nat == big_endian(b.drop_last()) * 256
                    + b.last() as nat,
                0 <= a.last() < 256,
                0 <= b.last() < 256,
        ;
        lemma_big_endian_injective(a.drop_last(), b.drop_last());
        assert(a =~= a.drop_last().push(a.last()));
        assert(b =~= b.drop_last().push(b.last()));
    } else {
        assert(a =~= b);
    }
}

} // verus!
