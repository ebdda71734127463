//! How much memory an executor may use, and how much it uses.
use vstd::prelude::*;

verus! {

/// The memory of an executor.
#[derive(Clone, Copy, Debug, PartialEq, Eq, Structural)]
pub struct MemoryContext {
    pub mem_limit: u64,
    pub bytes_used: i64,
}

/// More memory is used than the limit allows.
#[derive(Clone, Copy, Debug, PartialEq, Eq, Structural)]
pub struct OutOfMemory {
    pub mem_limit: u64,
}

impl MemoryContext {
    /// The memory that is used is within the limit.
    pub open spec fn within_limit(&self) -> bool {
        self.bytes_used <= self.mem_limit
    }

    /// No memory is used yet.
    pub fn new(mem_limit: u64) -> (res: MemoryContext)
        ensures
            res == (MemoryContext { mem_limit, bytes_used: 0 }),
    {
        MemoryContext { mem_limit, bytes_used: 0 }
    }

    /// How much memory may be used.
    pub fn mem_limit(&self) -> (res: u64)
        ensures
            res == self.mem_limit,
    {
        self.mem_limit
    }

    /// How much memory is used.
    pub fn get_bytes_used(&self) -> (res: i64)
        ensures
            res == self.bytes_used,
    {
        self.bytes_used
    }

    /// Counts a change of the memory that is used; returns whether the use is within the limit after it.
    pub fn add(&mut self, change: i64) -> (res: bool)
        requires
            i64::MIN <= old(self).bytes_used + change <= i64::MAX,
        ensures
            final(self).mem_limit == old(self).mem_limit,
            final(self).bytes_used == old(self).bytes_used + change,
            res == final(self).within_limit(),
    {
        self.bytes_used = self.bytes_used + change;
        self.check_memory_usage()
    }

    /// Whether the memory that is used is within the limit.
    pub fn check_memory_usage(&self) -> (res: bool)
        ensures
            res == self.within_limit(),
    {
        self.bytes_used as i128 <= self.mem_limit as i128
    }

    /// It is an error if more memory is used than the limit allows.
    pub fn ensure_within_limit(&self) -> (res: Result<(), OutOfMemory>)
        ensures
            self.within_limit() ==> res is Ok,
            !self.within_limit() ==> res == Err::<(), OutOfMemory>(
                OutOfMemory { mem_limit: self.mem_limit },
            ),
    {
        if self.check_memory_usage() {
            Ok(())
        } else {
            Err(OutOfMemory { mem_limit: self.mem_limit })
        }
    }
}

} // verus!
