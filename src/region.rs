//! Byte ranges on a disk and the attributes a planned partition carries.
use vstd::prelude::*;

verus! {

/// The purpose of a partition, used to wire mount points.
#[derive(Debug, Clone, Copy, PartialEq, Eq, Structural, Hash)]
pub enum PartitionRole {
    Boot,
    ExtendedBootloader,
    Esp,
    Root,
    Swap,
    Home,
}

/// The filesystem a partition is to be formatted with.
#[derive(Debug, Clone, Copy, PartialEq, Eq, Structural, Hash)]
pub enum Filesystem {
    Fat32,
    Ext4,
    F2fs,
    Xfs,
    Btrfs,
    Swap,
}

/// What a planned partition is for; the planner carries it through untouched.
#[derive(Debug, Clone, Copy, PartialEq, Eq, Structural)]
pub struct PartitionAttributes {
    pub role: Option<PartitionRole>,
    pub filesystem: Option<Filesystem>,
}

/// A contiguous region of disk space between two absolute byte offsets.
///
/// The region covers `[start, end)`, measured from the start of the disk.
#[derive(Debug, Clone, Copy, PartialEq, Eq, Structural)]
pub struct Region {
    /// The absolute start position of this region in bytes
    pub start: u64,
    /// The absolute end position of this region in bytes
    pub end: u64,
    /// The partition ID of this region if it represents a partition
    pub partition_id: Option<u32>,
    pub attributes: Option<PartitionAttributes>,
}

impl Region {
    /// The two half-open ranges share at least one byte; touching ends do not.
    pub open spec fn overlaps(self, other: Region) -> bool {
        self.start < other.end && other.start < self.end
    }

    /// Creates a region with the given bounds, no partition ID and no attributes.
    pub fn new(start: u64, end: u64) -> (r: Region)
        ensures
            r == (Region { start, end, partition_id: None, attributes: None }),
    {
        Region { start, end, partition_id: None, attributes: None }
    }

    /// The size of this region in bytes.
    pub fn size(&self) -> (r: u64)
        requires
            self.start <= self.end,
        ensures
            r == self.end - self.start,
    {
        self.end - self.start
    }

    /// Whether this region overlaps with another.
    pub fn overlaps_with(&self, other: &Region) -> (r: bool)
        ensures
            r == self.overlaps(*other),
    {
        self.start < other.end && other.start < self.end
    }
}

} // verus!
