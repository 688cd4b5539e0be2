//! A snapshot of a block device: its size and the partitions it holds.
use vstd::prelude::*;

use crate::text::{decimal, is_digit, push_decimal};

verus! {

/// The device node of partition `index` of the device at `path`: the index is
/// appended, after a `p` where the device path itself ends in a digit
/// (`/dev/sda` gives `/dev/sda1`, `/dev/nvme0n1` gives `/dev/nvme0n1p1`).
pub open spec fn partition_path_of(path: Seq<char>, index: nat) -> Seq<char> {
    if path.len() > 0 && is_digit(path.last()) {
        path + "p"@ + decimal(index)
    } else {
        path + decimal(index)
    }
}

/// A partition that already exists on a device.
#[derive(Debug, Clone, Copy, PartialEq, Eq, Structural)]
pub struct Partition {
    pub start: u64,
    pub end: u64,
    /// 1-based partition number
    pub number: u32,
}

/// The size and the partition list of a disk, read before planning starts.
#[derive(Debug, Clone)]
pub struct BlockDevice {
    /// The device node, e.g. `/dev/sda`
    pub path: String,
    /// Total size in bytes
    pub size: u64,
    /// Existing partitions, in the order the device lists them
    pub partitions: Vec<Partition>,
}

impl BlockDevice {
    /// A device of `size` bytes at `path` with no partitions.
    pub fn new(path: String, size: u64) -> (r: BlockDevice)
        ensures
            r.path@ == path@,
            r.size == size,
            r.partitions@ == Seq::<Partition>::empty(),
    {
        BlockDevice { path, size, partitions: Vec::new() }
    }

    /// Appends a partition covering `[start, end)`, numbered after the ones before it.
    pub fn add_partition(&mut self, start: u64, end: u64)
        requires
            old(self).partitions@.len() < u32::MAX,
        ensures
            final(self).path@ == old(self).path@,
            final(self).size == old(self).size,
            final(self).partitions@ == old(self).partitions@.push(
                Partition { start, end, number: (old(self).partitions@.len() + 1) as u32 },
            ),
    {
        let number: u32 = (self.partitions.len() + 1) as u32;
        self.partitions.push(Partition { start, end, number });
    }

    /// Total size in bytes.
    pub fn size(&self) -> (r: u64)
        ensures
            r == self.size,
    {
        self.size
    }

    /// The device node of the partition numbered `index` on this device.
    pub fn partition_path(&self, index: usize) -> (r: String)
        ensures
            r@ == partition_path_of(self.path@, index as nat),
    {
        let mut s = self.path.clone();
        let n = self.path.as_str().unicode_len();
        if n > 0 {
            let c = self.path.as_str().get_char(n - 1);
            if '0' <= c && c <= '9' {
                s.append("p");
            }
        }
        push_decimal(&mut s, index as u128);
        s
    }
}

} // verus!
