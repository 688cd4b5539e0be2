//! Disk partition planning and validation.
//!
//! A [`Planner`] holds the partitions a device had when it was read, a usable
//! byte window, and a queue of planned changes. Additions are aligned and
//! checked against the window and the current layout before they are queued;
//! the most recent change can be undone at any time.
use vstd::prelude::*;
use std::collections::VecDeque;

use crate::align::{align_down, align_up, aligned_to, is_aligned, round_nearest, PARTITION_ALIGNMENT};
use crate::device::{BlockDevice, Partition};
use crate::region::{PartitionAttributes, Region};

verus! {

/// Errors that can occur while planning partition changes.
#[derive(Debug, Clone, Copy, PartialEq, Eq, Structural)]
pub enum PlanError {
    /// The aligned region intersects an existing or planned partition.
    RegionOverlap { start: u64, end: u64 },
    /// The aligned region lies outside the usable window or is empty, or an
    /// index names no original partition.
    RegionOutOfBounds { start: u64, end: u64 },
    /// No free space fits a request.
    NoFreeRegions,
}

/// A planned modification to the disk's partition layout.
#[derive(Debug, Clone, Copy, PartialEq, Eq, Structural)]
pub enum Change {
    /// Add a new partition
    AddPartition {
        start: u64,
        end: u64,
        partition_id: u32,
        attributes: Option<PartitionAttributes>,
    },
    /// Delete an existing partition
    DeletePartition { original_index: usize, partition_id: u32 },
}

impl Change {
    /// The region that an addition puts on the disk.
    pub open spec fn added_region(self) -> Region {
        match self {
            Change::AddPartition { start, end, partition_id, attributes } => Region {
                start,
                end,
                partition_id: Some(partition_id),
                attributes,
            },
            Change::DeletePartition { .. } => Region {
                start: 0,
                end: 0,
                partition_id: None,
                attributes: None,
            },
        }
    }

    /// This change deletes the original partition at index `i`.
    pub open spec fn deletes_index(self, i: int) -> bool {
        self matches Change::DeletePartition { original_index, .. } && original_index == i
    }
}

/// Some change of `cs` deletes the original partition at index `i`.
pub open spec fn deleted_in(cs: Seq<Change>, i: int) -> bool {
    exists|k: int| 0 <= k < cs.len() && #[trigger] cs[k].deletes_index(i)
}

/// The indices below `n` of the original partitions that no change of `cs` deletes, in order.
pub open spec fn kept_indices(cs: Seq<Change>, n: nat) -> Seq<int>
    decreases n,
{
    if n == 0 {
        Seq::<int>::empty()
    } else {
        let prev = kept_indices(cs, (n - 1) as nat);
        if deleted_in(cs, n - 1) {
            prev
        } else {
            prev.push(n - 1)
        }
    }
}

/// The positions in `cs` of the additions, in order.
pub open spec fn add_positions(cs: Seq<Change>) -> Seq<int>
    decreases cs.len(),
{
    if cs.len() == 0 {
        Seq::<int>::empty()
    } else {
        let prev = add_positions(cs.drop_last());
        if cs.last() is AddPartition {
            prev.push(cs.len() - 1)
        } else {
            prev
        }
    }
}

/// The original regions that `cs` keeps, in their original order.
pub open spec fn kept_regions(original: Seq<Region>, cs: Seq<Change>) -> Seq<Region> {
    kept_indices(cs, original.len()).map_values(|i: int| original[i])
}

/// The regions that the additions of `cs` put on the disk, in the order they were planned.
pub open spec fn added_regions(cs: Seq<Change>) -> Seq<Region> {
    add_positions(cs).map_values(|k: int| cs[k].added_region())
}

/// The layout after applying `cs` to `original`: the kept originals, then the additions.
pub open spec fn layout_of(original: Seq<Region>, cs: Seq<Change>) -> Seq<Region> {
    kept_regions(original, cs) + added_regions(cs)
}

/// No region of `rs` overlaps `r`.
pub open spec fn clear_of(rs: Seq<Region>, r: Region) -> bool {
    forall|i: int| 0 <= i < rs.len() ==> !r.overlaps(#[trigger] rs[i])
}

/// No two regions at distinct positions of `rs` overlap.
pub open spec fn pairwise_disjoint(rs: Seq<Region>) -> bool {
    forall|i: int, j: int|
        0 <= i < rs.len() && 0 <= j < rs.len() && i != j ==> !(#[trigger] rs[i]).overlaps(
            #[trigger] rs[j],
        )
}

/// `r` lies inside `[lo, hi]` and each of its ends is aligned or on an edge of that window.
pub open spec fn placed_within(r: Region, lo: int, hi: int) -> bool {
    &&& aligned_to(r.start as int, PARTITION_ALIGNMENT as int) || r.start == lo
    &&& aligned_to(r.end as int, PARTITION_ALIGNMENT as int) || r.end == hi
    &&& lo <= r.start < r.end <= hi
}

/// A disk partitioning planner.
#[derive(Debug, Clone)]
pub struct Planner {
    /// First usable position on disk in bytes
    usable_start: u64,
    /// End of the usable region on disk in bytes
    usable_end: u64,
    /// Stack of changes that can be undone
    changes: VecDeque<Change>,
    /// Original partition layout for reference
    original_regions: Vec<Region>,
    /// Track original partition IDs
    original_partition_ids: Vec<u32>,
    /// Next available partition ID for new partitions
    next_partition_id: u32,
    wipe_disk: bool,
}

impl Planner {
    /// Start of the usable window.
    pub closed spec fn start_offset(self) -> u64 {
        self.usable_start
    }

    /// End of the usable window.
    pub closed spec fn end_offset(self) -> u64 {
        self.usable_end
    }

    /// The regions the device held when it was read.
    pub closed spec fn original(self) -> Seq<Region> {
        self.original_regions@
    }

    /// The partition IDs of the original regions, by index.
    pub closed spec fn original_ids(self) -> Seq<u32> {
        self.original_partition_ids@
    }

    /// The queued changes, oldest first.
    pub closed spec fn pending(self) -> Seq<Change> {
        self.changes@
    }

    /// The ID the next addition receives.
    pub closed spec fn next_id(self) -> u32 {
        self.next_partition_id
    }

    /// The whole disk is to be given a fresh partition table.
    pub closed spec fn wipes(self) -> bool {
        self.wipe_disk
    }

    /// The effective layout after all pending changes.
    pub open spec fn current(self) -> Seq<Region> {
        layout_of(self.original(), self.pending())
    }

    /// `other` has the same device view as `self`: window, originals and wipe flag.
    pub open spec fn same_disk(self, other: Planner) -> bool {
        &&& other.start_offset() == self.start_offset()
        &&& other.end_offset() == self.end_offset()
        &&& other.original() == self.original()
        &&& other.original_ids() == self.original_ids()
        &&& other.wipes() == self.wipes()
    }

    /// The change at position `k` of the queue is consistent with the state.
    pub open spec fn change_ok(self, k: int) -> bool {
        let cs = self.pending();
        match cs[k] {
            Change::DeletePartition { original_index, partition_id } => {
                &&& original_index < self.original().len()
                &&& partition_id == self.original_ids()[original_index as int]
            },
            Change::AddPartition { start, end, partition_id, .. } => {
                &&& placed_within(
                    cs[k].added_region(),
                    self.start_offset() as int,
                    self.end_offset() as int,
                )
                &&& clear_of(layout_of(self.original(), cs.take(k)), cs[k].added_region())
                &&& partition_id < self.next_id()
                &&& forall|i: int|
                    0 <= i < self.original_ids().len() ==> #[trigger] self.original_ids()[i]
                        < partition_id
                &&& forall|j: int|
                    0 <= j < k && (#[trigger] cs[j]) is AddPartition ==> cs[j]->AddPartition_partition_id
                        < partition_id
            },
        }
    }

    /// The planner's invariant.
    pub open spec fn wf(self) -> bool {
        &&& self.start_offset() <= self.end_offset()
        &&& self.original_ids().len() == self.original().len()
        &&& forall|i: int|
            0 <= i < self.original().len() ==> #[trigger] self.original()[i].partition_id == Some(
                self.original_ids()[i],
            )
        &&& forall|i: int|
            0 <= i < self.original_ids().len() ==> #[trigger] self.original_ids()[i]
                < self.next_id()
        &&& forall|k: int| 0 <= k < self.pending().len() ==> #[trigger] self.change_ok(k)
    }

    /// Where an addition requested at `start` begins after alignment and clamping.
    pub open spec fn aligned_start_for(self, start: u64) -> int {
        let a = round_nearest(start as int, PARTITION_ALIGNMENT as int);
        if a >= self.start_offset() {
            a
        } else {
            self.start_offset() as int
        }
    }

    /// Where an addition requested to end at `end` ends after alignment and clamping.
    pub open spec fn aligned_end_for(self, end: u64) -> int {
        let a = round_nearest(end as int, PARTITION_ALIGNMENT as int);
        if a <= self.end_offset() {
            a
        } else {
            self.end_offset() as int
        }
    }

    /// After alignment `[start, end)` is a non-empty region inside the usable
    /// window, and no end that was already aligned has moved.
    pub open spec fn fits_window(self, start: u64, end: u64) -> bool {
        let s = self.aligned_start_for(start);
        let e = self.aligned_end_for(end);
        !((aligned_to(start as int, PARTITION_ALIGNMENT as int) && s != start) || (aligned_to(
            end as int,
            PARTITION_ALIGNMENT as int,
        ) && e != end) || s < self.start_offset() || e > self.end_offset() || e <= s)
    }

    /// The error an addition of `[start, end)` fails with, if any.
    pub open spec fn add_error(self, start: u64, end: u64) -> Option<PlanError> {
        let s = self.aligned_start_for(start);
        let e = self.aligned_end_for(end);
        if !self.fits_window(start, end) {
            Some(PlanError::RegionOutOfBounds { start: s as u64, end: e as u64 })
        } else if !clear_of(
            self.current(),
            (Region { start: s as u64, end: e as u64, partition_id: None, attributes: None }),
        ) {
            Some(PlanError::RegionOverlap { start: s as u64, end: e as u64 })
        } else {
            None
        }
    }

    /// `after` is `self` with one more queued addition of `[start, end)` carrying `attributes`.
    pub open spec fn added(
        self,
        after: Planner,
        start: u64,
        end: u64,
        attributes: Option<PartitionAttributes>,
    ) -> bool {
        &&& self.same_disk(after)
        &&& after.next_id() == self.next_id() + 1
        &&& after.pending() == self.pending().push(
            Change::AddPartition {
                start: self.aligned_start_for(start) as u64,
                end: self.aligned_end_for(end) as u64,
                partition_id: self.next_id(),
                attributes,
            },
        )
    }

    /// `after` is `self` with its most recent change taken back.
    pub open spec fn undone(self, after: Planner) -> bool {
        &&& self.pending().len() > 0
        &&& self.same_disk(after)
        &&& after.next_id() == self.next_id()
        &&& after.pending() == self.pending().drop_last()
    }

    /// The partition numbers of the first `n` partitions, at their largest; 0 for none.
    pub open spec fn max_number(parts: Seq<Partition>, n: nat) -> u32
        decreases n,
    {
        if n == 0 {
            0
        } else {
            let m = Self::max_number(parts, (n - 1) as nat);
            if parts[n - 1].number > m {
                parts[n - 1].number
            } else {
                m
            }
        }
    }

    /// Creates a new partitioning planner for the given disk.
    ///
    /// The usable window is the whole device and the first new partition
    /// receives the ID after the largest existing one.
    pub fn new(device: &BlockDevice) -> (r: Planner)
        requires
            forall|i: int|
                0 <= i < device.partitions@.len() ==> (#[trigger] device.partitions@[i]).number
                    < u32::MAX,
        ensures
            r.wf(),
            r.start_offset() == 0,
            r.end_offset() == device.size,
            r.pending().len() == 0,
            r.original() == device.partitions@.map_values(
                |p: Partition| Region { start: p.start, end: p.end, partition_id: Some(p.number), attributes: None },
            ),
            r.original_ids() == device.partitions@.map_values(|p: Partition| p.number),
            r.next_id() == Self::max_number(device.partitions@, device.partitions@.len()) + 1,
            !r.wipes(),
    {
        let mut original_regions: Vec<Region> = Vec::new();
        let mut original_partition_ids: Vec<u32> = Vec::new();
        let mut max_id: u32 = 0;
        let n = device.partitions.len();
        let ghost parts = device.partitions@;
        let mut i: usize = 0;
        while i < n
            invariant
                n == parts.len(),
                parts == device.partitions@,
                0 <= i <= n,
                forall|j: int| 0 <= j < n ==> (#[trigger] parts[j]).number < u32::MAX,
                max_id == Self::max_number(parts, i as nat),
                max_id < u32::MAX,
                original_regions@ == parts.take(i as int).map_values(
                    |p: Partition| Region { start: p.start, end: p.end, partition_id: Some(p.number), attributes: None },
                ),
                original_partition_ids@ == parts.take(i as int).map_values(|p: Partition| p.number),
                forall|j: int| 0 <= j < i ==> (#[trigger] parts[j]).number <= max_id,
            decreases n - i,
        {
            let part = device.partitions[i];
            original_regions.push(
                Region { start: part.start, end: part.end, partition_id: Some(part.number), attributes: None },
            );
            original_partition_ids.push(part.number);
            if part.number > max_id {
                max_id = part.number;
            }
            proof {
                assert(parts.take(i + 1) =~= parts.take(i as int).push(part));
                assert(original_regions@ =~= parts.take(i + 1).map_values(
                    |p: Partition| Region { start: p.start, end: p.end, partition_id: Some(p.number), attributes: None },
                ));
                assert(original_partition_ids@ =~= parts.take(i + 1).map_values(|p: Partition| p.number));
            }
            i = i + 1;
        }
        proof {
            assert(parts.take(n as int) =~= parts);
        }
        let r = Planner {
            usable_start: 0,
            usable_end: device.size,
            changes: VecDeque::new(),
            original_regions,
            original_partition_ids,
            next_partition_id: max_id + 1,
            wipe_disk: false,
        };
        assert(r.original_ids() == parts.map_values(|p: Partition| p.number));
        assert(forall|j: int| 0 <= j < n ==> r.original_ids()[j] == (#[trigger] parts[j]).number);
        r
    }
}


impl Planner {
    /// Sets the start of the usable window.
    ///
    /// A builder step: it is taken before any change is planned, and the
    /// window must not end before it starts.
    pub fn with_start_offset(self, offset: u64) -> (r: Planner)
        requires
            self.wf(),
            self.pending().len() == 0,
            offset <= self.end_offset(),
        ensures
            r.wf(),
            r.start_offset() == offset,
            r.end_offset() == self.end_offset(),
            r.original() == self.original(),
            r.original_ids() == self.original_ids(),
            r.pending() == self.pending(),
            r.next_id() == self.next_id(),
            r.wipes() == self.wipes(),
    {
        Planner { usable_start: offset, ..self }
    }

    /// Sets the end of the usable window.
    ///
    /// A builder step: it is taken before any change is planned, and the
    /// window must not end before it starts.
    pub fn with_end_offset(self, offset: u64) -> (r: Planner)
        requires
            self.wf(),
            self.pending().len() == 0,
            self.start_offset() <= offset,
        ensures
            r.wf(),
            r.start_offset() == self.start_offset(),
            r.end_offset() == offset,
            r.original() == self.original(),
            r.original_ids() == self.original_ids(),
            r.pending() == self.pending(),
            r.next_id() == self.next_id(),
            r.wipes() == self.wipes(),
    {
        Planner { usable_end: offset, ..self }
    }

    /// Whether some pending change deletes the original partition at `index`.
    fn is_deleted(&self, index: usize) -> (r: bool)
        ensures
            r == deleted_in(self.pending(), index as int),
    {
        let n = self.changes.len();
        let mut k: usize = 0;
        while k < n
            invariant
                n == self.pending().len(),
                0 <= k <= n,
                forall|j: int| 0 <= j < k ==> !(#[trigger] self.pending()[j]).deletes_index(index as int),
            decreases n - k,
        {
            if let Change::DeletePartition { original_index, .. } = self.changes[k] {
                if original_index == index {
                    assert(self.pending()[k as int].deletes_index(index as int));
                    return true;
                }
            }
            k = k + 1;
        }
        false
    }

    /// Returns the current effective layout after all pending changes.
    ///
    /// The original regions that no change deletes come first, in their
    /// original order, followed by one region per planned addition, in the
    /// order the additions were planned.
    pub fn current_layout(&self) -> (r: Vec<Region>)
        ensures
            r@ == self.current(),
    {
        let ghost orig = self.original();
        let ghost cs = self.pending();
        let mut layout: Vec<Region> = Vec::new();
        let n = self.original_regions.len();
        let mut i: usize = 0;
        while i < n
            invariant
                n == orig.len(),
                orig == self.original(),
                cs == self.pending(),
                0 <= i <= n,
                layout@ == kept_indices(cs, i as nat).map_values(|j: int| orig[j]),
            decreases n - i,
        {
            let deleted = self.is_deleted(i);
            if !deleted {
                layout.push(self.original_regions[i]);
            }
            proof {
                assert(layout@ =~= kept_indices(cs, (i + 1) as nat).map_values(|j: int| orig[j]));
            }
            i = i + 1;
        }
        let ghost kept = layout@;
        assert(kept =~= kept_regions(orig, cs));
        let m = self.changes.len();
        let mut k: usize = 0;
        while k < m
            invariant
                m == cs.len(),
                cs == self.pending(),
                kept == kept_regions(orig, cs),
                0 <= k <= m,
                layout@ == kept + add_positions(cs.take(k as int)).map_values(
                    |j: int| cs[j].added_region(),
                ),
            decreases m - k,
        {
            let c = self.changes[k];
            proof {
                lemma_add_positions(cs.take(k as int));
                assert(cs.take(k + 1).drop_last() =~= cs.take(k as int));
            }
            if let Change::AddPartition { start, end, partition_id, attributes } = c {
                layout.push(Region { start, end, partition_id: Some(partition_id), attributes });
            }
            proof {
                assert(layout@ =~= kept + add_positions(cs.take(k + 1)).map_values(
                    |j: int| cs[j].added_region(),
                ));
            }
            k = k + 1;
        }
        proof {
            assert(cs.take(m as int) =~= cs);
            assert(layout@ =~= layout_of(orig, cs));
        }
        layout
    }

    /// Plans to add a partition covering `[start, end)`, without attributes.
    pub fn plan_add_partition(&mut self, start: u64, end: u64) -> (r: Result<(), PlanError>)
        requires
            old(self).wf(),
            old(self).next_id() < u32::MAX,
            start as int + PARTITION_ALIGNMENT / 2 <= u64::MAX,
            end as int + PARTITION_ALIGNMENT / 2 <= u64::MAX,
        ensures
            final(self).wf(),
            r is Err <==> old(self).add_error(start, end) is Some,
            r matches Err(e) ==> old(self).add_error(start, end) == Some(e) && *final(self)
                == *old(self),
            r is Ok ==> old(self).added(*final(self), start, end, None),
    {
        self.plan_add_partition_with_attributes(start, end, None)
    }

    /// Plans to add a partition between two absolute positions on disk.
    ///
    /// Both ends are rounded to the nearest 1 MiB boundary and clamped to the
    /// usable window. The addition fails if an already aligned end would move,
    /// if the aligned region leaves the window or is empty, or if it overlaps
    /// a region of the current layout. On success the partition receives the
    /// next partition ID.
    pub fn plan_add_partition_with_attributes(
        &mut self,
        start: u64,
        end: u64,
        attributes: Option<PartitionAttributes>,
    ) -> (r: Result<(), PlanError>)
        requires
            old(self).wf(),
            old(self).next_id() < u32::MAX,
            start as int + PARTITION_ALIGNMENT / 2 <= u64::MAX,
            end as int + PARTITION_ALIGNMENT / 2 <= u64::MAX,
        ensures
            final(self).wf(),
            r is Err <==> old(self).add_error(start, end) is Some,
            r matches Err(e) ==> old(self).add_error(start, end) == Some(e) && *final(self)
                == *old(self),
            r is Ok ==> old(self).added(*final(self), start, end, attributes),
    {
        proof {
            crate::align::lemma_round_nearest_is_multiple(start as int, PARTITION_ALIGNMENT as int);
            crate::align::lemma_round_nearest_is_multiple(end as int, PARTITION_ALIGNMENT as int);
        }
        let up = align_up(start, PARTITION_ALIGNMENT);
        let aligned_start: u64 = if up >= self.usable_start {
            up
        } else {
            self.usable_start
        };
        let down = align_down(end, PARTITION_ALIGNMENT);
        let aligned_end: u64 = if down <= self.usable_end {
            down
        } else {
            self.usable_end
        };
        let out_of_bounds = PlanError::RegionOutOfBounds { start: aligned_start, end: aligned_end };
        // An endpoint that was already aligned must not be moved.
        if is_aligned(start, PARTITION_ALIGNMENT) && aligned_start != start {
            return Err(out_of_bounds);
        }
        if is_aligned(end, PARTITION_ALIGNMENT) && aligned_end != end {
            return Err(out_of_bounds);
        }
        if aligned_start < self.usable_start || aligned_end > self.usable_end {
            return Err(out_of_bounds);
        }
        // Alignment must not leave an empty region.
        if aligned_end <= aligned_start {
            return Err(out_of_bounds);
        }
        let new_region = Region::new(aligned_start, aligned_end);
        let current = self.current_layout();
        let mut i: usize = 0;
        while i < current.len()
            invariant
                current@ == self.current(),
                *self == *old(self),
                self.wf(),
                self.fits_window(start, end),
                aligned_start == self.aligned_start_for(start),
                aligned_end == self.aligned_end_for(end),
                new_region == (Region { start: aligned_start, end: aligned_end, partition_id: None, attributes: None }),
                0 <= i <= current@.len(),
                forall|j: int| 0 <= j < i ==> !new_region.overlaps(#[trigger] current@[j]),
            decreases current@.len() - i,
        {
            if new_region.overlaps_with(&current[i]) {
                assert(!clear_of(self.current(), new_region));
                return Err(PlanError::RegionOverlap { start: aligned_start, end: aligned_end });
            }
            i = i + 1;
        }
        let ghost before = *self;
        let partition_id = self.allocate_partition_id();
        let change = Change::AddPartition {
            start: aligned_start,
            end: aligned_end,
            partition_id,
            attributes,
        };
        self.changes.push_back(change);
        proof {
            let cs = before.pending();
            let ncs = self.pending();
            assert(ncs.take(cs.len() as int) =~= cs);
            assert(change.added_region() == Region {
                start: aligned_start,
                end: aligned_end,
                partition_id: Some(partition_id),
                attributes,
            });
            assert forall|k: int| 0 <= k < ncs.len() implies #[trigger] self.change_ok(k) by {
                if k < cs.len() {
                    assert(ncs.take(k) =~= cs.take(k));
                    assert(before.change_ok(k));
                } else {
                    assert(ncs[k] == change);
                    assert forall|x: int| 0 <= x < before.current().len() implies !change.added_region().overlaps(
                        #[trigger] before.current()[x],
                    ) by {
                        assert(!new_region.overlaps(current@[x]));
                    }
                    assert forall|j: int| 0 <= j < k && (#[trigger] ncs[j]) is AddPartition implies ncs[j]->AddPartition_partition_id
                        < partition_id by {
                        assert(before.change_ok(j));
                    }
                }
            }
        }
        Ok(())
    }

    /// Plans to delete the original partition at `index`.
    ///
    /// Fails with `RegionOutOfBounds` carrying the usable start and the usable
    /// size when `index` names no original partition.
    pub fn plan_delete_partition(&mut self, index: usize) -> (r: Result<(), PlanError>)
        requires
            old(self).wf(),
        ensures
            final(self).wf(),
            r is Err <==> index >= old(self).original().len(),
            r is Err ==> *final(self) == *old(self) && r == Err::<(), PlanError>(
                PlanError::RegionOutOfBounds {
                    start: old(self).start_offset(),
                    end: (old(self).end_offset() - old(self).start_offset()) as u64,
                },
            ),
            r is Ok ==> old(self).same_disk(*final(self)) && final(self).next_id() == old(
                self,
            ).next_id() && final(self).pending() == old(self).pending().push(
                Change::DeletePartition {
                    original_index: index,
                    partition_id: old(self).original_ids()[index as int],
                },
            ),
    {
        let out_of_bounds = PlanError::RegionOutOfBounds {
            start: self.usable_start,
            end: self.usable_size(),
        };
        if index >= self.original_regions.len() {
            return Err(out_of_bounds);
        }
        let partition_id = match self.get_original_partition_id(index) {
            Some(id) => id,
            None => {
                return Err(out_of_bounds);
            },
        };
        let ghost before = *self;
        let change = Change::DeletePartition { original_index: index, partition_id };
        self.changes.push_back(change);
        proof {
            let cs = before.pending();
            let ncs = self.pending();
            assert forall|k: int| 0 <= k < ncs.len() implies #[trigger] self.change_ok(k) by {
                if k < cs.len() {
                    assert(ncs.take(k) =~= cs.take(k));
                    assert(before.change_ok(k));
                    if ncs[k] is AddPartition {
                        assert forall|j: int| 0 <= j < k && (#[trigger] ncs[j]) is AddPartition implies ncs[j]->AddPartition_partition_id
                            < ncs[k]->AddPartition_partition_id by {
                            assert(cs[j] == ncs[j]);
                        }
                    }
                }
            }
        }
        Ok(())
    }

    /// Takes back the most recent change; returns whether there was one.
    ///
    /// Partition IDs already handed out stay consumed.
    pub fn undo(&mut self) -> (r: bool)
        requires
            old(self).wf(),
        ensures
            final(self).wf(),
            r == (old(self).pending().len() > 0),
            r ==> old(self).undone(*final(self)),
            !r ==> *final(self) == *old(self),
    {
        if self.changes.len() == 0 {
            return false;
        }
        let ghost before = *self;
        match self.changes.pop_back() {
            Some(_) => {
                proof {
                    let cs = before.pending();
                    let ncs = self.pending();
                    assert(ncs =~= cs.drop_last());
                    assert forall|k: int| 0 <= k < ncs.len() implies #[trigger] self.change_ok(k) by {
                        assert(ncs.take(k) =~= cs.take(k));
                        assert(before.change_ok(k));
                        if ncs[k] is AddPartition {
                            assert forall|j: int| 0 <= j < k && (#[trigger] ncs[j]) is AddPartition implies ncs[j]->AddPartition_partition_id
                                < ncs[k]->AddPartition_partition_id by {
                                assert(cs[j] == ncs[j]);
                            }
                        }
                    }
                }
                true
            },
            None => false,
        }
    }

    /// Clears all planned changes; the original regions and the partition ID
    /// counter are kept.
    pub fn reset(&mut self)
        requires
            old(self).wf(),
        ensures
            final(self).wf(),
            old(self).same_disk(*final(self)),
            final(self).next_id() == old(self).next_id(),
            final(self).pending() == Seq::<Change>::empty(),
            final(self).current() == old(self).original(),
    {
        self.changes.clear();
        proof {
            lemma_reset_layout(self.original());
        }
    }

    /// Whether there are any pending changes.
    pub fn has_changes(&self) -> (r: bool)
        ensures
            r == (self.pending().len() > 0),
    {
        self.changes.len() > 0
    }

    /// The list of pending changes, oldest first.
    pub fn changes(&self) -> (r: &VecDeque<Change>)
        ensures
            r@ == self.pending(),
    {
        &self.changes
    }

    /// The size of the usable disk region in bytes.
    pub fn usable_size(&self) -> (r: u64)
        requires
            self.wf(),
        ensures
            r == self.end_offset() - self.start_offset(),
    {
        self.usable_end - self.usable_start
    }

    /// The usable disk region offsets, start then end.
    pub fn offsets(&self) -> (r: (u64, u64))
        ensures
            r == (self.start_offset(), self.end_offset()),
    {
        (self.usable_start, self.usable_end)
    }

    /// Plans a fresh partition table: every original partition and every
    /// planned change is dropped and partition IDs start again at 1.
    pub fn plan_initialize_disk(&mut self) -> (r: Result<(), PlanError>)
        requires
            old(self).wf(),
        ensures
            final(self).wf(),
            r is Ok,
            final(self).start_offset() == old(self).start_offset(),
            final(self).end_offset() == old(self).end_offset(),
            final(self).original() == Seq::<Region>::empty(),
            final(self).original_ids() == Seq::<u32>::empty(),
            final(self).pending() == Seq::<Change>::empty(),
            final(self).next_id() == 1,
            final(self).wipes(),
            final(self).current() == Seq::<Region>::empty(),
    {
        self.changes.clear();
        self.original_regions.clear();
        self.original_partition_ids.clear();
        self.next_partition_id = 1;
        self.wipe_disk = true;
        proof {
            lemma_reset_layout(self.original());
        }
        Ok(())
    }

    /// Whether the whole disk is to be given a fresh partition table.
    pub fn wipe_disk(&self) -> (r: bool)
        ensures
            r == self.wipes(),
    {
        self.wipe_disk
    }

    /// The ID the next addition will receive.
    pub fn next_partition_id(&self) -> (r: u32)
        ensures
            r == self.next_id(),
    {
        self.next_partition_id
    }

    /// Hands out the next partition ID and advances the counter.
    pub fn allocate_partition_id(&mut self) -> (r: u32)
        requires
            old(self).wf(),
            old(self).next_id() < u32::MAX,
        ensures
            final(self).wf(),
            r == old(self).next_id(),
            final(self).next_id() == old(self).next_id() + 1,
            old(self).same_disk(*final(self)),
            final(self).pending() == old(self).pending(),
    {
        let id = self.next_partition_id;
        self.next_partition_id = self.next_partition_id + 1;
        proof {
            assert forall|k: int| 0 <= k < self.pending().len() implies #[trigger] self.change_ok(k) by {
                assert(old(self).change_ok(k));
            }
        }
        id
    }

    /// The ID of the original partition at `index`, if there is one.
    pub fn get_original_partition_id(&self, index: usize) -> (r: Option<u32>)
        ensures
            r == (if index < self.original_ids().len() {
                Some(self.original_ids()[index as int])
            } else {
                None
            }),
    {
        if index < self.original_partition_ids.len() {
            Some(self.original_partition_ids[index])
        } else {
            None
        }
    }
}

/// With no pending changes the layout is the original regions.
pub proof fn lemma_reset_layout(original: Seq<Region>)
    ensures
        layout_of(original, Seq::<Change>::empty()) == original,
{
    let cs = Seq::<Change>::empty();
    lemma_kept_indices(cs, original.len());
    lemma_layout_parts(original, cs);
    assert(add_positions(cs).len() == 0);
    assert forall|i: int| 0 <= i < original.len() implies kept_indices(cs, original.len())[i] == i by {
        lemma_kept_indices_all(original.len());
    }
    assert(layout_of(original, cs) =~= original);
}

proof fn lemma_kept_indices_all(n: nat)
    ensures
        kept_indices(Seq::<Change>::empty(), n) == Seq::new(n, |i: int| i),
    decreases n,
{
    if n > 0 {
        lemma_kept_indices_all((n - 1) as nat);
        assert(kept_indices(Seq::<Change>::empty(), n) =~= Seq::new(n, |i: int| i));
    }
}

/// The kept indices are increasing, lie below `n`, are not deleted, and include
/// every index below `n` that is not deleted.
pub proof fn lemma_kept_indices(cs: Seq<Change>, n: nat)
    ensures
        kept_indices(cs, n).len() <= n,
        forall|a: int|
            0 <= a < kept_indices(cs, n).len() ==> 0 <= #[trigger] kept_indices(cs, n)[a] < n
                && !deleted_in(cs, kept_indices(cs, n)[a]),
        forall|a: int, b: int|
            0 <= a < b < kept_indices(cs, n).len() ==> #[trigger] kept_indices(cs, n)[a]
                < #[trigger] kept_indices(cs, n)[b],
        forall|i: int|
            0 <= i < n && !deleted_in(cs, i) ==> exists|a: int|
                0 <= a < kept_indices(cs, n).len() && #[trigger] kept_indices(cs, n)[a] == i,
    decreases n,
{
    if n > 0 {
        lemma_kept_indices(cs, (n - 1) as nat);
        let prev = kept_indices(cs, (n - 1) as nat);
        let cur = kept_indices(cs, n);
        assert forall|i: int| 0 <= i < n && !deleted_in(cs, i) implies exists|a: int|
            0 <= a < cur.len() && #[trigger] cur[a] == i by {
            if i < n - 1 {
                let a = choose|a: int| 0 <= a < prev.len() && #[trigger] prev[a] == i;
                assert(cur[a] == i);
            } else {
                assert(cur[cur.len() - 1] == i);
            }
        }
    }
}

/// The addition positions are increasing, lie in `cs`, name additions, and
/// include every addition of `cs`.
pub proof fn lemma_add_positions(cs: Seq<Change>)
    ensures
        add_positions(cs).len() <= cs.len(),
        forall|a: int|
            0 <= a < add_positions(cs).len() ==> 0 <= #[trigger] add_positions(cs)[a] < cs.len()
                && cs[add_positions(cs)[a]] is AddPartition,
        forall|a: int, b: int|
            0 <= a < b < add_positions(cs).len() ==> #[trigger] add_positions(cs)[a]
                < #[trigger] add_positions(cs)[b],
        forall|k: int|
            0 <= k < cs.len() && cs[k] is AddPartition ==> exists|a: int|
                0 <= a < add_positions(cs).len() && #[trigger] add_positions(cs)[a] == k,
    decreases cs.len(),
{
    if cs.len() > 0 {
        let d = cs.drop_last();
        lemma_add_positions(d);
        let prev = add_positions(d);
        let cur = add_positions(cs);
        assert forall|k: int| 0 <= k < cs.len() && cs[k] is AddPartition implies exists|a: int|
            0 <= a < cur.len() && #[trigger] cur[a] == k by {
            if k < cs.len() - 1 {
                assert(d[k] == cs[k]);
                let a = choose|a: int| 0 <= a < prev.len() && #[trigger] prev[a] == k;
                assert(cur[a] == k);
            } else {
                assert(cur[cur.len() - 1] == k);
            }
        }
    }
}

/// Every region of the layout comes from an original that is kept or from an addition.
pub proof fn lemma_layout_parts(original: Seq<Region>, cs: Seq<Change>)
    ensures
        layout_of(original, cs).len() == kept_indices(cs, original.len()).len() + add_positions(
            cs,
        ).len(),
        forall|a: int|
            0 <= a < kept_indices(cs, original.len()).len() ==> #[trigger] layout_of(
                original,
                cs,
            )[a] == original[kept_indices(cs, original.len())[a]],
        forall|b: int|
            0 <= b < add_positions(cs).len() ==> #[trigger] layout_of(original, cs)[kept_indices(
                cs,
                original.len(),
            ).len() + b] == cs[add_positions(cs)[b]].added_region(),
{
}

/// An original that no change of `cs` deletes is in the layout; so is every addition of `cs`.
pub proof fn lemma_in_layout(original: Seq<Region>, cs: Seq<Change>)
    ensures
        forall|i: int|
            0 <= i < original.len() && !deleted_in(cs, i) ==> exists|x: int|
                0 <= x < layout_of(original, cs).len() && #[trigger] layout_of(original, cs)[x]
                    == original[i],
        forall|k: int|
            0 <= k < cs.len() && cs[k] is AddPartition ==> exists|x: int|
                0 <= x < layout_of(original, cs).len() && #[trigger] layout_of(original, cs)[x]
                    == cs[k].added_region(),
{
    let lay = layout_of(original, cs);
    let ki = kept_indices(cs, original.len());
    let ap = add_positions(cs);
    lemma_kept_indices(cs, original.len());
    lemma_add_positions(cs);
    lemma_layout_parts(original, cs);
    assert forall|i: int| 0 <= i < original.len() && !deleted_in(cs, i) implies exists|x: int|
        0 <= x < lay.len() && #[trigger] lay[x] == original[i] by {
        let a = choose|a: int| 0 <= a < ki.len() && #[trigger] ki[a] == i;
        assert(lay[a] == original[i]);
    }
    assert forall|k: int| 0 <= k < cs.len() && cs[k] is AddPartition implies exists|x: int|
        0 <= x < lay.len() && #[trigger] lay[x] == cs[k].added_region() by {
        let b = choose|b: int| 0 <= b < ap.len() && #[trigger] ap[b] == k;
        assert(lay[ki.len() + b] == cs[k].added_region());
    }
}

/// A deletion in a prefix of `cs` is a deletion in `cs`.
proof fn lemma_deleted_prefix(cs: Seq<Change>, j: int, i: int)
    requires
        0 <= j <= cs.len(),
        deleted_in(cs.take(j), i),
    ensures
        deleted_in(cs, i),
{
    let k = choose|k: int| 0 <= k < cs.take(j).len() && #[trigger] cs.take(j)[k].deletes_index(i);
    assert(cs[k].deletes_index(i));
}

/// Both ends of `r` are aligned and `r` lies inside `[lo, hi]`.
pub open spec fn aligned_within(r: Region, lo: int, hi: int) -> bool {
    &&& aligned_to(r.start as int, PARTITION_ALIGNMENT as int)
    &&& aligned_to(r.end as int, PARTITION_ALIGNMENT as int)
    &&& lo <= r.start
    &&& r.end <= hi
}

/// Every region of the current layout has aligned ends and lies inside the
/// usable window, provided the window's ends are aligned and so were the
/// partitions the device held.
pub proof fn lemma_layout_within_window(p: Planner)
    requires
        p.wf(),
        aligned_to(p.start_offset() as int, PARTITION_ALIGNMENT as int),
        aligned_to(p.end_offset() as int, PARTITION_ALIGNMENT as int),
        forall|i: int|
            0 <= i < p.original().len() ==> aligned_within(
                #[trigger] p.original()[i],
                p.start_offset() as int,
                p.end_offset() as int,
            ),
    ensures
        forall|x: int|
            0 <= x < p.current().len() ==> aligned_within(
                #[trigger] p.current()[x],
                p.start_offset() as int,
                p.end_offset() as int,
            ),
{
    let cs = p.pending();
    let ki = kept_indices(cs, p.original().len());
    let ap = add_positions(cs);
    lemma_kept_indices(cs, p.original().len());
    lemma_add_positions(cs);
    lemma_layout_parts(p.original(), cs);
    assert forall|x: int| 0 <= x < p.current().len() implies aligned_within(
        #[trigger] p.current()[x],
        p.start_offset() as int,
        p.end_offset() as int,
    ) by {
        if x >= ki.len() {
            let b = x - ki.len();
            assert(p.change_ok(ap[b]));
        }
    }
}

/// No two regions of the current layout overlap, provided no two of the
/// partitions the device held overlap.
pub proof fn lemma_layout_disjoint(p: Planner)
    requires
        p.wf(),
        pairwise_disjoint(p.original()),
    ensures
        pairwise_disjoint(p.current()),
{
    let orig = p.original();
    let cs = p.pending();
    let lay = p.current();
    let ki = kept_indices(cs, orig.len());
    let ap = add_positions(cs);
    lemma_kept_indices(cs, orig.len());
    lemma_add_positions(cs);
    lemma_layout_parts(orig, cs);
    assert forall|x: int, y: int|
        0 <= x < lay.len() && 0 <= y < lay.len() && x != y implies !(#[trigger] lay[x]).overlaps(
        #[trigger] lay[y],
    ) by {
        if x < ki.len() && y < ki.len() {
            assert(ki[x] != ki[y]) by {
                if x < y {
                    assert(ki[x] < ki[y]);
                } else {
                    assert(ki[y] < ki[x]);
                }
            }
        } else if x < ki.len() {
            lemma_kept_against_add(p, ki[x], ap[y - ki.len()]);
        } else if y < ki.len() {
            lemma_kept_against_add(p, ki[y], ap[x - ki.len()]);
        } else {
            let kx = ap[x - ki.len()];
            let ky = ap[y - ki.len()];
            if x < y {
                assert(kx < ky);
                lemma_add_against_add(p, kx, ky);
            } else {
                assert(ky < kx);
                lemma_add_against_add(p, ky, kx);
            }
        }
    }
}

proof fn lemma_kept_against_add(p: Planner, i: int, k: int)
    requires
        p.wf(),
        0 <= i < p.original().len(),
        !deleted_in(p.pending(), i),
        0 <= k < p.pending().len(),
        p.pending()[k] is AddPartition,
    ensures
        !p.original()[i].overlaps(p.pending()[k].added_region()),
        !p.pending()[k].added_region().overlaps(p.original()[i]),
{
    let cs = p.pending();
    let pre = cs.take(k);
    assert(p.change_ok(k));
    if deleted_in(pre, i) {
        lemma_deleted_prefix(cs, k, i);
    }
    lemma_in_layout(p.original(), pre);
    let x = choose|x: int|
        0 <= x < layout_of(p.original(), pre).len() && #[trigger] layout_of(p.original(), pre)[x]
            == p.original()[i];
    assert(!cs[k].added_region().overlaps(layout_of(p.original(), pre)[x]));
}

proof fn lemma_add_against_add(p: Planner, j: int, k: int)
    requires
        p.wf(),
        0 <= j < k < p.pending().len(),
        p.pending()[j] is AddPartition,
        p.pending()[k] is AddPartition,
    ensures
        !p.pending()[j].added_region().overlaps(p.pending()[k].added_region()),
        !p.pending()[k].added_region().overlaps(p.pending()[j].added_region()),
{
    let cs = p.pending();
    let pre = cs.take(k);
    assert(p.change_ok(k));
    assert(pre[j] == cs[j]);
    lemma_in_layout(p.original(), pre);
    let x = choose|x: int|
        0 <= x < layout_of(p.original(), pre).len() && #[trigger] layout_of(p.original(), pre)[x]
            == pre[j].added_region();
    assert(!cs[k].added_region().overlaps(layout_of(p.original(), pre)[x]));
}

/// Every partition ID in the current layout is below the next ID to be handed out.
pub proof fn lemma_ids_below_next(p: Planner)
    requires
        p.wf(),
    ensures
        forall|x: int|
            0 <= x < p.current().len() && (#[trigger] p.current()[x]).partition_id is Some
                ==> p.current()[x].partition_id->0 < p.next_id(),
{
    let cs = p.pending();
    let ki = kept_indices(cs, p.original().len());
    let ap = add_positions(cs);
    lemma_kept_indices(cs, p.original().len());
    lemma_add_positions(cs);
    lemma_layout_parts(p.original(), cs);
    assert forall|x: int|
        0 <= x < p.current().len() && (#[trigger] p.current()[x]).partition_id is Some implies p.current()[x].partition_id->0
        < p.next_id() by {
        if x < ki.len() {
            assert(p.original()[ki[x]].partition_id == Some(p.original_ids()[ki[x]]));
        } else {
            assert(p.change_ok(ap[x - ki.len()]));
        }
    }
}

/// The partition ID a successful addition hands out is above every ID the
/// device held and above every ID in the layout before the call; every
/// addition still queued carries an ID above those of the device and of the
/// additions queued before it.
pub proof fn lemma_added_id_is_fresh(
    before: Planner,
    after: Planner,
    start: u64,
    end: u64,
    attributes: Option<PartitionAttributes>,
)
    requires
        before.wf(),
        after.wf(),
        before.added(after, start, end, attributes),
    ensures
        after.pending().last() is AddPartition,
        after.pending().last()->AddPartition_partition_id == before.next_id(),
        forall|i: int|
            0 <= i < before.original_ids().len() ==> #[trigger] before.original_ids()[i]
                < after.pending().last()->AddPartition_partition_id,
        forall|x: int|
            0 <= x < before.current().len() && (#[trigger] before.current()[x]).partition_id is Some
                ==> before.current()[x].partition_id->0
                < after.pending().last()->AddPartition_partition_id,
        forall|k: int|
            0 <= k < after.pending().len() && (#[trigger] after.pending()[k]) is AddPartition
                ==> {
                &&& forall|i: int|
                    0 <= i < after.original_ids().len() ==> #[trigger] after.original_ids()[i]
                        < after.pending()[k]->AddPartition_partition_id
                &&& forall|j: int|
                    0 <= j < k && (#[trigger] after.pending()[j]) is AddPartition
                        ==> after.pending()[j]->AddPartition_partition_id
                        < after.pending()[k]->AddPartition_partition_id
            },
{
    lemma_ids_below_next(before);
    assert forall|k: int|
        0 <= k < after.pending().len() && (#[trigger] after.pending()[k]) is AddPartition implies {
        &&& forall|i: int|
            0 <= i < after.original_ids().len() ==> #[trigger] after.original_ids()[i]
                < after.pending()[k]->AddPartition_partition_id
        &&& forall|j: int|
            0 <= j < k && (#[trigger] after.pending()[j]) is AddPartition
                ==> after.pending()[j]->AddPartition_partition_id
                < after.pending()[k]->AddPartition_partition_id
    } by {
        assert(after.change_ok(k));
    }
}

/// Undoing `k` changes after `k` successful additions restores the layout
/// exactly, while the partition ID counter stays advanced by `k`.
///
/// `states[0]` is the planner before the additions; `states[i + 1]` follows
/// from `states[i]` by the addition of `[starts[i], ends[i])` for `i < k`, and
/// by a successful undo for `k <= i < 2 * k`.
pub proof fn lemma_undo_after_adds(
    states: Seq<Planner>,
    k: nat,
    starts: Seq<u64>,
    ends: Seq<u64>,
    attrs: Seq<Option<PartitionAttributes>>,
)
    requires
        states.len() == 2 * k + 1,
        starts.len() == k,
        ends.len() == k,
        attrs.len() == k,
        forall|i: int|
            0 <= i < k ==> (#[trigger] states[i]).added(states[i + 1], starts[i], ends[i], attrs[i]),
        forall|i: int| k <= i < 2 * k ==> (#[trigger] states[i]).undone(states[i + 1]),
    ensures
        states[2 * k as int].current() == states[0].current(),
        states[2 * k as int].next_id() == states[0].next_id() + k,
{
    lemma_adds_chain(states, k, starts, ends, attrs, k);
    lemma_undo_mirror(states, k, starts, ends, attrs, k);
}

proof fn lemma_adds_chain(
    states: Seq<Planner>,
    k: nat,
    starts: Seq<u64>,
    ends: Seq<u64>,
    attrs: Seq<Option<PartitionAttributes>>,
    i: nat,
)
    requires
        states.len() == 2 * k + 1,
        starts.len() == k,
        ends.len() == k,
        attrs.len() == k,
        forall|i: int|
            0 <= i < k ==> (#[trigger] states[i]).added(states[i + 1], starts[i], ends[i], attrs[i]),
        i <= k,
    ensures
        states[0].same_disk(states[i as int]),
        states[i as int].next_id() == states[0].next_id() + i,
        states[i as int].pending().len() == states[0].pending().len() + i,
    decreases i,
{
    if i > 0 {
        lemma_adds_chain(states, k, starts, ends, attrs, (i - 1) as nat);
        assert(states[i - 1].added(states[i as int], starts[i - 1], ends[i - 1], attrs[i - 1]));
    }
}

proof fn lemma_undo_mirror(
    states: Seq<Planner>,
    k: nat,
    starts: Seq<u64>,
    ends: Seq<u64>,
    attrs: Seq<Option<PartitionAttributes>>,
    j: nat,
)
    requires
        states.len() == 2 * k + 1,
        starts.len() == k,
        ends.len() == k,
        attrs.len() == k,
        forall|i: int|
            0 <= i < k ==> (#[trigger] states[i]).added(states[i + 1], starts[i], ends[i], attrs[i]),
        forall|i: int| k <= i < 2 * k ==> (#[trigger] states[i]).undone(states[i + 1]),
        j <= k,
    ensures
        states[k + j as int].pending() == states[k - j as int].pending(),
        states[k - j as int].same_disk(states[k + j as int]),
        states[k + j as int].next_id() == states[k as int].next_id(),
    decreases j,
{
    if j > 0 {
        lemma_undo_mirror(states, k, starts, ends, attrs, (j - 1) as nat);
        let a = k + j - 1 as int;
        let b = k - j as int;
        assert(states[a].undone(states[a + 1]));
        assert(states[b].added(states[b + 1], starts[b], ends[b], attrs[b]));
        assert(states[b + 1].pending().drop_last() =~= states[b].pending());
    }
}

/// Over a run of calls that never plans a fresh partition table, the IDs
/// handed out increase strictly: an addition at step `i` receives an ID below
/// the one of any addition at a later step `j`, whatever was undone between.
///
/// `states[k + 1]` follows from `states[k]` by one call; every call but
/// `plan_initialize_disk` keeps or advances the next ID.
pub proof fn lemma_ids_increase(
    states: Seq<Planner>,
    i: int,
    j: int,
    start_i: u64,
    end_i: u64,
    attrs_i: Option<PartitionAttributes>,
    start_j: u64,
    end_j: u64,
    attrs_j: Option<PartitionAttributes>,
)
    requires
        forall|k: int| 0 <= k < states.len() - 1 ==> (#[trigger] states[k]).next_id() <= states[k + 1].next_id(),
        0 <= i < j < states.len() - 1,
        states[i].added(states[i + 1], start_i, end_i, attrs_i),
        states[j].added(states[j + 1], start_j, end_j, attrs_j),
    ensures
        states[i + 1].pending().last()->AddPartition_partition_id < states[j + 1].pending().last()->AddPartition_partition_id,
    decreases j - i,
{
    lemma_next_id_monotone(states, i + 1, j);
}

proof fn lemma_next_id_monotone(states: Seq<Planner>, a: int, b: int)
    requires
        forall|k: int| 0 <= k < states.len() - 1 ==> (#[trigger] states[k]).next_id() <= states[k + 1].next_id(),
        0 <= a <= b < states.len(),
    ensures
        states[a].next_id() <= states[b].next_id(),
    decreases b - a,
{
    if a < b {
        lemma_next_id_monotone(states, a, b - 1);
        assert(states[b - 1].next_id() <= states[b].next_id());
    }
}

} // verus!
