//! Fitting size-constrained partition requests into the free space of a planner.
use vstd::prelude::*;

use crate::align::PARTITION_ALIGNMENT;
use crate::planner::{clear_of, Change, PlanError, Planner};
use crate::region::{PartitionAttributes, Region};

verus! {

/// How a strategy treats the disk before placing its requests.
#[derive(Debug, Clone, Copy, PartialEq, Eq, Structural)]
pub enum AllocationStrategy {
    /// Place each request into the largest free gap of the existing layout.
    LargestFree,
    /// Give the disk a fresh partition table first, then place as `LargestFree` does.
    InitializeWholeDisk,
}

/// The size a partition request asks for, in bytes.
#[derive(Debug, Clone, Copy, PartialEq, Eq, Structural)]
pub enum SizeRequirement {
    Exact(u64),
    AtLeast(u64),
    Range { min: u64, max: u64 },
    /// All of the largest free gap
    Remaining,
}

/// A partition to place, with its size constraint and attributes.
#[derive(Debug, Clone, Copy, PartialEq, Eq, Structural)]
pub struct PartitionRequest {
    pub size: SizeRequirement,
    pub attributes: Option<PartitionAttributes>,
}

/// The size in bytes a request takes from a gap of `gap` bytes, if it fits.
///
/// `Exact(n)` and `AtLeast(n)` take `n` bytes (`AtLeast(0)` takes the whole
/// gap), `Range` takes as much as the gap allows up to `max`, and `Remaining`
/// takes the whole gap. A request never takes zero bytes.
pub open spec fn size_for(req: SizeRequirement, gap: int) -> Option<int> {
    match req {
        SizeRequirement::Exact(n) => if 0 < n <= gap {
            Some(n as int)
        } else {
            None
        },
        SizeRequirement::AtLeast(n) => if 0 < n <= gap {
            Some(n as int)
        } else if n == 0 && gap > 0 {
            Some(gap)
        } else {
            None
        },
        SizeRequirement::Range { min, max } => {
            let take = if max <= gap {
                max as int
            } else {
                gap
            };
            if min <= max && min <= gap && take > 0 {
                Some(take)
            } else {
                None
            }
        },
        SizeRequirement::Remaining => if gap > 0 {
            Some(gap)
        } else {
            None
        },
    }
}

/// The smallest start at or after `c` among the regions of `rs`, or `hi` if smaller.
pub open spec fn next_start(rs: Seq<Region>, c: int, hi: int) -> int
    decreases rs.len(),
{
    if rs.len() == 0 {
        hi
    } else {
        let m = next_start(rs.drop_last(), c, hi);
        let r = rs.last();
        if r.start >= c && r.start < m {
            r.start as int
        } else {
            m
        }
    }
}

/// No region of `rs` covers the byte at `c`.
pub open spec fn free_at(rs: Seq<Region>, c: int) -> bool {
    forall|i: int| 0 <= i < rs.len() ==> !((#[trigger] rs[i]).start <= c < rs[i].end)
}

/// A place where a free gap may begin: the window start or the end of a region.
pub open spec fn gap_candidate(rs: Seq<Region>, lo: int, c: int) -> bool {
    c == lo || exists|i: int| 0 <= i < rs.len() && (#[trigger] rs[i]).end == c
}

/// The size of the free gap that begins at `c`; zero or less where there is none.
pub open spec fn gap_size(rs: Seq<Region>, lo: int, hi: int, c: int) -> int {
    if lo <= c && free_at(rs, c) {
        next_start(rs, c, hi) - c
    } else {
        0
    }
}

proof fn lemma_next_start(rs: Seq<Region>, c: int, hi: int)
    ensures
        next_start(rs, c, hi) <= hi,
        next_start(rs, c, hi) >= c || next_start(rs, c, hi) == hi,
        forall|i: int|
            0 <= i < rs.len() && (#[trigger] rs[i]).start >= c ==> next_start(rs, c, hi)
                <= rs[i].start,
    decreases rs.len(),
{
    if rs.len() > 0 {
        lemma_next_start(rs.drop_last(), c, hi);
        assert forall|i: int| 0 <= i < rs.len() && (#[trigger] rs[i]).start >= c implies next_start(rs, c, hi)
            <= rs[i].start by {
            if i < rs.len() - 1 {
                assert(rs.drop_last()[i] == rs[i]);
            }
        }
    }
}

/// The free gap that begins at a free point `c` overlaps no region.
proof fn lemma_gap_is_clear(rs: Seq<Region>, c: int, hi: int)
    requires
        free_at(rs, c),
        0 <= c,
        c < next_start(rs, c, hi),
        next_start(rs, c, hi) <= u64::MAX,
    ensures
        clear_of(
            rs,
            Region { start: c as u64, end: next_start(rs, c, hi) as u64, partition_id: None, attributes: None },
        ),
{
    lemma_next_start(rs, c, hi);
    let g = Region { start: c as u64, end: next_start(rs, c, hi) as u64, partition_id: None, attributes: None };
    assert forall|i: int| 0 <= i < rs.len() implies !g.overlaps(#[trigger] rs[i]) by {
        if rs[i].start >= c {
        } else {
            assert(!(rs[i].start <= c < rs[i].end));
        }
    }
}

fn next_start_exec(rs: &Vec<Region>, c: u64, hi: u64) -> (r: u64)
    ensures
        r == next_start(rs@, c as int, hi as int),
{
    let mut m: u64 = hi;
    let mut i: usize = 0;
    while i < rs.len()
        invariant
            0 <= i <= rs@.len(),
            m == next_start(rs@.take(i as int), c as int, hi as int),
        decreases rs@.len() - i,
    {
        proof {
            assert(rs@.take(i + 1).drop_last() =~= rs@.take(i as int));
        }
        if rs[i].start >= c && rs[i].start < m {
            m = rs[i].start;
        }
        i = i + 1;
    }
    proof {
        assert(rs@.take(rs@.len() as int) =~= rs@);
    }
    m
}

fn free_at_exec(rs: &Vec<Region>, c: u64) -> (r: bool)
    ensures
        r == free_at(rs@, c as int),
{
    let mut i: usize = 0;
    while i < rs.len()
        invariant
            0 <= i <= rs@.len(),
            forall|j: int| 0 <= j < i ==> !((#[trigger] rs@[j]).start <= c < rs@[j].end),
        decreases rs@.len() - i,
    {
        if rs[i].start <= c && c < rs[i].end {
            return false;
        }
        i = i + 1;
    }
    true
}

/// The end of the free gap that begins at `c`, if that gap is not empty.
fn gap_from(rs: &Vec<Region>, lo: u64, hi: u64, c: u64) -> (r: Option<u64>)
    ensures
        r matches Some(e) ==> lo <= c < e <= hi && free_at(rs@, c as int) && e == next_start(
            rs@,
            c as int,
            hi as int,
        ) && gap_size(rs@, lo as int, hi as int, c as int) == e - c,
        r is None ==> gap_size(rs@, lo as int, hi as int, c as int) <= 0,
{
    proof {
        lemma_next_start(rs@, c as int, hi as int);
    }
    if lo <= c && free_at_exec(rs, c) {
        let e = next_start_exec(rs, c, hi);
        if c < e {
            return Some(e);
        }
    }
    None
}

/// The size of the best gap found so far; zero for none.
pub open spec fn best_size(best: Option<(u64, u64)>) -> int {
    match best {
        Some((s, e)) => e - s,
        None => 0,
    }
}

/// The largest free gap of the window `[lo, hi)` around the regions `rs`.
///
/// Free gaps begin at `lo` or at the end of a region, at a byte no region
/// covers, and run to the next region start or to `hi`. Among gaps of equal
/// size the first candidate wins: `lo`, then region ends in order.
pub fn largest_free_gap(rs: &Vec<Region>, lo: u64, hi: u64) -> (r: Option<(u64, u64)>)
    ensures
        r matches Some((s, e)) ==> {
            &&& gap_candidate(rs@, lo as int, s as int)
            &&& lo <= s < e <= hi
            &&& free_at(rs@, s as int)
            &&& e == next_start(rs@, s as int, hi as int)
            &&& clear_of(rs@, Region { start: s, end: e, partition_id: None, attributes: None })
            &&& forall|c: int|
                gap_candidate(rs@, lo as int, c) ==> gap_size(rs@, lo as int, hi as int, c) <= e
                    - s
        },
        r is None ==> forall|c: int|
            gap_candidate(rs@, lo as int, c) ==> gap_size(rs@, lo as int, hi as int, c) <= 0,
{
    let ghost g = rs@;
    let mut best: Option<(u64, u64)> = match gap_from(rs, lo, hi, lo) {
        Some(e) => Some((lo, e)),
        None => None,
    };
    let mut i: usize = 0;
    let n = rs.len();
    while i < n
        invariant
            n == g.len(),
            g == rs@,
            0 <= i <= n,
            best matches Some((s, e)) ==> {
                &&& gap_candidate(g, lo as int, s as int)
                &&& lo <= s < e <= hi
                &&& free_at(g, s as int)
                &&& e == next_start(g, s as int, hi as int)
            },
            gap_size(g, lo as int, hi as int, lo as int) <= best_size(best),
            forall|j: int|
                0 <= j < i ==> gap_size(g, lo as int, hi as int, (#[trigger] g[j]).end as int)
                    <= best_size(best),
        decreases n - i,
    {
        let c = rs[i].end;
        if let Some(e) = gap_from(rs, lo, hi, c) {
            let better = match best {
                Some((s, be)) => e - c > be - s,
                None => true,
            };
            if better {
                proof {
                    assert(g[i as int].end == c);
                }
                best = Some((c, e));
            }
        }
        i = i + 1;
    }
    proof {
        assert forall|c: int| gap_candidate(g, lo as int, c) implies gap_size(
            g,
            lo as int,
            hi as int,
            c,
        ) <= best_size(best) by {
            if c != lo {
                let j = choose|j: int| 0 <= j < g.len() && (#[trigger] g[j]).end == c;
            }
        }
        if let Some((s, e)) = best {
            lemma_gap_is_clear(g, s as int, hi as int);
        }
    }
    best
}

/// The size a request takes from a gap of `gap` bytes, if it fits.
pub fn take_size(req: SizeRequirement, gap: u64) -> (r: Option<u64>)
    ensures
        match r {
            Some(x) => size_for(req, gap as int) == Some(x as int),
            None => size_for(req, gap as int) is None,
        },
{
    match req {
        SizeRequirement::Exact(n) => if 0 < n && n <= gap {
            Some(n)
        } else {
            None
        },
        SizeRequirement::AtLeast(n) => if 0 < n && n <= gap {
            Some(n)
        } else if n == 0 && gap > 0 {
            Some(gap)
        } else {
            None
        },
        SizeRequirement::Range { min, max } => {
            let take = if max <= gap {
                max
            } else {
                gap
            };
            if min <= max && min <= gap && take > 0 {
                Some(take)
            } else {
                None
            }
        },
        SizeRequirement::Remaining => if gap > 0 {
            Some(gap)
        } else {
            None
        },
    }
}

/// `[s, e)` is where `req` goes on `p`: `s` begins a largest free gap of the
/// current layout in the usable window, and `e - s` is what the request takes
/// from that gap.
pub open spec fn placement(p: Planner, req: PartitionRequest, s: u64, e: u64) -> bool {
    let rs = p.current();
    let lo = p.start_offset() as int;
    let hi = p.end_offset() as int;
    &&& gap_candidate(rs, lo, s as int)
    &&& lo <= s
    &&& free_at(rs, s as int)
    &&& size_for(req.size, next_start(rs, s as int, hi) - s) == Some(e - s)
    &&& forall|c: int| gap_candidate(rs, lo, c) ==> gap_size(rs, lo, hi, c) <= next_start(rs, s as int, hi) - s
}

/// `c` is an addition carrying `attributes`.
pub open spec fn is_add_with(c: Change, attributes: Option<PartitionAttributes>) -> bool {
    c matches Change::AddPartition { attributes: a, .. } && a == attributes
}

/// `req` can be placed on `p`: some largest free gap holds it, the planner
/// accepts the region at every such gap, an ID is left to hand out, and the
/// window's end leaves room for rounding.
pub open spec fn request_fits(p: Planner, req: PartitionRequest) -> bool {
    &&& exists|s: u64, e: u64| placement(p, req, s, e)
    &&& forall|s: u64, e: u64| placement(p, req, s, e) ==> p.add_error(s, e) is None
    &&& p.next_id() < u32::MAX
    &&& p.end_offset() + PARTITION_ALIGNMENT / 2 <= u64::MAX
}

/// A queue of partition requests and the way they are to be placed on a disk.
#[derive(Debug, Clone)]
pub struct Strategy {
    allocation: AllocationStrategy,
    requests: Vec<PartitionRequest>,
}

impl Strategy {
    /// How the disk is treated before placing.
    pub closed spec fn kind(self) -> AllocationStrategy {
        self.allocation
    }

    /// The requests, in the order they are placed.
    pub closed spec fn queued(self) -> Seq<PartitionRequest> {
        self.requests@
    }

    /// A strategy with no requests.
    pub fn new(allocation: AllocationStrategy) -> (r: Strategy)
        ensures
            r.kind() == allocation,
            r.queued() == Seq::<PartitionRequest>::empty(),
    {
        Strategy { allocation, requests: Vec::new() }
    }

    /// Appends a request to the queue.
    pub fn add_request(&mut self, request: PartitionRequest)
        ensures
            final(self).kind() == old(self).kind(),
            final(self).queued() == old(self).queued().push(request),
    {
        self.requests.push(request);
    }

    /// How the disk is treated before placing.
    pub fn allocation(&self) -> (r: AllocationStrategy)
        ensures
            r == self.kind(),
    {
        self.allocation
    }

    /// The queued requests.
    pub fn requests(&self) -> (r: &Vec<PartitionRequest>)
        ensures
            r@ == self.queued(),
    {
        &self.requests
    }

    /// Places one request into the largest free gap of `planner`'s current layout.
    ///
    /// Fails with `NoFreeRegions` when the largest gap cannot hold the
    /// request, and with the planner's error when the aligned region is
    /// refused; the planner is then unchanged.
    pub fn apply_request(planner: &mut Planner, request: &PartitionRequest) -> (r: Result<(), PlanError>)
        requires
            old(planner).wf(),
        ensures
            final(planner).wf(),
            r is Ok ==> exists|s: u64, e: u64|
                placement(*old(planner), *request, s, e) && old(planner).added(
                    *final(planner),
                    s,
                    e,
                    request.attributes,
                ),
            r is Err ==> *final(planner) == *old(planner),
            request_fits(*old(planner), *request) ==> r is Ok,
            (forall|s: u64, e: u64| !placement(*old(planner), *request, s, e)) ==> r == Err::<(), PlanError>(
                PlanError::NoFreeRegions,
            ),
    {
        let layout = planner.current_layout();
        let (lo, hi) = planner.offsets();
        let (s, gap_end) = match largest_free_gap(&layout, lo, hi) {
            Some(g) => g,
            None => {
                return Err(PlanError::NoFreeRegions);
            },
        };
        let size = match take_size(request.size, gap_end - s) {
            Some(x) => x,
            None => {
                return Err(PlanError::NoFreeRegions);
            },
        };
        if planner.next_partition_id() == u32::MAX || gap_end > u64::MAX - PARTITION_ALIGNMENT / 2 {
            return Err(PlanError::NoFreeRegions);
        }
        let e = s + size;
        let ghost before = *planner;
        assert(placement(before, *request, s, e));
        planner.plan_add_partition_with_attributes(s, e, request.attributes)
    }

    /// Places every request, in order, on `planner`.
    ///
    /// With `InitializeWholeDisk` the planner is first given a fresh partition
    /// table. The first request that cannot be placed ends the run with its
    /// error; the requests placed before it stay planned.
    pub fn apply(&self, planner: &mut Planner) -> (r: Result<(), PlanError>)
        requires
            old(planner).wf(),
        ensures
            final(planner).wf(),
            final(planner).start_offset() == old(planner).start_offset(),
            final(planner).end_offset() == old(planner).end_offset(),
            self.kind() is InitializeWholeDisk ==> final(planner).original() == Seq::<Region>::empty()
                && final(planner).wipes(),
            self.kind() is LargestFree ==> old(planner).same_disk(*final(planner))
                && final(planner).pending().take(old(planner).pending().len() as int) == old(
                planner,
            ).pending(),
            r is Ok ==> {
                let base = if self.kind() is LargestFree {
                    old(planner).pending().len() as int
                } else {
                    0
                };
                &&& final(planner).pending().len() == base + self.queued().len()
                &&& forall|j: int|
                    0 <= j < self.queued().len() ==> is_add_with(
                        #[trigger] final(planner).pending()[base + j],
                        self.queued()[j].attributes,
                    )
            },
            r is Err ==> {
                let base = if self.kind() is LargestFree {
                    old(planner).pending().len() as int
                } else {
                    0
                };
                exists|k: int|
                    0 <= k < self.queued().len() && final(planner).pending().len() == base + k
                        && !request_fits(*final(planner), self.queued()[k]) && forall|j: int|
                        0 <= j < k ==> is_add_with(
                            #[trigger] final(planner).pending()[base + j],
                            self.queued()[j].attributes,
                        )
            },
    {
        if self.allocation == AllocationStrategy::InitializeWholeDisk {
            let _ = planner.plan_initialize_disk();
        }
        let ghost base = *planner;
        let ghost base_len = base.pending().len() as int;
        proof {
            assert(base.pending().take(base_len) =~= base.pending());
        }
        let mut i: usize = 0;
        while i < self.requests.len()
            invariant
                planner.wf(),
                base.same_disk(*planner),
                self.kind() is LargestFree ==> old(planner).same_disk(base) && base.pending() == old(
                    planner,
                ).pending(),
                self.kind() is InitializeWholeDisk ==> base.original() == Seq::<Region>::empty()
                    && base.wipes() && base_len == 0,
                base.start_offset() == old(planner).start_offset(),
                base.end_offset() == old(planner).end_offset(),
                base_len == base.pending().len(),
                0 <= i <= self.queued().len(),
                planner.pending().len() == base_len + i,
                planner.pending().take(base_len) == base.pending(),
                forall|j: int|
                    0 <= j < i ==> is_add_with(
                        #[trigger] planner.pending()[base_len + j],
                        self.queued()[j].attributes,
                    ),
            decreases self.queued().len() - i,
        {
            let request = self.requests[i];
            let ghost prev = *planner;
            match Self::apply_request(planner, &request) {
                Ok(()) => {},
                Err(e) => {
                    proof {
                        assert(!request_fits(*planner, self.queued()[i as int]));
                    }
                    return Err(e);
                },
            }
            proof {
                let np = planner.pending();
                assert(np.take(base_len) =~= prev.pending().take(base_len));
                assert forall|j: int|
                    0 <= j < i + 1 implies is_add_with(#[trigger] np[base_len + j], self.queued()[j].attributes) by {
                    if j < i {
                        assert(np[base_len + j] == prev.pending()[base_len + j]);
                    }
                }
            }
            i = i + 1;
        }
        Ok(())
    }
}

} // verus!
