//! Human readable descriptions of regions and planned changes.
use vstd::prelude::*;

use crate::planner::{Change, Planner};
use crate::region::Region;
use crate::text::{decimal, push_decimal};

verus! {

/// How far into a disk of `total` bytes the offset `pos` lies, in whole percent.
pub open spec fn percent(pos: int, total: int) -> int {
    if total == 0 {
        0
    } else if pos >= total {
        100
    } else {
        pos * 100 / total
    }
}

/// `n` bytes, as text.
pub open spec fn size_text(n: nat) -> Seq<char> {
    decimal(n) + " bytes"@
}

/// The offset `pos` and its percentage of the disk, as text.
pub open spec fn position_text(pos: nat, total: nat) -> Seq<char> {
    decimal(pos) + " ("@ + decimal(percent(pos as int, total as int) as nat) + "%)"@
}

/// A region's size and bounds, as text.
pub open spec fn region_text(r: Region, disk_size: nat) -> Seq<char> {
    size_text((r.end - r.start) as nat) + " at "@ + position_text(r.start as nat, disk_size)
        + ".."@ + position_text(r.end as nat, disk_size)
}

/// A planned change, as text.
pub open spec fn change_text(c: Change, disk_size: nat) -> Seq<char> {
    match c {
        Change::AddPartition { start, end, partition_id, .. } => "Add new partition #"@ + decimal(
            partition_id as nat,
        ) + ": "@ + size_text((end - start) as nat) + " ("@ + region_text(
            Region { start, end, partition_id: None, attributes: None },
            disk_size,
        ) + " at "@ + position_text(start as nat, disk_size) + ")"@,
        Change::DeletePartition { original_index, partition_id } => "Delete partition #"@
            + decimal(partition_id as nat) + " (index "@ + decimal((original_index + 1) as nat)
            + ")"@,
    }
}

/// One numbered line per change of the first `n` changes of `cs`.
pub open spec fn change_lines(cs: Seq<Change>, disk_size: nat, n: nat) -> Seq<char>
    decreases n,
{
    if n == 0 {
        Seq::<char>::empty()
    } else {
        change_lines(cs, disk_size, (n - 1) as nat) + "  "@ + decimal(n) + ": "@ + change_text(
            cs[n - 1],
            disk_size,
        ) + "\n"@
    }
}

/// The pending changes of a planner, as text.
pub open spec fn changes_text(cs: Seq<Change>, disk_size: nat) -> Seq<char> {
    if cs.len() == 0 {
        "No pending changes"@
    } else {
        "Pending changes:\n"@ + change_lines(cs, disk_size, cs.len())
    }
}

/// The ends of an addition are in order.
pub open spec fn describable(c: Change) -> bool {
    c matches Change::AddPartition { start, end, .. } ==> start <= end
}

fn push_position(s: &mut String, pos: u64, total: u64)
    ensures
        final(s)@ == old(s)@ + position_text(pos as nat, total as nat),
{
    push_decimal(s, pos as u128);
    s.append(" (");
    let pct: u64 = if total == 0 {
        0
    } else if pos >= total {
        100
    } else {
        let p: u128 = (pos as u128) * 100 / (total as u128);
        assert(p <= 100) by (nonlinear_arith)
            requires
                p == (pos as int) * 100 / (total as int),
                pos < total,
                total > 0,
        ;
        p as u64
    };
    push_decimal(s, pct as u128);
    s.append("%)");
    proof {
        assert(final(s)@ =~= old(s)@ + position_text(pos as nat, total as nat));
    }
}

fn push_size(s: &mut String, n: u64)
    ensures
        final(s)@ == old(s)@ + size_text(n as nat),
{
    push_decimal(s, n as u128);
    s.append(" bytes");
    proof {
        assert(final(s)@ =~= old(s)@ + size_text(n as nat));
    }
}

fn push_region(s: &mut String, r: &Region, disk_size: u64)
    requires
        r.start <= r.end,
    ensures
        final(s)@ == old(s)@ + region_text(*r, disk_size as nat),
{
    push_size(s, r.end - r.start);
    s.append(" at ");
    push_position(s, r.start, disk_size);
    s.append("..");
    push_position(s, r.end, disk_size);
    proof {
        assert(final(s)@ =~= old(s)@ + region_text(*r, disk_size as nat));
    }
}

fn push_change(s: &mut String, c: &Change, disk_size: u64)
    requires
        describable(*c),
    ensures
        final(s)@ == old(s)@ + change_text(*c, disk_size as nat),
{
    match *c {
        Change::AddPartition { start, end, partition_id, .. } => {
            s.append("Add new partition #");
            push_decimal(s, partition_id as u128);
            s.append(": ");
            push_size(s, end - start);
            s.append(" (");
            push_region(s, &Region::new(start, end), disk_size);
            s.append(" at ");
            push_position(s, start, disk_size);
            s.append(")");
        },
        Change::DeletePartition { original_index, partition_id } => {
            s.append("Delete partition #");
            push_decimal(s, partition_id as u128);
            s.append(" (index ");
            push_decimal(s, original_index as u128 + 1);
            s.append(")");
        },
    }
    proof {
        assert(final(s)@ =~= old(s)@ + change_text(*c, disk_size as nat));
    }
}

impl Region {
    /// A human readable description of this region on a disk of `disk_size` bytes.
    pub fn describe(&self, disk_size: u64) -> (r: String)
        requires
            self.start <= self.end,
        ensures
            r@ == region_text(*self, disk_size as nat),
    {
        let mut s = String::new();
        push_region(&mut s, self, disk_size);
        proof {
            assert(s@ =~= region_text(*self, disk_size as nat));
        }
        s
    }
}

impl Change {
    /// A human readable description of this change on a disk of `disk_size` bytes.
    pub fn describe(&self, disk_size: u64) -> (r: String)
        requires
            describable(*self),
        ensures
            r@ == change_text(*self, disk_size as nat),
    {
        let mut s = String::new();
        push_change(&mut s, self, disk_size);
        proof {
            assert(s@ =~= change_text(*self, disk_size as nat));
        }
        s
    }
}

impl Planner {
    /// A human readable description of the pending changes, one numbered line
    /// each, with positions relative to the usable size.
    pub fn describe_changes(&self) -> (r: String)
        requires
            self.wf(),
        ensures
            r@ == changes_text(self.pending(), (self.end_offset() - self.start_offset()) as nat),
    {
        let changes = self.changes();
        let n = changes.len();
        if n == 0 {
            return String::from_str("No pending changes");
        }
        let disk_size = self.usable_size();
        let mut s = String::from_str("Pending changes:\n");
        let ghost head = s@;
        let mut i: usize = 0;
        while i < n
            invariant
                n == self.pending().len(),
                changes@ == self.pending(),
                self.wf(),
                disk_size == self.end_offset() - self.start_offset(),
                0 <= i <= n,
                s@ == head + change_lines(self.pending(), disk_size as nat, i as nat),
            decreases n - i,
        {
            proof {
                assert(self.change_ok(i as int));
                assert(self.pending()[i as int] is AddPartition ==> self.pending()[i as int].added_region().start
                    <= self.pending()[i as int].added_region().end);
            }
            s.append("  ");
            push_decimal(&mut s, i as u128 + 1);
            s.append(": ");
            push_change(&mut s, &changes[i], disk_size);
            s.append("\n");
            proof {
                assert(s@ =~= head + change_lines(self.pending(), disk_size as nat, (i + 1) as nat));
            }
            i = i + 1;
        }
        s
    }
}

} // verus!
