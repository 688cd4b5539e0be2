//! Compiling named strategies against a pool of devices into partition plans.
//!
//! Each strategy is a list of commands, optionally inheriting the commands of
//! a parent strategy. Every `FindDisk` command branches over the devices of
//! the pool that satisfy its size constraint and are not bound yet; each leaf
//! of that search becomes one [`Plan`].
use vstd::prelude::*;

use crate::align::PARTITION_ALIGNMENT;
use crate::device::{partition_path_of, BlockDevice};
use crate::planner::Planner;
use crate::region::{Filesystem, PartitionAttributes, PartitionRole, Region};
use crate::strategy::{AllocationStrategy, PartitionRequest, SizeRequirement, Strategy};

verus! {

/// A size constraint on a disk or a partition, in bytes.
#[derive(Debug, Clone, Copy, PartialEq, Eq, Structural)]
pub enum Constraints {
    AtLeast(u64),
    Exact(u64),
    Range { min: u64, max: u64 },
    Any,
}

/// One step of a strategy definition.
#[derive(Debug, Clone)]
pub enum Command {
    /// Bind the symbolic disk `name` to a device that satisfies `constraints`.
    FindDisk { name: String, constraints: Option<Constraints> },
    /// Give the disk bound to `disk` a fresh partition table.
    CreatePartitionTable { disk: String },
    /// Request a partition on the disk bound to `disk`.
    CreatePartition { disk: String, constraints: Constraints, attributes: PartitionAttributes },
}

/// A named list of commands, optionally extending a parent strategy.
#[derive(Debug, Clone)]
pub struct StrategyDefinition {
    pub name: String,
    pub inherits: Option<String>,
    pub commands: Vec<Command>,
}

/// The index of the first definition in `cfgs` named `name`.
pub open spec fn find_name(cfgs: Seq<StrategyDefinition>, name: Seq<char>) -> Option<int>
    decreases cfgs.len(),
{
    if cfgs.len() == 0 {
        None
    } else {
        match find_name(cfgs.drop_last(), name) {
            Some(i) => Some(i),
            None => if cfgs.last().name@ == name {
                Some(cfgs.len() - 1)
            } else {
                None
            },
        }
    }
}

/// The index of the parent of definition `i`, if it names one that exists.
pub open spec fn parent_of(cfgs: Seq<StrategyDefinition>, i: int) -> Option<int> {
    match cfgs[i].inherits {
        Some(p) => find_name(cfgs, p@),
        None => None,
    }
}

/// The inheritance chain of definition `i`, root ancestor first and `i` last,
/// following parents that exist for at most `fuel` definitions; `None` where
/// the chain is longer than that.
pub open spec fn chain_up(cfgs: Seq<StrategyDefinition>, i: int, fuel: nat) -> Option<Seq<int>>
    decreases fuel,
{
    if fuel == 0 {
        None
    } else {
        match parent_of(cfgs, i) {
            None => Some(seq![i]),
            Some(p) => match chain_up(cfgs, p, (fuel - 1) as nat) {
                Some(c) => Some(c.push(i)),
                None => None,
            },
        }
    }
}

/// The inheritance chain of definition `i`; `None` where the parent links run
/// in a cycle, so that the chain would be longer than the number of definitions.
pub open spec fn inheritance(cfgs: Seq<StrategyDefinition>, i: int) -> Option<Seq<int>> {
    chain_up(cfgs, i, cfgs.len() + 1)
}

/// No two definitions share a name.
pub open spec fn names_unique(cfgs: Seq<StrategyDefinition>) -> bool {
    forall|i: int, j: int|
        0 <= i < cfgs.len() && 0 <= j < cfgs.len() && i != j ==> (#[trigger] cfgs[i]).name@
            != (#[trigger] cfgs[j]).name@
}

proof fn lemma_find_name(cfgs: Seq<StrategyDefinition>, name: Seq<char>)
    ensures
        find_name(cfgs, name) matches Some(i) ==> 0 <= i < cfgs.len() && cfgs[i].name@ == name,
        find_name(cfgs, name) is None ==> forall|i: int|
            0 <= i < cfgs.len() ==> (#[trigger] cfgs[i]).name@ != name,
    decreases cfgs.len(),
{
    if cfgs.len() > 0 {
        lemma_find_name(cfgs.drop_last(), name);
        assert forall|i: int| 0 <= i < cfgs.len() - 1 implies cfgs.drop_last()[i] == cfgs[i] by {}
    }
}

/// The commands of the definitions of `chain`, in chain order.
pub open spec fn chain_commands(cfgs: Seq<StrategyDefinition>, chain: Seq<int>) -> Seq<Command>
    decreases chain.len(),
{
    if chain.len() == 0 {
        Seq::<Command>::empty()
    } else {
        chain_commands(cfgs, chain.drop_last()) + cfgs[chain.last()].commands@
    }
}

/// The symbolic disk a command names.
pub open spec fn disk_of(c: Command) -> Seq<char> {
    match c {
        Command::FindDisk { name, .. } => name@,
        Command::CreatePartitionTable { disk } => disk@,
        Command::CreatePartition { disk, .. } => disk@,
    }
}

/// A device of `size` bytes satisfies the constraint.
pub open spec fn fits(size: u64, c: Option<Constraints>) -> bool {
    match c {
        Some(Constraints::AtLeast(n)) => size >= n,
        Some(Constraints::Exact(n)) => size == n,
        Some(Constraints::Range { min, max }) => min <= size && size <= max,
        _ => true,
    }
}

/// The disk `name` is bound by one of `binds`, each a pair of the position of
/// its `FindDisk` command and the index of its device in the pool.
pub open spec fn is_bound(cmds: Seq<Command>, binds: Seq<(int, int)>, name: Seq<char>) -> bool {
    exists|b: int| 0 <= b < binds.len() && disk_of(cmds[(#[trigger] binds[b]).0]) == name
}

/// Device `d` is bound by one of `binds`.
pub open spec fn is_taken(binds: Seq<(int, int)>, d: int) -> bool {
    exists|b: int| 0 <= b < binds.len() && (#[trigger] binds[b]).1 == d
}

/// The bindings of every leaf of the search that starts at command `pos`
/// with the bindings `binds`, in the order the search reaches them.
pub open spec fn leaves(cmds: Seq<Command>, sizes: Seq<u64>, pos: nat, binds: Seq<(int, int)>) -> Seq<
    Seq<(int, int)>,
>
    decreases cmds.len() - pos, sizes.len() + 1,
{
    if pos >= cmds.len() {
        seq![binds]
    } else {
        match cmds[pos as int] {
            Command::FindDisk { name, constraints } => if is_bound(cmds, binds, name@) {
                leaves(cmds, sizes, pos + 1, binds)
            } else {
                branches(cmds, sizes, pos, binds, 0)
            },
            _ => leaves(cmds, sizes, pos + 1, binds),
        }
    }
}

/// The leaves below the `FindDisk` command at `pos` for the devices from `d` on.
pub open spec fn branches(
    cmds: Seq<Command>,
    sizes: Seq<u64>,
    pos: nat,
    binds: Seq<(int, int)>,
    d: nat,
) -> Seq<Seq<(int, int)>>
    decreases cmds.len() - pos, sizes.len() - d,
{
    if pos >= cmds.len() || d >= sizes.len() {
        Seq::<Seq<(int, int)>>::empty()
    } else {
        let here = match cmds[pos as int] {
            Command::FindDisk { constraints, .. } => if fits(sizes[d as int], constraints)
                && !is_taken(binds, d as int) {
                leaves(cmds, sizes, pos + 1, binds.push((pos as int, d as int)))
            } else {
                Seq::<Seq<(int, int)>>::empty()
            },
            _ => Seq::<Seq<(int, int)>>::empty(),
        };
        here + branches(cmds, sizes, pos, binds, d + 1)
    }
}

/// The request a `CreatePartition` command makes.
pub open spec fn request_of(c: Constraints, attributes: PartitionAttributes) -> PartitionRequest {
    PartitionRequest {
        size: match c {
            Constraints::AtLeast(n) => SizeRequirement::AtLeast(n),
            Constraints::Exact(n) => SizeRequirement::Exact(n),
            Constraints::Range { min, max } => SizeRequirement::Range { min, max },
            Constraints::Any => SizeRequirement::Remaining,
        },
        attributes: Some(attributes),
    }
}

/// The strategy of the disk `name` bound at command `pos`, after the commands
/// before position `n`: a partition table command starts it afresh, a
/// partition command adds a request.
pub open spec fn disk_strategy(cmds: Seq<Command>, name: Seq<char>, pos: int, n: int) -> (
    AllocationStrategy,
    Seq<PartitionRequest>,
)
    decreases n - pos,
{
    if n <= pos + 1 {
        (AllocationStrategy::LargestFree, Seq::<PartitionRequest>::empty())
    } else {
        let prev = disk_strategy(cmds, name, pos, n - 1);
        match cmds[n - 1] {
            Command::CreatePartitionTable { disk } => if disk@ == name {
                (AllocationStrategy::InitializeWholeDisk, Seq::<PartitionRequest>::empty())
            } else {
                prev
            },
            Command::CreatePartition { disk, constraints, attributes } => if disk@ == name {
                (prev.0, prev.1.push(request_of(constraints, attributes)))
            } else {
                prev
            },
            _ => prev,
        }
    }
}

/// The usable window of a device of `size` bytes: 1 MiB is kept free at each
/// end for the partition table; a device too small for that has none.
pub open spec fn usable_window(size: u64) -> (u64, u64) {
    if size >= 2 * PARTITION_ALIGNMENT {
        (PARTITION_ALIGNMENT, (size - PARTITION_ALIGNMENT) as u64)
    } else {
        (0, 0)
    }
}

/// The role bindings that the regions of `rs` on the device at `dev_path` make, in order.
pub open spec fn layout_roles(dev_path: Seq<char>, rs: Seq<Region>) -> Seq<(PartitionRole, Seq<char>)>
    decreases rs.len(),
{
    if rs.len() == 0 {
        Seq::<(PartitionRole, Seq<char>)>::empty()
    } else {
        let prev = layout_roles(dev_path, rs.drop_last());
        let r = rs.last();
        match (r.partition_id, r.attributes) {
            (Some(id), Some(a)) => match a.role {
                Some(role) => prev.push((role, partition_path_of(dev_path, id as nat))),
                None => prev,
            },
            _ => prev,
        }
    }
}

/// The filesystem bindings that the regions of `rs` on the device at `dev_path` make, in order.
pub open spec fn layout_filesystems(dev_path: Seq<char>, rs: Seq<Region>) -> Seq<(Seq<char>, Filesystem)>
    decreases rs.len(),
{
    if rs.len() == 0 {
        Seq::<(Seq<char>, Filesystem)>::empty()
    } else {
        let prev = layout_filesystems(dev_path, rs.drop_last());
        let r = rs.last();
        match (r.partition_id, r.attributes) {
            (Some(id), Some(a)) => match a.filesystem {
                Some(fs) => prev.push((partition_path_of(dev_path, id as nat), fs)),
                None => prev,
            },
            _ => prev,
        }
    }
}

/// The map that results from inserting the pairs of `e` in order; a later pair wins.
pub open spec fn entries_map<K, V>(e: Seq<(K, V)>) -> Map<K, V>
    decreases e.len(),
{
    if e.len() == 0 {
        Map::<K, V>::empty()
    } else {
        entries_map(e.drop_last()).insert(e.last().0, e.last().1)
    }
}

/// The list of role bindings `v` holds each role once and holds exactly the map `m`.
pub open spec fn roles_hold(v: Seq<(PartitionRole, String)>, m: Map<PartitionRole, Seq<char>>) -> bool {
    &&& forall|i: int, j: int|
        0 <= i < v.len() && 0 <= j < v.len() && i != j ==> (#[trigger] v[i]).0 != (#[trigger] v[j]).0
    &&& forall|i: int| 0 <= i < v.len() ==> m.contains_key((#[trigger] v[i]).0) && m[v[i].0] == v[i].1@
    &&& forall|k: PartitionRole| m.contains_key(k) ==> exists|i: int| 0 <= i < v.len() && (#[trigger] v[i]).0 == k
}

/// The list of filesystem bindings `v` holds each path once and holds exactly the map `m`.
pub open spec fn filesystems_hold(v: Seq<(String, Filesystem)>, m: Map<Seq<char>, Filesystem>) -> bool {
    &&& forall|i: int, j: int|
        0 <= i < v.len() && 0 <= j < v.len() && i != j ==> (#[trigger] v[i]).0@ != (#[trigger] v[j]).0@
    &&& forall|i: int| 0 <= i < v.len() ==> m.contains_key((#[trigger] v[i]).0@) && m[v[i].0@] == v[i].1
    &&& forall|k: Seq<char>| m.contains_key(k) ==> exists|i: int| 0 <= i < v.len() && (#[trigger] v[i]).0@ == k
}

/// The planned partitions of one disk of a plan.
#[derive(Debug, Clone)]
pub struct DevicePlan {
    /// Index of the device in the provisioner's pool
    pub device: usize,
    pub planner: Planner,
    pub strategy: Strategy,
}

/// A symbolic disk name and the device plan bound to it.
#[derive(Debug, Clone)]
pub struct DiskAssignment {
    pub name: String,
    pub device_plan: DevicePlan,
}

/// A compiled plan: one device per symbolic disk, with the partitions planned
/// on each, where each role is mounted and how each partition is formatted.
#[derive(Debug, Clone)]
pub struct Plan {
    /// Name of the strategy the plan was compiled from
    pub strategy: String,
    pub device_assignments: Vec<DiskAssignment>,
    /// Global mount points, one per role
    pub role_mounts: Vec<(PartitionRole, String)>,
    /// Filesystems to be formatted, one per partition path
    pub filesystems: Vec<(String, Filesystem)>,
}

/// The role bindings the planned layouts of `assigns` make, disk by disk.
pub open spec fn plan_roles(pool: Seq<BlockDevice>, assigns: Seq<DiskAssignment>) -> Seq<(PartitionRole, Seq<char>)>
    decreases assigns.len(),
{
    if assigns.len() == 0 {
        Seq::<(PartitionRole, Seq<char>)>::empty()
    } else {
        let a = assigns.last();
        plan_roles(pool, assigns.drop_last()) + layout_roles(
            pool[a.device_plan.device as int].path@,
            a.device_plan.planner.current(),
        )
    }
}

/// The filesystem bindings the planned layouts of `assigns` make, disk by disk.
pub open spec fn plan_filesystems(pool: Seq<BlockDevice>, assigns: Seq<DiskAssignment>) -> Seq<(Seq<char>, Filesystem)>
    decreases assigns.len(),
{
    if assigns.len() == 0 {
        Seq::<(Seq<char>, Filesystem)>::empty()
    } else {
        let a = assigns.last();
        plan_filesystems(pool, assigns.drop_last()) + layout_filesystems(
            pool[a.device_plan.device as int].path@,
            a.device_plan.planner.current(),
        )
    }
}

/// Assignment `a` is the disk bound by `bind` in the commands `cmds`: the
/// device is the bound one, the strategy is what the later commands build
/// for the disk, and the planner holds the device's usable window with that
/// strategy applied.
pub open spec fn assignment_ok(pool: Seq<BlockDevice>, cmds: Seq<Command>, a: DiskAssignment, bind: (int, int)) -> bool {
    let dev = pool[bind.1];
    let st = disk_strategy(cmds, disk_of(cmds[bind.0]), bind.0, cmds.len() as int);
    &&& a.name@ == disk_of(cmds[bind.0])
    &&& a.device_plan.device == bind.1
    &&& a.device_plan.strategy.kind() == st.0
    &&& a.device_plan.strategy.queued() == st.1
    &&& a.device_plan.planner.wf()
    &&& a.device_plan.planner.start_offset() == usable_window(dev.size).0
    &&& a.device_plan.planner.end_offset() == usable_window(dev.size).1
    &&& st.0 is InitializeWholeDisk ==> a.device_plan.planner.original() == Seq::<Region>::empty()
    &&& st.0 is LargestFree ==> a.device_plan.planner.original() == dev.partitions@.map_values(
        |p: crate::device::Partition| Region { start: p.start, end: p.end, partition_id: Some(p.number), attributes: None },
    )
}

/// `plan` is the plan compiled for the leaf `binds` of the search over the
/// commands `cmds` of the strategy named `name`.
pub open spec fn plan_ok(pool: Seq<BlockDevice>, cmds: Seq<Command>, name: Seq<char>, plan: Plan, binds: Seq<(int, int)>) -> bool {
    &&& plan.strategy@ == name
    &&& plan.device_assignments@.len() == binds.len()
    &&& forall|b: int| 0 <= b < binds.len() ==> assignment_ok(pool, cmds, #[trigger] plan.device_assignments@[b], binds[b])
    &&& roles_hold(plan.role_mounts@, entries_map(plan_roles(pool, plan.device_assignments@)))
    &&& filesystems_hold(plan.filesystems@, entries_map(plan_filesystems(pool, plan.device_assignments@)))
}

/// The leaves of the search of strategy `i`; none where its inheritance runs in a cycle.
pub open spec fn strategy_leaves(cfgs: Seq<StrategyDefinition>, sizes: Seq<u64>, i: int) -> Seq<Seq<(int, int)>> {
    match inheritance(cfgs, i) {
        Some(c) => leaves(chain_commands(cfgs, c), sizes, 0, Seq::<(int, int)>::empty()),
        None => Seq::<Seq<(int, int)>>::empty(),
    }
}

/// The leaves of every strategy among the first `n` definitions, each with the
/// index of its strategy, in definition order.
pub open spec fn all_leaves(cfgs: Seq<StrategyDefinition>, sizes: Seq<u64>, n: nat) -> Seq<(int, Seq<(int, int)>)>
    decreases n,
{
    if n == 0 {
        Seq::<(int, Seq<(int, int)>)>::empty()
    } else {
        let i = n - 1;
        all_leaves(cfgs, sizes, (n - 1) as nat) + strategy_leaves(cfgs, sizes, i).map_values(
            |l: Seq<(int, int)>| (i, l),
        )
    }
}

/// The pool of devices and the strategy definitions to plan with.
pub struct Provisioner {
    /// Pool of devices, in the order they were added
    devices: Vec<BlockDevice>,
    /// Strategy definitions, in the order they were first added; names are unique
    configs: Vec<StrategyDefinition>,
}

impl Default for Provisioner {
    fn default() -> (r: Provisioner)
        ensures
            r.wf(),
            r.pool() == Seq::<BlockDevice>::empty(),
            r.definitions() == Seq::<StrategyDefinition>::empty(),
    {
        Provisioner::new()
    }
}

impl Provisioner {
    /// The devices of the pool.
    pub closed spec fn pool(self) -> Seq<BlockDevice> {
        self.devices@
    }

    /// The strategy definitions.
    pub closed spec fn definitions(self) -> Seq<StrategyDefinition> {
        self.configs@
    }

    /// Names are unique and every partition number of the pool leaves room for one more.
    pub open spec fn wf(self) -> bool {
        &&& names_unique(self.definitions())
        &&& forall|d: int, i: int|
            0 <= d < self.pool().len() && 0 <= i < self.pool()[d].partitions@.len()
                ==> (#[trigger] self.pool()[d].partitions@[i]).number < u32::MAX
    }

    /// A provisioner with no devices and no strategies.
    pub fn new() -> (r: Provisioner)
        ensures
            r.wf(),
            r.pool() == Seq::<BlockDevice>::empty(),
            r.definitions() == Seq::<StrategyDefinition>::empty(),
    {
        Provisioner { devices: Vec::new(), configs: Vec::new() }
    }

    /// Adds a strategy definition; one with the same name is replaced in place.
    pub fn add_strategy(&mut self, config: StrategyDefinition)
        requires
            old(self).wf(),
        ensures
            final(self).wf(),
            final(self).pool() == old(self).pool(),
            final(self).definitions() == (match find_name(old(self).definitions(), config.name@) {
                Some(i) => old(self).definitions().update(i, config),
                None => old(self).definitions().push(config),
            }),
    {
        let ghost cfgs = self.configs@;
        proof {
            lemma_find_name(cfgs, config.name@);
        }
        let n = self.configs.len();
        let mut i: usize = 0;
        while i < n
            invariant
                n == cfgs.len(),
                cfgs == self.configs@,
                *self == *old(self),
                self.wf(),
                0 <= i <= n,
                forall|j: int| 0 <= j < i ==> (#[trigger] cfgs[j]).name@ != config.name@,
            decreases n - i,
        {
            if self.configs[i].name == config.name {
                proof {
                    lemma_find_name_first(cfgs, config.name@, i as int);
                }
                self.configs.set(i, config);
                proof {
                    lemma_unique_after_set(cfgs, i as int, config);
                    assert(self.pool() =~= old(self).pool());
                }
                return;
            }
            i = i + 1;
        }
        self.configs.push(config);
        proof {
            assert(self.pool() =~= old(self).pool());
            let c = self.configs@;
            assert forall|a: int, b: int|
                0 <= a < c.len() && 0 <= b < c.len() && a != b implies (#[trigger] c[a]).name@
                != (#[trigger] c[b]).name@ by {
                if a < cfgs.len() && b < cfgs.len() {
                    assert(c[a] == cfgs[a] && c[b] == cfgs[b]);
                } else if a < cfgs.len() {
                    assert(c[a] == cfgs[a]);
                } else {
                    assert(c[b] == cfgs[b]);
                }
            }
        }
    }

    /// Adds a device to the pool.
    pub fn push_device(&mut self, device: BlockDevice)
        requires
            old(self).wf(),
            forall|i: int|
                0 <= i < device.partitions@.len() ==> (#[trigger] device.partitions@[i]).number
                    < u32::MAX,
        ensures
            final(self).wf(),
            final(self).pool() == old(self).pool().push(device),
            final(self).definitions() == old(self).definitions(),
    {
        self.devices.push(device);
        proof {
            let p = self.pool();
            assert forall|d: int, i: int|
                0 <= d < p.len() && 0 <= i < p[d].partitions@.len() implies (#[trigger] p[d].partitions@[i]).number
                < u32::MAX by {
                if d < p.len() - 1 {
                    assert(p[d] == old(self).pool()[d]);
                }
            }
        }
    }

    /// The devices of the pool.
    pub fn devices(&self) -> (r: &Vec<BlockDevice>)
        ensures
            r@ == self.pool(),
    {
        &self.devices
    }

    /// The strategy definitions.
    pub fn strategies(&self) -> (r: &Vec<StrategyDefinition>)
        ensures
            r@ == self.definitions(),
    {
        &self.configs
    }

    fn find_strategy(&self, name: &String) -> (r: Option<usize>)
        ensures
            match r {
                Some(i) => find_name(self.definitions(), name@) == Some(i as int),
                None => find_name(self.definitions(), name@) is None,
            },
    {
        let ghost cfgs = self.configs@;
        proof {
            lemma_find_name(cfgs, name@);
        }
        let n = self.configs.len();
        let mut i: usize = 0;
        while i < n
            invariant
                n == cfgs.len(),
                cfgs == self.configs@,
                0 <= i <= n,
                forall|j: int| 0 <= j < i ==> (#[trigger] cfgs[j]).name@ != name@,
            decreases n - i,
        {
            if self.configs[i].name == *name {
                proof {
                    lemma_find_name_first(cfgs, name@, i as int);
                }
                return Some(i);
            }
            i = i + 1;
        }
        None
    }

    /// The inheritance chain of definition `index` within `fuel` definitions.
    fn chain_from(&self, index: usize, fuel: u128) -> (r: Option<Vec<usize>>)
        requires
            index < self.definitions().len(),
        ensures
            match r {
                Some(c) => chain_up(self.definitions(), index as int, fuel as nat) == Some(
                    c@.map_values(|x: usize| x as int),
                ) && forall|j: int| 0 <= j < c@.len() ==> #[trigger] c@[j] < self.definitions().len(),
                None => chain_up(self.definitions(), index as int, fuel as nat) is None,
            },
        decreases fuel,
    {
        if fuel == 0 {
            return None;
        }
        let parent = match &self.configs[index].inherits {
            Some(p) => self.find_strategy(p),
            None => None,
        };
        proof {
            if let Some(p) = self.definitions()[index as int].inherits {
                lemma_find_name(self.definitions(), p@);
            }
        }
        match parent {
            None => {
                let mut c: Vec<usize> = Vec::new();
                c.push(index);
                proof {
                    assert(c@.map_values(|x: usize| x as int) =~= seq![index as int]);
                }
                Some(c)
            },
            Some(p) => match self.chain_from(p, fuel - 1) {
                Some(mut c) => {
                    let ghost before = c@;
                    c.push(index);
                    proof {
                        assert(c@.map_values(|x: usize| x as int) =~= before.map_values(
                            |x: usize| x as int,
                        ).push(index as int));
                    }
                    Some(c)
                },
                None => None,
            },
        }
    }

    /// The inheritance chain of definition `index`: its root ancestor first and
    /// the definition itself last, following parents that exist. `None` where
    /// the parent links run in a cycle.
    fn strategy_parents(&self, index: usize) -> (r: Option<Vec<usize>>)
        requires
            index < self.definitions().len(),
        ensures
            match r {
                Some(c) => inheritance(self.definitions(), index as int) == Some(
                    c@.map_values(|x: usize| x as int),
                ) && forall|j: int| 0 <= j < c@.len() ==> #[trigger] c@[j] < self.definitions().len(),
                None => inheritance(self.definitions(), index as int) is None,
            },
    {
        self.chain_from(index, self.configs.len() as u128 + 1)
    }
}

/// The commands that `refs` point at, each a definition index and a command index.
pub open spec fn ref_commands(cfgs: Seq<StrategyDefinition>, refs: Seq<(usize, usize)>) -> Seq<Command> {
    refs.map_values(|r: (usize, usize)| cfgs[r.0 as int].commands@[r.1 as int])
}

/// Every reference points at an existing command.
pub open spec fn refs_valid(cfgs: Seq<StrategyDefinition>, refs: Seq<(usize, usize)>) -> bool {
    forall|k: int|
        0 <= k < refs.len() ==> (#[trigger] refs[k]).0 < cfgs.len() && refs[k].1 < cfgs[refs[k].0 as int].commands@.len()
}

/// The sizes of the devices of the pool.
pub open spec fn sizes_of(pool: Seq<BlockDevice>) -> Seq<u64> {
    pool.map_values(|b: BlockDevice| b.size)
}

/// The bindings as pairs of integers.
pub open spec fn binds_view(binds: Seq<(usize, usize)>) -> Seq<(int, int)> {
    binds.map_values(|b: (usize, usize)| (b.0 as int, b.1 as int))
}

/// Every binding points at a `FindDisk` command of `cmds` and a device of a pool of `n`.
pub open spec fn binds_valid(cmds: Seq<Command>, binds: Seq<(usize, usize)>, n: nat) -> bool {
    forall|b: int|
        0 <= b < binds.len() ==> (#[trigger] binds[b]).0 < cmds.len() && cmds[binds[b].0 as int] is FindDisk
            && binds[b].1 < n
}

fn fits_exec(size: u64, c: Option<Constraints>) -> (r: bool)
    ensures
        r == fits(size, c),
{
    match c {
        Some(Constraints::AtLeast(n)) => size >= n,
        Some(Constraints::Exact(n)) => size == n,
        Some(Constraints::Range { min, max }) => min <= size && size <= max,
        _ => true,
    }
}

fn taken_exec(binds: &Vec<(usize, usize)>, d: usize) -> (r: bool)
    ensures
        r == is_taken(binds_view(binds@), d as int),
{
    let ghost bv = binds_view(binds@);
    let mut b: usize = 0;
    while b < binds.len()
        invariant
            bv == binds_view(binds@),
            0 <= b <= binds@.len(),
            forall|j: int| 0 <= j < b ==> (#[trigger] bv[j]).1 != d,
        decreases binds@.len() - b,
    {
        if binds[b].1 == d {
            assert(bv[b as int].1 == d);
            return true;
        }
        b = b + 1;
    }
    false
}

/// Inserts `role -> path`, replacing an earlier binding of the role in place.
fn insert_role(v: &mut Vec<(PartitionRole, String)>, role: PartitionRole, path: String, m: Ghost<Map<PartitionRole, Seq<char>>>)
    requires
        roles_hold(old(v)@, m@),
    ensures
        roles_hold(final(v)@, m@.insert(role, path@)),
{
    let ghost m2 = m@.insert(role, path@);
    let ghost path_view = path@;
    let n = v.len();
    let mut i: usize = 0;
    while i < n
        invariant
            n == v@.len(),
            *v == *old(v),
            roles_hold(v@, m@),
            path_view == path@,
            m2 == m@.insert(role, path_view),
            0 <= i <= n,
            forall|j: int| 0 <= j < i ==> (#[trigger] v@[j]).0 != role,
        decreases n - i,
    {
        if v[i].0 == role {
            let ghost before = v@;
            v.set(i, (role, path));
            proof {
                let w = v@;
                assert forall|k: PartitionRole| m2.contains_key(k) implies exists|j: int| 0 <= j < w.len() && (#[trigger] w[j]).0 == k by {
                    if k != role {
                        assert(m@.contains_key(k));
                        assert(roles_hold(before, m@));
                        let j = choose|j: int| 0 <= j < before.len() && (#[trigger] before[j]).0 == k;
                        assert(w[j].0 == k);
                    } else {
                        assert(w[i as int].0 == k);
                    }
                }
                assert forall|a: int, b: int|
                    0 <= a < w.len() && 0 <= b < w.len() && a != b implies (#[trigger] w[a]).0 != (#[trigger] w[b]).0 by {
                    assert(w[a].0 == before[a].0 && w[b].0 == before[b].0);
                }
            }
            return;
        }
        i = i + 1;
    }
    let ghost before = v@;
    v.push((role, path));
    proof {
        let w = v@;
        assert forall|k: PartitionRole| m2.contains_key(k) implies exists|j: int| 0 <= j < w.len() && (#[trigger] w[j]).0 == k by {
            if k != role {
                let j = choose|j: int| 0 <= j < before.len() && (#[trigger] before[j]).0 == k;
                assert(w[j].0 == k);
            } else {
                assert(w[n as int].0 == k);
            }
        }
        assert forall|a: int| 0 <= a < w.len() implies m2.contains_key((#[trigger] w[a]).0) && m2[w[a].0] == w[a].1@ by {
            if a < n {
                assert(w[a] == before[a]);
            }
        }
    }
}

/// Inserts `path -> fs`, replacing an earlier binding of the path in place.
fn insert_filesystem(v: &mut Vec<(String, Filesystem)>, path: String, fs: Filesystem, m: Ghost<Map<Seq<char>, Filesystem>>)
    requires
        filesystems_hold(old(v)@, m@),
    ensures
        filesystems_hold(final(v)@, m@.insert(path@, fs)),
{
    let ghost m2 = m@.insert(path@, fs);
    let ghost key = path@;
    let n = v.len();
    let mut i: usize = 0;
    while i < n
        invariant
            n == v@.len(),
            *v == *old(v),
            filesystems_hold(v@, m@),
            key == path@,
            m2 == m@.insert(key, fs),
            0 <= i <= n,
            forall|j: int| 0 <= j < i ==> (#[trigger] v@[j]).0@ != key,
        decreases n - i,
    {
        if v[i].0 == path {
            let ghost before = v@;
            v.set(i, (path, fs));
            proof {
                let w = v@;
                assert forall|k: Seq<char>| m2.contains_key(k) implies exists|j: int| 0 <= j < w.len() && (#[trigger] w[j]).0@ == k by {
                    if k != key {
                        assert(m@.contains_key(k));
                        assert(filesystems_hold(before, m@));
                        let j = choose|j: int| 0 <= j < before.len() && (#[trigger] before[j]).0@ == k;
                        assert(w[j].0@ == k);
                    } else {
                        assert(w[i as int].0@ == k);
                    }
                }
                assert forall|a: int, b: int|
                    0 <= a < w.len() && 0 <= b < w.len() && a != b implies (#[trigger] w[a]).0@ != (#[trigger] w[b]).0@ by {
                    assert(w[a].0@ == before[a].0@ && w[b].0@ == before[b].0@);
                }
            }
            return;
        }
        i = i + 1;
    }
    let ghost before = v@;
    v.push((path, fs));
    proof {
        let w = v@;
        assert forall|k: Seq<char>| m2.contains_key(k) implies exists|j: int| 0 <= j < w.len() && (#[trigger] w[j]).0@ == k by {
            if k != key {
                let j = choose|j: int| 0 <= j < before.len() && (#[trigger] before[j]).0@ == k;
                assert(w[j].0@ == k);
            } else {
                assert(w[n as int].0@ == k);
            }
        }
        assert forall|a: int| 0 <= a < w.len() implies m2.contains_key((#[trigger] w[a]).0@) && m2[w[a].0@] == w[a].1 by {
            if a < n {
                assert(w[a] == before[a]);
            }
        }
    }
}

/// The commands of strategy `i` with its ancestors' first; none where its
/// inheritance runs in a cycle.
pub open spec fn strategy_commands(cfgs: Seq<StrategyDefinition>, i: int) -> Seq<Command> {
    match inheritance(cfgs, i) {
        Some(c) => chain_commands(cfgs, c),
        None => Seq::<Command>::empty(),
    }
}

fn disk_name(c: &Command) -> (r: &String)
    ensures
        r@ == disk_of(*c),
{
    match c {
        Command::FindDisk { name, .. } => name,
        Command::CreatePartitionTable { disk } => disk,
        Command::CreatePartition { disk, .. } => disk,
    }
}

fn request_exec(c: Constraints, attributes: PartitionAttributes) -> (r: PartitionRequest)
    ensures
        r == request_of(c, attributes),
{
    PartitionRequest {
        size: match c {
            Constraints::AtLeast(n) => SizeRequirement::AtLeast(n),
            Constraints::Exact(n) => SizeRequirement::Exact(n),
            Constraints::Range { min, max } => SizeRequirement::Range { min, max },
            Constraints::Any => SizeRequirement::Remaining,
        },
        attributes: Some(attributes),
    }
}

fn window_exec(size: u64) -> (r: (u64, u64))
    ensures
        r == usable_window(size),
{
    if size >= 2 * PARTITION_ALIGNMENT {
        (PARTITION_ALIGNMENT, size - PARTITION_ALIGNMENT)
    } else {
        (0, 0)
    }
}

impl Provisioner {
    fn flatten(&self, chain: &Vec<usize>) -> (r: Vec<(usize, usize)>)
        requires
            forall|j: int| 0 <= j < chain@.len() ==> #[trigger] chain@[j] < self.definitions().len(),
        ensures
            refs_valid(self.definitions(), r@),
            ref_commands(self.definitions(), r@) == chain_commands(
                self.definitions(),
                chain@.map_values(|x: usize| x as int),
            ),
    {
        let ghost cfgs = self.definitions();
        let ghost cv = chain@.map_values(|x: usize| x as int);
        let mut refs: Vec<(usize, usize)> = Vec::new();
        let mut i: usize = 0;
        while i < chain.len()
            invariant
                cfgs == self.definitions(),
                cv == chain@.map_values(|x: usize| x as int),
                forall|j: int| 0 <= j < chain@.len() ==> #[trigger] chain@[j] < cfgs.len(),
                0 <= i <= chain@.len(),
                refs_valid(cfgs, refs@),
                ref_commands(cfgs, refs@) == chain_commands(cfgs, cv.take(i as int)),
            decreases chain@.len() - i,
        {
            let si = chain[i];
            let m = self.configs[si].commands.len();
            let mut j: usize = 0;
            while j < m
                invariant
                    cfgs == self.definitions(),
                    si < cfgs.len(),
                    m == cfgs[si as int].commands@.len(),
                    0 <= j <= m,
                    refs_valid(cfgs, refs@),
                    ref_commands(cfgs, refs@) == chain_commands(cfgs, cv.take(i as int))
                        + cfgs[si as int].commands@.take(j as int),
                decreases m - j,
            {
                let ghost before = refs@;
                refs.push((si, j));
                proof {
                    assert(ref_commands(cfgs, refs@) =~= ref_commands(cfgs, before).push(
                        cfgs[si as int].commands@[j as int],
                    ));
                    assert(cfgs[si as int].commands@.take(j + 1) =~= cfgs[si as int].commands@.take(
                        j as int,
                    ).push(cfgs[si as int].commands@[j as int]));
                    assert(ref_commands(cfgs, refs@) =~= chain_commands(cfgs, cv.take(i as int))
                        + cfgs[si as int].commands@.take(j + 1));
                }
                j = j + 1;
            }
            proof {
                assert(cv.take(i + 1).drop_last() =~= cv.take(i as int));
                assert(cfgs[si as int].commands@.take(m as int) =~= cfgs[si as int].commands@);
            }
            i = i + 1;
        }
        proof {
            assert(cv.take(chain@.len() as int) =~= cv);
        }
        refs
    }

    fn command_at(&self, refs: &Vec<(usize, usize)>, q: usize) -> (r: &Command)
        requires
            refs_valid(self.definitions(), refs@),
            q < refs@.len(),
        ensures
            *r == ref_commands(self.definitions(), refs@)[q as int],
    {
        let (si, ci) = refs[q];
        &self.configs[si].commands[ci]
    }

    fn bound_exec(&self, refs: &Vec<(usize, usize)>, binds: &Vec<(usize, usize)>, name: &String) -> (r: bool)
        requires
            refs_valid(self.definitions(), refs@),
            binds_valid(ref_commands(self.definitions(), refs@), binds@, self.pool().len()),
        ensures
            r == is_bound(ref_commands(self.definitions(), refs@), binds_view(binds@), name@),
    {
        let ghost cmds = ref_commands(self.definitions(), refs@);
        let ghost bv = binds_view(binds@);
        let mut b: usize = 0;
        while b < binds.len()
            invariant
                refs_valid(self.definitions(), refs@),
                cmds == ref_commands(self.definitions(), refs@),
                binds_valid(cmds, binds@, self.pool().len()),
                bv == binds_view(binds@),
                0 <= b <= binds@.len(),
                forall|j: int| 0 <= j < b ==> disk_of(cmds[(#[trigger] bv[j]).0]) != name@,
            decreases binds@.len() - b,
        {
            let c = self.command_at(refs, binds[b].0);
            if *disk_name(c) == *name {
                assert(disk_of(cmds[bv[b as int].0]) == name@);
                return true;
            }
            b = b + 1;
        }
        false
    }

    fn disk_strategy_exec(&self, refs: &Vec<(usize, usize)>, name: &String, pos: usize) -> (r: Strategy)
        requires
            refs_valid(self.definitions(), refs@),
            pos < refs@.len(),
        ensures
            r.kind() == disk_strategy(ref_commands(self.definitions(), refs@), name@, pos as int, refs@.len() as int).0,
            r.queued() == disk_strategy(ref_commands(self.definitions(), refs@), name@, pos as int, refs@.len() as int).1,
    {
        let ghost cmds = ref_commands(self.definitions(), refs@);
        let mut strategy = Strategy::new(AllocationStrategy::LargestFree);
        let n = refs.len();
        let mut q: usize = pos + 1;
        while q < refs.len()
            invariant
                refs_valid(self.definitions(), refs@),
                cmds == ref_commands(self.definitions(), refs@),
                pos < refs@.len(),
                pos + 1 <= q <= refs@.len(),
                strategy.kind() == disk_strategy(cmds, name@, pos as int, q as int).0,
                strategy.queued() == disk_strategy(cmds, name@, pos as int, q as int).1,
            decreases refs@.len() - q,
        {
            match self.command_at(refs, q) {
                Command::CreatePartitionTable { disk } => {
                    if *disk == *name {
                        strategy = Strategy::new(AllocationStrategy::InitializeWholeDisk);
                    }
                },
                Command::CreatePartition { disk, constraints, attributes } => {
                    if *disk == *name {
                        strategy.add_request(request_exec(*constraints, *attributes));
                    }
                },
                Command::FindDisk { .. } => {},
            }
            q = q + 1;
        }
        strategy
    }

    /// Compiles the leaf `binds` of the search into a plan: each bound disk
    /// gets a planner over its usable window with its strategy applied, and
    /// the planned partitions give the role mounts and filesystems.
    fn compile(&self, sidx: usize, refs: &Vec<(usize, usize)>, binds: &Vec<(usize, usize)>) -> (r: Plan)
        requires
            self.wf(),
            sidx < self.definitions().len(),
            refs_valid(self.definitions(), refs@),
            binds_valid(ref_commands(self.definitions(), refs@), binds@, self.pool().len()),
        ensures
            plan_ok(
                self.pool(),
                ref_commands(self.definitions(), refs@),
                self.definitions()[sidx as int].name@,
                r,
                binds_view(binds@),
            ),
    {
        let ghost cmds = ref_commands(self.definitions(), refs@);
        let ghost pool = self.pool();
        let ghost bv = binds_view(binds@);
        let mut assignments: Vec<DiskAssignment> = Vec::new();
        let mut role_mounts: Vec<(PartitionRole, String)> = Vec::new();
        let mut filesystems: Vec<(String, Filesystem)> = Vec::new();
        let mut b: usize = 0;
        while b < binds.len()
            invariant
                self.wf(),
                pool == self.pool(),
                refs_valid(self.definitions(), refs@),
                cmds == ref_commands(self.definitions(), refs@),
                binds_valid(cmds, binds@, pool.len()),
                bv == binds_view(binds@),
                0 <= b <= binds@.len(),
                assignments@.len() == b,
                forall|j: int| 0 <= j < b ==> assignment_ok(pool, cmds, #[trigger] assignments@[j], bv[j]),
                roles_hold(role_mounts@, entries_map(plan_roles(pool, assignments@))),
                filesystems_hold(filesystems@, entries_map(plan_filesystems(pool, assignments@))),
            decreases binds@.len() - b,
        {
            let (pos, d) = binds[b];
            let name = disk_name(self.command_at(refs, pos)).clone();
            let strategy = self.disk_strategy_exec(refs, &name, pos);
            let device = &self.devices[d];
            let (lo, hi) = window_exec(device.size);
            proof {
                assert forall|i: int| 0 <= i < device.partitions@.len() implies (#[trigger] device.partitions@[i]).number
                    < u32::MAX by {
                    assert(pool[d as int].partitions@[i] == device.partitions@[i]);
                }
            }
            let mut planner = Planner::new(device).with_start_offset(lo).with_end_offset(hi);
            // A request that cannot be placed leaves a partial plan, which is
            // still emitted for the caller to validate.
            let _ = strategy.apply(&mut planner);
            let layout = planner.current_layout();
            let ghost roles_before = plan_roles(pool, assignments@);
            let ghost fs_before = plan_filesystems(pool, assignments@);
            let ghost dpath = device.path@;
            let mut x: usize = 0;
            while x < layout.len()
                invariant
                    0 <= x <= layout@.len(),
                    dpath == device.path@,
                    roles_hold(role_mounts@, entries_map(roles_before + layout_roles(dpath, layout@.take(x as int)))),
                    filesystems_hold(filesystems@, entries_map(fs_before + layout_filesystems(dpath, layout@.take(x as int)))),
                decreases layout@.len() - x,
            {
                let region = layout[x];
                let ghost rt = layout@.take(x + 1);
                proof {
                    assert(rt.drop_last() =~= layout@.take(x as int));
                    assert(rt.last() == region);
                }
                if let (Some(id), Some(attributes)) = (region.partition_id, region.attributes) {
                    let path = device.partition_path(id as usize);
                    if let Some(role) = attributes.role {
                        proof {
                            assert(roles_before + layout_roles(dpath, rt) =~= (roles_before + layout_roles(
                                dpath,
                                layout@.take(x as int),
                            )).push((role, path@)));
                        }
                        proof {
                            lemma_entries_push(
                                roles_before + layout_roles(dpath, layout@.take(x as int)),
                                role,
                                path@,
                            );
                        }
                        insert_role(
                            &mut role_mounts,
                            role,
                            path.clone(),
                            Ghost(entries_map(roles_before + layout_roles(dpath, layout@.take(x as int)))),
                        );
                    } else {
                        assert(roles_before + layout_roles(dpath, rt) =~= roles_before + layout_roles(
                            dpath,
                            layout@.take(x as int),
                        ));
                    }
                    if let Some(fs) = attributes.filesystem {
                        proof {
                            assert(fs_before + layout_filesystems(dpath, rt) =~= (fs_before
                                + layout_filesystems(dpath, layout@.take(x as int))).push((path@, fs)));
                        }
                        proof {
                            lemma_entries_push(
                                fs_before + layout_filesystems(dpath, layout@.take(x as int)),
                                path@,
                                fs,
                            );
                        }
                        insert_filesystem(
                            &mut filesystems,
                            path,
                            fs,
                            Ghost(entries_map(fs_before + layout_filesystems(dpath, layout@.take(x as int)))),
                        );
                    } else {
                        assert(fs_before + layout_filesystems(dpath, rt) =~= fs_before + layout_filesystems(
                            dpath,
                            layout@.take(x as int),
                        ));
                    }
                } else {
                    assert(roles_before + layout_roles(dpath, rt) =~= roles_before + layout_roles(
                        dpath,
                        layout@.take(x as int),
                    ));
                    assert(fs_before + layout_filesystems(dpath, rt) =~= fs_before + layout_filesystems(
                        dpath,
                        layout@.take(x as int),
                    ));
                }
                x = x + 1;
            }
            proof {
                assert(layout@.take(layout@.len() as int) =~= layout@);
            }
            let ghost prev = assignments@;
            assignments.push(
                DiskAssignment { name, device_plan: DevicePlan { device: d, planner, strategy } },
            );
            proof {
                assert(assignments@.drop_last() =~= prev);
                assert(plan_roles(pool, assignments@) == roles_before + layout_roles(dpath, layout@));
                assert(plan_filesystems(pool, assignments@) == fs_before + layout_filesystems(dpath, layout@));
                assert forall|j: int| 0 <= j < b + 1 implies assignment_ok(pool, cmds, #[trigger] assignments@[j], bv[j]) by {
                    if j < b {
                        assert(assignments@[j] == prev[j]);
                    }
                }
            }
            b = b + 1;
        }
        Plan {
            strategy: self.configs[sidx].name.clone(),
            device_assignments: assignments,
            role_mounts,
            filesystems,
        }
    }
}

impl Provisioner {
    /// Searches from command `pos` with the bindings `binds` and appends one
    /// plan per leaf. Each unbound `FindDisk` branches over the devices that
    /// fit its constraint and are not bound yet; the commands after it are
    /// handled within each branch.
    fn explore(
        &self,
        sidx: usize,
        refs: &Vec<(usize, usize)>,
        pos: usize,
        binds: &mut Vec<(usize, usize)>,
        plans: &mut Vec<Plan>,
    )
        requires
            self.wf(),
            sidx < self.definitions().len(),
            refs_valid(self.definitions(), refs@),
            pos <= refs@.len(),
            binds_valid(ref_commands(self.definitions(), refs@), old(binds)@, self.pool().len()),
        ensures
            final(binds)@ == old(binds)@,
            final(plans)@.len() == old(plans)@.len() + leaves(
                ref_commands(self.definitions(), refs@),
                sizes_of(self.pool()),
                pos as nat,
                binds_view(old(binds)@),
            ).len(),
            forall|k: int| 0 <= k < old(plans)@.len() ==> final(plans)@[k] == old(plans)@[k],
            forall|k: int|
                0 <= k < leaves(
                    ref_commands(self.definitions(), refs@),
                    sizes_of(self.pool()),
                    pos as nat,
                    binds_view(old(binds)@),
                ).len() ==> plan_ok(
                    self.pool(),
                    ref_commands(self.definitions(), refs@),
                    self.definitions()[sidx as int].name@,
                    #[trigger] final(plans)@[old(plans)@.len() + k],
                    leaves(
                        ref_commands(self.definitions(), refs@),
                        sizes_of(self.pool()),
                        pos as nat,
                        binds_view(old(binds)@),
                    )[k],
                ),
        decreases refs@.len() - pos,
    {
        let ghost cmds = ref_commands(self.definitions(), refs@);
        let ghost sizes = sizes_of(self.pool());
        let ghost bv = binds_view(binds@);
        let ghost name = self.definitions()[sidx as int].name@;
        let ghost all = leaves(cmds, sizes, pos as nat, bv);
        let ghost old_len = plans@.len();
        let n = refs.len();
        let mut q: usize = pos;
        while q < n
            invariant
                n == refs@.len(),
                pos <= q <= n,
                self.wf(),
                sidx < self.definitions().len(),
                refs_valid(self.definitions(), refs@),
                binds_valid(cmds, binds@, self.pool().len()),
                cmds == ref_commands(self.definitions(), refs@),
                bv == binds_view(binds@),
                *binds == *old(binds),
                *plans == *old(plans),
                old_len == plans@.len(),
                sizes == sizes_of(self.pool()),
                name == self.definitions()[sidx as int].name@,
                all == leaves(cmds, sizes, q as nat, bv),
                all == leaves(cmds, sizes, pos as nat, bv),
            decreases n - q,
        {
            let c = self.command_at(refs, q);
            if let Command::FindDisk { name: disk, constraints } = c {
                if !self.bound_exec(refs, binds, disk) {
                    let ghost branch_leaves = branches(cmds, sizes, q as nat, bv, 0);
                    let nd = self.devices.len();
                    let mut d: usize = 0;
                    let ghost mut done: Seq<Seq<(int, int)>> = Seq::empty();
                    while d < nd
                        invariant
                            nd == self.pool().len(),
                            old_len == old(plans)@.len(),
                            name == self.definitions()[sidx as int].name@,
                            self.wf(),
                            sidx < self.definitions().len(),
                            refs_valid(self.definitions(), refs@),
                            binds_valid(cmds, old(binds)@, self.pool().len()),
                            sizes == sizes_of(self.pool()),
                            pos <= q < n,
                            n == refs@.len(),
                            cmds == ref_commands(self.definitions(), refs@),
                            cmds[q as int] == *c,
                            *c matches Command::FindDisk { constraints: cs, .. } && cs == *constraints,
                            all == branch_leaves,
                            all == leaves(cmds, sizes, pos as nat, bv),
                            binds@ == old(binds)@,
                            bv == binds_view(binds@),
                            0 <= d <= nd,
                            done + branches(cmds, sizes, q as nat, bv, d as nat) == branch_leaves,
                            plans@.len() == old_len + done.len(),
                            forall|k: int| 0 <= k < old_len ==> plans@[k] == old(plans)@[k],
                            forall|k: int| 0 <= k < done.len() ==> plan_ok(
                                self.pool(),
                                cmds,
                                name,
                                #[trigger] plans@[old_len + k],
                                done[k],
                            ),
                        decreases nd - d,
                    {
                        let ghost here = if fits(sizes[d as int], *constraints) && !is_taken(bv, d as int) {
                            leaves(cmds, sizes, (q + 1) as nat, bv.push((q as int, d as int)))
                        } else {
                            Seq::<Seq<(int, int)>>::empty()
                        };
                        proof {
                            assert(branches(cmds, sizes, q as nat, bv, d as nat) == here + branches(
                                cmds,
                                sizes,
                                q as nat,
                                bv,
                                (d + 1) as nat,
                            ));
                        }
                        if fits_exec(self.devices[d].size, *constraints) && !taken_exec(binds, d) {
                            let ghost before_plans = plans@;
                            binds.push((q, d));
                            proof {
                                assert(binds_view(binds@) =~= bv.push((q as int, d as int)));
                                assert forall|b: int| 0 <= b < binds@.len() implies (#[trigger] binds@[b]).0
                                    < cmds.len() && cmds[binds@[b].0 as int] is FindDisk && binds@[b].1
                                    < self.pool().len() by {
                                    if b < binds@.len() - 1 {
                                        assert(binds@[b] == old(binds)@[b]);
                                    }
                                }
                            }
                            self.explore(sidx, refs, q + 1, binds, plans);
                            binds.pop();
                            proof {
                                assert(binds@ =~= old(binds)@);
                                assert forall|k: int| 0 <= k < done.len() + here.len() implies plan_ok(
                                    self.pool(),
                                    cmds,
                                    name,
                                    #[trigger] plans@[old_len + k],
                                    (done + here)[k],
                                ) by {
                                    if k < done.len() {
                                        assert(plans@[old_len + k] == before_plans[old_len + k]);
                                    } else {
                                        assert(plans@[before_plans.len() + (k - done.len())] == plans@[old_len + k]);
                                    }
                                }
                                done = done + here;
                            }
                        } else {
                            proof {
                                assert(here =~= Seq::<Seq<(int, int)>>::empty());
                                assert(done + here =~= done);
                                done = done + here;
                            }
                        }
                        proof {
                            assert(done + branches(cmds, sizes, q as nat, bv, (d + 1) as nat) =~= branch_leaves);
                        }
                        d = d + 1;
                    }
                    proof {
                        assert(branches(cmds, sizes, q as nat, bv, nd as nat) =~= Seq::<Seq<(int, int)>>::empty());
                        assert(done + Seq::<Seq<(int, int)>>::empty() =~= done);
                    }
                    return;
                }
            }
            q = q + 1;
        }
        let plan = self.compile(sidx, refs, binds);
        plans.push(plan);
        proof {
            assert(all == seq![bv]);
        }
    }

    /// Appends the plans of strategy `sidx`, one per leaf of its search.
    fn create_plans_for_strategy(&self, sidx: usize, plans: &mut Vec<Plan>)
        requires
            self.wf(),
            sidx < self.definitions().len(),
        ensures
            final(plans)@.len() == old(plans)@.len() + strategy_leaves(self.definitions(), sizes_of(self.pool()), sidx as int).len(),
            forall|k: int| 0 <= k < old(plans)@.len() ==> final(plans)@[k] == old(plans)@[k],
            forall|k: int|
                0 <= k < strategy_leaves(self.definitions(), sizes_of(self.pool()), sidx as int).len() ==> plan_ok(
                    self.pool(),
                    strategy_commands(self.definitions(), sidx as int),
                    self.definitions()[sidx as int].name@,
                    #[trigger] final(plans)@[old(plans)@.len() + k],
                    strategy_leaves(self.definitions(), sizes_of(self.pool()), sidx as int)[k],
                ),
    {
        match self.strategy_parents(sidx) {
            None => {},
            Some(chain) => {
                let refs = self.flatten(&chain);
                let mut binds: Vec<(usize, usize)> = Vec::new();
                proof {
                    assert(binds_view(binds@) =~= Seq::<(int, int)>::empty());
                }
                self.explore(sidx, &refs, 0, &mut binds, plans);
            },
        }
    }

    /// Compiles every strategy against the pool: one plan per leaf of each
    /// strategy's search, strategies in the order they were added.
    pub fn plan(&self) -> (r: Vec<Plan>)
        requires
            self.wf(),
        ensures
            r@.len() == all_leaves(self.definitions(), sizes_of(self.pool()), self.definitions().len()).len(),
            forall|k: int|
                0 <= k < r@.len() ==> plan_ok(
                    self.pool(),
                    strategy_commands(
                        self.definitions(),
                        all_leaves(self.definitions(), sizes_of(self.pool()), self.definitions().len())[k].0,
                    ),
                    self.definitions()[all_leaves(
                        self.definitions(),
                        sizes_of(self.pool()),
                        self.definitions().len(),
                    )[k].0].name@,
                    #[trigger] r@[k],
                    all_leaves(self.definitions(), sizes_of(self.pool()), self.definitions().len())[k].1,
                ),
    {
        let ghost cfgs = self.definitions();
        let ghost sizes = sizes_of(self.pool());
        let mut plans: Vec<Plan> = Vec::new();
        let n = self.configs.len();
        let mut i: usize = 0;
        while i < n
            invariant
                self.wf(),
                n == cfgs.len(),
                cfgs == self.definitions(),
                sizes == sizes_of(self.pool()),
                0 <= i <= n,
                plans@.len() == all_leaves(cfgs, sizes, i as nat).len(),
                forall|k: int|
                    0 <= k < plans@.len() ==> plan_ok(
                        self.pool(),
                        strategy_commands(cfgs, all_leaves(cfgs, sizes, i as nat)[k].0),
                        cfgs[all_leaves(cfgs, sizes, i as nat)[k].0].name@,
                        #[trigger] plans@[k],
                        all_leaves(cfgs, sizes, i as nat)[k].1,
                    ),
            decreases n - i,
        {
            let ghost before = plans@;
            self.create_plans_for_strategy(i, &mut plans);
            proof {
                let prev = all_leaves(cfgs, sizes, i as nat);
                let cur = all_leaves(cfgs, sizes, (i + 1) as nat);
                let sl = strategy_leaves(cfgs, sizes, i as int);
                assert(cur =~= prev + sl.map_values(|l: Seq<(int, int)>| (i as int, l)));
                assert forall|k: int| 0 <= k < plans@.len() implies plan_ok(
                    self.pool(),
                    strategy_commands(cfgs, cur[k].0),
                    cfgs[cur[k].0].name@,
                    #[trigger] plans@[k],
                    cur[k].1,
                ) by {
                    if k < prev.len() {
                        assert(plans@[k] == before[k]);
                        assert(cur[k] == prev[k]);
                    } else {
                        let j = k - prev.len();
                        assert(plans@[before.len() + j] == plans@[k]);
                        assert(cur[k] == (i as int, sl[j]));
                    }
                }
            }
            i = i + 1;
        }
        plans
    }
}

proof fn lemma_entries_push<K, V>(e: Seq<(K, V)>, k: K, v: V)
    ensures
        entries_map(e.push((k, v))) == entries_map(e).insert(k, v),
{
    assert(e.push((k, v)).drop_last() =~= e);
}

/// The first definition with a given name is the one at `i` when no earlier one has it.
proof fn lemma_find_name_first(cfgs: Seq<StrategyDefinition>, name: Seq<char>, i: int)
    requires
        0 <= i < cfgs.len(),
        cfgs[i].name@ == name,
        forall|j: int| 0 <= j < i ==> (#[trigger] cfgs[j]).name@ != name,
    ensures
        find_name(cfgs, name) == Some(i),
    decreases cfgs.len(),
{
    if i < cfgs.len() - 1 {
        let d = cfgs.drop_last();
        assert forall|j: int| 0 <= j < i implies (#[trigger] d[j]).name@ != name by {
            assert(d[j] == cfgs[j]);
        }
        lemma_find_name_first(d, name, i);
    } else {
        lemma_find_name(cfgs.drop_last(), name);
        assert forall|j: int| 0 <= j < cfgs.drop_last().len() implies (#[trigger] cfgs.drop_last()[j]).name@ != name by {
            assert(cfgs.drop_last()[j] == cfgs[j]);
        }
    }
}

proof fn lemma_unique_after_set(cfgs: Seq<StrategyDefinition>, i: int, config: StrategyDefinition)
    requires
        names_unique(cfgs),
        0 <= i < cfgs.len(),
        cfgs[i].name@ == config.name@,
    ensures
        names_unique(cfgs.update(i, config)),
{
    let c = cfgs.update(i, config);
    assert forall|a: int, b: int|
        0 <= a < c.len() && 0 <= b < c.len() && a != b implies (#[trigger] c[a]).name@
        != (#[trigger] c[b]).name@ by {
        assert(c[a].name@ == cfgs[a].name@);
        assert(c[b].name@ == cfgs[b].name@);
    }
}

} // verus!
