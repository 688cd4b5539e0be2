use partitioning::device::BlockDevice;
use partitioning::provisioner::{Command, Constraints, Provisioner, StrategyDefinition};
use partitioning::region::{Filesystem, PartitionAttributes, PartitionRole};
use partitioning::strategy::AllocationStrategy;

const MB: u64 = 1024 * 1024;
const GB: u64 = 1024 * MB;

fn esp() -> PartitionAttributes {
    PartitionAttributes { role: Some(PartitionRole::Esp), filesystem: Some(Filesystem::Fat32) }
}

fn root() -> PartitionAttributes {
    PartitionAttributes { role: Some(PartitionRole::Root), filesystem: Some(Filesystem::Ext4) }
}

/// One disk of at least 30 GB, wiped, with an ESP and a root partition filling the rest.
fn whole_disk_strategy() -> StrategyDefinition {
    StrategyDefinition {
        name: "whole_disk".to_string(),
        inherits: None,
        commands: vec![
            Command::FindDisk { name: "root_disk".to_string(), constraints: Some(Constraints::AtLeast(30 * GB)) },
            Command::CreatePartitionTable { disk: "root_disk".to_string() },
            Command::CreatePartition {
                disk: "root_disk".to_string(),
                constraints: Constraints::Exact(256 * MB),
                attributes: esp(),
            },
            Command::CreatePartition { disk: "root_disk".to_string(), constraints: Constraints::Any, attributes: root() },
        ],
    }
}

#[test]
fn test_use_whole_disk() {
    let device = BlockDevice::new("/dev/sda".to_string(), 150 * 1024 * 1024 * 1024);
    let mut provisioner = Provisioner::new();
    provisioner.push_device(device);
    provisioner.add_strategy(whole_disk_strategy());

    let plans = provisioner.plan();
    assert_eq!(plans.len(), 1);

    let plan = &plans[0];
    assert_eq!(plan.device_assignments.len(), 1);
    let assignment = &plan.device_assignments[0];
    assert_eq!(assignment.name, "root_disk");
    assert!(assignment.device_plan.planner.wipe_disk());
    assert_eq!(assignment.device_plan.strategy.allocation(), AllocationStrategy::InitializeWholeDisk);
    let layout = assignment.device_plan.planner.current_layout();
    assert_eq!(layout.len(), 2);
    assert_eq!((layout[0].start, layout[0].end), (MB, 257 * MB));
    assert_eq!((layout[1].start, layout[1].end), (257 * MB, 150 * GB - MB));
}

#[test]
fn branching_over_two_devices() {
    let mut provisioner = Provisioner::new();
    provisioner.push_device(BlockDevice::new("/dev/sda".to_string(), 150 * GB));
    provisioner.push_device(BlockDevice::new("/dev/nvme0n1".to_string(), 150 * GB));
    provisioner.add_strategy(StrategyDefinition {
        name: "simple".to_string(),
        inherits: None,
        commands: vec![
            Command::FindDisk { name: "disk".to_string(), constraints: Some(Constraints::AtLeast(100 * GB)) },
            Command::CreatePartition { disk: "disk".to_string(), constraints: Constraints::Exact(512 * MB), attributes: esp() },
            Command::CreatePartition { disk: "disk".to_string(), constraints: Constraints::Any, attributes: root() },
        ],
    });

    let plans = provisioner.plan();
    assert_eq!(plans.len(), 2);
    assert_eq!(plans[0].device_assignments.len(), 1);
    assert_eq!(plans[1].device_assignments.len(), 1);
    assert_eq!(plans[0].device_assignments[0].device_plan.device, 0);
    assert_eq!(plans[1].device_assignments[0].device_plan.device, 1);
    assert_eq!(plans[0].strategy, "simple");

    let first = &plans[0];
    assert_eq!(first.role_mounts.len(), 2);
    assert!(first.role_mounts.contains(&(PartitionRole::Esp, "/dev/sda1".to_string())));
    assert!(first.role_mounts.contains(&(PartitionRole::Root, "/dev/sda2".to_string())));
    assert!(first.filesystems.contains(&("/dev/sda1".to_string(), Filesystem::Fat32)));
    assert!(first.filesystems.contains(&("/dev/sda2".to_string(), Filesystem::Ext4)));

    let second = &plans[1];
    assert!(second.role_mounts.contains(&(PartitionRole::Esp, "/dev/nvme0n1p1".to_string())));
    assert!(second.filesystems.contains(&("/dev/nvme0n1p2".to_string(), Filesystem::Ext4)));
    let layout = second.device_assignments[0].device_plan.planner.current_layout();
    assert_eq!(layout[0].size(), 512 * MB);
    assert_eq!(layout[1].end, 150 * GB - MB);
}

#[test]
fn small_devices_do_not_match() {
    let mut provisioner = Provisioner::new();
    provisioner.push_device(BlockDevice::new("/dev/sda".to_string(), 50 * GB));
    provisioner.add_strategy(whole_disk_strategy());
    provisioner.add_strategy(StrategyDefinition {
        name: "big".to_string(),
        inherits: None,
        commands: vec![Command::FindDisk {
            name: "disk".to_string(),
            constraints: Some(Constraints::Range { min: 100 * GB, max: 200 * GB }),
        }],
    });
    let plans = provisioner.plan();
    assert_eq!(plans.len(), 1);
    assert_eq!(plans[0].strategy, "whole_disk");
}

#[test]
fn two_disks_are_never_the_same_device() {
    let mut provisioner = Provisioner::new();
    provisioner.push_device(BlockDevice::new("/dev/sda".to_string(), 100 * GB));
    provisioner.push_device(BlockDevice::new("/dev/sdb".to_string(), 100 * GB));
    provisioner.push_device(BlockDevice::new("/dev/sdc".to_string(), 100 * GB));
    provisioner.add_strategy(StrategyDefinition {
        name: "pair".to_string(),
        inherits: None,
        commands: vec![
            Command::FindDisk { name: "a".to_string(), constraints: None },
            Command::FindDisk { name: "b".to_string(), constraints: Some(Constraints::Any) },
            Command::FindDisk { name: "a".to_string(), constraints: None },
        ],
    });
    let plans = provisioner.plan();
    assert_eq!(plans.len(), 6);
    for plan in &plans {
        assert_eq!(plan.device_assignments.len(), 2);
        assert_ne!(plan.device_assignments[0].device_plan.device, plan.device_assignments[1].device_plan.device);
    }
}

#[test]
fn strategy_without_find_disk_yields_one_plan() {
    let mut provisioner = Provisioner::new();
    provisioner.add_strategy(StrategyDefinition {
        name: "nothing".to_string(),
        inherits: None,
        commands: vec![Command::CreatePartitionTable { disk: "missing".to_string() }],
    });
    let plans = provisioner.plan();
    assert_eq!(plans.len(), 1);
    assert!(plans[0].device_assignments.is_empty());
    assert!(plans[0].role_mounts.is_empty());
}

#[test]
fn inherited_commands_come_first() {
    let mut provisioner = Provisioner::new();
    provisioner.push_device(BlockDevice::new("/dev/sda".to_string(), 100 * GB));
    provisioner.add_strategy(StrategyDefinition {
        name: "base".to_string(),
        inherits: None,
        commands: vec![
            Command::FindDisk { name: "disk".to_string(), constraints: None },
            Command::CreatePartition { disk: "disk".to_string(), constraints: Constraints::Exact(GB), attributes: esp() },
        ],
    });
    provisioner.add_strategy(StrategyDefinition {
        name: "child".to_string(),
        inherits: Some("base".to_string()),
        commands: vec![Command::CreatePartition { disk: "disk".to_string(), constraints: Constraints::Any, attributes: root() }],
    });
    let plans = provisioner.plan();
    assert_eq!(plans.len(), 2);
    assert_eq!(plans[0].strategy, "base");
    assert_eq!(plans[0].device_assignments[0].device_plan.strategy.requests().len(), 1);
    assert_eq!(plans[1].strategy, "child");
    let requests = plans[1].device_assignments[0].device_plan.strategy.requests();
    assert_eq!(requests.len(), 2);
    assert_eq!(requests[0].attributes, Some(esp()));
    assert_eq!(requests[1].attributes, Some(root()));
}

#[test]
fn missing_parent_is_skipped_and_cycle_gives_no_plans() {
    let mut provisioner = Provisioner::new();
    provisioner.add_strategy(StrategyDefinition { name: "orphan".to_string(), inherits: Some("gone".to_string()), commands: vec![] });
    provisioner.add_strategy(StrategyDefinition { name: "x".to_string(), inherits: Some("y".to_string()), commands: vec![] });
    provisioner.add_strategy(StrategyDefinition { name: "y".to_string(), inherits: Some("x".to_string()), commands: vec![] });
    let plans = provisioner.plan();
    assert_eq!(plans.len(), 1);
    assert_eq!(plans[0].strategy, "orphan");
}

#[test]
fn adding_a_strategy_twice_replaces_it() {
    let mut provisioner = Provisioner::new();
    provisioner.add_strategy(StrategyDefinition { name: "s".to_string(), inherits: None, commands: vec![] });
    provisioner.add_strategy(StrategyDefinition {
        name: "s".to_string(),
        inherits: None,
        commands: vec![Command::CreatePartitionTable { disk: "d".to_string() }],
    });
    assert_eq!(provisioner.strategies().len(), 1);
    assert_eq!(provisioner.strategies()[0].commands.len(), 1);
    assert_eq!(provisioner.plan().len(), 1);
}

#[test]
fn default_provisioner_plans_nothing() {
    let provisioner = Provisioner::default();
    assert!(provisioner.plan().is_empty());
    assert!(provisioner.devices().is_empty());
}
