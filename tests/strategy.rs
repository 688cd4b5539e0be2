use partitioning::device::BlockDevice;
use partitioning::planner::{PlanError, Planner};
use partitioning::region::Region;
use partitioning::strategy::{
    largest_free_gap, take_size, AllocationStrategy, PartitionRequest, SizeRequirement, Strategy,
};
use partitioning::text::decimal_string;

const MB: u64 = 1024 * 1024;
const GB: u64 = 1024 * MB;

#[test]
fn take_size_honours_each_requirement() {
    assert_eq!(take_size(SizeRequirement::Exact(10), 100), Some(10));
    assert_eq!(take_size(SizeRequirement::Exact(200), 100), None);
    assert_eq!(take_size(SizeRequirement::AtLeast(10), 100), Some(10));
    assert_eq!(take_size(SizeRequirement::AtLeast(0), 100), Some(100));
    assert_eq!(take_size(SizeRequirement::Range { min: 10, max: 50 }, 100), Some(50));
    assert_eq!(take_size(SizeRequirement::Range { min: 10, max: 500 }, 100), Some(100));
    assert_eq!(take_size(SizeRequirement::Range { min: 200, max: 500 }, 100), None);
    assert_eq!(take_size(SizeRequirement::Remaining, 100), Some(100));
    assert_eq!(take_size(SizeRequirement::Remaining, 0), None);
}

#[test]
fn largest_gap_is_found() {
    let rs = vec![Region::new(10, 20), Region::new(50, 60)];
    assert_eq!(largest_free_gap(&rs, 0, 100), Some((60, 100)));
    assert_eq!(largest_free_gap(&rs, 0, 55), Some((20, 50)));
    let full = vec![Region::new(0, 100)];
    assert_eq!(largest_free_gap(&full, 0, 100), None);
    assert_eq!(largest_free_gap(&vec![], 5, 9), Some((5, 9)));
}

#[test]
fn apply_places_requests_in_order() {
    let disk = BlockDevice::new("/dev/sda".to_string(), 10 * GB);
    let mut planner = Planner::new(&disk).with_start_offset(MB).with_end_offset(10 * GB - MB);
    let mut strategy = Strategy::new(AllocationStrategy::LargestFree);
    strategy.add_request(PartitionRequest { size: SizeRequirement::Exact(GB), attributes: None });
    strategy.add_request(PartitionRequest { size: SizeRequirement::Remaining, attributes: None });
    assert_eq!(strategy.apply(&mut planner), Ok(()));
    let layout = planner.current_layout();
    assert_eq!(layout.len(), 2);
    assert_eq!((layout[0].start, layout[0].end), (MB, MB + GB));
    assert_eq!((layout[1].start, layout[1].end), (MB + GB, 10 * GB - MB));
    assert_eq!(layout[1].partition_id, Some(2));
}

#[test]
fn apply_fails_when_nothing_fits() {
    let disk = BlockDevice::new("/dev/sda".to_string(), 10 * GB);
    let mut planner = Planner::new(&disk);
    let mut strategy = Strategy::new(AllocationStrategy::LargestFree);
    strategy.add_request(PartitionRequest { size: SizeRequirement::Exact(GB), attributes: None });
    strategy.add_request(PartitionRequest { size: SizeRequirement::Exact(20 * GB), attributes: None });
    assert_eq!(strategy.apply(&mut planner), Err(PlanError::NoFreeRegions));
    assert_eq!(planner.current_layout().len(), 1);
}

#[test]
fn initialize_whole_disk_drops_existing_partitions() {
    let mut disk = BlockDevice::new("/dev/sda".to_string(), 10 * GB);
    disk.add_partition(0, 5 * GB);
    let mut planner = Planner::new(&disk);
    let mut strategy = Strategy::new(AllocationStrategy::InitializeWholeDisk);
    strategy.add_request(PartitionRequest { size: SizeRequirement::Remaining, attributes: None });
    assert_eq!(strategy.apply(&mut planner), Ok(()));
    let layout = planner.current_layout();
    assert_eq!(layout.len(), 1);
    assert_eq!((layout[0].start, layout[0].end, layout[0].partition_id), (0, 10 * GB, Some(1)));
    assert!(planner.wipe_disk());
}

#[test]
fn decimal_digits() {
    assert_eq!(decimal_string(0), "0");
    assert_eq!(decimal_string(1048576), "1048576");
    assert_eq!(decimal_string(u64::MAX), "18446744073709551615");
}

#[test]
fn partition_paths() {
    let sda = BlockDevice::new("/dev/sda".to_string(), GB);
    let nvme = BlockDevice::new("/dev/nvme0n1".to_string(), GB);
    assert_eq!(sda.partition_path(3), "/dev/sda3");
    assert_eq!(nvme.partition_path(12), "/dev/nvme0n1p12");
}
