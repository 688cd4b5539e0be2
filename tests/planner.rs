use partitioning::align::{align_down, align_up, is_aligned, PARTITION_ALIGNMENT};
use partitioning::device::BlockDevice;
use partitioning::planner::{Change, PlanError, Planner};
use partitioning::region::{Filesystem, PartitionAttributes, PartitionRole, Region};

const MB: u64 = 1024 * 1024;
const GB: u64 = 1024 * MB;

/// A 500 GB disk with no partitions.
fn create_mock_disk() -> BlockDevice {
    BlockDevice::new("/dev/sda".to_string(), 500 * GB)
}

/// A 500 GB disk with ESP, MSR, Windows and recovery partitions.
fn create_windows_disk() -> BlockDevice {
    let mut disk = BlockDevice::new("/dev/sda".to_string(), 500 * GB);
    disk.add_partition(0, 100 * MB);
    disk.add_partition(100 * MB, 116 * MB);
    disk.add_partition(116 * MB, 200 * GB + 116 * MB);
    disk.add_partition(200 * GB + 116 * MB, 200 * GB + 616 * MB);
    disk
}

#[test]
fn test_fresh_installation() {
    let disk = create_mock_disk();
    let mut planner = Planner::new(&disk);

    assert!(planner.plan_add_partition(0, 512 * MB).is_ok());
    assert!(planner.plan_add_partition(512 * MB, 4 * GB + 512 * MB).is_ok());
    assert!(planner.plan_add_partition(4 * GB + 512 * MB, 500 * GB).is_ok());

    let layout = planner.current_layout();
    assert_eq!(layout.len(), 3);
    assert_eq!(layout[0].size(), 512 * MB);
    assert_eq!(layout[1].size(), 4 * GB);
    assert_eq!(layout[2].size(), 500 * GB - (4 * GB + 512 * MB));
}

#[test]
fn test_dual_boot_with_windows() {
    let disk = create_windows_disk();
    let mut planner = Planner::new(&disk);

    let start = 200 * GB + 616 * MB;
    assert!(planner.plan_add_partition(start, start + 4 * GB).is_ok());
    assert!(planner.plan_add_partition(start + 4 * GB, 500 * GB).is_ok());

    let layout = planner.current_layout();
    assert_eq!(layout.len(), 6);
    for i in 0..layout.len() {
        for j in 0..layout.len() {
            if i != j {
                assert!(!layout[i].overlaps_with(&layout[j]));
            }
        }
    }
}

#[test]
fn test_replace_linux() {
    let mut disk = create_mock_disk();
    disk.add_partition(0, 512 * MB);
    disk.add_partition(512 * MB, 4 * GB + 512 * MB);
    disk.add_partition(4 * GB + 512 * MB, 500 * GB);

    let mut planner = Planner::new(&disk);

    assert!(planner.plan_delete_partition(1).is_ok());
    assert!(planner.plan_delete_partition(2).is_ok());

    assert!(planner.plan_add_partition(512 * MB, 8 * GB + 512 * MB).is_ok());
    assert!(planner.plan_add_partition(8 * GB + 512 * MB, 500 * GB).is_ok());

    let layout = planner.current_layout();
    assert_eq!(layout.len(), 3);
    assert_eq!(layout[1].size(), 8 * GB);
}

#[test]
fn test_region_validation() {
    let disk = create_mock_disk();
    let mut planner = Planner::new(&disk);

    assert!(matches!(
        planner.plan_add_partition(0, 600 * GB),
        Err(PlanError::RegionOutOfBounds { .. })
    ));

    assert!(planner.plan_add_partition(0, 100 * GB).is_ok());
    assert!(matches!(
        planner.plan_add_partition(50 * GB, 150 * GB),
        Err(PlanError::RegionOverlap { .. })
    ));
}

#[test]
fn test_undo_operations() {
    let disk = create_mock_disk();
    let mut planner = Planner::new(&disk);

    assert!(planner.plan_add_partition(0, 100 * GB).is_ok());
    assert!(planner.plan_add_partition(100 * GB, 200 * GB).is_ok());
    assert_eq!(planner.current_layout().len(), 2);

    assert!(planner.undo());
    assert_eq!(planner.current_layout().len(), 1);

    assert!(planner.undo());
    assert_eq!(planner.current_layout().len(), 0);

    assert!(!planner.undo());
}

#[test]
fn test_partition_boundaries() {
    let disk = create_mock_disk();
    let mut planner = Planner::new(&disk);

    assert!(planner.plan_add_partition(0, 100 * GB).is_ok());
    assert!(planner.plan_add_partition(100 * GB, 200 * GB).is_ok());

    let layout = planner.current_layout();
    assert_eq!(layout.len(), 2);
    assert_eq!(layout[0].end, layout[1].start);

    assert!(matches!(
        planner.plan_add_partition(99 * GB, 150 * GB),
        Err(PlanError::RegionOverlap { .. })
    ));
    assert!(matches!(
        planner.plan_add_partition(150 * GB, 201 * GB),
        Err(PlanError::RegionOverlap { .. })
    ));
}

#[test]
fn test_alignment() {
    let disk = create_mock_disk();
    let mut planner = Planner::new(&disk);

    let aligned_start = PARTITION_ALIGNMENT;
    let aligned_end = 2 * PARTITION_ALIGNMENT;
    assert!(planner.plan_add_partition(aligned_start, aligned_end).is_ok());

    let unaligned_start = (2 * PARTITION_ALIGNMENT) + 100;
    let unaligned_end = (3 * PARTITION_ALIGNMENT) - 100;
    assert!(planner.plan_add_partition(unaligned_start, unaligned_end).is_ok());

    let layout = planner.current_layout();
    assert_eq!(layout[0].start, aligned_start);
    assert_eq!(layout[0].end, aligned_end);

    assert_eq!(layout[1].start, 2 * PARTITION_ALIGNMENT);
    assert_eq!(layout[1].end, 3 * PARTITION_ALIGNMENT);
}

#[test]
fn test_alignment_functions() {
    let mb = 1024 * 1024;
    let kb = 1024;

    assert_eq!(align_up(2 * mb + 100, mb), 2 * mb);
    assert_eq!(align_up(2 * mb, mb), 2 * mb);

    assert_eq!(align_up(2 * mb + (600 * kb), mb), 3 * mb);

    assert_eq!(align_down(4 * mb - 100, mb), 4 * mb);
    assert_eq!(align_down(4 * mb, mb), 4 * mb);

    assert_eq!(align_down(4 * mb + (600 * kb), mb), 5 * mb);
}

#[test]
fn test_initialize_disk_partition_numbers() {
    let mut disk = create_mock_disk();
    disk.add_partition(0, 100 * MB);
    disk.add_partition(100 * MB, 200 * MB);
    disk.add_partition(200 * MB, 300 * MB);

    let mut planner = Planner::new(&disk);

    assert!(planner.plan_initialize_disk().is_ok());

    assert!(planner.plan_add_partition(0, 100 * MB).is_ok());
    assert!(planner.plan_add_partition(100 * MB, 200 * MB).is_ok());

    let layout = planner.current_layout();
    assert_eq!(layout[0].partition_id, Some(1));
    assert_eq!(layout[1].partition_id, Some(2));
}

#[test]
fn alignment_rounds_to_nearest_with_half_up() {
    assert_eq!(align_up(MB / 2, MB), MB);
    assert_eq!(align_up(MB / 2 - 1, MB), 0);
    assert_eq!(align_down(3 * MB + MB / 2, MB), 4 * MB);
    assert!(is_aligned(7 * MB, MB));
    assert!(!is_aligned(7 * MB + 1, MB));
}

#[test]
fn region_size_and_overlap() {
    let a = Region::new(0, 10);
    let b = Region::new(10, 20);
    let c = Region::new(5, 15);
    assert_eq!(a.size(), 10);
    assert_eq!(a.partition_id, None);
    assert!(!a.overlaps_with(&b));
    assert!(!b.overlaps_with(&a));
    assert!(a.overlaps_with(&c));
    assert!(c.overlaps_with(&b));
}

#[test]
fn touching_regions_are_accepted_after_overlap_rejection() {
    let disk = create_mock_disk();
    let mut planner = Planner::new(&disk);
    assert!(planner.plan_add_partition(0, 100 * GB).is_ok());
    assert_eq!(
        planner.plan_add_partition(50 * GB, 150 * GB),
        Err(PlanError::RegionOverlap { start: 50 * GB, end: 150 * GB })
    );
    assert!(planner.plan_add_partition(100 * GB, 200 * GB).is_ok());
    assert_eq!(planner.current_layout().len(), 2);
}

#[test]
fn alignment_rounding_scenario() {
    let disk = create_mock_disk();
    let mut planner = Planner::new(&disk);
    assert!(planner.plan_add_partition(2 * MB + 100, 3 * MB - 100).is_ok());
    assert!(planner.plan_add_partition(MB, 2 * MB).is_ok());
    let layout = planner.current_layout();
    assert_eq!((layout[0].start, layout[0].end), (2 * MB, 3 * MB));
    assert_eq!((layout[1].start, layout[1].end), (MB, 2 * MB));
}

#[test]
fn aligned_end_moved_by_window_is_rejected() {
    let disk = create_mock_disk();
    let mut planner = Planner::new(&disk).with_start_offset(MB).with_end_offset(499 * GB);
    assert_eq!(
        planner.plan_add_partition(0, 10 * MB),
        Err(PlanError::RegionOutOfBounds { start: MB, end: 10 * MB })
    );
    assert_eq!(
        planner.plan_add_partition(10 * MB, 500 * GB),
        Err(PlanError::RegionOutOfBounds { start: 10 * MB, end: 499 * GB })
    );
    // An unaligned start is clamped to the window instead.
    assert!(planner.plan_add_partition(100, 10 * MB).is_ok());
    assert_eq!(planner.current_layout()[0].start, MB);
    assert!(planner.has_changes());
}

#[test]
fn empty_after_alignment_is_rejected() {
    let disk = create_mock_disk();
    let mut planner = Planner::new(&disk);
    assert_eq!(
        planner.plan_add_partition(MB + 100, MB + 200),
        Err(PlanError::RegionOutOfBounds { start: MB, end: MB })
    );
    assert!(!planner.has_changes());
}

#[test]
fn delete_out_of_range_reports_window() {
    let disk = create_windows_disk();
    let mut planner = Planner::new(&disk).with_start_offset(MB);
    assert_eq!(
        planner.plan_delete_partition(4),
        Err(PlanError::RegionOutOfBounds { start: MB, end: 500 * GB - MB })
    );
    assert_eq!(planner.usable_size(), 500 * GB - MB);
    assert_eq!(planner.offsets(), (MB, 500 * GB));
}

#[test]
fn deleting_twice_removes_once() {
    let disk = create_windows_disk();
    let mut planner = Planner::new(&disk);
    assert!(planner.plan_delete_partition(1).is_ok());
    assert!(planner.plan_delete_partition(1).is_ok());
    let layout = planner.current_layout();
    assert_eq!(layout.len(), 3);
    assert_eq!(layout[0].partition_id, Some(1));
    assert_eq!(layout[1].partition_id, Some(3));
    assert_eq!(layout[2].partition_id, Some(4));
    assert!(matches!(
        planner.changes()[1],
        Change::DeletePartition { original_index: 1, partition_id: 2 }
    ));
}

#[test]
fn ids_follow_existing_and_survive_undo() {
    let disk = create_windows_disk();
    let mut planner = Planner::new(&disk);
    let start = 200 * GB + 616 * MB;
    assert!(planner.plan_add_partition(start, start + GB).is_ok());
    assert!(planner.undo());
    assert!(planner.plan_add_partition(start, start + GB).is_ok());
    let layout = planner.current_layout();
    assert_eq!(layout.len(), 5);
    assert_eq!(layout[4].partition_id, Some(6));
    assert_eq!(planner.get_original_partition_id(3), Some(4));
    assert_eq!(planner.get_original_partition_id(4), None);
}

#[test]
fn undo_restores_initial_layout() {
    let disk = create_windows_disk();
    let mut planner = Planner::new(&disk);
    let before = planner.current_layout();
    let start = 200 * GB + 616 * MB;
    assert!(planner.plan_add_partition(start, start + GB).is_ok());
    assert!(planner.plan_add_partition(start + GB, start + 2 * GB).is_ok());
    assert!(planner.undo());
    assert!(planner.undo());
    assert_eq!(planner.current_layout(), before);
    assert_eq!(planner.allocate_partition_id(), 7);
}

#[test]
fn reset_restores_original_regions() {
    let disk = create_windows_disk();
    let mut planner = Planner::new(&disk);
    let original = planner.current_layout();
    assert!(planner.plan_delete_partition(0).is_ok());
    assert!(planner.plan_add_partition(400 * GB, 450 * GB).is_ok());
    planner.reset();
    assert!(!planner.has_changes());
    assert_eq!(planner.current_layout(), original);
    assert_eq!(planner.allocate_partition_id(), 6);
    assert!(!planner.wipe_disk());
}

#[test]
fn initialize_disk_empties_layout() {
    let disk = create_windows_disk();
    let mut planner = Planner::new(&disk);
    assert!(planner.plan_add_partition(400 * GB, 450 * GB).is_ok());
    assert!(planner.plan_initialize_disk().is_ok());
    assert!(planner.current_layout().is_empty());
    assert!(planner.wipe_disk());
    assert!(!planner.has_changes());
    assert_eq!(planner.allocate_partition_id(), 1);
    assert!(matches!(planner.plan_delete_partition(0), Err(PlanError::RegionOutOfBounds { .. })));
}

#[test]
fn attributes_are_carried_into_layout() {
    let disk = create_mock_disk();
    let mut planner = Planner::new(&disk);
    let attrs = PartitionAttributes { role: Some(PartitionRole::Esp), filesystem: Some(Filesystem::Fat32) };
    assert!(planner.plan_add_partition_with_attributes(0, 512 * MB, Some(attrs)).is_ok());
    let layout = planner.current_layout();
    assert_eq!(layout[0].attributes, Some(attrs));
    assert_eq!(layout[0].partition_id, Some(1));
}

#[test]
fn descriptions() {
    let r = Region::new(MB, 3 * MB);
    assert_eq!(r.describe(4 * MB), "2097152 bytes at 1048576 (25%)..3145728 (75%)");
    let del = Change::DeletePartition { original_index: 1, partition_id: 2 };
    assert_eq!(del.describe(100), "Delete partition #2 (index 2)");
    let add = Change::AddPartition { start: 0, end: MB, partition_id: 3, attributes: None };
    assert_eq!(
        add.describe(2 * MB),
        "Add new partition #3: 1048576 bytes (1048576 bytes at 0 (0%)..1048576 (50%) at 0 (0%))"
    );

    let disk = create_windows_disk();
    let mut planner = Planner::new(&disk);
    assert_eq!(planner.describe_changes(), "No pending changes");
    assert!(planner.plan_delete_partition(3).is_ok());
    assert_eq!(planner.describe_changes(), "Pending changes:\n  1: Delete partition #4 (index 4)\n");
}

#[test]
fn added_regions_are_aligned_and_inside_window() {
    let disk = create_mock_disk();
    let mut planner = Planner::new(&disk).with_start_offset(MB).with_end_offset(500 * GB - MB);
    assert!(planner.plan_add_partition(100, 300 * MB + 7).is_ok());
    assert!(planner.plan_add_partition(300 * MB + 600 * 1024, 2 * GB + 5).is_ok());
    assert!(planner.plan_add_partition(2 * GB + 5, 600 * GB + 5).is_ok());
    let layout = planner.current_layout();
    assert_eq!(layout.len(), 3);
    for r in &layout {
        assert!(is_aligned(r.start, PARTITION_ALIGNMENT));
        assert!(is_aligned(r.end, PARTITION_ALIGNMENT));
        assert!(MB <= r.start && r.end <= 500 * GB - MB);
    }
    assert_eq!((layout[0].start, layout[0].end), (MB, 300 * MB));
    assert_eq!((layout[1].start, layout[1].end), (301 * MB, 2 * GB));
    assert_eq!((layout[2].start, layout[2].end), (2 * GB, 500 * GB - MB));
}
