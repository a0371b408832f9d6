use libtheia::add_two;
use libtheia::models::{Compute, DataCentre, Disk, DiskType, GPUBusType, InterConnect, LogicalInfrastructure, Storage, GPU};

#[test]
fn add_two_adds() {
    assert_eq!(add_two(3, 4), 7);
}

#[test]
fn data_centre_holds_its_records() {
    let mut dc = DataCentre::new("test".to_string());
    let mut c = Compute::new("c1".to_string(), 1, 1, 1);
    c.add_gpu(GPU::new("g".to_string(), 4, 16, GPUBusType::PCIe));
    c.add_link(InterConnect::new("l".to_string(), 100, true));
    c.add_disk(Disk::new("d".to_string(), DiskType::SolidState, 100, None, None, None));
    dc.add_compute(c.clone());
    dc.add_storage(Storage::new("s1".to_string(), None, 10));
    dc.add_interconnect(InterConnect::new("i1".to_string(), 10, true));
    assert_eq!(dc.get_compute("c1"), Some(&c));
    assert!(dc.get_compute("nope").is_none());
    assert_eq!(dc.get_storage("s1").map(|s| s.capacity_gb), Some(10));
    assert_eq!(dc.get_interconnect("i1").map(|i| i.speed_gb), Some(10));
    dc.remove_compute("c1");
    assert!(dc.get_compute("c1").is_none());
}

#[test]
fn infrastructure_finds_data_centres() {
    let mut infra = LogicalInfrastructure::new();
    let dc = DataCentre::new("test".to_string());
    infra.add_data_centre(dc);
    let found = infra.get_data_centre("test").unwrap();
    assert_eq!(found.name, "test");
    infra.remove_data_centre("test");
    assert!(infra.get_data_centre("test").is_none());
}

#[test]
fn disk_type_names() {
    assert_eq!(DiskType::from_str("nvme"), DiskType::NVMe);
    assert_eq!(DiskType::from_str("solid_state"), DiskType::SolidState);
    assert_eq!(DiskType::from_str("other"), DiskType::Spinning);
}
