use std::path::PathBuf;

use thermaltaked::device::{
    find_node, output_report, select_panel_nodes, usb_identity, DeviceError, HidrawCandidate,
    HidrawNode, MAX_REPORT_SIZE,
};

fn candidate(name: &str, vendor: u32, product: u32, interface: u8) -> HidrawCandidate {
    HidrawCandidate { path: PathBuf::from(format!("/dev/{name}")), vendor, product, interface }
}

#[test]
fn the_panels_nodes_come_sorted_by_interface() {
    let candidates = vec![
        candidate("hidraw3", 0x264a, 0x233d, 1),
        candidate("hidraw0", 0x046d, 0xc52b, 0),
        candidate("hidraw2", 0x264a, 0x233d, 0),
        candidate("hidraw5", 0x264a, 0x1234, 0),
    ];
    let nodes = select_panel_nodes(&candidates);
    let found: Vec<(PathBuf, u8)> = nodes.iter().map(|n| (n.path.clone(), n.interface)).collect();
    assert_eq!(
        found,
        vec![(PathBuf::from("/dev/hidraw2"), 0), (PathBuf::from("/dev/hidraw3"), 1)]
    );
}

#[test]
fn interfaces_are_found_or_missing() {
    let nodes = vec![
        HidrawNode { path: PathBuf::from("/dev/hidraw2"), interface: 0 },
        HidrawNode { path: PathBuf::from("/dev/hidraw3"), interface: 1 },
    ];
    assert_eq!(find_node(&nodes, 1).unwrap().path, PathBuf::from("/dev/hidraw3"));
    assert!(matches!(find_node(&nodes, 2), Err(DeviceError::NotFound(2))));
    assert!(matches!(find_node(&[], 0), Err(DeviceError::NotFound(0))));
}

#[test]
fn reports_start_with_a_zero_byte() {
    assert_eq!(output_report(&[0x82, 0x01, 0x00, 0x80]).unwrap(), vec![0, 0x82, 0x01, 0x00, 0x80]);
    assert_eq!(output_report(&[]).unwrap(), vec![0]);
    let largest = vec![7u8; MAX_REPORT_SIZE - 1];
    assert_eq!(output_report(&largest).unwrap().len(), MAX_REPORT_SIZE);
    match output_report(&vec![7u8; MAX_REPORT_SIZE]) {
        Err(DeviceError::Io(error)) => assert_eq!(error.kind(), std::io::ErrorKind::InvalidInput),
        other => panic!("{other:?}"),
    }
}

#[test]
fn usb_identities_are_read_in_hexadecimal() {
    assert_eq!(usb_identity("264a", "233d", "01"), Some((0x264a, 0x233d, 1)));
    assert_eq!(usb_identity("264a", "233d", "101"), Some((0x264a, 0x233d, 1)));
    assert_eq!(usb_identity("264a", "", "01"), None);
    assert_eq!(usb_identity("+264A", "233D", "0"), Some((0x264a, 0x233d, 0)));
    assert_eq!(usb_identity("-1", "233d", "0"), None);
    assert_eq!(usb_identity("100000000", "233d", "0"), None);
    assert_eq!(usb_identity("ffffffff", "233d", "0"), Some((0xffff_ffff, 0x233d, 0)));
}
