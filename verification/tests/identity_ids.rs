use gamepad_capture::identity::{build_physical_id, build_source_id};
use gamepad_capture::model::{DeviceIdentity, Transport};

fn identity() -> DeviceIdentity {
    DeviceIdentity {
        bus_type: 3,
        vendor_id: 0x045e,
        product_id: 0x0b13,
        version: 1,
    }
}

#[test]
fn serial_identity_survives_event_node_change() {
    let physical = build_physical_id(&identity(), Transport::Usb, Some("serial 1"), Some("a"));
    assert_eq!(
        physical,
        build_physical_id(&identity(), Transport::Usb, Some("serial 1"), Some("b"))
    );
    assert_ne!(
        build_source_id(&physical, "/dev/input/event3"),
        build_source_id(&physical, "/dev/input/event9")
    );
}

#[test]
fn topology_distinguishes_identical_serial_less_devices() {
    assert_ne!(
        build_physical_id(&identity(), Transport::Usb, None, Some("usb-1-2/input0")),
        build_physical_id(&identity(), Transport::Usb, None, Some("usb-1-3/input0"))
    );
}

#[test]
fn physical_id_prefers_unique_id_and_escapes_it() {
    let physical = build_physical_id(&identity(), Transport::Usb, Some("serial 1"), Some("a"));
    assert_eq!(physical.as_str(), "0003:045e:0b13:usb:uniq:serial%201");
}

#[test]
fn blank_unique_id_falls_back_to_topology_then_anonymous() {
    let topology = build_physical_id(&identity(), Transport::Bluetooth, Some("  "), Some("usb-1-2"));
    assert_eq!(topology.as_str(), "0003:045e:0b13:bluetooth:phys:usb-1-2");
    let anonymous = build_physical_id(&identity(), Transport::Other(0x1f), None, Some(" "));
    assert_eq!(anonymous.as_str(), "0003:045e:0b13:bus-001f:anonymous");
}

#[test]
fn source_id_escapes_the_event_path() {
    let physical = build_physical_id(&identity(), Transport::Virtual, None, None);
    let source = build_source_id(&physical, "/dev/input/event 3");
    assert_eq!(
        source.as_str(),
        "0003:045e:0b13:virtual:anonymous:source:/dev/input/event%203"
    );
}
