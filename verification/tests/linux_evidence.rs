use gamepad_capture::linux::{
    access_after_grab, classify, control_sort_key, describe, discovery_snapshot, io_failure,
    is_synchronization_lost, non_empty, sort_controls, transport_for_bus, wants_grab,
    DeviceEvidence, FrameAssembler,
};
use gamepad_capture::model::{
    AbsoluteAxisInfo, AccessMode, CaptureAccess, CaptureError, CaptureErrorKind, ControlDescriptor,
    ControllerClass, DeviceDescriptor, DeviceIdentity, DeviceProvenance, IdentityStability,
    NativeEvent, SourceId, Timestamp, Transport,
};

#[test]
fn classification_requires_button_and_axis_capabilities() {
    assert_eq!(
        classify(Some(&[0x130]), Some(&[0])),
        Some(ControllerClass::Gamepad)
    );
    assert_eq!(classify(Some(&[30]), Some(&[0])), None);
    assert_eq!(classify(Some(&[0x130]), Some(&[])), None);
}

#[test]
fn synchronization_loss_is_recognized_without_emitting_a_partial_frame() {
    assert!(is_synchronization_lost(evdev::EventType::SYNCHRONIZATION.0, 3));
    assert!(!is_synchronization_lost(evdev::EventType::SYNCHRONIZATION.0, 0));
    assert!(!is_synchronization_lost(3, 3));
}

#[test]
fn joystick_buttons_make_a_controller_like_device() {
    assert_eq!(
        classify(Some(&[0x120, 30]), Some(&[1])),
        Some(ControllerClass::ControllerLike)
    );
    assert_eq!(
        classify(Some(&[0x12f, 0x13f]), Some(&[1])),
        Some(ControllerClass::Gamepad)
    );
    assert_eq!(classify(None, Some(&[1])), None);
    assert_eq!(classify(Some(&[0x130]), None), None);
}

#[test]
fn bus_types_name_transports() {
    assert_eq!(transport_for_bus(0x03), Transport::Usb);
    assert_eq!(transport_for_bus(0x05), Transport::Bluetooth);
    assert_eq!(transport_for_bus(0x06), Transport::Virtual);
    assert_eq!(transport_for_bus(0), Transport::Unknown);
    assert_eq!(transport_for_bus(0x19), Transport::Other(0x19));
}

#[test]
fn reported_texts_are_trimmed_or_dropped() {
    assert_eq!(non_empty(Some("  usb-1/input0 ")), Some("usb-1/input0".to_owned()));
    assert_eq!(non_empty(Some(" \t ")), None);
    assert_eq!(non_empty(None), None);
}

fn key(code: u16) -> ControlDescriptor {
    ControlDescriptor::Key {
        code,
        name: format!("key-{code}"),
    }
}

fn axis_info() -> AbsoluteAxisInfo {
    AbsoluteAxisInfo {
        minimum: -1,
        maximum: 1,
        current: 0,
        fuzz: 0,
        flat: 0,
        resolution: 0,
    }
}

#[test]
fn controls_sort_by_event_type_then_code() {
    let controls = vec![
        ControlDescriptor::Led {
            code: 0,
            name: "led".to_owned(),
        },
        ControlDescriptor::AbsoluteAxis {
            code: 1,
            name: "y".to_owned(),
            info: axis_info(),
        },
        key(305),
        ControlDescriptor::RelativeAxis {
            code: 8,
            name: "wheel".to_owned(),
        },
        key(304),
    ];
    let sorted = sort_controls(controls);
    let keys: Vec<(u8, u16)> = sorted.iter().map(control_sort_key).collect();
    assert_eq!(keys, vec![(1, 304), (1, 305), (2, 8), (3, 1), (17, 0)]);
}

fn evidence(path: &str) -> DeviceEvidence {
    DeviceEvidence {
        device_path: path.to_owned(),
        name: None,
        unique_name: Some("  ".to_owned()),
        physical_path: Some(" usb-1-2/input0 ".to_owned()),
        identity: DeviceIdentity {
            bus_type: 3,
            vendor_id: 0x045e,
            product_id: 0x0b13,
            version: 1,
        },
        keys: Some(vec![0x131, 0x130]),
        absolute_axes: Some(vec![0]),
        absolute_info: Ok(vec![(0, axis_info())]),
        relative_axes: None,
        switches: None,
        leds: None,
        force_feedback: None,
        virtual_sysfs: false,
    }
}

#[test]
fn describing_a_gamepad_builds_its_identity_and_sorted_controls() {
    let device = describe(evidence("/dev/input/event3")).unwrap().unwrap();
    assert_eq!(device.physical_id.as_str(), "0003:045e:0b13:usb:phys:usb-1-2/input0");
    assert_eq!(
        device.source_id.as_str(),
        "0003:045e:0b13:usb:phys:usb-1-2/input0:source:/dev/input/event3"
    );
    assert_eq!(device.reported_name, "Unknown controller");
    assert_eq!(device.class, ControllerClass::Gamepad);
    assert_eq!(device.transport, Transport::Usb);
    assert_eq!(device.provenance, DeviceProvenance::Physical);
    assert_eq!(device.identity_stability, IdentityStability::Topology);
    assert_eq!(device.unique_id, None);
    assert_eq!(device.physical_path, Some("usb-1-2/input0".to_owned()));
    let keys: Vec<(u8, u16)> = device.controls.iter().map(control_sort_key).collect();
    assert_eq!(keys, vec![(1, 0x130), (1, 0x131), (3, 0)]);
    assert!(matches!(
        &device.controls[0],
        ControlDescriptor::Key { name, .. } if name == "BTN_SOUTH"
    ));
    assert!(matches!(
        &device.controls[2],
        ControlDescriptor::AbsoluteAxis { name, .. } if name == "ABS_X"
    ));
}

#[test]
fn non_controllers_are_skipped_and_unreadable_axes_fail() {
    let mut keyboard = evidence("/dev/input/event1");
    keyboard.keys = Some(vec![30]);
    assert!(describe(keyboard).unwrap().is_none());
    let mut broken = evidence("/dev/input/event2");
    broken.absolute_info = Err("no axis information".to_owned());
    let error = describe(broken).unwrap_err();
    assert_eq!(error.kind, CaptureErrorKind::InvalidDevice);
    assert_eq!(error.message, "no axis information");
}

#[test]
fn virtual_devices_are_marked_virtual() {
    let mut uinput = evidence("/dev/input/event4");
    uinput.identity.bus_type = 0x06;
    let device = describe(uinput).unwrap().unwrap();
    assert_eq!(device.provenance, DeviceProvenance::Virtual);
    assert_eq!(device.transport, Transport::Virtual);
    let mut sysfs = evidence("/dev/input/event5");
    sysfs.virtual_sysfs = true;
    sysfs.unique_name = Some("pad-1".to_owned());
    sysfs.name = Some("Pad".to_owned());
    let device = describe(sysfs).unwrap().unwrap();
    assert_eq!(device.provenance, DeviceProvenance::Virtual);
    assert_eq!(device.identity_stability, IdentityStability::Hardware);
    assert_eq!(device.reported_name, "Pad");
}

#[test]
fn snapshots_order_devices_and_keep_issues() {
    let second = describe(evidence("/dev/input/event9"));
    let first = describe(evidence("/dev/input/event3"));
    let snapshot = discovery_snapshot(vec![
        ("/dev/input/event9".to_owned(), second),
        ("/dev/input/event1".to_owned(), Ok(None)),
        (
            "/dev/input/event7".to_owned(),
            Err(CaptureError::new(CaptureErrorKind::PermissionDenied, "denied")),
        ),
        ("/dev/input/event3".to_owned(), first),
    ]);
    let ids: Vec<&str> = snapshot
        .devices
        .iter()
        .map(|device: &DeviceDescriptor| device.source_id.as_str())
        .collect();
    assert_eq!(
        ids,
        vec![
            "0003:045e:0b13:usb:phys:usb-1-2/input0:source:/dev/input/event3",
            "0003:045e:0b13:usb:phys:usb-1-2/input0:source:/dev/input/event9",
        ]
    );
    assert_eq!(snapshot.issues.len(), 1);
    assert_eq!(snapshot.issues[0].device_path, "/dev/input/event7");
    assert_eq!(snapshot.issues[0].error.kind, CaptureErrorKind::PermissionDenied);
}

fn event(event_type: u16, code: u16, value: i32) -> NativeEvent {
    NativeEvent {
        timestamp: Timestamp::unix_epoch(),
        event_type,
        code,
        value,
    }
}

#[test]
fn frames_close_on_report_and_carry_the_next_sequence() {
    let mut assembler = FrameAssembler::new(SourceId::new("pad"));
    let first = assembler
        .push_events(&[event(3, 0, 5), event(1, 304, 1)])
        .unwrap();
    assert!(first.is_empty());
    let frames = assembler
        .push_events(&[event(0, 0, 0), event(0, 0, 0), event(3, 1, -4), event(0, 0, 0)])
        .unwrap();
    assert_eq!(frames.len(), 2);
    assert_eq!(frames[0].sequence, 1);
    assert_eq!(frames[0].events, vec![event(3, 0, 5), event(1, 304, 1)]);
    assert_eq!(frames[1].sequence, 2);
    assert_eq!(frames[1].events, vec![event(3, 1, -4)]);
    assert_eq!(frames[1].source_id, SourceId::new("pad"));
}

#[test]
fn dropped_events_discard_the_partial_frame() {
    let mut assembler = FrameAssembler::new(SourceId::new("pad"));
    let error = assembler
        .push_events(&[event(3, 0, 5), event(0, 3, 0), event(3, 0, 7), event(0, 0, 0)])
        .unwrap_err();
    assert_eq!(error.kind, CaptureErrorKind::SynchronizationLost);
    assert_eq!(error.message, "pad: kernel event buffer overrun");
    let frames = assembler.push_events(&[event(3, 0, 9), event(0, 0, 0)]).unwrap();
    assert_eq!(frames.len(), 1);
    assert_eq!(frames[0].sequence, 1);
    assert_eq!(frames[0].events, vec![event(3, 0, 9)]);
}

#[test]
fn grabs_follow_the_access_policy() {
    assert!(!wants_grab(AccessMode::Shared));
    assert!(wants_grab(AccessMode::Exclusive));
    assert!(wants_grab(AccessMode::PreferExclusive));
    assert_eq!(access_after_grab(AccessMode::Shared, false), Some(CaptureAccess::Shared));
    assert_eq!(access_after_grab(AccessMode::Exclusive, true), Some(CaptureAccess::Exclusive));
    assert_eq!(access_after_grab(AccessMode::Exclusive, false), None);
    assert_eq!(
        access_after_grab(AccessMode::PreferExclusive, false),
        Some(CaptureAccess::SharedFallback)
    );
    assert_eq!(
        access_after_grab(AccessMode::PreferExclusive, true),
        Some(CaptureAccess::Exclusive)
    );
}

#[test]
fn permission_refusals_are_reported_as_such() {
    let error = io_failure(CaptureErrorKind::Open, true, "/dev/input/event3", "Permission denied");
    assert_eq!(error.kind, CaptureErrorKind::PermissionDenied);
    assert_eq!(error.message, "/dev/input/event3: Permission denied");
    let error = io_failure(CaptureErrorKind::ExclusiveGrab, false, "/dev/input/event3", "busy");
    assert_eq!(error.kind, CaptureErrorKind::ExclusiveGrab);
}

#[test]
fn frames_completed_before_dropped_events_are_delivered_by_the_next_read() {
    let mut assembler = FrameAssembler::new(SourceId::new("pad"));
    let error = assembler
        .push_events(&[event(3, 0, 5), event(0, 0, 0), event(3, 0, 6), event(0, 3, 0), event(3, 0, 7)])
        .unwrap_err();
    assert_eq!(error.kind, CaptureErrorKind::SynchronizationLost);
    let frames = assembler.push_events(&[]).unwrap();
    assert_eq!(frames.len(), 1);
    assert_eq!(frames[0].sequence, 1);
    assert_eq!(frames[0].events, vec![event(3, 0, 5)]);
    assert!(assembler.push_events(&[]).unwrap().is_empty());

    let _ = assembler.push_events(&[event(3, 1, 1), event(0, 0, 0), event(0, 3, 0)]);
    let frames = assembler.push_events(&[event(3, 1, 2), event(0, 0, 0)]).unwrap();
    assert_eq!(frames.len(), 2);
    assert_eq!(frames[0].sequence, 2);
    assert_eq!(frames[0].events, vec![event(3, 1, 1)]);
    assert_eq!(frames[1].sequence, 3);
    assert_eq!(frames[1].events, vec![event(3, 1, 2)]);
}
