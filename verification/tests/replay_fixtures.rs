use gamepad_capture::replay::FixtureRecording;
use gamepad_capture::{
    AccessMode, CaptureAccess, CaptureError, CaptureErrorKind, CaptureEvent, CaptureProvider,
    CaptureSession,
    ControllerClass, DeviceDescriptor, DeviceIdentity, DeviceProvenance, DiscoverySnapshot,
    EventBatch, FixtureManifest, IdentityStability, NativeEvent, PhysicalDeviceId, ReplayProvider,
    ReplaySourcePlan, SourceId, Timestamp, Transport,
};

fn device() -> DeviceDescriptor {
    DeviceDescriptor {
        physical_id: PhysicalDeviceId::new("fixture-pad"),
        source_id: SourceId::new("fixture-source"),
        reported_name: "Synthetic Pad".to_owned(),
        identity: DeviceIdentity {
            bus_type: 3,
            vendor_id: 1,
            product_id: 2,
            version: 1,
        },
        transport: Transport::Usb,
        provenance: DeviceProvenance::Physical,
        identity_stability: IdentityStability::ConnectionOnly,
        class: ControllerClass::Gamepad,
        device_path: "/private/path".to_owned(),
        physical_path: Some("private-topology".to_owned()),
        unique_id: Some("private-serial".to_owned()),
        controls: Vec::new(),
    }
}

#[test]
fn replay_isolates_source_errors_and_hot_unplug() {
    let device = device();
    let read_error = CaptureError::new(CaptureErrorKind::Read, "synthetic failure");
    let provider = ReplayProvider::new(
        vec![
            Ok(DiscoverySnapshot {
                devices: vec![device.clone()],
                issues: Vec::new(),
            }),
            Ok(DiscoverySnapshot::default()),
        ],
        vec![(
            device.source_id.clone(),
            ReplaySourcePlan::new(CaptureAccess::Shared, vec![Err(read_error.clone())]),
        )],
    );
    let mut session = CaptureSession::new(provider, AccessMode::Shared);
    let first = session.poll().unwrap();
    assert!(matches!(first[0], CaptureEvent::Connected { .. }));
    assert!(matches!(first[1], CaptureEvent::SourceError { ref error, .. } if error == &read_error));
    assert!(matches!(
        session.poll().unwrap()[0],
        CaptureEvent::Disconnected { .. }
    ));
}

#[test]
fn sanitized_manifest_keeps_no_private_connection_identifiers() {
    let manifest = FixtureManifest::sanitized(true, &[device()]);
    assert_eq!(manifest.format_version, 1);
    assert!(manifest.synthetic);
    let debug = format!("{manifest:?}");
    assert!(!debug.contains("private-path"));
    assert!(!debug.contains("private-topology"));
    assert!(!debug.contains("private-serial"));
    assert_eq!(manifest.sources.len(), 1);
    assert_eq!(manifest.sources[0].reported_name, "Synthetic Pad");
    assert_eq!(manifest.sources[0].transport, "Usb");
}

#[test]
fn recordings_index_sources_instead_of_naming_them() {
    let descriptor = device();
    let manifest = FixtureManifest::sanitized(true, &[descriptor.clone()]);
    let recording = FixtureRecording::sanitized(
        manifest,
        &[EventBatch {
            source_id: descriptor.source_id.clone(),
            sequence: 3,
            events: vec![NativeEvent {
                timestamp: Timestamp::unix_epoch(),
                event_type: 3,
                code: 1,
                value: 42,
            }],
        }],
        &[(descriptor.source_id.clone(), 0)],
    );
    assert_eq!(recording.frames[0].source_index, 0);
    assert_eq!(recording.frames[0].events[0].value, 42);
    assert!(!format!("{recording:?}").contains("fixture-source"));
}

#[test]
fn replay_without_a_plan_fails_to_open() {
    let device = device();
    let provider = ReplayProvider::new(
        vec![Ok(DiscoverySnapshot {
            devices: vec![device.clone()],
            issues: Vec::new(),
        })],
        Vec::new(),
    );
    let mut session = CaptureSession::new(provider, AccessMode::Shared);
    let events = session.poll().unwrap();
    assert!(matches!(&events[0], CaptureEvent::SourceError { .. }));
    assert!(session.connected_devices().is_empty());
}

#[test]
fn replay_scans_come_in_order_then_empty() {
    let snapshot = || DiscoverySnapshot {
        devices: vec![device()],
        issues: Vec::new(),
    };
    let failure = CaptureError::new(CaptureErrorKind::Enumeration, "scan failed");
    let mut provider = ReplayProvider::new(vec![Ok(snapshot()), Err(failure.clone())], Vec::new());
    assert_eq!(provider.enumerate(), Ok(snapshot()));
    assert_eq!(provider.enumerate(), Err(failure));
    assert_eq!(provider.enumerate(), Ok(DiscoverySnapshot::default()));
    assert_eq!(provider.enumerate(), Ok(DiscoverySnapshot::default()));
}

#[test]
fn replay_opens_hand_out_plans_in_order_then_fail() {
    let device = device();
    let mut provider = ReplayProvider::new(
        Vec::new(),
        vec![
            (
                device.source_id.clone(),
                ReplaySourcePlan::new(CaptureAccess::Exclusive, Vec::new()),
            ),
            (
                device.source_id.clone(),
                ReplaySourcePlan::new(CaptureAccess::Shared, Vec::new()),
            ),
        ],
    );
    let first = provider.open(&device, AccessMode::Shared).ok().unwrap();
    assert_eq!(first.access(), CaptureAccess::Exclusive);
    let second = provider.open(&device, AccessMode::Shared).ok().unwrap();
    assert_eq!(second.access(), CaptureAccess::Shared);
    let error = provider.open(&device, AccessMode::Shared).err().unwrap();
    assert_eq!(error.kind, CaptureErrorKind::Open);
    assert_eq!(error.message, "source replay plan was exhausted");
}

#[test]
fn a_replayed_source_hands_out_its_plan_reads_in_order_then_nothing() {
    let device = device();
    let batch = EventBatch {
        source_id: device.source_id.clone(),
        sequence: 7,
        events: Vec::new(),
    };
    let failure = CaptureError::new(CaptureErrorKind::Read, "synthetic failure");
    let plan = ReplaySourcePlan::new(
        CaptureAccess::Shared,
        vec![Ok(vec![batch.clone()]), Err(failure.clone())],
    );
    assert_eq!(plan.reads.len(), 2);
    let mut provider = ReplayProvider::new(Vec::new(), vec![(device.source_id.clone(), plan)]);
    let mut source = provider.open(&device, AccessMode::Shared).ok().unwrap();
    assert_eq!(source.read_batches(), Ok(vec![batch]));
    assert_eq!(source.read_batches(), Err(failure));
    assert_eq!(source.read_batches(), Ok(Vec::new()));
    assert_eq!(source.read_batches(), Ok(Vec::new()));
}
