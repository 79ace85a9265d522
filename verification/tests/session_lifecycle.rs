use std::cell::RefCell;
use std::collections::VecDeque;
use std::rc::Rc;

use gamepad_capture::{
    AccessMode, CaptureAccess, CaptureError, CaptureErrorKind, CaptureEvent, CaptureProvider,
    CaptureSession, ControllerClass, DeviceDescriptor, DeviceIdentity, DeviceProvenance,
    DiscoveryIssue, DiscoverySnapshot, EventBatch, EventSource, IdentityStability,
    PhysicalDeviceId, SourceId, Transport,
};

struct FakeSource {
    access: CaptureAccess,
    reads: VecDeque<Result<Vec<EventBatch>, CaptureError>>,
}

impl EventSource for FakeSource {
    fn access(&self) -> CaptureAccess {
        self.access
    }

    fn read_batches(&mut self) -> Result<Vec<EventBatch>, CaptureError> {
        self.reads.pop_front().unwrap_or_else(|| Ok(Vec::new()))
    }
}

struct FakeProvider {
    scans: VecDeque<Vec<DeviceDescriptor>>,
    fail_open: bool,
    access: CaptureAccess,
}

impl CaptureProvider for FakeProvider {
    fn enumerate(&mut self) -> Result<DiscoverySnapshot, CaptureError> {
        Ok(DiscoverySnapshot {
            devices: self.scans.pop_front().unwrap_or_default(),
            issues: Vec::new(),
        })
    }

    fn open(
        &mut self,
        _device: &DeviceDescriptor,
        mode: AccessMode,
    ) -> Result<Box<dyn EventSource>, CaptureError> {
        if self.fail_open {
            return Err(CaptureError::new(CaptureErrorKind::ExclusiveGrab, "busy"));
        }
        Ok(Box::new(FakeSource {
            access: if mode == AccessMode::Shared {
                CaptureAccess::Shared
            } else {
                self.access
            },
            reads: VecDeque::new(),
        }))
    }
}

fn device() -> DeviceDescriptor {
    DeviceDescriptor {
        physical_id: PhysicalDeviceId::new("pad"),
        source_id: SourceId::new("pad:source:1"),
        reported_name: "Test Pad".to_owned(),
        identity: DeviceIdentity {
            bus_type: 3,
            vendor_id: 1,
            product_id: 2,
            version: 1,
        },
        transport: Transport::Usb,
        provenance: DeviceProvenance::Physical,
        identity_stability: IdentityStability::ConnectionOnly,
        class: ControllerClass::Gamepad,
        device_path: "/dev/input/event1".to_owned(),
        physical_path: None,
        unique_id: None,
        controls: Vec::new(),
    }
}

#[test]
fn lifecycle_emits_connect_then_disconnect_once() {
    let pad = device();
    let provider = FakeProvider {
        scans: VecDeque::from([vec![pad.clone()], vec![], vec![]]),
        fail_open: false,
        access: CaptureAccess::Exclusive,
    };
    let mut session = CaptureSession::new(provider, AccessMode::Exclusive);
    let first = session.poll().unwrap();
    assert!(matches!(
        &first[0],
        CaptureEvent::Connected { device, access: CaptureAccess::Exclusive }
            if device == &pad
    ));
    assert!(matches!(
        &session.poll().unwrap()[0],
        CaptureEvent::Disconnected { source_id, .. } if source_id == &pad.source_id
    ));
    assert!(session.poll().unwrap().is_empty());
}

#[test]
fn active_poll_does_not_rescan_or_disconnect_an_open_source() {
    let pad = device();
    let provider = FakeProvider {
        scans: VecDeque::from([vec![pad]]),
        fail_open: false,
        access: CaptureAccess::Shared,
    };
    let mut session = CaptureSession::new(provider, AccessMode::Shared);
    assert!(matches!(
        session.poll().unwrap().as_slice(),
        [CaptureEvent::Connected { .. }]
    ));
    assert!(session.poll_active().is_empty());
    assert_eq!(session.connected_devices().len(), 1);
}

#[test]
fn externally_obtained_snapshot_reconciles_without_consuming_provider_discovery() {
    let pad = device();
    let provider = FakeProvider {
        scans: VecDeque::from([vec![pad.clone()]]),
        fail_open: false,
        access: CaptureAccess::Shared,
    };
    let mut session = CaptureSession::new(provider, AccessMode::Shared);

    let reconciled = session.reconcile(DiscoverySnapshot {
        devices: vec![pad],
        issues: Vec::new(),
    });
    assert!(matches!(
        reconciled.as_slice(),
        [CaptureEvent::Connected { .. }]
    ));

    // The queued scan is still there for `poll`: reconciling used only the
    // supplied snapshot.
    assert!(session.poll().unwrap().is_empty());
    assert_eq!(session.connected_devices().len(), 1);
}

#[test]
fn open_failure_is_observable_and_does_not_claim_connection() {
    let provider = FakeProvider {
        scans: VecDeque::from([vec![device()]]),
        fail_open: true,
        access: CaptureAccess::Exclusive,
    };
    let mut session = CaptureSession::new(provider, AccessMode::Exclusive);
    let events = session.poll().unwrap();
    assert!(matches!(
        &events[0],
        CaptureEvent::SourceError { error, .. }
            if error.kind == CaptureErrorKind::ExclusiveGrab
    ));
    assert!(session.connected_devices().is_empty());
}

#[test]
fn duplicate_discovery_entries_open_one_source_once() {
    let pad = device();
    let provider = FakeProvider {
        scans: VecDeque::from([vec![pad.clone(), pad], vec![]]),
        fail_open: false,
        access: CaptureAccess::Exclusive,
    };
    let mut session = CaptureSession::new(provider, AccessMode::Exclusive);
    let events = session.poll().unwrap();
    assert_eq!(
        events
            .iter()
            .filter(|event| matches!(event, CaptureEvent::Connected { .. }))
            .count(),
        1
    );
    assert_eq!(session.connected_devices().len(), 1);
}

#[test]
fn preferred_exclusive_fallback_remains_visible() {
    let provider = FakeProvider {
        scans: VecDeque::from([vec![device()]]),
        fail_open: false,
        access: CaptureAccess::SharedFallback,
    };
    let mut session = CaptureSession::new(provider, AccessMode::PreferExclusive);
    assert!(matches!(
        session.poll().unwrap()[0],
        CaptureEvent::Connected {
            access: CaptureAccess::SharedFallback,
            ..
        }
    ));
}

fn device_with_id(id: &str) -> DeviceDescriptor {
    let mut pad = device();
    pad.source_id = SourceId::new(id);
    pad
}

#[test]
fn reconcile_reports_issues_then_removals_then_opens_in_id_order() {
    let provider = FakeProvider {
        scans: VecDeque::new(),
        fail_open: false,
        access: CaptureAccess::Shared,
    };
    let mut session = CaptureSession::new(provider, AccessMode::Shared);
    let first = session.reconcile(DiscoverySnapshot {
        devices: vec![device_with_id("b"), device_with_id("a")],
        issues: Vec::new(),
    });
    assert_eq!(first.len(), 2);
    let connected: Vec<&str> = session
        .connected_devices()
        .iter()
        .map(|device| device.source_id.as_str())
        .collect();
    assert_eq!(connected, vec!["a", "b"]);
    let second = session.reconcile(DiscoverySnapshot {
        devices: vec![device_with_id("c"), device_with_id("a")],
        issues: vec![DiscoveryIssue {
            device_path: "/dev/input/event9".to_owned(),
            error: CaptureError::new(CaptureErrorKind::PermissionDenied, "denied"),
        }],
    });
    assert_eq!(second.len(), 3);
    assert!(matches!(&second[0], CaptureEvent::DiscoveryError(issue) if issue.device_path == "/dev/input/event9"));
    assert!(matches!(&second[1], CaptureEvent::Disconnected { source_id, .. } if source_id.as_str() == "b"));
    assert!(matches!(&second[2], CaptureEvent::Connected { device, .. } if device.source_id.as_str() == "c"));
    let again = session.reconcile(DiscoverySnapshot {
        devices: vec![device_with_id("c"), device_with_id("a")],
        issues: Vec::new(),
    });
    assert!(again.is_empty());
}

#[test]
fn read_failures_are_isolated_per_source() {
    struct ScriptedProvider;
    impl CaptureProvider for ScriptedProvider {
        fn enumerate(&mut self) -> Result<DiscoverySnapshot, CaptureError> {
            Err(CaptureError::new(CaptureErrorKind::Enumeration, "no scan"))
        }
        fn open(
            &mut self,
            device: &DeviceDescriptor,
            _mode: AccessMode,
        ) -> Result<Box<dyn EventSource>, CaptureError> {
            let reads = if device.source_id.as_str() == "a" {
                VecDeque::from([Err(CaptureError::new(CaptureErrorKind::Read, "gone"))])
            } else {
                VecDeque::from([Ok(vec![EventBatch {
                    source_id: device.source_id.clone(),
                    sequence: 4,
                    events: Vec::new(),
                }])])
            };
            Ok(Box::new(FakeSource {
                access: CaptureAccess::Shared,
                reads,
            }))
        }
    }
    let mut session = CaptureSession::new(ScriptedProvider, AccessMode::Shared);
    let _ = session.reconcile(DiscoverySnapshot {
        devices: vec![device_with_id("b"), device_with_id("a")],
        issues: Vec::new(),
    });
    let events = session.poll_active();
    assert_eq!(events.len(), 2);
    assert!(matches!(&events[0], CaptureEvent::SourceError { source_id, .. } if source_id.as_str() == "a"));
    assert!(matches!(&events[1], CaptureEvent::Input(batch) if batch.sequence == 4));
    let error = session.poll().unwrap_err();
    assert_eq!(error.kind, CaptureErrorKind::Enumeration);
    assert_eq!(session.connected_devices().len(), 2);
    let _provider: ScriptedProvider = session.into_provider();
}

#[test]
fn a_failed_scan_is_returned_as_it_is_and_changes_nothing() {
    let provider = FakeProvider {
        scans: VecDeque::new(),
        fail_open: false,
        access: CaptureAccess::Shared,
    };
    let mut session = CaptureSession::new(provider, AccessMode::Shared);
    let connected = session
        .poll_scanned(Ok(DiscoverySnapshot {
            devices: vec![device()],
            issues: Vec::new(),
        }))
        .unwrap();
    assert!(matches!(connected.as_slice(), [CaptureEvent::Connected { .. }]));
    let error = CaptureError::new(CaptureErrorKind::Enumeration, "scan failed");
    assert_eq!(session.poll_scanned(Err(error.clone())), Err(error));
    assert_eq!(session.connected_devices().len(), 1);
}

#[test]
fn reconcile_opens_each_new_device_once_with_the_session_mode_and_never_scans() {
    struct RecordingProvider {
        calls: Rc<RefCell<Vec<(String, AccessMode)>>>,
        scans: Rc<RefCell<usize>>,
    }
    impl CaptureProvider for RecordingProvider {
        fn enumerate(&mut self) -> Result<DiscoverySnapshot, CaptureError> {
            *self.scans.borrow_mut() += 1;
            Ok(DiscoverySnapshot::default())
        }
        fn open(
            &mut self,
            device: &DeviceDescriptor,
            mode: AccessMode,
        ) -> Result<Box<dyn EventSource>, CaptureError> {
            self.calls
                .borrow_mut()
                .push((device.source_id.as_str().to_owned(), mode));
            if device.source_id.as_str() == "b" {
                return Err(CaptureError::new(CaptureErrorKind::PermissionDenied, "denied"));
            }
            Ok(Box::new(FakeSource {
                access: CaptureAccess::Exclusive,
                reads: VecDeque::new(),
            }))
        }
    }

    let calls = Rc::new(RefCell::new(Vec::new()));
    let scans = Rc::new(RefCell::new(0));
    let provider = RecordingProvider {
        calls: Rc::clone(&calls),
        scans: Rc::clone(&scans),
    };
    let mut session = CaptureSession::new(provider, AccessMode::Exclusive);
    let snapshot = || DiscoverySnapshot {
        devices: vec![device_with_id("a"), device_with_id("b"), device_with_id("a")],
        issues: Vec::new(),
    };
    let events = session.reconcile(snapshot());
    assert_eq!(
        *calls.borrow(),
        vec![
            ("a".to_owned(), AccessMode::Exclusive),
            ("b".to_owned(), AccessMode::Exclusive)
        ]
    );
    assert_eq!(events.len(), 2);
    assert!(matches!(&events[0], CaptureEvent::Connected { device, access: CaptureAccess::Exclusive } if device.source_id.as_str() == "a"));
    assert!(matches!(&events[1], CaptureEvent::SourceError { source_id, error } if source_id.as_str() == "b" && error.kind == CaptureErrorKind::PermissionDenied));

    // "a" stays open and is not opened again; "b" is tried again.
    let again = session.reconcile(snapshot());
    assert_eq!(again.len(), 1);
    assert_eq!(calls.borrow().len(), 3);
    assert_eq!(calls.borrow()[2], ("b".to_owned(), AccessMode::Exclusive));
    assert_eq!(*scans.borrow(), 0);

    // Reading the open sources asks the provider for nothing.
    assert!(session.poll_active().is_empty());
    assert_eq!(calls.borrow().len(), 3);
    assert_eq!(*scans.borrow(), 0);
}
