use std::time::Duration;

use gamepad_capture::hid::{
    EndpointEvidence, EndpointFixture, FixtureDeviceIdentity, HidFixture, HidReportFrame,
    HidReportType, TransportFixture,
};
use gamepad_capture::tester::{
    omitted_events_notice, synthetic_device, xbox_button_label, AccessChoice, LatencySummary,
    TesterState, TesterTiming, XboxDisplayButton, MAX_RETAINED_FRAMES, MAX_RETAINED_LOG_ENTRIES,
    MAX_TIMING_SAMPLES,
};
use gamepad_capture::{
    AbsoluteAxisInfo, AccessMode, CaptureAccess, CaptureError, CaptureErrorKind, CaptureEvent,
    ControlDescriptor, ControllerClass, DeviceDescriptor, DeviceIdentity, DeviceProvenance,
    DiscoveryIssue, EventBatch, IdentityStability, NativeEvent, PhysicalDeviceId, ProfileId,
    SourceId, Timestamp, Transport,
};

fn device() -> DeviceDescriptor {
    DeviceDescriptor {
        physical_id: PhysicalDeviceId::new("pad"),
        source_id: SourceId::new("source"),
        reported_name: "Pad".into(),
        identity: DeviceIdentity {
            bus_type: 3,
            vendor_id: 1,
            product_id: 2,
            version: 1,
        },
        transport: Transport::Usb,
        provenance: DeviceProvenance::Physical,
        identity_stability: IdentityStability::ConnectionOnly,
        class: ControllerClass::Gamepad,
        device_path: String::new(),
        physical_path: None,
        unique_id: None,
        controls: Vec::new(),
    }
}

fn xbox_device() -> DeviceDescriptor {
    let mut device = device();
    device.controls = [304, 305, 307, 308]
        .into_iter()
        .map(|code| ControlDescriptor::Key {
            code,
            name: format!("key-{code}"),
        })
        .chain([0, 1, 3, 4, 0x10, 0x11, 2, 5].into_iter().map(|code| {
            ControlDescriptor::AbsoluteAxis {
                code,
                name: format!("axis-{code}"),
                info: AbsoluteAxisInfo {
                    minimum: if code >= 0x10 { -1 } else { -32_768 },
                    maximum: if code >= 0x10 { 1 } else { 32_767 },
                    current: 0,
                    fuzz: 0,
                    flat: 0,
                    resolution: 0,
                },
            }
        }))
        .collect();
    device
}

fn event(event_type: u16, code: u16, value: i32) -> NativeEvent {
    NativeEvent {
        timestamp: Timestamp::unix_epoch(),
        event_type,
        code,
        value,
    }
}

#[test]
fn state_keeps_raw_values_and_clears_them_on_disconnect() {
    let device = device();
    let source = device.source_id.clone();
    let mut state = TesterState::default();
    state.apply(CaptureEvent::Connected {
        device: device.clone(),
        access: CaptureAccess::Shared,
    });
    state.apply(CaptureEvent::Input(EventBatch {
        source_id: source.clone(),
        sequence: 7,
        events: vec![event(3, 0, -123)],
    }));
    assert_eq!(state.value(&source, 3, 0), Some(-123));
    assert_eq!(state.frames().len(), 1);
    state.apply(CaptureEvent::Disconnected {
        source_id: source,
        physical_id: device.physical_id,
    });
    assert!(state.sources().is_empty());
    assert!(state.values().is_empty());
}

#[test]
fn native_view_tracks_raw_values_and_selected_source() {
    let device = xbox_device();
    let source = device.source_id.clone();
    let mut state = TesterState::default();
    state.apply(CaptureEvent::Connected {
        device,
        access: CaptureAccess::Shared,
    });
    state.apply(CaptureEvent::Input(EventBatch {
        source_id: source.clone(),
        sequence: 1,
        events: vec![event(1, 304, 1), event(3, 0x10, -1), event(3, 0x11, 1)],
    }));
    let view = state.native_input_view().unwrap();
    assert_eq!(view.source_id, source);
    assert_eq!(view.keys.iter().find(|key| key.code == 304).unwrap().value, 1);
    assert_eq!(view.dpad, Some((-1, 1)));
    assert_eq!(view.recent_frame_count, 1);
}

#[test]
fn xbox_display_is_shape_gated_and_does_not_change_raw_evidence() {
    let mut state = TesterState::default();
    state.apply(CaptureEvent::Connected {
        device: device(),
        access: CaptureAccess::Shared,
    });
    assert!(state.xbox_display_view().is_none());
    let mut device = xbox_device();
    device.source_id = SourceId::new("xbox-source");
    let source = device.source_id.clone();
    state.apply(CaptureEvent::Connected {
        device,
        access: CaptureAccess::Shared,
    });
    state.select_source(Some(source.clone()));
    state.apply(CaptureEvent::Input(EventBatch {
        source_id: source.clone(),
        sequence: 2,
        events: vec![event(1, 304, 1)],
    }));
    let before = state.values().to_vec();
    let display = state.xbox_display_view().unwrap();
    assert_eq!(display.source_id, source);
    assert_eq!(display.buttons[0], (XboxDisplayButton::South, 1));
    assert_eq!(state.values(), before.as_slice());
}

#[test]
fn state_keeps_source_errors_without_discarding_other_evidence() {
    let device = device();
    let source = device.source_id.clone();
    let mut state = TesterState::default();
    state.apply(CaptureEvent::Connected {
        device,
        access: CaptureAccess::SharedFallback,
    });
    state.apply(CaptureEvent::SourceError {
        source_id: source.clone(),
        error: CaptureError::new(CaptureErrorKind::Read, "fixture failure"),
    });
    assert!(state.source(&source).is_some());
    assert!(state.log().iter().any(|entry| entry.contains("fixture failure")));
}

#[test]
fn state_retains_bounded_recent_frames_and_log_entries() {
    let device = device();
    let source = device.source_id.clone();
    let mut state = TesterState::default();
    state.apply(CaptureEvent::Connected {
        device,
        access: CaptureAccess::Shared,
    });
    let frame_limit = u64::try_from(MAX_RETAINED_FRAMES).expect("limit fits in u64");
    for sequence in 0..=frame_limit {
        state.apply(CaptureEvent::Input(EventBatch {
            source_id: source.clone(),
            sequence,
            events: Vec::new(),
        }));
    }
    assert_eq!(state.frames().len(), MAX_RETAINED_FRAMES);
    assert_eq!(state.frames().first().map(|frame| frame.sequence), Some(1));
    assert_eq!(
        state.frames().last().map(|frame| frame.sequence),
        Some(frame_limit)
    );

    for index in 0..=MAX_RETAINED_LOG_ENTRIES {
        state.apply(CaptureEvent::SourceError {
            source_id: source.clone(),
            error: CaptureError::new(CaptureErrorKind::Read, &index.to_string()),
        });
    }
    assert_eq!(state.log().len(), MAX_RETAINED_LOG_ENTRIES);
    assert!(state.log().first().is_some_and(|entry| entry.ends_with('1')));
    assert!(state
        .log()
        .last()
        .is_some_and(|entry| entry.ends_with(MAX_RETAINED_LOG_ENTRIES.to_string().as_str())));
}

#[test]
fn timing_summaries_are_bounded_and_percentile_ordered() {
    let mut timing = TesterTiming::default();
    assert_eq!(timing.capture_core(), None);
    assert_eq!(timing.queue_to_gui(), None);
    for micros in 0..=MAX_TIMING_SAMPLES {
        timing.record_capture_core(
            Duration::from_micros(u64::try_from(micros).expect("sample count fits u64")).as_micros(),
        );
    }
    let summary = timing.capture_core().expect("samples were recorded");
    assert_eq!(summary.samples, MAX_TIMING_SAMPLES);
    assert_eq!(summary.p50_micros, 128);
    assert_eq!(summary.p95_micros, 243);
    assert_eq!(summary.max_micros, 256);
    assert!(summary.p50_micros <= summary.p95_micros);
    assert!(summary.p95_micros <= summary.max_micros);

    timing.record_queue_to_gui(Duration::from_micros(9).as_micros());
    assert_eq!(
        timing.queue_to_gui(),
        Some(LatencySummary {
            samples: 1,
            p50_micros: 9,
            p95_micros: 9,
            max_micros: 9,
        })
    );
}

#[test]
fn forced_preview_retains_automatic_candidates() {
    let device = device();
    let source = device.source_id.clone();
    let mut state = TesterState::default();
    state.apply(CaptureEvent::Connected {
        device,
        access: CaptureAccess::Shared,
    });
    state.force_profile(&source, ProfileId::new("operator-reader"));
    let profile = &state.source(&source).unwrap().profile;
    assert_eq!(
        profile.forced_profile(),
        Some(&ProfileId::new("operator-reader"))
    );
    assert_eq!(profile.automatic().candidates.len(), 1);
    state.clear_forced_profile(&source);
    assert_eq!(state.source(&source).unwrap().profile.forced_profile(), None);
}

#[test]
fn state_keeps_hid_fixture_parse_and_report_errors() {
    let fixture = HidFixture::new(
        true,
        vec![0x75, 8, 0x95, 1, 0x81, 2],
        vec![HidReportFrame {
            report_type: HidReportType::Input,
            bytes: Vec::new(),
        }],
        EndpointFixture {
            fixture_index: 0,
            evidence: EndpointEvidence {
                identity: FixtureDeviceIdentity {
                    bus_type: 3,
                    vendor_id: 1,
                    product_id: 2,
                    version: 1,
                },
                transport: TransportFixture::Usb,
                topology_token: None,
                connection_token: None,
            },
        },
        Vec::new(),
    );
    let mut state = TesterState::default();
    state.apply_hid_fixture(&fixture).unwrap();
    assert_eq!(state.hid().unwrap().layouts.len(), 1);
    assert_eq!(state.hid().unwrap().diagnostics.len(), 1);
}

#[test]
fn log_lines_name_each_event() {
    let device = device();
    let source = device.source_id.clone();
    let mut state = TesterState::default();
    state.apply(CaptureEvent::Connected {
        device: device.clone(),
        access: CaptureAccess::SharedFallback,
    });
    state.apply(CaptureEvent::Input(EventBatch {
        source_id: source.clone(),
        sequence: 42,
        events: Vec::new(),
    }));
    state.apply(CaptureEvent::DiscoveryError(DiscoveryIssue {
        device_path: "/dev/input/event7".to_owned(),
        error: CaptureError::new(CaptureErrorKind::PermissionDenied, "denied"),
    }));
    state.apply(CaptureEvent::Disconnected {
        source_id: source,
        physical_id: device.physical_id,
    });
    assert_eq!(
        state.log(),
        [
            "connected source (SharedFallback)".to_owned(),
            "frame 42 from source".to_owned(),
            "discovery error /dev/input/event7: PermissionDenied: denied".to_owned(),
            "disconnected source".to_owned(),
        ]
    );
}

#[test]
fn first_connection_is_selected_and_reselected_on_disconnect() {
    let mut state = TesterState::default();
    let mut first = device();
    first.source_id = SourceId::new("b");
    let mut second = device();
    second.source_id = SourceId::new("a");
    state.apply(CaptureEvent::Connected {
        device: first,
        access: CaptureAccess::Shared,
    });
    state.apply(CaptureEvent::Connected {
        device: second,
        access: CaptureAccess::Shared,
    });
    assert_eq!(state.selected_source(), Some(&SourceId::new("b")));
    state.apply(CaptureEvent::Disconnected {
        source_id: SourceId::new("b"),
        physical_id: PhysicalDeviceId::new("pad"),
    });
    assert_eq!(state.selected_source(), Some(&SourceId::new("a")));
    state.select_source(Some(SourceId::new("missing")));
    assert_eq!(state.selected_source(), None);
    assert!(state.native_input_view().is_none());
}

#[test]
fn descriptor_errors_are_logged_and_returned() {
    let fixture = HidFixture::new(
        true,
        vec![0x75],
        Vec::new(),
        EndpointFixture {
            fixture_index: 0,
            evidence: EndpointEvidence {
                identity: FixtureDeviceIdentity {
                    bus_type: 3,
                    vendor_id: 1,
                    product_id: 2,
                    version: 1,
                },
                transport: TransportFixture::Usb,
                topology_token: None,
                connection_token: None,
            },
        },
        Vec::new(),
    );
    let mut state = TesterState::default();
    assert!(state.apply_hid_fixture(&fixture).is_err());
    assert!(state.hid().is_none());
    assert_eq!(
        state.log(),
        ["HID descriptor error: short HID item at 0 needs 1 data bytes".to_owned()]
    );
}

#[test]
fn synthetic_replay_frame_shows_its_values() {
    let mut state = TesterState::default();
    state.synthetic_frame();
    let source = synthetic_device().source_id;
    assert_eq!(state.value(&source, 3, 0), Some(-12));
    assert_eq!(state.value(&source, 1, 304), Some(1));
    let view = state.native_input_view().unwrap();
    assert_eq!(view.axes[0].value, -12);
    assert_eq!(view.keys[0].value, 1);
    assert_eq!(view.dpad, None);
    state.synthetic_hid_fixture(Err("missing fixture".to_owned()));
    assert_eq!(
        state.log().last().map(String::as_str),
        Some("source error synthetic-hid-fixture: InvalidDevice: missing fixture")
    );
}

#[test]
fn access_choices_map_to_modes_and_labels_are_stable() {
    assert_eq!(AccessChoice::default().access_mode(), AccessMode::Shared);
    assert_eq!(AccessChoice::PreferExclusive.access_mode(), AccessMode::PreferExclusive);
    assert_eq!(AccessChoice::Exclusive.access_mode(), AccessMode::Exclusive);
    assert_eq!(xbox_button_label(XboxDisplayButton::South), "A");
    assert_eq!(xbox_button_label(XboxDisplayButton::North), "Y");
    assert_eq!(xbox_button_label(XboxDisplayButton::Guide), "Guide");
}

#[test]
fn omitted_display_events_are_counted_in_a_notice() {
    let notice = omitted_events_notice(3);
    assert!(matches!(
        notice,
        CaptureEvent::SourceError { ref source_id, ref error }
            if source_id.as_str() == "tester-display-queue"
                && error.kind == CaptureErrorKind::Read
                && error.message == "tester display queue omitted 3 complete event(s)"
    ));
}

#[test]
fn forcing_repeatedly_then_clearing_restores_the_automatic_selection() {
    let device = device();
    let source = device.source_id.clone();
    let mut state = TesterState::default();
    state.apply(CaptureEvent::Connected {
        device,
        access: CaptureAccess::Shared,
    });
    let automatic = state.source(&source).unwrap().profile.automatic().clone();
    let log_len = state.log().len();
    state.force_profile(&source, ProfileId::new("reader-a"));
    state.force_profile(&source, ProfileId::new("reader-b"));
    let profile = &state.source(&source).unwrap().profile;
    assert_eq!(profile.forced_profile(), Some(&ProfileId::new("reader-b")));
    assert_eq!(profile.automatic(), &automatic);
    state.clear_forced_profile(&source);
    let profile = &state.source(&source).unwrap().profile;
    assert_eq!(profile.forced_profile(), None);
    assert_eq!(profile.automatic(), &automatic);
    assert_eq!(state.log().len(), log_len + 3);

    let unknown = SourceId::new("not-connected");
    state.force_profile(&unknown, ProfileId::new("reader-a"));
    state.clear_forced_profile(&unknown);
    assert_eq!(state.log().len(), log_len + 3);
    assert!(state.source(&unknown).is_none());
}

#[test]
fn timing_summaries_cover_only_the_last_256_records() {
    let mut timing = TesterTiming::default();
    for micros in 0..300_u128 {
        timing.record_capture_core(micros);
    }
    assert_eq!(
        timing.capture_core(),
        Some(LatencySummary {
            samples: 256,
            p50_micros: 44 + 127,
            p95_micros: 44 + 242,
            max_micros: 299,
        })
    );
    assert_eq!(timing.gui_update(), None);
}
