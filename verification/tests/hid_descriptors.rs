use gamepad_capture::hid::{
    frame_report, pair_endpoint, parse_items, EndpointEvidence, EndpointFixture, EndpointPairing,
    FixtureDeviceIdentity, HidDescriptor, HidDescriptorError, HidFixture, HidParseError,
    HidReportError, HidReportFrame, HidReportType, HidValidationError, TransportFixture,
    MAX_COLLECTION_DEPTH,
};
use gamepad_capture::model::Transport;

fn descriptor() -> Vec<u8> {
    vec![
        0x05, 0x01, // Usage Page (Generic Desktop)
        0x09, 0x05, // Usage (Game Pad)
        0xa1, 0x01, // Collection (Application)
        0x85, 0x01, // Report ID 1
        0x75, 0x08, // Report Size 8
        0x95, 0x02, // Report Count 2
        0x09, 0x30, // Usage X
        0x09, 0x31, // Usage Y
        0x81, 0x02, // Input (Data,Var,Abs)
        0xc0, // End Collection
    ]
}

fn endpoint(fixture_index: usize, topology: Option<u64>) -> EndpointFixture {
    EndpointFixture {
        fixture_index,
        evidence: EndpointEvidence {
            identity: FixtureDeviceIdentity {
                bus_type: 3,
                vendor_id: 1,
                product_id: 2,
                version: 1,
            },
            transport: TransportFixture::Usb,
            topology_token: topology,
            connection_token: None,
        },
    }
}

#[test]
fn parses_lossless_short_and_long_items() {
    let items = parse_items(&[0x05, 0x01, 0xfe, 0x02, 0x99, 0xaa, 0xbb]).unwrap();
    assert_eq!(items.len(), 2);
    assert_eq!(items[1].offset, 2);
    assert_eq!(items[1].data, vec![0xaa, 0xbb]);
}

#[test]
fn rejects_truncated_items() {
    assert!(matches!(
        parse_items(&[0x75]),
        Err(HidParseError::TruncatedShortItem { .. })
    ));
    assert!(matches!(
        parse_items(&[0xfe, 2]),
        Err(HidParseError::TruncatedLongItem { .. })
    ));
}

#[test]
fn builds_report_layout_and_retains_trailing_bytes() {
    let parsed = HidDescriptor::parse(&descriptor()).unwrap();
    assert_eq!(parsed.layouts[0].payload_bits, 16);
    assert!(parsed.layouts[0].fields[0].variable);
    assert_eq!(parsed.layouts[0].fields[0].usages, [0x0001_0030, 0x0001_0031]);
    let frame = HidReportFrame {
        report_type: HidReportType::Input,
        bytes: vec![1, 10, 20, 30],
    };
    let framed = frame_report(&parsed, &frame).unwrap();
    assert_eq!(framed.payload, [10, 20]);
    assert_eq!(framed.trailing, [30]);
}

#[test]
fn detects_invalid_global_and_collection_state() {
    assert!(matches!(
        HidDescriptor::parse(&[0xb4]),
        Err(HidDescriptorError::Validation(HidValidationError::GlobalPopUnderflow { .. }))
    ));
    assert!(matches!(
        HidDescriptor::parse(&[0xa4]),
        Err(HidDescriptorError::Validation(HidValidationError::UnclosedGlobalPush { .. }))
    ));
    assert!(matches!(
        HidDescriptor::parse(&[0xc0]),
        Err(HidDescriptorError::Validation(HidValidationError::CollectionEndWithoutStart { .. }))
    ));
    assert!(matches!(
        HidDescriptor::parse(&[0x85, 0]),
        Err(HidDescriptorError::Validation(HidValidationError::ZeroReportId { .. }))
    ));
    assert!(matches!(
        HidDescriptor::parse(&[0x95, 1, 0x81, 2]),
        Err(HidDescriptorError::Validation(HidValidationError::MissingReportSize { .. }))
    ));
    assert!(matches!(
        HidDescriptor::parse(&[0x75, 8, 0x81, 2]),
        Err(HidDescriptorError::Validation(HidValidationError::MissingReportCount { .. }))
    ));
    assert!(matches!(
        HidDescriptor::parse(&[0x77, 0xff, 0xff, 0xff, 0xff, 0x95, 2, 0x81, 2]),
        Err(HidDescriptorError::Validation(HidValidationError::ArithmeticOverflow { .. }))
    ));
    let excessive_collections = [0xa1, 1].repeat(MAX_COLLECTION_DEPTH + 1);
    assert!(matches!(
        HidDescriptor::parse(&excessive_collections),
        Err(HidDescriptorError::Validation(HidValidationError::CollectionDepthExceeded { .. }))
    ));
}

#[test]
fn rejects_unknown_and_short_reports() {
    let parsed = HidDescriptor::parse(&descriptor()).unwrap();
    assert!(matches!(
        frame_report(
            &parsed,
            &HidReportFrame {
                report_type: HidReportType::Input,
                bytes: vec![]
            }
        ),
        Err(HidReportError::MissingReportId)
    ));
    assert!(matches!(
        frame_report(
            &parsed,
            &HidReportFrame {
                report_type: HidReportType::Input,
                bytes: vec![2, 0, 0]
            }
        ),
        Err(HidReportError::UnknownReportId { .. })
    ));
}

#[test]
fn preserves_array_fields_without_gamepad_mapping() {
    let descriptor = HidDescriptor::parse(&[0x75, 8, 0x95, 1, 0x81, 0]).unwrap();
    assert!(!descriptor.layouts[0].fields[0].variable);
    assert!(descriptor.layouts[0].fields[0].usages.is_empty());
}

#[test]
fn pairing_is_deterministic_and_reports_ambiguity() {
    let hid = endpoint(0, Some(7));
    assert_eq!(
        pair_endpoint(&hid, &[endpoint(1, Some(7))]),
        EndpointPairing::Unique { evdev_index: 1 }
    );
    assert_eq!(
        pair_endpoint(&endpoint(0, None), &[endpoint(2, None), endpoint(1, None)]),
        EndpointPairing::Ambiguous {
            evdev_indices: vec![1, 2]
        }
    );
    assert_eq!(
        pair_endpoint(
            &hid,
            &[EndpointFixture {
                fixture_index: 1,
                evidence: EndpointEvidence {
                    transport: TransportFixture::Bluetooth,
                    ..endpoint(1, Some(8)).evidence
                },
            }]
        ),
        EndpointPairing::Unmatched
    );
}

#[test]
fn short_report_names_expected_and_actual_lengths() {
    let parsed = HidDescriptor::parse(&descriptor()).unwrap();
    let error = frame_report(
        &parsed,
        &HidReportFrame {
            report_type: HidReportType::Input,
            bytes: vec![1, 10],
        },
    )
    .unwrap_err();
    assert_eq!(
        error,
        HidReportError::ShortReport {
            expected: 2,
            actual: 1
        }
    );
    assert_eq!(
        error.display_text(),
        "invalid HID report: ShortReport { expected: 2, actual: 1 }"
    );
}

#[test]
fn descriptor_errors_display_their_offsets() {
    let error = HidDescriptor::parse(&[0x75]).unwrap_err();
    assert_eq!(
        error,
        HidDescriptorError::Parse(HidParseError::TruncatedShortItem {
            offset: 0,
            expected: 1
        })
    );
    assert_eq!(error.display_text(), "short HID item at 0 needs 1 data bytes");
    let error = HidDescriptor::parse(&[0xb4]).unwrap_err();
    assert_eq!(
        error.display_text(),
        "invalid HID descriptor: GlobalPopUnderflow { offset: 0 }"
    );
}

#[test]
fn unknown_report_id_is_named() {
    let parsed = HidDescriptor::parse(&descriptor()).unwrap();
    let error = frame_report(
        &parsed,
        &HidReportFrame {
            report_type: HidReportType::Input,
            bytes: vec![2, 0, 0],
        },
    )
    .unwrap_err();
    assert_eq!(
        error.display_text(),
        "invalid HID report: UnknownReportId { report_type: Input, report_id: 2 }"
    );
}

#[test]
fn layout_lookup_finds_declared_reports_only() {
    let parsed = HidDescriptor::parse(&descriptor()).unwrap();
    let layout = parsed.layout(HidReportType::Input, 1).unwrap();
    assert_eq!(layout.minimum_payload_bytes(), 2);
    assert!(parsed.layout(HidReportType::Output, 1).is_none());
    assert!(parsed.layout(HidReportType::Input, 2).is_none());
}

#[test]
fn fixture_constructor_keeps_evidence_and_version() {
    let fixture = HidFixture::new(true, descriptor(), Vec::new(), endpoint(0, None), Vec::new());
    assert_eq!(fixture.format_version, 1);
    assert!(fixture.synthetic);
    assert_eq!(fixture.descriptor, descriptor());
    assert_eq!(fixture.hid_endpoint, endpoint(0, None));
}

#[test]
fn transports_keep_their_fixture_kind_only() {
    assert_eq!(TransportFixture::from(Transport::Usb), TransportFixture::Usb);
    assert_eq!(TransportFixture::from(Transport::Other(9)), TransportFixture::Other);
    assert_eq!(TransportFixture::from(Transport::Unknown), TransportFixture::Unknown);
}

#[test]
fn item_and_validation_errors_display_themselves() {
    let parse = parse_items(&[0xfe, 2]).unwrap_err();
    assert_eq!(parse.display_text(), "long HID item at 0 needs 2 data bytes");
    let validation = HidValidationError::UnclosedCollection { depth: 2 };
    assert_eq!(
        validation.display_text(),
        "invalid HID descriptor: UnclosedCollection { depth: 2 }"
    );
}
