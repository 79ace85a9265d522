use gamepad_capture::model::{
    ControllerClass, DeviceDescriptor, DeviceIdentity, DeviceProvenance, IdentityStability,
    PhysicalDeviceId, SourceId, Transport,
};
use gamepad_capture::profile::{
    AutoProfileDetector, CaptureProfile, CaptureProfileFamily, DetectionConfidence,
    DeviceProfileAssignment, ProfileEvidence, ProfileId, ProfileMatch,
};

fn device(vendor_id: u16, product_id: u16) -> DeviceDescriptor {
    DeviceDescriptor {
        physical_id: PhysicalDeviceId::new("physical"),
        source_id: SourceId::new("source"),
        reported_name: "fixture".into(),
        identity: DeviceIdentity {
            bus_type: 3,
            vendor_id,
            product_id,
            version: 1,
        },
        transport: Transport::Usb,
        provenance: DeviceProvenance::Physical,
        identity_stability: IdentityStability::ConnectionOnly,
        class: ControllerClass::Gamepad,
        device_path: "/fixture".to_owned(),
        physical_path: None,
        unique_id: None,
        controls: Vec::new(),
    }
}

#[test]
fn exact_profile_is_preferred_but_sdl_remains_visible() {
    let detector = AutoProfileDetector::new(
        vec![CaptureProfile {
            id: ProfileId::new("sony-dualsense-usb"),
            family: CaptureProfileFamily::Native,
            matches: vec![ProfileMatch {
                vendor_id: Some(0x054c),
                product_id: Some(0x0ce6),
                transport: Some(Transport::Usb),
            }],
        }],
        ProfileId::new("sdl-joystick"),
    );
    let selection = detector.detect(&device(0x054c, 0x0ce6));
    assert_eq!(selection.selected.profile_id.as_str(), "sony-dualsense-usb");
    assert_eq!(selection.selected.confidence, DetectionConfidence::Strong);
    assert!(selection
        .candidates
        .iter()
        .any(|candidate| candidate.profile_id.as_str() == "sdl-joystick"));
}

#[test]
fn unknown_device_falls_back_to_sdl_joystick() {
    let detector = AutoProfileDetector::new(Vec::new(), ProfileId::new("sdl-joystick"));
    let selection = detector.detect(&device(0xffff, 0x0001));
    assert_eq!(selection.selected.family, CaptureProfileFamily::SdlJoystick);
    assert_eq!(selection.selected.confidence, DetectionConfidence::Fallback);
}

#[test]
fn output_profile_is_independent_of_capture_choice() {
    let automatic = AutoProfileDetector::new(Vec::new(), ProfileId::new("sdl-joystick"))
        .detect(&device(0xffff, 0x0001));
    let assignment = DeviceProfileAssignment {
        capture: automatic.force(ProfileId::new("sdl-joystick")),
        requested_output_profile: Some(ProfileId::new("dualsense")),
    };
    assert_eq!(assignment.capture.forced_profile().unwrap().as_str(), "sdl-joystick");
    assert_eq!(
        assignment.capture.automatic().selected.profile_id.as_str(),
        "sdl-joystick"
    );
    assert_eq!(assignment.requested_output_profile.unwrap().as_str(), "dualsense");
}

#[test]
fn transport_specific_profiles_are_selected_only_for_matching_transport() {
    let detector = AutoProfileDetector::new(
        vec![
            CaptureProfile {
                id: ProfileId::new("usb"),
                family: CaptureProfileFamily::Protocol,
                matches: vec![ProfileMatch {
                    vendor_id: Some(1),
                    product_id: Some(2),
                    transport: Some(Transport::Usb),
                }],
            },
            CaptureProfile {
                id: ProfileId::new("bluetooth"),
                family: CaptureProfileFamily::Protocol,
                matches: vec![ProfileMatch {
                    vendor_id: Some(1),
                    product_id: Some(2),
                    transport: Some(Transport::Bluetooth),
                }],
            },
        ],
        ProfileId::new("sdl-joystick"),
    );
    let mut bluetooth = device(1, 2);
    bluetooth.transport = Transport::Bluetooth;
    let selection = detector.detect(&bluetooth);
    assert_eq!(selection.selected.profile_id.as_str(), "bluetooth");
    assert_eq!(selection.candidates.len(), 2);
}

#[test]
fn ties_are_sorted_and_remain_ambiguous_to_the_caller() {
    let detector = AutoProfileDetector::new(
        vec!["zeta", "alpha"]
            .into_iter()
            .map(|id| CaptureProfile {
                id: ProfileId::new(id),
                family: CaptureProfileFamily::Protocol,
                matches: vec![ProfileMatch {
                    vendor_id: Some(1),
                    product_id: Some(2),
                    transport: None,
                }],
            })
            .collect(),
        ProfileId::new("sdl-joystick"),
    );
    let selection = detector.detect(&device(1, 2));
    assert_eq!(selection.selected.profile_id.as_str(), "alpha");
    assert_eq!(
        selection
            .candidates
            .iter()
            .map(|candidate| candidate.profile_id.as_str())
            .collect::<Vec<_>>(),
        vec!["alpha", "zeta", "sdl-joystick"]
    );
}

#[test]
fn passive_detector_never_claims_verified_evidence() {
    let detector = AutoProfileDetector::new(
        vec![CaptureProfile {
            id: ProfileId::new("exact"),
            family: CaptureProfileFamily::Native,
            matches: vec![ProfileMatch {
                vendor_id: Some(1),
                product_id: Some(2),
                transport: Some(Transport::Usb),
            }],
        }],
        ProfileId::new("sdl-joystick"),
    );
    assert!(detector
        .detect(&device(1, 2))
        .candidates
        .iter()
        .all(|candidate| candidate.confidence != DetectionConfidence::Verified));
}

#[test]
fn identity_only_rules_are_tentative_and_carry_their_evidence() {
    let detector = AutoProfileDetector::new(
        vec![
            CaptureProfile {
                id: ProfileId::new("vendor-only"),
                family: CaptureProfileFamily::GenericHid,
                matches: vec![ProfileMatch {
                    vendor_id: Some(1),
                    product_id: None,
                    transport: None,
                }],
            },
            CaptureProfile {
                id: ProfileId::new("unconstrained"),
                family: CaptureProfileFamily::GenericHid,
                matches: vec![ProfileMatch::default()],
            },
        ],
        ProfileId::new("sdl-joystick"),
    );
    let selection = detector.detect(&device(1, 9));
    assert_eq!(selection.selected.profile_id.as_str(), "vendor-only");
    assert_eq!(selection.selected.confidence, DetectionConfidence::Tentative);
    assert_eq!(selection.selected.evidence, vec![ProfileEvidence::IdentityMatch]);
    assert_eq!(selection.candidates.len(), 2);
    assert_eq!(
        selection.candidates[1].evidence,
        vec![ProfileEvidence::GenericFallback]
    );
}

#[test]
fn transport_evidence_names_the_transport() {
    let detector = AutoProfileDetector::new(
        vec![CaptureProfile {
            id: ProfileId::new("exact"),
            family: CaptureProfileFamily::Native,
            matches: vec![ProfileMatch {
                vendor_id: Some(1),
                product_id: Some(2),
                transport: Some(Transport::Usb),
            }],
        }],
        ProfileId::new("sdl-joystick"),
    );
    let selection = detector.detect(&device(1, 2));
    assert_eq!(
        selection.selected.evidence,
        vec![
            ProfileEvidence::IdentityMatch,
            ProfileEvidence::TransportMatch(Transport::Usb)
        ]
    );
}

#[test]
fn the_most_specific_matching_profile_is_selected() {
    let profile = |id: &str, transport: Option<Transport>| CaptureProfile {
        id: ProfileId::new(id),
        family: CaptureProfileFamily::Protocol,
        matches: vec![ProfileMatch {
            vendor_id: Some(1),
            product_id: Some(2),
            transport,
        }],
    };
    let detector = AutoProfileDetector::new(
        vec![profile("a", None), profile("b", Some(Transport::Usb))],
        ProfileId::new("sdl-joystick"),
    );
    let selection = detector.detect(&device(1, 2));
    assert_eq!(selection.selected.profile_id.as_str(), "b");
    assert_eq!(
        selection
            .candidates
            .iter()
            .map(|candidate| candidate.profile_id.as_str())
            .collect::<Vec<_>>(),
        vec!["b", "a", "sdl-joystick"]
    );
    assert_eq!(selection.candidates[1].confidence, DetectionConfidence::Strong);
}
