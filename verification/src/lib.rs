//! Native gamepad capture: device identity, passive profile detection,
//! hotplug session reconciliation, sanitized replay fixtures, HID descriptor
//! framing, Linux evdev frame assembly and the tester's state model.

#![allow(unused_imports)]

use vstd::prelude::*;

pub mod text;
pub mod model;
pub mod sorting;
pub mod hid;
pub mod profile;
pub mod session;
pub mod identity;
pub mod replay;
pub mod tester;
pub mod linux;
pub mod capture_loop;

pub use capture_loop::{CaptureLoop, LoopControl, PollKind, SendOutcome};
pub use identity::{build_physical_id, build_source_id};
pub use model::{
    AbsoluteAxisInfo, AccessMode, CaptureAccess, CaptureError, CaptureErrorKind, CaptureEvent,
    ControlDescriptor, ControllerClass, DeviceDescriptor, DeviceIdentity, DeviceProvenance,
    DiscoveryIssue, DiscoverySnapshot, EventBatch, IdentityStability, NativeEvent, PhysicalDeviceId,
    SourceId, Timestamp, Transport,
};
pub use profile::{
    AutoProfileDetector, CaptureProfile, CaptureProfileFamily, DetectionConfidence,
    DeviceProfileAssignment, ProfileCandidate, ProfileEvidence, ProfileId, ProfileMatch,
    ProfileSelection, ProfileSelectionMode,
};
pub use replay::{
    FixtureFrame, FixtureManifest, FixtureNativeEvent, FixtureRecording, FixtureSource,
    ReplayProvider, ReplaySourcePlan,
};
pub use session::{CaptureProvider, CaptureSession, EventSource};

verus! {
} // verus!
