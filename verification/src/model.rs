//! Native discovery and capture data types.
//!
//! Identifiers are modelled by their characters (`id@`). Composite values that
//! hold vectors are compared in contracts with `equiv`, which compares vectors
//! by their element sequences.

use vstd::prelude::*;

use crate::text::{push_str, str_eq, str_lt, seq_lt};

verus! {

/// Identity for a physical controller. Multiple evdev interfaces may share it.
#[derive(Debug, PartialEq, Eq, PartialOrd, Ord, Hash)]
pub struct PhysicalDeviceId(String);

impl View for PhysicalDeviceId {
    type V = Seq<char>;

    closed spec fn view(&self) -> Seq<char> {
        self.0@
    }
}

impl PhysicalDeviceId {
    pub fn new(value: &str) -> (id: Self)
        ensures
            id@ == value@,
    {
        PhysicalDeviceId(value.to_owned())
    }

    pub(crate) fn from_string(value: String) -> (id: Self)
        ensures
            id@ == value@,
    {
        PhysicalDeviceId(value)
    }

    pub fn as_str(&self) -> (s: &str)
        ensures
            s@ == self@,
    {
        self.0.as_str()
    }

    /// Whether both identifiers hold the same characters.
    pub fn same(&self, other: &Self) -> (r: bool)
        ensures
            r == (self@ == other@),
    {
        str_eq(self.0.as_str(), other.0.as_str())
    }
}

impl Clone for PhysicalDeviceId {
    fn clone(&self) -> (r: Self)
        ensures
            r == *self,
    {
        PhysicalDeviceId(self.0.clone())
    }
}

/// Identity for one kernel event source belonging to a physical device.
#[derive(Debug, PartialEq, Eq, PartialOrd, Ord, Hash)]
pub struct SourceId(String);

impl View for SourceId {
    type V = Seq<char>;

    closed spec fn view(&self) -> Seq<char> {
        self.0@
    }
}

impl SourceId {
    pub fn new(value: &str) -> (id: Self)
        ensures
            id@ == value@,
    {
        SourceId(value.to_owned())
    }

    pub(crate) fn from_string(value: String) -> (id: Self)
        ensures
            id@ == value@,
    {
        SourceId(value)
    }

    pub fn as_str(&self) -> (s: &str)
        ensures
            s@ == self@,
    {
        self.0.as_str()
    }

    /// Whether both identifiers hold the same characters.
    pub fn same(&self, other: &Self) -> (r: bool)
        ensures
            r == (self@ == other@),
    {
        str_eq(self.0.as_str(), other.0.as_str())
    }

    /// Whether `self` sorts strictly before `other` (the `Ord` of the text).
    pub fn precedes(&self, other: &Self) -> (r: bool)
        ensures
            r == seq_lt(self@, other@),
    {
        str_lt(self.0.as_str(), other.0.as_str())
    }
}

impl Clone for SourceId {
    fn clone(&self) -> (r: Self)
        ensures
            r == *self,
    {
        SourceId(self.0.clone())
    }
}

#[derive(Debug, Clone, Copy, PartialEq, Eq, Structural)]
#[non_exhaustive]
pub enum Transport {
    Usb,
    Bluetooth,
    Virtual,
    Other(u16),
    Unknown,
}

#[derive(Debug, Clone, Copy, PartialEq, Eq, Structural)]
#[non_exhaustive]
pub enum DeviceProvenance {
    Physical,
    Virtual,
    Unknown,
}

/// The scope in which a physical identity can safely be reused.
#[derive(Debug, Clone, Copy, PartialEq, Eq, Structural)]
pub enum IdentityStability {
    /// Based on a hardware-provided unique identifier.
    Hardware,
    /// Stable while the controller remains attached at the same host topology.
    Topology,
    /// No persistent discriminator was exposed; do not persist assignments.
    ConnectionOnly,
}

#[derive(Debug, Clone, Copy, PartialEq, Eq, Structural)]
#[non_exhaustive]
pub enum ControllerClass {
    Gamepad,
    WheelOrPedals,
    FlightController,
    ControllerLike,
}

#[derive(Debug, Clone, Copy, PartialEq, Eq, Structural)]
pub struct DeviceIdentity {
    pub bus_type: u16,
    pub vendor_id: u16,
    pub product_id: u16,
    pub version: u16,
}

#[derive(Debug, Clone, Copy, PartialEq, Eq, Structural)]
pub struct AbsoluteAxisInfo {
    pub minimum: i32,
    pub maximum: i32,
    pub current: i32,
    pub fuzz: i32,
    pub flat: i32,
    pub resolution: i32,
}

/// A native Linux control. Names are diagnostic labels; type and code are authoritative.
#[derive(Debug, PartialEq, Eq)]
#[non_exhaustive]
pub enum ControlDescriptor {
    Key { code: u16, name: String },
    AbsoluteAxis { code: u16, name: String, info: AbsoluteAxisInfo },
    RelativeAxis { code: u16, name: String },
    Switch { code: u16, name: String },
    Led { code: u16, name: String },
    ForceFeedback { code: u16, name: String },
}

impl Clone for ControlDescriptor {
    fn clone(&self) -> (r: Self)
        ensures
            r == *self,
    {
        match self {
            ControlDescriptor::Key { code, name } => ControlDescriptor::Key {
                code: *code,
                name: name.clone(),
            },
            ControlDescriptor::AbsoluteAxis { code, name, info } => ControlDescriptor::AbsoluteAxis {
                code: *code,
                name: name.clone(),
                info: *info,
            },
            ControlDescriptor::RelativeAxis { code, name } => ControlDescriptor::RelativeAxis {
                code: *code,
                name: name.clone(),
            },
            ControlDescriptor::Switch { code, name } => ControlDescriptor::Switch {
                code: *code,
                name: name.clone(),
            },
            ControlDescriptor::Led { code, name } => ControlDescriptor::Led {
                code: *code,
                name: name.clone(),
            },
            ControlDescriptor::ForceFeedback { code, name } => ControlDescriptor::ForceFeedback {
                code: *code,
                name: name.clone(),
            },
        }
    }
}

/// Clones a vector of `Clone`-exact values element by element.
pub(crate) fn clone_controls(v: &Vec<ControlDescriptor>) -> (r: Vec<ControlDescriptor>)
    ensures
        r@ == v@,
{
    let r = v.clone();
    assert(r@ =~= v@);
    r
}

#[derive(Debug, PartialEq, Eq)]
pub struct DeviceDescriptor {
    pub physical_id: PhysicalDeviceId,
    pub source_id: SourceId,
    /// Name reported by the kernel driver for this event interface.
    pub reported_name: String,
    pub identity: DeviceIdentity,
    pub transport: Transport,
    pub provenance: DeviceProvenance,
    pub identity_stability: IdentityStability,
    pub class: ControllerClass,
    /// Host path of the event node (kept as text).
    pub device_path: String,
    pub physical_path: Option<String>,
    pub unique_id: Option<String>,
    pub controls: Vec<ControlDescriptor>,
}

impl DeviceDescriptor {
    /// Same field values, with the controls compared as sequences.
    pub open spec fn equiv(&self, other: &Self) -> bool {
        &&& self.physical_id == other.physical_id
        &&& self.source_id == other.source_id
        &&& self.reported_name == other.reported_name
        &&& self.identity == other.identity
        &&& self.transport == other.transport
        &&& self.provenance == other.provenance
        &&& self.identity_stability == other.identity_stability
        &&& self.class == other.class
        &&& self.device_path == other.device_path
        &&& self.physical_path == other.physical_path
        &&& self.unique_id == other.unique_id
        &&& self.controls@ == other.controls@
    }
}

impl Clone for DeviceDescriptor {
    fn clone(&self) -> (r: Self)
        ensures
            r.equiv(self),
    {
        DeviceDescriptor {
            physical_id: self.physical_id.clone(),
            source_id: self.source_id.clone(),
            reported_name: self.reported_name.clone(),
            identity: self.identity,
            transport: self.transport,
            provenance: self.provenance,
            identity_stability: self.identity_stability,
            class: self.class,
            device_path: self.device_path.clone(),
            physical_path: clone_opt_string(&self.physical_path),
            unique_id: clone_opt_string(&self.unique_id),
            controls: clone_controls(&self.controls),
        }
    }
}

pub(crate) fn clone_opt_string(v: &Option<String>) -> (r: Option<String>)
    ensures
        r == *v,
{
    match v {
        Some(s) => Some(s.clone()),
        None => None,
    }
}

#[derive(Debug, PartialEq, Eq)]
pub struct DiscoveryIssue {
    /// Host path of the node that failed (kept as text).
    pub device_path: String,
    pub error: CaptureError,
}

impl Clone for DiscoveryIssue {
    fn clone(&self) -> (r: Self)
        ensures
            r == *self,
    {
        DiscoveryIssue { device_path: self.device_path.clone(), error: self.error.clone() }
    }
}

#[derive(Debug, PartialEq, Eq)]
pub struct DiscoverySnapshot {
    pub devices: Vec<DeviceDescriptor>,
    /// Per-device failures. Healthy devices in this snapshot remain usable.
    pub issues: Vec<DiscoveryIssue>,
}

impl Default for DiscoverySnapshot {
    fn default() -> (r: Self)
        ensures
            r.devices@.len() == 0,
            r.issues@.len() == 0,
    {
        DiscoverySnapshot { devices: Vec::new(), issues: Vec::new() }
    }
}

#[derive(Debug, Clone, Copy, PartialEq, Eq, Structural)]
pub enum AccessMode {
    /// Observe events while allowing other consumers to receive them.
    Shared,
    /// Capture exclusively and fail rather than silently leaking input.
    Exclusive,
    /// Try exclusive capture and explicitly report a shared fallback.
    PreferExclusive,
}

#[derive(Debug, Clone, Copy, PartialEq, Eq, Structural)]
pub enum CaptureAccess {
    Shared,
    Exclusive,
    SharedFallback,
}

/// A point in time as its distance from the Unix epoch.
///
/// `after_epoch` is false for instants strictly before the epoch.
#[derive(Debug, Clone, Copy, PartialEq, Eq, Structural)]
pub struct Timestamp {
    pub after_epoch: bool,
    pub seconds: u64,
    pub nanoseconds: u32,
}

impl Timestamp {
    /// The Unix epoch itself.
    pub fn unix_epoch() -> (t: Self)
        ensures
            t.after_epoch,
            t.seconds == 0,
            t.nanoseconds == 0,
    {
        Timestamp { after_epoch: true, seconds: 0, nanoseconds: 0 }
    }

    /// Whole microseconds since the epoch; instants before it count as zero.
    pub open spec fn spec_micros(self) -> nat {
        if self.after_epoch {
            (self.seconds * 1_000_000 + self.nanoseconds / 1000) as nat
        } else {
            0
        }
    }

    pub fn micros_since_epoch(&self) -> (m: u128)
        ensures
            m == self.spec_micros(),
    {
        if self.after_epoch {
            (self.seconds as u128) * 1_000_000 + (self.nanoseconds as u128) / 1000
        } else {
            0
        }
    }
}

#[derive(Debug, Clone, Copy, PartialEq, Eq, Structural)]
pub struct NativeEvent {
    pub timestamp: Timestamp,
    pub event_type: u16,
    pub code: u16,
    pub value: i32,
}

/// One kernel synchronization frame. Values remain in their native domains.
#[derive(Debug, PartialEq, Eq)]
pub struct EventBatch {
    pub source_id: SourceId,
    pub sequence: u64,
    pub events: Vec<NativeEvent>,
}

impl EventBatch {
    pub open spec fn equiv(&self, other: &Self) -> bool {
        &&& self.source_id == other.source_id
        &&& self.sequence == other.sequence
        &&& self.events@ == other.events@
    }
}

pub(crate) fn clone_events(v: &Vec<NativeEvent>) -> (r: Vec<NativeEvent>)
    ensures
        r@ == v@,
{
    let r = v.clone();
    assert(r@ =~= v@);
    r
}

impl Clone for EventBatch {
    fn clone(&self) -> (r: Self)
        ensures
            r.equiv(self),
    {
        EventBatch {
            source_id: self.source_id.clone(),
            sequence: self.sequence,
            events: clone_events(&self.events),
        }
    }
}

#[derive(Debug, PartialEq, Eq)]
#[non_exhaustive]
pub enum CaptureEvent {
    Connected { device: DeviceDescriptor, access: CaptureAccess },
    Input(EventBatch),
    Disconnected { source_id: SourceId, physical_id: PhysicalDeviceId },
    SourceError { source_id: SourceId, error: CaptureError },
    DiscoveryError(DiscoveryIssue),
}

impl CaptureEvent {
    pub open spec fn equiv(&self, other: &Self) -> bool {
        match (self, other) {
            (
                CaptureEvent::Connected { device: d1, access: a1 },
                CaptureEvent::Connected { device: d2, access: a2 },
            ) => d1.equiv(d2) && a1 == a2,
            (CaptureEvent::Input(b1), CaptureEvent::Input(b2)) => b1.equiv(b2),
            _ => self == other,
        }
    }
}

impl Clone for CaptureEvent {
    fn clone(&self) -> (r: Self)
        ensures
            r.equiv(self),
    {
        match self {
            CaptureEvent::Connected { device, access } => CaptureEvent::Connected {
                device: device.clone(),
                access: *access,
            },
            CaptureEvent::Input(batch) => CaptureEvent::Input(batch.clone()),
            CaptureEvent::Disconnected { source_id, physical_id } => CaptureEvent::Disconnected {
                source_id: source_id.clone(),
                physical_id: physical_id.clone(),
            },
            CaptureEvent::SourceError { source_id, error } => CaptureEvent::SourceError {
                source_id: source_id.clone(),
                error: error.clone(),
            },
            CaptureEvent::DiscoveryError(issue) => CaptureEvent::DiscoveryError(issue.clone()),
        }
    }
}

#[derive(Debug, Clone, Copy, PartialEq, Eq, Structural)]
#[non_exhaustive]
pub enum CaptureErrorKind {
    Enumeration,
    Open,
    PermissionDenied,
    ExclusiveGrab,
    Read,
    /// The kernel reported `SYN_DROPPED`; incomplete native evidence was discarded.
    SynchronizationLost,
    InvalidDevice,
    UnsupportedPlatform,
}

/// The variant name of a [`CaptureErrorKind`], as its `Debug` form prints it.
pub open spec fn kind_name(kind: CaptureErrorKind) -> Seq<char> {
    match kind {
        CaptureErrorKind::Enumeration => "Enumeration"@,
        CaptureErrorKind::Open => "Open"@,
        CaptureErrorKind::PermissionDenied => "PermissionDenied"@,
        CaptureErrorKind::ExclusiveGrab => "ExclusiveGrab"@,
        CaptureErrorKind::Read => "Read"@,
        CaptureErrorKind::SynchronizationLost => "SynchronizationLost"@,
        CaptureErrorKind::InvalidDevice => "InvalidDevice"@,
        CaptureErrorKind::UnsupportedPlatform => "UnsupportedPlatform"@,
    }
}

pub(crate) fn push_kind_name(s: &mut String, kind: CaptureErrorKind)
    ensures
        final(s)@ == old(s)@ + kind_name(kind),
{
    match kind {
        CaptureErrorKind::Enumeration => push_str(s, "Enumeration"),
        CaptureErrorKind::Open => push_str(s, "Open"),
        CaptureErrorKind::PermissionDenied => push_str(s, "PermissionDenied"),
        CaptureErrorKind::ExclusiveGrab => push_str(s, "ExclusiveGrab"),
        CaptureErrorKind::Read => push_str(s, "Read"),
        CaptureErrorKind::SynchronizationLost => push_str(s, "SynchronizationLost"),
        CaptureErrorKind::InvalidDevice => push_str(s, "InvalidDevice"),
        CaptureErrorKind::UnsupportedPlatform => push_str(s, "UnsupportedPlatform"),
    }
}

#[derive(Debug, PartialEq, Eq)]
pub struct CaptureError {
    pub kind: CaptureErrorKind,
    pub message: String,
}

impl Clone for CaptureError {
    fn clone(&self) -> (r: Self)
        ensures
            r == *self,
    {
        CaptureError { kind: self.kind, message: self.message.clone() }
    }
}

/// The display text of an error: `"{kind:?}: {message}"`.
pub open spec fn error_text(kind: CaptureErrorKind, message: Seq<char>) -> Seq<char> {
    kind_name(kind) + ": "@ + message
}

impl CaptureError {
    pub fn new(kind: CaptureErrorKind, message: &str) -> (e: Self)
        ensures
            e.kind == kind,
            e.message@ == message@,
    {
        CaptureError { kind, message: message.to_owned() }
    }

    /// The text the error displays: its kind's name, `": "`, then the message.
    pub fn display_text(&self) -> (s: String)
        ensures
            s@ == error_text(self.kind, self.message@),
    {
        let mut s = String::new();
        push_kind_name(&mut s, self.kind);
        push_str(&mut s, ": ");
        push_str(&mut s, self.message.as_str());
        proof {
            reveal_strlit(": ");
        }
        assert(s@ =~= error_text(self.kind, self.message@));
        s
    }
}


/// Microseconds since the epoch split back into the instant's parts: after
/// the epoch, the count divided by a million is the whole seconds and the
/// remainder is the sub-second part in whole microseconds (nanoseconds
/// divided by 1000); an instant before the epoch counts as zero.
pub proof fn law_micros_split_into_seconds_and_fraction(t: Timestamp)
    requires
        t.nanoseconds < 1_000_000_000,
    ensures
        t.after_epoch ==> t.spec_micros() / 1_000_000 == t.seconds && t.spec_micros() % 1_000_000
            == t.nanoseconds / 1000,
        !t.after_epoch ==> t.spec_micros() == 0,
{
    if t.after_epoch {
        let s = t.seconds as int;
        let f = (t.nanoseconds / 1000) as int;
        assert(0 <= f < 1_000_000);
        assert((s * 1_000_000 + f) / 1_000_000 == s && (s * 1_000_000 + f) % 1_000_000 == f) by (nonlinear_arith)
            requires
                0 <= f < 1_000_000,
                s >= 0,
        ;
    }
}

/// Microsecond counts keep the order of instants after the epoch: a later
/// second counts more, and within one second a later whole microsecond
/// counts more.
pub proof fn law_micros_ordered(t: Timestamp, u: Timestamp)
    requires
        t.after_epoch && u.after_epoch,
        t.nanoseconds < 1_000_000_000 && u.nanoseconds < 1_000_000_000,
    ensures
        t.seconds < u.seconds ==> t.spec_micros() < u.spec_micros(),
        t.seconds == u.seconds && t.nanoseconds / 1000 < u.nanoseconds / 1000 ==> t.spec_micros() < u.spec_micros(),
{
    let a = t.seconds as int;
    let b = u.seconds as int;
    let f = (t.nanoseconds / 1000) as int;
    let g = (u.nanoseconds / 1000) as int;
    assert(a < b ==> a * 1_000_000 + f < b * 1_000_000 + g) by (nonlinear_arith)
        requires
            0 <= f < 1_000_000,
            0 <= g,
    ;
}

} // verus!
