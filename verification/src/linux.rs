//! Linux evdev logic: device classification and description, frame assembly
//! and access decisions. Enumeration is side-effect free; devices are grabbed
//! only on open. Reading the kernel's answers is the caller's part: these
//! functions take what the kernel reported as plain values.

use vstd::prelude::*;

use crate::identity::{build_physical_id, build_source_id, opt_view, physical_id_text, source_id_text};
use crate::model::{
    AbsoluteAxisInfo, AccessMode, CaptureAccess, CaptureError, CaptureErrorKind, ControlDescriptor,
    ControllerClass, DeviceDescriptor, DeviceIdentity, DeviceProvenance, DiscoveryIssue,
    DiscoverySnapshot, EventBatch, IdentityStability, NativeEvent, SourceId, Transport,
};
use crate::session::id_le;
use crate::sorting::{insert_by, lemma_insert_by_split, sort_by};
use crate::text::{is_blank, owned, push_str, trim, trimmed};

verus! {

/// `EV_SYN`, the synchronization event type.
pub const EV_SYN: u16 = 0;

/// `SYN_REPORT`: the end of one atomic kernel frame.
pub const SYN_REPORT: u16 = 0;

/// `SYN_DROPPED`: the kernel ring buffer overflowed and events were lost.
pub const SYN_DROPPED: u16 = 3;

/// Whether an event reports that the kernel dropped events.
pub open spec fn sync_lost_spec(event_type: u16, code: u16) -> bool {
    event_type == EV_SYN && code == SYN_DROPPED
}

/// Whether an event closes a kernel frame.
pub open spec fn is_report_spec(event_type: u16, code: u16) -> bool {
    event_type == EV_SYN && code == SYN_REPORT
}

/// Whether an event reports that the kernel dropped events (`SYN_DROPPED`).
pub fn is_synchronization_lost(event_type: u16, code: u16) -> (r: bool)
    ensures
        r == sync_lost_spec(event_type, code),
{
    event_type == EV_SYN && code == SYN_DROPPED
}

/// Gamepad buttons: `BTN_GAMEPAD` (`0x130`) through `0x13f`.
pub open spec fn is_gamepad_button(code: u16) -> bool {
    0x130 <= code <= 0x13f
}

/// Joystick buttons: `BTN_JOYSTICK` (`0x120`) through `0x12f`.
pub open spec fn is_joystick_button(code: u16) -> bool {
    0x120 <= code <= 0x12f
}

/// A device is a controller when it advertises a gamepad or joystick button
/// and at least one absolute axis; a gamepad button makes it a gamepad.
pub open spec fn classify_spec(keys: Option<Seq<u16>>, axes: Option<Seq<u16>>) -> Option<ControllerClass> {
    match (keys, axes) {
        (Some(k), Some(a)) => {
            let gamepad = exists|i: int| 0 <= i < k.len() && is_gamepad_button(#[trigger] k[i]);
            let joystick = exists|i: int| 0 <= i < k.len() && is_joystick_button(#[trigger] k[i]);
            if (!gamepad && !joystick) || a.len() == 0 {
                None
            } else if gamepad {
                Some(ControllerClass::Gamepad)
            } else {
                Some(ControllerClass::ControllerLike)
            }
        },
        _ => None,
    }
}

pub open spec fn slice_view(v: Option<&[u16]>) -> Option<Seq<u16>> {
    match v {
        Some(s) => Some(s@),
        None => None,
    }
}

/// Classify a device from its advertised key and absolute-axis codes.
pub fn classify(keys: Option<&[u16]>, axes: Option<&[u16]>) -> (r: Option<ControllerClass>)
    ensures
        r == classify_spec(slice_view(keys), slice_view(axes)),
{
    let key_codes = match keys {
        Some(k) => k,
        None => {
            return None;
        },
    };
    let axis_codes = match axes {
        Some(a) => a,
        None => {
            return None;
        },
    };
    let ghost k = key_codes@;
    let mut gamepad = false;
    let mut joystick = false;
    let mut i: usize = 0;
    while i < key_codes.len()
        invariant
            i <= k.len(),
            k == key_codes@,
            gamepad == exists|j: int| 0 <= j < i && is_gamepad_button(#[trigger] k[j]),
            joystick == exists|j: int| 0 <= j < i && is_joystick_button(#[trigger] k[j]),
        decreases k.len() - i,
    {
        let code = key_codes[i];
        if 0x130 <= code && code <= 0x13f {
            gamepad = true;
        }
        if 0x120 <= code && code <= 0x12f {
            joystick = true;
        }
        i = i + 1;
    }
    assert(classify_spec(slice_view(keys), slice_view(axes)) == if (!gamepad && !joystick)
        || axis_codes@.len() == 0 {
        None
    } else if gamepad {
        Some(ControllerClass::Gamepad)
    } else {
        Some(ControllerClass::ControllerLike)
    });
    if (!gamepad && !joystick) || axis_codes.len() == 0 {
        return None;
    }
    if gamepad {
        Some(ControllerClass::Gamepad)
    } else {
        Some(ControllerClass::ControllerLike)
    }
}

/// The transport a kernel bus type names (`BUS_USB`, `BUS_BLUETOOTH`,
/// `BUS_VIRTUAL`; zero is unknown).
pub open spec fn transport_spec(bus: u16) -> Transport {
    if bus == 0x03 {
        Transport::Usb
    } else if bus == 0x05 {
        Transport::Bluetooth
    } else if bus == 0x06 {
        Transport::Virtual
    } else if bus == 0 {
        Transport::Unknown
    } else {
        Transport::Other(bus)
    }
}

/// The transport a kernel bus type names.
pub fn transport_for_bus(bus: u16) -> (t: Transport)
    ensures
        t == transport_spec(bus),
{
    if bus == 0x03 {
        Transport::Usb
    } else if bus == 0x05 {
        Transport::Bluetooth
    } else if bus == 0x06 {
        Transport::Virtual
    } else if bus == 0 {
        Transport::Unknown
    } else {
        Transport::Other(bus)
    }
}

/// A reported text trimmed of surrounding white space, or none when nothing is left.
pub open spec fn non_empty_spec(value: Option<Seq<char>>) -> Option<Seq<char>> {
    match value {
        Some(v) => if trim(v).len() == 0 {
            None
        } else {
            Some(trim(v))
        },
        None => None,
    }
}

pub open spec fn opt_string_view(v: Option<String>) -> Option<Seq<char>> {
    match v {
        Some(s) => Some(s@),
        None => None,
    }
}

/// Keep a reported text only when something remains after trimming it.
pub fn non_empty(value: Option<&str>) -> (r: Option<String>)
    ensures
        opt_string_view(r) == non_empty_spec(opt_view(value)),
{
    match value {
        Some(v) => {
            if is_blank(v) {
                None
            } else {
                Some(trimmed(v))
            }
        },
        None => None,
    }
}

/// Sort key of a control: its kernel event type, then its code.
pub open spec fn control_key(control: ControlDescriptor) -> (u8, u16) {
    match control {
        ControlDescriptor::Key { code, .. } => (1, code),
        ControlDescriptor::RelativeAxis { code, .. } => (2, code),
        ControlDescriptor::AbsoluteAxis { code, .. } => (3, code),
        ControlDescriptor::Switch { code, .. } => (5, code),
        ControlDescriptor::Led { code, .. } => (17, code),
        ControlDescriptor::ForceFeedback { code, .. } => (21, code),
    }
}

/// Sort key of a control: its kernel event type, then its code.
pub fn control_sort_key(control: &ControlDescriptor) -> (k: (u8, u16))
    ensures
        k == control_key(*control),
{
    match control {
        ControlDescriptor::Key { code, .. } => (1, *code),
        ControlDescriptor::RelativeAxis { code, .. } => (2, *code),
        ControlDescriptor::AbsoluteAxis { code, .. } => (3, *code),
        ControlDescriptor::Switch { code, .. } => (5, *code),
        ControlDescriptor::Led { code, .. } => (17, *code),
        ControlDescriptor::ForceFeedback { code, .. } => (21, *code),
    }
}

/// A control as plain values: its event type, code, name and axis information.
pub open spec fn control_model(c: ControlDescriptor) -> (u8, u16, Seq<char>, Option<AbsoluteAxisInfo>) {
    match c {
        ControlDescriptor::Key { code, name } => (1, code, name@, None),
        ControlDescriptor::RelativeAxis { code, name } => (2, code, name@, None),
        ControlDescriptor::AbsoluteAxis { code, name, info } => (3, code, name@, Some(info)),
        ControlDescriptor::Switch { code, name } => (5, code, name@, None),
        ControlDescriptor::Led { code, name } => (17, code, name@, None),
        ControlDescriptor::ForceFeedback { code, name } => (21, code, name@, None),
    }
}

pub open spec fn controls_model(v: Seq<ControlDescriptor>) -> Seq<(u8, u16, Seq<char>, Option<AbsoluteAxisInfo>)> {
    v.map_values(|c: ControlDescriptor| control_model(c))
}

/// Control models ordered by event type, then code; ties keep their order.
pub open spec fn model_le() -> spec_fn(
    (u8, u16, Seq<char>, Option<AbsoluteAxisInfo>),
    (u8, u16, Seq<char>, Option<AbsoluteAxisInfo>),
) -> bool {
    |a: (u8, u16, Seq<char>, Option<AbsoluteAxisInfo>), b: (u8, u16, Seq<char>, Option<AbsoluteAxisInfo>)|
        a.0 < b.0 || (a.0 == b.0 && a.1 <= b.1)
}

/// Whether a control's key sorts strictly after `k`.
fn key_after(control: &ControlDescriptor, k: (u8, u16)) -> (r: bool)
    ensures
        r == !(control_model(*control).0 < k.0 || (control_model(*control).0 == k.0
            && control_model(*control).1 <= k.1)),
{
    let c = control_sort_key(control);
    !(c.0 < k.0 || (c.0 == k.0 && c.1 <= k.1))
}

fn insert_control(v: &mut Vec<ControlDescriptor>, x: ControlDescriptor)
    ensures
        controls_model(final(v)@) == insert_by(controls_model(old(v)@), control_model(x), model_le()),
{
    let ghost s = controls_model(v@);
    let ghost raw = v@;
    let kx = control_sort_key(&x);
    let mut pos = v.len();
    while pos > 0 && key_after(&v[pos - 1], kx)
        invariant
            pos <= raw.len(),
            v@ == raw,
            s == controls_model(raw),
            kx == (control_model(x).0, control_model(x).1),
            forall|j: int| pos <= j < s.len() ==> !(model_le())(#[trigger] s[j], control_model(x)),
        decreases pos,
    {
        assert(s[pos - 1] == control_model(raw[pos - 1]));
        pos = pos - 1;
    }
    proof {
        if pos > 0 {
            assert(s[pos - 1] == control_model(raw[pos - 1]));
        }
        lemma_insert_by_split(s, control_model(x), model_le(), pos as int);
    }
    v.insert(pos, x);
    assert(controls_model(v@) =~= s.subrange(0, pos as int).push(control_model(x)) + s.subrange(pos as int, s.len() as int));
}

/// Stable sort of controls by event type, then code.
pub fn sort_controls(controls: Vec<ControlDescriptor>) -> (r: Vec<ControlDescriptor>)
    ensures
        controls_model(r@) == sort_by(controls_model(controls@), model_le()),
{
    let mut sorted: Vec<ControlDescriptor> = Vec::new();
    let mut rest = controls;
    let ghost all = rest@;
    let n = rest.len();
    let mut i: usize = 0;
    while rest.len() > 0
        invariant
            all.len() == n,
            i + rest@.len() == all.len(),
            rest@ == all.subrange(i as int, all.len() as int),
            controls_model(sorted@) == sort_by(controls_model(all.subrange(0, i as int)), model_le()),
        decreases rest@.len(),
    {
        let x = rest.remove(0);
        assert(controls_model(all.subrange(0, i + 1)).drop_last() =~= controls_model(all.subrange(0, i as int)));
        insert_control(&mut sorted, x);
        i = i + 1;
        assert(rest@ =~= all.subrange(i as int, all.len() as int));
    }
    assert(all.subrange(0, all.len() as int) =~= all);
    sorted
}


/// The name evdev gives a key code, such as `BTN_SOUTH` (its `Debug` text).
pub uninterp spec fn key_code_name(code: u16) -> Seq<char>;

/// The name evdev gives an absolute axis code, such as `ABS_X`.
pub uninterp spec fn absolute_axis_name(code: u16) -> Seq<char>;

/// The name evdev gives a relative axis code, such as `REL_WHEEL`.
pub uninterp spec fn relative_axis_name(code: u16) -> Seq<char>;

/// The name evdev gives a switch code, such as `SW_LID`.
pub uninterp spec fn switch_name(code: u16) -> Seq<char>;

/// The name evdev gives an LED code, such as `LED_NUML`.
pub uninterp spec fn led_name(code: u16) -> Seq<char>;

/// The name evdev gives a force-feedback effect code, such as `FF_RUMBLE`.
pub uninterp spec fn force_feedback_name(code: u16) -> Seq<char>;

/// Calls `evdev::KeyCode`'s `Debug`; trusted to give a text that depends on
/// the code alone (the constant's name, or `unknown key: {code}`).
#[verifier::external_body]
fn key_name(code: u16) -> (s: String)
    ensures
        s@ == key_code_name(code),
{
    format!("{:?}", evdev::KeyCode(code))
}

/// Calls `evdev::AbsoluteAxisCode`'s `Debug`; trusted to give a text that
/// depends on the code alone.
#[verifier::external_body]
fn absolute_name(code: u16) -> (s: String)
    ensures
        s@ == absolute_axis_name(code),
{
    format!("{:?}", evdev::AbsoluteAxisCode(code))
}

/// Calls `evdev::RelativeAxisCode`'s `Debug`; trusted to give a text that
/// depends on the code alone.
#[verifier::external_body]
fn relative_name(code: u16) -> (s: String)
    ensures
        s@ == relative_axis_name(code),
{
    format!("{:?}", evdev::RelativeAxisCode(code))
}

/// Calls `evdev::SwitchCode`'s `Debug`; trusted to give a text that depends
/// on the code alone.
#[verifier::external_body]
fn switch_code_name(code: u16) -> (s: String)
    ensures
        s@ == switch_name(code),
{
    format!("{:?}", evdev::SwitchCode(code))
}

/// Calls `evdev::LedCode`'s `Debug`; trusted to give a text that depends on
/// the code alone.
#[verifier::external_body]
fn led_code_name(code: u16) -> (s: String)
    ensures
        s@ == led_name(code),
{
    format!("{:?}", evdev::LedCode(code))
}

/// Calls `evdev::FFEffectCode`'s `Debug`; trusted to give a text that depends
/// on the code alone.
#[verifier::external_body]
fn effect_name(code: u16) -> (s: String)
    ensures
        s@ == force_feedback_name(code),
{
    format!("{:?}", evdev::FFEffectCode(code))
}

/// A control as plain values: event type, code, name and axis information.
pub type ControlModel = (u8, u16, Seq<char>, Option<AbsoluteAxisInfo>);

/// The name of a code of the event type `tag` (key, relative axis, switch, LED or effect).
pub open spec fn tag_name(tag: u8, code: u16) -> Seq<char> {
    if tag == 1 {
        key_code_name(code)
    } else if tag == 2 {
        relative_axis_name(code)
    } else if tag == 5 {
        switch_name(code)
    } else if tag == 17 {
        led_name(code)
    } else {
        force_feedback_name(code)
    }
}

pub open spec fn codes_view(codes: Option<Vec<u16>>) -> Option<Seq<u16>> {
    match codes {
        Some(c) => Some(c@),
        None => None,
    }
}

/// Controls of one event type for the advertised codes, in the order reported.
pub open spec fn coded_models(codes: Option<Seq<u16>>, tag: u8) -> Seq<ControlModel> {
    match codes {
        Some(c) => c.map_values(|x: u16| (tag, x, tag_name(tag, x), None::<AbsoluteAxisInfo>)),
        None => seq![],
    }
}

/// Absolute-axis controls for the reported axis information, in the order reported.
pub open spec fn axis_models(axes: Seq<(u16, AbsoluteAxisInfo)>) -> Seq<ControlModel> {
    axes.map_values(|p: (u16, AbsoluteAxisInfo)| (3u8, p.0, absolute_axis_name(p.0), Some(p.1)))
}

fn named_control(tag: u8, code: u16) -> (c: ControlDescriptor)
    requires
        tag == 1 || tag == 2 || tag == 5 || tag == 17 || tag == 21,
    ensures
        control_model(c) == (tag, code, tag_name(tag, code), None::<AbsoluteAxisInfo>),
{
    if tag == 1 {
        ControlDescriptor::Key { code, name: key_name(code) }
    } else if tag == 2 {
        ControlDescriptor::RelativeAxis { code, name: relative_name(code) }
    } else if tag == 5 {
        ControlDescriptor::Switch { code, name: switch_code_name(code) }
    } else if tag == 17 {
        ControlDescriptor::Led { code, name: led_code_name(code) }
    } else {
        ControlDescriptor::ForceFeedback { code, name: effect_name(code) }
    }
}

fn push_coded(out: &mut Vec<ControlDescriptor>, codes: &Option<Vec<u16>>, tag: u8)
    requires
        tag == 1 || tag == 2 || tag == 5 || tag == 17 || tag == 21,
    ensures
        controls_model(final(out)@) == controls_model(old(out)@) + coded_models(codes_view(*codes), tag),
{
    let ghost start = controls_model(out@);
    match codes {
        Some(c) => {
            let ghost m = coded_models(codes_view(*codes), tag);
            let mut i: usize = 0;
            while i < c.len()
                invariant
                    i <= c@.len(),
                    tag == 1 || tag == 2 || tag == 5 || tag == 17 || tag == 21,
                    m == c@.map_values(|x: u16| (tag, x, tag_name(tag, x), None::<AbsoluteAxisInfo>)),
                    controls_model(out@) == start + m.subrange(0, i as int),
                decreases c@.len() - i,
            {
                let ghost prev = out@;
                out.push(named_control(tag, c[i]));
                assert(controls_model(out@) =~= controls_model(prev).push(m[i as int]));
                assert(m.subrange(0, i + 1) =~= m.subrange(0, i as int).push(m[i as int]));
                i = i + 1;
            }
            assert(m.subrange(0, m.len() as int) =~= m);
        },
        None => {
            assert(controls_model(out@) =~= start + Seq::<ControlModel>::empty());
        },
    }
}

fn push_axes(out: &mut Vec<ControlDescriptor>, axes: &Vec<(u16, AbsoluteAxisInfo)>)
    ensures
        controls_model(final(out)@) == controls_model(old(out)@) + axis_models(axes@),
{
    let ghost start = controls_model(out@);
    let ghost m = axis_models(axes@);
    let mut i: usize = 0;
    while i < axes.len()
        invariant
            i <= axes@.len(),
            m == axis_models(axes@),
            controls_model(out@) == start + m.subrange(0, i as int),
        decreases axes@.len() - i,
    {
        let ghost prev = out@;
        let (code, info) = axes[i];
        out.push(ControlDescriptor::AbsoluteAxis { code, name: absolute_name(code), info });
        assert(controls_model(out@) =~= controls_model(prev).push(m[i as int]));
        assert(m.subrange(0, i + 1) =~= m.subrange(0, i as int).push(m[i as int]));
        i = i + 1;
    }
    assert(m.subrange(0, m.len() as int) =~= m);
}

/// What the kernel reports about one event device, as plain values.
#[derive(Debug)]
pub struct DeviceEvidence {
    /// Host path of the event node.
    pub device_path: String,
    pub name: Option<String>,
    pub unique_name: Option<String>,
    pub physical_path: Option<String>,
    pub identity: DeviceIdentity,
    /// Advertised key codes, if the device reports keys.
    pub keys: Option<Vec<u16>>,
    /// Advertised absolute-axis codes, if the device reports absolute axes.
    pub absolute_axes: Option<Vec<u16>>,
    /// Each absolute axis with its information, or why it could not be read.
    pub absolute_info: Result<Vec<(u16, AbsoluteAxisInfo)>, String>,
    pub relative_axes: Option<Vec<u16>>,
    pub switches: Option<Vec<u16>>,
    pub leds: Option<Vec<u16>>,
    pub force_feedback: Option<Vec<u16>>,
    /// Whether sysfs places the node under the virtual device tree.
    pub virtual_sysfs: bool,
}

/// Every control a device reports: keys, absolute axes, relative axes,
/// switches, LEDs, then force-feedback effects.
pub open spec fn reported_controls(ev: DeviceEvidence, axes: Seq<(u16, AbsoluteAxisInfo)>) -> Seq<ControlModel> {
    coded_models(codes_view(ev.keys), 1) + axis_models(axes) + coded_models(codes_view(ev.relative_axes), 2)
        + coded_models(codes_view(ev.switches), 5) + coded_models(codes_view(ev.leds), 17)
        + coded_models(codes_view(ev.force_feedback), 21)
}

/// How a device's identity holds across reconnections, from what it reports.
pub open spec fn stability_spec(unique_id: Option<Seq<char>>, physical_path: Option<Seq<char>>) -> IdentityStability {
    if unique_id is Some {
        IdentityStability::Hardware
    } else if physical_path is Some {
        IdentityStability::Topology
    } else {
        IdentityStability::ConnectionOnly
    }
}

/// The descriptor of a classified device, field by field.
pub open spec fn describes(ev: DeviceEvidence, class: ControllerClass, axes: Seq<(u16, AbsoluteAxisInfo)>, d: DeviceDescriptor) -> bool {
    let unique_id = non_empty_spec(opt_string_view(ev.unique_name));
    let physical_path = non_empty_spec(opt_string_view(ev.physical_path));
    let transport = transport_spec(ev.identity.bus_type);
    &&& d.physical_id@ == physical_id_text(ev.identity, transport, unique_id, physical_path)
    &&& d.source_id@ == source_id_text(d.physical_id@, ev.device_path@)
    &&& d.reported_name@ == match ev.name {
        Some(n) => n@,
        None => "Unknown controller"@,
    }
    &&& d.identity == ev.identity
    &&& d.transport == transport
    &&& d.provenance == if ev.identity.bus_type == 0x06 || ev.virtual_sysfs {
        DeviceProvenance::Virtual
    } else {
        DeviceProvenance::Physical
    }
    &&& d.identity_stability == stability_spec(unique_id, physical_path)
    &&& d.class == class
    &&& d.device_path == ev.device_path
    &&& opt_string_view(d.physical_path) == physical_path
    &&& opt_string_view(d.unique_id) == unique_id
    &&& controls_model(d.controls@) == sort_by(reported_controls(ev, axes), model_le())
}

fn as_deref(v: &Option<String>) -> (r: Option<&str>)
    ensures
        opt_view(r) == opt_string_view(*v),
{
    match v {
        Some(s) => Some(s.as_str()),
        None => None,
    }
}

fn codes_slice(v: &Option<Vec<u16>>) -> (r: Option<&[u16]>)
    ensures
        slice_view(r) == codes_view(*v),
{
    match v {
        Some(c) => Some(c.as_slice()),
        None => None,
    }
}

/// Describe one event device from what the kernel reported about it.
///
/// Devices that are not controllers are skipped (`Ok(None)`); a controller
/// whose absolute-axis information could not be read is an invalid device.
pub fn describe(evidence: DeviceEvidence) -> (r: Result<Option<DeviceDescriptor>, CaptureError>)
    ensures
        ({
            let class = classify_spec(codes_view(evidence.keys), codes_view(evidence.absolute_axes));
            match r {
                Ok(None) => class is None,
                Ok(Some(d)) => class is Some && evidence.absolute_info is Ok && describes(
                    evidence,
                    class->0,
                    evidence.absolute_info->Ok_0@,
                    d,
                ),
                Err(e) => {
                    &&& class is Some
                    &&& evidence.absolute_info is Err
                    &&& e.kind == CaptureErrorKind::InvalidDevice
                    &&& e.message@ == evidence.absolute_info->Err_0@
                },
            }
        }),
{
    let class = match classify(codes_slice(&evidence.keys), codes_slice(&evidence.absolute_axes)) {
        Some(class) => class,
        None => {
            return Ok(None);
        },
    };
    let identity = evidence.identity;
    let transport = transport_for_bus(identity.bus_type);
    let unique_id = non_empty(as_deref(&evidence.unique_name));
    let physical_path = non_empty(as_deref(&evidence.physical_path));
    let physical_id = build_physical_id(&identity, transport, as_deref(&unique_id), as_deref(&physical_path));
    let source_id = build_source_id(&physical_id, evidence.device_path.as_str());
    let axes = match &evidence.absolute_info {
        Ok(axes) => axes,
        Err(message) => {
            return Err(CaptureError::new(CaptureErrorKind::InvalidDevice, message.as_str()));
        },
    };
    let mut controls: Vec<ControlDescriptor> = Vec::new();
    push_coded(&mut controls, &evidence.keys, 1);
    push_axes(&mut controls, axes);
    push_coded(&mut controls, &evidence.relative_axes, 2);
    push_coded(&mut controls, &evidence.switches, 5);
    push_coded(&mut controls, &evidence.leds, 17);
    push_coded(&mut controls, &evidence.force_feedback, 21);
    let ghost reported = controls_model(controls@);
    let controls = sort_controls(controls);
    let reported_name = match &evidence.name {
        Some(name) => name.clone(),
        None => owned("Unknown controller"),
    };
    let provenance = if identity.bus_type == 0x06 || evidence.virtual_sysfs {
        DeviceProvenance::Virtual
    } else {
        DeviceProvenance::Physical
    };
    let identity_stability = if unique_id.is_some() {
        IdentityStability::Hardware
    } else if physical_path.is_some() {
        IdentityStability::Topology
    } else {
        IdentityStability::ConnectionOnly
    };
    let ghost ev = evidence;
    let d = DeviceDescriptor {
        physical_id,
        source_id,
        reported_name,
        identity,
        transport,
        provenance,
        identity_stability,
        class,
        device_path: evidence.device_path,
        physical_path,
        unique_id,
        controls,
    };
    assert(reported =~= reported_controls(ev, ev.absolute_info->Ok_0@));
    Ok(Some(d))
}


/// The next frame sequence number, wrapping to zero after `u64::MAX`.
pub open spec fn wrapping_next(s: u64) -> u64 {
    if s == u64::MAX {
        0
    } else {
        (s + 1) as u64
    }
}

/// Frame assembly over a run of kernel events, from a sequence number and
/// the events pending from earlier reads.
///
/// Events accumulate until `SYN_REPORT` closes a frame, which is numbered
/// with the next sequence number; a report with nothing pending closes no
/// frame. `SYN_DROPPED` discards the pending events and stops the run. The
/// result is the sequence number, the pending events, the closed frames
/// (sequence number and events) and whether events were lost.
pub open spec fn assemble(sequence: u64, pending: Seq<NativeEvent>, events: Seq<NativeEvent>) -> (
    u64,
    Seq<NativeEvent>,
    Seq<(u64, Seq<NativeEvent>)>,
    bool,
)
    decreases events.len(),
{
    if events.len() == 0 {
        (sequence, pending, seq![], false)
    } else {
        let (s, p, b, lost) = assemble(sequence, pending, events.drop_last());
        let e = events.last();
        if lost {
            (s, p, b, true)
        } else if sync_lost_spec(e.event_type, e.code) {
            (s, seq![], b, true)
        } else if !is_report_spec(e.event_type, e.code) {
            (s, p.push(e), b, false)
        } else if p.len() == 0 {
            (s, p, b, false)
        } else {
            (wrapping_next(s), seq![], b.push((wrapping_next(s), p)), false)
        }
    }
}

/// The batches match the closed frames, all from `id`.
pub open spec fn batches_match(v: Seq<EventBatch>, frames: Seq<(u64, Seq<NativeEvent>)>, id: SourceId) -> bool {
    &&& v.len() == frames.len()
    &&& forall|i: int|
        0 <= i < v.len() ==> (#[trigger] v[i]).source_id == id && v[i].sequence == frames[i].0
            && v[i].events@ == frames[i].1
}

/// The message of a synchronization loss on a source.
pub open spec fn overrun_message(id: Seq<char>) -> Seq<char> {
    id + ": kernel event buffer overrun"@
}

/// The frames model of held frames: sequence number and events.
pub open spec fn frames_of(held: Seq<(u64, Vec<NativeEvent>)>) -> Seq<(u64, Seq<NativeEvent>)> {
    held.map_values(|f: (u64, Vec<NativeEvent>)| (f.0, f.1@))
}

/// Groups one source's kernel events into complete frames.
///
/// Only incomplete evidence is ever discarded: frames that a read completes
/// before a `SYN_DROPPED` are held and delivered, first, by the next read.
#[derive(Debug)]
pub struct FrameAssembler {
    source_id: SourceId,
    sequence: u64,
    pending: Vec<NativeEvent>,
    held: Vec<(u64, Vec<NativeEvent>)>,
}

impl FrameAssembler {
    pub closed spec fn source(&self) -> SourceId {
        self.source_id
    }

    /// The sequence number of the last closed frame (zero before the first).
    pub closed spec fn last_sequence(&self) -> u64 {
        self.sequence
    }

    /// Events read since the last closed frame.
    pub closed spec fn pending_events(&self) -> Seq<NativeEvent> {
        self.pending@
    }

    /// Complete frames not yet delivered (closed by a read that then lost events).
    pub closed spec fn held_frames(&self) -> Seq<(u64, Seq<NativeEvent>)> {
        frames_of(self.held@)
    }

    pub fn new(source_id: SourceId) -> (a: Self)
        ensures
            a.source() == source_id,
            a.last_sequence() == 0,
            a.pending_events().len() == 0,
            a.held_frames().len() == 0,
    {
        let a = FrameAssembler { source_id, sequence: 0, pending: Vec::new(), held: Vec::new() };
        assert(a.held_frames() =~= Seq::<(u64, Seq<NativeEvent>)>::empty());
        a
    }

    /// Add the events of one read and return the complete frames not yet
    /// delivered: those held from an earlier read, then those this read closes.
    ///
    /// # Errors
    ///
    /// `SYN_DROPPED` discards the partial frame and the rest of the read, and
    /// fails the read with a synchronization-lost error; the frames this read
    /// closed before it are held for the next read.
    pub fn push_events(&mut self, events: &[NativeEvent]) -> (r: Result<Vec<EventBatch>, CaptureError>)
        ensures
            final(self).source() == old(self).source(),
            final(self).last_sequence() == assemble(old(self).last_sequence(), old(self).pending_events(), events@).0,
            final(self).pending_events() == assemble(old(self).last_sequence(), old(self).pending_events(), events@).1,
            r is Ok <==> !assemble(old(self).last_sequence(), old(self).pending_events(), events@).3,
            r matches Ok(v) ==> batches_match(
                v@,
                old(self).held_frames() + assemble(old(self).last_sequence(), old(self).pending_events(), events@).2,
                old(self).source(),
            ),
            r is Ok ==> final(self).held_frames().len() == 0,
            r matches Err(e) ==> e.kind == CaptureErrorKind::SynchronizationLost && e.message@
                == overrun_message(old(self).source()@),
            r is Err ==> final(self).held_frames() == old(self).held_frames() + assemble(
                old(self).last_sequence(),
                old(self).pending_events(),
                events@,
            ).2,
    {
        let ghost s0 = self.sequence;
        let ghost p0 = self.pending@;
        let ghost h0 = self.held_frames();
        let mut i: usize = 0;
        while i < events.len()
            invariant
                i <= events@.len(),
                self.source_id == old(self).source_id,
                s0 == old(self).sequence,
                p0 == old(self).pending@,
                h0 == old(self).held_frames(),
                ({
                    let (s, p, b, lost) = assemble(s0, p0, events@.subrange(0, i as int));
                    &&& !lost
                    &&& self.sequence == s
                    &&& self.pending@ == p
                    &&& frames_of(self.held@) == h0 + b
                }),
            decreases events@.len() - i,
        {
            let ghost prefix = events@.subrange(0, i + 1);
            assert(prefix.drop_last() =~= events@.subrange(0, i as int));
            let e = events[i];
            if is_synchronization_lost(e.event_type, e.code) {
                self.pending.clear();
                let mut message = String::new();
                push_str(&mut message, self.source_id.as_str());
                push_str(&mut message, ": kernel event buffer overrun");
                proof {
                    lemma_assemble_stops(s0, p0, events@, i as int + 1);
                }
                assert(message@ =~= overrun_message(self.source_id@));
                assert(self.pending@ =~= Seq::<NativeEvent>::empty());
                return Err(CaptureError::new(CaptureErrorKind::SynchronizationLost, message.as_str()));
            }
            if !(e.event_type == EV_SYN && e.code == SYN_REPORT) {
                self.pending.push(e);
            } else if self.pending.len() > 0 {
                self.sequence = self.sequence.wrapping_add(1);
                let mut frame: Vec<NativeEvent> = Vec::new();
                core::mem::swap(&mut frame, &mut self.pending);
                let ghost prev = self.held@;
                self.held.push((self.sequence, frame));
                proof {
                    let (s, p, b, lost) = assemble(s0, p0, events@.subrange(0, i + 1));
                    assert(frames_of(self.held@) =~= frames_of(prev).push((self.sequence, frame@)));
                    assert(frames_of(self.held@) =~= h0 + b);
                }
            }
            i = i + 1;
        }
        assert(events@.subrange(0, events@.len() as int) =~= events@);
        let ghost all = frames_of(self.held@);
        let mut held: Vec<(u64, Vec<NativeEvent>)> = Vec::new();
        core::mem::swap(&mut held, &mut self.held);
        assert(self.held_frames() =~= Seq::<(u64, Seq<NativeEvent>)>::empty());
        let mut batches: Vec<EventBatch> = Vec::new();
        let total = held.len();
        let mut k: usize = 0;
        while held.len() > 0
            invariant
                frames_of(held@) == all.subrange(k as int, all.len() as int),
                k + held@.len() == all.len(),
                all.len() == total,
                batches_match(batches@, all.subrange(0, k as int), self.source_id),
            decreases held@.len(),
        {
            let ghost before = held@;
            let (sequence, frame) = held.remove(0);
            assert(frames_of(before)[0] == (sequence, frame@));
            assert(frames_of(held@) =~= frames_of(before).drop_first());
            let ghost prev = batches@;
            batches.push(EventBatch { source_id: self.source_id.clone(), sequence, events: frame });
            k = k + 1;
            proof {
                let f = all.subrange(0, k as int);
                assert forall|j: int| 0 <= j < batches@.len() implies (#[trigger] batches@[j]).source_id
                    == self.source_id && batches@[j].sequence == f[j].0 && batches@[j].events@ == f[j].1 by {
                    if j < prev.len() {
                        assert(batches@[j] == prev[j]);
                    }
                }
            }
        }
        assert(all.subrange(0, k as int) =~= all);
        Ok(batches)
    }
}

/// Once events are lost, later events change nothing.
proof fn lemma_assemble_stops(sequence: u64, pending: Seq<NativeEvent>, events: Seq<NativeEvent>, n: int)
    requires
        0 < n <= events.len(),
        assemble(sequence, pending, events.subrange(0, n)).3,
    ensures
        assemble(sequence, pending, events) == assemble(sequence, pending, events.subrange(0, n)),
    decreases events.len(),
{
    if n < events.len() {
        let t = events.drop_last();
        assert(t.subrange(0, n) =~= events.subrange(0, n));
        lemma_assemble_stops(sequence, pending, t, n);
    } else {
        assert(events.subrange(0, n) =~= events);
    }
}

/// Frames are whole and numbered in turn: every closed frame holds at least
/// one event and no `SYN_REPORT`, and the frames carry consecutive sequence
/// numbers after the starting one; after a loss nothing is pending.
pub proof fn law_frames_are_whole_and_sequenced(sequence: u64, pending: Seq<NativeEvent>, events: Seq<NativeEvent>)
    requires
        forall|j: int| 0 <= j < pending.len() ==> !is_report_spec(#[trigger] pending[j].event_type, pending[j].code),
    ensures
        ({
            let (s, p, b, lost) = assemble(sequence, pending, events);
            &&& forall|k: int| 0 <= k < b.len() ==> (#[trigger] b[k]).1.len() > 0
            &&& forall|k: int, j: int|
                0 <= k < b.len() && 0 <= j < b[k].1.len() ==> !is_report_spec(
                    #[trigger] b[k].1[j].event_type,
                    b[k].1[j].code,
                )
            &&& forall|k: int| 0 < k < b.len() ==> #[trigger] b[k].0 == wrapping_next(b[k - 1].0)
            &&& b.len() > 0 ==> b[0].0 == wrapping_next(sequence)
            &&& b.len() > 0 ==> s == b.last().0
            &&& b.len() == 0 ==> s == sequence
            &&& forall|j: int| 0 <= j < p.len() ==> !is_report_spec(#[trigger] p[j].event_type, p[j].code)
            &&& lost ==> p.len() == 0
        }),
    decreases events.len(),
{
    if events.len() > 0 {
        law_frames_are_whole_and_sequenced(sequence, pending, events.drop_last());
        let (s, p, b, lost) = assemble(sequence, pending, events.drop_last());
        let e = events.last();
        if !lost && !sync_lost_spec(e.event_type, e.code) && !is_report_spec(e.event_type, e.code) {
            assert forall|j: int| 0 <= j < p.push(e).len() implies !is_report_spec(#[trigger] p.push(e)[j].event_type, p.push(e)[j].code) by {
                if j < p.len() {
                    assert(p.push(e)[j] == p[j]);
                }
            }
        } else if !lost && !sync_lost_spec(e.event_type, e.code) && p.len() > 0 {
            let nb = b.push((wrapping_next(s), p));
            assert forall|k: int| 0 <= k < nb.len() implies (#[trigger] nb[k]).1.len() > 0 by {
                if k < b.len() {
                    assert(nb[k] == b[k]);
                }
            }
            assert forall|k: int, j: int| 0 <= k < nb.len() && 0 <= j < nb[k].1.len() implies !is_report_spec(
                #[trigger] nb[k].1[j].event_type,
                nb[k].1[j].code,
            ) by {
                if k < b.len() {
                    assert(nb[k] == b[k]);
                }
            }
            assert forall|k: int| 0 < k < nb.len() implies #[trigger] nb[k].0 == wrapping_next(nb[k - 1].0) by {
                if k < b.len() {
                    assert(nb[k] == b[k]);
                }
                assert(nb[k - 1] == b[k - 1]);
            }
        }
    }
}


/// What describing one discovered node gave: its path and the description.
pub type Described = (String, Result<Option<DeviceDescriptor>, CaptureError>);

/// The controllers described, in discovery order.
pub open spec fn found_devices(results: Seq<Described>) -> Seq<DeviceDescriptor>
    decreases results.len(),
{
    if results.len() == 0 {
        seq![]
    } else {
        let rest = found_devices(results.drop_last());
        match results.last().1 {
            Ok(Some(d)) => rest.push(d),
            _ => rest,
        }
    }
}

/// The nodes that failed, in discovery order.
pub open spec fn found_issues(results: Seq<Described>) -> Seq<DiscoveryIssue>
    decreases results.len(),
{
    if results.len() == 0 {
        seq![]
    } else {
        let rest = found_issues(results.drop_last());
        match results.last().1 {
            Err(e) => rest.push(DiscoveryIssue { device_path: results.last().0, error: e }),
            _ => rest,
        }
    }
}

fn insert_device(v: &mut Vec<DeviceDescriptor>, d: DeviceDescriptor)
    ensures
        final(v)@ == insert_by(old(v)@, d, id_le()),
{
    let ghost s = v@;
    let mut pos = v.len();
    while pos > 0 && d.source_id.precedes(&v[pos - 1].source_id)
        invariant
            pos <= s.len(),
            v@ == s,
            forall|j: int| pos <= j < s.len() ==> !(id_le())(#[trigger] s[j], d),
        decreases pos,
    {
        pos = pos - 1;
    }
    proof {
        lemma_insert_by_split(s, d, id_le(), pos as int);
    }
    v.insert(pos, d);
    assert(v@ =~= s.subrange(0, pos as int).push(d) + s.subrange(pos as int, s.len() as int));
}

/// Assemble a discovery snapshot: the controllers found, ordered by source
/// ID (ties keep discovery order), and every node that failed, in order.
/// Nodes that are not controllers leave no trace.
pub fn discovery_snapshot(results: Vec<Described>) -> (snap: DiscoverySnapshot)
    ensures
        snap.devices@ == sort_by(found_devices(results@), id_le()),
        snap.issues@ == found_issues(results@),
{
    let mut devices: Vec<DeviceDescriptor> = Vec::new();
    let mut issues: Vec<DiscoveryIssue> = Vec::new();
    let mut rest = results;
    let ghost all = rest@;
    let n = rest.len();
    let mut i: usize = 0;
    while rest.len() > 0
        invariant
            all.len() == n,
            i + rest@.len() == all.len(),
            rest@ == all.subrange(i as int, all.len() as int),
            devices@ == sort_by(found_devices(all.subrange(0, i as int)), id_le()),
            issues@ == found_issues(all.subrange(0, i as int)),
        decreases rest@.len(),
    {
        let (path, result) = rest.remove(0);
        let ghost prefix = all.subrange(0, i + 1);
        assert(prefix.drop_last() =~= all.subrange(0, i as int));
        assert(prefix.last() == (path, result));
        match result {
            Ok(Some(d)) => {
                let ghost found = found_devices(all.subrange(0, i as int));
                assert(found_devices(prefix) == found.push(d));
                assert(found.push(d).drop_last() =~= found);
                insert_device(&mut devices, d);
            },
            Ok(None) => {},
            Err(error) => {
                issues.push(DiscoveryIssue { device_path: path, error });
            },
        }
        i = i + 1;
        assert(rest@ =~= all.subrange(i as int, all.len() as int));
    }
    assert(all.subrange(0, all.len() as int) =~= all);
    DiscoverySnapshot { devices, issues }
}

/// Whether opening with this policy tries an exclusive grab.
pub fn wants_grab(mode: AccessMode) -> (r: bool)
    ensures
        r == !(mode is Shared),
{
    match mode {
        AccessMode::Shared => false,
        AccessMode::Exclusive | AccessMode::PreferExclusive => true,
    }
}

/// The access an open obtains, given whether the exclusive grab succeeded
/// (ignored for shared access); none when an exclusive open could not grab
/// the device, which fails the open.
pub open spec fn access_spec(mode: AccessMode, grabbed: bool) -> Option<CaptureAccess> {
    match mode {
        AccessMode::Shared => Some(CaptureAccess::Shared),
        AccessMode::Exclusive => if grabbed {
            Some(CaptureAccess::Exclusive)
        } else {
            None
        },
        AccessMode::PreferExclusive => if grabbed {
            Some(CaptureAccess::Exclusive)
        } else {
            Some(CaptureAccess::SharedFallback)
        },
    }
}

/// The access an open obtains under a policy, given whether the grab succeeded.
pub fn access_after_grab(mode: AccessMode, grabbed: bool) -> (r: Option<CaptureAccess>)
    ensures
        r == access_spec(mode, grabbed),
{
    match mode {
        AccessMode::Shared => Some(CaptureAccess::Shared),
        AccessMode::Exclusive => if grabbed {
            Some(CaptureAccess::Exclusive)
        } else {
            None
        },
        AccessMode::PreferExclusive => if grabbed {
            Some(CaptureAccess::Exclusive)
        } else {
            Some(CaptureAccess::SharedFallback)
        },
    }
}

/// An error from an operating-system call on a node: a refused permission
/// is reported as such whatever the operation; the message names the node
/// and what the system said.
pub fn io_failure(kind: CaptureErrorKind, permission_denied: bool, path: &str, detail: &str) -> (e: CaptureError)
    ensures
        e.kind == if permission_denied {
            CaptureErrorKind::PermissionDenied
        } else {
            kind
        },
        e.message@ == path@ + ": "@ + detail@,
{
    let kind = if permission_denied {
        CaptureErrorKind::PermissionDenied
    } else {
        kind
    };
    let mut message = String::new();
    push_str(&mut message, path);
    push_str(&mut message, ": ");
    push_str(&mut message, detail);
    assert(message@ =~= path@ + ": "@ + detail@);
    CaptureError::new(kind, message.as_str())
}

} // verus!
