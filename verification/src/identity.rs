//! Identity construction and stability policy.

use vstd::prelude::*;
use vstd::utf8::encode_utf8;

use crate::model::{DeviceIdentity, PhysicalDeviceId, SourceId, Transport};
use crate::text::{
    digit_char, hex2_upper, hex4, hex_digit, is_blank, push_char, push_hex4, push_str, trim,
};

verus! {

/// Bytes that identifiers keep verbatim: ASCII letters, digits, `-`, `_`, `.` and `/`.
pub open spec fn is_unreserved(b: u8) -> bool {
    (0x30 <= b <= 0x39) || (0x41 <= b <= 0x5a) || (0x61 <= b <= 0x7a) || b == 0x2d || b == 0x5f
        || b == 0x2e || b == 0x2f
}

/// One byte of an identifier: itself when unreserved, else `%` and two uppercase hex digits.
pub open spec fn escape_byte(b: u8) -> Seq<char> {
    if is_unreserved(b) {
        seq![b as char]
    } else {
        seq!['%'] + hex2_upper(b)
    }
}

pub open spec fn escape_bytes(bytes: Seq<u8>) -> Seq<char>
    decreases bytes.len(),
{
    if bytes.len() == 0 {
        seq![]
    } else {
        escape_byte(bytes[0]) + escape_bytes(bytes.drop_first())
    }
}

/// The escaped form of text: its UTF-8 bytes, each escaped.
pub open spec fn escape_text(s: Seq<char>) -> Seq<char> {
    escape_bytes(encode_utf8(s))
}

/// The transport label used in physical identities.
pub open spec fn transport_label(transport: Transport) -> Seq<char> {
    match transport {
        Transport::Usb => "usb"@,
        Transport::Bluetooth => "bluetooth"@,
        Transport::Virtual => "virtual"@,
        Transport::Other(value) => "bus-"@ + hex4(value),
        Transport::Unknown => "unknown"@,
    }
}

/// Whether an optional text is present and not only white space.
pub open spec fn usable(value: Option<Seq<char>>) -> bool {
    value matches Some(v) && trim(v).len() > 0
}

/// The discriminator: the unique ID when usable, else the topology path, else `anonymous`.
pub open spec fn discriminator(unique_id: Option<Seq<char>>, physical_path: Option<Seq<char>>) -> Seq<
    char,
> {
    if usable(unique_id) {
        "uniq:"@ + escape_text(unique_id->0)
    } else if usable(physical_path) {
        "phys:"@ + escape_text(physical_path->0)
    } else {
        "anonymous"@
    }
}

/// `{bus:04x}:{vendor:04x}:{product:04x}:{transport}:{discriminator}`.
pub open spec fn physical_id_text(
    identity: DeviceIdentity,
    transport: Transport,
    unique_id: Option<Seq<char>>,
    physical_path: Option<Seq<char>>,
) -> Seq<char> {
    hex4(identity.bus_type) + ":"@ + hex4(identity.vendor_id) + ":"@ + hex4(identity.product_id) + ":"@
        + transport_label(transport) + ":"@ + discriminator(unique_id, physical_path)
}

/// `{physical_id}:source:{escaped device path}`.
pub open spec fn source_id_text(physical_id: Seq<char>, device_path: Seq<char>) -> Seq<char> {
    physical_id + ":source:"@ + escape_text(device_path)
}

pub open spec fn opt_view(value: Option<&str>) -> Option<Seq<char>> {
    match value {
        Some(s) => Some(s@),
        None => None,
    }
}

fn push_transport_label(s: &mut String, transport: Transport)
    ensures
        final(s)@ == old(s)@ + transport_label(transport),
{
    match transport {
        Transport::Usb => push_str(s, "usb"),
        Transport::Bluetooth => push_str(s, "bluetooth"),
        Transport::Virtual => push_str(s, "virtual"),
        Transport::Other(value) => {
            push_str(s, "bus-");
            push_hex4(s, value);
            proof {
                reveal_strlit("bus-");
            }
            assert(final(s)@ =~= old(s)@ + transport_label(transport));
        },
        Transport::Unknown => push_str(s, "unknown"),
    }
}

fn byte_char(b: u8) -> (c: char)
    ensures
        c == b as char,
{
    b as char
}

/// Appends the escaped form of a string.
fn push_escaped(s: &mut String, value: &str)
    ensures
        final(s)@ == old(s)@ + escape_text(value@),
{
    let bytes = value.as_bytes();
    let ghost all = bytes@;
    let mut i: usize = 0;
    assert(all.subrange(0, all.len() as int) =~= all);
    while i < bytes.len()
        invariant
            i <= all.len(),
            all == bytes@,
            all == encode_utf8(value@),
            s@ + escape_bytes(all.subrange(i as int, all.len() as int)) == old(s)@ + escape_bytes(all),
        decreases all.len() - i,
    {
        let b = bytes[i];
        let ghost rest = all.subrange(i as int, all.len() as int);
        assert(rest[0] == b);
        assert(rest.drop_first() =~= all.subrange(i + 1, all.len() as int));
        let ghost before = s@;
        let unreserved = (0x30 <= b && b <= 0x39) || (0x41 <= b && b <= 0x5a) || (0x61 <= b && b <= 0x7a)
            || b == 0x2d || b == 0x5f || b == 0x2e || b == 0x2f;
        if unreserved {
            push_char(s, byte_char(b));
        } else {
            push_char(s, '%');
            push_char(s, digit_char(b / 16, true));
            push_char(s, digit_char(b % 16, true));
        }
        assert(s@ =~= before + escape_byte(b));
        assert(s@ + escape_bytes(all.subrange(i + 1, all.len() as int)) =~= before + escape_bytes(rest));
        i = i + 1;
    }
    assert(all.subrange(i as int, all.len() as int) =~= Seq::<u8>::empty());
    assert(s@ =~= s@ + escape_bytes(Seq::<u8>::empty()));
}

/// Build an inspectable physical identity, preferring a hardware unique ID and
/// then topology. The returned value is stable only as far as the supplied
/// kernel identifiers are stable.
pub fn build_physical_id(
    identity: &DeviceIdentity,
    transport: Transport,
    unique_id: Option<&str>,
    physical_path: Option<&str>,
) -> (id: PhysicalDeviceId)
    ensures
        id@ == physical_id_text(*identity, transport, opt_view(unique_id), opt_view(physical_path)),
{
    let mut s = String::new();
    push_hex4(&mut s, identity.bus_type);
    push_char(&mut s, ':');
    push_hex4(&mut s, identity.vendor_id);
    push_char(&mut s, ':');
    push_hex4(&mut s, identity.product_id);
    push_char(&mut s, ':');
    push_transport_label(&mut s, transport);
    push_char(&mut s, ':');
    let ghost head = s@;
    let use_unique = match unique_id {
        Some(value) => !is_blank(value),
        None => false,
    };
    let use_path = match physical_path {
        Some(value) => !is_blank(value),
        None => false,
    };
    if use_unique {
        let value = unique_id.unwrap();
        push_str(&mut s, "uniq:");
        push_escaped(&mut s, value);
    } else if use_path {
        let value = physical_path.unwrap();
        push_str(&mut s, "phys:");
        push_escaped(&mut s, value);
    } else {
        push_str(&mut s, "anonymous");
    }
    proof {
        reveal_strlit(":");
        assert(head =~= hex4(identity.bus_type) + ":"@ + hex4(identity.vendor_id) + ":"@ + hex4(
            identity.product_id,
        ) + ":"@ + transport_label(transport) + ":"@);
        assert(s@ =~= head + discriminator(opt_view(unique_id), opt_view(physical_path)));
    }
    PhysicalDeviceId::from_string(s)
}

/// Build the identity of one evdev source. Event node numbers are connection
/// scoped, which is appropriate here but not for persisted physical identity.
pub fn build_source_id(physical_id: &PhysicalDeviceId, device_path: &str) -> (id: SourceId)
    ensures
        id@ == source_id_text(physical_id@, device_path@),
{
    let mut s = String::new();
    push_str(&mut s, physical_id.as_str());
    push_str(&mut s, ":source:");
    push_escaped(&mut s, device_path);
    assert(s@ =~= source_id_text(physical_id@, device_path@));
    SourceId::from_string(s)
}

proof fn lemma_hex_digit_injective(a: nat, b: nat, upper: bool)
    requires
        a < 16,
        b < 16,
        hex_digit(a, upper) == hex_digit(b, upper),
    ensures
        a == b,
{
}

proof fn lemma_escape_byte_nonempty(b: u8)
    ensures
        escape_byte(b).len() > 0,
        escape_byte(b)[0] == '%' <==> !is_unreserved(b),
{
    if is_unreserved(b) {
        assert((b as char) != '%');
    }
}

proof fn lemma_escape_bytes_empty(bytes: Seq<u8>)
    ensures
        escape_bytes(bytes).len() == 0 <==> bytes.len() == 0,
{
    if bytes.len() > 0 {
        lemma_escape_byte_nonempty(bytes[0]);
    }
}

/// Escaping is injective: different byte strings never escape alike.
pub proof fn lemma_escape_bytes_injective(a: Seq<u8>, b: Seq<u8>)
    requires
        escape_bytes(a) == escape_bytes(b),
    ensures
        a == b,
    decreases a.len(),
{
    lemma_escape_bytes_empty(a);
    lemma_escape_bytes_empty(b);
    if a.len() > 0 {
        let x = a[0];
        let y = b[0];
        lemma_escape_byte_nonempty(x);
        lemma_escape_byte_nonempty(y);
        let ea = escape_byte(x);
        let eb = escape_byte(y);
        assert(escape_bytes(a) == ea + escape_bytes(a.drop_first()));
        assert(escape_bytes(b) == eb + escape_bytes(b.drop_first()));
        assert(escape_bytes(a)[0] == ea[0]);
        assert(escape_bytes(b)[0] == eb[0]);
        if is_unreserved(x) {
            assert(is_unreserved(y));
            assert((x as char) == (y as char));
            assert(x == y);
        } else {
            assert(!is_unreserved(y));
            assert(escape_bytes(a)[1] == ea[1]);
            assert(escape_bytes(b)[1] == eb[1]);
            assert(escape_bytes(a)[2] == ea[2]);
            assert(escape_bytes(b)[2] == eb[2]);
            lemma_hex_digit_injective((x / 16) as nat, (y / 16) as nat, true);
            lemma_hex_digit_injective((x % 16) as nat, (y % 16) as nat, true);
            assert(x == y);
        }
        assert(ea == eb);
        assert(escape_bytes(a.drop_first()) =~= escape_bytes(a).subrange(ea.len() as int, escape_bytes(a).len() as int));
        assert(escape_bytes(b.drop_first()) =~= escape_bytes(b).subrange(eb.len() as int, escape_bytes(b).len() as int));
        lemma_escape_bytes_injective(a.drop_first(), b.drop_first());
        assert(a =~= seq![x] + a.drop_first());
        assert(b =~= seq![y] + b.drop_first());
    } else {
        assert(a =~= b);
    }
}

/// Escaping text is injective.
pub proof fn lemma_escape_text_injective(a: Seq<char>, b: Seq<char>)
    requires
        escape_text(a) == escape_text(b),
    ensures
        a == b,
{
    lemma_escape_bytes_injective(encode_utf8(a), encode_utf8(b));
    vstd::utf8::encode_utf8_decode_utf8(a);
    vstd::utf8::encode_utf8_decode_utf8(b);
}

/// A usable unique ID alone decides the discriminator: the topology path does
/// not change the physical identity (a serial survives event-node changes).
pub proof fn law_unique_id_survives_topology_change(
    identity: DeviceIdentity,
    transport: Transport,
    unique_id: Seq<char>,
    path_a: Option<Seq<char>>,
    path_b: Option<Seq<char>>,
)
    requires
        trim(unique_id).len() > 0,
    ensures
        physical_id_text(identity, transport, Some(unique_id), path_a) == physical_id_text(
            identity,
            transport,
            Some(unique_id),
            path_b,
        ),
{
}

/// Without a usable unique ID, distinct usable topology paths give distinct
/// physical identities for otherwise identical devices.
pub proof fn law_topology_distinguishes_serial_less_devices(
    identity: DeviceIdentity,
    transport: Transport,
    unique_a: Option<Seq<char>>,
    unique_b: Option<Seq<char>>,
    path_a: Seq<char>,
    path_b: Seq<char>,
)
    requires
        !usable(unique_a),
        !usable(unique_b),
        trim(path_a).len() > 0,
        trim(path_b).len() > 0,
        path_a != path_b,
    ensures
        physical_id_text(identity, transport, unique_a, Some(path_a)) != physical_id_text(
            identity,
            transport,
            unique_b,
            Some(path_b),
        ),
{
    let head = hex4(identity.bus_type) + ":"@ + hex4(identity.vendor_id) + ":"@ + hex4(
        identity.product_id,
    ) + ":"@ + transport_label(transport) + ":"@ + "phys:"@;
    let x = physical_id_text(identity, transport, unique_a, Some(path_a));
    let y = physical_id_text(identity, transport, unique_b, Some(path_b));
    assert(x =~= head + escape_text(path_a));
    assert(y =~= head + escape_text(path_b));
    if x == y {
        assert(escape_text(path_a) =~= x.subrange(head.len() as int, x.len() as int));
        assert(escape_text(path_b) =~= y.subrange(head.len() as int, y.len() as int));
        lemma_escape_text_injective(path_a, path_b);
    }
}

/// Different event-node paths give different source identities for one physical device.
pub proof fn law_source_ids_distinguish_paths(physical_id: Seq<char>, path_a: Seq<char>, path_b: Seq<char>)
    requires
        path_a != path_b,
    ensures
        source_id_text(physical_id, path_a) != source_id_text(physical_id, path_b),
{
    let head = physical_id + ":source:"@;
    let x = source_id_text(physical_id, path_a);
    let y = source_id_text(physical_id, path_b);
    if x == y {
        assert(escape_text(path_a) =~= x.subrange(head.len() as int, x.len() as int));
        assert(escape_text(path_b) =~= y.subrange(head.len() as int, y.len() as int));
        lemma_escape_text_injective(path_a, path_b);
    }
}

} // verus!
