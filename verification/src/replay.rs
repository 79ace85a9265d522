//! Deterministic capture-provider fixtures for tests and diagnostics.
//!
//! Replay inputs are deliberately native [`EventBatch`] values. They do not
//! normalize controller controls or depend on `/dev/input`.

use vstd::prelude::*;

use crate::model::{
    AccessMode, CaptureAccess, CaptureError, CaptureErrorKind, DeviceDescriptor,
    DiscoverySnapshot, EventBatch, NativeEvent, SourceId, Transport,
};
use crate::session::{open_answer, CaptureProvider, EventSource, OpenCall, Opened, ProviderScript};
use crate::text::{decimal, push_char, push_decimal, push_str};
use std::collections::VecDeque;

verus! {

/// A sanitized, versioned description of fixture sources.
///
/// This deliberately omits device paths, physical paths, unique IDs, serials,
/// and Bluetooth addresses. Hardware recordings may retain those values in a
/// private bundle, but shared fixtures must use this manifest form.
#[derive(Debug, PartialEq, Eq)]
pub struct FixtureManifest {
    pub format_version: u32,
    pub synthetic: bool,
    pub sources: Vec<FixtureSource>,
}

/// One non-sensitive source entry in a [`FixtureManifest`].
#[derive(Debug, PartialEq, Eq)]
pub struct FixtureSource {
    pub reported_name: String,
    pub bus_type: u16,
    pub vendor_id: u16,
    pub product_id: u16,
    pub version: u16,
    pub transport: String,
    pub control_count: usize,
}

/// The model of a fixture source entry.
pub struct SourceModel {
    pub reported_name: Seq<char>,
    pub bus_type: u16,
    pub vendor_id: u16,
    pub product_id: u16,
    pub version: u16,
    pub transport: Seq<char>,
    pub control_count: usize,
}

impl View for FixtureSource {
    type V = SourceModel;

    open spec fn view(&self) -> SourceModel {
        SourceModel {
            reported_name: self.reported_name@,
            bus_type: self.bus_type,
            vendor_id: self.vendor_id,
            product_id: self.product_id,
            version: self.version,
            transport: self.transport@,
            control_count: self.control_count,
        }
    }
}

/// The `Debug` text of a transport: `Usb`, `Bluetooth`, `Virtual`, `Other(n)` or `Unknown`.
pub open spec fn transport_debug(transport: Transport) -> Seq<char> {
    match transport {
        Transport::Usb => "Usb"@,
        Transport::Bluetooth => "Bluetooth"@,
        Transport::Virtual => "Virtual"@,
        Transport::Other(value) => "Other("@ + decimal(value as nat) + ")"@,
        Transport::Unknown => "Unknown"@,
    }
}

/// The sanitized entry for one device: name, numeric identity, transport and control count.
pub open spec fn sanitized_source(device: DeviceDescriptor) -> SourceModel {
    SourceModel {
        reported_name: device.reported_name@,
        bus_type: device.identity.bus_type,
        vendor_id: device.identity.vendor_id,
        product_id: device.identity.product_id,
        version: device.identity.version,
        transport: transport_debug(device.transport),
        control_count: device.controls@.len() as usize,
    }
}

fn transport_text(transport: Transport) -> (s: String)
    ensures
        s@ == transport_debug(transport),
{
    let mut s = String::new();
    match transport {
        Transport::Usb => push_str(&mut s, "Usb"),
        Transport::Bluetooth => push_str(&mut s, "Bluetooth"),
        Transport::Virtual => push_str(&mut s, "Virtual"),
        Transport::Other(value) => {
            push_str(&mut s, "Other(");
            push_decimal(&mut s, value as u128);
            push_char(&mut s, ')');
            proof {
                reveal_strlit("Other(");
                reveal_strlit(")");
            }
            assert(s@ =~= transport_debug(transport));
        },
        Transport::Unknown => push_str(&mut s, "Unknown"),
    }
    s
}

impl FixtureManifest {
    /// Build the current manifest format from descriptors without identifiers
    /// that can identify a host or controller connection.
    pub fn sanitized(synthetic: bool, devices: &[DeviceDescriptor]) -> (m: Self)
        ensures
            m.format_version == 1,
            m.synthetic == synthetic,
            m.sources@.len() == devices@.len(),
            forall|i: int|
                0 <= i < devices@.len() ==> (#[trigger] m.sources@[i])@ == sanitized_source(devices@[i]),
    {
        let mut sources: Vec<FixtureSource> = Vec::new();
        let mut i: usize = 0;
        while i < devices.len()
            invariant
                i <= devices@.len(),
                sources@.len() == i,
                forall|k: int| 0 <= k < i ==> (#[trigger] sources@[k])@ == sanitized_source(devices@[k]),
            decreases devices@.len() - i,
        {
            let device = &devices[i];
            let source = FixtureSource {
                reported_name: device.reported_name.clone(),
                bus_type: device.identity.bus_type,
                vendor_id: device.identity.vendor_id,
                product_id: device.identity.product_id,
                version: device.identity.version,
                transport: transport_text(device.transport),
                control_count: device.controls.len(),
            };
            sources.push(source);
            i = i + 1;
        }
        FixtureManifest { format_version: 1, synthetic, sources }
    }
}

/// Timestamped native input evidence stored in a fixture frame.
#[derive(Debug, Clone, Copy, PartialEq, Eq, Structural)]
pub struct FixtureNativeEvent {
    pub timestamp_micros: u128,
    pub event_type: u16,
    pub code: u16,
    pub value: i32,
}

/// One native event frame, indexed into [`FixtureManifest::sources`].
#[derive(Debug, PartialEq, Eq)]
pub struct FixtureFrame {
    pub source_index: usize,
    pub sequence: u64,
    pub events: Vec<FixtureNativeEvent>,
}

impl View for FixtureFrame {
    type V = (usize, u64, Seq<FixtureNativeEvent>);

    open spec fn view(&self) -> (usize, u64, Seq<FixtureNativeEvent>) {
        (self.source_index, self.sequence, self.events@)
    }
}

/// A sanitized fixture bundle containing the discovery manifest and raw frames.
#[derive(Debug, PartialEq, Eq)]
pub struct FixtureRecording {
    pub manifest: FixtureManifest,
    pub frames: Vec<FixtureFrame>,
}

/// The fixture index recorded for a source ID: the last entry with that ID wins.
pub open spec fn index_for(indices: Seq<(SourceId, usize)>, id: Seq<char>) -> Option<usize>
    decreases indices.len(),
{
    if indices.len() == 0 {
        None
    } else if indices.last().0@ == id {
        Some(indices.last().1)
    } else {
        index_for(indices.drop_last(), id)
    }
}

/// A native event with its time as whole microseconds since the epoch.
pub open spec fn fixture_event(event: NativeEvent) -> FixtureNativeEvent {
    FixtureNativeEvent {
        timestamp_micros: event.timestamp.spec_micros() as u128,
        event_type: event.event_type,
        code: event.code,
        value: event.value,
    }
}

/// One frame per batch whose source has an index, in batch order; batches of
/// other sources are left out.
pub open spec fn recorded_frames(batches: Seq<EventBatch>, indices: Seq<(SourceId, usize)>) -> Seq<
    (usize, u64, Seq<FixtureNativeEvent>),
>
    decreases batches.len(),
{
    if batches.len() == 0 {
        seq![]
    } else {
        let rest = recorded_frames(batches.drop_last(), indices);
        let batch = batches.last();
        match index_for(indices, batch.source_id@) {
            Some(index) => rest.push(
                (index, batch.sequence, batch.events@.map_values(|e: NativeEvent| fixture_event(e))),
            ),
            None => rest,
        }
    }
}

fn lookup_index(indices: &[(SourceId, usize)], id: &SourceId) -> (r: Option<usize>)
    ensures
        r == index_for(indices@, id@),
{
    let mut i = indices.len();
    assert(indices@.subrange(0, indices@.len() as int) =~= indices@);
    while i > 0
        invariant
            i <= indices@.len(),
            index_for(indices@, id@) == index_for(indices@.subrange(0, i as int), id@),
        decreases i,
    {
        let ghost pre = indices@.subrange(0, i as int);
        assert(pre.drop_last() =~= indices@.subrange(0, i - 1));
        if indices[i - 1].0.same(id) {
            return Some(indices[i - 1].1);
        }
        i = i - 1;
    }
    None
}

impl FixtureRecording {
    /// Convert native batches to a bundle without retaining source paths or IDs.
    ///
    /// `source_indices` maps source IDs to manifest indices; when an ID occurs
    /// more than once, its last entry counts.
    pub fn sanitized(
        manifest: FixtureManifest,
        batches: &[EventBatch],
        source_indices: &[(SourceId, usize)],
    ) -> (r: Self)
        ensures
            r.manifest == manifest,
            r.frames@.map_values(|f: FixtureFrame| f@) == recorded_frames(batches@, source_indices@),
    {
        let mut frames: Vec<FixtureFrame> = Vec::new();
        let mut i: usize = 0;
        while i < batches.len()
            invariant
                i <= batches@.len(),
                frames@.map_values(|f: FixtureFrame| f@) == recorded_frames(
                    batches@.subrange(0, i as int),
                    source_indices@,
                ),
            decreases batches@.len() - i,
        {
            let ghost pre = batches@.subrange(0, i + 1);
            assert(pre.drop_last() =~= batches@.subrange(0, i as int));
            let batch = &batches[i];
            match lookup_index(source_indices, &batch.source_id) {
                Some(source_index) => {
                    let mut events: Vec<FixtureNativeEvent> = Vec::new();
                    let mut k: usize = 0;
                    while k < batch.events.len()
                        invariant
                            k <= batch.events@.len(),
                            events@ == batch.events@.subrange(0, k as int).map_values(
                                |e: NativeEvent| fixture_event(e),
                            ),
                        decreases batch.events@.len() - k,
                    {
                        let event = batch.events[k];
                        events.push(FixtureNativeEvent {
                            timestamp_micros: event.timestamp.micros_since_epoch(),
                            event_type: event.event_type,
                            code: event.code,
                            value: event.value,
                        });
                        k = k + 1;
                        assert(events@ =~= batch.events@.subrange(0, k as int).map_values(
                            |e: NativeEvent| fixture_event(e),
                        ));
                    }
                    assert(batch.events@.subrange(0, k as int) =~= batch.events@);
                    let ghost before = frames@.map_values(|f: FixtureFrame| f@);
                    let frame = FixtureFrame { source_index, sequence: batch.sequence, events };
                    let ghost fv = frame@;
                    frames.push(frame);
                    assert(frames@.map_values(|f: FixtureFrame| f@) =~= before.push(fv));
                },
                None => {},
            }
            i = i + 1;
        }
        assert(batches@.subrange(0, i as int) =~= batches@);
        FixtureRecording { manifest, frames }
    }
}

/// Read results emitted by one source when it is opened by [`ReplayProvider`].
#[derive(Debug)]
pub struct ReplaySourcePlan {
    pub access: CaptureAccess,
    pub reads: VecDeque<Result<Vec<EventBatch>, CaptureError>>,
}

impl ReplaySourcePlan {
    pub fn new(access: CaptureAccess, reads: Vec<Result<Vec<EventBatch>, CaptureError>>) -> (p: Self)
        ensures
            p.access == access,
            p.reads@ == reads@,
    {
        let ghost all = reads@;
        let total = reads.len();
        let mut rest = reads;
        let mut queue: VecDeque<Result<Vec<EventBatch>, CaptureError>> = VecDeque::new();
        let mut k: usize = 0;
        while rest.len() > 0
            invariant
                queue@ == all.subrange(0, k as int),
                rest@ == all.subrange(k as int, all.len() as int),
                k + rest@.len() == all.len(),
                all.len() == total,
            decreases rest@.len(),
        {
            let ghost before = rest@;
            let read = rest.remove(0);
            queue.push_back(read);
            k = k + 1;
            assert(queue@ =~= all.subrange(0, k as int));
            assert(rest@ =~= all.subrange(k as int, all.len() as int));
        }
        assert(all.subrange(0, k as int) =~= all);
        ReplaySourcePlan { access, reads: queue }
    }
}

/// A deterministic provider whose scans and source reads are supplied by tests
/// or diagnostic tools. It keeps the call log the session contracts speak of,
/// and so do the sources it opens; its invariant is that those logs are a
/// faithful run of the scans and plans it was made with.
pub struct ReplayProvider {
    scans: Vec<Result<DiscoverySnapshot, CaptureError>>,
    sources: Vec<(SourceId, Vec<ReplaySourcePlan>)>,
    scans_log: Ghost<Seq<Result<DiscoverySnapshot, CaptureError>>>,
    opens_log: Ghost<Seq<OpenCall>>,
    supplied_scans: Ghost<Seq<Result<DiscoverySnapshot, CaptureError>>>,
    supplied_opens: Ghost<spec_fn(Seq<char>) -> Option<Seq<Opened>>>,
}

/// What a source opened from `plan` reports: the plan's access and its reads.
pub open spec fn opened_of(plan: ReplaySourcePlan) -> Opened {
    (plan.access, Some(plan.reads@))
}

/// What opens of the plans `plans` report, in order.
pub open spec fn opened_plans(plans: Option<Seq<ReplaySourcePlan>>) -> Option<Seq<Opened>> {
    match plans {
        Some(ps) => Some(ps.map_values(|plan: ReplaySourcePlan| opened_of(plan))),
        None => None,
    }
}

/// One open of a source ID whose scripted opens left are `before`: the
/// first of them, with `after` the rest; once they are used up, or when none
/// was scripted, an `Open` error, with nothing changed.
pub open spec fn scripted_open(
    before: Option<Seq<Opened>>,
    answer: Result<Opened, CaptureError>,
    after: Option<Seq<Opened>>,
) -> bool {
    match before {
        None => {
            &&& answer matches Err(e) && e.kind == CaptureErrorKind::Open && e.message@ == "source has no replay plan"@
            &&& after == before
        },
        Some(opens) => if opens.len() == 0 {
            &&& answer matches Err(e) && e.kind == CaptureErrorKind::Open
                && e.message@ == "source replay plan was exhausted"@
            &&& after == before
        } else {
            &&& answer == Ok::<Opened, CaptureError>(opens[0])
            &&& after == Some(opens.drop_first())
        },
    }
}

/// The scans answered so far are the supplied ones in order, then empty
/// snapshots, and those still pending are the rest of the supplied ones.
pub open spec fn scans_follow(
    supplied: Seq<Result<DiscoverySnapshot, CaptureError>>,
    answered: Seq<Result<DiscoverySnapshot, CaptureError>>,
    pending: Seq<Result<DiscoverySnapshot, CaptureError>>,
) -> bool {
    if answered.len() <= supplied.len() {
        answered + pending == supplied
    } else {
        &&& answered.subrange(0, supplied.len() as int) == supplied
        &&& pending.len() == 0
        &&& forall|k: int|
            supplied.len() <= k < answered.len() ==> (#[trigger] answered[k] matches Ok(snapshot)
                && snapshot.devices@.len() == 0 && snapshot.issues@.len() == 0)
    }
}

/// The scripted opens left for `id` after the logged opens, starting from `initial`.
pub open spec fn opens_left(
    initial: spec_fn(Seq<char>) -> Option<Seq<Opened>>,
    log: Seq<OpenCall>,
    id: Seq<char>,
) -> Option<Seq<Opened>>
    decreases log.len(),
{
    if log.len() == 0 {
        initial(id)
    } else {
        let before = opens_left(initial, log.drop_last(), id);
        if log.last().0.source_id@ == id {
            match before {
                Some(p) => if p.len() > 0 {
                    Some(p.drop_first())
                } else {
                    before
                },
                None => before,
            }
        } else {
            before
        }
    }
}

/// Every logged open answered as the scripted opens left for its source ID
/// said: the next of them, or an `Open` error once none is left.
pub open spec fn opens_follow(initial: spec_fn(Seq<char>) -> Option<Seq<Opened>>, log: Seq<OpenCall>) -> bool
    decreases log.len(),
{
    log.len() == 0 || {
        let id = log.last().0.source_id@;
        &&& opens_follow(initial, log.drop_last())
        &&& scripted_open(opens_left(initial, log.drop_last(), id), log.last().2, opens_left(initial, log, id))
    }
}

/// The plans supplied for a source ID, in supply order.
pub open spec fn plans_in(pairs: Seq<(SourceId, ReplaySourcePlan)>, id: Seq<char>) -> Seq<
    ReplaySourcePlan,
>
    decreases pairs.len(),
{
    if pairs.len() == 0 {
        seq![]
    } else {
        let rest = plans_in(pairs.drop_last(), id);
        if pairs.last().0@ == id {
            rest.push(pairs.last().1)
        } else {
            rest
        }
    }
}

/// Whether any pair carries this source ID.
pub open spec fn has_plans(pairs: Seq<(SourceId, ReplaySourcePlan)>, id: Seq<char>) -> bool {
    exists|i: int| 0 <= i < pairs.len() && (#[trigger] pairs[i]).0@ == id
}

spec fn group_index(groups: Seq<(SourceId, Vec<ReplaySourcePlan>)>, id: Seq<char>) -> int
    decreases groups.len(),
{
    if groups.len() == 0 {
        -1
    } else if groups.last().0@ == id {
        groups.len() - 1
    } else {
        group_index(groups.drop_last(), id)
    }
}

/// The groups hold, per distinct source ID, its plans; IDs do not repeat.
spec fn groups_wf(groups: Seq<(SourceId, Vec<ReplaySourcePlan>)>) -> bool {
    forall|i: int, j: int| 0 <= i < j < groups.len() ==> (#[trigger] groups[i]).0@ != (#[trigger] groups[j]).0@
}

spec fn group_plans(groups: Seq<(SourceId, Vec<ReplaySourcePlan>)>, id: Seq<char>) -> Option<Seq<ReplaySourcePlan>> {
    let i = group_index(groups, id);
    if i < 0 {
        None
    } else {
        Some(groups[i].1@)
    }
}

proof fn lemma_group_index(groups: Seq<(SourceId, Vec<ReplaySourcePlan>)>, id: Seq<char>)
    ensures
        -1 <= group_index(groups, id) < groups.len(),
        group_index(groups, id) >= 0 ==> groups[group_index(groups, id)].0@ == id,
        group_index(groups, id) < 0 ==> forall|k: int| 0 <= k < groups.len() ==> (#[trigger] groups[k]).0@ != id,
    decreases groups.len(),
{
    if groups.len() > 0 {
        lemma_group_index(groups.drop_last(), id);
        if groups.last().0@ != id {
            assert forall|k: int| 0 <= k < groups.len() - 1 implies groups[k] == groups.drop_last()[k] by {}
        }
    }
}

proof fn lemma_group_index_unique(groups: Seq<(SourceId, Vec<ReplaySourcePlan>)>, id: Seq<char>, k: int)
    requires
        groups_wf(groups),
        0 <= k < groups.len(),
        groups[k].0@ == id,
    ensures
        group_index(groups, id) == k,
    decreases groups.len(),
{
    if k < groups.len() - 1 {
        assert(groups.last().0@ != id) by {
            assert(groups[k].0@ != groups[groups.len() - 1].0@);
        }
        let t = groups.drop_last();
        assert(groups_wf(t)) by {
            assert forall|i: int, j: int| 0 <= i < j < t.len() implies (#[trigger] t[i]).0@ != (#[trigger] t[j]).0@ by {
                assert(t[i] == groups[i] && t[j] == groups[j]);
            }
        }
        lemma_group_index_unique(t, id, k);
    }
}

/// One enumeration from the pending scans `before`: the first of them, with
/// `after` the rest, or an empty snapshot once none is left.
pub open spec fn replay_scan(
    before: Seq<Result<DiscoverySnapshot, CaptureError>>,
    r: Result<DiscoverySnapshot, CaptureError>,
    after: Seq<Result<DiscoverySnapshot, CaptureError>>,
) -> bool {
    if before.len() > 0 {
        &&& r == before[0]
        &&& after == before.drop_first()
    } else {
        &&& r matches Ok(snapshot)
        &&& snapshot.devices@.len() == 0
        &&& snapshot.issues@.len() == 0
        &&& after.len() == 0
    }
}

/// One open of a source ID whose remaining plans are `before`: what a source
/// opened from the first plan reports (its access and reads), with `after`
/// the rest; once they are used up, or when none
/// was supplied, an `Open` error, with nothing changed.
pub open spec fn replay_open(
    before: Option<Seq<ReplaySourcePlan>>,
    answer: Result<Opened, CaptureError>,
    after: Option<Seq<ReplaySourcePlan>>,
) -> bool {
    match before {
        None => {
            &&& answer matches Err(e) && e.kind == CaptureErrorKind::Open && e.message@ == "source has no replay plan"@
            &&& after == before
        },
        Some(plans) => if plans.len() == 0 {
            &&& answer matches Err(e) && e.kind == CaptureErrorKind::Open
                && e.message@ == "source replay plan was exhausted"@
            &&& after == before
        } else {
            &&& answer == Ok::<Opened, CaptureError>((plans[0].access, Some(plans[0].reads@)))
            &&& after == Some(plans.drop_first())
        },
    }
}

/// Successive enumerations hand out the supplied scans in order, then empty
/// snapshots.
pub proof fn law_replay_scans(
    pending: Seq<Seq<Result<DiscoverySnapshot, CaptureError>>>,
    results: Seq<Result<DiscoverySnapshot, CaptureError>>,
)
    requires
        pending.len() == results.len() + 1,
        forall|k: int| 0 <= k < results.len() ==> #[trigger] replay_scan(pending[k], results[k], pending[k + 1]),
    ensures
        forall|k: int|
            0 <= k < results.len() ==> if k < pending[0].len() {
                #[trigger] results[k] == pending[0][k]
            } else {
                results[k] matches Ok(snapshot) && snapshot.devices@.len() == 0 && snapshot.issues@.len() == 0
            },
{
    assert forall|k: int| 0 <= k < results.len() implies if k < pending[0].len() {
        #[trigger] results[k] == pending[0][k]
    } else {
        results[k] matches Ok(snapshot) && snapshot.devices@.len() == 0 && snapshot.issues@.len() == 0
    } by {
        lemma_replay_scan_chain(pending, results, k);
        assert(replay_scan(pending[k], results[k], pending[k + 1]));
    }
}

proof fn lemma_replay_scan_chain(
    pending: Seq<Seq<Result<DiscoverySnapshot, CaptureError>>>,
    results: Seq<Result<DiscoverySnapshot, CaptureError>>,
    n: int,
)
    requires
        pending.len() == results.len() + 1,
        forall|k: int| 0 <= k < results.len() ==> #[trigger] replay_scan(pending[k], results[k], pending[k + 1]),
        0 <= n <= results.len(),
    ensures
        n <= pending[0].len() ==> pending[n] == pending[0].subrange(n, pending[0].len() as int),
        n > pending[0].len() ==> pending[n].len() == 0,
    decreases n,
{
    if n > 0 {
        lemma_replay_scan_chain(pending, results, n - 1);
        let k = n - 1;
        assert(replay_scan(pending[k], results[k], pending[k + 1]));
        if n <= pending[0].len() {
            assert(pending[0].subrange(n - 1, pending[0].len() as int).drop_first() =~= pending[0].subrange(
                n,
                pending[0].len() as int,
            ));
        }
    }
}

/// Successive opens of one source ID hand out its supplied plans in supply
/// order, each opened source reporting its plan's access and holding its
/// plan's reads, then `Open` errors
/// once they are used up; an ID with no plan is never opened.
pub proof fn law_replay_opens(
    plans: Seq<Option<Seq<ReplaySourcePlan>>>,
    answers: Seq<Result<Opened, CaptureError>>,
)
    requires
        plans.len() == answers.len() + 1,
        forall|k: int| 0 <= k < answers.len() ==> #[trigger] replay_open(plans[k], answers[k], plans[k + 1]),
    ensures
        plans[0] is None ==> forall|k: int|
            0 <= k < answers.len() ==> (#[trigger] answers[k] matches Err(e) && e.kind == CaptureErrorKind::Open),
        plans[0] matches Some(supplied) ==> forall|k: int|
            0 <= k < answers.len() ==> if k < supplied.len() {
                #[trigger] answers[k] == Ok::<Opened, CaptureError>((supplied[k].access, Some(supplied[k].reads@)))
            } else {
                answers[k] matches Err(e) && e.kind == CaptureErrorKind::Open
            },
{
    assert forall|k: int| 0 <= k < answers.len() implies (plans[0] is None ==> (#[trigger] answers[k] matches Err(e)
        && e.kind == CaptureErrorKind::Open)) && (plans[0] matches Some(supplied) ==> if k < supplied.len() {
        answers[k] == Ok::<Opened, CaptureError>((supplied[k].access, Some(supplied[k].reads@)))
    } else {
        answers[k] matches Err(e) && e.kind == CaptureErrorKind::Open
    }) by {
        lemma_replay_open_chain(plans, answers, k);
        assert(replay_open(plans[k], answers[k], plans[k + 1]));
    }
}

proof fn lemma_replay_open_chain(
    plans: Seq<Option<Seq<ReplaySourcePlan>>>,
    answers: Seq<Result<Opened, CaptureError>>,
    n: int,
)
    requires
        plans.len() == answers.len() + 1,
        forall|k: int| 0 <= k < answers.len() ==> #[trigger] replay_open(plans[k], answers[k], plans[k + 1]),
        0 <= n <= answers.len(),
    ensures
        plans[0] is None ==> plans[n] is None,
        plans[0] matches Some(supplied) ==> plans[n] == Some(
            if n <= supplied.len() { supplied.subrange(n, supplied.len() as int) } else { Seq::<ReplaySourcePlan>::empty() },
        ),
    decreases n,
{
    if n > 0 {
        lemma_replay_open_chain(plans, answers, n - 1);
        let k = n - 1;
        assert(replay_open(plans[k], answers[k], plans[k + 1]));
        if let Some(supplied) = plans[0] {
            if n <= supplied.len() {
                assert(supplied.subrange(n - 1, supplied.len() as int).drop_first() =~= supplied.subrange(
                    n,
                    supplied.len() as int,
                ));
            } else if n - 1 == supplied.len() {
                assert(supplied.subrange(n - 1, supplied.len() as int) =~= Seq::<ReplaySourcePlan>::empty());
            }
        }
    }
}

impl ReplayProvider {
    /// The scan results not yet handed out, in order.
    pub closed spec fn pending_scans(&self) -> Seq<Result<DiscoverySnapshot, CaptureError>> {
        self.scans@
    }

    /// The plans not yet handed out for a source ID; `None` when none were supplied.
    pub closed spec fn plans_for(&self, id: Seq<char>) -> Option<Seq<ReplaySourcePlan>> {
        group_plans(self.sources@, id)
    }

    pub closed spec fn wf(&self) -> bool {
        groups_wf(self.sources@)
    }

    /// The scans the provider was made with.
    pub closed spec fn supplied_scans(&self) -> Seq<Result<DiscoverySnapshot, CaptureError>> {
        self.supplied_scans@
    }

    /// What the opens of each source ID report, from the plans the provider
    /// was made with; `None` when none was supplied.
    pub closed spec fn supplied_opens(&self) -> spec_fn(Seq<char>) -> Option<Seq<Opened>> {
        self.supplied_opens@
    }

    /// Takes the next supplied plan for the device's source ID.
    ///
    /// # Errors
    ///
    /// `Open` when no plan was supplied for the ID or its plans are used up.
    fn take_plan(&mut self, device: &DeviceDescriptor) -> (r: Result<ReplaySourcePlan, CaptureError>)
        ensures
            r is Err ==> final(self).sources@ == old(self).sources@,
            old(self).wf() ==> forall|id: Seq<char>|
                id != device.source_id@ ==> #[trigger] final(self).plans_for(id) == old(self).plans_for(id),
            final(self).scans_log@ == old(self).scans_log@,
            final(self).opens_log@ == old(self).opens_log@,
            final(self).supplied_scans@ == old(self).supplied_scans@,
            final(self).supplied_opens@ == old(self).supplied_opens@,
            final(self).wf() == old(self).wf(),
            final(self).pending_scans() == old(self).pending_scans(),
            match old(self).plans_for(device.source_id@) {
                None => r matches Err(e) && e.kind == CaptureErrorKind::Open
                    && e.message@ == "source has no replay plan"@,
                Some(plans) => if plans.len() == 0 {
                    r matches Err(e) && e.kind == CaptureErrorKind::Open
                        && e.message@ == "source replay plan was exhausted"@
                } else {
                    &&& r == Ok::<ReplaySourcePlan, CaptureError>(plans[0])
                    &&& old(self).wf() ==> final(self).plans_for(device.source_id@) == Some(plans.drop_first())
                },
            },
    {
        let ghost g0 = self.sources@;
        let mut g = self.sources.len();
        assert(g0.subrange(0, g0.len() as int) =~= g0);
        while g > 0 && !self.sources[g - 1].0.same(&device.source_id)
            invariant
                g <= self.sources@.len(),
                self.sources@ == g0,
                group_index(g0, device.source_id@) == group_index(g0.subrange(0, g as int), device.source_id@),
            decreases g,
        {
            let ghost pre = g0.subrange(0, g as int);
            assert(pre.drop_last() =~= g0.subrange(0, g - 1));
            g = g - 1;
        }
        proof {
            if g > 0 {
                let pre = g0.subrange(0, g as int);
                assert(pre.last() == g0[g - 1]);
            }
        }
        proof {
            lemma_group_index(g0, device.source_id@);
            lemma_group_index(g0.subrange(0, g as int), device.source_id@);
        }
        if g == 0 {
            assert(g0.subrange(0, 0) =~= Seq::<(SourceId, Vec<ReplaySourcePlan>)>::empty());
            return Err(CaptureError::new(CaptureErrorKind::Open, "source has no replay plan"));
        }
        let index = g - 1;
        assert(group_index(g0, device.source_id@) == index);
        let (gid, mut plans) = self.sources.remove(index);
        if plans.len() == 0 {
            self.sources.insert(index, (gid, plans));
            assert(self.sources@ =~= g0);
            return Err(CaptureError::new(CaptureErrorKind::Open, "source replay plan was exhausted"));
        }
        let ghost old_plans = plans@;
        let plan = plans.remove(0);
        assert(plans@ =~= old_plans.drop_first());
        self.sources.insert(index, (gid, plans));
        proof {
            let g1 = self.sources@;
            assert(g1 =~= g0.update(index as int, (gid, plans)));
            if groups_wf(g0) {
                assert(groups_wf(g1)) by {
                    assert forall|i: int, j: int| 0 <= i < j < g1.len() implies (#[trigger] g1[i]).0@ != (#[trigger] g1[j]).0@ by {
                        assert(g0[i].0@ != g0[j].0@);
                    }
                }
                lemma_group_index_unique(g1, device.source_id@, index as int);
                assert forall|id: Seq<char>| id != device.source_id@ implies #[trigger] group_plans(g1, id)
                    == group_plans(g0, id) by {
                    lemma_group_index(g0, id);
                    lemma_group_index(g1, id);
                    let k = group_index(g0, id);
                    if k >= 0 {
                        assert(k != index);
                        assert(g1[k] == g0[k]);
                        lemma_group_index_unique(g1, id, k);
                    } else if group_index(g1, id) >= 0 {
                        let k1 = group_index(g1, id);
                        if k1 != index {
                            assert(g1[k1] == g0[k1]);
                        }
                    }
                }
            }
            assert(groups_wf(g1) == groups_wf(g0)) by {
                if groups_wf(g1) {
                    assert forall|i: int, j: int| 0 <= i < j < g0.len() implies (#[trigger] g0[i]).0@ != (#[trigger] g0[j]).0@ by {
                        assert(g1[i].0@ != g1[j].0@);
                    }
                }
            }
        }
        Ok(plan)
    }

    pub fn new(
        scans: Vec<Result<DiscoverySnapshot, CaptureError>>,
        sources: Vec<(SourceId, ReplaySourcePlan)>,
    ) -> (p: Self)
        ensures
            p.wf(),
            p.pending_scans() == scans@,
            p.scans_answered().len() == 0,
            p.opens_answered().len() == 0,
            p.inv(),
            p.supplied_scans() == scans@,
            forall|id: Seq<char>| #[trigger] (p.supplied_opens())(id) == opened_plans(
                if has_plans(sources@, id) {
                    Some(plans_in(sources@, id))
                } else {
                    None::<Seq<ReplaySourcePlan>>
                },
            ),
            forall|id: Seq<char>| #[trigger] p.plans_for(id) == if has_plans(sources@, id) {
                Some(plans_in(sources@, id))
            } else {
                None::<Seq<ReplaySourcePlan>>
            },
    {
        let ghost pairs = sources@;
        let mut grouped: Vec<(SourceId, Vec<ReplaySourcePlan>)> = Vec::new();
        let mut sources = sources;
        let mut done: usize = 0;
        let total = sources.len();
        while sources.len() > 0
            invariant
                sources@ == pairs.subrange(done as int, pairs.len() as int),
                done <= pairs.len(),
                pairs.len() == total,
                groups_wf(grouped@),
                forall|id: Seq<char>| #[trigger] group_plans(grouped@, id) == if has_plans(pairs.subrange(0, done as int), id) {
                    Some(plans_in(pairs.subrange(0, done as int), id))
                } else {
                    None::<Seq<ReplaySourcePlan>>
                },
            decreases sources@.len(),
        {
            let ghost pre = pairs.subrange(0, done + 1);
            let ghost prev_pre = pairs.subrange(0, done as int);
            assert(pre.drop_last() =~= prev_pre);
            let (source_id, plan) = sources.remove(0);
            assert((source_id, plan) == pairs[done as int]);
            assert(sources@ =~= pairs.subrange(done + 1, pairs.len() as int));
            let ghost g0 = grouped@;
            let mut g: usize = 0;
            while g < grouped.len() && !grouped[g].0.same(&source_id)
                invariant
                    g <= grouped@.len(),
                    grouped@ == g0,
                    forall|k: int| 0 <= k < g ==> (#[trigger] g0[k]).0@ != source_id@,
                decreases grouped@.len() - g,
            {
                g = g + 1;
            }
            let found = g < grouped.len();
            proof {
                lemma_group_index(g0, source_id@);
            }
            if found {
                proof {
                    lemma_group_index_unique(g0, source_id@, g as int);
                }
                let (gid, mut plans) = grouped.remove(g);
                let ghost old_plans = plans@;
                plans.push(plan);
                grouped.insert(g, (gid, plans));
                proof {
                    assert(grouped@ =~= g0.update(g as int, (gid, plans)));
                    assert(groups_wf(grouped@)) by {
                        assert forall|i: int, j: int| 0 <= i < j < grouped@.len() implies (#[trigger] grouped@[i]).0@ != (#[trigger] grouped@[j]).0@ by {
                            assert(g0[i].0@ != g0[j].0@);
                        }
                    }
                    assert forall|id: Seq<char>| #[trigger] group_plans(grouped@, id) == if has_plans(pre, id) {
                        Some(plans_in(pre, id))
                    } else {
                        None::<Seq<ReplaySourcePlan>>
                    } by {
                        lemma_group_index(grouped@, id);
                        lemma_group_index(g0, id);
                        assert(group_plans(g0, id) == if has_plans(prev_pre, id) {
                            Some(plans_in(prev_pre, id))
                        } else {
                            None::<Seq<ReplaySourcePlan>>
                        });
                        if id == source_id@ {
                            lemma_group_index_unique(grouped@, id, g as int);
                            assert(has_plans(pre, id)) by {
                                assert(pre[done as int].0@ == id);
                            }
                            assert(has_plans(prev_pre, id));
                            assert(plans@ =~= old_plans.push(plan));
                        } else {
                            if group_index(g0, id) >= 0 {
                                lemma_group_index_unique(grouped@, id, group_index(g0, id));
                            } else {
                                assert forall|k: int| 0 <= k < grouped@.len() implies (#[trigger] grouped@[k]).0@ != id by {
                                    if k != g {
                                        assert(grouped@[k] == g0[k]);
                                    }
                                }
                                lemma_group_index(grouped@, id);
                            }
                            if has_plans(pre, id) {
                                let k = choose|k: int| 0 <= k < pre.len() && (#[trigger] pre[k]).0@ == id;
                                assert(prev_pre[k] == pre[k]);
                            }
                            if has_plans(prev_pre, id) {
                                let k = choose|k: int| 0 <= k < prev_pre.len() && (#[trigger] prev_pre[k]).0@ == id;
                                assert(pre[k] == prev_pre[k]);
                            }
                        }
                    }
                }
            } else {
                let mut plans: Vec<ReplaySourcePlan> = Vec::new();
                plans.push(plan);
                let ghost new_group = (source_id, plans);
                grouped.push((source_id, plans));
                proof {
                    assert(grouped@ =~= g0.push(new_group));
                    assert(grouped@.drop_last() =~= g0);
                    assert(grouped@.last() == new_group);
                    assert(groups_wf(grouped@)) by {
                        assert forall|i: int, j: int| 0 <= i < j < grouped@.len() implies (#[trigger] grouped@[i]).0@ != (#[trigger] grouped@[j]).0@ by {
                            if j == grouped@.len() - 1 {
                                assert(g0[i].0@ != new_group.0@);
                            } else {
                                assert(g0[i].0@ != g0[j].0@);
                            }
                        }
                    }
                    assert forall|id: Seq<char>| #[trigger] group_plans(grouped@, id) == if has_plans(pre, id) {
                        Some(plans_in(pre, id))
                    } else {
                        None::<Seq<ReplaySourcePlan>>
                    } by {
                        lemma_group_index(g0, id);
                        assert(group_plans(g0, id) == if has_plans(prev_pre, id) {
                            Some(plans_in(prev_pre, id))
                        } else {
                            None::<Seq<ReplaySourcePlan>>
                        });
                        if id == new_group.0@ {
                            assert(!has_plans(prev_pre, id)) by {
                                if has_plans(prev_pre, id) {
                                    assert(group_index(g0, id) >= 0);
                                    assert(g0[group_index(g0, id)].0@ == id);
                                }
                            }
                            assert(has_plans(pre, id)) by {
                                assert(pre[done as int].0@ == id);
                            }
                            assert(plans_in(prev_pre, id) =~= Seq::<ReplaySourcePlan>::empty()) by {
                                lemma_plans_in_empty(prev_pre, id);
                            }
                            assert(new_group.1@ =~= seq![pairs[done as int].1]);
                            assert(plans_in(pre, id) =~= seq![pairs[done as int].1]);
                        } else {
                            if has_plans(pre, id) {
                                let k = choose|k: int| 0 <= k < pre.len() && (#[trigger] pre[k]).0@ == id;
                                assert(prev_pre[k] == pre[k]);
                            }
                            if has_plans(prev_pre, id) {
                                let k = choose|k: int| 0 <= k < prev_pre.len() && (#[trigger] prev_pre[k]).0@ == id;
                                assert(pre[k] == prev_pre[k]);
                            }
                        }
                    }
                }
            }
            done = done + 1;
        }
        assert(pairs.subrange(0, done as int) =~= pairs);
        let ghost supplied = |id: Seq<char>|
            opened_plans(
                if has_plans(pairs, id) {
                    Some(plans_in(pairs, id))
                } else {
                    None::<Seq<ReplaySourcePlan>>
                },
            );
        let ghost all_scans = scans@;
        let p = ReplayProvider {
            scans,
            sources: grouped,
            scans_log: Ghost(Seq::empty()),
            opens_log: Ghost(Seq::empty()),
            supplied_scans: Ghost(all_scans),
            supplied_opens: Ghost(supplied),
        };
        assert(Seq::<Result<DiscoverySnapshot, CaptureError>>::empty() + all_scans =~= all_scans);
        assert forall|id: Seq<char>| #[trigger] opened_plans(p.plans_for(id)) == opens_left(supplied, p.opens_log@, id) by {}
        p
    }
}

proof fn lemma_plans_in_empty(pairs: Seq<(SourceId, ReplaySourcePlan)>, id: Seq<char>)
    requires
        !has_plans(pairs, id),
    ensures
        plans_in(pairs, id).len() == 0,
    decreases pairs.len(),
{
    if pairs.len() > 0 {
        assert(!has_plans(pairs.drop_last(), id)) by {
            if has_plans(pairs.drop_last(), id) {
                let k = choose|k: int| 0 <= k < pairs.drop_last().len() && (#[trigger] pairs.drop_last()[k]).0@ == id;
                assert(pairs[k] == pairs.drop_last()[k]);
            }
        }
        assert(pairs[pairs.len() - 1].0@ != id);
        lemma_plans_in_empty(pairs.drop_last(), id);
    }
}

impl CaptureProvider for ReplayProvider {
    open spec fn keeps_log(&self) -> bool {
        true
    }

    closed spec fn scans_answered(&self) -> Seq<Result<DiscoverySnapshot, CaptureError>> {
        self.scans_log@
    }

    closed spec fn opens_answered(&self) -> Seq<OpenCall> {
        self.opens_log@
    }

    /// The logs are a faithful run of what the provider was made with: the
    /// scans answered are the supplied ones in order, then empty snapshots;
    /// every open answered as the plans left for its ID said; and the plans
    /// left are what the logged opens leave.
    open spec fn inv(&self) -> bool {
        &&& self.wf()
        &&& scans_follow(self.supplied_scans(), self.scans_answered(), self.pending_scans())
        &&& opens_follow(self.supplied_opens(), self.opens_answered())
        &&& forall|id: Seq<char>|
            #[trigger] opened_plans(self.plans_for(id)) == opens_left(self.supplied_opens(), self.opens_answered(), id)
    }

    open spec fn script(&self) -> Option<ProviderScript> {
        Some((self.supplied_scans(), self.supplied_opens()))
    }

    /// Hands out the next supplied scan, or an empty snapshot once they run out.
    fn enumerate(&mut self) -> (r: Result<DiscoverySnapshot, CaptureError>)
        ensures
            final(self).wf() == old(self).wf(),
            forall|id: Seq<char>| #[trigger] final(self).plans_for(id) == old(self).plans_for(id),
            replay_scan(old(self).pending_scans(), r, final(self).pending_scans()),
    {
        let r = if self.scans.len() > 0 {
            let ghost before = self.scans@;
            let scan = self.scans.remove(0);
            assert(self.scans@ =~= before.drop_first());
            scan
        } else {
            Ok(DiscoverySnapshot::default())
        };
        proof {
            self.scans_log@ = self.scans_log@.push(r);
            assert forall|id: Seq<char>| #[trigger] self.plans_for(id) == old(self).plans_for(id) by {}
            if old(self).inv() {
                let sup = self.supplied_scans@;
                let a0 = old(self).scans_log@;
                let p0 = old(self).scans@;
                if a0.len() < sup.len() {
                    assert(a0 + p0 == sup);
                    assert(p0.len() > 0);
                    assert(self.scans_log@ + self.scans@ =~= sup) by {
                        assert(p0 =~= seq![p0[0]] + p0.drop_first());
                        assert(a0 + p0 =~= a0.push(p0[0]) + p0.drop_first());
                    }
                } else if a0.len() == sup.len() {
                    assert(a0 + p0 == sup);
                    assert(p0.len() == 0);
                    assert(self.scans_log@.subrange(0, sup.len() as int) =~= a0);
                    assert(a0 =~= sup);
                } else {
                    assert(self.scans_log@.subrange(0, sup.len() as int) =~= a0.subrange(0, sup.len() as int));
                }
            }
        }
        r
    }

    /// Opens the next supplied plan for the device's source ID: the opened
    /// source reports the plan's access and holds the plan's reads pending,
    /// to hand them out in order.
    ///
    /// # Errors
    ///
    /// `Open` when no plan was supplied for the ID or its plans are used up.
    fn open(&mut self, device: &DeviceDescriptor, mode: AccessMode) -> (r: Result<
        Box<dyn EventSource>,
        CaptureError,
    >)
        ensures
            final(self).wf() == old(self).wf(),
            final(self).pending_scans() == old(self).pending_scans(),
            match old(self).plans_for(device.source_id@) {
                None => r matches Err(e) && e.kind == CaptureErrorKind::Open
                    && e.message@ == "source has no replay plan"@,
                Some(plans) => if plans.len() == 0 {
                    r matches Err(e) && e.kind == CaptureErrorKind::Open
                        && e.message@ == "source replay plan was exhausted"@
                } else {
                    &&& r matches Ok(source) && source.pending_reads() == Some(plans[0].reads@)
                    &&& old(self).wf() ==> final(self).plans_for(device.source_id@) == Some(plans.drop_first())
                },
            },
            old(self).wf() ==> replay_open(
                old(self).plans_for(device.source_id@),
                open_answer(r),
                final(self).plans_for(device.source_id@),
            ),
            old(self).wf() ==> forall|id: Seq<char>|
                id != device.source_id@ ==> #[trigger] final(self).plans_for(id) == old(self).plans_for(id),
    {
        let taken = self.take_plan(device);
        let ghost mid = *self;
        let r: Result<Box<dyn EventSource>, CaptureError> = match taken {
            Ok(plan) => Ok(Box::new(ReplaySource { plan, answered: Ghost(Seq::empty()) })),
            Err(e) => Err(e),
        };
        let ghost before = old(self).opens_log@;
        proof {
            self.opens_log@ = self.opens_log@.push((*device, mode, open_answer(r)));
            assert forall|id: Seq<char>| #[trigger] self.plans_for(id) == mid.plans_for(id) by {}
            if old(self).inv() {
                let sup = self.supplied_opens@;
                let log = self.opens_log@;
                let d = device.source_id@;
                assert(log.drop_last() =~= before);
                assert(opened_plans(old(self).plans_for(d)) == opens_left(sup, before, d));
                match old(self).plans_for(d) {
                    Some(plans) => if plans.len() > 0 {
                        assert(opened_plans(Some(plans.drop_first())) == Some(
                            opened_plans(Some(plans))->Some_0.drop_first(),
                        )) by {
                            assert(plans.drop_first().map_values(|plan: ReplaySourcePlan| opened_of(plan))
                                =~= plans.map_values(|plan: ReplaySourcePlan| opened_of(plan)).drop_first());
                        }
                        assert(opened_plans(Some(plans))->Some_0[0] == opened_of(plans[0]));
                    },
                    None => {},
                }
                assert forall|id: Seq<char>| #[trigger] opened_plans(self.plans_for(id)) == opens_left(sup, log, id) by {
                    assert(opened_plans(old(self).plans_for(id)) == opens_left(sup, before, id));
                }
                assert(opens_follow(sup, log));
            }
        }
        r
    }
}

struct ReplaySource {
    plan: ReplaySourcePlan,
    answered: Ghost<Seq<Result<Vec<EventBatch>, CaptureError>>>,
}

impl ReplaySource {
    /// The access the source's plan reports.
    pub closed spec fn planned_access(&self) -> CaptureAccess {
        self.plan.access
    }

}

impl EventSource for ReplaySource {
    open spec fn keeps_log(&self) -> bool {
        true
    }

    closed spec fn reported_access(&self) -> CaptureAccess {
        self.plan.access
    }

    closed spec fn reads_answered(&self) -> Seq<Result<Vec<EventBatch>, CaptureError>> {
        self.answered@
    }

    closed spec fn pending_reads(&self) -> Option<Seq<Result<Vec<EventBatch>, CaptureError>>> {
        Some(self.plan.reads@)
    }

    /// The access the plan reports.
    fn access(&self) -> (a: CaptureAccess)
        ensures
            a == self.planned_access(),
    {
        self.plan.access
    }

    /// Hands out the next planned read, or no batches once the plan runs out.
    fn read_batches(&mut self) -> (r: Result<Vec<EventBatch>, CaptureError>)
        ensures
            final(self).planned_access() == old(self).planned_access(),
    {
        let r = match self.plan.reads.pop_front() {
            Some(read) => read,
            None => Ok(Vec::new()),
        };
        proof {
            self.answered@ = self.answered@.push(r);
        }
        r
    }
}


/// A recorded event keeps the native event's type, code and value, and its
/// time as microseconds since the epoch: the whole seconds times a million
/// plus the sub-second part in whole microseconds (zero before the epoch).
pub proof fn law_recorded_event_time(event: NativeEvent)
    requires
        event.timestamp.nanoseconds < 1_000_000_000,
    ensures
        fixture_event(event).event_type == event.event_type,
        fixture_event(event).code == event.code,
        fixture_event(event).value == event.value,
        event.timestamp.after_epoch ==> fixture_event(event).timestamp_micros / 1_000_000
            == event.timestamp.seconds && fixture_event(event).timestamp_micros % 1_000_000
            == event.timestamp.nanoseconds / 1000,
        !event.timestamp.after_epoch ==> fixture_event(event).timestamp_micros == 0,
{
    crate::model::law_micros_split_into_seconds_and_fraction(event.timestamp);
    let t = event.timestamp;
    if t.after_epoch {
        assert(t.seconds * 1_000_000 + t.nanoseconds / 1000 < 0x1_0000_0000_0000_0000_0000_0000_0000_0000) by (nonlinear_arith)
            requires
                t.seconds <= u64::MAX,
                t.nanoseconds < 1_000_000_000,
        ;
    }
}

} // verus!
