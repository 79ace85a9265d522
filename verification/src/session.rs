//! Provider contract, source lifecycle and hotplug reconciliation.
//!
//! A session keeps one opened source per discovered source ID, ordered by the
//! ID's text. Providers and sources are implemented by users, so the contracts
//! below hold whatever the provider and its sources answer: they are stated
//! over the answers that actually came back. A provider or source that keeps
//! a log of its calls (see [`CaptureProvider::keeps_log`]) has those answers
//! tied to the calls the session made: which devices were opened, with which
//! access mode, and what each scan, open and read answered. A source with
//! scripted reads answers each poll with the next of them.

use vstd::prelude::*;

use crate::model::{
    AccessMode, CaptureAccess, CaptureError, CaptureEvent, DeviceDescriptor, DiscoveryIssue,
    DiscoverySnapshot, EventBatch, SourceId,
};
use crate::sorting::{insert_by, lemma_insert_by_members, lemma_insert_by_split};
use crate::text::{lemma_seq_lt_irreflexive, seq_lt};

verus! {

/// Non-blocking source returned by a platform provider.
///
/// A source may keep, for contracts, the access it reports and the reads it
/// has answered so far (the vstd `obeys_*` pattern): one that does says so
/// with [`EventSource::keeps_log`]; one that does not (the default) is bound
/// by no clause below. A source whose reads are scripted in advance says
/// which with [`EventSource::pending_reads`], and then hands them out in order.
pub trait EventSource: Send {
    /// Whether this source keeps the log the contracts speak of.
    open spec fn keeps_log(&self) -> bool {
        false
    }

    /// The access this source reports.
    open spec fn reported_access(&self) -> CaptureAccess {
        CaptureAccess::Shared
    }

    /// Every read this source has answered, in order.
    open spec fn reads_answered(&self) -> Seq<Result<Vec<EventBatch>, CaptureError>> {
        Seq::empty()
    }

    /// The reads this source has still to hand out, in order, for a source
    /// whose answers are scripted in advance; `None` (the default) for one
    /// whose answers are not known ahead.
    open spec fn pending_reads(&self) -> Option<Seq<Result<Vec<EventBatch>, CaptureError>>> {
        None
    }

    fn access(&self) -> (a: CaptureAccess)
        ensures
            self.keeps_log() ==> a == self.reported_access(),
    ;

    /// Read every complete frame currently available without blocking.
    ///
    /// # Errors
    ///
    /// Returns a source-specific read error. Other opened sources remain valid.
    fn read_batches(&mut self) -> (r: Result<Vec<EventBatch>, CaptureError>)
        ensures
            final(self).keeps_log() == old(self).keeps_log(),
            old(self).keeps_log() ==> final(self).reported_access() == old(self).reported_access(),
            old(self).keeps_log() ==> final(self).reads_answered() == old(self).reads_answered().push(r),
            old(self).pending_reads() is None ==> final(self).pending_reads() is None,
            old(self).pending_reads() matches Some(p) ==> scripted_read(p, r, final(self).pending_reads()),
    ;
}

/// One read of a source whose reads `p` are scripted: the first of them, with
/// the rest still pending, or no batches once none is left.
pub open spec fn scripted_read(
    p: Seq<Result<Vec<EventBatch>, CaptureError>>,
    r: Result<Vec<EventBatch>, CaptureError>,
    after: Option<Seq<Result<Vec<EventBatch>, CaptureError>>>,
) -> bool {
    if p.len() > 0 {
        &&& r == p[0]
        &&& after == Some(p.drop_first())
    } else {
        &&& r matches Ok(batches) && batches@.len() == 0
        &&& after == Some(p)
    }
}

/// What an opened source reported when it was opened: its access, and its
/// scripted reads where it has them.
pub type Opened = (CaptureAccess, Option<Seq<Result<Vec<EventBatch>, CaptureError>>>);

/// A provider's scripted answers: the scans it hands out, in order (then
/// empty snapshots), and per source ID what its successive opens report
/// (`None` for an ID with nothing scripted).
pub type ProviderScript = (Seq<Result<DiscoverySnapshot, CaptureError>>, spec_fn(Seq<char>) -> Option<Seq<Opened>>);

/// One logged open: the device, the access policy asked for, and what the open answered.
pub type OpenCall = (DeviceDescriptor, AccessMode, Result<Opened, CaptureError>);

/// What an open answered, as plain values: what the opened source reported, or the error.
pub open spec fn open_answer(r: Result<Box<dyn EventSource>, CaptureError>) -> Result<Opened, CaptureError> {
    match r {
        Ok(source) => Ok((source.reported_access(), source.pending_reads())),
        Err(e) => Err(e),
    }
}

/// Platform boundary. Tests and applications can provide deterministic fakes.
///
/// A provider may keep, for contracts, the scans and opens it has answered
/// (the vstd `obeys_*` pattern): one that does says so with
/// [`CaptureProvider::keeps_log`] and hands out sources that keep theirs; one
/// that does not (the default) is bound by no clause below. A provider may
/// also state an invariant of its own ([`CaptureProvider::inv`]) and the
/// answers it was scripted with ([`CaptureProvider::script`]); every call
/// keeps both.
pub trait CaptureProvider {
    /// Whether this provider keeps the log the contracts speak of.
    open spec fn keeps_log(&self) -> bool {
        false
    }

    /// Every scan answered so far, in order.
    open spec fn scans_answered(&self) -> Seq<Result<DiscoverySnapshot, CaptureError>> {
        Seq::empty()
    }

    /// Every open answered so far, in order: the device, the access policy
    /// asked for, and what the open answered.
    open spec fn opens_answered(&self) -> Seq<OpenCall> {
        Seq::empty()
    }

    /// The provider's own invariant, which every call keeps (`true` unless an
    /// implementation says more).
    open spec fn inv(&self) -> bool {
        true
    }

    /// The answers a provider was scripted with, which no call changes;
    /// `None` (the default) for one whose answers are not known ahead.
    open spec fn script(&self) -> Option<ProviderScript> {
        None
    }

    /// Discover a point-in-time device snapshot.
    ///
    /// # Errors
    ///
    /// Returns an error when discovery itself cannot run. Failures describing
    /// individual paths belong in [`DiscoverySnapshot::issues`].
    fn enumerate(&mut self) -> (r: Result<DiscoverySnapshot, CaptureError>)
        ensures
            final(self).keeps_log() == old(self).keeps_log(),
            old(self).keeps_log() ==> final(self).scans_answered() == old(self).scans_answered().push(r),
            old(self).keeps_log() ==> final(self).opens_answered() == old(self).opens_answered(),
            old(self).inv() ==> final(self).inv(),
            final(self).script() == old(self).script(),
    ;

    /// Open one discovered event source using the requested access policy.
    ///
    /// # Errors
    ///
    /// Returns an open, permission, or exclusive-grab error.
    fn open(&mut self, device: &DeviceDescriptor, mode: AccessMode) -> (r: Result<
        Box<dyn EventSource>,
        CaptureError,
    >)
        ensures
            final(self).keeps_log() == old(self).keeps_log(),
            old(self).keeps_log() ==> final(self).scans_answered() == old(self).scans_answered(),
            old(self).keeps_log() ==> final(self).opens_answered() == old(self).opens_answered().push(
                (*device, mode, open_answer(r)),
            ),
            old(self).keeps_log() && r is Ok ==> r->Ok_0.keeps_log(),
            old(self).inv() ==> final(self).inv(),
            final(self).script() == old(self).script(),
    ;
}

/// An opened source with the device it was opened for.
type ActiveSource = (DeviceDescriptor, Box<dyn EventSource>);

/// Owns hotplug reconciliation and opened capture sources.
pub struct CaptureSession<P> {
    provider: P,
    mode: AccessMode,
    active: Vec<ActiveSource>,
}

/// Whether some device in `ds` has source ID text `id`.
pub open spec fn has_id(ds: Seq<DeviceDescriptor>, id: Seq<char>) -> bool {
    exists|i: int| 0 <= i < ds.len() && (#[trigger] ds[i]).source_id@ == id
}

/// Source-ID order on devices: `a` may stay before `b` unless `b`'s ID sorts first.
pub open spec fn id_le() -> spec_fn(DeviceDescriptor, DeviceDescriptor) -> bool {
    |a: DeviceDescriptor, b: DeviceDescriptor| !seq_lt(b.source_id@, a.source_id@)
}

/// Devices strictly ordered by source ID (so no ID occurs twice).
pub open spec fn strictly_ordered(ds: Seq<DeviceDescriptor>) -> bool {
    forall|i: int, j: int|
        0 <= i < j < ds.len() ==> seq_lt((#[trigger] ds[i]).source_id@, (#[trigger] ds[j]).source_id@)
}

/// The connected devices whose IDs the snapshot still lists, in order.
pub open spec fn kept(active: Seq<DeviceDescriptor>, devices: Seq<DeviceDescriptor>) -> Seq<
    DeviceDescriptor,
>
    decreases active.len(),
{
    if active.len() == 0 {
        seq![]
    } else {
        let rest = kept(active.drop_last(), devices);
        if has_id(devices, active.last().source_id@) {
            rest.push(active.last())
        } else {
            rest
        }
    }
}

/// One `Disconnected` event per connected device the snapshot no longer lists, in ID order.
pub open spec fn removal_events(active: Seq<DeviceDescriptor>, devices: Seq<DeviceDescriptor>) -> Seq<
    CaptureEvent,
>
    decreases active.len(),
{
    if active.len() == 0 {
        seq![]
    } else {
        let rest = removal_events(active.drop_last(), devices);
        if has_id(devices, active.last().source_id@) {
            rest
        } else {
            rest.push(
                CaptureEvent::Disconnected {
                    source_id: active.last().source_id,
                    physical_id: active.last().physical_id,
                },
            )
        }
    }
}

/// The `DiscoveryError` events for a snapshot's issues, in order.
pub open spec fn issue_events(issues: Seq<DiscoveryIssue>) -> Seq<CaptureEvent> {
    issues.map_values(|issue: DiscoveryIssue| CaptureEvent::DiscoveryError(issue))
}

/// Opening the first `n` snapshot devices, given what each attempted open answered.
///
/// A device whose ID is already connected is skipped. Otherwise the device is
/// opened and the next answer consumed: an opened source (with the access it
/// reports) connects the device in ID order; an error is reported and nothing
/// connects. The result is the events, the connected devices, the number of
/// answers used and the devices opened, in order.
pub open spec fn connect_run(
    devices: Seq<DeviceDescriptor>,
    n: int,
    start: Seq<DeviceDescriptor>,
    answers: Seq<Result<CaptureAccess, CaptureError>>,
) -> (Seq<CaptureEvent>, Seq<DeviceDescriptor>, int, Seq<DeviceDescriptor>)
    decreases n,
{
    if n <= 0 {
        (seq![], start, 0, seq![])
    } else {
        let (events, connected, used, requested) = connect_run(devices, n - 1, start, answers);
        let device = devices[n - 1];
        if has_id(connected, device.source_id@) {
            (events, connected, used, requested)
        } else {
            match answers[used] {
                Ok(access) => (
                    events.push(CaptureEvent::Connected { device, access }),
                    insert_by(connected, device, id_le()),
                    used + 1,
                    requested.push(device),
                ),
                Err(error) => (
                    events.push(CaptureEvent::SourceError { source_id: device.source_id, error }),
                    connected,
                    used + 1,
                    requested.push(device),
                ),
            }
        }
    }
}

/// Pointwise equivalence of event sequences.
pub open spec fn events_equiv(a: Seq<CaptureEvent>, b: Seq<CaptureEvent>) -> bool {
    a.len() == b.len() && forall|i: int| 0 <= i < a.len() ==> (#[trigger] a[i]).equiv(&b[i])
}

/// Reconciling `snapshot` against the connected devices `active`, given the
/// open answers: the events, the connected devices, the number of answers
/// used and the devices opened, in order.
pub open spec fn reconcile_spec(
    active: Seq<DeviceDescriptor>,
    snapshot: DiscoverySnapshot,
    answers: Seq<Result<CaptureAccess, CaptureError>>,
) -> (Seq<CaptureEvent>, Seq<DeviceDescriptor>, int, Seq<DeviceDescriptor>) {
    let devices = snapshot.devices@;
    let run = connect_run(devices, devices.len() as int, kept(active, devices), answers);
    (
        issue_events(snapshot.issues@) + removal_events(active, devices) + run.0,
        run.1,
        run.2,
        run.3,
    )
}

/// What each logged open answered, as the access of the opened source or the error, in order.
pub open spec fn open_results(calls: Seq<OpenCall>) -> Seq<Result<CaptureAccess, CaptureError>> {
    calls.map_values(
        |c: OpenCall|
            match c.2 {
                Ok(opened) => Ok(opened.0),
                Err(e) => Err(e),
            },
    )
}

/// The events one poll of the connected sources produces, given what each read answered.
pub open spec fn poll_events(
    active: Seq<DeviceDescriptor>,
    reads: Seq<Result<Vec<EventBatch>, CaptureError>>,
) -> Seq<CaptureEvent>
    decreases active.len(),
{
    if active.len() == 0 || reads.len() != active.len() {
        seq![]
    } else {
        poll_events(active.drop_last(), reads.drop_last()) + match reads.last() {
            Ok(batches) => batches@.map_values(|b: EventBatch| CaptureEvent::Input(b)),
            Err(error) => seq![
                CaptureEvent::SourceError { source_id: active.last().source_id, error },
            ],
        }
    }
}

spec fn active_view(v: Seq<ActiveSource>) -> Seq<DeviceDescriptor> {
    v.map_values(|a: ActiveSource| a.0)
}

/// Every entry of `v` is an entry of `before`, or was opened for an ID `before` did not have.
spec fn carried_over(v: Seq<ActiveSource>, before: Seq<ActiveSource>) -> bool {
    forall|j: int|
        0 <= j < v.len() ==> (exists|i: int| 0 <= i < before.len() && #[trigger] before[i] == v[j]) || !has_id(
            active_view(before),
            (#[trigger] v[j]).0.source_id@,
        )
}

proof fn lemma_kept_has(active: Seq<DeviceDescriptor>, devices: Seq<DeviceDescriptor>, id: Seq<char>)
    requires
        has_id(active, id),
        has_id(devices, id),
    ensures
        has_id(kept(active, devices), id),
    decreases active.len(),
{
    let t = active.drop_last();
    let rest = kept(t, devices);
    assert(t.push(active.last()) =~= active);
    lemma_has_id_push(t, active.last(), id);
    if active.last().source_id@ == id {
        lemma_has_id_push(rest, active.last(), id);
    } else {
        lemma_kept_has(t, devices, id);
        lemma_has_id_push(rest, active.last(), id);
    }
}

impl<P: CaptureProvider> CaptureSession<P> {
    /// The connected devices, ordered by source ID.
    pub closed spec fn connected(&self) -> Seq<DeviceDescriptor> {
        active_view(self.active@)
    }

    /// The read log of each connected source, in the order of [`Self::connected`].
    pub closed spec fn source_reads(&self) -> Seq<Seq<Result<Vec<EventBatch>, CaptureError>>> {
        self.active@.map_values(|a: ActiveSource| a.1.reads_answered())
    }

    /// The scripted reads each connected source has still to hand out, in the
    /// order of [`Self::connected`].
    pub closed spec fn source_pending(&self) -> Seq<Option<Seq<Result<Vec<EventBatch>, CaptureError>>>> {
        self.active@.map_values(|a: ActiveSource| a.1.pending_reads())
    }

    /// Whether each connected source keeps its read log, in the order of [`Self::connected`].
    pub closed spec fn sources_logged(&self) -> Seq<bool> {
        self.active@.map_values(|a: ActiveSource| a.1.keeps_log())
    }

    /// The access policy used for every open.
    pub closed spec fn access_mode(&self) -> AccessMode {
        self.mode
    }

    /// The provider the session owns.
    pub closed spec fn provider(&self) -> P {
        self.provider
    }

    /// The session's invariant: connected devices are strictly ordered by
    /// source ID, each with its source.
    pub open spec fn wf(&self) -> bool {
        &&& strictly_ordered(self.connected())
        &&& self.source_reads().len() == self.connected().len()
        &&& self.sources_logged().len() == self.connected().len()
        &&& self.source_pending().len() == self.connected().len()
    }

    /// The opens that `after`'s provider answered since `self`, in order.
    pub open spec fn opens_since(self, after: Self) -> Seq<
        OpenCall,
    > {
        let n = self.provider().opens_answered().len();
        after.provider().opens_answered().subrange(n as int, after.provider().opens_answered().len() as int)
    }

    /// `after` is `self` with `snapshot` reconciled, returning `events`: the
    /// events and connected devices are those of [`reconcile_spec`] for the
    /// answers of the opens made; where the provider keeps its log, those are
    /// exactly the opens it logged, of exactly the devices the reconciliation
    /// opens, in order and with the session's access mode, and each source an
    /// open handed out is connected with the scripted reads the open
    /// reported. A source that stays connected keeps its device and its
    /// source untouched: it is neither reopened nor read.
    pub open spec fn reconciled(self, after: Self, snapshot: DiscoverySnapshot, events: Seq<CaptureEvent>) -> bool {
        &&& after.access_mode() == self.access_mode()
        &&& after.provider().keeps_log() == self.provider().keeps_log()
        &&& self.provider().inv() ==> after.provider().inv()
        &&& after.provider().script() == self.provider().script()
        &&& after.source_reads().len() == after.connected().len()
        &&& after.sources_logged().len() == after.connected().len()
        &&& after.source_pending().len() == after.connected().len()
        &&& forall|j: int|
            0 <= j < after.connected().len() && has_id(self.connected(), (#[trigger] after.connected()[j]).source_id@)
                ==> exists|i: int|
                0 <= i < self.connected().len() && #[trigger] self.connected()[i] == after.connected()[j]
                    && after.source_reads()[j] == self.source_reads()[i] && after.sources_logged()[j]
                    == self.sources_logged()[i] && after.source_pending()[j] == self.source_pending()[i]
        &&& self.provider().keeps_log() ==> forall|c: int, j: int|
            0 <= c < self.opens_since(after).len() && (#[trigger] self.opens_since(after)[c]).2 is Ok && 0 <= j
                < after.connected().len() && (#[trigger] after.connected()[j]).source_id@ == self.opens_since(
                after,
            )[c].0.source_id@ ==> after.source_pending()[j] == self.opens_since(after)[c].2->Ok_0.1
        &&& exists|answers: Seq<Result<CaptureAccess, CaptureError>>|
            #![trigger reconcile_spec(self.connected(), snapshot, answers)]
            {
                let rec = reconcile_spec(self.connected(), snapshot, answers);
                let calls = self.opens_since(after);
                &&& answers.len() == rec.2
                &&& after.connected() == rec.1
                &&& events_equiv(events, rec.0)
                &&& self.provider().keeps_log() ==> {
                    &&& after.provider().opens_answered() == self.provider().opens_answered() + calls
                    &&& open_results(calls) == answers
                    &&& forall|i: int|
                        0 <= i < calls.len() ==> (#[trigger] calls[i]).0 == rec.3[i] && calls[i].1
                            == self.access_mode()
                }
            }
    }

    /// `after` is `self` with every connected source read once, in ID order,
    /// returning `events`: the provider is untouched, the connected devices
    /// stay, and the events are those of [`poll_events`] for what the reads
    /// answered; each source that keeps its log logged exactly that answer,
    /// and each source with scripted reads answered the next of them.
    pub open spec fn polled_active(self, after: Self, events: Seq<CaptureEvent>) -> bool {
        &&& after.provider() == self.provider()
        &&& after.access_mode() == self.access_mode()
        &&& after.connected() == self.connected()
        &&& after.sources_logged() == self.sources_logged()
        &&& after.source_reads().len() == self.source_reads().len()
        &&& after.source_pending().len() == self.source_pending().len()
        &&& exists|reads: Seq<Result<Vec<EventBatch>, CaptureError>>|
            #![trigger poll_events(self.connected(), reads)]
            {
                &&& reads.len() == self.connected().len()
                &&& events == poll_events(self.connected(), reads)
                &&& forall|i: int|
                    0 <= i < self.sources_logged().len() && #[trigger] self.sources_logged()[i]
                        ==> after.source_reads()[i] == self.source_reads()[i].push(reads[i])
                &&& forall|i: int|
                    0 <= i < self.source_pending().len() ==> match #[trigger] self.source_pending()[i] {
                        Some(p) => scripted_read(p, reads[i], after.source_pending()[i]),
                        None => after.source_pending()[i] is None,
                    }
            }
    }

    /// `after` and `r` are what the rest of a poll gives from `self` once the
    /// provider answered `scan`: a failed scan is returned as it is, with no
    /// open and no read; a snapshot is reconciled, then every connected source
    /// is read once, and the events are those of both steps in turn.
    pub open spec fn after_scan(
        self,
        scan: Result<DiscoverySnapshot, CaptureError>,
        r: Result<Vec<CaptureEvent>, CaptureError>,
        after: Self,
    ) -> bool {
        match scan {
            Err(e) => {
                &&& r == Err::<Vec<CaptureEvent>, CaptureError>(e)
                &&& after.connected() == self.connected()
                &&& after.source_reads() == self.source_reads()
                &&& after.sources_logged() == self.sources_logged()
                &&& after.source_pending() == self.source_pending()
                &&& after.access_mode() == self.access_mode()
                &&& after.provider().keeps_log() == self.provider().keeps_log()
                &&& self.provider().inv() ==> after.provider().inv()
                &&& after.provider().script() == self.provider().script()
                &&& self.provider().keeps_log() ==> after.provider().opens_answered() == self.provider().opens_answered()
            },
            Ok(snapshot) => {
                &&& r is Ok
                &&& exists|mid: Self, first: Seq<CaptureEvent>, rest: Seq<CaptureEvent>|
                    #![trigger self.reconciled(mid, snapshot, first), mid.polled_active(after, rest)]
                    {
                        &&& self.reconciled(mid, snapshot, first)
                        &&& mid.polled_active(after, rest)
                        &&& r->Ok_0@ == first + rest
                    }
            },
        }
    }

    pub fn new(provider: P, mode: AccessMode) -> (s: Self)
        ensures
            s.wf(),
            s.connected().len() == 0,
            s.access_mode() == mode,
            s.provider() == provider,
    {
        let s = CaptureSession { provider, mode, active: Vec::new() };
        assert(s.connected() =~= Seq::<DeviceDescriptor>::empty());
        s
    }

    /// Reconcile discovery and collect all currently available input batches.
    /// A failed source is reported without stopping unrelated controllers.
    ///
    /// The provider is asked for exactly one scan; what comes back is what
    /// [`Self::poll_scanned`] gives for it.
    ///
    /// # Errors
    ///
    /// Returns an error only when the provider cannot produce a discovery
    /// snapshot; nothing is opened or read then. Per-device discovery, open,
    /// and read failures are events.
    pub fn poll(&mut self) -> (r: Result<Vec<CaptureEvent>, CaptureError>)
        requires
            old(self).wf(),
        ensures
            final(self).wf(),
            exists|scan: Result<DiscoverySnapshot, CaptureError>|
                {
                    &&& #[trigger] old(self).after_scan(scan, r, *final(self))
                    &&& old(self).provider().keeps_log() ==> final(self).provider().scans_answered()
                        == old(self).provider().scans_answered().push(scan)
                },
    {
        let ghost s0 = *self;
        let scan = self.provider.enumerate();
        let ghost s1 = *self;
        let ghost sc = scan;
        let r = self.poll_scanned(scan);
        proof {
            assert(s1.connected() == s0.connected());
            assert(s1.source_reads() == s0.source_reads());
            assert(s1.sources_logged() == s0.sources_logged());
            match sc {
                Ok(snapshot) => {
                    let (mid, first, rest) = choose|mid: Self, first: Seq<CaptureEvent>, rest: Seq<CaptureEvent>|
                        #![trigger s1.reconciled(mid, snapshot, first), mid.polled_active(*self, rest)]
                        {
                            &&& s1.reconciled(mid, snapshot, first)
                            &&& mid.polled_active(*self, rest)
                            &&& r->Ok_0@ == first + rest
                        };
                    let answers = choose|answers: Seq<Result<CaptureAccess, CaptureError>>|
                        #![trigger reconcile_spec(s1.connected(), snapshot, answers)]
                        {
                            let rec = reconcile_spec(s1.connected(), snapshot, answers);
                            let calls = s1.opens_since(mid);
                            &&& answers.len() == rec.2
                            &&& mid.connected() == rec.1
                            &&& events_equiv(first, rec.0)
                            &&& s1.provider().keeps_log() ==> {
                                &&& mid.provider().opens_answered() == s1.provider().opens_answered() + calls
                                &&& open_results(calls) == answers
                                &&& forall|i: int|
                                    0 <= i < calls.len() ==> (#[trigger] calls[i]).0 == rec.3[i] && calls[i].1
                                        == s1.access_mode()
                            }
                        };
                    assert(s0.provider().keeps_log() ==> s1.opens_since(mid) == s0.opens_since(mid));
                    assert(s0.provider().inv() ==> s1.provider().inv());
                    assert(s0.reconciled(mid, snapshot, first));
                    assert(mid.polled_active(*self, rest));
                },
                Err(e) => {},
            }
            assert(s0.after_scan(sc, r, *self));
        }
        r
    }

    /// The rest of a poll once the provider has answered the scan: a failed
    /// scan is returned as it is and changes nothing; a snapshot is
    /// reconciled and the connected sources are then read.
    ///
    /// # Errors
    ///
    /// Exactly the error of a failed scan.
    pub fn poll_scanned(&mut self, scan: Result<DiscoverySnapshot, CaptureError>) -> (r: Result<
        Vec<CaptureEvent>,
        CaptureError,
    >)
        requires
            old(self).wf(),
        ensures
            final(self).wf(),
            old(self).provider().keeps_log() ==> final(self).provider().scans_answered()
                == old(self).provider().scans_answered(),
            old(self).after_scan(scan, r, *final(self)),
    {
        let snapshot = match scan {
            Ok(snapshot) => snapshot,
            Err(error) => {
                return Err(error);
            },
        };
        let ghost snap = snapshot;
        let ghost s0 = *self;
        let mut output = self.reconcile(snapshot);
        let ghost mid = *self;
        let ghost first = output@;
        let mut more = self.poll_active();
        let ghost rest = more@;
        output.append(&mut more);
        assert(output@ =~= first + rest);
        assert(s0.reconciled(mid, snap, first) && mid.polled_active(*self, rest));
        Ok(output)
    }

    /// Reconcile an externally obtained point-in-time discovery snapshot.
    ///
    /// Issues become `DiscoveryError` events; connected sources the snapshot
    /// no longer lists are disconnected (one event each, in ID order); each
    /// listed device that is not connected is opened once with the session's
    /// access mode, connecting it or reporting the open error.
    pub fn reconcile(&mut self, snapshot: DiscoverySnapshot) -> (events: Vec<CaptureEvent>)
        requires
            old(self).wf(),
        ensures
            final(self).wf(),
            old(self).provider().keeps_log() ==> final(self).provider().scans_answered()
                == old(self).provider().scans_answered(),
            old(self).reconciled(*final(self), snapshot, events@),
    {
        let ghost old_active = self.connected();
        let ghost snap = snapshot;
        let ghost devices_all = snapshot.devices@;
        let DiscoverySnapshot { devices, issues } = snapshot;
        let mut output: Vec<CaptureEvent> = Vec::new();
        let mut issues = issues;
        let ghost issues_all = issues@;
        // Discovery issues, in order.
        while issues.len() > 0
            invariant
                output@ + issue_events(issues@) == issue_events(issues_all),
                self.mode == old(self).mode,
                self.provider == old(self).provider,
                self.active@ == old(self).active@,
            decreases issues@.len(),
        {
            let ghost before = issues@;
            let issue = issues.remove(0);
            output.push(CaptureEvent::DiscoveryError(issue));
            assert(before =~= seq![issue] + issues@);
            assert(issue_events(before) =~= seq![CaptureEvent::DiscoveryError(issue)] + issue_events(issues@));
            assert(output@ + issue_events(issues@) =~= issue_events(issues_all));
        }
        assert(output@ =~= issue_events(issues_all));
        // Disconnect sources that disappeared; keep the rest in order.
        let ghost old_entries = self.active@;
        let mut remaining: Vec<ActiveSource> = Vec::new();
        std::mem::swap(&mut remaining, &mut self.active);
        let ghost n_issue = output@.len();
        let mut index: usize = 0;
        let total_len = remaining.len();
        assert(active_view(remaining@) == old_active);
        assert(remaining@ =~= old_entries.subrange(0, old_entries.len() as int));
        assert(old_active.subrange(0, 0) =~= Seq::<DeviceDescriptor>::empty());
        assert(old_active.subrange(0, old_active.len() as int) =~= old_active);
        assert(active_view(self.active@) =~= Seq::<DeviceDescriptor>::empty());
        while remaining.len() > 0
            invariant
                active_view(self.active@) == kept(old_active.subrange(0, index as int), devices_all),
                output@ == issue_events(issues_all) + removal_events(old_active.subrange(0, index as int), devices_all),
                active_view(remaining@) == old_active.subrange(index as int, old_active.len() as int),
                index + remaining@.len() == old_active.len(),
                old_active.len() == total_len,
                devices@ == devices_all,
                self.mode == old(self).mode,
                self.provider == old(self).provider,
                old_entries.len() == total_len,
                remaining@ == old_entries.subrange(index as int, old_entries.len() as int),
                forall|j: int|
                    0 <= j < self.active@.len() ==> exists|i: int|
                        0 <= i < old_entries.len() && #[trigger] old_entries[i] == #[trigger] self.active@[j],
            decreases remaining@.len(),
        {
            let ghost pre = old_active.subrange(0, index + 1);
            assert(pre.drop_last() =~= old_active.subrange(0, index as int));
            let ghost rem_before = remaining@;
            assert(active_view(rem_before)[0] == rem_before[0].0);
            let entry = remaining.remove(0);
            assert(entry == rem_before[0]);
            assert(entry.0 == old_active[index as int]);
            assert(remaining@ =~= rem_before.subrange(1, rem_before.len() as int));
            assert forall|k: int| 0 <= k < remaining@.len() implies #[trigger] active_view(remaining@)[k]
                == old_active.subrange(index + 1, old_active.len() as int)[k] by {
                assert(remaining@[k] == rem_before[k + 1]);
                assert(active_view(rem_before)[k + 1] == rem_before[k + 1].0);
            }
            assert(active_view(remaining@) =~= old_active.subrange(index + 1, old_active.len() as int));
            let still = listed(&devices, &entry.0.source_id);
            assert(entry == old_entries[index as int]);
            assert(remaining@ =~= old_entries.subrange(index + 1, old_entries.len() as int));
            if still {
                let ghost before = active_view(self.active@);
                let ghost prev = self.active@;
                self.active.push(entry);
                assert(active_view(self.active@) =~= before.push(old_active[index as int]));
                assert forall|j: int| 0 <= j < self.active@.len() implies exists|i: int|
                    0 <= i < old_entries.len() && #[trigger] old_entries[i] == #[trigger] self.active@[j] by {
                    if j < prev.len() {
                        assert(self.active@[j] == prev[j]);
                    } else {
                        assert(old_entries[index as int] == self.active@[j]);
                    }
                }
            } else {
                let (descriptor, _) = entry;
                let source_id = descriptor.source_id.clone();
                let ghost before = output@;
                output.push(CaptureEvent::Disconnected { source_id, physical_id: descriptor.physical_id });
                assert(output@ =~= before.push(CaptureEvent::Disconnected {
                    source_id: old_active[index as int].source_id,
                    physical_id: old_active[index as int].physical_id,
                }));
            }
            index = index + 1;
        }
        assert(old_active.subrange(0, index as int) =~= old_active);
        proof {
            lemma_kept_ordered(old_active, devices_all);
        }
        // Open the listed devices that are not connected.
        let ghost kept_all = self.connected();
        assert(carried_over(self.active@, old_entries));
        let ghost prefix_events = output@;
        let ghost opens0 = old(self).provider.opens_answered();
        let ghost mut calls: Seq<OpenCall> = seq![];
        let mut devices = devices;
        let devices_len = devices.len();
        let mut done: usize = 0;
        assert(devices_all.subrange(0, devices_all.len() as int) =~= devices_all);
        while devices.len() > 0
            invariant
                devices@ == devices_all.subrange(done as int, devices_all.len() as int),
                done <= devices_all.len(),
                devices_all.len() == devices_len,
                ({
                    let run = connect_run(devices_all, done as int, kept_all, open_results(calls));
                    &&& calls.len() == run.2
                    &&& run.3.len() == run.2
                    &&& forall|i: int|
                        0 <= i < calls.len() ==> (#[trigger] calls[i]).0 == run.3[i] && calls[i].1 == self.mode
                    &&& self.connected() == run.1
                    &&& events_equiv(output@, prefix_events + run.0)
                }),
                self.provider.keeps_log() == old(self).provider.keeps_log(),
                old(self).provider.inv() ==> self.provider.inv(),
                self.provider.script() == old(self).provider.script(),
                carried_over(self.active@, old_entries),
                forall|c: int|
                    0 <= c < calls.len() && calls[c].2 is Ok ==> has_id(
                        self.connected(),
                        (#[trigger] calls[c]).0.source_id@,
                    ),
                forall|c: int, j: int|
                    0 <= c < calls.len() && (#[trigger] calls[c]).2 is Ok && 0 <= j < self.active@.len() && (
                    #[trigger] self.active@[j]).0.source_id@ == calls[c].0.source_id@ ==> self.active@[j].1.pending_reads()
                        == calls[c].2->Ok_0.1,
                old_active == active_view(old_entries),
                kept_all == kept(old_active, devices_all),
                forall|id: Seq<char>| #[trigger] has_id(kept_all, id) ==> has_id(self.connected(), id),
                self.provider.keeps_log() ==> self.provider.opens_answered() == opens0 + calls,
                self.provider.keeps_log() ==> self.provider.scans_answered() == old(self).provider.scans_answered(),
                strictly_ordered(self.connected()),
                self.mode == old(self).mode,
            decreases devices@.len(),
        {
            let ghost run = connect_run(devices_all, done as int, kept_all, open_results(calls));
            let device = devices.remove(0);
            assert(device == devices_all[done as int]);
            assert(devices@ =~= devices_all.subrange(done + 1, devices_all.len() as int));
            let present = self.is_connected(&device.source_id);
            if !present {
                let ghost d = device;
                let opened = self.provider.open(&device, self.mode);
                let ghost answer = open_answer(opened);
                let ghost og = opened;
                match opened {
                    Ok(source) => {
                        assert(og->Ok_0.keeps_log() == source.keeps_log());
                        let access = source.access();
                        let ghost before = output@;
                        output.push(CaptureEvent::Connected { device: device.clone(), access });
                        proof {
                            if has_id(old_active, d.source_id@) {
                                assert(devices_all[done as int] == d);
                                assert(has_id(devices_all, d.source_id@));
                                lemma_kept_has(old_active, devices_all, d.source_id@);
                            }
                        }
                        let ghost prev_entries = self.active@;
                        let ghost prev_connected = self.connected();
                        let ghost pend = source.pending_reads();
                        let entry = (device, source);
                        self.insert_active(entry);
                        proof {
                            let pos = choose|pos: int|
                                0 <= pos <= prev_entries.len() && self.active@ == prev_entries.insert(pos, entry);
                            assert(self.active@[pos] == entry);
                            assert forall|j: int| 0 <= j < self.active@.len() implies (exists|i: int|
                                0 <= i < old_entries.len() && #[trigger] old_entries[i] == self.active@[j]) || !has_id(
                                active_view(old_entries),
                                (#[trigger] self.active@[j]).0.source_id@,
                            ) by {
                                if j < pos {
                                    assert(self.active@[j] == prev_entries[j]);
                                } else if j > pos {
                                    assert(self.active@[j] == prev_entries[j - 1]);
                                } else {
                                    assert(self.active@[j].0 == d);
                                }
                            }
                            assert forall|id: Seq<char>| #[trigger] has_id(kept_all, id) implies has_id(
                                self.connected(),
                                id,
                            ) by {
                                lemma_has_id_insert(prev_connected, d, id);
                            }
                        }
                        proof {
                            let prev_calls = calls;
                            calls = calls.push((d, self.mode, Ok::<Opened, CaptureError>((access, pend))));
                            assert(self.provider.keeps_log() ==> answer == Ok::<Opened, CaptureError>((access, pend)));
                            assert(open_results(calls) =~= open_results(prev_calls).push(Ok::<CaptureAccess, CaptureError>(access)));
                            lemma_connect_run_prefix(
                                devices_all,
                                done as int,
                                kept_all,
                                open_results(prev_calls),
                                open_results(calls),
                            );
                            let next = connect_run(devices_all, done + 1, kept_all, open_results(calls));
                            assert(next.0 == run.0.push(CaptureEvent::Connected { device: d, access }));
                            assert(next.3 == run.3.push(d));
                            assert forall|i: int| 0 <= i < calls.len() implies (#[trigger] calls[i]).0 == next.3[i]
                                && calls[i].1 == self.mode by {
                                if i < prev_calls.len() {
                                    assert(calls[i] == prev_calls[i]);
                                    assert(next.3[i] == run.3[i]);
                                }
                            }
                            assert(self.provider.keeps_log() ==> self.provider.opens_answered() =~= opens0 + calls);
                            assert(!has_id(prev_connected, d.source_id@));
                            assert forall|c: int| 0 <= c < calls.len() && calls[c].2 is Ok implies has_id(
                                self.connected(),
                                (#[trigger] calls[c]).0.source_id@,
                            ) by {
                                if c < prev_calls.len() {
                                    assert(calls[c] == prev_calls[c]);
                                }
                                lemma_has_id_insert(prev_connected, d, calls[c].0.source_id@);
                            }
                            assert forall|c: int, j: int|
                                0 <= c < calls.len() && (#[trigger] calls[c]).2 is Ok && 0 <= j < self.active@.len()
                                    && (#[trigger] self.active@[j]).0.source_id@ == calls[c].0.source_id@ implies self.active@[j].1.pending_reads()
                                    == calls[c].2->Ok_0.1 by {
                                let pos = choose|pos: int|
                                    0 <= pos <= prev_entries.len() && self.active@ == prev_entries.insert(pos, entry);
                                if j != pos {
                                    let k = if j < pos { j } else { j - 1 };
                                    assert(self.active@[j] == prev_entries[k]);
                                    if c == prev_calls.len() {
                                        assert(prev_connected[k] == prev_entries[k].0);
                                        assert(has_id(prev_connected, d.source_id@));
                                    } else {
                                        assert(calls[c] == prev_calls[c]);
                                    }
                                } else {
                                    assert(self.active@[j] == entry);
                                    if c < prev_calls.len() {
                                        assert(calls[c] == prev_calls[c]);
                                        assert(has_id(prev_connected, prev_calls[c].0.source_id@));
                                    }
                                }
                            }
                            assert forall|i: int| 0 <= i < output@.len() implies (#[trigger] output@[i]).equiv(
                                &(prefix_events + next.0)[i],
                            ) by {
                                if i < before.len() {
                                    assert(output@[i] == before[i]);
                                    assert((prefix_events + next.0)[i] == (prefix_events + run.0)[i]);
                                }
                            }
                        }
                    },
                    Err(error) => {
                        let ghost e = error;
                        let ghost before = output@;
                        output.push(CaptureEvent::SourceError { source_id: device.source_id, error });
                        proof {
                            let prev_calls = calls;
                            calls = calls.push((d, self.mode, Err::<Opened, CaptureError>(e)));
                            assert(answer == Err::<Opened, CaptureError>(e));
                            assert(open_results(calls) =~= open_results(prev_calls).push(Err::<CaptureAccess, CaptureError>(e)));
                            lemma_connect_run_prefix(
                                devices_all,
                                done as int,
                                kept_all,
                                open_results(prev_calls),
                                open_results(calls),
                            );
                            let next = connect_run(devices_all, done + 1, kept_all, open_results(calls));
                            assert(next.3 == run.3.push(d));
                            assert forall|i: int| 0 <= i < calls.len() implies (#[trigger] calls[i]).0 == next.3[i]
                                && calls[i].1 == self.mode by {
                                if i < prev_calls.len() {
                                    assert(calls[i] == prev_calls[i]);
                                    assert(next.3[i] == run.3[i]);
                                }
                            }
                            assert(self.provider.keeps_log() ==> self.provider.opens_answered() =~= opens0 + calls);
                            assert forall|c: int| 0 <= c < calls.len() && calls[c].2 is Ok implies has_id(
                                self.connected(),
                                (#[trigger] calls[c]).0.source_id@,
                            ) by {
                                assert(calls[c] == prev_calls[c]);
                            }
                            assert forall|c: int, j: int|
                                0 <= c < calls.len() && (#[trigger] calls[c]).2 is Ok && 0 <= j < self.active@.len()
                                    && (#[trigger] self.active@[j]).0.source_id@ == calls[c].0.source_id@ implies self.active@[j].1.pending_reads()
                                    == calls[c].2->Ok_0.1 by {
                                assert(calls[c] == prev_calls[c]);
                            }
                            assert forall|i: int| 0 <= i < output@.len() implies (#[trigger] output@[i]).equiv(
                                &(prefix_events + next.0)[i],
                            ) by {
                                if i < before.len() {
                                    assert(output@[i] == before[i]);
                                    assert((prefix_events + next.0)[i] == (prefix_events + run.0)[i]);
                                }
                            }
                        }
                    },
                }
            }
            done = done + 1;
        }
        assert(devices_all.subrange(done as int, devices_all.len() as int).len() == 0);
        proof {
            let rec = reconcile_spec(old_active, snap, open_results(calls));
            if self.provider.keeps_log() {
                assert(self.provider.opens_answered().subrange(
                    opens0.len() as int,
                    self.provider.opens_answered().len() as int,
                ) =~= calls);
            }
            assert(done == devices_all.len());
            assert(prefix_events == issue_events(snap.issues@) + removal_events(old_active, devices_all));
            assert(events_equiv(output@, rec.0)) by {
                assert(prefix_events + connect_run(devices_all, done as int, kept_all, open_results(calls)).0 =~= rec.0);
            }
            assert(old(self).active@ == old_entries);
            assert forall|j: int|
                0 <= j < self.connected().len() && has_id(old_active, (#[trigger] self.connected()[j]).source_id@)
                    implies exists|i: int|
                    0 <= i < old_active.len() && #[trigger] old_active[i] == self.connected()[j]
                        && self.source_reads()[j] == old(self).source_reads()[i] && self.sources_logged()[j]
                        == old(self).sources_logged()[i] && self.source_pending()[j] == old(self).source_pending()[i] by {
                assert(self.connected()[j] == self.active@[j].0);
                assert(has_id(active_view(old_entries), self.active@[j].0.source_id@));
                let i = choose|i: int| 0 <= i < old_entries.len() && #[trigger] old_entries[i] == self.active@[j];
                assert(old_active[i] == old_entries[i].0);
                assert(self.source_reads()[j] == self.active@[j].1.reads_answered());
                assert(old(self).source_reads()[i] == old_entries[i].1.reads_answered());
                assert(self.sources_logged()[j] == self.active@[j].1.keeps_log());
                assert(old(self).sources_logged()[i] == old_entries[i].1.keeps_log());
                assert(self.source_pending()[j] == self.active@[j].1.pending_reads());
                assert(old(self).source_pending()[i] == old_entries[i].1.pending_reads());
            }
            assert forall|c: int, j: int|
                0 <= c < calls.len() && (#[trigger] calls[c]).2 is Ok && 0 <= j < self.connected().len()
                    && (#[trigger] self.connected()[j]).source_id@ == calls[c].0.source_id@ implies self.source_pending()[j]
                    == calls[c].2->Ok_0.1 by {
                assert(self.connected()[j] == self.active@[j].0);
                assert(self.source_pending()[j] == self.active@[j].1.pending_reads());
            }
        }
        output
    }

    /// Collect batches from already-open sources without rescanning host devices.
    ///
    /// Sources are read in ID order; a failed read becomes a `SourceError` for
    /// that source and does not stop the others. The connected set is unchanged.
    pub fn poll_active(&mut self) -> (events: Vec<CaptureEvent>)
        requires
            old(self).wf(),
        ensures
            final(self).wf(),
            old(self).polled_active(*final(self), events@),
            forall|i: int|
                0 <= i < events@.len() ==> (#[trigger] events@[i]) is Input || events@[i] is SourceError,
    {
        let ghost all = self.connected();
        let ghost logs0 = self.source_reads();
        let ghost logged0 = self.sources_logged();
        let ghost pend0 = self.source_pending();
        let mut pending: Vec<ActiveSource> = Vec::new();
        std::mem::swap(&mut pending, &mut self.active);
        let mut output: Vec<CaptureEvent> = Vec::new();
        let pending_len = pending.len();
        let ghost mut reads: Seq<Result<Vec<EventBatch>, CaptureError>> = seq![];
        let mut done: usize = 0;
        assert(active_view(pending@) == all);
        assert(all.subrange(0, 0) =~= Seq::<DeviceDescriptor>::empty());
        assert(all.subrange(0, all.len() as int) =~= all);
        assert(active_view(self.active@) =~= Seq::<DeviceDescriptor>::empty());
        while pending.len() > 0
            invariant
                active_view(self.active@) == all.subrange(0, done as int),
                active_view(pending@) == all.subrange(done as int, all.len() as int),
                done + pending@.len() == all.len(),
                reads.len() == done,
                all.len() == pending_len,
                logs0.len() == all.len(),
                self.mode == old(self).mode,
                self.provider == old(self).provider,
                logged0.len() == all.len(),
                forall|k: int|
                    0 <= k < done ==> #[trigger] self.active@[k].1.keeps_log() == logged0[k] && (logged0[k]
                        ==> self.active@[k].1.reads_answered() == logs0[k].push(reads[k])),
                forall|k: int|
                    0 <= k < pending@.len() ==> #[trigger] pending@[k].1.keeps_log() == logged0[done + k],
                forall|k: int|
                    0 <= k < pending@.len() ==> #[trigger] pending@[k].1.reads_answered() == logs0[done + k],
                pend0.len() == all.len(),
                forall|k: int|
                    0 <= k < done ==> match pend0[k] {
                        Some(p) => scripted_read(p, reads[k], #[trigger] self.active@[k].1.pending_reads()),
                        None => self.active@[k].1.pending_reads() is None,
                    },
                forall|k: int|
                    0 <= k < pending@.len() ==> #[trigger] pending@[k].1.pending_reads() == pend0[done + k],
                output@ == poll_events(all.subrange(0, done as int), reads),
                forall|i: int|
                    0 <= i < output@.len() ==> (#[trigger] output@[i]) is Input || output@[i] is SourceError,
            decreases pending@.len(),
        {
            let ghost pend_before = pending@;
            let ghost reads_before = reads;
            let ghost entries_before = self.active@;
            assert(active_view(pend_before)[0] == pend_before[0].0);
            assert(pend_before[0].1.keeps_log() == logged0[done as int]);
            assert(pend_before[0].1.reads_answered() == logs0[done as int]);
            assert(pend_before[0].1.pending_reads() == pend0[done as int]);
            let mut entry = pending.remove(0);
            assert(entry == pend_before[0]);
            assert(entry.0 == all[done as int]);
            assert(pending@ =~= pend_before.subrange(1, pend_before.len() as int));
            assert forall|k: int| 0 <= k < pending@.len() implies #[trigger] active_view(pending@)[k]
                == all.subrange(done + 1, all.len() as int)[k] by {
                assert(pending@[k] == pend_before[k + 1]);
                assert(active_view(pend_before)[k + 1] == pend_before[k + 1].0);
            }
            assert(active_view(pending@) =~= all.subrange(done + 1, all.len() as int));
            assert forall|k: int| 0 <= k < pending@.len() implies #[trigger] pending@[k].1.keeps_log()
                == logged0[done + 1 + k] && pending@[k].1.reads_answered() == logs0[done + 1 + k] by {
                assert(pending@[k] == pend_before[k + 1]);
            }
            let ghost before = output@;
            let ghost pre = all.subrange(0, done + 1);
            assert(pre.drop_last() =~= all.subrange(0, done as int));
            match entry.1.read_batches() {
                Ok(batches) => {
                    let ghost b = batches;
                    let mut batches = batches;
                    let batch_count = batches.len();
                    assert(b@.subrange(0, 0).map_values(|x: EventBatch| CaptureEvent::Input(x)) =~= Seq::<CaptureEvent>::empty());
                    assert(b@.subrange(0, b@.len() as int) =~= b@);
                    let mut k: usize = 0;
                    while batches.len() > 0
                        invariant
                            batches@ == b@.subrange(k as int, b@.len() as int),
                            k <= b@.len(),
                            b@.len() == batch_count,
                            output@ == before + b@.subrange(0, k as int).map_values(|x: EventBatch| CaptureEvent::Input(x)),
                            forall|i: int|
                                0 <= i < output@.len() ==> (#[trigger] output@[i]) is Input || output@[i] is SourceError,
                        decreases batches@.len(),
                    {
                        let batch = batches.remove(0);
                        assert(batch == b@[k as int]);
                        output.push(CaptureEvent::Input(batch));
                        k = k + 1;
                        assert(output@ =~= before + b@.subrange(0, k as int).map_values(|x: EventBatch| CaptureEvent::Input(x)));
                        assert(batches@ =~= b@.subrange(k as int, b@.len() as int));
                    }
                    assert(b@.subrange(0, k as int) =~= b@);
                    proof {
                        let prev_reads = reads;
                        reads = reads.push(Ok(b));
                        assert(reads.drop_last() =~= prev_reads);
                    }
                },
                Err(error) => {
                    let ghost e = error;
                    output.push(CaptureEvent::SourceError { source_id: entry.0.source_id.clone(), error });
                    proof {
                        let prev_reads = reads;
                        reads = reads.push(Err(e));
                        assert(reads.drop_last() =~= prev_reads);
                    }
                },
            }
            proof {
                assert(output@ =~= poll_events(pre, reads));
            }
            let ghost prev_active = active_view(self.active@);
            let ghost prev_entries = self.active@;
            let ghost e = entry;
            assert(e.1.keeps_log() == logged0[done as int]);
            assert(logged0[done as int] ==> e.1.reads_answered() == logs0[done as int].push(reads[done as int]));
            assert(match pend0[done as int] {
                Some(p) => scripted_read(p, reads[done as int], e.1.pending_reads()),
                None => e.1.pending_reads() is None,
            });
            self.active.push(entry);
            assert(self.active@[done as int] == e);
            assert(active_view(self.active@) =~= prev_active.push(all[done as int]));
            assert forall|k: int| 0 <= k < done + 1 implies #[trigger] self.active@[k].1.keeps_log() == logged0[k]
                && (logged0[k] ==> self.active@[k].1.reads_answered() == logs0[k].push(reads[k])) by {
                if k < done {
                    assert(self.active@[k] == entries_before[k]);
                    assert(entries_before[k].1.keeps_log() == logged0[k]);
                    assert(reads[k] == reads_before[k]);
                } else {
                    assert(self.active@[k] == e);
                }
            }
            assert forall|k: int| 0 <= k < done + 1 implies match pend0[k] {
                Some(p) => scripted_read(p, reads[k], #[trigger] self.active@[k].1.pending_reads()),
                None => self.active@[k].1.pending_reads() is None,
            } by {
                if k < done {
                    assert(self.active@[k] == entries_before[k]);
                    assert(reads[k] == reads_before[k]);
                } else {
                    assert(self.active@[k] == e);
                }
            }
            done = done + 1;
            assert(active_view(self.active@) =~= all.subrange(0, done as int));
            assert forall|k: int| 0 <= k < pending@.len() implies #[trigger] pending@[k].1.keeps_log()
                == logged0[done + k] && pending@[k].1.reads_answered() == logs0[done + k] by {
                assert(pending@[k] == pend_before[k + 1]);
                assert(pend_before[k + 1].1.keeps_log() == logged0[done + k]);
            }
            assert forall|k: int| 0 <= k < pending@.len() implies #[trigger] pending@[k].1.pending_reads()
                == pend0[done + k] by {
                assert(pending@[k] == pend_before[k + 1]);
                assert(pend_before[k + 1].1.pending_reads() == pend0[done + k]);
            }
        }
        assert(all.subrange(0, done as int) =~= all);
        proof {
            let logs = self.source_reads();
            let logged = self.sources_logged();
            assert forall|k: int| 0 <= k < logged.len() implies #[trigger] logged[k] == logged0[k] by {
                assert(logged[k] == self.active@[k].1.keeps_log());
            }
            assert(logged =~= logged0);
            assert forall|k: int| 0 <= k < logged0.len() && #[trigger] logged0[k] implies logs[k] == logs0[k].push(reads[k]) by {
                assert(logs[k] == self.active@[k].1.reads_answered());
            }
            let pends = self.source_pending();
            assert forall|k: int| 0 <= k < pend0.len() implies match #[trigger] pend0[k] {
                Some(p) => scripted_read(p, reads[k], pends[k]),
                None => pends[k] is None,
            } by {
                assert(pends[k] == self.active@[k].1.pending_reads());
            }
            assert(poll_events(all, reads) == output@);
        }
        output
    }

    /// The connected devices, in source-ID order.
    pub fn connected_devices(&self) -> (r: Vec<&DeviceDescriptor>)
        ensures
            r@.len() == self.connected().len(),
            forall|i: int| 0 <= i < r@.len() ==> *(#[trigger] r@[i]) == self.connected()[i],
    {
        let mut r: Vec<&DeviceDescriptor> = Vec::new();
        let mut i: usize = 0;
        while i < self.active.len()
            invariant
                i <= self.active@.len(),
                r@.len() == i,
                forall|j: int| 0 <= j < i ==> *(#[trigger] r@[j]) == self.connected()[j],
            decreases self.active@.len() - i,
        {
            r.push(&self.active[i].0);
            i = i + 1;
        }
        r
    }

    pub fn into_provider(self) -> (p: P)
        ensures
            p == self.provider(),
    {
        self.provider
    }

    /// Whether a source with this ID is connected.
    fn is_connected(&self, id: &SourceId) -> (r: bool)
        ensures
            r == has_id(self.connected(), id@),
    {
        let mut i: usize = 0;
        while i < self.active.len()
            invariant
                i <= self.active@.len(),
                forall|j: int| 0 <= j < i ==> (#[trigger] self.connected()[j]).source_id@ != id@,
            decreases self.active@.len() - i,
        {
            assert(self.connected()[i as int] == self.active@[i as int].0);
            if self.active[i].0.source_id.same(id) {
                return true;
            }
            i = i + 1;
        }
        false
    }

    /// Inserts a newly opened source at its source-ID position.
    fn insert_active(&mut self, entry: ActiveSource)
        requires
            strictly_ordered(old(self).connected()),
            !has_id(old(self).connected(), entry.0.source_id@),
        ensures
            final(self).connected() == insert_by(old(self).connected(), entry.0, id_le()),
            strictly_ordered(final(self).connected()),
            final(self).mode == old(self).mode,
            final(self).provider == old(self).provider,
            exists|pos: int| 0 <= pos <= old(self).active@.len() && final(self).active@ == old(self).active@.insert(pos, entry),
    {
        let ghost s = self.connected();
        let ghost d = entry.0;
        let mut pos = self.active.len();
        while pos > 0 && entry.0.source_id.precedes(&self.active[pos - 1].0.source_id)
            invariant
                pos <= self.active@.len(),
                s == active_view(self.active@),
                d == entry.0,
                forall|j: int| pos <= j < s.len() ==> !(id_le())(#[trigger] s[j], d),
            decreases pos,
        {
            assert(s[pos - 1] == self.active@[pos - 1].0);
            pos = pos - 1;
        }
        proof {
            if pos > 0 {
                assert(s[pos - 1] == self.active@[pos - 1].0);
            }
            lemma_insert_by_split(s, d, id_le(), pos as int);
            crate::text::lemma_seq_lt_total(s[pos - 1].source_id@, d.source_id@);
        }
        let ghost prev = self.active@;
        let ghost en = entry;
        self.active.insert(pos, entry);
        assert(self.connected() =~= s.subrange(0, pos as int).push(d) + s.subrange(pos as int, s.len() as int));
        assert(self.active@ == prev.insert(pos as int, en));
        proof {
            let t = self.connected();
            assert forall|i: int, j: int| 0 <= i < j < t.len() implies seq_lt(
                (#[trigger] t[i]).source_id@,
                (#[trigger] t[j]).source_id@,
            ) by {
                if i < pos && j < pos {
                } else if i < pos && j == pos {
                    if i < pos - 1 {
                        crate::text::lemma_seq_lt_transitive(s[i].source_id@, s[pos - 1].source_id@, d.source_id@);
                    }
                } else if i < pos {
                    if i < pos - 1 {
                        crate::text::lemma_seq_lt_transitive(s[i].source_id@, s[pos - 1].source_id@, d.source_id@);
                    }
                    assert(seq_lt(d.source_id@, s[j - 1].source_id@)) by {
                        crate::text::lemma_seq_lt_total(d.source_id@, s[j - 1].source_id@);
                    }
                    crate::text::lemma_seq_lt_transitive(s[i].source_id@, d.source_id@, s[j - 1].source_id@);
                } else if i == pos {
                    crate::text::lemma_seq_lt_total(d.source_id@, s[j - 1].source_id@);
                } else {
                    assert(t[i] == s[i - 1]);
                    assert(t[j] == s[j - 1]);
                }
            }
        }
    }
}

proof fn lemma_connect_run_used_nonneg(
    devices: Seq<DeviceDescriptor>,
    n: int,
    start: Seq<DeviceDescriptor>,
    a: Seq<Result<CaptureAccess, CaptureError>>,
)
    ensures
        connect_run(devices, n, start, a).2 >= 0,
    decreases n,
{
    if n > 0 {
        lemma_connect_run_used_nonneg(devices, n - 1, start, a);
    }
}

/// Whether some device in the list has this source ID.
fn listed(devices: &Vec<DeviceDescriptor>, id: &SourceId) -> (r: bool)
    ensures
        r == has_id(devices@, id@),
{
    let mut i: usize = 0;
    while i < devices.len()
        invariant
            i <= devices@.len(),
            forall|j: int| 0 <= j < i ==> (#[trigger] devices@[j]).source_id@ != id@,
        decreases devices@.len() - i,
    {
        if devices[i].source_id.same(id) {
            return true;
        }
        i = i + 1;
    }
    false
}

/// Answers beyond the ones a run consumes do not change it.
proof fn lemma_connect_run_prefix(
    devices: Seq<DeviceDescriptor>,
    n: int,
    start: Seq<DeviceDescriptor>,
    a: Seq<Result<CaptureAccess, CaptureError>>,
    b: Seq<Result<CaptureAccess, CaptureError>>,
)
    requires
        a.len() <= b.len(),
        forall|i: int| 0 <= i < a.len() ==> #[trigger] a[i] == b[i],
        connect_run(devices, n, start, a).2 <= a.len(),
    ensures
        connect_run(devices, n, start, a) == connect_run(devices, n, start, b),
    decreases n,
{
    if n > 0 {
        lemma_connect_run_used_monotone(devices, n, start, a);
        lemma_connect_run_prefix(devices, n - 1, start, a, b);
        let r = connect_run(devices, n - 1, start, a);
        lemma_connect_run_used_nonneg(devices, n - 1, start, a);
        if !has_id(r.1, devices[n - 1].source_id@) {
            assert(r.2 < a.len());
            assert(a[r.2] == b[r.2]);
        }
    }
}

proof fn lemma_connect_run_used_monotone(
    devices: Seq<DeviceDescriptor>,
    n: int,
    start: Seq<DeviceDescriptor>,
    a: Seq<Result<CaptureAccess, CaptureError>>,
)
    requires
        n > 0,
    ensures
        connect_run(devices, n - 1, start, a).2 <= connect_run(devices, n, start, a).2,
        connect_run(devices, n, start, a).2 <= connect_run(devices, n - 1, start, a).2 + 1,
{
}

proof fn lemma_kept_ordered(active: Seq<DeviceDescriptor>, devices: Seq<DeviceDescriptor>)
    requires
        strictly_ordered(active),
    ensures
        strictly_ordered(kept(active, devices)),
        forall|i: int|
            0 <= i < kept(active, devices).len() ==> exists|j: int|
                0 <= j < active.len() && active[j] == #[trigger] kept(active, devices)[i],
    decreases active.len(),
{
    if active.len() > 0 {
        let t = active.drop_last();
        assert(strictly_ordered(t)) by {
            assert forall|i: int, j: int| 0 <= i < j < t.len() implies seq_lt(
                (#[trigger] t[i]).source_id@,
                (#[trigger] t[j]).source_id@,
            ) by {
                assert(t[i] == active[i] && t[j] == active[j]);
            }
        }
        lemma_kept_ordered(t, devices);
        let rest = kept(t, devices);
        if has_id(devices, active.last().source_id@) {
            let out = rest.push(active.last());
            assert forall|i: int| 0 <= i < out.len() implies exists|j: int|
                0 <= j < active.len() && active[j] == #[trigger] out[i] by {
                if i < rest.len() {
                    let j = choose|j: int| 0 <= j < t.len() && t[j] == rest[i];
                    assert(active[j] == out[i]);
                } else {
                    assert(active[active.len() - 1] == out[i]);
                }
            }
            assert forall|i: int, j: int| 0 <= i < j < out.len() implies seq_lt(
                (#[trigger] out[i]).source_id@,
                (#[trigger] out[j]).source_id@,
            ) by {
                if j == out.len() - 1 {
                    let k = choose|k: int| 0 <= k < t.len() && t[k] == rest[i];
                    assert(seq_lt(active[k].source_id@, active[active.len() - 1].source_id@));
                }
            }
        } else {
            assert forall|i: int| 0 <= i < rest.len() implies exists|j: int|
                0 <= j < active.len() && active[j] == #[trigger] rest[i] by {
                let j = choose|j: int| 0 <= j < t.len() && t[j] == rest[i];
                assert(active[j] == rest[i]);
            }
        }
    }
}

/// How many `Disconnected` events name this source ID.
pub open spec fn disconnects_of(events: Seq<CaptureEvent>, id: Seq<char>) -> nat
    decreases events.len(),
{
    if events.len() == 0 {
        0
    } else {
        disconnects_of(events.drop_last(), id) + match events.last() {
            CaptureEvent::Disconnected { source_id, .. } => if source_id@ == id { 1nat } else { 0 },
            _ => 0,
        }
    }
}

/// How many `Connected` events name this source ID.
pub open spec fn connects_of(events: Seq<CaptureEvent>, id: Seq<char>) -> nat
    decreases events.len(),
{
    if events.len() == 0 {
        0
    } else {
        connects_of(events.drop_last(), id) + match events.last() {
            CaptureEvent::Connected { device, .. } => if device.source_id@ == id { 1nat } else { 0 },
            _ => 0,
        }
    }
}

proof fn lemma_counts_push(events: Seq<CaptureEvent>, e: CaptureEvent, id: Seq<char>)
    ensures
        disconnects_of(events.push(e), id) == disconnects_of(events, id) + match e {
            CaptureEvent::Disconnected { source_id, .. } => if source_id@ == id { 1nat } else { 0 },
            _ => 0,
        },
        connects_of(events.push(e), id) == connects_of(events, id) + match e {
            CaptureEvent::Connected { device, .. } => if device.source_id@ == id { 1nat } else { 0 },
            _ => 0,
        },
{
    assert(events.push(e).drop_last() =~= events);
}

proof fn lemma_has_id_push(s: Seq<DeviceDescriptor>, d: DeviceDescriptor, id: Seq<char>)
    ensures
        has_id(s.push(d), id) <==> has_id(s, id) || d.source_id@ == id,
{
    let t = s.push(d);
    if has_id(s, id) {
        let i = choose|i: int| 0 <= i < s.len() && (#[trigger] s[i]).source_id@ == id;
        assert(t[i] == s[i]);
    }
    if d.source_id@ == id {
        assert(t[s.len() as int] == d);
    }
    if has_id(t, id) {
        let i = choose|i: int| 0 <= i < t.len() && (#[trigger] t[i]).source_id@ == id;
        if i < s.len() {
            assert(t[i] == s[i]);
        }
    }
}

proof fn lemma_has_id_insert(s: Seq<DeviceDescriptor>, d: DeviceDescriptor, id: Seq<char>)
    ensures
        has_id(insert_by(s, d, id_le()), id) <==> has_id(s, id) || d.source_id@ == id,
    decreases s.len(),
{
    if s.len() == 0 {
        lemma_has_id_push(s, d, id);
        assert(seq![d] =~= s.push(d));
    } else if (id_le())(s.last(), d) {
        lemma_has_id_push(s, d, id);
    } else {
        let t = s.drop_last();
        lemma_has_id_insert(t, d, id);
        lemma_has_id_push(insert_by(t, d, id_le()), s.last(), id);
        lemma_has_id_push(t, s.last(), id);
        assert(t.push(s.last()) =~= s);
    }
}

proof fn lemma_strictly_ordered_drop_last(s: Seq<DeviceDescriptor>)
    requires
        strictly_ordered(s),
        s.len() > 0,
    ensures
        strictly_ordered(s.drop_last()),
        !has_id(s.drop_last(), s.last().source_id@),
{
    let t = s.drop_last();
    assert forall|i: int, j: int| 0 <= i < j < t.len() implies seq_lt(
        (#[trigger] t[i]).source_id@,
        (#[trigger] t[j]).source_id@,
    ) by {
        assert(t[i] == s[i] && t[j] == s[j]);
    }
    if has_id(t, s.last().source_id@) {
        let i = choose|i: int| 0 <= i < t.len() && (#[trigger] t[i]).source_id@ == s.last().source_id@;
        assert(t[i] == s[i]);
        assert(seq_lt(s[i].source_id@, s[s.len() - 1].source_id@));
        lemma_seq_lt_irreflexive(s.last().source_id@);
    }
}

/// A source that disappears from discovery is disconnected exactly once:
/// the removal events name each connected source the snapshot no longer
/// lists once, and no other source.
pub proof fn law_disconnect_once(active: Seq<DeviceDescriptor>, devices: Seq<DeviceDescriptor>, id: Seq<char>)
    requires
        strictly_ordered(active),
    ensures
        disconnects_of(removal_events(active, devices), id) == if has_id(active, id) && !has_id(
            devices,
            id,
        ) {
            1nat
        } else {
            0
        },
    decreases active.len(),
{
    if active.len() > 0 {
        let t = active.drop_last();
        lemma_strictly_ordered_drop_last(active);
        law_disconnect_once(t, devices, id);
        lemma_has_id_push(t, active.last(), id);
        assert(t.push(active.last()) =~= active);
        let rest = removal_events(t, devices);
        if !has_id(devices, active.last().source_id@) {
            lemma_counts_push(
                rest,
                CaptureEvent::Disconnected {
                    source_id: active.last().source_id,
                    physical_id: active.last().physical_id,
                },
                id,
            );
        }
    }
}

/// Every device in the list has an ID the snapshot lists.
pub open spec fn all_listed(cs: Seq<DeviceDescriptor>, devices: Seq<DeviceDescriptor>) -> bool {
    forall|i: int| 0 <= i < cs.len() ==> has_id(devices, (#[trigger] cs[i]).source_id@)
}

proof fn lemma_kept_listed(active: Seq<DeviceDescriptor>, devices: Seq<DeviceDescriptor>)
    ensures
        all_listed(kept(active, devices), devices),
    decreases active.len(),
{
    if active.len() > 0 {
        lemma_kept_listed(active.drop_last(), devices);
        let rest = kept(active.drop_last(), devices);
        if has_id(devices, active.last().source_id@) {
            assert forall|i: int| 0 <= i < rest.push(active.last()).len() implies has_id(
                devices,
                (#[trigger] rest.push(active.last())[i]).source_id@,
            ) by {
                if i < rest.len() {
                    assert(rest.push(active.last())[i] == rest[i]);
                }
            }
        }
    }
}

proof fn lemma_connect_run_listed(
    devices: Seq<DeviceDescriptor>,
    n: int,
    start: Seq<DeviceDescriptor>,
    answers: Seq<Result<CaptureAccess, CaptureError>>,
)
    requires
        0 <= n <= devices.len(),
        all_listed(start, devices),
    ensures
        all_listed(connect_run(devices, n, start, answers).1, devices),
    decreases n,
{
    if n > 0 {
        lemma_connect_run_listed(devices, n - 1, start, answers);
        let (events, connected, used, _) = connect_run(devices, n - 1, start, answers);
        let device = devices[n - 1];
        if !has_id(connected, device.source_id@) && answers[used] is Ok {
            let c2 = insert_by(connected, device, id_le());
            lemma_insert_by_members(connected, device, id_le());
            assert forall|i: int| 0 <= i < c2.len() implies has_id(devices, (#[trigger] c2[i]).source_id@) by {
                if c2[i] == device {
                    assert(devices[n - 1] == device);
                } else {
                    let k = choose|k: int| 0 <= k < connected.len() && connected[k] == c2[i];
                    assert(has_id(devices, connected[k].source_id@));
                }
            }
        }
    }
}

proof fn lemma_listed_removes_nothing(cs: Seq<DeviceDescriptor>, devices: Seq<DeviceDescriptor>)
    requires
        all_listed(cs, devices),
    ensures
        removal_events(cs, devices).len() == 0,
    decreases cs.len(),
{
    if cs.len() > 0 {
        let t = cs.drop_last();
        assert forall|i: int| 0 <= i < t.len() implies has_id(devices, (#[trigger] t[i]).source_id@) by {
            assert(t[i] == cs[i]);
        }
        lemma_listed_removes_nothing(t, devices);
        assert(has_id(devices, cs[cs.len() - 1].source_id@));
    }
}

/// Reconciling settles: every source connected after a reconciliation is
/// listed by its snapshot, so reconciling the same snapshot again
/// disconnects nothing.
pub proof fn law_reconcile_settles(
    active: Seq<DeviceDescriptor>,
    snapshot: DiscoverySnapshot,
    answers: Seq<Result<CaptureAccess, CaptureError>>,
)
    ensures
        all_listed(reconcile_spec(active, snapshot, answers).1, snapshot.devices@),
        removal_events(reconcile_spec(active, snapshot, answers).1, snapshot.devices@).len() == 0,
{
    let devices = snapshot.devices@;
    lemma_kept_listed(active, devices);
    lemma_connect_run_listed(devices, devices.len() as int, kept(active, devices), answers);
    lemma_listed_removes_nothing(reconcile_spec(active, snapshot, answers).1, devices);
}

/// Each source is opened and connected at most once per reconciliation,
/// however often the snapshot lists it, and never when it is already
/// connected; a source ends up connected exactly when it already was or a
/// `Connected` event names it, so a failed open never claims a connection.
pub proof fn law_connect_once(
    devices: Seq<DeviceDescriptor>,
    n: int,
    start: Seq<DeviceDescriptor>,
    answers: Seq<Result<CaptureAccess, CaptureError>>,
    id: Seq<char>,
)
    requires
        0 <= n <= devices.len(),
    ensures
        has_id(connect_run(devices, n, start, answers).1, id) <==> (has_id(start, id) || connects_of(
            connect_run(devices, n, start, answers).0,
            id,
        ) > 0),
        connects_of(connect_run(devices, n, start, answers).0, id) <= 1,
        has_id(start, id) ==> connects_of(connect_run(devices, n, start, answers).0, id) == 0,
    decreases n,
{
    if n > 0 {
        law_connect_once(devices, n - 1, start, answers, id);
        let (events, connected, used, _) = connect_run(devices, n - 1, start, answers);
        let device = devices[n - 1];
        if !has_id(connected, device.source_id@) {
            match answers[used] {
                Ok(access) => {
                    lemma_counts_push(events, CaptureEvent::Connected { device, access }, id);
                    lemma_has_id_insert(connected, device, id);
                },
                Err(error) => {
                    lemma_counts_push(
                        events,
                        CaptureEvent::SourceError { source_id: device.source_id, error },
                        id,
                    );
                },
            }
        }
    }
}

/// Polling the connected sources never connects or disconnects anything: it
/// yields only input frames and source errors.
pub proof fn law_poll_has_no_lifecycle_events(
    active: Seq<DeviceDescriptor>,
    reads: Seq<Result<Vec<EventBatch>, CaptureError>>,
)
    ensures
        forall|i: int|
            0 <= i < poll_events(active, reads).len() ==> (#[trigger] poll_events(active, reads)[i]) is Input
                || poll_events(active, reads)[i] is SourceError,
    decreases active.len(),
{
    if active.len() > 0 && reads.len() == active.len() {
        law_poll_has_no_lifecycle_events(active.drop_last(), reads.drop_last());
        let rest = poll_events(active.drop_last(), reads.drop_last());
        let tail = match reads.last() {
            Ok(batches) => batches@.map_values(|b: EventBatch| CaptureEvent::Input(b)),
            Err(error) => seq![CaptureEvent::SourceError { source_id: active.last().source_id, error }],
        };
        assert forall|i: int| 0 <= i < (rest + tail).len() implies (#[trigger] (rest + tail)[i]) is Input
            || (rest + tail)[i] is SourceError by {
            if i < rest.len() {
                assert((rest + tail)[i] == rest[i]);
            } else {
                assert((rest + tail)[i] == tail[i - rest.len()]);
            }
        }
    }
}

} // verus!
