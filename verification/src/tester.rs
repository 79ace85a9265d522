//! Pure state model used by the optional gamepad tester window.

use vstd::prelude::*;

use crate::hid::{
    build_layouts_spec, descriptor_error_text, frame_report, frame_spec, is_listing, items_from,
    items_view, layouts_view, report_error_text, HidDescriptor, HidDescriptorError, HidFixture,
    HidItemKind, HidReportFrame, HidReportLayout, HidReportType, LayoutModel,
};
use crate::model::{
    error_text, AbsoluteAxisInfo, AccessMode, CaptureAccess, CaptureError, CaptureEvent,
    ControlDescriptor, ControllerClass, DeviceDescriptor, DeviceIdentity, DeviceProvenance,
    EventBatch, IdentityStability, PhysicalDeviceId, SourceId, Transport,
};
use crate::profile::{
    automatic_of, candidates_view, fallback_candidate, matched_ranked, ranked_le, unranked,
    AutoProfileDetector, ProfileId, ProfileSelectionMode,
};
use crate::sorting::{
    count_lt, find_key, insert_by, is_strict_total, is_total_preorder, lemma_count_lt_sorted,
    lemma_find_key, lemma_find_key_unique, lemma_insert_by_split, lemma_sort_by_len,
    lemma_sort_by_sorted, lemma_strict_insert, lemma_strict_push, lemma_strict_remove,
    lemma_strict_update, sort_by, strictly_sorted_by,
};
use crate::text::{
    decimal, lemma_seq_lt_irreflexive, lemma_seq_lt_total, lemma_seq_lt_transitive, owned,
    push_decimal, push_str, seq_lt,
};

verus! {

/// Frames the tester keeps.
pub const MAX_RETAINED_FRAMES: usize = 256;

/// Log entries the tester keeps.
pub const MAX_RETAINED_LOG_ENTRIES: usize = 512;

/// Timing samples each series keeps.
pub const MAX_TIMING_SAMPLES: usize = 256;

/// Append `x`, dropping the oldest element when `cap` elements are already held.
pub open spec fn bounded_push<T>(s: Seq<T>, x: T, cap: nat) -> Seq<T> {
    if s.len() >= cap {
        s.drop_first().push(x)
    } else {
        s.push(x)
    }
}

/// A deterministic summary of recent diagnostic timing samples.
#[derive(Debug, Clone, Copy, PartialEq, Eq, Structural)]
pub struct LatencySummary {
    /// Number of samples currently represented, up to 256.
    pub samples: usize,
    /// Median latency in microseconds.
    pub p50_micros: u128,
    /// 95th-percentile latency in microseconds.
    pub p95_micros: u128,
    /// Largest retained latency in microseconds.
    pub max_micros: u128,
}

pub open spec fn micros_le() -> spec_fn(u128, u128) -> bool {
    |a: u128, b: u128| a <= b
}

/// The summary of a sample series: counts and nearest-rank percentiles of the
/// sorted samples (index `(n - 1) * p / 100`), none for an empty series.
pub open spec fn summary_spec(samples: Seq<u128>) -> Option<LatencySummary> {
    if samples.len() == 0 {
        None
    } else {
        let sorted = sort_by(samples, micros_le());
        let n = samples.len() as int;
        Some(
            LatencySummary {
                samples: n as usize,
                p50_micros: sorted[(n - 1) * 50 / 100],
                p95_micros: sorted[(n - 1) * 95 / 100],
                max_micros: sorted[n - 1],
            },
        )
    }
}

/// A bounded series of recent latencies, in microseconds.
#[derive(Debug)]
struct RecentLatencies {
    samples: Vec<u128>,
}

impl RecentLatencies {
    fn observe(&mut self, micros: u128)
        requires
            old(self).samples@.len() <= MAX_TIMING_SAMPLES,
        ensures
            final(self).samples@ == bounded_push(old(self).samples@, micros, MAX_TIMING_SAMPLES as nat),
            final(self).samples@.len() <= MAX_TIMING_SAMPLES,
    {
        if self.samples.len() == MAX_TIMING_SAMPLES {
            self.samples.remove(0);
        }
        self.samples.push(micros);
    }

    fn summary(&self) -> (r: Option<LatencySummary>)
        requires
            self.samples@.len() <= MAX_TIMING_SAMPLES,
        ensures
            r == summary_spec(self.samples@),
    {
        let ghost s = self.samples@;
        let mut sorted: Vec<u128> = Vec::new();
        let mut i: usize = 0;
        while i < self.samples.len()
            invariant
                i <= s.len(),
                s == self.samples@,
                sorted@ == sort_by(s.subrange(0, i as int), micros_le()),
            decreases s.len() - i,
        {
            let ghost prefix = s.subrange(0, i + 1);
            assert(prefix.drop_last() =~= s.subrange(0, i as int));
            insert_micros(&mut sorted, self.samples[i]);
            i = i + 1;
        }
        assert(s.subrange(0, i as int) =~= s);
        if sorted.len() == 0 {
            return None;
        }
        proof {
            lemma_sort_by_len(s, micros_le());
        }
        let n = sorted.len();
        let p50 = sorted[(n - 1) * 50 / 100];
        let p95 = sorted[(n - 1) * 95 / 100];
        let max = sorted[n - 1];
        Some(LatencySummary { samples: n, p50_micros: p50, p95_micros: p95, max_micros: max })
    }
}

fn insert_micros(v: &mut Vec<u128>, x: u128)
    ensures
        final(v)@ == insert_by(old(v)@, x, micros_le()),
{
    let ghost s = v@;
    let mut pos = v.len();
    while pos > 0 && v[pos - 1] > x
        invariant
            pos <= v@.len(),
            v@ == s,
            forall|j: int| pos <= j < s.len() ==> !(micros_le())(#[trigger] s[j], x),
        decreases pos,
    {
        pos = pos - 1;
    }
    proof {
        lemma_insert_by_split(s, x, micros_le(), pos as int);
    }
    v.insert(pos, x);
    assert(v@ =~= s.subrange(0, pos as int).push(x) + s.subrange(pos as int, s.len() as int));
}

/// Summaries are ordered and bounded: at most 256 samples, and
/// `p50 <= p95 <= max`, the max being the largest sample.
pub proof fn law_summary_ordered(samples: Seq<u128>)
    requires
        0 < samples.len() <= MAX_TIMING_SAMPLES,
    ensures
        summary_spec(samples) matches Some(s) && s.samples <= MAX_TIMING_SAMPLES && s.p50_micros
            <= s.p95_micros <= s.max_micros && forall|i: int|
            0 <= i < samples.len() ==> #[trigger] samples[i] <= s.max_micros,
{
    broadcast use vstd::seq_lib::group_seq_properties;

    let sorted = sort_by(samples, micros_le());
    assert(is_total_preorder(micros_le()));
    lemma_sort_by_sorted(samples, micros_le());
    lemma_sort_by_len(samples, micros_le());
    let n = samples.len() as int;
    assert((n - 1) * 50 / 100 <= (n - 1) * 95 / 100 <= n - 1) by (nonlinear_arith)
        requires
            n >= 1,
    ;
    assert((n - 1) * 50 / 100 >= 0) by (nonlinear_arith)
        requires
            n >= 1,
    ;
    if (n - 1) * 50 / 100 < (n - 1) * 95 / 100 {
        assert((micros_le())(sorted[(n - 1) * 50 / 100], sorted[(n - 1) * 95 / 100]));
    }
    if (n - 1) * 95 / 100 < n - 1 {
        assert((micros_le())(sorted[(n - 1) * 95 / 100], sorted[n - 1]));
    }
    assert forall|i: int| 0 <= i < samples.len() implies #[trigger] samples[i] <= sorted[n - 1] by {
        assert(samples.contains(samples[i]));
        assert(samples.to_multiset().count(samples[i]) > 0);
        assert(sorted.contains(samples[i]));
        let k = choose|k: int| 0 <= k < sorted.len() && sorted[k] == samples[i];
        if k < n - 1 {
            assert((micros_le())(sorted[k], sorted[n - 1]));
        }
    }
}

/// The samples a series holds after recording `ds` in turn, starting empty.
pub open spec fn recorded(ds: Seq<u128>) -> Seq<u128>
    decreases ds.len(),
{
    if ds.len() == 0 {
        seq![]
    } else {
        bounded_push(recorded(ds.drop_last()), ds.last(), MAX_TIMING_SAMPLES as nat)
    }
}

/// The last 256 of `ds` (all of them, when fewer), in order.
pub open spec fn recent_window(ds: Seq<u128>) -> Seq<u128> {
    if ds.len() > MAX_TIMING_SAMPLES {
        ds.subrange(ds.len() - MAX_TIMING_SAMPLES, ds.len() as int)
    } else {
        ds
    }
}

/// Timing summaries cover recent history: recording durations in turn into an
/// empty series keeps exactly the last 256 of them (all, when fewer), in
/// order, so a summary is the summary of that window: none before the first
/// record, then at most 256 samples with `p50 <= p95 <= max`.
pub proof fn law_timing_window(ds: Seq<u128>)
    ensures
        recorded(ds) == recent_window(ds),
        summary_spec(recorded(ds)) == summary_spec(recent_window(ds)),
        ds.len() == 0 ==> summary_spec(recorded(ds)) is None,
        ds.len() > 0 ==> (summary_spec(recorded(ds)) matches Some(s) && s.samples <= MAX_TIMING_SAMPLES
            && s.p50_micros <= s.p95_micros <= s.max_micros),
    decreases ds.len(),
{
    if ds.len() > 0 {
        let prefix = ds.drop_last();
        law_timing_window(prefix);
        let w = recent_window(prefix);
        if prefix.len() >= MAX_TIMING_SAMPLES {
            assert(w.drop_first().push(ds.last()) =~= recent_window(ds));
        } else {
            assert(w.push(ds.last()) =~= recent_window(ds));
        }
        law_summary_ordered(recorded(ds));
    }
}

/// Bounded timing evidence for the optional tester pipeline.
///
/// Timings diagnose this process only. Each `record_*` method takes a
/// duration in whole microseconds (`Duration::as_micros`).
#[derive(Debug)]
pub struct TesterTiming {
    capture_core: RecentLatencies,
    queue_to_gui: RecentLatencies,
    state_apply: RecentLatencies,
    kernel_to_gui: RecentLatencies,
    gui_update: RecentLatencies,
}

impl Default for TesterTiming {
    fn default() -> (t: Self)
        ensures
            t.wf(),
            t.capture_core_samples().len() == 0,
            t.queue_to_gui_samples().len() == 0,
            t.state_apply_samples().len() == 0,
            t.kernel_to_gui_samples().len() == 0,
            t.gui_update_samples().len() == 0,
    {
        TesterTiming {
            capture_core: RecentLatencies { samples: Vec::new() },
            queue_to_gui: RecentLatencies { samples: Vec::new() },
            state_apply: RecentLatencies { samples: Vec::new() },
            kernel_to_gui: RecentLatencies { samples: Vec::new() },
            gui_update: RecentLatencies { samples: Vec::new() },
        }
    }
}

impl TesterTiming {
    pub closed spec fn capture_core_samples(&self) -> Seq<u128> {
        self.capture_core.samples@
    }

    pub closed spec fn queue_to_gui_samples(&self) -> Seq<u128> {
        self.queue_to_gui.samples@
    }

    pub closed spec fn state_apply_samples(&self) -> Seq<u128> {
        self.state_apply.samples@
    }

    pub closed spec fn kernel_to_gui_samples(&self) -> Seq<u128> {
        self.kernel_to_gui.samples@
    }

    pub closed spec fn gui_update_samples(&self) -> Seq<u128> {
        self.gui_update.samples@
    }

    /// Every series holds at most 256 samples.
    pub open spec fn wf(&self) -> bool {
        &&& self.capture_core_samples().len() <= MAX_TIMING_SAMPLES
        &&& self.queue_to_gui_samples().len() <= MAX_TIMING_SAMPLES
        &&& self.state_apply_samples().len() <= MAX_TIMING_SAMPLES
        &&& self.kernel_to_gui_samples().len() <= MAX_TIMING_SAMPLES
        &&& self.gui_update_samples().len() <= MAX_TIMING_SAMPLES
    }

    /// Record the duration spent in `CaptureSession::poll` or `poll_active`.
    pub fn record_capture_core(&mut self, micros: u128)
        requires
            old(self).wf(),
        ensures
            final(self).wf(),
            final(self).capture_core_samples() == bounded_push(old(self).capture_core_samples(), micros, MAX_TIMING_SAMPLES as nat),
            final(self).queue_to_gui_samples() == old(self).queue_to_gui_samples(),
            final(self).state_apply_samples() == old(self).state_apply_samples(),
            final(self).kernel_to_gui_samples() == old(self).kernel_to_gui_samples(),
            final(self).gui_update_samples() == old(self).gui_update_samples(),
    {
        self.capture_core.observe(micros);
    }

    /// Record the elapsed time from capture-worker enqueue to GUI receipt.
    pub fn record_queue_to_gui(&mut self, micros: u128)
        requires
            old(self).wf(),
        ensures
            final(self).wf(),
            final(self).queue_to_gui_samples() == bounded_push(old(self).queue_to_gui_samples(), micros, MAX_TIMING_SAMPLES as nat),
            final(self).capture_core_samples() == old(self).capture_core_samples(),
            final(self).state_apply_samples() == old(self).state_apply_samples(),
            final(self).kernel_to_gui_samples() == old(self).kernel_to_gui_samples(),
            final(self).gui_update_samples() == old(self).gui_update_samples(),
    {
        self.queue_to_gui.observe(micros);
    }

    /// Record state-model application time for one capture event.
    pub fn record_state_apply(&mut self, micros: u128)
        requires
            old(self).wf(),
        ensures
            final(self).wf(),
            final(self).state_apply_samples() == bounded_push(old(self).state_apply_samples(), micros, MAX_TIMING_SAMPLES as nat),
            final(self).capture_core_samples() == old(self).capture_core_samples(),
            final(self).queue_to_gui_samples() == old(self).queue_to_gui_samples(),
            final(self).kernel_to_gui_samples() == old(self).kernel_to_gui_samples(),
            final(self).gui_update_samples() == old(self).gui_update_samples(),
    {
        self.state_apply.observe(micros);
    }

    /// Record kernel-event-time to GUI-state latency when both clocks agree.
    pub fn record_kernel_to_gui(&mut self, micros: u128)
        requires
            old(self).wf(),
        ensures
            final(self).wf(),
            final(self).kernel_to_gui_samples() == bounded_push(old(self).kernel_to_gui_samples(), micros, MAX_TIMING_SAMPLES as nat),
            final(self).capture_core_samples() == old(self).capture_core_samples(),
            final(self).queue_to_gui_samples() == old(self).queue_to_gui_samples(),
            final(self).state_apply_samples() == old(self).state_apply_samples(),
            final(self).gui_update_samples() == old(self).gui_update_samples(),
    {
        self.kernel_to_gui.observe(micros);
    }

    /// Record one complete egui update, including view construction and paint submission.
    pub fn record_gui_update(&mut self, micros: u128)
        requires
            old(self).wf(),
        ensures
            final(self).wf(),
            final(self).gui_update_samples() == bounded_push(old(self).gui_update_samples(), micros, MAX_TIMING_SAMPLES as nat),
            final(self).capture_core_samples() == old(self).capture_core_samples(),
            final(self).queue_to_gui_samples() == old(self).queue_to_gui_samples(),
            final(self).state_apply_samples() == old(self).state_apply_samples(),
            final(self).kernel_to_gui_samples() == old(self).kernel_to_gui_samples(),
    {
        self.gui_update.observe(micros);
    }

    pub fn capture_core(&self) -> (r: Option<LatencySummary>)
        requires
            self.wf(),
        ensures
            r == summary_spec(self.capture_core_samples()),
    {
        self.capture_core.summary()
    }

    pub fn queue_to_gui(&self) -> (r: Option<LatencySummary>)
        requires
            self.wf(),
        ensures
            r == summary_spec(self.queue_to_gui_samples()),
    {
        self.queue_to_gui.summary()
    }

    pub fn state_apply(&self) -> (r: Option<LatencySummary>)
        requires
            self.wf(),
        ensures
            r == summary_spec(self.state_apply_samples()),
    {
        self.state_apply.summary()
    }

    pub fn kernel_to_gui(&self) -> (r: Option<LatencySummary>)
        requires
            self.wf(),
        ensures
            r == summary_spec(self.kernel_to_gui_samples()),
    {
        self.kernel_to_gui.summary()
    }

    pub fn gui_update(&self) -> (r: Option<LatencySummary>)
        requires
            self.wf(),
        ensures
            r == summary_spec(self.gui_update_samples()),
    {
        self.gui_update.summary()
    }
}

/// Pure HID fixture evidence rendered beside native evdev evidence.
#[derive(Debug)]
pub struct TesterHidEvidence {
    pub item_count: usize,
    pub layouts: Vec<HidReportLayout>,
    pub reports: Vec<HidReportFrame>,
    pub diagnostics: Vec<String>,
}

/// The current state of one connected source, including the access result and
/// inspectable automatic profile evidence.
#[derive(Debug)]
pub struct TesterSource {
    pub device: DeviceDescriptor,
    pub access: CaptureAccess,
    pub profile: ProfileSelectionMode,
}

impl Clone for TesterSource {
    fn clone(&self) -> (r: Self)
        ensures
            r.device.equiv(&self.device),
            r.access == self.access,
            automatic_of(r.profile).equiv(&automatic_of(self.profile)),
    {
        TesterSource { device: self.device.clone(), access: self.access, profile: self.profile.clone() }
    }
}

/// Native key state suitable for a diagnostic view. `code` remains authoritative.
#[derive(Debug, PartialEq, Eq)]
pub struct VisualKey {
    pub code: u16,
    pub name: String,
    pub value: i32,
}

impl Clone for VisualKey {
    fn clone(&self) -> (r: Self)
        ensures
            r == *self,
    {
        VisualKey { code: self.code, name: self.name.clone(), value: self.value }
    }
}

/// Native absolute-axis evidence suitable for a diagnostic view.
#[derive(Debug, PartialEq, Eq)]
pub struct VisualAxis {
    pub code: u16,
    pub name: String,
    pub info: AbsoluteAxisInfo,
    pub value: i32,
}

impl Clone for VisualAxis {
    fn clone(&self) -> (r: Self)
        ensures
            r == *self,
    {
        VisualAxis { code: self.code, name: self.name.clone(), info: self.info, value: self.value }
    }
}

/// Generic, source-selected native evidence for the tester dashboard.
#[derive(Debug, PartialEq, Eq)]
pub struct NativeInputView {
    pub source_id: SourceId,
    pub keys: Vec<VisualKey>,
    pub axes: Vec<VisualAxis>,
    /// Native `ABS_HAT0X`/`ABS_HAT0Y` values when both axes are advertised.
    pub dpad: Option<(i32, i32)>,
    pub recent_frame_count: usize,
}

/// Display-only Xbox-compatible presentation assembled from observed Linux codes.
///
/// This is never a capture profile, decoder, or controller-support claim.
#[derive(Debug, PartialEq, Eq)]
pub struct XboxDisplayView {
    pub source_id: SourceId,
    pub buttons: Vec<(XboxDisplayButton, i32)>,
    pub left_stick: (i32, i32),
    pub right_stick: (i32, i32),
    pub dpad: (i32, i32),
    pub left_trigger: Option<i32>,
    pub right_trigger: Option<i32>,
}

/// Labels used only by the Xbox display demo.
#[derive(Debug, Clone, Copy, PartialEq, Eq, PartialOrd, Ord, Structural)]
pub enum XboxDisplayButton {
    South,
    East,
    North,
    West,
    LeftBumper,
    RightBumper,
    View,
    Menu,
    Guide,
    LeftStick,
    RightStick,
}

/// The label the display demo prints for a button.
pub open spec fn button_label(button: XboxDisplayButton) -> Seq<char> {
    match button {
        XboxDisplayButton::South => "A"@,
        XboxDisplayButton::East => "B"@,
        XboxDisplayButton::North => "Y"@,
        XboxDisplayButton::West => "X"@,
        XboxDisplayButton::LeftBumper => "LB"@,
        XboxDisplayButton::RightBumper => "RB"@,
        XboxDisplayButton::View => "View"@,
        XboxDisplayButton::Menu => "Menu"@,
        XboxDisplayButton::Guide => "Guide"@,
        XboxDisplayButton::LeftStick => "LS"@,
        XboxDisplayButton::RightStick => "RS"@,
    }
}

/// The label the display demo prints for a button.
pub fn xbox_button_label(button: XboxDisplayButton) -> (s: &'static str)
    ensures
        s@ == button_label(button),
{
    match button {
        XboxDisplayButton::South => "A",
        XboxDisplayButton::East => "B",
        XboxDisplayButton::North => "Y",
        XboxDisplayButton::West => "X",
        XboxDisplayButton::LeftBumper => "LB",
        XboxDisplayButton::RightBumper => "RB",
        XboxDisplayButton::View => "View",
        XboxDisplayButton::Menu => "Menu",
        XboxDisplayButton::Guide => "Guide",
        XboxDisplayButton::LeftStick => "LS",
        XboxDisplayButton::RightStick => "RS",
    }
}

/// One retained native value: `(source, event type, code)` and the last value seen.
pub type RawValue = ((SourceId, u16, u16), i32);

pub open spec fn source_key(s: TesterSource) -> Seq<char> {
    s.device.source_id@
}

pub open spec fn source_key_fn() -> spec_fn(TesterSource) -> Seq<char> {
    |s: TesterSource| s.device.source_id@
}

pub open spec fn text_lt() -> spec_fn(Seq<char>, Seq<char>) -> bool {
    |a: Seq<char>, b: Seq<char>| seq_lt(a, b)
}

pub open spec fn value_key(e: RawValue) -> (Seq<char>, u16, u16) {
    ((e.0).0@, (e.0).1, (e.0).2)
}

pub open spec fn value_key_fn() -> spec_fn(RawValue) -> (Seq<char>, u16, u16) {
    |e: RawValue| value_key(e)
}

/// Lexicographic order on (source text, event type, code).
pub open spec fn triple_lt() -> spec_fn((Seq<char>, u16, u16), (Seq<char>, u16, u16)) -> bool {
    |a: (Seq<char>, u16, u16), b: (Seq<char>, u16, u16)|
        seq_lt(a.0, b.0) || (a.0 == b.0 && (a.1 < b.1 || (a.1 == b.1 && a.2 < b.2)))
}

proof fn lemma_text_lt_strict()
    ensures
        is_strict_total(text_lt()),
{
    assert forall|a: Seq<char>, b: Seq<char>| a != b implies #[trigger] (text_lt())(a, b) || #[trigger] (text_lt())(b, a) by {
        lemma_seq_lt_total(a, b);
    }
    assert forall|a: Seq<char>| !#[trigger] (text_lt())(a, a) by {
        lemma_seq_lt_irreflexive(a);
    }
    assert forall|a: Seq<char>, b: Seq<char>, c: Seq<char>| #[trigger] (text_lt())(a, b) && #[trigger] (text_lt())(b, c) implies (text_lt())(a, c) by {
        lemma_seq_lt_transitive(a, b, c);
    }
}

proof fn lemma_triple_lt_strict()
    ensures
        is_strict_total(triple_lt()),
{
    assert forall|a: (Seq<char>, u16, u16), b: (Seq<char>, u16, u16)| a != b implies #[trigger] (triple_lt())(a, b) || #[trigger] (triple_lt())(b, a) by {
        lemma_seq_lt_total(a.0, b.0);
    }
    assert forall|a: (Seq<char>, u16, u16)| !#[trigger] (triple_lt())(a, a) by {
        lemma_seq_lt_irreflexive(a.0);
    }
    assert forall|a: (Seq<char>, u16, u16), b: (Seq<char>, u16, u16), c: (Seq<char>, u16, u16)|
        #[trigger] (triple_lt())(a, b) && #[trigger] (triple_lt())(b, c) implies (triple_lt())(a, c) by {
        if seq_lt(a.0, b.0) && seq_lt(b.0, c.0) {
            lemma_seq_lt_transitive(a.0, b.0, c.0);
        }
    }
}

/// Index of the source with this ID, or -1.
pub open spec fn find_source(s: Seq<TesterSource>, id: Seq<char>) -> int {
    find_key(s, source_key_fn(), id)
}

/// The source with this ID replaced, or inserted in ID order.
pub open spec fn upsert_source(s: Seq<TesterSource>, v: TesterSource) -> Seq<TesterSource> {
    let i = find_source(s, source_key(v));
    if i >= 0 {
        s.update(i, v)
    } else {
        let pos = count_before(s, source_key(v));
        s.insert(pos, v)
    }
}

/// Number of sources whose ID sorts before `id`.
pub open spec fn count_before(s: Seq<TesterSource>, id: Seq<char>) -> int {
    count_lt(s, source_key_fn(), text_lt(), id)
}

/// The sources without the one with this ID.
pub open spec fn remove_source(s: Seq<TesterSource>, id: Seq<char>) -> Seq<TesterSource> {
    let i = find_source(s, id);
    if i >= 0 {
        s.remove(i)
    } else {
        s
    }
}

/// Index of the value with this key, or -1.
pub open spec fn find_value(s: Seq<RawValue>, k: (Seq<char>, u16, u16)) -> int {
    find_key(s, value_key_fn(), k)
}

/// Number of values whose key sorts before `k`.
pub open spec fn values_before(s: Seq<RawValue>, k: (Seq<char>, u16, u16)) -> int {
    count_lt(s, value_key_fn(), triple_lt(), k)
}

/// The value for the entry's key replaced, or inserted in key order.
pub open spec fn upsert_value(s: Seq<RawValue>, e: RawValue) -> Seq<RawValue> {
    let i = find_value(s, value_key(e));
    if i >= 0 {
        s.update(i, e)
    } else {
        s.insert(values_before(s, value_key(e)), e)
    }
}

/// The values after recording every event of a batch, in order.
pub open spec fn record_events(s: Seq<RawValue>, id: SourceId, events: Seq<crate::model::NativeEvent>) -> Seq<RawValue>
    decreases events.len(),
{
    if events.len() == 0 {
        s
    } else {
        let e = events.last();
        upsert_value(record_events(s, id, events.drop_last()), ((id, e.event_type, e.code), e.value))
    }
}

/// The values not belonging to a source.
pub open spec fn drop_values_of(s: Seq<RawValue>, id: Seq<char>) -> Seq<RawValue>
    decreases s.len(),
{
    if s.len() == 0 {
        seq![]
    } else {
        let rest = drop_values_of(s.drop_last(), id);
        if value_key(s.last()).0 == id {
            rest
        } else {
            rest.push(s.last())
        }
    }
}

/// The last value recorded for `(id, event type, code)`, if any.
pub open spec fn value_of(s: Seq<RawValue>, id: Seq<char>, t: u16, c: u16) -> Option<i32> {
    let i = find_value(s, (id, t, c));
    if i >= 0 {
        Some(s[i].1)
    } else {
        None
    }
}

/// `Debug` text of an access outcome.
pub open spec fn access_debug(a: CaptureAccess) -> Seq<char> {
    match a {
        CaptureAccess::Shared => "Shared"@,
        CaptureAccess::Exclusive => "Exclusive"@,
        CaptureAccess::SharedFallback => "SharedFallback"@,
    }
}

/// The log line an event adds.
pub open spec fn event_log_text(event: CaptureEvent) -> Seq<char> {
    match event {
        CaptureEvent::Connected { device, access } => "connected "@ + device.source_id@ + " ("@
            + access_debug(access) + ")"@,
        CaptureEvent::Input(batch) => "frame "@ + decimal(batch.sequence as nat) + " from "@
            + batch.source_id@,
        CaptureEvent::Disconnected { source_id, .. } => "disconnected "@ + source_id@,
        CaptureEvent::SourceError { source_id, error } => "source error "@ + source_id@ + ": "@
            + error_text(error.kind, error.message@),
        CaptureEvent::DiscoveryError(issue) => "discovery error "@ + issue.device_path@ + ": "@
            + error_text(issue.error.kind, issue.error.message@),
    }
}

/// Native values and lifecycle state rendered by the tester.
#[derive(Debug)]
pub struct TesterState {
    sources: Vec<TesterSource>,
    values: Vec<RawValue>,
    frames: Vec<EventBatch>,
    hid: Option<TesterHidEvidence>,
    log: Vec<String>,
    selected_source: Option<SourceId>,
    timing: TesterTiming,
}

pub open spec fn log_texts(log: Seq<String>) -> Seq<Seq<char>> {
    log.map_values(|s: String| s@)
}

impl Default for TesterState {
    fn default() -> (s: Self)
        ensures
            s.wf(),
            s.source_list().len() == 0,
            s.value_list().len() == 0,
            s.frame_list().len() == 0,
            s.log_list().len() == 0,
            s.selected() is None,
            s.hid_evidence() is None,
    {
        let s = TesterState {
            sources: Vec::new(),
            values: Vec::new(),
            frames: Vec::new(),
            hid: None,
            log: Vec::new(),
            selected_source: None,
            timing: TesterTiming::default(),
        };
        assert(s.log_list() =~= Seq::<Seq<char>>::empty());
        s
    }
}

impl TesterState {
    pub closed spec fn source_list(&self) -> Seq<TesterSource> {
        self.sources@
    }

    pub closed spec fn value_list(&self) -> Seq<RawValue> {
        self.values@
    }

    pub closed spec fn frame_list(&self) -> Seq<EventBatch> {
        self.frames@
    }

    pub closed spec fn log_list(&self) -> Seq<Seq<char>> {
        log_texts(self.log@)
    }

    pub closed spec fn selected(&self) -> Option<SourceId> {
        self.selected_source
    }

    pub closed spec fn hid_evidence(&self) -> Option<TesterHidEvidence> {
        self.hid
    }

    pub closed spec fn timing_state(&self) -> TesterTiming {
        self.timing
    }

    /// The state's invariant: sources and values strictly ordered by key,
    /// bounded frames and log, a selection that names a connected source.
    pub open spec fn wf(&self) -> bool {
        &&& strictly_sorted_by(self.source_list(), source_key_fn(), text_lt())
        &&& strictly_sorted_by(self.value_list(), value_key_fn(), triple_lt())
        &&& self.frame_list().len() <= MAX_RETAINED_FRAMES
        &&& self.log_list().len() <= MAX_RETAINED_LOG_ENTRIES
        &&& self.timing_state().wf()
        &&& (self.selected() matches Some(id) ==> find_source(self.source_list(), id@) >= 0)
    }

    /// Connected sources, ordered by source ID.
    pub fn sources(&self) -> (r: &[TesterSource])
        ensures
            r@ == self.source_list(),
    {
        self.sources.as_slice()
    }

    /// The connected source with this ID.
    pub fn source(&self, id: &SourceId) -> (r: Option<&TesterSource>)
        ensures
            match r {
                Some(s) => find_source(self.source_list(), id@) >= 0 && *s == self.source_list()[find_source(self.source_list(), id@)],
                None => find_source(self.source_list(), id@) < 0,
            },
    {
        match source_index(&self.sources, id) {
            Some(i) => Some(&self.sources[i]),
            None => None,
        }
    }

    /// Last native values, ordered by (source, event type, code).
    pub fn values(&self) -> (r: &[RawValue])
        ensures
            r@ == self.value_list(),
    {
        self.values.as_slice()
    }

    /// The last value seen for `(source, event type, code)`.
    pub fn value(&self, id: &SourceId, event_type: u16, code: u16) -> (r: Option<i32>)
        ensures
            r == value_of(self.value_list(), id@, event_type, code),
    {
        match value_index(&self.values, id, event_type, code) {
            Some(i) => {
                proof {
                    lemma_find_key(self.values@, value_key_fn(), (id@, event_type, code));
                }
                Some(self.values[i].1)
            },
            None => None,
        }
    }

    /// Complete native frames in the order the tester observed them.
    pub fn frames(&self) -> (r: &[EventBatch])
        ensures
            r@ == self.frame_list(),
    {
        self.frames.as_slice()
    }

    pub fn log(&self) -> (r: &[String])
        ensures
            log_texts(r@) == self.log_list(),
    {
        self.log.as_slice()
    }

    /// Display-only timing evidence for the native tester pipeline.
    pub fn timing(&self) -> (r: &TesterTiming)
        ensures
            *r == self.timing_state(),
    {
        &self.timing
    }

    /// Mutable display-only timing evidence for the native tester pipeline.
    pub fn timing_mut(&mut self) -> (r: &mut TesterTiming)
        ensures
            *r == old(self).timing_state(),
            final(self).timing_state() == *final(r),
            final(self).source_list() == old(self).source_list(),
            final(self).value_list() == old(self).value_list(),
            final(self).frame_list() == old(self).frame_list(),
            final(self).log_list() == old(self).log_list(),
            final(self).selected() == old(self).selected(),
            final(self).hid_evidence() == old(self).hid_evidence(),
    {
        &mut self.timing
    }

    #[must_use]
    pub fn selected_source(&self) -> (r: Option<&SourceId>)
        ensures
            match self.selected() {
                Some(id) => r == Some(&id),
                None => r is None,
            },
    {
        match &self.selected_source {
            Some(id) => Some(id),
            None => None,
        }
    }

    pub fn hid(&self) -> (r: Option<&TesterHidEvidence>)
        ensures
            match self.hid_evidence() {
                Some(h) => r == Some(&h),
                None => r is None,
            },
    {
        match &self.hid {
            Some(h) => Some(h),
            None => None,
        }
    }

}

/// The profile text of the SDL joystick fallback the tester offers every source.
pub open spec fn tester_fallback_id() -> Seq<char> {
    "sdl-joystick"@
}

/// The first connected source's ID, if any.
pub open spec fn first_source_id(s: Seq<TesterSource>) -> Option<SourceId> {
    if s.len() > 0 {
        Some(s[0].device.source_id)
    } else {
        None
    }
}

/// The selection after a source disconnects: moved to the first remaining
/// source when it named the disconnected one.
pub open spec fn selection_after_removal(
    selected: Option<SourceId>,
    removed: Seq<char>,
    remaining: Seq<TesterSource>,
) -> Option<SourceId> {
    match selected {
        Some(sel) => if sel@ == removed {
            first_source_id(remaining)
        } else {
            Some(sel)
        },
        None => None,
    }
}

proof fn lemma_log_texts_push(l: Seq<String>, e: String, cap: nat)
    requires
        cap > 0,
        l.len() <= cap,
    ensures
        log_texts(bounded_push(l, e, cap)) == bounded_push(log_texts(l), e@, cap),
        bounded_push(l, e, cap).len() <= cap,
{
    if l.len() >= cap {
        assert(log_texts(l.drop_first().push(e)) =~= log_texts(l).drop_first().push(e@));
    } else {
        assert(log_texts(l.push(e)) =~= log_texts(l).push(e@));
    }
}

/// Append `x`, first dropping the oldest element when `cap` are held.
fn push_bounded<T>(v: &mut Vec<T>, x: T, cap: usize)
    requires
        cap > 0,
        old(v)@.len() <= cap,
    ensures
        final(v)@ == bounded_push(old(v)@, x, cap as nat),
        final(v)@.len() <= cap,
{
    if v.len() == cap {
        v.remove(0);
        assert(v@ =~= old(v)@.drop_first());
    }
    v.push(x);
}

fn push_access_debug(s: &mut String, a: CaptureAccess)
    ensures
        final(s)@ == old(s)@ + access_debug(a),
{
    match a {
        CaptureAccess::Shared => push_str(s, "Shared"),
        CaptureAccess::Exclusive => push_str(s, "Exclusive"),
        CaptureAccess::SharedFallback => push_str(s, "SharedFallback"),
    }
}

/// The log line the tester records for an event.
fn event_log_line(event: &CaptureEvent) -> (s: String)
    ensures
        s@ == event_log_text(*event),
{
    let mut s = String::new();
    match event {
        CaptureEvent::Connected { device, access } => {
            push_str(&mut s, "connected ");
            push_str(&mut s, device.source_id.as_str());
            push_str(&mut s, " (");
            push_access_debug(&mut s, *access);
            push_str(&mut s, ")");
        },
        CaptureEvent::Input(batch) => {
            push_str(&mut s, "frame ");
            push_decimal(&mut s, batch.sequence as u128);
            push_str(&mut s, " from ");
            push_str(&mut s, batch.source_id.as_str());
        },
        CaptureEvent::Disconnected { source_id, .. } => {
            push_str(&mut s, "disconnected ");
            push_str(&mut s, source_id.as_str());
        },
        CaptureEvent::SourceError { source_id, error } => {
            push_str(&mut s, "source error ");
            push_str(&mut s, source_id.as_str());
            push_str(&mut s, ": ");
            let text = error.display_text();
            push_str(&mut s, text.as_str());
        },
        CaptureEvent::DiscoveryError(issue) => {
            push_str(&mut s, "discovery error ");
            push_str(&mut s, issue.device_path.as_str());
            push_str(&mut s, ": ");
            let text = issue.error.display_text();
            push_str(&mut s, text.as_str());
        },
    }
    assert(s@ =~= event_log_text(*event));
    s
}

fn source_index(v: &Vec<TesterSource>, id: &SourceId) -> (r: Option<usize>)
    ensures
        match r {
            Some(i) => i == find_source(v@, id@) && i < v@.len(),
            None => find_source(v@, id@) < 0,
        },
{
    let ghost s = v@;
    let mut i = v.len();
    assert(s.subrange(0, s.len() as int) =~= s);
    while i > 0
        invariant
            i <= s.len(),
            s == v@,
            find_source(s, id@) == find_source(s.subrange(0, i as int), id@),
        decreases i,
    {
        let ghost pre = s.subrange(0, i as int);
        assert(pre.drop_last() =~= s.subrange(0, i - 1));
        if v[i - 1].device.source_id.same(id) {
            return Some(i - 1);
        }
        i = i - 1;
    }
    proof {
        lemma_find_key(s.subrange(0, 0), source_key_fn(), id@);
    }
    None
}

fn count_sources_before(v: &Vec<TesterSource>, id: &SourceId) -> (r: usize)
    ensures
        r == count_before(v@, id@),
{
    let ghost s = v@;
    let mut i: usize = 0;
    let mut n: usize = 0;
    while i < v.len()
        invariant
            i <= s.len(),
            s == v@,
            n <= i,
            n == count_lt(s.subrange(0, i as int), source_key_fn(), text_lt(), id@),
        decreases s.len() - i,
    {
        assert(s.subrange(0, i + 1).drop_last() =~= s.subrange(0, i as int));
        if v[i].device.source_id.precedes(id) {
            n = n + 1;
        }
        i = i + 1;
    }
    assert(s.subrange(0, s.len() as int) =~= s);
    n
}

/// Replace the source with the same ID, or insert it in ID order.
fn upsert_source_in(v: &mut Vec<TesterSource>, src: TesterSource)
    requires
        strictly_sorted_by(old(v)@, source_key_fn(), text_lt()),
    ensures
        final(v)@ == upsert_source(old(v)@, src),
        strictly_sorted_by(final(v)@, source_key_fn(), text_lt()),
{
    let ghost s = v@;
    let ghost id = src.device.source_id@;
    proof {
        lemma_text_lt_strict();
        lemma_find_key(s, source_key_fn(), id);
    }
    match source_index(v, &src.device.source_id) {
        Some(i) => {
            proof {
                lemma_strict_update(s, src, source_key_fn(), text_lt(), i as int);
            }
            v[i] = src;
        },
        None => {
            let pos = count_sources_before(v, &src.device.source_id);
            proof {
                lemma_count_lt_sorted(s, source_key_fn(), text_lt(), id);
                lemma_strict_insert(s, src, source_key_fn(), text_lt(), pos as int);
            }
            v.insert(pos, src);
        },
    }
}

/// Remove the source with this ID, if present.
fn remove_source_in(v: &mut Vec<TesterSource>, id: &SourceId)
    requires
        strictly_sorted_by(old(v)@, source_key_fn(), text_lt()),
    ensures
        final(v)@ == remove_source(old(v)@, id@),
        strictly_sorted_by(final(v)@, source_key_fn(), text_lt()),
{
    let ghost s = v@;
    match source_index(v, id) {
        Some(i) => {
            proof {
                lemma_strict_remove(s, source_key_fn(), text_lt(), i as int);
            }
            v.remove(i);
        },
        None => {},
    }
}

fn value_index(v: &Vec<RawValue>, id: &SourceId, event_type: u16, code: u16) -> (r: Option<usize>)
    ensures
        match r {
            Some(i) => i == find_value(v@, (id@, event_type, code)) && i < v@.len(),
            None => find_value(v@, (id@, event_type, code)) < 0,
        },
{
    let ghost s = v@;
    let ghost k = (id@, event_type, code);
    let mut i = v.len();
    assert(s.subrange(0, s.len() as int) =~= s);
    while i > 0
        invariant
            i <= s.len(),
            s == v@,
            k == (id@, event_type, code),
            find_value(s, k) == find_value(s.subrange(0, i as int), k),
        decreases i,
    {
        let ghost pre = s.subrange(0, i as int);
        assert(pre.drop_last() =~= s.subrange(0, i - 1));
        let entry = &v[i - 1];
        if (entry.0).1 == event_type && (entry.0).2 == code && (entry.0).0.same(id) {
            return Some(i - 1);
        }
        i = i - 1;
    }
    proof {
        lemma_find_key(s.subrange(0, 0), value_key_fn(), k);
    }
    None
}

fn value_precedes(entry: &RawValue, id: &SourceId, event_type: u16, code: u16) -> (r: bool)
    ensures
        r == (triple_lt())(value_key(*entry), (id@, event_type, code)),
{
    let key = &entry.0;
    if key.0.precedes(id) {
        true
    } else if key.0.same(id) {
        key.1 < event_type || (key.1 == event_type && key.2 < code)
    } else {
        false
    }
}

fn count_values_before(v: &Vec<RawValue>, id: &SourceId, event_type: u16, code: u16) -> (r: usize)
    ensures
        r == values_before(v@, (id@, event_type, code)),
{
    let ghost s = v@;
    let ghost k = (id@, event_type, code);
    let mut i: usize = 0;
    let mut n: usize = 0;
    while i < v.len()
        invariant
            i <= s.len(),
            s == v@,
            k == (id@, event_type, code),
            n <= i,
            n == count_lt(s.subrange(0, i as int), value_key_fn(), triple_lt(), k),
        decreases s.len() - i,
    {
        assert(s.subrange(0, i + 1).drop_last() =~= s.subrange(0, i as int));
        if value_precedes(&v[i], id, event_type, code) {
            n = n + 1;
        }
        i = i + 1;
    }
    assert(s.subrange(0, s.len() as int) =~= s);
    n
}

/// Record the last value seen for `(id, event type, code)`.
fn upsert_value_in(v: &mut Vec<RawValue>, id: &SourceId, event_type: u16, code: u16, value: i32)
    requires
        strictly_sorted_by(old(v)@, value_key_fn(), triple_lt()),
    ensures
        final(v)@ == upsert_value(old(v)@, ((*id, event_type, code), value)),
        strictly_sorted_by(final(v)@, value_key_fn(), triple_lt()),
{
    let ghost s = v@;
    let ghost k = (id@, event_type, code);
    proof {
        lemma_triple_lt_strict();
        lemma_find_key(s, value_key_fn(), k);
    }
    let entry: RawValue = ((id.clone(), event_type, code), value);
    assert(value_key(entry) == k);
    match value_index(v, id, event_type, code) {
        Some(i) => {
            proof {
                lemma_strict_update(s, entry, value_key_fn(), triple_lt(), i as int);
            }
            v[i] = entry;
        },
        None => {
            let pos = count_values_before(v, id, event_type, code);
            proof {
                lemma_count_lt_sorted(s, value_key_fn(), triple_lt(), k);
                lemma_strict_insert(s, entry, value_key_fn(), triple_lt(), pos as int);
            }
            v.insert(pos, entry);
        },
    }
}

/// Record every event of a batch as the last value of its code.
fn record_batch_in(v: &mut Vec<RawValue>, batch: &EventBatch)
    requires
        strictly_sorted_by(old(v)@, value_key_fn(), triple_lt()),
    ensures
        final(v)@ == record_events(old(v)@, batch.source_id, batch.events@),
        strictly_sorted_by(final(v)@, value_key_fn(), triple_lt()),
{
    let ghost s0 = v@;
    let ghost events = batch.events@;
    let mut i: usize = 0;
    assert(events.subrange(0, 0) =~= Seq::<crate::model::NativeEvent>::empty());
    while i < batch.events.len()
        invariant
            i <= events.len(),
            events == batch.events@,
            v@ == record_events(s0, batch.source_id, events.subrange(0, i as int)),
            strictly_sorted_by(v@, value_key_fn(), triple_lt()),
        decreases events.len() - i,
    {
        assert(events.subrange(0, i + 1).drop_last() =~= events.subrange(0, i as int));
        let e = batch.events[i];
        upsert_value_in(v, &batch.source_id, e.event_type, e.code, e.value);
        i = i + 1;
    }
    assert(events.subrange(0, events.len() as int) =~= events);
}

/// Drop every value recorded for a source, keeping the others in order.
fn drop_values_in(v: &mut Vec<RawValue>, id: &SourceId)
    requires
        strictly_sorted_by(old(v)@, value_key_fn(), triple_lt()),
    ensures
        final(v)@ == drop_values_of(old(v)@, id@),
        strictly_sorted_by(final(v)@, value_key_fn(), triple_lt()),
{
    let ghost s = v@;
    let mut out: Vec<RawValue> = Vec::new();
    let mut i: usize = 0;
    while i < v.len()
        invariant
            i <= s.len(),
            s == v@,
            out@ == drop_values_of(s.subrange(0, i as int), id@),
            strictly_sorted_by(s, value_key_fn(), triple_lt()),
            strictly_sorted_by(out@, value_key_fn(), triple_lt()),
            forall|k: int, j: int|
                0 <= k < out@.len() && i <= j < s.len() ==> (triple_lt())(
                    value_key(#[trigger] out@[k]),
                    value_key(#[trigger] s[j]),
                ),
        decreases s.len() - i,
    {
        assert(s.subrange(0, i + 1).drop_last() =~= s.subrange(0, i as int));
        let entry = &v[i];
        if !(entry.0).0.same(id) {
            let e: RawValue = (((entry.0).0.clone(), (entry.0).1, (entry.0).2), entry.1);
            assert(e == s[i as int]);
            proof {
                assert forall|k: int| 0 <= k < out@.len() implies (triple_lt())(
                    value_key(#[trigger] out@[k]),
                    value_key(e),
                ) by {
                    assert((triple_lt())(value_key(out@[k]), value_key(s[i as int])));
                }
                lemma_strict_push(out@, e, value_key_fn(), triple_lt());
            }
            let ghost prev = out@;
            out.push(e);
            proof {
                assert forall|k: int, j: int|
                    0 <= k < out@.len() && i + 1 <= j < s.len() implies (triple_lt())(
                        value_key(#[trigger] out@[k]),
                        value_key(#[trigger] s[j]),
                    ) by {
                    if k < prev.len() {
                        assert(out@[k] == prev[k]);
                    } else {
                        assert(out@[k] == s[i as int]);
                    }
                }
            }
        }
        i = i + 1;
    }
    assert(s.subrange(0, s.len() as int) =~= s);
    *v = out;
}

proof fn lemma_upsert_keeps_sources(s: Seq<TesterSource>, v: TesterSource, id: Seq<char>)
    requires
        strictly_sorted_by(s, source_key_fn(), text_lt()),
        find_source(s, id) >= 0 || id == source_key(v),
    ensures
        find_source(upsert_source(s, v), id) >= 0,
{
    let t = upsert_source(s, v);
    lemma_text_lt_strict();
    lemma_find_key(s, source_key_fn(), id);
    lemma_find_key(s, source_key_fn(), source_key(v));
    lemma_find_key(t, source_key_fn(), id);
    let i = find_source(s, source_key(v));
    if i < 0 {
        lemma_count_lt_sorted(s, source_key_fn(), text_lt(), source_key(v));
    }
    let pos = count_before(s, source_key(v));
    if id == source_key(v) {
        if i >= 0 {
            assert(source_key(t[i]) == id);
        } else {
            assert(source_key(t[pos]) == id);
        }
    } else {
        let p = find_source(s, id);
        if i >= 0 {
            assert(source_key(t[p]) == id);
        } else if p < pos {
            assert(t[p] == s[p]);
        } else {
            assert(t[p + 1] == s[p]);
        }
    }
}

/// After an upsert, looking up the inserted ID finds the inserted source.
proof fn lemma_upserted_found(s: Seq<TesterSource>, v: TesterSource)
    requires
        strictly_sorted_by(s, source_key_fn(), text_lt()),
    ensures
        find_source(upsert_source(s, v), source_key(v)) >= 0,
        upsert_source(s, v)[find_source(upsert_source(s, v), source_key(v))] == v,
{
    let t = upsert_source(s, v);
    let id = source_key(v);
    lemma_text_lt_strict();
    lemma_find_key(s, source_key_fn(), id);
    let i = find_source(s, id);
    if i < 0 {
        lemma_count_lt_sorted(s, source_key_fn(), text_lt(), id);
        lemma_strict_insert(s, v, source_key_fn(), text_lt(), count_before(s, id));
    } else {
        lemma_strict_update(s, v, source_key_fn(), text_lt(), i);
    }
    let p = if i >= 0 { i } else { count_before(s, id) };
    assert(t[p] == v);
    lemma_find_key(t, source_key_fn(), id);
    let j = find_source(t, id);
    if j != p {
        if j < p {
            assert((text_lt())(source_key(t[j]), source_key(t[p])));
        } else {
            assert((text_lt())(source_key(t[p]), source_key(t[j])));
        }
        assert((text_lt())(id, id));
    }
}

proof fn lemma_remove_keeps_sources(s: Seq<TesterSource>, removed: Seq<char>, id: Seq<char>)
    requires
        find_source(s, id) >= 0,
        id != removed,
    ensures
        find_source(remove_source(s, removed), id) >= 0,
{
    let t = remove_source(s, removed);
    lemma_find_key(s, source_key_fn(), id);
    lemma_find_key(s, source_key_fn(), removed);
    lemma_find_key(t, source_key_fn(), id);
    let i = find_source(s, removed);
    let p = find_source(s, id);
    if i >= 0 {
        if p < i {
            assert(t[p] == s[p]);
        } else {
            assert(p != i);
            assert(t[p - 1] == s[p]);
        }
    }
}

proof fn lemma_first_source_found(s: Seq<TesterSource>)
    requires
        s.len() > 0,
    ensures
        find_source(s, s[0].device.source_id@) >= 0,
{
    lemma_find_key(s, source_key_fn(), s[0].device.source_id@);
    assert(source_key(s[0]) == s[0].device.source_id@);
}

impl TesterState {
    /// Incorporate one capture event without changing its native interpretation.
    ///
    /// A connection records the source with the SDL joystick fallback as its
    /// automatic profile and selects it when nothing is selected; a frame
    /// records each native value as the last one seen for its code and keeps
    /// the frame; a disconnection forgets the source and its values and moves
    /// a selection that named it to the first remaining source. Every event
    /// adds one log line.
    pub fn apply(&mut self, event: CaptureEvent)
        requires
            old(self).wf(),
        ensures
            final(self).wf(),
            final(self).log_list() == bounded_push(
                old(self).log_list(),
                event_log_text(event),
                MAX_RETAINED_LOG_ENTRIES as nat,
            ),
            final(self).hid_evidence() == old(self).hid_evidence(),
            final(self).timing_state() == old(self).timing_state(),
            match event {
                CaptureEvent::Connected { device, access } => {
                    let list = final(self).source_list();
                    let i = find_source(list, device.source_id@);
                    &&& 0 <= i
                    &&& list[i].device == device
                    &&& list[i].access == access
                    &&& list[i].profile is Auto
                    &&& candidates_view(automatic_of(list[i].profile).candidates@) == seq![
                        fallback_candidate(tester_fallback_id()),
                    ]
                    &&& automatic_of(list[i].profile).selected@ == fallback_candidate(
                        tester_fallback_id(),
                    )
                    &&& list == upsert_source(old(self).source_list(), list[i])
                    &&& final(self).value_list() == old(self).value_list()
                    &&& final(self).frame_list() == old(self).frame_list()
                    &&& final(self).selected() == if old(self).selected() is None {
                        Some(device.source_id)
                    } else {
                        old(self).selected()
                    }
                },
                CaptureEvent::Input(batch) => {
                    &&& final(self).source_list() == old(self).source_list()
                    &&& final(self).value_list() == record_events(
                        old(self).value_list(),
                        batch.source_id,
                        batch.events@,
                    )
                    &&& final(self).frame_list() == bounded_push(
                        old(self).frame_list(),
                        batch,
                        MAX_RETAINED_FRAMES as nat,
                    )
                    &&& final(self).selected() == old(self).selected()
                },
                CaptureEvent::Disconnected { source_id, .. } => {
                    &&& final(self).source_list() == remove_source(
                        old(self).source_list(),
                        source_id@,
                    )
                    &&& final(self).value_list() == drop_values_of(
                        old(self).value_list(),
                        source_id@,
                    )
                    &&& final(self).frame_list() == old(self).frame_list()
                    &&& final(self).selected() == selection_after_removal(
                        old(self).selected(),
                        source_id@,
                        final(self).source_list(),
                    )
                },
                _ => {
                    &&& final(self).source_list() == old(self).source_list()
                    &&& final(self).value_list() == old(self).value_list()
                    &&& final(self).frame_list() == old(self).frame_list()
                    &&& final(self).selected() == old(self).selected()
                },
            },
    {
        let line = event_log_line(&event);
        proof {
            lemma_log_texts_push(self.log@, line, MAX_RETAINED_LOG_ENTRIES as nat);
        }
        push_bounded(&mut self.log, line, MAX_RETAINED_LOG_ENTRIES);
        match event {
            CaptureEvent::Connected { device, access } => {
                let source_id = device.source_id.clone();
                let detector = AutoProfileDetector::new(Vec::new(), ProfileId::new("sdl-joystick"));
                let profile = detector.detect(&device);
                proof {
                    let empty = Seq::<crate::profile::CaptureProfile>::empty();
                    let none = Seq::<(int, crate::profile::CandidateModel)>::empty();
                    assert(matched_ranked(empty, device) == none);
                    assert(sort_by(none, ranked_le()) == none);
                    assert(unranked(none) =~= Seq::<crate::profile::CandidateModel>::empty());
                    assert(candidates_view(profile.candidates@) =~= seq![
                        fallback_candidate(tester_fallback_id()),
                    ]);
                }
                let src = TesterSource { device, access, profile: ProfileSelectionMode::Auto(profile) };
                let ghost before = self.sources@;
                proof {
                    lemma_upsert_keeps_sources(before, src, source_id@);
                    if self.selected_source is Some {
                        lemma_upsert_keeps_sources(before, src, self.selected_source->0@);
                    }
                }
                upsert_source_in(&mut self.sources, src);
                proof {
                    lemma_upserted_found(before, src);
                }
                if self.selected_source.is_none() {
                    self.selected_source = Some(source_id);
                }
            },
            CaptureEvent::Input(batch) => {
                record_batch_in(&mut self.values, &batch);
                push_bounded(&mut self.frames, batch, MAX_RETAINED_FRAMES);
            },
            CaptureEvent::Disconnected { source_id, .. } => {
                let ghost before = self.sources@;
                remove_source_in(&mut self.sources, &source_id);
                drop_values_in(&mut self.values, &source_id);
                let reselect = match &self.selected_source {
                    Some(sel) => sel.same(&source_id),
                    None => false,
                };
                if reselect {
                    if self.sources.len() > 0 {
                        proof {
                            lemma_first_source_found(self.sources@);
                        }
                        self.selected_source = Some(self.sources[0].device.source_id.clone());
                    } else {
                        self.selected_source = None;
                    }
                } else {
                    proof {
                        if self.selected_source is Some {
                            lemma_remove_keeps_sources(before, source_id@, self.selected_source->0@);
                        }
                    }
                }
            },
            _ => {},
        }
    }
}

/// The recorded value for `(id, event type, code)`, or `fallback`.
pub open spec fn value_or(values: Seq<RawValue>, id: Seq<char>, t: u16, code: u16, fallback: i32) -> i32 {
    match value_of(values, id, t, code) {
        Some(v) => v,
        None => fallback,
    }
}

/// Key controls of a device in order, each with its last value (0 when none was seen).
pub open spec fn key_views(controls: Seq<ControlDescriptor>, values: Seq<RawValue>, id: Seq<char>) -> Seq<
    VisualKey,
>
    decreases controls.len(),
{
    if controls.len() == 0 {
        seq![]
    } else {
        let rest = key_views(controls.drop_last(), values, id);
        match controls.last() {
            ControlDescriptor::Key { code, name } => rest.push(
                VisualKey { code, name, value: value_or(values, id, 1, code, 0) },
            ),
            _ => rest,
        }
    }
}

/// Absolute-axis controls of a device in order, each with its last value
/// (the axis' reported current value when none was seen).
pub open spec fn axis_views(controls: Seq<ControlDescriptor>, values: Seq<RawValue>, id: Seq<char>) -> Seq<
    VisualAxis,
>
    decreases controls.len(),
{
    if controls.len() == 0 {
        seq![]
    } else {
        let rest = axis_views(controls.drop_last(), values, id);
        match controls.last() {
            ControlDescriptor::AbsoluteAxis { code, name, info } => rest.push(
                VisualAxis { code, name, info, value: value_or(values, id, 3, code, info.current) },
            ),
            _ => rest,
        }
    }
}

/// Value of the first key with this code.
pub open spec fn first_key_value(keys: Seq<VisualKey>, code: u16) -> Option<i32>
    decreases keys.len(),
{
    if keys.len() == 0 {
        None
    } else if keys[0].code == code {
        Some(keys[0].value)
    } else {
        first_key_value(keys.drop_first(), code)
    }
}

/// Value of the first axis with this code.
pub open spec fn first_axis_value(axes: Seq<VisualAxis>, code: u16) -> Option<i32>
    decreases axes.len(),
{
    if axes.len() == 0 {
        None
    } else if axes[0].code == code {
        Some(axes[0].value)
    } else {
        first_axis_value(axes.drop_first(), code)
    }
}

/// Number of frames from a source.
pub open spec fn frames_from(frames: Seq<EventBatch>, id: Seq<char>) -> nat
    decreases frames.len(),
{
    if frames.len() == 0 {
        0
    } else {
        frames_from(frames.drop_last(), id) + if frames.last().source_id@ == id { 1nat } else { 0 }
    }
}

pub open spec fn or_zero(v: Option<i32>) -> i32 {
    match v {
        Some(x) => x,
        None => 0,
    }
}

/// The controls the Xbox display demo needs: A, B, X, Y keys and both sticks and the hat.
pub open spec fn xbox_shape(keys: Seq<VisualKey>, axes: Seq<VisualAxis>) -> bool {
    &&& first_key_value(keys, 304) is Some
    &&& first_key_value(keys, 305) is Some
    &&& first_key_value(keys, 307) is Some
    &&& first_key_value(keys, 308) is Some
    &&& first_axis_value(axes, 0) is Some
    &&& first_axis_value(axes, 1) is Some
    &&& first_axis_value(axes, 3) is Some
    &&& first_axis_value(axes, 4) is Some
    &&& first_axis_value(axes, 0x10) is Some
    &&& first_axis_value(axes, 0x11) is Some
}

/// The demo's buttons with the Linux key each reads (0 when not advertised).
pub open spec fn xbox_buttons(keys: Seq<VisualKey>) -> Seq<(XboxDisplayButton, i32)> {
    seq![
        (XboxDisplayButton::South, or_zero(first_key_value(keys, 304))),
        (XboxDisplayButton::East, or_zero(first_key_value(keys, 305))),
        (XboxDisplayButton::North, or_zero(first_key_value(keys, 307))),
        (XboxDisplayButton::West, or_zero(first_key_value(keys, 308))),
        (XboxDisplayButton::LeftBumper, or_zero(first_key_value(keys, 310))),
        (XboxDisplayButton::RightBumper, or_zero(first_key_value(keys, 311))),
        (XboxDisplayButton::View, or_zero(first_key_value(keys, 314))),
        (XboxDisplayButton::Menu, or_zero(first_key_value(keys, 315))),
        (XboxDisplayButton::Guide, or_zero(first_key_value(keys, 316))),
        (XboxDisplayButton::LeftStick, or_zero(first_key_value(keys, 317))),
        (XboxDisplayButton::RightStick, or_zero(first_key_value(keys, 318))),
    ]
}

/// Diagnostics for the reports a descriptor cannot frame, in report order.
pub open spec fn report_diagnostics(ls: Seq<LayoutModel>, reports: Seq<HidReportFrame>) -> Seq<Seq<char>>
    decreases reports.len(),
{
    if reports.len() == 0 {
        seq![]
    } else {
        let rest = report_diagnostics(ls, reports.drop_last());
        match frame_spec(ls, reports.last().report_type, reports.last().bytes@) {
            Err(e) => rest.push(report_error_text(e)),
            Ok(_) => rest,
        }
    }
}

/// Report frames by type and bytes.
pub open spec fn frames_model(reports: Seq<HidReportFrame>) -> Seq<(HidReportType, Seq<u8>)> {
    reports.map_values(|r: HidReportFrame| (r.report_type, r.bytes@))
}

fn first_key(keys: &Vec<VisualKey>, code: u16) -> (r: Option<i32>)
    ensures
        r == first_key_value(keys@, code),
{
    let ghost s = keys@;
    let mut i: usize = 0;
    assert(s.subrange(0, s.len() as int) =~= s);
    while i < keys.len()
        invariant
            i <= s.len(),
            s == keys@,
            first_key_value(s, code) == first_key_value(s.subrange(i as int, s.len() as int), code),
        decreases s.len() - i,
    {
        let ghost rest = s.subrange(i as int, s.len() as int);
        assert(rest.drop_first() =~= s.subrange(i + 1, s.len() as int));
        assert(rest[0] == s[i as int]);
        if keys[i].code == code {
            return Some(keys[i].value);
        }
        i = i + 1;
    }
    None
}

fn first_axis(axes: &Vec<VisualAxis>, code: u16) -> (r: Option<i32>)
    ensures
        r == first_axis_value(axes@, code),
{
    let ghost s = axes@;
    let mut i: usize = 0;
    assert(s.subrange(0, s.len() as int) =~= s);
    while i < axes.len()
        invariant
            i <= s.len(),
            s == axes@,
            first_axis_value(s, code) == first_axis_value(s.subrange(i as int, s.len() as int), code),
        decreases s.len() - i,
    {
        let ghost rest = s.subrange(i as int, s.len() as int);
        assert(rest.drop_first() =~= s.subrange(i + 1, s.len() as int));
        assert(rest[0] == s[i as int]);
        if axes[i].code == code {
            return Some(axes[i].value);
        }
        i = i + 1;
    }
    None
}

fn count_frames(frames: &Vec<EventBatch>, id: &SourceId) -> (r: usize)
    ensures
        r == frames_from(frames@, id@),
{
    let ghost s = frames@;
    let mut i: usize = 0;
    let mut n: usize = 0;
    while i < frames.len()
        invariant
            i <= s.len(),
            s == frames@,
            n <= i,
            n == frames_from(s.subrange(0, i as int), id@),
        decreases s.len() - i,
    {
        assert(s.subrange(0, i + 1).drop_last() =~= s.subrange(0, i as int));
        if frames[i].source_id.same(id) {
            n = n + 1;
        }
        i = i + 1;
    }
    assert(s.subrange(0, s.len() as int) =~= s);
    n
}

fn value_or_default(values: &Vec<RawValue>, id: &SourceId, t: u16, code: u16, fallback: i32) -> (r: i32)
    ensures
        r == value_or(values@, id@, t, code, fallback),
{
    match value_index(values, id, t, code) {
        Some(j) => {
            proof {
                lemma_find_key(values@, value_key_fn(), (id@, t, code));
            }
            values[j].1
        },
        None => fallback,
    }
}

fn collect_keys(controls: &Vec<ControlDescriptor>, values: &Vec<RawValue>, id: &SourceId) -> (r: Vec<VisualKey>)
    ensures
        r@ == key_views(controls@, values@, id@),
{
    let ghost s = controls@;
    let mut out: Vec<VisualKey> = Vec::new();
    let mut i: usize = 0;
    while i < controls.len()
        invariant
            i <= s.len(),
            s == controls@,
            out@ == key_views(s.subrange(0, i as int), values@, id@),
        decreases s.len() - i,
    {
        assert(s.subrange(0, i + 1).drop_last() =~= s.subrange(0, i as int));
        match &controls[i] {
            ControlDescriptor::Key { code, name } => {
                let value = value_or_default(values, id, 1, *code, 0);
                out.push(VisualKey { code: *code, name: name.clone(), value });
            },
            _ => {},
        }
        i = i + 1;
    }
    assert(s.subrange(0, s.len() as int) =~= s);
    out
}

fn collect_axes(controls: &Vec<ControlDescriptor>, values: &Vec<RawValue>, id: &SourceId) -> (r: Vec<VisualAxis>)
    ensures
        r@ == axis_views(controls@, values@, id@),
{
    let ghost s = controls@;
    let mut out: Vec<VisualAxis> = Vec::new();
    let mut i: usize = 0;
    while i < controls.len()
        invariant
            i <= s.len(),
            s == controls@,
            out@ == axis_views(s.subrange(0, i as int), values@, id@),
        decreases s.len() - i,
    {
        assert(s.subrange(0, i + 1).drop_last() =~= s.subrange(0, i as int));
        match &controls[i] {
            ControlDescriptor::AbsoluteAxis { code, name, info } => {
                let value = value_or_default(values, id, 3, *code, info.current);
                out.push(VisualAxis { code: *code, name: name.clone(), info: *info, value });
            },
            _ => {},
        }
        i = i + 1;
    }
    assert(s.subrange(0, s.len() as int) =~= s);
    out
}

fn report_diagnostics_of(descriptor: &HidDescriptor, reports: &Vec<HidReportFrame>) -> (r: Vec<String>)
    ensures
        log_texts(r@) == report_diagnostics(layouts_view(descriptor.layouts@), reports@),
{
    let ghost s = reports@;
    let ghost ls = layouts_view(descriptor.layouts@);
    let mut out: Vec<String> = Vec::new();
    let mut i: usize = 0;
    while i < reports.len()
        invariant
            i <= s.len(),
            s == reports@,
            ls == layouts_view(descriptor.layouts@),
            log_texts(out@) == report_diagnostics(ls, s.subrange(0, i as int)),
        decreases s.len() - i,
    {
        assert(s.subrange(0, i + 1).drop_last() =~= s.subrange(0, i as int));
        match frame_report(descriptor, &reports[i]) {
            Err(e) => {
                let text = e.display_text();
                let ghost prev = out@;
                out.push(text);
                assert(log_texts(out@) =~= log_texts(prev).push(text@));
            },
            Ok(_) => {},
        }
        i = i + 1;
    }
    assert(s.subrange(0, s.len() as int) =~= s);
    out
}

fn clone_reports(reports: &Vec<HidReportFrame>) -> (r: Vec<HidReportFrame>)
    ensures
        frames_model(r@) == frames_model(reports@),
{
    let mut out: Vec<HidReportFrame> = Vec::new();
    let mut i: usize = 0;
    while i < reports.len()
        invariant
            i <= reports@.len(),
            out@.len() == i,
            forall|k: int| 0 <= k < i ==> #[trigger] frames_model(out@)[k] == frames_model(reports@)[k],
        decreases reports@.len() - i,
    {
        let ghost prev = out@;
        out.push(reports[i].clone());
        assert forall|k: int| 0 <= k <= i implies #[trigger] frames_model(out@)[k] == frames_model(reports@)[k] by {
            if k < i {
                assert(out@[k] == prev[k]);
                assert(frames_model(prev)[k] == frames_model(reports@)[k]);
            }
        }
        i = i + 1;
    }
    assert(frames_model(out@) =~= frames_model(reports@));
    out
}

impl TesterState {
    /// The selected source's entry, when the selection names a connected source.
    pub open spec fn selected_entry(&self) -> Option<TesterSource> {
        match self.selected() {
            Some(id) => {
                let i = find_source(self.source_list(), id@);
                if i >= 0 {
                    Some(self.source_list()[i])
                } else {
                    None
                }
            },
            None => None,
        }
    }

    /// Key views of the selected source.
    pub open spec fn selected_keys(&self) -> Seq<VisualKey> {
        key_views(self.selected_entry()->0.device.controls@, self.value_list(), self.selected()->0@)
    }

    /// Axis views of the selected source.
    pub open spec fn selected_axes(&self) -> Seq<VisualAxis> {
        axis_views(self.selected_entry()->0.device.controls@, self.value_list(), self.selected()->0@)
    }

    /// Select an active source for visual inspection; an ID that names no
    /// connected source clears the selection.
    pub fn select_source(&mut self, source_id: Option<SourceId>)
        requires
            old(self).wf(),
        ensures
            final(self).wf(),
            final(self).selected() == match source_id {
                Some(id) => if find_source(old(self).source_list(), id@) >= 0 {
                    Some(id)
                } else {
                    None
                },
                None => None,
            },
            final(self).source_list() == old(self).source_list(),
            final(self).value_list() == old(self).value_list(),
            final(self).frame_list() == old(self).frame_list(),
            final(self).log_list() == old(self).log_list(),
            final(self).hid_evidence() == old(self).hid_evidence(),
            final(self).timing_state() == old(self).timing_state(),
    {
        self.selected_source = match source_id {
            Some(id) => match source_index(&self.sources, &id) {
                Some(_) => Some(id),
                None => None,
            },
            None => None,
        };
    }

    /// Build a generic native-input view without changing the captured evidence.
    ///
    /// The view lists the selected source's keys and absolute axes in control
    /// order with their last values, the hat pair when both hat axes are
    /// advertised, and how many retained frames came from the source.
    pub fn native_input_view(&self) -> (r: Option<NativeInputView>)
        ensures
            r is Some <==> self.selected_entry() is Some,
            r matches Some(v) ==> {
                &&& self.selected() == Some(v.source_id)
                &&& v.keys@ == self.selected_keys()
                &&& v.axes@ == self.selected_axes()
                &&& v.dpad == match (first_axis_value(v.axes@, 0x10), first_axis_value(v.axes@, 0x11)) {
                    (Some(x), Some(y)) => Some((x, y)),
                    _ => None,
                }
                &&& v.recent_frame_count == frames_from(self.frame_list(), v.source_id@)
            },
    {
        let id = match &self.selected_source {
            Some(id) => id,
            None => {
                return None;
            },
        };
        let i = match source_index(&self.sources, id) {
            Some(i) => i,
            None => {
                return None;
            },
        };
        let src = &self.sources[i];
        let keys = collect_keys(&src.device.controls, &self.values, id);
        let axes = collect_axes(&src.device.controls, &self.values, id);
        let dpad = match (first_axis(&axes, 0x10), first_axis(&axes, 0x11)) {
            (Some(x), Some(y)) => Some((x, y)),
            _ => None,
        };
        let recent_frame_count = count_frames(&self.frames, id);
        Some(NativeInputView { source_id: id.clone(), keys, axes, dpad, recent_frame_count })
    }

    /// Build an Xbox-shaped display demo only for a matching Linux control shape.
    pub fn xbox_display_view(&self) -> (r: Option<XboxDisplayView>)
        ensures
            r is Some <==> (self.selected_entry() is Some && xbox_shape(
                self.selected_keys(),
                self.selected_axes(),
            )),
            r matches Some(x) ==> {
                let keys = self.selected_keys();
                let axes = self.selected_axes();
                &&& self.selected() == Some(x.source_id)
                &&& x.buttons@ == xbox_buttons(keys)
                &&& x.left_stick == (or_zero(first_axis_value(axes, 0)), or_zero(first_axis_value(axes, 1)))
                &&& x.right_stick == (or_zero(first_axis_value(axes, 3)), or_zero(first_axis_value(axes, 4)))
                &&& x.dpad == (or_zero(first_axis_value(axes, 0x10)), or_zero(first_axis_value(axes, 0x11)))
                &&& x.left_trigger == first_axis_value(axes, 2)
                &&& x.right_trigger == first_axis_value(axes, 5)
            },
    {
        let view = match self.native_input_view() {
            Some(v) => v,
            None => {
                return None;
            },
        };
        if first_key(&view.keys, 304).is_none() || first_key(&view.keys, 305).is_none()
            || first_key(&view.keys, 307).is_none() || first_key(&view.keys, 308).is_none()
            || first_axis(&view.axes, 0).is_none() || first_axis(&view.axes, 1).is_none()
            || first_axis(&view.axes, 3).is_none() || first_axis(&view.axes, 4).is_none()
            || first_axis(&view.axes, 0x10).is_none() || first_axis(&view.axes, 0x11).is_none() {
            return None;
        }
        let key_value = |code: u16| -> (v: i32)
            ensures
                v == or_zero(first_key_value(view.keys@, code)),
            {
                match first_key(&view.keys, code) {
                    Some(v) => v,
                    None => 0,
                }
            };
        let axis_value = |code: u16| -> (v: i32)
            ensures
                v == or_zero(first_axis_value(view.axes@, code)),
            {
                match first_axis(&view.axes, code) {
                    Some(v) => v,
                    None => 0,
                }
            };
        let buttons = vec![
            (XboxDisplayButton::South, key_value(304)),
            (XboxDisplayButton::East, key_value(305)),
            (XboxDisplayButton::North, key_value(307)),
            (XboxDisplayButton::West, key_value(308)),
            (XboxDisplayButton::LeftBumper, key_value(310)),
            (XboxDisplayButton::RightBumper, key_value(311)),
            (XboxDisplayButton::View, key_value(314)),
            (XboxDisplayButton::Menu, key_value(315)),
            (XboxDisplayButton::Guide, key_value(316)),
            (XboxDisplayButton::LeftStick, key_value(317)),
            (XboxDisplayButton::RightStick, key_value(318)),
        ];
        let left_stick = (axis_value(0), axis_value(1));
        let right_stick = (axis_value(3), axis_value(4));
        let dpad = (axis_value(0x10), axis_value(0x11));
        let left_trigger = first_axis(&view.axes, 2);
        let right_trigger = first_axis(&view.axes, 5);
        assert(buttons@ =~= xbox_buttons(view.keys@));
        Some(XboxDisplayView {
            source_id: view.source_id,
            buttons,
            left_stick,
            right_stick,
            dpad,
            left_trigger,
            right_trigger,
        })
    }
}

/// What applying a HID fixture does to the log and the HID evidence, given
/// its outcome: on success the evidence holds the descriptor's item count and
/// layouts, the fixture's reports and the diagnostics of the reports the
/// descriptor cannot frame, and the log records the application; on failure
/// the error is the parse or validation error of the descriptor, the log
/// records it and the evidence stays as it was.
pub open spec fn hid_fixture_effect(
    fixture: HidFixture,
    r: Result<(), HidDescriptorError>,
    old_log: Seq<Seq<char>>,
    old_hid: Option<TesterHidEvidence>,
    new_log: Seq<Seq<char>>,
    new_hid: Option<TesterHidEvidence>,
) -> bool {
    match r {
        Ok(()) => {
            &&& items_from(fixture.descriptor@, 0) matches Ok(items)
            &&& build_layouts_spec(items) matches Ok(m)
            &&& new_hid matches Some(h)
            &&& h.item_count == items.len()
            &&& is_listing(layouts_view(h.layouts@), m)
            &&& frames_model(h.reports@) == frames_model(fixture.reports@)
            &&& log_texts(h.diagnostics@) == report_diagnostics(layouts_view(h.layouts@), fixture.reports@)
            &&& new_log == bounded_push(old_log, "applied synthetic HID fixture"@, MAX_RETAINED_LOG_ENTRIES as nat)
        },
        Err(e) => {
            &&& match e {
                HidDescriptorError::Parse(p) => items_from(fixture.descriptor@, 0) == Err::<
                    Seq<(usize, HidItemKind, Seq<u8>)>,
                    _,
                >(p),
                HidDescriptorError::Validation(v) => {
                    &&& items_from(fixture.descriptor@, 0) matches Ok(items)
                    &&& build_layouts_spec(items) == Err::<Map<(HidReportType, u8), LayoutModel>, _>(v)
                },
            }
            &&& new_hid == old_hid
            &&& new_log == bounded_push(
                old_log,
                "HID descriptor error: "@ + descriptor_error_text(e),
                MAX_RETAINED_LOG_ENTRIES as nat,
            )
        },
    }
}

/// `after` is `before` with the source `id`, if connected, previewing the
/// forced profile `p`: it carries the automatic selection it had, keeps its
/// device and access, and the other sources stay; for an ID that is not
/// connected `after` is `before`.
pub open spec fn force_preview(before: Seq<TesterSource>, id: Seq<char>, p: ProfileId, after: Seq<TesterSource>) -> bool {
    let i = find_source(before, id);
    if i >= 0 {
        &&& after.len() == before.len()
        &&& forall|j: int| 0 <= j < before.len() && j != i ==> #[trigger] after[j] == before[j]
        &&& after[i].device == before[i].device
        &&& after[i].access == before[i].access
        &&& after[i].profile is Forced
        &&& after[i].profile->profile_id == p
        &&& automatic_of(after[i].profile).equiv(&automatic_of(before[i].profile))
    } else {
        after == before
    }
}

/// `after` is `before` with the source `id`, if connected, back on automatic
/// selection with the automatic selection it carried, keeping its device and
/// access, and the other sources stay; for an ID that is not connected
/// `after` is `before`.
pub open spec fn clear_preview(before: Seq<TesterSource>, id: Seq<char>, after: Seq<TesterSource>) -> bool {
    let i = find_source(before, id);
    if i >= 0 {
        &&& after.len() == before.len()
        &&& forall|j: int| 0 <= j < before.len() && j != i ==> #[trigger] after[j] == before[j]
        &&& after[i].device == before[i].device
        &&& after[i].access == before[i].access
        &&& after[i].profile is Auto
        &&& automatic_of(after[i].profile).equiv(&automatic_of(before[i].profile))
    } else {
        after == before
    }
}

impl TesterState {
    /// Apply a sanitized HID fixture without opening a hidraw device.
    ///
    /// On success the evidence holds the descriptor's item count and layouts,
    /// the fixture's reports, and one diagnostic per report the descriptor
    /// cannot frame. A descriptor error is logged and returned, and the
    /// evidence is left as it was.
    pub fn apply_hid_fixture(&mut self, fixture: &HidFixture) -> (r: Result<(), HidDescriptorError>)
        requires
            old(self).wf(),
        ensures
            final(self).wf(),
            final(self).source_list() == old(self).source_list(),
            final(self).value_list() == old(self).value_list(),
            final(self).frame_list() == old(self).frame_list(),
            final(self).selected() == old(self).selected(),
            final(self).timing_state() == old(self).timing_state(),
            hid_fixture_effect(
                *fixture,
                r,
                old(self).log_list(),
                old(self).hid_evidence(),
                final(self).log_list(),
                final(self).hid_evidence(),
            ),
    {
        let descriptor = match HidDescriptor::parse(fixture.descriptor.as_slice()) {
            Ok(descriptor) => descriptor,
            Err(error) => {
                let mut line = String::new();
                push_str(&mut line, "HID descriptor error: ");
                let text = error.display_text();
                push_str(&mut line, text.as_str());
                proof {
                    lemma_log_texts_push(self.log@, line, MAX_RETAINED_LOG_ENTRIES as nat);
                }
                push_bounded(&mut self.log, line, MAX_RETAINED_LOG_ENTRIES);
                return Err(error);
            },
        };
        let diagnostics = report_diagnostics_of(&descriptor, &fixture.reports);
        let reports = clone_reports(&fixture.reports);
        let item_count = descriptor.items.len();
        self.hid = Some(TesterHidEvidence { item_count, layouts: descriptor.layouts, reports, diagnostics });
        let line = owned("applied synthetic HID fixture");
        proof {
            lemma_log_texts_push(self.log@, line, MAX_RETAINED_LOG_ENTRIES as nat);
        }
        push_bounded(&mut self.log, line, MAX_RETAINED_LOG_ENTRIES);
        proof {
            assert(items_view(descriptor.items@).len() == descriptor.items@.len());
        }
        Ok(())
    }

    /// Preview an explicit reader without discarding automatic candidates.
    ///
    /// For a connected source, its profile becomes the forced `profile_id`
    /// carrying the automatic selection it had, and a log line records it;
    /// for any other ID nothing changes.
    pub fn force_profile(&mut self, source_id: &SourceId, profile_id: ProfileId)
        requires
            old(self).wf(),
        ensures
            final(self).wf(),
            final(self).value_list() == old(self).value_list(),
            final(self).frame_list() == old(self).frame_list(),
            final(self).selected() == old(self).selected(),
            final(self).hid_evidence() == old(self).hid_evidence(),
            final(self).timing_state() == old(self).timing_state(),
            force_preview(old(self).source_list(), source_id@, profile_id, final(self).source_list()),
            find_source(old(self).source_list(), source_id@) >= 0 ==> final(self).log_list() == bounded_push(
                old(self).log_list(),
                "forced profile preview for "@ + source_id@,
                MAX_RETAINED_LOG_ENTRIES as nat,
            ),
            find_source(old(self).source_list(), source_id@) < 0 ==> final(self).log_list() == old(self).log_list(),
    {
        match source_index(&self.sources, source_id) {
            Some(i) => {
                let ghost s = self.sources@;
                let automatic = self.sources[i].profile.automatic().clone();
                let mode = automatic.force(profile_id);
                proof {
                    lemma_find_key(s, source_key_fn(), source_id@);
                }
                self.replace_profile(i, mode);
                let mut line = String::new();
                push_str(&mut line, "forced profile preview for ");
                push_str(&mut line, source_id.as_str());
                proof {
                    lemma_log_texts_push(self.log@, line, MAX_RETAINED_LOG_ENTRIES as nat);
                }
                push_bounded(&mut self.log, line, MAX_RETAINED_LOG_ENTRIES);
            },
            None => {},
        }
    }

    /// Return a source to automatic profile selection.
    ///
    /// For a connected source, its profile becomes automatic with the
    /// selection it carried, and a log line records it; for any other ID
    /// nothing changes.
    pub fn clear_forced_profile(&mut self, source_id: &SourceId)
        requires
            old(self).wf(),
        ensures
            final(self).wf(),
            final(self).value_list() == old(self).value_list(),
            final(self).frame_list() == old(self).frame_list(),
            final(self).selected() == old(self).selected(),
            final(self).hid_evidence() == old(self).hid_evidence(),
            final(self).timing_state() == old(self).timing_state(),
            clear_preview(old(self).source_list(), source_id@, final(self).source_list()),
            find_source(old(self).source_list(), source_id@) >= 0 ==> final(self).log_list() == bounded_push(
                old(self).log_list(),
                "cleared forced profile preview for "@ + source_id@,
                MAX_RETAINED_LOG_ENTRIES as nat,
            ),
            find_source(old(self).source_list(), source_id@) < 0 ==> final(self).log_list() == old(self).log_list(),
    {
        match source_index(&self.sources, source_id) {
            Some(i) => {
                let ghost s = self.sources@;
                let automatic = self.sources[i].profile.automatic().clone();
                proof {
                    lemma_find_key(s, source_key_fn(), source_id@);
                }
                self.replace_profile(i, ProfileSelectionMode::Auto(automatic));
                let mut line = String::new();
                push_str(&mut line, "cleared forced profile preview for ");
                push_str(&mut line, source_id.as_str());
                proof {
                    lemma_log_texts_push(self.log@, line, MAX_RETAINED_LOG_ENTRIES as nat);
                }
                push_bounded(&mut self.log, line, MAX_RETAINED_LOG_ENTRIES);
            },
            None => {},
        }
    }

    /// Replace one source's profile, keeping everything else.
    fn replace_profile(&mut self, i: usize, profile: ProfileSelectionMode)
        requires
            old(self).wf(),
            i < old(self).sources@.len(),
        ensures
            final(self).wf(),
            final(self).sources@.len() == old(self).sources@.len(),
            forall|j: int| 0 <= j < old(self).sources@.len() && j != i
                ==> #[trigger] final(self).sources@[j] == old(self).sources@[j],
            final(self).sources@[i as int].device == old(self).sources@[i as int].device,
            final(self).sources@[i as int].access == old(self).sources@[i as int].access,
            final(self).sources@[i as int].profile == profile,
            final(self).values == old(self).values,
            final(self).frames == old(self).frames,
            final(self).log == old(self).log,
            final(self).hid == old(self).hid,
            final(self).selected_source == old(self).selected_source,
            final(self).timing == old(self).timing,
    {
        let ghost s = self.sources@;
        let old_entry = self.sources.remove(i);
        let entry = TesterSource { device: old_entry.device, access: old_entry.access, profile };
        self.sources.insert(i, entry);
        assert(self.sources@ =~= s.update(i as int, entry));
        proof {
            lemma_strict_update(s, entry, source_key_fn(), text_lt(), i as int);
            if self.selected_source is Some {
                let sel = self.selected_source->0@;
                lemma_find_key(s, source_key_fn(), sel);
                lemma_find_key(self.sources@, source_key_fn(), sel);
                let p = find_source(s, sel);
                assert(source_key(self.sources@[p]) == sel);
            }
        }
    }
}

/// The value of the last event of `events` with this type and code.
pub open spec fn last_event_value(events: Seq<crate::model::NativeEvent>, t: u16, code: u16) -> Option<i32>
    decreases events.len(),
{
    if events.len() == 0 {
        None
    } else if events.last().event_type == t && events.last().code == code {
        Some(events.last().value)
    } else {
        last_event_value(events.drop_last(), t, code)
    }
}

proof fn lemma_upsert_value_lookup(s: Seq<RawValue>, e: RawValue, k: (Seq<char>, u16, u16))
    requires
        strictly_sorted_by(s, value_key_fn(), triple_lt()),
    ensures
        strictly_sorted_by(upsert_value(s, e), value_key_fn(), triple_lt()),
        value_of(upsert_value(s, e), k.0, k.1, k.2) == if k == value_key(e) {
            Some(e.1)
        } else {
            value_of(s, k.0, k.1, k.2)
        },
{
    lemma_triple_lt_strict();
    let t = upsert_value(s, e);
    let ke = value_key(e);
    lemma_find_key(s, value_key_fn(), ke);
    let i = find_value(s, ke);
    if i < 0 {
        lemma_count_lt_sorted(s, value_key_fn(), triple_lt(), ke);
        lemma_strict_insert(s, e, value_key_fn(), triple_lt(), values_before(s, ke));
    } else {
        lemma_strict_update(s, e, value_key_fn(), triple_lt(), i);
    }
    let p = if i >= 0 { i } else { values_before(s, ke) };
    assert(t[p] == e);
    assert((k.0, k.1, k.2) == k);
    if k == ke {
        lemma_find_key_unique(t, value_key_fn(), triple_lt(), p);
    } else {
        lemma_find_key(s, value_key_fn(), k);
        let q = find_value(s, k);
        if q >= 0 {
            let q2 = if i >= 0 || q < p { q } else { q + 1 };
            assert(t[q2] == s[q]);
            lemma_find_key_unique(t, value_key_fn(), triple_lt(), q2);
        } else {
            lemma_find_key(t, value_key_fn(), k);
            let j = find_value(t, k);
            if j >= 0 {
                if j == p {
                    assert(value_key(t[j]) == ke);
                } else if i >= 0 || j < p {
                    assert(t[j] == s[j]);
                } else {
                    assert(t[j] == s[j - 1]);
                }
            }
        }
    }
}

/// Values read back what a frame wrote: after recording a batch from a
/// source, the value for one of that source's codes is the last value the
/// batch carried for it, and every other value is what it was.
pub proof fn law_recorded_values_read_back(
    s: Seq<RawValue>,
    id: SourceId,
    events: Seq<crate::model::NativeEvent>,
    source: Seq<char>,
    t: u16,
    code: u16,
)
    requires
        strictly_sorted_by(s, value_key_fn(), triple_lt()),
    ensures
        strictly_sorted_by(record_events(s, id, events), value_key_fn(), triple_lt()),
        value_of(record_events(s, id, events), source, t, code) == if source == id@
            && last_event_value(events, t, code) is Some {
            last_event_value(events, t, code)
        } else {
            value_of(s, source, t, code)
        },
    decreases events.len(),
{
    if events.len() > 0 {
        let rest = events.drop_last();
        law_recorded_values_read_back(s, id, rest, source, t, code);
        let e = events.last();
        lemma_upsert_value_lookup(
            record_events(s, id, rest),
            ((id, e.event_type, e.code), e.value),
            (source, t, code),
        );
    }
}

proof fn lemma_value_of_push(s: Seq<RawValue>, x: RawValue, k: (Seq<char>, u16, u16))
    ensures
        value_of(s.push(x), k.0, k.1, k.2) == if value_key(x) == k {
            Some(x.1)
        } else {
            value_of(s, k.0, k.1, k.2)
        },
{
    let t = s.push(x);
    assert(t.drop_last() =~= s);
    assert((k.0, k.1, k.2) == k);
    assert(t.last() == x);
    assert((value_key_fn())(x) == value_key(x));
    lemma_find_key(s, value_key_fn(), k);
    assert(find_key(t, value_key_fn(), k) == if value_key(x) == k {
        s.len() as int
    } else {
        find_key(s, value_key_fn(), k)
    });
    if value_key(x) != k && find_value(s, k) >= 0 {
        assert(t[find_value(s, k)] == s[find_value(s, k)]);
    }
}

/// Forgetting a source's values leaves no value for it and keeps every other
/// source's values.
pub proof fn law_dropped_values(s: Seq<RawValue>, id: Seq<char>, source: Seq<char>, t: u16, code: u16)
    ensures
        value_of(drop_values_of(s, id), source, t, code) == if source == id {
            None
        } else {
            value_of(s, source, t, code)
        },
    decreases s.len(),
{
    if s.len() > 0 {
        let rest = s.drop_last();
        law_dropped_values(rest, id, source, t, code);
        assert(s =~= rest.push(s.last()));
        lemma_value_of_push(rest, s.last(), (source, t, code));
        if value_key(s.last()).0 != id {
            lemma_value_of_push(drop_values_of(rest, id), s.last(), (source, t, code));
        }
    }
}

/// A disconnected source is gone: no connected source keeps its ID.
pub proof fn law_removed_source_is_gone(s: Seq<TesterSource>, id: Seq<char>)
    requires
        strictly_sorted_by(s, source_key_fn(), text_lt()),
    ensures
        find_source(remove_source(s, id), id) < 0,
{
    lemma_text_lt_strict();
    let i = find_source(s, id);
    lemma_find_key(s, source_key_fn(), id);
    if i >= 0 {
        let t = s.remove(i);
        lemma_find_key(t, source_key_fn(), id);
        let j = find_source(t, id);
        if j >= 0 {
            let q = if j < i { j } else { j + 1 };
            assert(t[j] == s[q]);
            lemma_find_key_unique(s, source_key_fn(), text_lt(), q);
        }
    }
}

/// The capture policy an operator picks in the tester.
#[derive(Debug, Clone, Copy, PartialEq, Eq, Structural)]
pub enum AccessChoice {
    Shared,
    PreferExclusive,
    Exclusive,
}

impl Default for AccessChoice {
    fn default() -> (c: Self)
        ensures
            c == AccessChoice::Shared,
    {
        AccessChoice::Shared
    }
}

impl AccessChoice {
    /// The access policy a choice asks the session for.
    pub fn access_mode(&self) -> (m: AccessMode)
        ensures
            m == match *self {
                AccessChoice::Shared => AccessMode::Shared,
                AccessChoice::PreferExclusive => AccessMode::PreferExclusive,
                AccessChoice::Exclusive => AccessMode::Exclusive,
            },
    {
        match self {
            AccessChoice::Shared => AccessMode::Shared,
            AccessChoice::PreferExclusive => AccessMode::PreferExclusive,
            AccessChoice::Exclusive => AccessMode::Exclusive,
        }
    }
}

/// The source ID of the tester's synthetic replay controller.
pub open spec fn synthetic_source_id() -> Seq<char> {
    "synthetic-replay"@
}

/// The axis the synthetic replay controller advertises.
pub open spec fn synthetic_axis_info() -> AbsoluteAxisInfo {
    AbsoluteAxisInfo { minimum: -32_768i32, maximum: 32_767, current: 0, fuzz: 0, flat: 0, resolution: 1 }
}

/// The tester's synthetic replay controller, field by field.
pub open spec fn is_synthetic_device(d: DeviceDescriptor) -> bool {
    &&& d.physical_id@ == "synthetic-physical"@
    &&& d.source_id@ == synthetic_source_id()
    &&& d.reported_name@ == "Synthetic replay controller"@
    &&& d.identity == (DeviceIdentity { bus_type: 0x0003, vendor_id: 0, product_id: 0, version: 1 })
    &&& d.transport == Transport::Virtual
    &&& d.provenance == DeviceProvenance::Unknown
    &&& d.identity_stability == IdentityStability::ConnectionOnly
    &&& d.class == ControllerClass::Gamepad
    &&& d.device_path@ == Seq::<char>::empty()
    &&& d.physical_path is None
    &&& d.unique_id is None
    &&& d.controls@.len() == 2
    &&& d.controls@[0] matches ControlDescriptor::AbsoluteAxis { code, name, info } && code == 0
        && name@ == "synthetic-x"@ && info == synthetic_axis_info()
    &&& d.controls@[1] matches ControlDescriptor::Key { code, name } && code == 304 && name@
        == "synthetic-button"@
}

/// The tester's synthetic replay controller: a virtual gamepad with one
/// absolute X axis and one south button.
pub fn synthetic_device() -> (d: DeviceDescriptor)
    ensures
        is_synthetic_device(d),
{
    let controls = vec![
        ControlDescriptor::AbsoluteAxis {
            code: 0,
            name: owned("synthetic-x"),
            info: AbsoluteAxisInfo {
                minimum: -32_768,
                maximum: 32_767,
                current: 0,
                fuzz: 0,
                flat: 0,
                resolution: 1,
            },
        },
        ControlDescriptor::Key { code: 304, name: owned("synthetic-button") },
    ];
    let d = DeviceDescriptor {
        physical_id: PhysicalDeviceId::new("synthetic-physical"),
        source_id: SourceId::new("synthetic-replay"),
        reported_name: owned("Synthetic replay controller"),
        identity: DeviceIdentity { bus_type: 0x0003, vendor_id: 0, product_id: 0, version: 1 },
        transport: Transport::Virtual,
        provenance: DeviceProvenance::Unknown,
        identity_stability: IdentityStability::ConnectionOnly,
        class: ControllerClass::Gamepad,
        device_path: String::new(),
        physical_path: None,
        unique_id: None,
        controls,
    };
    d
}

/// The events of the synthetic replay frame: X axis at -12 and the south button pressed.
pub open spec fn synthetic_events() -> Seq<crate::model::NativeEvent> {
    seq![
        crate::model::NativeEvent { timestamp: crate::model::Timestamp { after_epoch: true, seconds: 0, nanoseconds: 0 }, event_type: 3, code: 0, value: -12i32 },
        crate::model::NativeEvent { timestamp: crate::model::Timestamp { after_epoch: true, seconds: 0, nanoseconds: 0 }, event_type: 1, code: 304, value: 1 },
    ]
}

/// The notice the capture worker sends when the display queue had to omit events.
pub open spec fn omitted_notice_text(count: usize) -> Seq<char> {
    "tester display queue omitted "@ + decimal(count as nat) + " complete event(s)"@
}

/// The event reporting that the display queue omitted `count` complete events.
pub fn omitted_events_notice(count: usize) -> (e: CaptureEvent)
    ensures
        e matches CaptureEvent::SourceError { source_id, error } && source_id@
            == "tester-display-queue"@ && error.kind == crate::model::CaptureErrorKind::Read
            && error.message@ == omitted_notice_text(count),
{
    let mut message = String::new();
    push_str(&mut message, "tester display queue omitted ");
    push_decimal(&mut message, count as u128);
    push_str(&mut message, " complete event(s)");
    assert(message@ =~= omitted_notice_text(count));
    CaptureEvent::SourceError {
        source_id: SourceId::new("tester-display-queue"),
        error: CaptureError::new(crate::model::CaptureErrorKind::Read, message.as_str()),
    }
}

impl TesterState {
    /// Show the synthetic replay controller and one frame from it.
    pub fn synthetic_frame(&mut self)
        requires
            old(self).wf(),
        ensures
            final(self).wf(),
            find_source(final(self).source_list(), synthetic_source_id()) >= 0,
            final(self).source_list()[find_source(final(self).source_list(), synthetic_source_id())].access
                == CaptureAccess::Shared,
            is_synthetic_device(
                final(self).source_list()[find_source(final(self).source_list(), synthetic_source_id())].device,
            ),
            final(self).log_list() == bounded_push(
                bounded_push(
                    old(self).log_list(),
                    "connected "@ + synthetic_source_id() + " ("@ + "Shared"@ + ")"@,
                    MAX_RETAINED_LOG_ENTRIES as nat,
                ),
                "frame "@ + decimal(1) + " from "@ + synthetic_source_id(),
                MAX_RETAINED_LOG_ENTRIES as nat,
            ),
            forall|t: u16, code: u16| #[trigger] value_of(final(self).value_list(), synthetic_source_id(), t, code)
                == if last_event_value(synthetic_events(), t, code) is Some {
                    last_event_value(synthetic_events(), t, code)
                } else {
                    value_of(old(self).value_list(), synthetic_source_id(), t, code)
                },
            final(self).frame_list().len() > 0,
            final(self).frame_list().last().source_id@ == synthetic_source_id(),
            final(self).frame_list().last().sequence == 1,
            final(self).frame_list().last().events@ == synthetic_events(),
    {
        let device = synthetic_device();
        let source_id = device.source_id.clone();
        self.apply(CaptureEvent::Connected { device, access: CaptureAccess::Shared });
        let ghost connected = self.source_list();
        let ghost values_before = self.value_list();
        let events = vec![
            crate::model::NativeEvent { timestamp: crate::model::Timestamp::unix_epoch(), event_type: 3, code: 0, value: -12 },
            crate::model::NativeEvent { timestamp: crate::model::Timestamp::unix_epoch(), event_type: 1, code: 304, value: 1 },
        ];
        assert(events@ =~= synthetic_events());
        let batch = EventBatch { source_id: source_id.clone(), sequence: 1, events };
        let ghost b = batch;
        self.apply(CaptureEvent::Input(batch));
        proof {
            assert forall|t: u16, code: u16| #[trigger] value_of(self.value_list(), synthetic_source_id(), t, code)
                == if last_event_value(synthetic_events(), t, code) is Some {
                    last_event_value(synthetic_events(), t, code)
                } else {
                    value_of(old(self).value_list(), synthetic_source_id(), t, code)
                } by {
                law_recorded_values_read_back(values_before, b.source_id, b.events@, synthetic_source_id(), t, code);
            }
        }
    }

    /// Show a parsed HID fixture, or report why it could not be read.
    ///
    /// A fixture that parses is applied (a descriptor error is logged by that);
    /// one that does not is reported as an invalid-device error of the
    /// `synthetic-hid-fixture` source.
    pub fn synthetic_hid_fixture(&mut self, parsed: Result<HidFixture, String>)
        requires
            old(self).wf(),
        ensures
            final(self).wf(),
            final(self).source_list() == old(self).source_list(),
            final(self).value_list() == old(self).value_list(),
            final(self).frame_list() == old(self).frame_list(),
            final(self).selected() == old(self).selected(),
            parsed is Err ==> final(self).log_list() == bounded_push(
                old(self).log_list(),
                "source error "@ + "synthetic-hid-fixture"@ + ": "@ + error_text(
                    crate::model::CaptureErrorKind::InvalidDevice,
                    parsed->Err_0@,
                ),
                MAX_RETAINED_LOG_ENTRIES as nat,
            ),
            parsed is Err ==> final(self).hid_evidence() == old(self).hid_evidence(),
            parsed matches Ok(fixture) ==> exists|r: Result<(), HidDescriptorError>|
                #[trigger] hid_fixture_effect(
                    fixture,
                    r,
                    old(self).log_list(),
                    old(self).hid_evidence(),
                    final(self).log_list(),
                    final(self).hid_evidence(),
                ),
    {
        match parsed {
            Ok(fixture) => {
                let _ = self.apply_hid_fixture(&fixture);
            },
            Err(message) => {
                let event = CaptureEvent::SourceError {
                    source_id: SourceId::new("synthetic-hid-fixture"),
                    error: CaptureError::new(crate::model::CaptureErrorKind::InvalidDevice, message.as_str()),
                };
                self.apply(event);
            },
        }
    }
}

proof fn lemma_find_source_same_devices(a: Seq<TesterSource>, b: Seq<TesterSource>, id: Seq<char>)
    requires
        a.len() == b.len(),
        forall|j: int| 0 <= j < a.len() ==> #[trigger] a[j].device == b[j].device,
    ensures
        find_source(a, id) == find_source(b, id),
    decreases a.len(),
{
    if a.len() > 0 {
        assert(a[a.len() - 1].device == b[b.len() - 1].device);
        assert forall|j: int| 0 <= j < a.drop_last().len() implies #[trigger] a.drop_last()[j].device
            == b.drop_last()[j].device by {
            assert(a.drop_last()[j] == a[j] && b.drop_last()[j] == b[j]);
        }
        lemma_find_source_same_devices(a.drop_last(), b.drop_last(), id);
    }
}

/// Facts every state of a chain of forced previews shares with the first.
proof fn lemma_preview_chain(states: Seq<Seq<TesterSource>>, id: Seq<char>, forced: Seq<ProfileId>, n: int)
    requires
        states.len() == forced.len() + 1,
        forall|k: int| 0 <= k < forced.len() ==> #[trigger] force_preview(states[k], id, forced[k], states[k + 1]),
        0 <= n <= forced.len(),
    ensures
        ({
            let first = states[0];
            let i = find_source(first, id);
            &&& find_source(states[n], id) == i
            &&& states[n].len() == first.len()
            &&& i >= 0 ==> {
                &&& forall|j: int| 0 <= j < first.len() && j != i ==> #[trigger] states[n][j] == first[j]
                &&& states[n][i].device == first[i].device
                &&& states[n][i].access == first[i].access
                &&& automatic_of(states[n][i].profile).equiv(&automatic_of(first[i].profile))
            }
            &&& i < 0 ==> states[n] == first
        }),
    decreases n,
{
    lemma_find_key(states[0], source_key_fn(), id);
    if n > 0 {
        lemma_preview_chain(states, id, forced, n - 1);
        let k = n - 1;
        assert(force_preview(states[k], id, forced[k], states[k + 1]));
        assert(k + 1 == n);
        let before = states[n - 1];
        let after = states[n];
        lemma_find_key(before, source_key_fn(), id);
        if find_source(before, id) >= 0 {
            let i = find_source(before, id);
            assert forall|j: int| 0 <= j < before.len() implies #[trigger] before[j].device == after[j].device by {
                if j != i {
                    assert(after[j] == before[j]);
                }
            }
            lemma_find_source_same_devices(before, after, id);
        }
    }
}

/// Forced previews round-trip: however many profiles are forced on a
/// connected source, each preview keeps the automatic selection, and clearing
/// the preview leaves the source on automatic selection with the selection it
/// had, with its device, its access and every other source as they were. For
/// an ID that is not connected nothing changes at all.
pub proof fn law_forced_preview_round_trip(
    states: Seq<Seq<TesterSource>>,
    id: Seq<char>,
    forced: Seq<ProfileId>,
    last: Seq<TesterSource>,
)
    requires
        states.len() == forced.len() + 1,
        forall|k: int| 0 <= k < forced.len() ==> #[trigger] force_preview(states[k], id, forced[k], states[k + 1]),
        clear_preview(states[forced.len() as int], id, last),
    ensures
        ({
            let first = states[0];
            let i = find_source(first, id);
            if i >= 0 {
                &&& last.len() == first.len()
                &&& forall|j: int| 0 <= j < first.len() && j != i ==> #[trigger] last[j] == first[j]
                &&& last[i].device == first[i].device
                &&& last[i].access == first[i].access
                &&& last[i].profile is Auto
                &&& automatic_of(last[i].profile).equiv(&automatic_of(first[i].profile))
                &&& forall|k: int|
                    0 <= k < states.len() ==> automatic_of((#[trigger] states[k])[i].profile).equiv(
                        &automatic_of(first[i].profile),
                    )
            } else {
                last == first
            }
        }),
{
    let n = forced.len() as int;
    lemma_find_key(states[0], source_key_fn(), id);
    lemma_preview_chain(states, id, forced, n);
    assert forall|k: int| 0 <= k < states.len() implies automatic_of((#[trigger] states[k])[find_source(states[0], id)].profile).equiv(
        &automatic_of(states[0][find_source(states[0], id)].profile),
    ) || find_source(states[0], id) < 0 by {
        lemma_preview_chain(states, id, forced, k);
    }
}


/// `v` is what a display reads for key `code` among `keys`: the value of the
/// first key with that code, or 0 when the source has none.
pub open spec fn reads_key(keys: Seq<VisualKey>, code: u16, v: i32) -> bool {
    ||| exists|i: int|
        0 <= i < keys.len() && (#[trigger] keys[i]).code == code && keys[i].value == v && forall|j: int|
            0 <= j < i ==> (#[trigger] keys[j]).code != code
    ||| v == 0 && forall|i: int| 0 <= i < keys.len() ==> (#[trigger] keys[i]).code != code
}

proof fn lemma_first_key_value_reads(keys: Seq<VisualKey>, code: u16)
    ensures
        reads_key(keys, code, or_zero(first_key_value(keys, code))),
    decreases keys.len(),
{
    if keys.len() > 0 {
        if keys[0].code != code {
            let t = keys.drop_first();
            lemma_first_key_value_reads(t, code);
            let v = or_zero(first_key_value(t, code));
            if exists|i: int|
                0 <= i < t.len() && (#[trigger] t[i]).code == code && t[i].value == v && forall|j: int|
                    0 <= j < i ==> (#[trigger] t[j]).code != code {
                let i = choose|i: int|
                    0 <= i < t.len() && (#[trigger] t[i]).code == code && t[i].value == v && forall|j: int|
                        0 <= j < i ==> (#[trigger] t[j]).code != code;
                assert(keys[i + 1] == t[i]);
                assert forall|j: int| 0 <= j < i + 1 implies (#[trigger] keys[j]).code != code by {
                    if j > 0 {
                        assert(keys[j] == t[j - 1]);
                    }
                }
            } else {
                assert forall|i: int| 0 <= i < keys.len() implies (#[trigger] keys[i]).code != code by {
                    if i > 0 {
                        assert(keys[i] == t[i - 1]);
                    }
                }
            }
        }
    }
}

/// Each Xbox display button shows its own Linux key, once: South `BTN_SOUTH`
/// (304), East `BTN_EAST` (305), North `BTN_NORTH` (307), West `BTN_WEST`
/// (308), LeftBumper `BTN_TL` (310), RightBumper `BTN_TR` (311), View
/// `BTN_SELECT` (314), Menu `BTN_START` (315), Guide `BTN_MODE` (316),
/// LeftStick `BTN_THUMBL` (317) and RightStick `BTN_THUMBR` (318); a key the
/// source lacks shows 0.
pub proof fn law_xbox_buttons_read_their_keys(keys: Seq<VisualKey>)
    ensures
        xbox_buttons(keys).len() == 11,
        forall|i: int, j: int|
            0 <= i < j < 11 ==> (#[trigger] xbox_buttons(keys)[i]).0 != (#[trigger] xbox_buttons(keys)[j]).0,
        forall|i: int|
            0 <= i < 11 ==> {
                let (button, v) = #[trigger] xbox_buttons(keys)[i];
                &&& button == XboxDisplayButton::South ==> reads_key(keys, 304, v)
                &&& button == XboxDisplayButton::East ==> reads_key(keys, 305, v)
                &&& button == XboxDisplayButton::North ==> reads_key(keys, 307, v)
                &&& button == XboxDisplayButton::West ==> reads_key(keys, 308, v)
                &&& button == XboxDisplayButton::LeftBumper ==> reads_key(keys, 310, v)
                &&& button == XboxDisplayButton::RightBumper ==> reads_key(keys, 311, v)
                &&& button == XboxDisplayButton::View ==> reads_key(keys, 314, v)
                &&& button == XboxDisplayButton::Menu ==> reads_key(keys, 315, v)
                &&& button == XboxDisplayButton::Guide ==> reads_key(keys, 316, v)
                &&& button == XboxDisplayButton::LeftStick ==> reads_key(keys, 317, v)
                &&& button == XboxDisplayButton::RightStick ==> reads_key(keys, 318, v)
            },
{
    lemma_first_key_value_reads(keys, 304);
    lemma_first_key_value_reads(keys, 305);
    lemma_first_key_value_reads(keys, 307);
    lemma_first_key_value_reads(keys, 308);
    lemma_first_key_value_reads(keys, 310);
    lemma_first_key_value_reads(keys, 311);
    lemma_first_key_value_reads(keys, 314);
    lemma_first_key_value_reads(keys, 315);
    lemma_first_key_value_reads(keys, 316);
    lemma_first_key_value_reads(keys, 317);
    lemma_first_key_value_reads(keys, 318);
}

} // verus!
