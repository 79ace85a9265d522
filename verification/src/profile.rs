//! Conservative capture-profile selection.
//!
//! Profiles describe how a physical source is *read*. They are not IUCM
//! normalization and never replace the native [`DeviceDescriptor`] or event
//! stream. A separate output-profile request is carried as opaque policy so a
//! later routing layer may intentionally target a different virtual shape.

use vstd::prelude::*;

use crate::model::{DeviceDescriptor, Transport};
use crate::sorting::{
    insert_by, is_total_preorder, lemma_insert_by_split, lemma_sort_by_sorted, sort_by, sorted_by,
};
use crate::text::{seq_lt, str_eq, str_lt, lemma_seq_lt_irreflexive, lemma_seq_lt_total,
    lemma_seq_lt_asymmetric, lemma_seq_lt_transitive};

verus! {

/// Stable identifier for a capture or output profile.
#[derive(Debug, PartialEq, Eq, PartialOrd, Ord, Hash)]
pub struct ProfileId(String);

impl View for ProfileId {
    type V = Seq<char>;

    closed spec fn view(&self) -> Seq<char> {
        self.0@
    }
}

impl ProfileId {
    pub fn new(value: &str) -> (id: Self)
        ensures
            id@ == value@,
    {
        ProfileId(value.to_owned())
    }

    pub fn as_str(&self) -> (s: &str)
        ensures
            s@ == self@,
    {
        self.0.as_str()
    }

    /// Whether both identifiers hold the same characters.
    pub fn same(&self, other: &Self) -> (r: bool)
        ensures
            r == (self@ == other@),
    {
        str_eq(self.0.as_str(), other.0.as_str())
    }

    /// Whether `self` sorts strictly before `other` (the `Ord` of the text).
    pub fn precedes(&self, other: &Self) -> (r: bool)
        ensures
            r == seq_lt(self@, other@),
    {
        str_lt(self.0.as_str(), other.0.as_str())
    }
}

impl Clone for ProfileId {
    fn clone(&self) -> (r: Self)
        ensures
            r == *self,
    {
        ProfileId(self.0.clone())
    }
}

/// How much semantic knowledge a capture profile contributes.
#[derive(Debug, Clone, Copy, PartialEq, Eq, Structural)]
pub enum CaptureProfileFamily {
    /// A fully understood device-specific protocol.
    Native,
    /// A protocol family such as XUSB, GIP, or Switch controller mode.
    Protocol,
    /// A descriptor-driven generic HID view.
    GenericHid,
    /// SDL's unnormalized joystick surface: axes, buttons, hats, and balls.
    SdlJoystick,
}

/// Confidence in an automatic choice. It is evidence, not a promise of feature parity.
#[derive(Debug, Clone, Copy, PartialEq, Eq, PartialOrd, Ord, Structural)]
pub enum DetectionConfidence {
    Fallback,
    Tentative,
    Strong,
    /// Confirmed by a sanitized physical recording and its regression fixture.
    ///
    /// Passive matching never produces this level. A product name, VID/PID, or
    /// transport match is evidence for a candidate, not proof of feature parity.
    Verified,
}

/// Position of a confidence level in its order (`Fallback` lowest).
pub open spec fn confidence_rank(c: DetectionConfidence) -> int {
    match c {
        DetectionConfidence::Fallback => 0,
        DetectionConfidence::Tentative => 1,
        DetectionConfidence::Strong => 2,
        DetectionConfidence::Verified => 3,
    }
}

/// A deliberately narrow passive matcher. Rich protocol probes are added by platform backends.
#[derive(Debug, Clone, Copy, PartialEq, Eq, Structural)]
pub struct ProfileMatch {
    pub vendor_id: Option<u16>,
    pub product_id: Option<u16>,
    pub transport: Option<Transport>,
}

impl Default for ProfileMatch {
    fn default() -> (r: Self)
        ensures
            r.vendor_id is None,
            r.product_id is None,
            r.transport is None,
    {
        ProfileMatch { vendor_id: None, product_id: None, transport: None }
    }
}

/// A rule matches when every field it constrains equals the device's.
pub open spec fn rule_matches(rule: ProfileMatch, device: DeviceDescriptor) -> bool {
    &&& (rule.vendor_id matches Some(v) ==> v == device.identity.vendor_id)
    &&& (rule.product_id matches Some(p) ==> p == device.identity.product_id)
    &&& (rule.transport matches Some(t) ==> t == device.transport)
}

/// How many fields a rule constrains.
pub open spec fn rule_specificity(rule: ProfileMatch) -> int {
    (if rule.vendor_id is Some { 1int } else { 0 }) + (if rule.product_id is Some { 1int } else { 0 })
        + (if rule.transport is Some { 1int } else { 0 })
}

impl ProfileMatch {
    pub(crate) fn matches(&self, device: &DeviceDescriptor) -> (r: bool)
        ensures
            r == rule_matches(*self, *device),
    {
        let vendor = match self.vendor_id {
            Some(value) => value == device.identity.vendor_id,
            None => true,
        };
        let product = match self.product_id {
            Some(value) => value == device.identity.product_id,
            None => true,
        };
        let transport = match self.transport {
            Some(value) => value == device.transport,
            None => true,
        };
        vendor && product && transport
    }

    pub(crate) fn specificity(&self) -> (r: u8)
        ensures
            r == rule_specificity(*self),
    {
        let a: u8 = if self.vendor_id.is_some() { 1 } else { 0 };
        let b: u8 = if self.product_id.is_some() { 1 } else { 0 };
        let c: u8 = if self.transport.is_some() { 1 } else { 0 };
        a + b + c
    }
}

/// A registered profile and its passive identity rules.
#[derive(Debug, PartialEq, Eq)]
pub struct CaptureProfile {
    pub id: ProfileId,
    pub family: CaptureProfileFamily,
    pub matches: Vec<ProfileMatch>,
}

impl Clone for CaptureProfile {
    fn clone(&self) -> (r: Self)
        ensures
            r.id == self.id,
            r.family == self.family,
            r.matches@ == self.matches@,
    {
        let matches = self.matches.clone();
        assert(matches@ =~= self.matches@);
        CaptureProfile { id: self.id.clone(), family: self.family, matches }
    }
}

/// Why a profile was selected or offered.
#[derive(Debug, Clone, Copy, PartialEq, Eq, Structural)]
pub enum ProfileEvidence {
    IdentityMatch,
    TransportMatch(Transport),
    GenericFallback,
}

/// The model of a candidate: its profile text, family, confidence and evidence.
pub struct CandidateModel {
    pub id: Seq<char>,
    pub family: CaptureProfileFamily,
    pub confidence: DetectionConfidence,
    pub evidence: Seq<ProfileEvidence>,
}

/// One possible mechanical interpretation of the attached source.
#[derive(Debug, PartialEq, Eq)]
pub struct ProfileCandidate {
    pub profile_id: ProfileId,
    pub family: CaptureProfileFamily,
    pub confidence: DetectionConfidence,
    pub evidence: Vec<ProfileEvidence>,
}

impl View for ProfileCandidate {
    type V = CandidateModel;

    open spec fn view(&self) -> CandidateModel {
        CandidateModel {
            id: self.profile_id@,
            family: self.family,
            confidence: self.confidence,
            evidence: self.evidence@,
        }
    }
}

impl Clone for ProfileCandidate {
    fn clone(&self) -> (r: Self)
        ensures
            r@ == self@,
            r.profile_id == self.profile_id,
    {
        let evidence = self.evidence.clone();
        assert(evidence@ =~= self.evidence@);
        ProfileCandidate {
            profile_id: self.profile_id.clone(),
            family: self.family,
            confidence: self.confidence,
            evidence,
        }
    }
}

pub open spec fn candidates_view(v: Seq<ProfileCandidate>) -> Seq<CandidateModel> {
    v.map_values(|c: ProfileCandidate| c@)
}

fn clone_candidates(v: &Vec<ProfileCandidate>) -> (r: Vec<ProfileCandidate>)
    ensures
        candidates_view(r@) == candidates_view(v@),
{
    let mut r: Vec<ProfileCandidate> = Vec::new();
    let mut i: usize = 0;
    while i < v.len()
        invariant
            i <= v@.len(),
            r@.len() == i,
            candidates_view(r@) == candidates_view(v@).subrange(0, i as int),
        decreases v@.len() - i,
    {
        let ghost prev = r@;
        r.push(v[i].clone());
        assert forall|k: int| 0 <= k <= i implies #[trigger] candidates_view(r@)[k]
            == candidates_view(v@)[k] by {
            if k < i {
                assert(r@[k] == prev[k]);
                assert(candidates_view(prev)[k] == candidates_view(v@).subrange(0, i as int)[k]);
            }
        }
        i = i + 1;
        assert(candidates_view(r@) =~= candidates_view(v@).subrange(0, i as int));
    }
    assert(candidates_view(v@).subrange(0, i as int) =~= candidates_view(v@));
    r
}

/// A conservative, ordered automatic choice and every candidate that justified it.
#[derive(Debug, PartialEq, Eq)]
pub struct ProfileSelection {
    pub selected: ProfileCandidate,
    pub candidates: Vec<ProfileCandidate>,
}

impl ProfileSelection {
    /// The same selected candidate and candidate list, compared by their models.
    pub open spec fn equiv(&self, other: &Self) -> bool {
        &&& self.selected@ == other.selected@
        &&& candidates_view(self.candidates@) == candidates_view(other.candidates@)
    }

    /// Apply an explicit capture-profile choice without losing automatic evidence.
    pub fn force(self, profile_id: ProfileId) -> (mode: ProfileSelectionMode)
        ensures
            mode == (ProfileSelectionMode::Forced { profile_id, automatic: self }),
    {
        ProfileSelectionMode::Forced { profile_id, automatic: self }
    }
}

impl Clone for ProfileSelection {
    fn clone(&self) -> (r: Self)
        ensures
            r.equiv(self),
    {
        ProfileSelection { selected: self.selected.clone(), candidates: clone_candidates(&self.candidates) }
    }
}

/// Whether the capture profile came from detection or an explicit user override.
#[derive(Debug, PartialEq, Eq)]
pub enum ProfileSelectionMode {
    Auto(ProfileSelection),
    /// A user-requested reader plus the automatic result it replaced.
    ///
    /// The automatic selection remains available for diagnostics and later
    /// manager policy. The forced ID may be incompatible with the source; it is
    /// an instruction to attempt that mechanical interpretation, not a claim
    /// that the source has matching capabilities.
    Forced { profile_id: ProfileId, automatic: ProfileSelection },
}

/// The automatic selection a mode carries, whether or not it is forced.
pub open spec fn automatic_of(mode: ProfileSelectionMode) -> ProfileSelection {
    match mode {
        ProfileSelectionMode::Auto(selection) => selection,
        ProfileSelectionMode::Forced { automatic, .. } => automatic,
    }
}

impl ProfileSelectionMode {
    /// Returns the automatic result, including when a user override is active.
    pub fn automatic(&self) -> (r: &ProfileSelection)
        ensures
            *r == automatic_of(*self),
    {
        match self {
            ProfileSelectionMode::Auto(selection) => selection,
            ProfileSelectionMode::Forced { automatic, .. } => automatic,
        }
    }

    /// Returns the explicit capture choice, if one replaced automatic selection.
    pub fn forced_profile(&self) -> (r: Option<&ProfileId>)
        ensures
            match *self {
                ProfileSelectionMode::Auto(_) => r is None,
                ProfileSelectionMode::Forced { profile_id, .. } => r == Some(&profile_id),
            },
    {
        match self {
            ProfileSelectionMode::Auto(_) => None,
            ProfileSelectionMode::Forced { profile_id, .. } => Some(profile_id),
        }
    }
}

impl Clone for ProfileSelectionMode {
    fn clone(&self) -> (r: Self)
        ensures
            automatic_of(r).equiv(&automatic_of(*self)),
            match (r, *self) {
                (ProfileSelectionMode::Auto(_), ProfileSelectionMode::Auto(_)) => true,
                (
                    ProfileSelectionMode::Forced { profile_id: a, .. },
                    ProfileSelectionMode::Forced { profile_id: b, .. },
                ) => a == b,
                _ => false,
            },
    {
        match self {
            ProfileSelectionMode::Auto(selection) => ProfileSelectionMode::Auto(selection.clone()),
            ProfileSelectionMode::Forced { profile_id, automatic } => ProfileSelectionMode::Forced {
                profile_id: profile_id.clone(),
                automatic: automatic.clone(),
            },
        }
    }
}

/// Policy passed to the later routing layer without performing any routing here.
///
/// `requested_output_profile` is intentionally not validated against the source.
/// A fight stick may be routed to a DualSense-shaped virtual target, for example.
#[derive(Debug, PartialEq, Eq)]
pub struct DeviceProfileAssignment {
    pub capture: ProfileSelectionMode,
    pub requested_output_profile: Option<ProfileId>,
}

/// The rule `Iterator::max_by_key` picks among the matching rules: the last
/// one of greatest specificity.
pub open spec fn chosen_rule(rules: Seq<ProfileMatch>, device: DeviceDescriptor) -> Option<
    ProfileMatch,
>
    decreases rules.len(),
{
    if rules.len() == 0 {
        None
    } else {
        let prev = chosen_rule(rules.drop_last(), device);
        let rule = rules.last();
        if rule_matches(rule, device) && (prev matches Some(p) ==> rule_specificity(rule)
            >= rule_specificity(p)) {
            Some(rule)
        } else {
            prev
        }
    }
}

/// The evidence a chosen rule records.
pub open spec fn rule_evidence(rule: ProfileMatch, device: DeviceDescriptor) -> Seq<ProfileEvidence> {
    (if rule.vendor_id is Some || rule.product_id is Some {
        seq![ProfileEvidence::IdentityMatch]
    } else {
        seq![]
    }) + (if rule.transport is Some {
        seq![ProfileEvidence::TransportMatch(device.transport)]
    } else {
        seq![]
    })
}

/// The candidate a profile offers with the specificity of the rule that
/// chose it: none unless some matching rule constrains at least one field;
/// `Strong` for two or three constrained fields, else `Tentative`.
pub open spec fn ranked_candidate(profile: CaptureProfile, device: DeviceDescriptor) -> Option<
    (int, CandidateModel),
> {
    match chosen_rule(profile.matches@, device) {
        None => None,
        Some(rule) => if rule_specificity(rule) == 0 {
            None
        } else {
            Some(
                (
                    rule_specificity(rule),
                    CandidateModel {
                        id: profile.id@,
                        family: profile.family,
                        confidence: if rule_specificity(rule) >= 2 {
                            DetectionConfidence::Strong
                        } else {
                            DetectionConfidence::Tentative
                        },
                        evidence: rule_evidence(rule, device),
                    },
                ),
            )
        },
    }
}

/// The candidate a profile offers, if any.
pub open spec fn candidate_for(profile: CaptureProfile, device: DeviceDescriptor) -> Option<
    CandidateModel,
> {
    match ranked_candidate(profile, device) {
        Some(p) => Some(p.1),
        None => None,
    }
}

/// The ranked candidates of every profile that offers one, in catalog order.
pub open spec fn matched_ranked(profiles: Seq<CaptureProfile>, device: DeviceDescriptor) -> Seq<
    (int, CandidateModel),
>
    decreases profiles.len(),
{
    if profiles.len() == 0 {
        seq![]
    } else {
        let rest = matched_ranked(profiles.drop_last(), device);
        match ranked_candidate(profiles.last(), device) {
            Some(c) => rest.push(c),
            None => rest,
        }
    }
}

/// Candidate order: the more specific matching rule first, then ascending profile ID.
pub open spec fn ranked_le() -> spec_fn((int, CandidateModel), (int, CandidateModel)) -> bool {
    |a: (int, CandidateModel), b: (int, CandidateModel)|
        a.0 > b.0 || (a.0 == b.0 && !seq_lt(b.1.id, a.1.id))
}

/// The candidates of ranked candidates, in order.
pub open spec fn unranked(v: Seq<(int, CandidateModel)>) -> Seq<CandidateModel> {
    v.map_values(|p: (int, CandidateModel)| p.1)
}

/// The SDL joystick fallback candidate for the given profile text.
pub open spec fn fallback_candidate(sdl: Seq<char>) -> CandidateModel {
    CandidateModel {
        id: sdl,
        family: CaptureProfileFamily::SdlJoystick,
        confidence: DetectionConfidence::Fallback,
        evidence: seq![ProfileEvidence::GenericFallback],
    }
}

/// The detector's candidate list: matched candidates, most specific first
/// and then by profile ID (stable), then the fallback.
pub open spec fn detect_spec(
    profiles: Seq<CaptureProfile>,
    sdl: Seq<char>,
    device: DeviceDescriptor,
) -> Seq<CandidateModel> {
    unranked(sort_by(matched_ranked(profiles, device), ranked_le())).push(fallback_candidate(sdl))
}

/// Pure, deterministic selector suitable for fixtures and agent-authored profile catalogs.
#[derive(Debug)]
pub struct AutoProfileDetector {
    profiles: Vec<CaptureProfile>,
    sdl_joystick: ProfileId,
}

impl Clone for AutoProfileDetector {
    fn clone(&self) -> (r: Self)
        ensures
            r.catalog() == self.catalog(),
            r.fallback() == self.fallback(),
    {
        let mut profiles: Vec<CaptureProfile> = Vec::new();
        let mut i: usize = 0;
        while i < self.profiles.len()
            invariant
                i <= self.profiles@.len(),
                profiles@.len() == i,
                forall|k: int| 0 <= k < i ==> profile_model(#[trigger] profiles@[k]) == profile_model(self.profiles@[k]),
            decreases self.profiles@.len() - i,
        {
            let ghost prev = profiles@;
            let p = self.profiles[i].clone();
            assert(profile_model(p) == profile_model(self.profiles@[i as int]));
            profiles.push(p);
            assert forall|k: int| 0 <= k <= i implies profile_model(#[trigger] profiles@[k]) == profile_model(self.profiles@[k]) by {
                if k < i {
                    assert(profiles@[k] == prev[k]);
                }
            }
            i = i + 1;
        }
        let r = AutoProfileDetector { profiles, sdl_joystick: self.sdl_joystick.clone() };
        assert(r.catalog() =~= self.catalog());
        r
    }
}

/// A catalog entry's model: its profile text, family and rules.
pub open spec fn profile_model(p: CaptureProfile) -> (Seq<char>, CaptureProfileFamily, Seq<ProfileMatch>) {
    (p.id@, p.family, p.matches@)
}

impl AutoProfileDetector {
    /// The registered profiles, by model.
    pub closed spec fn catalog(&self) -> Seq<(Seq<char>, CaptureProfileFamily, Seq<ProfileMatch>)> {
        self.profiles@.map_values(|p: CaptureProfile| profile_model(p))
    }

    /// The profile text of the SDL joystick fallback.
    pub closed spec fn fallback(&self) -> Seq<char> {
        self.sdl_joystick@
    }

    /// The candidates this detector offers for `device`.
    pub closed spec fn candidates_for(&self, device: DeviceDescriptor) -> Seq<CandidateModel> {
        detect_spec(self.profiles@, self.sdl_joystick@, device)
    }

    /// Creates a selector. `sdl_joystick` is always available as the final fallback.
    pub fn new(profiles: Vec<CaptureProfile>, sdl_joystick: ProfileId) -> (d: Self)
        ensures
            d.catalog() == profiles@.map_values(|p: CaptureProfile| profile_model(p)),
            d.fallback() == sdl_joystick@,
            forall|device: DeviceDescriptor| #[trigger] d.candidates_for(device) == detect_spec(
                profiles@,
                sdl_joystick@,
                device,
            ),
    {
        AutoProfileDetector { profiles, sdl_joystick }
    }

    /// Select the most specific passive profile; ties remain visible to the caller.
    ///
    /// Candidates are every profile with a matching rule that constrains some
    /// field, ordered by how many fields that rule constrains (most first) and
    /// then by profile ID, followed by the SDL joystick fallback. The selected
    /// candidate is the first of them.
    pub fn detect(&self, device: &DeviceDescriptor) -> (r: ProfileSelection)
        ensures
            candidates_view(r.candidates@) == self.candidates_for(*device),
            r.selected@ == candidates_view(r.candidates@)[0],
            candidates_view(r.candidates@).last() == fallback_candidate(self.fallback()),
            r.candidates@.len() >= 1,
    {
        let ghost profiles = self.profiles@;
        let mut sorted: Vec<(u8, ProfileCandidate)> = Vec::new();
        let mut i: usize = 0;
        while i < self.profiles.len()
            invariant
                i <= profiles.len(),
                profiles == self.profiles@,
                ranked_view(sorted@) == sort_by(
                    matched_ranked(profiles.subrange(0, i as int), *device),
                    ranked_le(),
                ),
            decreases profiles.len() - i,
        {
            let ghost prefix = profiles.subrange(0, i + 1);
            let ghost old_matched = matched_ranked(profiles.subrange(0, i as int), *device);
            assert(prefix.drop_last() =~= profiles.subrange(0, i as int));
            assert(prefix.last() == profiles[i as int]);
            let profile = &self.profiles[i];
            match candidate_of(profile, device) {
                Some(ranked) => {
                    let ghost cm = (ranked.0 as int, ranked.1@);
                    insert_ranked(&mut sorted, ranked);
                    let ghost new_matched = old_matched.push(cm);
                    assert(matched_ranked(prefix, *device) == new_matched);
                    assert(new_matched.drop_last() =~= old_matched);
                    assert(sort_by(new_matched, ranked_le()) == insert_by(
                        sort_by(old_matched, ranked_le()),
                        cm,
                        ranked_le(),
                    ));
                },
                None => {
                    assert(matched_ranked(prefix, *device) == old_matched);
                },
            }
            i = i + 1;
        }
        assert(profiles.subrange(0, i as int) =~= profiles);
        let ghost all = ranked_view(sorted@);
        let n = sorted.len();
        let mut candidates: Vec<ProfileCandidate> = Vec::new();
        let mut k: usize = 0;
        while sorted.len() > 0
            invariant
                k + sorted@.len() == n,
                n == all.len(),
                ranked_view(sorted@) == all.subrange(k as int, n as int),
                candidates_view(candidates@) == unranked(all.subrange(0, k as int)),
            decreases sorted@.len(),
        {
            let ghost before = sorted@;
            let (_, candidate) = sorted.remove(0);
            assert(ranked_view(sorted@) =~= ranked_view(before).subrange(1, before.len() as int));
            assert(ranked_view(before)[0] == all[k as int]);
            assert(candidate@ == all[k as int].1);
            let ghost prev = candidates@;
            candidates.push(candidate);
            assert(candidates_view(candidates@) =~= candidates_view(prev).push(candidate@));
            k = k + 1;
            assert(unranked(all.subrange(0, k as int)) =~= unranked(all.subrange(0, k - 1)).push(
                all[k - 1].1,
            ));
            assert(ranked_view(sorted@) =~= all.subrange(k as int, n as int));
        }
        assert(all.subrange(0, n as int) =~= all);
        let ghost head = candidates_view(candidates@);
        let mut evidence: Vec<ProfileEvidence> = Vec::new();
        evidence.push(ProfileEvidence::GenericFallback);
        let fallback = ProfileCandidate {
            profile_id: self.sdl_joystick.clone(),
            family: CaptureProfileFamily::SdlJoystick,
            confidence: DetectionConfidence::Fallback,
            evidence,
        };
        proof {
            assert(fallback.evidence@ =~= seq![ProfileEvidence::GenericFallback]);
        }
        candidates.push(fallback);
        assert(candidates_view(candidates@) =~= head.push(fallback_candidate(self.sdl_joystick@)));
        let selected = candidates[0].clone();
        assert(candidates_view(candidates@)[0] == candidates@[0]@);
        ProfileSelection { selected, candidates }
    }
}

/// Ranked candidates by model: the specificity and the candidate's model.
pub open spec fn ranked_view(v: Seq<(u8, ProfileCandidate)>) -> Seq<(int, CandidateModel)> {
    v.map_values(|p: (u8, ProfileCandidate)| (p.0 as int, p.1@))
}

/// The candidate one profile offers for a device, with its rule's specificity.
fn candidate_of(profile: &CaptureProfile, device: &DeviceDescriptor) -> (r: Option<(u8, ProfileCandidate)>)
    ensures
        match (r, ranked_candidate(*profile, *device)) {
            (Some(c), Some(m)) => c.0 as int == m.0 && c.1@ == m.1,
            (None, None) => true,
            _ => false,
        },
{
    let ghost rules = profile.matches@;
    let mut best: Option<ProfileMatch> = None;
    let mut j: usize = 0;
    while j < profile.matches.len()
        invariant
            j <= rules.len(),
            rules == profile.matches@,
            best == chosen_rule(rules.subrange(0, j as int), *device),
        decreases rules.len() - j,
    {
        let ghost prefix = rules.subrange(0, j + 1);
        assert(prefix.drop_last() =~= rules.subrange(0, j as int));
        let rule = profile.matches[j];
        if rule.matches(device) {
            match best {
                Some(current) => {
                    if rule.specificity() >= current.specificity() {
                        best = Some(rule);
                    }
                },
                None => {
                    best = Some(rule);
                },
            }
        }
        j = j + 1;
    }
    assert(rules.subrange(0, j as int) =~= rules);
    let rule = match best {
        Some(rule) => rule,
        None => {
            return None;
        },
    };
    let specificity = rule.specificity();
    if specificity == 0 {
        return None;
    }
    let confidence = if specificity >= 2 {
        DetectionConfidence::Strong
    } else {
        DetectionConfidence::Tentative
    };
    let mut evidence: Vec<ProfileEvidence> = Vec::new();
    if rule.vendor_id.is_some() || rule.product_id.is_some() {
        evidence.push(ProfileEvidence::IdentityMatch);
    }
    if rule.transport.is_some() {
        evidence.push(ProfileEvidence::TransportMatch(device.transport));
    }
    assert(evidence@ =~= rule_evidence(rule, *device));
    Some((
        specificity,
        ProfileCandidate { profile_id: profile.id.clone(), family: profile.family, confidence, evidence },
    ))
}

/// Whether `a` may stay before `b` in candidate order.
fn ranked_le_exec(a: &(u8, ProfileCandidate), b: &(u8, ProfileCandidate)) -> (r: bool)
    ensures
        r == (ranked_le())((a.0 as int, a.1@), (b.0 as int, b.1@)),
{
    a.0 > b.0 || (a.0 == b.0 && !b.1.profile_id.precedes(&a.1.profile_id))
}

/// Stable insertion of one ranked candidate into the ordered list.
fn insert_ranked(v: &mut Vec<(u8, ProfileCandidate)>, x: (u8, ProfileCandidate))
    ensures
        ranked_view(final(v)@) == insert_by(ranked_view(old(v)@), (x.0 as int, x.1@), ranked_le()),
{
    let ghost s = ranked_view(v@);
    let ghost xm = (x.0 as int, x.1@);
    let mut pos = v.len();
    while pos > 0 && !ranked_le_exec(&v[pos - 1], &x)
        invariant
            pos <= v@.len(),
            s == ranked_view(v@),
            xm == (x.0 as int, x.1@),
            forall|j: int| pos <= j < s.len() ==> !(ranked_le())(#[trigger] s[j], xm),
        decreases pos,
    {
        assert(s[pos - 1] == (v@[pos - 1].0 as int, v@[pos - 1].1@));
        pos = pos - 1;
    }
    proof {
        if pos > 0 {
            assert(s[pos - 1] == (v@[pos - 1].0 as int, v@[pos - 1].1@));
        }
        lemma_insert_by_split(s, xm, ranked_le(), pos as int);
    }
    v.insert(pos, x);
    assert(ranked_view(v@) =~= s.subrange(0, pos as int).push(xm) + s.subrange(
        pos as int,
        s.len() as int,
    ));
}

proof fn lemma_ranked_le_total_preorder()
    ensures
        is_total_preorder(ranked_le()),
{
    assert forall|a: (int, CandidateModel), b: (int, CandidateModel)| #[trigger]
        (ranked_le())(a, b) || (ranked_le())(b, a) by {
        lemma_seq_lt_total(a.1.id, b.1.id);
        if seq_lt(b.1.id, a.1.id) {
            lemma_seq_lt_asymmetric(b.1.id, a.1.id);
        }
    }
    assert forall|a: (int, CandidateModel), b: (int, CandidateModel), c: (int, CandidateModel)|
        #[trigger] (ranked_le())(a, b) && #[trigger] (ranked_le())(b, c) implies (ranked_le())(
        a,
        c,
    ) by {
        if a.0 == b.0 && b.0 == c.0 {
            if seq_lt(c.1.id, a.1.id) {
                lemma_seq_lt_total(b.1.id, a.1.id);
                lemma_seq_lt_total(c.1.id, b.1.id);
                if seq_lt(a.1.id, b.1.id) {
                    lemma_seq_lt_transitive(c.1.id, a.1.id, b.1.id);
                    if seq_lt(b.1.id, c.1.id) {
                        lemma_seq_lt_transitive(b.1.id, c.1.id, b.1.id);
                        lemma_seq_lt_irreflexive(b.1.id);
                    }
                }
            }
        }
    }
}

proof fn lemma_matched_ranked_shape(profiles: Seq<CaptureProfile>, device: DeviceDescriptor)
    ensures
        forall|c: (int, CandidateModel)| #[trigger] matched_ranked(profiles, device).contains(c) ==> {
            &&& (c.1.confidence == DetectionConfidence::Strong || c.1.confidence
                == DetectionConfidence::Tentative)
            &&& c.1.evidence.len() > 0
            &&& 1 <= c.0 <= 3
        },
    decreases profiles.len(),
{
    if profiles.len() > 0 {
        lemma_matched_ranked_shape(profiles.drop_last(), device);
        let rest = matched_ranked(profiles.drop_last(), device);
        match ranked_candidate(profiles.last(), device) {
            Some(m) => {
                assert forall|c: (int, CandidateModel)| #[trigger] rest.push(m).contains(c) implies {
                    &&& (c.1.confidence == DetectionConfidence::Strong || c.1.confidence
                        == DetectionConfidence::Tentative)
                    &&& c.1.evidence.len() > 0
                    &&& 1 <= c.0 <= 3
                } by {
                    if c != m {
                        let k = choose|k: int| 0 <= k < rest.push(m).len() && rest.push(m)[k] == c;
                        assert(rest[k] == c);
                        assert(rest.contains(c));
                    } else {
                        let rule = chosen_rule(profiles.last().matches@, device)->Some_0;
                        assert(rule.vendor_id is Some || rule.product_id is Some || rule.transport is Some);
                        let ev = rule_evidence(rule, device);
                        if rule.vendor_id is Some || rule.product_id is Some {
                            assert(ev[0] == ProfileEvidence::IdentityMatch);
                        } else {
                            assert(ev[0] == ProfileEvidence::TransportMatch(device.transport));
                        }
                        assert(c.1.evidence == ev);
                    }
                }
            },
            None => {},
        }
    }
}

proof fn lemma_matched_ranked_members(profiles: Seq<CaptureProfile>, device: DeviceDescriptor, k: int)
    requires
        0 <= k < profiles.len(),
        ranked_candidate(profiles[k], device) is Some,
    ensures
        matched_ranked(profiles, device).contains(ranked_candidate(profiles[k], device)->Some_0),
    decreases profiles.len(),
{
    let rest = matched_ranked(profiles.drop_last(), device);
    if k < profiles.len() - 1 {
        assert(profiles.drop_last()[k] == profiles[k]);
        lemma_matched_ranked_members(profiles.drop_last(), device, k);
        let c = ranked_candidate(profiles[k], device)->Some_0;
        let j = choose|j: int| 0 <= j < rest.len() && rest[j] == c;
        match ranked_candidate(profiles.last(), device) {
            Some(m) => {
                assert(rest.push(m)[j] == c);
            },
            None => {},
        }
    } else {
        let c = ranked_candidate(profiles[k], device)->Some_0;
        assert(rest.push(c)[rest.len() as int] == c);
    }
}

/// Passive detection is conservative: every candidate before the fallback comes
/// from explicit rule evidence (non-empty evidence, `Strong` or `Tentative`),
/// candidates are ordered by the specificity of their rule and then profile
/// ID, and no candidate claims `Verified`.
pub proof fn law_detection_is_conservative(
    profiles: Seq<CaptureProfile>,
    sdl: Seq<char>,
    device: DeviceDescriptor,
)
    ensures
        ({
            let ranked = sort_by(matched_ranked(profiles, device), ranked_le());
            let all = detect_spec(profiles, sdl, device);
            &&& all.last() == fallback_candidate(sdl)
            &&& all.drop_last() == unranked(ranked)
            &&& sorted_by(ranked, ranked_le())
            &&& forall|i: int|
                0 <= i < all.len() ==> (#[trigger] all[i]).confidence != DetectionConfidence::Verified
            &&& forall|i: int|
                0 <= i < all.len() - 1 ==> (#[trigger] all[i]).evidence.len() > 0 && all[i].confidence
                    != DetectionConfidence::Fallback
        }),
{
    broadcast use vstd::seq_lib::group_seq_properties;

    let matched = matched_ranked(profiles, device);
    let sorted = sort_by(matched, ranked_le());
    let all = unranked(sorted).push(fallback_candidate(sdl));
    lemma_ranked_le_total_preorder();
    lemma_sort_by_sorted(matched, ranked_le());
    lemma_matched_ranked_shape(profiles, device);
    assert(all.drop_last() =~= unranked(sorted));
    assert forall|i: int| 0 <= i < all.len() - 1 implies (#[trigger] all[i]).evidence.len() > 0
        && all[i].confidence != DetectionConfidence::Fallback && all[i].confidence
        != DetectionConfidence::Verified by {
        assert(all[i] == sorted[i].1);
        assert(sorted.contains(sorted[i]));
        assert(sorted.to_multiset().count(sorted[i]) > 0);
        assert(matched.contains(sorted[i]));
    }
}

/// The most specific matching profile is selected: when some profile offers a
/// candidate, the first candidate's rule constrains at least as many fields as
/// the rule of every profile that offers one.
pub proof fn law_most_specific_selected(profiles: Seq<CaptureProfile>, device: DeviceDescriptor, k: int)
    requires
        0 <= k < profiles.len(),
        ranked_candidate(profiles[k], device) is Some,
    ensures
        ({
            let ranked = sort_by(matched_ranked(profiles, device), ranked_le());
            &&& ranked.len() > 0
            &&& ranked[0].0 >= ranked_candidate(profiles[k], device)->Some_0.0
            &&& unranked(ranked)[0] == ranked[0].1
        }),
{
    broadcast use vstd::seq_lib::group_seq_properties;

    let matched = matched_ranked(profiles, device);
    let sorted = sort_by(matched, ranked_le());
    let c = ranked_candidate(profiles[k], device)->Some_0;
    lemma_matched_ranked_members(profiles, device, k);
    lemma_ranked_le_total_preorder();
    lemma_sort_by_sorted(matched, ranked_le());
    assert(matched.to_multiset().count(c) > 0);
    assert(sorted.to_multiset().count(c) > 0);
    assert(sorted.contains(c));
    let j = choose|j: int| 0 <= j < sorted.len() && sorted[j] == c;
    if j > 0 {
        assert((ranked_le())(sorted[0], sorted[j]));
    }
}

/// A forced capture choice keeps the automatic selection it replaced, and the
/// requested output profile is carried unchanged whatever the capture choice.
pub proof fn law_forcing_preserves_automatic(
    selection: ProfileSelection,
    forced: ProfileId,
    output: Option<ProfileId>,
)
    ensures
        automatic_of(ProfileSelectionMode::Forced { profile_id: forced, automatic: selection })
            == selection,
        (DeviceProfileAssignment {
            capture: ProfileSelectionMode::Forced { profile_id: forced, automatic: selection },
            requested_output_profile: output,
        }).requested_output_profile == output,
{
}


/// The rule that decides a profile's candidate is its most specific matching
/// rule: it matches the device, no matching rule is more specific, and no
/// later matching rule is as specific (the last of the most specific ones is
/// taken). There is none exactly when no rule matches.
pub proof fn law_chosen_rule_is_most_specific(rules: Seq<ProfileMatch>, device: DeviceDescriptor)
    ensures
        chosen_rule(rules, device) is None <==> forall|j: int|
            0 <= j < rules.len() ==> !rule_matches(#[trigger] rules[j], device),
        chosen_rule(rules, device) matches Some(rule) ==> exists|i: int|
            {
                &&& 0 <= i < rules.len()
                &&& #[trigger] rules[i] == rule
                &&& rule_matches(rule, device)
                &&& forall|j: int|
                    0 <= j < rules.len() && rule_matches(#[trigger] rules[j], device) ==> rule_specificity(
                        rules[j],
                    ) <= rule_specificity(rule)
                &&& forall|j: int|
                    i < j < rules.len() && rule_matches(#[trigger] rules[j], device) ==> rule_specificity(
                        rules[j],
                    ) < rule_specificity(rule)
            },
    decreases rules.len(),
{
    if rules.len() > 0 {
        let t = rules.drop_last();
        law_chosen_rule_is_most_specific(t, device);
        let last = rules.last();
        assert forall|j: int| 0 <= j < t.len() implies t[j] == rules[j] by {}
        match chosen_rule(t, device) {
            None => {
                if rule_matches(last, device) {
                    let i = rules.len() - 1;
                    assert(rules[i] == last);
                    assert forall|j: int|
                        0 <= j < rules.len() && rule_matches(#[trigger] rules[j], device) implies rule_specificity(
                            rules[j],
                        ) <= rule_specificity(last) by {
                        if j < t.len() {
                            assert(!rule_matches(t[j], device));
                        }
                    }
                } else {
                    assert forall|j: int| 0 <= j < rules.len() implies !rule_matches(#[trigger] rules[j], device) by {
                        if j < t.len() {
                            assert(!rule_matches(t[j], device));
                        }
                    }
                }
            },
            Some(p) => {
                let i = choose|i: int|
                    {
                        &&& 0 <= i < t.len()
                        &&& #[trigger] t[i] == p
                        &&& rule_matches(p, device)
                        &&& forall|j: int|
                            0 <= j < t.len() && rule_matches(#[trigger] t[j], device) ==> rule_specificity(t[j])
                                <= rule_specificity(p)
                        &&& forall|j: int|
                            i < j < t.len() && rule_matches(#[trigger] t[j], device) ==> rule_specificity(t[j])
                                < rule_specificity(p)
                    };
                assert(rules[i] == p);
                if rule_matches(last, device) && rule_specificity(last) >= rule_specificity(p) {
                    let n = rules.len() - 1;
                    assert(rules[n] == last);
                    assert forall|j: int|
                        0 <= j < rules.len() && rule_matches(#[trigger] rules[j], device) implies rule_specificity(
                            rules[j],
                        ) <= rule_specificity(last) by {
                        if j < t.len() {
                            assert(rules[j] == t[j]);
                        }
                    }
                } else {
                    assert forall|j: int|
                        0 <= j < rules.len() && rule_matches(#[trigger] rules[j], device) implies rule_specificity(
                            rules[j],
                        ) <= rule_specificity(p) by {
                        if j < t.len() {
                            assert(rules[j] == t[j]);
                        }
                    }
                    assert forall|j: int|
                        i < j < rules.len() && rule_matches(#[trigger] rules[j], device) implies rule_specificity(
                            rules[j],
                        ) < rule_specificity(p) by {
                        if j < t.len() {
                            assert(rules[j] == t[j]);
                        }
                    }
                }
            },
        }
    }
}

/// A profile's candidate is ranked by the specificity of its most specific
/// matching rule, and is `Strong` exactly when that rule constrains two or
/// three fields; its evidence names what that rule matched: the identity
/// when it constrains the vendor or product, and the device's transport when
/// it constrains the transport, and nothing else.
pub proof fn law_candidate_rank_is_best_specificity(profile: CaptureProfile, device: DeviceDescriptor)
    ensures
        ranked_candidate(profile, device) matches Some(c) ==> {
            &&& c.1.id == profile.id@
            &&& exists|i: int|
                0 <= i < profile.matches@.len() && rule_matches(#[trigger] profile.matches@[i], device)
                    && rule_specificity(profile.matches@[i]) == c.0 && (c.1.evidence.contains(
                    ProfileEvidence::IdentityMatch,
                ) <==> (profile.matches@[i].vendor_id is Some || profile.matches@[i].product_id is Some))
                    && (c.1.evidence.contains(ProfileEvidence::TransportMatch(device.transport))
                    <==> profile.matches@[i].transport is Some) && c.1.evidence.len() <= 2 && (forall|k: int|
                    0 <= k < c.1.evidence.len() ==> c.1.evidence[k] == ProfileEvidence::IdentityMatch
                        || c.1.evidence[k] == ProfileEvidence::TransportMatch(device.transport))
            &&& forall|j: int|
                0 <= j < profile.matches@.len() && rule_matches(#[trigger] profile.matches@[j], device)
                    ==> rule_specificity(profile.matches@[j]) <= c.0
            &&& (c.1.confidence == DetectionConfidence::Strong <==> c.0 >= 2)
        },
{
    law_chosen_rule_is_most_specific(profile.matches@, device);
    if let Some(rule) = chosen_rule(profile.matches@, device) {
        let ev = rule_evidence(rule, device);
        if rule.vendor_id is Some || rule.product_id is Some {
            assert(ev[0] == ProfileEvidence::IdentityMatch);
        }
        if rule.transport is Some {
            assert(ev[ev.len() - 1] == ProfileEvidence::TransportMatch(device.transport));
        }
    }
}

} // verus!
