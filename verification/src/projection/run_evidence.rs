//! Reports on single runs of projections: the same run gives the same report.

use super::cache_identity::sort_kinds;
use super::flow::{
    Freshness, ProjectionCacheObservation, ProjectionObservedFreshness, ProjectionOutcome,
};
use crate::error::StoreError;
use crate::event::EventKind;
use crate::hlc::HlcPoint;
use vstd::prelude::*;

verus! {

/// Version of the reports.
pub const PROJECTION_RUN_REPORT_SCHEMA_VERSION: u16 = 1;

/// A content hash.
pub type ProjectionRunHash = [u8; 32];

/// Where the events of a projection come from.
#[derive(Debug, PartialEq, Eq, PartialOrd, Ord)]
pub enum ProjectionSourceRef {
    /// An entity.
    Entity {
        /// The entity's name.
        entity: String,
    },
    /// A kind that the projection consumes.
    RelevantKind {
        /// The kind's category.
        category: u8,
        /// The kind's type.
        type_id: u16,
    },
}

/// Up to where a run replays.
#[derive(Clone, Copy, Debug, PartialEq, Eq, PartialOrd, Ord, Structural)]
pub enum ProjectionRunReplayMode {
    /// Up to what is visible now.
    Current,
}

/// How fresh the projection had to be.
#[derive(Clone, Copy, Debug, PartialEq, Eq, PartialOrd, Ord, Structural)]
pub enum ProjectionRunRequestedFreshness {
    /// As fresh as the index.
    Consistent,
    /// Younger than a bound.
    MaybeStale {
        /// The bound in milliseconds.
        max_stale_ms: u64,
    },
}

/// How fresh the state was.
#[derive(Debug, PartialEq, Eq, PartialOrd, Ord)]
pub enum ProjectionRunFreshnessStatus {
    /// As fresh as the index.
    Fresh,
    /// Older than the index, as was allowed.
    StaleAllowed,
    /// There was no state.
    NotApplicable,
    /// The run failed.
    Unavailable {
        /// Why.
        reason: String,
    },
}

/// What became of the cache.
#[derive(Debug, PartialEq, Eq, PartialOrd, Ord)]
pub enum ProjectionRunCacheStatus {
    /// Cached state was served or extended.
    Hit,
    /// There was no cached state that could be used.
    Miss,
    /// The cache was not asked.
    Bypassed,
    /// The cache could not answer.
    Unavailable {
        /// Why not.
        reason: String,
    },
}

/// Whether a checkpoint took part.
#[derive(Clone, Copy, Debug, PartialEq, Eq, PartialOrd, Ord, Structural)]
pub enum ProjectionRunCheckpointRef {
    /// None did.
    NotApplicable,
}

/// The hash of the state.
#[derive(Debug, PartialEq, Eq, PartialOrd, Ord)]
pub enum ProjectionRunOutputHash {
    /// It is known.
    Known(ProjectionRunHash),
    /// There was no state.
    NotApplicable,
    /// The state could not be hashed.
    Unavailable {
        /// Why not.
        reason: String,
    },
}

/// What kind of boundary a run replayed up to.
#[derive(Clone, Copy, Debug, PartialEq, Eq, PartialOrd, Ord, Structural)]
pub enum ProjectionRunFrontierKind {
    /// The visible events.
    Visible,
}

/// Up to where a run replayed.
#[derive(Clone, Copy, Debug, PartialEq, Eq, PartialOrd, Ord, Structural)]
pub struct ProjectionRunInputFrontier {
    /// The kind of boundary.
    pub kind: ProjectionRunFrontierKind,
    /// Wall clock milliseconds of the boundary.
    pub wall_ms: u64,
    /// Sequence of the boundary.
    pub global_sequence: u64,
}

/// What is worth noting of a run.
#[derive(Clone, Copy, Debug, PartialEq, Eq, PartialOrd, Ord, Structural)]
pub enum ProjectionRunFinding {
    /// How fresh the state was is not known.
    ObservedFreshnessUnavailable,
    /// Up to where the run replayed is not known.
    InputFrontierUnknown,
    /// The hash of the state is not known.
    OutputHashUnavailable,
    /// What became of the cache is not known.
    CacheStatusUnavailable,
    /// No partial state is ever handed out.
    PartialVisibilityNotApplicable,
    /// The run failed.
    ProjectionFailed,
    /// The state was older than the index.
    StaleUsed,
}

/// What a report says.
#[derive(Debug, PartialEq, Eq)]
pub struct ProjectionRunReportBody {
    /// Version of the report.
    pub schema_version: u16,
    /// The projection.
    pub projection_id: String,
    /// Where its events come from.
    pub source_refs: Vec<ProjectionSourceRef>,
    /// Up to where it replays.
    pub replay_mode: ProjectionRunReplayMode,
    /// How fresh it had to be.
    pub requested_freshness: ProjectionRunRequestedFreshness,
    /// How fresh it was.
    pub observed_freshness: ProjectionRunFreshnessStatus,
    /// Up to where it replayed.
    pub input_frontier: Option<ProjectionRunInputFrontier>,
    /// The hash of the state.
    pub output_hash: ProjectionRunOutputHash,
    /// What became of the cache.
    pub cache_status: ProjectionRunCacheStatus,
    /// Whether a checkpoint took part.
    pub checkpoint_ref: ProjectionRunCheckpointRef,
    /// What is worth noting.
    pub findings: Vec<ProjectionRunFinding>,
}

/// A report.
#[derive(Debug, PartialEq, Eq)]
pub struct ProjectionRunEvidenceReport {
    /// What it says.
    pub body: ProjectionRunReportBody,
    /// The hash of what it says.
    pub body_hash: ProjectionRunHash,
    /// When it was made, where that is noted.
    pub generated_at_unix_ms: Option<u64>,
    /// What made it, where that is noted.
    pub batpak_version: Option<String>,
    /// Texts for people.
    pub diagnostics: Vec<String>,
}

/// Why there is no report of a successful run.
#[derive(Debug)]
#[non_exhaustive]
pub enum ProjectionRunReportError {
    /// The report could not be hashed.
    BodyEncoding {
        /// Why not.
        message: String,
    },
    /// The run failed. The report says so.
    ProjectionFailed {
        /// Why.
        source: StoreError,
        /// The report.
        report: Box<ProjectionRunEvidenceReport>,
    },
}

impl ProjectionRunReportError {
    /// The error in words.
    pub fn message(&self) -> (text: String)
        ensures
            text@ == match self {
                ProjectionRunReportError::BodyEncoding { message } =>
                    "projection run report body encoding failed: "@ + message@,
                ProjectionRunReportError::ProjectionFailed { source, .. } =>
                    "projection run failed: "@ + source.text(),
            },
    {
        match self {
            ProjectionRunReportError::BodyEncoding { message } => {
                let mut text = "projection run report body encoding failed: ".to_owned();
                text.append(message.as_str());
                text
            },
            ProjectionRunReportError::ProjectionFailed { source, .. } => {
                let mut text = "projection run failed: ".to_owned();
                let cause = source.message();
                text.append(cause.as_str());
                text
            },
        }
    }
}

/// The numbers of kinds, as references.
pub open spec fn kind_refs(numbers: Seq<u16>) -> Seq<ProjectionSourceRef> {
    numbers.map_values(
        |n: u16|
            ProjectionSourceRef::RelevantKind {
                category: (n / 4096) as u8,
                type_id: (n % 4096) as u16,
            },
    )
}

/// The references name the entity, then the kinds in ascending order.
pub open spec fn names_sources(
    refs: Seq<ProjectionSourceRef>,
    entity: Seq<char>,
    kinds: Seq<EventKind>,
) -> bool {
    &&& refs.len() > 0
    &&& refs[0] matches ProjectionSourceRef::Entity { entity: name } && name@ == entity
    &&& refs.skip(1) == kind_refs(super::cache_identity::sorted_raws(kinds))
}

/// Where the events of a projection come from: the entity, then the kinds in
/// ascending order.
pub fn source_refs(entity: &str, kinds: &[EventKind]) -> (refs: Vec<ProjectionSourceRef>)
    ensures
        names_sources(refs@, entity@, kinds@),
{
    let sorted = sort_kinds(kinds);
    let mut refs: Vec<ProjectionSourceRef> = Vec::new();
    refs.push(ProjectionSourceRef::Entity { entity: entity.to_owned() });
    let mut i: usize = 0;
    assert(refs@.skip(1) =~= kind_refs(sorted@.take(0)));
    while i < sorted.len()
        invariant
            i <= sorted@.len(),
            refs@.len() == i + 1,
            refs@[0] matches ProjectionSourceRef::Entity { entity: name } && name@ == entity@,
            refs@.skip(1) == kind_refs(sorted@.take(i as int)),
        decreases sorted@.len() - i,
    {
        let n: u16 = sorted[i];
        let ghost before = refs@;
        refs.push(
            ProjectionSourceRef::RelevantKind {
                category: (n / 4096) as u8,
                type_id: n % 4096,
            },
        );
        i += 1;
        assert(refs@.skip(1) =~= before.skip(1).push(refs@.last()));
        assert(refs@.skip(1) =~= kind_refs(sorted@.take(i as int)));
    }
    assert(sorted@.take(sorted@.len() as int) =~= sorted@);
    refs
}

/// How fresh the projection had to be.
pub fn map_requested_freshness(freshness: &Freshness) -> (r: ProjectionRunRequestedFreshness)
    ensures
        r == match freshness {
            Freshness::Consistent => ProjectionRunRequestedFreshness::Consistent,
            Freshness::MaybeStale { max_stale_ms } => ProjectionRunRequestedFreshness::MaybeStale {
                max_stale_ms: *max_stale_ms,
            },
        },
{
    match freshness {
        Freshness::Consistent => ProjectionRunRequestedFreshness::Consistent,
        Freshness::MaybeStale { max_stale_ms } => ProjectionRunRequestedFreshness::MaybeStale {
            max_stale_ms: *max_stale_ms,
        },
    }
}

/// How fresh the state was.
pub fn map_observed_freshness(value: ProjectionObservedFreshness) -> (r:
    ProjectionRunFreshnessStatus)
    ensures
        r == match value {
            ProjectionObservedFreshness::Fresh => ProjectionRunFreshnessStatus::Fresh,
            ProjectionObservedFreshness::StaleAllowed => ProjectionRunFreshnessStatus::StaleAllowed,
            ProjectionObservedFreshness::NotApplicable =>
                ProjectionRunFreshnessStatus::NotApplicable,
        },
{
    match value {
        ProjectionObservedFreshness::Fresh => ProjectionRunFreshnessStatus::Fresh,
        ProjectionObservedFreshness::StaleAllowed => ProjectionRunFreshnessStatus::StaleAllowed,
        ProjectionObservedFreshness::NotApplicable => ProjectionRunFreshnessStatus::NotApplicable,
    }
}

/// The status says what was observed of the cache.
pub open spec fn cache_status_is(
    status: ProjectionRunCacheStatus,
    value: ProjectionCacheObservation,
) -> bool {
    match value {
        ProjectionCacheObservation::Hit => status is Hit,
        ProjectionCacheObservation::Miss => status is Miss,
        ProjectionCacheObservation::Bypassed => status is Bypassed,
        ProjectionCacheObservation::Unavailable { reason } => status matches
            ProjectionRunCacheStatus::Unavailable { reason: text } && text@ == reason@,
    }
}

/// What became of the cache.
pub fn map_cache_status(value: ProjectionCacheObservation) -> (r: ProjectionRunCacheStatus)
    ensures
        cache_status_is(r, value),
{
    match value {
        ProjectionCacheObservation::Hit => ProjectionRunCacheStatus::Hit,
        ProjectionCacheObservation::Miss => ProjectionRunCacheStatus::Miss,
        ProjectionCacheObservation::Bypassed => ProjectionRunCacheStatus::Bypassed,
        ProjectionCacheObservation::Unavailable { reason } =>
            ProjectionRunCacheStatus::Unavailable { reason: reason.to_owned() },
    }
}

/// Up to where a run replayed, by the clock point of what its state has seen.
pub open spec fn frontier_of(point: Option<HlcPoint>) -> Option<ProjectionRunInputFrontier> {
    match point {
        Some(point) => Some(
            ProjectionRunInputFrontier {
                kind: ProjectionRunFrontierKind::Visible,
                wall_ms: point.wall_ms,
                global_sequence: point.global_sequence,
            },
        ),
        None => None,
    }
}

/// Up to where a run replayed.
pub fn map_input_frontier(point: HlcPoint) -> (r: ProjectionRunInputFrontier)
    ensures
        Some(r) == frontier_of(Some(point)),
{
    ProjectionRunInputFrontier {
        kind: ProjectionRunFrontierKind::Visible,
        wall_ms: point.wall_ms,
        global_sequence: point.global_sequence,
    }
}

/// The hash of a state that may be missing, and whose hashing may have failed.
pub fn output_hash_for_state(hashed: Option<Result<ProjectionRunHash, String>>) -> (r:
    ProjectionRunOutputHash)
    ensures
        r == match hashed {
            None => ProjectionRunOutputHash::NotApplicable,
            Some(Ok(hash)) => ProjectionRunOutputHash::Known(hash),
            Some(Err(reason)) => ProjectionRunOutputHash::Unavailable { reason },
        },
{
    match hashed {
        None => ProjectionRunOutputHash::NotApplicable,
        Some(Ok(hash)) => ProjectionRunOutputHash::Known(hash),
        Some(Err(reason)) => ProjectionRunOutputHash::Unavailable { reason },
    }
}

/// The finding, where it is due.
pub open spec fn due(condition: bool, finding: ProjectionRunFinding) -> Seq<ProjectionRunFinding> {
    if condition {
        seq![finding]
    } else {
        Seq::empty()
    }
}

/// What is worth noting of a run, in a fixed order.
pub open spec fn findings_of(
    failed: bool,
    observed_freshness: ProjectionRunFreshnessStatus,
    input_frontier: Option<ProjectionRunInputFrontier>,
    output_hash: ProjectionRunOutputHash,
    cache_status: ProjectionRunCacheStatus,
) -> Seq<ProjectionRunFinding> {
    due(
        observed_freshness is Unavailable,
        ProjectionRunFinding::ObservedFreshnessUnavailable,
    ) + due(
        input_frontier is None && !(observed_freshness is NotApplicable),
        ProjectionRunFinding::InputFrontierUnknown,
    ) + due(output_hash is Unavailable, ProjectionRunFinding::OutputHashUnavailable) + due(
        cache_status is Unavailable,
        ProjectionRunFinding::CacheStatusUnavailable,
    ) + seq![ProjectionRunFinding::PartialVisibilityNotApplicable] + due(
        failed,
        ProjectionRunFinding::ProjectionFailed,
    ) + due(observed_freshness is StaleAllowed, ProjectionRunFinding::StaleUsed)
}

fn note_if(
    findings: &mut Vec<ProjectionRunFinding>,
    condition: bool,
    finding: ProjectionRunFinding,
)
    ensures
        final(findings)@ == old(findings)@ + due(condition, finding),
{
    let ghost before = findings@;
    if condition {
        findings.push(finding);
    }
    assert(findings@ =~= before + due(condition, finding));
}

/// What is worth noting of a run, in a fixed order.
pub fn run_findings(
    failed: bool,
    observed_freshness: &ProjectionRunFreshnessStatus,
    input_frontier: Option<ProjectionRunInputFrontier>,
    output_hash: &ProjectionRunOutputHash,
    cache_status: &ProjectionRunCacheStatus,
) -> (findings: Vec<ProjectionRunFinding>)
    ensures
        findings@ == findings_of(
            failed,
            *observed_freshness,
            input_frontier,
            *output_hash,
            *cache_status,
        ),
{
    let (freshness_unknown, stale, has_state) = match observed_freshness {
        ProjectionRunFreshnessStatus::Unavailable { .. } => (true, false, true),
        ProjectionRunFreshnessStatus::StaleAllowed => (false, true, true),
        ProjectionRunFreshnessStatus::NotApplicable => (false, false, false),
        ProjectionRunFreshnessStatus::Fresh => (false, false, true),
    };
    let hash_unknown = match output_hash {
        ProjectionRunOutputHash::Unavailable { .. } => true,
        _ => false,
    };
    let cache_unknown = match cache_status {
        ProjectionRunCacheStatus::Unavailable { .. } => true,
        _ => false,
    };
    let mut findings: Vec<ProjectionRunFinding> = Vec::new();
    note_if(
        &mut findings,
        freshness_unknown,
        ProjectionRunFinding::ObservedFreshnessUnavailable,
    );
    note_if(
        &mut findings,
        input_frontier.is_none() && has_state,
        ProjectionRunFinding::InputFrontierUnknown,
    );
    note_if(&mut findings, hash_unknown, ProjectionRunFinding::OutputHashUnavailable);
    note_if(&mut findings, cache_unknown, ProjectionRunFinding::CacheStatusUnavailable);
    findings.push(ProjectionRunFinding::PartialVisibilityNotApplicable);
    note_if(&mut findings, failed, ProjectionRunFinding::ProjectionFailed);
    note_if(&mut findings, stale, ProjectionRunFinding::StaleUsed);
    assert(findings@ =~= findings_of(
        failed,
        *observed_freshness,
        input_frontier,
        *output_hash,
        *cache_status,
    ));
    findings
}

/// What a report of a run says, whatever came of the run.
pub open spec fn body_is(
    body: ProjectionRunReportBody,
    projection_id: Seq<char>,
    entity: Seq<char>,
    kinds: Seq<EventKind>,
    freshness: Freshness,
    failed: bool,
) -> bool {
    &&& body.schema_version == PROJECTION_RUN_REPORT_SCHEMA_VERSION
    &&& body.projection_id@ == projection_id
    &&& names_sources(body.source_refs@, entity, kinds)
    &&& body.replay_mode is Current
    &&& body.requested_freshness == match freshness {
        Freshness::Consistent => ProjectionRunRequestedFreshness::Consistent,
        Freshness::MaybeStale { max_stale_ms } => ProjectionRunRequestedFreshness::MaybeStale {
            max_stale_ms,
        },
    }
    &&& body.checkpoint_ref is NotApplicable
    &&& body.findings@ == findings_of(
        failed,
        body.observed_freshness,
        body.input_frontier,
        body.output_hash,
        body.cache_status,
    )
}

/// What a report of a successful run says.
pub open spec fn says_success(
    body: ProjectionRunReportBody,
    observation: super::flow::FinishObservation,
    input_frontier: Option<HlcPoint>,
    hashed: Option<Result<ProjectionRunHash, String>>,
) -> bool {
    &&& body.observed_freshness == match observation.observed_freshness {
        ProjectionObservedFreshness::Fresh => ProjectionRunFreshnessStatus::Fresh,
        ProjectionObservedFreshness::StaleAllowed => ProjectionRunFreshnessStatus::StaleAllowed,
        ProjectionObservedFreshness::NotApplicable => ProjectionRunFreshnessStatus::NotApplicable,
    }
    &&& cache_status_is(body.cache_status, observation.cache_status)
    &&& body.input_frontier == frontier_of(input_frontier)
    &&& body.output_hash == match hashed {
        None => ProjectionRunOutputHash::NotApplicable,
        Some(Ok(hash)) => ProjectionRunOutputHash::Known(hash),
        Some(Err(reason)) => ProjectionRunOutputHash::Unavailable { reason },
    }
}

/// What a report of a failed run says.
pub open spec fn says_failure(body: ProjectionRunReportBody) -> bool {
    &&& body.observed_freshness matches ProjectionRunFreshnessStatus::Unavailable { reason: a }
        && a@ == "projection_failed"@
    &&& body.cache_status matches ProjectionRunCacheStatus::Unavailable { reason: b } && b@
        == "projection_failed"@
    &&& body.input_frontier is None
    &&& body.output_hash matches ProjectionRunOutputHash::Unavailable { reason: c } && c@
        == "projection_failed"@
}

/// A report over a body, with its hash.
pub open spec fn report_is(
    report: ProjectionRunEvidenceReport,
    body: ProjectionRunReportBody,
    hash: ProjectionRunHash,
) -> bool {
    &&& report.body == body
    &&& report.body_hash == hash
    &&& report.generated_at_unix_ms is None
    &&& report.batpak_version is None
}

/// A report, where its body could be hashed.
pub fn build_report(
    body: ProjectionRunReportBody,
    diagnostics: Vec<String>,
    hash_body: impl Fn(&ProjectionRunReportBody) -> Result<ProjectionRunHash, String>,
) -> (r: Result<ProjectionRunEvidenceReport, ProjectionRunReportError>)
    requires
        call_requires(hash_body, (&body,)),
    ensures
        exists|hashed: Result<ProjectionRunHash, String>| #[trigger]
            call_ensures(hash_body, (&body,), hashed) && match (hashed, r) {
                (Ok(hash), Ok(report)) => report_is(report, body, hash) && report.diagnostics
                    == diagnostics,
                (
                    Err(text),
                    Err(ProjectionRunReportError::BodyEncoding { message }),
                ) => message == text,
                _ => false,
            },
{
    let hashed = hash_body(&body);
    match hashed {
        Ok(body_hash) => Ok(
            ProjectionRunEvidenceReport {
                body,
                body_hash,
                generated_at_unix_ms: None,
                batpak_version: None,
                diagnostics,
            },
        ),
        Err(message) => Err(ProjectionRunReportError::BodyEncoding { message }),
    }
}

/// The state and the report of a run. A failed run has a report too, beside its
/// error.
pub fn project_run_evidence<T>(
    projection_id: String,
    entity: &str,
    kinds: &[EventKind],
    freshness: &Freshness,
    run: Result<ProjectionOutcome<T>, StoreError>,
    hashed: Option<Result<ProjectionRunHash, String>>,
    hash_body: impl Fn(&ProjectionRunReportBody) -> Result<ProjectionRunHash, String>,
) -> (r: Result<(Option<T>, ProjectionRunEvidenceReport), ProjectionRunReportError>)
    requires
        forall|body: &ProjectionRunReportBody| #[trigger] call_requires(hash_body, (body,)),
    ensures
        exists|body: ProjectionRunReportBody, digest: Result<ProjectionRunHash, String>| #[trigger]
            call_ensures(hash_body, (&body,), digest) && body_is(
                body,
                projection_id@,
                entity@,
                kinds@,
                *freshness,
                run is Err,
            ) && match (run, digest, r) {
                (Ok(outcome), Ok(hash), Ok((state, report))) => says_success(
                    body,
                    outcome.observation,
                    outcome.input_frontier,
                    hashed,
                ) && state == outcome.state && report_is(report, body, hash)
                    && report.diagnostics@.len() == 0,
                (Ok(outcome), Err(text), Err(e)) => says_success(
                    body,
                    outcome.observation,
                    outcome.input_frontier,
                    hashed,
                ) && e == (ProjectionRunReportError::BodyEncoding { message: text }),
                (
                    Err(error),
                    Ok(hash),
                    Err(ProjectionRunReportError::ProjectionFailed { source, report }),
                ) => says_failure(body) && source == error && report_is(*report, body, hash)
                    && report.diagnostics@.len() == 1 && report.diagnostics@[0]@ == error.text(),
                (Err(error), Err(text), Err(e)) => says_failure(body) && e == (
                ProjectionRunReportError::BodyEncoding { message: text }),
                _ => false,
            },
{
    let refs = source_refs(entity, kinds);
    let requested_freshness = map_requested_freshness(freshness);
    match run {
        Ok(outcome) => {
            let observed_freshness = map_observed_freshness(
                outcome.observation.observed_freshness,
            );
            let cache_status = map_cache_status(outcome.observation.cache_status);
            let input_frontier = match outcome.input_frontier {
                Some(point) => Some(map_input_frontier(point)),
                None => None,
            };
            let output_hash = output_hash_for_state(hashed);
            let findings = run_findings(
                false,
                &observed_freshness,
                input_frontier,
                &output_hash,
                &cache_status,
            );
            let body = ProjectionRunReportBody {
                schema_version: PROJECTION_RUN_REPORT_SCHEMA_VERSION,
                projection_id,
                source_refs: refs,
                replay_mode: ProjectionRunReplayMode::Current,
                requested_freshness,
                observed_freshness,
                input_frontier,
                output_hash,
                cache_status,
                checkpoint_ref: ProjectionRunCheckpointRef::NotApplicable,
                findings,
            };
            match build_report(body, Vec::new(), hash_body) {
                Ok(report) => Ok((outcome.into_state(), report)),
                Err(e) => Err(e),
            }
        },
        Err(error) => {
            let observed_freshness = ProjectionRunFreshnessStatus::Unavailable {
                reason: "projection_failed".to_owned(),
            };
            let cache_status = ProjectionRunCacheStatus::Unavailable {
                reason: "projection_failed".to_owned(),
            };
            let output_hash = ProjectionRunOutputHash::Unavailable {
                reason: "projection_failed".to_owned(),
            };
            let findings = run_findings(
                true,
                &observed_freshness,
                None,
                &output_hash,
                &cache_status,
            );
            let body = ProjectionRunReportBody {
                schema_version: PROJECTION_RUN_REPORT_SCHEMA_VERSION,
                projection_id,
                source_refs: refs,
                replay_mode: ProjectionRunReplayMode::Current,
                requested_freshness,
                observed_freshness,
                input_frontier: None,
                output_hash,
                cache_status,
                checkpoint_ref: ProjectionRunCheckpointRef::NotApplicable,
                findings,
            };
            let mut diagnostics: Vec<String> = Vec::new();
            diagnostics.push(error.message());
            match build_report(body, diagnostics, hash_body) {
                Ok(report) => Err(
                    ProjectionRunReportError::ProjectionFailed {
                        source: error,
                        report: Box::new(report),
                    },
                ),
                Err(e) => Err(e),
            }
        },
    }
}

/// Where a finding comes in a report.
pub open spec fn finding_rank(finding: ProjectionRunFinding) -> int {
    match finding {
        ProjectionRunFinding::ObservedFreshnessUnavailable => 0,
        ProjectionRunFinding::InputFrontierUnknown => 1,
        ProjectionRunFinding::OutputHashUnavailable => 2,
        ProjectionRunFinding::CacheStatusUnavailable => 3,
        ProjectionRunFinding::PartialVisibilityNotApplicable => 4,
        ProjectionRunFinding::ProjectionFailed => 5,
        ProjectionRunFinding::StaleUsed => 6,
    }
}

/// The findings are in strictly ascending order, and all come before a rank.
pub open spec fn ascending_below(findings: Seq<ProjectionRunFinding>, bound: int) -> bool {
    &&& forall|i: int, j: int|
        #![trigger findings[i], findings[j]]
        0 <= i < j < findings.len() ==> finding_rank(findings[i]) < finding_rank(findings[j])
    &&& forall|i: int|
        #![trigger findings[i]]
        0 <= i < findings.len() ==> finding_rank(findings[i]) < bound
}

/// The findings of every run are in ascending order, none twice: so the same
/// run gives the same report.
pub proof fn law_findings_are_ordered(
    failed: bool,
    observed_freshness: ProjectionRunFreshnessStatus,
    input_frontier: Option<ProjectionRunInputFrontier>,
    output_hash: ProjectionRunOutputHash,
    cache_status: ProjectionRunCacheStatus,
)
    ensures
        ({
            let findings = findings_of(
                failed,
                observed_freshness,
                input_frontier,
                output_hash,
                cache_status,
            );
            ascending_below(findings, 7)
        }),
{
    let a = due(
        observed_freshness is Unavailable,
        ProjectionRunFinding::ObservedFreshnessUnavailable,
    );
    lemma_one_more(
        Seq::empty(),
        observed_freshness is Unavailable,
        ProjectionRunFinding::ObservedFreshnessUnavailable,
    );
    assert(Seq::<ProjectionRunFinding>::empty() + a =~= a);
    let no_frontier = input_frontier is None && !(observed_freshness is NotApplicable);
    lemma_one_more(a, no_frontier, ProjectionRunFinding::InputFrontierUnknown);
    let b = a + due(no_frontier, ProjectionRunFinding::InputFrontierUnknown);
    lemma_one_more(b, output_hash is Unavailable, ProjectionRunFinding::OutputHashUnavailable);
    let c = b + due(output_hash is Unavailable, ProjectionRunFinding::OutputHashUnavailable);
    lemma_one_more(c, cache_status is Unavailable, ProjectionRunFinding::CacheStatusUnavailable);
    let d = c + due(cache_status is Unavailable, ProjectionRunFinding::CacheStatusUnavailable);
    lemma_one_more(d, true, ProjectionRunFinding::PartialVisibilityNotApplicable);
    let e = d + due(true, ProjectionRunFinding::PartialVisibilityNotApplicable);
    lemma_one_more(e, failed, ProjectionRunFinding::ProjectionFailed);
    let f = e + due(failed, ProjectionRunFinding::ProjectionFailed);
    lemma_one_more(f, observed_freshness is StaleAllowed, ProjectionRunFinding::StaleUsed);
}

proof fn lemma_one_more(
    findings: Seq<ProjectionRunFinding>,
    condition: bool,
    finding: ProjectionRunFinding,
)
    requires
        ascending_below(findings, finding_rank(finding)),
    ensures
        ascending_below(findings + due(condition, finding), finding_rank(finding) + 1),
{
    if !condition {
        assert(findings + due(condition, finding) =~= findings);
    }
}

/// The finding is among those with one more, where it was or is due.
proof fn lemma_due(
    findings: Seq<ProjectionRunFinding>,
    condition: bool,
    finding: ProjectionRunFinding,
    x: ProjectionRunFinding,
)
    ensures
        (findings + due(condition, finding)).contains(x) <==> findings.contains(x) || (condition
            && x == finding),
{
    let all = findings + due(condition, finding);
    if findings.contains(x) {
        let i = choose|i: int| 0 <= i < findings.len() && findings[i] == x;
        assert(all[i] == x);
    }
    if condition {
        assert(all[findings.len() as int] == finding);
    }
    if all.contains(x) {
        let i = choose|i: int| 0 <= i < all.len() && all[i] == x;
        if i < findings.len() {
            assert(findings[i] == x);
        }
    }
}

/// Each finding is noted exactly where there is cause: what is unavailable, a boundary
/// that is not known though there is a state, a failed run, and a state older than the
/// index. That no partial state is handed out is always noted.
pub proof fn law_findings_are_noted_where_due(
    failed: bool,
    observed_freshness: &ProjectionRunFreshnessStatus,
    input_frontier: Option<ProjectionRunInputFrontier>,
    output_hash: &ProjectionRunOutputHash,
    cache_status: &ProjectionRunCacheStatus,
    findings: Vec<ProjectionRunFinding>,
)
    requires
        call_ensures(
            run_findings,
            (failed, observed_freshness, input_frontier, output_hash, cache_status),
            findings,
        ),
    ensures
        findings@.contains(ProjectionRunFinding::ObservedFreshnessUnavailable)
            <==> *observed_freshness is Unavailable,
        findings@.contains(ProjectionRunFinding::InputFrontierUnknown) <==> input_frontier is None
            && !(*observed_freshness is NotApplicable),
        findings@.contains(ProjectionRunFinding::OutputHashUnavailable)
            <==> *output_hash is Unavailable,
        findings@.contains(ProjectionRunFinding::CacheStatusUnavailable)
            <==> *cache_status is Unavailable,
        findings@.contains(ProjectionRunFinding::PartialVisibilityNotApplicable),
        findings@.contains(ProjectionRunFinding::ProjectionFailed) <==> failed,
        findings@.contains(ProjectionRunFinding::StaleUsed) <==> *observed_freshness is StaleAllowed,
{
    lemma_noted(
        failed,
        *observed_freshness,
        input_frontier,
        *output_hash,
        *cache_status,
        ProjectionRunFinding::ObservedFreshnessUnavailable,
    );
    lemma_noted(
        failed,
        *observed_freshness,
        input_frontier,
        *output_hash,
        *cache_status,
        ProjectionRunFinding::InputFrontierUnknown,
    );
    lemma_noted(
        failed,
        *observed_freshness,
        input_frontier,
        *output_hash,
        *cache_status,
        ProjectionRunFinding::OutputHashUnavailable,
    );
    lemma_noted(
        failed,
        *observed_freshness,
        input_frontier,
        *output_hash,
        *cache_status,
        ProjectionRunFinding::CacheStatusUnavailable,
    );
    lemma_noted(
        failed,
        *observed_freshness,
        input_frontier,
        *output_hash,
        *cache_status,
        ProjectionRunFinding::PartialVisibilityNotApplicable,
    );
    lemma_noted(
        failed,
        *observed_freshness,
        input_frontier,
        *output_hash,
        *cache_status,
        ProjectionRunFinding::ProjectionFailed,
    );
    lemma_noted(
        failed,
        *observed_freshness,
        input_frontier,
        *output_hash,
        *cache_status,
        ProjectionRunFinding::StaleUsed,
    );
}

proof fn lemma_noted(
    failed: bool,
    observed_freshness: ProjectionRunFreshnessStatus,
    input_frontier: Option<ProjectionRunInputFrontier>,
    output_hash: ProjectionRunOutputHash,
    cache_status: ProjectionRunCacheStatus,
    x: ProjectionRunFinding,
)
    ensures
        findings_of(failed, observed_freshness, input_frontier, output_hash, cache_status).contains(
            x,
        ) <==> match x {
            ProjectionRunFinding::ObservedFreshnessUnavailable => observed_freshness is Unavailable,
            ProjectionRunFinding::InputFrontierUnknown => input_frontier is None && !(
            observed_freshness is NotApplicable),
            ProjectionRunFinding::OutputHashUnavailable => output_hash is Unavailable,
            ProjectionRunFinding::CacheStatusUnavailable => cache_status is Unavailable,
            ProjectionRunFinding::PartialVisibilityNotApplicable => true,
            ProjectionRunFinding::ProjectionFailed => failed,
            ProjectionRunFinding::StaleUsed => observed_freshness is StaleAllowed,
        },
{
    let none = Seq::<ProjectionRunFinding>::empty();
    let first = ProjectionRunFinding::ObservedFreshnessUnavailable;
    let a = due(observed_freshness is Unavailable, first);
    lemma_due(none, observed_freshness is Unavailable, first, x);
    assert(none + a =~= a);
    let no_frontier = input_frontier is None && !(observed_freshness is NotApplicable);
    lemma_due(a, no_frontier, ProjectionRunFinding::InputFrontierUnknown, x);
    let b = a + due(no_frontier, ProjectionRunFinding::InputFrontierUnknown);
    lemma_due(b, output_hash is Unavailable, ProjectionRunFinding::OutputHashUnavailable, x);
    let c = b + due(output_hash is Unavailable, ProjectionRunFinding::OutputHashUnavailable);
    lemma_due(c, cache_status is Unavailable, ProjectionRunFinding::CacheStatusUnavailable, x);
    let d = c + due(cache_status is Unavailable, ProjectionRunFinding::CacheStatusUnavailable);
    lemma_due(d, true, ProjectionRunFinding::PartialVisibilityNotApplicable, x);
    let e = d + due(true, ProjectionRunFinding::PartialVisibilityNotApplicable);
    lemma_due(e, failed, ProjectionRunFinding::ProjectionFailed, x);
    let f = e + due(failed, ProjectionRunFinding::ProjectionFailed);
    lemma_due(f, observed_freshness is StaleAllowed, ProjectionRunFinding::StaleUsed, x);
    assert(!none.contains(x));
}

/// The sources of a projection are its entity, and then a reference for each kind that
/// it names, by ascending number.
pub proof fn law_sources_name_entity_and_kinds(
    entity: &str,
    kinds: &[EventKind],
    refs: Vec<ProjectionSourceRef>,
    i: int,
    j: int,
    numbers: Seq<int>,
)
    requires
        call_ensures(source_refs, (entity, kinds), refs),
        numbers.len() == refs@.len() - 1,
        forall|k: int|
            #![trigger numbers[k]]
            0 <= k < numbers.len() ==> (refs@[k + 1] matches ProjectionSourceRef::RelevantKind {
                category,
                type_id,
            } ==> numbers[k] == category * 4096 + type_id),
    ensures
        refs@.len() == kinds@.len() + 1,
        refs@[0] matches ProjectionSourceRef::Entity { entity: name } && name@ == entity@,
        0 < i < refs@.len() ==> refs@[i] is RelevantKind,
        0 <= i < j < numbers.len() ==> numbers[i] <= numbers[j],
        numbers.to_multiset() == kinds@.map_values(|kind: EventKind| kind.raw() as int).to_multiset(),
{
    let sorted = super::cache_identity::sorted_raws(kinds@);
    let raws = super::cache_identity::raws(kinds@);
    let leq = |a: u16, b: u16| a <= b;
    raws.lemma_sort_by_ensures(leq);
    raws.to_multiset_ensures();
    sorted.to_multiset_ensures();
    assert(sorted.len() == raws.len());
    assert(refs@.skip(1).len() == sorted.len());
    assert forall|k: int| 0 <= k < sorted.len() implies refs@[k + 1] is RelevantKind
        && #[trigger] numbers[k] == sorted[k] by {
        assert(refs@.skip(1)[k] == refs@[k + 1]);
        assert(sorted[k] / 4096 < 16);
    }
    if 0 < i < refs@.len() {
        assert(numbers[i - 1] == sorted[i - 1]);
    }
    if 0 <= i < j < numbers.len() {
        assert(leq(sorted[i], sorted[j]));
    }
    let widen = |n: u16| n as int;
    assert(numbers =~= sorted.map_values(widen));
    assert(kinds@.map_values(|kind: EventKind| kind.raw() as int) =~= raws.map_values(widen));
    lemma_widened(sorted, raws);
}

/// The same numbers are the same numbers when they are widened.
proof fn lemma_widened(a: Seq<u16>, b: Seq<u16>)
    requires
        a.to_multiset() == b.to_multiset(),
    ensures
        a.map_values(|n: u16| n as int).to_multiset() == b.map_values(
            |n: u16| n as int,
        ).to_multiset(),
    decreases a.len(),
{
    let widen = |n: u16| n as int;
    a.to_multiset_ensures();
    b.to_multiset_ensures();
    if a.len() == 0 {
        assert(a.map_values(widen) =~= b.map_values(widen));
    } else {
        let x = a.last();
        let front = a.drop_last();
        assert(a.to_multiset().contains(x)) by {
            assert(a[a.len() - 1] == x);
        }
        assert(b.contains(x));
        let at = choose|at: int| 0 <= at < b.len() && b[at] == x;
        let rest = b.remove(at);
        vstd::seq_lib::to_multiset_remove(b, at);
        vstd::seq_lib::to_multiset_remove(a, a.len() - 1);
        assert(a.remove(a.len() - 1) =~= front);
        lemma_widened(front, rest);
        assert(a.map_values(widen) =~= front.map_values(widen).push(widen(x)));
        vstd::seq_lib::to_multiset_build(front.map_values(widen), widen(x));
        assert(b.map_values(widen) =~= rest.map_values(widen).insert(at, widen(x)));
        vstd::seq_lib::to_multiset_insert(rest.map_values(widen), at, widen(x));
    }
}

/// A report of a run that went well says what was run, on what, and what came of it: the
/// state is that of the run; freshness, cache, boundary and hash are as they were
/// observed; and the report is over its own body.
pub proof fn law_report_says_what_happened<
    T,
    F: Fn(&ProjectionRunReportBody) -> Result<ProjectionRunHash, String>,
>(
    projection_id: String,
    entity: &str,
    kinds: &[EventKind],
    freshness: &Freshness,
    outcome: ProjectionOutcome<T>,
    hashed: Option<Result<ProjectionRunHash, String>>,
    hash_body: F,
    state: Option<T>,
    report: ProjectionRunEvidenceReport,
)
    requires
        call_ensures(
            project_run_evidence,
            (
                projection_id,
                entity,
                kinds,
                freshness,
                Ok::<ProjectionOutcome<T>, StoreError>(outcome),
                hashed,
                hash_body,
            ),
            Ok::<(Option<T>, ProjectionRunEvidenceReport), ProjectionRunReportError>((state, report)),
        ),
    ensures
        state == outcome.state,
        call_ensures(
            hash_body,
            (&report.body,),
            Ok::<ProjectionRunHash, String>(report.body_hash),
        ),
        report.body.schema_version == 1,
        report.body.projection_id@ == projection_id@,
        report.body.source_refs@.len() == kinds@.len() + 1,
        report.body.source_refs@[0] matches ProjectionSourceRef::Entity { entity: name } && name@
            == entity@,
        *freshness is Consistent <==> report.body.requested_freshness is Consistent,
        *freshness matches Freshness::MaybeStale { max_stale_ms } ==> report.body.requested_freshness
            == (ProjectionRunRequestedFreshness::MaybeStale { max_stale_ms }),
        outcome.observation.observed_freshness is Fresh <==> report.body.observed_freshness is Fresh,
        outcome.observation.observed_freshness is StaleAllowed
            <==> report.body.observed_freshness is StaleAllowed,
        outcome.observation.observed_freshness is NotApplicable
            <==> report.body.observed_freshness is NotApplicable,
        outcome.observation.cache_status is Hit <==> report.body.cache_status is Hit,
        outcome.observation.cache_status is Miss <==> report.body.cache_status is Miss,
        outcome.observation.cache_status is Bypassed <==> report.body.cache_status is Bypassed,
        outcome.input_frontier is None <==> report.body.input_frontier is None,
        outcome.input_frontier matches Some(point) ==> report.body.input_frontier->0.wall_ms
            == point.wall_ms && report.body.input_frontier->0.global_sequence
            == point.global_sequence,
        hashed is None <==> report.body.output_hash is NotApplicable,
        hashed matches Some(Ok(hash)) ==> report.body.output_hash == ProjectionRunOutputHash::Known(
            hash,
        ),
        hashed matches Some(Err(_)) ==> report.body.output_hash is Unavailable,
        report.diagnostics@.len() == 0,
        report.generated_at_unix_ms is None && report.batpak_version is None,
{
    let raws = super::cache_identity::raws(kinds@);
    let leq = |a: u16, b: u16| a <= b;
    raws.lemma_sort_by_ensures(leq);
    raws.to_multiset_ensures();
    let sorted = super::cache_identity::sorted_raws(kinds@);
    sorted.to_multiset_ensures();
    assert(report.body.source_refs@.skip(1).len() == sorted.len());
}

/// A run that failed is never reported as one that went well: its error comes back, with
/// a report that nothing of it is available.
pub proof fn law_failed_run_is_reported_as_failed<
    T,
    F: Fn(&ProjectionRunReportBody) -> Result<ProjectionRunHash, String>,
>(
    projection_id: String,
    entity: &str,
    kinds: &[EventKind],
    freshness: &Freshness,
    error: StoreError,
    hashed: Option<Result<ProjectionRunHash, String>>,
    hash_body: F,
    r: Result<(Option<T>, ProjectionRunEvidenceReport), ProjectionRunReportError>,
)
    requires
        call_ensures(
            project_run_evidence,
            (
                projection_id,
                entity,
                kinds,
                freshness,
                Err::<ProjectionOutcome<T>, StoreError>(error),
                hashed,
                hash_body,
            ),
            r,
        ),
    ensures
        r is Err,
        r->Err_0 matches ProjectionRunReportError::ProjectionFailed { source, report } ==> {
            &&& source == error
            &&& report.body.projection_id@ == projection_id@
            &&& report.body.observed_freshness is Unavailable
            &&& report.body.cache_status is Unavailable
            &&& report.body.output_hash is Unavailable
            &&& report.body.input_frontier is None
            &&& report.diagnostics@.len() == 1
            &&& call_ensures(
                hash_body,
                (&report.body,),
                Ok::<ProjectionRunHash, String>(report.body_hash),
            )
        },
{
}

} // verus!
