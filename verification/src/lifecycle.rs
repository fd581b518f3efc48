//! What happens to integrations: registration, reconfiguration, approval of
//! a baseline, drift checks and baseline refreshes.
//!
//! Fetching a live contract and reading or writing snapshot files happen
//! outside the library; the functions here take their outcomes.

use vstd::prelude::*;
use crate::canonical::{canonical, canonicalize_value};
use crate::drift::{DriftReport, EntryView, detect_drift, diff_entries, diff_previews_fit, entries_view, summary_text, copy_entries, same_entries};
use crate::integration::{CreateIntegrationRequest, GatePostStore, IncidentRecord, IncidentView, IntegrationStatus, IntegrationView, ManagedIntegration, PolicyMode, ReportView, RequestView, SchemaSnapshot, SnapshotMetadata, SnapshotView, StatusView, TrustState, UpdateIntegrationRequest, DashboardSummary, copy_integrations, integrations_view, opt_snapshot, opt_report, incidents_view, SourceKind, texts, SampleView, ToolCallSample, samples_view, copy_samples, copy_strings};
use crate::json::{JsonModel, JsonValue};
use crate::request::{normalize_request, normalized_request, slug, slugify, source_problem, validate_source_config};
use crate::text::{joined, join_strings};

verus! {

/// The system clock's time type of std, carried opaquely.
#[verifier::external_type_specification]
#[verifier::external_body]
pub struct ExSystemTime(std::time::SystemTime);

/// `SystemTime::now` of std. Nothing is stated of the result: it is the
/// moment of the call.
#[verifier::external_body]
fn system_time_now() -> std::time::SystemTime {
    std::time::SystemTime::now()
}

/// `SystemTime::duration_since` of std, from the Unix epoch; nothing when
/// the time is before the epoch. Nothing more is stated: the result depends
/// on the time read.
#[verifier::external_body]
fn since_unix_epoch(t: &std::time::SystemTime) -> Option<core::time::Duration> {
    t.duration_since(std::time::UNIX_EPOCH).ok()
}

/// `Duration::as_millis` of std. Nothing is stated of the result, as
/// durations are carried opaquely.
#[verifier::external_body]
fn duration_millis(d: &core::time::Duration) -> u128 {
    d.as_millis()
}

/// Milliseconds since the Unix epoch by the system clock, or 0 when the
/// clock is set before the epoch.
pub fn now_epoch_ms() -> u128 {
    match since_unix_epoch(&system_time_now()) {
        Some(d) => duration_millis(&d),
        None => 0,
    }
}


/// A snapshot of `schema` in canonical form, approved by `approved_by` for
/// the given system; the approval time is the clock's reading.
pub fn create_snapshot(
    schema: JsonValue,
    system: String,
    environment: String,
    server: String,
    approved_by: String,
) -> (r: SchemaSnapshot)
    ensures
        r.schema@ == canonical(schema@),
        crate::json::well_keyed(schema@) ==> crate::laws::sorted_everywhere(r.schema@),
        r.metadata.system@ == system@,
        r.metadata.environment@ == environment@,
        r.metadata.server@ == server@,
        r.metadata.approved_by@ == approved_by@,
{
    let approved_at_epoch_ms = now_epoch_ms();
    SchemaSnapshot {
        metadata: SnapshotMetadata { system, environment, server, approved_by, approved_at_epoch_ms },
        schema: canonicalize_value(schema),
    }
}

/// The position of the first integration with id `id`, or -1.
pub open spec fn integration_index(s: Seq<IntegrationView>, id: Seq<char>) -> int
    decreases s.len(),
{
    if s.len() == 0 {
        -1
    } else if s[0].id == id {
        0
    } else {
        let p = integration_index(s.drop_first(), id);
        if p < 0 {
            -1
        } else {
            p + 1
        }
    }
}

pub proof fn lemma_integration_index(s: Seq<IntegrationView>, id: Seq<char>)
    ensures
        -1 <= integration_index(s, id) < s.len(),
        integration_index(s, id) >= 0 ==> s[integration_index(s, id)].id == id,
        integration_index(s, id) < 0 <==> forall|k: int| 0 <= k < s.len() ==> #[trigger] s[k].id != id,
    decreases s.len(),
{
    if s.len() > 0 && s[0].id != id {
        lemma_integration_index(s.drop_first(), id);
        if integration_index(s, id) < 0 {
            assert forall|k: int| 0 <= k < s.len() implies #[trigger] s[k].id != id by {
                if k > 0 {
                    assert(s[k] == s.drop_first()[k - 1]);
                }
            }
        } else {
            assert(s[integration_index(s, id)] == s.drop_first()[integration_index(s, id) - 1]);
        }
    }
}

pub open spec fn not_found_message(id: Seq<char>) -> Seq<char> {
    "Integration '"@ + id + "' was not found."@
}

/// The position of the integration with id `integration_id`.
pub fn find_integration(store: &GatePostStore, integration_id: &str) -> (r: Result<usize, String>)
    ensures
        match r {
            Ok(i) => i as int == integration_index(store@, integration_id@),
            Err(m) => integration_index(store@, integration_id@) == -1 && m@ == not_found_message(
                integration_id@,
            ),
        },
        r is Ok ==> r->Ok_0 < store.integrations@.len(),
{
    let ghost s = store@;
    let mut i: usize = 0;
    assert(s.skip(0) =~= s);
    let wanted = String::from_str(integration_id);
    while i < store.integrations.len()
        invariant
            i <= store.integrations@.len(),
            s == store@,
            s.len() == store.integrations@.len(),
            wanted@ == integration_id@,
            integration_index(s, integration_id@) == {
                let p = integration_index(s.skip(i as int), integration_id@);
                if p < 0 {
                    -1
                } else {
                    p + i
                }
            },
        decreases store.integrations@.len() - i,
    {
        assert(s[i as int] == store.integrations@[i as int]@);
        if store.integrations[i].id == wanted {
            return Ok(i);
        }
        assert(s.skip(i as int).drop_first() =~= s.skip(i + 1));
        i = i + 1;
    }
    let mut m = String::from_str("Integration '");
    m.append(integration_id);
    m.append("' was not found.");
    Err(m)
}

/// Some integration has id `id`.
pub open spec fn has_id(s: Seq<IntegrationView>, id: Seq<char>) -> bool {
    exists|i: int| 0 <= i < s.len() && #[trigger] s[i].id == id
}

/// The status of a newly registered integration.
pub open spec fn awaiting_status() -> StatusView {
    StatusView {
        trust_state: TrustState::Uninitialized,
        drift_detected: false,
        last_checked_epoch_ms: None,
        summary: "Awaiting first approval snapshot."@,
        error_message: None,
    }
}

/// The integration registered from a normalized configuration.
pub open spec fn registered(r: RequestView, id: Seq<char>, snapshot_path: Seq<char>) -> IntegrationView {
    IntegrationView {
        id,
        name: r.name,
        system: r.system,
        environment: r.environment,
        server: r.server,
        source_kind: r.source_kind,
        live_schema_path: r.live_schema_path,
        http_url: r.http_url,
        mcp_command: r.mcp_command,
        mcp_args: r.mcp_args,
        sample_tool_calls: r.sample_tool_calls,
        snapshot_path,
        policy_mode: r.policy_mode,
        check_interval_seconds: if r.check_interval_seconds < 5 {
            5
        } else {
            r.check_interval_seconds
        },
        approved_snapshot: None,
        last_report: None,
        incidents: Seq::empty(),
        status: awaiting_status(),
    }
}

/// The file name of an integration's approved snapshot.
pub open spec fn snapshot_file_name(id: Seq<char>) -> Seq<char> {
    id + "-approved.json"@
}

/// A name that joins onto a path as one relative component on every
/// platform: not empty, and without `/`, `\` or `:`.
pub open spec fn plain_name(p: Seq<char>) -> bool {
    p.len() > 0 && forall|i: int| 0 <= i < p.len() ==> p[i] != '/' && p[i] != '\\' && p[i] != ':'
}

/// A path that begins like a Windows verbatim path (`\\?`), which joining
/// rewrites.
pub open spec fn verbatim_like(p: Seq<char>) -> bool {
    p.len() >= 3 && p[0] == '\\' && p[1] == '\\' && p[2] == '?'
}

/// `part` adjoined to `base`: directly (where `base` is empty, ends in a
/// separator, or is a bare drive), or after one `/` or `\` separator.
pub open spec fn adjoined(base: Seq<char>, part: Seq<char>, r: Seq<char>) -> bool {
    r == base + part || r == base + seq!['/'] + part || r == base + seq!['\\'] + part
}

/// `Path::join` of std, as text. For a plain relative name joined onto a
/// path that is not verbatim, std documents the result as the path with the
/// name adjoined; which separator is used, and whether one is needed, depend
/// on the platform, so the contract admits each of them. Other joins (of
/// absolute or prefixed parts, or onto verbatim paths) are left unstated.
#[verifier::external_body]
fn join_path(base: &str, part: &str) -> (r: String)
    ensures
        plain_name(part@) && !verbatim_like(base@) ==> adjoined(base@, part@, r@),
{
    std::path::Path::new(base).join(part).to_string_lossy().to_string()
}

/// Where the store is kept in a data directory: the file
/// `gatepost-state.json` in it.
pub fn store_path(data_dir: &str) -> (r: String)
    ensures
        !verbatim_like(data_dir@) ==> adjoined(data_dir@, "gatepost-state.json"@, r@),
{
    proof {
        reveal_strlit("gatepost-state.json");
    }
    join_path(data_dir, "gatepost-state.json")
}

/// Where the approved snapshot of an integration is kept in a data directory:
/// a file named after the integration's id in the `snapshots` directory.
pub fn snapshot_path_for(data_dir: &str, integration_id: &str) -> (r: String)
    ensures
        !verbatim_like(data_dir@) && plain_name(snapshot_file_name(integration_id@)) ==> exists|dir: Seq<char>|
            adjoined(data_dir@, "snapshots"@, dir) && #[trigger] adjoined(dir, snapshot_file_name(integration_id@), r@),
{
    proof {
        reveal_strlit("snapshots");
    }
    let dir = join_path(data_dir, "snapshots");
    let mut file = String::from_str(integration_id);
    file.append("-approved.json");
    assert(file@ == snapshot_file_name(integration_id@));
    proof {
        if !verbatim_like(data_dir@) {
            let d = data_dir@;
            if verbatim_like(dir@) {
                assert(dir@[0] == '\\' && dir@[1] == '\\' && dir@[2] == '?');
                if d.len() >= 3 {
                    assert(dir@[0] == d[0] && dir@[1] == d[1] && dir@[2] == d[2]);
                } else if d.len() == 2 {
                    assert(dir@[2] == 's' || dir@[2] == '/' || dir@[2] == '\\');
                } else if d.len() == 1 {
                    assert(dir@[2] == 's' || dir@[2] == 'n');
                } else {
                    assert(dir@[2] == 'n' || dir@[2] == 's');
                }
            }
        }
    }
    let r = join_path(dir.as_str(), file.as_str());
    r
}

pub open spec fn exists_message(name: Seq<char>) -> Seq<char> {
    "Integration '"@ + name + "' already exists."@
}

/// Registers an integration from a configuration, under the id derived from
/// its trimmed name; refused when that id is taken or the configuration
/// lacks its source.
#[verifier::loop_isolation(false)]
pub fn add_integration(store: &mut GatePostStore, data_dir: &str, request: CreateIntegrationRequest) -> (r: Result<ManagedIntegration, String>)
    ensures
        ({
            let n = normalized_request(request@);
            let id = slug(n.name);
            if has_id(old(store)@, id) {
                &&& r matches Err(m) && m@ == exists_message(n.name)
                &&& final(store)@ == old(store)@
            } else if source_problem(n) is Some {
                &&& r matches Err(m) && m@ == source_problem(n)->Some_0
                &&& final(store)@ == old(store)@
            } else {
                &&& r matches Ok(m) && m@ == registered(n, id, m@.snapshot_path)
                &&& final(store)@ == old(store)@.push(r->Ok_0@)
                &&& (!verbatim_like(data_dir@) ==> exists|dir: Seq<char>|
                    adjoined(data_dir@, "snapshots"@, dir) && #[trigger] adjoined(
                        dir,
                        snapshot_file_name(id),
                        r->Ok_0.snapshot_path@,
                    ))
            }
        }),
{
    let request = normalize_request(request);
    let id = slugify(request.name.as_str());
    let mut i: usize = 0;
    while i < store.integrations.len()
        invariant
            i <= store.integrations@.len(),
            store@ == old(store)@,
            forall|k: int| 0 <= k < i ==> #[trigger] store@[k].id != id@,
        decreases store.integrations@.len() - i,
    {
        assert(store@[i as int] == store.integrations@[i as int]@);
        if store.integrations[i].id == id {
            assert(store@[i as int].id == id@);
            assert(has_id(old(store)@, id@));
            let mut m = String::from_str("Integration '");
            m.append(request.name.as_str());
            m.append("' already exists.");
            return Err(m);
        }
        i = i + 1;
    }
    match validate_source_config(&request) {
        Err(e) => {
            return Err(e);
        },
        Ok(()) => {},
    }
    proof {
        crate::laws::law_ids_are_clean(request.name@);
        reveal_strlit("-approved.json");
        let f = snapshot_file_name(id@);
        assert forall|k: int| 0 <= k < f.len() implies f[k] != '/' && f[k] != '\\' && f[k] != ':' by {
            if k < id@.len() {
                assert(f[k] == id@[k]);
                assert(crate::laws::id_char(id@[k]));
            }
        }
    }
    let snapshot_path = snapshot_path_for(data_dir, id.as_str());
    let check_interval_seconds = if request.check_interval_seconds < 5 {
        5
    } else {
        request.check_interval_seconds
    };
    let integration = ManagedIntegration {
        id,
        name: request.name,
        system: request.system,
        environment: request.environment,
        server: request.server,
        source_kind: request.source_kind,
        live_schema_path: request.live_schema_path,
        http_url: request.http_url,
        mcp_command: request.mcp_command,
        mcp_args: request.mcp_args,
        sample_tool_calls: request.sample_tool_calls,
        snapshot_path,
        policy_mode: request.policy_mode,
        check_interval_seconds,
        approved_snapshot: None,
        last_report: None,
        incidents: Vec::new(),
        status: IntegrationStatus {
            trust_state: TrustState::Uninitialized,
            drift_detected: false,
            last_checked_epoch_ms: None,
            summary: String::from_str("Awaiting first approval snapshot."),
            error_message: None,
        },
    };
    assert(incidents_view(integration.incidents@) =~= Seq::<IncidentView>::empty());
    let copy = integration.duplicate();
    let ghost before = store.integrations@;
    store.integrations.push(integration);
    assert(integrations_view(store.integrations@) =~= integrations_view(before).push(copy@));
    Ok(copy)
}


/// The check interval a configuration asks for, at least five seconds.
pub open spec fn interval_floor(seconds: u64) -> u64 {
    if seconds < 5 {
        5
    } else {
        seconds
    }
}

/// An integration after its configuration is replaced at `checked_at`: the
/// id and snapshot path stay, the baseline, report and incidents are
/// dropped, and approval starts over.
pub open spec fn reconfigured(old: IntegrationView, n: RequestView, checked_at: u128) -> IntegrationView {
    IntegrationView {
        name: n.name,
        system: n.system,
        environment: n.environment,
        server: n.server,
        source_kind: n.source_kind,
        live_schema_path: n.live_schema_path,
        http_url: n.http_url,
        mcp_command: n.mcp_command,
        mcp_args: n.mcp_args,
        sample_tool_calls: n.sample_tool_calls,
        policy_mode: n.policy_mode,
        check_interval_seconds: interval_floor(n.check_interval_seconds),
        approved_snapshot: None,
        last_report: None,
        incidents: Seq::empty(),
        status: StatusView {
            trust_state: TrustState::Uninitialized,
            drift_detected: false,
            last_checked_epoch_ms: Some(checked_at),
            summary: "Integration target updated. Approve a new baseline snapshot."@,
            error_message: None,
        },
        ..old
    }
}

/// Replaces the configuration of an integration; its baseline no longer holds.
pub fn update_integration(store: &mut GatePostStore, integration_id: &str, request: UpdateIntegrationRequest) -> (r: Result<ManagedIntegration, String>)
    ensures
        ({
            let n = normalized_request(request@);
            let i = integration_index(old(store)@, integration_id@);
            if source_problem(n) is Some {
                &&& r matches Err(m) && m@ == source_problem(n)->Some_0
                &&& final(store)@ == old(store)@
            } else if i < 0 {
                &&& r matches Err(m) && m@ == not_found_message(integration_id@)
                &&& final(store)@ == old(store)@
            } else {
                &&& r is Ok
                &&& exists|t: u128| final(store)@ == old(store)@.update(i, reconfigured(old(store)@[i], n, t))
                &&& r->Ok_0@ == final(store)@[i]
            }
        }),
{
    let request = normalize_request(request);
    match validate_source_config(&request) {
        Err(e) => {
            return Err(e);
        },
        Ok(()) => {},
    }
    let i = match find_integration(store, integration_id) {
        Ok(i) => i,
        Err(m) => {
            return Err(m);
        },
    };
    let checked_at = now_epoch_ms();
    let ghost n = request@;
    let id = store.integrations[i].id.clone();
    let snapshot_path = store.integrations[i].snapshot_path.clone();
    let check_interval_seconds = if request.check_interval_seconds < 5 {
        5
    } else {
        request.check_interval_seconds
    };
    let updated = ManagedIntegration {
        id,
        name: request.name,
        system: request.system,
        environment: request.environment,
        server: request.server,
        source_kind: request.source_kind,
        live_schema_path: request.live_schema_path,
        http_url: request.http_url,
        mcp_command: request.mcp_command,
        mcp_args: request.mcp_args,
        sample_tool_calls: request.sample_tool_calls,
        snapshot_path,
        policy_mode: request.policy_mode,
        check_interval_seconds,
        approved_snapshot: None,
        last_report: None,
        incidents: Vec::new(),
        status: IntegrationStatus {
            trust_state: TrustState::Uninitialized,
            drift_detected: false,
            last_checked_epoch_ms: Some(checked_at),
            summary: String::from_str("Integration target updated. Approve a new baseline snapshot."),
            error_message: None,
        },
    };
    assert(incidents_view(updated.incidents@) =~= Seq::<IncidentView>::empty());
    assert(updated@ == reconfigured(old(store)@[i as int], n, checked_at));
    let copy = updated.duplicate();
    let ghost before = store.integrations@;
    store.integrations.set(i, updated);
    assert(integrations_view(store.integrations@) =~= integrations_view(before).update(i as int, copy@));
    Ok(copy)
}


/// The outcome of capturing the live contract as a new baseline and writing it.
#[derive(Debug)]
pub enum BaselineCapture {
    /// The live contract could not be read.
    FetchFailed(String),
    /// The snapshot was built, but writing it failed.
    WriteFailed(String),
    /// The snapshot was built and written.
    Written(SchemaSnapshot),
}

pub enum CaptureView {
    FetchFailed(Seq<char>),
    WriteFailed(Seq<char>),
    Written(SnapshotView),
}

pub open spec fn capture_view(c: BaselineCapture) -> CaptureView {
    match c {
        BaselineCapture::FetchFailed(e) => CaptureView::FetchFailed(e@),
        BaselineCapture::WriteFailed(e) => CaptureView::WriteFailed(e@),
        BaselineCapture::Written(s) => CaptureView::Written(s@),
    }
}

/// An error status.
pub open spec fn error_status(checked_at: Option<u128>, summary: Seq<char>, error: Seq<char>) -> StatusView {
    StatusView {
        trust_state: TrustState::Error,
        drift_detected: false,
        last_checked_epoch_ms: checked_at,
        summary,
        error_message: Some(error),
    }
}

/// An integration whose baseline is replaced by `snapshot`: no report, no
/// incidents, and trust restored.
pub open spec fn rebaselined(old: IntegrationView, snapshot: SnapshotView, checked_at: u128, summary: Seq<char>) -> IntegrationView {
    IntegrationView {
        approved_snapshot: Some(snapshot),
        last_report: None,
        incidents: Seq::empty(),
        status: StatusView {
            trust_state: TrustState::Approved,
            drift_detected: false,
            last_checked_epoch_ms: Some(checked_at),
            summary,
            error_message: None,
        },
        ..old
    }
}

/// An integration whose status alone changes.
pub open spec fn with_status(old: IntegrationView, status: StatusView) -> IntegrationView {
    IntegrationView { status, ..old }
}

/// The integration after an approval attempt by `approved_by` at `now`.
pub open spec fn approved(old: IntegrationView, approved_by: Seq<char>, capture: CaptureView, now: u128) -> IntegrationView {
    match capture {
        CaptureView::FetchFailed(e) => with_status(
            old,
            error_status(Some(now), "GatePOST could not capture the current MCP contract for approval."@, e),
        ),
        CaptureView::WriteFailed(e) => with_status(
            old,
            error_status(Some(now), "GatePOST failed to write the approved baseline snapshot."@, e),
        ),
        CaptureView::Written(s) => rebaselined(old, s, now, "Approved by "@ + approved_by + "."@),
    }
}

/// The integration after a baseline refresh at `now`.
pub open spec fn pinged(old: IntegrationView, capture: CaptureView, now: u128) -> IntegrationView {
    match capture {
        CaptureView::FetchFailed(e) => with_status(old, error_status(Some(now), "Baseline ping failed."@, e)),
        CaptureView::WriteFailed(e) => with_status(
            old,
            error_status(Some(now), "Baseline ping failed while writing snapshot."@, e),
        ),
        CaptureView::Written(s) => rebaselined(
            old,
            s,
            now,
            "Baseline updated from live schema via Ping baseline."@,
        ),
    }
}

/// The error a capture attempt ends in, if any.
pub open spec fn capture_error(c: CaptureView) -> Option<Seq<char>> {
    match c {
        CaptureView::FetchFailed(e) => Some(e),
        CaptureView::WriteFailed(e) => Some(e),
        CaptureView::Written(_) => None,
    }
}

/// The snapshot of a captured live contract for an integration: the
/// integration's system, environment and server, approved by `approved_by`.
pub fn baseline_snapshot(integration: &ManagedIntegration, schema: JsonValue, approved_by: &str) -> (r: SchemaSnapshot)
    ensures
        r.schema@ == canonical(schema@),
        r.metadata.system@ == integration.system@,
        r.metadata.environment@ == integration.environment@,
        r.metadata.server@ == integration.server@,
        r.metadata.approved_by@ == approved_by@,
{
    create_snapshot(
        schema,
        integration.system.clone(),
        integration.environment.clone(),
        integration.server.clone(),
        String::from_str(approved_by),
    )
}

fn capture_status(capture: &BaselineCapture, now: u128, fetch_summary: &str, write_summary: &str) -> (r: Option<IntegrationStatus>)
    ensures
        match capture_view(*capture) {
            CaptureView::FetchFailed(e) => r matches Some(st) && st@ == error_status(Some(now), fetch_summary@, e),
            CaptureView::WriteFailed(e) => r matches Some(st) && st@ == error_status(Some(now), write_summary@, e),
            CaptureView::Written(_) => r is None,
        },
{
    match capture {
        BaselineCapture::FetchFailed(e) => Some(
            IntegrationStatus {
                trust_state: TrustState::Error,
                drift_detected: false,
                last_checked_epoch_ms: Some(now),
                summary: String::from_str(fetch_summary),
                error_message: Some(e.clone()),
            },
        ),
        BaselineCapture::WriteFailed(e) => Some(
            IntegrationStatus {
                trust_state: TrustState::Error,
                drift_detected: false,
                last_checked_epoch_ms: Some(now),
                summary: String::from_str(write_summary),
                error_message: Some(e.clone()),
            },
        ),
        BaselineCapture::Written(_) => None,
    }
}

/// Replaces the integration at `i` by one with a new baseline or status.
fn apply_capture(store: &mut GatePostStore, i: usize, capture: BaselineCapture, now: u128, fetch_summary: &str, write_summary: &str, done_summary: String) -> (r: Result<ManagedIntegration, String>)
    requires
        i < old(store).integrations@.len(),
    ensures
        ({
            let old_i = old(store)@[i as int];
            let new_i = match capture_view(capture) {
                CaptureView::FetchFailed(e) => with_status(old_i, error_status(Some(now), fetch_summary@, e)),
                CaptureView::WriteFailed(e) => with_status(old_i, error_status(Some(now), write_summary@, e)),
                CaptureView::Written(s) => rebaselined(old_i, s, now, done_summary@),
            };
            &&& final(store)@ == old(store)@.update(i as int, new_i)
            &&& match capture_error(capture_view(capture)) {
                Some(e) => r matches Err(m) && m@ == e,
                None => r matches Ok(m) && m@ == new_i,
            }
        }),
{
    let ghost before = store.integrations@;
    let status = capture_status(&capture, now, fetch_summary, write_summary);
    match status {
        Some(st) => {
            let err = match capture {
                BaselineCapture::FetchFailed(e) => e,
                BaselineCapture::WriteFailed(e) => e,
                BaselineCapture::Written(_) => String::new(),
            };
            let mut updated = store.integrations[i].duplicate();
            updated.status = st;
            let ghost u = updated@;
            store.integrations.set(i, updated);
            assert(integrations_view(store.integrations@) =~= integrations_view(before).update(i as int, u));
            Err(err)
        },
        None => {
            let snapshot = match capture {
                BaselineCapture::Written(s) => s,
                BaselineCapture::FetchFailed(_) => {
                    assert(false);
                    return Err(String::new());
                },
                BaselineCapture::WriteFailed(_) => {
                    assert(false);
                    return Err(String::new());
                },
            };
            let mut updated = store.integrations[i].duplicate();
            updated.approved_snapshot = Some(snapshot);
            updated.last_report = None;
            updated.incidents = Vec::new();
            updated.status = IntegrationStatus {
                trust_state: TrustState::Approved,
                drift_detected: false,
                last_checked_epoch_ms: Some(now),
                summary: done_summary,
                error_message: None,
            };
            assert(incidents_view(updated.incidents@) =~= Seq::<IncidentView>::empty());
            let copy = updated.duplicate();
            store.integrations.set(i, updated);
            assert(integrations_view(store.integrations@) =~= integrations_view(before).update(i as int, copy@));
            Ok(copy)
        },
    }
}

/// Records the outcome of capturing an integration's live contract as its
/// approved baseline, approved by `approved_by` at `now`.
pub fn approve_integration(store: &mut GatePostStore, integration_id: &str, approved_by: &str, capture: BaselineCapture, now: u128) -> (r: Result<ManagedIntegration, String>)
    ensures
        ({
            let i = integration_index(old(store)@, integration_id@);
            if i < 0 {
                &&& r matches Err(m) && m@ == not_found_message(integration_id@)
                &&& final(store)@ == old(store)@
            } else {
                let new_i = approved(old(store)@[i], approved_by@, capture_view(capture), now);
                &&& final(store)@ == old(store)@.update(i, new_i)
                &&& match capture_error(capture_view(capture)) {
                    Some(e) => r matches Err(m) && m@ == e,
                    None => r matches Ok(m) && m@ == new_i,
                }
            }
        }),
{
    let i = match find_integration(store, integration_id) {
        Ok(i) => i,
        Err(m) => {
            return Err(m);
        },
    };
    let mut done = String::from_str("Approved by ");
    done.append(approved_by);
    done.append(".");
    apply_capture(
        store,
        i,
        capture,
        now,
        "GatePOST could not capture the current MCP contract for approval.",
        "GatePOST failed to write the approved baseline snapshot.",
        done,
    )
}

/// Who a refreshed baseline is approved by: the approver of the current
/// baseline, else the approver recorded in the stored snapshot, else a
/// marker of the manual refresh.
pub open spec fn ping_approver_text(current: Option<SnapshotView>, stored: Option<Seq<char>>) -> Seq<char> {
    match current {
        Some(s) => s.metadata.approved_by,
        None => match stored {
            Some(a) => a,
            None => "manual.baseline.ping"@,
        },
    }
}

/// Who a refreshed baseline of `integration` is approved by, given the
/// approver recorded in its stored snapshot file, if that could be read.
pub fn ping_approver(integration: &ManagedIntegration, stored_approver: Option<String>) -> (r: String)
    ensures
        r@ == ping_approver_text(opt_snapshot(integration.approved_snapshot), opt_text_of(stored_approver)),
{
    match &integration.approved_snapshot {
        Some(s) => s.metadata.approved_by.clone(),
        None => match stored_approver {
            Some(a) => a,
            None => String::from_str("manual.baseline.ping"),
        },
    }
}

pub open spec fn opt_text_of(o: Option<String>) -> Option<Seq<char>> {
    match o {
        Some(s) => Some(s@),
        None => None,
    }
}

/// Records the outcome of refreshing an integration's baseline from its
/// live contract at `now`.
pub fn ping_baseline(store: &mut GatePostStore, integration_id: &str, capture: BaselineCapture, now: u128) -> (r: Result<ManagedIntegration, String>)
    ensures
        ({
            let i = integration_index(old(store)@, integration_id@);
            if i < 0 {
                &&& r matches Err(m) && m@ == not_found_message(integration_id@)
                &&& final(store)@ == old(store)@
            } else {
                let new_i = pinged(old(store)@[i], capture_view(capture), now);
                &&& final(store)@ == old(store)@.update(i, new_i)
                &&& match capture_error(capture_view(capture)) {
                    Some(e) => r matches Err(m) && m@ == e,
                    None => r matches Ok(m) && m@ == new_i,
                }
            }
        }),
{
    let i = match find_integration(store, integration_id) {
        Ok(i) => i,
        Err(m) => {
            return Err(m);
        },
    };
    apply_capture(
        store,
        i,
        capture,
        now,
        "Baseline ping failed.",
        "Baseline ping failed while writing snapshot.",
        String::from_str("Baseline updated from live schema via Ping baseline."),
    )
}


pub open spec fn missing_baseline_message(snapshot_path: Seq<char>) -> Seq<char> {
    "Baseline not found. Expected snapshot at "@ + snapshot_path + ". Approve a snapshot before running checks."@
}

/// The error a check reports when an integration has no baseline.
pub fn baseline_not_found_message(integration: &ManagedIntegration) -> (r: String)
    ensures
        r@ == missing_baseline_message(integration.snapshot_path@),
{
    let mut m = String::from_str("Baseline not found. Expected snapshot at ");
    m.append(integration.snapshot_path.as_str());
    m.append(". Approve a snapshot before running checks.");
    m
}

/// An integration at the start of a check at `now`, given the snapshot
/// stored in its snapshot file, if one could be read: the check time is
/// recorded, and the baseline is the current one, else the stored one.
pub open spec fn started_check(old: IntegrationView, stored: Option<SnapshotView>, now: u128) -> IntegrationView {
    let checked = StatusView { last_checked_epoch_ms: Some(now), ..old.status };
    match old.approved_snapshot {
        Some(_) => IntegrationView { status: checked, ..old },
        None => match stored {
            Some(s) => IntegrationView { approved_snapshot: Some(s), status: checked, ..old },
            None => with_status(
                old,
                error_status(
                    Some(now),
                    "No approved baseline snapshot exists for this integration."@,
                    missing_baseline_message(old.snapshot_path),
                ),
            ),
        },
    }
}

/// Starts a drift check of an integration at `now`: records the check time
/// and settles the baseline to compare against, or fails when there is none.
pub fn start_check(integration: &mut ManagedIntegration, stored: Option<SchemaSnapshot>, now: u128) -> (r: Result<(), String>)
    ensures
        final(integration)@ == started_check(old(integration)@, opt_snapshot(stored), now),
        r is Err <==> (old(integration).approved_snapshot is None && stored is None),
        r matches Err(m) ==> m@ == missing_baseline_message(old(integration)@.snapshot_path),
{
    integration.status.last_checked_epoch_ms = Some(now);
    if integration.approved_snapshot.is_some() {
        return Ok(());
    }
    match stored {
        Some(s) => {
            integration.approved_snapshot = Some(s);
            Ok(())
        },
        None => {
            let message = baseline_not_found_message(integration);
            integration.status = IntegrationStatus {
                trust_state: TrustState::Error,
                drift_detected: false,
                last_checked_epoch_ms: Some(now),
                summary: String::from_str("No approved baseline snapshot exists for this integration."),
                error_message: Some(message.clone()),
            };
            Err(message)
        },
    }
}

/// The trust state drift leads to under a policy.
pub open spec fn drift_trust(p: PolicyMode) -> TrustState {
    match p {
        PolicyMode::AlertOnly => TrustState::DriftDetected,
        PolicyMode::Block => TrustState::Blocked,
    }
}

/// A drift incident opens unless the last report found exactly these entries.
pub open spec fn opens_incident(last: Option<ReportView>, entries: Seq<EntryView>) -> bool {
    match last {
        Some(prev) => prev.entries != entries,
        None => true,
    }
}

/// Whether drift found in `report` opens a new incident for `integration`.
pub fn should_open_incident(integration: &ManagedIntegration, report: &DriftReport) -> (r: bool)
    ensures
        r == opens_incident(opt_report(integration.last_report), entries_view(report.entries@)),
{
    match &integration.last_report {
        Some(previous) => !same_entries(&previous.entries, &report.entries),
        None => true,
    }
}

/// The entries a check of `live` against the baseline of `old` finds.
pub open spec fn check_entries(old: IntegrationView, live: JsonModel) -> Seq<EntryView> {
    diff_entries("$schema"@, old.approved_snapshot->Some_0.schema, canonical(live))
}

/// An integration after its live contract `live` is compared with its
/// baseline; a new incident is dated `opened_at`.
pub open spec fn checked(old: IntegrationView, live: JsonModel, opened_at: u128) -> IntegrationView {
    let entries = check_entries(old, live);
    let summary = summary_text(entries);
    let drift = entries.len() > 0;
    IntegrationView {
        incidents: if drift && opens_incident(old.last_report, entries) {
            old.incidents.push(IncidentView { opened_at_epoch_ms: opened_at, summary, entries })
        } else {
            old.incidents
        },
        status: StatusView {
            trust_state: if drift {
                drift_trust(old.policy_mode)
            } else {
                TrustState::Approved
            },
            drift_detected: drift,
            last_checked_epoch_ms: old.status.last_checked_epoch_ms,
            summary,
            error_message: None,
        },
        last_report: Some(ReportView { drift_detected: drift, entries }),
        ..old
    }
}

/// An integration whose live contract could not be read during a check.
pub open spec fn check_fetch_failed(old: IntegrationView, error: Seq<char>) -> IntegrationView {
    with_status(
        old,
        error_status(old.status.last_checked_epoch_ms, "GatePOST could not capture the current MCP contract."@, error),
    )
}

/// Whether the change messages of a check of `live` against the baseline of
/// `integration` can all be shortened without splitting a character.
pub fn check_can_report(integration: &ManagedIntegration, live: &JsonValue) -> (r: bool)
    requires
        integration.approved_snapshot is Some,
    ensures
        r == diff_previews_fit(integration@.approved_snapshot->Some_0.schema, canonical(live@)),
{
    match &integration.approved_snapshot {
        Some(s) => {
            let c = canonicalize_value(live.deep_copy());
            crate::drift::previews_fit(&s.schema, &c)
        },
        None => false,
    }
}

/// Finishes a drift check with the live contract that was read, or the
/// error that reading it ended in; a new incident is dated `opened_at`.
pub fn finish_check(integration: &mut ManagedIntegration, fetched: Result<JsonValue, String>, opened_at: u128) -> (r: Result<(), String>)
    requires
        old(integration).approved_snapshot is Some,
        fetched matches Ok(live) ==> diff_previews_fit(
            old(integration)@.approved_snapshot->Some_0.schema,
            canonical(live@),
        ),
    ensures
        match fetched {
            Err(e) => final(integration)@ == check_fetch_failed(old(integration)@, e@) && (r matches Err(m) && m@ == e@),
            Ok(live) => final(integration)@ == checked(old(integration)@, live@, opened_at) && r is Ok,
        },
{
    match fetched {
        Err(e) => {
            integration.status = IntegrationStatus {
                trust_state: TrustState::Error,
                drift_detected: false,
                last_checked_epoch_ms: integration.status.last_checked_epoch_ms,
                summary: String::from_str("GatePOST could not capture the current MCP contract."),
                error_message: Some(e.clone()),
            };
            Err(e)
        },
        Ok(live) => {
            let report = match &integration.approved_snapshot {
                Some(s) => detect_drift(&s.schema, &live),
                None => {
                    return Ok(());
                },
            };
            let summary = report.summary();
            let ghost entries = entries_view(report.entries@);
            if report.drift_detected {
                let trust_state = match integration.policy_mode {
                    PolicyMode::AlertOnly => TrustState::DriftDetected,
                    PolicyMode::Block => TrustState::Blocked,
                };
                if should_open_incident(integration, &report) {
                    let ghost before = integration.incidents@;
                    let record = IncidentRecord {
                        opened_at_epoch_ms: opened_at,
                        summary: summary.clone(),
                        entries: copy_entries(&report.entries),
                    };
                    let ghost rv = record@;
                    integration.incidents.push(record);
                    assert(incidents_view(integration.incidents@) =~= incidents_view(before).push(rv));
                }
                integration.status = IntegrationStatus {
                    trust_state,
                    drift_detected: true,
                    last_checked_epoch_ms: integration.status.last_checked_epoch_ms,
                    summary,
                    error_message: None,
                };
            } else {
                integration.status = IntegrationStatus {
                    trust_state: TrustState::Approved,
                    drift_detected: false,
                    last_checked_epoch_ms: integration.status.last_checked_epoch_ms,
                    summary,
                    error_message: None,
                };
            }
            integration.last_report = Some(report);
            Ok(())
        },
    }
}


/// Where the live contract of an integration is read from.
pub enum LiveSource {
    /// A JSON file at this path.
    File(String),
    /// A JSON tool catalog served at this URL.
    Http(String),
    /// An MCP server started with this command and arguments, and the tool
    /// calls whose results belong to its contract.
    Mcp { command: String, args: Vec<String>, samples: Vec<ToolCallSample> },
}

pub enum SourceView {
    File(Seq<char>),
    Http(Seq<char>),
    Mcp(Seq<char>, Seq<Seq<char>>, Seq<SampleView>),
}

pub open spec fn source_view(s: LiveSource) -> SourceView {
    match s {
        LiveSource::File(p) => SourceView::File(p@),
        LiveSource::Http(u) => SourceView::Http(u@),
        LiveSource::Mcp { command, args, samples } => SourceView::Mcp(command@, texts(args@), samples_view(samples@)),
    }
}

/// The source an integration's live contract is read from, or what its
/// configuration lacks for its source kind.
pub open spec fn live_source_of(v: IntegrationView) -> Result<SourceView, Seq<char>> {
    match v.source_kind {
        SourceKind::FileJson => match v.live_schema_path {
            Some(p) => Ok(SourceView::File(p)),
            None => Err("This integration is missing a live schema path."@),
        },
        SourceKind::HttpJson => match v.http_url {
            Some(u) => Ok(SourceView::Http(u)),
            None => Err("This integration is missing an HTTP schema URL."@),
        },
        SourceKind::McpStdio => match v.mcp_command {
            Some(c) => Ok(SourceView::Mcp(c, v.mcp_args, v.sample_tool_calls)),
            None => Err("This integration is missing an MCP command."@),
        },
    }
}

/// The source an integration's live contract is read from.
pub fn live_source(integration: &ManagedIntegration) -> (r: Result<LiveSource, String>)
    ensures
        match live_source_of(integration@) {
            Ok(s) => r matches Ok(x) && source_view(x) == s,
            Err(e) => r matches Err(m) && m@ == e,
        },
{
    match integration.source_kind {
        SourceKind::FileJson => match &integration.live_schema_path {
            Some(p) => Ok(LiveSource::File(p.clone())),
            None => Err(String::from_str("This integration is missing a live schema path.")),
        },
        SourceKind::HttpJson => match &integration.http_url {
            Some(u) => Ok(LiveSource::Http(u.clone())),
            None => Err(String::from_str("This integration is missing an HTTP schema URL.")),
        },
        SourceKind::McpStdio => match &integration.mcp_command {
            Some(c) => Ok(
                LiveSource::Mcp {
                    command: c.clone(),
                    args: copy_strings(&integration.mcp_args),
                    samples: copy_samples(&integration.sample_tool_calls),
                },
            ),
            None => Err(String::from_str("This integration is missing an MCP command.")),
        },
    }
}

/// A check is due when the integration was never checked, or when at least
/// its check interval has passed since the last check (no time passes when
/// the clock reads earlier than that check).
pub open spec fn check_due(v: IntegrationView, now: u128) -> bool {
    match v.status.last_checked_epoch_ms {
        Some(t) => (if now >= t {
            now - t
        } else {
            0
        }) >= v.check_interval_seconds * 1000,
        None => true,
    }
}

/// How an integration's live contract source is shown.
pub open spec fn source_text(v: IntegrationView) -> Seq<char> {
    match v.source_kind {
        SourceKind::FileJson => match v.live_schema_path {
            Some(p) => p,
            None => "No file path configured"@,
        },
        SourceKind::HttpJson => match v.http_url {
            Some(u) => u,
            None => "No HTTP URL configured"@,
        },
        SourceKind::McpStdio => {
            let command = match v.mcp_command {
                Some(c) => c,
                None => "<missing command>"@,
            };
            if v.mcp_args.len() == 0 {
                command
            } else {
                command + " "@ + joined(v.mcp_args, " "@)
            }
        },
    }
}

impl ManagedIntegration {
    /// Whether a check of this integration is due at `now_epoch_ms`.
    pub fn should_check(&self, now_epoch_ms: u128) -> (r: bool)
        ensures
            r == check_due(self@, now_epoch_ms),
    {
        match self.status.last_checked_epoch_ms {
            Some(last_checked) => {
                let elapsed: u128 = if now_epoch_ms >= last_checked {
                    now_epoch_ms - last_checked
                } else {
                    0
                };
                elapsed >= (self.check_interval_seconds as u128) * 1000
            },
            None => true,
        }
    }

    /// Where this integration's live contract comes from, as shown to people.
    pub fn source_summary(&self) -> (r: String)
        ensures
            r@ == source_text(self@),
    {
        match self.source_kind {
            SourceKind::FileJson => match &self.live_schema_path {
                Some(p) => p.clone(),
                None => String::from_str("No file path configured"),
            },
            SourceKind::HttpJson => match &self.http_url {
                Some(u) => u.clone(),
                None => String::from_str("No HTTP URL configured"),
            },
            SourceKind::McpStdio => {
                let mut command = match &self.mcp_command {
                    Some(c) => c.clone(),
                    None => String::from_str("<missing command>"),
                };
                if self.mcp_args.len() == 0 {
                    command
                } else {
                    command.append(" ");
                    let rest = join_strings(&self.mcp_args, " ");
                    assert(Seq::new(self.mcp_args@.len(), |i: int| self.mcp_args@[i]@) =~= texts(self.mcp_args@));
                    command.append(rest.as_str());
                    command
                }
            },
        }
    }
}

/// Every integration, with the clock's reading.
pub fn dashboard_summary(store: &GatePostStore) -> (r: DashboardSummary)
    ensures
        integrations_view(r.integrations@) == store@,
{
    DashboardSummary {
        generated_at_epoch_ms: now_epoch_ms(),
        integrations: copy_integrations(&store.integrations),
    }
}

} // verus!
