//! Protected integrations: their configuration, approved baseline, drift
//! history and trust state, and the store that holds them.

use vstd::prelude::*;
use crate::drift::{DriftEntry, DriftReport, EntryView, entries_view, copy_entries};
use crate::json::{JsonModel, JsonValue};

verus! {

/// Whether an integration can currently be trusted.
#[derive(Clone, Copy, Debug, PartialEq, Eq, Structural)]
pub enum TrustState {
    Uninitialized,
    Approved,
    DriftDetected,
    Blocked,
    Error,
}

/// What drift does to an integration's trust state.
#[derive(Clone, Copy, Debug, PartialEq, Eq, Structural)]
pub enum PolicyMode {
    AlertOnly,
    Block,
}

impl Default for PolicyMode {
    fn default() -> (r: Self)
        ensures
            r == PolicyMode::AlertOnly,
    {
        PolicyMode::AlertOnly
    }
}

/// Where the live contract of an integration is read from.
#[derive(Clone, Copy, Debug, PartialEq, Eq, Structural)]
pub enum SourceKind {
    FileJson,
    HttpJson,
    McpStdio,
}

impl Default for SourceKind {
    fn default() -> (r: Self)
        ensures
            r == SourceKind::FileJson,
    {
        SourceKind::FileJson
    }
}

/// A tool call whose result is captured into an MCP baseline.
#[derive(Debug)]
pub struct ToolCallSample {
    pub name: String,
    pub arguments: JsonValue,
}

/// Who approved a snapshot, when, and for which system.
#[derive(Debug)]
pub struct SnapshotMetadata {
    pub system: String,
    pub environment: String,
    pub server: String,
    pub approved_by: String,
    pub approved_at_epoch_ms: u128,
}

/// An approved contract.
#[derive(Debug)]
pub struct SchemaSnapshot {
    pub metadata: SnapshotMetadata,
    pub schema: JsonValue,
}

/// An opened drift incident.
#[derive(Debug)]
pub struct IncidentRecord {
    pub opened_at_epoch_ms: u128,
    pub summary: String,
    pub entries: Vec<DriftEntry>,
}

/// The current standing of an integration.
#[derive(Debug)]
pub struct IntegrationStatus {
    pub trust_state: TrustState,
    pub drift_detected: bool,
    pub last_checked_epoch_ms: Option<u128>,
    pub summary: String,
    pub error_message: Option<String>,
}

/// A protected integration.
#[derive(Debug)]
pub struct ManagedIntegration {
    pub id: String,
    pub name: String,
    pub system: String,
    pub environment: String,
    pub server: String,
    pub source_kind: SourceKind,
    pub live_schema_path: Option<String>,
    pub http_url: Option<String>,
    pub mcp_command: Option<String>,
    pub mcp_args: Vec<String>,
    pub sample_tool_calls: Vec<ToolCallSample>,
    pub snapshot_path: String,
    pub policy_mode: PolicyMode,
    pub check_interval_seconds: u64,
    pub approved_snapshot: Option<SchemaSnapshot>,
    pub last_report: Option<DriftReport>,
    pub incidents: Vec<IncidentRecord>,
    pub status: IntegrationStatus,
}

/// Every protected integration.
#[derive(Debug)]
pub struct GatePostStore {
    pub integrations: Vec<ManagedIntegration>,
}

impl Default for GatePostStore {
    fn default() -> (r: Self)
        ensures
            r.integrations@.len() == 0,
    {
        GatePostStore { integrations: Vec::new() }
    }
}

/// The configuration of a new or changed integration.
#[derive(Debug)]
pub struct CreateIntegrationRequest {
    pub name: String,
    pub system: String,
    pub environment: String,
    pub server: String,
    pub source_kind: SourceKind,
    pub live_schema_path: Option<String>,
    pub http_url: Option<String>,
    pub mcp_command: Option<String>,
    pub mcp_args: Vec<String>,
    pub sample_tool_calls: Vec<ToolCallSample>,
    pub policy_mode: PolicyMode,
    pub check_interval_seconds: u64,
}

/// The configuration that replaces an integration's.
pub type UpdateIntegrationRequest = CreateIntegrationRequest;

/// Who approves a baseline.
#[derive(Debug)]
pub struct ApprovalRequest {
    pub approved_by: String,
}

/// Every integration at one moment.
#[derive(Debug)]
pub struct DashboardSummary {
    pub generated_at_epoch_ms: u128,
    pub integrations: Vec<ManagedIntegration>,
}

// ----- views -----

pub open spec fn opt_text(o: Option<String>) -> Option<Seq<char>> {
    match o {
        Some(s) => Some(s@),
        None => None,
    }
}

pub open spec fn texts(v: Seq<String>) -> Seq<Seq<char>> {
    Seq::new(v.len(), |i: int| v[i]@)
}

pub struct SampleView {
    pub name: Seq<char>,
    pub arguments: JsonModel,
}

impl View for ToolCallSample {
    type V = SampleView;

    open spec fn view(&self) -> SampleView {
        SampleView { name: self.name@, arguments: self.arguments@ }
    }
}

pub open spec fn samples_view(v: Seq<ToolCallSample>) -> Seq<SampleView> {
    Seq::new(v.len(), |i: int| v[i]@)
}

pub struct MetadataView {
    pub system: Seq<char>,
    pub environment: Seq<char>,
    pub server: Seq<char>,
    pub approved_by: Seq<char>,
    pub approved_at_epoch_ms: u128,
}

impl View for SnapshotMetadata {
    type V = MetadataView;

    open spec fn view(&self) -> MetadataView {
        MetadataView {
            system: self.system@,
            environment: self.environment@,
            server: self.server@,
            approved_by: self.approved_by@,
            approved_at_epoch_ms: self.approved_at_epoch_ms,
        }
    }
}

pub struct SnapshotView {
    pub metadata: MetadataView,
    pub schema: JsonModel,
}

impl View for SchemaSnapshot {
    type V = SnapshotView;

    open spec fn view(&self) -> SnapshotView {
        SnapshotView { metadata: self.metadata@, schema: self.schema@ }
    }
}

pub open spec fn opt_snapshot(o: Option<SchemaSnapshot>) -> Option<SnapshotView> {
    match o {
        Some(s) => Some(s@),
        None => None,
    }
}

pub struct ReportView {
    pub drift_detected: bool,
    pub entries: Seq<EntryView>,
}

pub open spec fn report_view(r: DriftReport) -> ReportView {
    ReportView { drift_detected: r.drift_detected, entries: entries_view(r.entries@) }
}

pub open spec fn opt_report(o: Option<DriftReport>) -> Option<ReportView> {
    match o {
        Some(r) => Some(report_view(r)),
        None => None,
    }
}

pub struct IncidentView {
    pub opened_at_epoch_ms: u128,
    pub summary: Seq<char>,
    pub entries: Seq<EntryView>,
}

impl View for IncidentRecord {
    type V = IncidentView;

    open spec fn view(&self) -> IncidentView {
        IncidentView {
            opened_at_epoch_ms: self.opened_at_epoch_ms,
            summary: self.summary@,
            entries: entries_view(self.entries@),
        }
    }
}

pub open spec fn incidents_view(v: Seq<IncidentRecord>) -> Seq<IncidentView> {
    Seq::new(v.len(), |i: int| v[i]@)
}

pub struct StatusView {
    pub trust_state: TrustState,
    pub drift_detected: bool,
    pub last_checked_epoch_ms: Option<u128>,
    pub summary: Seq<char>,
    pub error_message: Option<Seq<char>>,
}

impl View for IntegrationStatus {
    type V = StatusView;

    open spec fn view(&self) -> StatusView {
        StatusView {
            trust_state: self.trust_state,
            drift_detected: self.drift_detected,
            last_checked_epoch_ms: self.last_checked_epoch_ms,
            summary: self.summary@,
            error_message: opt_text(self.error_message),
        }
    }
}

pub struct IntegrationView {
    pub id: Seq<char>,
    pub name: Seq<char>,
    pub system: Seq<char>,
    pub environment: Seq<char>,
    pub server: Seq<char>,
    pub source_kind: SourceKind,
    pub live_schema_path: Option<Seq<char>>,
    pub http_url: Option<Seq<char>>,
    pub mcp_command: Option<Seq<char>>,
    pub mcp_args: Seq<Seq<char>>,
    pub sample_tool_calls: Seq<SampleView>,
    pub snapshot_path: Seq<char>,
    pub policy_mode: PolicyMode,
    pub check_interval_seconds: u64,
    pub approved_snapshot: Option<SnapshotView>,
    pub last_report: Option<ReportView>,
    pub incidents: Seq<IncidentView>,
    pub status: StatusView,
}

impl View for ManagedIntegration {
    type V = IntegrationView;

    open spec fn view(&self) -> IntegrationView {
        IntegrationView {
            id: self.id@,
            name: self.name@,
            system: self.system@,
            environment: self.environment@,
            server: self.server@,
            source_kind: self.source_kind,
            live_schema_path: opt_text(self.live_schema_path),
            http_url: opt_text(self.http_url),
            mcp_command: opt_text(self.mcp_command),
            mcp_args: texts(self.mcp_args@),
            sample_tool_calls: samples_view(self.sample_tool_calls@),
            snapshot_path: self.snapshot_path@,
            policy_mode: self.policy_mode,
            check_interval_seconds: self.check_interval_seconds,
            approved_snapshot: opt_snapshot(self.approved_snapshot),
            last_report: opt_report(self.last_report),
            incidents: incidents_view(self.incidents@),
            status: self.status@,
        }
    }
}

pub open spec fn integrations_view(v: Seq<ManagedIntegration>) -> Seq<IntegrationView> {
    Seq::new(v.len(), |i: int| v[i]@)
}

impl View for GatePostStore {
    type V = Seq<IntegrationView>;

    open spec fn view(&self) -> Seq<IntegrationView> {
        integrations_view(self.integrations@)
    }
}

pub struct RequestView {
    pub name: Seq<char>,
    pub system: Seq<char>,
    pub environment: Seq<char>,
    pub server: Seq<char>,
    pub source_kind: SourceKind,
    pub live_schema_path: Option<Seq<char>>,
    pub http_url: Option<Seq<char>>,
    pub mcp_command: Option<Seq<char>>,
    pub mcp_args: Seq<Seq<char>>,
    pub sample_tool_calls: Seq<SampleView>,
    pub policy_mode: PolicyMode,
    pub check_interval_seconds: u64,
}

impl View for CreateIntegrationRequest {
    type V = RequestView;

    open spec fn view(&self) -> RequestView {
        RequestView {
            name: self.name@,
            system: self.system@,
            environment: self.environment@,
            server: self.server@,
            source_kind: self.source_kind,
            live_schema_path: opt_text(self.live_schema_path),
            http_url: opt_text(self.http_url),
            mcp_command: opt_text(self.mcp_command),
            mcp_args: texts(self.mcp_args@),
            sample_tool_calls: samples_view(self.sample_tool_calls@),
            policy_mode: self.policy_mode,
            check_interval_seconds: self.check_interval_seconds,
        }
    }
}


// ----- copies -----

pub fn copy_opt_string(o: &Option<String>) -> (r: Option<String>)
    ensures
        opt_text(r) == opt_text(*o),
{
    match o {
        Some(s) => Some(s.clone()),
        None => None,
    }
}

pub fn copy_strings(v: &Vec<String>) -> (r: Vec<String>)
    ensures
        texts(r@) == texts(v@),
{
    let mut r: Vec<String> = Vec::new();
    let mut i: usize = 0;
    while i < v.len()
        invariant
            i <= v@.len(),
            r@.len() == i,
            forall|k: int| 0 <= k < i ==> #[trigger] r@[k]@ == v@[k]@,
        decreases v@.len() - i,
    {
        r.push(v[i].clone());
        i = i + 1;
    }
    assert(texts(r@) =~= texts(v@));
    r
}

impl ToolCallSample {
    pub fn duplicate(&self) -> (r: ToolCallSample)
        ensures
            r@ == self@,
    {
        ToolCallSample { name: self.name.clone(), arguments: self.arguments.deep_copy() }
    }
}

pub fn copy_samples(v: &Vec<ToolCallSample>) -> (r: Vec<ToolCallSample>)
    ensures
        samples_view(r@) == samples_view(v@),
{
    let mut r: Vec<ToolCallSample> = Vec::new();
    let mut i: usize = 0;
    while i < v.len()
        invariant
            i <= v@.len(),
            r@.len() == i,
            forall|k: int| 0 <= k < i ==> #[trigger] r@[k]@ == v@[k]@,
        decreases v@.len() - i,
    {
        r.push(v[i].duplicate());
        i = i + 1;
    }
    assert(samples_view(r@) =~= samples_view(v@));
    r
}

impl SnapshotMetadata {
    pub fn duplicate(&self) -> (r: SnapshotMetadata)
        ensures
            r@ == self@,
    {
        SnapshotMetadata {
            system: self.system.clone(),
            environment: self.environment.clone(),
            server: self.server.clone(),
            approved_by: self.approved_by.clone(),
            approved_at_epoch_ms: self.approved_at_epoch_ms,
        }
    }
}

impl SchemaSnapshot {
    pub fn duplicate(&self) -> (r: SchemaSnapshot)
        ensures
            r@ == self@,
    {
        SchemaSnapshot { metadata: self.metadata.duplicate(), schema: self.schema.deep_copy() }
    }
}

pub fn copy_opt_snapshot(o: &Option<SchemaSnapshot>) -> (r: Option<SchemaSnapshot>)
    ensures
        opt_snapshot(r) == opt_snapshot(*o),
{
    match o {
        Some(s) => Some(s.duplicate()),
        None => None,
    }
}

pub fn copy_opt_report(o: &Option<DriftReport>) -> (r: Option<DriftReport>)
    ensures
        opt_report(r) == opt_report(*o),
{
    match o {
        Some(s) => Some(s.duplicate()),
        None => None,
    }
}

impl IncidentRecord {
    pub fn duplicate(&self) -> (r: IncidentRecord)
        ensures
            r@ == self@,
    {
        IncidentRecord {
            opened_at_epoch_ms: self.opened_at_epoch_ms,
            summary: self.summary.clone(),
            entries: copy_entries(&self.entries),
        }
    }
}

pub fn copy_incidents(v: &Vec<IncidentRecord>) -> (r: Vec<IncidentRecord>)
    ensures
        incidents_view(r@) == incidents_view(v@),
{
    let mut r: Vec<IncidentRecord> = Vec::new();
    let mut i: usize = 0;
    while i < v.len()
        invariant
            i <= v@.len(),
            r@.len() == i,
            forall|k: int| 0 <= k < i ==> #[trigger] r@[k]@ == v@[k]@,
        decreases v@.len() - i,
    {
        r.push(v[i].duplicate());
        i = i + 1;
    }
    assert(incidents_view(r@) =~= incidents_view(v@));
    r
}

impl IntegrationStatus {
    pub fn duplicate(&self) -> (r: IntegrationStatus)
        ensures
            r@ == self@,
    {
        IntegrationStatus {
            trust_state: self.trust_state,
            drift_detected: self.drift_detected,
            last_checked_epoch_ms: self.last_checked_epoch_ms,
            summary: self.summary.clone(),
            error_message: copy_opt_string(&self.error_message),
        }
    }
}

impl ManagedIntegration {
    pub fn duplicate(&self) -> (r: ManagedIntegration)
        ensures
            r@ == self@,
    {
        ManagedIntegration {
            id: self.id.clone(),
            name: self.name.clone(),
            system: self.system.clone(),
            environment: self.environment.clone(),
            server: self.server.clone(),
            source_kind: self.source_kind,
            live_schema_path: copy_opt_string(&self.live_schema_path),
            http_url: copy_opt_string(&self.http_url),
            mcp_command: copy_opt_string(&self.mcp_command),
            mcp_args: copy_strings(&self.mcp_args),
            sample_tool_calls: copy_samples(&self.sample_tool_calls),
            snapshot_path: self.snapshot_path.clone(),
            policy_mode: self.policy_mode,
            check_interval_seconds: self.check_interval_seconds,
            approved_snapshot: copy_opt_snapshot(&self.approved_snapshot),
            last_report: copy_opt_report(&self.last_report),
            incidents: copy_incidents(&self.incidents),
            status: self.status.duplicate(),
        }
    }
}

pub fn copy_integrations(v: &Vec<ManagedIntegration>) -> (r: Vec<ManagedIntegration>)
    ensures
        integrations_view(r@) == integrations_view(v@),
{
    let mut r: Vec<ManagedIntegration> = Vec::new();
    let mut i: usize = 0;
    while i < v.len()
        invariant
            i <= v@.len(),
            r@.len() == i,
            forall|k: int| 0 <= k < i ==> #[trigger] r@[k]@ == v@[k]@,
        decreases v@.len() - i,
    {
        r.push(v[i].duplicate());
        i = i + 1;
    }
    assert(integrations_view(r@) =~= integrations_view(v@));
    r
}

} // verus!
