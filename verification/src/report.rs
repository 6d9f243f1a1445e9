//! The remediation report: what a fix plan would do, file by file and rule by rule,
//! with the evidence for every item.

use crate::apply::{all_edits, file_diff, preview_file};
use crate::engine::{
    bottom_up, fix_of, fixes_at, infer_strategy_from_labels, inferred_from, make_manual_item,
    make_request, manual_item_of, path_of_uri, plan_incident_fix, plan_of, readable,
    readable_source, request_of, sources_view, strategy_for, strategy_of_label, uri_to_path,
    with_incident, with_incidents, with_rulesets, with_violations, SourceView, Sources,
};
use crate::fix::{
    fix_views, request_views, strategies_view, FixPlan, FixPlanView, FixSource, FixStrategy,
    FixStrategyView, LlmFixRequest, LlmFixRequestView, ManualFixItem, ManualFixItemView, PlannedFix,
    PlannedFixView, Strategies,
};
use crate::goose::{build_goose_plan_batches, planned_views, plans_requests, PlannedGooseBatch};
use crate::incident::{
    copy_links, copy_variables, link_views, variables_view, ExternalLink, Incident, IncidentView,
    Location, Variables,
};
use crate::js_fix::{in_node_modules, opt_source, JsFixProvider};
use crate::llm::{
    build_openai_plan_request, planned_request, PlannedOpenAiRequest, PlannedOpenAiRequestView,
};
use crate::ruleset::{rule_link_views, Category, Link, RuleSet, Violation, RuleLinkView};
use crate::sorting::{in_stable_order, key_values, stable_order_is_sorted, stable_sort};
use crate::text::{
    copy_list, copy_opt, held, lemma_in_pushed, lines, lines_text, opt_text, same_text, texts, utf8,
};
use crate::text_map::{
    in_key_order, order_of, push_to, text_less, text_less_irreflexive, text_less_transitive,
    PathMap, TextMap, TextOrder,
};
use sha2::Digest;
use vstd::prelude::*;

verus! {

// ── The report ──────────────────────────────────────────────────────────

/// Where strategies were read from.
#[derive(Debug)]
pub struct StrategySources {
    pub rules_strategies: Option<String>,
    pub external_strategies: Option<String>,
}

impl Default for StrategySources {
    fn default() -> (r: StrategySources)
        ensures
            r.rules_strategies is None,
            r.external_strategies is None,
    {
        StrategySources { rules_strategies: None, external_strategies: None }
    }
}

/// How a strategy was found.
#[derive(Debug, Clone, Copy, PartialEq, Eq, Structural)]
pub enum StrategyResolutionSource {
    ExplicitRulesStrategies,
    ExplicitExternalStrategies,
    LabelInference,
    FallbackLlm,
}

/// The work that an item stands for.
#[derive(Debug, Clone, Copy, PartialEq, Eq, Structural)]
pub enum RemediationKind {
    Pattern,
    Llm,
    Manual,
}

/// Why an item is left to manual handling.
#[derive(Debug, Clone, Copy, PartialEq, Eq, Structural)]
pub enum ManualReason {
    ExplicitManualStrategy,
    LabelInferredManual,
}

/// The incident that an item stands for, as it was found.
#[derive(Debug)]
pub struct IncidentSnapshot {
    pub file_uri: String,
    pub line_number: Option<u32>,
    pub code_location: Option<Location>,
    pub message: String,
    pub code_snip: Option<String>,
    pub variables: Variables,
    pub effort: Option<i64>,
    pub links: Vec<ExternalLink>,
    pub is_dependency_incident: bool,
}

/// The strategy of an item and how it was found.
#[derive(Debug)]
pub struct StrategyResolution {
    pub chosen_strategy: String,
    pub source: StrategyResolutionSource,
    pub source_detail: Option<String>,
}

/// What is to be done about one incident.
#[derive(Debug)]
pub struct RemediationItem {
    pub kind: RemediationKind,
    pub rule_id: String,
    pub ruleset_name: String,
    pub rule_description: String,
    pub rule_category: Option<Category>,
    pub rule_labels: Vec<String>,
    pub rule_links: Vec<Link>,
    pub rule_effort: Option<i32>,
    pub strategy_resolution: StrategyResolution,
    pub incident: IncidentSnapshot,
    pub planned_fix: Option<PlannedFix>,
    pub llm_request: Option<LlmFixRequest>,
    pub manual_item: Option<ManualFixItem>,
    pub manual_reason: Option<ManualReason>,
}

/// The items of a file.
#[derive(Debug)]
pub struct RemediationFile {
    pub file_path: String,
    pub file_uri: String,
    pub exists: bool,
    pub size_bytes: Option<u64>,
    pub line_count: Option<u32>,
    pub sha256_before: Option<String>,
    pub source_before: Option<String>,
    pub deterministic_diff: Option<String>,
    pub items: Vec<RemediationItem>,
}

/// How often a rule comes up.
#[derive(Debug)]
pub struct RuleSummary {
    pub ruleset_name: String,
    pub rule_id: String,
    pub rule_description: String,
    pub rule_category: Option<Category>,
    pub rule_labels: Vec<String>,
    pub incident_count: usize,
    pub pattern_item_count: usize,
    pub llm_item_count: usize,
    pub manual_item_count: usize,
    pub files: Vec<String>,
}

/// An error that the analysis met with.
#[derive(Debug)]
pub struct ProviderErrorSummary {
    pub ruleset_name: String,
    pub rule_id: Option<String>,
    pub message: String,
}

/// Counts over the whole report.
#[derive(Debug, Clone, Copy, PartialEq, Eq, Structural)]
pub struct RemediationSummary {
    pub ruleset_count: usize,
    pub violation_count: usize,
    pub incident_count: usize,
    pub provider_error_count: usize,
    pub report_file_count: usize,
    pub files_with_deterministic_edits: usize,
    pub deterministic_fix_count: usize,
    pub deterministic_edit_count: usize,
    pub llm_item_count: usize,
    pub manual_item_count: usize,
}

impl Default for RemediationSummary {
    fn default() -> (r: RemediationSummary)
        ensures
            r == (RemediationSummary {
                ruleset_count: 0,
                violation_count: 0,
                incident_count: 0,
                provider_error_count: 0,
                report_file_count: 0,
                files_with_deterministic_edits: 0,
                deterministic_fix_count: 0,
                deterministic_edit_count: 0,
                llm_item_count: 0,
                manual_item_count: 0,
            }),
    {
        RemediationSummary {
            ruleset_count: 0,
            violation_count: 0,
            incident_count: 0,
            provider_error_count: 0,
            report_file_count: 0,
            files_with_deterministic_edits: 0,
            deterministic_fix_count: 0,
            deterministic_edit_count: 0,
            llm_item_count: 0,
            manual_item_count: 0,
        }
    }
}

/// What language models would be asked.
#[derive(Debug)]
pub struct LlmPlanPreview {
    pub openai_requests: Vec<PlannedOpenAiRequest>,
    pub goose_batches: Vec<PlannedGooseBatch>,
}

impl Default for LlmPlanPreview {
    fn default() -> (r: LlmPlanPreview)
        ensures
            r.openai_requests@.len() == 0,
            r.goose_batches@.len() == 0,
    {
        LlmPlanPreview { openai_requests: Vec::new(), goose_batches: Vec::new() }
    }
}

/// The report on a fix plan.
#[derive(Debug)]
pub struct RemediationPlanReport {
    pub schema_version: String,
    pub generated_at_utc: String,
    pub tool_version: String,
    pub project_root: String,
    pub analysis_input: String,
    pub output_path: String,
    pub ruleset_names: Vec<String>,
    pub rules_filter: Option<Vec<String>>,
    pub strategy_sources: StrategySources,
    pub summary: RemediationSummary,
    pub provider_errors: Vec<ProviderErrorSummary>,
    pub files: Vec<RemediationFile>,
    pub by_rule: Vec<RuleSummary>,
    pub llm_plan: LlmPlanPreview,
}

/// What a report says about its origins.
#[derive(Debug)]
pub struct ReportBuildOptions {
    pub analysis_input: String,
    pub output_path: String,
    pub rules_filter: Option<Vec<String>>,
    pub strategy_sources: StrategySources,
    /// Where the strategy of a rule was read from.
    pub strategy_origins: TextMap<StrategyResolutionSource>,
}

// ── Contents ────────────────────────────────────────────────────────────

pub ghost struct ResolutionView {
    pub chosen_strategy: Seq<char>,
    pub source: StrategyResolutionSource,
    pub source_detail: Option<Seq<char>>,
}

pub ghost struct ItemView {
    pub kind: RemediationKind,
    pub rule_id: Seq<char>,
    pub ruleset_name: Seq<char>,
    pub rule_description: Seq<char>,
    pub rule_category: Option<Category>,
    pub rule_labels: Seq<Seq<char>>,
    pub rule_links: Seq<RuleLinkView>,
    pub rule_effort: Option<i32>,
    pub strategy_resolution: ResolutionView,
    pub incident: IncidentView,
    pub planned_fix: Option<PlannedFixView>,
    pub llm_request: Option<LlmFixRequestView>,
    pub manual_item: Option<ManualFixItemView>,
    pub manual_reason: Option<ManualReason>,
}

pub ghost struct FileView {
    pub file_path: Seq<char>,
    pub file_uri: Seq<char>,
    pub exists: bool,
    pub size_bytes: Option<u64>,
    pub line_count: Option<u32>,
    pub sha256_before: Option<Seq<char>>,
    pub source_before: Option<Seq<char>>,
    pub deterministic_diff: Option<Seq<char>>,
    pub items: Seq<ItemView>,
}

pub ghost struct RuleSummaryView {
    pub ruleset_name: Seq<char>,
    pub rule_id: Seq<char>,
    pub rule_description: Seq<char>,
    pub rule_category: Option<Category>,
    pub rule_labels: Seq<Seq<char>>,
    pub incident_count: nat,
    pub pattern_item_count: nat,
    pub llm_item_count: nat,
    pub manual_item_count: nat,
    pub files: Seq<Seq<char>>,
}

pub ghost struct ProviderErrorView {
    pub ruleset_name: Seq<char>,
    pub rule_id: Option<Seq<char>>,
    pub message: Seq<char>,
}

pub ghost struct StrategySourcesView {
    pub rules_strategies: Option<Seq<char>>,
    pub external_strategies: Option<Seq<char>>,
}

impl StrategySources {
    pub open spec fn view(&self) -> StrategySourcesView {
        StrategySourcesView {
            rules_strategies: opt_text(self.rules_strategies),
            external_strategies: opt_text(self.external_strategies),
        }
    }

    fn copy(&self) -> (r: StrategySources)
        ensures
            r@ == self@,
    {
        StrategySources {
            rules_strategies: copy_opt(&self.rules_strategies),
            external_strategies: copy_opt(&self.external_strategies),
        }
    }
}

impl IncidentSnapshot {
    pub open spec fn view(&self) -> IncidentView {
        IncidentView {
            file_uri: self.file_uri@,
            line_number: self.line_number,
            code_location: self.code_location,
            message: self.message@,
            code_snip: opt_text(self.code_snip),
            variables: variables_view(self.variables),
            effort: self.effort,
            links: link_views(self.links@),
            is_dependency_incident: self.is_dependency_incident,
        }
    }

    /// The incident as it stands.
    pub fn from(incident: &Incident) -> (r: IncidentSnapshot)
        ensures
            r@ == incident@,
    {
        IncidentSnapshot {
            file_uri: incident.file_uri.clone(),
            line_number: incident.line_number,
            code_location: incident.code_location,
            message: incident.message.clone(),
            code_snip: copy_opt(&incident.code_snip),
            variables: copy_variables(&incident.variables),
            effort: incident.effort,
            links: copy_links(&incident.links),
            is_dependency_incident: incident.is_dependency_incident,
        }
    }
}

impl StrategyResolution {
    pub open spec fn view(&self) -> ResolutionView {
        ResolutionView {
            chosen_strategy: self.chosen_strategy@,
            source: self.source,
            source_detail: opt_text(self.source_detail),
        }
    }
}

impl RemediationItem {
    pub open spec fn view(&self) -> ItemView {
        ItemView {
            kind: self.kind,
            rule_id: self.rule_id@,
            ruleset_name: self.ruleset_name@,
            rule_description: self.rule_description@,
            rule_category: self.rule_category,
            rule_labels: texts(self.rule_labels@),
            rule_links: rule_link_views(self.rule_links@),
            rule_effort: self.rule_effort,
            strategy_resolution: self.strategy_resolution@,
            incident: self.incident@,
            planned_fix: match self.planned_fix {
                Some(f) => Some(f@),
                None => None,
            },
            llm_request: match self.llm_request {
                Some(q) => Some(q@),
                None => None,
            },
            manual_item: match self.manual_item {
                Some(m) => Some(m@),
                None => None,
            },
            manual_reason: self.manual_reason,
        }
    }
}

pub open spec fn item_views(v: Seq<RemediationItem>) -> Seq<ItemView> {
    Seq::new(v.len(), |i: int| v[i]@)
}

impl RemediationFile {
    pub open spec fn view(&self) -> FileView {
        FileView {
            file_path: self.file_path@,
            file_uri: self.file_uri@,
            exists: self.exists,
            size_bytes: self.size_bytes,
            line_count: self.line_count,
            sha256_before: opt_text(self.sha256_before),
            source_before: opt_text(self.source_before),
            deterministic_diff: opt_text(self.deterministic_diff),
            items: item_views(self.items@),
        }
    }
}

pub open spec fn file_views(v: Seq<RemediationFile>) -> Seq<FileView> {
    Seq::new(v.len(), |i: int| v[i]@)
}

impl RuleSummary {
    pub open spec fn view(&self) -> RuleSummaryView {
        RuleSummaryView {
            ruleset_name: self.ruleset_name@,
            rule_id: self.rule_id@,
            rule_description: self.rule_description@,
            rule_category: self.rule_category,
            rule_labels: texts(self.rule_labels@),
            incident_count: self.incident_count as nat,
            pattern_item_count: self.pattern_item_count as nat,
            llm_item_count: self.llm_item_count as nat,
            manual_item_count: self.manual_item_count as nat,
            files: texts(self.files@),
        }
    }
}

pub open spec fn summary_views(v: Seq<RuleSummary>) -> Seq<RuleSummaryView> {
    Seq::new(v.len(), |i: int| v[i]@)
}

impl ProviderErrorSummary {
    pub open spec fn view(&self) -> ProviderErrorView {
        ProviderErrorView {
            ruleset_name: self.ruleset_name@,
            rule_id: opt_text(self.rule_id),
            message: self.message@,
        }
    }
}

pub open spec fn error_views(v: Seq<ProviderErrorSummary>) -> Seq<ProviderErrorView> {
    Seq::new(v.len(), |i: int| v[i]@)
}

pub open spec fn openai_views(v: Seq<PlannedOpenAiRequest>) -> Seq<PlannedOpenAiRequestView> {
    Seq::new(v.len(), |i: int| v[i]@)
}

// ── Files ───────────────────────────────────────────────────────────────

/// What `sha2::Sha256` computes of some bytes.
pub uninterp spec fn sha256_digest(bytes: Seq<u8>) -> Seq<u8>;

/// `sha2::Sha256::digest`: its result is a function of the bytes, named by
/// `sha256_digest`, and 32 bytes long.
#[verifier::external_body]
fn sha256(bytes: &[u8]) -> (r: Vec<u8>)
    ensures
        r@ == sha256_digest(bytes@),
        r@.len() == 32,
{
    sha2::Sha256::digest(bytes).to_vec()
}

pub open spec fn hex_digit(d: nat) -> char {
    if d < 10 {
        (48 + d) as char
    } else {
        (87 + d) as char
    }
}

/// Bytes in lower-case hexadecimal, two digits each.
pub open spec fn hex(bytes: Seq<u8>) -> Seq<char>
    decreases bytes.len(),
{
    if bytes.len() == 0 {
        Seq::empty()
    } else {
        hex(bytes.drop_last()).push(hex_digit((bytes.last() / 16) as nat)).push(
            hex_digit((bytes.last() % 16) as nat),
        )
    }
}

/// Every byte takes two digits.
pub proof fn hex_is_twice_as_long(bytes: Seq<u8>)
    ensures
        hex(bytes).len() == 2 * bytes.len(),
    decreases bytes.len(),
{
    if bytes.len() > 0 {
        hex_is_twice_as_long(bytes.drop_last());
    }
}

fn hex_char(d: u8) -> (r: char)
    requires
        d < 16,
    ensures
        r == hex_digit(d as nat),
{
    if d < 10 {
        (48 + d) as char
    } else {
        (87 + d) as char
    }
}

/// Bytes in lower-case hexadecimal.
pub fn hex_text(bytes: &Vec<u8>) -> (r: String)
    ensures
        r@ == hex(bytes@),
{
    let mut out = String::new();
    let mut i: usize = 0;
    assert(out@ =~= hex(bytes@.take(0)));
    while i < bytes.len()
        invariant
            i <= bytes@.len(),
            out@ == hex(bytes@.take(i as int)),
        decreases bytes@.len() - i,
    {
        assert(bytes@.take(i + 1).drop_last() =~= bytes@.take(i as int));
        out.push(hex_char(bytes[i] / 16));
        out.push(hex_char(bytes[i] % 16));
        i = i + 1;
    }
    assert(bytes@.take(bytes@.len() as int) =~= bytes@);
    out
}

/// What is known of a file before any fix.
#[derive(Debug)]
pub struct CachedFileInfo {
    pub exists: bool,
    pub size_bytes: Option<u64>,
    pub line_count: Option<u32>,
    pub sha256_before: Option<String>,
    pub source_before: Option<String>,
}

pub ghost struct FileInfoView {
    pub exists: bool,
    pub size_bytes: Option<u64>,
    pub line_count: Option<u32>,
    pub sha256_before: Option<Seq<char>>,
    pub source_before: Option<Seq<char>>,
}

impl CachedFileInfo {
    pub open spec fn view(&self) -> FileInfoView {
        FileInfoView {
            exists: self.exists,
            size_bytes: self.size_bytes,
            line_count: self.line_count,
            sha256_before: opt_text(self.sha256_before),
            source_before: opt_text(self.source_before),
        }
    }
}

/// What is known of a file of this size and content. A file without a size is not
/// there; a file without content cannot be read. `digest` is that of the content.
pub open spec fn info_with_digest(
    size: Option<u64>,
    source: Option<Seq<char>>,
    digest: Seq<u8>,
) -> FileInfoView {
    match (size, source) {
        (Some(n), Some(s)) => FileInfoView {
            exists: true,
            size_bytes: Some(n),
            line_count: Some(lines(s).len() as u32),
            sha256_before: Some(hex(digest)),
            source_before: Some(s),
        },
        _ => FileInfoView {
            exists: size is Some,
            size_bytes: size,
            line_count: None,
            sha256_before: None,
            source_before: None,
        },
    }
}

pub open spec fn info_of(size: Option<u64>, source: Option<Seq<char>>) -> FileInfoView {
    info_with_digest(
        size,
        source,
        match source {
            Some(s) => sha256_digest(utf8(s)),
            None => Seq::empty(),
        },
    )
}

/// What is known of a file, given the digest of its content.
pub fn file_info(size: Option<u64>, source: Option<&String>, digest: &Vec<u8>) -> (r: CachedFileInfo)
    ensures
        r@ == info_with_digest(size, opt_source(source), digest@),
{
    match (size, source) {
        (Some(n), Some(s)) => {
            let all = lines_text(s.as_str());
            assert(texts(all@).len() == all@.len());
            CachedFileInfo {
                exists: true,
                size_bytes: Some(n),
                line_count: Some(all.len() as u32),
                sha256_before: Some(hex_text(digest)),
                source_before: Some(s.clone()),
            }
        },
        _ => CachedFileInfo {
            exists: size.is_some(),
            size_bytes: size,
            line_count: None,
            sha256_before: None,
            source_before: None,
        },
    }
}

/// What is known of a file: its size, if it is there, and its line count, digest and
/// content, if it can be read.
pub fn load_file_info(size: Option<u64>, source: Option<&String>) -> (r: CachedFileInfo)
    ensures
        r@ == info_of(size, opt_source(source)),
{
    let digest = match source {
        Some(s) => sha256(s.as_str().as_bytes()),
        None => Vec::new(),
    };
    file_info(size, source, &digest)
}

// ── Items ───────────────────────────────────────────────────────────────

/// What is done about an incident.
#[derive(Debug)]
pub enum PlannedIncidentAction {
    Pattern(PlannedFix),
    Manual(ManualFixItem),
    Llm(LlmFixRequest),
}

pub ghost enum ActionView {
    Pattern(PlannedFixView),
    Manual(ManualFixItemView),
    Llm(LlmFixRequestView),
}

pub open spec fn opt_action(o: Option<PlannedIncidentAction>) -> Option<ActionView> {
    match o {
        Some(PlannedIncidentAction::Pattern(f)) => Some(ActionView::Pattern(f@)),
        Some(PlannedIncidentAction::Manual(m)) => Some(ActionView::Manual(m@)),
        Some(PlannedIncidentAction::Llm(q)) => Some(ActionView::Llm(q@)),
        None => None,
    }
}

/// What a strategy does about an incident in a file: nothing where it plans no edits.
pub open spec fn action_of(
    strategy: FixStrategyView,
    rule_id: Seq<char>,
    incident: IncidentView,
    path: Seq<char>,
    labels: Seq<Seq<char>>,
    source: Option<Seq<char>>,
) -> Option<ActionView> {
    match strategy {
        FixStrategyView::Manual => Some(ActionView::Manual(manual_item_of(rule_id, incident))),
        FixStrategyView::Llm => Some(ActionView::Llm(request_of(rule_id, incident, path, labels))),
        _ => match fix_of(strategy, rule_id, incident, source) {
            Some(f) => Some(ActionView::Pattern(f)),
            None => None,
        },
    }
}

/// What a strategy does about an incident.
pub fn plan_incident_action(
    rule_id: &str,
    incident: &Incident,
    strategy: &FixStrategy,
    file_path: &str,
    lang: &JsFixProvider,
    labels: &Vec<String>,
    source: Option<&String>,
) -> (r: Option<PlannedIncidentAction>)
    ensures
        opt_action(r) == action_of(
            strategy@,
            rule_id@,
            incident@,
            file_path@,
            texts(labels@),
            opt_source(source),
        ),
{
    match strategy {
        FixStrategy::Manual => Some(
            PlannedIncidentAction::Manual(make_manual_item(rule_id, incident)),
        ),
        FixStrategy::Llm => Some(
            PlannedIncidentAction::Llm(make_request(rule_id, incident, file_path, labels)),
        ),
        _ => match plan_incident_fix(strategy, rule_id, incident, source, lang) {
            Some(f) => Some(PlannedIncidentAction::Pattern(f)),
            None => None,
        },
    }
}

pub open spec fn strategy_name(s: FixStrategyView) -> Seq<char> {
    match s {
        FixStrategyView::Rename(_) => "Rename"@,
        FixStrategyView::RemoveProp => "RemoveProp"@,
        FixStrategyView::ImportPathChange(_, _) => "ImportPathChange"@,
        FixStrategyView::CssVariablePrefix(_, _) => "CssVariablePrefix"@,
        FixStrategyView::UpdateDependency(_, _) => "UpdateDependency"@,
        FixStrategyView::Manual => "Manual"@,
        FixStrategyView::Llm => "Llm"@,
    }
}

/// The name of a strategy.
pub fn fix_strategy_name(strategy: &FixStrategy) -> (r: &'static str)
    ensures
        r@ == strategy_name(strategy@),
{
    match strategy {
        FixStrategy::Rename(_) => "Rename",
        FixStrategy::RemoveProp => "RemoveProp",
        FixStrategy::ImportPathChange { old_path: _, new_path: _ } => "ImportPathChange",
        FixStrategy::CssVariablePrefix { old_prefix: _, new_prefix: _ } => "CssVariablePrefix",
        FixStrategy::UpdateDependency { package: _, new_version: _ } => "UpdateDependency",
        FixStrategy::Manual => "Manual",
        FixStrategy::Llm => "Llm",
    }
}

pub open spec fn reason_of(source: StrategyResolutionSource) -> ManualReason {
    match source {
        StrategyResolutionSource::ExplicitRulesStrategies => ManualReason::ExplicitManualStrategy,
        StrategyResolutionSource::ExplicitExternalStrategies => ManualReason::ExplicitManualStrategy,
        StrategyResolutionSource::LabelInference => ManualReason::LabelInferredManual,
        StrategyResolutionSource::FallbackLlm => ManualReason::LabelInferredManual,
    }
}

/// Why an item is manual: its strategy was written down, or stems from a label.
pub fn manual_reason_for(source: StrategyResolutionSource) -> (r: ManualReason)
    ensures
        r == reason_of(source),
{
    match source {
        StrategyResolutionSource::ExplicitRulesStrategies => ManualReason::ExplicitManualStrategy,
        StrategyResolutionSource::ExplicitExternalStrategies => ManualReason::ExplicitManualStrategy,
        StrategyResolutionSource::LabelInference => ManualReason::LabelInferredManual,
        StrategyResolutionSource::FallbackLlm => ManualReason::LabelInferredManual,
    }
}

/// The first label from `i` on that stands for a strategy.
pub open spec fn inferring_label(labels: Seq<Seq<char>>, i: int) -> Option<Seq<char>>
    decreases labels.len() - i,
{
    if i < 0 || i >= labels.len() {
        None
    } else if strategy_of_label(labels[i]) is Some {
        Some(labels[i])
    } else {
        inferring_label(labels, i + 1)
    }
}

/// The file or label that a strategy comes from.
pub open spec fn source_detail(
    labels: Seq<Seq<char>>,
    source: StrategyResolutionSource,
    from: StrategySourcesView,
) -> Option<Seq<char>> {
    match source {
        StrategyResolutionSource::ExplicitRulesStrategies => from.rules_strategies,
        StrategyResolutionSource::ExplicitExternalStrategies => from.external_strategies,
        StrategyResolutionSource::LabelInference => inferring_label(labels, 0),
        StrategyResolutionSource::FallbackLlm => Some("no explicit or inferred strategy"@),
    }
}

fn find_inferring_label(labels: &Vec<String>) -> (r: Option<String>)
    ensures
        opt_text(r) == inferring_label(texts(labels@), 0),
{
    let ghost t = texts(labels@);
    let mut i: usize = 0;
    while i < labels.len()
        invariant
            i <= labels@.len(),
            t == texts(labels@),
            inferring_label(t, 0) == inferring_label(t, i as int),
        decreases labels@.len() - i,
    {
        let mut one: Vec<String> = Vec::new();
        one.push(labels[i].clone());
        proof {
            assert(texts(one@)[0] == t[i as int]);
            assert(inferred_from(texts(one@), 1) is None);
        }
        if infer_strategy_from_labels(&one).is_some() {
            return Some(labels[i].clone());
        }
        i = i + 1;
    }
    None
}

/// The file or label that a strategy comes from.
pub fn strategy_source_detail(
    labels: &Vec<String>,
    source: StrategyResolutionSource,
    options: &ReportBuildOptions,
) -> (r: Option<String>)
    ensures
        opt_text(r) == source_detail(texts(labels@), source, options.strategy_sources@),
{
    match source {
        StrategyResolutionSource::ExplicitRulesStrategies => copy_opt(
            &options.strategy_sources.rules_strategies,
        ),
        StrategyResolutionSource::ExplicitExternalStrategies => copy_opt(
            &options.strategy_sources.external_strategies,
        ),
        StrategyResolutionSource::LabelInference => find_inferring_label(labels),
        StrategyResolutionSource::FallbackLlm => Some("no explicit or inferred strategy".to_owned()),
    }
}

/// Where the strategy of a rule comes from: what is noted of it, else its labels,
/// else nowhere.
pub open spec fn resolution_source(
    origins: Map<Seq<char>, StrategyResolutionSource>,
    rule_id: Seq<char>,
    labels: Seq<Seq<char>>,
) -> StrategyResolutionSource {
    if origins.dom().contains(rule_id) {
        origins[rule_id]
    } else if inferred_from(labels, 0) is Some {
        StrategyResolutionSource::LabelInference
    } else {
        StrategyResolutionSource::FallbackLlm
    }
}

fn find_resolution_source(
    options: &ReportBuildOptions,
    rule_id: &str,
    labels: &Vec<String>,
) -> (r: StrategyResolutionSource)
    ensures
        r == resolution_source(options.strategy_origins@, rule_id@, texts(labels@)),
{
    match options.strategy_origins.get(rule_id) {
        Some(s) => *s,
        None => if infer_strategy_from_labels(labels).is_some() {
            StrategyResolutionSource::LabelInference
        } else {
            StrategyResolutionSource::FallbackLlm
        },
    }
}

/// What a report is made from, apart from the output of the analysis.
pub ghost struct ReportInput {
    pub root: Seq<char>,
    pub strategies: Map<Seq<char>, FixStrategyView>,
    pub sources: Map<Seq<char>, SourceView>,
    /// The sizes of the files that are there.
    pub sizes: Map<Seq<char>, u64>,
    pub origins: Map<Seq<char>, StrategyResolutionSource>,
    pub strategy_sources: StrategySourcesView,
}

impl ReportInput {
    pub open spec fn size_of(self, path: Seq<char>) -> Option<u64> {
        if self.sizes.dom().contains(path) {
            Some(self.sizes[path])
        } else {
            None
        }
    }

    /// What is known of a file.
    pub open spec fn info(self, path: Seq<char>) -> FileInfoView {
        info_of(self.size_of(path), readable(self.sources, path))
    }

    /// The content of a file, empty where there is none.
    pub open spec fn content(self, path: Seq<char>) -> Seq<char> {
        match self.info(path).source_before {
            Some(s) => s,
            None => Seq::empty(),
        }
    }
}

/// An item and the file that it belongs to.
#[derive(Debug)]
pub struct ReportEntry {
    pub path: String,
    pub item: RemediationItem,
}

pub ghost struct EntryView {
    pub path: Seq<char>,
    pub item: ItemView,
}

impl ReportEntry {
    pub open spec fn view(&self) -> EntryView {
        EntryView { path: self.path@, item: self.item@ }
    }
}

pub open spec fn entry_views(v: Seq<ReportEntry>) -> Seq<EntryView> {
    Seq::new(v.len(), |i: int| v[i]@)
}

/// The request of an item, with the content of its file.
pub open spec fn with_content(q: LlmFixRequestView, content: Seq<char>) -> LlmFixRequestView {
    LlmFixRequestView { source: Some(content), ..q }
}

/// The item for an action on an incident.
pub open spec fn item_of(
    ruleset_name: Seq<char>,
    rule_id: Seq<char>,
    violation: Violation,
    strategy: FixStrategyView,
    incident: IncidentView,
    action: ActionView,
    path: Seq<char>,
    input: ReportInput,
) -> ItemView {
    let labels = texts(violation.labels@);
    let source = resolution_source(input.origins, rule_id, labels);
    ItemView {
        kind: match action {
            ActionView::Pattern(_) => RemediationKind::Pattern,
            ActionView::Manual(_) => RemediationKind::Manual,
            ActionView::Llm(_) => RemediationKind::Llm,
        },
        rule_id,
        ruleset_name,
        rule_description: violation.description@,
        rule_category: violation.category,
        rule_labels: labels,
        rule_links: rule_link_views(violation.links@),
        rule_effort: violation.effort,
        strategy_resolution: ResolutionView {
            chosen_strategy: strategy_name(strategy),
            source,
            source_detail: source_detail(labels, source, input.strategy_sources),
        },
        incident,
        planned_fix: match action {
            ActionView::Pattern(f) => Some(f),
            _ => None,
        },
        llm_request: match action {
            ActionView::Llm(q) => Some(with_content(q, input.content(path))),
            _ => None,
        },
        manual_item: match action {
            ActionView::Manual(m) => Some(m),
            _ => None,
        },
        manual_reason: match action {
            ActionView::Manual(_) => Some(reason_of(source)),
            _ => None,
        },
    }
}

/// The entry for an incident: none in installed packages, and none where the strategy
/// does nothing.
pub open spec fn entry_of(
    ruleset_name: Seq<char>,
    rule_id: Seq<char>,
    violation: Violation,
    incident: IncidentView,
    input: ReportInput,
) -> Option<EntryView> {
    let labels = texts(violation.labels@);
    let strategy = strategy_for(input.strategies, rule_id, labels);
    let path = path_of_uri(incident.file_uri, input.root);
    if in_node_modules(path) {
        None
    } else {
        match action_of(strategy, rule_id, incident, path, labels, readable(input.sources, path)) {
            Some(action) => Some(
                EntryView {
                    path,
                    item: item_of(
                        ruleset_name,
                        rule_id,
                        violation,
                        strategy,
                        incident,
                        action,
                        path,
                        input,
                    ),
                },
            ),
            None => None,
        }
    }
}

pub open spec fn push_opt(v: Seq<EntryView>, e: Option<EntryView>) -> Seq<EntryView> {
    match e {
        Some(x) => v.push(x),
        None => v,
    }
}

/// `v` with the entries for the first `n` incidents of a violation.
pub open spec fn incident_entries(
    v: Seq<EntryView>,
    ruleset_name: Seq<char>,
    rule_id: Seq<char>,
    violation: Violation,
    n: int,
    input: ReportInput,
) -> Seq<EntryView>
    decreases n,
{
    if n <= 0 {
        v
    } else {
        push_opt(
            incident_entries(v, ruleset_name, rule_id, violation, n - 1, input),
            entry_of(ruleset_name, rule_id, violation, violation.incidents@[n - 1]@, input),
        )
    }
}

/// `v` with the entries for the first `n` violations of a ruleset, in the order of
/// their rules.
pub open spec fn violation_entries(
    v: Seq<EntryView>,
    ruleset: RuleSet,
    n: int,
    input: ReportInput,
) -> Seq<EntryView>
    decreases n,
{
    if n <= 0 {
        v
    } else {
        let violation = ruleset.violations.values()[n - 1];
        incident_entries(
            violation_entries(v, ruleset, n - 1, input),
            ruleset.name@,
            ruleset.violations.keys()[n - 1],
            violation,
            violation.incidents@.len() as int,
            input,
        )
    }
}

/// The entries for the output of an analysis, in order.
pub open spec fn entries_of(output: Seq<RuleSet>, input: ReportInput) -> Seq<EntryView>
    decreases output.len(),
{
    if output.len() == 0 {
        Seq::empty()
    } else {
        violation_entries(
            entries_of(output.drop_last(), input),
            output.last(),
            output.last().violations.keys().len() as int,
            input,
        )
    }
}

fn copy_rule_links(links: &Vec<Link>) -> (r: Vec<Link>)
    ensures
        rule_link_views(r@) == rule_link_views(links@),
{
    let mut out: Vec<Link> = Vec::new();
    let mut i: usize = 0;
    while i < links.len()
        invariant
            i <= links@.len(),
            out@.len() == i,
            forall|k: int|
                0 <= k < i ==> (#[trigger] out@[k]).url@ == links@[k].url@ && opt_text(out@[k].title)
                    == opt_text(links@[k].title),
        decreases links@.len() - i,
    {
        out.push(Link { url: links[i].url.clone(), title: copy_opt(&links[i].title) });
        i = i + 1;
    }
    assert(rule_link_views(out@) =~= rule_link_views(links@));
    out
}

/// The inputs of a report as they are held at run time.
struct Inputs<'a> {
    root: &'a str,
    strategies: &'a Strategies,
    sources: &'a Sources,
    sizes: &'a PathMap<u64>,
    options: &'a ReportBuildOptions,
    lang: &'a JsFixProvider,
}

impl<'a> Inputs<'a> {
    spec fn view(&self) -> ReportInput {
        ReportInput {
            root: self.root@,
            strategies: strategies_view(*self.strategies),
            sources: sources_view(*self.sources),
            sizes: self.sizes@,
            origins: self.options.strategy_origins@,
            strategy_sources: self.options.strategy_sources@,
        }
    }

    fn info(&self, path: &str) -> (r: CachedFileInfo)
        ensures
            r@ == self@.info(path@),
    {
        let size: Option<u64> = match self.sizes.get(path) {
            Some(n) => Some(*n),
            None => None,
        };
        load_file_info(size, readable_source(self.sources, path))
    }
}

fn make_item(
    ruleset_name: &str,
    rule_id: &str,
    violation: &Violation,
    strategy: &FixStrategy,
    incident: &Incident,
    action: PlannedIncidentAction,
    path: &str,
    inputs: &Inputs,
) -> (r: RemediationItem)
    ensures
        r@ == item_of(
            ruleset_name@,
            rule_id@,
            *violation,
            strategy@,
            incident@,
            opt_action(Some(action))->0,
            path@,
            inputs@,
        ),
{
    let source = find_resolution_source(inputs.options, rule_id, &violation.labels);
    let detail = strategy_source_detail(&violation.labels, source, inputs.options);
    let (kind, planned_fix, llm_request, manual_item, manual_reason) = match action {
        PlannedIncidentAction::Pattern(f) => (RemediationKind::Pattern, Some(f), None, None, None),
        PlannedIncidentAction::Manual(m) => (
            RemediationKind::Manual,
            None,
            None,
            Some(m),
            Some(manual_reason_for(source)),
        ),
        PlannedIncidentAction::Llm(q) => {
            let info = inputs.info(path);
            let mut request = q;
            let content = match info.source_before {
                Some(s) => s,
                None => String::new(),
            };
            assert(content@ =~= inputs@.content(path@));
            request.source = Some(content);
            (RemediationKind::Llm, None, Some(request), None, None)
        },
    };
    RemediationItem {
        kind,
        rule_id: rule_id.to_owned(),
        ruleset_name: ruleset_name.to_owned(),
        rule_description: violation.description.clone(),
        rule_category: violation.category,
        rule_labels: copy_list(&violation.labels),
        rule_links: copy_rule_links(&violation.links),
        rule_effort: violation.effort,
        strategy_resolution: StrategyResolution {
            chosen_strategy: fix_strategy_name(strategy).to_owned(),
            source,
            source_detail: detail,
        },
        incident: IncidentSnapshot::from(incident),
        planned_fix,
        llm_request,
        manual_item,
        manual_reason,
    }
}

fn make_entry(
    ruleset_name: &str,
    rule_id: &str,
    violation: &Violation,
    strategy: &FixStrategy,
    incident: &Incident,
    inputs: &Inputs,
) -> (r: Option<ReportEntry>)
    requires
        strategy@ == strategy_for(inputs@.strategies, rule_id@, texts(violation.labels@)),
    ensures
        (match r {
            Some(e) => Some(e@),
            None => None,
        }) == entry_of(ruleset_name@, rule_id@, *violation, incident@, inputs@),
{
    let path = uri_to_path(incident.file_uri.as_str(), inputs.root);
    if inputs.lang.should_skip_path(path.as_str()) {
        return None;
    }
    let source = readable_source(inputs.sources, path.as_str());
    match plan_incident_action(
        rule_id,
        incident,
        strategy,
        path.as_str(),
        inputs.lang,
        &violation.labels,
        source,
    ) {
        Some(action) => {
            let item = make_item(
                ruleset_name,
                rule_id,
                violation,
                strategy,
                incident,
                action,
                path.as_str(),
                inputs,
            );
            Some(ReportEntry { path, item })
        },
        None => None,
    }
}

fn add_incident_entries(
    out: &mut Vec<ReportEntry>,
    ruleset_name: &str,
    rule_id: &str,
    violation: &Violation,
    strategy: &FixStrategy,
    inputs: &Inputs,
)
    requires
        strategy@ == strategy_for(inputs@.strategies, rule_id@, texts(violation.labels@)),
    ensures
        entry_views(final(out)@) == incident_entries(
            entry_views(old(out)@),
            ruleset_name@,
            rule_id@,
            *violation,
            violation.incidents@.len() as int,
            inputs@,
        ),
{
    let ghost before = entry_views(out@);
    let mut i: usize = 0;
    while i < violation.incidents.len()
        invariant
            i <= violation.incidents@.len(),
            strategy@ == strategy_for(inputs@.strategies, rule_id@, texts(violation.labels@)),
            entry_views(out@) == incident_entries(
                before,
                ruleset_name@,
                rule_id@,
                *violation,
                i as int,
                inputs@,
            ),
        decreases violation.incidents@.len() - i,
    {
        let ghost prior = out@;
        if let Some(e) = make_entry(
            ruleset_name,
            rule_id,
            violation,
            strategy,
            &violation.incidents[i],
            inputs,
        ) {
            out.push(e);
            assert(entry_views(out@) =~= entry_views(prior).push(e@));
        }
        i = i + 1;
    }
}

fn add_violation_entries(
    out: &mut Vec<ReportEntry>,
    ruleset_name: &str,
    rule_id: &str,
    violation: &Violation,
    inputs: &Inputs,
)
    ensures
        entry_views(final(out)@) == incident_entries(
            entry_views(old(out)@),
            ruleset_name@,
            rule_id@,
            *violation,
            violation.incidents@.len() as int,
            inputs@,
        ),
{
    match inputs.strategies.get(rule_id) {
        Some(s) => add_incident_entries(out, ruleset_name, rule_id, violation, s, inputs),
        None => match infer_strategy_from_labels(&violation.labels) {
            Some(s) => add_incident_entries(out, ruleset_name, rule_id, violation, &s, inputs),
            None => {
                let s = FixStrategy::Llm;
                add_incident_entries(out, ruleset_name, rule_id, violation, &s, inputs);
            },
        },
    }
}

fn collect_entries(output: &Vec<RuleSet>, inputs: &Inputs) -> (r: Vec<ReportEntry>)
    ensures
        entry_views(r@) == entries_of(output@, inputs@),
{
    let mut out: Vec<ReportEntry> = Vec::new();
    let mut i: usize = 0;
    assert(entry_views(out@) =~= entries_of(output@.take(0), inputs@));
    while i < output.len()
        invariant
            i <= output@.len(),
            entry_views(out@) == entries_of(output@.take(i as int), inputs@),
        decreases output@.len() - i,
    {
        assert(output@.take(i + 1).drop_last() =~= output@.take(i as int));
        let ruleset = &output[i];
        let ghost before = entry_views(out@);
        let n: usize = ruleset.violations.len();
        let mut k: usize = 0;
        while k < n
            invariant
                k <= n,
                n == ruleset.violations.keys().len(),
                n == ruleset.violations.values().len(),
                entry_views(out@) == violation_entries(before, *ruleset, k as int, inputs@),
            decreases n - k,
        {
            add_violation_entries(
                &mut out,
                ruleset.name.as_str(),
                ruleset.violations.key_at(k).as_str(),
                ruleset.violations.value_at(k),
                inputs,
            );
            k = k + 1;
        }
        i = i + 1;
    }
    assert(output@.take(output@.len() as int) =~= output@);
    out
}

// ── Requests to language models ─────────────────────────────────────────

/// The requests of the items, in order.
pub open spec fn requests_of(v: Seq<EntryView>) -> Seq<LlmFixRequestView>
    decreases v.len(),
{
    if v.len() == 0 {
        Seq::empty()
    } else {
        match v.last().item.llm_request {
            Some(q) => requests_of(v.drop_last()).push(q),
            None => requests_of(v.drop_last()),
        }
    }
}

/// The chat requests for a list of requests that hold the content of their files.
pub open spec fn chat_requests(v: Seq<LlmFixRequestView>, system: Seq<char>) -> Seq<PlannedOpenAiRequestView> {
    Seq::new(v.len(), |i: int| planned_request(v[i], system, v[i].source->0))
}

fn collect_requests(v: &Vec<ReportEntry>) -> (r: Vec<LlmFixRequest>)
    ensures
        request_views(r@) == requests_of(entry_views(v@)),
{
    let ghost e = entry_views(v@);
    let mut out: Vec<LlmFixRequest> = Vec::new();
    let mut i: usize = 0;
    assert(request_views(out@) =~= requests_of(e.take(0)));
    while i < v.len()
        invariant
            i <= v@.len(),
            e == entry_views(v@),
            request_views(out@) == requests_of(e.take(i as int)),
        decreases v@.len() - i,
    {
        assert(e.take(i + 1).drop_last() =~= e.take(i as int));
        assert(e.take(i + 1).last() == v@[i as int]@);
        if let Some(q) = &v[i].item.llm_request {
            let copy = crate::fix::copy_request(q);
            let ghost prior = out@;
            out.push(copy);
            assert(request_views(out@) =~= request_views(prior).push(copy@));
        }
        i = i + 1;
    }
    assert(e.take(e.len() as int) =~= e);
    out
}

/// Items for language models hold the content of their file.
proof fn lemma_entries_hold_content(output: Seq<RuleSet>, input: ReportInput)
    ensures
        holds_content(entries_of(output, input)),
    decreases output.len(),
{
    if output.len() > 0 {
        lemma_entries_hold_content(output.drop_last(), input);
        lemma_violations_hold_content(
            entries_of(output.drop_last(), input),
            output.last(),
            output.last().violations.keys().len() as int,
            input,
        );
    }
}

spec fn holds_content(v: Seq<EntryView>) -> bool {
    forall|i: int|
        0 <= i < v.len() ==> ((#[trigger] v[i]).item.llm_request matches Some(q) ==> q.source is Some)
}

proof fn lemma_violations_hold_content(v: Seq<EntryView>, ruleset: RuleSet, n: int, input: ReportInput)
    requires
        holds_content(v),
    ensures
        holds_content(violation_entries(v, ruleset, n, input)),
    decreases n,
{
    if n > 0 {
        lemma_violations_hold_content(v, ruleset, n - 1, input);
        let violation = ruleset.violations.values()[n - 1];
        lemma_incidents_hold_content(
            violation_entries(v, ruleset, n - 1, input),
            ruleset.name@,
            ruleset.violations.keys()[n - 1],
            violation,
            violation.incidents@.len() as int,
            input,
        );
    }
}

proof fn lemma_incidents_hold_content(
    v: Seq<EntryView>,
    ruleset_name: Seq<char>,
    rule_id: Seq<char>,
    violation: Violation,
    n: int,
    input: ReportInput,
)
    requires
        holds_content(v),
    ensures
        holds_content(incident_entries(v, ruleset_name, rule_id, violation, n, input)),
    decreases n,
{
    if n > 0 {
        lemma_incidents_hold_content(v, ruleset_name, rule_id, violation, n - 1, input);
    }
}

proof fn lemma_requests_hold_content(v: Seq<EntryView>)
    requires
        holds_content(v),
    ensures
        forall|i: int| 0 <= i < requests_of(v).len() ==> (#[trigger] requests_of(v)[i]).source is Some,
    decreases v.len(),
{
    if v.len() > 0 {
        assert(v.last() == v[v.len() - 1]);
        assert forall|i: int| 0 <= i < v.drop_last().len() implies ((#[trigger] v.drop_last()[i]).item.llm_request matches Some(
            q,
        ) ==> q.source is Some) by {
            assert(v.drop_last()[i] == v[i]);
        }
        lemma_requests_hold_content(v.drop_last());
    }
}

fn collect_chat_requests(v: &Vec<LlmFixRequest>, system: &str) -> (r: Vec<PlannedOpenAiRequest>)
    requires
        forall|i: int| 0 <= i < v@.len() ==> (#[trigger] request_views(v@)[i]).source is Some,
    ensures
        openai_views(r@) == chat_requests(request_views(v@), system@),
{
    let mut out: Vec<PlannedOpenAiRequest> = Vec::new();
    let nothing: Result<String, String> = Err(String::new());
    let mut i: usize = 0;
    while i < v.len()
        invariant
            i <= v@.len(),
            out@.len() == i,
            forall|k: int| 0 <= k < v@.len() ==> (#[trigger] request_views(v@)[k]).source is Some,
            forall|k: int|
                0 <= k < i ==> (#[trigger] out@[k])@ == planned_request(
                    request_views(v@)[k],
                    system@,
                    request_views(v@)[k].source->0,
                ),
        decreases v@.len() - i,
    {
        assert(request_views(v@)[i as int].source is Some);
        if let Ok(planned) = build_openai_plan_request(&v[i], system, &nothing) {
            out.push(planned);
        }
        i = i + 1;
    }
    assert(openai_views(out@) =~= chat_requests(request_views(v@), system@));
    out
}

// ── Files of the report ─────────────────────────────────────────────────

/// The items of a file, in order.
pub open spec fn items_at(v: Seq<EntryView>, path: Seq<char>) -> Seq<ItemView>
    decreases v.len(),
{
    if v.len() == 0 {
        Seq::empty()
    } else if v.last().path == path {
        items_at(v.drop_last(), path).push(v.last().item)
    } else {
        items_at(v.drop_last(), path)
    }
}

pub open spec fn item_lines(v: Seq<ItemView>) -> Seq<int> {
    Seq::new(
        v.len(),
        |i: int|
            match v[i].incident.line_number {
                Some(n) => n as int,
                None => 0,
            },
    )
}

/// Items by line; those without one come first.
pub open spec fn by_line(v: Seq<ItemView>) -> Seq<ItemView> {
    in_stable_order(v, item_lines(v))
}

pub open spec fn has_path(v: Seq<EntryView>, path: Seq<char>) -> bool {
    exists|i: int| 0 <= i < v.len() && (#[trigger] v[i]).path == path
}

/// The difference that the fixes of a plan make to a file, where they make any.
pub open spec fn diff_at(plan: FixPlanView, path: Seq<char>, source: Option<Seq<char>>) -> Option<Seq<char>> {
    let fixes = fixes_at(plan.files, path);
    match source {
        Some(s) => if fixes.len() == 0 || file_diff(path, s, fixes).len() == 0 {
            None
        } else {
            Some(file_diff(path, s, fixes))
        },
        None => None,
    }
}

/// A file of the report: what is known of it, what the plan changes in it, and its
/// items by line. Its location is that of its first item.
pub open spec fn file_report(
    entries: Seq<EntryView>,
    plan: FixPlanView,
    path: Seq<char>,
    input: ReportInput,
) -> FileView {
    let info = input.info(path);
    FileView {
        file_path: path,
        file_uri: items_at(entries, path)[0].incident.file_uri,
        exists: info.exists,
        size_bytes: info.size_bytes,
        line_count: info.line_count,
        sha256_before: info.sha256_before,
        source_before: info.source_before,
        deterministic_diff: diff_at(plan, path, readable(input.sources, path)),
        items: by_line(items_at(entries, path)),
    }
}

pub open spec fn file_paths(v: Seq<FileView>) -> Seq<Seq<char>> {
    Seq::new(v.len(), |i: int| v[i].file_path)
}

/// Whether `files` are the files of all entries, each once, in path order.
pub open spec fn reports_files(
    files: Seq<FileView>,
    entries: Seq<EntryView>,
    plan: FixPlanView,
    input: ReportInput,
) -> bool {
    &&& in_key_order(true, file_paths(files))
    &&& forall|path: Seq<char>| #[trigger] has_path(entries, path) <==> file_paths(files).contains(path)
    &&& forall|i: int|
        0 <= i < files.len() ==> #[trigger] files[i] == file_report(
            entries,
            plan,
            files[i].file_path,
            input,
        )
}

/// The items of a file stand in ascending line order.
pub proof fn items_ascend_by_line(v: Seq<ItemView>)
    ensures
        by_line(v).len() == v.len(),
        forall|i: int, j: int|
            #![trigger by_line(v)[i], by_line(v)[j]]
            0 <= i < j < v.len() ==> item_lines(by_line(v))[i] <= item_lines(by_line(v))[j],
        forall|k: int| 0 <= k < v.len() ==> by_line(v).contains(#[trigger] v[k]),
{
    let keys = item_lines(v);
    stable_order_is_sorted(keys);
    let order = crate::sorting::stable_order(keys);
    assert forall|i: int, j: int|
        #![trigger by_line(v)[i], by_line(v)[j]]
        0 <= i < j < v.len() implies item_lines(by_line(v))[i] <= item_lines(by_line(v))[j] by {
        assert(crate::sorting::in_order(keys, order[i], order[j]));
    }
    assert forall|k: int| 0 <= k < v.len() implies by_line(v).contains(#[trigger] v[k]) by {
        assert(order.contains(k));
        let i = choose|i: int| 0 <= i < order.len() && order[i] == k;
        assert(by_line(v)[i] == v[k]);
    }
}

proof fn lemma_items_at_none(v: Seq<EntryView>, path: Seq<char>)
    requires
        !has_path(v, path),
    ensures
        items_at(v, path) == Seq::<ItemView>::empty(),
    decreases v.len(),
{
    if v.len() > 0 {
        assert(v[v.len() - 1].path != path);
        if has_path(v.drop_last(), path) {
            let k = choose|k: int| 0 <= k < v.drop_last().len() && (#[trigger] v.drop_last()[k]).path == path;
            assert(v[k].path == path);
        }
        lemma_items_at_none(v.drop_last(), path);
    }
}

proof fn lemma_items_at_some(v: Seq<EntryView>, path: Seq<char>)
    requires
        has_path(v, path),
    ensures
        items_at(v, path).len() > 0,
    decreases v.len(),
{
    let k = choose|k: int| 0 <= k < v.len() && (#[trigger] v[k]).path == path;
    if k < v.len() - 1 {
        assert(v.drop_last()[k].path == path);
        lemma_items_at_some(v.drop_last(), path);
    }
}

fn sort_by_line(items: Vec<RemediationItem>) -> (r: Vec<RemediationItem>)
    ensures
        item_views(r@) == by_line(item_views(items@)),
{
    let mut keys: Vec<i128> = Vec::new();
    let mut i: usize = 0;
    while i < items.len()
        invariant
            i <= items@.len(),
            keys@.len() == i,
            forall|k: int| 0 <= k < i ==> #[trigger] keys@[k] as int == item_lines(item_views(items@))[k],
        decreases items@.len() - i,
    {
        let line: u32 = match items[i].incident.line_number {
            Some(n) => n,
            None => 0,
        };
        keys.push(line as i128);
        i = i + 1;
    }
    let ghost all = items@;
    let sorted = stable_sort(items, &keys);
    proof {
        let k = item_lines(item_views(all));
        assert(key_values(keys@) =~= k);
        stable_order_is_sorted(k);
        assert(item_views(sorted@) =~= by_line(item_views(all)));
    }
    sorted
}

fn group_by_path(entries: Vec<ReportEntry>) -> (r: PathMap<Vec<RemediationItem>>)
    ensures
        forall|path: Seq<char>| #[trigger]
            r@.dom().contains(path) <==> has_path(entry_views(entries@), path),
        forall|path: Seq<char>| #[trigger]
            r@.dom().contains(path) ==> item_views(r@[path]@) == items_at(entry_views(entries@), path),
{
    let ghost all = entries@;
    let ghost e = entry_views(all);
    let total: usize = entries.len();
    let mut rest = entries;
    let mut out: PathMap<Vec<RemediationItem>> = PathMap::new();
    let mut i: usize = 0;
    while i < total
        invariant
            i <= total,
            total == all.len(),
            e == entry_views(all),
            rest@ == all.skip(i as int),
            forall|path: Seq<char>| #[trigger]
                out@.dom().contains(path) <==> has_path(e.take(i as int), path),
            forall|path: Seq<char>| #[trigger]
                out@.dom().contains(path) ==> item_views(out@[path]@) == items_at(e.take(i as int), path),
        decreases total - i,
    {
        let entry = rest.remove(0);
        assert(entry == all[i as int]);
        assert(rest@ =~= all.skip(i + 1));
        let ghost prior = e.take(i as int);
        let ghost now = e.take(i + 1);
        let ghost before = out@;
        let ghost p = entry.path@;
        let ghost it = entry.item@;
        assert(now.drop_last() =~= prior);
        assert(now.last() == entry@);
        push_to(&mut out, entry.path, entry.item);
        proof {
            assert forall|path: Seq<char>| #[trigger]
                out@.dom().contains(path) <==> has_path(now, path) by {
                if has_path(prior, path) {
                    let k = choose|k: int| 0 <= k < prior.len() && (#[trigger] prior[k]).path == path;
                    assert(now[k] == prior[k]);
                }
                if path == p {
                    assert(now[i as int].path == path);
                }
                if has_path(now, path) && path != p {
                    let k = choose|k: int| 0 <= k < now.len() && (#[trigger] now[k]).path == path;
                    assert(prior[k] == now[k]);
                    assert(has_path(prior, path));
                }
                assert(out@.dom().contains(path) <==> (before.dom().contains(path) || path == p));
            }
            assert forall|path: Seq<char>| #[trigger] out@.dom().contains(path) implies item_views(
                out@[path]@,
            ) == items_at(now, path) by {
                if path == p {
                    if !before.dom().contains(path) {
                        assert(!has_path(prior, path));
                        lemma_items_at_none(prior, path);
                    }
                    assert(item_views(out@[path]@) =~= items_at(now, path));
                } else {
                    assert(before.dom().contains(path));
                    assert(out@[path] == before[path]);
                }
            }
        }
        i = i + 1;
    }
    assert(e.take(e.len() as int) =~= e);
    out
}

fn make_diff(plan: &FixPlan, path: &str, inputs: &Inputs) -> (r: Option<String>)
    ensures
        opt_text(r) == diff_at(plan@, path@, readable(inputs@.sources, path@)),
{
    match (plan.files.get(path), readable_source(inputs.sources, path)) {
        (Some(fixes), Some(source)) => {
            if fixes.len() == 0 {
                return None;
            }
            let diff = preview_file(path, source.as_str(), fixes, inputs.lang);
            if diff.as_str().unicode_len() == 0 {
                None
            } else {
                Some(diff)
            }
        },
        _ => None,
    }
}

fn make_files(entries: Vec<ReportEntry>, plan: &FixPlan, inputs: &Inputs) -> (r: Vec<RemediationFile>)
    ensures
        reports_files(file_views(r@), entry_views(entries@), plan@, inputs@),
{
    let ghost e = entry_views(entries@);
    let mut by_path = group_by_path(entries);
    let n: usize = by_path.len();
    let ghost keys = by_path.keys();
    let ghost groups = by_path@;
    let mut names: Vec<String> = Vec::new();
    let mut i: usize = 0;
    while i < n
        invariant
            i <= n,
            n == keys.len(),
            keys == by_path.keys(),
            names@.len() == i,
            forall|k: int| 0 <= k < i ==> (#[trigger] names@[k])@ == keys[k],
        decreases n - i,
    {
        names.push(by_path.key_at(i).clone());
        i = i + 1;
    }
    let mut out: Vec<RemediationFile> = Vec::new();
    let mut j: usize = 0;
    while j < n
        invariant
            j <= n,
            n == keys.len(),
            keys.no_duplicates(),
            names@.len() == n,
            forall|k: int| 0 <= k < n ==> (#[trigger] names@[k])@ == keys[k],
            forall|k: int| 0 <= k < n ==> groups.dom().contains(#[trigger] keys[k]),
            forall|path: Seq<char>| #[trigger] groups.dom().contains(path) <==> has_path(e, path),
            forall|path: Seq<char>| #[trigger]
                groups.dom().contains(path) ==> item_views(groups[path]@) == items_at(e, path),
            forall|k: int|
                j <= k < n ==> by_path@.dom().contains(#[trigger] keys[k]) && by_path@[keys[k]]
                    == groups[keys[k]],
            out@.len() == j,
            forall|k: int|
                0 <= k < j ==> (#[trigger] out@[k])@ == file_report(e, plan@, keys[k], inputs@),
        decreases n - j,
    {
        let ghost path = keys[j as int];
        let ghost prior = by_path@;
        assert(by_path@.dom().contains(keys[j as int]));
        if let Some(items) = by_path.remove(names[j].as_str()) {
            proof {
                assert(has_path(e, path));
                lemma_items_at_some(e, path);
                assert(item_views(items@) == items_at(e, path));
                assert(item_views(items@)[0] == items@[0]@);
                assert forall|k: int| j + 1 <= k < n implies by_path@.dom().contains(#[trigger] keys[k])
                    && by_path@[keys[k]] == groups[keys[k]] by {
                    assert(keys[k] != keys[j as int]);
                }
            }
            let file_uri = items[0].incident.file_uri.clone();
            let sorted = sort_by_line(items);
            let info = inputs.info(names[j].as_str());
            out.push(
                RemediationFile {
                    deterministic_diff: make_diff(plan, names[j].as_str(), inputs),
                    file_path: names[j].clone(),
                    file_uri,
                    exists: info.exists,
                    size_bytes: info.size_bytes,
                    line_count: info.line_count,
                    sha256_before: info.sha256_before,
                    source_before: info.source_before,
                    items: sorted,
                },
            );
        }
        j = j + 1;
    }
    proof {
        assert(file_paths(file_views(out@)) =~= keys);
        assert forall|path: Seq<char>| #[trigger]
            has_path(e, path) <==> file_paths(file_views(out@)).contains(path) by {
            assert(groups.dom().contains(path) <==> keys.contains(path));
        }
    }
    out
}

// ── Rules of the report ─────────────────────────────────────────────────

pub open spec fn is_of_rule(e: EntryView, ruleset_name: Seq<char>, rule_id: Seq<char>) -> bool {
    e.item.ruleset_name == ruleset_name && e.item.rule_id == rule_id
}

/// The position of the first entry of a rule from `i` on.
pub open spec fn first_of_rule(
    v: Seq<EntryView>,
    ruleset_name: Seq<char>,
    rule_id: Seq<char>,
    i: int,
) -> Option<int>
    decreases v.len() - i,
{
    if i < 0 || i >= v.len() {
        None
    } else if is_of_rule(v[i], ruleset_name, rule_id) {
        Some(i)
    } else {
        first_of_rule(v, ruleset_name, rule_id, i + 1)
    }
}

/// How many entries of a rule there are.
pub open spec fn count_of_rule(v: Seq<EntryView>, ruleset_name: Seq<char>, rule_id: Seq<char>) -> nat
    decreases v.len(),
{
    if v.len() == 0 {
        0
    } else {
        count_of_rule(v.drop_last(), ruleset_name, rule_id) + if is_of_rule(
            v.last(),
            ruleset_name,
            rule_id,
        ) {
            1nat
        } else {
            0nat
        }
    }
}

/// How many entries of a rule are of one kind.
pub open spec fn count_of_kind(
    v: Seq<EntryView>,
    ruleset_name: Seq<char>,
    rule_id: Seq<char>,
    kind: RemediationKind,
) -> nat
    decreases v.len(),
{
    if v.len() == 0 {
        0
    } else {
        count_of_kind(v.drop_last(), ruleset_name, rule_id, kind) + if is_of_rule(
            v.last(),
            ruleset_name,
            rule_id,
        ) && v.last().item.kind == kind {
            1nat
        } else {
            0nat
        }
    }
}

/// Whether a rule has an entry in a file.
pub open spec fn rule_in_file(
    v: Seq<EntryView>,
    ruleset_name: Seq<char>,
    rule_id: Seq<char>,
    path: Seq<char>,
) -> bool {
    exists|i: int|
        0 <= i < v.len() && is_of_rule(#[trigger] v[i], ruleset_name, rule_id) && v[i].path == path
}

/// Whether `s` sums up a rule that has entries: what its first entry says of the
/// rule, how many entries there are of each kind, and their files in path order.
pub open spec fn sums_up(s: RuleSummaryView, v: Seq<EntryView>) -> bool {
    &&& match first_of_rule(v, s.ruleset_name, s.rule_id, 0) {
        Some(k) => s.rule_description == v[k].item.rule_description && s.rule_category
            == v[k].item.rule_category && s.rule_labels == v[k].item.rule_labels,
        None => false,
    }
    &&& s.incident_count == count_of_rule(v, s.ruleset_name, s.rule_id)
    &&& s.pattern_item_count == count_of_kind(v, s.ruleset_name, s.rule_id, RemediationKind::Pattern)
    &&& s.llm_item_count == count_of_kind(v, s.ruleset_name, s.rule_id, RemediationKind::Llm)
    &&& s.manual_item_count == count_of_kind(v, s.ruleset_name, s.rule_id, RemediationKind::Manual)
    &&& in_key_order(true, s.files)
    &&& forall|path: Seq<char>|
        s.files.contains(path) <==> #[trigger] rule_in_file(v, s.ruleset_name, s.rule_id, path)
}

/// Rules by ruleset, then by id.
pub open spec fn rule_less(a: (Seq<char>, Seq<char>), b: (Seq<char>, Seq<char>)) -> bool {
    text_less(false, a.0, b.0) || (a.0 == b.0 && text_less(false, a.1, b.1))
}

pub open spec fn rule_key(s: RuleSummaryView) -> (Seq<char>, Seq<char>) {
    (s.ruleset_name, s.rule_id)
}

/// Whether `out` sums up all rules that have entries, each once, by ruleset and id.
pub open spec fn reports_rules(out: Seq<RuleSummaryView>, v: Seq<EntryView>) -> bool {
    &&& forall|i: int, j: int|
        0 <= i < j < out.len() ==> rule_less(rule_key(#[trigger] out[i]), rule_key(#[trigger] out[j]))
    &&& forall|i: int| 0 <= i < out.len() ==> sums_up(#[trigger] out[i], v)
    &&& forall|i: int| 0 <= i < v.len() ==> is_summed_up(#[trigger] v[i], out)
}

/// Whether the rule of an entry is among some summaries.
pub open spec fn is_summed_up(e: EntryView, out: Seq<RuleSummaryView>) -> bool {
    exists|k: int|
        0 <= k < out.len() && is_of_rule(e, (#[trigger] out[k]).ruleset_name, out[k].rule_id)
}

/// Every item of a rule is of one of three kinds: the counts of a summary add up.
pub proof fn kinds_add_up(v: Seq<EntryView>, ruleset_name: Seq<char>, rule_id: Seq<char>)
    ensures
        count_of_rule(v, ruleset_name, rule_id) == count_of_kind(
            v,
            ruleset_name,
            rule_id,
            RemediationKind::Pattern,
        ) + count_of_kind(v, ruleset_name, rule_id, RemediationKind::Llm) + count_of_kind(
            v,
            ruleset_name,
            rule_id,
            RemediationKind::Manual,
        ),
    decreases v.len(),
{
    if v.len() > 0 {
        kinds_add_up(v.drop_last(), ruleset_name, rule_id);
    }
}

proof fn lemma_first_of_rule(v: Seq<EntryView>, ruleset_name: Seq<char>, rule_id: Seq<char>, k: int, i: int)
    requires
        0 <= i <= k < v.len(),
        is_of_rule(v[k], ruleset_name, rule_id),
        forall|j: int| i <= j < k ==> !is_of_rule(#[trigger] v[j], ruleset_name, rule_id),
    ensures
        first_of_rule(v, ruleset_name, rule_id, i) == Some(k),
    decreases k - i,
{
    if i < k {
        lemma_first_of_rule(v, ruleset_name, rule_id, k, i + 1);
    }
}

fn is_entry_of(e: &ReportEntry, ruleset_name: &str, rule_id: &str) -> (r: bool)
    ensures
        r == is_of_rule(e@, ruleset_name@, rule_id@),
{
    same_text(e.item.ruleset_name.as_str(), ruleset_name) && same_text(e.item.rule_id.as_str(), rule_id)
}

/// Sums up the rule of the entry at `first`, which has none before it.
fn sum_up(entries: &Vec<ReportEntry>, first: usize) -> (r: RuleSummary)
    requires
        first < entries@.len(),
        forall|j: int|
            0 <= j < first ==> !is_of_rule(
                #[trigger] entry_views(entries@)[j],
                entries@[first as int]@.item.ruleset_name,
                entries@[first as int]@.item.rule_id,
            ),
    ensures
        sums_up(r@, entry_views(entries@)),
        rule_key(r@) == (
            entries@[first as int]@.item.ruleset_name,
            entries@[first as int]@.item.rule_id,
        ),
{
    let ghost v = entry_views(entries@);
    let head = &entries[first].item;
    let ruleset_name = head.ruleset_name.clone();
    let rule_id = head.rule_id.clone();
    let ghost rs = ruleset_name@;
    let ghost id = rule_id@;
    let mut incidents: usize = 0;
    let mut patterns: usize = 0;
    let mut requests: usize = 0;
    let mut manuals: usize = 0;
    let mut paths: PathMap<bool> = PathMap::new();
    let mut i: usize = 0;
    let total: usize = entries.len();
    while i < total
        invariant
            i <= total,
            total == entries@.len(),
            v == entry_views(entries@),
            rs == ruleset_name@,
            id == rule_id@,
            incidents <= i,
            patterns <= i,
            requests <= i,
            manuals <= i,
            incidents == count_of_rule(v.take(i as int), rs, id),
            patterns == count_of_kind(v.take(i as int), rs, id, RemediationKind::Pattern),
            requests == count_of_kind(v.take(i as int), rs, id, RemediationKind::Llm),
            manuals == count_of_kind(v.take(i as int), rs, id, RemediationKind::Manual),
            forall|path: Seq<char>| #[trigger]
                paths@.dom().contains(path) <==> rule_in_file(v.take(i as int), rs, id, path),
        decreases total - i,
    {
        let ghost prior = v.take(i as int);
        let ghost now = v.take(i + 1);
        assert(now.drop_last() =~= prior);
        assert(now.last() == entries@[i as int]@);
        let ghost before = paths@;
        let entry = &entries[i];
        let own = is_entry_of(entry, ruleset_name.as_str(), rule_id.as_str());
        if own {
            incidents = incidents + 1;
            match entry.item.kind {
                RemediationKind::Pattern => {
                    patterns = patterns + 1;
                },
                RemediationKind::Llm => {
                    requests = requests + 1;
                },
                RemediationKind::Manual => {
                    manuals = manuals + 1;
                },
            }
            paths.insert(entry.path.clone(), true);
        }
        proof {
            assert forall|path: Seq<char>| #[trigger]
                paths@.dom().contains(path) <==> rule_in_file(now, rs, id, path) by {
                assert(before.dom().contains(path) <==> rule_in_file(prior, rs, id, path));
                if rule_in_file(prior, rs, id, path) {
                    let k = choose|k: int|
                        0 <= k < prior.len() && is_of_rule(#[trigger] prior[k], rs, id) && prior[k].path
                            == path;
                    assert(now[k] == prior[k]);
                }
                if own && path == entry.path@ {
                    assert(is_of_rule(now[i as int], rs, id) && now[i as int].path == path);
                }
                if rule_in_file(now, rs, id, path) {
                    let k = choose|k: int|
                        0 <= k < now.len() && is_of_rule(#[trigger] now[k], rs, id) && now[k].path
                            == path;
                    if k < i {
                        assert(prior[k] == now[k]);
                        assert(rule_in_file(prior, rs, id, path));
                    }
                }
            }
        }
        i = i + 1;
    }
    assert(v.take(v.len() as int) =~= v);
    let n: usize = paths.len();
    let mut files: Vec<String> = Vec::new();
    let mut k: usize = 0;
    while k < n
        invariant
            k <= n,
            n == paths.keys().len(),
            files@.len() == k,
            forall|j: int| 0 <= j < k ==> (#[trigger] files@[j])@ == paths.keys()[j],
        decreases n - k,
    {
        files.push(paths.key_at(k).clone());
        k = k + 1;
    }
    assert(texts(files@) =~= paths.keys());
    proof {
        lemma_first_of_rule(v, rs, id, first as int, 0);
        let m = paths.keys();
        assert forall|path: Seq<char>|
            m.contains(path) <==> #[trigger] rule_in_file(v, rs, id, path) by {
            assert(paths@.dom().contains(path) <==> m.contains(path));
        }
    }
    RuleSummary {
        rule_description: head.rule_description.clone(),
        rule_category: head.rule_category,
        rule_labels: copy_list(&head.rule_labels),
        ruleset_name,
        rule_id,
        incident_count: incidents,
        pattern_item_count: patterns,
        llm_item_count: requests,
        manual_item_count: manuals,
        files,
    }
}

proof fn lemma_rule_less_transitive(
    a: (Seq<char>, Seq<char>),
    b: (Seq<char>, Seq<char>),
    c: (Seq<char>, Seq<char>),
)
    requires
        rule_less(a, b),
        rule_less(b, c),
    ensures
        rule_less(a, c),
{
    if text_less(false, a.0, b.0) && text_less(false, b.0, c.0) {
        text_less_transitive(false, a.0, b.0, c.0);
    }
    if text_less(false, a.1, b.1) && text_less(false, b.1, c.1) {
        text_less_transitive(false, a.1, b.1, c.1);
    }
}

/// Whether the key of a rule comes before another, or is the same.
fn compare_rules(s: &RuleSummary, ruleset_name: &str, rule_id: &str) -> (r: TextOrder)
    ensures
        r == TextOrder::Before ==> rule_less(rule_key(s@), (ruleset_name@, rule_id@)),
        r == TextOrder::Same <==> rule_key(s@) == (ruleset_name@, rule_id@),
        r == TextOrder::After ==> rule_less((ruleset_name@, rule_id@), rule_key(s@)),
{
    match order_of(false, s.ruleset_name.as_str(), ruleset_name) {
        TextOrder::Before => {
            proof {
                text_less_irreflexive(false, ruleset_name@);
            }
            TextOrder::Before
        },
        TextOrder::After => {
            proof {
                text_less_irreflexive(false, ruleset_name@);
            }
            TextOrder::After
        },
        TextOrder::Same => order_of(false, s.rule_id.as_str(), rule_id),
    }
}

fn make_rule_summaries(entries: &Vec<ReportEntry>) -> (r: Vec<RuleSummary>)
    ensures
        reports_rules(summary_views(r@), entry_views(entries@)),
{
    let ghost v = entry_views(entries@);
    let mut out: Vec<RuleSummary> = Vec::new();
    let mut i: usize = 0;
    while i < entries.len()
        invariant
            i <= entries@.len(),
            v == entry_views(entries@),
            forall|a: int, b: int|
                0 <= a < b < out@.len() ==> rule_less(
                    rule_key(#[trigger] summary_views(out@)[a]),
                    rule_key(#[trigger] summary_views(out@)[b]),
                ),
            forall|a: int| 0 <= a < out@.len() ==> sums_up(#[trigger] summary_views(out@)[a], v),
            forall|j: int| 0 <= j < i ==> is_summed_up(#[trigger] v[j], summary_views(out@)),
        decreases entries@.len() - i,
    {
        let entry = &entries[i];
        let ghost key = (entry.item.ruleset_name@, entry.item.rule_id@);
        let ghost before = summary_views(out@);
        let mut at: usize = 0;
        while at < out.len() && matches!(
            compare_rules(&out[at], entry.item.ruleset_name.as_str(), entry.item.rule_id.as_str()),
            TextOrder::Before
        )
            invariant
                at <= out@.len(),
                before == summary_views(out@),
                key == (entry.item.ruleset_name@, entry.item.rule_id@),
                forall|a: int| 0 <= a < at ==> rule_less(rule_key(#[trigger] before[a]), key),
            decreases out@.len() - at,
        {
            assert(rule_less(rule_key(before[at as int]), key));
            at = at + 1;
        }
        let known: bool = at < out.len() && matches!(
            compare_rules(&out[at], entry.item.ruleset_name.as_str(), entry.item.rule_id.as_str()),
            TextOrder::Same
        );
        if known {
            assert(is_of_rule(v[i as int], before[at as int].ruleset_name, before[at as int].rule_id));
        } else {
            proof {
                if at < out@.len() {
                    assert(rule_less(key, rule_key(before[at as int])));
                }
                assert forall|a: int| at <= a < before.len() implies rule_less(
                    key,
                    rule_key(#[trigger] before[a]),
                ) by {
                    if a > at {
                        lemma_rule_less_transitive(key, rule_key(before[at as int]), rule_key(before[a]));
                    }
                }
                assert forall|j: int| 0 <= j < i implies !is_of_rule(#[trigger] v[j], key.0, key.1) by {
                    if is_of_rule(v[j], key.0, key.1) {
                        assert(is_summed_up(v[j], before));
                        let k = choose|k: int|
                            0 <= k < before.len() && is_of_rule(
                                v[j],
                                (#[trigger] before[k]).ruleset_name,
                                before[k].rule_id,
                            );
                        assert(rule_key(before[k]) == key);
                        text_less_irreflexive(false, key.0);
                        text_less_irreflexive(false, key.1);
                        if k < at {
                            assert(rule_less(rule_key(before[k]), key));
                        } else {
                            assert(rule_less(key, rule_key(before[k])));
                        }
                    }
                }
            }
            let summary = sum_up(entries, i);
            let ghost s = summary@;
            out.insert(at, summary);
            proof {
                let now = summary_views(out@);
                assert(now =~= before.insert(at as int, s));
                assert forall|a: int, b: int| 0 <= a < b < now.len() implies rule_less(
                    rule_key(#[trigger] now[a]),
                    rule_key(#[trigger] now[b]),
                ) by {
                    let x = if a < at { a } else { a - 1 };
                    let y = if b < at { b } else { b - 1 };
                    if a != at && b != at {
                        assert(rule_less(rule_key(before[x]), rule_key(before[y])));
                    } else if a == at {
                        assert(rule_less(key, rule_key(before[y])));
                    } else {
                        assert(rule_less(rule_key(before[x]), key));
                    }
                }
                assert forall|a: int| 0 <= a < now.len() implies sums_up(#[trigger] now[a], v) by {
                    if a < at {
                        assert(now[a] == before[a]);
                    } else if a > at {
                        assert(now[a] == before[a - 1]);
                    }
                }
                assert forall|j: int| 0 <= j < i + 1 implies is_summed_up(#[trigger] v[j], now) by {
                    if j < i {
                        assert(is_summed_up(v[j], before));
                        let k = choose|k: int|
                            0 <= k < before.len() && is_of_rule(
                                v[j],
                                (#[trigger] before[k]).ruleset_name,
                                before[k].rule_id,
                            );
                        let m = if k < at { k } else { k + 1 };
                        assert(now[m] == before[k]);
                        assert(is_of_rule(v[j], now[m].ruleset_name, now[m].rule_id));
                    } else {
                        assert(now[at as int] == s);
                        assert(is_of_rule(v[j], now[at as int].ruleset_name, now[at as int].rule_id));
                    }
                }
            }
        }
        i = i + 1;
    }
    out
}

// ── Errors ──────────────────────────────────────────────────────────────

pub open spec fn error_messages(v: Seq<ProviderErrorView>) -> Seq<Seq<char>> {
    Seq::new(v.len(), |i: int| v[i].message)
}

/// `v` with the first `n` errors of a ruleset whose message is new.
pub open spec fn with_errors(v: Seq<ProviderErrorView>, ruleset: RuleSet, n: int) -> Seq<ProviderErrorView>
    decreases n,
{
    if n <= 0 {
        v
    } else {
        let before = with_errors(v, ruleset, n - 1);
        let message = ruleset.errors.values()[n - 1]@;
        if error_messages(before).contains(message) {
            before
        } else {
            before.push(
                ProviderErrorView {
                    ruleset_name: ruleset.name@,
                    rule_id: Some(ruleset.errors.keys()[n - 1]),
                    message,
                },
            )
        }
    }
}

/// The errors of an analysis, each message once, with the rule that it first came
/// from.
pub open spec fn errors_of(output: Seq<RuleSet>) -> Seq<ProviderErrorView>
    decreases output.len(),
{
    if output.len() == 0 {
        Seq::empty()
    } else {
        with_errors(
            errors_of(output.drop_last()),
            output.last(),
            output.last().errors.keys().len() as int,
        )
    }
}

/// No message is reported twice.
pub proof fn errors_are_reported_once(output: Seq<RuleSet>)
    ensures
        error_messages(errors_of(output)).no_duplicates(),
    decreases output.len(),
{
    if output.len() > 0 {
        errors_are_reported_once(output.drop_last());
        lemma_with_errors(
            errors_of(output.drop_last()),
            output.last(),
            output.last().errors.keys().len() as int,
        );
    }
}

proof fn lemma_with_errors(v: Seq<ProviderErrorView>, ruleset: RuleSet, n: int)
    requires
        error_messages(v).no_duplicates(),
    ensures
        error_messages(with_errors(v, ruleset, n)).no_duplicates(),
    decreases n,
{
    if n > 0 {
        lemma_with_errors(v, ruleset, n - 1);
        let before = with_errors(v, ruleset, n - 1);
        let now = with_errors(v, ruleset, n);
        if now != before {
            assert(error_messages(now) =~= error_messages(before).push(ruleset.errors.values()[n - 1]@));
            assert forall|i: int, j: int|
                0 <= i < error_messages(now).len() && 0 <= j < error_messages(now).len() && i
                    != j implies error_messages(now)[i] != error_messages(now)[j] by {
                if i == before.len() {
                    assert(error_messages(before)[j] == error_messages(now)[j]);
                } else if j == before.len() {
                    assert(error_messages(before)[i] == error_messages(now)[i]);
                } else {
                    assert(error_messages(before)[i] != error_messages(before)[j]);
                }
            }
        }
    }
}

fn is_reported(v: &Vec<ProviderErrorSummary>, message: &str) -> (r: bool)
    ensures
        r == error_messages(error_views(v@)).contains(message@),
{
    let ghost m = error_messages(error_views(v@));
    let mut i: usize = 0;
    while i < v.len()
        invariant
            i <= v@.len(),
            m == error_messages(error_views(v@)),
            forall|k: int| 0 <= k < i ==> m[k] != message@,
        decreases v@.len() - i,
    {
        if same_text(v[i].message.as_str(), message) {
            assert(m[i as int] == message@);
            return true;
        }
        i = i + 1;
    }
    false
}

/// The errors of an analysis, each message once.
pub fn collect_provider_errors(output: &Vec<RuleSet>) -> (r: Vec<ProviderErrorSummary>)
    ensures
        error_views(r@) == errors_of(output@),
{
    let mut out: Vec<ProviderErrorSummary> = Vec::new();
    let mut i: usize = 0;
    assert(error_views(out@) =~= errors_of(output@.take(0)));
    while i < output.len()
        invariant
            i <= output@.len(),
            error_views(out@) == errors_of(output@.take(i as int)),
        decreases output@.len() - i,
    {
        assert(output@.take(i + 1).drop_last() =~= output@.take(i as int));
        let ruleset = &output[i];
        let ghost before = error_views(out@);
        let n: usize = ruleset.errors.len();
        let mut k: usize = 0;
        while k < n
            invariant
                k <= n,
                n == ruleset.errors.keys().len(),
                n == ruleset.errors.values().len(),
                error_views(out@) == with_errors(before, *ruleset, k as int),
            decreases n - k,
        {
            let message = ruleset.errors.value_at(k);
            if !is_reported(&out, message.as_str()) {
                let error = ProviderErrorSummary {
                    ruleset_name: ruleset.name.clone(),
                    rule_id: Some(ruleset.errors.key_at(k).clone()),
                    message: message.clone(),
                };
                let ghost prior = out@;
                out.push(error);
                assert(error_views(out@) =~= error_views(prior).push(error@));
            }
            k = k + 1;
        }
        i = i + 1;
    }
    assert(output@.take(output@.len() as int) =~= output@);
    out
}

// ── Counts ──────────────────────────────────────────────────────────────

pub(crate) fn add_counts(a: usize, b: usize, Ghost(x): Ghost<nat>, Ghost(y): Ghost<nat>) -> (r: usize)
    requires
        a == held(x),
        b == held(y),
    ensures
        r == held(x + y),
{
    if b <= usize::MAX - a {
        a + b
    } else {
        usize::MAX
    }
}

/// How many violations the rulesets have.
pub open spec fn violation_total(output: Seq<RuleSet>) -> nat
    decreases output.len(),
{
    if output.len() == 0 {
        0
    } else {
        violation_total(output.drop_last()) + output.last().violations.keys().len()
    }
}

/// How many incidents the first `n` violations of a ruleset have.
pub open spec fn incidents_in(ruleset: RuleSet, n: int) -> nat
    decreases n,
{
    if n <= 0 {
        0
    } else {
        incidents_in(ruleset, n - 1) + ruleset.violations.values()[n - 1].incidents@.len()
    }
}

/// How many incidents the rulesets have.
pub open spec fn incident_total(output: Seq<RuleSet>) -> nat
    decreases output.len(),
{
    if output.len() == 0 {
        0
    } else {
        incident_total(output.drop_last()) + incidents_in(
            output.last(),
            output.last().violations.keys().len() as int,
        )
    }
}

/// How many of the fixes come from patterns.
pub open spec fn pattern_fixes(v: Seq<PlannedFixView>) -> nat
    decreases v.len(),
{
    if v.len() == 0 {
        0
    } else {
        pattern_fixes(v.drop_last()) + if v.last().source == FixSource::Pattern {
            1nat
        } else {
            0nat
        }
    }
}

/// How many edits the fixes from patterns have.
pub open spec fn pattern_edits(v: Seq<PlannedFixView>) -> nat
    decreases v.len(),
{
    if v.len() == 0 {
        0
    } else {
        pattern_edits(v.drop_last()) + if v.last().source == FixSource::Pattern {
            v.last().edits.len()
        } else {
            0nat
        }
    }
}

/// The fixes from patterns in the first `n` files of a plan.
pub open spec fn plan_pattern_fixes(plan: FixPlan, n: int) -> nat
    decreases n,
{
    if n <= 0 {
        0
    } else {
        plan_pattern_fixes(plan, n - 1) + pattern_fixes(fix_views(plan.files.values()[n - 1]@))
    }
}

/// The edits of the fixes from patterns in the first `n` files of a plan.
pub open spec fn plan_pattern_edits(plan: FixPlan, n: int) -> nat
    decreases n,
{
    if n <= 0 {
        0
    } else {
        plan_pattern_edits(plan, n - 1) + pattern_edits(fix_views(plan.files.values()[n - 1]@))
    }
}

pub(crate) fn count_violations(output: &Vec<RuleSet>) -> (r: usize)
    ensures
        r == held(violation_total(output@)),
{
    let mut total: usize = 0;
    let mut i: usize = 0;
    assert(output@.take(0).len() == 0);
    while i < output.len()
        invariant
            i <= output@.len(),
            total == held(violation_total(output@.take(i as int))),
        decreases output@.len() - i,
    {
        assert(output@.take(i + 1).drop_last() =~= output@.take(i as int));
        let n: usize = output[i].violations.len();
        total = add_counts(
            total,
            n,
            Ghost(violation_total(output@.take(i as int))),
            Ghost(n as nat),
        );
        i = i + 1;
    }
    assert(output@.take(output@.len() as int) =~= output@);
    total
}

pub(crate) fn count_incidents(output: &Vec<RuleSet>) -> (r: usize)
    ensures
        r == held(incident_total(output@)),
{
    let mut total: usize = 0;
    let mut i: usize = 0;
    assert(output@.take(0).len() == 0);
    while i < output.len()
        invariant
            i <= output@.len(),
            total == held(incident_total(output@.take(i as int))),
        decreases output@.len() - i,
    {
        assert(output@.take(i + 1).drop_last() =~= output@.take(i as int));
        let ruleset = &output[i];
        let ghost before = incident_total(output@.take(i as int));
        let n: usize = ruleset.violations.len();
        let mut k: usize = 0;
        while k < n
            invariant
                k <= n,
                n == ruleset.violations.keys().len(),
                n == ruleset.violations.values().len(),
                total == held(before + incidents_in(*ruleset, k as int)),
            decreases n - k,
        {
            let found: usize = ruleset.violations.value_at(k).incidents.len();
            total = add_counts(
                total,
                found,
                Ghost(before + incidents_in(*ruleset, k as int)),
                Ghost(found as nat),
            );
            k = k + 1;
        }
        i = i + 1;
    }
    assert(output@.take(output@.len() as int) =~= output@);
    total
}

fn count_pattern_fixes(fixes: &Vec<PlannedFix>) -> (r: (usize, usize))
    ensures
        r.0 == held(pattern_fixes(fix_views(fixes@))),
        r.1 == held(pattern_edits(fix_views(fixes@))),
{
    let ghost v = fix_views(fixes@);
    let mut count: usize = 0;
    let mut edits: usize = 0;
    let mut i: usize = 0;
    assert(v.take(0).len() == 0);
    while i < fixes.len()
        invariant
            i <= fixes@.len(),
            v == fix_views(fixes@),
            count == held(pattern_fixes(v.take(i as int))),
            edits == held(pattern_edits(v.take(i as int))),
        decreases fixes@.len() - i,
    {
        assert(v.take(i + 1).drop_last() =~= v.take(i as int));
        assert(v.take(i + 1).last() == fixes@[i as int]@);
        if fixes[i].source == FixSource::Pattern {
            let n: usize = fixes[i].edits.len();
            count = add_counts(count, 1, Ghost(pattern_fixes(v.take(i as int))), Ghost(1));
            edits = add_counts(edits, n, Ghost(pattern_edits(v.take(i as int))), Ghost(n as nat));
        }
        i = i + 1;
    }
    assert(v.take(v.len() as int) =~= v);
    (count, edits)
}

fn count_plan_patterns(plan: &FixPlan) -> (r: (usize, usize))
    ensures
        r.0 == held(plan_pattern_fixes(*plan, plan.files.keys().len() as int)),
        r.1 == held(plan_pattern_edits(*plan, plan.files.keys().len() as int)),
{
    let mut count: usize = 0;
    let mut edits: usize = 0;
    let n: usize = plan.files.len();
    let mut i: usize = 0;
    while i < n
        invariant
            i <= n,
            n == plan.files.keys().len(),
            n == plan.files.values().len(),
            count == held(plan_pattern_fixes(*plan, i as int)),
            edits == held(plan_pattern_edits(*plan, i as int)),
        decreases n - i,
    {
        let (c, e) = count_pattern_fixes(plan.files.value_at(i));
        let ghost v = fix_views(plan.files.values()[i as int]@);
        count = add_counts(
            count,
            c,
            Ghost(plan_pattern_fixes(*plan, i as int)),
            Ghost(pattern_fixes(v)),
        );
        edits = add_counts(
            edits,
            e,
            Ghost(plan_pattern_edits(*plan, i as int)),
            Ghost(pattern_edits(v)),
        );
        i = i + 1;
    }
    (count, edits)
}

/// The counts of a report: those of the analysis, of the plan, and of the errors and
/// files of the report. A count that does not fit is held as the largest number.
pub open spec fn summary_of(
    output: Seq<RuleSet>,
    plan: FixPlan,
    errors: nat,
    files: nat,
) -> RemediationSummary {
    RemediationSummary {
        ruleset_count: output.len() as usize,
        violation_count: held(violation_total(output)),
        incident_count: held(incident_total(output)),
        provider_error_count: errors as usize,
        report_file_count: files as usize,
        files_with_deterministic_edits: plan.files.keys().len() as usize,
        deterministic_fix_count: held(plan_pattern_fixes(plan, plan.files.keys().len() as int)),
        deterministic_edit_count: held(plan_pattern_edits(plan, plan.files.keys().len() as int)),
        llm_item_count: plan.pending_llm@.len() as usize,
        manual_item_count: plan.manual@.len() as usize,
    }
}

fn make_summary(output: &Vec<RuleSet>, plan: &FixPlan, errors: usize, files: usize) -> (r: RemediationSummary)
    ensures
        r == summary_of(output@, *plan, errors as nat, files as nat),
{
    let (fixes, edits) = count_plan_patterns(plan);
    RemediationSummary {
        ruleset_count: output.len(),
        violation_count: count_violations(output),
        incident_count: count_incidents(output),
        provider_error_count: errors,
        report_file_count: files,
        files_with_deterministic_edits: plan.files.len(),
        deterministic_fix_count: fixes,
        deterministic_edit_count: edits,
        llm_item_count: plan.pending_llm.len(),
        manual_item_count: plan.manual.len(),
    }
}

// ── The whole report ────────────────────────────────────────────────────

pub open spec fn ruleset_names(output: Seq<RuleSet>) -> Seq<Seq<char>> {
    Seq::new(output.len(), |i: int| output[i].name@)
}

pub open spec fn opt_texts(o: Option<Vec<String>>) -> Option<Seq<Seq<char>>> {
    match o {
        Some(v) => Some(texts(v@)),
        None => None,
    }
}

/// What a report says of the analysis and the plan: its errors, files and rules, what
/// language models would be asked, and the counts.
pub open spec fn reports(
    r: RemediationPlanReport,
    plan: FixPlan,
    output: Seq<RuleSet>,
    input: ReportInput,
    system_prompt: Seq<char>,
) -> bool {
    let entries = entries_of(output, input);
    let requests = requests_of(entries);
    &&& texts(r.ruleset_names@) == ruleset_names(output)
    &&& error_views(r.provider_errors@) == errors_of(output)
    &&& reports_files(file_views(r.files@), entries, plan@, input)
    &&& reports_rules(summary_views(r.by_rule@), entries)
    &&& openai_views(r.llm_plan.openai_requests@) == chat_requests(requests, system_prompt)
    &&& plans_requests(planned_views(r.llm_plan.goose_batches@), requests)
    &&& r.summary == summary_of(output, plan, errors_of(output).len(), r.files@.len())
}

fn list_ruleset_names(output: &Vec<RuleSet>) -> (r: Vec<String>)
    ensures
        texts(r@) == ruleset_names(output@),
{
    let mut out: Vec<String> = Vec::new();
    let mut i: usize = 0;
    while i < output.len()
        invariant
            i <= output@.len(),
            out@.len() == i,
            forall|k: int| 0 <= k < i ==> (#[trigger] out@[k])@ == output@[k].name@,
        decreases output@.len() - i,
    {
        out.push(output[i].name.clone());
        i = i + 1;
    }
    assert(texts(out@) =~= ruleset_names(output@));
    out
}

/// Builds the report on a plan for the output of an analysis.
///
/// `sources` holds the contents of the files that incidents lie in, `sizes` the sizes
/// of those that are there. `system_prompt` is what language models are told first;
/// `generated_at_utc` and `tool_version` say when and by what the report was made.
pub fn build_remediation_report(
    plan: &FixPlan,
    output: &Vec<RuleSet>,
    project_root: &str,
    strategies: &Strategies,
    lang: &JsFixProvider,
    system_prompt: &str,
    options: &ReportBuildOptions,
    sources: &Sources,
    sizes: &PathMap<u64>,
    generated_at_utc: &str,
    tool_version: &str,
) -> (r: RemediationPlanReport)
    ensures
        reports(
            r,
            *plan,
            output@,
            (ReportInput {
                root: project_root@,
                strategies: strategies_view(*strategies),
                sources: sources_view(*sources),
                sizes: sizes@,
                origins: options.strategy_origins@,
                strategy_sources: options.strategy_sources@,
            }),
            system_prompt@,
        ),
        r.schema_version@ == "1"@,
        r.generated_at_utc@ == generated_at_utc@,
        r.tool_version@ == tool_version@,
        r.project_root@ == project_root@,
        r.analysis_input@ == options.analysis_input@,
        r.output_path@ == options.output_path@,
        opt_texts(r.rules_filter) == opt_texts(options.rules_filter),
        r.strategy_sources@ == options.strategy_sources@,
{
    let inputs = Inputs { root: project_root, strategies, sources, sizes, options, lang };
    let entries = collect_entries(output, &inputs);
    let requests = collect_requests(&entries);
    proof {
        lemma_entries_hold_content(output@, inputs@);
        lemma_requests_hold_content(entry_views(entries@));
    }
    let openai_requests = collect_chat_requests(&requests, system_prompt);
    let goose_batches = build_goose_plan_batches(&requests);
    let by_rule = make_rule_summaries(&entries);
    let files = make_files(entries, plan, &inputs);
    let provider_errors = collect_provider_errors(output);
    assert(error_views(provider_errors@).len() == provider_errors@.len());
    let summary = make_summary(output, plan, provider_errors.len(), files.len());
    RemediationPlanReport {
        schema_version: "1".to_owned(),
        generated_at_utc: generated_at_utc.to_owned(),
        tool_version: tool_version.to_owned(),
        project_root: project_root.to_owned(),
        analysis_input: options.analysis_input.clone(),
        output_path: options.output_path.clone(),
        ruleset_names: list_ruleset_names(output),
        rules_filter: match &options.rules_filter {
            Some(v) => Some(copy_list(v)),
            None => None,
        },
        strategy_sources: options.strategy_sources.copy(),
        summary,
        provider_errors,
        files,
        by_rule,
        llm_plan: LlmPlanPreview { openai_requests, goose_batches },
    }
}

// ── The report and the plan ─────────────────────────────────────────────

/// The requests as a plan holds them, without the content of files.
pub open spec fn without_content(v: Seq<LlmFixRequestView>) -> Seq<LlmFixRequestView> {
    Seq::new(v.len(), |i: int| LlmFixRequestView { source: None, ..v[i] })
}

/// The manual items of a report, in order.
pub open spec fn manual_items_of(v: Seq<EntryView>) -> Seq<ManualFixItemView>
    decreases v.len(),
{
    if v.len() == 0 {
        Seq::empty()
    } else {
        match v.last().item.manual_item {
            Some(m) => manual_items_of(v.drop_last()).push(m),
            None => manual_items_of(v.drop_last()),
        }
    }
}

/// The fixes of items, in order.
pub open spec fn item_fixes(v: Seq<ItemView>) -> Seq<PlannedFixView>
    decreases v.len(),
{
    if v.len() == 0 {
        Seq::empty()
    } else {
        match v.last().planned_fix {
            Some(f) => item_fixes(v.drop_last()).push(f),
            None => item_fixes(v.drop_last()),
        }
    }
}

/// Whether a plan holds what the items of a report stand for: their requests, their
/// manual items, and the fixes of every file.
pub open spec fn agrees(plan: FixPlanView, entries: Seq<EntryView>) -> bool {
    &&& plan.pending_llm == without_content(requests_of(entries))
    &&& plan.manual == manual_items_of(entries)
    &&& forall|path: Seq<char>| #[trigger] fixes_at(plan.files, path) == item_fixes(items_at(entries, path))
}

proof fn lemma_agrees_incident(
    plan: FixPlanView,
    entries: Seq<EntryView>,
    ruleset_name: Seq<char>,
    rule_id: Seq<char>,
    violation: Violation,
    incident: IncidentView,
    input: ReportInput,
)
    requires
        agrees(plan, entries),
    ensures
        agrees(
            with_incident(
                plan,
                strategy_for(input.strategies, rule_id, texts(violation.labels@)),
                rule_id,
                texts(violation.labels@),
                incident,
                input.root,
                input.sources,
            ),
            push_opt(entries, entry_of(ruleset_name, rule_id, violation, incident, input)),
        ),
{
    let labels = texts(violation.labels@);
    let strategy = strategy_for(input.strategies, rule_id, labels);
    let now = with_incident(plan, strategy, rule_id, labels, incident, input.root, input.sources);
    let entry = entry_of(ruleset_name, rule_id, violation, incident, input);
    let after = push_opt(entries, entry);
    if let Some(e) = entry {
        assert(after.drop_last() =~= entries);
        assert(after.last() == e);
        match e.item.llm_request {
            Some(q) => {
                assert(requests_of(after) == requests_of(entries).push(q));
                assert(without_content(requests_of(after)) =~= now.pending_llm);
            },
            None => {
                assert(requests_of(after) == requests_of(entries));
            },
        }
        assert forall|path: Seq<char>| #[trigger] fixes_at(now.files, path) == item_fixes(
            items_at(after, path),
        ) by {
            assert(fixes_at(plan.files, path) == item_fixes(items_at(entries, path)));
            if path == e.path {
                assert(items_at(after, path) == items_at(entries, path).push(e.item));
                assert(items_at(after, path).drop_last() =~= items_at(entries, path));
            } else {
                assert(items_at(after, path) == items_at(entries, path));
            }
        }
    }
}

proof fn lemma_agrees_incidents(
    plan: FixPlanView,
    entries: Seq<EntryView>,
    ruleset_name: Seq<char>,
    rule_id: Seq<char>,
    violation: Violation,
    n: int,
    input: ReportInput,
)
    requires
        agrees(plan, entries),
        0 <= n <= violation.incidents@.len(),
    ensures
        agrees(
            with_incidents(
                plan,
                strategy_for(input.strategies, rule_id, texts(violation.labels@)),
                rule_id,
                texts(violation.labels@),
                violation.incidents@.take(n),
                input.root,
                input.sources,
            ),
            incident_entries(entries, ruleset_name, rule_id, violation, n, input),
        ),
    decreases n,
{
    let v = violation.incidents@;
    if n > 0 {
        lemma_agrees_incidents(plan, entries, ruleset_name, rule_id, violation, n - 1, input);
        assert(v.take(n).drop_last() =~= v.take(n - 1));
        assert(v.take(n).last() == v[n - 1]);
        lemma_agrees_incident(
            with_incidents(
                plan,
                strategy_for(input.strategies, rule_id, texts(violation.labels@)),
                rule_id,
                texts(violation.labels@),
                v.take(n - 1),
                input.root,
                input.sources,
            ),
            incident_entries(entries, ruleset_name, rule_id, violation, n - 1, input),
            ruleset_name,
            rule_id,
            violation,
            v[n - 1]@,
            input,
        );
    }
}

proof fn lemma_agrees_violations(
    plan: FixPlanView,
    entries: Seq<EntryView>,
    ruleset: RuleSet,
    n: int,
    input: ReportInput,
)
    requires
        agrees(plan, entries),
    ensures
        agrees(
            with_violations(plan, ruleset, n, input.strategies, input.root, input.sources),
            violation_entries(entries, ruleset, n, input),
        ),
    decreases n,
{
    if n > 0 {
        lemma_agrees_violations(plan, entries, ruleset, n - 1, input);
        let violation = ruleset.violations.values()[n - 1];
        let v = violation.incidents@;
        assert(v.take(v.len() as int) =~= v);
        lemma_agrees_incidents(
            with_violations(plan, ruleset, n - 1, input.strategies, input.root, input.sources),
            violation_entries(entries, ruleset, n - 1, input),
            ruleset.name@,
            ruleset.violations.keys()[n - 1],
            violation,
            v.len() as int,
            input,
        );
    }
}

proof fn lemma_agrees_rulesets(output: Seq<RuleSet>, input: ReportInput)
    ensures
        agrees(
            with_rulesets(output, input.strategies, input.root, input.sources),
            entries_of(output, input),
        ),
    decreases output.len(),
{
    if output.len() > 0 {
        lemma_agrees_rulesets(output.drop_last(), input);
        lemma_agrees_violations(
            with_rulesets(output.drop_last(), input.strategies, input.root, input.sources),
            entries_of(output.drop_last(), input),
            output.last(),
            output.last().violations.keys().len() as int,
            input,
        );
    } else {
        assert(without_content(requests_of(entries_of(output, input))) =~= Seq::<LlmFixRequestView>::empty());
    }
}

/// The report says what the plan does: for the same analysis, strategies and files,
/// its requests and manual items are those of the plan, in the same order, and the
/// fixes of a file in the plan are those of the items of the file, from the bottom up.
pub proof fn report_agrees_with_plan(output: Seq<RuleSet>, input: ReportInput)
    ensures
        ({
            let plan = plan_of(output, input.root, input.strategies, input.sources);
            let entries = entries_of(output, input);
            &&& plan.pending_llm == without_content(requests_of(entries))
            &&& plan.manual == manual_items_of(entries)
            &&& forall|path: Seq<char>| #[trigger]
                plan.files.dom().contains(path) ==> plan.files[path] == bottom_up(
                    item_fixes(items_at(entries, path)),
                )
            &&& forall|path: Seq<char>|
                !(#[trigger] plan.files.dom().contains(path)) ==> item_fixes(
                    items_at(entries, path),
                ).len() == 0
        }),
{
    let raw = with_rulesets(output, input.strategies, input.root, input.sources);
    let plan = plan_of(output, input.root, input.strategies, input.sources);
    let entries = entries_of(output, input);
    lemma_agrees_rulesets(output, input);
    assert forall|path: Seq<char>| #[trigger] plan.files.dom().contains(path) implies plan.files[path]
        == bottom_up(item_fixes(items_at(entries, path))) by {
        assert(fixes_at(raw.files, path) == raw.files[path]);
    }
    assert forall|path: Seq<char>| !(#[trigger] plan.files.dom().contains(path)) implies item_fixes(
        items_at(entries, path),
    ).len() == 0 by {
        assert(fixes_at(raw.files, path).len() == 0);
    }
}

// ── Laws of reports ─────────────────────────────────────────────────────

/// The value of a hexadecimal digit.
pub open spec fn digit_value(c: char) -> int {
    if '0' <= c <= '9' {
        c as int - '0' as int
    } else if 'a' <= c <= 'f' {
        c as int - 'a' as int + 10
    } else {
        -1
    }
}

/// Each byte can be read from its two digits, the higher one first.
pub proof fn hex_tells_the_bytes(bytes: Seq<u8>, i: int)
    requires
        0 <= i < bytes.len(),
    ensures
        hex(bytes).len() == 2 * bytes.len(),
        bytes[i] == digit_value(hex(bytes)[2 * i]) * 16 + digit_value(hex(bytes)[2 * i + 1]),
    decreases bytes.len(),
{
    let rest = bytes.drop_last();
    hex_is_twice_as_long(bytes);
    hex_is_twice_as_long(rest);
    if i < rest.len() {
        hex_tells_the_bytes(rest, i);
        assert(rest[i] == bytes[i]);
        assert(hex(bytes)[2 * i] == hex(rest)[2 * i]);
        assert(hex(bytes)[2 * i + 1] == hex(rest)[2 * i + 1]);
    } else {
        let b = bytes.last();
        assert(0 <= b / 16 < 16 && 0 <= b % 16 < 16);
        assert(digit_value(hex_digit((b / 16) as nat)) == b / 16);
        assert(digit_value(hex_digit((b % 16) as nat)) == b % 16);
    }
}

/// Whether an entry is for an incident of a rule, and says what its violation says.
pub open spec fn is_entry_for(
    e: EntryView,
    ruleset_name: Seq<char>,
    rule_id: Seq<char>,
    violation: Violation,
    incident: IncidentView,
    path: Seq<char>,
) -> bool {
    &&& e.path == path
    &&& e.item.rule_id == rule_id
    &&& e.item.ruleset_name == ruleset_name
    &&& e.item.rule_description == violation.description@
    &&& e.item.rule_category == violation.category
    &&& e.item.rule_labels == texts(violation.labels@)
    &&& e.item.rule_effort == violation.effort
    &&& e.item.incident == incident
}

/// Whether an item is what a strategy asks for: a manual item, a request with the content of
/// the file, or a fix.
pub open spec fn item_suits(
    item: ItemView,
    strategy: FixStrategyView,
    path: Seq<char>,
    input: ReportInput,
) -> bool {
    match strategy {
        FixStrategyView::Manual => item.kind == RemediationKind::Manual && item.manual_item is Some
            && item.llm_request is None && item.planned_fix is None,
        FixStrategyView::Llm => item.kind == RemediationKind::Llm && (
        item.llm_request matches Some(q) && q.file_path == path && q.rule_id == item.rule_id
            && q.source == Some(input.content(path))) && item.manual_item is None
            && item.planned_fix is None,
        _ => item.kind == RemediationKind::Pattern && item.planned_fix is Some
            && item.manual_item is None && item.llm_request is None,
    }
}

proof fn lemma_entry(
    ruleset_name: Seq<char>,
    rule_id: Seq<char>,
    violation: Violation,
    incident: IncidentView,
    input: ReportInput,
)
    ensures
        ({
            let labels = texts(violation.labels@);
            let strategy = strategy_for(input.strategies, rule_id, labels);
            let path = path_of_uri(incident.file_uri, input.root);
            let e = entry_of(ruleset_name, rule_id, violation, incident, input);
            &&& in_node_modules(path) ==> e is None
            &&& !in_node_modules(path) && (strategy is Manual || strategy is Llm || fix_of(
                strategy,
                rule_id,
                incident,
                readable(input.sources, path),
            ) is Some) ==> (e matches Some(x) && is_entry_for(
                x,
                ruleset_name,
                rule_id,
                violation,
                incident,
                path,
            ) && item_suits(x.item, strategy, path, input))
        }),
{
}

proof fn lemma_incident_entries(
    v: Seq<EntryView>,
    ruleset_name: Seq<char>,
    rule_id: Seq<char>,
    violation: Violation,
    n: int,
    input: ReportInput,
    x: EntryView,
)
    requires
        0 <= n <= violation.incidents@.len(),
    ensures
        v.contains(x) ==> incident_entries(
            v,
            ruleset_name,
            rule_id,
            violation,
            n,
            input,
        ).contains(x),
        (exists|k: int|
            0 <= k < n && entry_of(
                ruleset_name,
                rule_id,
                violation,
                (#[trigger] violation.incidents@[k])@,
                input,
            ) == Some(x)) ==> incident_entries(
            v,
            ruleset_name,
            rule_id,
            violation,
            n,
            input,
        ).contains(x),
    decreases n,
{
    if n > 0 {
        let before = incident_entries(v, ruleset_name, rule_id, violation, n - 1, input);
        lemma_incident_entries(v, ruleset_name, rule_id, violation, n - 1, input, x);
        let own = entry_of(ruleset_name, rule_id, violation, violation.incidents@[n - 1]@, input);
        if let Some(e) = own {
            lemma_in_pushed(before, e, x);
        }
    }
}

proof fn lemma_violation_entries(
    v: Seq<EntryView>,
    ruleset: RuleSet,
    n: int,
    input: ReportInput,
    x: EntryView,
)
    ensures
        v.contains(x) ==> violation_entries(v, ruleset, n, input).contains(x),
        (exists|m: int, k: int|
            0 <= m < n && 0 <= k < ruleset.violations.values()[m].incidents@.len() && entry_of(
                ruleset.name@,
                ruleset.violations.keys()[m],
                ruleset.violations.values()[m],
                (#[trigger] ruleset.violations.values()[m].incidents@[k])@,
                input,
            ) == Some(x)) ==> violation_entries(v, ruleset, n, input).contains(x),
    decreases n,
{
    if n > 0 {
        let violation = ruleset.violations.values()[n - 1];
        let before = violation_entries(v, ruleset, n - 1, input);
        lemma_violation_entries(v, ruleset, n - 1, input, x);
        lemma_incident_entries(
            before,
            ruleset.name@,
            ruleset.violations.keys()[n - 1],
            violation,
            violation.incidents@.len() as int,
            input,
            x,
        );
    }
}

/// Every incident outside installed packages is reported under its file, with what its rule
/// says and with what the strategy of the rule asks for: always where that is a review or a
/// request, else where it has a fix.
pub proof fn every_incident_is_reported(
    output: Seq<RuleSet>,
    input: ReportInput,
    r: int,
    m: int,
    k: int,
)
    requires
        0 <= r < output.len(),
        0 <= m < output[r].violations.keys().len(),
        0 <= k < output[r].violations.values()[m].incidents@.len(),
    ensures
        ({
            let rule_id = output[r].violations.keys()[m];
            let violation = output[r].violations.values()[m];
            let incident = violation.incidents@[k]@;
            let path = path_of_uri(incident.file_uri, input.root);
            let strategy = strategy_for(input.strategies, rule_id, texts(violation.labels@));
            let entries = entries_of(output, input);
            !in_node_modules(path) && (strategy is Manual || strategy is Llm || fix_of(
                strategy,
                rule_id,
                incident,
                readable(input.sources, path),
            ) is Some) ==> exists|n: int|
                0 <= n < entries.len() && is_entry_for(
                    #[trigger] entries[n],
                    output[r].name@,
                    rule_id,
                    violation,
                    incident,
                    path,
                ) && item_suits(entries[n].item, strategy, path, input)
        }),
    decreases output.len(),
{
    let rule_id = output[r].violations.keys()[m];
    let violation = output[r].violations.values()[m];
    let incident = violation.incidents@[k]@;
    let path = path_of_uri(incident.file_uri, input.root);
    let entries = entries_of(output, input);
    lemma_entry(output[r].name@, rule_id, violation, incident, input);
    if let Some(x) = entry_of(output[r].name@, rule_id, violation, incident, input) {
        lemma_reported(output, input, r, m, k, x);
        let n = choose|n: int| 0 <= n < entries.len() && entries[n] == x;
        assert(entries[n] == x);
    }
}

proof fn lemma_reported(
    output: Seq<RuleSet>,
    input: ReportInput,
    r: int,
    m: int,
    k: int,
    x: EntryView,
)
    requires
        0 <= r < output.len(),
        0 <= m < output[r].violations.keys().len(),
        0 <= k < output[r].violations.values()[m].incidents@.len(),
        entry_of(
            output[r].name@,
            output[r].violations.keys()[m],
            output[r].violations.values()[m],
            output[r].violations.values()[m].incidents@[k]@,
            input,
        ) == Some(x),
    ensures
        entries_of(output, input).contains(x),
    decreases output.len(),
{
    let rest = output.drop_last();
    let last = output.last();
    lemma_violation_entries(
        entries_of(rest, input),
        last,
        last.violations.keys().len() as int,
        input,
        x,
    );
    if r < rest.len() {
        assert(rest[r] == output[r]);
        lemma_reported(rest, input, r, m, k, x);
    }
}

/// Every error of an analysis is reported: its message is there.
pub proof fn every_error_is_reported(output: Seq<RuleSet>, r: int, k: int)
    requires
        0 <= r < output.len(),
        0 <= k < output[r].errors.keys().len(),
    ensures
        error_messages(errors_of(output)).contains(output[r].errors.values()[k]@),
    decreases output.len(),
{
    let message = output[r].errors.values()[k]@;
    let rest = output.drop_last();
    let last = output.last();
    let n = last.errors.keys().len() as int;
    lemma_errors_told(errors_of(rest), last, n, message);
    if r < rest.len() {
        assert(rest[r] == output[r]);
        every_error_is_reported(rest, r, k);
    }
}

proof fn lemma_errors_told(
    v: Seq<ProviderErrorView>,
    ruleset: RuleSet,
    n: int,
    message: Seq<char>,
)
    ensures
        error_messages(v).contains(message) ==> error_messages(
            with_errors(v, ruleset, n),
        ).contains(message),
        (exists|k: int| 0 <= k < n && (#[trigger] ruleset.errors.values()[k])@ == message)
            ==> error_messages(with_errors(v, ruleset, n)).contains(message),
    decreases n,
{
    if n > 0 {
        let before = with_errors(v, ruleset, n - 1);
        let now = with_errors(v, ruleset, n);
        lemma_errors_told(v, ruleset, n - 1, message);
        let own = ruleset.errors.values()[n - 1]@;
        if !error_messages(before).contains(own) {
            assert(error_messages(now) =~= error_messages(before).push(own));
            lemma_in_pushed(error_messages(before), own, message);
        }
    }
}

/// The counts of a rule are those of its entries, all of them and of each kind.
pub proof fn rules_are_counted(
    v: Seq<EntryView>,
    ruleset_name: Seq<char>,
    rule_id: Seq<char>,
    kind: RemediationKind,
)
    ensures
        count_of_rule(v, ruleset_name, rule_id) == v.filter(
            |e: EntryView| e.item.ruleset_name == ruleset_name && e.item.rule_id == rule_id,
        ).len(),
        count_of_kind(v, ruleset_name, rule_id, kind) == v.filter(
            |e: EntryView|
                e.item.ruleset_name == ruleset_name && e.item.rule_id == rule_id && e.item.kind
                    == kind,
        ).len(),
    decreases v.len(),
{
    reveal(Seq::filter);
    if v.len() > 0 {
        rules_are_counted(v.drop_last(), ruleset_name, rule_id, kind);
    }
}

/// The requests and the manual items of a report are those of its entries.
pub proof fn requests_come_from_entries(
    v: Seq<EntryView>,
    q: LlmFixRequestView,
    m: ManualFixItemView,
)
    ensures
        requests_of(v).contains(q) <==> exists|i: int|
            0 <= i < v.len() && (#[trigger] v[i]).item.llm_request == Some(q),
        manual_items_of(v).contains(m) <==> exists|i: int|
            0 <= i < v.len() && (#[trigger] v[i]).item.manual_item == Some(m),
    decreases v.len(),
{
    if v.len() > 0 {
        let rest = v.drop_last();
        requests_come_from_entries(rest, q, m);
        if let Some(own) = v.last().item.llm_request {
            lemma_in_pushed(requests_of(rest), own, q);
        }
        if let Some(own) = v.last().item.manual_item {
            lemma_in_pushed(manual_items_of(rest), own, m);
        }
        assert forall|i: int| 0 <= i < rest.len() implies rest[i] == #[trigger] v[i] by {}
        assert(v[v.len() - 1] == v.last());
        if requests_of(rest).contains(q) {
            let i = choose|i: int|
                0 <= i < rest.len() && (#[trigger] rest[i]).item.llm_request == Some(q);
            assert(v[i] == rest[i]);
        }
        if manual_items_of(rest).contains(m) {
            let i = choose|i: int|
                0 <= i < rest.len() && (#[trigger] rest[i]).item.manual_item == Some(m);
            assert(v[i] == rest[i]);
        }
    }
}

/// The items of a file are those of the entries with its path, in their order.
pub proof fn items_belong_to_their_file(v: Seq<EntryView>, path: Seq<char>)
    ensures
        items_at(v, path) == v.filter(|e: EntryView| e.path == path).map_values(
            |e: EntryView| e.item,
        ),
    decreases v.len(),
{
    let own = |e: EntryView| e.path == path;
    let item = |e: EntryView| e.item;
    reveal(Seq::filter);
    if v.len() > 0 {
        let rest = v.drop_last();
        items_belong_to_their_file(rest, path);
        assert(items_at(rest, path) =~= rest.filter(own).map_values(item));
        assert(rest.filter(own).push(v.last()).map_values(item) =~= rest.filter(own).map_values(
            item,
        ).push(v.last().item));
        assert(items_at(v, path) =~= v.filter(own).map_values(item));
    } else {
        assert(v.filter(own).map_values(item) =~= Seq::empty());
    }
}

/// The totals of several rulesets are the sums of those of each.
pub proof fn totals_add_up(a: Seq<RuleSet>, b: Seq<RuleSet>)
    ensures
        violation_total(a + b) == violation_total(a) + violation_total(b),
        incident_total(a + b) == incident_total(a) + incident_total(b),
        a.len() == 1 ==> violation_total(a) == a[0].violations.keys().len(),
    decreases b.len(),
{
    if b.len() == 0 {
        assert(a + b =~= a);
    } else {
        totals_add_up(a, b.drop_last());
        assert((a + b).drop_last() =~= a + b.drop_last());
        assert((a + b).last() == b.last());
    }
    if a.len() == 1 {
        assert(violation_total(a.drop_last()) == 0);
    }
}

/// The fixes and edits that are counted are those of the fixes from patterns.
pub proof fn fixes_from_patterns_are_counted(v: Seq<PlannedFixView>)
    ensures
        pattern_fixes(v) == v.filter(|f: PlannedFixView| f.source == FixSource::Pattern).len(),
        (forall|i: int| 0 <= i < v.len() ==> (#[trigger] v[i]).source == FixSource::Pattern)
            ==> pattern_edits(v) == all_edits(v).len(),
    decreases v.len(),
{
    reveal(Seq::filter);
    if v.len() > 0 {
        fixes_from_patterns_are_counted(v.drop_last());
        if forall|i: int| 0 <= i < v.len() ==> (#[trigger] v[i]).source == FixSource::Pattern {
            assert(v[v.len() - 1].source == FixSource::Pattern);
            assert forall|i: int| 0 <= i < v.drop_last().len() implies (
            #[trigger] v.drop_last()[i]).source == FixSource::Pattern by {
                assert(v.drop_last()[i] == v[i]);
            }
        }
    }
}

/// A file that is not there has no size, lines or digest; one that cannot be read has a size
/// alone; of any other, all is known.
pub proof fn files_are_described_as_far_as_known(
    size: Option<u64>,
    source: Option<Seq<char>>,
    digest: Seq<u8>,
)
    ensures
        ({
            let i = info_with_digest(size, source, digest);
            &&& i.exists <==> size is Some
            &&& i.size_bytes == size
            &&& i.source_before is Some <==> size is Some && source is Some
            &&& i.line_count is Some <==> i.source_before is Some
            &&& i.sha256_before is Some <==> i.source_before is Some
            &&& i.source_before is Some ==> i.source_before == source && i.line_count == Some(
                lines(source->0).len() as u32,
            ) && i.sha256_before == Some(hex(digest))
        }),
{
}

/// The label that a strategy was inferred from is the first one that stands for a strategy.
pub proof fn the_first_telling_label_is_named(labels: Seq<Seq<char>>, i: int)
    requires
        0 <= i < labels.len(),
        strategy_of_label(labels[i]) is Some,
        forall|j: int| 0 <= j < i ==> strategy_of_label(#[trigger] labels[j]) is None,
    ensures
        inferring_label(labels, 0) == Some(labels[i]),
{
    lemma_inferring(labels, 0, i);
}

proof fn lemma_inferring(labels: Seq<Seq<char>>, from: int, i: int)
    requires
        0 <= from <= i < labels.len(),
        strategy_of_label(labels[i]) is Some,
        forall|j: int| 0 <= j < i ==> strategy_of_label(#[trigger] labels[j]) is None,
    ensures
        inferring_label(labels, from) == Some(labels[i]),
    decreases i - from,
{
    if from < i {
        lemma_inferring(labels, from + 1, i);
    }
}

/// Where the strategy of a rule comes from is told: the file that holds it, else the label
/// that it was inferred from, else that there is none.
pub proof fn resolutions_tell_their_origin(
    origins: Map<Seq<char>, StrategyResolutionSource>,
    rule_id: Seq<char>,
    labels: Seq<Seq<char>>,
    from: StrategySourcesView,
)
    ensures
        ({
            let source = resolution_source(origins, rule_id, labels);
            let detail = source_detail(labels, source, from);
            &&& origins.dom().contains(rule_id) ==> source == origins[rule_id]
            &&& source == StrategyResolutionSource::ExplicitRulesStrategies ==> detail
                == from.rules_strategies
            &&& source == StrategyResolutionSource::ExplicitExternalStrategies ==> detail
                == from.external_strategies
            &&& !origins.dom().contains(rule_id) ==> (source
                == StrategyResolutionSource::LabelInference <==> inferred_from(labels, 0) is Some)
                && (source == StrategyResolutionSource::FallbackLlm <==> inferred_from(
                labels,
                0,
            ) is None)
            &&& reason_of(source) == ManualReason::ExplicitManualStrategy <==> source
                == StrategyResolutionSource::ExplicitRulesStrategies || source
                == StrategyResolutionSource::ExplicitExternalStrategies
        }),
{
}

/// A file of a report shows the difference that the fixes planned for it make to its source;
/// it shows none where there is no source, no fix or no difference.
pub proof fn files_show_what_the_plan_changes(
    plan: FixPlanView,
    path: Seq<char>,
    source: Option<Seq<char>>,
)
    ensures
        ({
            let fixes = fixes_at(plan.files, path);
            &&& diff_at(plan, path, source) is None <==> (source is None || fixes.len() == 0
                || file_diff(path, source->0, fixes).len() == 0)
            &&& diff_at(plan, path, source) matches Some(d) ==> d == file_diff(
                path,
                source->0,
                fixes,
            )
        }),
{
}

/// Each file that an incident lies in is reported, and no other one, with the location of its
/// first item, what is known of it and what the plan changes in it.
pub proof fn every_file_is_reported(
    files: Seq<FileView>,
    entries: Seq<EntryView>,
    plan: FixPlanView,
    input: ReportInput,
    e: int,
)
    requires
        reports_files(files, entries, plan, input),
        0 <= e < entries.len(),
    ensures
        exists|i: int|
            0 <= i < files.len() && {
                let f = #[trigger] files[i];
                let info = input.info(f.file_path);
                &&& f.file_path == entries[e].path
                &&& f.file_uri == items_at(entries, f.file_path)[0].incident.file_uri
                &&& f.exists == info.exists && f.size_bytes == info.size_bytes
                &&& f.line_count == info.line_count && f.source_before == info.source_before
                &&& f.sha256_before == info.sha256_before
                &&& f.deterministic_diff == diff_at(
                    plan,
                    f.file_path,
                    readable(input.sources, f.file_path),
                )
                &&& f.items == by_line(items_at(entries, f.file_path))
            },
        forall|i: int| 0 <= i < files.len() ==> has_path(entries, (#[trigger] files[i]).file_path),
{
    let path = entries[e].path;
    assert(has_path(entries, path));
    let paths = file_paths(files);
    assert(paths.contains(path));
    let i = choose|i: int| 0 <= i < paths.len() && paths[i] == path;
    assert(files[i].file_path == path);
    assert(files[i] == file_report(entries, plan, files[i].file_path, input));
    assert forall|k: int| 0 <= k < files.len() implies has_path(
        entries,
        (#[trigger] files[k]).file_path,
    ) by {
        assert(paths[k] == files[k].file_path);
        assert(paths.contains(files[k].file_path));
    }
}

/// The summary of a report holds the number of rulesets, violations and incidents, of the
/// files and errors of the report, and of what the plan does.
pub proof fn summaries_hold_the_counts(
    output: Seq<RuleSet>,
    plan: FixPlan,
    errors: nat,
    files: nat,
)
    requires
        output.len() <= usize::MAX && errors <= usize::MAX && files <= usize::MAX,
        plan.files.keys().len() <= usize::MAX,
        plan.pending_llm@.len() <= usize::MAX && plan.manual@.len() <= usize::MAX,
        violation_total(output) <= usize::MAX && incident_total(output) <= usize::MAX,
    ensures
        ({
            let s = summary_of(output, plan, errors, files);
            let n = plan.files.keys().len() as int;
            &&& s.ruleset_count == output.len()
            &&& s.violation_count == violation_total(output)
            &&& s.incident_count == incident_total(output)
            &&& s.provider_error_count == errors && s.report_file_count == files
            &&& s.files_with_deterministic_edits == n
            &&& plan_pattern_fixes(plan, n) <= usize::MAX ==> s.deterministic_fix_count
                == plan_pattern_fixes(plan, n)
            &&& plan_pattern_edits(plan, n) <= usize::MAX ==> s.deterministic_edit_count
                == plan_pattern_edits(plan, n)
            &&& s.llm_item_count == plan.pending_llm@.len()
            &&& s.manual_item_count == plan.manual@.len()
        }),
{
}

/// The strategy decides what is done about an incident: what is manual is left to a person,
/// what needs a language model is asked of one, and all else is done by edits, where there are
/// any.
pub proof fn strategies_decide_what_is_done(
    strategy: FixStrategyView,
    rule_id: Seq<char>,
    incident: IncidentView,
    path: Seq<char>,
    labels: Seq<Seq<char>>,
    source: Option<Seq<char>>,
)
    ensures
        ({
            let action = action_of(strategy, rule_id, incident, path, labels, source);
            &&& strategy is Manual <==> (action matches Some(a) && a is Manual)
            &&& strategy is Llm <==> (action matches Some(a) && a is Llm)
            &&& (action matches Some(ActionView::Manual(m)) ==> m.rule_id == rule_id && m.file_uri
                == incident.file_uri && m.message == incident.message && m.code_snip
                == incident.code_snip)
            &&& (action matches Some(ActionView::Llm(q)) ==> q.rule_id == rule_id && q.file_path
                == path && q.message == incident.message && q.labels == labels)
            &&& !(strategy is Manual) && !(strategy is Llm) ==> (action is Some <==> fix_of(
                strategy,
                rule_id,
                incident,
                source,
            ) is Some)
            &&& (action matches Some(ActionView::Pattern(f)) ==> fix_of(
                strategy,
                rule_id,
                incident,
                source,
            ) == Some(f))
        }),
{
}

/// The sum of some numbers.
pub open spec fn sum_of(v: Seq<nat>) -> nat {
    v.fold_left(0nat, |total: nat, x: nat| total + x)
}

/// The incidents of a ruleset are those of its violations, and those of an output are those of
/// its rulesets.
pub proof fn incidents_are_counted(ruleset: RuleSet, n: int)
    requires
        0 <= n <= ruleset.violations.values().len(),
    ensures
        incidents_in(ruleset, n) == sum_of(
            ruleset.violations.values().take(n).map_values(|v: Violation| v.incidents@.len()),
        ),
        n == ruleset.violations.keys().len() ==> incident_total(seq![ruleset]) == sum_of(
            ruleset.violations.values().take(n).map_values(|v: Violation| v.incidents@.len()),
        ),
    decreases n,
{
    let size = |v: Violation| v.incidents@.len();
    let all = ruleset.violations.values();
    let now = all.take(n).map_values(size);
    if n > 0 {
        incidents_are_counted(ruleset, n - 1);
        assert(now.drop_last() =~= all.take(n - 1).map_values(size));
        assert(now.last() == all[n - 1].incidents@.len());
    }
    assert(seq![ruleset].drop_last() =~= Seq::empty());
    assert(incident_total(seq![ruleset].drop_last()) == 0);
    assert(seq![ruleset].last() == ruleset);
}

} // verus!
