//! Planned fixes: text edits grouped by file, requests to a language model, and
//! items for manual review.

use crate::text::{copy_list, copy_opt, lemma_in_pushed, opt_text, same_text, texts};
use crate::text_map::{PathMap, TextMap};
use vstd::prelude::*;

verus! {

/// How certain a fix is.
#[derive(Debug, Clone, Copy, PartialEq, Eq, Structural)]
pub enum FixConfidence {
    Exact,
    High,
    Medium,
    Low,
}

/// How a fix was made.
#[derive(Debug, Clone, Copy, PartialEq, Eq, Structural)]
pub enum FixSource {
    Pattern,
    Llm,
    Manual,
}

/// A single text replacement within a file.
#[derive(Debug)]
pub struct TextEdit {
    /// Line where the edit applies, counted from one.
    pub line: u32,
    /// The text to find on this line.
    pub old_text: String,
    /// The replacement.
    pub new_text: String,
    /// Rule that asked for the edit.
    pub rule_id: String,
    pub description: String,
    /// Whether all occurrences on the line are replaced, not only the first.
    pub replace_all: bool,
}

/// A planned fix for a single incident.
#[derive(Debug)]
pub struct PlannedFix {
    pub edits: Vec<TextEdit>,
    pub confidence: FixConfidence,
    pub source: FixSource,
    pub rule_id: String,
    pub file_uri: String,
    pub line: u32,
    pub description: String,
}

/// All planned fixes.
#[derive(Debug)]
pub struct FixPlan {
    /// Fixes by file path.
    pub files: PathMap<Vec<PlannedFix>>,
    /// Incidents that need manual attention.
    pub manual: Vec<ManualFixItem>,
    /// Incidents that a language model is asked about.
    pub pending_llm: Vec<LlmFixRequest>,
}

/// An incident that requires manual fixing.
#[derive(Debug)]
pub struct ManualFixItem {
    pub rule_id: String,
    pub file_uri: String,
    pub line: u32,
    pub message: String,
    pub code_snip: Option<String>,
}

/// A request to a language model for a fix.
#[derive(Debug)]
pub struct LlmFixRequest {
    pub rule_id: String,
    pub file_uri: String,
    pub file_path: String,
    pub line: u32,
    pub message: String,
    pub code_snip: Option<String>,
    /// The content of the file, for context.
    pub source: Option<String>,
    /// Labels of the violation.
    pub labels: Vec<String>,
}

/// Result of applying a fix plan.
#[derive(Debug)]
pub struct FixResult {
    /// Number of files modified.
    pub files_modified: usize,
    /// Number of edits applied.
    pub edits_applied: usize,
    /// Number of edits skipped.
    pub edits_skipped: usize,
    /// Errors encountered.
    pub errors: Vec<String>,
}

/// An old name and the new one.
#[derive(Debug)]
pub struct RenameMapping {
    pub old: String,
    pub new: String,
}

/// How incidents of a rule turn into edits.
#[derive(Debug)]
pub enum FixStrategy {
    /// Replace the matched text.
    Rename(Vec<RenameMapping>),
    /// Remove the matched prop.
    RemoveProp,
    /// Replace the path of an import.
    ImportPathChange { old_path: String, new_path: String },
    /// Replace a prefix of CSS variables or classes.
    CssVariablePrefix { old_prefix: String, new_prefix: String },
    /// Update a dependency in a package manifest.
    UpdateDependency { package: String, new_version: String },
    /// Leave it to manual review.
    Manual,
    /// Ask a language model.
    Llm,
}

/// One mapping of a strategy entry.
#[derive(Debug)]
pub struct StrategyMappingEntry {
    pub from: Option<String>,
    pub to: Option<String>,
    pub component: Option<String>,
    pub prop: Option<String>,
}

/// A strategy as written in a strategy file.
#[derive(Debug)]
pub struct FixStrategyEntry {
    pub strategy: String,
    pub from: Option<String>,
    pub to: Option<String>,
    pub component: Option<String>,
    pub prop: Option<String>,
    pub package: Option<String>,
    pub new_version: Option<String>,
    pub mappings: Vec<StrategyMappingEntry>,
}

// ── Contents ────────────────────────────────────────────────────────────

pub ghost struct TextEditView {
    pub line: u32,
    pub old_text: Seq<char>,
    pub new_text: Seq<char>,
    pub rule_id: Seq<char>,
    pub description: Seq<char>,
    pub replace_all: bool,
}

pub ghost struct PlannedFixView {
    pub edits: Seq<TextEditView>,
    pub confidence: FixConfidence,
    pub source: FixSource,
    pub rule_id: Seq<char>,
    pub file_uri: Seq<char>,
    pub line: u32,
    pub description: Seq<char>,
}

pub ghost struct ManualFixItemView {
    pub rule_id: Seq<char>,
    pub file_uri: Seq<char>,
    pub line: u32,
    pub message: Seq<char>,
    pub code_snip: Option<Seq<char>>,
}

pub ghost struct LlmFixRequestView {
    pub rule_id: Seq<char>,
    pub file_uri: Seq<char>,
    pub file_path: Seq<char>,
    pub line: u32,
    pub message: Seq<char>,
    pub code_snip: Option<Seq<char>>,
    pub source: Option<Seq<char>>,
    pub labels: Seq<Seq<char>>,
}

#[verifier::ext_equal]
pub ghost struct FixPlanView {
    pub files: Map<Seq<char>, Seq<PlannedFixView>>,
    pub manual: Seq<ManualFixItemView>,
    pub pending_llm: Seq<LlmFixRequestView>,
}

/// An old name and the new one.
pub ghost struct Renaming {
    pub old: Seq<char>,
    pub new: Seq<char>,
}

pub ghost enum FixStrategyView {
    Rename(Seq<Renaming>),
    RemoveProp,
    ImportPathChange(Seq<char>, Seq<char>),
    CssVariablePrefix(Seq<char>, Seq<char>),
    UpdateDependency(Seq<char>, Seq<char>),
    Manual,
    Llm,
}

impl TextEdit {
    pub open spec fn view(&self) -> TextEditView {
        TextEditView {
            line: self.line,
            old_text: self.old_text@,
            new_text: self.new_text@,
            rule_id: self.rule_id@,
            description: self.description@,
            replace_all: self.replace_all,
        }
    }
}

pub open spec fn edit_views(v: Seq<TextEdit>) -> Seq<TextEditView> {
    Seq::new(v.len(), |i: int| v[i]@)
}

impl PlannedFix {
    pub open spec fn view(&self) -> PlannedFixView {
        PlannedFixView {
            edits: edit_views(self.edits@),
            confidence: self.confidence,
            source: self.source,
            rule_id: self.rule_id@,
            file_uri: self.file_uri@,
            line: self.line,
            description: self.description@,
        }
    }
}

pub open spec fn fix_views(v: Seq<PlannedFix>) -> Seq<PlannedFixView> {
    Seq::new(v.len(), |i: int| v[i]@)
}

pub open spec fn opt_fix(o: Option<PlannedFix>) -> Option<PlannedFixView> {
    match o {
        Some(f) => Some(f@),
        None => None,
    }
}

impl ManualFixItem {
    pub open spec fn view(&self) -> ManualFixItemView {
        ManualFixItemView {
            rule_id: self.rule_id@,
            file_uri: self.file_uri@,
            line: self.line,
            message: self.message@,
            code_snip: opt_text(self.code_snip),
        }
    }
}

pub open spec fn manual_views(v: Seq<ManualFixItem>) -> Seq<ManualFixItemView> {
    Seq::new(v.len(), |i: int| v[i]@)
}

impl LlmFixRequest {
    pub open spec fn view(&self) -> LlmFixRequestView {
        LlmFixRequestView {
            rule_id: self.rule_id@,
            file_uri: self.file_uri@,
            file_path: self.file_path@,
            line: self.line,
            message: self.message@,
            code_snip: opt_text(self.code_snip),
            source: opt_text(self.source),
            labels: texts(self.labels@),
        }
    }
}

pub open spec fn request_views(v: Seq<LlmFixRequest>) -> Seq<LlmFixRequestView> {
    Seq::new(v.len(), |i: int| v[i]@)
}

/// The fixes of a plan by file.
pub open spec fn file_fixes_view(m: PathMap<Vec<PlannedFix>>) -> Map<Seq<char>, Seq<PlannedFixView>> {
    m@.map_values(|v: Vec<PlannedFix>| fix_views(v@))
}

impl FixPlan {
    pub open spec fn view(&self) -> FixPlanView {
        FixPlanView {
            files: file_fixes_view(self.files),
            manual: manual_views(self.manual@),
            pending_llm: request_views(self.pending_llm@),
        }
    }
}

impl RenameMapping {
    pub open spec fn view(&self) -> Renaming {
        Renaming { old: self.old@, new: self.new@ }
    }
}

pub open spec fn renamings(v: Seq<RenameMapping>) -> Seq<Renaming> {
    Seq::new(v.len(), |i: int| v[i]@)
}

impl FixStrategy {
    pub open spec fn view(&self) -> FixStrategyView {
        match self {
            FixStrategy::Rename(v) => FixStrategyView::Rename(renamings(v@)),
            FixStrategy::RemoveProp => FixStrategyView::RemoveProp,
            FixStrategy::ImportPathChange { old_path, new_path } => FixStrategyView::ImportPathChange(
                old_path@,
                new_path@,
            ),
            FixStrategy::CssVariablePrefix { old_prefix, new_prefix } => FixStrategyView::CssVariablePrefix(
                old_prefix@,
                new_prefix@,
            ),
            FixStrategy::UpdateDependency { package, new_version } => FixStrategyView::UpdateDependency(
                package@,
                new_version@,
            ),
            FixStrategy::Manual => FixStrategyView::Manual,
            FixStrategy::Llm => FixStrategyView::Llm,
        }
    }
}

/// Strategies by rule.
pub type Strategies = TextMap<FixStrategy>;

pub open spec fn strategies_view(m: Strategies) -> Map<Seq<char>, FixStrategyView> {
    m@.map_values(|s: FixStrategy| s@)
}

/// The plan with nothing in it.
pub open spec fn empty_plan() -> FixPlanView {
    FixPlanView { files: Map::empty(), manual: Seq::empty(), pending_llm: Seq::empty() }
}

impl Default for FixPlan {
    fn default() -> (r: FixPlan)
        ensures
            r@ == empty_plan(),
            r.files.keys() == Seq::<Seq<char>>::empty(),
    {
        let r = FixPlan { files: PathMap::new(), manual: Vec::new(), pending_llm: Vec::new() };
        assert(r@.files =~= Map::<Seq<char>, Seq<PlannedFixView>>::empty());
        assert(r@.manual =~= Seq::<ManualFixItemView>::empty());
        assert(r@.pending_llm =~= Seq::<LlmFixRequestView>::empty());
        r
    }
}

impl Default for FixResult {
    fn default() -> (r: FixResult)
        ensures
            r.files_modified == 0,
            r.edits_applied == 0,
            r.edits_skipped == 0,
            r.errors@.len() == 0,
    {
        FixResult { files_modified: 0, edits_applied: 0, edits_skipped: 0, errors: Vec::new() }
    }
}

impl FixStrategyEntry {
    /// An entry with nothing but the name of a strategy.
    pub fn new(strategy: &str) -> (r: FixStrategyEntry)
        ensures
            r.strategy@ == strategy@,
            r.from is None,
            r.to is None,
            r.component is None,
            r.prop is None,
            r.package is None,
            r.new_version is None,
            r.mappings@.len() == 0,
    {
        FixStrategyEntry {
            strategy: strategy.to_owned(),
            from: None,
            to: None,
            component: None,
            prop: None,
            package: None,
            new_version: None,
            mappings: Vec::new(),
        }
    }
}

// ── Strategies ──────────────────────────────────────────────────────────

/// A renaming, where both names are given.
pub open spec fn renaming_of(from: Option<String>, to: Option<String>) -> Option<Renaming> {
    match (from, to) {
        (Some(f), Some(t)) => Some(Renaming { old: f@, new: t@ }),
        _ => None,
    }
}

/// The renamings of the mappings that have both names.
pub open spec fn mapping_renamings(v: Seq<StrategyMappingEntry>) -> Seq<Renaming>
    decreases v.len(),
{
    if v.len() == 0 {
        Seq::empty()
    } else {
        let before = mapping_renamings(v.drop_last());
        match renaming_of(v.last().from, v.last().to) {
            Some(r) => before.push(r),
            None => before,
        }
    }
}

/// The renamings of an entry: those of its mappings, or else its own.
pub open spec fn entry_renamings(e: FixStrategyEntry) -> Seq<Renaming> {
    let mapped = mapping_renamings(e.mappings@);
    if mapped.len() > 0 {
        mapped
    } else {
        match renaming_of(e.from, e.to) {
            Some(r) => seq![r],
            None => Seq::empty(),
        }
    }
}

/// Whether a strategy needs changes to the structure of the code.
pub open spec fn is_structural_strategy(name: Seq<char>) -> bool {
    ||| name == "PropValueChange"@
    ||| name == "PropTypeChange"@
    ||| name == "LlmAssisted"@
    ||| name == "ChildToProp"@
    ||| name == "PropToChild"@
    ||| name == "PropToChildren"@
    ||| name == "CompositionChange"@
    ||| name == "DeprecatedMigration"@
}

/// The strategy that an entry describes. Where a field that it needs is missing,
/// or the name is unknown, it is left to manual review.
pub open spec fn strategy_of(e: FixStrategyEntry) -> FixStrategyView {
    let name = e.strategy@;
    if name == "Rename"@ {
        if entry_renamings(e).len() > 0 {
            FixStrategyView::Rename(entry_renamings(e))
        } else {
            FixStrategyView::Manual
        }
    } else if name == "RemoveProp"@ {
        FixStrategyView::RemoveProp
    } else if name == "CssVariablePrefix"@ {
        match renaming_of(e.from, e.to) {
            Some(r) => FixStrategyView::CssVariablePrefix(r.old, r.new),
            None => FixStrategyView::Manual,
        }
    } else if name == "ImportPathChange"@ {
        match renaming_of(e.from, e.to) {
            Some(r) => FixStrategyView::ImportPathChange(r.old, r.new),
            None => FixStrategyView::Manual,
        }
    } else if name == "UpdateDependency"@ {
        match renaming_of(e.package, e.new_version) {
            Some(r) => FixStrategyView::UpdateDependency(r.old, r.new),
            None => FixStrategyView::Manual,
        }
    } else if is_structural_strategy(name) {
        FixStrategyView::Llm
    } else {
        FixStrategyView::Manual
    }
}

fn is_structural(name: &str) -> (r: bool)
    ensures
        r == is_structural_strategy(name@),
{
    same_text(name, "PropValueChange") || same_text(name, "PropTypeChange") || same_text(
        name,
        "LlmAssisted",
    ) || same_text(name, "ChildToProp") || same_text(name, "PropToChild") || same_text(
        name,
        "PropToChildren",
    ) || same_text(name, "CompositionChange") || same_text(name, "DeprecatedMigration")
}

fn push_renaming(v: &mut Vec<RenameMapping>, from: &String, to: &String)
    ensures
        renamings(final(v)@) == renamings(old(v)@).push(Renaming { old: from@, new: to@ }),
{
    let ghost before = v@;
    v.push(RenameMapping { old: from.clone(), new: to.clone() });
    assert(renamings(v@) =~= renamings(before).push(Renaming { old: from@, new: to@ }));
}

fn collect_renamings(e: &FixStrategyEntry) -> (r: Vec<RenameMapping>)
    ensures
        renamings(r@) == entry_renamings(*e),
{
    let mut renames: Vec<RenameMapping> = Vec::new();
    let mut i: usize = 0;
    assert(renamings(renames@) =~= Seq::<Renaming>::empty());
    while i < e.mappings.len()
        invariant
            i <= e.mappings@.len(),
            renamings(renames@) == mapping_renamings(e.mappings@.take(i as int)),
        decreases e.mappings@.len() - i,
    {
        assert(e.mappings@.take(i + 1).drop_last() =~= e.mappings@.take(i as int));
        if let (Some(from), Some(to)) = (&e.mappings[i].from, &e.mappings[i].to) {
            push_renaming(&mut renames, from, to);
        }
        i = i + 1;
    }
    assert(e.mappings@.take(e.mappings@.len() as int) =~= e.mappings@);
    if renames.len() == 0 {
        if let (Some(from), Some(to)) = (&e.from, &e.to) {
            push_renaming(&mut renames, from, to);
        }
        assert(renamings(renames@) =~= entry_renamings(*e));
    }
    renames
}

/// The strategy that an entry of a strategy file describes.
pub fn strategy_entry_to_fix_strategy(entry: &FixStrategyEntry) -> (r: FixStrategy)
    ensures
        r@ == strategy_of(*entry),
{
    let name = entry.strategy.as_str();
    if same_text(name, "Rename") {
        let renames = collect_renamings(entry);
        if renames.len() == 0 {
            FixStrategy::Manual
        } else {
            FixStrategy::Rename(renames)
        }
    } else if same_text(name, "RemoveProp") {
        FixStrategy::RemoveProp
    } else if same_text(name, "CssVariablePrefix") {
        if let (Some(from), Some(to)) = (&entry.from, &entry.to) {
            FixStrategy::CssVariablePrefix { old_prefix: from.clone(), new_prefix: to.clone() }
        } else {
            FixStrategy::Manual
        }
    } else if same_text(name, "ImportPathChange") {
        if let (Some(from), Some(to)) = (&entry.from, &entry.to) {
            FixStrategy::ImportPathChange { old_path: from.clone(), new_path: to.clone() }
        } else {
            FixStrategy::Manual
        }
    } else if same_text(name, "UpdateDependency") {
        if let (Some(package), Some(new_version)) = (&entry.package, &entry.new_version) {
            FixStrategy::UpdateDependency {
                package: package.clone(),
                new_version: new_version.clone(),
            }
        } else {
            FixStrategy::Manual
        }
    } else if is_structural(name) {
        FixStrategy::Llm
    } else {
        FixStrategy::Manual
    }
}

/// The mappings of an entry come before its own names: where one of them has both
/// names, the entry's own names play no part.
pub proof fn mappings_take_precedence(a: FixStrategyEntry, b: FixStrategyEntry)
    requires
        a.mappings@ == b.mappings@,
        mapping_renamings(a.mappings@).len() > 0,
    ensures
        entry_renamings(a) == entry_renamings(b),
{
}

/// The strategies that the first `n` entries of a strategy file describe.
pub open spec fn strategies_of(
    keys: Seq<Seq<char>>,
    entries: Seq<FixStrategyEntry>,
    n: int,
) -> Map<Seq<char>, FixStrategyView>
    decreases n,
{
    if n <= 0 {
        Map::empty()
    } else {
        strategies_of(keys, entries, n - 1).insert(keys[n - 1], strategy_of(entries[n - 1]))
    }
}

/// The strategies that the entries of a strategy file describe, by rule.
pub fn strategies_from_entries(entries: &TextMap<FixStrategyEntry>) -> (r: Strategies)
    ensures
        strategies_view(r) == strategies_of(
            entries.keys(),
            entries.values(),
            entries.keys().len() as int,
        ),
{
    let n: usize = entries.len();
    let mut out: Strategies = TextMap::new();
    let mut i: usize = 0;
    assert(strategies_view(out) =~= Map::<Seq<char>, FixStrategyView>::empty());
    while i < n
        invariant
            i <= n,
            n == entries.keys().len(),
            strategies_view(out) == strategies_of(entries.keys(), entries.values(), i as int),
        decreases n - i,
    {
        let ghost before = out;
        let s = strategy_entry_to_fix_strategy(entries.value_at(i));
        out.insert(entries.key_at(i).clone(), s);
        assert(strategies_view(out) =~= strategies_view(before).insert(
            entries.keys()[i as int],
            strategy_of(entries.values()[i as int]),
        ));
        i = i + 1;
    }
    out
}

// ── Copies ──────────────────────────────────────────────────────────────

pub fn copy_edit(e: &TextEdit) -> (r: TextEdit)
    ensures
        r@ == e@,
{
    TextEdit {
        line: e.line,
        old_text: e.old_text.clone(),
        new_text: e.new_text.clone(),
        rule_id: e.rule_id.clone(),
        description: e.description.clone(),
        replace_all: e.replace_all,
    }
}

pub fn copy_request(q: &LlmFixRequest) -> (r: LlmFixRequest)
    ensures
        r@ == q@,
{
    LlmFixRequest {
        rule_id: q.rule_id.clone(),
        file_uri: q.file_uri.clone(),
        file_path: q.file_path.clone(),
        line: q.line,
        message: q.message.clone(),
        code_snip: copy_opt(&q.code_snip),
        source: copy_opt(&q.source),
        labels: copy_list(&q.labels),
    }
}

/// The mappings that give a renaming are those with both names, and none else.
pub proof fn mappings_with_both_names_rename(v: Seq<StrategyMappingEntry>, r: Renaming)
    ensures
        mapping_renamings(v).contains(r) <==> exists|i: int|
            0 <= i < v.len() && opt_text((#[trigger] v[i]).from) == Some(r.old) && opt_text(v[i].to)
                == Some(r.new),
    decreases v.len(),
{
    if v.len() > 0 {
        let rest = v.drop_last();
        mappings_with_both_names_rename(rest, r);
        let last = v.last();
        if let Some(own) = renaming_of(last.from, last.to) {
            lemma_in_pushed(mapping_renamings(rest), own, r);
            assert(own == r <==> opt_text(last.from) == Some(r.old) && opt_text(last.to) == Some(
                r.new,
            ));
        }
        assert forall|i: int| 0 <= i < rest.len() implies rest[i] == #[trigger] v[i] by {}
        assert(v[v.len() - 1] == last);
        if mapping_renamings(rest).contains(r) {
            let i = choose|i: int|
                0 <= i < rest.len() && opt_text((#[trigger] rest[i]).from) == Some(r.old)
                    && opt_text(rest[i].to) == Some(r.new);
            assert(v[i] == rest[i]);
        }
    }
}

/// A strategy replaces the old by the new: what is to be renamed, the path, the prefix, or
/// the version of a package. Each renaming of an entry is carried out, its own where no
/// mapping has both names.
pub proof fn strategies_replace_the_old_by_the_new(
    e: FixStrategyEntry,
    old: Seq<char>,
    new: Seq<char>,
)
    ensures
        opt_text(e.from) == Some(old) && opt_text(e.to) == Some(new) ==> {
            &&& e.strategy@ == "ImportPathChange"@ ==> strategy_of(e)
                == FixStrategyView::ImportPathChange(old, new)
            &&& e.strategy@ == "CssVariablePrefix"@ ==> strategy_of(e)
                == FixStrategyView::CssVariablePrefix(old, new)
            &&& e.strategy@ == "Rename"@ && (forall|i: int|
                0 <= i < e.mappings@.len() ==> (#[trigger] e.mappings@[i]).from is None
                    || e.mappings@[i].to is None) ==> strategy_of(e) == FixStrategyView::Rename(
                seq![Renaming { old, new }],
            )
        },
        e.strategy@ == "Rename"@ && (exists|i: int|
            0 <= i < e.mappings@.len() && opt_text((#[trigger] e.mappings@[i]).from) == Some(old)
                && opt_text(e.mappings@[i].to) == Some(new)) ==> (
        strategy_of(e) matches FixStrategyView::Rename(v) && v.contains(Renaming { old, new })),
        e.strategy@ == "UpdateDependency"@ && opt_text(e.package) == Some(old) && opt_text(
            e.new_version,
        ) == Some(new) ==> strategy_of(e) == FixStrategyView::UpdateDependency(old, new),
{
    reveal_strlit("Rename");
    reveal_strlit("RemoveProp");
    reveal_strlit("CssVariablePrefix");
    reveal_strlit("ImportPathChange");
    reveal_strlit("UpdateDependency");
    assert("Rename"@.len() == 6 && "RemoveProp"@.len() == 10 && "CssVariablePrefix"@.len() == 17);
    assert("ImportPathChange"@.len() == 16 && "UpdateDependency"@.len() == 16);
    assert("ImportPathChange"@[0] == 'I' && "UpdateDependency"@[0] == 'U');
    mappings_with_both_names_rename(e.mappings@, Renaming { old, new });
    let mapped = mapping_renamings(e.mappings@);
    if mapped.len() > 0 {
        mappings_with_both_names_rename(e.mappings@, mapped[0]);
        assert(mapped.contains(mapped[0]));
    }
}

/// A strategy that needs names is left to manual review where one of them is missing.
pub proof fn incomplete_strategies_are_reviewed(e: FixStrategyEntry)
    ensures
        (e.from is None || e.to is None) && (e.strategy@ == "ImportPathChange"@ || e.strategy@
            == "CssVariablePrefix"@ || (e.strategy@ == "Rename"@ && e.mappings@.len() == 0))
            ==> strategy_of(e) == FixStrategyView::Manual,
        (e.package is None || e.new_version is None) && e.strategy@ == "UpdateDependency"@
            ==> strategy_of(e) == FixStrategyView::Manual,
{
    reveal_strlit("Rename");
    reveal_strlit("RemoveProp");
    reveal_strlit("CssVariablePrefix");
    reveal_strlit("ImportPathChange");
    reveal_strlit("UpdateDependency");
    assert("Rename"@.len() == 6 && "RemoveProp"@.len() == 10 && "CssVariablePrefix"@.len() == 17);
    assert("ImportPathChange"@.len() == 16 && "UpdateDependency"@.len() == 16);
    assert("ImportPathChange"@[0] == 'I' && "UpdateDependency"@[0] == 'U');
}

/// Each key of a strategy file has the strategy of its last entry.
pub proof fn the_last_entry_of_a_key_counts(
    keys: Seq<Seq<char>>,
    entries: Seq<FixStrategyEntry>,
    n: int,
    i: int,
)
    requires
        0 <= i < n <= keys.len(),
        forall|j: int| i < j < n ==> #[trigger] keys[j] != keys[i],
    ensures
        strategies_of(keys, entries, n).dom().contains(keys[i]),
        strategies_of(keys, entries, n)[keys[i]] == strategy_of(entries[i]),
    decreases n,
{
    if i < n - 1 {
        the_last_entry_of_a_key_counts(keys, entries, n - 1, i);
        assert(keys[n - 1] != keys[i]);
    }
}

} // verus!
