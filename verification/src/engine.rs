//! The fix engine: turns the violations of an analysis into text edits.
//!
//! Renames, removals and version updates are planned here; structural changes
//! become requests to a language model. The engine works on file contents that it
//! is handed; it reads and writes nothing itself.

use crate::fix::{
    edit_views, empty_plan, file_fixes_view, fix_views, opt_fix, renamings, strategies_view,
    FixConfidence, FixPlan, FixPlanView, FixSource, FixStrategy, FixStrategyView, LlmFixRequest,
    LlmFixRequestView, ManualFixItem, ManualFixItemView, PlannedFix, PlannedFixView, RenameMapping,
    Renaming, Strategies, TextEdit, TextEditView,
};
use crate::incident::{Incident, IncidentView};
use crate::js_fix::{
    in_node_modules, line_position, matched_for_rename, opt_source, remove_prop_of, JsFixProvider,
};
use crate::paths::{path_spelt, spell_path};
use crate::pattern::{compile, regex_find, regex_first, regex_rejection};
use crate::ruleset::{RuleSet, Violation};
use crate::sorting::{
    in_order, in_stable_order, key_values, stable_order, stable_order_is_sorted, stable_sort,
};
use crate::text::{
    byte_len_of, cat2, cat3, cat4, cat5, contains, contains_iff_occurs, contains_text, copy_list,
    copy_opt, ends_with, ends_with_text, join, join_texts, lines, lines_text, occurs_at,
    replace_all, same_text, starts_with, starts_with_text, strip_prefix, strip_prefix_text, texts,
    utf8,
};
use crate::text_map::{push_to, PathMap};
use vstd::prelude::*;

verus! {

/// File contents by path: the text, or why it could not be read.
pub type Sources = PathMap<Result<String, String>>;

/// The content of a file: its text, or why it could not be read.
pub type SourceView = Result<Seq<char>, Seq<char>>;

pub open spec fn source_view(r: Result<String, String>) -> SourceView {
    match r {
        Ok(s) => Ok(s@),
        Err(e) => Err(e@),
    }
}

pub open spec fn sources_view(m: Sources) -> Map<Seq<char>, SourceView> {
    m@.map_values(|r: Result<String, String>| source_view(r))
}

/// The text of a file that could be read.
pub open spec fn readable(m: Map<Seq<char>, SourceView>, path: Seq<char>) -> Option<Seq<char>> {
    if m.dom().contains(path) {
        match m[path] {
            Ok(s) => Some(s),
            Err(e) => None,
        }
    } else {
        None
    }
}

pub fn readable_source<'a>(sources: &'a Sources, path: &str) -> (r: Option<&'a String>)
    ensures
        opt_source(r) == readable(sources_view(*sources), path@),
{
    match sources.get(path) {
        Some(Ok(s)) => Some(s),
        _ => None,
    }
}

// ── Paths ───────────────────────────────────────────────────────────────

/// `path` under `base`; an absolute path stays as it is.
pub open spec fn joined_path(base: Seq<char>, path: Seq<char>) -> Seq<char> {
    if starts_with(path, "/"@) || base.len() == 0 {
        path
    } else if ends_with(base, "/"@) {
        base + path
    } else {
        base + "/"@ + path
    }
}

/// The path of a file URI; a relative one lies under the project root. Whatever way the
/// URI writes it, a path has one spelling.
pub open spec fn path_of_uri(uri: Seq<char>, project_root: Seq<char>) -> Seq<char> {
    path_spelt(
        joined_path(
            project_root,
            match strip_prefix(uri, "file://"@) {
                Some(p) => p,
                None => uri,
            },
        ),
    )
}

pub fn join_path(base: &str, path: &str) -> (r: String)
    ensures
        r@ == joined_path(base@, path@),
{
    if starts_with_text(path, "/") || base.unicode_len() == 0 {
        path.to_owned()
    } else if ends_with_text(base, "/") {
        cat2(base, path)
    } else {
        cat3(base, "/", path)
    }
}

/// Converts a `file://` URI to a path.
pub fn uri_to_path(uri: &str, project_root: &str) -> (r: String)
    ensures
        r@ == path_of_uri(uri@, project_root@),
{
    let path = match strip_prefix_text(uri, "file://") {
        Some(p) => join_path(project_root, p.as_str()),
        None => join_path(project_root, uri),
    };
    spell_path(path.as_str())
}

// ── Strategies ──────────────────────────────────────────────────────────

/// The strategy that a label stands for.
pub open spec fn strategy_of_label(label: Seq<char>) -> Option<FixStrategyView> {
    if label == "change-type=prop-removal"@ || label == "konveyor.io/fix=prop-removal"@ {
        Some(FixStrategyView::RemoveProp)
    } else if label == "change-type=dom-structure"@ || label == "change-type=behavioral"@ || label
        == "change-type=accessibility"@ || label == "change-type=interface-removal"@ || label
        == "change-type=module-export"@ || label == "change-type=other"@ {
        Some(FixStrategyView::Manual)
    } else {
        None
    }
}

/// The strategy of the first label, from position `i` on, that stands for one.
pub open spec fn inferred_from(labels: Seq<Seq<char>>, i: int) -> Option<FixStrategyView>
    decreases labels.len() - i,
{
    if i < 0 || i >= labels.len() {
        None
    } else {
        match strategy_of_label(labels[i]) {
            Some(s) => Some(s),
            None => inferred_from(labels, i + 1),
        }
    }
}

/// The strategy of a rule: the one given for it, else the one that its labels
/// stand for, else asking a language model.
pub open spec fn strategy_for(
    strategies: Map<Seq<char>, FixStrategyView>,
    rule_id: Seq<char>,
    labels: Seq<Seq<char>>,
) -> FixStrategyView {
    if strategies.dom().contains(rule_id) {
        strategies[rule_id]
    } else {
        match inferred_from(labels, 0) {
            Some(s) => s,
            None => FixStrategyView::Llm,
        }
    }
}

/// The view of an optional strategy.
pub open spec fn opt_strategy(o: Option<FixStrategy>) -> Option<FixStrategyView> {
    match o {
        Some(s) => Some(s@),
        None => None,
    }
}

fn label_strategy(label: &str) -> (r: Option<FixStrategy>)
    ensures
        opt_strategy(r) == strategy_of_label(label@),
{
    if same_text(label, "change-type=prop-removal") || same_text(label, "konveyor.io/fix=prop-removal") {
        Some(FixStrategy::RemoveProp)
    } else if same_text(label, "change-type=dom-structure") || same_text(
        label,
        "change-type=behavioral",
    ) || same_text(label, "change-type=accessibility") || same_text(
        label,
        "change-type=interface-removal",
    ) || same_text(label, "change-type=module-export") || same_text(label, "change-type=other") {
        Some(FixStrategy::Manual)
    } else {
        None
    }
}

/// Infers a strategy from the labels of a rule: the first label that stands for
/// one decides.
pub fn infer_strategy_from_labels(labels: &Vec<String>) -> (r: Option<FixStrategy>)
    ensures
        opt_strategy(r) == inferred_from(texts(labels@), 0),
{
    let mut i: usize = 0;
    while i < labels.len()
        invariant
            i <= labels@.len(),
            inferred_from(texts(labels@), 0) == inferred_from(texts(labels@), i as int),
        decreases labels@.len() - i,
    {
        let found = label_strategy(labels[i].as_str());
        if found.is_some() {
            return found;
        }
        i = i + 1;
    }
    None
}

// ── Renaming ────────────────────────────────────────────────────────────

pub open spec fn rename_text(m: Renaming) -> Seq<char> {
    "Rename '"@ + m.old + "' to '"@ + m.new + "'"@
}

/// The edit of a renaming on a line.
pub open spec fn rename_edit(line: u32, m: Renaming, rule_id: Seq<char>) -> TextEditView {
    TextEditView {
        line,
        old_text: m.old,
        new_text: m.new,
        rule_id,
        description: rename_text(m),
        replace_all: false,
    }
}

/// The mappings that change something.
pub open spec fn changing(v: Seq<Renaming>) -> Seq<Renaming>
    decreases v.len(),
{
    if v.len() == 0 {
        Seq::empty()
    } else {
        let before = changing(v.drop_last());
        if v.last().old != v.last().new {
            before.push(v.last())
        } else {
            before
        }
    }
}

/// Keys that order mappings by the length of the old name, the longest first.
pub open spec fn length_keys(v: Seq<Renaming>) -> Seq<int> {
    Seq::new(v.len(), |i: int| -(utf8(v[i].old).len() as int))
}

/// The mappings that change something, the longest old name first.
pub open spec fn longest_first(v: Seq<Renaming>) -> Seq<Renaming> {
    in_stable_order(changing(v), length_keys(changing(v)))
}

/// Whether `name` is part of the old name of some mapping.
pub open spec fn is_covered(v: Seq<Renaming>, name: Seq<char>) -> bool {
    exists|k: int| 0 <= k < v.len() && contains((#[trigger] v[k]).old, name)
}

/// The mappings that apply to a line. One whose old name is part of a name that
/// applies already does not.
pub open spec fn applicable(text: Seq<char>, v: Seq<Renaming>) -> Seq<Renaming>
    decreases v.len(),
{
    if v.len() == 0 {
        Seq::empty()
    } else {
        let before = applicable(text, v.drop_last());
        if contains(text, v.last().old) && !is_covered(before, v.last().old) {
            before.push(v.last())
        } else {
            before
        }
    }
}

pub open spec fn rename_edits(line: u32, v: Seq<Renaming>, rule_id: Seq<char>) -> Seq<TextEditView> {
    Seq::new(v.len(), |i: int| rename_edit(line, v[i], rule_id))
}

/// The edits of a renaming on the first `n` lines of a file.
pub open spec fn whole_file_edits(
    all: Seq<Seq<char>>,
    n: int,
    sorted: Seq<Renaming>,
    rule_id: Seq<char>,
) -> Seq<TextEditView>
    decreases n,
{
    if n <= 0 {
        Seq::empty()
    } else {
        whole_file_edits(all, n - 1, sorted, rule_id) + rename_edits(
            n as u32,
            applicable(all[n - 1], sorted),
            rule_id,
        )
    }
}

/// The edits of the first `n` mappings that stand in a line and change something,
/// without the mapping at position `skip`.
pub open spec fn mapping_edits(
    text: Seq<char>,
    line: u32,
    v: Seq<Renaming>,
    n: int,
    skip: int,
    rule_id: Seq<char>,
) -> Seq<TextEditView>
    decreases n,
{
    if n <= 0 {
        Seq::empty()
    } else {
        let before = mapping_edits(text, line, v, n - 1, skip, rule_id);
        let m = v[n - 1];
        if m.old != m.new && n - 1 != skip && contains(text, m.old) {
            before.push(rename_edit(line, m, rule_id))
        } else {
            before
        }
    }
}

/// The edits of mappings on the lines at positions from `lo` up to and without
/// `hi`. The mapping at position `primary` is left out on line `line`.
pub open spec fn window_edits(
    all: Seq<Seq<char>>,
    lo: int,
    hi: int,
    v: Seq<Renaming>,
    primary: int,
    line: u32,
    rule_id: Seq<char>,
) -> Seq<TextEditView>
    decreases hi - lo,
{
    if hi <= lo {
        Seq::empty()
    } else {
        let number = hi as u32;
        window_edits(all, lo, hi - 1, v, primary, line, rule_id) + mapping_edits(
            all[hi - 1],
            number,
            v,
            v.len() as int,
            if number == line {
                primary
            } else {
                -1
            },
            rule_id,
        )
    }
}

/// The position of the first mapping, from `i` on, that renames `name`.
pub open spec fn mapping_from(v: Seq<Renaming>, name: Seq<char>, i: int) -> Option<int>
    decreases v.len() - i,
{
    if i < 0 || i >= v.len() {
        None
    } else if v[i].old == name {
        Some(i)
    } else {
        mapping_from(v, name, i + 1)
    }
}

/// How many lines before and after an incident belong to its expression.
pub const LINES_BEFORE: u32 = 3;

pub const LINES_AFTER: u32 = 4;

pub open spec fn window_start(line: u32) -> int {
    if line_position(line) >= LINES_BEFORE {
        line_position(line) - LINES_BEFORE
    } else {
        0
    }
}

pub open spec fn window_end(line: u32, count: int) -> int {
    if line_position(line) + LINES_AFTER + 1 <= count {
        line_position(line) + LINES_AFTER + 1
    } else {
        count
    }
}

/// The edits of a renaming: through the whole file where `whole_file` holds; else,
/// where a mapping renames the matched name, on that line and the lines around it;
/// else those of the mappings that stand on the line.
pub open spec fn edits_of_rename(
    all: Seq<Seq<char>>,
    line: u32,
    v: Seq<Renaming>,
    matched: Seq<char>,
    whole_file: bool,
    rule_id: Seq<char>,
) -> Seq<TextEditView> {
    if whole_file {
        whole_file_edits(all, all.len() as int, longest_first(v), rule_id)
    } else {
        match mapping_from(v, matched, 0) {
            Some(k) => if v[k].old == v[k].new {
                Seq::empty()
            } else {
                seq![rename_edit(line, v[k], rule_id)] + window_edits(
                    all,
                    window_start(line),
                    window_end(line, all.len() as int),
                    v,
                    k,
                    line,
                    rule_id,
                )
            },
            None => if line_position(line) < all.len() {
                mapping_edits(all[line_position(line)], line, v, v.len() as int, -1, rule_id)
            } else {
                Seq::empty()
            },
        }
    }
}

/// What an edit does, in short.
pub open spec fn change_text(e: TextEditView) -> Seq<char> {
    "'"@ + e.old_text + "' → '"@ + e.new_text + "'"@
}

pub open spec fn change_texts(v: Seq<TextEditView>) -> Seq<Seq<char>> {
    Seq::new(v.len(), |i: int| change_text(v[i]))
}

/// A fix that is certain.
pub open spec fn exact_fix(
    edits: Seq<TextEditView>,
    rule_id: Seq<char>,
    file_uri: Seq<char>,
    line: u32,
    description: Seq<char>,
) -> PlannedFixView {
    PlannedFixView {
        edits,
        confidence: FixConfidence::Exact,
        source: FixSource::Pattern,
        rule_id,
        file_uri,
        line,
        description,
    }
}

/// The fix that renames what an incident matched. There is none without a line
/// number, a readable file or anything to rename.
pub open spec fn rename_of(
    rule_id: Seq<char>,
    incident: IncidentView,
    v: Seq<Renaming>,
    source: Option<Seq<char>>,
) -> Option<PlannedFixView> {
    match (incident.line_number, source) {
        (Some(line), Some(text)) => {
            let edits = edits_of_rename(
                lines(text),
                line,
                v,
                matched_for_rename(incident.variables, v),
                incident.variables.dom().contains("importedName"@),
                rule_id,
            );
            if edits.len() == 0 {
                None
            } else {
                Some(
                    exact_fix(
                        edits,
                        rule_id,
                        incident.file_uri,
                        line,
                        "Rename "@ + join(change_texts(edits), ", "@),
                    ),
                )
            }
        },
        _ => None,
    }
}

fn make_rename_edit(line: u32, m: &RenameMapping, rule_id: &str) -> (r: TextEdit)
    ensures
        r@ == rename_edit(line, m@, rule_id@),
{
    TextEdit {
        line,
        old_text: m.old.clone(),
        new_text: m.new.clone(),
        rule_id: rule_id.to_owned(),
        description: cat5("Rename '", m.old.as_str(), "' to '", m.new.as_str(), "'"),
        replace_all: false,
    }
}

fn push_edit(v: &mut Vec<TextEdit>, e: TextEdit)
    ensures
        edit_views(final(v)@) == edit_views(old(v)@).push(e@),
{
    let ghost before = v@;
    v.push(e);
    assert(edit_views(v@) =~= edit_views(before).push(e@));
}

/// The contents of references to mappings.
pub open spec fn renaming_refs(v: Seq<&RenameMapping>) -> Seq<Renaming> {
    Seq::new(v.len(), |i: int| v[i]@)
}

fn sort_longest_first<'a>(mappings: &'a Vec<RenameMapping>) -> (r: Vec<&'a RenameMapping>)
    ensures
        renaming_refs(r@) == longest_first(renamings(mappings@)),
{
    let ghost v = renamings(mappings@);
    let mut kept: Vec<&'a RenameMapping> = Vec::new();
    let mut keys: Vec<i128> = Vec::new();
    let mut i: usize = 0;
    assert(renaming_refs(kept@) =~= Seq::<Renaming>::empty());
    while i < mappings.len()
        invariant
            i <= mappings@.len(),
            v == renamings(mappings@),
            renaming_refs(kept@) == changing(v.take(i as int)),
            keys@.len() == kept@.len(),
            forall|k: int|
                0 <= k < kept@.len() ==> #[trigger] keys@[k] as int == -(utf8(
                    kept@[k].old@,
                ).len() as int),
        decreases mappings@.len() - i,
    {
        assert(v.take(i + 1).drop_last() =~= v.take(i as int));
        let m = &mappings[i];
        if !same_text(m.old.as_str(), m.new.as_str()) {
            let ghost before = kept@;
            let length: usize = byte_len_of(m.old.as_str());
            kept.push(m);
            keys.push(-(length as i128));
            assert(renaming_refs(kept@) =~= renaming_refs(before).push(m@));
        }
        i = i + 1;
    }
    assert(v.take(v.len() as int) =~= v);
    let ghost items = kept@;
    let sorted = stable_sort(kept, &keys);
    proof {
        assert(key_values(keys@) =~= length_keys(changing(v)));
        crate::sorting::stable_order_is_sorted(length_keys(changing(v)));
        assert(renaming_refs(sorted@) =~= longest_first(v));
    }
    sorted
}

fn covers(v: &Vec<&RenameMapping>, name: &str) -> (r: bool)
    ensures
        r == is_covered(renaming_refs(v@), name@),
{
    let mut i: usize = 0;
    while i < v.len()
        invariant
            i <= v@.len(),
            forall|k: int| 0 <= k < i ==> !contains((#[trigger] renaming_refs(v@)[k]).old, name@),
        decreases v@.len() - i,
    {
        if contains_text(v[i].old.as_str(), name) {
            assert(contains(renaming_refs(v@)[i as int].old, name@));
            return true;
        }
        i = i + 1;
    }
    false
}

fn push_applicable(
    text: &str,
    line: u32,
    sorted: &Vec<&RenameMapping>,
    rule_id: &str,
    edits: &mut Vec<TextEdit>,
)
    ensures
        edit_views(final(edits)@) == edit_views(old(edits)@) + rename_edits(
            line,
            applicable(text@, renaming_refs(sorted@)),
            rule_id@,
        ),
{
    let ghost v = renaming_refs(sorted@);
    let ghost before = edit_views(edits@);
    let mut consumed: Vec<&RenameMapping> = Vec::new();
    let mut i: usize = 0;
    assert(renaming_refs(consumed@) =~= Seq::<Renaming>::empty());
    assert(before + rename_edits(line, Seq::<Renaming>::empty(), rule_id@) =~= before);
    while i < sorted.len()
        invariant
            i <= sorted@.len(),
            v == renaming_refs(sorted@),
            renaming_refs(consumed@) == applicable(text@, v.take(i as int)),
            edit_views(edits@) == before + rename_edits(
                line,
                applicable(text@, v.take(i as int)),
                rule_id@,
            ),
        decreases sorted@.len() - i,
    {
        assert(v.take(i + 1).drop_last() =~= v.take(i as int));
        let m = sorted[i];
        if contains_text(text, m.old.as_str()) && !covers(&consumed, m.old.as_str()) {
            let ghost prior = consumed@;
            push_edit(edits, make_rename_edit(line, m, rule_id));
            consumed.push(m);
            assert(renaming_refs(consumed@) =~= renaming_refs(prior).push(m@));
            assert(edit_views(edits@) =~= before + rename_edits(
                line,
                applicable(text@, v.take(i + 1)),
                rule_id@,
            ));
        }
        i = i + 1;
    }
    assert(v.take(v.len() as int) =~= v);
}

fn push_mapping_edits(
    text: &str,
    line: u32,
    mappings: &Vec<RenameMapping>,
    skip: Option<usize>,
    rule_id: &str,
    edits: &mut Vec<TextEdit>,
)
    ensures
        edit_views(final(edits)@) == edit_views(old(edits)@) + mapping_edits(
            text@,
            line,
            renamings(mappings@),
            mappings@.len() as int,
            match skip {
                Some(k) => k as int,
                None => -1,
            },
            rule_id@,
        ),
{
    let ghost v = renamings(mappings@);
    let ghost before = edit_views(edits@);
    let ghost s: int = match skip {
        Some(k) => k as int,
        None => -1,
    };
    let mut i: usize = 0;
    assert(before + mapping_edits(text@, line, v, 0, s, rule_id@) =~= before);
    while i < mappings.len()
        invariant
            i <= mappings@.len(),
            v == renamings(mappings@),
            s == match skip {
                Some(k) => k as int,
                None => -1int,
            },
            edit_views(edits@) == before + mapping_edits(text@, line, v, i as int, s, rule_id@),
        decreases mappings@.len() - i,
    {
        let m = &mappings[i];
        let skipped = match skip {
            Some(k) => k == i,
            None => false,
        };
        if !same_text(m.old.as_str(), m.new.as_str()) && !skipped && contains_text(
            text,
            m.old.as_str(),
        ) {
            push_edit(edits, make_rename_edit(line, m, rule_id));
        }
        assert(edit_views(edits@) =~= before + mapping_edits(text@, line, v, i + 1, s, rule_id@));
        i = i + 1;
    }
}

fn find_mapping(mappings: &Vec<RenameMapping>, name: &str) -> (r: Option<usize>)
    ensures
        match r {
            Some(k) => mapping_from(renamings(mappings@), name@, 0) == Some(k as int) && k
                < mappings@.len(),
            None => mapping_from(renamings(mappings@), name@, 0) is None,
        },
{
    let mut i: usize = 0;
    while i < mappings.len()
        invariant
            i <= mappings@.len(),
            mapping_from(renamings(mappings@), name@, 0) == mapping_from(
                renamings(mappings@),
                name@,
                i as int,
            ),
        decreases mappings@.len() - i,
    {
        if same_text(mappings[i].old.as_str(), name) {
            return Some(i);
        }
        i = i + 1;
    }
    None
}

fn push_window_edits(
    all: &Vec<String>,
    line: u32,
    mappings: &Vec<RenameMapping>,
    primary: usize,
    rule_id: &str,
    edits: &mut Vec<TextEdit>,
)
    ensures
        edit_views(final(edits)@) == edit_views(old(edits)@) + window_edits(
            texts(all@),
            window_start(line),
            window_end(line, all@.len() as int),
            renamings(mappings@),
            primary as int,
            line,
            rule_id@,
        ),
{
    let ghost v = renamings(mappings@);
    let ghost t = texts(all@);
    let ghost before = edit_views(edits@);
    let at: u64 = line.saturating_sub(1) as u64;
    let lo: u64 = at.saturating_sub(LINES_BEFORE as u64);
    let count: u64 = all.len() as u64;
    let hi: u64 = if at + LINES_AFTER as u64 + 1 <= count {
        at + LINES_AFTER as u64 + 1
    } else {
        count
    };
    assert(lo == window_start(line));
    assert(hi == window_end(line, all@.len() as int));
    let mut i: u64 = lo;
    assert(before + window_edits(t, lo as int, lo as int, v, primary as int, line, rule_id@)
        =~= before);
    while i < hi
        invariant
            lo <= i,
            i <= hi || i == lo,
            hi <= all@.len() <= usize::MAX,
            v == renamings(mappings@),
            t == texts(all@),
            edit_views(edits@) == before + window_edits(
                t,
                lo as int,
                i as int,
                v,
                primary as int,
                line,
                rule_id@,
            ),
        decreases hi - i,
    {
        let number: u32 = (i + 1) as u32;
        let skip: Option<usize> = if number == line {
            Some(primary)
        } else {
            None
        };
        push_mapping_edits(all[i as usize].as_str(), number, mappings, skip, rule_id, edits);
        assert(edit_views(edits@) =~= before + window_edits(
            t,
            lo as int,
            i + 1,
            v,
            primary as int,
            line,
            rule_id@,
        ));
        i = i + 1;
    }
    if hi <= lo {
        assert(window_edits(t, lo as int, hi as int, v, primary as int, line, rule_id@) =~= Seq::<
            TextEditView,
        >::empty());
    }
}

fn push_whole_file_edits(
    all: &Vec<String>,
    mappings: &Vec<RenameMapping>,
    rule_id: &str,
) -> (r: Vec<TextEdit>)
    ensures
        edit_views(r@) == whole_file_edits(
            texts(all@),
            all@.len() as int,
            longest_first(renamings(mappings@)),
            rule_id@,
        ),
{
    let sorted = sort_longest_first(mappings);
    let ghost s = longest_first(renamings(mappings@));
    let mut edits: Vec<TextEdit> = Vec::new();
    let mut i: usize = 0;
    assert(edit_views(edits@) =~= Seq::<TextEditView>::empty());
    while i < all.len()
        invariant
            i <= all@.len(),
            s == renaming_refs(sorted@),
            edit_views(edits@) == whole_file_edits(texts(all@), i as int, s, rule_id@),
        decreases all@.len() - i,
    {
        push_applicable(all[i].as_str(), (i + 1) as u32, &sorted, rule_id, &mut edits);
        i = i + 1;
    }
    edits
}

fn collect_rename_edits(
    all: &Vec<String>,
    line: u32,
    mappings: &Vec<RenameMapping>,
    matched: &str,
    whole_file: bool,
    rule_id: &str,
) -> (r: Vec<TextEdit>)
    ensures
        edit_views(r@) == edits_of_rename(
            texts(all@),
            line,
            renamings(mappings@),
            matched@,
            whole_file,
            rule_id@,
        ),
{
    if whole_file {
        return push_whole_file_edits(all, mappings, rule_id);
    }
    let mut edits: Vec<TextEdit> = Vec::new();
    assert(edit_views(edits@) =~= Seq::<TextEditView>::empty());
    match find_mapping(mappings, matched) {
        Some(k) => {
            let m = &mappings[k];
            if !same_text(m.old.as_str(), m.new.as_str()) {
                push_edit(&mut edits, make_rename_edit(line, m, rule_id));
                assert(edit_views(edits@) =~= seq![rename_edit(line, m@, rule_id@)]);
                push_window_edits(all, line, mappings, k, rule_id, &mut edits);
            }
        },
        None => {
            let at: u32 = line.saturating_sub(1);
            if (at as usize) < all.len() {
                push_mapping_edits(
                    all[at as usize].as_str(),
                    line,
                    mappings,
                    None,
                    rule_id,
                    &mut edits,
                );
                assert(edit_views(edits@) =~= mapping_edits(
                    texts(all@)[at as int],
                    line,
                    renamings(mappings@),
                    mappings@.len() as int,
                    -1,
                    rule_id@,
                ));
            }
        },
    }
    edits
}

fn describe_changes(edits: &Vec<TextEdit>) -> (r: String)
    ensures
        r@ == join(change_texts(edit_views(edits@)), ", "@),
{
    let mut parts: Vec<String> = Vec::new();
    let mut i: usize = 0;
    while i < edits.len()
        invariant
            i <= edits@.len(),
            parts@.len() == i,
            forall|k: int| 0 <= k < i ==> (#[trigger] parts@[k])@ == change_text(edits@[k]@),
        decreases edits@.len() - i,
    {
        let e = &edits[i];
        parts.push(cat5("'", e.old_text.as_str(), "' → '", e.new_text.as_str(), "'"));
        i = i + 1;
    }
    assert(texts(parts@) =~= change_texts(edit_views(edits@)));
    join_texts(&parts, ", ")
}

fn make_exact_fix(
    edits: Vec<TextEdit>,
    rule_id: &str,
    file_uri: &str,
    line: u32,
    description: String,
) -> (r: PlannedFix)
    ensures
        r@ == exact_fix(edit_views(edits@), rule_id@, file_uri@, line, description@),
{
    PlannedFix {
        edits,
        confidence: FixConfidence::Exact,
        source: FixSource::Pattern,
        rule_id: rule_id.to_owned(),
        file_uri: file_uri.to_owned(),
        line,
        description,
    }
}

/// Plans the renaming of what an incident matched.
pub fn plan_rename(
    rule_id: &str,
    incident: &Incident,
    mappings: &Vec<RenameMapping>,
    source: Option<&String>,
    lang: &JsFixProvider,
) -> (r: Option<PlannedFix>)
    ensures
        opt_fix(r) == rename_of(rule_id@, incident@, renamings(mappings@), opt_source(source)),
{
    if let (Some(line), Some(text)) = (incident.line_number, source) {
        let matched = lang.get_matched_text_for_rename(incident, mappings);
        let whole_file = lang.is_whole_file_rename(incident);
        let all = lines_text(text.as_str());
        let edits = collect_rename_edits(
            &all,
            line,
            mappings,
            matched.as_str(),
            whole_file,
            rule_id,
        );
        if edits.len() == 0 {
            return None;
        }
        let changes = describe_changes(&edits);
        let description = cat2("Rename ", changes.as_str());
        Some(make_exact_fix(edits, rule_id, incident.file_uri.as_str(), line, description))
    } else {
        None
    }
}

// ── Import paths and dependencies ───────────────────────────────────────

/// The fix that changes the path of an import. There is none without a line number.
pub open spec fn import_path_change_of(
    rule_id: Seq<char>,
    incident: IncidentView,
    old_path: Seq<char>,
    new_path: Seq<char>,
) -> Option<PlannedFixView> {
    match incident.line_number {
        Some(line) => Some(
            exact_fix(
                seq![
                    TextEditView {
                        line,
                        old_text: old_path,
                        new_text: new_path,
                        rule_id,
                        description: "Change import path '"@ + old_path + "' → '"@ + new_path
                            + "'"@,
                        replace_all: false,
                    },
                ],
                rule_id,
                incident.file_uri,
                line,
                "Change import path to '"@ + new_path + "'"@,
            ),
        ),
        None => None,
    }
}

/// Plans the change of an import path.
pub fn plan_import_path_change(
    rule_id: &str,
    incident: &Incident,
    old_path: &str,
    new_path: &str,
) -> (r: Option<PlannedFix>)
    ensures
        opt_fix(r) == import_path_change_of(rule_id@, incident@, old_path@, new_path@),
{
    match incident.line_number {
        Some(line) => {
            let edit = TextEdit {
                line,
                old_text: old_path.to_owned(),
                new_text: new_path.to_owned(),
                rule_id: rule_id.to_owned(),
                description: cat5("Change import path '", old_path, "' → '", new_path, "'"),
                replace_all: false,
            };
            let mut edits: Vec<TextEdit> = Vec::new();
            edits.push(edit);
            assert(edit_views(edits@) =~= seq![edit@]);
            let description = cat3("Change import path to '", new_path, "'");
            Some(make_exact_fix(edits, rule_id, incident.file_uri.as_str(), line, description))
        },
        None => None,
    }
}

/// The expression that finds a quoted version.
pub open spec fn version_expression() -> Seq<char> {
    "(\"[\\^~><=]*\\d+\\.\\d+\\.\\d+[^\"]*\")"@
}

/// Whether a line names a package and holds a version.
pub open spec fn is_version_line(text: Seq<char>, quoted: Seq<char>) -> bool {
    contains(text, quoted) && regex_first(version_expression(), text) is Some
}

/// The first quoted version in a line.
pub open spec fn version_in(text: Seq<char>) -> Seq<char> {
    match regex_first(version_expression(), text) {
        Some((start, end, found)) => found,
        None => Seq::empty(),
    }
}

/// The position of the first line, from `i` on, that names a package and holds a
/// version.
pub open spec fn version_line_from(all: Seq<Seq<char>>, quoted: Seq<char>, i: int) -> Option<int>
    decreases all.len() - i,
{
    if i < 0 || i >= all.len() {
        None
    } else if is_version_line(all[i], quoted) {
        Some(i)
    } else {
        version_line_from(all, quoted, i + 1)
    }
}

pub open spec fn quoted(s: Seq<char>) -> Seq<char> {
    "\""@ + s + "\""@
}

pub open spec fn version_fix(
    old_version: Seq<char>,
    line: u32,
    rule_id: Seq<char>,
    file_uri: Seq<char>,
    package: Seq<char>,
    new_version: Seq<char>,
) -> PlannedFixView {
    exact_fix(
        seq![
            TextEditView {
                line,
                old_text: old_version,
                new_text: quoted(new_version),
                rule_id,
                description: "Update "@ + package + " from "@ + old_version + " to "@ + quoted(
                    new_version,
                ),
                replace_all: false,
            },
        ],
        rule_id,
        file_uri,
        line,
        "Update "@ + package + " to "@ + new_version,
    )
}

/// The fix that updates a dependency: on the first line of the file that names the
/// package and holds a version, whatever line the incident gives.
pub open spec fn update_dependency_of(
    rule_id: Seq<char>,
    incident: IncidentView,
    package: Seq<char>,
    new_version: Seq<char>,
    source: Option<Seq<char>>,
) -> Option<PlannedFixView> {
    match source {
        Some(text) => if regex_rejection(version_expression()) is Some {
            None
        } else {
            match version_line_from(lines(text), quoted(package), 0) {
                Some(i) => Some(
                    version_fix(
                        version_in(lines(text)[i]),
                        (i + 1) as u32,
                        rule_id,
                        incident.file_uri,
                        package,
                        new_version,
                    ),
                ),
                None => None,
            }
        },
        None => None,
    }
}

fn make_version_fix(
    old_version: &str,
    line: u32,
    rule_id: &str,
    file_uri: &str,
    package: &str,
    new_version: &str,
) -> (r: PlannedFix)
    ensures
        r@ == version_fix(old_version@, line, rule_id@, file_uri@, package@, new_version@),
{
    let replacement = cat3("\"", new_version, "\"");
    let from = cat4("Update ", package, " from ", old_version);
    let edit = TextEdit {
        line,
        old_text: old_version.to_owned(),
        description: cat3(from.as_str(), " to ", replacement.as_str()),
        new_text: replacement,
        rule_id: rule_id.to_owned(),
        replace_all: false,
    };
    let mut edits: Vec<TextEdit> = Vec::new();
    edits.push(edit);
    assert(edit_views(edits@) =~= seq![edit@]);
    make_exact_fix(
        edits,
        rule_id,
        file_uri,
        line,
        cat4("Update ", package, " to ", new_version),
    )
}

/// Plans the update of a dependency in a package manifest.
pub fn plan_update_dependency(
    rule_id: &str,
    incident: &Incident,
    package: &str,
    new_version: &str,
    source: Option<&String>,
) -> (r: Option<PlannedFix>)
    ensures
        opt_fix(r) == update_dependency_of(
            rule_id@,
            incident@,
            package@,
            new_version@,
            opt_source(source),
        ),
{
    let text = match source {
        Some(s) => s,
        None => {
            return None;
        },
    };
    let name = cat3("\"", package, "\"");
    match compile("(\"[\\^~><=]*\\d+\\.\\d+\\.\\d+[^\"]*\")") {
        Err(_) => None,
        Ok(re) => {
            let all = lines_text(text.as_str());
            let mut i: usize = 0;
            while i < all.len()
                invariant
                    i <= all@.len(),
                    texts(all@) == lines(text@),
                    name@ == quoted(package@),
                    crate::pattern::regex_text(re) == version_expression(),
                    regex_rejection(version_expression()) is None,
                    opt_source(source) == Some(text@),
                    version_line_from(lines(text@), name@, 0) == version_line_from(
                        lines(text@),
                        name@,
                        i as int,
                    ),
                decreases all@.len() - i,
            {
                assert(lines(text@)[i as int] == all@[i as int]@);
                if contains_text(all[i].as_str(), name.as_str()) {
                    if let Some(m) = regex_find(&re, all[i].as_str()) {
                        return Some(
                            make_version_fix(
                                m.text.as_str(),
                                (i + 1) as u32,
                                rule_id,
                                incident.file_uri.as_str(),
                                package,
                                new_version,
                            ),
                        );
                    }
                }
                i = i + 1;
            }
            None
        },
    }
}

// ── The plan ────────────────────────────────────────────────────────────

/// A fix whose edits replace all occurrences on their lines.
pub open spec fn replacing_all(f: PlannedFixView) -> PlannedFixView {
    PlannedFixView {
        edits: Seq::new(
            f.edits.len(),
            |i: int| TextEditView { replace_all: true, ..f.edits[i] },
        ),
        ..f
    }
}

/// The fix of an incident under a strategy that plans edits.
pub open spec fn fix_of(
    strategy: FixStrategyView,
    rule_id: Seq<char>,
    incident: IncidentView,
    source: Option<Seq<char>>,
) -> Option<PlannedFixView> {
    match strategy {
        FixStrategyView::Rename(v) => rename_of(rule_id, incident, v, source),
        FixStrategyView::RemoveProp => remove_prop_of(rule_id, incident, source),
        FixStrategyView::ImportPathChange(a, b) => import_path_change_of(rule_id, incident, a, b),
        FixStrategyView::CssVariablePrefix(a, b) => match rename_of(
            rule_id,
            incident,
            seq![Renaming { old: a, new: b }],
            source,
        ) {
            Some(f) => Some(replacing_all(f)),
            None => None,
        },
        FixStrategyView::UpdateDependency(p, n) => update_dependency_of(
            rule_id,
            incident,
            p,
            n,
            source,
        ),
        FixStrategyView::Manual => None,
        FixStrategyView::Llm => None,
    }
}

pub open spec fn line_or_zero(incident: IncidentView) -> u32 {
    match incident.line_number {
        Some(n) => n,
        None => 0,
    }
}

pub open spec fn manual_item_of(rule_id: Seq<char>, incident: IncidentView) -> ManualFixItemView {
    ManualFixItemView {
        rule_id,
        file_uri: incident.file_uri,
        line: line_or_zero(incident),
        message: incident.message,
        code_snip: incident.code_snip,
    }
}

pub open spec fn request_of(
    rule_id: Seq<char>,
    incident: IncidentView,
    path: Seq<char>,
    labels: Seq<Seq<char>>,
) -> LlmFixRequestView {
    LlmFixRequestView {
        rule_id,
        file_uri: incident.file_uri,
        file_path: path,
        line: line_or_zero(incident),
        message: incident.message,
        code_snip: incident.code_snip,
        source: None,
        labels,
    }
}

/// The list under a path, empty where there is none.
pub open spec fn fixes_at(
    files: Map<Seq<char>, Seq<PlannedFixView>>,
    path: Seq<char>,
) -> Seq<PlannedFixView> {
    if files.dom().contains(path) {
        files[path]
    } else {
        Seq::empty()
    }
}

impl FixPlanView {
    /// This plan with one more fix for a file.
    pub open spec fn with_fix(self, path: Seq<char>, fix: PlannedFixView) -> FixPlanView {
        FixPlanView {
            files: self.files.insert(path, fixes_at(self.files, path).push(fix)),
            ..self
        }
    }
}

/// What an incident adds to a plan.
pub open spec fn with_incident(
    plan: FixPlanView,
    strategy: FixStrategyView,
    rule_id: Seq<char>,
    labels: Seq<Seq<char>>,
    incident: IncidentView,
    root: Seq<char>,
    sources: Map<Seq<char>, SourceView>,
) -> FixPlanView {
    let path = path_of_uri(incident.file_uri, root);
    if in_node_modules(path) {
        plan
    } else {
        match strategy {
            FixStrategyView::Manual => FixPlanView {
                manual: plan.manual.push(manual_item_of(rule_id, incident)),
                ..plan
            },
            FixStrategyView::Llm => FixPlanView {
                pending_llm: plan.pending_llm.push(request_of(rule_id, incident, path, labels)),
                ..plan
            },
            _ => match fix_of(strategy, rule_id, incident, readable(sources, path)) {
                Some(f) => plan.with_fix(path, f),
                None => plan,
            },
        }
    }
}

pub open spec fn with_incidents(
    plan: FixPlanView,
    strategy: FixStrategyView,
    rule_id: Seq<char>,
    labels: Seq<Seq<char>>,
    v: Seq<Incident>,
    root: Seq<char>,
    sources: Map<Seq<char>, SourceView>,
) -> FixPlanView
    decreases v.len(),
{
    if v.len() == 0 {
        plan
    } else {
        with_incident(
            with_incidents(plan, strategy, rule_id, labels, v.drop_last(), root, sources),
            strategy,
            rule_id,
            labels,
            v.last()@,
            root,
            sources,
        )
    }
}

/// What the first `n` violations of a ruleset add to a plan, in the order of their
/// rules.
pub open spec fn with_violations(
    plan: FixPlanView,
    ruleset: RuleSet,
    n: int,
    strategies: Map<Seq<char>, FixStrategyView>,
    root: Seq<char>,
    sources: Map<Seq<char>, SourceView>,
) -> FixPlanView
    decreases n,
{
    if n <= 0 {
        plan
    } else {
        let rule_id = ruleset.violations.keys()[n - 1];
        let violation = ruleset.violations.values()[n - 1];
        let labels = texts(violation.labels@);
        with_incidents(
            with_violations(plan, ruleset, n - 1, strategies, root, sources),
            strategy_for(strategies, rule_id, labels),
            rule_id,
            labels,
            violation.incidents@,
            root,
            sources,
        )
    }
}

pub open spec fn with_rulesets(
    v: Seq<RuleSet>,
    strategies: Map<Seq<char>, FixStrategyView>,
    root: Seq<char>,
    sources: Map<Seq<char>, SourceView>,
) -> FixPlanView
    decreases v.len(),
{
    if v.len() == 0 {
        empty_plan()
    } else {
        with_violations(
            with_rulesets(v.drop_last(), strategies, root, sources),
            v.last(),
            v.last().violations.keys().len() as int,
            strategies,
            root,
            sources,
        )
    }
}

/// Keys that order fixes by line, the last line first.
pub open spec fn bottom_up_keys(v: Seq<PlannedFixView>) -> Seq<int> {
    Seq::new(v.len(), |i: int| -(v[i].line as int))
}

/// The fixes of a file from the bottom up.
pub open spec fn bottom_up(v: Seq<PlannedFixView>) -> Seq<PlannedFixView> {
    in_stable_order(v, bottom_up_keys(v))
}

/// The plan for the output of an analysis: what its incidents add, with the fixes
/// of each file from the bottom up.
pub open spec fn plan_of(
    output: Seq<RuleSet>,
    root: Seq<char>,
    strategies: Map<Seq<char>, FixStrategyView>,
    sources: Map<Seq<char>, SourceView>,
) -> FixPlanView {
    let plan = with_rulesets(output, strategies, root, sources);
    FixPlanView { files: plan.files.map_values(|v: Seq<PlannedFixView>| bottom_up(v)), ..plan }
}

fn add_fix(plan: &mut FixPlan, path: String, fix: PlannedFix)
    ensures
        final(plan)@ == old(plan)@.with_fix(path@, fix@),
{
    let ghost before = *plan;
    let ghost p = path@;
    let ghost f = fix@;
    push_to(&mut plan.files, path, fix);
    proof {
        let list = plan.files@[p];
        assert(fix_views(list@) =~= fixes_at(before@.files, p).push(f));
        assert(plan@.files =~= before@.with_fix(p, f).files);
    }
}

fn replace_everywhere(fix: PlannedFix) -> (r: PlannedFix)
    ensures
        r@ == replacing_all(fix@),
{
    let mut edits: Vec<TextEdit> = Vec::new();
    let mut i: usize = 0;
    while i < fix.edits.len()
        invariant
            i <= fix.edits@.len(),
            edits@.len() == i,
            forall|k: int|
                0 <= k < i ==> (#[trigger] edits@[k])@ == (TextEditView {
                    replace_all: true,
                    ..fix.edits@[k]@
                }),
        decreases fix.edits@.len() - i,
    {
        let mut e = crate::fix::copy_edit(&fix.edits[i]);
        e.replace_all = true;
        edits.push(e);
        i = i + 1;
    }
    assert(edit_views(edits@) =~= replacing_all(fix@).edits);
    PlannedFix { edits, ..fix }
}

fn plan_prefix_change(
    rule_id: &str,
    incident: &Incident,
    old_prefix: &String,
    new_prefix: &String,
    source: Option<&String>,
    lang: &JsFixProvider,
) -> (r: Option<PlannedFix>)
    ensures
        opt_fix(r) == fix_of(
            FixStrategyView::CssVariablePrefix(old_prefix@, new_prefix@),
            rule_id@,
            incident@,
            opt_source(source),
        ),
{
    let mut mappings: Vec<RenameMapping> = Vec::new();
    mappings.push(RenameMapping { old: old_prefix.clone(), new: new_prefix.clone() });
    assert(renamings(mappings@) =~= seq![Renaming { old: old_prefix@, new: new_prefix@ }]);
    match plan_rename(rule_id, incident, &mappings, source, lang) {
        Some(f) => Some(replace_everywhere(f)),
        None => None,
    }
}

/// Plans the edits of an incident. Strategies that plan none give nothing.
pub fn plan_incident_fix(
    strategy: &FixStrategy,
    rule_id: &str,
    incident: &Incident,
    source: Option<&String>,
    lang: &JsFixProvider,
) -> (r: Option<PlannedFix>)
    ensures
        opt_fix(r) == fix_of(strategy@, rule_id@, incident@, opt_source(source)),
{
    match strategy {
        FixStrategy::Rename(mappings) => plan_rename(rule_id, incident, mappings, source, lang),
        FixStrategy::RemoveProp => lang.plan_remove_attribute(rule_id, incident, source),
        FixStrategy::ImportPathChange { old_path, new_path } => plan_import_path_change(
            rule_id,
            incident,
            old_path.as_str(),
            new_path.as_str(),
        ),
        FixStrategy::CssVariablePrefix { old_prefix, new_prefix } => plan_prefix_change(
            rule_id,
            incident,
            old_prefix,
            new_prefix,
            source,
            lang,
        ),
        FixStrategy::UpdateDependency { package, new_version } => plan_update_dependency(
            rule_id,
            incident,
            package.as_str(),
            new_version.as_str(),
            source,
        ),
        FixStrategy::Manual => None,
        FixStrategy::Llm => None,
    }
}

pub fn make_manual_item(rule_id: &str, incident: &Incident) -> (r: ManualFixItem)
    ensures
        r@ == manual_item_of(rule_id@, incident@),
{
    ManualFixItem {
        rule_id: rule_id.to_owned(),
        file_uri: incident.file_uri.clone(),
        line: match incident.line_number {
            Some(n) => n,
            None => 0,
        },
        message: incident.message.clone(),
        code_snip: copy_opt(&incident.code_snip),
    }
}

pub fn make_request(
    rule_id: &str,
    incident: &Incident,
    path: &str,
    labels: &Vec<String>,
) -> (r: LlmFixRequest)
    ensures
        r@ == request_of(rule_id@, incident@, path@, texts(labels@)),
{
    LlmFixRequest {
        rule_id: rule_id.to_owned(),
        file_uri: incident.file_uri.clone(),
        file_path: path.to_owned(),
        line: match incident.line_number {
            Some(n) => n,
            None => 0,
        },
        message: incident.message.clone(),
        code_snip: copy_opt(&incident.code_snip),
        source: None,
        labels: copy_list(labels),
    }
}

fn add_incident(
    plan: &mut FixPlan,
    strategy: &FixStrategy,
    rule_id: &str,
    labels: &Vec<String>,
    incident: &Incident,
    root: &str,
    sources: &Sources,
    lang: &JsFixProvider,
)
    ensures
        final(plan)@ == with_incident(
            old(plan)@,
            strategy@,
            rule_id@,
            texts(labels@),
            incident@,
            root@,
            sources_view(*sources),
        ),
{
    let path = uri_to_path(incident.file_uri.as_str(), root);
    if lang.should_skip_path(path.as_str()) {
        return;
    }
    let ghost before = *plan;
    match strategy {
        FixStrategy::Manual => {
            let item = make_manual_item(rule_id, incident);
            plan.manual.push(item);
            assert(plan@.manual =~= before@.manual.push(item@));
        },
        FixStrategy::Llm => {
            let request = make_request(rule_id, incident, path.as_str(), labels);
            plan.pending_llm.push(request);
            assert(plan@.pending_llm =~= before@.pending_llm.push(request@));
        },
        _ => {
            let source = readable_source(sources, path.as_str());
            if let Some(f) = plan_incident_fix(strategy, rule_id, incident, source, lang) {
                add_fix(plan, path, f);
            }
        },
    }
}

fn add_incidents(
    plan: &mut FixPlan,
    strategy: &FixStrategy,
    rule_id: &str,
    violation: &Violation,
    root: &str,
    sources: &Sources,
    lang: &JsFixProvider,
)
    ensures
        final(plan)@ == with_incidents(
            old(plan)@,
            strategy@,
            rule_id@,
            texts(violation.labels@),
            violation.incidents@,
            root@,
            sources_view(*sources),
        ),
{
    let ghost before = plan@;
    let ghost labels = texts(violation.labels@);
    let ghost all = violation.incidents@;
    let mut i: usize = 0;
    while i < violation.incidents.len()
        invariant
            i <= all.len(),
            all == violation.incidents@,
            labels == texts(violation.labels@),
            plan@ == with_incidents(
                before,
                strategy@,
                rule_id@,
                labels,
                all.take(i as int),
                root@,
                sources_view(*sources),
            ),
        decreases all.len() - i,
    {
        assert(all.take(i + 1).drop_last() =~= all.take(i as int));
        add_incident(
            plan,
            strategy,
            rule_id,
            &violation.labels,
            &violation.incidents[i],
            root,
            sources,
            lang,
        );
        i = i + 1;
    }
    assert(all.take(all.len() as int) =~= all);
}

fn add_violation(
    plan: &mut FixPlan,
    rule_id: &str,
    violation: &Violation,
    strategies: &Strategies,
    root: &str,
    sources: &Sources,
    lang: &JsFixProvider,
)
    ensures
        final(plan)@ == with_incidents(
            old(plan)@,
            strategy_for(strategies_view(*strategies), rule_id@, texts(violation.labels@)),
            rule_id@,
            texts(violation.labels@),
            violation.incidents@,
            root@,
            sources_view(*sources),
        ),
{
    match strategies.get(rule_id) {
        Some(s) => add_incidents(plan, s, rule_id, violation, root, sources, lang),
        None => match infer_strategy_from_labels(&violation.labels) {
            Some(s) => add_incidents(plan, &s, rule_id, violation, root, sources, lang),
            None => {
                let s = FixStrategy::Llm;
                add_incidents(plan, &s, rule_id, violation, root, sources, lang);
            },
        },
    }
}

fn sort_bottom_up(fixes: Vec<PlannedFix>) -> (r: Vec<PlannedFix>)
    ensures
        fix_views(r@) == bottom_up(fix_views(fixes@)),
{
    let mut keys: Vec<i128> = Vec::new();
    let mut i: usize = 0;
    while i < fixes.len()
        invariant
            i <= fixes@.len(),
            keys@.len() == i,
            forall|k: int| 0 <= k < i ==> #[trigger] keys@[k] as int == -(fixes@[k].line as int),
        decreases fixes@.len() - i,
    {
        keys.push(-(fixes[i].line as i128));
        i = i + 1;
    }
    let ghost items = fixes@;
    let sorted = stable_sort(fixes, &keys);
    proof {
        let k = bottom_up_keys(fix_views(items));
        assert(key_values(keys@) =~= k);
        crate::sorting::stable_order_is_sorted(k);
        assert(fix_views(sorted@) =~= bottom_up(fix_views(items)));
    }
    sorted
}

fn sort_files(files: PathMap<Vec<PlannedFix>>) -> (r: PathMap<Vec<PlannedFix>>)
    ensures
        file_fixes_view(r) == file_fixes_view(files).map_values(
            |v: Seq<PlannedFixView>| bottom_up(v),
        ),
{
    let n: usize = files.len();
    let ghost all = file_fixes_view(files);
    let ghost keys = files.keys();
    let mut rest = files;
    let mut names: Vec<String> = Vec::new();
    let mut i: usize = 0;
    while i < n
        invariant
            i <= n,
            n == keys.len(),
            keys == rest.keys(),
            names@.len() == i,
            forall|k: int| 0 <= k < i ==> (#[trigger] names@[k])@ == keys[k],
        decreases n - i,
    {
        names.push(rest.key_at(i).clone());
        i = i + 1;
    }
    let mut out: PathMap<Vec<PlannedFix>> = PathMap::new();
    let mut j: usize = 0;
    assert(file_fixes_view(rest) == all);
    assert(file_fixes_view(out) =~= Map::<Seq<char>, Seq<PlannedFixView>>::empty());
    while j < n
        invariant
            j <= n,
            n == keys.len(),
            keys.no_duplicates(),
            names@.len() == n,
            forall|k: int| 0 <= k < n ==> (#[trigger] names@[k])@ == keys[k],
            forall|k: int| 0 <= k < n ==> all.dom().contains(#[trigger] keys[k]),
            forall|k: int|
                j <= k < n ==> file_fixes_view(rest).dom().contains(#[trigger] keys[k])
                    && file_fixes_view(rest)[keys[k]] == all[keys[k]],
            forall|x: Seq<char>|
                #[trigger] file_fixes_view(out).dom().contains(x) <==> keys.take(
                    j as int,
                ).contains(x),
            forall|x: Seq<char>|
                #[trigger] file_fixes_view(out).dom().contains(x) ==> file_fixes_view(out)[x]
                    == bottom_up(all[x]),
        decreases n - j,
    {
        let ghost key = keys[j as int];
        let ghost prior = rest;
        let ghost done = out;
        assert(file_fixes_view(rest).dom().contains(keys[j as int]));
        if let Some(fixes) = rest.remove(names[j].as_str()) {
            proof {
                assert(fix_views(fixes@) == all[key]);
                assert(file_fixes_view(rest) =~= file_fixes_view(prior).remove(key));
                assert forall|k: int| j + 1 <= k < n implies file_fixes_view(rest).dom().contains(
                    #[trigger] keys[k],
                ) && file_fixes_view(rest)[keys[k]] == all[keys[k]] by {
                    assert(keys[k] != keys[j as int]);
                    assert(file_fixes_view(prior).dom().contains(keys[k]));
                }
            }
            let sorted = sort_bottom_up(fixes);
            let ghost s = fix_views(sorted@);
            out.insert(names[j].clone(), sorted);
            proof {
                assert(file_fixes_view(out) =~= file_fixes_view(done).insert(key, s));
                assert(keys.take(j + 1) =~= keys.take(j as int).push(key));
                assert forall|x: Seq<char>|
                    #[trigger] file_fixes_view(out).dom().contains(x) <==> keys.take(
                        j + 1,
                    ).contains(x) by {
                    assert(file_fixes_view(done).dom().contains(x) <==> keys.take(
                        j as int,
                    ).contains(x));
                    if keys.take(j as int).contains(x) {
                        let k = choose|k: int| 0 <= k < j && keys.take(j as int)[k] == x;
                        assert(keys.take(j + 1)[k] == x);
                    }
                    if x == key {
                        assert(keys.take(j + 1)[j as int] == x);
                    }
                }
                assert forall|x: Seq<char>| #[trigger]
                    file_fixes_view(out).dom().contains(x) implies file_fixes_view(out)[x]
                    == bottom_up(all[x]) by {
                    assert(x != key ==> file_fixes_view(done).dom().contains(x));
                }
            }
        }
        j = j + 1;
    }
    proof {
        assert(keys.take(n as int) =~= keys);
        assert(file_fixes_view(out) =~= all.map_values(|v: Seq<PlannedFixView>| bottom_up(v)));
    }
    out
}

/// Builds a fix plan from the output of an analysis.
///
/// The strategy of a rule is the one in `strategies`, else the one that its labels
/// stand for, else asking a language model. `sources` holds the contents of the
/// files that incidents lie in.
pub fn plan_fixes(
    output: &Vec<RuleSet>,
    project_root: &str,
    strategies: &Strategies,
    lang: &JsFixProvider,
    sources: &Sources,
) -> (r: FixPlan)
    ensures
        r@ == plan_of(
            output@,
            project_root@,
            strategies_view(*strategies),
            sources_view(*sources),
        ),
{
    let ghost st = strategies_view(*strategies);
    let ghost sv = sources_view(*sources);
    let mut plan = FixPlan::default();
    let mut i: usize = 0;
    while i < output.len()
        invariant
            i <= output@.len(),
            st == strategies_view(*strategies),
            sv == sources_view(*sources),
            plan@ == with_rulesets(output@.take(i as int), st, project_root@, sv),
        decreases output@.len() - i,
    {
        assert(output@.take(i + 1).drop_last() =~= output@.take(i as int));
        let ruleset = &output[i];
        let ghost before = plan@;
        let n: usize = ruleset.violations.len();
        let mut k: usize = 0;
        while k < n
            invariant
                k <= n,
                n == ruleset.violations.keys().len(),
                n == ruleset.violations.values().len(),
                st == strategies_view(*strategies),
                sv == sources_view(*sources),
                plan@ == with_violations(before, *ruleset, k as int, st, project_root@, sv),
            decreases n - k,
        {
            add_violation(
                &mut plan,
                ruleset.violations.key_at(k).as_str(),
                ruleset.violations.value_at(k),
                strategies,
                project_root,
                sources,
                lang,
            );
            k = k + 1;
        }
        i = i + 1;
    }
    assert(output@.take(output@.len() as int) =~= output@);
    let FixPlan { files, manual, pending_llm } = plan;
    let sorted = sort_files(files);
    let r = FixPlan { files: sorted, manual, pending_llm };
    assert(r@ =~= plan_of(output@, project_root@, st, sv));
    r
}

// ── Laws of planning ────────────────────────────────────────────────────

/// The first label that stands for a strategy decides, whatever labels follow.
pub proof fn first_matching_label_wins(labels: Seq<Seq<char>>, more: Seq<Seq<char>>, i: int)
    requires
        0 <= i,
        inferred_from(labels, i) is Some,
    ensures
        inferred_from(labels + more, i) == inferred_from(labels, i),
    decreases labels.len() - i,
{
    assert((labels + more)[i] == labels[i]);
    if strategy_of_label(labels[i]) is None {
        first_matching_label_wins(labels, more, i + 1);
    }
}

/// Nothing is planned for files in `node_modules`.
pub proof fn installed_packages_are_left_alone(
    plan: FixPlanView,
    strategy: FixStrategyView,
    rule_id: Seq<char>,
    labels: Seq<Seq<char>>,
    incident: IncidentView,
    root: Seq<char>,
    sources: Map<Seq<char>, SourceView>,
)
    requires
        in_node_modules(path_of_uri(incident.file_uri, root)),
    ensures
        with_incident(plan, strategy, rule_id, labels, incident, root, sources) == plan,
{
}

/// How many items a plan holds for an incident: each incident adds at most one,
/// and adds exactly one where its strategy is manual or a language model and its
/// file is not an installed package.
pub proof fn incident_adds_one_item(
    plan: FixPlanView,
    strategy: FixStrategyView,
    rule_id: Seq<char>,
    labels: Seq<Seq<char>>,
    incident: IncidentView,
    root: Seq<char>,
    sources: Map<Seq<char>, SourceView>,
)
    ensures
        ({
            let next = with_incident(plan, strategy, rule_id, labels, incident, root, sources);
            let path = path_of_uri(incident.file_uri, root);
            &&& next.manual.len() == plan.manual.len() + if strategy is Manual && !in_node_modules(
                path,
            ) {
                1int
            } else {
                0int
            }
            &&& next.pending_llm.len() == plan.pending_llm.len() + if strategy is Llm
                && !in_node_modules(path) {
                1int
            } else {
                0int
            }
            &&& fixes_at(plan.files, path).len() <= fixes_at(next.files, path).len() <= fixes_at(
                plan.files,
                path,
            ).len() + 1
            &&& forall|other: Seq<char>|
                other != path ==> fixes_at(next.files, other) == fixes_at(plan.files, other)
        }),
{
}

/// A strategy given for a rule decides; else the first label that stands for one;
/// else a language model is asked.
pub proof fn strategies_resolve_in_order(
    strategies: Map<Seq<char>, FixStrategyView>,
    rule_id: Seq<char>,
    labels: Seq<Seq<char>>,
)
    ensures
        strategies.dom().contains(rule_id) ==> strategy_for(strategies, rule_id, labels)
            == strategies[rule_id],
        !strategies.dom().contains(rule_id) ==> forall|i: int|
            0 <= i < labels.len() && strategy_of_label(#[trigger] labels[i]) is Some && (forall|k:
                int|
                0 <= k < i ==> strategy_of_label(#[trigger] labels[k]) is None) ==> strategy_for(
                strategies,
                rule_id,
                labels,
            ) == strategy_of_label(labels[i]).unwrap(),
        !strategies.dom().contains(rule_id) && (forall|i: int|
            0 <= i < labels.len() ==> strategy_of_label(#[trigger] labels[i]) is None)
            ==> strategy_for(strategies, rule_id, labels) is Llm,
{
    if !strategies.dom().contains(rule_id) {
        assert forall|i: int|
            0 <= i < labels.len() && strategy_of_label(#[trigger] labels[i]) is Some && (forall|k:
                int|
                0 <= k < i ==> strategy_of_label(#[trigger] labels[k]) is None) implies strategy_for(
            strategies,
            rule_id,
            labels,
        ) == strategy_of_label(labels[i]).unwrap() by {
            lemma_inferred_at(labels, 0, i);
        }
        if forall|i: int| 0 <= i < labels.len() ==> strategy_of_label(#[trigger] labels[i]) is None {
            lemma_inferred_at(labels, 0, labels.len() as int);
        }
    }
}

/// Labels that stand for no strategy are passed over.
proof fn lemma_inferred_at(labels: Seq<Seq<char>>, from: int, i: int)
    requires
        0 <= from <= i <= labels.len(),
        forall|k: int| from <= k < i ==> strategy_of_label(#[trigger] labels[k]) is None,
    ensures
        inferred_from(labels, from) == inferred_from(labels, i),
    decreases i - from,
{
    if from < i {
        assert(strategy_of_label(labels[from]) is None);
        lemma_inferred_at(labels, from + 1, i);
    }
}

/// The fixes of a file run from its last line to its first, and none is lost: the
/// edit of one leaves the line numbers of those still to come alone.
pub proof fn fixes_run_bottom_up(v: Seq<PlannedFixView>)
    ensures
        bottom_up(v).len() == v.len(),
        forall|f: PlannedFixView| #[trigger] bottom_up(v).contains(f) <==> v.contains(f),
        forall|i: int, j: int|
            0 <= i < j < v.len() ==> (#[trigger] bottom_up(v)[i]).line >= (#[trigger] bottom_up(
                v,
            )[j]).line,
{
    let keys = bottom_up_keys(v);
    let order = stable_order(keys);
    stable_order_is_sorted(keys);
    lemma_same_items(v, keys);
    assert forall|i: int, j: int| 0 <= i < j < v.len() implies (#[trigger] bottom_up(v)[i]).line >= (
    #[trigger] bottom_up(v)[j]).line by {
        assert(in_order(keys, order[i], order[j]));
    }
}

/// Putting items in order keeps them all, and adds none.
proof fn lemma_same_items<T>(items: Seq<T>, keys: Seq<int>)
    requires
        items.len() == keys.len(),
    ensures
        forall|x: T| #[trigger] in_stable_order(items, keys).contains(x) <==> items.contains(x),
{
    let order = stable_order(keys);
    let sorted = in_stable_order(items, keys);
    stable_order_is_sorted(keys);
    assert forall|x: T| #[trigger] sorted.contains(x) <==> items.contains(x) by {
        if items.contains(x) {
            let i = choose|i: int| 0 <= i < items.len() && items[i] == x;
            assert(order.contains(i));
            let k = choose|k: int| 0 <= k < order.len() && order[k] == i;
            assert(sorted[k] == x);
        }
        if sorted.contains(x) {
            let k = choose|k: int| 0 <= k < sorted.len() && sorted[k] == x;
            assert(items[order[k]] == x);
        }
    }
}

/// Longer names are renamed before shorter ones; every mapping that changes
/// something takes part.
pub proof fn longer_names_are_renamed_first(v: Seq<Renaming>)
    ensures
        forall|m: Renaming| #[trigger] longest_first(v).contains(m) <==> changing(v).contains(m),
        forall|i: int, j: int|
            0 <= i < j < longest_first(v).len() ==> utf8((#[trigger] longest_first(v)[i]).old).len()
                >= utf8((#[trigger] longest_first(v)[j]).old).len(),
{
    let keys = length_keys(changing(v));
    let order = stable_order(keys);
    stable_order_is_sorted(keys);
    lemma_same_items(changing(v), keys);
    assert forall|i: int, j: int| 0 <= i < j < longest_first(v).len() implies utf8(
        (#[trigger] longest_first(v)[i]).old,
    ).len() >= utf8((#[trigger] longest_first(v)[j]).old).len() by {
        assert(in_order(keys, order[i], order[j]));
    }
}

/// A renaming on a line concerns only names that stand there, and none that is
/// part of a name renamed before it.
pub proof fn renamings_do_not_overlap(text: Seq<char>, v: Seq<Renaming>)
    ensures
        forall|i: int|
            0 <= i < applicable(text, v).len() ==> contains(
                text,
                (#[trigger] applicable(text, v)[i]).old,
            ),
        forall|i: int, j: int|
            0 <= i < j < applicable(text, v).len() ==> !contains(
                (#[trigger] applicable(text, v)[i]).old,
                (#[trigger] applicable(text, v)[j]).old,
            ),
    decreases v.len(),
{
    if v.len() > 0 {
        renamings_do_not_overlap(text, v.drop_last());
        let before = applicable(text, v.drop_last());
        let after = applicable(text, v);
        assert forall|i: int| 0 <= i < after.len() implies contains(
            text,
            (#[trigger] after[i]).old,
        ) by {
            if i < before.len() {
                assert(after[i] == before[i]);
            }
        }
        assert forall|i: int, j: int| 0 <= i < j < after.len() implies !contains(
            (#[trigger] after[i]).old,
            (#[trigger] after[j]).old,
        ) by {
            assert(after[i] == before[i]);
            if j < before.len() {
                assert(after[j] == before[j]);
            }
        }
    }
}

// ── Laws of renaming ────────────────────────────────────────────────────

/// Whether an edit of a line, counted from one, puts the new name of a mapping in place
/// of its old one.
pub open spec fn renames(e: TextEditView, number: int, m: Renaming) -> bool {
    e.line == number && e.old_text == m.old && e.new_text == m.new
}

/// Whether one of the edits does.
pub open spec fn has_renaming(edits: Seq<TextEditView>, number: int, m: Renaming) -> bool {
    exists|i: int| 0 <= i < edits.len() && renames(#[trigger] edits[i], number, m)
}

proof fn lemma_renaming_kept(
    a: Seq<TextEditView>,
    b: Seq<TextEditView>,
    number: int,
    m: Renaming,
)
    requires
        has_renaming(a, number, m) || has_renaming(b, number, m),
    ensures
        has_renaming(a + b, number, m),
{
    if has_renaming(a, number, m) {
        let i = choose|i: int| 0 <= i < a.len() && renames(#[trigger] a[i], number, m);
        assert((a + b)[i] == a[i]);
    } else {
        let i = choose|i: int| 0 <= i < b.len() && renames(#[trigger] b[i], number, m);
        assert((a + b)[a.len() + i] == b[i]);
    }
}

proof fn lemma_mapping_edits(
    text: Seq<char>,
    line: u32,
    v: Seq<Renaming>,
    n: int,
    skip: int,
    rule_id: Seq<char>,
)
    requires
        0 <= n <= v.len(),
    ensures
        forall|j: int|
            0 <= j < n && j != skip && v[j].old != v[j].new && contains(text, v[j].old)
                ==> has_renaming(
                mapping_edits(text, line, v, n, skip, rule_id),
                line as int,
                #[trigger] v[j],
            ),
        forall|i: int|
            0 <= i < mapping_edits(text, line, v, n, skip, rule_id).len() ==> is_renaming_of(
                #[trigger] mapping_edits(text, line, v, n, skip, rule_id)[i],
                line as int,
                text,
                v,
            ),
    decreases n,
{
    if n > 0 {
        lemma_mapping_edits(text, line, v, n - 1, skip, rule_id);
        let before = mapping_edits(text, line, v, n - 1, skip, rule_id);
        let after = mapping_edits(text, line, v, n, skip, rule_id);
        let m = v[n - 1];
        if m.old != m.new && n - 1 != skip && contains(text, m.old) {
            let e = rename_edit(line, m, rule_id);
            assert(after =~= before + seq![e]);
            assert(seq![e][0] == e);
            assert(renames(seq![e][0], line as int, m));
            assert forall|j: int|
                0 <= j < n && j != skip && v[j].old != v[j].new && contains(
                    text,
                    v[j].old,
                ) implies has_renaming(after, line as int, #[trigger] v[j]) by {
                lemma_renaming_kept(before, seq![e], line as int, v[j]);
            }
            assert(renames(e, line as int, v[n - 1]));
            assert(is_renaming_of(e, line as int, text, v));
        }
    }
}

/// Whether an edit of a line is that of a mapping which changes something and whose old
/// name stands on the line.
pub open spec fn is_renaming_of(
    e: TextEditView,
    number: int,
    text: Seq<char>,
    v: Seq<Renaming>,
) -> bool {
    exists|j: int|
        0 <= j < v.len() && renames(e, number, #[trigger] v[j]) && v[j].old != v[j].new && contains(
            text,
            v[j].old,
        )
}

proof fn lemma_window_edits(
    all: Seq<Seq<char>>,
    lo: int,
    hi: int,
    v: Seq<Renaming>,
    primary: int,
    line: u32,
    rule_id: Seq<char>,
    i: int,
    j: int,
)
    requires
        0 <= lo <= i < hi <= all.len(),
        hi <= u32::MAX,
        0 <= j < v.len(),
        v[j].old != v[j].new,
        contains(all[i], v[j].old),
        line != i + 1 || j != primary,
    ensures
        has_renaming(window_edits(all, lo, hi, v, primary, line, rule_id), i + 1, v[j]),
    decreases hi - lo,
{
    let number = hi as u32;
    let skip = if number == line {
        primary
    } else {
        -1
    };
    let here = mapping_edits(all[hi - 1], number, v, v.len() as int, skip, rule_id);
    let before = window_edits(all, lo, hi - 1, v, primary, line, rule_id);
    if i == hi - 1 {
        lemma_mapping_edits(all[hi - 1], number, v, v.len() as int, skip, rule_id);
        assert(has_renaming(here, number as int, v[j]));
    } else {
        lemma_window_edits(all, lo, hi - 1, v, primary, line, rule_id, i, j);
    }
    lemma_renaming_kept(before, here, i + 1, v[j]);
}

proof fn lemma_window_sound(
    all: Seq<Seq<char>>,
    lo: int,
    hi: int,
    v: Seq<Renaming>,
    primary: int,
    line: u32,
    rule_id: Seq<char>,
    k: int,
)
    requires
        0 <= lo,
        hi <= all.len(),
        hi <= u32::MAX,
        0 <= k < window_edits(all, lo, hi, v, primary, line, rule_id).len(),
    ensures
        ({
            let e = window_edits(all, lo, hi, v, primary, line, rule_id)[k];
            lo < e.line <= hi && is_renaming_of(e, e.line as int, all[e.line - 1], v)
        }),
    decreases hi - lo,
{
    if lo < hi {
        let number = hi as u32;
        let skip = if number == line {
            primary
        } else {
            -1
        };
        let here = mapping_edits(all[hi - 1], number, v, v.len() as int, skip, rule_id);
        let before = window_edits(all, lo, hi - 1, v, primary, line, rule_id);
        if k < before.len() {
            lemma_window_sound(all, lo, hi - 1, v, primary, line, rule_id, k);
            assert((before + here)[k] == before[k]);
        } else {
            lemma_mapping_edits(all[hi - 1], number, v, v.len() as int, skip, rule_id);
            assert((before + here)[k] == here[k - before.len()]);
            assert(is_renaming_of(here[k - before.len()], number as int, all[hi - 1], v));
        }
    }
}

proof fn lemma_mapping_from(v: Seq<Renaming>, name: Seq<char>, i: int, k: int)
    requires
        0 <= i <= k <= v.len(),
        forall|j: int| i <= j < k ==> (#[trigger] v[j]).old != name,
        k < v.len() ==> v[k].old == name,
    ensures
        mapping_from(v, name, i) == if k < v.len() {
            Some(k)
        } else {
            None
        },
    decreases k - i,
{
    if i < k {
        assert(v[i].old != name);
        lemma_mapping_from(v, name, i + 1, k);
    }
}

/// Where a mapping renames the matched name, that name is renamed on the line of the
/// incident, and every old name that stands on it, on one of the three lines before it
/// or on one of the four lines after it is renamed there.
pub proof fn names_around_are_renamed(
    rule_id: Seq<char>,
    incident: IncidentView,
    v: Seq<Renaming>,
    text: Seq<char>,
    line: u32,
    k: int,
    i: int,
    j: int,
)
    requires
        incident.line_number == Some(line),
        !incident.variables.dom().contains("importedName"@),
        1 <= line,
        lines(text).len() <= u32::MAX,
        0 <= k < v.len(),
        v[k].old == matched_for_rename(incident.variables, v),
        forall|x: int| 0 <= x < k ==> (#[trigger] v[x]).old != v[k].old,
        v[k].old != v[k].new,
        0 <= i < lines(text).len(),
        line - 1 - 3 <= i <= line - 1 + 4,
        0 <= j < v.len(),
        v[j].old != v[j].new,
        contains(lines(text)[i], v[j].old),
    ensures
        rename_of(rule_id, incident, v, Some(text)) matches Some(fix) && has_renaming(
            fix.edits,
            line as int,
            v[k],
        ) && has_renaming(fix.edits, i + 1, v[j]) && fix.file_uri == incident.file_uri && fix.line
            == line && fix.rule_id == rule_id && fix.confidence == FixConfidence::Exact,
{
    let all = lines(text);
    lemma_mapping_from(v, v[k].old, 0, k);
    let first = seq![rename_edit(line, v[k], rule_id)];
    let lo = window_start(line);
    let hi = window_end(line, all.len() as int);
    let around = window_edits(all, lo, hi, v, k, line, rule_id);
    assert(renames(first[0], line as int, v[k]));
    assert(has_renaming(first, line as int, v[k]));
    lemma_renaming_kept(first, around, line as int, v[k]);
    if line == i + 1 && j == k {
    } else {
        lemma_window_edits(all, lo, hi, v, k, line, rule_id, i, j);
        lemma_renaming_kept(first, around, i + 1, v[j]);
    }
}

/// Beside the matched name on the line of the incident, only old names that stand on the
/// line, on one of the three lines before it or on one of the four lines after it are
/// renamed.
pub proof fn names_elsewhere_are_kept(
    rule_id: Seq<char>,
    incident: IncidentView,
    v: Seq<Renaming>,
    text: Seq<char>,
    line: u32,
    k: int,
    n: int,
)
    requires
        incident.line_number == Some(line),
        !incident.variables.dom().contains("importedName"@),
        1 <= line,
        lines(text).len() <= u32::MAX,
        0 <= k < v.len(),
        v[k].old == matched_for_rename(incident.variables, v),
        forall|x: int| 0 <= x < k ==> (#[trigger] v[x]).old != v[k].old,
        rename_of(rule_id, incident, v, Some(text)) is Some,
        0 <= n < rename_of(rule_id, incident, v, Some(text))->0.edits.len(),
    ensures
        ({
            let e = rename_of(rule_id, incident, v, Some(text))->0.edits[n];
            renames(e, line as int, v[k]) || (line - 3 <= e.line <= line + 4 && 1 <= e.line
                <= lines(text).len() && is_renaming_of(
                e,
                e.line as int,
                lines(text)[e.line - 1],
                v,
            ))
        }),
{
    let all = lines(text);
    lemma_mapping_from(v, v[k].old, 0, k);
    if v[k].old != v[k].new {
        let first = seq![rename_edit(line, v[k], rule_id)];
        let lo = window_start(line);
        let hi = window_end(line, all.len() as int);
        let around = window_edits(all, lo, hi, v, k, line, rule_id);
        if n == 0 {
            assert((first + around)[0] == first[0]);
        } else {
            assert((first + around)[n] == around[n - 1]);
            lemma_window_sound(all, lo, hi, v, k, line, rule_id, n - 1);
        }
    }
}

/// Where no mapping renames the matched name, the old names that stand on the line of the
/// incident are renamed there, and nothing else is.
pub proof fn names_on_the_line_are_renamed(
    rule_id: Seq<char>,
    incident: IncidentView,
    v: Seq<Renaming>,
    text: Seq<char>,
    line: u32,
    j: int,
)
    requires
        incident.line_number == Some(line),
        !incident.variables.dom().contains("importedName"@),
        1 <= line <= lines(text).len(),
        forall|x: int|
            0 <= x < v.len() ==> (#[trigger] v[x]).old != matched_for_rename(incident.variables, v),
        0 <= j < v.len(),
        v[j].old != v[j].new,
        contains(lines(text)[line - 1], v[j].old),
    ensures
        rename_of(rule_id, incident, v, Some(text)) matches Some(fix) && has_renaming(
            fix.edits,
            line as int,
            v[j],
        ) && forall|n: int|
            0 <= n < fix.edits.len() ==> is_renaming_of(
                #[trigger] fix.edits[n],
                line as int,
                lines(text)[line - 1],
                v,
            ),
{
    lemma_mapping_from(v, matched_for_rename(incident.variables, v), 0, v.len() as int);
    lemma_mapping_edits(lines(text)[line - 1], line, v, v.len() as int, -1, rule_id);
}

proof fn lemma_changing(v: Seq<Renaming>)
    ensures
        forall|m: Renaming| #[trigger] changing(v).contains(m) <==> v.contains(m) && m.old != m.new,
    decreases v.len(),
{
    if v.len() > 0 {
        lemma_changing(v.drop_last());
        let before = changing(v.drop_last());
        let after = changing(v);
        assert forall|m: Renaming| #[trigger] after.contains(m) <==> v.contains(m) && m.old
            != m.new by {
            if after.contains(m) {
                let i = choose|i: int| 0 <= i < after.len() && after[i] == m;
                if i < before.len() {
                    assert(before[i] == m);
                    assert(before.contains(m));
                    let k = choose|k: int| 0 <= k < v.drop_last().len() && v.drop_last()[k] == m;
                    assert(v[k] == m);
                } else {
                    assert(v[v.len() - 1] == m);
                }
            }
            if v.contains(m) && m.old != m.new {
                let k = choose|k: int| 0 <= k < v.len() && v[k] == m;
                if k < v.len() - 1 {
                    assert(v.drop_last()[k] == m);
                    assert(before.contains(m));
                    let i = choose|i: int| 0 <= i < before.len() && before[i] == m;
                    assert(after[i] == m);
                } else {
                    assert(after[after.len() - 1] == m);
                }
            }
        }
    }
}

/// Among the mappings that apply to a line, each old name that stands on the line is, or
/// is part of one that applies.
proof fn lemma_applicable(text: Seq<char>, v: Seq<Renaming>, j: int)
    requires
        0 <= j < v.len(),
        contains(text, v[j].old),
    ensures
        is_covered(applicable(text, v), v[j].old),
    decreases v.len(),
{
    let before = applicable(text, v.drop_last());
    let after = applicable(text, v);
    if j < v.len() - 1 {
        assert(v.drop_last()[j] == v[j]);
        lemma_applicable(text, v.drop_last(), j);
        let k = choose|k: int|
            0 <= k < before.len() && contains((#[trigger] before[k]).old, v[j].old);
        assert(after[k] == before[k]);
    } else if is_covered(before, v[j].old) {
        assert(after == before);
    } else {
        assert(after[after.len() - 1] == v[j]);
        let name = v[j].old;
        assert(name.subrange(0, name.len() as int) =~= name);
        assert(occurs_at(name, name, 0));
        contains_iff_occurs(name, name);
    }
}

proof fn lemma_applicable_from(text: Seq<char>, v: Seq<Renaming>, k: int)
    requires
        0 <= k < applicable(text, v).len(),
    ensures
        v.contains(applicable(text, v)[k]),
        contains(text, applicable(text, v)[k].old),
    decreases v.len(),
{
    if v.len() > 0 {
        let before = applicable(text, v.drop_last());
        if k < before.len() {
            lemma_applicable_from(text, v.drop_last(), k);
            assert(applicable(text, v)[k] == before[k]);
            let x = choose|x: int| 0 <= x < v.drop_last().len() && v.drop_last()[x] == before[k];
            assert(v[x] == before[k]);
        } else {
            assert(v[v.len() - 1] == applicable(text, v)[k]);
        }
    }
}

/// Whether an edit of a line renames a name of which `name` is part, by a mapping.
pub open spec fn renames_around(
    e: TextEditView,
    number: int,
    v: Seq<Renaming>,
    name: Seq<char>,
) -> bool {
    &&& e.line == number
    &&& contains(e.old_text, name)
    &&& exists|j: int| 0 <= j < v.len() && renames(e, number, #[trigger] v[j])
}

proof fn lemma_whole_file(
    all: Seq<Seq<char>>,
    n: int,
    v: Seq<Renaming>,
    rule_id: Seq<char>,
    i: int,
    name: Seq<char>,
)
    requires
        0 <= i < n <= all.len(),
        n <= u32::MAX,
        is_covered(applicable(all[i], longest_first(v)), name),
    ensures
        exists|x: int|
            0 <= x < whole_file_edits(all, n, longest_first(v), rule_id).len() && renames_around(
                #[trigger] whole_file_edits(all, n, longest_first(v), rule_id)[x],
                i + 1,
                v,
                name,
            ),
    decreases n,
{
    let sorted = longest_first(v);
    let before = whole_file_edits(all, n - 1, sorted, rule_id);
    let here = rename_edits(n as u32, applicable(all[n - 1], sorted), rule_id);
    let after = whole_file_edits(all, n, sorted, rule_id);
    if i < n - 1 {
        lemma_whole_file(all, n - 1, v, rule_id, i, name);
        let x = choose|x: int|
            0 <= x < before.len() && renames_around(#[trigger] before[x], i + 1, v, name);
        assert(after[x] == before[x]);
    } else {
        let used = applicable(all[i], sorted);
        let k = choose|k: int| 0 <= k < used.len() && contains((#[trigger] used[k]).old, name);
        assert(after[before.len() + k] == here[k]);
        lemma_applicable_from(all[i], sorted, k);
        longer_names_are_renamed_first(v);
        assert(changing(v).contains(used[k]));
        lemma_changing(v);
        let j = choose|j: int| 0 <= j < v.len() && v[j] == used[k];
        assert(renames(here[k], i + 1, v[j]));
    }
}

/// Where an imported name is renamed, every old name is renamed on every line of the file
/// that it stands on, by itself or as part of a longer old name.
pub proof fn names_in_the_file_are_renamed(
    rule_id: Seq<char>,
    incident: IncidentView,
    v: Seq<Renaming>,
    text: Seq<char>,
    i: int,
    j: int,
)
    requires
        incident.line_number is Some,
        incident.variables.dom().contains("importedName"@),
        lines(text).len() <= u32::MAX,
        0 <= i < lines(text).len(),
        0 <= j < v.len(),
        v[j].old != v[j].new,
        contains(lines(text)[i], v[j].old),
    ensures
        rename_of(rule_id, incident, v, Some(text)) matches Some(fix) && exists|x: int|
            0 <= x < fix.edits.len() && renames_around(
                #[trigger] fix.edits[x],
                i + 1,
                v,
                v[j].old,
            ),
{
    let sorted = longest_first(v);
    lemma_changing(v);
    longer_names_are_renamed_first(v);
    assert(v.contains(v[j]));
    assert(changing(v).contains(v[j]));
    assert(sorted.contains(v[j]));
    let k = choose|k: int| 0 <= k < sorted.len() && sorted[k] == v[j];
    lemma_applicable(lines(text)[i], sorted, k);
    lemma_whole_file(lines(text), lines(text).len() as int, v, rule_id, i, v[j].old);
    let edits = whole_file_edits(lines(text), lines(text).len() as int, sorted, rule_id);
    let x = choose|x: int|
        0 <= x < edits.len() && renames_around(#[trigger] edits[x], i + 1, v, v[j].old);
    assert(rename_of(rule_id, incident, v, Some(text))->0.edits[x] == edits[x]);
}

/// A change of a prefix replaces the prefix at every place of a line that holds it.
pub proof fn prefixes_are_replaced_everywhere(
    old_prefix: Seq<char>,
    new_prefix: Seq<char>,
    rule_id: Seq<char>,
    incident: IncidentView,
    text: Seq<char>,
    line: u32,
)
    requires
        incident.line_number == Some(line),
        !incident.variables.dom().contains("importedName"@),
        1 <= line <= lines(text).len() <= u32::MAX,
        old_prefix != new_prefix,
        contains(lines(text)[line - 1], old_prefix),
    ensures
        fix_of(
            FixStrategyView::CssVariablePrefix(old_prefix, new_prefix),
            rule_id,
            incident,
            Some(text),
        ) matches Some(fix) && has_renaming(
            fix.edits,
            line as int,
            Renaming { old: old_prefix, new: new_prefix },
        ) && forall|n: int| 0 <= n < fix.edits.len() ==> (#[trigger] fix.edits[n]).replace_all,
{
    let m = Renaming { old: old_prefix, new: new_prefix };
    let v = seq![m];
    assert(v[0] == m);
    if matched_for_rename(incident.variables, v) == old_prefix {
        names_around_are_renamed(rule_id, incident, v, text, line, 0, line - 1, 0);
    } else {
        names_on_the_line_are_renamed(rule_id, incident, v, text, line, 0);
    }
    let plain = rename_of(rule_id, incident, v, Some(text))->0;
    let fix = replacing_all(plain);
    let i = choose|i: int|
        0 <= i < plain.edits.len() && renames(#[trigger] plain.edits[i], line as int, m);
    assert(renames(fix.edits[i], line as int, m));
}

proof fn lemma_version_line(all: Seq<Seq<char>>, name: Seq<char>, i: int, k: int)
    requires
        0 <= i <= k < all.len(),
        is_version_line(all[k], name),
        forall|x: int| i <= x < k ==> !is_version_line(#[trigger] all[x], name),
    ensures
        version_line_from(all, name, i) == Some(k),
    decreases k - i,
{
    if i < k {
        assert(!is_version_line(all[i], name));
        lemma_version_line(all, name, i + 1, k);
    }
}

/// A dependency is updated on the first line that holds its name in quotes and a version
/// in quotes: the version there gives way to the new one, in quotes.
pub proof fn dependencies_are_updated_where_they_stand(
    package: Seq<char>,
    new_version: Seq<char>,
    rule_id: Seq<char>,
    incident: IncidentView,
    text: Seq<char>,
    k: int,
    found: (nat, nat, Seq<char>),
)
    requires
        lines(text).len() <= u32::MAX,
        regex_rejection(version_expression()) is None,
        0 <= k < lines(text).len(),
        contains(lines(text)[k], "\""@ + package + "\""@),
        regex_first(version_expression(), lines(text)[k]) == Some(found),
        forall|x: int|
            0 <= x < k ==> !(contains(#[trigger] lines(text)[x], "\""@ + package + "\""@)
                && regex_first(version_expression(), lines(text)[x]) is Some),
    ensures
        fix_of(
            FixStrategyView::UpdateDependency(package, new_version),
            rule_id,
            incident,
            Some(text),
        ) matches Some(fix) && fix.edits.len() == 1 && fix.edits[0].line == k + 1
            && fix.edits[0].old_text == found.2 && fix.edits[0].new_text == "\""@ + new_version
            + "\""@ && !fix.edits[0].replace_all && fix.file_uri == incident.file_uri,
{
    lemma_version_line(lines(text), quoted(package), 0, k);
}

/// A change of an import path is one edit of the line of the incident.
pub proof fn import_paths_are_changed_on_their_line(
    old_path: Seq<char>,
    new_path: Seq<char>,
    rule_id: Seq<char>,
    incident: IncidentView,
    source: Option<Seq<char>>,
)
    ensures
        match (
            incident.line_number,
            fix_of(
                FixStrategyView::ImportPathChange(old_path, new_path),
                rule_id,
                incident,
                source,
            ),
        ) {
            (Some(line), Some(fix)) => fix.edits.len() == 1 && renames(
                fix.edits[0],
                line as int,
                Renaming { old: old_path, new: new_path },
            ) && fix.file_uri == incident.file_uri && fix.line == line,
            (None, None) => true,
            _ => false,
        },
{
}

// ── Every incident is planned for ───────────────────────────────────────

/// Whether a plan holds what an incident asks for under a strategy: an item for manual
/// review, a request, or the fix.
pub open spec fn plans_for(
    plan: FixPlanView,
    strategy: FixStrategyView,
    rule_id: Seq<char>,
    labels: Seq<Seq<char>>,
    incident: IncidentView,
    path: Seq<char>,
    source: Option<Seq<char>>,
) -> bool {
    match strategy {
        FixStrategyView::Manual => exists|i: int|
            0 <= i < plan.manual.len() && reviews(#[trigger] plan.manual[i], rule_id, incident),
        FixStrategyView::Llm => exists|i: int|
            0 <= i < plan.pending_llm.len() && asks_for(
                #[trigger] plan.pending_llm[i],
                rule_id,
                labels,
                incident,
                path,
            ),
        _ => fix_of(strategy, rule_id, incident, source) matches Some(f) ==> fixes_at(
            plan.files,
            path,
        ).contains(f),
    }
}

/// Whether an item for manual review is for an incident.
pub open spec fn reviews(
    item: ManualFixItemView,
    rule_id: Seq<char>,
    incident: IncidentView,
) -> bool {
    &&& item.rule_id == rule_id
    &&& item.file_uri == incident.file_uri
    &&& item.message == incident.message
    &&& item.code_snip == incident.code_snip
    &&& incident.line_number matches Some(n) ==> item.line == n
}

/// Whether a request is for an incident.
pub open spec fn asks_for(
    request: LlmFixRequestView,
    rule_id: Seq<char>,
    labels: Seq<Seq<char>>,
    incident: IncidentView,
    path: Seq<char>,
) -> bool {
    &&& request.rule_id == rule_id
    &&& request.file_uri == incident.file_uri
    &&& request.file_path == path
    &&& request.message == incident.message
    &&& request.code_snip == incident.code_snip
    &&& request.labels == labels
    &&& incident.line_number matches Some(n) ==> request.line == n
}

/// Whether a plan holds all that another one holds.
pub open spec fn holds_all_of(plan: FixPlanView, before: FixPlanView) -> bool {
    &&& before.manual.is_prefix_of(plan.manual)
    &&& before.pending_llm.is_prefix_of(plan.pending_llm)
    &&& forall|path: Seq<char>| #[trigger] fixes_at(before.files, path).is_prefix_of(
        fixes_at(plan.files, path),
    )
}

proof fn lemma_holds_more(a: FixPlanView, b: FixPlanView, c: FixPlanView)
    requires
        holds_all_of(b, a),
        holds_all_of(c, b),
    ensures
        holds_all_of(c, a),
{
    assert forall|path: Seq<char>| #[trigger] fixes_at(a.files, path).is_prefix_of(
        fixes_at(c.files, path),
    ) by {
        assert(fixes_at(a.files, path).is_prefix_of(fixes_at(b.files, path)));
        assert(fixes_at(b.files, path).is_prefix_of(fixes_at(c.files, path)));
    }
}

proof fn lemma_still_planned(
    plan: FixPlanView,
    before: FixPlanView,
    strategy: FixStrategyView,
    rule_id: Seq<char>,
    labels: Seq<Seq<char>>,
    incident: IncidentView,
    path: Seq<char>,
    source: Option<Seq<char>>,
)
    requires
        holds_all_of(plan, before),
        plans_for(before, strategy, rule_id, labels, incident, path, source),
    ensures
        plans_for(plan, strategy, rule_id, labels, incident, path, source),
{
    match strategy {
        FixStrategyView::Manual => {
            let i = choose|i: int|
                0 <= i < before.manual.len() && reviews(
                    #[trigger] before.manual[i],
                    rule_id,
                    incident,
                );
            assert(plan.manual[i] == before.manual[i]);
        },
        FixStrategyView::Llm => {
            let i = choose|i: int|
                0 <= i < before.pending_llm.len() && asks_for(
                    #[trigger] before.pending_llm[i],
                    rule_id,
                    labels,
                    incident,
                    path,
                );
            assert(plan.pending_llm[i] == before.pending_llm[i]);
        },
        _ => {
            if let Some(f) = fix_of(strategy, rule_id, incident, source) {
                let old_fixes = fixes_at(before.files, path);
                let new_fixes = fixes_at(plan.files, path);
                assert(old_fixes.is_prefix_of(new_fixes));
                let i = choose|i: int| 0 <= i < old_fixes.len() && old_fixes[i] == f;
                assert(new_fixes[i] == f);
            }
        },
    }
}

proof fn lemma_incident_planned(
    plan: FixPlanView,
    strategy: FixStrategyView,
    rule_id: Seq<char>,
    labels: Seq<Seq<char>>,
    incident: IncidentView,
    root: Seq<char>,
    sources: Map<Seq<char>, SourceView>,
)
    ensures
        ({
            let path = path_of_uri(incident.file_uri, root);
            let next = with_incident(plan, strategy, rule_id, labels, incident, root, sources);
            holds_all_of(next, plan) && (!in_node_modules(path) ==> plans_for(
                next,
                strategy,
                rule_id,
                labels,
                incident,
                path,
                readable(sources, path),
            ))
        }),
{
    let path = path_of_uri(incident.file_uri, root);
    let next = with_incident(plan, strategy, rule_id, labels, incident, root, sources);
    if !in_node_modules(path) {
        match strategy {
            FixStrategyView::Manual => {
                assert(next.manual[next.manual.len() - 1] == manual_item_of(rule_id, incident));
                assert(reviews(next.manual[next.manual.len() - 1], rule_id, incident));
            },
            FixStrategyView::Llm => {
                let last = next.pending_llm[next.pending_llm.len() - 1];
                assert(last == request_of(rule_id, incident, path, labels));
                assert(asks_for(last, rule_id, labels, incident, path));
            },
            _ => {
                if let Some(f) = fix_of(strategy, rule_id, incident, readable(sources, path)) {
                    let fixes = fixes_at(next.files, path);
                    assert(fixes == fixes_at(plan.files, path).push(f));
                    assert(fixes[fixes.len() - 1] == f);
                }
            },
        }
    }
    assert forall|other: Seq<char>| #[trigger] fixes_at(plan.files, other).is_prefix_of(
        fixes_at(next.files, other),
    ) by {
        if other == path {
        } else {
            assert(fixes_at(next.files, other) == fixes_at(plan.files, other));
        }
    }
}

proof fn lemma_incidents_planned(
    plan: FixPlanView,
    strategy: FixStrategyView,
    rule_id: Seq<char>,
    labels: Seq<Seq<char>>,
    v: Seq<Incident>,
    root: Seq<char>,
    sources: Map<Seq<char>, SourceView>,
)
    ensures
        ({
            let next = with_incidents(plan, strategy, rule_id, labels, v, root, sources);
            &&& holds_all_of(next, plan)
            &&& forall|i: int|
                0 <= i < v.len() && !in_node_modules(
                    path_of_uri((#[trigger] v[i])@.file_uri, root),
                ) ==> plans_for(
                    next,
                    strategy,
                    rule_id,
                    labels,
                    v[i]@,
                    path_of_uri(v[i]@.file_uri, root),
                    readable(sources, path_of_uri(v[i]@.file_uri, root)),
                )
        }),
    decreases v.len(),
{
    if v.len() > 0 {
        lemma_incidents_planned(plan, strategy, rule_id, labels, v.drop_last(), root, sources);
        let before = with_incidents(
            plan,
            strategy,
            rule_id,
            labels,
            v.drop_last(),
            root,
            sources,
        );
        let next = with_incidents(plan, strategy, rule_id, labels, v, root, sources);
        lemma_incident_planned(before, strategy, rule_id, labels, v.last()@, root, sources);
        lemma_holds_more(plan, before, next);
        assert forall|i: int|
            0 <= i < v.len() && !in_node_modules(
                path_of_uri((#[trigger] v[i])@.file_uri, root),
            ) implies plans_for(
            next,
            strategy,
            rule_id,
            labels,
            v[i]@,
            path_of_uri(v[i]@.file_uri, root),
            readable(sources, path_of_uri(v[i]@.file_uri, root)),
        ) by {
            if i < v.len() - 1 {
                let path = path_of_uri(v[i]@.file_uri, root);
                assert(v.drop_last()[i] == v[i]);
                lemma_still_planned(
                    next,
                    before,
                    strategy,
                    rule_id,
                    labels,
                    v[i]@,
                    path,
                    readable(sources, path),
                );
            }
        }
    }
}

proof fn lemma_violations_grow(
    plan: FixPlanView,
    ruleset: RuleSet,
    n: int,
    m: int,
    strategies: Map<Seq<char>, FixStrategyView>,
    root: Seq<char>,
    sources: Map<Seq<char>, SourceView>,
)
    requires
        n <= m,
    ensures
        holds_all_of(
            with_violations(plan, ruleset, m, strategies, root, sources),
            with_violations(plan, ruleset, n, strategies, root, sources),
        ),
    decreases m - n,
{
    if n < m && m > 0 {
        lemma_violations_grow(plan, ruleset, n, m - 1, strategies, root, sources);
        let before = with_violations(plan, ruleset, m - 1, strategies, root, sources);
        let next = with_violations(plan, ruleset, m, strategies, root, sources);
        let rule_id = ruleset.violations.keys()[m - 1];
        let violation = ruleset.violations.values()[m - 1];
        let labels = texts(violation.labels@);
        lemma_incidents_planned(
            before,
            strategy_for(strategies, rule_id, labels),
            rule_id,
            labels,
            violation.incidents@,
            root,
            sources,
        );
        lemma_holds_more(
            with_violations(plan, ruleset, n, strategies, root, sources),
            before,
            next,
        );
    }
}

proof fn lemma_rulesets_grow(
    v: Seq<RuleSet>,
    k: int,
    strategies: Map<Seq<char>, FixStrategyView>,
    root: Seq<char>,
    sources: Map<Seq<char>, SourceView>,
)
    requires
        0 <= k <= v.len(),
    ensures
        holds_all_of(
            with_rulesets(v, strategies, root, sources),
            with_rulesets(v.take(k), strategies, root, sources),
        ),
    decreases v.len() - k,
{
    if k < v.len() {
        lemma_rulesets_grow(v, k + 1, strategies, root, sources);
        assert(v.take(k + 1).drop_last() =~= v.take(k));
        let before = with_rulesets(v.take(k), strategies, root, sources);
        let count = v[k].violations.keys().len() as int;
        lemma_violations_grow(before, v[k], 0, count, strategies, root, sources);
        lemma_holds_more(
            before,
            with_rulesets(v.take(k + 1), strategies, root, sources),
            with_rulesets(v, strategies, root, sources),
        );
    } else {
        assert(v.take(k) =~= v);
    }
}

proof fn lemma_ruleset_planned(
    output: Seq<RuleSet>,
    root: Seq<char>,
    strategies: Map<Seq<char>, FixStrategyView>,
    sources: Map<Seq<char>, SourceView>,
    r: int,
    n: int,
    i: int,
    rule_id: Seq<char>,
    violation: Violation,
    path: Seq<char>,
)
    requires
        0 <= r < output.len(),
        0 <= n < output[r].violations.keys().len(),
        rule_id == output[r].violations.keys()[n],
        violation == output[r].violations.values()[n],
        0 <= i < violation.incidents@.len(),
        path == path_of_uri(violation.incidents@[i]@.file_uri, root),
        !in_node_modules(path),
    ensures
        plans_for(
            with_rulesets(output, strategies, root, sources),
            strategy_for(strategies, rule_id, texts(violation.labels@)),
            rule_id,
            texts(violation.labels@),
            violation.incidents@[i]@,
            path,
            readable(sources, path),
        ),
{
    let labels = texts(violation.labels@);
    let incident = violation.incidents@[i]@;
    let strategy = strategy_for(strategies, rule_id, labels);
    let source = readable(sources, path);
    let count = output[r].violations.keys().len() as int;
    let before = with_rulesets(output.take(r), strategies, root, sources);
    let start = with_violations(before, output[r], n, strategies, root, sources);
    let here = with_violations(before, output[r], n + 1, strategies, root, sources);
    let all = with_violations(before, output[r], count, strategies, root, sources);
    let upto = with_rulesets(output.take(r + 1), strategies, root, sources);
    let whole = with_rulesets(output, strategies, root, sources);
    assert(plans_for(here, strategy, rule_id, labels, incident, path, source)) by {
        lemma_incidents_planned(
            start,
            strategy,
            rule_id,
            labels,
            violation.incidents@,
            root,
            sources,
        );
    }
    lemma_violations_grow(before, output[r], n + 1, count, strategies, root, sources);
    lemma_still_planned(all, here, strategy, rule_id, labels, incident, path, source);
    assert(all == upto) by {
        assert(output.take(r + 1).drop_last() =~= output.take(r));
        assert(output.take(r + 1).last() == output[r]);
    }
    lemma_rulesets_grow(output, r + 1, strategies, root, sources);
    lemma_still_planned(whole, upto, strategy, rule_id, labels, incident, path, source);
}

proof fn lemma_sorted_planned(
    sorted: FixPlanView,
    plan: FixPlanView,
    strategy: FixStrategyView,
    rule_id: Seq<char>,
    labels: Seq<Seq<char>>,
    incident: IncidentView,
    path: Seq<char>,
    source: Option<Seq<char>>,
)
    requires
        plans_for(plan, strategy, rule_id, labels, incident, path, source),
        sorted.manual == plan.manual,
        sorted.pending_llm == plan.pending_llm,
        plan.files.dom().contains(path) ==> sorted.files.dom().contains(path)
            && sorted.files[path] == bottom_up(plan.files[path]),
    ensures
        plans_for(sorted, strategy, rule_id, labels, incident, path, source),
{
    if !(strategy is Manual) && !(strategy is Llm) {
        if let Some(f) = fix_of(strategy, rule_id, incident, source) {
            fixes_run_bottom_up(plan.files[path]);
            assert(bottom_up(plan.files[path]).contains(f));
        }
    }
}

/// Every incident of an analysis is planned for by the strategy of its rule, unless it
/// lies in an installed package: as an item for manual review, as a request, or with its
/// fix among those of its file.
pub proof fn every_incident_is_planned_for(
    output: Seq<RuleSet>,
    root: Seq<char>,
    strategies: Map<Seq<char>, FixStrategyView>,
    sources: Map<Seq<char>, SourceView>,
    r: int,
    n: int,
    i: int,
)
    requires
        0 <= r < output.len(),
        0 <= n < output[r].violations.keys().len(),
        output[r].violations.values().len() == output[r].violations.keys().len(),
        0 <= i < output[r].violations.values()[n].incidents@.len(),
        !in_node_modules(
            path_of_uri(output[r].violations.values()[n].incidents@[i]@.file_uri, root),
        ),
    ensures
        ({
            let rule_id = output[r].violations.keys()[n];
            let violation = output[r].violations.values()[n];
            let incident = violation.incidents@[i]@;
            let path = path_of_uri(incident.file_uri, root);
            plans_for(
                plan_of(output, root, strategies, sources),
                strategy_for(strategies, rule_id, texts(violation.labels@)),
                rule_id,
                texts(violation.labels@),
                incident,
                path,
                readable(sources, path),
            )
        }),
{
    let rule_id = output[r].violations.keys()[n];
    let violation = output[r].violations.values()[n];
    let path = path_of_uri(violation.incidents@[i]@.file_uri, root);
    lemma_ruleset_planned(
        output,
        root,
        strategies,
        sources,
        r,
        n,
        i,
        rule_id,
        violation,
        path,
    );
    lemma_sorted_planned(
        plan_of(output, root, strategies, sources),
        with_rulesets(output, strategies, root, sources),
        strategy_for(strategies, rule_id, texts(violation.labels@)),
        rule_id,
        texts(violation.labels@),
        violation.incidents@[i]@,
        path,
        readable(sources, path),
    );
}

/// A path under a directory has one separator between; an absolute one stays as it is.
pub proof fn paths_are_joined_by_one_separator(base: Seq<char>, path: Seq<char>)
    requires
        base.len() > 0,
        path.len() > 0,
    ensures
        path[0] == '/' ==> joined_path(base, path) == path,
        path[0] != '/' && base.last() == '/' ==> joined_path(base, path) == base + path,
        path[0] != '/' && base.last() != '/' ==> joined_path(base, path) == base + seq!['/'] + path,
{
    reveal_strlit("/");
    assert("/"@ =~= seq!['/']);
    assert(path.subrange(0, 1) =~= seq![path[0]]);
    assert(base.subrange(base.len() - 1, base.len() as int) =~= seq![base.last()]);
    if path[0] != '/' && starts_with(path, "/"@) {
        assert(seq![path[0]][0] == "/"@[0]);
    }
    if base.last() != '/' && ends_with(base, "/"@) {
        assert(seq![base.last()][0] == "/"@[0]);
    }
}

/// The path of a file URI is what stands behind the scheme; without a scheme the whole is a
/// path. A relative one lies under the root of the project.
pub proof fn uris_tell_their_paths(path: Seq<char>, root: Seq<char>)
    requires
        path.len() > 0,
        root.len() > 0,
    ensures
        path_of_uri("file://"@ + path, root) == path_spelt(joined_path(root, path)),
        path[0] == '/' ==> path_of_uri("file://"@ + path, root) == path_spelt(path) && path_of_uri(
            path,
            root,
        ) == path_spelt(path),
        path[0] != '/' && path[0] != 'f' && root.last() != '/' ==> path_of_uri(path, root)
            == path_spelt(root + seq!['/'] + path),
{
    let uri = "file://"@ + path;
    reveal_strlit("file://");
    assert(uri.subrange(0, 7) =~= "file://"@);
    assert(uri.skip(7) =~= path);
    if starts_with(path, "file://"@) {
        assert(path.subrange(0, 7)[0] == "file://"@[0]);
    }
    paths_are_joined_by_one_separator(root, path);
}

/// The mappings that rename something are those whose names differ, in their order.
pub proof fn renamings_to_the_same_name_are_dropped(v: Seq<Renaming>)
    ensures
        changing(v) == v.filter(|m: Renaming| m.old != m.new),
    decreases v.len(),
{
    reveal(Seq::filter);
    if v.len() > 0 {
        renamings_to_the_same_name_are_dropped(v.drop_last());
    }
}

/// A label on the removal of a prop stands for removing it, one on what has to be looked at
/// for a review, and any other for nothing.
pub proof fn labels_stand_for_strategies(label: Seq<char>)
    ensures
        ({
            let removal = label == "change-type=prop-removal"@ || label
                == "konveyor.io/fix=prop-removal"@;
            let review = label == "change-type=dom-structure"@ || label
                == "change-type=behavioral"@ || label == "change-type=accessibility"@ || label
                == "change-type=interface-removal"@ || label == "change-type=module-export"@
                || label == "change-type=other"@;
            &&& strategy_of_label(label) == Some(FixStrategyView::RemoveProp) <==> removal
            &&& strategy_of_label(label) == Some(FixStrategyView::Manual) <==> review && !removal
            &&& strategy_of_label(label) is None <==> !removal && !review
        }),
{
}

/// A request for a fix and an item for a review tell the incident: its file, its line, its
/// message and its code.
pub proof fn requests_tell_their_incident(
    rule_id: Seq<char>,
    incident: IncidentView,
    path: Seq<char>,
    labels: Seq<Seq<char>>,
)
    ensures
        ({
            let q = request_of(rule_id, incident, path, labels);
            let m = manual_item_of(rule_id, incident);
            &&& q.rule_id == rule_id && m.rule_id == rule_id
            &&& q.file_uri == incident.file_uri && m.file_uri == incident.file_uri
            &&& q.file_path == path && q.labels == labels
            &&& q.message == incident.message && m.message == incident.message
            &&& q.code_snip == incident.code_snip && m.code_snip == incident.code_snip
            &&& incident.line_number matches Some(n) ==> q.line == n && m.line == n
        }),
{
}

} // verus!
