//! Applying and previewing fix plans.

use crate::engine::{sources_view, SourceView, Sources};
use crate::fix::{
    edit_views, fix_views, FixPlan, FixResult, PlannedFix, PlannedFixView, TextEdit, TextEditView,
};
use crate::js_fix::{deduplicated, deduplicated_lines, line_position, JsFixProvider};
use crate::text::{
    are_parts, cat3, cat5, contains, contains_text, lemma_in_pushed, lemma_part_of_part,
    lemma_stands_in, lemma_stands_in_more, decimal, decimal_text, decimal_wide, ends_with,
    ends_with_text, held, join, join_texts, lemma_texts_push, lines, lines_text,
    occurrences_are_replaced, replace_all, replace_all_text, replace_first, replace_first_text,
    replaced_texts_are_gone, same_text, share_nothing, split, split_text, starts_with, texts,
};
use vstd::prelude::*;

verus! {

// ── Edits of a file ─────────────────────────────────────────────────────

/// All edits of fixes, in order.
pub open spec fn all_edits(fixes: Seq<PlannedFixView>) -> Seq<TextEditView>
    decreases fixes.len(),
{
    if fixes.len() == 0 {
        Seq::empty()
    } else {
        all_edits(fixes.drop_last()) + fixes.last().edits
    }
}

/// Whether an edit changes a line of a file: the line is there and holds the text.
pub open spec fn takes_effect(all: Seq<Seq<char>>, e: TextEditView) -> bool {
    line_position(e.line) < all.len() && contains(all[line_position(e.line)], e.old_text)
}

/// A line after an edit.
pub open spec fn edited(line: Seq<char>, e: TextEditView) -> Seq<char> {
    if e.replace_all {
        replace_all(line, e.old_text, e.new_text)
    } else {
        replace_first(line, e.old_text, e.new_text)
    }
}

/// The lines of a file after an edit.
pub open spec fn after_edit(all: Seq<Seq<char>>, e: TextEditView) -> Seq<Seq<char>> {
    if takes_effect(all, e) {
        all.update(line_position(e.line), edited(all[line_position(e.line)], e))
    } else {
        all
    }
}

pub open spec fn same_edit(a: TextEditView, b: TextEditView) -> bool {
    a.line == b.line && a.old_text == b.old_text && a.new_text == b.new_text
}

/// Whether the same edit stands before position `k`.
pub open spec fn is_repeat(edits: Seq<TextEditView>, k: int) -> bool {
    exists|j: int| 0 <= j < k && same_edit(#[trigger] edits[j], edits[k])
}

/// The lines after the first `n` edits, each applied once.
pub open spec fn lines_after(
    all: Seq<Seq<char>>,
    edits: Seq<TextEditView>,
    n: int,
) -> Seq<Seq<char>>
    decreases n,
{
    if n <= 0 {
        all
    } else if is_repeat(edits, n - 1) {
        lines_after(all, edits, n - 1)
    } else {
        after_edit(lines_after(all, edits, n - 1), edits[n - 1])
    }
}

/// How many of the first `n` edits take effect.
pub open spec fn applied_count(all: Seq<Seq<char>>, edits: Seq<TextEditView>, n: int) -> nat
    decreases n,
{
    if n <= 0 {
        0
    } else {
        applied_count(all, edits, n - 1) + if !is_repeat(edits, n - 1) && takes_effect(
            lines_after(all, edits, n - 1),
            edits[n - 1],
        ) {
            1nat
        } else {
            0nat
        }
    }
}

/// How many of the first `n` edits find nothing to change.
pub open spec fn skipped_count(all: Seq<Seq<char>>, edits: Seq<TextEditView>, n: int) -> nat
    decreases n,
{
    if n <= 0 {
        0
    } else {
        skipped_count(all, edits, n - 1) + if !is_repeat(edits, n - 1) && !takes_effect(
            lines_after(all, edits, n - 1),
            edits[n - 1],
        ) {
            1nat
        } else {
            0nat
        }
    }
}

/// How many different edits are among the first `n`.
pub open spec fn distinct_count(edits: Seq<TextEditView>, n: int) -> nat
    decreases n,
{
    if n <= 0 {
        0
    } else {
        distinct_count(edits, n - 1) + if is_repeat(edits, n - 1) {
            0nat
        } else {
            1nat
        }
    }
}

/// Every different edit is counted once, as applied or as skipped.
pub proof fn edits_are_applied_or_skipped(
    all: Seq<Seq<char>>,
    edits: Seq<TextEditView>,
    n: int,
)
    ensures
        applied_count(all, edits, n) + skipped_count(all, edits, n) == distinct_count(edits, n),
    decreases n,
{
    if n > 0 {
        edits_are_applied_or_skipped(all, edits, n - 1);
    }
}

/// Edits change no line but their own: the number of lines stays, and a line that
/// no edit names keeps its text.
pub proof fn edits_stay_on_their_lines(
    all: Seq<Seq<char>>,
    edits: Seq<TextEditView>,
    n: int,
    i: int,
)
    requires
        0 <= n <= edits.len(),
        0 <= i < all.len(),
        forall|k: int| 0 <= k < n ==> line_position((#[trigger] edits[k]).line) != i,
    ensures
        lines_after(all, edits, n).len() == all.len(),
        lines_after(all, edits, n)[i] == all[i],
    decreases n,
{
    if n > 0 {
        edits_stay_on_their_lines(all, edits, n - 1, i);
        assert(line_position(edits[n - 1].line) != i);
    }
}

/// Where no edit takes effect, the file stays as it is.
pub proof fn no_effect_no_change(all: Seq<Seq<char>>, edits: Seq<TextEditView>, n: int)
    requires
        applied_count(all, edits, n) == 0,
    ensures
        lines_after(all, edits, n) == all,
    decreases n,
{
    if n > 0 {
        no_effect_no_change(all, edits, n - 1);
    }
}

/// An edit puts its new text in place of its old one, on its line and nowhere else:
/// wherever the old one stands where all are replaced, else at the first place. A line
/// is told by what stands between the occurrences of the old text on it.
pub proof fn edits_replace_their_text(
    all: Seq<Seq<char>>,
    e: TextEditView,
    i: int,
    parts: Seq<Seq<char>>,
)
    requires
        0 <= i < all.len(),
        e.old_text.len() > 0,
        are_parts(parts, e.old_text),
        all[i] == join(parts, e.old_text),
    ensures
        after_edit(all, e).len() == all.len(),
        e.line != i + 1 && !(e.line == 0 && i == 0) ==> after_edit(all, e)[i] == all[i],
        e.line == i + 1 && e.replace_all ==> after_edit(all, e)[i] == join(parts, e.new_text),
        e.line == i + 1 && !e.replace_all && parts.len() > 1 ==> after_edit(all, e)[i] == parts[0]
            + e.new_text + join(parts.skip(1), e.old_text),
        e.line == i + 1 && parts.len() == 1 ==> after_edit(all, e)[i] == all[i],
{
    occurrences_are_replaced(parts, e.old_text, e.new_text);
    if parts.len() == 1 {
        assert(join(parts, e.new_text) == parts[0]);
    }
}

/// An edit that replaces all leaves no occurrence of its old text on its line, where the
/// new text has no character in common with it.
pub proof fn edits_leave_no_occurrence(all: Seq<Seq<char>>, e: TextEditView)
    requires
        1 <= e.line <= all.len(),
        e.replace_all,
        e.old_text.len() > 0,
        e.new_text.len() > 0,
        share_nothing(e.old_text, e.new_text),
    ensures
        !contains(after_edit(all, e)[e.line - 1], e.old_text),
{
    replaced_texts_are_gone(all[e.line - 1], e.old_text, e.new_text);
}

/// The text of a file after fixes: its lines edited and cleaned up, with a line
/// feed at the end where it had one.
pub open spec fn text_after(source: Seq<char>, fixes: Seq<PlannedFixView>) -> Seq<char> {
    let edits = all_edits(fixes);
    let body = join(
        deduplicated_lines(lines_after(lines(source), edits, edits.len() as int)),
        "\n"@,
    );
    if ends_with(source, "\n"@) {
        body + seq!['\n']
    } else {
        body
    }
}

/// A file after fixes.
pub struct AppliedFile {
    /// The new text, where an edit took effect.
    pub output: Option<String>,
    pub applied: usize,
    pub skipped: usize,
}

/// The contents of references to edits.
pub open spec fn edit_refs(v: Seq<&TextEdit>) -> Seq<TextEditView> {
    Seq::new(v.len(), |i: int| v[i]@)
}

fn collect_edits<'a>(fixes: &'a Vec<PlannedFix>) -> (r: Vec<&'a TextEdit>)
    ensures
        edit_refs(r@) == all_edits(fix_views(fixes@)),
{
    let ghost v = fix_views(fixes@);
    let mut out: Vec<&'a TextEdit> = Vec::new();
    let mut i: usize = 0;
    assert(edit_refs(out@) =~= Seq::<TextEditView>::empty());
    while i < fixes.len()
        invariant
            i <= fixes@.len(),
            v == fix_views(fixes@),
            edit_refs(out@) == all_edits(v.take(i as int)),
        decreases fixes@.len() - i,
    {
        assert(v.take(i + 1).drop_last() =~= v.take(i as int));
        let edits = &fixes[i].edits;
        let ghost before = edit_refs(out@);
        let mut k: usize = 0;
        assert(before + edit_views(edits@).take(0) =~= before);
        while k < edits.len()
            invariant
                k <= edits@.len(),
                edit_refs(out@) == before + edit_views(edits@).take(k as int),
            decreases edits@.len() - k,
        {
            let ghost prior = out@;
            out.push(&edits[k]);
            assert(edit_refs(out@) =~= edit_refs(prior).push(edits@[k as int]@));
            assert(edit_views(edits@).take(k + 1) =~= edit_views(edits@).take(k as int).push(
                edits@[k as int]@,
            ));
            assert(edit_refs(out@) =~= before + edit_views(edits@).take(k + 1));
            k = k + 1;
        }
        assert(edit_views(edits@).take(edits@.len() as int) =~= edit_views(edits@));
        i = i + 1;
    }
    assert(v.take(v.len() as int) =~= v);
    out
}

fn repeats(edits: &Vec<&TextEdit>, k: usize) -> (r: bool)
    requires
        k < edits@.len(),
    ensures
        r == is_repeat(edit_refs(edits@), k as int),
{
    let ghost v = edit_refs(edits@);
    let mut j: usize = 0;
    while j < k
        invariant
            j <= k < edits@.len(),
            v == edit_refs(edits@),
            forall|x: int| 0 <= x < j ==> !same_edit(#[trigger] v[x], v[k as int]),
        decreases k - j,
    {
        let a = edits[j];
        let b = edits[k];
        if a.line == b.line && same_text(a.old_text.as_str(), b.old_text.as_str()) && same_text(
            a.new_text.as_str(),
            b.new_text.as_str(),
        ) {
            assert(same_edit(v[j as int], v[k as int]));
            return true;
        }
        j = j + 1;
    }
    false
}

/// Applies an edit; says whether it took effect.
fn apply_edit(all: &mut Vec<String>, e: &TextEdit) -> (r: bool)
    ensures
        r == takes_effect(texts(old(all)@), e@),
        texts(final(all)@) == after_edit(texts(old(all)@), e@),
{
    let at: u32 = e.line.saturating_sub(1);
    let ghost before = texts(all@);
    if (at as usize) < all.len() {
        let i: usize = at as usize;
        assert(before[i as int] == all@[i as int]@);
        if contains_text(all[i].as_str(), e.old_text.as_str()) {
            let line = if e.replace_all {
                replace_all_text(all[i].as_str(), e.old_text.as_str(), e.new_text.as_str())
            } else {
                replace_first_text(all[i].as_str(), e.old_text.as_str(), e.new_text.as_str())
            };
            let ghost l = line@;
            all.set(i, line);
            assert(texts(all@) =~= before.update(i as int, l));
            return true;
        }
    }
    false
}

/// Applies the fixes of a file to its text. Each different edit is applied once;
/// an edit whose text is not on its line is skipped.
pub fn apply_to_source(source: &str, fixes: &Vec<PlannedFix>, lang: &JsFixProvider) -> (r:
    AppliedFile)
    ensures
        ({
            let edits = all_edits(fix_views(fixes@));
            let n = edits.len() as int;
            &&& r.applied as nat == applied_count(lines(source@), edits, n)
            &&& r.skipped as nat == skipped_count(lines(source@), edits, n)
            &&& match r.output {
                Some(t) => r.applied > 0 && t@ == text_after(source@, fix_views(fixes@)),
                None => r.applied == 0,
            }
        }),
{
    let edits = collect_edits(fixes);
    let ghost v = all_edits(fix_views(fixes@));
    let mut all = lines_text(source);
    let ghost begin = lines(source@);
    let mut applied: usize = 0;
    let mut skipped: usize = 0;
    let mut k: usize = 0;
    while k < edits.len()
        invariant
            k <= edits@.len(),
            v == edit_refs(edits@),
            texts(all@) == lines_after(begin, v, k as int),
            applied as nat == applied_count(begin, v, k as int),
            skipped as nat == skipped_count(begin, v, k as int),
            applied + skipped <= k,
        decreases edits@.len() - k,
    {
        if !repeats(&edits, k) {
            if apply_edit(&mut all, edits[k]) {
                applied = applied + 1;
            } else {
                skipped = skipped + 1;
            }
        }
        k = k + 1;
    }
    if applied == 0 {
        return AppliedFile { output: None, applied, skipped };
    }
    lang.post_process_lines(&mut all);
    let mut output = join_texts(&all, "\n");
    if ends_with_text(source, "\n") {
        let ghost body = output@;
        output.push('\n');
        assert(output@ =~= body + seq!['\n']);
    }
    AppliedFile { output: Some(output), applied, skipped }
}

// ── Applying a plan ─────────────────────────────────────────────────────

/// A file to write.
pub struct FileWrite {
    pub path: String,
    pub content: String,
}

/// Why a file could not be read.
pub open spec fn read_error(path: Seq<char>, sources: Map<Seq<char>, SourceView>) -> Seq<char> {
    path + ": "@ + if sources.dom().contains(path) {
        match sources[path] {
            Ok(s) => Seq::empty(),
            Err(e) => e,
        }
    } else {
        Seq::empty()
    }
}

/// What has been done with the first `n` files of a plan.
pub ghost struct Applied {
    pub writes: Seq<(Seq<char>, Seq<char>)>,
    pub errors: Seq<Seq<char>>,
    pub applied: nat,
    pub skipped: nat,
}

pub open spec fn applied_files(
    keys: Seq<Seq<char>>,
    fixes: Seq<Vec<PlannedFix>>,
    sources: Map<Seq<char>, SourceView>,
    n: int,
) -> Applied
    decreases n,
{
    if n <= 0 {
        Applied { writes: Seq::empty(), errors: Seq::empty(), applied: 0, skipped: 0 }
    } else {
        let before = applied_files(keys, fixes, sources, n - 1);
        let path = keys[n - 1];
        let planned = fix_views(fixes[n - 1]@);
        let edits = all_edits(planned);
        match crate::engine::readable(sources, path) {
            Some(source) => {
                let count = applied_count(lines(source), edits, edits.len() as int);
                Applied {
                    writes: if count > 0 {
                        before.writes.push((path, text_after(source, planned)))
                    } else {
                        before.writes
                    },
                    errors: before.errors,
                    applied: before.applied + count,
                    skipped: before.skipped + skipped_count(
                        lines(source),
                        edits,
                        edits.len() as int,
                    ),
                }
            },
            None => Applied { errors: before.errors.push(read_error(path, sources)), ..before },
        }
    }
}

/// The contents of files to write.
pub open spec fn write_views(v: Seq<FileWrite>) -> Seq<(Seq<char>, Seq<char>)> {
    Seq::new(v.len(), |i: int| (v[i].path@, v[i].content@))
}

fn read_failure(path: &str, sources: &Sources) -> (r: String)
    ensures
        r@ == read_error(path@, sources_view(*sources)),
{
    match sources.get(path) {
        Some(Err(e)) => cat3(path, ": ", e.as_str()),
        _ => {
            let r = cat3(path, ": ", "");
            proof {
                reveal_strlit("");
            }
            assert(""@ =~= Seq::<char>::empty());
            r
        },
    }
}

/// Applies a plan to file contents: what to write to which file, and what was
/// done. Counts beyond the largest number stay there.
pub fn apply_fixes(plan: &FixPlan, lang: &JsFixProvider, sources: &Sources) -> (r: (
    FixResult,
    Vec<FileWrite>,
))
    ensures
        ({
            let done = applied_files(
                plan.files.keys(),
                plan.files.values(),
                sources_view(*sources),
                plan.files.keys().len() as int,
            );
            &&& write_views(r.1@) == done.writes
            &&& texts(r.0.errors@) == done.errors
            &&& r.0.files_modified == done.writes.len()
            &&& r.0.edits_applied == held(done.applied)
            &&& r.0.edits_skipped == held(done.skipped)
        }),
{
    let ghost keys = plan.files.keys();
    let ghost values = plan.files.values();
    let ghost sv = sources_view(*sources);
    let n: usize = plan.files.len();
    let mut writes: Vec<FileWrite> = Vec::new();
    let mut errors: Vec<String> = Vec::new();
    let mut applied: usize = 0;
    let mut skipped: usize = 0;
    let mut i: usize = 0;
    assert(write_views(writes@) =~= Seq::<(Seq<char>, Seq<char>)>::empty());
    assert(texts(errors@) =~= Seq::<Seq<char>>::empty());
    while i < n
        invariant
            i <= n,
            n == keys.len(),
            n == values.len(),
            keys == plan.files.keys(),
            values == plan.files.values(),
            sv == sources_view(*sources),
            write_views(writes@) == applied_files(keys, values, sv, i as int).writes,
            texts(errors@) == applied_files(keys, values, sv, i as int).errors,
            applied == held(applied_files(keys, values, sv, i as int).applied),
            skipped == held(applied_files(keys, values, sv, i as int).skipped),
        decreases n - i,
    {
        let path = plan.files.key_at(i);
        let fixes = plan.files.value_at(i);
        match crate::engine::readable_source(sources, path.as_str()) {
            Some(source) => {
                let done = apply_to_source(source.as_str(), fixes, lang);
                applied = applied.saturating_add(done.applied);
                skipped = skipped.saturating_add(done.skipped);
                if let Some(content) = done.output {
                    let ghost before = writes@;
                    let ghost c = content@;
                    writes.push(FileWrite { path: path.clone(), content });
                    assert(write_views(writes@) =~= write_views(before).push((path@, c)));
                }
            },
            None => {
                let message = read_failure(path.as_str(), sources);
                proof {
                    lemma_texts_push(errors@, message);
                }
                errors.push(message);
            },
        }
        i = i + 1;
    }
    let files_modified: usize = writes.len();
    (
        FixResult { files_modified, edits_applied: applied, edits_skipped: skipped, errors },
        writes,
    )
}

// ── Previews ────────────────────────────────────────────────────────────

/// A file in the course of a preview: its current lines, and which of them changed.
pub ghost struct Preview {
    pub all: Seq<Seq<char>>,
    pub changed: Seq<bool>,
}

/// A preview after the first `n` edits, each taken once, as when they are applied.
pub open spec fn preview_after(
    all: Seq<Seq<char>>,
    edits: Seq<TextEditView>,
    n: int,
) -> Preview
    decreases n,
{
    if n <= 0 {
        Preview { all, changed: Seq::new(all.len(), |i: int| false) }
    } else if is_repeat(edits, n - 1) {
        preview_after(all, edits, n - 1)
    } else {
        let before = preview_after(all, edits, n - 1);
        let e = edits[n - 1];
        Preview {
            all: after_edit(before.all, e),
            changed: if takes_effect(before.all, e) {
                before.changed.update(line_position(e.line), true)
            } else {
                before.changed
            },
        }
    }
}

/// How many lines of context a hunk shows on either side.
pub const HUNK_CONTEXT: usize = 3;

pub open spec fn hunk_start(i: int) -> int {
    if i >= HUNK_CONTEXT {
        i - HUNK_CONTEXT
    } else {
        0
    }
}

pub open spec fn hunk_end(i: int, count: int) -> int {
    if i + HUNK_CONTEXT + 1 <= count {
        i + HUNK_CONTEXT + 1
    } else {
        count
    }
}

/// The lines that a line of a preview has become: more than one where a replacement holds
/// line ends.
pub open spec fn new_lines(p: Preview, i: int) -> Seq<Seq<char>> {
    split(deduplicated(p.all[i]), '\n')
}

/// Lines that are added.
pub open spec fn added(v: Seq<Seq<char>>) -> Seq<char>
    decreases v.len(),
{
    if v.len() == 0 {
        Seq::empty()
    } else {
        added(v.drop_last()) + "+"@ + v.last() + "\n"@
    }
}

/// A line of a hunk: old and new where it changed, else the line as context.
pub open spec fn hunk_line(all: Seq<Seq<char>>, p: Preview, i: int) -> Seq<char> {
    if p.changed[i] {
        "-"@ + all[i] + "\n"@ + added(new_lines(p, i))
    } else {
        " "@ + all[i] + "\n"@
    }
}

/// How many lines the lines from `start` up to and without `end` become.
pub open spec fn new_count(p: Preview, start: int, end: int) -> nat
    decreases end - start,
{
    if end <= start {
        0
    } else {
        new_count(p, start, end - 1) + if p.changed[end - 1] {
            new_lines(p, end - 1).len()
        } else {
            1
        }
    }
}

pub open spec fn hunk_lines(all: Seq<Seq<char>>, p: Preview, start: int, end: int) -> Seq<char>
    decreases end - start,
{
    if end <= start {
        Seq::empty()
    } else {
        hunk_lines(all, p, start, end - 1) + hunk_line(all, p, end - 1)
    }
}

/// The hunk around a changed line.
pub open spec fn hunk(all: Seq<Seq<char>>, p: Preview, i: int) -> Seq<char> {
    let start = hunk_start(i);
    let end = hunk_end(i, all.len() as int);
    "@@ -"@ + decimal((start + 1) as nat) + ","@ + decimal((end - start) as nat) + " +"@ + decimal(
        new_count(p, 0, start) + 1,
    ) + ","@ + decimal(new_count(p, start, end)) + " @@\n"@ + hunk_lines(all, p, start, end)
}

/// The hunks of the changed lines among the first `n`.
pub open spec fn hunks(all: Seq<Seq<char>>, p: Preview, n: int) -> Seq<char>
    decreases n,
{
    if n <= 0 {
        Seq::empty()
    } else {
        hunks(all, p, n - 1) + if p.changed[n - 1] {
            hunk(all, p, n - 1)
        } else {
            Seq::empty()
        }
    }
}

pub open spec fn any_changed(p: Preview) -> bool {
    exists|i: int| 0 <= i < p.changed.len() && #[trigger] p.changed[i]
}

/// The difference that fixes make to a file: nothing where no line changes.
pub open spec fn file_diff(
    path: Seq<char>,
    source: Seq<char>,
    fixes: Seq<PlannedFixView>,
) -> Seq<char> {
    let all = lines(source);
    let edits = all_edits(fixes);
    let p = preview_after(all, edits, edits.len() as int);
    if any_changed(p) {
        "--- a/"@ + path + "\n+++ b/"@ + path + "\n"@ + hunks(all, p, all.len() as int)
    } else {
        Seq::empty()
    }
}

proof fn lemma_preview_len(all: Seq<Seq<char>>, edits: Seq<TextEditView>, n: int)
    ensures
        preview_after(all, edits, n).all.len() == all.len(),
        preview_after(all, edits, n).changed.len() == all.len(),
    decreases n,
{
    if n > 0 {
        lemma_preview_len(all, edits, n - 1);
    }
}

/// The parts of changed lines, and the lines as they are: what a preview is made of.
spec fn shows(p: Preview, changed: Seq<bool>, parts: Seq<Vec<String>>, count: nat) -> bool {
    &&& p.changed == changed
    &&& p.all.len() == count
    &&& changed.len() == count
    &&& parts.len() == count
    &&& forall|i: int|
        0 <= i < count && changed[i] ==> texts((#[trigger] parts[i])@) == new_lines(p, i)
}

fn count_new_lines(
    changed: &Vec<bool>,
    parts: &Vec<Vec<String>>,
    start: usize,
    end: usize,
    Ghost(p): Ghost<Preview>,
) -> (r: u128)
    requires
        start <= end <= changed@.len(),
        shows(p, changed@, parts@, changed@.len()),
    ensures
        r == new_count(p, start as int, end as int),
        r <= (end - start) * 0xffff_ffff_ffff_ffff,
{
    let mut total: u128 = 0;
    let mut i: usize = start;
    while i < end
        invariant
            start <= i <= end <= changed@.len(),
            shows(p, changed@, parts@, changed@.len()),
            total == new_count(p, start as int, i as int),
            total <= (i - start) * 0xffff_ffff_ffff_ffff,
        decreases end - i,
    {
        if changed[i] {
            let size: usize = parts[i].len();
            assert(texts(parts@[i as int]@).len() == size);
            total = total + size as u128;
        } else {
            total = total + 1;
        }
        i = i + 1;
    }
    total
}

fn push_added(parts: &Vec<String>, out: &mut String)
    ensures
        final(out)@ == old(out)@ + added(texts(parts@)),
{
    let ghost before = out@;
    let ghost v = texts(parts@);
    let mut i: usize = 0;
    assert(before + added(v.take(0)) =~= before);
    while i < parts.len()
        invariant
            i <= parts@.len(),
            v == texts(parts@),
            out@ == before + added(v.take(i as int)),
        decreases parts@.len() - i,
    {
        assert(v.take(i + 1).drop_last() =~= v.take(i as int));
        let shown = cat3("+", parts[i].as_str(), "\n");
        out.append(shown.as_str());
        assert(out@ =~= before + added(v.take(i + 1)));
        i = i + 1;
    }
    assert(v.take(v.len() as int) =~= v);
}

fn push_hunk_lines(
    all: &Vec<String>,
    changed: &Vec<bool>,
    parts: &Vec<Vec<String>>,
    start: usize,
    end: usize,
    out: &mut String,
    Ghost(p): Ghost<Preview>,
)
    requires
        start <= end <= all@.len(),
        shows(p, changed@, parts@, all@.len()),
    ensures
        final(out)@ == old(out)@ + hunk_lines(texts(all@), p, start as int, end as int),
{
    let ghost before = out@;
    let ghost t = texts(all@);
    let mut i: usize = start;
    assert(before + hunk_lines(t, p, start as int, start as int) =~= before);
    while i < end
        invariant
            start <= i <= end <= all@.len(),
            shows(p, changed@, parts@, all@.len()),
            t == texts(all@),
            out@ == before + hunk_lines(t, p, start as int, i as int),
        decreases end - i,
    {
        if changed[i] {
            let old_line = cat3("-", all[i].as_str(), "\n");
            out.append(old_line.as_str());
            push_added(&parts[i], out);
        } else {
            let shown = cat3(" ", all[i].as_str(), "\n");
            out.append(shown.as_str());
        }
        assert(out@ =~= before + hunk_lines(t, p, start as int, i + 1));
        i = i + 1;
    }
}

fn push_hunk(
    all: &Vec<String>,
    changed: &Vec<bool>,
    parts: &Vec<Vec<String>>,
    i: usize,
    out: &mut String,
    Ghost(p): Ghost<Preview>,
)
    requires
        i < all@.len(),
        shows(p, changed@, parts@, all@.len()),
    ensures
        final(out)@ == old(out)@ + hunk(texts(all@), p, i as int),
{
    let ghost before = out@;
    let count: usize = all.len();
    let start: usize = i.saturating_sub(HUNK_CONTEXT);
    let end: usize = if count - i > HUNK_CONTEXT {
        i + HUNK_CONTEXT + 1
    } else {
        count
    };
    let first = decimal_text(start as u64 + 1);
    let many = decimal_text((end - start) as u64);
    let old_range = cat3(first.as_str(), ",", many.as_str());
    let before_hunk: u128 = count_new_lines(changed, parts, 0, start, Ghost(p));
    let in_hunk: u128 = count_new_lines(changed, parts, start, end, Ghost(p));
    let ghost body = hunk_lines(texts(all@), p, start as int, end as int);
    let new_first = decimal_wide(before_hunk + 1);
    let new_many = decimal_wide(in_hunk);
    let new_range = cat3(new_first.as_str(), ",", new_many.as_str());
    let head = cat5("@@ -", old_range.as_str(), " +", new_range.as_str(), " @@\n");
    out.append(head.as_str());
    push_hunk_lines(all, changed, parts, start, end, out, Ghost(p));
    assert(out@ == before + head@ + body);
    assert(head@ + body =~= hunk(texts(all@), p, i as int));
    assert(out@ =~= before + hunk(texts(all@), p, i as int));
}

/// Takes the lines that changed apart at line ends.
fn split_changed(current: &Vec<String>, changed: &Vec<bool>) -> (r: Vec<Vec<String>>)
    requires
        changed@.len() == current@.len(),
    ensures
        r@.len() == current@.len(),
        forall|i: int|
            0 <= i < r@.len() && changed@[i] ==> texts((#[trigger] r@[i])@) == split(
                current@[i]@,
                '\n',
            ),
{
    let mut out: Vec<Vec<String>> = Vec::new();
    let mut i: usize = 0;
    while i < current.len()
        invariant
            i <= current@.len(),
            changed@.len() == current@.len(),
            out@.len() == i,
            forall|k: int|
                0 <= k < i && changed@[k] ==> texts((#[trigger] out@[k])@) == split(
                    current@[k]@,
                    '\n',
                ),
        decreases current@.len() - i,
    {
        let parts: Vec<String> = if changed[i] {
            split_text(current[i].as_str(), '\n')
        } else {
            Vec::new()
        };
        out.push(parts);
        i = i + 1;
    }
    out
}

/// The difference that fixes make to a file.
pub fn preview_file(
    path: &str,
    source: &str,
    fixes: &Vec<PlannedFix>,
    lang: &JsFixProvider,
) -> (r: String)
    ensures
        r@ == file_diff(path@, source@, fix_views(fixes@)),
{
    let all = lines_text(source);
    let ghost t = lines(source@);
    let edits = collect_edits(fixes);
    let ghost v = all_edits(fix_views(fixes@));
    let mut current = crate::text::copy_list(&all);
    let mut changed: Vec<bool> = Vec::new();
    let mut any = false;
    let mut i: usize = 0;
    while i < all.len()
        invariant
            i <= all@.len(),
            changed@.len() == i,
            forall|k: int| 0 <= k < i ==> !(#[trigger] changed@[k]),
        decreases all@.len() - i,
    {
        changed.push(false);
        i = i + 1;
    }
    assert(changed@ =~= preview_after(t, v, 0).changed);
    let mut k: usize = 0;
    while k < edits.len()
        invariant
            k <= edits@.len(),
            v == edit_refs(edits@),
            t == texts(all@),
            texts(current@) == preview_after(t, v, k as int).all,
            changed@ == preview_after(t, v, k as int).changed,
            changed@.len() == all@.len(),
            current@.len() == all@.len(),
            any == any_changed(preview_after(t, v, k as int)),
        decreases edits@.len() - k,
    {
        proof {
            lemma_preview_len(t, v, k as int);
            lemma_preview_len(t, v, k + 1);
        }
        if !repeats(&edits, k) {
            let at: usize = edits[k].line.saturating_sub(1) as usize;
            if apply_edit(&mut current, edits[k]) {
                changed.set(at, true);
                any = true;
                assert(preview_after(t, v, k + 1).changed[at as int]);
            }
        }
        assert(current@.len() == all@.len()) by {
            assert(texts(current@).len() == current@.len());
        }
        k = k + 1;
    }
    let ghost p = preview_after(t, v, v.len() as int);
    proof {
        lemma_preview_len(t, v, v.len() as int);
    }
    if !any {
        return String::new();
    }
    lang.post_process_lines(&mut current);
    assert(current@.len() == all@.len()) by {
        assert(texts(current@).len() == current@.len());
    }
    let parts = split_changed(&current, &changed);
    assert forall|x: int| 0 <= x < all@.len() && changed@[x] implies texts((#[trigger] parts@[x])@)
        == new_lines(p, x) by {
        assert(texts(current@)[x] == deduplicated_lines(p.all)[x]);
    }
    let mut out = cat5("--- a/", path, "\n+++ b/", path, "\n");
    let ghost head = out@;
    let mut j: usize = 0;
    assert(head + hunks(t, p, 0) =~= head);
    while j < all.len()
        invariant
            j <= all@.len(),
            t == texts(all@),
            shows(p, changed@, parts@, all@.len()),
            out@ == head + hunks(t, p, j as int),
        decreases all@.len() - j,
    {
        if changed[j] {
            push_hunk(&all, &changed, &parts, j, &mut out, Ghost(p));
        }
        assert(out@ =~= head + hunks(t, p, j + 1));
        j = j + 1;
    }
    assert(out@ =~= file_diff(path@, source@, fix_views(fixes@)));
    out
}

/// The differences of the first `n` files of a plan that can be read.
pub open spec fn plan_diff(
    keys: Seq<Seq<char>>,
    fixes: Seq<Vec<PlannedFix>>,
    sources: Map<Seq<char>, SourceView>,
    n: int,
) -> Seq<char>
    decreases n,
{
    if n <= 0 {
        Seq::empty()
    } else {
        plan_diff(keys, fixes, sources, n - 1) + match crate::engine::readable(
            sources,
            keys[n - 1],
        ) {
            Some(source) => file_diff(keys[n - 1], source, fix_views(fixes[n - 1]@)),
            None => Seq::empty(),
        }
    }
}

/// A preview of the changes of a plan, in the form of a unified diff.
pub fn preview_fixes(plan: &FixPlan, lang: &JsFixProvider, sources: &Sources) -> (r: String)
    ensures
        r@ == plan_diff(
            plan.files.keys(),
            plan.files.values(),
            sources_view(*sources),
            plan.files.keys().len() as int,
        ),
{
    let ghost keys = plan.files.keys();
    let ghost values = plan.files.values();
    let ghost sv = sources_view(*sources);
    let n: usize = plan.files.len();
    let mut out = String::new();
    let mut i: usize = 0;
    while i < n
        invariant
            i <= n,
            n == keys.len(),
            n == values.len(),
            keys == plan.files.keys(),
            values == plan.files.values(),
            sv == sources_view(*sources),
            out@ == plan_diff(keys, values, sv, i as int),
        decreases n - i,
    {
        let path = plan.files.key_at(i);
        if let Some(source) = crate::engine::readable_source(sources, path.as_str()) {
            let diff = preview_file(path.as_str(), source.as_str(), plan.files.value_at(i), lang);
            out.append(diff.as_str());
        }
        assert(out@ =~= plan_diff(keys, values, sv, i + 1));
        i = i + 1;
    }
    out
}

// ── Laws of applying and previewing ─────────────────────────────────────

/// A preview shows what applying leaves: its lines are those after the edits, what it
/// adds are the lines that each of them is written as, and a line that it does not mark
/// as changed is as it was.
pub proof fn preview_shows_what_is_applied(all: Seq<Seq<char>>, edits: Seq<TextEditView>, n: int)
    ensures
        preview_after(all, edits, n).all == lines_after(all, edits, n),
        preview_after(all, edits, n).changed.len() == all.len(),
        forall|i: int|
            0 <= i < all.len() ==> #[trigger] new_lines(preview_after(all, edits, n), i) == split(
                deduplicated_lines(lines_after(all, edits, n))[i],
                '\n',
            ),
        forall|i: int|
            0 <= i < all.len() && !preview_after(all, edits, n).changed[i] ==> #[trigger] lines_after(
                all,
                edits,
                n,
            )[i] == all[i],
    decreases n,
{
    if n > 0 {
        preview_shows_what_is_applied(all, edits, n - 1);
        lemma_preview_len(all, edits, n - 1);
    }
}

/// A preview marks a line as changed exactly where applying the edits would change
/// the file.
pub proof fn preview_is_empty_where_nothing_applies(
    all: Seq<Seq<char>>,
    edits: Seq<TextEditView>,
    n: int,
)
    ensures
        any_changed(preview_after(all, edits, n)) <==> applied_count(all, edits, n) > 0,
    decreases n,
{
    if n > 0 {
        preview_is_empty_where_nothing_applies(all, edits, n - 1);
        preview_shows_what_is_applied(all, edits, n - 1);
        let before = preview_after(all, edits, n - 1);
        let after = preview_after(all, edits, n);
        let e = edits[n - 1];
        if !is_repeat(edits, n - 1) && takes_effect(before.all, e) {
            lemma_preview_len(all, edits, n - 1);
            assert(after.changed[line_position(e.line)]);
        }
    }
}

/// Only files of the plan are written, each only where it could be read and an
/// edit took effect; a file of the plan that could not be read gives an error.
pub proof fn only_planned_files_are_written(
    keys: Seq<Seq<char>>,
    fixes: Seq<Vec<PlannedFix>>,
    sources: Map<Seq<char>, SourceView>,
    n: int,
)
    requires
        0 <= n <= keys.len(),
    ensures
        forall|w: int|
            0 <= w < applied_files(keys, fixes, sources, n).writes.len() ==> is_planned_write(
                keys,
                fixes,
                sources,
                n,
                #[trigger] applied_files(keys, fixes, sources, n).writes[w],
            ),
        applied_files(keys, fixes, sources, n).errors.len() == unreadable_count(keys, sources, n),
    decreases n,
{
    if n > 0 {
        only_planned_files_are_written(keys, fixes, sources, n - 1);
        let before = applied_files(keys, fixes, sources, n - 1);
        let after = applied_files(keys, fixes, sources, n);
        assert forall|w: int| 0 <= w < after.writes.len() implies is_planned_write(
            keys,
            fixes,
            sources,
            n,
            #[trigger] after.writes[w],
        ) by {
            if w < before.writes.len() {
                assert(after.writes[w] == before.writes[w]);
                let k = choose|k: int|
                    0 <= k < n - 1 && #[trigger] is_write_of(
                        keys,
                        fixes,
                        sources,
                        k,
                        before.writes[w],
                    );
                assert(is_write_of(keys, fixes, sources, k, after.writes[w]));
            } else {
                assert(is_write_of(keys, fixes, sources, n - 1, after.writes[w]));
            }
        }
    }
}

/// Whether `write` is what the fixes of one of the first `n` files leave of it.
pub open spec fn is_planned_write(
    keys: Seq<Seq<char>>,
    fixes: Seq<Vec<PlannedFix>>,
    sources: Map<Seq<char>, SourceView>,
    n: int,
    write: (Seq<char>, Seq<char>),
) -> bool {
    exists|k: int| 0 <= k < n && #[trigger] is_write_of(keys, fixes, sources, k, write)
}

/// Whether `write` is what the fixes of the `k`th file leave of it.
pub open spec fn is_write_of(
    keys: Seq<Seq<char>>,
    fixes: Seq<Vec<PlannedFix>>,
    sources: Map<Seq<char>, SourceView>,
    k: int,
    write: (Seq<char>, Seq<char>),
) -> bool {
    let planned = fix_views(fixes[k]@);
    match crate::engine::readable(sources, keys[k]) {
        Some(source) => {
            &&& write == (keys[k], text_after(source, planned))
            &&& applied_count(lines(source), all_edits(planned), all_edits(planned).len() as int)
                > 0
        },
        None => false,
    }
}

/// How many of the first `n` files could not be read.
pub open spec fn unreadable_count(
    keys: Seq<Seq<char>>,
    sources: Map<Seq<char>, SourceView>,
    n: int,
) -> nat
    decreases n,
{
    if n <= 0 {
        0
    } else {
        unreadable_count(keys, sources, n - 1) + if crate::engine::readable(
            sources,
            keys[n - 1],
        ) is None {
            1nat
        } else {
            0nat
        }
    }
}

/// The edits of fixes are those of each fix, one after the other.
pub proof fn edits_of_fixes_follow_each_other(a: Seq<PlannedFixView>, b: Seq<PlannedFixView>)
    ensures
        all_edits(a + b) == all_edits(a) + all_edits(b),
        a.len() == 1 ==> all_edits(a) == a[0].edits,
    decreases b.len(),
{
    if b.len() == 0 {
        assert(a + b =~= a);
        assert(all_edits(a) + all_edits(b) =~= all_edits(a));
    } else {
        edits_of_fixes_follow_each_other(a, b.drop_last());
        assert((a + b).drop_last() =~= a + b.drop_last());
        assert((a + b).last() == b.last());
        assert(all_edits(a + b) =~= all_edits(a) + all_edits(b));
    }
    if a.len() == 1 {
        assert(all_edits(a.drop_last()) =~= Seq::empty());
        assert(all_edits(a) =~= a[0].edits);
    }
}

/// An edit is carried out unless one with the same line, old and new text came before it.
pub proof fn edits_are_carried_out_once(all: Seq<Seq<char>>, edits: Seq<TextEditView>, k: int)
    requires
        0 <= k < edits.len(),
    ensures
        (forall|j: int|
            0 <= j < k ==> (#[trigger] edits[j]).line != edits[k].line || edits[j].old_text
                != edits[k].old_text || edits[j].new_text != edits[k].new_text) ==> lines_after(
            all,
            edits,
            k + 1,
        ) == after_edit(lines_after(all, edits, k), edits[k]),
        (exists|j: int|
            0 <= j < k && (#[trigger] edits[j]).line == edits[k].line && edits[j].old_text
                == edits[k].old_text && edits[j].new_text == edits[k].new_text) ==> lines_after(
            all,
            edits,
            k + 1,
        ) == lines_after(all, edits, k),
{
    if exists|j: int|
        0 <= j < k && (#[trigger] edits[j]).line == edits[k].line && edits[j].old_text
            == edits[k].old_text && edits[j].new_text == edits[k].new_text {
        let j = choose|j: int|
            0 <= j < k && (#[trigger] edits[j]).line == edits[k].line && edits[j].old_text
                == edits[k].old_text && edits[j].new_text == edits[k].new_text;
        assert(same_edit(edits[j], edits[k]));
    }
}

/// The text after fixes is made of as many lines as before, each after the edits and
/// deduplicated, and ends with a line feed where it did before.
pub proof fn texts_are_put_together_again(
    source: Seq<char>,
    fixes: Seq<PlannedFixView>,
) -> (r: Seq<Seq<char>>)
    ensures
        r.len() == lines_after(
            lines(source),
            all_edits(fixes),
            all_edits(fixes).len() as int,
        ).len(),
        forall|i: int|
            0 <= i < r.len() ==> #[trigger] r[i] == deduplicated(
                lines_after(lines(source), all_edits(fixes), all_edits(fixes).len() as int)[i],
            ),
        source.len() > 0 && source.last() == '\n' ==> text_after(source, fixes) == join(r, "\n"@)
            + "\n"@,
        source.len() == 0 || source.last() != '\n' ==> text_after(source, fixes) == join(
            r,
            "\n"@,
        ),
{
    let edits = all_edits(fixes);
    let r = deduplicated_lines(lines_after(lines(source), edits, edits.len() as int));
    reveal_strlit("\n");
    assert("\n"@ =~= seq!['\n']);
    if source.len() > 0 {
        let end = source.subrange(source.len() - 1, source.len() as int);
        assert(end =~= seq![source.last()]);
        assert(end[0] == source.last());
        if source.last() != '\n' && ends_with(source, "\n"@) {
            assert(seq!['\n'][0] == source.last());
        }
        assert(ends_with(source, "\n"@) <==> source.last() == '\n');
    }
    r
}

/// Every file of a plan that can be read and that an edit changes is written; one that
/// cannot be read is named in an error, with the reason.
pub proof fn every_changed_file_is_written(
    keys: Seq<Seq<char>>,
    fixes: Seq<Vec<PlannedFix>>,
    sources: Map<Seq<char>, SourceView>,
    n: int,
    k: int,
)
    requires
        0 <= k < n <= keys.len(),
    ensures
        ({
            let planned = fix_views(fixes[k]@);
            let edits = all_edits(planned);
            let result = applied_files(keys, fixes, sources, n);
            let there = sources.dom().contains(keys[k]);
            &&& there ==> (sources[keys[k]] matches Ok(source) ==> applied_count(
                lines(source),
                edits,
                edits.len() as int,
            ) > 0 ==> result.writes.contains((keys[k], text_after(source, planned))))
            &&& there ==> (sources[keys[k]] matches Err(why) ==> result.errors.contains(
                keys[k] + ": "@ + why,
            ))
            &&& !there ==> result.errors.contains(keys[k] + ": "@)
        }),
    decreases n,
{
    let before = applied_files(keys, fixes, sources, n - 1);
    let result = applied_files(keys, fixes, sources, n);
    let path = keys[k];
    let planned = fix_views(fixes[k]@);
    let last = fix_views(fixes[n - 1]@);
    assert forall|w: (Seq<char>, Seq<char>)| before.writes.contains(
        w,
    ) implies result.writes.contains(w) by {
        if let Some(source) = crate::engine::readable(sources, keys[n - 1]) {
            lemma_in_pushed(before.writes, (keys[n - 1], text_after(source, last)), w);
        }
    }
    assert forall|m: Seq<char>| before.errors.contains(m) implies result.errors.contains(m) by {
        lemma_in_pushed(before.errors, read_error(keys[n - 1], sources), m);
    }
    if k < n - 1 {
        every_changed_file_is_written(keys, fixes, sources, n - 1, k);
    } else {
        assert(path + ": "@ + Seq::<char>::empty() =~= path + ": "@);
        lemma_in_pushed(before.errors, read_error(path, sources), read_error(path, sources));
        if let Some(source) = crate::engine::readable(sources, path) {
            let w = (path, text_after(source, planned));
            lemma_in_pushed(before.writes, w, w);
        }
    }
}

/// What a plan applies and skips adds up over its files.
pub proof fn counts_add_up(
    keys: Seq<Seq<char>>,
    fixes: Seq<Vec<PlannedFix>>,
    sources: Map<Seq<char>, SourceView>,
    n: int,
)
    requires
        0 < n <= keys.len(),
    ensures
        ({
            let edits = all_edits(fix_views(fixes[n - 1]@));
            let count = edits.len() as int;
            let before = applied_files(keys, fixes, sources, n - 1);
            let result = applied_files(keys, fixes, sources, n);
            match crate::engine::readable(sources, keys[n - 1]) {
                Some(source) => result.applied + result.skipped == before.applied + before.skipped
                    + distinct_count(edits, count) && result.applied - before.applied
                    == applied_count(lines(source), edits, count),
                None => result.applied == before.applied && result.skipped == before.skipped,
            }
        }),
{
    let edits = all_edits(fix_views(fixes[n - 1]@));
    if let Some(source) = crate::engine::readable(sources, keys[n - 1]) {
        edits_are_applied_or_skipped(lines(source), edits, edits.len() as int);
    }
}

proof fn lemma_hunk_line(all: Seq<Seq<char>>, p: Preview, start: int, end: int, j: int)
    requires
        start <= j < end,
    ensures
        contains(hunk_lines(all, p, start, end), hunk_line(all, p, j)),
    decreases end - start,
{
    let before = hunk_lines(all, p, start, end - 1);
    let last = hunk_line(all, p, end - 1);
    let none = Seq::<char>::empty();
    if j < end - 1 {
        lemma_hunk_line(all, p, start, end - 1, j);
        lemma_stands_in_more(none, before, last, hunk_line(all, p, j));
        assert(none + before + last =~= hunk_lines(all, p, start, end));
    } else {
        lemma_stands_in(before, last, none);
        assert(before + last + none =~= hunk_lines(all, p, start, end));
    }
}

proof fn lemma_hunk(all: Seq<Seq<char>>, p: Preview, n: int, i: int)
    requires
        0 <= i < n,
        p.changed[i],
    ensures
        contains(hunks(all, p, n), hunk(all, p, i)),
    decreases n,
{
    let before = hunks(all, p, n - 1);
    let last = if p.changed[n - 1] {
        hunk(all, p, n - 1)
    } else {
        Seq::empty()
    };
    let none = Seq::<char>::empty();
    if i < n - 1 {
        lemma_hunk(all, p, n - 1, i);
        lemma_stands_in_more(none, before, last, hunk(all, p, i));
        assert(none + before + last =~= hunks(all, p, n));
    } else {
        lemma_stands_in(before, last, none);
        assert(before + last + none =~= hunks(all, p, n));
    }
}

proof fn lemma_added(v: Seq<Seq<char>>, i: int)
    requires
        0 <= i < v.len(),
    ensures
        contains(added(v), "+"@ + v[i] + "\n"@),
    decreases v.len(),
{
    let before = added(v.drop_last());
    let last = "+"@ + v.last() + "\n"@;
    let none = Seq::<char>::empty();
    if i < v.len() - 1 {
        lemma_added(v.drop_last(), i);
        assert(v.drop_last()[i] == v[i]);
        lemma_stands_in_more(none, before, last, "+"@ + v[i] + "\n"@);
        assert(none + before + last =~= added(v));
    } else {
        lemma_stands_in(before, last, none);
        assert(before + last + none =~= added(v));
    }
}

/// Every line that changes is shown as it was, with a minus sign, and as each line that it
/// becomes, with a plus sign.
pub proof fn every_changed_line_is_shown(
    path: Seq<char>,
    source: Seq<char>,
    fixes: Seq<PlannedFixView>,
    i: int,
    k: int,
)
    requires
        0 <= i < lines(source).len(),
        ({
            let edits = all_edits(fixes);
            let p = preview_after(lines(source), edits, edits.len() as int);
            p.changed[i] && 0 <= k < new_lines(p, i).len()
        }),
    ensures
        ({
            let edits = all_edits(fixes);
            let p = preview_after(lines(source), edits, edits.len() as int);
            let diff = file_diff(path, source, fixes);
            &&& contains(diff, "-"@ + lines(source)[i] + "\n"@)
            &&& contains(diff, "+"@ + new_lines(p, i)[k] + "\n"@)
            &&& contains(diff, "--- a/"@ + path + "\n+++ b/"@ + path + "\n"@)
        }),
{
    let all = lines(source);
    let edits = all_edits(fixes);
    let p = preview_after(all, edits, edits.len() as int);
    preview_shows_what_is_applied(all, edits, edits.len() as int);
    assert(any_changed(p));
    let diff = file_diff(path, source, fixes);
    let front = "--- a/"@ + path + "\n+++ b/"@ + path + "\n"@;
    let body = hunks(all, p, all.len() as int);
    let none = Seq::<char>::empty();
    lemma_hunk_shows(all, p, i, i);
    lemma_hunk(all, p, all.len() as int, i);
    lemma_part_of_part(body, hunk(all, p, i), hunk_line(all, p, i));
    lemma_stands_in_more(front, body, none, hunk_line(all, p, i));
    assert(front + body + none =~= diff);
    lemma_stands_in(none, front, body);
    assert(none + front + body =~= diff);
    let old_line = "-"@ + all[i] + "\n"@;
    let fresh = added(new_lines(p, i));
    lemma_stands_in(none, old_line, fresh);
    assert(none + old_line + fresh =~= hunk_line(all, p, i));
    lemma_part_of_part(diff, hunk_line(all, p, i), old_line);
    lemma_added(new_lines(p, i), k);
    lemma_stands_in_more(old_line, fresh, none, "+"@ + new_lines(p, i)[k] + "\n"@);
    assert(old_line + fresh + none =~= hunk_line(all, p, i));
    lemma_part_of_part(diff, hunk_line(all, p, i), "+"@ + new_lines(p, i)[k] + "\n"@);
}

proof fn lemma_hunk_shows(all: Seq<Seq<char>>, p: Preview, i: int, j: int)
    requires
        0 <= i < all.len(),
        0 <= j < all.len(),
        i - 3 <= j <= i + 3,
    ensures
        contains(hunk(all, p, i), hunk_line(all, p, j)),
{
    let start = hunk_start(i);
    let end = hunk_end(i, all.len() as int);
    let body = hunk_lines(all, p, start, end);
    let front = "@@ -"@ + decimal((start + 1) as nat) + ","@ + decimal((end - start) as nat)
        + " +"@ + decimal(new_count(p, 0, start) + 1) + ","@ + decimal(
        new_count(p, start, end),
    ) + " @@\n"@;
    let none = Seq::<char>::empty();
    lemma_hunk_line(all, p, start, end, j);
    lemma_stands_in_more(front, body, none, hunk_line(all, p, j));
    assert(front + body + none =~= hunk(all, p, i));
}

/// The three lines before and behind a changed one are shown with it.
pub proof fn changes_are_shown_in_context(all: Seq<Seq<char>>, p: Preview, i: int, j: int)
    requires
        0 <= i < all.len(),
        0 <= j < all.len(),
        i - 3 <= j <= i + 3,
        !p.changed[j],
    ensures
        contains(hunk(all, p, i), " "@ + all[j] + "\n"@),
{
    lemma_hunk_shows(all, p, i, j);
}

/// A diff of a plan holds that of each file that can be read.
pub proof fn diffs_hold_every_file(
    keys: Seq<Seq<char>>,
    fixes: Seq<Vec<PlannedFix>>,
    sources: Map<Seq<char>, SourceView>,
    n: int,
    k: int,
)
    requires
        0 <= k < n <= keys.len(),
        sources.dom().contains(keys[k]),
        sources[keys[k]] is Ok,
    ensures
        contains(
            plan_diff(keys, fixes, sources, n),
            file_diff(keys[k], sources[keys[k]]->Ok_0, fix_views(fixes[k]@)),
        ),
    decreases n,
{
    let before = plan_diff(keys, fixes, sources, n - 1);
    let last = match crate::engine::readable(sources, keys[n - 1]) {
        Some(source) => file_diff(keys[n - 1], source, fix_views(fixes[n - 1]@)),
        None => Seq::empty(),
    };
    let own = file_diff(keys[k], sources[keys[k]]->Ok_0, fix_views(fixes[k]@));
    let none = Seq::<char>::empty();
    if k < n - 1 {
        diffs_hold_every_file(keys, fixes, sources, n - 1, k);
        lemma_stands_in_more(none, before, last, own);
        assert(none + before + last =~= plan_diff(keys, fixes, sources, n));
    } else {
        lemma_stands_in(before, last, none);
        assert(before + last + none =~= plan_diff(keys, fixes, sources, n));
    }
}

/// A hunk says where it begins and how many lines it shows: from three lines before the
/// changed one, or the first, up to three behind it, or the last.
pub proof fn hunks_say_where_they_begin(all: Seq<Seq<char>>, p: Preview, i: int)
    requires
        0 <= i < all.len(),
    ensures
        ({
            let start = if i < 3 {
                0
            } else {
                i - 3
            };
            let end = if i + 4 > all.len() {
                all.len() as int
            } else {
                i + 4
            };
            starts_with(
                hunk(all, p, i),
                "@@ -"@ + decimal((start + 1) as nat) + ","@ + decimal((end - start) as nat)
                    + " +"@ + decimal(new_count(p, 0, start) + 1) + ","@ + decimal(
                    new_count(p, start, end),
                ) + " @@\n"@,
            )
        }),
{
    let start = hunk_start(i);
    let end = hunk_end(i, all.len() as int);
    let front = "@@ -"@ + decimal((start + 1) as nat) + ","@ + decimal((end - start) as nat)
        + " +"@ + decimal(new_count(p, 0, start) + 1) + ","@ + decimal(new_count(p, start, end))
        + " @@\n"@;
    let whole = hunk(all, p, i);
    assert(whole == front + hunk_lines(all, p, start, end));
    assert(whole.subrange(0, front.len() as int) =~= front);
}

/// The lines that some lines become add up: one for each that stays, and for each other one
/// those that it becomes.
pub proof fn new_lines_add_up(p: Preview, a: int, b: int, c: int)
    requires
        a <= b <= c,
    ensures
        new_count(p, a, c) == new_count(p, a, b) + new_count(p, b, c),
        b + 1 == c ==> new_count(p, b, c) == (if p.changed[b] {
            new_lines(p, b).len()
        } else {
            1
        }),
    decreases c - b,
{
    if b < c {
        new_lines_add_up(p, a, b, c - 1);
        if b + 1 == c {
            assert(new_count(p, b, b) == 0);
        }
    }
}

} // verus!
