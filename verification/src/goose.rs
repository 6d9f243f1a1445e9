//! Batches of fix requests for the goose agent: which rules come first, what it is
//! told, and how the runs for one file follow each other.

use crate::fix::{copy_request, request_views, LlmFixRequest, LlmFixRequestView};
use crate::json::{
    as_items, as_text, field, json_denoted, list_at, opt_json, parse_json, text_at, text_field,
    views, Json, JsonView,
};
use crate::paths::{path_spelt, spell_path};
use crate::sorting::{
    in_stable_order, key_values, stable_order, stable_order_is_sorted, stable_sort,
};
use crate::text::{
    byte_len_of, cat2, char_width, joined_texts_hold_their_parts, lemma_in_either, lemma_in_pushed,
    lemma_part_of_part, lemma_stands_before, lemma_stands_in, lemma_stands_last, chars_of, opt_text,
    string_of, width_of, contains, contains_text, decimal, decimal_text, join, join_slice,
    join_texts, lemma_texts_push, lines, lines_text, list_contains, same_text, starts_with,
    starts_with_text, strip_prefix, strip_prefix_text, texts, utf8,
};
use crate::text_map::{in_key_order, push_to, PathMap};
use vstd::prelude::*;

verus! {

/// The most fixes that one run of the agent is asked for.
pub const MAX_FIXES_PER_BATCH: usize = 8;

// ── Priority ────────────────────────────────────────────────────────────

pub open spec fn is_prop_level(id: Seq<char>) -> bool {
    contains(id, "removed"@) || contains(id, "renamed"@) || contains(id, "type-changed"@) || contains(
        id,
        "signature-changed"@,
    ) || contains(id, "prop-value"@)
}

pub open spec fn is_informational(id: Seq<char>) -> bool {
    contains(id, "behavioral"@) || contains(id, "dom-structure"@) || contains(id, "css-"@) || contains(
        id,
        "accessibility"@,
    ) || contains(id, "logic-change"@) || contains(id, "render-output"@)
}

/// The rank of a rule in a batch; lower ranks come first.
pub open spec fn priority_of(id: Seq<char>) -> u8 {
    if contains(id, "hierarchy-"@) {
        0
    } else if contains(id, "component-import-deprecated"@) {
        1
    } else if contains(id, "composition"@) || contains(id, "new-sibling"@) {
        2
    } else if is_prop_level(id) {
        3
    } else if is_informational(id) {
        4
    } else if starts_with(id, "conformance-"@) {
        5
    } else {
        3
    }
}

/// The rank of a rule in a batch, by the words in its id: changes of the component
/// tree come first, then moved components, then props, then notes on markup and
/// styles, then conformance checks.
pub fn fix_priority_by_id(id: &str) -> (r: u8)
    ensures
        r == priority_of(id@),
{
    if contains_text(id, "hierarchy-") {
        0
    } else if contains_text(id, "component-import-deprecated") {
        1
    } else if contains_text(id, "composition") || contains_text(id, "new-sibling") {
        2
    } else if contains_text(id, "removed") || contains_text(id, "renamed") || contains_text(
        id,
        "type-changed",
    ) || contains_text(id, "signature-changed") || contains_text(id, "prop-value") {
        3
    } else if contains_text(id, "behavioral") || contains_text(id, "dom-structure") || contains_text(
        id,
        "css-",
    ) || contains_text(id, "accessibility") || contains_text(id, "logic-change") || contains_text(
        id,
        "render-output",
    ) {
        4
    } else if starts_with_text(id, "conformance-") {
        5
    } else {
        3
    }
}

// ── Merging ─────────────────────────────────────────────────────────────

/// The requests of one rule for one file.
#[derive(Debug)]
pub struct MergedLlmFixRequest {
    pub rule_id: String,
    pub file_path: String,
    /// The lines of all incidents.
    pub lines: Vec<u32>,
    /// The message of the rule.
    pub message: String,
    /// Code around incidents, with their lines.
    pub code_snips: Vec<(u32, String)>,
}

pub ghost struct MergedView {
    pub rule_id: Seq<char>,
    pub file_path: Seq<char>,
    pub lines: Seq<u32>,
    pub message: Seq<char>,
    pub snips: Seq<(u32, Seq<char>)>,
}

pub open spec fn snip_views(v: Seq<(u32, String)>) -> Seq<(u32, Seq<char>)> {
    Seq::new(v.len(), |i: int| (v[i].0, v[i].1@))
}

impl MergedLlmFixRequest {
    pub open spec fn view(&self) -> MergedView {
        MergedView {
            rule_id: self.rule_id@,
            file_path: self.file_path@,
            lines: self.lines@,
            message: self.message@,
            snips: snip_views(self.code_snips@),
        }
    }
}

pub open spec fn merged_views(v: Seq<MergedLlmFixRequest>) -> Seq<MergedView> {
    Seq::new(v.len(), |i: int| v[i]@)
}

/// The position from `i` on of the entry for a rule.
pub open spec fn rule_position(v: Seq<MergedView>, rule_id: Seq<char>, i: int) -> Option<int>
    decreases v.len() - i,
{
    if i < 0 || i >= v.len() {
        None
    } else if v[i].rule_id == rule_id {
        Some(i)
    } else {
        rule_position(v, rule_id, i + 1)
    }
}

/// The snippet of a request with its line, if it has one.
pub open spec fn snip_of(q: LlmFixRequestView) -> Seq<(u32, Seq<char>)> {
    match q.code_snip {
        Some(s) => seq![(q.line, s)],
        None => Seq::empty(),
    }
}

/// The requests merged by rule, in the order in which the rules first come up.
pub open spec fn merged(requests: Seq<LlmFixRequestView>) -> Seq<MergedView>
    decreases requests.len(),
{
    if requests.len() == 0 {
        Seq::empty()
    } else {
        let before = merged(requests.drop_last());
        let q = requests.last();
        match rule_position(before, q.rule_id, 0) {
            Some(k) => before.update(
                k,
                MergedView {
                    lines: before[k].lines.push(q.line),
                    snips: before[k].snips + snip_of(q),
                    ..before[k]
                },
            ),
            None => before.push(
                MergedView {
                    rule_id: q.rule_id,
                    file_path: q.file_path,
                    lines: seq![q.line],
                    message: q.message,
                    snips: snip_of(q),
                },
            ),
        }
    }
}

proof fn lemma_rule_position(v: Seq<MergedView>, rule_id: Seq<char>, i: int)
    requires
        0 <= i,
    ensures
        match rule_position(v, rule_id, i) {
            Some(k) => i <= k < v.len() && v[k].rule_id == rule_id,
            None => forall|k: int| i <= k < v.len() ==> (#[trigger] v[k]).rule_id != rule_id,
        },
    decreases v.len() - i,
{
    if i < v.len() && v[i].rule_id != rule_id {
        lemma_rule_position(v, rule_id, i + 1);
    }
}

/// The lines of the requests of one rule, in order.
pub open spec fn lines_of_rule(requests: Seq<LlmFixRequestView>, rule_id: Seq<char>) -> Seq<u32>
    decreases requests.len(),
{
    if requests.len() == 0 {
        Seq::empty()
    } else {
        let before = lines_of_rule(requests.drop_last(), rule_id);
        if requests.last().rule_id == rule_id {
            before.push(requests.last().line)
        } else {
            before
        }
    }
}

/// Merging loses no incident: every rule of the requests has exactly one entry, and
/// its lines are the lines of the requests of the rule, in their order.
pub proof fn merging_keeps_every_line(requests: Seq<LlmFixRequestView>)
    ensures
        forall|i: int, j: int|
            0 <= i < j < merged(requests).len() ==> (#[trigger] merged(requests)[i]).rule_id != (
            #[trigger] merged(requests)[j]).rule_id,
        forall|k: int|
            0 <= k < merged(requests).len() ==> (#[trigger] merged(requests)[k]).lines == lines_of_rule(
                requests,
                merged(requests)[k].rule_id,
            ),
        forall|i: int|
            0 <= i < requests.len() ==> rule_position(
                merged(requests),
                (#[trigger] requests[i]).rule_id,
                0,
            ) is Some,
    decreases requests.len(),
{
    if requests.len() > 0 {
        let rest = requests.drop_last();
        let q = requests.last();
        merging_keeps_every_line(rest);
        let before = merged(rest);
        let now = merged(requests);
        lemma_rule_position(before, q.rule_id, 0);
        match rule_position(before, q.rule_id, 0) {
            Some(k) => {
                assert forall|j: int| 0 <= j < now.len() implies (#[trigger] now[j]).lines
                    == lines_of_rule(requests, now[j].rule_id) by {
                    assert(now[j].rule_id == before[j].rule_id);
                    assert(before[j].lines == lines_of_rule(rest, before[j].rule_id));
                    if j != k {
                        let lo = if j < k { j } else { k };
                        let hi = if j < k { k } else { j };
                        assert(before[lo].rule_id != before[hi].rule_id);
                    }
                }
                assert forall|i: int, j: int| 0 <= i < j < now.len() implies (#[trigger] now[i]).rule_id
                    != (#[trigger] now[j]).rule_id by {
                    assert(before[i].rule_id != before[j].rule_id);
                }
            },
            None => {
                lemma_no_lines(rest, q.rule_id);
                assert(lines_of_rule(requests, q.rule_id) =~= seq![q.line]);
                assert forall|j: int| 0 <= j < now.len() implies (#[trigger] now[j]).lines
                    == lines_of_rule(requests, now[j].rule_id) by {
                    if j < before.len() {
                        assert(now[j] == before[j]);
                        assert(before[j].rule_id != q.rule_id);
                    }
                }
                assert forall|i: int, j: int| 0 <= i < j < now.len() implies (#[trigger] now[i]).rule_id
                    != (#[trigger] now[j]).rule_id by {
                    assert(now[i] == before[i]);
                    if j < before.len() {
                        assert(now[j] == before[j]);
                    }
                }
            },
        }
        assert forall|i: int| 0 <= i < requests.len() implies rule_position(
            now,
            (#[trigger] requests[i]).rule_id,
            0,
        ) is Some by {
            let id = requests[i].rule_id;
            lemma_rule_position(now, id, 0);
            if i < rest.len() {
                assert(rest[i] == requests[i]);
                lemma_rule_position(before, id, 0);
                let p = rule_position(before, id, 0)->0;
                assert(now[p].rule_id == id);
            } else {
                match rule_position(before, q.rule_id, 0) {
                    Some(k) => {
                        assert(now[k].rule_id == id);
                    },
                    None => {
                        assert(now[before.len() as int].rule_id == id);
                    },
                }
            }
        }
    }
}

/// A rule without an entry has no requests.
proof fn lemma_no_lines(requests: Seq<LlmFixRequestView>, rule_id: Seq<char>)
    requires
        rule_position(merged(requests), rule_id, 0) is None,
    ensures
        lines_of_rule(requests, rule_id) == Seq::<u32>::empty(),
    decreases requests.len(),
{
    if requests.len() > 0 {
        let rest = requests.drop_last();
        let q = requests.last();
        let before = merged(rest);
        let now = merged(requests);
        lemma_rule_position(before, q.rule_id, 0);
        lemma_rule_position(now, rule_id, 0);
        lemma_rule_position(before, rule_id, 0);
        match rule_position(before, q.rule_id, 0) {
            Some(k) => {
                assert(now[k].rule_id == q.rule_id);
                if rule_position(before, rule_id, 0) is Some {
                    let p = rule_position(before, rule_id, 0)->0;
                    assert(now[p].rule_id == rule_id);
                }
            },
            None => {
                assert(now[before.len() as int].rule_id == q.rule_id);
                if rule_position(before, rule_id, 0) is Some {
                    let p = rule_position(before, rule_id, 0)->0;
                    assert(now[p] == before[p]);
                }
            },
        }
        lemma_no_lines(rest, rule_id);
    }
}

fn position_of_rule(v: &Vec<MergedLlmFixRequest>, rule_id: &str) -> (r: Option<usize>)
    ensures
        match r {
            Some(k) => rule_position(merged_views(v@), rule_id@, 0) == Some(k as int) && k < v@.len(),
            None => rule_position(merged_views(v@), rule_id@, 0) is None,
        },
{
    let mut i: usize = 0;
    while i < v.len()
        invariant
            i <= v@.len(),
            rule_position(merged_views(v@), rule_id@, 0) == rule_position(
                merged_views(v@),
                rule_id@,
                i as int,
            ),
        decreases v@.len() - i,
    {
        if same_text(v[i].rule_id.as_str(), rule_id) {
            return Some(i);
        }
        i = i + 1;
    }
    None
}

/// Merges requests by rule, in the order in which the rules first come up: one
/// entry per rule, with the lines and snippets of all its requests.
pub fn merge_by_rule_id(requests: &Vec<LlmFixRequest>) -> (r: Vec<MergedLlmFixRequest>)
    ensures
        merged_views(r@) == merged(request_views(requests@)),
{
    let mut out: Vec<MergedLlmFixRequest> = Vec::new();
    let ghost q = request_views(requests@);
    let mut i: usize = 0;
    assert(merged_views(out@) =~= merged(q.take(0)));
    while i < requests.len()
        invariant
            i <= requests@.len(),
            q == request_views(requests@),
            merged_views(out@) == merged(q.take(i as int)),
        decreases requests@.len() - i,
    {
        let request = &requests[i];
        assert(q.take(i + 1).drop_last() =~= q.take(i as int));
        assert(q.take(i + 1).last() == request@);
        let ghost before = merged_views(out@);
        let mut snips: Vec<(u32, String)> = Vec::new();
        if let Some(snip) = &request.code_snip {
            snips.push((request.line, snip.clone()));
        }
        assert(snip_views(snips@) =~= snip_of(request@));
        match position_of_rule(&out, request.rule_id.as_str()) {
            Some(k) => {
                let mut entry = out.remove(k);
                let ghost prior = entry@;
                entry.lines.push(request.line);
                let ghost had = entry.code_snips@;
                entry.code_snips.append(&mut snips);
                assert(snip_views(entry.code_snips@) =~= prior.snips + snip_of(request@));
                out.insert(k, entry);
                assert(merged_views(out@) =~= merged(q.take(i + 1)));
            },
            None => {
                let mut lines: Vec<u32> = Vec::new();
                lines.push(request.line);
                assert(lines@ =~= seq![request.line]);
                out.push(
                    MergedLlmFixRequest {
                        rule_id: request.rule_id.clone(),
                        file_path: request.file_path.clone(),
                        lines,
                        message: request.message.clone(),
                        code_snips: snips,
                    },
                );
                assert(merged_views(out@) =~= merged(q.take(i + 1)));
            },
        }
        i = i + 1;
    }
    assert(q.take(q.len() as int) =~= q);
    out
}

// ── Batches by file ─────────────────────────────────────────────────────

pub open spec fn priorities(v: Seq<MergedView>) -> Seq<int> {
    Seq::new(v.len(), |i: int| priority_of(v[i].rule_id) as int)
}

/// The entries by priority; entries of the same priority keep their order.
pub open spec fn prioritized(v: Seq<MergedView>) -> Seq<MergedView> {
    in_stable_order(v, priorities(v))
}

/// Entries of a file stand in ascending priority, so changes of the component tree
/// come before all others.
pub proof fn prioritized_ascends(v: Seq<MergedView>)
    ensures
        forall|i: int, j: int|
            0 <= i < j < prioritized(v).len() ==> priority_of((#[trigger] prioritized(v)[i]).rule_id)
                <= priority_of((#[trigger] prioritized(v)[j]).rule_id),
{
    let keys = priorities(v);
    stable_order_is_sorted(keys);
    let order = stable_order(keys);
    assert forall|i: int, j: int| 0 <= i < j < prioritized(v).len() implies priority_of(
        (#[trigger] prioritized(v)[i]).rule_id,
    ) <= priority_of((#[trigger] prioritized(v)[j]).rule_id) by {
        assert(crate::sorting::in_order(keys, order[i], order[j]));
        assert(keys[order[i]] == priority_of(v[order[i]].rule_id));
        assert(keys[order[j]] == priority_of(v[order[j]].rule_id));
    }
}

fn by_priority(v: Vec<MergedLlmFixRequest>) -> (r: Vec<MergedLlmFixRequest>)
    ensures
        merged_views(r@) == prioritized(merged_views(v@)),
{
    let mut keys: Vec<i128> = Vec::new();
    let mut i: usize = 0;
    while i < v.len()
        invariant
            i <= v@.len(),
            keys@.len() == i,
            forall|k: int| 0 <= k < i ==> #[trigger] keys@[k] == priority_of(v@[k].rule_id@) as int,
        decreases v@.len() - i,
    {
        let rank: u8 = fix_priority_by_id(v[i].rule_id.as_str());
        keys.push(rank as i128);
        i = i + 1;
    }
    proof {
        assert(key_values(keys@) =~= priorities(merged_views(v@)));
        stable_order_is_sorted(key_values(keys@));
    }
    let ghost all = v@;
    let r = stable_sort(v, &keys);
    assert(merged_views(r@) =~= prioritized(merged_views(all)));
    r
}

/// The requests for one file, in order. A file goes by the spelling of its path.
pub open spec fn for_file(requests: Seq<LlmFixRequestView>, path: Seq<char>) -> Seq<LlmFixRequestView>
    decreases requests.len(),
{
    if requests.len() == 0 {
        Seq::empty()
    } else {
        let before = for_file(requests.drop_last(), path);
        if path_spelt(requests.last().file_path) == path {
            before.push(requests.last())
        } else {
            before
        }
    }
}

/// The merged requests for one file, by priority.
pub open spec fn file_batch(requests: Seq<LlmFixRequestView>, path: Seq<char>) -> Seq<MergedView> {
    prioritized(merged(for_file(requests, path)))
}

/// The fixes for one file.
#[derive(Debug)]
pub struct FileBatch {
    pub file_path: String,
    pub requests: Vec<MergedLlmFixRequest>,
}

pub open spec fn batch_paths(v: Seq<FileBatch>) -> Seq<Seq<char>> {
    Seq::new(v.len(), |i: int| v[i].file_path@)
}

/// Whether some request is for a file.
pub open spec fn asks_for(requests: Seq<LlmFixRequestView>, path: Seq<char>) -> bool {
    exists|i: int| 0 <= i < requests.len() && path_spelt((#[trigger] requests[i]).file_path) == path
}

/// Whether `batches` holds one batch for every file that is asked for, in path
/// order, each with the merged requests for the file by priority.
pub open spec fn batches_files(batches: Seq<FileBatch>, requests: Seq<LlmFixRequestView>) -> bool {
    &&& in_key_order(true, batch_paths(batches))
    &&& forall|path: Seq<char>| #[trigger] asks_for(requests, path) <==> batch_paths(batches).contains(path)
    &&& forall|i: int|
        0 <= i < batches.len() ==> merged_views((#[trigger] batches[i]).requests@) == file_batch(
            requests,
            batches[i].file_path@,
        )
}

/// Groups requests by file in path order, merges those of the same rule within a
/// file and puts the rules of a file in order of priority.
pub fn batch_by_file(requests: &Vec<LlmFixRequest>) -> (r: Vec<FileBatch>)
    ensures
        batches_files(r@, request_views(requests@)),
{
    let mut by_file: PathMap<Vec<LlmFixRequest>> = PathMap::new();
    let ghost q = request_views(requests@);
    let mut i: usize = 0;
    while i < requests.len()
        invariant
            i <= requests@.len(),
            q == request_views(requests@),
            forall|path: Seq<char>|
                #[trigger] by_file@.dom().contains(path) <==> asks_for(q.take(i as int), path),
            forall|path: Seq<char>| #[trigger]
                by_file@.dom().contains(path) ==> request_views(by_file@[path]@) == for_file(
                    q.take(i as int),
                    path,
                ),
        decreases requests@.len() - i,
    {
        let request = copy_request(&requests[i]);
        let path = spell_path(request.file_path.as_str());
        let ghost before = by_file@;
        let ghost prior = q.take(i as int);
        let ghost now = q.take(i + 1);
        assert(now.drop_last() =~= prior);
        assert(now.last() == request@);
        push_to(&mut by_file, path, request);
        proof {
            assert forall|p: Seq<char>| #[trigger]
                by_file@.dom().contains(p) <==> asks_for(now, p) by {
                if asks_for(prior, p) {
                    let k = choose|k: int| 0 <= k < prior.len() && path_spelt((#[trigger] prior[k]).file_path) == p;
                    assert(now[k] == prior[k]);
                }
                if p == path@ {
                    assert(path_spelt(now[i as int].file_path) == p);
                }
                if asks_for(now, p) && p != path@ {
                    let k = choose|k: int| 0 <= k < now.len() && path_spelt((#[trigger] now[k]).file_path) == p;
                    assert(prior[k] == now[k]);
                    assert(asks_for(prior, p));
                }
                assert(by_file@.dom().contains(p) <==> (before.dom().contains(p) || p == path@));
            }
            assert forall|p: Seq<char>| #[trigger] by_file@.dom().contains(p) implies request_views(
                by_file@[p]@,
            ) == for_file(now, p) by {
                if p == path@ {
                    if !before.dom().contains(p) {
                        assert(!asks_for(prior, p));
                        lemma_for_file_none(prior, p);
                    }
                    assert(request_views(by_file@[p]@) =~= for_file(now, p));
                } else {
                    assert(before.dom().contains(p));
                    assert(by_file@[p] == before[p]);
                }
            }
        }
        i = i + 1;
    }
    assert(q.take(q.len() as int) =~= q);
    let n: usize = by_file.len();
    let mut out: Vec<FileBatch> = Vec::new();
    let mut k: usize = 0;
    while k < n
        invariant
            k <= n,
            n == by_file.keys().len(),
            out@.len() == k,
            forall|j: int| 0 <= j < k ==> (#[trigger] out@[j]).file_path@ == by_file.keys()[j],
            forall|path: Seq<char>| #[trigger]
                by_file@.dom().contains(path) ==> request_views(by_file@[path]@) == for_file(q, path),
            forall|j: int|
                0 <= j < k ==> merged_views((#[trigger] out@[j]).requests@) == file_batch(
                    q,
                    out@[j].file_path@,
                ),
        decreases n - k,
    {
        let entries = by_priority(merge_by_rule_id(by_file.value_at(k)));
        out.push(FileBatch { file_path: by_file.key_at(k).clone(), requests: entries });
        k = k + 1;
    }
    let m: usize = by_file.len();
    assert(batch_paths(out@) =~= by_file.keys());
    assert forall|path: Seq<char>| #[trigger]
        asks_for(q, path) <==> batch_paths(out@).contains(path) by {
        assert(by_file@.dom().contains(path) <==> by_file.keys().contains(path));
    }
    out
}

proof fn lemma_for_file_none(requests: Seq<LlmFixRequestView>, path: Seq<char>)
    requires
        !asks_for(requests, path),
    ensures
        for_file(requests, path) == Seq::<LlmFixRequestView>::empty(),
    decreases requests.len(),
{
    if requests.len() > 0 {
        let rest = requests.drop_last();
        assert(path_spelt(requests[requests.len() - 1].file_path) != path);
        if asks_for(rest, path) {
            let k = choose|k: int| 0 <= k < rest.len() && path_spelt((#[trigger] rest[k]).file_path) == path;
            assert(path_spelt(requests[k].file_path) == path);
        }
        lemma_for_file_none(rest, path);
    }
}

// ── Replies ─────────────────────────────────────────────────────────────

/// The text of a content block, if it is a text block.
pub open spec fn block_text(block: JsonView) -> Option<Seq<char>> {
    match field(block, "type"@) {
        Some(t) => if as_text(t) == Some("text"@) {
            match field(block, "text"@) {
                Some(x) => as_text(x),
                None => None,
            }
        } else {
            None
        },
        None => None,
    }
}

/// The texts of the text blocks.
pub open spec fn block_texts(blocks: Seq<JsonView>) -> Seq<Seq<char>>
    decreases blocks.len(),
{
    if blocks.len() == 0 {
        Seq::empty()
    } else {
        let before = block_texts(blocks.drop_last());
        match block_text(blocks.last()) {
            Some(t) => before.push(t),
            None => before,
        }
    }
}

pub open spec fn items_under(j: JsonView, key: Seq<char>) -> Option<Seq<JsonView>> {
    match field(j, key) {
        Some(x) => as_items(x),
        None => None,
    }
}

/// The texts that the assistant says in a message.
pub open spec fn said_texts(message: JsonView) -> Seq<Seq<char>> {
    if (match field(message, "role"@) {
        Some(x) => as_text(x),
        None => None,
    }) == Some("assistant"@) {
        match items_under(message, "content"@) {
            Some(blocks) => block_texts(blocks),
            None => Seq::empty(),
        }
    } else {
        Seq::empty()
    }
}

/// What the assistant says last: the texts of the last message with any, one below
/// the other; nothing without such a message.
pub open spec fn last_said(messages: Seq<JsonView>) -> Seq<char>
    decreases messages.len(),
{
    if messages.len() == 0 {
        Seq::empty()
    } else if said_texts(messages.last()).len() > 0 {
        join(said_texts(messages.last()), "\n"@)
    } else {
        last_said(messages.drop_last())
    }
}

/// The reply in the output of the agent: what the assistant says last in the
/// session. Output that is not a session is the reply itself.
pub open spec fn reply_in(raw: Seq<char>, session: Option<JsonView>) -> Seq<char> {
    match session {
        Some(j) => match items_under(j, "messages"@) {
            Some(messages) => last_said(messages),
            None => raw,
        },
        None => raw,
    }
}

fn items_of<'a>(j: &'a Json, key: &str) -> (r: Option<&'a Vec<Json>>)
    ensures
        match r {
            Some(v) => items_under(j@, key@) == Some(views(v@)),
            None => items_under(j@, key@) is None,
        },
{
    match j.get(key) {
        Some(x) => x.as_array(),
        None => None,
    }
}

fn text_is(j: &Json, key: &str, text: &str) -> (r: bool)
    ensures
        r == (field(j@, key@) is Some && as_text(field(j@, key@)->0) == Some(text@)),
{
    match j.get(key) {
        Some(x) => match x.as_str() {
            Some(t) => same_text(t, text),
            None => false,
        },
        None => false,
    }
}

fn texts_of_blocks(blocks: &Vec<Json>) -> (r: Vec<String>)
    ensures
        texts(r@) == block_texts(views(blocks@)),
{
    let ghost v = views(blocks@);
    let mut out: Vec<String> = Vec::new();
    let mut i: usize = 0;
    assert(texts(out@) =~= block_texts(v.take(0)));
    while i < blocks.len()
        invariant
            i <= blocks@.len(),
            v == views(blocks@),
            texts(out@) == block_texts(v.take(i as int)),
        decreases blocks@.len() - i,
    {
        let block = &blocks[i];
        assert(v.take(i + 1).drop_last() =~= v.take(i as int));
        assert(v.take(i + 1).last() == block@);
        if text_is(block, "type", "text") {
            if let Some(x) = block.get("text") {
                if let Some(t) = x.as_str() {
                    let s = t.to_owned();
                    proof {
                        lemma_texts_push(out@, s);
                    }
                    out.push(s);
                }
            }
        }
        i = i + 1;
    }
    assert(v.take(v.len() as int) =~= v);
    out
}

/// The reply in the output of the agent once the output was read as JSON.
pub fn reply_of_session(raw: &str, session: &Option<Json>) -> (r: String)
    ensures
        r@ == reply_in(
            raw@,
            opt_json(*session),
        ),
{
    let json = match session {
        Some(j) => j,
        None => {
            return raw.to_owned();
        },
    };
    let messages = match items_of(json, "messages") {
        Some(m) => m,
        None => {
            return raw.to_owned();
        },
    };
    let ghost v = views(messages@);
    let mut i: usize = messages.len();
    assert(v.take(v.len() as int) =~= v);
    while i > 0
        invariant
            i <= messages@.len(),
            v == views(messages@),
            reply_in(raw@, opt_json(*session)) == last_said(v.take(i as int)),
        decreases i,
    {
        i = i - 1;
        let message = &messages[i];
        assert(v.take(i + 1).drop_last() =~= v.take(i as int));
        assert(v.take(i + 1).last() == message@);
        if text_is(message, "role", "assistant") {
            if let Some(content) = items_of(message, "content") {
                let said = texts_of_blocks(content);
                if said.len() > 0 {
                    assert(said_texts(v.take(i + 1).last()) == texts(said@));
                    return join_texts(&said, "\n");
                }
            }
        }
    }
    let r = String::new();
    assert(r@ =~= Seq::<char>::empty());
    r
}

/// The text reply in the JSON output of the agent: the text of the last assistant
/// message that has any. A session without such a message gives the empty text, and
/// output that is no session is given back as it is.
pub fn extract_text_from_goose_json(raw_json: &str) -> (r: String)
    ensures
        r@ == reply_in(raw_json@, json_denoted(raw_json@)),
{
    let session = parse_json(raw_json);
    reply_of_session(raw_json, &session)
}

// ── What a session shows ────────────────────────────────────────────────

/// How much of a text a step of a session shows, in bytes.
pub const STEP_BYTES: u64 = 100;

/// The longest beginning of a text from place `i` that takes at most `most` bytes.
pub open spec fn fitting(s: Seq<char>, i: int, most: int) -> Seq<char>
    decreases s.len() - i,
{
    if i < 0 || i >= s.len() || char_width(s[i]) > most {
        Seq::empty()
    } else {
        seq![s[i]] + fitting(s, i + 1, most - char_width(s[i]))
    }
}

/// What a block of a message shows: the tool that is called, or the beginning of a text
/// that is not empty.
pub open spec fn block_step(block: JsonView) -> Option<Seq<char>> {
    let kind = text_field(block, "type"@);
    if kind == Some("toolUse"@) {
        match text_field(block, "name"@) {
            Some(name) => Some("tool_call="@ + name),
            None => Some("tool_call=?"@),
        }
    } else if kind == Some("text"@) && text_at(block, "text"@).len() > 0 {
        Some("text="@ + fitting(text_at(block, "text"@), 0, STEP_BYTES as int))
    } else {
        None
    }
}

pub open spec fn block_steps(blocks: Seq<JsonView>) -> Seq<Seq<char>>
    decreases blocks.len(),
{
    if blocks.len() == 0 {
        Seq::empty()
    } else {
        let before = block_steps(blocks.drop_last());
        match block_step(blocks.last()) {
            Some(t) => before.push(t),
            None => before,
        }
    }
}

/// The steps of a message of the assistant.
pub open spec fn message_steps(message: JsonView) -> Seq<Seq<char>> {
    if text_field(message, "role"@) == Some("assistant"@) {
        block_steps(list_at(message, "content"@))
    } else {
        Seq::empty()
    }
}

/// The steps of the assistant in some messages, in order.
pub open spec fn steps_in(messages: Seq<JsonView>) -> Seq<Seq<char>>
    decreases messages.len(),
{
    if messages.len() == 0 {
        Seq::empty()
    } else {
        steps_in(messages.drop_last()) + message_steps(messages.last())
    }
}

fn fit(text: &str, most: u64) -> (r: String)
    ensures
        r@ == fitting(text@, 0, most as int),
{
    let s = chars_of(text);
    let mut out: Vec<char> = Vec::new();
    let mut left: u64 = most;
    let mut i: usize = 0;
    assert(out@ + fitting(s@, 0, most as int) =~= fitting(s@, 0, most as int));
    while i < s.len() && width_of(s[i]) <= left
        invariant
            i <= s@.len(),
            out@ + fitting(s@, i as int, left as int) == fitting(s@, 0, most as int),
        decreases s@.len() - i,
    {
        let ghost before = out@;
        let ghost whole = fitting(s@, i as int, left as int);
        left = left - width_of(s[i]);
        out.push(s[i]);
        i = i + 1;
        assert(out@ + fitting(s@, i as int, left as int) =~= before + whole);
    }
    assert(out@ + fitting(s@, i as int, left as int) =~= out@);
    string_of(out.as_slice())
}

fn step_of_block(block: &Json) -> (r: Option<String>)
    ensures
        opt_text(r) == block_step(block@),
{
    proof {
        reveal_strlit("toolUse");
        reveal_strlit("text");
        assert("toolUse"@.len() != "text"@.len());
    }
    let kind = match block.get_str("type") {
        Some(k) => k,
        None => {
            return None;
        },
    };
    if same_text(kind, "toolUse") {
        return match block.get_str("name") {
            Some(name) => Some(cat2("tool_call=", name)),
            None => Some("tool_call=?".to_owned()),
        };
    }
    let text = block.get_text("text");
    if same_text(kind, "text") && chars_of(text.as_str()).len() > 0 {
        let shown = fit(text.as_str(), STEP_BYTES);
        return Some(cat2("text=", shown.as_str()));
    }
    None
}

fn push_block_steps(blocks: &Vec<Json>, out: &mut Vec<String>)
    ensures
        texts(final(out)@) == texts(old(out)@) + block_steps(views(blocks@)),
{
    let ghost v = views(blocks@);
    let ghost before = texts(out@);
    let mut i: usize = 0;
    assert(before + block_steps(v.take(0)) =~= before);
    while i < blocks.len()
        invariant
            i <= blocks@.len(),
            v == views(blocks@),
            texts(out@) == before + block_steps(v.take(i as int)),
        decreases blocks@.len() - i,
    {
        assert(v.take(i + 1).drop_last() =~= v.take(i as int));
        if let Some(step) = step_of_block(&blocks[i]) {
            proof {
                lemma_texts_push(out@, step);
            }
            out.push(step);
        }
        assert(texts(out@) =~= before + block_steps(v.take(i + 1)));
        i = i + 1;
    }
    assert(v.take(v.len() as int) =~= v);
}

/// What the assistant did in a session: the tools that it called and the texts that it
/// wrote, in order.
pub fn session_steps(session: &Json) -> (r: Vec<String>)
    ensures
        texts(r@) == steps_in(list_at(session@, "messages"@)),
{
    let mut out: Vec<String> = Vec::new();
    let messages = match session.get_list("messages") {
        Some(m) => m,
        None => {
            assert(texts(out@) =~= Seq::<Seq<char>>::empty());
            return out;
        },
    };
    let ghost v = views(messages@);
    let mut i: usize = 0;
    assert(texts(out@) =~= steps_in(v.take(0)));
    while i < messages.len()
        invariant
            i <= messages@.len(),
            v == views(messages@),
            texts(out@) == steps_in(v.take(i as int)),
        decreases messages@.len() - i,
    {
        assert(v.take(i + 1).drop_last() =~= v.take(i as int));
        assert(v.take(i + 1).last() == messages@[i as int]@);
        let ghost before = texts(out@);
        if text_is(&messages[i], "role", "assistant") {
            match messages[i].get_list("content") {
                Some(blocks) => push_block_steps(blocks, &mut out),
                None => {},
            }
        }
        assert(texts(out@) =~= before + message_steps(messages@[i as int]@));
        i = i + 1;
    }
    assert(v.take(v.len() as int) =~= v);
    out
}

/// How many messages a session has.
pub fn message_count(session: &Json) -> (r: usize)
    ensures
        r == list_at(session@, "messages"@).len(),
{
    match session.get_list("messages") {
        Some(m) => m.len(),
        None => 0,
    }
}

// ── Prompts ─────────────────────────────────────────────────────────────

/// How the prompt for a single fix begins.
pub const FIX_OPENING: &'static str = r#"You are applying a PatternFly v5 to v6 migration fix.

File: "#;

/// What stands before the code of a fix.
pub const CONTEXT_OPENING: &'static str = r#"

Code context:
```
"#;

/// The first step of a single fix, before the path.
pub const READ_STEP: &'static str = r#"
```

Instructions:
1. Read the file at "#;

/// The second step of a single fix, before the lines.
pub const APPLY_STEP: &'static str = r#"
2. Apply ONLY the change described by the migration rule at or near line "#;

/// The steps and constraints that end the prompt for a single fix.
pub const FIX_RULES: &'static str = r#"
3. Make the minimum edit necessary — do not change unrelated code
4. Write the fixed file

IMPORTANT constraints:
- NEVER use deep import paths like '@patternfly/react-core/dist/esm/...' or '@patternfly/react-core/next'. Always use the public barrel import '@patternfly/react-core'.
- NEVER replace PatternFly components (Button, MenuToggle, etc.) with raw HTML elements (<button>, <a>, <div>). If a component still exists in PF6, keep using it.
- NEVER remove data-ouia-component-id, ouiaId, or other test identifier props unless the migration rule specifically says to.
- NEVER invent or use component names that are not mentioned in the migration rules or already imported in the file. Only use components explicitly named in the rule message.
- When adding new components (ModalHeader, ModalBody, ModalFooter, etc.), import them from the same package as the parent component.
- If the migration rule says a component was "restructured" or "still exists", keep the component and only restructure its props/children as described. If the rule says a component was "removed" and tells you to remove the import, DO remove it and migrate to the replacement described in the rule.
- When a prop migration says to pass a prop to a child component (e.g., 'actions → pass as children of <ModalFooter>'), you MUST create that child component element, import it, and render the prop value within it.
- Props can be passed in multiple ways — look for ALL of them when migrating a removed prop:
  * Direct: `propName={value}`
  * Conditional spread: `{...(value && { propName: value })}` or `{...(condition && { propName })}` — convert the condition to wrap the new child component, e.g., `{value && <ChildComponent>{value}</ChildComponent>}`
  * Object spread: `{...props}` — check if the spread object contains the removed prop

Before writing, reason through the fix step by step to ensure nothing is missed. Then read the file, make the edit, and write it."#;

/// What stands before the code of a fix at several places.
pub const CONTEXTS_OPENING: &'static str = r#"

This rule affects multiple locations in the file. Apply ALL steps together as one logical change.

Code contexts:
```
"#;

/// How the prompt for several fixes begins.
pub const BATCH_OPENING: &'static str = r#"You are applying PatternFly v5 to v6 migration fixes to a single file.

File: "#;

/// The steps and constraints that end the prompt for several fixes.
pub const BATCH_RULES: &'static str = r#"
2. Process each fix INDEPENDENTLY in sequence. For each fix:
   a. Identify the exact code affected (line number, prop, component)
   b. Determine the specific change needed (add/remove/move import, restructure JSX, migrate prop)
   c. If a prop is being relocated to a child component, note the child component that must be created
   d. Track the change for the final write
3. Make the minimum edits necessary — do not change unrelated code
4. Do NOT revert any changes that were already applied in previous passes
5. Write the fixed file once with ALL changes from every fix applied

IMPORTANT constraints:
- NEVER use deep import paths like '@patternfly/react-core/dist/esm/...' or '@patternfly/react-core/next'. Always use the public barrel import '@patternfly/react-core'.
- NEVER replace PatternFly components (Button, MenuToggle, etc.) with raw HTML elements (<button>, <a>, <div>). If a component still exists in PF6, keep using it.
- NEVER remove data-ouia-component-id, ouiaId, or other test identifier props unless the migration rule specifically says to.
- NEVER invent or use component names that are not mentioned in the migration rules or already imported in the file. Only use components explicitly named in the rule message.
- When adding new components (ModalHeader, ModalBody, ModalFooter, etc.), import them from the same package as the parent component.
- If the migration rule says a component was "restructured" or "still exists", keep the component and only restructure its props/children as described. If the rule says a component was "removed" and tells you to remove the import, DO remove it and migrate to the replacement described in the rule.
- When a prop migration says to pass a prop to a child component (e.g., 'actions → pass as children of <ModalFooter>'), you MUST create that child component element, import it, and render the prop value within it.
- Props can be passed in multiple ways — look for ALL of them when migrating a removed prop:
  * Direct: `propName={value}`
  * Conditional spread: `{...(value && { propName: value })}` or `{...(condition && { propName })}` — convert the condition to wrap the new child component, e.g., `{value && <ChildComponent>{value}</ChildComponent>}`
  * Object spread: `{...props}` — check if the spread object contains the removed prop

VERIFICATION: After making edits, check that EVERY removed prop listed in the migration rules
has been migrated to its specified child component. Do NOT declare a migration "already applied"
unless ALL listed child components are present AND all removed props are accounted for.

Before writing, reason through each fix step by step to ensure nothing is missed. Then read the file, make the edits, and write it."#;

/// What stands before the fixes of earlier batches.
pub const APPLIED_HEAD: &'static str = r#"
## Previously attempted fixes:
The following fixes were attempted in a previous pass. Most should already
be applied to the file on disk. Do NOT revert changes that are already correct.
However, if any of these fixes were NOT actually applied (the old pattern
still exists in the file), apply them now along with the new fixes below.
"#;

/// What is added to a prompt whose first run gave no reply.
pub const RETRY_NOTE: &'static str = "\n\nRETRY: The previous attempt may have made PARTIAL changes to the file but did not complete. You MUST read the file as it exists NOW on disk, check each fix individually, and apply every fix that is not yet present. Do not assume all fixes are applied just because some are — check EVERY one.";

/// Line numbers as a list.
pub open spec fn lines_list(v: Seq<u32>) -> Seq<char> {
    join(Seq::new(v.len(), |i: int| decimal(v[i] as nat)), ", "@)
}

/// Snippets below each other, each under its line.
pub open spec fn all_snips(v: Seq<(u32, Seq<char>)>) -> Seq<char>
    decreases v.len(),
{
    if v.len() == 0 {
        Seq::empty()
    } else {
        all_snips(v.drop_last()) + "  (line "@ + decimal(v.last().0 as nat) + "):\n"@ + v.last().1 + "\n"@
    }
}

/// The code shown for a single fix.
pub open spec fn merged_context(v: Seq<(u32, Seq<char>)>) -> Seq<char> {
    if v.len() == 0 {
        "(no code snippet available)"@
    } else if v.len() == 1 {
        v[0].1
    } else {
        all_snips(v)
    }
}

/// The code shown for a fix at one place in a batch.
pub open spec fn first_snip(v: Seq<(u32, Seq<char>)>) -> Seq<char> {
    if v.len() == 0 {
        "(no snippet)"@
    } else {
        v[0].1
    }
}

/// The prompt for a single fix.
pub open spec fn merged_prompt(r: MergedView) -> Seq<char> {
    FIX_OPENING@
        + r.file_path
        + "\nLine: "@
        + lines_list(r.lines)
        + "\n\nMigration rule ["@
        + r.rule_id
        + "]:\n"@
        + r.message
        + CONTEXT_OPENING@
        + merged_context(r.snips)
        + READ_STEP@
        + r.file_path
        + APPLY_STEP@
        + lines_list(r.lines)
        + FIX_RULES@
}

/// The section on one fix of a batch.
pub open spec fn fix_section(r: MergedView, number: nat) -> Seq<char> {
    if r.lines.len() == 1 {
        "\n### Fix "@
            + decimal(number)
            + "\nLine: "@
            + lines_list(r.lines)
            + "\nRule ["@
            + r.rule_id
            + "]:\n"@
            + r.message
            + CONTEXT_OPENING@
            + first_snip(r.snips)
            + "\n```\n"@
    } else {
        "\n### Fix "@
            + decimal(number)
            + "\nLines: "@
            + lines_list(r.lines)
            + "\nRule ["@
            + r.rule_id
            + "]:\n"@
            + r.message
            + CONTEXTS_OPENING@
            + all_snips(r.snips)
            + "```\n"@
    }
}

/// The sections on the first `n` fixes of a batch.
pub open spec fn fixes_text(v: Seq<MergedView>, n: int) -> Seq<char>
    decreases n,
{
    if n <= 0 {
        Seq::empty()
    } else {
        fixes_text(v, n - 1) + fix_section(v[n - 1], n as nat)
    }
}

/// The section on the fixes of earlier batches, where there were any batches.
pub open spec fn applied_section(applied: Option<Seq<Seq<char>>>) -> Seq<char> {
    match applied {
        Some(v) => APPLIED_HEAD@ + join(v, "\n"@) + "\n\n"@,
        None => Seq::empty(),
    }
}

/// The fixes that a batch is told of: none before the first ones.
pub open spec fn told(applied: Seq<Seq<char>>) -> Option<Seq<Seq<char>>> {
    if applied.len() == 0 {
        None
    } else {
        Some(applied)
    }
}

/// The contents of an optional list.
pub open spec fn opt_texts(o: Option<&[String]>) -> Option<Seq<Seq<char>>> {
    match o {
        Some(v) => Some(texts(v@)),
        None => None,
    }
}

/// The prompt for several fixes of a file, after those of earlier batches.
pub open spec fn batch_prompt(
    path: Seq<char>,
    v: Seq<MergedView>,
    applied: Option<Seq<Seq<char>>>,
) -> Seq<char> {
    BATCH_OPENING@
        + path
        + "\n"@
        + applied_section(applied)
        + "\nApply ALL of the following "@
        + decimal(v.len())
        + " fixes to this file:\n"@
        + fixes_text(v, v.len() as int)
        + "\nInstructions:\n1. Read the file at "@
        + path
        + BATCH_RULES@
}

fn show_lines(v: &Vec<u32>) -> (r: String)
    ensures
        r@ == lines_list(v@),
{
    let mut shown: Vec<String> = Vec::new();
    let mut i: usize = 0;
    while i < v.len()
        invariant
            i <= v@.len(),
            shown@.len() == i,
            forall|k: int| 0 <= k < i ==> (#[trigger] shown@[k])@ == decimal(v@[k] as nat),
        decreases v@.len() - i,
    {
        shown.push(decimal_text(v[i] as u64));
        i = i + 1;
    }
    assert(texts(shown@) =~= Seq::new(v@.len(), |i: int| decimal(v@[i] as nat)));
    join_texts(&shown, ", ")
}

fn show_snips(v: &Vec<(u32, String)>) -> (r: String)
    ensures
        r@ == all_snips(snip_views(v@)),
{
    let ghost s = snip_views(v@);
    let mut out = String::new();
    let mut i: usize = 0;
    assert(out@ =~= all_snips(s.take(0)));
    while i < v.len()
        invariant
            i <= v@.len(),
            s == snip_views(v@),
            out@ == all_snips(s.take(i as int)),
        decreases v@.len() - i,
    {
        assert(s.take(i + 1).drop_last() =~= s.take(i as int));
        assert(s.take(i + 1).last() == s[i as int]);
        let line = decimal_text(v[i].0 as u64);
        out.append("  (line ");
        out.append(line.as_str());
        out.append("):\n");
        out.append(v[i].1.as_str());
        out.append("\n");
        i = i + 1;
    }
    assert(s.take(s.len() as int) =~= s);
    out
}

/// The prompt for a single rule at one or more lines of a file.
pub fn build_merged_prompt(request: &MergedLlmFixRequest) -> (result: String)
    ensures
        result@ == merged_prompt(request@),
{
    let r = request;
    let shown_lines = show_lines(&r.lines);
    let context = if r.code_snips.len() == 0 {
        "(no code snippet available)".to_owned()
    } else if r.code_snips.len() == 1 {
        r.code_snips[0].1.clone()
    } else {
        show_snips(&r.code_snips)
    };
    let mut s = FIX_OPENING.to_owned();
    s.append(r.file_path.as_str());
    s.append("\nLine: ");
    s.append(shown_lines.as_str());
    s.append("\n\nMigration rule [");
    s.append(r.rule_id.as_str());
    s.append("]:\n");
    s.append(r.message.as_str());
    s.append(CONTEXT_OPENING);
    s.append(context.as_str());
    s.append(READ_STEP);
    s.append(r.file_path.as_str());
    s.append(APPLY_STEP);
    s.append(shown_lines.as_str());
    s.append(FIX_RULES);
    s
}

fn build_fix_section(request: &MergedLlmFixRequest, number: usize) -> (result: String)
    ensures
        result@ == fix_section(request@, number as nat),
{
    let r = request;
    let shown_lines = show_lines(&r.lines);
    let numeral = decimal_text(number as u64);
    if r.lines.len() == 1 {
        let context = if r.code_snips.len() == 0 {
            "(no snippet)"
        } else {
            r.code_snips[0].1.as_str()
        };
        let mut s = "\n### Fix ".to_owned();
        s.append(numeral.as_str());
        s.append("\nLine: ");
        s.append(shown_lines.as_str());
        s.append("\nRule [");
        s.append(r.rule_id.as_str());
        s.append("]:\n");
        s.append(r.message.as_str());
        s.append(CONTEXT_OPENING);
        s.append(context);
        s.append("\n```\n");
        s
    } else {
        let context = show_snips(&r.code_snips);
        let mut s = "\n### Fix ".to_owned();
        s.append(numeral.as_str());
        s.append("\nLines: ");
        s.append(shown_lines.as_str());
        s.append("\nRule [");
        s.append(r.rule_id.as_str());
        s.append("]:\n");
        s.append(r.message.as_str());
        s.append(CONTEXTS_OPENING);
        s.append(context.as_str());
        s.append("```\n");
        s
    }
}

/// The prompt for several rules of a file. `previously_applied` lists the fixes that
/// earlier batches were asked for.
pub fn build_batch_prompt_with_context(
    file_path: &str,
    requests: &[MergedLlmFixRequest],
    previously_applied: Option<&[String]>,
) -> (result: String)
    ensures
        result@ == batch_prompt(
            file_path@,
            merged_views(requests@),
            opt_texts(previously_applied),
        ),
{
    let ghost v = merged_views(requests@);
    let mut fixes = String::new();
    let total: usize = requests.len();
    let mut i: usize = 0;
    assert(fixes@ =~= fixes_text(v, 0));
    while i < total
        invariant
            i <= total,
            total == requests@.len(),
            v == merged_views(requests@),
            fixes@ == fixes_text(v, i as int),
        decreases total - i,
    {
        let section = build_fix_section(&requests[i], i + 1);
        fixes.append(section.as_str());
        i = i + 1;
    }
    let section = match previously_applied {
        Some(applied) => {
            let listed = join_slice(applied, "\n");
            let mut s = APPLIED_HEAD.to_owned();
            s.append(listed.as_str());
            s.append("\n\n");
            s
        },
        None => String::new(),
    };
    assert(section@ =~= applied_section(opt_texts(previously_applied)));
    let count = decimal_text(total as u64);
    let mut s = BATCH_OPENING.to_owned();
    s.append(file_path);
    s.append("\n");
    s.append(section.as_str());
    s.append("\nApply ALL of the following ");
    s.append(count.as_str());
    s.append(" fixes to this file:\n");
    s.append(fixes.as_str());
    s.append("\nInstructions:\n1. Read the file at ");
    s.append(file_path);
    s.append(BATCH_RULES);
    s
}

// ── Runs for one file ───────────────────────────────────────────────────

/// The outcome of the fixes for a file.
#[derive(Debug)]
pub struct GooseFixResult {
    pub file_path: String,
    /// The rules, as a list.
    pub rule_id: String,
    pub success: bool,
    pub output: String,
}

/// Which run for a batch is next.
#[derive(Debug, Clone, Copy, PartialEq, Eq, Structural)]
pub enum RunPhase {
    /// The first run for the batch.
    First,
    /// Another run, since the first gave no reply.
    AfterEmptyReply,
    /// Another run, since the last one took too long.
    AfterTimeout,
    /// No run is left.
    Finished,
}

/// What to do next for a file.
#[derive(Debug)]
pub enum GooseAction {
    /// Run the agent after a delay.
    Run { prompt: String, max_turns: usize, delay_secs: u64 },
    /// Nothing is left to run.
    Done,
}

/// How a run ended.
#[derive(Debug)]
pub enum GooseEvent {
    /// The agent exited, with this reply and this raw output.
    Completed { success: bool, output: String, raw: String },
    /// The agent could not be run or took too long.
    Failed { message: String },
}

/// The runs of the agent for one file: batches of its fixes, one after the other.
#[derive(Debug)]
pub struct GooseRun {
    pub file_path: String,
    pub requests: Vec<MergedLlmFixRequest>,
    /// The number of batches that are done.
    pub batch: usize,
    pub phase: RunPhase,
    /// The fixes that were asked for in earlier batches.
    pub applied: Vec<String>,
    /// The prompt of each batch.
    pub prompts: Vec<String>,
    /// The reply to each batch.
    pub outputs: Vec<String>,
    /// The raw output for each batch.
    pub raw_outputs: Vec<String>,
    /// Whether each batch was run again for want of a reply.
    pub retried: Vec<bool>,
    /// Whether the current batch was run again for want of a reply.
    pub was_retried: bool,
    pub result: GooseFixResult,
}

pub ghost struct GooseResultView {
    pub file_path: Seq<char>,
    pub rule_id: Seq<char>,
    pub success: bool,
    pub output: Seq<char>,
}

pub ghost enum GooseActionView {
    Run { prompt: Seq<char>, max_turns: nat, delay_secs: nat },
    Done,
}

pub ghost enum GooseEventView {
    Completed { success: bool, output: Seq<char>, raw: Seq<char> },
    Failed { message: Seq<char> },
}

#[verifier::ext_equal]
pub ghost struct GooseRunView {
    pub file_path: Seq<char>,
    pub requests: Seq<MergedView>,
    pub batch: nat,
    pub phase: RunPhase,
    pub applied: Seq<Seq<char>>,
    pub prompts: Seq<Seq<char>>,
    pub outputs: Seq<Seq<char>>,
    pub raw_outputs: Seq<Seq<char>>,
    pub retried: Seq<bool>,
    pub was_retried: bool,
    pub result: GooseResultView,
}

impl GooseFixResult {
    pub open spec fn view(&self) -> GooseResultView {
        GooseResultView {
            file_path: self.file_path@,
            rule_id: self.rule_id@,
            success: self.success,
            output: self.output@,
        }
    }
}

impl GooseAction {
    pub open spec fn view(&self) -> GooseActionView {
        match self {
            GooseAction::Run { prompt, max_turns, delay_secs } => GooseActionView::Run {
                prompt: prompt@,
                max_turns: *max_turns as nat,
                delay_secs: *delay_secs as nat,
            },
            GooseAction::Done => GooseActionView::Done,
        }
    }
}

impl GooseEvent {
    pub open spec fn view(&self) -> GooseEventView {
        match self {
            GooseEvent::Completed { success, output, raw } => GooseEventView::Completed {
                success: *success,
                output: output@,
                raw: raw@,
            },
            GooseEvent::Failed { message } => GooseEventView::Failed { message: message@ },
        }
    }
}

impl GooseRun {
    pub open spec fn view(&self) -> GooseRunView {
        GooseRunView {
            file_path: self.file_path@,
            requests: merged_views(self.requests@),
            batch: self.batch as nat,
            phase: self.phase,
            applied: texts(self.applied@),
            prompts: texts(self.prompts@),
            outputs: texts(self.outputs@),
            raw_outputs: texts(self.raw_outputs@),
            retried: self.retried@,
            was_retried: self.was_retried,
            result: self.result@,
        }
    }

    /// A batch is under way exactly while some run is left.
    pub open spec fn wf(&self) -> bool {
        self@.wf()
    }
}

/// The rules of a list of entries.
pub open spec fn rule_ids(v: Seq<MergedView>) -> Seq<Seq<char>> {
    Seq::new(v.len(), |i: int| v[i].rule_id)
}

/// What is said of a fix to later batches: its rule, its lines and the first line of
/// its message.
pub open spec fn applied_note(r: MergedView) -> Seq<char> {
    "- "@ + r.rule_id + " (line "@ + lines_list(r.lines) + "): "@ + (if lines(r.message).len() == 0 {
        Seq::empty()
    } else {
        lines(r.message)[0]
    })
}

pub open spec fn applied_notes(v: Seq<MergedView>) -> Seq<Seq<char>> {
    Seq::new(v.len(), |i: int| applied_note(v[i]))
}

impl GooseRunView {
    pub open spec fn wf(self) -> bool {
        self.phase != RunPhase::Finished ==> self.batch * 8 < self.requests.len()
    }

    /// The end of the current batch.
    pub open spec fn batch_end(self) -> int {
        if self.batch * 8 + 8 <= self.requests.len() {
            (self.batch * 8 + 8) as int
        } else {
            self.requests.len() as int
        }
    }

    /// The entries of the current batch.
    pub open spec fn current(self) -> Seq<MergedView> {
        self.requests.subrange((self.batch * 8) as int, self.batch_end())
    }

    /// Whether all fixes of the file are one rule.
    pub open spec fn single(self) -> bool {
        self.requests.len() == 1
    }

    /// The prompt for the current batch.
    pub open spec fn prompt(self) -> Seq<char> {
        if self.single() {
            merged_prompt(self.requests[0])
        } else {
            batch_prompt(self.file_path, self.current(), told(self.applied))
        }
    }

    /// How many turns the agent has: five for a single rule, else 22 and one more
    /// for each fix, at most forty.
    pub open spec fn max_turns(self) -> nat {
        if self.single() {
            5
        } else if 22 + self.current().len() <= 40 {
            22 + self.current().len()
        } else {
            40
        }
    }

    /// What to do next. A run for want of a reply starts after two seconds and says
    /// so in a batch; one after a timeout starts after ten seconds.
    pub open spec fn action(self) -> GooseActionView {
        match self.phase {
            RunPhase::Finished => GooseActionView::Done,
            RunPhase::First => GooseActionView::Run {
                prompt: self.prompt(),
                max_turns: self.max_turns(),
                delay_secs: 0,
            },
            RunPhase::AfterEmptyReply => GooseActionView::Run {
                prompt: if self.single() {
                    self.prompt()
                } else {
                    self.prompt() + RETRY_NOTE@
                },
                max_turns: self.max_turns(),
                delay_secs: 2,
            },
            RunPhase::AfterTimeout => GooseActionView::Run {
                prompt: self.prompt(),
                max_turns: self.max_turns(),
                delay_secs: 10,
            },
        }
    }

    /// The run with the prompt of its current batch noted.
    pub open spec fn with_prompt(self) -> GooseRunView {
        GooseRunView { prompts: self.prompts.push(self.prompt()), ..self }
    }

    /// The state before the next batch; finished if there is none.
    pub open spec fn next_batch(self) -> GooseRunView {
        if (self.batch + 1) * 8 < self.requests.len() {
            GooseRunView {
                batch: self.batch + 1,
                phase: RunPhase::First,
                was_retried: false,
                ..self
            }.with_prompt()
        } else {
            GooseRunView { batch: self.batch + 1, phase: RunPhase::Finished, ..self }
        }
    }

    pub open spec fn finished(self) -> GooseRunView {
        GooseRunView { phase: RunPhase::Finished, ..self }
    }

    /// The state once a run that gave a reply is accepted.
    pub open spec fn accepted(self, success: bool, output: Seq<char>, raw: Seq<char>) -> GooseRunView {
        let late = self.phase == RunPhase::AfterTimeout;
        let noted = GooseRunView {
            applied: if self.single() {
                self.applied
            } else {
                self.applied + applied_notes(self.current())
            },
            outputs: self.outputs.push(output),
            raw_outputs: if late {
                self.raw_outputs
            } else {
                self.raw_outputs.push(raw)
            },
            retried: if late {
                self.retried
            } else {
                self.retried.push(self.was_retried)
            },
            result: GooseResultView {
                file_path: self.file_path,
                rule_id: join(rule_ids(self.requests), ", "@),
                success,
                output,
            },
            ..self
        };
        if success || late {
            noted.next_batch()
        } else {
            noted.finished()
        }
    }

    /// The state once the file is given up.
    pub open spec fn given_up(self, message: Seq<char>) -> GooseRunView {
        GooseRunView {
            result: GooseResultView {
                file_path: self.file_path,
                rule_id: join(rule_ids(self.requests), ", "@),
                success: false,
                output: "Error: "@ + message,
            },
            ..self
        }.finished()
    }

    /// The state after a run. An empty reply to the first run for a batch is retried
    /// once; so is a run of a batch that timed out. A run that fails ends the file.
    pub open spec fn after(self, event: GooseEventView) -> GooseRunView {
        if self.phase == RunPhase::Finished {
            self
        } else {
            match event {
                GooseEventView::Completed { success, output, raw } => if self.phase == RunPhase::First
                    && utf8(output).len() <= 1 {
                    GooseRunView { phase: RunPhase::AfterEmptyReply, was_retried: true, ..self }
                } else {
                    self.accepted(success, output, raw)
                },
                GooseEventView::Failed { message } => if !self.single() && self.phase
                    != RunPhase::AfterTimeout && contains(message, "timed out"@) {
                    GooseRunView { phase: RunPhase::AfterTimeout, ..self }
                } else {
                    self.given_up(message)
                },
            }
        }
    }

    /// A bound on the runs that are left: three for every batch that is not done.
    pub open spec fn runs_left(self) -> int {
        match self.phase {
            RunPhase::Finished => 0,
            RunPhase::First => 3 * (self.requests.len() - self.batch * 8),
            RunPhase::AfterEmptyReply => 3 * (self.requests.len() - self.batch * 8) - 1,
            RunPhase::AfterTimeout => 3 * (self.requests.len() - self.batch * 8) - 2,
        }
    }
}

/// The state before the first run for a file.
pub open spec fn started(path: Seq<char>, requests: Seq<MergedView>) -> GooseRunView {
    let blank = GooseRunView {
        file_path: path,
        requests,
        batch: 0,
        phase: RunPhase::First,
        applied: Seq::empty(),
        prompts: Seq::empty(),
        outputs: Seq::empty(),
        raw_outputs: Seq::empty(),
        retried: Seq::empty(),
        was_retried: false,
        result: GooseResultView {
            file_path: path,
            rule_id: Seq::empty(),
            success: true,
            output: Seq::empty(),
        },
    };
    if requests.len() == 0 {
        blank.finished()
    } else {
        blank.with_prompt()
    }
}

/// Whatever the runs give, the runs for a file come to an end: each one lowers the
/// bound on those that are left, and none is left exactly when there is nothing to do.
pub proof fn runs_come_to_an_end(run: GooseRunView, event: GooseEventView)
    requires
        run.wf(),
    ensures
        run.after(event).wf(),
        run.runs_left() >= 0,
        run.runs_left() == 0 <==> run.action() == GooseActionView::Done,
        run.phase != RunPhase::Finished ==> run.after(event).runs_left() < run.runs_left(),
{
}

/// The prompts, replies and notes of earlier batches are kept: a run only adds to them.
pub proof fn runs_only_add(run: GooseRunView, event: GooseEventView)
    requires
        run.wf(),
    ensures
        run.prompts.is_prefix_of(run.after(event).prompts),
        run.outputs.is_prefix_of(run.after(event).outputs),
        run.applied.is_prefix_of(run.after(event).applied),
        run.after(event).requests == run.requests,
        run.after(event).file_path == run.file_path,
{
}

/// A reported success is the word of the agent: a file whose runs end in success had
/// a last run that completed with success, with the reply that is reported.
pub proof fn success_is_reported_by_the_agent(run: GooseRunView, event: GooseEventView)
    requires
        run.wf(),
        run.phase != RunPhase::Finished,
        run.after(event).phase == RunPhase::Finished,
        run.after(event).result.success,
    ensures
        event matches GooseEventView::Completed { success, output, .. } && success
            && run.after(event).result.output == output,
{
}

fn list_rules(v: &[MergedLlmFixRequest]) -> (r: Vec<String>)
    ensures
        texts(r@) == rule_ids(merged_views(v@)),
{
    let mut out: Vec<String> = Vec::new();
    let mut i: usize = 0;
    while i < v.len()
        invariant
            i <= v@.len(),
            out@.len() == i,
            forall|k: int| 0 <= k < i ==> (#[trigger] out@[k])@ == v@[k].rule_id@,
        decreases v@.len() - i,
    {
        out.push(v[i].rule_id.clone());
        i = i + 1;
    }
    assert(texts(out@) =~= rule_ids(merged_views(v@)));
    out
}

fn note_of(request: &MergedLlmFixRequest) -> (r: String)
    ensures
        r@ == applied_note(request@),
{
    let shown = show_lines(&request.lines);
    let message = lines_text(request.message.as_str());
    let mut s = "- ".to_owned();
    s.append(request.rule_id.as_str());
    s.append(" (line ");
    s.append(shown.as_str());
    s.append("): ");
    if message.len() > 0 {
        s.append(message[0].as_str());
    }
    assert(s@ =~= applied_note(request@));
    s
}

/// The rules of a file on one line: all of up to three, else the first two and how
/// many more there are.
pub fn rules_display(rule_ids: &Vec<String>) -> (r: String)
    ensures
        r@ == (if rule_ids@.len() <= 3 {
            join(texts(rule_ids@), ", "@)
        } else {
            join(texts(rule_ids@).take(2), ", "@) + ", ... +"@ + decimal((rule_ids@.len() - 2) as nat)
                + " more"@
        }),
{
    if rule_ids.len() <= 3 {
        join_texts(rule_ids, ", ")
    } else {
        let mut first: Vec<String> = Vec::new();
        first.push(rule_ids[0].clone());
        first.push(rule_ids[1].clone());
        assert(texts(first@) =~= texts(rule_ids@).take(2));
        let more = decimal_text((rule_ids.len() - 2) as u64);
        let mut s = join_texts(&first, ", ");
        s.append(", ... +");
        s.append(more.as_str());
        s.append(" more");
        s
    }
}

impl GooseRun {
    /// The runs for a file, before the first.
    pub fn start(file_path: String, requests: Vec<MergedLlmFixRequest>) -> (r: GooseRun)
        ensures
            r.wf(),
            r@ == started(file_path@, merged_views(requests@)),
    {
        let ghost blank = started(file_path@, merged_views(requests@));
        let none: bool = requests.len() == 0;
        let mut run = GooseRun {
            file_path: file_path.clone(),
            requests,
            batch: 0,
            phase: if none {
                RunPhase::Finished
            } else {
                RunPhase::First
            },
            applied: Vec::new(),
            prompts: Vec::new(),
            outputs: Vec::new(),
            raw_outputs: Vec::new(),
            retried: Vec::new(),
            was_retried: false,
            result: GooseFixResult {
                file_path,
                rule_id: String::new(),
                success: true,
                output: String::new(),
            },
        };
        assert(run@.applied =~= Seq::<Seq<char>>::empty());
        assert(run@.prompts =~= Seq::<Seq<char>>::empty());
        assert(run@.outputs =~= Seq::<Seq<char>>::empty());
        assert(run@.raw_outputs =~= Seq::<Seq<char>>::empty());
        assert(run@.retried =~= Seq::<bool>::empty());
        assert(run@.result.rule_id =~= Seq::<char>::empty());
        assert(run@.result.output =~= Seq::<char>::empty());
        if !none {
            run.note_prompt();
        }
        run
    }

    /// The prompt for the current batch.
    pub fn prompt(&self) -> (r: String)
        requires
            self.wf(),
            self.phase != RunPhase::Finished,
        ensures
            r@ == self@.prompt(),
    {
        if self.requests.len() == 1 {
            build_merged_prompt(&self.requests[0])
        } else {
            let total: usize = self.requests.len();
            let from: usize = self.batch * MAX_FIXES_PER_BATCH;
            let to: usize = if total - from < MAX_FIXES_PER_BATCH {
                total
            } else {
                from + MAX_FIXES_PER_BATCH
            };
            let chunk = vstd::slice::slice_subrange(self.requests.as_slice(), from, to);
            assert(merged_views(chunk@) =~= self@.current());
            let applied = if self.applied.len() == 0 {
                None
            } else {
                Some(self.applied.as_slice())
            };
            build_batch_prompt_with_context(self.file_path.as_str(), chunk, applied)
        }
    }

    /// How many turns the agent has for the current batch.
    pub fn max_turns(&self) -> (r: usize)
        requires
            self.wf(),
            self.phase != RunPhase::Finished,
        ensures
            r == self@.max_turns(),
    {
        if self.requests.len() == 1 {
            5
        } else {
            let left: usize = self.requests.len() - self.batch * MAX_FIXES_PER_BATCH;
            if left < MAX_FIXES_PER_BATCH {
                22 + left
            } else {
                22 + MAX_FIXES_PER_BATCH
            }
        }
    }

    fn note_prompt(&mut self)
        requires
            old(self).wf(),
            old(self).phase != RunPhase::Finished,
        ensures
            final(self)@ == old(self)@.with_prompt(),
            final(self).wf(),
    {
        let prompt = self.prompt();
        let ghost before = self@;
        proof {
            lemma_texts_push(self.prompts@, prompt);
        }
        self.prompts.push(prompt);
        assert(self@ =~= before.with_prompt());
    }

    /// What to do next for the file.
    pub fn next_action(&self) -> (r: GooseAction)
        requires
            self.wf(),
        ensures
            r@ == self@.action(),
    {
        match self.phase {
            RunPhase::Finished => GooseAction::Done,
            RunPhase::First => GooseAction::Run {
                prompt: self.prompt(),
                max_turns: self.max_turns(),
                delay_secs: 0,
            },
            RunPhase::AfterEmptyReply => {
                let mut prompt = self.prompt();
                if self.requests.len() != 1 {
                    prompt.append(RETRY_NOTE);
                }
                GooseAction::Run { prompt, max_turns: self.max_turns(), delay_secs: 2 }
            },
            RunPhase::AfterTimeout => GooseAction::Run {
                prompt: self.prompt(),
                max_turns: self.max_turns(),
                delay_secs: 10,
            },
        }
    }

    fn note_applied(&mut self)
        requires
            old(self).wf(),
            old(self).phase != RunPhase::Finished,
        ensures
            final(self)@ == (GooseRunView {
                applied: old(self)@.applied + applied_notes(old(self)@.current()),
                ..old(self)@
            }),
            final(self).wf(),
    {
        let total: usize = self.requests.len();
        let from: usize = self.batch * MAX_FIXES_PER_BATCH;
        let to: usize = if total - from < MAX_FIXES_PER_BATCH {
            total
        } else {
            from + MAX_FIXES_PER_BATCH
        };
        let ghost before = self@;
        let ghost notes = applied_notes(before.current());
        let mut i: usize = from;
        assert(before.applied + notes.take(0) =~= before.applied);
        while i < to
            invariant
                from <= i <= to,
                to <= self.requests@.len(),
                from == before.batch * 8,
                to == before.batch_end(),
                before.wf(),
                before.phase != RunPhase::Finished,
                merged_views(self.requests@) == before.requests,
                notes == applied_notes(before.current()),
                self@ =~= (GooseRunView { applied: before.applied + notes.take(i - from), ..before }),
            decreases to - i,
        {
            let note = note_of(&self.requests[i]);
            assert(before.current()[i - from] == self.requests@[i as int]@);
            assert(notes.take(i + 1 - from) =~= notes.take(i - from).push(note@));
            proof {
                lemma_texts_push(self.applied@, note);
            }
            self.applied.push(note);
            assert(self@.applied =~= before.applied + notes.take(i + 1 - from));
            i = i + 1;
        }
        assert(notes.take(notes.len() as int) =~= notes);
        assert(self@ =~= (GooseRunView { applied: before.applied + notes, ..before }));
    }

    fn move_on(&mut self)
        requires
            old(self).wf(),
            old(self).phase != RunPhase::Finished,
        ensures
            final(self)@ == old(self)@.next_batch(),
            final(self).wf(),
    {
        let ghost before = self@;
        let more: bool = self.requests.len() - self.batch * MAX_FIXES_PER_BATCH > MAX_FIXES_PER_BATCH;
        self.batch = self.batch + 1;
        if more {
            self.phase = RunPhase::First;
            self.was_retried = false;
            assert(self@ =~= (GooseRunView {
                batch: before.batch + 1,
                phase: RunPhase::First,
                was_retried: false,
                ..before
            }));
            self.note_prompt();
        } else {
            self.phase = RunPhase::Finished;
            assert(self@ =~= before.next_batch());
        }
    }

    fn accept(&mut self, success: bool, output: String, raw: String)
        requires
            old(self).wf(),
            old(self).phase != RunPhase::Finished,
        ensures
            final(self)@ == old(self)@.accepted(success, output@, raw@),
            final(self).wf(),
    {
        let ghost before = self@;
        let late: bool = self.phase == RunPhase::AfterTimeout;
        if self.requests.len() != 1 {
            self.note_applied();
        }
        let rules = list_rules(self.requests.as_slice());
        let rule_id = join_texts(&rules, ", ");
        proof {
            lemma_texts_push(self.outputs@, output);
        }
        let copy = output.clone();
        self.outputs.push(output);
        if !late {
            proof {
                lemma_texts_push(self.raw_outputs@, raw);
            }
            self.raw_outputs.push(raw);
            self.retried.push(self.was_retried);
        }
        self.result = GooseFixResult {
            file_path: self.file_path.clone(),
            rule_id,
            success,
            output: copy,
        };
        if success || late {
            self.move_on();
        } else {
            self.phase = RunPhase::Finished;
        }
        assert(self@ =~= before.accepted(success, output@, raw@));
    }

    fn give_up(&mut self, message: String)
        ensures
            final(self)@ == old(self)@.given_up(message@),
            final(self).wf(),
    {
        let ghost before = self@;
        let rules = list_rules(self.requests.as_slice());
        let rule_id = join_texts(&rules, ", ");
        let mut output = "Error: ".to_owned();
        output.append(message.as_str());
        self.result = GooseFixResult {
            file_path: self.file_path.clone(),
            rule_id,
            success: false,
            output,
        };
        self.phase = RunPhase::Finished;
        assert(self@ =~= before.given_up(message@));
    }

    /// Takes note of how the run that was asked for ended.
    pub fn step(&mut self, event: GooseEvent)
        requires
            old(self).wf(),
        ensures
            final(self)@ == old(self)@.after(event@),
            final(self).wf(),
    {
        if self.phase == RunPhase::Finished {
            return;
        }
        let ghost before = self@;
        match event {
            GooseEvent::Completed { success, output, raw } => {
                if self.phase == RunPhase::First && byte_len_of(output.as_str()) <= 1 {
                    self.phase = RunPhase::AfterEmptyReply;
                    self.was_retried = true;
                    assert(self@ =~= before.after(event@));
                } else {
                    self.accept(success, output, raw);
                }
            },
            GooseEvent::Failed { message } => {
                if self.requests.len() != 1 && self.phase != RunPhase::AfterTimeout && contains_text(
                    message.as_str(),
                    "timed out",
                ) {
                    self.phase = RunPhase::AfterTimeout;
                    assert(self@ =~= before.after(event@));
                } else {
                    self.give_up(message);
                }
            },
        }
    }
}

// ── Planned batches ─────────────────────────────────────────────────────

/// What the agent would be asked in one run.
#[derive(Debug)]
pub struct PlannedGooseBatch {
    pub file_path: String,
    /// The number of the batch within its file, counted from zero.
    pub chunk_index: usize,
    /// How many batches the file has.
    pub chunk_count: usize,
    pub max_turns: u32,
    pub rule_ids: Vec<String>,
    /// The lines of all fixes of the batch.
    pub lines: Vec<u32>,
    /// The component families of the fixes, each once.
    pub families: Vec<String>,
    pub prompt: String,
}

#[verifier::ext_equal]
pub ghost struct PlannedBatchView {
    pub file_path: Seq<char>,
    pub chunk_index: nat,
    pub chunk_count: nat,
    pub max_turns: nat,
    pub rule_ids: Seq<Seq<char>>,
    pub lines: Seq<u32>,
    pub families: Seq<Seq<char>>,
    pub prompt: Seq<char>,
}

impl PlannedGooseBatch {
    pub open spec fn view(&self) -> PlannedBatchView {
        PlannedBatchView {
            file_path: self.file_path@,
            chunk_index: self.chunk_index as nat,
            chunk_count: self.chunk_count as nat,
            max_turns: self.max_turns as nat,
            rule_ids: texts(self.rule_ids@),
            lines: self.lines@,
            families: texts(self.families@),
            prompt: self.prompt@,
        }
    }
}

pub open spec fn planned_views(v: Seq<PlannedGooseBatch>) -> Seq<PlannedBatchView> {
    Seq::new(v.len(), |i: int| v[i]@)
}

/// The lines of entries, one after the other.
pub open spec fn all_lines(v: Seq<MergedView>) -> Seq<u32>
    decreases v.len(),
{
    if v.len() == 0 {
        Seq::empty()
    } else {
        all_lines(v.drop_last()) + v.last().lines
    }
}

/// `known` with the families that the first labels name and that are not in it.
pub open spec fn families_in(known: Seq<Seq<char>>, labels: Seq<Seq<char>>) -> Seq<Seq<char>>
    decreases labels.len(),
{
    if labels.len() == 0 {
        known
    } else {
        let before = families_in(known, labels.drop_last());
        match strip_prefix(labels.last(), "family="@) {
            Some(f) => if before.contains(f) {
                before
            } else {
                before.push(f)
            },
            None => before,
        }
    }
}

/// The families of the requests of some rules, each once, in order.
pub open spec fn families_of(requests: Seq<LlmFixRequestView>, rules: Seq<Seq<char>>) -> Seq<Seq<char>>
    decreases requests.len(),
{
    if requests.len() == 0 {
        Seq::empty()
    } else {
        let before = families_of(requests.drop_last(), rules);
        if rules.contains(requests.last().rule_id) {
            families_in(before, requests.last().labels)
        } else {
            before
        }
    }
}

/// What the agent would be asked in the current run.
pub open spec fn batch_plan(run: GooseRunView, requests: Seq<LlmFixRequestView>) -> PlannedBatchView {
    PlannedBatchView {
        file_path: run.file_path,
        chunk_index: run.batch,
        chunk_count: (run.requests.len() + 7) / 8,
        max_turns: run.max_turns(),
        rule_ids: rule_ids(run.current()),
        lines: all_lines(run.current()),
        families: families_of(requests, rule_ids(run.current())),
        prompt: run.prompt(),
    }
}

/// The batches from the current one on, if each succeeds at once.
pub open spec fn planned_from(run: GooseRunView, requests: Seq<LlmFixRequestView>) -> Seq<PlannedBatchView>
    decreases run.runs_left(),
    when run.wf()
{
    if run.phase != RunPhase::First {
        Seq::empty()
    } else {
        seq![batch_plan(run, requests)] + planned_from(
            run.accepted(true, Seq::empty(), Seq::empty()),
            requests,
        )
    }
}

/// The batches for one file.
pub open spec fn planned_file(requests: Seq<LlmFixRequestView>, path: Seq<char>) -> Seq<PlannedBatchView> {
    planned_from(started(path, file_batch(requests, path)), for_file(requests, path))
}

/// The batches for the first `n` of some files.
pub open spec fn planned_files(
    requests: Seq<LlmFixRequestView>,
    paths: Seq<Seq<char>>,
    n: int,
) -> Seq<PlannedBatchView>
    decreases n,
{
    if n <= 0 {
        Seq::empty()
    } else {
        planned_files(requests, paths, n - 1) + planned_file(requests, paths[n - 1])
    }
}

/// Whether `paths` are the files that are asked for, each once, in path order.
pub open spec fn are_files_of(paths: Seq<Seq<char>>, requests: Seq<LlmFixRequestView>) -> bool {
    &&& in_key_order(true, paths)
    &&& forall|path: Seq<char>| #[trigger] asks_for(requests, path) <==> paths.contains(path)
}

/// Whether `plan` holds the batches for all files that are asked for, in path order.
pub open spec fn plans_requests(plan: Seq<PlannedBatchView>, requests: Seq<LlmFixRequestView>) -> bool {
    exists|paths: Seq<Seq<char>>|
        #[trigger] are_files_of(paths, requests) && plan == planned_files(
            requests,
            paths,
            paths.len() as int,
        )
}

fn collect_lines(v: &[MergedLlmFixRequest]) -> (r: Vec<u32>)
    ensures
        r@ == all_lines(merged_views(v@)),
{
    let ghost m = merged_views(v@);
    let mut out: Vec<u32> = Vec::new();
    let mut i: usize = 0;
    assert(out@ =~= all_lines(m.take(0)));
    while i < v.len()
        invariant
            i <= v@.len(),
            m == merged_views(v@),
            out@ == all_lines(m.take(i as int)),
        decreases v@.len() - i,
    {
        assert(m.take(i + 1).drop_last() =~= m.take(i as int));
        assert(m.take(i + 1).last() == v@[i as int]@);
        let ghost before = out@;
        let entry = &v[i];
        let mut k: usize = 0;
        while k < entry.lines.len()
            invariant
                k <= entry.lines@.len(),
                out@ == before + entry.lines@.take(k as int),
            decreases entry.lines@.len() - k,
        {
            assert(entry.lines@.take(k + 1) =~= entry.lines@.take(k as int).push(entry.lines@[k as int]));
            out.push(entry.lines[k]);
            k = k + 1;
        }
        assert(entry.lines@.take(entry.lines@.len() as int) =~= entry.lines@);
        i = i + 1;
    }
    assert(m.take(m.len() as int) =~= m);
    out
}

fn add_families(known: &mut Vec<String>, labels: &Vec<String>)
    ensures
        texts(final(known)@) == families_in(texts(old(known)@), texts(labels@)),
{
    let ghost before = texts(known@);
    let ghost t = texts(labels@);
    let mut i: usize = 0;
    assert(t.take(0) =~= Seq::<Seq<char>>::empty());
    while i < labels.len()
        invariant
            i <= labels@.len(),
            t == texts(labels@),
            texts(known@) == families_in(before, t.take(i as int)),
        decreases labels@.len() - i,
    {
        assert(t.take(i + 1).drop_last() =~= t.take(i as int));
        assert(t.take(i + 1).last() == labels@[i as int]@);
        if let Some(family) = strip_prefix_text(labels[i].as_str(), "family=") {
            if !list_contains(known, family.as_str()) {
                proof {
                    lemma_texts_push(known@, family);
                }
                known.push(family);
            }
        }
        i = i + 1;
    }
    assert(t.take(t.len() as int) =~= t);
}

fn collect_families(requests: &Vec<LlmFixRequest>, rules: &Vec<String>) -> (r: Vec<String>)
    ensures
        texts(r@) == families_of(request_views(requests@), texts(rules@)),
{
    let ghost q = request_views(requests@);
    let mut out: Vec<String> = Vec::new();
    let mut i: usize = 0;
    assert(texts(out@) =~= families_of(q.take(0), texts(rules@)));
    while i < requests.len()
        invariant
            i <= requests@.len(),
            q == request_views(requests@),
            texts(out@) == families_of(q.take(i as int), texts(rules@)),
        decreases requests@.len() - i,
    {
        assert(q.take(i + 1).drop_last() =~= q.take(i as int));
        assert(q.take(i + 1).last() == requests@[i as int]@);
        if list_contains(rules, requests[i].rule_id.as_str()) {
            add_families(&mut out, &requests[i].labels);
        }
        i = i + 1;
    }
    assert(q.take(q.len() as int) =~= q);
    out
}

fn requests_for(requests: &Vec<LlmFixRequest>, path: &str) -> (r: Vec<LlmFixRequest>)
    ensures
        request_views(r@) == for_file(request_views(requests@), path@),
{
    let ghost q = request_views(requests@);
    let mut out: Vec<LlmFixRequest> = Vec::new();
    let mut i: usize = 0;
    assert(request_views(out@) =~= for_file(q.take(0), path@));
    while i < requests.len()
        invariant
            i <= requests@.len(),
            q == request_views(requests@),
            request_views(out@) == for_file(q.take(i as int), path@),
        decreases requests@.len() - i,
    {
        assert(q.take(i + 1).drop_last() =~= q.take(i as int));
        assert(q.take(i + 1).last() == requests@[i as int]@);
        if same_text(spell_path(requests[i].file_path.as_str()).as_str(), path) {
            let copy = copy_request(&requests[i]);
            let ghost before = out@;
            out.push(copy);
            assert(request_views(out@) =~= request_views(before).push(copy@));
        }
        i = i + 1;
    }
    assert(q.take(q.len() as int) =~= q);
    out
}

impl GooseRun {
    fn plan_batch(&self, requests: &Vec<LlmFixRequest>) -> (r: PlannedGooseBatch)
        requires
            self.wf(),
            self.phase != RunPhase::Finished,
        ensures
            r@ == batch_plan(self@, request_views(requests@)),
    {
        let total: usize = self.requests.len();
        let from: usize = self.batch * MAX_FIXES_PER_BATCH;
        let to: usize = if total - from < MAX_FIXES_PER_BATCH {
            total
        } else {
            from + MAX_FIXES_PER_BATCH
        };
        let chunk = vstd::slice::slice_subrange(self.requests.as_slice(), from, to);
        assert(merged_views(chunk@) =~= self@.current());
        let rules = list_rules(chunk);
        let count: usize = if total % MAX_FIXES_PER_BATCH == 0 {
            total / MAX_FIXES_PER_BATCH
        } else {
            total / MAX_FIXES_PER_BATCH + 1
        };
        PlannedGooseBatch {
            file_path: self.file_path.clone(),
            chunk_index: self.batch,
            chunk_count: count,
            max_turns: self.max_turns() as u32,
            lines: collect_lines(chunk),
            families: collect_families(requests, &rules),
            rule_ids: rules,
            prompt: self.prompt(),
        }
    }
}

fn plan_file(batch: FileBatch, requests: &Vec<LlmFixRequest>) -> (r: Vec<PlannedGooseBatch>)
    ensures
        planned_views(r@) == planned_from(
            started(batch.file_path@, merged_views(batch.requests@)),
            request_views(requests@),
        ),
{
    let mut out: Vec<PlannedGooseBatch> = Vec::new();
    let mut run = GooseRun::start(batch.file_path, batch.requests);
    let ghost q = request_views(requests@);
    let ghost all = planned_from(run@, q);
    assert(planned_views(out@) + planned_from(run@, q) =~= all);
    while run.phase != RunPhase::Finished
        invariant
            run.wf(),
            run.phase == RunPhase::First || run.phase == RunPhase::Finished,
            q == request_views(requests@),
            all == planned_views(out@) + planned_from(run@, q),
        decreases run@.runs_left(),
    {
        let ghost before = run@;
        let ghost prior = out@;
        let planned = run.plan_batch(requests);
        out.push(planned);
        assert(planned_views(out@) =~= planned_views(prior).push(planned@));
        let output = String::new();
        let raw = String::new();
        assert(output@ =~= Seq::<char>::empty());
        assert(raw@ =~= Seq::<char>::empty());
        run.accept(true, output, raw);
        assert(all =~= planned_views(out@) + planned_from(run@, q));
    }
    assert(all =~= planned_views(out@));
    out
}

/// What the agent would be asked for some requests: the batches of every file, in
/// path order, as they are run when each succeeds at once.
pub fn build_goose_plan_batches(requests: &Vec<LlmFixRequest>) -> (r: Vec<PlannedGooseBatch>)
    ensures
        plans_requests(planned_views(r@), request_views(requests@)),
{
    let ghost q = request_views(requests@);
    let mut batches = batch_by_file(requests);
    let ghost all = batches@;
    let ghost paths = batch_paths(all);
    let mut out: Vec<PlannedGooseBatch> = Vec::new();
    let total: usize = batches.len();
    let mut i: usize = 0;
    assert(planned_views(out@) =~= planned_files(q, paths, 0));
    while i < total
        invariant
            i <= total,
            total == all.len(),
            paths == batch_paths(all),
            q == request_views(requests@),
            batches_files(all, q),
            batches@ == all.skip(i as int),
            planned_views(out@) == planned_files(q, paths, i as int),
        decreases total - i,
    {
        let batch = batches.remove(0);
        assert(batch == all[i as int]);
        assert(batches@ =~= all.skip(i + 1));
        let own = requests_for(requests, batch.file_path.as_str());
        let mut planned = plan_file(batch, &own);
        let ghost prior = out@;
        let ghost added = planned@;
        assert(planned_views(added) == planned_file(q, paths[i as int]));
        out.append(&mut planned);
        assert(planned_views(out@) =~= planned_views(prior) + planned_views(added));
        i = i + 1;
    }
    assert(are_files_of(paths, q));
    out
}

// ── Laws of batches ─────────────────────────────────────────────────────

/// Of the words in the id of a rule, that of the first rank decides, and rules without any
/// rank with those on props.
pub proof fn the_first_rank_decides(id: Seq<char>)
    ensures
        ({
            let rank = priority_of(id);
            let tree = contains(id, "hierarchy-"@);
            let moved = contains(id, "component-import-deprecated"@);
            let parts = contains(id, "composition"@) || contains(id, "new-sibling"@);
            let props = contains(id, "removed"@) || contains(id, "renamed"@) || contains(
                id,
                "type-changed"@,
            ) || contains(id, "signature-changed"@) || contains(id, "prop-value"@);
            let looks = contains(id, "behavioral"@) || contains(id, "dom-structure"@) || contains(
                id,
                "css-"@,
            ) || contains(id, "accessibility"@) || contains(id, "logic-change"@) || contains(
                id,
                "render-output"@,
            );
            let form = starts_with(id, "conformance-"@);
            &&& rank == 0 <==> tree
            &&& rank == 1 <==> moved && !tree
            &&& rank == 2 <==> parts && !moved && !tree
            &&& rank == 4 <==> looks && !props && !parts && !moved && !tree
            &&& rank == 5 <==> form && !looks && !props && !parts && !moved && !tree
            &&& rank == 3 <==> !parts && !moved && !tree && (props || (!looks && !form))
        }),
{
}

/// The requests for a file are those whose path is spelt like it, in their order.
pub proof fn requests_go_to_their_file(requests: Seq<LlmFixRequestView>, path: Seq<char>)
    ensures
        for_file(requests, path) == requests.filter(
            |q: LlmFixRequestView| path_spelt(q.file_path) == path,
        ),
    decreases requests.len(),
{
    reveal(Seq::filter);
    if requests.len() > 0 {
        requests_go_to_their_file(requests.drop_last(), path);
    }
}

/// A merged entry has the file and the message of the first request of its rule, and the
/// snippets of all of them.
pub proof fn merged_entries_tell_their_requests(requests: Seq<LlmFixRequestView>, k: int)
    requires
        0 <= k < merged(requests).len(),
    ensures
        exists|i: int|
            0 <= i < requests.len() && {
                &&& (#[trigger] requests[i]).rule_id == merged(requests)[k].rule_id
                &&& requests[i].message == merged(requests)[k].message
                &&& requests[i].file_path == merged(requests)[k].file_path
                &&& forall|j: int|
                    0 <= j < i ==> (#[trigger] requests[j]).rule_id != merged(requests)[k].rule_id
            },
        forall|i: int|
            0 <= i < requests.len() && (#[trigger] requests[i]).rule_id == merged(
                requests,
            )[k].rule_id ==> (requests[i].code_snip matches Some(s) ==> merged(
                requests,
            )[k].snips.contains((requests[i].line, s))),
    decreases requests.len(),
{
    let rest = requests.drop_last();
    let q = requests.last();
    let before = merged(rest);
    let now = merged(requests);
    let id = now[k].rule_id;
    lemma_rule_position(before, q.rule_id, 0);
    merging_keeps_every_line(rest);
    merging_keeps_every_line(requests);
    assert forall|i: int| 0 <= i < rest.len() implies rest[i] == #[trigger] requests[i] by {}
    assert(requests[requests.len() - 1] == q);
    if let Some(s) = q.code_snip {
        assert(snip_of(q)[0] == (q.line, s));
    }
    if k < before.len() {
        merged_entries_tell_their_requests(rest, k);
        assert(before[k].rule_id == id);
        let i = choose|i: int|
            0 <= i < rest.len() && {
                &&& (#[trigger] rest[i]).rule_id == before[k].rule_id
                &&& rest[i].message == before[k].message
                &&& rest[i].file_path == before[k].file_path
                &&& forall|j: int| 0 <= j < i ==> (#[trigger] rest[j]).rule_id != before[k].rule_id
            };
        assert(requests[i] == rest[i]);
        assert forall|j: int| 0 <= j < i implies (#[trigger] requests[j]).rule_id != id by {
            assert(rest[j].rule_id != id);
        }
        assert forall|i: int|
            0 <= i < requests.len() && (#[trigger] requests[i]).rule_id
                == id implies (requests[i].code_snip matches Some(s) ==> now[k].snips.contains(
            (requests[i].line, s),
        )) by {
            if let Some(s) = requests[i].code_snip {
                lemma_in_either(before[k].snips, snip_of(q), (requests[i].line, s));
                if i < rest.len() {
                    assert(rest[i].rule_id == before[k].rule_id);
                } else {
                    assert(snip_of(q).contains((q.line, s)));
                    let p = rule_position(before, q.rule_id, 0)->0;
                    if p != k {
                        let lo = if p < k { p } else { k };
                        let hi = if p < k { k } else { p };
                        assert(before[lo].rule_id != before[hi].rule_id);
                    }
                }
            }
        }
    } else {
        assert(id == q.rule_id);
        lemma_no_lines(rest, id);
        assert forall|j: int| 0 <= j < rest.len() implies (#[trigger] rest[j]).rule_id != id by {
            lemma_rule_position(before, id, 0);
        }
        assert forall|i: int|
            0 <= i < requests.len() && (#[trigger] requests[i]).rule_id
                == id implies (requests[i].code_snip matches Some(s) ==> now[k].snips.contains(
            (requests[i].line, s),
        )) by {
            if i < rest.len() {
                assert(rest[i].rule_id != id);
            } else if let Some(s) = q.code_snip {
                assert(snip_of(q).contains((q.line, s)));
            }
        }
    }
}

/// Sorting by priority loses no entry and adds none.
pub proof fn prioritizing_keeps_every_entry(v: Seq<MergedView>, x: MergedView)
    ensures
        prioritized(v).len() == v.len(),
        prioritized(v).contains(x) <==> v.contains(x),
{
    let keys = priorities(v);
    let order = stable_order(keys);
    let r = prioritized(v);
    stable_order_is_sorted(keys);
    if v.contains(x) {
        let k = choose|k: int| 0 <= k < v.len() && v[k] == x;
        assert(order.contains(k));
        let i = choose|i: int| 0 <= i < order.len() && order[i] == k;
        assert(r[i] == x);
    }
    if r.contains(x) {
        let i = choose|i: int| 0 <= i < r.len() && r[i] == x;
        assert(0 <= order[i] < v.len());
        assert(v[order[i]] == x);
    }
}

// ── Laws of replies ─────────────────────────────────────────────────────

/// The texts of blocks are those under `text` in blocks of that type.
pub proof fn text_blocks_are_read(blocks: Seq<JsonView>, t: Seq<char>)
    ensures
        block_texts(blocks).contains(t) <==> exists|i: int|
            0 <= i < blocks.len() && field(#[trigger] blocks[i], "type"@) == Some(
                JsonView::Str("text"@),
            ) && field(blocks[i], "text"@) == Some(JsonView::Str(t)),
    decreases blocks.len(),
{
    if blocks.len() > 0 {
        let rest = blocks.drop_last();
        text_blocks_are_read(rest, t);
        if let Some(own) = block_text(blocks.last()) {
            lemma_in_pushed(block_texts(rest), own, t);
        }
        assert forall|i: int| 0 <= i < rest.len() implies rest[i] == #[trigger] blocks[i] by {}
        assert(blocks[blocks.len() - 1] == blocks.last());
        if block_texts(rest).contains(t) {
            let i = choose|i: int|
                0 <= i < rest.len() && field(#[trigger] rest[i], "type"@) == Some(
                    JsonView::Str("text"@),
                ) && field(rest[i], "text"@) == Some(JsonView::Str(t));
            assert(blocks[i] == rest[i]);
        }
    }
}

/// The reply is what the assistant says in its last message with any text, whatever follows
/// it; messages of others do not count.
pub proof fn the_last_message_is_the_reply(
    before: Seq<JsonView>,
    message: JsonView,
    blocks: Seq<JsonView>,
    after: Seq<JsonView>,
)
    requires
        field(message, "role"@) == Some(JsonView::Str("assistant"@)),
        field(message, "content"@) == Some(JsonView::Array(blocks)),
        block_texts(blocks).len() > 0,
        forall|i: int|
            0 <= i < after.len() ==> field(#[trigger] after[i], "role"@) != Some(
                JsonView::Str("assistant"@),
            ),
    ensures
        last_said(before + seq![message] + after) == join(block_texts(blocks), "\n"@),
    decreases after.len(),
{
    let all = before + seq![message] + after;
    if after.len() == 0 {
        assert(all.last() == message);
    } else {
        assert(all.last() == after[after.len() - 1]);
        assert(all.drop_last() =~= before + seq![message] + after.drop_last());
        the_last_message_is_the_reply(before, message, blocks, after.drop_last());
    }
}

/// What is shown of a text is its longest beginning that takes no more than the given number
/// of bytes.
pub proof fn texts_are_shown_as_far_as_they_fit(s: Seq<char>, i: int, most: int)
    requires
        0 <= i <= s.len(),
        0 <= most,
    ensures
        ({
            let shown = fitting(s, i, most);
            &&& i + shown.len() <= s.len()
            &&& shown == s.subrange(i, i + shown.len())
            &&& widths(shown) <= most
            &&& i + shown.len() < s.len() ==> widths(shown) + char_width(s[i + shown.len()]) > most
        }),
    decreases s.len() - i,
{
    let shown = fitting(s, i, most);
    if i < s.len() && char_width(s[i]) <= most {
        let rest = fitting(s, i + 1, most - char_width(s[i]));
        texts_are_shown_as_far_as_they_fit(s, i + 1, most - char_width(s[i]));
        assert(shown =~= s.subrange(i, i + shown.len()));
        lemma_widths_first(s[i], rest);
    } else {
        assert(shown =~= s.subrange(i, i));
    }
}

/// How many bytes characters take.
pub open spec fn widths(s: Seq<char>) -> nat
    decreases s.len(),
{
    if s.len() == 0 {
        0
    } else {
        widths(s.drop_last()) + char_width(s.last())
    }
}

proof fn lemma_widths_first(c: char, rest: Seq<char>)
    ensures
        widths(seq![c] + rest) == char_width(c) + widths(rest),
    decreases rest.len(),
{
    let all = seq![c] + rest;
    if rest.len() == 0 {
        assert(all.drop_last() =~= Seq::empty());
        assert(widths(all.drop_last()) == 0);
        assert(all.last() == c);
    } else {
        lemma_widths_first(c, rest.drop_last());
        assert(all.drop_last() =~= seq![c] + rest.drop_last());
        assert(all.last() == rest.last());
    }
}

/// Every tool that the assistant calls is shown by its name.
pub proof fn tool_calls_are_shown(
    messages: Seq<JsonView>,
    i: int,
    k: int,
    name: Seq<char>,
)
    requires
        0 <= i < messages.len(),
        text_field(messages[i], "role"@) == Some("assistant"@),
        0 <= k < list_at(messages[i], "content"@).len(),
        text_field(list_at(messages[i], "content"@)[k], "type"@) == Some("toolUse"@),
        text_field(list_at(messages[i], "content"@)[k], "name"@) == Some(name),
    ensures
        steps_in(messages).contains("tool_call="@ + name),
    decreases messages.len(),
{
    let step = "tool_call="@ + name;
    let rest = messages.drop_last();
    lemma_in_either(steps_in(rest), message_steps(messages.last()), step);
    if i < rest.len() {
        assert(rest[i] == messages[i]);
        tool_calls_are_shown(rest, i, k, name);
    } else {
        lemma_block_steps(list_at(messages[i], "content"@), k, step);
    }
}

proof fn lemma_block_steps(blocks: Seq<JsonView>, k: int, step: Seq<char>)
    requires
        0 <= k < blocks.len(),
        block_step(blocks[k]) == Some(step),
    ensures
        block_steps(blocks).contains(step),
    decreases blocks.len(),
{
    let rest = blocks.drop_last();
    if let Some(own) = block_step(blocks.last()) {
        lemma_in_pushed(block_steps(rest), own, step);
    }
    if k < rest.len() {
        assert(rest[k] == blocks[k]);
        lemma_block_steps(rest, k, step);
    }
}

// ── Laws of prompts ─────────────────────────────────────────────────────

/// The prompt for a single fix names the file, the rule and the lines, and holds the message
/// and the code.
pub proof fn single_prompts_tell_the_fix(r: MergedView)
    ensures
        contains(merged_prompt(r), r.file_path),
        contains(merged_prompt(r), lines_list(r.lines)),
        contains(merged_prompt(r), r.rule_id),
        contains(merged_prompt(r), r.message),
        contains(merged_prompt(r), merged_context(r.snips)),
{
    let p0 = FIX_OPENING@;
    let p1 = p0 + r.file_path;
    lemma_stands_last(p0, r.file_path);
    let p2 = p1 + "\nLine: "@;
    lemma_stands_before(p1, "\nLine: "@, r.file_path);
    let p3 = p2 + lines_list(r.lines);
    lemma_stands_before(p2, lines_list(r.lines), r.file_path);
    lemma_stands_last(p2, lines_list(r.lines));
    let p4 = p3 + "\n\nMigration rule ["@;
    lemma_stands_before(p3, "\n\nMigration rule ["@, r.file_path);
    lemma_stands_before(p3, "\n\nMigration rule ["@, lines_list(r.lines));
    let p5 = p4 + r.rule_id;
    lemma_stands_before(p4, r.rule_id, r.file_path);
    lemma_stands_before(p4, r.rule_id, lines_list(r.lines));
    lemma_stands_last(p4, r.rule_id);
    let p6 = p5 + "]:\n"@;
    lemma_stands_before(p5, "]:\n"@, r.file_path);
    lemma_stands_before(p5, "]:\n"@, lines_list(r.lines));
    lemma_stands_before(p5, "]:\n"@, r.rule_id);
    let p7 = p6 + r.message;
    lemma_stands_before(p6, r.message, r.file_path);
    lemma_stands_before(p6, r.message, lines_list(r.lines));
    lemma_stands_before(p6, r.message, r.rule_id);
    lemma_stands_last(p6, r.message);
    let p8 = p7 + CONTEXT_OPENING@;
    lemma_stands_before(p7, CONTEXT_OPENING@, r.file_path);
    lemma_stands_before(p7, CONTEXT_OPENING@, lines_list(r.lines));
    lemma_stands_before(p7, CONTEXT_OPENING@, r.rule_id);
    lemma_stands_before(p7, CONTEXT_OPENING@, r.message);
    let p9 = p8 + merged_context(r.snips);
    lemma_stands_before(p8, merged_context(r.snips), r.file_path);
    lemma_stands_before(p8, merged_context(r.snips), lines_list(r.lines));
    lemma_stands_before(p8, merged_context(r.snips), r.rule_id);
    lemma_stands_before(p8, merged_context(r.snips), r.message);
    lemma_stands_last(p8, merged_context(r.snips));
    let p10 = p9 + READ_STEP@;
    lemma_stands_before(p9, READ_STEP@, r.file_path);
    lemma_stands_before(p9, READ_STEP@, lines_list(r.lines));
    lemma_stands_before(p9, READ_STEP@, r.rule_id);
    lemma_stands_before(p9, READ_STEP@, r.message);
    lemma_stands_before(p9, READ_STEP@, merged_context(r.snips));
    let p11 = p10 + r.file_path;
    lemma_stands_before(p10, r.file_path, r.file_path);
    lemma_stands_before(p10, r.file_path, lines_list(r.lines));
    lemma_stands_before(p10, r.file_path, r.rule_id);
    lemma_stands_before(p10, r.file_path, r.message);
    lemma_stands_before(p10, r.file_path, merged_context(r.snips));
    let p12 = p11 + APPLY_STEP@;
    lemma_stands_before(p11, APPLY_STEP@, r.file_path);
    lemma_stands_before(p11, APPLY_STEP@, lines_list(r.lines));
    lemma_stands_before(p11, APPLY_STEP@, r.rule_id);
    lemma_stands_before(p11, APPLY_STEP@, r.message);
    lemma_stands_before(p11, APPLY_STEP@, merged_context(r.snips));
    let p13 = p12 + lines_list(r.lines);
    lemma_stands_before(p12, lines_list(r.lines), r.file_path);
    lemma_stands_before(p12, lines_list(r.lines), lines_list(r.lines));
    lemma_stands_before(p12, lines_list(r.lines), r.rule_id);
    lemma_stands_before(p12, lines_list(r.lines), r.message);
    lemma_stands_before(p12, lines_list(r.lines), merged_context(r.snips));
    let p14 = p13 + FIX_RULES@;
    lemma_stands_before(p13, FIX_RULES@, r.file_path);
    lemma_stands_before(p13, FIX_RULES@, lines_list(r.lines));
    lemma_stands_before(p13, FIX_RULES@, r.rule_id);
    lemma_stands_before(p13, FIX_RULES@, r.message);
    lemma_stands_before(p13, FIX_RULES@, merged_context(r.snips));
    assert(p14 == merged_prompt(r));
}

proof fn lemma_section_of_one(r: MergedView, number: nat)
    requires
        r.lines.len() == 1,
    ensures
        contains(fix_section(r, number), lines_list(r.lines)),
        contains(fix_section(r, number), r.rule_id),
        contains(fix_section(r, number), r.message),
        contains(fix_section(r, number), first_snip(r.snips)),
{
    let p0 = "\n### Fix "@;
    let p1 = p0 + decimal(number);
    let p2 = p1 + "\nLine: "@;
    let p3 = p2 + lines_list(r.lines);
    lemma_stands_last(p2, lines_list(r.lines));
    let p4 = p3 + "\nRule ["@;
    lemma_stands_before(p3, "\nRule ["@, lines_list(r.lines));
    let p5 = p4 + r.rule_id;
    lemma_stands_before(p4, r.rule_id, lines_list(r.lines));
    lemma_stands_last(p4, r.rule_id);
    let p6 = p5 + "]:\n"@;
    lemma_stands_before(p5, "]:\n"@, lines_list(r.lines));
    lemma_stands_before(p5, "]:\n"@, r.rule_id);
    let p7 = p6 + r.message;
    lemma_stands_before(p6, r.message, lines_list(r.lines));
    lemma_stands_before(p6, r.message, r.rule_id);
    lemma_stands_last(p6, r.message);
    let p8 = p7 + CONTEXT_OPENING@;
    lemma_stands_before(p7, CONTEXT_OPENING@, lines_list(r.lines));
    lemma_stands_before(p7, CONTEXT_OPENING@, r.rule_id);
    lemma_stands_before(p7, CONTEXT_OPENING@, r.message);
    let p9 = p8 + first_snip(r.snips);
    lemma_stands_before(p8, first_snip(r.snips), lines_list(r.lines));
    lemma_stands_before(p8, first_snip(r.snips), r.rule_id);
    lemma_stands_before(p8, first_snip(r.snips), r.message);
    lemma_stands_last(p8, first_snip(r.snips));
    let p10 = p9 + "\n```\n"@;
    lemma_stands_before(p9, "\n```\n"@, lines_list(r.lines));
    lemma_stands_before(p9, "\n```\n"@, r.rule_id);
    lemma_stands_before(p9, "\n```\n"@, r.message);
    lemma_stands_before(p9, "\n```\n"@, first_snip(r.snips));
    assert(p10 == fix_section(r, number));
}

proof fn lemma_section_of_many(r: MergedView, number: nat)
    requires
        r.lines.len() != 1,
    ensures
        contains(fix_section(r, number), lines_list(r.lines)),
        contains(fix_section(r, number), r.rule_id),
        contains(fix_section(r, number), r.message),
        contains(fix_section(r, number), all_snips(r.snips)),
{
    let p0 = "\n### Fix "@;
    let p1 = p0 + decimal(number);
    let p2 = p1 + "\nLines: "@;
    let p3 = p2 + lines_list(r.lines);
    lemma_stands_last(p2, lines_list(r.lines));
    let p4 = p3 + "\nRule ["@;
    lemma_stands_before(p3, "\nRule ["@, lines_list(r.lines));
    let p5 = p4 + r.rule_id;
    lemma_stands_before(p4, r.rule_id, lines_list(r.lines));
    lemma_stands_last(p4, r.rule_id);
    let p6 = p5 + "]:\n"@;
    lemma_stands_before(p5, "]:\n"@, lines_list(r.lines));
    lemma_stands_before(p5, "]:\n"@, r.rule_id);
    let p7 = p6 + r.message;
    lemma_stands_before(p6, r.message, lines_list(r.lines));
    lemma_stands_before(p6, r.message, r.rule_id);
    lemma_stands_last(p6, r.message);
    let p8 = p7 + CONTEXTS_OPENING@;
    lemma_stands_before(p7, CONTEXTS_OPENING@, lines_list(r.lines));
    lemma_stands_before(p7, CONTEXTS_OPENING@, r.rule_id);
    lemma_stands_before(p7, CONTEXTS_OPENING@, r.message);
    let p9 = p8 + all_snips(r.snips);
    lemma_stands_before(p8, all_snips(r.snips), lines_list(r.lines));
    lemma_stands_before(p8, all_snips(r.snips), r.rule_id);
    lemma_stands_before(p8, all_snips(r.snips), r.message);
    lemma_stands_last(p8, all_snips(r.snips));
    let p10 = p9 + "```\n"@;
    lemma_stands_before(p9, "```\n"@, lines_list(r.lines));
    lemma_stands_before(p9, "```\n"@, r.rule_id);
    lemma_stands_before(p9, "```\n"@, r.message);
    lemma_stands_before(p9, "```\n"@, all_snips(r.snips));
    assert(p10 == fix_section(r, number));
}

/// The section on a fix names its rule and its lines, and holds its message and its code.
pub proof fn sections_tell_their_fixes(r: MergedView, number: nat)
    ensures
        contains(fix_section(r, number), lines_list(r.lines)),
        contains(fix_section(r, number), r.rule_id),
        contains(fix_section(r, number), r.message),
        r.lines.len() == 1 && r.snips.len() > 0 ==> contains(
            fix_section(r, number),
            r.snips[0].1,
        ),
        r.lines.len() != 1 ==> contains(fix_section(r, number), all_snips(r.snips)),
{
    if r.lines.len() == 1 {
        lemma_section_of_one(r, number);
    } else {
        lemma_section_of_many(r, number);
    }
}

/// A list of lines holds each of them.
pub proof fn lists_hold_their_lines(v: Seq<u32>, i: int)
    requires
        0 <= i < v.len(),
    ensures
        contains(lines_list(v), decimal(v[i] as nat)),
{
    joined_texts_hold_their_parts(Seq::new(v.len(), |k: int| decimal(v[k] as nat)), ", "@, i);
}

/// Snippets below each other are each there.
pub proof fn snippets_hold_their_code(v: Seq<(u32, Seq<char>)>, i: int)
    requires
        0 <= i < v.len(),
    ensures
        contains(all_snips(v), "  (line "@ + decimal(v[i].0 as nat) + "):\n"@ + v[i].1 + "\n"@),
    decreases v.len(),
{
    let before = all_snips(v.drop_last());
    let last = "  (line "@ + decimal(v.last().0 as nat) + "):\n"@ + v.last().1 + "\n"@;
    assert(all_snips(v) =~= before + last);
    if i < v.len() - 1 {
        snippets_hold_their_code(v.drop_last(), i);
        assert(v.drop_last()[i] == v[i]);
        lemma_stands_before(
            before,
            last,
            "  (line "@ + decimal(v[i].0 as nat) + "):\n"@ + v[i].1 + "\n"@,
        );
    } else {
        lemma_stands_last(before, last);
    }
}

proof fn lemma_fixes_text(v: Seq<MergedView>, n: int, i: int)
    requires
        0 <= i < n <= v.len(),
    ensures
        contains(fixes_text(v, n), fix_section(v[i], (i + 1) as nat)),
    decreases n,
{
    let before = fixes_text(v, n - 1);
    let last = fix_section(v[n - 1], n as nat);
    if i < n - 1 {
        lemma_fixes_text(v, n - 1, i);
        lemma_stands_before(before, last, fix_section(v[i], (i + 1) as nat));
    } else {
        lemma_stands_last(before, last);
    }
}

proof fn lemma_batch_prompt(path: Seq<char>, v: Seq<MergedView>, applied: Option<Seq<Seq<char>>>)
    ensures
        contains(batch_prompt(path, v, applied), path),
        contains(batch_prompt(path, v, applied), applied_section(applied)),
        contains(batch_prompt(path, v, applied), decimal(v.len())),
        contains(batch_prompt(path, v, applied), fixes_text(v, v.len() as int)),
{
    let p0 = BATCH_OPENING@;
    let p1 = p0 + path;
    lemma_stands_last(p0, path);
    let p2 = p1 + "\n"@;
    lemma_stands_before(p1, "\n"@, path);
    let p3 = p2 + applied_section(applied);
    lemma_stands_before(p2, applied_section(applied), path);
    lemma_stands_last(p2, applied_section(applied));
    let p4 = p3 + "\nApply ALL of the following "@;
    lemma_stands_before(p3, "\nApply ALL of the following "@, path);
    lemma_stands_before(p3, "\nApply ALL of the following "@, applied_section(applied));
    let p5 = p4 + decimal(v.len());
    lemma_stands_before(p4, decimal(v.len()), path);
    lemma_stands_before(p4, decimal(v.len()), applied_section(applied));
    lemma_stands_last(p4, decimal(v.len()));
    let p6 = p5 + " fixes to this file:\n"@;
    lemma_stands_before(p5, " fixes to this file:\n"@, path);
    lemma_stands_before(p5, " fixes to this file:\n"@, applied_section(applied));
    lemma_stands_before(p5, " fixes to this file:\n"@, decimal(v.len()));
    let p7 = p6 + fixes_text(v, v.len() as int);
    lemma_stands_before(p6, fixes_text(v, v.len() as int), path);
    lemma_stands_before(p6, fixes_text(v, v.len() as int), applied_section(applied));
    lemma_stands_before(p6, fixes_text(v, v.len() as int), decimal(v.len()));
    lemma_stands_last(p6, fixes_text(v, v.len() as int));
    let p8 = p7 + "\nInstructions:\n1. Read the file at "@;
    lemma_stands_before(p7, "\nInstructions:\n1. Read the file at "@, path);
    lemma_stands_before(p7, "\nInstructions:\n1. Read the file at "@, applied_section(applied));
    lemma_stands_before(p7, "\nInstructions:\n1. Read the file at "@, decimal(v.len()));
    lemma_stands_before(p7, "\nInstructions:\n1. Read the file at "@, fixes_text(v, v.len() as int));
    let p9 = p8 + path;
    lemma_stands_before(p8, path, path);
    lemma_stands_before(p8, path, applied_section(applied));
    lemma_stands_before(p8, path, decimal(v.len()));
    lemma_stands_before(p8, path, fixes_text(v, v.len() as int));
    let p10 = p9 + BATCH_RULES@;
    lemma_stands_before(p9, BATCH_RULES@, path);
    lemma_stands_before(p9, BATCH_RULES@, applied_section(applied));
    lemma_stands_before(p9, BATCH_RULES@, decimal(v.len()));
    lemma_stands_before(p9, BATCH_RULES@, fixes_text(v, v.len() as int));
    assert(p10 == batch_prompt(path, v, applied));
}

/// The prompt for a batch names the file, holds the section on each fix, and tells each fix of
/// earlier batches.
pub proof fn batch_prompts_tell_every_fix(
    path: Seq<char>,
    v: Seq<MergedView>,
    applied: Option<Seq<Seq<char>>>,
    i: int,
    k: int,
)
    ensures
        contains(batch_prompt(path, v, applied), path),
        contains(batch_prompt(path, v, applied), decimal(v.len())),
        0 <= i < v.len() ==> contains(
            batch_prompt(path, v, applied),
            fix_section(v[i], (i + 1) as nat),
        ),
        applied matches Some(notes) ==> 0 <= k < notes.len() ==> contains(
            batch_prompt(path, v, applied),
            notes[k],
        ),
{
    let all = batch_prompt(path, v, applied);
    lemma_batch_prompt(path, v, applied);
    if 0 <= i < v.len() {
        let sections = fixes_text(v, v.len() as int);
        lemma_fixes_text(v, v.len() as int, i);
        lemma_part_of_part(all, sections, fix_section(v[i], (i + 1) as nat));
    }
    if let Some(notes) = applied {
        if 0 <= k < notes.len() {
            joined_texts_hold_their_parts(notes, "\n"@, k);
            let text = join(notes, "\n"@);
            lemma_stands_in(APPLIED_HEAD@, text, "\n\n"@);
            lemma_part_of_part(applied_section(applied), text, notes[k]);
            lemma_part_of_part(all, applied_section(applied), notes[k]);
        }
    }
}

/// What later batches are told of a fix names its rule and its lines.
pub proof fn notes_tell_their_fixes(r: MergedView)
    ensures
        contains(applied_note(r), r.rule_id),
        contains(applied_note(r), lines_list(r.lines)),
        lines(r.message).len() > 0 ==> contains(applied_note(r), lines(r.message)[0]),
{
    let first = if lines(r.message).len() == 0 {
        Seq::empty()
    } else {
        lines(r.message)[0]
    };
    let a = "- "@ + r.rule_id;
    let b = a + " (line "@;
    let c = b + lines_list(r.lines);
    let d = c + "): "@;
    lemma_stands_last("- "@, r.rule_id);
    lemma_stands_before(a, " (line "@, r.rule_id);
    lemma_stands_before(b, lines_list(r.lines), r.rule_id);
    lemma_stands_before(c, "): "@, r.rule_id);
    lemma_stands_before(d, first, r.rule_id);
    lemma_stands_last(b, lines_list(r.lines));
    lemma_stands_before(c, "): "@, lines_list(r.lines));
    lemma_stands_before(d, first, lines_list(r.lines));
    lemma_stands_last(d, first);
    assert(d + first == applied_note(r));
}

// ── Laws of runs ────────────────────────────────────────────────────────

/// The fixes of a file come in batches of eight, one after the other: the current one is made
/// of the entries from its place on, and the last one of what is left.
pub proof fn batches_hold_eight_fixes(run: GooseRunView, i: int)
    requires
        run.wf(),
        run.phase != RunPhase::Finished,
    ensures
        0 < run.current().len() <= 8,
        run.current().len() < 8 ==> run.batch * 8 + run.current().len() == run.requests.len(),
        0 <= i < run.current().len() ==> run.current()[i] == run.requests[run.batch * 8 + i],
{
}

/// A run is asked again after two seconds where its first reply for a batch is empty, and only
/// then; the reply to the second one is taken as it is.
pub proof fn empty_replies_are_asked_again_once(
    run: GooseRunView,
    success: bool,
    output: Seq<char>,
    raw: Seq<char>,
)
    requires
        run.wf(),
        run.phase != RunPhase::Finished,
    ensures
        ({
            let next = run.after(GooseEventView::Completed { success, output, raw });
            let again = run.phase == RunPhase::First && utf8(output).len() <= 1;
            &&& next.phase == RunPhase::AfterEmptyReply <==> again
            &&& again ==> next.batch == run.batch && next.outputs == run.outputs
                && next.was_retried && (next.action() matches GooseActionView::Run {
                prompt,
                max_turns,
                delay_secs,
            } && run.prompt().is_prefix_of(prompt) && delay_secs == 2 && max_turns
                == run.max_turns())
            &&& !again ==> next.outputs == run.outputs.push(output) && next.batch == run.batch + 1
                || next.phase == RunPhase::Finished
        }),
{
}

/// A run of a batch that times out is made again after ten seconds, once; any other failure
/// ends the file with the reason.
pub proof fn timeouts_are_run_again_once(run: GooseRunView, message: Seq<char>)
    requires
        run.wf(),
        run.phase != RunPhase::Finished,
    ensures
        ({
            let next = run.after(GooseEventView::Failed { message });
            let again = run.requests.len() > 1 && run.phase != RunPhase::AfterTimeout && contains(
                message,
                "timed out"@,
            );
            &&& again ==> next.phase == RunPhase::AfterTimeout && next.batch == run.batch && (
            next.action() matches GooseActionView::Run { prompt, delay_secs, .. } && prompt
                == run.prompt() && delay_secs == 10)
            &&& !again ==> next.phase == RunPhase::Finished && !next.result.success
                && next.result.output == "Error: "@ + message && next.result.file_path
                == run.file_path
        }),
{
}

/// After a batch that succeeded the next one follows, and is told of its fixes; after the last
/// one the file is done. One that did not succeed ends the file, unless it had timed out.
pub proof fn batches_follow_each_other(
    run: GooseRunView,
    success: bool,
    output: Seq<char>,
    raw: Seq<char>,
    i: int,
)
    requires
        run.wf(),
        run.phase != RunPhase::Finished,
        run.phase != RunPhase::First || utf8(output).len() > 1,
    ensures
        ({
            let next = run.after(GooseEventView::Completed { success, output, raw });
            let goes_on = success || run.phase == RunPhase::AfterTimeout;
            let more = run.batch * 8 + 8 < run.requests.len();
            &&& next.phase == RunPhase::First <==> goes_on && more
            &&& next.phase == RunPhase::Finished <==> !(goes_on && more)
            &&& next.result.success == success && next.result.output == output
            &&& next.outputs == run.outputs.push(output)
            &&& goes_on && more ==> next.batch == run.batch + 1 && next.prompts
                == run.prompts.push(next.prompt())
            &&& run.requests.len() > 1 && 0 <= i < run.current().len() ==> next.applied.contains(
                applied_note(run.current()[i]),
            )
        }),
{
    let notes = applied_notes(run.current());
    if 0 <= i < run.current().len() {
        assert(notes[i] == applied_note(run.current()[i]));
        lemma_in_either(run.applied, notes, notes[i]);
    }
}

/// The agent has five turns for a single rule, else more the more fixes it is asked for, from
/// twenty-three on and never more than forty.
pub proof fn turns_grow_with_the_fixes(run: GooseRunView)
    requires
        run.wf(),
        run.phase != RunPhase::Finished,
    ensures
        run.requests.len() == 1 ==> run.max_turns() == 5,
        run.requests.len() > 1 ==> run.max_turns() == 22 + run.current().len()
            && run.max_turns() <= 40,
{
}

/// The families of requests are those that their labels name, each once.
pub proof fn families_come_from_labels(known: Seq<Seq<char>>, labels: Seq<Seq<char>>, f: Seq<char>)
    ensures
        families_in(known, labels).contains(f) <==> known.contains(f) || labels.contains(
            "family="@ + f,
        ),
    decreases labels.len(),
{
    if labels.len() > 0 {
        let rest = labels.drop_last();
        let last = labels.last();
        let before = families_in(known, rest);
        families_come_from_labels(known, rest, f);
        lemma_in_pushed(rest, last, "family="@ + f);
        assert(rest.push(last) =~= labels);
        reveal_strlit("family=");
        let whole = "family="@ + f;
        assert(whole.subrange(0, 7) =~= "family="@);
        assert(whole.skip(7) =~= f);
        if let Some(own) = strip_prefix(last, "family="@) {
            lemma_in_pushed(before, own, f);
            assert(last =~= last.subrange(0, 7) + last.skip(7));
            assert(own == f <==> last == whole);
        }
    }
}

/// What would be asked for a file is planned batch by batch: each one has the rules and the
/// lines of its eight entries, or of those that are left, and tells its place among them.
pub proof fn every_batch_is_planned(run: GooseRunView, requests: Seq<LlmFixRequestView>, k: int)
    requires
        run.wf(),
        run.phase == RunPhase::First,
        0 <= k,
        (run.batch + k) * 8 < run.requests.len(),
    ensures
        ({
            let plan = planned_from(run, requests);
            let from = (run.batch + k) * 8;
            let to = if from + 8 <= run.requests.len() {
                from + 8
            } else {
                run.requests.len() as int
            };
            let own = run.requests.subrange(from, to);
            &&& k < plan.len()
            &&& plan[k].file_path == run.file_path
            &&& plan[k].chunk_index == run.batch + k
            &&& plan[k].chunk_count * 8 >= run.requests.len()
            &&& plan[k].chunk_count * 8 < run.requests.len() + 8
            &&& plan[k].rule_ids == rule_ids(own)
            &&& plan[k].lines == all_lines(own)
            &&& plan[k].families == families_of(requests, rule_ids(own))
        }),
    decreases k,
{
    let next = run.accepted(true, Seq::empty(), Seq::empty());
    let plan = planned_from(run, requests);
    runs_come_to_an_end(
        run,
        GooseEventView::Completed { success: true, output: seq!['a', 'b'], raw: Seq::empty() },
    );
    assert(next.wf());
    assert(plan == seq![batch_plan(run, requests)] + planned_from(next, requests));
    assert(plan[0] == batch_plan(run, requests));
    if k > 0 {
        assert((run.batch + 1) * 8 < run.requests.len());
        assert(next.phase == RunPhase::First && next.batch == run.batch + 1);
        assert(next.requests == run.requests && next.file_path == run.file_path);
        every_batch_is_planned(next, requests, k - 1);
        assert(plan[k] == planned_from(next, requests)[k - 1]);
    }
}

/// The families of a batch are those that the labels of the requests of its rules name.
pub proof fn families_come_from_the_rules(
    requests: Seq<LlmFixRequestView>,
    rules: Seq<Seq<char>>,
    f: Seq<char>,
)
    ensures
        families_of(requests, rules).contains(f) <==> exists|i: int|
            0 <= i < requests.len() && rules.contains((#[trigger] requests[i]).rule_id)
                && requests[i].labels.contains("family="@ + f),
    decreases requests.len(),
{
    if requests.len() > 0 {
        let rest = requests.drop_last();
        let last = requests.last();
        families_come_from_the_rules(rest, rules, f);
        families_come_from_labels(families_of(rest, rules), last.labels, f);
        assert forall|i: int| 0 <= i < rest.len() implies rest[i] == #[trigger] requests[i] by {}
        assert(requests[requests.len() - 1] == last);
        if families_of(rest, rules).contains(f) {
            let i = choose|i: int|
                0 <= i < rest.len() && rules.contains((#[trigger] rest[i]).rule_id)
                    && rest[i].labels.contains("family="@ + f);
            assert(requests[i] == rest[i]);
        }
    }
}

/// The lines of entries are those of each, one after the other.
pub proof fn lines_of_entries_follow_each_other(a: Seq<MergedView>, b: Seq<MergedView>)
    ensures
        all_lines(a + b) == all_lines(a) + all_lines(b),
        a.len() == 1 ==> all_lines(a) == a[0].lines,
    decreases b.len(),
{
    if b.len() == 0 {
        assert(a + b =~= a);
        assert(all_lines(a) + all_lines(b) =~= all_lines(a));
    } else {
        lines_of_entries_follow_each_other(a, b.drop_last());
        assert((a + b).drop_last() =~= a + b.drop_last());
        assert((a + b).last() == b.last());
        assert(all_lines(a + b) =~= all_lines(a) + all_lines(b));
    }
    if a.len() == 1 {
        assert(all_lines(a.drop_last()) =~= Seq::empty());
        assert(all_lines(a) =~= a[0].lines);
    }
}

/// What is planned for each file is part of the plan.
pub proof fn every_file_is_planned(
    requests: Seq<LlmFixRequestView>,
    paths: Seq<Seq<char>>,
    n: int,
    i: int,
    x: PlannedBatchView,
)
    requires
        0 <= i < n <= paths.len(),
        planned_file(requests, paths[i]).contains(x),
    ensures
        planned_files(requests, paths, n).contains(x),
    decreases n,
{
    lemma_in_either(
        planned_files(requests, paths, n - 1),
        planned_file(requests, paths[n - 1]),
        x,
    );
    if i < n - 1 {
        every_file_is_planned(requests, paths, n - 1, i, x);
    }
}

} // verus!
