//! Fixes from a language model: what is asked, and how the reply is read.

use crate::fix::{
    edit_views, fix_views, FixConfidence, FixSource, LlmFixRequest, LlmFixRequestView, PlannedFix,
    PlannedFixView, TextEdit, TextEditView,
};
use crate::json::{entry_from, list_at, text_at, Json, JsonView};
use crate::text::{
    chars_of, contains, decimal, decimal_text, is_digit, is_white, lemma_decimal_digits,
    lemma_stands_in, parse_of_decimal, starts_with, lines, lines_text, opt_text, parse_number,
    parse_number_chars, same_text, strip_prefix, strip_prefix_text, texts, trim, trim_chars,
    trimmed,
};
use vstd::prelude::*;

verus! {

/// The model that is asked.
pub const DEFAULT_MODEL: &'static str = "gpt-4";

/// The system prompt for fixes of a ruleset without texts of its own.
pub const GENERIC_SYSTEM_PROMPT: &'static str = "You are a code migration assistant. Given a code snippet and a migration message, output ONLY the corrected code for the affected lines. Output in this exact format:\n\n```fix\nLINE:<line_number>\nOLD:<exact old text on that line>\nNEW:<replacement text>\n```\n\nYou may output multiple fix blocks. Do not include any explanation outside the fix blocks. Only output fixes for lines that need to change.\n\nIMPORTANT: After applying your fixes, check the import statements at the top of the file. If any imported names are no longer referenced in the file body, remove those specifiers from the import. If removing the last specifier from an import line, remove the entire import line. Output fix blocks for any import cleanup needed.";

/// The system prompt of a single request.
pub const DEFAULT_SYSTEM_PROMPT: &'static str = "You are a PatternFly v5 to v6 migration assistant. Given a code snippet and a migration message, output ONLY the corrected code for the affected lines. Output in this exact format:\n\n```fix\nLINE:<line_number>\nOLD:<exact old text on that line>\nNEW:<replacement text>\n```\n\nYou may output multiple fix blocks. Do not include any explanation outside the fix blocks. Only output fixes for lines that need to change.";

/// A chat request for one fix.
#[derive(Debug)]
pub struct PlannedOpenAiRequest {
    pub rule_id: String,
    pub file_path: String,
    pub line: u32,
    pub model: String,
    pub system_prompt: String,
    pub user_prompt: String,
    /// The request body.
    pub request_json: Json,
}

pub ghost struct PlannedOpenAiRequestView {
    pub rule_id: Seq<char>,
    pub file_path: Seq<char>,
    pub line: u32,
    pub model: Seq<char>,
    pub system_prompt: Seq<char>,
    pub user_prompt: Seq<char>,
    pub request_json: JsonView,
}

impl PlannedOpenAiRequest {
    pub open spec fn view(&self) -> PlannedOpenAiRequestView {
        PlannedOpenAiRequestView {
            rule_id: self.rule_id@,
            file_path: self.file_path@,
            line: self.line,
            model: self.model@,
            system_prompt: self.system_prompt@,
            user_prompt: self.user_prompt@,
            request_json: self.request_json@,
        }
    }
}

// ── Requests ────────────────────────────────────────────────────────────

/// What the user message says: where the incident is, the rule and its message, and
/// the whole file.
pub open spec fn user_prompt(request: LlmFixRequestView, source: Seq<char>) -> Seq<char> {
    "File: "@ + request.file_path + "\nLine: "@ + decimal(request.line as nat) + "\n\nMigration rule: "@
        + request.rule_id + "\n\nMessage: "@ + request.message + "\n\nFull file source:\n```\n"@ + source
        + "\n```"@
}

/// One chat message.
pub open spec fn chat_message(role: Seq<char>, content: Seq<char>) -> JsonView {
    JsonView::Object(seq![("content"@, JsonView::Str(content)), ("role"@, JsonView::Str(role))])
}

/// The body of a chat request: the system and the user message, and no randomness.
pub open spec fn chat_body(system: Seq<char>, user: Seq<char>) -> JsonView {
    JsonView::Object(
        seq![
            (
                "messages"@,
                JsonView::Array(seq![chat_message("system"@, system), chat_message("user"@, user)]),
            ),
            ("model"@, JsonView::Str(DEFAULT_MODEL@)),
            ("temperature"@, JsonView::Number("0.0"@)),
        ],
    )
}

/// The request for one fix, given the content of the file.
pub open spec fn planned_request(
    request: LlmFixRequestView,
    system: Seq<char>,
    source: Seq<char>,
) -> PlannedOpenAiRequestView {
    PlannedOpenAiRequestView {
        rule_id: request.rule_id,
        file_path: request.file_path,
        line: request.line,
        model: DEFAULT_MODEL@,
        system_prompt: system,
        user_prompt: user_prompt(request, source),
        request_json: chat_body(system, user_prompt(request, source)),
    }
}

pub fn build_user_prompt(request: &LlmFixRequest, source: &str) -> (r: String)
    ensures
        r@ == user_prompt(request@, source@),
{
    let line = decimal_text(request.line as u64);
    let mut s = "File: ".to_owned();
    s.append(request.file_path.as_str());
    s.append("\nLine: ");
    s.append(line.as_str());
    s.append("\n\nMigration rule: ");
    s.append(request.rule_id.as_str());
    s.append("\n\nMessage: ");
    s.append(request.message.as_str());
    s.append("\n\nFull file source:\n```\n");
    s.append(source);
    s.append("\n```");
    s
}

fn build_message(role: &str, content: &str) -> (r: Json)
    ensures
        r@ == chat_message(role@, content@),
{
    let mut entries: Vec<(String, Json)> = Vec::new();
    let said = Json::Str(content.to_owned());
    let speaker = Json::Str(role.to_owned());
    assert(said@ == JsonView::Str(content@) && speaker@ == JsonView::Str(role@));
    entries.push(("content".to_owned(), said));
    entries.push(("role".to_owned(), speaker));
    let r = Json::Object(entries);
    assert(r@->Object_0 =~= chat_message(role@, content@)->Object_0);
    r
}

fn build_body(system: &str, user: &str) -> (r: Json)
    ensures
        r@ == chat_body(system@, user@),
{
    let mut messages: Vec<Json> = Vec::new();
    messages.push(build_message("system", system));
    messages.push(build_message("user", user));
    let list = Json::Array(messages);
    assert(list@->Array_0 =~= seq![chat_message("system"@, system@), chat_message("user"@, user@)]);
    let mut entries: Vec<(String, Json)> = Vec::new();
    let model = Json::Str(DEFAULT_MODEL.to_owned());
    let temperature = Json::Number("0.0".to_owned());
    assert(model@ == JsonView::Str(DEFAULT_MODEL@) && temperature@ == JsonView::Number("0.0"@));
    entries.push(("messages".to_owned(), list));
    entries.push(("model".to_owned(), model));
    entries.push(("temperature".to_owned(), temperature));
    let r = Json::Object(entries);
    assert(r@->Object_0 =~= chat_body(system@, user@)->Object_0);
    r
}

/// The request for one fix. The file is quoted as the request holds it, or else as it
/// was read from disk; if that failed, so does this.
pub fn build_openai_plan_request(
    request: &LlmFixRequest,
    system_prompt: &str,
    on_disk: &Result<String, String>,
) -> (r: Result<PlannedOpenAiRequest, String>)
    ensures
        match (request.source, *on_disk) {
            (Some(source), _) => r is Ok && r->Ok_0@ == planned_request(
                request@,
                system_prompt@,
                source@,
            ),
            (None, Ok(source)) => r is Ok && r->Ok_0@ == planned_request(
                request@,
                system_prompt@,
                source@,
            ),
            (None, Err(e)) => r is Err && r->Err_0@ == e@,
        },
{
    let source = match &request.source {
        Some(source) => source.as_str(),
        None => match on_disk {
            Ok(source) => source.as_str(),
            Err(e) => {
                return Err(e.clone());
            },
        },
    };
    let user = build_user_prompt(request, source);
    let body = build_body(system_prompt, user.as_str());
    Ok(
        PlannedOpenAiRequest {
            rule_id: request.rule_id.clone(),
            file_path: request.file_path.clone(),
            line: request.line,
            model: DEFAULT_MODEL.to_owned(),
            system_prompt: system_prompt.to_owned(),
            user_prompt: user,
            request_json: body,
        },
    )
}

// ── Replies ─────────────────────────────────────────────────────────────

/// How far a reply was read: whether a fix block is open, and what it said so far.
#[verifier::ext_equal]
pub ghost struct ReplyState {
    pub in_block: bool,
    pub line: Option<u32>,
    pub old_text: Option<Seq<char>>,
    pub edits: Seq<TextEditView>,
}

/// A line number: the digits after surrounding blanks, if they fit.
pub open spec fn line_number_of(s: Seq<char>) -> Option<u32> {
    match parse_number(trim(s), u32::MAX as nat) {
        Some(n) => Some(n as u32),
        None => None,
    }
}

/// What one line of the reply, without surrounding blanks, adds. A fence drops what a
/// block has said without completing it.
pub open spec fn reply_line(state: ReplyState, t: Seq<char>, rule_id: Seq<char>) -> ReplyState {
    if t == "```fix"@ {
        ReplyState { in_block: true, line: None, old_text: None, ..state }
    } else if t == "```"@ && state.in_block {
        ReplyState { in_block: false, line: None, old_text: None, ..state }
    } else if !state.in_block {
        state
    } else {
        match strip_prefix(t, "LINE:"@) {
            Some(rest) => ReplyState { line: line_number_of(rest), ..state },
            None => match strip_prefix(t, "OLD:"@) {
                Some(rest) => ReplyState { old_text: Some(rest), ..state },
                None => match strip_prefix(t, "NEW:"@) {
                    Some(rest) => ReplyState {
                        line: None,
                        old_text: None,
                        edits: if state.line is Some && state.old_text is Some {
                            state.edits.push(
                                TextEditView {
                                    line: state.line->0,
                                    old_text: state.old_text->0,
                                    new_text: rest,
                                    rule_id,
                                    description: "LLM-generated fix"@,
                                    replace_all: false,
                                },
                            )
                        } else {
                            state.edits
                        },
                        ..state
                    },
                    None => state,
                },
            },
        }
    }
}

/// The state after the first lines of a reply.
pub open spec fn reply_state(reply: Seq<Seq<char>>, rule_id: Seq<char>) -> ReplyState
    decreases reply.len(),
{
    if reply.len() == 0 {
        ReplyState { in_block: false, line: None, old_text: None, edits: Seq::empty() }
    } else {
        reply_line(reply_state(reply.drop_last(), rule_id), trim(reply.last()), rule_id)
    }
}

/// The edits in a reply: one for each line, old and new text given in turn within a
/// fix block.
pub open spec fn reply_edits(content: Seq<char>, rule_id: Seq<char>) -> Seq<TextEditView> {
    reply_state(lines(content), rule_id).edits
}

/// All edits in a reply are for the rule that was asked about, each for one place.
pub proof fn reply_edits_are_for_the_rule(content: Seq<char>, rule_id: Seq<char>)
    ensures
        forall|i: int|
            0 <= i < reply_edits(content, rule_id).len() ==> (#[trigger] reply_edits(content, rule_id)[i]).rule_id
                == rule_id && !reply_edits(content, rule_id)[i].replace_all,
{
    lemma_reply_rule(lines(content), rule_id);
}

proof fn lemma_reply_rule(reply: Seq<Seq<char>>, rule_id: Seq<char>)
    ensures
        forall|i: int|
            0 <= i < reply_state(reply, rule_id).edits.len() ==> (#[trigger] reply_state(
                reply,
                rule_id,
            ).edits[i]).rule_id == rule_id && !reply_state(reply, rule_id).edits[i].replace_all,
    decreases reply.len(),
{
    if reply.len() > 0 {
        lemma_reply_rule(reply.drop_last(), rule_id);
    }
}

/// A reply that opens no fix block has no edits.
pub proof fn no_fix_block_no_edits(reply: Seq<Seq<char>>, rule_id: Seq<char>)
    requires
        forall|i: int| 0 <= i < reply.len() ==> trim(#[trigger] reply[i]) != "```fix"@,
    ensures
        reply_state(reply, rule_id).edits.len() == 0,
        !reply_state(reply, rule_id).in_block,
    decreases reply.len(),
{
    if reply.len() > 0 {
        assert(reply.last() == reply[reply.len() - 1]);
        assert forall|i: int| 0 <= i < reply.drop_last().len() implies trim(
            #[trigger] reply.drop_last()[i],
        ) != "```fix"@ by {
            assert(reply.drop_last()[i] == reply[i]);
        }
        no_fix_block_no_edits(reply.drop_last(), rule_id);
    }
}

/// Blocks are read alone: what stands before an opening fence, an incomplete block
/// among it, has no part in the edits behind it.
pub proof fn blocks_are_read_alone(before: Seq<Seq<char>>, block: Seq<Seq<char>>, rule_id: Seq<char>)
    requires
        block.len() > 0,
        trim(block[0]) == "```fix"@,
    ensures
        reply_state(before + block, rule_id).edits == reply_state(before, rule_id).edits
            + reply_state(block, rule_id).edits,
{
    lemma_blocks_alone(before, block, rule_id);
}

proof fn lemma_blocks_alone(before: Seq<Seq<char>>, block: Seq<Seq<char>>, rule_id: Seq<char>)
    requires
        block.len() > 0,
        trim(block[0]) == "```fix"@,
    ensures
        reply_state(before + block, rule_id) == (ReplyState {
            edits: reply_state(before, rule_id).edits + reply_state(block, rule_id).edits,
            ..reply_state(block, rule_id)
        }),
    decreases block.len(),
{
    let all = before + block;
    let rest = block.drop_last();
    let prior = reply_state(before, rule_id).edits;
    assert(all.drop_last() =~= before + rest);
    assert(all.last() == block.last());
    if rest.len() == 0 {
        assert(before + rest =~= before);
        assert(block.last() == block[0]);
        assert(reply_state(rest, rule_id).edits =~= Seq::<TextEditView>::empty());
        assert(reply_state(all, rule_id) =~= ReplyState {
            edits: prior + reply_state(block, rule_id).edits,
            ..reply_state(block, rule_id)
        });
    } else {
        assert(rest[0] == block[0]);
        lemma_blocks_alone(before, rest, rule_id);
        let a = reply_state(before + rest, rule_id);
        let b = reply_state(rest, rule_id);
        assert(reply_line(a, trim(block.last()), rule_id) =~= ReplyState {
            edits: prior + reply_line(b, trim(block.last()), rule_id).edits,
            ..reply_line(b, trim(block.last()), rule_id)
        });
    }
}

fn parse_line_number(s: &str) -> (r: Option<u32>)
    ensures
        r == line_number_of(s@),
{
    let c = chars_of(s);
    let body = trim_chars(c.as_slice());
    match parse_number_chars(body, u32::MAX as u64) {
        Some(n) => Some(n as u32),
        None => None,
    }
}

/// The edits that a reply of the language model asks for.
pub fn parse_llm_fix_response(content: &str, rule_id: &str) -> (r: Vec<TextEdit>)
    ensures
        edit_views(r@) == reply_edits(content@, rule_id@),
{
    let reply = lines_text(content);
    let ghost t = texts(reply@);
    let mut edits: Vec<TextEdit> = Vec::new();
    let mut in_block: bool = false;
    let mut line: Option<u32> = None;
    let mut old_text: Option<String> = None;
    let mut i: usize = 0;
    assert(edit_views(edits@) =~= Seq::<TextEditView>::empty());
    while i < reply.len()
        invariant
            i <= reply@.len(),
            t == texts(reply@),
            reply_state(t.take(i as int), rule_id@) == (ReplyState {
                in_block,
                line,
                old_text: opt_text(old_text),
                edits: edit_views(edits@),
            }),
        decreases reply@.len() - i,
    {
        let s = trimmed(reply[i].as_str());
        assert(t.take(i + 1).drop_last() =~= t.take(i as int));
        assert(t.take(i + 1).last() == reply@[i as int]@);
        let ghost before = reply_state(t.take(i as int), rule_id@);
        assert(reply_state(t.take(i + 1), rule_id@) == reply_line(before, s@, rule_id@));
        if same_text(s.as_str(), "```fix") {
            in_block = true;
            line = None;
            old_text = None;
        } else if same_text(s.as_str(), "```") && in_block {
            in_block = false;
            line = None;
            old_text = None;
        } else if in_block {
            if let Some(rest) = strip_prefix_text(s.as_str(), "LINE:") {
                line = parse_line_number(rest.as_str());
            } else if let Some(rest) = strip_prefix_text(s.as_str(), "OLD:") {
                old_text = Some(rest);
            } else if let Some(rest) = strip_prefix_text(s.as_str(), "NEW:") {
                if let (Some(n), Some(before_text)) = (line, old_text) {
                    let edit = TextEdit {
                        line: n,
                        old_text: before_text,
                        new_text: rest,
                        rule_id: rule_id.to_owned(),
                        description: "LLM-generated fix".to_owned(),
                        replace_all: false,
                    };
                    let ghost prior = edits@;
                    edits.push(edit);
                    assert(edit_views(edits@) =~= edit_views(prior).push(edit@));
                }
                old_text = None;
                line = None;
            }
        }
        i = i + 1;
    }
    assert(t.take(t.len() as int) =~= t);
    edits
}

/// The fixes that a reply to a request stands for: one with all edits of the reply,
/// or none where it has no edits.
pub open spec fn fixes_of_reply(request: LlmFixRequestView, content: Seq<char>) -> Seq<PlannedFixView> {
    let edits = reply_edits(content, request.rule_id);
    if edits.len() == 0 {
        Seq::empty()
    } else {
        seq![
            PlannedFixView {
                edits,
                confidence: FixConfidence::Medium,
                source: FixSource::Llm,
                rule_id: request.rule_id,
                file_uri: request.file_uri,
                line: request.line,
                description: "LLM-generated fix for "@ + request.rule_id,
            },
        ]
    }
}

/// The fixes in the reply to a request. `contents` are the replies on offer, of which
/// the first counts.
pub fn fixes_from_reply(request: &LlmFixRequest, contents: &Vec<String>) -> (r: Vec<PlannedFix>)
    ensures
        fix_views(r@) == fixes_of_reply(
            request@,
            if contents@.len() == 0 {
                Seq::empty()
            } else {
                contents@[0]@
            },
        ),
{
    let nothing = String::new();
    assert(nothing@ =~= Seq::<char>::empty());
    let content = if contents.len() == 0 {
        nothing.as_str()
    } else {
        contents[0].as_str()
    };
    let edits = parse_llm_fix_response(content, request.rule_id.as_str());
    let mut out: Vec<PlannedFix> = Vec::new();
    if edits.len() > 0 {
        let mut description = "LLM-generated fix for ".to_owned();
        description.append(request.rule_id.as_str());
        out.push(
            PlannedFix {
                edits,
                confidence: FixConfidence::Medium,
                source: FixSource::Llm,
                rule_id: request.rule_id.clone(),
                file_uri: request.file_uri.clone(),
                line: request.line,
                description,
            },
        );
    }
    assert(fix_views(out@) =~= fixes_of_reply(request@, content@));
    out
}

/// What the user message says names the file, the line, the rule and its message, and holds
/// the whole file.
pub proof fn prompts_tell_the_incident(request: LlmFixRequestView, source: Seq<char>)
    ensures
        contains(user_prompt(request, source), "File: "@ + request.file_path + "\n"@),
        contains(user_prompt(request, source), "Line: "@ + decimal(request.line as nat) + "\n"@),
        contains(user_prompt(request, source), request.rule_id),
        contains(user_prompt(request, source), request.message),
        contains(user_prompt(request, source), source),
{
    let a = "File: "@ + request.file_path + "\nLine: "@ + decimal(request.line as nat)
        + "\n\nMigration rule: "@;
    let b = a + request.rule_id + "\n\nMessage: "@;
    let c = b + request.message + "\n\nFull file source:\n```\n"@;
    let all = user_prompt(request, source);
    let none = Seq::<char>::empty();
    reveal_strlit("\n");
    reveal_strlit("Line: ");
    reveal_strlit("\nLine: ");
    reveal_strlit("\n\nMigration rule: ");
    let line = "Line: "@ + decimal(request.line as nat) + "\n"@;
    let place = "File: "@ + request.file_path + "\n"@;
    assert("\nLine: "@ =~= "\n"@ + "Line: "@);
    let rule = "\n\nMigration rule: "@;
    assert(rule =~= "\n"@ + rule.skip(1));
    let behind_line = all.skip((place + line).len() as int);
    assert(place + line + behind_line =~= all);
    lemma_stands_in(none, place, line + behind_line);
    assert(none + place + (line + behind_line) =~= all);
    lemma_stands_in(place, line, behind_line);
    let behind_rule = all.skip((a + request.rule_id).len() as int);
    lemma_stands_in(a, request.rule_id, behind_rule);
    assert(a + request.rule_id + behind_rule =~= all);
    let behind_message = all.skip((b + request.message).len() as int);
    lemma_stands_in(b, request.message, behind_message);
    assert(b + request.message + behind_message =~= all);
    lemma_stands_in(c, source, "\n```"@);
}

/// A request sends the system prompt first, then the user message, to the model.
pub proof fn requests_carry_both_prompts(
    request: LlmFixRequestView,
    system: Seq<char>,
    source: Seq<char>,
)
    ensures
        ({
            let r = planned_request(request, system, source);
            let v = list_at(r.request_json, "messages"@);
            &&& v.len() == 2
            &&& text_at(v[0], "role"@) == "system"@ && text_at(v[0], "content"@) == system
            &&& text_at(v[1], "role"@) == "user"@ && text_at(v[1], "content"@) == r.user_prompt
            &&& text_at(r.request_json, "model"@) == r.model
            &&& r.system_prompt == system
            &&& r.file_path == request.file_path && r.rule_id == request.rule_id && r.line
                == request.line
        }),
{
    reveal_strlit("messages");
    reveal_strlit("model");
    reveal_strlit("role");
    reveal_strlit("content");
    assert("messages"@.len() == 8 && "model"@.len() == 5 && "role"@.len() == 4 && "content"@.len()
        == 7);
    let r = planned_request(request, system, source);
    let entries = r.request_json->Object_0;
    assert(entry_from(entries, "messages"@, 0) == Some(entries[0].1));
    assert(entry_from(entries, "model"@, 1) == Some(entries[1].1));
    let v = entries[0].1->Array_0;
    assert(v.len() == 2);
    let first = v[0]->Object_0;
    let second = v[1]->Object_0;
    assert(entry_from(first, "role"@, 1) == Some(first[1].1));
    assert(entry_from(second, "role"@, 1) == Some(second[1].1));
    assert(entry_from(first, "content"@, 0) == Some(first[0].1));
    assert(entry_from(second, "content"@, 0) == Some(second[0].1));
}

/// A block with a line number, an old and a new text gives the edit that it describes, behind
/// those of what stands before it.
pub proof fn blocks_give_their_edits(
    before: Seq<Seq<char>>,
    fence: Seq<char>,
    line: Seq<char>,
    old_line: Seq<char>,
    new_line: Seq<char>,
    number: nat,
    old_text: Seq<char>,
    new_text: Seq<char>,
    rule_id: Seq<char>,
)
    requires
        trim(fence) == "```fix"@,
        number <= u32::MAX,
        trim(line) == "LINE:"@ + decimal(number),
        trim(old_line) == "OLD:"@ + old_text,
        trim(new_line) == "NEW:"@ + new_text,
    ensures
        reply_state(before + seq![fence, line, old_line, new_line], rule_id).edits == reply_state(
            before,
            rule_id,
        ).edits.push(
            TextEditView {
                line: number as u32,
                old_text,
                new_text,
                rule_id,
                description: "LLM-generated fix"@,
                replace_all: false,
            },
        ),
{
    let block = seq![fence, line, old_line, new_line];
    blocks_are_read_alone(before, block, rule_id);
    reveal_strlit("```fix");
    reveal_strlit("```");
    reveal_strlit("LINE:");
    reveal_strlit("OLD:");
    reveal_strlit("NEW:");
    let one = seq![fence];
    let two = seq![fence, line];
    let three = seq![fence, line, old_line];
    assert(one.drop_last() =~= Seq::empty());
    assert(two.drop_last() =~= one);
    assert(three.drop_last() =~= two);
    assert(block.drop_last() =~= three);
    let none = Seq::<TextEditView>::empty();
    let nothing = Seq::<Seq<char>>::empty();
    assert(reply_state(nothing, rule_id) == (ReplyState {
        in_block: false,
        line: None,
        old_text: None,
        edits: none,
    }));
    assert(one.last() == fence);
    assert(reply_state(one, rule_id) == (ReplyState {
        in_block: true,
        line: None,
        old_text: None,
        edits: none,
    }));
    let l = trim(line);
    lemma_strip("LINE:"@, decimal(number));
    assert(l[0] == 'L');
    assert("```fix"@[0] == '`' && "```"@[0] == '`');
    lemma_decimal_trim(number);
    parse_of_decimal(number, u32::MAX as nat);
    assert(reply_state(two, rule_id) == (ReplyState {
        in_block: true,
        line: Some(number as u32),
        old_text: None,
        edits: none,
    }));
    let o = trim(old_line);
    lemma_strip("OLD:"@, old_text);
    assert(o[0] == 'O');
    if starts_with(o, "LINE:"@) {
        assert(o.subrange(0, 5)[0] == "LINE:"@[0]);
    }
    assert(reply_state(three, rule_id) == (ReplyState {
        in_block: true,
        line: Some(number as u32),
        old_text: Some(old_text),
        edits: none,
    }));
    let w = trim(new_line);
    lemma_strip("NEW:"@, new_text);
    assert(w[0] == 'N');
    if starts_with(w, "LINE:"@) {
        assert(w.subrange(0, 5)[0] == "LINE:"@[0]);
    }
    if starts_with(w, "OLD:"@) {
        assert(w.subrange(0, 4)[0] == "OLD:"@[0]);
    }
    let own = TextEditView {
        line: number as u32,
        old_text,
        new_text,
        rule_id,
        description: "LLM-generated fix"@,
        replace_all: false,
    };
    assert(reply_state(block, rule_id).edits =~= none.push(own));
    let a = reply_state(before, rule_id).edits;
    assert(a + none.push(own) =~= a.push(own));
}

proof fn lemma_strip(prefix: Seq<char>, rest: Seq<char>)
    ensures
        strip_prefix(prefix + rest, prefix) == Some(rest),
{
    let s = prefix + rest;
    assert(s.subrange(0, prefix.len() as int) =~= prefix);
    assert(s.take(prefix.len() as int) =~= prefix);
    assert(s.skip(prefix.len() as int) =~= rest);
}

proof fn lemma_decimal_trim(n: nat)
    ensures
        trim(decimal(n)) == decimal(n),
{
    lemma_decimal_digits(n);
    let d = decimal(n);
    assert(is_digit(d[0]) && is_digit(d[d.len() - 1]));
    assert(!is_white(d[0]) && !is_white(d.last()));
}

/// What stands behind the end of a block gives no edits, up to the next one.
pub proof fn nothing_is_read_behind_a_block(
    before: Seq<Seq<char>>,
    fence: Seq<char>,
    after: Seq<Seq<char>>,
    rule_id: Seq<char>,
)
    requires
        trim(fence) == "```"@,
        forall|i: int| 0 <= i < after.len() ==> trim(#[trigger] after[i]) != "```fix"@,
    ensures
        reply_state(before + seq![fence] + after, rule_id).edits == reply_state(
            before,
            rule_id,
        ).edits,
        !reply_state(before + seq![fence] + after, rule_id).in_block,
    decreases after.len(),
{
    let all = before + seq![fence] + after;
    reveal_strlit("```fix");
    reveal_strlit("```");
    if after.len() == 0 {
        assert(all.drop_last() =~= before);
        assert(all.last() == fence);
        assert("```fix"@.len() == 6 && "```"@.len() == 3);
    } else {
        nothing_is_read_behind_a_block(before, fence, after.drop_last(), rule_id);
        assert(all.drop_last() =~= before + seq![fence] + after.drop_last());
        assert(all.last() == after[after.len() - 1]);
    }
}

/// A reply with edits is one fix for the file, the line and the rule that were asked about.
pub proof fn replies_are_for_their_request(request: LlmFixRequestView, content: Seq<char>)
    ensures
        fixes_of_reply(request, content).len() == 0 <==> reply_edits(
            content,
            request.rule_id,
        ).len() == 0,
        forall|i: int|
            0 <= i < fixes_of_reply(request, content).len() ==> {
                let f = #[trigger] fixes_of_reply(request, content)[i];
                &&& i == 0
                &&& f.edits == reply_edits(content, request.rule_id)
                &&& f.file_uri == request.file_uri
                &&& f.line == request.line
                &&& f.rule_id == request.rule_id
                &&& f.source == FixSource::Llm
                &&& f.confidence == FixConfidence::Medium
            },
{
}

} // verus!
