//! Calls of functions and hooks: every call in a program whose callee has a name, such
//! as `useState()`, `React.useState()` or `this.props.onChange()`.

use crate::ast::{CallSite, CallView};
use crate::estree::{
    is_type, is_type_at, name_of, node_at, node_type, read_name_at, read_span, span_of,
};
use crate::incident::{incident_views, lies_at, Incident, IncidentView};
use crate::json::{
    entry_views, field, flag_at, lemma_field_smaller, lemma_list_smaller, views, Json, JsonView,
};
use crate::pattern::regex_is_match;
use crate::scan::{TextScan, TextScanView};
use crate::sorting::{
    in_stable_order, key_values, stable_order, stable_order_is_sorted, stable_sort,
};
use crate::text::{cat3, opt_text};
use vstd::prelude::*;

verus! {

broadcast use {lemma_field_smaller, lemma_list_smaller};

// ── The calls of a document ─────────────────────────────────────────────

/// Whether a node only wraps the expression that it holds.
pub open spec fn is_wrapping(j: JsonView) -> bool {
    ||| node_type(j) == "ParenthesizedExpression"@
    ||| node_type(j) == "TSNonNullExpression"@
    ||| node_type(j) == "ChainExpression"@
}

/// Whether a node takes a member by its name.
pub open spec fn is_named_member(j: JsonView) -> bool {
    node_type(j) == "MemberExpression"@ && !flag_at(j, "computed"@) && node_type(
        node_at(j, "property"@),
    ) == "Identifier"@
}

/// The name of an expression: that of an identifier, or the names of a chain of members
/// with dots between them. A member of something without a name has its own name alone.
pub open spec fn expression_name(j: JsonView) -> Option<Seq<char>>
    decreases j,
{
    if node_type(j) == "Identifier"@ {
        Some(name_of(j))
    } else if node_type(j) == "ThisExpression"@ {
        Some("this"@)
    } else if is_named_member(j) && field(j, "object"@) is Some {
        let member = name_of(node_at(j, "property"@));
        match expression_name(field(j, "object"@)->0) {
            Some(object) => Some(object + "."@ + member),
            None => Some(member),
        }
    } else if is_wrapping(j) && field(j, "expression"@) is Some {
        expression_name(field(j, "expression"@)->0)
    } else {
        None
    }
}

/// The call that a node is, where its callee has a name.
pub open spec fn own_call(j: JsonView) -> Seq<CallView> {
    if node_type(j) == "CallExpression"@ {
        match expression_name(node_at(j, "callee"@)) {
            Some(name) => seq![CallView { name, span: span_of(j) }],
            None => Seq::empty(),
        }
    } else {
        Seq::empty()
    }
}

pub open spec fn calls_in_items(v: Seq<JsonView>) -> Seq<CallView>
    decreases v,
{
    if v.len() == 0 {
        Seq::empty()
    } else {
        calls_in_items(v.drop_last()) + calls_in(v.last())
    }
}

pub open spec fn calls_in_entries(v: Seq<(Seq<char>, JsonView)>) -> Seq<CallView>
    decreases v,
{
    if v.len() == 0 {
        Seq::empty()
    } else {
        calls_in_entries(v.drop_last()) + calls_in(v.last().1)
    }
}

/// The calls in a node: the node itself, then those in what it holds.
pub open spec fn calls_in(j: JsonView) -> Seq<CallView>
    decreases j,
{
    own_call(j) + match j {
        JsonView::Array(v) => calls_in_items(v),
        JsonView::Object(v) => calls_in_entries(v),
        _ => Seq::empty(),
    }
}

pub open spec fn call_starts(v: Seq<CallView>) -> Seq<int> {
    Seq::new(v.len(), |i: int| v[i].span.start as int)
}

/// The calls in a document in the order in which they start in the source, a call
/// before those that it holds.
pub open spec fn calls_in_order(j: JsonView) -> Seq<CallView> {
    in_stable_order(calls_in(j), call_starts(calls_in(j)))
}

pub open spec fn call_views(v: Seq<CallSite>) -> Seq<CallView> {
    Seq::new(v.len(), |i: int| v[i]@)
}

fn name_expression(j: &Json) -> (r: Option<String>)
    ensures
        opt_text(r) == expression_name(j@),
    decreases j,
{
    proof {
        reveal_strlit("Identifier");
    }
    if is_type(j, "Identifier") {
        return Some(j.get_text("name"));
    }
    if is_type(j, "ThisExpression") {
        return Some("this".to_owned());
    }
    if is_type(j, "MemberExpression") && !j.get_flag("computed") && is_type_at(
        j,
        "property",
        "Identifier",
    ) {
        if let Some(o) = j.get("object") {
            let member = read_name_at(j, "property");
            return match name_expression(o) {
                Some(object) => Some(cat3(object.as_str(), ".", member.as_str())),
                None => Some(member),
            };
        }
    }
    if is_type(j, "ParenthesizedExpression") || is_type(j, "TSNonNullExpression") || is_type(
        j,
        "ChainExpression",
    ) {
        if let Some(e) = j.get("expression") {
            return name_expression(e);
        }
    }
    None
}

fn push_own_call(j: &Json, out: &mut Vec<CallSite>)
    ensures
        call_views(final(out)@) == call_views(old(out)@) + own_call(j@),
{
    let ghost before = call_views(out@);
    proof {
        reveal_strlit("Identifier");
        reveal_strlit("ThisExpression");
        assert(node_type(JsonView::Null) =~= Seq::<char>::empty());
        assert("Identifier"@.len() > 0 && "ThisExpression"@.len() > 0);
        assert(field(JsonView::Null, "object"@) is None);
        assert(field(JsonView::Null, "expression"@) is None);
        assert(expression_name(JsonView::Null) is None);
    }
    if is_type(j, "CallExpression") {
        let name = match j.get("callee") {
            Some(c) => name_expression(c),
            None => None,
        };
        if let Some(name) = name {
            out.push(CallSite { name, span: read_span(j) });
        }
    }
    assert(call_views(out@) =~= before + own_call(j@));
}

fn push_item_calls(items: &Vec<Json>, out: &mut Vec<CallSite>)
    ensures
        call_views(final(out)@) == call_views(old(out)@) + calls_in_items(views(items@)),
    decreases items,
{
    let ghost before = call_views(out@);
    let ghost v = views(items@);
    let mut i: usize = 0;
    assert(before + calls_in_items(v.take(0)) =~= before);
    while i < items.len()
        invariant
            i <= items@.len(),
            v == views(items@),
            call_views(out@) == before + calls_in_items(v.take(i as int)),
        decreases items@.len() - i,
    {
        assert(decreases_to!(items@ => items@[i as int]));
        assert(v.take(i + 1).drop_last() =~= v.take(i as int));
        push_calls(&items[i], out);
        assert(call_views(out@) =~= before + calls_in_items(v.take(i + 1)));
        i = i + 1;
    }
    assert(v.take(v.len() as int) =~= v);
}

fn push_entry_calls(entries: &Vec<(String, Json)>, out: &mut Vec<CallSite>)
    ensures
        call_views(final(out)@) == call_views(old(out)@) + calls_in_entries(entry_views(entries@)),
    decreases entries,
{
    let ghost before = call_views(out@);
    let ghost v = entry_views(entries@);
    let mut i: usize = 0;
    assert(before + calls_in_entries(v.take(0)) =~= before);
    while i < entries.len()
        invariant
            i <= entries@.len(),
            v == entry_views(entries@),
            call_views(out@) == before + calls_in_entries(v.take(i as int)),
        decreases entries@.len() - i,
    {
        assert(decreases_to!(entries@ => entries@[i as int]));
        assert(v.take(i + 1).drop_last() =~= v.take(i as int));
        push_calls(&entries[i].1, out);
        assert(call_views(out@) =~= before + calls_in_entries(v.take(i + 1)));
        i = i + 1;
    }
    assert(v.take(v.len() as int) =~= v);
}

fn push_calls(j: &Json, out: &mut Vec<CallSite>)
    ensures
        call_views(final(out)@) == call_views(old(out)@) + calls_in(j@),
    decreases j,
{
    let ghost before = call_views(out@);
    push_own_call(j, out);
    match j {
        Json::Array(items) => {
            assert(j@->Array_0 =~= views(items@));
            push_item_calls(items, out);
        },
        Json::Object(entries) => {
            assert(j@->Object_0 =~= entry_views(entries@));
            push_entry_calls(entries, out);
        },
        _ => {},
    }
    assert(call_views(out@) =~= before + calls_in(j@));
}

/// The calls in an ESTree document, in the order of the source.
pub fn read_calls(j: &Json) -> (r: Vec<CallSite>)
    ensures
        call_views(r@) == calls_in_order(j@),
{
    let mut found: Vec<CallSite> = Vec::new();
    push_calls(j, &mut found);
    assert(call_views(found@) =~= calls_in(j@));
    let mut keys: Vec<i128> = Vec::new();
    let mut i: usize = 0;
    while i < found.len()
        invariant
            i <= found@.len(),
            keys@.len() == i,
            forall|k: int| 0 <= k < i ==> #[trigger] keys@[k] as int == found@[k].span.start as int,
        decreases found@.len() - i,
    {
        keys.push(found[i].span.start as i128);
        i = i + 1;
    }
    let ghost items = found@;
    let sorted = stable_sort(found, &keys);
    proof {
        let starts = call_starts(calls_in(j@));
        assert(key_values(keys@) =~= starts);
        stable_order_is_sorted(starts);
        assert(call_views(sorted@) =~= calls_in_order(j@));
    }
    sorted
}

// ── The scan ────────────────────────────────────────────────────────────

/// The incidents of some calls: one for each whose name matches.
pub open spec fn calls_hits(c: TextScanView, v: Seq<CallSite>) -> Seq<IncidentView>
    decreases v.len(),
{
    if v.len() == 0 {
        Seq::empty()
    } else {
        calls_hits(c, v.drop_last()) + c.hit(v.last().span, "functionName"@, v.last().name@)
    }
}

/// Scans the calls of a program for functions whose name matches.
pub fn scan_function_calls(
    calls: &Vec<CallSite>,
    source: &str,
    pattern: &regex::Regex,
    file_uri: &str,
) -> (r: Vec<Incident>)
    ensures
        incident_views(r@) == calls_hits((TextScan { source, pattern, file_uri })@, calls@),
{
    let scan = TextScan { source, pattern, file_uri };
    let mut out: Vec<Incident> = Vec::new();
    let mut i: usize = 0;
    assert(incident_views(out@) =~= calls_hits(scan@, calls@.take(0)));
    while i < calls.len()
        invariant
            i <= calls@.len(),
            incident_views(out@) == calls_hits(scan@, calls@.take(i as int)),
        decreases calls@.len() - i,
    {
        assert(calls@.take(i + 1).drop_last() =~= calls@.take(i as int));
        scan.check(calls[i].span, "functionName", calls[i].name.as_str(), &mut out);
        i = i + 1;
    }
    assert(calls@.take(calls@.len() as int) =~= calls@);
    out
}

// ── Laws ────────────────────────────────────────────────────────────────

/// Every incident lies in the scanned file and shows the name of a function that
/// matches the pattern.
pub proof fn function_calls_match(c: TextScanView, v: Seq<CallSite>)
    ensures
        c.all_match(calls_hits(c, v), "functionName"@),
    decreases v.len(),
{
    if v.len() > 0 {
        function_calls_match(c, v.drop_last());
        c.lemma_match_add(
            calls_hits(c, v.drop_last()),
            c.hit(v.last().span, "functionName"@, v.last().name@),
            "functionName"@,
        );
    }
}

/// No call is passed over: whatever node of a document is a call with a name, however
/// deep it stands, is among the calls of the document.
pub proof fn every_call_is_listed(j: JsonView, part: JsonView)
    requires
        holds_part(j, part),
        own_call(part).len() > 0,
    ensures
        calls_in_order(j).contains(own_call(part)[0]),
{
    lemma_part_listed(j, part);
    let found = calls_in(j);
    let starts = call_starts(found);
    stable_order_is_sorted(starts);
    let k = choose|k: int| 0 <= k < found.len() && found[k] == own_call(part)[0];
    assert(stable_order(starts).contains(k));
    let i = choose|i: int| 0 <= i < stable_order(starts).len() && stable_order(starts)[i] == k;
    assert(calls_in_order(j)[i] == found[k]);
}

/// Whether `part` is `j` or stands somewhere in it.
pub open spec fn holds_part(j: JsonView, part: JsonView) -> bool
    decreases j,
{
    ||| j == part
    ||| match j {
        JsonView::Array(v) => exists|i: int| 0 <= i < v.len() && holds_part(#[trigger] v[i], part),
        JsonView::Object(v) => exists|i: int|
            0 <= i < v.len() && holds_part((#[trigger] v[i]).1, part),
        _ => false,
    }
}

proof fn lemma_part_listed(j: JsonView, part: JsonView)
    requires
        holds_part(j, part),
        own_call(part).len() > 0,
    ensures
        calls_in(j).contains(own_call(part)[0]),
    decreases j,
{
    let call = own_call(part)[0];
    let own = own_call(j);
    if j == part {
        assert(calls_in(j)[0] == call);
    } else {
        match j {
            JsonView::Array(v) => {
                let i = choose|i: int| 0 <= i < v.len() && holds_part(#[trigger] v[i], part);
                lemma_part_listed(v[i], part);
                lemma_item_listed(v, i, call);
                let k = choose|k: int|
                    0 <= k < calls_in_items(v).len() && calls_in_items(v)[k] == call;
                assert(calls_in(j)[own.len() + k] == call);
            },
            JsonView::Object(v) => {
                let i = choose|i: int| 0 <= i < v.len() && holds_part((#[trigger] v[i]).1, part);
                assert(decreases_to!(v => v[i]));
                lemma_part_listed(v[i].1, part);
                lemma_entry_listed(v, i, call);
                let k = choose|k: int|
                    0 <= k < calls_in_entries(v).len() && calls_in_entries(v)[k] == call;
                assert(calls_in(j)[own.len() + k] == call);
            },
            _ => {},
        }
    }
}

proof fn lemma_item_listed(v: Seq<JsonView>, i: int, call: CallView)
    requires
        0 <= i < v.len(),
        calls_in(v[i]).contains(call),
    ensures
        calls_in_items(v).contains(call),
    decreases v.len(),
{
    let rest = calls_in_items(v.drop_last());
    if i == v.len() - 1 {
        let k = choose|k: int| 0 <= k < calls_in(v[i]).len() && calls_in(v[i])[k] == call;
        assert(calls_in_items(v)[rest.len() + k] == call);
    } else {
        lemma_item_listed(v.drop_last(), i, call);
        let k = choose|k: int| 0 <= k < rest.len() && rest[k] == call;
        assert(calls_in_items(v)[k] == call);
    }
}

proof fn lemma_entry_listed(v: Seq<(Seq<char>, JsonView)>, i: int, call: CallView)
    requires
        0 <= i < v.len(),
        calls_in(v[i].1).contains(call),
    ensures
        calls_in_entries(v).contains(call),
    decreases v.len(),
{
    let rest = calls_in_entries(v.drop_last());
    if i == v.len() - 1 {
        let k = choose|k: int| 0 <= k < calls_in(v[i].1).len() && calls_in(v[i].1)[k] == call;
        assert(calls_in_entries(v)[rest.len() + k] == call);
    } else {
        lemma_entry_listed(v.drop_last(), i, call);
        let k = choose|k: int| 0 <= k < rest.len() && rest[k] == call;
        assert(calls_in_entries(v)[k] == call);
    }
}

/// Every call whose name matches is found, at its place.
pub proof fn every_call_is_found(c: TextScanView, v: Seq<CallSite>, i: int)
    requires
        0 <= i < v.len(),
        regex_is_match(c.pattern, v[i].name@),
    ensures
        exists|k: int|
            0 <= k < calls_hits(c, v).len() && shows_call(c, #[trigger] calls_hits(c, v)[k], v[i]),
    decreases v.len(),
{
    let before = calls_hits(c, v.drop_last());
    let after = calls_hits(c, v);
    if i < v.len() - 1 {
        every_call_is_found(c, v.drop_last(), i);
        assert(v.drop_last()[i] == v[i]);
        let k = choose|k: int|
            0 <= k < before.len() && shows_call(c, #[trigger] before[k], v[i]);
        assert(after[k] == before[k]);
    } else {
        let x = c.hit(v.last().span, "functionName"@, v.last().name@)[0];
        assert(after[before.len() as int] == x);
        assert(shows_call(c, after[before.len() as int], v[i]));
    }
}

/// Whether an incident lies at a call and tells its name.
pub open spec fn shows_call(c: TextScanView, i: IncidentView, call: CallSite) -> bool {
    &&& lies_at(i, c.source, c.file_uri, call.span.start, call.span.end)
    &&& i.variables.dom().contains("functionName"@)
    &&& i.variables["functionName"@] == JsonView::Str(call.name@)
}

/// A call is named by its callee: by an identifier, or by the names of a chain of members with
/// dots between. Parentheses, assertions and optional chains around it say nothing, and a
/// member of something without a name has its own name.
pub proof fn callees_are_named(j: JsonView, object: Seq<char>)
    ensures
        node_type(j) == "Identifier"@ ==> expression_name(j) == Some(name_of(j)),
        node_type(j) == "ThisExpression"@ ==> expression_name(j) == Some("this"@),
        node_type(j) == "MemberExpression"@ && !flag_at(j, "computed"@) && node_type(
            node_at(j, "property"@),
        ) == "Identifier"@ && field(j, "object"@) is Some ==> {
            let member = name_of(node_at(j, "property"@));
            &&& expression_name(field(j, "object"@)->0) == Some(object) ==> expression_name(j)
                == Some(object + "."@ + member)
            &&& expression_name(field(j, "object"@)->0) is None ==> expression_name(j) == Some(
                member,
            )
        },
        (node_type(j) == "ParenthesizedExpression"@ || node_type(j) == "TSNonNullExpression"@
            || node_type(j) == "ChainExpression"@) && field(j, "expression"@) is Some
            ==> expression_name(j) == expression_name(field(j, "expression"@)->0),
        node_type(j) == "CallExpression"@ && expression_name(node_at(j, "callee"@)) == Some(object)
            ==> own_call(j) == seq![CallView { name: object, span: span_of(j) }],
        node_type(j) != "CallExpression"@ ==> own_call(j).len() == 0,
{
    reveal_strlit("Identifier");
    reveal_strlit("ThisExpression");
    reveal_strlit("MemberExpression");
    reveal_strlit("ParenthesizedExpression");
    reveal_strlit("TSNonNullExpression");
    reveal_strlit("ChainExpression");
    assert("Identifier"@.len() == 10 && "ThisExpression"@.len() == 14 && "MemberExpression"@.len() == 16 && "ParenthesizedExpression"@.len() == 23 && "TSNonNullExpression"@.len() == 19 && "ChainExpression"@.len() == 15);
}

} // verus!
