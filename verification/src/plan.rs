//! Preparing a plan: which rules count, where their strategies come from, and the plan
//! itself.

use crate::engine::{join_path, joined_path, plan_fixes, plan_of, sources_view, Sources};
use crate::fix::{strategies_view, FixPlan, FixStrategyView, Strategies};
use crate::js_fix::JsFixProvider;
use crate::llm::GENERIC_SYSTEM_PROMPT;
use crate::patternfly::{PatternFlyV5ToV6Context, PATTERNFLY_RULESET_NAME, SYSTEM_PROMPT};
use crate::report::{
    add_counts, count_incidents, count_violations, incident_total, violation_total,
    StrategyResolutionSource,
};
use crate::ruleset::RuleSet;
use crate::text::{
    cat4, chars_of, ends_with, held, is_white, lemma_in_pushed, lemma_texts_push, list_contains,
    opt_str, same_text, split, split_text, texts, trim, trim_start, trim_start_chars, trimmed,
};
use crate::text_map::{kept, TextMap};
use vstd::prelude::*;

verus! {

// ── Which rules ─────────────────────────────────────────────────────────

/// The parts that are not blank, without the blanks around them.
pub open spec fn nonblank(parts: Seq<Seq<char>>) -> Seq<Seq<char>>
    decreases parts.len(),
{
    if parts.len() == 0 {
        Seq::empty()
    } else if trim(parts.last()).len() == 0 {
        nonblank(parts.drop_last())
    } else {
        nonblank(parts.drop_last()).push(trim(parts.last()))
    }
}

/// The rules that a comma-separated list names.
pub open spec fn rules_named(rules: Option<Seq<char>>) -> Seq<Seq<char>> {
    match rules {
        Some(list) => nonblank(split(list, ',')),
        None => Seq::empty(),
    }
}

/// Reads a comma-separated list of rules. A list that names none is no filter.
pub fn parse_rules_filter(rules: Option<&str>) -> (r: Option<Vec<String>>)
    ensures
        match r {
            Some(v) => texts(v@) == rules_named(opt_str(rules)) && v@.len() > 0,
            None => rules_named(opt_str(rules)).len() == 0,
        },
{
    let list = match rules {
        Some(list) => list,
        None => {
            return None;
        },
    };
    let parts = split_text(list, ',');
    let ghost t = texts(parts@);
    let mut out: Vec<String> = Vec::new();
    let mut i: usize = 0;
    assert(texts(out@) =~= nonblank(t.take(0)));
    while i < parts.len()
        invariant
            i <= parts@.len(),
            t == texts(parts@),
            texts(out@) == nonblank(t.take(i as int)),
        decreases parts@.len() - i,
    {
        assert(t.take(i + 1).drop_last() =~= t.take(i as int));
        assert(t.take(i + 1).last() == parts@[i as int]@);
        let part = trimmed(parts[i].as_str());
        if part.as_str().unicode_len() > 0 {
            proof {
                lemma_texts_push(out@, part);
            }
            out.push(part);
        }
        i = i + 1;
    }
    assert(t.take(t.len() as int) =~= t);
    assert(texts(out@).len() == out@.len());
    if out.len() == 0 {
        None
    } else {
        Some(out)
    }
}

/// The names that are in a list.
pub open spec fn listed(v: Seq<Seq<char>>, allowed: Seq<Seq<char>>) -> Seq<Seq<char>>
    decreases v.len(),
{
    if v.len() == 0 {
        Seq::empty()
    } else if allowed.contains(v.last()) {
        listed(v.drop_last(), allowed).push(v.last())
    } else {
        listed(v.drop_last(), allowed)
    }
}

/// Whether `out` is a ruleset's results cut down to the given rules.
pub open spec fn cut_down(rs: RuleSet, allowed: Seq<Seq<char>>, out: RuleSet) -> bool {
    &&& out.name@ == rs.name@
    &&& out.description@ == rs.description@
    &&& texts(out.tags@) == texts(rs.tags@)
    &&& out.violations@ == kept(rs.violations@, allowed)
    &&& out.insights@ == kept(rs.insights@, allowed)
    &&& out.errors@ == kept(rs.errors@, allowed)
    &&& texts(out.unmatched@) == listed(texts(rs.unmatched@), allowed)
    &&& texts(out.skipped@) == listed(texts(rs.skipped@), allowed)
}

fn keep_listed(v: Vec<String>, allowed: &Vec<String>) -> (r: Vec<String>)
    ensures
        texts(r@) == listed(texts(v@), texts(allowed@)),
{
    let ghost t = texts(v@);
    let mut out: Vec<String> = Vec::new();
    let mut i: usize = 0;
    assert(texts(out@) =~= listed(t.take(0), texts(allowed@)));
    while i < v.len()
        invariant
            i <= v@.len(),
            t == texts(v@),
            texts(out@) == listed(t.take(i as int), texts(allowed@)),
        decreases v@.len() - i,
    {
        assert(t.take(i + 1).drop_last() =~= t.take(i as int));
        assert(t.take(i + 1).last() == v@[i as int]@);
        if list_contains(allowed, v[i].as_str()) {
            proof {
                lemma_texts_push(out@, v@[i as int]);
            }
            out.push(v[i].clone());
        }
        i = i + 1;
    }
    assert(t.take(t.len() as int) =~= t);
    out
}

fn filter_ruleset(ruleset: RuleSet, allowed: &Vec<String>) -> (r: RuleSet)
    ensures
        cut_down(ruleset, texts(allowed@), r),
{
    let mut violations = ruleset.violations;
    let mut insights = ruleset.insights;
    let mut errors = ruleset.errors;
    violations.retain(allowed);
    insights.retain(allowed);
    errors.retain(allowed);
    RuleSet {
        name: ruleset.name,
        description: ruleset.description,
        tags: ruleset.tags,
        violations,
        insights,
        errors,
        unmatched: keep_listed(ruleset.unmatched, allowed),
        skipped: keep_listed(ruleset.skipped, allowed),
    }
}

/// Cuts the output of an analysis down to the given rules; without a filter it stays as
/// it is.
pub fn filter_rulesets(output: Vec<RuleSet>, rules_filter: Option<&Vec<String>>) -> (r: Vec<RuleSet>)
    ensures
        match rules_filter {
            None => r@ == output@,
            Some(allowed) => r@.len() == output@.len() && forall|i: int|
                0 <= i < output@.len() ==> cut_down(output@[i], texts(allowed@), #[trigger] r@[i]),
        },
{
    let allowed = match rules_filter {
        Some(allowed) => allowed,
        None => {
            return output;
        },
    };
    let ghost all = output@;
    let total: usize = output.len();
    let mut rest = output;
    let mut out: Vec<RuleSet> = Vec::new();
    let mut i: usize = 0;
    while i < total
        invariant
            i <= total,
            total == all.len(),
            rest@ == all.skip(i as int),
            out@.len() == i,
            forall|k: int| 0 <= k < i ==> cut_down(all[k], texts(allowed@), #[trigger] out@[k]),
        decreases total - i,
    {
        let ruleset = rest.remove(0);
        assert(ruleset == all[i as int]);
        assert(rest@ =~= all.skip(i + 1));
        out.push(filter_ruleset(ruleset, allowed));
        i = i + 1;
    }
    out
}

proof fn lemma_listed_only(v: Seq<Seq<char>>, allowed: Seq<Seq<char>>)
    ensures
        forall|i: int|
            0 <= i < listed(v, allowed).len() ==> allowed.contains(#[trigger] listed(v, allowed)[i]),
        listed(listed(v, allowed), allowed) == listed(v, allowed),
    decreases v.len(),
{
    if v.len() > 0 {
        lemma_listed_only(v.drop_last(), allowed);
        if allowed.contains(v.last()) {
            assert(listed(v, allowed).drop_last() =~= listed(v.drop_last(), allowed));
        }
    }
}

/// After filtering, only the given rules are left.
pub proof fn filtering_keeps_only_listed_rules(rs: RuleSet, allowed: Seq<Seq<char>>, out: RuleSet)
    requires
        cut_down(rs, allowed, out),
    ensures
        forall|id: Seq<char>|
            #![trigger allowed.contains(id)]
            out.violations@.dom().contains(id) || out.insights@.dom().contains(id)
                || out.errors@.dom().contains(id) || texts(out.unmatched@).contains(id) || texts(
                out.skipped@,
            ).contains(id) ==> allowed.contains(id),
{
    lemma_listed_only(texts(rs.unmatched@), allowed);
    lemma_listed_only(texts(rs.skipped@), allowed);
}

/// Filtering once more changes nothing.
pub proof fn filtering_is_idempotent(rs: RuleSet, allowed: Seq<Seq<char>>, out: RuleSet)
    requires
        cut_down(rs, allowed, out),
    ensures
        cut_down(out, allowed, out),
{
    lemma_listed_only(texts(rs.unmatched@), allowed);
    lemma_listed_only(texts(rs.skipped@), allowed);
    assert(out.violations@ =~= kept(out.violations@, allowed));
    assert(out.insights@ =~= kept(out.insights@, allowed));
    assert(out.errors@ =~= kept(out.errors@, allowed));
}

// ── Totals ──────────────────────────────────────────────────────────────

/// How many errors the rulesets have.
pub open spec fn error_total(output: Seq<RuleSet>) -> nat
    decreases output.len(),
{
    if output.len() == 0 {
        0
    } else {
        error_total(output.drop_last()) + output.last().errors.keys().len()
    }
}

fn count_errors(output: &Vec<RuleSet>) -> (r: usize)
    ensures
        r == held(error_total(output@)),
{
    let mut total: usize = 0;
    let mut i: usize = 0;
    assert(output@.take(0).len() == 0);
    while i < output.len()
        invariant
            i <= output@.len(),
            total == held(error_total(output@.take(i as int))),
        decreases output@.len() - i,
    {
        assert(output@.take(i + 1).drop_last() =~= output@.take(i as int));
        let n: usize = output[i].errors.len();
        total = add_counts(total, n, Ghost(error_total(output@.take(i as int))), Ghost(n as nat));
        i = i + 1;
    }
    assert(output@.take(output@.len() as int) =~= output@);
    total
}

// ── Strategies ──────────────────────────────────────────────────────────

/// A file of strategies: its path, and what it holds or why it cannot be read.
#[derive(Debug)]
pub struct StrategyFile {
    pub path: String,
    pub strategies: Result<Strategies, String>,
}

pub open spec fn file_strategies(f: Option<StrategyFile>) -> Map<Seq<char>, FixStrategyView> {
    match f {
        Some(f) => match f.strategies {
            Ok(m) => strategies_view(m),
            Err(_) => Map::empty(),
        },
        None => Map::empty(),
    }
}

/// The strategies of both files; those of the external file come first where both have
/// one for a rule.
pub open spec fn merged(rules: Option<StrategyFile>, external: Option<StrategyFile>) -> Map<
    Seq<char>,
    FixStrategyView,
> {
    file_strategies(rules).union_prefer_right(file_strategies(external))
}

/// Which file the strategy of a rule comes from.
pub open spec fn origins(rules: Option<StrategyFile>, external: Option<StrategyFile>) -> Map<
    Seq<char>,
    StrategyResolutionSource,
> {
    Map::new(
        |id: Seq<char>| merged(rules, external).dom().contains(id),
        |id: Seq<char>|
            if file_strategies(external).dom().contains(id) {
                StrategyResolutionSource::ExplicitExternalStrategies
            } else {
                StrategyResolutionSource::ExplicitRulesStrategies
            },
    )
}

/// The message for a file of strategies that cannot be read.
pub open spec fn load_error(f: Option<StrategyFile>, start: Seq<char>) -> Option<Seq<char>> {
    match f {
        Some(f) => match f.strategies {
            Ok(_) => None,
            Err(m) => Some(start + f.path@ + ": "@ + m@),
        },
        None => None,
    }
}

/// The message for the first of the two files that cannot be read.
pub open spec fn strategies_error(rules: Option<StrategyFile>, external: Option<StrategyFile>) -> Option<
    Seq<char>,
> {
    match load_error(rules, "failed to load rule-adjacent strategies from "@) {
        Some(m) => Some(m),
        None => load_error(external, "failed to load external strategies from "@),
    }
}

/// Notes one origin for all rules of some strategies.
fn note_origins(
    all: &mut TextMap<StrategyResolutionSource>,
    strategies: &Strategies,
    source: StrategyResolutionSource,
)
    ensures
        forall|id: Seq<char>| #[trigger]
            final(all)@.dom().contains(id) <==> old(all)@.dom().contains(id)
                || strategies@.dom().contains(id),
        forall|id: Seq<char>|
            final(all)@.dom().contains(id) ==> #[trigger] final(all)@[id] == if strategies@.dom().contains(id) {
                source
            } else {
                old(all)@[id]
            },
{
    let ghost before = all@;
    let ghost ids = strategies.keys();
    let n: usize = strategies.len();
    let mut i: usize = 0;
    while i < n
        invariant
            i <= n,
            n == ids.len(),
            ids == strategies.keys(),
            forall|id: Seq<char>| #[trigger]
                all@.dom().contains(id) <==> before.dom().contains(id) || ids.take(i as int).contains(id),
            forall|id: Seq<char>|
                all@.dom().contains(id) ==> #[trigger] all@[id] == if ids.take(i as int).contains(id) {
                    source
                } else {
                    before[id]
                },
        decreases n - i,
    {
        let ghost prior = all@;
        let key = strategies.key_at(i).clone();
        let ghost k = key@;
        proof {
            assert forall|id: Seq<char>| #[trigger]
                ids.take(i + 1).contains(id) <==> ids.take(i as int).contains(id) || id == k by {
                let longer = ids.take(i + 1);
                let shorter = ids.take(i as int);
                assert(longer =~= shorter.push(k));
                if shorter.contains(id) {
                    let j = choose|j: int| 0 <= j < shorter.len() && shorter[j] == id;
                    assert(longer[j] == id);
                }
                assert(longer[i as int] == k);
            }
        }
        all.insert(key, source);
        assert(all@ == prior.insert(k, source));
        i = i + 1;
    }
    assert(ids.take(n as int) =~= ids);
}

/// Merges the strategies of both files, and notes where each comes from.
pub fn merge_strategies(rules: Option<StrategyFile>, external: Option<StrategyFile>) -> (r: Result<
    (Strategies, TextMap<StrategyResolutionSource>),
    String,
>)
    ensures
        match r {
            Ok((strategies, from)) => strategies_error(rules, external) is None && strategies_view(
                strategies,
            ) == merged(rules, external) && from@ == origins(rules, external),
            Err(m) => strategies_error(rules, external) == Some(m@),
        },
{
    let ghost first = file_strategies(rules);
    let ghost second = file_strategies(external);
    let mut all: Strategies = TextMap::new();
    let mut from: TextMap<StrategyResolutionSource> = TextMap::new();
    assert(strategies_view(all) =~= Map::<Seq<char>, FixStrategyView>::empty());
    if let Some(f) = rules {
        match f.strategies {
            Ok(m) => {
                note_origins(&mut from, &m, StrategyResolutionSource::ExplicitRulesStrategies);
                all.absorb(m);
            },
            Err(m) => {
                return Err(
                    cat4("failed to load rule-adjacent strategies from ", f.path.as_str(), ": ", m.as_str()),
                );
            },
        }
    }
    assert(strategies_view(all) =~= first);
    assert(from@.dom() =~= first.dom());
    if let Some(f) = external {
        match f.strategies {
            Ok(m) => {
                note_origins(&mut from, &m, StrategyResolutionSource::ExplicitExternalStrategies);
                all.absorb(m);
            },
            Err(m) => {
                return Err(
                    cat4("failed to load external strategies from ", f.path.as_str(), ": ", m.as_str()),
                );
            },
        }
    }
    assert(strategies_view(all) =~= first.union_prefer_right(second));
    assert(from@ =~= origins(rules, external));
    Ok((all, from))
}

/// A strategy of the external file is used in place of any other for its rule, and is
/// reported as such.
pub proof fn external_strategies_come_first(
    rules: Option<StrategyFile>,
    external: Option<StrategyFile>,
    id: Seq<char>,
)
    requires
        file_strategies(external).dom().contains(id),
    ensures
        merged(rules, external)[id] == file_strategies(external)[id],
        origins(rules, external)[id] == StrategyResolutionSource::ExplicitExternalStrategies,
{
}

/// Every strategy has an origin, and every origin belongs to a strategy.
pub proof fn origins_are_complete(rules: Option<StrategyFile>, external: Option<StrategyFile>)
    ensures
        origins(rules, external).dom() == merged(rules, external).dom(),
{
    assert(origins(rules, external).dom() =~= merged(rules, external).dom());
}

// ── Input and output ────────────────────────────────────────────────────

/// Whether the output of an analysis is JSON rather than YAML: its first character that
/// is not blank is a bracket.
pub open spec fn is_json(content: Seq<char>) -> bool {
    trim_start(content).len() > 0 && (trim_start(content)[0] == '[' || trim_start(content)[0] == '{')
}

pub fn is_json_text(content: &str) -> (r: bool)
    ensures
        r == is_json(content@),
{
    let chars = chars_of(content);
    let rest = trim_start_chars(chars.as_slice());
    rest.len() > 0 && (rest[0] == '[' || rest[0] == '{')
}

/// Where the report is written: a relative path lies under the current directory.
pub fn resolve_output_path(path: &str, current_dir: &str) -> (r: String)
    ensures
        r@ == joined_path(current_dir@, path@),
{
    join_path(current_dir, path)
}

/// What language models are told first for fixes of a ruleset.
pub open spec fn prompt_for(ruleset_name: Seq<char>) -> Seq<char> {
    if ruleset_name == PATTERNFLY_RULESET_NAME@ {
        SYSTEM_PROMPT@
    } else {
        GENERIC_SYSTEM_PROMPT@
    }
}

pub fn system_prompt_for(ruleset_name: &str) -> (r: String)
    ensures
        r@ == prompt_for(ruleset_name@),
{
    let context = PatternFlyV5ToV6Context::new();
    if same_text(ruleset_name, context.ruleset_name()) {
        context.llm_system_prompt()
    } else {
        GENERIC_SYSTEM_PROMPT.to_owned()
    }
}

// ── The plan ────────────────────────────────────────────────────────────

/// All that a plan command works on.
#[derive(Debug)]
pub struct PreparedPlanContext {
    pub project_root: String,
    pub analysis: Vec<RuleSet>,
    pub merged_strategies: Strategies,
    pub strategy_origins: TextMap<StrategyResolutionSource>,
    pub selected_ruleset_name: String,
    pub plan: FixPlan,
    pub total_violations: usize,
    pub total_incidents: usize,
    pub total_errors: usize,
    pub rules_filter: Option<Vec<String>>,
}

/// Whether `out` is what is left of the output of an analysis for a list of rules.
pub open spec fn selected(output: Seq<RuleSet>, rules: Option<Seq<char>>, out: Seq<RuleSet>) -> bool {
    if rules_named(rules).len() == 0 {
        out == output
    } else {
        out.len() == output.len() && forall|i: int|
            0 <= i < output.len() ==> cut_down(output[i], rules_named(rules), #[trigger] out[i])
    }
}

/// The name of the first ruleset; empty where there is none.
pub open spec fn first_name(output: Seq<RuleSet>) -> Seq<char> {
    if output.len() > 0 {
        output[0].name@
    } else {
        Seq::empty()
    }
}

/// Prepares a plan from the output of an analysis. `rules` lists the rules that count,
/// `sources` holds the contents of the files that incidents lie in. A file of strategies
/// that cannot be read is an error.
pub fn prepare_plan_context(
    project_root: &str,
    output: Vec<RuleSet>,
    rules: Option<&str>,
    strategies: Option<StrategyFile>,
    rules_strategies: Option<StrategyFile>,
    lang: &JsFixProvider,
    sources: &Sources,
) -> (r: Result<PreparedPlanContext, String>)
    ensures
        match r {
            Err(m) => strategies_error(rules_strategies, strategies) == Some(m@),
            Ok(c) => {
                &&& strategies_error(rules_strategies, strategies) is None
                &&& c.project_root@ == project_root@
                &&& selected(output@, opt_str(rules), c.analysis@)
                &&& strategies_view(c.merged_strategies) == merged(rules_strategies, strategies)
                &&& c.strategy_origins@ == origins(rules_strategies, strategies)
                &&& c.selected_ruleset_name@ == first_name(c.analysis@)
                &&& c.plan@ == plan_of(
                    c.analysis@,
                    project_root@,
                    strategies_view(c.merged_strategies),
                    sources_view(*sources),
                )
                &&& c.total_violations == held(violation_total(c.analysis@))
                &&& c.total_incidents == held(incident_total(c.analysis@))
                &&& c.total_errors == held(error_total(c.analysis@))
                &&& match c.rules_filter {
                    Some(v) => texts(v@) == rules_named(opt_str(rules)) && v@.len() > 0,
                    None => rules_named(opt_str(rules)).len() == 0,
                }
            },
        },
{
    let rules_filter = parse_rules_filter(rules);
    let analysis = filter_rulesets(output, rules_filter.as_ref());
    assert(rules_filter matches Some(v) ==> texts(v@).len() == v@.len());
    let (merged_strategies, strategy_origins) = match merge_strategies(rules_strategies, strategies) {
        Ok(pair) => pair,
        Err(m) => {
            return Err(m);
        },
    };
    let plan = plan_fixes(&analysis, project_root, &merged_strategies, lang, sources);
    let selected_ruleset_name = if analysis.len() > 0 {
        analysis[0].name.clone()
    } else {
        String::new()
    };
    assert(selected_ruleset_name@ =~= first_name(analysis@));
    let total_violations: usize = count_violations(&analysis);
    let total_incidents: usize = count_incidents(&analysis);
    let total_errors: usize = count_errors(&analysis);
    Ok(
        PreparedPlanContext {
            project_root: project_root.to_owned(),
            analysis,
            merged_strategies,
            strategy_origins,
            selected_ruleset_name,
            plan,
            total_violations,
            total_incidents,
            total_errors,
            rules_filter,
        },
    )
}

/// A list names what stands between its commas, without the blanks around and without what
/// is blank.
pub proof fn rules_stand_between_commas(list: Seq<char>, x: Seq<char>)
    ensures
        rules_named(Some(list)).contains(x) <==> x.len() > 0 && exists|i: int|
            0 <= i < split(list, ',').len() && trim(#[trigger] split(list, ',')[i]) == x,
{
    lemma_nonblank(split(list, ','), x);
}

proof fn lemma_nonblank(v: Seq<Seq<char>>, x: Seq<char>)
    ensures
        nonblank(v).contains(x) <==> x.len() > 0 && exists|i: int|
            0 <= i < v.len() && trim(#[trigger] v[i]) == x,
    decreases v.len(),
{
    if v.len() > 0 {
        let rest = v.drop_last();
        lemma_nonblank(rest, x);
        lemma_in_pushed(nonblank(rest), trim(v.last()), x);
        assert forall|i: int| 0 <= i < rest.len() implies rest[i] == #[trigger] v[i] by {}
        assert(v[v.len() - 1] == v.last());
        if nonblank(rest).contains(x) {
            let i = choose|i: int| 0 <= i < rest.len() && trim(#[trigger] rest[i]) == x;
            assert(v[i] == rest[i]);
        }
    }
}

/// Filtering keeps the results of the given rules as they are.
pub proof fn filtering_keeps_listed_rules(
    rs: RuleSet,
    allowed: Seq<Seq<char>>,
    out: RuleSet,
    id: Seq<char>,
)
    requires
        cut_down(rs, allowed, out),
        allowed.contains(id),
    ensures
        rs.violations@.dom().contains(id) ==> out.violations@.dom().contains(id)
            && out.violations@[id] == rs.violations@[id],
        rs.insights@.dom().contains(id) ==> out.insights@.dom().contains(id) && out.insights@[id]
            == rs.insights@[id],
        rs.errors@.dom().contains(id) ==> out.errors@.dom().contains(id) && out.errors@[id]
            == rs.errors@[id],
        texts(rs.unmatched@).contains(id) ==> texts(out.unmatched@).contains(id),
        texts(rs.skipped@).contains(id) ==> texts(out.skipped@).contains(id),
        texts(out.unmatched@) == texts(rs.unmatched@).filter(|x: Seq<char>| allowed.contains(x)),
        texts(out.skipped@) == texts(rs.skipped@).filter(|x: Seq<char>| allowed.contains(x)),
{
    lemma_listed_filter(texts(rs.unmatched@), allowed, id);
    lemma_listed_filter(texts(rs.skipped@), allowed, id);
}

proof fn lemma_listed_filter(v: Seq<Seq<char>>, allowed: Seq<Seq<char>>, x: Seq<char>)
    ensures
        listed(v, allowed) == v.filter(|y: Seq<char>| allowed.contains(y)),
        v.contains(x) && allowed.contains(x) ==> listed(v, allowed).contains(x),
    decreases v.len(),
{
    reveal(Seq::filter);
    if v.len() > 0 {
        lemma_listed_filter(v.drop_last(), allowed, x);
        lemma_in_pushed(v.drop_last(), v.last(), x);
        assert(v.drop_last().push(v.last()) =~= v);
        lemma_in_pushed(listed(v.drop_last(), allowed), v.last(), x);
    }
}

/// A strategy that only the file beside the rules has is used, and is reported as such.
pub proof fn other_strategies_are_kept(
    rules: Option<StrategyFile>,
    external: Option<StrategyFile>,
    id: Seq<char>,
)
    requires
        !file_strategies(external).dom().contains(id),
    ensures
        merged(rules, external).dom().contains(id) <==> file_strategies(rules).dom().contains(id),
        file_strategies(rules).dom().contains(id) ==> merged(rules, external)[id]
            == file_strategies(rules)[id] && origins(rules, external)[id]
            == StrategyResolutionSource::ExplicitRulesStrategies,
{
}

/// A file of strategies that cannot be read is named with the reason; that beside the rules
/// comes before the external one.
pub proof fn unreadable_strategies_are_told(
    rules: Option<StrategyFile>,
    external: Option<StrategyFile>,
)
    ensures
        strategies_error(rules, external) is None <==> (rules matches Some(f) ==> f.strategies is Ok)
            && (external matches Some(f) ==> f.strategies is Ok),
        rules matches Some(f) ==> (f.strategies matches Err(why) ==> (
        strategies_error(rules, external) matches Some(m) && ends_with(
            m,
            f.path@ + ": "@ + why@,
        ))),
        rules is None || rules->0.strategies is Ok ==> (external matches Some(f) ==> (
        f.strategies matches Err(why) ==> (strategies_error(rules, external) matches Some(m)
            && ends_with(m, f.path@ + ": "@ + why@)))),
{
    let a = "failed to load rule-adjacent strategies from "@;
    let b = "failed to load external strategies from "@;
    if let Some(f) = rules {
        if let Err(why) = f.strategies {
            lemma_message_end(a, f.path@, why@);
        }
    }
    if let Some(f) = external {
        if let Err(why) = f.strategies {
            lemma_message_end(b, f.path@, why@);
        }
    }
}

proof fn lemma_message_end(start: Seq<char>, path: Seq<char>, why: Seq<char>)
    ensures
        ends_with(start + path + ": "@ + why, path + ": "@ + why),
{
    let m = start + path + ": "@ + why;
    let end = path + ": "@ + why;
    assert(m.subrange(m.len() - end.len(), m.len() as int) =~= end);
}

/// The output of an analysis is taken for JSON by its first character that is not blank.
pub proof fn the_first_character_tells_json(blanks: Seq<char>, first: char, rest: Seq<char>)
    requires
        forall|i: int| 0 <= i < blanks.len() ==> is_white(#[trigger] blanks[i]),
        !is_white(first),
    ensures
        is_json(blanks + seq![first] + rest) <==> first == '[' || first == '{',
        !is_json(blanks),
    decreases blanks.len(),
{
    let s = blanks + seq![first] + rest;
    if blanks.len() > 0 {
        assert(s.skip(1) =~= blanks.skip(1) + seq![first] + rest);
        assert(s[0] == blanks[0]);
        the_first_character_tells_json(blanks.skip(1), first, rest);
    } else {
        assert(s[0] == first);
    }
}

/// The errors of several rulesets are counted together.
pub proof fn errors_add_up(a: Seq<RuleSet>, b: Seq<RuleSet>)
    ensures
        error_total(a + b) == error_total(a) + error_total(b),
        a.len() == 1 ==> error_total(a) == a[0].errors.keys().len(),
    decreases b.len(),
{
    if b.len() == 0 {
        assert(a + b =~= a);
    } else {
        errors_add_up(a, b.drop_last());
        assert((a + b).drop_last() =~= a + b.drop_last());
        assert((a + b).last() == b.last());
    }
    if a.len() == 1 {
        assert(error_total(a.drop_last()) == 0);
    }
}

/// Where no rule is named, the output of an analysis counts as it is; else every ruleset keeps
/// its place and its name.
pub proof fn rulesets_keep_their_places(
    output: Seq<RuleSet>,
    rules: Option<Seq<char>>,
    out: Seq<RuleSet>,
)
    requires
        selected(output, rules, out),
    ensures
        rules is None ==> out == output,
        out.len() == output.len(),
        forall|i: int| 0 <= i < out.len() ==> (#[trigger] out[i]).name@ == output[i].name@,
        output.len() > 0 ==> first_name(out) == output[0].name@,
        output.len() == 0 ==> first_name(out).len() == 0,
{
}

/// Fixes of the PatternFly ruleset have a prompt of their own, and all others the general one.
pub proof fn rulesets_have_their_prompts(name: Seq<char>)
    ensures
        name == PATTERNFLY_RULESET_NAME@ ==> prompt_for(name) == SYSTEM_PROMPT@,
        name != PATTERNFLY_RULESET_NAME@ ==> prompt_for(name) == GENERIC_SYSTEM_PROMPT@,
{
}

} // verus!
