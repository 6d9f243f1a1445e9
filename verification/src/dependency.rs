//! Dependencies in package manifests: loose version numbers, version bounds, and the
//! incidents that a dependency condition finds in a `package.json`.

use crate::capabilities::DependencyCondition;
use crate::incident::{
    bare_incident, code_snip_of, extract_code_snip, incident_views, lemma_incident_views_push,
    Incident, IncidentView, Location, Position, MAX_LINE, SNIP_CONTEXT,
};
use crate::json::{
    as_entries, as_items, as_text, entry_views, field, json_denoted, json_outcome, json_result,
    opt_json, parse_json, read_json, views, Json, JsonView,
};
use crate::pattern::{compile, regex_is_match, regex_rejection};
use crate::text::{
    chars_of, contains, contains_iff_occurs, decimal, lemma_in_either, lemma_in_pushed, is_digit,
    is_white, lemma_decimal_digits, lemma_split_one, lemma_texts_push, occurs_at, occurs_at_chars,
    opt_text, parse_number, parse_number_chars, parse_of_decimal, same_text, split, split_at_from,
    split_chars, starts_with, strip_prefix, strip_prefix_text, texts, trim, trim_chars, trimmed,
};
use vstd::prelude::*;

verus! {

// ── Versions ────────────────────────────────────────────────────────────

/// A version number: major, minor and patch.
pub type Version = (u64, u64, u64);

/// Versions are ordered by major, then minor, then patch number.
pub open spec fn version_at_most(a: Version, b: Version) -> bool {
    a.0 < b.0 || (a.0 == b.0 && (a.1 < b.1 || (a.1 == b.1 && a.2 <= b.2)))
}

pub fn is_at_most(a: Version, b: Version) -> (r: bool)
    ensures
        r == version_at_most(a, b),
{
    a.0 < b.0 || (a.0 == b.0 && (a.1 < b.1 || (a.1 == b.1 && a.2 <= b.2)))
}

/// Versions are in a total order.
pub proof fn versions_are_ordered(a: Version, b: Version, c: Version)
    ensures
        version_at_most(a, a),
        version_at_most(a, b) || version_at_most(b, a),
        version_at_most(a, b) && version_at_most(b, a) ==> a == b,
        version_at_most(a, b) && version_at_most(b, c) ==> version_at_most(a, c),
{
}

/// The first number in which two versions differ decides which is the higher one.
pub proof fn the_first_difference_decides(a: Version, b: Version)
    ensures
        a.0 < b.0 ==> version_at_most(a, b) && !version_at_most(b, a),
        a.0 == b.0 && a.1 < b.1 ==> version_at_most(a, b) && !version_at_most(b, a),
        a.0 == b.0 && a.1 == b.1 ==> (version_at_most(a, b) <==> a.2 <= b.2),
{
}

/// A version without the operator of a range before it, and without blanks around.
pub open spec fn without_operator(v: Seq<char>) -> Seq<char> {
    match strip_prefix(v, ">="@) {
        Some(rest) => trim(rest),
        None => match strip_prefix(v, "<="@) {
            Some(rest) => trim(rest),
            None => match strip_prefix(v, "^"@) {
                Some(rest) => trim(rest),
                None => match strip_prefix(v, "~"@) {
                    Some(rest) => trim(rest),
                    None => match strip_prefix(v, ">"@) {
                        Some(rest) => trim(rest),
                        None => match strip_prefix(v, "<"@) {
                            Some(rest) => trim(rest),
                            None => match strip_prefix(v, "="@) {
                                Some(rest) => trim(rest),
                                None => v,
                            },
                        },
                    },
                },
            },
        },
    }
}

/// Drops the operator of a version range: `^`, `~`, `>=`, `<=`, `>`, `<` or `=`.
pub fn drop_operator(v: &str) -> (r: String)
    ensures
        r@ == without_operator(v@),
{
    if let Some(rest) = strip_prefix_text(v, ">=") {
        trimmed(rest.as_str())
    } else if let Some(rest) = strip_prefix_text(v, "<=") {
        trimmed(rest.as_str())
    } else if let Some(rest) = strip_prefix_text(v, "^") {
        trimmed(rest.as_str())
    } else if let Some(rest) = strip_prefix_text(v, "~") {
        trimmed(rest.as_str())
    } else if let Some(rest) = strip_prefix_text(v, ">") {
        trimmed(rest.as_str())
    } else if let Some(rest) = strip_prefix_text(v, "<") {
        trimmed(rest.as_str())
    } else if let Some(rest) = strip_prefix_text(v, "=") {
        trimmed(rest.as_str())
    } else {
        v.to_owned()
    }
}

/// The version that an npm range begins with.
pub fn strip_npm_prefix(version: &str) -> (r: String)
    ensures
        r@ == without_operator(trim(version@)),
{
    let v = trimmed(version);
    drop_operator(v.as_str())
}

/// The number of a part of a version; a part that is missing or no number is zero.
pub open spec fn part_number(parts: Seq<Seq<char>>, i: int) -> u64 {
    if i < parts.len() {
        match parse_number(parts[i], u64::MAX as nat) {
            Some(n) => n as u64,
            None => 0,
        }
    } else {
        0
    }
}

/// The version that a text denotes: what stands before the first hyphen and plus
/// sign, split at dots. It has one exactly where the first part is a number.
pub open spec fn loose_version(s: Seq<char>) -> Option<Version> {
    let core = split(split(trim(s), '-')[0], '+')[0];
    let parts = split(core, '.');
    match parse_number(parts[0], u64::MAX as nat) {
        Some(major) => Some((major as u64, part_number(parts, 1), part_number(parts, 2))),
        None => None,
    }
}

proof fn lemma_split_not_empty(s: Seq<char>, sep: char, start: int, i: int)
    requires
        0 <= i,
    ensures
        crate::text::split_at_from(s, sep, start, i).len() > 0,
    decreases s.len() - i,
{
    if i < s.len() && s[i] != sep {
        lemma_split_not_empty(s, sep, start, i + 1);
    }
}

/// The piece before the first separator.
pub(crate) fn first_piece(s: &[char], sep: char) -> (r: Vec<char>)
    ensures
        r@ == split(s@, sep)[0],
{
    let pieces = split_chars(s, sep);
    proof {
        lemma_split_not_empty(s@, sep, 0, 0);
        assert(texts(pieces@)[0] == pieces@[0]@);
    }
    chars_of(pieces[0].as_str())
}

fn number_of_part(parts: &Vec<String>, i: usize) -> (r: u64)
    ensures
        r == part_number(texts(parts@), i as int),
{
    if i < parts.len() {
        let c = chars_of(parts[i].as_str());
        match parse_number_chars(c.as_slice(), u64::MAX) {
            Some(n) => n,
            None => 0,
        }
    } else {
        0
    }
}

/// Reads a version loosely: `5.4.2`, `6.0.0-alpha.1`, `5`.
pub fn parse_loose_semver(s: &str) -> (r: Option<Version>)
    ensures
        r == loose_version(s@),
{
    let c = chars_of(s);
    let release = first_piece(trim_chars(c.as_slice()), '-');
    let core = first_piece(release.as_slice(), '+');
    let parts = split_chars(core.as_slice(), '.');
    proof {
        lemma_split_not_empty(core@, '.', 0, 0);
        assert(texts(parts@)[0] == parts@[0]@);
    }
    let major = chars_of(parts[0].as_str());
    match parse_number_chars(major.as_slice(), u64::MAX) {
        Some(n) => Some((n, number_of_part(&parts, 1), number_of_part(&parts, 2))),
        None => None,
    }
}

/// Whether a version keeps to a bound; a bound that cannot be read is none.
pub open spec fn within_bounds(
    version: Seq<char>,
    upper: Option<Seq<char>>,
    lower: Option<Seq<char>>,
) -> bool {
    match loose_version(without_operator(trim(version))) {
        None => true,
        Some(v) => {
            &&& match upper {
                Some(u) => match loose_version(without_operator(trim(u))) {
                    Some(b) => version_at_most(v, b),
                    None => true,
                },
                None => true,
            }
            &&& match lower {
                Some(l) => match loose_version(without_operator(trim(l))) {
                    Some(b) => version_at_most(b, v),
                    None => true,
                },
                None => true,
            }
        },
    }
}

/// Whether a version lies within the bounds of a condition. A version that cannot be
/// read lies within any bounds.
pub fn version_in_bounds(version_str: &str, condition: &DependencyCondition) -> (r: bool)
    ensures
        r == within_bounds(version_str@, opt_text(condition.upperbound), opt_text(condition.lowerbound)),
{
    let base = strip_npm_prefix(version_str);
    let parsed = match parse_loose_semver(base.as_str()) {
        Some(v) => v,
        None => {
            return true;
        },
    };
    if let Some(upper) = &condition.upperbound {
        let text = strip_npm_prefix(upper.as_str());
        if let Some(bound) = parse_loose_semver(text.as_str()) {
            if !is_at_most(parsed, bound) {
                return false;
            }
        }
    }
    if let Some(lower) = &condition.lowerbound {
        let text = strip_npm_prefix(lower.as_str());
        if let Some(bound) = parse_loose_semver(text.as_str()) {
            if !is_at_most(bound, parsed) {
                return false;
            }
        }
    }
    true
}

/// A version as it is written: three numbers with dots between, and possibly more behind
/// a hyphen or a plus sign.
pub open spec fn written(v: Version, more: Seq<char>) -> Seq<char> {
    decimal(v.0 as nat) + "."@ + decimal(v.1 as nat) + "."@ + decimal(v.2 as nat) + more
}

/// Whether a text can stand behind the numbers of a version.
pub open spec fn is_suffix(more: Seq<char>) -> bool {
    more.len() == 0 || ((more[0] == '-' || more[0] == '+') && !is_white(more.last()))
}

/// The operators of ranges.
pub open spec fn is_operator(op: Seq<char>) -> bool {
    op == ""@ || op == "^"@ || op == "~"@ || op == ">="@ || op == "<="@ || op == ">"@ || op == "<"@
        || op == "="@
}

proof fn lemma_split_at(s: Seq<char>, sep: char, start: int, i: int, n: int)
    requires
        0 <= start <= i <= n < s.len(),
        s[n] == sep,
        forall|k: int| i <= k < n ==> s[k] != sep,
    ensures
        split_at_from(s, sep, start, i) == seq![s.subrange(start, n)] + split_at_from(
            s,
            sep,
            n + 1,
            n + 1,
        ),
    decreases n - i,
{
    if i < n {
        lemma_split_at(s, sep, start, i + 1, n);
    }
}

/// What stands before the first place of a separator, or the whole text without one.
pub(crate) proof fn lemma_first_piece(a: Seq<char>, more: Seq<char>, sep: char)
    requires
        forall|k: int| 0 <= k < a.len() ==> a[k] != sep,
        more.len() == 0 || more[0] == sep,
    ensures
        split(a + more, sep)[0] == a,
{
    let s = a + more;
    if more.len() == 0 {
        assert(s =~= a);
        lemma_split_one(a, sep, 0, 0);
        assert(a.subrange(0, a.len() as int) =~= a);
    } else {
        lemma_split_at(s, sep, 0, 0, a.len() as int);
        assert(s.subrange(0, a.len() as int) =~= a);
    }
}

proof fn lemma_written_core(v: Version)
    ensures
        ({
            let core = written(v, Seq::empty());
            &&& core.len() > 0
            &&& forall|k: int|
                0 <= k < core.len() ==> is_digit(#[trigger] core[k]) || core[k] == '.'
            &&& is_digit(core[0])
            &&& split(core, '.') == seq![
                decimal(v.0 as nat),
                decimal(v.1 as nat),
                decimal(v.2 as nat),
            ]
        }),
{
    let a = decimal(v.0 as nat);
    let b = decimal(v.1 as nat);
    let d = decimal(v.2 as nat);
    reveal_strlit(".");
    lemma_decimal_digits(v.0 as nat);
    lemma_decimal_digits(v.1 as nat);
    lemma_decimal_digits(v.2 as nat);
    let core = written(v, Seq::empty());
    let n = a.len() as int;
    let m = n + 1 + b.len();
    assert forall|k: int| 0 <= k < core.len() implies is_digit(#[trigger] core[k]) || core[k]
        == '.' by {
        if k < n {
            assert(core[k] == a[k]);
        } else if n < k < m {
            assert(core[k] == b[k - n - 1]);
        } else if k > m {
            assert(core[k] == d[k - m - 1]);
        }
    }
    assert(core[0] == a[0]);
    assert(core[n] == '.');
    assert(core[m] == '.');
    assert(forall|k: int| 0 <= k < n ==> core[k] == a[k]);
    assert(forall|k: int| n < k < m ==> core[k] == b[k - n - 1]);
    assert(forall|k: int| m < k < core.len() ==> core[k] == d[k - m - 1]);
    assert forall|k: int| 0 <= k < n implies core[k] != '.' by {
        assert(is_digit(a[k]));
    }
    assert forall|k: int| n < k < m implies core[k] != '.' by {
        assert(is_digit(b[k - n - 1]));
    }
    assert forall|k: int| m < k < core.len() implies core[k] != '.' by {
        assert(is_digit(d[k - m - 1]));
    }
    lemma_split_at(core, '.', 0, 0, n);
    lemma_split_at(core, '.', n + 1, n + 1, m);
    lemma_split_one(core, '.', m + 1, m + 1);
    assert(core.subrange(0, n) =~= a);
    assert(core.subrange(n + 1, m) =~= b);
    assert(core.subrange(m + 1, core.len() as int) =~= d);
    assert(split(core, '.') =~= seq![a, b, d]);
}

pub(crate) proof fn lemma_trim_kept(s: Seq<char>)
    requires
        s.len() > 0,
        !is_white(s[0]),
        !is_white(s.last()),
    ensures
        trim(s) == s,
{
}

/// The numbers of a version are read as they are written, with or without what follows
/// them.
pub proof fn versions_are_read_as_written(v: Version, more: Seq<char>)
    requires
        is_suffix(more),
    ensures
        loose_version(written(v, more)) == Some(v),
{
    let core = written(v, Seq::empty());
    let s = written(v, more);
    assert(s =~= core + more);
    lemma_written_core(v);
    assert forall|k: int| 0 <= k < core.len() implies core[k] != '-' && core[k] != '+'
        && !is_white(core[k]) by {
        assert(is_digit(core[k]) || core[k] == '.');
    }
    assert(s[0] == core[0]);
    if more.len() == 0 {
        assert(s.last() == core[core.len() - 1]);
    } else {
        assert(s.last() == more.last());
    }
    lemma_trim_kept(s);
    if more.len() > 0 && more[0] == '-' {
        lemma_first_piece(core, more, '-');
        lemma_first_piece(core, Seq::empty(), '+');
        assert(core + Seq::<char>::empty() =~= core);
    } else if more.len() > 0 {
        lemma_before_plus(core, more);
    } else {
        lemma_first_piece(core, Seq::empty(), '-');
        lemma_first_piece(core, Seq::empty(), '+');
        assert(core + Seq::<char>::empty() =~= core);
    }
    parse_of_decimal(v.0 as nat, u64::MAX as nat);
    parse_of_decimal(v.1 as nat, u64::MAX as nat);
    parse_of_decimal(v.2 as nat, u64::MAX as nat);
}

/// What stands before a plus sign is found whether or not a hyphen follows.
proof fn lemma_before_plus(core: Seq<char>, more: Seq<char>)
    requires
        more.len() > 0,
        more[0] == '+',
        forall|k: int| 0 <= k < core.len() ==> core[k] != '-' && core[k] != '+',
    ensures
        split(split(core + more, '-')[0], '+')[0] == core,
{
    let s = core + more;
    if exists|k: int| 0 <= k < more.len() && more[k] == '-' {
        let n = first_place(more, '-', 0);
        lemma_first_place(more, '-', 0);
        assert(forall|k: int| 0 <= k < core.len() ==> s[k] == core[k]);
        assert(forall|k: int| 0 <= k < more.len() ==> s[core.len() + k] == more[k]);
        assert forall|k: int| 0 <= k < core.len() + n implies s[k] != '-' by {
            if k >= core.len() {
                assert(s[k] == more[k - core.len()]);
            }
        }
        lemma_split_at(s, '-', 0, 0, core.len() + n);
        assert(s.subrange(0, core.len() + n) =~= core + more.take(n));
        lemma_first_piece(core, more.take(n), '+');
    } else {
        assert forall|k: int| 0 <= k < s.len() implies s[k] != '-' by {
            if k >= core.len() {
                assert(s[k] == more[k - core.len()]);
            }
        }
        lemma_split_one(s, '-', 0, 0);
        assert(s.subrange(0, s.len() as int) =~= s);
        lemma_first_piece(core, more, '+');
    }
}

spec fn first_place(s: Seq<char>, c: char, i: int) -> int
    decreases s.len() - i,
{
    if i < 0 || i >= s.len() || s[i] == c {
        i
    } else {
        first_place(s, c, i + 1)
    }
}

proof fn lemma_first_place(s: Seq<char>, c: char, i: int)
    requires
        0 <= i,
        exists|k: int| i <= k < s.len() && s[k] == c,
    ensures
        i <= first_place(s, c, i) < s.len(),
        s[first_place(s, c, i)] == c,
        forall|k: int| i <= k < first_place(s, c, i) ==> s[k] != c,
    decreases s.len() - i,
{
    if s[i] != c {
        lemma_first_place(s, c, i + 1);
    }
}

/// The operator of a range says nothing of its number: a range is compared by the version
/// that follows the operator.
pub proof fn operators_are_dropped(op: Seq<char>, v: Version, more: Seq<char>)
    requires
        is_operator(op),
        is_suffix(more),
    ensures
        loose_version(without_operator(trim(op + written(v, more)))) == Some(v),
{
    let w = written(v, more);
    let s = op + w;
    let core = written(v, Seq::empty());
    assert(w =~= core + more);
    lemma_written_core(v);
    versions_are_read_as_written(v, more);
    assert(w[0] == core[0]);
    assert(is_digit(w[0]));
    if more.len() == 0 {
        assert(w.last() == core[core.len() - 1]);
        assert(is_digit(core[core.len() - 1]) || core[core.len() - 1] == '.');
    } else {
        assert(w.last() == more.last());
    }
    reveal_strlit("");
    reveal_strlit("^");
    reveal_strlit("~");
    reveal_strlit(">=");
    reveal_strlit("<=");
    reveal_strlit(">");
    reveal_strlit("<");
    reveal_strlit("=");
    assert(s.last() == w.last());
    assert(s[0] == if op.len() == 0 {
        w[0]
    } else {
        op[0]
    });
    lemma_trim_kept(s);
    lemma_trim_kept(w);
    assert(s.skip(op.len() as int) =~= w);
    lemma_prefixes(op, w);
}

pub(crate) proof fn lemma_range(op: Seq<char>, v: Version, more: Seq<char>)
    requires
        is_operator(op),
        is_suffix(more),
    ensures
        ({
            let s = op + written(v, more);
            &&& s.len() > 0
            &&& !is_white(s[0]) && !is_white(s.last()) && s[0] != 'n'
            &&& loose_version(without_operator(s)) == Some(v)
        }),
{
    let w = written(v, more);
    let s = op + w;
    let core = written(v, Seq::empty());
    operators_are_dropped(op, v, more);
    assert(w =~= core + more);
    lemma_written_core(v);
    assert(w[0] == core[0]);
    assert(is_digit(w[0]));
    if more.len() == 0 {
        assert(w.last() == core[core.len() - 1]);
        assert(is_digit(core[core.len() - 1]) || core[core.len() - 1] == '.');
    } else {
        assert(w.last() == more.last());
    }
    reveal_strlit("");
    reveal_strlit("^");
    reveal_strlit("~");
    reveal_strlit(">=");
    reveal_strlit("<=");
    reveal_strlit(">");
    reveal_strlit("<");
    reveal_strlit("=");
    assert(s.last() == w.last());
    assert(s[0] == if op.len() == 0 {
        w[0]
    } else {
        op[0]
    });
    lemma_trim_kept(s);
}

/// An operator is the prefix of a range that begins with it, and no other one is.
proof fn lemma_prefixes(op: Seq<char>, w: Seq<char>)
    requires
        is_operator(op),
        w.len() > 0,
        is_digit(w[0]),
        trim(w) == w,
    ensures
        without_operator(op + w) == w,
{
    let s = op + w;
    reveal_strlit("");
    reveal_strlit("^");
    reveal_strlit("~");
    reveal_strlit(">=");
    reveal_strlit("<=");
    reveal_strlit(">");
    reveal_strlit("<");
    reveal_strlit("=");
    assert(s.skip(op.len() as int) =~= w);
    assert(s.subrange(0, op.len() as int) =~= op);
    assert(starts_with(s, op));
    assert forall|p: Seq<char>|
        is_operator(p) && p.len() > 0 && #[trigger] starts_with(s, p) implies p[0] == s[0] && (
    p.len() == 2 ==> s.len() >= 2 && p[1] == s[1]) by {
        assert(s.subrange(0, p.len() as int)[0] == p[0]);
        if p.len() == 2 {
            assert(s.subrange(0, p.len() as int)[1] == p[1]);
        }
    }
    assert(is_operator("^"@) && is_operator("~"@) && is_operator(">="@) && is_operator("<="@)
        && is_operator(">"@) && is_operator("<"@) && is_operator("="@));
    if op.len() == 0 {
        assert(s =~= w);
    } else if op.len() == 1 {
        assert(s[0] == op[0] && s[1] == w[0]);
    } else {
        assert(s[0] == op[0] && s[1] == op[1]);
    }
}

/// A version lies within bounds where it is no higher than the upper one and no lower
/// than the lower one; both belong to the range.
pub proof fn bounds_are_inclusive(
    op: Seq<char>,
    v: Version,
    more: Seq<char>,
    upper: Version,
    lower: Version,
)
    requires
        is_operator(op),
        is_suffix(more),
    ensures
        ({
            let u = written(upper, Seq::empty());
            let l = written(lower, Seq::empty());
            let range = op + written(v, more);
            &&& within_bounds(range, Some(u), None) <==> v.0 < upper.0 || (v.0 == upper.0 && (v.1
                < upper.1 || (v.1 == upper.1 && v.2 <= upper.2)))
            &&& within_bounds(range, None, Some(l)) <==> lower.0 < v.0 || (lower.0 == v.0 && (
            lower.1 < v.1 || (lower.1 == v.1 && lower.2 <= v.2)))
            &&& within_bounds(range, Some(u), Some(l)) <==> within_bounds(range, Some(u), None)
                && within_bounds(range, None, Some(l))
        }),
{
    operators_are_dropped(op, v, more);
    reveal_strlit("");
    assert(is_operator(""@));
    operators_are_dropped(""@, upper, Seq::empty());
    operators_are_dropped(""@, lower, Seq::empty());
    assert(""@ + written(upper, Seq::empty()) =~= written(upper, Seq::empty()));
    assert(""@ + written(lower, Seq::empty()) =~= written(lower, Seq::empty()));
}

/// Without bounds every version matches.
pub proof fn no_bounds_match_all(version: Seq<char>)
    ensures
        within_bounds(version, None, None),
{
}

/// A wider upper bound matches whatever a narrower one matches.
pub proof fn wider_bounds_match_more(
    version: Seq<char>,
    upper: Seq<char>,
    wider: Seq<char>,
    lower: Option<Seq<char>>,
)
    requires
        within_bounds(version, Some(upper), lower),
        loose_version(without_operator(trim(upper))) matches Some(u) && loose_version(
            without_operator(trim(wider)),
        ) matches Some(w) && version_at_most(u, w),
    ensures
        within_bounds(version, Some(wider), lower),
{
}

// ── Manifests ───────────────────────────────────────────────────────────

/// A dependency as a manifest declares it.
#[derive(Debug)]
pub struct PackageDependency {
    pub name: String,
    pub version: String,
    /// The section: `dependencies`, `devDependencies` or `peerDependencies`.
    pub dep_type: String,
    pub line_number: u32,
}

/// The texts among some values.
pub open spec fn text_items(v: Seq<JsonView>) -> Seq<Seq<char>>
    decreases v.len(),
{
    if v.len() == 0 {
        Seq::empty()
    } else {
        match as_text(v.last()) {
            Some(t) => text_items(v.drop_last()).push(t),
            None => text_items(v.drop_last()),
        }
    }
}

/// The workspace patterns of a manifest: `workspaces` is their list, or holds it
/// under `packages`.
pub open spec fn workspace_patterns(manifest: Option<JsonView>) -> Seq<Seq<char>> {
    match manifest {
        Some(j) => match field(j, "workspaces"@) {
            Some(w) => match as_items(w) {
                Some(items) => text_items(items),
                None => match field(w, "packages"@) {
                    Some(p) => match as_items(p) {
                        Some(items) => text_items(items),
                        None => Seq::empty(),
                    },
                    None => Seq::empty(),
                },
            },
            None => Seq::empty(),
        },
        None => Seq::empty(),
    }
}

fn list_texts(items: &Vec<Json>) -> (r: Vec<String>)
    ensures
        texts(r@) == text_items(views(items@)),
{
    let ghost v = views(items@);
    let mut out: Vec<String> = Vec::new();
    let mut i: usize = 0;
    assert(texts(out@) =~= text_items(v.take(0)));
    while i < items.len()
        invariant
            i <= items@.len(),
            v == views(items@),
            texts(out@) == text_items(v.take(i as int)),
        decreases items@.len() - i,
    {
        assert(v.take(i + 1).drop_last() =~= v.take(i as int));
        assert(v.take(i + 1).last() == items@[i as int]@);
        if let Some(t) = items[i].as_str() {
            let s = t.to_owned();
            proof {
                lemma_texts_push(out@, s);
            }
            out.push(s);
        }
        i = i + 1;
    }
    assert(v.take(v.len() as int) =~= v);
    out
}

/// The workspace patterns of a manifest that was read as JSON.
pub fn workspaces_of(manifest: &Option<Json>) -> (r: Vec<String>)
    ensures
        texts(r@) == workspace_patterns(opt_json(*manifest)),
{
    let none: Vec<String> = Vec::new();
    assert(texts(none@) =~= Seq::<Seq<char>>::empty());
    let json = match manifest {
        Some(j) => j,
        None => {
            return none;
        },
    };
    let workspaces = match json.get("workspaces") {
        Some(w) => w,
        None => {
            return none;
        },
    };
    if let Some(items) = workspaces.as_array() {
        return list_texts(items);
    }
    match workspaces.get("packages") {
        Some(p) => match p.as_array() {
            Some(items) => list_texts(items),
            None => none,
        },
        None => none,
    }
}

/// The workspace patterns in the text of a manifest.
pub fn workspace_globs(content: &str) -> (r: Vec<String>)
    ensures
        texts(r@) == workspace_patterns(json_denoted(content@)),
{
    let manifest = parse_json(content);
    workspaces_of(&manifest)
}

/// The manifests to look at: those of workspaces, then that of the root.
pub open spec fn manifest_order(root_manifest: Seq<char>, found: Seq<Seq<char>>) -> Seq<Seq<char>> {
    others_than(root_manifest, found).push(root_manifest)
}

pub open spec fn others_than(root_manifest: Seq<char>, found: Seq<Seq<char>>) -> Seq<Seq<char>>
    decreases found.len(),
{
    if found.len() == 0 {
        Seq::empty()
    } else if found.last() == root_manifest {
        others_than(root_manifest, found.drop_last())
    } else {
        others_than(root_manifest, found.drop_last()).push(found.last())
    }
}

/// The manifests to look at, given those that the workspace patterns match, in order.
/// That of the root comes last, so that dependencies of a workspace are found first.
pub fn package_manifests(root_manifest: &str, found: &Vec<String>) -> (r: Vec<String>)
    ensures
        texts(r@) == manifest_order(root_manifest@, texts(found@)),
{
    let ghost t = texts(found@);
    let mut out: Vec<String> = Vec::new();
    let mut i: usize = 0;
    assert(texts(out@) =~= others_than(root_manifest@, t.take(0)));
    while i < found.len()
        invariant
            i <= found@.len(),
            t == texts(found@),
            texts(out@) == others_than(root_manifest@, t.take(i as int)),
        decreases found@.len() - i,
    {
        assert(t.take(i + 1).drop_last() =~= t.take(i as int));
        assert(t.take(i + 1).last() == found@[i as int]@);
        if !same_text(found[i].as_str(), root_manifest) {
            let s = found[i].clone();
            proof {
                lemma_texts_push(out@, s);
            }
            out.push(s);
        }
        i = i + 1;
    }
    assert(t.take(t.len() as int) =~= t);
    let last = root_manifest.to_owned();
    proof {
        lemma_texts_push(out@, last);
    }
    out.push(last);
    out
}

// ── Keys ────────────────────────────────────────────────────────────────

/// Whether, behind blanks from position `i` on, a colon stands in a text.
pub open spec fn colon_follows(s: Seq<char>, i: int) -> bool
    decreases s.len() - i,
{
    if i < 0 || i >= s.len() {
        false
    } else if s[i] == ' ' || s[i] == '\t' || s[i] == '\n' || s[i] == '\r' {
        colon_follows(s, i + 1)
    } else {
        s[i] == ':'
    }
}

/// Whether a key in quotes stands at position `i` of a JSON text: its first quote is
/// not part of another text, and a colon follows.
pub open spec fn is_key_at(s: Seq<char>, quoted: Seq<char>, i: int) -> bool {
    occurs_at(s, quoted, i) && !(i > 0 && s[i - 1] == '\\') && colon_follows(
        s,
        i + quoted.len(),
    )
}

/// The first position from `i` on at which a key in quotes stands.
pub open spec fn key_from(s: Seq<char>, quoted: Seq<char>, i: int) -> Option<int>
    decreases s.len() - i,
{
    if i < 0 || i >= s.len() {
        None
    } else if is_key_at(s, quoted, i) {
        Some(i)
    } else {
        key_from(s, quoted, i + 1)
    }
}

/// How many line feeds a text holds.
pub open spec fn line_feeds(s: Seq<char>) -> nat
    decreases s.len(),
{
    if s.len() == 0 {
        0
    } else {
        line_feeds(s.drop_last()) + if s.last() == '\n' {
            1nat
        } else {
            0nat
        }
    }
}

/// The number of the line that begins behind some line feeds. Lines beyond the last one
/// that an incident carries count as that one.
pub open spec fn line_behind(feeds: nat) -> u32 {
    if feeds < MAX_LINE {
        (feeds + 1) as u32
    } else {
        MAX_LINE
    }
}

/// The line of a key in a manifest: that of the first place where it stands as a key;
/// 1 if it does not.
pub open spec fn key_line(content: Seq<char>, key: Seq<char>) -> u32 {
    match key_from(content, "\""@ + key + "\""@, 0) {
        Some(p) => line_behind(line_feeds(content.take(p))),
        None => 1,
    }
}

/// The line of a key is that of its first place as a key: the same text as a value,
/// or inside another text, does not count.
pub proof fn keys_are_told_from_values(content: Seq<char>, key: Seq<char>, p: int)
    requires
        0 <= p < content.len(),
        is_key_at(content, "\""@ + key + "\""@, p),
        forall|i: int| 0 <= i < p ==> !is_key_at(content, "\""@ + key + "\""@, i),
    ensures
        key_line(content, key) == line_behind(line_feeds(content.take(p))),
{
    lemma_key_from(content, "\""@ + key + "\""@, 0, p);
}

proof fn lemma_key_from(s: Seq<char>, quoted: Seq<char>, i: int, p: int)
    requires
        0 <= i <= p < s.len(),
        is_key_at(s, quoted, p),
        forall|k: int| i <= k < p ==> !is_key_at(s, quoted, k),
    ensures
        key_from(s, quoted, i) == Some(p),
    decreases p - i,
{
    if i < p {
        lemma_key_from(s, quoted, i + 1, p);
    }
}

fn has_colon(s: &[char], from: usize) -> (r: bool)
    ensures
        r == colon_follows(s@, from as int),
{
    let mut i: usize = from;
    while i < s.len()
        invariant
            from <= i,
            colon_follows(s@, from as int) == colon_follows(s@, i as int),
        decreases s@.len() - i,
    {
        let c: char = s[i];
        if c != ' ' && c != '\t' && c != '\n' && c != '\r' {
            return c == ':';
        }
        i = i + 1;
    }
    false
}

/// The number of the line on which a JSON key first stands; 1 if it does not.
pub fn find_key_line(content: &str, key: &str) -> (r: u32)
    ensures
        r == key_line(content@, key@),
        1 <= r <= MAX_LINE,
{
    let quoted = crate::text::cat3("\"", key, "\"");
    let q = chars_of(quoted.as_str());
    let s = chars_of(content);
    let mut feeds: usize = 0;
    let mut i: usize = 0;
    while i < s.len()
        invariant
            i <= s@.len(),
            s@ == content@,
            q@ == "\""@ + key@ + "\""@,
            feeds <= i,
            feeds as nat == line_feeds(s@.take(i as int)),
            key_from(s@, q@, 0) == key_from(s@, q@, i as int),
        decreases s@.len() - i,
    {
        if occurs_at_chars(s.as_slice(), q.as_slice(), i) && !(i > 0 && s[i - 1] == '\\')
            && has_colon(s.as_slice(), i + q.len()) {
            return if feeds < MAX_LINE as usize {
                (feeds + 1) as u32
            } else {
                MAX_LINE
            };
        }
        assert(s@.take(i + 1).drop_last() =~= s@.take(i as int));
        if s[i] == '\n' {
            feeds = feeds + 1;
        }
        i = i + 1;
    }
    1
}

/// Why a manifest cannot be checked.
#[derive(Debug)]
pub enum DependencyError {
    /// The manifest cannot be read from disk, with the reason.
    Unreadable(String),
    /// The manifest is not JSON, with the reason.
    InvalidManifest(String),
    /// The expression for names is rejected, with the reason.
    InvalidExpression(String),
}

pub ghost enum DependencyErrorView {
    Unreadable(Seq<char>),
    InvalidManifest(Seq<char>),
    InvalidExpression(Seq<char>),
}

impl DependencyError {
    pub open spec fn view(&self) -> DependencyErrorView {
        match self {
            DependencyError::Unreadable(m) => DependencyErrorView::Unreadable(m@),
            DependencyError::InvalidManifest(m) => DependencyErrorView::InvalidManifest(m@),
            DependencyError::InvalidExpression(m) => DependencyErrorView::InvalidExpression(m@),
        }
    }
}

/// Whether a condition asks for a dependency of this name: by its exact name, else
/// by an expression, else any.
pub open spec fn name_asked(condition: DependencyCondition, name: Seq<char>) -> bool {
    match (opt_text(condition.name), opt_text(condition.nameregex)) {
        (Some(exact), _) => name == exact,
        (None, Some(expression)) => regex_is_match(expression, name),
        (None, None) => true,
    }
}

/// Why the condition cannot be checked against any name.
pub open spec fn name_error(condition: DependencyCondition) -> Option<Seq<char>> {
    match (opt_text(condition.name), opt_text(condition.nameregex)) {
        (None, Some(expression)) => regex_rejection(expression),
        _ => None,
    }
}

/// The incident for a dependency in a section of a manifest.
pub open spec fn dependency_incident(
    file_uri: Seq<char>,
    content: Seq<char>,
    section: Seq<char>,
    name: Seq<char>,
    version: Seq<char>,
) -> IncidentView {
    let line = key_line(content, name);
    let place = Position { line: (line - 1) as u32, character: 0 };
    IncidentView {
        code_snip: Some(code_snip_of(content, line, SNIP_CONTEXT)),
        ..bare_incident(file_uri, line, Location { start: place, end: place }).with_text(
            "dependencyName"@,
            name,
        ).with_text("dependencyVersion"@, version).with_text("dependencyType"@, section)
    }
}

/// The version under a dependency; empty where it is no text.
pub open spec fn version_text(j: JsonView) -> Seq<char> {
    match as_text(j) {
        Some(t) => t,
        None => Seq::empty(),
    }
}

/// The incidents of a section of a manifest: its dependencies with a name that is
/// asked for and a version within bounds, in order.
pub open spec fn section_incidents(
    file_uri: Seq<char>,
    content: Seq<char>,
    section: Seq<char>,
    deps: Seq<(Seq<char>, JsonView)>,
    condition: DependencyCondition,
) -> Seq<IncidentView>
    decreases deps.len(),
{
    if deps.len() == 0 {
        Seq::empty()
    } else {
        let before = section_incidents(file_uri, content, section, deps.drop_last(), condition);
        let name = deps.last().0;
        let version = version_text(deps.last().1);
        if name_asked(condition, name) && within_bounds(
            version,
            opt_text(condition.upperbound),
            opt_text(condition.lowerbound),
        ) {
            before.push(dependency_incident(file_uri, content, section, name, version))
        } else {
            before
        }
    }
}

/// The dependencies of a section of a manifest.
pub open spec fn section_of(manifest: JsonView, section: Seq<char>) -> Seq<(Seq<char>, JsonView)> {
    match field(manifest, section) {
        Some(s) => match as_entries(s) {
            Some(entries) => entries,
            None => Seq::empty(),
        },
        None => Seq::empty(),
    }
}

/// The incidents of a manifest: those of its dependencies, then of its development
/// and of its peer dependencies.
pub open spec fn manifest_incidents(
    file_uri: Seq<char>,
    content: Seq<char>,
    manifest: JsonView,
    condition: DependencyCondition,
) -> Seq<IncidentView> {
    section_incidents(
        file_uri,
        content,
        "dependencies"@,
        section_of(manifest, "dependencies"@),
        condition,
    ) + section_incidents(
        file_uri,
        content,
        "devDependencies"@,
        section_of(manifest, "devDependencies"@),
        condition,
    ) + section_incidents(
        file_uri,
        content,
        "peerDependencies"@,
        section_of(manifest, "peerDependencies"@),
        condition,
    )
}

/// Whether a manifest has any dependency.
pub open spec fn has_dependencies(manifest: JsonView) -> bool {
    section_of(manifest, "dependencies"@).len() > 0 || section_of(manifest, "devDependencies"@).len() > 0
        || section_of(manifest, "peerDependencies"@).len() > 0
}

/// The outcome of checking a manifest: its incidents; an error where it is not JSON,
/// or where it has a dependency whose name the condition cannot be checked against.
pub open spec fn checked(
    file_uri: Seq<char>,
    content: Seq<char>,
    manifest: Result<JsonView, Seq<char>>,
    condition: DependencyCondition,
) -> Result<Seq<IncidentView>, DependencyErrorView> {
    match manifest {
        Err(m) => Err(DependencyErrorView::InvalidManifest(m)),
        Ok(j) => match name_error(condition) {
            Some(m) => if has_dependencies(j) {
                Err(DependencyErrorView::InvalidExpression(m))
            } else {
                Ok(Seq::empty())
            },
            None => Ok(manifest_incidents(file_uri, content, j, condition)),
        },
    }
}

pub open spec fn incidents_result(r: Result<Vec<Incident>, DependencyError>) -> Result<
    Seq<IncidentView>,
    DependencyErrorView,
> {
    match r {
        Ok(v) => Ok(incident_views(v@)),
        Err(e) => Err(e@),
    }
}

fn is_name_asked(condition: &DependencyCondition, name: &str) -> (r: Result<bool, DependencyError>)
    ensures
        match r {
            Ok(b) => name_error(*condition) is None && b == name_asked(*condition, name@),
            Err(e) => name_error(*condition) is Some && e@ == DependencyErrorView::InvalidExpression(
                name_error(*condition)->0,
            ),
        },
{
    match &condition.name {
        Some(exact) => Ok(same_text(name, exact.as_str())),
        None => match &condition.nameregex {
            Some(expression) => match compile(expression.as_str()) {
                Ok(re) => Ok(re.is_match(name)),
                Err(m) => Err(DependencyError::InvalidExpression(m)),
            },
            None => Ok(true),
        },
    }
}

fn make_dependency_incident(
    file_uri: &str,
    content: &str,
    section: &str,
    name: &str,
    version: &str,
) -> (r: Incident)
    ensures
        r@ == dependency_incident(file_uri@, content@, section@, name@, version@),
{
    let line: u32 = find_key_line(content, name);
    let start = Position { line: line - 1, character: 0 };
    let end = Position { line: line - 1, character: 0 };
    let mut incident = Incident::new(file_uri.to_owned(), line, Location { start, end });
    incident.set_text("dependencyName", name);
    incident.set_text("dependencyVersion", version);
    incident.set_text("dependencyType", section);
    incident.with_code_snip(extract_code_snip(content, line, SNIP_CONTEXT))
}

fn check_section(
    file_uri: &str,
    content: &str,
    section: &str,
    manifest: &Json,
    condition: &DependencyCondition,
    out: &mut Vec<Incident>,
) -> (r: Result<(), DependencyError>)
    ensures
        match r {
            Ok(_) => (name_error(*condition) is None || section_of(manifest@, section@).len() == 0)
                && incident_views(final(out)@) == incident_views(old(out)@) + section_incidents(
                file_uri@,
                content@,
                section@,
                section_of(manifest@, section@),
                *condition,
            ),
            Err(e) => section_of(manifest@, section@).len() > 0 && name_error(*condition) is Some && e@
                == DependencyErrorView::InvalidExpression(name_error(*condition)->0),
        },
{
    let ghost before = incident_views(out@);
    let deps = match manifest.get(section) {
        Some(s) => match s.as_object() {
            Some(entries) => entries,
            None => {
                assert(incident_views(out@) =~= before + Seq::<IncidentView>::empty());
                return Ok(());
            },
        },
        None => {
            assert(incident_views(out@) =~= before + Seq::<IncidentView>::empty());
            return Ok(());
        },
    };
    let ghost v = entry_views(deps@);
    assert(v == section_of(manifest@, section@));
    let mut i: usize = 0;
    assert(incident_views(out@) =~= before + section_incidents(
        file_uri@,
        content@,
        section@,
        v.take(0),
        *condition,
    ));
    while i < deps.len()
        invariant
            i <= deps@.len(),
            v == entry_views(deps@),
            v == section_of(manifest@, section@),
            i > 0 ==> name_error(*condition) is None,
            incident_views(out@) == before + section_incidents(
                file_uri@,
                content@,
                section@,
                v.take(i as int),
                *condition,
            ),
        decreases deps@.len() - i,
    {
        assert(v.take(i + 1).drop_last() =~= v.take(i as int));
        assert(v.take(i + 1).last() == v[i as int]);
        let name = deps[i].0.as_str();
        let nothing = String::new();
        assert(nothing@ =~= Seq::<char>::empty());
        let version = match deps[i].1.as_str() {
            Some(t) => t,
            None => nothing.as_str(),
        };
        match is_name_asked(condition, name) {
            Ok(asked) => {
                if asked && version_in_bounds(version, condition) {
                    let incident = make_dependency_incident(file_uri, content, section, name, version);
                    let ghost prior = incident_views(out@);
                    proof {
                        lemma_incident_views_push(out@, incident);
                    }
                    out.push(incident);
                    assert(incident_views(out@) =~= before + section_incidents(
                        file_uri@,
                        content@,
                        section@,
                        v.take(i + 1),
                        *condition,
                    ));
                }
            },
            Err(e) => {
                return Err(e);
            },
        }
        i = i + 1;
    }
    assert(v.take(v.len() as int) =~= v);
    Ok(())
}

/// Checks a manifest, given what reading it as JSON came to.
pub fn check_manifest(
    pkg_path: &str,
    content: &str,
    manifest: &Result<Json, String>,
    condition: &DependencyCondition,
) -> (r: Result<Vec<Incident>, DependencyError>)
    ensures
        incidents_result(r) == checked(
            "file://"@ + pkg_path@,
            content@,
            json_result(*manifest),
            *condition,
        ),
{
    let json = match manifest {
        Ok(j) => j,
        Err(m) => {
            return Err(DependencyError::InvalidManifest(m.clone()));
        },
    };
    let uri = crate::text::cat2("file://", pkg_path);
    let mut out: Vec<Incident> = Vec::new();
    assert(incident_views(out@) =~= Seq::<IncidentView>::empty());
    if let Err(e) = check_section(uri.as_str(), content, "dependencies", json, condition, &mut out) {
        return Err(e);
    }
    if let Err(e) = check_section(uri.as_str(), content, "devDependencies", json, condition, &mut out) {
        return Err(e);
    }
    if let Err(e) = check_section(uri.as_str(), content, "peerDependencies", json, condition, &mut out) {
        return Err(e);
    }
    assert(incident_views(out@) =~= manifest_incidents(uri@, content@, json@, *condition));
    proof {
        if name_error(*condition) is Some {
            assert(incident_views(out@) =~= Seq::<IncidentView>::empty());
        }
    }
    Ok(out)
}

/// The incidents that a dependency condition finds in the text of a manifest.
pub fn check_single_package_json(
    pkg_path: &str,
    content: &str,
    condition: &DependencyCondition,
) -> (r: Result<Vec<Incident>, DependencyError>)
    ensures
        incidents_result(r) == checked(
            "file://"@ + pkg_path@,
            content@,
            json_outcome(content@),
            *condition,
        ),
{
    let manifest = read_json(content);
    check_manifest(pkg_path, content, &manifest, condition)
}

/// A manifest: its text, or why it could not be read.
#[derive(Debug)]
pub struct ManifestText {
    pub path: String,
    pub content: Result<String, String>,
}

/// The outcome of checking a manifest, where it could be read.
pub open spec fn manifest_checked(m: ManifestText, condition: DependencyCondition) -> Result<
    Seq<IncidentView>,
    DependencyErrorView,
> {
    match m.content {
        Ok(text) => checked("file://"@ + m.path@, text@, json_outcome(text@), condition),
        Err(why) => Err(DependencyErrorView::Unreadable(why@)),
    }
}

/// The incidents of some manifests, one after the other; the first error ends it.
pub open spec fn all_checked(v: Seq<ManifestText>, condition: DependencyCondition) -> Result<
    Seq<IncidentView>,
    DependencyErrorView,
>
    decreases v.len(),
{
    if v.len() == 0 {
        Ok(Seq::empty())
    } else {
        match all_checked(v.drop_last(), condition) {
            Err(e) => Err(e),
            Ok(before) => match manifest_checked(v.last(), condition) {
                Err(e) => Err(e),
                Ok(found) => Ok(before + found),
            },
        }
    }
}

proof fn lemma_all_checked_error(v: Seq<ManifestText>, condition: DependencyCondition, i: int)
    requires
        0 <= i <= v.len(),
        all_checked(v.take(i), condition) is Err,
    ensures
        all_checked(v, condition) == all_checked(v.take(i), condition),
    decreases v.len() - i,
{
    if i < v.len() {
        assert(v.take(i + 1).drop_last() =~= v.take(i));
        lemma_all_checked_error(v, condition, i + 1);
    } else {
        assert(v.take(i) =~= v);
    }
}

/// The incidents that a dependency condition finds in the manifests of a project.
pub fn check_dependencies(
    manifests: &Vec<ManifestText>,
    condition: &DependencyCondition,
) -> (r: Result<Vec<Incident>, DependencyError>)
    ensures
        incidents_result(r) == all_checked(manifests@, *condition),
{
    let mut out: Vec<Incident> = Vec::new();
    let mut i: usize = 0;
    assert(incident_views(out@) =~= Seq::<IncidentView>::empty());
    while i < manifests.len()
        invariant
            i <= manifests@.len(),
            all_checked(manifests@.take(i as int), *condition) == Ok::<
                Seq<IncidentView>,
                DependencyErrorView,
            >(incident_views(out@)),
        decreases manifests@.len() - i,
    {
        assert(manifests@.take(i + 1).drop_last() =~= manifests@.take(i as int));
        let outcome = match &manifests[i].content {
            Ok(text) => check_single_package_json(
                manifests[i].path.as_str(),
                text.as_str(),
                condition,
            ),
            Err(why) => Err(DependencyError::Unreadable(why.clone())),
        };
        match outcome {
            Ok(found) => {
                crate::incident::append_incidents(&mut out, found);
            },
            Err(e) => {
                proof {
                    lemma_all_checked_error(manifests@, *condition, i + 1);
                }
                return Err(e);
            },
        }
        i = i + 1;
    }
    assert(manifests@.take(manifests@.len() as int) =~= manifests@);
    Ok(out)
}

// ── Laws of manifests ───────────────────────────────────────────────────

/// Whether a condition is met by a dependency: by its exact name where that is given, else by
/// the expression for names where there is one, and by its version.
pub open spec fn meets(condition: DependencyCondition, name: Seq<char>, version: Seq<char>) -> bool {
    &&& condition.name matches Some(n) ==> n@ == name
    &&& condition.name is None ==> (condition.nameregex matches Some(e) ==> regex_is_match(
        e@,
        name,
    ))
    &&& within_bounds(version, opt_text(condition.upperbound), opt_text(condition.lowerbound))
}

/// The sections of a manifest that hold dependencies.
pub open spec fn is_section(section: Seq<char>) -> bool {
    section == "dependencies"@ || section == "devDependencies"@ || section == "peerDependencies"@
}

/// The text under a dependency, empty where something else stands there.
pub open spec fn version_in(value: JsonView) -> Seq<char> {
    match value {
        JsonView::Str(t) => t,
        _ => Seq::empty(),
    }
}

/// Whether an incident tells a dependency: its name, its version and the section, on the line
/// of its key.
pub open spec fn tells_dependency(
    i: IncidentView,
    file_uri: Seq<char>,
    content: Seq<char>,
    section: Seq<char>,
    name: Seq<char>,
    version: Seq<char>,
) -> bool {
    &&& i.file_uri == file_uri
    &&& i.line_number == Some(key_line(content, name))
    &&& i.code_location matches Some(place) && place.start.line + 1 == key_line(content, name)
        && place.start.character == 0 && place.end == place.start
    &&& i.variables == map![
        "dependencyName"@ => JsonView::Str(name),
        "dependencyVersion"@ => JsonView::Str(version),
        "dependencyType"@ => JsonView::Str(section),
    ]
}

proof fn lemma_section_found(
    file_uri: Seq<char>,
    content: Seq<char>,
    section: Seq<char>,
    deps: Seq<(Seq<char>, JsonView)>,
    condition: DependencyCondition,
    x: IncidentView,
)
    ensures
        section_incidents(file_uri, content, section, deps, condition).contains(x) <==> exists|k: int|
            0 <= k < deps.len() && meets(
                condition,
                (#[trigger] deps[k]).0,
                version_in(deps[k].1),
            ) && x == dependency_incident(
                file_uri,
                content,
                section,
                deps[k].0,
                version_in(deps[k].1),
            ),
    decreases deps.len(),
{
    if deps.len() > 0 {
        let rest = deps.drop_last();
        let before = section_incidents(file_uri, content, section, rest, condition);
        let (name, value) = deps.last();
        let own = dependency_incident(file_uri, content, section, name, version_in(value));
        lemma_section_found(file_uri, content, section, rest, condition, x);
        assert(version_text(value) == version_in(value));
        assert(meets(condition, name, version_in(value)) <==> name_asked(condition, name)
            && within_bounds(
            version_in(value),
            opt_text(condition.upperbound),
            opt_text(condition.lowerbound),
        ));
        lemma_in_pushed(before, own, x);
        assert forall|k: int| 0 <= k < rest.len() implies rest[k] == #[trigger] deps[k] by {}
        assert(deps[deps.len() - 1] == deps.last());
        if before.contains(x) {
            let k = choose|k: int|
                0 <= k < rest.len() && meets(
                    condition,
                    (#[trigger] rest[k]).0,
                    version_in(rest[k].1),
                ) && x == dependency_incident(
                    file_uri,
                    content,
                    section,
                    rest[k].0,
                    version_in(rest[k].1),
                );
            assert(deps[k] == rest[k]);
        }
    }
}

/// The incidents of a manifest are those of the dependencies that meet the condition, in any
/// of its sections, and of each there is one that tells it.
pub proof fn every_dependency_is_found(
    file_uri: Seq<char>,
    content: Seq<char>,
    manifest: JsonView,
    condition: DependencyCondition,
    section: Seq<char>,
    k: int,
)
    requires
        is_section(section),
        0 <= k < section_of(manifest, section).len(),
        meets(
            condition,
            section_of(manifest, section)[k].0,
            version_in(section_of(manifest, section)[k].1),
        ),
    ensures
        exists|n: int|
            0 <= n < manifest_incidents(file_uri, content, manifest, condition).len()
                && tells_dependency(
                #[trigger] manifest_incidents(file_uri, content, manifest, condition)[n],
                file_uri,
                content,
                section,
                section_of(manifest, section)[k].0,
                version_in(section_of(manifest, section)[k].1),
            ),
{
    let all = manifest_incidents(file_uri, content, manifest, condition);
    let deps = section_of(manifest, section);
    let name = deps[k].0;
    let version = version_in(deps[k].1);
    let x = dependency_incident(file_uri, content, section, name, version);
    lemma_section_found(file_uri, content, section, deps, condition, x);
    lemma_three_sections(file_uri, content, manifest, condition, x);
    let n = choose|n: int| 0 <= n < all.len() && all[n] == x;
    reveal_strlit("dependencyName");
    reveal_strlit("dependencyVersion");
    reveal_strlit("dependencyType");
    assert("dependencyName"@.len() == 14 && "dependencyVersion"@.len() == 17
        && "dependencyType"@.len() == 14);
    assert("dependencyName"@[10] == 'N' && "dependencyType"@[10] == 'T');
    assert(x.variables =~= map![
        "dependencyName"@ => JsonView::Str(name),
        "dependencyVersion"@ => JsonView::Str(version),
        "dependencyType"@ => JsonView::Str(section),
    ]);
    assert(tells_dependency(all[n], file_uri, content, section, name, version));
}

proof fn lemma_three_sections(
    file_uri: Seq<char>,
    content: Seq<char>,
    manifest: JsonView,
    condition: DependencyCondition,
    x: IncidentView,
)
    ensures
        manifest_incidents(file_uri, content, manifest, condition).contains(x) <==> (
        section_incidents(
            file_uri,
            content,
            "dependencies"@,
            section_of(manifest, "dependencies"@),
            condition,
        ).contains(x) || section_incidents(
            file_uri,
            content,
            "devDependencies"@,
            section_of(manifest, "devDependencies"@),
            condition,
        ).contains(x) || section_incidents(
            file_uri,
            content,
            "peerDependencies"@,
            section_of(manifest, "peerDependencies"@),
            condition,
        ).contains(x)),
{
    let a = section_incidents(
        file_uri,
        content,
        "dependencies"@,
        section_of(manifest, "dependencies"@),
        condition,
    );
    let b = section_incidents(
        file_uri,
        content,
        "devDependencies"@,
        section_of(manifest, "devDependencies"@),
        condition,
    );
    let c = section_incidents(
        file_uri,
        content,
        "peerDependencies"@,
        section_of(manifest, "peerDependencies"@),
        condition,
    );
    lemma_in_either(a, b, x);
    lemma_in_either(a + b, c, x);
}

/// An incident of a manifest is that of a dependency that meets the condition.
pub proof fn incidents_are_of_dependencies(
    file_uri: Seq<char>,
    content: Seq<char>,
    manifest: JsonView,
    condition: DependencyCondition,
    x: IncidentView,
)
    requires
        manifest_incidents(file_uri, content, manifest, condition).contains(x),
    ensures
        exists|section: Seq<char>, k: int|
            is_section(section) && 0 <= k < section_of(manifest, section).len() && meets(
                condition,
                (#[trigger] section_of(manifest, section)[k]).0,
                version_in(section_of(manifest, section)[k].1),
            ),
{
    lemma_three_sections(file_uri, content, manifest, condition, x);
    let section = if section_incidents(
        file_uri,
        content,
        "dependencies"@,
        section_of(manifest, "dependencies"@),
        condition,
    ).contains(x) {
        "dependencies"@
    } else if section_incidents(
        file_uri,
        content,
        "devDependencies"@,
        section_of(manifest, "devDependencies"@),
        condition,
    ).contains(x) {
        "devDependencies"@
    } else {
        "peerDependencies"@
    };
    let deps = section_of(manifest, section);
    lemma_section_found(file_uri, content, section, deps, condition, x);
    let k = choose|k: int|
        0 <= k < deps.len() && meets(condition, (#[trigger] deps[k]).0, version_in(deps[k].1)) && x
            == dependency_incident(
            file_uri,
            content,
            section,
            deps[k].0,
            version_in(deps[k].1),
        );
    assert(meets(
        condition,
        section_of(manifest, section)[k].0,
        version_in(section_of(manifest, section)[k].1),
    ));
}

/// Every manifest is checked: what is found in each is found.
pub proof fn every_manifest_is_checked(
    v: Seq<ManifestText>,
    condition: DependencyCondition,
    i: int,
    x: IncidentView,
)
    requires
        all_checked(v, condition) is Ok,
        0 <= i < v.len(),
    ensures
        manifest_checked(v[i], condition) is Ok,
        manifest_checked(v[i], condition)->Ok_0.contains(x) ==> all_checked(
            v,
            condition,
        )->Ok_0.contains(x),
    decreases v.len(),
{
    assert(all_checked(v.drop_last(), condition) is Ok);
    lemma_in_either(
        all_checked(v.drop_last(), condition)->Ok_0,
        manifest_checked(v.last(), condition)->Ok_0,
        x,
    );
    if i < v.len() - 1 {
        every_manifest_is_checked(v.drop_last(), condition, i, x);
        assert(v.drop_last()[i] == v[i]);
    }
}

/// The line of a key is one more than the line feeds before the first place where the key
/// stands in quotes with a colon behind it.
pub proof fn keys_are_on_their_lines(
    before: Seq<char>,
    key: Seq<char>,
    blanks: Seq<char>,
    after: Seq<char>,
)
    requires
        before.len() > 0 ==> before.last() != '\\',
        forall|i: int|
            0 <= i < blanks.len() ==> #[trigger] blanks[i] == ' ' || blanks[i] == '\t' || blanks[i]
                == '\n' || blanks[i] == '\r',
        before.len() < MAX_LINE,
        !contains(before + "\""@ + key, "\""@ + key + "\""@),
    ensures
        key_line(before + "\""@ + key + "\""@ + blanks + ":"@ + after, key) == 1 + before.filter(
            |c: char| c == '\n',
        ).len(),
{
    let quoted = "\""@ + key + "\""@;
    let content = before + "\""@ + key + "\""@ + blanks + ":"@ + after;
    let p = before.len() as int;
    let tail = blanks + ":"@ + after;
    reveal_strlit("\"");
    reveal_strlit(":");
    assert(content =~= before + quoted + tail);
    assert(content.subrange(p, p + quoted.len()) =~= quoted);
    lemma_colon_behind(content, p + quoted.len(), blanks.len() as int);
    assert(p == 0 || content[p - 1] == before.last());
    assert(is_key_at(content, quoted, p));
    let front = before + "\""@ + key;
    contains_iff_occurs(front, quoted);
    assert forall|i: int| 0 <= i < p implies !is_key_at(content, quoted, i) by {
        if occurs_at(content, quoted, i) {
            assert(front.subrange(i, i + quoted.len()) =~= content.subrange(i, i + quoted.len()));
            assert(occurs_at(front, quoted, i));
        }
    }
    keys_are_told_from_values(content, key, p);
    assert(content.take(p) =~= before);
    lemma_line_feeds(before);
}

proof fn lemma_colon_behind(s: Seq<char>, i: int, n: int)
    requires
        0 <= i,
        0 <= n,
        i + n < s.len(),
        s[i + n] == ':',
        forall|k: int|
            i <= k < i + n ==> #[trigger] s[k] == ' ' || s[k] == '\t' || s[k] == '\n' || s[k]
                == '\r',
    ensures
        colon_follows(s, i),
    decreases n,
{
    if n > 0 {
        assert(s[i] == ' ' || s[i] == '\t' || s[i] == '\n' || s[i] == '\r');
        lemma_colon_behind(s, i + 1, n - 1);
    }
}

proof fn lemma_line_feeds(s: Seq<char>)
    ensures
        line_feeds(s) == s.filter(|c: char| c == '\n').len(),
        line_feeds(s) <= s.len(),
    decreases s.len(),
{
    reveal(Seq::filter);
    if s.len() > 0 {
        lemma_line_feeds(s.drop_last());
    }
}

/// The patterns of workspaces are the texts of the list under `workspaces`, or of the list
/// under `packages` in it.
pub proof fn workspaces_are_listed(manifest: JsonView, t: Seq<char>)
    ensures
        field(manifest, "workspaces"@) matches Some(JsonView::Array(items)) ==> (workspace_patterns(
            Some(manifest),
        ).contains(t) <==> items.contains(JsonView::Str(t))),
        field(manifest, "workspaces"@) matches Some(w) ==> w is Object ==> (field(
            w,
            "packages"@,
        ) matches Some(JsonView::Array(items)) ==> (workspace_patterns(Some(manifest)).contains(t)
            <==> items.contains(JsonView::Str(t)))),
{
    if let Some(w) = field(manifest, "workspaces"@) {
        if let JsonView::Array(items) = w {
            lemma_text_items(items, t);
        } else if let Some(JsonView::Array(items)) = field(w, "packages"@) {
            lemma_text_items(items, t);
        }
    }
}

proof fn lemma_text_items(v: Seq<JsonView>, t: Seq<char>)
    ensures
        text_items(v).contains(t) <==> v.contains(JsonView::Str(t)),
    decreases v.len(),
{
    if v.len() > 0 {
        let rest = v.drop_last();
        lemma_text_items(rest, t);
        lemma_in_pushed(rest, v.last(), JsonView::Str(t));
        assert(rest.push(v.last()) =~= v);
        if let Some(x) = as_text(v.last()) {
            lemma_in_pushed(text_items(rest), x, t);
        }
    }
}

/// The manifest of the root comes last, once; before it come all the others.
pub proof fn the_root_manifest_comes_last(root: Seq<char>, found: Seq<Seq<char>>)
    ensures
        manifest_order(root, found).last() == root,
        manifest_order(root, found).drop_last() == found.filter(|m: Seq<char>| m != root),
    decreases found.len(),
{
    lemma_others(root, found);
    assert(manifest_order(root, found).drop_last() =~= others_than(root, found));
}

proof fn lemma_others(root: Seq<char>, found: Seq<Seq<char>>)
    ensures
        others_than(root, found) == found.filter(|m: Seq<char>| m != root),
    decreases found.len(),
{
    reveal(Seq::filter);
    if found.len() > 0 {
        lemma_others(root, found.drop_last());
    }
}

/// A manifest that is not JSON is told; so is an expression for names that is refused, where
/// there is a dependency that it would be held against.
pub proof fn unreadable_manifests_are_told(
    file_uri: Seq<char>,
    content: Seq<char>,
    manifest: Result<JsonView, Seq<char>>,
    condition: DependencyCondition,
)
    ensures
        ({
            let out = checked(file_uri, content, manifest, condition);
            &&& (manifest matches Err(m) ==> out == Err::<Seq<IncidentView>, DependencyErrorView>(
                DependencyErrorView::InvalidManifest(m),
            ))
            &&& (manifest matches Ok(j) ==> (out is Err <==> name_error(condition) is Some
                && exists|section: Seq<char>|
                is_section(section) && (#[trigger] section_of(j, section)).len() > 0))
        }),
{
    if let Ok(j) = manifest {
        let a = section_of(j, "dependencies"@);
        let b = section_of(j, "devDependencies"@);
        let c = section_of(j, "peerDependencies"@);
        assert(a.len() > 0 ==> is_section("dependencies"@));
        assert(b.len() > 0 ==> is_section("devDependencies"@));
        assert(c.len() > 0 ==> is_section("peerDependencies"@));
    }
}

} // verus!
