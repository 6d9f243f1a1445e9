//! Text as sequences of characters.
//!
//! The rest of the library reasons about strings through their views
//! (`Seq<char>`). This module holds the vocabulary for that: white space,
//! searching, splitting, trimming, joining and decimal numerals, each with an
//! executable counterpart.

use vstd::prelude::*;

verus! {

/// `String::push` appends one character to the end of the string.
pub assume_specification[ String::push ](s: &mut String, c: char)
    ensures
        final(s)@ == old(s)@.push(c),
;

/// The views of a sequence of strings.
pub open spec fn texts(v: Seq<String>) -> Seq<Seq<char>> {
    Seq::new(v.len(), |i: int| v[i]@)
}

/// The view of an optional string.
pub open spec fn opt_text(o: Option<String>) -> Option<Seq<char>> {
    match o {
        Some(s) => Some(s@),
        None => None,
    }
}

/// The view of an optional string slice.
pub open spec fn opt_str(o: Option<&str>) -> Option<Seq<char>> {
    match o {
        Some(s) => Some(s@),
        None => None,
    }
}

pub proof fn lemma_texts_push(v: Seq<String>, s: String)
    ensures
        texts(v.push(s)) == texts(v).push(s@),
{
    assert(texts(v.push(s)) =~= texts(v).push(s@));
}

/// The UTF-8 encoding of a text.
pub open spec fn utf8(s: Seq<char>) -> Seq<u8> {
    vstd::utf8::encode_utf8(s)
}

/// The characters of a string slice.
pub fn chars_of(s: &str) -> (r: Vec<char>)
    ensures
        r@ == s@,
{
    let mut out: Vec<char> = Vec::new();
    for c in it: s.chars()
        invariant
            out@ == s@.take(it.index() as int),
            it.seq() == s@,
    {
        out.push(c);
    }
    out
}

/// The string made of the given characters.
pub fn string_of(s: &[char]) -> (r: String)
    ensures
        r@ == s@,
{
    let mut out = String::new();
    let mut i: usize = 0;
    while i < s.len()
        invariant
            i <= s@.len(),
            out@ == s@.take(i as int),
        decreases s@.len() - i,
    {
        out.push(s[i]);
        i = i + 1;
    }
    assert(s@.take(s@.len() as int) =~= s@);
    out
}

/// Whether two string slices hold the same characters.
pub fn same_text(a: &str, b: &str) -> (r: bool)
    ensures
        r == (a@ == b@),
{
    a.to_owned() == b.to_owned()
}

/// Whether two runs of characters are equal.
pub fn same_chars(a: &[char], b: &[char]) -> (r: bool)
    ensures
        r == (a@ == b@),
{
    if a.len() != b.len() {
        return false;
    }
    let mut i: usize = 0;
    while i < a.len()
        invariant
            i <= a@.len(),
            a@.len() == b@.len(),
            forall|j: int| 0 <= j < i ==> a@[j] == b@[j],
        decreases a@.len() - i,
    {
        if a[i] != b[i] {
            return false;
        }
        i = i + 1;
    }
    assert(a@ =~= b@);
    true
}

/// Whether `list` holds a string with the characters of `item`.
pub fn list_contains(list: &Vec<String>, item: &str) -> (r: bool)
    ensures
        r == texts(list@).contains(item@),
{
    let mut i: usize = 0;
    while i < list.len()
        invariant
            i <= list@.len(),
            forall|j: int| 0 <= j < i ==> list@[j]@ != item@,
        decreases list@.len() - i,
    {
        if same_text(list[i].as_str(), item) {
            assert(texts(list@)[i as int] == item@);
            return true;
        }
        i = i + 1;
    }
    false
}

/// An independent copy of a list of strings.
pub fn copy_list(list: &Vec<String>) -> (r: Vec<String>)
    ensures
        r@ == list@,
{
    let mut out: Vec<String> = Vec::new();
    let mut i: usize = 0;
    while i < list.len()
        invariant
            i <= list@.len(),
            out@ == list@.take(i as int),
        decreases list@.len() - i,
    {
        out.push(list[i].clone());
        i = i + 1;
    }
    assert(list@.take(list@.len() as int) =~= list@);
    out
}

/// An independent copy of an optional string.
pub fn copy_opt(o: &Option<String>) -> (r: Option<String>)
    ensures
        r == *o,
{
    match o {
        Some(s) => Some(s.clone()),
        None => None,
    }
}

// ── White space and trimming ────────────────────────────────────────────

/// The Unicode `White_Space` property.
pub open spec fn is_white(c: char) -> bool {
    let n = c as u32;
    ||| 9 <= n <= 13
    ||| n == 32
    ||| n == 0x85
    ||| n == 0xA0
    ||| n == 0x1680
    ||| 0x2000 <= n <= 0x200A
    ||| n == 0x2028
    ||| n == 0x2029
    ||| n == 0x202F
    ||| n == 0x205F
    ||| n == 0x3000
}

pub fn white(c: char) -> (r: bool)
    ensures
        r == is_white(c),
{
    let n: u32 = c as u32;
    (9 <= n && n <= 13) || n == 32 || n == 0x85 || n == 0xA0 || n == 0x1680 || (0x2000 <= n && n
        <= 0x200A) || n == 0x2028 || n == 0x2029 || n == 0x202F || n == 0x205F || n == 0x3000
}

/// `s` without its leading white space.
pub open spec fn trim_start(s: Seq<char>) -> Seq<char>
    decreases s.len(),
{
    if s.len() > 0 && is_white(s[0]) {
        trim_start(s.skip(1))
    } else {
        s
    }
}

/// `s` without its trailing white space.
pub open spec fn trim_end(s: Seq<char>) -> Seq<char>
    decreases s.len(),
{
    if s.len() > 0 && is_white(s.last()) {
        trim_end(s.drop_last())
    } else {
        s
    }
}

/// `s` without the white space around it.
pub open spec fn trim(s: Seq<char>) -> Seq<char> {
    trim_end(trim_start(s))
}

pub fn trim_start_chars(s: &[char]) -> (r: &[char])
    ensures
        r@ == trim_start(s@),
{
    let mut i: usize = 0;
    assert(s@.skip(0) =~= s@);
    while i < s.len() && white(s[i])
        invariant
            i <= s@.len(),
            trim_start(s@) == trim_start(s@.skip(i as int)),
        decreases s@.len() - i,
    {
        assert(s@.skip(i as int).skip(1) =~= s@.skip(i as int + 1));
        i = i + 1;
    }
    &s[i..s.len()]
}

pub fn trim_end_chars(s: &[char]) -> (r: &[char])
    ensures
        r@ == trim_end(s@),
{
    let mut n: usize = s.len();
    assert(s@.take(n as int) =~= s@);
    while n > 0 && white(s[n - 1])
        invariant
            n <= s@.len(),
            trim_end(s@) == trim_end(s@.take(n as int)),
        decreases n,
    {
        assert(s@.take(n as int).drop_last() =~= s@.take(n as int - 1));
        n = n - 1;
    }
    &s[0..n]
}

pub fn trim_chars(s: &[char]) -> (r: &[char])
    ensures
        r@ == trim(s@),
{
    trim_end_chars(trim_start_chars(s))
}

/// A trimmed copy of a string slice.
pub fn trimmed(s: &str) -> (r: String)
    ensures
        r@ == trim(s@),
{
    let c = chars_of(s);
    string_of(trim_chars(c.as_slice()))
}

/// Trimming twice is trimming once.
pub proof fn trim_idempotent(s: Seq<char>)
    ensures
        trim(trim(s)) == trim(s),
{
    lemma_trim_start_head(s);
    lemma_trim_end_tail(trim_start(s));
    let t = trim(s);
    if t.len() > 0 {
        lemma_trim_end_head(trim_start(s));
    }
}

proof fn lemma_trim_start_head(s: Seq<char>)
    ensures
        trim_start(s).len() > 0 ==> !is_white(trim_start(s)[0]),
    decreases s.len(),
{
    if s.len() > 0 && is_white(s[0]) {
        lemma_trim_start_head(s.skip(1));
    }
}

proof fn lemma_trim_end_tail(s: Seq<char>)
    ensures
        trim_end(s).len() > 0 ==> !is_white(trim_end(s).last()),
    decreases s.len(),
{
    if s.len() > 0 && is_white(s.last()) {
        lemma_trim_end_tail(s.drop_last());
    }
}

proof fn lemma_trim_end_head(s: Seq<char>)
    ensures
        trim_end(s).len() <= s.len(),
        trim_end(s).len() > 0 ==> trim_end(s)[0] == s[0],
    decreases s.len(),
{
    if s.len() > 0 && is_white(s.last()) {
        lemma_trim_end_head(s.drop_last());
    }
}

/// A trimmed text begins and ends with what is not white space, and holds no character
/// that was not there.
pub(crate) proof fn lemma_trim_ends(s: Seq<char>)
    ensures
        trim(s).len() > 0 ==> !is_white(trim(s)[0]) && !is_white(trim(s).last()),
        forall|c: char| trim(s).contains(c) ==> s.contains(c),
{
    lemma_trim_start_head(s);
    lemma_trim_end_tail(trim_start(s));
    lemma_trim_end_head(trim_start(s));
    lemma_trim_start_holds(s);
    lemma_trim_end_holds(trim_start(s));
}

proof fn lemma_trim_start_holds(s: Seq<char>)
    ensures
        forall|c: char| trim_start(s).contains(c) ==> s.contains(c),
    decreases s.len(),
{
    if s.len() > 0 && is_white(s[0]) {
        lemma_trim_start_holds(s.skip(1));
        assert forall|c: char| trim_start(s).contains(c) implies s.contains(c) by {
            assert(s.skip(1).contains(c));
            let i = choose|i: int| 0 <= i < s.skip(1).len() && s.skip(1)[i] == c;
            assert(s[i + 1] == c);
        }
    }
}

proof fn lemma_trim_end_holds(s: Seq<char>)
    ensures
        forall|c: char| trim_end(s).contains(c) ==> s.contains(c),
    decreases s.len(),
{
    if s.len() > 0 && is_white(s.last()) {
        lemma_trim_end_holds(s.drop_last());
        assert forall|c: char| trim_end(s).contains(c) implies s.contains(c) by {
            assert(s.drop_last().contains(c));
            let i = choose|i: int| 0 <= i < s.drop_last().len() && s.drop_last()[i] == c;
            assert(s[i] == c);
        }
    }
}

/// Blanks around a text without white space at its ends are trimmed away.
pub(crate) proof fn lemma_trim_blanks(s: Seq<char>)
    requires
        s.len() > 0,
        !is_white(s[0]),
        !is_white(s.last()),
    ensures
        trim(seq![' '] + s) == s,
        trim(seq![' '] + s + seq![' ']) == s,
{
    blanks_around_are_dropped(seq![' '], s, Seq::empty());
    blanks_around_are_dropped(seq![' '], s, seq![' ']);
    assert(seq![' '] + s + Seq::<char>::empty() =~= seq![' '] + s);
}

// ── Searching ───────────────────────────────────────────────────────────

/// Whether `needle` stands in `s` at position `i`.
pub open spec fn occurs_at(s: Seq<char>, needle: Seq<char>, i: int) -> bool {
    0 <= i && i + needle.len() <= s.len() && s.subrange(i, i + needle.len()) == needle
}

/// The first position, from `from` on, at which `needle` stands in `s`.
pub open spec fn find_from(s: Seq<char>, needle: Seq<char>, from: int) -> Option<int>
    decreases s.len() + 1 - from,
{
    if from < 0 || from + needle.len() > s.len() {
        None
    } else if occurs_at(s, needle, from) {
        Some(from)
    } else {
        find_from(s, needle, from + 1)
    }
}

/// The last position, up to `upto`, at which `needle` stands in `s`.
pub open spec fn rfind_from(s: Seq<char>, needle: Seq<char>, upto: int) -> Option<int>
    decreases upto + 1,
{
    if upto < 0 {
        None
    } else if occurs_at(s, needle, upto) {
        Some(upto)
    } else {
        rfind_from(s, needle, upto - 1)
    }
}

/// Whether `needle` stands somewhere in `s`.
pub open spec fn contains(s: Seq<char>, needle: Seq<char>) -> bool {
    find_from(s, needle, 0) is Some
}

pub open spec fn starts_with(s: Seq<char>, prefix: Seq<char>) -> bool {
    occurs_at(s, prefix, 0)
}

pub open spec fn ends_with(s: Seq<char>, suffix: Seq<char>) -> bool {
    occurs_at(s, suffix, s.len() - suffix.len())
}

/// What follows `prefix`, where `s` starts with it.
pub open spec fn strip_prefix(s: Seq<char>, prefix: Seq<char>) -> Option<Seq<char>> {
    if starts_with(s, prefix) {
        Some(s.skip(prefix.len() as int))
    } else {
        None
    }
}

pub open spec fn strip_suffix(s: Seq<char>, suffix: Seq<char>) -> Option<Seq<char>> {
    if ends_with(s, suffix) {
        Some(s.take(s.len() - suffix.len()))
    } else {
        None
    }
}

/// A found position is an occurrence, and nothing earlier is.
pub proof fn lemma_find_from(s: Seq<char>, needle: Seq<char>, from: int)
    requires
        0 <= from,
    ensures
        find_from(s, needle, from) matches Some(p) ==> {
            &&& from <= p
            &&& occurs_at(s, needle, p)
            &&& forall|q: int| from <= q < p ==> !occurs_at(s, needle, q)
        },
        find_from(s, needle, from) is None ==> forall|q: int|
            from <= q ==> !occurs_at(s, needle, q),
    decreases s.len() + 1 - from,
{
    if from + needle.len() > s.len() {
    } else if occurs_at(s, needle, from) {
    } else {
        lemma_find_from(s, needle, from + 1);
    }
}

/// `contains` holds exactly where some position holds the needle.
pub proof fn contains_iff_occurs(s: Seq<char>, needle: Seq<char>)
    ensures
        contains(s, needle) <==> exists|i: int| occurs_at(s, needle, i),
{
    lemma_find_from(s, needle, 0);
}

pub fn occurs_at_chars(s: &[char], needle: &[char], i: usize) -> (r: bool)
    ensures
        r == occurs_at(s@, needle@, i as int),
{
    if needle.len() > s.len() || i > s.len() - needle.len() {
        return false;
    }
    same_chars(&s[i..i + needle.len()], needle)
}

pub fn find_chars(s: &[char], needle: &[char], from: usize) -> (r: Option<usize>)
    ensures
        match r {
            Some(p) => find_from(s@, needle@, from as int) == Some(p as int) && p + needle@.len()
                <= s@.len(),
            None => find_from(s@, needle@, from as int) is None,
        },
{
    let mut i: usize = from;
    while needle.len() <= s.len() && i <= s.len() - needle.len()
        invariant
            from <= i,
            find_from(s@, needle@, from as int) == find_from(s@, needle@, i as int),
        decreases s@.len() + 1 - i,
    {
        if occurs_at_chars(s, needle, i) {
            return Some(i);
        }
        if i == usize::MAX {
            assert(find_from(s@, needle@, i + 1) is None);
            return None;
        }
        i = i + 1;
    }
    None
}

pub fn rfind_chars(s: &[char], needle: &[char]) -> (r: Option<usize>)
    ensures
        match r {
            Some(p) => rfind_from(s@, needle@, s@.len() as int) == Some(p as int) && p
                + needle@.len() <= s@.len(),
            None => rfind_from(s@, needle@, s@.len() as int) is None,
        },
{
    let mut i: usize = s.len();
    loop
        invariant
            i <= s@.len(),
            rfind_from(s@, needle@, s@.len() as int) == rfind_from(s@, needle@, i as int),
        decreases i,
    {
        if occurs_at_chars(s, needle, i) {
            return Some(i);
        }
        if i == 0 {
            assert(rfind_from(s@, needle@, -1) is None);
            return None;
        }
        i = i - 1;
    }
}

pub fn contains_text(s: &str, needle: &str) -> (r: bool)
    ensures
        r == contains(s@, needle@),
{
    let c = chars_of(s);
    let n = chars_of(needle);
    find_chars(c.as_slice(), n.as_slice(), 0).is_some()
}

pub fn starts_with_text(s: &str, prefix: &str) -> (r: bool)
    ensures
        r == starts_with(s@, prefix@),
{
    let c = chars_of(s);
    let n = chars_of(prefix);
    occurs_at_chars(c.as_slice(), n.as_slice(), 0)
}

pub fn ends_with_text(s: &str, suffix: &str) -> (r: bool)
    ensures
        r == ends_with(s@, suffix@),
{
    let c = chars_of(s);
    let n = chars_of(suffix);
    if n.len() > c.len() {
        return false;
    }
    occurs_at_chars(c.as_slice(), n.as_slice(), c.len() - n.len())
}

pub fn strip_prefix_text(s: &str, prefix: &str) -> (r: Option<String>)
    ensures
        opt_text(r) == strip_prefix(s@, prefix@),
{
    let c = chars_of(s);
    let n = chars_of(prefix);
    if occurs_at_chars(c.as_slice(), n.as_slice(), 0) {
        Some(string_of(&c.as_slice()[n.len()..c.len()]))
    } else {
        None
    }
}

pub fn strip_suffix_text(s: &str, suffix: &str) -> (r: Option<String>)
    ensures
        opt_text(r) == strip_suffix(s@, suffix@),
{
    let c = chars_of(s);
    let n = chars_of(suffix);
    if n.len() <= c.len() && occurs_at_chars(c.as_slice(), n.as_slice(), c.len() - n.len()) {
        Some(string_of(&c.as_slice()[0..c.len() - n.len()]))
    } else {
        None
    }
}

// ── Replacing ───────────────────────────────────────────────────────────

/// `s` with the first occurrence of `old` replaced.
pub open spec fn replace_first(s: Seq<char>, old_text: Seq<char>, new_text: Seq<char>) -> Seq<char> {
    match find_from(s, old_text, 0) {
        Some(p) => s.take(p) + new_text + s.skip(p + old_text.len()),
        None => s,
    }
}

/// What stands in `s` from position `i` on, with every occurrence of `old`
/// replaced, from left to right. An empty `old` stands before every character and
/// at the end.
pub open spec fn replace_from(
    s: Seq<char>,
    old_text: Seq<char>,
    new_text: Seq<char>,
    i: int,
) -> Seq<char>
    decreases s.len() + 1 - i,
{
    proof {
        if i >= 0 {
            lemma_find_from(s, old_text, i);
        }
    }
    if i < 0 || i > s.len() {
        Seq::empty()
    } else {
        match find_from(s, old_text, i) {
            Some(p) => s.subrange(i, p) + new_text + if old_text.len() > 0 {
                replace_from(s, old_text, new_text, p + old_text.len())
            } else if p < s.len() {
                seq![s[p]] + replace_from(s, old_text, new_text, p + 1)
            } else {
                Seq::empty()
            },
            None => s.skip(i),
        }
    }
}

/// `s` with every occurrence of `old` replaced.
pub open spec fn replace_all(s: Seq<char>, old_text: Seq<char>, new_text: Seq<char>) -> Seq<char> {
    replace_from(s, old_text, new_text, 0)
}

pub fn replace_first_text(s: &str, old_text: &str, new_text: &str) -> (r: String)
    ensures
        r@ == replace_first(s@, old_text@, new_text@),
{
    let c = chars_of(s);
    let o = chars_of(old_text);
    let n: usize = c.len();
    match find_chars(c.as_slice(), o.as_slice(), 0) {
        Some(p) => {
            let mut r = string_of(&c.as_slice()[0..p]);
            r.append(new_text);
            let rest = string_of(&c.as_slice()[p + o.len()..n]);
            r.append(rest.as_str());
            r
        },
        None => s.to_owned(),
    }
}

pub fn replace_all_text(s: &str, old_text: &str, new_text: &str) -> (r: String)
    ensures
        r@ == replace_all(s@, old_text@, new_text@),
{
    let c = chars_of(s);
    let o = chars_of(old_text);
    let v = c.as_slice();
    let n: usize = v.len();
    let mut out = String::new();
    let mut i: usize = 0;
    assert(out@ + replace_from(s@, old_text@, new_text@, 0) =~= replace_all(
        s@,
        old_text@,
        new_text@,
    ));
    loop
        invariant
            i <= n,
            n == v@.len(),
            v@ == s@,
            o@ == old_text@,
            out@ + replace_from(s@, old_text@, new_text@, i as int) == replace_all(
                s@,
                old_text@,
                new_text@,
            ),
        decreases v@.len() + 1 - i,
    {
        proof {
            lemma_find_from(s@, old_text@, i as int);
        }
        let ghost before = out@;
        match find_chars(v, o.as_slice(), i) {
            None => {
                let rest = string_of(&v[i..v.len()]);
                out.append(rest.as_str());
                return out;
            },
            Some(p) => {
                let piece = string_of(&v[i..p]);
                out.append(piece.as_str());
                out.append(new_text);
                if o.len() > 0 {
                    i = p + o.len();
                    assert(out@ + replace_from(s@, old_text@, new_text@, i as int) =~= replace_all(
                        s@,
                        old_text@,
                        new_text@,
                    ));
                } else if p < v.len() {
                    out.push(v[p]);
                    i = p + 1;
                    assert(out@ + replace_from(s@, old_text@, new_text@, i as int) =~= replace_all(
                        s@,
                        old_text@,
                        new_text@,
                    ));
                } else {
                    assert(out@ =~= replace_all(s@, old_text@, new_text@));
                    return out;
                }
            },
        }
    }
}

// ── Laws of replacing ───────────────────────────────────────────────────

/// Whether the first place of `old_text` in `part + old_text` is its end.
pub open spec fn goes_up_to(part: Seq<char>, old_text: Seq<char>) -> bool {
    forall|q: int| 0 <= q < part.len() ==> !occurs_at(part + old_text, old_text, q)
}

/// Whether parts are what stands between the occurrences of a text, from left to right:
/// each but the last goes up to the next occurrence, and there is none in the last.
pub open spec fn are_parts(parts: Seq<Seq<char>>, old_text: Seq<char>) -> bool {
    &&& parts.len() > 0
    &&& forall|i: int| 0 <= i < parts.len() - 1 ==> goes_up_to(#[trigger] parts[i], old_text)
    &&& forall|q: int| !occurs_at(parts.last(), old_text, q)
}

proof fn lemma_find_prefix(a: Seq<char>, old_text: Seq<char>, rest: Seq<char>, from: int)
    requires
        goes_up_to(a, old_text),
        0 <= from <= a.len(),
    ensures
        find_from(a + old_text + rest, old_text, from) == Some(a.len() as int),
    decreases a.len() - from,
{
    let s = a + old_text + rest;
    let k = old_text.len() as int;
    if from < a.len() {
        if occurs_at(s, old_text, from) {
            assert((a + old_text).subrange(from, from + k) =~= s.subrange(from, from + k));
            assert(occurs_at(a + old_text, old_text, from));
        }
        lemma_find_prefix(a, old_text, rest, from + 1);
    } else {
        assert(s.subrange(from, from + k) =~= old_text);
    }
}

proof fn lemma_find_none(s: Seq<char>, needle: Seq<char>, from: int)
    requires
        forall|q: int| !occurs_at(s, needle, q),
    ensures
        find_from(s, needle, from) is None,
    decreases s.len() + 1 - from,
{
    if !(from < 0 || from + needle.len() > s.len()) {
        lemma_find_none(s, needle, from + 1);
    }
}

pub(crate) proof fn lemma_join_first(parts: Seq<Seq<char>>, sep: Seq<char>)
    requires
        parts.len() > 1,
    ensures
        join(parts, sep) == parts[0] + sep + join(parts.skip(1), sep),
    decreases parts.len(),
{
    let rest = parts.skip(1);
    if parts.len() == 2 {
        assert(parts.drop_last() =~= seq![parts[0]]);
        assert(rest =~= seq![parts[1]]);
        assert(join(parts.drop_last(), sep) == parts[0]);
        assert(join(rest, sep) == parts[1]);
    } else {
        lemma_join_first(parts.drop_last(), sep);
        assert(parts.drop_last().skip(1) =~= rest.drop_last());
        assert(join(rest, sep) == join(rest.drop_last(), sep) + sep + rest.last());
        assert(join(parts, sep) =~= parts[0] + sep + join(rest, sep));
    }
}

/// Replacing in what follows a position is replacing in the rest alone.
proof fn lemma_replace_shift(s: Seq<char>, old_text: Seq<char>, new_text: Seq<char>, i: int)
    requires
        0 <= i <= s.len(),
        old_text.len() > 0,
    ensures
        replace_from(s, old_text, new_text, i) == replace_from(s.skip(i), old_text, new_text, 0),
{
    lemma_replace_shifted(s, old_text, new_text, i, 0);
}

proof fn lemma_find_shifted(s: Seq<char>, needle: Seq<char>, i: int, j: int)
    requires
        0 <= i <= s.len(),
        0 <= j,
    ensures
        find_from(s.skip(i), needle, j) == match find_from(s, needle, i + j) {
            Some(p) => Some(p - i),
            None => None,
        },
    decreases s.len() + 1 - j,
{
    if i + j + needle.len() <= s.len() {
        assert(s.skip(i).subrange(j, j + needle.len()) =~= s.subrange(
            i + j,
            i + j + needle.len(),
        ));
        lemma_find_shifted(s, needle, i, j + 1);
    }
}

proof fn lemma_replace_shifted(
    s: Seq<char>,
    old_text: Seq<char>,
    new_text: Seq<char>,
    i: int,
    j: int,
)
    requires
        0 <= i <= s.len(),
        0 <= j <= s.len() - i,
        old_text.len() > 0,
    ensures
        replace_from(s, old_text, new_text, i + j) == replace_from(
            s.skip(i),
            old_text,
            new_text,
            j,
        ),
    decreases s.len() - j,
{
    lemma_find_shifted(s, old_text, i, j);
    lemma_find_from(s, old_text, i + j);
    match find_from(s, old_text, i + j) {
        Some(p) => {
            lemma_replace_shifted(s, old_text, new_text, i, p - i + old_text.len());
            assert(s.skip(i).subrange(j, p - i) =~= s.subrange(i + j, p));
        },
        None => {
            assert(s.skip(i).skip(j) =~= s.skip(i + j));
        },
    }
}

/// Replacing every occurrence puts the new text wherever the old one stood, and leaves
/// what stood between; replacing the first one puts it there alone.
pub proof fn occurrences_are_replaced(
    parts: Seq<Seq<char>>,
    old_text: Seq<char>,
    new_text: Seq<char>,
)
    requires
        old_text.len() > 0,
        are_parts(parts, old_text),
    ensures
        replace_all(join(parts, old_text), old_text, new_text) == join(parts, new_text),
        replace_first(join(parts, old_text), old_text, new_text) == (if parts.len() == 1 {
            parts[0]
        } else {
            parts[0] + new_text + join(parts.skip(1), old_text)
        }),
        contains(join(parts, old_text), old_text) <==> parts.len() > 1,
    decreases parts.len(),
{
    let s = join(parts, old_text);
    if parts.len() == 1 {
        lemma_find_none(s, old_text, 0);
        assert(s.skip(0) =~= s);
    } else {
        let rest = parts.skip(1);
        let tail = join(rest, old_text);
        let a = parts[0];
        let n = a.len() + old_text.len();
        assert(goes_up_to(parts[0], old_text));
        assert forall|i: int| 0 <= i < rest.len() - 1 implies goes_up_to(
            #[trigger] rest[i],
            old_text,
        ) by {
            assert(rest[i] == parts[i + 1]);
        }
        assert(rest.last() == parts.last());
        occurrences_are_replaced(rest, old_text, new_text);
        lemma_join_first(parts, old_text);
        lemma_join_first(parts, new_text);
        lemma_find_prefix(a, old_text, tail, 0);
        assert(s.skip(n as int) =~= tail);
        assert(s.take(a.len() as int) =~= a);
        assert(s.subrange(0, a.len() as int) =~= a);
        lemma_replace_shift(s, old_text, new_text, n as int);
        assert(replace_all(s, old_text, new_text) =~= a + new_text + replace_all(
            tail,
            old_text,
            new_text,
        ));
        assert(replace_first(s, old_text, new_text) =~= a + new_text + tail);
    }
}

/// Every text comes apart at the occurrences of another one.
pub proof fn texts_come_apart(s: Seq<char>, old_text: Seq<char>) -> (parts: Seq<Seq<char>>)
    requires
        old_text.len() > 0,
    ensures
        are_parts(parts, old_text),
        join(parts, old_text) == s,
    decreases s.len(),
{
    lemma_find_from(s, old_text, 0);
    match find_from(s, old_text, 0) {
        None => {
            let parts = seq![s];
            assert(parts.last() == s);
            assert forall|q: int| !occurs_at(s, old_text, q) by {
                if occurs_at(s, old_text, q) {
                    contains_iff_occurs(s, old_text);
                }
            }
            parts
        },
        Some(p) => {
            let a = s.take(p);
            let rest = texts_come_apart(s.skip(p + old_text.len()), old_text);
            let parts = seq![a] + rest;
            assert forall|q: int| 0 <= q < a.len() implies !occurs_at(
                a + old_text,
                old_text,
                q,
            ) by {
                assert(s.take(p + old_text.len()) =~= a + old_text);
                if occurs_at(a + old_text, old_text, q) {
                    assert((a + old_text).subrange(q, q + old_text.len()) =~= s.subrange(
                        q,
                        q + old_text.len(),
                    ));
                    assert(occurs_at(s, old_text, q));
                }
            }
            assert forall|i: int| 0 <= i < parts.len() - 1 implies goes_up_to(
                #[trigger] parts[i],
                old_text,
            ) by {
                if i > 0 {
                    assert(parts[i] == rest[i - 1]);
                }
            }
            assert(parts.last() == rest.last());
            assert(parts.skip(1) =~= rest);
            lemma_join_first(parts, old_text);
            assert(join(parts, old_text) =~= s);
            parts
        },
    }
}

/// Whether two texts have no character in common.
pub open spec fn share_nothing(a: Seq<char>, b: Seq<char>) -> bool {
    forall|i: int, j: int| 0 <= i < a.len() && 0 <= j < b.len() ==> #[trigger] a[i] != #[trigger] b[j]
}

proof fn lemma_nothing_between(
    a: Seq<char>,
    new_text: Seq<char>,
    b: Seq<char>,
    old_text: Seq<char>,
    q: int,
)
    requires
        old_text.len() > 0,
        new_text.len() > 0,
        share_nothing(old_text, new_text),
        forall|k: int| !occurs_at(a, old_text, k),
        forall|k: int| !occurs_at(b, old_text, k),
    ensures
        !occurs_at(a + new_text + b, old_text, q),
{
    let s = a + new_text + b;
    let n = old_text.len() as int;
    if occurs_at(s, old_text, q) {
        let piece = s.subrange(q, q + n);
        if q + n <= a.len() {
            assert(a.subrange(q, q + n) =~= piece);
            assert(occurs_at(a, old_text, q));
        } else if q >= a.len() + new_text.len() {
            let k = q - a.len() - new_text.len();
            assert(b.subrange(k, k + n) =~= piece);
            assert(occurs_at(b, old_text, k));
        } else {
            let at = if q < a.len() {
                a.len() as int
            } else {
                q
            };
            assert(piece[at - q] == s[at]);
            assert(s[at] == new_text[at - a.len()]);
            assert(old_text[at - q] == new_text[at - a.len()]);
        }
    }
}

proof fn lemma_joined_free(parts: Seq<Seq<char>>, new_text: Seq<char>, old_text: Seq<char>)
    requires
        old_text.len() > 0,
        new_text.len() > 0,
        share_nothing(old_text, new_text),
        are_parts(parts, old_text),
    ensures
        forall|q: int| !occurs_at(join(parts, new_text), old_text, q),
    decreases parts.len(),
{
    if parts.len() > 1 {
        let rest = parts.skip(1);
        let a = parts[0];
        assert forall|i: int| 0 <= i < rest.len() - 1 implies goes_up_to(
            #[trigger] rest[i],
            old_text,
        ) by {
            assert(rest[i] == parts[i + 1]);
        }
        assert(rest.last() == parts.last());
        lemma_joined_free(rest, new_text, old_text);
        lemma_join_first(parts, new_text);
        assert(goes_up_to(a, old_text));
        assert forall|k: int| !occurs_at(a, old_text, k) by {
            if occurs_at(a, old_text, k) {
                assert((a + old_text).subrange(k, k + old_text.len()) =~= a.subrange(
                    k,
                    k + old_text.len(),
                ));
                assert(occurs_at(a + old_text, old_text, k));
            }
        }
        assert forall|q: int| !occurs_at(join(parts, new_text), old_text, q) by {
            lemma_nothing_between(a, new_text, join(rest, new_text), old_text, q);
        }
    } else {
        assert(join(parts, new_text) == parts.last());
    }
}

/// Once every occurrence of a text is replaced by one that has no character in common
/// with it, the text occurs no more.
pub proof fn replaced_texts_are_gone(s: Seq<char>, old_text: Seq<char>, new_text: Seq<char>)
    requires
        old_text.len() > 0,
        new_text.len() > 0,
        share_nothing(old_text, new_text),
    ensures
        !contains(replace_all(s, old_text, new_text), old_text),
{
    let parts = texts_come_apart(s, old_text);
    occurrences_are_replaced(parts, old_text, new_text);
    lemma_joined_free(parts, new_text, old_text);
    lemma_find_none(join(parts, new_text), old_text, 0);
}

// ── Byte offsets ────────────────────────────────────────────────────────

/// How many bytes a character takes in UTF-8.
pub open spec fn char_width(c: char) -> nat {
    let n = c as u32;
    if n < 0x80 {
        1
    } else if n < 0x800 {
        2
    } else if n < 0x10000 {
        3
    } else {
        4
    }
}

/// The position of the character that begins `offset` bytes after the one at
/// position `i`, where a character begins (or the text ends) there.
pub open spec fn index_after_bytes(s: Seq<char>, i: int, offset: int) -> Option<int>
    decreases s.len() - i,
{
    if offset == 0 {
        Some(i)
    } else if i < 0 || i >= s.len() || offset < char_width(s[i]) {
        None
    } else {
        index_after_bytes(s, i + 1, offset - char_width(s[i]))
    }
}

/// The text between two byte offsets, where both are character boundaries in order.
pub open spec fn byte_slice(s: Seq<char>, start: int, end: int) -> Option<Seq<char>> {
    match (index_after_bytes(s, 0, start), index_after_bytes(s, 0, end)) {
        (Some(i), Some(j)) => if start <= end && i <= j {
            Some(s.subrange(i, j))
        } else {
            None
        },
        _ => None,
    }
}

/// The text between two byte offsets, empty where there is none.
pub open spec fn text_between(s: Seq<char>, start: int, end: int) -> Seq<char> {
    match byte_slice(s, start, end) {
        Some(t) => t,
        None => Seq::empty(),
    }
}

pub(crate) fn width_of(c: char) -> (r: u64)
    ensures
        r as nat == char_width(c),
        1 <= r <= 4,
{
    let n: u32 = c as u32;
    if n < 0x80 {
        1
    } else if n < 0x800 {
        2
    } else if n < 0x10000 {
        3
    } else {
        4
    }
}

pub(crate) fn index_after(s: &[char], offset: u128) -> (r: Option<usize>)
    ensures
        match r {
            Some(i) => index_after_bytes(s@, 0, offset as int) == Some(i as int) && i <= s@.len(),
            None => index_after_bytes(s@, 0, offset as int) is None,
        },
{
    let mut i: usize = 0;
    let mut left: u128 = offset;
    while left > 0
        invariant
            i <= s@.len(),
            index_after_bytes(s@, 0, offset as int) == index_after_bytes(s@, i as int, left as int),
        decreases left,
    {
        if i >= s.len() {
            return None;
        }
        let w: u128 = width_of(s[i]) as u128;
        if left < w {
            return None;
        }
        left = left - w;
        i = i + 1;
    }
    Some(i)
}

/// The text between two byte offsets of `s`.
pub fn slice_bytes(s: &str, start: u64, end: u64) -> (r: Option<String>)
    ensures
        opt_text(r) == byte_slice(s@, start as int, end as int),
{
    let c = chars_of(s);
    let v = c.as_slice();
    match (index_after(v, start as u128), index_after(v, end as u128)) {
        (Some(i), Some(j)) => {
            if start <= end && i <= j {
                Some(string_of(&v[i..j]))
            } else {
                None
            }
        },
        _ => None,
    }
}

pub fn text_between_bytes(s: &str, start: u64, end: u64) -> (r: String)
    ensures
        r@ == text_between(s@, start as int, end as int),
{
    match slice_bytes(s, start, end) {
        Some(t) => t,
        None => String::new(),
    }
}

/// How many bytes a text takes in UTF-8.
pub fn byte_len_of(s: &str) -> (r: usize)
    ensures
        r == utf8(s@).len(),
{
    s.as_bytes().len()
}

// ── Splitting and joining ───────────────────────────────────────────────

/// The pieces of `s` between separators, the current piece having begun at
/// `start` and the scan standing at `i`.
pub open spec fn split_at_from(s: Seq<char>, sep: char, start: int, i: int) -> Seq<Seq<char>>
    decreases s.len() - i,
{
    if i >= s.len() {
        seq![s.subrange(start, s.len() as int)]
    } else if s[i] == sep {
        seq![s.subrange(start, i)] + split_at_from(s, sep, i + 1, i + 1)
    } else {
        split_at_from(s, sep, start, i + 1)
    }
}

/// The pieces of `s` between occurrences of `sep`: always at least one.
pub open spec fn split(s: Seq<char>, sep: char) -> Seq<Seq<char>> {
    split_at_from(s, sep, 0, 0)
}

/// Without a separator from `i` on, what is left is one piece.
pub(crate) proof fn lemma_split_one(s: Seq<char>, sep: char, start: int, i: int)
    requires
        0 <= start <= i <= s.len(),
        forall|k: int| i <= k < s.len() ==> s[k] != sep,
    ensures
        split_at_from(s, sep, start, i) == seq![s.subrange(start, s.len() as int)],
    decreases s.len() - i,
{
    if i < s.len() {
        lemma_split_one(s, sep, start, i + 1);
    }
}

/// What stands behind the last separator is the last piece.
pub(crate) proof fn lemma_split_last(a: Seq<char>, sep: char, b: Seq<char>, start: int, i: int)
    requires
        0 <= start <= i <= a.len(),
        !b.contains(sep),
    ensures
        split_at_from(a + seq![sep] + b, sep, start, i) == split_at_from(a, sep, start, i).push(b),
    decreases a.len() - i,
{
    let s = a + seq![sep] + b;
    if i < a.len() {
        assert(s[i] == a[i]);
        if a[i] == sep {
            lemma_split_last(a, sep, b, i + 1, i + 1);
            assert(s.subrange(start, i) =~= a.subrange(start, i));
            assert(split_at_from(s, sep, start, i) =~= split_at_from(a, sep, start, i).push(b));
        } else {
            lemma_split_last(a, sep, b, start, i + 1);
        }
    } else {
        assert(s[i] == sep);
        assert forall|k: int| i + 1 <= k < s.len() implies s[k] != sep by {
            assert(s[k] == b[k - i - 1]);
        }
        lemma_split_one(s, sep, i + 1, i + 1);
        assert(s.subrange(start, i) =~= a.subrange(start, a.len() as int));
        assert(s.subrange(i + 1, s.len() as int) =~= b);
        assert(split_at_from(s, sep, start, i) =~= split_at_from(a, sep, start, i).push(b));
    }
}

/// No piece holds a separator.
pub(crate) proof fn lemma_split_free(s: Seq<char>, sep: char, start: int, i: int)
    requires
        0 <= start <= i <= s.len(),
        forall|k: int| start <= k < i ==> s[k] != sep,
    ensures
        forall|k: int|
            0 <= k < split_at_from(s, sep, start, i).len() ==> !(#[trigger] split_at_from(
                s,
                sep,
                start,
                i,
            )[k]).contains(sep),
    decreases s.len() - i,
{
    let all = split_at_from(s, sep, start, i);
    if i >= s.len() {
        let piece = s.subrange(start, s.len() as int);
        assert(all =~= seq![piece]);
        assert forall|k: int| 0 <= k < piece.len() implies piece[k] != sep by {
            assert(piece[k] == s[start + k]);
        }
    } else if s[i] == sep {
        lemma_split_free(s, sep, i + 1, i + 1);
        let rest = split_at_from(s, sep, i + 1, i + 1);
        let piece = s.subrange(start, i);
        assert(all =~= seq![piece] + rest);
        assert forall|k: int| 0 <= k < piece.len() implies piece[k] != sep by {
            assert(piece[k] == s[start + k]);
        }
        assert forall|k: int| 0 <= k < all.len() implies !(#[trigger] all[k]).contains(sep) by {
            if k > 0 {
                assert(all[k] == rest[k - 1]);
            }
        }
    } else {
        lemma_split_free(s, sep, start, i + 1);
        assert(all == split_at_from(s, sep, start, i + 1));
    }
}

pub open spec fn strip_cr(s: Seq<char>) -> Seq<char> {
    if s.len() > 0 && s.last() == '\r' {
        s.drop_last()
    } else {
        s
    }
}

pub open spec fn lines_from(s: Seq<char>, start: int, i: int) -> Seq<Seq<char>>
    decreases s.len() - i,
{
    if i >= s.len() {
        if start < s.len() {
            seq![s.subrange(start, s.len() as int)]
        } else {
            Seq::empty()
        }
    } else if s[i] == '\n' {
        seq![strip_cr(s.subrange(start, i))] + lines_from(s, i + 1, i + 1)
    } else {
        lines_from(s, start, i + 1)
    }
}

/// The lines of `s`: each ends at a line feed, which is dropped together with a
/// carriage return before it; a last line without a line feed counts.
pub open spec fn lines(s: Seq<char>) -> Seq<Seq<char>> {
    lines_from(s, 0, 0)
}

/// The parts with `sep` between them.
pub open spec fn join(parts: Seq<Seq<char>>, sep: Seq<char>) -> Seq<char>
    decreases parts.len(),
{
    if parts.len() == 0 {
        Seq::empty()
    } else if parts.len() == 1 {
        parts[0]
    } else {
        join(parts.drop_last(), sep) + sep + parts.last()
    }
}

pub fn split_chars(s: &[char], sep: char) -> (r: Vec<String>)
    ensures
        texts(r@) == split(s@, sep),
{
    let mut out: Vec<String> = Vec::new();
    let mut start: usize = 0;
    let mut i: usize = 0;
    while i < s.len()
        invariant
            start <= i <= s@.len(),
            texts(out@) + split_at_from(s@, sep, start as int, i as int) == split(s@, sep),
        decreases s@.len() - i,
    {
        if s[i] == sep {
            let piece = string_of(&s[start..i]);
            proof {
                lemma_texts_push(out@, piece);
                assert(texts(out@).push(piece@) + split_at_from(s@, sep, i + 1, i + 1)
                    =~= texts(out@) + split_at_from(s@, sep, start as int, i as int));
            }
            out.push(piece);
            start = i + 1;
        }
        i = i + 1;
    }
    let piece = string_of(&s[start..s.len()]);
    proof {
        lemma_texts_push(out@, piece);
        assert(texts(out@).push(piece@) =~= texts(out@) + seq![piece@]);
    }
    out.push(piece);
    out
}

pub fn split_text(s: &str, sep: char) -> (r: Vec<String>)
    ensures
        texts(r@) == split(s@, sep),
{
    let c = chars_of(s);
    split_chars(c.as_slice(), sep)
}

pub fn lines_text(s: &str) -> (r: Vec<String>)
    ensures
        texts(r@) == lines(s@),
{
    let c = chars_of(s);
    let v = c.as_slice();
    let mut out: Vec<String> = Vec::new();
    let mut start: usize = 0;
    let mut i: usize = 0;
    while i < v.len()
        invariant
            start <= i <= v@.len(),
            v@ == s@,
            texts(out@) + lines_from(s@, start as int, i as int) == lines(s@),
        decreases v@.len() - i,
    {
        if v[i] == '\n' {
            let end: usize = if start < i && v[i - 1] == '\r' {
                i - 1
            } else {
                i
            };
            let piece = string_of(&v[start..end]);
            proof {
                assert(piece@ =~= strip_cr(s@.subrange(start as int, i as int)));
                lemma_texts_push(out@, piece);
                assert(texts(out@).push(piece@) + lines_from(s@, i + 1, i + 1) =~= texts(out@)
                    + lines_from(s@, start as int, i as int));
            }
            out.push(piece);
            start = i + 1;
        }
        i = i + 1;
    }
    if start < v.len() {
        let piece = string_of(&v[start..v.len()]);
        proof {
            lemma_texts_push(out@, piece);
            assert(texts(out@).push(piece@) =~= texts(out@) + seq![piece@]);
        }
        out.push(piece);
    } else {
        assert(texts(out@) + Seq::<Seq<char>>::empty() =~= texts(out@));
    }
    out
}

pub fn join_texts(parts: &Vec<String>, sep: &str) -> (r: String)
    ensures
        r@ == join(texts(parts@), sep@),
{
    join_slice(parts.as_slice(), sep)
}

pub fn join_slice(parts: &[String], sep: &str) -> (r: String)
    ensures
        r@ == join(texts(parts@), sep@),
{
    let mut out = String::new();
    let mut i: usize = 0;
    while i < parts.len()
        invariant
            i <= parts@.len(),
            out@ == join(texts(parts@).take(i as int), sep@),
        decreases parts@.len() - i,
    {
        let ghost before = texts(parts@).take(i as int);
        let ghost after = texts(parts@).take(i + 1);
        assert(after.drop_last() =~= before);
        assert(after.last() == parts@[i as int]@);
        if i > 0 {
            out.append(sep);
        }
        out.append(parts[i].as_str());
        assert(out@ =~= join(after, sep@));
        i = i + 1;
    }
    assert(texts(parts@).take(parts@.len() as int) =~= texts(parts@));
    out
}

// ── Concatenation ───────────────────────────────────────────────────────

pub fn cat2(a: &str, b: &str) -> (r: String)
    ensures
        r@ == a@ + b@,
{
    let mut s = a.to_owned();
    s.append(b);
    s
}

pub fn cat3(a: &str, b: &str, c: &str) -> (r: String)
    ensures
        r@ == a@ + b@ + c@,
{
    let mut s = a.to_owned();
    s.append(b);
    s.append(c);
    s
}

pub fn cat4(a: &str, b: &str, c: &str, d: &str) -> (r: String)
    ensures
        r@ == a@ + b@ + c@ + d@,
{
    let mut s = a.to_owned();
    s.append(b);
    s.append(c);
    s.append(d);
    s
}

pub fn cat5(a: &str, b: &str, c: &str, d: &str, e: &str) -> (r: String)
    ensures
        r@ == a@ + b@ + c@ + d@ + e@,
{
    let mut s = a.to_owned();
    s.append(b);
    s.append(c);
    s.append(d);
    s.append(e);
    s
}

// ── Decimal numerals ────────────────────────────────────────────────────

/// A count as it is held: the largest number where it does not fit.
pub open spec fn held(n: nat) -> usize {
    if n <= usize::MAX {
        n as usize
    } else {
        usize::MAX
    }
}

pub open spec fn is_digit(c: char) -> bool {
    48 <= c as u32 <= 57
}

pub open spec fn digit_value(c: char) -> nat {
    (c as u32 - 48) as nat
}

pub open spec fn digit_char(d: nat) -> char {
    (48 + d) as char
}

/// The decimal numeral of `n`, without leading zeros.
pub open spec fn decimal(n: nat) -> Seq<char>
    decreases n,
{
    if n < 10 {
        seq![digit_char(n)]
    } else {
        decimal(n / 10).push(digit_char(n % 10))
    }
}

/// The number that a run of digits denotes.
pub open spec fn digits_value(s: Seq<char>) -> nat
    decreases s.len(),
{
    if s.len() == 0 {
        0
    } else {
        digits_value(s.drop_last()) * 10 + digit_value(s.last())
    }
}

pub open spec fn all_digits(s: Seq<char>) -> bool {
    forall|i: int| 0 <= i < s.len() ==> is_digit(#[trigger] s[i])
}

/// The unsigned number at most `max` that `s` denotes: digits with an optional
/// plus sign before them.
pub open spec fn parse_number(s: Seq<char>, max: nat) -> Option<nat> {
    let body = if s.len() > 0 && s[0] == '+' {
        s.skip(1)
    } else {
        s
    };
    if body.len() > 0 && all_digits(body) && digits_value(body) <= max {
        Some(digits_value(body))
    } else {
        None
    }
}

fn digit_of(d: u64) -> (c: char)
    requires
        d < 10,
    ensures
        c == digit_char(d as nat),
{
    let b: u8 = 48 + d as u8;
    b as char
}

pub fn decimal_text(n: u64) -> (r: String)
    ensures
        r@ == decimal(n as nat),
{
    decimal_wide(n as u128)
}

pub fn decimal_wide(n: u128) -> (r: String)
    ensures
        r@ == decimal(n as nat),
    decreases n,
{
    if n < 10 {
        let mut s = String::new();
        s.push(digit_of(n as u64));
        s
    } else {
        let mut s = decimal_wide(n / 10);
        s.push(digit_of((n % 10) as u64));
        s
    }
}

proof fn lemma_digits_value_monotone(s: Seq<char>, k: int)
    requires
        0 <= k <= s.len(),
    ensures
        digits_value(s.take(k)) <= digits_value(s),
    decreases s.len() - k,
{
    if k < s.len() {
        lemma_digits_value_monotone(s, k + 1);
        assert(s.take(k + 1).drop_last() =~= s.take(k));
    } else {
        assert(s.take(k) =~= s);
    }
}

pub fn parse_number_chars(s: &[char], max: u64) -> (r: Option<u64>)
    ensures
        match r {
            Some(n) => parse_number(s@, max as nat) == Some(n as nat),
            None => parse_number(s@, max as nat) is None,
        },
{
    let begin: usize = if s.len() > 0 && s[0] == '+' {
        1
    } else {
        0
    };
    let body = &s[begin..s.len()];
    if body.len() == 0 {
        return None;
    }
    let mut n: u64 = 0;
    let mut i: usize = 0;
    while i < body.len()
        invariant
            i <= body@.len(),
            forall|j: int| 0 <= j < i ==> is_digit(#[trigger] body@[j]),
            n as nat == digits_value(body@.take(i as int)),
            n <= max,
            body@ == (if s@.len() > 0 && s@[0] == '+' {
                s@.skip(1)
            } else {
                s@
            }),
        decreases body@.len() - i,
    {
        let c: u32 = body[i] as u32;
        if c < 48 || c > 57 {
            return None;
        }
        let d: u64 = (c - 48) as u64;
        proof {
            assert(body@.take(i + 1).drop_last() =~= body@.take(i as int));
            assert(digits_value(body@.take(i + 1)) == n * 10 + d);
            lemma_digits_value_monotone(body@, i + 1);
        }
        if d > max || n > max / 10 || n * 10 > max - d {
            return None;
        }
        n = n * 10 + d;
        i = i + 1;
    }
    assert(body@.take(body@.len() as int) =~= body@);
    Some(n)
}

pub(crate) proof fn lemma_decimal_digits(n: nat)
    ensures
        decimal(n).len() > 0,
        all_digits(decimal(n)),
        digits_value(decimal(n)) == n,
    decreases n,
{
    if n < 10 {
        assert(decimal(n).drop_last() =~= Seq::empty());
        assert(decimal(n).last() == digit_char(n));
        assert(digits_value(Seq::<char>::empty()) == 0);
    } else {
        lemma_decimal_digits(n / 10);
        assert(decimal(n).drop_last() =~= decimal(n / 10));
    }
}

/// Reading a number's own numeral gives the number back.
pub proof fn parse_of_decimal(n: nat, max: nat)
    requires
        n <= max,
    ensures
        parse_number(decimal(n), max) == Some(n),
{
    lemma_decimal_digits(n);
    assert(is_digit(decimal(n)[0]));
}

// ── Items of joined sequences ───────────────────────────────────────────

pub(crate) proof fn lemma_in_either<A>(a: Seq<A>, b: Seq<A>, x: A)
    ensures
        (a + b).contains(x) <==> a.contains(x) || b.contains(x),
{
    if a.contains(x) {
        let k = choose|k: int| 0 <= k < a.len() && a[k] == x;
        assert((a + b)[k] == x);
    }
    if b.contains(x) {
        let k = choose|k: int| 0 <= k < b.len() && b[k] == x;
        assert((a + b)[a.len() + k] == x);
    }
    if (a + b).contains(x) {
        let k = choose|k: int| 0 <= k < (a + b).len() && (a + b)[k] == x;
        if k < a.len() {
            assert(a[k] == x);
        } else {
            assert(b[k - a.len()] == x);
        }
    }
}

pub(crate) proof fn lemma_in_pushed<A>(a: Seq<A>, y: A, x: A)
    ensures
        a.push(y).contains(x) <==> a.contains(x) || x == y,
{
    lemma_in_either(a, seq![y], x);
    assert(a + seq![y] =~= a.push(y));
    assert(seq![y][0] == y);
}

pub(crate) proof fn lemma_stands_in(before: Seq<char>, part: Seq<char>, after: Seq<char>)
    ensures
        contains(before + part + after, part),
{
    let s = before + part + after;
    contains_iff_occurs(s, part);
    let at = before.len() as int;
    assert(s.subrange(at, at + part.len()) =~= part);
    assert(occurs_at(s, part, at));
}

pub(crate) proof fn lemma_stands_in_more(
    before: Seq<char>,
    s: Seq<char>,
    after: Seq<char>,
    part: Seq<char>,
)
    requires
        contains(s, part),
    ensures
        contains(before + s + after, part),
{
    let t = before + s + after;
    contains_iff_occurs(s, part);
    contains_iff_occurs(t, part);
    let i = choose|i: int| occurs_at(s, part, i);
    assert(t.subrange(before.len() + i, before.len() + i + part.len()) =~= part);
    assert(occurs_at(t, part, before.len() + i));
}

/// Each part stands in the joined text.
pub proof fn joined_texts_hold_their_parts(parts: Seq<Seq<char>>, sep: Seq<char>, i: int)
    requires
        0 <= i < parts.len(),
    ensures
        contains(join(parts, sep), parts[i]),
    decreases parts.len(),
{
    let none = Seq::<char>::empty();
    if parts.len() == 1 {
        lemma_stands_in(none, parts[0], none);
        assert(none + parts[0] + none =~= join(parts, sep));
    } else if i == parts.len() - 1 {
        let before = join(parts.drop_last(), sep) + sep;
        lemma_stands_in(before, parts[i], none);
        assert(before + parts[i] + none =~= join(parts, sep));
    } else {
        let before = join(parts.drop_last(), sep);
        joined_texts_hold_their_parts(parts.drop_last(), sep, i);
        assert(parts.drop_last()[i] == parts[i]);
        lemma_stands_in_more(none, before, sep + parts.last(), parts[i]);
        assert(none + before + (sep + parts.last()) =~= join(parts, sep));
    }
}

pub(crate) proof fn lemma_stands_last(s: Seq<char>, part: Seq<char>)
    ensures
        contains(s + part, part),
{
    lemma_stands_in(s, part, Seq::empty());
    assert(s + part + Seq::<char>::empty() =~= s + part);
}

pub(crate) proof fn lemma_stands_before(s: Seq<char>, more: Seq<char>, part: Seq<char>)
    requires
        contains(s, part),
    ensures
        contains(s + more, part),
{
    lemma_stands_in_more(Seq::empty(), s, more, part);
    assert(Seq::<char>::empty() + s + more =~= s + more);
}

pub(crate) proof fn lemma_part_of_part(a: Seq<char>, b: Seq<char>, c: Seq<char>)
    requires
        contains(a, b),
        contains(b, c),
    ensures
        contains(a, c),
{
    contains_iff_occurs(a, b);
    let i = choose|i: int| occurs_at(a, b, i);
    let front = a.take(i);
    let back = a.skip(i + b.len());
    assert(a.subrange(i, i + b.len()) == b);
    assert(front + b + back =~= a);
    lemma_stands_in_more(front, b, back, c);
}

// ── Laws of texts ───────────────────────────────────────────────────────

/// Trimming drops the white space around a text and nothing else.
pub proof fn blanks_around_are_dropped(before: Seq<char>, s: Seq<char>, after: Seq<char>)
    requires
        forall|i: int| 0 <= i < before.len() ==> is_white(#[trigger] before[i]),
        forall|i: int| 0 <= i < after.len() ==> is_white(#[trigger] after[i]),
        s.len() > 0 ==> !is_white(s[0]) && !is_white(s.last()),
    ensures
        trim(before + s + after) == s,
        trim_start(before + s + after) == (if s.len() > 0 {
            s + after
        } else {
            Seq::empty()
        }),
    decreases before.len() + after.len(),
{
    let all = before + s + after;
    if before.len() > 0 {
        assert(all[0] == before[0]);
        assert(all.skip(1) =~= before.skip(1) + s + after);
        blanks_around_are_dropped(before.skip(1), s, after);
    } else if s.len() > 0 {
        assert(all =~= s + after);
        assert(all[0] == s[0]);
        lemma_trim_tail(s, after);
    } else if after.len() > 0 {
        assert(all =~= after);
        assert(all.skip(1) =~= before + s + after.skip(1));
        assert(after[0] == all[0]);
        blanks_around_are_dropped(before, s, after.skip(1));
    } else {
        assert(all =~= Seq::empty());
    }
}

proof fn lemma_trim_tail(s: Seq<char>, after: Seq<char>)
    requires
        forall|i: int| 0 <= i < after.len() ==> is_white(#[trigger] after[i]),
        s.len() > 0,
        !is_white(s.last()),
    ensures
        trim_end(s + after) == s,
    decreases after.len(),
{
    let all = s + after;
    if after.len() > 0 {
        assert(all.last() == after[after.len() - 1]);
        assert(all.drop_last() =~= s + after.drop_last());
        lemma_trim_tail(s, after.drop_last());
    } else {
        assert(all =~= s);
    }
}

/// Splitting takes apart what was joined with the separator.
pub proof fn joined_texts_are_split_again(parts: Seq<Seq<char>>, sep: char)
    requires
        parts.len() > 0,
        forall|i: int| 0 <= i < parts.len() ==> !(#[trigger] parts[i]).contains(sep),
    ensures
        split(join(parts, seq![sep]), sep) == parts,
    decreases parts.len(),
{
    if parts.len() == 1 {
        let only = parts[0];
        assert forall|k: int| 0 <= k < only.len() implies only[k] != sep by {
            assert(only.contains(only[k]));
        }
        lemma_split_one(only, sep, 0, 0);
        assert(only.subrange(0, only.len() as int) =~= only);
        assert(seq![only] =~= parts);
    } else {
        let rest = parts.drop_last();
        assert forall|i: int| 0 <= i < rest.len() implies !(#[trigger] rest[i]).contains(sep) by {
            assert(rest[i] == parts[i]);
        }
        joined_texts_are_split_again(rest, sep);
        assert(parts[parts.len() - 1] == parts.last());
        lemma_split_last(join(rest, seq![sep]), sep, parts.last(), 0, 0);
        assert(rest.push(parts.last()) =~= parts);
    }
}

/// A line ends at its line feed, and a carriage return before that is not part of it; what
/// follows is read on its own. A last line needs no line feed.
pub proof fn lines_end_at_line_feeds(line: Seq<char>, rest: Seq<char>)
    requires
        !line.contains('\n'),
    ensures
        line.len() == 0 || line.last() != '\r' ==> lines(line + seq!['\n'] + rest) == seq![line]
            + lines(rest),
        lines(line + seq!['\r', '\n'] + rest) == seq![line] + lines(rest),
        line.len() > 0 ==> lines(line) == seq![line],
        lines(Seq::empty()).len() == 0,
{
    assert forall|k: int| 0 <= k < line.len() implies line[k] != '\n' by {
        assert(line.contains(line[k]));
    }
    lemma_first_line(line, rest);
    let returned = line.push('\r');
    lemma_first_line(returned, rest);
    assert(returned + seq!['\n'] + rest =~= line + seq!['\r', '\n'] + rest);
    assert(returned.drop_last() =~= line);
    if line.len() > 0 {
        lemma_last_line(line, 0, 0);
        assert(line.subrange(0, line.len() as int) =~= line);
    }
}

proof fn lemma_last_line(s: Seq<char>, start: int, i: int)
    requires
        0 <= start <= i <= s.len(),
        forall|k: int| i <= k < s.len() ==> s[k] != '\n',
        start < s.len(),
    ensures
        lines_from(s, start, i) == seq![s.subrange(start, s.len() as int)],
    decreases s.len() - i,
{
    if i < s.len() {
        lemma_last_line(s, start, i + 1);
    }
}

proof fn lemma_first_line(line: Seq<char>, rest: Seq<char>)
    requires
        forall|k: int| 0 <= k < line.len() ==> line[k] != '\n',
    ensures
        lines(line + seq!['\n'] + rest) == seq![strip_cr(line)] + lines(rest),
{
    let s = line + seq!['\n'] + rest;
    lemma_up_to_line_feed(s, 0, line.len() as int);
    assert(s.subrange(0, line.len() as int) =~= line);
    let next: int = line.len() as int + 1;
    lemma_lines_shifted(s, next, next);
    assert(lines_from(s.skip(next), next - next, next - next) == lines_from(s, next, next));
    assert(s.skip(next) =~= rest);
}

proof fn lemma_up_to_line_feed(s: Seq<char>, i: int, at: int)
    requires
        0 <= i <= at < s.len(),
        s[at] == '\n',
        forall|k: int| i <= k < at ==> s[k] != '\n',
    ensures
        lines_from(s, 0, i) == seq![strip_cr(s.subrange(0, at))] + lines_from(s, at + 1, at + 1),
    decreases at - i,
{
    if i < at {
        lemma_up_to_line_feed(s, i + 1, at);
    }
}

proof fn lemma_lines_shifted(s: Seq<char>, start: int, i: int)
    requires
        0 <= start <= i <= s.len(),
    ensures
        forall|cut: int|
            0 <= cut <= start ==> #[trigger] lines_from(s.skip(cut), start - cut, i - cut)
                == lines_from(s, start, i),
    decreases s.len() - i,
{
    assert forall|cut: int| 0 <= cut <= start implies #[trigger] lines_from(
        s.skip(cut),
        start - cut,
        i - cut,
    ) == lines_from(s, start, i) by {
        let t = s.skip(cut);
        if i < s.len() {
            assert(t[i - cut] == s[i]);
            if s[i] == '\n' {
                lemma_lines_shifted(s, i + 1, i + 1);
                assert(lines_from(t, i + 1 - cut, i + 1 - cut) == lines_from(s, i + 1, i + 1));
                assert(t.subrange(start - cut, i - cut) =~= s.subrange(start, i));
            } else {
                lemma_lines_shifted(s, start, i + 1);
                assert(lines_from(t, start - cut, i + 1 - cut) == lines_from(s, start, i + 1));
            }
        } else if start < s.len() {
            assert(t.subrange(start - cut, t.len() as int) =~= s.subrange(
                start,
                s.len() as int,
            ));
        }
    }
}

/// What lies between two byte offsets is the text that stands there.
pub proof fn texts_lie_between_their_bytes(before: Seq<char>, s: Seq<char>, after: Seq<char>)
    ensures
        ({
            let start = utf8(before).len() as int;
            let end = start + utf8(s).len();
            text_between(before + s + after, start, end) == s && byte_slice(
                before + s + after,
                start,
                end,
            ) == Some(s)
        }),
{
    let all = before + s + after;
    assert(all =~= before + (s + after));
    lemma_index_behind(before, s + after, 0);
    lemma_index_behind(before + s, after, 0);
    lemma_utf8_joined(before, s);
    assert(before.skip(0) =~= before);
    assert((before + s).skip(0) =~= before + s);
    assert(all.subrange(before.len() as int, (before + s).len() as int) =~= s);
}

proof fn lemma_index_behind(s: Seq<char>, rest: Seq<char>, i: int)
    requires
        0 <= i <= s.len(),
    ensures
        index_after_bytes(s + rest, i, utf8(s.skip(i)).len() as int) == Some(s.len() as int),
    decreases s.len() - i,
{
    let t = s.skip(i);
    if i < s.len() {
        assert(t[0] == s[i] && (s + rest)[i] == s[i]);
        assert(t.drop_first() =~= s.skip(i + 1));
        lemma_width(s[i]);
        lemma_index_behind(s, rest, i + 1);
        assert(utf8(t).len() == char_width(s[i]) + utf8(s.skip(i + 1)).len());
    } else {
        assert(utf8(t).len() == 0);
    }
}

pub proof fn lemma_width(c: char)
    ensures
        vstd::utf8::encode_scalar(c as u32).len() == char_width(c),
        char_width(c) > 0,
{
    vstd::utf8::char_is_scalar(c);
}

pub proof fn lemma_utf8_joined(a: Seq<char>, b: Seq<char>)
    ensures
        utf8(a + b).len() == utf8(a).len() + utf8(b).len(),
    decreases a.len(),
{
    if a.len() == 0 {
        assert(a + b =~= b);
    } else {
        lemma_utf8_joined(a.drop_first(), b);
        assert((a + b).drop_first() =~= a.drop_first() + b);
        assert((a + b)[0] == a[0]);
    }
}

/// The last position of a text, if any, is one where it stands, and none is behind it.
pub proof fn the_last_place_is_found(s: Seq<char>, needle: Seq<char>, upto: int)
    ensures
        rfind_from(s, needle, upto) matches Some(p) ==> 0 <= p <= upto && occurs_at(s, needle, p)
            && forall|q: int| p < q <= upto ==> !occurs_at(s, needle, q),
        rfind_from(s, needle, upto) is None ==> forall|q: int|
            q <= upto ==> !occurs_at(s, needle, q),
    decreases upto + 1,
{
    if upto >= 0 && !occurs_at(s, needle, upto) {
        the_last_place_is_found(s, needle, upto - 1);
    }
}

/// A number is read from digits alone: whatever else stands in a text, but for a plus sign at
/// its beginning, makes it none.
pub proof fn numbers_are_digits(s: Seq<char>, max: nat)
    ensures
        parse_number(s, max) matches Some(n) ==> n <= max && forall|i: int|
            0 <= i < s.len() ==> 48 <= (#[trigger] s[i]) as u32 <= 57 || (i == 0 && s[i] == '+'),
        s.len() == 0 ==> parse_number(s, max) is None,
{
    if parse_number(s, max) is Some {
        let body = if s.len() > 0 && s[0] == '+' {
            s.skip(1)
        } else {
            s
        };
        assert forall|i: int| 0 <= i < s.len() implies 48 <= (#[trigger] s[i]) as u32 <= 57 || (i
            == 0 && s[i] == '+') by {
            if s[0] == '+' {
                if i > 0 {
                    assert(body[i - 1] == s[i]);
                    assert(is_digit(s[i]));
                }
            } else {
                assert(body[i] == s[i]);
                assert(is_digit(s[i]));
            }
        }
    }
}

} // verus!
