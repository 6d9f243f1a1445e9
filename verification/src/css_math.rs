//! Math functions in stylesheets, such as `calc(100% - 1px)`.
//!
//! Nothing that is searched for in a stylesheet depends on them, and the parser of
//! stylesheets does not bear all of them: where only a percentage may stand, it panics
//! on `calc(1)`. A stylesheet is therefore parsed with a zero in place of each of them,
//! and with blanks behind it, so that every rule begins on its line.

use crate::text::{chars_of, list_contains, same_text, string_of, texts};
use vstd::prelude::*;

verus! {

// ── Reading a stylesheet ────────────────────────────────────────────────

/// The functions that compute a value.
pub open spec fn math_names() -> Seq<Seq<char>> {
    seq![
        "calc"@,
        "min"@,
        "max"@,
        "clamp"@,
        "round"@,
        "rem"@,
        "mod"@,
        "sin"@,
        "cos"@,
        "tan"@,
        "asin"@,
        "acos"@,
        "atan"@,
        "atan2"@,
        "pow"@,
        "log"@,
        "sqrt"@,
        "exp"@,
        "hypot"@,
        "abs"@,
        "sign"@,
    ]
}

pub open spec fn lower(c: char) -> char {
    if 'A' <= c <= 'Z' {
        ((c as u32 + 32) as u8) as char
    } else {
        c
    }
}

/// A name in lower case.
pub open spec fn lowered(s: Seq<char>) -> Seq<char> {
    Seq::new(s.len(), |i: int| lower(s[i]))
}

pub open spec fn is_css_newline(c: char) -> bool {
    c == '\n' || c == '\r' || c == '\u{c}'
}

pub open spec fn is_css_white(c: char) -> bool {
    c == ' ' || c == '\t' || is_css_newline(c)
}

pub open spec fn is_hex(c: char) -> bool {
    ('0' <= c <= '9') || ('a' <= c <= 'f') || ('A' <= c <= 'F')
}

/// Whether a character can be part of a name.
pub open spec fn is_css_name(c: char) -> bool {
    ('a' <= c <= 'z') || ('A' <= c <= 'Z') || ('0' <= c <= '9') || c == '-' || c == '_' || c == '\0'
        || c as u32 >= 128
}

/// What a reader is inside of.
#[derive(Debug, Clone, Copy, PartialEq, Eq, Structural)]
pub enum CssPlace {
    Name,
    /// A string, with the quote that ends it.
    Text(char),
    /// A URL without quotes.
    Url,
}

/// Where in a stylesheet a reader stands.
#[derive(Debug, Clone, Copy, PartialEq, Eq, Structural)]
pub enum CssMode {
    Plain,
    /// Behind a slash that may begin a comment.
    Slash,
    Comment,
    /// In a comment, behind an asterisk.
    Star,
    /// Behind `<`.
    Less,
    /// Behind `<!`.
    Bang,
    /// Behind `<!-`.
    BangDash,
    Inside(CssPlace),
    /// Behind a backslash.
    Escape(CssPlace),
    /// Behind a backslash and this many digits of a code point.
    Hex(CssPlace, u8),
    /// Behind a carriage return that belongs to an escape.
    Return(CssPlace),
    /// Behind `url(`.
    UrlOpen,
    /// In the white space behind a URL.
    UrlEnd,
    /// In a URL that is not a right one, up to its bracket.
    UrlBad,
    UrlBadEscape,
}

/// A reader of a stylesheet.
pub ghost struct CssScan {
    pub mode: CssMode,
    /// Where the name begins that the reader is in.
    pub start: int,
    /// Whether there is an escape in that name.
    pub escaped: bool,
}

pub open spec fn css_start() -> CssScan {
    CssScan { mode: CssMode::Plain, start: 0, escaped: false }
}

/// The reader behind the character at place `i`, which is part of nothing that began
/// before it.
pub open spec fn plain_step(c: char, i: int) -> CssScan {
    let mode = if c == '/' {
        CssMode::Slash
    } else if c == '<' {
        CssMode::Less
    } else if c == '\'' || c == '"' {
        CssMode::Inside(CssPlace::Text(c))
    } else if c == '\\' {
        CssMode::Escape(CssPlace::Name)
    } else if is_css_name(c) {
        CssMode::Inside(CssPlace::Name)
    } else {
        CssMode::Plain
    };
    CssScan { mode, start: i, escaped: c == '\\' }
}

/// Whether the name from `start` to `end` opens a URL when a bracket follows. One behind
/// a number sign or an at sign does not.
pub open spec fn opens_url(s: Seq<char>, start: int, end: int) -> bool {
    lowered(s.subrange(start, end)) == "url"@ && !(0 < start && (s[start - 1] == '#' || s[start - 1]
        == '@'))
}

/// Whether a character makes a URL without quotes a wrong one.
pub open spec fn spoils_url(c: char) -> bool {
    let n = c as u32;
    c == '\'' || c == '"' || c == '(' || 1 <= n <= 8 || n == 11 || 14 <= n <= 31 || n == 127
}

/// The reader behind the character at place `i` that stands in a name, a string or a URL
/// or ends it.
pub open spec fn inside_step(s: Seq<char>, scan: CssScan, place: CssPlace, i: int) -> CssScan {
    let c = s[i];
    match place {
        CssPlace::Name => if c == '\\' {
            CssScan { mode: CssMode::Escape(place), escaped: true, ..scan }
        } else if is_css_name(c) {
            CssScan { mode: CssMode::Inside(place), ..scan }
        } else if c == '(' && opens_url(s, scan.start, i) {
            CssScan { mode: CssMode::UrlOpen, ..scan }
        } else {
            plain_step(c, i)
        },
        CssPlace::Text(quote) => CssScan {
            mode: if c == quote || is_css_newline(c) {
                CssMode::Plain
            } else if c == '\\' {
                CssMode::Escape(place)
            } else {
                CssMode::Inside(place)
            },
            ..scan
        },
        CssPlace::Url => CssScan {
            mode: if c == ')' {
                CssMode::Plain
            } else if c == '\\' {
                CssMode::Escape(place)
            } else if is_css_white(c) {
                CssMode::UrlEnd
            } else if spoils_url(c) {
                CssMode::UrlBad
            } else {
                CssMode::Inside(place)
            },
            ..scan
        },
    }
}

/// Where a reader stands behind a backslash and the line end `c`: only a string goes on.
pub open spec fn broken_escape(place: CssPlace, c: char) -> CssMode {
    match place {
        CssPlace::Name => CssMode::Plain,
        CssPlace::Text(_) => if c == '\r' {
            CssMode::Return(place)
        } else {
            CssMode::Inside(place)
        },
        CssPlace::Url => CssMode::UrlBad,
    }
}

/// The reader behind the character at place `i`.
pub open spec fn css_step(s: Seq<char>, scan: CssScan, i: int) -> CssScan {
    let c = s[i];
    match scan.mode {
        CssMode::Plain => plain_step(c, i),
        CssMode::Slash => if c == '*' {
            CssScan { mode: CssMode::Comment, ..scan }
        } else {
            plain_step(c, i)
        },
        CssMode::Comment => if c == '*' {
            CssScan { mode: CssMode::Star, ..scan }
        } else {
            scan
        },
        CssMode::Star => if c == '/' {
            CssScan { mode: CssMode::Plain, ..scan }
        } else if c == '*' {
            scan
        } else {
            CssScan { mode: CssMode::Comment, ..scan }
        },
        CssMode::Less => if c == '!' {
            CssScan { mode: CssMode::Bang, ..scan }
        } else {
            plain_step(c, i)
        },
        CssMode::Bang => if c == '-' {
            CssScan { mode: CssMode::BangDash, start: i, escaped: false }
        } else {
            plain_step(c, i)
        },
        CssMode::BangDash => if c == '-' {
            CssScan { mode: CssMode::Plain, ..scan }
        } else {
            inside_step(s, scan, CssPlace::Name, i)
        },
        CssMode::Inside(place) => inside_step(s, scan, place, i),
        CssMode::Escape(place) => if is_css_newline(c) {
            CssScan { mode: broken_escape(place, c), ..scan }
        } else if is_hex(c) {
            CssScan { mode: CssMode::Hex(place, 1), ..scan }
        } else {
            CssScan { mode: CssMode::Inside(place), ..scan }
        },
        CssMode::Hex(place, n) => if is_hex(c) && n < 6 {
            CssScan { mode: CssMode::Hex(place, (n + 1) as u8), ..scan }
        } else if c == '\r' {
            CssScan { mode: CssMode::Return(place), ..scan }
        } else if is_css_white(c) {
            CssScan { mode: CssMode::Inside(place), ..scan }
        } else {
            inside_step(s, scan, place, i)
        },
        CssMode::Return(place) => if c == '\n' {
            CssScan { mode: CssMode::Inside(place), ..scan }
        } else {
            inside_step(s, scan, place, i)
        },
        CssMode::UrlOpen => if is_css_white(c) {
            scan
        } else if c == '\'' || c == '"' {
            plain_step(c, i)
        } else {
            inside_step(s, scan, CssPlace::Url, i)
        },
        CssMode::UrlEnd => if is_css_white(c) {
            scan
        } else if c == ')' {
            CssScan { mode: CssMode::Plain, ..scan }
        } else {
            CssScan { mode: CssMode::UrlBad, ..scan }
        },
        CssMode::UrlBad => if c == ')' {
            CssScan { mode: CssMode::Plain, ..scan }
        } else if c == '\\' {
            CssScan { mode: CssMode::UrlBadEscape, ..scan }
        } else {
            scan
        },
        CssMode::UrlBadEscape => CssScan { mode: CssMode::UrlBad, ..scan },
    }
}

/// Whether a reader is in a name that the next character may end.
pub open spec fn in_name(mode: CssMode) -> bool {
    match mode {
        CssMode::Inside(place) => place is Name,
        CssMode::Hex(place, _) => place is Name,
        CssMode::Return(place) => place is Name,
        _ => false,
    }
}

/// Whether a reader is where brackets count.
pub open spec fn counts_brackets(mode: CssMode) -> bool {
    mode is Plain || mode is Slash || mode is Less || mode is Bang || mode is BangDash || in_name(
        mode,
    )
}

// ── Finding math functions ──────────────────────────────────────────────

pub ghost enum MathSearch {
    /// There is none.
    Absent,
    /// The name of a function is written with escapes, and is not made out.
    Escaped,
    /// The name of one begins at the first place, and its bracket stands at the second.
    At(int, int),
}

/// The first math function that a reader comes upon from place `i` on.
pub open spec fn first_math(s: Seq<char>, i: int, scan: CssScan) -> MathSearch
    decreases s.len() - i,
{
    if i < 0 || i >= s.len() {
        MathSearch::Absent
    } else if s[i] == '(' && in_name(scan.mode) && scan.escaped {
        MathSearch::Escaped
    } else if s[i] == '(' && in_name(scan.mode) && math_names().contains(
        lowered(s.subrange(scan.start, i)),
    ) {
        MathSearch::At(scan.start, i)
    } else {
        first_math(s, i + 1, css_step(s, scan, i))
    }
}

/// Whether a stylesheet has no math function, nor a function whose name is written with
/// escapes.
pub open spec fn math_free(s: Seq<char>) -> bool {
    first_math(s, 0, css_start()) is Absent
}

/// Where a call ends that goes on at place `i` with `depth` brackets open: behind its
/// closing bracket. There is no end where a declaration or a block ends first.
pub open spec fn call_end(s: Seq<char>, i: int, scan: CssScan, depth: nat) -> Option<int>
    decreases s.len() - i,
{
    if i < 0 || i >= s.len() {
        None
    } else if counts_brackets(scan.mode) && (s[i] == '{' || s[i] == '}' || s[i] == ';') {
        None
    } else if counts_brackets(scan.mode) && s[i] == ')' {
        if depth <= 1 {
            Some(i + 1)
        } else {
            call_end(s, i + 1, css_step(s, scan, i), (depth - 1) as nat)
        }
    } else if counts_brackets(scan.mode) && s[i] == '(' && !(css_step(s, scan, i).mode is UrlOpen) {
        call_end(s, i + 1, css_step(s, scan, i), depth + 1)
    } else {
        call_end(s, i + 1, css_step(s, scan, i), depth)
    }
}

/// Blanks in place of a text, on as many lines.
pub open spec fn blanks(s: Seq<char>) -> Seq<char> {
    Seq::new(
        s.len(),
        |i: int|
            if is_css_newline(s[i]) {
                s[i]
            } else {
                ' '
            },
    )
}

/// A zero in place of a call, with blanks behind it.
pub open spec fn zeroed(call: Seq<char>) -> Seq<char> {
    seq!['0'] + blanks(call.skip(1))
}

/// A stylesheet from place `from` on, with a zero in place of each math function.
/// Nothing where a call has no end, or where the name of a function is written with
/// escapes.
pub open spec fn without_math(s: Seq<char>, from: int) -> Option<Seq<char>>
    decreases s.len() - from,
{
    match first_math(s, from, css_start()) {
        MathSearch::Absent => Some(s.skip(from)),
        MathSearch::Escaped => None,
        MathSearch::At(start, open) => match call_end(s, open + 1, css_start(), 1) {
            Some(end) => if from <= start < end <= s.len() && from < end {
                match without_math(s, end) {
                    Some(rest) => Some(s.subrange(from, start) + zeroed(s.subrange(start, end)) + rest),
                    None => None,
                }
            } else {
                None
            },
            None => None,
        },
    }
}

/// The text of a stylesheet as it is parsed, where it can be.
pub open spec fn plain_sheet(s: Seq<char>) -> Option<Seq<char>> {
    match without_math(s, 0) {
        Some(t) => if math_free(t) {
            Some(t)
        } else {
            None
        },
        None => None,
    }
}

// ── The same, computed ──────────────────────────────────────────────────

fn to_lower(c: char) -> (r: char)
    ensures
        r == lower(c),
{
    if 'A' <= c && c <= 'Z' {
        let n: u8 = (c as u32 + 32) as u8;
        n as char
    } else {
        c
    }
}

fn newline(c: char) -> (r: bool)
    ensures
        r == is_css_newline(c),
{
    c == '\n' || c == '\r' || c == '\u{c}'
}

fn css_white(c: char) -> (r: bool)
    ensures
        r == is_css_white(c),
{
    c == ' ' || c == '\t' || newline(c)
}

fn hex(c: char) -> (r: bool)
    ensures
        r == is_hex(c),
{
    ('0' <= c && c <= '9') || ('a' <= c && c <= 'f') || ('A' <= c && c <= 'F')
}

fn url_spoiler(c: char) -> (r: bool)
    ensures
        r == spoils_url(c),
{
    let n: u32 = c as u32;
    c == '\'' || c == '"' || c == '(' || (1 <= n && n <= 8) || n == 11 || (14 <= n && n <= 31) || n
        == 127
}

fn css_name(c: char) -> (r: bool)
    ensures
        r == is_css_name(c),
{
    ('a' <= c && c <= 'z') || ('A' <= c && c <= 'Z') || ('0' <= c && c <= '9') || c == '-' || c
        == '_' || c == '\0' || c as u32 >= 128
}

struct Reader {
    mode: CssMode,
    start: usize,
    escaped: bool,
}

impl Reader {
    spec fn view(&self) -> CssScan {
        CssScan { mode: self.mode, start: self.start as int, escaped: self.escaped }
    }

    fn new() -> (r: Reader)
        ensures
            r@ == css_start(),
    {
        Reader { mode: CssMode::Plain, start: 0, escaped: false }
    }

    fn in_name(&self) -> (r: bool)
        ensures
            r == in_name(self@.mode),
    {
        match self.mode {
            CssMode::Inside(CssPlace::Name) => true,
            CssMode::Hex(CssPlace::Name, _) => true,
            CssMode::Return(CssPlace::Name) => true,
            _ => false,
        }
    }

    fn counts_brackets(&self) -> (r: bool)
        ensures
            r == counts_brackets(self@.mode),
    {
        match self.mode {
            CssMode::Plain => true,
            CssMode::Slash => true,
            CssMode::Less => true,
            CssMode::Bang => true,
            CssMode::BangDash => true,
            _ => self.in_name(),
        }
    }

    fn plain_step(c: char, i: usize) -> (r: Reader)
        ensures
            r@ == plain_step(c, i as int),
    {
        let mode = if c == '/' {
            CssMode::Slash
        } else if c == '<' {
            CssMode::Less
        } else if c == '\'' || c == '"' {
            CssMode::Inside(CssPlace::Text(c))
        } else if c == '\\' {
            CssMode::Escape(CssPlace::Name)
        } else if css_name(c) {
            CssMode::Inside(CssPlace::Name)
        } else {
            CssMode::Plain
        };
        Reader { mode, start: i, escaped: c == '\\' }
    }

    fn turn(&self, mode: CssMode) -> (r: Reader)
        ensures
            r@ == (CssScan { mode, ..self@ }),
    {
        Reader { mode, start: self.start, escaped: self.escaped }
    }

    fn inside_step(&self, s: &Vec<char>, place: CssPlace, i: usize) -> (r: Reader)
        requires
            i < s@.len(),
            self.start <= i,
        ensures
            r@ == inside_step(s@, self@, place, i as int),
            r.start <= i,
    {
        let c: char = s[i];
        match place {
            CssPlace::Name => if c == '\\' {
                Reader { mode: CssMode::Escape(place), start: self.start, escaped: true }
            } else if css_name(c) {
                self.turn(CssMode::Inside(place))
            } else if c == '(' && name_opens_url(s, self.start, i) {
                self.turn(CssMode::UrlOpen)
            } else {
                Reader::plain_step(c, i)
            },
            CssPlace::Text(quote) => if c == quote || newline(c) {
                self.turn(CssMode::Plain)
            } else if c == '\\' {
                self.turn(CssMode::Escape(place))
            } else {
                self.turn(CssMode::Inside(place))
            },
            CssPlace::Url => if c == ')' {
                self.turn(CssMode::Plain)
            } else if c == '\\' {
                self.turn(CssMode::Escape(place))
            } else if css_white(c) {
                self.turn(CssMode::UrlEnd)
            } else if url_spoiler(c) {
                self.turn(CssMode::UrlBad)
            } else {
                self.turn(CssMode::Inside(place))
            },
        }
    }

    /// The step behind a backslash.
    fn escape_step(&self, place: CssPlace, c: char) -> (r: Reader)
        ensures
            r@ == (if is_css_newline(c) {
                CssScan { mode: broken_escape(place, c), ..self@ }
            } else if is_hex(c) {
                CssScan { mode: CssMode::Hex(place, 1), ..self@ }
            } else {
                CssScan { mode: CssMode::Inside(place), ..self@ }
            }),
    {
        if newline(c) {
            match place {
                CssPlace::Name => self.turn(CssMode::Plain),
                CssPlace::Text(_) => if c == '\r' {
                    self.turn(CssMode::Return(place))
                } else {
                    self.turn(CssMode::Inside(place))
                },
                CssPlace::Url => self.turn(CssMode::UrlBad),
            }
        } else if hex(c) {
            self.turn(CssMode::Hex(place, 1))
        } else {
            self.turn(CssMode::Inside(place))
        }
    }

    fn step(&self, s: &Vec<char>, i: usize) -> (r: Reader)
        requires
            i < s@.len(),
            self.start <= i,
        ensures
            r@ == css_step(s@, self@, i as int),
            r.start <= i,
    {
        let c: char = s[i];
        match self.mode {
            CssMode::Plain => Reader::plain_step(c, i),
            CssMode::Slash => if c == '*' {
                self.turn(CssMode::Comment)
            } else {
                Reader::plain_step(c, i)
            },
            CssMode::Comment => if c == '*' {
                self.turn(CssMode::Star)
            } else {
                self.turn(CssMode::Comment)
            },
            CssMode::Star => if c == '/' {
                self.turn(CssMode::Plain)
            } else if c == '*' {
                self.turn(CssMode::Star)
            } else {
                self.turn(CssMode::Comment)
            },
            CssMode::Less => if c == '!' {
                self.turn(CssMode::Bang)
            } else {
                Reader::plain_step(c, i)
            },
            CssMode::Bang => if c == '-' {
                Reader { mode: CssMode::BangDash, start: i, escaped: false }
            } else {
                Reader::plain_step(c, i)
            },
            CssMode::BangDash => if c == '-' {
                self.turn(CssMode::Plain)
            } else {
                self.inside_step(s, CssPlace::Name, i)
            },
            CssMode::Inside(place) => self.inside_step(s, place, i),
            CssMode::Escape(place) => self.escape_step(place, c),
            CssMode::Hex(place, n) => if hex(c) && n < 6 {
                self.turn(CssMode::Hex(place, n + 1))
            } else if c == '\r' {
                self.turn(CssMode::Return(place))
            } else if css_white(c) {
                self.turn(CssMode::Inside(place))
            } else {
                self.inside_step(s, place, i)
            },
            CssMode::Return(place) => if c == '\n' {
                self.turn(CssMode::Inside(place))
            } else {
                self.inside_step(s, place, i)
            },
            CssMode::UrlOpen => if css_white(c) {
                self.turn(CssMode::UrlOpen)
            } else if c == '\'' || c == '"' {
                Reader::plain_step(c, i)
            } else {
                self.inside_step(s, CssPlace::Url, i)
            },
            CssMode::UrlEnd => if css_white(c) {
                self.turn(CssMode::UrlEnd)
            } else if c == ')' {
                self.turn(CssMode::Plain)
            } else {
                self.turn(CssMode::UrlBad)
            },
            CssMode::UrlBad => if c == ')' {
                self.turn(CssMode::Plain)
            } else if c == '\\' {
                self.turn(CssMode::UrlBadEscape)
            } else {
                self.turn(CssMode::UrlBad)
            },
            CssMode::UrlBadEscape => self.turn(CssMode::UrlBad),
        }
    }
}

/// The name from `start` to `end`, in lower case.
fn lower_name(s: &Vec<char>, start: usize, end: usize) -> (r: String)
    requires
        start <= end <= s@.len(),
    ensures
        r@ == lowered(s@.subrange(start as int, end as int)),
{
    let mut out: Vec<char> = Vec::new();
    let mut i: usize = start;
    while i < end
        invariant
            start <= i <= end <= s@.len(),
            out@.len() == i - start,
            forall|k: int| 0 <= k < out@.len() ==> #[trigger] out@[k] == lower(s@[start + k]),
        decreases end - i,
    {
        out.push(to_lower(s[i]));
        i = i + 1;
    }
    assert(out@ =~= lowered(s@.subrange(start as int, end as int)));
    string_of(out.as_slice())
}

fn name_opens_url(s: &Vec<char>, start: usize, end: usize) -> (r: bool)
    requires
        start <= end <= s@.len(),
    ensures
        r == opens_url(s@, start as int, end as int),
{
    let name = lower_name(s, start, end);
    same_text(name.as_str(), "url") && !(0 < start && (s[start - 1] == '#' || s[start - 1] == '@'))
}

fn list_math_names() -> (r: Vec<String>)
    ensures
        texts(r@) == math_names(),
{
    let mut v: Vec<String> = Vec::new();
    v.push("calc".to_owned());
    v.push("min".to_owned());
    v.push("max".to_owned());
    v.push("clamp".to_owned());
    v.push("round".to_owned());
    v.push("rem".to_owned());
    v.push("mod".to_owned());
    v.push("sin".to_owned());
    v.push("cos".to_owned());
    v.push("tan".to_owned());
    v.push("asin".to_owned());
    v.push("acos".to_owned());
    v.push("atan".to_owned());
    v.push("atan2".to_owned());
    v.push("pow".to_owned());
    v.push("log".to_owned());
    v.push("sqrt".to_owned());
    v.push("exp".to_owned());
    v.push("hypot".to_owned());
    v.push("abs".to_owned());
    v.push("sign".to_owned());
    assert(texts(v@) =~= math_names());
    v
}

enum Search {
    Absent,
    Escaped,
    At(usize, usize),
}

impl Search {
    spec fn view(&self) -> MathSearch {
        match self {
            Search::Absent => MathSearch::Absent,
            Search::Escaped => MathSearch::Escaped,
            Search::At(a, b) => MathSearch::At(*a as int, *b as int),
        }
    }
}

fn find_math(s: &Vec<char>, from: usize) -> (r: Search)
    requires
        from <= s@.len(),
    ensures
        r@ == first_math(s@, from as int, css_start()),
        r matches Search::At(a, b) ==> a <= b < s@.len() && from <= b,
{
    let names = list_math_names();
    let mut reader = Reader::new();
    let mut i: usize = from;
    while i < s.len()
        invariant
            from <= i <= s@.len(),
            reader.start <= i,
            texts(names@) == math_names(),
            first_math(s@, from as int, css_start()) == first_math(s@, i as int, reader@),
        decreases s@.len() - i,
    {
        if s[i] == '(' && reader.in_name() {
            if reader.escaped {
                return Search::Escaped;
            }
            let name = lower_name(s, reader.start, i);
            if list_contains(&names, name.as_str()) {
                return Search::At(reader.start, i);
            }
        }
        reader = reader.step(s, i);
        i = i + 1;
    }
    Search::Absent
}

fn find_call_end(s: &Vec<char>, from: usize) -> (r: Option<usize>)
    requires
        1 <= from <= s@.len(),
    ensures
        match r {
            Some(e) => call_end(s@, from as int, css_start(), 1) == Some(e as int) && from < e
                <= s@.len(),
            None => call_end(s@, from as int, css_start(), 1) is None,
        },
{
    let mut reader = Reader::new();
    let mut depth: usize = 1;
    let mut i: usize = from;
    while i < s.len()
        invariant
            1 <= from <= i <= s@.len(),
            reader.start <= i,
            1 <= depth <= i - from + 1,
            call_end(s@, from as int, css_start(), 1) == call_end(
                s@,
                i as int,
                reader@,
                depth as nat,
            ),
        decreases s@.len() - i,
    {
        let c: char = s[i];
        let next = reader.step(s, i);
        if reader.counts_brackets() {
            if c == '{' || c == '}' || c == ';' {
                return None;
            }
            if c == ')' {
                if depth <= 1 {
                    return Some(i + 1);
                }
                depth = depth - 1;
            } else if c == '(' && !matches!(next.mode, CssMode::UrlOpen) {
                depth = depth + 1;
            }
        }
        reader = next;
        i = i + 1;
    }
    None
}

fn zero_call(s: &Vec<char>, start: usize, end: usize, out: &mut Vec<char>)
    requires
        start < end <= s@.len(),
    ensures
        final(out)@ == old(out)@ + zeroed(s@.subrange(start as int, end as int)),
{
    let ghost before = out@;
    let ghost call = s@.subrange(start as int, end as int);
    out.push('0');
    let mut i: usize = start + 1;
    assert(out@ =~= before + seq!['0'] + blanks(call.skip(1)).take(0));
    while i < end
        invariant
            start < i <= end <= s@.len(),
            call == s@.subrange(start as int, end as int),
            out@ == before + seq!['0'] + blanks(call.skip(1)).take(i - start - 1),
        decreases end - i,
    {
        let c: char = s[i];
        let ghost at = i - start - 1;
        let ghost prior = out@;
        assert(call.skip(1)[at] == c);
        if newline(c) {
            out.push(c);
        } else {
            out.push(' ');
        }
        assert(out@ =~= before + seq!['0'] + blanks(call.skip(1)).take(at + 1));
        i = i + 1;
    }
    assert(blanks(call.skip(1)).take(end - start - 1) =~= blanks(call.skip(1)));
    assert(out@ =~= before + zeroed(call));
}

/// The text of a stylesheet with a zero in place of each math function.
pub fn remove_math(source: &str) -> (r: Option<String>)
    ensures
        match r {
            Some(t) => plain_sheet(source@) == Some(t@) && math_free(t@),
            None => plain_sheet(source@) is None,
        },
{
    let s = chars_of(source);
    let mut out: Vec<char> = Vec::new();
    let mut from: usize = 0;
    let ghost whole = without_math(s@, 0);
    loop
        invariant_except_break
            from <= s@.len(),
            whole == without_math(s@, 0),
            whole == match without_math(s@, from as int) {
                Some(rest) => Some(out@ + rest),
                None => None,
            },
        invariant
            s@ == source@,
        ensures
            without_math(s@, 0) == Some(out@),
        decreases s@.len() - from,
    {
        match find_math(&s, from) {
            Search::Absent => {
                push_range(&s, from, s.len(), &mut out);
                assert(s@.subrange(from as int, s@.len() as int) =~= s@.skip(from as int));
                break;
            },
            Search::Escaped => {
                return None;
            },
            Search::At(start, open) => {
                let end: usize = match find_call_end(&s, open + 1) {
                    Some(e) => e,
                    None => {
                        return None;
                    },
                };
                if start < from {
                    return None;
                }
                let ghost before = out@;
                push_range(&s, from, start, &mut out);
                zero_call(&s, start, end, &mut out);
                proof {
                    if let Some(rest) = without_math(s@, end as int) {
                        assert(out@ + rest =~= before + (s@.subrange(from as int, start as int)
                            + zeroed(s@.subrange(start as int, end as int)) + rest));
                    }
                }
                from = end;
            },
        }
    }
    match find_math(&out, 0) {
        Search::Absent => Some(string_of(out.as_slice())),
        _ => None,
    }
}

fn push_range(s: &Vec<char>, from: usize, to: usize, out: &mut Vec<char>)
    requires
        from <= to <= s@.len(),
    ensures
        final(out)@ == old(out)@ + s@.subrange(from as int, to as int),
{
    let ghost before = out@;
    let mut i: usize = from;
    assert(out@ =~= before + s@.subrange(from as int, from as int));
    while i < to
        invariant
            from <= i <= to <= s@.len(),
            out@ == before + s@.subrange(from as int, i as int),
        decreases to - i,
    {
        out.push(s[i]);
        assert(out@ =~= before + s@.subrange(from as int, i + 1));
        i = i + 1;
    }
}

// ── Laws ────────────────────────────────────────────────────────────────

/// A stylesheet without math functions is parsed as it stands.
pub proof fn plain_sheets_are_kept(s: Seq<char>)
    requires
        math_free(s),
    ensures
        plain_sheet(s) == Some(s),
{
    assert(s.skip(0) =~= s);
}

/// What is parsed has no math function, and is as long as the stylesheet, with its line
/// ends where they were: a rule begins on the same line.
pub proof fn lines_stay_where_they_were(s: Seq<char>)
    ensures
        plain_sheet(s) matches Some(t) ==> math_free(t) && t.len() == s.len() && forall|i: int|
            0 <= i < s.len() && (is_css_newline(#[trigger] t[i]) || is_css_newline(s[i])) ==> t[i]
                == s[i],
{
    lemma_without_math(s, 0);
    assert(s.skip(0) =~= s);
}

/// Whether the name that a reader is in at place `i` begins, from `from` on, with a
/// character of a name or has an escape in it.
spec fn name_is_read(s: Seq<char>, from: int, i: int, scan: CssScan) -> bool {
    in_name(scan.mode) || scan.mode is BangDash || scan.mode == CssMode::Escape(CssPlace::Name)
        ==> from <= scan.start < i && (scan.escaped || is_css_name(s[scan.start]))
}

proof fn lemma_math_starts_with_name(s: Seq<char>, from: int, i: int, scan: CssScan)
    requires
        0 <= from <= i <= s.len(),
        name_is_read(s, from, i, scan),
    ensures
        first_math(s, i, scan) matches MathSearch::At(start, open) ==> from <= start < open < s.len()
            && is_css_name(s[start]),
    decreases s.len() - i,
{
    if i < s.len() {
        lemma_math_starts_with_name(s, from, i + 1, css_step(s, scan, i));
    }
}

proof fn lemma_without_math(s: Seq<char>, from: int)
    requires
        0 <= from <= s.len(),
    ensures
        without_math(s, from) matches Some(t) ==> t.len() == s.len() - from && forall|i: int|
            0 <= i < t.len() && (is_css_newline(#[trigger] t[i]) || is_css_newline(s[from + i]))
                ==> t[i] == s[from + i],
    decreases s.len() - from,
{
    lemma_math_starts_with_name(s, from, from, css_start());
    if let MathSearch::At(start, open) = first_math(s, from, css_start()) {
        if let Some(end) = call_end(s, open + 1, css_start(), 1) {
            if from <= start < end <= s.len() && from < end {
                lemma_without_math(s, end);
                if let Some(rest) = without_math(s, end) {
                    let a = s.subrange(from, start);
                    let b = zeroed(s.subrange(start, end));
                    let t = a + b + rest;
                    assert(b.len() == end - start);
                    assert forall|i: int|
                        0 <= i < t.len() && (is_css_newline(#[trigger] t[i]) || is_css_newline(
                            s[from + i],
                        )) implies t[i] == s[from + i] by {
                        if i < a.len() {
                            assert(t[i] == a[i]);
                        } else if i < a.len() + b.len() {
                            let k = i - a.len();
                            assert(t[i] == b[k]);
                            if k > 0 {
                                assert(b[k] == blanks(s.subrange(start, end).skip(1))[k - 1]);
                                assert(s.subrange(start, end).skip(1)[k - 1] == s[from + i]);
                            }
                        } else {
                            let k = i - a.len() - b.len();
                            assert(t[i] == rest[k]);
                            assert(s[from + i] == s[end + k]);
                        }
                    }
                }
            }
        }
    }
}

/// What stands before the first math function stays, a zero stands where it began, and what
/// follows its closing bracket is read on its own.
pub proof fn math_functions_become_zeros(s: Seq<char>, from: int)
    requires
        0 <= from <= s.len(),
        first_math(s, from, css_start()) is At,
        without_math(s, from) is Some,
    ensures
        ({
            let start = first_math(s, from, css_start())->At_0;
            let open = first_math(s, from, css_start())->At_1;
            let t = without_math(s, from)->0;
            call_end(s, open + 1, css_start(), 1) matches Some(end) && from <= start < end
                <= s.len() && (without_math(s, end) matches Some(rest) && {
                &&& t.len() == end - from + rest.len()
                &&& t.take(start - from) == s.subrange(from, start)
                &&& t[start - from] == '0'
                &&& forall|i: int|
                    start - from < i < end - from ==> is_css_white(#[trigger] t[i]) && (
                    is_css_newline(s[from + i]) ==> t[i] == s[from + i])
                &&& t.skip(end - from) == rest
            })
        }),
{
    let start = first_math(s, from, css_start())->At_0;
    let open = first_math(s, from, css_start())->At_1;
    let end = call_end(s, open + 1, css_start(), 1)->0;
    let rest = without_math(s, end)->0;
    let t = without_math(s, from)->0;
    let call = s.subrange(start, end);
    assert(t == s.subrange(from, start) + zeroed(call) + rest);
    assert(t.take(start - from) =~= s.subrange(from, start));
    assert(t.skip(end - from) =~= rest);
    assert forall|i: int| start - from < i < end - from implies is_css_white(#[trigger] t[i]) && (
    is_css_newline(s[from + i]) ==> t[i] == s[from + i]) by {
        let k = i - (start - from);
        assert(t[i] == zeroed(call)[k]);
        assert(zeroed(call)[k] == blanks(call.skip(1))[k - 1]);
        assert(call.skip(1)[k - 1] == s[from + i]);
    }
}

proof fn lemma_name_read(s: Seq<char>, i: int, open: int)
    requires
        0 < i <= open < s.len(),
        s[open] == '(',
        forall|k: int| 0 <= k < open ==> is_css_name(#[trigger] s[k]),
        math_names().contains(lowered(s.subrange(0, open))),
    ensures
        first_math(
            s,
            i,
            CssScan { mode: CssMode::Inside(CssPlace::Name), start: 0, escaped: false },
        ) == MathSearch::At(0, open),
    decreases open - i,
{
    let scan = CssScan { mode: CssMode::Inside(CssPlace::Name), start: 0, escaped: false };
    if i < open {
        assert(is_css_name(s[i]));
        assert(s[i] != '(' && s[i] != '\\');
        assert(css_step(s, scan, i) == scan);
        lemma_name_read(s, i + 1, open);
    }
}

/// A math function is found by its name, whatever its case, with an open bracket behind.
pub proof fn math_functions_are_found(name: Seq<char>, rest: Seq<char>)
    requires
        name.len() > 0,
        forall|k: int| 0 <= k < name.len() ==> is_css_name(#[trigger] name[k]),
        math_names().contains(lowered(name)),
    ensures
        first_math(name + seq!['('] + rest, 0, css_start()) == MathSearch::At(
            0,
            name.len() as int,
        ),
{
    let s = name + seq!['('] + rest;
    let open = name.len() as int;
    assert(s.subrange(0, open) =~= name);
    assert(s[open] == '(');
    assert forall|k: int| 0 <= k < open implies is_css_name(#[trigger] s[k]) by {
        assert(s[k] == name[k]);
    }
    assert(is_css_name(s[0]));
    let scan = CssScan { mode: CssMode::Inside(CssPlace::Name), start: 0, escaped: false };
    assert(css_step(s, css_start(), 0) == scan);
    lemma_name_read(s, 1, open);
}

proof fn lemma_in_comment(s: Seq<char>, i: int, end: int, start: int)
    requires
        2 <= i <= end,
        end + 1 < s.len(),
        s[end] == '*' && s[end + 1] == '/',
        forall|k: int| i <= k < end ==> #[trigger] s[k] != '*',
    ensures
        first_math(s, i, CssScan { mode: CssMode::Comment, start, escaped: false }) == first_math(
            s,
            end + 2,
            CssScan { mode: CssMode::Plain, start, escaped: false },
        ),
    decreases end - i,
{
    let scan = CssScan { mode: CssMode::Comment, start, escaped: false };
    if i < end {
        assert(css_step(s, scan, i) == scan);
        lemma_in_comment(s, i + 1, end, start);
    } else {
        let star = CssScan { mode: CssMode::Star, start, escaped: false };
        assert(css_step(s, scan, end) == star);
        assert(first_math(s, end, scan) == first_math(s, end + 1, star));
        let plain = CssScan { mode: CssMode::Plain, start, escaped: false };
        assert(css_step(s, star, end + 1) == plain);
        assert(first_math(s, end + 1, star) == first_math(s, end + 2, plain));
    }
}

/// Nothing in a comment is a math function.
pub proof fn comments_hold_no_functions(inner: Seq<char>)
    requires
        !inner.contains('*'),
    ensures
        math_free("/*"@ + inner + "*/"@),
{
    let s = "/*"@ + inner + "*/"@;
    reveal_strlit("/*");
    reveal_strlit("*/");
    let end = 2 + inner.len() as int;
    assert(s[0] == '/' && s[1] == '*' && s[end] == '*' && s[end + 1] == '/');
    assert forall|k: int| 2 <= k < end implies #[trigger] s[k] != '*' by {
        assert(s[k] == inner[k - 2]);
        assert(inner.contains(inner[k - 2]));
    }
    let slash = CssScan { mode: CssMode::Slash, start: 0, escaped: false };
    assert(css_step(s, css_start(), 0) == slash);
    assert(first_math(s, 0, css_start()) == first_math(s, 1, slash));
    let comment = CssScan { mode: CssMode::Comment, start: 0, escaped: false };
    assert(css_step(s, slash, 1) == comment);
    assert(first_math(s, 1, slash) == first_math(s, 2, comment));
    lemma_in_comment(s, 2, end, 0);
}

proof fn lemma_in_text(s: Seq<char>, i: int, end: int, quote: char)
    requires
        0 < i <= end < s.len(),
        s[end] == quote,
        forall|k: int|
            i <= k < end ==> #[trigger] s[k] != quote && s[k] != '\\' && !is_css_newline(s[k]),
    ensures
        first_math(
            s,
            i,
            CssScan { mode: CssMode::Inside(CssPlace::Text(quote)), start: 0, escaped: false },
        ) == first_math(
            s,
            end + 1,
            CssScan { mode: CssMode::Plain, start: 0, escaped: false },
        ),
    decreases end - i,
{
    let scan = CssScan {
        mode: CssMode::Inside(CssPlace::Text(quote)),
        start: 0,
        escaped: false,
    };
    if i < end {
        assert(s[i] != quote);
        assert(css_step(s, scan, i) == scan);
        lemma_in_text(s, i + 1, end, quote);
    } else {
        let plain = CssScan { mode: CssMode::Plain, start: 0, escaped: false };
        assert(css_step(s, scan, end) == plain);
    }
}

/// Nothing in a string is a math function.
pub proof fn strings_hold_no_functions(quote: char, inner: Seq<char>)
    requires
        quote == '"' || quote == '\'',
        forall|k: int|
            0 <= k < inner.len() ==> #[trigger] inner[k] != quote && inner[k] != '\\'
                && !is_css_newline(inner[k]),
    ensures
        math_free(seq![quote] + inner + seq![quote]),
{
    let s = seq![quote] + inner + seq![quote];
    let end = 1 + inner.len() as int;
    assert(s[0] == quote && s[end] == quote);
    assert forall|k: int| 1 <= k < end implies #[trigger] s[k] != quote && s[k] != '\\'
        && !is_css_newline(s[k]) by {
        assert(s[k] == inner[k - 1]);
    }
    let scan = CssScan {
        mode: CssMode::Inside(CssPlace::Text(quote)),
        start: 0,
        escaped: false,
    };
    assert(css_step(s, css_start(), 0) == scan);
    lemma_in_text(s, 1, end, quote);
}

} // verus!
