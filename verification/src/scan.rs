//! What the scanners for texts in a program share: what they look for, in what
//! source, and the incident of a match.

use crate::ast::{Span, TemplateElement};
use crate::incident::{
    incident_at, incident_views, lemma_incident_views_push, make_incident, Incident, IncidentView,
};
use crate::json::as_text;
use crate::nodes::{all_among, lemma_among_joined, lemma_among_more};
use crate::pattern::{regex_is_match, regex_text};
use vstd::prelude::*;

verus! {

/// What a scan looks for, and in what source.
pub struct TextScan<'a> {
    pub source: &'a str,
    pub pattern: &'a regex::Regex,
    pub file_uri: &'a str,
}

/// The content of a scan.
pub ghost struct TextScanView {
    pub source: Seq<char>,
    pub pattern: Seq<char>,
    pub file_uri: Seq<char>,
}

impl TextScanView {
    /// The incident of a text at a place: one where the text matches, else none.
    pub open spec fn hit(self, span: Span, key: Seq<char>, text: Seq<char>) -> Seq<IncidentView> {
        if regex_is_match(self.pattern, text) {
            seq![
                incident_at(self.source, self.file_uri, span.start, span.end).with_text(key, text),
            ]
        } else {
            Seq::empty()
        }
    }

    /// The incidents of the pieces of a template.
    pub open spec fn template_hits(self, quasis: Seq<TemplateElement>) -> Seq<IncidentView>
        decreases quasis.len(),
    {
        if quasis.len() == 0 {
            Seq::empty()
        } else {
            self.template_hits(quasis.drop_last()) + self.hit(
                quasis.last().span,
                "matchingText"@,
                quasis.last().raw@,
            )
        }
    }
}

impl TextScanView {
    /// Whether an incident lies in the scanned file and shows under `key` a text that
    /// matches.
    pub open spec fn shows_match(self, incident: IncidentView, key: Seq<char>) -> bool {
        &&& incident.file_uri == self.file_uri
        &&& incident.variables.dom().contains(key)
        &&& as_text(incident.variables[key]) matches Some(text)
        &&& regex_is_match(self.pattern, text)
    }

    /// Whether every incident shows a match.
    pub open spec fn all_match(self, v: Seq<IncidentView>, key: Seq<char>) -> bool {
        forall|i: int| 0 <= i < v.len() ==> self.shows_match(#[trigger] v[i], key)
    }

    pub(crate) proof fn lemma_match_add(
        self,
        a: Seq<IncidentView>,
        b: Seq<IncidentView>,
        key: Seq<char>,
    )
        requires
            self.all_match(a, key),
            self.all_match(b, key),
        ensures
            self.all_match(a + b, key),
    {
        assert forall|i: int| 0 <= i < (a + b).len() implies self.shows_match(
            #[trigger] (a + b)[i],
            key,
        ) by {
            if i < a.len() {
                assert((a + b)[i] == a[i]);
            } else {
                assert((a + b)[i] == b[i - a.len()]);
            }
        }
    }

    pub(crate) proof fn lemma_template_match(self, quasis: Seq<TemplateElement>)
        ensures
            self.all_match(self.template_hits(quasis), "matchingText"@),
        decreases quasis.len(),
    {
        if quasis.len() > 0 {
            self.lemma_template_match(quasis.drop_last());
            self.lemma_match_add(
                self.template_hits(quasis.drop_last()),
                self.hit(quasis.last().span, "matchingText"@, quasis.last().raw@),
                "matchingText"@,
            );
        }
    }
}

impl TextScanView {
    pub(crate) proof fn lemma_piece_among(self, quasis: Seq<TemplateElement>, i: int)
        requires
            0 <= i < quasis.len(),
        ensures
            all_among(
                self.hit(quasis[i].span, "matchingText"@, quasis[i].raw@),
                self.template_hits(quasis),
            ),
        decreases quasis.len(),
    {
        let before = self.template_hits(quasis.drop_last());
        let last = self.hit(quasis.last().span, "matchingText"@, quasis.last().raw@);
        lemma_among_joined(before, last);
        if i < quasis.len() - 1 {
            self.lemma_piece_among(quasis.drop_last(), i);
            assert(quasis.drop_last()[i] == quasis[i]);
            lemma_among_more(
                self.hit(quasis[i].span, "matchingText"@, quasis[i].raw@),
                before,
                before + last,
            );
        }
    }
}

impl<'a> TextScan<'a> {
    pub open spec fn view(&self) -> TextScanView {
        TextScanView {
            source: self.source@,
            pattern: regex_text(*self.pattern),
            file_uri: self.file_uri@,
        }
    }

    /// Adds the incident of a text, where it matches.
    pub fn check(&self, span: Span, key: &str, text: &str, out: &mut Vec<Incident>)
        ensures
            incident_views(final(out)@) == incident_views(old(out)@) + self@.hit(
                span,
                key@,
                text@,
            ),
    {
        let ghost before = incident_views(out@);
        if self.pattern.is_match(text) {
            let mut incident = make_incident(self.source, self.file_uri, span.start, span.end);
            incident.set_text(key, text);
            proof {
                lemma_incident_views_push(out@, incident);
            }
            out.push(incident);
        }
        assert(incident_views(out@) =~= before + self@.hit(span, key@, text@));
    }

    /// Adds the incidents of the pieces of a template.
    pub fn check_template(&self, quasis: &Vec<TemplateElement>, out: &mut Vec<Incident>)
        ensures
            incident_views(final(out)@) == incident_views(old(out)@) + self@.template_hits(quasis@),
    {
        let ghost before = incident_views(out@);
        let mut i: usize = 0;
        assert(before + self@.template_hits(quasis@.take(0)) =~= before);
        while i < quasis.len()
            invariant
                i <= quasis@.len(),
                incident_views(out@) == before + self@.template_hits(quasis@.take(i as int)),
            decreases quasis@.len() - i,
        {
            assert(quasis@.take(i + 1).drop_last() =~= quasis@.take(i as int));
            self.check(quasis[i].span, "matchingText", quasis[i].raw.as_str(), out);
            assert(incident_views(out@) =~= before + self@.template_hits(quasis@.take(i + 1)));
            i = i + 1;
        }
        assert(quasis@.take(quasis@.len() as int) =~= quasis@);
    }
}

} // verus!
