//! Diagnostics: the externally visible output of the analysis. Findings are
//! grouped per triggering expression — one warning followed by its supporting
//! notes — so that a later rollback can discard a whole group at once.

use vstd::prelude::*;
use crate::span::Span;

verus! {

/// Severity of one diagnostic line.
#[derive(Clone, Copy, Debug, PartialEq, Eq, Structural)]
pub enum Level {
    Note,
    Warning,
    Error,
}

/// One positioned diagnostic line.
#[derive(Clone, Debug)]
pub struct Diagnostic {
    pub level: Level,
    pub message: String,
    pub spans: Vec<Span>,
    pub suggestion: Option<String>,
}

/// The mathematical content of a [`Diagnostic`].
pub struct DiagV {
    pub level: Level,
    pub message: Seq<char>,
    pub spans: Seq<Span>,
    pub suggestion: Option<Seq<char>>,
}

impl View for Diagnostic {
    type V = DiagV;

    open spec fn view(&self) -> DiagV {
        DiagV {
            level: self.level,
            message: self.message@,
            spans: self.spans@,
            suggestion: match self.suggestion {
                Some(ref s) => Some(s@),
                None => None,
            },
        }
    }
}

impl Diagnostic {
    /// A single-span diagnostic without a suggestion.
    pub fn new_at(level: Level, message: String, span: Span) -> (d: Diagnostic)
        ensures
            d@ == (DiagV { level, message: message@, spans: seq![span], suggestion: None }),
    {
        let mut spans: Vec<Span> = Vec::new();
        spans.push(span);
        proof {
            assert(spans@ =~= seq![span]);
        }
        Diagnostic { level, message, spans, suggestion: None }
    }
}

impl Diagnostic {
    /// An owned copy with the same content.
    pub fn dup(&self) -> (d: Diagnostic)
        ensures
            d@ == self@,
    {
        let mut spans: Vec<Span> = Vec::new();
        let n = self.spans.len();
        let mut i: usize = 0;
        while i < n
            invariant
                i <= n,
                n == self.spans@.len(),
                spans@ == self.spans@.take(i as int),
            decreases n - i,
        {
            spans.push(self.spans[i]);
            proof {
                assert(spans@ =~= self.spans@.take(i as int + 1));
            }
            i += 1;
        }
        proof {
            assert(self.spans@.take(n as int) =~= self.spans@);
        }
        let suggestion = match &self.suggestion {
            Some(s) => Some(s.clone()),
            None => None,
        };
        Diagnostic { level: self.level, message: self.message.clone(), spans, suggestion }
    }
}

/// The diagnostics of one triggering expression: a warning followed by its
/// notes.
#[derive(Clone, Debug)]
pub struct DiagGroup {
    pub items: Vec<Diagnostic>,
}

impl View for DiagGroup {
    type V = Seq<DiagV>;

    open spec fn view(&self) -> Seq<DiagV> {
        self.items@.map_values(|d: Diagnostic| d@)
    }
}

impl DiagGroup {
    /// An owned copy with the same content.
    pub fn dup(&self) -> (g: DiagGroup)
        ensures
            g@ == self@,
    {
        let mut items: Vec<Diagnostic> = Vec::new();
        let n = self.items.len();
        let mut i: usize = 0;
        while i < n
            invariant
                i <= n,
                n == self.items@.len(),
                items@.map_values(|d: Diagnostic| d@) == self@.take(i as int),
            decreases n - i,
        {
            let ghost prev = items@;
            items.push(self.items[i].dup());
            proof {
                let f = |d: Diagnostic| d@;
                assert(prev.map_values(f).len() == prev.len());
                assert forall|t: int| 0 <= t < items@.len() implies items@.map_values(f)[t]
                    == self@.take(i as int + 1)[t] by {
                    if t < i {
                        assert(items@[t] == prev[t]);
                        assert(prev.map_values(f)[t] == f(prev[t]));
                    }
                    assert(self@[t] == f(self.items@[t]));
                }
                assert(items@.map_values(f) =~= self@.take(i as int + 1));
            }
            i += 1;
        }
        let g = DiagGroup { items };
        proof {
            assert(self@.take(n as int) =~= self@);
        }
        g
    }
}

/// The mathematical content of a list of diagnostics.
pub open spec fn diags_view(v: Seq<Diagnostic>) -> Seq<DiagV> {
    v.map_values(|d: Diagnostic| d@)
}

} // verus!
