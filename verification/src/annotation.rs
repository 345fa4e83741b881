//! Annotations: source-anchored pragmas that suppress, filter, or clear
//! taint state. An annotation is anchored to the line directly above the
//! expression it governs. Parsing the pragma text is handled by
//! [`AnnotationKind::from_str`]; matching an annotation to the expression
//! being visited is the traversal engine's job.

use vstd::prelude::*;
use vstd::string::StrSliceExecFns;
use crate::span::Span;
use crate::text::str_eq;

verus! {

/// The classes of findings that an `allow` annotation can suppress.
#[derive(Clone, Copy, Debug, PartialEq, Eq, Structural)]
pub enum WarningKind {
    /// Taint findings: the whole subtree below the annotation is skipped.
    UncheckedData,
    /// On a private function: treat its parameters as untrusted inputs.
    UncheckedParams,
}

/// The parsed form of one annotation.
#[derive(Debug)]
pub enum AnnotationKind {
    /// Suppress one class of finding for the next expression.
    Allow(WarningKind),
    /// Treat the named parameters as validated from here on.
    Filter(Vec<String>),
    /// Clear all current taint state unconditionally.
    FilterAll,
}

/// The mathematical content of an [`AnnotationKind`].
pub enum KindV {
    Allow(WarningKind),
    Filter(Seq<Seq<char>>),
    FilterAll,
}

impl View for AnnotationKind {
    type V = KindV;

    open spec fn view(&self) -> KindV {
        match self {
            AnnotationKind::Allow(w) => KindV::Allow(*w),
            AnnotationKind::Filter(names) => KindV::Filter(
                names@.map_values(|n: String| n@),
            ),
            AnnotationKind::FilterAll => KindV::FilterAll,
        }
    }
}

/// One annotation: the line span it is anchored to and its parsed kind.
#[derive(Debug)]
pub struct Annotation {
    pub span: Span,
    pub kind: AnnotationKind,
}

/// The mathematical content of an [`Annotation`].
pub struct AnnV {
    pub span: Span,
    pub kind: KindV,
}

impl View for Annotation {
    type V = AnnV;

    open spec fn view(&self) -> AnnV {
        AnnV { span: self.span, kind: self.kind@ }
    }
}

impl Annotation {
    pub fn new(span: Span, kind: AnnotationKind) -> (a: Annotation)
        ensures
            a@ == (AnnV { span, kind: kind@ }),
    {
        Annotation { span, kind }
    }
}

/// A word character of the pragma grammar: an ASCII letter, digit, or
/// underscore.
pub open spec fn is_word_char(c: char) -> bool {
    let u = c as u32;
    (97 <= u <= 122) || (65 <= u <= 90) || (48 <= u <= 57) || u == 95
}

/// Decides [`is_word_char`].
pub fn check_word_char(c: char) -> (r: bool)
    ensures
        r == is_word_char(c),
{
    let u = c as u32;
    (97 <= u && u <= 122) || (65 <= u && u <= 90) || (48 <= u && u <= 57) || u == 95
}

/// Whitespace stripped off the ends of a filter name.
pub open spec fn is_space_char(c: char) -> bool {
    c == ' ' || c == '\t' || c == '\n' || c == '\r'
}

/// Decides [`is_space_char`].
pub fn check_space_char(c: char) -> (r: bool)
    ensures
        r == is_space_char(c),
{
    c == ' ' || c == '\t' || c == '\n' || c == '\r'
}

/// The first word character at or after `i`, or the end of the text.
pub open spec fn word_from(s: Seq<char>, i: int) -> int
    decreases s.len() - i,
{
    if i < 0 || i >= s.len() {
        s.len() as int
    } else if is_word_char(s[i]) {
        i
    } else {
        word_from(s, i + 1)
    }
}

/// The first non-word character at or after `i`, or the end of the text.
pub open spec fn word_end_from(s: Seq<char>, i: int) -> int
    decreases s.len() - i,
{
    if i < 0 || i >= s.len() {
        s.len() as int
    } else if !is_word_char(s[i]) {
        i
    } else {
        word_end_from(s, i + 1)
    }
}

/// The first closing parenthesis at or after `i`, or the end of the text.
pub open spec fn close_from(s: Seq<char>, i: int) -> int
    decreases s.len() - i,
{
    if i < 0 || i >= s.len() {
        s.len() as int
    } else if s[i] == ')' {
        i
    } else {
        close_from(s, i + 1)
    }
}

/// The first comma at or after `i`, or the end of the text.
pub open spec fn comma_from(s: Seq<char>, i: int) -> int
    decreases s.len() - i,
{
    if i < 0 || i >= s.len() {
        s.len() as int
    } else if s[i] == ',' {
        i
    } else {
        comma_from(s, i + 1)
    }
}

/// The first non-space position in `[i, end)`, or `end`.
pub open spec fn nonspace_fwd(s: Seq<char>, i: int, end: int) -> int
    decreases end - i,
{
    if i < 0 || i >= end || i >= s.len() {
        end
    } else if !is_space_char(s[i]) {
        i
    } else {
        nonspace_fwd(s, i + 1, end)
    }
}

/// The position after the last non-space character in `[start, i)`, or
/// `start`.
pub open spec fn nonspace_bwd(s: Seq<char>, i: int, start: int) -> int
    decreases i - start,
{
    if i <= start || i > s.len() {
        start
    } else if !is_space_char(s[i - 1]) {
        i
    } else {
        nonspace_bwd(s, i - 1, start)
    }
}

/// The pragma's parenthesized value: the text between the parenthesis that
/// immediately follows the base word and the first closing parenthesis, if
/// that text is non-empty.
pub open spec fn value_of_s(s: Seq<char>, b: int) -> Seq<char> {
    if 0 <= b < s.len() && s[b] == '(' {
        let c = close_from(s, b + 1);
        if c < s.len() && c > b + 1 {
            s.subrange(b + 1, c)
        } else {
            Seq::empty()
        }
    } else {
        Seq::empty()
    }
}

/// The comma scan never moves backwards.
pub proof fn lemma_comma_from_ge(s: Seq<char>, i: int)
    requires
        0 <= i <= s.len(),
    ensures
        comma_from(s, i) >= i,
        comma_from(s, i) <= s.len(),
    decreases s.len() - i,
{
    if i < 0 || i >= s.len() {
    } else if s[i] == ',' {
    } else {
        lemma_comma_from_ge(s, i + 1);
    }
}

/// Splits a filter value on commas: every non-empty raw piece contributes
/// its whitespace-trimmed text, in order.
pub open spec fn split_names_s(v: Seq<char>, i: int) -> Seq<Seq<char>>
    decreases v.len() + 1 - i,
    via split_names_s_decreases
{
    if i < 0 || i > v.len() {
        Seq::empty()
    } else {
        let c = comma_from(v, i);
        let rest = if c < v.len() {
            split_names_s(v, c + 1)
        } else {
            Seq::empty()
        };
        if c > i {
            let ts = nonspace_fwd(v, i, c);
            let te = nonspace_bwd(v, c, ts);
            seq![v.subrange(ts, te)] + rest
        } else {
            rest
        }
    }
}

#[via_fn]
proof fn split_names_s_decreases(v: Seq<char>, i: int) {
    if 0 <= i <= v.len() {
        lemma_comma_from_ge(v, i);
    }
}

/// The result of parsing one pragma text, over character sequences.
pub open spec fn from_str_s(s: Seq<char>) -> Result<KindV, Seq<char>> {
    let a = word_from(s, 0);
    if a >= s.len() {
        Err("malformed annotation"@)
    } else {
        let b = word_end_from(s, a);
        let base = s.subrange(a, b);
        let value = value_of_s(s, b);
        if base == "allow"@ {
            if value == "unchecked_data"@ || value == "unchecked-data"@ {
                Ok(KindV::Allow(WarningKind::UncheckedData))
            } else if value == "unchecked_params"@ || value == "unchecked-params"@ {
                Ok(KindV::Allow(WarningKind::UncheckedParams))
            } else {
                Err("missing value for 'allow' annotation"@)
            }
        } else if base == "filter"@ {
            if value == "*"@ {
                Ok(KindV::FilterAll)
            } else {
                let names = split_names_s(value, 0);
                if names.len() == 0 {
                    Err("missing value for 'filter' annotation"@)
                } else {
                    Ok(KindV::Filter(names))
                }
            }
        } else {
            Err("unrecognized annotation"@)
        }
    }
}

impl AnnotationKind {
    /// Parses one pragma text: the first word is the base, optionally
    /// followed by a parenthesized value. `allow` requires a warning kind,
    /// `filter` requires `*` or a non-empty comma-separated name list; any
    /// other base word is a parse error.
    pub fn from_str(text: &str) -> (r: Result<AnnotationKind, String>)
        ensures
            match r {
                Ok(k) => from_str_s(text@) == Ok::<KindV, Seq<char>>(k@),
                Err(e) => from_str_s(text@) == Err::<KindV, Seq<char>>(e@),
            },
    {
        let n = text.unicode_len();
        let mut a: usize = 0;
        while a < n && !check_word_char(text.get_char(a))
            invariant
                a <= n,
                n == text@.len(),
                word_from(text@, 0) == word_from(text@, a as int),
            decreases n - a,
        {
            a += 1;
        }
        if a == n {
            return Err("malformed annotation".to_owned());
        }
        let mut b: usize = a;
        while b < n && check_word_char(text.get_char(b))
            invariant
                a <= b <= n,
                n == text@.len(),
                word_end_from(text@, a as int) == word_end_from(text@, b as int),
            decreases n - b,
        {
            b += 1;
        }
        let base = text.substring_char(a, b);
        let mut has = false;
        let mut vs: usize = 0;
        let mut ve: usize = 0;
        if b < n {
            let ch = text.get_char(b);
            if ch == '(' {
                let mut c: usize = b + 1;
                while c < n && text.get_char(c) != ')'
                    invariant
                        b + 1 <= c <= n,
                        b < n,
                        n == text@.len(),
                        close_from(text@, b as int + 1) == close_from(text@, c as int),
                    decreases n - c,
                {
                    c += 1;
                }
                if c < n && c > b + 1 {
                    has = true;
                    vs = b + 1;
                    ve = c;
                }
            }
        }
        let value: &str = if has {
            text.substring_char(vs, ve)
        } else {
            ""
        };
        proof {
            reveal_strlit("");
            assert(value@ =~= value_of_s(text@, b as int));
        }
        if str_eq(base, "allow") {
            if str_eq(value, "unchecked_data") || str_eq(value, "unchecked-data") {
                Ok(AnnotationKind::Allow(WarningKind::UncheckedData))
            } else if str_eq(value, "unchecked_params") || str_eq(value, "unchecked-params") {
                Ok(AnnotationKind::Allow(WarningKind::UncheckedParams))
            } else {
                Err("missing value for 'allow' annotation".to_owned())
            }
        } else if str_eq(base, "filter") {
            if str_eq(value, "*") {
                Ok(AnnotationKind::FilterAll)
            } else {
                let names = split_filter_names(value);
                if names.len() == 0 {
                    Err("missing value for 'filter' annotation".to_owned())
                } else {
                    let k = AnnotationKind::Filter(names);
                    Ok(k)
                }
            }
        } else {
            Err("unrecognized annotation".to_owned())
        }
    }
}

/// Splits a filter value on commas; each non-empty raw piece contributes
/// its whitespace-trimmed text, in order.
fn split_filter_names(v: &str) -> (names: Vec<String>)
    ensures
        names@.map_values(|s2: String| s2@) == split_names_s(v@, 0),
{
    let n = v.unicode_len();
    let mut names: Vec<String> = Vec::new();
    proof {
        assert(names@.map_values(|s2: String| s2@) + split_names_s(v@, 0) =~= split_names_s(
            v@,
            0,
        ));
    }
    let mut i: usize = 0;
    while i <= n
        invariant
            i <= n + 1,
            n == v@.len(),
            split_names_s(v@, 0) == names@.map_values(|s2: String| s2@) + split_names_s(
                v@,
                i as int,
            ),
        decreases n + 1 - i,
    {
        let mut c: usize = i;
        while c < n && v.get_char(c) != ','
            invariant
                i <= c <= n,
                n == v@.len(),
                comma_from(v@, i as int) == comma_from(v@, c as int),
            decreases n - c,
        {
            c += 1;
        }
        proof {
            assert(comma_from(v@, i as int) == c as int);
        }
        if c > i {
            let mut ts: usize = i;
            while ts < c && check_space_char(v.get_char(ts))
                invariant
                    i <= ts <= c,
                    c <= n,
                    n == v@.len(),
                    nonspace_fwd(v@, i as int, c as int) == nonspace_fwd(
                        v@,
                        ts as int,
                        c as int,
                    ),
                decreases c - ts,
            {
                ts += 1;
            }
            let mut te: usize = c;
            while te > ts && check_space_char(v.get_char(te - 1))
                invariant
                    ts <= te <= c,
                    c <= n,
                    n == v@.len(),
                    nonspace_bwd(v@, c as int, ts as int) == nonspace_bwd(
                        v@,
                        te as int,
                        ts as int,
                    ),
                decreases te,
            {
                te -= 1;
            }
            let ghost prev = names@;
            let piece = v.substring_char(ts, te).to_owned();
            names.push(piece);
            proof {
                let f = |s2: String| s2@;
                assert(prev.map_values(f).len() == prev.len());
                assert(names@.map_values(f) =~= prev.map_values(f) + seq![
                    v@.subrange(ts as int, te as int),
                ]) by {
                    assert forall|t: int| 0 <= t < names@.len() implies names@.map_values(f)[t]
                        == (prev.map_values(f) + seq![v@.subrange(ts as int, te as int)])[t] by {
                        if t < prev.len() {
                            assert(names@[t] == prev[t]);
                            assert(prev.map_values(f)[t] == f(prev[t]));
                        }
                    }
                }
                assert(split_names_s(v@, i as int) == seq![v@.subrange(ts as int, te as int)]
                    + split_names_s(v@, c as int + 1));
                assert(split_names_s(v@, 0) =~= names@.map_values(f) + split_names_s(
                    v@,
                    c as int + 1,
                ));
            }
        } else {
            proof {
                assert(split_names_s(v@, i as int) == split_names_s(v@, c as int + 1)) by {
                    if (c as int) < v@.len() {
                    } else {
                        assert(split_names_s(v@, c as int + 1) =~= Seq::<Seq<char>>::empty());
                    }
                }
            }
        }
        if c == n {
            proof {
                assert(split_names_s(v@, c as int + 1) =~= Seq::<Seq<char>>::empty());
                assert(names@.map_values(|s2: String| s2@) + Seq::<Seq<char>>::empty() =~= names@
                    .map_values(|s2: String| s2@));
            }
            return names;
        }
        i = c + 1;
    }
    proof {
        assert(split_names_s(v@, i as int) =~= Seq::<Seq<char>>::empty());
        assert(names@.map_values(|s2: String| s2@) + Seq::<Seq<char>>::empty() =~= names@
            .map_values(|s2: String| s2@));
    }
    names
}

} // verus!
