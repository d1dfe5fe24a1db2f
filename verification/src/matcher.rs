//! The three-mode host matcher: literal, wildcard glob, and regular
//! expression (a leading `~` in the source pattern).
//!
//! The wildcard semantics are the library's own: a `*` matches one or more
//! characters of a single label, and a literal `.` in the pattern must align
//! with a `.` in the input.

use vstd::prelude::*;
use crate::qname::head_label_len;
use crate::qname::lemma_head_label_len_eq;
use crate::text::string_to_chars;

verus! {

/// Whether the pattern compiles as a regular expression.
pub uninterp spec fn regex_accepts(pattern: Seq<char>) -> bool;

/// Whether the compiled pattern matches somewhere in the text.
pub uninterp spec fn regex_matches(pattern: Seq<char>, text: Seq<char>) -> bool;

/// Relies on `regex::Regex::new`: whether a pattern compiles is a function
/// of the pattern alone (the default builder configuration is used).
#[verifier::external_body]
fn regex_compile_ok(pattern: &str) -> (r: bool)
    ensures
        r == regex_accepts(pattern@),
{
    regex::Regex::new(pattern).is_ok()
}

/// Relies on `regex::Regex::new` and `regex::Regex::is_match`: whether the
/// pattern matches somewhere in the text is a function of the pattern and
/// the text alone.
#[verifier::external_body]
fn regex_is_match(pattern: &str, text: &str) -> (r: bool)
    requires
        regex_accepts(pattern@),
    ensures
        r == regex_matches(pattern@, text@),
{
    match regex::Regex::new(pattern) {
        Ok(re) => re.is_match(text),
        Err(_) => false,
    }
}

/// The wildcard rule, pattern and text as characters. `dot` is the latch:
/// a `*` just consumed a whole label and the pattern now owes a `.`.
/// On `*`: one character is consumed (never a `.`), then the label is
/// consumed up to and including the next `.` (setting the latch) or to the
/// end of the text. On any other pattern character: with the latch set only
/// a `.` is accepted and clears it; otherwise the characters must agree.
/// At the end of the pattern the latch must be clear and the text spent.
pub open spec fn glob_match(p: Seq<char>, t: Seq<char>, dot: bool) -> bool
    decreases p.len(),
{
    if p.len() == 0 {
        !dot && t.len() == 0
    } else if p[0] == '*' {
        t.len() >= 1 && t[0] != '.' && {
            let rest = t.drop_first();
            let h = head_label_len(rest) as int;
            if h == rest.len() {
                glob_match(p.drop_first(), Seq::empty(), dot)
            } else {
                glob_match(p.drop_first(), rest.skip(h + 1), true)
            }
        }
    } else if dot {
        p[0] == '.' && glob_match(p.drop_first(), t, false)
    } else {
        t.len() >= 1 && p[0] == t[0] && glob_match(p.drop_first(), t.drop_first(), false)
    }
}

/// A wildcard pattern, kept as its raw character sequence.
#[derive(Clone, Debug)]
pub struct WildcardMatch {
    pub chars: Vec<char>,
}

impl WildcardMatch {
    /// Keep the pattern's characters.
    pub fn new(raw: &str) -> (r: WildcardMatch)
        ensures
            r.chars@ == raw@,
    {
        WildcardMatch { chars: string_to_chars(raw) }
    }

    /// Whether the pattern matches the whole text, by the wildcard rule.
    #[verifier::loop_isolation(false)]
    #[verifier::rlimit(60)]
    pub fn is_match(&self, text: &str) -> (r: bool)
        ensures
            r == glob_match(self.chars@, text@, false),
    {
        let ghost p = self.chars@;
        let t = string_to_chars(text);
        let ghost tv = text@;
        let mut i: usize = 0;
        let mut j: usize = 0;
        let mut dot = false;
        proof {
            assert(p.skip(0) =~= p);
            assert(tv.skip(0) =~= tv);
        }
        while i < self.chars.len()
            invariant
                i <= p.len(),
                j <= tv.len(),
                glob_match(p, tv, false) == glob_match(p.skip(i as int), tv.skip(j as int), dot),
            decreases p.len() - i,
        {
            let ghost pcur = p.skip(i as int);
            let ghost tcur = tv.skip(j as int);
            proof {
                assert(pcur[0] == p[i as int]);
                assert(pcur.drop_first() =~= p.skip(i + 1));
            }
            let c = self.chars[i];
            if c == '*' {
                if j >= t.len() {
                    return false;
                }
                proof {
                    assert(tcur[0] == tv[j as int]);
                }
                if t[j] == '.' {
                    return false;
                }
                let ghost rest = tcur.drop_first();
                proof {
                    assert(rest =~= tv.skip(j + 1));
                }
                j = j + 1;
                let j0 = j;
                while j < t.len() && t[j] != '.'
                    invariant
                        j0 <= j <= tv.len(),
                        forall|k: int| j0 <= k < j ==> tv[k] != '.',
                    decreases tv.len() - j,
                {
                    j = j + 1;
                }
                proof {
                    assert forall|k: int| 0 <= k < j - j0 implies rest[k] != '.' by {
                        assert(rest[k] == tv[j0 + k]);
                    }
                    if j < tv.len() {
                        assert(rest[j - j0] == tv[j as int]);
                    }
                    lemma_head_label_len_eq(rest, j - j0);
                }
                let ghost h = (j - j0) as int;
                if j < t.len() {
                    // the scan stopped on a '.': consume it and set the latch
                    j = j + 1;
                    dot = true;
                    proof {
                        assert(rest.skip(h + 1) =~= tv.skip(j as int));
                    }
                } else {
                    proof {
                        assert(h == rest.len());
                        assert(tv.skip(j as int) =~= Seq::<char>::empty());
                    }
                }
                i = i + 1;
            } else {
                if dot {
                    if c == '.' {
                        dot = false;
                        i = i + 1;
                    } else {
                        return false;
                    }
                } else {
                    if j >= t.len() {
                        return false;
                    }
                    proof {
                        assert(tcur[0] == tv[j as int]);
                        assert(tcur.drop_first() =~= tv.skip(j + 1));
                    }
                    if c != t[j] {
                        return false;
                    }
                    i = i + 1;
                    j = j + 1;
                }
            }
        }
        proof {
            assert(p.skip(i as int) =~= Seq::<char>::empty());
        }
        !dot && j == t.len()
    }
}

/// One mode of a matcher; a regex pattern is kept without its `~` prefix.
#[derive(Debug)]
enum MatchMode {
    Static(String),
    Wildcard(WildcardMatch),
    Regex(String),
}

/// A matcher at the spec level.
pub enum SpecMatcher {
    Literal(Seq<char>),
    Wildcard(Seq<char>),
    Regex(Seq<char>),
}

/// The matcher a raw pattern denotes: a leading `~` names a regex, a `*`
/// anywhere a wildcard, anything else a literal.
pub open spec fn spec_matcher_of(raw: Seq<char>) -> SpecMatcher {
    if raw.len() > 0 && raw[0] == '~' {
        SpecMatcher::Regex(raw.drop_first())
    } else if exists|i: int| 0 <= i < raw.len() && raw[i] == '*' {
        SpecMatcher::Wildcard(raw)
    } else {
        SpecMatcher::Literal(raw)
    }
}

/// Whether a matcher matches a domain.
pub open spec fn matcher_matches(m: SpecMatcher, d: Seq<char>) -> bool {
    match m {
        SpecMatcher::Literal(p) => p == d,
        SpecMatcher::Wildcard(p) => glob_match(p, d, false),
        SpecMatcher::Regex(p) => regex_matches(p, d),
    }
}

/// The error of a pattern whose regular expression does not compile.
#[derive(Clone, Copy, Debug, PartialEq, Eq, Structural)]
pub struct RegexError;

/// A compiled domain matcher.
#[derive(Debug)]
pub struct Matcher {
    mode: MatchMode,
}

impl View for Matcher {
    type V = SpecMatcher;

    closed spec fn view(&self) -> SpecMatcher {
        match &self.mode {
            MatchMode::Static(s) => SpecMatcher::Literal(s@),
            MatchMode::Wildcard(w) => SpecMatcher::Wildcard(w.chars@),
            MatchMode::Regex(s) => SpecMatcher::Regex(s@),
        }
    }
}

impl Matcher {
    /// A regex-mode matcher holds a pattern that compiles.
    #[verifier::type_invariant]
    spec fn wf(&self) -> bool {
        match &self.mode {
            MatchMode::Regex(s) => regex_accepts(s@),
            _ => true,
        }
    }

    /// Build a matcher from a raw pattern. Fails exactly when the pattern
    /// names a regular expression that does not compile.
    pub fn new(raw: &str) -> (r: Result<Matcher, RegexError>)
        ensures
            r is Ok <==> (spec_matcher_of(raw@) matches SpecMatcher::Regex(p) ==> regex_accepts(
                p,
            )),
            r is Ok ==> r->Ok_0@ == spec_matcher_of(raw@),
    {
        let chars = string_to_chars(raw);
        if chars.len() > 0 && chars[0] == '~' {
            let reg = raw.substring_char(1, chars.len());
            proof {
                assert(reg@ =~= raw@.drop_first());
            }
            if regex_compile_ok(reg) {
                Ok(Matcher { mode: MatchMode::Regex(reg.to_owned()) })
            } else {
                Err(RegexError)
            }
        } else {
            let mut has_star = false;
            let mut i: usize = 0;
            while i < chars.len()
                invariant
                    i <= raw@.len(),
                    chars@ == raw@,
                    has_star == (exists|k: int| 0 <= k < i && raw@[k] == '*'),
                decreases raw@.len() - i,
            {
                if chars[i] == '*' {
                    has_star = true;
                }
                i = i + 1;
            }
            if has_star {
                Ok(Matcher { mode: MatchMode::Wildcard(WildcardMatch::new(raw)) })
            } else {
                Ok(Matcher { mode: MatchMode::Static(raw.to_owned()) })
            }
        }
    }

    /// Whether this matcher matches the domain.
    pub fn is_match(&self, domain: &str) -> (r: bool)
        ensures
            r == matcher_matches(self@, domain@),
    {
        proof {
            use_type_invariant(self);
        }
        match &self.mode {
            MatchMode::Static(s) => crate::text::str_eq(s.as_str(), domain),
            MatchMode::Wildcard(w) => w.is_match(domain),
            MatchMode::Regex(s) => regex_is_match(s.as_str(), domain),
        }
    }

    /// The pattern as it was written, the regex prefix restored.
    pub fn text(&self) -> (r: String)
        ensures
            (self@ matches SpecMatcher::Literal(p) ==> r@ == p),
            (self@ matches SpecMatcher::Wildcard(p) ==> r@ == p),
            (self@ matches SpecMatcher::Regex(p) ==> r@ == seq!['~'] + p),
    {
        match &self.mode {
            MatchMode::Static(s) => s.clone(),
            MatchMode::Wildcard(w) => crate::text::chars_to_string(&w.chars),
            MatchMode::Regex(s) => {
                let r = String::from_str("~").concat(s.as_str());
                proof {
                    reveal_strlit("~");
                    assert(r@ =~= seq!['~'] + s@);
                }
                r
            },
        }
    }
}

/// The literal law: a pattern with neither a wildcard nor a regex prefix
/// matches a domain exactly when it is that domain.
pub proof fn lemma_literal_matches(s: Seq<char>, t: Seq<char>)
    requires
        !(exists|i: int| 0 <= i < s.len() && s[i] == '*'),
        s.len() > 0 ==> s[0] != '~',
    ensures
        matcher_matches(spec_matcher_of(s), t) <==> s == t,
{
}

} // verus!
