//! Regular expressions of the `@core/regex` module, matched by regex-lite.
//! What regex-lite computes (whether and where a pattern matches) is named
//! here, function by function; the library turns its byte offsets into
//! codepoint offsets and cuts the matched text out of the haystack.

use vstd::prelude::*;

use regex_lite::Regex;

use crate::error::NativeError;
use crate::text::{
    byte_len, char_index, char_pos, chars_of, copy_range, is_boundary, lemma_byte_len_strict, push_str, string_of,
};

verus! {

/// regex-lite's compiled regular expression, known to Verus as an opaque type.
#[verifier::external_type_specification]
#[verifier::external_body]
pub struct ExRegex(Regex);

/// A compiled pattern, with the text it was compiled from.
pub struct Pattern {
    re: Regex,
    source: String,
}

impl View for Pattern {
    type V = Seq<char>;

    open spec fn view(&self) -> Seq<char> {
        self.source_text()
    }
}

impl Pattern {
    /// The text the pattern was compiled from.
    pub closed spec fn source_text(&self) -> Seq<char> {
        self.source@
    }
}

/// Why regex-lite refuses `pattern` (the text of its error), or `None`
/// when `Regex::new` accepts it.
pub uninterp spec fn pattern_error(pattern: Seq<char>) -> Option<Seq<char>>;

/// What `Regex::is_match` answers for `pattern` on `text`.
pub uninterp spec fn regex_is_match(pattern: Seq<char>, text: Seq<char>) -> bool;

/// The byte range of the leftmost-first match `Regex::find` reports.
pub uninterp spec fn regex_find(pattern: Seq<char>, text: Seq<char>) -> Option<(usize, usize)>;

/// The byte ranges of the successive matches `Regex::find_iter` reports.
pub uninterp spec fn regex_find_all(pattern: Seq<char>, text: Seq<char>) -> Seq<(usize, usize)>;

/// The byte range of each capture group (group 0 is the whole match) that
/// `Regex::captures` reports, or `None` when the pattern does not match.
pub uninterp spec fn regex_captures(pattern: Seq<char>, text: Seq<char>) -> Option<Seq<Option<(usize, usize)>>>;

/// The name of each capture group, as `Regex::capture_names` lists them.
pub uninterp spec fn regex_capture_names(pattern: Seq<char>) -> Seq<Option<Seq<char>>>;

/// `text` with its first match replaced (`Regex::replacen` with limit 1),
/// `$1` and `$name` in `replacement` expanded.
pub uninterp spec fn regex_replace_first(pattern: Seq<char>, text: Seq<char>, replacement: Seq<char>) -> Seq<char>;

/// `text` with every match replaced (`Regex::replace_all`).
pub uninterp spec fn regex_replace_all(pattern: Seq<char>, text: Seq<char>, replacement: Seq<char>) -> Seq<char>;

/// The pieces of `text` between matches (`Regex::split`).
pub uninterp spec fn regex_split(pattern: Seq<char>, text: Seq<char>) -> Seq<Seq<char>>;

/// A byte range that regex-lite reports in `text`: it starts no later than
/// it ends, and both ends fall on character boundaries (its documentation
/// of `Match::start` and `Match::end`).
pub open spec fn reported_range(text: Seq<char>, r: (usize, usize)) -> bool {
    &&& r.0 <= r.1
    &&& is_boundary(text, r.0 as int)
    &&& is_boundary(text, r.1 as int)
}

/// Calls `Regex::new`. Claimed: the pattern compiles exactly when
/// `pattern_error` names no error, and the error's text is the one named.
#[verifier::external_body]
fn regex_new(pattern: &str) -> (r: Result<Pattern, String>)
    ensures
        match r {
            Ok(p) => p@ == pattern@ && pattern_error(pattern@) is None,
            Err(m) => pattern_error(pattern@) == Some(m@),
        },
{
    match Regex::new(pattern) {
        Ok(re) => Ok(Pattern { re, source: pattern.to_string() }),
        Err(e) => Err(e.to_string()),
    }
}

/// Calls `Regex::is_match`. Claimed: the answer is `regex_is_match` of the
/// pattern's text and the haystack.
#[verifier::external_body]
fn regex_is_match_call(p: &Pattern, text: &str) -> (r: bool)
    ensures
        r == regex_is_match(p@, text@),
{
    p.re.is_match(text)
}

/// Calls `Regex::find`, keeping the byte range of the match. Claimed: the
/// range is `regex_find` of the pattern and the haystack, and (as regex-lite
/// documents) it is ordered and falls on character boundaries.
#[verifier::external_body]
fn regex_find_call(p: &Pattern, text: &str) -> (r: Option<(usize, usize)>)
    ensures
        r == regex_find(p@, text@),
        r matches Some(m) ==> reported_range(text@, m),
{
    p.re.find(text).map(|m| (m.start(), m.end()))
}

/// Calls `Regex::find_iter`, keeping the byte range of each match. Claimed:
/// the ranges are `regex_find_all`, each ordered and on character boundaries.
#[verifier::external_body]
fn regex_find_all_call(p: &Pattern, text: &str) -> (r: Vec<(usize, usize)>)
    ensures
        r@ == regex_find_all(p@, text@),
        forall|i: int| 0 <= i < r@.len() ==> reported_range(text@, #[trigger] r@[i]),
{
    p.re.find_iter(text).map(|m| (m.start(), m.end())).collect()
}

/// Calls `Regex::captures`, keeping the byte range of each group. Claimed:
/// the ranges are `regex_captures`, each ordered and on character boundaries.
#[verifier::external_body]
fn regex_captures_call(p: &Pattern, text: &str) -> (r: Option<Vec<Option<(usize, usize)>>>)
    ensures
        match r {
            Some(groups) => regex_captures(p@, text@) == Some(groups@) && forall|i: int|
                0 <= i < groups@.len() ==> (#[trigger] groups@[i] matches Some(g) ==> reported_range(text@, g)),
            None => regex_captures(p@, text@) is None,
        },
{
    p.re.captures(text).map(|c| c.iter().map(|m| m.map(|m| (m.start(), m.end()))).collect())
}

/// Calls `Regex::capture_names`. Claimed: the names are
/// `regex_capture_names` of the pattern.
#[verifier::external_body]
fn regex_capture_names_call(p: &Pattern) -> (r: Vec<Option<String>>)
    ensures
        r@.len() == regex_capture_names(p@).len(),
        forall|i: int|
            0 <= i < r@.len() ==> match #[trigger] r@[i] {
                Some(n) => regex_capture_names(p@)[i] == Some(n@),
                None => regex_capture_names(p@)[i] is None,
            },
{
    p.re.capture_names().map(|n| n.map(|n| n.to_string())).collect()
}

/// Calls `Regex::replacen` with limit 1. Claimed: the text is
/// `regex_replace_first` of the pattern, the haystack and the replacement.
#[verifier::external_body]
fn regex_replace_first_call(p: &Pattern, text: &str, replacement: &str) -> (r: String)
    ensures
        r@ == regex_replace_first(p@, text@, replacement@),
{
    p.re.replacen(text, 1, replacement).into_owned()
}

/// Calls `Regex::replace_all`. Claimed: the text is `regex_replace_all` of
/// the pattern, the haystack and the replacement.
#[verifier::external_body]
fn regex_replace_all_call(p: &Pattern, text: &str, replacement: &str) -> (r: String)
    ensures
        r@ == regex_replace_all(p@, text@, replacement@),
{
    p.re.replace_all(text, replacement).into_owned()
}

/// Calls `Regex::split`. Claimed: the pieces are `regex_split` of the
/// pattern and the haystack.
#[verifier::external_body]
fn regex_split_call(p: &Pattern, text: &str) -> (r: Vec<String>)
    ensures
        r@.len() == regex_split(p@, text@).len(),
        forall|i: int| 0 <= i < r@.len() ==> (#[trigger] r@[i])@ == regex_split(p@, text@)[i],
{
    p.re.split(text).map(|s| s.to_string()).collect()
}

/// A match: its text and its codepoint range in the haystack.
#[derive(Debug, Clone, PartialEq, Eq)]
pub struct Found {
    pub text: String,
    pub start: usize,
    pub end: usize,
}

/// The characters of `text` in the byte range `r`.
pub open spec fn range_text(text: Seq<char>, r: (usize, usize)) -> Seq<char> {
    text.subrange(char_pos(text, r.0 as int), char_pos(text, r.1 as int))
}

/// `f` is the match in `text` at the byte range `r`.
pub open spec fn found_at(f: Found, text: Seq<char>, r: (usize, usize)) -> bool {
    &&& f.start as int == char_pos(text, r.0 as int)
    &&& f.end as int == char_pos(text, r.1 as int)
    &&& f.text@ == range_text(text, r)
}

/// The text of a match is the haystack between its start and its end,
/// counted in codepoints.
pub proof fn law_found_text(f: Found, text: Seq<char>, r: (usize, usize))
    requires
        found_at(f, text, r),
        reported_range(text, r),
    ensures
        f.start <= f.end <= text.len(),
        f.text@ == text.subrange(f.start as int, f.end as int),
{
    let a = char_pos(text, r.0 as int);
    let b = char_pos(text, r.1 as int);
    assert(0 <= a <= text.len() && byte_len(text.take(a)) == r.0);
    assert(0 <= b <= text.len() && byte_len(text.take(b)) == r.1);
    if a > b {
        lemma_byte_len_strict(text, b, a);
    }
}

/// The match at a reported byte range of `cs`.
fn found_in(cs: &Vec<char>, r: (usize, usize)) -> (f: Found)
    requires
        byte_len(cs@) < usize::MAX,
        reported_range(cs@, r),
    ensures
        found_at(f, cs@, r),
{
    let s = char_index(cs, r.0);
    let e = char_index(cs, r.1);
    if s > e {
        proof {
            lemma_byte_len_strict(cs@, e as int, s as int);
        }
    }
    let t = copy_range(cs, s, e);
    Found { text: string_of(&t), start: s, end: e }
}

/// The pattern `pattern` compiled, or the error that refuses it.
pub fn compile(pattern: &str) -> (r: Result<Pattern, NativeError>)
    ensures
        match pattern_error(pattern@) {
            None => r matches Ok(p) && p@ == pattern@,
            Some(m) => r matches Err(e) && e.kind@ == "regex error"@ && e.message@ == "invalid pattern: "@ + m,
        },
{
    match regex_new(pattern) {
        Ok(p) => Ok(p),
        Err(m) => {
            let mut msg = chars_of("invalid pattern: ");
            push_str(&mut msg, m.as_str());
            Err(NativeError::new("regex error", string_of(&msg)))
        },
    }
}

/// Whether `p` matches somewhere in `text`.
pub fn is_match(p: &Pattern, text: &str) -> (r: bool)
    ensures
        r == regex_is_match(p@, text@),
{
    regex_is_match_call(p, text)
}

/// The first match of `p` in `text`, with codepoint offsets.
pub fn find(p: &Pattern, text: &str) -> (r: Option<Found>)
    requires
        byte_len(text@) < usize::MAX,
    ensures
        match regex_find(p@, text@) {
            Some(m) => r matches Some(f) && found_at(f, text@, m),
            None => r is None,
        },
{
    match regex_find_call(p, text) {
        Some(m) => {
            let cs = chars_of(text);
            Some(found_in(&cs, m))
        },
        None => None,
    }
}

/// Every match of `p` in `text`, in order, with codepoint offsets.
pub fn find_all(p: &Pattern, text: &str) -> (r: Vec<Found>)
    requires
        byte_len(text@) < usize::MAX,
    ensures
        r@.len() == regex_find_all(p@, text@).len(),
        forall|i: int| 0 <= i < r@.len() ==> found_at(#[trigger] r@[i], text@, regex_find_all(p@, text@)[i]),
{
    let ranges = regex_find_all_call(p, text);
    let cs = chars_of(text);
    let mut out: Vec<Found> = Vec::new();
    let mut i: usize = 0;
    while i < ranges.len()
        invariant
            i <= ranges@.len(),
            cs@ == text@,
            byte_len(text@) < usize::MAX,
            ranges@ == regex_find_all(p@, text@),
            forall|k: int| 0 <= k < ranges@.len() ==> reported_range(text@, #[trigger] ranges@[k]),
            out@.len() == i,
            forall|k: int| 0 <= k < i ==> found_at(#[trigger] out@[k], text@, ranges@[k]),
        decreases ranges.len() - i,
    {
        let f = found_in(&cs, ranges[i]);
        out.push(f);
        i = i + 1;
    }
    out
}

/// The text of each group of a match in `text`, where the group took part.
pub open spec fn group_texts(text: Seq<char>, groups: Seq<Option<(usize, usize)>>) -> Seq<Option<Seq<char>>> {
    groups.map_values(
        |g: Option<(usize, usize)>|
            match g {
                Some(r) => Some(range_text(text, r)),
                None => None,
            },
    )
}

/// The named groups that took part in a match, in group order, each with
/// its text: group `i` is named `names[i]` and has the text `texts[i]`.
pub open spec fn named_texts(names: Seq<Option<Seq<char>>>, texts: Seq<Option<Seq<char>>>) -> Seq<(Seq<char>, Seq<char>)>
    decreases names.len(),
{
    if names.len() == 0 {
        seq![]
    } else {
        let i = names.len() - 1;
        let rest = named_texts(names.drop_last(), texts);
        if i < texts.len() && names[i] is Some && texts[i] is Some {
            rest.push((names[i]->0, texts[i]->0))
        } else {
            rest
        }
    }
}

/// The view of an optional string.
pub open spec fn opt_text(o: Option<String>) -> Option<Seq<char>> {
    match o {
        Some(s) => Some(s@),
        None => None,
    }
}

/// The groups of a match: the text of each group by index (group 0 is the
/// whole match), and of each named group that took part, by name.
#[derive(Debug, Clone)]
pub struct Captured {
    pub groups: Vec<Option<String>>,
    pub named: Vec<(String, String)>,
}

/// The groups of the first match of `p` in `text`, if it matches.
pub fn captures(p: &Pattern, text: &str) -> (r: Option<Captured>)
    requires
        byte_len(text@) < usize::MAX,
    ensures
        match regex_captures(p@, text@) {
            None => r is None,
            Some(gs) => r matches Some(c) && c.groups@.len() == gs.len() && (forall|i: int|
                0 <= i < gs.len() ==> opt_text(#[trigger] c.groups@[i]) == group_texts(text@, gs)[i]) && ({
                let nt = named_texts(regex_capture_names(p@), group_texts(text@, gs));
                c.named@.len() == nt.len() && forall|i: int|
                    0 <= i < nt.len() ==> ((#[trigger] c.named@[i]).0@, c.named@[i].1@) == nt[i]
            }),
        },
{
    let gs = match regex_captures_call(p, text) {
        Some(gs) => gs,
        None => return None,
    };
    let ghost tv = group_texts(text@, gs@);
    let cs = chars_of(text);
    let mut groups: Vec<Option<String>> = Vec::new();
    let mut i: usize = 0;
    while i < gs.len()
        invariant
            i <= gs@.len(),
            cs@ == text@,
            byte_len(text@) < usize::MAX,
            tv == group_texts(text@, gs@),
            forall|k: int| 0 <= k < gs@.len() ==> (#[trigger] gs@[k] matches Some(g) ==> reported_range(text@, g)),
            groups@.len() == i,
            forall|k: int| 0 <= k < i ==> opt_text(#[trigger] groups@[k]) == tv[k],
        decreases gs.len() - i,
    {
        match gs[i] {
            Some(g) => {
                let f = found_in(&cs, g);
                groups.push(Some(f.text));
            },
            None => {
                groups.push(None);
            },
        }
        i = i + 1;
    }
    let names = regex_capture_names_call(p);
    let ghost nv = regex_capture_names(p@);
    let mut named: Vec<(String, String)> = Vec::new();
    let mut j: usize = 0;
    while j < names.len()
        invariant
            j <= names@.len() == nv.len(),
            forall|k: int|
                0 <= k < names@.len() ==> match #[trigger] names@[k] {
                    Some(n) => nv[k] == Some(n@),
                    None => nv[k] is None,
                },
            groups@.len() == tv.len(),
            forall|k: int| 0 <= k < groups@.len() ==> opt_text(#[trigger] groups@[k]) == tv[k],
            named@.len() == named_texts(nv.take(j as int), tv).len(),
            forall|k: int|
                0 <= k < named@.len() ==> ((#[trigger] named@[k]).0@, named@[k].1@) == named_texts(
                    nv.take(j as int),
                    tv,
                )[k],
        decreases names.len() - j,
    {
        proof {
            assert(nv.take(j + 1).drop_last() =~= nv.take(j as int));
        }
        if j < groups.len() {
            match (&names[j], &groups[j]) {
                (Some(n), Some(t)) => {
                    named.push((n.clone(), t.clone()));
                },
                _ => {},
            }
        }
        j = j + 1;
    }
    proof {
        assert(nv.take(nv.len() as int) =~= nv);
    }
    Some(Captured { groups, named })
}

/// `text` with the first match of `p` replaced by `replacement`.
pub fn replace_first(p: &Pattern, text: &str, replacement: &str) -> (r: String)
    ensures
        r@ == regex_replace_first(p@, text@, replacement@),
{
    regex_replace_first_call(p, text, replacement)
}

/// `text` with every match of `p` replaced by `replacement`.
pub fn replace_all(p: &Pattern, text: &str, replacement: &str) -> (r: String)
    ensures
        r@ == regex_replace_all(p@, text@, replacement@),
{
    regex_replace_all_call(p, text, replacement)
}

/// The pieces of `text` between the matches of `p`.
pub fn split(p: &Pattern, text: &str) -> (r: Vec<String>)
    ensures
        r@.len() == regex_split(p@, text@).len(),
        forall|i: int| 0 <= i < r@.len() ==> (#[trigger] r@[i])@ == regex_split(p@, text@)[i],
{
    regex_split_call(p, text)
}

} // verus!
