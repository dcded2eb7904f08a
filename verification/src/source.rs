//! The source map: named source texts, each with a stable `SourceId`, and the
//! half-open byte ranges (`Span`s) that point into them. It turns a span into
//! a line/column location and renders the numbered lines around a span with a
//! caret underline. Id 0 is the synthetic, empty `<internal>` source.

use vstd::prelude::*;
use vstd::string::StringSliceAdditionalSpecFns;

use crate::text::{
    append_chars, byte_len, chars_of, decimal, decimal_chars, lemma_byte_len_prefix_le,
    lemma_byte_len_step, lemma_byte_len_strict, lit, pad_left, push_padded, push_repeat,
    push_str, repeat, spaces, string_of, trim, trim_bounds, copy_range, utf8_width, char_width,
    char_index, char_pos, prefix_at, is_char_boundary,
};

verus! {

/// Index of a source in its `SourceMap`.
#[derive(Debug, Clone, Copy, PartialEq, Eq, Structural)]
pub struct SourceId(pub usize);

impl SourceId {
    /// The synthetic `<internal>` source used for spans of built-in calls.
    pub fn internal() -> (r: SourceId)
        ensures
            r.0 == 0,
    {
        SourceId(0)
    }
}

/// The half-open byte range `[start, end)` of a source.
#[derive(Debug, Clone, Copy, PartialEq, Eq, Structural)]
pub struct Span {
    pub source: SourceId,
    pub start: usize,
    pub end: usize,
}

impl Span {
    /// The empty span at the start of the internal source.
    pub fn internal() -> (r: Span)
        ensures
            r.source.0 == 0,
            r.start == 0,
            r.end == 0,
    {
        Span { source: SourceId::internal(), start: 0, end: 0 }
    }

    /// The smallest span that covers both spans.
    pub fn merge(self, other: Span) -> (r: Span)
        requires
            self.source == other.source,
        ensures
            r == merged(self, other),
    {
        Span {
            source: self.source,
            start: if self.start <= other.start { self.start } else { other.start },
            end: if self.end >= other.end { self.end } else { other.end },
        }
    }
}

impl Span {
    /// `self` is the empty span at the start of the internal source.
    pub open spec fn is_internal(self) -> bool {
        self.source.0 == 0 && self.start == 0 && self.end == 0
    }

    /// The span covering both: their merge when they belong to one source;
    /// otherwise the one that is not the empty internal span.
    pub fn cover(self, other: Span) -> (r: Span)
        ensures
            self.source == other.source ==> r.source == self.source && r.start == (if self.start
                <= other.start { self.start } else { other.start }) && r.end == (if self.end
                >= other.end { self.end } else { other.end }),
            self.source != other.source && self.is_internal() ==> r == other,
            self.source != other.source && !self.is_internal() ==> r == self,
    {
        if self.source == other.source {
            self.merge(other)
        } else if self.source.0 == 0 && self.start == 0 && self.end == 0 {
            other
        } else {
            self
        }
    }
}

/// The smallest span of `a`'s source that covers `a` and `b`.
pub open spec fn merged(a: Span, b: Span) -> Span {
    Span {
        source: a.source,
        start: if a.start <= b.start { a.start } else { b.start },
        end: if a.end >= b.end { a.end } else { b.end },
    }
}

/// Merging does not depend on the order of the spans.
pub proof fn law_merge_commutes(a: Span, b: Span)
    requires
        a.source == b.source,
    ensures
        merged(a, b) == merged(b, a),
{
}

/// A merged span covers both spans, and is a span.
pub proof fn law_merge_covers(a: Span, b: Span)
    requires
        a.start <= a.end,
        b.start <= b.end,
    ensures
        merged(a, b).start <= a.start,
        merged(a, b).start <= b.start,
        merged(a, b).end >= a.end,
        merged(a, b).end >= b.end,
        merged(a, b).start <= merged(a, b).end,
{
}

/// Zero-based line and byte column of a position.
#[derive(Debug, Clone, Copy, PartialEq, Eq, Structural)]
pub struct Location {
    pub line: usize,
    pub col: usize,
}

/// A named source text.
pub struct Source {
    pub id: SourceId,
    pub name: String,
    pub content: String,
}

/// Number of `'\n'` in `s`.
pub open spec fn count_nl(s: Seq<char>) -> nat
    decreases s.len(),
{
    if s.len() == 0 {
        0
    } else {
        count_nl(s.drop_last()) + if s.last() == '\n' { 1nat } else { 0nat }
    }
}

/// The position just after the last `'\n'` of `s` (0 when there is none).
pub open spec fn after_last_nl(s: Seq<char>) -> int
    decreases s.len(),
{
    if s.len() == 0 {
        0
    } else if s.last() == '\n' {
        s.len() as int
    } else {
        after_last_nl(s.drop_last())
    }
}

/// The segments of `s` between `'\n'` characters (`k` newlines give `k + 1` segments).
pub open spec fn split_nl(s: Seq<char>) -> Seq<Seq<char>>
    decreases s.len(),
{
    if s.len() == 0 {
        seq![Seq::<char>::empty()]
    } else {
        let r = split_nl(s.drop_last());
        if s.last() == '\n' {
            r.push(Seq::<char>::empty())
        } else {
            r.update(r.len() - 1, r.last().push(s.last()))
        }
    }
}

/// `l` without one trailing `'\r'`.
pub open spec fn strip_cr(l: Seq<char>) -> Seq<char> {
    if l.len() > 0 && l.last() == '\r' {
        l.drop_last()
    } else {
        l
    }
}

/// Number of lines of `s` as `str::lines` yields them.
pub open spec fn line_count(s: Seq<char>) -> nat {
    if s.len() == 0 {
        0
    } else if s.last() == '\n' {
        (split_nl(s).len() - 1) as nat
    } else {
        split_nl(s).len()
    }
}

/// The lines of `s` as `str::lines` yields them: split at `'\n'`, a line
/// ended by `"\r\n"` loses its `'\r'`, and a final `'\n'` opens no new line.
pub open spec fn lines(s: Seq<char>) -> Seq<Seq<char>> {
    Seq::new(
        line_count(s),
        |i: int|
            if i < split_nl(s).len() - 1 {
                strip_cr(split_nl(s)[i])
            } else {
                split_nl(s)[i]
            },
    )
}

/// Width of the line-number gutter when lines up to `last` (zero-based) may show.
pub open spec fn gutter_width(last: nat) -> nat {
    decimal(last).len()
}

/// One numbered row: the number right-aligned, `" | "`, the line, a newline.
pub open spec fn numbered_row(n: nat, width: nat, line: Seq<char>) -> Seq<char> {
    pad_left(decimal(n + 1), width) + " | "@ + line + seq!['\n']
}

/// The caret row under a line: the blank gutter, `" | "`, `col` spaces and the carets.
pub open spec fn caret_row(width: nat, col: nat, len: nat) -> Seq<char> {
    spaces(width) + " | "@ + spaces(col) + repeat('^', if len == 0 { 1 } else { len }) + seq![
        '\n',
    ]
}

/// The rows for the lines `first .. k` of `ls`, with the caret row after line `at`.
pub open spec fn context_rows(
    ls: Seq<Seq<char>>,
    first: nat,
    k: nat,
    at: nat,
    width: nat,
    col: nat,
    len: nat,
) -> Seq<char>
    decreases k,
{
    if k <= first {
        Seq::<char>::empty()
    } else {
        let n = (k - 1) as nat;
        context_rows(ls, first, n, at, width, col, len) + numbered_row(n, width, ls[n as int]) + if n
            == at {
            caret_row(width, col, len)
        } else {
            Seq::<char>::empty()
        }
    }
}

/// `s` without its last character, if it has one.
pub open spec fn drop_final(s: Seq<char>) -> Seq<char> {
    if s.len() > 0 {
        s.drop_last()
    } else {
        s
    }
}

pub proof fn lemma_encode_len(s: Seq<char>)
    ensures
        vstd::utf8::encode_utf8(s).len() == byte_len(s),
    decreases s.len(),
{
    if s.len() > 0 {
        lemma_encode_len(s.drop_first());
        let u = s[0] as u32;
        assert(vstd::utf8::is_scalar(u)) by {
            vstd::utf8::char_is_scalar(s[0]);
        }
    }
}

impl Source {
    /// The characters of the content.
    pub open spec fn text(&self) -> Seq<char> {
        self.content@
    }

    /// A span of this source.
    pub fn create_span(&self, start: usize, end: usize) -> (r: Span)
        requires
            start <= end <= byte_len(self.text()),
        ensures
            r.source == self.id,
            r.start == start,
            r.end == end,
    {
        Span { source: self.id, start, end }
    }
}

/// The characters and byte length of a string.
pub fn decode(s: &str) -> (r: (Vec<char>, usize))
    requires
        byte_len(s@) <= usize::MAX,
    ensures
        r.0@ == s@,
        r.1 == byte_len(s@),
{
    let chars = chars_of(s);
    let n = s.len();
    proof {
        lemma_encode_len(s@);
        assert(s.spec_bytes() == vstd::utf8::encode_utf8(s@));
    }
    (chars, n)
}

/// The named sources of a run, indexed by their `SourceId`.
pub struct SourceMap {
    sources: Vec<Source>,
    texts: Vec<Vec<char>>,
    sizes: Vec<usize>,
}

impl SourceMap {
    pub closed spec fn len(&self) -> nat {
        self.sources@.len()
    }

    /// The source with index `i`.
    pub closed spec fn source(&self, i: int) -> &Source {
        &self.sources@[i]
    }

    pub closed spec fn wf(&self) -> bool {
        &&& self.sources@.len() >= 1
        &&& self.texts@.len() == self.sources@.len()
        &&& self.sizes@.len() == self.sources@.len()
        &&& forall|i: int|
            0 <= i < self.sources@.len() ==> {
                &&& #[trigger] self.sources@[i].id.0 == i
                &&& self.texts@[i]@ == self.sources@[i].content@
                &&& self.sizes@[i] == byte_len(self.sources@[i].content@)
                &&& byte_len(self.sources@[i].content@) < usize::MAX
            }
    }

    /// The source at index `i` of a well-formed map carries the id `i`.
    pub proof fn lemma_source_id(&self, i: int)
        requires
            self.wf(),
            0 <= i < self.len(),
        ensures
            self.source(i).id.0 == i,
    {
        assert(self.sources@[i].id.0 == i);
    }

    proof fn lemma_size(&self, i: int)
        requires
            self.wf(),
            0 <= i < self.len(),
        ensures
            byte_len(self.text_of(i)) < usize::MAX,
    {
        assert(self.sources@[i].id.0 == i);
    }

    /// The characters of a source.
    fn text_chars(&self, id: SourceId) -> (r: &[char])
        requires
            self.wf(),
            id.0 < self.len(),
        ensures
            r@ == self.text_of(id.0 as int),
    {
        assert(self.sources@[id.0 as int].id.0 == id.0);
        self.texts[id.0].as_slice()
    }

    /// `self` holds every source of `before`, under the same id.
    pub open spec fn keeps(&self, before: &SourceMap) -> bool {
        &&& before.len() <= self.len()
        &&& forall|i: int| 0 <= i < before.len() ==> #[trigger] self.source(i) == before.source(i)
    }

    /// The characters of the source with index `i`.
    pub open spec fn text_of(&self, i: int) -> Seq<char> {
        self.source(i).content@
    }

    /// `span` starts in a source of this map, at a character boundary.
    pub open spec fn valid_start(&self, span: Span) -> bool {
        &&& span.source.0 < self.len()
        &&& exists|i: int|
            0 <= i <= self.text_of(span.source.0 as int).len() && #[trigger] byte_len(
                self.text_of(span.source.0 as int).take(i),
            ) == span.start
    }

    /// `span` points into a source of this map and starts at a character boundary.
    pub open spec fn valid_span(&self, span: Span) -> bool {
        &&& self.valid_start(span)
        &&& span.start <= span.end <= byte_len(self.text_of(span.source.0 as int))
    }

    /// The characters before the start of `span`.
    pub open spec fn prefix(&self, span: Span) -> Seq<char> {
        prefix_at(self.text_of(span.source.0 as int), span.start as int)
    }

    /// The location of the start of `span`.
    pub open spec fn location(&self, span: Span) -> (nat, nat) {
        let p = self.prefix(span);
        (count_nl(p), byte_len(p.skip(after_last_nl(p))))
    }

    pub open spec fn name_of(&self, i: int) -> Seq<char> {
        self.source(i).name@
    }

    /// `name:line:col` of the start of `span`, counted from one.
    pub open spec fn location_text(&self, span: Span) -> Seq<char> {
        self.name_of(span.source.0 as int) + ":"@ + decimal(self.location(span).0 + 1) + ":"@
            + decimal(self.location(span).1 + 1)
    }

    /// The trimmed line on which `span` starts, if the text has that line.
    pub open spec fn line_text(&self, span: Span) -> Option<Seq<char>> {
        let ls = lines(self.text_of(span.source.0 as int));
        if self.location(span).0 < ls.len() {
            Some(trim(ls[self.location(span).0 as int]))
        } else {
            None
        }
    }

    /// The numbered lines around `span`, `pre` before and `post` after its line.
    pub open spec fn context_text(&self, span: Span, pre: nat, post: nat) -> Seq<char> {
        let (line, col) = self.location(span);
        let ls = lines(self.text_of(span.source.0 as int));
        let first: nat = if line >= pre { (line - pre) as nat } else { 0 };
        let last: nat = line + post;
        let stop: nat = if last + 1 <= ls.len() { last + 1 } else { ls.len() };
        drop_final(
            context_rows(ls, first, stop, line, gutter_width(last), col, (span.end - span.start) as nat),
        )
    }

    /// A map holding only the empty `<internal>` source.
    pub fn new() -> (m: SourceMap)
        ensures
            m.wf(),
            m.len() == 1,
            m.source(0).id.0 == 0,
            m.name_of(0) == "<internal>"@,
            m.text_of(0) == Seq::<char>::empty(),
    {
        let mut sources: Vec<Source> = Vec::new();
        let mut texts: Vec<Vec<char>> = Vec::new();
        let mut sizes: Vec<usize> = Vec::new();
        proof {
            assert(byte_len(Seq::<char>::empty()) == 0);
        }
        sources.push(Source { id: SourceId::internal(), name: lit("<internal>"), content: String::new() });
        texts.push(Vec::new());
        sizes.push(0);
        let m = SourceMap { sources, texts, sizes };
        assert(m.sources@[0].id.0 == 0);
        m
    }

    /// Adds a source under the next free id and returns it.
    pub fn add(&mut self, name: String, content: String) -> (r: &Source)
        requires
            old(self).wf(),
            byte_len(content@) < usize::MAX,
        ensures
            final(self).wf(),
            final(self).len() == old(self).len() + 1,
            forall|i: int| 0 <= i < old(self).len() ==> final(self).source(i) == old(self).source(i),
            final(self).keeps(old(self)),
            final(self).source(old(self).len() as int) == r,
            r.id.0 == old(self).len(),
            r.name@ == name@,
            r.content@ == content@,
    {
        let (chars, size) = decode(content.as_str());
        let id = SourceId(self.sources.len());
        let ghost before = self.sources@;
        self.sources.push(Source { id, name, content });
        self.texts.push(chars);
        self.sizes.push(size);
        assert(forall|i: int| 0 <= i < before.len() ==> self.sources@[i] == before[i]);
        let n = self.sources.len();
        &self.sources[n - 1]
    }

    /// Whether `span` points into a source of this map and starts at a
    /// character boundary.
    pub fn is_valid_span(&self, span: Span) -> (r: bool)
        requires
            self.wf(),
        ensures
            r == self.valid_span(span),
    {
        let i = span.source.0;
        if i >= self.sources.len() {
            return false;
        }
        assert(self.sources@[i as int].id.0 == i);
        if !(span.start <= span.end && span.end <= self.sizes[i]) {
            return false;
        }
        let b = is_char_boundary(&self.texts[i], span.start);
        assert(self.texts@[i as int]@ == self.text_of(i as int));
        assert(b == self.valid_start(span));
        b
    }

    /// The source with id `id`.
    pub fn get(&self, id: SourceId) -> (r: &Source)
        requires
            self.wf(),
            id.0 < self.len(),
        ensures
            r == self.source(id.0 as int),
            r.id == id,
    {
        assert(self.sources@[id.0 as int].id.0 == id.0);
        &self.sources[id.0]
    }

    /// Zero-based line and byte column of the start of `span`.
    pub fn get_location(&self, span: Span) -> (loc: Location)
        requires
            self.wf(),
            self.valid_start(span),
        ensures
            loc.line == self.location(span).0,
            loc.col == self.location(span).1,
            loc.line <= span.start,
            loc.col <= span.start,
            loc.line < usize::MAX,
            loc.col < usize::MAX,
    {
        let cs = self.text_chars(span.source);
        proof {
            self.lemma_size(span.source.0 as int);
        }
        let k = char_index(cs, span.start);
        let ghost t = cs@;
        let mut line: usize = 0;
        let mut col: usize = 0;
        let mut j: usize = 0;
        proof {
            assert(t.take(0) =~= Seq::<char>::empty());
            assert(byte_len(Seq::<char>::empty()) == 0);
            assert(t.take(0).skip(0) =~= Seq::<char>::empty());
            lemma_byte_len_prefix_le(t, k as int);
            self.lemma_size(span.source.0 as int);
        }
        while j < k
            invariant
                j <= k <= t.len(),
                cs@ == t,
                byte_len(t.take(k as int)) == span.start,
                byte_len(t) < usize::MAX,
                line == count_nl(t.take(j as int)),
                col == byte_len(t.take(j as int).skip(after_last_nl(t.take(j as int)))),
                col <= byte_len(t.take(j as int)),
                line <= byte_len(t.take(j as int)),
            decreases k - j,
        {
            let c = cs[j];
            let ghost p = t.take(j as int);
            let ghost q = t.take(j + 1);
            proof {
                assert(q.drop_last() =~= p);
                assert(q.last() == c);
                lemma_byte_len_step(t, j as int);
                lemma_byte_len_prefix_le(t, j + 1);
                assert(t.take(t.len() as int) =~= t);
                if j + 1 < k {
                    lemma_byte_len_strict(t, j + 1, k as int);
                }
            }
            if c == '\n' {
                line = line + 1;
                col = 0;
                proof {
                    assert(q.skip(q.len() as int) =~= Seq::<char>::empty());
                    assert(byte_len(Seq::<char>::empty()) == 0);
                }
            } else {
                col = col + char_width(c);
                proof {
                    let a = after_last_nl(p);
                    assert(after_last_nl(q) == a);
                    lemma_after_last_nl_bound(p);
                    assert(q.skip(a) =~= p.skip(a).push(c));
                    lemma_push_byte_len(p.skip(a), c);
                }
            }
            j = j + 1;
        }
        Location { line, col }
    }

    /// `name:line:col`, with line and column counted from one.
    pub fn format_location(&self, span: Span) -> (r: String)
        requires
            self.wf(),
            self.valid_start(span),
        ensures
            r@ == self.location_text(span),
    {
        let source = self.get(span.source);
        let loc = self.get_location(span);
        proof {
            self.lemma_size(span.source.0 as int);
        }
        let mut out: Vec<char> = chars_of(source.name.as_str());
        push_str(&mut out, ":");
        let l = decimal_chars(loc.line + 1);
        append_chars(&mut out, &l);
        push_str(&mut out, ":");
        let c = decimal_chars(loc.col + 1);
        append_chars(&mut out, &c);
        string_of(&out)
    }

    /// The trimmed text of the line on which `span` starts, if there is such a line.
    pub fn extract_line(&self, span: Span) -> (r: Option<String>)
        requires
            self.wf(),
            self.valid_start(span),
        ensures
            match r {
                Some(l) => self.line_text(span) == Some(l@),
                None => self.line_text(span) is None,
            },
    {
        let source = self.get(span.source);
        let loc = self.get_location(span);
        let ls = split_lines(self.text_chars(span.source));
        if loc.line < ls.len() {
            let l = &ls[loc.line];
            let (a, b) = trim_bounds(l.as_slice());
            let t = copy_range(l.as_slice(), a, b);
            Some(string_of(&t))
        } else {
            None
        }
    }

    /// The numbered lines from `pre_content` lines before the line of `span`
    /// to `post_content` lines after it, with a caret row under the span.
    pub fn render_span_context(&self, span: Span, pre_content: usize, post_content: usize) -> (r:
        String)
        requires
            self.wf(),
            self.valid_span(span),
            self.location(span).0 + post_content <= usize::MAX,
        ensures
            r@ == self.context_text(span, pre_content as nat, post_content as nat),
    {
        let source = self.get(span.source);
        let loc = self.get_location(span);
        let ls = split_lines(self.text_chars(span.source));
        let first_shown = if loc.line >= pre_content { loc.line - pre_content } else { 0 };
        let last_shown = loc.line + post_content;
        let width_digits = decimal_chars(last_shown);
        let width = width_digits.len();
        let stop = if last_shown < ls.len() { last_shown + 1 } else { ls.len() };
        let ulen = span.end - span.start;
        let ghost sl = lines(self.text_of(span.source.0 as int));
        let mut out: Vec<char> = Vec::new();
        let mut n: usize = first_shown;
        if stop < first_shown {
            n = stop;
        }
        let ghost start_n = n;
        proof {
            assert(context_rows(sl, first_shown as nat, start_n as nat, loc.line as nat, width as nat, loc.col as nat, ulen as nat) =~= Seq::<char>::empty());
        }
        while n < stop
            invariant
                first_shown <= n || n == stop,
                n <= stop <= ls@.len(),
                ls@.len() == sl.len(),
                forall|i: int| 0 <= i < ls@.len() ==> #[trigger] ls@[i]@ == sl[i],
                out@ == context_rows(sl, first_shown as nat, n as nat, loc.line as nat, width as nat, loc.col as nat, ulen as nat),
            decreases stop - n,
        {
            push_row(&mut out, n, width, ls[n].as_slice(), n == loc.line, loc.col, ulen);
            n = n + 1;
            proof {
                assert(out@ =~= context_rows(sl, first_shown as nat, n as nat, loc.line as nat, width as nat, loc.col as nat, ulen as nat));
            }
        }
        proof {
            if stop < first_shown {
                assert(out@ =~= context_rows(sl, first_shown as nat, stop as nat, loc.line as nat, width as nat, loc.col as nat, ulen as nat));
            }
        }
        out.pop();
        proof {
            assert(out@ =~= drop_final(context_rows(sl, first_shown as nat, stop as nat, loc.line as nat, width as nat, loc.col as nat, ulen as nat)));
        }
        string_of(&out)
    }
}

fn push_row(
    out: &mut Vec<char>,
    n: usize,
    width: usize,
    line: &[char],
    caret: bool,
    col: usize,
    ulen: usize,
)
    requires
        n < usize::MAX,
    ensures
        final(out)@ == old(out)@ + numbered_row(n as nat, width as nat, line@) + if caret {
            caret_row(width as nat, col as nat, ulen as nat)
        } else {
            Seq::<char>::empty()
        },
{
    let ghost start = out@;
    let num = decimal_chars(n + 1);
    push_padded(out, &num, width);
    push_str(out, " | ");
    append_chars(out, line);
    out.push('\n');
    assert(out@ =~= start + numbered_row(n as nat, width as nat, line@));
    if caret {
        let ghost mid = out@;
        push_repeat(out, ' ', width);
        push_str(out, " | ");
        push_repeat(out, ' ', col);
        push_repeat(out, '^', if ulen == 0 { 1 } else { ulen });
        out.push('\n');
        assert(out@ =~= mid + caret_row(width as nat, col as nat, ulen as nat));
    }
    assert(out@ =~= start + numbered_row(n as nat, width as nat, line@) + if caret {
        caret_row(width as nat, col as nat, ulen as nat)
    } else {
        Seq::<char>::empty()
    });
}

/// `c` added at the end adds its width.
pub proof fn lemma_push_byte_len(s: Seq<char>, c: char)
    ensures
        byte_len(s.push(c)) == byte_len(s) + utf8_width(c),
{
    crate::text::lemma_byte_len_concat(s, seq![c]);
    assert(s.push(c) =~= s + seq![c]);
    assert(seq![c].drop_first() =~= Seq::<char>::empty());
    assert(byte_len(Seq::<char>::empty()) == 0);
}

pub proof fn lemma_after_last_nl_bound(s: Seq<char>)
    ensures
        0 <= after_last_nl(s) <= s.len(),
    decreases s.len(),
{
    if s.len() > 0 && s.last() != '\n' {
        lemma_after_last_nl_bound(s.drop_last());
    }
}

/// The lines of `s`, as `str::lines` yields them.
pub fn split_lines(s: &[char]) -> (r: Vec<Vec<char>>)
    ensures
        r@.len() == lines(s@).len(),
        forall|i: int| 0 <= i < r@.len() ==> #[trigger] r@[i]@ == lines(s@)[i],
{
    let mut res: Vec<Vec<char>> = Vec::new();
    let mut cur: Vec<char> = Vec::new();
    let ghost mut done: Seq<Seq<char>> = Seq::empty();
    let mut k: usize = 0;
    assert(s@.take(0) =~= Seq::<char>::empty());
    while k < s.len()
        invariant
            k <= s@.len(),
            split_nl(s@.take(k as int)) == done.push(cur@),
            res@.len() == done.len(),
            forall|i: int| 0 <= i < done.len() ==> #[trigger] res@[i]@ == strip_cr(done[i]),
        decreases s.len() - k,
    {
        let c = s[k];
        let ghost q = s@.take(k + 1);
        assert(q.drop_last() =~= s@.take(k as int));
        assert(q.last() == c);
        if c == '\n' {
            let line = strip_cr_vec(cur);
            proof {
                done = done.push(cur@);
            }
            res.push(line);
            cur = Vec::new();
            proof {
                assert(split_nl(q) =~= done.push(cur@));
            }
        } else {
            let ghost old_cur = cur@;
            cur.push(c);
            proof {
                assert(split_nl(q) =~= done.push(cur@));
            }
        }
        k = k + 1;
    }
    assert(s@.take(s@.len() as int) =~= s@);
    let ghost segs = split_nl(s@);
    if s.len() > 0 && s[s.len() - 1] != '\n' {
        res.push(cur);
    }
    proof {
        if s@.len() > 0 {
            assert(s@.last() == s@[s@.len() - 1]);
        }
        assert forall|i: int| 0 <= i < res@.len() implies #[trigger] res@[i]@ == lines(s@)[i] by {
            if i < done.len() {
                assert(segs[i] == done[i]);
            }
        }
    }
    res
}

fn strip_cr_vec(v: Vec<char>) -> (r: Vec<char>)
    ensures
        r@ == strip_cr(v@),
{
    let mut v = v;
    if v.len() > 0 && v[v.len() - 1] == '\r' {
        v.pop();
    }
    v
}

/// Sources are only ever added: a map that keeps the sources of one that
/// keeps those of a third keeps those of the third.
pub proof fn law_keeps_transitive(a: SourceMap, b: SourceMap, c: SourceMap)
    requires
        b.keeps(&a),
        c.keeps(&b),
    ensures
        c.keeps(&a),
{
    assert forall|i: int| 0 <= i < a.len() implies #[trigger] c.source(i) == a.source(i) by {
        assert(c.source(i) == b.source(i));
    }
}

/// An id stays valid after later additions: the source under it is still
/// the one it named, with that id, name and content.
pub proof fn law_id_stays_valid(before: SourceMap, after: SourceMap, id: SourceId)
    requires
        before.wf(),
        after.keeps(&before),
        id.0 < before.len(),
    ensures
        id.0 < after.len(),
        after.source(id.0 as int) == before.source(id.0 as int),
        after.source(id.0 as int).id == id,
{
    before.lemma_source_id(id.0 as int);
}

} // verus!
