//! Writing JSON text, level by level: the members of an array or an object,
//! already written, are put between brackets, compactly or indented. The
//! members of an object are sorted, so the text does not depend on the
//! order in which a table hands out its entries.

use vstd::prelude::*;

use vstd::relations::total_ordering;

use crate::strings::{json_chars, json_escape_string, lemma_text_order_total, sort_texts, text_order};
use crate::text::{append_chars, chars_of, push_repeat, push_str, repeat, spaces, string_of};

verus! {

/// The parts, with `sep` between each two.
pub open spec fn joined(parts: Seq<Seq<char>>, sep: Seq<char>) -> Seq<char>
    decreases parts.len(),
{
    if parts.len() == 0 {
        Seq::empty()
    } else if parts.len() == 1 {
        parts[0]
    } else {
        joined(parts.drop_last(), sep) + sep + parts.last()
    }
}

/// A string written as JSON: quoted, its special characters escaped.
pub open spec fn quoted(s: Seq<char>) -> Seq<char> {
    seq!['"'] + json_chars(s) + seq!['"']
}

/// An object member: the quoted key, `colon`, and the value as written.
pub open spec fn member_text(m: (Seq<char>, Seq<char>), colon: Seq<char>) -> Seq<char> {
    quoted(m.0) + colon + m.1
}

/// The views of strings.
pub open spec fn views(v: Seq<String>) -> Seq<Seq<char>> {
    v.map_values(|s: String| s@)
}

/// The views of pairs of strings.
pub open spec fn pair_views(v: Seq<(String, String)>) -> Seq<(Seq<char>, Seq<char>)> {
    v.map_values(|m: (String, String)| (m.0@, m.1@))
}

/// An array on one line: `[a,b,c]`.
pub open spec fn compact_array_text(parts: Seq<Seq<char>>) -> Seq<char> {
    "["@ + joined(parts, ","@) + "]"@
}

/// An object on one line, its members sorted: `{"a":1,"b":2}`.
pub open spec fn compact_object_text(members: Seq<(Seq<char>, Seq<char>)>) -> Seq<char> {
    "{"@ + joined(
        members.map_values(|m: (Seq<char>, Seq<char>)| member_text(m, ":"@)).sort_by(text_order()),
        ","@,
    ) + "}"@
}

/// An array at nesting depth `depth`, one member per line indented by
/// `indent` spaces per level; `[]` when empty.
pub open spec fn pretty_array_text(parts: Seq<Seq<char>>, indent: nat, depth: nat) -> Seq<char> {
    if parts.len() == 0 {
        "[]"@
    } else {
        "[\n"@ + joined(parts.map_values(|p: Seq<char>| spaces(indent * (depth + 1)) + p), ",\n"@) + "\n"@
            + spaces(indent * depth) + "]"@
    }
}

/// An object at nesting depth `depth`, one member per line, sorted; `{}`
/// when empty.
pub open spec fn pretty_object_text(members: Seq<(Seq<char>, Seq<char>)>, indent: nat, depth: nat) -> Seq<char> {
    if members.len() == 0 {
        "{}"@
    } else {
        "{\n"@ + joined(
            members.map_values(
                |m: (Seq<char>, Seq<char>)| spaces(indent * (depth + 1)) + member_text(m, ": "@),
            ).sort_by(text_order()),
            ",\n"@,
        ) + "\n"@ + spaces(indent * depth) + "}"@
    }
}

/// The parts, with `sep` between each two.
fn join_texts(parts: &Vec<Vec<char>>, sep: &str) -> (r: Vec<char>)
    ensures
        r@ == joined(parts@.map_values(|t: Vec<char>| t@), sep@),
{
    let ghost pv = parts@.map_values(|t: Vec<char>| t@);
    let mut out: Vec<char> = Vec::new();
    let mut i: usize = 0;
    while i < parts.len()
        invariant
            i <= parts@.len(),
            pv == parts@.map_values(|t: Vec<char>| t@),
            out@ == joined(pv.take(i as int), sep@),
        decreases parts.len() - i,
    {
        proof {
            assert(pv.take(i + 1).drop_last() =~= pv.take(i as int));
            assert(pv.take(i + 1).last() == pv[i as int]);
            if i == 0 {
                assert(pv.take(1)[0] == pv[0]);
            }
        }
        if i > 0 {
            push_str(&mut out, sep);
        }
        append_chars(&mut out, &parts[i]);
        i = i + 1;
    }
    proof {
        assert(pv.take(parts@.len() as int) =~= pv);
    }
    out
}

/// `prefix` spaces, then the member `m` written with `colon`.
fn member_chars(m: &(String, String), colon: &str, prefix: usize) -> (r: Vec<char>)
    ensures
        r@ == spaces(prefix as nat) + member_text((m.0@, m.1@), colon@),
{
    let mut out: Vec<char> = Vec::new();
    push_repeat(&mut out, ' ', prefix);
    let key = json_escape_string(m.0.as_str());
    push_str(&mut out, key.as_str());
    push_str(&mut out, colon);
    push_str(&mut out, m.1.as_str());
    out
}

/// The members written with `colon` after `prefix` spaces, sorted, with
/// `sep` between each two.
fn sorted_members(members: &[(String, String)], colon: &str, sep: &str, prefix: usize) -> (r: Vec<char>)
    ensures
        r@ == joined(
            pair_views(members@).map_values(
                |m: (Seq<char>, Seq<char>)| spaces(prefix as nat) + member_text(m, colon@),
            ).sort_by(text_order()),
            sep@,
        ),
{
    let ghost texts = pair_views(members@).map_values(
        |m: (Seq<char>, Seq<char>)| spaces(prefix as nat) + member_text(m, colon@),
    );
    let mut written: Vec<Vec<char>> = Vec::new();
    let mut i: usize = 0;
    while i < members.len()
        invariant
            i <= members@.len(),
            texts == pair_views(members@).map_values(
                |m: (Seq<char>, Seq<char>)| spaces(prefix as nat) + member_text(m, colon@),
            ),
            written@.len() == i,
            texts.len() == members@.len(),
            forall|k: int| 0 <= k < i ==> (#[trigger] written@[k])@ == texts[k],
        decreases members.len() - i,
    {
        let w = member_chars(&members[i], colon, prefix);
        proof {
            assert(pair_views(members@)[i as int] == (members@[i as int].0@, members@[i as int].1@));
            assert(texts[i as int] == w@);
        }
        written.push(w);
        i = i + 1;
    }
    assert(written@.map_values(|t: Vec<char>| t@) =~= texts);
    let sorted = sort_texts(written);
    join_texts(&sorted, sep)
}

/// Each part after `prefix` spaces.
fn indented(parts: &[String], prefix: usize) -> (r: Vec<Vec<char>>)
    ensures
        r@.map_values(|t: Vec<char>| t@) == views(parts@).map_values(|p: Seq<char>| spaces(prefix as nat) + p),
{
    let ghost want = views(parts@).map_values(|p: Seq<char>| spaces(prefix as nat) + p);
    let mut out: Vec<Vec<char>> = Vec::new();
    let mut i: usize = 0;
    while i < parts.len()
        invariant
            i <= parts@.len(),
            want == views(parts@).map_values(|p: Seq<char>| spaces(prefix as nat) + p),
            out@.len() == i,
            forall|k: int| 0 <= k < i ==> (#[trigger] out@[k])@ == want[k],
        decreases parts.len() - i,
    {
        let mut t: Vec<char> = Vec::new();
        push_repeat(&mut t, ' ', prefix);
        push_str(&mut t, parts[i].as_str());
        out.push(t);
        i = i + 1;
    }
    assert(out@.map_values(|t: Vec<char>| t@) =~= want);
    out
}

proof fn lemma_no_indent(parts: Seq<Seq<char>>)
    ensures
        parts.map_values(|p: Seq<char>| spaces(0) + p) == parts,
{
    assert(spaces(0) =~= Seq::<char>::empty());
    let m = parts.map_values(|p: Seq<char>| spaces(0) + p);
    assert forall|k: int| 0 <= k < parts.len() implies #[trigger] m[k] == parts[k] by {
        assert(spaces(0) + parts[k] =~= parts[k]);
    }
    assert(m =~= parts);
}

proof fn lemma_no_indent_members(ms: Seq<(Seq<char>, Seq<char>)>, colon: Seq<char>)
    ensures
        ms.map_values(|m: (Seq<char>, Seq<char>)| spaces(0) + member_text(m, colon)) == ms.map_values(
            |m: (Seq<char>, Seq<char>)| member_text(m, colon),
        ),
{
    assert(spaces(0) =~= Seq::<char>::empty());
    let a = ms.map_values(|m: (Seq<char>, Seq<char>)| spaces(0) + member_text(m, colon));
    let b = ms.map_values(|m: (Seq<char>, Seq<char>)| member_text(m, colon));
    assert forall|k: int| 0 <= k < ms.len() implies #[trigger] a[k] == b[k] by {
        assert(spaces(0) + member_text(ms[k], colon) =~= member_text(ms[k], colon));
    }
    assert(a =~= b);
}

/// An array on one line, from its members as written.
pub fn compact_array(parts: &[String]) -> (r: String)
    ensures
        r@ == compact_array_text(views(parts@)),
{
    let texts = indented(parts, 0);
    proof {
        lemma_no_indent(views(parts@));
    }
    let inner = join_texts(&texts, ",");
    let mut out = chars_of("[");
    append_chars(&mut out, &inner);
    push_str(&mut out, "]");
    string_of(&out)
}

/// An object on one line, from its keys and its values as written.
pub fn compact_object(members: &[(String, String)]) -> (r: String)
    ensures
        r@ == compact_object_text(pair_views(members@)),
{
    let inner = sorted_members(members, ":", ",", 0);
    proof {
        lemma_no_indent_members(pair_views(members@), ":"@);
    }
    let mut out = chars_of("{");
    append_chars(&mut out, &inner);
    push_str(&mut out, "}");
    string_of(&out)
}

/// An array at nesting depth `depth`, indented by `indent` spaces per
/// level, from its members as written.
pub fn pretty_array(parts: &[String], indent: usize, depth: usize) -> (r: String)
    requires
        depth < usize::MAX,
        indent * (depth + 1) <= usize::MAX,
    ensures
        r@ == pretty_array_text(views(parts@), indent as nat, depth as nat),
{
    if parts.len() == 0 {
        return string_of(&chars_of("[]"));
    }
    assert(indent * depth <= indent * (depth + 1)) by (nonlinear_arith);
    let inner_pad = indent * (depth + 1);
    let pad = indent * depth;
    let texts = indented(parts, inner_pad);
    let inner = join_texts(&texts, ",\n");
    let mut out = chars_of("[\n");
    append_chars(&mut out, &inner);
    push_str(&mut out, "\n");
    push_repeat(&mut out, ' ', pad);
    push_str(&mut out, "]");
    string_of(&out)
}

/// An object at nesting depth `depth`, indented by `indent` spaces per
/// level, from its keys and its values as written.
pub fn pretty_object(members: &[(String, String)], indent: usize, depth: usize) -> (r: String)
    requires
        depth < usize::MAX,
        indent * (depth + 1) <= usize::MAX,
    ensures
        r@ == pretty_object_text(pair_views(members@), indent as nat, depth as nat),
{
    if members.len() == 0 {
        return string_of(&chars_of("{}"));
    }
    assert(indent * depth <= indent * (depth + 1)) by (nonlinear_arith);
    let inner_pad = indent * (depth + 1);
    let pad = indent * depth;
    let inner = sorted_members(members, ": ", ",\n", inner_pad);
    let mut out = chars_of("{\n");
    append_chars(&mut out, &inner);
    push_str(&mut out, "\n");
    push_repeat(&mut out, ' ', pad);
    push_str(&mut out, "}");
    string_of(&out)
}

/// The text of an object does not depend on the order its members come in:
/// members given in any order are written alike.
pub proof fn law_member_order_irrelevant(
    a: Seq<(Seq<char>, Seq<char>)>,
    b: Seq<(Seq<char>, Seq<char>)>,
    indent: nat,
    depth: nat,
)
    requires
        a.to_multiset() == b.to_multiset(),
    ensures
        compact_object_text(a) == compact_object_text(b),
        pretty_object_text(a, indent, depth) == pretty_object_text(b, indent, depth),
{
    lemma_text_order_total();
    let f = |m: (Seq<char>, Seq<char>)| member_text(m, ":"@);
    lemma_sorted_map_permutation(a, b, f);
    let g = |m: (Seq<char>, Seq<char>)| spaces(indent * (depth + 1)) + member_text(m, ": "@);
    lemma_sorted_map_permutation(a, b, g);
    vstd::seq_lib::to_multiset_len(a);
    vstd::seq_lib::to_multiset_len(b);
}

/// Mapping two arrangements of the same values gives two arrangements of
/// the same images.
proof fn lemma_map_multiset(
    a: Seq<(Seq<char>, Seq<char>)>,
    b: Seq<(Seq<char>, Seq<char>)>,
    f: spec_fn((Seq<char>, Seq<char>)) -> Seq<char>,
)
    requires
        a.to_multiset() == b.to_multiset(),
    ensures
        a.map_values(f).to_multiset() == b.map_values(f).to_multiset(),
    decreases a.len(),
{
    broadcast use vstd::multiset::group_multiset_axioms;

    vstd::seq_lib::to_multiset_len(a);
    vstd::seq_lib::to_multiset_len(b);
    if a.len() == 0 {
        assert(b.len() == 0);
        assert(a.map_values(f) =~= b.map_values(f));
    } else {
        let x = a[0];
        assert(a.contains(x));
        vstd::seq_lib::to_multiset_contains(a, x);
        vstd::seq_lib::to_multiset_contains(b, x);
        assert(b.contains(x));
        let i = choose|i: int| 0 <= i < b.len() && b[i] == x;
        vstd::seq_lib::to_multiset_remove(a, 0);
        vstd::seq_lib::to_multiset_remove(b, i);
        lemma_map_multiset(a.remove(0), b.remove(i), f);
        let am = a.map_values(f);
        let bm = b.map_values(f);
        assert(am.remove(0) =~= a.remove(0).map_values(f));
        assert(bm.remove(i) =~= b.remove(i).map_values(f));
        vstd::seq_lib::to_multiset_remove(am, 0);
        vstd::seq_lib::to_multiset_remove(bm, i);
        assert(am[0] == f(x));
        assert(bm[i] == f(x));
        assert(am.contains(f(x)));
        assert(bm.contains(f(x)));
        vstd::seq_lib::to_multiset_contains(am, f(x));
        vstd::seq_lib::to_multiset_contains(bm, f(x));
        let ma = am.to_multiset();
        let mb = bm.to_multiset();
        let v = f(x);
        assert(ma.remove(v) == mb.remove(v));
        assert forall|y: Seq<char>| #[trigger] ma.count(y) == mb.count(y) by {
            assert(ma.remove(v).count(y) == mb.remove(v).count(y));
        }
        assert(ma =~= mb);
    }
}

/// Mapping two arrangements of the same members, then sorting, gives the
/// same sequence.
proof fn lemma_sorted_map_permutation(
    a: Seq<(Seq<char>, Seq<char>)>,
    b: Seq<(Seq<char>, Seq<char>)>,
    f: spec_fn((Seq<char>, Seq<char>)) -> Seq<char>,
)
    requires
        a.to_multiset() == b.to_multiset(),
        total_ordering(text_order()),
    ensures
        a.map_values(f).sort_by(text_order()) == b.map_values(f).sort_by(text_order()),
{
    lemma_map_multiset(a, b, f);
    a.map_values(f).lemma_sort_by_ensures(text_order());
    b.map_values(f).lemma_sort_by_ensures(text_order());
    vstd::seq_lib::lemma_sorted_unique(
        a.map_values(f).sort_by(text_order()),
        b.map_values(f).sort_by(text_order()),
        text_order(),
    );
}

} // verus!
