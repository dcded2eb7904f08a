//! The string primitives of the core library, on characters (Unicode scalar
//! values): searching, splitting, replacing, slicing, padding, trimming,
//! ordering and sorting, and the JSON rendering of a string.

use vstd::prelude::*;

use crate::text::{
    append_chars, byte_len, char_index, char_pos, chars_eq, chars_of, copy_range, lit, push_repeat,
    push_str, repeat, string_of, trim, trim_bounds, trim_end, trim_start,
};
use crate::source::decode;
use vstd::relations::{sorted_by, total_ordering};

verus! {

broadcast use vstd::seq_lib::group_to_multiset_ensures;

/// `p` occurs in `s` at position `j`.
pub open spec fn matches_at(s: Seq<char>, p: Seq<char>, j: int) -> bool {
    0 <= j && j + p.len() <= s.len() && s.subrange(j, j + p.len()) == p
}

/// The first position at or after `i` where `p` occurs in `s`, or -1.
pub open spec fn find_from(s: Seq<char>, p: Seq<char>, i: int) -> int
    decreases s.len() + 1 - i,
{
    if i < 0 || i + p.len() > s.len() {
        -1
    } else if matches_at(s, p, i) {
        i
    } else {
        find_from(s, p, i + 1)
    }
}

/// The pieces of `s[i..]` between the occurrences of a non-empty `p`.
pub open spec fn pieces(s: Seq<char>, p: Seq<char>, i: int) -> Seq<Seq<char>>
    decreases s.len() - i,
{
    let j = find_from(s, p, i);
    if p.len() == 0 || j < i || i < 0 || i > s.len() || j + p.len() > s.len() {
        seq![s.subrange(i, s.len() as int)]
    } else {
        seq![s.subrange(i, j)] + pieces(s, p, j + p.len())
    }
}

/// `s` split at the occurrences of `p`, as `str::split` splits it (an empty
/// `p` occurs before every character and at the end).
pub open spec fn split_spec(s: Seq<char>, p: Seq<char>) -> Seq<Seq<char>> {
    if p.len() == 0 {
        seq![Seq::<char>::empty()] + Seq::new(s.len(), |i: int| seq![s[i]]) + seq![Seq::<char>::empty()]
    } else {
        pieces(s, p, 0)
    }
}

/// `s[i..]` with every occurrence of a non-empty `p` replaced by `t`.
pub open spec fn replaced(s: Seq<char>, p: Seq<char>, t: Seq<char>, i: int) -> Seq<char>
    decreases s.len() - i,
{
    let j = find_from(s, p, i);
    if p.len() == 0 || j < i || i < 0 || i > s.len() || j + p.len() > s.len() {
        s.subrange(i, s.len() as int)
    } else {
        s.subrange(i, j) + t + replaced(s, p, t, j + p.len())
    }
}

/// `t` before every character of `s`, and once more at the end.
pub open spec fn interleave(s: Seq<char>, t: Seq<char>) -> Seq<char>
    decreases s.len(),
{
    if s.len() == 0 {
        t
    } else {
        t + seq![s[0]] + interleave(s.drop_first(), t)
    }
}

/// `s` with every occurrence of `p` replaced by `t`, as `str::replace` does.
pub open spec fn replace_spec(s: Seq<char>, p: Seq<char>, t: Seq<char>) -> Seq<char> {
    if p.len() == 0 {
        interleave(s, t)
    } else {
        replaced(s, p, t, 0)
    }
}

/// `s` with the first occurrence of `p` replaced by `t`.
pub open spec fn replace_first_spec(s: Seq<char>, p: Seq<char>, t: Seq<char>) -> Seq<char> {
    let j = find_from(s, p, 0);
    if j < 0 {
        s
    } else {
        s.subrange(0, j) + t + s.subrange(j + p.len(), s.len() as int)
    }
}

/// `s` padded with `fill` to `width` characters, in front or behind.
pub open spec fn pad_spec(s: Seq<char>, width: nat, fill: char, at_start: bool) -> Seq<char> {
    if s.len() >= width {
        s
    } else if at_start {
        repeat(fill, (width - s.len()) as nat) + s
    } else {
        s + repeat(fill, (width - s.len()) as nat)
    }
}

/// A slice index: counted from the end when negative, then kept within `0 ..= len`.
pub open spec fn resolve_spec(raw: int, len: int) -> int {
    let v = if raw < 0 { len + raw } else { raw };
    if v < 0 {
        0
    } else if v > len {
        len
    } else {
        v
    }
}

/// A lowercase hexadecimal digit.
pub open spec fn hex_digit(d: int) -> char {
    if d < 10 {
        ((d + 48) as u32) as char
    } else {
        ((d + 87) as u32) as char
    }
}

/// How one character is written inside a JSON string.
pub open spec fn json_char(c: char) -> Seq<char> {
    if c == '"' {
        seq!['\\', '"']
    } else if c == '\\' {
        seq!['\\', '\\']
    } else if c == '\n' {
        seq!['\\', 'n']
    } else if c == '\r' {
        seq!['\\', 'r']
    } else if c == '\t' {
        seq!['\\', 't']
    } else if (c as u32) < 0x20 {
        seq!['\\', 'u', '0', '0', hex_digit(((c as u32) / 16) as int), hex_digit(((c as u32) % 16) as int)]
    } else {
        seq![c]
    }
}

/// The code point that the JSON escape `\e` stands for, for each escape
/// other than `\u` (RFC 8259, section 7).
pub open spec fn json_escape_meaning(e: char) -> Option<int> {
    if e == '"' {
        Some(0x22)
    } else if e == '\\' {
        Some(0x5c)
    } else if e == '/' {
        Some(0x2f)
    } else if e == 'b' {
        Some(0x08)
    } else if e == 'f' {
        Some(0x0c)
    } else if e == 'n' {
        Some(0x0a)
    } else if e == 'r' {
        Some(0x0d)
    } else if e == 't' {
        Some(0x09)
    } else {
        None
    }
}

/// The value of a hexadecimal digit, in either case.
pub open spec fn hex_value(h: char) -> int {
    let u = h as int;
    if 48 <= u <= 57 {
        u - 48
    } else if 97 <= u <= 102 {
        u - 87
    } else if 65 <= u <= 70 {
        u - 55
    } else {
        0
    }
}

/// The code points that `w`, the inside of a JSON string literal, stands
/// for (RFC 8259, section 7).
pub open spec fn json_decode(w: Seq<char>) -> Seq<int>
    decreases w.len(),
{
    if w.len() == 0 {
        Seq::empty()
    } else if w[0] == '\\' && w.len() >= 6 && w[1] == 'u' {
        seq![4096 * hex_value(w[2]) + 256 * hex_value(w[3]) + 16 * hex_value(w[4]) + hex_value(w[5])]
            + json_decode(w.skip(6))
    } else if w[0] == '\\' && w.len() >= 2 && json_escape_meaning(w[1]) is Some {
        seq![json_escape_meaning(w[1])->0] + json_decode(w.skip(2))
    } else {
        seq![w[0] as int] + json_decode(w.skip(1))
    }
}

/// The characters of `s`, each written as inside a JSON string.
pub open spec fn json_chars(s: Seq<char>) -> Seq<char>
    decreases s.len(),
{
    if s.len() == 0 {
        Seq::empty()
    } else {
        json_chars(s.drop_last()) + json_char(s.last())
    }
}

/// Whether `p` occurs in `s` at position `j`.
fn occurs_at(s: &[char], p: &[char], j: usize) -> (r: bool)
    requires
        j + p@.len() <= s@.len(),
    ensures
        r == matches_at(s@, p@, j as int),
{
    let n = s.len();
    let mut k: usize = 0;
    while k < p.len()
        invariant
            k <= p@.len(),
            n == s@.len(),
            j + p@.len() <= s@.len(),
            forall|q: int| 0 <= q < k ==> s@[j + q] == p@[q],
        decreases p.len() - k,
    {
        if s[j + k] != p[k] {
            assert(s@.subrange(j as int, j + p@.len())[k as int] != p@[k as int]);
            return false;
        }
        k = k + 1;
    }
    assert(s@.subrange(j as int, j + p@.len()) =~= p@);
    true
}

/// The first position at or after `i` where `p` occurs in `s`.
fn find_chars(s: &[char], p: &[char], i: usize) -> (r: Option<usize>)
    requires
        i <= s@.len(),
    ensures
        match r {
            Some(j) => j as int == find_from(s@, p@, i as int) && j + p@.len() <= s@.len(),
            None => find_from(s@, p@, i as int) == -1,
        },
{
    if p.len() > s.len() {
        assert(find_from(s@, p@, i as int) == -1);
        return None;
    }
    let last = s.len() - p.len();
    if i > last {
        assert(find_from(s@, p@, i as int) == -1);
        return None;
    }
    let mut j: usize = i;
    loop
        invariant
            i <= j <= last,
            last + p@.len() == s@.len(),
            find_from(s@, p@, i as int) == find_from(s@, p@, j as int),
        decreases last - j,
    {
        if occurs_at(s, p, j) {
            return Some(j);
        }
        if j == last {
            assert(find_from(s@, p@, j + 1) == -1);
            return None;
        }
        j = j + 1;
    }
}

/// The first character position of `needle` in `s`.
pub fn find(s: &str, needle: &str) -> (r: Option<usize>)
    ensures
        match r {
            Some(j) => j as int == find_from(s@, needle@, 0),
            None => find_from(s@, needle@, 0) == -1,
        },
{
    let a = chars_of(s);
    let b = chars_of(needle);
    find_chars(&a, &b, 0)
}

/// `needle` occurs in `s`.
pub fn contains(s: &str, needle: &str) -> (r: bool)
    ensures
        r == (find_from(s@, needle@, 0) >= 0),
{
    find(s, needle).is_some()
}

/// `s` begins with `prefix`.
pub fn starts_with(s: &str, prefix: &str) -> (r: bool)
    ensures
        r == (prefix@.len() <= s@.len() && s@.take(prefix@.len() as int) == prefix@),
{
    let a = chars_of(s);
    let b = chars_of(prefix);
    if b.len() > a.len() {
        return false;
    }
    let r = occurs_at(&a, &b, 0);
    assert(a@.subrange(0, b@.len() as int) =~= a@.take(b@.len() as int));
    r
}

/// `s` ends with `suffix`.
pub fn ends_with(s: &str, suffix: &str) -> (r: bool)
    ensures
        r == (suffix@.len() <= s@.len() && s@.skip(s@.len() - suffix@.len()) == suffix@),
{
    let a = chars_of(s);
    let b = chars_of(suffix);
    if b.len() > a.len() {
        return false;
    }
    let r = occurs_at(&a, &b, a.len() - b.len());
    assert(a@.subrange(a@.len() - b@.len(), a@.len() as int) =~= a@.skip(a@.len() - b@.len()));
    r
}

/// `s` split at the occurrences of `sep`.
pub fn split(s: &str, sep: &str) -> (r: Vec<String>)
    ensures
        r@.len() == split_spec(s@, sep@).len(),
        forall|i: int| 0 <= i < r@.len() ==> #[trigger] r@[i]@ == split_spec(s@, sep@)[i],
{
    let a = chars_of(s);
    let b = chars_of(sep);
    let mut out: Vec<String> = Vec::new();
    if b.len() == 0 {
        out.push(String::new());
        let mut k: usize = 0;
        while k < a.len()
            invariant
                k <= a@.len(),
                out@.len() == k + 1,
                out@[0]@ == Seq::<char>::empty(),
                forall|q: int| 1 <= q <= k ==> #[trigger] out@[q]@ == seq![a@[q - 1]],
            decreases a.len() - k,
        {
            let piece = copy_range(&a, k, k + 1);
            assert(piece@ =~= seq![a@[k as int]]);
            out.push(string_of(&piece));
            k = k + 1;
        }
        out.push(String::new());
        proof {
            let sp = split_spec(s@, sep@);
            assert(sp.len() == out@.len());
            assert forall|i: int| 0 <= i < out@.len() implies #[trigger] out@[i]@ == sp[i] by {
                if i == 0 {
                } else if i <= a@.len() {
                    assert(sp[i] == seq![a@[i - 1]]);
                } else {
                }
            }
        }
        return out;
    }
    let ghost whole = pieces(a@, b@, 0);
    let n = a.len();
    let mut i: usize = 0;
    loop
        invariant
            i <= a@.len(),
            n == a@.len(),
            b@.len() > 0,
            a@ == s@,
            b@ == sep@,
            whole == pieces(a@, b@, 0),
            whole == out@.map_values(|x: String| x@) + pieces(a@, b@, i as int),
        decreases a@.len() - i,
    {
        match find_chars(&a, &b, i) {
            Some(j) => {
                proof {
                    lemma_find_from_bounds(a@, b@, i as int);
                }
                let piece = copy_range(&a, i, j);
                let ghost before = out@.map_values(|x: String| x@);
                out.push(string_of(&piece));
                proof {
                    assert(out@.map_values(|x: String| x@) =~= before.push(piece@));
                    lemma_find_from_bounds(a@, b@, i as int);
                    assert(pieces(a@, b@, i as int) == seq![a@.subrange(i as int, j as int)] + pieces(a@, b@, j + b@.len()));
                    assert(whole =~= out@.map_values(|x: String| x@) + pieces(a@, b@, j + b@.len()));
                }
                i = j + b.len();
            },
            None => {
                let piece = copy_range(&a, i, a.len());
                let ghost before = out@.map_values(|x: String| x@);
                out.push(string_of(&piece));
                proof {
                    assert(out@.map_values(|x: String| x@) =~= before.push(piece@));
                    assert(whole =~= out@.map_values(|x: String| x@));
                    assert forall|q: int| 0 <= q < out@.len() implies #[trigger] out@[q]@ == split_spec(s@, sep@)[q] by {
                        assert(out@.map_values(|x: String| x@)[q] == out@[q]@);
                    }
                }
                return out;
            },
        }
    }
}

pub proof fn lemma_find_from_bounds(s: Seq<char>, p: Seq<char>, i: int)
    ensures
        find_from(s, p, i) == -1 || (i <= find_from(s, p, i) && matches_at(s, p, find_from(s, p, i))),
    decreases s.len() + 1 - i,
{
    if !(i < 0 || i + p.len() > s.len()) && !matches_at(s, p, i) {
        lemma_find_from_bounds(s, p, i + 1);
    }
}

/// `s` with every occurrence of `from` replaced by `to`.
pub fn replace(s: &str, from: &str, to: &str) -> (r: String)
    ensures
        r@ == replace_spec(s@, from@, to@),
{
    let a = chars_of(s);
    let b = chars_of(from);
    let t = chars_of(to);
    let mut out: Vec<char> = Vec::new();
    if b.len() == 0 {
        let mut k: usize = 0;
        proof {
            assert(a@.skip(0) =~= a@);
        }
        while k < a.len()
            invariant
                k <= a@.len(),
                b@.len() == 0,
                interleave(a@, t@) == out@ + interleave(a@.skip(k as int), t@),
            decreases a.len() - k,
        {
            proof {
                assert(a@.skip(k as int).drop_first() =~= a@.skip(k + 1));
                assert(a@.skip(k as int)[0] == a@[k as int]);
            }
            append_chars(&mut out, &t);
            out.push(a[k]);
            proof {
                assert(interleave(a@, t@) =~= out@ + interleave(a@.skip(k + 1), t@));
            }
            k = k + 1;
        }
        append_chars(&mut out, &t);
        proof {
            assert(a@.skip(k as int) =~= Seq::<char>::empty());
            assert(a@.skip(0) =~= a@);
        }
        return string_of(&out);
    }
    let mut i: usize = 0;
    let n = a.len();
    proof {
        assert(a@.skip(0) =~= a@);
    }
    loop
        invariant
            i <= a@.len(),
            n == a@.len(),
            a@ == s@,
            b@ == from@,
            t@ == to@,
            b@.len() > 0,
            replaced(a@, b@, t@, 0) == out@ + replaced(a@, b@, t@, i as int),
        decreases a@.len() - i,
    {
        match find_chars(&a, &b, i) {
            Some(j) => {
                proof {
                    lemma_find_from_bounds(a@, b@, i as int);
                }
                let piece = copy_range(&a, i, j);
                append_chars(&mut out, &piece);
                append_chars(&mut out, &t);
                proof {
                    assert(replaced(a@, b@, t@, 0) =~= out@ + replaced(a@, b@, t@, j + b@.len()));
                }
                i = j + b.len();
            },
            None => {
                let piece = copy_range(&a, i, a.len());
                append_chars(&mut out, &piece);
                proof {
                    assert(replaced(a@, b@, t@, 0) =~= out@);
                }
                return string_of(&out);
            },
        }
    }
}

/// `s` with the first occurrence of `from` replaced by `to`.
pub fn replace_first(s: &str, from: &str, to: &str) -> (r: String)
    ensures
        r@ == replace_first_spec(s@, from@, to@),
{
    let a = chars_of(s);
    let b = chars_of(from);
    let _n = a.len();
    match find_chars(&a, &b, 0) {
        Some(j) => {
            proof {
                lemma_find_from_bounds(a@, b@, 0);
            }
            let mut out = copy_range(&a, 0, j);
            push_str(&mut out, to);
            let rest = copy_range(&a, j + b.len(), a.len());
            append_chars(&mut out, &rest);
            string_of(&out)
        },
        None => string_of(&a),
    }
}

/// `s` padded with `fill` to `width` characters, in front when `at_start`.
pub fn apply_pad(s: &str, width: usize, fill: char, at_start: bool) -> (r: String)
    ensures
        r@ == pad_spec(s@, width as nat, fill, at_start),
{
    let a = chars_of(s);
    if a.len() >= width {
        return string_of(&a);
    }
    let mut out: Vec<char> = Vec::new();
    if at_start {
        push_repeat(&mut out, fill, width - a.len());
        append_chars(&mut out, &a);
    } else {
        append_chars(&mut out, &a);
        push_repeat(&mut out, fill, width - a.len());
    }
    proof {
        assert(out@ =~= pad_spec(s@, width as nat, fill, at_start));
    }
    string_of(&out)
}

/// A slice index counted from the end when negative, kept within `0 ..= len`.
pub fn resolve_index(raw: i64, len: usize) -> (r: usize)
    requires
        len <= i64::MAX,
    ensures
        r as int == resolve_spec(raw as int, len as int),
{
    let l = len as i64;
    let v: i128 = if raw < 0 { l as i128 + raw as i128 } else { raw as i128 };
    if v < 0 {
        0
    } else if v > l as i128 {
        len
    } else {
        v as usize
    }
}

/// The characters of `s` between two slice indices (in either order); a
/// missing start is 0 and a missing end the length.
pub fn slice(s: &str, start: Option<i64>, end: Option<i64>) -> (r: String)
    requires
        s@.len() <= i64::MAX,
    ensures
        ({
            let len = s@.len() as int;
            let a = match start {
                Some(x) => resolve_spec(x as int, len),
                None => 0,
            };
            let b = match end {
                Some(x) => resolve_spec(x as int, len),
                None => len,
            };
            r@ == s@.subrange(if a <= b { a } else { b }, if a <= b { b } else { a })
        }),
{
    let chars = chars_of(s);
    let len = chars.len();
    let a = match start {
        Some(x) => resolve_index(x, len),
        None => 0,
    };
    let b = match end {
        Some(x) => resolve_index(x, len),
        None => len,
    };
    let lo = if a <= b { a } else { b };
    let hi = if a <= b { b } else { a };
    string_of(&copy_range(&chars, lo, hi))
}

/// The character at position `index`, if there is one.
pub fn char_at(s: &str, index: usize) -> (r: Option<char>)
    ensures
        match r {
            Some(c) => index < s@.len() && c == s@[index as int],
            None => index >= s@.len(),
        },
{
    let chars = chars_of(s);
    if index < chars.len() {
        Some(chars[index])
    } else {
        None
    }
}

/// The characters of `s` in reverse order.
pub fn reverse(s: &str) -> (r: String)
    ensures
        r@ == s@.reverse(),
{
    let chars = chars_of(s);
    let mut out: Vec<char> = Vec::new();
    let mut k: usize = chars.len();
    while k > 0
        invariant
            k <= chars@.len(),
            out@ == chars@.skip(k as int).reverse(),
        decreases k,
    {
        k = k - 1;
        out.push(chars[k]);
        proof {
            assert(out@ =~= chars@.skip(k as int).reverse());
        }
    }
    proof {
        assert(chars@.skip(0) =~= chars@);
    }
    string_of(&out)
}

/// `s` repeated `n` times.
pub fn repeat_str(s: &str, n: usize) -> (r: String)
    ensures
        r@.len() == s@.len() * n,
        forall|i: int| 0 <= i < r@.len() ==> #[trigger] r@[i] == s@[i % (s@.len() as int)],
{
    let a = chars_of(s);
    let mut out: Vec<char> = Vec::new();
    let mut k: usize = 0;
    while k < n
        invariant
            k <= n,
            out@.len() == a@.len() * k,
            forall|i: int| 0 <= i < out@.len() ==> #[trigger] out@[i] == a@[i % (a@.len() as int)],
        decreases n - k,
    {
        let ghost before = out@;
        append_chars(&mut out, &a);
        proof {
            assert(out@.len() == a@.len() * (k + 1)) by (nonlinear_arith)
                requires
                    out@.len() == before.len() + a@.len(),
                    before.len() == a@.len() * k,
            ;
            assert forall|i: int| 0 <= i < out@.len() implies #[trigger] out@[i] == a@[i % (a@.len() as int)] by {
                if i >= before.len() {
                    let q = i - before.len();
                    assert(out@[i] == a@[q]);
                    assert(i % (a@.len() as int) == q) by (nonlinear_arith)
                        requires
                            i == a@.len() * k + q,
                            0 <= q < a@.len(),
                    ;
                } else {
                    assert(out@[i] == before[i]);
                }
            }
        }
        k = k + 1;
    }
    string_of(&out)
}

/// `s` without leading and trailing whitespace.
pub fn trim_str(s: &str) -> (r: String)
    ensures
        r@ == trim(s@),
{
    let a = chars_of(s);
    let (lo, hi) = trim_bounds(&a);
    string_of(&copy_range(&a, lo, hi))
}

/// `s` without leading whitespace.
pub fn trim_start_str(s: &str) -> (r: String)
    ensures
        r@ == trim_start(s@),
{
    let a = chars_of(s);
    let (lo, _hi) = trim_bounds(&a);
    string_of(&copy_range(&a, lo, a.len()))
}

/// `s` without trailing whitespace.
pub fn trim_end_str(s: &str) -> (r: String)
    ensures
        r@ == trim_end(s@),
{
    let a = chars_of(s);
    let mut j: usize = a.len();
    assert(a@.subrange(0, j as int) =~= a@);
    while j > 0 && crate::text::is_whitespace(a[j - 1])
        invariant
            j <= a@.len(),
            trim_end(a@) == trim_end(a@.subrange(0, j as int)),
        decreases j,
    {
        assert(a@.subrange(0, j as int).drop_last() =~= a@.subrange(0, j - 1));
        j = j - 1;
    }
    string_of(&copy_range(&a, 0, j))
}

/// The character position of byte offset `byte_offset` in `text`.
pub fn byte_to_char(text: &str, byte_offset: usize) -> (r: usize)
    requires
        byte_len(text@) < usize::MAX,
        exists|i: int| 0 <= i <= text@.len() && #[trigger] byte_len(text@.take(i)) == byte_offset,
    ensures
        r <= text@.len(),
        byte_len(text@.take(r as int)) == byte_offset,
        r as int == char_pos(text@, byte_offset as int),
{
    let (chars, _n) = decode(text);
    char_index(&chars, byte_offset)
}

fn hex_digit_char(d: u32) -> (c: char)
    requires
        d < 16,
    ensures
        c == hex_digit(d as int),
{
    let b: u8 = if d < 10 { (d + 48) as u8 } else { (d + 87) as u8 };
    b as char
}

/// `s` as a JSON string literal: quoted, with `"`, `\`, newline, return and
/// tab escaped, and the other control characters written `\u00XX`.
pub fn json_escape_string(s: &str) -> (r: String)
    ensures
        r@ == seq!['"'] + json_chars(s@) + seq!['"'],
{
    let a = chars_of(s);
    let mut out: Vec<char> = Vec::new();
    out.push('"');
    let mut k: usize = 0;
    assert(a@.take(0) =~= Seq::<char>::empty());
    while k < a.len()
        invariant
            k <= a@.len(),
            out@ == seq!['"'] + json_chars(a@.take(k as int)),
        decreases a.len() - k,
    {
        let c = a[k];
        let ghost before = out@;
        let u = c as u32;
        if c == '"' {
            out.push('\\');
            out.push('"');
        } else if c == '\\' {
            out.push('\\');
            out.push('\\');
        } else if c == '\n' {
            out.push('\\');
            out.push('n');
        } else if c == '\r' {
            out.push('\\');
            out.push('r');
        } else if c == '\t' {
            out.push('\\');
            out.push('t');
        } else if u < 0x20 {
            out.push('\\');
            out.push('u');
            out.push('0');
            out.push('0');
            out.push(hex_digit_char(u / 16));
            out.push(hex_digit_char(u % 16));
        } else {
            out.push(c);
        }
        proof {
            let t = a@.take(k + 1);
            assert(t.drop_last() =~= a@.take(k as int));
            assert(t.last() == c);
            assert(out@ =~= before + json_char(c));
            assert(out@ =~= seq!['"'] + json_chars(t));
        }
        k = k + 1;
    }
    out.push('"');
    assert(a@.take(a@.len() as int) =~= a@);
    string_of(&out)
}

/// `ps` joined with `p` between neighbours.
pub open spec fn join_spec(ps: Seq<Seq<char>>, p: Seq<char>) -> Seq<char>
    decreases ps.len(),
{
    if ps.len() == 0 {
        Seq::empty()
    } else if ps.len() == 1 {
        ps[0]
    } else {
        ps[0] + p + join_spec(ps.drop_first(), p)
    }
}

proof fn lemma_join_pieces(s: Seq<char>, p: Seq<char>, i: int)
    requires
        p.len() > 0,
        0 <= i <= s.len(),
    ensures
        join_spec(pieces(s, p, i), p) == s.subrange(i, s.len() as int),
        pieces(s, p, i).len() >= 1,
    decreases s.len() - i,
{
    lemma_find_from_bounds(s, p, i);
    let j = find_from(s, p, i);
    if j >= i && j + p.len() <= s.len() {
        lemma_join_pieces(s, p, j + p.len());
        let rest = pieces(s, p, j + p.len());
        let ps = pieces(s, p, i);
        assert(ps == seq![s.subrange(i, j)] + rest);
        assert(ps.drop_first() =~= rest);
        assert(s.subrange(j, j + p.len()) == p);
        assert(s.subrange(i, s.len() as int) =~= s.subrange(i, j) + p + s.subrange(j + p.len(), s.len() as int));
    }
}

/// Splitting a string at a non-empty separator and joining the pieces with
/// it gives the string back.
pub proof fn law_split_join(s: Seq<char>, p: Seq<char>)
    requires
        p.len() > 0,
    ensures
        join_spec(split_spec(s, p), p) == s,
{
    lemma_join_pieces(s, p, 0);
    assert(s.subrange(0, s.len() as int) =~= s);
}

/// Padding gives at least `width` characters and keeps the string whole at
/// one end.
pub proof fn law_pad_width(s: Seq<char>, width: nat, fill: char, at_start: bool)
    ensures
        pad_spec(s, width, fill, at_start).len() == if s.len() >= width { s.len() } else { width },
        at_start ==> pad_spec(s, width, fill, at_start).skip(pad_spec(s, width, fill, at_start).len() - s.len()) == s,
        !at_start ==> pad_spec(s, width, fill, at_start).take(s.len() as int) == s,
{
    let r = pad_spec(s, width, fill, at_start);
    if s.len() < width {
        if at_start {
            assert(r.skip(r.len() - s.len()) =~= s);
        } else {
            assert(r.take(s.len() as int) =~= s);
        }
    } else {
        assert(r.skip(0) =~= s);
        assert(r.take(s.len() as int) =~= s);
    }
}

/// `a` comes no later than `b` in the order of their codepoints, character
/// by character (a prefix first).
pub open spec fn text_le(a: Seq<char>, b: Seq<char>) -> bool
    decreases a.len(),
{
    if a.len() == 0 {
        true
    } else if b.len() == 0 {
        false
    } else if a[0] != b[0] {
        (a[0] as u32) < (b[0] as u32)
    } else {
        text_le(a.drop_first(), b.drop_first())
    }
}

/// The order of texts, as a relation.
pub open spec fn text_order() -> spec_fn(Seq<char>, Seq<char>) -> bool {
    |a: Seq<char>, b: Seq<char>| text_le(a, b)
}

proof fn lemma_le_reflexive(a: Seq<char>)
    ensures
        text_le(a, a),
    decreases a.len(),
{
    if a.len() > 0 {
        lemma_le_reflexive(a.drop_first());
    }
}

proof fn lemma_le_antisymmetric(a: Seq<char>, b: Seq<char>)
    requires
        text_le(a, b),
        text_le(b, a),
    ensures
        a == b,
    decreases a.len(),
{
    if a.len() > 0 && b.len() > 0 {
        if a[0] == b[0] {
            lemma_le_antisymmetric(a.drop_first(), b.drop_first());
            assert(a =~= seq![a[0]] + a.drop_first());
            assert(b =~= seq![b[0]] + b.drop_first());
        }
    }
    if a.len() == 0 {
        assert(b.len() == 0);
        assert(a =~= b);
    }
}

pub proof fn lemma_le_transitive(a: Seq<char>, b: Seq<char>, c: Seq<char>)
    requires
        text_le(a, b),
        text_le(b, c),
    ensures
        text_le(a, c),
    decreases a.len(),
{
    if a.len() > 0 && b.len() > 0 && c.len() > 0 {
        if a[0] == b[0] && b[0] == c[0] {
            lemma_le_transitive(a.drop_first(), b.drop_first(), c.drop_first());
        } else if a[0] != c[0] {
            vstd::utf8::char_u32_cast(a[0], a[0] as u32);
            vstd::utf8::char_u32_cast(c[0], c[0] as u32);
        }
    }
}

proof fn lemma_le_connected(a: Seq<char>, b: Seq<char>)
    ensures
        text_le(a, b) || text_le(b, a),
    decreases a.len(),
{
    if a.len() > 0 && b.len() > 0 {
        if a[0] == b[0] {
            lemma_le_connected(a.drop_first(), b.drop_first());
        } else {
            vstd::utf8::char_u32_cast(a[0], a[0] as u32);
            vstd::utf8::char_u32_cast(b[0], b[0] as u32);
        }
    }
}

/// The order of texts is a total order.
pub proof fn lemma_text_order_total()
    ensures
        total_ordering(text_order()),
{
    let r = text_order();
    assert forall|a: Seq<char>| #[trigger] r(a, a) by {
        lemma_le_reflexive(a);
    }
    assert forall|a: Seq<char>, b: Seq<char>| #[trigger] r(a, b) && #[trigger] r(b, a) implies a == b by {
        lemma_le_antisymmetric(a, b);
    }
    assert forall|a: Seq<char>, b: Seq<char>, c: Seq<char>|
        #[trigger] r(a, b) && #[trigger] r(b, c) implies r(a, c) by {
        lemma_le_transitive(a, b, c);
    }
    assert forall|a: Seq<char>, b: Seq<char>| #[trigger] r(a, b) || #[trigger] r(b, a) by {
        lemma_le_connected(a, b);
    }
}

/// Whether `a` comes no later than `b`.
fn text_le_exec(a: &Vec<char>, b: &Vec<char>) -> (r: bool)
    ensures
        r == text_le(a@, b@),
{
    let mut i: usize = 0;
    assert(a@.skip(0) =~= a@);
    assert(b@.skip(0) =~= b@);
    while i < a.len() && i < b.len() && a[i] == b[i]
        invariant
            i <= a@.len(),
            i <= b@.len(),
            forall|k: int| 0 <= k < i ==> a@[k] == b@[k],
            text_le(a@, b@) == text_le(a@.skip(i as int), b@.skip(i as int)),
        decreases a.len() - i,
    {
        proof {
            assert(a@.skip(i as int).drop_first() =~= a@.skip(i + 1));
            assert(b@.skip(i as int).drop_first() =~= b@.skip(i + 1));
        }
        i = i + 1;
    }
    if i == a.len() {
        true
    } else if i == b.len() {
        false
    } else {
        (a[i] as u32) < (b[i] as u32)
    }
}

/// Whether `a` comes no later than `b` in the order of texts.
pub fn text_le_str(a: &str, b: &str) -> (r: bool)
    ensures
        r == text_le(a@, b@),
{
    text_le_exec(&chars_of(a), &chars_of(b))
}

/// The texts of `v`, sorted by `text_le`.
pub fn sort_texts(v: Vec<Vec<char>>) -> (r: Vec<Vec<char>>)
    ensures
        r@.map_values(|t: Vec<char>| t@) == v@.map_values(|t: Vec<char>| t@).sort_by(text_order()),
{
    let ghost input = v@.map_values(|t: Vec<char>| t@);
    let mut out: Vec<Vec<char>> = Vec::new();
    let mut i: usize = 0;
    proof {
        lemma_text_order_total();
    }
    while i < v.len()
        invariant
            i <= v@.len(),
            input == v@.map_values(|t: Vec<char>| t@),
            total_ordering(text_order()),
            sorted_by(out@.map_values(|t: Vec<char>| t@), text_order()),
            out@.map_values(|t: Vec<char>| t@).to_multiset() == input.take(i as int).to_multiset(),
        decreases v.len() - i,
    {
        let x = v[i].clone();
        let ghost xs = x@;
        assert(xs == input[i as int]);
        let ghost before = out@.map_values(|t: Vec<char>| t@);
        let mut p: usize = 0;
        while p < out.len() && text_le_exec(&out[p], &x)
            invariant
                p <= out@.len(),
                before == out@.map_values(|t: Vec<char>| t@),
                xs == x@,
                forall|k: int| 0 <= k < p ==> text_le(#[trigger] before[k], xs),
            decreases out.len() - p,
        {
            p = p + 1;
        }
        proof {
            if p < out@.len() {
                assert(!text_le(before[p as int], xs));
                lemma_le_connected(before[p as int], xs);
            }
        }
        out.insert(p, x);
        proof {
            let after = out@.map_values(|t: Vec<char>| t@);
            assert(after =~= before.insert(p as int, xs));
            vstd::seq_lib::to_multiset_insert(before, p as int, xs);
            assert(input.take(i + 1) =~= input.take(i as int).push(xs));
            assert forall|a: int, b: int| 0 <= a < b < after.len() implies #[trigger] text_order()(after[a], after[b]) by {
                if b > p {
                    assert(text_le(xs, before[b - 1])) by {
                        if b - 1 > p {
                            assert(text_order()(before[p as int], before[b - 1]));
                            lemma_le_transitive(xs, before[p as int], before[b - 1]);
                        }
                    }
                    if a < p {
                        lemma_le_transitive(before[a], xs, before[b - 1]);
                    } else if a > p {
                        assert(text_order()(before[a - 1], before[b - 1]));
                    }
                } else if b < p {
                    assert(text_order()(before[a], before[b]));
                }
            }
        }
        i = i + 1;
    }
    proof {
        let res = out@.map_values(|t: Vec<char>| t@);
        assert(input.take(v@.len() as int) =~= input);
        input.lemma_sort_by_ensures(text_order());
        vstd::seq_lib::lemma_sorted_unique(res, input.sort_by(text_order()), text_order());
    }
    out
}

/// The strings of `v`, sorted by `text_le`.
pub fn sort_strings(v: &[String]) -> (r: Vec<String>)
    ensures
        r@.map_values(|s: String| s@) == v@.map_values(|s: String| s@).sort_by(text_order()),
{
    let mut texts: Vec<Vec<char>> = Vec::new();
    let mut i: usize = 0;
    while i < v.len()
        invariant
            i <= v@.len(),
            texts@.len() == i,
            forall|k: int| 0 <= k < i ==> (#[trigger] texts@[k])@ == v@[k]@,
        decreases v.len() - i,
    {
        texts.push(chars_of(v[i].as_str()));
        i = i + 1;
    }
    assert(texts@.map_values(|t: Vec<char>| t@) =~= v@.map_values(|s: String| s@));
    let sorted = sort_texts(texts);
    let mut out: Vec<String> = Vec::new();
    let mut j: usize = 0;
    while j < sorted.len()
        invariant
            j <= sorted@.len(),
            out@.len() == j,
            forall|k: int| 0 <= k < j ==> (#[trigger] out@[k])@ == sorted@[k]@,
        decreases sorted.len() - j,
    {
        out.push(string_of(&sorted[j]));
        j = j + 1;
    }
    assert(out@.map_values(|s: String| s@) =~= sorted@.map_values(|t: Vec<char>| t@));
    out
}

/// Writing a string one character at a time from the front.
proof fn lemma_json_chars_cons(c: char, s: Seq<char>)
    ensures
        json_chars(seq![c] + s) == json_char(c) + json_chars(s),
    decreases s.len(),
{
    if s.len() == 0 {
        assert(seq![c] + s =~= seq![c]);
        assert(seq![c].drop_last() =~= Seq::<char>::empty());
        assert(json_chars(seq![c]) == json_chars(Seq::<char>::empty()) + json_char(c));
        assert(json_char(c) + json_chars(s) =~= json_char(c));
        assert(Seq::<char>::empty() + json_char(c) =~= json_char(c));
    } else {
        let w = seq![c] + s;
        assert(w.drop_last() =~= seq![c] + s.drop_last());
        assert(w.last() == s.last());
        lemma_json_chars_cons(c, s.drop_last());
        assert(json_char(c) + json_chars(s.drop_last()) + json_char(s.last()) =~= json_char(c) + (json_chars(
            s.drop_last(),
        ) + json_char(s.last())));
    }
}

/// How the hexadecimal digits written for a control character read back.
proof fn lemma_hex_digit_value(d: int)
    requires
        0 <= d < 16,
    ensures
        hex_value(hex_digit(d)) == d,
{
    if d < 10 {
        assert((((d + 48) as u32) as char) as int == d + 48);
    } else {
        assert((((d + 87) as u32) as char) as int == d + 87);
    }
}

/// One character written as inside a JSON string reads back as itself.
proof fn lemma_json_decode_char(c: char, rest: Seq<char>)
    ensures
        json_decode(json_char(c) + rest) == seq![c as int] + json_decode(rest),
{
    let w = json_char(c) + rest;
    if c == '"' || c == '\\' || c == '\n' || c == '\r' || c == '\t' {
        assert(w[0] == '\\' && w[1] == json_char(c)[1]);
        assert(w.skip(2) =~= rest);
    } else if (c as u32) < 0x20 {
        let u = c as u32;
        lemma_hex_digit_value((u / 16) as int);
        lemma_hex_digit_value((u % 16) as int);
        assert(hex_value('0') == 0);
        assert(w[1] == 'u' && w[2] == '0' && w[3] == '0');
        assert(w[4] == hex_digit((u / 16) as int) && w[5] == hex_digit((u % 16) as int));
        assert(w.skip(6) =~= rest);
        assert(16 * ((u / 16) as int) + (u % 16) as int == u as int);
    } else {
        assert(w[0] == c);
        assert(w.skip(1) =~= rest);
    }
}

/// JSON encoding of strings round-trips: the JSON text written for `s`
/// (inside its quotes) decodes, by the rules of JSON, to exactly the
/// characters of `s`; a tab is written as an escape that means a tab, a
/// newline as one that means a newline, and so on.
pub proof fn law_json_string_round_trip(s: Seq<char>)
    ensures
        json_decode(json_chars(s)) == s.map_values(|c: char| c as int),
    decreases s.len(),
{
    if s.len() == 0 {
        assert(s.map_values(|c: char| c as int) =~= Seq::<int>::empty());
    } else {
        let t = s.drop_first();
        assert(s =~= seq![s[0]] + t);
        lemma_json_chars_cons(s[0], t);
        lemma_json_decode_char(s[0], json_chars(t));
        law_json_string_round_trip(t);
        assert(s.map_values(|c: char| c as int) =~= seq![s[0] as int] + t.map_values(|c: char| c as int));
    }
}

} // verus!
