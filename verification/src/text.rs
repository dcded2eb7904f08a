//! Character-level helpers shared by the lexer, the source map, the error
//! renderer and the core library: UTF-8 widths, whitespace, trimming,
//! decimal rendering, and the conversions between `String` and `Vec<char>`.

use vstd::prelude::*;

verus! {

/// Number of bytes in the UTF-8 encoding of `c`.
pub open spec fn utf8_width(c: char) -> nat {
    if (c as u32) < 0x80 {
        1
    } else if (c as u32) < 0x800 {
        2
    } else if (c as u32) < 0x10000 {
        3
    } else {
        4
    }
}

/// Number of bytes in the UTF-8 encoding of `s`.
pub open spec fn byte_len(s: Seq<char>) -> nat
    decreases s.len(),
{
    if s.len() == 0 {
        0
    } else {
        utf8_width(s[0]) + byte_len(s.drop_first())
    }
}

/// `b` is the byte offset of some character position of `s`.
pub open spec fn is_boundary(s: Seq<char>, b: int) -> bool {
    exists|i: int| 0 <= i <= s.len() && #[trigger] byte_len(s.take(i)) == b
}

pub proof fn lemma_byte_len_concat(a: Seq<char>, b: Seq<char>)
    ensures
        byte_len(a + b) == byte_len(a) + byte_len(b),
    decreases a.len(),
{
    if a.len() == 0 {
        assert(a + b =~= b);
    } else {
        assert((a + b).drop_first() =~= a.drop_first() + b);
        lemma_byte_len_concat(a.drop_first(), b);
    }
}

/// Extending a prefix by one character adds that character's width.
pub proof fn lemma_byte_len_step(s: Seq<char>, i: int)
    requires
        0 <= i < s.len(),
    ensures
        byte_len(s.take(i + 1)) == byte_len(s.take(i)) + utf8_width(s[i]),
{
    assert(s.take(i + 1) =~= s.take(i) + seq![s[i]]);
    lemma_byte_len_concat(s.take(i), seq![s[i]]);
    assert(seq![s[i]].drop_first() =~= Seq::<char>::empty());
    assert(byte_len(Seq::<char>::empty()) == 0);
    assert(byte_len(seq![s[i]]) == utf8_width(s[i]));
}

/// Byte offsets of character positions grow strictly with the position.
pub proof fn lemma_byte_len_strict(s: Seq<char>, i: int, j: int)
    requires
        0 <= i < j <= s.len(),
    ensures
        byte_len(s.take(i)) < byte_len(s.take(j)),
    decreases j - i,
{
    lemma_byte_len_step(s, j - 1);
    if i < j - 1 {
        lemma_byte_len_strict(s, i, j - 1);
    }
}

/// The byte length of a prefix never exceeds that of the whole.
pub proof fn lemma_byte_len_prefix_le(s: Seq<char>, i: int)
    requires
        0 <= i <= s.len(),
    ensures
        byte_len(s.take(i)) <= byte_len(s),
{
    if i < s.len() {
        lemma_byte_len_strict(s, i, s.len() as int);
    }
    assert(s.take(s.len() as int) =~= s);
}


/// Byte width of a character in UTF-8.
pub fn char_width(c: char) -> (w: usize)
    ensures
        w == utf8_width(c),
        1 <= w <= 4,
{
    let u = c as u32;
    if u < 0x80 {
        1
    } else if u < 0x800 {
        2
    } else if u < 0x10000 {
        3
    } else {
        4
    }
}

/// Unicode `White_Space` characters (what `char::is_whitespace` accepts).
pub open spec fn is_ws(c: char) -> bool {
    let u = c as u32;
    ||| 0x09 <= u <= 0x0d
    ||| u == 0x20
    ||| u == 0x85
    ||| u == 0xa0
    ||| u == 0x1680
    ||| 0x2000 <= u <= 0x200a
    ||| u == 0x2028
    ||| u == 0x2029
    ||| u == 0x202f
    ||| u == 0x205f
    ||| u == 0x3000
}

pub fn is_whitespace(c: char) -> (b: bool)
    ensures
        b == is_ws(c),
{
    let u = c as u32;
    (0x09 <= u && u <= 0x0d) || u == 0x20 || u == 0x85 || u == 0xa0 || u == 0x1680 || (0x2000
        <= u && u <= 0x200a) || u == 0x2028 || u == 0x2029 || u == 0x202f || u == 0x205f || u
        == 0x3000
}

pub open spec fn is_ascii_digit(c: char) -> bool {
    '0' <= c <= '9'
}

pub open spec fn is_ascii_alpha(c: char) -> bool {
    ('a' <= c <= 'z') || ('A' <= c <= 'Z')
}

/// Characters that may continue an identifier: ASCII letters, digits and `_`.
pub open spec fn is_ident_char(c: char) -> bool {
    is_ascii_alpha(c) || is_ascii_digit(c) || c == '_'
}

/// Characters that may begin an identifier: ASCII letters and `_`.
pub open spec fn is_ident_start(c: char) -> bool {
    is_ascii_alpha(c) || c == '_'
}

pub fn digit_char(c: char) -> (b: bool)
    ensures
        b == is_ascii_digit(c),
{
    '0' <= c && c <= '9'
}

pub fn ident_char(c: char) -> (b: bool)
    ensures
        b == is_ident_char(c),
{
    ('a' <= c && c <= 'z') || ('A' <= c && c <= 'Z') || ('0' <= c && c <= '9') || c == '_'
}

pub fn ident_start(c: char) -> (b: bool)
    ensures
        b == is_ident_start(c),
{
    ('a' <= c && c <= 'z') || ('A' <= c && c <= 'Z') || c == '_'
}

/// `s` without its leading whitespace.
pub open spec fn trim_start(s: Seq<char>) -> Seq<char>
    decreases s.len(),
{
    if s.len() > 0 && is_ws(s[0]) {
        trim_start(s.drop_first())
    } else {
        s
    }
}

/// `s` without its trailing whitespace.
pub open spec fn trim_end(s: Seq<char>) -> Seq<char>
    decreases s.len(),
{
    if s.len() > 0 && is_ws(s.last()) {
        trim_end(s.drop_last())
    } else {
        s
    }
}

/// `s` without leading and trailing whitespace.
pub open spec fn trim(s: Seq<char>) -> Seq<char> {
    trim_end(trim_start(s))
}

/// Bounds `(a, b)` such that `trim(s) == s.subrange(a, b)`.
pub fn trim_bounds(s: &[char]) -> (r: (usize, usize))
    ensures
        r.0 <= r.1 <= s@.len(),
        trim(s@) == s@.subrange(r.0 as int, r.1 as int),
        trim_start(s@) == s@.subrange(r.0 as int, s@.len() as int),
{
    let n = s.len();
    let mut i: usize = 0;
    assert(s@.skip(0) =~= s@);
    while i < n && is_whitespace(s[i])
        invariant
            i <= n == s@.len(),
            trim_start(s@) == trim_start(s@.skip(i as int)),
        decreases n - i,
    {
        assert(s@.skip(i as int).drop_first() =~= s@.skip(i + 1));
        i = i + 1;
    }
    assert(trim_start(s@) == s@.skip(i as int));
    let mut j: usize = n;
    assert(s@.subrange(i as int, n as int) =~= s@.skip(i as int));
    while j > i && is_whitespace(s[j - 1])
        invariant
            i <= j <= n == s@.len(),
            trim(s@) == trim_end(s@.subrange(i as int, j as int)),
        decreases j,
    {
        assert(s@.subrange(i as int, j as int).drop_last() =~= s@.subrange(i as int, j - 1));
        j = j - 1;
    }
    assert(s@.subrange(i as int, n as int) =~= s@.skip(i as int));
    (i, j)
}

/// Copy of `s[lo..hi]`.
pub fn copy_range(s: &[char], lo: usize, hi: usize) -> (r: Vec<char>)
    requires
        lo <= hi <= s@.len(),
    ensures
        r@ == s@.subrange(lo as int, hi as int),
{
    let mut r: Vec<char> = Vec::new();
    let mut k = lo;
    while k < hi
        invariant
            lo <= k <= hi <= s@.len(),
            r@ == s@.subrange(lo as int, k as int),
        decreases hi - k,
    {
        r.push(s[k]);
        assert(r@ =~= s@.subrange(lo as int, k + 1));
        k = k + 1;
    }
    r
}

/// `v` followed by `w`.
pub fn append_chars(v: &mut Vec<char>, w: &[char])
    ensures
        final(v)@ == old(v)@ + w@,
{
    let mut k: usize = 0;
    let ghost start = v@;
    while k < w.len()
        invariant
            k <= w@.len(),
            v@ == start + w@.take(k as int),
        decreases w.len() - k,
    {
        v.push(w[k]);
        assert(w@.take(k + 1) =~= w@.take(k as int).push(w@[k as int]));
        k = k + 1;
    }
    assert(w@.take(w@.len() as int) =~= w@);
}

/// The character of a decimal digit `d < 10`.
pub open spec fn digit_of(d: nat) -> char {
    if d == 0 {
        '0'
    } else if d == 1 {
        '1'
    } else if d == 2 {
        '2'
    } else if d == 3 {
        '3'
    } else if d == 4 {
        '4'
    } else if d == 5 {
        '5'
    } else if d == 6 {
        '6'
    } else if d == 7 {
        '7'
    } else if d == 8 {
        '8'
    } else {
        '9'
    }
}

/// Decimal rendering of `n` without leading zeros (`"0"` for zero).
pub open spec fn decimal(n: nat) -> Seq<char>
    decreases n,
{
    if n < 10 {
        seq![digit_of(n)]
    } else {
        decimal(n / 10).push(digit_of(n % 10))
    }
}

fn digit(d: usize) -> (c: char)
    requires
        d < 10,
    ensures
        c == digit_of(d as nat),
{
    if d == 0 {
        '0'
    } else if d == 1 {
        '1'
    } else if d == 2 {
        '2'
    } else if d == 3 {
        '3'
    } else if d == 4 {
        '4'
    } else if d == 5 {
        '5'
    } else if d == 6 {
        '6'
    } else if d == 7 {
        '7'
    } else if d == 8 {
        '8'
    } else {
        '9'
    }
}

/// Decimal digits of `n`.
pub fn decimal_chars(n: usize) -> (r: Vec<char>)
    ensures
        r@ == decimal(n as nat),
    decreases n,
{
    if n < 10 {
        let mut v = Vec::new();
        v.push(digit(n));
        assert(v@ =~= seq![digit_of(n as nat)]);
        v
    } else {
        let mut v = decimal_chars(n / 10);
        v.push(digit(n % 10));
        v
    }
}

/// The characters of a string slice.
pub fn chars_of(s: &str) -> (r: Vec<char>)
    ensures
        r@ == s@,
{
    let mut r: Vec<char> = Vec::new();
    for c in it: s.chars()
        invariant
            r@ == it.seq().take(it.index() as int),
            it.seq() == s@,
    {
        r.push(c);
        assert(r@ =~= it.seq().take(it.index() + 1));
    }
    assert(r@ =~= s@);
    r
}

/// Calls `String::push`. Claimed: the string's characters are the old
/// ones followed by `c`.
#[verifier::external_body]
pub(crate) fn push_char(s: &mut String, c: char)
    ensures
        final(s)@ == old(s)@.push(c),
{
    s.push(c);
}

/// A `String` holding exactly the characters of `v`.
pub fn string_of(v: &[char]) -> (s: String)
    ensures
        s@ == v@,
{
    let mut s = String::new();
    let mut k: usize = 0;
    while k < v.len()
        invariant
            k <= v@.len(),
            s@ == v@.take(k as int),
        decreases v.len() - k,
    {
        push_char(&mut s, v[k]);
        assert(v@.take(k + 1) =~= v@.take(k as int).push(v@[k as int]));
        k = k + 1;
    }
    assert(v@.take(v@.len() as int) =~= v@);
    s
}

/// A `String` holding the characters of a literal.
pub fn lit(s: &str) -> (r: String)
    ensures
        r@ == s@,
{
    s.to_owned()
}

/// Equality of two character sequences.
pub fn chars_eq(a: &[char], b: &[char]) -> (r: bool)
    ensures
        r == (a@ == b@),
{
    if a.len() != b.len() {
        return false;
    }
    let mut k: usize = 0;
    while k < a.len()
        invariant
            k <= a@.len() == b@.len(),
            forall|j: int| 0 <= j < k ==> a@[j] == b@[j],
        decreases a.len() - k,
    {
        if a[k] != b[k] {
            return false;
        }
        k = k + 1;
    }
    assert(a@ =~= b@);
    true
}

/// `n` copies of `c`.
pub open spec fn repeat(c: char, n: nat) -> Seq<char> {
    Seq::new(n, |_i: int| c)
}

/// `n` spaces.
pub open spec fn spaces(n: nat) -> Seq<char> {
    repeat(' ', n)
}

/// `s` right-aligned in a field of `w` characters (what `{:>w$}` prints).
pub open spec fn pad_left(s: Seq<char>, w: nat) -> Seq<char> {
    if s.len() < w {
        spaces((w - s.len()) as nat) + s
    } else {
        s
    }
}

/// Appends `n` copies of `c`.
pub fn push_repeat(v: &mut Vec<char>, c: char, n: usize)
    ensures
        final(v)@ == old(v)@ + repeat(c, n as nat),
{
    let ghost start = v@;
    let mut k: usize = 0;
    while k < n
        invariant
            k <= n,
            v@ == start + repeat(c, k as nat),
        decreases n - k,
    {
        v.push(c);
        assert(start + repeat(c, (k + 1) as nat) =~= (start + repeat(c, k as nat)).push(c));
        k = k + 1;
    }
}

/// Appends the characters of a string slice.
pub fn push_str(v: &mut Vec<char>, s: &str)
    ensures
        final(v)@ == old(v)@ + s@,
{
    let w = chars_of(s);
    append_chars(v, &w);
}

/// Appends `s` right-aligned in a field of `w` characters.
pub fn push_padded(v: &mut Vec<char>, s: &[char], w: usize)
    ensures
        final(v)@ == old(v)@ + pad_left(s@, w as nat),
{
    if s.len() < w {
        push_repeat(v, ' ', w - s.len());
    }
    append_chars(v, s);
    assert(old(v)@ + pad_left(s@, w as nat) =~= v@);
}

/// The character position whose byte offset in `s` is `b`.
pub open spec fn char_pos(s: Seq<char>, b: int) -> int {
    choose|i: int| 0 <= i <= s.len() && #[trigger] byte_len(s.take(i)) == b
}

/// The characters of `s` before byte offset `b`.
pub open spec fn prefix_at(s: Seq<char>, b: int) -> Seq<char> {
    s.take(char_pos(s, b))
}

/// Whether byte offset `b` falls between two characters of `cs` (or at an end).
pub fn is_char_boundary(cs: &[char], b: usize) -> (r: bool)
    requires
        byte_len(cs@) < usize::MAX,
    ensures
        r == is_boundary(cs@, b as int),
{
    let ghost t = cs@;
    let mut k: usize = 0;
    let mut off: usize = 0;
    assert(t.take(0) =~= Seq::<char>::empty());
    assert(byte_len(Seq::<char>::empty()) == 0);
    while off < b && k < cs.len()
        invariant
            k <= t.len(),
            off == byte_len(t.take(k as int)),
            cs@ == t,
            byte_len(t) < usize::MAX,
            forall|i: int| 0 <= i < k ==> #[trigger] byte_len(t.take(i)) < b,
        decreases t.len() - k,
    {
        proof {
            lemma_byte_len_step(t, k as int);
            lemma_byte_len_prefix_le(t, k + 1);
        }
        off = off + char_width(cs[k]);
        k = k + 1;
    }
    if off == b {
        return true;
    }
    proof {
        assert forall|i: int| 0 <= i <= t.len() implies #[trigger] byte_len(t.take(i)) != b by {
            if i < k {
            } else if i > k {
                lemma_byte_len_strict(t, k as int, i);
                if off < b {
                    assert(k == t.len());
                }
            }
        }
    }
    false
}

/// The character position at byte offset `b` of `cs`.
pub fn char_index(cs: &[char], b: usize) -> (k: usize)
    requires
        byte_len(cs@) < usize::MAX,
        exists|i: int| 0 <= i <= cs@.len() && #[trigger] byte_len(cs@.take(i)) == b,
    ensures
        k <= cs@.len(),
        byte_len(cs@.take(k as int)) == b,
        k as int == char_pos(cs@, b as int),
{
    let ghost t = cs@;
    let mut k: usize = 0;
    let mut off: usize = 0;
    assert(t.take(0) =~= Seq::<char>::empty());
    assert(byte_len(Seq::<char>::empty()) == 0);
    while off < b
        invariant
            k <= t.len(),
            off == byte_len(t.take(k as int)),
            off <= b,
            exists|i: int| 0 <= i <= t.len() && #[trigger] byte_len(t.take(i)) == b,
            cs@ == t,
            byte_len(t) < usize::MAX,
        decreases b - off,
    {
        let ghost w = choose|i: int| 0 <= i <= t.len() && #[trigger] byte_len(t.take(i)) == b;
        if k >= cs.len() {
            proof {
                assert(t.take(k as int) =~= t);
                lemma_byte_len_prefix_le(t, w);
                assert(false);
            }
        }
        proof {
            lemma_byte_len_step(t, k as int);
            lemma_byte_len_prefix_le(t, k + 1);
            assert(t.take(t.len() as int) =~= t);
        }
        off = off + char_width(cs[k]);
        k = k + 1;
        proof {
            if off > b {
                if w < k {
                    if w < k - 1 {
                        lemma_byte_len_strict(t, w, k - 1);
                    }
                } else if w > k {
                    lemma_byte_len_strict(t, k as int, w);
                }
            }
        }
    }
    proof {
        let w = choose|i: int| 0 <= i <= t.len() && #[trigger] byte_len(t.take(i)) == b;
        if w != k {
            if w < k {
                lemma_byte_len_strict(t, w, k as int);
            } else {
                lemma_byte_len_strict(t, k as int, w);
            }
        }
    }
    k
}


/// Decimal digits of `n`.
pub fn decimal_u64(n: u64) -> (r: Vec<char>)
    ensures
        r@ == decimal(n as nat),
    decreases n,
{
    if n < 10 {
        let mut v = Vec::new();
        v.push(digit((n as usize)));
        assert(v@ =~= seq![digit_of(n as nat)]);
        v
    } else {
        let mut v = decimal_u64(n / 10);
        v.push(digit((n % 10) as usize));
        v
    }
}

/// Decimal rendering of an integer, with `-` before a negative one.
pub open spec fn signed_decimal(i: int) -> Seq<char> {
    if i < 0 {
        seq!['-'] + decimal((-i) as nat)
    } else {
        decimal(i as nat)
    }
}

/// Decimal digits of `i`, with `-` before a negative one.
pub fn signed_decimal_chars(i: i64) -> (r: Vec<char>)
    ensures
        r@ == signed_decimal(i as int),
{
    if i < 0 {
        let m: u64 = if i == i64::MIN { 9223372036854775808u64 } else { (-i) as u64 };
        let mut v = Vec::new();
        v.push('-');
        let d = decimal_u64(m);
        append_chars(&mut v, &d);
        v
    } else {
        decimal_u64(i as u64)
    }
}

/// The code points that Unicode gives the `White_Space` property
/// (PropList.txt): the controls TAB, LF, VT, FF, CR and NEL, SPACE, NO-BREAK
/// SPACE, OGHAM SPACE MARK, the spaces U+2000 to U+200A, LINE SEPARATOR,
/// PARAGRAPH SEPARATOR, NARROW NO-BREAK SPACE, MEDIUM MATHEMATICAL SPACE and
/// IDEOGRAPHIC SPACE.
pub open spec fn unicode_white_space() -> Set<u32> {
    set![
        0x0009u32, 0x000a, 0x000b, 0x000c, 0x000d, 0x0020, 0x0085, 0x00a0, 0x1680,
        0x2000, 0x2001, 0x2002, 0x2003, 0x2004, 0x2005, 0x2006, 0x2007, 0x2008, 0x2009, 0x200a,
        0x2028, 0x2029, 0x202f, 0x205f, 0x3000,
    ]
}

/// Whitespace, as the lexer skips it and `trim` removes it, is exactly
/// Unicode's `White_Space` (what `char::is_whitespace` accepts): a carriage
/// return is whitespace, a letter or a zero-width space is not.
pub proof fn law_whitespace_is_unicode_white_space(c: char)
    ensures
        is_ws(c) <==> unicode_white_space().contains(c as u32),
{
}

/// `trim_start` drops exactly the leading whitespace.
proof fn lemma_trim_start_cut(s: Seq<char>) -> (k: int)
    ensures
        0 <= k <= s.len(),
        trim_start(s) == s.skip(k),
        forall|j: int| 0 <= j < k ==> is_ws(#[trigger] s[j]),
        k < s.len() ==> !is_ws(s[k]),
    decreases s.len(),
{
    if s.len() > 0 && is_ws(s[0]) {
        let k1 = lemma_trim_start_cut(s.drop_first());
        assert(s.drop_first().skip(k1) =~= s.skip(k1 + 1));
        assert forall|j: int| 0 <= j < k1 + 1 implies is_ws(#[trigger] s[j]) by {
            if j > 0 {
                assert(s[j] == s.drop_first()[j - 1]);
            }
        }
        if k1 + 1 < s.len() {
            assert(s[k1 + 1] == s.drop_first()[k1]);
        }
        k1 + 1
    } else {
        assert(s.skip(0) =~= s);
        0
    }
}

/// `trim_end` drops exactly the trailing whitespace.
proof fn lemma_trim_end_cut(s: Seq<char>) -> (k: int)
    ensures
        0 <= k <= s.len(),
        trim_end(s) == s.take(k),
        forall|j: int| k <= j < s.len() ==> is_ws(#[trigger] s[j]),
        k > 0 ==> !is_ws(s[k - 1]),
    decreases s.len(),
{
    if s.len() > 0 && is_ws(s.last()) {
        let k1 = lemma_trim_end_cut(s.drop_last());
        assert(s.drop_last().take(k1) =~= s.take(k1));
        assert forall|j: int| k1 <= j < s.len() implies is_ws(#[trigger] s[j]) by {
            if j < s.len() - 1 {
                assert(s[j] == s.drop_last()[j]);
            }
        }
        if k1 > 0 {
            assert(s[k1 - 1] == s.drop_last()[k1 - 1]);
        }
        k1
    } else {
        assert(s.take(s.len() as int) =~= s);
        s.len() as int
    }
}

/// Trimming cuts `s` into leading white space, the result and trailing
/// white space, where white space is Unicode's `White_Space`, and the result
/// neither starts nor ends with a `White_Space` character.
pub proof fn law_trim_strips_white_space(s: Seq<char>)
    ensures
        exists|a: int, b: int|
            0 <= a <= b <= s.len() && #[trigger] s.subrange(a, b) == trim(s) && (forall|j: int|
                (0 <= j < a || b <= j < s.len()) ==> unicode_white_space().contains(#[trigger] s[j] as u32))
                && (a < b ==> !unicode_white_space().contains(s[a] as u32) && !unicode_white_space().contains(
                s[b - 1] as u32,
            )),
{
    let a = lemma_trim_start_cut(s);
    let t = s.skip(a);
    let k = lemma_trim_end_cut(t);
    let b = a + k;
    assert(t.take(k) =~= s.subrange(a, b));
    assert forall|j: int| (0 <= j < a || b <= j < s.len()) implies unicode_white_space().contains(
        #[trigger] s[j] as u32,
    ) by {
        if b <= j {
            assert(s[j] == t[j - a]);
        }
        law_whitespace_is_unicode_white_space(s[j]);
    }
    if a < b {
        assert(s[a] == t[0]);
        assert(s[b - 1] == t[k - 1]);
        law_whitespace_is_unicode_white_space(s[a]);
        law_whitespace_is_unicode_white_space(s[b - 1]);
    }
    assert(0 <= a <= b <= s.len() && s.subrange(a, b) == trim(s));
}

} // verus!
