//! How a number literal is shown in messages: the way the standard library
//! writes the floating-point value it stands for with `{:?}` (the shortest
//! digits; `1.0` for a whole number; exponent form below 1e-4 and from 1e16
//! on), worked out on the digits of the literal. The literal is a run of
//! digits with at most one `.`; its significant digits are kept as written.

use vstd::prelude::*;

use crate::text::{append_chars, copy_range, decimal, decimal_chars, push_repeat, push_str, repeat};

verus! {

/// The position of the first `.` in `t`, or `t.len()`.
pub open spec fn dot_index(t: Seq<char>) -> int
    decreases t.len(),
{
    if t.len() == 0 {
        0
    } else if t[0] == '.' {
        0
    } else {
        1 + dot_index(t.drop_first())
    }
}

/// The number of `0`s at the start of `d`.
pub open spec fn leading_zeros(d: Seq<char>) -> int
    decreases d.len(),
{
    if d.len() == 0 || d[0] != '0' {
        0
    } else {
        1 + leading_zeros(d.drop_first())
    }
}

/// The number of `0`s at the end of `d`.
pub open spec fn trailing_zeros(d: Seq<char>) -> int
    decreases d.len(),
{
    if d.len() == 0 || d.last() != '0' {
        0
    } else {
        1 + trailing_zeros(d.drop_last())
    }
}

/// The significant digits `g` (the first one not `0`) written in exponent
/// form, `x` the power of ten of the first: `g[0].g[1..]ex`.
pub open spec fn exp_form(g: Seq<char>, x: int) -> Seq<char> {
    seq![g[0]] + (if g.len() > 1 {
        seq!['.'] + g.skip(1)
    } else {
        Seq::empty()
    }) + seq!['e'] + (if x < 0 {
        seq!['-'] + decimal((-x) as nat)
    } else {
        decimal(x as nat)
    })
}

/// The significant digits `g` written as a plain decimal, `e` digits of
/// the value before the point (`e <= 0`: `-e` zeros after it first).
pub open spec fn plain_form(g: Seq<char>, e: int) -> Seq<char> {
    if e <= 0 {
        "0."@ + repeat('0', (-e) as nat) + g
    } else if e >= g.len() {
        g + repeat('0', (e - g.len()) as nat) + ".0"@
    } else {
        g.take(e) + seq!['.'] + g.skip(e)
    }
}

/// The literal `t` as its value is shown: with `g` its significant digits
/// and `x` the power of ten of the first of them, the exponent form when
/// `x < -4` or `x >= 16`, else the plain decimal with at least one digit
/// after the point; zero is `0.0`.
pub open spec fn number_debug(t: Seq<char>) -> Seq<char> {
    let p = dot_index(t);
    let ip = t.take(p);
    let fp = if p < t.len() {
        t.skip(p + 1)
    } else {
        Seq::empty()
    };
    let all = ip + fp;
    let lz = leading_zeros(all);
    if lz >= all.len() {
        "0.0"@
    } else {
        let g = all.subrange(lz, all.len() - trailing_zeros(all));
        let e = ip.len() - lz;
        if e - 1 < -4 || e - 1 >= 16 {
            exp_form(g, e - 1)
        } else {
            plain_form(g, e)
        }
    }
}

proof fn lemma_dot_index(t: Seq<char>, k: int)
    requires
        0 <= k <= t.len(),
        forall|j: int| 0 <= j < k ==> t[j] != '.',
        k < t.len() ==> t[k] == '.',
    ensures
        dot_index(t) == k,
    decreases k,
{
    if k > 0 {
        assert forall|j: int| 0 <= j < k - 1 implies t.drop_first()[j] != '.' by {
            assert(t.drop_first()[j] == t[j + 1]);
        }
        lemma_dot_index(t.drop_first(), k - 1);
    }
}

proof fn lemma_leading_zeros(d: Seq<char>, k: int)
    requires
        0 <= k <= d.len(),
        forall|j: int| 0 <= j < k ==> d[j] == '0',
        k < d.len() ==> d[k] != '0',
    ensures
        leading_zeros(d) == k,
    decreases k,
{
    if k > 0 {
        assert forall|j: int| 0 <= j < k - 1 implies d.drop_first()[j] == '0' by {
            assert(d.drop_first()[j] == d[j + 1]);
        }
        lemma_leading_zeros(d.drop_first(), k - 1);
    }
}

proof fn lemma_trailing_zeros(d: Seq<char>, k: int)
    requires
        0 <= k <= d.len(),
        forall|j: int| d.len() - k <= j < d.len() ==> d[j] == '0',
        k < d.len() ==> d[d.len() - k - 1] != '0',
    ensures
        trailing_zeros(d) == k,
    decreases k,
{
    if k > 0 {
        assert forall|j: int| d.drop_last().len() - (k - 1) <= j < d.drop_last().len() implies d.drop_last()[j]
            == '0' by {
            assert(d.drop_last()[j] == d[j]);
        }
        lemma_trailing_zeros(d.drop_last(), k - 1);
    }
}

/// The literal `t` as its value is shown (see `number_debug`).
pub fn number_debug_chars(t: &[char]) -> (r: Vec<char>)
    ensures
        r@ == number_debug(t@),
{
    let n = t.len();
    let mut p: usize = 0;
    while p < n && t[p] != '.'
        invariant
            p <= n == t@.len(),
            forall|j: int| 0 <= j < p ==> t@[j] != '.',
        decreases n - p,
    {
        p = p + 1;
    }
    proof {
        lemma_dot_index(t@, p as int);
    }
    let mut all: Vec<char> = Vec::new();
    let mut i: usize = 0;
    while i < n
        invariant
            i <= n == t@.len(),
            p <= n,
            dot_index(t@) == p,
            all@ == (if i <= p {
                t@.take(i as int)
            } else {
                t@.take(p as int) + t@.subrange(p + 1, i as int)
            }),
        decreases n - i,
    {
        if i != p {
            all.push(t[i]);
        }
        proof {
            if i < p {
                assert(t@.take(i + 1) =~= t@.take(i as int).push(t@[i as int]));
            } else if i == p {
                assert(t@.subrange(p + 1, i + 1) =~= Seq::<char>::empty());
                assert(t@.take(p as int) + Seq::<char>::empty() =~= t@.take(p as int));
            } else {
                assert(t@.subrange(p + 1, i + 1) =~= t@.subrange(p + 1, i as int).push(t@[i as int]));
            }
        }
        i = i + 1;
    }
    let ghost ip = t@.take(p as int);
    let ghost fp = if p < n {
        t@.skip(p + 1)
    } else {
        Seq::<char>::empty()
    };
    proof {
        if p < n {
            assert(t@.subrange(p + 1, n as int) =~= t@.skip(p + 1));
        } else {
            assert(t@.take(n as int) =~= t@.take(p as int) + Seq::<char>::empty());
        }
        assert(all@ =~= ip + fp);
    }
    let m = all.len();
    let mut lz: usize = 0;
    while lz < m && all[lz] == '0'
        invariant
            lz <= m == all@.len(),
            forall|j: int| 0 <= j < lz ==> all@[j] == '0',
        decreases m - lz,
    {
        lz = lz + 1;
    }
    proof {
        lemma_leading_zeros(all@, lz as int);
    }
    let mut out: Vec<char> = Vec::new();
    if lz >= m {
        push_str(&mut out, "0.0");
        return out;
    }
    let mut tz: usize = 0;
    while tz < m - lz && all[m - 1 - tz] == '0'
        invariant
            lz < m == all@.len(),
            tz <= m - lz,
            forall|j: int| m - tz <= j < m ==> all@[j] == '0',
        decreases m - lz - tz,
    {
        tz = tz + 1;
    }
    proof {
        if tz == m - lz {
            assert(all@[lz as int] == '0');
        }
        lemma_trailing_zeros(all@, tz as int);
    }
    let g = copy_range(&all, lz, m - tz);
    if (p >= 17 && p - 17 >= lz) || (lz >= 4 && lz - 4 >= p) {
        exp_chars(&g, p, lz)
    } else {
        plain_chars(&g, p, lz)
    }
}

/// The digits `g` in exponent form, for the power `(p - lz) - 1`.
fn exp_chars(g: &Vec<char>, p: usize, lz: usize) -> (r: Vec<char>)
    requires
        g@.len() > 0,
        lz < usize::MAX,
    ensures
        r@ == exp_form(g@, (p - lz) - 1),
{
    let mut out: Vec<char> = Vec::new();
    out.push(g[0]);
    if g.len() > 1 {
        out.push('.');
        let mut k: usize = 1;
        while k < g.len()
            invariant
                1 <= k <= g@.len(),
                out@ == seq![g@[0], '.'] + g@.subrange(1, k as int),
            decreases g.len() - k,
        {
            out.push(g[k]);
            proof {
                assert(g@.subrange(1, k + 1) =~= g@.subrange(1, k as int).push(g@[k as int]));
            }
            k = k + 1;
        }
        proof {
            assert(g@.skip(1) =~= g@.subrange(1, g@.len() as int));
            assert(out@ =~= seq![g@[0]] + (seq!['.'] + g@.skip(1)));
        }
    } else {
        assert(out@ =~= seq![g@[0]] + Seq::<char>::empty());
    }
    let ghost head = out@;
    out.push('e');
    let ghost x: int = (p - lz) - 1;
    if lz >= p {
        out.push('-');
        let d = decimal_chars(lz - p + 1);
        append_chars(&mut out, &d);
        proof {
            assert(out@ =~= head + seq!['e'] + (seq!['-'] + decimal((-x) as nat)));
        }
    } else {
        let d = decimal_chars(p - lz - 1);
        append_chars(&mut out, &d);
        proof {
            assert(out@ =~= head + seq!['e'] + decimal(x as nat));
        }
    }
    out
}

/// The digits `g` as a plain decimal with `p - lz` digits before the point.
fn plain_chars(g: &Vec<char>, p: usize, lz: usize) -> (r: Vec<char>)
    requires
        g@.len() > 0,
    ensures
        r@ == plain_form(g@, p - lz),
{
    let mut out: Vec<char> = Vec::new();
    if p <= lz {
        push_str(&mut out, "0.");
        push_repeat(&mut out, '0', lz - p);
        append_chars(&mut out, g);
    } else if p - lz >= g.len() {
        append_chars(&mut out, g);
        push_repeat(&mut out, '0', p - lz - g.len());
        push_str(&mut out, ".0");
    } else {
        let e = p - lz;
        let mut k: usize = 0;
        while k < e
            invariant
                k <= e < g@.len(),
                out@ == g@.take(k as int),
            decreases e - k,
        {
            out.push(g[k]);
            proof {
                assert(g@.take(k + 1) =~= g@.take(k as int).push(g@[k as int]));
            }
            k = k + 1;
        }
        out.push('.');
        let mut k2: usize = e;
        while k2 < g.len()
            invariant
                e <= k2 <= g@.len(),
                out@ == g@.take(e as int) + seq!['.'] + g@.subrange(e as int, k2 as int),
            decreases g.len() - k2,
        {
            out.push(g[k2]);
            proof {
                assert(g@.subrange(e as int, k2 + 1) =~= g@.subrange(e as int, k2 as int).push(g@[k2 as int]));
            }
            k2 = k2 + 1;
        }
        proof {
            assert(g@.subrange(e as int, g@.len() as int) =~= g@.skip(e as int));
        }
    }
    out
}

} // verus!
