//! Values of the core library that need no arithmetic on numbers: table
//! keys, the built-in `require`, and how a table is laid out as JSON.

use vstd::prelude::*;

use crate::text::{chars_of, lit, signed_decimal, signed_decimal_chars, string_of};

verus! {

/// A key of a table: a boolean, an integer or a string.
#[derive(Debug, Clone, PartialEq, Eq, Hash)]
pub enum TableKey {
    Boolean(bool),
    Integer(i64),
    String(String),
}

impl TableKey {
    /// The string key `s`.
    pub fn from_str(s: &str) -> (k: TableKey)
        ensures
            k matches TableKey::String(t) && t@ == s@,
    {
        TableKey::String(lit(s))
    }
}

/// What a native value does.
#[derive(Debug, Clone, Copy, PartialEq, Eq, Structural)]
pub enum NativeData {
    Require,
}

/// A native value: a built-in object with behaviour of its own.
#[derive(Debug, Clone)]
pub struct Native {
    pub data: NativeData,
}

/// How a table is written in JSON.
#[derive(Debug, Clone)]
pub enum JsonLayout {
    /// An array: the entry holding each index, in index order.
    Array(Vec<usize>),
    /// An object: the name of each entry, in entry order.
    Object(Vec<String>),
}

/// The name of a key in a JSON object.
pub open spec fn key_text(k: TableKey) -> Seq<char> {
    match k {
        TableKey::Boolean(b) => if b { "true"@ } else { "false"@ },
        TableKey::Integer(i) => signed_decimal(i as int),
        TableKey::String(s) => s@,
    }
}

/// The keys are exactly the indices `0 .. keys.len()`: a non-empty array.
pub open spec fn is_dense(keys: Seq<TableKey>) -> bool {
    &&& keys.len() > 0
    &&& forall|e: int| 0 <= e < keys.len() ==> (#[trigger] keys[e]) is Integer
    &&& forall|i: int| 0 <= i < keys.len() ==> #[trigger] has_index(keys, i)
}

/// Some key is the integer `i`.
pub open spec fn has_index(keys: Seq<TableKey>, i: int) -> bool {
    exists|e: int| 0 <= e < keys.len() && keys[e] == TableKey::Integer(i as i64)
}

/// The name of a key in a JSON object.
pub fn key_name(k: &TableKey) -> (r: String)
    ensures
        r@ == key_text(*k),
{
    match k {
        TableKey::Boolean(b) => if *b { lit("true") } else { lit("false") },
        TableKey::Integer(i) => string_of(&signed_decimal_chars(*i)),
        TableKey::String(s) => s.clone(),
    }
}

/// The entry whose key is the integer `i`.
fn entry_of(keys: &[TableKey], i: usize) -> (r: Option<usize>)
    requires
        i <= i64::MAX,
    ensures
        match r {
            Some(e) => e < keys@.len() && keys@[e as int] == TableKey::Integer(i as i64),
            None => forall|e: int| 0 <= e < keys@.len() ==> keys@[e] != TableKey::Integer(i as i64),
        },
{
    let mut e: usize = 0;
    while e < keys.len()
        invariant
            e <= keys@.len(),
            i <= i64::MAX,
            forall|q: int| 0 <= q < e ==> keys@[q] != TableKey::Integer(i as i64),
        decreases keys.len() - e,
    {
        match &keys[e] {
            TableKey::Integer(x) => {
                if *x as i128 == i as i128 {
                    return Some(e);
                }
            },
            _ => {},
        }
        e = e + 1;
    }
    None
}

/// How a table with the keys `keys` (in entry order) is written in JSON: as
/// an array when its keys are the indices `0 .. len`, as an object otherwise.
pub fn json_layout(keys: &[TableKey]) -> (r: JsonLayout)
    requires
        keys@.len() <= i64::MAX,
    ensures
        is_dense(keys@) ==> (r matches JsonLayout::Array(order) && order@.len() == keys@.len() && forall|i: int|
            0 <= i < order@.len() ==> #[trigger] order@[i] < keys@.len() && keys@[order@[i] as int]
                == TableKey::Integer(i as i64)),
        !is_dense(keys@) ==> (r matches JsonLayout::Object(names) && names@.len() == keys@.len() && forall|e: int|
            0 <= e < names@.len() ==> #[trigger] names@[e]@ == key_text(keys@[e])),
{
    let n = keys.len();
    let mut dense = n > 0;
    let mut k: usize = 0;
    while dense && k < n
        invariant
            k <= n == keys@.len(),
            n <= i64::MAX,
            dense ==> n > 0,
            dense ==> forall|q: int| 0 <= q < k ==> (#[trigger] keys@[q]) is Integer,
            !dense ==> !is_dense(keys@),
        decreases n - k,
    {
        match &keys[k] {
            TableKey::Integer(_) => {},
            _ => {
                dense = false;
            },
        }
        k = k + 1;
    }
    let mut order: Vec<usize> = Vec::new();
    if dense {
        let mut i: usize = 0;
        while i < n
            invariant_except_break
                dense,
            invariant
                i <= n == keys@.len(),
                n <= i64::MAX,
                n > 0,
                forall|q: int| 0 <= q < n ==> (#[trigger] keys@[q]) is Integer,
                order@.len() == i,
                forall|q: int| 0 <= q < i ==> #[trigger] order@[q] < keys@.len() && keys@[order@[q] as int]
                    == TableKey::Integer(q as i64),
            ensures
                order@.len() == i,
                forall|q: int| 0 <= q < i ==> #[trigger] order@[q] < keys@.len() && keys@[order@[q] as int]
                    == TableKey::Integer(q as i64),
                dense ==> i == n,
                !dense ==> !is_dense(keys@),
            decreases n - i,
        {
            match entry_of(keys, i) {
                Some(e) => {
                    order.push(e);
                },
                None => {
                    proof {
                        assert(!has_index(keys@, i as int));
                        assert(!is_dense(keys@));
                    }
                    dense = false;
                    break;
                },
            }
            i = i + 1;
        }
    }
    if dense {
        proof {
            assert forall|i: int| 0 <= i < keys@.len() implies #[trigger] has_index(keys@, i) by {
                assert(keys@[order@[i] as int] == TableKey::Integer(i as i64));
            }
        }
        JsonLayout::Array(order)
    } else {
        let mut names: Vec<String> = Vec::new();
        let mut e: usize = 0;
        while e < n
            invariant
                e <= n == keys@.len(),
                names@.len() == e,
                forall|q: int| 0 <= q < e ==> #[trigger] names@[q]@ == key_text(keys@[q]),
            decreases n - e,
        {
            names.push(key_name(&keys[e]));
            e = e + 1;
        }
        JsonLayout::Object(names)
    }
}

/// The integer of an integer key.
pub open spec fn int_of(k: TableKey) -> int {
    match k {
        TableKey::Integer(i) => i as int,
        _ => 0,
    }
}

/// The entries of a table whose keys are integers, in increasing order of
/// their keys: how a table is read as a sequence of values.
pub fn integer_entries(keys: &[TableKey]) -> (r: Vec<usize>)
    ensures
        forall|i: int| 0 <= i < r@.len() ==> (#[trigger] r@[i]) < keys@.len() && keys@[r@[i] as int] is Integer,
        forall|e: int| 0 <= e < keys@.len() && (#[trigger] keys@[e]) is Integer ==> r@.contains(e as usize),
        forall|i: int, j: int|
            0 <= i < j < r@.len() ==> r@[i] != r@[j] && int_of(keys@[#[trigger] r@[i] as int]) <= int_of(
                keys@[#[trigger] r@[j] as int],
            ),
{
    let mut out: Vec<usize> = Vec::new();
    let mut e: usize = 0;
    while e < keys.len()
        invariant
            e <= keys@.len(),
            forall|i: int| 0 <= i < out@.len() ==> (#[trigger] out@[i]) < e && keys@[out@[i] as int] is Integer,
            forall|q: int| 0 <= q < e && (#[trigger] keys@[q]) is Integer ==> out@.contains(q as usize),
            forall|i: int, j: int|
                0 <= i < j < out@.len() ==> out@[i] != out@[j] && int_of(keys@[#[trigger] out@[i] as int]) <= int_of(
                    keys@[#[trigger] out@[j] as int],
                ),
        decreases keys.len() - e,
    {
        match &keys[e] {
            TableKey::Integer(k) => {
                let mut p: usize = 0;
                while p < out.len() && key_at_most(keys, out[p], *k)
                    invariant
                        p <= out@.len(),
                        keys@[e as int] == TableKey::Integer(*k),
                        forall|i: int| 0 <= i < out@.len() ==> (#[trigger] out@[i]) < keys@.len(),
                        forall|i: int| 0 <= i < p ==> int_of(keys@[#[trigger] out@[i] as int]) <= *k,
                    decreases out.len() - p,
                {
                    p = p + 1;
                }
                let ghost before = out@;
                out.insert(p, e);
                proof {
                    assert(out@ == before.insert(p as int, e));
                    assert forall|q: int| 0 <= q < e + 1 && (#[trigger] keys@[q]) is Integer implies out@.contains(
                        q as usize,
                    ) by {
                        if q == e {
                            assert(out@[p as int] == e);
                        } else {
                            let w = choose|w: int| 0 <= w < before.len() && before[w] == q as usize;
                            if w < p {
                                assert(out@[w] == q as usize);
                            } else {
                                assert(out@[w + 1] == q as usize);
                            }
                        }
                    }
                    assert forall|i: int, j: int| 0 <= i < j < out@.len() implies out@[i] != out@[j] && int_of(
                        keys@[#[trigger] out@[i] as int],
                    ) <= int_of(keys@[#[trigger] out@[j] as int]) by {
                        if i < p && j == p {
                        } else if i == p && j > p {
                            assert(out@[j] == before[j - 1]);
                            if p < before.len() {
                                assert(int_of(keys@[before[p as int] as int]) > *k);
                                if j - 1 > p {
                                    assert(int_of(keys@[before[p as int] as int]) <= int_of(keys@[before[j - 1] as int]));
                                }
                            }
                        } else if i < p && j > p {
                            assert(out@[j] == before[j - 1]);
                            assert(out@[i] == before[i]);
                            assert(int_of(keys@[before[i] as int]) <= int_of(keys@[before[j - 1] as int]));
                        } else if i > p {
                            assert(out@[j] == before[j - 1]);
                            assert(out@[i] == before[i - 1]);
                        } else {
                            assert(out@[j] == before[j]);
                            assert(out@[i] == before[i]);
                        }
                    }
                }
            },
            _ => {},
        }
        e = e + 1;
    }
    out
}

/// Whether the key of entry `e` is an integer no greater than `k`.
fn key_at_most(keys: &[TableKey], e: usize, k: i64) -> (r: bool)
    requires
        e < keys@.len(),
    ensures
        r == (keys@[e as int] is Integer && int_of(keys@[e as int]) <= k),
{
    match &keys[e] {
        TableKey::Integer(x) => *x <= k,
        _ => false,
    }
}

} // verus!
