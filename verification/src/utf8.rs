//! UTF-8 bytes and Unicode codepoints for the `@core/utf8` module: a string
//! becomes its UTF-8 bytes or its codepoints and back. Validity and
//! decoding are vstd's model of UTF-8 (`valid_utf8`, `decode_utf8`).

use vstd::prelude::*;

use vstd::utf8::{decode_utf8, encode_utf8, encode_utf8_decode_utf8, encode_utf8_valid_utf8, is_scalar, valid_utf8};

use crate::error::NativeError;
use crate::text::{chars_of, decimal, decimal_chars, append_chars, push_str, string_of};

verus! {

/// The text of the error `String::from_utf8` gives for bytes that are not
/// UTF-8 (where the invalid sequence starts and how long it is).
pub uninterp spec fn utf8_error_text(bytes: Seq<u8>) -> Seq<char>;

/// Calls `String::from_utf8`. Claimed: it succeeds exactly on valid UTF-8
/// (vstd's `valid_utf8`) with the characters the bytes encode; otherwise
/// the error's text is `utf8_error_text` of the bytes.
#[verifier::external_body]
fn string_from_utf8(bytes: Vec<u8>) -> (r: Result<String, String>)
    ensures
        match r {
            Ok(s) => valid_utf8(bytes@) && s@ == decode_utf8(bytes@),
            Err(m) => !valid_utf8(bytes@) && m@ == utf8_error_text(bytes@),
        },
{
    String::from_utf8(bytes).map_err(|e| e.to_string())
}

/// Calls `std::str::from_utf8`. Claimed: it accepts exactly the valid
/// UTF-8 byte sequences.
#[verifier::external_body]
fn str_from_utf8_accepts(bytes: &[u8]) -> (r: bool)
    ensures
        r == valid_utf8(bytes@),
{
    std::str::from_utf8(bytes).is_ok()
}

/// Calls `char::from_u32`. Claimed: it gives the character with codepoint
/// `cp` exactly when `cp` is a Unicode scalar value.
#[verifier::external_body]
fn char_from_u32(cp: u32) -> (r: Option<char>)
    ensures
        match r {
            Some(c) => is_scalar(cp) && c as u32 == cp,
            None => !is_scalar(cp),
        },
{
    char::from_u32(cp)
}

/// The UTF-8 bytes of `s`.
pub fn encode(s: &str) -> (r: Vec<u8>)
    ensures
        r@ == encode_utf8(s@),
{
    let b = s.as_bytes();
    let mut r: Vec<u8> = Vec::new();
    let mut i: usize = 0;
    while i < b.len()
        invariant
            i <= b@.len(),
            b@ == encode_utf8(s@),
            r@ == b@.take(i as int),
        decreases b.len() - i,
    {
        r.push(b[i]);
        i = i + 1;
        assert(r@ =~= b@.take(i as int));
    }
    assert(b@.take(b@.len() as int) =~= b@);
    r
}

/// The string the bytes encode in UTF-8, or an error naming where they stop
/// being UTF-8.
pub fn decode(bytes: Vec<u8>) -> (r: Result<String, NativeError>)
    ensures
        valid_utf8(bytes@) ==> (r matches Ok(s) && s@ == decode_utf8(bytes@)),
        !valid_utf8(bytes@) ==> (r matches Err(e) && e.kind@ == "utf8 error"@ && e.message@ == "utf8.decode: "@
            + utf8_error_text(bytes@)),
{
    match string_from_utf8(bytes) {
        Ok(s) => Ok(s),
        Err(m) => {
            let mut msg = chars_of("utf8.decode: ");
            push_str(&mut msg, m.as_str());
            Err(NativeError::new("utf8 error", string_of(&msg)))
        },
    }
}

/// Whether the bytes are UTF-8.
pub fn is_valid(bytes: &[u8]) -> (r: bool)
    ensures
        r == valid_utf8(bytes@),
{
    str_from_utf8_accepts(bytes)
}

/// The codepoint of each character.
pub open spec fn codepoints_of(s: Seq<char>) -> Seq<u32> {
    s.map_values(|c: char| c as u32)
}

/// The codepoints of the characters of `s`, in order.
pub fn codepoints(s: &str) -> (r: Vec<u32>)
    ensures
        r@ == codepoints_of(s@),
{
    let cs = chars_of(s);
    let mut r: Vec<u32> = Vec::new();
    let mut i: usize = 0;
    while i < cs.len()
        invariant
            i <= cs@.len(),
            cs@ == s@,
            r@ == codepoints_of(s@).take(i as int),
        decreases cs.len() - i,
    {
        r.push(cs[i] as u32);
        i = i + 1;
        assert(r@ =~= codepoints_of(s@).take(i as int));
    }
    assert(codepoints_of(s@).take(cs@.len() as int) =~= codepoints_of(s@));
    r
}

/// The position of the first value in `points` that is no Unicode scalar
/// value, or `points.len()`.
pub open spec fn first_non_scalar(points: Seq<u32>) -> int
    decreases points.len(),
{
    if points.len() == 0 {
        0
    } else if !is_scalar(points[0]) {
        0
    } else {
        1 + first_non_scalar(points.drop_first())
    }
}

/// The message for a codepoint that is no Unicode scalar value.
pub open spec fn scalar_message(fn_name: Seq<char>, cp: u32) -> Seq<char> {
    fn_name + ": "@ + decimal(cp as nat) + " is not a valid Unicode scalar value"@
}

proof fn lemma_first_non_scalar(points: Seq<u32>, k: int)
    requires
        0 <= k <= points.len(),
        forall|j: int| 0 <= j < k ==> is_scalar(#[trigger] points[j]),
        k < points.len() ==> !is_scalar(points[k]),
    ensures
        first_non_scalar(points) == k,
    decreases k,
{
    if k > 0 {
        assert(is_scalar(points[0]));
        assert forall|j: int| 0 <= j < k - 1 implies is_scalar(#[trigger] points.drop_first()[j]) by {
            assert(points.drop_first()[j] == points[j + 1]);
        }
        lemma_first_non_scalar(points.drop_first(), k - 1);
    }
}

/// The error for `cp`, which is no Unicode scalar value.
fn scalar_error(fn_name: &str, cp: u32) -> (e: NativeError)
    ensures
        e.kind@ == "utf8 error"@,
        e.message@ == scalar_message(fn_name@, cp),
{
    let mut msg = chars_of(fn_name);
    push_str(&mut msg, ": ");
    let d = decimal_chars(cp as usize);
    append_chars(&mut msg, &d);
    push_str(&mut msg, " is not a valid Unicode scalar value");
    NativeError::new("utf8 error", string_of(&msg))
}

/// The character with codepoint `cp` as a string, for `utf8.char`.
pub fn char_string(cp: u32) -> (r: Result<String, NativeError>)
    ensures
        is_scalar(cp) ==> (r matches Ok(s) && s@ == seq![cp as char]),
        !is_scalar(cp) ==> (r matches Err(e) && e.kind@ == "utf8 error"@ && e.message@ == scalar_message(
            "utf8.char"@,
            cp,
        )),
{
    match char_from_u32(cp) {
        Some(c) => {
            proof {
                vstd::utf8::char_u32_cast(c, cp);
            }
            Ok(string_of(&vec![c]))
        },
        None => Err(scalar_error("utf8.char", cp)),
    }
}

/// The string of the characters with codepoints `points`, or the error for
/// the first value that is no Unicode scalar value.
pub fn from_codepoints(points: &[u32]) -> (r: Result<String, NativeError>)
    ensures
        ({
            let k = first_non_scalar(points@);
            if k < points@.len() {
                r matches Err(e) && e.kind@ == "utf8 error"@ && e.message@ == scalar_message(
                    "utf8.from_codepoints"@,
                    points@[k],
                )
            } else {
                r matches Ok(s) && s@ == points@.map_values(|p: u32| p as char)
            }
        }),
{
    let mut out: Vec<char> = Vec::new();
    let mut i: usize = 0;
    while i < points.len()
        invariant
            i <= points@.len(),
            forall|j: int| 0 <= j < i ==> is_scalar(#[trigger] points@[j]),
            out@ == points@.take(i as int).map_values(|p: u32| p as char),
        decreases points.len() - i,
    {
        match char_from_u32(points[i]) {
            Some(c) => {
                proof {
                    vstd::utf8::char_u32_cast(c, points@[i as int]);
                }
                out.push(c);
            },
            None => {
                proof {
                    lemma_first_non_scalar(points@, i as int);
                }
                return Err(scalar_error("utf8.from_codepoints", points[i]));
            },
        }
        i = i + 1;
        assert(out@ =~= points@.take(i as int).map_values(|p: u32| p as char));
    }
    proof {
        lemma_first_non_scalar(points@, points@.len() as int);
        assert(points@.take(points@.len() as int) =~= points@);
    }
    Ok(string_of(&out))
}

/// Decoding the UTF-8 bytes of a string gives the string back: the bytes
/// are valid UTF-8 and decode to its characters.
pub proof fn law_decode_encode(s: Seq<char>)
    ensures
        valid_utf8(encode_utf8(s)),
        decode_utf8(encode_utf8(s)) == s,
{
    encode_utf8_valid_utf8(s);
    encode_utf8_decode_utf8(s);
}

/// Building a string from the codepoints of a string gives it back: every
/// codepoint is a Unicode scalar value and maps back to its character.
pub proof fn law_codepoints_roundtrip(s: Seq<char>)
    ensures
        first_non_scalar(codepoints_of(s)) == s.len(),
        codepoints_of(s).map_values(|p: u32| p as char) == s,
{
    let pts = codepoints_of(s);
    assert forall|j: int| 0 <= j < pts.len() implies is_scalar(#[trigger] pts[j]) by {
        vstd::utf8::char_is_scalar(s[j]);
    }
    lemma_first_non_scalar(pts, pts.len() as int);
    let back = pts.map_values(|p: u32| p as char);
    assert forall|j: int| 0 <= j < s.len() implies #[trigger] back[j] == s[j] by {
        vstd::utf8::char_u32_cast(s[j], pts[j]);
    }
    assert(back =~= s);
}

} // verus!
