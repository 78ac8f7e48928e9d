//! The handoff of a chosen entry to the decryption program, and the reading
//! of what that program printed.
use vstd::prelude::*;
use vstd::utf8::{valid_utf8, decode_utf8};
use crate::format::{has_marker, ends_with_marker};
use crate::text::{chars_of, string_of};

verus! {

/// The name under which the decryption program knows the entry `p`: the
/// entry without its marker extension.
pub open spec fn secret_name(p: Seq<char>) -> Seq<char> {
    if has_marker(p) {
        p.subrange(0, p.len() - 4)
    } else {
        p
    }
}

/// The entry `path` without its marker extension.
pub fn strip_marker(path: &str) -> (r: String)
    ensures
        r@ == secret_name(path@),
{
    let v = chars_of(path);
    let n = v.len();
    if ends_with_marker(&v, 0, n) {
        assert(v@.subrange(0, n as int) == v@);
        string_of(&v, 0, n - 4)
    } else {
        assert(v@.subrange(0, n as int) == v@);
        string_of(&v, 0, n)
    }
}

/// Why the output of the decryption program holds no secret.
#[derive(PartialEq, Eq, Structural, Debug, Clone, Copy)]
pub enum RetrievalError {
    /// The program printed nothing.
    EmptyOutput,
    /// What it printed is not UTF-8.
    NotUtf8,
}

/// Relies on `String::from_utf8`: it succeeds exactly on valid UTF-8, and
/// the string then holds the characters that the bytes encode.
#[verifier::external_body]
fn utf8_string(bytes: Vec<u8>) -> (r: Option<String>)
    ensures
        r is Some <==> valid_utf8(bytes@),
        r matches Some(s) ==> s@ == decode_utf8(bytes@),
{
    String::from_utf8(bytes).ok()
}

/// `n` is the position of the first line feed of `s`.
pub open spec fn is_first_newline(s: Seq<char>, n: int) -> bool {
    &&& 0 <= n < s.len()
    &&& s[n] == '\n'
    &&& forall|k: int| 0 <= k < n ==> s[k] != '\n'
}

/// Where the first line of `s` ends: at its first line feed, or at its end.
pub open spec fn line_end(s: Seq<char>) -> int {
    if exists|n: int| is_first_newline(s, n) {
        choose|n: int| is_first_newline(s, n)
    } else {
        s.len() as int
    }
}

/// The first line of `s`: what precedes the first line feed, without a
/// carriage return just before it.
pub open spec fn first_line(s: Seq<char>) -> Seq<char> {
    let e = line_end(s);
    if e < s.len() && e > 0 && s[e - 1] == '\r' {
        s.subrange(0, e - 1)
    } else {
        s.subrange(0, e)
    }
}

/// The secret in the output of the decryption program: its first line.
/// Further lines hold other fields of the entry and are dropped.
pub fn secret_from_output(output: Vec<u8>) -> (r: Result<String, RetrievalError>)
    ensures
        output@.len() == 0 ==> r == Err::<String, RetrievalError>(RetrievalError::EmptyOutput),
        output@.len() > 0 && !valid_utf8(output@) ==> r == Err::<String, RetrievalError>(RetrievalError::NotUtf8),
        output@.len() > 0 && valid_utf8(output@) ==> (r matches Ok(s) && s@ == first_line(decode_utf8(output@))),
{
    if output.len() == 0 {
        return Err(RetrievalError::EmptyOutput);
    }
    let text = match utf8_string(output) {
        Some(t) => t,
        None => {
            return Err(RetrievalError::NotUtf8);
        },
    };
    let v = chars_of(text.as_str());
    let mut i: usize = 0;
    while i < v.len() && v[i] != '\n'
        invariant
            i <= v.len(),
            forall|k: int| 0 <= k < i ==> v@[k] != '\n',
        decreases v.len() - i,
    {
        i = i + 1;
    }
    proof {
        if i < v.len() {
            assert(is_first_newline(v@, i as int));
            let n = choose|n: int| is_first_newline(v@, n);
            assert(n == i);
        } else {
            assert(!exists|n: int| is_first_newline(v@, n));
        }
    }
    if i < v.len() && i > 0 && v[i - 1] == '\r' {
        Ok(string_of(&v, 0, i - 1))
    } else {
        Ok(string_of(&v, 0, i))
    }
}

} // verus!
