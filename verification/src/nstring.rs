//! The string functions of Nscript.
use vstd::prelude::*;
use vstd::string::StringSliceAdditionalSpecFns;
use vstd::utf8::{encode_utf8, is_char_boundary};

use crate::arrays::{array_string, array_text};
use crate::text::{
    chars_of, contains_text, first_match, find_from, join_chars, join_text, lemma_match_from,
    occurs_at, slice_chars, split_chars, split_text, string_of,
};

verus! {

broadcast use vstd::utf8::encode_utf8_valid_utf8;

/// The string functions of Nscript.
pub struct Nstring {}

/// The characters that `Nstring::stringtoeval` turns into an underscore.
pub open spec fn is_eval_unsafe(c: char) -> bool {
    c == '-' || c == '~' || c == '!' || c == '#' || c == '%' || c == '^' || c == '&' || c == '*'
        || c == '(' || c == ')' || c == '\\' || c == '{' || c == '}' || c == '[' || c == ']'
        || c == '.' || c == ',' || c == '?' || c == '\'' || c == '$' || c == '/'
}

/// A character as `Nstring::stringtoeval` leaves it.
pub open spec fn eval_safe_char(c: char) -> char {
    if is_eval_unsafe(c) {
        '_'
    } else {
        c
    }
}

/// What `Nstring::stringbetween` extracts: the text between the first
/// occurrence of `a` and the first occurrence of `b` after it.
pub open spec fn text_between(s: Seq<char>, a: Seq<char>, b: Seq<char>) -> Seq<char> {
    match first_match(s, a) {
        Some(i) => {
            let rest = s.skip(i + a.len());
            match first_match(rest, b) {
                Some(j) => rest.take(j),
                None => Seq::empty(),
            }
        },
        None => Seq::empty(),
    }
}

fn is_eval_unsafe_exec(c: char) -> (r: bool)
    ensures
        r == is_eval_unsafe(c),
{
    c == '-' || c == '~' || c == '!' || c == '#' || c == '%' || c == '^' || c == '&' || c == '*'
        || c == '(' || c == ')' || c == '\\' || c == '{' || c == '}' || c == '[' || c == ']'
        || c == '.' || c == ',' || c == '?' || c == '\'' || c == '$' || c == '/'
}

impl Nstring {
    /// Replaces every occurrence of `f` in `s` by `r`; an empty `s` or `f`
    /// leaves `s` as it is.
    pub fn replace(s: &str, f: &str, r: &str) -> (res: String)
        ensures
            res@ == if f@.len() == 0 || s@.len() == 0 {
                s@
            } else {
                join_text(split_text(s@, f@), r@)
            },
    {
        if f.is_empty() || s.is_empty() {
            return s.to_owned();
        }
        let sv = chars_of(s);
        let fv = chars_of(f);
        let rv = chars_of(r);
        let pieces = split_chars(&sv, &fv);
        let joined = join_chars(&pieces, &rv);
        string_of(&joined)
    }

    /// Splits `s` at the occurrences of `p` and writes the pieces as an
    /// Nscript array.
    pub fn split(s: &str, p: &str) -> (res: String)
        ensures
            res@ == array_text(split_text(s@, p@)),
    {
        let sv = chars_of(s);
        let pv = chars_of(p);
        let pieces = split_chars(&sv, &pv);
        array_string(&pieces)
    }

    /// Whether `f` occurs in `s`.
    pub fn instring(s: &str, f: &str) -> (res: bool)
        ensures
            res == contains_text(s@, f@),
    {
        let sv = chars_of(s);
        let fv = chars_of(f);
        proof {
            lemma_match_from(sv@, fv@, 0);
        }
        match find_from(&sv, &fv, 0) {
            Some(_) => true,
            None => {
                assert forall|i: int| !occurs_at(s@, f@, i) by {
                    if i >= 0 {
                    }
                }
                false
            },
        }
    }

    /// The string without its first `f` bytes; the whole string when it is
    /// shorter than `f` bytes.
    pub fn trimleft(s: &str, f: usize) -> (res: String)
        requires
            f > s.spec_bytes().len() || is_char_boundary(s.spec_bytes(), f as int),
        ensures
            f <= s.spec_bytes().len() ==> encode_utf8(res@) == s.spec_bytes().subrange(
                f as int,
                s.spec_bytes().len() as int,
            ),
            f > s.spec_bytes().len() ==> res@ == s@,
    {
        let len = s.as_bytes().len();
        if f <= len {
            let (_, rest) = s.split_at(f);
            rest.to_owned()
        } else {
            s.to_owned()
        }
    }

    /// The string without its last `f` bytes; the whole string unless it is
    /// longer than `f` bytes.
    pub fn trimright(s: &str, f: usize) -> (res: String)
        requires
            f >= s.spec_bytes().len() || is_char_boundary(
                s.spec_bytes(),
                s.spec_bytes().len() - f,
            ),
        ensures
            f < s.spec_bytes().len() ==> encode_utf8(res@) == s.spec_bytes().subrange(
                0,
                s.spec_bytes().len() - f,
            ),
            f >= s.spec_bytes().len() ==> res@ == s@,
    {
        let len = s.as_bytes().len();
        if len > f {
            let (head, _) = s.split_at(len - f);
            head.to_owned()
        } else {
            s.to_owned()
        }
    }

    /// The first `f` bytes of the string; empty unless the string is longer
    /// than `f` bytes.
    pub fn fromleft(s: &str, f: usize) -> (res: String)
        requires
            f >= s.spec_bytes().len() || is_char_boundary(s.spec_bytes(), f as int),
        ensures
            f < s.spec_bytes().len() ==> encode_utf8(res@) == s.spec_bytes().subrange(0, f as int),
            f >= s.spec_bytes().len() ==> res@.len() == 0,
    {
        let len = s.as_bytes().len();
        if f < len {
            let (head, _) = s.split_at(f);
            head.to_owned()
        } else {
            String::new()
        }
    }

    /// The last `f` bytes of the string; empty unless the string is longer
    /// than `f` bytes.
    pub fn fromright(s: &str, f: usize) -> (res: String)
        requires
            f >= s.spec_bytes().len() || is_char_boundary(
                s.spec_bytes(),
                s.spec_bytes().len() - f,
            ),
        ensures
            f < s.spec_bytes().len() ==> encode_utf8(res@) == s.spec_bytes().subrange(
                s.spec_bytes().len() - f,
                s.spec_bytes().len() as int,
            ),
            f >= s.spec_bytes().len() ==> res@.len() == 0,
    {
        let len = s.as_bytes().len();
        if f < len {
            let (_, tail) = s.split_at(len - f);
            tail.to_owned()
        } else {
            String::new()
        }
    }

    /// The string with each of `- ~ ! # % ^ & * ( ) \ { } [ ] . , ? ' $ /`
    /// turned into `_`, so that it can serve as a key.
    pub fn stringtoeval(s: &str) -> (res: String)
        ensures
            res@ == s@.map_values(|c: char| eval_safe_char(c)),
    {
        let sv = chars_of(s);
        let mut out: Vec<char> = Vec::new();
        let mut i: usize = 0;
        while i < sv.len()
            invariant
                i <= sv.len(),
                sv@ == s@,
                out@ == s@.take(i as int).map_values(|c: char| eval_safe_char(c)),
            decreases sv.len() - i,
        {
            let c = sv[i];
            if is_eval_unsafe_exec(c) {
                out.push('_');
            } else {
                out.push(c);
            }
            assert(out@ =~= s@.take(i + 1).map_values(|c: char| eval_safe_char(c)));
            i = i + 1;
        }
        assert(s@.take(sv.len() as int) =~= s@);
        string_of(&out)
    }

    /// The text between the first occurrence of `a` and the first
    /// occurrence of `b` after it; empty when either is missing.
    pub fn stringbetween(s: &str, a: &str, b: &str) -> (res: String)
        ensures
            res@ == text_between(s@, a@, b@),
    {
        let sv = chars_of(s);
        let av = chars_of(a);
        let bv = chars_of(b);
        proof {
            lemma_match_from(sv@, av@, 0);
        }
        if let Some(start_pos) = find_from(&sv, &av, 0) {
            assert(occurs_at(sv@, av@, start_pos as int));
            let n = sv.len();
            let from = start_pos + av.len();
            let rest = slice_chars(&sv, from, n);
            assert(rest@ =~= s@.skip(start_pos + a@.len()));
            proof {
                lemma_match_from(rest@, bv@, 0);
            }
            if let Some(end_pos) = find_from(&rest, &bv, 0) {
                let extracted = slice_chars(&rest, 0, end_pos);
                assert(extracted@ =~= rest@.take(end_pos as int));
                return string_of(&extracted);
            }
        }
        String::new()
    }
}

} // verus!
