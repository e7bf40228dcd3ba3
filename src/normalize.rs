//! Stripping of one leading and one trailing punctuation character from a
//! token.
use vstd::prelude::*;
use crate::text::{chars_of, string_of};

verus! {

/// Characters stripped from the start of a token: a quote or an opening
/// bracket.
pub open spec fn opens(c: char) -> bool {
    c == '"' || c == '\'' || c == '(' || c == '[' || c == '{'
}

/// Characters stripped from the end of a token.
pub open spec fn closes(c: char) -> bool {
    c == ';' || c == '.' || c == ',' || c == '"' || c == '\'' || c == '?' || c == '!' || c == ')'
        || c == ']' || c == '}'
}

/// The token `t` without one leading opener and one trailing closer; empty
/// when nothing is left between them.
pub open spec fn normalized(t: Seq<char>) -> Seq<char> {
    let start: int = if t.len() > 0 && opens(t[0]) {
        1
    } else {
        0
    };
    let end: int = if t.len() > 0 && closes(t.last()) {
        t.len() - 1
    } else {
        t.len() as int
    };
    if start < end {
        t.subrange(start, end)
    } else {
        seq![]
    }
}

fn is_opener(c: char) -> (r: bool)
    ensures
        r == opens(c),
{
    c == '"' || c == '\'' || c == '(' || c == '[' || c == '{'
}

fn is_closer(c: char) -> (r: bool)
    ensures
        r == closes(c),
{
    c == ';' || c == '.' || c == ',' || c == '"' || c == '\'' || c == '?' || c == '!' || c == ')'
        || c == ']' || c == '}'
}

/// `t` with its punctuation stripped, as characters.
pub fn normalize_chars(t: &Vec<char>) -> (r: Vec<char>)
    ensures
        r@ == normalized(t@),
{
    let n = t.len();
    if n == 0 {
        return Vec::new();
    }
    let start: usize = if is_opener(t[0]) {
        1
    } else {
        0
    };
    let end: usize = if is_closer(t[n - 1]) {
        n - 1
    } else {
        n
    };
    let mut r: Vec<char> = Vec::new();
    if start < end {
        let mut i = start;
        while i < end
            invariant
                start <= i <= end <= n == t.len(),
                r@ == t@.subrange(start as int, i as int),
            decreases end - i,
        {
            r.push(t[i]);
            assert(t@.subrange(start as int, i + 1) =~= t@.subrange(start as int, i as int).push(
                t@[i as int],
            ));
            i = i + 1;
        }
    }
    r
}

/// The token `s` without one leading quote or opening bracket and one
/// trailing punctuation character.
pub fn remove_interpunction(s: &str) -> (r: String)
    ensures
        r@ == normalized(s@),
{
    let chs = chars_of(s);
    let stripped = normalize_chars(&chs);
    string_of(&stripped)
}

} // verus!
