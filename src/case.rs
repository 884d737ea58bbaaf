//! The case conversions that derive JSON names, map entry names and group
//! field names.
use vstd::prelude::*;

use crate::text::{chars_of, string_from_chars};

verus! {

pub open spec fn upper(c: char) -> char {
    if 'a' <= c && c <= 'z' {
        ((c as u32) - 32) as char
    } else {
        c
    }
}

pub open spec fn lower(c: char) -> char {
    if 'A' <= c && c <= 'Z' {
        ((c as u32) + 32) as char
    } else {
        c
    }
}

/// Drops each `_` and upper-cases the letter after it; `cap` says whether the
/// first letter is upper-cased too.
pub open spec fn camel(s: Seq<char>, cap: bool) -> Seq<char>
    decreases s.len(),
{
    if s.len() == 0 {
        s
    } else if s[0] == '_' {
        camel(s.subrange(1, s.len() as int), true)
    } else if cap {
        seq![upper(s[0])] + camel(s.subrange(1, s.len() as int), false)
    } else {
        seq![s[0]] + camel(s.subrange(1, s.len() as int), false)
    }
}

fn upper_char(c: char) -> (r: char)
    ensures
        r == upper(c),
{
    if 'a' <= c && c <= 'z' {
        ((c as u8) - 32) as char
    } else {
        c
    }
}

fn camel_chars(s: &str, cap: bool) -> (r: Vec<char>)
    ensures
        r@ == camel(s@, cap),
{
    let cs = chars_of(s);
    let mut out: Vec<char> = Vec::new();
    let mut next_cap = cap;
    let mut i: usize = 0;
    assert(cs@.subrange(0, cs@.len() as int) =~= cs@);
    while i < cs.len()
        invariant
            i <= cs@.len(),
            cs@ == s@,
            camel(s@, cap) == out@ + camel(cs@.subrange(i as int, cs@.len() as int), next_cap),
        decreases cs@.len() - i,
    {
        let ghost rest = cs@.subrange(i as int, cs@.len() as int);
        assert(rest.subrange(1, rest.len() as int) =~= cs@.subrange(i + 1, cs@.len() as int));
        let c = cs[i];
        if c == '_' {
            next_cap = true;
        } else if next_cap {
            out.push(upper_char(c));
            next_cap = false;
        } else {
            out.push(c);
        }
        proof {
            assert(out@ + camel(cs@.subrange(i + 1, cs@.len() as int), next_cap) =~= camel(s@, cap));
        }
        i = i + 1;
    }
    assert(camel(cs@.subrange(i as int, cs@.len() as int), next_cap) =~= Seq::<char>::empty());
    assert(out@ + Seq::<char>::empty() =~= out@);
    out
}

/// The JSON name of a field: underscores dropped, each letter after one
/// upper-cased.
pub fn to_camel_case(s: &str) -> (r: String)
    ensures
        r@ == camel(s@, false),
{
    let v = camel_chars(s, false);
    string_from_chars(v.as_slice())
}

/// The name of a map field's entry message stem: as `to_camel_case`, with
/// the first letter upper-cased as well.
pub fn to_pascal_case(s: &str) -> (r: String)
    ensures
        r@ == camel(s@, true),
{
    let v = camel_chars(s, true);
    string_from_chars(v.as_slice())
}

/// Every ASCII upper-case letter of `s` turned lower-case.
pub fn to_ascii_lowercase(s: &str) -> (r: String)
    ensures
        r@ == s@.map_values(|c: char| lower(c)),
{
    let cs = chars_of(s);
    let mut out: Vec<char> = Vec::new();
    let mut i: usize = 0;
    while i < cs.len()
        invariant
            i <= cs@.len(),
            cs@ == s@,
            out@ =~= cs@.subrange(0, i as int).map_values(|c: char| lower(c)),
        decreases cs@.len() - i,
    {
        let c = cs[i];
        if 'A' <= c && c <= 'Z' {
            out.push(((c as u8) + 32) as char);
        } else {
            out.push(c);
        }
        i = i + 1;
    }
    assert(cs@.subrange(0, i as int) =~= cs@);
    string_from_chars(out.as_slice())
}

} // verus!
