//! Dotted names and the character-level helpers the rest of the crate uses.
use vstd::prelude::*;

verus! {

/// `name` under `scope`: `scope.name`, or `name` alone at the root.
pub open spec fn join(scope: Seq<char>, name: Seq<char>) -> Seq<char> {
    if scope.len() == 0 {
        name
    } else {
        scope + seq!['.'] + name
    }
}

/// The scope that encloses `scope`: everything before its last `.`, or the
/// root when it has none.
pub open spec fn parent_scope(scope: Seq<char>) -> Seq<char>
    decreases scope.len(),
{
    if scope.len() == 0 {
        scope
    } else if scope.last() == '.' {
        scope.drop_last()
    } else {
        parent_scope(scope.drop_last())
    }
}

pub proof fn lemma_parent_scope_shorter(scope: Seq<char>)
    requires
        scope.len() > 0,
    ensures
        parent_scope(scope).len() < scope.len(),
    decreases scope.len(),
{
    if scope.last() != '.' {
        if scope.drop_last().len() > 0 {
            lemma_parent_scope_shorter(scope.drop_last());
        } else {
            assert(parent_scope(scope.drop_last()).len() == 0);
        }
    }
}

/// The characters of `s`, in order.
pub fn chars_of(s: &str) -> (r: Vec<char>)
    ensures
        r@ == s@,
{
    let mut out: Vec<char> = Vec::new();
    for c in iter: s.chars()
        invariant
            out@ == iter.seq().take(iter.index() as int),
            iter.seq() == s@,
    {
        out.push(c);
    }
    out
}

/// Relies on `String::from_iter`: the string of exactly these characters,
/// in order.
#[verifier::external_body]
pub(crate) fn string_from_chars(v: &[char]) -> (r: String)
    ensures
        r@ == v@,
{
    String::from_iter(v)
}

/// Builds `scope.name`, or `name` alone when `scope` is empty.
pub fn join_name(scope: &str, name: &str) -> (r: String)
    ensures
        r@ == join(scope@, name@),
{
    let mut r = String::from_str(scope);
    if !scope.is_empty() {
        r.append(".");
        proof {
            reveal_strlit(".");
        }
    }
    r.append(name);
    r
}

/// Builds the absolute form `.name`.
pub fn absolute_name(name: &str) -> (r: String)
    ensures
        r@ == seq!['.'] + name@,
{
    let mut r = String::from_str(".");
    proof {
        reveal_strlit(".");
    }
    r.append(name);
    r
}

/// The enclosing scope of `scope`, found by its last `.`.
pub fn parent_scope_of(scope: &str) -> (r: String)
    ensures
        r@ == parent_scope(scope@),
{
    let cs = chars_of(scope);
    let mut n: usize = cs.len();
    assert(cs@.subrange(0, n as int) =~= scope@);
    while n > 0 && cs[n - 1] != '.'
        invariant
            n <= cs.len(),
            cs@ == scope@,
            parent_scope(scope@) == parent_scope(cs@.subrange(0, n as int)),
        decreases n,
    {
        assert(cs@.subrange(0, n as int).drop_last() =~= cs@.subrange(0, n - 1));
        n = n - 1;
    }
    if n == 0 {
        assert(cs@.subrange(0, 0) =~= Seq::<char>::empty());
        String::new()
    } else {
        assert(cs@.subrange(0, n as int).drop_last() =~= cs@.subrange(0, n - 1));
        String::from_str(scope.substring_char(0, n - 1))
    }
}

} // verus!
