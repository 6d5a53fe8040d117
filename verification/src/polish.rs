//! What the bundler strips from a module it copies: doc comments, and
//! items marked as tests.
use vstd::prelude::*;

verus! {

/// An attribute as the bundler reads it: its path, where that is a single
/// identifier, and its arguments as text.
pub struct Attr {
    pub ident: Option<String>,
    pub tokens: String,
}

/// The path of `a` is the single identifier `name`.
pub open spec fn attr_is(a: Attr, name: Seq<char>) -> bool {
    a.ident matches Some(p) && p@ == name
}

/// `a` marks a test: `#[test]`, or `#[cfg(test)]`.
pub open spec fn test_attr(a: Attr) -> bool {
    attr_is(a, "test"@) || (attr_is(a, "cfg"@) && a.tokens@ == "(test)"@)
}

/// Whether the path of `a` is the single identifier `name`.
fn attr_named(a: &Attr, name: &str) -> (r: bool)
    ensures
        r == attr_is(*a, name@),
{
    match &a.ident {
        Some(p) => *p == String::from_str(name),
        None => false,
    }
}

/// Whether `a` is a doc comment: a `doc` attribute.
pub fn is_doc(a: &Attr) -> (r: bool)
    ensures
        r == attr_is(*a, "doc"@),
{
    attr_named(a, "doc")
}

/// Whether `a` marks a test.
pub fn is_test_attr(a: &Attr) -> (r: bool)
    ensures
        r == test_attr(*a),
{
    attr_named(a, "test") || (attr_named(a, "cfg") && a.tokens == String::from_str("(test)"))
}

/// Whether some attribute of `attrs` marks a test.
pub fn has_test(attrs: &Vec<Attr>) -> (r: bool)
    ensures
        r == exists|i: int| 0 <= i < attrs@.len() && test_attr(#[trigger] attrs@[i]),
{
    let mut i: usize = 0;
    while i < attrs.len()
        invariant
            i <= attrs@.len(),
            forall|j: int| 0 <= j < i ==> !test_attr(#[trigger] attrs@[j]),
        decreases attrs@.len() - i,
    {
        if is_test_attr(&attrs[i]) {
            return true;
        }
        i += 1;
    }
    false
}

} // verus!
