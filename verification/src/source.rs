//! Reading a source file: its top-level items, parsed with `syn`, and the
//! paths into the library that its imports name.
use vstd::prelude::*;

use crate::bundle::{extract_uses, lib_uses, ImportTree};

verus! {

#[verifier::external_type_specification]
#[verifier::external_body]
pub struct ExSynError(syn::Error);

#[verifier::external_type_specification]
#[verifier::external_body]
pub struct ExSynUseTree(syn::UseTree);

/// A top-level item of a source file: an import, with whether its path
/// starts with `::`, or anything else.
pub enum Item {
    Use(bool, ImportTree),
    Other,
}

/// Why a source file could not be read as Rust.
pub struct ParseError {
    pub error: syn::Error,
}

/// The top-level items of the source text `src`, as `syn::parse_file`
/// reads them; `None` where it does not parse.
pub uninterp spec fn parsed_items(src: Seq<char>) -> Option<Seq<Item>>;

/// The imports among `items`, in order.
pub open spec fn uses_of(items: Seq<Item>) -> Seq<(bool, ImportTree)>
    decreases items.len(),
{
    if items.len() == 0 {
        Seq::empty()
    } else {
        let head = match items[0] {
            Item::Use(b, t) => seq![(b, t)],
            Item::Other => Seq::empty(),
        };
        head + uses_of(items.drop_first())
    }
}

/// The library's form of a `syn::UseTree`: its variants one for one, each
/// identifier by its text. A part of `parse_items`, which states the whole
/// result.
#[verifier::external_body]
fn use_tree_of(t: &syn::UseTree) -> ImportTree {
    match t {
        syn::UseTree::Path(p) => ImportTree::Path(p.ident.to_string(), Box::new(use_tree_of(&p.tree))),
        syn::UseTree::Name(n) => ImportTree::Name(n.ident.to_string()),
        syn::UseTree::Rename(r) => ImportTree::Rename(r.ident.to_string()),
        syn::UseTree::Glob(_) => ImportTree::Glob,
        syn::UseTree::Group(g) => ImportTree::Group(g.items.iter().map(use_tree_of).collect()),
    }
}

/// `syn::parse_file` on `src`, its items turned into the library's form.
/// What it returns is named, not stated: `parsed_items(src@)`, an error
/// exactly where that is `None`.
#[verifier::external_body]
fn parse_items(src: &str) -> (r: Result<Vec<Item>, syn::Error>)
    ensures
        r is Err <==> parsed_items(src@) is None,
        r matches Ok(v) ==> parsed_items(src@) == Some(v@),
{
    syn::parse_file(src).map(|f| f.items.iter().map(|i| match i {
        syn::Item::Use(u) => Item::Use(u.leading_colon.is_some(), use_tree_of(&u.tree)),
        _ => Item::Other,
    }).collect())
}

/// The imports of `items`, in order.
pub fn uses_in(items: Vec<Item>) -> (r: Vec<(bool, ImportTree)>)
    ensures
        r@ == uses_of(items@),
{
    let ghost all = items@;
    let mut items = items;
    let mut uses: Vec<(bool, ImportTree)> = Vec::new();
    proof {
        assert(uses@ + uses_of(items@) =~= uses_of(all));
    }
    while items.len() > 0
        invariant
            uses@ + uses_of(items@) == uses_of(all),
        decreases items@.len(),
    {
        let ghost before = items@;
        let it = items.remove(0);
        proof {
            assert(items@ =~= before.drop_first());
        }
        match it {
            Item::Use(b, t) => {
                uses.push((b, t));
                proof {
                    assert(uses@ + uses_of(items@) =~= uses_of(all));
                }
            },
            Item::Other => {
                proof {
                    assert(uses@ + uses_of(items@) =~= uses_of(all));
                }
            },
        }
    }
    proof {
        assert(uses@ =~= uses@ + uses_of(items@));
    }
    uses
}

/// The paths into the library that the top-level imports of the source
/// text `src` name, in order, each once; an error where `src` does not
/// parse.
pub fn extract_uses_file(src: &str) -> (r: Result<Vec<Vec<String>>, ParseError>)
    ensures
        r is Err <==> parsed_items(src@) is None,
        r matches Ok(v) ==> lib_uses(v@, uses_of(parsed_items(src@)->Some_0)),
{
    match parse_items(src) {
        Ok(items) => {
            let ghost iv = items@;
            let uses = uses_in(items);
            let v = extract_uses(&uses);
            proof {
                assert(parsed_items(src@)->Some_0 == iv);
                assert(uses@ == uses_of(iv));
            }
            Ok(v)
        },
        Err(e) => Err(ParseError { error: e }),
    }
}

} // verus!
