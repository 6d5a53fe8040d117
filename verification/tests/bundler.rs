use nekolib::bundle::{declared_in, dfs_use_tree, extract_uses, resolve_includes, ImportTree};
use nekolib::polish::{has_test, is_doc, is_test_attr, Attr};

fn s(x: &str) -> String {
    x.to_string()
}

fn path(xs: &[&str]) -> Vec<String> {
    xs.iter().map(|x| x.to_string()).collect()
}

#[test]
fn use_tree_flattening() {
    // use a::{b, c::*, d as e};
    let t = ImportTree::Path(
        s("a"),
        Box::new(ImportTree::Group(vec![
            ImportTree::Name(s("b")),
            ImportTree::Path(s("c"), Box::new(ImportTree::Glob)),
            ImportTree::Rename(s("d")),
        ])),
    );
    let mut cur = vec![];
    let mut res = vec![];
    dfs_use_tree(&t, &mut cur, &mut res);
    assert!(cur.is_empty());
    assert_eq!(res, vec![path(&["a", "b"]), path(&["a", "c", "*"]), path(&["a", "d"])]);
}

#[test]
fn extract_uses_keeps_library_paths() {
    // use nekolib::ds::{VecSegtree, RsDict}; use std::io; use ::nekolib::x;
    // use nekolib::ds::RsDict;
    let uses = vec![
        (
            false,
            ImportTree::Path(
                s("nekolib"),
                Box::new(ImportTree::Path(
                    s("ds"),
                    Box::new(ImportTree::Group(vec![ImportTree::Name(s("VecSegtree")), ImportTree::Name(s("RsDict"))])),
                )),
            ),
        ),
        (false, ImportTree::Path(s("std"), Box::new(ImportTree::Name(s("io"))))),
        (true, ImportTree::Path(s("nekolib"), Box::new(ImportTree::Name(s("x"))))),
        (
            false,
            ImportTree::Path(s("nekolib"), Box::new(ImportTree::Path(s("ds"), Box::new(ImportTree::Name(s("RsDict")))))),
        ),
    ];
    let got = extract_uses(&uses);
    // sorted, without repeats, only paths starting with `nekolib`
    assert_eq!(got, vec![path(&["nekolib", "ds", "RsDict"]), path(&["nekolib", "ds", "VecSegtree"])]);
}

#[test]
fn resolve_includes_groups_modules() {
    let uses = vec![
        path(&["nekolib", "ds", "VecSegtree"]),
        path(&["nekolib", "ds", "RsDict"]),
        path(&["nekolib", "utils", "buf_range"]),
        path(&["nekolib", "macros", "qux"]),
    ];
    let declared = vec![
        (s("VecSegtree"), (s("ds"), s("vec-segtree"))),
        (s("RsDict"), (s("ds"), s("rs-dict"))),
        (s("buf_range"), (s("utils"), s("buf-range"))),
    ];
    let depends = vec![
        ((s("ds"), s("vec-segtree")), vec![(s("traits"), s("binop")), (s("utils"), s("buf-range"))]),
        ((s("ds"), s("rs-dict")), vec![(s("traits"), s("count"))]),
        // a later entry for the same module wins
        ((s("ds"), s("rs-dict")), vec![(s("traits"), s("count")), (s("traits"), s("find-nth"))]),
    ];
    let got = resolve_includes(&uses, &declared, &depends);
    assert_eq!(
        got,
        vec![
            (s("ds"), vec![s("rs_dict"), s("vec_segtree")]),
            (s("traits"), vec![s("binop"), s("count"), s("find_nth")]),
            (s("utils"), vec![s("buf_range"), s("qux_macro")]),
        ]
    );
}

#[test]
fn resolve_includes_nothing() {
    let got = resolve_includes(&vec![], &vec![], &vec![]);
    assert!(got.is_empty());
}

#[test]
fn extract_uses_file_reads_source() {
    let src = "use nekolib::ds::{RsDict, WaveletMatrix};\nuse std::io::Read;\nfn main() {}\nuse nekolib::algo::bisect;\n";
    let got = nekolib::source::extract_uses_file(src).ok().unwrap();
    assert_eq!(
        got,
        vec![path(&["nekolib", "algo", "bisect"]), path(&["nekolib", "ds", "RsDict"]), path(&["nekolib", "ds", "WaveletMatrix"])]
    );
    assert!(nekolib::source::extract_uses_file("fn main( {").is_err());
}

#[test]
fn polish_attribute_decisions() {
    let a = |i: Option<&str>, t: &str| Attr { ident: i.map(|x| x.to_string()), tokens: t.to_string() };
    assert!(is_doc(&a(Some("doc"), "= \" x\"")));
    assert!(!is_doc(&a(Some("derive"), "(Debug)")));
    assert!(is_test_attr(&a(Some("test"), "")));
    assert!(is_test_attr(&a(Some("cfg"), "(test)")));
    assert!(!is_test_attr(&a(Some("cfg"), "(feature = \"x\")")));
    assert!(!is_test_attr(&a(None, "(test)")));
    assert!(has_test(&vec![a(Some("inline"), ""), a(Some("cfg"), "(test)")]));
    assert!(!has_test(&vec![a(Some("inline"), "")]));
}

#[test]
fn declared_in_lists_a_module_names_in_order() {
    let s = |x: &str| x.to_string();
    let declared = vec![
        (s("BTreeMultiset"), (s("ds"), s("btree_multiset"))),
        (s("RsDict"), (s("ds"), s("rs_dict"))),
        (s("WaveletMatrix"), (s("ds"), s("wavelet_matrix"))),
        (s("bisect"), (s("algo"), s("bisect"))),
        (s("bisect_slice"), (s("algo"), s("bisect"))),
    ];
    assert_eq!(declared_in(&declared, &(s("algo"), s("bisect"))), vec![s("bisect"), s("bisect_slice")]);
    assert_eq!(declared_in(&declared, &(s("ds"), s("rs_dict"))), vec![s("RsDict")]);
    assert!(declared_in(&declared, &(s("ds"), s("bit_set"))).is_empty());
}
