//! The bundler's logic: the paths that a source file imports, and the
//! modules of the library that those imports need.
use vstd::prelude::*;
use vstd::string::*;

verus! {

/// A `use` tree: `a::b`, `a`, `a as b` (by its original name), `*`, or
/// `{..}`.
pub enum ImportTree {
    Path(String, Box<ImportTree>),
    Name(String),
    Rename(String),
    Glob,
    Group(Vec<ImportTree>),
}

/// The text of each segment of a path.
pub open spec fn seg_views(v: Seq<String>) -> Seq<Seq<char>> {
    v.map_values(|s: String| s@)
}

/// The text of each path.
pub open spec fn path_views(v: Seq<Vec<String>>) -> Seq<Seq<Seq<char>>> {
    v.map_values(|p: Vec<String>| seg_views(p@))
}

/// The paths that a tree imports, each after the segments `cur`, in the
/// order they are written.
pub open spec fn tree_paths(t: ImportTree, cur: Seq<Seq<char>>) -> Seq<Seq<Seq<char>>>
    decreases t,
{
    match t {
        ImportTree::Path(id, sub) => tree_paths(*sub, cur.push(id@)),
        ImportTree::Name(id) => seq![cur.push(id@)],
        ImportTree::Rename(id) => seq![cur.push(id@)],
        ImportTree::Glob => seq![cur.push(seq!['*'])],
        ImportTree::Group(v) => list_paths(v@, cur),
    }
}

/// The paths that trees import, one tree after the other.
pub open spec fn list_paths(ts: Seq<ImportTree>, cur: Seq<Seq<char>>) -> Seq<Seq<Seq<char>>>
    decreases ts,
{
    if ts.len() == 0 {
        Seq::empty()
    } else {
        list_paths(ts.drop_last(), cur) + tree_paths(ts.last(), cur)
    }
}

/// A copy of a path.
fn copy_path(cur: &Vec<String>) -> (r: Vec<String>)
    ensures
        seg_views(r@) == seg_views(cur@),
{
    let mut r: Vec<String> = Vec::new();
    let mut i: usize = 0;
    while i < cur.len()
        invariant
            i <= cur@.len(),
            r@.len() == i,
            forall|j: int| 0 <= j < i ==> (#[trigger] r@[j])@ == cur@[j]@,
        decreases cur@.len() - i,
    {
        r.push(cur[i].clone());
        i += 1;
    }
    proof {
        assert(seg_views(r@) =~= seg_views(cur@));
    }
    r
}

/// Dropping the last segment.
proof fn lemma_drop_seg(a: Seq<String>, c: Seq<Seq<char>>, x: Seq<char>)
    requires
        seg_views(a) == c.push(x),
    ensures
        seg_views(a.drop_last()) == c,
{
    assert(seg_views(a).len() == c.len() + 1);
    assert forall|i: int| 0 <= i < c.len() implies seg_views(a.drop_last())[i] == c[i] by {
        assert(seg_views(a)[i] == c.push(x)[i]);
    }
    assert(seg_views(a.drop_last()) =~= c);
}

/// Collects the paths that `t` imports after the segments `cur`.
pub fn dfs_use_tree(t: &ImportTree, cur: &mut Vec<String>, res: &mut Vec<Vec<String>>)
    ensures
        seg_views(final(cur)@) == seg_views(old(cur)@),
        path_views(final(res)@) == path_views(old(res)@) + tree_paths(*t, seg_views(old(cur)@)),
    decreases t,
{
    let ghost c0 = seg_views(cur@);
    let ghost r0 = path_views(res@);
    match t {
        ImportTree::Path(id, sub) => {
            cur.push(id.clone());
            proof {
                assert(seg_views(cur@) == c0.push(id@));
            }
            dfs_use_tree(sub, cur, res);
            let ghost before = cur@;
            cur.pop();
            proof {
                lemma_drop_seg(before, c0, id@);
            }
        },
        ImportTree::Name(id) | ImportTree::Rename(id) => {
            cur.push(id.clone());
            proof {
                assert(seg_views(cur@) == c0.push(id@));
            }
            let p = copy_path(cur);
            res.push(p);
            let ghost before = cur@;
            cur.pop();
            proof {
                lemma_drop_seg(before, c0, id@);
                assert(path_views(res@) =~= r0 + seq![c0.push(id@)]);
            }
        },
        ImportTree::Glob => {
            let star = String::from_str("*");
            proof {
                reveal_strlit("*");
                assert(star@ == seq!['*']);
            }
            cur.push(star);
            proof {
                assert(seg_views(cur@) == c0.push(seq!['*']));
            }
            let p = copy_path(cur);
            res.push(p);
            let ghost before = cur@;
            cur.pop();
            proof {
                lemma_drop_seg(before, c0, seq!['*']);
                assert(path_views(res@) =~= r0 + seq![c0.push(seq!['*'])]);
            }
        },
        ImportTree::Group(items) => {
            let mut i: usize = 0;
            while i < items.len()
                invariant
                    (*t) is Group,
                    (*t)->Group_0 == *items,
                    i <= items@.len(),
                    seg_views(cur@) == c0,
                    path_views(res@) == r0 + list_paths(items@.take(i as int), c0),
                decreases items@.len() - i,
            {
                proof {
                    assert(items@.take(i + 1).drop_last() == items@.take(i as int));
                    assert(decreases_to!(*t => (*t)->Group_0));
                    assert((*t)->Group_0 == *items);
                    assert(decreases_to!(*items => items@));
                    assert(decreases_to!(items@ => items@[i as int]));
                }
                dfs_use_tree(&items[i], cur, res);
                i += 1;
            }
            proof {
                assert(items@.take(items@.len() as int) == items@);
            }
        },
    }
}

/// `a` comes before `b` in the order of strings: char by char, a proper
/// prefix first.
pub open spec fn str_lt(a: Seq<char>, b: Seq<char>) -> bool
    decreases a.len(),
{
    if a.len() == 0 {
        b.len() > 0
    } else if b.len() == 0 {
        false
    } else if a[0] != b[0] {
        a[0] < b[0]
    } else {
        str_lt(a.drop_first(), b.drop_first())
    }
}

/// `p` comes before `q` in the order of paths: segment by segment, a
/// proper prefix first.
pub open spec fn path_lt(p: Seq<Seq<char>>, q: Seq<Seq<char>>) -> bool
    decreases p.len(),
{
    if p.len() == 0 {
        q.len() > 0
    } else if q.len() == 0 {
        false
    } else if p[0] != q[0] {
        str_lt(p[0], q[0])
    } else {
        path_lt(p.drop_first(), q.drop_first())
    }
}

/// Of two different strings, one comes first.
proof fn lemma_str_total(a: Seq<char>, b: Seq<char>)
    requires
        a != b,
    ensures
        str_lt(a, b) || str_lt(b, a),
    decreases a.len(),
{
    if a.len() > 0 && b.len() > 0 && a[0] == b[0] {
        if a.drop_first() == b.drop_first() {
            assert(a =~= seq![a[0]] + a.drop_first());
            assert(b =~= seq![b[0]] + b.drop_first());
        }
        lemma_str_total(a.drop_first(), b.drop_first());
    } else if a.len() == 0 && b.len() == 0 {
        assert(a =~= b);
    }
}

/// Of two different paths, one comes first.
proof fn lemma_path_total(p: Seq<Seq<char>>, q: Seq<Seq<char>>)
    requires
        p != q,
    ensures
        path_lt(p, q) || path_lt(q, p),
    decreases p.len(),
{
    if p.len() > 0 && q.len() > 0 && p[0] == q[0] {
        if p.drop_first() == q.drop_first() {
            assert(p =~= seq![p[0]] + p.drop_first());
            assert(q =~= seq![q[0]] + q.drop_first());
        }
        lemma_path_total(p.drop_first(), q.drop_first());
    } else if p.len() == 0 && q.len() == 0 {
        assert(p =~= q);
    } else if p.len() > 0 && q.len() > 0 {
        lemma_str_total(p[0], q[0]);
    }
}

/// Whether `a` comes before `b`.
fn str_less(a: &String, b: &String) -> (r: bool)
    ensures
        r == str_lt(a@, b@),
{
    let la = a.as_str().unicode_len();
    let lb = b.as_str().unicode_len();
    let mut i: usize = 0;
    proof {
        assert(a@.skip(0) =~= a@);
        assert(b@.skip(0) =~= b@);
    }
    while i < la && i < lb
        invariant
            la == a@.len(),
            lb == b@.len(),
            i <= la,
            i <= lb,
            str_lt(a@, b@) == str_lt(a@.skip(i as int), b@.skip(i as int)),
        decreases la - i,
    {
        let ca = a.as_str().get_char(i);
        let cb = b.as_str().get_char(i);
        proof {
            assert(a@.skip(i as int)[0] == ca);
            assert(b@.skip(i as int)[0] == cb);
        }
        if ca != cb {
            return ca < cb;
        }
        proof {
            assert(a@.skip(i as int).drop_first() =~= a@.skip(i + 1));
            assert(b@.skip(i as int).drop_first() =~= b@.skip(i + 1));
        }
        i += 1;
    }
    i == la && i < lb
}

/// Whether path `p` comes before path `q`.
fn path_less(p: &Vec<String>, q: &Vec<String>) -> (r: bool)
    ensures
        r == path_lt(seg_views(p@), seg_views(q@)),
{
    let ghost sp = seg_views(p@);
    let ghost sq = seg_views(q@);
    let mut i: usize = 0;
    proof {
        assert(sp.skip(0) =~= sp);
        assert(sq.skip(0) =~= sq);
    }
    while i < p.len() && i < q.len()
        invariant
            sp == seg_views(p@),
            sq == seg_views(q@),
            i <= p@.len(),
            i <= q@.len(),
            path_lt(sp, sq) == path_lt(sp.skip(i as int), sq.skip(i as int)),
        decreases p@.len() - i,
    {
        proof {
            assert(sp.skip(i as int)[0] == p@[i as int]@);
            assert(sq.skip(i as int)[0] == q@[i as int]@);
        }
        if p[i] != q[i] {
            return str_less(&p[i], &q[i]);
        }
        proof {
            assert(sp.skip(i as int).drop_first() =~= sp.skip(i + 1));
            assert(sq.skip(i as int).drop_first() =~= sq.skip(i + 1));
        }
        i += 1;
    }
    i == p.len() && i < q.len()
}

/// Whether two paths have the same segments.
fn path_eq(p: &Vec<String>, q: &Vec<String>) -> (r: bool)
    ensures
        r == (seg_views(p@) == seg_views(q@)),
{
    if p.len() != q.len() {
        proof {
            assert(seg_views(p@).len() != seg_views(q@).len());
        }
        return false;
    }
    let mut i: usize = 0;
    while i < p.len()
        invariant
            p@.len() == q@.len(),
            i <= p@.len(),
            forall|j: int| 0 <= j < i ==> (#[trigger] p@[j])@ == q@[j]@,
        decreases p@.len() - i,
    {
        if p[i] != q[i] {
            proof {
                assert(seg_views(p@)[i as int] != seg_views(q@)[i as int]);
            }
            return false;
        }
        i += 1;
    }
    proof {
        assert(seg_views(p@) =~= seg_views(q@));
    }
    true
}

/// Adjacent paths of `v` come in order.
pub open spec fn ascending(v: Seq<Seq<Seq<char>>>) -> bool {
    forall|i: int| 0 <= i < v.len() - 1 ==> path_lt(#[trigger] v[i], v[i + 1])
}

/// Adds a path to paths in order, unless it is there already.
fn insert_path(out: &mut Vec<Vec<String>>, p: &Vec<String>)
    requires
        ascending(path_views(old(out)@)),
    ensures
        ascending(path_views(final(out)@)),
        forall|x: Seq<Seq<char>>| path_views(final(out)@).contains(x) <==> (path_views(old(out)@).contains(x) || x == seg_views(p@)),
{
    let ghost o = path_views(out@);
    let ghost pv = seg_views(p@);
    let mut k: usize = 0;
    while k < out.len()
        invariant
            o == path_views(out@),
            pv == seg_views(p@),
            k <= out@.len(),
            forall|j: int| 0 <= j < k ==> path_lt(#[trigger] o[j], pv),
        ensures
            k <= out@.len(),
            forall|j: int| 0 <= j < k ==> path_lt(#[trigger] o[j], pv),
            k < out@.len() ==> !path_lt(o[k as int], pv),
        decreases out@.len() - k,
    {
        proof {
            assert(o[k as int] == seg_views(out@[k as int]@));
        }
        if !path_less(&out[k], p) {
            break;
        }
        k += 1;
    }
    if k < out.len() && path_eq(&out[k], p) {
        proof {
            assert forall|x: Seq<Seq<char>>| o.contains(x) <==> (o.contains(x) || x == pv) by {
                if x == pv {
                    assert(o[k as int] == x);
                }
            }
        }
        return;
    }
    let q = copy_path(p);
    proof {
        if k < out@.len() {
            lemma_path_total(o[k as int], pv);
        }
    }
    out.insert(k, q);
    proof {
        let n = path_views(out@);
        assert(n =~= o.insert(k as int, pv));
        assert forall|i: int| 0 <= i < n.len() - 1 implies path_lt(#[trigger] n[i], n[i + 1]) by {
            if i + 1 < k {
                assert(n[i] == o[i] && n[i + 1] == o[i + 1]);
            } else if i + 1 == k {
                assert(n[i] == o[i] && n[i + 1] == pv);
            } else if i == k {
                assert(n[i] == pv && n[i + 1] == o[i]);
            } else {
                assert(n[i] == o[i - 1] && n[i + 1] == o[i]);
            }
        }
        assert forall|x: Seq<Seq<char>>| n.contains(x) <==> (o.contains(x) || x == pv) by {
            if n.contains(x) {
                let j = choose|j: int| 0 <= j < n.len() && n[j] == x;
                if j < k {
                    assert(o[j] == x);
                } else if j > k {
                    assert(o[j - 1] == x);
                }
            }
            if o.contains(x) {
                let j = choose|j: int| 0 <= j < o.len() && o[j] == x;
                if j < k {
                    assert(n[j] == x);
                } else {
                    assert(n[j + 1] == x);
                }
            }
            if x == pv {
                assert(n[k as int] == x);
            }
        }
    }
}

/// The paths that `use` items, each with whether it has a leading `::`,
/// import, in the order written; a leading `::` makes an empty first
/// segment.
pub open spec fn all_paths(uses: Seq<(bool, ImportTree)>) -> Seq<Seq<Seq<char>>>
    decreases uses.len(),
{
    if uses.len() == 0 {
        Seq::empty()
    } else {
        all_paths(uses.drop_last()) + tree_paths(uses.last().1, if uses.last().0 { seq![Seq::<char>::empty()] } else { Seq::empty() })
    }
}

/// The name of the library.
pub open spec fn lib_name() -> Seq<char> {
    seq!['n', 'e', 'k', 'o', 'l', 'i', 'b']
}

/// A path into the library: its first segment is the library's name.
pub open spec fn lib_path(x: Seq<Seq<char>>) -> bool {
    x.len() > 0 && x[0] == lib_name()
}

/// `r` lists, in order and each once, the paths into the library that the
/// `use` items `uses` import.
pub open spec fn lib_uses(r: Seq<Vec<String>>, uses: Seq<(bool, ImportTree)>) -> bool {
    &&& ascending(path_views(r))
    &&& forall|x: Seq<Seq<char>>| path_views(r).contains(x) <==> (all_paths(uses).contains(x) && lib_path(x))
}

/// The paths into the library that `use` items import, each once, in
/// order.
pub fn extract_uses(uses: &Vec<(bool, ImportTree)>) -> (r: Vec<Vec<String>>)
    ensures
        lib_uses(r@, uses@),
{
    let mut res: Vec<Vec<String>> = Vec::new();
    let mut i: usize = 0;
    while i < uses.len()
        invariant
            i <= uses@.len(),
            path_views(res@) == all_paths(uses@.take(i as int)),
        decreases uses@.len() - i,
    {
        let mut cur: Vec<String> = Vec::new();
        if uses[i].0 {
            cur.push(String::new());
        }
        proof {
            assert(uses@.take(i + 1).drop_last() == uses@.take(i as int));
            assert(seg_views(cur@) =~= if uses@[i as int].0 { seq![Seq::<char>::empty()] } else { Seq::<Seq<char>>::empty() });
        }
        dfs_use_tree(&uses[i].1, &mut cur, &mut res);
        i += 1;
    }
    proof {
        assert(uses@.take(uses@.len() as int) == uses@);
    }
    let name = String::from_str("nekolib");
    proof {
        reveal_strlit("nekolib");
        assert(name@ =~= lib_name());
    }
    let ghost all = path_views(res@);
    let mut out: Vec<Vec<String>> = Vec::new();
    let mut j: usize = 0;
    while j < res.len()
        invariant
            all == path_views(res@),
            name@ == lib_name(),
            j <= res@.len(),
            ascending(path_views(out@)),
            forall|x: Seq<Seq<char>>|
                #![trigger path_views(out@).contains(x)]
                #![trigger all.take(j as int).contains(x)]
                path_views(out@).contains(x) <==> (all.take(j as int).contains(x) && lib_path(x)),
        decreases res@.len() - j,
    {
        let p = &res[j];
        let ghost o = path_views(out@);
        let take_it = p.len() > 0 && p[0] == name;
        if take_it {
            insert_path(&mut out, p);
        }
        proof {
            let pv = seg_views(p@);
            assert(all[j as int] == pv);
            if p@.len() > 0 {
                assert(pv[0] == p@[0]@);
            }
            assert(take_it == lib_path(pv));
            if !take_it {
                assert(path_views(out@) == o);
            }
            assert(all.take(j + 1) =~= all.take(j as int).push(pv));
            assert forall|x: Seq<Seq<char>>| path_views(out@).contains(x) <==> (all.take(j + 1).contains(x) && lib_path(x)) by {
                let a1 = all.take(j + 1);
                let a0 = all.take(j as int);
                assert(a1.contains(x) <==> (a0.contains(x) || x == pv)) by {
                    if a1.contains(x) {
                        let t = choose|t: int| 0 <= t < a1.len() && a1[t] == x;
                        if t < j {
                            assert(a0[t] == x);
                        }
                    }
                    if a0.contains(x) {
                        let t = choose|t: int| 0 <= t < a0.len() && a0[t] == x;
                        assert(a1[t] == x);
                    }
                    if x == pv {
                        assert(a1[j as int] == x);
                    }
                }
                assert(o.contains(x) <==> (a0.contains(x) && lib_path(x)));
                if take_it {
                    assert(path_views(out@).contains(x) <==> (o.contains(x) || x == pv));
                }
            }
        }
        j += 1;
    }
    proof {
        assert(all.take(all.len() as int) == all);
    }
    out
}

/// A (crate, module) pair as text.
pub type ModView = (Seq<char>, Seq<char>);

pub open spec fn pair_view(p: (String, String)) -> ModView {
    (p.0@, p.1@)
}

/// Where each name is declared, as text.
pub open spec fn decl_view(d: Seq<(String, (String, String))>) -> Seq<(Seq<char>, ModView)> {
    d.map_values(|e: (String, (String, String))| (e.0@, pair_view(e.1)))
}

/// The modules each module needs, as text.
pub open spec fn deps_view(d: Seq<((String, String), Vec<(String, String)>)>) -> Seq<(ModView, Seq<ModView>)> {
    d.map_values(|e: ((String, String), Vec<(String, String)>)| (pair_view(e.0), e.1@.map_values(|q: (String, String)| pair_view(q))))
}

/// The module that declares `name`: the last entry for it.
pub open spec fn find_decl(d: Seq<(Seq<char>, ModView)>, name: Seq<char>) -> Option<ModView>
    decreases d.len(),
{
    if d.len() == 0 {
        None
    } else if d.last().0 == name {
        Some(d.last().1)
    } else {
        find_decl(d.drop_last(), name)
    }
}

/// The modules that module `m` needs: the last entry for it.
pub open spec fn find_deps(d: Seq<(ModView, Seq<ModView>)>, m: ModView) -> Option<Seq<ModView>>
    decreases d.len(),
{
    if d.len() == 0 {
        None
    } else if d.last().0 == m {
        Some(d.last().1)
    } else {
        find_deps(d.drop_last(), m)
    }
}

/// The module that an imported `name` comes from: where it is declared,
/// else, as a macro, the module of the utilities named after it.
pub open spec fn target(d: Seq<(Seq<char>, ModView)>, name: Seq<char>) -> ModView {
    match find_decl(d, name) {
        Some(m) => m,
        None => (seq!['u', 't', 'i', 'l', 's'], name + seq!['_', 'm', 'a', 'c', 'r', 'o']),
    }
}

/// Module `m` is needed by the imports `uses`: it is the module one of
/// them comes from, or one that module needs.
pub open spec fn needed(uses: Seq<Seq<Seq<char>>>, d: Seq<(Seq<char>, ModView)>, dp: Seq<(ModView, Seq<ModView>)>, m: ModView) -> bool {
    exists|i: int| 0 <= i < uses.len() && {
        let t = target(d, #[trigger] uses[i].last());
        m == t || (find_deps(dp, t) matches Some(l) && l.contains(m))
    }
}

/// A module name as a path segment: `-` becomes `_`.
pub open spec fn underscore(m: Seq<char>) -> Seq<char> {
    m.map_values(|c: char| if c == '-' { '_' } else { c })
}

/// Module `m2` of crate `c` is listed in `r`.
pub open spec fn listed(r: Seq<(Seq<char>, Seq<Seq<char>>)>, c: Seq<char>, m2: Seq<char>) -> bool {
    exists|k: int| 0 <= k < r.len() && (#[trigger] r[k]).0 == c && r[k].1.contains(m2)
}

/// Strings in order, adjacent ones distinct.
pub open spec fn str_ascending(v: Seq<Seq<char>>) -> bool {
    forall|i: int| 0 <= i < v.len() - 1 ==> str_lt(#[trigger] v[i], v[i + 1])
}

/// The crates in order, each with its modules in order.
pub open spec fn grouped(r: Seq<(Seq<char>, Seq<Seq<char>>)>) -> bool {
    &&& forall|k: int| 0 <= k < r.len() - 1 ==> str_lt(#[trigger] r[k].0, r[k + 1].0)
    &&& forall|k: int| 0 <= k < r.len() ==> (#[trigger] r[k]).1.len() > 0 && str_ascending(r[k].1)
}

/// The crates and modules listed, as text.
pub open spec fn groups_view(r: Seq<(String, Vec<String>)>) -> Seq<(Seq<char>, Seq<Seq<char>>)> {
    r.map_values(|e: (String, Vec<String>)| (e.0@, seg_views(e.1@)))
}

/// `s` with every `-` made `_`.
fn underscored(s: &String) -> (r: String)
    ensures
        r@ == underscore(s@),
{
    let n = s.as_str().unicode_len();
    let mut r = String::new();
    let mut i: usize = 0;
    proof {
        reveal_strlit("_");
    }
    while i < n
        invariant
            n == s@.len(),
            i <= n,
            r@ == underscore(s@.take(i as int)),
            "_"@ == seq!['_'],
        decreases n - i,
    {
        let c = s.as_str().get_char(i);
        if c == '-' {
            r.append("_");
        } else {
            let one = s.as_str().substring_char(i, i + 1);
            r.append(one);
        }
        proof {
            assert(s@.take(i + 1) =~= s@.take(i as int).push(c));
            assert(underscore(s@.take(i + 1)) =~= underscore(s@.take(i as int)).push(if c == '-' { '_' } else { c }));
            if c != '-' {
                assert(s@.subrange(i as int, i + 1) =~= seq![c]);
            }
        }
        i += 1;
    }
    proof {
        assert(s@.take(n as int) =~= s@);
    }
    r
}

/// Adds a string to strings in order, unless it is there already.
fn insert_str(v: &mut Vec<String>, x: String)
    requires
        str_ascending(seg_views(old(v)@)),
    ensures
        str_ascending(seg_views(final(v)@)),
        forall|y: Seq<char>| seg_views(final(v)@).contains(y) <==> (seg_views(old(v)@).contains(y) || y == x@),
{
    let ghost o = seg_views(v@);
    let mut k: usize = 0;
    while k < v.len()
        invariant
            o == seg_views(v@),
            k <= v@.len(),
            forall|j: int| 0 <= j < k ==> str_lt(#[trigger] o[j], x@),
        ensures
            k <= v@.len(),
            forall|j: int| 0 <= j < k ==> str_lt(#[trigger] o[j], x@),
            k < v@.len() ==> !str_lt(o[k as int], x@),
        decreases v@.len() - k,
    {
        proof {
            assert(o[k as int] == v@[k as int]@);
        }
        if !str_less(&v[k], &x) {
            break;
        }
        k += 1;
    }
    if k < v.len() && v[k] == x {
        proof {
            assert(o[k as int] == x@);
            assert forall|y: Seq<char>| o.contains(y) <==> (o.contains(y) || y == x@) by {
            }
        }
        return;
    }
    proof {
        if k < v@.len() {
            assert(o[k as int] == v@[k as int]@);
            lemma_str_total(o[k as int], x@);
        }
    }
    let ghost xv = x@;
    v.insert(k, x);
    proof {
        let n = seg_views(v@);
        assert(n =~= o.insert(k as int, xv));
        assert forall|i: int| 0 <= i < n.len() - 1 implies str_lt(#[trigger] n[i], n[i + 1]) by {
            if i + 1 < k {
                assert(n[i] == o[i] && n[i + 1] == o[i + 1]);
            } else if i + 1 == k {
                assert(n[i] == o[i] && n[i + 1] == xv);
            } else if i == k {
                assert(n[i] == xv && n[i + 1] == o[i]);
            } else {
                assert(n[i] == o[i - 1] && n[i + 1] == o[i]);
            }
        }
        assert forall|y: Seq<char>| n.contains(y) <==> (o.contains(y) || y == xv) by {
            if n.contains(y) {
                let j = choose|j: int| 0 <= j < n.len() && n[j] == y;
                if j < k {
                    assert(o[j] == y);
                } else if j > k {
                    assert(o[j - 1] == y);
                }
            }
            if o.contains(y) {
                let j = choose|j: int| 0 <= j < o.len() && o[j] == y;
                if j < k {
                    assert(n[j] == y);
                } else {
                    assert(n[j + 1] == y);
                }
            }
            if y == xv {
                assert(n[k as int] == y);
            }
        }
    }
}

/// Adds module `m` of crate `c` to the listing, as a path segment.
fn add_module(out: &mut Vec<(String, Vec<String>)>, c: &String, m: &String)
    requires
        grouped(groups_view(old(out)@)),
    ensures
        grouped(groups_view(final(out)@)),
        forall|cc: Seq<char>, y: Seq<char>|
            #![trigger listed(groups_view(final(out)@), cc, y)]
            listed(groups_view(final(out)@), cc, y) <==> (listed(groups_view(old(out)@), cc, y) || (cc == c@ && y == underscore(m@))),
{
    let m2 = underscored(m);
    let ghost o = groups_view(out@);
    let ghost mv = m2@;
    let mut k: usize = 0;
    while k < out.len()
        invariant
            o == groups_view(out@),
            k <= out@.len(),
            forall|j: int| 0 <= j < k ==> str_lt(#[trigger] o[j].0, c@),
        ensures
            k <= out@.len(),
            forall|j: int| 0 <= j < k ==> str_lt(#[trigger] o[j].0, c@),
            k < out@.len() ==> !str_lt(o[k as int].0, c@),
        decreases out@.len() - k,
    {
        proof {
            assert(o[k as int].0 == out@[k as int].0@);
        }
        if !str_less(&out[k].0, c) {
            break;
        }
        k += 1;
    }
    if k < out.len() && out[k].0 == *c {
        let mut entry = out.remove(k);
        proof {
            assert(seg_views(entry.1@) == o[k as int].1);
        }
        insert_str(&mut entry.1, m2);
        let ghost ev = (entry.0@, seg_views(entry.1@));
        out.insert(k, entry);
        proof {
            let n = groups_view(out@);
            assert(n =~= o.update(k as int, ev));
            assert(ev.0 == o[k as int].0);
            assert(ev.1.contains(mv));
            assert forall|i: int| 0 <= i < n.len() - 1 implies str_lt(#[trigger] n[i].0, n[i + 1].0) by {
                assert(n[i].0 == o[i].0 && n[i + 1].0 == o[i + 1].0);
            }
            assert forall|i: int| 0 <= i < n.len() implies (#[trigger] n[i]).1.len() > 0 && str_ascending(n[i].1) by {
                if i != k {
                    assert(n[i] == o[i]);
                }
            }
            assert forall|cc: Seq<char>, y: Seq<char>| listed(n, cc, y) <==> (listed(o, cc, y) || (cc == c@ && y == mv)) by {
                if listed(n, cc, y) {
                    let j = choose|j: int| 0 <= j < n.len() && (#[trigger] n[j]).0 == cc && n[j].1.contains(y);
                    if j != k {
                        assert(o[j] == n[j]);
                    } else if ev.1.contains(y) && y != mv {
                        assert(o[j].1.contains(y));
                    }
                }
                if listed(o, cc, y) {
                    let j = choose|j: int| 0 <= j < o.len() && (#[trigger] o[j]).0 == cc && o[j].1.contains(y);
                    if j != k {
                        assert(o[j] == n[j]);
                    } else {
                        assert(n[j].1.contains(y));
                    }
                }
                if cc == c@ && y == mv {
                    assert(n[k as int].0 == cc && n[k as int].1.contains(y));
                }
            }
        }
    } else {
        let mut v: Vec<String> = Vec::new();
        v.push(m2);
        let cn = c.clone();
        let ghost ev = (cn@, seg_views(v@));
        proof {
            assert(seg_views(v@) =~= seq![mv]);
            if k < out@.len() {
                assert(o[k as int].0 == out@[k as int].0@);
                lemma_str_total(o[k as int].0, c@);
            }
        }
        out.insert(k, (cn, v));
        proof {
            let n = groups_view(out@);
            assert(n =~= o.insert(k as int, ev));
            assert forall|i: int| 0 <= i < n.len() - 1 implies str_lt(#[trigger] n[i].0, n[i + 1].0) by {
                if i + 1 < k {
                    assert(n[i] == o[i] && n[i + 1] == o[i + 1]);
                } else if i + 1 == k {
                    assert(n[i] == o[i] && n[i + 1] == ev);
                } else if i == k {
                    assert(n[i] == ev && n[i + 1] == o[i]);
                } else {
                    assert(n[i] == o[i - 1] && n[i + 1] == o[i]);
                }
            }
            assert forall|i: int| 0 <= i < n.len() implies (#[trigger] n[i]).1.len() > 0 && str_ascending(n[i].1) by {
                if i < k {
                    assert(n[i] == o[i]);
                } else if i > k {
                    assert(n[i] == o[i - 1]);
                }
            }
            assert forall|cc: Seq<char>, y: Seq<char>| listed(n, cc, y) <==> (listed(o, cc, y) || (cc == c@ && y == mv)) by {
                if listed(n, cc, y) {
                    let j = choose|j: int| 0 <= j < n.len() && (#[trigger] n[j]).0 == cc && n[j].1.contains(y);
                    if j < k {
                        assert(o[j] == n[j]);
                    } else if j > k {
                        assert(o[j - 1] == n[j]);
                    } else {
                        assert(n[j].1 == seq![mv]);
                    }
                }
                if listed(o, cc, y) {
                    let j = choose|j: int| 0 <= j < o.len() && (#[trigger] o[j]).0 == cc && o[j].1.contains(y);
                    if j < k {
                        assert(o[j] == n[j]);
                    } else {
                        assert(o[j] == n[j + 1]);
                    }
                }
                if cc == c@ && y == mv {
                    assert(n[k as int].0 == cc && n[k as int].1[0] == y);
                }
            }
        }
    }
}

/// The index of the last entry that declares `name`.
fn find_decl_index(declared: &Vec<(String, (String, String))>, name: &String) -> (r: Option<usize>)
    ensures
        r is None ==> find_decl(decl_view(declared@), name@) is None,
        r matches Some(k) ==> k < declared@.len() && find_decl(decl_view(declared@), name@) == Some(pair_view(declared@[k as int].1)),
{
    let ghost d = decl_view(declared@);
    let mut i = declared.len();
    proof {
        assert(d.take(d.len() as int) =~= d);
    }
    while i > 0
        invariant
            d == decl_view(declared@),
            i <= declared@.len(),
            find_decl(d, name@) == find_decl(d.take(i as int), name@),
        decreases i,
    {
        proof {
            assert(d.take(i as int).drop_last() =~= d.take(i - 1));
            assert(d.take(i as int).last() == d[i - 1]);
        }
        if declared[i - 1].0 == *name {
            return Some(i - 1);
        }
        i -= 1;
    }
    None
}

/// The index of the last entry for the modules that module `m` needs.
fn find_deps_index(depends: &Vec<((String, String), Vec<(String, String)>)>, m: &(String, String)) -> (r: Option<usize>)
    ensures
        r is None ==> find_deps(deps_view(depends@), pair_view(*m)) is None,
        r matches Some(k) ==> k < depends@.len() && find_deps(deps_view(depends@), pair_view(*m)) == Some(deps_view(depends@)[k as int].1),
{
    let ghost d = deps_view(depends@);
    let mut i = depends.len();
    proof {
        assert(d.take(d.len() as int) =~= d);
    }
    while i > 0
        invariant
            d == deps_view(depends@),
            i <= depends@.len(),
            find_deps(d, pair_view(*m)) == find_deps(d.take(i as int), pair_view(*m)),
        decreases i,
    {
        proof {
            assert(d.take(i as int).drop_last() =~= d.take(i - 1));
            assert(d.take(i as int).last() == d[i - 1]);
        }
        if depends[i - 1].0.0 == m.0 && depends[i - 1].0.1 == m.1 {
            return Some(i - 1);
        }
        i -= 1;
    }
    None
}

/// The module that an imported `name` comes from.
fn target_of(declared: &Vec<(String, (String, String))>, name: &String) -> (r: (String, String))
    ensures
        pair_view(r) == target(decl_view(declared@), name@),
{
    match find_decl_index(declared, name) {
        Some(k) => (declared[k].1.0.clone(), declared[k].1.1.clone()),
        None => {
            let utils = String::from_str("utils");
            let macro_name = name.clone().concat("_macro");
            proof {
                reveal_strlit("utils");
                reveal_strlit("_macro");
                assert(utils@ =~= seq!['u', 't', 'i', 'l', 's']);
                assert(macro_name@ =~= name@ + seq!['_', 'm', 'a', 'c', 'r', 'o']);
            }
            (utils, macro_name)
        },
    }
}

/// One more import: a module is needed by it, or by those before.
proof fn lemma_needed_push(u: Seq<Seq<Seq<char>>>, x: Seq<Seq<char>>, d: Seq<(Seq<char>, ModView)>, dp: Seq<(ModView, Seq<ModView>)>, m: ModView)
    ensures
        needed(u.push(x), d, dp, m) == (needed(u, d, dp, m) || m == target(d, x.last())
            || (find_deps(dp, target(d, x.last())) matches Some(l) && l.contains(m))),
{
    let v = u.push(x);
    if needed(v, d, dp, m) {
        let i = choose|i: int| 0 <= i < v.len() && {
            let t = target(d, #[trigger] v[i].last());
            m == t || (find_deps(dp, t) matches Some(l) && l.contains(m))
        };
        if i < u.len() {
            assert(v[i] == u[i]);
        }
    }
    if needed(u, d, dp, m) {
        let i = choose|i: int| 0 <= i < u.len() && {
            let t = target(d, #[trigger] u[i].last());
            m == t || (find_deps(dp, t) matches Some(l) && l.contains(m))
        };
        assert(v[i] == u[i]);
    }
    assert(v[u.len() as int] == x);
}

/// The modules that the imports `uses`, paths into the library, need,
/// given where each name is declared and which modules each module needs:
/// grouped by crate, in order, each module as a path segment.
pub fn resolve_includes(
    uses: &Vec<Vec<String>>,
    declared: &Vec<(String, (String, String))>,
    depends: &Vec<((String, String), Vec<(String, String)>)>,
) -> (r: Vec<(String, Vec<String>)>)
    requires
        forall|i: int| 0 <= i < uses@.len() ==> (#[trigger] uses@[i])@.len() > 0,
    ensures
        grouped(groups_view(r@)),
        forall|c: Seq<char>, y: Seq<char>| #![trigger listed(groups_view(r@), c, y)]
            listed(groups_view(r@), c, y) <==> exists|m: Seq<char>|
                needed(path_views(uses@), decl_view(declared@), deps_view(depends@), (c, m)) && #[trigger] underscore(m) == y,
{
    let ghost d = decl_view(declared@);
    let ghost dp = deps_view(depends@);
    let ghost u = path_views(uses@);
    let mut out: Vec<(String, Vec<String>)> = Vec::new();
    let mut i: usize = 0;
    while i < uses.len()
        invariant
            d == decl_view(declared@),
            dp == deps_view(depends@),
            u == path_views(uses@),
            forall|i: int| 0 <= i < uses@.len() ==> (#[trigger] uses@[i])@.len() > 0,
            i <= uses@.len(),
            grouped(groups_view(out@)),
            forall|c: Seq<char>, y: Seq<char>| #![trigger listed(groups_view(out@), c, y)]
                listed(groups_view(out@), c, y) <==> exists|m: Seq<char>| needed(u.take(i as int), d, dp, (c, m)) && #[trigger] underscore(m) == y,
        decreases uses@.len() - i,
    {
        let path = &uses[i];
        let name = &path[path.len() - 1];
        proof {
            assert(u[i as int] == seg_views(path@));
            assert(seg_views(path@).last() == name@);
            assert(u.take(i + 1) =~= u.take(i as int).push(u[i as int]));
        }
        let t = target_of(declared, name);
        let ghost tv = pair_view(t);
        let ghost o = groups_view(out@);
        let ghost extra: Seq<ModView> = match find_deps(dp, tv) {
            Some(l) => l,
            None => Seq::empty(),
        };
        match find_deps_index(depends, &t) {
            Some(k) => {
                let list = &depends[k].1;
                proof {
                    assert(extra =~= list@.map_values(|q: (String, String)| pair_view(q)));
                }
                let mut j: usize = 0;
                while j < list.len()
                    invariant
                        extra == list@.map_values(|q: (String, String)| pair_view(q)),
                        j <= list@.len(),
                        grouped(groups_view(out@)),
                        forall|c: Seq<char>, y: Seq<char>| #![trigger listed(groups_view(out@), c, y)]
                            listed(groups_view(out@), c, y) <==> (listed(o, c, y)
                                || exists|a: int| 0 <= a < j && (#[trigger] extra[a]).0 == c && underscore(extra[a].1) == y),
                    decreases list@.len() - j,
                {
                    let ghost before = groups_view(out@);
                    add_module(&mut out, &list[j].0, &list[j].1);
                    proof {
                        assert(extra[j as int] == pair_view(list@[j as int]));
                        assert forall|c: Seq<char>, y: Seq<char>| #![trigger listed(groups_view(out@), c, y)]
                            listed(groups_view(out@), c, y) <==> (listed(o, c, y)
                                || exists|a: int| 0 <= a < j + 1 && (#[trigger] extra[a]).0 == c && underscore(extra[a].1) == y) by {
                            if exists|a: int| 0 <= a < j + 1 && (#[trigger] extra[a]).0 == c && underscore(extra[a].1) == y {
                                let a = choose|a: int| 0 <= a < j + 1 && (#[trigger] extra[a]).0 == c && underscore(extra[a].1) == y;
                                if a < j {
                                    assert(listed(before, c, y));
                                }
                            }
                        }
                    }
                    j += 1;
                }
            },
            None => {},
        }
        let ghost mid = groups_view(out@);
        proof {
            assert forall|c: Seq<char>, y: Seq<char>| listed(mid, c, y) <==> (listed(o, c, y)
                || exists|a: int| 0 <= a < extra.len() && (#[trigger] extra[a]).0 == c && underscore(extra[a].1) == y) by {
            }
        }
        add_module(&mut out, &t.0, &t.1);
        proof {
            assert forall|c: Seq<char>, y: Seq<char>| #![trigger listed(groups_view(out@), c, y)]
                listed(groups_view(out@), c, y) <==> exists|m: Seq<char>| needed(u.take(i + 1), d, dp, (c, m)) && #[trigger] underscore(m) == y by {
                let ui = u.take(i as int);
                let x = u[i as int];
                if listed(groups_view(out@), c, y) {
                    if listed(o, c, y) {
                        let m = choose|m: Seq<char>| needed(ui, d, dp, (c, m)) && #[trigger] underscore(m) == y;
                        lemma_needed_push(ui, x, d, dp, (c, m));
                    } else if c == tv.0 && y == underscore(tv.1) {
                        lemma_needed_push(ui, x, d, dp, (c, tv.1));
                    } else {
                        let a = choose|a: int| 0 <= a < extra.len() && (#[trigger] extra[a]).0 == c && underscore(extra[a].1) == y;
                        lemma_needed_push(ui, x, d, dp, (c, extra[a].1));
                        assert(extra[a] == (c, extra[a].1));
                    }
                }
                if exists|m: Seq<char>| needed(u.take(i + 1), d, dp, (c, m)) && #[trigger] underscore(m) == y {
                    let m = choose|m: Seq<char>| needed(u.take(i + 1), d, dp, (c, m)) && #[trigger] underscore(m) == y;
                    lemma_needed_push(ui, x, d, dp, (c, m));
                    if needed(ui, d, dp, (c, m)) {
                        assert(listed(o, c, y));
                    } else if (c, m) == tv {
                    } else {
                        let a = choose|a: int| 0 <= a < extra.len() && extra[a] == (c, m);
                        assert(extra[a].0 == c && underscore(extra[a].1) == y);
                    }
                }
            }
        }
        i += 1;
    }
    proof {
        assert(u.take(u.len() as int) =~= u);
    }
    out
}

/// The names declared in module `m`, in the order of `d`.
pub open spec fn names_in(d: Seq<(Seq<char>, ModView)>, m: ModView) -> Seq<Seq<char>>
    decreases d.len(),
{
    if d.len() == 0 {
        Seq::empty()
    } else {
        let r = names_in(d.drop_last(), m);
        if d.last().1 == m {
            r.push(d.last().0)
        } else {
            r
        }
    }
}

/// The names declared in module `m`, in the order of `declared`: what the
/// bundle re-exports from that module.
pub fn declared_in(declared: &Vec<(String, (String, String))>, m: &(String, String)) -> (r: Vec<String>)
    ensures
        r@.map_values(|x: String| x@) == names_in(decl_view(declared@), pair_view(*m)),
{
    let ghost d = decl_view(declared@);
    let mut r: Vec<String> = Vec::new();
    let mut i: usize = 0;
    while i < declared.len()
        invariant
            d == decl_view(declared@),
            i <= declared@.len(),
            r@.map_values(|x: String| x@) == names_in(d.take(i as int), pair_view(*m)),
        decreases declared@.len() - i,
    {
        proof {
            assert(d.take(i + 1).drop_last() =~= d.take(i as int));
            assert(d.take(i + 1).last() == d[i as int]);
        }
        if declared[i].1.0 == m.0 && declared[i].1.1 == m.1 {
            let ghost r0 = r@;
            r.push(declared[i].0.clone());
            proof {
                assert(r@.map_values(|x: String| x@) =~= r0.map_values(|x: String| x@).push(d[i as int].0));
            }
        }
        i += 1;
    }
    proof {
        assert(d.take(declared@.len() as int) =~= d);
    }
    r
}

} // verus!
