use nekolib::tree::Tree;
use nekolib::tree_cata::TreeCata;

#[test]
fn test_value() {
    let n = 6;
    let es = vec![(0, 1), (0, 2), (1, 3), (1, 4), (1, 5)];
    let g = {
        let mut g = vec![vec![]; n];
        for &(u, v) in &es {
            g[u].push((v, ()));
            g[v].push((u, ()));
        }
        g
    };
    let tree_cata: TreeCata<()> = TreeCata::from(g);

    // max distance
    let empty = 0;
    let map = |&x: &usize, _: &()| x + 1;
    let fold = |&x: &usize, &y: &usize| x.max(y);
    assert_eq!(tree_cata.each_root(empty, map, fold), [2, 2, 3, 3, 3, 3]);

    // sum of distance
    let empty = (0, 0);
    let map = |&(d, c): &(usize, usize), _: &()| (d + c + 1, c + 1);
    let fold = |&x: &(usize, usize), &y: &(usize, usize)| (x.0 + y.0, x.1 + y.1);
    assert_eq!(
        tree_cata.each_root(empty, map, fold).into_iter().map(|x| x.0).collect::<Vec<_>>(),
        [8, 6, 12, 10, 10, 10]
    );

    let g = vec![
        vec![(1, 0), (2, 0)],
        vec![(0, 1), (3, 1), (4, 1), (5, 1)],
        vec![(0, 2)],
        vec![(1, 3)],
        vec![(1, 4)],
        vec![(1, 5)],
    ];
    let tree_cata: TreeCata<usize> = TreeCata::from(g);

    // string representation
    let empty = "".to_owned();
    let map = |x: &String, c: &usize| {
        if x == "" { format!("{}: []", c) } else { format!("{}: [{}]", c, x) }
    };
    let fold = |x: &String, y: &String| {
        if x == "" && y == "" {
            "".to_owned()
        } else if x != "" && y != "" {
            format!("{}, {}", x, y)
        } else {
            format!("{}{}", x, y)
        }
    };

    let actual = tree_cata
        .each_root(empty, map, fold)
        .into_iter()
        .enumerate()
        .map(|(i, x)| format!("{}: [{}]", i, x))
        .collect::<Vec<_>>();

    let expected = [
        "0: [1: [3: [], 4: [], 5: []], 2: []]",
        "1: [0: [2: []], 3: [], 4: [], 5: []]",
        "2: [0: [1: [3: [], 4: [], 5: []]]]",
        "3: [1: [0: [2: []], 4: [], 5: []]]",
        "4: [1: [0: [2: []], 3: [], 5: []]]",
        "5: [1: [0: [2: []], 3: [], 4: []]]",
    ];
    assert_eq!(actual, expected);
}

#[test]
fn test_order() {
    let empty = || "".to_owned();
    let map = |x: &String, c: &usize| format!("({} {} )", x, c);
    let fold = |x: &String, y: &String| format!("{}{}", x, y);

    // leftmost
    let g = vec![
        vec![(1, 0), (2, 0)],
        vec![(0, 1), (3, 1), (4, 1), (5, 1)],
        vec![(0, 2)],
        vec![(1, 3)],
        vec![(1, 4)],
        vec![(1, 5)],
    ];

    let tree_cata: TreeCata<usize> = TreeCata::from(g);
    assert_eq!(tree_cata.each_root(empty(), map, fold), [
        "(( 3 )( 4 )( 5 ) 1 )( 2 )",
        "(( 2 ) 0 )( 3 )( 4 )( 5 )",
        "((( 3 )( 4 )( 5 ) 1 ) 0 )",
        "((( 2 ) 0 )( 4 )( 5 ) 1 )",
        "((( 2 ) 0 )( 3 )( 5 ) 1 )",
        "((( 2 ) 0 )( 3 )( 4 ) 1 )",
    ]);

    // inner (1)
    let g = vec![
        vec![(1, 0), (2, 0)],
        vec![(3, 1), (0, 1), (4, 1), (5, 1)],
        vec![(0, 2)],
        vec![(1, 3)],
        vec![(1, 4)],
        vec![(1, 5)],
    ];

    let tree_cata: TreeCata<usize> = TreeCata::from(g);
    assert_eq!(tree_cata.each_root(empty(), map, fold), [
        "(( 3 )( 4 )( 5 ) 1 )( 2 )",
        "( 3 )(( 2 ) 0 )( 4 )( 5 )",
        "((( 3 )( 4 )( 5 ) 1 ) 0 )",
        "((( 2 ) 0 )( 4 )( 5 ) 1 )",
        "((( 2 ) 0 )( 3 )( 5 ) 1 )",
        "((( 2 ) 0 )( 3 )( 4 ) 1 )",
    ]);

    // inner (2)
    let g = vec![
        vec![(1, 0), (2, 0)],
        vec![(3, 1), (4, 1), (0, 1), (5, 1)],
        vec![(0, 2)],
        vec![(1, 3)],
        vec![(1, 4)],
        vec![(1, 5)],
    ];

    let tree_cata: TreeCata<usize> = TreeCata::from(g);
    assert_eq!(tree_cata.each_root(empty(), map, fold), [
        "(( 3 )( 4 )( 5 ) 1 )( 2 )",
        "( 3 )( 4 )(( 2 ) 0 )( 5 )",
        "((( 3 )( 4 )( 5 ) 1 ) 0 )",
        "((( 2 ) 0 )( 4 )( 5 ) 1 )",
        "((( 2 ) 0 )( 3 )( 5 ) 1 )",
        "((( 2 ) 0 )( 3 )( 4 ) 1 )",
    ]);

    // rightmost
    let g = vec![
        vec![(1, 0), (2, 0)],
        vec![(3, 1), (4, 1), (5, 1), (0, 1)],
        vec![(0, 2)],
        vec![(1, 3)],
        vec![(1, 4)],
        vec![(1, 5)],
    ];

    let tree_cata: TreeCata<usize> = TreeCata::from(g);
    assert_eq!(tree_cata.each_root(empty(), map, fold), [
        "(( 3 )( 4 )( 5 ) 1 )( 2 )",
        "( 3 )( 4 )( 5 )(( 2 ) 0 )",
        "((( 3 )( 4 )( 5 ) 1 ) 0 )",
        "((( 2 ) 0 )( 4 )( 5 ) 1 )",
        "((( 2 ) 0 )( 3 )( 5 ) 1 )",
        "((( 2 ) 0 )( 3 )( 4 ) 1 )",
    ]);
}

#[test]
fn tree_cata_leaf_counts() {
    let g = vec![
        vec![(1, ()), (2, ())],
        vec![(0, ()), (3, ()), (4, ()), (5, ())],
        vec![(0, ())],
        vec![(1, ())],
        vec![(1, ())],
        vec![(1, ())],
    ];
    let tc: TreeCata<()> = TreeCata::from(g);
    // (sum of root-leaf distance, # of leaves)
    let empty = ((0, 0), false);
    let map = |&(x, inner): &((usize, usize), bool), _: &()| {
        let (x1, x0) = if inner { x } else { (0, 1) };
        ((x1 + 1 * x0, x0), true)
    };
    let fold = |&x: &((usize, usize), bool), &y: &((usize, usize), bool)| {
        let (x1, x0) = x.0;
        let (y1, y0) = y.0;
        ((x1 + y1, x0 + y0), x.1 | y.1)
    };
    assert_eq!(
        tc.each_root(empty, map, fold)
            .into_iter()
            .map(|x| if x.1 { x.0 } else { (0, 1) })
            .collect::<Vec<_>>(),
        [(7, 4), (5, 4), (9, 3), (7, 3), (7, 3), (7, 3)]
    );
}

#[test]
fn tree_cata_single_vertex() {
    let tc: TreeCata<()> = TreeCata::from(vec![vec![]]);
    let r = tc.each_root(0usize, |&x: &usize, _: &()| x + 1, |&x: &usize, &y: &usize| x + y);
    assert_eq!(r, [0]);
    let path: TreeCata<()> = TreeCata::from(vec![vec![(1, ())], vec![(0, ()), (2, ())], vec![(1, ())]]);
    let r = path.each_root(0usize, |&x: &usize, _: &()| x + 1, |&x: &usize, &y: &usize| x.max(y));
    assert_eq!(r, [2, 1, 2]);
}

fn doc_tree() -> Tree<()> {
    let n = 6;
    let es = vec![(0, 1), (0, 2), (1, 3), (1, 4), (1, 5)];
    let mut g: Vec<Vec<(usize, ())>> = vec![vec![]; n];
    for &(u, v) in &es {
        g[u].push((v, ()));
        g[v].push((u, ()));
    }
    Tree::from(g)
}

#[test]
fn tree_cata_max_distance() {
    let tree = doc_tree();
    let map = |x: &usize, _: &()| *x + 1;
    let fold = |x: &usize, y: &usize| if *x < *y { *y } else { *x };
    assert_eq!(tree.cata(0, map, fold), vec![2, 2, 3, 3, 3, 3]);
}

#[test]
fn tree_cata_sum_of_distances() {
    let tree = doc_tree();
    let map = |x: &(usize, usize), _: &()| (x.0 + x.1 + 1, x.1 + 1);
    let fold = |x: &(usize, usize), y: &(usize, usize)| (x.0 + y.0, x.1 + y.1);
    let got: Vec<usize> = tree.cata((0, 0), map, fold).into_iter().map(|x| x.0).collect();
    assert_eq!(got, vec![8, 6, 12, 10, 10, 10]);
}

#[test]
fn tree_cata_folds_in_list_order() {
    // a path 0 - 1 - 2, with 1 listing 2 before 0; strings show the order
    let g: Vec<Vec<(usize, char)>> = vec![vec![(1, 'a')], vec![(2, 'b'), (0, 'c')], vec![(1, 'd')]];
    let tree = Tree::from(g);
    let map = |x: &String, w: &char| format!("{}({})", w, x);
    let fold = |x: &String, y: &String| format!("{}{}", x, y);
    assert_eq!(tree.cata(String::new(), map, fold), vec!["c(d())", "d()a()", "b(a())"]);
}
