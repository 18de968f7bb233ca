use entmut::owned::Tree;

#[test]
fn owned_eq_check() {
    assert_eq![Tree::leaf("a"), Tree::leaf("a")];
    assert![Tree::leaf("a") != Tree::leaf("b")];
    assert_eq![
        Tree::new("a", vec![Tree::leaf("b"), Tree::leaf("c")]),
        Tree::new("a", vec![Tree::leaf("b"), Tree::leaf("c")])
    ];
    assert![
        Tree::new("a", vec![Tree::leaf("c"), Tree::leaf("b")])
            != Tree::new("a", vec![Tree::leaf("b"), Tree::leaf("c")])
    ];
}

#[test]
fn leaf_literal() {
    assert_eq![Tree::leaf("a"), Tree::new("a", Vec::new())];
}

#[test]
fn other_literal() {
    // one side written as a single literal, the other grown edge by edge
    let mut grown = Tree::leaf("a");
    grown.push_child(Tree::leaf("b"));
    assert_eq![Tree::new("a", vec![Tree::leaf("b")]), grown];
    grown.push_child(Tree::leaf("c"));
    grown.push_child(Tree::leaf("d"));
    assert_eq![
        Tree::new("a", vec![Tree::leaf("b"), Tree::leaf("c"), Tree::leaf("d")]),
        grown
    ];
    let mut c = Tree::leaf("c");
    c.push_child(Tree::leaf("d"));
    let mut b = Tree::leaf("b");
    b.push_child(c);
    let mut e = Tree::leaf("e");
    e.push_child(Tree::leaf("f"));
    let mut deep = Tree::leaf("a");
    deep.push_child(b);
    deep.push_child(e);
    assert_eq![
        Tree::new(
            "a",
            vec![
                Tree::new("b", vec![Tree::new("c", vec![Tree::leaf("d")])]),
                Tree::new("e", vec![Tree::leaf("f")])
            ]
        ),
        deep
    ];
}

#[test]
fn owned_push_child() {
    {
        let mut t = Tree::leaf("a");
        t.push_child(Tree::leaf("b"));
        assert_eq![t, Tree::new("a", vec![Tree::leaf("b")])];
    }
    {
        let mut t = Tree::new("a", vec![Tree::leaf("b")]);
        t.push_child(Tree::leaf("c"));
        assert_eq![t, Tree::new("a", vec![Tree::leaf("b"), Tree::leaf("c")])];
    }
    {
        let mut t = Tree::new("a", vec![Tree::leaf("b")]);
        t.children[0].push_child(Tree::leaf("c"));
        assert_eq![t, Tree::new("a", vec![Tree::new("b", vec![Tree::leaf("c")])])];
    }
}

#[test]
fn owned_remove_child() {
    {
        let mut t = Tree::new("a", vec![Tree::leaf("b")]);
        t.remove_child(0);
        assert_eq![t, Tree::leaf("a")];
    }
    {
        let mut t = Tree::new("a", vec![Tree::leaf("b"), Tree::leaf("c")]);
        t.remove_child(0);
        assert_eq![t, Tree::new("a", vec![Tree::leaf("c")])];
        t.remove_child(0);
        assert_eq![t, Tree::leaf("a")];
    }
    {
        let mut t = Tree::new("a", vec![Tree::leaf("b"), Tree::leaf("c")]);
        t.remove_child(1);
        assert_eq![t, Tree::new("a", vec![Tree::leaf("b")])];
        t.remove_child(0);
        assert_eq![t, Tree::leaf("a")];
    }
}

#[test]
fn owned_insert_child_at_leaf() {
    let mut t = Tree::leaf("a");
    t.insert_child(0, Tree::leaf("b"));
    assert_eq![t, Tree::new("a", vec![Tree::leaf("b")])];
}

#[test]
fn owned_insert_child_at_start() {
    let mut t = Tree::new(
        "a",
        vec![Tree::leaf("b"), Tree::new("c", vec![Tree::leaf("d")]), Tree::leaf("e")],
    );
    t.insert_child(0, Tree::leaf("aa"));
    assert_eq![
        t,
        Tree::new(
            "a",
            vec![
                Tree::leaf("aa"),
                Tree::leaf("b"),
                Tree::new("c", vec![Tree::leaf("d")]),
                Tree::leaf("e")
            ]
        )
    ];
}

#[test]
fn owned_insert_child_at_end() {
    let mut t = Tree::new(
        "a",
        vec![Tree::leaf("b"), Tree::new("c", vec![Tree::leaf("d")]), Tree::leaf("e")],
    );
    t.insert_child(3, Tree::leaf("aa"));
    assert_eq![
        t,
        Tree::new(
            "a",
            vec![
                Tree::leaf("b"),
                Tree::new("c", vec![Tree::leaf("d")]),
                Tree::leaf("e"),
                Tree::leaf("aa")
            ]
        )
    ];
}

#[test]
fn owned_insert_child_at_middle() {
    let mut t = Tree::new(
        "a",
        vec![Tree::leaf("b"), Tree::new("c", vec![Tree::leaf("d")]), Tree::leaf("e")],
    );
    t.insert_child(2, Tree::leaf("aa"));
    assert_eq![
        t,
        Tree::new(
            "a",
            vec![
                Tree::leaf("b"),
                Tree::new("c", vec![Tree::leaf("d")]),
                Tree::leaf("aa"),
                Tree::leaf("e")
            ]
        )
    ];
}

#[test]
fn owned_leaf_into_parts() {
    let t = Tree::leaf("a");
    let (data, children) = t.into_parts();
    assert_eq![data, "a"];
    assert_eq![children.len(), 0];
}

#[test]
fn owned_tree_into_parts() {
    let t = Tree::new(
        "a",
        vec![Tree::leaf("b"), Tree::new("c", vec![Tree::leaf("d")])],
    );
    let (data, children) = t.into_parts();
    assert_eq![data, "a"];
    assert_eq![children.len(), 2];
    assert_eq![children[0], Tree::leaf("b")];
    assert_eq![children[1], Tree::new("c", vec![Tree::leaf("d")])];
}
