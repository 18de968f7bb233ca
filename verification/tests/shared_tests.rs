use entmut::shared::Tree;

#[test]
fn shared_eq_check() {
    let mut s: Tree<&str> = Tree::new();
    let a1 = s.leaf("a");
    let a2 = s.leaf("a");
    assert_eq![*s.data_of(a1), *s.data_of(a2)];
    assert![a1 != a2];
    let b = s.leaf("b");
    assert![*s.data_of(a1) != *s.data_of(b)];
}

#[test]
fn macro_check() {
    // one side built in one call, the other grown edge by edge
    let mut s: Tree<&str> = Tree::new();
    let b1 = s.leaf("b");
    let c1 = s.leaf("c");
    let one = s.node("a", vec![b1, c1]);
    let two = s.leaf("a");
    let b2 = s.leaf("b");
    let c2 = s.leaf("c");
    s.push_child(two, b2);
    s.push_child(two, c2);
    assert_eq![*s.data_of(one), *s.data_of(two)];
    assert_eq![s.child_count(one), s.child_count(two)];
    assert_eq![
        *s.data_of(s.child_of(one, 0)),
        *s.data_of(s.child_of(two, 0))
    ];
    assert_eq![
        *s.data_of(s.child_of(one, 1)),
        *s.data_of(s.child_of(two, 1))
    ];
}

#[test]
fn leaf() {
    let mut s: Tree<&str> = Tree::new();
    let t = s.leaf("a");
    assert_eq![*s.data_of(t), "a"];
    assert_eq![s.child_count(t), 0];
}

#[test]
fn shared_push_child() {
    {
        let mut s: Tree<&str> = Tree::new();
        let t = s.leaf("a");
        let b = s.leaf("b");
        s.push_child(t, b);
        assert_eq![s.child_count(t), 1];
        assert_eq![*s.data_of(s.child_of(t, 0)), "b"];
    }
    {
        let mut s: Tree<&str> = Tree::new();
        let b = s.leaf("b");
        let t = s.node("a", vec![b]);
        let c = s.leaf("c");
        s.push_child(t, c);
        assert_eq![s.child_count(t), 2];
        assert_eq![*s.data_of(s.child_of(t, 1)), "c"];
    }
    {
        // mutating a subtree in place through the arena is seen through the
        // parent
        let mut s: Tree<&str> = Tree::new();
        let b = s.leaf("b");
        let t = s.node("a", vec![b]);
        let c = s.leaf("c");
        s.push_child(b, c);
        let b_via_t = s.child_of(t, 0);
        assert_eq![s.child_count(b_via_t), 1];
        assert_eq![*s.data_of(s.child_of(b_via_t, 0)), "c"];
    }
}

#[test]
fn shared_remove_child() {
    {
        let mut s: Tree<&str> = Tree::new();
        let b = s.leaf("b");
        let t = s.node("a", vec![b]);
        let r = s.remove_child(t, 0);
        assert_eq![r, b];
        assert_eq![s.child_count(t), 0];
    }
    {
        let mut s: Tree<&str> = Tree::new();
        let b = s.leaf("b");
        let c = s.leaf("c");
        let t = s.node("a", vec![b, c]);
        s.remove_child(t, 0);
        assert_eq![s.child_count(t), 1];
        assert_eq![*s.data_of(s.child_of(t, 0)), "c"];
        s.remove_child(t, 0);
        assert_eq![s.child_count(t), 0];
    }
    {
        let mut s: Tree<&str> = Tree::new();
        let b = s.leaf("b");
        let c = s.leaf("c");
        let t = s.node("a", vec![b, c]);
        s.remove_child(t, 1);
        assert_eq![s.child_count(t), 1];
        assert_eq![*s.data_of(s.child_of(t, 0)), "b"];
        s.remove_child(t, 0);
        assert_eq![s.child_count(t), 0];
    }
}

#[test]
fn shared_insert_child_at_leaf() {
    let mut s: Tree<&str> = Tree::new();
    let t = s.leaf("a");
    let b = s.leaf("b");
    s.insert_child(t, 0, b);
    assert_eq![s.child_count(t), 1];
    assert_eq![*s.data_of(s.child_of(t, 0)), "b"];
}

#[test]
fn shared_insert_child_at_start() {
    let mut s: Tree<&str> = Tree::new();
    let b = s.leaf("b");
    let d = s.leaf("d");
    let c = s.node("c", vec![d]);
    let e = s.leaf("e");
    let t = s.node("a", vec![b, c, e]);
    let aa = s.leaf("aa");
    s.insert_child(t, 0, aa);
    assert_eq![s.child_count(t), 4];
    assert_eq![*s.data_of(s.child_of(t, 0)), "aa"];
    assert_eq![*s.data_of(s.child_of(t, 1)), "b"];
    assert_eq![*s.data_of(s.child_of(t, 2)), "c"];
    assert_eq![*s.data_of(s.child_of(t, 3)), "e"];
}

#[test]
fn shared_insert_child_at_end() {
    let mut s: Tree<&str> = Tree::new();
    let b = s.leaf("b");
    let d = s.leaf("d");
    let c = s.node("c", vec![d]);
    let e = s.leaf("e");
    let t = s.node("a", vec![b, c, e]);
    let aa = s.leaf("aa");
    s.insert_child(t, 3, aa);
    assert_eq![s.child_count(t), 4];
    assert_eq![*s.data_of(s.child_of(t, 3)), "aa"];
}

#[test]
fn shared_insert_child_at_middle() {
    let mut s: Tree<&str> = Tree::new();
    let b = s.leaf("b");
    let d = s.leaf("d");
    let c = s.node("c", vec![d]);
    let e = s.leaf("e");
    let t = s.node("a", vec![b, c, e]);
    let aa = s.leaf("aa");
    s.insert_child(t, 2, aa);
    assert_eq![s.child_count(t), 4];
    assert_eq![*s.data_of(s.child_of(t, 0)), "b"];
    assert_eq![*s.data_of(s.child_of(t, 1)), "c"];
    assert_eq![*s.data_of(s.child_of(t, 2)), "aa"];
    assert_eq![*s.data_of(s.child_of(t, 3)), "e"];
}

#[test]
fn shared_leaf_into_parts() {
    let mut s: Tree<&str> = Tree::new();
    let t = s.leaf("a");
    let (data, children) = s.into_parts(t);
    assert_eq![*data, "a"];
    assert![children.is_empty()];
}

#[test]
fn shared_tree_into_parts() {
    let mut s: Tree<&str> = Tree::new();
    let b = s.leaf("b");
    let d = s.leaf("d");
    let c = s.node("c", vec![d]);
    let t = s.node("a", vec![b, c]);
    let (data, children) = s.into_parts(t);
    assert_eq![*data, "a"];
    assert_eq![children.len(), 2];
    assert_eq![children[0], b];
    assert_eq![children[1], c];
    assert_eq![*s.data_of(children[1]), "c"];
}

#[test]
fn pushing_through_one_handle_is_seen_through_its_copy() {
    let mut s: Tree<&str> = Tree::new();
    let a = s.leaf("n");
    let b = a.clone();
    let x = s.leaf("x");
    s.push_child(a, x);
    // the copy aliases the very same node, so its child list gained the push
    assert_eq![s.child_count(b), 1];
    assert_eq![*s.data_of(s.child_of(b, 0)), "x"];
}

#[test]
fn aliased_subtree_edit_is_seen_through_every_parent() {
    let mut s: Tree<i64> = Tree::new();
    let shared_node = s.leaf(9);
    let p = s.node(1, vec![shared_node, shared_node]);
    let c = s.leaf(7);
    s.push_child(shared_node, c);
    // the same node sits at both positions, so both see the new child
    let via_first = s.child_of(p, 0);
    let via_second = s.child_of(p, 1);
    assert_eq![via_first, via_second];
    assert_eq![s.child_count(via_first), 1];
    assert_eq![*s.data_of(s.child_of(via_second, 0)), 7];
}

#[test]
fn set_data_is_seen_through_every_alias() {
    let mut s: Tree<i64> = Tree::new();
    let a = s.leaf(1);
    let b = a;
    s.set_data(a, 5);
    assert_eq![*s.data_of(b), 5];
}
