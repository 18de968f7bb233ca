use entmut::owned::Tree;

#[test]
#[allow(unused_variables)]
fn view_instantiation() {
    let t = Tree::leaf("a");
    let v = t.view();
}

#[test]
fn view_preserves_leaf_topology() {
    let t = Tree::leaf("a");
    let v = t.view();
    assert![v.at_leaf()];
    assert![v.at_root()];
    assert_eq![0, v.child_count()];
}

#[test]
fn view_preserves_leaf_data() {
    let t = Tree::leaf("a");
    let v = t.view();
    assert_eq!["a", *v.data()];
}

#[test]
fn view_seek_root_sibling_noop_succeeds() {
    let t = Tree::leaf("a");
    let mut v = t.view();
    assert![v.seek_sibling(0)];
}

#[test]
fn view_seek_root_sibling_fails() {
    let t = Tree::leaf("a");
    let mut v = t.view();
    assert![!v.seek_sibling(-1)];
    assert![!v.seek_sibling(1)];
}

#[test]
fn view_counts_children_correctly() {
    let t = Tree::new(
        "a",
        vec![
            Tree::new("b", vec![Tree::leaf("e"), Tree::leaf("f")]),
            Tree::leaf("c"),
            Tree::leaf("d"),
        ],
    );
    let mut v = t.view();
    assert_eq![3, v.child_count()];
    assert![v.seek_child(0)];
    assert_eq![2, v.child_count()];
    assert![v.seek_sibling(1)];
    assert_eq![0, v.child_count()];
}

#[test]
fn view_clone_forks_cursor() {
    let t = Tree::new(1i64, vec![Tree::leaf(2), Tree::leaf(3)]);
    let mut v = t.view();
    assert![v.seek_child(1)];
    let mut w = v.clone();
    assert_eq![*w.data(), 3];
    assert![w.to_parent()];
    assert_eq![*w.data(), 1];
    assert_eq![*v.data(), 3];
}

#[test]
fn view_to_root_returns_to_root() {
    let t = Tree::new(1i64, vec![Tree::new(2, vec![Tree::leaf(3)]), Tree::leaf(4)]);
    let mut v = t.view();
    assert![v.seek_child(0)];
    assert![v.seek_child(0)];
    assert_eq![*v.data(), 3];
    v.to_root();
    assert![v.at_root()];
    assert_eq![*v.data(), 1];
    v.to_root();
    assert![v.at_root()];
    assert_eq![*v.data(), 1];
}

#[test]
fn view_seek_child_out_of_range_fails() {
    let t = Tree::new(1i64, vec![Tree::leaf(2), Tree::leaf(3)]);
    let mut v = t.view();
    assert![!v.seek_child(2)];
    assert![v.at_root()];
    assert_eq![*v.data(), 1];
    assert![v.seek_child(1)];
    assert_eq![*v.data(), 3];
}
