use entmut::fixed::Tree;
use entmut::owned;
use entmut::traversal::DepthQueue;

#[test]
fn basic() {
    let t = Tree::leaf(0i64);
    assert_eq![t.size(), 1];
    assert_eq![t.nodes(), &[0i64]];
}

#[test]
fn from_traversal_counts_every_node() {
    let kids = vec![
        owned::Tree::new(2i64, vec![owned::Tree::leaf(3)]),
        owned::Tree::leaf(4),
    ];
    let t = Tree::from_traversal(DepthQueue::new(), 1i64, kids);
    assert_eq![t.size(), 4];
    assert_eq![t.nodes()[0], 1];
}

#[test]
fn from_traversal_depth_first_layout() {
    // A depth-first queue hands back the most recently queued subtree first,
    // so the last child is laid out before the first.
    let kids = vec![
        owned::Tree::new(2i64, vec![owned::Tree::leaf(3)]),
        owned::Tree::leaf(4),
    ];
    let t = Tree::from_traversal(DepthQueue::new(), 1i64, kids);
    assert_eq![t.nodes(), &[1i64, 4, 2, 3]];
}

#[test]
fn fixed_navigation_visits_children() {
    let kids = vec![
        owned::Tree::new(2i64, vec![owned::Tree::leaf(3)]),
        owned::Tree::leaf(4),
    ];
    let t = Tree::from_traversal(DepthQueue::new(), 1i64, kids);
    let mut v = t.view();
    assert![v.at_root()];
    assert_eq![*v.data(), 1];
    assert_eq![v.child_count(), 2];
    assert![v.seek_child(0)];
    assert_eq![*v.data(), 2];
    assert_eq![v.child_count(), 1];
    assert![v.seek_child(0)];
    assert_eq![*v.data(), 3];
    assert![v.at_leaf()];
    assert![v.to_parent()];
    assert![v.seek_sibling(1)];
    assert_eq![*v.data(), 4];
    assert![!v.seek_sibling(1)];
    assert_eq![*v.data(), 4];
    v.to_root();
    assert_eq![*v.data(), 1];
}

#[test]
fn fixed_sibling_boundaries() {
    let kids = vec![owned::Tree::leaf(2i64), owned::Tree::leaf(3)];
    let t = Tree::from_traversal(DepthQueue::new(), 1i64, kids);
    let mut v = t.view();
    assert![v.seek_sibling(0)];
    assert![!v.seek_sibling(1)];
    assert![v.seek_child(0)];
    assert![v.seek_sibling(0)];
    assert![!v.seek_sibling(-1)];
    assert![!v.seek_sibling(2)];
    assert![v.seek_sibling(1)];
    assert![v.to_parent()];
    assert![v.at_root()];
}

#[test]
fn set_node_rewrites_data_in_place() {
    let kids = vec![owned::Tree::leaf(2i64), owned::Tree::leaf(3)];
    let mut t = Tree::from_traversal(DepthQueue::new(), 1i64, kids);
    let root_children = {
        let v = t.view();
        v.child_count()
    };
    t.set_node(0, 10);
    assert_eq![t.nodes()[0], 10];
    assert_eq![t.size(), 3];
    let v = t.view();
    assert_eq![*v.data(), 10];
    assert_eq![v.child_count(), root_children];
}

#[test]
fn fixed_view_clone_forks_cursor() {
    let kids = vec![owned::Tree::leaf(2i64), owned::Tree::leaf(3)];
    let t = Tree::from_traversal(DepthQueue::new(), 1i64, kids);
    let mut v = t.view();
    assert![v.seek_child(0)];
    let w = v.clone();
    assert![v.to_parent()];
    assert![!w.at_root()];
    assert![v.at_root()];
}
