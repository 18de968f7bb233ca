use entmut::shared::Tree;
use entmut::traversal::DepthQueue;
use entmut::traversal::Queue;
use entmut::util::SiblingIndex;

#[test]
fn shared_editor_reports_navigation_failure_and_stays_put() {
    let mut s: Tree<i64> = Tree::new();
    let b = s.leaf(2);
    let c = s.leaf(3);
    let t = s.node(1, vec![b, c]);
    let mut e = s.view_mut(t);
    assert![!e.seek_child(2)];
    assert![e.at_root()];
    assert_eq![e.child_count(), 2];
    assert![e.seek_sibling(0)];
    assert![!e.seek_sibling(1)];
    assert![matches!(e.resolve_sibling_offset(1), SiblingIndex::Root)];
    assert![!e.to_parent()];
    assert_eq![*e.data(), 1];
}

#[test]
fn shared_editor_edits_apply() {
    let mut s: Tree<i64> = Tree::new();
    let b = s.leaf(2);
    let c = s.leaf(3);
    let t = s.node(1, vec![b, c]);
    let mut e = s.view_mut(t);
    e.insert_leaf(2, 4);
    assert_eq![*e.data(), 4];
    assert![e.to_parent()];
    e.swap_children(0, 2);
    let removed = e.remove_child(1);
    assert_eq![removed, c];
    let s = e.into_tree();
    assert_eq![s.child_count(t), 2];
    assert_eq![*s.data_of(s.child_of(t, 0)), 4];
    assert_eq![*s.data_of(s.child_of(t, 1)), 2];
}

#[test]
fn shared_editor_remove_focus() {
    let mut s: Tree<i64> = Tree::new();
    let b = s.leaf(2);
    let c = s.leaf(3);
    let t = s.node(1, vec![b, c]);
    let mut e = s.view_mut(t);
    assert![e.seek_child(0)];
    let removed = e.remove();
    assert_eq![removed, b];
    assert_eq![*e.data(), 3];
    let s = e.into_tree();
    assert_eq![s.child_count(t), 1];
    assert_eq![*s.data_of(s.child_of(t, 0)), 3];
}

#[test]
fn shared_editor_sibling_moves() {
    let mut s: Tree<i64> = Tree::new();
    let b = s.leaf(2);
    let c = s.leaf(3);
    let d = s.leaf(4);
    let t = s.node(1, vec![b, c, d]);
    let mut e = s.view_mut(t);
    assert![e.seek_child(0)];
    assert![e.seek_sibling(2)];
    assert_eq![*e.data(), 4];
    assert![!e.seek_sibling(1)];
    assert![e.seek_sibling(-2)];
    assert_eq![*e.data(), 2];
    e.insert_sibling_leaf(1, 9);
    assert_eq![*e.data(), 9];
    let removed = e.remove_sibling(-1);
    assert_eq![removed, b];
    assert_eq![*e.data(), 9];
    let s = e.into_tree();
    assert_eq![s.child_count(t), 3];
    assert_eq![*s.data_of(s.child_of(t, 0)), 9];
    assert_eq![*s.data_of(s.child_of(t, 1)), 3];
    assert_eq![*s.data_of(s.child_of(t, 2)), 4];
}

#[test]
fn shared_editor_swap_siblings_focus_follows() {
    let mut s: Tree<i64> = Tree::new();
    let b = s.leaf(2);
    let c = s.leaf(3);
    let d = s.leaf(4);
    let t = s.node(1, vec![b, c, d]);
    let mut e = s.view_mut(t);
    assert![e.seek_child(0)];
    e.swap_siblings(0, 2);
    assert_eq![*e.data(), 2];
    let s = e.into_tree();
    assert_eq![*s.data_of(s.child_of(t, 0)), 4];
    assert_eq![*s.data_of(s.child_of(t, 2)), 2];
}

#[test]
fn shared_editor_set_data() {
    let mut s: Tree<i64> = Tree::new();
    let b = s.leaf(2);
    let t = s.node(1, vec![b]);
    let other = b;
    let mut e = s.view_mut(t);
    assert![e.seek_child(0)];
    e.set_data(20);
    let s = e.into_tree();
    // the rewrite went through the arena, so every alias sees it
    assert_eq![*s.data_of(other), 20];
}

#[test]
fn shared_editor_edits_aliased_subtrees_in_place() {
    // one node sits under the root twice; editing it through one path is
    // seen through the other
    let mut s: Tree<i64> = Tree::new();
    let shared_node = s.leaf(9);
    let t = s.node(1, vec![shared_node, shared_node]);
    let mut e = s.view_mut(t);
    assert![e.seek_child(0)];
    e.push_leaf(7);
    let s = e.into_tree();
    let via_second = s.child_of(t, 1);
    assert_eq![s.child_count(via_second), 1];
    assert_eq![*s.data_of(s.child_of(via_second, 0)), 7];
}

#[test]
fn shared_view_navigation() {
    let mut s: Tree<i64> = Tree::new();
    let c3 = s.leaf(3);
    let c2 = s.node(2, vec![c3]);
    let c4 = s.leaf(4);
    let t = s.node(1, vec![c2, c4]);
    let mut v = s.view(t);
    assert![v.seek_sibling(0)];
    assert![!v.seek_sibling(1)];
    assert![v.seek_child(0)];
    let w = v.clone();
    assert_eq![*w.data(), 2];
    assert![v.seek_child(0)];
    assert_eq![*v.data(), 3];
    v.to_root();
    assert![v.at_root()];
    assert_eq![v.focus(), t];
}

#[test]
fn shared_views_read_aliases_concurrently() {
    let mut s: Tree<i64> = Tree::new();
    let b = s.leaf(2);
    let t = s.node(1, vec![b]);
    let u = t;
    let mut v = s.view(t);
    let mut w = s.view(u);
    assert![v.seek_child(0)];
    assert![w.seek_child(0)];
    assert_eq![*v.data(), *w.data()];
}

#[test]
fn depth_queue_hands_back_newest_first() {
    let mut q: DepthQueue<i64> = DepthQueue::new();
    assert![q.is_empty()];
    q.shift(1);
    q.shift(2);
    q.shift(3);
    assert_eq![q.len(), 3];
    assert_eq![q.first(), Some(&1)];
    assert_eq![q.unshift(), Some(3)];
    assert_eq![q.unshift(), Some(2)];
    assert_eq![q.unshift(), Some(1)];
    assert_eq![q.unshift(), None];
    assert![q.is_empty()];
}
