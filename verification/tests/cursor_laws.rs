use entmut::owned::Tree;
use entmut::util::ChildIndex;
use entmut::util::SiblingIndex;

#[test]
fn push_then_remove_last_returns_pushed_subtree() {
    let t = Tree::new(1i64, vec![Tree::leaf(2)]);
    let mut e = t.view_mut();
    e.push_child(Tree::new(9, vec![Tree::leaf(10)]));
    assert_eq![*e.data(), 9];
    assert![e.to_parent()];
    let last = e.child_count() - 1;
    let removed = e.remove_child(last);
    assert_eq![removed, Tree::new(9, vec![Tree::leaf(10)])];
    assert_eq![e.into_tree(), Tree::new(1, vec![Tree::leaf(2)])];
}

#[test]
fn seek_sibling_zero_is_noop_everywhere() {
    let t = Tree::new(1i64, vec![Tree::leaf(2), Tree::leaf(3)]);
    let mut v = t.view();
    assert![v.seek_sibling(0)];
    assert![v.at_root()];
    assert![v.seek_child(1)];
    assert![v.seek_sibling(0)];
    assert_eq![*v.data(), 3];
    let mut e = t.view_mut();
    assert![e.seek_sibling(0)];
    assert![e.at_root()];
    assert![e.seek_child(0)];
    assert![e.seek_sibling(0)];
    assert_eq![*e.data(), 2];
}

#[test]
fn to_root_at_root_is_noop() {
    let t = Tree::leaf("a");
    let mut v = t.view();
    v.to_root();
    assert![v.at_root()];
    assert_eq![*v.data(), "a"];
}

#[test]
fn seek_child_at_child_count_always_fails() {
    let t = Tree::new(1i64, vec![Tree::leaf(2), Tree::leaf(3)]);
    let mut v = t.view();
    let n = v.child_count();
    assert![!v.seek_child(n)];
    assert![v.at_root()];
    assert![v.seek_child(0)];
    let n = v.child_count();
    assert![!v.seek_child(n)];
    assert_eq![*v.data(), 2];
}

#[test]
fn seek_sibling_out_of_range_fails_and_preserves_cursor() {
    let t = Tree::new(1i64, vec![Tree::leaf(2), Tree::leaf(3)]);
    let mut v = t.view();
    assert![v.seek_child(0)];
    assert![!v.seek_sibling(-1)];
    assert_eq![*v.data(), 2];
    assert![!v.seek_sibling(2)];
    assert_eq![*v.data(), 2];
    assert![v.seek_sibling(1)];
    assert_eq![*v.data(), 3];
}

#[test]
fn preorder_traversal_of_nested_tree() {
    let t = Tree::new(1i64, vec![Tree::new(2, vec![Tree::leaf(3)]), Tree::leaf(4)]);
    let mut v = t.view();
    let mut visited = vec![*v.data()];
    assert![v.seek_child(0)];
    visited.push(*v.data());
    assert![v.seek_child(0)];
    visited.push(*v.data());
    assert![v.to_parent()];
    assert![v.seek_sibling(1)];
    visited.push(*v.data());
    assert_eq![visited, vec![1, 2, 3, 4]];
}

#[test]
fn editor_remove_child_scenario() {
    let t = Tree::new("a", vec![Tree::leaf("b"), Tree::leaf("c")]);
    let mut e = t.view_mut();
    let removed = e.remove_child(0);
    assert_eq![removed, Tree::leaf("b")];
    let t = e.into_tree();
    assert_eq![t, Tree::new("a", vec![Tree::leaf("c")])];
    let mut e = t.view_mut();
    let removed = e.remove_child(0);
    assert_eq![removed, Tree::leaf("c")];
    assert_eq![e.into_tree(), Tree::leaf("a")];
}

#[test]
fn editor_insert_child_scenario() {
    let t = Tree::new("a", vec![Tree::leaf("b")]);
    let mut e = t.view_mut();
    e.insert_child(0, Tree::leaf("aa"));
    assert_eq![*e.data(), "aa"];
    assert![e.to_parent()];
    let t = e.into_tree();
    assert_eq![t, Tree::new("a", vec![Tree::leaf("aa"), Tree::leaf("b")])];
    // inserting at the child count itself appends
    let mut e = t.view_mut();
    e.insert_child(2, Tree::leaf("zz"));
    assert_eq![
        e.into_tree(),
        Tree::new("a", vec![Tree::leaf("aa"), Tree::leaf("b"), Tree::leaf("zz")])
    ];
}

#[test]
fn most_negative_offset_reports_underflow() {
    assert![matches!(
        SiblingIndex::of(3, 1, isize::MIN),
        SiblingIndex::Underflow
    )];
    let t = Tree::new(1i64, vec![Tree::leaf(2), Tree::leaf(3)]);
    let mut e = t.view_mut();
    assert![e.seek_child(1)];
    assert![matches!(
        e.resolve_sibling_offset(isize::MIN),
        SiblingIndex::Underflow
    )];
    // the cursor reports the fault and stays put, it never clamps
    assert![!e.seek_sibling(isize::MIN)];
    assert_eq![*e.data(), 3];
}

#[test]
fn view_probe_tags_sibling_resolution() {
    let t = Tree::new(1i64, vec![Tree::leaf(2), Tree::leaf(3)]);
    let mut v = t.view();
    assert![matches!(v.resolve_sibling_offset(1), SiblingIndex::Root)];
    assert![v.seek_child(0)];
    assert![matches!(v.resolve_sibling_offset(1), SiblingIndex::Valid(1))];
    assert![matches!(
        v.resolve_sibling_offset(2),
        SiblingIndex::OutOfRange(2, 2)
    )];
    assert![matches!(
        v.resolve_sibling_offset(isize::MIN),
        SiblingIndex::Underflow
    )];
}

#[test]
fn sibling_index_tags_every_failure_distinctly() {
    assert![matches!(SiblingIndex::of(5, 2, 0), SiblingIndex::Valid(2))];
    assert![matches!(SiblingIndex::of(5, 2, -2), SiblingIndex::Valid(0))];
    assert![matches!(SiblingIndex::of(5, 2, 2), SiblingIndex::Valid(4))];
    assert![matches!(
        SiblingIndex::of(5, 2, -3),
        SiblingIndex::Underflow
    )];
    assert![matches!(
        SiblingIndex::of(5, usize::MAX, 1),
        SiblingIndex::Overflow
    )];
    assert![matches!(
        SiblingIndex::of(5, 2, 3),
        SiblingIndex::OutOfRange(5, 5)
    )];
    assert_eq![SiblingIndex::compute(5, 2, 3), None];
    assert_eq![SiblingIndex::compute(5, 2, 1), Some(3)];
}

#[test]
fn child_index_validates_against_count() {
    assert![matches!(ChildIndex::of(3, 2), ChildIndex::Valid(2))];
    assert![matches!(ChildIndex::of(3, 3), ChildIndex::OutOfRange(3, 3))];
    assert![matches!(ChildIndex::of(0, 0), ChildIndex::OutOfRange(0, 0))];
    assert_eq![ChildIndex::compute(3, 1), Some(1)];
    assert_eq![ChildIndex::compute(3, 7), None];
}

#[test]
fn editor_remove_focus_prefers_slide_in_sibling() {
    // removing the middle child leaves the focus on the node that slides in
    let t = Tree::new(1i64, vec![Tree::leaf(2), Tree::leaf(3), Tree::leaf(4)]);
    let mut e = t.view_mut();
    assert![e.seek_child(1)];
    let removed = e.remove();
    assert_eq![removed, Tree::leaf(3)];
    assert_eq![*e.data(), 4];
    assert_eq![e.into_tree(), Tree::new(1, vec![Tree::leaf(2), Tree::leaf(4)])];
}

#[test]
fn editor_remove_focus_falls_back_to_left_sibling() {
    let t = Tree::new(1i64, vec![Tree::leaf(2), Tree::leaf(3)]);
    let mut e = t.view_mut();
    assert![e.seek_child(1)];
    let removed = e.remove();
    assert_eq![removed, Tree::leaf(3)];
    assert_eq![*e.data(), 2];
}

#[test]
fn editor_remove_only_child_moves_to_parent() {
    let t = Tree::new(1i64, vec![Tree::leaf(2)]);
    let mut e = t.view_mut();
    assert![e.seek_child(0)];
    let removed = e.remove();
    assert_eq![removed, Tree::leaf(2)];
    assert![e.at_root()];
    assert_eq![e.into_tree(), Tree::leaf(1)];
}

#[test]
fn editor_sibling_edits() {
    let t = Tree::new(1i64, vec![Tree::leaf(2), Tree::leaf(3)]);
    let mut e = t.view_mut();
    assert![e.seek_child(0)];
    e.insert_sibling(2, Tree::leaf(9));
    assert_eq![*e.data(), 9];
    assert![e.to_parent()];
    assert![e.seek_child(0)];
    let removed = e.remove_sibling(1);
    assert_eq![removed, Tree::leaf(3)];
    assert_eq![*e.data(), 2];
    assert_eq![e.into_tree(), Tree::new(1, vec![Tree::leaf(2), Tree::leaf(9)])];
}

#[test]
fn editor_swaps() {
    let t = Tree::new(1i64, vec![Tree::leaf(2), Tree::leaf(3), Tree::leaf(4)]);
    let mut e = t.view_mut();
    e.swap_children(0, 2);
    assert_eq![
        e.into_tree(),
        Tree::new(1, vec![Tree::leaf(4), Tree::leaf(3), Tree::leaf(2)])
    ];

    let t = Tree::new(1i64, vec![Tree::leaf(2), Tree::leaf(3), Tree::leaf(4)]);
    let mut e = t.view_mut();
    assert![e.seek_child(0)];
    // the focus follows its node when a swap moves it
    e.swap_siblings(0, 2);
    assert_eq![*e.data(), 2];
    assert_eq![
        e.into_tree(),
        Tree::new(1, vec![Tree::leaf(4), Tree::leaf(3), Tree::leaf(2)])
    ];

    let t = Tree::new(1i64, vec![Tree::leaf(2)]);
    let mut e = t.view_mut();
    assert![e.seek_child(0)];
    let mut other = Tree::new(7, vec![Tree::leaf(8)]);
    e.swap(&mut other);
    assert_eq![other, Tree::leaf(2)];
    assert_eq![e.into_tree(), Tree::new(1, vec![Tree::new(7, vec![Tree::leaf(8)])])];
}

#[test]
fn editor_push_and_insert_leaves() {
    let t = Tree::leaf(1i64);
    let mut e = t.view_mut();
    e.push_leaf(2);
    assert_eq![*e.data(), 2];
    assert![e.to_parent()];
    e.insert_leaf(0, 0);
    assert_eq![*e.data(), 0];
    e.insert_sibling_leaf(2, 3);
    assert_eq![*e.data(), 3];
    assert_eq![
        e.into_tree(),
        Tree::new(1, vec![Tree::leaf(0), Tree::leaf(2), Tree::leaf(3)])
    ];
}
