use vstd::prelude::*;

use crate::model::TreeModel;
use crate::model::lemma_path_concat;
use crate::model::lemma_path_push;
use crate::model::lemma_update_at_concat;
use crate::util::ChildIndex;
use crate::util::SiblingIndex;
use crate::util::resolve_sibling;

verus! {

/// Single-ownership tree wherein a parent owns its children.
///
/// This tree structure keeps its children in a heap-allocated array, so
/// appending children is a cheap operation. Subtrees cannot be shared
/// between parents.
#[derive(Debug, PartialEq, Eq)]
pub struct Tree<T> {
    /// The data stored at this node.
    pub data: T,
    /// The child subtrees of this node, in order.
    pub children: Vec<Tree<T>>,
}

/// The models of a list of subtrees, in order.
pub open spec fn models_of<T>(v: Vec<Tree<T>>) -> Seq<TreeModel<T>>
    decreases v,
{
    Seq::new(
        v@.len(),
        |i: int|
            if 0 <= i < v@.len() {
                v[i].model()
            } else {
                arbitrary()
            },
    )
}

impl<T> Tree<T> {
    /// The mathematical value of this tree.
    pub open spec fn model(self) -> TreeModel<T>
        decreases self,
    {
        TreeModel { data: self.data, children: models_of(self.children) }
    }

    /// Creates a new tree with the given data and children.
    pub fn new(data: T, children: Vec<Tree<T>>) -> (t: Self)
        ensures
            t.model() == (TreeModel { data, children: models_of(children) }),
    {
        Tree { data, children }
    }

    /// Creates a new tree with the given data and no children.
    pub fn leaf(data: T) -> (t: Self)
        ensures
            t.model() == TreeModel::leaf(data),
    {
        let t = Tree { data, children: Vec::new() };
        proof {
            assert(t.model().children =~= Seq::<TreeModel<T>>::empty());
            assert(t.model() =~= TreeModel::leaf(data));
        }
        t
    }

    /// Appends `child` at the end of this node's children.
    pub fn push_child(&mut self, child: Tree<T>)
        ensures
            final(self).model() == old(self).model().pushed(child.model()),
    {
        self.children.push(child);
        proof {
            assert(final(self).model().children =~= old(self).model().children.push(child.model()));
            assert(final(self).model() =~= old(self).model().pushed(child.model()));
        }
    }

    /// Removes the child at the given index and drops it.
    pub fn remove_child(&mut self, index: usize)
        requires
            index < old(self).model().children.len(),
        ensures
            final(self).model() == old(self).model().removed(index as int),
    {
        self.children.remove(index);
        proof {
            assert(final(self).model().children =~= old(self).model().children.remove(index as int));
            assert(final(self).model() =~= old(self).model().removed(index as int));
        }
    }

    /// Inserts `child` at the given position among this node's children; the
    /// position may be the current child count, which appends.
    pub fn insert_child(&mut self, index: usize, child: Tree<T>)
        requires
            index <= old(self).model().children.len(),
        ensures
            final(self).model() == old(self).model().inserted(index as int, child.model()),
    {
        self.children.insert(index, child);
        proof {
            assert(final(self).model().children =~= old(self).model().children.insert(
                index as int,
                child.model(),
            ));
            assert(final(self).model() =~= old(self).model().inserted(index as int, child.model()));
        }
    }

    /// Decomposes this node into its data and its list of children.
    pub fn into_parts(self) -> (r: (T, Vec<Tree<T>>))
        ensures
            r.0 == self.model().data,
            models_of(r.1) == self.model().children,
    {
        (self.data, self.children)
    }

    /// A read-only cursor focused on the root of this tree.
    pub fn view<'s>(&'s self) -> (v: TreeView<'s, T>)
        ensures
            v.wf(),
            v.root_model() == self.model(),
            v.path_model() == Seq::<usize>::empty(),
    {
        let v = TreeView { root: self, path: Vec::new() };
        proof {
            assert(v.path@ =~= Seq::<usize>::empty());
        }
        v
    }

    /// A write cursor focused on the root of this tree. The editor takes the
    /// tree over; `into_tree` hands the edited tree back.
    pub fn view_mut(self) -> (e: TreeViewMut<T>)
        ensures
            e.wf(),
            e.root_model() == self.model(),
            e.path_model() == Seq::<usize>::empty(),
            e.focus() == self.model(),
    {
        let ghost gm = self.model();
        let Tree { data, children } = self;
        let e = TreeViewMut { data, children, path: Vec::new() };
        proof {
            assert(e.path@ =~= Seq::<Frame<T>>::empty());
            assert(e.path_model() =~= Seq::<usize>::empty());
            assert(e.focus() =~= gm);
        }
        e
    }
}

/// The node reached from `root` by following the first `upto` positions of
/// `path` downward.
fn node_at_prefix<'t, T>(root: &'t Tree<T>, path: &Vec<usize>, upto: usize) -> (r: &'t Tree<T>)
    requires
        upto <= path@.len(),
        root.model().path_ok(path@.take(upto as int)),
    ensures
        r.model() == root.model().subtree_at(path@.take(upto as int)),
{
    let mut cur: &Tree<T> = root;
    let mut j: usize = 0;
    proof {
        assert(path@.take(0) =~= Seq::<usize>::empty());
    }
    while j < upto
        invariant
            j <= upto <= path@.len(),
            root.model().path_ok(path@.take(upto as int)),
            root.model().path_ok(path@.take(j as int)),
            cur.model() == root.model().subtree_at(path@.take(j as int)),
        decreases upto - j,
    {
        let i = path[j];
        proof {
            let pre = path@.take(j as int);
            assert(path@.take((j + 1) as int) =~= pre.push(i));
            assert(path@.take(upto as int) =~= path@.take((j + 1) as int) + path@.skip(
                (j + 1) as int,
            ).take((upto - j - 1) as int));
            lemma_path_concat(
                root.model(),
                path@.take((j + 1) as int),
                path@.skip((j + 1) as int).take((upto - j - 1) as int),
            );
            lemma_path_push(root.model(), pre, i);
            assert(cur.model().children[i as int] == cur.children[i as int].model());
        }
        cur = &cur.children[i];
        j = j + 1;
    }
    proof {
        assert(path@.take(upto as int) =~= path@.take(j as int));
    }
    cur
}

/// The index that a signed offset addresses relative to `here`, computed
/// with checked arithmetic; the caller establishes that the exact sum stays
/// within the index range.
fn offset_target(here: usize, offset: isize) -> (r: usize)
    requires
        0 <= here as int + offset as int <= usize::MAX as int,
    ensures
        r as int == here as int + offset as int,
{
    if offset < 0 {
        let magnitude: usize = ((-(offset + 1)) as usize) + 1;
        here - magnitude
    } else {
        here + (offset as usize)
    }
}

/// A read-only, focus-based cursor over an owned tree.
///
/// The cursor records the path of child positions from the root of the tree
/// under view down to the focus; every navigation step is proved to keep
/// that record valid, so replaying the recorded path from the root always
/// reaches the focus.
pub struct TreeView<'a, T> {
    root: &'a Tree<T>,
    path: Vec<usize>,
}

impl<'a, T> TreeView<'a, T> {
    /// The model of the whole tree under view.
    pub closed spec fn root_model(self) -> TreeModel<T> {
        self.root.model()
    }

    /// The recorded path of child positions from the root to the focus.
    pub closed spec fn path_model(self) -> Seq<usize> {
        self.path@
    }

    /// Whether the recorded path is valid in the tree under view.
    pub closed spec fn wf(self) -> bool {
        self.root.model().path_ok(self.path@)
    }

    /// The node the cursor is focused on: the one the recorded path reaches.
    pub open spec fn focus(self) -> TreeModel<T> {
        self.root_model().subtree_at(self.path_model())
    }

    /// The tagged outcome that a sibling move by `offset` resolves to at the
    /// current focus: the root case when the path is empty, and checked
    /// index arithmetic against the focus's sibling count otherwise.
    pub open spec fn sibling_resolution(self, offset: isize) -> SiblingIndex {
        if self.path_model().len() == 0 {
            SiblingIndex::Root
        } else {
            resolve_sibling(
                self.root_model().subtree_at(self.path_model().drop_last()).children.len() as usize,
                self.path_model().last(),
                offset,
            )
        }
    }

    /// A borrow of the data at the focus node.
    pub fn data(&self) -> (r: &T)
        requires
            self.wf(),
        ensures
            *r == self.focus().data,
    {
        proof {
            assert(self.path@.take(self.path@.len() as int) =~= self.path@);
        }
        let node = node_at_prefix(self.root, &self.path, self.path.len());
        &node.data
    }

    /// The number of children of the focus node.
    pub fn child_count(&self) -> (r: usize)
        requires
            self.wf(),
        ensures
            r == self.focus().children.len(),
    {
        proof {
            assert(self.path@.take(self.path@.len() as int) =~= self.path@);
        }
        let node = node_at_prefix(self.root, &self.path, self.path.len());
        node.children.len()
    }

    /// Whether the focus node is a leaf, that is, has no children.
    pub fn at_leaf(&self) -> (r: bool)
        requires
            self.wf(),
        ensures
            r == (self.focus().children.len() == 0),
    {
        self.child_count() == 0
    }

    /// Whether the focus node is the root of the tree under view.
    pub fn at_root(&self) -> (r: bool)
        ensures
            r == (self.path_model().len() == 0),
    {
        self.path.len() == 0
    }

    /// The tagged outcome that a sibling move by `offset` would resolve to
    /// at the current focus, so that callers can tell the root case, the
    /// arithmetic faults, and an out-of-range index apart.
    pub fn resolve_sibling_offset(&self, offset: isize) -> (r: SiblingIndex)
        requires
            self.wf(),
        ensures
            r == self.sibling_resolution(offset),
    {
        if self.path.len() == 0 {
            SiblingIndex::Root
        } else {
            proof {
                let p = self.path@;
                assert(p.drop_last() + seq![p.last()] =~= p);
                lemma_path_concat(self.root.model(), p.drop_last(), seq![p.last()]);
            }
            let here = self.path[self.path.len() - 1];
            let parent = node_at_prefix(self.root, &self.path, self.path.len() - 1);
            proof {
                assert(self.path@.take(self.path@.len() - 1) =~= self.path@.drop_last());
            }
            SiblingIndex::of(parent.children.len(), here, offset)
        }
    }

    /// Moves the focus to the child at the given index; on an out-of-range
    /// index the cursor reports failure and is left unchanged.
    pub fn seek_child(&mut self, index: usize) -> (r: bool)
        requires
            old(self).wf(),
        ensures
            final(self).wf(),
            final(self).root_model() == old(self).root_model(),
            r == (index < old(self).focus().children.len()),
            r ==> final(self).path_model() == old(self).path_model().push(index),
            r ==> final(self).focus() == old(self).focus().children[index as int],
            !r ==> final(self).path_model() == old(self).path_model(),
    {
        proof {
            assert(self.path@.take(self.path@.len() as int) =~= self.path@);
        }
        let node = node_at_prefix(self.root, &self.path, self.path.len());
        match ChildIndex::of(node.children.len(), index) {
            ChildIndex::Valid(new_index) => {
                proof {
                    lemma_path_push(self.root.model(), old(self).path@, index);
                }
                self.path.push(new_index);
                true
            },
            ChildIndex::OutOfRange(_, _) => false,
        }
    }

    /// Moves the focus to the sibling at the given signed offset. A zero
    /// offset always succeeds and leaves the cursor unchanged, even at the
    /// root; any other failure also leaves the cursor unchanged.
    pub fn seek_sibling(&mut self, offset: isize) -> (r: bool)
        requires
            old(self).wf(),
        ensures
            final(self).wf(),
            final(self).root_model() == old(self).root_model(),
            r == (old(self).sibling_resolution(offset) is Valid || (old(self).path_model().len()
                == 0 && offset == 0)),
            old(self).sibling_resolution(offset) matches SiblingIndex::Valid(k)
                ==> final(self).path_model() == old(self).path_model().drop_last().push(k),
            offset == 0 || !r ==> final(self).path_model() == old(self).path_model(),
    {
        if self.path.len() == 0 {
            return offset == 0;
        }
        proof {
            let p = self.path@;
            assert(p =~= p.drop_last().push(p.last()));
            assert(p.drop_last() + seq![p.last()] =~= p);
            lemma_path_concat(self.root.model(), p.drop_last(), seq![p.last()]);
        }
        let here = self.path[self.path.len() - 1];
        let parent = node_at_prefix(self.root, &self.path, self.path.len() - 1);
        proof {
            assert(self.path@.take(self.path@.len() - 1) =~= self.path@.drop_last());
        }
        match SiblingIndex::of(parent.children.len(), here, offset) {
            SiblingIndex::Valid(new_index) => {
                if new_index == here {
                    proof {
                        assert(self.path@.drop_last().push(new_index) =~= self.path@);
                    }
                    return true;
                }
                let _ = self.path.pop();
                self.path.push(new_index);
                proof {
                    assert(final(self).path@ =~= old(self).path@.drop_last().push(new_index));
                    lemma_path_push(self.root.model(), old(self).path@.drop_last(), new_index);
                }
                true
            },
            _ => false,
        }
    }

    /// Moves the focus to the parent of the focus node; at the root the
    /// cursor reports failure and is left unchanged.
    pub fn to_parent(&mut self) -> (r: bool)
        requires
            old(self).wf(),
        ensures
            final(self).wf(),
            final(self).root_model() == old(self).root_model(),
            r == (old(self).path_model().len() > 0),
            r ==> final(self).path_model() == old(self).path_model().drop_last(),
            !r ==> final(self).path_model() == old(self).path_model(),
    {
        proof {
            if self.path@.len() > 0 {
                let p = self.path@;
                assert(p.drop_last() + seq![p.last()] =~= p);
                lemma_path_concat(self.root.model(), p.drop_last(), seq![p.last()]);
            }
        }
        match self.path.pop() {
            Some(_) => true,
            None => false,
        }
    }

    /// Moves the focus back to the root of the tree under view in one step.
    /// At the root this is a no-op.
    pub fn to_root(&mut self)
        ensures
            final(self).wf(),
            final(self).root_model() == old(self).root_model(),
            final(self).path_model() == Seq::<usize>::empty(),
    {
        self.path.clear();
        proof {
            assert(final(self).path@ =~= Seq::<usize>::empty());
        }
    }
}

impl<'a, T> Clone for TreeView<'a, T> {
    /// Forks an independent cursor at the same focus in the same tree.
    fn clone(&self) -> (r: Self)
        ensures
            r.root_model() == self.root_model(),
            r.path_model() == self.path_model(),
            r.wf() == self.wf(),
    {
        let mut path: Vec<usize> = Vec::new();
        let mut j: usize = 0;
        while j < self.path.len()
            invariant
                j <= self.path@.len(),
                path@ =~= self.path@.take(j as int),
            decreases self.path@.len() - j,
        {
            path.push(self.path[j]);
            j = j + 1;
        }
        proof {
            assert(path@ =~= self.path@);
        }
        TreeView { root: self.root, path }
    }
}

/// Path-reconstruction invariant of the read cursor: on a well-formed
/// cursor, the recorded path is valid in the tree under view, and replaying
/// it from the root reaches exactly the focus node.
pub proof fn lemma_view_path_reconstruction<'a, T>(v: TreeView<'a, T>)
    requires
        v.wf(),
    ensures
        v.root_model().path_ok(v.path_model()),
        v.root_model().subtree_at(v.path_model()) == v.focus(),
{
}

/// One saved level of a write cursor: the parent node with the focused
/// child taken out of its child list, and the position that child had among
/// its siblings.
struct Frame<T> {
    rest: Tree<T>,
    index: usize,
}

impl<T> Frame<T> {
    /// The recorded position can take a focus back into the sibling list,
    /// and putting it back cannot outgrow the index range.
    spec fn wf(self) -> bool {
        &&& self.index <= self.rest.children@.len()
        &&& self.rest.children@.len() < usize::MAX
    }

    /// The parent node obtained by putting `f` back at the recorded
    /// position.
    spec fn wrap(self, f: TreeModel<T>) -> TreeModel<T> {
        TreeModel {
            data: self.rest.data,
            children: self.rest.model().children.insert(self.index as int, f),
        }
    }
}

/// The tree reassembled around `f` by wrapping the recorded frames from the
/// innermost one outward.
spec fn rebuild<T>(frames: Seq<Frame<T>>, f: TreeModel<T>) -> TreeModel<T>
    decreases frames.len(),
{
    if frames.len() == 0 {
        f
    } else {
        rebuild(frames.drop_last(), frames.last().wrap(f))
    }
}

/// The child positions the frames record, from the root downward.
spec fn indices_of<T>(frames: Seq<Frame<T>>) -> Seq<usize> {
    frames.map_values(|fr: Frame<T>| fr.index)
}

spec fn frames_wf<T>(frames: Seq<Frame<T>>) -> bool {
    forall|k: int| 0 <= k < frames.len() ==> (#[trigger] frames[k]).wf()
}

/// In the reassembled tree, the recorded positions form a valid path, and
/// that path leads back to exactly the node the frames were built around.
proof fn lemma_rebuild_path<T>(frames: Seq<Frame<T>>, f: TreeModel<T>)
    requires
        frames_wf(frames),
    ensures
        rebuild(frames, f).path_ok(indices_of(frames)),
        rebuild(frames, f).subtree_at(indices_of(frames)) == f,
    decreases frames.len(),
{
    if frames.len() == 0 {
        assert(indices_of(frames) =~= Seq::<usize>::empty());
    } else {
        let fr = frames.last();
        let fs = frames.drop_last();
        let w = fr.wrap(f);
        assert(frames_wf(fs));
        lemma_rebuild_path(fs, w);
        assert(indices_of(frames) =~= indices_of(fs).push(fr.index));
        assert(w.children[fr.index as int] == f);
        lemma_path_push(rebuild(fs, w), indices_of(fs), fr.index);
    }
}

/// Rebuilding the same frames around another node gives the reassembled
/// tree with the node at the recorded path replaced.
proof fn lemma_rebuild_update<T>(frames: Seq<Frame<T>>, f: TreeModel<T>, g: TreeModel<T>)
    requires
        frames_wf(frames),
    ensures
        rebuild(frames, g) == rebuild(frames, f).update_at(indices_of(frames), g),
    decreases frames.len(),
{
    if frames.len() == 0 {
        assert(indices_of(frames) =~= Seq::<usize>::empty());
    } else {
        let fr = frames.last();
        let fs = frames.drop_last();
        assert(frames_wf(fs));
        lemma_rebuild_update(fs, fr.wrap(f), fr.wrap(g));
        let big = rebuild(fs, fr.wrap(f));
        lemma_rebuild_path(fs, fr.wrap(f));
        assert(indices_of(frames) =~= indices_of(fs) + seq![fr.index]);
        lemma_update_at_concat(big, indices_of(fs), seq![fr.index], g);
        let w = fr.wrap(f);
        let i = fr.index;
        assert(seq![i][0] == i);
        assert(seq![i].drop_first() =~= Seq::<usize>::empty());
        assert(w.children[i as int] == f);
        assert(w.children[i as int].update_at(Seq::<usize>::empty(), g) == g);
        assert(w.update_at(seq![i], g).children =~= fr.wrap(g).children);
        assert(w.update_at(seq![i], g) =~= fr.wrap(g));
    }
}

/// A focus-based write cursor that owns the tree it edits.
///
/// The cursor keeps the focus node dissected into its data and children and
/// keeps, for every ancestor, the ancestor node with the focused child taken
/// out together with the child's position. Reassembling those frames around
/// the focus yields the whole tree; every operation states how it changes
/// that reassembled tree, the recorded path, and the focus.
pub struct TreeViewMut<T> {
    data: T,
    children: Vec<Tree<T>>,
    path: Vec<Frame<T>>,
}

impl<T> TreeViewMut<T> {
    /// All recorded frames are internally consistent.
    pub closed spec fn wf(self) -> bool {
        frames_wf(self.path@)
    }

    /// The node the editor is focused on.
    pub closed spec fn focus(self) -> TreeModel<T> {
        TreeModel { data: self.data, children: models_of(self.children) }
    }

    /// The recorded child positions from the root down to the focus.
    pub closed spec fn path_model(self) -> Seq<usize> {
        indices_of(self.path@)
    }

    /// The whole tree, reassembled around the focus.
    pub closed spec fn root_model(self) -> TreeModel<T> {
        rebuild(self.path@, self.focus())
    }

    /// The parent of the focus node.
    pub open spec fn parent_model(self) -> TreeModel<T>
        recommends
            self.path_model().len() > 0,
    {
        self.root_model().subtree_at(self.path_model().drop_last())
    }

    /// The position of the focus among its siblings.
    pub open spec fn here_index(self) -> usize
        recommends
            self.path_model().len() > 0,
    {
        self.path_model().last()
    }

    /// The tagged outcome that a sibling move by `offset` resolves to at the
    /// current focus: the root case when the path is empty, and checked
    /// index arithmetic against the focus's sibling count otherwise.
    pub open spec fn sibling_resolution(self, offset: isize) -> SiblingIndex {
        if self.path_model().len() == 0 {
            SiblingIndex::Root
        } else {
            resolve_sibling(self.parent_model().children.len() as usize, self.here_index(), offset)
        }
    }

    /// Whether the focus node is the root of the edited tree.
    pub fn at_root(&self) -> (r: bool)
        ensures
            r == (self.path_model().len() == 0),
    {
        self.path.len() == 0
    }

    /// The tagged outcome that a sibling move by `offset` would resolve to
    /// at the current focus, so that callers can tell the root case, the
    /// arithmetic faults, and an out-of-range index apart.
    pub fn resolve_sibling_offset(&self, offset: isize) -> (r: SiblingIndex)
        requires
            self.wf(),
        ensures
            r == self.sibling_resolution(offset),
    {
        if self.path.len() == 0 {
            SiblingIndex::Root
        } else {
            proof {
                assert(self.path_model().len() == self.path@.len());
                lemma_parent_shape(*self);
            }
            let last = self.path.len() - 1;
            let here = self.path[last].index;
            let count = self.path[last].rest.children.len() + 1;
            SiblingIndex::of(count, here, offset)
        }
    }

    /// Moves the focus to the sibling at the given signed offset. A zero
    /// offset always succeeds and leaves the cursor unchanged, even at the
    /// root; any other failure also leaves the cursor unchanged.
    pub fn seek_sibling(&mut self, offset: isize) -> (r: bool)
        requires
            old(self).wf(),
        ensures
            final(self).wf(),
            final(self).root_model() == old(self).root_model(),
            r == (old(self).sibling_resolution(offset) is Valid || (old(self).path_model().len()
                == 0 && offset == 0)),
            old(self).sibling_resolution(offset) matches SiblingIndex::Valid(k)
                ==> final(self).path_model() == old(self).path_model().drop_last().push(k),
            old(self).sibling_resolution(offset) matches SiblingIndex::Valid(k)
                ==> final(self).focus() == old(self).parent_model().children[k as int],
            offset == 0 || !r ==> final(self).path_model() == old(self).path_model()
                && final(self).focus() == old(self).focus(),
    {
        if self.path.len() == 0 {
            return offset == 0;
        }
        proof {
            assert(self.path_model().len() == self.path@.len());
            lemma_parent_shape(*old(self));
        }
        let here = self.path[self.path.len() - 1].index;
        match self.resolve_sibling_offset(offset) {
            SiblingIndex::Valid(k) => {
                if k == here {
                    proof {
                        assert(old(self).path_model().drop_last().push(k) =~= old(
                            self,
                        ).path_model());
                    }
                    return true;
                }
                let _ = self.to_parent();
                let _ = self.seek_child(k);
                true
            },
            _ => false,
        }
    }

    /// A borrow of the data at the focus node.
    pub fn data(&self) -> (r: &T)
        ensures
            *r == self.focus().data,
    {
        &self.data
    }

    /// The number of children of the focus node.
    pub fn child_count(&self) -> (r: usize)
        ensures
            r == self.focus().children.len(),
    {
        self.children.len()
    }

    /// Whether the focus node is a leaf, that is, has no children.
    pub fn at_leaf(&self) -> (r: bool)
        ensures
            r == (self.focus().children.len() == 0),
    {
        self.children.len() == 0
    }

    /// Moves the focus to the child at the given index; on an out-of-range
    /// index the cursor reports failure and is left unchanged.
    pub fn seek_child(&mut self, index: usize) -> (r: bool)
        requires
            old(self).wf(),
        ensures
            final(self).wf(),
            final(self).root_model() == old(self).root_model(),
            r == (index < old(self).focus().children.len()),
            r ==> final(self).path_model() == old(self).path_model().push(index),
            r ==> final(self).focus() == old(self).focus().children[index as int],
            !r ==> final(self).path_model() == old(self).path_model() && final(self).focus()
                == old(self).focus(),
    {
        match ChildIndex::of(self.children.len(), index) {
            ChildIndex::Valid(i) => {
                let mut child = self.children.remove(i);
                core::mem::swap(&mut self.data, &mut child.data);
                core::mem::swap(&mut self.children, &mut child.children);
                proof {
                    assert(models_of(old(self).children)[i as int] == old(
                        self,
                    ).children[i as int].model());
                    assert(self.focus() =~= old(self).children[i as int].model());
                }
                let ghost pre = self.path@;
                self.path.push(Frame { rest: child, index: i });
                proof {
                    let fr = self.path@.last();
                    assert(models_of(fr.rest.children) =~= models_of(old(self).children).remove(
                        i as int,
                    ));
                    assert(models_of(fr.rest.children).insert(i as int, self.focus()) =~= models_of(
                        old(self).children,
                    ));
                    assert(fr.wrap(self.focus()) =~= old(self).focus());
                    assert(self.path@.drop_last() =~= pre);
                    assert(frames_wf(self.path@));
                    assert(self.root_model() == rebuild(pre, old(self).focus()));
                    assert(self.path_model() =~= old(self).path_model().push(index));
                }
                true
            },
            ChildIndex::OutOfRange(_, _) => false,
        }
    }

    /// Moves the focus to the parent of the focus node; at the root the
    /// cursor reports failure and is left unchanged.
    pub fn to_parent(&mut self) -> (r: bool)
        requires
            old(self).wf(),
        ensures
            final(self).wf(),
            final(self).root_model() == old(self).root_model(),
            r == (old(self).path_model().len() > 0),
            r ==> final(self).path_model() == old(self).path_model().drop_last(),
            r ==> final(self).focus() == old(self).parent_model(),
            !r ==> final(self).path_model() == old(self).path_model() && final(self).focus()
                == old(self).focus(),
    {
        match self.path.pop() {
            None => false,
            Some(frame) => {
                let Frame { rest: mut node, index } = frame;
                core::mem::swap(&mut self.data, &mut node.data);
                core::mem::swap(&mut self.children, &mut node.children);
                proof {
                    assert(node.model() =~= old(self).focus());
                }
                self.children.insert(index, node);
                proof {
                    let fr = old(self).path@.last();
                    assert(self.path@ =~= old(self).path@.drop_last());
                    assert(frames_wf(self.path@));
                    assert(models_of(self.children) =~= models_of(fr.rest.children).insert(
                        index as int,
                        old(self).focus(),
                    ));
                    assert(self.focus() =~= fr.wrap(old(self).focus()));
                    lemma_rebuild_path(self.path@, self.focus());
                    assert(indices_of(old(self).path@).drop_last() =~= indices_of(self.path@));
                }
                true
            },
        }
    }

    /// Moves the focus back to the root of the edited tree. At the root this
    /// is a no-op.
    pub fn to_root(&mut self)
        requires
            old(self).wf(),
        ensures
            final(self).wf(),
            final(self).root_model() == old(self).root_model(),
            final(self).path_model() == Seq::<usize>::empty(),
            final(self).focus() == old(self).root_model(),
    {
        while self.path.len() != 0
            invariant
                self.wf(),
                self.root_model() == old(self).root_model(),
            decreases self.path@.len(),
        {
            let ghost plen = self.path_model().len();
            proof {
                assert(plen == self.path@.len());
            }
            let _ = self.to_parent();
            proof {
                assert(self.path_model().len() == self.path@.len());
            }
        }
        proof {
            assert(self.path_model() =~= Seq::<usize>::empty());
        }
    }

    /// Replaces the data at the focus node; the subtrees below it stay as
    /// they are.
    pub fn set_data(&mut self, data: T)
        requires
            old(self).wf(),
        ensures
            final(self).wf(),
            final(self).focus() == (TreeModel { data, children: old(self).focus().children }),
            final(self).path_model() == old(self).path_model(),
            final(self).root_model() == old(self).root_model().update_at(
                old(self).path_model(),
                (TreeModel { data, children: old(self).focus().children }),
            ),
    {
        self.data = data;
        proof {
            lemma_rebuild_update(self.path@, old(self).focus(), self.focus());
        }
    }

    /// Appends `child` as the last child of the focus node and moves the
    /// focus onto it.
    pub fn push_child(&mut self, child: Tree<T>)
        requires
            old(self).wf(),
        ensures
            final(self).wf(),
            final(self).root_model() == old(self).root_model().update_at(
                old(self).path_model(),
                old(self).focus().pushed(child.model()),
            ),
            final(self).path_model() == old(self).path_model().push(
                old(self).focus().children.len() as usize,
            ),
            final(self).focus() == child.model(),
    {
        let ghost cm = child.model();
        let n = self.children.len();
        self.children.push(child);
        proof {
            assert(models_of(self.children) =~= models_of(old(self).children).push(cm));
            assert(self.focus() =~= old(self).focus().pushed(cm));
            lemma_rebuild_update(self.path@, old(self).focus(), self.focus());
        }
        let _ = self.seek_child(n);
    }

    /// Appends a new leaf with the given data as the last child of the focus
    /// node and moves the focus onto it.
    pub fn push_leaf(&mut self, data: T)
        requires
            old(self).wf(),
        ensures
            final(self).wf(),
            final(self).root_model() == old(self).root_model().update_at(
                old(self).path_model(),
                old(self).focus().pushed(TreeModel::leaf(data)),
            ),
            final(self).path_model() == old(self).path_model().push(
                old(self).focus().children.len() as usize,
            ),
            final(self).focus() == TreeModel::leaf(data),
    {
        self.push_child(Tree::leaf(data));
    }

    /// Inserts `child` at the given position among the focus node's children
    /// and moves the focus onto it; the position may be the current child
    /// count, which appends.
    pub fn insert_child(&mut self, index: usize, child: Tree<T>)
        requires
            old(self).wf(),
            index <= old(self).focus().children.len(),
        ensures
            final(self).wf(),
            final(self).root_model() == old(self).root_model().update_at(
                old(self).path_model(),
                old(self).focus().inserted(index as int, child.model()),
            ),
            final(self).path_model() == old(self).path_model().push(index),
            final(self).focus() == child.model(),
    {
        let ghost cm = child.model();
        self.children.insert(index, child);
        proof {
            assert(models_of(self.children) =~= models_of(old(self).children).insert(
                index as int,
                cm,
            ));
            assert(self.focus() =~= old(self).focus().inserted(index as int, cm));
            lemma_rebuild_update(self.path@, old(self).focus(), self.focus());
        }
        let _ = self.seek_child(index);
    }

    /// Inserts a new leaf with the given data at the given position among
    /// the focus node's children and moves the focus onto it.
    pub fn insert_leaf(&mut self, index: usize, data: T)
        requires
            old(self).wf(),
            index <= old(self).focus().children.len(),
        ensures
            final(self).wf(),
            final(self).root_model() == old(self).root_model().update_at(
                old(self).path_model(),
                old(self).focus().inserted(index as int, TreeModel::leaf(data)),
            ),
            final(self).path_model() == old(self).path_model().push(index),
            final(self).focus() == TreeModel::leaf(data),
    {
        self.insert_child(index, Tree::leaf(data));
    }

    /// Inserts `sibling` at the position the given offset addresses relative
    /// to the focus and moves the focus onto it. The slot one past the last
    /// sibling is allowed, which appends. Invalid at the root.
    pub fn insert_sibling(&mut self, offset: isize, sibling: Tree<T>)
        requires
            old(self).wf(),
            old(self).path_model().len() > 0,
            0 <= old(self).here_index() as int + offset as int <= old(
                self,
            ).parent_model().children.len(),
        ensures
            final(self).wf(),
            final(self).root_model() == old(self).root_model().update_at(
                old(self).path_model().drop_last(),
                old(self).parent_model().inserted(
                    old(self).here_index() as int + offset as int,
                    sibling.model(),
                ),
            ),
            final(self).path_model() == old(self).path_model().drop_last().push(
                ((old(self).here_index() as int + offset as int) as usize),
            ),
            final(self).focus() == sibling.model(),
    {
        proof {
            lemma_parent_shape(*old(self));
        }
        let here = self.path[self.path.len() - 1].index;
        let c = offset_target(here, offset);
        let _ = self.to_parent();
        self.insert_child(c, sibling);
    }

    /// Inserts a new leaf with the given data at the position the given
    /// offset addresses relative to the focus and moves the focus onto it.
    pub fn insert_sibling_leaf(&mut self, offset: isize, data: T)
        requires
            old(self).wf(),
            old(self).path_model().len() > 0,
            0 <= old(self).here_index() as int + offset as int <= old(
                self,
            ).parent_model().children.len(),
        ensures
            final(self).wf(),
            final(self).root_model() == old(self).root_model().update_at(
                old(self).path_model().drop_last(),
                old(self).parent_model().inserted(
                    old(self).here_index() as int + offset as int,
                    TreeModel::leaf(data),
                ),
            ),
            final(self).path_model() == old(self).path_model().drop_last().push(
                ((old(self).here_index() as int + offset as int) as usize),
            ),
            final(self).focus() == TreeModel::leaf(data),
    {
        self.insert_sibling(offset, Tree::leaf(data));
    }

    /// Removes the focus node and returns the subtree rooted at it. The
    /// focus moves to the sibling that slides into the vacated position if
    /// one exists, otherwise to the last remaining sibling, otherwise to the
    /// parent. The root cannot be removed.
    pub fn remove(&mut self) -> (removed: Tree<T>)
        requires
            old(self).wf(),
            old(self).path_model().len() > 0,
        ensures
            final(self).wf(),
            removed.model() == old(self).focus(),
            final(self).root_model() == old(self).root_model().update_at(
                old(self).path_model().drop_last(),
                old(self).parent_model().removed(old(self).here_index() as int),
            ),
            ({
                let parent = old(self).parent_model().removed(old(self).here_index() as int);
                let h = old(self).here_index() as int;
                if parent.children.len() == 0 {
                    final(self).path_model() == old(self).path_model().drop_last()
                        && final(self).focus() == parent
                } else {
                    let k = if h < parent.children.len() {
                        h
                    } else {
                        parent.children.len() - 1
                    };
                    final(self).path_model() == old(self).path_model().drop_last().push(k as usize)
                        && final(self).focus() == parent.children[k]
                }
            }),
    {
        proof {
            lemma_parent_shape(*old(self));
            assert(old(self).path_model().len() == old(self).path@.len());
        }
        let frame = self.path.pop().unwrap();
        let Frame { rest: mut node, index } = frame;
        core::mem::swap(&mut self.data, &mut node.data);
        core::mem::swap(&mut self.children, &mut node.children);
        proof {
            let fr = old(self).path@.last();
            assert(node.model() =~= old(self).focus());
            assert(self.path@ =~= old(self).path@.drop_last());
            assert(frames_wf(self.path@));
            assert(fr.wrap(old(self).focus()).children.remove(index as int) =~= models_of(
                fr.rest.children,
            ));
            assert(self.focus() =~= fr.wrap(old(self).focus()).removed(index as int));
            assert(old(self).root_model() == rebuild(self.path@, fr.wrap(old(self).focus())));
            assert(indices_of(self.path@) =~= old(self).path_model().drop_last());
            lemma_rebuild_update(self.path@, fr.wrap(old(self).focus()), self.focus());
        }
        if self.children.len() > 0 {
            let k = if index < self.children.len() {
                index
            } else {
                self.children.len() - 1
            };
            let _ = self.seek_child(k);
        }
        node
    }

    /// Removes the child of the focus node at the given index and returns
    /// the subtree rooted at it; the focus does not move.
    pub fn remove_child(&mut self, index: usize) -> (removed: Tree<T>)
        requires
            old(self).wf(),
            index < old(self).focus().children.len(),
        ensures
            final(self).wf(),
            removed.model() == old(self).focus().children[index as int],
            final(self).path_model() == old(self).path_model(),
            final(self).focus() == old(self).focus().removed(index as int),
            final(self).root_model() == old(self).root_model().update_at(
                old(self).path_model(),
                old(self).focus().removed(index as int),
            ),
    {
        let removed = self.children.remove(index);
        proof {
            assert(models_of(old(self).children)[index as int] == old(
                self,
            ).children[index as int].model());
            assert(models_of(self.children) =~= models_of(old(self).children).remove(index as int));
            assert(self.focus() =~= old(self).focus().removed(index as int));
            lemma_rebuild_update(self.path@, old(self).focus(), self.focus());
        }
        removed
    }

    /// Removes the sibling the given offset addresses and returns the
    /// subtree rooted at it. A zero offset removes the focus node itself and
    /// behaves as `remove`; otherwise the focus stays on the same node.
    pub fn remove_sibling(&mut self, offset: isize) -> (removed: Tree<T>)
        requires
            old(self).wf(),
            old(self).path_model().len() > 0,
            old(self).sibling_resolution(offset) is Valid,
        ensures
            final(self).wf(),
            removed.model() == old(self).parent_model().children[old(self).here_index() as int
                + offset as int],
            final(self).root_model() == old(self).root_model().update_at(
                old(self).path_model().drop_last(),
                old(self).parent_model().removed(
                    old(self).here_index() as int + offset as int,
                ),
            ),
            offset == 0 ==> ({
                let parent = old(self).parent_model().removed(old(self).here_index() as int);
                let h = old(self).here_index() as int;
                if parent.children.len() == 0 {
                    final(self).path_model() == old(self).path_model().drop_last()
                        && final(self).focus() == parent
                } else {
                    let k = if h < parent.children.len() {
                        h
                    } else {
                        parent.children.len() - 1
                    };
                    final(self).path_model() == old(self).path_model().drop_last().push(k as usize)
                        && final(self).focus() == parent.children[k]
                }
            }),
            offset != 0 ==> ({
                let s = old(self).here_index() as int + offset as int;
                let h = old(self).here_index() as int;
                &&& final(self).focus() == old(self).focus()
                &&& final(self).path_model() == old(self).path_model().drop_last().push(
                    (if s < h {
                        h - 1
                    } else {
                        h
                    }) as usize,
                )
            }),
    {
        proof {
            lemma_parent_shape(*old(self));
            assert(old(self).path_model().len() == old(self).path@.len());
        }
        if offset == 0 {
            proof {
                let fr = old(self).path@.last();
                assert(old(self).parent_model().children[old(self).here_index() as int] == old(
                    self,
                ).focus());
            }
            return self.remove();
        }
        let here = self.path[self.path.len() - 1].index;
        let s = offset_target(here, offset);
        let frame = self.path.pop().unwrap();
        let Frame { rest: mut node, index } = frame;
        let pos = if s < here {
            s
        } else {
            s - 1
        };
        let ghost restm = models_of(node.children);
        let removed = node.children.remove(pos);
        let new_here = if s < here {
            here - 1
        } else {
            here
        };
        self.path.push(Frame { rest: node, index: new_here });
        proof {
            let fr = old(self).path@.last();
            let h = here as int;
            let f = old(self).focus();
            assert(models_of(old(self).path@.last().rest.children) == restm);
            assert(removed.model() == restm[pos as int]);
            assert(fr.wrap(f).children[s as int] == restm[pos as int]);
            let nfr = self.path@.last();
            assert(models_of(nfr.rest.children) =~= restm.remove(pos as int));
            assert(nfr.wrap(f).children =~= fr.wrap(f).children.remove(s as int));
            assert(nfr.wrap(f) =~= fr.wrap(f).removed(s as int));
            assert(self.path@.drop_last() =~= old(self).path@.drop_last());
            assert(frames_wf(self.path@));
            assert(self.root_model() == rebuild(old(self).path@.drop_last(), nfr.wrap(f)));
            assert(old(self).root_model() == rebuild(old(self).path@.drop_last(), fr.wrap(f)));
            assert(indices_of(old(self).path@.drop_last()) =~= old(self).path_model().drop_last());
            lemma_rebuild_update(old(self).path@.drop_last(), fr.wrap(f), nfr.wrap(f));
            assert(self.path_model() =~= old(self).path_model().drop_last().push(new_here));
        }
        removed
    }

    /// Exchanges the focus subtree and the given tree in place, in constant
    /// time.
    pub fn swap(&mut self, other: &mut Tree<T>)
        requires
            old(self).wf(),
        ensures
            final(self).wf(),
            final(other).model() == old(self).focus(),
            final(self).focus() == old(other).model(),
            final(self).path_model() == old(self).path_model(),
            final(self).root_model() == old(self).root_model().update_at(
                old(self).path_model(),
                old(other).model(),
            ),
    {
        core::mem::swap(&mut self.data, &mut other.data);
        core::mem::swap(&mut self.children, &mut other.children);
        proof {
            assert(other.model() =~= old(self).focus());
            assert(self.focus() =~= old(other).model());
            lemma_rebuild_update(self.path@, old(self).focus(), self.focus());
        }
    }

    /// Exchanges the children of the focus node at the two given indices.
    /// Equal indices are a no-op.
    pub fn swap_children(&mut self, index_a: usize, index_b: usize)
        requires
            old(self).wf(),
            index_a < old(self).focus().children.len(),
            index_b < old(self).focus().children.len(),
        ensures
            final(self).wf(),
            final(self).path_model() == old(self).path_model(),
            final(self).focus() == old(self).focus().swapped(index_a as int, index_b as int),
            final(self).root_model() == old(self).root_model().update_at(
                old(self).path_model(),
                old(self).focus().swapped(index_a as int, index_b as int),
            ),
    {
        let ghost f = old(self).focus();
        if index_a != index_b {
            let lo = if index_a < index_b {
                index_a
            } else {
                index_b
            };
            let hi = if index_a < index_b {
                index_b
            } else {
                index_a
            };
            let t_hi = self.children.remove(hi);
            let t_lo = self.children.remove(lo);
            self.children.insert(lo, t_hi);
            self.children.insert(hi, t_lo);
            proof {
                assert(self.children@ =~= old(self).children@.update(
                    lo as int,
                    old(self).children@[hi as int],
                ).update(hi as int, old(self).children@[lo as int]));
                assert(models_of(self.children) =~= f.swapped(index_a as int, index_b as int).children);
                assert(self.focus() =~= f.swapped(index_a as int, index_b as int));
            }
        } else {
            proof {
                assert(f.swapped(index_a as int, index_b as int).children =~= f.children);
                assert(f.swapped(index_a as int, index_b as int) =~= f);
            }
        }
        proof {
            lemma_rebuild_update(self.path@, f, self.focus());
        }
    }

    /// Exchanges the siblings the two given offsets address. Equal offsets
    /// are a no-op. If either offset addresses the focus itself, the focus
    /// follows that node to its new position.
    pub fn swap_siblings(&mut self, offset_a: isize, offset_b: isize)
        requires
            old(self).wf(),
            old(self).path_model().len() > 0,
            old(self).sibling_resolution(offset_a) is Valid,
            old(self).sibling_resolution(offset_b) is Valid,
        ensures
            final(self).wf(),
            final(self).focus() == old(self).focus(),
            final(self).root_model() == old(self).root_model().update_at(
                old(self).path_model().drop_last(),
                old(self).parent_model().swapped(
                    old(self).here_index() as int + offset_a as int,
                    old(self).here_index() as int + offset_b as int,
                ),
            ),
            final(self).path_model() == old(self).path_model().drop_last().push(
                ({
                    let h = old(self).here_index() as int;
                    let a = h + offset_a as int;
                    let b = h + offset_b as int;
                    (if h == a {
                        b
                    } else if h == b {
                        a
                    } else {
                        h
                    }) as usize
                }),
            ),
    {
        proof {
            lemma_parent_shape(*old(self));
            assert(old(self).path_model().len() == old(self).path@.len());
        }
        let here = self.path[self.path.len() - 1].index;
        let a = offset_target(here, offset_a);
        let b = offset_target(here, offset_b);
        let new_here = if here == a {
            b
        } else if here == b {
            a
        } else {
            here
        };
        let ghost f = old(self).focus();
        let ghost parent = old(self).parent_model();
        let _ = self.to_parent();
        self.swap_children(a, b);
        let _ = self.seek_child(new_here);
        proof {
            assert(parent.swapped(a as int, b as int).children[new_here as int] == f);
        }
    }

    /// Finishes editing: moves the focus back to the root and hands the
    /// whole edited tree back.
    pub fn into_tree(self) -> (t: Tree<T>)
        requires
            self.wf(),
        ensures
            t.model() == self.root_model(),
    {
        let mut e = self;
        e.to_root();
        let ghost gfocus = e.focus();
        let ghost groot = e.root_model();
        proof {
            assert(e.path_model().len() == e.path@.len());
            assert(groot == gfocus);
        }
        let TreeViewMut { data, children, path: _ } = e;
        let t = Tree { data, children };
        proof {
            assert(t.model() =~= gfocus);
        }
        t
    }
}

/// The parent of a non-root focus is the innermost recorded frame put back
/// around the focus: same data, with the focus at the recorded position.
proof fn lemma_parent_shape<T>(e: TreeViewMut<T>)
    requires
        e.wf(),
        e.path_model().len() > 0,
    ensures
        e.path@.len() > 0,
        e.parent_model() == e.path@.last().wrap(e.focus()),
        e.here_index() == e.path@.last().index,
        e.parent_model().children.len() == e.path@.last().rest.children@.len() + 1,
        e.parent_model().children[e.here_index() as int] == e.focus(),
        e.parent_model().children.len() <= usize::MAX,
        e.here_index() < e.parent_model().children.len(),
{
    let fs = e.path@.drop_last();
    let fr = e.path@.last();
    assert(e.path_model().len() == e.path@.len());
    assert(frames_wf(fs));
    lemma_rebuild_path(fs, fr.wrap(e.focus()));
    assert(indices_of(e.path@).drop_last() =~= indices_of(fs));
    assert(fr.wrap(e.focus()).children[fr.index as int] == e.focus());
    assert(e.here_index() == indices_of(e.path@).last());
}

/// On a well-formed editor away from the root, the focus sits at its
/// recorded position among the parent's children, and the parent's child
/// count is within index range.
pub proof fn lemma_editor_parent_bounds<T>(e: TreeViewMut<T>)
    requires
        e.wf(),
        e.path_model().len() > 0,
    ensures
        e.parent_model().children.len() <= usize::MAX,
        (e.here_index() as int) < e.parent_model().children.len(),
        e.parent_model().children[e.here_index() as int] == e.focus(),
{
    lemma_parent_shape(e);
}

/// Path-reconstruction invariant of the write cursor: on a well-formed
/// editor, the recorded path is valid in the reassembled tree, and replaying
/// it from the root reaches exactly the focus node.
pub proof fn lemma_editor_path_reconstruction<T>(e: TreeViewMut<T>)
    requires
        e.wf(),
    ensures
        e.root_model().path_ok(e.path_model()),
        e.root_model().subtree_at(e.path_model()) == e.focus(),
{
    lemma_rebuild_path(e.path@, e.focus());
}

} // verus!
