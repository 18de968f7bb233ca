use vstd::prelude::*;
use vstd::pervasive::VecAdditionalExecFns;

use crate::util::SiblingIndex;
use crate::util::resolve_sibling;

verus! {

/// The mathematical value of one stored node: its data and the identities
/// of its children, in order.
#[verifier::ext_equal]
pub ghost struct NodeModel<T> {
    pub data: T,
    pub children: Seq<int>,
}

/// A handle to a node of a shared-storage tree. Handles are plain copies of
/// a node's identity: every copy aliases the very same node, and an edit
/// made through one handle is seen through all of them.
#[derive(Clone, Copy, Debug, PartialEq, Eq, Structural)]
pub struct Handle {
    index: usize,
}

impl Handle {
    /// The identity of the node this handle aliases.
    pub closed spec fn id(self) -> int {
        self.index as int
    }
}

/// The identities a list of handles names, in order.
pub open spec fn ids_of(v: Vec<Handle>) -> Seq<int> {
    v@.map_values(|h: Handle| h.id())
}

/// A shared-storage tree: one arena that owns every node, addressed through
/// copyable handles.
///
/// A node may be the child of several parents, and any number of handles may
/// alias it; subtrees are shared by recording the same node identity twice,
/// which may save memory. Every edit goes through the arena, so a change
/// made through one handle is observable through every other handle of the
/// same node. Nodes stay in the arena until it is dropped; detaching a child
/// removes only the edge.
///
/// The arena records whatever edges the caller builds, shared suffixes
/// included. The cursors never rely on the edges forming a tree: they record
/// their own paths and stay within bounds whatever the shape.
pub struct Tree<T> {
    data: Vec<T>,
    children: Vec<Vec<usize>>,
}

impl<T> Tree<T> {
    /// The stored nodes, by identity.
    pub closed spec fn nodes_model(self) -> Seq<NodeModel<T>> {
        Seq::new(
            self.data@.len(),
            |i: int|
                if 0 <= i < self.data@.len() && i < self.children@.len() {
                    NodeModel {
                        data: self.data@[i],
                        children: self.children@[i]@.map_values(|u: usize| u as int),
                    }
                } else {
                    arbitrary()
                },
        )
    }

    /// Every node has a child list, and every recorded child identity names
    /// a stored node.
    pub closed spec fn wf(self) -> bool {
        &&& self.data@.len() == self.children@.len()
        &&& forall|i: int, j: int|
            0 <= i < self.children@.len() && 0 <= j < self.children@[i]@.len()
                ==> #[trigger] self.children@[i]@[j] < self.data@.len()
    }

    /// Whether the handle names a stored node.
    pub open spec fn valid(self, h: Handle) -> bool {
        0 <= h.id() < self.nodes_model().len()
    }

    /// An empty arena, holding no nodes yet.
    pub fn new() -> (t: Self)
        ensures
            t.wf(),
            t.nodes_model() == Seq::<NodeModel<T>>::empty(),
    {
        let t = Tree { data: Vec::new(), children: Vec::new() };
        proof {
            assert(t.nodes_model() =~= Seq::<NodeModel<T>>::empty());
        }
        t
    }

    /// Stores a new node with the given data and no children, and hands back
    /// its handle.
    pub fn leaf(&mut self, data: T) -> (h: Handle)
        requires
            old(self).wf(),
        ensures
            final(self).wf(),
            h.id() == old(self).nodes_model().len(),
            final(self).valid(h),
            final(self).nodes_model() == old(self).nodes_model().push(
                NodeModel { data, children: Seq::<int>::empty() },
            ),
    {
        let h = Handle { index: self.data.len() };
        self.data.push(data);
        self.children.push(Vec::new());
        proof {
            assert(self.children@[h.id()]@.map_values(|u: usize| u as int) =~= Seq::<
                int,
            >::empty());
            assert(self.nodes_model() =~= old(self).nodes_model().push(
                NodeModel { data, children: Seq::<int>::empty() },
            ));
        }
        h
    }

    /// Stores a new node with the given data and the given children, and
    /// hands back its handle. The child handles may repeat, or may already
    /// sit under other parents: the subtrees are then shared, not copied.
    pub fn node(&mut self, data: T, children: Vec<Handle>) -> (h: Handle)
        requires
            old(self).wf(),
            forall|k: int| 0 <= k < children@.len() ==> old(self).valid(#[trigger] children@[k]),
        ensures
            final(self).wf(),
            h.id() == old(self).nodes_model().len(),
            final(self).valid(h),
            final(self).nodes_model() == old(self).nodes_model().push(
                NodeModel { data, children: ids_of(children) },
            ),
    {
        let ghost orig = ids_of(children);
        let n = self.data.len();
        let mut rest = children;
        let mut ids: Vec<usize> = Vec::new();
        proof {
            assert(ids@.map_values(|u: usize| u as int) =~= orig.take(0));
        }
        while rest.len() > 0
            invariant
                ids@.len() + rest@.len() == orig.len(),
                ids@.map_values(|u: usize| u as int) =~= orig.take(ids@.len() as int),
                ids_of(rest) =~= orig.skip(ids@.len() as int),
                forall|k: int| 0 <= k < ids@.len() ==> #[trigger] ids@[k] < n,
                forall|k: int| 0 <= k < orig.len() ==> 0 <= #[trigger] orig[k] < n,
            decreases rest@.len(),
        {
            let ghost k = ids@.len() as int;
            let ghost pre = ids_of(rest);
            let h = rest.remove(0);
            proof {
                assert(h.id() == pre[0]);
                assert(ids_of(rest) =~= pre.skip(1));
                assert(pre.skip(1) =~= orig.skip(k + 1));
            }
            ids.push(h.index);
            proof {
                assert(ids@.map_values(|u: usize| u as int) =~= orig.take(k + 1));
            }
        }
        proof {
            assert(ids@.map_values(|u: usize| u as int) =~= orig);
        }
        let h = Handle { index: n };
        self.data.push(data);
        self.children.push(ids);
        proof {
            assert(self.nodes_model() =~= old(self).nodes_model().push(
                NodeModel { data, children: orig },
            ));
        }
        h
    }

    /// A borrow of the data stored at the node.
    pub fn data_of(&self, node: Handle) -> (r: &T)
        requires
            self.wf(),
            self.valid(node),
        ensures
            *r == self.nodes_model()[node.id()].data,
    {
        &self.data[node.index]
    }

    /// Replaces the data stored at the node, through any of its handles.
    pub fn set_data(&mut self, node: Handle, data: T)
        requires
            old(self).wf(),
            old(self).valid(node),
        ensures
            final(self).wf(),
            final(self).nodes_model() == old(self).nodes_model().update(
                node.id(),
                NodeModel { data, children: old(self).nodes_model()[node.id()].children },
            ),
    {
        self.data.set(node.index, data);
        proof {
            assert(self.nodes_model() =~= old(self).nodes_model().update(
                node.id(),
                NodeModel { data, children: old(self).nodes_model()[node.id()].children },
            ));
        }
    }

    /// The number of children of the node.
    pub fn child_count(&self, node: Handle) -> (r: usize)
        requires
            self.wf(),
            self.valid(node),
        ensures
            r == self.nodes_model()[node.id()].children.len(),
    {
        self.children[node.index].len()
    }

    /// The handle of the node's child at the given position.
    pub fn child_of(&self, node: Handle, index: usize) -> (c: Handle)
        requires
            self.wf(),
            self.valid(node),
            index < self.nodes_model()[node.id()].children.len(),
        ensures
            c.id() == self.nodes_model()[node.id()].children[index as int],
            self.valid(c),
    {
        Handle { index: self.children[node.index][index] }
    }

    /// Appends `child` at the end of the node's children. The new edge is
    /// seen through every handle of the node.
    pub fn push_child(&mut self, node: Handle, child: Handle)
        requires
            old(self).wf(),
            old(self).valid(node),
            old(self).valid(child),
        ensures
            final(self).wf(),
            final(self).nodes_model() == old(self).nodes_model().update(
                node.id(),
                NodeModel {
                    data: old(self).nodes_model()[node.id()].data,
                    children: old(self).nodes_model()[node.id()].children.push(child.id()),
                },
            ),
    {
        let mut list: Vec<usize> = Vec::new();
        self.children.set_and_swap(node.index, &mut list);
        list.push(child.index);
        self.children.set_and_swap(node.index, &mut list);
        proof {
            assert(self.nodes_model()[node.id()].children =~= old(self).nodes_model()[
                node.id()].children.push(child.id()));
            assert(self.nodes_model() =~= old(self).nodes_model().update(
                node.id(),
                NodeModel {
                    data: old(self).nodes_model()[node.id()].data,
                    children: old(self).nodes_model()[node.id()].children.push(child.id()),
                },
            ));
        }
    }

    /// Inserts `child` at the given position among the node's children; the
    /// position may be the current child count, which appends. The new edge
    /// is seen through every handle of the node.
    pub fn insert_child(&mut self, node: Handle, index: usize, child: Handle)
        requires
            old(self).wf(),
            old(self).valid(node),
            old(self).valid(child),
            index <= old(self).nodes_model()[node.id()].children.len(),
        ensures
            final(self).wf(),
            final(self).nodes_model() == old(self).nodes_model().update(
                node.id(),
                NodeModel {
                    data: old(self).nodes_model()[node.id()].data,
                    children: old(self).nodes_model()[node.id()].children.insert(
                        index as int,
                        child.id(),
                    ),
                },
            ),
    {
        let mut list: Vec<usize> = Vec::new();
        self.children.set_and_swap(node.index, &mut list);
        list.insert(index, child.index);
        self.children.set_and_swap(node.index, &mut list);
        proof {
            assert(self.nodes_model()[node.id()].children =~= old(self).nodes_model()[
                node.id()].children.insert(index as int, child.id()));
            assert(self.nodes_model() =~= old(self).nodes_model().update(
                node.id(),
                NodeModel {
                    data: old(self).nodes_model()[node.id()].data,
                    children: old(self).nodes_model()[node.id()].children.insert(
                        index as int,
                        child.id(),
                    ),
                },
            ));
        }
    }

    /// Detaches the node's child at the given position and hands back its
    /// handle; the subtree stays stored. The removal is seen through every
    /// handle of the node.
    pub fn remove_child(&mut self, node: Handle, index: usize) -> (c: Handle)
        requires
            old(self).wf(),
            old(self).valid(node),
            index < old(self).nodes_model()[node.id()].children.len(),
        ensures
            final(self).wf(),
            c.id() == old(self).nodes_model()[node.id()].children[index as int],
            final(self).valid(c),
            final(self).nodes_model() == old(self).nodes_model().update(
                node.id(),
                NodeModel {
                    data: old(self).nodes_model()[node.id()].data,
                    children: old(self).nodes_model()[node.id()].children.remove(index as int),
                },
            ),
    {
        let mut list: Vec<usize> = Vec::new();
        self.children.set_and_swap(node.index, &mut list);
        let c = Handle { index: list.remove(index) };
        self.children.set_and_swap(node.index, &mut list);
        proof {
            assert(self.nodes_model()[node.id()].children =~= old(self).nodes_model()[
                node.id()].children.remove(index as int));
            assert(self.nodes_model() =~= old(self).nodes_model().update(
                node.id(),
                NodeModel {
                    data: old(self).nodes_model()[node.id()].data,
                    children: old(self).nodes_model()[node.id()].children.remove(index as int),
                },
            ));
        }
        c
    }

    /// Exchanges the node's children at the two given positions. The swap is
    /// seen through every handle of the node.
    pub fn swap_children(&mut self, node: Handle, index_a: usize, index_b: usize)
        requires
            old(self).wf(),
            old(self).valid(node),
            index_a < old(self).nodes_model()[node.id()].children.len(),
            index_b < old(self).nodes_model()[node.id()].children.len(),
        ensures
            final(self).wf(),
            final(self).nodes_model() == old(self).nodes_model().update(
                node.id(),
                NodeModel {
                    data: old(self).nodes_model()[node.id()].data,
                    children: old(self).nodes_model()[node.id()].children.update(
                        index_a as int,
                        old(self).nodes_model()[node.id()].children[index_b as int],
                    ).update(
                        index_b as int,
                        old(self).nodes_model()[node.id()].children[index_a as int],
                    ),
                },
            ),
    {
        let mut list: Vec<usize> = Vec::new();
        self.children.set_and_swap(node.index, &mut list);
        let a = list[index_a];
        let b = list[index_b];
        list.set(index_a, b);
        list.set(index_b, a);
        self.children.set_and_swap(node.index, &mut list);
        proof {
            assert(self.nodes_model()[node.id()].children =~= old(self).nodes_model()[
                node.id()].children.update(
                index_a as int,
                old(self).nodes_model()[node.id()].children[index_b as int],
            ).update(index_b as int, old(self).nodes_model()[node.id()].children[index_a as int]));
            assert(self.nodes_model() =~= old(self).nodes_model().update(
                node.id(),
                NodeModel {
                    data: old(self).nodes_model()[node.id()].data,
                    children: old(self).nodes_model()[node.id()].children.update(
                        index_a as int,
                        old(self).nodes_model()[node.id()].children[index_b as int],
                    ).update(
                        index_b as int,
                        old(self).nodes_model()[node.id()].children[index_a as int],
                    ),
                },
            ));
        }
    }

    /// Decomposes the node into a borrow of its data and the handles of its
    /// children.
    pub fn into_parts(&self, node: Handle) -> (r: (&T, Vec<Handle>))
        requires
            self.wf(),
            self.valid(node),
        ensures
            *r.0 == self.nodes_model()[node.id()].data,
            ids_of(r.1) == self.nodes_model()[node.id()].children,
            forall|k: int| 0 <= k < r.1@.len() ==> self.valid(#[trigger] r.1@[k]),
    {
        let list = &self.children[node.index];
        let mut out: Vec<Handle> = Vec::new();
        let mut j: usize = 0;
        proof {
            assert(ids_of(out) =~= self.nodes_model()[node.id()].children.take(0));
        }
        while j < list.len()
            invariant
                j <= list@.len(),
                self.wf(),
                self.valid(node),
                list == &self.children@[node.id()],
                out@.len() == j,
                ids_of(out) =~= self.nodes_model()[node.id()].children.take(j as int),
                forall|k: int| 0 <= k < out@.len() ==> self.valid(#[trigger] out@[k]),
            decreases list@.len() - j,
        {
            let ghost k = out@.len() as int;
            out.push(Handle { index: list[j] });
            proof {
                assert(ids_of(out) =~= self.nodes_model()[node.id()].children.take(k + 1));
            }
            j = j + 1;
        }
        proof {
            assert(ids_of(out) =~= self.nodes_model()[node.id()].children);
        }
        (&self.data[node.index], out)
    }
}

/// The number of children of node `i` in the arena.
pub open spec fn count_of<T>(t: Tree<T>, i: int) -> int {
    t.nodes_model()[i].children.len() as int
}

/// The identity of child `j` of node `i` in the arena.
pub open spec fn kid_of<T>(t: Tree<T>, i: int, j: int) -> int {
    t.nodes_model()[i].children[j]
}

/// Whether a recorded cursor path descends one existing edge at a time from
/// node `from`: each step's position is in range at the node reached so far,
/// and the identity recorded with it is the one the arena gives.
spec fn path_consistent<T>(t: Tree<T>, path: Seq<(usize, usize)>, from: int) -> bool
    decreases path.len(),
{
    path.len() == 0 || {
        &&& (path[0].1 as int) < count_of(t, from)
        &&& path[0].0 as int == kid_of(t, from, path[0].1 as int)
        &&& path_consistent(t, path.drop_first(), path[0].0 as int)
    }
}

/// The node identity a recorded path ends at when read from node `from`.
spec fn end_of(path: Seq<(usize, usize)>, from: int) -> int {
    if path.len() == 0 {
        from
    } else {
        path.last().0 as int
    }
}

/// Extending a consistent path by one step keeps it consistent exactly when
/// the step is an existing edge out of the path's end node.
proof fn lemma_consistent_push<T>(t: Tree<T>, path: Seq<(usize, usize)>, x: (usize, usize), from: int)
    requires
        path_consistent(t, path, from),
    ensures
        path_consistent(t, path.push(x), from) == ((x.1 as int) < count_of(t, end_of(path, from))
            && x.0 as int == kid_of(t, end_of(path, from), x.1 as int)),
    decreases path.len(),
{
    if path.len() == 0 {
        assert(path.push(x)[0] == x);
        assert(path.push(x).drop_first() =~= Seq::<(usize, usize)>::empty());
        assert(path_consistent(t, Seq::<(usize, usize)>::empty(), x.0 as int));
    } else {
        assert(path.push(x)[0] == path[0]);
        assert(path.push(x).drop_first() =~= path.drop_first().push(x));
        lemma_consistent_push(t, path.drop_first(), x, path[0].0 as int);
        assert(end_of(path.drop_first(), path[0].0 as int) == end_of(path, from));
    }
}

/// Cutting the last step off a consistent path keeps it consistent, and the
/// cut step was an existing edge out of the shortened path's end node.
proof fn lemma_consistent_drop_last<T>(t: Tree<T>, path: Seq<(usize, usize)>, from: int)
    requires
        path_consistent(t, path, from),
        path.len() > 0,
    ensures
        path_consistent(t, path.drop_last(), from),
        (path.last().1 as int) < count_of(t, end_of(path.drop_last(), from)),
        path.last().0 as int == kid_of(t, end_of(path.drop_last(), from), path.last().1 as int),
    decreases path.len(),
{
    if path.len() == 1 {
        assert(path.drop_last() =~= Seq::<(usize, usize)>::empty());
        assert(path_consistent(t, Seq::<(usize, usize)>::empty(), from));
    } else {
        assert(path.drop_last()[0] == path[0]);
        assert(path.drop_last().drop_first() =~= path.drop_first().drop_last());
        lemma_consistent_drop_last(t, path.drop_first(), path[0].0 as int);
        assert(end_of(path.drop_first().drop_last(), path[0].0 as int) == end_of(
            path.drop_last(),
            from,
        ));
        assert(end_of(path.drop_first(), path[0].0 as int) == end_of(path, from));
    }
}

/// In a well-formed arena, a consistent path only ever ends at a stored
/// node.
proof fn lemma_consistent_end_in_range<T>(t: Tree<T>, path: Seq<(usize, usize)>, from: int)
    requires
        t.wf(),
        path_consistent(t, path, from),
        0 <= from < t.nodes_model().len(),
    ensures
        0 <= end_of(path, from) < t.nodes_model().len(),
    decreases path.len(),
{
    if path.len() > 0 {
        lemma_kid_in_range(t, from, path[0].1 as int);
        lemma_consistent_end_in_range(t, path.drop_first(), path[0].0 as int);
        assert(end_of(path.drop_first(), path[0].0 as int) == end_of(path, from));
    }
}

/// In a well-formed arena, every recorded edge leads to a stored node.
proof fn lemma_kid_in_range<T>(t: Tree<T>, i: int, j: int)
    requires
        t.wf(),
        0 <= i < t.nodes_model().len(),
        0 <= j < count_of(t, i),
    ensures
        0 <= kid_of(t, i, j) < t.nodes_model().len(),
{
}

/// A consistent path stays consistent across an arena change that leaves
/// every node it descends out of untouched: the edited node must not be the
/// start or an intermediate step, though it may be the path's end.
proof fn lemma_consistent_after_update<T>(
    t0: Tree<T>,
    t1: Tree<T>,
    path: Seq<(usize, usize)>,
    from: int,
    edited: int,
)
    requires
        t0.wf(),
        0 <= from < t0.nodes_model().len(),
        path_consistent(t0, path, from),
        t1.nodes_model().len() >= t0.nodes_model().len(),
        forall|i: int|
            0 <= i < t0.nodes_model().len() && i != edited ==> t1.nodes_model()[i]
                == t0.nodes_model()[i],
        path.len() > 0 ==> from != edited,
        forall|k: int| 0 <= k < path.len() - 1 ==> (#[trigger] path[k]).0 as int != edited,
    ensures
        path_consistent(t1, path, from),
    decreases path.len(),
{
    if path.len() > 0 {
        lemma_kid_in_range(t0, from, path[0].1 as int);
        assert(path_consistent(t0, path.drop_first(), path[0].0 as int));
        assert(forall|k: int|
            0 <= k < path.drop_first().len() - 1 ==> (#[trigger] path.drop_first()[k]).0 as int
                != edited);
        lemma_consistent_after_update(t0, t1, path.drop_first(), path[0].0 as int, edited);
    }
}

/// Sharing semantics: handles are aliases. Two handles with the same
/// identity name the very same node, so after a child is pushed through one
/// of them, the child list read through the other has gained exactly that
/// child at its end.
pub proof fn lemma_sharing_push_child<T>(
    pre: Tree<T>,
    post: Tree<T>,
    a: Handle,
    b: Handle,
    c: Handle,
)
    requires
        pre.wf(),
        pre.valid(a),
        b == a,
        post.nodes_model() == pre.nodes_model().update(
            a.id(),
            NodeModel {
                data: pre.nodes_model()[a.id()].data,
                children: pre.nodes_model()[a.id()].children.push(c.id()),
            },
        ),
    ensures
        post.nodes_model()[b.id()].children.len() == pre.nodes_model()[b.id()].children.len() + 1,
        post.nodes_model()[b.id()].children.last() == c.id(),
        post.nodes_model()[b.id()].data == pre.nodes_model()[b.id()].data,
{
}

/// Which node a sequence of recorded child positions reaches when replayed
/// from node `from` through the arena.
pub open spec fn follow<T>(t: Tree<T>, pos: Seq<usize>, from: int) -> int
    decreases pos.len(),
{
    if pos.len() == 0 {
        from
    } else {
        follow(t, pos.drop_first(), kid_of(t, from, pos[0] as int))
    }
}

/// On a consistent path, replaying the recorded child positions from the
/// start node reaches exactly the path's end node.
proof fn lemma_follow_consistent<T>(t: Tree<T>, path: Seq<(usize, usize)>, from: int)
    requires
        path_consistent(t, path, from),
    ensures
        follow(t, path.map_values(|p: (usize, usize)| p.1), from) == end_of(path, from),
    decreases path.len(),
{
    let pos = path.map_values(|p: (usize, usize)| p.1);
    if path.len() == 0 {
        assert(pos =~= Seq::<usize>::empty());
    } else {
        assert(pos[0] == path[0].1);
        assert(pos.drop_first() =~= path.drop_first().map_values(|p: (usize, usize)| p.1));
        lemma_follow_consistent(t, path.drop_first(), path[0].0 as int);
        assert(end_of(path.drop_first(), path[0].0 as int) == end_of(path, from));
    }
}

/// A read-only, focus-based cursor over a shared-storage tree, started at
/// any handle.
///
/// The cursor records, for every level below its start, the identity of the
/// node it descended to and that node's position among its siblings;
/// replaying the recorded positions through the arena always reaches the
/// focus.
pub struct TreeView<'a, T> {
    tree: &'a Tree<T>,
    start: usize,
    path: Vec<(usize, usize)>,
}

impl<'a, T> TreeView<'a, T> {
    /// The stored nodes of the arena under view, by identity.
    pub closed spec fn store_model(self) -> Seq<NodeModel<T>> {
        self.tree.nodes_model()
    }

    /// The identity of the node the cursor started at.
    pub closed spec fn start_id(self) -> int {
        self.start as int
    }

    /// The recorded child positions from the start down to the focus.
    pub closed spec fn path_model(self) -> Seq<usize> {
        self.path@.map_values(|p: (usize, usize)| p.1)
    }

    /// The identity of the focus node.
    pub closed spec fn focus_id(self) -> int {
        end_of(self.path@, self.start as int)
    }

    /// The identity of the focus node's parent on the recorded path.
    pub closed spec fn parent_id(self) -> int
        recommends
            self.path_model().len() > 0,
    {
        end_of(self.path@.drop_last(), self.start as int)
    }

    /// The recorded path stays within the arena at every step.
    pub closed spec fn wf(self) -> bool {
        &&& self.tree.wf()
        &&& 0 <= self.start_id() < self.store_model().len()
        &&& path_consistent(*self.tree, self.path@, self.start as int)
    }

    /// The node identity that replaying the recorded child positions from
    /// the start reaches.
    pub closed spec fn replay(self) -> int {
        follow(*self.tree, self.path_model(), self.start as int)
    }

    /// The tagged outcome that a sibling move by `offset` resolves to at the
    /// current focus.
    pub open spec fn sibling_resolution(self, offset: isize) -> SiblingIndex {
        if self.path_model().len() == 0 {
            SiblingIndex::Root
        } else {
            resolve_sibling(
                self.store_model()[self.parent_id()].children.len() as usize,
                self.path_model().last(),
                offset,
            )
        }
    }

    /// The focus node's identity stays in range, and the recorded path and
    /// position sequence have the same length.
    proof fn lemma_focus_in_range(self)
        requires
            self.wf(),
        ensures
            0 <= self.focus_id() < self.store_model().len(),
            self.path_model().len() == self.path@.len(),
    {
        lemma_consistent_end_in_range(*self.tree, self.path@, self.start as int);
    }

    /// The handle of the focus node.
    pub fn focus(&self) -> (h: Handle)
        requires
            self.wf(),
        ensures
            h.id() == self.focus_id(),
            0 <= h.id() < self.store_model().len(),
    {
        proof {
            self.lemma_focus_in_range();
        }
        if self.path.len() == 0 {
            Handle { index: self.start }
        } else {
            Handle { index: self.path[self.path.len() - 1].0 }
        }
    }

    /// A borrow of the data at the focus node.
    pub fn data(&self) -> (r: &T)
        requires
            self.wf(),
        ensures
            *r == self.store_model()[self.focus_id()].data,
    {
        let h = self.focus();
        self.tree.data_of(h)
    }

    /// The number of children of the focus node.
    pub fn child_count(&self) -> (r: usize)
        requires
            self.wf(),
        ensures
            r == self.store_model()[self.focus_id()].children.len(),
    {
        let h = self.focus();
        self.tree.child_count(h)
    }

    /// Whether the focus node is a leaf, that is, has no children.
    pub fn at_leaf(&self) -> (r: bool)
        requires
            self.wf(),
        ensures
            r == (self.store_model()[self.focus_id()].children.len() == 0),
    {
        self.child_count() == 0
    }

    /// Whether the focus node is the one the cursor started at, with no
    /// recorded steps below it.
    pub fn at_root(&self) -> (r: bool)
        ensures
            r == (self.path_model().len() == 0),
    {
        self.path.len() == 0
    }

    /// The tagged outcome that a sibling move by `offset` would resolve to
    /// at the current focus, so that callers can tell the root case, the
    /// arithmetic faults, and an out-of-range index apart.
    pub fn resolve_sibling_offset(&self, offset: isize) -> (r: SiblingIndex)
        requires
            self.wf(),
        ensures
            r == self.sibling_resolution(offset),
    {
        if self.path.len() == 0 {
            return SiblingIndex::Root;
        }
        proof {
            lemma_consistent_drop_last(*self.tree, self.path@, self.start as int);
            lemma_consistent_end_in_range(*self.tree, self.path@.drop_last(), self.start as int);
        }
        let parent = if self.path.len() == 1 {
            self.start
        } else {
            self.path[self.path.len() - 2].0
        };
        proof {
            assert(parent as int == self.parent_id());
            assert(self.path_model().last() == self.path@.last().1);
        }
        let here = self.path[self.path.len() - 1].1;
        let count = self.tree.child_count(Handle { index: parent });
        SiblingIndex::of(count, here, offset)
    }

    /// Moves the focus to the child at the given index; on an out-of-range
    /// index the cursor reports failure and is left unchanged.
    pub fn seek_child(&mut self, index: usize) -> (r: bool)
        requires
            old(self).wf(),
        ensures
            final(self).wf(),
            final(self).store_model() == old(self).store_model(),
            final(self).start_id() == old(self).start_id(),
            r == ((index as int) < old(self).store_model()[old(self).focus_id()].children.len()),
            r ==> final(self).path_model() == old(self).path_model().push(index),
            r ==> final(self).focus_id() == old(self).store_model()[old(self).focus_id()].children[index as int],
            !r ==> final(self).path_model() == old(self).path_model() && final(self).focus_id()
                == old(self).focus_id(),
    {
        let h = self.focus();
        if index < self.tree.child_count(h) {
            let c = self.tree.child_of(h, index);
            proof {
                lemma_consistent_push(
                    *self.tree,
                    self.path@,
                    (c.index, index),
                    self.start as int,
                );
            }
            self.path.push((c.index, index));
            proof {
                assert(self.path@ =~= old(self).path@.push((c.index, index)));
                assert(self.path_model() =~= old(self).path_model().push(index));
            }
            true
        } else {
            false
        }
    }

    /// Moves the focus to the sibling at the given signed offset. A zero
    /// offset always succeeds and leaves the cursor unchanged, even at the
    /// start; any other failure also leaves the cursor unchanged.
    pub fn seek_sibling(&mut self, offset: isize) -> (r: bool)
        requires
            old(self).wf(),
        ensures
            final(self).wf(),
            final(self).store_model() == old(self).store_model(),
            final(self).start_id() == old(self).start_id(),
            r == (old(self).sibling_resolution(offset) is Valid || (old(self).path_model().len()
                == 0 && offset == 0)),
            old(self).sibling_resolution(offset) matches SiblingIndex::Valid(k)
                ==> final(self).path_model() == old(self).path_model().drop_last().push(k)
                && final(self).focus_id() == old(self).store_model()[old(self).parent_id()].children[k as int],
            offset == 0 || !r ==> final(self).path_model() == old(self).path_model() && final(self).focus_id() == old(self).focus_id(),
    {
        if self.path.len() == 0 {
            return offset == 0;
        }
        proof {
            lemma_consistent_drop_last(*self.tree, self.path@, self.start as int);
            lemma_consistent_end_in_range(*self.tree, self.path@.drop_last(), self.start as int);
            assert(self.path_model().last() == self.path@.last().1);
            assert(self.path_model().drop_last() =~= self.path@.drop_last().map_values(
                |p: (usize, usize)| p.1,
            ));
        }
        let parent = if self.path.len() == 1 {
            self.start
        } else {
            self.path[self.path.len() - 2].0
        };
        proof {
            assert(parent as int == self.parent_id());
        }
        let here = self.path[self.path.len() - 1].1;
        let count = self.tree.child_count(Handle { index: parent });
        match SiblingIndex::of(count, here, offset) {
            SiblingIndex::Valid(new_index) => {
                let c = self.tree.child_of(Handle { index: parent }, new_index);
                proof {
                    lemma_consistent_push(
                        *self.tree,
                        self.path@.drop_last(),
                        (c.index, new_index),
                        self.start as int,
                    );
                }
                let _ = self.path.pop();
                self.path.push((c.index, new_index));
                proof {
                    assert(self.path@ =~= old(self).path@.drop_last().push((c.index, new_index)));
                    assert(self.path_model() =~= old(self).path_model().drop_last().push(
                        new_index,
                    ));
                    if offset == 0 {
                        assert(self.path@ =~= old(self).path@);
                    }
                }
                true
            },
            _ => false,
        }
    }

    /// Moves the focus to the parent of the focus node on the recorded path;
    /// at the start the cursor reports failure and is left unchanged.
    pub fn to_parent(&mut self) -> (r: bool)
        requires
            old(self).wf(),
        ensures
            final(self).wf(),
            final(self).store_model() == old(self).store_model(),
            final(self).start_id() == old(self).start_id(),
            r == (old(self).path_model().len() > 0),
            r ==> final(self).path_model() == old(self).path_model().drop_last() && final(self).focus_id() == old(self).parent_id(),
            !r ==> final(self).path_model() == old(self).path_model() && final(self).focus_id()
                == old(self).focus_id(),
    {
        proof {
            if self.path@.len() > 0 {
                lemma_consistent_drop_last(*self.tree, self.path@, self.start as int);
            }
        }
        match self.path.pop() {
            Some(_) => {
                proof {
                    assert(self.path@ =~= old(self).path@.drop_last());
                    assert(self.path_model() =~= old(self).path_model().drop_last());
                }
                true
            },
            None => false,
        }
    }

    /// Moves the focus back to the node the cursor started at in one step.
    /// There this is a no-op.
    pub fn to_root(&mut self)
        requires
            old(self).wf(),
        ensures
            final(self).wf(),
            final(self).store_model() == old(self).store_model(),
            final(self).start_id() == old(self).start_id(),
            final(self).path_model() == Seq::<usize>::empty(),
            final(self).focus_id() == old(self).start_id(),
    {
        self.path.clear();
        proof {
            assert(final(self).path@ =~= Seq::<(usize, usize)>::empty());
            assert(final(self).path_model() =~= Seq::<usize>::empty());
        }
    }
}

impl<'a, T> Clone for TreeView<'a, T> {
    /// Forks an independent cursor at the same focus in the same arena.
    fn clone(&self) -> (r: Self)
        ensures
            r.store_model() == self.store_model(),
            r.start_id() == self.start_id(),
            r.path_model() == self.path_model(),
            r.focus_id() == self.focus_id(),
            r.wf() == self.wf(),
    {
        let mut path: Vec<(usize, usize)> = Vec::new();
        let mut j: usize = 0;
        while j < self.path.len()
            invariant
                j <= self.path@.len(),
                path@ =~= self.path@.take(j as int),
            decreases self.path@.len() - j,
        {
            path.push(self.path[j]);
            j = j + 1;
        }
        proof {
            assert(path@ =~= self.path@);
        }
        TreeView { tree: self.tree, start: self.start, path }
    }
}

/// Path-reconstruction invariant of the read cursor: on a well-formed
/// cursor, replaying the recorded child positions from the start through the
/// arena reaches exactly the focus node.
pub proof fn lemma_view_path_reconstruction<'a, T>(v: TreeView<'a, T>)
    requires
        v.wf(),
    ensures
        v.replay() == v.focus_id(),
{
    lemma_follow_consistent(*v.tree, v.path@, v.start as int);
}

impl<T> Tree<T> {
    /// A read-only cursor focused on the given node.
    pub fn view<'s>(&'s self, node: Handle) -> (v: TreeView<'s, T>)
        requires
            self.wf(),
            self.valid(node),
        ensures
            v.wf(),
            v.store_model() == self.nodes_model(),
            v.start_id() == node.id(),
            v.path_model() == Seq::<usize>::empty(),
            v.focus_id() == node.id(),
    {
        let v = TreeView { tree: self, start: node.index, path: Vec::new() };
        proof {
            assert(v.path@ =~= Seq::<(usize, usize)>::empty());
            assert(v.path_model() =~= Seq::<usize>::empty());
        }
        v
    }
}

/// A focus-based write cursor over a shared-storage tree.
///
/// The editor takes the arena over while it edits and hands it back through
/// `into_tree`; every edit is made in place in the arena, so it is seen
/// through every handle and every shared suffix of the edited node. Because
/// nodes may be aliased, a recorded path could pass through the edited node
/// twice; the editing operations therefore ask that the node they rewrite is
/// not also an earlier step of the recorded path.
pub struct TreeEditor<T> {
    tree: Tree<T>,
    start: usize,
    path: Vec<(usize, usize)>,
}

impl<T> TreeEditor<T> {
    /// The stored nodes of the arena under edit, by identity.
    pub closed spec fn store_model(self) -> Seq<NodeModel<T>> {
        self.tree.nodes_model()
    }

    /// The identity of the node the cursor started at.
    pub closed spec fn start_id(self) -> int {
        self.start as int
    }

    /// The recorded child positions from the start down to the focus.
    pub closed spec fn path_model(self) -> Seq<usize> {
        self.path@.map_values(|p: (usize, usize)| p.1)
    }

    /// The identity of the focus node.
    pub closed spec fn focus_id(self) -> int {
        end_of(self.path@, self.start as int)
    }

    /// The identity of the focus node's parent on the recorded path.
    pub closed spec fn parent_id(self) -> int
        recommends
            self.path_model().len() > 0,
    {
        end_of(self.path@.drop_last(), self.start as int)
    }

    /// The recorded path stays within the arena at every step.
    pub closed spec fn wf(self) -> bool {
        &&& self.tree.wf()
        &&& 0 <= self.start_id() < self.store_model().len()
        &&& path_consistent(self.tree, self.path@, self.start as int)
    }

    /// The node identity that replaying the recorded child positions from
    /// the start reaches.
    pub closed spec fn replay(self) -> int {
        follow(self.tree, self.path_model(), self.start as int)
    }

    /// The recorded path does not descend out of node `id` at any step, so a
    /// rewrite of that node's child list cannot invalidate the path. On an
    /// arena whose edges form a tree, a path visits each node at most once,
    /// so this always holds of the focus; only a path that reaches an
    /// aliased node twice can fail it.
    pub closed spec fn path_clear_of(self, id: int) -> bool {
        &&& (self.path@.len() > 0 ==> self.start as int != id)
        &&& forall|k: int| 0 <= k < self.path@.len() - 1 ==> (#[trigger] self.path@[k]).0 as int
            != id
    }

    /// The recorded path does not descend out of the focus node's parent at
    /// any step but the last.
    pub closed spec fn parent_clear(self) -> bool
        recommends
            self.path_model().len() > 0,
    {
        &&& (self.path@.len() > 1 ==> self.start as int != self.parent_id())
        &&& forall|k: int| 0 <= k < self.path@.len() - 2 ==> (#[trigger] self.path@[k]).0 as int
            != self.parent_id()
    }

    /// The tagged outcome that a sibling move by `offset` resolves to at the
    /// current focus.
    pub open spec fn sibling_resolution(self, offset: isize) -> SiblingIndex {
        if self.path_model().len() == 0 {
            SiblingIndex::Root
        } else {
            resolve_sibling(
                self.store_model()[self.parent_id()].children.len() as usize,
                self.path_model().last(),
                offset,
            )
        }
    }

    /// The focus node's identity stays in range, and the recorded path and
    /// position sequence have the same length.
    proof fn lemma_focus_in_range(self)
        requires
            self.wf(),
        ensures
            0 <= self.focus_id() < self.store_model().len(),
            self.path_model().len() == self.path@.len(),
    {
        lemma_consistent_end_in_range(self.tree, self.path@, self.start as int);
    }

    /// The handle of the focus node.
    pub fn focus(&self) -> (h: Handle)
        requires
            self.wf(),
        ensures
            h.id() == self.focus_id(),
            0 <= h.id() < self.store_model().len(),
    {
        proof {
            self.lemma_focus_in_range();
        }
        if self.path.len() == 0 {
            Handle { index: self.start }
        } else {
            Handle { index: self.path[self.path.len() - 1].0 }
        }
    }

    /// Whether the focus node is the one the cursor started at, with no
    /// recorded steps below it.
    pub fn at_root(&self) -> (r: bool)
        ensures
            r == (self.path_model().len() == 0),
    {
        self.path.len() == 0
    }

    /// A borrow of the data at the focus node.
    pub fn data(&self) -> (r: &T)
        requires
            self.wf(),
        ensures
            *r == self.store_model()[self.focus_id()].data,
    {
        let h = self.focus();
        self.tree.data_of(h)
    }

    /// The number of children of the focus node.
    pub fn child_count(&self) -> (r: usize)
        requires
            self.wf(),
        ensures
            r == self.store_model()[self.focus_id()].children.len(),
    {
        let h = self.focus();
        self.tree.child_count(h)
    }

    /// Whether the focus node is a leaf, that is, has no children.
    pub fn at_leaf(&self) -> (r: bool)
        requires
            self.wf(),
        ensures
            r == (self.store_model()[self.focus_id()].children.len() == 0),
    {
        self.child_count() == 0
    }

    /// Replaces the data at the focus node; the change is seen through every
    /// handle of the node.
    pub fn set_data(&mut self, data: T)
        requires
            old(self).wf(),
        ensures
            final(self).wf(),
            final(self).store_model() == old(self).store_model().update(
                old(self).focus_id(),
                NodeModel {
                    data,
                    children: old(self).store_model()[old(self).focus_id()].children,
                },
            ),
            final(self).start_id() == old(self).start_id(),
            final(self).path_model() == old(self).path_model(),
            final(self).focus_id() == old(self).focus_id(),
    {
        let h = self.focus();
        let ghost t0 = self.tree;
        self.tree.set_data(h, data);
        proof {
            assert forall|i: int, j: int|
                0 <= i < t0.nodes_model().len() && 0 <= j < count_of(t0, i) implies count_of(
                self.tree,
                i,
            ) == count_of(t0, i) && kid_of(self.tree, i, j) == kid_of(t0, i, j) by {}
            lemma_data_edit_keeps_consistency(t0, self.tree, self.path@, self.start as int);
        }
    }

    /// The tagged outcome that a sibling move by `offset` would resolve to
    /// at the current focus, so that callers can tell the root case, the
    /// arithmetic faults, and an out-of-range index apart.
    pub fn resolve_sibling_offset(&self, offset: isize) -> (r: SiblingIndex)
        requires
            self.wf(),
        ensures
            r == self.sibling_resolution(offset),
    {
        if self.path.len() == 0 {
            return SiblingIndex::Root;
        }
        proof {
            lemma_consistent_drop_last(self.tree, self.path@, self.start as int);
            lemma_consistent_end_in_range(self.tree, self.path@.drop_last(), self.start as int);
        }
        let parent = if self.path.len() == 1 {
            self.start
        } else {
            self.path[self.path.len() - 2].0
        };
        proof {
            assert(parent as int == self.parent_id());
            assert(self.path_model().last() == self.path@.last().1);
        }
        let here = self.path[self.path.len() - 1].1;
        let count = self.tree.child_count(Handle { index: parent });
        SiblingIndex::of(count, here, offset)
    }

    /// Moves the focus to the child at the given index; on an out-of-range
    /// index the cursor reports failure and is left unchanged.
    pub fn seek_child(&mut self, index: usize) -> (r: bool)
        requires
            old(self).wf(),
        ensures
            final(self).wf(),
            final(self).store_model() == old(self).store_model(),
            final(self).start_id() == old(self).start_id(),
            r == ((index as int) < old(self).store_model()[old(self).focus_id()].children.len()),
            r ==> final(self).path_model() == old(self).path_model().push(index),
            r ==> final(self).focus_id() == old(self).store_model()[old(self).focus_id()].children[index as int],
            !r ==> final(self).path_model() == old(self).path_model() && final(self).focus_id() == old(self).focus_id(),
    {
        let h = self.focus();
        if index < self.tree.child_count(h) {
            let c = self.tree.child_of(h, index);
            proof {
                lemma_consistent_push(self.tree, self.path@, (c.index, index), self.start as int);
            }
            self.path.push((c.index, index));
            proof {
                assert(self.path@ =~= old(self).path@.push((c.index, index)));
                assert(self.path_model() =~= old(self).path_model().push(index));
            }
            true
        } else {
            false
        }
    }

    /// Moves the focus to the sibling at the given signed offset. A zero
    /// offset always succeeds and leaves the cursor unchanged, even at the
    /// start; any other failure also leaves the cursor unchanged.
    pub fn seek_sibling(&mut self, offset: isize) -> (r: bool)
        requires
            old(self).wf(),
        ensures
            final(self).wf(),
            final(self).store_model() == old(self).store_model(),
            final(self).start_id() == old(self).start_id(),
            r == (old(self).sibling_resolution(offset) is Valid || (old(self).path_model().len() == 0 && offset == 0)),
            old(self).sibling_resolution(offset) matches SiblingIndex::Valid(k)
                ==> final(self).path_model() == old(self).path_model().drop_last().push(k)
                && final(self).focus_id() == old(self).store_model()[old(self).parent_id()].children[k as int],
            offset == 0 || !r ==> final(self).path_model() == old(self).path_model() && final(self).focus_id() == old(self).focus_id(),
    {
        if self.path.len() == 0 {
            return offset == 0;
        }
        proof {
            lemma_consistent_drop_last(self.tree, self.path@, self.start as int);
            lemma_consistent_end_in_range(self.tree, self.path@.drop_last(), self.start as int);
            assert(self.path_model().last() == self.path@.last().1);
            assert(self.path_model().drop_last() =~= self.path@.drop_last().map_values(
                |p: (usize, usize)| p.1,
            ));
        }
        let parent = if self.path.len() == 1 {
            self.start
        } else {
            self.path[self.path.len() - 2].0
        };
        proof {
            assert(parent as int == self.parent_id());
        }
        let here = self.path[self.path.len() - 1].1;
        let count = self.tree.child_count(Handle { index: parent });
        match SiblingIndex::of(count, here, offset) {
            SiblingIndex::Valid(new_index) => {
                let c = self.tree.child_of(Handle { index: parent }, new_index);
                proof {
                    lemma_consistent_push(
                        self.tree,
                        self.path@.drop_last(),
                        (c.index, new_index),
                        self.start as int,
                    );
                }
                let _ = self.path.pop();
                self.path.push((c.index, new_index));
                proof {
                    assert(self.path@ =~= old(self).path@.drop_last().push((c.index, new_index)));
                    assert(self.path_model() =~= old(self).path_model().drop_last().push(
                        new_index,
                    ));
                    if offset == 0 {
                        assert(self.path@ =~= old(self).path@);
                    }
                }
                true
            },
            _ => false,
        }
    }

    /// Moves the focus to the parent of the focus node on the recorded path;
    /// at the start the cursor reports failure and is left unchanged.
    pub fn to_parent(&mut self) -> (r: bool)
        requires
            old(self).wf(),
        ensures
            final(self).wf(),
            final(self).store_model() == old(self).store_model(),
            final(self).start_id() == old(self).start_id(),
            r == (old(self).path_model().len() > 0),
            r ==> final(self).path_model() == old(self).path_model().drop_last() && final(self).focus_id() == old(self).parent_id(),
            r && old(self).parent_clear() ==> final(self).path_clear_of(final(self).focus_id()),
            !r ==> final(self).path_model() == old(self).path_model() && final(self).focus_id() == old(self).focus_id(),
    {
        proof {
            if self.path@.len() > 0 {
                lemma_consistent_drop_last(self.tree, self.path@, self.start as int);
            }
        }
        match self.path.pop() {
            Some(_) => {
                proof {
                    assert(self.path@ =~= old(self).path@.drop_last());
                    assert(self.path_model() =~= old(self).path_model().drop_last());
                }
                true
            },
            None => false,
        }
    }

    /// Moves the focus back to the node the cursor started at in one step.
    /// There this is a no-op.
    pub fn to_root(&mut self)
        requires
            old(self).wf(),
        ensures
            final(self).wf(),
            final(self).store_model() == old(self).store_model(),
            final(self).start_id() == old(self).start_id(),
            final(self).path_model() == Seq::<usize>::empty(),
            final(self).focus_id() == old(self).start_id(),
    {
        self.path.clear();
        proof {
            assert(final(self).path@ =~= Seq::<(usize, usize)>::empty());
            assert(final(self).path_model() =~= Seq::<usize>::empty());
        }
    }

    /// Appends `child` as the last child of the focus node and moves the
    /// focus onto it. The new edge is seen through every handle of the
    /// edited node.
    pub fn push_child(&mut self, child: Handle)
        requires
            old(self).wf(),
            old(self).store_model().len() > old(self).focus_id() >= 0,
            0 <= child.id() < old(self).store_model().len(),
            old(self).path_clear_of(old(self).focus_id()),
        ensures
            final(self).wf(),
            final(self).start_id() == old(self).start_id(),
            final(self).store_model() == old(self).store_model().update(
                old(self).focus_id(),
                NodeModel {
                    data: old(self).store_model()[old(self).focus_id()].data,
                    children: old(self).store_model()[old(self).focus_id()].children.push(child.id()),
                },
            ),
            final(self).path_model() == old(self).path_model().push(
                old(self).store_model()[old(self).focus_id()].children.len() as usize,
            ),
            final(self).focus_id() == child.id(),
    {
        let h = self.focus();
        let n = self.tree.child_count(h);
        let ghost t0 = self.tree;
        self.tree.push_child(h, child);
        proof {
            lemma_consistent_after_update(t0, self.tree, self.path@, self.start as int, h.id());
            lemma_consistent_push(self.tree, self.path@, (child.index, n), self.start as int);
            assert(kid_of(self.tree, h.id(), n as int) == child.id());
        }
        self.path.push((child.index, n));
        proof {
            assert(self.path@ =~= old(self).path@.push((child.index, n)));
            assert(self.path_model() =~= old(self).path_model().push(n));
        }
    }

    /// Stores a new leaf with the given data, appends it as the last child
    /// of the focus node, and moves the focus onto it.
    pub fn push_leaf(&mut self, data: T)
        requires
            old(self).wf(),
            old(self).path_clear_of(old(self).focus_id()),
        ensures
            final(self).wf(),
            final(self).start_id() == old(self).start_id(),
            final(self).store_model() == old(self).store_model().push(
                NodeModel { data, children: Seq::<int>::empty() },
            ).update(
                old(self).focus_id(),
                NodeModel {
                    data: old(self).store_model()[old(self).focus_id()].data,
                    children: old(self).store_model()[old(self).focus_id()].children.push(
                        old(self).store_model().len() as int,
                    ),
                },
            ),
            final(self).path_model() == old(self).path_model().push(
                old(self).store_model()[old(self).focus_id()].children.len() as usize,
            ),
            final(self).focus_id() == old(self).store_model().len(),
    {
        proof {
            self.lemma_focus_in_range();
        }
        let ghost t0 = self.tree;
        let c = self.tree.leaf(data);
        proof {
            assert forall|i: int, j: int|
                0 <= i < t0.nodes_model().len() && 0 <= j < count_of(t0, i) implies count_of(
                self.tree,
                i,
            ) == count_of(t0, i) && kid_of(self.tree, i, j) == kid_of(t0, i, j) by {}
            lemma_data_edit_keeps_consistency(t0, self.tree, self.path@, self.start as int);
        }
        self.push_child(c);
    }

    /// Inserts `child` at the given position among the focus node's children
    /// and moves the focus onto it; the position may be the current child
    /// count, which appends. The new edge is seen through every handle of
    /// the edited node.
    pub fn insert_child(&mut self, index: usize, child: Handle)
        requires
            old(self).wf(),
            0 <= child.id() < old(self).store_model().len(),
            index <= old(self).store_model()[old(self).focus_id()].children.len(),
            old(self).path_clear_of(old(self).focus_id()),
        ensures
            final(self).wf(),
            final(self).start_id() == old(self).start_id(),
            final(self).store_model() == old(self).store_model().update(
                old(self).focus_id(),
                NodeModel {
                    data: old(self).store_model()[old(self).focus_id()].data,
                    children: old(self).store_model()[old(self).focus_id()].children.insert(
                        index as int,
                        child.id(),
                    ),
                },
            ),
            final(self).path_model() == old(self).path_model().push(index),
            final(self).focus_id() == child.id(),
    {
        let h = self.focus();
        let ghost t0 = self.tree;
        self.tree.insert_child(h, index, child);
        proof {
            lemma_consistent_after_update(t0, self.tree, self.path@, self.start as int, h.id());
            lemma_consistent_push(self.tree, self.path@, (child.index, index), self.start as int);
            assert(kid_of(self.tree, h.id(), index as int) == child.id());
        }
        self.path.push((child.index, index));
        proof {
            assert(self.path@ =~= old(self).path@.push((child.index, index)));
            assert(self.path_model() =~= old(self).path_model().push(index));
        }
    }

    /// Stores a new leaf with the given data, inserts it at the given
    /// position among the focus node's children, and moves the focus onto
    /// it.
    pub fn insert_leaf(&mut self, index: usize, data: T)
        requires
            old(self).wf(),
            index <= old(self).store_model()[old(self).focus_id()].children.len(),
            old(self).path_clear_of(old(self).focus_id()),
        ensures
            final(self).wf(),
            final(self).start_id() == old(self).start_id(),
            final(self).store_model() == old(self).store_model().push(
                NodeModel { data, children: Seq::<int>::empty() },
            ).update(
                old(self).focus_id(),
                NodeModel {
                    data: old(self).store_model()[old(self).focus_id()].data,
                    children: old(self).store_model()[old(self).focus_id()].children.insert(
                        index as int,
                        old(self).store_model().len() as int,
                    ),
                },
            ),
            final(self).path_model() == old(self).path_model().push(index),
            final(self).focus_id() == old(self).store_model().len(),
    {
        proof {
            self.lemma_focus_in_range();
        }
        let ghost t0 = self.tree;
        let c = self.tree.leaf(data);
        proof {
            assert forall|i: int, j: int|
                0 <= i < t0.nodes_model().len() && 0 <= j < count_of(t0, i) implies count_of(
                self.tree,
                i,
            ) == count_of(t0, i) && kid_of(self.tree, i, j) == kid_of(t0, i, j) by {}
            lemma_data_edit_keeps_consistency(t0, self.tree, self.path@, self.start as int);
        }
        self.insert_child(index, c);
    }

    /// Detaches the child of the focus node at the given index and hands
    /// back its handle; the focus does not move. The removal is seen through
    /// every handle of the edited node.
    pub fn remove_child(&mut self, index: usize) -> (c: Handle)
        requires
            old(self).wf(),
            index < old(self).store_model()[old(self).focus_id()].children.len(),
            old(self).path_clear_of(old(self).focus_id()),
        ensures
            final(self).wf(),
            final(self).start_id() == old(self).start_id(),
            c.id() == old(self).store_model()[old(self).focus_id()].children[index as int],
            0 <= c.id() < final(self).store_model().len(),
            final(self).store_model() == old(self).store_model().update(
                old(self).focus_id(),
                NodeModel {
                    data: old(self).store_model()[old(self).focus_id()].data,
                    children: old(self).store_model()[old(self).focus_id()].children.remove(
                        index as int,
                    ),
                },
            ),
            final(self).path_model() == old(self).path_model(),
            final(self).focus_id() == old(self).focus_id(),
    {
        let h = self.focus();
        let ghost t0 = self.tree;
        let c = self.tree.remove_child(h, index);
        proof {
            lemma_consistent_after_update(t0, self.tree, self.path@, self.start as int, h.id());
        }
        c
    }

    /// Exchanges the children of the focus node at the two given positions.
    /// The swap is seen through every handle of the edited node.
    pub fn swap_children(&mut self, index_a: usize, index_b: usize)
        requires
            old(self).wf(),
            index_a < old(self).store_model()[old(self).focus_id()].children.len(),
            index_b < old(self).store_model()[old(self).focus_id()].children.len(),
            old(self).path_clear_of(old(self).focus_id()),
        ensures
            final(self).wf(),
            final(self).start_id() == old(self).start_id(),
            final(self).store_model() == old(self).store_model().update(
                old(self).focus_id(),
                NodeModel {
                    data: old(self).store_model()[old(self).focus_id()].data,
                    children: old(self).store_model()[old(self).focus_id()].children.update(
                        index_a as int,
                        old(self).store_model()[old(self).focus_id()].children[index_b as int],
                    ).update(
                        index_b as int,
                        old(self).store_model()[old(self).focus_id()].children[index_a as int],
                    ),
                },
            ),
            final(self).path_model() == old(self).path_model(),
            final(self).focus_id() == old(self).focus_id(),
    {
        let h = self.focus();
        let ghost t0 = self.tree;
        self.tree.swap_children(h, index_a, index_b);
        proof {
            lemma_consistent_after_update(t0, self.tree, self.path@, self.start as int, h.id());
        }
    }

    /// Detaches the focus node from its parent on the recorded path and
    /// hands back its handle. The focus moves to the sibling that slides
    /// into the vacated position if one exists, otherwise to the last
    /// remaining sibling, otherwise to the parent. The start of the cursor
    /// cannot be removed.
    pub fn remove(&mut self) -> (c: Handle)
        requires
            old(self).wf(),
            old(self).path_model().len() > 0,
            old(self).parent_clear(),
        ensures
            final(self).wf(),
            final(self).start_id() == old(self).start_id(),
            c.id() == old(self).focus_id(),
            final(self).store_model() == old(self).store_model().update(
                old(self).parent_id(),
                NodeModel {
                    data: old(self).store_model()[old(self).parent_id()].data,
                    children: old(self).store_model()[old(self).parent_id()].children.remove(
                        old(self).path_model().last() as int,
                    ),
                },
            ),
            ({
                let rest = old(self).store_model()[old(self).parent_id()].children.remove(
                    old(self).path_model().last() as int,
                );
                let h = old(self).path_model().last() as int;
                if rest.len() == 0 {
                    final(self).path_model() == old(self).path_model().drop_last() && final(self).focus_id() == old(self).parent_id()
                } else {
                    let k = if h < rest.len() {
                        h
                    } else {
                        rest.len() - 1
                    };
                    final(self).path_model() == old(self).path_model().drop_last().push(k as usize)
                        && final(self).focus_id() == rest[k]
                }
            }),
    {
        proof {
            assert(old(self).path_model().len() == old(self).path@.len());
            lemma_consistent_drop_last(self.tree, self.path@, self.start as int);
            lemma_consistent_end_in_range(self.tree, self.path@.drop_last(), self.start as int);
            assert(self.path_model().last() == self.path@.last().1);
        }
        let h = self.path[self.path.len() - 1].1;
        let _ = self.to_parent();
        let c = self.remove_child(h);
        let n = self.child_count();
        if n > 0 {
            let k = if h < n {
                h
            } else {
                n - 1
            };
            let _ = self.seek_child(k);
        }
        c
    }

    /// Detaches the sibling the given offset addresses and hands back its
    /// handle. A zero offset detaches the focus node itself and behaves as
    /// `remove`; otherwise the focus stays on the same node.
    pub fn remove_sibling(&mut self, offset: isize) -> (c: Handle)
        requires
            old(self).wf(),
            old(self).path_model().len() > 0,
            old(self).sibling_resolution(offset) is Valid,
            old(self).parent_clear(),
        ensures
            final(self).wf(),
            final(self).start_id() == old(self).start_id(),
            c.id() == old(self).store_model()[old(self).parent_id()].children[
                old(self).path_model().last() as int + offset as int],
            final(self).store_model() == old(self).store_model().update(
                old(self).parent_id(),
                NodeModel {
                    data: old(self).store_model()[old(self).parent_id()].data,
                    children: old(self).store_model()[old(self).parent_id()].children.remove(
                        old(self).path_model().last() as int + offset as int,
                    ),
                },
            ),
            offset != 0 ==> ({
                let h = old(self).path_model().last() as int;
                let s = h + offset as int;
                final(self).focus_id() == old(self).focus_id() && final(self).path_model() == old(self).path_model().drop_last().push(
                    (if s < h {
                        h - 1
                    } else {
                        h
                    }) as usize,
                )
            }),
            offset == 0 ==> ({
                let rest = old(self).store_model()[old(self).parent_id()].children.remove(
                    old(self).path_model().last() as int,
                );
                let h = old(self).path_model().last() as int;
                if rest.len() == 0 {
                    final(self).path_model() == old(self).path_model().drop_last() && final(self).focus_id() == old(self).parent_id()
                } else {
                    let k = if h < rest.len() {
                        h
                    } else {
                        rest.len() - 1
                    };
                    final(self).path_model() == old(self).path_model().drop_last().push(k as usize)
                        && final(self).focus_id() == rest[k]
                }
            }),
    {
        proof {
            assert(old(self).path_model().len() == old(self).path@.len());
            lemma_consistent_drop_last(self.tree, self.path@, self.start as int);
            lemma_consistent_end_in_range(self.tree, self.path@.drop_last(), self.start as int);
            assert(self.path_model().last() == self.path@.last().1);
        }
        if offset == 0 {
            return self.remove();
        }
        let h = self.path[self.path.len() - 1].1;
        let s = match self.resolve_sibling_offset(offset) {
            SiblingIndex::Valid(s) => s,
            _ => unreached(),
        };
        let _ = self.to_parent();
        let c = self.remove_child(s);
        let k = if s < h {
            h - 1
        } else {
            h
        };
        let _ = self.seek_child(k);
        c
    }

    /// Inserts `child` at the position the given offset addresses relative
    /// to the focus and moves the focus onto it; the slot one past the last
    /// sibling appends. Invalid at the start of the cursor.
    pub fn insert_sibling(&mut self, offset: isize, child: Handle)
        requires
            old(self).wf(),
            old(self).path_model().len() > 0,
            0 <= child.id() < old(self).store_model().len(),
            0 <= old(self).path_model().last() as int + offset as int <= old(self).store_model()[
                old(self).parent_id()].children.len(),
            old(self).parent_clear(),
        ensures
            final(self).wf(),
            final(self).start_id() == old(self).start_id(),
            final(self).store_model() == old(self).store_model().update(
                old(self).parent_id(),
                NodeModel {
                    data: old(self).store_model()[old(self).parent_id()].data,
                    children: old(self).store_model()[old(self).parent_id()].children.insert(
                        old(self).path_model().last() as int + offset as int,
                        child.id(),
                    ),
                },
            ),
            final(self).path_model() == old(self).path_model().drop_last().push(
                ((old(self).path_model().last() as int + offset as int) as usize),
            ),
            final(self).focus_id() == child.id(),
    {
        proof {
            assert(old(self).path_model().len() == old(self).path@.len());
            lemma_consistent_drop_last(self.tree, self.path@, self.start as int);
            lemma_consistent_end_in_range(self.tree, self.path@.drop_last(), self.start as int);
            assert(self.path_model().last() == self.path@.last().1);
        }
        let parent = if self.path.len() == 1 {
            self.start
        } else {
            self.path[self.path.len() - 2].0
        };
        proof {
            assert(parent as int == self.parent_id());
        }
        let cnt = self.tree.child_count(Handle { index: parent });
        let slot = match self.resolve_sibling_offset(offset) {
            SiblingIndex::Valid(s) => s,
            SiblingIndex::OutOfRange(c, n) => {
                if c == n {
                    c
                } else {
                    unreached()
                }
            },
            _ => unreached(),
        };
        let _ = self.to_parent();
        self.insert_child(slot, child);
    }

    /// Stores a new leaf with the given data, inserts it at the position the
    /// given offset addresses relative to the focus, and moves the focus
    /// onto it. Invalid at the start of the cursor.
    pub fn insert_sibling_leaf(&mut self, offset: isize, data: T)
        requires
            old(self).wf(),
            old(self).path_model().len() > 0,
            0 <= old(self).path_model().last() as int + offset as int <= old(self).store_model()[
                old(self).parent_id()].children.len(),
            old(self).parent_clear(),
        ensures
            final(self).wf(),
            final(self).start_id() == old(self).start_id(),
            final(self).store_model() == old(self).store_model().push(
                NodeModel { data, children: Seq::<int>::empty() },
            ).update(
                old(self).parent_id(),
                NodeModel {
                    data: old(self).store_model()[old(self).parent_id()].data,
                    children: old(self).store_model()[old(self).parent_id()].children.insert(
                        old(self).path_model().last() as int + offset as int,
                        old(self).store_model().len() as int,
                    ),
                },
            ),
            final(self).path_model() == old(self).path_model().drop_last().push(
                ((old(self).path_model().last() as int + offset as int) as usize),
            ),
            final(self).focus_id() == old(self).store_model().len(),
    {
        proof {
            self.lemma_focus_in_range();
            lemma_consistent_drop_last(self.tree, self.path@, self.start as int);
            lemma_consistent_end_in_range(self.tree, self.path@.drop_last(), self.start as int);
        }
        let ghost t0 = self.tree;
        let c = self.tree.leaf(data);
        proof {
            assert forall|i: int, j: int|
                0 <= i < t0.nodes_model().len() && 0 <= j < count_of(t0, i) implies count_of(
                self.tree,
                i,
            ) == count_of(t0, i) && kid_of(self.tree, i, j) == kid_of(t0, i, j) by {}
            lemma_data_edit_keeps_consistency(t0, self.tree, self.path@, self.start as int);
        }
        self.insert_sibling(offset, c);
    }

    /// Exchanges the siblings the two given offsets address. Equal offsets
    /// are a no-op; if either offset addresses the focus itself, the focus
    /// follows that node to its new position. Invalid at the start of the
    /// cursor.
    pub fn swap_siblings(&mut self, offset_a: isize, offset_b: isize)
        requires
            old(self).wf(),
            old(self).path_model().len() > 0,
            old(self).sibling_resolution(offset_a) is Valid,
            old(self).sibling_resolution(offset_b) is Valid,
            old(self).parent_clear(),
        ensures
            final(self).wf(),
            final(self).start_id() == old(self).start_id(),
            final(self).focus_id() == old(self).focus_id(),
            final(self).store_model() == old(self).store_model().update(
                old(self).parent_id(),
                NodeModel {
                    data: old(self).store_model()[old(self).parent_id()].data,
                    children: old(self).store_model()[old(self).parent_id()].children.update(
                        old(self).path_model().last() as int + offset_a as int,
                        old(self).store_model()[old(self).parent_id()].children[
                            old(self).path_model().last() as int + offset_b as int],
                    ).update(
                        old(self).path_model().last() as int + offset_b as int,
                        old(self).store_model()[old(self).parent_id()].children[
                            old(self).path_model().last() as int + offset_a as int],
                    ),
                },
            ),
            final(self).path_model() == old(self).path_model().drop_last().push(
                ({
                    let h = old(self).path_model().last() as int;
                    let a = h + offset_a as int;
                    let b = h + offset_b as int;
                    (if h == a {
                        b
                    } else if h == b {
                        a
                    } else {
                        h
                    }) as usize
                }),
            ),
    {
        proof {
            assert(old(self).path_model().len() == old(self).path@.len());
            lemma_consistent_drop_last(self.tree, self.path@, self.start as int);
            lemma_consistent_end_in_range(self.tree, self.path@.drop_last(), self.start as int);
            assert(self.path_model().last() == self.path@.last().1);
        }
        let h = self.path[self.path.len() - 1].1;
        let a = match self.resolve_sibling_offset(offset_a) {
            SiblingIndex::Valid(s) => s,
            _ => unreached(),
        };
        let b = match self.resolve_sibling_offset(offset_b) {
            SiblingIndex::Valid(s) => s,
            _ => unreached(),
        };
        let k = if h == a {
            b
        } else if h == b {
            a
        } else {
            h
        };
        let _ = self.to_parent();
        self.swap_children(a, b);
        let _ = self.seek_child(k);
    }

    /// Finishes editing and hands the arena back; every handle stays valid
    /// against it.
    pub fn into_tree(self) -> (t: Tree<T>)
        requires
            self.wf(),
        ensures
            t.wf(),
            t.nodes_model() == self.store_model(),
    {
        self.tree
    }
}

/// An arena change that only adds nodes, or only rewrites node data, leaves
/// every recorded path consistent: no child count and no edge moved.
proof fn lemma_data_edit_keeps_consistency<T>(
    t0: Tree<T>,
    t1: Tree<T>,
    path: Seq<(usize, usize)>,
    from: int,
)
    requires
        path_consistent(t0, path, from),
        forall|i: int, j: int|
            0 <= i < t0.nodes_model().len() && 0 <= j < count_of(t0, i) ==> count_of(t1, i)
                == count_of(t0, i) && kid_of(t1, i, j) == kid_of(t0, i, j),
        forall|i: int|
            0 <= i < t0.nodes_model().len() ==> count_of(t1, i) == #[trigger] count_of(t0, i),
        t0.wf(),
        0 <= from < t0.nodes_model().len(),
    ensures
        path_consistent(t1, path, from),
    decreases path.len(),
{
    if path.len() > 0 {
        lemma_kid_in_range(t0, from, path[0].1 as int);
        lemma_data_edit_keeps_consistency(t0, t1, path.drop_first(), path[0].0 as int);
    }
}

/// Path-reconstruction invariant of the write cursor: on a well-formed
/// editor, replaying the recorded child positions from the start through the
/// arena reaches exactly the focus node.
pub proof fn lemma_editor_path_reconstruction<T>(e: TreeEditor<T>)
    requires
        e.wf(),
    ensures
        e.replay() == e.focus_id(),
{
    lemma_follow_consistent(e.tree, e.path@, e.start as int);
}

impl<T> Tree<T> {
    /// A write cursor focused on the given node. The editor takes the arena
    /// over; `into_tree` hands it back.
    pub fn view_mut(self, node: Handle) -> (e: TreeEditor<T>)
        requires
            self.wf(),
            self.valid(node),
        ensures
            e.wf(),
            e.store_model() == self.nodes_model(),
            e.start_id() == node.id(),
            e.path_model() == Seq::<usize>::empty(),
            e.focus_id() == node.id(),
    {
        let e = TreeEditor { tree: self, start: node.index, path: Vec::new() };
        proof {
            assert(e.path@ =~= Seq::<(usize, usize)>::empty());
            assert(e.path_model() =~= Seq::<usize>::empty());
        }
        e
    }
}

} // verus!
