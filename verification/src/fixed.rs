use vstd::prelude::*;
use vstd::pervasive::VecAdditionalExecFns;

use crate::model::TreeModel;
use crate::model::size_of_seq;
use crate::owned;
use crate::traversal::Queue;
use crate::util::SiblingIndex;
use crate::util::resolve_sibling;

verus! {

/// Fixed-layout tree with good memory locality.
///
/// Node values are kept in one flat array; the records of tree edges are
/// kept in two further flat arrays, so navigation touches contiguous
/// memory. The layout offers no way to change the topology once built:
/// extending the tree means rebuilding it.
///
/// Node 0 is the root. The children of node `i` occupy a contiguous run of
/// the child-index array starting at the node's offset; the run ends at the
/// next node's offset, or at the end of the array for the last node.
pub struct Tree<T> {
    data: Vec<T>,
    offsets: Vec<usize>,
    children: Vec<usize>,
}

impl<T> Tree<T> {
    /// The three arrays are consistent: one offset per node, at least the
    /// root node, offsets nondecreasing and within the child-index array,
    /// and every child index naming an existing node.
    pub closed spec fn wf(self) -> bool {
        &&& self.offsets@.len() == self.data@.len()
        &&& self.data@.len() >= 1
        &&& self.offsets@[0] == 0
        &&& forall|i: int|
            0 <= i < self.offsets@.len() - 1 ==> #[trigger] self.offsets@[i] <= self.offsets@[i
                + 1]
        &&& forall|i: int| 0 <= i < self.offsets@.len() ==> #[trigger] self.offsets@[i]
            <= self.children@.len()
        &&& forall|i: int| 0 <= i < self.children@.len() ==> #[trigger] self.children@[i]
            < self.data@.len()
    }

    /// The stored node values, in layout order.
    pub closed spec fn nodes_model(self) -> Seq<T> {
        self.data@
    }

    /// The number of children of node `i`.
    pub closed spec fn child_count_of(self, i: int) -> int
        recommends
            self.wf(),
            0 <= i < self.nodes_model().len(),
    {
        (if i + 1 < self.offsets@.len() {
            self.offsets@[i + 1] as int
        } else {
            self.children@.len() as int
        }) - self.offsets@[i]
    }

    /// The storage index of child `j` of node `i`.
    pub closed spec fn child_of_model(self, i: int, j: int) -> int
        recommends
            self.wf(),
            0 <= i < self.nodes_model().len(),
            0 <= j < self.child_count_of(i),
    {
        self.children@[self.offsets@[i] + j] as int
    }

    /// The flat layout encodes exactly the tree `m` under the given
    /// assignment of a subtree model to every node: the root is assigned
    /// `m`; every node carries its assigned model's datum and has its child
    /// count; each recorded child edge leads to a node assigned the
    /// corresponding child model, in order; and no node is the target of
    /// two edges, nor the root of any.
    pub open spec fn encodes_by(self, expect: Seq<TreeModel<T>>, m: TreeModel<T>) -> bool {
        &&& expect.len() == self.nodes_model().len()
        &&& expect.len() >= 1
        &&& expect[0] == m
        &&& forall|id: int| 0 <= id < expect.len() ==> (#[trigger] expect[id]).data
            == self.nodes_model()[id]
        &&& forall|id: int| 0 <= id < expect.len() ==> (#[trigger] expect[id]).children.len()
            == self.child_count_of(id)
        &&& forall|id: int, j: int|
            0 <= id < expect.len() && 0 <= j < expect[id].children.len() ==> 1 <= (
            #[trigger] self.child_of_model(id, j)) < expect.len() && expect[self.child_of_model(
                id,
                j,
            )] == expect[id].children[j]
        &&& forall|id1: int, j1: int, id2: int, j2: int|
            0 <= id1 < expect.len() && 0 <= j1 < expect[id1].children.len() && 0 <= id2
                < expect.len() && 0 <= j2 < expect[id2].children.len() && #[trigger] self.child_of_model(
                id1,
                j1,
            ) == #[trigger] self.child_of_model(id2, j2) ==> id1 == id2 && j1 == j2
    }

    /// The flat layout encodes exactly the tree `m`: some assignment of
    /// subtree models to the nodes witnesses it.
    pub open spec fn encodes(self, m: TreeModel<T>) -> bool {
        exists|expect: Seq<TreeModel<T>>| self.encodes_by(expect, m)
    }

    /// Constructs a new tree with no children and the given data.
    pub fn leaf(data: T) -> (t: Self)
        ensures
            t.wf(),
            t.nodes_model() =~= seq![data],
            t.child_count_of(0) == 0,
    {
        let mut d: Vec<T> = Vec::new();
        d.push(data);
        let mut o: Vec<usize> = Vec::new();
        o.push(0);
        Tree { data: d, offsets: o, children: Vec::new() }
    }

    /// Returns the number of nodes in this tree.
    pub fn size(&self) -> (r: usize)
        ensures
            r == self.nodes_model().len(),
    {
        self.data.len()
    }

    /// Returns a borrowed view of the nodes, in the order in which they are
    /// stored.
    pub fn nodes(&self) -> (r: &[T])
        ensures
            r@ == self.nodes_model(),
    {
        self.data.as_slice()
    }

    /// Replaces the data stored at the given storage index. The topology is
    /// fixed, but node data may be rewritten in place.
    pub fn set_node(&mut self, index: usize, value: T)
        requires
            index < old(self).nodes_model().len(),
        ensures
            final(self).wf() == old(self).wf(),
            final(self).nodes_model() == old(self).nodes_model().update(index as int, value),
            forall|i: int| final(self).child_count_of(i) == old(self).child_count_of(i),
            forall|i: int, j: int|
                final(self).child_of_model(i, j) == old(self).child_of_model(i, j),
    {
        self.data.set(index, value);
    }

    /// Returns the number of children of the node at the given storage
    /// index.
    pub fn child_count(&self, index: usize) -> (r: usize)
        requires
            self.wf(),
            index < self.nodes_model().len(),
        ensures
            r as int == self.child_count_of(index as int),
    {
        let next = if index < self.offsets.len() - 1 {
            self.offsets[index + 1]
        } else {
            self.children.len()
        };
        next - self.offsets[index]
    }

    /// Returns the storage index of the given child of the given node.
    pub fn child_of(&self, parent: usize, index: usize) -> (r: usize)
        requires
            self.wf(),
            parent < self.nodes_model().len(),
            (index as int) < self.child_count_of(parent as int),
        ensures
            r as int == self.child_of_model(parent as int, index as int),
            r < self.nodes_model().len(),
    {
        let n = self.children.len();
        proof {
            assert(self.offsets@[parent as int] + index < n);
        }
        self.children[self.offsets[parent] + index]
    }

    /// Constructs a tree based on the ordering imposed by a traversal.
    ///
    /// The given node data becomes the root; each queued subtree is laid out
    /// when the queue hands it back, so the queue's discipline decides the
    /// order in which node data appears in memory. The result holds exactly
    /// one entry per node of the given tree and encodes exactly that tree:
    /// node 0 carries the root, and every node's recorded child run lists,
    /// in order, the storage indices of the nodes holding its subtrees.
    pub fn from_traversal<Q: Queue<(usize, owned::Tree<T>)>>(
        queue: Q,
        data: T,
        children: Vec<owned::Tree<T>>,
    ) -> (t: Self)
        requires
            queue.items().len() == 0,
        ensures
            t.wf(),
            t.nodes_model().len() == (TreeModel {
                data,
                children: owned::models_of(children),
            }).size(),
            t.nodes_model()[0] == data,
            t.encodes(TreeModel { data, children: owned::models_of(children) }),
    {
        let ghost rm = TreeModel { data, children: owned::models_of(children) };
        let ghost total = rm.size();
        let mut queue = queue;
        let mut tree = Tree { data: Vec::new(), offsets: Vec::new(), children: Vec::new() };
        tree.data.push(data);
        tree.offsets.push(0);
        let ghost q0 = queue.items();
        let ghost s0 = tree.children@.len() as int;
        enqueue_kids(&mut queue, &mut tree.children, children);
        let ghost mut expect: Seq<TreeModel<T>> = seq![rm];
        proof {
            lemma_pending_size_nonneg(queue.items());
            assert forall|id: int, j: int|
                0 <= id < expect.len() && 0 <= j < expect[id].children.len() implies edge_ok(
                tree,
                expect,
                queue.items(),
                id,
                j,
            ) by {
                assert(queue.items()[q0.len() + j].0 == s0 + j);
                assert(queue.items()[q0.len() + j].1.model() == rm.children[j]);
                assert(pending(queue.items(), j, rm.children[j]));
            }
            assert forall|k1: int, k2: int|
                0 <= k1 < k2 < queue.items().len() implies (#[trigger] queue.items()[k1]).0 != (
            #[trigger] queue.items()[k2]).0 by {
                assert(queue.items()[q0.len() + k1].0 == s0 + k1);
                assert(queue.items()[q0.len() + k2].0 == s0 + k2);
                assert(q0.len() + k1 == k1);
                assert(q0.len() + k2 == k2);
            }
            assert(layout_tracks(tree, expect, queue.items()));
        }
        while queue.len() > 0
            invariant
                tree.offsets@.len() == tree.data@.len(),
                tree.data@.len() >= 1,
                tree.offsets@[0] == 0,
                forall|i: int|
                    0 <= i < tree.offsets@.len() - 1 ==> #[trigger] tree.offsets@[i]
                        <= tree.offsets@[i + 1],
                forall|i: int|
                    0 <= i < tree.offsets@.len() ==> #[trigger] tree.offsets@[i]
                        <= tree.children@.len(),
                forall|i: int|
                    0 <= i < tree.children@.len() ==> #[trigger] tree.children@[i]
                        < tree.data@.len(),
                forall|k: int|
                    0 <= k < queue.items().len() ==> (#[trigger] queue.items()[k]).0
                        < tree.children@.len(),
                forall|k: int|
                    0 <= k < queue.items().len() ==> tree.children@[(
                    #[trigger] queue.items()[k]).0 as int] == 0,
                forall|k1: int, k2: int|
                    0 <= k1 < k2 < queue.items().len() ==> (#[trigger] queue.items()[k1]).0 != (
                    #[trigger] queue.items()[k2]).0,
                tree.data@.len() + pending_size(queue.items()) == total,
                pending_size(queue.items()) >= 0,
                tree.data@[0] == data,
                forall|s1: int, s2: int|
                    0 <= s1 < s2 < tree.children@.len() && tree.children@[s1] != 0
                        && tree.children@[s2] != 0 ==> #[trigger] tree.children@[s1]
                        != #[trigger] tree.children@[s2],
                expect.len() == tree.data@.len(),
                expect[0] == rm,
                forall|d: int| 0 <= d < expect.len() ==> (#[trigger] expect[d]).data
                    == tree.data@[d],
                forall|d: int| 0 <= d < expect.len() ==> (#[trigger] expect[d]).children.len()
                    == tree.child_count_of(d),
                layout_tracks(tree, expect, queue.items()),
            decreases pending_size(queue.items()),
        {
            let ghost pre_items = queue.items();
            let ghost tree0 = tree;
            let ghost expect0 = expect;
            let item = queue.unshift();
            let (slot, node) = match item {
                Some(p) => p,
                None => unreached(),
            };
            let ghost i = choose|i: int|
                0 <= i < pre_items.len() && item == Some(#[trigger] pre_items[i])
                    && queue.items() == pre_items.remove(i);
            let ghost nm = node.model();
            let ghost items1 = queue.items();
            proof {
                lemma_pending_size_remove(pre_items, i);
                lemma_node_size_parts(node);
                assert(pre_items[i] == (slot, node));
            }
            let owned::Tree { data: ndata, children: nchildren } = node;
            proof {
                assert(nm.children == owned::models_of(nchildren));
            }
            let id = tree.data.len();
            tree.data.push(ndata);
            tree.offsets.push(tree.children.len());
            tree.children.set(slot, id);
            let ghost base = tree0.children@.len() as int;
            enqueue_kids(&mut queue, &mut tree.children, nchildren);
            proof {
                expect = expect0.push(nm);
                let old_len = expect0.len() as int;
                let kcount = nm.children.len() as int;
                let fin = queue.items();
                // how the arrays and the work queue moved in this step
                assert(tree.data@ =~= tree0.data@.push(ndata));
                assert(tree.offsets@ =~= tree0.offsets@.push(base as usize));
                assert(tree.children@.len() == base + kcount);
                assert(forall|s: int|
                    0 <= s < base && s != slot as int ==> tree.children@[s] == tree0.children@[s]);
                assert(tree.children@[slot as int] == id as usize);
                assert(forall|s: int| base <= s < base + kcount ==> tree.children@[s] == 0);
                assert(fin.len() == items1.len() + kcount);
                assert(forall|k: int| 0 <= k < items1.len() ==> fin[k] == items1[k]);
                assert(forall|m: int|
                    0 <= m < kcount ==> (#[trigger] fin[items1.len() + m]).0 as int == base + m);
                assert(forall|m: int|
                    0 <= m < kcount ==> (#[trigger] fin[items1.len() + m]).1.model()
                        == nm.children[m]);
                assert forall|k: int| 0 <= k < items1.len() implies #[trigger] items1[k] == (
                if k < i {
                    pre_items[k]
                } else {
                    pre_items[k + 1]
                }) by {
                    lemma_remove_maps(pre_items, i, k);
                }
                // counts: the new node gets its model's child count, nobody
                // else's count moves
                assert forall|d: int| 0 <= d < expect.len() implies (
                #[trigger] expect[d]).children.len() == tree.child_count_of(d) by {
                    if d < old_len - 1 {
                        assert(expect[d] == expect0[d]);
                        assert(tree.offsets@[d] == tree0.offsets@[d]);
                        assert(tree.offsets@[d + 1] == tree0.offsets@[d + 1]);
                    } else if d == old_len - 1 {
                        assert(expect[d] == expect0[d]);
                        assert(tree.offsets@[d] == tree0.offsets@[d]);
                        assert(tree.offsets@[d + 1] == base as usize);
                        assert(tree0.child_count_of(d) == base - tree0.offsets@[d]);
                    } else {
                        assert(d == old_len);
                        assert(expect[d] == nm);
                        assert(tree.offsets@[d] == base as usize);
                        assert(tree.child_count_of(d) == kcount);
                    }
                }
                // every called-for edge is still filled or pending
                assert forall|d: int, j: int|
                    0 <= d < expect.len() && 0 <= j < expect[d].children.len() implies edge_ok(
                    tree,
                    expect,
                    fin,
                    d,
                    j,
                ) by {
                    if d < old_len {
                        assert(expect[d] == expect0[d]);
                        assert(edge_ok(tree0, expect0, pre_items, d, j));
                        assert(tree0.child_of_model(d, j) == tree0.children@[tree0.offsets@[d] as int
                            + j] as int);
                        let sl = tree0.offsets@[d] as int + j;
                        assert(0 <= sl < base);
                        assert(tree.offsets@[d] == tree0.offsets@[d]);
                        if sl == slot as int {
                            // the popped work item was the one for this slot
                            assert(tree0.children@[sl] == 0);
                            assert(pending(pre_items, sl, expect0[d].children[j]));
                            let k = choose|k: int|
                                0 <= k < pre_items.len() && (#[trigger] pre_items[k]).0 as int
                                    == sl && pre_items[k].1.model() == expect0[d].children[j];
                            assert(k == i);
                            assert(expect0[d].children[j] == nm);
                            assert(tree.children@[sl] == id as usize);
                            assert(expect[id as int] == nm);
                        } else {
                            assert(tree.children@[sl] == tree0.children@[sl]);
                            if tree0.children@[sl] == 0 {
                                assert(pending(pre_items, sl, expect0[d].children[j]));
                                let k = choose|k: int|
                                    0 <= k < pre_items.len() && (#[trigger] pre_items[k]).0 as int
                                        == sl && pre_items[k].1.model() == expect0[d].children[j];
                                assert(k != i);
                                let k1 = if k < i {
                                    k
                                } else {
                                    k - 1
                                };
                                assert(items1[k1] == pre_items[k]);
                                assert(fin[k1] == pre_items[k]);
                                assert(pending(fin, sl, expect[d].children[j]));
                            } else {
                                assert(tree0.children@[sl] < old_len);
                                assert(expect[tree0.children@[sl] as int] == expect0[
                                    tree0.children@[sl] as int]);
                            }
                        }
                    } else {
                        assert(d == old_len);
                        assert(expect[d] == nm);
                        assert(tree.offsets@[d] as int == base);
                        let sl = base + j;
                        assert(tree.children@[sl] == 0);
                        assert(fin[items1.len() + j].0 as int == sl);
                        assert(fin[items1.len() + j].1.model() == nm.children[j]);
                        assert(pending(fin, sl, expect[d].children[j]));
                    }
                }
                assert(layout_tracks(tree, expect, fin));
                // slot bookkeeping for the remaining and the new work items
                assert forall|k: int| 0 <= k < fin.len() implies (#[trigger] fin[k]).0
                    < tree.children@.len() && tree.children@[fin[k].0 as int] == 0 by {
                    if k < items1.len() {
                        let k0 = if k < i {
                            k
                        } else {
                            k + 1
                        };
                        assert(fin[k] == pre_items[k0]);
                        assert(pre_items[k0].0 < base);
                        assert(pre_items[k0].0 != pre_items[i].0);
                        assert(tree0.children@[pre_items[k0].0 as int] == 0);
                    } else {
                        let m = k - items1.len();
                        assert(fin[items1.len() + m].0 as int == base + m);
                        assert(items1.len() + m == k);
                    }
                }
                assert forall|k1: int, k2: int| 0 <= k1 < k2 < fin.len() implies (
                #[trigger] fin[k1]).0 != (#[trigger] fin[k2]).0 by {
                    if k2 < items1.len() {
                        let a = if k1 < i {
                            k1
                        } else {
                            k1 + 1
                        };
                        let b = if k2 < i {
                            k2
                        } else {
                            k2 + 1
                        };
                        assert(fin[k1] == pre_items[a]);
                        assert(fin[k2] == pre_items[b]);
                        assert(a < b);
                    } else if k1 < items1.len() {
                        let a = if k1 < i {
                            k1
                        } else {
                            k1 + 1
                        };
                        assert(fin[k1] == pre_items[a]);
                        assert(pre_items[a].0 < base);
                        let m2 = k2 - items1.len();
                        assert(fin[items1.len() + m2].0 as int == base + m2);
                        assert(items1.len() + m2 == k2);
                    } else {
                        let m1 = k1 - items1.len();
                        let m2 = k2 - items1.len();
                        assert(fin[items1.len() + m1].0 as int == base + m1);
                        assert(fin[items1.len() + m2].0 as int == base + m2);
                        assert(items1.len() + m1 == k1);
                        assert(items1.len() + m2 == k2);
                    }
                }
                assert forall|s1: int, s2: int|
                    0 <= s1 < s2 < tree.children@.len() && tree.children@[s1] != 0
                        && tree.children@[s2] != 0 implies tree.children@[s1]
                    != tree.children@[s2] by {
                    if s2 < base {
                        if s1 == slot as int {
                            assert(tree.children@[s2] == tree0.children@[s2]);
                            assert(tree0.children@[s2] < tree0.data@.len());
                        } else if s2 == slot as int {
                            assert(tree.children@[s1] == tree0.children@[s1]);
                            assert(tree0.children@[s1] < tree0.data@.len());
                        } else {
                            assert(tree.children@[s1] == tree0.children@[s1]);
                            assert(tree.children@[s2] == tree0.children@[s2]);
                        }
                    } else {
                        assert(tree.children@[s2] == 0);
                    }
                }
                lemma_pending_size_nonneg(queue.items());
            }
        }
        proof {
            assert forall|id: int, j: int|
                0 <= id < expect.len() && 0 <= j < expect[id].children.len() implies 1 <= (
            #[trigger] tree.child_of_model(id, j)) < expect.len() && expect[tree.child_of_model(
                id,
                j,
            )] == expect[id].children[j] by {
                assert(queue.items().len() == 0);
                assert(edge_ok(tree, expect, queue.items(), id, j));
                let sl = tree.offsets@[id] as int + j;
                assert(!pending(queue.items(), sl, expect[id].children[j]));
                assert(tree.children@[sl] != 0);
            }
            assert forall|id1: int, j1: int, id2: int, j2: int|
                0 <= id1 < expect.len() && 0 <= j1 < expect[id1].children.len() && 0 <= id2
                    < expect.len() && 0 <= j2 < expect[id2].children.len()
                    && tree.child_of_model(id1, j1) == tree.child_of_model(id2, j2) implies id1
                == id2 && j1 == j2 by {
                assert(edge_ok(tree, expect, queue.items(), id1, j1));
                assert(edge_ok(tree, expect, queue.items(), id2, j2));
                let s1 = tree.offsets@[id1] as int + j1;
                let s2 = tree.offsets@[id2] as int + j2;
                assert(tree.children@[s1] != 0);
                assert(tree.children@[s2] != 0);
                if id1 < id2 {
                    lemma_offsets_chain(tree, id1 + 1, id2);
                    assert(s1 < tree.offsets@[id1 + 1] as int);
                    assert(s1 != s2);
                } else if id2 < id1 {
                    lemma_offsets_chain(tree, id2 + 1, id1);
                    assert(s2 < tree.offsets@[id2 + 1] as int);
                    assert(s1 != s2);
                } else {
                    assert(s1 == s2);
                }
            }
            assert(tree.encodes_by(expect, rm));
        }
        tree
    }

    /// A cursor focused on the root of this tree.
    pub fn view<'s>(&'s self) -> (v: TreeView<'s, T>)
        requires
            self.wf(),
        ensures
            v.wf(),
            v.nodes_model() == self.nodes_model(),
            v.path_model() == Seq::<usize>::empty(),
            v.focus_index() == 0,
    {
        let v = TreeView { tree: self, path: Vec::new() };
        proof {
            assert(v.path@ =~= Seq::<(usize, usize)>::empty());
            assert(v.path_model() =~= Seq::<usize>::empty());
        }
        v
    }
}

/// Offsets are nondecreasing across any distance, not just step by step.
proof fn lemma_offsets_chain<T>(t: Tree<T>, i: int, k: int)
    requires
        forall|x: int|
            0 <= x < t.offsets@.len() - 1 ==> #[trigger] t.offsets@[x] <= t.offsets@[x + 1],
        0 <= i <= k < t.offsets@.len(),
    ensures
        t.offsets@[i] <= t.offsets@[k],
    decreases k - i,
{
    if i < k {
        lemma_offsets_chain(t, i, k - 1);
    }
}

/// Whether some queued work item will fill slot `s` with a subtree of model
/// `m`.
spec fn pending<T>(items: Seq<(usize, owned::Tree<T>)>, s: int, m: TreeModel<T>) -> bool {
    exists|k: int|
        0 <= k < items.len() && (#[trigger] items[k]).0 as int == s && items[k].1.model() == m
}

/// Child edge `j` of node `id` is either already recorded and leads to a
/// node assigned the corresponding child model, or still has a queued work
/// item that will fill its placeholder slot with that model.
spec fn edge_ok<T>(
    t: Tree<T>,
    expect: Seq<TreeModel<T>>,
    items: Seq<(usize, owned::Tree<T>)>,
    id: int,
    j: int,
) -> bool {
    let s = t.offsets@[id] as int + j;
    &&& 0 <= s < t.children@.len()
    &&& t.child_of_model(id, j) == t.children@[s] as int
    &&& (t.children@[s] == 0 ==> pending(items, s, expect[id].children[j]))
    &&& (t.children@[s] != 0 ==> 1 <= t.children@[s] < expect.len() && expect[t.children@[s] as int]
        == expect[id].children[j])
}

/// Every child edge that the assigned models call for is accounted for.
spec fn layout_tracks<T>(
    t: Tree<T>,
    expect: Seq<TreeModel<T>>,
    items: Seq<(usize, owned::Tree<T>)>,
) -> bool {
    forall|id: int, j: int|
        0 <= id < expect.len() && 0 <= j < expect[id].children.len() ==> #[trigger] edge_ok(
            t,
            expect,
            items,
            id,
            j,
        )
}

/// Removing the work item at position `i` maps the remaining positions onto
/// the old ones.
proof fn lemma_remove_maps<T>(items: Seq<(usize, owned::Tree<T>)>, i: int, k: int)
    requires
        0 <= i < items.len(),
        0 <= k < items.len() - 1,
    ensures
        items.remove(i)[k] == (if k < i {
            items[k]
        } else {
            items[k + 1]
        }),
{
}

/// The total number of tree nodes still pending in a traversal queue.
spec fn pending_size<T>(items: Seq<(usize, owned::Tree<T>)>) -> int
    decreases items.len(),
{
    if items.len() == 0 {
        0
    } else {
        items[0].1.model().size() + pending_size(items.drop_first())
    }
}

/// A pending node count is never negative.
proof fn lemma_pending_size_nonneg<T>(items: Seq<(usize, owned::Tree<T>)>)
    ensures
        pending_size(items) >= 0,
    decreases items.len(),
{
    if items.len() > 0 {
        lemma_pending_size_nonneg(items.drop_first());
    }
}

/// Appending a work item adds exactly that subtree's node count.
proof fn lemma_pending_size_push<T>(items: Seq<(usize, owned::Tree<T>)>, x: (usize, owned::Tree<T>))
    ensures
        pending_size(items.push(x)) == pending_size(items) + x.1.model().size(),
    decreases items.len(),
{
    if items.len() == 0 {
        assert(items.push(x)[0] == x);
        assert(items.push(x).drop_first() =~= Seq::<(usize, owned::Tree<T>)>::empty());
        assert(pending_size(Seq::<(usize, owned::Tree<T>)>::empty()) == 0);
    } else {
        assert(items.push(x)[0] == items[0]);
        assert(items.push(x).drop_first() =~= items.drop_first().push(x));
        lemma_pending_size_push(items.drop_first(), x);
    }
}

/// Removing a work item subtracts exactly that subtree's node count.
proof fn lemma_pending_size_remove<T>(items: Seq<(usize, owned::Tree<T>)>, i: int)
    requires
        0 <= i < items.len(),
    ensures
        pending_size(items.remove(i)) == pending_size(items) - items[i].1.model().size(),
    decreases i,
{
    if i == 0 {
        assert(items.remove(0) =~= items.drop_first());
    } else {
        assert(items.remove(i)[0] == items[0]);
        assert(items.remove(i).drop_first() =~= items.drop_first().remove(i - 1));
        lemma_pending_size_remove(items.drop_first(), i - 1);
    }
}

/// A node's size is one more than its children's total size.
proof fn lemma_node_size_parts<T>(t: owned::Tree<T>)
    ensures
        t.model().size() == 1 + size_of_seq(t.model().children),
{
}

/// Appending a subtree model adds exactly its node count to a list's total.
proof fn lemma_size_of_seq_push<T>(s: Seq<TreeModel<T>>, x: TreeModel<T>)
    ensures
        size_of_seq(s.push(x)) == size_of_seq(s) + x.size(),
    decreases s.len(),
{
    if s.len() == 0 {
        assert(s.push(x)[0] == x);
        assert(s.push(x).drop_first() =~= Seq::<TreeModel<T>>::empty());
        assert(size_of_seq(Seq::<TreeModel<T>>::empty()) == 0);
    } else {
        assert(s.push(x)[0] == s[0]);
        assert(s.push(x).drop_first() =~= s.drop_first().push(x));
        lemma_size_of_seq_push(s.drop_first(), x);
    }
}

/// Reserves one placeholder slot per subtree in `kids` and queues each
/// subtree together with its slot, leaving existing slots and queued work
/// untouched.
fn enqueue_kids<T, Q: Queue<(usize, owned::Tree<T>)>>(
    queue: &mut Q,
    slots: &mut Vec<usize>,
    kids: Vec<owned::Tree<T>>,
)
    ensures
        final(slots)@.len() == old(slots)@.len() + kids@.len(),
        forall|i: int| 0 <= i < old(slots)@.len() ==> final(slots)@[i] == old(slots)@[i],
        forall|i: int| old(slots)@.len() <= i < final(slots)@.len() ==> final(slots)@[i] == 0,
        final(queue).items().len() == old(queue).items().len() + kids@.len(),
        forall|k: int|
            0 <= k < old(queue).items().len() ==> final(queue).items()[k] == old(queue).items()[k],
        forall|k: int|
            old(queue).items().len() <= k < final(queue).items().len() ==> old(slots)@.len() <= (
            #[trigger] final(queue).items()[k]).0 < final(slots)@.len(),
        forall|m: int|
            0 <= m < kids@.len() ==> (#[trigger] final(queue).items()[old(queue).items().len()
                + m]).0 == old(slots)@.len() + m,
        forall|m: int|
            0 <= m < kids@.len() ==> (#[trigger] final(queue).items()[old(queue).items().len()
                + m]).1.model() == owned::models_of(kids)[m],
        pending_size(final(queue).items()) == pending_size(old(queue).items()) + size_of_seq(
            owned::models_of(kids),
        ),
{
    let ghost all = owned::models_of(kids);
    let ghost slots0 = slots@;
    let ghost base_slots = slots@.len() as int;
    let ghost base_items = old(queue).items();
    let count = kids.len();
    let mut kids = kids;
    let mut done: usize = 0;
    proof {
        assert(all.take(0) =~= Seq::<TreeModel<T>>::empty());
        assert(size_of_seq(Seq::<TreeModel<T>>::empty()) == 0);
    }
    while kids.len() > 0
        invariant
            all.len() == count,
            done + kids@.len() == count,
            0 <= base_slots,
            slots@.len() == base_slots + done,
            forall|i: int| 0 <= i < base_slots ==> #[trigger] slots@[i] == slots0[i],
            forall|i: int| base_slots <= i < slots@.len() ==> #[trigger] slots@[i] == 0,
            queue.items().len() == base_items.len() + done,
            forall|k: int| 0 <= k < base_items.len() ==> queue.items()[k] == base_items[k],
            forall|k: int|
                base_items.len() <= k < queue.items().len() ==> base_slots <= (
                #[trigger] queue.items()[k]).0 < slots@.len(),
            forall|m: int|
                0 <= m < done ==> (#[trigger] queue.items()[base_items.len() + m]).0 == base_slots
                    + m,
            forall|m: int|
                0 <= m < done ==> (#[trigger] queue.items()[base_items.len() + m]).1.model()
                    == all[m],
            pending_size(queue.items()) == pending_size(base_items) + size_of_seq(
                all.take(done as int),
            ),
            owned::models_of(kids) =~= all.skip(done as int),
        decreases kids@.len(),
    {
        let ghost pre = owned::models_of(kids);
        let k = kids.remove(0);
        proof {
            assert(k.model() == pre[0]);
            assert(owned::models_of(kids) =~= pre.skip(1));
            assert(pre.skip(1) =~= all.skip(done as int + 1));
            assert(all[done as int] == k.model());
        }
        let slot = slots.len();
        let ghost sl_pre = slots@;
        slots.push(0);
        proof {
            assert(slots@ =~= sl_pre.push(0));
        }
        let ghost before = queue.items();
        queue.shift((slot, k));
        proof {
            lemma_pending_size_push(before, queue.items().last());
            assert(all.take(done as int + 1) =~= all.take(done as int).push(all[done as int]));
            lemma_size_of_seq_push(all.take(done as int), all[done as int]);
            assert(queue.items()[base_items.len() + done as int] == (slot, k));
            assert(queue.items()[base_items.len() + done as int].1.model() == all[done as int]);
        }
        done = done + 1;
    }
    proof {
        assert(all.take(done as int) =~= all);
        assert(slots0 == old(slots)@);
    }
}

/// Whether a recorded cursor path descends one existing edge at a time from
/// node `from`: each step's position is in range at the node reached so far,
/// and the storage index recorded with it is the one the layout tables give.
spec fn path_consistent<T>(t: Tree<T>, path: Seq<(usize, usize)>, from: int) -> bool
    decreases path.len(),
{
    path.len() == 0 || {
        &&& (path[0].1 as int) < t.child_count_of(from)
        &&& path[0].0 as int == t.child_of_model(from, path[0].1 as int)
        &&& path_consistent(t, path.drop_first(), path[0].0 as int)
    }
}

/// The storage index a recorded path ends at when read from node `from`.
spec fn end_of(path: Seq<(usize, usize)>, from: int) -> int {
    if path.len() == 0 {
        from
    } else {
        path.last().0 as int
    }
}

/// Extending a consistent path by one step keeps it consistent exactly when
/// the step is an existing edge out of the path's end node.
proof fn lemma_consistent_push<T>(t: Tree<T>, path: Seq<(usize, usize)>, x: (usize, usize), from: int)
    requires
        path_consistent(t, path, from),
    ensures
        path_consistent(t, path.push(x), from) == ((x.1 as int) < t.child_count_of(
            end_of(path, from),
        ) && x.0 as int == t.child_of_model(end_of(path, from), x.1 as int)),
    decreases path.len(),
{
    if path.len() == 0 {
        assert(path.push(x)[0] == x);
        assert(path.push(x).drop_first() =~= Seq::<(usize, usize)>::empty());
        assert(path_consistent(t, Seq::<(usize, usize)>::empty(), x.0 as int));
    } else {
        assert(path.push(x)[0] == path[0]);
        assert(path.push(x).drop_first() =~= path.drop_first().push(x));
        lemma_consistent_push(t, path.drop_first(), x, path[0].0 as int);
        assert(end_of(path.drop_first(), path[0].0 as int) == end_of(path, from));
    }
}

/// Cutting the last step off a consistent path keeps it consistent, and the
/// cut step was an existing edge out of the shortened path's end node.
proof fn lemma_consistent_drop_last<T>(t: Tree<T>, path: Seq<(usize, usize)>, from: int)
    requires
        path_consistent(t, path, from),
        path.len() > 0,
    ensures
        path_consistent(t, path.drop_last(), from),
        (path.last().1 as int) < t.child_count_of(end_of(path.drop_last(), from)),
        path.last().0 as int == t.child_of_model(
            end_of(path.drop_last(), from),
            path.last().1 as int,
        ),
    decreases path.len(),
{
    if path.len() == 1 {
        assert(path.drop_last() =~= Seq::<(usize, usize)>::empty());
        assert(path_consistent(t, Seq::<(usize, usize)>::empty(), from));
    } else {
        assert(path.drop_last()[0] == path[0]);
        assert(path.drop_last().drop_first() =~= path.drop_first().drop_last());
        lemma_consistent_drop_last(t, path.drop_first(), path[0].0 as int);
        assert(end_of(path.drop_first().drop_last(), path[0].0 as int) == end_of(
            path.drop_last(),
            from,
        ));
        assert(end_of(path.drop_first(), path[0].0 as int) == end_of(path, from));
    }
}

/// On a well-formed tree, a consistent path only ever ends at an existing
/// node.
proof fn lemma_consistent_end_in_range<T>(t: Tree<T>, path: Seq<(usize, usize)>, from: int)
    requires
        t.wf(),
        path_consistent(t, path, from),
        0 <= from < t.nodes_model().len(),
    ensures
        0 <= end_of(path, from) < t.nodes_model().len(),
    decreases path.len(),
{
    if path.len() > 0 {
        lemma_child_of_in_range(t, from, path[0].1 as int);
        lemma_consistent_end_in_range(t, path.drop_first(), path[0].0 as int);
        assert(end_of(path.drop_first(), path[0].0 as int) == end_of(path, from));
    }
}

/// On a well-formed tree, every recorded edge leads to an existing node.
proof fn lemma_child_of_in_range<T>(t: Tree<T>, i: int, j: int)
    requires
        t.wf(),
        0 <= i < t.nodes_model().len(),
        0 <= j < t.child_count_of(i),
    ensures
        0 <= t.child_of_model(i, j) < t.nodes_model().len(),
{
    assert(t.offsets@[i] + j < t.children@.len());
}

/// Which node a sequence of recorded child positions reaches when replayed
/// from node `from` through the flat layout tables.
pub open spec fn follow<T>(t: Tree<T>, pos: Seq<usize>, from: int) -> int
    decreases pos.len(),
{
    if pos.len() == 0 {
        from
    } else {
        follow(t, pos.drop_first(), t.child_of_model(from, pos[0] as int))
    }
}

/// On a consistent path, replaying the recorded child positions from the
/// start node reaches exactly the path's end node.
proof fn lemma_follow_consistent<T>(t: Tree<T>, path: Seq<(usize, usize)>, from: int)
    requires
        path_consistent(t, path, from),
    ensures
        follow(t, path.map_values(|p: (usize, usize)| p.1), from) == end_of(path, from),
    decreases path.len(),
{
    let pos = path.map_values(|p: (usize, usize)| p.1);
    if path.len() == 0 {
        assert(pos =~= Seq::<usize>::empty());
    } else {
        assert(pos[0] == path[0].1);
        assert(pos.drop_first() =~= path.drop_first().map_values(|p: (usize, usize)| p.1));
        lemma_follow_consistent(t, path.drop_first(), path[0].0 as int);
        assert(end_of(path.drop_first(), path[0].0 as int) == end_of(path, from));
    }
}

/// A read-only, focus-based cursor over a fixed-layout tree.
///
/// The cursor records, for every level below the root, the storage index of
/// the node it descended to and that node's position among its siblings;
/// replaying the recorded positions through the layout tables always
/// reaches the focus.
pub struct TreeView<'a, T> {
    tree: &'a Tree<T>,
    path: Vec<(usize, usize)>,
}

impl<'a, T> TreeView<'a, T> {
    /// The stored node values of the tree under view, in layout order.
    pub closed spec fn nodes_model(self) -> Seq<T> {
        self.tree.nodes_model()
    }

    /// The number of children of the node at storage index `i`.
    pub closed spec fn child_count_of(self, i: int) -> int {
        self.tree.child_count_of(i)
    }

    /// The storage index of child `j` of the node at storage index `i`.
    pub closed spec fn child_of_model(self, i: int, j: int) -> int {
        self.tree.child_of_model(i, j)
    }

    /// The recorded child positions from the root down to the focus.
    pub closed spec fn path_model(self) -> Seq<usize> {
        self.path@.map_values(|p: (usize, usize)| p.1)
    }

    /// The storage index of the focus node.
    pub closed spec fn focus_index(self) -> int {
        end_of(self.path@, 0)
    }

    /// The storage index of the focus node's parent.
    pub closed spec fn parent_index(self) -> int
        recommends
            self.path_model().len() > 0,
    {
        end_of(self.path@.drop_last(), 0)
    }

    /// The recorded path stays within the layout tables at every step.
    pub closed spec fn wf(self) -> bool {
        &&& self.tree.wf()
        &&& path_consistent(*self.tree, self.path@, 0)
    }

    /// The storage index that replaying the recorded child positions from
    /// the root through the layout tables reaches.
    pub closed spec fn replay(self) -> int {
        follow(*self.tree, self.path_model(), 0)
    }

    /// The tagged outcome that a sibling move by `offset` resolves to at the
    /// current focus.
    pub open spec fn sibling_resolution(self, offset: isize) -> SiblingIndex {
        if self.path_model().len() == 0 {
            SiblingIndex::Root
        } else {
            resolve_sibling(
                self.child_count_of(self.parent_index()) as usize,
                self.path_model().last(),
                offset,
            )
        }
    }

    /// The focus node's storage index stays in range, and the recorded path
    /// and position sequence have the same length.
    proof fn lemma_focus_in_range(self)
        requires
            self.wf(),
        ensures
            0 <= self.focus_index() < self.nodes_model().len(),
            self.path_model().len() == self.path@.len(),
    {
        lemma_consistent_end_in_range(*self.tree, self.path@, 0);
    }

    /// A borrow of the data at the focus node.
    pub fn data(&self) -> (r: &T)
        requires
            self.wf(),
        ensures
            *r == self.nodes_model()[self.focus_index()],
    {
        proof {
            self.lemma_focus_in_range();
        }
        let idx = if self.path.len() == 0 {
            0
        } else {
            self.path[self.path.len() - 1].0
        };
        &self.tree.data[idx]
    }

    /// The number of children of the focus node.
    pub fn child_count(&self) -> (r: usize)
        requires
            self.wf(),
        ensures
            r as int == self.child_count_of(self.focus_index()),
    {
        proof {
            self.lemma_focus_in_range();
        }
        let idx = if self.path.len() == 0 {
            0
        } else {
            self.path[self.path.len() - 1].0
        };
        self.tree.child_count(idx)
    }

    /// Whether the focus node is a leaf, that is, has no children.
    pub fn at_leaf(&self) -> (r: bool)
        requires
            self.wf(),
        ensures
            r == (self.child_count_of(self.focus_index()) == 0),
    {
        self.child_count() == 0
    }

    /// Whether the focus node is the root of the tree under view.
    pub fn at_root(&self) -> (r: bool)
        ensures
            r == (self.path_model().len() == 0),
    {
        self.path.len() == 0
    }

    /// Moves the focus to the child at the given index; on an out-of-range
    /// index the cursor reports failure and is left unchanged.
    #[verifier::rlimit(50)]
    pub fn seek_child(&mut self, index: usize) -> (r: bool)
        requires
            old(self).wf(),
        ensures
            final(self).wf(),
            final(self).nodes_model() == old(self).nodes_model(),
            r == ((index as int) < old(self).child_count_of(old(self).focus_index())),
            r ==> final(self).path_model() == old(self).path_model().push(index),
            r ==> final(self).focus_index() == old(self).child_of_model(
                old(self).focus_index(),
                index as int,
            ),
            !r ==> final(self).path_model() == old(self).path_model() && final(self).focus_index()
                == old(self).focus_index(),
    {
        proof {
            self.lemma_focus_in_range();
        }
        let here = if self.path.len() == 0 {
            0
        } else {
            self.path[self.path.len() - 1].0
        };
        if index < self.tree.child_count(here) {
            let child = self.tree.child_of(here, index);
            proof {
                lemma_consistent_push(*self.tree, self.path@, (child, index), 0);
            }
            self.path.push((child, index));
            proof {
                assert(self.path@ =~= old(self).path@.push((child, index)));
                assert(self.path_model() =~= old(self).path_model().push(index));
            }
            true
        } else {
            false
        }
    }

    /// Moves the focus to the sibling at the given signed offset. A zero
    /// offset always succeeds and leaves the cursor unchanged, even at the
    /// root; any other failure also leaves the cursor unchanged.
    #[verifier::rlimit(50)]
    pub fn seek_sibling(&mut self, offset: isize) -> (r: bool)
        requires
            old(self).wf(),
        ensures
            final(self).wf(),
            final(self).nodes_model() == old(self).nodes_model(),
            r == (old(self).sibling_resolution(offset) is Valid || (old(self).path_model().len()
                == 0 && offset == 0)),
            old(self).sibling_resolution(offset) matches SiblingIndex::Valid(k)
                ==> final(self).path_model() == old(self).path_model().drop_last().push(k)
                && final(self).focus_index() == old(self).child_of_model(
                old(self).parent_index(),
                k as int,
            ),
            offset == 0 || !r ==> final(self).path_model() == old(self).path_model() && final(self).focus_index() == old(self).focus_index(),
    {
        if self.path.len() == 0 {
            return offset == 0;
        }
        proof {
            lemma_consistent_drop_last(*self.tree, self.path@, 0);
            lemma_consistent_end_in_range(*self.tree, self.path@.drop_last(), 0);
            assert(self.path_model().last() == self.path@.last().1);
            assert(self.path_model().drop_last() =~= self.path@.drop_last().map_values(
                |p: (usize, usize)| p.1,
            ));
        }
        let parent = if self.path.len() == 1 {
            0
        } else {
            self.path[self.path.len() - 2].0
        };
        proof {
            assert(parent as int == old(self).parent_index());
        }
        let here = self.path[self.path.len() - 1].1;
        let count = self.tree.child_count(parent);
        match SiblingIndex::of(count, here, offset) {
            SiblingIndex::Valid(new_index) => {
                let node = self.tree.child_of(parent, new_index);
                proof {
                    lemma_consistent_push(
                        *self.tree,
                        self.path@.drop_last(),
                        (node, new_index),
                        0,
                    );
                }
                let _ = self.path.pop();
                self.path.push((node, new_index));
                proof {
                    assert(self.path@ =~= old(self).path@.drop_last().push((node, new_index)));
                    assert(self.path_model() =~= old(self).path_model().drop_last().push(
                        new_index,
                    ));
                    if offset == 0 {
                        assert(self.path@ =~= old(self).path@);
                    }
                }
                true
            },
            _ => false,
        }
    }

    /// Moves the focus to the parent of the focus node; at the root the
    /// cursor reports failure and is left unchanged.
    pub fn to_parent(&mut self) -> (r: bool)
        requires
            old(self).wf(),
        ensures
            final(self).wf(),
            final(self).nodes_model() == old(self).nodes_model(),
            r == (old(self).path_model().len() > 0),
            r ==> final(self).path_model() == old(self).path_model().drop_last() && final(self).focus_index() == old(self).parent_index(),
            !r ==> final(self).path_model() == old(self).path_model() && final(self).focus_index()
                == old(self).focus_index(),
    {
        proof {
            if self.path@.len() > 0 {
                lemma_consistent_drop_last(*self.tree, self.path@, 0);
            }
        }
        match self.path.pop() {
            Some(_) => {
                proof {
                    assert(self.path@ =~= old(self).path@.drop_last());
                    assert(self.path_model() =~= old(self).path_model().drop_last());
                }
                true
            },
            None => false,
        }
    }

    /// Moves the focus back to the root of the tree under view in one step.
    /// At the root this is a no-op.
    pub fn to_root(&mut self)
        requires
            old(self).wf(),
        ensures
            final(self).wf(),
            final(self).nodes_model() == old(self).nodes_model(),
            final(self).path_model() == Seq::<usize>::empty(),
            final(self).focus_index() == 0,
    {
        self.path.clear();
        proof {
            assert(final(self).path@ =~= Seq::<(usize, usize)>::empty());
            assert(final(self).path_model() =~= Seq::<usize>::empty());
        }
    }
}

impl<'a, T> Clone for TreeView<'a, T> {
    /// Forks an independent cursor at the same focus in the same tree.
    fn clone(&self) -> (r: Self)
        ensures
            r.nodes_model() == self.nodes_model(),
            r.path_model() == self.path_model(),
            r.focus_index() == self.focus_index(),
            r.wf() == self.wf(),
    {
        let mut path: Vec<(usize, usize)> = Vec::new();
        let mut j: usize = 0;
        while j < self.path.len()
            invariant
                j <= self.path@.len(),
                path@ =~= self.path@.take(j as int),
            decreases self.path@.len() - j,
        {
            path.push(self.path[j]);
            j = j + 1;
        }
        proof {
            assert(path@ =~= self.path@);
        }
        TreeView { tree: self.tree, path }
    }
}

/// Path-reconstruction invariant of the fixed-layout cursor: on a
/// well-formed cursor, replaying the recorded child positions from the root
/// through the layout tables reaches exactly the focus node.
pub proof fn lemma_fixed_path_reconstruction<'a, T>(v: TreeView<'a, T>)
    requires
        v.wf(),
    ensures
        v.replay() == v.focus_index(),
{
    lemma_follow_consistent(*v.tree, v.path@, 0);
}

} // verus!
