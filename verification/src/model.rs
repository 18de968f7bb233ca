use vstd::prelude::*;

verus! {

/// The mathematical value of a tree node: its data together with the
/// sequence of the values of its child subtrees.
///
/// Every storage variant in this crate maps its trees onto this one model,
/// and every cursor contract is stated over it.
#[verifier::ext_equal]
pub ghost struct TreeModel<T> {
    pub data: T,
    pub children: Seq<TreeModel<T>>,
}

impl<T> TreeModel<T> {
    /// A node with no children.
    pub open spec fn leaf(data: T) -> Self {
        TreeModel { data, children: Seq::empty() }
    }

    /// Whether `path`, read as a sequence of child positions, stays in range
    /// at every step when followed downward from this node.
    pub open spec fn path_ok(self, path: Seq<usize>) -> bool
        decreases path.len(),
    {
        path.len() == 0 || {
            &&& (path[0] as int) < self.children.len()
            &&& self.children[path[0] as int].path_ok(path.drop_first())
        }
    }

    /// The node reached by following `path` downward from this node.
    pub open spec fn subtree_at(self, path: Seq<usize>) -> TreeModel<T>
        recommends
            self.path_ok(path),
        decreases path.len(),
    {
        if path.len() == 0 {
            self
        } else {
            self.children[path[0] as int].subtree_at(path.drop_first())
        }
    }

    /// This tree with the node reached by `path` replaced by `sub`.
    pub open spec fn update_at(self, path: Seq<usize>, sub: TreeModel<T>) -> TreeModel<T>
        recommends
            self.path_ok(path),
        decreases path.len(),
    {
        if path.len() == 0 {
            sub
        } else {
            TreeModel {
                data: self.data,
                children: self.children.update(
                    path[0] as int,
                    self.children[path[0] as int].update_at(path.drop_first(), sub),
                ),
            }
        }
    }

    /// The number of nodes in this tree, the root included.
    pub open spec fn size(self) -> nat
        decreases self,
    {
        1 + size_of_seq(self.children)
    }

    /// This node with one more child appended at the end.
    pub open spec fn pushed(self, c: TreeModel<T>) -> Self {
        TreeModel { data: self.data, children: self.children.push(c) }
    }

    /// This node with a child inserted at position `i`.
    pub open spec fn inserted(self, i: int, c: TreeModel<T>) -> Self
        recommends
            0 <= i <= self.children.len(),
    {
        TreeModel { data: self.data, children: self.children.insert(i, c) }
    }

    /// This node with the child at position `i` removed.
    pub open spec fn removed(self, i: int) -> Self
        recommends
            0 <= i < self.children.len(),
    {
        TreeModel { data: self.data, children: self.children.remove(i) }
    }

    /// This node with the children at positions `a` and `b` exchanged.
    pub open spec fn swapped(self, a: int, b: int) -> Self
        recommends
            0 <= a < self.children.len(),
            0 <= b < self.children.len(),
    {
        TreeModel {
            data: self.data,
            children: self.children.update(a, self.children[b]).update(b, self.children[a]),
        }
    }
}

/// The total number of nodes in a sequence of trees.
pub open spec fn size_of_seq<T>(s: Seq<TreeModel<T>>) -> nat
    decreases s,
{
    if s.len() == 0 {
        0
    } else {
        s[0].size() + size_of_seq(s.drop_first())
    }
}

/// Following a concatenated path is following its first part and then its
/// second: validity splits the same way, and the nodes reached agree.
pub proof fn lemma_path_concat<T>(t: TreeModel<T>, p: Seq<usize>, q: Seq<usize>)
    ensures
        t.path_ok(p + q) == (t.path_ok(p) && t.subtree_at(p).path_ok(q)),
        t.path_ok(p) ==> t.subtree_at(p + q) == t.subtree_at(p).subtree_at(q),
    decreases p.len(),
{
    if p.len() == 0 {
        assert(p + q =~= q);
    } else {
        assert((p + q)[0] == p[0]);
        assert((p + q).drop_first() =~= p.drop_first() + q);
        if (p[0] as int) < t.children.len() {
            lemma_path_concat(t.children[p[0] as int], p.drop_first(), q);
        }
    }
}

/// A path of a single position is valid exactly when the position is in
/// range, and following it selects exactly that child.
pub proof fn lemma_subtree_at_one<T>(t: TreeModel<T>, i: usize)
    ensures
        t.path_ok(seq![i]) == ((i as int) < t.children.len()),
        (i as int) < t.children.len() ==> t.subtree_at(seq![i]) == t.children[i as int],
{
    assert(seq![i][0] == i);
    assert(seq![i].drop_first() =~= Seq::<usize>::empty());
    if (i as int) < t.children.len() {
        assert(t.children[i as int].path_ok(Seq::<usize>::empty()));
        assert(t.children[i as int].subtree_at(Seq::<usize>::empty()) == t.children[i as int]);
    }
}

/// Extending a valid path by one position keeps it valid exactly when the
/// position is in range at the node reached so far, and then descends into
/// that child.
pub proof fn lemma_path_push<T>(t: TreeModel<T>, p: Seq<usize>, i: usize)
    requires
        t.path_ok(p),
    ensures
        t.path_ok(p.push(i)) == ((i as int) < t.subtree_at(p).children.len()),
        (i as int) < t.subtree_at(p).children.len() ==> t.subtree_at(p.push(i)) == t.subtree_at(
            p,
        ).children[i as int],
{
    assert(p.push(i) =~= p + seq![i]);
    lemma_path_concat(t, p, seq![i]);
    lemma_subtree_at_one(t.subtree_at(p), i);
}

/// Replacing the node that a valid path reaches with that node itself leaves
/// the whole tree unchanged.
pub proof fn lemma_update_at_subtree_self<T>(t: TreeModel<T>, path: Seq<usize>)
    requires
        t.path_ok(path),
    ensures
        t.update_at(path, t.subtree_at(path)) == t,
    decreases path.len(),
{
    if path.len() != 0 {
        let i = path[0] as int;
        lemma_update_at_subtree_self(t.children[i], path.drop_first());
        assert(t.update_at(path, t.subtree_at(path)).children =~= t.children);
        assert(t.update_at(path, t.subtree_at(path)) =~= t);
    }
}

/// After replacing the node at a valid path, the path is still valid and now
/// reaches exactly the replacement.
pub proof fn lemma_subtree_at_update_at<T>(t: TreeModel<T>, path: Seq<usize>, sub: TreeModel<T>)
    requires
        t.path_ok(path),
    ensures
        t.update_at(path, sub).path_ok(path),
        t.update_at(path, sub).subtree_at(path) == sub,
    decreases path.len(),
{
    if path.len() != 0 {
        let i = path[0] as int;
        lemma_subtree_at_update_at(t.children[i], path.drop_first(), sub);
    }
}

/// Updating along a concatenated path is descending the first part and
/// updating the reached subtree along the second part.
pub proof fn lemma_update_at_concat<T>(t: TreeModel<T>, p: Seq<usize>, q: Seq<usize>, sub: TreeModel<T>)
    requires
        t.path_ok(p),
    ensures
        t.update_at(p + q, sub) == t.update_at(p, t.subtree_at(p).update_at(q, sub)),
    decreases p.len(),
{
    if p.len() == 0 {
        assert(p + q =~= q);
    } else {
        let i = p[0] as int;
        assert((p + q)[0] == p[0]);
        assert((p + q).drop_first() =~= p.drop_first() + q);
        lemma_update_at_concat(t.children[i], p.drop_first(), q, sub);
        assert(t.update_at(p + q, sub) =~= t.update_at(p, t.subtree_at(p).update_at(q, sub)));
    }
}

/// Round-trip of edits: appending a child and then removing the child at the
/// old child count restores the original node, and the child found there
/// before the removal is exactly the one appended.
pub proof fn lemma_push_remove_roundtrip<T>(t: TreeModel<T>, x: TreeModel<T>)
    ensures
        t.pushed(x).removed(t.children.len() as int) == t,
        t.pushed(x).children[t.children.len() as int] == x,
{
    assert(t.pushed(x).removed(t.children.len() as int).children =~= t.children);
    assert(t.pushed(x).removed(t.children.len() as int) =~= t);
}

} // verus!
