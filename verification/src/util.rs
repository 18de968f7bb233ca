use vstd::prelude::*;

verus! {

/// The result of computing the index of a tree node's sibling.
///
/// Every cursor routes sibling navigation through this type so that an
/// out-of-range or arithmetically impossible request is a reported condition
/// rather than a crash, and so that callers can tell the cases apart.
#[derive(Clone, Copy, Debug, PartialEq, Eq, Structural)]
pub enum SiblingIndex {
    /// The focus is the tree root, which has no siblings to move to.
    Root,
    /// Numerical underflow in computing the index.
    Underflow,
    /// Numerical overflow in computing the index.
    Overflow,
    /// The computed index is out of range; the fields give the computed
    /// index and the number of siblings.
    OutOfRange(usize, usize),
    /// A successfully computed index value.
    Valid(usize),
}

/// What a sibling count, a current index, and a signed offset resolve to.
///
/// A zero offset is always valid in place, whatever the count. Otherwise the
/// exact integer sum of index and offset decides: below zero is underflow,
/// above `usize::MAX` is overflow, at or above the sibling count is out of
/// range, and anything else is the valid new index.
pub open spec fn resolve_sibling(sibling_count: usize, here_index: usize, offset: isize) -> SiblingIndex {
    let candidate = here_index as int + offset as int;
    if offset == 0 {
        SiblingIndex::Valid(here_index)
    } else if candidate < 0 {
        SiblingIndex::Underflow
    } else if candidate > usize::MAX as int {
        SiblingIndex::Overflow
    } else if candidate >= sibling_count as int {
        SiblingIndex::OutOfRange(candidate as usize, sibling_count)
    } else {
        SiblingIndex::Valid(candidate as usize)
    }
}

impl SiblingIndex {
    /// Safely computes the index of a tree node's sibling.
    ///
    /// For `sibling_count` siblings and the current node at `here_index`,
    /// the index of the node at the given signed offset from `here_index`
    /// is computed using checked arithmetic.
    pub fn of(sibling_count: usize, here_index: usize, offset: isize) -> (r: SiblingIndex)
        ensures
            r == resolve_sibling(sibling_count, here_index, offset),
    {
        if offset == 0 {
            SiblingIndex::Valid(here_index)
        } else if offset < 0 {
            // The magnitude of the offset, computed so that even the most
            // negative representable offset cannot overflow.
            let magnitude: usize = ((-(offset + 1)) as usize) + 1;
            if here_index >= magnitude {
                let candidate = here_index - magnitude;
                if candidate >= sibling_count {
                    SiblingIndex::OutOfRange(candidate, sibling_count)
                } else {
                    SiblingIndex::Valid(candidate)
                }
            } else {
                SiblingIndex::Underflow
            }
        } else {
            if here_index <= usize::MAX - (offset as usize) {
                let candidate = here_index + (offset as usize);
                if candidate >= sibling_count {
                    SiblingIndex::OutOfRange(candidate, sibling_count)
                } else {
                    SiblingIndex::Valid(candidate)
                }
            } else {
                SiblingIndex::Overflow
            }
        }
    }

    /// Computes the index of a tree node's sibling, mapping an out-of-range
    /// result to `None`. Arithmetic faults are ruled out by the caller.
    pub fn compute(sibling_count: usize, here_index: usize, offset: isize) -> (r: Option<usize>)
        requires
            !(resolve_sibling(sibling_count, here_index, offset) is Underflow),
            !(resolve_sibling(sibling_count, here_index, offset) is Overflow),
        ensures
            r == (match resolve_sibling(sibling_count, here_index, offset) {
                SiblingIndex::Valid(i) => Some(i),
                _ => None::<usize>,
            }),
    {
        match SiblingIndex::of(sibling_count, here_index, offset) {
            SiblingIndex::Valid(i) => Some(i),
            _ => None,
        }
    }
}

/// The result of computing the index of a child.
#[derive(Clone, Copy, Debug, PartialEq, Eq, Structural)]
pub enum ChildIndex {
    /// The requested index is out of range; the fields give the requested
    /// index and the number of children.
    OutOfRange(usize, usize),
    /// A successfully validated index value.
    Valid(usize),
}

/// What a child count and a requested index resolve to: valid exactly when
/// the index is below the count. Only a comparison is involved, so no
/// arithmetic fault is possible.
pub open spec fn resolve_child(child_count: usize, index: usize) -> ChildIndex {
    if index >= child_count {
        ChildIndex::OutOfRange(index, child_count)
    } else {
        ChildIndex::Valid(index)
    }
}

impl ChildIndex {
    /// Validates that a tree node with `child_count` children has a child at
    /// the given index.
    pub fn of(child_count: usize, index: usize) -> (r: ChildIndex)
        ensures
            r == resolve_child(child_count, index),
    {
        if index >= child_count {
            ChildIndex::OutOfRange(index, child_count)
        } else {
            ChildIndex::Valid(index)
        }
    }

    /// Validates a child index, mapping an out-of-range result to `None`.
    pub fn compute(child_count: usize, index: usize) -> (r: Option<usize>)
        ensures
            r == (match resolve_child(child_count, index) {
                ChildIndex::Valid(i) => Some(i),
                _ => None::<usize>,
            }),
    {
        match ChildIndex::of(child_count, index) {
            ChildIndex::Valid(i) => Some(i),
            _ => None,
        }
    }
}

/// A zero offset always resolves to the current position, whatever the
/// sibling count: moving by zero is a no-op, never a failure.
pub proof fn lemma_zero_offset_is_noop(sibling_count: usize, here_index: usize)
    ensures
        resolve_sibling(sibling_count, here_index, 0) == SiblingIndex::Valid(here_index),
{
}

/// Asking for the child at the child count itself, one past the last child,
/// always fails, as does any larger index.
pub proof fn lemma_child_at_count_fails(child_count: usize, index: usize)
    requires
        index >= child_count,
    ensures
        resolve_child(child_count, index) == ChildIndex::OutOfRange(index, child_count),
{
}

/// A nonzero offset whose exact sum with the current index lands outside the
/// sibling range fails as out of range, never as something quieter, as long
/// as the arithmetic itself does not fault.
pub proof fn lemma_out_of_range_offset_fails(sibling_count: usize, here_index: usize, offset: isize)
    requires
        offset != 0,
        0 <= here_index as int + offset as int <= usize::MAX as int,
        here_index as int + offset as int >= sibling_count as int,
    ensures
        resolve_sibling(sibling_count, here_index, offset) is OutOfRange,
{
}

/// A nonzero offset whose exact sum with the current index lands before the
/// first sibling is reported as underflow, never clamped and never quietly
/// accepted.
pub proof fn lemma_before_first_offset_fails(sibling_count: usize, here_index: usize, offset: isize)
    requires
        offset != 0,
        (here_index as int + offset as int) < 0,
    ensures
        resolve_sibling(sibling_count, here_index, offset) == SiblingIndex::Underflow,
{
}

/// The most negative representable offset underflows from any index a tree
/// can actually hold; it is reported as a fault, never clamped.
pub proof fn lemma_most_negative_offset_underflows(sibling_count: usize, here_index: usize)
    requires
        here_index <= isize::MAX as usize,
    ensures
        resolve_sibling(sibling_count, here_index, isize::MIN) == SiblingIndex::Underflow,
{
}

} // verus!
