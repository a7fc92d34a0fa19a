use vstd::prelude::*;

verus! {

/// A chained binary search tree holding a non-empty set of `i64` values.
///
/// Every node owns its children: values in the left subtree are strictly
/// smaller than the node's value, values in the right subtree strictly
/// greater, so no value occurs twice. The tree is not self-balancing.
#[derive(Debug, PartialEq)]
pub struct BinarySearchTree {
    value: i64,
    left: Option<Box<BinarySearchTree>>,
    right: Option<Box<BinarySearchTree>>,
}

/// The set of values stored in an optional subtree.
spec fn subtree_set(subtree: Option<Box<BinarySearchTree>>) -> Set<i64>
    decreases subtree,
{
    match subtree {
        None => Set::empty(),
        Some(node) => node.as_set(),
    }
}

impl BinarySearchTree {
    /// The set of values stored in this tree.
    pub closed spec fn as_set(self) -> Set<i64>
        decreases self,
    {
        subtree_set(self.left).union(subtree_set(self.right)).insert(self.value)
    }

    /// The value at the root of this tree.
    pub closed spec fn spec_root(self) -> i64 {
        self.value
    }

    /// The left subtree, with its box removed.
    pub closed spec fn spec_left(self) -> Option<BinarySearchTree> {
        match self.left {
            None => None,
            Some(node) => Some(*node),
        }
    }

    /// The right subtree, with its box removed.
    pub closed spec fn spec_right(self) -> Option<BinarySearchTree> {
        match self.right {
            None => None,
            Some(node) => Some(*node),
        }
    }

    /// The binary-search-tree ordering invariant: at every node, the values
    /// of the left subtree are strictly below the node's value and the values
    /// of the right subtree strictly above it.
    pub closed spec fn well_formed(self) -> bool
        decreases self,
    {
        &&& forall|x: i64| subtree_set(self.left).contains(x) ==> x < self.value
        &&& forall|x: i64| subtree_set(self.right).contains(x) ==> x > self.value
        &&& match self.left {
            None => true,
            Some(node) => node.well_formed(),
        }
        &&& match self.right {
            None => true,
            Some(node) => node.well_formed(),
        }
    }

    /// Creates a new tree with `value` as root.
    pub fn new(value: i64) -> (tree: Self)
        ensures
            tree.well_formed(),
            tree@ == set![value],
            tree.spec_root() == value,
            tree.spec_left() is None,
            tree.spec_right() is None,
    {
        let tree = Self { left: None, right: None, value };
        proof {
            assert(tree.as_set() =~= set![value]);
        }
        tree
    }

    /// Like `new`, but inside of a `Box`.
    pub fn boxed(value: i64) -> (tree: Box<Self>)
        ensures
            tree.well_formed(),
            tree@ == set![value],
            tree.spec_root() == value,
            tree.spec_left() is None,
            tree.spec_right() is None,
    {
        Box::new(Self::new(value))
    }

    /// Inserts `new` into whichever subtree hangs off `slot`, creating a
    /// single-node subtree when the slot is empty. Inserting a value that is
    /// already present leaves the subtree untouched.
    fn insert_into(slot: &mut Option<Box<BinarySearchTree>>, new: i64)
        requires
            (*old(slot)) matches Some(node) ==> node.well_formed(),
        ensures
            (*final(slot)) matches Some(node) ==> node.well_formed(),
            (*final(slot)) is Some,
            subtree_set(*final(slot)) == subtree_set(*old(slot)).insert(new),
            subtree_set(*old(slot)).contains(new) ==> *final(slot) == *old(slot),
        decreases *old(slot),
    {
        match slot.take() {
            None => {
                *slot = Some(Self::boxed(new));
                proof {
                    assert(subtree_set(*slot) =~= subtree_set(None).insert(new));
                }
            }
            Some(mut node) => {
                (&mut *node).insert(new);
                *slot = Some(node);
            }
        }
    }

    /// Inserts a new element in the tree. It does nothing if the element is
    /// already there, leaving the tree exactly as it was.
    pub fn insert(&mut self, new: i64)
        requires
            old(self).well_formed(),
        ensures
            final(self).well_formed(),
            final(self)@ == old(self)@.insert(new),
            old(self)@.contains(new) ==> *final(self) == *old(self),
        decreases *old(self),
    {
        if new == self.value {
            proof {
                assert(self.as_set() =~= self.as_set().insert(new));
            }
        } else if new < self.value {
            Self::insert_into(&mut self.left, new);
            proof {
                assert(!subtree_set(self.right).contains(new));
                assert(self.as_set() =~= old(self).as_set().insert(new));
            }
        } else {
            Self::insert_into(&mut self.right, new);
            proof {
                assert(!subtree_set(self.left).contains(new));
                assert(self.as_set() =~= old(self).as_set().insert(new));
            }
        }
    }

    /// Goes through the tree looking for `value`. If found, it returns the
    /// subtree rooted at the matching node wrapped in `Some`. Otherwise, it
    /// returns `None`. The tree is not modified.
    pub fn find(&self, value: i64) -> (found: Option<&Self>)
        requires
            self.well_formed(),
        ensures
            found is Some <==> self@.contains(value),
            found matches Some(subtree) ==> {
                &&& subtree.well_formed()
                &&& subtree.spec_root() == value
                &&& subtree@.subset_of(self@)
            },
        decreases self,
    {
        if value == self.value {
            Some(self)
        } else if value < self.value {
            proof {
                assert(!subtree_set(self.right).contains(value));
            }
            match &self.left {
                None => None,
                Some(node) => {
                    let found = (&**node).find(value);
                    proof {
                        if found is Some {
                            assert(found.unwrap()@.subset_of(self@)) by {
                                assert(forall|x: i64|
                                    found.unwrap()@.contains(x) ==> self@.contains(x));
                            }
                        }
                    }
                    found
                }
            }
        } else {
            proof {
                assert(!subtree_set(self.left).contains(value));
            }
            match &self.right {
                None => None,
                Some(node) => {
                    let found = (&**node).find(value);
                    proof {
                        if found is Some {
                            assert(found.unwrap()@.subset_of(self@)) by {
                                assert(forall|x: i64|
                                    found.unwrap()@.contains(x) ==> self@.contains(x));
                            }
                        }
                    }
                    found
                }
            }
        }
    }

    /// The largest value in the tree: the value of the node reached by
    /// walking right as far as possible.
    fn biggest(&self) -> (max: i64)
        requires
            self.well_formed(),
        ensures
            self@.contains(max),
            forall|x: i64| self@.contains(x) ==> x <= max,
        decreases self,
    {
        match &self.right {
            None => {
                proof {
                    assert forall|x: i64| self@.contains(x) implies x <= self.value by {
                        if x != self.value {
                            assert(subtree_set(self.left).contains(x)
                                || subtree_set(self.right).contains(x));
                        }
                    }
                }
                self.value
            }
            Some(node) => {
                let max = (&**node).biggest();
                proof {
                    assert(subtree_set(self.right).contains(max));
                    assert forall|x: i64| self@.contains(x) implies x <= max by {
                        if x != self.value && !subtree_set(self.right).contains(x) {
                            assert(subtree_set(self.left).contains(x));
                        }
                    }
                }
                max
            }
        }
    }

    /// Removes `value` from the tree, consuming it.
    ///
    /// The return value is:
    ///
    /// * `Some(_)` if the value removed is not the last element in the tree.
    /// * `None` if the tree got empty.
    ///
    /// Removing a value that is not in the tree gives the tree back
    /// unchanged. When the removed node has two children, its value is
    /// replaced by the largest value of its left subtree, which is then
    /// excised from that subtree.
    pub fn remove(self, value: i64) -> (remaining: Option<Self>)
        requires
            self.well_formed(),
        ensures
            remaining matches Some(tree) ==> tree.well_formed() && tree@ == self@.remove(value),
            remaining is None <==> self@.subset_of(set![value]),
            !self@.contains(value) ==> remaining == Some(self),
        decreases self,
    {
        let ghost orig = self;
        let mut node = self;
        if value == node.value {
            if node.left.is_none() && node.right.is_none() {
                proof {
                    assert(orig@.subset_of(set![value]));
                }
                None
            } else if node.left.is_some() && node.right.is_some() {
                let biggest_from_left = node.left.as_ref().unwrap().biggest();
                proof {
                    assert(subtree_set(orig.left).contains(biggest_from_left));
                    assert(forall|x: i64|
                        subtree_set(orig.left).contains(x) ==> x <= biggest_from_left);
                }
                let taken = node.left.take();
                node.left = replace(taken, biggest_from_left);
                node.value = biggest_from_left;
                proof {
                    let l0 = subtree_set(orig.left);
                    let r0 = subtree_set(orig.right);
                    assert(biggest_from_left < orig.spec_root());
                    assert(orig.as_set().contains(biggest_from_left));
                    assert(!l0.contains(value));
                    assert(!r0.contains(value));
                    assert(subtree_set(node.left) =~= l0.remove(biggest_from_left));
                    assert forall|x: i64|
                        node.as_set().contains(x) implies orig.as_set().remove(value).contains(x)
                    by {
                        if x == biggest_from_left {
                            assert(orig.as_set().contains(x));
                        } else if subtree_set(node.left).contains(x) {
                            assert(l0.contains(x));
                            assert(orig.as_set().contains(x));
                            assert(x < orig.spec_root());
                        } else {
                            assert(r0.contains(x));
                            assert(orig.as_set().contains(x));
                            assert(x > orig.spec_root());
                        }
                    }
                    assert forall|x: i64|
                        orig.as_set().remove(value).contains(x) implies node.as_set().contains(x)
                    by {
                        if l0.contains(x) {
                            assert(x <= biggest_from_left);
                            if x != biggest_from_left {
                                assert(subtree_set(node.left).contains(x));
                            }
                        } else if r0.contains(x) {
                            assert(subtree_set(node.right).contains(x));
                        } else {
                            assert(x == orig.spec_root());
                            assert(false);
                        }
                    }
                    assert(node.as_set() =~= orig.as_set().remove(value));
                    assert forall|x: i64|
                        subtree_set(node.left).contains(x) implies x < biggest_from_left
                    by {
                        assert(l0.contains(x));
                    }
                    assert forall|x: i64|
                        subtree_set(node.right).contains(x) implies x > biggest_from_left
                    by {
                        assert(x > orig.spec_root());
                    }
                    assert(node.well_formed());
                    assert(!orig@.subset_of(set![value]));
                }
                Some(node)
            } else if node.left.is_some() {
                let taken = node.left.take();
                match taken {
                    None => None,
                    Some(child) => {
                        proof {
                            assert(subtree_set(orig.left).contains(child.spec_root()));
                            assert((*child).as_set() =~= orig.as_set().remove(value));
                        }
                        Some(*child)
                    }
                }
            } else {
                let taken = node.right.take();
                match taken {
                    None => None,
                    Some(child) => {
                        proof {
                            assert(subtree_set(orig.right).contains(child.spec_root()));
                            assert((*child).as_set() =~= orig.as_set().remove(value));
                        }
                        Some(*child)
                    }
                }
            }
        } else if value < node.value {
            let taken = node.left.take();
            node.left = replace(taken, value);
            proof {
                assert(!subtree_set(orig.right).contains(value));
                assert(node.as_set() =~= orig.as_set().remove(value));
                assert(orig@.contains(orig.spec_root()));
            }
            Some(node)
        } else {
            let taken = node.right.take();
            node.right = replace(taken, value);
            proof {
                assert(!subtree_set(orig.left).contains(value));
                assert(node.as_set() =~= orig.as_set().remove(value));
                assert(orig@.contains(orig.spec_root()));
            }
            Some(node)
        }
    }

    /// The value at the root of this tree.
    pub fn value(&self) -> (value: i64)
        ensures
            value == self.spec_root(),
    {
        self.value
    }

    /// The left subtree of the root, if any.
    pub fn left(&self) -> (left: Option<&Self>)
        ensures
            match left {
                None => self.spec_left() is None,
                Some(node) => self.spec_left() == Some(*node),
            },
    {
        match &self.left {
            None => None,
            Some(node) => Some(&**node),
        }
    }

    /// The right subtree of the root, if any.
    pub fn right(&self) -> (right: Option<&Self>)
        ensures
            match right {
                None => self.spec_right() is None,
                Some(node) => self.spec_right() == Some(*node),
            },
    {
        match &self.right {
            None => None,
            Some(node) => Some(&**node),
        }
    }

}

/// Replaces an optional child subtree with the result of removing `value`
/// from it: an absent child stays absent, and a child that the removal
/// empties leaves an empty slot behind.
fn replace(son: Option<Box<BinarySearchTree>>, value: i64) -> (updated: Option<Box<BinarySearchTree>>)
    requires
        son matches Some(node) ==> node.well_formed(),
    ensures
        updated matches Some(node) ==> node.well_formed(),
        subtree_set(updated) == subtree_set(son).remove(value),
        !subtree_set(son).contains(value) ==> updated == son,
    decreases son,
{
    let ghost orig_son = son;
    match son {
        None => {
            proof {
                assert(subtree_set(None::<Box<BinarySearchTree>>)
                    =~= subtree_set(None).remove(value));
            }
            None
        }
        Some(container) => {
            match (*container).remove(value) {
                None => {
                    proof {
                        assert(subtree_set(None::<Box<BinarySearchTree>>)
                            =~= subtree_set(orig_son).remove(value));
                    }
                    None
                }
                Some(new) => Some(Box::new(new)),
            }
        }
    }
}

/// The binary-search-tree ordering law, node by node: in a well-formed tree
/// each subtree is itself well-formed, the left subtree holds only values
/// strictly below the root and the right subtree only values strictly above
/// it. `new` builds a well-formed tree and `insert` and `remove` keep
/// well-formedness, so this holds of every node reached through `left` and
/// `right` after any sequence of those operations.
pub proof fn lemma_node_ordering(tree: BinarySearchTree)
    requires
        tree.well_formed(),
    ensures
        tree.spec_left() matches Some(left) ==> left.well_formed()
            && forall|x: i64| left@.contains(x) ==> x < tree.spec_root(),
        tree.spec_right() matches Some(right) ==> right.well_formed()
            && forall|x: i64| right@.contains(x) ==> x > tree.spec_root(),
        tree@.contains(tree.spec_root()),
{
    if tree.spec_left() is Some {
        assert(subtree_set(tree.left) == tree.spec_left().unwrap()@);
    }
    if tree.spec_right() is Some {
        assert(subtree_set(tree.right) == tree.spec_right().unwrap()@);
    }
}

/// Insert idempotence, on the contents: a tree produced by inserting `value`
/// contains it, and inserting a value already present adds nothing to the
/// contents. That a second insert of `value` is also a structural no-op —
/// same shape, same values — is the last `ensures` clause of
/// [`BinarySearchTree::insert`] itself.
pub proof fn lemma_insert_idempotent(before: BinarySearchTree, once: BinarySearchTree, value: i64)
    requires
        once@ == before@.insert(value),
    ensures
        once@.contains(value),
        once@.insert(value) == once@,
{
    assert(once@.insert(value) =~= once@);
}

/// Find correctness across an insert: the inserted value is contained
/// afterwards, and no other value appears or disappears. Together with the
/// `ensures` of [`BinarySearchTree::find`] — which answers `Some` exactly on
/// the contained values — inserted values are found and never-inserted
/// values are not.
pub proof fn lemma_find_after_insert(
    before: BinarySearchTree,
    after: BinarySearchTree,
    inserted: i64,
    other: i64,
)
    requires
        after@ == before@.insert(inserted),
    ensures
        after@.contains(inserted),
        other != inserted ==> (after@.contains(other) <==> before@.contains(other)),
{
}

/// After a removal succeeds, the removed value is absent: a tree whose
/// contents are those of `tree` with `value` removed — what
/// [`BinarySearchTree::remove`] ensures of a returned tree — does not
/// contain `value`, so `find(value)` on it answers `None`.
pub proof fn lemma_removed_value_absent(
    tree: BinarySearchTree,
    remaining: BinarySearchTree,
    value: i64,
)
    requires
        remaining@ == tree@.remove(value),
    ensures
        !remaining@.contains(value),
{
}

/// Removal keeps every remaining element: every value of `tree` other than
/// the removed one is still contained in the tree that
/// [`BinarySearchTree::remove`] returns.
pub proof fn lemma_remove_keeps_others(
    tree: BinarySearchTree,
    remaining: BinarySearchTree,
    value: i64,
)
    requires
        remaining@ == tree@.remove(value),
    ensures
        forall|x: i64| tree@.contains(x) && x != value ==> remaining@.contains(x),
{
}

/// [`BinarySearchTree::remove`] returns `None` exactly when the tree holds
/// `value` and nothing else: a tree's contents lie inside `set![value]` if
/// and only if they are exactly `set![value]`, since a tree always contains
/// its root. In particular, removing the sole value of a one-node tree
/// empties it.
pub proof fn lemma_remove_empties_only_singleton(tree: BinarySearchTree, value: i64)
    ensures
        tree@.subset_of(set![value]) <==> tree@ == set![value],
{
    assert(tree@.contains(tree.spec_root()));
    if tree@.subset_of(set![value]) {
        assert(tree@ =~= set![value]);
    }
}

impl View for BinarySearchTree {
    type V = Set<i64>;

    open spec fn view(&self) -> Set<i64> {
        self.as_set()
    }
}

} // verus!
