use vstd::prelude::*;
use vstd::multiset::Multiset;

verus! {

broadcast use vstd::multiset::group_multiset_axioms;

/// One node of the ordered tree: a value and up to two owned children.
pub struct Node {
    pub value: i32,
    pub left: Option<Box<Node>>,
    pub right: Option<Box<Node>>,
}

/// An ordered binary tree keyed by integer value. Duplicates are allowed and
/// route to the left subtree; the tree is not balanced.
pub struct Tree {
    pub root: Option<Box<Node>>,
}

impl Node {
    /// The multiset of values stored in an optional subtree.
    pub open spec fn optional_as_multiset(o: Option<Box<Node>>) -> Multiset<int>
        decreases o,
    {
        match o {
            None => Multiset::empty(),
            Some(n) => n.as_multiset(),
        }
    }

    /// The multiset of values stored in the subtree rooted at `self`.
    pub open spec fn as_multiset(self) -> Multiset<int>
        decreases self,
    {
        Node::optional_as_multiset(self.left).add(
            Node::optional_as_multiset(self.right),
        ).insert(self.value as int)
    }

    /// The search-order invariant: values on the left are at most the node's
    /// value, values on the right are strictly greater, recursively.
    pub open spec fn well_formed(self) -> bool
        decreases self,
    {
        &&& forall|v: int|
            #[trigger] Node::optional_as_multiset(self.left).contains(v) ==> v <= self.value as int
        &&& forall|v: int|
            #[trigger] Node::optional_as_multiset(self.right).contains(v) ==> v > self.value as int
        &&& (match self.left {
            Some(l) => l.well_formed(),
            None => true,
        })
        &&& (match self.right {
            Some(r) => r.well_formed(),
            None => true,
        })
    }

    /// The node a single insertion produces: a leaf holding `value`.
    pub open spec fn spec_leaf(value: i32) -> Node {
        Node { value, left: None, right: None }
    }

    /// The subtree that results from inserting `value` below `n`: the walk
    /// descends right on strictly greater values and left otherwise, and
    /// attaches a leaf at the first empty slot.
    pub open spec fn spec_insert(n: Node, value: i32) -> Node
        decreases n,
    {
        if value > n.value {
            match n.right {
                None => Node { right: Some(Box::new(Node::spec_leaf(value))), ..n },
                Some(r) => Node { right: Some(Box::new(Node::spec_insert(*r, value))), ..n },
            }
        } else {
            match n.left {
                None => Node { left: Some(Box::new(Node::spec_leaf(value))), ..n },
                Some(l) => Node { left: Some(Box::new(Node::spec_insert(*l, value))), ..n },
            }
        }
    }

    /// A leaf node holding `value`.
    pub fn new(value: i32) -> (r: Node)
        ensures
            r.value == value,
            r.left.is_none(),
            r.right.is_none(),
            r.well_formed(),
            r.as_multiset() =~= Multiset::empty().insert(value as int),
    {
        Node { value, left: None, right: None }
    }
}

impl Tree {
    /// The multiset of all values ever inserted into the tree.
    pub open spec fn as_multiset(self) -> Multiset<int> {
        Node::optional_as_multiset(self.root)
    }

    /// The tree that results from inserting `value`.
    pub open spec fn spec_insert(self, value: i32) -> Tree {
        match self.root {
            None => Tree { root: Some(Box::new(Node::spec_leaf(value))) },
            Some(r) => Tree { root: Some(Box::new(Node::spec_insert(*r, value))) },
        }
    }

    /// The tree that results from inserting a whole sequence of values in
    /// order.
    pub open spec fn insert_all(self, values: Seq<i32>) -> Tree
        decreases values.len(),
    {
        if values.len() == 0 {
            self
        } else {
            self.spec_insert(values[0]).insert_all(values.drop_first())
        }
    }

    /// The whole tree satisfies the search-order invariant.
    pub open spec fn well_formed(self) -> bool {
        match self.root {
            Some(n) => n.well_formed(),
            None => true,
        }
    }

    /// An empty tree.
    pub fn new() -> (t: Tree)
        ensures
            t.well_formed(),
            t.root.is_none(),
            t.as_multiset() =~= Multiset::<int>::empty(),
    {
        Tree { root: None }
    }

    /// Inserts `value`, keeping the search order; a duplicate of the root
    /// descends left (the root's right subtree is untouched), a greater value
    /// descends right. The insertion never fails and grows the tree by one.
    pub fn insert(&mut self, value: i32)
        requires
            old(self).well_formed(),
        ensures
            *final(self) == old(self).spec_insert(value),
            final(self).well_formed(),
            final(self).as_multiset() =~= old(self).as_multiset().insert(value as int),
            final(self).as_multiset().len() == old(self).as_multiset().len() + 1,
            (match (old(self).root, final(self).root) {
                (None, Some(n)) => n.value == value && n.left.is_none() && n.right.is_none(),
                (Some(o), Some(n)) => {
                    &&& n.value == o.value
                    &&& (value <= o.value ==> n.right == o.right)
                    &&& (value > o.value ==> n.left == o.left)
                },
                _ => false,
            }),
    {
        match self.root.take() {
            None => {
                self.root = Some(Box::new(Node::new(value)));
            }
            Some(mut node) => {
                Tree::insert_recursive(&mut node, value);
                self.root = Some(node);
            }
        }
    }

    /// Walks down from `node` and attaches `value` at the first empty slot:
    /// right when strictly greater, left otherwise (so duplicates go left).
    pub fn insert_recursive(node: &mut Box<Node>, value: i32)
        requires
            old(node).well_formed(),
        ensures
            **final(node) == Node::spec_insert(**old(node), value),
            final(node).well_formed(),
            final(node).as_multiset() =~= old(node).as_multiset().insert(value as int),
            final(node).value == old(node).value,
            value <= old(node).value ==> final(node).right == old(node).right,
            value > old(node).value ==> final(node).left == old(node).left,
        decreases *old(node),
    {
        if value > node.value {
            let ghost old_right = node.right;
            match node.right.take() {
                None => {
                    node.right = Some(Box::new(Node::new(value)));
                }
                Some(mut n) => {
                    Tree::insert_recursive(&mut n, value);
                    node.right = Some(n);
                }
            }
            proof {
                assert(Node::optional_as_multiset(node.right) =~= Node::optional_as_multiset(
                    old_right,
                ).insert(value as int));
                assert forall|v: int|
                    #[trigger] Node::optional_as_multiset(node.right).contains(v) implies v
                    > node.value as int by {
                    if v != value as int {
                        assert(Node::optional_as_multiset(old_right).contains(v));
                    }
                }
            }
        } else {
            let ghost old_left = node.left;
            match node.left.take() {
                None => {
                    node.left = Some(Box::new(Node::new(value)));
                }
                Some(mut n) => {
                    Tree::insert_recursive(&mut n, value);
                    node.left = Some(n);
                }
            }
            proof {
                assert(Node::optional_as_multiset(node.left) =~= Node::optional_as_multiset(
                    old_left,
                ).insert(value as int));
                assert forall|v: int|
                    #[trigger] Node::optional_as_multiset(node.left).contains(v) implies v
                    <= node.value as int by {
                    if v != value as int {
                        assert(Node::optional_as_multiset(old_left).contains(v));
                    }
                }
            }
        }
    }
}

/// One spec-level insertion keeps the search-order invariant and adds exactly
/// the inserted value to the stored multiset.
pub proof fn lemma_spec_insert_node(n: Node, value: i32)
    requires
        n.well_formed(),
    ensures
        Node::spec_insert(n, value).well_formed(),
        Node::spec_insert(n, value).as_multiset() =~= n.as_multiset().insert(value as int),
        Node::spec_insert(n, value).value == n.value,
    decreases n,
{
    let m = Node::spec_insert(n, value);
    assert(Node::spec_leaf(value).well_formed());
    assert(Node::spec_leaf(value).as_multiset() =~= Multiset::empty().insert(value as int));
    if value > n.value {
        match n.right {
            None => {},
            Some(r) => {
                lemma_spec_insert_node(*r, value);
            },
        }
        assert(Node::optional_as_multiset(m.right) =~= Node::optional_as_multiset(
            n.right,
        ).insert(value as int));
        assert forall|v: int| #[trigger] Node::optional_as_multiset(m.right).contains(v) implies v
            > m.value as int by {
            if v != value as int {
                assert(Node::optional_as_multiset(n.right).contains(v));
            }
        }
        assert(m.as_multiset() =~= n.as_multiset().insert(value as int));
    } else {
        match n.left {
            None => {},
            Some(l) => {
                lemma_spec_insert_node(*l, value);
            },
        }
        assert(Node::optional_as_multiset(m.left) =~= Node::optional_as_multiset(n.left).insert(
            value as int,
        ));
        assert forall|v: int| #[trigger] Node::optional_as_multiset(m.left).contains(v) implies v
            <= m.value as int by {
            if v != value as int {
                assert(Node::optional_as_multiset(n.left).contains(v));
            }
        }
        assert(m.as_multiset() =~= n.as_multiset().insert(value as int));
    }
}

/// The tree-level form of the insertion law.
pub proof fn lemma_spec_insert_tree(t: Tree, value: i32)
    requires
        t.well_formed(),
    ensures
        t.spec_insert(value).well_formed(),
        t.spec_insert(value).as_multiset() =~= t.as_multiset().insert(value as int),
        t.spec_insert(value).as_multiset().len() == t.as_multiset().len() + 1,
{
    match t.root {
        None => {},
        Some(r) => {
            lemma_spec_insert_node(*r, value);
        },
    }
}

/// Values no greater than a node's — duplicates in particular — always
/// descend left: inserting one leaves the node's value and whole right
/// subtree untouched, while a strictly greater value leaves the left subtree
/// untouched.
pub proof fn lemma_duplicates_descend_left(n: Node, value: i32)
    ensures
        Node::spec_insert(n, value).value == n.value,
        value <= n.value ==> Node::spec_insert(n, value).right == n.right,
        value > n.value ==> Node::spec_insert(n, value).left == n.left,
{
}

/// The raw-path insertion law: inserting any sequence of values in order
/// into a well-formed tree (in particular an empty one) keeps the
/// search-order invariant and stores exactly one value per insertion.
pub proof fn lemma_insert_run(t: Tree, values: Seq<i32>)
    requires
        t.well_formed(),
    ensures
        t.insert_all(values).well_formed(),
        t.insert_all(values).as_multiset().len() == t.as_multiset().len() + values.len(),
    decreases values.len(),
{
    if values.len() > 0 {
        lemma_spec_insert_tree(t, values[0]);
        lemma_insert_run(t.spec_insert(values[0]), values.drop_first());
    }
}

} // verus!
