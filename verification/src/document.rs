use vstd::prelude::*;
use vstd::multiset::Multiset;
use crate::tree::{Node, Tree};

verus! {

broadcast use vstd::multiset::group_multiset_axioms;

/// The nested wire document a tree serializes to: `Null` for an empty tree,
/// otherwise a value with an ordered list of serialized children (left
/// subtree first, then right; the left/right role is not recorded).
#[derive(Debug, PartialEq, Eq)]
pub enum Document {
    Null,
    Object { value: i32, children: Vec<Document> },
}

/// The number of value-bearing nodes in a document.
pub open spec fn doc_count(d: Document) -> nat
    decreases d,
{
    match d {
        Document::Null => 0,
        Document::Object { value, children } => 1 + docs_count(children@),
    }
}

/// The total node count of a sequence of documents.
pub open spec fn docs_count(s: Seq<Document>) -> nat
    decreases s,
{
    if s.len() == 0 {
        0
    } else {
        doc_count(s[0]) + docs_count(s.drop_first())
    }
}

/// The serialization relation: `d` is exactly the document that the subtree
/// rooted at `n` serializes to. The children list holds the serialized left
/// subtree first (when present), then the serialized right subtree (when
/// present), each recursively in the same shape.
pub open spec fn doc_matches_node(d: Document, n: Node) -> bool
    decreases n,
{
    match d {
        Document::Null => false,
        Document::Object { value, children } => {
            &&& value == n.value
            &&& (match (n.left, n.right) {
                (None, None) => children@.len() == 0,
                (Some(l), None) => children@.len() == 1 && doc_matches_node(children@[0], *l),
                (None, Some(r)) => children@.len() == 1 && doc_matches_node(children@[0], *r),
                (Some(l), Some(r)) => children@.len() == 2 && doc_matches_node(children@[0], *l)
                    && doc_matches_node(children@[1], *r),
            })
        },
    }
}

/// The serialization relation at tree level: the empty tree serializes to
/// `Document::Null`, any other tree to exactly the nested document of its
/// root.
pub open spec fn doc_matches_tree(d: Document, t: Tree) -> bool {
    match t.root {
        None => d == Document::Null,
        Some(n) => doc_matches_node(d, *n),
    }
}

impl Tree {
    /// Serializes the tree: the empty tree yields `Document::Null`, any other
    /// tree yields exactly the nested document of its root.
    pub fn to_json(&self) -> (d: Document)
        ensures
            doc_matches_tree(d, *self),
    {
        match &self.root {
            Some(root) => Tree::serialize_node(root),
            None => Document::Null,
        }
    }

    /// Serializes one subtree into its nested document.
    pub fn serialize_node(node: &Box<Node>) -> (d: Document)
        ensures
            doc_matches_node(d, **node),
        decreases **node,
    {
        let mut children: Vec<Document> = Vec::new();
        if let Some(left) = &node.left {
            children.push(Tree::serialize_node(left));
        }
        if let Some(right) = &node.right {
            children.push(Tree::serialize_node(right));
        }
        Document::Object { value: node.value, children }
    }
}

/// A document that serializes a childless node is exactly
/// `{ value: the node's value, children: [] }`.
pub proof fn lemma_leaf_document(d: Document, n: Node)
    requires
        n.left.is_none(),
        n.right.is_none(),
        doc_matches_node(d, n),
    ensures
        (match d {
            Document::Null => false,
            Document::Object { value, children } => value == n.value && children@.len() == 0,
        }),
{
}

/// Serialization preserves the node count: the document matching a subtree
/// holds exactly as many value nodes as the subtree holds values.
pub proof fn lemma_document_count(d: Document, n: Node)
    requires
        doc_matches_node(d, n),
    ensures
        doc_count(d) == n.as_multiset().len(),
    decreases n,
{
    let lms = Node::optional_as_multiset(n.left);
    let rms = Node::optional_as_multiset(n.right);
    assert(n.as_multiset().len() == lms.len() + rms.len() + 1);
    match d {
        Document::Null => {}
        Document::Object { value, children } => {
            let s = children@;
            match (n.left, n.right) {
                (None, None) => {
                    assert(docs_count(s) == 0);
                }
                (Some(l), None) => {
                    lemma_document_count(s[0], *l);
                    assert(docs_count(s.drop_first()) == 0);
                    assert(docs_count(s) == doc_count(s[0]));
                }
                (None, Some(r)) => {
                    lemma_document_count(s[0], *r);
                    assert(docs_count(s.drop_first()) == 0);
                    assert(docs_count(s) == doc_count(s[0]));
                }
                (Some(l), Some(r)) => {
                    lemma_document_count(s[0], *l);
                    lemma_document_count(s[1], *r);
                    assert(s.drop_first()[0] == s[1]);
                    assert(docs_count(s.drop_first().drop_first()) == 0);
                    assert(docs_count(s.drop_first()) == doc_count(s[1]));
                    assert(docs_count(s) == doc_count(s[0]) + doc_count(s[1]));
                }
            }
        },
    }
}

/// The serialized node count equals the number of values the tree stores:
/// any document standing for the tree (as `to_json` and `snapshot` produce)
/// holds one value node per stored value, so after a run of insertions into
/// an initially empty tree it holds exactly one node per insertion.
pub proof fn lemma_snapshot_count(d: Document, t: Tree)
    requires
        doc_matches_tree(d, t),
    ensures
        doc_count(d) == t.as_multiset().len(),
{
    match t.root {
        None => {
            assert(t.as_multiset() =~= Multiset::<int>::empty());
        },
        Some(n) => {
            lemma_document_count(d, *n);
        },
    }
}

/// Inserting one value `v` into the empty tree and serializing yields exactly
/// `{ value: v, children: [] }`.
pub proof fn lemma_first_insert_document(t: Tree, v: i32, d: Document)
    requires
        t.root is None,
        doc_matches_tree(d, t.spec_insert(v)),
    ensures
        (match d {
            Document::Null => false,
            Document::Object { value, children } => value == v && children@.len() == 0,
        }),
{
    assert(Node::spec_leaf(v).left.is_none());
    lemma_leaf_document(d, Node::spec_leaf(v));
}

} // verus!
