use vstd::prelude::*;
use vstd::multiset::Multiset;
use crate::document::{doc_matches_tree, Document};
use crate::errors::FuzzyError;
use crate::fuzzy::defuzzify;
use crate::json::{json_i64_field, parse_a_and_b};
use crate::tree::Tree;

verus! {

/// The holder of the one shared tree. Every operation is synchronous, keeps
/// the tree well formed, and on failure leaves it exactly as it was; an
/// embedding application that serves concurrent callers wraps the store in
/// its own mutual-exclusion primitive and holds the lock across one whole
/// operation.
pub struct TreeStore {
    pub tree: Tree,
}

impl TreeStore {
    /// The stored tree satisfies the search-order invariant.
    pub open spec fn well_formed(self) -> bool {
        self.tree.well_formed()
    }

    /// A store holding an empty tree.
    pub fn new() -> (s: TreeStore)
        ensures
            s.well_formed(),
            s.tree.root.is_none(),
            s.tree.as_multiset() =~= Multiset::<int>::empty(),
    {
        TreeStore { tree: Tree::new() }
    }

    /// The raw insertion path: stores `value` unconditionally and returns the
    /// serialized document of the updated tree.
    pub fn insert(&mut self, value: i32) -> (d: Document)
        requires
            old(self).well_formed(),
        ensures
            final(self).well_formed(),
            final(self).tree.as_multiset() =~= old(self).tree.as_multiset().insert(value as int),
            *final(self) == (TreeStore { tree: old(self).tree.spec_insert(value) }),
            doc_matches_tree(d, final(self).tree),
    {
        self.tree.insert(value);
        self.tree.to_json()
    }

    /// The fuzzy insertion path: reads the two integer parameters out of the
    /// payload, defuzzifies them, stores the crisp result and returns the
    /// updated document. A malformed payload or invalid parameters abort the
    /// operation before anything is stored.
    pub fn add_node(&mut self, payload: &serde_json::Value) -> (r: Result<Document, FuzzyError>)
        requires
            old(self).well_formed(),
        ensures
            final(self).well_formed(),
            r is Err ==> *final(self) == *old(self),
            (match (json_i64_field(*payload, "valueA"@), json_i64_field(*payload, "valueB"@)) {
                (Some(a), Some(b)) => {
                    if a as i32 >= 1 {
                        &&& final(self).tree.as_multiset() =~= old(self).tree.as_multiset().insert(
                            b as i32 as int,
                        )
                        &&& (r matches Ok(d) && doc_matches_tree(d, final(self).tree))
                    } else {
                        r == Err::<Document, FuzzyError>(FuzzyError::InvalidParameter)
                    }
                },
                _ => r == Err::<Document, FuzzyError>(FuzzyError::MalformedInput),
            }),
    {
        let parsed = parse_a_and_b(payload);
        let (a, b) = match parsed {
            Ok(pair) => pair,
            Err(e) => {
                return Err(e);
            },
        };
        let crisp = match defuzzify(a, b) {
            Ok(v) => v,
            Err(e) => {
                return Err(e);
            },
        };
        Ok(self.insert(crisp))
    }

    /// The read path: the current document, `Null` while nothing has been
    /// inserted yet.
    pub fn snapshot(&self) -> (d: Document)
        ensures
            doc_matches_tree(d, self.tree),
    {
        self.tree.to_json()
    }
}

} // verus!
