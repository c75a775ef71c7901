//! The bird record: a species name, a common name, and an ordered list of
//! classification labels.

use vstd::prelude::*;

use crate::label::{labels_equal, Classification};

verus! {

/// A catalogued bird. The labels are kept in the order the source gave them;
/// that order drives the tie-break of the hierarchy inference.
pub struct Bird {
    pub name: String,
    pub common_name: String,
    pub parent_nodes: Vec<Classification>,
}

/// Two records are duplicates exactly when name, common name and the ordered
/// label list all compare equal.
pub open spec fn birds_equal(a: Bird, b: Bird) -> bool {
    &&& a.name@ == b.name@
    &&& a.common_name@ == b.common_name@
    &&& a.parent_nodes@.len() == b.parent_nodes@.len()
    &&& forall|j: int|
        0 <= j < a.parent_nodes@.len() ==> labels_equal(
            #[trigger] a.parent_nodes@[j],
            b.parent_nodes@[j],
        )
}

/// A record carries a label name when some position of its label list holds
/// a label of that name.
pub open spec fn bird_carries(b: Bird, name: Seq<char>) -> bool {
    exists|j: int| 0 <= j < b.parent_nodes@.len() && (#[trigger] b.parent_nodes@[j]).name@ == name
}

impl Bird {
    pub fn new(name: String, parent_nodes: Vec<Classification>, common_name: String) -> (r: Bird)
        ensures
            r.name == name,
            r.parent_nodes == parent_nodes,
            r.common_name == common_name,
    {
        Bird { name, parent_nodes, common_name }
    }

    /// Builds a record from raw label names, as the loader hands them in:
    /// every label starts out as a root, with no parent assigned.
    pub fn from_names(name: String, common_name: String, label_names: Vec<String>) -> (r: Bird)
        ensures
            r.name == name,
            r.common_name == common_name,
            r.parent_nodes@.len() == label_names@.len(),
            forall|j: int|
                0 <= j < label_names@.len() ==> (#[trigger] r.parent_nodes@[j]).name
                    == label_names@[j] && r.parent_nodes@[j].parent_classification is None,
    {
        let mut nodes: Vec<Classification> = Vec::new();
        let mut i: usize = 0;
        while i < label_names.len()
            invariant
                i <= label_names@.len(),
                nodes@.len() == i,
                forall|j: int|
                    0 <= j < i ==> (#[trigger] nodes@[j]).name == label_names@[j]
                        && nodes@[j].parent_classification is None,
            decreases label_names@.len() - i,
        {
            let c = Classification::new(label_names[i].clone(), None);
            nodes.push(c);
            i = i + 1;
        }
        Bird { name, common_name, parent_nodes: nodes }
    }

    /// Field-by-field comparison of two records, including their label lists.
    pub fn same_as(&self, other: &Bird) -> (r: bool)
        ensures
            r == birds_equal(*self, *other),
    {
        if !(self.name == other.name) {
            return false;
        }
        if !(self.common_name == other.common_name) {
            return false;
        }
        if self.parent_nodes.len() != other.parent_nodes.len() {
            return false;
        }
        let mut j: usize = 0;
        while j < self.parent_nodes.len()
            invariant
                j <= self.parent_nodes@.len(),
                self.parent_nodes@.len() == other.parent_nodes@.len(),
                forall|t: int|
                    0 <= t < j ==> labels_equal(
                        #[trigger] self.parent_nodes@[t],
                        other.parent_nodes@[t],
                    ),
            decreases self.parent_nodes@.len() - j,
        {
            if !self.parent_nodes[j].same_as(&other.parent_nodes[j]) {
                return false;
            }
            j = j + 1;
        }
        true
    }
}

impl Clone for Bird {
    fn clone(&self) -> (r: Self)
        ensures
            r.name == self.name,
            r.common_name == self.common_name,
            r.parent_nodes@ == self.parent_nodes@,
    {
        let mut nodes: Vec<Classification> = Vec::new();
        let mut i: usize = 0;
        while i < self.parent_nodes.len()
            invariant
                i <= self.parent_nodes@.len(),
                nodes@ == self.parent_nodes@.take(i as int),
            decreases self.parent_nodes@.len() - i,
        {
            nodes.push(self.parent_nodes[i].clone());
            proof {
                assert(nodes@ =~= self.parent_nodes@.take(i + 1));
            }
            i = i + 1;
        }
        proof {
            assert(nodes@ =~= self.parent_nodes@);
        }
        Bird { name: self.name.clone(), common_name: self.common_name.clone(), parent_nodes: nodes }
    }
}

} // verus!
