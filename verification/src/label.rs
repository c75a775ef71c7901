//! The classification label: a name plus an optional link to a parent label.

use vstd::prelude::*;

verus! {

/// A taxonomic classification label. A label with no parent is a root of the
/// inferred hierarchy; the parent link is only ever assigned by the hierarchy
/// inference engine, which guarantees that a parent is carried by strictly
/// more records than its child.
pub struct Classification {
    pub name: String,
    pub parent_classification: Option<Box<Classification>>,
}

/// Two labels are equal when their names agree and their parent chains agree,
/// link by link. This is the notion of label equality that duplicate
/// detection uses.
pub open spec fn labels_equal(a: Classification, b: Classification) -> bool
    decreases a,
{
    &&& a.name@ == b.name@
    &&& match (a.parent_classification, b.parent_classification) {
        (Option::None, Option::None) => true,
        (Option::Some(pa), Option::Some(pb)) => labels_equal(*pa, *pb),
        _ => false,
    }
}

impl Classification {
    pub fn new(name: String, parent_classification: Option<Classification>) -> (r: Classification)
        ensures
            r.name == name,
            match parent_classification {
                Option::None => r.parent_classification is None,
                Option::Some(p) => r.parent_classification matches Some(b) && *b == p,
            },
    {
        Classification {
            name,
            parent_classification: match parent_classification {
                Option::None => None,
                Option::Some(p) => Some(Box::new(p)),
            },
        }
    }

    /// Field-by-field comparison of two labels, following the parent chains.
    pub fn same_as(&self, other: &Classification) -> (r: bool)
        ensures
            r == labels_equal(*self, *other),
        decreases *self,
    {
        if !(self.name == other.name) {
            return false;
        }
        match (&self.parent_classification, &other.parent_classification) {
            (None, None) => true,
            (Some(a), Some(b)) => a.same_as(b),
            _ => false,
        }
    }
}

impl Clone for Classification {
    fn clone(&self) -> (r: Self)
        ensures
            r == *self,
        decreases *self,
    {
        Classification {
            name: self.name.clone(),
            parent_classification: match &self.parent_classification {
                None => None,
                Some(b) => Some(Box::new((**b).clone())),
            },
        }
    }
}

} // verus!
