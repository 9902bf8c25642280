//! Labels for the terms of a conflict.

use crate::merge::Merge;
use crate::simplify;
use crate::value::Value;
use vstd::prelude::*;
use vstd::string::*;

verus! {

/// The labels of a merge that has none.
pub open spec fn unlabeled_terms() -> Seq<Seq<char>> {
    seq![Seq::empty()]
}

/// Whether every label is empty.
pub open spec fn all_empty(labels: Seq<Seq<char>>) -> bool {
    forall|i: int| 0 <= i < labels.len() ==> (#[trigger] labels[i]).len() == 0
}

/// The given labels, unless there is nothing to label or they are all empty.
pub open spec fn effective_labels(labels: Seq<Seq<char>>) -> Seq<Seq<char>> {
    if labels.len() == 1 || all_empty(labels) {
        unlabeled_terms()
    } else {
        labels
    }
}

/// What is left of the labels once the merge that they label is simplified.
pub open spec fn simplified_labels<A>(labels: Seq<Seq<char>>, terms: Seq<A>) -> Seq<Seq<char>> {
    if labels.len() == 1 {
        unlabeled_terms()
    } else {
        effective_labels(simplify::terms_at(labels, simplify::simplified_mapping(terms)))
    }
}

/// Optionally contains a set of labels for the terms of a conflict. Resolved
/// merges cannot be labeled. The conflict labels can also be "unlabeled".
#[derive(Debug, PartialEq, Eq)]
pub struct ConflictLabels {
    labels: Merge<String>,
}

impl View for ConflictLabels {
    type V = Seq<Seq<char>>;

    closed spec fn view(&self) -> Seq<Seq<char>> {
        self.labels@
    }
}

impl DeepView for ConflictLabels {
    type V = Seq<Seq<char>>;

    open spec fn deep_view(&self) -> Seq<Seq<char>> {
        self@
    }
}

impl Value for ConflictLabels {
    fn same(&self, other: &Self) -> (r: bool) {
        self.labels.same(&other.labels)
    }

    fn dup(&self) -> (r: Self) {
        proof {
            use_type_invariant(self);
        }
        ConflictLabels { labels: self.labels.dup() }
    }
}

impl Clone for ConflictLabels {
    fn clone(&self) -> (r: Self)
        ensures
            r@ == self@,
    {
        self.dup()
    }
}

impl ConflictLabels {
    #[verifier::type_invariant]
    spec fn type_inv(self) -> bool {
        &&& self.labels@.len() % 2 == 1
        &&& self.labels@ == effective_labels(self.labels@)
    }

    /// Labels for a merge that has none.
    pub fn unlabeled() -> (r: Self)
        ensures
            r@ == unlabeled_terms(),
    {
        let labels = Merge::resolved(String::new());
        assert(labels@ =~= unlabeled_terms());
        ConflictLabels { labels }
    }

    /// The given labels. They are dropped if the merge is resolved or if all of
    /// them are empty.
    pub fn from_merge(labels: Merge<String>) -> (r: Self)
        ensures
            r@ == effective_labels(labels@),
    {
        let terms = labels.as_slice();
        let n = terms.len();
        if n == 1 {
            return Self::unlabeled();
        }
        let mut empty = true;
        for i in 0..n
            invariant
                n == terms.len(),
                terms@ == labels.terms(),
                empty == forall|j: int| 0 <= j < i ==> (#[trigger] labels@[j]).len() == 0,
        {
            let text = terms[i].as_str();
            assert(labels@[i as int] == text@);
            if text.unicode_len() > 0 {
                empty = false;
            }
        }
        if empty {
            Self::unlabeled()
        } else {
            assert(!all_empty(labels@));
            ConflictLabels { labels }
        }
    }

    /// The given labels, as the terms of a merge.
    pub fn from_vec(labels: Vec<String>) -> (r: Self)
        requires
            labels.len() % 2 == 1,
        ensures
            r@ == effective_labels(labels.deep_view()),
    {
        let merge = Merge::from_vec(labels);
        assert(merge@ =~= labels.deep_view());
        Self::from_merge(merge)
    }

    /// Whether there are labels.
    pub fn has_labels(&self) -> (r: bool)
        ensures
            r == (self@.len() != 1),
    {
        !self.labels.is_resolved()
    }

    /// The number of sides of the underlying merge, if there are labels.
    pub fn num_sides(&self) -> (r: Option<usize>)
        ensures
            match r {
                Some(n) => self@.len() != 1 && 2 * n == self@.len() + 1,
                None => self@.len() == 1,
            },
    {
        if self.has_labels() {
            Some(self.labels.num_sides())
        } else {
            None
        }
    }

    /// The underlying merge. It is resolved to an empty label if there are no
    /// labels.
    pub fn as_merge(&self) -> (r: &Merge<String>)
        ensures
            r@ == self@,
            r@.len() % 2 == 1,
            r@ == effective_labels(r@),
    {
        proof {
            use_type_invariant(self);
        }
        &self.labels
    }

    /// The label of an added term, if it has one.
    pub fn get_add(&self, index: usize) -> (r: Option<&str>)
        ensures
            match r {
                Some(label) => term_label(self@, 2 * index) == Some(label@),
                None => term_label(self@, 2 * index) is None,
            },
    {
        match self.labels.get_add(index) {
            Some(label) => {
                let label = label.as_str();
                assert(self@[2 * index] == label@);
                if label.unicode_len() > 0 {
                    Some(label)
                } else {
                    None
                }
            },
            None => None,
        }
    }

    /// The label of a removed term, if it has one.
    pub fn get_remove(&self, index: usize) -> (r: Option<&str>)
        ensures
            match r {
                Some(label) => term_label(self@, 2 * index + 1) == Some(label@),
                None => term_label(self@, 2 * index + 1) is None,
            },
    {
        match self.labels.get_remove(index) {
            Some(label) => {
                let label = label.as_str();
                assert(self@[2 * index + 1] == label@);
                if label.unicode_len() > 0 {
                    Some(label)
                } else {
                    None
                }
            },
            None => None,
        }
    }

    /// Simplifies a merge, and the labels of its terms with it.
    pub fn simplify_with<T: Value>(&self, merge: &Merge<T>) -> (r: (Self, Merge<T>))
        requires
            self@.len() != 1 ==> self@.len() == merge@.len(),
        ensures
            r.0@ == simplified_labels(self@, merge@),
            r.1@ == simplify::simplified(merge@),
    {
        if self.has_labels() {
            let mapping = merge.simplified_mapping();
            let labels = Self::from_merge(self.labels.terms_at(&mapping));
            (labels, merge.terms_at(&mapping))
        } else {
            (Self::unlabeled(), merge.simplify())
        }
    }
}

/// The label of the term with the given place, if it has one.
pub open spec fn term_label(labels: Seq<Seq<char>>, place: int) -> Option<Seq<char>> {
    if 0 <= place < labels.len() && labels[place].len() > 0 {
        Some(labels[place])
    } else {
        None
    }
}

} // verus!
