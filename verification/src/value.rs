//! Values that executable code can compare and duplicate, up to their deep view.

use vstd::prelude::*;
use vstd::string::*;

verus! {

/// A value with a deep view, which executable code can compare and duplicate.
pub trait Value: DeepView + Sized {
    /// Whether the two values have the same deep view.
    fn same(&self, other: &Self) -> (r: bool)
        ensures
            r == (self.deep_view() == other.deep_view()),
    ;

    /// Another value with the same deep view.
    fn dup(&self) -> (r: Self)
        ensures
            r.deep_view() == self.deep_view(),
    ;
}

impl Value for bool {
    fn same(&self, other: &Self) -> (r: bool) {
        *self == *other
    }

    fn dup(&self) -> (r: Self) {
        *self
    }
}

impl Value for u8 {
    fn same(&self, other: &Self) -> (r: bool) {
        *self == *other
    }

    fn dup(&self) -> (r: Self) {
        *self
    }
}

impl Value for usize {
    fn same(&self, other: &Self) -> (r: bool) {
        *self == *other
    }

    fn dup(&self) -> (r: Self) {
        *self
    }
}

impl Value for String {
    fn same(&self, other: &Self) -> (r: bool) {
        self.eq(other)
    }

    fn dup(&self) -> (r: Self) {
        self.clone()
    }
}

impl<'a, T: Value> Value for &'a T {
    fn same(&self, other: &Self) -> (r: bool) {
        (**self).same(*other)
    }

    fn dup(&self) -> (r: Self) {
        *self
    }
}

impl<'a> Value for &'a str {
    fn same(&self, other: &Self) -> (r: bool) {
        let n = self.unicode_len();
        if n != other.unicode_len() {
            return false;
        }
        for i in 0..n
            invariant
                n == self@.len(),
                n == other@.len(),
                forall|j: int| 0 <= j < i ==> self@[j] == other@[j],
        {
            if self.get_char(i) != other.get_char(i) {
                return false;
            }
        }
        assert(self@ =~= other@);
        true
    }

    fn dup(&self) -> (r: Self) {
        *self
    }
}

impl<T: Value> Value for Option<T> {
    fn same(&self, other: &Self) -> (r: bool) {
        match (self, other) {
            (Some(a), Some(b)) => a.same(b),
            (None, None) => true,
            _ => false,
        }
    }

    fn dup(&self) -> (r: Self) {
        match self {
            Some(a) => Some(a.dup()),
            None => None,
        }
    }
}

impl<A: Value, B: Value> Value for (A, B) {
    fn same(&self, other: &Self) -> (r: bool) {
        self.0.same(&other.0) && self.1.same(&other.1)
    }

    fn dup(&self) -> (r: Self) {
        (self.0.dup(), self.1.dup())
    }
}

impl<T: Value> Value for Vec<T> {
    fn same(&self, other: &Self) -> (r: bool) {
        if self.len() != other.len() {
            assert(self.deep_view().len() != other.deep_view().len());
            return false;
        }
        let n = self.len();
        for i in 0..n
            invariant
                n == self.len(),
                n == other.len(),
                forall|j: int| 0 <= j < i ==> self.deep_view()[j] == other.deep_view()[j],
        {
            if !self[i].same(&other[i]) {
                assert(self.deep_view()[i as int] != other.deep_view()[i as int]);
                return false;
            }
        }
        assert(self.deep_view() =~= other.deep_view());
        true
    }

    fn dup(&self) -> (r: Self) {
        let mut r: Vec<T> = Vec::new();
        let n = self.len();
        for i in 0..n
            invariant
                n == self.len(),
                r.len() == i,
                forall|j: int| 0 <= j < i ==> (#[trigger] r@[j]).deep_view() == self@[j].deep_view(),
        {
            r.push(self[i].dup());
        }
        assert(r.deep_view() =~= self.deep_view());
        r
    }
}

/// The deep view of a vector of bytes is its view.
pub broadcast proof fn lemma_bytes_deep_view(v: Vec<u8>)
    ensures
        #[trigger] v.deep_view() == v@,
{
    assert(v.deep_view() =~= v@);
}

} // verus!
