//! Paths inside a repository.

use crate::order;
use crate::value::Value;
use vstd::prelude::*;
use vstd::string::*;

verus! {

/// A name in a directory.
pub type NameView = Seq<char>;

/// The names on the way from the root directory.
pub type PathView = Seq<Seq<char>>;

/// Whether `name` can name something in a directory.
pub open spec fn valid_name(name: NameView) -> bool {
    name.len() > 0 && !name.contains('/')
}

/// The text of a path: the names, with slashes between them.
pub open spec fn path_text(path: PathView) -> Seq<char>
    decreases path.len(),
{
    if path.len() == 0 {
        Seq::empty()
    } else if path.len() == 1 {
        path[0]
    } else {
        path_text(path.drop_last()) + "/"@ + path.last()
    }
}

/// Whether `path` is `base` or lies below it.
pub open spec fn path_starts_with(path: PathView, base: PathView) -> bool {
    base.len() <= path.len() && path.take(base.len() as int) == base
}

/// A name in a directory: not empty, and without a slash.
#[derive(Debug, PartialEq, Eq, PartialOrd, Ord, Hash)]
pub struct RepoPathComponentBuf {
    value: String,
}

impl View for RepoPathComponentBuf {
    type V = NameView;

    closed spec fn view(&self) -> NameView {
        self.value@
    }
}

impl DeepView for RepoPathComponentBuf {
    type V = NameView;

    open spec fn deep_view(&self) -> NameView {
        self@
    }
}

impl Value for RepoPathComponentBuf {
    fn same(&self, other: &Self) -> (r: bool) {
        self.value.same(&other.value)
    }

    fn dup(&self) -> (r: Self) {
        proof {
            use_type_invariant(self);
        }
        RepoPathComponentBuf { value: self.value.clone() }
    }
}

impl Clone for RepoPathComponentBuf {
    fn clone(&self) -> (r: Self)
        ensures
            r@ == self@,
    {
        self.dup()
    }
}

impl RepoPathComponentBuf {
    #[verifier::type_invariant]
    spec fn type_inv(self) -> bool {
        valid_name(self.value@)
    }

    /// The name with the given text, if the text can be a name.
    pub fn new(value: String) -> (r: Option<Self>)
        ensures
            match r {
                Some(name) => valid_name(value@) && name@ == value@,
                None => !valid_name(value@),
            },
    {
        let text = value.as_str();
        let n = text.unicode_len();
        if n == 0 {
            return None;
        }
        for i in 0..n
            invariant
                n == text@.len(),
                text@ == value@,
                forall|j: int| 0 <= j < i ==> text@[j] != '/',
        {
            if text.get_char(i) == '/' {
                return None;
            }
        }
        Some(RepoPathComponentBuf { value })
    }

    /// The text of this name.
    pub fn as_internal_str(&self) -> (r: &str)
        ensures
            r@ == self@,
            valid_name(r@),
    {
        proof {
            use_type_invariant(self);
        }
        self.value.as_str()
    }

    /// Whether this name comes before `other`.
    pub fn is_before(&self, other: &Self) -> (r: bool)
        ensures
            r == order::name_less(self@, other@),
    {
        order::is_bytes_less(self.value.as_str().as_bytes(), other.value.as_str().as_bytes())
    }
}

/// The path of a file or a directory in a repository, as the names that lead
/// to it from the root directory.
#[derive(Debug, PartialEq, Eq, PartialOrd, Ord, Hash)]
pub struct RepoPathBuf {
    components: Vec<RepoPathComponentBuf>,
}

impl View for RepoPathBuf {
    type V = PathView;

    closed spec fn view(&self) -> PathView {
        self.components.deep_view()
    }
}

impl DeepView for RepoPathBuf {
    type V = PathView;

    open spec fn deep_view(&self) -> PathView {
        self@
    }
}

impl Value for RepoPathBuf {
    fn same(&self, other: &Self) -> (r: bool) {
        self.components.same(&other.components)
    }

    fn dup(&self) -> (r: Self) {
        RepoPathBuf { components: self.components.dup() }
    }
}

impl Clone for RepoPathBuf {
    fn clone(&self) -> (r: Self)
        ensures
            r@ == self@,
    {
        self.dup()
    }
}

impl RepoPathBuf {
    /// The root directory.
    pub fn root() -> (r: Self)
        ensures
            r@ == PathView::empty(),
    {
        let r = RepoPathBuf { components: Vec::new() };
        assert(r@ =~= PathView::empty());
        r
    }

    /// The path with the given names.
    pub fn from_components(components: Vec<RepoPathComponentBuf>) -> (r: Self)
        ensures
            r@ == components.deep_view(),
    {
        RepoPathBuf { components }
    }

    /// The names on the way from the root directory.
    pub fn components(&self) -> (r: &Vec<RepoPathComponentBuf>)
        ensures
            r.deep_view() == self@,
    {
        &self.components
    }

    /// The path of `name` in this directory.
    pub fn join(&self, name: &RepoPathComponentBuf) -> (r: Self)
        ensures
            r@ == self@.push(name@),
    {
        let mut components = self.components.dup();
        let ghost before = components@;
        components.push(name.dup());
        let r = RepoPathBuf { components };
        proof {
            assert forall|i: int| 0 <= i < self@.len() implies r@[i] == self@[i] by {
                assert(r.components@[i] == before[i]);
            }
            assert(r@ =~= self@.push(name@));
        }
        r
    }

    /// The directory and the name of this path, unless it is the root.
    pub fn split(&self) -> (r: Option<(RepoPathBuf, RepoPathComponentBuf)>)
        ensures
            match r {
                Some((dir, name)) => {
                    &&& self@.len() > 0
                    &&& dir@ == self@.drop_last()
                    &&& name@ == self@.last()
                },
                None => self@.len() == 0,
            },
    {
        let mut components = self.components.dup();
        let ghost before = components@;
        assert(components.deep_view().len() == before.len());
        match components.pop() {
            Some(name) => {
                let dir = RepoPathBuf { components };
                proof {
                    assert(self@.last() == before.last().deep_view());
                    assert forall|i: int| 0 <= i < dir@.len() implies dir@[i] == self@[i] by {
                        assert(dir.components@[i] == before[i]);
                    }
                    assert(dir@ =~= self@.drop_last());
                }
                Some((dir, name))
            },
            None => None,
        }
    }

    /// The directory that holds this path, unless it is the root.
    pub fn parent(&self) -> (r: Option<RepoPathBuf>)
        ensures
            match r {
                Some(dir) => self@.len() > 0 && dir@ == self@.drop_last(),
                None => self@.len() == 0,
            },
    {
        match self.split() {
            Some((dir, _)) => Some(dir),
            None => None,
        }
    }

    /// Whether this path is `base` or lies below it.
    pub fn starts_with(&self, base: &RepoPathBuf) -> (r: bool)
        ensures
            r == path_starts_with(self@, base@),
    {
        let n = base.components.len();
        if n > self.components.len() {
            return false;
        }
        for i in 0..n
            invariant
                n == base.components.len(),
                n <= self.components.len(),
                forall|j: int| 0 <= j < i ==> self@[j] == base@[j],
        {
            if !self.components[i].same(&base.components[i]) {
                assert(self@.take(base@.len() as int)[i as int] != base@[i as int]);
                return false;
            }
        }
        assert(self@.take(base@.len() as int) =~= base@);
        true
    }

    /// Whether this path comes before `other`.
    pub fn is_before(&self, other: &RepoPathBuf) -> (r: bool)
        ensures
            r == order::path_less(self@, other@),
    {
        let mut i: usize = 0;
        proof {
            assert(self@.skip(0) =~= self@);
            assert(other@.skip(0) =~= other@);
        }
        while i < self.components.len() && i < other.components.len()
            invariant
                i <= self.components.len(),
                i <= other.components.len(),
                order::path_less(self@, other@) == order::path_less(self@.skip(i as int), other@.skip(i as int)),
            decreases self.components.len() - i,
        {
            proof {
                assert(self@.skip(i as int).drop_first() =~= self@.skip(i + 1));
                assert(other@.skip(i as int).drop_first() =~= other@.skip(i + 1));
                assert(self@.skip(i as int)[0] == self.components@[i as int]@);
                assert(other@.skip(i as int)[0] == other.components@[i as int]@);
            }
            if !self.components[i].same(&other.components[i]) {
                return self.components[i].is_before(&other.components[i]);
            }
            i = i + 1;
        }
        i < other.components.len()
    }

    /// The text of this path, with slashes between the names.
    pub fn as_internal_file_string(&self) -> (r: String)
        ensures
            r@ == path_text(self@),
    {
        let mut r = String::new();
        let n = self.components.len();
        for i in 0..n
            invariant
                n == self.components.len(),
                r@ == path_text(self@.take(i as int)),
        {
            if i > 0 {
                r.append("/");
            }
            r.append(self.components[i].as_internal_str());
            proof {
                let next = self@.take(i + 1);
                assert(next.drop_last() =~= self@.take(i as int));
                assert(next.last() == self.components@[i as int]@);
                if i == 0 {
                    assert(r@ =~= next[0]);
                }
            }
        }
        assert(self@.take(n as int) =~= self@);
        r
    }
}

/// A path is what lies below it, or comes before that.
pub proof fn lemma_prefix_before(base: PathView, path: PathView)
    requires
        path_starts_with(path, base),
    ensures
        base == path || order::path_less(base, path),
    decreases base.len(),
{
    if base.len() == 0 {
        if path.len() == 0 {
            assert(base =~= path);
        }
    } else {
        assert(path[0] == path.take(base.len() as int)[0]);
        let b = base.drop_first();
        let p = path.drop_first();
        assert(p.take(b.len() as int) =~= path.take(base.len() as int).drop_first());
        lemma_prefix_before(b, p);
        if b == p {
            assert(base =~= seq![base[0]] + b);
            assert(path =~= seq![path[0]] + p);
        }
    }
}

/// What lies below a path comes before all that comes after the path and does
/// not lie below it.
pub proof fn lemma_below_before(base: PathView, path: PathView, other: PathView)
    requires
        path_starts_with(path, base),
        order::path_less(base, other),
        !path_starts_with(other, base),
    ensures
        order::path_less(path, other),
    decreases base.len(),
{
    if base.len() == 0 {
        assert(other.take(0) =~= base);
    } else {
        assert(path[0] == path.take(base.len() as int)[0]);
        if base[0] == other[0] {
            let b = base.drop_first();
            let p = path.drop_first();
            let o = other.drop_first();
            assert(p.take(b.len() as int) =~= path.take(base.len() as int).drop_first());
            if path_starts_with(o, b) {
                assert(other.take(base.len() as int) =~= base) by {
                    assert forall|i: int| 0 <= i < base.len() implies other.take(
                        base.len() as int,
                    )[i] == base[i] by {
                        if i > 0 {
                            assert(b[i - 1] == o.take(b.len() as int)[i - 1]);
                        }
                    }
                }
            }
            lemma_below_before(b, p, o);
        }
    }
}

/// Of two paths that a path lies below, one lies below the other.
pub proof fn lemma_bases_nested(path: PathView, a: PathView, b: PathView)
    requires
        path_starts_with(path, a),
        path_starts_with(path, b),
    ensures
        path_starts_with(a, b) || path_starts_with(b, a),
{
    if a.len() <= b.len() {
        assert(b.take(a.len() as int) =~= path.take(a.len() as int));
    } else {
        assert(a.take(b.len() as int) =~= path.take(b.len() as int));
    }
}

/// Paths in the same directory are ordered by their names.
pub proof fn lemma_siblings_order(dir: PathView, a: NameView, b: NameView)
    ensures
        order::path_less(dir.push(a), dir.push(b)) == order::name_less(a, b),
{
    assert(dir.push(a) =~= dir + seq![a]);
    assert(dir.push(b) =~= dir + seq![b]);
    order::lemma_path_less_prefix(dir, seq![a], seq![b]);
    let less = order::name_order();
    order::lemma_names(a, b, a);
    assert(seq![a].drop_first() =~= PathView::empty());
    assert(seq![b].drop_first() =~= PathView::empty());
    assert(order::path_less(seq![a], seq![b]) == (if a != b {
        less(a, b)
    } else {
        order::path_less(PathView::empty(), PathView::empty())
    }));
}

/// A path lies below itself, and below what the path that it lies below does.
pub proof fn lemma_starts_with_trans(a: PathView, b: PathView, c: PathView)
    requires
        path_starts_with(a, b),
        path_starts_with(b, c),
    ensures
        path_starts_with(a, c),
        path_starts_with(a, a),
{
    assert(a.take(c.len() as int) =~= b.take(c.len() as int));
    assert(a.take(a.len() as int) =~= a);
}

} // verus!
