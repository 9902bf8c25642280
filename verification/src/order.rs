//! The order of byte strings, of names and of paths.

use vstd::prelude::*;
use vstd::utf8::*;

verus! {

/// Whether `less` is irreflexive, transitive and total.
pub open spec fn strict_total_order<A>(less: spec_fn(A, A) -> bool) -> bool {
    &&& forall|x: A| !#[trigger] less(x, x)
    &&& forall|x: A, y: A, z: A| #[trigger] less(x, y) && #[trigger] less(y, z) ==> less(x, z)
    &&& forall|x: A, y: A| #[trigger] less(x, y) || x == y || less(y, x)
}

/// The lexicographic order of sequences whose elements are ordered by `less`.
pub open spec fn lex_less<A>(less: spec_fn(A, A) -> bool, a: Seq<A>, b: Seq<A>) -> bool
    decreases a.len(),
{
    if b.len() == 0 {
        false
    } else if a.len() == 0 {
        true
    } else if a[0] != b[0] {
        less(a[0], b[0])
    } else {
        lex_less(less, a.drop_first(), b.drop_first())
    }
}

/// The order of bytes.
pub open spec fn byte_order() -> spec_fn(u8, u8) -> bool {
    |x: u8, y: u8| x < y
}

/// Whether the byte string `a` comes before `b`.
pub open spec fn bytes_less(a: Seq<u8>, b: Seq<u8>) -> bool {
    lex_less(byte_order(), a, b)
}

/// Whether the text `a` comes before `b`, by the bytes that encode the two.
pub open spec fn name_less(a: Seq<char>, b: Seq<char>) -> bool {
    bytes_less(encode_utf8(a), encode_utf8(b))
}

/// The order of names.
pub open spec fn name_order() -> spec_fn(Seq<char>, Seq<char>) -> bool {
    |x: Seq<char>, y: Seq<char>| name_less(x, y)
}

/// Whether the path `a` comes before `b`: the names are compared one by one,
/// and a directory comes before what it holds.
pub open spec fn path_less(a: Seq<Seq<char>>, b: Seq<Seq<char>>) -> bool {
    lex_less(name_order(), a, b)
}

/// The order of paths.
pub open spec fn path_order() -> spec_fn(Seq<Seq<char>>, Seq<Seq<char>>) -> bool {
    |x: Seq<Seq<char>>, y: Seq<Seq<char>>| path_less(x, y)
}

proof fn lemma_lex_irreflexive<A>(less: spec_fn(A, A) -> bool, a: Seq<A>)
    ensures
        !lex_less(less, a, a),
    decreases a.len(),
{
    if a.len() > 0 {
        lemma_lex_irreflexive(less, a.drop_first());
    }
}

proof fn lemma_lex_transitive<A>(less: spec_fn(A, A) -> bool, a: Seq<A>, b: Seq<A>, c: Seq<A>)
    requires
        strict_total_order(less),
        lex_less(less, a, b),
        lex_less(less, b, c),
    ensures
        lex_less(less, a, c),
    decreases a.len(),
{
    if a.len() > 0 {
        if a[0] == b[0] && b[0] == c[0] {
            lemma_lex_transitive(less, a.drop_first(), b.drop_first(), c.drop_first());
        } else if a[0] != b[0] && b[0] != c[0] {
            assert(less(a[0], b[0]) && less(b[0], c[0]));
            assert(a[0] != c[0]);
        }
    }
}

proof fn lemma_lex_total<A>(less: spec_fn(A, A) -> bool, a: Seq<A>, b: Seq<A>)
    requires
        strict_total_order(less),
    ensures
        lex_less(less, a, b) || a == b || lex_less(less, b, a),
    decreases a.len(),
{
    if a.len() == 0 || b.len() == 0 {
        if a.len() == 0 && b.len() == 0 {
            assert(a =~= b);
        }
    } else if a[0] == b[0] {
        lemma_lex_total(less, a.drop_first(), b.drop_first());
        if a.drop_first() == b.drop_first() {
            assert(a =~= seq![a[0]] + a.drop_first());
            assert(b =~= seq![b[0]] + b.drop_first());
        }
    } else {
        assert(less(a[0], b[0]) || less(b[0], a[0]));
    }
}

/// Byte strings are totally ordered.
pub proof fn lemma_bytes_order(a: Seq<u8>, b: Seq<u8>, c: Seq<u8>)
    ensures
        !bytes_less(a, a),
        bytes_less(a, b) && bytes_less(b, c) ==> bytes_less(a, c),
        bytes_less(a, b) || a == b || bytes_less(b, a),
{
    assert(strict_total_order(byte_order()));
    lemma_lex_irreflexive(byte_order(), a);
    if bytes_less(a, b) && bytes_less(b, c) {
        lemma_lex_transitive(byte_order(), a, b, c);
    }
    lemma_lex_total(byte_order(), a, b);
}

/// Names are totally ordered.
pub proof fn lemma_name_order()
    ensures
        strict_total_order(name_order()),
{
    let less = name_order();
    assert forall|x: Seq<char>| !#[trigger] less(x, x) by {
        let e = encode_utf8(x);
        lemma_bytes_order(e, e, e);
    }
    assert forall|x: Seq<char>, y: Seq<char>, z: Seq<char>| #[trigger]
        less(x, y) && #[trigger] less(y, z) implies less(x, z) by {
        lemma_bytes_order(encode_utf8(x), encode_utf8(y), encode_utf8(z));
    }
    assert forall|x: Seq<char>, y: Seq<char>| #[trigger] less(x, y) || x == y || less(y, x) by {
        lemma_bytes_order(encode_utf8(x), encode_utf8(y), encode_utf8(y));
        encode_utf8_decode_utf8(x);
        encode_utf8_decode_utf8(y);
    }
}

/// Names are totally ordered, for three given names.
pub proof fn lemma_names(a: Seq<char>, b: Seq<char>, c: Seq<char>)
    ensures
        !name_less(a, a),
        name_less(a, b) && name_less(b, c) ==> name_less(a, c),
        name_less(a, b) || a == b || name_less(b, a),
        name_less(a, b) ==> !name_less(b, a),
{
    lemma_name_order();
    let less = name_order();
    assert(less(a, b) == name_less(a, b));
    assert(less(b, a) == name_less(b, a));
    assert(less(b, c) == name_less(b, c));
    assert(less(a, c) == name_less(a, c));
    assert(less(a, a) == name_less(a, a));
}

/// Paths are totally ordered, for three given paths.
pub proof fn lemma_paths(a: Seq<Seq<char>>, b: Seq<Seq<char>>, c: Seq<Seq<char>>)
    ensures
        !path_less(a, a),
        path_less(a, b) && path_less(b, c) ==> path_less(a, c),
        path_less(a, b) || a == b || path_less(b, a),
        path_less(a, b) ==> !path_less(b, a),
{
    lemma_name_order();
    let less = name_order();
    lemma_lex_irreflexive(less, a);
    if path_less(a, b) && path_less(b, c) {
        lemma_lex_transitive(less, a, b, c);
    }
    if path_less(a, b) && path_less(b, a) {
        lemma_lex_transitive(less, a, b, a);
    }
    lemma_lex_total(less, a, b);
}

/// Paths are totally ordered.
pub proof fn lemma_path_order()
    ensures
        strict_total_order(path_order()),
{
    let less = path_order();
    assert forall|x: Seq<Seq<char>>| !#[trigger] less(x, x) by {
        lemma_paths(x, x, x);
    }
    assert forall|x: Seq<Seq<char>>, y: Seq<Seq<char>>, z: Seq<Seq<char>>| #[trigger]
        less(x, y) && #[trigger] less(y, z) implies less(x, z) by {
        lemma_paths(x, y, z);
    }
    assert forall|x: Seq<Seq<char>>, y: Seq<Seq<char>>| #[trigger]
        less(x, y) || x == y || less(y, x) by {
        lemma_paths(x, y, x);
    }
}

/// A common prefix does not matter to the order.
pub proof fn lemma_path_less_prefix(
    prefix: Seq<Seq<char>>,
    a: Seq<Seq<char>>,
    b: Seq<Seq<char>>,
)
    ensures
        path_less(prefix + a, prefix + b) == path_less(a, b),
    decreases prefix.len(),
{
    if prefix.len() == 0 {
        assert(prefix + a =~= a);
        assert(prefix + b =~= b);
    } else {
        let rest = prefix.drop_first();
        assert((prefix + a).drop_first() =~= rest + a);
        assert((prefix + b).drop_first() =~= rest + b);
        lemma_path_less_prefix(rest, a, b);
    }
}

/// Whether the byte string `a` comes before `b`.
pub fn is_bytes_less(a: &[u8], b: &[u8]) -> (r: bool)
    ensures
        r == bytes_less(a@, b@),
{
    let mut i: usize = 0;
    assert(a@.skip(0) =~= a@);
    assert(b@.skip(0) =~= b@);
    while i < a.len() && i < b.len()
        invariant
            i <= a.len(),
            i <= b.len(),
            bytes_less(a@, b@) == bytes_less(a@.skip(i as int), b@.skip(i as int)),
        decreases a.len() - i,
    {
        proof {
            assert(a@.skip(i as int).drop_first() =~= a@.skip(i + 1));
            assert(b@.skip(i as int).drop_first() =~= b@.skip(i + 1));
            assert(a@.skip(i as int)[0] == a@[i as int]);
            assert(b@.skip(i as int)[0] == b@[i as int]);
        }
        if a[i] != b[i] {
            return a[i] < b[i];
        }
        i = i + 1;
    }
    i < b.len()
}

} // verus!
