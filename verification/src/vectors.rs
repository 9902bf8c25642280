//! Operations on vectors.

use vstd::prelude::*;

verus! {

/// The items in the opposite order.
pub fn reversed<T>(items: Vec<T>) -> (r: Vec<T>)
    ensures
        r@ == items@.reverse(),
{
    let ghost all = items@;
    let mut rest = items;
    let mut r: Vec<T> = Vec::new();
    let n = rest.len();
    for i in 0..n
        invariant
            n == all.len(),
            rest@ == all.take(n - i),
            r@ == all.reverse().take(i as int),
    {
        let ghost before = rest@;
        let item = rest.pop();
        assert(before.len() > 0);
        assert(before.drop_last() =~= all.take(n - i - 1));
        if let Some(item) = item {
            r.push(item);
            assert(r@ =~= all.reverse().take(i + 1));
        }
    }
    assert(all.reverse().take(n as int) =~= all.reverse());
    r
}

} // verus!
