//! Taking values off the front of a `Vec` in bulk.

use vstd::prelude::*;

verus! {

/// Removes the first `k` values of `vals` and returns them last-first, so that popping the
/// result hands them out in the order they had.
pub fn take_front_reversed<T>(vals: &mut Vec<T>, k: usize) -> (r: Vec<T>)
    requires
        k <= old(vals)@.len(),
    ensures
        r@.len() == k,
        forall|i: int| 0 <= i < k ==> #[trigger] r@[i] == old(vals)@[k - 1 - i],
        final(vals)@ == old(vals)@.skip(k as int),
{
    let ghost all = vals@;
    let mut front = vals.split_off(k);
    std::mem::swap(vals, &mut front);
    let mut r: Vec<T> = Vec::new();
    while front.len() > 0
        invariant
            k <= all.len(),
            r@.len() + front@.len() == k,
            front@ == all.take(front@.len() as int),
            forall|i: int| 0 <= i < r@.len() ==> #[trigger] r@[i] == all[k - 1 - i],
        decreases front@.len(),
    {
        let v = front.pop().unwrap();
        r.push(v);
        proof {
            assert(front@ =~= all.take(front@.len() as int));
        }
    }
    proof {
        assert(vals@ =~= all.skip(k as int));
    }
    r
}

} // verus!
