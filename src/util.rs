use vstd::prelude::*;

verus! {

/// The elements of `v` in reverse order.
pub fn reversed<T>(v: Vec<T>) -> (r: Vec<T>)
    ensures
        r@ == v@.reverse(),
{
    let mut v = v;
    let ghost all = v@;
    let ghost n = all.len();
    let mut r: Vec<T> = Vec::new();
    while v.len() > 0
        invariant
            n == all.len(),
            v@ == all.take(v@.len() as int),
            v@.len() + r@.len() == n,
            forall|j: int| 0 <= j < r@.len() ==> #[trigger] r@[j] == all[n - 1 - j],
        decreases v@.len(),
    {
        match v.pop() {
            Some(x) => {
                r.push(x);
            },
            None => {},
        }
        assert(v@ =~= all.take(v@.len() as int));
    }
    assert(r@ =~= all.reverse());
    r
}

/// Whether `x` occurs in `v`.
pub fn contains_id(v: &Vec<u64>, x: u64) -> (r: bool)
    ensures
        r == v@.contains(x),
{
    let mut i: usize = 0;
    while i < v.len()
        invariant
            i <= v@.len(),
            forall|j: int| 0 <= j < i ==> v@[j] != x,
        decreases v@.len() - i,
    {
        if v[i] == x {
            return true;
        }
        i = i + 1;
    }
    false
}

} // verus!
