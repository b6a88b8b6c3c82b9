//! Generic helpers over vectors.

use vstd::prelude::*;

verus! {

/// How many copies `fill_a_vector` places in its result.
pub const FILL_COUNT: usize = 5;

/// Builds a vector that holds `FILL_COUNT` copies of `param`.
pub fn fill_a_vector<T: Clone + Copy>(param: &T) -> (a_vec: Vec<T>)
    ensures
        a_vec@ == Seq::new(FILL_COUNT as nat, |i: int| *param),
{
    let mut a_vec: Vec<T> = Vec::new();
    let the_param: T = *param;
    let mut n: usize = 0;
    while n < FILL_COUNT
        invariant
            n <= FILL_COUNT,
            the_param == *param,
            a_vec@ == Seq::new(n as nat, |i: int| *param),
        decreases FILL_COUNT - n,
    {
        a_vec.push(the_param);
        n += 1;
        assert(a_vec@ =~= Seq::new(n as nat, |i: int| *param));
    }
    a_vec
}

} // verus!
