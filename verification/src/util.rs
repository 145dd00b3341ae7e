//! A generic helper that strips a repeated sentinel value from the tail of a
//! vector. The polynomial type funnels every constructor through it to keep
//! coefficient sequences free of trailing zeros.

use vstd::prelude::*;
use vstd::std_specs::cmp::PartialEqSpec;

verus! {

/// Removes every trailing element of `v` that equals `x`. What remains is
/// the longest prefix of the input that does not end in the sentinel.
pub fn remove_trailing_elements<T: Eq>(v: &mut Vec<T>, x: T)
    ensures
        final(v)@.len() <= old(v)@.len(),
        final(v)@ == old(v)@.subrange(0, final(v)@.len() as int),
        T::obeys_eq_spec() ==> {
            &&& final(v)@.len() == 0 || !final(v)@[final(v)@.len() - 1].eq_spec(&x)
            &&& forall|i: int|
                final(v)@.len() <= i < old(v)@.len() ==> old(v)@[i].eq_spec(&x)
        },
{
    let ghost orig = v@;
    proof {
        assert(v@ =~= orig.subrange(0, v@.len() as int));
    }
    loop
        invariant
            v@.len() <= orig.len(),
            v@ == orig.subrange(0, v@.len() as int),
            T::obeys_eq_spec() ==> forall|i: int|
                v@.len() <= i < orig.len() ==> orig[i].eq_spec(&x),
        ensures
            v@ == orig.subrange(0, v@.len() as int),
            T::obeys_eq_spec() ==> {
                &&& v@.len() == 0 || !v@[v@.len() - 1].eq_spec(&x)
                &&& forall|i: int| v@.len() <= i < orig.len() ==> orig[i].eq_spec(&x)
            },
        decreases v@.len(),
    {
        if v.len() == 0 {
            break;
        }
        let keep_going = v[v.len() - 1] == x;
        if !keep_going {
            break;
        }
        let ghost pre = v@;
        v.pop();
        proof {
            assert(v@ == pre.subrange(0, pre.len() - 1));
            assert(v@ =~= orig.subrange(0, v@.len() as int));
        }
    }
}

} // verus!
