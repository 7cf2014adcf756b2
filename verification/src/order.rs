//! Putting values in order.

use vstd::prelude::*;
use vstd::seq_lib::*;

use crate::arith::Arithmetic;

verus! {

/// `M` compares by `less`.
pub open spec fn compares_by<M: Arithmetic>(less: spec_fn(M::Real, M::Real) -> bool) -> bool {
    forall|x: M::Real, y: M::Real, r: bool|
        #[trigger] call_ensures(M::exceeds, (x, y), r) ==> r == less(y, x)
}

/// Nothing is less than itself, and what is less than a lesser value is less. Floating-point
/// comparison is such an order, whatever it makes of values that are not numbers.
pub open spec fn strict_order<R>(less: spec_fn(R, R) -> bool) -> bool {
    &&& forall|x: R| !#[trigger] less(x, x)
    &&& forall|x: R, y: R, z: R| #[trigger] less(x, y) && #[trigger] less(y, z) ==> less(x, z)
}

/// Among `values`, no two are less than each other, and not being less carries over.
pub open spec fn ranks<R>(less: spec_fn(R, R) -> bool, values: Seq<R>) -> bool {
    &&& forall|i: int, j: int|
        0 <= i < values.len() && 0 <= j < values.len() && #[trigger] less(values[i], values[j])
            ==> !less(values[j], values[i])
    &&& forall|i: int, j: int, k: int|
        #![trigger less(values[j], values[i]), less(values[k], values[j])]
        0 <= i < values.len() && 0 <= j < values.len() && 0 <= k < values.len() && !less(
            values[j],
            values[i],
        ) && !less(values[k], values[j]) ==> !less(values[k], values[i])
}

/// A comparison tells that `x` may stand before `y`.
pub open spec fn in_order<M: Arithmetic>(x: M::Real, y: M::Real) -> bool {
    ||| call_ensures(M::exceeds, (x, y), false)
    ||| call_ensures(M::exceeds, (y, x), true)
}

/// Neighbours in `s` stand in order.
pub open spec fn ascending<M: Arithmetic>(s: Seq<M::Real>) -> bool {
    forall|i: int, j: int|
        #![trigger s[i], s[j]]
        0 <= i && j == i + 1 && j < s.len() ==> in_order::<M>(s[i], s[j])
}

/// `out` holds the values of `s`, in order.
pub open spec fn sorted_from<M: Arithmetic>(s: Seq<M::Real>, out: Seq<M::Real>) -> bool {
    &&& ascending::<M>(out)
    &&& out.to_multiset() == s.to_multiset()
}

/// Merges two sequences in order into one.
fn merge<M: Arithmetic>(a: &Vec<M::Real>, b: &Vec<M::Real>) -> (out: Vec<M::Real>)
    requires
        ascending::<M>(a@),
        ascending::<M>(b@),
        a@.len() + b@.len() <= usize::MAX,
    ensures
        ascending::<M>(out@),
        out@.to_multiset() == a@.to_multiset().add(b@.to_multiset()),
{
    let mut out: Vec<M::Real> = Vec::with_capacity(a.len() + b.len());
    let mut i: usize = 0;
    let mut j: usize = 0;
    assert(a@.subrange(0, 0) =~= Seq::empty() && b@.subrange(0, 0) =~= Seq::empty());
    proof {
        out@.to_multiset_ensures();
    }
    assert(out@.to_multiset() =~= a@.subrange(0, 0).to_multiset().add(
        b@.subrange(0, 0).to_multiset(),
    ));
    while i < a.len() || j < b.len()
        invariant
            i <= a@.len(),
            j <= b@.len(),
            ascending::<M>(a@),
            ascending::<M>(b@),
            ascending::<M>(out@),
            out@.to_multiset() == a@.subrange(0, i as int).to_multiset().add(
                b@.subrange(0, j as int).to_multiset(),
            ),
            out@.len() > 0 && i < a@.len() ==> in_order::<M>(out@.last(), a@[i as int]),
            out@.len() > 0 && j < b@.len() ==> in_order::<M>(out@.last(), b@[j as int]),
        decreases a@.len() - i + b@.len() - j,
    {
        let ghost before = out@;
        let ghost was = (i, j);
        let from_b = if i >= a.len() {
            true
        } else if j >= b.len() {
            false
        } else {
            M::exceeds(a[i], b[j])
        };
        if from_b {
            let x = b[j];
            out.push(x);
            assert(b@.subrange(0, j + 1) =~= b@.subrange(0, j as int).push(x));
            j = j + 1;
        } else {
            let x = a[i];
            out.push(x);
            assert(a@.subrange(0, i + 1) =~= a@.subrange(0, i as int).push(x));
            i = i + 1;
        }
        proof {
            assert(out@ == before.push(out@.last()));
            before.to_multiset_ensures();
            a@.subrange(0, was.0 as int).to_multiset_ensures();
            b@.subrange(0, was.1 as int).to_multiset_ensures();
            assert forall|p: int, q: int|
                #![trigger out@[p], out@[q]]
                0 <= p && q == p + 1 && q < out@.len() implies in_order::<M>(out@[p], out@[q]) by {
                if q < before.len() {
                    assert(before[p] == out@[p] && before[q] == out@[q]);
                } else {
                    assert(before.last() == out@[p]);
                }
            }
            assert(out@.to_multiset() =~= a@.subrange(0, i as int).to_multiset().add(
                b@.subrange(0, j as int).to_multiset(),
            ));
        }
    }
    assert(a@.subrange(0, i as int) =~= a@ && b@.subrange(0, j as int) =~= b@);
    out
}

/// The values of `s`, in order.
pub fn sort<M: Arithmetic>(s: &[M::Real]) -> (out: Vec<M::Real>)
    ensures
        sorted_from::<M>(s@, out@),
        out@.len() == s@.len(),
    decreases s@.len(),
{
    let n: usize = s.len();
    if n < 2 {
        let out = vstd::slice::slice_to_vec(s);
        assert(out@ =~= s@);
        return out;
    }
    let half: usize = n / 2;
    let left = vstd::slice::slice_subrange(s, 0, half);
    let right = vstd::slice::slice_subrange(s, half, n);
    let out = merge::<M>(&sort::<M>(left), &sort::<M>(right));
    proof {
        assert(s@ =~= left@ + right@);
        lemma_multiset_commutative(left@, right@);
        s@.to_multiset_ensures();
        out@.to_multiset_ensures();
    }
    out
}

/// In what comes out of sorting no value is less than one before it, in every number system that
/// compares by an order which ranks the values.
pub proof fn law_sorted_values_rise<M: Arithmetic>(
    less: spec_fn(M::Real, M::Real) -> bool,
    out: Seq<M::Real>,
    i: int,
    j: int,
)
    requires
        compares_by::<M>(less),
        ranks(less, out),
        ascending::<M>(out),
        0 <= i < j < out.len(),
    ensures
        !less(out[j], out[i]),
    decreases j - i,
{
    assert(in_order::<M>(out[j - 1], out[j]));
    assert(!less(out[j], out[j - 1]));
    if i < j - 1 {
        law_sorted_values_rise::<M>(less, out, i, j - 1);
    }
}

} // verus!
