//! Keeping the items of a list that pass a test, in order.

use vstd::prelude::*;

verus! {

/// The items for which `keep` answers true given `context`, in their
/// order; `pred` is what `keep` answers.
pub(crate) fn keep_where<T, C, F: Fn(&T, &C) -> bool>(
    items: Vec<T>,
    context: &C,
    keep: F,
    Ghost(pred): Ghost<spec_fn(T) -> bool>,
) -> (kept: Vec<T>)
    requires
        forall|t: &T| #[trigger] keep.requires((t, context)),
        forall|t: &T, b: bool| #[trigger] keep.ensures((t, context), b) ==> b == pred(*t),
    ensures
        kept@ == items@.filter(pred),
{
    let ghost s0 = items@;
    let mut rest = items;
    let mut kept: Vec<T> = Vec::new();
    proof {
        assert(s0.take(0).filter(pred) =~= Seq::<T>::empty()) by {
            reveal(Seq::filter);
        }
        assert(s0.skip(0) =~= s0);
    }
    while rest.len() > 0
        invariant
            rest@.len() <= s0.len(),
            rest@ == s0.skip(s0.len() - rest@.len()),
            kept@ == s0.take(s0.len() - rest@.len()).filter(pred),
            forall|t: &T| #[trigger] keep.requires((t, context)),
            forall|t: &T, b: bool| #[trigger] keep.ensures((t, context), b) ==> b == pred(*t),
        decreases rest@.len(),
    {
        let ghost i = s0.len() - rest@.len();
        let t = rest.remove(0);
        proof {
            assert(t == s0[i]);
            assert(rest@ =~= s0.skip(i + 1));
            assert(s0.take(i + 1) =~= s0.take(i).push(t));
            s0.take(i).lemma_filter_push(t, pred);
        }
        if keep(&t, context) {
            kept.push(t);
        }
    }
    proof {
        assert(s0.take(s0.len() as int) =~= s0);
    }
    kept
}

} // verus!
