//! Properties of the mixed-radix decoding that hold for all dimensions, stated
//! over the specification model alone.

use vstd::prelude::*;

use crate::combo_at;
use crate::enumeration;
use crate::lemma_positive_suffix_positive_dims;
use crate::lemma_suffix_product_positive;
use crate::stride_of;
use crate::sub_index_of;
use crate::suffix_product;
use crate::total_of;
use crate::Combinatory;

verus! {

/// Every index below the total count decodes to a full combination: exactly
/// one element per dimension, each mixed-radix digit in range for its
/// dimension.
pub proof fn lemma_combination_in_dimensions<T>(dims: Seq<Seq<T>>, index: int)
    requires
        0 <= index < total_of(dims),
    ensures
        combo_at(dims, index).len() == dims.len(),
        forall|i: int|
            0 <= i < dims.len() ==> 0 <= #[trigger] sub_index_of(dims, index, i) < dims[i].len(),
        forall|i: int|
            0 <= i < dims.len() ==> #[trigger] combo_at(dims, index)[i] == dims[i][sub_index_of(
                dims,
                index,
                i,
            )],
{
    lemma_positive_suffix_positive_dims(dims, 0);
    assert forall|i: int|
        0 <= i < dims.len() implies 0 <= #[trigger] sub_index_of(dims, index, i)
        < dims[i].len() by {
        lemma_suffix_product_positive(dims, i + 1);
        vstd::arithmetic::div_mod::lemma_mod_division_less_than_divisor(
            index / stride_of(dims, i) as int,
            dims[i].len() as int,
        );
    }
}

/// The enumeration is a function of the dimensions alone, so deriving it twice
/// from the same dimensions gives identical sequences.
pub proof fn lemma_enumeration_repeatable<T>(
    dims: Seq<Seq<T>>,
    first: Seq<Seq<T>>,
    second: Seq<Seq<T>>,
)
    requires
        first == enumeration(dims),
        second == enumeration(dims),
    ensures
        first == second,
{
}

/// With a single dimension, the total count is that dimension's length and
/// the combinations are its elements in source order, each a one-element
/// tuple.
pub proof fn lemma_single_dimension<T>(dims: Seq<Seq<T>>)
    requires
        dims.len() == 1,
    ensures
        total_of(dims) == dims[0].len(),
        forall|k: int|
            0 <= k < dims[0].len() ==> #[trigger] combo_at(dims, k) =~= seq![dims[0][k]],
{
    assert(suffix_product(dims, 1) == 1);
    assert(suffix_product(dims, 1) * dims[0].len() == dims[0].len()) by (nonlinear_arith)
        requires
            suffix_product(dims, 1) == 1,
    ;
    assert forall|k: int| 0 <= k < dims[0].len() implies #[trigger] combo_at(dims, k) =~= seq![
        dims[0][k],
    ] by {
        assert(stride_of(dims, 0) == 1);
        vstd::arithmetic::div_mod::lemma_small_mod(k as nat, dims[0].len() as nat);
        assert(sub_index_of(dims, k, 0) == k);
    }
}

/// One successful pull from either end, as the pull contracts guarantee it:
/// the yielded index was remaining before, and afterwards exactly it has left
/// the remaining set.
pub open spec fn is_pull<T>(pre: Combinatory<T>, post: Combinatory<T>, yielded: int) -> bool {
    &&& pre.remaining().contains(yielded)
    &&& post.remaining() == pre.remaining().remove(yielded)
}

/// Any chain of pulls — forward and backward in any interleaving — yields
/// pairwise distinct indices, each remaining at the start of the chain, and
/// leaves remaining exactly the starting indices that were not yielded.
/// Together with the initial remaining set of a fresh `Combinatory` and
/// `Combinatory::lemma_exhausted_iff_nothing_remaining`, pulling until
/// exhaustion yields every index in `0..total_count` exactly once.
pub proof fn lemma_pull_chain<T>(states: Seq<Combinatory<T>>, yields: Seq<int>)
    requires
        states.len() == yields.len() + 1,
        forall|p: int|
            0 <= p < yields.len() ==> #[trigger] is_pull(states[p], states[p + 1], yields[p]),
    ensures
        forall|p: int, q: int| 0 <= p < q < yields.len() ==> yields[p] != yields[q],
        forall|p: int|
            0 <= p < yields.len() ==> states[0].remaining().contains(#[trigger] yields[p]),
        forall|k: int|
            #[trigger] states[states.len() - 1].remaining().contains(k) <==> (
            states[0].remaining().contains(k) && !yields.contains(k)),
    decreases yields.len(),
{
    if yields.len() > 0 {
        let tail_states = states.drop_first();
        let tail_yields = yields.drop_first();
        assert(is_pull(states[0], states[1], yields[0]));
        assert forall|p: int| 0 <= p < tail_yields.len() implies #[trigger] is_pull(
            tail_states[p],
            tail_states[p + 1],
            tail_yields[p],
        ) by {
            let pp = p + 1;
            assert(0 <= pp < yields.len());
            assert(is_pull(states[pp], states[pp + 1], yields[pp]));
            assert(tail_states[p] == states[pp]);
            assert(tail_states[p + 1] == states[pp + 1]);
        }
        lemma_pull_chain(tail_states, tail_yields);
        assert forall|k: int| #[trigger] yields.contains(k) <==> (k == yields[0]
            || tail_yields.contains(k)) by {
            if yields.contains(k) {
                let w = choose|w: int| 0 <= w < yields.len() && yields[w] == k;
                if w > 0 {
                    assert(tail_yields[w - 1] == k);
                    assert(tail_yields.contains(k));
                }
            }
            if tail_yields.contains(k) {
                let w = choose|w: int| 0 <= w < tail_yields.len() && tail_yields[w] == k;
                assert(yields[w + 1] == k);
                assert(yields.contains(k));
            }
        }
        assert(tail_states[0] == states[1]);
        assert(tail_states[tail_states.len() - 1] == states[states.len() - 1]);
        assert forall|p: int| 0 <= p < yields.len() implies states[0].remaining().contains(
            #[trigger] yields[p],
        ) by {
            if p > 0 {
                assert(tail_yields[p - 1] == yields[p]);
                assert(states[1].remaining().contains(yields[p]));
            }
        }
        assert forall|p: int, q: int| 0 <= p < q < yields.len() implies yields[p]
            != yields[q] by {
            if p == 0 {
                assert(tail_yields[q - 1] == yields[q]);
                assert(states[1].remaining().contains(yields[q]));
            } else {
                assert(tail_yields[p - 1] == yields[p]);
                assert(tail_yields[q - 1] == yields[q]);
            }
        }
    }
}

/// Before any pull, every index in `0..total_count` is still to be yielded:
/// finitely many, exactly the total count of them. Together with the pull
/// contracts, which each remove exactly one remaining index, all pulls over
/// both ends together yield every combination exactly once.
pub proof fn lemma_remaining_initial_count<T>(c: &Combinatory<T>)
    requires
        c.remaining() == vstd::set_lib::set_int_range(0, c.total_spec() as int),
    ensures
        c.remaining().finite(),
        c.remaining().len() == c.total_spec(),
{
    vstd::set_lib::lemma_int_range(0, c.total_spec() as int);
}

} // verus!
