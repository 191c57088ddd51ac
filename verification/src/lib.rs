//! Indexed Cartesian products ("combinations") of N ordered dimensions.
//!
//! A [`Combinatory`] owns N dimensions, each an ordered sequence of values of
//! one element type. It gives random access to any of the `L1 * ... * LN`
//! combinations by mixed-radix decoding of a flat index, a full enumeration by
//! reference, and a pair of cursors that step through the index space from
//! both ends and meet in the middle.

use vstd::prelude::*;

pub mod laws;

verus! {

/// Product of the lengths of the dimensions `dims[i..]`; `1` for the empty
/// suffix. `suffix_product(dims, 0)` is the total number of combinations.
pub open spec fn suffix_product<T>(dims: Seq<Seq<T>>, i: int) -> nat
    decreases dims.len() - i,
{
    if i < 0 || i >= dims.len() {
        1
    } else {
        suffix_product(dims, i + 1) * dims[i].len()
    }
}

/// Total number of combinations: the product of all dimension lengths.
pub open spec fn total_of<T>(dims: Seq<Seq<T>>) -> nat {
    suffix_product(dims, 0)
}

/// Mixed-radix place value of dimension `i`: the product of the lengths of all
/// dimensions strictly to its right. The last dimension has stride `1`, so it
/// varies fastest.
pub open spec fn stride_of<T>(dims: Seq<Seq<T>>, i: int) -> nat {
    suffix_product(dims, i + 1)
}

/// The element of dimension `i` that the flat `index` selects: digit `i` of
/// `index` written in mixed radix, most significant dimension first.
pub open spec fn sub_index_of<T>(dims: Seq<Seq<T>>, index: int, i: int) -> int
    recommends
        0 <= i < dims.len(),
        dims[i].len() > 0,
{
    (index / stride_of(dims, i) as int) % dims[i].len() as int
}

/// The combination addressed by `index`: one element of each dimension.
pub open spec fn combo_at<T>(dims: Seq<Seq<T>>, index: int) -> Seq<T> {
    Seq::new(dims.len(), |i: int| dims[i][sub_index_of(dims, index, i)])
}

/// All combinations in index order `0..total_of(dims)`.
pub open spec fn enumeration<T>(dims: Seq<Seq<T>>) -> Seq<Seq<T>> {
    Seq::new(total_of(dims), |k: int| combo_at(dims, k))
}

/// The dimensions held in a vector of vectors, as a sequence of sequences.
pub open spec fn views_of<T>(values: Seq<Vec<T>>) -> Seq<Seq<T>> {
    Seq::new(values.len(), |i: int| values[i]@)
}

/// The values behind a sequence of borrowed elements.
pub open spec fn deref_seq<T>(c: Seq<&T>) -> Seq<T> {
    Seq::new(c.len(), |i: int| *c[i])
}

/// The values behind a sequence of rows of borrowed elements.
pub open spec fn deref_rows<T>(rows: Seq<Vec<&T>>) -> Seq<Seq<T>> {
    Seq::new(rows.len(), |k: int| deref_seq(rows[k]@))
}

/// `c` holds exactly the elements that `index` selects, one per dimension.
pub open spec fn is_combination_of<T>(c: Seq<&T>, dims: Seq<Seq<T>>, index: int) -> bool {
    &&& c.len() == dims.len()
    &&& forall|i: int|
        0 <= i < dims.len() ==> c[i] == dims[i][sub_index_of(dims, index, i)]
}

/// A positive total count forces every dimension at or after `i` to be
/// non-empty.
pub proof fn lemma_positive_suffix_positive_dims<T>(dims: Seq<Seq<T>>, i: int)
    requires
        0 <= i <= dims.len(),
        suffix_product(dims, i) > 0,
    ensures
        forall|j: int| i <= j < dims.len() ==> #[trigger] dims[j].len() > 0,
    decreases dims.len() - i,
{
    if i < dims.len() {
        assert(suffix_product(dims, i + 1) > 0 && dims[i].len() > 0) by (nonlinear_arith)
            requires
                suffix_product(dims, i) == suffix_product(dims, i + 1) * dims[i].len(),
                suffix_product(dims, i) > 0,
        ;
        lemma_positive_suffix_positive_dims(dims, i + 1);
    }
}

/// The product of non-empty dimensions is positive.
pub proof fn lemma_suffix_product_positive<T>(dims: Seq<Seq<T>>, i: int)
    requires
        0 <= i <= dims.len(),
        forall|j: int| i <= j < dims.len() ==> #[trigger] dims[j].len() > 0,
    ensures
        suffix_product(dims, i) > 0,
    decreases dims.len() - i,
{
    if i < dims.len() {
        lemma_suffix_product_positive(dims, i + 1);
        assert(suffix_product(dims, i) > 0) by (nonlinear_arith)
            requires
                suffix_product(dims, i) == suffix_product(dims, i + 1) * dims[i].len(),
                suffix_product(dims, i + 1) > 0,
                dims[i].len() > 0,
        ;
    }
}

/// Combines the values of N ordered dimensions: every way of drawing exactly
/// one element from each dimension, addressed by a flat index in
/// `0..total_count`.
///
/// For example, the combinations of `[1, 2]` with `[a, b]` are `(1,a)`,
/// `(1,b)`, `(2,a)`, `(2,b)`: the rightmost dimension varies fastest.
///
/// Two stride tables are kept. The second is the first scaled by the total
/// count, and the direction flag that would select it is set to the forward
/// table by both direction setters, so decoding always uses the forward
/// table; see [`Combinatory::backward_direction`].
#[derive(Debug)]
pub struct Combinatory<T> {
    values: Vec<Vec<T>>,
    current_combination_forwards: usize,
    current_combination_backwards: usize,
    forward_modules: Vec<usize>,
    backward_modules: Vec<usize>,
    direction_is_forward: bool,
    combinations_len: usize,
}

impl<T> Combinatory<T> {
    /// The dimensions, as a sequence of sequences of elements.
    pub closed spec fn dims(&self) -> Seq<Seq<T>> {
        views_of(self.values@)
    }

    /// Total number of combinations.
    pub open spec fn total_spec(&self) -> nat {
        total_of(self.dims())
    }

    /// Index the next forward pull returns.
    pub closed spec fn forward_cursor(&self) -> nat {
        self.current_combination_forwards as nat
    }

    /// Index the next backward pull returns.
    pub closed spec fn backward_cursor(&self) -> nat {
        self.current_combination_backwards as nat
    }

    /// Indices not yet yielded by the two cursors: the valid indices between
    /// the cursors, both ends included.
    pub open spec fn remaining(&self) -> Set<int> {
        Set::new(
            |k: int|
                self.forward_cursor() <= k <= self.backward_cursor() && 0 <= k
                    < self.total_spec(),
        )
    }

    /// Both cursors report exhaustion: they have crossed, or there was nothing
    /// to yield at all.
    pub open spec fn exhausted(&self) -> bool {
        self.backward_cursor() < self.forward_cursor() || self.total_spec() == 0
    }

    /// Well-formedness: the stride tables match the dimensions, the count is
    /// their product, and the cursors lie in the index space.
    pub closed spec fn wf(&self) -> bool {
        let dims = self.dims();
        &&& dims.len() >= 1
        &&& self.combinations_len == total_of(dims)
        &&& self.forward_modules@.len() == dims.len()
        &&& self.backward_modules@.len() == dims.len()
        &&& forall|i: int|
            0 <= i < dims.len() ==> self.forward_modules@[i] == stride_of(dims, i)
        &&& forall|i: int|
            0 <= i < dims.len() ==> self.backward_modules@[i] == total_of(dims) * stride_of(
                dims,
                i,
            )
        &&& self.direction_is_forward
        &&& self.current_combination_forwards <= self.combinations_len
        &&& (self.combinations_len == 0 ==> self.current_combination_backwards == 0)
        &&& (self.combinations_len > 0 ==> self.current_combination_backwards
            < self.combinations_len)
    }

    /// The cursors report exhaustion exactly when no index is left to yield,
    /// so mixed forward and backward pulls stop only once the whole index
    /// space has been handed out.
    pub proof fn lemma_exhausted_iff_nothing_remaining(&self)
        requires
            self.wf(),
        ensures
            self.exhausted() <==> self.remaining() =~= Set::<int>::empty(),
    {
        if !self.exhausted() {
            assert(self.remaining().contains(self.forward_cursor() as int));
        }
    }

    /// Creates a new `Combinatory` of these dimensions, where each inner
    /// vector holds the values of one dimension.
    ///
    /// There must be at least one dimension. The stride accumulator runs over
    /// both tables in turn and so reaches the square of the total count; the
    /// bounds in the precondition say exactly that every value it takes fits
    /// in `usize`.
    pub fn new(values: Vec<Vec<T>>) -> (r: Self)
        requires
            values@.len() >= 1,
            forall|i: int|
                0 <= i <= values@.len() ==> #[trigger] suffix_product(views_of(values@), i)
                    <= usize::MAX,
            forall|i: int|
                0 <= i <= values@.len() ==> total_of(views_of(values@)) * #[trigger] suffix_product(
                    views_of(values@),
                    i,
                ) <= usize::MAX,
        ensures
            r.wf(),
            r.dims() == views_of(values@),
            r.total_spec() == total_of(views_of(values@)),
            r.forward_cursor() == 0,
            r.backward_cursor() == if r.total_spec() == 0 {
                0
            } else {
                (r.total_spec() - 1) as nat
            },
            r.remaining() == vstd::set_lib::set_int_range(0, r.total_spec() as int),
    {
        let sentences = values;
        let n = sentences.len();
        let ghost dims = views_of(sentences@);

        let mut rev_forward: Vec<usize> = Vec::new();
        let mut accumulated: usize = 1;
        let mut k: usize = 0;
        while k < n
            invariant
                n == sentences@.len(),
                dims == views_of(sentences@),
                k <= n,
                accumulated == suffix_product(dims, n - k),
                rev_forward@.len() == k,
                forall|j: int| 0 <= j < k ==> rev_forward@[j] == suffix_product(dims, n - j),
                forall|i: int|
                    0 <= i <= n ==> #[trigger] suffix_product(dims, i) <= usize::MAX,
            decreases n - k,
        {
            rev_forward.push(accumulated);
            let len_k = sentences[n - 1 - k].len();
            proof {
                assert(dims[n - 1 - k] == sentences@[n - 1 - k]@);
                assert(suffix_product(dims, n - k - 1) == suffix_product(dims, n - k) * dims[n - 1
                    - k].len());
            }
            accumulated = accumulated * len_k;
            k = k + 1;
        }
        let combinations_len = accumulated;
        proof {
            assert(suffix_product(dims, n as int) == 1);
            assert(total_of(dims) * suffix_product(dims, n as int) == total_of(dims))
                by (nonlinear_arith)
                requires
                    suffix_product(dims, n as int) == 1,
            ;
        }

        let mut rev_backward: Vec<usize> = Vec::new();
        let mut k: usize = 0;
        while k < n
            invariant
                n == sentences@.len(),
                dims == views_of(sentences@),
                k <= n,
                accumulated == total_of(dims) * suffix_product(dims, n - k),
                rev_backward@.len() == k,
                forall|j: int|
                    0 <= j < k ==> rev_backward@[j] == total_of(dims) * suffix_product(
                        dims,
                        n - j,
                    ),
                forall|i: int|
                    0 <= i <= n ==> total_of(dims) * #[trigger] suffix_product(dims, i)
                        <= usize::MAX,
            decreases n - k,
        {
            rev_backward.push(accumulated);
            let len_k = sentences[n - 1 - k].len();
            proof {
                assert(dims[n - 1 - k] == sentences@[n - 1 - k]@);
                assert(suffix_product(dims, n - k - 1) == suffix_product(dims, n - k) * dims[n - 1
                    - k].len());
                vstd::arithmetic::mul::lemma_mul_is_associative(
                    total_of(dims) as int,
                    suffix_product(dims, n - k) as int,
                    dims[n - 1 - k].len() as int,
                );
            }
            accumulated = accumulated * len_k;
            k = k + 1;
        }

        let mut forward_modules: Vec<usize> = Vec::new();
        let mut i: usize = 0;
        while i < n
            invariant
                n == rev_forward@.len(),
                i <= n,
                forall|j: int| 0 <= j < n ==> rev_forward@[j] == suffix_product(dims, n - j),
                forward_modules@.len() == i,
                forall|j: int| 0 <= j < i ==> forward_modules@[j] == stride_of(dims, j),
            decreases n - i,
        {
            forward_modules.push(rev_forward[n - 1 - i]);
            i = i + 1;
        }

        let mut backward_modules: Vec<usize> = Vec::new();
        let mut i: usize = 0;
        while i < n
            invariant
                n == rev_backward@.len(),
                i <= n,
                forall|j: int|
                    0 <= j < n ==> rev_backward@[j] == total_of(dims) * suffix_product(
                        dims,
                        n - j,
                    ),
                backward_modules@.len() == i,
                forall|j: int|
                    0 <= j < i ==> backward_modules@[j] == total_of(dims) * stride_of(dims, j),
            decreases n - i,
        {
            backward_modules.push(rev_backward[n - 1 - i]);
            i = i + 1;
        }

        let current_combination_backwards = if combinations_len == 0 {
            0
        } else {
            combinations_len - 1
        };
        let r = Combinatory {
            values: sentences,
            current_combination_forwards: 0,
            current_combination_backwards,
            forward_modules,
            backward_modules,
            direction_is_forward: true,
            combinations_len,
        };
        proof {
            assert(r.dims() =~= dims);
            assert(r.remaining() =~= vstd::set_lib::set_int_range(0, r.total_spec() as int));
        }
        r
    }

    /// Total number of combinations: the product of all dimension lengths.
    pub fn total_count(&self) -> (r: usize)
        requires
            self.wf(),
        ensures
            r == self.total_spec(),
    {
        self.combinations_len
    }

    /// Selects the forward decoding direction, where combinations grow from
    /// right to left: the combinations of `[1, 2]` and `[a, b]` follow the
    /// order `(1,a)`, `(1,b)`, `(2,a)`, `(2,b)`.
    ///
    /// This is the direction a fresh `Combinatory` starts in, so the call
    /// returns the value unchanged.
    pub fn forward_direction(self) -> (r: Self)
        requires
            self.wf(),
        ensures
            r == self,
    {
        let mut this = self;
        this.direction_is_forward = true;
        this
    }

    /// Selects the backward decoding direction, where combinations would grow
    /// from left to right: `(1,a)`, `(2,a)`, `(1,b)`, `(2,b)`.
    ///
    /// Note: this setter stores the same flag value as
    /// [`Self::forward_direction`], so choosing the backward direction has no
    /// observable effect and the backward stride table is never consulted for
    /// decoding. The contract states that quirk rather than the order the
    /// name suggests; the call returns the value unchanged.
    pub fn backward_direction(self) -> (r: Self)
        requires
            self.wf(),
        ensures
            r == self,
    {
        let mut this = self;
        this.direction_is_forward = true;
        this
    }

    /// Gets a combination given its index: `None` exactly when the index is
    /// at or past the total count, and otherwise one borrowed element per
    /// dimension, dimension `i` contributing the element at mixed-radix digit
    /// `i` of the index.
    ///
    /// For example, over the dimensions `["1".."5"]`, `["A".."D"]` and
    /// `["Red", "Green", "Blue"]` the combination at index `31` is
    /// `("3", "C", "Green")`.
    ///
    /// This access is pure: it reads no cursor and mutates nothing.
    pub fn combination(&self, combination_index: usize) -> (r: Option<Vec<&T>>)
        requires
            self.wf(),
        ensures
            r is Some <==> combination_index < self.total_spec(),
            r is Some ==> is_combination_of(r.unwrap()@, self.dims(), combination_index as int),
    {
        if combination_index >= self.combinations_len {
            return None;
        }
        proof {
            lemma_positive_suffix_positive_dims(self.dims(), 0);
        }
        let n = self.values.len();
        let mut combinations: Vec<&T> = Vec::new();
        let mut index: usize = 0;
        while index < n
            invariant
                self.wf(),
                n == self.dims().len(),
                combination_index < self.total_spec(),
                forall|j: int| 0 <= j < n ==> #[trigger] self.dims()[j].len() > 0,
                index <= n,
                combinations@.len() == index,
                forall|i: int|
                    0 <= i < index ==> combinations@[i] == self.dims()[i][sub_index_of(
                        self.dims(),
                        combination_index as int,
                        i,
                    )],
            decreases n - index,
        {
            let modules = if self.direction_is_forward {
                &self.forward_modules
            } else {
                &self.backward_modules
            };
            proof {
                lemma_suffix_product_positive(self.dims(), index + 1);
                assert(self.direction_is_forward);
                assert(modules@[index as int] == stride_of(self.dims(), index as int));
                assert(modules@[index as int] > 0);
                assert(self.values@[index as int]@ == self.dims()[index as int]);
                assert(self.values@[index as int]@.len() > 0);
            }
            let sub = (combination_index / modules[index]) % self.values[index].len();
            combinations.push(&self.values[index][sub]);
            index = index + 1;
        }
        Some(combinations)
    }

    /// Gives every combination by reference rather than cloning, in index
    /// order `0..total_count`, one row per combination.
    ///
    /// The result is re-derived on each call from the dimensions alone, so it
    /// reads no cursor, mutates nothing, and two calls return identical rows.
    pub fn ref_combinations(&self) -> (r: Vec<Vec<&T>>)
        requires
            self.wf(),
        ensures
            r@.len() == self.total_spec(),
            forall|k: int|
                0 <= k < r@.len() ==> is_combination_of(#[trigger] r@[k]@, self.dims(), k),
            deref_rows(r@) == enumeration(self.dims()),
    {
        let mut out: Vec<Vec<&T>> = Vec::new();
        let mut k: usize = 0;
        while k < self.combinations_len
            invariant
                self.wf(),
                k <= self.combinations_len,
                out@.len() == k,
                forall|j: int|
                    0 <= j < k ==> is_combination_of(#[trigger] out@[j]@, self.dims(), j),
                forall|j: int| 0 <= j < k ==> deref_seq(#[trigger] out@[j]@) == combo_at(
                    self.dims(),
                    j,
                ),
            decreases self.combinations_len - k,
        {
            let c = match self.combination(k) {
                Some(c) => c,
                None => unreached(),
            };
            proof {
                assert(deref_seq(c@) =~= combo_at(self.dims(), k as int));
            }
            out.push(c);
            k = k + 1;
        }
        proof {
            assert(deref_rows(out@) =~= enumeration(self.dims()));
        }
        out
    }

    /// Gives the combination at the forward cursor and moves that cursor one
    /// step inward, or `None` once the cursors have crossed or there are no
    /// combinations. Each index between the cursors is yielded exactly once
    /// over all pulls from either end.
    pub fn next(&mut self) -> (r: Option<Vec<&T>>)
        requires
            old(self).wf(),
        ensures
            final(self).wf(),
            final(self).dims() == old(self).dims(),
            r is Some <==> !old(self).exhausted(),
            r is None ==> *final(self) == *old(self),
            r is Some ==> old(self).remaining().contains(old(self).forward_cursor() as int),
            r is Some ==> is_combination_of(
                r.unwrap()@,
                old(self).dims(),
                old(self).forward_cursor() as int,
            ),
            r is Some ==> final(self).forward_cursor() == old(self).forward_cursor() + 1
                && final(self).backward_cursor() == old(self).backward_cursor(),
            r is Some ==> final(self).remaining() == old(self).remaining().remove(
                old(self).forward_cursor() as int,
            ),
    {
        if self.current_combination_backwards < self.current_combination_forwards {
            return None;
        }
        if self.combinations_len == 0 {
            return None;
        }
        let idx = self.current_combination_forwards;
        self.current_combination_forwards = idx + 1;
        let r = self.combination(idx);
        proof {
            assert(r is Some);
            assert(self.remaining() =~= old(self).remaining().remove(idx as int));
        }
        r
    }

    /// Gives the combination at the backward cursor and moves that cursor one
    /// step inward, or `None` once the cursors have crossed or there are no
    /// combinations.
    ///
    /// When the backward cursor yields index `0` it cannot move below zero;
    /// the forward cursor is stepped past it instead, so that both ends
    /// report exhaustion afterwards and no index is yielded twice.
    pub fn next_back(&mut self) -> (r: Option<Vec<&T>>)
        requires
            old(self).wf(),
        ensures
            final(self).wf(),
            final(self).dims() == old(self).dims(),
            r is Some <==> !old(self).exhausted(),
            r is None ==> *final(self) == *old(self),
            r is Some ==> old(self).remaining().contains(old(self).backward_cursor() as int),
            r is Some ==> is_combination_of(
                r.unwrap()@,
                old(self).dims(),
                old(self).backward_cursor() as int,
            ),
            r is Some && old(self).backward_cursor() > 0 ==> final(self).backward_cursor() == old(
                self,
            ).backward_cursor() - 1 && final(self).forward_cursor() == old(self).forward_cursor(),
            r is Some && old(self).backward_cursor() == 0 ==> final(self).exhausted(),
            r is Some ==> final(self).remaining() == old(self).remaining().remove(
                old(self).backward_cursor() as int,
            ),
    {
        if self.current_combination_backwards < self.current_combination_forwards {
            return None;
        }
        if self.combinations_len == 0 {
            return None;
        }
        let idx = self.current_combination_backwards;
        if idx == 0 {
            self.current_combination_forwards = 1;
        } else {
            self.current_combination_backwards = idx - 1;
        }
        let r = self.combination(idx);
        proof {
            assert(r is Some);
            assert(self.remaining() =~= old(self).remaining().remove(idx as int));
        }
        r
    }
}

} // verus!
