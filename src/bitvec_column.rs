use vstd::prelude::*;
use bitvec::order::Lsb0;
use bitvec::vec::BitVec;
use crate::column::{Column, elems, is_max, lemma_elems_finite, lemma_elems_take_step, pivot_of, sym_diff};

verus! {

/// The longest bit vector that `bitvec` can hold.
pub const MAX_BITS: usize = usize::MAX >> 3;

/// A `bitvec::vec::BitVec<usize, Lsb0>`, held opaquely: its length is
/// `bitvec_len` and the positions of its one bits are `bitvec_ones`.
#[verifier::external_body]
#[derive(Debug, PartialEq)]
pub struct BitVecStore {
    bits: BitVec<usize, Lsb0>,
}

/// The number of bits of a bit vector.
pub uninterp spec fn bitvec_len(b: BitVecStore) -> nat;

/// The positions of the one bits of a bit vector.
pub uninterp spec fn bitvec_ones(b: BitVecStore) -> Set<usize>;

/// The bits of `a` and `b` that differ, among the first `len`.
pub open spec fn xor_prefix(a: Set<usize>, b: Set<usize>, len: nat) -> Set<usize> {
    Set::new(|i: usize| i < len && (a.contains(i) != b.contains(i)))
}

/// Relies on `BitVec::new`: the empty bit vector.
#[verifier::external_body]
fn bitvec_new() -> (r: BitVecStore)
    ensures
        bitvec_len(r) == 0,
        bitvec_ones(r) == Set::<usize>::empty(),
{
    BitVecStore { bits: BitVec::new() }
}

/// Relies on `BitVec::repeat`: `len` zero bits; it panics beyond the
/// longest length that a bit vector can have.
#[verifier::external_body]
fn bitvec_zeros(len: usize) -> (r: BitVecStore)
    requires
        len <= MAX_BITS,
    ensures
        bitvec_len(r) == len,
        bitvec_ones(r) == Set::<usize>::empty(),
{
    BitVecStore { bits: BitVec::repeat(false, len) }
}

/// Relies on `BitSlice::set`: writes a one at `index`, which must be in
/// bounds.
#[verifier::external_body]
fn bitvec_set_one(b: &mut BitVecStore, index: usize)
    requires
        index < bitvec_len(*old(b)),
    ensures
        bitvec_len(*final(b)) == bitvec_len(*old(b)),
        bitvec_ones(*final(b)) == bitvec_ones(*old(b)).insert(index),
{
    b.bits.set(index, true);
}

/// Relies on `BitVec::len`: the number of bits.
#[verifier::external_body]
fn bitvec_length(b: &BitVecStore) -> (r: usize)
    ensures
        r == bitvec_len(*b),
{
    b.bits.len()
}

/// Relies on `BitSlice::last_one`: the position of the last one bit, or
/// `None` when there is none.
#[verifier::external_body]
fn bitvec_last_one(b: &BitVecStore) -> (r: Option<usize>)
    ensures
        r == pivot_of(bitvec_ones(*b)),
{
    b.bits.last_one()
}

/// Relies on `BitVec`'s `Clone`: the same bits.
#[verifier::external_body]
fn bitvec_clone(b: &BitVecStore) -> (r: BitVecStore)
    ensures
        bitvec_len(r) == bitvec_len(*b),
        bitvec_ones(r) == bitvec_ones(*b),
{
    BitVecStore { bits: b.bits.clone() }
}

/// Relies on `BitVec`'s `BitXorAssign`: bits are paired up to the shorter
/// length and XORed; the length stays, and any bits of `b` past it are
/// ignored.
#[verifier::external_body]
fn bitvec_xor_assign(a: &mut BitVecStore, b: &BitVecStore)
    ensures
        bitvec_len(*final(a)) == bitvec_len(*old(a)),
        bitvec_ones(*final(a)) == xor_prefix(bitvec_ones(*old(a)), bitvec_ones(*b), bitvec_len(*old(a))),
{
    a.bits ^= &b.bits;
}

/// A column stored as a dense bit vector, one bit per row up to the
/// largest one it has held.
#[derive(Debug, PartialEq)]
pub struct BitVecColumn {
    pub col: BitVecStore,
}

impl BitVecColumn {
    /// The number of bits of the vector.
    pub open spec fn bit_len(&self) -> nat {
        bitvec_len(self.col)
    }

    /// Builds a column from its indices, in any order: one bit per row up
    /// to the largest index.
    pub fn from_sparse_col(sparse_col: Vec<usize>) -> (r: Self)
        requires
            forall|i: int| 0 <= i < sparse_col@.len() ==> sparse_col@[i] < MAX_BITS,
        ensures
            r.well_formed(),
            r.entries() == elems(sparse_col@),
            sparse_col@.len() == 0 ==> r.bit_len() == 0,
            forall|m: usize| is_max(elems(sparse_col@), m) ==> r.bit_len() == m + 1,
    {
        let n = sparse_col.len();
        if n == 0 {
            let col = bitvec_new();
            assert(elems(sparse_col@) =~= Set::<usize>::empty());
            return BitVecColumn { col };
        }
        let mut max_elem = sparse_col[0];
        let mut k: usize = 1;
        while k < n
            invariant
                n == sparse_col@.len(),
                1 <= k <= n,
                exists|j: int| 0 <= j < k && sparse_col@[j] == max_elem,
                forall|j: int| 0 <= j < k ==> sparse_col@[j] <= max_elem,
            decreases n - k,
        {
            if sparse_col[k] > max_elem {
                max_elem = sparse_col[k];
            }
            k += 1;
        }
        assert(is_max(elems(sparse_col@), max_elem)) by {
            let j = choose|j: int| 0 <= j < n && sparse_col@[j] == max_elem;
            assert(sparse_col@.contains(max_elem));
        }
        let mut col = bitvec_zeros(max_elem + 1);
        let mut i: usize = 0;
        while i < n
            invariant
                n == sparse_col@.len(),
                forall|j: int| 0 <= j < n ==> sparse_col@[j] <= max_elem,
                i <= n,
                bitvec_len(col) == max_elem + 1,
                bitvec_ones(col) == elems(sparse_col@.take(i as int)),
            decreases n - i,
        {
            bitvec_set_one(&mut col, sparse_col[i]);
            proof {
                lemma_elems_take_step(sparse_col@, i as int);
            }
            i += 1;
        }
        assert(sparse_col@.take(i as int) =~= sparse_col@);
        proof {
            lemma_elems_finite(sparse_col@);
            assert forall|m: usize| is_max(elems(sparse_col@), m) implies m == max_elem by {
                assert(m <= max_elem && max_elem <= m);
            }
        }
        BitVecColumn { col }
    }
}

impl Column for BitVecColumn {
    open spec fn entries(&self) -> Set<usize> {
        bitvec_ones(self.col)
    }

    open spec fn well_formed(&self) -> bool {
        &&& bitvec_ones(self.col).finite()
        &&& forall|i: usize| bitvec_ones(self.col).contains(i) ==> i < bitvec_len(self.col)
    }

    proof fn lemma_finite(&self) {
    }

    fn pivot(&self) -> (r: Option<usize>) {
        bitvec_last_one(&self.col)
    }

    fn add_col(&mut self, other: &Self)
        ensures
            final(self).bit_len() == if other.bit_len() > old(self).bit_len() {
                other.bit_len()
            } else {
                old(self).bit_len()
            },
    {
        let ghost a = bitvec_ones(self.col);
        let ghost b = bitvec_ones(other.col);
        if bitvec_length(&other.col) > bitvec_length(&self.col) {
            // Grow to the longer length first, so no high bit is lost.
            let mut grown = bitvec_clone(&other.col);
            bitvec_xor_assign(&mut grown, &self.col);
            self.col = grown;
            assert(bitvec_ones(self.col) =~= sym_diff(a, b));
        } else {
            bitvec_xor_assign(&mut self.col, &other.col);
            assert(bitvec_ones(self.col) =~= sym_diff(a, b));
        }
        proof {
            vstd::set_lib::lemma_set_subset_finite(a.union(b), bitvec_ones(self.col));
        }
    }
}

} // verus!
