use vstd::prelude::*;

verus! {

/// A pairing `(pivot_row, column_index)`.
pub type Pairing = (usize, usize);

/// `m` is the largest element of `s`.
pub open spec fn is_max(s: Set<usize>, m: usize) -> bool {
    &&& s.contains(m)
    &&& forall|x: usize| s.contains(x) ==> x <= m
}

/// The pivot (lowest nonzero row, i.e. the largest index) of a column.
pub open spec fn pivot_of(s: Set<usize>) -> Option<usize> {
    if exists|m: usize| is_max(s, m) {
        Some(choose|m: usize| is_max(s, m))
    } else {
        None
    }
}

/// Addition over GF(2): the indices present in exactly one operand.
pub open spec fn sym_diff(a: Set<usize>, b: Set<usize>) -> Set<usize> {
    a.difference(b).union(b.difference(a))
}

/// A finite, nonempty set of indices has a largest element.
pub proof fn lemma_max_exists(s: Set<usize>)
    requires
        s.finite(),
        !s.is_empty(),
    ensures
        exists|m: usize| is_max(s, m),
    decreases s.len(),
{
    let x = s.choose();
    let rest = s.remove(x);
    if rest.is_empty() {
        assert(is_max(s, x));
    } else {
        lemma_max_exists(rest);
        let m = choose|m: usize| is_max(rest, m);
        if m <= x {
            assert(is_max(s, x));
        } else {
            assert(is_max(s, m));
        }
    }
}

/// The pivot of a finite column is its largest index, and is absent exactly
/// when the column is empty.
pub proof fn lemma_pivot_of(s: Set<usize>)
    requires
        s.finite(),
    ensures
        pivot_of(s) is None <==> s.is_empty(),
        pivot_of(s) matches Some(m) ==> is_max(s, m),
        forall|m: usize| is_max(s, m) ==> pivot_of(s) == Some(m),
{
    if !s.is_empty() {
        lemma_max_exists(s);
    }
    if pivot_of(s) is None && !s.is_empty() {
        let x = s.choose();
        assert(!is_max(s, x));
    }
}

/// The set of elements of a sequence.
pub open spec fn elems(s: Seq<usize>) -> Set<usize> {
    Set::new(|x: usize| s.contains(x))
}

/// The elements of a sequence form a finite set.
pub proof fn lemma_elems_finite(s: Seq<usize>)
    ensures
        elems(s).finite(),
{
    assert(elems(s) =~= s.to_set());
    vstd::seq_lib::seq_to_set_is_finite(s);
}

/// Taking one more element of a sequence adds that element to its set.
pub proof fn lemma_elems_take_step(s: Seq<usize>, i: int)
    requires
        0 <= i < s.len(),
    ensures
        elems(s.take(i + 1)) == elems(s.take(i)).insert(s[i]),
{
    let i1: int = i + 1;
    assert forall|x: usize| elems(s.take(i1)).contains(x) implies
        elems(s.take(i)).insert(s[i]).contains(x) by {
        let j = choose|j: int| 0 <= j < i1 && s.take(i1)[j] == x;
        if j < i {
            assert(s.take(i)[j] == x);
        }
    }
    assert forall|x: usize| elems(s.take(i)).insert(s[i]).contains(x) implies
        elems(s.take(i1)).contains(x) by {
        if x == s[i] {
            assert(s.take(i1)[i] == x);
        } else {
            let j = choose|j: int| 0 <= j < i && s.take(i)[j] == x;
            assert(s.take(i1)[j] == x);
        }
    }
    assert(elems(s.take(i1)) =~= elems(s.take(i)).insert(s[i]));
}

/// Adding a column to itself gives the zero column, which has no pivot.
pub proof fn lemma_add_col_self(c: Set<usize>)
    ensures
        sym_diff(c, c).is_empty(),
        pivot_of(sym_diff(c, c)) is None,
{
    assert(sym_diff(c, c) =~= Set::empty());
    lemma_pivot_of(sym_diff(c, c));
}

/// Adding columns is commutative.
pub proof fn lemma_add_col_commutes(a: Set<usize>, b: Set<usize>)
    ensures
        sym_diff(a, b) == sym_diff(b, a),
{
    assert(sym_diff(a, b) =~= sym_diff(b, a));
}

/// Columns of any two representations holding the same indices have the
/// same pivot, and adding columns that hold the same indices gives columns
/// that hold the same indices.
pub proof fn lemma_representations_agree<A: Column, B: Column>(a: A, a2: A, b: B, b2: B)
    requires
        a.well_formed(),
        a2.well_formed(),
        b.well_formed(),
        b2.well_formed(),
        a.entries() == b.entries(),
        a2.entries() == b2.entries(),
    ensures
        pivot_of(a.entries()) == pivot_of(b.entries()),
        sym_diff(a.entries(), a2.entries()) == sym_diff(b.entries(), b2.entries()),
        sym_diff(a.entries(), b2.entries()) == sym_diff(b.entries(), a2.entries()),
{
}

/// A column representation: a finite set of row indices over GF(2).
pub trait Column: Sized {
    /// The row indices whose coefficient is one.
    spec fn entries(&self) -> Set<usize>;

    /// The representation is consistent.
    spec fn well_formed(&self) -> bool;

    /// A well-formed column holds finitely many indices.
    proof fn lemma_finite(&self)
        requires
            self.well_formed(),
        ensures
            self.entries().finite(),
    ;

    /// The largest index present, or `None` for the zero column.
    fn pivot(&self) -> (r: Option<usize>)
        requires
            self.well_formed(),
        ensures
            r == pivot_of(self.entries()),
    ;

    /// Replaces the column with its sum (symmetric difference) with `other`.
    fn add_col(&mut self, other: &Self)
        requires
            old(self).well_formed(),
            other.well_formed(),
        ensures
            final(self).well_formed(),
            final(self).entries() == sym_diff(old(self).entries(), other.entries()),
    ;
}

} // verus!
