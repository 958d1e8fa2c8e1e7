use vstd::prelude::*;
use std::collections::HashMap;
use crate::column::{Column, Pairing, lemma_pivot_of, pivot_of, sym_diff};

verus! {

broadcast use vstd::std_specs::hash::group_hash_axioms;

/// Every stored column is finite and is stored under its own pivot.
pub open spec fn low_ok(low: Map<usize, Set<usize>>) -> bool {
    forall|p: usize| #[trigger] low.contains_key(p) ==> low[p].finite() && pivot_of(low[p]) == Some(p)
}

/// One more than the pivot, or zero for the zero column.
pub open spec fn pivot_measure(c: Set<usize>) -> nat {
    match pivot_of(c) {
        Some(p) => p as nat + 1,
        None => 0,
    }
}

/// Whether a reduction step applies to `c`: its pivot is owned by a stored column.
pub open spec fn can_step(low: Map<usize, Set<usize>>, c: Set<usize>) -> bool {
    &&& c.finite()
    &&& low_ok(low)
    &&& pivot_of(c) matches Some(p) && low.contains_key(p)
}

/// The column that `c` reduces to against the stored columns `low`: add the
/// column owning the current pivot until no stored column owns it.
pub open spec fn reduce_spec(low: Map<usize, Set<usize>>, c: Set<usize>) -> Set<usize>
    decreases pivot_measure(c),
    via reduce_spec_decreases
{
    if can_step(low, c) {
        reduce_spec(low, sym_diff(c, low[pivot_of(c)->0]))
    } else {
        c
    }
}

#[via_fn]
proof fn reduce_spec_decreases(low: Map<usize, Set<usize>>, c: Set<usize>) {
    if can_step(low, c) {
        let p = pivot_of(c)->0;
        lemma_step_lowers_pivot(c, low[p], p);
    }
}

/// Number of reduction steps that `reduce_spec` takes.
pub open spec fn reduce_steps(low: Map<usize, Set<usize>>, c: Set<usize>) -> nat
    decreases pivot_measure(c),
    via reduce_steps_decreases
{
    if can_step(low, c) {
        1 + reduce_steps(low, sym_diff(c, low[pivot_of(c)->0]))
    } else {
        0
    }
}

#[via_fn]
proof fn reduce_steps_decreases(low: Map<usize, Set<usize>>, c: Set<usize>) {
    if can_step(low, c) {
        let p = pivot_of(c)->0;
        lemma_step_lowers_pivot(c, low[p], p);
    }
}

/// Adding a column with the same pivot `p` leaves a column whose pivot is
/// strictly below `p`, or the zero column.
pub proof fn lemma_step_lowers_pivot(c: Set<usize>, d: Set<usize>, p: usize)
    requires
        c.finite(),
        d.finite(),
        pivot_of(c) == Some(p),
        pivot_of(d) == Some(p),
    ensures
        sym_diff(c, d).finite(),
        match pivot_of(sym_diff(c, d)) {
            Some(q) => q < p,
            None => sym_diff(c, d).is_empty(),
        },
        pivot_measure(sym_diff(c, d)) < pivot_measure(c),
{
    lemma_pivot_of(c);
    lemma_pivot_of(d);
    let s = sym_diff(c, d);
    assert(s.finite());
    lemma_pivot_of(s);
    if let Some(q) = pivot_of(s) {
        assert(s.contains(q));
        assert(q != p);
        assert(q <= p);
    }
}

/// Reduction terminates within (pivot + 1) steps.
pub proof fn lemma_reduce_steps_bound(low: Map<usize, Set<usize>>, c: Set<usize>)
    ensures
        reduce_steps(low, c) <= pivot_measure(c),
    decreases pivot_measure(c),
{
    if can_step(low, c) {
        let p = pivot_of(c)->0;
        lemma_step_lowers_pivot(c, low[p], p);
        lemma_reduce_steps_bound(low, sym_diff(c, low[p]));
    }
}

/// A reduced finite column is finite, and no stored column owns its pivot.
pub proof fn lemma_reduce_spec(low: Map<usize, Set<usize>>, c: Set<usize>)
    requires
        c.finite(),
        low_ok(low),
    ensures
        reduce_spec(low, c).finite(),
        !can_step(low, reduce_spec(low, c)),
    decreases pivot_measure(c),
{
    if can_step(low, c) {
        let p = pivot_of(c)->0;
        lemma_step_lowers_pivot(c, low[p], p);
        lemma_reduce_spec(low, sym_diff(c, low[p]));
    }
}

/// Reducing the zero column gives the zero column, so it is never paired.
pub proof fn lemma_zero_column_not_paired(low: Map<usize, Set<usize>>, c: Set<usize>)
    requires
        c.is_empty(),
    ensures
        reduce_spec(low, c) == c,
        pivot_of(reduce_spec(low, c)) is None,
{
    assert(c =~= Set::empty());
    lemma_pivot_of(c);
}

/// The state after processing the columns `cols` in order: the stored
/// columns by pivot, and the pairings found so far.
pub open spec fn run(cols: Seq<Set<usize>>) -> (Map<usize, Set<usize>>, Seq<Pairing>)
    decreases cols.len(),
{
    if cols.len() == 0 {
        (Map::empty(), Seq::empty())
    } else {
        let prev = run(cols.drop_last());
        let r = reduce_spec(prev.0, cols.last());
        match pivot_of(r) {
            Some(p) => (prev.0.insert(p, r), prev.1.push((p, (cols.len() - 1) as usize))),
            None => prev,
        }
    }
}

/// The pairings of a sequence of columns, in column order.
pub open spec fn pairings_of(cols: Seq<Set<usize>>) -> Seq<Pairing> {
    run(cols).1
}

/// The set of indices of each column.
pub open spec fn entries_of<C: Column>(cols: Seq<C>) -> Seq<Set<usize>> {
    cols.map_values(|c: C| c.entries())
}

/// The sequential reduction engine: the reduced columns stored by pivot.
pub struct StandardAlgo<C: Column> {
    // Takes a pivot and gives the reduced column with that pivot.
    low_inverse: HashMap<usize, C>,
}

impl<C: Column> StandardAlgo<C> {
    /// The stored columns, by pivot.
    pub closed spec fn low(&self) -> Map<usize, Set<usize>> {
        self.low_inverse@.map_values(|c: C| c.entries())
    }

    pub closed spec fn well_formed(&self) -> bool {
        forall|p: usize| #[trigger] self.low_inverse@.contains_key(p) ==> {
            &&& self.low_inverse@[p].well_formed()
            &&& self.low_inverse@[p].entries().finite()
            &&& pivot_of(self.low_inverse@[p].entries()) == Some(p)
        }
    }

    /// Each stored column is finite and has its key as pivot.
    pub proof fn lemma_low_ok(&self)
        requires
            self.well_formed(),
        ensures
            low_ok(self.low()),
    {
        assert forall|p: usize| #[trigger] self.low().contains_key(p) implies self.low()[p].finite()
            && pivot_of(self.low()[p]) == Some(p) by {
            assert(self.low_inverse@.contains_key(p));
        }
    }

    /// An engine with no stored column.
    pub fn new() -> (r: Self)
        ensures
            r.well_formed(),
            r.low() == Map::<usize, Set<usize>>::empty(),
    {
        let r = StandardAlgo { low_inverse: HashMap::new() };
        assert(r.low() =~= Map::<usize, Set<usize>>::empty());
        r
    }

    /// The stored column owning the pivot of `col`, if any.
    pub fn col_with_same_low(&self, col: &C) -> (r: Option<&C>)
        requires
            self.well_formed(),
            col.well_formed(),
        ensures
            r is Some <==> (pivot_of(col.entries()) matches Some(p) && self.low().contains_key(p)),
            r matches Some(lower) ==> lower.well_formed() && lower.entries()
                == self.low()[pivot_of(col.entries())->0],
    {
        let pivot = col.pivot();
        match pivot {
            Some(p) => self.low_inverse.get(&p),
            None => None,
        }
    }

    /// Adds stored columns to `col` until no stored column owns its pivot.
    pub fn reduce_col(&self, mut col: C) -> (r: C)
        requires
            self.well_formed(),
            col.well_formed(),
        ensures
            r.well_formed(),
            r.entries() == reduce_spec(self.low(), col.entries()),
    {
        let ghost target = reduce_spec(self.low(), col.entries());
        proof {
            self.lemma_low_ok();
            col.lemma_finite();
        }
        loop
            invariant
                self.well_formed(),
                low_ok(self.low()),
                col.well_formed(),
                col.entries().finite(),
                reduce_spec(self.low(), col.entries()) == target,
            ensures
                col.well_formed(),
                col.entries() == target,
            decreases pivot_measure(col.entries()),
        {
            let lower_col = self.col_with_same_low(&col);
            match lower_col {
                Some(lower) => {
                    let ghost c0 = col.entries();
                    let ghost p = pivot_of(c0)->0;
                    proof {
                        lemma_step_lowers_pivot(c0, self.low()[p], p);
                    }
                    col.add_col(lower);
                }
                None => {
                    assert(!can_step(self.low(), col.entries()));
                    assert(reduce_spec(self.low(), col.entries()) == col.entries());
                    break;
                }
            }
        }
        col
    }

    /// Reduces the next column `enum_col.1`, numbered `enum_col.0`: if it does
    /// not reduce to zero it is stored under its pivot, and paired with it.
    pub fn next(&mut self, enum_col: (usize, C)) -> (r: Option<Pairing>)
        requires
            old(self).well_formed(),
            enum_col.1.well_formed(),
        ensures
            final(self).well_formed(),
            ({
                let red = reduce_spec(old(self).low(), enum_col.1.entries());
                match pivot_of(red) {
                    Some(p) => r == Some((p, enum_col.0)) && !old(self).low().contains_key(p)
                        && final(self).low() == old(self).low().insert(p, red),
                    None => r is None && final(self).low() == old(self).low(),
                }
            }),
    {
        let (idx, col) = enum_col;
        proof {
            self.lemma_low_ok();
            col.lemma_finite();
            lemma_reduce_spec(self.low(), col.entries());
        }
        let reduced = self.reduce_col(col);
        match reduced.pivot() {
            Some(pivot) => {
                proof {
                    reduced.lemma_finite();
                }
                let ghost red = reduced;
                self.low_inverse.insert(pivot, reduced);
                assert(self.low() =~= old(self).low().insert(pivot, red.entries()));
                Some((pivot, idx))
            }
            None => None,
        }
    }
}

} // verus!

verus! {

/// Lemma: one more column extends the run by exactly one step.
pub proof fn lemma_run_step(es: Seq<Set<usize>>, k: int)
    requires
        0 <= k < es.len(),
    ensures
        es.take(k + 1).drop_last() == es.take(k),
        es.take(k + 1).last() == es[k],
        es.take(k + 1).len() == k + 1,
{
    assert(es.take(k + 1).drop_last() =~= es.take(k));
}

/// The columns of `v` in reverse order, moved without copying.
pub fn reversed<T>(v: Vec<T>) -> (r: Vec<T>)
    ensures
        r@.len() == v@.len(),
        forall|i: int| 0 <= i < v@.len() ==> r@[i] == v@[v@.len() - 1 - i],
{
    let ghost v0 = v@;
    let mut v = v;
    let mut r: Vec<T> = Vec::new();
    while v.len() > 0
        invariant
            r@.len() + v@.len() == v0.len(),
            v@ == v0.take(v@.len() as int),
            forall|i: int| 0 <= i < r@.len() ==> r@[i] == v0[v0.len() - 1 - i],
        decreases v@.len(),
    {
        let ghost n = v@.len();
        match v.pop() {
            Some(x) => {
                assert(x == v0[n - 1]);
                r.push(x);
                assert(v@ =~= v0.take(v@.len() as int));
            }
            None => {}
        }
    }
    r
}

/// Reduces the columns in order and returns the pairings, in column order.
pub fn std_persuit_serial<C: Column>(col_iterator: Vec<C>) -> (r: Vec<Pairing>)
    requires
        forall|i: int| 0 <= i < col_iterator@.len() ==> (#[trigger] col_iterator@[i]).well_formed(),
    ensures
        r@ == pairings_of(entries_of(col_iterator@)),
{
    let ghost es = entries_of(col_iterator@);
    let len = col_iterator.len();
    let ghost n = col_iterator@.len();
    let mut stack = reversed(col_iterator);
    let mut algo: StandardAlgo<C> = StandardAlgo::new();
    let mut pairings: Vec<Pairing> = Vec::new();
    let mut idx: usize = 0;
    assert(es.take(0) =~= Seq::<Set<usize>>::empty());
    while stack.len() > 0
        invariant
            es.len() == n,
            n == len,
            idx + stack@.len() == n,
            forall|i: int| 0 <= i < stack@.len() ==> (#[trigger] stack@[i]).well_formed()
                && stack@[i].entries() == es[n - 1 - i],
            algo.well_formed(),
            algo.low() == run(es.take(idx as int)).0,
            pairings@ == run(es.take(idx as int)).1,
        decreases stack@.len(),
    {
        let ghost k = stack@.len() - 1;
        match stack.pop() {
            Some(col) => {
                assert(col == stack@.push(col)[k]);
                proof {
                    lemma_run_step(es, idx as int);
                }
                let res = algo.next((idx, col));
                match res {
                    Some(pairing) => {
                        pairings.push(pairing);
                    }
                    None => {}
                }
                idx += 1;
            }
            None => {}
        }
    }
    assert(es.take(idx as int) =~= es);
    pairings
}

} // verus!
