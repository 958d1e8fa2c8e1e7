use vstd::prelude::*;
use std::collections::HashMap;
use crate::column::{Column, Pairing, pivot_of};
use crate::algo::{
    StandardAlgo, can_step, entries_of, lemma_reduce_spec, lemma_run_step, lemma_step_lowers_pivot, low_ok,
    pairings_of, pivot_measure, reduce_spec, reversed, run,
};

verus! {

broadcast use vstd::std_specs::hash::group_hash_axioms;

/// Why an arena run was refused: the announced length differs from the
/// number of columns supplied.
#[derive(Debug, Clone, Copy, PartialEq, Eq, Structural)]
pub enum ArenaError {
    /// More columns than slots: there is nowhere to put the extra ones.
    TooManyColumns,
    /// Fewer columns than slots: some slot would never be published.
    TooFewColumns,
}

/// The stored columns by pivot, where `slot_of` maps a pivot to the slot of
/// the arena that holds its column.
pub open spec fn arena_low<C: Column>(slot_of: Map<usize, usize>, arena: Seq<C>) -> Map<usize, Set<usize>> {
    Map::new(|p: usize| slot_of.contains_key(p), |p: usize| arena[slot_of[p] as int].entries())
}

/// Every pivot names a slot holding a well-formed column with that pivot.
pub open spec fn arena_ok<C: Column>(slot_of: Map<usize, usize>, arena: Seq<C>) -> bool {
    &&& forall|i: int| 0 <= i < arena.len() ==> (#[trigger] arena[i]).well_formed()
    &&& forall|p: usize| #[trigger] slot_of.contains_key(p) ==> {
        &&& slot_of[p] < arena.len()
        &&& arena[slot_of[p] as int].entries().finite()
        &&& pivot_of(arena[slot_of[p] as int].entries()) == Some(p)
    }
}

/// The result owed for `len` slots and the columns `cols`.
pub open spec fn arena_result(cols: Seq<Set<usize>>, len: usize) -> Result<Seq<Pairing>, ArenaError> {
    if cols.len() > len {
        Err(ArenaError::TooManyColumns)
    } else if cols.len() < len {
        Err(ArenaError::TooFewColumns)
    } else {
        Ok(pairings_of(cols))
    }
}

/// A pre-sized arena of `len` slots, one per column. Each column is moved
/// into the next slot once and reduced there; the pivot map records slot
/// numbers, so no column is ever copied.
pub struct SlotArena<C: Column> {
    len: usize,
    slots: Vec<C>,
    // Takes a pivot and gives the slot holding the column with that pivot.
    slot_of: HashMap<usize, usize>,
}

impl<C: Column> SlotArena<C> {
    /// The number of slots.
    pub closed spec fn capacity(&self) -> nat {
        self.len as nat
    }

    /// The number of slots filled so far.
    pub closed spec fn filled(&self) -> nat {
        self.slots@.len()
    }

    /// The stored columns, by pivot.
    pub closed spec fn low(&self) -> Map<usize, Set<usize>> {
        arena_low(self.slot_of@, self.slots@)
    }

    pub closed spec fn well_formed(&self) -> bool {
        &&& arena_ok(self.slot_of@, self.slots@)
        &&& self.slots@.len() <= self.len
    }

    /// An arena of `len` empty slots.
    pub fn new(len: usize) -> (r: Self)
        ensures
            r.well_formed(),
            r.capacity() == len,
            r.filled() == 0,
            r.low() == Map::<usize, Set<usize>>::empty(),
    {
        let r = SlotArena { len, slots: Vec::with_capacity(len), slot_of: HashMap::new() };
        assert(r.low() =~= Map::<usize, Set<usize>>::empty());
        r
    }

    /// Whether every slot has been filled.
    pub fn is_full(&self) -> (r: bool)
        requires
            self.well_formed(),
        ensures
            r == (self.filled() == self.capacity()),
    {
        self.slots.len() == self.len
    }

    /// Moves `col` into the next slot and reduces it there; it is paired with
    /// its pivot unless it reduces to zero. Fails, changing nothing, when
    /// every slot is already filled.
    pub fn reduce_next(&mut self, col: C) -> (r: Result<Option<Pairing>, ArenaError>)
        requires
            old(self).well_formed(),
            col.well_formed(),
        ensures
            final(self).well_formed(),
            final(self).capacity() == old(self).capacity(),
            old(self).filled() >= old(self).capacity() ==> {
                &&& r == Err::<Option<Pairing>, ArenaError>(ArenaError::TooManyColumns)
                &&& final(self).filled() == old(self).filled()
                &&& final(self).low() == old(self).low()
            },
            old(self).filled() < old(self).capacity() ==> {
                let red = reduce_spec(old(self).low(), col.entries());
                let idx = old(self).filled() as usize;
                &&& final(self).filled() == old(self).filled() + 1
                &&& match pivot_of(red) {
                    Some(p) => r == Ok::<Option<Pairing>, ArenaError>(Some((p, idx)))
                        && !old(self).low().contains_key(p)
                        && final(self).low() == old(self).low().insert(p, red),
                    None => r == Ok::<Option<Pairing>, ArenaError>(None) && final(self).low()
                        == old(self).low(),
                }
            },
    {
        if self.slots.len() >= self.len {
            return Err(ArenaError::TooManyColumns);
        }
        let idx = self.slots.len();
        let ghost low = self.low();
        let mut col = col;
        proof {
            col.lemma_finite();
            assert(low_ok(low));
            lemma_reduce_spec(low, col.entries());
        }
        let ghost target = reduce_spec(low, col.entries());
        // Add the column owning the current pivot until none owns it.
        loop
            invariant
                arena_ok(self.slot_of@, self.slots@),
                low == arena_low(self.slot_of@, self.slots@),
                low_ok(low),
                col.well_formed(),
                col.entries().finite(),
                reduce_spec(low, col.entries()) == target,
            ensures
                col.well_formed(),
                col.entries() == target,
            decreases pivot_measure(col.entries()),
        {
            let lower = match col.pivot() {
                Some(p) => self.slot_of.get(&p),
                None => None,
            };
            match lower {
                Some(slot) => {
                    let ghost c0 = col.entries();
                    let ghost p = pivot_of(c0)->0;
                    proof {
                        lemma_step_lowers_pivot(c0, low[p], p);
                    }
                    col.add_col(&self.slots[*slot]);
                }
                None => {
                    assert(!can_step(low, col.entries()));
                    break;
                }
            }
        }
        let pivot = col.pivot();
        proof {
            col.lemma_finite();
        }
        self.slots.push(col);
        match pivot {
            Some(p) => {
                self.slot_of.insert(p, idx);
                assert(self.low() =~= low.insert(p, target));
                Ok(Some((p, idx)))
            }
            None => {
                assert(self.low() =~= low);
                Ok(None)
            }
        }
    }
}

/// Reduces the columns in a `SlotArena` of `len` slots. Fails before any
/// work unless there is exactly one slot per column.
pub fn unsafe_persuit<C: Column>(cols: Vec<C>, len: usize) -> (r: Result<Vec<Pairing>, ArenaError>)
    requires
        forall|i: int| 0 <= i < cols@.len() ==> (#[trigger] cols@[i]).well_formed(),
    ensures
        r matches Ok(v) ==> arena_result(entries_of(cols@), len) == Ok::<Seq<Pairing>, ArenaError>(v@),
        r matches Err(e) ==> arena_result(entries_of(cols@), len) == Err::<Seq<Pairing>, ArenaError>(e),
{
    if cols.len() > len {
        return Err(ArenaError::TooManyColumns);
    }
    if cols.len() < len {
        return Err(ArenaError::TooFewColumns);
    }
    let ghost es = entries_of(cols@);
    let ghost n = cols@.len();
    let mut stack = reversed(cols);
    let mut arena: SlotArena<C> = SlotArena::new(len);
    let mut pairings: Vec<Pairing> = Vec::new();
    assert(es.take(0) =~= Seq::<Set<usize>>::empty());
    while stack.len() > 0
        invariant
            es.len() == n,
            n == len,
            arena.capacity() == len,
            arena.filled() + stack@.len() == n,
            forall|i: int| 0 <= i < stack@.len() ==> (#[trigger] stack@[i]).well_formed()
                && stack@[i].entries() == es[n - 1 - i],
            arena.well_formed(),
            arena.low() == run(es.take(arena.filled() as int)).0,
            pairings@ == run(es.take(arena.filled() as int)).1,
        decreases stack@.len(),
    {
        let ghost k = stack@.len() - 1;
        let ghost idx = arena.filled() as int;
        let col = stack.pop().unwrap();
        assert(col == stack@.push(col)[k]);
        proof {
            lemma_run_step(es, idx);
        }
        match arena.reduce_next(col) {
            Ok(Some(pairing)) => {
                pairings.push(pairing);
            }
            _ => {}
        }
    }
    assert(es.take(n as int) =~= es);
    Ok(pairings)
}

/// Like `unsafe_persuit`, but each reduced column is moved into the pivot
/// map itself, which owns it from then on.
pub fn unsafe_persuit_v2<C: Column>(cols: Vec<C>, len: usize) -> (r: Result<Vec<Pairing>, ArenaError>)
    requires
        forall|i: int| 0 <= i < cols@.len() ==> (#[trigger] cols@[i]).well_formed(),
    ensures
        r matches Ok(v) ==> arena_result(entries_of(cols@), len) == Ok::<Seq<Pairing>, ArenaError>(v@),
        r matches Err(e) ==> arena_result(entries_of(cols@), len) == Err::<Seq<Pairing>, ArenaError>(e),
{
    if cols.len() > len {
        return Err(ArenaError::TooManyColumns);
    }
    if cols.len() < len {
        return Err(ArenaError::TooFewColumns);
    }
    let ghost es = entries_of(cols@);
    let ghost n = cols@.len();
    let mut stack = reversed(cols);
    let mut algo: StandardAlgo<C> = StandardAlgo::new();
    let mut pairings: Vec<Pairing> = Vec::new();
    let mut idx: usize = 0;
    assert(es.take(0) =~= Seq::<Set<usize>>::empty());
    while stack.len() > 0
        invariant
            es.len() == n,
            n == len,
            idx + stack@.len() == n,
            forall|i: int| 0 <= i < stack@.len() ==> (#[trigger] stack@[i]).well_formed()
                && stack@[i].entries() == es[n - 1 - i],
            algo.well_formed(),
            algo.low() == run(es.take(idx as int)).0,
            pairings@ == run(es.take(idx as int)).1,
        decreases stack@.len(),
    {
        let ghost k = stack@.len() - 1;
        let col = stack.pop().unwrap();
        assert(col == stack@.push(col)[k]);
        proof {
            lemma_run_step(es, idx as int);
        }
        match algo.next((idx, col)) {
            Some(pairing) => {
                pairings.push(pairing);
            }
            None => {}
        }
        idx += 1;
    }
    assert(es.take(idx as int) =~= es);
    Ok(pairings)
}

} // verus!

verus! {

/// With as many slots as columns, the arena pipeline gives exactly the
/// pairings of the serial reduction, in the same order.
pub proof fn lemma_backends_agree(cols: Seq<Set<usize>>)
    requires
        cols.len() <= usize::MAX,
    ensures
        arena_result(cols, cols.len() as usize) == Ok::<Seq<Pairing>, ArenaError>(pairings_of(cols)),
{
}

} // verus!
