use vstd::prelude::*;
use crate::column::{Column, elems, is_max, lemma_elems_finite, lemma_elems_take_step, lemma_pivot_of, sym_diff};

verus! {

/// Indices in strictly ascending order.
pub open spec fn strictly_ascending(s: Seq<usize>) -> bool {
    forall|i: int, j: int| 0 <= i < j < s.len() ==> s[i] < s[j]
}

/// `s` with `e` toggled: removed if present, added if absent.
pub open spec fn toggle(s: Set<usize>, e: usize) -> Set<usize> {
    if s.contains(e) { s.remove(e) } else { s.insert(e) }
}

/// Removing the element at `i` of an ascending sequence, equal to `e`,
/// toggles `e` off.
proof fn lemma_remove_toggles(s0: Seq<usize>, i: int, e: usize)
    requires
        strictly_ascending(s0),
        0 <= i < s0.len(),
        s0[i] == e,
    ensures
        strictly_ascending(s0.remove(i)),
        elems(s0.remove(i)) == toggle(elems(s0), e),
{
    let s1 = s0.remove(i);
    assert(s0.contains(e));
    assert forall|x: usize| s1.contains(x) <==> s0.contains(x) && x != e by {
        if s1.contains(x) {
            let k = choose|k: int| 0 <= k < s1.len() && s1[k] == x;
            if k < i {
                assert(s0[k] == x);
            } else {
                assert(s0[k + 1] == x);
                assert(s0[i] < s0[k + 1]);
            }
        }
        if s0.contains(x) && x != e {
            let k = choose|k: int| 0 <= k < s0.len() && s0[k] == x;
            if k < i {
                assert(s1[k] == x);
            } else {
                assert(k != i);
                assert(s1[k - 1] == x);
            }
        }
    }
    assert(elems(s1) =~= toggle(elems(s0), e));
}

/// Inserting `e` at `i` of an ascending sequence, where everything before `i`
/// is smaller and the element at `i` (if any) larger, toggles `e` on.
proof fn lemma_insert_toggles(s0: Seq<usize>, i: int, e: usize)
    requires
        strictly_ascending(s0),
        0 <= i <= s0.len(),
        forall|j: int| 0 <= j < i ==> s0[j] < e,
        i < s0.len() ==> e < s0[i],
    ensures
        strictly_ascending(s0.insert(i, e)),
        elems(s0.insert(i, e)) == toggle(elems(s0), e),
{
    let s1 = s0.insert(i, e);
    assert(!s0.contains(e)) by {
        if s0.contains(e) {
            let k = choose|k: int| 0 <= k < s0.len() && s0[k] == e;
            if k >= i {
                assert(s0[i] <= s0[k]);
            }
        }
    }
    assert forall|x: usize| s1.contains(x) <==> s0.contains(x) || x == e by {
        if s1.contains(x) {
            let k = choose|k: int| 0 <= k < s1.len() && s1[k] == x;
            if k < i {
                assert(s0[k] == x);
            } else if k > i {
                assert(s0[k - 1] == x);
            }
        }
        if s0.contains(x) {
            let k = choose|k: int| 0 <= k < s0.len() && s0[k] == x;
            if k < i {
                assert(s1[k] == x);
            } else {
                assert(s1[k + 1] == x);
            }
        }
        if x == e {
            assert(s1[i] == x);
        }
    }
    assert forall|a: int, b: int| 0 <= a < b < s1.len() implies s1[a] < s1[b] by {
        if b < i {
        } else if b == i {
        } else if a < i {
            assert(s0[a] < e && e < s0[i] && s0[i] <= s0[b - 1]);
        } else if a == i {
            assert(s0[i] <= s0[b - 1]);
        }
    }
    assert(elems(s1) =~= toggle(elems(s0), e));
}

/// Whether `v` is in strictly ascending order, as `VecColumn` needs.
pub fn is_strictly_ascending(v: &Vec<usize>) -> (r: bool)
    ensures
        r == strictly_ascending(v@),
{
    let mut i: usize = 1;
    if v.len() == 0 {
        return true;
    }
    while i < v.len()
        invariant
            1 <= i <= v@.len(),
            forall|a: int, b: int| 0 <= a < b < i ==> v@[a] < v@[b],
        decreases v@.len() - i,
    {
        if v[i - 1] >= v[i] {
            return false;
        }
        proof {
            assert forall|a: int, b: int| 0 <= a < b < i + 1 implies v@[a] < v@[b] by {
                if b == i && a < i - 1 {
                    assert(v@[a] < v@[i - 1]);
                }
            }
        }
        i += 1;
    }
    true
}

/// A column stored as the ascending sequence of its indices.
pub struct VecColumn {
    col: Vec<usize>,
}

impl VecColumn {
    /// The indices, in order.
    pub closed spec fn view(&self) -> Seq<usize> {
        self.col@
    }

    /// The indices, in order.
    pub fn col(&self) -> (r: &Vec<usize>)
        ensures
            r@ == self@,
    {
        &self.col
    }

    /// Builds a column from indices given in strictly ascending order.
    pub fn from_sparse_col(sparse_col: Vec<usize>) -> (r: Self)
        requires
            strictly_ascending(sparse_col@),
        ensures
            r.well_formed(),
            r@ == sparse_col@,
    {
        VecColumn { col: sparse_col }
    }

    /// Toggles `entry`, scanning forward from `starting_idx`; returns the
    /// position from which the next, larger entry should be scanned.
    pub fn add_entry(&mut self, entry: usize, starting_idx: usize) -> (r: usize)
        requires
            strictly_ascending(old(self)@),
            starting_idx <= old(self)@.len(),
            forall|i: int| 0 <= i < starting_idx ==> old(self)@[i] < entry,
        ensures
            strictly_ascending(final(self)@),
            elems(final(self)@) == toggle(elems(old(self)@), entry),
            starting_idx <= r <= final(self)@.len(),
            forall|i: int| 0 <= i < r ==> final(self)@[i] <= entry,
    {
        let ghost s0 = self.col@;
        let mut working_idx: usize = starting_idx;
        while working_idx < self.col.len()
            invariant
                self.col@ == s0,
                s0 == old(self)@,
                strictly_ascending(s0),
                starting_idx <= working_idx <= s0.len(),
                forall|i: int| 0 <= i < working_idx ==> s0[i] < entry,
            decreases s0.len() - working_idx,
        {
            let value_at_idx = self.col[working_idx];
            if value_at_idx < entry {
                working_idx += 1;
            } else if value_at_idx == entry {
                self.col.remove(working_idx);
                proof { lemma_remove_toggles(s0, working_idx as int, entry); }
                return working_idx;
            } else {
                self.col.insert(working_idx, entry);
                proof { lemma_insert_toggles(s0, working_idx as int, entry); }
                return working_idx + 1;
            }
        }
        // Larger than every index in the column: append.
        self.col.push(entry);
        proof {
            assert(s0.push(entry) =~= s0.insert(s0.len() as int, entry));
            lemma_insert_toggles(s0, s0.len() as int, entry);
        }
        self.col.len() - 1
    }
}

impl Column for VecColumn {
    open spec fn entries(&self) -> Set<usize> {
        elems(self@)
    }

    open spec fn well_formed(&self) -> bool {
        strictly_ascending(self@)
    }

    proof fn lemma_finite(&self) {
        lemma_elems_finite(self@);
    }

    fn pivot(&self) -> (r: Option<usize>) {
        proof {
            self.lemma_finite();
            lemma_pivot_of(self.entries());
        }
        if self.col.len() == 0 {
            assert(self.entries() =~= Set::empty());
            None
        } else {
            let last = self.col[self.col.len() - 1];
            proof {
                let s = self@;
                assert(s[s.len() - 1] == last);
                assert forall|x: usize| self.entries().contains(x) implies x <= last by {
                    let k = choose|k: int| 0 <= k < s.len() && s[k] == x;
                    if k < s.len() - 1 {
                        assert(s[k] < s[s.len() - 1]);
                    }
                }
                assert(is_max(self.entries(), last));
            }
            Some(last)
        }
    }

    fn add_col(&mut self, other: &Self) {
        let ghost start = elems(self@);
        let mut working_idx: usize = 0;
        let mut k: usize = 0;
        while k < other.col.len()
            invariant
                strictly_ascending(other@),
                strictly_ascending(self@),
                working_idx <= self@.len(),
                k <= other@.len(),
                elems(self@) == sym_diff(start, elems(other@.take(k as int))),
                k < other@.len() ==> forall|i: int| 0 <= i < working_idx ==> self@[i] < other@[k as int],
            decreases other@.len() - k,
        {
            let entry = other.col[k];
            let ghost before = elems(self@);
            working_idx = self.add_entry(entry, working_idx);
            proof {
                let o = other@;
                let k1: int = k + 1;
                assert(!elems(o.take(k as int)).contains(entry)) by {
                    if elems(o.take(k as int)).contains(entry) {
                        let j = choose|j: int| 0 <= j < k && o.take(k as int)[j] == entry;
                        assert(o[j] < o[k as int]);
                    }
                }
                lemma_elems_take_step(o, k as int);
                assert(elems(self@) =~= sym_diff(start, elems(o.take(k1))));
                if k + 1 < o.len() {
                    assert(o[k as int] < o[k + 1]);
                }
            }
            k += 1;
        }
        assert(other@.take(k as int) =~= other@);
    }
}

} // verus!
