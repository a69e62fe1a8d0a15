//! The permutation a cube carries, split into disjoint cycles.
//!
//! Slot `v` holds the piece that started in slot `c[v].0`; a cycle follows that
//! map from a slot until it comes back to it.

use vstd::prelude::*;
use vstd::set_lib::{lemma_int_range, lemma_len_subset, set_int_range};
use crate::cube::{valid_state, Cube, Piece};

verus! {

/// A closed loop of slots: each slot's piece started in the slot that follows
/// it, and the last slot's piece started in the first.
#[derive(Debug, PartialEq, Eq)]
pub struct Cycle(pub Vec<usize>);

impl View for Cycle {
    type V = Seq<usize>;

    open spec fn view(&self) -> Seq<usize> {
        self.0@
    }
}

/// The slot sequences of a list of cycles.
pub open spec fn cycle_seqs(cycles: Seq<Cycle>) -> Seq<Seq<usize>> {
    Seq::new(cycles.len(), |j: int| cycles[j]@)
}

/// `cyc` starts at some slot and follows the cube's permutation, without
/// repeating a slot, up to the slot whose piece started in the first one. Its
/// first slot is its least.
pub open spec fn is_cycle_of(c: Seq<Piece>, cyc: Seq<usize>) -> bool {
    &&& cyc.len() >= 1
    &&& forall|k: int| 0 <= k < cyc.len() ==> (#[trigger] cyc[k]) < 27
    &&& forall|k: int| 0 <= k < cyc.len() - 1 ==> (#[trigger] cyc[k + 1]) == c[cyc[k] as int].0
    &&& c[cyc.last() as int].0 == cyc[0]
    &&& cyc.no_duplicates()
    &&& forall|k: int| 0 < k < cyc.len() ==> cyc[0] < (#[trigger] cyc[k])
}

/// Some cycle of `cycles` holds `slot`.
pub open spec fn covered(cycles: Seq<Seq<usize>>, slot: usize) -> bool {
    exists|j: int| 0 <= j < cycles.len() && (#[trigger] cycles[j]).contains(slot)
}

/// `cycles` is the cycle decomposition of the permutation of `c`: each is a
/// cycle, no slot stands in two of them, every slot stands in one, and they
/// are listed by their first slots in rising order.
pub open spec fn is_cycle_decomposition(c: Seq<Piece>, cycles: Seq<Seq<usize>>) -> bool {
    &&& forall|j: int| 0 <= j < cycles.len() ==> is_cycle_of(c, #[trigger] cycles[j])
    &&& forall|j1: int, j2: int|
        0 <= j1 < j2 < cycles.len() ==> (#[trigger] cycles[j1]).disjoint(#[trigger] cycles[j2])
    &&& forall|slot: usize| slot < 27 ==> #[trigger] covered(cycles, slot)
    &&& forall|j1: int, j2: int|
        0 <= j1 < j2 < cycles.len() ==> (#[trigger] cycles[j1])[0] < (#[trigger] cycles[j2])[0]
}

/// The cycle decomposition of the permutation of `c`.
pub open spec fn cycles_of(c: Seq<Piece>) -> Seq<Seq<usize>> {
    choose|cycles: Seq<Seq<usize>>| is_cycle_decomposition(c, cycles)
}

/// Two cycles of one cube that start at the same slot agree as far as both
/// reach.
proof fn lemma_cycles_agree(c: Seq<Piece>, x: Seq<usize>, y: Seq<usize>, k: int)
    requires
        is_cycle_of(c, x),
        is_cycle_of(c, y),
        x[0] == y[0],
        0 <= k < x.len(),
        k < y.len(),
    ensures
        x[k] == y[k],
    decreases k,
{
    if k > 0 {
        lemma_cycles_agree(c, x, y, k - 1);
        assert(x[(k - 1) + 1] == c[x[k - 1] as int].0);
        assert(y[(k - 1) + 1] == c[y[k - 1] as int].0);
    }
}

/// Two cycles of one cube that start at the same slot are the same cycle.
proof fn lemma_cycles_equal(c: Seq<Piece>, x: Seq<usize>, y: Seq<usize>)
    requires
        is_cycle_of(c, x),
        is_cycle_of(c, y),
        x[0] == y[0],
    ensures
        x == y,
{
    if x.len() < y.len() {
        let n = x.len() as int;
        lemma_cycles_agree(c, x, y, n - 1);
        assert(y[(n - 1) + 1] == c[y[n - 1] as int].0);
        assert(y[n] == y[0]);
    } else if y.len() < x.len() {
        let n = y.len() as int;
        lemma_cycles_agree(c, x, y, n - 1);
        assert(x[(n - 1) + 1] == c[x[n - 1] as int].0);
        assert(x[n] == x[0]);
    } else {
        assert forall|k: int| 0 <= k < x.len() implies x[k] == y[k] by {
            lemma_cycles_agree(c, x, y, k);
        }
        assert(x =~= y);
    }
}

/// Where two decompositions of one cube agree on their first `j` cycles, the
/// next cycle of one does not start below the next cycle of the other.
proof fn lemma_next_start(c: Seq<Piece>, a: Seq<Seq<usize>>, b: Seq<Seq<usize>>, j: int)
    requires
        is_cycle_decomposition(c, a),
        is_cycle_decomposition(c, b),
        0 <= j < a.len(),
        j < b.len(),
        forall|t: int| 0 <= t < j ==> a[t] == b[t],
    ensures
        a[j][0] >= b[j][0],
{
    let x = a[j][0];
    assert(is_cycle_of(c, a[j]));
    assert(is_cycle_of(c, b[j]));
    if x < b[j][0] {
        assert(covered(b, x));
        let t = choose|t: int| 0 <= t < b.len() && (#[trigger] b[t]).contains(x);
        let k = choose|k: int| 0 <= k < b[t].len() && b[t][k] == x;
        assert(is_cycle_of(c, b[t]));
        if t < j {
            assert(a[t] == b[t]);
            assert(a[t].disjoint(a[j]));
            assert(a[t][k] != a[j][0]);
        } else if t > j {
            assert(b[j][0] < b[t][0]);
        }
    }
}

/// Two decompositions of one cube agree on their first `j` cycles.
proof fn lemma_decompositions_agree(c: Seq<Piece>, a: Seq<Seq<usize>>, b: Seq<Seq<usize>>, j: int)
    requires
        is_cycle_decomposition(c, a),
        is_cycle_decomposition(c, b),
        0 <= j <= a.len(),
        j <= b.len(),
    ensures
        forall|t: int| 0 <= t < j ==> a[t] == b[t],
    decreases j,
{
    if j > 0 {
        lemma_decompositions_agree(c, a, b, j - 1);
        lemma_next_start(c, a, b, j - 1);
        lemma_next_start(c, b, a, j - 1);
        assert(is_cycle_of(c, a[j - 1]));
        assert(is_cycle_of(c, b[j - 1]));
        lemma_cycles_equal(c, a[j - 1], b[j - 1]);
    }
}

/// With all cycles of `a` among the cycles of `b`, in the same places, `b` has
/// no further cycle.
proof fn lemma_no_further_cycle(c: Seq<Piece>, a: Seq<Seq<usize>>, b: Seq<Seq<usize>>)
    requires
        is_cycle_decomposition(c, a),
        is_cycle_decomposition(c, b),
        a.len() <= b.len(),
        forall|t: int| 0 <= t < a.len() ==> a[t] == b[t],
    ensures
        a.len() == b.len(),
{
    if a.len() < b.len() {
        let n = a.len() as int;
        assert(is_cycle_of(c, b[n]));
        let y = b[n][0];
        assert(covered(a, y));
        let t = choose|t: int| 0 <= t < a.len() && (#[trigger] a[t]).contains(y);
        let k = choose|k: int| 0 <= k < a[t].len() && a[t][k] == y;
        assert(a[t] == b[t]);
        assert(b[t].disjoint(b[n]));
        assert(b[t][k] != b[n][0]);
    }
}

/// A cube has one cycle decomposition only.
pub proof fn lemma_decomposition_unique(c: Seq<Piece>, a: Seq<Seq<usize>>, b: Seq<Seq<usize>>)
    requires
        is_cycle_decomposition(c, a),
        is_cycle_decomposition(c, b),
    ensures
        a == b,
{
    if a.len() <= b.len() {
        lemma_decompositions_agree(c, a, b, a.len() as int);
        lemma_no_further_cycle(c, a, b);
    } else {
        lemma_decompositions_agree(c, a, b, b.len() as int);
        lemma_no_further_cycle(c, b, a);
    }
    assert(a =~= b);
}

/// At most 27 different slots exist.
proof fn lemma_distinct_slots_bounded(s: Seq<usize>)
    requires
        s.no_duplicates(),
        forall|k: int| 0 <= k < s.len() ==> (#[trigger] s[k]) < 27,
    ensures
        s.len() <= 27,
{
    let t = s.map_values(|x: usize| x as int);
    assert forall|i: int, j: int| 0 <= i < t.len() && 0 <= j < t.len() && i != j implies t[i]
        != t[j] by {
        assert(s[i] != s[j]);
    }
    t.unique_seq_to_set();
    lemma_int_range(0, 27);
    assert forall|x: int| t.to_set().contains(x) implies set_int_range(0, 27).contains(x) by {
        let k = choose|k: int| 0 <= k < t.len() && t[k] == x;
        assert(s[k] < 27);
    }
    lemma_len_subset(t.to_set(), set_int_range(0, 27));
}

/// Adding one cycle to a list adds its slots to those covered.
proof fn lemma_covered_push(cycles: Seq<Seq<usize>>, cyc: Seq<usize>, slot: usize)
    ensures
        covered(cycles.push(cyc), slot) <==> covered(cycles, slot) || cyc.contains(slot),
{
    let more = cycles.push(cyc);
    if covered(cycles, slot) {
        let j = choose|j: int| 0 <= j < cycles.len() && (#[trigger] cycles[j]).contains(slot);
        assert(more[j].contains(slot));
    }
    if cyc.contains(slot) {
        assert(more[cycles.len() as int].contains(slot));
    }
    if covered(more, slot) {
        let j = choose|j: int| 0 <= j < more.len() && (#[trigger] more[j]).contains(slot);
        if j < cycles.len() {
            assert(cycles[j].contains(slot));
        }
    }
}

/// A slot whose piece started in a covered slot is itself covered: cycles are
/// closed under the cube's permutation, taken backwards.
proof fn lemma_covered_closed(c: Seq<Piece>, cycles: Seq<Seq<usize>>, v: usize)
    requires
        valid_state(c),
        v < 27,
        forall|j: int| 0 <= j < cycles.len() ==> is_cycle_of(c, #[trigger] cycles[j]),
        covered(cycles, c[v as int].0 as usize),
    ensures
        covered(cycles, v),
{
    let next = c[v as int].0 as usize;
    let j = choose|j: int| 0 <= j < cycles.len() && (#[trigger] cycles[j]).contains(next);
    let cyc = cycles[j];
    assert(is_cycle_of(c, cyc));
    let k = choose|k: int| 0 <= k < cyc.len() && cyc[k] == next;
    let prev = if k == 0 {
        cyc.last()
    } else {
        cyc[k - 1]
    };
    assert(prev < 27);
    assert(c[prev as int].0 == next) by {
        if k > 0 {
            assert(cyc[(k - 1) + 1] == c[cyc[k - 1] as int].0);
        }
    }
    if prev != v {
        if prev < v {
            assert(c[prev as int].0 != c[v as int].0);
        } else {
            assert(c[v as int].0 != c[prev as int].0);
        }
    }
    assert(cyc.contains(v));
}

impl Cube {
    /// The cycles of the cube's permutation. Each starts at the lowest slot not
    /// in an earlier cycle.
    pub fn extract_cycles(&self) -> (cycles: Vec<Cycle>)
        requires
            self.wf(),
        ensures
            is_cycle_decomposition(self@, cycle_seqs(cycles@)),
            cycle_seqs(cycles@) == cycles_of(self@),
    {
        let mut visited: [bool; 27] = [false; 27];
        let mut acc: Vec<Cycle> = Vec::new();
        let mut start: usize = 0;
        while start < 27
            invariant
                start <= 27,
                self.wf(),
                forall|j: int|
                    0 <= j < acc.len() ==> is_cycle_of(self@, #[trigger] cycle_seqs(acc@)[j]),
                forall|j1: int, j2: int|
                    0 <= j1 < j2 < acc.len() ==> (#[trigger] cycle_seqs(acc@)[j1]).disjoint(
                        #[trigger] cycle_seqs(acc@)[j2],
                    ),
                forall|j1: int, j2: int|
                    0 <= j1 < j2 < acc.len() ==> (#[trigger] cycle_seqs(acc@)[j1])[0]
                        < (#[trigger] cycle_seqs(acc@)[j2])[0],
                forall|j: int| 0 <= j < acc.len() ==> (#[trigger] cycle_seqs(acc@)[j])[0] < start,
                forall|slot: usize|
                    slot < 27 ==> (visited@[slot as int] <==> #[trigger] covered(
                        cycle_seqs(acc@),
                        slot,
                    )),
                forall|slot: usize| slot < start ==> visited@[slot as int],
            decreases 27 - start,
        {
            if !visited[start] {
                let ghost done = cycle_seqs(acc@);
                let mut v: usize = start;
                visited[v] = true;
                let mut cycle: Vec<usize> = Vec::new();
                cycle.push(v);
                assert(cycle@.contains(start)) by {
                    assert(cycle@[0] == start);
                }
                while self.piece(v).0 as usize != start
                    invariant
                        start < 27,
                        v < 27,
                        self.wf(),
                        done == cycle_seqs(acc@),
                        forall|j: int| 0 <= j < done.len() ==> is_cycle_of(self@, #[trigger] done[j]),
                        cycle.len() >= 1,
                        cycle@[0] == start,
                        cycle@.last() == v,
                        forall|k: int| 0 <= k < cycle.len() ==> (#[trigger] cycle@[k]) < 27,
                        forall|k: int|
                            0 <= k < cycle.len() - 1 ==> (#[trigger] cycle@[k + 1])
                                == self@[cycle@[k] as int].0,
                        cycle@.no_duplicates(),
                        forall|k: int| 0 <= k < cycle.len() ==> !covered(done, #[trigger] cycle@[k]),
                        forall|slot: usize|
                            slot < 27 ==> (visited@[slot as int] <==> #[trigger] covered(done, slot)
                                || cycle@.contains(slot)),
                        forall|slot: usize| slot < start ==> covered(done, slot),
                    decreases 27 - cycle.len(),
                {
                    let ghost prev = v;
                    let ghost so_far = cycle@;
                    v = self.piece(v).0 as usize;
                    proof {
                        if covered(done, v) {
                            lemma_covered_closed(self@, done, prev);
                        }
                        assert forall|k: int| 0 <= k < so_far.len() implies so_far[k] != v by {
                            if k > 0 {
                                let before = so_far[k - 1];
                                assert(so_far[(k - 1) + 1] == self@[before as int].0);
                                assert(before != prev);
                                if before < prev {
                                    assert(self@[before as int].0 != self@[prev as int].0);
                                } else {
                                    assert(self@[prev as int].0 != self@[before as int].0);
                                }
                            }
                        }
                    }
                    visited[v] = true;
                    cycle.push(v);
                    proof {
                        assert forall|slot: usize| cycle@.contains(slot) <==> so_far.contains(slot)
                            || slot == v by {
                            if so_far.contains(slot) {
                                let k = choose|k: int| 0 <= k < so_far.len() && so_far[k] == slot;
                                assert(cycle@[k] == slot);
                            }
                            if slot == v {
                                assert(cycle@[so_far.len() as int] == slot);
                            }
                        }
                        assert forall|k: int| 0 <= k < cycle.len() - 1 implies (#[trigger] cycle@[k
                            + 1]) == self@[cycle@[k] as int].0 by {
                            if k < so_far.len() - 1 {
                                assert(so_far[k + 1] == self@[so_far[k] as int].0);
                            }
                        }
                        lemma_distinct_slots_bounded(cycle@);
                    }
                }
                proof {
                    assert forall|k: int| 0 < k < cycle.len() implies cycle@[0] < (
                    #[trigger] cycle@[k]) by {
                        assert(!covered(done, cycle@[k]));
                    }
                    assert(is_cycle_of(self@, cycle@));
                }
                let ghost last = cycle@;
                acc.push(Cycle(cycle));
                proof {
                    let all = cycle_seqs(acc@);
                    assert(all =~= done.push(last));
                    assert forall|slot: usize| slot < 27 implies (visited@[slot as int]
                        <==> #[trigger] covered(all, slot)) by {
                        lemma_covered_push(done, last, slot);
                    }
                    assert forall|slot: usize| slot <= start implies visited@[slot as int] by {
                        if slot < start {
                            assert(covered(done, slot));
                        } else {
                            assert(last[0] == slot);
                        }
                    }
                    assert forall|j: int| 0 <= j < done.len() implies (#[trigger] done[j]).disjoint(
                        last,
                    ) && done[j][0] < last[0] by {
                        assert forall|k1: int, k2: int|
                            0 <= k1 < done[j].len() && 0 <= k2 < last.len() implies done[j][k1]
                            != last[k2] by {
                            if done[j][k1] == last[k2] {
                                assert(done[j].contains(last[k2]));
                                assert(covered(done, last[k2]));
                            }
                        }
                    }
                }
            }
            start += 1;
        }
        proof {
            let all = cycle_seqs(acc@);
            assert(is_cycle_decomposition(self@, all));
            lemma_decomposition_unique(self@, all, cycles_of(self@));
        }
        acc
    }
}

} // verus!
