//! From cycles to pairwise field moves in the packed state.
//!
//! Each movable slot owns a 5-bit field of the 128-bit state. A transposition
//! `(offset, delta)` says: the field at bit `offset` moves by `delta` bits, to
//! the left where `delta` is positive and to the right where it is negative.

use vstd::prelude::*;
use crate::cube::{is_corner_slot, is_edge_slot, is_movable_slot, valid_state, Cube, Piece};
use crate::cycles::{cycle_seqs, cycles_of, is_cycle_decomposition, is_cycle_of, Cycle};

verus! {

/// A pairwise field move: the bit offset of the source field, and the signed
/// distance to its destination.
pub type Transposition = (usize, isize);

/// Every source field starts inside the word, and every distance is shorter
/// than the word.
pub open spec fn valid_transpositions(trans: Seq<Transposition>) -> bool {
    forall|k: int|
        0 <= k < trans.len() ==> (#[trigger] trans[k]).0 < 128 && -128 < trans[k].1 < 128
}

/// The bit offset of the field of `slot`. Corners take 5 bits each from bit 64
/// up, edges 5 bits each from bit 0 up, both in falling slot order. A slot
/// without a field gets -1.
pub open spec fn bit_position(slot: int) -> int {
    if slot == 0 {
        99
    } else if slot == 2 {
        94
    } else if slot == 6 {
        89
    } else if slot == 8 {
        84
    } else if slot == 18 {
        79
    } else if slot == 20 {
        74
    } else if slot == 24 {
        69
    } else if slot == 26 {
        64
    } else if slot == 1 {
        55
    } else if slot == 3 {
        50
    } else if slot == 5 {
        45
    } else if slot == 7 {
        40
    } else if slot == 9 {
        35
    } else if slot == 11 {
        30
    } else if slot == 15 {
        25
    } else if slot == 17 {
        20
    } else if slot == 19 {
        15
    } else if slot == 21 {
        10
    } else if slot == 23 {
        5
    } else if slot == 25 {
        0
    } else {
        -1
    }
}

/// The slots with a field are the corners and the edges; the fields lie inside
/// the word and no two of them share a bit.
pub proof fn lemma_bit_position(slot: int)
    requires
        0 <= slot < 27,
    ensures
        is_movable_slot(slot) <==> bit_position(slot) >= 0,
        is_corner_slot(slot) ==> 64 <= bit_position(slot) <= 99,
        is_edge_slot(slot) ==> 0 <= bit_position(slot) <= 55,
        forall|other: int|
            0 <= other < 27 && other != slot && is_movable_slot(other) && is_movable_slot(slot)
                ==> bit_position(other) + 5 <= bit_position(slot) || bit_position(slot) + 5
                <= #[trigger] bit_position(other),
{
}

/// The transposition that fills the field of `current` from the field of
/// `next`.
pub open spec fn pair_transposition(current: usize, next: usize) -> Transposition {
    (
        bit_position(next as int) as usize,
        (bit_position(current as int) - bit_position(next as int)) as isize,
    )
}

/// The index after `k` in a loop of `len` places.
pub open spec fn successor(k: int, len: nat) -> int {
    if k + 1 < len {
        k + 1
    } else {
        0
    }
}

/// The transpositions of one cycle: none for a fixed slot, else one for each
/// slot and its successor, the last slot's successor being the first.
pub open spec fn cycle_transpositions(cyc: Seq<usize>) -> Seq<Transposition> {
    if cyc.len() == 1 {
        Seq::empty()
    } else {
        Seq::new(cyc.len(), |k: int| pair_transposition(cyc[k], cyc[successor(k, cyc.len())]))
    }
}

/// The transpositions of the first `n` cycles, one cycle after the other.
pub open spec fn all_transpositions(cycles: Seq<Seq<usize>>, n: nat) -> Seq<Transposition>
    decreases n,
{
    if n == 0 {
        Seq::empty()
    } else {
        all_transpositions(cycles, (n - 1) as nat) + cycle_transpositions(cycles[n - 1])
    }
}

/// Every cycle that moves anything runs over slots that have a field.
pub open spec fn cycles_movable(cycles: Seq<Seq<usize>>) -> bool {
    forall|j: int, k: int|
        0 <= j < cycles.len() && 0 <= k < cycles[j].len() && cycles[j].len() >= 2
            ==> is_movable_slot(#[trigger] cycles[j][k] as int)
}

/// The bit offset of the field of slot `piece`.
pub fn bit_map(piece: usize) -> (offset: usize)
    requires
        piece < 27,
        is_movable_slot(piece as int),
    ensures
        offset == bit_position(piece as int),
        offset <= 99,
{
    proof {
        lemma_bit_position(piece as int);
    }
    if piece == 0 {
        64 + 5 * 7
    } else if piece == 2 {
        64 + 5 * 6
    } else if piece == 6 {
        64 + 5 * 5
    } else if piece == 8 {
        64 + 5 * 4
    } else if piece == 18 {
        64 + 5 * 3
    } else if piece == 20 {
        64 + 5 * 2
    } else if piece == 24 {
        64 + 5 * 1
    } else if piece == 26 {
        64 + 5 * 0
    } else if piece == 1 {
        5 * 11
    } else if piece == 3 {
        5 * 10
    } else if piece == 5 {
        5 * 9
    } else if piece == 7 {
        5 * 8
    } else if piece == 9 {
        5 * 7
    } else if piece == 11 {
        5 * 6
    } else if piece == 15 {
        5 * 5
    } else if piece == 17 {
        5 * 4
    } else if piece == 19 {
        5 * 3
    } else if piece == 21 {
        5 * 2
    } else if piece == 23 {
        5 * 1
    } else {
        5 * 0
    }
}

impl Cycle {
    /// The pairwise field moves that carry out this cycle.
    pub fn into_transposition(self) -> (trans: Vec<Transposition>)
        requires
            self@.len() >= 1,
            self@.len() >= 2 ==> forall|k: int|
                0 <= k < self@.len() ==> (#[trigger] self@[k]) < 27 && is_movable_slot(
                    self@[k] as int,
                ),
        ensures
            trans@ == cycle_transpositions(self@),
    {
        let mut trans: Vec<Transposition> = Vec::new();
        let len = self.0.len();
        if len == 1 {
            return trans;
        }
        let mut k: usize = 0;
        while k < len
            invariant
                k <= len,
                len == self@.len(),
                len >= 2,
                forall|k: int|
                    0 <= k < self@.len() ==> (#[trigger] self@[k]) < 27 && is_movable_slot(
                        self@[k] as int,
                    ),
                trans.len() == k,
                forall|i: int|
                    0 <= i < k ==> trans@[i] == pair_transposition(
                        self@[i],
                        self@[successor(i, len as nat)],
                    ),
            decreases len - k,
        {
            let a = self.0[k];
            let b = if k + 1 < len {
                self.0[k + 1]
            } else {
                self.0[0]
            };
            let f = bit_map(b);
            let g = bit_map(a);
            trans.push((f, g as isize - f as isize));
            k += 1;
        }
        assert(trans@ =~= cycle_transpositions(self@));
        trans
    }
}

/// The transposition of the `k`-th slot of the `j`-th cycle and its successor.
pub open spec fn pair_at(cycles: Seq<Seq<usize>>, j: int, k: int) -> Transposition {
    pair_transposition(cycles[j][k], cycles[j][successor(k, cycles[j].len())])
}

/// `t` is the transposition of some slot of one of the first `n` cycles, in a
/// cycle of two slots or more.
pub open spec fn is_pair(cycles: Seq<Seq<usize>>, n: nat, t: Transposition) -> bool {
    exists|j: int, k: int|
        0 <= j < n && cycles[j].len() >= 2 && 0 <= k < cycles[j].len() && t == #[trigger] pair_at(
            cycles,
            j,
            k,
        )
}

/// The transpositions of a list of cycles are those of the slots of its cycles
/// of two slots or more, all of them and no others.
pub proof fn lemma_all_transpositions(cycles: Seq<Seq<usize>>, n: nat)
    requires
        n <= cycles.len(),
    ensures
        forall|q: int|
            0 <= q < all_transpositions(cycles, n).len() ==> is_pair(
                cycles,
                n,
                #[trigger] all_transpositions(cycles, n)[q],
            ),
        forall|j: int, k: int|
            0 <= j < n && cycles[j].len() >= 2 && 0 <= k < cycles[j].len() ==> all_transpositions(
                cycles,
                n,
            ).contains(#[trigger] pair_at(cycles, j, k)),
    decreases n,
{
    if n > 0 {
        let m = (n - 1) as nat;
        let before = all_transpositions(cycles, m);
        let last = cycle_transpositions(cycles[n - 1]);
        let all = all_transpositions(cycles, n);
        lemma_all_transpositions(cycles, m);
        assert forall|q: int| 0 <= q < all.len() implies is_pair(cycles, n, #[trigger] all[q]) by {
            if q < before.len() {
                assert(is_pair(cycles, m, before[q]));
                let (j, k) = choose|j: int, k: int|
                    0 <= j < m && cycles[j].len() >= 2 && 0 <= k < cycles[j].len() && before[q]
                        == #[trigger] pair_at(cycles, j, k);
                assert(all[q] == pair_at(cycles, j, k));
            } else {
                assert(all[q] == pair_at(cycles, n - 1, q - before.len()));
            }
        }
        assert forall|j: int, k: int|
            0 <= j < n && cycles[j].len() >= 2 && 0 <= k < cycles[j].len() implies all.contains(
            #[trigger] pair_at(cycles, j, k),
        ) by {
            if j < m {
                let q = choose|q: int| 0 <= q < before.len() && before[q] == pair_at(cycles, j, k);
                assert(all[q] == pair_at(cycles, j, k));
            } else {
                assert(all[before.len() + k] == pair_at(cycles, j, k));
            }
        }
    }
}

/// In a reachable state only corners and edges leave their slots, so a cycle
/// of two slots or more runs over slots that have a field.
pub proof fn lemma_cycles_movable(c: Seq<Piece>, cycles: Seq<Seq<usize>>)
    requires
        valid_state(c),
        is_cycle_decomposition(c, cycles),
    ensures
        cycles_movable(cycles),
{
    assert forall|j: int, k: int|
        0 <= j < cycles.len() && 0 <= k < cycles[j].len() && cycles[j].len()
            >= 2 implies is_movable_slot(#[trigger] cycles[j][k] as int) by {
        let cyc = cycles[j];
        assert(is_cycle_of(c, cyc));
        let next = successor(k, cyc.len());
        assert(cyc[next] == c[cyc[k] as int].0) by {
            if k + 1 < cyc.len() {
                assert(cyc[k + 1] == c[cyc[k] as int].0);
            }
        }
        assert(cyc[next] != cyc[k]);
    }
}

/// What the transposition of a slot of a cycle is made of: the field of the
/// slot that the slot's piece came from, and the distance from there to the
/// slot's own field.
pub proof fn lemma_pair_facts(c: Seq<Piece>, cycles: Seq<Seq<usize>>, j: int, k: int)
    requires
        valid_state(c),
        is_cycle_decomposition(c, cycles),
        0 <= j < cycles.len(),
        cycles[j].len() >= 2,
        0 <= k < cycles[j].len(),
    ensures
        ({
            let cur = cycles[j][k] as int;
            let next = c[cur].0 as int;
            &&& 0 <= cur < 27
            &&& 0 <= next < 27
            &&& is_movable_slot(cur)
            &&& is_movable_slot(next)
            &&& next == cycles[j][successor(k, cycles[j].len())]
            &&& 0 <= bit_position(cur) <= 99
            &&& 0 <= bit_position(next) <= 99
            &&& bit_position(cur) != bit_position(next)
            &&& pair_at(cycles, j, k).0 == bit_position(next)
            &&& pair_at(cycles, j, k).1 == bit_position(cur) - bit_position(next)
        }),
{
    let cyc = cycles[j];
    let n = successor(k, cyc.len());
    assert(is_cycle_of(c, cyc));
    assert(cyc[n] == c[cyc[k] as int].0) by {
        if k + 1 < cyc.len() {
            assert(cyc[k + 1] == c[cyc[k] as int].0);
        }
    }
    assert(cyc[n] != cyc[k]);
    lemma_cycles_movable(c, cycles);
    assert(is_movable_slot(cycles[j][k] as int));
    assert(is_movable_slot(cycles[j][n] as int));
    lemma_bit_position(cyc[k] as int);
    lemma_bit_position(cyc[n] as int);
}

/// The transpositions of a reachable cube can be compiled: their fields lie
/// inside the word and their distances are shorter than it.
pub proof fn lemma_transpositions_valid(c: Seq<Piece>, cycles: Seq<Seq<usize>>)
    requires
        valid_state(c),
        is_cycle_decomposition(c, cycles),
    ensures
        valid_transpositions(all_transpositions(cycles, cycles.len())),
{
    let trans = all_transpositions(cycles, cycles.len());
    lemma_all_transpositions(cycles, cycles.len());
    assert forall|q: int| 0 <= q < trans.len() implies (#[trigger] trans[q]).0 < 128 && -128
        < trans[q].1 < 128 by {
        assert(is_pair(cycles, cycles.len(), trans[q]));
        let (j, k) = choose|j: int, k: int|
            0 <= j < cycles.len() && cycles[j].len() >= 2 && 0 <= k < cycles[j].len() && trans[q]
                == #[trigger] pair_at(cycles, j, k);
        lemma_pair_facts(c, cycles, j, k);
    }
}

impl Cube {
    /// The transpositions of all the cycles of the cube's permutation, one
    /// cycle after the other.
    pub fn transpositions(&self) -> (trans: Vec<Transposition>)
        requires
            self.wf(),
        ensures
            is_cycle_decomposition(self@, cycles_of(self@)),
            trans@ == all_transpositions(cycles_of(self@), cycles_of(self@).len()),
            valid_transpositions(trans@),
    {
        let cycles = self.extract_cycles();
        let ghost seqs = cycle_seqs(cycles@);
        proof {
            lemma_cycles_movable(self@, seqs);
        }
        let mut trans: Vec<Transposition> = Vec::new();
        for cycle in it: cycles
            invariant
                seqs == cycle_seqs(cycles@),
                is_cycle_decomposition(self@, seqs),
                cycles_movable(seqs),
                trans@ == all_transpositions(seqs, it.index() as nat),
        {
            let ghost j = it.index() as int;
            assert(cycle@ == seqs[j]);
            assert(is_cycle_of(self@, seqs[j]));
            assert forall|k: int| 0 <= k < cycle@.len() && cycle@.len() >= 2 implies (
            #[trigger] cycle@[k]) < 27 && is_movable_slot(cycle@[k] as int) by {
                assert(is_movable_slot(seqs[j][k] as int));
            }
            let mut part = cycle.into_transposition();
            trans.append(&mut part);
        }
        proof {
            lemma_transpositions_valid(self@, seqs);
        }
        trans
    }
}

} // verus!
