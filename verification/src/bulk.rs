//! One masked-shift transform for a whole list of transpositions, and its
//! application to a packed state.

use vstd::prelude::*;
use crate::bits::{
    bit, field_mask, lemma_bit_and, lemma_bit_field_mask, lemma_bit_not, lemma_bit_or,
    lemma_bit_shl, lemma_bit_shr, lemma_bit_zero,
};
use crate::transposition::{valid_transpositions, Transposition};

verus! {

/// The packed state of the solved cube: every field holds its own piece,
/// untwisted. Corners keep their number in the upper three bits of their
/// field, edges in the upper four.
pub const SOLVED: u128 =
    0b000000000000000000000000_00000_00100_01000_01100_10000_10100_11000_11100_0000_00000_00010_00100_00110_01000_01010_01100_01110_10000_10010_10100_10110;

/// A shift-and-mask transform of a packed state. The bits of `mask` are kept
/// where they are; each entry of `rshifts` and `lshifts` is a mask of source
/// fields and the distance they travel to the right or to the left.
#[derive(Debug, PartialEq, Eq)]
pub struct BulkOperation {
    pub mask: u128,
    pub rshifts: Vec<(u128, usize)>,
    pub lshifts: Vec<(u128, usize)>,
}

/// Every shift distance of `entries` is shorter than the word.
pub open spec fn shifts_in_word(entries: Seq<(u128, usize)>) -> bool {
    forall|p: int| 0 <= p < entries.len() ==> (#[trigger] entries[p]).1 < 128
}

impl BulkOperation {
    /// The shift distances can be carried out on a 128-bit word.
    pub open spec fn wf(&self) -> bool {
        shifts_in_word(self.rshifts@) && shifts_in_word(self.lshifts@)
    }
}

/// `delta` belongs to the left shifts (`left`) or to the right shifts.
pub open spec fn wanted(delta: isize, left: bool) -> bool {
    if left {
        delta > 0
    } else {
        delta < 0
    }
}

/// The distance of `delta`, without its direction.
pub open spec fn magnitude(delta: isize) -> usize {
    if delta < 0 {
        (-delta) as usize
    } else {
        delta as usize
    }
}

/// The union of the source fields of the first `n` transpositions.
pub open spec fn touched_mask(trans: Seq<Transposition>, n: nat) -> u128
    decreases n,
{
    if n == 0 {
        0
    } else {
        touched_mask(trans, (n - 1) as nat) | field_mask(trans[n - 1].0)
    }
}

/// The union of the source fields of those of the first `n` transpositions
/// that travel by `delta`.
pub open spec fn group_mask(trans: Seq<Transposition>, delta: isize, n: nat) -> u128
    decreases n,
{
    if n == 0 {
        0
    } else if trans[n - 1].1 == delta {
        group_mask(trans, delta, (n - 1) as nat) | field_mask(trans[n - 1].0)
    } else {
        group_mask(trans, delta, (n - 1) as nat)
    }
}

/// The different distances of one direction among the first `n`
/// transpositions, each where it first occurs.
pub open spec fn distinct_deltas(trans: Seq<Transposition>, left: bool, n: nat) -> Seq<isize>
    decreases n,
{
    if n == 0 {
        Seq::empty()
    } else {
        let prev = distinct_deltas(trans, left, (n - 1) as nat);
        let delta = trans[n - 1].1;
        if wanted(delta, left) && !prev.contains(delta) {
            prev.push(delta)
        } else {
            prev
        }
    }
}

/// The shift entries of one direction: one for each distance among the first
/// `n` transpositions, with the union of the source fields that travel by it
/// among the first `m`.
pub open spec fn shift_entries(trans: Seq<Transposition>, left: bool, n: nat, m: nat) -> Seq<
    (u128, usize),
> {
    let deltas = distinct_deltas(trans, left, n);
    Seq::new(deltas.len(), |p: int| (group_mask(trans, deltas[p], m), magnitude(deltas[p])))
}

/// `state` with the shifted parts of the first `n` entries or-ed into `acc`.
pub open spec fn or_shifted(
    acc: u128,
    state: u128,
    entries: Seq<(u128, usize)>,
    left: bool,
    n: nat,
) -> u128
    decreases n,
{
    if n == 0 {
        acc
    } else {
        let entry = entries[n - 1];
        let rest = or_shifted(acc, state, entries, left, (n - 1) as nat);
        if left {
            rest | ((state & entry.0) << entry.1)
        } else {
            rest | ((state & entry.0) >> entry.1)
        }
    }
}

/// The state that the transform `(mask, rshifts, lshifts)` makes of `state`:
/// the kept bits, then every right-shifted part, then every left-shifted part,
/// or-ed together.
pub open spec fn applied(
    state: u128,
    mask: u128,
    rshifts: Seq<(u128, usize)>,
    lshifts: Seq<(u128, usize)>,
) -> u128 {
    or_shifted(
        or_shifted(state & mask, state, rshifts, false, rshifts.len()),
        state,
        lshifts,
        true,
        lshifts.len(),
    )
}

/// Applies the transform `trans` to the packed state `cube`.
pub fn apply_transposition(cube: u128, trans: BulkOperation) -> (new_cube: u128)
    requires
        trans.wf(),
    ensures
        new_cube == applied(cube, trans.mask, trans.rshifts@, trans.lshifts@),
{
    let mut new_cube: u128 = cube & trans.mask;
    let mut p: usize = 0;
    while p < trans.rshifts.len()
        invariant
            p <= trans.rshifts.len(),
            trans.wf(),
            new_cube == or_shifted(cube & trans.mask, cube, trans.rshifts@, false, p as nat),
        decreases trans.rshifts.len() - p,
    {
        let (i, j) = trans.rshifts[p];
        let mut mask: u128 = cube & i;
        mask >>= j;
        new_cube |= mask;
        p += 1;
    }
    let ghost kept = new_cube;
    let mut p: usize = 0;
    while p < trans.lshifts.len()
        invariant
            p <= trans.lshifts.len(),
            trans.wf(),
            new_cube == or_shifted(kept, cube, trans.lshifts@, true, p as nat),
        decreases trans.lshifts.len() - p,
    {
        let (i, j) = trans.lshifts[p];
        let mut mask: u128 = cube & i;
        mask <<= j;
        new_cube |= mask;
        p += 1;
    }
    new_cube
}

/// The distances collected for one direction belong to it, none stands twice,
/// and every distance of that direction among the first `n` transpositions is
/// collected.
pub proof fn lemma_distinct_deltas(trans: Seq<Transposition>, left: bool, n: nat)
    requires
        n <= trans.len(),
    ensures
        distinct_deltas(trans, left, n).no_duplicates(),
        forall|p: int|
            0 <= p < distinct_deltas(trans, left, n).len() ==> wanted(
                #[trigger] distinct_deltas(trans, left, n)[p],
                left,
            ),
        forall|p: int|
            0 <= p < distinct_deltas(trans, left, n).len() ==> exists|k: int|
                0 <= k < n && (#[trigger] trans[k]).1 == #[trigger] distinct_deltas(trans, left, n)[p],
        forall|k: int|
            0 <= k < n && wanted((#[trigger] trans[k]).1, left) ==> distinct_deltas(
                trans,
                left,
                n,
            ).contains(trans[k].1),
    decreases n,
{
    if n > 0 {
        let prev = distinct_deltas(trans, left, (n - 1) as nat);
        let now = distinct_deltas(trans, left, n);
        let delta = trans[n - 1].1;
        lemma_distinct_deltas(trans, left, (n - 1) as nat);
        assert forall|p: int| 0 <= p < now.len() implies exists|k: int|
            0 <= k < n && (#[trigger] trans[k]).1 == #[trigger] now[p] by {
            if p < prev.len() {
                let k = choose|k: int| 0 <= k < n - 1 && (#[trigger] trans[k]).1 == prev[p];
                assert(trans[k].1 == now[p]);
            } else {
                assert(trans[n - 1].1 == now[p]);
            }
        }
        assert forall|k: int| 0 <= k < n && wanted((#[trigger] trans[k]).1, left) implies now.contains(
            trans[k].1,
        ) by {
            if k < n - 1 {
                let p = choose|p: int| 0 <= p < prev.len() && prev[p] == trans[k].1;
                assert(now[p] == trans[k].1);
            } else if prev.contains(delta) {
                let p = choose|p: int| 0 <= p < prev.len() && prev[p] == delta;
                assert(now[p] == delta);
            } else {
                assert(now[prev.len() as int] == delta);
            }
        }
    }
}

/// No source field travels by a distance that does not occur.
pub proof fn lemma_group_mask_absent(trans: Seq<Transposition>, delta: isize, n: nat)
    requires
        n <= trans.len(),
        forall|k: int| 0 <= k < n ==> (#[trigger] trans[k]).1 != delta,
    ensures
        group_mask(trans, delta, n) == 0,
    decreases n,
{
    if n > 0 {
        assert(trans[n - 1].1 != delta);
        lemma_group_mask_absent(trans, delta, (n - 1) as nat);
    }
}

/// The index of the entry of `entries` that travels by `shift`, if there is one.
fn find_shift(entries: &Vec<(u128, usize)>, shift: usize) -> (found: Option<usize>)
    ensures
        match found {
            Some(p) => p < entries.len() && entries[p as int].1 == shift,
            None => forall|p: int| 0 <= p < entries.len() ==> (#[trigger] entries[p]).1 != shift,
        },
{
    let mut p: usize = 0;
    while p < entries.len()
        invariant
            p <= entries.len(),
            forall|q: int| 0 <= q < p ==> (#[trigger] entries[q]).1 != shift,
        decreases entries.len() - p,
    {
        if entries[p].1 == shift {
            return Some(p);
        }
        p += 1;
    }
    None
}

/// Adds the source field `field` of the transposition `n` of `trans`, which
/// travels by `delta`, to the entry of `entries` for that distance, or opens
/// one for it.
fn merge_field(
    entries: &mut Vec<(u128, usize)>,
    field: u128,
    delta: isize,
    Ghost(trans): Ghost<Seq<Transposition>>,
    Ghost(left): Ghost<bool>,
    Ghost(n): Ghost<nat>,
)
    requires
        n < trans.len(),
        valid_transpositions(trans),
        wanted(delta, left),
        trans[n as int].1 == delta,
        field == field_mask(trans[n as int].0),
        old(entries)@ == shift_entries(trans, left, n, n),
    ensures
        final(entries)@ == shift_entries(trans, left, n + 1, n + 1),
{
    let distance: usize = if delta < 0 {
        (-delta) as usize
    } else {
        delta as usize
    };
    let ghost deltas = distinct_deltas(trans, left, n);
    let ghost next = distinct_deltas(trans, left, n + 1);
    proof {
        lemma_distinct_deltas(trans, left, n);
    }
    match find_shift(entries, distance) {
        Some(p) => {
            let entry = entries[p];
            proof {
                let k = choose|k: int| 0 <= k < n && (#[trigger] trans[k]).1 == deltas[p as int];
                assert(deltas[p as int] == delta);
                assert(next == deltas);
            }
            entries[p] = (entry.0 | field, entry.1);
            assert(entries@ =~= shift_entries(trans, left, n + 1, n + 1)) by {
                assert forall|q: int| 0 <= q < deltas.len() && q != p implies deltas[q] != delta by {
                    assert(deltas[q] != deltas[p as int]);
                }
            }
        },
        None => {
            proof {
                if deltas.contains(delta) {
                    let q = choose|q: int| 0 <= q < deltas.len() && deltas[q] == delta;
                    assert(old(entries)@[q].1 == distance);
                }
                assert forall|k: int| 0 <= k < n implies (#[trigger] trans[k]).1 != delta by {
                    if trans[k].1 == delta {
                        assert(deltas.contains(trans[k].1));
                    }
                }
                lemma_group_mask_absent(trans, delta, n);
                assert(0u128 | field == field) by (bit_vector);
            }
            entries.push((field, distance));
            assert(entries@ =~= shift_entries(trans, left, n + 1, n + 1));
        },
    }
}

/// A transposition of the other direction, or one that travels nowhere, leaves
/// the entries of a direction as they are.
proof fn lemma_entries_unchanged(trans: Seq<Transposition>, left: bool, n: nat)
    requires
        n < trans.len(),
        !wanted(trans[n as int].1, left),
    ensures
        shift_entries(trans, left, n + 1, n + 1) == shift_entries(trans, left, n, n),
{
    lemma_distinct_deltas(trans, left, n);
    assert(shift_entries(trans, left, n + 1, n + 1) =~= shift_entries(trans, left, n, n));
}

/// The entries that compiling builds can be carried out on a 128-bit word.
pub proof fn lemma_entries_in_word(trans: Seq<Transposition>, left: bool, n: nat, m: nat)
    requires
        n <= trans.len(),
        valid_transpositions(trans),
    ensures
        shifts_in_word(shift_entries(trans, left, n, m)),
{
    lemma_distinct_deltas(trans, left, n);
    let deltas = distinct_deltas(trans, left, n);
    assert forall|p: int| 0 <= p < deltas.len() implies 0 < (#[trigger] shift_entries(
        trans,
        left,
        n,
        m,
    )[p]).1 < 128 by {
        let k = choose|k: int| 0 <= k < n && (#[trigger] trans[k]).1 == deltas[p];
        assert(wanted(deltas[p], left));
    }
}

/// Compiles a list of transpositions into one transform: the kept bits are
/// those outside every source field, and the source fields are grouped by
/// distance, left and right apart, each group in the place where its distance
/// first occurs.
pub fn transpositions_to_operations(trans: Vec<Transposition>) -> (op: BulkOperation)
    requires
        valid_transpositions(trans@),
    ensures
        op.mask == !touched_mask(trans@, trans@.len()),
        op.rshifts@ == shift_entries(trans@, false, trans@.len(), trans@.len()),
        op.lshifts@ == shift_entries(trans@, true, trans@.len(), trans@.len()),
        op.wf(),
{
    let mut mask: u128 = 0;
    let mut lshifts: Vec<(u128, usize)> = Vec::new();
    let mut rshifts: Vec<(u128, usize)> = Vec::new();
    let mut n: usize = 0;
    assert(lshifts@ =~= shift_entries(trans@, true, 0, 0));
    assert(rshifts@ =~= shift_entries(trans@, false, 0, 0));
    while n < trans.len()
        invariant
            n <= trans.len(),
            valid_transpositions(trans@),
            mask == touched_mask(trans@, n as nat),
            lshifts@ == shift_entries(trans@, true, n as nat, n as nat),
            rshifts@ == shift_entries(trans@, false, n as nat, n as nat),
        decreases trans.len() - n,
    {
        let (i, j) = trans[n];
        let k: u128 = 0b11111u128 << i;
        mask |= k;
        if j > 0 {
            proof {
                lemma_entries_unchanged(trans@, false, n as nat);
            }
            merge_field(&mut lshifts, k, j, Ghost(trans@), Ghost(true), Ghost(n as nat));
        } else if j < 0 {
            proof {
                lemma_entries_unchanged(trans@, true, n as nat);
            }
            merge_field(&mut rshifts, k, j, Ghost(trans@), Ghost(false), Ghost(n as nat));
        } else {
            proof {
                lemma_entries_unchanged(trans@, true, n as nat);
                lemma_entries_unchanged(trans@, false, n as nat);
            }
        }
        n += 1;
    }
    proof {
        lemma_entries_in_word(trans@, true, trans@.len(), trans@.len());
        lemma_entries_in_word(trans@, false, trans@.len(), trans@.len());
    }
    mask = !mask;
    BulkOperation { mask, rshifts, lshifts }
}

/// Bit `i` lies in the source field of `t`.
pub open spec fn in_source(t: Transposition, i: int) -> bool {
    t.0 <= i < t.0 + 5
}

/// Bit `i` lies in a source field of the first `n` transpositions.
pub open spec fn source_bit(trans: Seq<Transposition>, n: nat, i: int) -> bool {
    exists|k: int| 0 <= k < n && in_source(#[trigger] trans[k], i)
}

/// Bit `i` lies in the source field of one of the first `n` transpositions that
/// travel by `delta`.
pub open spec fn group_bit(trans: Seq<Transposition>, delta: isize, n: nat, i: int) -> bool {
    exists|k: int| 0 <= k < n && (#[trigger] trans[k]).1 == delta && in_source(trans[k], i)
}

/// The transposition `t` carries a set bit of `state` to bit `i`.
pub open spec fn carries(t: Transposition, state: u128, i: int) -> bool {
    &&& t.1 != 0
    &&& 0 <= i - t.1 < 128
    &&& in_source(t, i - t.1)
    &&& bit(state, (i - t.1) as usize)
}

/// Some transposition carries a set bit of `state` to bit `i`.
pub open spec fn moved_bit(trans: Seq<Transposition>, state: u128, i: int) -> bool {
    exists|k: int| 0 <= k < trans.len() && carries(#[trigger] trans[k], state, i)
}

/// The set bits of `touched_mask` are the bits of the source fields.
pub proof fn lemma_touched_mask_bit(trans: Seq<Transposition>, n: nat, i: usize)
    requires
        n <= trans.len(),
        valid_transpositions(trans),
        i < 128,
    ensures
        bit(touched_mask(trans, n), i) == source_bit(trans, n, i as int),
    decreases n,
{
    if n == 0 {
        lemma_bit_zero(i);
    } else {
        let m = (n - 1) as nat;
        lemma_touched_mask_bit(trans, m, i);
        lemma_bit_or(touched_mask(trans, m), field_mask(trans[n - 1].0), i);
        lemma_bit_field_mask(trans[n - 1].0, i);
        if source_bit(trans, m, i as int) {
            let k = choose|k: int| 0 <= k < m && in_source(#[trigger] trans[k], i as int);
            assert(in_source(trans[k], i as int));
        }
        if in_source(trans[n - 1], i as int) {
            assert(source_bit(trans, n, i as int));
        }
        if source_bit(trans, n, i as int) {
            let k = choose|k: int| 0 <= k < n && in_source(#[trigger] trans[k], i as int);
            if k < m {
                assert(source_bit(trans, m, i as int));
            }
        }
    }
}

/// The set bits of `group_mask` are the bits of the source fields that travel
/// by `delta`.
pub proof fn lemma_group_mask_bit(trans: Seq<Transposition>, delta: isize, n: nat, i: usize)
    requires
        n <= trans.len(),
        valid_transpositions(trans),
        i < 128,
    ensures
        bit(group_mask(trans, delta, n), i) == group_bit(trans, delta, n, i as int),
    decreases n,
{
    if n == 0 {
        lemma_bit_zero(i);
    } else {
        let m = (n - 1) as nat;
        lemma_group_mask_bit(trans, delta, m, i);
        lemma_bit_or(group_mask(trans, delta, m), field_mask(trans[n - 1].0), i);
        lemma_bit_field_mask(trans[n - 1].0, i);
        if group_bit(trans, delta, m, i as int) {
            let k = choose|k: int|
                0 <= k < m && (#[trigger] trans[k]).1 == delta && in_source(trans[k], i as int);
            assert(trans[k].1 == delta && in_source(trans[k], i as int));
        }
        if trans[n - 1].1 == delta && in_source(trans[n - 1], i as int) {
            assert(group_bit(trans, delta, n, i as int));
        }
        if group_bit(trans, delta, n, i as int) {
            let k = choose|k: int|
                0 <= k < n && (#[trigger] trans[k]).1 == delta && in_source(trans[k], i as int);
            if k < m {
                assert(group_bit(trans, delta, m, i as int));
            }
        }
    }
}

/// Bit `i` of the part of `state` that the entry `entry` shifts.
pub open spec fn part_bit(state: u128, entry: (u128, usize), left: bool, i: usize) -> bool {
    if left {
        bit((state & entry.0) << entry.1, i)
    } else {
        bit((state & entry.0) >> entry.1, i)
    }
}

/// One of the first `n` entries shifts a set bit of `state` to bit `i`.
pub open spec fn parts_bit(
    state: u128,
    entries: Seq<(u128, usize)>,
    left: bool,
    n: nat,
    i: usize,
) -> bool {
    exists|p: int| 0 <= p < n && part_bit(state, #[trigger] entries[p], left, i)
}

/// A bit of `or_shifted` is a bit of what it started from or of a shifted part.
pub proof fn lemma_or_shifted_bit(
    acc: u128,
    state: u128,
    entries: Seq<(u128, usize)>,
    left: bool,
    n: nat,
    i: usize,
)
    requires
        n <= entries.len(),
    ensures
        bit(or_shifted(acc, state, entries, left, n), i) == (bit(acc, i) || parts_bit(
            state,
            entries,
            left,
            n,
            i,
        )),
    decreases n,
{
    if n > 0 {
        let m = (n - 1) as nat;
        let entry = entries[n - 1];
        lemma_or_shifted_bit(acc, state, entries, left, m, i);
        let rest = or_shifted(acc, state, entries, left, m);
        if left {
            lemma_bit_or(rest, (state & entry.0) << entry.1, i);
        } else {
            lemma_bit_or(rest, (state & entry.0) >> entry.1, i);
        }
        if parts_bit(state, entries, left, m, i) {
            let p = choose|p: int| 0 <= p < m && part_bit(state, #[trigger] entries[p], left, i);
            assert(part_bit(state, entries[p], left, i));
        }
        if part_bit(state, entry, left, i) {
            assert(parts_bit(state, entries, left, n, i));
        }
        if parts_bit(state, entries, left, n, i) {
            let p = choose|p: int| 0 <= p < n && part_bit(state, #[trigger] entries[p], left, i);
            if p < m {
                assert(parts_bit(state, entries, left, m, i));
            }
        }
    }
}

/// Some transposition of the direction `left` carries a set bit of `state` to
/// bit `i`.
pub open spec fn moved_bit_one_way(
    trans: Seq<Transposition>,
    state: u128,
    left: bool,
    i: int,
) -> bool {
    exists|k: int|
        0 <= k < trans.len() && wanted((#[trigger] trans[k]).1, left) && carries(
            trans[k],
            state,
            i,
        )
}

/// The shifted parts of one direction of a compiled transform set bit `i`
/// where a transposition of that direction carries a set bit there.
pub proof fn lemma_parts_bit(trans: Seq<Transposition>, state: u128, left: bool, i: usize)
    requires
        valid_transpositions(trans),
        i < 128,
    ensures
        parts_bit(
            state,
            shift_entries(trans, left, trans.len(), trans.len()),
            left,
            shift_entries(trans, left, trans.len(), trans.len()).len(),
            i,
        ) == moved_bit_one_way(trans, state, left, i as int),
{
    let len = trans.len();
    let deltas = distinct_deltas(trans, left, len);
    let entries = shift_entries(trans, left, len, len);
    lemma_distinct_deltas(trans, left, len);
    lemma_entries_in_word(trans, left, len, len);
    assert forall|p: int| 0 <= p < entries.len() implies (part_bit(state, #[trigger] entries[p], left, i)
        <==> 0 <= i - deltas[p] < 128 && bit(state, (i - deltas[p]) as usize) && group_bit(
        trans,
        deltas[p],
        len,
        i - deltas[p],
    )) by {
        let entry = entries[p];
        let delta = deltas[p];
        assert(wanted(delta, left));
        assert(0 < entry.1 < 128);
        if left {
            lemma_bit_shl(state & entry.0, entry.1, i);
            if i >= entry.1 {
                let src = (i - entry.1) as usize;
                lemma_bit_and(state, entry.0, src);
                lemma_group_mask_bit(trans, delta, len, src);
            }
        } else {
            lemma_bit_shr(state & entry.0, entry.1, i);
            if i + entry.1 < 128 {
                let src = (i + entry.1) as usize;
                lemma_bit_and(state, entry.0, src);
                lemma_group_mask_bit(trans, delta, len, src);
            }
        }
    }
    if parts_bit(state, entries, left, entries.len(), i) {
        let p = choose|p: int|
            0 <= p < entries.len() && part_bit(state, #[trigger] entries[p], left, i);
        let delta = deltas[p];
        assert(wanted(delta, left));
        let k = choose|k: int|
            0 <= k < len && (#[trigger] trans[k]).1 == delta && in_source(trans[k], i - delta);
        assert(carries(trans[k], state, i as int));
    }
    if moved_bit_one_way(trans, state, left, i as int) {
        let k = choose|k: int|
            0 <= k < trans.len() && wanted((#[trigger] trans[k]).1, left) && carries(
                trans[k],
                state,
                i as int,
            );
        let delta = trans[k].1;
        assert(deltas.contains(delta));
        let p = choose|p: int| 0 <= p < deltas.len() && deltas[p] == delta;
        assert(group_bit(trans, delta, len, i - delta));
        assert(part_bit(state, entries[p], left, i));
    }
}

/// What a compiled transform makes of one bit: bit `i` of the result is set
/// where bit `i` of `state` is set and lies in no source field, or where some
/// transposition carries a set bit of `state` to it.
pub proof fn lemma_compiled_bit(trans: Seq<Transposition>, state: u128, i: usize)
    requires
        valid_transpositions(trans),
        i < 128,
    ensures
        bit(
            applied(
                state,
                !touched_mask(trans, trans.len()),
                shift_entries(trans, false, trans.len(), trans.len()),
                shift_entries(trans, true, trans.len(), trans.len()),
            ),
            i,
        ) == (bit(state, i) && !source_bit(trans, trans.len(), i as int) || moved_bit(
            trans,
            state,
            i as int,
        )),
{
    let len = trans.len();
    let mask = !touched_mask(trans, len);
    let rshifts = shift_entries(trans, false, len, len);
    let lshifts = shift_entries(trans, true, len, len);
    let kept = state & mask;
    let mid = or_shifted(kept, state, rshifts, false, rshifts.len());
    lemma_bit_and(state, mask, i);
    lemma_bit_not(touched_mask(trans, len), i);
    lemma_touched_mask_bit(trans, len, i);
    lemma_or_shifted_bit(kept, state, rshifts, false, rshifts.len(), i);
    lemma_or_shifted_bit(mid, state, lshifts, true, lshifts.len(), i);
    lemma_parts_bit(trans, state, false, i);
    lemma_parts_bit(trans, state, true, i);
    if moved_bit(trans, state, i as int) {
        let k = choose|k: int| 0 <= k < trans.len() && carries(#[trigger] trans[k], state, i as int);
        if trans[k].1 > 0 {
            assert(wanted(trans[k].1, true));
            assert(moved_bit_one_way(trans, state, true, i as int));
        } else {
            assert(wanted(trans[k].1, false));
            assert(moved_bit_one_way(trans, state, false, i as int));
        }
    }
    if moved_bit_one_way(trans, state, true, i as int) {
        let k = choose|k: int|
            0 <= k < trans.len() && wanted((#[trigger] trans[k]).1, true) && carries(
                trans[k],
                state,
                i as int,
            );
        assert(carries(trans[k], state, i as int));
    }
    if moved_bit_one_way(trans, state, false, i as int) {
        let k = choose|k: int|
            0 <= k < trans.len() && wanted((#[trigger] trans[k]).1, false) && carries(
                trans[k],
                state,
                i as int,
            );
        assert(carries(trans[k], state, i as int));
    }
}

} // verus!
