//! The discharge's shape: committed charges and the frontier of candidate
//! sites around them, kept free of duplicates and disjoint from each other.
use vstd::prelude::*;
use crate::grid::{
    adjacent, contains_site, lemma_neighbors, lemma_site_coords, make_site, neighbor, neighbor_of,
    neighbors, offset_x, offset_y, site, within,
};
use crate::selection::{last_qualifying, reference_index, running_max, select_index};
use vstd::std_specs::cmp::PartialOrdSpec;

verus! {

/// Largest number of charges the lattice can hold without a neighbour
/// coordinate leaving `i32`.
pub const MAX_CHARGES: usize = 0x7fff_fffe;

/// The sites of `neighbors(p)` that are neither charges nor candidates yet,
/// in scan order: what one expansion of the frontier around `p` appends.
pub open spec fn fresh_neighbors(
    p: [i32; 2],
    charges: Seq<[i32; 2]>,
    candidates: Seq<[i32; 2]>,
) -> Seq<[i32; 2]> {
    neighbors(p).filter(unclaimed(charges, candidates))
}

/// Holds of a site that is neither a charge nor a candidate.
pub open spec fn unclaimed(charges: Seq<[i32; 2]>, candidates: Seq<[i32; 2]>) -> spec_fn(
    [i32; 2],
) -> bool {
    |s: [i32; 2]| !charges.contains(s) && !candidates.contains(s)
}

/// No candidate is also a charge.
pub open spec fn disjoint(charges: Seq<[i32; 2]>, candidates: Seq<[i32; 2]>) -> bool {
    forall|i: int| 0 <= i < candidates.len() ==> !charges.contains(#[trigger] candidates[i])
}

/// Every candidate touches some charge.
pub open spec fn on_frontier(charges: Seq<[i32; 2]>, candidates: Seq<[i32; 2]>) -> bool {
    forall|i: int|
        0 <= i < candidates.len() ==> exists|j: int|
            0 <= j < charges.len() && adjacent(#[trigger] candidates[i], #[trigger] charges[j])
}

/// Every neighbour of every charge other than `p` is a charge or a candidate.
pub open spec fn closed_except(
    charges: Seq<[i32; 2]>,
    candidates: Seq<[i32; 2]>,
    p: [i32; 2],
) -> bool {
    forall|i: int, k: int|
        0 <= i < charges.len() && 0 <= k < 8 && charges[i] != p ==> charges.contains(
            #[trigger] neighbor(charges[i], k),
        ) || candidates.contains(neighbor(charges[i], k))
}

/// Every neighbour of every charge is a charge or a candidate.
pub open spec fn closed(charges: Seq<[i32; 2]>, candidates: Seq<[i32; 2]>) -> bool {
    forall|i: int, k: int|
        0 <= i < charges.len() && 0 <= k < 8 ==> charges.contains(
            #[trigger] neighbor(charges[i], k),
        ) || candidates.contains(neighbor(charges[i], k))
}

/// The state invariant of a discharge, but for the closure of the frontier:
/// a seed at the origin, no site twice in either collection, no site in
/// both, every candidate adjacent to a charge, and coordinates bounded by the
/// number of charges (a site is at most one step further out than the charge
/// it grew from).
pub open spec fn shape_invariant(charges: Seq<[i32; 2]>, candidates: Seq<[i32; 2]>) -> bool {
    &&& charges.len() >= 1
    &&& charges[0] == site(0, 0)
    &&& charges.no_duplicates()
    &&& candidates.no_duplicates()
    &&& disjoint(charges, candidates)
    &&& on_frontier(charges, candidates)
    &&& forall|i: int|
        0 <= i < charges.len() ==> within(#[trigger] charges[i], charges.len() - 1)
    &&& forall|i: int|
        0 <= i < candidates.len() ==> within(#[trigger] candidates[i], charges.len() as int)
}

/// The state after one growth step from `(charges, candidates)`: the
/// candidate at `index` joins the charges last, leaves the frontier, and the
/// frontier is expanded around it.
pub open spec fn step_state(
    charges: Seq<[i32; 2]>,
    candidates: Seq<[i32; 2]>,
    index: int,
) -> (Seq<[i32; 2]>, Seq<[i32; 2]>) {
    let c = candidates[index];
    (
        charges.push(c),
        candidates.remove(index) + fresh_neighbors(c, charges.push(c), candidates.remove(index)),
    )
}

/// One growth step: `(new_charges, new_candidates)` is `step_state` of the
/// old state at `index`.
pub open spec fn promoted(
    charges: Seq<[i32; 2]>,
    candidates: Seq<[i32; 2]>,
    index: int,
    new_charges: Seq<[i32; 2]>,
    new_candidates: Seq<[i32; 2]>,
) -> bool {
    (new_charges, new_candidates) == step_state(charges, candidates, index)
}

/// The state of a run that starts from the seed and its 8 neighbours and
/// promotes, step by step, the candidates at `indices`.
pub open spec fn run_state(indices: Seq<int>) -> (Seq<[i32; 2]>, Seq<[i32; 2]>)
    decreases indices.len(),
{
    if indices.len() == 0 {
        (seq![site(0, 0)], neighbors(site(0, 0)))
    } else {
        let prev = run_state(indices.drop_last());
        step_state(prev.0, prev.1, indices.last())
    }
}

/// After a run of `n` steps there are exactly `n + 1` charges.
pub proof fn lemma_run_charge_count(indices: Seq<int>)
    ensures
        run_state(indices).0.len() == indices.len() + 1,
    decreases indices.len(),
{
    if indices.len() > 0 {
        lemma_run_charge_count(indices.drop_last());
    }
}

/// Continuing a run of the steps `first` with the steps `more` keeps the
/// charges of the first run as a prefix: the first `first.len() + 1` charges
/// are exactly those of running `first` alone.
pub proof fn lemma_run_continuation(first: Seq<int>, more: Seq<int>)
    ensures
        run_state(first + more).0.len() == first.len() + more.len() + 1,
        run_state(first + more).0.subrange(0, first.len() + 1 as int) == run_state(first).0,
    decreases more.len(),
{
    lemma_run_charge_count(first + more);
    lemma_run_charge_count(first);
    if more.len() == 0 {
        assert(first + more =~= first);
        assert(run_state(first).0.subrange(0, first.len() + 1 as int) =~= run_state(first).0);
    } else {
        let shorter = more.drop_last();
        assert((first + more).drop_last() =~= first + shorter);
        lemma_run_continuation(first, shorter);
        let prev = run_state(first + shorter).0;
        assert(run_state(first + more).0 == prev.push(run_state(first + shorter).1[more.last()]));
        assert(run_state(first + more).0.subrange(0, first.len() + 1 as int) =~= prev.subrange(
            0,
            first.len() + 1 as int,
        ));
    }
}

/// Index of a charge with the greatest first coordinate among the first `n`.
pub open spec fn rightmost(charges: Seq<[i32; 2]>, n: int) -> int
    decreases n,
{
    if n <= 1 {
        0
    } else {
        let m = rightmost(charges, n - 1);
        if charges[m][0] < charges[n - 1][0] {
            n - 1
        } else {
            m
        }
    }
}

proof fn lemma_rightmost(charges: Seq<[i32; 2]>, n: int)
    requires
        1 <= n <= charges.len(),
    ensures
        0 <= rightmost(charges, n) < n,
        forall|i: int| 0 <= i < n ==> #[trigger] charges[i][0] <= charges[rightmost(charges, n)][0],
    decreases n,
{
    if n > 1 {
        lemma_rightmost(charges, n - 1);
    }
}

/// A frontier that surrounds a finite set of charges is never empty: the
/// right-hand neighbour of a rightmost charge is not a charge, so it is a
/// candidate.
pub proof fn lemma_frontier_nonempty(charges: Seq<[i32; 2]>, candidates: Seq<[i32; 2]>)
    requires
        shape_invariant(charges, candidates),
        closed(charges, candidates),
        charges.len() <= MAX_CHARGES,
    ensures
        candidates.len() > 0,
{
    let n = charges.len() as int;
    lemma_rightmost(charges, n);
    let m = rightmost(charges, n);
    let c = charges[m];
    assert(within(c, n - 1));
    lemma_neighbors(c);
    let right = neighbor(c, 6);
    assert(right[0] == c[0] + 1);
    if charges.contains(right) {
        let i = choose|i: int| 0 <= i < n && charges[i] == right;
        assert(charges[i][0] <= c[0]);
    }
    assert(candidates.contains(right));
}

proof fn lemma_filter_keeps_all(s: Seq<[i32; 2]>, pred: spec_fn([i32; 2]) -> bool)
    requires
        forall|i: int| 0 <= i < s.len() ==> #[trigger] pred(s[i]),
    ensures
        s.filter(pred) == s,
    decreases s.len(),
{
    if s.len() > 0 {
        let init = s.drop_last();
        assert forall|i: int| 0 <= i < init.len() implies #[trigger] pred(init[i]) by {
            assert(init[i] == s[i]);
        }
        lemma_filter_keeps_all(init, pred);
        init.lemma_filter_push(s.last(), pred);
        assert(init.push(s.last()) =~= s);
        assert(pred(s[s.len() - 1]));
    } else {
        assert(s.filter(pred) =~= s) by {
            reveal(Seq::filter);
        }
    }
}

/// The part of a growth step before the frontier is expanded: with the
/// chosen candidate moved to the charges, the shape invariant holds and the
/// frontier surrounds every charge but the new one.
proof fn lemma_promote_keeps_shape(ch0: Seq<[i32; 2]>, ca0: Seq<[i32; 2]>, index: int)
    requires
        shape_invariant(ch0, ca0),
        closed(ch0, ca0),
        0 <= index < ca0.len(),
    ensures
        shape_invariant(ch0.push(ca0[index]), ca0.remove(index)),
        closed_except(ch0.push(ca0[index]), ca0.remove(index), ca0[index]),
        ch0.push(ca0[index]).contains(ca0[index]),
{
        let charge = ca0[index];
    let ch1 = ch0.push(charge);
        let ca1 = ca0.remove(index);
                assert(ch1[ch0.len() as int] == charge);
        assert forall|x: [i32; 2]| ch0.contains(x) implies #[trigger] ch1.contains(x) by {
            let i = choose|i: int| 0 <= i < ch0.len() && ch0[i] == x;
            assert(ch1[i] == x);
        }
        assert forall|x: [i32; 2]| ca0.contains(x) && x != charge implies #[trigger] ca1.contains(x) by {
            let i = choose|i: int| 0 <= i < ca0.len() && ca0[i] == x;
            if i < index {
                assert(ca1[i] == x);
            } else {
                assert(i != index);
                assert(ca1[i - 1] == x);
            }
        }
        assert(forall|i: int| 0 <= i < ca1.len() ==> #[trigger] ca1[i] == ca0[if i < index { i } else { i + 1 }]);
        assert forall|i: int| 0 <= i < ca1.len() implies !ch1.contains(#[trigger] ca1[i]) by {
            let j = if i < index { i } else { i + 1 };
            assert(ca1[i] == ca0[j]);
            assert(!ch0.contains(ca0[j]));
            assert(ca0[j] != ca0[index]);
            if ch1.contains(ca1[i]) {
                let q = choose|q: int| 0 <= q < ch1.len() && ch1[q] == ca1[i];
                if q < ch0.len() {
                    assert(ch0[q] == ca1[i]);
                }
            }
        }
        assert forall|i: int| 0 <= i < ca1.len() implies exists|j: int|
            0 <= j < ch1.len() && adjacent(#[trigger] ca1[i], #[trigger] ch1[j]) by {
            let i0 = if i < index { i } else { i + 1 };
            assert(ca1[i] == ca0[i0]);
            let j = choose|j: int| 0 <= j < ch0.len() && adjacent(ca0[i0], ch0[j]);
            assert(ch1[j] == ch0[j]);
        }
        assert(ch1.no_duplicates()) by {
            assert(!ch0.contains(charge)) by {
                assert(ca0[index] == charge);
            }
        }
        assert(within(charge, ch0.len() as int));
        assert forall|i: int, k: int|
            0 <= i < ch1.len() && 0 <= k < 8 && ch1[i] != charge implies ch1.contains(
                #[trigger] neighbor(ch1[i], k),
            ) || ca1.contains(neighbor(ch1[i], k)) by {
            assert(ch1[i] == ch0[i]);
            let nb = neighbor(ch0[i], k);
            if ch0.contains(nb) {
            } else {
                assert(ca0.contains(nb));
                if nb == charge {
                    assert(ch1.contains(nb));
                } else {
                    assert(ca1.contains(nb));
                }
            }
        }
        assert(ch1.contains(charge));
    }

/// What a filter keeps satisfies the predicate and comes from the input, and
/// filtering keeps a sequence free of duplicates.
proof fn lemma_filter_subseq(s: Seq<[i32; 2]>, pred: spec_fn([i32; 2]) -> bool)
    ensures
        forall|j: int|
            0 <= j < s.filter(pred).len() ==> pred(#[trigger] s.filter(pred)[j]) && s.contains(
                s.filter(pred)[j],
            ),
        s.no_duplicates() ==> s.filter(pred).no_duplicates(),
    decreases s.len(),
{
    if s.len() == 0 {
        assert(s.filter(pred) =~= s) by {
            reveal(Seq::filter);
        }
    } else {
        let init = s.drop_last();
        let x = s.last();
        lemma_filter_subseq(init, pred);
        assert(init.push(x) =~= s);
        init.lemma_filter_push(x, pred);
        let fi = init.filter(pred);
        assert forall|j: int| 0 <= j < fi.len() implies s.contains(#[trigger] fi[j]) by {
            let i = choose|i: int| 0 <= i < init.len() && init[i] == fi[j];
            assert(s[i] == fi[j]);
        }
        assert(s[s.len() - 1] == x);
        if s.no_duplicates() {
            assert forall|j: int| 0 <= j < fi.len() implies #[trigger] fi[j] != x by {
                let i = choose|i: int| 0 <= i < init.len() && init[i] == fi[j];
                assert(s[i] == init[i]);
            }
        }
    }
}

/// Expanding the frontier around a charge `p` whose neighbourhood was the
/// only gap restores the full invariant.
proof fn lemma_expand_keeps_invariant(ch: Seq<[i32; 2]>, ca: Seq<[i32; 2]>, p: [i32; 2])
    requires
        shape_invariant(ch, ca),
        closed_except(ch, ca, p),
        ch.contains(p),
        ch.len() <= MAX_CHARGES,
    ensures
        shape_invariant(ch, ca + fresh_neighbors(p, ch, ca)),
        closed(ch, ca + fresh_neighbors(p, ch, ca)),
{
    let pred = unclaimed(ch, ca);
    let f = fresh_neighbors(p, ch, ca);
    let n = ca + f;
    let j0 = choose|j: int| 0 <= j < ch.len() && ch[j] == p;
    assert(within(ch[j0], ch.len() - 1));
    lemma_neighbors(p);
    lemma_filter_subseq(neighbors(p), pred);
    assert forall|j: int| 0 <= j < f.len() implies !ch.contains(#[trigger] f[j]) && !ca.contains(
        f[j],
    ) && adjacent(f[j], p) && within(f[j], ch.len() as int) by {
        assert(pred(f[j]));
        let k = choose|k: int| 0 <= k < 8 && neighbors(p)[k] == f[j];
        assert(adjacent(neighbor(p, k), p));
    }
    assert forall|i: int, j: int| 0 <= i < ca.len() && 0 <= j < f.len() implies ca[i] != f[j] by {
        assert(!ca.contains(f[j]));
    }
    vstd::seq_lib::lemma_no_dup_in_concat(ca, f);
    assert forall|i: int| 0 <= i < n.len() implies !ch.contains(#[trigger] n[i]) by {
        if i >= ca.len() {
            assert(n[i] == f[i - ca.len()]);
        }
    }
    assert forall|i: int| 0 <= i < n.len() implies exists|j: int|
        0 <= j < ch.len() && adjacent(#[trigger] n[i], #[trigger] ch[j]) by {
        if i >= ca.len() {
            assert(n[i] == f[i - ca.len()]);
            assert(adjacent(n[i], ch[j0]));
        } else {
            assert(n[i] == ca[i]);
        }
    }
    assert forall|i: int| 0 <= i < n.len() implies within(#[trigger] n[i], ch.len() as int) by {
        if i >= ca.len() {
            assert(n[i] == f[i - ca.len()]);
        } else {
            assert(n[i] == ca[i]);
        }
    }
    assert forall|x: [i32; 2]| ca.contains(x) implies #[trigger] n.contains(x) by {
        let i = choose|i: int| 0 <= i < ca.len() && ca[i] == x;
        assert(n[i] == x);
    }
    assert forall|x: [i32; 2]| f.contains(x) implies #[trigger] n.contains(x) by {
        let i = choose|i: int| 0 <= i < f.len() && f[i] == x;
        assert(n[ca.len() + i] == x);
    }
    assert forall|i: int, k: int|
        0 <= i < ch.len() && 0 <= k < 8 implies ch.contains(#[trigger] neighbor(ch[i], k))
        || n.contains(neighbor(ch[i], k)) by {
        let nb = neighbor(ch[i], k);
        if ch[i] != p {
            if ca.contains(nb) {
                assert(n.contains(nb));
            }
        } else if !ch.contains(nb) && !ca.contains(nb) {
            assert(neighbors(p)[k] == nb);
            neighbors(p).lemma_filter_contains(pred, k);
            assert(f.contains(nb));
        } else if ca.contains(nb) {
            assert(n.contains(nb));
        }
    }
}

/// Every charge after the seed was, just before its promotion, a candidate
/// site of the state the run had reached: the one at the index chosen.
pub proof fn lemma_run_charges_were_candidates(indices: Seq<int>, k: int)
    requires
        valid_run(indices),
        0 <= k < indices.len(),
    ensures
        run_state(indices).0[k + 1] == run_state(indices.take(k)).1[indices[k]],
        run_state(indices.take(k)).1.contains(run_state(indices).0[k + 1]),
{
    let a = indices.take(k + 1);
    let b = indices.skip(k + 1);
    assert(a + b =~= indices);
    lemma_run_continuation(a, b);
    assert(a.drop_last() =~= indices.take(k));
    lemma_run_charge_count(indices.take(k));
    assert(run_state(indices).0[k + 1] == run_state(indices).0.subrange(0, k + 2)[k + 1]);
    let prev = run_state(indices.take(k));
    assert(run_state(a).0 == prev.0.push(prev.1[indices[k]]));
    assert(0 <= indices[k] < prev.1.len());
}

/// One growth step from a valid state gives a valid state.
pub proof fn lemma_step_keeps_invariant(ch: Seq<[i32; 2]>, ca: Seq<[i32; 2]>, index: int)
    requires
        shape_invariant(ch, ca),
        closed(ch, ca),
        0 <= index < ca.len(),
        ch.len() < MAX_CHARGES,
    ensures
        shape_invariant(step_state(ch, ca, index).0, step_state(ch, ca, index).1),
        closed(step_state(ch, ca, index).0, step_state(ch, ca, index).1),
{
    lemma_promote_keeps_shape(ch, ca, index);
    lemma_expand_keeps_invariant(ch.push(ca[index]), ca.remove(index), ca[index]);
}

/// The indices of a run are valid: each names a candidate of the state the
/// run has reached by then.
pub open spec fn valid_run(indices: Seq<int>) -> bool {
    forall|k: int|
        0 <= k < indices.len() ==> 0 <= #[trigger] indices[k] < run_state(indices.take(k)).1.len()
}

/// At every point of a run, charges and candidates share no site, neither
/// holds a site twice, every candidate touches a charge, and the frontier
/// surrounds every charge.
pub proof fn lemma_run_invariant(indices: Seq<int>)
    requires
        valid_run(indices),
        indices.len() < MAX_CHARGES,
    ensures
        shape_invariant(run_state(indices).0, run_state(indices).1),
        closed(run_state(indices).0, run_state(indices).1),
        run_state(indices).0.no_duplicates(),
        run_state(indices).1.no_duplicates(),
        disjoint(run_state(indices).0, run_state(indices).1),
    decreases indices.len(),
{
    if indices.len() == 0 {
        lemma_initial_invariant();
    } else {
        let init = indices.drop_last();
        assert forall|k: int| 0 <= k < init.len() implies 0 <= #[trigger] init[k] < run_state(
            init.take(k),
        ).1.len() by {
            assert(init.take(k) =~= indices.take(k));
            assert(indices[k] == init[k]);
        }
        lemma_run_invariant(init);
        lemma_run_charge_count(init);
        let last = indices.len() - 1;
        assert(indices.take(last) =~= init);
        assert(0 <= indices[last] < run_state(indices.take(last)).1.len());
        let prev = run_state(init);
        lemma_step_keeps_invariant(prev.0, prev.1, indices.last());
    }
}

proof fn lemma_initial_invariant()
    ensures
        shape_invariant(run_state(Seq::empty()).0, run_state(Seq::empty()).1),
        closed(run_state(Seq::empty()).0, run_state(Seq::empty()).1),
{
    let origin = site(0, 0);
    let ch = seq![origin];
    let none = Seq::<[i32; 2]>::empty();
    lemma_site_coords(0, 0);
    assert(ch[0] == origin);
    lemma_expand_keeps_invariant(ch, none, origin);
    let pred = unclaimed(ch, none);
    lemma_neighbors(origin);
    assert forall|k: int| 0 <= k < 8 implies #[trigger] pred(neighbors(origin)[k]) by {
        assert(adjacent(neighbor(origin, k), origin));
        if ch.contains(neighbor(origin, k)) {
            assert(ch[0] == neighbor(origin, k));
        }
    }
    lemma_filter_keeps_all(neighbors(origin), pred);
    assert(none + fresh_neighbors(origin, ch, none) =~= neighbors(origin));
}

/// Keeps a vector indexed like the candidate sites in step with one growth
/// step: drops the entry of the candidate promoted at `index`, then appends
/// `fresh`, the entries of the sites the step added, in their order.
pub fn follow_step<P>(values: &mut Vec<P>, index: usize, fresh: &mut Vec<P>)
    requires
        index < old(values)@.len(),
    ensures
        final(values)@ == old(values)@.remove(index as int) + old(fresh)@,
        final(fresh)@.len() == 0,
{
    values.remove(index);
    values.append(fresh);
}

/// A discharge pattern under growth: the committed charges, in the order they
/// were added, and the candidate sites eligible to become the next charge.
pub struct Lightning {
    charges: Vec<[i32; 2]>,
    candidate_sites: Vec<[i32; 2]>,
    iteration: u32,
}

impl Lightning {
    pub closed spec fn spec_charges(&self) -> Seq<[i32; 2]> {
        self.charges@
    }

    pub closed spec fn spec_candidates(&self) -> Seq<[i32; 2]> {
        self.candidate_sites@
    }

    pub closed spec fn spec_iteration(&self) -> u32 {
        self.iteration
    }

    /// The state invariant: the shape invariant, and a frontier that
    /// surrounds every charge.
    pub open spec fn wf(&self) -> bool {
        &&& shape_invariant(self.spec_charges(), self.spec_candidates())
        &&& closed(self.spec_charges(), self.spec_candidates())
    }

    /// The committed charges, seed first.
    pub fn charges(&self) -> (r: &Vec<[i32; 2]>)
        ensures
            r@ == self.spec_charges(),
    {
        &self.charges
    }

    /// The candidate sites, in frontier order.
    pub fn candidate_sites(&self) -> (r: &Vec<[i32; 2]>)
        ensures
            r@ == self.spec_candidates(),
    {
        &self.candidate_sites
    }

    /// The number of growth steps this discharge was created for.
    pub fn iteration(&self) -> (r: u32)
        ensures
            r == self.spec_iteration(),
    {
        self.iteration
    }

    /// A seed charge at the origin, surrounded by its 8 neighbours as the
    /// candidate sites, to be grown `iteration` times. Room for about four
    /// candidates per step is reserved up front.
    pub fn new(iteration: u32) -> (r: Lightning)
        ensures
            r.wf(),
            r.spec_charges() == seq![site(0, 0)],
            r.spec_candidates() == neighbors(site(0, 0)),
            r.spec_iteration() == iteration,
            (r.spec_charges(), r.spec_candidates()) == run_state(Seq::empty()),
    {
        let steps: usize = iteration as usize;
        let reserve: usize = if steps <= usize::MAX / 4 {
            steps * 4
        } else {
            steps
        };
        let origin = make_site(0, 0);
        let mut charges: Vec<[i32; 2]> = Vec::with_capacity(steps);
        charges.push(origin);
        let mut r = Lightning {
            charges,
            candidate_sites: Vec::with_capacity(reserve),
            iteration,
        };
        proof {
            assert(r.charges@ == seq![site(0, 0)]);
            lemma_site_coords(0, 0);
            assert(r.charges@[0] == origin);
        }
        r.add_neighbor(&origin);
        proof {
            let pred = unclaimed(seq![site(0, 0)], Seq::<[i32; 2]>::empty());
            lemma_neighbors(origin);
            assert forall|k: int| 0 <= k < 8 implies #[trigger] pred(neighbors(origin)[k]) by {
                assert(adjacent(neighbor(origin, k), origin));
                if seq![site(0, 0)].contains(neighbor(origin, k)) {
                    assert(seq![site(0, 0)][0] == neighbor(origin, k));
                }
            }
            lemma_filter_keeps_all(neighbors(origin), pred);
            assert(r.candidate_sites@ =~= neighbors(origin));
        }
        r
    }

    /// Promotes the candidate at `index` to a charge: it leaves the frontier,
    /// joins the charges last, and the frontier is expanded around it.
    /// Returns the new charge.
    pub fn grow_at(&mut self, index: usize) -> (r: [i32; 2])
        requires
            old(self).wf(),
            index < old(self).spec_candidates().len(),
            old(self).spec_charges().len() < MAX_CHARGES,
        ensures
            final(self).wf(),
            r == old(self).spec_candidates()[index as int],
            promoted(
                old(self).spec_charges(),
                old(self).spec_candidates(),
                index as int,
                final(self).spec_charges(),
                final(self).spec_candidates(),
            ),
            final(self).spec_iteration() == old(self).spec_iteration(),
            final(self).spec_charges().len() == old(self).spec_charges().len() + 1,
            final(self).spec_charges().subrange(0, old(self).spec_charges().len() as int)
                == old(self).spec_charges(),
            final(self).spec_charges().last() == r,
    {
        let ghost ch0 = self.charges@;
        let ghost ca0 = self.candidate_sites@;
        let charge = self.candidate_sites.remove(index);
        self.charges.push(charge);
        proof {
            lemma_promote_keeps_shape(ch0, ca0, index as int);
        }
        self.add_neighbor(&charge);
        proof {
            assert(self.charges@.subrange(0, ch0.len() as int) =~= ch0);
        }
        charge
    }

    /// One growth step. `potentials` and `phi` hold, for each candidate site,
    /// its potential and its normalised field value, and `rnd` is the random
    /// threshold drawn for this step. The reference site is the one of
    /// greatest potential (earliest on ties); the site promoted is the last
    /// one whose normalised value lies strictly between `rnd` and the
    /// reference's, or the reference when none does. Returns the index the
    /// promoted site had among the candidates.
    pub fn grow<T: PartialOrd>(&mut self, potentials: &Vec<T>, phi: &Vec<T>, rnd: &T) -> (r: usize)
        requires
            old(self).wf(),
            potentials@.len() == old(self).spec_candidates().len(),
            phi@.len() == old(self).spec_candidates().len(),
            old(self).spec_charges().len() < MAX_CHARGES,
        ensures
            final(self).wf(),
            r < old(self).spec_candidates().len(),
            T::obeys_partial_cmp_spec() ==> r == last_qualifying(
                phi@,
                *rnd,
                running_max(potentials@, potentials@.len() as int),
                phi@.len() as int,
            ),
            promoted(
                old(self).spec_charges(),
                old(self).spec_candidates(),
                r as int,
                final(self).spec_charges(),
                final(self).spec_candidates(),
            ),
            final(self).spec_iteration() == old(self).spec_iteration(),
            final(self).spec_charges().len() == old(self).spec_charges().len() + 1,
            final(self).spec_charges().subrange(0, old(self).spec_charges().len() as int)
                == old(self).spec_charges(),
            final(self).spec_charges().last() == old(self).spec_candidates()[r as int],
    {
        proof {
            lemma_frontier_nonempty(self.charges@, self.candidate_sites@);
        }
        let reference = reference_index(potentials);
        let index = select_index(phi, rnd, reference);
        self.grow_at(index);
        index
    }

    /// Appends to the frontier every 8-connected neighbour of `position` that
    /// is neither a charge nor already a candidate, in scan order.
    pub fn add_neighbor(&mut self, position: &[i32; 2])
        requires
            shape_invariant(old(self).spec_charges(), old(self).spec_candidates()),
            closed_except(old(self).spec_charges(), old(self).spec_candidates(), *position),
            old(self).spec_charges().contains(*position),
            old(self).spec_charges().len() <= MAX_CHARGES,
        ensures
            final(self).wf(),
            final(self).spec_charges() == old(self).spec_charges(),
            final(self).spec_iteration() == old(self).spec_iteration(),
            final(self).spec_candidates() == old(self).spec_candidates() + fresh_neighbors(
                *position,
                old(self).spec_charges(),
                old(self).spec_candidates(),
            ),
    {
        let ghost ch0 = self.charges@;
        let ghost ca0 = self.candidate_sites@;
        let ghost j0 = choose|j: int| 0 <= j < ch0.len() && ch0[j] == *position;
        proof {
            lemma_neighbors(*position);
        }
        let mut k: usize = 0;
        while k < 8
            invariant
                k <= 8,
                self.charges@ == ch0,
                self.iteration == old(self).iteration,
                0 <= j0 < ch0.len(),
                ch0[j0] == *position,
                ch0.len() <= MAX_CHARGES,
                within(*position, ch0.len() - 1),
                neighbors(*position).no_duplicates(),
                forall|k: int| 0 <= k < 8 ==> adjacent(#[trigger] neighbor(*position, k), *position),
                forall|k: int|
                    0 <= k < 8 ==> (#[trigger] neighbor(*position, k))[0] == position[0]
                        + offset_x(k) && neighbor(*position, k)[1] == position[1] + offset_y(k),
                shape_invariant(self.charges@, self.candidate_sites@),
                forall|x: [i32; 2]| ca0.contains(x) ==> #[trigger] self.candidate_sites@.contains(x),
                forall|q: int|
                    0 <= q < k ==> ch0.contains(#[trigger] neighbor(*position, q))
                        || self.candidate_sites@.contains(neighbor(*position, q)),
                self.candidate_sites@ == ca0 + neighbors(*position).take(k as int).filter(unclaimed(ch0, ca0)),
                forall|x: [i32; 2]|
                    #[trigger] neighbors(*position).take(k as int).filter(unclaimed(ch0, ca0)).contains(x) ==> neighbors(
                        *position,
                    ).take(k as int).contains(x),
            decreases 8 - k,
        {
            let s = neighbor_of(position, k);
            let ghost before = self.candidate_sites@;
            let ghost taken = neighbors(*position).take(k as int);
            proof {
                Seq::lemma_take_succ(neighbors(*position), k as int);
                assert(neighbors(*position).take(k as int + 1) == taken.push(s));
                taken.lemma_filter_push(s, unclaimed(ch0, ca0));
                assert(!taken.contains(s)) by {
                    if taken.contains(s) {
                        let i = choose|i: int| 0 <= i < taken.len() && taken[i] == s;
                        assert(neighbors(*position)[i] == neighbors(*position)[k as int]);
                    }
                }
                assert(before.contains(s) == ca0.contains(s)) by {
                    if before.contains(s) && !ca0.contains(s) {
                        let i = choose|i: int| 0 <= i < before.len() && before[i] == s;
                        if i < ca0.len() {
                            assert(ca0[i] == s);
                        } else {
                            assert(taken.filter(unclaimed(ch0, ca0))[i - ca0.len()] == s);
                            assert(taken.filter(unclaimed(ch0, ca0)).contains(s));
                        }
                    }
                    if ca0.contains(s) {
                        let i = choose|i: int| 0 <= i < ca0.len() && ca0[i] == s;
                        assert(before[i] == s);
                    }
                }
            }
            let is_charge = contains_site(&self.charges, &s);
            let is_candidate = contains_site(&self.candidate_sites, &s);
            proof {
                assert(unclaimed(ch0, ca0)(s) == (!is_charge && !is_candidate));
            }
            if !is_charge && !is_candidate {
                self.candidate_sites.push(s);
                proof {
                    assert(self.candidate_sites@ =~= ca0 + taken.filter(unclaimed(ch0, ca0)).push(s));
                    assert(self.candidate_sites@[before.len() as int] == s);
                    assert forall|x: [i32; 2]| before.contains(x) implies #[trigger] self.candidate_sites@.contains(x) by {
                        let i = choose|i: int| 0 <= i < before.len() && before[i] == x;
                        assert(self.candidate_sites@[i] == x);
                    }
                    assert(adjacent(self.candidate_sites@[before.len() as int], self.charges@[j0]));
                    assert forall|x: [i32; 2]|
                        #[trigger] neighbors(*position).take(k as int + 1).filter(unclaimed(ch0, ca0)).contains(
                            x,
                        ) implies neighbors(*position).take(k as int + 1).contains(x) by {
                        if x != s {
                            assert(taken.filter(unclaimed(ch0, ca0)).contains(x));
                            let i = choose|i: int| 0 <= i < taken.len() && taken[i] == x;
                            assert(neighbors(*position).take(k as int + 1)[i] == x);
                        } else {
                            assert(neighbors(*position).take(k as int + 1)[k as int] == x);
                        }
                    }
                }
            } else {
                proof {
                    assert forall|x: [i32; 2]|
                        #[trigger] neighbors(*position).take(k as int + 1).filter(unclaimed(ch0, ca0)).contains(
                            x,
                        ) implies neighbors(*position).take(k as int + 1).contains(x) by {
                        assert(taken.filter(unclaimed(ch0, ca0)).contains(x));
                        let i = choose|i: int| 0 <= i < taken.len() && taken[i] == x;
                        assert(neighbors(*position).take(k as int + 1)[i] == x);
                    }
                }
            }
            k = k + 1;
        }
        proof {
            assert(neighbors(*position).take(8) == neighbors(*position));
            assert forall|i: int, q: int|
                0 <= i < ch0.len() && 0 <= q < 8 implies ch0.contains(
                    #[trigger] neighbor(ch0[i], q),
                ) || self.candidate_sites@.contains(neighbor(ch0[i], q)) by {
                if ch0[i] != *position {
                    if ca0.contains(neighbor(ch0[i], q)) {
                        assert(self.candidate_sites@.contains(neighbor(ch0[i], q)));
                    }
                } else {
                    assert(neighbor(ch0[i], q) == neighbor(*position, q));
                }
            }
        }
    }
}

} // verus!
