//! The two scans of the growth rule: the running "biased maximum" over the
//! potentials, and the "last qualifying site" scan over the normalised field.
//! They are generic over the value type so that any ordered scalar can carry
//! the field; under a lawful order their result is pinned down exactly, and
//! under any order the index they return is in range.
use vstd::prelude::*;
use core::cmp::Ordering;
use vstd::std_specs::cmp::PartialOrdSpec;

verus! {

/// `a < b` under the order that `T` declares.
pub open spec fn below<T: PartialOrd>(a: T, b: T) -> bool {
    a.partial_cmp_spec(&b) == Some(Ordering::Less)
}

/// Index held by the running scan after reading the first `n` values: it
/// moves to `i` whenever the value held is below `values[i]`, so ties keep
/// the earliest maximal site.
pub open spec fn running_max<T: PartialOrd>(values: Seq<T>, n: int) -> int
    decreases n,
{
    if n <= 0 {
        0
    } else {
        let prev = running_max(values, n - 1);
        if below(values[prev], values[n - 1]) {
            n - 1
        } else {
            prev
        }
    }
}

/// The site the threshold scan picks: the last index whose value lies
/// strictly between `threshold` and the value at `reference`, or `reference`
/// itself when there is none.
pub open spec fn last_qualifying<T: PartialOrd>(
    phi: Seq<T>,
    threshold: T,
    reference: int,
    n: int,
) -> int
    decreases n,
{
    if n <= 0 {
        reference
    } else if below(threshold, phi[n - 1]) && below(phi[n - 1], phi[reference]) {
        n - 1
    } else {
        last_qualifying(phi, threshold, reference, n - 1)
    }
}

/// Index of the site with the greatest potential, found by a running
/// comparison against the best so far: the earliest of equal maxima wins.
pub fn reference_index<T: PartialOrd>(potentials: &Vec<T>) -> (r: usize)
    requires
        potentials@.len() > 0,
    ensures
        r < potentials@.len(),
        T::obeys_partial_cmp_spec() ==> r == running_max(potentials@, potentials@.len() as int),
{
    let mut index: usize = 0;
    let mut i: usize = 0;
    while i < potentials.len()
        invariant
            i <= potentials@.len(),
            potentials@.len() > 0,
            index < potentials@.len(),
            index <= i,
            T::obeys_partial_cmp_spec() ==> index == running_max(potentials@, i as int),
        decreases potentials.len() - i,
    {
        if potentials[index] < potentials[i] {
            index = i;
        }
        i = i + 1;
    }
    index
}

/// The site that the threshold scan promotes: among the sites whose
/// normalised value exceeds `threshold` and is below the value at
/// `reference`, the last one met; `reference` when none qualifies (as on a
/// flat field, whose normalised values compare false with everything).
pub fn select_index<T: PartialOrd>(phi: &Vec<T>, threshold: &T, reference: usize) -> (r: usize)
    requires
        reference < phi@.len(),
    ensures
        r < phi@.len(),
        T::obeys_partial_cmp_spec() ==> r == last_qualifying(
            phi@,
            *threshold,
            reference as int,
            phi@.len() as int,
        ),
{
    let mut chosen: usize = reference;
    let mut i: usize = 0;
    while i < phi.len()
        invariant
            i <= phi@.len(),
            reference < phi@.len(),
            chosen < phi@.len(),
            T::obeys_partial_cmp_spec() ==> chosen == last_qualifying(
                phi@,
                *threshold,
                reference as int,
                i as int,
            ),
        decreases phi.len() - i,
    {
        if *threshold < phi[i] && phi[i] < phi[reference] {
            chosen = i;
        }
        i = i + 1;
    }
    chosen
}

} // verus!
