//! Integer lattice geometry: sites, their 8-connected neighbourhoods and
//! squared Euclidean distances between them.
use vstd::prelude::*;

verus! {

/// The site with coordinates `(x, y)`.
pub open spec fn site(x: int, y: int) -> [i32; 2] {
    [x as i32, y as i32]
}

/// Horizontal offset of the `k`-th neighbour (`k` in `0..8`), in the order
/// `dx = -1, 0, 1` outer and `dy = -1, 0, 1` inner, skipping the zero offset.
pub open spec fn offset_x(k: int) -> int {
    if k < 3 {
        -1
    } else if k < 5 {
        0
    } else {
        1
    }
}

/// Vertical offset of the `k`-th neighbour (`k` in `0..8`).
pub open spec fn offset_y(k: int) -> int {
    if k == 0 || k == 3 || k == 5 {
        -1
    } else if k == 1 || k == 6 {
        0
    } else {
        1
    }
}

/// Both coordinates of `p` lie within `[-b, b]`.
pub open spec fn within(p: [i32; 2], b: int) -> bool {
    -b <= p[0] <= b && -b <= p[1] <= b
}

/// The `k`-th 8-connected neighbour of `p`.
pub open spec fn neighbor(p: [i32; 2], k: int) -> [i32; 2] {
    site(p[0] + offset_x(k), p[1] + offset_y(k))
}

/// The 8-connected neighbourhood of `p`, in scan order.
pub open spec fn neighbors(p: [i32; 2]) -> Seq<[i32; 2]> {
    Seq::new(8, |k: int| neighbor(p, k))
}

/// `a` and `b` are distinct and touch horizontally, vertically or diagonally.
pub open spec fn adjacent(a: [i32; 2], b: [i32; 2]) -> bool {
    &&& a != b
    &&& -1 <= a[0] - b[0] <= 1
    &&& -1 <= a[1] - b[1] <= 1
}

/// Squared Euclidean distance between two sites.
pub open spec fn sq_dist(a: [i32; 2], b: [i32; 2]) -> int {
    (a[0] - b[0]) * (a[0] - b[0]) + (a[1] - b[1]) * (a[1] - b[1])
}

/// Squared distances from `p` to each point of `points`, in order.
pub open spec fn distance_profile(p: [i32; 2], points: Seq<[i32; 2]>) -> Seq<int> {
    Seq::new(points.len(), |i: int| sq_dist(p, points[i]))
}

/// `p` shifted by the vector `(dx, dy)`.
pub open spec fn translate(p: [i32; 2], dx: int, dy: int) -> [i32; 2] {
    site(p[0] + dx, p[1] + dy)
}

/// The shifted coordinates of `p` still fit in `i32`.
pub open spec fn translatable(p: [i32; 2], dx: int, dy: int) -> bool {
    &&& i32::MIN <= p[0] + dx <= i32::MAX
    &&& i32::MIN <= p[1] + dy <= i32::MAX
}

pub proof fn lemma_site_coords(x: int, y: int)
    requires
        i32::MIN <= x <= i32::MAX,
        i32::MIN <= y <= i32::MAX,
    ensures
        site(x, y)[0] == x,
        site(x, y)[1] == y,
{
}

/// Every neighbour of `p` is adjacent to it, and the neighbours are pairwise
/// distinct.
pub proof fn lemma_neighbors(p: [i32; 2])
    requires
        within(p, i32::MAX - 1),
    ensures
        forall|k: int| 0 <= k < 8 ==> adjacent(#[trigger] neighbor(p, k), p),
        forall|k: int|
            0 <= k < 8 ==> (#[trigger] neighbor(p, k))[0] == p[0] + offset_x(k) && neighbor(
                p,
                k,
            )[1] == p[1] + offset_y(k),
        neighbors(p).no_duplicates(),
{
    assert forall|k: int| 0 <= k < 8 implies (#[trigger] neighbor(p, k))[0] == p[0] + offset_x(k)
        && neighbor(p, k)[1] == p[1] + offset_y(k) && adjacent(neighbor(p, k), p) by {
        lemma_site_coords(p[0] + offset_x(k), p[1] + offset_y(k));
    }
    assert forall|i: int, j: int| 0 <= i < 8 && 0 <= j < 8 && i != j implies neighbors(p)[i]
        != neighbors(p)[j] by {
        lemma_site_coords(p[0] + offset_x(i), p[1] + offset_y(i));
        lemma_site_coords(p[0] + offset_x(j), p[1] + offset_y(j));
    }
}

/// Squared distance is unchanged when both sites are shifted by one vector.
pub proof fn lemma_sq_dist_translation(a: [i32; 2], b: [i32; 2], dx: int, dy: int)
    requires
        translatable(a, dx, dy),
        translatable(b, dx, dy),
    ensures
        sq_dist(translate(a, dx, dy), translate(b, dx, dy)) == sq_dist(a, b),
{
    lemma_site_coords(a[0] + dx, a[1] + dy);
    lemma_site_coords(b[0] + dx, b[1] + dy);
}

/// The potential at a site is a function of its distance profile to the
/// charges alone, and that profile does not change when the site and every
/// charge are shifted by the same vector: the potential is invariant under
/// translation.
pub proof fn lemma_profile_translation(
    p: [i32; 2],
    charges: Seq<[i32; 2]>,
    dx: int,
    dy: int,
)
    requires
        translatable(p, dx, dy),
        forall|i: int| 0 <= i < charges.len() ==> translatable(#[trigger] charges[i], dx, dy),
    ensures
        distance_profile(
            translate(p, dx, dy),
            Seq::new(charges.len(), |i: int| translate(charges[i], dx, dy)),
        ) == distance_profile(p, charges),
{
    let moved = Seq::new(charges.len(), |i: int| translate(charges[i], dx, dy));
    assert forall|i: int| 0 <= i < charges.len() implies sq_dist(translate(p, dx, dy), moved[i])
        == sq_dist(p, charges[i]) by {
        lemma_sq_dist_translation(p, charges[i], dx, dy);
    }
    assert(distance_profile(translate(p, dx, dy), moved) =~= distance_profile(p, charges));
}

/// Builds the site `(x, y)`.
pub fn make_site(x: i32, y: i32) -> (r: [i32; 2])
    ensures
        r == site(x as int, y as int),
        r[0] == x,
        r[1] == y,
{
    [x, y]
}

/// Whether two sites coincide.
pub fn same_site(a: &[i32; 2], b: &[i32; 2]) -> (r: bool)
    ensures
        r == (*a == *b),
{
    let r = a[0] == b[0] && a[1] == b[1];
    proof {
        if r {
            assert(*a =~= *b);
        }
    }
    r
}

/// Whether `s` occurs in `sites` (a linear scan).
pub fn contains_site(sites: &Vec<[i32; 2]>, s: &[i32; 2]) -> (r: bool)
    ensures
        r == sites@.contains(*s),
{
    let mut i: usize = 0;
    while i < sites.len()
        invariant
            i <= sites@.len(),
            forall|j: int| 0 <= j < i ==> sites@[j] != *s,
        decreases sites.len() - i,
    {
        if same_site(&sites[i], s) {
            assert(sites@[i as int] == *s);
            return true;
        }
        i = i + 1;
    }
    false
}

/// The `k`-th 8-connected neighbour of `p`.
pub fn neighbor_of(p: &[i32; 2], k: usize) -> (r: [i32; 2])
    requires
        k < 8,
        within(*p, i32::MAX - 1),
    ensures
        r == neighbor(*p, k as int),
        r[0] == p[0] + offset_x(k as int),
        r[1] == p[1] + offset_y(k as int),
{
    let dx: i32 = if k < 3 {
        -1
    } else if k < 5 {
        0
    } else {
        1
    };
    let dy: i32 = if k == 0 || k == 3 || k == 5 {
        -1
    } else if k == 1 || k == 6 {
        0
    } else {
        1
    };
    make_site(p[0] + dx, p[1] + dy)
}

/// Squared Euclidean distance between `a` and `b`; wide enough that it cannot
/// overflow for any pair of `i32` coordinates.
pub fn squared_distance(a: &[i32; 2], b: &[i32; 2]) -> (r: u128)
    ensures
        r == sq_dist(*a, *b),
{
    let dx: i128 = a[0] as i128 - b[0] as i128;
    let dy: i128 = a[1] as i128 - b[1] as i128;
    assert(0 <= dx * dx <= 0x1_0000_0000 * 0x1_0000_0000) by (nonlinear_arith)
        requires
            -0x1_0000_0000 <= dx <= 0x1_0000_0000,
    ;
    assert(0 <= dy * dy <= 0x1_0000_0000 * 0x1_0000_0000) by (nonlinear_arith)
        requires
            -0x1_0000_0000 <= dy <= 0x1_0000_0000,
    ;
    (dx * dx + dy * dy) as u128
}

/// Squared distances from `p` to each of `points`, in order: the input from
/// which the potential at `p` is summed.
pub fn squared_distances(p: &[i32; 2], points: &Vec<[i32; 2]>) -> (r: Vec<u128>)
    ensures
        r@.len() == points@.len(),
        forall|i: int| 0 <= i < points@.len() ==> r@[i] == sq_dist(*p, #[trigger] points@[i]),
        r@.map_values(|d: u128| d as int) == distance_profile(*p, points@),
{
    let mut r: Vec<u128> = Vec::with_capacity(points.len());
    let mut i: usize = 0;
    while i < points.len()
        invariant
            i <= points@.len(),
            r@.len() == i,
            forall|j: int| 0 <= j < i ==> r@[j] == sq_dist(*p, #[trigger] points@[j]),
        decreases points.len() - i,
    {
        let d = squared_distance(p, &points[i]);
        r.push(d);
        i = i + 1;
    }
    assert(r@.map_values(|d: u128| d as int) =~= distance_profile(*p, points@));
    r
}

} // verus!
