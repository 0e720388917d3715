use thunder::grid::squared_distances;
use thunder::growth::{follow_step, Lightning};
use thunder::selection::reference_index;

fn potential(site: &[i32; 2], charges: &Vec<[i32; 2]>) -> f32 {
    let mut value = 0.0f32;
    for d in squared_distances(site, charges) {
        value += 1.0 - 0.5 / (d as f32).sqrt();
    }
    value
}

fn field(lightning: &Lightning) -> Vec<f32> {
    lightning
        .candidate_sites()
        .iter()
        .map(|s| potential(s, lightning.charges()))
        .collect()
}

fn normalised(potentials: &Vec<f32>, eta: f32) -> Vec<f32> {
    let mut lo = f32::MAX;
    let mut hi = f32::MIN;
    for x in potentials {
        lo = lo.min(*x);
        hi = hi.max(*x);
    }
    potentials.iter().map(|x| ((x - lo) / (hi - lo)).powf(eta)).collect()
}

fn has_duplicates(sites: &[[i32; 2]]) -> bool {
    for i in 0..sites.len() {
        for j in (i + 1)..sites.len() {
            if sites[i] == sites[j] {
                return true;
            }
        }
    }
    false
}

#[test]
fn zero_iterations_give_seed_and_its_neighbours() {
    let l = Lightning::new(0);
    assert_eq!(l.charges(), &vec![[0, 0]]);
    assert_eq!(
        l.candidate_sites(),
        &vec![[-1, -1], [-1, 0], [-1, 1], [0, -1], [0, 1], [1, -1], [1, 0], [1, 1]]
    );
    assert_eq!(l.iteration(), 0);
    for s in l.candidate_sites() {
        let p = potential(s, l.charges());
        assert!(p == 0.5 || (p - (1.0 - 0.5 / 2.0f32.sqrt())).abs() < 1e-6);
    }
}

#[test]
fn first_step_with_zero_threshold_promotes_first_corner() {
    let mut l = Lightning::new(1);
    let potentials = field(&l);
    let phi = normalised(&potentials, 1.0);
    let index = l.grow(&potentials, &phi, &0.0f32);
    assert_eq!(index, 0);
    assert_eq!(l.charges(), &vec![[0, 0], [-1, -1]]);
    assert_eq!(
        l.candidate_sites(),
        &vec![
            [-1, 0],
            [-1, 1],
            [0, -1],
            [0, 1],
            [1, -1],
            [1, 0],
            [1, 1],
            [-2, -2],
            [-2, -1],
            [-2, 0],
            [-1, -2],
            [0, -2]
        ]
    );
}

#[test]
fn grow_at_promotes_the_chosen_candidate() {
    let mut l = Lightning::new(1);
    let c = l.grow_at(6);
    assert_eq!(c, [1, 0]);
    assert_eq!(l.charges(), &vec![[0, 0], [1, 0]]);
    assert_eq!(
        l.candidate_sites(),
        &vec![
            [-1, -1],
            [-1, 0],
            [-1, 1],
            [0, -1],
            [0, 1],
            [1, -1],
            [1, 1],
            [2, -1],
            [2, 0],
            [2, 1]
        ]
    );
}

#[test]
fn add_neighbor_skips_claimed_sites() {
    let mut l = Lightning::new(0);
    let before = l.candidate_sites().len();
    l.add_neighbor(&[0, 0]);
    assert_eq!(l.candidate_sites().len(), before);
    assert_eq!(l.charges().len(), 1);
}

#[test]
fn charge_count_follows_iterations_and_sets_stay_apart() {
    let steps = 60u32;
    let mut l = Lightning::new(steps);
    let mut seed: u64 = 12345;
    for _ in 0..steps {
        seed = seed.wrapping_mul(6364136223846793005).wrapping_add(1442695040888963407);
        let n = l.candidate_sites().len();
        let before = l.charges().clone();
        let chosen = l.candidate_sites()[(seed >> 33) as usize % n];
        let c = l.grow_at((seed >> 33) as usize % n);
        assert_eq!(c, chosen);
        assert_eq!(&l.charges()[..before.len()], &before[..]);
        assert!(!has_duplicates(l.candidate_sites()));
        assert!(!has_duplicates(l.charges()));
        for s in l.candidate_sites() {
            assert!(!l.charges().contains(s));
        }
    }
    assert_eq!(l.charges().len(), steps as usize + 1);
}

#[test]
fn continued_run_keeps_earlier_charges() {
    let run = |steps: usize, extra: usize| {
        let mut l = Lightning::new(steps as u32);
        let mut taken = Vec::new();
        for k in 0..steps + extra {
            let potentials = field(&l);
            let phi = normalised(&potentials, 4.0);
            let rnd = ((k * 37) % 100) as f32 / 100.0;
            l.grow(&potentials, &phi, &rnd);
            if k + 1 == steps {
                taken = l.charges().clone();
            }
        }
        (taken, l.charges().clone())
    };
    let (short, _) = run(20, 0);
    let (prefix, long) = run(20, 15);
    assert_eq!(short, prefix);
    assert_eq!(&long[..21], &short[..]);
    assert_eq!(long.len(), 36);
}

#[test]
fn simulated_growth_stays_consistent() {
    let mut l = Lightning::new(100);
    for k in 0..100usize {
        let potentials = field(&l);
        let phi = normalised(&potentials, 2.0);
        let rnd = ((k * 53) % 97) as f32 / 97.0;
        let n = l.candidate_sites().len();
        let index = l.grow(&potentials, &phi, &rnd);
        assert!(index < n);
        assert!(potentials[index].is_finite());
    }
    assert_eq!(l.charges().len(), 101);
    assert!(!has_duplicates(l.candidate_sites()));
    for s in l.candidate_sites() {
        assert!(!l.charges().contains(s));
    }
}

#[test]
fn larger_eta_favours_the_strongest_site() {
    let count = |eta: f32| {
        let mut hits = 0u32;
        for run in 0..10u64 {
            let mut l = Lightning::new(40);
            let mut seed: u64 = run * 7919 + 1;
            for _ in 0..40 {
                seed = seed.wrapping_mul(6364136223846793005).wrapping_add(1442695040888963407);
                let rnd = (seed >> 40) as f32 / (1u64 << 24) as f32;
                let potentials = field(&l);
                let phi = normalised(&potentials, eta);
                let reference = reference_index(&potentials);
                if l.grow(&potentials, &phi, &rnd) == reference {
                    hits += 1;
                }
            }
        }
        hits
    };
    let low = count(1.0);
    let mid = count(4.0);
    let high = count(10.0);
    assert!(low < mid && mid < high, "{} {} {}", low, mid, high);
}

#[test]
fn follow_step_drops_promoted_entry_and_appends_fresh() {
    let mut values = vec![10, 20, 30, 40];
    let mut fresh = vec![50, 60];
    follow_step(&mut values, 1, &mut fresh);
    assert_eq!(values, vec![10, 30, 40, 50, 60]);
    assert!(fresh.is_empty());
}
