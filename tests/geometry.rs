use thunder::grid::{contains_site, make_site, neighbor_of, same_site, squared_distance, squared_distances};

#[test]
fn squared_distance_values() {
    assert_eq!(squared_distance(&[0, 0], &[3, 4]), 25);
    assert_eq!(squared_distance(&[-1, -1], &[0, 0]), 2);
    assert_eq!(
        squared_distance(&[i32::MIN, i32::MIN], &[i32::MAX, i32::MAX]),
        2 * (u32::MAX as u128) * (u32::MAX as u128)
    );
}

#[test]
fn distances_are_translation_invariant() {
    let charges = vec![[0, 0], [1, 2], [-3, 5]];
    let moved: Vec<[i32; 2]> = charges.iter().map(|c| [c[0] + 7, c[1] - 11]).collect();
    let a = squared_distances(&[2, 2], &charges);
    let b = squared_distances(&[9, -9], &moved);
    assert_eq!(a, vec![8, 1, 34]);
    assert_eq!(a, b);
}

#[test]
fn neighbours_in_scan_order() {
    let got: Vec<[i32; 2]> = (0..8).map(|k| neighbor_of(&[5, -2], k)).collect();
    assert_eq!(
        got,
        vec![[4, -3], [4, -2], [4, -1], [5, -3], [5, -1], [6, -3], [6, -2], [6, -1]]
    );
}

#[test]
fn site_membership() {
    let v = vec![[1, 2], [3, 4]];
    assert!(contains_site(&v, &[3, 4]));
    assert!(!contains_site(&v, &[4, 3]));
    assert!(same_site(&make_site(1, 2), &[1, 2]));
    assert!(!same_site(&[1, 2], &[1, 3]));
}
