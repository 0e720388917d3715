use thunder::selection::{reference_index, select_index};

#[test]
fn reference_index_keeps_earliest_maximum() {
    assert_eq!(reference_index(&vec![3, 5, 5, 1]), 1);
    assert_eq!(reference_index(&vec![7]), 0);
    assert_eq!(reference_index(&vec![2.0f32, 2.0, 2.0]), 0);
    assert_eq!(reference_index(&vec![0.1f32, 0.9, 0.4, 0.9]), 1);
}

#[test]
fn select_index_takes_last_qualifying_site() {
    let phi = vec![1.0f32, 0.3, 0.7, 0.2, 0.6];
    assert_eq!(select_index(&phi, &0.5, 0), 4);
    assert_eq!(select_index(&phi, &0.25, 0), 4);
    assert_eq!(select_index(&phi, &0.65, 0), 2);
    assert_eq!(select_index(&vec![10, 4, 7, 2], &3, 0), 2);
}

#[test]
fn select_index_falls_back_to_reference() {
    let phi = vec![0.0f32, 1.0, 0.0, 1.0];
    assert_eq!(select_index(&phi, &0.0, 1), 1);
    assert_eq!(select_index(&phi, &0.99, 3), 3);
}

#[test]
fn flat_field_selects_reference() {
    let phi = vec![f32::NAN; 8];
    assert_eq!(select_index(&phi, &0.0, 0), 0);
    assert_eq!(select_index(&phi, &0.5, 5), 5);
}
