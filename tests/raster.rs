use thunder::raster::{render_pixels, write_debug_lightning, CANDIDATE_LEVEL, CHARGE_LEVEL};

#[test]
fn pixels_centre_on_origin_and_clip() {
    let charges = vec![[0, 0], [-1, -1], [10, 0]];
    let candidates = vec![[1, 0], [0, -5]];
    let data = render_pixels(&charges, &candidates, 4, 3);
    let mut expected = vec![0u8; 12];
    expected[2 + 4 * 1] = CHARGE_LEVEL;
    expected[1 + 4 * 0] = CHARGE_LEVEL;
    expected[3 + 4 * 1] = CANDIDATE_LEVEL;
    assert_eq!(data, expected);
    assert_eq!(CHARGE_LEVEL, 255);
    assert_eq!(CANDIDATE_LEVEL, 127);
}

#[test]
fn candidates_are_painted_over_charges() {
    let data = render_pixels(&vec![[0, 0]], &vec![[0, 0]], 2, 2);
    assert_eq!(data, vec![0, 0, 0, CANDIDATE_LEVEL]);
}

#[test]
fn debug_picture_is_a_png() {
    let bytes = write_debug_lightning(&vec![[0, 0]], &vec![[1, 1]], 8, 6).ok().unwrap();
    assert_eq!(&bytes[..8], &[137, 80, 78, 71, 13, 10, 26, 10]);
    assert!(bytes.len() > 8 + 25);
    assert_eq!(&bytes[12..16], b"IHDR");
    assert_eq!(&bytes[16..20], &[0, 0, 0, 8]);
    assert_eq!(&bytes[20..24], &[0, 0, 0, 6]);
    assert_eq!(bytes[24], 8);
    assert_eq!(bytes[25], 0);
}

#[test]
fn empty_picture_is_refused() {
    assert!(write_debug_lightning(&vec![[0, 0]], &vec![], 0, 5).is_err());
    assert!(write_debug_lightning(&vec![[0, 0]], &vec![], 5, 0).is_err());
}
