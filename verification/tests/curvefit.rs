use neuro_arg::curvefit::{mismatches, parse_points};

#[test]
fn points_test() {
    assert_eq!(parse_points(b"1,2\n-3,4,5,6\n"), Some(vec![(1, 2), (-3, 4)]));
    assert_eq!(parse_points(b"1,2\n7,8"), Some(vec![(1, 2)]));
    assert_eq!(parse_points(b""), Some(vec![]));
    assert_eq!(parse_points(b"1,2,3\n"), None);
    assert_eq!(parse_points(b"1\n"), None);
    assert_eq!(parse_points(b"1,x\n"), None);
    assert_eq!(parse_points(b"\n"), None);
}

#[test]
fn mismatches_test() {
    assert_eq!(mismatches(&[1, 2, 3, 4], &[1, 2, 3, 4]), 0);
    assert_eq!(mismatches(&[1, 2, 3, 4], &[0, 1, 2, 3]), 4);
    assert_eq!(mismatches(&[1, 2, 3, 4], &[0, 2, 3, 4]), 1);
}

fn hamming_distance(a: &[i32], b: &[i32]) -> f32 {
    assert_eq!(a.len(), b.len());
    mismatches(a, b) as f32 / a.len() as f32
}

#[test]
fn test_hamming_distance() {
    assert_eq!(hamming_distance(&[1, 2, 3, 4], &[1, 2, 3, 4]), 0.0);
    assert_eq!(hamming_distance(&[1, 2, 3, 4], &[0, 1, 2, 3]), 1.0);
    assert_eq!(hamming_distance(&[1, 2, 3, 4], &[0, 2, 3, 4]), 0.25);
}
