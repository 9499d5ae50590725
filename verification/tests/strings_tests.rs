use systile::editdist::TensorEditDistance;

#[test]
fn classic_edit_distances() {
    let ed = TensorEditDistance::new();
    assert_eq!(ed.distance_str("kitten", "sitting"), 3);
    assert_eq!(ed.distance_str("flaw", "lawn"), 2);
    assert_eq!(ed.distance_str("gumbo", "gambol"), 2);
    assert_eq!(ed.distance_str("", "abc"), 3);
    assert_eq!(ed.distance_str("abc", ""), 3);
    assert_eq!(ed.distance_str("same", "same"), 0);
    assert_eq!(ed.distance_str("", ""), 0);
}

#[test]
fn edit_distance_on_bytes_is_symmetric() {
    let ed = TensorEditDistance::new();
    let pairs: [(&[u8], &[u8]); 3] = [(b"abcdef", b"azced"), (b"intention", b"execution"), (b"a", b"b")];
    let expected = [3usize, 5, 1];
    for ((a, b), e) in pairs.iter().zip(expected) {
        assert_eq!(ed.distance(a, b), e);
        assert_eq!(ed.distance(b, a), e);
    }
}

#[test]
fn edit_distance_symmetry_on_strings() {
    let ed = TensorEditDistance::new();
    for (a, b) in [("kitten", "sitting"), ("", "xyz"), ("abc", "cba")] {
        assert_eq!(ed.distance_str(a, b), ed.distance_str(b, a));
    }
}
