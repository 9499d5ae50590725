use systile::classifier::HoloClassifier;

#[test]
fn classifier_learns_separable_classes() {
    let mut clf = HoloClassifier::new(2048, 4, 8, 2, 7);
    assert_eq!(clf.n_classes(), 2);
    let low: [&[usize]; 3] = [&[0, 1, 0, 1], &[1, 0, 1, 0], &[0, 0, 1, 1]];
    let high: [&[usize]; 3] = [&[7, 6, 7, 6], &[6, 7, 6, 7], &[7, 7, 6, 6]];
    for s in low {
        clf.train(s, 0);
    }
    for s in high {
        clf.train(s, 1);
    }
    assert_eq!(clf.class_count(0), 3);
    assert_eq!(clf.class_count(1), 3);
    assert_eq!(clf.classify(&[0, 1, 1, 0]), 0);
    assert_eq!(clf.classify(&[7, 6, 6, 7]), 1);
    let batch: [&[usize]; 2] = [&[1, 1, 0, 0], &[6, 6, 7, 7]];
    assert_eq!(clf.classify_batch(&batch), vec![0, 1]);
}

#[test]
fn encodings_are_deterministic_and_bipolar() {
    let clf = HoloClassifier::new(64, 3, 4, 1, 11);
    let a = clf.encode(&[0, 1, 2]);
    assert_eq!(a.len(), 64);
    assert_eq!(a, clf.encode(&[0, 1, 2]));
    // One feature: the encoding is position ⊛ level, the sign of a single term.
    let one = HoloClassifier::new(64, 1, 1, 1, 3);
    let e = one.encode(&[0]);
    assert_eq!(e.len(), 64);
}

#[test]
fn untrained_classes_tie_and_the_first_wins() {
    let clf = HoloClassifier::new(32, 2, 3, 3, 1);
    assert_eq!(clf.classify(&[0, 2]), 0);
    assert!(clf.classify_batch(&[]).is_empty());
}
