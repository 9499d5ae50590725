use systile::bloom::TensorBloom;
use systile::sketch::CountMinSketch;

#[test]
fn bloom_has_no_false_negatives() {
    let mut bloom = TensorBloom::new(2048, 5, 0xB1005);
    for i in 0..300u64 {
        bloom.insert(i * 2);
    }
    assert_eq!(bloom.inserted(), 300);
    assert_eq!(bloom.slots(), 2048);
    assert_eq!(bloom.hashes(), 5);
    let queries: Vec<u64> = (0..600).collect();
    let hits = bloom.batch_contains(&queries);
    assert_eq!(hits.len(), 600);
    for (q, &present) in queries.iter().zip(&hits) {
        if q % 2 == 0 {
            assert!(present, "member {q} missed");
        }
        assert_eq!(present, bloom.contains(*q));
    }
    let false_pos = queries.iter().zip(&hits).filter(|(q, &p)| *q % 2 == 1 && p).count();
    assert!(false_pos < 150, "false positives {false_pos}");
}

#[test]
fn bloom_remove_undoes_insert() {
    let mut bloom = TensorBloom::new(256, 3, 7);
    assert!(!bloom.contains(42));
    bloom.insert(42);
    assert!(bloom.contains(42));
    assert_eq!(bloom.inserted(), 1);
    bloom.remove(42);
    assert!(!bloom.contains(42));
    assert_eq!(bloom.inserted(), 0);
    // Removing from an empty filter changes nothing.
    bloom.remove(42);
    assert_eq!(bloom.inserted(), 0);
    assert!(!bloom.contains(42));
}

#[test]
fn bloom_keeps_other_members_on_insert() {
    let mut bloom = TensorBloom::new(64, 4, 1);
    bloom.insert(1);
    bloom.insert(2);
    bloom.insert(3);
    assert!(bloom.contains(1) && bloom.contains(2) && bloom.contains(3));
    bloom.remove(2);
    assert!(bloom.contains(1) && bloom.contains(3));
}

#[test]
fn sketch_never_underestimates() {
    let mut cms = CountMinSketch::new(4, 512, 0x5037CB);
    for i in 0..20u64 {
        cms.add(i, i + 1);
    }
    assert_eq!(cms.total(), 210);
    assert_eq!(cms.rows(), 4);
    assert_eq!(cms.width(), 512);
    let items: Vec<u64> = (0..20).collect();
    let est = cms.batch_estimate(&items);
    for (i, &e) in est.iter().enumerate() {
        assert!(e >= (i as u64) + 1, "item {i}");
        assert!(e <= cms.total());
        assert_eq!(e, cms.estimate(i as u64));
    }
}

#[test]
fn sketch_counts_exactly_without_collisions() {
    let mut cms = CountMinSketch::new(3, 1024, 99);
    cms.insert(5);
    cms.insert(5);
    cms.add(5, 3);
    assert_eq!(cms.total(), 5);
    assert_eq!(cms.estimate(5), 5);
    let fresh = CountMinSketch::new(3, 1024, 99);
    assert_eq!(fresh.estimate(5), 0);
    assert_eq!(fresh.total(), 0);
}
