use systile::conv::TensorConv;
use systile::resonator::{FactorSearch, Factorization};

#[test]
fn im2col_gathers_windows() {
    assert_eq!(TensorConv::im2col(&[1u32, 2, 3, 4], 2), vec![1, 2, 2, 3, 3, 4]);
    assert_eq!(TensorConv::im2col(&[1u32, 2, 3], 3), vec![1, 2, 3]);
    assert!(TensorConv::im2col(&[1u32, 2], 3).is_empty());
    let signal: Vec<f32> = (0..10).map(|i| i as f32).collect();
    let cols = TensorConv::im2col(&signal, 4);
    assert_eq!(cols.len(), TensorConv::windows(10, 4) * 4);
    for w in 0..7 {
        assert_eq!(&cols[w * 4..w * 4 + 4], &signal[w..w + 4]);
    }
}

#[test]
fn search_stops_at_first_verified_attempt() {
    let mut s = FactorSearch::new(10, 3);
    assert_eq!(s.next_restart(), Some(0));
    assert_eq!(s.record(vec![1, 2], 10, false), None);
    assert_eq!(s.next_restart(), Some(1));
    let won = s.record(vec![3, 4], 4, true);
    assert_eq!(
        won,
        Some(Factorization { factors: vec![3, 4], iterations: 4, converged: true, verified: true, restarts: 1 })
    );
    assert_eq!(s.next_restart(), None);
}

#[test]
fn search_reports_first_attempt_when_none_verifies() {
    let mut s = FactorSearch::new(5, 2);
    assert_eq!(s.finish(), None);
    assert_eq!(s.record(vec![7, 8], 5, false), None);
    assert_eq!(s.record(vec![9, 9], 2, false), None);
    assert_eq!(s.next_restart(), None);
    assert_eq!(
        s.finish(),
        Some(Factorization { factors: vec![7, 8], iterations: 5, converged: false, verified: false, restarts: 1 })
    );
}

#[test]
fn search_runs_at_least_once() {
    let mut s = FactorSearch::new(5, 0);
    assert_eq!(s.next_restart(), Some(0));
    assert_eq!(s.record(vec![1], 5, false), None);
    assert_eq!(s.next_restart(), None);
    assert_eq!(s.finish().unwrap().restarts, 0);
    // An attempt that hits the iteration cap is not converged even if verified.
    let mut t = FactorSearch::new(5, 1);
    let f = t.record(vec![2], 5, true).unwrap();
    assert!(f.verified && !f.converged);
}
