use systile::error::LatticeError;
use systile::geometry::Geometry;
use systile::lattice::PaddedTileLattice;
use systile::semiring::{semiring_matmul, Boolean, Counting, Semiring, Tropical};

#[test]
fn boolean_operations() {
    assert!(!Boolean::zero());
    assert!(Boolean::one());
    assert!(Boolean::add(true, false));
    assert!(!Boolean::add(false, false));
    assert!(Boolean::mul(true, true));
    assert!(!Boolean::mul(true, false));
}

#[test]
fn tropical_operations() {
    assert_eq!(Tropical::zero(), u64::MAX);
    assert_eq!(Tropical::one(), 0);
    assert_eq!(Tropical::add(3, 5), 3);
    assert_eq!(Tropical::add(u64::MAX, 5), 5);
    assert_eq!(Tropical::mul(3, 5), 8);
    // Infinity absorbs, and sums that reach the top saturate to infinity.
    assert_eq!(Tropical::mul(u64::MAX, 5), u64::MAX);
    assert_eq!(Tropical::mul(u64::MAX - 1, 1), u64::MAX);
    assert_eq!(Tropical::mul(u64::MAX - 2, 1), u64::MAX - 1);
}

#[test]
fn counting_operations_wrap() {
    assert_eq!(Counting::zero(), 0);
    assert_eq!(Counting::one(), 1);
    assert_eq!(Counting::add(2, 3), 5);
    assert_eq!(Counting::mul(4, 6), 24);
    assert_eq!(Counting::add(u64::MAX, 2), 1);
    assert_eq!(Counting::mul(1 << 63, 2), 0);
}

#[test]
fn counting_matmul_is_ordinary_matmul() {
    let g = Geometry::tpu_v();
    let a = PaddedTileLattice::from_dense(2, 3, &[1u64, 2, 3, 4, 5, 6], g).unwrap();
    let b = PaddedTileLattice::from_dense(3, 2, &[7u64, 8, 9, 10, 11, 12], g).unwrap();
    let c = semiring_matmul::<Counting>(&a, &b).unwrap();
    assert_eq!(c.to_dense(), vec![58, 64, 139, 154]);
}

#[test]
fn tropical_matmul_is_min_plus() {
    let g = Geometry::tiny();
    let inf = u64::MAX;
    let a = PaddedTileLattice::from_dense(2, 2, &[0u64, 3, inf, 0], g).unwrap();
    let b = PaddedTileLattice::from_dense(2, 2, &[0u64, 1, 4, 0], g).unwrap();
    let c = semiring_matmul::<Tropical>(&a, &b).unwrap();
    // c[0][0] = min(0+0, 3+4) = 0; c[0][1] = min(0+1, 3+0) = 1;
    // c[1][0] = min(inf, 0+4) = 4; c[1][1] = min(inf, 0+0) = 0.
    assert_eq!(c.to_dense(), vec![0, 1, 4, 0]);
}

#[test]
fn boolean_matmul_composes_relations() {
    let g = Geometry::tiny();
    let a = PaddedTileLattice::from_dense(2, 2, &[false, true, false, false], g).unwrap();
    let b = PaddedTileLattice::from_dense(2, 2, &[false, false, true, false], g).unwrap();
    let c = semiring_matmul::<Boolean>(&a, &b).unwrap();
    assert_eq!(c.to_dense(), vec![true, false, false, false]);
}

#[test]
fn matmul_errors() {
    let g = Geometry::tiny();
    let a = PaddedTileLattice::from_dense(2, 3, &[1u64; 6], g).unwrap();
    let b = PaddedTileLattice::from_dense(2, 2, &[1u64; 4], g).unwrap();
    assert_eq!(
        semiring_matmul::<Counting>(&a, &b).err(),
        Some(LatticeError::ContractionMismatch { lhs_cols: 3, rhs_rows: 2 })
    );
    let c = PaddedTileLattice::from_dense(3, 2, &[1u64; 6], Geometry::tpu_v()).unwrap();
    assert_eq!(semiring_matmul::<Counting>(&a, &c).err(), Some(LatticeError::GeometryMismatch));
}

#[test]
fn semiring_laws_on_samples() {
    let trop = [0u64, 1, 7, 1 << 40, u64::MAX - 3, u64::MAX];
    for &a in &trop {
        assert_eq!(Tropical::add(a, Tropical::zero()), a);
        assert_eq!(Tropical::mul(a, Tropical::one()), a);
        assert_eq!(Tropical::mul(a, Tropical::zero()), Tropical::zero());
        for &b in &trop {
            assert_eq!(Tropical::add(a, b), Tropical::add(b, a));
            for &c in &trop {
                assert_eq!(Tropical::add(Tropical::add(a, b), c), Tropical::add(a, Tropical::add(b, c)));
                assert_eq!(Tropical::mul(Tropical::mul(a, b), c), Tropical::mul(a, Tropical::mul(b, c)));
                assert_eq!(
                    Tropical::mul(a, Tropical::add(b, c)),
                    Tropical::add(Tropical::mul(a, b), Tropical::mul(a, c))
                );
            }
        }
    }
    let count = [0u64, 1, 3, u64::MAX, 1 << 63];
    for &a in &count {
        for &b in &count {
            for &c in &count {
                assert_eq!(
                    Counting::mul(a, Counting::add(b, c)),
                    Counting::add(Counting::mul(a, b), Counting::mul(a, c))
                );
            }
        }
    }
    for a in [false, true] {
        for b in [false, true] {
            for c in [false, true] {
                assert_eq!(Boolean::mul(a, Boolean::add(b, c)), Boolean::add(Boolean::mul(a, b), Boolean::mul(a, c)));
            }
        }
    }
}
