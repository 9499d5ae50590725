use systile::error::LatticeError;
use systile::geometry::Geometry;
use systile::lattice::PaddedTileLattice;

#[test]
fn from_dense_round_trips() {
    let g = Geometry::tiny();
    let data: Vec<u64> = vec![1, 2, 3, 4, 5, 6];
    let l = PaddedTileLattice::from_dense(2, 3, &data, g).unwrap();
    assert_eq!(l.rows(), 2);
    assert_eq!(l.cols(), 3);
    assert_eq!(*l.get(1, 2).unwrap(), 6);
    assert_eq!(l.to_dense(), data);
}

#[test]
fn from_dense_rejects_wrong_length() {
    let g = Geometry::tiny();
    let data: Vec<u64> = vec![1, 2, 3];
    let r = PaddedTileLattice::from_dense(2, 3, &data, g);
    assert_eq!(r.err(), Some(LatticeError::BufferLengthMismatch { expected: 6, actual: 3 }));
}

#[test]
fn zero_tile_dimension_is_refused() {
    let bad = Geometry { sublanes: 0, lanes: 4, mxu: 4 };
    let data: Vec<u64> = vec![1, 2];
    assert_eq!(PaddedTileLattice::from_dense(1, 2, &data, bad).err(), Some(LatticeError::ZeroTileDimension));
    assert_eq!(PaddedTileLattice::filled(1, 2, 7u64, bad).err(), Some(LatticeError::ZeroTileDimension));
    assert_eq!(PaddedTileLattice::<u64>::zeroed(1, 2, bad).err(), Some(LatticeError::ZeroTileDimension));
}

#[test]
fn get_and_set_check_bounds() {
    let mut l = PaddedTileLattice::filled(3, 5, 7u64, Geometry::tiny()).unwrap();
    assert_eq!(l.get(3, 0).err(), Some(LatticeError::IndexOutOfBounds { row: 3, col: 0 }));
    assert_eq!(l.get(0, 5).err(), Some(LatticeError::IndexOutOfBounds { row: 0, col: 5 }));
    assert_eq!(l.set(2, 4, 9), Ok(()));
    assert_eq!(*l.get(2, 4).unwrap(), 9);
    assert_eq!(*l.get(2, 3).unwrap(), 7);
    assert_eq!(l.set(5, 5, 1), Err(LatticeError::IndexOutOfBounds { row: 5, col: 5 }));
    let dense = l.to_dense();
    assert_eq!(dense.len(), 15);
    assert_eq!(dense.iter().filter(|&&x| x == 9).count(), 1);
}

#[test]
fn storage_is_tiled() {
    let g = Geometry::tiny();
    let data: Vec<u64> = (1..=15).collect();
    let l = PaddedTileLattice::from_dense(3, 5, &data, g).unwrap();
    let storage = l.as_storage_slice();
    assert_eq!(storage.len(), 32);
    // Tile (0, 0) holds rows 0..2, cols 0..4.
    assert_eq!(l.tile_slice(0, 0), &[1, 2, 3, 4, 6, 7, 8, 9]);
    // Tile (0, 1) holds col 4 of rows 0 and 1, the rest is padding.
    let t01 = l.tile_slice(0, 1);
    assert_eq!(t01[0], 5);
    assert_eq!(t01[4], 10);
    // Tile (1, 0): row 2 is logical, row 3 is padding.
    assert_eq!(&l.tile_slice(1, 0)[0..4], &[11, 12, 13, 14]);
    assert_eq!(l.shape().padded_rows, 4);
    assert_eq!(l.shape().padded_cols, 8);
    assert_eq!(*l.geometry(), g);
}

#[test]
fn zeroed_is_all_default() {
    let l = PaddedTileLattice::<u64>::zeroed(4, 9, Geometry::tpu_v()).unwrap();
    assert_eq!(l.to_dense(), vec![0u64; 36]);
    let m = l.mask();
    assert!(m.is_valid(3, 8, l.shape()));
    assert!(!m.is_valid(4, 8, l.shape()));
}

#[test]
fn map_applies_to_every_element() {
    let data: Vec<u64> = vec![1, 2, 3, 4, 5, 6];
    let l = PaddedTileLattice::from_dense(2, 3, &data, Geometry::tiny()).unwrap();
    let doubled = l.map(|x: &u64| *x * 2);
    assert_eq!(doubled.to_dense(), vec![2, 4, 6, 8, 10, 12]);
    let odd = l.map(|x: &u64| *x % 2 == 1);
    assert_eq!(odd.to_dense(), vec![true, false, true, false, true, false]);
    assert_eq!((odd.rows(), odd.cols()), (2, 3));
}

#[test]
fn map_in_place_rewrites_elements() {
    let data: Vec<u64> = vec![1, 2, 3, 4, 5, 6];
    let mut l = PaddedTileLattice::from_dense(3, 2, &data, Geometry::tiny()).unwrap();
    l.map_in_place(|x: &u64| *x + 10);
    assert_eq!(l.to_dense(), vec![11, 12, 13, 14, 15, 16]);
    assert_eq!((l.rows(), l.cols()), (3, 2));
}

#[test]
fn zip_with_combines_and_checks_shapes() {
    let g = Geometry::tiny();
    let a = PaddedTileLattice::from_dense(2, 2, &[1u64, 2, 3, 4], g).unwrap();
    let b = PaddedTileLattice::from_dense(2, 2, &[10u64, 20, 30, 40], g).unwrap();
    let s = a.zip_with(&b, |x: &u64, y: &u64| *x + *y).unwrap();
    assert_eq!(s.to_dense(), vec![11, 22, 33, 44]);
    let c = PaddedTileLattice::from_dense(2, 3, &[0u64; 6], g).unwrap();
    assert_eq!(
        a.zip_with(&c, |x: &u64, y: &u64| *x + *y).err(),
        Some(LatticeError::ContractionMismatch { lhs_cols: 2, rhs_rows: 2 })
    );
    let d = PaddedTileLattice::from_dense(2, 2, &[0u64; 4], Geometry::tpu_v()).unwrap();
    assert_eq!(a.zip_with(&d, |x: &u64, y: &u64| *x + *y).err(), Some(LatticeError::GeometryMismatch));
}

#[test]
fn padding_holds_the_default() {
    let g = Geometry::tiny();
    let data: Vec<u64> = (1..=15).collect();
    let l = PaddedTileLattice::from_dense(3, 5, &data, g).unwrap();
    let storage = l.as_storage_slice();
    let logical: u64 = storage.iter().filter(|&&x| x != 0).count() as u64;
    assert_eq!(logical, 15);
    assert_eq!(storage.iter().sum::<u64>(), (1..=15).sum::<u64>());
    let doubled = l.map(|x: &u64| *x * 2);
    assert_eq!(doubled.as_storage_slice().iter().filter(|&&x| x != 0).count(), 15);
    let filled = PaddedTileLattice::filled(3, 5, 7u64, g).unwrap();
    assert!(filled.as_storage_slice().iter().all(|&x| x == 7));
    let mut m = PaddedTileLattice::filled(3, 5, 7u64, g).unwrap();
    m.map_in_place(|x: &u64| *x + 1);
    let s = m.as_storage_slice();
    assert_eq!(s.iter().filter(|&&x| x == 8).count(), 15);
    assert_eq!(s.iter().filter(|&&x| x == 7).count(), 32 - 15);
}
