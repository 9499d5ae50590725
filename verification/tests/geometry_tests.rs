use systile::error::LatticeError;
use systile::geometry::Geometry;
use systile::layout::Layout;
use systile::mask::Mask;
use systile::shape::Shape;

#[test]
fn canonical_geometries() {
    let g = Geometry::tpu_v();
    assert_eq!((g.sublanes, g.lanes, g.mxu), (8, 128, 128));
    assert_eq!(g.tile_len(), 1024);
    let t = Geometry::tiny();
    assert_eq!((t.sublanes, t.lanes, t.mxu), (2, 4, 4));
    assert_eq!(t.tile_len(), 8);
}

#[test]
fn geometry_new_validates() {
    assert_eq!(Geometry::new(2, 4, 4), Ok(Geometry::tiny()));
    assert_eq!(Geometry::new(0, 4, 4), Err(LatticeError::ZeroTileDimension));
    assert_eq!(Geometry::new(2, 0, 4), Err(LatticeError::ZeroTileDimension));
    assert_eq!(Geometry::new(2, 4, 0), Err(LatticeError::ZeroTileDimension));
}

#[test]
fn round_up_to_multiples() {
    assert_eq!(Geometry::round_up(0, 8), 0);
    assert_eq!(Geometry::round_up(1, 8), 8);
    assert_eq!(Geometry::round_up(8, 8), 8);
    assert_eq!(Geometry::round_up(9, 8), 16);
    assert_eq!(Geometry::round_up(257, 128), 384);
    let g = Geometry::tpu_v();
    assert_eq!(g.pad_rows(3), 8);
    assert_eq!(g.pad_cols(5), 128);
    assert_eq!(g.pad_rows(130), 136);
    assert_eq!(g.pad_cols(257), 384);
}

#[test]
fn shapes_pad_to_tile_boundaries() {
    let g = Geometry::tpu_v();
    let cases = [((1, 1), (8, 128)), ((3, 5), (8, 128)), ((8, 128), (8, 128)), ((130, 257), (136, 384))];
    for ((r, c), (pr, pc)) in cases {
        let s = Shape::new(r, c, &g);
        assert_eq!((s.rows, s.cols, s.padded_rows, s.padded_cols), (r, c, pr, pc));
        assert_eq!(s.logical_len(), r * c);
        assert_eq!(s.padded_len(), pr * pc);
    }
}

#[test]
fn layout_offsets_follow_tiles() {
    let g = Geometry::tiny();
    let s = Shape::new(3, 5, &g);
    assert_eq!((s.padded_rows, s.padded_cols), (4, 8));
    let l = Layout::new(&s, &g);
    // Tiles are 2x4 = 8 elements; two tiles per row of tiles.
    assert_eq!(l.tile_base(0, 0), 0);
    assert_eq!(l.tile_base(0, 1), 8);
    assert_eq!(l.tile_base(1, 0), 16);
    assert_eq!(l.tile_base(1, 1), 24);
    assert_eq!(l.offset_of(0, 0), 0);
    assert_eq!(l.offset_of(0, 3), 3);
    assert_eq!(l.offset_of(1, 0), 4);
    assert_eq!(l.offset_of(0, 4), 8);
    assert_eq!(l.offset_of(2, 5), 25);
    assert_eq!(l.offset_of(3, 7), 31);
}

#[test]
fn layout_offsets_are_a_permutation() {
    let g = Geometry::tiny();
    let s = Shape::new(3, 5, &g);
    let l = Layout::new(&s, &g);
    let mut seen = vec![false; s.padded_len()];
    for r in 0..s.padded_rows {
        for c in 0..s.padded_cols {
            let o = l.offset_of(r, c);
            assert!(o < s.padded_len());
            assert!(!seen[o]);
            seen[o] = true;
        }
    }
    assert!(seen.iter().all(|&b| b));
}

#[test]
fn mask_marks_the_logical_region() {
    let g = Geometry::tiny();
    let s = Shape::new(3, 5, &g);
    let m = Mask::from_shape(&s);
    for r in 0..s.padded_rows {
        for c in 0..s.padded_cols {
            assert_eq!(m.is_valid(r, c, &s), r < 3 && c < 5, "({r},{c})");
        }
    }
}

#[test]
fn mask_of_a_large_shape_spans_words() {
    let g = Geometry::tpu_v();
    let s = Shape::new(9, 130, &g);
    let m = Mask::from_shape(&s);
    assert!(m.is_valid(8, 129, &s));
    assert!(!m.is_valid(9, 0, &s));
    assert!(!m.is_valid(0, 130, &s));
    assert!(!m.is_valid(15, 255, &s));
}
