use systile::attention::TensorAttention;
use systile::conv::TensorConv;
use systile::geometry::Geometry;
use systile::hyper::splitmix64;
use systile::pagerank::TensorPageRank;
use systile::resonator::Factorization;
use systile::scan::TensorScan;

#[test]
fn splitmix_known_value() {
    assert_eq!(splitmix64(0), 0xE220_A839_7B1D_CDAF);
    assert_ne!(splitmix64(1), splitmix64(2));
    assert_eq!(splitmix64(12345), splitmix64(12345));
}

#[test]
fn scan_triangles() {
    let inclusive = TensorScan::triangle(3, false, false);
    assert_eq!(inclusive, vec![true, false, false, true, true, false, true, true, true]);
    let exclusive = TensorScan::triangle(3, true, false);
    assert_eq!(exclusive, vec![false, false, false, true, false, false, true, true, false]);
    let suffix = TensorScan::triangle(3, false, true);
    assert_eq!(suffix, vec![true, true, true, false, true, true, false, false, true]);
    assert!(TensorScan::triangle(0, false, false).is_empty());
    assert_eq!(TensorScan::new().geometry(), Geometry::tpu_v());
}

#[test]
fn conv_window_counts() {
    assert_eq!(TensorConv::windows(10, 3), 8);
    assert_eq!(TensorConv::windows(3, 3), 1);
    assert_eq!(TensorConv::windows(2, 3), 0);
    assert_eq!(TensorConv::new().geometry(), Geometry::tpu_v());
}

#[test]
fn pagerank_links() {
    let mut pr = TensorPageRank::new(5);
    assert_eq!(pr.nodes(), 5);
    pr.add_link(1, 0);
    pr.add_link(3, 0);
    pr.add_link(3, 1);
    pr.add_link(3, 2);
    assert_eq!(pr.links(3), &vec![0, 1, 2]);
    assert_eq!(pr.links(1), &vec![0]);
    assert!(pr.links(4).is_empty());
    assert_eq!(pr.geometry(), Geometry::tpu_v());
}

#[test]
fn attention_dimension() {
    let att = TensorAttention::new(16);
    assert_eq!(att.dim(), 16);
    assert_eq!(att.geometry(), Geometry::tpu_v());
}

#[test]
fn factorization_holds_its_parts() {
    let f = Factorization { factors: vec![1, 2], iterations: 3, converged: true, verified: true, restarts: 0 };
    assert_eq!(f.factors, vec![1, 2]);
    assert!(f.converged && f.verified);
    assert_eq!(f.clone(), f);
}

#[test]
fn pagerank_link_counts() {
    let mut pr = TensorPageRank::new(3);
    pr.add_link(0, 1);
    pr.add_link(0, 1);
    pr.add_link(0, 2);
    pr.add_link(2, 0);
    // Entry to * n + from.
    assert_eq!(pr.link_counts(), vec![0, 0, 1, 2, 0, 0, 1, 0, 0]);
    assert_eq!(TensorPageRank::new(0).link_counts(), Vec::<usize>::new());
}
