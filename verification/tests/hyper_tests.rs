use systile::classifier::{flip_order, level_signs};
use systile::hyper::{atom_signs, inverse_permute, permute, splitmix64};

#[test]
fn permute_rotates_right() {
    let v = [1u32, 2, 3, 4, 5];
    assert_eq!(permute(&v, 2), vec![4, 5, 1, 2, 3]);
    assert_eq!(permute(&v, 0), v.to_vec());
    assert_eq!(permute(&v, 7), vec![4, 5, 1, 2, 3]);
    assert_eq!(permute(&v, 5), v.to_vec());
    let empty: [u32; 0] = [];
    assert!(permute(&empty, 3).is_empty());
    assert!(inverse_permute(&empty, 3).is_empty());
}

#[test]
fn inverse_permute_undoes_permute() {
    let v: Vec<f32> = (0..11).map(|i| i as f32 * 0.5 - 2.0).collect();
    for shift in [0usize, 1, 4, 10, 11, 12, 100] {
        assert_eq!(inverse_permute(&permute(&v, shift), shift), v, "shift {shift}");
        assert_eq!(permute(&inverse_permute(&v, shift), shift), v, "shift {shift}");
    }
    assert_eq!(inverse_permute(&[1u8, 2, 3], 1), vec![2, 3, 1]);
}

#[test]
fn atom_signs_follow_the_hash() {
    let (dim, seed, id) = (64usize, 42u64, 7u64);
    let signs = atom_signs(dim, seed, id);
    assert_eq!(signs.len(), dim);
    let base = splitmix64(seed ^ id.wrapping_mul(0xD1B5_4A32_D192_ED03));
    for (p, &s) in signs.iter().enumerate() {
        assert_eq!(s, splitmix64(base.wrapping_add(p as u64)) >> 63 == 1);
    }
    assert_eq!(atom_signs(dim, seed, id), signs);
    assert_ne!(atom_signs(dim, seed, id + 1), signs);
}

#[test]
fn atoms_are_roughly_balanced() {
    let signs = atom_signs(10_000, 3, 1);
    let plus = signs.iter().filter(|&&s| s).count();
    assert!(4_500 < plus && plus < 5_500, "{plus}");
}

#[test]
fn flip_order_is_a_permutation() {
    for dim in [0usize, 1, 2, 10, 257] {
        let order = flip_order(dim, 99);
        let mut sorted = order.clone();
        sorted.sort();
        assert_eq!(sorted, (0..dim).collect::<Vec<_>>());
    }
    assert_ne!(flip_order(50, 1), (0..50).collect::<Vec<_>>());
}

#[test]
fn levels_flip_a_growing_prefix() {
    let (dim, n_levels, seed) = (16usize, 5usize, 1234u64);
    let levels = level_signs(dim, n_levels, seed);
    assert_eq!(levels.len(), n_levels);
    assert_eq!(levels[0], atom_signs(dim, seed, 0));
    let order = flip_order(dim, seed);
    // Level i flips the first 2i coordinates of the order (8 * i / 4).
    for (i, level) in levels.iter().enumerate() {
        for (t, &p) in order.iter().enumerate() {
            assert_eq!(level[p] != levels[0][p], t < 2 * i, "level {i} position {t}");
        }
    }
    let differ = |a: &Vec<bool>, b: &Vec<bool>| a.iter().zip(b).filter(|(x, y)| x != y).count();
    assert_eq!(differ(&levels[0], &levels[4]), 8);
    assert_eq!(differ(&levels[1], &levels[2]), 2);
}

#[test]
fn a_single_level_is_the_base_atom() {
    let levels = level_signs(32, 1, 5);
    assert_eq!(levels, vec![atom_signs(32, 5, 0)]);
    assert!(level_signs(32, 0, 5).is_empty());
}
