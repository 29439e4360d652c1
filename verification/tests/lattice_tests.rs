use rust_ising::bits::Spins;
use rust_ising::ising::{cluster_flips, dimension, IsingDisjoint};

#[test]
fn dimension_halves_degree() {
    assert_eq!(dimension(6), 3);
    assert_eq!(dimension(2), 1);
}

#[test]
fn new_counts_points_and_degree() {
    let model = IsingDisjoint::new(2, vec![3, 4], 7);
    assert_eq!(model.n_points, 12);
    assert_eq!(model.deg, 4);
    assert_eq!(model.sizes, vec![3, 4]);
    assert_eq!(model.spins.n_bits(), 0);
    assert!(model.edges.is_empty());
    assert!(model.starting_configs.is_none());
}

#[test]
fn neighbours_wrap_around() {
    let model = IsingDisjoint::new(2, vec![3, 4], 0);
    assert_eq!(model.neighbours_disjoint(0), vec![1, 2, 3, 9]);
    assert_eq!(model.neighbours_disjoint(11), vec![9, 10, 2, 8]);
    assert_eq!(model.neighbours_disjoint(4), vec![5, 3, 7, 1]);
}

#[test]
fn neighbours_along_short_axes() {
    let model = IsingDisjoint::new(2, vec![1, 3], 0);
    assert_eq!(model.neighbours_disjoint(0), vec![0, 0, 1, 2]);
    let ring = IsingDisjoint::new(1, vec![2], 0);
    assert_eq!(ring.neighbours_disjoint(0), vec![1, 1]);
    assert_eq!(ring.neighbours_disjoint(1), vec![0, 0]);
}

#[test]
fn neighbours_are_symmetric() {
    let model = IsingDisjoint::new(3, vec![3, 2, 4], 0);
    for node in 0..model.n_points {
        let nbrs = model.neighbours_disjoint(node);
        for k in 0..nbrs.len() {
            assert!(nbrs[k] < model.n_points);
            let opposite = if k % 2 == 0 { k + 1 } else { k - 1 };
            assert_eq!(model.neighbours_disjoint(nbrs[k])[opposite], node);
        }
    }
}

#[test]
fn set_edges_drops_repeated_neighbours() {
    let mut ring = IsingDisjoint::new(1, vec![2], 0);
    let kept = ring.set_edges();
    assert_eq!(ring.edges, vec![1, 0, 0, 1]);
    assert_eq!(kept, vec![true, false, true, false]);
}

#[test]
fn set_edges_keeps_distinct_neighbours() {
    let mut model = IsingDisjoint::new(2, vec![1, 3], 0);
    let kept = model.set_edges();
    assert_eq!(model.edges.len(), 12);
    assert_eq!(&model.edges[0..4], &[0, 0, 1, 2]);
    assert_eq!(&kept[0..4], &[true, true, true, true]);
    assert_eq!(model.edge_neighbour(2, 3), 1);
    assert_eq!(model.edge_index(2, 3), 11);
}

#[test]
fn flipping_twice_restores_spins() {
    let mut model = IsingDisjoint::new(1, vec![4], 3);
    model.init_spins_unif();
    assert_eq!(model.spins.n_bits(), 4);
    let before = model.spins.to_bools();
    model.flip_spin_disjoint(2);
    let once = model.spins.to_bools();
    assert_eq!(once[2], !before[2]);
    assert_eq!(once[0], before[0]);
    model.flip_spin_disjoint(2);
    assert_eq!(model.spins.to_bools(), before);
}

#[test]
fn seeded_models_draw_the_same_spins() {
    let mut a = IsingDisjoint::new(2, vec![5, 5], 42);
    let mut b = IsingDisjoint::new(2, vec![5, 5], 42);
    a.init_spins_unif();
    b.init_spins_unif();
    assert_eq!(a.spins.to_bools(), b.spins.to_bools());
    let na = a.random_node();
    let nb = b.random_node();
    assert_eq!(na, nb);
    assert!(na < 25);
}

#[test]
fn starting_configuration_is_copied() {
    let mut model = IsingDisjoint::new(1, vec![3], 1);
    let first = Spins::from_bools(&vec![true, false, true]);
    let second = Spins::from_bools(&vec![false, false, true]);
    model.set_starting_configs(Some(vec![first, second]));
    model.init_spins_disjoint(1);
    assert_eq!(model.spins.to_bools(), vec![false, false, true]);
}

#[test]
fn no_starting_configuration_draws_uniformly() {
    let mut model = IsingDisjoint::new(1, vec![6], 1);
    model.init_spins_disjoint(0);
    assert_eq!(model.spins.n_bits(), 6);
}

#[test]
fn cluster_flip_counts() {
    let cluster = Spins::from_bools(&vec![true, false, true, true]);
    let ground = Spins::from_bools(&vec![true, true, false, true]);
    assert_eq!(cluster_flips(&cluster, None), 3);
    assert_eq!(cluster_flips(&cluster, Some(&ground)), 2);
    let short = Spins::from_bools(&vec![false, false]);
    assert_eq!(cluster_flips(&cluster, Some(&short)), 1);
}

#[test]
fn empty_grid_has_no_edges() {
    let mut model = IsingDisjoint::new(2, vec![0, 3], 0);
    assert_eq!(model.n_points, 0);
    let kept = model.set_edges();
    assert!(kept.is_empty());
    assert!(model.edges.is_empty());
}
