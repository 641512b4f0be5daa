use simgpm::gpm::{distinct_ids, Gpmap};
use simgpm::grid::{ring_distance, step};

fn map_2x3() -> Gpmap {
    // columns: x = 0 holds ids 1, 2, 1; x = 1 holds 3, 1, 1
    Gpmap::from_columns(&vec![vec![1, 2, 1], vec![3, 1, 1]]).unwrap()
}

#[test]
fn east_from_last_column_wraps_to_zero() {
    assert_eq!(step(4, 2, 1, 5, 3), (0, 2));
}

#[test]
fn west_from_first_column_wraps_to_last() {
    assert_eq!(step(0, 2, 3, 5, 3), (4, 2));
}

#[test]
fn north_from_last_row_wraps_to_zero() {
    assert_eq!(step(1, 2, 0, 5, 3), (1, 0));
}

#[test]
fn south_from_first_row_wraps_to_last() {
    assert_eq!(step(1, 0, 2, 5, 3), (1, 2));
}

#[test]
fn interior_steps_move_by_one() {
    assert_eq!(step(2, 1, 0, 5, 3), (2, 2));
    assert_eq!(step(2, 1, 1, 5, 3), (3, 1));
    assert_eq!(step(2, 1, 2, 5, 3), (2, 0));
    assert_eq!(step(2, 1, 3, 5, 3), (1, 1));
}

#[test]
fn ring_distance_takes_the_short_way() {
    assert_eq!(ring_distance(0, 9, 10), 1);
    assert_eq!(ring_distance(9, 0, 10), 1);
    assert_eq!(ring_distance(2, 7, 10), 5);
    assert_eq!(ring_distance(8, 1, 10), 3);
    assert_eq!(ring_distance(3, 3, 10), 0);
}

#[test]
fn from_columns_keeps_cells_and_distinct_ids() {
    let g = map_2x3();
    assert_eq!((g.w, g.h), (2, 3));
    assert_eq!(g.phenotype_at(0, 1), 2);
    assert_eq!(g.phenotype_at(1, 0), 3);
    assert_eq!(g.phenotype_at(1, 2), 1);
    let mut ids = g.get_pid_list().clone();
    ids.sort();
    assert_eq!(ids, vec![1, 2, 3]);
}

#[test]
fn from_columns_refuses_ragged_or_empty() {
    assert!(Gpmap::from_columns(&vec![vec![1, 2], vec![3]]).is_none());
    assert!(Gpmap::from_columns(&vec![]).is_none());
    assert!(Gpmap::from_columns(&vec![vec![]]).is_none());
}

#[test]
fn coordinates_with_phenotype_in_lists_matches_in_order() {
    let g = map_2x3();
    assert_eq!(g.coordinates_with_phenotype_in(&vec![2, 3]), vec![(0, 1), (1, 0)]);
    assert_eq!(g.coordinates_with_phenotype_in(&vec![7]), vec![]);
}

#[test]
fn random_seed_cell_has_a_wanted_phenotype() {
    let g = map_2x3();
    for _ in 0..50 {
        let (x, y) = g.get_random_xy(&vec![2, 3]).unwrap();
        assert!((x, y) == (0, 1) || (x, y) == (1, 0));
    }
    assert!(g.get_random_xy(&vec![9]).is_none());
}

#[test]
fn fitness_grid_looks_up_each_cell() {
    let g = map_2x3();
    assert_eq!(g.get_gfmap(&vec![0, 10, 20, 30]), Some(vec![10, 20, 10, 30, 10, 10]));
    assert_eq!(g.get_gfmap(&vec![0, 10, 20]), None);
}

#[test]
fn neighbour_diversity_counts_differing_neighbours() {
    let g = map_2x3();
    // (0, 0) id 1: north (0,1)=2, east (1,0)=3, south (0,2)=1, west (1,0)=3
    assert_eq!(g.get_evol_at(0, 0), 3);
    // (1, 2) id 1: north (1,0)=3, east (0,2)=1, south (1,1)=1, west (0,2)=1
    assert_eq!(g.get_evol_at(1, 2), 1);
    let same = Gpmap::from_columns(&vec![vec![4, 4], vec![4, 4]]).unwrap();
    assert_eq!(same.get_evol_at(1, 1), 0);
}

#[test]
fn mutation_distances_use_torus_metric() {
    let cols: Vec<Vec<u64>> = (0..5).map(|x| (0..4).map(|y| if x == 4 && y == 3 { 1 } else { 0 }).collect()).collect();
    let g = Gpmap::from_columns(&cols).unwrap();
    // (0,0) to (4,3) on a 5 by 4 torus: 1 west + 1 south
    assert_eq!(g.mutation_distances(1, 0, 0), vec![2]);
    assert_eq!(g.mutation_distances(1, 2, 1), vec![4]);
    assert_eq!(g.mutation_distances(0, 0, 0).len(), 19);
    assert_eq!(g.mutation_distances(5, 0, 0), vec![]);
}

#[test]
fn distinct_ids_keep_first_occurrences() {
    assert_eq!(distinct_ids(&vec![5, 1, 5, 2, 1]), vec![5, 1, 2]);
    assert_eq!(distinct_ids(&vec![]), Vec::<u64>::new());
}
