use simgpm::gpm::Gpmap;
use simgpm::pop::{tally, Population};

fn pop_from(w: usize, h: usize, cells: Vec<u64>) -> Population {
    let mut p = Population::gen_uniform(w, h, 0);
    p.set_pop(cells);
    p
}

#[test]
fn uniform_population_has_the_given_size() {
    let p = Population::gen_uniform(4, 3, 1000);
    assert_eq!(p.pop.len(), 12);
    assert_eq!(p.total_count(), 1000);
}

#[test]
fn initial_population_sits_on_one_wanted_cell() {
    let g = Gpmap::from_columns(&vec![vec![0, 1], vec![0, 0]]).unwrap();
    let p = Population::gen_initpop(50, &vec![1], &g).unwrap();
    assert_eq!(p.get_at(0, 1), 50);
    assert_eq!(p.total_count(), 50);
    assert!(Population::gen_initpop(50, &vec![2], &g).is_none());
}

#[test]
fn dominance_single_maximum() {
    let p = pop_from(2, 3, vec![1, 0, 2, 7, 0, 0]);
    assert_eq!(p.get_dominance_info(), (1, 0, 7));
}

#[test]
fn dominance_tie_goes_to_first_in_scan_order() {
    let p = pop_from(2, 3, vec![0, 5, 0, 5, 0, 0]);
    assert_eq!(p.get_dominance_info(), (0, 1, 5));
}

#[test]
fn dominance_of_empty_population_is_origin() {
    let p = pop_from(2, 2, vec![0, 0, 0, 0]);
    assert_eq!(p.get_dominance_info(), (0, 0, 0));
}

#[test]
fn stationary_population_averages_to_itself() {
    let cells = vec![3, 0, 1, 6];
    let mut p = pop_from(2, 2, cells.clone());
    for t in 0..15 {
        p.add_to_average(t, 5, 10);
    }
    for x in 0..2 {
        for y in 0..2 {
            let (sum, n) = p.avg_get_at(x, y);
            assert_eq!(n, 6);
            assert_eq!(sum, 6 * cells[x * 2 + y] as u128);
            assert_eq!(sum / n as u128, cells[x * 2 + y] as u128);
        }
    }
}

#[test]
fn time_average_is_the_running_mean() {
    let mut p = pop_from(1, 2, vec![4, 0]);
    p.add_to_average(2, 2, 4);
    p.set_pop(vec![0, 4]);
    p.add_to_average(3, 2, 4);
    p.set_pop(vec![2, 2]);
    p.add_to_average(4, 2, 4);
    p.set_pop(vec![4, 0]);
    p.add_to_average(5, 2, 4);
    assert_eq!(p.avg_get_at(0, 0), (6, 3));
    assert_eq!(p.avg_get_at(0, 1), (6, 3));
}

#[test]
fn time_average_untouched_before_window() {
    let mut p = pop_from(1, 2, vec![4, 0]);
    p.add_to_average(1, 2, 4);
    assert_eq!(p.avg_get_at(0, 0), (0, 0));
}

#[test]
fn evolvability_sum_weights_diversity_by_count() {
    let g = Gpmap::from_columns(&vec![vec![1, 2, 1], vec![3, 1, 1]]).unwrap();
    // diversities: (0,0) 3, (0,1) 4, (0,2) 1, (1,0) 4, (1,1) 3, (1,2) 1
    let p = pop_from(2, 3, vec![1, 0, 2, 0, 3, 5]);
    assert_eq!(p.evolvability_sum(&g), 3 + 2 + 9 + 5);
}

#[test]
fn duplicate_copies_counts() {
    let p = pop_from(2, 2, vec![1, 2, 3, 4]);
    let q = p.duplicate();
    assert_eq!(q.pop, p.pop);
}

#[test]
fn tally_counts_placements_per_cell() {
    assert_eq!(tally(4, &vec![2, 0, 2, 2, 3]), vec![1, 0, 3, 1]);
    assert_eq!(tally(3, &vec![]), vec![0, 0, 0]);
}
