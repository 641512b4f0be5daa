use simgpm::environment::{EnvRegimeType, Environment};
use simgpm::evolve::{SetupError, Settings, SimError, Simulation};
use simgpm::gpm::Gpmap;
use simgpm::pop::Population;

fn settings(popsize: u64) -> Settings {
    Settings { popsize, maxgens: 10, saveevery: 3, timeavgstart: 0, timeavgend: 10 }
}

fn map_2x2() -> Gpmap {
    Gpmap::from_columns(&vec![vec![0, 1], vec![2, 3]]).unwrap()
}

fn pop_from(w: usize, h: usize, cells: Vec<u64>) -> Population {
    let mut p = Population::gen_uniform(w, h, 0);
    p.set_pop(cells);
    p
}

fn rate(v: f64) -> Option<Vec<u8>> {
    Some(format!("{:.6}", v).into_bytes())
}

fn neutral_sim(mutation: Option<Vec<u8>>, cells: Vec<u64>) -> Simulation {
    let env = Environment::new(EnvRegimeType::Constant, vec![vec![1, 1, 1, 1]]).unwrap();
    let n: u64 = cells.iter().sum();
    Simulation::setup(settings(n), mutation, env, map_2x2(), pop_from(2, 2, cells)).ok().unwrap()
}

#[test]
fn neutral_run_without_mutation_only_resamples() {
    let sim = neutral_sim(None, vec![1, 1, 1, 1]);
    let mut st = sim.start();
    let mut occupied: Vec<bool> = st.pop.pop.iter().map(|&c| c > 0).collect();
    for t in 1..=30 {
        assert_eq!(sim.advance(&mut st), Ok(()));
        assert_eq!(st.time, t);
        assert_eq!(st.envid, 0);
        assert_eq!(st.pop.total_count(), 4);
        for i in 0..4 {
            if st.pop.pop[i] > 0 {
                assert!(occupied[i]);
            }
        }
        occupied = st.pop.pop.iter().map(|&c| c > 0).collect();
    }
}

#[test]
fn zero_mutation_keeps_every_individual_in_place() {
    let sim = neutral_sim(None, vec![4, 0, 0, 0]);
    for x in 0..2 {
        for y in 0..2 {
            assert_eq!(sim.displace(x, y), (x, y));
        }
    }
    let mut p = pop_from(2, 2, vec![4, 0, 0, 0]);
    sim.select_mutate(&mut p, &vec![1, 1, 1, 1]).unwrap();
    assert_eq!(p.pop, vec![4, 0, 0, 0]);
}

#[test]
fn population_size_is_conserved_under_mutation() {
    let sim = neutral_sim(rate(2.0), vec![10, 0, 5, 0]);
    let mut st = sim.start();
    for _ in 0..40 {
        sim.advance(&mut st).unwrap();
        assert_eq!(st.pop.total_count(), 15);
    }
}

#[test]
fn displacement_stays_on_the_grid() {
    let sim = neutral_sim(rate(3.0), vec![1, 0, 0, 0]);
    for _ in 0..200 {
        let (x, y) = sim.displace(1, 1);
        assert!(x < 2 && y < 2);
    }
}

#[test]
fn one_unit_move_reaches_a_neighbour() {
    let env = Environment::new(EnvRegimeType::Constant, vec![vec![1; 4]]).unwrap();
    let g = Gpmap::from_columns(&vec![vec![0; 4]; 4]).unwrap();
    let sim = Simulation::setup(settings(0), None, env, g, pop_from(4, 4, vec![0; 16])).ok().unwrap();
    for _ in 0..100 {
        let (mut x, mut y) = (3usize, 0usize);
        sim.mutate_xy(&mut x, &mut y);
        assert!([(3, 1), (0, 0), (3, 3), (2, 0)].contains(&(x, y)));
    }
}

#[test]
fn selection_fails_when_all_weights_are_zero() {
    let sim = neutral_sim(None, vec![2, 2, 0, 0]);
    let mut p = pop_from(2, 2, vec![2, 2, 0, 0]);
    assert_eq!(sim.select_mutate(&mut p, &vec![0, 0, 5, 5]), Err(SimError::AllWeightsZero));
    assert_eq!(p.pop, vec![2, 2, 0, 0]);
}

#[test]
fn selection_only_keeps_fit_occupied_cells() {
    let sim = neutral_sim(None, vec![2, 2, 0, 0]);
    let mut p = pop_from(2, 2, vec![2, 2, 0, 0]);
    sim.select_mutate(&mut p, &vec![0, 3, 5, 5]).unwrap();
    assert_eq!(p.pop, vec![0, 4, 0, 0]);
}

#[test]
fn advance_fails_on_an_inviable_population() {
    let env = Environment::new(EnvRegimeType::Constant, vec![vec![0, 1, 1, 1]]).unwrap();
    let sim = Simulation::setup(settings(3), None, env, map_2x2(), pop_from(2, 2, vec![3, 0, 0, 0])).ok().unwrap();
    let mut st = sim.start();
    assert_eq!(sim.advance(&mut st), Err(SimError::AllWeightsZero));
    assert_eq!(st.time, 0);
}

#[test]
fn setup_reports_each_mismatch() {
    let env = || Environment::new(EnvRegimeType::Constant, vec![vec![1, 1, 1, 1]]).unwrap();
    let r = Simulation::setup(settings(4), None, env(), map_2x2(), pop_from(1, 4, vec![1, 1, 1, 1]));
    assert_eq!(r.err(), Some(SetupError::GridMismatch));
    let r = Simulation::setup(settings(5), None, env(), map_2x2(), pop_from(2, 2, vec![1, 1, 1, 1]));
    assert_eq!(r.err(), Some(SetupError::SizeMismatch));
    let short = Environment::new(EnvRegimeType::Constant, vec![vec![1, 1, 1]]).unwrap();
    let r = Simulation::setup(settings(4), None, short, map_2x2(), pop_from(2, 2, vec![1, 1, 1, 1]));
    assert_eq!(r.err(), Some(SetupError::MissingFitness));
    let mut s = settings(4);
    s.saveevery = 0;
    let r = Simulation::setup(s, None, env(), map_2x2(), pop_from(2, 2, vec![1, 1, 1, 1]));
    assert_eq!(r.err(), Some(SetupError::ZeroInterval));
}

#[test]
fn output_cadence_and_last_generation() {
    let sim = neutral_sim(None, vec![1, 1, 1, 1]);
    let out: Vec<u64> = (0..=10).filter(|&t| sim.should_output(t)).collect();
    assert_eq!(out, vec![0, 3, 6, 9, 10]);
}

#[test]
fn cyclic_environment_drives_the_fitness_grid() {
    let env = Environment::new(EnvRegimeType::DetCyclic(vec![1, 1]), vec![vec![1, 0, 0, 0], vec![0, 0, 0, 1]]).unwrap();
    let sim = Simulation::setup(settings(4), None, env, map_2x2(), pop_from(2, 2, vec![1, 1, 1, 1])).ok().unwrap();
    let mut st = sim.start();
    assert_eq!(st.envid, 0);
    assert_eq!(st.gfmap, vec![1, 0, 0, 0]);
    sim.advance(&mut st).unwrap();
    assert_eq!(st.pop.pop, vec![4, 0, 0, 0]);
    assert_eq!(st.envid, 1);
    assert_eq!(st.gfmap, vec![0, 0, 0, 1]);
}

#[test]
fn walk_follows_the_moves() {
    let sim = neutral_sim(None, vec![1, 0, 0, 0]);
    assert_eq!(sim.walk(0, 0, &vec![1, 1, 0]), (0, 1));
    assert_eq!(sim.walk(1, 1, &vec![]), (1, 1));
    assert_eq!(sim.walk(0, 0, &vec![3, 2]), (1, 1));
}

#[test]
fn no_moves_are_drawn_without_mutation() {
    let sim = neutral_sim(None, vec![1, 0, 0, 0]);
    for _ in 0..20 {
        assert!(sim.draw_moves().is_empty());
    }
    let moving = neutral_sim(rate(5.0), vec![1, 0, 0, 0]);
    let total: usize = (0..50).map(|_| moving.draw_moves().len()).sum();
    assert!(total > 0);
    assert!((0..50).all(|_| moving.draw_moves().iter().all(|&d| d < 4)));
}

#[test]
fn setup_refuses_a_bad_rate() {
    let env = || Environment::new(EnvRegimeType::Constant, vec![vec![1, 1, 1, 1]]).unwrap();
    for bad in ["0.000", "64.0", "inf", "1e5", "2", ".5", "1.2.3"] {
        let r = Simulation::setup(settings(4), Some(bad.as_bytes().to_vec()), env(), map_2x2(), pop_from(2, 2, vec![1, 1, 1, 1]));
        assert_eq!(r.err(), Some(SetupError::BadRate));
    }
    let ok = Simulation::setup(settings(4), Some(b"63.5".to_vec()), env(), map_2x2(), pop_from(2, 2, vec![1, 1, 1, 1]));
    assert!(ok.is_ok());
}

#[test]
fn start_seeds_the_time_average_at_generation_zero() {
    let sim = neutral_sim(None, vec![1, 3, 0, 0]);
    let st = sim.start();
    assert_eq!(st.pop.avg_get_at(0, 1), (3, 1));
    let mut st = st;
    sim.advance(&mut st).unwrap();
    assert_eq!(st.pop.avgcount, 2);
}
