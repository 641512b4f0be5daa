use simgpm::environment::{switch_step, EnvRegimeType, Environment, SWITCH_SCALE};

fn vectors(n: usize) -> Vec<Vec<u64>> {
    (0..n).map(|e| vec![e as u64; 3]).collect()
}

#[test]
fn constant_regime_is_always_zero() {
    let env = Environment::new(EnvRegimeType::Constant, vectors(1)).unwrap();
    for t in [0u64, 1, 7, 1000, u64::MAX] {
        assert_eq!(env.get_envid(t, -1), 0);
        assert_eq!(env.get_envid(t, 0), 0);
    }
}

#[test]
fn cyclic_regime_follows_durations() {
    let env = Environment::new(EnvRegimeType::DetCyclic(vec![2, 3, 1]), vectors(3)).unwrap();
    let got: Vec<i32> = (0..12).map(|t| env.get_envid(t, 0)).collect();
    assert_eq!(got, vec![0, 0, 1, 1, 1, 2, 0, 0, 1, 1, 1, 2]);
}

#[test]
fn cyclic_regime_skips_zero_durations() {
    let env = Environment::new(EnvRegimeType::DetCyclic(vec![0, 2, 0, 1]), vectors(4)).unwrap();
    let got: Vec<i32> = (0..6).map(|t| env.get_envid(t, 0)).collect();
    assert_eq!(got, vec![1, 1, 3, 1, 1, 3]);
}

#[test]
fn certain_switching_advances_one_per_step() {
    let env = Environment::new(EnvRegimeType::ProbSwitch(vec![SWITCH_SCALE; 3]), vectors(3)).unwrap();
    let mut e = env.get_envid(0, -1);
    assert!((0..3).contains(&e));
    for t in 1..100 {
        let next = env.get_envid(t, e);
        assert_eq!(next, (e + 1) % 3);
        e = next;
    }
}

#[test]
fn never_switching_stays() {
    let env = Environment::new(EnvRegimeType::ProbSwitch(vec![0, 0]), vectors(2)).unwrap();
    for t in 1..50 {
        assert_eq!(env.get_envid(t, 1), 1);
    }
}

#[test]
fn switching_ids_stay_in_range() {
    let env = Environment::new(EnvRegimeType::ProbSwitch(vec![SWITCH_SCALE / 2, SWITCH_SCALE / 3, 7]), vectors(3)).unwrap();
    let mut e = -1;
    for t in 0..500 {
        let next = env.get_envid(t, e);
        assert!((0..3).contains(&next));
        if e != -1 {
            assert!(next == e || next == (e + 1) % 3);
        }
        e = next;
    }
}

#[test]
fn regime_must_fit_its_environments() {
    assert!(Environment::new(EnvRegimeType::Constant, vec![]).is_none());
    assert!(Environment::new(EnvRegimeType::DetCyclic(vec![1, 2]), vectors(3)).is_none());
    assert!(Environment::new(EnvRegimeType::DetCyclic(vec![0, 0]), vectors(2)).is_none());
    assert!(Environment::new(EnvRegimeType::DetCyclic(vec![u64::MAX, 1]), vectors(2)).is_none());
    assert!(Environment::new(EnvRegimeType::ProbSwitch(vec![SWITCH_SCALE + 1]), vectors(1)).is_none());
    assert!(Environment::new(EnvRegimeType::ProbSwitch(vec![1, 2]), vectors(1)).is_none());
}

#[test]
fn fitness_vector_per_environment() {
    let env = Environment::new(EnvRegimeType::DetCyclic(vec![1, 1]), vec![vec![5, 6], vec![7, 8]]).unwrap();
    assert_eq!(env.get_pfmap(1), &vec![7, 8]);
}

#[test]
fn switch_step_advances_below_the_weight() {
    assert_eq!(switch_step(1, 3, 500, 499), 2);
    assert_eq!(switch_step(1, 3, 500, 500), 1);
    assert_eq!(switch_step(2, 3, 500, 0), 0);
    assert_eq!(switch_step(0, 1, SWITCH_SCALE, 7), 0);
    assert_eq!(switch_step(0, 2, 0, 0), 0);
}
