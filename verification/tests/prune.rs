use fork_model::manager::Manager;
use fork_model::model::{BranchScript, Model};
use fork_model::process::Process;

fn manager_of(values: &[i32]) -> Manager<Model, i32, BranchScript> {
    let mut manager = Manager::empty();
    for &v in values {
        manager.add_process(Process::new(Model::new(v), BranchScript));
    }
    manager
}

fn values_of(manager: &Manager<Model, i32, BranchScript>) -> Vec<i32> {
    manager.iter().iter().map(|m| m.0).collect()
}

// Twelve distinct values sorted descending, prune(range=2, step=3): the
// elite band has width range+step = 5 and keeps sorted indices 0..=4 in
// full; the remainder is sampled at stride 3, keeping sorted indices 5, 8
// and 11 and discarding 6, 7, 9 and 10 — eight survivors in all.
#[test]
fn prune_elite_band_and_stride() {
    let mut manager = manager_of(&[11, 10, 9, 8, 7, 6, 5, 4, 3, 2, 1, 0]);
    manager.prune(2, 3);
    assert_eq!(values_of(&manager), vec![11, 10, 9, 8, 7, 6, 3, 0]);
}

// Pruning sorts descending by the state order before it selects.
#[test]
fn prune_sorts_descending_first() {
    let mut manager = manager_of(&[3, 11, 0, 7, 9, 5, 1, 10, 2, 8, 4, 6]);
    manager.prune(2, 3);
    assert_eq!(values_of(&manager), vec![11, 10, 9, 8, 7, 6, 3, 0]);
}

// A population no larger than `range` is left exactly as it is, order
// included.
#[test]
fn prune_no_op_when_small() {
    let mut manager = manager_of(&[1, 3, 2]);
    manager.prune(3, 2);
    assert_eq!(values_of(&manager), vec![1, 3, 2]);
}

// The boundary the guard alone would miss: `range < size <= range+step`.
// The band is clamped to the population, the suffix is simply empty, and
// everything survives, sorted.
#[test]
fn prune_clamps_short_band() {
    let mut manager = manager_of(&[2, 4, 1, 3]);
    manager.prune(2, 3);
    assert_eq!(values_of(&manager), vec![4, 3, 2, 1]);
}

// With a stride of one, everything past the band survives as well.
#[test]
fn prune_stride_one_keeps_all() {
    let mut manager = manager_of(&[5, 1, 4, 2, 3]);
    manager.prune(1, 1);
    assert_eq!(values_of(&manager), vec![5, 4, 3, 2, 1]);
}

// The tick counter is untouched by pruning.
#[test]
fn prune_leaves_clock_alone() {
    let mut manager = manager_of(&[6, 5, 4, 3, 2, 1]);
    manager.prune(1, 2);
    assert_eq!(manager.clock(), 0);
}

// An empty population has no best state at all.
#[test]
fn best_of_empty_is_absent() {
    let manager: Manager<Model, i32, BranchScript> = Manager::empty();
    assert!(manager.best().is_none());
}

#[test]
fn best_finds_greatest() {
    let manager = manager_of(&[3, 9, 2, 7]);
    assert_eq!(manager.best().unwrap().0, 9);
}

#[test]
fn best_after_tick() {
    let mut manager = Manager::new(Model::new(0), BranchScript);
    manager.execute();
    assert_eq!(manager.best().unwrap().0, 2);
}
