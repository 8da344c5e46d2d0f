use fork_model::manager::Manager;
use fork_model::model::{BranchScript, Model};
use fork_model::process::Process;

// One tick from a single process of value 0: the first step adds one and
// emits the hints [0, 1], so the original continues with hint 0 and one
// sibling forks with hint 1; the second step adds the carried hint.  The
// population becomes [0+1+0, 0+1+1] = [1, 2].
#[test]
fn one_tick_forks_once() {
    let mut manager = Manager::new(Model::new(0), BranchScript);
    manager.execute();
    let states = manager.iter();
    assert_eq!(states.len(), 2);
    assert_eq!(states[0].0, 1);
    assert_eq!(states[1].0, 2);
    assert_eq!(manager.clock(), 1);
}

// A second tick steps every survivor and every fresh sibling exactly once:
// originals first, then the siblings in creation order.
#[test]
fn second_tick_breadth_first_order() {
    let mut manager = Manager::new(Model::new(0), BranchScript);
    manager.execute();
    manager.execute();
    let states = manager.iter();
    let values: Vec<i32> = states.iter().map(|m| m.0).collect();
    assert_eq!(values, vec![2, 3, 3, 4]);
    assert_eq!(manager.clock(), 2);
}

// Identical initial state, script and hints: repeated runs of one tick
// give identical populations and identical counter increments.
#[test]
fn ticks_are_deterministic() {
    let mut a = Manager::new(Model::new(7), BranchScript);
    let mut b = Manager::new(Model::new(7), BranchScript);
    a.execute();
    b.execute();
    let sa: Vec<i32> = a.iter().iter().map(|m| m.0).collect();
    let sb: Vec<i32> = b.iter().iter().map(|m| m.0).collect();
    assert_eq!(sa, sb);
    assert_eq!(a.clock(), b.clock());
}

// The tick counter advances by exactly one per call, however many forks
// happened inside the tick.
#[test]
fn clock_counts_one_per_tick() {
    let mut manager = Manager::new(Model::new(0), BranchScript);
    assert_eq!(manager.clock(), 0);
    for expected in 1..5usize {
        manager.execute();
        manager.prune(2, 1);
        assert_eq!(manager.clock(), expected);
    }
}

// A tick of an empty population does nothing but count.
#[test]
fn empty_population_ticks() {
    let mut manager: Manager<Model, i32, BranchScript> = Manager::empty();
    manager.execute();
    assert_eq!(manager.iter().len(), 0);
    assert_eq!(manager.clock(), 1);
}

// Explicitly registered processes are ticked in population order.
#[test]
fn added_processes_run_in_order() {
    let mut manager: Manager<Model, i32, BranchScript> = Manager::empty();
    manager.add_process(Process::new(Model::new(10), BranchScript));
    manager.add_process(Process::new(Model::new(20), BranchScript));
    manager.execute();
    let values: Vec<i32> = manager.iter().iter().map(|m| m.0).collect();
    assert_eq!(values, vec![11, 21, 12, 22]);
}

// The non-forking single pass keeps only the last hint a step emits: the
// first step emits [0, 1] and the pass carries 1, not 0, into the adder.
#[test]
fn simple_execute_keeps_last_hint() {
    let mut p = Process::new(Model::new(0), BranchScript);
    Process::execute(&mut p);
    assert_eq!(p.state_ref().0, 2);
}

// A process's state can be edited in place before it is registered.
#[test]
fn state_can_be_edited_in_place() {
    let mut p = Process::new(Model::new(1), BranchScript);
    p.state_mut().0 = 5;
    assert_eq!(p.state_ref().0, 5);
    let mut manager: Manager<Model, i32, BranchScript> = Manager::empty();
    manager.add_process(p);
    manager.execute();
    let values: Vec<i32> = manager.iter().iter().map(|m| m.0).collect();
    assert_eq!(values, vec![6, 7]);
}

#[test]
fn model_square() {
    let m = Model::new(10);
    assert_eq!(m.square(), 100);
    assert_eq!(Model::new(-12).square(), 144);
}
