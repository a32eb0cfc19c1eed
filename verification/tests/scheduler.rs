use sch::scheduler::BuildError;
use sch::scheduler::Scheduler;
use sch::system::System;

fn task(name: &str, after: &[&str]) -> System {
    let mut deps: Vec<String> = Vec::new();
    for a in after {
        deps.push(a.to_string());
    }
    System::new(name.to_string(), deps)
}

#[test]
fn empty_graph_builds_and_completes() {
    let mut s = Scheduler::new(Vec::new()).unwrap();
    assert_eq!(s.num_tasks(), 0);
    let ready = s.start_cycle();
    assert!(ready.is_empty());
    assert!(s.cycle_complete());
    assert_eq!(s.outstanding(), 0);
}

#[test]
fn chain_spawns_in_order() {
    let mut s = Scheduler::new(vec![task("a", &[]), task("b", &["a"])]).unwrap();
    let ready = s.start_cycle();
    assert_eq!(ready, vec![0]);
    assert_eq!(s.outstanding(), 1);
    assert!(!s.cycle_complete());
    assert!(s.is_spawned(0));
    assert!(!s.is_spawned(1));
    assert_eq!(s.remaining(1), 1);

    let spawned = s.on_release(0);
    assert_eq!(spawned, vec![1]);
    assert!(s.is_released(0));
    assert!(s.is_spawned(1));
    assert_eq!(s.remaining(1), 0);
    assert!(!s.cycle_complete());

    let spawned = s.on_release(1);
    assert!(spawned.is_empty());
    assert!(s.cycle_complete());
}

#[test]
fn two_consecutive_cycles_run_all_tasks() {
    let mut s = Scheduler::new(vec![task("a", &[]), task("b", &["a"])]).unwrap();
    for _cycle in 0..2 {
        let ready = s.start_cycle();
        assert_eq!(ready, vec![0]);
        assert!(!s.is_released(0));
        assert!(!s.is_spawned(1));
        assert_eq!(s.on_release(0), vec![1]);
        assert_eq!(s.on_release(1), Vec::<usize>::new());
        assert!(s.cycle_complete());
        assert!(s.is_spawned(0) && s.is_spawned(1));
        assert!(s.is_released(0) && s.is_released(1));
    }
}

#[test]
fn diamond_waits_for_both_branches() {
    let systems = vec![
        task("a", &[]),
        task("b", &["a"]),
        task("c", &["a"]),
        task("d", &["b", "c"]),
    ];
    let mut s = Scheduler::new(systems).unwrap();
    let ready = s.start_cycle();
    assert_eq!(ready, vec![0]);
    assert_eq!(s.on_release(0), vec![1, 2]);
    assert_eq!(s.remaining(3), 2);
    assert_eq!(s.on_release(1), Vec::<usize>::new());
    assert_eq!(s.remaining(3), 1);
    assert!(!s.is_spawned(3));
    assert_eq!(s.on_release(2), vec![3]);
    assert_eq!(s.remaining(3), 0);
    assert_eq!(s.on_release(3), Vec::<usize>::new());
    assert!(s.cycle_complete());
}

#[test]
fn diamond_release_order_does_not_matter() {
    let systems = vec![
        task("a", &[]),
        task("b", &["a"]),
        task("c", &["a"]),
        task("d", &["b", "c"]),
    ];
    let mut s = Scheduler::new(systems).unwrap();
    s.start_cycle();
    s.on_release(0);
    assert_eq!(s.on_release(2), Vec::<usize>::new());
    assert_eq!(s.on_release(1), vec![3]);
    s.on_release(3);
    assert!(s.cycle_complete());
}

#[test]
fn independent_tasks_all_ready() {
    let mut s = Scheduler::new(vec![task("a", &[]), task("b", &[]), task("c", &[])]).unwrap();
    let ready = s.start_cycle();
    assert_eq!(ready, vec![0, 1, 2]);
    assert_eq!(s.outstanding(), 3);
    s.on_release(1);
    s.on_release(0);
    assert!(!s.cycle_complete());
    s.on_release(2);
    assert!(s.cycle_complete());
}

#[test]
fn duplicate_prerequisite_counts_twice() {
    let mut s = Scheduler::new(vec![task("a", &[]), task("b", &["a", "a"])]).unwrap();
    let ready = s.start_cycle();
    assert_eq!(ready, vec![0]);
    assert_eq!(s.remaining(1), 2);
    assert_eq!(s.on_release(0), vec![1]);
    assert_eq!(s.remaining(1), 0);
    s.on_release(1);
    assert!(s.cycle_complete());
}

#[test]
fn duplicate_names_resolve_to_first() {
    let systems = vec![task("x", &[]), task("x", &[]), task("b", &["x"])];
    let mut s = Scheduler::new(systems).unwrap();
    let ready = s.start_cycle();
    assert_eq!(ready, vec![0, 1]);
    assert_eq!(s.on_release(1), Vec::<usize>::new());
    assert!(!s.is_spawned(2));
    assert_eq!(s.on_release(0), vec![2]);
    s.on_release(2);
    assert!(s.cycle_complete());
}

#[test]
fn unresolved_name_fails_construction() {
    let r = Scheduler::new(vec![task("a", &[]), task("b", &["missing"])]);
    assert_eq!(r.err(), Some(BuildError::UnresolvedName));
}

#[test]
fn dependency_cycle_fails_construction() {
    let r = Scheduler::new(vec![task("a", &["b"]), task("b", &["a"])]);
    assert_eq!(r.err(), Some(BuildError::DependencyCycle));
}

#[test]
fn self_loop_fails_construction() {
    let r = Scheduler::new(vec![task("a", &["a"])]);
    assert_eq!(r.err(), Some(BuildError::DependencyCycle));
}

#[test]
fn unresolved_name_reported_before_cycle() {
    let systems = vec![task("a", &["b"]), task("b", &["a"]), task("c", &["missing"])];
    let r = Scheduler::new(systems);
    assert_eq!(r.err(), Some(BuildError::UnresolvedName));
}

#[test]
fn larger_acyclic_graph_runs_every_task_once() {
    let systems = vec![
        task("load", &[]),
        task("parse", &["load"]),
        task("check", &["parse"]),
        task("emit", &["check", "parse"]),
        task("report", &["emit", "load"]),
    ];
    let mut s = Scheduler::new(systems).unwrap();
    let mut pending = s.start_cycle();
    let mut order: Vec<usize> = Vec::new();
    while let Some(id) = pending.pop() {
        order.push(id);
        let mut next = s.on_release(id);
        pending.append(&mut next);
    }
    assert!(s.cycle_complete());
    assert_eq!(order.len(), 5);
    let mut seen = vec![false; 5];
    for id in order {
        assert!(!seen[id]);
        seen[id] = true;
    }
    assert!(seen.iter().all(|b| *b));
}
