use orca_rs::relax::{Relaxation, Step};

#[test]
fn feasible_run_is_accepted() {
    let mut r = Relaxation::new(3);
    assert_eq!(r.next(true), Step::Accept);
    assert_eq!(r.rounds, 0);
    assert_eq!(r.limit, 3);
}

#[test]
fn infeasible_runs_relax_until_the_cap() {
    let mut r = Relaxation::new(2);
    assert_eq!(r.next(false), Step::Relax);
    assert_eq!(r.rounds, 1);
    assert_eq!(r.next(false), Step::Relax);
    assert_eq!(r.rounds, 2);
    assert_eq!(r.next(false), Step::GiveUp);
    assert_eq!(r.rounds, 2);
    assert_eq!(r.next(true), Step::Accept);
}

#[test]
fn zero_cap_gives_up_at_once() {
    let mut r = Relaxation::new(0);
    assert_eq!(r.next(false), Step::GiveUp);
    assert_eq!(r.rounds, 0);
}
