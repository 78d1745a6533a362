use orca_rs::clustering::{cluster, Neighborhood};
use orca_rs::plan::{plan_constraints, Constraint};

fn hood(stationary: Vec<bool>, near_pairs: &[(usize, usize)]) -> Neighborhood {
    let n = stationary.len();
    let mut near = vec![vec![false; n]; n];
    for &(s, t) in near_pairs {
        near[s][t] = true;
        near[t][s] = true;
    }
    Neighborhood { stationary, near }
}

#[test]
fn two_near_stationary_agents_merge() {
    let h = hood(vec![true, true], &[(0, 1)]);
    let c = cluster(&h, true);
    assert_eq!(c.merged, vec![true, true]);
    assert_eq!(c.pairs, vec![(0, 1)]);
    let plan = plan_constraints(&c, 1);
    assert_eq!(plan, vec![Constraint::Merged(0, 1), Constraint::Obstacle(0)]);
    assert!(!plan.contains(&Constraint::Neighbor(0)));
    assert!(!plan.contains(&Constraint::Neighbor(1)));
}

#[test]
fn merging_switched_off_keeps_agents_apart() {
    let h = hood(vec![true, true], &[(0, 1)]);
    let c = cluster(&h, false);
    assert_eq!(c.merged, vec![false, false]);
    assert!(c.pairs.is_empty());
    let plan = plan_constraints(&c, 1);
    assert_eq!(
        plan,
        vec![Constraint::Neighbor(0), Constraint::Neighbor(1), Constraint::Obstacle(0)]
    );
}

#[test]
fn stationary_agents_far_apart_do_not_merge() {
    let h = hood(vec![true, true], &[]);
    let c = cluster(&h, true);
    assert_eq!(c.merged, vec![false, false]);
    assert_eq!(
        plan_constraints(&c, 0),
        vec![Constraint::Neighbor(0), Constraint::Neighbor(1)]
    );
}

#[test]
fn moving_agent_is_never_merged() {
    let h = hood(vec![true, false, true], &[(0, 1), (1, 2)]);
    let c = cluster(&h, true);
    assert_eq!(c.merged, vec![false, false, false]);
    assert_eq!(
        plan_constraints(&c, 0),
        vec![Constraint::Neighbor(0), Constraint::Neighbor(1), Constraint::Neighbor(2)]
    );
}

#[test]
fn seed_joins_every_near_later_agent() {
    let h = hood(vec![true, true, true], &[(0, 1), (0, 2), (1, 2)]);
    let c = cluster(&h, true);
    assert_eq!(c.merged, vec![true, true, true]);
    assert_eq!(c.pairs, vec![(0, 1), (0, 2)]);
}

#[test]
fn merged_agent_is_no_seed() {
    // 0 takes 1; 1 is then no seed, so 2 stays on its own
    let h = hood(vec![true, true, true], &[(0, 1), (1, 2)]);
    let c = cluster(&h, true);
    assert_eq!(c.merged, vec![true, true, false]);
    assert_eq!(c.pairs, vec![(0, 1)]);
    assert_eq!(
        plan_constraints(&c, 2),
        vec![
            Constraint::Neighbor(2),
            Constraint::Merged(0, 1),
            Constraint::Obstacle(0),
            Constraint::Obstacle(1)
        ]
    );
}

#[test]
fn taken_agent_is_no_partner() {
    // 0 takes 2, so 1 cannot take 2 but still takes 3
    let h = hood(vec![true, true, true, true], &[(0, 2), (1, 2), (1, 3)]);
    let c = cluster(&h, true);
    assert_eq!(c.pairs, vec![(0, 2), (1, 3)]);
    assert_eq!(c.merged, vec![true, true, true, true]);
}

#[test]
fn empty_scene_has_no_constraints() {
    let h = hood(vec![], &[]);
    let c = cluster(&h, true);
    assert!(c.merged.is_empty());
    assert!(plan_constraints(&c, 0).is_empty());
}

#[test]
fn neighbours_come_first_and_alone_are_relaxable() {
    let h = hood(vec![false, true, true, false], &[(1, 2)]);
    let plan = plan_constraints(&cluster(&h, true), 2);
    assert_eq!(
        plan,
        vec![
            Constraint::Neighbor(0),
            Constraint::Neighbor(3),
            Constraint::Merged(1, 2),
            Constraint::Obstacle(0),
            Constraint::Obstacle(1)
        ]
    );
    let relaxable: Vec<bool> = plan.iter().map(|c| c.relaxable()).collect();
    assert_eq!(relaxable, vec![true, true, false, false, false]);
}

#[test]
fn equal_inputs_give_equal_plans() {
    let h = hood(vec![true, true, false, true], &[(0, 1), (1, 3), (0, 3)]);
    let a = cluster(&h, true);
    let b = cluster(&h, true);
    assert_eq!(a.merged, b.merged);
    assert_eq!(a.pairs, b.pairs);
    assert_eq!(plan_constraints(&a, 3), plan_constraints(&b, 3));
}
