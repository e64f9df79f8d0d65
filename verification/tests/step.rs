use physics2d::body::{Body, BodyPair};
use physics2d::math::{Bounds, Vec2};
use physics2d::world::{step_plan, Dynamics, Stage, World};
use std::cell::RefCell;

/// A body on a line: where it is and how fast it moves.
#[derive(Clone, Copy, Debug, PartialEq)]
struct Dot {
    x: i32,
    v: i32,
}

fn square(x: i32) -> Bounds {
    Bounds::new(Vec2::new(x, 0), Vec2::new(x + 100, 100))
}

/// Physics on a line, which writes down what it is asked to do. Two bodies
/// touch when they are no more than 95 apart; a constraint is the list of
/// the stages that have worked on it.
struct Toy {
    log: RefCell<Vec<String>>,
}

impl Toy {
    fn new() -> Toy {
        Toy { log: RefCell::new(Vec::new()) }
    }

    fn note(&self, line: String) {
        self.log.borrow_mut().push(line);
    }

    fn take(&self) -> Vec<String> {
        self.log.replace(Vec::new())
    }

    fn found(&self, a: &Dot, b: &Dot, had: usize) -> Option<Vec<Vec<Stage>>> {
        self.note(format!("collide {} {} {}", a.x, b.x, had));
        if (a.x - b.x).abs() <= 95 {
            Some(vec![Vec::new()])
        } else {
            None
        }
    }

    fn contact(&self, stage: Stage, c: &Vec<Stage>, a: &Dot, b: &Dot) -> (Vec<Stage>, Dot, Dot) {
        self.note(format!("contact {:?} {} {}", stage, a.x, b.x));
        let mut worked = c.clone();
        worked.push(stage);
        (worked, *a, *b)
    }

    fn joint(&self, stage: Stage, j: &Vec<Stage>, a: &Dot, b: &Dot) -> (Vec<Stage>, Dot, Dot) {
        self.note(format!("joint {:?} {} {}", stage, a.x, b.x));
        let mut worked = j.clone();
        worked.push(stage);
        (worked, *a, *b)
    }
}

impl Dynamics<Dot, Vec<Stage>, Vec<Stage>> for Toy {
    fn bounds(&self, state: &Dot) -> Bounds {
        self.note(format!("bounds {}", state.x));
        square(state.x)
    }

    fn collide(&self, a: &Dot, b: &Dot) -> Option<Vec<Vec<Stage>>> {
        self.found(a, b, 0)
    }

    fn collide_again(&self, a: &Dot, b: &Dot, old: &Vec<Vec<Stage>>) -> Option<Vec<Vec<Stage>>> {
        self.found(a, b, old.len())
    }

    fn integrate_forces(&self, state: &Dot) -> Dot {
        self.note(format!("forces {}", state.x));
        *state
    }

    fn integrate_velocities(&self, state: &Dot) -> Dot {
        self.note(format!("velocities {}", state.x));
        Dot { x: state.x + state.v, v: 0 }
    }

    fn initialize_contact(&self, c: &Vec<Stage>, a: &Dot, b: &Dot) -> (Vec<Stage>, Dot, Dot) {
        self.contact(Stage::InitializeContacts, c, a, b)
    }

    fn warm_start_contact(&self, c: &Vec<Stage>, a: &Dot, b: &Dot) -> (Vec<Stage>, Dot, Dot) {
        self.contact(Stage::WarmStartContacts, c, a, b)
    }

    fn solve_contact_velocity(&self, c: &Vec<Stage>, a: &Dot, b: &Dot) -> (Vec<Stage>, Dot, Dot) {
        self.contact(Stage::SolveContactsVelocity, c, a, b)
    }

    fn warm_start_contact_position(&self, c: &Vec<Stage>, a: &Dot, b: &Dot) -> (Vec<Stage>, Dot, Dot) {
        self.contact(Stage::WarmStartPositions, c, a, b)
    }

    fn solve_contact_position(&self, c: &Vec<Stage>, a: &Dot, b: &Dot) -> (Vec<Stage>, Dot, Dot) {
        self.contact(Stage::SolveContactsPosition, c, a, b)
    }

    fn initialize_joint(&self, j: &Vec<Stage>, a: &Dot, b: &Dot) -> (Vec<Stage>, Dot, Dot) {
        self.joint(Stage::InitializeJoints, j, a, b)
    }

    fn warm_start_joint(&self, j: &Vec<Stage>, a: &Dot, b: &Dot) -> (Vec<Stage>, Dot, Dot) {
        self.joint(Stage::WarmStartJoints, j, a, b)
    }

    fn solve_joint_velocity(&self, j: &Vec<Stage>, a: &Dot, b: &Dot) -> (Vec<Stage>, Dot, Dot) {
        self.joint(Stage::SolveJointsVelocity, j, a, b)
    }

    fn solve_joint_position(&self, j: &Vec<Stage>, a: &Dot, b: &Dot) -> (Vec<Stage>, Dot, Dot) {
        self.joint(Stage::SolveJointsPosition, j, a, b)
    }
}

fn two_bodies(velocity_iterations: u8, position_iterations: u8) -> World<Dot, Vec<Stage>, Vec<Stage>> {
    let mut world = World::new(velocity_iterations, position_iterations);
    world.add_body(Body::new(square(0), false, Dot { x: 0, v: 0 }));
    world.add_body(Body::new(square(300), false, Dot { x: 300, v: -210 }));
    world
}

#[test]
fn a_step_without_pairs_visits_the_bodies_only() {
    let mut world = two_bodies(2, 1);
    let toy = Toy::new();
    world.update(&toy);
    assert_eq!(
        toy.take(),
        vec!["bounds 0", "bounds 300", "forces 0", "forces 300", "velocities 0", "velocities 300"]
    );
    assert_eq!(*world.get_body(1).state(), Dot { x: 90, v: 0 });
    // the box of the body is that of the state before the step
    assert_eq!(world.get_body(1).bounds(), square(300));
    assert!(world.contact_pairs().is_empty());
}

#[test]
fn a_step_goes_through_the_stages_in_order() {
    let mut world = two_bodies(2, 1);
    world.add_joint((1, 0), Vec::new());
    let toy = Toy::new();
    world.update(&toy);
    toy.take();
    world.update(&toy);
    let mut expected: Vec<String> = Vec::new();
    for stage in step_plan(2, 1) {
        match stage {
            Stage::UpdateBounds => {
                expected.push("bounds 0".to_string());
                expected.push("bounds 90".to_string());
            }
            Stage::PruneSeparated | Stage::FindPairs => {}
            Stage::NarrowPhase => expected.push("collide 0 90 0".to_string()),
            Stage::IntegrateForces => {
                expected.push("forces 0".to_string());
                expected.push("forces 90".to_string());
            }
            Stage::IntegrateVelocities => {
                expected.push("velocities 0".to_string());
                expected.push("velocities 90".to_string());
            }
            Stage::InitializeContacts
            | Stage::WarmStartContacts
            | Stage::SolveContactsVelocity
            | Stage::WarmStartPositions
            | Stage::SolveContactsPosition => expected.push(format!("contact {:?} 0 90", stage)),
            Stage::InitializeJoints
            | Stage::WarmStartJoints
            | Stage::SolveJointsVelocity
            | Stage::SolveJointsPosition => expected.push(format!("joint {:?} 0 90", stage)),
        }
    }
    assert_eq!(toy.take(), expected);
    // in every iteration the joints come before the contacts
    let at = |line: &str| expected.iter().position(|l| l == line).unwrap();
    assert!(at("joint SolveJointsVelocity 0 90") < at("contact SolveContactsVelocity 0 90"));
    assert!(at("joint SolveJointsPosition 0 90") < at("contact SolveContactsPosition 0 90"));
    // every constraint has seen its stages, and the joint those of both steps
    let contact_stages = vec![
        Stage::InitializeContacts,
        Stage::WarmStartContacts,
        Stage::SolveContactsVelocity,
        Stage::SolveContactsVelocity,
        Stage::WarmStartPositions,
        Stage::SolveContactsPosition,
    ];
    assert_eq!(world.get_contacts(BodyPair(0, 1)), Some(&vec![contact_stages]));
    let joint_stages = vec![
        Stage::InitializeJoints,
        Stage::WarmStartJoints,
        Stage::SolveJointsVelocity,
        Stage::SolveJointsVelocity,
        Stage::SolveJointsPosition,
    ];
    let both: Vec<Stage> = joint_stages.iter().chain(joint_stages.iter()).cloned().collect();
    assert_eq!(world.get_joints((0, 1)), Some(&vec![both]));
    assert_eq!(world.get_body(1).bounds(), square(90));
    assert!(world.proxy_bounds(1).contains(&square(90)));
}

#[test]
fn the_narrow_phase_hears_of_the_old_constraints_and_can_drop_the_pair() {
    let mut world = two_bodies(0, 0);
    let toy = Toy::new();
    world.update(&toy);
    world.update(&toy);
    assert_eq!(world.contact_pairs(), vec![BodyPair(0, 1)]);
    toy.take();
    // a step in which nothing moves: the pair has its constraint from before
    world.update(&toy);
    assert!(toy.take().contains(&"collide 0 90 1".to_string()));
    // the boxes still meet at 98, but the bodies no longer touch
    world.get_body_mut(1).v = 8;
    world.update(&toy);
    assert_eq!(world.contact_pairs(), vec![BodyPair(0, 1)]);
    world.update(&toy);
    assert!(toy.take().contains(&"collide 0 98 1".to_string()));
    assert!(world.contact_pairs().is_empty());
    assert_eq!(world.body_count(), 2);
}

#[test]
fn pairs_whose_boxes_part_go_before_the_narrow_phase() {
    let mut world = two_bodies(1, 1);
    let toy = Toy::new();
    world.update(&toy);
    world.update(&toy);
    assert_eq!(world.contact_pairs(), vec![BodyPair(0, 1)]);
    world.get_body_mut(1).v = 500;
    world.update(&toy);
    toy.take();
    world.update(&toy);
    assert!(world.contact_pairs().is_empty());
    assert!(!toy.take().iter().any(|line| line.starts_with("collide")));
}

#[test]
fn two_runs_of_the_same_steps_end_alike() {
    let run = || {
        let mut world: World<Dot, Vec<Stage>, Vec<Stage>> = World::default();
        for i in 0..8 {
            world.add_body(Body::new(square(1000 * i), i % 3 == 0, Dot { x: 1000 * i, v: -930 * i }));
        }
        world.add_joint((2, 5), Vec::new());
        let toy = Toy::new();
        for _ in 0..3 {
            world.update(&toy);
        }
        let states: Vec<Dot> = world.body_ids().iter().map(|id| *world.get_body(*id).state()).collect();
        let contacts: Vec<(BodyPair, Vec<Vec<Stage>>)> = world
            .contact_pairs()
            .into_iter()
            .map(|pair| (pair, world.get_contacts(pair).unwrap().clone()))
            .collect();
        (toy.take(), states, contacts)
    };
    let first = run();
    let second = run();
    assert_eq!(first, second);
    assert!(!first.2.is_empty());
}

/// Physics in which every piece of work leaves its mark on the states: a
/// constraint counts how often it was worked on, the first body of its
/// pair gains 1 in speed and the second 10.
struct Marks;

impl Dynamics<Dot, u32, u32> for Marks {
    fn bounds(&self, state: &Dot) -> Bounds {
        square(state.x)
    }

    fn collide(&self, a: &Dot, b: &Dot) -> Option<Vec<u32>> {
        if a.x == b.x {
            None
        } else {
            Some(vec![1])
        }
    }

    fn collide_again(&self, a: &Dot, b: &Dot, old: &Vec<u32>) -> Option<Vec<u32>> {
        if a.x == b.x {
            None
        } else {
            Some(vec![old.len() as u32 + 1; old.len() + 1])
        }
    }

    fn integrate_forces(&self, state: &Dot) -> Dot {
        Dot { x: state.x, v: state.v + 7 }
    }

    fn integrate_velocities(&self, state: &Dot) -> Dot {
        Dot { x: state.x + state.v, v: state.v }
    }

    fn initialize_contact(&self, c: &u32, a: &Dot, b: &Dot) -> (u32, Dot, Dot) {
        contact_mark(c, a, b)
    }

    fn warm_start_contact(&self, c: &u32, a: &Dot, b: &Dot) -> (u32, Dot, Dot) {
        contact_mark(c, a, b)
    }

    fn solve_contact_velocity(&self, c: &u32, a: &Dot, b: &Dot) -> (u32, Dot, Dot) {
        contact_mark(c, a, b)
    }

    fn warm_start_contact_position(&self, c: &u32, a: &Dot, b: &Dot) -> (u32, Dot, Dot) {
        contact_mark(c, a, b)
    }

    fn solve_contact_position(&self, c: &u32, a: &Dot, b: &Dot) -> (u32, Dot, Dot) {
        (c + 100, *a, *b)
    }

    fn initialize_joint(&self, j: &u32, a: &Dot, b: &Dot) -> (u32, Dot, Dot) {
        joint_mark(j, a, b)
    }

    fn warm_start_joint(&self, j: &u32, a: &Dot, b: &Dot) -> (u32, Dot, Dot) {
        joint_mark(j, a, b)
    }

    fn solve_joint_velocity(&self, j: &u32, a: &Dot, b: &Dot) -> (u32, Dot, Dot) {
        joint_mark(j, a, b)
    }

    fn solve_joint_position(&self, j: &u32, a: &Dot, b: &Dot) -> (u32, Dot, Dot) {
        (j + 100, *a, *b)
    }
}

fn contact_mark(c: &u32, a: &Dot, b: &Dot) -> (u32, Dot, Dot) {
    (c + 1, Dot { x: a.x, v: a.v + 1 }, Dot { x: b.x, v: b.v + 10 })
}

fn joint_mark(j: &u32, a: &Dot, b: &Dot) -> (u32, Dot, Dot) {
    (j + a.v as u32, Dot { x: a.x, v: a.v + 1 }, Dot { x: b.x, v: b.v + 10 })
}

fn three_in_a_row() -> World<Dot, u32, u32> {
    let mut world = World::new(1, 1);
    for i in 0..3 {
        world.add_body(Body::new(square(50 * i), false, Dot { x: 50 * i, v: 0 }));
    }
    world
}

#[test]
fn every_piece_of_work_starts_from_what_the_one_before_left() {
    let mut world = three_in_a_row();
    world.add_joint((0, 1), 0);
    world.add_joint((0, 1), 0);
    world.add_joint((2, 1), 0);
    world.run_joints(Stage::SolveJointsVelocity, &Marks);
    // pair (0, 1) first, its two joints in order, then pair (1, 2)
    assert_eq!(world.get_joints((0, 1)), Some(&vec![0, 1]));
    assert_eq!(world.get_joints((1, 2)), Some(&vec![20]));
    assert_eq!(world.get_body(0).state().v, 2);
    assert_eq!(world.get_body(1).state().v, 21);
    assert_eq!(world.get_body(2).state().v, 10);
    // the boxes are not touched
    assert_eq!(world.get_body(1).bounds(), square(50));
}

#[test]
fn the_contact_stage_works_on_every_constraint_of_every_pair() {
    let mut world = three_in_a_row();
    // bodies that have left the boxes of their proxies are looked up anew
    for id in 0..3 {
        world.get_body_mut(id).x += 200;
    }
    world.refresh_bounds(&Marks);
    world.find_pairs();
    assert_eq!(world.contact_pairs(), vec![BodyPair(0, 1), BodyPair(0, 2), BodyPair(1, 2)]);
    world.narrow_phase(&Marks);
    assert_eq!(world.get_contacts(BodyPair(0, 2)), Some(&vec![1]));
    world.narrow_phase(&Marks);
    assert_eq!(world.get_contacts(BodyPair(0, 2)), Some(&vec![2, 2]));
    world.run_contacts(Stage::SolveContactsVelocity, &Marks);
    assert_eq!(world.get_contacts(BodyPair(1, 2)), Some(&vec![3, 3]));
    assert_eq!(world.get_body(0).state().v, 4);
    assert_eq!(world.get_body(1).state().v, 22);
    assert_eq!(world.get_body(2).state().v, 40);
}

#[test]
fn the_stages_on_the_bodies_take_what_the_dynamics_returns() {
    let mut world = three_in_a_row();
    world.integrate(Stage::IntegrateForces, &Marks);
    assert_eq!(*world.get_body(2).state(), Dot { x: 100, v: 7 });
    world.integrate(Stage::IntegrateVelocities, &Marks);
    assert_eq!(*world.get_body(2).state(), Dot { x: 107, v: 7 });
    assert_eq!(world.get_body(2).bounds(), square(100));
    world.refresh_bounds(&Marks);
    assert_eq!(world.get_body(2).bounds(), square(107));
    assert_eq!(*world.get_body(2).state(), Dot { x: 107, v: 7 });
    assert!(world.proxy_bounds(2).contains(&square(107)));
    // two bodies in the same place do not touch for this dynamics
    world.find_pairs();
    world.get_body_mut(1).x = 7;
    world.get_body_mut(0).x = 7;
    world.narrow_phase(&Marks);
    assert_eq!(world.contact_pairs(), vec![BodyPair(0, 2), BodyPair(1, 2)]);
}

#[test]
fn a_proxy_stays_while_it_holds_the_box_of_its_body() {
    let mut world = three_in_a_row();
    let before = world.proxy_bounds(1);
    world.get_body_mut(1).x += 2;
    world.refresh_bounds(&Marks);
    assert_eq!(world.get_body(1).bounds(), square(52));
    assert_eq!(world.proxy_bounds(1), before);
    world.find_pairs();
    assert!(world.contact_pairs().is_empty());
    // two more and the box has left the box of the proxy
    world.get_body_mut(1).x += 2;
    world.refresh_bounds(&Marks);
    assert_eq!(world.proxy_bounds(1), square(54).expand_by(5));
    world.find_pairs();
    assert_eq!(world.contact_pairs(), vec![BodyPair(0, 1), BodyPair(1, 2)]);
}

#[test]
fn a_body_that_never_moves_is_not_integrated() {
    let mut world: World<Dot, u32, u32> = World::new(1, 1);
    world.add_body(Body::new(square(0), true, Dot { x: 0, v: 5 }));
    world.add_body(Body::new(square(500), false, Dot { x: 500, v: 5 }));
    world.integrate(Stage::IntegrateForces, &Marks);
    world.integrate(Stage::IntegrateVelocities, &Marks);
    assert_eq!(*world.get_body(0).state(), Dot { x: 0, v: 5 });
    assert_eq!(*world.get_body(1).state(), Dot { x: 512, v: 12 });
}

#[test]
fn the_solver_leaves_a_body_that_never_moves_in_its_state() {
    let mut world: World<Dot, u32, u32> = World::new(1, 1);
    world.add_body(Body::new(square(0), true, Dot { x: 0, v: 3 }));
    world.add_body(Body::new(square(50), false, Dot { x: 50, v: 3 }));
    world.add_joint((0, 1), 0);
    world.add_joint((0, 1), 0);
    world.run_joints(Stage::SolveJointsVelocity, &Marks);
    // both joints saw the first body at speed 3, and the second gained 10 twice
    assert_eq!(world.get_joints((0, 1)), Some(&vec![3, 3]));
    assert_eq!(*world.get_body(0).state(), Dot { x: 0, v: 3 });
    assert_eq!(*world.get_body(1).state(), Dot { x: 50, v: 23 });
}

#[test]
fn a_step_leaves_a_body_that_never_moves_in_its_state() {
    let mut world: World<Dot, u32, u32> = World::new(2, 2);
    world.add_body(Body::new(square(0), true, Dot { x: 0, v: 3 }));
    world.add_body(Body::new(square(50), false, Dot { x: 50, v: 1 }));
    world.add_joint((0, 1), 0);
    world.get_body_mut(1).x = 60;
    for _ in 0..3 {
        world.update(&Marks);
        assert_eq!(*world.get_body(0).state(), Dot { x: 0, v: 3 });
    }
    assert!(world.get_body(1).state().v > 1);
    // the boxes are those of the states in which the last step found the bodies
    assert_eq!(world.get_body(0).bounds(), square(0));
    assert!(world.proxy_bounds(1).contains(&world.get_body(1).bounds()));
}

#[test]
fn every_stage_of_the_solver_runs_its_own_method() {
    let mut world = three_in_a_row();
    world.add_joint((0, 1), 0);
    for id in 0..3 {
        world.get_body_mut(id).x += 200;
    }
    world.refresh_bounds(&Marks);
    world.find_pairs();
    world.narrow_phase(&Marks);
    assert_eq!(world.get_contacts(BodyPair(0, 1)), Some(&vec![1]));
    world.run_contacts(Stage::SolveContactsPosition, &Marks);
    assert_eq!(world.get_contacts(BodyPair(0, 1)), Some(&vec![101]));
    world.run_contacts(Stage::WarmStartPositions, &Marks);
    assert_eq!(world.get_contacts(BodyPair(0, 1)), Some(&vec![102]));
    world.run_joints(Stage::SolveJointsPosition, &Marks);
    assert_eq!(world.get_joints((0, 1)), Some(&vec![100]));
    // the first body has gained 1 in speed from each of its two contacts
    world.run_joints(Stage::InitializeJoints, &Marks);
    assert_eq!(world.get_joints((0, 1)), Some(&vec![102]));
}
