use physics2d::body::{Bodies, Body, BodyPair};
use physics2d::broad_phase::{BoundsTreeBroadPhase, BroadPhase, NaiveBroadPhase, EXPANSION_PERCENT};
use physics2d::constraints::ConstraintsMap;
use physics2d::math::{Bounds, Vec2};
use physics2d::world::{step_plan, Stage, World};

fn b(min: (i32, i32), max: (i32, i32)) -> Bounds {
    Bounds::new(Vec2::new(min.0, min.1), Vec2::new(max.0, max.1))
}

fn square(x: i32, y: i32) -> Bounds {
    b((x, y), (x + 100, y + 100))
}

#[test]
fn body_pair_puts_the_smaller_id_first() {
    assert_eq!(BodyPair::new(3, 8), BodyPair(3, 8));
    assert_eq!(BodyPair::new(8, 3), BodyPair(3, 8));
    assert_eq!(BodyPair::new(5, 5), BodyPair(5, 5));
    assert_eq!(BodyPair::new(8, 3), BodyPair::new(3, 8));
}

#[test]
fn new_body_has_no_identity_yet() {
    let mut body = Body::new(square(0, 0), false, 42u32);
    assert_eq!(body.id(), 0);
    assert_eq!(body.proxy_id(), 0);
    assert_eq!(body.bounds(), square(0, 0));
    assert!(!body.is_static());
    assert_eq!(*body.state(), 42);
    *body.state_mut() = 43;
    body.set_static();
    assert!(body.is_static());
    assert_eq!(*body.state(), 43);
    assert_eq!(body.bounds(), square(0, 0));
}

#[test]
fn arena_hands_out_the_first_free_slot() {
    let mut bodies: Bodies<u32> = Bodies::new();
    assert_eq!(bodies.len(), 0);
    assert_eq!(bodies.next_id(), 0);
    let ids: Vec<usize> = (0..4).map(|i| bodies.add(Body::new(square(i, 0), false, i as u32))).collect();
    assert_eq!(ids, vec![0, 1, 2, 3]);
    assert_eq!(bodies.len(), 4);
    assert_eq!(bodies.index(2).id(), 2);
    let gone = bodies.remove(1).unwrap();
    assert_eq!(*gone.state(), 1);
    assert!(bodies.remove(1).is_none());
    assert!(bodies.remove(17).is_none());
    bodies.remove(2);
    assert_eq!(bodies.len(), 2);
    assert!(bodies.get(1).is_none());
    assert!(bodies.get(9).is_none());
    assert_eq!(bodies.ids(), vec![0, 3]);
    // the ids of the others have not moved
    assert_eq!(*bodies.index(3).state(), 3);
    assert_eq!(bodies.next_id(), 1);
    assert_eq!(bodies.add(Body::new(square(9, 9), true, 9)), 1);
    assert_eq!(bodies.add(Body::new(square(9, 9), true, 10)), 2);
    assert_eq!(bodies.add(Body::new(square(9, 9), true, 11)), 4);
    assert_eq!(bodies.slot_count(), 5);
    assert_eq!(bodies.ids(), vec![0, 1, 2, 3, 4]);
}

#[test]
fn pair_access_reaches_two_bodies_at_once() {
    let mut bodies: Bodies<u32> = Bodies::new();
    for i in 0..3 {
        bodies.add(Body::new(square(0, 0), false, 10 * i));
    }
    {
        let (first, second) = bodies.pair_mut(2, 0);
        assert_eq!((*first, *second), (20, 0));
        *first += 1;
        *second += 2;
    }
    {
        let (first, second) = BodyPair::new(1, 2).as_mut(&mut bodies);
        assert_eq!((*first, *second), (10, 21));
        std::mem::swap(first, second);
    }
    let pair = BodyPair(0, 2);
    let (a, c) = pair.as_ref(&bodies);
    assert_eq!((*a.state(), *c.state()), (2, 10));
    assert_eq!(*bodies.index(1).state(), 21);
    *bodies.state_mut(1) = 5;
    assert_eq!(*bodies.index(1).state(), 5);
    assert_eq!(bodies.index(1).id(), 1);
}

#[test]
fn constraints_map_keeps_lists_by_pair() {
    let mut map: ConstraintsMap<u8> = ConstraintsMap::new();
    let p = BodyPair::new(4, 2);
    assert!(!map.contains_key(&p));
    assert!(map.get(&p).is_none());
    assert!(map.remove(&p).is_none());
    map.insert(p, vec![1, 2]);
    assert!(map.contains_key(&BodyPair(2, 4)));
    assert!(!map.contains_key(&BodyPair(4, 2)));
    assert_eq!(map.get(&p), Some(&vec![1, 2]));
    map.get_mut(&p).unwrap().push(3);
    assert!(map.get_mut(&BodyPair(0, 1)).is_none());
    map.push(p, 4);
    map.push(BodyPair(0, 1), 9);
    assert_eq!(map.get(&p), Some(&vec![1, 2, 3, 4]));
    assert_eq!(map.get(&BodyPair(0, 1)), Some(&vec![9]));
    map.insert(p, vec![7]);
    assert_eq!(map.remove(&p), Some(vec![7]));
    assert!(!map.contains_key(&p));
    assert_eq!(map.pairs(), vec![BodyPair(0, 1)]);
}

#[test]
fn ensure_adds_an_empty_list_once() {
    let mut map: ConstraintsMap<u8> = ConstraintsMap::default();
    map.ensure(BodyPair(1, 2));
    assert_eq!(map.get(&BodyPair(1, 2)), Some(&vec![]));
    map.push(BodyPair(1, 2), 5);
    map.ensure(BodyPair(1, 2));
    assert_eq!(map.get(&BodyPair(1, 2)), Some(&vec![5]));
}

#[test]
fn pairs_are_listed_in_order_whatever_the_order_of_insertion() {
    let all = [
        BodyPair(0, 1),
        BodyPair(0, 300),
        BodyPair(1, 2),
        BodyPair(2, 7),
        BodyPair(2, 9),
        BodyPair(70_000, 70_001),
        BodyPair(usize::MAX - 1, usize::MAX),
    ];
    let mut forward: ConstraintsMap<u8> = ConstraintsMap::new();
    for p in all.iter() {
        forward.ensure(*p);
    }
    let mut backward: ConstraintsMap<u8> = ConstraintsMap::new();
    for p in all.iter().rev() {
        backward.ensure(*p);
    }
    let mut shuffled: ConstraintsMap<u8> = ConstraintsMap::new();
    for i in [3usize, 0, 6, 2, 5, 1, 4] {
        shuffled.ensure(all[i]);
    }
    assert_eq!(forward.pairs(), all.to_vec());
    assert_eq!(backward.pairs(), all.to_vec());
    assert_eq!(shuffled.pairs(), all.to_vec());
}

#[test]
fn prune_empty_and_remove_body_drop_whole_lists() {
    let mut map: ConstraintsMap<u8> = ConstraintsMap::new();
    map.ensure(BodyPair(0, 1));
    map.push(BodyPair(0, 2), 1);
    map.ensure(BodyPair(1, 2));
    map.push(BodyPair(2, 3), 2);
    map.push(BodyPair(3, 4), 3);
    map.prune_empty();
    assert_eq!(map.pairs(), vec![BodyPair(0, 2), BodyPair(2, 3), BodyPair(3, 4)]);
    map.remove_body(2);
    assert_eq!(map.pairs(), vec![BodyPair(3, 4)]);
    assert_eq!(map.get(&BodyPair(3, 4)), Some(&vec![3]));
    map.remove_all(&vec![BodyPair(3, 4), BodyPair(8, 9)]);
    assert!(map.pairs().is_empty());
}

#[test]
fn proxy_box_is_the_body_box_grown_by_five_percent() {
    assert_eq!(EXPANSION_PERCENT, 5);
    let mut bodies: Bodies<()> = Bodies::new();
    let id = bodies.add(Body::new(b((0, 0), (1000, 40)), false, ()));
    let mut broad_phase = BoundsTreeBroadPhase::new();
    let proxy = broad_phase.create_proxy(bodies.index(id));
    assert_eq!(broad_phase.get_proxy_bounds(proxy), b((-25, -1), (1025, 41)));
    assert!(broad_phase.get_proxy_bounds(proxy).contains(&bodies.index(id).bounds()));
}

#[test]
fn proxy_stays_until_the_body_leaves_its_box() {
    let mut broad_phase = BoundsTreeBroadPhase::new();
    let mut bodies: Bodies<()> = Bodies::new();
    let id = bodies.add(Body::new(square(0, 0), false, ()));
    let proxy = broad_phase.create_proxy(bodies.index(id));
    let other = broad_phase.create_proxy(&Body::new(square(500, 500), false, ()));
    assert_ne!(proxy, other);
    let fat = broad_phase.get_proxy_bounds(proxy);
    assert_eq!(fat, b((-3, -3), (103, 103)));
    // a small move: the proxy stays as it is
    broad_phase.update_proxy(proxy, &Body::new(square(2, -3), false, ()));
    assert_eq!(broad_phase.get_proxy_bounds(proxy), fat);
    // a move out of the box: the proxy is made anew under the same id
    broad_phase.update_proxy(proxy, &Body::new(square(4, 0), false, ()));
    assert_eq!(broad_phase.get_proxy_bounds(proxy), b((1, -3), (107, 103)));
    assert_eq!(broad_phase.get_proxy_bounds(other), b((497, 497), (603, 603)));
    // only the second move counts as an insertion
    let mut constraints: ConstraintsMap<u8> = ConstraintsMap::new();
    broad_phase.new_potential_pairs(&bodies, &mut constraints);
    assert!(constraints.pairs().is_empty());
    broad_phase.destroy_proxy(proxy);
    broad_phase.destroy_proxy(other);
    let again = broad_phase.create_proxy(bodies.index(id));
    assert_eq!(again, other);
}

#[test]
fn naive_broad_phase_pairs_every_two_bodies_that_meet() {
    let mut bodies: Bodies<()> = Bodies::new();
    bodies.add(Body::new(square(0, 0), false, ()));
    bodies.add(Body::new(square(50, 50), true, ()));
    bodies.add(Body::new(square(120, 120), true, ()));
    bodies.add(Body::new(square(1000, 0), false, ()));
    bodies.add(Body::new(square(1100, 0), false, ()));
    let mut constraints: ConstraintsMap<u8> = ConstraintsMap::new();
    constraints.push(BodyPair(3, 4), 1);
    let mut naive = NaiveBroadPhase;
    assert_eq!(naive.create_proxy(bodies.index(0)), 0);
    naive.update_proxy(0, bodies.index(0));
    naive.destroy_proxy(0);
    naive.new_potential_pairs(&bodies, &mut constraints);
    // 1 and 2 meet but neither can move; 3 and 4 touch and keep their list
    assert_eq!(constraints.pairs(), vec![BodyPair(0, 1), BodyPair(3, 4)]);
    assert_eq!(constraints.get(&BodyPair(0, 1)), Some(&vec![]));
    assert_eq!(constraints.get(&BodyPair(3, 4)), Some(&vec![1]));
}

#[test]
fn step_plan_is_the_fixed_order_of_a_step() {
    assert_eq!(
        step_plan(2, 1),
        vec![
            Stage::UpdateBounds,
            Stage::PruneSeparated,
            Stage::FindPairs,
            Stage::NarrowPhase,
            Stage::IntegrateForces,
            Stage::InitializeContacts,
            Stage::WarmStartContacts,
            Stage::InitializeJoints,
            Stage::WarmStartJoints,
            Stage::SolveJointsVelocity,
            Stage::SolveContactsVelocity,
            Stage::SolveJointsVelocity,
            Stage::SolveContactsVelocity,
            Stage::IntegrateVelocities,
            Stage::WarmStartPositions,
            Stage::SolveJointsPosition,
            Stage::SolveContactsPosition,
        ]
    );
    assert_eq!(step_plan(0, 0).len(), 11);
    assert_eq!(step_plan(255, 255).len(), 11 + 4 * 255);
    let world: World<(), (), ()> = World::default();
    assert_eq!(world.velocity_iterations(), 8);
    assert_eq!(world.position_iterations(), 2);
    assert_eq!(world.step_plan(), step_plan(8, 2));
    assert_eq!(world.step_plan().len(), 11 + 2 * 8 + 2 * 2);
}

#[test]
fn world_gives_bodies_ids_and_proxies() {
    let mut world: World<u32, u8, u8> = World::new(3, 4);
    assert_eq!(world.velocity_iterations(), 3);
    assert_eq!(world.position_iterations(), 4);
    assert_eq!(world.body_count(), 0);
    let a = world.add_body(Body::new(square(0, 0), false, 10));
    let c = world.add_body(Body::new(square(300, 0), true, 20));
    assert_eq!((a, c), (0, 1));
    assert_eq!(world.body_count(), 2);
    assert_eq!(world.body_ids(), vec![0, 1]);
    assert!(world.contains_body(a) && !world.contains_body(2));
    assert_eq!(world.get_body(c).id(), c);
    assert_eq!(*world.get_body(c).state(), 20);
    assert!(world.get_body(c).is_static());
    assert_ne!(world.get_body(a).proxy_id(), world.get_body(c).proxy_id());
    assert_eq!(world.proxy_bounds(a), b((-3, -3), (103, 103)));
    *world.get_body_mut(a) += 1;
    assert_eq!(*world.get_body(a).state(), 11);
    world.set_static(a);
    assert!(world.get_body(a).is_static());
    {
        let (first, second) = world.pair_mut(BodyPair(a, c));
        std::mem::swap(first, second);
    }
    assert_eq!((*world.get_body(a).state(), *world.get_body(c).state()), (20, 11));
}

#[test]
fn proxy_box_contains_body_box_after_every_update() {
    let mut world: World<(), u8, u8> = World::default();
    let id = world.add_body(Body::new(square(0, 0), false, ()));
    let mut x = 0;
    for step in 0..200 {
        x += step % 7;
        let bounds = square(x, -x / 2);
        world.update_bounds(id, bounds);
        assert_eq!(world.get_body(id).bounds(), bounds);
        assert!(world.proxy_bounds(id).contains(&bounds));
    }
}

#[test]
fn pairs_come_when_a_body_moves_in_and_go_when_the_boxes_part() {
    let mut world: World<(), u8, u8> = World::default();
    let a = world.add_body(Body::new(square(0, 0), false, ()));
    let c = world.add_body(Body::new(square(300, 0), false, ()));
    let s = world.add_body(Body::new(square(0, 300), true, ()));
    world.find_pairs();
    assert!(world.contact_pairs().is_empty());
    // c comes close to a: it has left its box, and meets the box of a
    world.update_bounds(c, square(90, 0));
    world.prune_separated();
    world.find_pairs();
    assert_eq!(world.contact_pairs(), vec![BodyPair(a, c)]);
    assert_eq!(world.get_contacts(BodyPair(a, c)), Some(&vec![]));
    world.set_contacts(BodyPair(a, c), vec![5, 6]);
    world.get_contacts_mut(BodyPair(a, c)).unwrap().push(7);
    // a second look changes nothing: no body was inserted anew
    world.find_pairs();
    assert_eq!(world.get_contacts(BodyPair(a, c)), Some(&vec![5, 6, 7]));
    // the body that cannot move meets a, but asks for no pair itself
    world.update_bounds(s, square(0, 95));
    world.find_pairs();
    assert_eq!(world.contact_pairs(), vec![BodyPair(a, c)]);
    // a moves out of its box towards it and finds both
    world.update_bounds(a, square(10, 10));
    world.find_pairs();
    assert_eq!(world.contact_pairs(), vec![BodyPair(a, c), BodyPair(a, s)]);
    // c leaves: its boxes part from a, and the pair goes
    world.update_bounds(c, square(900, 0));
    world.prune_separated();
    assert_eq!(world.contact_pairs(), vec![BodyPair(a, s)]);
    assert_eq!(world.remove_contacts(BodyPair(a, s)), Some(vec![]));
    assert_eq!(world.remove_contacts(BodyPair(a, s)), None);
    assert!(world.contact_pairs().is_empty());
}

#[test]
fn joints_are_kept_per_pair_in_either_order() {
    let mut world: World<(), u8, &'static str> = World::default();
    let a = world.add_body(Body::new(square(0, 0), false, ()));
    let c = world.add_body(Body::new(square(300, 0), false, ()));
    assert!(world.get_joints((a, c)).is_none());
    world.add_joint((c, a), "spring");
    world.add_joint((a, c), "rod");
    assert_eq!(world.get_joints((a, c)), Some(&vec!["spring", "rod"]));
    assert_eq!(world.get_joints((c, a)), Some(&vec!["spring", "rod"]));
    world.get_joints_mut((c, a)).unwrap().remove(0);
    assert_eq!(world.get_joints((a, c)), Some(&vec!["rod"]));
    assert_eq!(world.joint_pairs(), vec![BodyPair(a, c)]);
    assert!(world.get_joints_mut((a, 7)).is_none());
}

#[test]
fn removing_a_body_frees_its_id_and_drops_what_names_it() {
    let mut world: World<u32, u8, u8> = World::default();
    let a = world.add_body(Body::new(square(0, 0), false, 1));
    let c = world.add_body(Body::new(square(300, 0), false, 2));
    let d = world.add_body(Body::new(square(600, 0), false, 3));
    world.update_bounds(c, square(90, 0));
    world.update_bounds(d, square(180, 0));
    world.find_pairs();
    assert_eq!(world.contact_pairs(), vec![BodyPair(a, c), BodyPair(c, d)]);
    world.add_joint((a, c), 1);
    world.add_joint((a, d), 2);
    world.update_bounds(c, square(95, 0));
    let gone = world.remove_body(c).unwrap();
    assert_eq!(*gone.state(), 2);
    assert!(world.remove_body(c).is_none());
    assert_eq!(world.body_count(), 2);
    assert_eq!(world.body_ids(), vec![a, d]);
    assert!(world.contact_pairs().is_empty());
    assert_eq!(world.joint_pairs(), vec![BodyPair(a, d)]);
    // nothing is left of the body for the broad phase to find
    world.update_bounds(a, square(100, 0));
    world.find_pairs();
    assert_eq!(world.contact_pairs(), vec![BodyPair(a, d)]);
    // the id is free again
    assert_eq!(world.add_body(Body::new(square(0, 900), false, 4)), c);
    assert!(world.proxy_bounds(c).contains(&square(0, 900)));
}

#[test]
fn same_moves_give_the_same_pairs_in_the_same_order() {
    let run = |order: &[usize]| {
        let mut world: World<(), u8, u8> = World::default();
        for i in 0..10 {
            world.add_body(Body::new(square(1000 * i, 0), false, ()));
        }
        for i in order {
            world.update_bounds(*i, square(50 * (*i as i32), 0));
        }
        world.find_pairs();
        world.contact_pairs()
    };
    let forward = run(&[0, 1, 2, 3, 4, 5, 6, 7, 8, 9]);
    let backward = run(&[9, 8, 7, 6, 5, 4, 3, 2, 1, 0]);
    let mixed = run(&[4, 9, 0, 7, 2, 5, 8, 1, 6, 3]);
    assert_eq!(forward, backward);
    assert_eq!(forward, mixed);
    assert_eq!(forward.len(), 9 + 8);
    assert_eq!(forward[0], BodyPair(0, 1));
    assert_eq!(forward[1], BodyPair(0, 2));
    assert_eq!(forward[16], BodyPair(8, 9));
}

fn pairs_through<P: BroadPhase<()>>(
    broad_phase: &mut P,
    bodies: &Bodies<()>,
    moved: &Body<()>,
) -> Vec<BodyPair> {
    let first = broad_phase.create_proxy(bodies.index(0));
    let second = broad_phase.create_proxy(bodies.index(1));
    broad_phase.update_proxy(first, moved);
    let mut constraints: ConstraintsMap<u8> = ConstraintsMap::new();
    broad_phase.new_potential_pairs(bodies, &mut constraints);
    broad_phase.destroy_proxy(second);
    constraints.pairs()
}

#[test]
fn either_broad_phase_serves_behind_the_same_interface() {
    let mut bodies: Bodies<()> = Bodies::new();
    bodies.add(Body::new(square(0, 0), false, ()));
    bodies.add(Body::new(square(50, 0), false, ()));
    // body 0 as it is after a move out of the box of its proxy
    let moved = Body::new(square(10, 0), false, ());
    let mut tree = BoundsTreeBroadPhase::new();
    assert_eq!(pairs_through(&mut tree, &bodies, &moved), vec![BodyPair(0, 1)]);
    let mut naive = NaiveBroadPhase;
    assert_eq!(pairs_through(&mut naive, &bodies, &moved), vec![BodyPair(0, 1)]);
}

#[test]
fn with_hands_both_bodies_to_the_function() {
    let mut bodies: Bodies<u32> = Bodies::new();
    bodies.add(Body::new(square(0, 0), false, 3));
    bodies.add(Body::new(square(50, 0), false, 4));
    let sum = BodyPair::new(1, 0).with(&bodies, |a: &Body<u32>, b: &Body<u32>| {
        10 * *a.state() + *b.state()
    });
    assert_eq!(sum, 34);
    let meet = BodyPair(0, 1).with(&bodies, |a: &Body<u32>, b: &Body<u32>| {
        a.bounds().intersects(&b.bounds())
    });
    assert!(meet);
}

#[test]
fn settle_pair_takes_in_what_the_narrow_phase_found() {
    let mut world: World<(), u8, u8> = World::default();
    let a = world.add_body(Body::new(square(0, 0), false, ()));
    let c = world.add_body(Body::new(square(300, 0), false, ()));
    world.update_bounds(c, square(90, 0));
    world.find_pairs();
    world.settle_pair(BodyPair(a, c), Some(vec![1, 2]));
    assert_eq!(world.get_contacts(BodyPair(a, c)), Some(&vec![1, 2]));
    world.settle_pair(BodyPair(a, c), Some(vec![]));
    assert_eq!(world.get_contacts(BodyPair(a, c)), Some(&vec![]));
    world.settle_pair(BodyPair(a, c), None);
    assert_eq!(world.get_contacts(BodyPair(a, c)), None);
    assert!(world.contact_pairs().is_empty());
}

#[test]
fn removing_a_body_leaves_the_other_proxies_alone() {
    let mut world: World<u8, u8, u8> = World::new(1, 1);
    let a = world.add_body(Body::new(Bounds::new(Vec2::new(0, 0), Vec2::new(100, 100)), false, 0));
    let b = world.add_body(Body::new(Bounds::new(Vec2::new(50, 0), Vec2::new(150, 100)), false, 0));
    let c = world.add_body(Body::new(Bounds::new(Vec2::new(400, 0), Vec2::new(500, 100)), false, 0));
    let box_a = world.proxy_bounds(a);
    let box_c = world.proxy_bounds(c);
    // the second body leaves the box of its proxy and is put on record
    world.update_bounds(b, Bounds::new(Vec2::new(90, 0), Vec2::new(190, 100)));
    assert!(world.remove_body(b).is_some());
    assert_eq!(world.proxy_bounds(a), box_a);
    assert_eq!(world.proxy_bounds(c), box_c);
    // it is off the record too: nothing is proposed for it
    world.find_pairs();
    assert!(world.contact_pairs().is_empty());
    assert_eq!(world.body_count(), 2);
}
