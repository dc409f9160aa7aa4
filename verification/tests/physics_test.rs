use engine::physics::{
    feels_drag, has_direction, separating, Collider, PhysicsWorld, RigidBody, CORRECTION_PERCENT,
    CORRECTION_SLOP, DEGENERATE_DISTANCE_SQ, QUERY_SKIN,
};

fn body(mass: f32) -> RigidBody {
    RigidBody::new(mass.to_bits(), (1.0 / mass).to_bits(), 0.5f32.to_bits(), 0.1f32.to_bits())
}

#[test]
fn a_body_of_positive_mass_has_its_reciprocal_as_inverse_mass() {
    let b = body(4.0);
    assert!(!b.is_static);
    assert_eq!(f32::from_bits(b.inv_mass), 0.25);
    assert_eq!(f32::from_bits(b.mass), 4.0);
    assert_eq!((f32::from_bits(b.vx), f32::from_bits(b.vy)), (0.0, 0.0));
    assert_eq!(f32::from_bits(b.restitution), 0.5);
    assert_eq!(f32::from_bits(b.drag), 0.1);
}

#[test]
fn a_body_of_no_mass_is_static_with_inverse_mass_zero() {
    for mass in [0.0f32, -0.0, -1.0, -1e30, f32::NEG_INFINITY] {
        let b = body(mass);
        assert!(b.is_static, "mass {mass}");
        assert_eq!(b.inv_mass, 0, "mass {mass}");
    }
}

#[test]
fn a_mass_that_is_no_number_is_not_static() {
    let b = body(f32::NAN);
    assert!(!b.is_static);
    assert!(f32::from_bits(b.inv_mass).is_nan());
}

#[test]
fn the_smallest_positive_mass_is_not_static() {
    let b = body(f32::from_bits(1));
    assert!(!b.is_static);
}

#[test]
fn a_new_world_is_empty() {
    let mut world = PhysicsWorld::new();
    assert_eq!(world.get_gravity(), (0, 0));
    assert_eq!(world.dynamic_ids(), Vec::<u64>::new());
    assert_eq!(world.get_collision_events(), Vec::<(u64, u64)>::new());
    assert_eq!(world.get_velocity(1), None);
    assert_eq!(world.get_body(1), None);
}

#[test]
fn set_velocity_on_a_missing_body_does_nothing() {
    let mut world = PhysicsWorld::new();
    world.set_velocity(7, 1f32.to_bits(), 2f32.to_bits());
    assert_eq!(world.get_velocity(7), None);
    world.add_body(7, 1f32.to_bits(), 1f32.to_bits(), 0, 0);
    assert_eq!(world.get_velocity(7), Some((0, 0)));
    world.set_velocity(7, 1f32.to_bits(), 2f32.to_bits());
    assert_eq!(world.get_velocity(7), Some((1f32.to_bits(), 2f32.to_bits())));
    let b = world.get_body(7).unwrap();
    assert_eq!(f32::from_bits(b.mass), 1.0);
    assert_eq!(f32::from_bits(b.inv_mass), 1.0);
}

#[test]
fn bodies_come_and_go() {
    let mut world = PhysicsWorld::new();
    world.add_body(3, 1f32.to_bits(), 1f32.to_bits(), 0, 0);
    world.add_body(1, 0f32.to_bits(), 0, 0, 0);
    world.add_body(2, 2f32.to_bits(), 0.5f32.to_bits(), 0, 0);
    assert_eq!(world.dynamic_ids(), vec![3, 2]);
    world.remove_body(3);
    assert_eq!(world.dynamic_ids(), vec![2]);
    assert_eq!(world.get_body(3), None);
    world.remove_body(99);
    assert_eq!(world.dynamic_ids(), vec![2]);
}

#[test]
fn adding_a_body_again_replaces_it() {
    let mut world = PhysicsWorld::new();
    world.add_body(1, 1f32.to_bits(), 1f32.to_bits(), 0, 0);
    world.set_velocity(1, 5f32.to_bits(), 5f32.to_bits());
    world.add_body(1, 0f32.to_bits(), 9, 0, 0);
    assert_eq!(world.get_velocity(1), Some((0, 0)));
    assert_eq!(world.dynamic_ids(), Vec::<u64>::new());
    assert_eq!(world.get_body(1).unwrap().inv_mass, 0);
}

#[test]
fn gravity_is_kept() {
    let mut world = PhysicsWorld::new();
    world.set_gravity(1f32.to_bits(), (-9.8f32).to_bits());
    assert_eq!(world.get_gravity(), (1f32.to_bits(), (-9.8f32).to_bits()));
}

#[test]
fn what_is_no_body_collides_like_a_wall() {
    let mut world = PhysicsWorld::new();
    assert_eq!(
        world.collider(5),
        Collider { inv_mass: 0f32.to_bits(), vx: 0, vy: 0, restitution: 1f32.to_bits() }
    );
    world.add_body(5, 2f32.to_bits(), 0.5f32.to_bits(), 0.25f32.to_bits(), 0);
    world.set_velocity(5, 3f32.to_bits(), 4f32.to_bits());
    assert_eq!(
        world.collider(5),
        Collider {
            inv_mass: 0.5f32.to_bits(),
            vx: 3f32.to_bits(),
            vy: 4f32.to_bits(),
            restitution: 0.25f32.to_bits()
        }
    );
}

#[test]
fn a_pair_is_reported_once_smaller_id_first() {
    let mut world = PhysicsWorld::new();
    world.record_collision(7, 3);
    world.record_collision(3, 7);
    world.record_collision(7, 3);
    world.record_collision(1, 2);
    world.record_collision(4, 4);
    let mut events = world.get_collision_events();
    events.sort();
    assert_eq!(events, vec![(1, 2), (3, 7)]);
    assert_eq!(world.get_collision_events(), Vec::<(u64, u64)>::new());
    world.record_collision(7, 3);
    assert_eq!(world.get_collision_events(), vec![(3, 7)]);
}

#[test]
fn the_numbers_of_a_step() {
    assert_eq!(f32::from_bits(CORRECTION_PERCENT), 0.8);
    assert_eq!(f32::from_bits(CORRECTION_SLOP), 0.01);
    assert_eq!(f32::from_bits(QUERY_SKIN), 50.0);
    assert_eq!(f32::from_bits(DEGENERATE_DISTANCE_SQ), 0.0001);
}

#[test]
fn only_a_drag_above_zero_slows_down() {
    assert!(feels_drag(0.1f32.to_bits()));
    assert!(!feels_drag(0f32.to_bits()));
    assert!(!feels_drag((-0.0f32).to_bits()));
    assert!(!feels_drag((-1f32).to_bits()));
    assert!(!feels_drag(f32::NAN.to_bits()));
}

#[test]
fn bodies_that_move_apart_get_no_impulse() {
    assert!(separating(0.5f32.to_bits()));
    assert!(!separating(0f32.to_bits()));
    assert!(!separating((-0.5f32).to_bits()));
    assert!(!separating(f32::NAN.to_bits()));
}

#[test]
fn centres_closer_than_a_hundredth_have_no_direction() {
    assert!(has_direction(0.00011f32.to_bits()));
    assert!(!has_direction(0.0001f32.to_bits()));
    assert!(!has_direction(0f32.to_bits()));
    assert!(!has_direction(f32::NAN.to_bits()));
}

#[test]
fn a_wall_does_not_give_way() {
    let mut world = PhysicsWorld::new();
    assert!(!world.collider(1).gives_way());
    world.add_body(1, 2f32.to_bits(), 0.5f32.to_bits(), 0, 0);
    assert!(world.collider(1).gives_way());
    world.add_body(2, 0f32.to_bits(), 7, 0, 0);
    assert!(!world.collider(2).gives_way());
}

#[test]
fn a_contact_is_recorded_only_where_a_side_gives_way() {
    let mut world = PhysicsWorld::new();
    assert!(!world.report_contact(1, 2, 0f32.to_bits()));
    assert!(!world.report_contact(1, 2, (-0.0f32).to_bits()));
    assert!(!world.report_contact(1, 2, (-1f32).to_bits()));
    assert_eq!(world.get_collision_events(), Vec::<(u64, u64)>::new());
    assert!(world.report_contact(2, 1, 0.5f32.to_bits()));
    assert!(world.report_contact(1, 2, 0.5f32.to_bits()));
    // a sum that is no number is not "not above zero"
    assert!(world.report_contact(3, 4, f32::NAN.to_bits()));
    let mut events = world.get_collision_events();
    events.sort();
    assert_eq!(events, vec![(1, 2), (3, 4)]);
}

#[test]
fn many_pairs_come_out_once_each() {
    let mut world = PhysicsWorld::new();
    for a in 0..40u64 {
        for b in 0..40u64 {
            world.record_collision(a, b);
        }
    }
    // ids that differ only in their high halves are different pairs
    world.record_collision(1 << 63, 1);
    world.record_collision(1, 1 << 63);
    let mut events = world.get_collision_events();
    events.sort();
    let mut expected = Vec::new();
    for a in 0..40u64 {
        for b in (a + 1)..40u64 {
            expected.push((a, b));
        }
    }
    expected.push((1, 1 << 63));
    expected.sort();
    assert_eq!(events, expected);
    assert_eq!(world.get_collision_events(), Vec::<(u64, u64)>::new());
}
