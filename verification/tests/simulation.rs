//! Simulation tests: the engine handle's dynamics and the resting scenario.

use ode_bridge::bridge::{Body, Bridge, Collider, EntityId};
use ode_bridge::engine::{EngineEvent, Mass, World};
use ode_bridge::math::Vec3;

#[test]
fn pose_round_trip_without_stepping() {
    let mut w = World::new(Vec3 { x: 0, y: -9_810_000, z: 0 });
    let m = Mass::cube(10_000_000, 1_000_000);
    let b = w.add_body(m, 1_000_000, 2_000_000, 3_000_000);
    assert_eq!(b.get_pos(&w), (1_000_000, 2_000_000, 3_000_000));
    b.set_pos(&mut w, -4_000_000, 500_000, 9_000_000);
    assert_eq!(b.get_pos(&w), (-4_000_000, 500_000, 9_000_000));
    // Identity orientation, (w, x, y, z) with one million standing for 1.0.
    assert_eq!(b.get_quat(&w), (1_000_000, 0, 0, 0));
}

#[test]
fn zero_gravity_step_leaves_pose_unchanged() {
    let mut br = Bridge::new(Vec3 { x: 0, y: 0, z: 0 }, 10_000);
    let e = EntityId { slot: 0, generation: 1 };
    br.bind(e, &Body { mass: 1_000_000 }, 1_000_000, 2_000_000, 3_000_000).unwrap();
    br.attach_collider(e, &Collider { side_len: 1_000_000 });
    br.step();
    assert_eq!(br.pose(e).unwrap().0, Vec3 { x: 1_000_000, y: 2_000_000, z: 3_000_000 });
}

#[test]
fn one_step_fall_matches_the_integrator_formula() {
    // One step of 10 ms under gravity -9.81: the velocity gains
    // -9.81 * 0.01 = -0.0981 units per second (-98_100 micro-units), and
    // the position moves by that velocity over 0.01 s: -981 micro-units.
    let mut w = World::new(Vec3 { x: 0, y: -9_810_000, z: 0 });
    let b = w.add_body(Mass::cube(10_000_000, 1_000_000), 0, 5_000_000, 0);
    w.step(10_000, true);
    assert_eq!(b.get_pos(&w), (0, 5_000_000 - 981, 0));
    w.step(10_000, true);
    assert_eq!(b.get_pos(&w), (0, 5_000_000 - 981 - 1962, 0));
}

#[test]
fn position_saturates_at_the_representable_range() {
    // Strong upward gravity on a body already at the position limit: the
    // position clamps instead of overflowing.
    let mut w = World::new(Vec3 { x: 0, y: 1_000_000_000, z: 0 });
    let b = w.add_body(Mass::cube(1, 1), 0, 1_000_000_000_000, 0);
    w.step(1_000_000, true);
    assert_eq!(b.get_pos(&w).1, 1_000_000_000_000);
}

#[test]
fn cube_dropped_on_floor_settles_at_half_side() {
    // Create world with gravity (0, -9.81, 0), add the floor plane at
    // y = 0, spawn one cube (mass 10, side 1) at (0, 5, 0), step at 0.01 s.
    let mut br = Bridge::new(Vec3 { x: 0, y: -9_810_000, z: 0 }, 10_000);
    br.add_floor();
    let e = EntityId { slot: 0, generation: 1 };
    br.bind(e, &Body { mass: 10_000_000 }, 0, 5_000_000, 0).unwrap();
    br.attach_collider(e, &Collider { side_len: 1_000_000 });
    for _ in 0..300 {
        br.step();
    }
    // Resting on the floor: the center sits half a side above y = 0.
    let y = br.pose(e).unwrap().0.y;
    assert!((y - 500_000).abs() <= 1_000, "settled at {y}");
    // Resting is stable: fifty further steps stay put.
    for _ in 0..50 {
        br.step();
        let y = br.pose(e).unwrap().0.y;
        assert!((y - 500_000).abs() <= 1_000, "drifted to {y}");
    }
}

#[test]
fn world_teardown_hands_back_the_audit_log() {
    let mut w = World::new(Vec3 { x: 0, y: 0, z: 0 });
    let b = w.add_body(Mass::cube(1_000_000, 1_000_000), 0, 0, 0);
    let g = b.add_cube(&mut w, 1_000_000);
    w.destroy_geom(g);
    w.destroy_body(b);
    let log = w.destroy();
    assert_eq!(log.len(), 4);
    assert!(matches!(log[0], EngineEvent::CreateBody { body: 0 }));
    assert!(matches!(log[1], EngineEvent::CreateGeom { geom: 0, body: 0 }));
    assert!(matches!(log[2], EngineEvent::DestroyGeom { geom: 0, body: 0 }));
    assert!(matches!(log[3], EngineEvent::DestroyBody { body: 0 }));
}

#[test]
fn destroy_geoms_of_clears_every_shape_of_one_body() {
    let mut w = World::new(Vec3 { x: 0, y: 0, z: 0 });
    let a = w.add_body(Mass::cube(1_000_000, 1_000_000), 0, 0, 0);
    let b = w.add_body(Mass::cube(1_000_000, 1_000_000), 0, 0, 0);
    a.add_cube(&mut w, 1_000_000);
    b.add_cube(&mut w, 2_000_000);
    a.add_cube(&mut w, 3_000_000);
    w.destroy_geoms_of(a);
    assert_eq!(w.num_live_geoms(), 1);
    assert_eq!(w.num_destroyed_geoms(), 2);
    // The other body's shape is untouched; now its turn.
    w.destroy_geoms_of(b);
    w.destroy_body(a);
    w.destroy_body(b);
    assert_eq!(w.num_live_bodies(), 0);
    assert_eq!(w.num_destroyed_bodies(), 2);
}
