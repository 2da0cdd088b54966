//! Lifecycle tests: bind, attach, remove, and the audit-log ordering.

use ode_bridge::bridge::{AttachOutcome, BindError, Body, Bridge, Collider, EntityId};
use ode_bridge::engine::EngineEvent;
use ode_bridge::math::Vec3;

fn gravity_earth() -> Vec3 {
    Vec3 { x: 0, y: -9_810_000, z: 0 }
}

fn eid(slot: u32, generation: u32) -> EntityId {
    EntityId { slot, generation }
}

#[test]
fn it_works() {
    assert_eq!(2 + 2, 4);
}

#[test]
fn lib_it_works() {
    assert_eq!(2 + 2, 4);
}

#[test]
fn bind_then_lookup_resolves() {
    let mut br = Bridge::new(gravity_earth(), 10_000);
    let e = eid(0, 1);
    assert!(br.bind(e, &Body { mass: 10_000_000 }, 0, 5_000_000, 0).is_ok());
    assert!(br.lookup(e).is_some());
    let pose = br.pose(e).unwrap();
    assert_eq!(pose.0, Vec3 { x: 0, y: 5_000_000, z: 0 });
    // A fresh body is unrotated: the identity quaternion.
    assert_eq!(pose.1.w, 1_000_000);
    assert_eq!(pose.1.x, 0);
    assert_eq!(pose.1.y, 0);
    assert_eq!(pose.1.z, 0);
}

#[test]
fn double_bind_is_rejected() {
    let mut br = Bridge::new(gravity_earth(), 10_000);
    let e = eid(4, 1);
    assert!(br.bind(e, &Body { mass: 1 }, 0, 0, 0).is_ok());
    assert_eq!(br.bind(e, &Body { mass: 1 }, 0, 0, 0), Err(BindError::SlotOccupied));
    // Even a different generation may not overwrite a live slot.
    assert_eq!(br.bind(eid(4, 2), &Body { mass: 1 }, 0, 0, 0), Err(BindError::SlotOccupied));
}

#[test]
fn handle_balance_after_spawn_and_despawn() {
    let mut br = Bridge::new(gravity_earth(), 10_000);
    for slot in 0..3u32 {
        let e = eid(slot, 1);
        br.bind(e, &Body { mass: 2_000_000 }, 0, 1_000_000, 0).unwrap();
        match br.attach_collider(e, &Collider { side_len: 1_000_000 }) {
            AttachOutcome::Attached(_) => {}
            AttachOutcome::Deferred => panic!("parent was bound"),
        }
    }
    assert!(br.remove_body(eid(1, 1)));
    let w = br.world();
    // Creations balance against destructions plus live handles.
    assert_eq!(w.num_bodies(), 3);
    assert_eq!(w.num_live_bodies(), 2);
    assert_eq!(w.num_destroyed_bodies(), 1);
    assert_eq!(w.num_geoms(), 3);
    assert_eq!(w.num_live_geoms(), 2);
    assert_eq!(w.num_destroyed_geoms(), 1);
    // Removing the other two drains everything, nothing twice.
    assert!(br.remove_body(eid(0, 1)));
    assert!(br.remove_body(eid(2, 1)));
    let w = br.world();
    assert_eq!(w.num_live_bodies(), 0);
    assert_eq!(w.num_destroyed_bodies(), 3);
    assert_eq!(w.num_live_geoms(), 0);
    assert_eq!(w.num_destroyed_geoms(), 3);
}

#[test]
fn removal_destroys_shape_before_body() {
    let mut br = Bridge::new(gravity_earth(), 10_000);
    let e = eid(0, 1);
    br.bind(e, &Body { mass: 1_000_000 }, 0, 2_000_000, 0).unwrap();
    br.attach_collider(e, &Collider { side_len: 1_000_000 });
    assert!(br.remove_body(e));
    let log = br.world().events();
    let geom_destroyed = log
        .iter()
        .position(|ev| matches!(ev, EngineEvent::DestroyGeom { .. }))
        .expect("shape destroy recorded");
    let body_destroyed = log
        .iter()
        .position(|ev| matches!(ev, EngineEvent::DestroyBody { .. }))
        .expect("body destroy recorded");
    assert!(geom_destroyed < body_destroyed);
}

#[test]
fn stale_identifier_never_resolves() {
    let mut br = Bridge::new(gravity_earth(), 10_000);
    let old_id = eid(2, 1);
    br.bind(old_id, &Body { mass: 1 }, 1_000_000, 0, 0).unwrap();
    assert!(br.remove_body(old_id));
    assert!(br.lookup(old_id).is_none());
    assert!(br.pose(old_id).is_none());
    // The slot is reused under a new generation.
    let new_id = eid(2, 2);
    br.bind(new_id, &Body { mass: 1 }, 7_000_000, 0, 0).unwrap();
    // The stale identifier still misses; the new one sees its own body.
    assert!(br.lookup(old_id).is_none());
    assert!(br.pose(old_id).is_none());
    assert_eq!(br.pose(new_id).unwrap().0, Vec3 { x: 7_000_000, y: 0, z: 0 });
    // Removing through the stale identifier is a no-op.
    assert!(!br.remove_body(old_id));
    assert_eq!(br.world().num_live_bodies(), 1);
}

#[test]
fn attach_before_bind_is_deferred_then_retried() {
    let mut br = Bridge::new(gravity_earth(), 10_000);
    let parent = eid(0, 1);
    // The collider event arrives before the body event: deferred, no crash.
    match br.attach_collider(parent, &Collider { side_len: 1_000_000 }) {
        AttachOutcome::Deferred => {}
        AttachOutcome::Attached(_) => panic!("parent is not bound yet"),
    }
    assert_eq!(br.world().num_geoms(), 0);
    br.bind(parent, &Body { mass: 1_000_000 }, 0, 3_000_000, 0).unwrap();
    // The next tick retries the deferred attach before stepping.
    br.step();
    assert_eq!(br.world().num_live_geoms(), 1);
    // A request whose parent never binds just stays queued.
    match br.attach_collider(eid(9, 1), &Collider { side_len: 1_000_000 }) {
        AttachOutcome::Deferred => {}
        AttachOutcome::Attached(_) => panic!("slot 9 is not bound"),
    }
    br.step();
    assert_eq!(br.world().num_live_geoms(), 1);
}

#[test]
fn below_threshold_body_is_found_and_torn_down_in_order() {
    let mut br = Bridge::new(gravity_earth(), 10_000);
    let sunk = eid(0, 1);
    let afloat = eid(1, 1);
    br.bind(sunk, &Body { mass: 1_000_000 }, 0, -2_000_000, 0).unwrap();
    br.attach_collider(sunk, &Collider { side_len: 1_000_000 });
    br.bind(afloat, &Body { mass: 1_000_000 }, 0, 4_000_000, 0).unwrap();
    // The scene-maintenance rule: everything below y = -1 is out of bounds.
    let doomed = br.entities_below(-1_000_000);
    assert_eq!(doomed.len(), 1);
    assert_eq!(doomed[0], sunk);
    let log_len_before = br.world().events().len();
    assert!(br.remove_body(doomed[0]));
    assert!(br.lookup(sunk).is_none());
    // The teardown appended its shape's destroy, then the body's.
    let log = br.world().events();
    assert!(matches!(log[log_len_before], EngineEvent::DestroyGeom { .. }));
    assert!(matches!(log[log_len_before + 1], EngineEvent::DestroyBody { .. }));
    assert_eq!(log.len(), log_len_before + 2);
    assert!(br.lookup(afloat).is_some());
}
