//! Fixed-step driver tests: determinism under re-chunked frame deltas.

use ode_bridge::bridge::{Body, Bridge, Collider, EntityId};
use ode_bridge::driver::{FixedStepDriver, StepTime};
use ode_bridge::math::Vec3;

#[test]
fn step_count_is_independent_of_frame_chunking() {
    // One 0.25 s frame versus five 0.05 s frames, at a 0.01 s step size:
    // both accept the same total time, so both run 25 steps.
    let mut one_frame = FixedStepDriver::new(10_000, 1_000_000);
    let mut five_frames = FixedStepDriver::new(10_000, 1_000_000);
    let n1 = one_frame.advance(250_000);
    let mut n2: u64 = 0;
    for _ in 0..5 {
        n2 += five_frames.advance(50_000);
    }
    assert_eq!(n1, 25);
    assert_eq!(n2, 25);
}

#[test]
fn remainder_is_carried_over() {
    let mut d = FixedStepDriver::new(10_000, 1_000_000);
    assert_eq!(d.advance(5_000), 0);
    assert_eq!(d.accumulator(), 5_000);
    assert_eq!(d.advance(5_000), 1);
    assert_eq!(d.accumulator(), 0);
    assert_eq!(d.advance(25_000), 2);
    assert_eq!(d.accumulator(), 5_000);
}

#[test]
fn debt_is_capped_to_avoid_a_catch_up_spiral() {
    // A 10 s stall against a 0.1 s cap: at most ten steps' debt is kept.
    let mut d = FixedStepDriver::new(10_000, 100_000);
    assert_eq!(d.advance(10_000_000), 10);
    assert_eq!(d.accumulator(), 0);
}

#[test]
fn re_chunked_frames_reproduce_the_same_simulation() {
    // The same wall-clock history delivered in different frame sizes must
    // drive the very same simulation trajectory.
    let mut runs: Vec<i64> = Vec::new();
    for frame_us in [7_000u64, 20_000, 250_000] {
        let mut d = FixedStepDriver::new(10_000, 1_000_000);
        let mut br = Bridge::new(Vec3 { x: 0, y: -9_810_000, z: 0 }, 10_000);
        br.add_floor();
        let e = EntityId { slot: 0, generation: 1 };
        br.bind(e, &Body { mass: 10_000_000 }, 0, 5_000_000, 0).unwrap();
        br.attach_collider(e, &Collider { side_len: 1_000_000 });
        let mut elapsed: u64 = 0;
        while elapsed < 1_000_000 {
            let n = d.advance(frame_us);
            for _ in 0..n {
                br.step();
            }
            elapsed += frame_us;
        }
        runs.push(br.pose(e).unwrap().0.y);
    }
    assert_eq!(runs[0], runs[1]);
    assert_eq!(runs[1], runs[2]);
}

#[test]
fn step_cost_is_recorded_for_diagnostics() {
    let mut d = FixedStepDriver::new(10_000, 1_000_000);
    assert_eq!(d.step_time(), StepTime(0));
    d.record_step_time(StepTime(1_234));
    assert_eq!(d.step_time(), StepTime(1_234));
    assert_eq!(d.step_size(), 10_000);
}
