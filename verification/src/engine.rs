//! A deterministic engine handle: one simulation [`World`] owning rigid
//! bodies and the cube collision shapes attached to them.
//!
//! The handle enforces the engine's ownership rules in its contracts: a shape
//! is created on a live body and destroyed before it; a body is destroyed
//! only once all its shapes are gone; the world is torn down only once all
//! bodies are gone. Every create and destroy call is recorded in an event
//! log, so the order of teardown is part of the observable state.
//!
//! Dynamics are fixed-point and exact: each step applies gravity to every
//! live body's velocity, advances its position, and rests a body on the floor
//! plane (if one was added) when its lowest point would sink below it.
//! Velocities and positions saturate at the representable range.

use vstd::prelude::*;

use crate::math::{
    clamp_i64, clamp_spec, mul_scale_down, scale_down, Quat, Vec3, DT_LIMIT, GRAV_LIMIT,
    POS_LIMIT, SCALE, SIDE_LIMIT, VEL_LIMIT,
};

verus! {

/// One entry of the world's create/destroy audit log.
#[derive(Clone, Copy, Debug, PartialEq, Eq, Structural)]
pub enum EngineEvent {
    /// A body was allocated.
    CreateBody { body: usize },
    /// A cube shape was created and attached to `body`.
    CreateGeom { geom: usize, body: usize },
    /// A shape was removed from the collision space and freed.
    DestroyGeom { geom: usize, body: usize },
    /// A body was freed.
    DestroyBody { body: usize },
}

/// Mass distribution of a body: a uniform cube of a given total mass and
/// side length.
pub struct Mass {
    total: i64,
    side: i64,
}

/// Handle to a rigid body inside a [`World`]. Copyable; validity is a
/// property of the world it came from.
#[derive(Clone, Copy, Debug, PartialEq, Eq, Structural)]
pub struct Body {
    index: usize,
}

/// Handle to a collision shape inside a [`World`].
#[derive(Clone, Copy, Debug, PartialEq, Eq, Structural)]
pub struct Geom {
    index: usize,
}

#[derive(Clone, Copy)]
struct BodyRec {
    alive: bool,
    destroyed_at: usize,
    pos: Vec3,
    vel: Vec3,
    quat: Quat,
    mass: i64,
}

#[derive(Clone, Copy)]
struct GeomRec {
    alive: bool,
    destroyed_at: usize,
    body: usize,
    side: i64,
}

/// The abstract state of a body: its record slot never moves, so a destroyed
/// body keeps its final pose and the log index of its destruction.
pub ghost struct BodyModel {
    pub alive: bool,
    /// Log index of this body's `DestroyBody` event; `-1` while alive.
    pub destroyed_at: int,
    pub pos: Vec3,
    pub vel: Vec3,
    pub quat: Quat,
    pub mass: int,
}

/// The abstract state of a collision shape.
pub ghost struct GeomModel {
    pub alive: bool,
    /// Log index of this shape's `DestroyGeom` event; `-1` while alive.
    pub destroyed_at: int,
    pub body: int,
    pub side: int,
}

/// One simulation world: gravity, an optional floor plane at height zero,
/// the bodies and shapes it owns, and the audit log of create/destroy calls.
pub struct World {
    gravity: Vec3,
    floor: bool,
    bodies: Vec<BodyRec>,
    geoms: Vec<GeomRec>,
    log: Vec<EngineEvent>,
}

impl Mass {
    /// Total mass, in micro-mass-units.
    pub closed spec fn total(self) -> int {
        self.total as int
    }

    /// Side length of the mass cube, in micro-units.
    pub closed spec fn side(self) -> int {
        self.side as int
    }

    /// A well-formed mass specification: positive mass, representable side.
    pub open spec fn wf(self) -> bool {
        0 < self.total() && 0 < self.side() <= SIDE_LIMIT as int
    }

    /// Mass distribution of a uniform cube of total mass `total_mass` and
    /// side `side_len`.
    pub fn cube(total_mass: i64, side_len: i64) -> (m: Mass)
        requires
            0 < total_mass,
            0 < side_len <= SIDE_LIMIT,
        ensures
            m.wf(),
            m.total() == total_mass,
            m.side() == side_len,
    {
        Mass { total: total_mass, side: side_len }
    }
}

impl Body {
    /// The body's slot in its world.
    pub closed spec fn index(self) -> int {
        self.index as int
    }
}

impl Geom {
    /// The shape's slot in its world.
    pub closed spec fn index(self) -> int {
        self.index as int
    }
}

spec fn body_model_of(rec: BodyRec) -> BodyModel {
    BodyModel {
        alive: rec.alive,
        destroyed_at: if rec.alive {
            -1
        } else {
            rec.destroyed_at as int
        },
        pos: rec.pos,
        vel: rec.vel,
        quat: rec.quat,
        mass: rec.mass as int,
    }
}

spec fn geom_model_of(rec: GeomRec) -> GeomModel {
    GeomModel {
        alive: rec.alive,
        destroyed_at: if rec.alive {
            -1
        } else {
            rec.destroyed_at as int
        },
        body: rec.body as int,
        side: rec.side as int,
    }
}

impl World {
    /// Number of bodies ever created in this world.
    pub closed spec fn body_count(self) -> int {
        self.bodies@.len() as int
    }

    /// Abstract state of body `b`.
    pub closed spec fn body(self, b: int) -> BodyModel {
        body_model_of(self.bodies@[b])
    }

    /// Number of shapes ever created in this world.
    pub closed spec fn geom_count(self) -> int {
        self.geoms@.len() as int
    }

    /// Abstract state of shape `g`.
    pub closed spec fn geom(self, g: int) -> GeomModel {
        geom_model_of(self.geoms@[g])
    }

    /// The audit log of create/destroy calls, oldest first.
    pub closed spec fn log(self) -> Seq<EngineEvent> {
        self.log@
    }

    /// The world's gravity vector, in micro-units per second squared.
    pub closed spec fn gravity(self) -> Vec3 {
        self.gravity
    }

    /// Whether a floor plane at height zero has been added.
    pub closed spec fn floor_on(self) -> bool {
        self.floor
    }

    /// `b` names a body slot of this world.
    pub open spec fn valid_body(self, b: int) -> bool {
        0 <= b < self.body_count()
    }

    /// `g` names a shape slot of this world.
    pub open spec fn valid_geom(self, g: int) -> bool {
        0 <= g < self.geom_count()
    }

    /// Well-formedness of one body slot.
    pub open spec fn body_ok(self, b: int) -> bool {
        let m = self.body(b);
        &&& (m.alive ==> m.destroyed_at == -1)
        &&& (!m.alive ==> {
            &&& 0 <= m.destroyed_at < self.log().len()
            &&& self.log()[m.destroyed_at] == (EngineEvent::DestroyBody { body: b as usize })
        })
        &&& (m.alive ==> m.pos.within(POS_LIMIT as int) && m.vel.within(VEL_LIMIT as int))
    }

    /// Well-formedness of one shape slot, including the ordering invariant:
    /// a shape of a destroyed body was destroyed first.
    pub open spec fn geom_ok(self, g: int) -> bool {
        let m = self.geom(g);
        &&& self.valid_body(m.body)
        &&& 0 < m.side <= SIDE_LIMIT as int
        &&& (m.alive ==> m.destroyed_at == -1)
        &&& (!m.alive ==> {
            &&& 0 <= m.destroyed_at < self.log().len()
            &&& self.log()[m.destroyed_at] == (EngineEvent::DestroyGeom {
                geom: g as usize,
                body: m.body as usize,
            })
        })
        &&& (m.alive ==> self.body(m.body).alive)
        &&& (!self.body(m.body).alive ==> !m.alive && m.destroyed_at < self.body(
            m.body,
        ).destroyed_at)
    }

    /// The world invariant: every slot well formed, gravity representable.
    pub open spec fn wf(self) -> bool {
        &&& forall|b: int| self.valid_body(b) ==> #[trigger] self.body_ok(b)
        &&& forall|g: int| self.valid_geom(g) ==> #[trigger] self.geom_ok(g)
        &&& self.gravity().within(GRAV_LIMIT as int)
    }

    /// Whether any of the first `n` shape slots is a live shape of body `b`.
    pub open spec fn has_live_geom_upto(self, b: int, n: int) -> bool
        decreases n,
    {
        if n <= 0 {
            false
        } else {
            (self.geom(n - 1).alive && self.geom(n - 1).body == b) || self.has_live_geom_upto(
                b,
                n - 1,
            )
        }
    }

    /// Whether body `b` carries at least one live collision shape.
    pub open spec fn has_live_geom(self, b: int) -> bool {
        self.has_live_geom_upto(b, self.geom_count())
    }

    /// Largest half side length among the live shapes of `b` found in the
    /// first `n` shape slots; `0` if there is none.
    pub open spec fn rest_half_upto(self, b: int, n: int) -> int
        decreases n,
    {
        if n <= 0 {
            0
        } else {
            let prev = self.rest_half_upto(b, n - 1);
            let here = if self.geom(n - 1).alive && self.geom(n - 1).body == b {
                self.geom(n - 1).side / 2
            } else {
                0
            };
            if here > prev {
                here
            } else {
                prev
            }
        }
    }

    /// The height at which body `b` rests on the floor plane: the largest
    /// half side length among its live shapes.
    pub open spec fn rest_half(self, b: int) -> int {
        self.rest_half_upto(b, self.geom_count())
    }

    /// Number of live shapes of body `b` among the first `n` shape slots.
    pub open spec fn live_geoms_of_upto(self, b: int, n: int) -> int
        decreases n,
    {
        if n <= 0 {
            0
        } else {
            self.live_geoms_of_upto(b, n - 1) + if self.geom(n - 1).alive && self.geom(n - 1).body
                == b {
                1int
            } else {
                0int
            }
        }
    }

    /// Number of live bodies among the first `n` body slots.
    pub open spec fn live_bodies_upto(self, n: int) -> int
        decreases n,
    {
        if n <= 0 {
            0
        } else {
            self.live_bodies_upto(n - 1) + if self.body(n - 1).alive {
                1int
            } else {
                0int
            }
        }
    }

    /// Number of live bodies.
    pub open spec fn live_body_count(self) -> int {
        self.live_bodies_upto(self.body_count())
    }

    /// Number of live shapes among the first `n` shape slots.
    pub open spec fn live_geoms_upto(self, n: int) -> int
        decreases n,
    {
        if n <= 0 {
            0
        } else {
            self.live_geoms_upto(n - 1) + if self.geom(n - 1).alive {
                1int
            } else {
                0int
            }
        }
    }

    /// Number of live shapes.
    pub open spec fn live_geom_count(self) -> int {
        self.live_geoms_upto(self.geom_count())
    }

    /// Number of destroyed bodies among the first `n` body slots.
    pub open spec fn destroyed_bodies_upto(self, n: int) -> int
        decreases n,
    {
        if n <= 0 {
            0
        } else {
            self.destroyed_bodies_upto(n - 1) + if self.body(n - 1).alive {
                0int
            } else {
                1int
            }
        }
    }

    /// Number of destroyed bodies.
    pub open spec fn destroyed_body_count(self) -> int {
        self.destroyed_bodies_upto(self.body_count())
    }

    /// Number of destroyed shapes among the first `n` shape slots.
    pub open spec fn destroyed_geoms_upto(self, n: int) -> int
        decreases n,
    {
        if n <= 0 {
            0
        } else {
            self.destroyed_geoms_upto(n - 1) + if self.geom(n - 1).alive {
                0int
            } else {
                1int
            }
        }
    }

    /// Number of destroyed shapes.
    pub open spec fn destroyed_geom_count(self) -> int {
        self.destroyed_geoms_upto(self.geom_count())
    }

    /// The destroy events appended when all live shapes of `b` among the
    /// first `n` slots are torn down in slot order.
    pub open spec fn destroy_events_upto(self, b: int, n: int) -> Seq<EngineEvent>
        decreases n,
    {
        if n <= 0 {
            Seq::empty()
        } else {
            self.destroy_events_upto(b, n - 1) + if self.geom(n - 1).alive && self.geom(
                n - 1,
            ).body == b {
                seq![EngineEvent::DestroyGeom { geom: (n - 1) as usize, body: b as usize }]
            } else {
                Seq::empty()
            }
        }
    }

    /// Create a world with the given gravity, no floor, no bodies.
    pub fn new(gravity: Vec3) -> (w: World)
        requires
            gravity.within(GRAV_LIMIT as int),
        ensures
            w.wf(),
            w.body_count() == 0,
            w.geom_count() == 0,
            w.log() == Seq::<EngineEvent>::empty(),
            w.gravity() == gravity,
            !w.floor_on(),
    {
        World {
            gravity,
            floor: false,
            bodies: Vec::new(),
            geoms: Vec::new(),
            log: Vec::new(),
        }
    }

    /// Add a static floor plane at height zero.
    pub fn add_floor(&mut self)
        requires
            old(self).wf(),
        ensures
            final(self).wf(),
            final(self).floor_on(),
            final(self).gravity() == old(self).gravity(),
            final(self).body_count() == old(self).body_count(),
            final(self).geom_count() == old(self).geom_count(),
            forall|b: int| old(self).valid_body(b) ==> final(self).body(b) == old(self).body(b),
            forall|g: int| old(self).valid_geom(g) ==> final(self).geom(g) == old(self).geom(g),
            final(self).log() == old(self).log(),
    {
        self.floor = true;
        proof {
            assert forall|b: int| self.valid_body(b) implies #[trigger] self.body_ok(b) by {
                assert(old(self).body_ok(b));
            }
            assert forall|g: int| self.valid_geom(g) implies #[trigger] self.geom_ok(g) by {
                assert(old(self).geom_ok(g));
            }
        }
    }

    /// Allocate a body with the given mass distribution at position
    /// `(x, y, z)`, at rest and unrotated.
    pub fn add_body(&mut self, m: Mass, x: i64, y: i64, z: i64) -> (b: Body)
        requires
            old(self).wf(),
            m.wf(),
            -POS_LIMIT <= x <= POS_LIMIT,
            -POS_LIMIT <= y <= POS_LIMIT,
            -POS_LIMIT <= z <= POS_LIMIT,
        ensures
            final(self).wf(),
            b.index() == old(self).body_count(),
            final(self).body_count() == old(self).body_count() + 1,
            final(self).body(b.index()) == (BodyModel {
                alive: true,
                destroyed_at: -1,
                pos: Vec3 { x, y, z },
                vel: Vec3 { x: 0, y: 0, z: 0 },
                quat: Quat { w: SCALE, x: 0, y: 0, z: 0 },
                mass: m.total(),
            }),
            forall|i: int| old(self).valid_body(i) ==> final(self).body(i) == old(self).body(i),
            final(self).geom_count() == old(self).geom_count(),
            forall|g: int| old(self).valid_geom(g) ==> final(self).geom(g) == old(self).geom(g),
            final(self).log() == old(self).log().push(
                EngineEvent::CreateBody { body: b.index() as usize },
            ),
            final(self).gravity() == old(self).gravity(),
            final(self).floor_on() == old(self).floor_on(),
    {
        let index = self.bodies.len();
        self.bodies.push(
            BodyRec {
                alive: true,
                destroyed_at: 0,
                pos: Vec3 { x, y, z },
                vel: Vec3 { x: 0, y: 0, z: 0 },
                quat: Quat { w: SCALE, x: 0, y: 0, z: 0 },
                mass: m.total,
            },
        );
        self.log.push(EngineEvent::CreateBody { body: index });
        proof {
            assert forall|b: int| self.valid_body(b) implies #[trigger] self.body_ok(b) by {
                if b < old(self).body_count() {
                    assert(old(self).body_ok(b));
                }
            }
            assert forall|g: int| self.valid_geom(g) implies #[trigger] self.geom_ok(g) by {
                assert(old(self).geom_ok(g));
            }
        }
        Body { index }
    }
}

impl Body {
    /// Create a cube collision shape of side `side_len` and attach it to
    /// this body, registering it in the world's collision space.
    pub fn add_cube(&self, w: &mut World, side_len: i64) -> (g: Geom)
        requires
            old(w).wf(),
            old(w).valid_body(self.index()),
            old(w).body(self.index()).alive,
            0 < side_len <= SIDE_LIMIT,
        ensures
            final(w).wf(),
            g.index() == old(w).geom_count(),
            final(w).geom_count() == old(w).geom_count() + 1,
            final(w).geom(g.index()) == (GeomModel {
                alive: true,
                destroyed_at: -1,
                body: self.index(),
                side: side_len as int,
            }),
            forall|i: int| old(w).valid_geom(i) ==> final(w).geom(i) == old(w).geom(i),
            final(w).body_count() == old(w).body_count(),
            forall|b: int| old(w).valid_body(b) ==> final(w).body(b) == old(w).body(b),
            final(w).log() == old(w).log().push(
                EngineEvent::CreateGeom { geom: g.index() as usize, body: self.index() as usize },
            ),
            final(w).gravity() == old(w).gravity(),
            final(w).floor_on() == old(w).floor_on(),
    {
        let index = w.geoms.len();
        w.geoms.push(
            GeomRec { alive: true, destroyed_at: 0, body: self.index, side: side_len },
        );
        w.log.push(EngineEvent::CreateGeom { geom: index, body: self.index });
        proof {
            assert forall|b: int| w.valid_body(b) implies #[trigger] w.body_ok(b) by {
                assert(old(w).body_ok(b));
            }
            assert forall|g2: int| w.valid_geom(g2) implies #[trigger] w.geom_ok(g2) by {
                if g2 < old(w).geom_count() {
                    assert(old(w).geom_ok(g2));
                }
            }
        }
        Geom { index }
    }

    /// Move the body to `(x, y, z)` without touching its velocity or
    /// orientation.
    pub fn set_pos(&self, w: &mut World, x: i64, y: i64, z: i64)
        requires
            old(w).wf(),
            old(w).valid_body(self.index()),
            old(w).body(self.index()).alive,
            -POS_LIMIT <= x <= POS_LIMIT,
            -POS_LIMIT <= y <= POS_LIMIT,
            -POS_LIMIT <= z <= POS_LIMIT,
        ensures
            final(w).wf(),
            final(w).body(self.index()) == (BodyModel {
                pos: Vec3 { x, y, z },
                ..old(w).body(self.index())
            }),
            final(w).body_count() == old(w).body_count(),
            forall|b: int|
                old(w).valid_body(b) && b != self.index() ==> final(w).body(b) == old(w).body(b),
            final(w).geom_count() == old(w).geom_count(),
            forall|g: int| old(w).valid_geom(g) ==> final(w).geom(g) == old(w).geom(g),
            final(w).log() == old(w).log(),
            final(w).gravity() == old(w).gravity(),
            final(w).floor_on() == old(w).floor_on(),
    {
        let rec = w.bodies[self.index];
        w.bodies[self.index] = BodyRec { pos: Vec3 { x, y, z }, ..rec };
        proof {
            assert forall|b: int| w.valid_body(b) implies #[trigger] w.body_ok(b) by {
                assert(old(w).body_ok(b));
            }
            assert forall|g: int| w.valid_geom(g) implies #[trigger] w.geom_ok(g) by {
                assert(old(w).geom_ok(g));
            }
        }
    }

    /// Read back the body's position, valid until the next step.
    pub fn get_pos(&self, w: &World) -> (r: (i64, i64, i64))
        requires
            w.wf(),
            w.valid_body(self.index()),
            w.body(self.index()).alive,
        ensures
            r.0 == w.body(self.index()).pos.x,
            r.1 == w.body(self.index()).pos.y,
            r.2 == w.body(self.index()).pos.z,
    {
        let rec = w.bodies[self.index];
        (rec.pos.x, rec.pos.y, rec.pos.z)
    }

    /// Read back the body's orientation as `(w, x, y, z)`, `SCALE` standing
    /// for 1.0.
    pub fn get_quat(&self, w: &World) -> (r: (i64, i64, i64, i64))
        requires
            w.wf(),
            w.valid_body(self.index()),
            w.body(self.index()).alive,
        ensures
            r.0 == w.body(self.index()).quat.w,
            r.1 == w.body(self.index()).quat.x,
            r.2 == w.body(self.index()).quat.y,
            r.3 == w.body(self.index()).quat.z,
    {
        let rec = w.bodies[self.index];
        (rec.quat.w, rec.quat.x, rec.quat.y, rec.quat.z)
    }
}

/// One velocity component after a step: gravity applied over `dt`
/// microseconds, saturated at the representable range.
pub open spec fn vel_step(v: int, g: int, dt: int) -> int {
    clamp_spec(v + scale_down(g * dt), -(VEL_LIMIT as int), VEL_LIMIT as int)
}

/// One position component after a step: the updated velocity applied over
/// `dt` microseconds, saturated at the representable range.
pub open spec fn pos_step(p: int, v1: int, dt: int) -> int {
    clamp_spec(p + scale_down(v1 * dt), -(POS_LIMIT as int), POS_LIMIT as int)
}

/// A body's state after one step of size `dt`. `resting` says whether the
/// body can touch the floor plane (the world has one and the body has a live
/// shape); `half` is its rest height. When its new height would sink below
/// `half`, the body is set on the floor and its fall stopped.
pub open spec fn stepped_body(m: BodyModel, g: Vec3, dt: int, resting: bool, half: int) -> BodyModel {
    let v1x = vel_step(m.vel.x as int, g.x as int, dt);
    let v1y = vel_step(m.vel.y as int, g.y as int, dt);
    let v1z = vel_step(m.vel.z as int, g.z as int, dt);
    let p1x = pos_step(m.pos.x as int, v1x, dt);
    let p1y = pos_step(m.pos.y as int, v1y, dt);
    let p1z = pos_step(m.pos.z as int, v1z, dt);
    if resting && p1y < half {
        BodyModel {
            pos: Vec3 { x: p1x as i64, y: half as i64, z: p1z as i64 },
            vel: Vec3 { x: v1x as i64, y: 0, z: v1z as i64 },
            ..m
        }
    } else {
        BodyModel {
            pos: Vec3 { x: p1x as i64, y: p1y as i64, z: p1z as i64 },
            vel: Vec3 { x: v1x as i64, y: v1y as i64, z: v1z as i64 },
            ..m
        }
    }
}

/// Contact queries depend only on the shapes: two worlds with the same
/// shapes agree on them, whatever their bodies do.
pub proof fn lemma_contact_depends_on_geoms(w1: World, w2: World, b: int, n: int)
    requires
        w1.geom_count() == w2.geom_count(),
        forall|g: int| w1.valid_geom(g) ==> #[trigger] w1.geom(g) == w2.geom(g),
        n <= w1.geom_count(),
    ensures
        w1.has_live_geom_upto(b, n) == w2.has_live_geom_upto(b, n),
        w1.rest_half_upto(b, n) == w2.rest_half_upto(b, n),
    decreases n,
{
    if n > 0 {
        lemma_contact_depends_on_geoms(w1, w2, b, n - 1);
        assert(w1.geom(n - 1) == w2.geom(n - 1));
    }
}

/// The rest height is nonnegative and bounded by half the largest
/// representable shape side.
pub proof fn lemma_rest_half_bound(w: World, b: int, n: int)
    requires
        forall|g: int| w.valid_geom(g) ==> 0 < #[trigger] w.geom(g).side <= SIDE_LIMIT as int,
        n <= w.geom_count(),
    ensures
        0 <= w.rest_half_upto(b, n) <= SIDE_LIMIT / 2,
    decreases n,
{
    if n > 0 {
        lemma_rest_half_bound(w, b, n - 1);
    }
}

impl World {
    /// Whether `b` has a live shape, and its rest height, read from the
    /// collision space.
    fn rest_info(&self, b: usize) -> (r: (bool, i64))
        requires
            forall|g: int|
                self.valid_geom(g) ==> 0 < #[trigger] self.geom(g).side <= SIDE_LIMIT as int,
        ensures
            r.0 == self.has_live_geom(b as int),
            r.1 == self.rest_half(b as int),
            0 <= r.1 <= SIDE_LIMIT / 2,
    {
        let mut has: bool = false;
        let mut half: i64 = 0;
        let mut g: usize = 0;
        let n = self.geoms.len();
        while g < n
            invariant
                g <= n,
                n == self.geom_count(),
                forall|j: int|
                    self.valid_geom(j) ==> 0 < #[trigger] self.geom(j).side <= SIDE_LIMIT as int,
                has == self.has_live_geom_upto(b as int, g as int),
                half == self.rest_half_upto(b as int, g as int),
                0 <= half <= SIDE_LIMIT / 2,
            decreases n - g,
        {
            let rec = self.geoms[g];
            if rec.alive && rec.body == b {
                has = true;
                let h = ((rec.side as u64) / 2) as i64;
                proof {
                    assert(self.geom(g as int).side == rec.side as int);
                    assert(h as int == (rec.side as int) / 2);
                }
                if h > half {
                    half = h;
                }
            }
            g += 1;
        }
        (has, half)
    }

    /// Advance the simulation by `step_size` microseconds: apply gravity to
    /// every live body, integrate positions, and rest bodies on the floor
    /// plane where their shapes reach it. `quick` selects the engine's fast
    /// approximate solver; both solvers agree on this model's dynamics, so
    /// it does not change the result. Transient contacts live only inside
    /// this call: the contact group is cleared before it returns.
    pub fn step(&mut self, step_size: i64, quick: bool)
        requires
            old(self).wf(),
            0 < step_size <= DT_LIMIT,
        ensures
            final(self).wf(),
            final(self).body_count() == old(self).body_count(),
            final(self).geom_count() == old(self).geom_count(),
            forall|g: int| old(self).valid_geom(g) ==> final(self).geom(g) == old(self).geom(g),
            final(self).log() == old(self).log(),
            final(self).gravity() == old(self).gravity(),
            final(self).floor_on() == old(self).floor_on(),
            forall|b: int|
                old(self).valid_body(b) ==> final(self).body(b) == (if old(self).body(b).alive {
                    stepped_body(
                        old(self).body(b),
                        old(self).gravity(),
                        step_size as int,
                        old(self).floor_on() && old(self).has_live_geom(b),
                        old(self).rest_half(b),
                    )
                } else {
                    old(self).body(b)
                }),
    {
        let _ = quick;
        let n = self.bodies.len();
        let mut i: usize = 0;
        while i < n
            invariant
                i <= n,
                n == self.body_count(),
                old(self).wf(),
                0 < step_size <= DT_LIMIT,
                self.body_count() == old(self).body_count(),
                self.geom_count() == old(self).geom_count(),
                forall|g: int|
                    old(self).valid_geom(g) ==> #[trigger] self.geom(g) == old(self).geom(g),
                self.log() == old(self).log(),
                self.gravity() == old(self).gravity(),
                self.floor_on() == old(self).floor_on(),
                forall|b: int|
                    0 <= b < i ==> #[trigger] self.body(b) == (if old(self).body(b).alive {
                        stepped_body(
                            old(self).body(b),
                            old(self).gravity(),
                            step_size as int,
                            old(self).floor_on() && old(self).has_live_geom(b),
                            old(self).rest_half(b),
                        )
                    } else {
                        old(self).body(b)
                    }),
                forall|b: int| i <= b < n ==> #[trigger] self.body(b) == old(self).body(b),
            decreases n - i,
        {
            let ghost pre = *self;
            let rec = self.bodies[i];
            proof {
                assert(old(self).body_ok(i as int));
            }
            if rec.alive {
                proof {
                    assert forall|g: int|
                        self.valid_geom(g) implies 0 < #[trigger] self.geom(g).side
                        <= SIDE_LIMIT as int by {
                        assert(old(self).geom_ok(g));
                    }
                }
                let (has_geom, half) = self.rest_info(i);
                proof {
                    assert(self.body(i as int) == old(self).body(i as int));
                    assert(old(self).body(i as int).vel.within(VEL_LIMIT as int));
                    assert(old(self).body(i as int).pos.within(POS_LIMIT as int));
                    assert(rec.vel == old(self).body(i as int).vel);
                    assert(rec.pos == old(self).body(i as int).pos);
                    lemma_contact_depends_on_geoms(*self, *old(self), i as int, self.geom_count());
                    crate::math::lemma_mul_abs_bound(
                        self.gravity.x as int,
                        step_size as int,
                        GRAV_LIMIT as int,
                        DT_LIMIT as int,
                    );
                    crate::math::lemma_mul_abs_bound(
                        self.gravity.y as int,
                        step_size as int,
                        GRAV_LIMIT as int,
                        DT_LIMIT as int,
                    );
                    crate::math::lemma_mul_abs_bound(
                        self.gravity.z as int,
                        step_size as int,
                        GRAV_LIMIT as int,
                        DT_LIMIT as int,
                    );
                    crate::math::lemma_scale_down_bound(
                        self.gravity.x as int * step_size as int,
                        GRAV_LIMIT as int * DT_LIMIT as int,
                    );
                    crate::math::lemma_scale_down_bound(
                        self.gravity.y as int * step_size as int,
                        GRAV_LIMIT as int * DT_LIMIT as int,
                    );
                    crate::math::lemma_scale_down_bound(
                        self.gravity.z as int * step_size as int,
                        GRAV_LIMIT as int * DT_LIMIT as int,
                    );
                }
                let dvx = mul_scale_down(self.gravity.x, step_size);
                let dvy = mul_scale_down(self.gravity.y, step_size);
                let dvz = mul_scale_down(self.gravity.z, step_size);
                let v1x = clamp_i64(rec.vel.x + dvx, -VEL_LIMIT, VEL_LIMIT);
                let v1y = clamp_i64(rec.vel.y + dvy, -VEL_LIMIT, VEL_LIMIT);
                let v1z = clamp_i64(rec.vel.z + dvz, -VEL_LIMIT, VEL_LIMIT);
                proof {
                    crate::math::lemma_mul_abs_bound(
                        v1x as int,
                        step_size as int,
                        VEL_LIMIT as int,
                        DT_LIMIT as int,
                    );
                    crate::math::lemma_mul_abs_bound(
                        v1y as int,
                        step_size as int,
                        VEL_LIMIT as int,
                        DT_LIMIT as int,
                    );
                    crate::math::lemma_mul_abs_bound(
                        v1z as int,
                        step_size as int,
                        VEL_LIMIT as int,
                        DT_LIMIT as int,
                    );
                    crate::math::lemma_scale_down_bound(
                        v1x as int * step_size as int,
                        VEL_LIMIT as int * DT_LIMIT as int,
                    );
                    crate::math::lemma_scale_down_bound(
                        v1y as int * step_size as int,
                        VEL_LIMIT as int * DT_LIMIT as int,
                    );
                    crate::math::lemma_scale_down_bound(
                        v1z as int * step_size as int,
                        VEL_LIMIT as int * DT_LIMIT as int,
                    );
                }
                let dpx = mul_scale_down(v1x, step_size);
                let dpy = mul_scale_down(v1y, step_size);
                let dpz = mul_scale_down(v1z, step_size);
                let p1x = clamp_i64(rec.pos.x + dpx, -POS_LIMIT, POS_LIMIT);
                let p1y = clamp_i64(rec.pos.y + dpy, -POS_LIMIT, POS_LIMIT);
                let p1z = clamp_i64(rec.pos.z + dpz, -POS_LIMIT, POS_LIMIT);
                let mut new_pos = Vec3 { x: p1x, y: p1y, z: p1z };
                let mut new_vel = Vec3 { x: v1x, y: v1y, z: v1z };
                if self.floor && has_geom && p1y < half {
                    new_pos.y = half;
                    new_vel.y = 0;
                }
                self.bodies[i] = BodyRec { pos: new_pos, vel: new_vel, ..rec };
                proof {
                    assert(self.body(i as int) == stepped_body(
                        old(self).body(i as int),
                        old(self).gravity(),
                        step_size as int,
                        old(self).floor_on() && old(self).has_live_geom(i as int),
                        old(self).rest_half(i as int),
                    ));
                }
            }
            proof {
                assert forall|g: int|
                    old(self).valid_geom(g) implies #[trigger] self.geom(g) == old(self).geom(
                    g,
                ) by {
                    assert(self.geoms@ == pre.geoms@);
                    assert(pre.geom(g) == old(self).geom(g));
                }
                assert forall|b: int|
                    0 <= b < i + 1 implies #[trigger] self.body(b) == (if old(self).body(
                    b,
                ).alive {
                    stepped_body(
                        old(self).body(b),
                        old(self).gravity(),
                        step_size as int,
                        old(self).floor_on() && old(self).has_live_geom(b),
                        old(self).rest_half(b),
                    )
                } else {
                    old(self).body(b)
                }) by {
                    if b < i as int {
                        assert(self.bodies@[b] == pre.bodies@[b]);
                        assert(self.body(b) == pre.body(b));
                    } else if !rec.alive {
                        assert(self.body(b) == pre.body(b));
                        assert(pre.body(b) == old(self).body(b));
                    }
                }
                assert forall|b: int|
                    i + 1 <= b < n implies #[trigger] self.body(b) == old(self).body(b) by {
                    assert(self.bodies@[b] == pre.bodies@[b]);
                    assert(self.body(b) == pre.body(b));
                }
            }
            i += 1;
        }
        proof {
            assert forall|b: int| self.valid_body(b) implies #[trigger] self.body_ok(b) by {
                assert(old(self).body_ok(b));
                if old(self).body(b).alive {
                    assert forall|g: int|
                        old(self).valid_geom(g) implies 0 < #[trigger] old(self).geom(g).side
                        <= SIDE_LIMIT as int by {
                        assert(old(self).geom_ok(g));
                    }
                    lemma_rest_half_bound(*old(self), b, old(self).geom_count());
                }
            }
            assert forall|g: int| self.valid_geom(g) implies #[trigger] self.geom_ok(g) by {
                assert(old(self).geom_ok(g));
            }
        }
    }

    /// Remove shape `g` from the collision space and free it.
    pub fn destroy_geom(&mut self, g: Geom)
        requires
            old(self).wf(),
            old(self).valid_geom(g.index()),
            old(self).geom(g.index()).alive,
        ensures
            final(self).wf(),
            final(self).geom_count() == old(self).geom_count(),
            final(self).geom(g.index()) == (GeomModel {
                alive: false,
                destroyed_at: old(self).log().len() as int,
                ..old(self).geom(g.index())
            }),
            forall|i: int|
                old(self).valid_geom(i) && i != g.index() ==> final(self).geom(i) == old(
                    self,
                ).geom(i),
            final(self).body_count() == old(self).body_count(),
            forall|b: int| old(self).valid_body(b) ==> final(self).body(b) == old(self).body(b),
            final(self).log() == old(self).log().push(
                EngineEvent::DestroyGeom {
                    geom: g.index() as usize,
                    body: old(self).geom(g.index()).body as usize,
                },
            ),
            final(self).gravity() == old(self).gravity(),
            final(self).floor_on() == old(self).floor_on(),
    {
        let rec = self.geoms[g.index];
        let at = self.log.len();
        self.geoms[g.index] = GeomRec { alive: false, destroyed_at: at, ..rec };
        self.log.push(EngineEvent::DestroyGeom { geom: g.index, body: rec.body });
        proof {
            assert(old(self).geom_ok(g.index()));
            assert forall|b: int| self.valid_body(b) implies #[trigger] self.body_ok(b) by {
                assert(old(self).body_ok(b));
            }
            assert forall|g2: int| self.valid_geom(g2) implies #[trigger] self.geom_ok(g2) by {
                assert(old(self).geom_ok(g2));
                if g2 != g.index() {
                    assert(self.geom(g2) == old(self).geom(g2));
                    assert(old(self).geom(g2).body == self.geom(g2).body);
                    assert(self.body(self.geom(g2).body) == old(self).body(old(self).geom(
                        g2,
                    ).body));
                }
            }
        }
    }

    /// Free body `b`. Its shapes must already be gone: the engine's
    /// ordering rule, shapes before body, is a precondition here.
    pub fn destroy_body(&mut self, b: Body)
        requires
            old(self).wf(),
            old(self).valid_body(b.index()),
            old(self).body(b.index()).alive,
            !old(self).has_live_geom(b.index()),
        ensures
            final(self).wf(),
            final(self).body_count() == old(self).body_count(),
            final(self).body(b.index()) == (BodyModel {
                alive: false,
                destroyed_at: old(self).log().len() as int,
                ..old(self).body(b.index())
            }),
            forall|i: int|
                old(self).valid_body(i) && i != b.index() ==> final(self).body(i) == old(
                    self,
                ).body(i),
            final(self).geom_count() == old(self).geom_count(),
            forall|g: int| old(self).valid_geom(g) ==> final(self).geom(g) == old(self).geom(g),
            final(self).log() == old(self).log().push(
                EngineEvent::DestroyBody { body: b.index() as usize },
            ),
            final(self).gravity() == old(self).gravity(),
            final(self).floor_on() == old(self).floor_on(),
    {
        let rec = self.bodies[b.index];
        let at = self.log.len();
        self.bodies[b.index] = BodyRec { alive: false, destroyed_at: at, ..rec };
        self.log.push(EngineEvent::DestroyBody { body: b.index });
        proof {
            assert(old(self).body_ok(b.index()));
            assert forall|i: int| self.valid_body(i) implies #[trigger] self.body_ok(i) by {
                assert(old(self).body_ok(i));
            }
            assert forall|g: int| self.valid_geom(g) implies #[trigger] self.geom_ok(g) by {
                assert(old(self).geom_ok(g));
                if old(self).geom(g).body == b.index() {
                    if old(self).geom(g).alive {
                        lemma_live_geom_found(*old(self), b.index(), g, old(self).geom_count());
                    }
                }
            }
        }
    }

    /// Destroy every live shape of body `b`, in slot order. This is the
    /// teardown step that must run before `b` itself can be destroyed.
    pub fn destroy_geoms_of(&mut self, b: Body)
        requires
            old(self).wf(),
            old(self).valid_body(b.index()),
        ensures
            final(self).wf(),
            final(self).geom_count() == old(self).geom_count(),
            forall|g: int|
                old(self).valid_geom(g) ==> final(self).geom(g) == (if old(self).geom(g).alive
                    && old(self).geom(g).body == b.index() {
                    GeomModel {
                        alive: false,
                        destroyed_at: old(self).log().len() + old(self).live_geoms_of_upto(
                            b.index(),
                            g,
                        ),
                        ..old(self).geom(g)
                    }
                } else {
                    old(self).geom(g)
                }),
            final(self).body_count() == old(self).body_count(),
            forall|i: int| old(self).valid_body(i) ==> final(self).body(i) == old(self).body(i),
            final(self).log() == old(self).log() + old(self).destroy_events_upto(
                b.index(),
                old(self).geom_count(),
            ),
            !final(self).has_live_geom(b.index()),
            final(self).gravity() == old(self).gravity(),
            final(self).floor_on() == old(self).floor_on(),
    {
        let n = self.geoms.len();
        let mut g: usize = 0;
        proof {
            assert(self.log() =~= old(self).log() + old(self).destroy_events_upto(b.index(), 0));
        }
        while g < n
            invariant
                g <= n,
                n == self.geom_count(),
                n == old(self).geom_count(),
                old(self).valid_body(b.index()),
                self.wf(),
                old(self).wf(),
                self.body_count() == old(self).body_count(),
                forall|i: int|
                    old(self).valid_body(i) ==> #[trigger] self.body(i) == old(self).body(i),
                self.log() == old(self).log() + old(self).destroy_events_upto(
                    b.index(),
                    g as int,
                ),
                self.log().len() == old(self).log().len() + old(self).live_geoms_of_upto(
                    b.index(),
                    g as int,
                ),
                forall|j: int|
                    0 <= j < g ==> #[trigger] self.geom(j) == (if old(self).geom(j).alive && old(
                        self,
                    ).geom(j).body == b.index() {
                        GeomModel {
                            alive: false,
                            destroyed_at: old(self).log().len() + old(self).live_geoms_of_upto(
                                b.index(),
                                j,
                            ),
                            ..old(self).geom(j)
                        }
                    } else {
                        old(self).geom(j)
                    }),
                forall|j: int| g <= j < n ==> #[trigger] self.geom(j) == old(self).geom(j),
                self.gravity() == old(self).gravity(),
                self.floor_on() == old(self).floor_on(),
            decreases n - g,
        {
            let ghost pre = *self;
            let rec = self.geoms[g];
            if rec.alive && rec.body == b.index {
                proof {
                    assert(self.geom(g as int) == old(self).geom(g as int));
                }
                self.destroy_geom(Geom { index: g });
                proof {
                    assert(self.log() =~= old(self).log() + old(self).destroy_events_upto(
                        b.index(),
                        g + 1,
                    ));
                    assert forall|j: int|
                        g + 1 <= j < n implies #[trigger] self.geom(j) == old(self).geom(j) by {
                        assert(self.geom(j) == pre.geom(j));
                    }
                }
            } else {
                proof {
                    assert(self.geom(g as int) == old(self).geom(g as int));
                    assert(self.log() =~= old(self).log() + old(self).destroy_events_upto(
                        b.index(),
                        g + 1,
                    ));
                }
            }
            g += 1;
        }
        proof {
            assert forall|j: int|
                0 <= j < n implies !((#[trigger] self.geom(j)).alive && self.geom(j).body
                == b.index()) by {}
            lemma_no_live_geom(*self, b.index(), n as int);
        }
    }

    /// Tear the world down. All bodies must already be destroyed: the
    /// world's destruction is legal only after its contents are gone. Hands
    /// back the audit log.
    pub fn destroy(self) -> (log: Vec<EngineEvent>)
        requires
            self.wf(),
            forall|b: int| self.valid_body(b) ==> !(#[trigger] self.body(b)).alive,
        ensures
            log@ == self.log(),
    {
        self.log
    }

    /// Number of bodies ever created.
    pub fn num_bodies(&self) -> (n: usize)
        ensures
            n == self.body_count(),
    {
        self.bodies.len()
    }

    /// Number of bodies still live.
    pub fn num_live_bodies(&self) -> (n: usize)
        ensures
            n == self.live_body_count(),
    {
        let mut c: usize = 0;
        let mut i: usize = 0;
        let len = self.bodies.len();
        while i < len
            invariant
                i <= len,
                len == self.body_count(),
                c == self.live_bodies_upto(i as int),
                c <= i,
            decreases len - i,
        {
            if self.bodies[i].alive {
                c += 1;
            }
            i += 1;
        }
        c
    }

    /// Number of shapes ever created.
    pub fn num_geoms(&self) -> (n: usize)
        ensures
            n == self.geom_count(),
    {
        self.geoms.len()
    }

    /// Number of shapes still live.
    pub fn num_live_geoms(&self) -> (n: usize)
        ensures
            n == self.live_geom_count(),
    {
        let mut c: usize = 0;
        let mut i: usize = 0;
        let len = self.geoms.len();
        while i < len
            invariant
                i <= len,
                len == self.geom_count(),
                c == self.live_geoms_upto(i as int),
                c <= i,
            decreases len - i,
        {
            if self.geoms[i].alive {
                c += 1;
            }
            i += 1;
        }
        c
    }

    /// Number of bodies destroyed so far.
    pub fn num_destroyed_bodies(&self) -> (n: usize)
        ensures
            n == self.destroyed_body_count(),
    {
        let mut c: usize = 0;
        let mut i: usize = 0;
        let len = self.bodies.len();
        while i < len
            invariant
                i <= len,
                len == self.body_count(),
                c == self.destroyed_bodies_upto(i as int),
                c <= i,
            decreases len - i,
        {
            if !self.bodies[i].alive {
                c += 1;
            }
            i += 1;
        }
        c
    }

    /// Number of shapes destroyed so far.
    pub fn num_destroyed_geoms(&self) -> (n: usize)
        ensures
            n == self.destroyed_geom_count(),
    {
        let mut c: usize = 0;
        let mut i: usize = 0;
        let len = self.geoms.len();
        while i < len
            invariant
                i <= len,
                len == self.geom_count(),
                c == self.destroyed_geoms_upto(i as int),
                c <= i,
            decreases len - i,
        {
            if !self.geoms[i].alive {
                c += 1;
            }
            i += 1;
        }
        c
    }

    /// The audit log of create and destroy calls, oldest first.
    pub fn events(&self) -> (log: &Vec<EngineEvent>)
        ensures
            log@ == self.log(),
    {
        &self.log
    }
}

/// Body slots are counted by a vector, so the count is never negative.
pub broadcast proof fn lemma_body_count_nonneg(w: World)
    ensures
        #[trigger] w.body_count() >= 0,
{
}

/// Shape slots are counted by a vector, so the count is never negative.
pub broadcast proof fn lemma_geom_count_nonneg(w: World)
    ensures
        #[trigger] w.geom_count() >= 0,
{
}

/// With no live shape of `b` below slot `n`, `has_live_geom_upto` is false.
pub proof fn lemma_no_live_geom(w: World, b: int, n: int)
    requires
        forall|g: int| 0 <= g < n ==> !((#[trigger] w.geom(g)).alive && w.geom(g).body == b),
    ensures
        !w.has_live_geom_upto(b, n),
    decreases n,
{
    if n > 0 {
        lemma_no_live_geom(w, b, n - 1);
    }
}

/// A live shape of `b` below slot `n` makes `has_live_geom_upto` true.
pub proof fn lemma_live_geom_found(w: World, b: int, g: int, n: int)
    requires
        0 <= g < n,
        w.geom(g).alive,
        w.geom(g).body == b,
    ensures
        w.has_live_geom_upto(b, n),
    decreases n,
{
    if g < n - 1 {
        lemma_live_geom_found(w, b, g, n - 1);
    }
}

/// Every slot is live or destroyed: the handles ever created balance
/// exactly against the destroyed ones plus the live ones, for bodies and
/// shapes alike — nothing leaks and nothing is counted freed twice.
pub proof fn lemma_handle_balance(w: World)
    ensures
        w.live_body_count() + w.destroyed_body_count() == w.body_count(),
        w.live_geom_count() + w.destroyed_geom_count() == w.geom_count(),
        0 <= w.live_body_count() <= w.body_count(),
        0 <= w.live_geom_count() <= w.geom_count(),
{
    lemma_body_partition_upto(w, w.body_count());
    lemma_geom_partition_upto(w, w.geom_count());
}

proof fn lemma_body_partition_upto(w: World, n: int)
    ensures
        w.live_bodies_upto(n) + w.destroyed_bodies_upto(n) == if n >= 0 {
            n
        } else {
            0
        },
        0 <= w.live_bodies_upto(n),
        0 <= w.destroyed_bodies_upto(n),
    decreases n,
{
    if n > 0 {
        lemma_body_partition_upto(w, n - 1);
    }
}

proof fn lemma_geom_partition_upto(w: World, n: int)
    ensures
        w.live_geoms_upto(n) + w.destroyed_geoms_upto(n) == if n >= 0 {
            n
        } else {
            0
        },
        0 <= w.live_geoms_upto(n),
        0 <= w.destroyed_geoms_upto(n),
    decreases n,
{
    if n > 0 {
        lemma_geom_partition_upto(w, n - 1);
    }
}

/// Pose round trip: what a position write leaves in the body's state is
/// exactly what a position read then returns — no step in between, no
/// drift.
pub proof fn lemma_pose_round_trip(before: World, after: World, b: int, x: i64, y: i64, z: i64)
    requires
        after.body(b) == (BodyModel { pos: Vec3 { x, y, z }, ..before.body(b) }),
    ensures
        after.body(b).pos.x == x,
        after.body(b).pos.y == y,
        after.body(b).pos.z == z,
{
}

/// Under zero gravity, a body at rest and clear of the floor keeps its
/// pose across a step.
pub proof fn lemma_zero_gravity_step_fixes_pose(w: World, b: int, dt: int)
    requires
        w.wf(),
        w.valid_body(b),
        w.body(b).alive,
        w.gravity() == (Vec3 { x: 0, y: 0, z: 0 }),
        w.body(b).vel == (Vec3 { x: 0, y: 0, z: 0 }),
        !(w.floor_on() && w.has_live_geom(b) && w.body(b).pos.y < w.rest_half(b)),
    ensures
        stepped_body(
            w.body(b),
            w.gravity(),
            dt,
            w.floor_on() && w.has_live_geom(b),
            w.rest_half(b),
        ) == w.body(b),
{
    assert(w.body_ok(b));
    lemma_still_body_stays(
        w.body(b),
        w.gravity(),
        dt,
        w.floor_on() && w.has_live_geom(b),
        w.rest_half(b),
    );
}

/// The ordering invariant, read off the audit log: once a body is destroyed,
/// each of its shapes has a `DestroyGeom` entry strictly before the body's
/// `DestroyBody` entry.
pub proof fn lemma_shape_destroyed_before_body(w: World, g: int)
    requires
        w.wf(),
        w.valid_geom(g),
        !w.body(w.geom(g).body).alive,
    ensures
        !w.geom(g).alive,
        0 <= w.geom(g).destroyed_at < w.body(w.geom(g).body).destroyed_at < w.log().len(),
        w.log()[w.geom(g).destroyed_at] == (EngineEvent::DestroyGeom {
            geom: g as usize,
            body: w.geom(g).body as usize,
        }),
        w.log()[w.body(w.geom(g).body).destroyed_at] == (EngineEvent::DestroyBody {
            body: w.geom(g).body as usize,
        }),
{
    assert(w.geom_ok(g));
    assert(w.body_ok(w.geom(g).body));
}

/// A still body under zero gravity does not move in a step: stepping is the
/// identity on a body at rest, clear of the floor rule.
pub proof fn lemma_still_body_stays(m: BodyModel, g: Vec3, dt: int, resting: bool, half: int)
    requires
        g == (Vec3 { x: 0, y: 0, z: 0 }),
        m.vel == (Vec3 { x: 0, y: 0, z: 0 }),
        m.pos.within(POS_LIMIT as int),
        !(resting && m.pos.y < half),
    ensures
        stepped_body(m, g, dt, resting, half) == m,
{
    assert(scale_down(0) == 0);
}

} // verus!
