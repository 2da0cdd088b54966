//! The object lifecycle bridge: keeps the physics world's bodies and shapes
//! consistent with a scene of entities that appear and disappear.
//!
//! Entities are named by a stable identifier made of a slot index and a
//! reuse generation. The bridge owns one binding per live identifier: the
//! physics body created for it. A binding is created when an entity newly
//! carries a [`Body`] marker, a collision shape is attached when a collider
//! entity's parent is bound (and deferred to a later tick when it is not
//! bound yet), and on removal the body's shapes are destroyed first, then
//! the body, then the binding is erased. Lookups with a stale identifier —
//! same slot, older generation — never resolve to a body.

use vstd::prelude::*;

use crate::engine::{self, EngineEvent, GeomModel, Mass, World};
use crate::math::{Quat, Vec3, DT_LIMIT, POS_LIMIT, SCALE, SIDE_LIMIT};

verus! {

broadcast use crate::engine::lemma_body_count_nonneg, crate::engine::lemma_geom_count_nonneg;

/// A scene entity's stable identifier: a slot index plus the generation
/// count that disambiguates reuses of the slot.
#[derive(Clone, Copy, Debug, PartialEq, Eq, Structural)]
pub struct EntityId {
    pub slot: u32,
    pub generation: u32,
}

/// The "physical body" marker carried by an entity that wants a rigid body:
/// its total mass in micro-mass-units.
#[derive(Clone, Copy, Debug, PartialEq, Eq, Structural)]
pub struct Body {
    pub mass: i64,
}

/// The "collider" marker carried by a child entity: the side length of the
/// cube shape to attach to its parent's body, in micro-units.
#[derive(Clone, Copy, Debug, PartialEq, Eq, Structural)]
pub struct Collider {
    pub side_len: i64,
}

/// Why a bind request was rejected.
#[derive(Clone, Copy, Debug, PartialEq, Eq, Structural)]
pub enum BindError {
    /// The slot already holds a binding: at most one binding may exist per
    /// slot, and a stale one must be removed, never silently replaced.
    SlotOccupied,
}

/// The outcome of a shape-attach request.
#[derive(Clone, Copy, Debug, PartialEq, Eq, Structural)]
pub enum AttachOutcome {
    /// The parent was bound; the shape was attached to its body.
    Attached(engine::Geom),
    /// The parent is not bound yet; the request was queued and will be
    /// retried on the next tick.
    Deferred,
}

/// A queued shape-attach request, waiting for its parent to be bound.
pub ghost struct AttachRequest {
    pub parent: EntityId,
    pub side: int,
}

#[derive(Clone, Copy)]
struct Binding {
    generation: u32,
    body: engine::Body,
}

#[derive(Clone, Copy)]
struct PendingRec {
    parent: EntityId,
    side: i64,
}

/// The lifecycle bridge: one simulation world, the entity bindings keyed by
/// slot, and the deferred shape-attach queue.
pub struct Bridge {
    world: World,
    step_size: i64,
    bindings: Vec<Option<Binding>>,
    pending: Vec<PendingRec>,
}

spec fn req_of(rec: PendingRec) -> AttachRequest {
    AttachRequest { parent: rec.parent, side: rec.side as int }
}

impl Bridge {
    /// The simulation world the bridge drives.
    pub closed spec fn sim(self) -> World {
        self.world
    }

    /// The fixed step size, in microseconds.
    pub closed spec fn step_size(self) -> int {
        self.step_size as int
    }

    /// Number of binding slots the bridge has seen.
    pub closed spec fn slot_count(self) -> int {
        self.bindings@.len() as int
    }

    /// Whether slot `s` currently holds a binding.
    pub closed spec fn slot_bound(self, s: int) -> bool {
        self.bindings@[s] is Some
    }

    /// The generation the binding in slot `s` was made for.
    pub closed spec fn slot_generation(self, s: int) -> int {
        match self.bindings@[s] {
            Some(b) => b.generation as int,
            None => -1,
        }
    }

    /// The body handle owned by the binding in slot `s`.
    pub closed spec fn slot_body(self, s: int) -> engine::Body {
        match self.bindings@[s] {
            Some(b) => b.body,
            None => vstd::pervasive::arbitrary(),
        }
    }

    /// Number of deferred shape-attach requests.
    pub closed spec fn pending_count(self) -> int {
        self.pending@.len() as int
    }

    /// The `i`-th deferred shape-attach request, oldest first.
    pub closed spec fn pending_at(self, i: int) -> AttachRequest {
        req_of(self.pending@[i])
    }

    /// Whether `e` resolves to a binding: its slot holds one, made for
    /// exactly its generation. A stale identifier never resolves.
    pub open spec fn bound(self, e: EntityId) -> bool {
        &&& 0 <= e.slot < self.slot_count()
        &&& self.slot_bound(e.slot as int)
        &&& self.slot_generation(e.slot as int) == e.generation as int
    }

    /// The body owned by the entity `e`; meaningful only when `bound(e)`.
    pub open spec fn body_of(self, e: EntityId) -> engine::Body {
        self.slot_body(e.slot as int)
    }

    /// The bridge invariant: the world is well formed, every binding points
    /// at a live body, no two bindings share a body, and queued requests
    /// carry representable sides.
    pub open spec fn wf(self) -> bool {
        &&& self.sim().wf()
        &&& 0 < self.step_size() <= DT_LIMIT as int
        &&& self.bindings_wf()
        &&& self.pending_wf()
    }

    /// Two bridges with the same bindings, slot for slot.
    pub open spec fn same_bindings(self, other: Bridge) -> bool {
        &&& self.slot_count() == other.slot_count()
        &&& forall|s: int|
            0 <= s < self.slot_count() ==> #[trigger] self.slot_bound(s) == other.slot_bound(s)
                && self.slot_generation(s) == other.slot_generation(s) && (self.slot_bound(s)
                ==> self.slot_body(s) == other.slot_body(s))
    }

    /// Two bridges with the same deferred queue.
    pub open spec fn same_pending(self, other: Bridge) -> bool {
        &&& self.pending_count() == other.pending_count()
        &&& forall|i: int|
            0 <= i < self.pending_count() ==> #[trigger] self.pending_at(i) == other.pending_at(i)
    }

    /// The binding-related invariant conjuncts, on their own.
    pub open spec fn bindings_wf(self) -> bool {
        &&& forall|s: int|
            0 <= s < self.slot_count() && #[trigger] self.slot_bound(s) ==> self.sim().valid_body(
                self.slot_body(s).index(),
            ) && self.sim().body(self.slot_body(s).index()).alive
        &&& forall|s1: int, s2: int|
            0 <= s1 < s2 < self.slot_count() && #[trigger] self.slot_bound(s1)
                && #[trigger] self.slot_bound(s2) ==> self.slot_body(s1).index()
                != self.slot_body(s2).index()
    }

    /// The deferred-queue invariant conjunct, on its own.
    pub open spec fn pending_wf(self) -> bool {
        forall|i: int|
            0 <= i < self.pending_count() ==> 0 < (#[trigger] self.pending_at(i)).side
                <= SIDE_LIMIT as int
    }

    /// Create a bridge around a fresh world with the given gravity and
    /// fixed step size in microseconds.
    pub fn new(gravity: Vec3, step_size_us: i64) -> (br: Bridge)
        requires
            gravity.within(crate::math::GRAV_LIMIT as int),
            0 < step_size_us <= DT_LIMIT,
        ensures
            br.wf(),
            br.slot_count() == 0,
            br.pending_count() == 0,
            br.step_size() == step_size_us,
            br.sim().body_count() == 0,
            br.sim().geom_count() == 0,
            br.sim().log() == Seq::<EngineEvent>::empty(),
            br.sim().gravity() == gravity,
            !br.sim().floor_on(),
    {
        Bridge {
            world: World::new(gravity),
            step_size: step_size_us,
            bindings: Vec::new(),
            pending: Vec::new(),
        }
    }

    /// Add the static floor plane at height zero to the world.
    pub fn add_floor(&mut self)
        requires
            old(self).wf(),
        ensures
            final(self).wf(),
            final(self).sim().floor_on(),
            final(self).sim().gravity() == old(self).sim().gravity(),
            final(self).sim().body_count() == old(self).sim().body_count(),
            final(self).sim().geom_count() == old(self).sim().geom_count(),
            forall|b: int|
                old(self).sim().valid_body(b) ==> final(self).sim().body(b) == old(self).sim().body(
                    b,
                ),
            forall|g: int|
                old(self).sim().valid_geom(g) ==> final(self).sim().geom(g) == old(self).sim().geom(
                    g,
                ),
            final(self).sim().log() == old(self).sim().log(),
            final(self).same_bindings(*old(self)),
            final(self).same_pending(*old(self)),
            final(self).step_size() == old(self).step_size(),
    {
        self.world.add_floor();
        proof {
            assert(self.bindings@ == old(self).bindings@);
            assert(self.pending@ == old(self).pending@);
            assert(self.same_bindings(*old(self)));
            assert(self.same_pending(*old(self)));
            lemma_bindings_preserved(*old(self), *self);
            lemma_pending_preserved(*old(self), *self);
        }
    }

    /// Resolve `e` to the body it owns, or `None` when `e` is not bound —
    /// in particular when `e` is stale: removed, or reusing a slot under a
    /// different generation.
    pub fn lookup(&self, e: EntityId) -> (r: Option<engine::Body>)
        ensures
            match r {
                Some(b) => self.bound(e) && b == self.body_of(e),
                None => !self.bound(e),
            },
    {
        let slot = e.slot as usize;
        if slot < self.bindings.len() {
            match self.bindings[slot] {
                Some(binding) => {
                    if binding.generation == e.generation {
                        Some(binding.body)
                    } else {
                        None
                    }
                },
                None => None,
            }
        } else {
            None
        }
    }

    /// Bind entity `e` to a fresh body of the given mass at the entity's
    /// current position. Rejected when the slot already holds a binding.
    pub fn bind(&mut self, e: EntityId, body: &Body, x: i64, y: i64, z: i64) -> (r: Result<
        (),
        BindError,
    >)
        requires
            old(self).wf(),
            0 < body.mass,
            -POS_LIMIT <= x <= POS_LIMIT,
            -POS_LIMIT <= y <= POS_LIMIT,
            -POS_LIMIT <= z <= POS_LIMIT,
        ensures
            final(self).wf(),
            r is Ok <==> !(e.slot < old(self).slot_count() && old(self).slot_bound(e.slot as int)),
            r is Err ==> *final(self) == *old(self),
            r is Ok ==> {
                &&& final(self).bound(e)
                &&& final(self).body_of(e).index() == old(self).sim().body_count()
                &&& final(self).slot_count() == vstd::math::max(
                    old(self).slot_count(),
                    e.slot + 1,
                )
                &&& forall|s: int|
                    0 <= s < old(self).slot_count() && s != e.slot ==> #[trigger] final(self).slot_bound(s) == old(self).slot_bound(s) && final(self).slot_generation(s)
                        == old(self).slot_generation(s) && (old(self).slot_bound(s) ==> final(self).slot_body(s) == old(self).slot_body(s))
                &&& forall|s: int|
                    old(self).slot_count() <= s < final(self).slot_count() && s != e.slot
                        ==> !#[trigger] final(self).slot_bound(s)
                &&& final(self).sim().body_count() == old(self).sim().body_count() + 1
                &&& final(self).sim().body(old(self).sim().body_count()) == (engine::BodyModel {
                    alive: true,
                    destroyed_at: -1,
                    pos: Vec3 { x, y, z },
                    vel: Vec3 { x: 0, y: 0, z: 0 },
                    quat: Quat { w: SCALE, x: 0, y: 0, z: 0 },
                    mass: body.mass as int,
                })
                &&& forall|b: int|
                    old(self).sim().valid_body(b) ==> final(self).sim().body(b) == old(self).sim().body(b)
                &&& final(self).sim().geom_count() == old(self).sim().geom_count()
                &&& forall|g: int|
                    old(self).sim().valid_geom(g) ==> final(self).sim().geom(g) == old(self).sim().geom(g)
                &&& final(self).sim().log() == old(self).sim().log().push(
                    EngineEvent::CreateBody { body: old(self).sim().body_count() as usize },
                )
            },
            final(self).sim().gravity() == old(self).sim().gravity(),
            final(self).sim().floor_on() == old(self).sim().floor_on(),
            final(self).same_pending(*old(self)),
            final(self).step_size() == old(self).step_size(),
    {
        let slot = e.slot as usize;
        if slot < self.bindings.len() {
            let occupied = match self.bindings[slot] {
                Some(_) => true,
                None => false,
            };
            if occupied {
                return Err(BindError::SlotOccupied);
            }
        }
        while self.bindings.len() <= slot
            invariant
                old(self).slot_count() <= self.slot_count(),
                self.slot_count() <= vstd::math::max(old(self).slot_count(), slot + 1),
                self.world == old(self).world,
                self.step_size == old(self).step_size,
                self.pending == old(self).pending,
                forall|s: int|
                    0 <= s < old(self).slot_count() ==> self.bindings@[s] == old(self).bindings@[s],
                forall|s: int|
                    old(self).slot_count() <= s < self.slot_count() ==> self.bindings@[s] is None,
            decreases slot + 1 - self.bindings.len(),
        {
            self.bindings.push(None);
        }
        let m = Mass::cube(body.mass, SCALE);
        let handle = self.world.add_body(m, x, y, z);
        self.bindings[slot] = Some(Binding { generation: e.generation, body: handle });
        proof {
            let es = e.slot as int;
            assert(self.slot_bound(es));
            assert(self.pending@ == old(self).pending@);
            assert(self.same_pending(*old(self)));
            lemma_pending_preserved(*old(self), *self);
            assert forall|s: int|
                0 <= s < self.slot_count() && #[trigger] self.slot_bound(s) && s
                    != es implies old(self).slot_bound(s) && self.slot_body(s) == old(self).slot_body(s) by {
                if s < old(self).slot_count() {
                    assert(self.bindings@[s] == old(self).bindings@[s]);
                } else {
                    assert(self.bindings@[s] is None);
                }
            }
            assert forall|s: int|
                0 <= s < self.slot_count() && #[trigger] self.slot_bound(s) implies self
                    .sim().valid_body(self.slot_body(s).index()) && self.sim().body(
                self.slot_body(s).index(),
            ).alive by {
                if s != es {
                    assert(old(self).slot_bound(s));
                    assert(old(self).sim().valid_body(old(self).slot_body(s).index()));
                    assert(old(self).sim().body(old(self).slot_body(s).index()).alive);
                    assert(self.slot_body(s) == old(self).slot_body(s));
                    assert(self.sim().body(self.slot_body(s).index()) == old(self).sim().body(
                        self.slot_body(s).index(),
                    ));
                } else {
                    assert(self.slot_body(es) == handle);
                    assert(handle.index() == old(self).sim().body_count());
                    assert(self.sim().body(handle.index()).alive);
                }
            }
            assert forall|s1: int, s2: int|
                0 <= s1 < s2 < self.slot_count() && #[trigger] self.slot_bound(s1)
                    && #[trigger] self.slot_bound(s2) implies self.slot_body(s1).index()
                != self.slot_body(s2).index() by {
                if s1 != es && s2 != es {
                    assert(old(self).slot_bound(s1) && old(self).slot_bound(s2));
                } else if s1 == es {
                    assert(old(self).slot_bound(s2));
                    assert(old(self).sim().valid_body(old(self).slot_body(s2).index()));
                } else {
                    assert(old(self).slot_bound(s1));
                    assert(old(self).sim().valid_body(old(self).slot_body(s1).index()));
                }
            }
        }
        Ok(())
    }

    /// Read-only access to the simulation world, for inspection: counters,
    /// the audit log, poses.
    pub fn world(&self) -> (w: &World)
        ensures
            *w == self.sim(),
    {
        &self.world
    }

    /// Read back entity `e`'s pose — position and orientation — from the
    /// physics world, or `None` when `e` is not bound. A pure read: the
    /// world is not touched.
    pub fn pose(&self, e: EntityId) -> (r: Option<(Vec3, Quat)>)
        requires
            self.wf(),
        ensures
            match r {
                Some(pq) => self.bound(e) && pq.0 == self.sim().body(
                    self.body_of(e).index(),
                ).pos && pq.1 == self.sim().body(self.body_of(e).index()).quat,
                None => !self.bound(e),
            },
    {
        match self.lookup(e) {
            None => None,
            Some(handle) => {
                let (x, y, z) = handle.get_pos(&self.world);
                let (qw, qx, qy, qz) = handle.get_quat(&self.world);
                Some((Vec3 { x, y, z }, Quat { w: qw, x: qx, y: qy, z: qz }))
            },
        }
    }

    /// The identifiers bound below height `threshold`, in slot order: the
    /// out-of-bounds entities a scene-maintenance rule should despawn.
    pub open spec fn below_upto(self, threshold: int, n: int) -> Seq<EntityId>
        decreases n,
    {
        if n <= 0 {
            Seq::empty()
        } else {
            self.below_upto(threshold, n - 1) + (if self.slot_bound(n - 1) && self.sim().body(
                self.slot_body(n - 1).index(),
            ).pos.y < threshold {
                seq![
                    EntityId {
                        slot: (n - 1) as u32,
                        generation: self.slot_generation(n - 1) as u32,
                    },
                ]
            } else {
                Seq::empty()
            })
        }
    }

    /// Collect the bound entities whose body has fallen below height
    /// `threshold`, in slot order.
    pub fn entities_below(&self, threshold: i64) -> (r: Vec<EntityId>)
        requires
            self.wf(),
        ensures
            r@ == self.below_upto(threshold as int, self.slot_count()),
    {
        let mut out: Vec<EntityId> = Vec::new();
        let mut s: usize = 0;
        let n = self.bindings.len();
        proof {
            assert(out@ =~= self.below_upto(threshold as int, 0));
        }
        while s < n
            invariant
                s <= n,
                n == self.slot_count(),
                self.wf(),
                out@ == self.below_upto(threshold as int, s as int),
            decreases n - s,
        {
            match self.bindings[s] {
                Some(binding) => {
                    proof {
                        assert(self.slot_bound(s as int));
                        assert(self.slot_body(s as int) == binding.body);
                    }
                    let (_, y, _) = binding.body.get_pos(&self.world);
                    if y < threshold {
                        out.push(EntityId { slot: s as u32, generation: binding.generation });
                        proof {
                            assert(out@ =~= self.below_upto(threshold as int, s + 1));
                        }
                    } else {
                        proof {
                            assert(out@ =~= self.below_upto(threshold as int, s + 1));
                        }
                    }
                },
                None => {
                    proof {
                        assert(!self.slot_bound(s as int));
                        assert(out@ =~= self.below_upto(threshold as int, s + 1));
                    }
                },
            }
            s += 1;
        }
        out
    }

    /// Attach a cube shape to `parent`'s body. When `parent` is not bound
    /// yet — its bind event has not arrived — the request is deferred and
    /// retried on the next tick, never resolved against a stale body.
    pub fn attach_collider(&mut self, parent: EntityId, c: &Collider) -> (r: AttachOutcome)
        requires
            old(self).wf(),
            0 < c.side_len <= SIDE_LIMIT,
        ensures
            final(self).wf(),
            final(self).same_bindings(*old(self)),
            final(self).step_size() == old(self).step_size(),
            old(self).bound(parent) ==> {
                &&& (match r {
                    AttachOutcome::Attached(g) => g.index() == old(self).sim().geom_count(),
                    AttachOutcome::Deferred => false,
                })
                &&& final(self).sim().geom_count() == old(self).sim().geom_count() + 1
                &&& final(self).sim().geom(old(self).sim().geom_count()) == (GeomModel {
                    alive: true,
                    destroyed_at: -1,
                    body: old(self).body_of(parent).index(),
                    side: c.side_len as int,
                })
                &&& forall|g: int|
                    old(self).sim().valid_geom(g) ==> final(self).sim().geom(g) == old(self).sim().geom(g)
                &&& final(self).sim().body_count() == old(self).sim().body_count()
                &&& forall|b: int|
                    old(self).sim().valid_body(b) ==> final(self).sim().body(b) == old(self).sim().body(b)
                &&& final(self).sim().log() == old(self).sim().log().push(
                    EngineEvent::CreateGeom {
                        geom: old(self).sim().geom_count() as usize,
                        body: old(self).body_of(parent).index() as usize,
                    },
                )
                &&& final(self).same_pending(*old(self))
                &&& final(self).sim().gravity() == old(self).sim().gravity()
                &&& final(self).sim().floor_on() == old(self).sim().floor_on()
            },
            !old(self).bound(parent) ==> {
                &&& r is Deferred
                &&& final(self).sim() == old(self).sim()
                &&& final(self).pending_count() == old(self).pending_count() + 1
                &&& final(self).pending_at(old(self).pending_count()) == (AttachRequest {
                    parent,
                    side: c.side_len as int,
                })
                &&& forall|i: int|
                    0 <= i < old(self).pending_count() ==> final(self).pending_at(i) == old(self).pending_at(i)
            },
    {
        match self.lookup(parent) {
            Some(handle) => {
                proof {
                    assert(old(self).slot_bound(parent.slot as int));
                    assert(old(self).sim().valid_body(handle.index()));
                }
                let g = handle.add_cube(&mut self.world, c.side_len);
                proof {
                    assert(self.bindings@ == old(self).bindings@);
                    assert(self.pending@ == old(self).pending@);
                    assert(self.same_bindings(*old(self)));
                    assert(self.same_pending(*old(self)));
                    lemma_bindings_preserved(*old(self), *self);
                    lemma_pending_preserved(*old(self), *self);
                }
                AttachOutcome::Attached(g)
            },
            None => {
                self.pending.push(PendingRec { parent, side: c.side_len });
                proof {
                    assert(self.bindings@ == old(self).bindings@);
                    assert(self.same_bindings(*old(self)));
                    lemma_bindings_preserved(*old(self), *self);
                    assert forall|i: int|
                        0 <= i < self.pending_count() implies 0 < (
                    #[trigger] self.pending_at(i)).side <= SIDE_LIMIT as int by {
                        if i < old(self).pending_count() {
                            assert(self.pending@[i] == old(self).pending@[i]);
                            assert(old(self).pending_at(i) == self.pending_at(i));
                        }
                    }
                }
                AttachOutcome::Deferred
            },
        }
    }

    /// The requests among the first `n` queued ones whose parent is still
    /// not bound: what stays deferred after a flush.
    pub open spec fn deferred_upto(self, n: int) -> Seq<AttachRequest>
        decreases n,
    {
        if n <= 0 {
            Seq::empty()
        } else {
            self.deferred_upto(n - 1) + (if self.bound(self.pending_at(n - 1).parent) {
                Seq::<AttachRequest>::empty()
            } else {
                seq![self.pending_at(n - 1)]
            })
        }
    }

    /// The requests among the first `n` queued ones whose parent is bound:
    /// what a flush attaches, in queue order.
    pub open spec fn attached_upto(self, n: int) -> Seq<AttachRequest>
        decreases n,
    {
        if n <= 0 {
            Seq::empty()
        } else {
            self.attached_upto(n - 1) + (if self.bound(self.pending_at(n - 1).parent) {
                seq![self.pending_at(n - 1)]
            } else {
                Seq::<AttachRequest>::empty()
            })
        }
    }

    /// Retry every deferred shape-attach request: requests whose parent is
    /// bound by now attach a shape to its body, in queue order; the rest
    /// stay queued for the next tick.
    pub fn flush_pending(&mut self)
        requires
            old(self).wf(),
        ensures
            final(self).wf(),
            final(self).same_bindings(*old(self)),
            final(self).step_size() == old(self).step_size(),
            final(self).sim().gravity() == old(self).sim().gravity(),
            final(self).sim().floor_on() == old(self).sim().floor_on(),
            final(self).sim().body_count() == old(self).sim().body_count(),
            forall|b: int|
                old(self).sim().valid_body(b) ==> final(self).sim().body(b) == old(self).sim().body(
                    b,
                ),
            final(self).pending_count() == old(self).deferred_upto(
                old(self).pending_count(),
            ).len(),
            forall|i: int|
                0 <= i < final(self).pending_count() ==> final(self).pending_at(i) == old(self).deferred_upto(old(self).pending_count())[i],
            final(self).sim().geom_count() == old(self).sim().geom_count() + old(self).attached_upto(old(self).pending_count()).len(),
            forall|g: int|
                old(self).sim().valid_geom(g) ==> final(self).sim().geom(g) == old(self).sim().geom(
                    g,
                ),
            forall|j: int|
                0 <= j < old(self).attached_upto(old(self).pending_count()).len() ==> final(self).sim().geom(old(self).sim().geom_count() + j) == (GeomModel {
                    alive: true,
                    destroyed_at: -1,
                    body: old(self).body_of(
                        old(self).attached_upto(old(self).pending_count())[j].parent,
                    ).index(),
                    side: old(self).attached_upto(old(self).pending_count())[j].side,
                }),
            final(self).sim().log().len() == old(self).sim().log().len() + old(self).attached_upto(
                old(self).pending_count(),
            ).len(),
            forall|k: int|
                0 <= k < old(self).sim().log().len() ==> final(self).sim().log()[k] == old(self).sim().log()[k],
            forall|j: int|
                0 <= j < old(self).attached_upto(old(self).pending_count()).len() ==> final(self).sim().log()[old(self).sim().log().len() + j] == (EngineEvent::CreateGeom {
                    geom: (old(self).sim().geom_count() + j) as usize,
                    body: old(self).body_of(
                        old(self).attached_upto(old(self).pending_count())[j].parent,
                    ).index() as usize,
                }),
    {
        let mut kept: Vec<PendingRec> = Vec::new();
        let mut i: usize = 0;
        let n = self.pending.len();
        while i < n
            invariant
                i <= n,
                n == old(self).pending_count(),
                old(self).wf(),
                self.pending@ == old(self).pending@,
                self.bindings@ == old(self).bindings@,
                self.step_size == old(self).step_size,
                self.sim().wf(),
                self.sim().gravity() == old(self).sim().gravity(),
                self.sim().floor_on() == old(self).sim().floor_on(),
                self.sim().body_count() == old(self).sim().body_count(),
                forall|b: int|
                    old(self).sim().valid_body(b) ==> #[trigger] self.sim().body(b) == old(self).sim().body(b),
                self.sim().geom_count() == old(self).sim().geom_count() + old(self).attached_upto(
                    i as int,
                ).len(),
                forall|g: int|
                    old(self).sim().valid_geom(g) ==> #[trigger] self.sim().geom(g) == old(self).sim().geom(g),
                forall|j: int|
                    0 <= j < old(self).attached_upto(i as int).len() ==> #[trigger] self.sim().geom(
                        old(self).sim().geom_count() + j,
                    ) == (GeomModel {
                        alive: true,
                        destroyed_at: -1,
                        body: old(self).body_of(
                            old(self).attached_upto(i as int)[j].parent,
                        ).index(),
                        side: old(self).attached_upto(i as int)[j].side,
                    }),
                self.sim().log().len() == old(self).sim().log().len() + old(self).attached_upto(
                    i as int,
                ).len(),
                forall|k: int|
                    0 <= k < old(self).sim().log().len() ==> #[trigger] self.sim().log()[k] == old(self).sim().log()[k],
                forall|j: int|
                    0 <= j < old(self).attached_upto(i as int).len() ==> #[trigger] self.sim().log()[old(self).sim().log().len() + j] == (EngineEvent::CreateGeom {
                        geom: (old(self).sim().geom_count() + j) as usize,
                        body: old(self).body_of(
                            old(self).attached_upto(i as int)[j].parent,
                        ).index() as usize,
                    }),
                kept@.len() == old(self).deferred_upto(i as int).len(),
                forall|k: int|
                    0 <= k < kept@.len() ==> req_of(#[trigger] kept@[k]) == old(self).deferred_upto(
                        i as int,
                    )[k],
                forall|k: int|
                    0 <= k < kept@.len() ==> 0 < req_of(#[trigger] kept@[k]).side
                        <= SIDE_LIMIT as int,
            decreases n - i,
        {
            let ghost oldi = i as int;
            let rec = self.pending[i];
            proof {
                assert(self.same_bindings(*old(self)));
                assert(self.pending_at(oldi) == old(self).pending_at(oldi));
                assert(old(self).pending_wf());
                assert(0 < old(self).pending_at(oldi).side <= SIDE_LIMIT as int);
            }
            match self.lookup(rec.parent) {
                Some(handle) => {
                    proof {
                        assert(self.bound(rec.parent));
                        assert(old(self).bound(rec.parent));
                        assert(handle == self.body_of(rec.parent));
                        assert(handle == old(self).body_of(rec.parent));
                        assert(old(self).slot_bound(rec.parent.slot as int));
                        assert(old(self).sim().valid_body(handle.index()));
                        assert(old(self).sim().body(handle.index()).alive);
                        assert(self.sim().body(handle.index()) == old(self).sim().body(
                            handle.index(),
                        ));
                    }
                    let ghost pre = *self;
                    let _ = handle.add_cube(&mut self.world, rec.side);
                    proof {
                        assert(old(self).attached_upto(oldi + 1) =~= old(self).attached_upto(
                            oldi,
                        ).push(old(self).pending_at(oldi)));
                        assert(old(self).deferred_upto(oldi + 1) =~= old(self).deferred_upto(
                            oldi,
                        ));
                        assert(self.bindings@ == pre.bindings@);
                        assert(self.pending@ == pre.pending@);
                    }
                },
                None => {
                    kept.push(rec);
                    proof {
                        assert(!old(self).bound(rec.parent));
                        assert(old(self).deferred_upto(oldi + 1) =~= old(self).deferred_upto(
                            oldi,
                        ).push(old(self).pending_at(oldi)));
                        assert(old(self).attached_upto(oldi + 1) =~= old(self).attached_upto(
                            oldi,
                        ));
                    }
                },
            }
            i += 1;
        }
        self.pending = kept;
        proof {
            assert(self.same_bindings(*old(self)));
            lemma_bindings_preserved(*old(self), *self);
            assert forall|k: int|
                0 <= k < self.pending_count() implies 0 < (#[trigger] self.pending_at(k)).side
                <= SIDE_LIMIT as int by {
                assert(req_of(self.pending@[k]) == self.pending_at(k));
            }
        }
    }

    /// One simulation tick: retry the deferred shape attaches, so the
    /// collision space is up to date, then advance the physics world by the
    /// fixed step size. The bridge's own state machine never steps with a
    /// stale space.
    pub fn step(&mut self)
        requires
            old(self).wf(),
        ensures
            final(self).wf(),
            final(self).same_bindings(*old(self)),
            final(self).step_size() == old(self).step_size(),
            final(self).sim().gravity() == old(self).sim().gravity(),
            final(self).sim().floor_on() == old(self).sim().floor_on(),
            final(self).pending_count() == old(self).deferred_upto(
                old(self).pending_count(),
            ).len(),
            forall|i: int|
                0 <= i < final(self).pending_count() ==> final(self).pending_at(i) == old(self).deferred_upto(old(self).pending_count())[i],
            final(self).sim().geom_count() == old(self).sim().geom_count() + old(self).attached_upto(old(self).pending_count()).len(),
            forall|g: int|
                old(self).sim().valid_geom(g) ==> final(self).sim().geom(g) == old(self).sim().geom(
                    g,
                ),
            forall|j: int|
                0 <= j < old(self).attached_upto(old(self).pending_count()).len() ==> final(self).sim().geom(old(self).sim().geom_count() + j) == (GeomModel {
                    alive: true,
                    destroyed_at: -1,
                    body: old(self).body_of(
                        old(self).attached_upto(old(self).pending_count())[j].parent,
                    ).index(),
                    side: old(self).attached_upto(old(self).pending_count())[j].side,
                }),
            final(self).sim().log().len() == old(self).sim().log().len() + old(self).attached_upto(
                old(self).pending_count(),
            ).len(),
            forall|k: int|
                0 <= k < old(self).sim().log().len() ==> final(self).sim().log()[k] == old(
                    self,
                ).sim().log()[k],
            forall|j: int|
                0 <= j < old(self).attached_upto(old(self).pending_count()).len() ==> final(self).sim().log()[old(self).sim().log().len() + j] == (EngineEvent::CreateGeom {
                    geom: (old(self).sim().geom_count() + j) as usize,
                    body: old(self).body_of(
                        old(self).attached_upto(old(self).pending_count())[j].parent,
                    ).index() as usize,
                }),
            final(self).sim().body_count() == old(self).sim().body_count(),
            forall|b: int|
                old(self).sim().valid_body(b) ==> final(self).sim().body(b) == (if old(self).sim().body(b).alive {
                    crate::engine::stepped_body(
                        old(self).sim().body(b),
                        old(self).sim().gravity(),
                        old(self).step_size(),
                        old(self).sim().floor_on() && final(self).sim().has_live_geom(b),
                        final(self).sim().rest_half(b),
                    )
                } else {
                    old(self).sim().body(b)
                }),
    {
        self.flush_pending();
        let ghost mid = *self;
        let dt = self.step_size;
        self.world.step(dt, true);
        proof {
            assert(self.bindings@ == mid.bindings@);
            assert(self.pending@ == mid.pending@);
            assert(self.same_bindings(mid));
            assert(self.same_pending(mid));
            lemma_pending_preserved(mid, *self);
            assert forall|s: int|
                0 <= s < self.slot_count() && #[trigger] self.slot_bound(s) implies self
                    .sim().valid_body(self.slot_body(s).index()) && self.sim().body(
                self.slot_body(s).index(),
            ).alive by {
                assert(mid.slot_bound(s));
                assert(mid.sim().valid_body(mid.slot_body(s).index()));
                assert(mid.sim().body(mid.slot_body(s).index()).alive);
            }
            assert forall|s1: int, s2: int|
                0 <= s1 < s2 < self.slot_count() && #[trigger] self.slot_bound(s1)
                    && #[trigger] self.slot_bound(s2) implies self.slot_body(s1).index()
                != self.slot_body(s2).index() by {
                assert(mid.slot_bound(s1) && mid.slot_bound(s2));
            }
            assert forall|i: int|
                0 <= i < self.pending_count() implies #[trigger] self.pending_at(i) == old(self).deferred_upto(old(self).pending_count())[i] by {
                assert(self.pending_at(i) == mid.pending_at(i));
            }
            assert forall|j: int|
                0 <= j < old(self).attached_upto(old(self).pending_count()).len() implies #[trigger] self.sim().geom(
                    old(self).sim().geom_count() + j,
                ) == (GeomModel {
                    alive: true,
                    destroyed_at: -1,
                    body: old(self).body_of(
                        old(self).attached_upto(old(self).pending_count())[j].parent,
                    ).index(),
                    side: old(self).attached_upto(old(self).pending_count())[j].side,
                }) by {
                assert(mid.sim().valid_geom(old(self).sim().geom_count() + j));
                assert(self.sim().geom(old(self).sim().geom_count() + j) == mid.sim().geom(
                    old(self).sim().geom_count() + j,
                ));
            }
            assert forall|b: int|
                old(self).sim().valid_body(b) implies #[trigger] final(self).sim().body(b) == (
            if old(self).sim().body(b).alive {
                crate::engine::stepped_body(
                    old(self).sim().body(b),
                    old(self).sim().gravity(),
                    old(self).step_size(),
                    old(self).sim().floor_on() && final(self).sim().has_live_geom(b),
                    final(self).sim().rest_half(b),
                )
            } else {
                old(self).sim().body(b)
            }) by {
                assert(mid.sim().body(b) == old(self).sim().body(b));
                crate::engine::lemma_contact_depends_on_geoms(
                    self.sim(),
                    mid.sim(),
                    b,
                    self.sim().geom_count(),
                );
            }
        }
    }

    /// Remove entity `e`'s binding: destroy every shape of its body, then
    /// the body, then erase the binding. Returns whether a binding was
    /// removed; a stale or unknown identifier is a no-op.
    pub fn remove_body(&mut self, e: EntityId) -> (removed: bool)
        requires
            old(self).wf(),
        ensures
            final(self).wf(),
            removed == old(self).bound(e),
            !removed ==> *final(self) == *old(self),
            removed ==> {
                let b = old(self).body_of(e).index();
                let w0 = old(self).sim();
                &&& !final(self).bound(e)
                &&& final(self).slot_count() == old(self).slot_count()
                &&& !final(self).slot_bound(e.slot as int)
                &&& forall|s: int|
                    0 <= s < old(self).slot_count() && s != e.slot ==> #[trigger] final(self).slot_bound(s) == old(self).slot_bound(s) && final(self).slot_generation(s)
                        == old(self).slot_generation(s) && (old(self).slot_bound(s) ==> final(self).slot_body(s) == old(self).slot_body(s))
                &&& final(self).sim().body_count() == w0.body_count()
                &&& final(self).sim().body(b) == (engine::BodyModel {
                    alive: false,
                    destroyed_at: w0.log().len() + w0.destroy_events_upto(
                        b,
                        w0.geom_count(),
                    ).len() as int,
                    ..w0.body(b)
                })
                &&& forall|i: int|
                    w0.valid_body(i) && i != b ==> final(self).sim().body(i) == w0.body(i)
                &&& final(self).sim().geom_count() == w0.geom_count()
                &&& forall|g: int|
                    w0.valid_geom(g) ==> final(self).sim().geom(g) == (if w0.geom(g).alive
                        && w0.geom(g).body == b {
                        GeomModel {
                            alive: false,
                            destroyed_at: w0.log().len() + w0.live_geoms_of_upto(b, g),
                            ..w0.geom(g)
                        }
                    } else {
                        w0.geom(g)
                    })
                &&& final(self).sim().log() == w0.log() + w0.destroy_events_upto(
                    b,
                    w0.geom_count(),
                ).push(EngineEvent::DestroyBody { body: b as usize })
            },
            final(self).sim().gravity() == old(self).sim().gravity(),
            final(self).sim().floor_on() == old(self).sim().floor_on(),
            final(self).same_pending(*old(self)),
            final(self).step_size() == old(self).step_size(),
    {
        let found = self.lookup(e);
        match found {
            None => false,
            Some(handle) => {
                proof {
                    assert(old(self).slot_bound(e.slot as int));
                }
                self.world.destroy_geoms_of(handle);
                self.world.destroy_body(handle);
                self.bindings[e.slot as usize] = None;
                proof {
                    let b = old(self).body_of(e).index();
                    let w0 = old(self).sim();
                    assert(self.sim().log() =~= w0.log() + w0.destroy_events_upto(
                        b,
                        w0.geom_count(),
                    ).push(EngineEvent::DestroyBody { body: b as usize }));
                    assert forall|s: int|
                        0 <= s < self.slot_count() && #[trigger] self.slot_bound(s) implies self
                            .sim().valid_body(self.slot_body(s).index()) && self.sim().body(
                            self.slot_body(s).index(),
                        ).alive by {
                        assert(old(self).slot_bound(s));
                        if s < e.slot as int {
                            assert(old(self).slot_body(s).index() != b);
                        } else {
                            assert(old(self).slot_body(s).index() != b);
                        }
                    }
                    assert forall|s1: int, s2: int|
                        0 <= s1 < s2 < self.slot_count() && #[trigger] self.slot_bound(s1)
                            && #[trigger] self.slot_bound(s2) implies self.slot_body(s1).index()
                        != self.slot_body(s2).index() by {
                        assert(old(self).slot_bound(s1) && old(self).slot_bound(s2));
                    }
                    assert(self.pending@ == old(self).pending@);
                    assert(self.same_pending(*old(self)));
                    lemma_pending_preserved(*old(self), *self);
                }
                true
            },
        }
    }
}

/// Bindings stay well formed when the bindings are unchanged and the bodies
/// they point at are unchanged.
pub proof fn lemma_bindings_preserved(a: Bridge, b: Bridge)
    requires
        a.bindings_wf(),
        b.same_bindings(a),
        b.sim().body_count() >= a.sim().body_count(),
        forall|i: int| a.sim().valid_body(i) ==> #[trigger] b.sim().body(i) == a.sim().body(i),
    ensures
        b.bindings_wf(),
{
    assert forall|s: int|
        0 <= s < b.slot_count() && #[trigger] b.slot_bound(s) implies b.sim().valid_body(
        b.slot_body(s).index(),
    ) && b.sim().body(b.slot_body(s).index()).alive by {
        assert(a.slot_bound(s));
        assert(a.sim().valid_body(a.slot_body(s).index()));
    }
    assert forall|s1: int, s2: int|
        0 <= s1 < s2 < b.slot_count() && #[trigger] b.slot_bound(s1) && #[trigger] b.slot_bound(
        s2,
    ) implies b.slot_body(s1).index() != b.slot_body(s2).index() by {
        assert(a.slot_bound(s1) && a.slot_bound(s2));
    }
}

/// The deferred queue stays well formed when it is unchanged.
pub proof fn lemma_pending_preserved(a: Bridge, b: Bridge)
    requires
        a.pending_wf(),
        b.same_pending(a),
    ensures
        b.pending_wf(),
{
    assert forall|i: int|
        0 <= i < b.pending_count() implies 0 < (#[trigger] b.pending_at(i)).side
        <= SIDE_LIMIT as int by {
        assert(b.pending_at(i) == a.pending_at(i));
    }
}

/// Two identifiers that share a slot but differ in generation can never
/// both be bound: a recycled slot's old identifier is a guaranteed miss.
pub proof fn lemma_generation_disambiguates(br: Bridge, stale: EntityId, current: EntityId)
    requires
        stale.slot == current.slot,
        stale.generation != current.generation,
        br.bound(current),
    ensures
        !br.bound(stale),
{
}

} // verus!
