use std::collections::HashMap;
use vstd::prelude::*;

use crate::logic::aabb_grid::{AabbGrid, AabbObject};
use crate::logic::seqs::{lemma_take_all, lemma_take_step};
use crate::math::angle::{cos_milli, lemma_spec_cos_sin_bounds, sin_milli, spec_cos, spec_sin};
use crate::math::num::{div_trunc, div_trunc_spec, lemma_div_trunc_abs, lemma_mul_bounds, MILLI};
use crate::math::point::{coord_bounded, Point};
use crate::math::rect::Rect;
use crate::simulation::blob::{
    lemma_update_box, spec_update, update_ready, Blob, BlobId, DT_LIMIT, FORCE_LIMIT,
};

verus! {

broadcast use vstd::std_specs::hash::group_hash_axioms;

/// A discrete control input for one body within one tick.
#[derive(Debug, PartialEq, Eq, Copy, Clone, Ord, PartialOrd, Hash, Structural)]
pub enum InputEvent {
    Forward,
    Backward,
    TurnLeft,
    TurnRight,
}

/// A simulation-level event reported to the host. No variant is produced
/// yet: `Kill` is declared for the narrow-phase resolution to come.
#[derive(Debug, Clone, Copy, PartialEq, Eq, Structural)]
pub enum Event {
    Kill(Point, i64),
}

/// Thrust applied along the heading by a `Forward` input; `Backward`
/// applies half of it against the heading.
pub const THRUST: i64 = 100_000;

/// Angular thrust applied by a turn input.
pub const ANGLE_THRUST: i64 = 4_000;

/// The most inputs one body may queue in a tick: one of each kind, as the
/// host deduplicates its key events.
pub const MAX_INPUTS: usize = 4;

/// The largest change one input can make to a force component.
pub const EVENT_FORCE_STEP: i64 = 4_000_000;

/// Cells per axis of the per-tick broad-phase grid.
pub const GRID_DIM: u32 = 20;

/// A body's identity and swept box, snapshotted for the broad phase.
#[derive(Debug, Clone, Copy, PartialEq, Eq, Structural)]
pub struct SweepBlob {
    pub id: BlobId,
    pub aabb: Rect,
}

impl AabbObject for SweepBlob {
    open spec fn spec_aabb(&self) -> Rect {
        self.aabb
    }

    fn aabb(&self) -> (r: Rect) {
        self.aabb
    }
}

/// One control input folded into a body's accumulated forces: thrust along
/// or against the heading, or angular thrust, each scaled by the time step.
pub open spec fn apply_event(b: Blob, e: InputEvent, dt: int) -> Blob {
    match e {
        InputEvent::Forward => Blob {
            force: Point {
                x: (b.force.x + div_trunc_spec(
                    (spec_cos(b.rotation as int) * THRUST) * dt,
                    MILLI * MILLI,
                )) as i64,
                y: (b.force.y + div_trunc_spec(
                    (spec_sin(b.rotation as int) * THRUST) * dt,
                    MILLI * MILLI,
                )) as i64,
            },
            ..b
        },
        InputEvent::Backward => Blob {
            force: Point {
                x: (b.force.x - div_trunc_spec(
                    (spec_cos(b.rotation as int) * THRUST) * dt,
                    (MILLI * MILLI) * 2,
                )) as i64,
                y: (b.force.y - div_trunc_spec(
                    (spec_sin(b.rotation as int) * THRUST) * dt,
                    (MILLI * MILLI) * 2,
                )) as i64,
            },
            ..b
        },
        InputEvent::TurnLeft => Blob {
            angular_force: (b.angular_force - ANGLE_THRUST * dt) as i64,
            ..b
        },
        InputEvent::TurnRight => Blob {
            angular_force: (b.angular_force + ANGLE_THRUST * dt) as i64,
            ..b
        },
    }
}

/// One tick's inputs folded into a body's forces, in order.
pub open spec fn apply_events(b: Blob, events: Seq<InputEvent>, dt: int) -> Blob
    decreases events.len(),
{
    if events.len() == 0 {
        b
    } else {
        apply_event(apply_events(b, events.drop_last(), dt), events.last(), dt)
    }
}

/// The events queued for `id` this tick, or none.
pub open spec fn events_for(inputs: Map<BlobId, Vec<InputEvent>>, id: BlobId) -> Seq<InputEvent> {
    if inputs.contains_key(id) {
        inputs[id]@
    } else {
        Seq::empty()
    }
}

/// Folding one more input applies it after the run so far.
proof fn lemma_apply_push(b: Blob, events: Seq<InputEvent>, e: InputEvent, dt: int)
    ensures
        apply_events(b, events.push(e), dt) == apply_event(apply_events(b, events, dt), e, dt),
{
    let s = events.push(e);
    assert(s.drop_last() =~= events);
    assert(apply_events(b, s, dt) == apply_event(apply_events(b, s.drop_last(), dt), s.last(), dt));
}

/// Inputs change only the accumulated forces, each input by at most one
/// force step.
proof fn lemma_apply_events_props(b: Blob, events: Seq<InputEvent>, dt: int)
    requires
        0 <= dt <= DT_LIMIT,
        -FORCE_LIMIT <= b.force.x <= FORCE_LIMIT,
        -FORCE_LIMIT <= b.force.y <= FORCE_LIMIT,
        -FORCE_LIMIT <= b.angular_force <= FORCE_LIMIT,
        events.len() <= MAX_INPUTS,
    ensures
        ({
            let a = apply_events(b, events, dt);
            &&& a.id == b.id
            &&& a.circle == b.circle
            &&& a.mass == b.mass
            &&& a.velocity == b.velocity
            &&& a.rotation == b.rotation
            &&& a.angular_velocity == b.angular_velocity
            &&& a.collision_aabb == b.collision_aabb
            &&& b.force.x - events.len() * EVENT_FORCE_STEP <= a.force.x <= b.force.x
                + events.len() * EVENT_FORCE_STEP
            &&& b.force.y - events.len() * EVENT_FORCE_STEP <= a.force.y <= b.force.y
                + events.len() * EVENT_FORCE_STEP
            &&& b.angular_force - events.len() * EVENT_FORCE_STEP <= a.angular_force
                <= b.angular_force + events.len() * EVENT_FORCE_STEP
        }),
    decreases events.len(),
{
    if events.len() == 0 {
    } else {
        lemma_apply_events_props(b, events.drop_last(), dt);
        let mid = apply_events(b, events.drop_last(), dt);
        let e = events.last();
        lemma_spec_cos_sin_bounds(mid.rotation as int);
        let c = spec_cos(mid.rotation as int);
        let s = spec_sin(mid.rotation as int);
        lemma_mul_bounds(c, MILLI as int, THRUST as int, THRUST as int);
        lemma_mul_bounds(s, MILLI as int, THRUST as int, THRUST as int);
        lemma_mul_bounds(c * THRUST, 100_000_000, dt, DT_LIMIT as int);
        lemma_mul_bounds(s * THRUST, 100_000_000, dt, DT_LIMIT as int);
        lemma_div_trunc_abs((c * THRUST) * dt, MILLI * MILLI, 100_000_000_000);
        lemma_div_trunc_abs((s * THRUST) * dt, MILLI * MILLI, 100_000_000_000);
        lemma_div_trunc_abs((c * THRUST) * dt, (MILLI * MILLI) * 2, 100_000_000_000);
        lemma_div_trunc_abs((s * THRUST) * dt, (MILLI * MILLI) * 2, 100_000_000_000);
    }
}

/// The authoritative world: its fixed region and every live body.
pub struct Simulation {
    rect: Rect,
    blobs: Vec<Blob>,
}

impl Simulation {
    /// The fixed world region.
    pub closed spec fn spec_rect(&self) -> Rect {
        self.rect
    }

    /// The bodies, in storage order.
    pub closed spec fn spec_blobs(&self) -> Seq<Blob> {
        self.blobs@
    }

    /// The region fits the broad-phase grid, and identities are unique.
    pub closed spec fn wf(&self) -> bool {
        &&& self.rect.is_valid()
        &&& coord_bounded(self.rect.bottom_left)
        &&& coord_bounded(self.rect.top_right)
        &&& self.rect.top_right.x - self.rect.bottom_left.x >= GRID_DIM
        &&& self.rect.top_right.y - self.rect.bottom_left.y >= GRID_DIM
        &&& forall|i: int, j: int|
            #![trigger self.blobs@[i].id, self.blobs@[j].id]
            0 <= i < j < self.blobs@.len() ==> self.blobs@[i].id != self.blobs@[j].id
    }

    /// A body acceptable to `simulate`: within the integrator's limits,
    /// with headroom on the accumulated forces for one tick's inputs.
    pub open spec fn blob_ready(b: Blob, dt: int) -> bool {
        &&& update_ready(b, dt)
        &&& -FORCE_LIMIT + 16_000_000 <= b.force.x <= FORCE_LIMIT - 16_000_000
        &&& -FORCE_LIMIT + 16_000_000 <= b.force.y <= FORCE_LIMIT - 16_000_000
        &&& -FORCE_LIMIT + 16_000_000 <= b.angular_force <= FORCE_LIMIT - 16_000_000
    }

    /// Every body is ready for the step and no body's input queue exceeds
    /// one of each kind.
    pub open spec fn ready(&self, dt: int, inputs: Map<BlobId, Vec<InputEvent>>) -> bool {
        &&& forall|i: int|
            0 <= i < self.spec_blobs().len() ==> Simulation::blob_ready(
                #[trigger] self.spec_blobs()[i],
                dt,
            )
        &&& forall|id: BlobId|
            inputs.contains_key(id) ==> #[trigger] inputs[id]@.len() <= MAX_INPUTS
    }

    /// Every body's swept box is a valid box within the geometric range —
    /// what one `update` per body leaves behind.
    pub open spec fn boxes_ready(&self) -> bool {
        forall|i: int|
            0 <= i < self.spec_blobs().len() ==> {
                &&& (#[trigger] self.spec_blobs()[i]).collision_aabb.is_valid()
                &&& coord_bounded(self.spec_blobs()[i].collision_aabb.bottom_left)
                &&& coord_bounded(self.spec_blobs()[i].collision_aabb.top_right)
            }
    }

    /// A world over a fixed square region with two default bodies.
    pub fn new() -> (r: Simulation)
        ensures
            r.wf(),
            r.spec_rect() == (Rect {
                bottom_left: Point { x: -1000i64, y: -1000i64 },
                top_right: Point { x: 1000i64, y: 1000i64 },
            }),
            r.spec_blobs().len() == 2,
            r.spec_blobs()[0].id == 0,
            r.spec_blobs()[0].circle.pos == (Point { x: 100i64, y: 100i64 }),
            r.spec_blobs()[0].circle.radius == 10,
            r.spec_blobs()[1].id == 1,
            r.spec_blobs()[1].circle.pos == (Point { x: 140i64, y: 100i64 }),
            r.spec_blobs()[1].circle.radius == 10,
            forall|i: int|
                0 <= i < 2 ==> Simulation::blob_ready(#[trigger] r.spec_blobs()[i], 0),
    {
        let rect = Rect::new(Point { x: -1000, y: -1000 }, Point { x: 1000, y: 1000 });
        let mut blobs: Vec<Blob> = Vec::new();
        blobs.push(Blob::new(100, 100, 10, 0));
        blobs.push(Blob::new(140, 100, 10, 1));
        Simulation { rect, blobs }
    }

    /// The index of the body with the given identity, for the caller to
    /// read or rewrite it in place; `None` when no such body remains —
    /// stale inputs for a despawned body are a no-op, not a fault.
    pub fn find_blob_mut(&mut self, blob_id: BlobId) -> (r: Option<usize>)
        ensures
            *final(self) == *old(self),
            match r {
                Some(i) => i < old(self).spec_blobs().len() && old(self).spec_blobs()[i as int].id
                    == blob_id,
                None => forall|i: int|
                    0 <= i < old(self).spec_blobs().len()
                        ==> (#[trigger] old(self).spec_blobs()[i]).id != blob_id,
            },
    {
        let mut i: usize = 0;
        while i < self.blobs.len()
            invariant
                *self == *old(self),
                i <= self.blobs@.len(),
                forall|j: int| 0 <= j < i ==> (#[trigger] self.blobs@[j]).id != blob_id,
            decreases self.blobs@.len() - i,
        {
            if self.blobs[i].id == blob_id {
                return Some(i);
            }
            i = i + 1;
        }
        None
    }

    /// The bodies with identities `a` and `b` (in that order, `a` smaller)
    /// have overlapping swept boxes — a candidate pair for the narrow
    /// phase.
    pub open spec fn pair_candidate(&self, a: BlobId, b: BlobId) -> bool {
        &&& a < b
        &&& exists|i: int, j: int|
            #![trigger self.spec_blobs()[i], self.spec_blobs()[j]]
            {
                &&& 0 <= i < self.spec_blobs().len()
                &&& 0 <= j < self.spec_blobs().len()
                &&& self.spec_blobs()[i].id == a
                &&& self.spec_blobs()[j].id == b
                &&& Rect::spec_collides(
                    self.spec_blobs()[j].collision_aabb,
                    self.spec_blobs()[i].collision_aabb,
                )
            }
    }

    /// `pair_candidate` with the querying body restricted to the first `n`.
    pub open spec fn pair_candidate_upto(&self, a: BlobId, b: BlobId, n: int) -> bool {
        &&& a < b
        &&& exists|i: int, j: int|
            #![trigger self.spec_blobs()[i], self.spec_blobs()[j]]
            {
                &&& 0 <= i < n
                &&& 0 <= j < self.spec_blobs().len()
                &&& self.spec_blobs()[i].id == a
                &&& self.spec_blobs()[j].id == b
                &&& Rect::spec_collides(
                    self.spec_blobs()[j].collision_aabb,
                    self.spec_blobs()[i].collision_aabb,
                )
            }
    }

    /// Builds a fresh broad-phase grid from every body's swept box and
    /// lists each unordered pair of bodies whose swept boxes overlap, once,
    /// as the pair of their identities with the smaller first. This is the
    /// narrow phase's designed input; no response is applied here.
    pub fn collision_candidates(&self) -> (r: Vec<(BlobId, BlobId)>)
        requires
            self.wf(),
            self.boxes_ready(),
        ensures
            forall|a: BlobId, b: BlobId|
                r@.contains((a, b)) <==> self.pair_candidate(a, b),
    {
        let mut sweeps: Vec<SweepBlob> = Vec::new();
        let mut i: usize = 0;
        while i < self.blobs.len()
            invariant
                self.wf(),
                self.boxes_ready(),
                i <= self.blobs@.len(),
                sweeps@.len() == i,
                forall|j: int|
                    0 <= j < i ==> #[trigger] sweeps@[j] == (SweepBlob {
                        id: self.blobs@[j].id,
                        aabb: self.blobs@[j].collision_aabb,
                    }),
            decreases self.blobs@.len() - i,
        {
            let b = &self.blobs[i];
            sweeps.push(SweepBlob { id: b.id, aabb: b.collision_aabb });
            i = i + 1;
        }
        let ghost sweeps_seq = sweeps@;
        proof {
            assert forall|j: int|
                0 <= j < sweeps_seq.len() implies AabbGrid::<SweepBlob>::item_ok(
                #[trigger] sweeps_seq[j],
            ) by {
                assert(self.spec_blobs()[j] == self.blobs@[j]);
                assert(sweeps_seq[j].aabb == self.blobs@[j].collision_aabb);
            }
        }
        let grid = AabbGrid::<SweepBlob>::new_with_objects(
            &self.rect,
            GRID_DIM,
            GRID_DIM,
            sweeps,
        );
        let mut pairs: Vec<(BlobId, BlobId)> = Vec::new();
        let mut ii: usize = 0;
        while ii < self.blobs.len()
            invariant
                self.wf(),
                self.boxes_ready(),
                grid.wf(),
                grid.is_index_of(sweeps_seq),
                sweeps_seq.len() == self.blobs@.len(),
                forall|j: int|
                    0 <= j < sweeps_seq.len() ==> #[trigger] sweeps_seq[j] == (SweepBlob {
                        id: self.blobs@[j].id,
                        aabb: self.blobs@[j].collision_aabb,
                    }),
                ii <= self.blobs@.len(),
                forall|a: BlobId, b: BlobId|
                    #[trigger] pairs@.contains((a, b)) <==> self.pair_candidate_upto(
                        a,
                        b,
                        ii as int,
                    ),
            decreases self.blobs@.len() - ii,
        {
            let rect = self.blobs[ii].collision_aabb;
            let my_id = self.blobs[ii].id;
            let found = grid.for_objects(&rect);
            let ghost found_seq = found@;
            let mut kk: usize = 0;
            while kk < found.len()
                invariant
                    self.wf(),
                    grid.wf(),
                    grid.is_index_of(sweeps_seq),
                    sweeps_seq.len() == self.blobs@.len(),
                    forall|j: int|
                        0 <= j < sweeps_seq.len() ==> #[trigger] sweeps_seq[j] == (SweepBlob {
                            id: self.blobs@[j].id,
                            aabb: self.blobs@[j].collision_aabb,
                        }),
                    ii < self.blobs@.len(),
                    found@ == found_seq,
                    found_seq == grid.spec_query(rect),
                    rect == self.blobs@[ii as int].collision_aabb,
                    my_id == self.blobs@[ii as int].id,
                    kk <= found_seq.len(),
                    forall|a: BlobId, b: BlobId|
                        #[trigger] pairs@.contains((a, b)) <==> self.pair_candidate_upto(
                            a,
                            b,
                            ii as int,
                        ) || (a == my_id && a < b && exists|k: int|
                            0 <= k < kk && (#[trigger] found_seq[k]).id == b),
                decreases found_seq.len() - kk,
            {
                let other = found[kk];
                let ghost prev_pairs = pairs@;
                if my_id < other.id {
                    pairs.push((my_id, other.id));
                }
                kk = kk + 1;
                proof {
                    assert forall|a: BlobId, b: BlobId| #[trigger]
                        pairs@.contains((a, b)) <==> self.pair_candidate_upto(a, b, ii as int)
                            || (a == my_id && a < b && exists|k: int|
                            0 <= k < kk && (#[trigger] found_seq[k]).id == b) by {
                        if my_id < other.id {
                            assert(pairs@ == prev_pairs.push((my_id, other.id)));
                            assert(pairs@[pairs@.len() - 1] == (my_id, other.id));
                            if pairs@.contains((a, b)) {
                                let p = choose|p: int|
                                    0 <= p < pairs@.len() && pairs@[p] == (a, b);
                                if p < pairs@.len() - 1 {
                                    assert(prev_pairs[p] == (a, b));
                                    assert(prev_pairs.contains((a, b)));
                                } else {
                                    assert((a, b) == (my_id, other.id));
                                    assert(found_seq[kk - 1].id == b);
                                }
                            }
                            if self.pair_candidate_upto(a, b, ii as int) || (a == my_id && a < b
                                && exists|k: int|
                                0 <= k < kk && (#[trigger] found_seq[k]).id == b) {
                                if self.pair_candidate_upto(a, b, ii as int) || (a == my_id && a
                                    < b && exists|k: int|
                                    0 <= k < kk - 1 && (#[trigger] found_seq[k]).id == b) {
                                    assert(prev_pairs.contains((a, b)));
                                    let p = choose|p: int|
                                        0 <= p < prev_pairs.len() && prev_pairs[p] == (a, b);
                                    assert(pairs@[p] == (a, b));
                                } else {
                                    assert(a == my_id && a < b && found_seq[kk - 1].id == b);
                                    assert((a, b) == (my_id, other.id));
                                }
                            }
                        } else {
                            if a == my_id && a < b && found_seq[kk - 1].id == b {
                                assert(b == other.id && my_id < b);
                                assert(false);
                            }
                            if pairs@.contains((a, b)) {
                            }
                        }
                    }
                }
            }
            proof {
                let ghost n = self.blobs@.len() as int;
                assert forall|a: BlobId, b: BlobId| #[trigger]
                    pairs@.contains((a, b)) <==> self.pair_candidate_upto(
                    a,
                    b,
                    ii as int + 1,
                ) by {
                    if pairs@.contains((a, b)) {
                        if self.pair_candidate_upto(a, b, ii as int) {
                            assert(self.pair_candidate_upto(a, b, ii as int + 1));
                        } else {
                            let k = choose|k: int| 0 <= k < found_seq.len() && (
                            #[trigger] found_seq[k]).id == b;
                            let t = found_seq[k];
                            assert(found_seq.contains(t));
                            grid.lemma_query_exact(sweeps_seq, rect, t);
                            assert(sweeps_seq.contains(t));
                            let j = choose|j: int|
                                0 <= j < sweeps_seq.len() && sweeps_seq[j] == t;
                            assert(self.spec_blobs()[j].id == b);
                            assert(Rect::spec_collides(
                                self.spec_blobs()[j].collision_aabb,
                                self.spec_blobs()[ii as int].collision_aabb,
                            ));
                            assert(self.pair_candidate_upto(a, b, ii as int + 1));
                        }
                    }
                    if self.pair_candidate_upto(a, b, ii as int + 1) {
                        if self.pair_candidate_upto(a, b, ii as int) {
                            assert(pairs@.contains((a, b)));
                        } else {
                            let (i0, j0) = choose|i0: int, j0: int|
                                #![trigger self.spec_blobs()[i0], self.spec_blobs()[j0]]
                                {
                                    &&& 0 <= i0 < ii as int + 1
                                    &&& 0 <= j0 < n
                                    &&& self.spec_blobs()[i0].id == a
                                    &&& self.spec_blobs()[j0].id == b
                                    &&& Rect::spec_collides(
                                        self.spec_blobs()[j0].collision_aabb,
                                        self.spec_blobs()[i0].collision_aabb,
                                    )
                                };
                            if i0 < ii as int {
                                assert(self.pair_candidate_upto(a, b, ii as int));
                            } else {
                                assert(i0 == ii as int);
                                assert(a == my_id);
                                let t = sweeps_seq[j0];
                                assert(t.id == b && t.aabb
                                    == self.spec_blobs()[j0].collision_aabb);
                                grid.lemma_query_exact(sweeps_seq, rect, t);
                                assert(found_seq.contains(t));
                                let k = choose|k: int|
                                    0 <= k < found_seq.len() && found_seq[k] == t;
                                assert(found_seq[k].id == b);
                                assert(pairs@.contains((a, b)));
                            }
                        }
                    }
                }
            }
            ii = ii + 1;
        }
        pairs
    }

    /// Advances the world by one tick of `dt` milliseconds: queued inputs
    /// become forces on their bodies (inputs for absent identities are
    /// ignored), every body takes one integration step, and the broad
    /// phase runs over the fresh swept boxes. The narrow-phase hook
    /// receives the candidate pairs but applies no response yet, so no
    /// events are produced: with no inputs at all, every body still
    /// advances by exactly one drag-and-integration step.
    pub fn simulate(&mut self, inputs: &HashMap<BlobId, Vec<InputEvent>>, dt: i64) -> (r: Vec<
        Event,
    >)
        requires
            old(self).wf(),
            0 <= dt <= DT_LIMIT,
            old(self).ready(dt as int, inputs@),
        ensures
            final(self).wf(),
            final(self).spec_rect() == old(self).spec_rect(),
            final(self).spec_blobs().len() == old(self).spec_blobs().len(),
            forall|i: int|
                0 <= i < old(self).spec_blobs().len() ==> #[trigger] final(self).spec_blobs()[i]
                    == spec_update(
                    apply_events(
                        old(self).spec_blobs()[i],
                        events_for(inputs@, old(self).spec_blobs()[i].id),
                        dt as int,
                    ),
                    dt as int,
                ),
            r@ == Seq::<Event>::empty(),
    {
        let ghost old_blobs = self.blobs@;
        let mut i: usize = 0;
        while i < self.blobs.len()
            invariant
                old(self).wf(),
                old(self).ready(dt as int, inputs@),
                0 <= dt <= DT_LIMIT,
                old_blobs == old(self).spec_blobs(),
                self.rect == old(self).rect,
                self.blobs@.len() == old_blobs.len(),
                i <= self.blobs@.len(),
                forall|j: int|
                    i <= j < old_blobs.len() ==> #[trigger] self.blobs@[j] == old_blobs[j],
                forall|j: int|
                    0 <= j < i ==> #[trigger] self.blobs@[j] == spec_update(
                        apply_events(
                            old_blobs[j],
                            events_for(inputs@, old_blobs[j].id),
                            dt as int,
                        ),
                        dt as int,
                    ),
            decreases self.blobs@.len() - i,
        {
            let mut b = self.blobs[i];
            let ghost b0 = b;
            proof {
                assert(old(self).spec_blobs()[i as int] == b0);
                assert(Simulation::blob_ready(b0, dt as int));
            }
            match inputs.get(&b.id) {
                Some(events) => {
                    let ghost evs = events@;
                    proof {
                        assert(inputs@.contains_key(b0.id) && inputs@[b0.id] == *events);
                        assert(evs == events_for(inputs@, b0.id));
                        assert(evs.len() <= MAX_INPUTS);
                        assert(b == apply_events(b0, evs.take(0), dt as int)) by {
                            assert(evs.take(0) =~= Seq::<InputEvent>::empty());
                        }
                    }
                    let mut j: usize = 0;
                    while j < events.len()
                        invariant
                            0 <= dt <= DT_LIMIT,
                            Simulation::blob_ready(b0, dt as int),
                            evs == events@,
                            evs.len() <= MAX_INPUTS,
                            j <= evs.len(),
                            b == apply_events(b0, evs.take(j as int), dt as int),
                        decreases evs.len() - j,
                    {
                        proof {
                            lemma_apply_events_props(b0, evs.take(j as int), dt as int);
                            lemma_spec_cos_sin_bounds(b.rotation as int);
                        }
                        let e = events[j];
                        match e {
                            InputEvent::Forward => {
                                let c = cos_milli(b.rotation);
                                let s = sin_milli(b.rotation);
                                proof {
                                    lemma_mul_bounds(
                                        c as int * THRUST as int,
                                        100_000_000,
                                        dt as int,
                                        DT_LIMIT as int,
                                    );
                                    lemma_mul_bounds(
                                        s as int * THRUST as int,
                                        100_000_000,
                                        dt as int,
                                        DT_LIMIT as int,
                                    );
                                }
                                let wx: i128 = ((c as i128) * (THRUST as i128)) * (dt as i128);
                                let wy: i128 = ((s as i128) * (THRUST as i128)) * (dt as i128);
                                proof {
                                    lemma_div_trunc_abs(
                                        wx as int,
                                        (MILLI * MILLI) as int,
                                        100_000_000_000,
                                    );
                                    lemma_div_trunc_abs(
                                        wy as int,
                                        (MILLI * MILLI) as int,
                                        100_000_000_000,
                                    );
                                }
                                let dx = div_trunc(wx, (MILLI * MILLI) as i128);
                                let dy = div_trunc(wy, (MILLI * MILLI) as i128);
                                b.force.x = b.force.x + dx as i64;
                                b.force.y = b.force.y + dy as i64;
                            },
                            InputEvent::Backward => {
                                let c = cos_milli(b.rotation);
                                let s = sin_milli(b.rotation);
                                proof {
                                    lemma_mul_bounds(
                                        c as int * THRUST as int,
                                        100_000_000,
                                        dt as int,
                                        DT_LIMIT as int,
                                    );
                                    lemma_mul_bounds(
                                        s as int * THRUST as int,
                                        100_000_000,
                                        dt as int,
                                        DT_LIMIT as int,
                                    );
                                }
                                let wx: i128 = ((c as i128) * (THRUST as i128)) * (dt as i128);
                                let wy: i128 = ((s as i128) * (THRUST as i128)) * (dt as i128);
                                proof {
                                    lemma_div_trunc_abs(
                                        wx as int,
                                        ((MILLI * MILLI) * 2) as int,
                                        100_000_000_000,
                                    );
                                    lemma_div_trunc_abs(
                                        wy as int,
                                        ((MILLI * MILLI) * 2) as int,
                                        100_000_000_000,
                                    );
                                }
                                let dx = div_trunc(wx, ((MILLI * MILLI) * 2) as i128);
                                let dy = div_trunc(wy, ((MILLI * MILLI) * 2) as i128);
                                b.force.x = b.force.x - dx as i64;
                                b.force.y = b.force.y - dy as i64;
                            },
                            InputEvent::TurnLeft => {
                                b.angular_force = b.angular_force - ANGLE_THRUST * dt;
                            },
                            InputEvent::TurnRight => {
                                b.angular_force = b.angular_force + ANGLE_THRUST * dt;
                            },
                        }
                        proof {
                            lemma_take_step(evs, j as int);
                            lemma_apply_push(b0, evs.take(j as int), evs[j as int], dt as int);
                            assert(b == apply_events(b0, evs.take(j as int + 1), dt as int));
                        }
                        j = j + 1;
                    }
                    proof {
                        lemma_take_all(evs);
                        assert(b == apply_events(b0, events_for(inputs@, b0.id), dt as int));
                    }
                },
                None => {
                    proof {
                        assert(!inputs@.contains_key(b0.id));
                        assert(events_for(inputs@, b0.id) =~= Seq::<InputEvent>::empty());
                        assert(b == apply_events(b0, events_for(inputs@, b0.id), dt as int));
                    }
                },
            }
            proof {
                lemma_apply_events_props(b0, events_for(inputs@, b0.id), dt as int);
                assert(events_for(inputs@, b0.id).len() <= MAX_INPUTS) by {
                    if inputs@.contains_key(b0.id) {
                    }
                }
                assert(update_ready(b, dt as int));
            }
            b.update(dt);
            self.blobs.set(i, b);
            i = i + 1;
        }
        proof {
            assert forall|j: int, k: int|
                #![trigger self.blobs@[j].id, self.blobs@[k].id]
                0 <= j < k < self.blobs@.len() implies self.blobs@[j].id != self.blobs@[k].id by {
                lemma_apply_events_props(
                    old_blobs[j],
                    events_for(inputs@, old_blobs[j].id),
                    dt as int,
                );
                lemma_apply_events_props(
                    old_blobs[k],
                    events_for(inputs@, old_blobs[k].id),
                    dt as int,
                );
                assert(self.blobs@[j].id == old_blobs[j].id);
                assert(self.blobs@[k].id == old_blobs[k].id);
                assert(old(self).spec_blobs()[j].id != old(self).spec_blobs()[k].id);
            }
            assert(self.wf());
            assert forall|j: int| 0 <= j < self.spec_blobs().len() implies {
                &&& (#[trigger] self.spec_blobs()[j]).collision_aabb.is_valid()
                &&& coord_bounded(self.spec_blobs()[j].collision_aabb.bottom_left)
                &&& coord_bounded(self.spec_blobs()[j].collision_aabb.top_right)
            } by {
                lemma_apply_events_props(
                    old_blobs[j],
                    events_for(inputs@, old_blobs[j].id),
                    dt as int,
                );
                let applied = apply_events(
                    old_blobs[j],
                    events_for(inputs@, old_blobs[j].id),
                    dt as int,
                );
                assert(update_ready(applied, dt as int));
                lemma_update_box(applied, dt as int);
            }
            assert(self.boxes_ready());
        }
        // Narrow-phase hook: the broad phase identifies candidate pairs,
        // but no collision response is applied to them yet.
        let _candidates = self.collision_candidates();
        let result: Vec<Event> = Vec::new();
        proof {
            assert(result@ =~= Seq::<Event>::empty());
        }
        result
    }

    /// Every live body, copied out for the host to draw. The region is
    /// accepted for future culling but deliberately unused: every body is
    /// returned regardless of it.
    pub fn objects(&self, rect: Rect) -> (r: Vec<Blob>)
        ensures
            r@ == self.spec_blobs(),
    {
        let mut out: Vec<Blob> = Vec::new();
        let mut i: usize = 0;
        while i < self.blobs.len()
            invariant
                i <= self.blobs@.len(),
                out@ == self.blobs@.take(i as int),
            decreases self.blobs@.len() - i,
        {
            out.push(self.blobs[i]);
            proof {
                lemma_take_step(self.blobs@, i as int);
            }
            i = i + 1;
        }
        proof {
            lemma_take_all(self.blobs@);
        }
        out
    }
}

} // verus!
