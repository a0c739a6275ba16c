use vstd::prelude::*;
use crate::config::{Config, pos_bound};
use crate::geom::{dist2, isqrt_spec, scale_away};
use crate::rng::rng_next;
use crate::angle::{base_dir, pow19_scaled, wrap_dir, frac_of, dir_offset};

verus! {

// The mathematical model of a simulation. A step of the executable
// simulation is proved equal to `spec_step` on this model, so the
// whole update is pinned as a pure function of the previous state:
// every consequence of the step algorithm can be read off these
// definitions, and two runs from the same seed cannot diverge.

/// Model of one entity.
#[verifier::ext_equal]
pub ghost struct ThingModel {
    /// Position on the plane.
    pub x: int,
    /// Position on the plane.
    pub y: int,
    /// Radius; never decreases while the entity lives.
    pub size: int,
    /// Energy accumulator driving branching and growth.
    pub energy: int,
    /// Branch angle as a signed fraction of a half turn at scale
    /// `DIR_HALF`, kept only for readers of the snapshot.
    pub frac: int,
    /// Cleared when the entity dies; dead entities stay as obstacles.
    pub alive: bool,
    /// Transient per-step mark: eligible to grow this step.
    pub grown: bool,
    /// Depth from the root of its tree.
    pub generation: int,
    /// Index of the entity this one branched from; `None` for roots.
    pub parent: Option<int>,
    /// Indices of the entities that branched from this one.
    pub children: Seq<int>,
}

/// Model of a whole simulation state.
#[verifier::ext_equal]
pub ghost struct SimModel {
    /// All entities ever created, in creation order.
    pub pop: Seq<ThingModel>,
    /// State of the random-number source.
    pub rng: u64,
    /// Steps taken so far.
    pub steps: int,
}

/// Addition on the `u64` range, saturating at its top.
pub open spec fn sat_add_u64(a: int, b: int) -> int {
    if a + b > u64::MAX {
        u64::MAX as int
    } else {
        a + b
    }
}

/// The population with every `grown` mark cleared, as each step
/// starts.
pub open spec fn clear_grown(pop: Seq<ThingModel>) -> Seq<ThingModel> {
    Seq::new(pop.len(), |i: int| ThingModel { grown: false, ..pop[i] })
}

/// Root activation for entity `i`: while the step count is below the
/// cutoff, a live root receives `root_energy` and is marked grown.
pub open spec fn activate_one(c: Config, s: SimModel, i: int) -> SimModel {
    let t = s.pop[i];
    if t.parent is None && s.steps < c.activation_cutoff && t.alive {
        SimModel {
            pop: s.pop.update(i, ThingModel {
                energy: sat_add_u64(t.energy, c.root_energy as int),
                grown: true,
                ..t
            }),
            ..s
        }
    } else {
        s
    }
}

/// The candidate direction for a branch from entity `i`, and the
/// random state after the draws it consumes: one draw for the free
/// angle, and for entities with a parent one more for the power-law
/// perturbation around the direction from the parent.
pub open spec fn branch_dir(s: SimModel, i: int) -> (int, u64) {
    let r2 = rng_next(s.rng);
    let t = s.pop[i];
    match t.parent {
        Some(p) => {
            let base: int = base_dir(t.x - s.pop[p].x, t.y - s.pop[p].y);
            let r3 = rng_next(r2);
            let v: int = (r3 as int) % 65537 - 32768;
            let delta: int = pow19_scaled(v);
            (wrap_dir(base + delta), r3)
        },
        None => ((r2 as int) % 65536, r2),
    }
}

/// Whether entity `j` lies within the branch query radius of `(cx, cy)`.
pub open spec fn in_branch_range(c: Config, pop: Seq<ThingModel>, j: int, cx: int, cy: int) -> bool {
    dist2(pop[j].x, pop[j].y, cx, cy) <= c.branch_radius * c.branch_radius
}

/// Whether entity `j` stands closer to `(cx, cy)` than its own size
/// plus the size a new entity is born with.
pub open spec fn too_close(c: Config, pop: Seq<ThingModel>, j: int, cx: int, cy: int) -> bool {
    dist2(pop[j].x, pop[j].y, cx, cy)
        < (pop[j].size + c.initial_size) * (pop[j].size + c.initial_size)
}

/// Whether some entity indexed by the spatial index blocks a candidate
/// at `(cx, cy)`: it is within the branch query radius of the
/// candidate and closer to it than its own size plus the size a new
/// entity is born with.
pub open spec fn blocked(c: Config, pop: Seq<ThingModel>, n0: int, cx: int, cy: int) -> bool {
    exists|j: int| 0 <= j < n0
        && #[trigger] in_branch_range(c, pop, j, cx, cy)
        && too_close(c, pop, j, cx, cy)
}

/// A branch attempt by entity `i` (the probability draw has already
/// succeeded). One energy unit is deducted whether or not the
/// candidate is accepted; on acceptance the child is appended, the
/// parent records it and goes dormant.
pub open spec fn attempt_branch(c: Config, s: SimModel, n0: int, i: int) -> SimModel {
    let dr = branch_dir(s, i);
    let dir: int = dr.0;
    let rng2: u64 = dr.1;
    let t = s.pop[i];
    let len: int = t.size + c.initial_size;
    let off = dir_offset(dir, len);
    let cx: int = t.x + off.0;
    let cy: int = t.y + off.1;
    let out_of_domain = cx > c.half_extent || cx < -c.half_extent
        || cy > c.half_extent || cy < -c.half_extent;
    if out_of_domain || blocked(c, s.pop, n0, cx, cy) {
        SimModel {
            pop: s.pop.update(i, ThingModel { energy: t.energy - 1, ..t }),
            rng: rng2,
            ..s
        }
    } else {
        let child = ThingModel {
            x: cx,
            y: cy,
            size: c.initial_size as int,
            energy: 0,
            frac: frac_of(dir),
            alive: true,
            grown: false,
            generation: t.generation + 1,
            parent: Some(i),
            children: Seq::empty(),
        };
        let parent2 = ThingModel {
            alive: false,
            energy: t.energy - 1,
            children: t.children.push(s.pop.len() as int),
            ..t
        };
        SimModel { pop: s.pop.update(i, parent2).push(child), rng: rng2, ..s }
    }
}

/// The first `k` children in `kids` each receive `child_energy` and
/// the grown mark.
pub open spec fn feed_children(c: Config, pop: Seq<ThingModel>, kids: Seq<int>, k: int) -> Seq<ThingModel>
    decreases k,
{
    if k <= 0 {
        pop
    } else {
        let pop2 = feed_children(c, pop, kids, k - 1);
        let ch: int = kids[k - 1];
        if 0 <= ch < pop2.len() {
            pop2.update(ch, ThingModel {
                energy: sat_add_u64(pop2[ch].energy, c.child_energy as int),
                grown: true,
                ..pop2[ch]
            })
        } else {
            pop2
        }
    }
}

/// Energy propagation by entity `i`: if it still holds more than the
/// threshold and has children, it pays one unit and feeds every child.
pub open spec fn propagate_one(c: Config, s: SimModel, i: int) -> SimModel {
    let t = s.pop[i];
    if t.energy > c.branch_threshold && t.children.len() > 0 {
        let t2 = ThingModel { energy: t.energy - 1, ..t };
        let pop2 = s.pop.update(i, t2);
        SimModel { pop: feed_children(c, pop2, t2.children, t2.children.len() as int), ..s }
    } else {
        s
    }
}

/// The whole activation/branch/propagation turn of entity `i`.
pub open spec fn branch_step_one(c: Config, s: SimModel, n0: int, i: int) -> SimModel {
    let s1 = activate_one(c, s, i);
    let t1 = s1.pop[i];
    if t1.energy > c.branch_threshold {
        let r1 = rng_next(s1.rng);
        let s2 = SimModel { rng: r1, ..s1 };
        let s3 = if (r1 as int) % (c.branch_den as int) < c.branch_num {
            attempt_branch(c, s2, n0, i)
        } else {
            s2
        };
        propagate_one(c, s3, i)
    } else {
        s1
    }
}

/// The branch pass over the first `k` entities, in index order.
pub open spec fn pass_a(c: Config, s: SimModel, n0: int, k: int) -> SimModel
    decreases k,
{
    if k <= 0 {
        s
    } else {
        branch_step_one(c, pass_a(c, s, n0, k - 1), n0, k - 1)
    }
}

/// Whether the stored position of entity `j` lies within the growth
/// query radius of entity `i`'s current position.
pub open spec fn in_growth_range(c: Config, stored: Seq<ThingModel>, pop: Seq<ThingModel>, i: int, j: int) -> bool {
    dist2(stored[j].x, stored[j].y, pop[i].x, pop[i].y)
        <= c.growth_radius * c.growth_radius
}

/// Whether entity `j`, neither `i` itself nor its parent, now stands
/// closer to `i` than the two sizes plus the clearance.
pub open spec fn kill_cond(c: Config, pop: Seq<ThingModel>, i: int, j: int) -> bool {
    &&& j != i
    &&& pop[i].parent != Some(j)
    &&& dist2(pop[j].x, pop[j].y, pop[i].x, pop[i].y)
            < (pop[i].size + pop[j].size + c.clearance) * (pop[i].size + pop[j].size + c.clearance)
}

/// Whether the growth of entity `i` collides: some other indexed
/// entity, not its parent, whose stored position is within the growth
/// query radius, now stands closer than the two sizes plus the
/// clearance.
pub open spec fn collision(c: Config, stored: Seq<ThingModel>, n0: int, pop: Seq<ThingModel>, i: int) -> bool {
    exists|j: int| 0 <= j < n0
        && #[trigger] in_growth_range(c, stored, pop, i, j)
        && kill_cond(c, pop, i, j)
}

/// The growth turn of entity `i`: a marked entity is killed on
/// collision, killed past the size cap, and otherwise grows; one with
/// a parent is then repositioned to stay in contact with it, unless
/// the vector degenerates or the new position would leave the bound.
pub open spec fn grow_one(c: Config, stored: Seq<ThingModel>, n0: int, s: SimModel, i: int) -> SimModel {
    let t = s.pop[i];
    if !t.grown {
        s
    } else {
        let killed = collision(c, stored, n0, s.pop, i);
        if !t.alive || killed {
            SimModel { pop: s.pop.update(i, ThingModel { alive: false, ..t }), ..s }
        } else if t.size > c.size_cap {
            SimModel { pop: s.pop.update(i, ThingModel { alive: false, ..t }), ..s }
        } else {
            let ns: int = t.size + c.size_incr;
            match t.parent {
                Some(p) => {
                    let px: int = s.pop[p].x;
                    let py: int = s.pop[p].y;
                    let dx: int = t.x - px;
                    let dy: int = t.y - py;
                    let n: int = isqrt_spec(dist2(t.x, t.y, px, py));
                    let tgt: int = ns + s.pop[p].size;
                    let nx: int = if n == 0 { t.x } else { px + scale_away(dx, tgt, n) };
                    let ny: int = if n == 0 { t.y } else { py + scale_away(dy, tgt, n) };
                    let in_b = -pos_bound(c) <= nx <= pos_bound(c)
                        && -pos_bound(c) <= ny <= pos_bound(c);
                    let fx: int = if in_b { nx } else { t.x };
                    let fy: int = if in_b { ny } else { t.y };
                    SimModel {
                        pop: s.pop.update(i, ThingModel { size: ns, x: fx, y: fy, ..t }),
                        ..s
                    }
                },
                None => SimModel { pop: s.pop.update(i, ThingModel { size: ns, ..t }), ..s },
            }
        }
    }
}

/// The growth pass over the first `k` entities, in index order.
pub open spec fn pass_b(c: Config, stored: Seq<ThingModel>, n0: int, s: SimModel, k: int) -> SimModel
    decreases k,
{
    if k <= 0 {
        s
    } else {
        grow_one(c, stored, n0, pass_b(c, stored, n0, s, k - 1), k - 1)
    }
}

/// One full simulation step on the model: clear the grown marks,
/// index the population as it stands, run the branch pass and then
/// the growth pass, and count the step.
pub open spec fn spec_step(c: Config, s: SimModel) -> SimModel {
    let pop0 = clear_grown(s.pop);
    let s0 = SimModel { pop: pop0, ..s };
    let n0: int = pop0.len() as int;
    let s1 = pass_a(c, s0, n0, n0);
    let s2 = pass_b(c, pop0, n0, s1, s1.pop.len() as int);
    SimModel { steps: sat_add_u64(s2.steps, 1), ..s2 }
}

} // verus!
