use vstd::prelude::*;
use crate::config::Config;
use crate::geom::dist2;
use crate::model::{ThingModel, SimModel, clear_grown, branch_step_one, pass_a, grow_one,
    pass_b, spec_step, collision, in_growth_range, kill_cond, activate_one, attempt_branch,
    feed_children};
use crate::wf::{thing_wf, pop_wf, sim_wf, lemma_clear_grown_wf, lemma_pass_a_wf,
    lemma_activate_one_wf, lemma_attempt_branch_wf, lemma_feed_children_wf};

verus! {

// The general laws of the simulation, each stated over the model that
// the executable functions are proved against.

/// Whether entity `j` of the population lies within radius `r` of the
/// query point: the brute-force characterization of a radius query.
pub open spec fn range_hit(pop: Seq<ThingModel>, j: int, qx: int, qy: int, r: int) -> bool {
    0 <= j < pop.len() && dist2(pop[j].x, pop[j].y, qx, qy) <= r * r
}

/// Index/brute-force equivalence: any two answers that satisfy the
/// radius-query contract hold exactly the same indices, so the
/// spatial index returns exactly what an exhaustive scan over the
/// population returns, whatever the insertion order or tree shape.
/// `Simulation::neighbors_within` (through the index) and
/// `Simulation::scan_within` (by exhaustive scan) both carry that
/// contract.
pub proof fn lemma_index_equals_scan(pop: Seq<ThingModel>, qx: int, qy: int, r: int,
    a: Seq<usize>, b: Seq<usize>)
    requires
        forall|j: usize| #[trigger] a.contains(j) <==> range_hit(pop, j as int, qx, qy, r),
        forall|j: usize| #[trigger] b.contains(j) <==> range_hit(pop, j as int, qx, qy, r),
    ensures
        forall|j: usize| #[trigger] a.contains(j) <==> b.contains(j),
{
}

/// Forest invariant: in every well-formed state, an entity's parent
/// was created strictly earlier, and the entity is registered in its
/// parent's child list. Constructors establish well-formedness and
/// `spec_step` preserves it, so this holds after any number of steps.
pub proof fn lemma_forest_invariant(c: Config, s: SimModel, i: int)
    requires
        sim_wf(c, s),
        0 <= i < s.pop.len(),
        s.pop[i].parent is Some,
    ensures
        0 <= s.pop[i].parent->0 < i,
        s.pop[s.pop[i].parent->0].children.contains(i),
{
    assert(thing_wf(c, s.pop, i));
}

/// Determinism: the successor state is a function of the
/// configuration and the current state alone. Together with the
/// constructors, which pin the initial state as a function of the
/// configuration, the seed and the initial entities, two simulations
/// built alike and stepped equally often have equal populations.
pub proof fn lemma_step_deterministic(c1: Config, c2: Config, a: SimModel, b: SimModel)
    requires
        c1 == c2,
        a == b,
    ensures
        spec_step(c1, a) == spec_step(c2, b),
{
}

/// One growth turn leaves every other entity alone.
proof fn lemma_grow_one_frame(c: Config, stored: Seq<ThingModel>, n0: int, s: SimModel,
    i: int, m: int)
    requires
        0 <= i < s.pop.len(),
    ensures
        grow_one(c, stored, n0, s, i).pop.len() == s.pop.len(),
        m != i && 0 <= m < s.pop.len() ==> grow_one(c, stored, n0, s, i).pop[m] == s.pop[m],
{
}

/// Entities at or past turn `k` of the growth pass still stand as the
/// pass found them.
proof fn lemma_pass_b_untouched(c: Config, stored: Seq<ThingModel>, n0: int, s: SimModel,
    k: int, m: int)
    requires
        0 <= k,
        k <= m < s.pop.len(),
    ensures
        pass_b(c, stored, n0, s, k).pop.len() == s.pop.len(),
        pass_b(c, stored, n0, s, k).pop[m] == s.pop[m],
    decreases k,
{
    if k > 0 {
        lemma_pass_b_untouched(c, stored, n0, s, k - 1, m);
        lemma_pass_b_len(c, stored, n0, s, k - 1);
        lemma_grow_one_frame(c, stored, n0, pass_b(c, stored, n0, s, k - 1), k - 1, m);
    }
}

/// The growth pass never changes the population's length.
proof fn lemma_pass_b_len(c: Config, stored: Seq<ThingModel>, n0: int, s: SimModel, k: int)
    requires
        k <= s.pop.len(),
    ensures
        pass_b(c, stored, n0, s, k).pop.len() == s.pop.len(),
    decreases k,
{
    if k > 0 {
        lemma_pass_b_len(c, stored, n0, s, k - 1);
        lemma_grow_one_frame(c, stored, n0, pass_b(c, stored, n0, s, k - 1), k - 1, k - 1);
    }
}

/// After an entity's turn in the growth pass, later turns leave it
/// alone.
proof fn lemma_pass_b_later(c: Config, stored: Seq<ThingModel>, n0: int, s: SimModel,
    k: int, m: int)
    requires
        0 <= m,
        m + 1 <= k <= s.pop.len(),
    ensures
        pass_b(c, stored, n0, s, k).pop.len() == s.pop.len(),
        m < s.pop.len()
            ==> pass_b(c, stored, n0, s, k).pop[m] == pass_b(c, stored, n0, s, m + 1).pop[m],
    decreases k,
{
    lemma_pass_b_len(c, stored, n0, s, k);
    if k > m + 1 {
        lemma_pass_b_later(c, stored, n0, s, k - 1, m);
        lemma_pass_b_len(c, stored, n0, s, k - 1);
        lemma_grow_one_frame(c, stored, n0, pass_b(c, stored, n0, s, k - 1), k - 1, m);
    }
}

/// One branch turn keeps every entity's parent reference.
proof fn lemma_branch_step_one_parent(c: Config, s: SimModel, n0: int, i: int, m: int)
    requires
        sim_wf(c, s),
        0 <= i < s.pop.len(),
        0 <= m < s.pop.len(),
    ensures
        branch_step_one(c, s, n0, i).pop.len() >= s.pop.len(),
        branch_step_one(c, s, n0, i).pop[m].parent == s.pop[m].parent,
        branch_step_one(c, s, n0, i).pop[m].alive ==> s.pop[m].alive,
        branch_step_one(c, s, n0, i).pop[m].size == s.pop[m].size,
        branch_step_one(c, s, n0, i).pop[m].x == s.pop[m].x,
        branch_step_one(c, s, n0, i).pop[m].y == s.pop[m].y,
{
    lemma_activate_one_wf(c, s, i);
    let s1 = activate_one(c, s, i);
    let t1 = s1.pop[i];
    if t1.energy > c.branch_threshold {
        let r1 = crate::rng::rng_next(s1.rng);
        let s2 = SimModel { rng: r1, ..s1 };
        let s3 = if (r1 as int) % (c.branch_den as int) < c.branch_num {
            lemma_attempt_branch_wf(c, s2, n0, i);
            attempt_branch(c, s2, n0, i)
        } else {
            s2
        };
        assert(s3.pop[m].parent == s.pop[m].parent);
        let t3 = s3.pop[i];
        if t3.energy > c.branch_threshold && t3.children.len() > 0 {
            let t4 = ThingModel { energy: t3.energy - 1, ..t3 };
            let pop4 = s3.pop.update(i, t4);
            assert(pop_wf(c, pop4)) by {
                assert forall|j: int| 0 <= j < pop4.len()
                    implies #[trigger] thing_wf(c, pop4, j) by {
                    assert(thing_wf(c, s3.pop, j));
                    match s3.pop[j].parent {
                        Some(p) => {
                            assert(s3.pop[p].children.contains(j));
                            assert(pop4[p].children == s3.pop[p].children);
                        },
                        None => {},
                    }
                }
            }
            lemma_feed_children_wf(c, pop4, t4.children, t4.children.len() as int);
        }
    }
}

/// The branch pass keeps every entity's parent, aliveness only ever
/// falls, and geometry stands still.
proof fn lemma_pass_a_frame(c: Config, s: SimModel, n0: int, k: int, m: int)
    requires
        sim_wf(c, s),
        0 <= k <= s.pop.len(),
        n0 <= s.pop.len(),
        0 <= m < s.pop.len(),
    ensures
        pass_a(c, s, n0, k).pop.len() >= s.pop.len(),
        pass_a(c, s, n0, k).pop[m].parent == s.pop[m].parent,
        pass_a(c, s, n0, k).pop[m].alive ==> s.pop[m].alive,
        pass_a(c, s, n0, k).pop[m].size == s.pop[m].size,
        pass_a(c, s, n0, k).pop[m].x == s.pop[m].x,
        pass_a(c, s, n0, k).pop[m].y == s.pop[m].y,
    decreases k,
{
    if k > 0 {
        lemma_pass_a_frame(c, s, n0, k - 1, m);
        lemma_pass_a_wf(c, s, n0, k - 1);
        lemma_branch_step_one_parent(c, pass_a(c, s, n0, k - 1), n0, k - 1, m);
    }
}

/// What one growth turn does to the entity it handles: its size never
/// falls, a dead entity stays dead and keeps its size, and growth
/// happens only to a live, marked, uncollided entity under the cap.
proof fn lemma_grow_one_self(c: Config, stored: Seq<ThingModel>, n0: int, s: SimModel, i: int)
    requires
        0 <= i < s.pop.len(),
        c.valid(),
    ensures
        grow_one(c, stored, n0, s, i).pop.len() == s.pop.len(),
        grow_one(c, stored, n0, s, i).pop[i].size >= s.pop[i].size,
        !s.pop[i].alive ==> grow_one(c, stored, n0, s, i).pop[i].size == s.pop[i].size
            && !grow_one(c, stored, n0, s, i).pop[i].alive,
        grow_one(c, stored, n0, s, i).pop[i].size > s.pop[i].size
            ==> !collision(c, stored, n0, s.pop, i)
                && s.pop[i].alive
                && s.pop[i].grown
                && s.pop[i].size <= c.size_cap,
{
}

/// Clearance at growth: an entity that actually grew this step had,
/// from every indexed entity within the growth query radius that was
/// neither itself nor its parent and stood still through the step, at
/// least the two sizes plus the clearance between centers — a
/// collision kills the grower, it is never merely ignored.
///
/// The restriction to stationary partners is what the algorithm
/// warrants: two entities that both grow in one step are each checked
/// against the other's old size and place, so such a pair can end the
/// step closer than the fresh bound.
pub proof fn lemma_growth_clearance(c: Config, s: SimModel, i: int, j: int)
    requires
        sim_wf(c, s),
        0 <= i < s.pop.len(),
        0 <= j < s.pop.len(),
        j != i,
        s.pop[i].parent != Some(j),
        spec_step(c, s).pop[i].size > s.pop[i].size,
        spec_step(c, s).pop[j].size == s.pop[j].size,
        spec_step(c, s).pop[j].x == s.pop[j].x,
        spec_step(c, s).pop[j].y == s.pop[j].y,
        dist2(s.pop[j].x, s.pop[j].y, s.pop[i].x, s.pop[i].y)
            <= c.growth_radius * c.growth_radius,
    ensures
        dist2(s.pop[j].x, s.pop[j].y, s.pop[i].x, s.pop[i].y)
            >= (s.pop[i].size + s.pop[j].size + c.clearance)
                * (s.pop[i].size + s.pop[j].size + c.clearance),
{
    let pop0 = clear_grown(s.pop);
    let s0 = SimModel { pop: pop0, ..s };
    let n0: int = pop0.len() as int;
    lemma_clear_grown_wf(c, s.pop);
    lemma_pass_a_frame(c, s0, n0, n0, i);
    lemma_pass_a_frame(c, s0, n0, n0, j);
    lemma_pass_a_wf(c, s0, n0, n0);
    let s1 = pass_a(c, s0, n0, n0);
    let n1: int = s1.pop.len() as int;
    let pi = pass_b(c, pop0, n0, s1, i);
    lemma_pass_b_untouched(c, pop0, n0, s1, i, i);
    lemma_pass_b_later(c, pop0, n0, s1, n1, i);
    lemma_pass_b_len(c, pop0, n0, s1, i);
    assert(pi.pop[i].x == s.pop[i].x && pi.pop[i].y == s.pop[i].y);
    assert(pi.pop[i].size == s.pop[i].size);
    assert(pi.pop[i].parent == s.pop[i].parent);
    assert(spec_step(c, s).pop[i] == grow_one(c, pop0, n0, pi, i).pop[i]) by {
        assert(pass_b(c, pop0, n0, s1, i + 1) == grow_one(c, pop0, n0, pi, i));
    }
    lemma_grow_one_self(c, pop0, n0, pi, i);
    assert(!collision(c, pop0, n0, pi.pop, i));
    if j < i {
        lemma_pass_b_later(c, pop0, n0, s1, i, j);
        lemma_pass_b_later(c, pop0, n0, s1, n1, j);
        assert(pi.pop[j] == spec_step(c, s).pop[j]);
    } else {
        lemma_pass_b_untouched(c, pop0, n0, s1, i, j);
    }
    assert(pi.pop[j].x == s.pop[j].x && pi.pop[j].y == s.pop[j].y);
    assert(pi.pop[j].size == s.pop[j].size);
    assert(in_growth_range(c, pop0, pi.pop, i, j)) by {
        assert(pop0[j].x == s.pop[j].x && pop0[j].y == s.pop[j].y);
    }
    assert(!kill_cond(c, pi.pop, i, j));
    assert(pi.pop[i].parent != Some(j));
    assert(dist2(pi.pop[j].x, pi.pop[j].y, pi.pop[i].x, pi.pop[i].y)
        >= (pi.pop[i].size + pi.pop[j].size + c.clearance)
            * (pi.pop[i].size + pi.pop[j].size + c.clearance));
}

/// Monotonic size: across one step, no entity shrinks; an entity that
/// is dead going into the step keeps its size exactly and stays dead.
pub proof fn lemma_size_monotone(c: Config, s: SimModel, i: int)
    requires
        sim_wf(c, s),
        0 <= i < s.pop.len(),
    ensures
        spec_step(c, s).pop.len() >= s.pop.len(),
        spec_step(c, s).pop[i].size >= s.pop[i].size,
        !s.pop[i].alive ==> spec_step(c, s).pop[i].size == s.pop[i].size
            && !spec_step(c, s).pop[i].alive,
{
    let pop0 = clear_grown(s.pop);
    let s0 = SimModel { pop: pop0, ..s };
    let n0: int = pop0.len() as int;
    lemma_clear_grown_wf(c, s.pop);
    assert(pop0[i].size == s.pop[i].size && pop0[i].alive == s.pop[i].alive
        && pop0[i].x == s.pop[i].x && pop0[i].y == s.pop[i].y);
    lemma_pass_a_frame(c, s0, n0, n0, i);
    lemma_pass_a_wf(c, s0, n0, n0);
    let s1 = pass_a(c, s0, n0, n0);
    let n1: int = s1.pop.len() as int;
    lemma_pass_b_later(c, pop0, n0, s1, n1, i);
    lemma_pass_b_untouched(c, pop0, n0, s1, i, i);
    lemma_pass_b_len(c, pop0, n0, s1, i);
    lemma_grow_one_self(c, pop0, n0, pass_b(c, pop0, n0, s1, i), i);
    assert(pass_b(c, pop0, n0, s1, i + 1)
        == grow_one(c, pop0, n0, pass_b(c, pop0, n0, s1, i), i));
}

} // verus!
