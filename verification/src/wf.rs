use vstd::prelude::*;
use crate::config::{Config, pos_bound};
use crate::model::{ThingModel, SimModel, clear_grown, activate_one, branch_dir, attempt_branch, feed_children, propagate_one, branch_step_one, pass_a, grow_one, pass_b, spec_step};
use crate::angle::{lemma_base_dir_range, lemma_pow_scaled_bound, frac_of, wrap_dir, pow19_scaled};

verus! {

/// Well-formedness of entity `i` within its population: bounded
/// geometry, ancestry pointing strictly backwards and registered in
/// the parent's child list, and children pointing strictly forwards.
pub open spec fn thing_wf(c: Config, pop: Seq<ThingModel>, i: int) -> bool {
    let t = pop[i];
    &&& -pos_bound(c) <= t.x <= pos_bound(c)
    &&& -pos_bound(c) <= t.y <= pos_bound(c)
    &&& 0 <= t.size <= c.size_cap + c.size_incr
    &&& 0 <= t.energy <= u64::MAX
    &&& -32768 <= t.frac <= 32768
    &&& 0 <= t.generation <= i
    &&& match t.parent {
        Some(p) => 0 <= p < i && pop[p].children.contains(i),
        None => true,
    }
    &&& forall|k: int| 0 <= k < t.children.len() ==> i < #[trigger] t.children[k] < pop.len()
}

/// Well-formedness of a whole population.
pub open spec fn pop_wf(c: Config, pop: Seq<ThingModel>) -> bool {
    forall|i: int| 0 <= i < pop.len() ==> #[trigger] thing_wf(c, pop, i)
}

/// Well-formedness of a simulation state.
pub open spec fn sim_wf(c: Config, s: SimModel) -> bool {
    &&& c.valid()
    &&& pop_wf(c, s.pop)
    &&& 0 <= s.steps <= u64::MAX
}

/// A population extends another without touching stored geometry:
/// positions and sizes of existing entities are kept.
pub open spec fn same_geometry(a: Seq<ThingModel>, b: Seq<ThingModel>) -> bool {
    &&& a.len() <= b.len()
    &&& forall|j: int| 0 <= j < a.len()
            ==> (#[trigger] b[j]).x == a[j].x && b[j].y == a[j].y && b[j].size == a[j].size
}

/// Clearing the grown marks is well-formed and keeps geometry.
pub proof fn lemma_clear_grown_wf(c: Config, pop: Seq<ThingModel>)
    requires
        pop_wf(c, pop),
    ensures
        pop_wf(c, clear_grown(pop)),
        clear_grown(pop).len() == pop.len(),
        same_geometry(pop, clear_grown(pop)),
        same_geometry(clear_grown(pop), pop),
{
    let pop2 = clear_grown(pop);
    assert forall|i: int| 0 <= i < pop2.len() implies #[trigger] thing_wf(c, pop2, i) by {
        assert(thing_wf(c, pop, i));
        assert(pop2[i] == ThingModel { grown: false, ..pop[i] });
        match pop[i].parent {
            Some(p) => {
                assert(pop[p].children.contains(i));
                assert(pop2[p].children == pop[p].children);
            },
            None => {},
        }
    }
}

/// The candidate direction is a valid number of turn units.
pub proof fn lemma_branch_dir_range(s: SimModel, i: int)
    ensures
        0 <= branch_dir(s, i).0 < 65536,
{
    let t = s.pop[i];
    match t.parent {
        Some(p) => {
            let base: int = base_dir_value(s, i, p);
            lemma_base_dir_range(t.x - s.pop[p].x, t.y - s.pop[p].y);
            let r3 = crate::rng::rng_next(crate::rng::rng_next(s.rng));
            let v: int = (r3 as int) % 65537 - 32768;
            lemma_pow_scaled_bound(v, 18);
        },
        None => {},
    }
}

/// Helper naming the base direction inside `branch_dir`.
spec fn base_dir_value(s: SimModel, i: int, p: int) -> int {
    crate::angle::base_dir(s.pop[i].x - s.pop[p].x, s.pop[i].y - s.pop[p].y)
}

/// Root activation preserves well-formedness and geometry.
pub proof fn lemma_activate_one_wf(c: Config, s: SimModel, i: int)
    requires
        sim_wf(c, s),
        0 <= i < s.pop.len(),
    ensures
        sim_wf(c, activate_one(c, s, i)),
        activate_one(c, s, i).pop.len() == s.pop.len(),
        same_geometry(s.pop, activate_one(c, s, i).pop),
        activate_one(c, s, i).steps == s.steps,
        activate_one(c, s, i).rng == s.rng,
{
    let s2 = activate_one(c, s, i);
    assert forall|j: int| 0 <= j < s2.pop.len() implies #[trigger] thing_wf(c, s2.pop, j) by {
        assert(thing_wf(c, s.pop, j));
        match s.pop[j].parent {
            Some(p) => {
                assert(s.pop[p].children.contains(j));
                assert(s2.pop[p].children == s.pop[p].children);
            },
            None => {},
        }
    }
}

/// Feeding children preserves well-formedness and geometry.
pub proof fn lemma_feed_children_wf(c: Config, pop: Seq<ThingModel>, kids: Seq<int>, k: int)
    requires
        pop_wf(c, pop),
        c.valid(),
    ensures
        pop_wf(c, feed_children(c, pop, kids, k)),
        feed_children(c, pop, kids, k).len() == pop.len(),
        same_geometry(pop, feed_children(c, pop, kids, k)),
        same_geometry(feed_children(c, pop, kids, k), pop),
        forall|j: int| 0 <= j < pop.len()
            ==> (#[trigger] feed_children(c, pop, kids, k)[j]).children == pop[j].children
                && feed_children(c, pop, kids, k)[j].parent == pop[j].parent
                && feed_children(c, pop, kids, k)[j].alive == pop[j].alive
                && feed_children(c, pop, kids, k)[j].generation == pop[j].generation
                && feed_children(c, pop, kids, k)[j].frac == pop[j].frac,
    decreases k,
{
    if k > 0 {
        lemma_feed_children_wf(c, pop, kids, k - 1);
        let pop2 = feed_children(c, pop, kids, k - 1);
        let pop3 = feed_children(c, pop, kids, k);
        let ch: int = kids[k - 1];
        if 0 <= ch < pop2.len() {
            assert forall|j: int| 0 <= j < pop3.len() implies #[trigger] thing_wf(c, pop3, j) by {
                assert(thing_wf(c, pop2, j));
                match pop2[j].parent {
                    Some(p) => {
                        assert(pop2[p].children.contains(j));
                        assert(pop3[p].children == pop2[p].children);
                    },
                    None => {},
                }
            }
        }
    }
}

/// Feeding children never changes the population's length.
pub proof fn lemma_feed_children_len(c: Config, pop: Seq<ThingModel>, kids: Seq<int>, k: int)
    ensures
        feed_children(c, pop, kids, k).len() == pop.len(),
    decreases k,
{
    if k > 0 {
        lemma_feed_children_len(c, pop, kids, k - 1);
    }
}

/// A branch attempt preserves well-formedness; existing geometry is
/// kept and at most one entity is appended.
pub proof fn lemma_attempt_branch_wf(c: Config, s: SimModel, n0: int, i: int)
    requires
        sim_wf(c, s),
        0 <= i < s.pop.len(),
        s.pop[i].energy > c.branch_threshold,
    ensures
        sim_wf(c, attempt_branch(c, s, n0, i)),
        s.pop.len() <= attempt_branch(c, s, n0, i).pop.len() <= s.pop.len() + 1,
        same_geometry(s.pop, attempt_branch(c, s, n0, i).pop),
        attempt_branch(c, s, n0, i).steps == s.steps,
{
    let s2 = attempt_branch(c, s, n0, i);
    lemma_branch_dir_range(s, i);
    let dir: int = branch_dir(s, i).0;
    assert(-32768 <= frac_of(dir) <= 32768);
    assert forall|j: int| 0 <= j < s2.pop.len() implies #[trigger] thing_wf(c, s2.pop, j) by {
        if j < s.pop.len() {
            assert(thing_wf(c, s.pop, j));
            match s.pop[j].parent {
                Some(p) => {
                    assert(s.pop[p].children.contains(j));
                    if s2.pop[p].children == s.pop[p].children {
                    } else {
                        // only the brancher's list changed, by appending
                        let m = choose|m: int| 0 <= m < s.pop[p].children.len()
                            && s.pop[p].children[m] == j;
                        assert(s2.pop[p].children[m] == j);
                        assert(s2.pop[p].children.contains(j));
                    }
                },
                None => {},
            }
        } else {
            // the newly created child
            assert(j == s.pop.len());
            assert(thing_wf(c, s.pop, i));
            assert(s2.pop[i].children.contains(j)) by {
                assert(s2.pop[i].children[s.pop[i].children.len() as int] == j);
            }
        }
    }
}

/// Energy propagation preserves well-formedness and geometry.
pub proof fn lemma_propagate_one_wf(c: Config, s: SimModel, i: int)
    requires
        sim_wf(c, s),
        0 <= i < s.pop.len(),
    ensures
        sim_wf(c, propagate_one(c, s, i)),
        propagate_one(c, s, i).pop.len() == s.pop.len(),
        same_geometry(s.pop, propagate_one(c, s, i).pop),
        propagate_one(c, s, i).steps == s.steps,
        propagate_one(c, s, i).rng == s.rng,
{
    let t = s.pop[i];
    if t.energy > c.branch_threshold && t.children.len() > 0 {
        let t2 = ThingModel { energy: t.energy - 1, ..t };
        let pop2 = s.pop.update(i, t2);
        assert forall|j: int| 0 <= j < pop2.len() implies #[trigger] thing_wf(c, pop2, j) by {
            assert(thing_wf(c, s.pop, j));
            match s.pop[j].parent {
                Some(p) => {
                    assert(s.pop[p].children.contains(j));
                    assert(pop2[p].children == s.pop[p].children);
                },
                None => {},
            }
        }
        lemma_feed_children_wf(c, pop2, t2.children, t2.children.len() as int);
    }
}

/// One whole branch turn preserves well-formedness and geometry.
pub proof fn lemma_branch_step_one_wf(c: Config, s: SimModel, n0: int, i: int)
    requires
        sim_wf(c, s),
        0 <= i < s.pop.len(),
    ensures
        sim_wf(c, branch_step_one(c, s, n0, i)),
        s.pop.len() <= branch_step_one(c, s, n0, i).pop.len() <= s.pop.len() + 1,
        same_geometry(s.pop, branch_step_one(c, s, n0, i).pop),
        branch_step_one(c, s, n0, i).steps == s.steps,
{
    lemma_activate_one_wf(c, s, i);
    let s1 = activate_one(c, s, i);
    let t1 = s1.pop[i];
    if t1.energy > c.branch_threshold {
        let r1 = crate::rng::rng_next(s1.rng);
        let s2 = SimModel { rng: r1, ..s1 };
        assert(sim_wf(c, s2));
        if (r1 as int) % (c.branch_den as int) < c.branch_num {
            lemma_attempt_branch_wf(c, s2, n0, i);
            lemma_propagate_one_wf(c, attempt_branch(c, s2, n0, i), i);
        } else {
            lemma_propagate_one_wf(c, s2, i);
        }
    }
}

/// The branch pass preserves well-formedness and geometry.
pub proof fn lemma_pass_a_wf(c: Config, s: SimModel, n0: int, k: int)
    requires
        sim_wf(c, s),
        0 <= k <= s.pop.len(),
        n0 <= s.pop.len(),
    ensures
        sim_wf(c, pass_a(c, s, n0, k)),
        s.pop.len() <= pass_a(c, s, n0, k).pop.len(),
        same_geometry(s.pop, pass_a(c, s, n0, k).pop),
        pass_a(c, s, n0, k).steps == s.steps,
    decreases k,
{
    if k > 0 {
        lemma_pass_a_wf(c, s, n0, k - 1);
        lemma_branch_step_one_wf(c, pass_a(c, s, n0, k - 1), n0, k - 1);
    }
}

/// One growth turn preserves well-formedness; the population length
/// never changes in the growth pass.
pub proof fn lemma_grow_one_wf(c: Config, stored: Seq<ThingModel>, n0: int, s: SimModel, i: int)
    requires
        sim_wf(c, s),
        0 <= i < s.pop.len(),
    ensures
        sim_wf(c, grow_one(c, stored, n0, s, i)),
        grow_one(c, stored, n0, s, i).pop.len() == s.pop.len(),
        grow_one(c, stored, n0, s, i).steps == s.steps,
        grow_one(c, stored, n0, s, i).rng == s.rng,
{
    let s2 = grow_one(c, stored, n0, s, i);
    assert forall|j: int| 0 <= j < s2.pop.len() implies #[trigger] thing_wf(c, s2.pop, j) by {
        assert(thing_wf(c, s.pop, j));
        assert(thing_wf(c, s.pop, i));
        match s.pop[j].parent {
            Some(p) => {
                assert(s.pop[p].children.contains(j));
                assert(s2.pop[p].children == s.pop[p].children);
            },
            None => {},
        }
    }
}

/// The growth pass preserves well-formedness.
pub proof fn lemma_pass_b_wf(c: Config, stored: Seq<ThingModel>, n0: int, s: SimModel, k: int)
    requires
        sim_wf(c, s),
        0 <= k <= s.pop.len(),
    ensures
        sim_wf(c, pass_b(c, stored, n0, s, k)),
        pass_b(c, stored, n0, s, k).pop.len() == s.pop.len(),
        pass_b(c, stored, n0, s, k).steps == s.steps,
        pass_b(c, stored, n0, s, k).rng == s.rng,
    decreases k,
{
    if k > 0 {
        lemma_pass_b_wf(c, stored, n0, s, k - 1);
        lemma_grow_one_wf(c, stored, n0, pass_b(c, stored, n0, s, k - 1), k - 1);
    }
}

/// A full step preserves well-formedness.
pub proof fn lemma_spec_step_wf(c: Config, s: SimModel)
    requires
        sim_wf(c, s),
    ensures
        sim_wf(c, spec_step(c, s)),
        spec_step(c, s).pop.len() >= s.pop.len(),
{
    lemma_clear_grown_wf(c, s.pop);
    let pop0 = clear_grown(s.pop);
    let s0 = SimModel { pop: pop0, ..s };
    let n0: int = pop0.len() as int;
    lemma_pass_a_wf(c, s0, n0, n0);
    let s1 = pass_a(c, s0, n0, n0);
    lemma_pass_b_wf(c, pop0, n0, s1, s1.pop.len() as int);
}

} // verus!
