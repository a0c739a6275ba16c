use vstd::prelude::*;
use crate::config::{Config, pos_bound_i64};
use crate::geom::{dist2, dist2_i64, isqrt, lemma_square_monotone, COORD_LIMIT};
use crate::rng::{Rng, rng_init};
use crate::angle::{base_dir_i64, pow19_scaled_i64, dir_offset_i64, wrap_dir};
use crate::quadtree::QuadTree;
use crate::model::{ThingModel, SimModel, sat_add_u64, clear_grown, activate_one, branch_dir,
    blocked, attempt_branch, feed_children, propagate_one, branch_step_one, pass_a, collision,
    grow_one, pass_b, spec_step, in_branch_range, too_close, in_growth_range, kill_cond};
use crate::wf::{thing_wf, pop_wf, sim_wf, same_geometry, lemma_clear_grown_wf,
    lemma_branch_step_one_wf, lemma_grow_one_wf, lemma_activate_one_wf,
    lemma_attempt_branch_wf, lemma_feed_children_len};

verus! {

/// One growth element, as stored and as handed out in snapshots.
///
/// The child list lives beside the population in the simulation and is
/// read through [`Simulation::children_of`].
#[derive(Clone, Copy, Debug)]
pub struct Thing {
    /// Position on the plane.
    pub x: i64,
    /// Position on the plane.
    pub y: i64,
    /// Radius.
    pub size: u64,
    /// Energy accumulator.
    pub energy: u64,
    /// Branch angle as a signed fraction of a half turn at scale
    /// `DIR_HALF`; kept for readers of the snapshot.
    pub frac: i64,
    /// Whether the entity still takes part in growth.
    pub alive: bool,
    /// Whether the entity is eligible to grow this step.
    pub grown: bool,
    /// Depth from its root.
    pub generation: u64,
    /// The entity this one branched from; `None` for a root.
    pub parent: Option<usize>,
}

impl Thing {
    /// The model of this entity, given its child list.
    pub open spec fn model(self, ch: Seq<int>) -> ThingModel {
        ThingModel {
            x: self.x as int,
            y: self.y as int,
            size: self.size as int,
            energy: self.energy as int,
            frac: self.frac as int,
            alive: self.alive,
            grown: self.grown,
            generation: self.generation as int,
            parent: match self.parent {
                Some(p) => Some(p as int),
                None => None,
            },
            children: ch,
        }
    }
}

/// The child list of entity `i`, as mathematical integers.
pub open spec fn kid_view(kids: Seq<Vec<usize>>, i: int) -> Seq<int> {
    kids[i]@.map_values(|v: usize| v as int)
}

/// The model of a population stored as parallel vectors.
pub open spec fn pop_model(things: Seq<Thing>, kids: Seq<Vec<usize>>) -> Seq<ThingModel> {
    Seq::new(things.len(), |i: int| things[i].model(kid_view(kids, i)))
}

/// Updating one stored entity updates one model entry.
proof fn lemma_pop_update(things: Seq<Thing>, kids: Seq<Vec<usize>>, i: int, t: Thing)
    requires
        0 <= i < things.len(),
        things.len() == kids.len(),
    ensures
        pop_model(things.update(i, t), kids)
            =~= pop_model(things, kids).update(i, t.model(kid_view(kids, i))),
{
    let lhs = pop_model(things.update(i, t), kids);
    let rhs = pop_model(things, kids).update(i, t.model(kid_view(kids, i)));
    assert forall|j: int| 0 <= j < lhs.len() implies lhs[j] == rhs[j] by {
    }
}

/// Appending one stored entity appends one model entry.
proof fn lemma_pop_push(things: Seq<Thing>, kids: Seq<Vec<usize>>, t: Thing, kl: Vec<usize>)
    requires
        things.len() == kids.len(),
    ensures
        pop_model(things.push(t), kids.push(kl))
            =~= pop_model(things, kids).push(t.model(kid_view(kids.push(kl), things.len() as int))),
{
    let lhs = pop_model(things.push(t), kids.push(kl));
    let rhs = pop_model(things, kids).push(t.model(kid_view(kids.push(kl), things.len() as int)));
    assert forall|j: int| 0 <= j < lhs.len() implies lhs[j] == rhs[j] by {
        if j < things.len() {
            assert(things.push(t)[j] == things[j]);
            assert(kids.push(kl)[j] == kids[j]);
        } else {
            assert(things.push(t)[j] == t);
            assert(kids.push(kl)[j] == kl);
        }
    }
}

/// Updating one child list updates one model entry.
proof fn lemma_pop_kids_update(things: Seq<Thing>, kids: Seq<Vec<usize>>, i: int, kl: Vec<usize>)
    requires
        0 <= i < things.len(),
        things.len() == kids.len(),
    ensures
        pop_model(things, kids.update(i, kl))
            =~= pop_model(things, kids).update(i,
                things[i].model(kid_view(kids.update(i, kl), i))),
{
    let lhs = pop_model(things, kids.update(i, kl));
    let rhs = pop_model(things, kids).update(i,
        things[i].model(kid_view(kids.update(i, kl), i)));
    assert forall|j: int| 0 <= j < lhs.len() implies lhs[j] == rhs[j] by {
        if j != i {
            assert(kids.update(i, kl)[j] == kids[j]);
        }
    }
}

/// Saturating addition on `u64`.
fn sat_add(a: u64, b: u64) -> (r: u64)
    ensures
        r as int == sat_add_u64(a as int, b as int),
{
    if a > u64::MAX - b {
        u64::MAX
    } else {
        a + b
    }
}

/// Copies a list of indices.
fn clone_indices(v: &Vec<usize>) -> (r: Vec<usize>)
    ensures
        r@ == v@,
{
    let mut r: Vec<usize> = Vec::new();
    let mut k: usize = 0;
    while k < v.len()
        invariant
            k <= v@.len(),
            r@ == v@.subrange(0, k as int),
        decreases v@.len() - k,
    {
        r.push(v[k]);
        proof {
            assert(r@ =~= v@.subrange(0, k + 1));
        }
        k = k + 1;
    }
    proof {
        assert(r@ =~= v@);
    }
    r
}

/// An initial entity handed to [`Simulation::with_roots`].
#[derive(Clone, Copy, Debug)]
pub struct RootSpec {
    /// Position on the plane.
    pub x: i64,
    /// Position on the plane.
    pub y: i64,
    /// Starting radius.
    pub size: u64,
    /// Whether the entity takes part in growth, or only stands as an
    /// obstacle.
    pub alive: bool,
}

/// The model of an initial entity: no energy, no mark, no ancestry.
pub open spec fn root_model(r: RootSpec) -> ThingModel {
    ThingModel {
        x: r.x as int,
        y: r.y as int,
        size: r.size as int,
        energy: 0,
        frac: 0,
        alive: r.alive,
        grown: false,
        generation: 0,
        parent: None,
        children: Seq::empty(),
    }
}

/// The growth simulation: an append-only population of entities, a
/// seeded random source, and a step counter.
///
/// The population can be changed only by [`Simulation::step`], whose
/// contract pins the successor state as `spec_step` of the current
/// one; readers take snapshots through the accessors.
pub struct Simulation {
    config: Config,
    things: Vec<Thing>,
    kids: Vec<Vec<usize>>,
    rng: Rng,
    steps: u64,
}

impl Simulation {
    /// The configuration this simulation was built with.
    pub closed spec fn cfg(self) -> Config {
        self.config
    }

    /// The mathematical state of the simulation.
    pub closed spec fn model(self) -> SimModel {
        SimModel {
            pop: pop_model(self.things@, self.kids@),
            rng: self.rng@,
            steps: self.steps as int,
        }
    }

    /// Structural invariant: a valid configuration and a well-formed
    /// population.
    pub closed spec fn wf(self) -> bool {
        &&& sim_wf(self.config, self.model())
        &&& self.kids@.len() == self.things@.len()
    }

    /// The invariant gives a valid configuration.
    pub proof fn lemma_wf(self)
        requires
            self.wf(),
        ensures
            sim_wf(self.cfg(), self.model()),
    {
    }

    /// Creates a simulation holding a single live root of the
    /// configured initial size at the origin.
    pub fn new(config: Config, seed: u64) -> (s: Simulation)
        requires
            config.valid(),
        ensures
            s.wf(),
            s.cfg() == config,
            s.model().rng == rng_init(seed),
            s.model().steps == 0,
            s.model().pop =~= seq![root_model((RootSpec {
                x: 0,
                y: 0,
                size: config.initial_size,
                alive: true,
            }))],
    {
        let root = Thing {
            x: 0,
            y: 0,
            size: config.initial_size,
            energy: 0,
            frac: 0,
            alive: true,
            grown: false,
            generation: 0,
            parent: None,
        };
        let mut things: Vec<Thing> = Vec::new();
        things.push(root);
        let mut kids: Vec<Vec<usize>> = Vec::new();
        kids.push(Vec::new());
        let s = Simulation { config, things, kids, rng: Rng::new(seed), steps: 0 };
        proof {
            assert(kid_view(s.kids@, 0) =~= Seq::<int>::empty());
            assert(s.model().pop[0] == root_model((RootSpec {
                x: 0,
                y: 0,
                size: config.initial_size,
                alive: true,
            })));
            assert(s.model().pop =~= seq![root_model((RootSpec {
                x: 0,
                y: 0,
                size: config.initial_size,
                alive: true,
            }))]);
            assert forall|i: int| 0 <= i < s.model().pop.len()
                implies #[trigger] thing_wf(config, s.model().pop, i) by {
            }
        }
        s
    }

    /// Creates a simulation from explicit initial entities, all roots.
    ///
    /// Dead entries stand as obstacles from the start, which lets a
    /// caller stage any population shape the step function can meet.
    pub fn with_roots(config: Config, seed: u64, roots: &Vec<RootSpec>) -> (s: Simulation)
        requires
            config.valid(),
            forall|i: int| 0 <= i < roots@.len()
                ==> -config.half_extent <= (#[trigger] roots@[i]).x <= config.half_extent
                    && -config.half_extent <= roots@[i].y <= config.half_extent
                    && 0 < roots@[i].size <= config.size_cap + config.size_incr,
        ensures
            s.wf(),
            s.cfg() == config,
            s.model().rng == rng_init(seed),
            s.model().steps == 0,
            s.model().pop.len() == roots@.len(),
            forall|i: int| 0 <= i < roots@.len()
                ==> s.model().pop[i] == root_model(#[trigger] roots@[i]),
    {
        let mut things: Vec<Thing> = Vec::new();
        let mut kids: Vec<Vec<usize>> = Vec::new();
        let mut i: usize = 0;
        while i < roots.len()
            invariant
                i <= roots@.len(),
                things@.len() == i,
                kids@.len() == i,
                forall|j: int| 0 <= j < roots@.len()
                    ==> -config.half_extent <= (#[trigger] roots@[j]).x <= config.half_extent
                        && -config.half_extent <= roots@[j].y <= config.half_extent
                        && 0 < roots@[j].size <= config.size_cap + config.size_incr,
                forall|j: int| 0 <= j < i
                    ==> pop_model(things@, kids@)[j] == root_model(#[trigger] roots@[j]),
            decreases roots@.len() - i,
        {
            let r = roots[i];
            things.push(Thing {
                x: r.x,
                y: r.y,
                size: r.size,
                energy: 0,
                frac: 0,
                alive: r.alive,
                grown: false,
                generation: 0,
                parent: None,
            });
            kids.push(Vec::new());
            i = i + 1;
        }
        let s = Simulation { config, things, kids, rng: Rng::new(seed), steps: 0 };
        proof {
            assert forall|j: int| 0 <= j < s.model().pop.len()
                implies #[trigger] thing_wf(config, s.model().pop, j) by {
                assert(s.model().pop[j] == root_model(roots@[j]));
            }
        }
        s
    }

    /// Number of entities created so far.
    pub fn num_things(&self) -> (n: usize)
        ensures
            n == self.model().pop.len(),
    {
        self.things.len()
    }

    /// A copy of entity `i`, every field as the model has it.
    pub fn thing(&self, i: usize) -> (t: Thing)
        requires
            i < self.model().pop.len(),
        ensures
            t.x as int == self.model().pop[i as int].x,
            t.y as int == self.model().pop[i as int].y,
            t.size as int == self.model().pop[i as int].size,
            t.energy as int == self.model().pop[i as int].energy,
            t.frac as int == self.model().pop[i as int].frac,
            t.alive == self.model().pop[i as int].alive,
            t.grown == self.model().pop[i as int].grown,
            t.generation as int == self.model().pop[i as int].generation,
            t.parent is Some <==> self.model().pop[i as int].parent is Some,
            t.parent is Some
                ==> t.parent->0 as int == self.model().pop[i as int].parent->0,
    {
        self.things[i]
    }

    /// A copy of entity `i`'s child list, in creation order.
    pub fn children_of(&self, i: usize) -> (r: Vec<usize>)
        requires
            self.wf(),
            i < self.model().pop.len(),
        ensures
            r@.map_values(|v: usize| v as int) == self.model().pop[i as int].children,
    {
        clone_indices(&self.kids[i])
    }

    /// Steps taken so far.
    pub fn steps_taken(&self) -> (n: u64)
        ensures
            n as int == self.model().steps,
    {
        self.steps
    }

    /// The configuration.
    pub fn config(&self) -> (c: Config)
        ensures
            c == self.cfg(),
    {
        self.config
    }
}

/// The spatial index stands exactly for the positions of `stored`:
/// entry `k` holds index `k` at `stored[k]`'s position.
pub open spec fn tree_matches(tree: QuadTree, stored: Seq<ThingModel>) -> bool {
    &&& tree.wf()
    &&& tree.entries().len() == stored.len()
    &&& forall|k: int| 0 <= k < stored.len()
            ==> (#[trigger] tree.entries()[k]).0 as int == k
                && tree.entries()[k].1 as int == stored[k].x
                && tree.entries()[k].2 as int == stored[k].y
}

impl Simulation {
    /// Resets every entity's grown mark, as each step starts.
    #[verifier::loop_isolation(false)]
    fn clear_marks(&mut self)
        requires
            old(self).wf(),
        ensures
            final(self).wf(),
            final(self).cfg() == old(self).cfg(),
            final(self).model() == (SimModel {
                pop: clear_grown(old(self).model().pop),
                ..old(self).model()
            }),
    {
        let n: usize = self.things.len();
        let mut i: usize = 0;
        while i < n
            invariant
                i <= n,
                self.things@.len() == n,
                self.kids@ == old(self).kids@,
                self.config == old(self).config,
                self.rng == old(self).rng,
                self.steps == old(self).steps,
                forall|j: int| 0 <= j < i
                    ==> self.things@[j] == (Thing { grown: false, ..old(self).things@[j] }),
                forall|j: int| i <= j < n ==> self.things@[j] == old(self).things@[j],
            decreases n - i,
        {
            let mut t: Thing = self.things[i];
            t.grown = false;
            self.things[i] = t;
            i = i + 1;
        }
        proof {
            let lhs = self.model().pop;
            let rhs = clear_grown(old(self).model().pop);
            assert forall|j: int| 0 <= j < lhs.len() implies lhs[j] == rhs[j] by {
                assert(self.things@[j] == (Thing { grown: false, ..old(self).things@[j] }));
            }
            assert(lhs =~= rhs);
            lemma_clear_grown_wf(self.config, old(self).model().pop);
        }
    }

    /// Builds a fresh spatial index over the current positions, in
    /// index order.
    #[verifier::loop_isolation(false)]
    fn build_tree(&self) -> (tree: QuadTree)
        requires
            self.wf(),
        ensures
            tree_matches(tree, self.model().pop),
    {
        let tb: i64 = pos_bound_i64(&self.config);
        let mut tree: QuadTree = QuadTree::new(-tb, -tb, tb, tb);
        let n: usize = self.things.len();
        let mut i: usize = 0;
        while i < n
            invariant
                i <= n,
                tree.wf(),
                tree.region() == (-tb as int, -tb as int, tb as int, tb as int),
                tree.entries().len() == i,
                forall|k: int| 0 <= k < i
                    ==> (#[trigger] tree.entries()[k]).0 as int == k
                        && tree.entries()[k].1 as int == self.model().pop[k].x
                        && tree.entries()[k].2 as int == self.model().pop[k].y,
            decreases n - i,
        {
            let t: Thing = self.things[i];
            proof {
                assert(thing_wf(self.config, self.model().pop, i as int));
                assert(tree.covers(t.x as int, t.y as int));
            }
            let ghost before = tree.entries();
            tree.insert(i, t.x, t.y);
            proof {
                assert(tree.entries() == before.push((i, t.x, t.y)));
                assert forall|k: int| 0 <= k < i + 1
                    implies (#[trigger] tree.entries()[k]).0 as int == k
                        && tree.entries()[k].1 as int == self.model().pop[k].x
                        && tree.entries()[k].2 as int == self.model().pop[k].y by {
                    if k < i {
                        assert(tree.entries()[k] == before[k]);
                    } else {
                        assert(tree.entries()[k] == (i, t.x, t.y));
                    }
                }
            }
            i = i + 1;
        }
        tree
    }

    /// The activation/branch/propagation turn of entity `i`, exactly
    /// as `branch_step_one` has it.
    #[verifier::loop_isolation(false)]
    #[verifier::rlimit(100)]
    fn branch_one(&mut self, tree: &QuadTree, i: usize, Ghost(stored): Ghost<Seq<ThingModel>>)
        requires
            old(self).wf(),
            (i as int) < stored.len(),
            stored.len() <= old(self).things@.len(),
            stored.len() <= usize::MAX,
            tree_matches(*tree, stored),
            same_geometry(stored, old(self).model().pop),
        ensures
            final(self).wf(),
            final(self).cfg() == old(self).cfg(),
            final(self).model() == branch_step_one(old(self).cfg(), old(self).model(),
                stored.len() as int, i as int),
    {
        let c: Config = self.config;
        let ghost pre = self.model();
        let ghost n0: int = stored.len() as int;
        let ghost ii: int = i as int;
        proof {
            assert(thing_wf(c, pre.pop, ii));
            lemma_branch_step_one_wf(c, pre, n0, ii);
            lemma_activate_one_wf(c, pre, ii);
        }

        // root activation
        let t0: Thing = self.things[i];
        if t0.parent.is_none() && self.steps < c.activation_cutoff && t0.alive {
            let mut t: Thing = t0;
            t.energy = sat_add(t.energy, c.root_energy);
            t.grown = true;
            proof {
                lemma_pop_update(self.things@, self.kids@, ii, t);
            }
            self.things[i] = t;
        }
        let ghost sA = activate_one(c, pre, ii);
        proof {
            assert(self.model().pop =~= sA.pop);
            assert(self.model() =~= sA);
        }

        let t1: Thing = self.things[i];
        if t1.energy > c.branch_threshold {
            let r1: u64 = self.rng.next();
            let ghost sB = SimModel { rng: r1, ..sA };
            proof {
                assert(self.model() =~= sB);
                assert(same_geometry(stored, sB.pop)) by {
                    assert(same_geometry(pre.pop, sA.pop));
                }
                assert(sim_wf(c, sB)) by {
                    assert(sim_wf(c, sA));
                }
            }
            let do_branch: bool = r1 % c.branch_den < c.branch_num;
            if do_branch {
                // choose the candidate direction
                let r2: u64 = self.rng.next();
                let mut dir: u64 = r2 % 65536;
                match t1.parent {
                    Some(p) => {
                        proof {
                            assert(thing_wf(c, sB.pop, ii));
                            assert(thing_wf(c, sB.pop, p as int));
                        }
                        let pt: Thing = self.things[p];
                        let r3: u64 = self.rng.next();
                        let vr: u64 = r3 % 65537;
                        let v: i64 = (vr as i64) - 32768;
                        let delta: i64 = pow19_scaled_i64(v);
                        let bd: u64 = base_dir_i64(t1.x - pt.x, t1.y - pt.y);
                        let sum: i64 = (bd as i64) + delta;
                        dir = if sum < 0 {
                            (sum + 65536) as u64
                        } else if sum >= 65536 {
                            (sum - 65536) as u64
                        } else {
                            sum as u64
                        };
                        proof {
                            assert(dir as int == wrap_dir(bd as int + delta as int));
                        }
                    },
                    None => {},
                }
                proof {
                    assert(dir as int == branch_dir(sB, ii).0);
                    assert(self.rng@ == branch_dir(sB, ii).1);
                    assert(dir < 65536);
                }
                // candidate position
                proof {
                    assert(thing_wf(c, sB.pop, ii));
                }
                let lenu: u64 = t1.size + c.initial_size;
                let off: (i64, i64) = dir_offset_i64(dir, lenu);
                let cx: i64 = t1.x + off.0;
                let cy: i64 = t1.y + off.1;
                let out_of_domain: bool = cx > c.half_extent || cx < -c.half_extent
                    || cy > c.half_extent || cy < -c.half_extent;
                // scan the index around the candidate
                let cand: Vec<usize> = tree.query_radius(cx, cy, c.branch_radius);
                proof {
                    assert forall|j: usize| cand@.contains(j)
                        <==> (j as int) < n0
                            && in_branch_range(c, sB.pop, j as int, cx as int, cy as int) by {
                        if cand@.contains(j) {
                            let k = choose|k: int| 0 <= k < tree.entries().len()
                                && (#[trigger] tree.entries()[k]).0 == j
                                && dist2(tree.entries()[k].1 as int, tree.entries()[k].2 as int,
                                    cx as int, cy as int)
                                    <= (c.branch_radius as int) * (c.branch_radius as int);
                            assert(k == j as int);
                            assert(stored[k].x == sB.pop[k].x && stored[k].y == sB.pop[k].y);
                        }
                        if (j as int) < n0
                            && in_branch_range(c, sB.pop, j as int, cx as int, cy as int) {
                            assert(tree.entries()[j as int].0 == j);
                            assert(stored[j as int].x == sB.pop[j as int].x
                                && stored[j as int].y == sB.pop[j as int].y);
                            assert(dist2(tree.entries()[j as int].1 as int,
                                tree.entries()[j as int].2 as int, cx as int, cy as int)
                                <= (c.branch_radius as int) * (c.branch_radius as int));
                        }
                    }
                }
                let mut found: bool = false;
                let mut k: usize = 0;
                while k < cand.len()
                    invariant
                        k <= cand@.len(),
                        found <==> exists|m: int| 0 <= m < k
                            && (#[trigger] cand@[m] as int) < n0
                            && too_close(c, sB.pop, cand@[m] as int, cx as int, cy as int),
                    decreases cand@.len() - k,
                {
                    let j: usize = cand[k];
                    proof {
                        assert(cand@.contains(j)) by {
                            assert(cand@[k as int] == j);
                        }
                        assert(thing_wf(c, sB.pop, j as int));
                    }
                    let oth: Thing = self.things[j];
                    let d2: i64 = dist2_i64(oth.x, oth.y, cx, cy);
                    let thr: u64 = oth.size + c.initial_size;
                    proof {
                        crate::geom::lemma_square_bound(thr as int, 0x3_0000);
                    }
                    let thr2: u64 = thr * thr;
                    let ghost found_pre = found;
                    if d2 < thr2 as i64 {
                        found = true;
                    }
                    proof {
                        if found {
                            if found_pre {
                                let m = choose|m: int| 0 <= m < k
                                    && (#[trigger] cand@[m] as int) < n0
                                    && too_close(c, sB.pop, cand@[m] as int, cx as int, cy as int);
                                assert(0 <= m < k + 1 && (cand@[m] as int) < n0
                                    && too_close(c, sB.pop, cand@[m] as int, cx as int, cy as int));
                            } else {
                                assert((cand@[k as int] as int) < n0
                                    && too_close(c, sB.pop, cand@[k as int] as int,
                                        cx as int, cy as int));
                            }
                        } else {
                            assert forall|m: int| 0 <= m < k + 1
                                implies !((#[trigger] cand@[m] as int) < n0
                                    && too_close(c, sB.pop, cand@[m] as int, cx as int, cy as int)) by {
                            }
                        }
                    }
                    k = k + 1;
                }
                proof {
                    assert(found == blocked(c, sB.pop, n0, cx as int, cy as int)) by {
                        if found {
                            let m = choose|m: int| 0 <= m < cand@.len()
                                && (#[trigger] cand@[m] as int) < n0
                                && too_close(c, sB.pop, cand@[m] as int, cx as int, cy as int);
                            let j = cand@[m];
                            assert(cand@.contains(j));
                            assert(in_branch_range(c, sB.pop, j as int, cx as int, cy as int));
                        }
                        if blocked(c, sB.pop, n0, cx as int, cy as int) {
                            let j = choose|j: int| 0 <= j < n0
                                && #[trigger] in_branch_range(c, sB.pop, j, cx as int, cy as int)
                                && too_close(c, sB.pop, j, cx as int, cy as int);
                            assert((j as usize) as int == j);
                            assert(cand@.contains(j as usize));
                            let m = choose|m: int| 0 <= m < cand@.len() && cand@[m] == j as usize;
                            assert(cand@[m] as int == j);
                            assert((cand@[m] as int) < n0
                                && too_close(c, sB.pop, cand@[m] as int, cx as int, cy as int));
                        }
                    }
                }
                // apply the outcome
                let rejected: bool = out_of_domain || found;
                let mut tp: Thing = t1;
                tp.energy = tp.energy - 1;
                if rejected {
                    proof {
                        lemma_pop_update(self.things@, self.kids@, ii, tp);
                    }
                    self.things[i] = tp;
                    proof {
                        assert(self.model().pop =~= attempt_branch(c, sB, n0, ii).pop);
                        assert(self.model() =~= attempt_branch(c, sB, n0, ii));
                    }
                } else {
                    tp.alive = false;
                    let new_idx: usize = self.things.len();
                    let fr: i64 = if dir <= 32768 {
                        dir as i64
                    } else {
                        (dir as i64) - 65536
                    };
                    proof {
                        assert(t1.generation as int <= ii);
                    }
                    let child: Thing = Thing {
                        x: cx,
                        y: cy,
                        size: c.initial_size,
                        energy: 0,
                        frac: fr,
                        alive: true,
                        grown: false,
                        generation: t1.generation + 1,
                        parent: Some(i),
                    };
                    let ghost things0 = self.things@;
                    let ghost kids0 = self.kids@;
                    self.things[i] = tp;
                    self.things.push(child);
                    let empty_kl: Vec<usize> = Vec::new();
                    let ghost ekl = empty_kl;
                    self.kids.push(empty_kl);
                    let mut kl: Vec<usize> = clone_indices(&self.kids[i]);
                    kl.push(new_idx);
                    self.kids[i] = kl;
                    proof {
                        let things1 = things0.update(ii, tp);
                        let kids1 = kids0.push(ekl);
                        lemma_pop_update(things0, kids0, ii, tp);
                        lemma_pop_push(things1, kids0, child, ekl);
                        lemma_pop_kids_update(things1.push(child), kids1, ii, kl);
                        assert(self.things@ == things1.push(child));
                        assert(self.kids@ == kids1.update(ii, kl));
                        assert(pop_model(things0, kids0) == sB.pop);
                        let lhs = self.model().pop;
                        let rhs = attempt_branch(c, sB, n0, ii).pop;
                        assert(pop_model(things1, kids0)
                            =~= pop_model(things1.push(child), kids1).take(things1.len() as int));
                        assert(lhs.len() == rhs.len());
                        assert forall|j: int| 0 <= j < lhs.len() implies lhs[j] == rhs[j] by {
                            if j == ii {
                                assert(kid_view(kids1.update(ii, kl), ii)
                                    =~= kid_view(kids0, ii).push(new_idx as int)) by {
                                    assert(kl@ == kids0[ii]@.push(new_idx));
                                }
                                assert(lhs[j].children == rhs[j].children);
                            } else if j == things1.len() {
                                assert(kid_view(kids1.update(ii, kl), j) =~= Seq::<int>::empty()) by {
                                    assert(kids1.update(ii, kl)[j] == ekl);
                                    assert(ekl@.len() == 0);
                                }
                                assert(lhs[j] == child.model(kid_view(kids1.update(ii, kl), j)));
                                assert(lhs[j].children == rhs[j].children);
                            } else {
                                assert(kid_view(kids1.update(ii, kl), j) =~= kid_view(kids0, j)) by {
                                    assert(kids1.update(ii, kl)[j] == kids0[j]);
                                }
                                assert(lhs[j].children == rhs[j].children);
                            }
                        }
                        assert(lhs =~= rhs);
                        assert(self.model() =~= attempt_branch(c, sB, n0, ii));
                    }
                }
            }
            let ghost sC = if (r1 as int) % (c.branch_den as int) < c.branch_num {
                attempt_branch(c, sB, n0, ii)
            } else {
                sB
            };
            proof {
                assert(do_branch == ((r1 as int) % (c.branch_den as int) < c.branch_num));
                assert(self.model() == sC);
                if (r1 as int) % (c.branch_den as int) < c.branch_num {
                    lemma_attempt_branch_wf(c, sB, n0, ii);
                }
                assert(sim_wf(c, sC));
                assert(thing_wf(c, sC.pop, ii));
            }
            // energy propagation to the children
            let t3: Thing = self.things[i];
            let cl: Vec<usize> = clone_indices(&self.kids[i]);
            proof {
                assert(cl@ == self.kids@[ii]@);
                assert(kid_view(self.kids@, ii) == sC.pop[ii].children);
            }
            if t3.energy > c.branch_threshold && cl.len() > 0 {
                let mut t4: Thing = t3;
                t4.energy = t4.energy - 1;
                proof {
                    lemma_pop_update(self.things@, self.kids@, ii, t4);
                }
                self.things[i] = t4;
                let ghost popp = sC.pop.update(ii, (ThingModel {
                    energy: sC.pop[ii].energy - 1,
                    ..sC.pop[ii]
                }));
                let ghost chs: Seq<int> = sC.pop[ii].children;
                proof {
                    assert(self.model().pop =~= popp);
                }
                let mut k2: usize = 0;
                while k2 < cl.len()
                    invariant
                        k2 <= cl@.len(),
                        self.config == c,
                        self.kids@.len() == self.things@.len(),
                        self.things@.len() == sC.pop.len(),
                        self.rng@ == sC.rng,
                        self.steps as int == sC.steps,
                        self.model().pop =~= feed_children(c, popp, chs, k2 as int),
                    decreases cl@.len() - k2,
                {
                    let ch: usize = cl[k2];
                    proof {
                        assert(chs[k2 as int] == ch as int);
                        assert(ii < (ch as int) && (ch as int) < sC.pop.len());
                        lemma_feed_children_len(c, popp, chs, k2 as int);
                        assert(feed_children(c, popp, chs, k2 as int).len() == popp.len());
                    }
                    let mut cht: Thing = self.things[ch];
                    cht.energy = sat_add(cht.energy, c.child_energy);
                    cht.grown = true;
                    proof {
                        lemma_pop_update(self.things@, self.kids@, ch as int, cht);
                    }
                    self.things[ch] = cht;
                    proof {
                        assert(self.model().pop =~= feed_children(c, popp, chs, k2 + 1));
                    }
                    k2 = k2 + 1;
                }
                proof {
                    assert(self.model().pop =~= propagate_one(c, sC, ii).pop);
                    assert(self.model() =~= propagate_one(c, sC, ii));
                    assert(self.model() =~= branch_step_one(c, pre, n0, ii));
                }
            } else {
                proof {
                    assert(self.model() =~= propagate_one(c, sC, ii));
                    assert(self.model() =~= branch_step_one(c, pre, n0, ii));
                }
            }
        } else {
            proof {
                assert(self.model() =~= branch_step_one(c, pre, n0, ii));
            }
        }
        proof {
            assert(self.model() == branch_step_one(c, pre, n0, ii));
            assert(self.kids@.len() == self.things@.len());
        }
    }

    /// The growth/collision turn of entity `i`, exactly as `grow_one`
    /// has it.
    #[verifier::loop_isolation(false)]
    #[verifier::rlimit(100)]
    fn grow_exec_one(&mut self, tree: &QuadTree, i: usize, Ghost(stored): Ghost<Seq<ThingModel>>)
        requires
            old(self).wf(),
            (i as int) < old(self).things@.len(),
            tree_matches(*tree, stored),
            stored.len() <= old(self).things@.len(),
            stored.len() <= usize::MAX,
        ensures
            final(self).wf(),
            final(self).cfg() == old(self).cfg(),
            final(self).model() == grow_one(old(self).cfg(), stored, stored.len() as int,
                old(self).model(), i as int),
    {
        let c: Config = self.config;
        let ghost pre = self.model();
        let ghost n0: int = stored.len() as int;
        let ghost ii: int = i as int;
        proof {
            assert(thing_wf(c, pre.pop, ii));
            lemma_grow_one_wf(c, stored, n0, pre, ii);
        }
        let t: Thing = self.things[i];
        if !t.grown {
            proof {
                assert(self.model() =~= grow_one(c, stored, n0, pre, ii));
            }
            return;
        }
        // scan the index around the entity's position
        let cand: Vec<usize> = tree.query_radius(t.x, t.y, c.growth_radius);
        proof {
            assert forall|j: usize| cand@.contains(j)
                <==> (j as int) < n0
                    && in_growth_range(c, stored, pre.pop, ii, j as int) by {
                if cand@.contains(j) {
                    let k = choose|k: int| 0 <= k < tree.entries().len()
                        && (#[trigger] tree.entries()[k]).0 == j
                        && dist2(tree.entries()[k].1 as int, tree.entries()[k].2 as int,
                            t.x as int, t.y as int)
                            <= (c.growth_radius as int) * (c.growth_radius as int);
                    assert(k == j as int);
                }
                if (j as int) < n0 && in_growth_range(c, stored, pre.pop, ii, j as int) {
                    assert(tree.entries()[j as int].0 == j);
                    assert(dist2(tree.entries()[j as int].1 as int,
                        tree.entries()[j as int].2 as int, t.x as int, t.y as int)
                        <= (c.growth_radius as int) * (c.growth_radius as int));
                }
            }
        }
        let mut killed: bool = false;
        let mut k: usize = 0;
        while k < cand.len()
            invariant
                k <= cand@.len(),
                killed <==> exists|m: int| 0 <= m < k
                    && (#[trigger] cand@[m] as int) < n0
                    && kill_cond(c, pre.pop, ii, cand@[m] as int),
            decreases cand@.len() - k,
        {
            let j: usize = cand[k];
            proof {
                assert(cand@.contains(j)) by {
                    assert(cand@[k as int] == j);
                }
                assert(thing_wf(c, pre.pop, j as int));
            }
            let ghost killed_pre = killed;
            if j != i {
                let skip: bool = match t.parent {
                    Some(p) => p == j,
                    None => false,
                };
                if !skip {
                    let oth: Thing = self.things[j];
                    let d2: i64 = dist2_i64(oth.x, oth.y, t.x, t.y);
                    let ts: u64 = t.size + oth.size + c.clearance;
                    proof {
                        crate::geom::lemma_square_bound(ts as int, 0x5_0000);
                    }
                    let ts2: u64 = ts * ts;
                    if d2 < ts2 as i64 {
                        killed = true;
                    }
                }
            }
            proof {
                if killed {
                    if killed_pre {
                        let m = choose|m: int| 0 <= m < k
                            && (#[trigger] cand@[m] as int) < n0
                            && kill_cond(c, pre.pop, ii, cand@[m] as int);
                        assert(0 <= m < k + 1 && (cand@[m] as int) < n0
                            && kill_cond(c, pre.pop, ii, cand@[m] as int));
                    } else {
                        assert((cand@[k as int] as int) < n0
                            && kill_cond(c, pre.pop, ii, cand@[k as int] as int));
                    }
                } else {
                    assert forall|m: int| 0 <= m < k + 1
                        implies !((#[trigger] cand@[m] as int) < n0
                            && kill_cond(c, pre.pop, ii, cand@[m] as int)) by {
                    }
                }
            }
            k = k + 1;
        }
        proof {
            assert(killed == collision(c, stored, n0, pre.pop, ii)) by {
                if killed {
                    let m = choose|m: int| 0 <= m < cand@.len()
                        && (#[trigger] cand@[m] as int) < n0
                        && kill_cond(c, pre.pop, ii, cand@[m] as int);
                    let j = cand@[m];
                    assert(cand@.contains(j));
                    assert(in_growth_range(c, stored, pre.pop, ii, j as int));
                }
                if collision(c, stored, n0, pre.pop, ii) {
                    let j = choose|j: int| 0 <= j < n0
                        && #[trigger] in_growth_range(c, stored, pre.pop, ii, j)
                        && kill_cond(c, pre.pop, ii, j);
                    assert((j as usize) as int == j);
                    assert(cand@.contains(j as usize));
                    let m = choose|m: int| 0 <= m < cand@.len() && cand@[m] == j as usize;
                    assert(cand@[m] as int == j);
                    assert((cand@[m] as int) < n0
                        && kill_cond(c, pre.pop, ii, cand@[m] as int));
                }
            }
        }
        if killed || !t.alive {
            let mut t2: Thing = t;
            t2.alive = false;
            proof {
                lemma_pop_update(self.things@, self.kids@, ii, t2);
            }
            self.things[i] = t2;
            proof {
                assert(self.model().pop =~= grow_one(c, stored, n0, pre, ii).pop);
                assert(self.model() =~= grow_one(c, stored, n0, pre, ii));
            }
        } else if t.size > c.size_cap {
            let mut t2: Thing = t;
            t2.alive = false;
            proof {
                lemma_pop_update(self.things@, self.kids@, ii, t2);
            }
            self.things[i] = t2;
            proof {
                assert(self.model().pop =~= grow_one(c, stored, n0, pre, ii).pop);
                assert(self.model() =~= grow_one(c, stored, n0, pre, ii));
            }
        } else {
            let ns: u64 = t.size + c.size_incr;
            match t.parent {
                Some(p) => {
                    proof {
                        assert(thing_wf(c, pre.pop, p as int));
                    }
                    let pt: Thing = self.things[p];
                    let dx: i64 = t.x - pt.x;
                    let dy: i64 = t.y - pt.y;
                    let d2: i64 = dist2_i64(t.x, t.y, pt.x, pt.y);
                    let n: u64 = isqrt(d2 as u64);
                    let tgt: u64 = ns + pt.size;
                    let mut nx: i64 = t.x;
                    let mut ny: i64 = t.y;
                    if n > 0 {
                        proof {
                            assert((d2 as u64) as int == d2 as int);
                            crate::geom::lemma_isqrt_spec(d2 as int);
                            assert((d2 as int) < (n as int + 1) * (n as int + 1));
                            crate::geom::lemma_square_bound(dx as int, 0x500_0000);
                            crate::geom::lemma_square_bound(dy as int, 0x500_0000);
                            assert(dx as int == t.x as int - pt.x as int);
                            assert(dy as int == t.y as int - pt.y as int);
                            assert(d2 as int == (dx as int) * (dx as int) + (dy as int) * (dy as int));
                            assert((dx as int) * (dx as int) <= d2 as int);
                            assert((dy as int) * (dy as int) <= d2 as int);
                            assert((dx as int) <= (n as int) && -(n as int) <= (dx as int))
                                by (nonlinear_arith)
                                requires
                                    (dx as int) * (dx as int) <= d2 as int,
                                    (d2 as int) < ((n as int) + 1) * ((n as int) + 1),
                                    n >= 0;
                            assert((dy as int) <= (n as int) && -(n as int) <= (dy as int))
                                by (nonlinear_arith)
                                requires
                                    (dy as int) * (dy as int) <= d2 as int,
                                    (d2 as int) < ((n as int) + 1) * ((n as int) + 1),
                                    n >= 0;
                        }
                        let sx: i64 = crate::geom::scale_away_i64(dx, tgt, n);
                        let sy: i64 = crate::geom::scale_away_i64(dy, tgt, n);
                        nx = pt.x + sx;
                        ny = pt.y + sy;
                    }
                    let pb: i64 = pos_bound_i64(&c);
                    let mut t2: Thing = t;
                    t2.size = ns;
                    if -pb <= nx && nx <= pb && -pb <= ny && ny <= pb {
                        t2.x = nx;
                        t2.y = ny;
                    }
                    proof {
                        lemma_pop_update(self.things@, self.kids@, ii, t2);
                    }
                    self.things[i] = t2;
                    proof {
                        assert(self.model().pop =~= grow_one(c, stored, n0, pre, ii).pop);
                        assert(self.model() =~= grow_one(c, stored, n0, pre, ii));
                    }
                },
                None => {
                    let mut t2: Thing = t;
                    t2.size = ns;
                    proof {
                        lemma_pop_update(self.things@, self.kids@, ii, t2);
                    }
                    self.things[i] = t2;
                    proof {
                        assert(self.model().pop =~= grow_one(c, stored, n0, pre, ii).pop);
                        assert(self.model() =~= grow_one(c, stored, n0, pre, ii));
                    }
                },
            }
        }
        proof {
            assert(self.model() == grow_one(c, stored, n0, pre, ii));
        }
    }

    /// Every entity whose position is within radius `r` of
    /// `(qx, qy)`, answered through a freshly built spatial index.
    ///
    /// The contract is the plain set comprehension over the
    /// population, with no mention of the index: the index answers
    /// exactly what an exhaustive scan would.
    #[verifier::loop_isolation(false)]
    pub fn neighbors_within(&self, qx: i64, qy: i64, r: i64) -> (res: Vec<usize>)
        requires
            self.wf(),
            -COORD_LIMIT <= qx <= COORD_LIMIT,
            -COORD_LIMIT <= qy <= COORD_LIMIT,
            0 <= r <= COORD_LIMIT,
        ensures
            forall|j: usize| res@.contains(j)
                <==> (j as int) < self.model().pop.len()
                    && dist2(self.model().pop[j as int].x, self.model().pop[j as int].y,
                        qx as int, qy as int) <= (r as int) * (r as int),
    {
        let tree: QuadTree = self.build_tree();
        let res: Vec<usize> = tree.query_radius(qx, qy, r);
        proof {
            let pop = self.model().pop;
            assert forall|j: usize| res@.contains(j)
                <==> (j as int) < pop.len()
                    && dist2(pop[j as int].x, pop[j as int].y, qx as int, qy as int)
                        <= (r as int) * (r as int) by {
                if res@.contains(j) {
                    let k = choose|k: int| 0 <= k < tree.entries().len()
                        && (#[trigger] tree.entries()[k]).0 == j
                        && dist2(tree.entries()[k].1 as int, tree.entries()[k].2 as int,
                            qx as int, qy as int) <= (r as int) * (r as int);
                    assert(k == j as int);
                }
                if (j as int) < pop.len()
                    && dist2(pop[j as int].x, pop[j as int].y, qx as int, qy as int)
                        <= (r as int) * (r as int) {
                    assert(tree.entries()[j as int].0 == j);
                    assert(dist2(tree.entries()[j as int].1 as int,
                        tree.entries()[j as int].2 as int, qx as int, qy as int)
                        <= (r as int) * (r as int));
                }
            }
        }
        res
    }

    /// Every entity whose position is within radius `r` of
    /// `(qx, qy)`, answered by an exhaustive scan over the whole
    /// population. Same contract as [`Simulation::neighbors_within`].
    #[verifier::loop_isolation(false)]
    pub fn scan_within(&self, qx: i64, qy: i64, r: i64) -> (res: Vec<usize>)
        requires
            self.wf(),
            -COORD_LIMIT <= qx <= COORD_LIMIT,
            -COORD_LIMIT <= qy <= COORD_LIMIT,
            0 <= r <= COORD_LIMIT,
        ensures
            forall|j: usize| res@.contains(j)
                <==> (j as int) < self.model().pop.len()
                    && dist2(self.model().pop[j as int].x, self.model().pop[j as int].y,
                        qx as int, qy as int) <= (r as int) * (r as int),
    {
        let ghost pop = self.model().pop;
        proof {
            lemma_square_monotone(r as int, COORD_LIMIT as int);
        }
        let r2: i64 = r * r;
        let mut res: Vec<usize> = Vec::new();
        let n: usize = self.things.len();
        let mut i: usize = 0;
        while i < n
            invariant
                i <= n,
                forall|j: usize| res@.contains(j)
                    <==> (j as int) < i
                        && dist2(pop[j as int].x, pop[j as int].y, qx as int, qy as int)
                            <= (r as int) * (r as int),
            decreases n - i,
        {
            proof {
                assert(thing_wf(self.config, pop, i as int));
            }
            let t: Thing = self.things[i];
            let d2: i64 = dist2_i64(t.x, t.y, qx, qy);
            let ghost res_pre = res@;
            if d2 <= r2 {
                res.push(i);
            }
            proof {
                assert forall|j: usize| res@.contains(j)
                    <==> (j as int) < i + 1
                        && dist2(pop[j as int].x, pop[j as int].y, qx as int, qy as int)
                            <= (r as int) * (r as int) by {
                    if res@.contains(j) {
                        let m = choose|m: int| 0 <= m < res@.len() && res@[m] == j;
                        if m < res_pre.len() {
                            assert(res_pre[m] == j);
                            assert(res_pre.contains(j));
                        } else {
                            assert(j == i);
                        }
                    }
                    if (j as int) < i + 1
                        && dist2(pop[j as int].x, pop[j as int].y, qx as int, qy as int)
                            <= (r as int) * (r as int) {
                        if (j as int) < i {
                            assert(res_pre.contains(j));
                            let m = choose|m: int| 0 <= m < res_pre.len() && res_pre[m] == j;
                            assert(res@[m] == j);
                        } else {
                            assert(j == i);
                            assert(d2 <= r2);
                            assert(res@[res@.len() - 1] == j);
                        }
                    }
                }
            }
            i = i + 1;
        }
        res
    }

    /// Advances the simulation by one step: rebuild the spatial index,
    /// activate live roots, run the branch/propagation pass, then the
    /// growth/collision pass, and count the step.
    ///
    /// The new state is exactly `spec_step` of the old one, so the
    /// whole update is a pure function of the previous state.
    #[verifier::loop_isolation(false)]
    pub fn step(&mut self)
        requires
            old(self).wf(),
        ensures
            final(self).wf(),
            final(self).cfg() == old(self).cfg(),
            final(self).model() == spec_step(old(self).cfg(), old(self).model()),
    {
        let c: Config = self.config;
        self.clear_marks();
        let ghost m0 = self.model();
        let tree: QuadTree = self.build_tree();
        let n0: usize = self.things.len();
        let ghost stored = m0.pop;
        proof {
            assert(stored.len() == n0 as int);
            assert(same_geometry(stored, self.model().pop));
            assert(self.model() == pass_a(c, m0, n0 as int, 0));
        }
        let mut i: usize = 0;
        while i < n0
            invariant
                i <= n0,
                self.wf(),
                self.cfg() == c,
                stored.len() <= self.things@.len(),
                self.model() == pass_a(c, m0, n0 as int, i as int),
                same_geometry(stored, self.model().pop),
            decreases n0 - i,
        {
            let ghost before = self.model();
            self.branch_one(&tree, i, Ghost(stored));
            proof {
                assert(self.model() == branch_step_one(c, before, n0 as int, i as int));
                assert(pass_a(c, m0, n0 as int, i + 1)
                    == branch_step_one(c, pass_a(c, m0, n0 as int, i as int), n0 as int, i as int));
                lemma_branch_step_one_wf(c, before, n0 as int, i as int);
                assert(same_geometry(stored, self.model().pop)) by {
                    assert(same_geometry(before.pop, self.model().pop));
                }
            }
            i = i + 1;
        }
        let ghost m1 = self.model();
        let n1: usize = self.things.len();
        proof {
            assert(m1 == pass_a(c, m0, n0 as int, n0 as int));
            assert(self.model() == pass_b(c, stored, n0 as int, m1, 0));
        }
        i = 0;
        while i < n1
            invariant
                i <= n1,
                self.wf(),
                self.cfg() == c,
                self.things@.len() == n1 as int,
                self.model() == pass_b(c, stored, n0 as int, m1, i as int),
            decreases n1 - i,
        {
            let ghost before = self.model();
            self.grow_exec_one(&tree, i, Ghost(stored));
            proof {
                assert(self.model() == grow_one(c, stored, n0 as int, before, i as int));
                assert(pass_b(c, stored, n0 as int, m1, i + 1)
                    == grow_one(c, stored, n0 as int,
                        pass_b(c, stored, n0 as int, m1, i as int), i as int));
                lemma_grow_one_wf(c, stored, n0 as int, before, i as int);
            }
            i = i + 1;
        }
        self.steps = sat_add(self.steps, 1);
        proof {
            let s2 = pass_b(c, stored, n0 as int, m1, n1 as int);
            assert(self.model() =~= (SimModel { steps: sat_add_u64(s2.steps, 1), ..s2 }));
            assert(m0 == (SimModel { pop: clear_grown(old(self).model().pop), ..old(self).model() }));
            assert(self.model() == spec_step(c, old(self).model()));
        }
    }
}

} // verus!
