use arbor::config::Config;
use arbor::sim::{Simulation, RootSpec};

fn sorted(mut v: Vec<usize>) -> Vec<usize> {
    v.sort();
    v.dedup();
    v
}

#[test]
fn single_root_spawns_one_child_at_contact_distance() {
    // one root at the origin, step count far below the cutoff, branch
    // probability forced to one and a very large domain: the first
    // time the root is energized it spawns exactly one child at
    // distance root.size + 1 from the origin, and goes dormant at once.
    //
    // root_energy is one above the threshold, so there is no energy
    // left to feed the child in the same step: the child stands
    // untouched where it was born.
    let config = Config {
        half_extent: 1_000_000,
        branch_radius: 50,
        growth_radius: 60,
        clearance: 1,
        initial_size: 1,
        size_incr: 1,
        size_cap: 29,
        root_energy: 11,
        branch_threshold: 10,
        child_energy: 3,
        branch_num: 1,
        branch_den: 1,
        activation_cutoff: 1000,
    };
    assert!(config.is_valid());
    // with this seed the first direction draw lands on the positive x axis
    let mut sim = Simulation::new(config, 104708);
    assert_eq!(sim.num_things(), 1);
    sim.step();
    assert_eq!(sim.num_things(), 2);
    let root = sim.thing(0);
    let child = sim.thing(1);
    // the root went dormant the moment it branched
    assert!(!root.alive);
    assert_eq!((root.x, root.y), (0, 0));
    assert_eq!(root.size, 1);
    // activation paid 11, the branch attempt cost 1
    assert_eq!(root.energy, 10);
    assert_eq!(sim.children_of(0), vec![1usize]);
    // the child stands exactly root.size + 1 away from the origin
    assert_eq!((child.x, child.y), (2, 0));
    assert_eq!(child.x * child.x + child.y * child.y, 4);
    assert_eq!(child.size, 1);
    assert_eq!(child.energy, 0);
    assert!(child.alive);
    assert!(!child.grown);
    assert_eq!(child.generation, 1);
    assert_eq!(child.parent, Some(0));
    assert!(sim.children_of(1).is_empty());
    assert_eq!(sim.steps_taken(), 1);
}

fn crowded_config() -> Config {
    // clearance 2 makes "half a unit closer than allowed" expressible
    // in whole units; branch probability zero keeps the step to pure
    // growth
    Config {
        half_extent: 450,
        branch_radius: 50,
        growth_radius: 60,
        clearance: 2,
        initial_size: 1,
        size_incr: 1,
        size_cap: 29,
        root_energy: 10000,
        branch_threshold: 10,
        child_energy: 3,
        branch_num: 0,
        branch_den: 1,
        activation_cutoff: 1000,
    }
}

#[test]
fn growing_into_a_closer_neighbour_kills_the_grower() {
    // two entities with centers sizes-plus-one apart, which is half a
    // clearance short of the allowed sizes-plus-two: the live one
    // attempts to grow, is killed, and the obstacle is untouched
    let config = crowded_config();
    let roots = vec![
        RootSpec { x: 0, y: 0, size: 4, alive: true },
        RootSpec { x: 0, y: 8, size: 3, alive: false },
    ];
    let mut sim = Simulation::with_roots(config, 7, &roots);
    sim.step();
    let a = sim.thing(0);
    let b = sim.thing(1);
    assert!(!a.alive, "the growing entity must be killed");
    assert_eq!(a.size, 4, "a killed entity does not grow");
    assert_eq!((a.x, a.y), (0, 0));
    assert!(!b.alive, "the obstacle's aliveness is unchanged");
    assert_eq!(b.size, 3);
    assert_eq!((b.x, b.y), (0, 8));
}

#[test]
fn growing_into_a_closer_neighbour_kills_the_other_grower_too() {
    // the mirror arrangement: now the smaller entity is the live one
    let config = crowded_config();
    let roots = vec![
        RootSpec { x: 0, y: 0, size: 4, alive: false },
        RootSpec { x: 0, y: 8, size: 3, alive: true },
    ];
    let mut sim = Simulation::with_roots(config, 7, &roots);
    sim.step();
    let a = sim.thing(0);
    let b = sim.thing(1);
    assert!(!a.alive);
    assert_eq!(a.size, 4);
    assert!(!b.alive, "the growing entity must be killed");
    assert_eq!(b.size, 3, "a killed entity does not grow");
    assert_eq!((b.x, b.y), (0, 8));
}

#[test]
fn a_neighbour_at_the_clearance_does_not_kill() {
    // centers exactly sizes-plus-clearance apart: no collision, the
    // live root grows in place
    let config = crowded_config();
    let roots = vec![
        RootSpec { x: 0, y: 0, size: 4, alive: true },
        RootSpec { x: 0, y: 9, size: 3, alive: false },
    ];
    let mut sim = Simulation::with_roots(config, 7, &roots);
    sim.step();
    let a = sim.thing(0);
    assert!(a.alive);
    assert_eq!(a.size, 5);
    assert_eq!((a.x, a.y), (0, 0), "a root grows in place");
}

#[test]
fn same_seed_same_population() {
    // two simulations built with the same seed and stepped the same
    // number of times hold identical populations, field by field
    let config = Config::default();
    let mut a = Simulation::new(config, 424242);
    let mut b = Simulation::new(config, 424242);
    for _ in 0..40 {
        a.step();
        b.step();
    }
    assert_eq!(a.num_things(), b.num_things());
    assert!(a.num_things() > 1, "the run must actually have branched");
    for i in 0..a.num_things() {
        let ta = a.thing(i);
        let tb = b.thing(i);
        assert_eq!((ta.x, ta.y), (tb.x, tb.y));
        assert_eq!(ta.size, tb.size);
        assert_eq!(ta.energy, tb.energy);
        assert_eq!(ta.frac, tb.frac);
        assert_eq!(ta.alive, tb.alive);
        assert_eq!(ta.grown, tb.grown);
        assert_eq!(ta.generation, tb.generation);
        assert_eq!(ta.parent, tb.parent);
        assert_eq!(sim_children(&a, i), sim_children(&b, i));
    }
}

fn sim_children(s: &Simulation, i: usize) -> Vec<usize> {
    s.children_of(i)
}

#[test]
fn sizes_never_shrink_and_the_dead_are_frozen() {
    let config = Config::default();
    let mut sim = Simulation::new(config, 9001);
    for _ in 0..30 {
        let before: Vec<(u64, bool)> = (0..sim.num_things())
            .map(|i| {
                let t = sim.thing(i);
                (t.size, t.alive)
            })
            .collect();
        sim.step();
        for (i, &(size, alive)) in before.iter().enumerate() {
            let t = sim.thing(i);
            assert!(t.size >= size, "entity {} shrank", i);
            if !alive {
                assert_eq!(t.size, size, "dead entity {} changed size", i);
                assert!(!t.alive, "dead entity {} came back", i);
            }
        }
    }
}

#[test]
fn parents_precede_children_and_lists_agree() {
    let config = Config::default();
    let mut sim = Simulation::new(config, 31337);
    for _ in 0..50 {
        sim.step();
    }
    assert!(sim.num_things() > 2, "the run must actually have branched");
    for i in 0..sim.num_things() {
        let t = sim.thing(i);
        if let Some(p) = t.parent {
            assert!(p < i, "parent {} of {} is not earlier", p, i);
            assert!(
                sim.children_of(p).contains(&i),
                "{} missing from the child list of {}",
                i,
                p
            );
            assert_eq!(sim.thing(p).generation + 1, t.generation);
        } else {
            assert_eq!(t.generation, 0);
        }
        for c in sim.children_of(i) {
            assert!(c > i && c < sim.num_things());
            assert_eq!(sim.thing(c).parent, Some(i));
        }
    }
}

#[test]
fn index_and_scan_agree_on_a_grown_population() {
    let config = Config::default();
    let mut sim = Simulation::new(config, 5150);
    for _ in 0..60 {
        sim.step();
    }
    assert!(sim.num_things() > 2, "the run must actually have branched");
    for &(qx, qy, r) in [(0i64, 0i64, 60i64), (10, -20, 50), (-300, 300, 100), (0, 0, 2000)].iter()
    {
        let a = sorted(sim.neighbors_within(qx, qy, r));
        let b = sorted(sim.scan_within(qx, qy, r));
        assert_eq!(a, b, "index and scan disagree at ({}, {}) radius {}", qx, qy, r);
    }
}

#[test]
fn roots_are_only_activated_before_the_cutoff() {
    // with the cutoff at zero the root never receives energy, so
    // nothing ever happens
    let config = Config { activation_cutoff: 0, ..Config::default() };
    let mut sim = Simulation::new(config, 1);
    for _ in 0..10 {
        sim.step();
    }
    assert_eq!(sim.num_things(), 1);
    let root = sim.thing(0);
    assert_eq!(root.energy, 0);
    assert_eq!(root.size, 1);
    assert!(root.alive);
    assert!(!root.grown);
}

#[test]
fn lone_root_grows_to_the_cap_and_dies() {
    // a lone root with nothing nearby grows by one unit per step
    // until it passes the cap, then dies of old size
    let config = Config { branch_num: 0, ..Config::default() };
    let mut sim = Simulation::new(config, 3);
    for _ in 0..29 {
        sim.step();
        assert!(sim.thing(0).alive);
    }
    assert_eq!(sim.thing(0).size, 30);
    sim.step();
    let root = sim.thing(0);
    assert!(!root.alive, "past the cap the entity dies");
    assert_eq!(root.size, 30);
    assert_eq!(sim.num_things(), 1);
}

#[test]
fn rejected_candidates_still_cost_energy() {
    // a domain too small for any candidate: every branch attempt is
    // rejected, no child appears, yet each attempt costs one energy
    // unit and the root keeps growing undisturbed
    let config = Config {
        half_extent: 1,
        branch_num: 1,
        branch_den: 1,
        ..Config::default()
    };
    let mut sim = Simulation::new(config, 11);
    sim.step();
    assert_eq!(sim.num_things(), 1);
    let root = sim.thing(0);
    assert!(root.alive);
    assert_eq!(root.energy, 9999);
    assert_eq!(root.size, 2);
    assert!(sim.children_of(0).is_empty());
}

#[test]
fn an_empty_population_steps_quietly() {
    let config = Config::default();
    let mut sim = Simulation::with_roots(config, 5, &Vec::new());
    for _ in 0..3 {
        sim.step();
    }
    assert_eq!(sim.num_things(), 0);
    assert_eq!(sim.steps_taken(), 3);
}

#[test]
fn snapshot_accessors_report_the_configuration() {
    let config = Config::default();
    let sim = Simulation::new(config, 77);
    assert_eq!(sim.config(), config);
    assert_eq!(sim.steps_taken(), 0);
    assert!(Config::default().is_valid());
    let bad = Config { branch_den: 0, ..Config::default() };
    assert!(!bad.is_valid());
}
