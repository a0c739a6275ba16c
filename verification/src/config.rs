use vstd::prelude::*;

verus! {

/// Configuration of a growth simulation, fixed at construction.
///
/// All lengths are plane units, all energies are energy units. The
/// branch probability is the fraction `branch_num / branch_den`.
#[derive(Clone, Copy, PartialEq, Eq, Structural, Debug)]
pub struct Config {
    /// Candidate children beyond this half-extent on either axis are rejected.
    pub half_extent: i64,
    /// Radius of the spatial-index query that guards branching.
    pub branch_radius: i64,
    /// Radius of the spatial-index query that guards growth.
    pub growth_radius: i64,
    /// Extra gap demanded between two entities' surfaces during growth.
    pub clearance: u64,
    /// Size of a newly created entity.
    pub initial_size: u64,
    /// How much an entity grows per step while marked grown.
    pub size_incr: u64,
    /// An entity whose size exceeds this cap dies instead of growing.
    pub size_cap: u64,
    /// Energy injected into every live root per step before the cutoff.
    pub root_energy: u64,
    /// Energy above which an entity branches and feeds its children.
    pub branch_threshold: u64,
    /// Energy handed to each child when a parent propagates.
    pub child_energy: u64,
    /// Numerator of the branch probability.
    pub branch_num: u64,
    /// Denominator of the branch probability.
    pub branch_den: u64,
    /// Steps during which roots keep receiving energy.
    pub activation_cutoff: u64,
}

impl Config {
    /// Bounds under which every computation of a step fits in the
    /// machine integers used.
    pub open spec fn valid(self) -> bool {
        &&& 0 < self.branch_den
        &&& self.branch_num <= self.branch_den
        &&& 0 <= self.half_extent <= 0x100_0000
        &&& 0 <= self.branch_radius <= 0x100_0000
        &&& 0 <= self.growth_radius <= 0x100_0000
        &&& self.clearance <= 0x1_0000
        &&& 1 <= self.initial_size <= 0x1_0000
        &&& 1 <= self.size_incr <= 0x1_0000
        &&& self.initial_size <= self.size_cap <= 0x1_0000
    }

    /// Checks `valid` at run time, for callers that assemble a
    /// configuration from unchecked input.
    pub fn is_valid(&self) -> (r: bool)
        ensures
            r == self.valid(),
    {
        0 < self.branch_den
            && self.branch_num <= self.branch_den
            && 0 <= self.half_extent && self.half_extent <= 0x100_0000
            && 0 <= self.branch_radius && self.branch_radius <= 0x100_0000
            && 0 <= self.growth_radius && self.growth_radius <= 0x100_0000
            && self.clearance <= 0x1_0000
            && 1 <= self.initial_size && self.initial_size <= 0x1_0000
            && 1 <= self.size_incr && self.size_incr <= 0x1_0000
            && self.initial_size <= self.size_cap && self.size_cap <= 0x1_0000
    }
}

/// Positions of entities never leave this bound: candidates are kept
/// inside the domain, and a growth reposition that would pass the
/// bound is skipped.
pub open spec fn pos_bound(c: Config) -> int {
    c.half_extent + 4 * (c.size_cap + c.size_incr) + 8
}

/// Computes `pos_bound` on machine integers.
pub fn pos_bound_i64(c: &Config) -> (b: i64)
    requires
        c.valid(),
    ensures
        b == pos_bound(*c),
        0 < b <= 0x200_0000,
{
    c.half_extent + 4 * ((c.size_cap + c.size_incr) as i64) + 8
}

impl Default for Config {
    /// The stock configuration: domain half-extent 450, query radii
    /// 50 and 60, clearance 1, sizes starting at 1, growing by 1 and
    /// capped at 29, roots fed 10000 energy per step for the first
    /// 1000 steps, branch threshold 10, child feed 3, and branch
    /// probability one fifth.
    fn default() -> (c: Config)
        ensures
            c.valid(),
            c == (Config {
                half_extent: 450,
                branch_radius: 50,
                growth_radius: 60,
                clearance: 1,
                initial_size: 1,
                size_incr: 1,
                size_cap: 29,
                root_energy: 10000,
                branch_threshold: 10,
                child_energy: 3,
                branch_num: 1,
                branch_den: 5,
                activation_cutoff: 1000,
            }),
    {
        Config {
            half_extent: 450,
            branch_radius: 50,
            growth_radius: 60,
            clearance: 1,
            initial_size: 1,
            size_incr: 1,
            size_cap: 29,
            root_energy: 10000,
            branch_threshold: 10,
            child_energy: 3,
            branch_num: 1,
            branch_den: 5,
            activation_cutoff: 1000,
        }
    }
}

} // verus!
