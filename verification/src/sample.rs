//! Stochastic sampling rules: recombination breakpoints, parent selection
//! with rare migration, and mutation placement.

use vstd::prelude::*;
use crate::entropy::{rng_below, rng_ratio};

verus! {

/// Sample a recombination breakpoint strictly inside the genome `[0, seqlen)`,
/// never on either boundary.
pub fn find_breakpoint(rng: &mut rand::rngs::StdRng, seqlen: usize) -> (bp: usize)
    requires
        seqlen >= 2,
    ensures
        1 <= bp < seqlen,
{
    rng_below(rng, 1, seqlen)
}

/// Select one parent chromosome pair for a child of population `child_pop`
/// (0 is the ancestral population, 1 and 2 the two descendant ones).  The
/// first half of the pool belongs to population 1, the second half to
/// population 2.  A child of population 1 or 2 draws from the other
/// subpopulation with probability 1/100; an ancestral child draws uniformly
/// from the whole pool and never migrates.
pub fn find_parent(
    rng: &mut rand::rngs::StdRng,
    parents: &Vec<(usize, usize)>,
    child_pop: usize,
) -> (r: ((usize, usize), usize))
    requires
        parents@.len() >= 2,
        parents@.len() % 2 == 0,
        child_pop < 3,
    ensures
        r.1 < 3,
        child_pop == 0 ==> r.1 == 0,
        child_pop != 0 ==> r.1 == 1 || r.1 == 2,
        exists|i: int| 0 <= i < parents@.len() && r.0 == #[trigger] parents@[i],
        r.1 == 1 ==> (exists|i: int| 0 <= i < parents@.len() / 2 && r.0 == #[trigger] parents@[i]),
        r.1 == 2 ==> (exists|i: int|
            parents@.len() / 2 <= i < parents@.len() && r.0 == #[trigger] parents@[i]),
{
    let pop_size = parents.len();
    let mut parent_pop: usize = child_pop;
    let is_migrant = child_pop != 0 && rng_ratio(rng, 1, 100);
    if is_migrant {
        parent_pop = if child_pop == 1 {
            2
        } else {
            1
        };
    }
    let idx: usize = if parent_pop == 0 {
        rng_below(rng, 0, pop_size)
    } else if parent_pop == 1 {
        rng_below(rng, 0, pop_size / 2)
    } else {
        rng_below(rng, pop_size / 2, pop_size)
    };
    let pair = parents[idx];
    proof {
        assert(pair == parents@[idx as int]);
    }
    (pair, parent_pop)
}

/// Sample a mutation position uniformly inside the segment `[start, end)`.
pub fn find_mutation_pos(rng: &mut rand::rngs::StdRng, start: usize, end: usize) -> (pos: usize)
    requires
        start < end,
    ensures
        start <= pos < end,
{
    rng_below(rng, start, end)
}

/// The one-character allelic code of the next mutation at a site that has
/// already seen `count` mutations: `'a'` advanced by `count + 1`, capped at
/// `'a' + 45`.
pub open spec fn derived_state_of(count: nat) -> u8 {
    // 97 is the character code of 'a'.
    (97 + if count + 1 > 45 {
        45nat
    } else {
        count + 1
    }) as u8
}

/// Derive the allelic state for a new mutation at `mut_pos` from the running
/// per-position mutation counters.
pub fn calc_derived_state(site_last_mutation_order: &Vec<usize>, mut_pos: usize) -> (state: u8)
    requires
        mut_pos < site_last_mutation_order@.len(),
    ensures
        state == derived_state_of(site_last_mutation_order@[mut_pos as int] as nat),
{
    let count = site_last_mutation_order[mut_pos];
    if count >= 45 {
        97 + 45
    } else {
        97 + (count as u8) + 1
    }
}

} // verus!
