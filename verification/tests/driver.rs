use forward_sim::sim::{simulate_two_records, SimError};
use forward_sim::tables::Tables;

fn run(
    seqlen: usize,
    pop_size: usize,
    start_time: usize,
    split_time: usize,
    intervals: Vec<(usize, usize)>,
    seed: u64,
) -> (Tables, Tables) {
    simulate_two_records(seqlen, pop_size, start_time, split_time, &intervals, seed).unwrap()
}

/// Mutation count per tick position of one record.
fn counts_by_position(t: &Tables, seqlen: usize) -> Vec<usize> {
    let mut counts = vec![0usize; seqlen];
    let sites = t.sites.as_ref();
    for m in &t.mutations {
        counts[sites[m.site].position] += 1;
    }
    counts
}

#[test]
fn same_seed_gives_identical_records() {
    let a = run(10, 4, 3, 1, vec![(2, 5)], 42);
    let b = run(10, 4, 3, 1, vec![(2, 5)], 42);
    assert_eq!(a.0, b.0);
    assert_eq!(a.1, b.1);

    let c = run(50, 10, 6, 2, vec![(0, 7), (20, 31)], 987654321);
    let d = run(50, 10, 6, 2, vec![(0, 7), (20, 31)], 987654321);
    assert_eq!(c.0, d.0);
    assert_eq!(c.1, d.1);
}

#[test]
fn scenario_keep_interval_2_to_5() {
    let (full, trunc) = run(10, 4, 3, 1, vec![(2, 5)], 42);
    assert!(full.edges.len() > 0);
    assert!(trunc.edges.len() > 0);
    assert_eq!(full.nodes.len(), 2 * 4 * (3 + 1));
    for e in &trunc.edges {
        assert!(e.left >= 2 && e.right <= 5);
        assert!(e.left <= e.right);
    }
    // Both records order every edge child strictly younger than its parent,
    // the shape the storage engine's sort and simplification steps need.
    for t in [&full, &trunc] {
        for e in &t.edges {
            assert!(t.nodes[e.parent].time == t.nodes[e.child].time + 1);
        }
    }
}

#[test]
fn whole_genome_interval_mirrors_the_full_record() {
    let (full, trunc) = run(10, 4, 3, 1, vec![(0, 10)], 42);
    assert_eq!(full.edges, trunc.edges);
    assert_eq!(full, trunc);
}

#[test]
fn empty_interval_list_gives_an_empty_truncated_record() {
    let (full, trunc) = run(10, 4, 3, 1, Vec::new(), 42);
    assert_eq!(trunc.edges.len(), 0);
    assert_eq!(trunc.sites.num_rows(), 0);
    assert_eq!(trunc.mutations.len(), 0);
    assert_eq!(full.edges.len(), 4 * 4 * 3);
    assert_eq!(full.individuals.len(), 4 * (3 + 1));
    assert_eq!(full.nodes.len(), 2 * 4 * (3 + 1));
}

#[test]
fn individuals_match_across_records() {
    let (full, trunc) = run(12, 6, 4, 2, vec![(3, 9)], 5);
    assert_eq!(full.individuals, trunc.individuals);
    assert_eq!(full.nodes, trunc.nodes);
    // Founders have no parents, every later individual has two.
    for ind in &full.individuals[..6] {
        assert!(ind.parents.is_none());
    }
    for ind in &full.individuals[6..] {
        let (p1, p2) = ind.parents.unwrap();
        assert!(p1 < ind.id && p2 < ind.id);
    }
}

#[test]
fn truncated_edges_are_the_clipped_full_edges_in_order() {
    let (full, trunc) = run(20, 4, 5, 2, vec![(1, 4), (9, 15)], 77);
    let intervals = [(1usize, 4usize), (9usize, 15usize)];
    let mut expected = Vec::new();
    for e in &full.edges {
        for &(m, n) in intervals.iter() {
            if n <= e.left || e.right <= m {
                continue;
            }
            let left = if m < e.left { e.left } else { m };
            let right = if n < e.right { n } else { e.right };
            expected.push((left, right, e.parent, e.child));
        }
    }
    let got: Vec<(usize, usize, usize, usize)> =
        trunc.edges.iter().map(|e| (e.left, e.right, e.parent, e.child)).collect();
    assert_eq!(got, expected);
}

#[test]
fn truncated_sites_and_mutations_are_a_subset() {
    let (full, trunc) = run(30, 8, 5, 2, vec![(4, 11), (17, 23)], 99);
    let full_positions: Vec<usize> = full.sites.as_ref().iter().map(|s| s.position).collect();
    for s in trunc.sites.as_ref() {
        assert!(full_positions.contains(&s.position));
    }
    let full_counts = counts_by_position(&full, 30);
    let trunc_counts = counts_by_position(&trunc, 30);
    for p in 0..30 {
        assert!(trunc_counts[p] <= full_counts[p]);
    }
    // With at least one mutation placed, the derived states start at 'b'.
    for m in &full.mutations {
        assert!(m.derived_state >= b'b' && m.derived_state <= b'a' + 45);
    }
}

#[test]
fn sample_flags_mark_exactly_the_final_generation() {
    let (full, trunc) = run(10, 4, 3, 1, vec![(2, 5)], 42);
    for n in &full.nodes {
        assert_eq!(n.is_sample, n.time == 0);
    }
    let samples = full.sample_nodes();
    assert_eq!(samples.len(), 2 * 4);
    for id in &samples {
        assert_eq!(full.nodes[*id].time, 0);
        assert_eq!(trunc.nodes[*id].time, 0);
        assert!(trunc.nodes[*id].is_sample);
    }
}

#[test]
fn populations_carry_the_three_role_names() {
    let (full, trunc) = run(10, 4, 3, 1, vec![(2, 5)], 1);
    assert_eq!(full.populations, vec!["ancestor", "pop1", "pop2"]);
    assert_eq!(trunc.populations, vec!["ancestor", "pop1", "pop2"]);
    for n in &full.nodes {
        assert!(n.population < 3);
    }
}

#[test]
fn mutations_chain_to_the_previous_mutation_at_their_site() {
    let (full, trunc) = run(30, 8, 5, 2, vec![(4, 11), (17, 23)], 99);
    assert!(full.mutations.len() > 0);
    for t in [&full, &trunc] {
        for (k, m) in t.mutations.iter().enumerate() {
            match m.parent {
                Some(l) => {
                    assert!(l < k);
                    assert_eq!(t.mutations[l].site, m.site);
                    for j in l + 1..k {
                        assert_ne!(t.mutations[j].site, m.site);
                    }
                }
                None => {
                    for j in 0..k {
                        assert_ne!(t.mutations[j].site, m.site);
                    }
                }
            }
        }
    }
}

#[test]
fn derived_states_follow_the_running_count() {
    let (full, _trunc) = run(10, 8, 6, 2, vec![], 3);
    let sites = full.sites.as_ref();
    let mut count = vec![0usize; 10];
    for m in &full.mutations {
        let pos = sites[m.site].position;
        let expected = 97 + std::cmp::min(count[pos] + 1, 45) as u8;
        assert_eq!(m.derived_state, expected);
        count[pos] += 1;
    }
}

#[test]
fn split_time_not_before_start_time_is_refused() {
    let r = simulate_two_records(10, 4, 3, 3, &vec![(2, 5)], 42);
    assert_eq!(r.unwrap_err(), SimError::SplitTimeNotBeforeStartTime);
    let r = simulate_two_records(10, 4, 2, 5, &vec![(2, 5)], 42);
    assert_eq!(r.unwrap_err(), SimError::SplitTimeNotBeforeStartTime);
}

#[test]
fn odd_population_size_is_refused() {
    let r = simulate_two_records(10, 5, 3, 1, &vec![(2, 5)], 42);
    assert_eq!(r.unwrap_err(), SimError::OddPopulationSize);
}

#[test]
fn unsorted_or_overlapping_intervals_are_refused() {
    let r = simulate_two_records(10, 4, 3, 1, &vec![(5, 2)], 42);
    assert_eq!(r.unwrap_err(), SimError::BadKeepIntervals);
    let r = simulate_two_records(10, 4, 3, 1, &vec![(0, 3), (2, 5)], 42);
    assert_eq!(r.unwrap_err(), SimError::BadKeepIntervals);
}

#[test]
fn ancestral_generations_have_no_split_populations() {
    // Offspring born at or before the split time are all ancestral; only
    // strictly earlier generations split into the two descendant populations.
    let (full, _trunc) = run(10, 4, 3, 1, vec![(2, 5)], 42);
    for n in &full.nodes {
        if n.time <= 1 {
            assert_eq!(n.population, 0);
        }
    }
    // Generations strictly after the split time (looking backward) are split
    // half and half.
    let split_nodes: Vec<_> = full.nodes.iter().filter(|n| n.time == 2).collect();
    assert_eq!(split_nodes.len(), 2 * 4);
    assert!(split_nodes.iter().filter(|n| n.population == 1).count() == 4);
    assert!(split_nodes.iter().filter(|n| n.population == 2).count() == 4);
}
