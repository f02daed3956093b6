use forward_sim::sample::{calc_derived_state, find_breakpoint, find_mutation_pos, find_parent};
use rand::SeedableRng;

#[test]
fn derived_state_advances_from_a() {
    // 97 is 'a'; a position with no prior mutation gets 'b'.
    let order: Vec<usize> = vec![0, 1, 2, 44, 45, 1000];
    assert_eq!(calc_derived_state(&order, 0), b'b');
    assert_eq!(calc_derived_state(&order, 1), b'c');
    assert_eq!(calc_derived_state(&order, 2), b'd');
    assert_eq!(calc_derived_state(&order, 3), b'a' + 45);
}

#[test]
fn derived_state_caps_at_45() {
    let order: Vec<usize> = vec![45, 1000];
    assert_eq!(calc_derived_state(&order, 0), b'a' + 45);
    assert_eq!(calc_derived_state(&order, 1), b'a' + 45);
}

#[test]
fn breakpoints_stay_strictly_inside_the_genome() {
    let mut rng = rand::rngs::StdRng::seed_from_u64(7);
    for _ in 0..2000 {
        let bp = find_breakpoint(&mut rng, 10);
        assert!(bp >= 1 && bp < 10);
    }
}

#[test]
fn breakpoints_are_not_constant() {
    let mut rng = rand::rngs::StdRng::seed_from_u64(7);
    let first = find_breakpoint(&mut rng, 1000);
    let mut saw_other = false;
    for _ in 0..100 {
        if find_breakpoint(&mut rng, 1000) != first {
            saw_other = true;
        }
    }
    assert!(saw_other);
}

#[test]
fn mutation_positions_stay_inside_the_segment() {
    let mut rng = rand::rngs::StdRng::seed_from_u64(11);
    for _ in 0..2000 {
        let pos = find_mutation_pos(&mut rng, 3, 8);
        assert!(pos >= 3 && pos < 8);
    }
}

#[test]
fn ancestral_children_never_migrate() {
    let mut rng = rand::rngs::StdRng::seed_from_u64(42);
    let pool: Vec<(usize, usize)> = (0..20000usize).map(|i| (2 * i, 2 * i + 1)).collect();
    for _ in 0..20000 {
        let (pair, parent_pop) = find_parent(&mut rng, &pool, 0);
        assert_eq!(parent_pop, 0);
        assert!(pool.contains(&pair));
    }
}

#[test]
fn descendant_children_draw_from_the_matching_half() {
    let mut rng = rand::rngs::StdRng::seed_from_u64(42);
    let pool: Vec<(usize, usize)> = (0..1000usize).map(|i| (2 * i, 2 * i + 1)).collect();
    let half = pool.len() / 2;
    for _ in 0..5000 {
        let (pair, parent_pop) = find_parent(&mut rng, &pool, 1);
        assert!(parent_pop == 1 || parent_pop == 2);
        let idx = pair.0 / 2;
        if parent_pop == 1 {
            assert!(idx < half);
        } else {
            assert!(idx >= half);
        }
    }
    for _ in 0..5000 {
        let (pair, parent_pop) = find_parent(&mut rng, &pool, 2);
        assert!(parent_pop == 1 || parent_pop == 2);
        let idx = pair.0 / 2;
        if parent_pop == 2 {
            assert!(idx >= half);
        } else {
            assert!(idx < half);
        }
    }
}
