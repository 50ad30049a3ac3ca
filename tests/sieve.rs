use primes_rs::manager::{fan_out, new_spokes, pop_next_prime, seed_queue, sieve};
use primes_rs::merge::merge;
use primes_rs::segment::MappedBitVec;
use primes_rs::task::{calculate_next_prime, initialize_vec, Spoke};
use primes_rs::wheel::{hops, relative_prime, DIFFS, MOD, MULTIPLICATION_TABLE, RELATIVE_PRIMES};

fn is_prime(n: usize) -> bool {
    if n < 2 {
        return false;
    }
    let mut d = 2;
    while d * d <= n {
        if n % d == 0 {
            return false;
        }
        d += 1;
    }
    true
}

fn trial_division(max: usize) -> Vec<usize> {
    (2..=max).filter(|&n| is_prime(n)).collect()
}

#[test]
fn sieve_of_one_hundred() {
    assert_eq!(
        vec![
            2, 3, 5, 7, 11, 13, 17, 19, 23, 29, 31, 37, 41, 43, 47, 53, 59, 61, 67, 71, 73, 79, 83,
            89, 97
        ],
        sieve(100)
    );
}

#[test]
fn sieve_of_thirty() {
    assert_eq!(vec![2, 3, 5, 7, 11, 13, 17, 19, 23, 29], sieve(30));
}

#[test]
fn sieve_boundaries() {
    assert_eq!(Vec::<usize>::new(), sieve(0));
    assert_eq!(Vec::<usize>::new(), sieve(1));
    assert_eq!(vec![2], sieve(2));
    assert_eq!(vec![2, 3], sieve(3));
    assert_eq!(vec![2, 3, 5], sieve(6));
    assert_eq!(vec![2, 3, 5, 7], sieve(7));
}

#[test]
fn sieve_matches_trial_division() {
    for max in [30, 31, 48, 49, 50, 100, 121, 1000, 100000] {
        assert_eq!(trial_division(max), sieve(max), "max = {}", max);
    }
}

#[test]
fn sieve_of_small_bounds_matches_trial_division() {
    for max in 0..400 {
        assert_eq!(trial_division(max), sieve(max), "max = {}", max);
    }
}

#[test]
fn routing_table_matches_residues() {
    for i in 0..8 {
        let p = RELATIVE_PRIMES[i];
        let mut relative = p;
        for j in 0..8 {
            relative += DIFFS[i][j];
            let dest = MULTIPLICATION_TABLE[i][j];
            assert_eq!((p * relative) % MOD, RELATIVE_PRIMES[dest] % MOD, "i = {}, j = {}", i, j);
        }
    }
}

#[test]
fn hops_of_seven() {
    assert_eq!(vec![(49, 4), (77, 3), (91, 7)], hops(7, 0, 100));
    assert_eq!(vec![(49, 4)], hops(7, 0, 49));
    assert_eq!(Vec::<(usize, usize)>::new(), hops(7, 0, 48));
    assert_eq!(8, hops(7, 0, 1000).len());
    assert_eq!(7, relative_prime(0));
    assert_eq!(31, relative_prime(7));
}

#[test]
fn initialize_vec_covers_the_class() {
    let w = MappedBitVec::new(initialize_vec(7, 30, 100), 30, 7);
    assert_eq!(vec![7, 37, 67, 97], w.to_vec());
    let w = MappedBitVec::new(initialize_vec(31, 30, 30), 30, 31);
    assert_eq!(0, w.max_len());
    let w = MappedBitVec::new(initialize_vec(31, 30, 2), 30, 31);
    assert_eq!(0, w.max_len());
}

#[test]
fn marking_clears_at_stride() {
    let mut w = MappedBitVec::new(initialize_vec(19, 30, 1000), 30, 19);
    primes_rs::task::sieve(7, 49, 30, 0, &mut w);
    let left = w.to_vec();
    for v in [49, 259, 469, 679, 889] {
        assert!(!left.contains(&v));
    }
    assert!(left.contains(&19));
    assert!(left.contains(&79));
    assert_eq!(calculate_next_prime(4, &w, 1), Some((79, 2, 4)));
}

#[test]
fn marking_twice_is_idempotent() {
    let mut s = Spoke::new(4, 19, 30, 1000);
    s.sieve(7, 49);
    let once = s.to_vec();
    s.sieve(7, 49);
    assert_eq!(once, s.to_vec());
}

#[test]
fn marking_past_the_end_is_a_no_op() {
    let mut s = Spoke::new(0, 7, 30, 100);
    let before = s.to_vec();
    s.sieve(7, 1027);
    assert_eq!(before, s.to_vec());
}

#[test]
fn revalidation_skips_a_cleared_candidate() {
    let mut spokes = new_spokes(1000);
    let mut queue = seed_queue(&spokes, 1000);
    assert!(queue.contains(&(7, 0, 0)));
    // A marking that reaches the queued candidate 7 before it is taken.
    spokes[0].sieve(7, 7);
    let next = pop_next_prime(&spokes, &mut queue, 1000);
    assert_eq!(Some((11, 0, 1)), next);
    assert!(!queue.iter().any(|e| e.0 == 7));
    assert!(queue.contains(&(37, 1, 0)));
}

#[test]
fn coordinator_takes_primes_in_order() {
    let mut spokes = new_spokes(1000);
    let mut queue = seed_queue(&spokes, 1000);
    let mut taken = Vec::new();
    while !queue.is_empty() {
        if let Some((p, _, s)) = pop_next_prime(&spokes, &mut queue, 1000) {
            taken.push(p);
            fan_out(&mut spokes, p, s, 1000);
        }
    }
    assert_eq!(vec![7, 11, 13, 17, 19, 23, 29, 31], taken);
}

#[test]
fn merge_interleaves_lists() {
    let lists = vec![vec![2, 3, 5], vec![7, 37], vec![11, 41], vec![], vec![31]];
    assert_eq!(vec![2, 3, 5, 7, 11, 31, 37, 41], merge(&lists));
    assert_eq!(Vec::<usize>::new(), merge(&Vec::new()));
}

#[test]
fn merge_keeps_repeated_values() {
    let lists = vec![vec![1, 4, 4, 9], vec![4, 5], vec![0]];
    assert_eq!(vec![0, 1, 4, 4, 4, 5, 9], merge(&lists));
}

#[test]
fn merge_keeps_each_copy_once() {
    let lists = vec![vec![1, 1], vec![2]];
    assert_eq!(vec![1, 1, 2], merge(&lists));
}

#[test]
fn empty_queue_gives_none() {
    let spokes = new_spokes(100);
    let mut queue = Vec::new();
    assert_eq!(None, pop_next_prime(&spokes, &mut queue, 100));
    assert!(queue.is_empty());
}

#[test]
fn seed_queue_holds_one_entry_per_spoke() {
    let spokes = new_spokes(1000);
    let queue = seed_queue(&spokes, 1000);
    assert_eq!(
        vec![(7, 0, 0), (11, 0, 1), (13, 0, 2), (17, 0, 3), (19, 0, 4), (23, 0, 5), (29, 0, 6), (31, 0, 7)],
        queue
    );
    let queue = seed_queue(&new_spokes(200), 200);
    assert_eq!(vec![(7, 0, 0), (11, 0, 1), (13, 0, 2)], queue);
}
