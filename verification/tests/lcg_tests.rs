use rusticg::util::lcg::{java, Random, LCG};
use rusticg::util::util::{copy_of_usizes, filled_vec, Ushr};

#[test]
fn java_generator_fields() {
    let j = java();
    assert_eq!(j.multiplier, 0x5DEECE66D);
    assert_eq!(j.addend, 0xB);
    assert_eq!(j.modulus, 1 << 48);
    assert!(j.can_mask);
}

#[test]
fn new_sets_masking_from_modulus() {
    assert!(LCG::new(3, 1, 16).can_mask);
    assert!(!LCG::new(3, 1, 7).can_mask);
    assert!(LCG::new(3, 1, 0).can_mask);
}

#[test]
fn next_seed_java_values() {
    let j = java();
    assert_eq!(j.next_seed(0), 11);
    assert_eq!(j.next_seed(1), 25214903928);
}

#[test]
fn next_seed_non_power_of_two_modulus() {
    let g = LCG::new(3, 1, 7);
    assert_eq!(g.next_seed(5), 2);
    assert_eq!(g.next_seed(6), 5);
}

#[test]
fn next_seed_full_width_modulus_wraps() {
    // a modulus of zero stands for 2^64: the seed wraps around i64
    let g = LCG::new(2, 0, 0);
    assert_eq!(g.next_seed(i64::MAX), -2);
}

#[test]
fn combine_two_steps_equals_two_calls() {
    let j = java();
    let two = j.combine(2);
    assert_eq!(two.next_seed(1), 206026503483683);
    assert_eq!(two.next_seed(1), j.next_seed(j.next_seed(1)));
}

#[test]
fn combine_law_on_several_steps() {
    let j = java();
    for steps in 1..20i64 {
        let c = j.combine(steps);
        let mut seed = 987654321i64;
        let expected = {
            let mut s = seed;
            for _ in 0..steps {
                s = j.next_seed(s);
            }
            s
        };
        seed = c.next_seed(seed);
        assert_eq!(seed, expected);
    }
}

#[test]
fn combine_zero_steps_is_identity_on_reduced_seeds() {
    let j = java();
    let c = j.combine(0);
    assert_eq!(c.multiplier, 1);
    assert_eq!(c.addend, 0);
    assert_eq!(c.next_seed(12345), 12345);
}

#[test]
fn combine_negative_steps_goes_back() {
    let j = java();
    let back = j.combine(-1);
    let s = 123456789i64;
    assert_eq!(back.next_seed(j.next_seed(s)), s);
}

#[test]
fn random_seed_accessors() {
    let mut r = Random::of_seed(java(), 42);
    assert_eq!(r.get_seed(), 42);
    r.set_seed(7);
    assert_eq!(r.get_seed(), 7);
}

#[test]
fn random_advance_steps_matches_single_steps() {
    let j = java();
    let mut r = Random::of_seed(j, 5);
    r.advance_steps(3);
    assert_eq!(r.get_seed(), j.next_seed(j.next_seed(j.next_seed(5))));
    let mut q = Random::of_seed(j, 5);
    q.advance(&j);
    assert_eq!(q.get_seed(), j.next_seed(5));
}

#[test]
fn filled_vec_calls_the_function_per_index() {
    let v = filled_vec(4, |i| i * i);
    assert_eq!(v, vec![0, 1, 4, 9]);
    let e: Vec<usize> = filled_vec(0, |i| i);
    assert!(e.is_empty());
}

#[test]
fn copy_of_usizes_cuts_and_pads() {
    let v = vec![1usize, 2, 3];
    assert_eq!(copy_of_usizes(&v, 2), vec![1, 2]);
    assert_eq!(copy_of_usizes(&v, 5), vec![1, 2, 3, 0, 0]);
    assert_eq!(copy_of_usizes(&v, 0), Vec::<usize>::new());
}

#[test]
fn ushr_shifts_in_zeros() {
    assert_eq!((-1i64).ushr(60), 15);
    assert_eq!(256i64.ushr(4), 16);
    assert_eq!(i64::MIN.ushr(63), 1);
    assert_eq!(5i64.ushr(0), 5);
}

#[test]
fn combine_back_undoes_forward() {
    let j = java();
    let mask = (1i64 << 48) - 1;
    for steps in [1i64, 2, 17, 1000, -3, -123456, i64::MAX] {
        let forward = j.combine(steps);
        let back = j.combine(-steps);
        for seed in [0i64, 1, 42, 0x1234_5678_9ABC, -7] {
            assert_eq!(forward.next_seed(back.next_seed(seed)), seed & mask);
            assert_eq!(back.next_seed(forward.next_seed(seed)), seed & mask);
        }
    }
    let full = LCG::new(0x5DEECE66D, 0xB, 0);
    for seed in [0i64, 5, -9, i64::MIN] {
        assert_eq!(full.combine(77).next_seed(full.combine(-77).next_seed(seed)), seed);
    }
}
