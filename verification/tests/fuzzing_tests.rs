use rand::rngs::StdRng;
use rand::SeedableRng;
use trs_fuzz::invariants::check_chain_preserves_invariants;
use trs_fuzz::rewriting::dedup_rules;
use trs_fuzz::fuzzing::{fuzz_nf_compare, fuzz_test_forward, normal_forms_meet, rand_word, random_chain, shares_word, ALPHABET};
use trs_fuzz::rewriting::neighbors_fwd;
use trs_fuzz::{build_tprime, rules_from, rules_t};

#[test]
fn rand_word_respects_bounds_and_alphabet() {
    let mut rng = StdRng::seed_from_u64(7);
    for _ in 0..50 {
        let w = rand_word(&ALPHABET, 2, 6, &mut rng);
        let n = w.chars().count();
        assert!((2..=6).contains(&n));
        assert!(w.chars().all(|c| ALPHABET.contains(&c)));
    }
    assert_eq!(rand_word(&[], 0, 0, &mut rng), "");
}

#[test]
fn random_chain_steps_are_rewrites() {
    let t = rules_t();
    let mut rng = StdRng::seed_from_u64(11);
    for _ in 0..20 {
        let w = rand_word(&ALPHABET, 3, 8, &mut rng);
        let chain = random_chain(&w, &t, 1, 5, &mut rng);
        assert_eq!(chain[0], w);
        assert!(chain.len() <= 6);
        for pair in chain.windows(2) {
            assert!(neighbors_fwd(&pair[0], &t).contains(&pair[1]));
        }
        if chain.len() < 2 {
            assert!(neighbors_fwd(chain.last().unwrap(), &t).is_empty());
        }
    }
}

#[test]
fn random_chain_stops_at_a_normal_form() {
    let t = rules_t();
    let mut rng = StdRng::seed_from_u64(3);
    let chain = random_chain("CCC", &t, 2, 4, &mut rng);
    assert_eq!(chain, vec!["CCC".to_string()]);
}

#[test]
fn shares_word_finds_a_common_word() {
    let a = vec!["X".to_string(), "Y".to_string()];
    let b = vec!["Z".to_string(), "Y".to_string()];
    let c = vec!["Z".to_string()];
    assert!(shares_word(&a, &b));
    assert!(!shares_word(&a, &c));
    assert!(!shares_word(&vec![], &b));
}

#[test]
fn normal_forms_meet_on_joinable_words() {
    let t = rules_t();
    assert!(normal_forms_meet("GFFI", "GGFI", &t, 50, 10_000));
    assert!(!normal_forms_meet("GGFI", "GHGH", &t, 50, 10_000));
}

#[test]
fn fuzz_nf_compare_counts_every_trial() {
    let t = rules_t();
    let tp = build_tprime();
    let (s, f) = fuzz_nf_compare(&t, &tp, 20, 1, 6, 1, 4, 20, 2_000, 7);
    assert_eq!(s + f, 20);
    let (s, f) = fuzz_nf_compare(&t, &tp, 0, 1, 6, 1, 4, 20, 2_000, 7);
    assert_eq!((s, f), (0, 0));
}

#[test]
fn fuzz_nf_compare_is_reproducible() {
    let t = rules_t();
    let tp = build_tprime();
    let a = fuzz_nf_compare(&t, &tp, 15, 1, 6, 1, 4, 20, 2_000, 42);
    let b = fuzz_nf_compare(&t, &tp, 15, 1, 6, 1, 4, 20, 2_000, 42);
    assert_eq!(a, b);
}

#[test]
fn invariants_hold_along_t_and_tprime_chains() {
    let t = rules_t();
    let tp = build_tprime();
    assert_eq!(fuzz_test_forward(&t, 40, 10, 30, 1, 12, 7, &ALPHABET), (40, 0));
    assert_eq!(fuzz_test_forward(&tp, 40, 10, 30, 1, 12, 7, &ALPHABET), (40, 0));
}

#[test]
fn a_rule_that_changes_q_count_is_caught() {
    let rules = rules_from(&[("A", "Q")]);
    let (ok, fail) = fuzz_test_forward(&rules, 10, 5, 5, 1, 1, 1, &['A']);
    assert_eq!((ok, fail), (0, 10));
}

#[test]
fn normal_forms_meet_when_searches_complete() {
    let t = rules_t();
    // GFFI and GHGH share the normal form GHGH; GGGI and GHGH are distinct normal forms.
    assert!(normal_forms_meet("GFFI", "GHGH", &t, 50, 10_000));
    assert!(!normal_forms_meet("GGGI", "GHGH", &t, 50, 10_000));
    // With no room to search, nothing is found.
    assert!(!normal_forms_meet("GFFI", "GHGH", &t, 0, 0));
}

#[test]
fn fuzz_nf_compare_counts_hits_first() {
    let t = rules_t();
    let tp = build_tprime();
    let (td, tpd) = (dedup_rules(&t), dedup_rules(&tp));
    let mut rng = StdRng::seed_from_u64(11);
    let mut hits = 0usize;
    for _ in 0..25 {
        let w = rand_word(&ALPHABET, 1, 6, &mut rng);
        let chain = random_chain(&w, &td, 1, 4, &mut rng);
        if normal_forms_meet(&w, chain.last().unwrap(), &tpd, 20, 2_000) {
            hits += 1;
        }
    }
    assert_eq!(fuzz_nf_compare(&t, &tp, 25, 1, 6, 1, 4, 20, 2_000, 11), (hits, 25 - hits));
}

#[test]
fn fuzz_test_forward_counts_passing_chains_first() {
    let rules = rules_from(&[("AB", "QB"), ("C", "D")]);
    let alphabet = ['A', 'B', 'C'];
    let mut rng = StdRng::seed_from_u64(5);
    let mut passed = 0usize;
    for _ in 0..30 {
        let w = rand_word(&alphabet, 1, 5, &mut rng);
        let chain = random_chain(&w, &rules, 0, 3, &mut rng);
        if check_chain_preserves_invariants(&chain) {
            passed += 1;
        }
    }
    assert!(passed > 0 && passed < 30);
    assert_eq!(fuzz_test_forward(&rules, 30, 1, 5, 0, 3, 5, &alphabet), (passed, 30 - passed));
}
