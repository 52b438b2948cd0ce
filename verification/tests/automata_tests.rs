use rand::rngs::StdRng;
use rand::SeedableRng;
use trs_fuzz::automata::{dfa_accepts, dfa_step, nfa_accepts, nfa_add, nfa_bit, nfa_epsilon_closure, nfa_has, nfa_step, DfaState, NfaState};
use trs_fuzz::product::{
    dfa_ac_constraint_accepts, dfa_contains_b_accepts, dfa_even_c_count_accepts, dfa_even_length_accepts,
    dfa_no_bb_suffix_accepts, dfa_no_ccc_accepts, pka_accepts,
};
use trs_fuzz::regexes::{
    abc_word, all_equal, automata_fuzz_step, evaluate_word, FuzzStep, FuzzTally, WordVerdicts, extended_regex_accepts, extended_regex_checked, random_word, regex_accepts, FancyMatcher,
    RegexMatcher, EXTENDED_REGEX_PATTERN, REGEX_PATTERN,
};

const SAMPLES: &[(&str, bool)] = &[
    ("", true),
    ("ab", true),
    ("ba", false),
    ("abab", true),
    ("aaab", false),
    ("abba", true),
    ("bccb", true),
    ("cbbc", true),
    ("bcbbcb", true),
    ("aa", false),
    ("abc", false),
    ("abbcbc", true),
    ("abcb", false),
    ("bc", false),
    ("babaab", true),
    ("ccc", false),
    ("abxab", false),
    ("bbab", false),
];

#[test]
fn nfa_bits() {
    assert_eq!(nfa_bit(NfaState::Start), 1);
    assert_eq!(nfa_bit(NfaState::BMidBc), 1 << 14);
    let mut s = 0u32;
    nfa_add(&mut s, NfaState::AIn);
    assert!(nfa_has(s, NfaState::AIn));
    assert!(!nfa_has(s, NfaState::Start));
    assert_eq!(nfa_epsilon_closure(nfa_bit(NfaState::Start)), 1 | (1 << 1) | (1 << 9));
    assert_eq!(nfa_epsilon_closure(nfa_bit(NfaState::AIn)), 1 << 1);
    assert_eq!(nfa_step(nfa_bit(NfaState::AIn), 'a'), (1 << 2) | (1 << 3));
    assert_eq!(nfa_step(nfa_bit(NfaState::AIn), 'c'), 0);
}

#[test]
fn dfa_steps() {
    assert_eq!(dfa_step(DfaState::Q1, 'a'), DfaState::Q5);
    assert_eq!(dfa_step(DfaState::Q17, 'c'), DfaState::Q2);
    assert_eq!(dfa_step(DfaState::Q3, 'a'), DfaState::Dead);
    assert_eq!(dfa_step(DfaState::Q1, 'x'), DfaState::Dead);
}

#[test]
fn automata_on_sample_words() {
    for (w, expected) in SAMPLES {
        assert_eq!(nfa_accepts(w), *expected, "nfa on {:?}", w);
        assert_eq!(dfa_accepts(w), *expected, "dfa on {:?}", w);
        assert_eq!(pka_accepts(w), *expected, "pka on {:?}", w);
    }
}

#[test]
fn regexes_on_sample_words() {
    let reg = RegexMatcher::new(REGEX_PATTERN).unwrap();
    let ext = FancyMatcher::new(EXTENDED_REGEX_PATTERN).unwrap();
    for (w, expected) in SAMPLES {
        assert_eq!(regex_accepts(&reg, w), *expected, "regex on {:?}", w);
        assert_eq!(extended_regex_checked(&ext, w), Some(*expected), "extended on {:?}", w);
        assert_eq!(extended_regex_accepts(&ext, w), *expected, "extended on {:?}", w);
    }
}

#[test]
fn bad_patterns_do_not_compile() {
    assert!(RegexMatcher::new("(").is_none());
    assert!(FancyMatcher::new("(").is_none());
}

#[test]
fn property_automata() {
    assert!(dfa_even_length_accepts("ab"));
    assert!(!dfa_even_length_accepts("abc"));
    assert!(dfa_even_length_accepts("axb"));
    assert!(dfa_even_c_count_accepts("cabc"));
    assert!(!dfa_even_c_count_accepts("c"));
    assert!(dfa_contains_b_accepts(""));
    assert!(dfa_contains_b_accepts("xyz"));
    assert!(!dfa_contains_b_accepts("ac"));
    assert!(dfa_contains_b_accepts("acb"));
    assert!(dfa_no_bb_suffix_accepts("abab"));
    assert!(!dfa_no_bb_suffix_accepts("abb"));
    assert!(!dfa_no_bb_suffix_accepts("bxb"));
    assert!(dfa_no_ccc_accepts("ccbcc"));
    assert!(!dfa_no_ccc_accepts("accca"));
    assert!(!dfa_no_ccc_accepts("cxcc"));
    assert!(dfa_ac_constraint_accepts("aacab"));
    assert!(!dfa_ac_constraint_accepts("ca"));
    assert!(!dfa_ac_constraint_accepts("caab"));
    assert!(dfa_ac_constraint_accepts("cabcab"));
}

#[test]
fn all_equal_values() {
    assert!(all_equal(&[]));
    assert!(all_equal(&[true, true, true]));
    assert!(all_equal(&[false]));
    assert!(!all_equal(&[true, false, true]));
}

#[test]
fn evaluate_word_agrees() {
    let reg = RegexMatcher::new(REGEX_PATTERN).unwrap();
    let ext = FancyMatcher::new(EXTENDED_REGEX_PATTERN).unwrap();
    let v = evaluate_word(&reg, &ext, "abbcbc").unwrap();
    assert!(v.agree());
    assert!(v.regex && v.extended_regex && v.nfa && v.dfa && v.pka);
    let v = evaluate_word(&reg, &ext, "ba").unwrap();
    assert!(v.agree());
    assert!(!v.nfa);
}

#[test]
fn random_words_agree_everywhere() {
    let reg = RegexMatcher::new(REGEX_PATTERN).unwrap();
    let ext = FancyMatcher::new(EXTENDED_REGEX_PATTERN).unwrap();
    let mut rng = StdRng::seed_from_u64(5);
    for _ in 0..2000 {
        let w = random_word(&mut rng, 12);
        assert!(w.chars().count() <= 12);
        assert!(w.chars().all(|c| c == 'a' || c == 'b' || c == 'c'));
        let v = evaluate_word(&reg, &ext, &w).unwrap();
        assert!(v.agree(), "disagreement on {:?}: {:?}", w, v);
    }
}

#[test]
fn abc_word_spells_the_picks() {
    assert_eq!(abc_word(&[0, 1, 2, 2, 0]), "abcca");
    assert_eq!(abc_word(&[]), "");
}

#[test]
fn random_words_vary_and_stay_in_bounds() {
    let mut rng = StdRng::seed_from_u64(3);
    let words: Vec<String> = (0..50).map(|_| random_word(&mut rng, 6)).collect();
    assert!(words.iter().all(|w| w.len() <= 6 && w.chars().all(|c| "abc".contains(c))));
    assert!(words.iter().any(|w| !w.is_empty()));
}

#[test]
fn nfa_step_exact_values() {
    assert_eq!(nfa_step(515, 'a'), 2060);
    assert_eq!(nfa_step(64, 'a'), 144);
    assert_eq!(nfa_step(64, 'b'), 264);
    assert_eq!(nfa_step(64, 'c'), 0);
    assert_eq!(nfa_step(1024, 'b'), 24576);
    assert_eq!(nfa_step(1024, 'c'), 2048);
    assert_eq!(nfa_step(1024, 'a'), 0);
    assert_eq!(nfa_step(0xFFFF_FFFF, 'x'), 0);
    assert_eq!(nfa_step(0xFFFF_8040, 'a'), nfa_step(64, 'a'));
    assert_eq!(nfa_step(64 | 1024, 'b'), nfa_step(64, 'b') | nfa_step(1024, 'b'));
    for s in [0u32, 1, 515, 0x7FFF] {
        let r = nfa_epsilon_closure(s);
        assert_eq!(s & !r, 0);
        assert_eq!(nfa_epsilon_closure(r), r);
    }
}

#[test]
fn fuzz_step_tallies_and_stops() {
    let t = FuzzTally { positive: 3, negative: 4 };
    let yes = WordVerdicts { regex: true, extended_regex: true, nfa: true, dfa: true, pka: true };
    let no = WordVerdicts { regex: false, extended_regex: false, nfa: false, dfa: false, pka: false };
    let split = WordVerdicts { regex: true, extended_regex: true, nfa: false, dfa: false, pka: false };
    assert_eq!(automata_fuzz_step(t, 7, yes), (FuzzTally { positive: 4, negative: 4 }, FuzzStep::Continue { progress: false }));
    assert_eq!(automata_fuzz_step(t, 9999, no), (FuzzTally { positive: 3, negative: 5 }, FuzzStep::Continue { progress: true }));
    assert_eq!(automata_fuzz_step(t, 7, split), (t, FuzzStep::Stop));
}
