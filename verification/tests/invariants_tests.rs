use trs_fuzz::invariants::{check_chain_preserves_invariants, counts, invariants, parity_linear_1, q_count, q_order_signature, Inv};

#[test]
fn counts_by_code_point() {
    let c = counts("AABQxQ");
    assert_eq!(c.get(&('A' as u32)), Some(&2));
    assert_eq!(c.get(&('B' as u32)), Some(&1));
    assert_eq!(c.get(&('Q' as u32)), Some(&2));
    assert_eq!(c.get(&('x' as u32)), Some(&1));
    assert_eq!(c.get(&('C' as u32)), None);
    assert_eq!(c.len(), 4);
    assert!(counts("").is_empty());
}

#[test]
fn parity_of_abcdj_letters() {
    assert_eq!(parity_linear_1(&counts("ABCDJ")), 1);
    assert_eq!(parity_linear_1(&counts("AAEFGHIQ")), 0);
    assert_eq!(parity_linear_1(&counts("JEID")), 0);
    assert_eq!(parity_linear_1(&counts("")), 0);
}

#[test]
fn q_count_and_signature() {
    assert_eq!(q_count("QAQBQ"), 3);
    assert_eq!(q_count("ABC"), 0);
    assert_eq!(q_order_signature("QAQBQ"), "QQQ");
    assert_eq!(q_order_signature("ABC"), "");
}

#[test]
fn invariants_of_a_word() {
    let inv = invariants("FHDQ");
    assert_eq!(inv, Inv { q_count: 1, q_skeleton: "Q".to_string(), parity_lin_1: 1 });
    assert!(inv.same_as(&invariants("FHEDQ")));
    assert!(!inv.same_as(&invariants("FHDDQ")));
}

#[test]
fn rules_of_t_keep_invariants() {
    for (l, r) in trs_fuzz::rules_t() {
        assert_eq!(invariants(&l), invariants(&r));
    }
    for (l, r) in trs_fuzz::build_tprime() {
        assert_eq!(invariants(&l), invariants(&r));
    }
}

#[test]
fn chains_with_and_without_changed_invariants() {
    let good = vec!["GFFI".to_string(), "GGFI".to_string(), "GGGI".to_string()];
    assert!(check_chain_preserves_invariants(&good));
    let bad = vec!["AQ".to_string(), "AQ".to_string(), "Q".to_string()];
    assert!(!check_chain_preserves_invariants(&bad));
    let single = vec!["ABC".to_string()];
    assert!(check_chain_preserves_invariants(&single));
}
