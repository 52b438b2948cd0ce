use trs_fuzz::rewriting::{dedup_rules, neighbors_fwd, Rules};
use trs_fuzz::search::normal_forms_all;
use trs_fuzz::{build_tprime, kb_completion_rules, rules_from, rules_t};

fn pairs(rules: &Rules) -> Vec<(&str, &str)> {
    rules.iter().map(|(l, r)| (l.as_str(), r.as_str())).collect()
}

#[test]
fn rules_from_keeps_order() {
    let rules = rules_from(&[("AB", "C"), ("", "Q")]);
    assert_eq!(pairs(&rules), vec![("AB", "C"), ("", "Q")]);
}

#[test]
fn rules_t_is_the_system_t() {
    let t = rules_t();
    assert_eq!(t.len(), 11);
    assert_eq!(t[0], ("JFF".to_string(), "EID".to_string()));
    assert_eq!(t[6], ("FHDQ".to_string(), "FHEDQ".to_string()));
    assert_eq!(t[10], ("IBB".to_string(), "DDI".to_string()));
}

#[test]
fn kb_completion_rules_family() {
    let kb = kb_completion_rules(3);
    assert_eq!(pairs(&kb), vec![("GFG", "GFF"), ("GFFG", "GFFF"), ("GFFFG", "GFFFF")]);
    assert!(kb_completion_rules(0).is_empty());
}

#[test]
fn build_tprime_has_base_and_completion_rules() {
    let tp = build_tprime();
    assert_eq!(tp.len(), 23);
    assert_eq!(tp[2], ("GG".to_string(), "GF".to_string()));
    assert_eq!(tp[11], ("GFG".to_string(), "GFF".to_string()));
    assert_eq!(tp[22].0, format!("G{}G", "F".repeat(12)));
    assert_eq!(tp[22].1, format!("G{}", "F".repeat(13)));
}

#[test]
fn dedup_rules_keeps_first_occurrences() {
    let rules = rules_from(&[("A", "B"), ("C", "D"), ("A", "B"), ("A", "C"), ("C", "D")]);
    let d = dedup_rules(&rules);
    assert_eq!(pairs(&d), vec![("A", "B"), ("C", "D"), ("A", "C")]);
}

#[test]
fn neighbors_of_the_critical_overlap() {
    let t = rules_t();
    assert_eq!(neighbors_fwd("GFFI", &t), vec!["GGFI".to_string(), "GHGH".to_string()]);
    assert_eq!(neighbors_fwd("GGFI", &t), vec!["GGGI".to_string()]);
    assert!(neighbors_fwd("GHGH", &t).is_empty());
    assert!(neighbors_fwd("GGGI", &t).is_empty());
}

#[test]
fn neighbors_are_sorted_and_distinct() {
    let t = rules_t();
    assert_eq!(neighbors_fwd("JFFI", &t), vec!["EIDI".to_string(), "JHGH".to_string()]);
    assert_eq!(neighbors_fwd("HAD", &t), vec!["HBD".to_string(), "JHD".to_string()]);
    let rules = rules_from(&[("A", "B"), ("A", "B")]);
    assert_eq!(neighbors_fwd("AA", &rules), vec!["AB".to_string(), "BA".to_string()]);
}

#[test]
fn neighbors_leave_out_the_word_itself() {
    let rules = rules_from(&[("A", "A"), ("B", "C")]);
    assert_eq!(neighbors_fwd("AB", &rules), vec!["AC".to_string()]);
}

#[test]
fn neighbors_with_empty_left_side() {
    let rules = rules_from(&[("", "X")]);
    assert_eq!(neighbors_fwd("AB", &rules), vec!["ABX".to_string(), "AXB".to_string(), "XAB".to_string()]);
}

#[test]
fn powers_of_c_are_normal_forms() {
    let t = rules_t();
    for n in 0..8 {
        assert!(neighbors_fwd(&"C".repeat(n), &t).is_empty());
    }
}

#[test]
fn t_is_not_confluent_on_gffi() {
    let t = rules_t();
    let (mut nf, cut) = normal_forms_all("GFFI", &t, 200, 200_000);
    nf.sort();
    assert!(!cut);
    assert_eq!(nf, vec!["GGGI".to_string(), "GHGH".to_string()]);
}

#[test]
fn normal_forms_of_small_words() {
    let t = rules_t();
    let (mut nf, cut) = normal_forms_all("ICFG", &t, 200, 200_000);
    nf.sort();
    assert!(!cut);
    assert_eq!(nf, vec!["IJI".to_string(), "JIFG".to_string()]);
    let (nf, cut) = normal_forms_all("GHGH", &t, 0, 0);
    assert!(cut);
    assert!(nf.is_empty());
}

#[test]
fn normal_forms_search_is_cut_by_depth() {
    let t = rules_t();
    let (nf, cut) = normal_forms_all("GFFI", &t, 0, 100);
    assert!(cut);
    assert!(nf.is_empty());
    let (mut nf, cut) = normal_forms_all("GFFI", &t, 1, 100);
    nf.sort();
    assert!(cut);
    assert_eq!(nf, vec!["GHGH".to_string()]);
}

#[test]
fn normal_forms_search_is_cut_by_edge_budget() {
    let t = rules_t();
    let (nf, cut) = normal_forms_all("GFFI", &t, 10, 1);
    assert!(cut);
    assert!(nf.is_empty());
}

const SCALE: &str = "QJDEHIBCGFA";

fn rank(c: char) -> i32 {
    SCALE.find(c).map(|i| i as i32).unwrap_or(-1)
}

fn rlex_greater(u: &str, v: &str) -> bool {
    let mut a = u.chars().rev();
    let mut b = v.chars().rev();
    loop {
        match (a.next(), b.next()) {
            (None, _) => return false,
            (Some(_), None) => return true,
            (Some(x), Some(y)) if x != y => return rank(x) > rank(y),
            _ => {}
        }
    }
}

fn shortlex_greater(u: &str, v: &str) -> bool {
    u.len() > v.len() || (u.len() == v.len() && u > v)
}

#[test]
fn t_steps_decrease_in_right_lex_order() {
    let t = rules_t();
    for w in ["GFFI", "FHDQ", "XADY", "HAGGA", "CFGIBB", "JFFHE"] {
        let outs = neighbors_fwd(w, &t);
        assert!(!outs.is_empty());
        for v in outs {
            assert!(rlex_greater(w, &v), "{} -> {}", w, v);
        }
    }
    assert!(rlex_greater("FHDQ", "FHEDQ"));
    assert!(!rlex_greater("FHEDQ", "FHDQ"));
}

#[test]
fn tprime_steps_decrease_in_shortlex() {
    let tp = build_tprime();
    for w in ["GGG", "GFFG", "HGHJI", "FHEDQ", "BDHCE", "GFFFFFFFFFFFFG"] {
        let outs = neighbors_fwd(w, &tp);
        assert!(!outs.is_empty());
        for v in outs {
            assert!(shortlex_greater(w, &v), "{} -> {}", w, v);
        }
    }
}

fn t_measure(w: &str) -> [usize; 6] {
    let count = |c: char| w.chars().filter(|&x| x == c).count();
    let hdq = w.as_bytes().windows(3).filter(|f| *f == b"HDQ").count();
    [count('A'), count('F'), count('C'), count('B'), hdq, count('E')]
}

#[test]
fn t_steps_decrease_the_termination_measure() {
    let t = rules_t();
    let mut stack: Vec<String> = ["FHDQHE", "GGAFHDQ", "JFFICBB", "HAHEHDQ", "CFGGFFI"]
        .iter()
        .map(|w| w.to_string())
        .collect();
    let mut steps = 0usize;
    while let Some(w) = stack.pop() {
        for v in neighbors_fwd(&w, &t) {
            assert!(t_measure(&w) > t_measure(&v), "{} -> {}", w, v);
            steps += 1;
            stack.push(v);
        }
    }
    assert!(steps > 0);
    assert_eq!(t_measure("FHDQHE"), [0, 1, 0, 0, 1, 1]);
    assert_eq!(t_measure("FHEDQHE"), [0, 1, 0, 0, 0, 2]);
}

#[test]
fn normal_forms_search_cut_cases() {
    let t = rules_t();
    assert_eq!(normal_forms_all("GHGH", &t, 10, 0), (vec![], true));
    assert_eq!(normal_forms_all("GFFI", &t, 0, 1_000), (vec![], true));
    assert_eq!(normal_forms_all("GHGH", &t, 0, 1_000), (vec!["GHGH".to_string()], false));
}

#[test]
fn normal_forms_search_larger_limits_same_answer() {
    let t = rules_t();
    let (mut small, cut) = normal_forms_all("GFFI", &t, 3, 10);
    assert!(!cut);
    small.sort();
    for (d, n) in [(3usize, 10usize), (4, 10), (3, 11), (200, 200_000)] {
        let (mut nf, cut) = normal_forms_all("GFFI", &t, d, n);
        nf.sort();
        assert!(!cut);
        assert_eq!(nf, small);
    }
    let cycle = rules_from(&[("A", "B"), ("B", "A")]);
    for (d, n) in [(5usize, 2usize), (5, 10), (100, 1_000)] {
        assert_eq!(normal_forms_all("A", &cycle, d, n), (vec![], false));
    }
    assert_eq!(normal_forms_all("A", &cycle, 5, 1), (vec![], true));
}
