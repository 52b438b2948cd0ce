//! String rewriting systems: rule sets, the systems T and T' with the
//! Knuth–Bendix family of extra rules, and one-step rewriting.

use vstd::prelude::*;
use crate::words::{
    push_char, chars_of, insert_sorted, lex_lt, same_word, string_views, strictly_sorted, strings_of,
    word_views,
};

verus! {

/// A rewriting rule `lhs -> rhs`.
pub type Rule = (String, String);

/// A list of rewriting rules.
pub type Rules = Vec<Rule>;

/// How many rules of the family `G F^n G -> G F^(n+1)` are added to T'.
pub const KB_MAX_N: usize = 12;

/// The rules as pairs of words.
pub open spec fn rule_seq(rules: Seq<Rule>) -> Seq<(Seq<char>, Seq<char>)> {
    Seq::new(rules.len(), |i: int| (rules[i].0@, rules[i].1@))
}

/// The rules given as pairs of string slices, as pairs of words.
pub open spec fn str_rule_seq(rules: Seq<(&str, &str)>) -> Seq<(Seq<char>, Seq<char>)> {
    Seq::new(rules.len(), |i: int| (rules[i].0@, rules[i].1@))
}

/// `l` occurs in `w` starting at position `i`.
pub open spec fn occurs_at(w: Seq<char>, l: Seq<char>, i: int) -> bool {
    0 <= i && i + l.len() <= w.len() && w.subrange(i, i + l.len()) == l
}

/// `w` with the occurrence of `l` at position `i` replaced by `r`.
pub open spec fn replace_at(w: Seq<char>, l: Seq<char>, r: Seq<char>, i: int) -> Seq<char> {
    w.take(i) + r + w.skip(i + l.len())
}

/// `v` arises from `w` by rewriting one occurrence of `l` into `r`.
pub open spec fn rewrites_by(l: Seq<char>, r: Seq<char>, w: Seq<char>, v: Seq<char>) -> bool {
    exists|i: int| occurs_at(w, l, i) && v == #[trigger] replace_at(w, l, r, i)
}

/// `v` arises from `w` by one application of one of the rules.
pub open spec fn rewrites_to(rules: Seq<(Seq<char>, Seq<char>)>, w: Seq<char>, v: Seq<char>) -> bool {
    exists|k: int| 0 <= k < rules.len() && #[trigger] rewrites_by(rules[k].0, rules[k].1, w, v)
}

/// `v` is a one-step rewrite of `w` different from `w`.
pub open spec fn is_neighbor(rules: Seq<(Seq<char>, Seq<char>)>, w: Seq<char>, v: Seq<char>) -> bool {
    rewrites_to(rules, w, v) && v != w
}

/// No rule rewrites `w` into a different word.
pub open spec fn is_normal_form(rules: Seq<(Seq<char>, Seq<char>)>, w: Seq<char>) -> bool {
    forall|v: Seq<char>| !#[trigger] is_neighbor(rules, w, v)
}

/// A word made of `n` letters `c`.
pub open spec fn letters(c: char, n: nat) -> Seq<char> {
    Seq::new(n, |i: int| c)
}

/// Left side of the completion rule `G F^n G -> G F^(n+1)`.
pub open spec fn kb_lhs(n: nat) -> Seq<char> {
    seq!['G'] + letters('F', n) + seq!['G']
}

/// Right side of the completion rule `G F^n G -> G F^(n+1)`.
pub open spec fn kb_rhs(n: nat) -> Seq<char> {
    seq!['G'] + letters('F', n + 1)
}

/// The completion rules for `n = 1 ..= max_n`, in increasing `n`.
pub open spec fn kb_rules(max_n: nat) -> Seq<(Seq<char>, Seq<char>)> {
    Seq::new(max_n, |i: int| (kb_lhs((i + 1) as nat), kb_rhs((i + 1) as nat)))
}

/// The system T.
pub open spec fn t_rules() -> Seq<(Seq<char>, Seq<char>)> {
    seq![
        (seq!['J', 'F', 'F'], seq!['E', 'I', 'D']),
        (seq!['C', 'F', 'G'], seq!['I', 'C']),
        (seq!['G', 'F'], seq!['G', 'G']),
        (seq!['I', 'C'], seq!['J', 'I']),
        (seq!['A', 'D'], seq!['B', 'D']),
        (seq!['F', 'F', 'I'], seq!['H', 'G', 'H']),
        (seq!['F', 'H', 'D', 'Q'], seq!['F', 'H', 'E', 'D', 'Q']),
        (seq!['H', 'A'], seq!['J', 'H']),
        (seq!['H', 'E'], seq!['H', 'D', 'D']),
        (seq!['G', 'G', 'A'], seq!['H', 'C', 'E']),
        (seq!['I', 'B', 'B'], seq!['D', 'D', 'I']),
    ]
}

/// The base rules of T', oriented by shortlex.
pub open spec fn tprime_base_rules() -> Seq<(Seq<char>, Seq<char>)> {
    seq![
        (seq!['J', 'F', 'F'], seq!['E', 'I', 'D']),
        (seq!['C', 'F', 'G'], seq!['I', 'C']),
        (seq!['G', 'G'], seq!['G', 'F']),
        (seq!['J', 'I'], seq!['I', 'C']),
        (seq!['B', 'D'], seq!['A', 'D']),
        (seq!['H', 'G', 'H'], seq!['F', 'F', 'I']),
        (seq!['F', 'H', 'E', 'D', 'Q'], seq!['F', 'H', 'D', 'Q']),
        (seq!['J', 'H'], seq!['H', 'A']),
        (seq!['H', 'D', 'D'], seq!['H', 'E']),
        (seq!['H', 'C', 'E'], seq!['G', 'G', 'A']),
        (seq!['I', 'B', 'B'], seq!['D', 'D', 'I']),
    ]
}

/// The base rules of T' followed by the completion rules for `1 ..= n`.
pub open spec fn tprime_upto(n: nat) -> Seq<(Seq<char>, Seq<char>)> {
    tprime_base_rules() + kb_rules(n)
}

/// T': its base rules followed by the completion rules up to `KB_MAX_N`.
pub open spec fn tprime_rules() -> Seq<(Seq<char>, Seq<char>)> {
    tprime_base_rules() + kb_rules(KB_MAX_N as nat)
}

/// Turns pairs of string slices into owned rules, in the same order.
pub fn rules_from(slice: &[(&str, &str)]) -> (rules: Rules)
    ensures
        rule_seq(rules@) == str_rule_seq(slice@),
{
    broadcast use vstd::string::group_string_axioms;
    let mut rules: Rules = Vec::new();
    for i in 0..slice.len()
        invariant
            rules@.len() == i,
            forall|j: int| 0 <= j < i ==> (#[trigger] rules@[j]).0@ == slice@[j].0@ && rules@[j].1@ == slice@[j].1@,
    {
        let (l, r) = slice[i];
        rules.push((l.to_string(), r.to_string()));
    }
    assert(rule_seq(rules@) =~= str_rule_seq(slice@));
    rules
}

/// The rules of T.
pub fn rules_t() -> (rules: Rules)
    ensures
        rule_seq(rules@) == t_rules(),
{
    let base = [
        ("JFF", "EID"),
        ("CFG", "IC"),
        ("GF", "GG"),
        ("IC", "JI"),
        ("AD", "BD"),
        ("FFI", "HGH"),
        ("FHDQ", "FHEDQ"),
        ("HA", "JH"),
        ("HE", "HDD"),
        ("GGA", "HCE"),
        ("IBB", "DDI"),
    ];
    let rules = rules_from(&base);
    proof {
        reveal_strlit("JFF");
        reveal_strlit("EID");
        reveal_strlit("CFG");
        reveal_strlit("IC");
        reveal_strlit("GF");
        reveal_strlit("GG");
        reveal_strlit("JI");
        reveal_strlit("AD");
        reveal_strlit("BD");
        reveal_strlit("FFI");
        reveal_strlit("HGH");
        reveal_strlit("FHDQ");
        reveal_strlit("FHEDQ");
        reveal_strlit("HA");
        reveal_strlit("JH");
        reveal_strlit("HE");
        reveal_strlit("HDD");
        reveal_strlit("GGA");
        reveal_strlit("HCE");
        reveal_strlit("IBB");
        reveal_strlit("DDI");
        assert(str_rule_seq(base@) =~~= t_rules());
        assert(rule_seq(rules@) =~= t_rules());
    }
    rules
}

/// Appends `n` copies of `c` to `s`.
fn push_repeated(s: &mut String, c: char, n: usize)
    ensures
        final(s)@ == old(s)@ + letters(c, n as nat),
{
    for k in 0..n
        invariant
            s@ == old(s)@ + letters(c, k as nat),
    {
        push_char(s, c);
        assert(old(s)@ + letters(c, (k + 1) as nat) =~= (old(s)@ + letters(c, k as nat)).push(c));
    }
}

/// The completion rules `G F^n G -> G F^(n+1)` for `n = 1 ..= max_n`.
pub fn kb_completion_rules(max_n: usize) -> (out: Rules)
    ensures
        rule_seq(out@) == kb_rules(max_n as nat),
{
    let mut out: Rules = Vec::new();
    for i in 0..max_n
        invariant
            out@.len() == i,
            forall|j: int| 0 <= j < i ==> (#[trigger] out@[j]).0@ == kb_lhs((j + 1) as nat)
                && out@[j].1@ == kb_rhs((j + 1) as nat),
    {
        let n = i + 1;
        let mut lhs = String::new();
        push_char(&mut lhs, 'G');
        push_repeated(&mut lhs, 'F', n);
        push_char(&mut lhs, 'G');
        let mut rhs = String::new();
        push_char(&mut rhs, 'G');
        push_repeated(&mut rhs, 'F', n);
        push_char(&mut rhs, 'F');
        assert(lhs@ =~= kb_lhs(n as nat));
        assert(rhs@ =~= kb_rhs(n as nat));
        out.push((lhs, rhs));
    }
    assert(rule_seq(out@) =~= kb_rules(max_n as nat));
    out
}

/// The rules of T': its base rules, then the completion rules up to `KB_MAX_N`.
pub fn build_tprime() -> (rules: Rules)
    ensures
        rule_seq(rules@) == tprime_rules(),
{
    let base = [
        ("JFF", "EID"),
        ("CFG", "IC"),
        ("GG", "GF"),
        ("JI", "IC"),
        ("BD", "AD"),
        ("HGH", "FFI"),
        ("FHEDQ", "FHDQ"),
        ("JH", "HA"),
        ("HDD", "HE"),
        ("HCE", "GGA"),
        ("IBB", "DDI"),
    ];
    let mut tprime = rules_from(&base);
    proof {
        reveal_strlit("JFF");
        reveal_strlit("EID");
        reveal_strlit("CFG");
        reveal_strlit("IC");
        reveal_strlit("GG");
        reveal_strlit("GF");
        reveal_strlit("JI");
        reveal_strlit("BD");
        reveal_strlit("AD");
        reveal_strlit("HGH");
        reveal_strlit("FFI");
        reveal_strlit("FHEDQ");
        reveal_strlit("FHDQ");
        reveal_strlit("JH");
        reveal_strlit("HA");
        reveal_strlit("HDD");
        reveal_strlit("HE");
        reveal_strlit("HCE");
        reveal_strlit("GGA");
        reveal_strlit("IBB");
        reveal_strlit("DDI");
        assert(str_rule_seq(base@) =~~= tprime_base_rules());
    }
    let mut extra = kb_completion_rules(KB_MAX_N);
    let ghost before = tprime@;
    let ghost ex = extra@;
    tprime.append(&mut extra);
    assert(tprime@ == before + ex);
    assert(rule_seq(tprime@) =~= tprime_base_rules() + kb_rules(KB_MAX_N as nat));
    tprime
}

/// The sequence with repeats removed, keeping the first occurrence of each
/// element and the order in which the elements first occur.
pub open spec fn dedup<A>(s: Seq<A>) -> Seq<A>
    decreases s.len(),
{
    if s.len() == 0 {
        Seq::empty()
    } else {
        let d = dedup(s.drop_last());
        if d.contains(s.last()) {
            d
        } else {
            d.push(s.last())
        }
    }
}

/// Removing repeats leaves a sequence without repeats that holds exactly the
/// elements of `s`.
pub proof fn lemma_dedup_properties<A>(s: Seq<A>)
    ensures
        dedup(s).no_duplicates(),
        dedup(s).to_set() == s.to_set(),
    decreases s.len(),
{
    if s.len() > 0 {
        let p = s.drop_last();
        lemma_dedup_properties(p);
        let d = dedup(p);
        assert(s =~= p.push(s.last()));
        assert(s.to_set() =~= p.to_set().insert(s.last())) by {
            assert forall|x: A| s.to_set().contains(x) <==> p.to_set().insert(s.last()).contains(x) by {
                if s.contains(x) {
                    let k = choose|k: int| 0 <= k < s.len() && s[k] == x;
                    if k < p.len() {
                        assert(p[k] == x);
                    }
                }
                if p.contains(x) {
                    let k = choose|k: int| 0 <= k < p.len() && p[k] == x;
                    assert(s[k] == x);
                }
                if x == s.last() {
                    assert(s[s.len() - 1] == x);
                }
            }
        }
        if !d.contains(s.last()) {
            let e = d.push(s.last());
            assert(e.to_set() =~= d.to_set().insert(s.last())) by {
                assert forall|x: A| e.to_set().contains(x) <==> d.to_set().insert(s.last()).contains(x) by {
                    if e.contains(x) {
                        let k = choose|k: int| 0 <= k < e.len() && e[k] == x;
                        if k < d.len() {
                            assert(d[k] == x);
                        }
                    }
                    if d.contains(x) {
                        let k = choose|k: int| 0 <= k < d.len() && d[k] == x;
                        assert(e[k] == x);
                    }
                    if x == s.last() {
                        assert(e[e.len() - 1] == x);
                    }
                }
            }
            assert forall|i: int, j: int| 0 <= i < e.len() && 0 <= j < e.len() && i != j implies e[i] != e[j] by {
                if i == d.len() as int {
                    assert(d[j] == e[j]);
                } else if j == d.len() as int {
                    assert(d[i] == e[i]);
                }
            }
        } else {
            assert(d.to_set() =~= d.to_set().insert(s.last()));
        }
    }
}

/// The rules with repeated rules removed; the first occurrence of each rule
/// stays, in the order of the input.
pub fn dedup_rules(rules: &Rules) -> (out: Rules)
    ensures
        rule_seq(out@) == dedup(rule_seq(rules@)),
{
    let ghost all = rule_seq(rules@);
    let mut out: Rules = Vec::new();
    for i in 0..rules.len()
        invariant
            all == rule_seq(rules@),
            rule_seq(out@) == dedup(all.take(i as int)),
    {
        let ghost pre = rule_seq(out@);
        let mut seen = false;
        for j in 0..out.len()
            invariant
                i < rules@.len(),
                all == rule_seq(rules@),
                pre == rule_seq(out@),
                seen == (exists|k: int| 0 <= k < j && pre[k] == all[i as int]),
        {
            if out[j].0 == rules[i].0 && out[j].1 == rules[i].1 {
                assert(pre[j as int] == all[i as int]);
                seen = true;
            }
        }
        assert(all.take(i + 1).drop_last() =~= all.take(i as int));
        assert(all.take(i + 1).last() == all[i as int]);
        if !seen {
            out.push((rules[i].0.clone(), rules[i].1.clone()));
            assert(rule_seq(out@) =~= pre.push(all[i as int]));
        } else {
            assert(pre.contains(all[i as int]));
        }
    }
    assert(all.take(rules@.len() as int) =~= all);
    out
}

/// Neighbors found so far: rewrites of `w` by one of the first `n` rules, other than `w`.
pub open spec fn neighbor_upto(rules: Seq<(Seq<char>, Seq<char>)>, w: Seq<char>, v: Seq<char>, n: int) -> bool {
    exists|k: int| 0 <= k < n && #[trigger] rewrites_by(rules[k].0, rules[k].1, w, v) && v != w
}

/// Whether `l` occurs in `w` at position `i`.
fn occurs_here(w: &[char], l: &[char], i: usize) -> (r: bool)
    requires
        i + l@.len() <= w@.len(),
    ensures
        r == occurs_at(w@, l@, i as int),
{
    let n = w.len();
    let m = l.len();
    for j in 0..m
        invariant
            n == w@.len(),
            m == l@.len(),
            i + l@.len() <= w@.len(),
            forall|k: int| 0 <= k < j ==> w@[i + k] == l@[k],
    {
        if w[i + j] != l[j] {
            assert(w@.subrange(i as int, i + l@.len())[j as int] != l@[j as int]);
            return false;
        }
    }
    assert(w@.subrange(i as int, i + l@.len()) =~= l@);
    true
}

/// `w` with `l` at position `i` replaced by `r`.
fn splice(w: &[char], l: &[char], r: &[char], i: usize) -> (out: Vec<char>)
    requires
        i + l@.len() <= w@.len(),
    ensures
        out@ == replace_at(w@, l@, r@, i as int),
{
    let mut out: Vec<char> = Vec::new();
    for k in 0..i
        invariant
            i <= w@.len(),
            out@ == w@.take(k as int),
    {
        out.push(w[k]);
        assert(w@.take(k + 1) =~= w@.take(k as int).push(w@[k as int]));
    }
    for k in 0..r.len()
        invariant
            out@ == w@.take(i as int) + r@.take(k as int),
    {
        out.push(r[k]);
        assert(w@.take(i as int) + r@.take(k + 1) =~= (w@.take(i as int) + r@.take(k as int)).push(r@[k as int]));
    }
    let start = i + l.len();
    for k in start..w.len()
        invariant
            start <= k <= w@.len(),
            out@ == w@.take(i as int) + r@ + w@.subrange(start as int, k as int),
    {
        out.push(w[k]);
        assert(w@.take(i as int) + r@ + w@.subrange(start as int, k + 1) =~= (w@.take(i as int) + r@
            + w@.subrange(start as int, k as int)).push(w@[k as int]));
    }
    assert(r@.take(r@.len() as int) =~= r@);
    assert(w@.subrange(start as int, w@.len() as int) =~= w@.skip(start as int));
    out
}

/// All words that one rule application turns `word` into, except `word`
/// itself, each once, in lexicographic order.
pub fn neighbors_fwd(word: &str, rules: &Rules) -> (outs: Vec<String>)
    ensures
        strictly_sorted(string_views(outs@)),
        forall|v: Seq<char>| string_views(outs@).contains(v) <==> is_neighbor(rule_seq(rules@), word@, v),
{
    let ghost rs = rule_seq(rules@);
    let w = chars_of(word);
    let mut found: Vec<Vec<char>> = Vec::new();
    assert(word_views(found@).to_set() =~= Set::empty());
    for k in 0..rules.len()
        invariant
            w@ == word@,
            rs == rule_seq(rules@),
            strictly_sorted(word_views(found@)),
            forall|v: Seq<char>| word_views(found@).to_set().contains(v) <==> neighbor_upto(rs, w@, v, k as int),
    {
        let l = chars_of(rules[k].0.as_str());
        let r = chars_of(rules[k].1.as_str());
        assert(l@ == rs[k as int].0 && r@ == rs[k as int].1);
        if l.len() <= w.len() {
            let count = w.len() - l.len();
            let mut i: usize = 0;
            loop
                invariant_except_break
                    forall|v: Seq<char>| word_views(found@).to_set().contains(v) <==> (neighbor_upto(rs, w@, v, k as int)
                        || (exists|j: int| 0 <= j < i && occurs_at(w@, l@, j) && v == #[trigger] replace_at(w@, l@, r@, j) && v != w@)),
                invariant
                    i <= count,
                    count + l@.len() == w@.len(),
                    w@ == word@,
                    l@ == rs[k as int].0 && r@ == rs[k as int].1,
                    strictly_sorted(word_views(found@)),
                ensures
                    forall|v: Seq<char>| word_views(found@).to_set().contains(v) <==> (neighbor_upto(rs, w@, v, k as int)
                        || (exists|j: int| 0 <= j <= count && occurs_at(w@, l@, j) && v == #[trigger] replace_at(w@, l@, r@, j) && v != w@)),
                decreases count - i,
            {
                if occurs_here(&w, &l, i) {
                    let cand = splice(&w, &l, &r, i);
                    if !same_word(&cand, &w) {
                        let ghost cv = cand@;
                        insert_sorted(&mut found, cand);
                        assert(cv == replace_at(w@, l@, r@, i as int));
                    }
                }
                if i == count {
                    break;
                }
                i = i + 1;
            }
            assert forall|v: Seq<char>| word_views(found@).to_set().contains(v) <==> neighbor_upto(rs, w@, v, k + 1) by {
                if neighbor_upto(rs, w@, v, k + 1) {
                    let kk = choose|kk: int| 0 <= kk < k + 1 && #[trigger] rewrites_by(rs[kk].0, rs[kk].1, w@, v) && v != w@;
                    if kk == k {
                        let j = choose|j: int| occurs_at(w@, l@, j) && v == #[trigger] replace_at(w@, l@, r@, j);
                        assert(0 <= j <= count);
                    }
                }
                if exists|j: int| 0 <= j <= count && occurs_at(w@, l@, j) && v == #[trigger] replace_at(w@, l@, r@, j) && v != w@ {
                    assert(rewrites_by(rs[k as int].0, rs[k as int].1, w@, v));
                }
            }
        } else {
            assert forall|v: Seq<char>| neighbor_upto(rs, w@, v, k + 1) implies neighbor_upto(rs, w@, v, k as int) by {
                let kk = choose|kk: int| 0 <= kk < k + 1 && #[trigger] rewrites_by(rs[kk].0, rs[kk].1, w@, v) && v != w@;
                if kk == k {
                    let j = choose|j: int| occurs_at(w@, l@, j) && v == #[trigger] replace_at(w@, l@, r@, j);
                }
            }
        }
    }
    let outs = strings_of(&found);
    assert forall|v: Seq<char>| string_views(outs@).contains(v) <==> is_neighbor(rs, word@, v) by {
        assert(string_views(outs@).to_set().contains(v) == string_views(outs@).contains(v));
        if is_neighbor(rs, word@, v) {
            let kk = choose|kk: int| 0 <= kk < rs.len() && #[trigger] rewrites_by(rs[kk].0, rs[kk].1, word@, v);
        }
    }
    outs
}

/// Every left side of T holds a letter other than `C`, so no word made only
/// of `C`s can be rewritten by T: each `C^n` is a normal form, and there are
/// infinitely many normal forms.
pub proof fn lemma_c_powers_are_normal_forms(n: nat)
    ensures
        is_normal_form(t_rules(), letters('C', n)),
{
    let t = t_rules();
    let w = letters('C', n);
    assert forall|v: Seq<char>| !#[trigger] is_neighbor(t, w, v) by {
        if rewrites_to(t, w, v) {
            let k = choose|k: int| 0 <= k < t.len() && #[trigger] rewrites_by(t[k].0, t[k].1, w, v);
            let l = t[k].0;
            let i = choose|i: int| occurs_at(w, l, i) && v == #[trigger] replace_at(w, l, t[k].1, i);
            assert(k == 0 || k == 1 || k == 2 || k == 3 || k == 4 || k == 5 || k == 6 || k == 7 || k == 8 || k == 9 || k == 10);
            let j: int = if k == 1 { 1 } else { 0 };
            assert(l[j] != 'C');
            assert(w.subrange(i, i + l.len())[j] == w[i + j]);
        }
    }
}

} // verus!
