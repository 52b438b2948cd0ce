//! Quantities that no rule of T (or T') changes: the number of letters `Q`,
//! the sequence of `Q`s, and the parity of the number of letters among
//! `A`, `B`, `C`, `D`, `J`.

use std::collections::HashMap;
use vstd::prelude::*;
use crate::words::{chars_of, push_char, string_views};
use crate::rewriting::{kb_lhs, kb_rhs, kb_rules, letters, occurs_at, replace_at, rewrites_by, rewrites_to, t_rules, tprime_base_rules, tprime_rules};

verus! {

broadcast use {vstd::std_specs::hash::group_hash_axioms, vstd::seq_lib::group_seq_properties};

/// How many times `c` occurs in `s`.
pub open spec fn count_char(s: Seq<char>, c: char) -> nat
    decreases s.len(),
{
    if s.len() == 0 {
        0
    } else {
        count_char(s.drop_last(), c) + if s.last() == c { 1nat } else { 0nat }
    }
}

/// The letters `Q` of `s`, in order.
pub open spec fn q_skeleton(s: Seq<char>) -> Seq<char> {
    s.filter(|x: char| x == 'Q')
}

/// The number of letters of `s` among `A`, `B`, `C`, `D`, `J`.
pub open spec fn abcdj_count(s: Seq<char>) -> nat {
    count_char(s, 'A') + count_char(s, 'B') + count_char(s, 'C') + count_char(s, 'D') + count_char(s, 'J')
}

/// The three invariants of a word: the number of `Q`s, the sequence of `Q`s,
/// and the parity of the number of letters among `A`, `B`, `C`, `D`, `J`.
pub open spec fn word_invariants(s: Seq<char>) -> (nat, Seq<char>, nat) {
    (count_char(s, 'Q'), q_skeleton(s), abcdj_count(s) % 2)
}

/// The invariants of one word.
#[derive(Clone, Debug, PartialEq, Eq)]
pub struct Inv {
    pub q_count: usize,
    pub q_skeleton: String,
    pub parity_lin_1: u8,
}

impl View for Inv {
    type V = (nat, Seq<char>, nat);

    open spec fn view(&self) -> (nat, Seq<char>, nat) {
        (self.q_count as nat, self.q_skeleton@, self.parity_lin_1 as nat)
    }
}

impl Inv {
    /// Whether two records hold the same invariants.
    pub fn same_as(&self, other: &Inv) -> (r: bool)
        ensures
            r == (self@ == other@),
    {
        self.q_count == other.q_count && self.q_skeleton == other.q_skeleton && self.parity_lin_1 == other.parity_lin_1
    }
}

/// The count of `c` recorded in a map keyed by code point, 0 where absent.
pub open spec fn count_in(m: Map<u32, usize>, c: char) -> nat {
    if m.contains_key(c as u32) {
        m[c as u32] as nat
    } else {
        0
    }
}

proof fn lemma_char_code_injective(a: char, b: char)
    requires
        (a as u32) == (b as u32),
    ensures
        a == b,
{
    assert((a as int) == (a as u32) as int);
    assert((b as int) == (b as u32) as int);
}

proof fn lemma_count_push(s: Seq<char>, x: char, c: char)
    ensures
        count_char(s.push(x), c) == count_char(s, c) + if x == c { 1nat } else { 0nat },
{
    assert(s.push(x).drop_last() =~= s);
}

proof fn lemma_count_le_len(s: Seq<char>, c: char)
    ensures
        count_char(s, c) <= s.len(),
    decreases s.len(),
{
    if s.len() > 0 {
        lemma_count_le_len(s.drop_last(), c);
    }
}

/// Counting distributes over concatenation.
pub proof fn lemma_count_concat(a: Seq<char>, b: Seq<char>, c: char)
    ensures
        count_char(a + b, c) == count_char(a, c) + count_char(b, c),
    decreases b.len(),
{
    if b.len() == 0 {
        assert(a + b =~= a);
    } else {
        lemma_count_concat(a, b.drop_last(), c);
        assert((a + b).drop_last() =~= a + b.drop_last());
    }
}

/// `k` is the code point of a character that occurs in `s`.
pub open spec fn counted_key(s: Seq<char>, k: u32) -> bool {
    exists|c: char| c as u32 == k && #[trigger] count_char(s, c) > 0
}

/// For each letter of `w`, the number of its occurrences, keyed by the
/// letter's code point (`c as u32`).
pub fn counts(w: &str) -> (m: HashMap<u32, usize>)
    ensures
        forall|c: char| #[trigger] m@.contains_key(c as u32) == (count_char(w@, c) > 0),
        forall|c: char| #[trigger] count_in(m@, c) == count_char(w@, c),
        forall|k: u32| #[trigger] m@.contains_key(k) ==> counted_key(w@, k),
{
    let v = chars_of(w);
    let mut m: HashMap<u32, usize> = HashMap::new();
    for i in 0..v.len()
        invariant
            forall|c: char| #[trigger] m@.contains_key(c as u32) == (count_char(v@.take(i as int), c) > 0),
            forall|c: char| #[trigger] count_in(m@, c) == count_char(v@.take(i as int), c),
            forall|k: u32| #[trigger] m@.contains_key(k) ==> counted_key(v@.take(i as int), k),
    {
        let ch = v[i];
        let key = ch as u32;
        let cur: usize = match m.get(&key) {
            Some(n) => *n,
            None => 0,
        };
        proof {
            assert(v@.take(i + 1) =~= v@.take(i as int).push(ch));
            assert forall|c: char| count_char(v@.take(i + 1), c) == count_char(v@.take(i as int), c) + if ch == c { 1nat } else { 0nat } by {
                lemma_count_push(v@.take(i as int), ch, c);
            }
            assert(cur == count_in(m@, ch));
            lemma_count_le_len(v@.take(i as int), ch);
        }
        let ghost old_m = m@;
        m.insert(key, cur + 1);
        proof {
            assert forall|c: char| #[trigger] m@.contains_key(c as u32) == (count_char(v@.take(i + 1), c) > 0) by {
                if c as u32 == key {
                    lemma_char_code_injective(c, ch);
                }
            }
            assert(m@ == old_m.insert(key, (cur + 1) as usize));
            assert(count_in(m@, ch) == cur + 1);
            assert forall|c: char| #[trigger] count_in(m@, c) == count_char(v@.take(i + 1), c) by {
                lemma_count_push(v@.take(i as int), ch, c);
                if c as u32 == key {
                    lemma_char_code_injective(c, ch);
                    assert(c == ch);
                } else {
                    assert(old_m.contains_key(c as u32) == m@.contains_key(c as u32));
                    assert(count_in(m@, c) == count_in(old_m, c));
                }
            }
            assert forall|k: u32| #[trigger] m@.contains_key(k) implies counted_key(v@.take(i + 1), k) by {
                if k == key {
                    assert(count_char(v@.take(i + 1), ch) > 0);
                } else {
                    assert(old_m.contains_key(k));
                    let c0 = choose|c: char| c as u32 == k && #[trigger] count_char(v@.take(i as int), c) > 0;
                    lemma_count_push(v@.take(i as int), ch, c0);
                    assert(count_char(v@.take(i + 1), c0) > 0);
                }
            }
        }
    }
    assert(v@.take(v@.len() as int) =~= v@);
    m
}

/// Parity of the number of letters among `A`, `B`, `C`, `D`, `J`, read from a
/// map of letter counts (an absent letter counts 0).
pub fn parity_linear_1(cnt: &HashMap<u32, usize>) -> (r: u8)
    ensures
        r as nat == (count_in(cnt@, 'A') + count_in(cnt@, 'B') + count_in(cnt@, 'C') + count_in(cnt@, 'D')
            + count_in(cnt@, 'J')) % 2,
{
    let a = count_of(cnt, 'A');
    let b = count_of(cnt, 'B');
    let c = count_of(cnt, 'C');
    let d = count_of(cnt, 'D');
    let j = count_of(cnt, 'J');
    ((a % 2 + b % 2 + c % 2 + d % 2 + j % 2) % 2) as u8
}

fn count_of(cnt: &HashMap<u32, usize>, ch: char) -> (n: usize)
    ensures
        n as nat == count_in(cnt@, ch),
{
    match cnt.get(&(ch as u32)) {
        Some(n) => *n,
        None => 0,
    }
}

/// The number of letters `Q` in `w`.
pub fn q_count(w: &str) -> (n: usize)
    ensures
        n as nat == count_char(w@, 'Q'),
{
    let v = chars_of(w);
    let mut n: usize = 0;
    for i in 0..v.len()
        invariant
            n as nat == count_char(v@.take(i as int), 'Q'),
            n <= i,
    {
        proof {
            assert(v@.take(i + 1) =~= v@.take(i as int).push(v@[i as int]));
            lemma_count_push(v@.take(i as int), v@[i as int], 'Q');
        }
        if v[i] == 'Q' {
            n = n + 1;
        }
    }
    assert(v@.take(v@.len() as int) =~= v@);
    n
}

/// The letters `Q` of `w`, in order.
pub fn q_order_signature(w: &str) -> (s: String)
    ensures
        s@ == q_skeleton(w@),
{
    let v = chars_of(w);
    let mut s = String::new();
    for i in 0..v.len()
        invariant
            s@ == q_skeleton(v@.take(i as int)),
    {
        proof {
            let t = v@.take(i as int);
            reveal(Seq::filter);
            assert(v@.take(i + 1) =~= t.push(v@[i as int]));
            assert(t.push(v@[i as int]).drop_last() =~= t);
        }
        if v[i] == 'Q' {
            push_char(&mut s, 'Q');
        }
    }
    assert(v@.take(v@.len() as int) =~= v@);
    s
}

/// The invariants of `w`.
pub fn invariants(w: &str) -> (inv: Inv)
    ensures
        inv@ == word_invariants(w@),
{
    let cnt = counts(w);
    let p = parity_linear_1(&cnt);
    assert(count_in(cnt@, 'A') == count_char(w@, 'A'));
    assert(count_in(cnt@, 'B') == count_char(w@, 'B'));
    assert(count_in(cnt@, 'C') == count_char(w@, 'C'));
    assert(count_in(cnt@, 'D') == count_char(w@, 'D'));
    assert(count_in(cnt@, 'J') == count_char(w@, 'J'));
    Inv { q_count: q_count(w), q_skeleton: q_order_signature(w), parity_lin_1: p }
}

/// Whether every word of the chain has the invariants of its first word.
pub fn check_chain_preserves_invariants(chain: &[String]) -> (r: bool)
    requires
        chain@.len() > 0,
    ensures
        r == forall|i: int| 0 <= i < chain@.len() ==> word_invariants(#[trigger] chain@[i]@) == word_invariants(chain@[0]@),
{
    let base = invariants(chain[0].as_str());
    for i in 1..chain.len()
        invariant
            chain@.len() > 0,
            base@ == word_invariants(chain@[0]@),
            forall|j: int| 0 <= j < i ==> word_invariants(#[trigger] chain@[j]@) == word_invariants(chain@[0]@),
    {
        let inv = invariants(chain[i].as_str());
        if !inv.same_as(&base) {
            return false;
        }
    }
    true
}

/// Every rule has the same invariants on both sides.
pub open spec fn rules_keep_invariants(rules: Seq<(Seq<char>, Seq<char>)>) -> bool {
    forall|k: int| #![trigger rules[k]] 0 <= k < rules.len() ==> word_invariants(rules[k].0) == word_invariants(rules[k].1)
}

proof fn lemma_invariants_concat(a: Seq<char>, b: Seq<char>)
    ensures
        count_char(a + b, 'Q') == count_char(a, 'Q') + count_char(b, 'Q'),
        q_skeleton(a + b) == q_skeleton(a) + q_skeleton(b),
        abcdj_count(a + b) == abcdj_count(a) + abcdj_count(b),
{
    lemma_count_concat(a, b, 'Q');
    lemma_count_concat(a, b, 'A');
    lemma_count_concat(a, b, 'B');
    lemma_count_concat(a, b, 'C');
    lemma_count_concat(a, b, 'D');
    lemma_count_concat(a, b, 'J');
    Seq::filter_distributes_over_add(a, b, |x: char| x == 'Q');
}

/// Replacing a factor by one with the same invariants keeps the invariants of the word.
pub proof fn lemma_replace_keeps_invariants(x: Seq<char>, l: Seq<char>, r: Seq<char>, y: Seq<char>)
    requires
        word_invariants(l) == word_invariants(r),
    ensures
        word_invariants(x + l + y) == word_invariants(x + r + y),
{
    lemma_invariants_concat(x, l);
    lemma_invariants_concat(x + l, y);
    lemma_invariants_concat(x, r);
    lemma_invariants_concat(x + r, y);
    let a = abcdj_count(x);
    let b = abcdj_count(y);
    let p = abcdj_count(l);
    let q = abcdj_count(r);
    assert((a + p + b) % 2 == (a + q + b) % 2) by (nonlinear_arith)
        requires
            p % 2 == q % 2,
    ;
}

/// If every rule has the same invariants on both sides, so does every
/// one-step rewrite: the rewritten word has the invariants of the word it came from.
pub proof fn lemma_rewrite_keeps_invariants(rules: Seq<(Seq<char>, Seq<char>)>, w: Seq<char>, v: Seq<char>)
    requires
        rules_keep_invariants(rules),
        rewrites_to(rules, w, v),
    ensures
        word_invariants(v) == word_invariants(w),
{
    let k = choose|k: int| 0 <= k < rules.len() && #[trigger] rewrites_by(rules[k].0, rules[k].1, w, v);
    let l = rules[k].0;
    let r = rules[k].1;
    let i = choose|i: int| occurs_at(w, l, i) && v == #[trigger] replace_at(w, l, r, i);
    assert(w =~= w.take(i) + l + w.skip(i + l.len()));
    lemma_replace_keeps_invariants(w.take(i), l, r, w.skip(i + l.len()));
}

proof fn lemma_letters_invariants(c: char, n: nat)
    requires
        c != 'Q' && c != 'A' && c != 'B' && c != 'C' && c != 'D' && c != 'J',
    ensures
        word_invariants(letters(c, n)) == word_invariants(Seq::<char>::empty()),
    decreases n,
{
    reveal_with_fuel(Seq::filter, 1);
    if n > 0 {
        lemma_letters_invariants(c, (n - 1) as nat);
        assert(letters(c, n).drop_last() =~= letters(c, (n - 1) as nat));
    }
    assert(q_skeleton(Seq::<char>::empty()) =~= Seq::<char>::empty());
}

proof fn lemma_kb_rule_invariants(n: nat)
    ensures
        word_invariants(kb_lhs(n)) == word_invariants(kb_rhs(n)),
{
    reveal_with_fuel(Seq::filter, 2);
    let g = seq!['G'];
    lemma_letters_invariants('F', n);
    lemma_letters_invariants('F', n + 1);
    lemma_invariants_concat(g, letters('F', n));
    lemma_invariants_concat(g + letters('F', n), g);
    lemma_invariants_concat(g, letters('F', n + 1));
    assert(g.drop_last() =~= Seq::<char>::empty());
    assert(q_skeleton(Seq::<char>::empty()) =~= Seq::<char>::empty());
    assert(q_skeleton(g) =~= Seq::<char>::empty());
}

/// Every rule of T, and every rule of T', keeps the number of `Q`s, the
/// sequence of `Q`s, and the parity of the number of `A`, `B`, `C`, `D`, `J`.
pub proof fn lemma_t_and_tprime_keep_invariants()
    ensures
        rules_keep_invariants(t_rules()),
        rules_keep_invariants(tprime_rules()),
{
    reveal_with_fuel(Seq::filter, 6);
    reveal_with_fuel(count_char, 6);
    let t = t_rules();
    assert forall|k: int| #![trigger t[k]] 0 <= k < t.len() implies word_invariants(t[k].0) == word_invariants(t[k].1) by {
        assert(k == 0 || k == 1 || k == 2 || k == 3 || k == 4 || k == 5 || k == 6 || k == 7 || k == 8 || k == 9 || k == 10);
    }
    let b = tprime_base_rules();
    let kb = kb_rules(12);
    let tp = tprime_rules();
    assert forall|k: int| #![trigger tp[k]] 0 <= k < tp.len() implies word_invariants(tp[k].0) == word_invariants(tp[k].1) by {
        if k < 11 {
            assert(tp[k] == b[k]);
            assert(k == 0 || k == 1 || k == 2 || k == 3 || k == 4 || k == 5 || k == 6 || k == 7 || k == 8 || k == 9 || k == 10);
        } else {
            assert(tp[k] == kb[k - 11]);
            lemma_kb_rule_invariants((k - 11 + 1) as nat);
        }
    }
}

} // verus!
