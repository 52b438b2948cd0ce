//! Termination of T and T'. Every rewriting step of T makes the measure
//! `(#A, #F, #C, #B, #HDQ, #E)` smaller in the lexicographic order on tuples
//! of naturals, where `#HDQ` counts the occurrences of the factor `HDQ`;
//! as that order has no infinite descending sequence, neither has T. Every
//! step of T' makes the word smaller in shortlex, which on words of bounded
//! length is again a lexicographic order on tuples of naturals.

use vstd::prelude::*;
use crate::invariants::{count_char, lemma_count_concat};
use crate::orders::{lemma_tprime_steps_decrease_shortlex, shortlex_gt};
use crate::rewriting::{occurs_at, replace_at, rewrites_by, rewrites_to, t_rules, tprime_rules};
use crate::words::lex_lt;

verus! {

/// `a` is greater than `b` in the lexicographic order on sequences of
/// naturals: at the first place where they differ, `a` holds the larger number.
pub open spec fn nat_lex_gt(a: Seq<nat>, b: Seq<nat>) -> bool {
    exists|k: int|
        0 <= k < a.len() && k < b.len() && #[trigger] a[k] > b[k] && forall|j: int| 0 <= j < k ==> a[j] == b[j]
}

proof fn lemma_nat_lex_gt_at(a: Seq<nat>, b: Seq<nat>, k: int)
    requires
        0 <= k < a.len(),
        k < b.len(),
        a[k] > b[k],
        forall|j: int| 0 <= j < k ==> a[j] == b[j],
    ensures
        nat_lex_gt(a, b),
{
}

/// Along a descending sequence from place `s`, the first components never
/// exceed the one at `s`.
proof fn lemma_first_nonincreasing(g: spec_fn(nat) -> Seq<nat>, n: nat, s: nat, j: nat)
    requires
        n > 0,
        forall|i: nat| #[trigger] g(i).len() == n,
        forall|i: nat| nat_lex_gt(#[trigger] g(i), g(i + 1)),
        s <= j,
    ensures
        g(j)[0] <= g(s)[0],
    decreases j - s,
{
    if s < j {
        lemma_first_nonincreasing(g, n, s, (j - 1) as nat);
        let a = g((j - 1) as nat);
        let b = g(j);
        assert(nat_lex_gt(a, b));
        let k = choose|k: int| 0 <= k < a.len() && k < b.len() && #[trigger] a[k] > b[k] && forall|i: int| 0 <= i < k ==> a[i] == b[i];
        if k > 0 {
            assert(a[0] == b[0]);
        }
    }
}

/// No sequence of sequences of `n` naturals descends forever in the
/// lexicographic order.
proof fn lemma_no_infinite_descent(g: spec_fn(nat) -> Seq<nat>, n: nat)
    requires
        forall|i: nat| #[trigger] g(i).len() == n,
    ensures
        exists|i: nat| !nat_lex_gt(#[trigger] g(i), g(i + 1)),
    decreases 2 * n + 1, 0nat,
{
    if forall|i: nat| nat_lex_gt(#[trigger] g(i), g(i + 1)) {
        assert(nat_lex_gt(g(0), g(1)));
        assert(n > 0);
        lemma_no_descent_from(g, n, 0, g(0)[0]);
    }
}

/// The induction on the first component: from a place `s` where it is `v`,
/// either it later drops below `v`, or it stays `v` and the rest of each
/// tuple descends forever.
proof fn lemma_no_descent_from(g: spec_fn(nat) -> Seq<nat>, n: nat, s: nat, v: nat)
    requires
        n > 0,
        forall|i: nat| #[trigger] g(i).len() == n,
        g(s)[0] == v,
    ensures
        exists|i: nat| !nat_lex_gt(#[trigger] g(i), g(i + 1)),
    decreases 2 * n, v,
{
    if exists|i: nat| !nat_lex_gt(#[trigger] g(i), g(i + 1)) {
    } else if exists|j: nat| s <= j && #[trigger] g(j)[0] != v {
        let j = choose|j: nat| s <= j && #[trigger] g(j)[0] != v;
        lemma_first_nonincreasing(g, n, s, j);
        lemma_no_descent_from(g, n, j, g(j)[0]);
    } else {
        let h = tails_from(g, s);
        lemma_tails_descend(g, n, s, v);
        lemma_no_infinite_descent(h, (n - 1) as nat);
        let i = choose|i: nat| !nat_lex_gt(#[trigger] h(i), h(i + 1));
        assert(nat_lex_gt(h(i), h(i + 1)));
    }
}

/// The sequence `g` from place `s` on, with the first component of each
/// tuple dropped.
spec fn tails_from(g: spec_fn(nat) -> Seq<nat>, s: nat) -> spec_fn(nat) -> Seq<nat> {
    |i: nat| g((s + i) as nat).drop_first()
}

/// Where the first components stay equal from place `s` on, the rest of each
/// tuple descends.
proof fn lemma_tails_descend(g: spec_fn(nat) -> Seq<nat>, n: nat, s: nat, v: nat)
    requires
        n > 0,
        forall|i: nat| #[trigger] g(i).len() == n,
        forall|i: nat| nat_lex_gt(#[trigger] g(i), g(i + 1)),
        forall|j: nat| s <= j ==> #[trigger] g(j)[0] == v,
    ensures
        forall|i: nat| #[trigger] tails_from(g, s)(i).len() == (n - 1) as nat,
        forall|i: nat| nat_lex_gt(#[trigger] tails_from(g, s)(i), tails_from(g, s)(i + 1)),
{
    let h = tails_from(g, s);
    assert forall|i: nat| #[trigger] h(i).len() == (n - 1) as nat by {
        assert(g((s + i) as nat).len() == n);
    }
    assert forall|i: nat| nat_lex_gt(#[trigger] h(i), h(i + 1)) by {
        let a = g((s + i) as nat);
        let b = g((s + i + 1) as nat);
        assert(nat_lex_gt(a, b));
        assert(a[0] == v);
        assert(b[0] == v);
        let k = choose|k: int| 0 <= k < a.len() && k < b.len() && #[trigger] a[k] > b[k] && forall|j: int| 0 <= j < k ==> a[j] == b[j];
        assert(k > 0);
        let ha = a.drop_first();
        let hb = b.drop_first();
        assert(h(i) == ha);
        assert(h(i + 1) == hb);
        assert forall|j: int| 0 <= j < k - 1 implies #[trigger] ha[j] == hb[j] by {
            assert(a[j + 1] == b[j + 1]);
        }
        lemma_nat_lex_gt_at(ha, hb, k - 1);
    }
}

/// The number of occurrences of the factor `HDQ` in `w`.
pub open spec fn hdq_count(w: Seq<char>) -> nat
    decreases w.len(),
{
    if w.len() < 3 {
        0
    } else {
        (if w[0] == 'H' && w[1] == 'D' && w[2] == 'Q' { 1nat } else { 0nat }) + hdq_count(w.drop_first())
    }
}

/// The measure of a word: the numbers of `A`, `F`, `C`, `B`, of factors
/// `HDQ`, and of `E`, in this order of importance.
pub open spec fn t_measure(w: Seq<char>) -> Seq<nat> {
    seq![count_char(w, 'A'), count_char(w, 'F'), count_char(w, 'C'), count_char(w, 'B'), hdq_count(w), count_char(w, 'E')]
}

/// Putting one letter in front of a word adds an occurrence of `HDQ` only
/// where that letter starts one.
proof fn lemma_hdq_cons(c: char, s: Seq<char>)
    ensures
        hdq_count(seq![c] + s) == hdq_count(s) + if c == 'H' && s.len() >= 2 && s[0] == 'D' && s[1] == 'Q' { 1nat } else { 0nat },
{
    let w = seq![c] + s;
    if s.len() >= 2 {
        assert(w.drop_first() =~= s);
        assert(w[0] == c && w[1] == s[0] && w[2] == s[1]);
    }
}

/// Two words that begin alike, as far as an occurrence of `HDQ` that starts
/// before them can see, gain the same number of occurrences from a common prefix.
proof fn lemma_hdq_prefix(p: Seq<char>, x: Seq<char>, y: Seq<char>)
    requires
        x.len() >= 2,
        y.len() >= 2,
        x[0] == y[0],
        x[0] != 'D' || x[1] == y[1],
    ensures
        hdq_count(p + x) + hdq_count(y) == hdq_count(p + y) + hdq_count(x),
    decreases p.len(),
{
    if p.len() == 0 {
        assert(p + x =~= x);
        assert(p + y =~= y);
    } else {
        let px = p + x;
        let py = p + y;
        assert(px.drop_first() =~= p.drop_first() + x);
        assert(py.drop_first() =~= p.drop_first() + y);
        lemma_hdq_prefix(p.drop_first(), x, y);
        assert(px[0] == py[0]);
        if p.len() >= 3 {
            assert(px[1] == py[1] && px[2] == py[2]);
        } else if p.len() == 2 {
            assert(px[1] == py[1]);
            assert(px[2] == x[0] && py[2] == y[0]);
        } else {
            assert(px[1] == x[0] && py[1] == y[0]);
            assert(px[2] == x[1] && py[2] == y[1]);
        }
    }
}

/// The letter counted by the component `j` of the measure, for `j < 4`.
spec fn measure_letter(j: int) -> char {
    if j == 0 {
        'A'
    } else if j == 1 {
        'F'
    } else if j == 2 {
        'C'
    } else {
        'B'
    }
}

/// Letters are counted piece by piece in `p + l + s`.
proof fn lemma_count_in_context(p: Seq<char>, l: Seq<char>, s: Seq<char>, c: char)
    ensures
        count_char(p + l + s, c) == count_char(p, c) + count_char(l, c) + count_char(s, c),
{
    lemma_count_concat(p, l, c);
    lemma_count_concat(p + l, s, c);
}

/// A rule whose sides first differ, among `#A`, `#F`, `#C`, `#B`, at
/// component `idx`, with fewer letters on the right, makes the measure
/// smaller in any context.
proof fn lemma_counts_decide(p: Seq<char>, l: Seq<char>, r: Seq<char>, s: Seq<char>, idx: int)
    requires
        0 <= idx < 4,
        forall|j: int| 0 <= j < idx ==> count_char(l, #[trigger] measure_letter(j)) == count_char(r, measure_letter(j)),
        count_char(l, measure_letter(idx)) > count_char(r, measure_letter(idx)),
    ensures
        nat_lex_gt(t_measure(p + l + s), t_measure(p + r + s)),
{
    let mw = t_measure(p + l + s);
    let mv = t_measure(p + r + s);
    assert forall|j: int| 0 <= j <= idx implies #[trigger] mw[j] == count_char(p + l + s, measure_letter(j))
        && mv[j] == count_char(p + r + s, measure_letter(j)) by {
        assert(j == 0 || j == 1 || j == 2 || j == 3);
    }
    assert forall|j: int| 0 <= j <= idx implies #[trigger] mw[j] - mv[j] == count_char(l, measure_letter(j)) - count_char(r, measure_letter(j)) by {
        lemma_count_in_context(p, l, s, measure_letter(j));
        lemma_count_in_context(p, r, s, measure_letter(j));
    }
    lemma_nat_lex_gt_at(mw, mv, idx);
}

/// `FHDQ` followed by any word has one factor `HDQ` more than that word;
/// `FHEDQ` followed by it has none more.
proof fn lemma_fhdq_factors(s: Seq<char>)
    ensures
        hdq_count(seq!['F', 'H', 'D', 'Q'] + s) == hdq_count(s) + 1,
        hdq_count(seq!['F', 'H', 'E', 'D', 'Q'] + s) == hdq_count(s),
{
    assert(seq!['F', 'H', 'D', 'Q'] + s =~= seq!['F'] + (seq!['H'] + (seq!['D'] + (seq!['Q'] + s))));
    assert(seq!['F', 'H', 'E', 'D', 'Q'] + s =~= seq!['F'] + (seq!['H'] + (seq!['E'] + (seq!['D'] + (seq!['Q'] + s)))));
    lemma_hdq_cons('Q', s);
    lemma_hdq_cons('D', seq!['Q'] + s);
    lemma_hdq_cons('H', seq!['D'] + (seq!['Q'] + s));
    lemma_hdq_cons('F', seq!['H'] + (seq!['D'] + (seq!['Q'] + s)));
    lemma_hdq_cons('E', seq!['D'] + (seq!['Q'] + s));
    lemma_hdq_cons('H', seq!['E'] + (seq!['D'] + (seq!['Q'] + s)));
    lemma_hdq_cons('F', seq!['H'] + (seq!['E'] + (seq!['D'] + (seq!['Q'] + s))));
}

proof fn lemma_fhdq_letters()
    ensures
        count_char(seq!['F', 'H', 'D', 'Q'], 'A') == 0,
        count_char(seq!['F', 'H', 'E', 'D', 'Q'], 'A') == 0,
        count_char(seq!['F', 'H', 'D', 'Q'], 'F') == 1,
        count_char(seq!['F', 'H', 'E', 'D', 'Q'], 'F') == 1,
        count_char(seq!['F', 'H', 'D', 'Q'], 'C') == 0,
        count_char(seq!['F', 'H', 'E', 'D', 'Q'], 'C') == 0,
        count_char(seq!['F', 'H', 'D', 'Q'], 'B') == 0,
        count_char(seq!['F', 'H', 'E', 'D', 'Q'], 'B') == 0,
{
    reveal_with_fuel(count_char, 6);
}

/// FHDQ -> FHEDQ keeps `#A`, `#F`, `#C`, `#B` and removes one factor `HDQ`.
proof fn lemma_fhdq_rule_decreases(p: Seq<char>, s: Seq<char>)
    ensures
        nat_lex_gt(t_measure(p + seq!['F', 'H', 'D', 'Q'] + s), t_measure(p + seq!['F', 'H', 'E', 'D', 'Q'] + s)),
{
    let l = seq!['F', 'H', 'D', 'Q'];
    let r = seq!['F', 'H', 'E', 'D', 'Q'];
    let w = p + l + s;
    let v = p + r + s;
    lemma_fhdq_factors(s);
    lemma_fhdq_letters();
    assert((l + s)[0] == 'F' && (r + s)[0] == 'F');
    lemma_hdq_prefix(p, l + s, r + s);
    assert(w =~= p + (l + s));
    assert(v =~= p + (r + s));
    lemma_count_in_context(p, l, s, 'A');
    lemma_count_in_context(p, r, s, 'A');
    lemma_count_in_context(p, l, s, 'F');
    lemma_count_in_context(p, r, s, 'F');
    lemma_count_in_context(p, l, s, 'C');
    lemma_count_in_context(p, r, s, 'C');
    lemma_count_in_context(p, l, s, 'B');
    lemma_count_in_context(p, r, s, 'B');
    lemma_nat_lex_gt_at(t_measure(w), t_measure(v), 4);
}

/// HE -> HDD keeps `#A`, `#F`, `#C`, `#B` and the factors `HDQ`, and removes one `E`.
proof fn lemma_he_rule_decreases(p: Seq<char>, s: Seq<char>)
    ensures
        nat_lex_gt(t_measure(p + seq!['H', 'E'] + s), t_measure(p + seq!['H', 'D', 'D'] + s)),
{
    reveal_with_fuel(count_char, 4);
    let l = seq!['H', 'E'];
    let r = seq!['H', 'D', 'D'];
    let w = p + l + s;
    let v = p + r + s;
    assert(l + s =~= seq!['H'] + (seq!['E'] + s));
    assert(r + s =~= seq!['H'] + (seq!['D'] + (seq!['D'] + s)));
    lemma_hdq_cons('E', s);
    lemma_hdq_cons('H', seq!['E'] + s);
    lemma_hdq_cons('D', s);
    lemma_hdq_cons('D', seq!['D'] + s);
    lemma_hdq_cons('H', seq!['D'] + (seq!['D'] + s));
    assert(hdq_count(l + s) == hdq_count(s));
    assert(hdq_count(r + s) == hdq_count(s));
    lemma_hdq_prefix(p, l + s, r + s);
    assert(w =~= p + (l + s));
    assert(v =~= p + (r + s));
    lemma_count_in_context(p, l, s, 'A');
    lemma_count_in_context(p, r, s, 'A');
    lemma_count_in_context(p, l, s, 'F');
    lemma_count_in_context(p, r, s, 'F');
    lemma_count_in_context(p, l, s, 'C');
    lemma_count_in_context(p, r, s, 'C');
    lemma_count_in_context(p, l, s, 'B');
    lemma_count_in_context(p, r, s, 'B');
    lemma_count_in_context(p, l, s, 'E');
    lemma_count_in_context(p, r, s, 'E');
    assert(count_char(l, 'A') == 0 && count_char(r, 'A') == 0);
    assert(count_char(l, 'F') == 0 && count_char(r, 'F') == 0);
    assert(count_char(l, 'C') == 0 && count_char(r, 'C') == 0);
    assert(count_char(l, 'B') == 0 && count_char(r, 'B') == 0);
    assert(count_char(l, 'E') == 1 && count_char(r, 'E') == 0);
    lemma_nat_lex_gt_at(t_measure(w), t_measure(v), 5);
}

/// Each rule of T, in any context, makes the measure smaller.
proof fn lemma_t_rule_decreases_measure(p: Seq<char>, k: int, s: Seq<char>)
    requires
        0 <= k < t_rules().len(),
    ensures
        nat_lex_gt(t_measure(p + t_rules()[k].0 + s), t_measure(p + t_rules()[k].1 + s)),
{
    reveal_with_fuel(count_char, 4);
    let l = t_rules()[k].0;
    let r = t_rules()[k].1;
    assert(measure_letter(0) == 'A' && measure_letter(1) == 'F' && measure_letter(2) == 'C' && measure_letter(3) == 'B');
    if k == 6 {
        lemma_fhdq_rule_decreases(p, s);
    } else if k == 8 {
        lemma_he_rule_decreases(p, s);
    } else if k == 4 || k == 7 || k == 9 {
        // AD -> BD, HA -> JH, GGA -> HCE: one `A` fewer.
        assert(count_char(l, 'A') == 1 && count_char(r, 'A') == 0);
        lemma_counts_decide(p, l, r, s, 0);
    } else if k == 0 || k == 1 || k == 2 || k == 5 {
        // JFF -> EID, CFG -> IC, GF -> GG, FFI -> HGH: fewer `F`s.
        assert(count_char(l, 'A') == 0 && count_char(r, 'A') == 0);
        assert(count_char(l, 'F') > 0 && count_char(r, 'F') == 0);
        lemma_counts_decide(p, l, r, s, 1);
    } else if k == 3 {
        // IC -> JI: one `C` fewer.
        assert(count_char(l, 'A') == 0 && count_char(r, 'A') == 0);
        assert(count_char(l, 'F') == 0 && count_char(r, 'F') == 0);
        assert(count_char(l, 'C') == 1 && count_char(r, 'C') == 0);
        lemma_counts_decide(p, l, r, s, 2);
    } else {
        // IBB -> DDI: two `B`s fewer.
        assert(k == 10);
        assert(count_char(l, 'A') == 0 && count_char(r, 'A') == 0);
        assert(count_char(l, 'F') == 0 && count_char(r, 'F') == 0);
        assert(count_char(l, 'C') == 0 && count_char(r, 'C') == 0);
        assert(count_char(l, 'B') == 2 && count_char(r, 'B') == 0);
        lemma_counts_decide(p, l, r, s, 3);
    }
}

/// Every rewriting step of T makes the measure `(#A, #F, #C, #B, #HDQ, #E)`
/// smaller in the lexicographic order.
pub proof fn lemma_t_step_decreases_measure(w: Seq<char>, v: Seq<char>)
    requires
        rewrites_to(t_rules(), w, v),
    ensures
        nat_lex_gt(t_measure(w), t_measure(v)),
{
    let t = t_rules();
    let k = choose|k: int| 0 <= k < t.len() && #[trigger] rewrites_by(t[k].0, t[k].1, w, v);
    let (l, r) = t[k];
    let i = choose|i: int| occurs_at(w, l, i) && v == #[trigger] replace_at(w, l, r, i);
    let p = w.take(i);
    let s = w.skip(i + l.len());
    assert(w =~= p + l + s);
    assert(v =~= p + r + s);
    lemma_t_rule_decreases_measure(p, k, s);
}

/// T terminates: there is no infinite sequence of words in which each word
/// rewrites to the next by a rule of T.
pub proof fn theorem_t_terminates(f: spec_fn(nat) -> Seq<char>)
    ensures
        !(forall|i: nat| #[trigger] rewrites_to(t_rules(), f(i), f(i + 1))),
{
    if forall|i: nat| #[trigger] rewrites_to(t_rules(), f(i), f(i + 1)) {
        let g = |i: nat| t_measure(f(i));
        assert forall|i: nat| #[trigger] g(i).len() == 6 by {}
        assert forall|i: nat| nat_lex_gt(#[trigger] g(i), g(i + 1)) by {
            assert(rewrites_to(t_rules(), f(i), f(i + 1)));
            lemma_t_step_decreases_measure(f(i), f(i + 1));
        }
        lemma_no_infinite_descent(g, 6);
        let i = choose|i: nat| !nat_lex_gt(#[trigger] g(i), g(i + 1));
        assert(nat_lex_gt(g(i), g(i + 1)));
    }
}

/// Two words of one length in lexicographic order: at the first place where
/// they differ, the first word has the smaller letter.
proof fn lemma_lex_first_difference(v: Seq<char>, u: Seq<char>)
    requires
        lex_lt(v, u),
        v.len() == u.len(),
    ensures
        exists|i: int| 0 <= i < u.len() && #[trigger] v[i] < u[i] && forall|j: int| 0 <= j < i ==> v[j] == u[j],
    decreases v.len(),
{
    if v[0] == u[0] {
        lemma_lex_first_difference(v.drop_first(), u.drop_first());
        let i = choose|i: int| 0 <= i < u.len() - 1 && #[trigger] v.drop_first()[i] < u.drop_first()[i]
            && forall|j: int| 0 <= j < i ==> v.drop_first()[j] == u.drop_first()[j];
        assert(v[i + 1] < u[i + 1]);
        assert forall|j: int| 0 <= j < i + 1 implies v[j] == u[j] by {
            if j > 0 {
                assert(v.drop_first()[j - 1] == u.drop_first()[j - 1]);
            }
        }
    } else {
        assert(v[0] < u[0]);
    }
}

/// Characters compare as their code points do.
proof fn lemma_char_code_order(c: char, d: char)
    requires
        c < d,
    ensures
        (c as u32) < (d as u32),
{
    assert((c as int) == (c as u32) as int);
    assert((d as int) == (d as u32) as int);
}

/// A word of at most `n` letters as `n + 1` naturals: its length, then the
/// code points of its letters, then zeros.
spec fn shortlex_code(w: Seq<char>, n: nat) -> Seq<nat> {
    Seq::new(n + 1, |j: int| if j == 0 { w.len() } else if j - 1 < w.len() { (w[j - 1] as u32) as nat } else { 0nat })
}

/// On words of at most `n` letters, shortlex is the lexicographic order on
/// their codes.
proof fn lemma_shortlex_code(u: Seq<char>, v: Seq<char>, n: nat)
    requires
        shortlex_gt(u, v),
        u.len() <= n,
    ensures
        nat_lex_gt(shortlex_code(u, n), shortlex_code(v, n)),
{
    let a = shortlex_code(u, n);
    let b = shortlex_code(v, n);
    if u.len() > v.len() {
        lemma_nat_lex_gt_at(a, b, 0);
    } else {
        lemma_lex_first_difference(v, u);
        let i = choose|i: int| 0 <= i < u.len() && #[trigger] v[i] < u[i] && forall|j: int| 0 <= j < i ==> v[j] == u[j];
        assert forall|j: int| 0 <= j < i + 1 implies a[j] == b[j] by {
            if j > 0 {
                assert(v[j - 1] == u[j - 1]);
            }
        }
        lemma_char_code_order(v[i], u[i]);
        assert(a[i + 1] > b[i + 1]);
        lemma_nat_lex_gt_at(a, b, i + 1);
    }
}

/// T' terminates: there is no infinite sequence of words in which each word
/// rewrites to the next by a rule of T'.
pub proof fn theorem_tprime_terminates(f: spec_fn(nat) -> Seq<char>)
    ensures
        !(forall|i: nat| #[trigger] rewrites_to(tprime_rules(), f(i), f(i + 1))),
{
    if forall|i: nat| #[trigger] rewrites_to(tprime_rules(), f(i), f(i + 1)) {
        let n = f(0).len();
        assert forall|i: nat| #[trigger] f(i).len() <= n by {
            lemma_lengths_bounded(f, i);
        }
        let g = |i: nat| shortlex_code(f(i), n);
        assert forall|i: nat| #[trigger] g(i).len() == n + 1 by {}
        assert forall|i: nat| nat_lex_gt(#[trigger] g(i), g(i + 1)) by {
            assert(rewrites_to(tprime_rules(), f(i), f(i + 1)));
            lemma_tprime_steps_decrease_shortlex(f(i), f(i + 1));
            lemma_shortlex_code(f(i), f(i + 1), n);
        }
        lemma_no_infinite_descent(g, n + 1);
        let i = choose|i: nat| !nat_lex_gt(#[trigger] g(i), g(i + 1));
        assert(nat_lex_gt(g(i), g(i + 1)));
    }
}

/// Along a sequence of T' steps, no word is longer than the first.
proof fn lemma_lengths_bounded(f: spec_fn(nat) -> Seq<char>, i: nat)
    requires
        forall|j: nat| #[trigger] rewrites_to(tprime_rules(), f(j), f(j + 1)),
    ensures
        f(i).len() <= f(0).len(),
    decreases i,
{
    if i > 0 {
        let j = (i - 1) as nat;
        lemma_lengths_bounded(f, j);
        assert(rewrites_to(tprime_rules(), f(j), f(j + 1)));
        lemma_tprime_steps_decrease_shortlex(f(j), f(j + 1));
    }
}

} // verus!
