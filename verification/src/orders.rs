//! Word orders under which the rules of T and T' make words smaller: the
//! right-to-left lexicographic order with the letter scale
//! `A > F > G > C > B > I > H > E > D > J > Q` for T, and shortlex for T'.

use vstd::prelude::*;
use crate::rewriting::{kb_lhs, kb_rhs, kb_rules, letters, occurs_at, replace_at, rewrites_by, rewrites_to, t_rules, tprime_base_rules, tprime_rules, KB_MAX_N};
use crate::words::lex_lt;

verus! {

/// The place of a letter on the scale `A > F > G > C > B > I > H > E > D > J > Q`
/// (higher is greater); letters off the scale get `-1`.
pub open spec fn letter_rank(c: char) -> int {
    if c == 'A' {
        10
    } else if c == 'F' {
        9
    } else if c == 'G' {
        8
    } else if c == 'C' {
        7
    } else if c == 'B' {
        6
    } else if c == 'I' {
        5
    } else if c == 'H' {
        4
    } else if c == 'E' {
        3
    } else if c == 'D' {
        2
    } else if c == 'J' {
        1
    } else if c == 'Q' {
        0
    } else {
        -1
    }
}

/// `u` is greater than `v` in the right-to-left lexicographic order: read
/// from the right, at the first place where they differ the letter of `u`
/// ranks higher; where one is a suffix of the other, the longer is greater.
pub open spec fn rlex_gt(u: Seq<char>, v: Seq<char>) -> bool
    decreases u.len(),
{
    if u.len() == 0 {
        false
    } else if v.len() == 0 {
        true
    } else if u.last() == v.last() {
        rlex_gt(u.drop_last(), v.drop_last())
    } else {
        letter_rank(u.last()) > letter_rank(v.last())
    }
}

/// `u` is greater than `v` in the right-to-left lexicographic order, and
/// this is decided at a place where both have a letter.
pub open spec fn rlex_decided_gt(u: Seq<char>, v: Seq<char>) -> bool
    decreases u.len(),
{
    if u.len() == 0 || v.len() == 0 {
        false
    } else if u.last() == v.last() {
        rlex_decided_gt(u.drop_last(), v.drop_last())
    } else {
        letter_rank(u.last()) > letter_rank(v.last())
    }
}

/// `u` is greater than `v` in shortlex: longer, or as long and
/// lexicographically greater.
pub open spec fn shortlex_gt(u: Seq<char>, v: Seq<char>) -> bool {
    u.len() > v.len() || (u.len() == v.len() && lex_lt(v, u))
}

/// A common suffix does not change the right-to-left comparison.
proof fn lemma_rlex_common_suffix(x: Seq<char>, y: Seq<char>, s: Seq<char>)
    ensures
        rlex_gt(x + s, y + s) == rlex_gt(x, y),
    decreases s.len(),
{
    if s.len() == 0 {
        assert(x + s =~= x);
        assert(y + s =~= y);
    } else {
        let s2 = s.drop_last();
        assert((x + s).drop_last() =~= x + s2);
        assert((y + s).drop_last() =~= y + s2);
        lemma_rlex_common_suffix(x, y, s2);
    }
}

/// A comparison decided inside two words is not changed by a common prefix.
proof fn lemma_rlex_common_prefix(p: Seq<char>, l: Seq<char>, r: Seq<char>)
    requires
        rlex_decided_gt(l, r),
    ensures
        rlex_gt(p + l, p + r),
    decreases l.len(),
{
    assert((p + l).last() == l.last());
    assert((p + r).last() == r.last());
    if l.last() == r.last() {
        assert((p + l).drop_last() =~= p + l.drop_last());
        assert((p + r).drop_last() =~= p + r.drop_last());
        lemma_rlex_common_prefix(p, l.drop_last(), r.drop_last());
    }
}

/// Each rule of T has a left side greater than its right side, decided at a
/// place where both have a letter.
proof fn lemma_t_rules_decided()
    ensures
        forall|k: int| 0 <= k < t_rules().len() ==> rlex_decided_gt(#[trigger] t_rules()[k].0, t_rules()[k].1),
{
    assert(seq!['A', 'D'].drop_last() =~= seq!['A']);
    assert(seq!['B', 'D'].drop_last() =~= seq!['B']);
    assert(seq!['F', 'H', 'D', 'Q'].drop_last() =~= seq!['F', 'H', 'D']);
    assert(seq!['F', 'H', 'D'].drop_last() =~= seq!['F', 'H']);
    assert(seq!['F', 'H', 'E', 'D', 'Q'].drop_last() =~= seq!['F', 'H', 'E', 'D']);
    assert(seq!['F', 'H', 'E', 'D'].drop_last() =~= seq!['F', 'H', 'E']);
    assert(rlex_decided_gt(seq!['J', 'F', 'F'], seq!['E', 'I', 'D']));
    assert(rlex_decided_gt(seq!['C', 'F', 'G'], seq!['I', 'C']));
    assert(rlex_decided_gt(seq!['G', 'F'], seq!['G', 'G']));
    assert(rlex_decided_gt(seq!['I', 'C'], seq!['J', 'I']));
    assert(rlex_decided_gt(seq!['A'], seq!['B']));
    assert(rlex_decided_gt(seq!['A', 'D'], seq!['B', 'D']));
    assert(rlex_decided_gt(seq!['F', 'F', 'I'], seq!['H', 'G', 'H']));
    assert(rlex_decided_gt(seq!['F', 'H'], seq!['F', 'H', 'E']));
    assert(rlex_decided_gt(seq!['F', 'H', 'D'], seq!['F', 'H', 'E', 'D']));
    assert(rlex_decided_gt(seq!['F', 'H', 'D', 'Q'], seq!['F', 'H', 'E', 'D', 'Q']));
    assert(rlex_decided_gt(seq!['H', 'A'], seq!['J', 'H']));
    assert(rlex_decided_gt(seq!['H', 'E'], seq!['H', 'D', 'D']));
    assert(rlex_decided_gt(seq!['G', 'G', 'A'], seq!['H', 'C', 'E']));
    assert(rlex_decided_gt(seq!['I', 'B', 'B'], seq!['D', 'D', 'I']));
}

/// Every rewriting step of T makes the word strictly smaller in the
/// right-to-left lexicographic order with the scale
/// `A > F > G > C > B > I > H > E > D > J > Q`.
pub proof fn lemma_t_steps_decrease_rlex(w: Seq<char>, v: Seq<char>)
    requires
        rewrites_to(t_rules(), w, v),
    ensures
        rlex_gt(w, v),
{
    let t = t_rules();
    let k = choose|k: int| 0 <= k < t.len() && #[trigger] rewrites_by(t[k].0, t[k].1, w, v);
    let (l, r) = t[k];
    let i = choose|i: int| occurs_at(w, l, i) && v == #[trigger] replace_at(w, l, r, i);
    lemma_t_rules_decided();
    assert(rlex_decided_gt(t[k].0, t[k].1));
    let p = w.take(i);
    let s = w.skip(i + l.len());
    assert(w =~= (p + l) + s);
    assert(v =~= (p + r) + s);
    lemma_rlex_common_prefix(p, l, r);
    lemma_rlex_common_suffix(p + l, p + r, s);
}

/// A common prefix does not change the lexicographic comparison.
proof fn lemma_lex_common_prefix(p: Seq<char>, x: Seq<char>, y: Seq<char>)
    ensures
        lex_lt(p + x, p + y) == lex_lt(x, y),
    decreases p.len(),
{
    if p.len() == 0 {
        assert(p + x =~= x);
        assert(p + y =~= y);
    } else {
        assert((p + x).drop_first() =~= p.drop_first() + x);
        assert((p + y).drop_first() =~= p.drop_first() + y);
        lemma_lex_common_prefix(p.drop_first(), x, y);
    }
}

/// Between words of one length, the lexicographic comparison is not changed
/// by a common suffix.
proof fn lemma_lex_common_suffix(x: Seq<char>, y: Seq<char>, s: Seq<char>)
    requires
        x.len() == y.len(),
    ensures
        lex_lt(x + s, y + s) == lex_lt(x, y),
    decreases x.len(),
{
    if x.len() == 0 {
        assert(x + s =~= s);
        assert(y + s =~= s);
        crate::words::lemma_lex_irreflexive(s);
    } else {
        assert((x + s)[0] == x[0]);
        assert((y + s)[0] == y[0]);
        assert((x + s).drop_first() =~= x.drop_first() + s);
        assert((y + s).drop_first() =~= y.drop_first() + s);
        lemma_lex_common_suffix(x.drop_first(), y.drop_first(), s);
    }
}

/// Shortlex is kept when both words are put in the same context.
proof fn lemma_shortlex_context(p: Seq<char>, l: Seq<char>, r: Seq<char>, s: Seq<char>)
    requires
        shortlex_gt(l, r),
    ensures
        shortlex_gt(p + l + s, p + r + s),
{
    if l.len() == r.len() {
        lemma_lex_common_suffix(r, l, s);
        lemma_lex_common_prefix(p, r + s, l + s);
        assert(p + r + s =~= p + (r + s));
        assert(p + l + s =~= p + (l + s));
    }
}

/// The left side of each completion rule `G F^n G -> G F^(n+1)` is greater
/// in shortlex than its right side.
proof fn lemma_kb_rule_shortlex(n: nat)
    ensures
        shortlex_gt(kb_lhs(n), kb_rhs(n)),
{
    let pre = seq!['G'] + letters('F', n);
    assert(kb_lhs(n) =~= pre + seq!['G']);
    assert(kb_rhs(n) =~= pre + seq!['F']);
    assert(lex_lt(seq!['F'], seq!['G']));
    lemma_lex_common_prefix(pre, seq!['F'], seq!['G']);
}

/// Each rule of T' has a left side greater in shortlex than its right side.
proof fn lemma_tprime_rules_shortlex()
    ensures
        forall|k: int| 0 <= k < tprime_rules().len() ==> shortlex_gt(#[trigger] tprime_rules()[k].0, tprime_rules()[k].1),
{
    let b = tprime_base_rules();
    assert(seq!['G', 'F'].drop_first() =~= seq!['F']);
    assert(seq!['G', 'G'].drop_first() =~= seq!['G']);
    assert(lex_lt(seq!['F'], seq!['G']));
    assert(lex_lt(seq!['G', 'F'], seq!['G', 'G']));
    assert(lex_lt(seq!['I', 'C'], seq!['J', 'I']));
    assert(lex_lt(seq!['A', 'D'], seq!['B', 'D']));
    assert(lex_lt(seq!['H', 'A'], seq!['J', 'H']));
    assert(lex_lt(seq!['E', 'I', 'D'], seq!['J', 'F', 'F']));
    assert(lex_lt(seq!['F', 'F', 'I'], seq!['H', 'G', 'H']));
    assert(lex_lt(seq!['G', 'G', 'A'], seq!['H', 'C', 'E']));
    assert(lex_lt(seq!['D', 'D', 'I'], seq!['I', 'B', 'B']));
    assert forall|k: int| 0 <= k < tprime_rules().len() implies shortlex_gt(#[trigger] tprime_rules()[k].0, tprime_rules()[k].1) by {
        if k < b.len() {
            assert(tprime_rules()[k] == b[k]);
            assert(k == 0 || k == 1 || k == 2 || k == 3 || k == 4 || k == 5 || k == 6 || k == 7 || k == 8 || k == 9 || k == 10);
        } else {
            let n = (k - b.len() + 1) as nat;
            assert(tprime_rules()[k] == (kb_lhs(n), kb_rhs(n)));
            lemma_kb_rule_shortlex(n);
        }
    }
}

/// T' is T oriented by shortlex: its base rules are the rules of T in the
/// same order, each kept where its left side is the greater in shortlex and
/// turned round where it is not; the completion rules follow them.
pub proof fn lemma_tprime_is_t_oriented()
    ensures
        tprime_base_rules().len() == t_rules().len(),
        forall|k: int| 0 <= k < t_rules().len() ==> #[trigger] tprime_base_rules()[k] == (if shortlex_gt(t_rules()[k].0, t_rules()[k].1) {
            t_rules()[k]
        } else {
            (t_rules()[k].1, t_rules()[k].0)
        }),
        tprime_rules() == tprime_base_rules() + kb_rules(KB_MAX_N as nat),
{
    let t = t_rules();
    let b = tprime_base_rules();
    assert(seq!['G', 'F'].drop_first() =~= seq!['F']);
    assert(seq!['G', 'G'].drop_first() =~= seq!['G']);
    assert(!lex_lt(seq!['G'], seq!['F']));
    assert(!lex_lt(seq!['G', 'G'], seq!['G', 'F']));
    assert(lex_lt(seq!['E', 'I', 'D'], seq!['J', 'F', 'F']));
    assert(lex_lt(seq!['D', 'D', 'I'], seq!['I', 'B', 'B']));
    assert(!lex_lt(seq!['J', 'I'], seq!['I', 'C']));
    assert(!lex_lt(seq!['B', 'D'], seq!['A', 'D']));
    assert(!lex_lt(seq!['H', 'G', 'H'], seq!['F', 'F', 'I']));
    assert(!lex_lt(seq!['J', 'H'], seq!['H', 'A']));
    assert(!lex_lt(seq!['H', 'C', 'E'], seq!['G', 'G', 'A']));
    assert forall|k: int| 0 <= k < t.len() implies #[trigger] b[k] == (if shortlex_gt(t[k].0, t[k].1) {
        t[k]
    } else {
        (t[k].1, t[k].0)
    }) by {
        assert(k == 0 || k == 1 || k == 2 || k == 3 || k == 4 || k == 5 || k == 6 || k == 7 || k == 8 || k == 9 || k == 10);
    }
}

/// Every rewriting step of T' makes the word strictly smaller in shortlex.
pub proof fn lemma_tprime_steps_decrease_shortlex(w: Seq<char>, v: Seq<char>)
    requires
        rewrites_to(tprime_rules(), w, v),
    ensures
        shortlex_gt(w, v),
{
    let t = tprime_rules();
    let k = choose|k: int| 0 <= k < t.len() && #[trigger] rewrites_by(t[k].0, t[k].1, w, v);
    let (l, r) = t[k];
    let i = choose|i: int| occurs_at(w, l, i) && v == #[trigger] replace_at(w, l, r, i);
    lemma_tprime_rules_shortlex();
    assert(shortlex_gt(t[k].0, t[k].1));
    let p = w.take(i);
    let s = w.skip(i + l.len());
    assert(w =~= p + l + s);
    assert(v =~= p + r + s);
    lemma_shortlex_context(p, l, r, s);
}

} // verus!
