//! Six small automata, each checking one property of the letters `a`, `b`,
//! `c` of a word (other characters are skipped), and their product with the
//! deterministic automaton.

use vstd::prelude::*;
use crate::automata::{dfa_accepting, dfa_accepts, dfa_delta, dfa_lang, dfa_run, nfa_lang, regex_lang, theorem_nfa_recognises_regex, DfaState};
use crate::invariants::count_char;
use crate::words::chars_of;

verus! {

/// `c` is one of the letters `a`, `b`, `c`.
pub open spec fn is_abc(c: char) -> bool {
    c == 'a' || c == 'b' || c == 'c'
}

/// The letters of `s` among `a`, `b`, `c`, in order.
pub open spec fn abc_only(s: Seq<char>) -> Seq<char> {
    s.filter(|c: char| is_abc(c))
}

/// The number of letters of `s` among `a`, `b`, `c`.
pub open spec fn abc_count(s: Seq<char>) -> nat {
    count_char(s, 'a') + count_char(s, 'b') + count_char(s, 'c')
}

proof fn lemma_abc_only_push(s: Seq<char>, x: char)
    ensures
        abc_only(s.push(x)) == if is_abc(x) { abc_only(s).push(x) } else { abc_only(s) },
{
    reveal_with_fuel(Seq::filter, 1);
    assert(s.push(x).drop_last() =~= s);
}

proof fn lemma_count_push(s: Seq<char>, x: char, c: char)
    ensures
        count_char(s.push(x), c) == count_char(s, c) + if x == c { 1nat } else { 0nat },
{
    assert(s.push(x).drop_last() =~= s);
}

proof fn lemma_prefix_step(s: Seq<char>, i: int)
    requires
        0 <= i < s.len(),
    ensures
        s.take(i + 1).drop_last() == s.take(i),
        s.take(i + 1).last() == s[i],
        s.take(i + 1) == s.take(i).push(s[i]),
{
    assert(s.take(i + 1).drop_last() =~= s.take(i));
    assert(s.take(i + 1) =~= s.take(i).push(s[i]));
}

// ---------------------------------------------------------------------------
// Even number of letters among a, b, c.

#[derive(Copy, Clone, Debug, PartialEq, Eq, Structural)]
pub enum ELenState {
    EEven,
    EOdd,
}

pub open spec fn elen_delta(st: ELenState, ch: char) -> ELenState {
    match st {
        ELenState::EEven => if is_abc(ch) { ELenState::EOdd } else { st },
        ELenState::EOdd => if is_abc(ch) { ELenState::EEven } else { st },
    }
}

pub open spec fn elen_run(w: Seq<char>) -> ELenState
    decreases w.len(),
{
    if w.len() == 0 { ELenState::EEven } else { elen_delta(elen_run(w.drop_last()), w.last()) }
}

/// The word has an even number of letters among `a`, `b`, `c`.
pub open spec fn even_length_prop(w: Seq<char>) -> bool {
    abc_count(w) % 2 == 0
}

proof fn lemma_elen_run(w: Seq<char>)
    ensures
        (elen_run(w) == ELenState::EEven) == even_length_prop(w),
    decreases w.len(),
{
    if w.len() > 0 {
        let p = w.drop_last();
        lemma_elen_run(p);
        assert(w == p.push(w.last()));
        lemma_count_push(p, w.last(), 'a');
        lemma_count_push(p, w.last(), 'b');
        lemma_count_push(p, w.last(), 'c');
    }
}

/// Whether `s` has an even number of letters among `a`, `b`, `c`.
pub fn dfa_even_length_accepts(s: &str) -> (r: bool)
    ensures
        r == even_length_prop(s@),
{
    let v = chars_of(s);
    let mut st = ELenState::EEven;
    for i in 0..v.len()
        invariant
            st == elen_run(v@.take(i as int)),
    {
        proof {
            lemma_prefix_step(v@, i as int);
        }
        let ch = v[i];
        match st {
            ELenState::EEven => match ch {
                'a' | 'b' | 'c' => st = ELenState::EOdd,
                _ => {},
            },
            ELenState::EOdd => match ch {
                'a' | 'b' | 'c' => st = ELenState::EEven,
                _ => {},
            },
        }
    }
    proof {
        assert(v@.take(v@.len() as int) =~= v@);
        lemma_elen_run(v@);
    }
    matches!(st, ELenState::EEven)
}

// ---------------------------------------------------------------------------
// Even number of letters c.

#[derive(Copy, Clone, Debug, PartialEq, Eq, Structural)]
pub enum CCountState {
    CEven,
    COdd,
}

pub open spec fn ccount_delta(st: CCountState, ch: char) -> CCountState {
    match (st, ch) {
        (CCountState::CEven, 'c') => CCountState::COdd,
        (CCountState::COdd, 'c') => CCountState::CEven,
        (other, _) => other,
    }
}

pub open spec fn ccount_run(w: Seq<char>) -> CCountState
    decreases w.len(),
{
    if w.len() == 0 { CCountState::CEven } else { ccount_delta(ccount_run(w.drop_last()), w.last()) }
}

/// The word has an even number of letters `c`.
pub open spec fn even_c_prop(w: Seq<char>) -> bool {
    count_char(w, 'c') % 2 == 0
}

proof fn lemma_ccount_run(w: Seq<char>)
    ensures
        (ccount_run(w) == CCountState::CEven) == even_c_prop(w),
    decreases w.len(),
{
    if w.len() > 0 {
        let p = w.drop_last();
        lemma_ccount_run(p);
        assert(w == p.push(w.last()));
        lemma_count_push(p, w.last(), 'c');
    }
}

/// Whether `s` has an even number of letters `c`.
pub fn dfa_even_c_count_accepts(s: &str) -> (r: bool)
    ensures
        r == even_c_prop(s@),
{
    let v = chars_of(s);
    let mut st = CCountState::CEven;
    for i in 0..v.len()
        invariant
            st == ccount_run(v@.take(i as int)),
    {
        proof {
            lemma_prefix_step(v@, i as int);
        }
        let ch = v[i];
        st = match (st, ch) {
            (CCountState::CEven, 'c') => CCountState::COdd,
            (CCountState::COdd, 'c') => CCountState::CEven,
            (CCountState::CEven, 'a' | 'b') => CCountState::CEven,
            (CCountState::COdd, 'a' | 'b') => CCountState::COdd,
            (other, _) => other,
        };
    }
    proof {
        assert(v@.take(v@.len() as int) =~= v@);
        lemma_ccount_run(v@);
    }
    matches!(st, CCountState::CEven)
}

// ---------------------------------------------------------------------------
// A letter b, unless there is no letter among a, b, c at all.

#[derive(Copy, Clone, Debug, PartialEq, Eq, Structural)]
pub enum BState {
    B0,
    B1,
    B2,
}

pub open spec fn b_delta(st: BState, ch: char) -> BState {
    match (st, ch) {
        (BState::B0, 'b') => BState::B2,
        (BState::B0, 'a') => BState::B1,
        (BState::B0, 'c') => BState::B1,
        (BState::B1, 'a') => BState::B1,
        (BState::B1, 'c') => BState::B1,
        (BState::B1, 'b') => BState::B2,
        (BState::B2, 'a') => BState::B2,
        (BState::B2, 'b') => BState::B2,
        (BState::B2, 'c') => BState::B2,
        (other, _) => other,
    }
}

pub open spec fn b_run(w: Seq<char>) -> BState
    decreases w.len(),
{
    if w.len() == 0 { BState::B0 } else { b_delta(b_run(w.drop_last()), w.last()) }
}

/// The word holds a letter `b`, or no letter among `a`, `b`, `c`.
pub open spec fn has_b_prop(w: Seq<char>) -> bool {
    count_char(w, 'b') > 0 || abc_count(w) == 0
}

proof fn lemma_b_run(w: Seq<char>)
    ensures
        (b_run(w) == BState::B0) == (abc_count(w) == 0),
        (b_run(w) == BState::B2) == (count_char(w, 'b') > 0),
    decreases w.len(),
{
    if w.len() > 0 {
        let p = w.drop_last();
        lemma_b_run(p);
        assert(w == p.push(w.last()));
        lemma_count_push(p, w.last(), 'a');
        lemma_count_push(p, w.last(), 'b');
        lemma_count_push(p, w.last(), 'c');
    }
}

/// Whether `s` holds a letter `b`, or no letter among `a`, `b`, `c`.
pub fn dfa_contains_b_accepts(s: &str) -> (r: bool)
    ensures
        r == has_b_prop(s@),
{
    let v = chars_of(s);
    let mut st = BState::B0;
    for i in 0..v.len()
        invariant
            st == b_run(v@.take(i as int)),
    {
        proof {
            lemma_prefix_step(v@, i as int);
        }
        let ch = v[i];
        st = match (st, ch) {
            (BState::B0, 'b') => BState::B2,
            (BState::B0, 'a' | 'c') => BState::B1,
            (BState::B1, 'a' | 'c') => BState::B1,
            (BState::B1, 'b') => BState::B2,
            (BState::B2, 'a' | 'b' | 'c') => BState::B2,
            (other, _) => other,
        };
    }
    proof {
        assert(v@.take(v@.len() as int) =~= v@);
        lemma_b_run(v@);
    }
    matches!(st, BState::B0 | BState::B2)
}

// ---------------------------------------------------------------------------
// The letters among a, b, c do not end with "bb".

#[derive(Copy, Clone, Debug, PartialEq, Eq, Structural)]
pub enum BBState {
    BB0,
    BB1,
    BB2,
}

pub open spec fn bb_delta(st: BBState, ch: char) -> BBState {
    match (st, ch) {
        (BBState::BB0, 'b') => BBState::BB1,
        (BBState::BB0, 'a') => BBState::BB0,
        (BBState::BB0, 'c') => BBState::BB0,
        (BBState::BB1, 'b') => BBState::BB2,
        (BBState::BB1, 'a') => BBState::BB0,
        (BBState::BB1, 'c') => BBState::BB0,
        (BBState::BB2, 'b') => BBState::BB2,
        (BBState::BB2, 'a') => BBState::BB0,
        (BBState::BB2, 'c') => BBState::BB0,
        (other, _) => other,
    }
}

pub open spec fn bb_run(w: Seq<char>) -> BBState
    decreases w.len(),
{
    if w.len() == 0 { BBState::BB0 } else { bb_delta(bb_run(w.drop_last()), w.last()) }
}

pub open spec fn ends_with_b(f: Seq<char>) -> bool {
    f.len() >= 1 && f[f.len() - 1] == 'b'
}

pub open spec fn ends_with_bb(f: Seq<char>) -> bool {
    f.len() >= 2 && f[f.len() - 1] == 'b' && f[f.len() - 2] == 'b'
}

/// The letters of the word among `a`, `b`, `c` do not end with `bb`.
pub open spec fn no_bb_suffix_prop(w: Seq<char>) -> bool {
    !ends_with_bb(abc_only(w))
}

proof fn lemma_bb_run(w: Seq<char>)
    ensures
        (bb_run(w) == BBState::BB2) == ends_with_bb(abc_only(w)),
        (bb_run(w) == BBState::BB1) == (ends_with_b(abc_only(w)) && !ends_with_bb(abc_only(w))),
    decreases w.len(),
{
    if w.len() > 0 {
        let p = w.drop_last();
        lemma_bb_run(p);
        assert(w == p.push(w.last()));
        lemma_abc_only_push(p, w.last());
    }
}

/// Whether the letters of `s` among `a`, `b`, `c` do not end with `bb`.
pub fn dfa_no_bb_suffix_accepts(s: &str) -> (r: bool)
    ensures
        r == no_bb_suffix_prop(s@),
{
    let v = chars_of(s);
    let mut st = BBState::BB0;
    for i in 0..v.len()
        invariant
            st == bb_run(v@.take(i as int)),
    {
        proof {
            lemma_prefix_step(v@, i as int);
        }
        let ch = v[i];
        st = match (st, ch) {
            (BBState::BB0, 'b') => BBState::BB1,
            (BBState::BB0, 'a' | 'c') => BBState::BB0,
            (BBState::BB1, 'b') => BBState::BB2,
            (BBState::BB1, 'a' | 'c') => BBState::BB0,
            (BBState::BB2, 'b') => BBState::BB2,
            (BBState::BB2, 'a' | 'c') => BBState::BB0,
            (other, _) => other,
        };
    }
    proof {
        assert(v@.take(v@.len() as int) =~= v@);
        lemma_bb_run(v@);
    }
    matches!(st, BBState::BB0 | BBState::BB1)
}

// ---------------------------------------------------------------------------
// The letters among a, b, c hold no "ccc".

#[derive(Copy, Clone, Debug, PartialEq, Eq, Structural)]
pub enum TState {
    T0,
    T1,
    T2,
    T3,
}

pub open spec fn t_delta(st: TState, ch: char) -> TState {
    match (st, ch) {
        (TState::T0, 'c') => TState::T1,
        (TState::T0, 'a') => TState::T0,
        (TState::T0, 'b') => TState::T0,
        (TState::T1, 'c') => TState::T2,
        (TState::T1, 'a') => TState::T0,
        (TState::T1, 'b') => TState::T0,
        (TState::T2, 'c') => TState::T3,
        (TState::T2, 'a') => TState::T0,
        (TState::T2, 'b') => TState::T0,
        (TState::T3, 'a') => TState::T3,
        (TState::T3, 'b') => TState::T3,
        (TState::T3, 'c') => TState::T3,
        (other, _) => other,
    }
}

pub open spec fn t_run(w: Seq<char>) -> TState
    decreases w.len(),
{
    if w.len() == 0 { TState::T0 } else { t_delta(t_run(w.drop_last()), w.last()) }
}

/// `ccc` starts at position `i` of `f`.
pub open spec fn ccc_at(f: Seq<char>, i: int) -> bool {
    0 <= i && i + 2 < f.len() && f[i] == 'c' && f[i + 1] == 'c' && f[i + 2] == 'c'
}

pub open spec fn has_ccc(f: Seq<char>) -> bool {
    exists|i: int| #[trigger] ccc_at(f, i)
}

pub open spec fn ends_with_c(f: Seq<char>) -> bool {
    f.len() >= 1 && f[f.len() - 1] == 'c'
}

pub open spec fn ends_with_cc(f: Seq<char>) -> bool {
    f.len() >= 2 && f[f.len() - 1] == 'c' && f[f.len() - 2] == 'c'
}

/// The letters of the word among `a`, `b`, `c` do not contain `ccc`.
pub open spec fn no_ccc_prop(w: Seq<char>) -> bool {
    !has_ccc(abc_only(w))
}

proof fn lemma_has_ccc_push(f: Seq<char>, x: char)
    ensures
        has_ccc(f.push(x)) == (has_ccc(f) || (x == 'c' && ends_with_cc(f))),
{
    let g = f.push(x);
    if has_ccc(f) {
        let i = choose|i: int| #[trigger] ccc_at(f, i);
        assert(ccc_at(g, i));
    }
    if x == 'c' && ends_with_cc(f) {
        assert(ccc_at(g, f.len() - 2));
    }
    if has_ccc(g) {
        let i = choose|i: int| #[trigger] ccc_at(g, i);
        if i + 2 < f.len() {
            assert(ccc_at(f, i));
        }
    }
}

proof fn lemma_t_run(w: Seq<char>)
    ensures
        (t_run(w) == TState::T3) == has_ccc(abc_only(w)),
        (t_run(w) == TState::T2) == (!has_ccc(abc_only(w)) && ends_with_cc(abc_only(w))),
        (t_run(w) == TState::T1) == (!has_ccc(abc_only(w)) && ends_with_c(abc_only(w)) && !ends_with_cc(abc_only(w))),
    decreases w.len(),
{
    if w.len() > 0 {
        let p = w.drop_last();
        lemma_t_run(p);
        assert(w == p.push(w.last()));
        lemma_abc_only_push(p, w.last());
        lemma_has_ccc_push(abc_only(p), w.last());
    } else {
        assert(abc_only(w).len() == 0) by {
            reveal_with_fuel(Seq::filter, 1);
        }
    }
}

/// Whether the letters of `s` among `a`, `b`, `c` contain no `ccc`.
pub fn dfa_no_ccc_accepts(s: &str) -> (r: bool)
    ensures
        r == no_ccc_prop(s@),
{
    let v = chars_of(s);
    let mut st = TState::T0;
    for i in 0..v.len()
        invariant
            st == t_run(v@.take(i as int)),
    {
        proof {
            lemma_prefix_step(v@, i as int);
        }
        let ch = v[i];
        st = match (st, ch) {
            (TState::T0, 'c') => TState::T1,
            (TState::T0, 'a' | 'b') => TState::T0,
            (TState::T1, 'c') => TState::T2,
            (TState::T1, 'a' | 'b') => TState::T0,
            (TState::T2, 'c') => TState::T3,
            (TState::T2, 'a' | 'b') => TState::T0,
            (TState::T3, 'a' | 'b' | 'c') => TState::T3,
            (other, _) => other,
        };
    }
    proof {
        assert(v@.take(v@.len() as int) =~= v@);
        lemma_t_run(v@);
    }
    matches!(st, TState::T0 | TState::T1 | TState::T2)
}

// ---------------------------------------------------------------------------
// After the first c, every a is directly followed by b (among the letters a, b, c).

#[derive(Copy, Clone, Debug, PartialEq, Eq, Structural)]
pub enum ACState {
    AC0,
    AC1,
    ACWait,
    ACDead,
}

pub open spec fn ac_delta(st: ACState, ch: char) -> ACState {
    match (st, ch) {
        (ACState::AC0, 'a') => ACState::AC0,
        (ACState::AC0, 'b') => ACState::AC0,
        (ACState::AC0, 'c') => ACState::AC1,
        (ACState::AC1, 'b') => ACState::AC1,
        (ACState::AC1, 'c') => ACState::AC1,
        (ACState::AC1, 'a') => ACState::ACWait,
        (ACState::ACWait, 'b') => ACState::AC1,
        (ACState::ACWait, 'a') => ACState::ACDead,
        (ACState::ACWait, 'c') => ACState::ACDead,
        (ACState::ACDead, 'a') => ACState::ACDead,
        (ACState::ACDead, 'b') => ACState::ACDead,
        (ACState::ACDead, 'c') => ACState::ACDead,
        (other, _) => other,
    }
}

pub open spec fn ac_run(w: Seq<char>) -> ACState
    decreases w.len(),
{
    if w.len() == 0 { ACState::AC0 } else { ac_delta(ac_run(w.drop_last()), w.last()) }
}

/// Position `j` of `f` holds a `c`.
pub open spec fn c_at(f: Seq<char>, j: int) -> bool {
    0 <= j < f.len() && f[j] == 'c'
}

/// `f` holds a `c`.
pub open spec fn seen_c(f: Seq<char>) -> bool {
    exists|j: int| #[trigger] c_at(f, j)
}

/// Position `i` of `f` holds an `a` with a `c` somewhere before it.
pub open spec fn a_after_c(f: Seq<char>, i: int) -> bool {
    0 <= i < f.len() && f[i] == 'a' && seen_c(f.take(i))
}

/// Position `i + 1` of `f` holds a `b`.
pub open spec fn followed_by_b(f: Seq<char>, i: int) -> bool {
    i + 1 < f.len() && f[i + 1] == 'b'
}

/// An `a` after a `c` that is followed by a letter other than `b`.
pub open spec fn bad_at(f: Seq<char>, i: int) -> bool {
    a_after_c(f, i) && i + 1 < f.len() && f[i + 1] != 'b'
}

pub open spec fn perm_bad(f: Seq<char>) -> bool {
    exists|i: int| #[trigger] bad_at(f, i)
}

/// Among the letters of the word among `a`, `b`, `c`, every `a` that comes
/// after some `c` is directly followed by `b`.
pub open spec fn ac_prop(w: Seq<char>) -> bool {
    let f = abc_only(w);
    forall|i: int| #[trigger] a_after_c(f, i) ==> followed_by_b(f, i)
}

proof fn lemma_seen_c_push(f: Seq<char>, x: char)
    ensures
        seen_c(f.push(x)) == (seen_c(f) || x == 'c'),
{
    let g = f.push(x);
    if seen_c(f) {
        let j = choose|j: int| #[trigger] c_at(f, j);
        assert(c_at(g, j));
    }
    if x == 'c' {
        assert(c_at(g, f.len() as int));
    }
    if seen_c(g) {
        let j = choose|j: int| #[trigger] c_at(g, j);
        if j < f.len() {
            assert(c_at(f, j));
        }
    }
}

proof fn lemma_perm_bad_push(f: Seq<char>, x: char)
    ensures
        perm_bad(f.push(x)) == (perm_bad(f) || (f.len() > 0 && a_after_c(f, f.len() - 1) && x != 'b')),
{
    let g = f.push(x);
    assert forall|i: int| 0 <= i <= f.len() implies #[trigger] g.take(i) == f.take(i) by {
        assert(g.take(i) =~= f.take(i));
    }
    if perm_bad(f) {
        let i = choose|i: int| #[trigger] bad_at(f, i);
        assert(g.take(i) == f.take(i));
        assert(bad_at(g, i));
    }
    if f.len() > 0 && a_after_c(f, f.len() - 1) && x != 'b' {
        let i = f.len() - 1;
        assert(g.take(i) == f.take(i));
        assert(bad_at(g, i));
    }
    if perm_bad(g) {
        let i = choose|i: int| #[trigger] bad_at(g, i);
        assert(g.take(i) == f.take(i));
        if i + 1 < f.len() {
            assert(bad_at(f, i));
        }
    }
}

proof fn lemma_ac_prop_of(f: Seq<char>)
    ensures
        (forall|i: int| #[trigger] a_after_c(f, i) ==> followed_by_b(f, i))
            == (!perm_bad(f) && !(f.len() > 0 && a_after_c(f, f.len() - 1))),
{
    if !perm_bad(f) && !(f.len() > 0 && a_after_c(f, f.len() - 1)) {
        assert forall|i: int| #[trigger] a_after_c(f, i) implies followed_by_b(f, i) by {
            if i + 1 < f.len() {
                if f[i + 1] != 'b' {
                    assert(bad_at(f, i));
                }
            }
        }
    }
    if perm_bad(f) {
        let i = choose|i: int| #[trigger] bad_at(f, i);
        assert(a_after_c(f, i) && !followed_by_b(f, i));
    }
    if f.len() > 0 && a_after_c(f, f.len() - 1) {
        assert(!followed_by_b(f, f.len() - 1));
    }
}

proof fn lemma_seen_c_last_a(f: Seq<char>)
    requires
        f.len() > 0,
        f[f.len() - 1] == 'a',
        seen_c(f),
    ensures
        seen_c(f.take(f.len() - 1)),
{
    let j = choose|j: int| #[trigger] c_at(f, j);
    assert(c_at(f.take(f.len() - 1), j));
}

proof fn lemma_ac_run(w: Seq<char>)
    ensures
        (ac_run(w) == ACState::AC0) == !seen_c(abc_only(w)),
        (ac_run(w) == ACState::ACDead) == perm_bad(abc_only(w)),
        (ac_run(w) == ACState::ACWait) == (seen_c(abc_only(w)) && !perm_bad(abc_only(w)) && abc_only(w).len() > 0
            && abc_only(w)[abc_only(w).len() - 1] == 'a'),
    decreases w.len(),
{
    if w.len() > 0 {
        let p = w.drop_last();
        let x = w.last();
        lemma_ac_run(p);
        assert(w == p.push(x));
        lemma_abc_only_push(p, x);
        let f = abc_only(p);
        if is_abc(x) {
            lemma_seen_c_push(f, x);
            lemma_perm_bad_push(f, x);
            let g = f.push(x);
            assert(g[g.len() - 1] == x);
            if f.len() > 0 {
                assert(f.take(f.len() - 1) == f.take(f.len() - 1));
                if f[f.len() - 1] == 'a' && seen_c(f) {
                    lemma_seen_c_last_a(f);
                    assert(a_after_c(f, f.len() - 1));
                }
                if !seen_c(f) && seen_c(f.take(f.len() - 1)) {
                    let j = choose|j: int| #[trigger] c_at(f.take(f.len() - 1), j);
                    assert(c_at(f, j));
                }
            }
        }
    } else {
        assert(abc_only(w).len() == 0) by {
            reveal_with_fuel(Seq::filter, 1);
        }
    }
}

/// Whether, among the letters of `s` among `a`, `b`, `c`, every `a` that
/// comes after some `c` is directly followed by `b`.
pub fn dfa_ac_constraint_accepts(s: &str) -> (r: bool)
    ensures
        r == ac_prop(s@),
{
    let v = chars_of(s);
    let mut st = ACState::AC0;
    for i in 0..v.len()
        invariant
            st == ac_run(v@.take(i as int)),
    {
        proof {
            lemma_prefix_step(v@, i as int);
        }
        let ch = v[i];
        st = match (st, ch) {
            (ACState::AC0, 'a' | 'b') => ACState::AC0,
            (ACState::AC0, 'c') => ACState::AC1,
            (ACState::AC1, 'b' | 'c') => ACState::AC1,
            (ACState::AC1, 'a') => ACState::ACWait,
            (ACState::ACWait, 'b') => ACState::AC1,
            (ACState::ACWait, 'a' | 'c') => ACState::ACDead,
            (ACState::ACDead, 'a' | 'b' | 'c') => ACState::ACDead,
            (other, _) => other,
        };
    }
    proof {
        assert(v@.take(v@.len() as int) =~= v@);
        lemma_ac_run(v@);
        let f = abc_only(v@);
        lemma_ac_prop_of(f);
        if f.len() > 0 && f[f.len() - 1] == 'a' && seen_c(f) {
            lemma_seen_c_last_a(f);
        }
        if f.len() > 0 && a_after_c(f, f.len() - 1) {
            let j = choose|j: int| #[trigger] c_at(f.take(f.len() - 1), j);
            assert(c_at(f, j));
        }
    }
    matches!(st, ACState::AC0 | ACState::AC1)
}

// ---------------------------------------------------------------------------
// The product automaton.

/// The product automaton accepts `w`: the deterministic automaton and each of
/// the six property automata accept it.
pub open spec fn pka_lang(w: Seq<char>) -> bool {
    &&& dfa_lang(w)
    &&& even_length_prop(w)
    &&& even_c_prop(w)
    &&& has_b_prop(w)
    &&& no_bb_suffix_prop(w)
    &&& no_ccc_prop(w)
    &&& ac_prop(w)
}

/// Whether the deterministic automaton and all six property automata accept `s`.
pub fn pka_accepts(s: &str) -> (r: bool)
    ensures
        r == pka_lang(s@),
{
    let dfa_ok = dfa_accepts(s);

    let even_len_ok = dfa_even_length_accepts(s);
    let even_c_ok = dfa_even_c_count_accepts(s);
    let contains_b_ok = dfa_contains_b_accepts(s);
    let no_bb_suffix_ok = dfa_no_bb_suffix_accepts(s);
    let no_ccc_ok = dfa_no_ccc_accepts(s);
    let ac_ok = dfa_ac_constraint_accepts(s);

    dfa_ok && even_len_ok && even_c_ok && contains_b_ok && no_bb_suffix_ok && no_ccc_ok && ac_ok
}

/// The combinations of states that the seven automata can be in together
/// after reading the same word (any combination once the deterministic
/// automaton is dead).
pub open spec fn joint_ok(d: DfaState, e: ELenState, c: CCountState, b: BState, bb: BBState, t: TState, ac: ACState) -> bool {
    match d {
        DfaState::Q1 => (e, c, b, bb, t, ac) == (ELenState::EEven, CCountState::CEven, BState::B0, BBState::BB0, TState::T0, ACState::AC0) || (e, c, b, bb, t, ac) == (ELenState::EEven, CCountState::CEven, BState::B2, BBState::BB0, TState::T0, ACState::AC0) || (e, c, b, bb, t, ac) == (ELenState::EEven, CCountState::CEven, BState::B2, BBState::BB1, TState::T0, ACState::AC0),
        DfaState::Q2 => (e, c, b, bb, t, ac) == (ELenState::EEven, CCountState::CEven, BState::B2, BBState::BB0, TState::T1, ACState::AC1) || (e, c, b, bb, t, ac) == (ELenState::EEven, CCountState::CEven, BState::B2, BBState::BB1, TState::T0, ACState::AC1),
        DfaState::Q3 => (e, c, b, bb, t, ac) == (ELenState::EOdd, CCountState::CEven, BState::B2, BBState::BB0, TState::T0, ACState::ACWait) || (e, c, b, bb, t, ac) == (ELenState::EOdd, CCountState::CEven, BState::B2, BBState::BB0, TState::T1, ACState::AC1) || (e, c, b, bb, t, ac) == (ELenState::EOdd, CCountState::CEven, BState::B2, BBState::BB0, TState::T2, ACState::AC1),
        DfaState::Q4 => (e, c, b, bb, t, ac) == (ELenState::EOdd, CCountState::CEven, BState::B2, BBState::BB1, TState::T0, ACState::AC1) || (e, c, b, bb, t, ac) == (ELenState::EOdd, CCountState::CEven, BState::B2, BBState::BB2, TState::T0, ACState::AC1),
        DfaState::Q5 => (e, c, b, bb, t, ac) == (ELenState::EOdd, CCountState::CEven, BState::B1, BBState::BB0, TState::T0, ACState::AC0) || (e, c, b, bb, t, ac) == (ELenState::EOdd, CCountState::CEven, BState::B2, BBState::BB0, TState::T0, ACState::AC0),
        DfaState::Q6 => (e, c, b, bb, t, ac) == (ELenState::EOdd, CCountState::CEven, BState::B2, BBState::BB1, TState::T0, ACState::AC0) || (e, c, b, bb, t, ac) == (ELenState::EOdd, CCountState::CEven, BState::B2, BBState::BB2, TState::T0, ACState::AC0),
        DfaState::Q7 => (e, c, b, bb, t, ac) == (ELenState::EOdd, CCountState::COdd, BState::B1, BBState::BB0, TState::T1, ACState::AC1) || (e, c, b, bb, t, ac) == (ELenState::EOdd, CCountState::COdd, BState::B2, BBState::BB0, TState::T1, ACState::AC1) || (e, c, b, bb, t, ac) == (ELenState::EOdd, CCountState::COdd, BState::B2, BBState::BB0, TState::T2, ACState::AC1),
        DfaState::Q8 => (e, c, b, bb, t, ac) == (ELenState::EEven, CCountState::CEven, BState::B1, BBState::BB0, TState::T0, ACState::AC0) || (e, c, b, bb, t, ac) == (ELenState::EEven, CCountState::CEven, BState::B2, BBState::BB0, TState::T0, ACState::AC0) || (e, c, b, bb, t, ac) == (ELenState::EEven, CCountState::CEven, BState::B2, BBState::BB2, TState::T0, ACState::AC0),
        DfaState::Q9 => (e, c, b, bb, t, ac) == (ELenState::EEven, CCountState::CEven, BState::B2, BBState::BB1, TState::T0, ACState::AC0),
        DfaState::Q10 => (e, c, b, bb, t, ac) == (ELenState::EEven, CCountState::CEven, BState::B2, BBState::BB0, TState::T0, ACState::AC0) || (e, c, b, bb, t, ac) == (ELenState::EEven, CCountState::CEven, BState::B2, BBState::BB1, TState::T0, ACState::AC0) || (e, c, b, bb, t, ac) == (ELenState::EEven, CCountState::CEven, BState::B2, BBState::BB2, TState::T0, ACState::AC0),
        DfaState::Q11 => (e, c, b, bb, t, ac) == (ELenState::EEven, CCountState::COdd, BState::B2, BBState::BB0, TState::T1, ACState::AC1) || (e, c, b, bb, t, ac) == (ELenState::EEven, CCountState::COdd, BState::B2, BBState::BB1, TState::T0, ACState::AC1) || (e, c, b, bb, t, ac) == (ELenState::EEven, CCountState::COdd, BState::B2, BBState::BB2, TState::T0, ACState::AC1),
        DfaState::Q12 => (e, c, b, bb, t, ac) == (ELenState::EOdd, CCountState::CEven, BState::B1, BBState::BB0, TState::T0, ACState::AC0) || (e, c, b, bb, t, ac) == (ELenState::EOdd, CCountState::CEven, BState::B2, BBState::BB0, TState::T0, ACState::AC0),
        DfaState::Q13 => (e, c, b, bb, t, ac) == (ELenState::EOdd, CCountState::CEven, BState::B2, BBState::BB1, TState::T0, ACState::AC0) || (e, c, b, bb, t, ac) == (ELenState::EOdd, CCountState::CEven, BState::B2, BBState::BB2, TState::T0, ACState::AC0),
        DfaState::Q14 => (e, c, b, bb, t, ac) == (ELenState::EOdd, CCountState::CEven, BState::B2, BBState::BB0, TState::T0, ACState::AC0),
        DfaState::Q15 => (e, c, b, bb, t, ac) == (ELenState::EOdd, CCountState::CEven, BState::B2, BBState::BB2, TState::T0, ACState::AC0),
        DfaState::Q16 => (e, c, b, bb, t, ac) == (ELenState::EOdd, CCountState::CEven, BState::B2, BBState::BB1, TState::T0, ACState::AC0) || (e, c, b, bb, t, ac) == (ELenState::EOdd, CCountState::CEven, BState::B2, BBState::BB2, TState::T0, ACState::AC0),
        DfaState::Q17 => (e, c, b, bb, t, ac) == (ELenState::EOdd, CCountState::COdd, BState::B2, BBState::BB1, TState::T0, ACState::AC1) || (e, c, b, bb, t, ac) == (ELenState::EOdd, CCountState::COdd, BState::B2, BBState::BB2, TState::T0, ACState::AC1),
        DfaState::Dead => true,
    }
}

proof fn lemma_joint_step_cases(d: DfaState, e: ELenState, c: CCountState, b: BState, bb: BBState, t: TState, ac: ACState, ch: char)
    requires
        joint_ok(d, e, c, b, bb, t, ac),
    ensures
        joint_ok(dfa_delta(d, ch), elen_delta(e, ch), ccount_delta(c, ch), b_delta(b, ch), bb_delta(bb, ch), t_delta(t, ch), ac_delta(ac, ch)),
{
    if ch == 'a' {
    } else if ch == 'b' {
    } else if ch == 'c' {
    } else {
    }
}

proof fn lemma_joint_step(d: DfaState, e: ELenState, c: CCountState, b: BState, bb: BBState, t: TState, ac: ACState, ch: char)
    requires
        joint_ok(d, e, c, b, bb, t, ac),
    ensures
        joint_ok(dfa_delta(d, ch), elen_delta(e, ch), ccount_delta(c, ch), b_delta(b, ch), bb_delta(bb, ch), t_delta(t, ch), ac_delta(ac, ch)),
        dfa_accepting(d) ==> e == ELenState::EEven && c == CCountState::CEven && b != BState::B1 && bb != BBState::BB2
            && t != TState::T3 && (ac == ACState::AC0 || ac == ACState::AC1),
{
    match d {
        DfaState::Q1 => lemma_joint_step_cases(DfaState::Q1, e, c, b, bb, t, ac, ch),
        DfaState::Q2 => lemma_joint_step_cases(DfaState::Q2, e, c, b, bb, t, ac, ch),
        DfaState::Q3 => lemma_joint_step_cases(DfaState::Q3, e, c, b, bb, t, ac, ch),
        DfaState::Q4 => lemma_joint_step_cases(DfaState::Q4, e, c, b, bb, t, ac, ch),
        DfaState::Q5 => lemma_joint_step_cases(DfaState::Q5, e, c, b, bb, t, ac, ch),
        DfaState::Q6 => lemma_joint_step_cases(DfaState::Q6, e, c, b, bb, t, ac, ch),
        DfaState::Q7 => lemma_joint_step_cases(DfaState::Q7, e, c, b, bb, t, ac, ch),
        DfaState::Q8 => lemma_joint_step_cases(DfaState::Q8, e, c, b, bb, t, ac, ch),
        DfaState::Q9 => lemma_joint_step_cases(DfaState::Q9, e, c, b, bb, t, ac, ch),
        DfaState::Q10 => lemma_joint_step_cases(DfaState::Q10, e, c, b, bb, t, ac, ch),
        DfaState::Q11 => lemma_joint_step_cases(DfaState::Q11, e, c, b, bb, t, ac, ch),
        DfaState::Q12 => lemma_joint_step_cases(DfaState::Q12, e, c, b, bb, t, ac, ch),
        DfaState::Q13 => lemma_joint_step_cases(DfaState::Q13, e, c, b, bb, t, ac, ch),
        DfaState::Q14 => lemma_joint_step_cases(DfaState::Q14, e, c, b, bb, t, ac, ch),
        DfaState::Q15 => lemma_joint_step_cases(DfaState::Q15, e, c, b, bb, t, ac, ch),
        DfaState::Q16 => lemma_joint_step_cases(DfaState::Q16, e, c, b, bb, t, ac, ch),
        DfaState::Q17 => lemma_joint_step_cases(DfaState::Q17, e, c, b, bb, t, ac, ch),
        DfaState::Dead => lemma_joint_step_cases(DfaState::Dead, e, c, b, bb, t, ac, ch),
    }
}

proof fn lemma_joint_run(w: Seq<char>)
    ensures
        joint_ok(dfa_run(w), elen_run(w), ccount_run(w), b_run(w), bb_run(w), t_run(w), ac_run(w)),
    decreases w.len(),
{
    if w.len() > 0 {
        let p = w.drop_last();
        lemma_joint_run(p);
        lemma_joint_step(dfa_run(p), elen_run(p), ccount_run(p), b_run(p), bb_run(p), t_run(p), ac_run(p), w.last());
    }
}

/// Every word that the deterministic automaton accepts has the six
/// properties, so the product automaton accepts exactly the words that the
/// deterministic automaton accepts.
pub proof fn theorem_pka_agrees_with_dfa(w: Seq<char>)
    ensures
        pka_lang(w) == dfa_lang(w),
{
    lemma_joint_run(w);
    lemma_joint_step(dfa_run(w), elen_run(w), ccount_run(w), b_run(w), bb_run(w), t_run(w), ac_run(w), 'a');
    lemma_elen_run(w);
    lemma_ccount_run(w);
    lemma_b_run(w);
    lemma_bb_run(w);
    lemma_t_run(w);
    lemma_ac_run(w);
    let f = abc_only(w);
    lemma_ac_prop_of(f);
    if f.len() > 0 && f[f.len() - 1] == 'a' && seen_c(f) {
        lemma_seen_c_last_a(f);
    }
    if f.len() > 0 && a_after_c(f, f.len() - 1) {
        let j = choose|j: int| #[trigger] c_at(f.take(f.len() - 1), j);
        assert(c_at(f, j));
    }
}

/// All three automata recognise exactly the language of the pattern
/// `^((aa|bb)*(ab|ba)(aa|bb)*(ab|ba))*(ab|(bc|cb)(bb)*(cb|bc))*$`: a word is
/// accepted iff it is a concatenation of blocks `(aa|bb)*(ab|ba)(aa|bb)*(ab|ba)`
/// followed by tokens `ab` and `(bc|cb)(bb)*(cb|bc)`.
pub proof fn theorem_automata_recognise_regex(w: Seq<char>)
    ensures
        nfa_lang(w) == regex_lang(w),
        dfa_lang(w) == regex_lang(w),
        pka_lang(w) == regex_lang(w),
{
    theorem_nfa_recognises_regex(w);
    crate::automata::theorem_dfa_agrees_with_nfa(w);
    theorem_pka_agrees_with_dfa(w);
}

} // verus!
