//! Recognisers of one regular language over `{a, b, c}`: a nondeterministic
//! automaton run on bit sets, a deterministic automaton, and a product of the
//! deterministic automaton with six small property automata. The three accept
//! the same words.

use vstd::prelude::*;
use crate::words::chars_of;

verus! {

/// The states of the nondeterministic automaton.
#[derive(Copy, Clone, Debug, PartialEq, Eq, Structural)]
pub enum NfaState {
    Start,
    AIn,
    AInAa,
    AInAb,
    AInBa,
    AInBb,
    AMid2,
    AMid2Ab,
    AMid2Ba,
    AEndOrBStart,
    BMid,
    BInAb,
    BInBc,
    BInCb,
    BMidBc,
}

/// The bit that stands for each state in a state set.
pub open spec fn state_index(s: NfaState) -> u32 {
    match s {
        NfaState::Start => 0,
        NfaState::AIn => 1,
        NfaState::AInAa => 2,
        NfaState::AInAb => 3,
        NfaState::AInBa => 4,
        NfaState::AInBb => 5,
        NfaState::AMid2 => 6,
        NfaState::AMid2Ab => 7,
        NfaState::AMid2Ba => 8,
        NfaState::AEndOrBStart => 9,
        NfaState::BMid => 10,
        NfaState::BInAb => 11,
        NfaState::BInBc => 12,
        NfaState::BInCb => 13,
        NfaState::BMidBc => 14,
    }
}

pub open spec fn state_bit(s: NfaState) -> u32 {
    1u32 << state_index(s)
}

/// State `s` belongs to the bit set `states`.
pub open spec fn has_state(states: u32, s: NfaState) -> bool {
    states & state_bit(s) != 0
}

/// A set of NFA states, one flag per state.
pub struct NfaSet {
    pub start: bool,
    pub a_in: bool,
    pub a_in_aa: bool,
    pub a_in_ab: bool,
    pub a_in_ba: bool,
    pub a_in_bb: bool,
    pub a_mid2: bool,
    pub a_mid2_ab: bool,
    pub a_mid2_ba: bool,
    pub a_end_or_b_start: bool,
    pub b_mid: bool,
    pub b_in_ab: bool,
    pub b_in_bc: bool,
    pub b_in_cb: bool,
    pub b_mid_bc: bool,
}

impl NfaSet {
    pub open spec fn contains(self, s: NfaState) -> bool {
        match s {
            NfaState::Start => self.start,
            NfaState::AIn => self.a_in,
            NfaState::AInAa => self.a_in_aa,
            NfaState::AInAb => self.a_in_ab,
            NfaState::AInBa => self.a_in_ba,
            NfaState::AInBb => self.a_in_bb,
            NfaState::AMid2 => self.a_mid2,
            NfaState::AMid2Ab => self.a_mid2_ab,
            NfaState::AMid2Ba => self.a_mid2_ba,
            NfaState::AEndOrBStart => self.a_end_or_b_start,
            NfaState::BMid => self.b_mid,
            NfaState::BInAb => self.b_in_ab,
            NfaState::BInBc => self.b_in_bc,
            NfaState::BInCb => self.b_in_cb,
            NfaState::BMidBc => self.b_mid_bc,
        }
    }

    pub open spec fn insert(self, s: NfaState) -> NfaSet {
        NfaSet {
            start: self.start || s == NfaState::Start,
            a_in: self.a_in || s == NfaState::AIn,
            a_in_aa: self.a_in_aa || s == NfaState::AInAa,
            a_in_ab: self.a_in_ab || s == NfaState::AInAb,
            a_in_ba: self.a_in_ba || s == NfaState::AInBa,
            a_in_bb: self.a_in_bb || s == NfaState::AInBb,
            a_mid2: self.a_mid2 || s == NfaState::AMid2,
            a_mid2_ab: self.a_mid2_ab || s == NfaState::AMid2Ab,
            a_mid2_ba: self.a_mid2_ba || s == NfaState::AMid2Ba,
            a_end_or_b_start: self.a_end_or_b_start || s == NfaState::AEndOrBStart,
            b_mid: self.b_mid || s == NfaState::BMid,
            b_in_ab: self.b_in_ab || s == NfaState::BInAb,
            b_in_bc: self.b_in_bc || s == NfaState::BInBc,
            b_in_cb: self.b_in_cb || s == NfaState::BInCb,
            b_mid_bc: self.b_mid_bc || s == NfaState::BMidBc,
        }
    }
}

pub open spec fn empty_set() -> NfaSet {
    NfaSet { start: false, a_in: false, a_in_aa: false, a_in_ab: false, a_in_ba: false, a_in_bb: false, a_mid2: false, a_mid2_ab: false, a_mid2_ba: false, a_end_or_b_start: false, b_mid: false, b_in_ab: false, b_in_bc: false, b_in_cb: false, b_mid_bc: false }
}

/// The set of states that a bit set stands for.
pub open spec fn nfa_view(states: u32) -> NfaSet {
    NfaSet {
        start: has_state(states, NfaState::Start),
        a_in: has_state(states, NfaState::AIn),
        a_in_aa: has_state(states, NfaState::AInAa),
        a_in_ab: has_state(states, NfaState::AInAb),
        a_in_ba: has_state(states, NfaState::AInBa),
        a_in_bb: has_state(states, NfaState::AInBb),
        a_mid2: has_state(states, NfaState::AMid2),
        a_mid2_ab: has_state(states, NfaState::AMid2Ab),
        a_mid2_ba: has_state(states, NfaState::AMid2Ba),
        a_end_or_b_start: has_state(states, NfaState::AEndOrBStart),
        b_mid: has_state(states, NfaState::BMid),
        b_in_ab: has_state(states, NfaState::BInAb),
        b_in_bc: has_state(states, NfaState::BInBc),
        b_in_cb: has_state(states, NfaState::BInCb),
        b_mid_bc: has_state(states, NfaState::BMidBc),
    }
}

/// The NFA's transition relation: the states reached from the set `s` on the
/// character `c`, listed by target state with the states and characters that lead there.
pub open spec fn nfa_next(s: NfaSet, c: char) -> NfaSet {
    NfaSet {
        start: (s.a_mid2_ab && c == 'b') || (s.a_mid2_ba && c == 'a'),
        a_in: (s.a_in_aa && c == 'a') || (s.a_in_bb && c == 'b'),
        a_in_aa: (s.a_in && c == 'a'),
        a_in_ab: (s.a_in && c == 'a') || (s.a_mid2 && c == 'b'),
        a_in_ba: (s.a_in && c == 'b') || (s.a_mid2 && c == 'a'),
        a_in_bb: (s.a_in && c == 'b'),
        a_mid2: (s.a_in_ab && c == 'b') || (s.a_in_ba && c == 'a'),
        a_mid2_ab: (s.a_mid2 && c == 'a'),
        a_mid2_ba: (s.a_mid2 && c == 'b'),
        a_end_or_b_start: (s.b_in_ab && c == 'b') || (s.b_mid_bc && c == 'c'),
        b_mid: (s.b_in_bc && c == 'c') || (s.b_in_cb && c == 'b'),
        b_in_ab: (s.a_end_or_b_start && c == 'a') || (s.b_mid && c == 'c'),
        b_in_bc: (s.a_end_or_b_start && c == 'b'),
        b_in_cb: (s.a_end_or_b_start && c == 'c') || (s.b_mid && c == 'b'),
        b_mid_bc: (s.b_mid && c == 'b'),
    }
}


/// Adds the states reachable by an empty move: from `Start`, both `AIn` and `AEndOrBStart`.
pub open spec fn nfa_close(s: NfaSet) -> NfaSet {
    if s.start {
        NfaSet { a_in: true, a_end_or_b_start: true, ..s }
    } else {
        s
    }
}

pub open spec fn nfa_initial() -> NfaSet {
    nfa_close(empty_set().insert(NfaState::Start))
}

/// The set of states the automaton is in after reading `w`.
pub open spec fn nfa_run(w: Seq<char>) -> NfaSet
    decreases w.len(),
{
    if w.len() == 0 {
        nfa_initial()
    } else {
        nfa_close(nfa_next(nfa_run(w.drop_last()), w.last()))
    }
}

/// The NFA accepts `w`: after reading it, `AEndOrBStart` is among its states.
pub open spec fn nfa_lang(w: Seq<char>) -> bool {
    nfa_run(w).a_end_or_b_start
}

proof fn lemma_or_bit(x: u32, i: u32, j: u32)
    requires
        i < 32,
        j < 32,
    ensures
        ((x | (1u32 << i)) & (1u32 << j) != 0) == ((x & (1u32 << j) != 0) || i == j),
{
    assert(((x | (1u32 << i)) & (1u32 << j) != 0) == ((x & (1u32 << j) != 0) || i == j)) by (bit_vector)
        requires
            i < 32,
            j < 32,
    ;
}

proof fn lemma_zero_bit(j: u32)
    requires
        j < 32,
    ensures
        (0u32 & (1u32 << j)) == 0,
{
    assert((0u32 & (1u32 << j)) == 0) by (bit_vector);
}

/// The state whose bit index is `i`.
spec fn index_state(i: u32) -> NfaState {
    match i {
        0 => NfaState::Start,
        1 => NfaState::AIn,
        2 => NfaState::AInAa,
        3 => NfaState::AInAb,
        4 => NfaState::AInBa,
        5 => NfaState::AInBb,
        6 => NfaState::AMid2,
        7 => NfaState::AMid2Ab,
        8 => NfaState::AMid2Ba,
        9 => NfaState::AEndOrBStart,
        10 => NfaState::BMid,
        11 => NfaState::BInAb,
        12 => NfaState::BInBc,
        13 => NfaState::BInCb,
        14 => NfaState::BMidBc,
        _ => NfaState::Start,
    }
}

proof fn lemma_index_inverse(s: NfaState)
    ensures
        index_state(state_index(s)) == s,
        state_index(s) < 15,
{
}

proof fn lemma_has_insert(x: u32, s: NfaState, t: NfaState)
    ensures
        has_state(x | state_bit(s), t) == (has_state(x, t) || s == t),
{
    lemma_index_inverse(s);
    lemma_index_inverse(t);
    lemma_or_bit(x, state_index(s), state_index(t));
}

proof fn lemma_view_insert(x: u32, s: NfaState)
    ensures
        nfa_view(x | state_bit(s)) == nfa_view(x).insert(s),
{
    lemma_has_insert(x, s, NfaState::Start);
    lemma_has_insert(x, s, NfaState::AIn);
    lemma_has_insert(x, s, NfaState::AInAa);
    lemma_has_insert(x, s, NfaState::AInAb);
    lemma_has_insert(x, s, NfaState::AInBa);
    lemma_has_insert(x, s, NfaState::AInBb);
    lemma_has_insert(x, s, NfaState::AMid2);
    lemma_has_insert(x, s, NfaState::AMid2Ab);
    lemma_has_insert(x, s, NfaState::AMid2Ba);
    lemma_has_insert(x, s, NfaState::AEndOrBStart);
    lemma_has_insert(x, s, NfaState::BMid);
    lemma_has_insert(x, s, NfaState::BInAb);
    lemma_has_insert(x, s, NfaState::BInBc);
    lemma_has_insert(x, s, NfaState::BInCb);
    lemma_has_insert(x, s, NfaState::BMidBc);
}

proof fn lemma_view_zero()
    ensures
        nfa_view(0) == empty_set(),
{
    lemma_zero_bit(0);
    lemma_zero_bit(1);
    lemma_zero_bit(2);
    lemma_zero_bit(3);
    lemma_zero_bit(4);
    lemma_zero_bit(5);
    lemma_zero_bit(6);
    lemma_zero_bit(7);
    lemma_zero_bit(8);
    lemma_zero_bit(9);
    lemma_zero_bit(10);
    lemma_zero_bit(11);
    lemma_zero_bit(12);
    lemma_zero_bit(13);
    lemma_zero_bit(14);
}

/// The bit set that stands for the set of states `s`: the bits of its members.
pub open spec fn nfa_bits(s: NfaSet) -> u32 {
    (if s.start { state_bit(NfaState::Start) } else { 0u32 })
        | (if s.a_in { state_bit(NfaState::AIn) } else { 0u32 })
        | (if s.a_in_aa { state_bit(NfaState::AInAa) } else { 0u32 })
        | (if s.a_in_ab { state_bit(NfaState::AInAb) } else { 0u32 })
        | (if s.a_in_ba { state_bit(NfaState::AInBa) } else { 0u32 })
        | (if s.a_in_bb { state_bit(NfaState::AInBb) } else { 0u32 })
        | (if s.a_mid2 { state_bit(NfaState::AMid2) } else { 0u32 })
        | (if s.a_mid2_ab { state_bit(NfaState::AMid2Ab) } else { 0u32 })
        | (if s.a_mid2_ba { state_bit(NfaState::AMid2Ba) } else { 0u32 })
        | (if s.a_end_or_b_start { state_bit(NfaState::AEndOrBStart) } else { 0u32 })
        | (if s.b_mid { state_bit(NfaState::BMid) } else { 0u32 })
        | (if s.b_in_ab { state_bit(NfaState::BInAb) } else { 0u32 })
        | (if s.b_in_bc { state_bit(NfaState::BInBc) } else { 0u32 })
        | (if s.b_in_cb { state_bit(NfaState::BInCb) } else { 0u32 })
        | (if s.b_mid_bc { state_bit(NfaState::BMidBc) } else { 0u32 })
}

/// The bits of the fifteen states.
proof fn lemma_state_bits()
    ensures
        state_bit(NfaState::Start) == 0x1,
        state_bit(NfaState::AIn) == 0x2,
        state_bit(NfaState::AInAa) == 0x4,
        state_bit(NfaState::AInAb) == 0x8,
        state_bit(NfaState::AInBa) == 0x10,
        state_bit(NfaState::AInBb) == 0x20,
        state_bit(NfaState::AMid2) == 0x40,
        state_bit(NfaState::AMid2Ab) == 0x80,
        state_bit(NfaState::AMid2Ba) == 0x100,
        state_bit(NfaState::AEndOrBStart) == 0x200,
        state_bit(NfaState::BMid) == 0x400,
        state_bit(NfaState::BInAb) == 0x800,
        state_bit(NfaState::BInBc) == 0x1000,
        state_bit(NfaState::BInCb) == 0x2000,
        state_bit(NfaState::BMidBc) == 0x4000,
{
    assert(1u32 << 0u32 == 0x1u32 && 1u32 << 1u32 == 0x2u32 && 1u32 << 2u32 == 0x4u32 && 1u32 << 3u32 == 0x8u32
        && 1u32 << 4u32 == 0x10u32 && 1u32 << 5u32 == 0x20u32 && 1u32 << 6u32 == 0x40u32 && 1u32 << 7u32 == 0x80u32
        && 1u32 << 8u32 == 0x100u32 && 1u32 << 9u32 == 0x200u32 && 1u32 << 10u32 == 0x400u32 && 1u32 << 11u32 == 0x800u32
        && 1u32 << 12u32 == 0x1000u32 && 1u32 << 13u32 == 0x2000u32 && 1u32 << 14u32 == 0x4000u32) by (bit_vector);
}

/// A bit set that uses only the fifteen state bits is the bit set of the
/// states it stands for.
proof fn lemma_bits_of_view(x: u32)
    requires
        x < 0x8000,
    ensures
        x == nfa_bits(nfa_view(x)),
{
    lemma_state_bits();
    assert(x == (if x & 0x1 != 0 { 0x1u32 } else { 0u32 }) | (if x & 0x2 != 0 { 0x2u32 } else { 0u32 })
        | (if x & 0x4 != 0 { 0x4u32 } else { 0u32 }) | (if x & 0x8 != 0 { 0x8u32 } else { 0u32 })
        | (if x & 0x10 != 0 { 0x10u32 } else { 0u32 }) | (if x & 0x20 != 0 { 0x20u32 } else { 0u32 })
        | (if x & 0x40 != 0 { 0x40u32 } else { 0u32 }) | (if x & 0x80 != 0 { 0x80u32 } else { 0u32 })
        | (if x & 0x100 != 0 { 0x100u32 } else { 0u32 }) | (if x & 0x200 != 0 { 0x200u32 } else { 0u32 })
        | (if x & 0x400 != 0 { 0x400u32 } else { 0u32 }) | (if x & 0x800 != 0 { 0x800u32 } else { 0u32 })
        | (if x & 0x1000 != 0 { 0x1000u32 } else { 0u32 }) | (if x & 0x2000 != 0 { 0x2000u32 } else { 0u32 })
        | (if x & 0x4000 != 0 { 0x4000u32 } else { 0u32 })) by (bit_vector)
        requires
            x < 0x8000,
    ;
}

/// Adding a state bit to a bit set below `0x8000` keeps it below `0x8000`.
proof fn lemma_add_stays_small(x: u32, s: NfaState)
    requires
        x < 0x8000,
    ensures
        x | state_bit(s) < 0x8000,
{
    lemma_index_inverse(s);
    let i = state_index(s);
    assert((x | (1u32 << i)) < 0x8000) by (bit_vector)
        requires
            x < 0x8000,
            i < 15,
    ;
}

/// The bit index of a state.
fn nfa_index(s: NfaState) -> (r: u32)
    ensures
        r == state_index(s),
        r < 15,
{
    match s {
        NfaState::Start => 0,
        NfaState::AIn => 1,
        NfaState::AInAa => 2,
        NfaState::AInAb => 3,
        NfaState::AInBa => 4,
        NfaState::AInBb => 5,
        NfaState::AMid2 => 6,
        NfaState::AMid2Ab => 7,
        NfaState::AMid2Ba => 8,
        NfaState::AEndOrBStart => 9,
        NfaState::BMid => 10,
        NfaState::BInAb => 11,
        NfaState::BInBc => 12,
        NfaState::BInCb => 13,
        NfaState::BMidBc => 14,
    }
}

/// The bit that stands for `s`.
pub fn nfa_bit(s: NfaState) -> (r: u32)
    ensures
        r == state_bit(s),
{
    1u32 << nfa_index(s)
}

/// Whether `s` belongs to the bit set `states`.
pub fn nfa_has(states: u32, s: NfaState) -> (r: bool)
    ensures
        r == has_state(states, s),
        r == nfa_view(states).contains(s),
{
    states & nfa_bit(s) != 0
}

/// Adds `s` to the bit set `states`.
pub fn nfa_add(states: &mut u32, s: NfaState)
    ensures
        *final(states) == *old(states) | state_bit(s),
        nfa_view(*final(states)) == nfa_view(*old(states)).insert(s),
        *old(states) < 0x8000 ==> *final(states) < 0x8000,
{
    proof {
        lemma_view_insert(*states, s);
        if *states < 0x8000 {
            lemma_add_stays_small(*states, s);
        }
    }
    *states = *states | nfa_bit(s);
}

/// The bit set `states` with the states reachable by an empty move added:
/// where `Start` is in it, the bits of `AIn` and `AEndOrBStart`.
pub open spec fn nfa_close_bits(states: u32) -> u32 {
    if has_state(states, NfaState::Start) {
        states | state_bit(NfaState::AIn) | state_bit(NfaState::AEndOrBStart)
    } else {
        states
    }
}

/// Adds the states reachable by an empty move.
pub fn nfa_epsilon_closure(states: u32) -> (r: u32)
    ensures
        r == nfa_close_bits(states),
        nfa_view(r) == nfa_close(nfa_view(states)),
{
    let mut states = states;
    if nfa_has(states, NfaState::Start) {
        nfa_add(&mut states, NfaState::AIn);
        nfa_add(&mut states, NfaState::AEndOrBStart);
    }
    states
}

/// The set of states reached from `states` on reading `ch` (before empty
/// moves): the bit set of the successors of the states of `states`, and
/// nothing else.
#[verifier::spinoff_prover]
#[verifier::rlimit(40)]
pub fn nfa_step(states: u32, ch: char) -> (next: u32)
    ensures
        next == nfa_bits(nfa_next(nfa_view(states), ch)),
        next < 0x8000,
        nfa_view(next) == nfa_next(nfa_view(states), ch),
{
    let mut next: u32 = 0;
    proof {
        lemma_view_zero();
    }

    if nfa_has(states, NfaState::AIn) {
        match ch {
            'a' => {
                nfa_add(&mut next, NfaState::AInAa);
                nfa_add(&mut next, NfaState::AInAb);
            },
            'b' => {
                nfa_add(&mut next, NfaState::AInBb);
                nfa_add(&mut next, NfaState::AInBa);
            },
            _ => {},
        }
    }

    if nfa_has(states, NfaState::AInAa) {
        if ch == 'a' {
            nfa_add(&mut next, NfaState::AIn);
        }
    }

    if nfa_has(states, NfaState::AInBb) {
        if ch == 'b' {
            nfa_add(&mut next, NfaState::AIn);
        }
    }

    if nfa_has(states, NfaState::AInAb) {
        if ch == 'b' {
            nfa_add(&mut next, NfaState::AMid2);
        }
    }

    if nfa_has(states, NfaState::AInBa) {
        if ch == 'a' {
            nfa_add(&mut next, NfaState::AMid2);
        }
    }

    if nfa_has(states, NfaState::AMid2) {
        match ch {
            'a' => {
                nfa_add(&mut next, NfaState::AMid2Ab);
                nfa_add(&mut next, NfaState::AInBa);
            },
            'b' => {
                nfa_add(&mut next, NfaState::AInAb);
                nfa_add(&mut next, NfaState::AMid2Ba);
            },
            _ => {},
        }
    }

    if nfa_has(states, NfaState::AMid2Ab) {
        if ch == 'b' {
            nfa_add(&mut next, NfaState::Start);
        }
    }

    if nfa_has(states, NfaState::AMid2Ba) {
        if ch == 'a' {
            nfa_add(&mut next, NfaState::Start);
        }
    }

    if nfa_has(states, NfaState::AEndOrBStart) {
        match ch {
            'a' => nfa_add(&mut next, NfaState::BInAb),
            'b' => nfa_add(&mut next, NfaState::BInBc),
            'c' => nfa_add(&mut next, NfaState::BInCb),
            _ => {},
        }
    }

    if nfa_has(states, NfaState::BInAb) {
        if ch == 'b' {
            nfa_add(&mut next, NfaState::AEndOrBStart);
        }
    }

    if nfa_has(states, NfaState::BInBc) {
        if ch == 'c' {
            nfa_add(&mut next, NfaState::BMid);
        }
    }

    if nfa_has(states, NfaState::BInCb) {
        if ch == 'b' {
            nfa_add(&mut next, NfaState::BMid);
        }
    }

    if nfa_has(states, NfaState::BMid) {
        match ch {
            'b' => {
                nfa_add(&mut next, NfaState::BInCb);
                nfa_add(&mut next, NfaState::BMidBc);
            },
            'c' => {
                nfa_add(&mut next, NfaState::BInAb);
            },
            _ => {},
        }
    }

    if nfa_has(states, NfaState::BMidBc) {
        if ch == 'c' {
            nfa_add(&mut next, NfaState::AEndOrBStart);
        }
    }

    proof {
        lemma_bits_of_view(next);
    }
    next
}

/// The states in `a` or in `b`.
pub open spec fn nfa_union(a: NfaSet, b: NfaSet) -> NfaSet {
    NfaSet {
        start: a.start || b.start,
        a_in: a.a_in || b.a_in,
        a_in_aa: a.a_in_aa || b.a_in_aa,
        a_in_ab: a.a_in_ab || b.a_in_ab,
        a_in_ba: a.a_in_ba || b.a_in_ba,
        a_in_bb: a.a_in_bb || b.a_in_bb,
        a_mid2: a.a_mid2 || b.a_mid2,
        a_mid2_ab: a.a_mid2_ab || b.a_mid2_ab,
        a_mid2_ba: a.a_mid2_ba || b.a_mid2_ba,
        a_end_or_b_start: a.a_end_or_b_start || b.a_end_or_b_start,
        b_mid: a.b_mid || b.b_mid,
        b_in_ab: a.b_in_ab || b.b_in_ab,
        b_in_bc: a.b_in_bc || b.b_in_bc,
        b_in_cb: a.b_in_cb || b.b_in_cb,
        b_mid_bc: a.b_mid_bc || b.b_mid_bc,
    }
}

/// The bit set built from fifteen flags has exactly those flags as its bits
/// and nothing above them.
proof fn lemma_flags_bits(
    b0: bool, b1: bool, b2: bool, b3: bool, b4: bool, b5: bool, b6: bool, b7: bool,
    b8: bool, b9: bool, b10: bool, b11: bool, b12: bool, b13: bool, b14: bool,
) by (bit_vector)
    ensures
        ({
            let x = (if b0 { 0x1u32 } else { 0u32 }) | (if b1 { 0x2u32 } else { 0u32 }) | (if b2 { 0x4u32 } else { 0u32 })
                | (if b3 { 0x8u32 } else { 0u32 }) | (if b4 { 0x10u32 } else { 0u32 }) | (if b5 { 0x20u32 } else { 0u32 })
                | (if b6 { 0x40u32 } else { 0u32 }) | (if b7 { 0x80u32 } else { 0u32 }) | (if b8 { 0x100u32 } else { 0u32 })
                | (if b9 { 0x200u32 } else { 0u32 }) | (if b10 { 0x400u32 } else { 0u32 }) | (if b11 { 0x800u32 } else { 0u32 })
                | (if b12 { 0x1000u32 } else { 0u32 }) | (if b13 { 0x2000u32 } else { 0u32 }) | (if b14 { 0x4000u32 } else { 0u32 });
            &&& x < 0x8000
            &&& (x & 0x1 != 0) == b0 && (x & 0x2 != 0) == b1 && (x & 0x4 != 0) == b2 && (x & 0x8 != 0) == b3
            &&& (x & 0x10 != 0) == b4 && (x & 0x20 != 0) == b5 && (x & 0x40 != 0) == b6 && (x & 0x80 != 0) == b7
            &&& (x & 0x100 != 0) == b8 && (x & 0x200 != 0) == b9 && (x & 0x400 != 0) == b10 && (x & 0x800 != 0) == b11
            &&& (x & 0x1000 != 0) == b12 && (x & 0x2000 != 0) == b13 && (x & 0x4000 != 0) == b14
            &&& (x == 0) == !(b0 || b1 || b2 || b3 || b4 || b5 || b6 || b7 || b8 || b9 || b10 || b11 || b12 || b13 || b14)
        }),
{
}

/// The bit set of a set of states uses only the fifteen state bits and
/// stands for that set; it is zero exactly for the empty set.
proof fn lemma_view_of_bits(s: NfaSet)
    ensures
        nfa_bits(s) < 0x8000,
        nfa_view(nfa_bits(s)) == s,
        (nfa_bits(s) == 0) == (s == empty_set()),
{
    lemma_state_bits();
    lemma_flags_bits(s.start, s.a_in, s.a_in_aa, s.a_in_ab, s.a_in_ba, s.a_in_bb, s.a_mid2, s.a_mid2_ab, s.a_mid2_ba,
        s.a_end_or_b_start, s.b_mid, s.b_in_ab, s.b_in_bc, s.b_in_cb, s.b_mid_bc);
}

proof fn lemma_bit_or_and(x: u32, y: u32, i: u32)
    requires
        i < 15,
    ensures
        ((x | y) & (1u32 << i) != 0) == ((x & (1u32 << i) != 0) || (y & (1u32 << i) != 0)),
        ((x & 0x7FFFu32) & (1u32 << i) != 0) == (x & (1u32 << i) != 0),
        (x | y < 0x8000) == (x < 0x8000 && y < 0x8000),
{
    assert(((x | y) & (1u32 << i) != 0) == ((x & (1u32 << i) != 0) || (y & (1u32 << i) != 0))
        && (((x & 0x7FFFu32) & (1u32 << i) != 0) == (x & (1u32 << i) != 0))
        && ((x | y < 0x8000) == (x < 0x8000 && y < 0x8000))) by (bit_vector)
        requires
            i < 15,
    ;
}

proof fn lemma_view_or_mask(x: u32, y: u32)
    ensures
        nfa_view(x | y) == nfa_union(nfa_view(x), nfa_view(y)),
        nfa_view(x & 0x7FFF) == nfa_view(x),
        (x | y < 0x8000) == (x < 0x8000 && y < 0x8000),
{
    lemma_bit_or_and(x, y, 0);
    lemma_bit_or_and(x, y, 1);
    lemma_bit_or_and(x, y, 2);
    lemma_bit_or_and(x, y, 3);
    lemma_bit_or_and(x, y, 4);
    lemma_bit_or_and(x, y, 5);
    lemma_bit_or_and(x, y, 6);
    lemma_bit_or_and(x, y, 7);
    lemma_bit_or_and(x, y, 8);
    lemma_bit_or_and(x, y, 9);
    lemma_bit_or_and(x, y, 10);
    lemma_bit_or_and(x, y, 11);
    lemma_bit_or_and(x, y, 12);
    lemma_bit_or_and(x, y, 13);
    lemma_bit_or_and(x, y, 14);
}

/// Laws of one step of the nondeterministic automaton on bit sets (the
/// result of `nfa_step`): the step of a union of state sets is the union of
/// their steps; the empty set steps to the empty set; bits above the fifteen
/// state bits play no part; and a letter other than `a`, `b`, `c` leads nowhere.
pub proof fn lemma_nfa_step_laws(s1: u32, s2: u32, c: char)
    ensures
        nfa_bits(nfa_next(nfa_view(s1 | s2), c)) == nfa_bits(nfa_next(nfa_view(s1), c)) | nfa_bits(nfa_next(nfa_view(s2), c)),
        nfa_bits(nfa_next(nfa_view(0), c)) == 0,
        nfa_bits(nfa_next(nfa_view(s1 & 0x7FFF), c)) == nfa_bits(nfa_next(nfa_view(s1), c)),
        c != 'a' && c != 'b' && c != 'c' ==> nfa_bits(nfa_next(nfa_view(s1), c)) == 0,
{
    lemma_step_union(s1, s2, c);
    lemma_step_empty(s1, c);
    lemma_view_or_mask(s1, s2);
}

#[verifier::spinoff_prover]
proof fn lemma_next_union(a: NfaSet, b: NfaSet, c: char)
    ensures
        nfa_next(nfa_union(a, b), c) == nfa_union(nfa_next(a, c), nfa_next(b, c)),
{
    let l = nfa_next(nfa_union(a, b), c);
    let r = nfa_union(nfa_next(a, c), nfa_next(b, c));
    assert(l.start == r.start && l.a_in == r.a_in && l.a_in_aa == r.a_in_aa && l.a_in_ab == r.a_in_ab);
    assert(l.a_in_ba == r.a_in_ba && l.a_in_bb == r.a_in_bb && l.a_mid2 == r.a_mid2 && l.a_mid2_ab == r.a_mid2_ab);
    assert(l.a_mid2_ba == r.a_mid2_ba && l.a_end_or_b_start == r.a_end_or_b_start && l.b_mid == r.b_mid);
    assert(l.b_in_ab == r.b_in_ab && l.b_in_bc == r.b_in_bc && l.b_in_cb == r.b_in_cb && l.b_mid_bc == r.b_mid_bc);
}

proof fn lemma_step_union(s1: u32, s2: u32, c: char)
    ensures
        nfa_bits(nfa_next(nfa_view(s1 | s2), c)) == nfa_bits(nfa_next(nfa_view(s1), c)) | nfa_bits(nfa_next(nfa_view(s2), c)),
{
    let n1 = nfa_next(nfa_view(s1), c);
    let n2 = nfa_next(nfa_view(s2), c);
    let b1 = nfa_bits(n1);
    let b2 = nfa_bits(n2);
    let y = b1 | b2;
    lemma_view_or_mask(s1, s2);
    lemma_next_union(nfa_view(s1), nfa_view(s2), c);
    assert(nfa_next(nfa_view(s1 | s2), c) == nfa_union(n1, n2));
    lemma_view_of_bits(n1);
    lemma_view_of_bits(n2);
    lemma_view_or_mask(b1, b2);
    assert(nfa_view(y) == nfa_union(n1, n2));
    lemma_bits_of_view(y);
}

proof fn lemma_step_empty(s1: u32, c: char)
    ensures
        nfa_bits(nfa_next(nfa_view(0), c)) == 0,
        c != 'a' && c != 'b' && c != 'c' ==> nfa_bits(nfa_next(nfa_view(s1), c)) == 0,
{
    lemma_view_zero();
    lemma_view_of_bits(nfa_next(nfa_view(0), c));
    assert(nfa_next(empty_set(), c) == empty_set());
    lemma_view_of_bits(nfa_next(nfa_view(s1), c));
    if c != 'a' && c != 'b' && c != 'c' {
        assert(nfa_next(nfa_view(s1), c) == empty_set());
    }
}

/// Closing a bit set under empty moves keeps every bit it had, and closing
/// it again changes nothing.
pub proof fn lemma_nfa_close_bits_laws(states: u32)
    ensures
        states & !nfa_close_bits(states) == 0,
        nfa_close_bits(nfa_close_bits(states)) == nfa_close_bits(states),
{
    lemma_state_bits();
    let r = nfa_close_bits(states);
    if has_state(states, NfaState::Start) {
        assert(r == states | 0x2u32 | 0x200u32);
        assert((states & 0x1u32 != 0) ==> (
            (states & !(states | 0x2u32 | 0x200u32) == 0)
            && ((states | 0x2u32 | 0x200u32) & 0x1u32 != 0)
            && ((states | 0x2u32 | 0x200u32) | 0x2u32 | 0x200u32 == states | 0x2u32 | 0x200u32))) by (bit_vector);
    } else {
        assert(states & !states == 0) by (bit_vector);
    }
}

/// Once the automaton has no state left, reading more leaves it with none.
proof fn lemma_run_stays_empty(w: Seq<char>, k: int)
    requires
        0 <= k <= w.len(),
        nfa_run(w.take(k)) == empty_set(),
    ensures
        nfa_run(w) == empty_set(),
    decreases w.len() - k,
{
    if k < w.len() {
        assert(w.take(k + 1).drop_last() =~= w.take(k));
        assert(w.take(k + 1).last() == w[k]);
        lemma_run_stays_empty(w, k + 1);
    } else {
        assert(w.take(k) =~= w);
    }
}

/// Whether the nondeterministic automaton accepts `s`.
pub fn nfa_accepts(s: &str) -> (r: bool)
    ensures
        r == nfa_lang(s@),
{
    let v = chars_of(s);
    let mut states: u32 = 0;
    proof {
        lemma_view_zero();
    }
    nfa_add(&mut states, NfaState::Start);
    states = nfa_epsilon_closure(states);
    assert(nfa_view(states) == nfa_run(v@.take(0)));

    let mut i: usize = 0;
    assert(v@.take(v@.len() as int) =~= v@);
    while i < v.len()
        invariant_except_break
            nfa_view(states) == nfa_run(v@.take(i as int)),
        invariant
            i <= v@.len(),
            v@.take(v@.len() as int) == v@,
        ensures
            nfa_view(states).a_end_or_b_start == nfa_lang(v@),
        decreases v@.len() - i,
    {
        proof {
            assert(v@.take(i + 1).drop_last() =~= v@.take(i as int));
            assert(v@.take(i + 1).last() == v@[i as int]);
        }
        states = nfa_step(states, v[i]);
        if states == 0 {
            proof {
                lemma_view_zero();
                lemma_run_stays_empty(v@, i + 1);
            }
            break;
        }
        states = nfa_epsilon_closure(states);
        i = i + 1;
    }
    nfa_has(states, NfaState::AEndOrBStart)
}

/// The states of the deterministic automaton; `Dead` rejects every continuation.
#[derive(Copy, Clone, Debug, PartialEq, Eq, Structural)]
pub enum DfaState {
    Q1,
    Q2,
    Q3,
    Q4,
    Q5,
    Q6,
    Q7,
    Q8,
    Q9,
    Q10,
    Q11,
    Q12,
    Q13,
    Q14,
    Q15,
    Q16,
    Q17,
    Dead,
}

/// The deterministic automaton's transition function.
pub open spec fn dfa_delta(state: DfaState, ch: char) -> DfaState {
    match (state, ch) {
        (DfaState::Q1, 'a') => DfaState::Q5,
        (DfaState::Q2, 'a') => DfaState::Q3,
        (DfaState::Q5, 'a') => DfaState::Q8,
        (DfaState::Q6, 'a') => DfaState::Q10,
        (DfaState::Q8, 'a') => DfaState::Q12,
        (DfaState::Q9, 'a') => DfaState::Q14,
        (DfaState::Q10, 'a') => DfaState::Q14,
        (DfaState::Q12, 'a') => DfaState::Q8,
        (DfaState::Q13, 'a') => DfaState::Q10,
        (DfaState::Q14, 'a') => DfaState::Q10,
        (DfaState::Q15, 'a') => DfaState::Q1,
        (DfaState::Q16, 'a') => DfaState::Q1,

        (DfaState::Q1, 'b') => DfaState::Q6,
        (DfaState::Q2, 'b') => DfaState::Q4,
        (DfaState::Q3, 'b') => DfaState::Q2,
        (DfaState::Q5, 'b') => DfaState::Q9,
        (DfaState::Q6, 'b') => DfaState::Q8,
        (DfaState::Q7, 'b') => DfaState::Q11,
        (DfaState::Q8, 'b') => DfaState::Q13,
        (DfaState::Q9, 'b') => DfaState::Q15,
        (DfaState::Q10, 'b') => DfaState::Q16,
        (DfaState::Q11, 'b') => DfaState::Q17,
        (DfaState::Q12, 'b') => DfaState::Q10,
        (DfaState::Q13, 'b') => DfaState::Q8,
        (DfaState::Q14, 'b') => DfaState::Q1,
        (DfaState::Q15, 'b') => DfaState::Q10,
        (DfaState::Q16, 'b') => DfaState::Q10,
        (DfaState::Q17, 'b') => DfaState::Q11,

        (DfaState::Q1, 'c') => DfaState::Q7,
        (DfaState::Q2, 'c') => DfaState::Q7,
        (DfaState::Q4, 'c') => DfaState::Q11,
        (DfaState::Q6, 'c') => DfaState::Q11,
        (DfaState::Q9, 'c') => DfaState::Q7,
        (DfaState::Q11, 'c') => DfaState::Q3,
        (DfaState::Q15, 'c') => DfaState::Q11,
        (DfaState::Q17, 'c') => DfaState::Q2,

        _ => DfaState::Dead,
    }
}

/// The state of the deterministic automaton after reading `w` from `Q1`.
pub open spec fn dfa_run(w: Seq<char>) -> DfaState
    decreases w.len(),
{
    if w.len() == 0 {
        DfaState::Q1
    } else {
        dfa_delta(dfa_run(w.drop_last()), w.last())
    }
}

pub open spec fn dfa_accepting(d: DfaState) -> bool {
    d == DfaState::Q1 || d == DfaState::Q2 || d == DfaState::Q9
}

/// The deterministic automaton accepts `w`.
pub open spec fn dfa_lang(w: Seq<char>) -> bool {
    dfa_accepting(dfa_run(w))
}

/// One step of the deterministic automaton.
pub fn dfa_step(state: DfaState, ch: char) -> (r: DfaState)
    ensures
        r == dfa_delta(state, ch),
{
    match (state, ch) {
        (DfaState::Q1, 'a') => DfaState::Q5,
        (DfaState::Q2, 'a') => DfaState::Q3,
        (DfaState::Q5, 'a') => DfaState::Q8,
        (DfaState::Q6, 'a') => DfaState::Q10,
        (DfaState::Q8, 'a') => DfaState::Q12,
        (DfaState::Q9, 'a') => DfaState::Q14,
        (DfaState::Q10, 'a') => DfaState::Q14,
        (DfaState::Q12, 'a') => DfaState::Q8,
        (DfaState::Q13, 'a') => DfaState::Q10,
        (DfaState::Q14, 'a') => DfaState::Q10,
        (DfaState::Q15, 'a') => DfaState::Q1,
        (DfaState::Q16, 'a') => DfaState::Q1,

        (DfaState::Q1, 'b') => DfaState::Q6,
        (DfaState::Q2, 'b') => DfaState::Q4,
        (DfaState::Q3, 'b') => DfaState::Q2,
        (DfaState::Q5, 'b') => DfaState::Q9,
        (DfaState::Q6, 'b') => DfaState::Q8,
        (DfaState::Q7, 'b') => DfaState::Q11,
        (DfaState::Q8, 'b') => DfaState::Q13,
        (DfaState::Q9, 'b') => DfaState::Q15,
        (DfaState::Q10, 'b') => DfaState::Q16,
        (DfaState::Q11, 'b') => DfaState::Q17,
        (DfaState::Q12, 'b') => DfaState::Q10,
        (DfaState::Q13, 'b') => DfaState::Q8,
        (DfaState::Q14, 'b') => DfaState::Q1,
        (DfaState::Q15, 'b') => DfaState::Q10,
        (DfaState::Q16, 'b') => DfaState::Q10,
        (DfaState::Q17, 'b') => DfaState::Q11,

        (DfaState::Q1, 'c') => DfaState::Q7,
        (DfaState::Q2, 'c') => DfaState::Q7,
        (DfaState::Q4, 'c') => DfaState::Q11,
        (DfaState::Q6, 'c') => DfaState::Q11,
        (DfaState::Q9, 'c') => DfaState::Q7,
        (DfaState::Q11, 'c') => DfaState::Q3,
        (DfaState::Q15, 'c') => DfaState::Q11,
        (DfaState::Q17, 'c') => DfaState::Q2,

        _ => DfaState::Dead,
    }
}

/// Whether the deterministic automaton accepts `s`.
pub fn dfa_accepts(s: &str) -> (r: bool)
    ensures
        r == dfa_lang(s@),
{
    let v = chars_of(s);
    let mut state = DfaState::Q1;
    for i in 0..v.len()
        invariant
            state == dfa_run(v@.take(i as int)),
    {
        proof {
            assert(v@.take(i + 1).drop_last() =~= v@.take(i as int));
            assert(v@.take(i + 1).last() == v@[i as int]);
        }
        state = dfa_step(state, v[i]);
    }
    assert(v@.take(v@.len() as int) =~= v@);
    matches!(state, DfaState::Q1 | DfaState::Q2 | DfaState::Q9)
}

/// The sets of NFA states that each DFA state stands for.
pub open spec fn dfa_models(d: DfaState, s: NfaSet) -> bool {
    match d {
        DfaState::Q1 => s == NfaSet { start: true, a_in: true, a_in_aa: false, a_in_ab: false, a_in_ba: false, a_in_bb: false, a_mid2: false, a_mid2_ab: false, a_mid2_ba: false, a_end_or_b_start: true, b_mid: false, b_in_ab: false, b_in_bc: false, b_in_cb: false, b_mid_bc: false },
        DfaState::Q2 => s == NfaSet { start: false, a_in: false, a_in_aa: false, a_in_ab: false, a_in_ba: false, a_in_bb: false, a_mid2: false, a_mid2_ab: false, a_mid2_ba: false, a_end_or_b_start: true, b_mid: false, b_in_ab: false, b_in_bc: false, b_in_cb: false, b_mid_bc: false },
        DfaState::Q3 => s == NfaSet { start: false, a_in: false, a_in_aa: false, a_in_ab: false, a_in_ba: false, a_in_bb: false, a_mid2: false, a_mid2_ab: false, a_mid2_ba: false, a_end_or_b_start: false, b_mid: false, b_in_ab: true, b_in_bc: false, b_in_cb: false, b_mid_bc: false },
        DfaState::Q4 => s == NfaSet { start: false, a_in: false, a_in_aa: false, a_in_ab: false, a_in_ba: false, a_in_bb: false, a_mid2: false, a_mid2_ab: false, a_mid2_ba: false, a_end_or_b_start: false, b_mid: false, b_in_ab: false, b_in_bc: true, b_in_cb: false, b_mid_bc: false },
        DfaState::Q5 => s == NfaSet { start: false, a_in: false, a_in_aa: true, a_in_ab: true, a_in_ba: false, a_in_bb: false, a_mid2: false, a_mid2_ab: false, a_mid2_ba: false, a_end_or_b_start: false, b_mid: false, b_in_ab: true, b_in_bc: false, b_in_cb: false, b_mid_bc: false },
        DfaState::Q6 => s == NfaSet { start: false, a_in: false, a_in_aa: false, a_in_ab: false, a_in_ba: true, a_in_bb: true, a_mid2: false, a_mid2_ab: false, a_mid2_ba: false, a_end_or_b_start: false, b_mid: false, b_in_ab: false, b_in_bc: true, b_in_cb: false, b_mid_bc: false },
        DfaState::Q7 => s == NfaSet { start: false, a_in: false, a_in_aa: false, a_in_ab: false, a_in_ba: false, a_in_bb: false, a_mid2: false, a_mid2_ab: false, a_mid2_ba: false, a_end_or_b_start: false, b_mid: false, b_in_ab: false, b_in_bc: false, b_in_cb: true, b_mid_bc: false },
        DfaState::Q8 => s == NfaSet { start: false, a_in: true, a_in_aa: false, a_in_ab: false, a_in_ba: false, a_in_bb: false, a_mid2: false, a_mid2_ab: false, a_mid2_ba: false, a_end_or_b_start: false, b_mid: false, b_in_ab: false, b_in_bc: false, b_in_cb: false, b_mid_bc: false },
        DfaState::Q9 => s == NfaSet { start: false, a_in: false, a_in_aa: false, a_in_ab: false, a_in_ba: false, a_in_bb: false, a_mid2: true, a_mid2_ab: false, a_mid2_ba: false, a_end_or_b_start: true, b_mid: false, b_in_ab: false, b_in_bc: false, b_in_cb: false, b_mid_bc: false },
        DfaState::Q10 => s == NfaSet { start: false, a_in: false, a_in_aa: false, a_in_ab: false, a_in_ba: false, a_in_bb: false, a_mid2: true, a_mid2_ab: false, a_mid2_ba: false, a_end_or_b_start: false, b_mid: false, b_in_ab: false, b_in_bc: false, b_in_cb: false, b_mid_bc: false },
        DfaState::Q11 => s == NfaSet { start: false, a_in: false, a_in_aa: false, a_in_ab: false, a_in_ba: false, a_in_bb: false, a_mid2: false, a_mid2_ab: false, a_mid2_ba: false, a_end_or_b_start: false, b_mid: true, b_in_ab: false, b_in_bc: false, b_in_cb: false, b_mid_bc: false },
        DfaState::Q12 => s == NfaSet { start: false, a_in: false, a_in_aa: true, a_in_ab: true, a_in_ba: false, a_in_bb: false, a_mid2: false, a_mid2_ab: false, a_mid2_ba: false, a_end_or_b_start: false, b_mid: false, b_in_ab: false, b_in_bc: false, b_in_cb: false, b_mid_bc: false },
        DfaState::Q13 => s == NfaSet { start: false, a_in: false, a_in_aa: false, a_in_ab: false, a_in_ba: true, a_in_bb: true, a_mid2: false, a_mid2_ab: false, a_mid2_ba: false, a_end_or_b_start: false, b_mid: false, b_in_ab: false, b_in_bc: false, b_in_cb: false, b_mid_bc: false },
        DfaState::Q14 => s == NfaSet { start: false, a_in: false, a_in_aa: false, a_in_ab: false, a_in_ba: true, a_in_bb: false, a_mid2: false, a_mid2_ab: true, a_mid2_ba: false, a_end_or_b_start: false, b_mid: false, b_in_ab: false, b_in_bc: false, b_in_cb: false, b_mid_bc: false } || s == NfaSet { start: false, a_in: false, a_in_aa: false, a_in_ab: false, a_in_ba: true, a_in_bb: false, a_mid2: false, a_mid2_ab: true, a_mid2_ba: false, a_end_or_b_start: false, b_mid: false, b_in_ab: true, b_in_bc: false, b_in_cb: false, b_mid_bc: false },
        DfaState::Q15 => s == NfaSet { start: false, a_in: false, a_in_aa: false, a_in_ab: true, a_in_ba: false, a_in_bb: false, a_mid2: false, a_mid2_ab: false, a_mid2_ba: true, a_end_or_b_start: false, b_mid: false, b_in_ab: false, b_in_bc: true, b_in_cb: false, b_mid_bc: false },
        DfaState::Q16 => s == NfaSet { start: false, a_in: false, a_in_aa: false, a_in_ab: true, a_in_ba: false, a_in_bb: false, a_mid2: false, a_mid2_ab: false, a_mid2_ba: true, a_end_or_b_start: false, b_mid: false, b_in_ab: false, b_in_bc: false, b_in_cb: false, b_mid_bc: false },
        DfaState::Q17 => s == NfaSet { start: false, a_in: false, a_in_aa: false, a_in_ab: false, a_in_ba: false, a_in_bb: false, a_mid2: false, a_mid2_ab: false, a_mid2_ba: false, a_end_or_b_start: false, b_mid: false, b_in_ab: false, b_in_bc: false, b_in_cb: true, b_mid_bc: true },
        DfaState::Dead => s == NfaSet { start: false, a_in: false, a_in_aa: false, a_in_ab: false, a_in_ba: false, a_in_bb: false, a_mid2: false, a_mid2_ab: false, a_mid2_ba: false, a_end_or_b_start: false, b_mid: false, b_in_ab: false, b_in_bc: false, b_in_cb: false, b_mid_bc: false },
    }
}


proof fn lemma_models_step_cases(d: DfaState, s: NfaSet, c: char)
    requires
        dfa_models(d, s),
    ensures
        dfa_models(dfa_delta(d, c), nfa_close(nfa_next(s, c))),
{
    if c == 'a' {
    } else if c == 'b' {
    } else if c == 'c' {
    } else {
    }
}

/// Each DFA step matches the NFA step on every set the DFA state stands for.
proof fn lemma_models_step(d: DfaState, s: NfaSet, c: char)
    requires
        dfa_models(d, s),
    ensures
        dfa_models(dfa_delta(d, c), nfa_close(nfa_next(s, c))),
        dfa_accepting(d) == s.a_end_or_b_start,
{
    match d {
        DfaState::Q1 => lemma_models_step_cases(DfaState::Q1, s, c),
        DfaState::Q2 => lemma_models_step_cases(DfaState::Q2, s, c),
        DfaState::Q3 => lemma_models_step_cases(DfaState::Q3, s, c),
        DfaState::Q4 => lemma_models_step_cases(DfaState::Q4, s, c),
        DfaState::Q5 => lemma_models_step_cases(DfaState::Q5, s, c),
        DfaState::Q6 => lemma_models_step_cases(DfaState::Q6, s, c),
        DfaState::Q7 => lemma_models_step_cases(DfaState::Q7, s, c),
        DfaState::Q8 => lemma_models_step_cases(DfaState::Q8, s, c),
        DfaState::Q9 => lemma_models_step_cases(DfaState::Q9, s, c),
        DfaState::Q10 => lemma_models_step_cases(DfaState::Q10, s, c),
        DfaState::Q11 => lemma_models_step_cases(DfaState::Q11, s, c),
        DfaState::Q12 => lemma_models_step_cases(DfaState::Q12, s, c),
        DfaState::Q13 => lemma_models_step_cases(DfaState::Q13, s, c),
        DfaState::Q14 => lemma_models_step_cases(DfaState::Q14, s, c),
        DfaState::Q15 => lemma_models_step_cases(DfaState::Q15, s, c),
        DfaState::Q16 => lemma_models_step_cases(DfaState::Q16, s, c),
        DfaState::Q17 => lemma_models_step_cases(DfaState::Q17, s, c),
        DfaState::Dead => lemma_models_step_cases(DfaState::Dead, s, c),
    }
}

proof fn lemma_models_run(w: Seq<char>)
    ensures
        dfa_models(dfa_run(w), nfa_run(w)),
    decreases w.len(),
{
    if w.len() > 0 {
        lemma_models_run(w.drop_last());
        lemma_models_step(dfa_run(w.drop_last()), nfa_run(w.drop_last()), w.last());
    }
}

/// The deterministic and the nondeterministic automaton accept the same words.
pub proof fn theorem_dfa_agrees_with_nfa(w: Seq<char>)
    ensures
        dfa_lang(w) == nfa_lang(w),
{
    lemma_models_run(w);
    lemma_models_step(dfa_run(w), nfa_run(w), 'a');
}

/// `u` is a sequence of pairs from `aa`, `bb`, `ab`, `ba`, with an odd
/// number of mixed pairs `ab`, `ba` when `odd`, an even number otherwise.
pub open spec fn a_pairs(u: Seq<char>, odd: bool) -> bool
    decreases u.len(),
{
    if u.len() == 0 {
        !odd
    } else if u.len() < 2 {
        false
    } else {
        let x = u[u.len() - 2];
        let y = u[u.len() - 1];
        let rest = u.drop_last().drop_last();
        if (x == 'a' || x == 'b') && (y == 'a' || y == 'b') {
            if x == y {
                a_pairs(rest, odd)
            } else {
                a_pairs(rest, !odd)
            }
        } else {
            false
        }
    }
}

/// `u` is a concatenation of blocks `(aa|bb)*(ab|ba)(aa|bb)*(ab|ba)`: a
/// sequence of pairs from `aa`, `bb`, `ab`, `ba` with an even number of
/// mixed pairs, ending with a mixed pair unless it is empty.
pub open spec fn a_blocks(u: Seq<char>) -> bool {
    u.len() == 0 || (a_pairs(u, false) && u[u.len() - 2] != u[u.len() - 1])
}

/// `v` is a concatenation of tokens `ab` and `(bc|cb)(bb)*(cb|bc)`, read as
/// pairs, followed (when `open`) by the beginning `(bc|cb)(bb)*` of one more
/// token: a pair `bc` or `cb` opens or closes a token, `bb` occurs only
/// inside a token and `ab` only outside.
pub open spec fn b_tokens(v: Seq<char>, open: bool) -> bool
    decreases v.len(),
{
    if v.len() == 0 {
        !open
    } else if v.len() < 2 {
        false
    } else {
        let x = v[v.len() - 2];
        let y = v[v.len() - 1];
        let rest = v.drop_last().drop_last();
        if x == 'a' && y == 'b' {
            !open && b_tokens(rest, false)
        } else if (x == 'b' && y == 'c') || (x == 'c' && y == 'b') {
            b_tokens(rest, !open)
        } else if x == 'b' && y == 'b' {
            open && b_tokens(rest, true)
        } else {
            false
        }
    }
}

/// `w` splits into a concatenation of A-blocks followed by B-tokens (and,
/// when `open`, the beginning of one more B-token).
pub open spec fn blocks_then_tokens(w: Seq<char>, open: bool) -> bool {
    exists|j: int| 0 <= j <= w.len() && a_blocks(#[trigger] w.take(j)) && b_tokens(w.skip(j), open)
}

/// The language of the pattern
/// `^((aa|bb)*(ab|ba)(aa|bb)*(ab|ba))*(ab|(bc|cb)(bb)*(cb|bc))*$`: the words
/// made of blocks `(aa|bb)*(ab|ba)(aa|bb)*(ab|ba)` followed by tokens `ab`
/// and `(bc|cb)(bb)*(cb|bc)`.
pub open spec fn regex_lang(w: Seq<char>) -> bool {
    blocks_then_tokens(w, false)
}

proof fn lemma_b_tokens_even(v: Seq<char>, open: bool)
    requires
        b_tokens(v, open),
    ensures
        v.len() % 2 == 0,
    decreases v.len(),
{
    if v.len() >= 2 {
        let rest = v.drop_last().drop_last();
        if b_tokens(rest, false) {
            lemma_b_tokens_even(rest, false);
        }
        if b_tokens(rest, true) {
            lemma_b_tokens_even(rest, true);
        }
    }
}

proof fn lemma_a_pairs_even(u: Seq<char>, odd: bool)
    requires
        a_pairs(u, odd),
    ensures
        u.len() % 2 == 0,
    decreases u.len(),
{
    if u.len() >= 2 {
        let rest = u.drop_last().drop_last();
        if a_pairs(rest, false) {
            lemma_a_pairs_even(rest, false);
        }
        if a_pairs(rest, true) {
            lemma_a_pairs_even(rest, true);
        }
    }
}

/// Splitting off the last pair of `w`: `w` is blocks then tokens exactly
/// when it is all blocks (with nothing open), or the part before its last
/// pair is blocks then tokens and that pair continues the tokens.
proof fn lemma_blocks_then_tokens_step(w: Seq<char>, open: bool)
    requires
        w.len() >= 2,
    ensures
        ({
            let x = w[w.len() - 2];
            let y = w[w.len() - 1];
            let rest = w.drop_last().drop_last();
            blocks_then_tokens(w, open) == (
                (!open && a_blocks(w))
                || (x == 'a' && y == 'b' && !open && blocks_then_tokens(rest, false))
                || (((x == 'b' && y == 'c') || (x == 'c' && y == 'b')) && blocks_then_tokens(rest, !open))
                || (x == 'b' && y == 'b' && open && blocks_then_tokens(rest, true)))
        }),
{
    let x = w[w.len() - 2];
    let y = w[w.len() - 1];
    let rest = w.drop_last().drop_last();
    let n = w.len() as int;
    if blocks_then_tokens(w, open) {
        let j = choose|j: int| 0 <= j <= w.len() && a_blocks(#[trigger] w.take(j)) && b_tokens(w.skip(j), open);
        if j == n {
            assert(w.take(j) =~= w);
        } else {
            lemma_b_tokens_even(w.skip(j), open);
            assert(j <= n - 2);
            let v = w.skip(j);
            assert(v.drop_last().drop_last() =~= rest.skip(j));
            assert(v[v.len() - 2] == x && v[v.len() - 1] == y);
            assert(rest.take(j) =~= w.take(j));
            if x == 'a' && y == 'b' {
                assert(b_tokens(rest.skip(j), false));
                assert(blocks_then_tokens(rest, false));
            } else if (x == 'b' && y == 'c') || (x == 'c' && y == 'b') {
                assert(b_tokens(rest.skip(j), !open));
                assert(blocks_then_tokens(rest, !open));
            } else if x == 'b' && y == 'b' {
                assert(b_tokens(rest.skip(j), true));
                assert(blocks_then_tokens(rest, true));
            }
        }
    }
    if !open && a_blocks(w) {
        assert(w.take(n) =~= w);
        assert(w.skip(n) =~= Seq::<char>::empty());
        assert(a_blocks(w.take(n)) && b_tokens(w.skip(n), open));
    }
    let goes_on = (x == 'a' && y == 'b' && !open && blocks_then_tokens(rest, false))
        || (((x == 'b' && y == 'c') || (x == 'c' && y == 'b')) && blocks_then_tokens(rest, !open))
        || (x == 'b' && y == 'b' && open && blocks_then_tokens(rest, true));
    if goes_on {
        let o: bool = if x == 'a' && y == 'b' { false } else if x == 'b' && y == 'b' { true } else { !open };
        assert(blocks_then_tokens(rest, o));
        let j = choose|j: int| 0 <= j <= rest.len() && a_blocks(#[trigger] rest.take(j)) && b_tokens(rest.skip(j), o);
        let v = w.skip(j);
        assert(v.drop_last().drop_last() =~= rest.skip(j));
        assert(v[v.len() - 2] == x && v[v.len() - 1] == y);
        assert(rest.take(j) =~= w.take(j));
        assert(b_tokens(v, open));
        assert(a_blocks(w.take(j)) && b_tokens(w.skip(j), open));
    }
}

/// The states the nondeterministic automaton is in after reading `w`,
/// described by what `w` is: after a word of even length, `Start` when it
/// is a concatenation of A-blocks, `AIn`/`AMid2` when it is a sequence of
/// `a`/`b` pairs with an even/odd number of mixed pairs, `AEndOrBStart`/`BMid`
/// when it is A-blocks followed by B-tokens with no token/one token open;
/// after a word of odd length, the states one letter into the next pair.
pub open spec fn nfa_states_of(w: Seq<char>) -> NfaSet {
    if w.len() % 2 == 0 {
        NfaSet {
            start: a_blocks(w),
            a_in: a_pairs(w, false),
            a_in_aa: false,
            a_in_ab: false,
            a_in_ba: false,
            a_in_bb: false,
            a_mid2: a_pairs(w, true),
            a_mid2_ab: false,
            a_mid2_ba: false,
            a_end_or_b_start: blocks_then_tokens(w, false),
            b_mid: blocks_then_tokens(w, true),
            b_in_ab: false,
            b_in_bc: false,
            b_in_cb: false,
            b_mid_bc: false,
        }
    } else {
        let y = w.drop_last();
        let c = w.last();
        NfaSet {
            start: false,
            a_in: false,
            a_in_aa: a_pairs(y, false) && c == 'a',
            a_in_ab: (a_pairs(y, false) && c == 'a') || (a_pairs(y, true) && c == 'b'),
            a_in_ba: (a_pairs(y, false) && c == 'b') || (a_pairs(y, true) && c == 'a'),
            a_in_bb: a_pairs(y, false) && c == 'b',
            a_mid2: false,
            a_mid2_ab: a_pairs(y, true) && c == 'a',
            a_mid2_ba: a_pairs(y, true) && c == 'b',
            a_end_or_b_start: false,
            b_mid: false,
            b_in_ab: (blocks_then_tokens(y, false) && c == 'a') || (blocks_then_tokens(y, true) && c == 'c'),
            b_in_bc: blocks_then_tokens(y, false) && c == 'b',
            b_in_cb: (blocks_then_tokens(y, false) && c == 'c') || (blocks_then_tokens(y, true) && c == 'b'),
            b_mid_bc: blocks_then_tokens(y, true) && c == 'b',
        }
    }
}

proof fn lemma_nfa_run_states(w: Seq<char>)
    ensures
        nfa_run(w) == nfa_states_of(w),
    decreases w.len(),
{
    if w.len() == 0 {
        let e = Seq::<char>::empty();
        assert(w =~= e);
        assert(e.take(0) =~= e && e.skip(0) =~= e);
        assert(a_blocks(e.take(0)) && b_tokens(e.skip(0), false));
        assert(blocks_then_tokens(e, false));
        if blocks_then_tokens(e, true) {
            let j = choose|j: int| 0 <= j <= e.len() && a_blocks(#[trigger] e.take(j)) && b_tokens(e.skip(j), true);
            assert(e.skip(j) =~= e);
        }
        assert(nfa_run(w) == nfa_initial());
    } else {
        let x = w.drop_last();
        let c = w.last();
        lemma_nfa_run_states(x);
        assert(nfa_run(w) == nfa_close(nfa_next(nfa_states_of(x), c)));
        if w.len() % 2 == 1 {
            assert(nfa_next(nfa_states_of(x), c).start == false);
        } else {
            let y = x.drop_last();
            let c1 = x.last();
            assert(w[w.len() - 2] == c1);
            assert(w[w.len() - 1] == c);
            assert(w.drop_last().drop_last() == y);
            lemma_blocks_then_tokens_step(w, false);
            lemma_blocks_then_tokens_step(w, true);
        }
    }
}

/// Only words of even length are blocks followed by tokens.
proof fn lemma_blocks_then_tokens_even(w: Seq<char>, open: bool)
    requires
        blocks_then_tokens(w, open),
    ensures
        w.len() % 2 == 0,
{
    let j = choose|j: int| 0 <= j <= w.len() && a_blocks(#[trigger] w.take(j)) && b_tokens(w.skip(j), open);
    lemma_b_tokens_even(w.skip(j), open);
    if w.take(j).len() > 0 {
        lemma_a_pairs_even(w.take(j), false);
    }
}

/// The nondeterministic automaton recognises exactly the language of the
/// pattern `^((aa|bb)*(ab|ba)(aa|bb)*(ab|ba))*(ab|(bc|cb)(bb)*(cb|bc))*$`.
pub proof fn theorem_nfa_recognises_regex(w: Seq<char>)
    ensures
        nfa_lang(w) == regex_lang(w),
{
    lemma_nfa_run_states(w);
    if regex_lang(w) {
        lemma_blocks_then_tokens_even(w, false);
    }
}

} // verus!
