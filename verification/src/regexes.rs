//! The language given as two regular expressions (one for the `regex` crate,
//! one for `fancy-regex`), and the comparison of all five recognisers on a word.

use rand::rngs::StdRng;
use vstd::prelude::*;
use crate::automata::{dfa_accepts, dfa_lang, nfa_accepts, nfa_lang, theorem_dfa_agrees_with_nfa};
use crate::product::{pka_accepts, pka_lang, theorem_pka_agrees_with_dfa};
use crate::rng::gen_range_inclusive;
use crate::words::push_char;

verus! {

/// The language as a regular expression for the `regex` crate.
pub const REGEX_PATTERN: &'static str = r"^((aa|bb)*(ab|ba)(aa|bb)*(ab|ba))*(ab|(bc|cb)(bb)*(cb|bc))*$";

/// The same language written with look-aheads, for `fancy-regex`.
pub const EXTENDED_REGEX_PATTERN: &'static str = r"(?x)
^(
  (
    ((aa|bb)+)?
    ((?=(ab|ba))..)
    ((aa|bb)+)?
    ((?=(ab|ba))..)
  )+
)?(
  (
    ((?=ab)..)
    |
    ( ((?=(bc|cb))..) ((bb)+)? ((?=(bc|cb))..) )
  )+
)?$
";

#[verifier::external_type_specification]
#[verifier::external_body]
pub struct ExRegex(regex::Regex);

#[verifier::external_type_specification]
#[verifier::external_body]
pub struct ExFancyRegex(fancy_regex::Regex);

/// Whether the `regex` crate accepts `pattern` (`Regex::new` succeeds).
pub uninterp spec fn regex_compiles(pattern: Seq<char>) -> bool;

/// Whether the `regex` crate's compiled `pattern` matches somewhere in `text` (`Regex::is_match`).
pub uninterp spec fn regex_matches(pattern: Seq<char>, text: Seq<char>) -> bool;

/// Whether `fancy-regex` accepts `pattern` (`Regex::new` succeeds).
pub uninterp spec fn fancy_regex_compiles(pattern: Seq<char>) -> bool;

/// What `fancy-regex`'s `Regex::is_match` on the compiled `pattern` answers
/// for `text`: `Some` of the answer, or `None` where it reports an error
/// (such as its backtracking limit being exceeded).
pub uninterp spec fn fancy_regex_match(pattern: Seq<char>, text: Seq<char>) -> Option<bool>;

/// regex's `Regex::new`: compiles `pattern`, `None` where it reports an error.
/// The contract claims only that success is a function of the pattern.
#[verifier::external_body]
fn compile_regex(pattern: &str) -> (r: Option<regex::Regex>)
    ensures
        r is Some == regex_compiles(pattern@),
{
    regex::Regex::new(pattern).ok()
}

/// fancy-regex's `Regex::new`: compiles `pattern`, `None` where it reports an
/// error. The contract claims only that success is a function of the pattern.
#[verifier::external_body]
fn compile_fancy_regex(pattern: &str) -> (r: Option<fancy_regex::Regex>)
    ensures
        r is Some == fancy_regex_compiles(pattern@),
{
    fancy_regex::Regex::new(pattern).ok()
}

/// A regular expression compiled by the `regex` crate, with its source text.
pub struct RegexMatcher {
    pattern: String,
    compiled: regex::Regex,
}

impl View for RegexMatcher {
    type V = Seq<char>;

    /// The source text of the pattern.
    closed spec fn view(&self) -> Seq<char> {
        self.pattern@
    }
}

impl RegexMatcher {
    /// Compiles `pattern`; `None` where the `regex` crate rejects it.
    pub fn new(pattern: &str) -> (r: Option<RegexMatcher>)
        ensures
            r is Some == regex_compiles(pattern@),
            r matches Some(m) ==> m@ == pattern@,
    {
        broadcast use vstd::string::group_string_axioms;
        match compile_regex(pattern) {
            Some(compiled) => Some(RegexMatcher { pattern: pattern.to_string(), compiled }),
            None => None,
        }
    }
}

/// A regular expression compiled by `fancy-regex`, with its source text.
pub struct FancyMatcher {
    pattern: String,
    compiled: fancy_regex::Regex,
}

impl View for FancyMatcher {
    type V = Seq<char>;

    /// The source text of the pattern.
    closed spec fn view(&self) -> Seq<char> {
        self.pattern@
    }
}

impl FancyMatcher {
    /// Compiles `pattern`; `None` where `fancy-regex` rejects it.
    pub fn new(pattern: &str) -> (r: Option<FancyMatcher>)
        ensures
            r is Some == fancy_regex_compiles(pattern@),
            r matches Some(m) ==> m@ == pattern@,
    {
        broadcast use vstd::string::group_string_axioms;
        match compile_fancy_regex(pattern) {
            Some(compiled) => Some(FancyMatcher { pattern: pattern.to_string(), compiled }),
            None => None,
        }
    }
}

/// regex's `Regex::is_match` on the expression held by `re`. A matcher is
/// only built by `RegexMatcher::new`, from its own source text, so the answer
/// is that of the pattern `re@`.
#[verifier::external_body]
fn regex_is_match(re: &RegexMatcher, text: &str) -> (r: bool)
    ensures
        r == regex_matches(re@, text@),
{
    re.compiled.is_match(text)
}

/// fancy-regex's `Regex::is_match` on the expression held by `re`, with an
/// error turned into `None`. A matcher is only built by `FancyMatcher::new`,
/// from its own source text, so the answer is that of the pattern `re@`.
#[verifier::external_body]
fn fancy_regex_is_match(re: &FancyMatcher, text: &str) -> (r: Option<bool>)
    ensures
        r == fancy_regex_match(re@, text@),
{
    re.compiled.is_match(text).ok()
}

/// Whether the expression `re` matches `s`.
pub fn regex_accepts(re: &RegexMatcher, s: &str) -> (r: bool)
    ensures
        r == regex_matches(re@, s@),
{
    regex_is_match(re, s)
}

/// Whether the extended expression `re` matches `s`, where `fancy-regex`
/// answers without an error.
pub fn extended_regex_accepts(re: &FancyMatcher, s: &str) -> (r: bool)
    requires
        fancy_regex_match(re@, s@) is Some,
    ensures
        r == fancy_regex_match(re@, s@)->0,
{
    match fancy_regex_is_match(re, s) {
        Some(b) => b,
        None => false,
    }
}

/// Whether the extended expression `re` matches `s`; `None` where
/// `fancy-regex` reports an error.
pub fn extended_regex_checked(re: &FancyMatcher, s: &str) -> (r: Option<bool>)
    ensures
        r == fancy_regex_match(re@, s@),
{
    match fancy_regex_is_match(re, s) {
        Some(_) => Some(extended_regex_accepts(re, s)),
        None => None,
    }
}

/// Whether all values are equal (true for no values).
pub fn all_equal(values: &[bool]) -> (r: bool)
    ensures
        r == forall|i: int, j: int| 0 <= i < values@.len() && 0 <= j < values@.len() ==> values@[i] == values@[j],
{
    if values.len() == 0 {
        return true;
    }
    let first = values[0];
    for k in 1..values.len()
        invariant
            values@.len() > 0,
            first == values@[0],
            forall|i: int| 0 <= i < k ==> values@[i] == first,
    {
        if values[k] != first {
            return false;
        }
    }
    true
}

/// The answers of the five recognisers on one word.
#[derive(Copy, Clone, Debug, PartialEq, Eq)]
pub struct WordVerdicts {
    pub regex: bool,
    pub extended_regex: bool,
    pub nfa: bool,
    pub dfa: bool,
    pub pka: bool,
}

impl WordVerdicts {
    /// Whether the five answers agree.
    pub fn agree(&self) -> (r: bool)
        ensures
            r == (self.regex == self.extended_regex && self.extended_regex == self.nfa && self.nfa == self.dfa
                && self.dfa == self.pka),
    {
        let values = [self.regex, self.extended_regex, self.nfa, self.dfa, self.pka];
        let r = all_equal(&values);
        proof {
            assert(values@[0] == self.regex);
            assert(values@[1] == self.extended_regex);
            assert(values@[2] == self.nfa);
            assert(values@[3] == self.dfa);
            assert(values@[4] == self.pka);
        }
        r
    }
}

/// The five answers of `v` agree.
pub open spec fn verdicts_agree(v: WordVerdicts) -> bool {
    v.regex == v.extended_regex && v.extended_regex == v.nfa && v.nfa == v.dfa && v.dfa == v.pka
}

/// How many words the recognisers accepted and rejected so far.
#[derive(Copy, Clone, Debug, PartialEq, Eq, Structural)]
pub struct FuzzTally {
    pub positive: u64,
    pub negative: u64,
}

/// What the comparison loop does next.
#[derive(Copy, Clone, Debug, PartialEq, Eq, Structural)]
pub enum FuzzStep {
    /// The recognisers disagree: report the word and stop.
    Stop,
    /// Go on; `progress` asks for a progress report.
    Continue { progress: bool },
}

/// One round of the comparison loop, on the verdicts `v` for the word of
/// round `i` (counted from 0): where the five answers disagree, stop with
/// the tally unchanged; otherwise count the word as accepted or rejected
/// (by the first regular expression) and go on, with a progress report
/// after every 10000 rounds.
pub fn automata_fuzz_step(t: FuzzTally, i: u64, v: WordVerdicts) -> (r: (FuzzTally, FuzzStep))
    requires
        t.positive + t.negative <= i,
        i < u64::MAX,
    ensures
        !verdicts_agree(v) ==> r.0 == t && r.1 == FuzzStep::Stop,
        verdicts_agree(v) ==> r.1 == (FuzzStep::Continue { progress: (i + 1) % 10000 == 0 }),
        verdicts_agree(v) && v.regex ==> r.0 == (FuzzTally { positive: (t.positive + 1) as u64, negative: t.negative }),
        verdicts_agree(v) && !v.regex ==> r.0 == (FuzzTally { positive: t.positive, negative: (t.negative + 1) as u64 }),
{
    if !v.agree() {
        return (t, FuzzStep::Stop);
    }
    let tally = if v.regex {
        FuzzTally { positive: t.positive + 1, negative: t.negative }
    } else {
        FuzzTally { positive: t.positive, negative: t.negative + 1 }
    };
    (tally, FuzzStep::Continue { progress: (i + 1) % 10000 == 0 })
}

/// Runs the five recognisers on `word`; `None` where `fancy-regex` reports an
/// error. The three automata always agree with each other.
pub fn evaluate_word(reg: &RegexMatcher, extended: &FancyMatcher, word: &str) -> (r: Option<WordVerdicts>)
    ensures
        r is None == (fancy_regex_match(extended@, word@) is None),
        r matches Some(v) ==> {
            &&& v.regex == regex_matches(reg@, word@)
            &&& v.extended_regex == fancy_regex_match(extended@, word@)->0
            &&& v.nfa == nfa_lang(word@)
            &&& v.dfa == dfa_lang(word@)
            &&& v.pka == pka_lang(word@)
            &&& v.nfa == v.dfa && v.dfa == v.pka
        },
{
    let extended_regex = match extended_regex_checked(extended, word) {
        Some(b) => b,
        None => return None,
    };
    let regex = regex_accepts(reg, word);
    let nfa = nfa_accepts(word);
    let dfa = dfa_accepts(word);
    let pka = pka_accepts(word);
    proof {
        theorem_dfa_agrees_with_nfa(word@);
        theorem_pka_agrees_with_dfa(word@);
    }
    Some(WordVerdicts { regex, extended_regex, nfa, dfa, pka })
}

/// The letter with number `k` of the alphabet `a`, `b`, `c`.
pub open spec fn abc_letter(k: usize) -> char {
    if k == 0 {
        'a'
    } else if k == 1 {
        'b'
    } else {
        'c'
    }
}

/// The word whose letters are numbered by `picks` in the alphabet `a`, `b`, `c`.
pub open spec fn abc_letters(picks: Seq<usize>) -> Seq<char> {
    Seq::new(picks.len(), |i: int| abc_letter(picks[i]))
}

/// The word whose `i`-th letter is the letter numbered `picks[i]` in the
/// alphabet `a`, `b`, `c`.
pub fn abc_word(picks: &[usize]) -> (w: String)
    requires
        forall|i: int| 0 <= i < picks@.len() ==> #[trigger] picks@[i] < 3,
    ensures
        w@ == abc_letters(picks@),
{
    let alphabet = ['a', 'b', 'c'];
    let mut s = String::new();
    for k in 0..picks.len()
        invariant
            alphabet@ == seq!['a', 'b', 'c'],
            forall|i: int| 0 <= i < picks@.len() ==> #[trigger] picks@[i] < 3,
            s@ == abc_letters(picks@.take(k as int)),
    {
        let idx = picks[k];
        push_char(&mut s, alphabet[idx]);
        assert(abc_letters(picks@.take(k + 1)) =~= abc_letters(picks@.take(k as int)).push(abc_letter(idx)));
    }
    assert(picks@.take(picks@.len() as int) =~= picks@);
    s
}

/// A random word over `a`, `b`, `c` with at most `max_len` letters: a
/// length drawn from `0 ..= max_len`, then each letter drawn from the three.
/// Which word comes back rests on the generator; for given draws the word is
/// the one `abc_word` builds.
pub fn random_word(rng: &mut StdRng, max_len: usize) -> (w: String)
    ensures
        w@.len() <= max_len,
        forall|i: int| 0 <= i < w@.len() ==> #[trigger] w@[i] == 'a' || w@[i] == 'b' || w@[i] == 'c',
        exists|picks: Seq<usize>| picks.len() == w@.len() && (forall|i: int| 0 <= i < picks.len() ==> #[trigger] picks[i] < 3)
            && w@ == abc_letters(picks),
{
    let len = gen_range_inclusive(rng, 0, max_len);
    let mut picks: Vec<usize> = Vec::new();
    for k in 0..len
        invariant
            picks@.len() == k,
            forall|i: int| 0 <= i < picks@.len() ==> #[trigger] picks@[i] < 3,
    {
        let idx = gen_range_inclusive(rng, 0, 2);
        picks.push(idx);
    }
    let w = abc_word(picks.as_slice());
    assert(picks@.len() == w@.len());
    assert forall|i: int| 0 <= i < w@.len() implies #[trigger] w@[i] == 'a' || w@[i] == 'b' || w@[i] == 'c' by {
        assert(w@[i] == abc_letter(picks@[i]));
    }
    w
}

} // verus!
