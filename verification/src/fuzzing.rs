//! Randomised experiments on rewriting systems: random words, random
//! rewriting chains, and the two fuzzing loops over them. The random numbers
//! come from rand's `StdRng`; everything else is verified, for every value
//! the generator may return.

use rand::rngs::StdRng;
use vstd::prelude::*;
use crate::invariants::{check_chain_preserves_invariants, lemma_rewrite_keeps_invariants, rules_keep_invariants, word_invariants};
use crate::rewriting::{dedup, dedup_rules, is_neighbor, is_normal_form, neighbors_fwd, rule_seq, Rules};
use crate::search::{bfs_search, is_path, normal_forms_all, path_step, reachable, search_fits};
use crate::rng::{choose_from, gen_range_inclusive, seeded_rng};
use crate::words::{push_char, string_views};

verus! {

/// The letters of the words that the experiments generate.
pub const ALPHABET: [char; 11] = ['A', 'B', 'C', 'D', 'E', 'F', 'G', 'H', 'I', 'J', 'Q'];

/// A random word with between `min_len` and `max_len` letters, each taken from `alphabet`.
pub fn rand_word(alphabet: &[char], min_len: usize, max_len: usize, rng: &mut StdRng) -> (w: String)
    requires
        min_len <= max_len,
        alphabet@.len() > 0 || max_len == 0,
    ensures
        min_len <= w@.len() <= max_len,
        forall|i: int| 0 <= i < w@.len() ==> alphabet@.contains(#[trigger] w@[i]),
{
    let l = gen_range_inclusive(rng, min_len, max_len);
    let mut s = String::new();
    for k in 0..l
        invariant
            s@.len() == k,
            l <= max_len,
            alphabet@.len() > 0 || max_len == 0,
            forall|i: int| 0 <= i < s@.len() ==> alphabet@.contains(#[trigger] s@[i]),
    {
        let c = choose_from(alphabet, rng);
        match c {
            Some(ch) => {
                let ghost before = s@;
                push_char(&mut s, *ch);
                assert forall|i: int| 0 <= i < s@.len() implies alphabet@.contains(#[trigger] s@[i]) by {
                    if i < before.len() {
                        assert(s@[i] == before[i]);
                    }
                }
            },
            None => {
                assert(false);
            },
        }
    }
    s
}

/// A random rewriting chain from `word`: it starts with `word`, and each
/// next word is a random neighbor of the previous one. The number of steps is
/// drawn from `min_steps ..= max_steps`; the chain stops earlier only at a
/// word that no rule rewrites.
pub fn random_chain(word: &str, rules: &Rules, min_steps: usize, max_steps: usize, rng: &mut StdRng) -> (chain: Vec<String>)
    requires
        min_steps <= max_steps,
    ensures
        is_path(rule_seq(rules@), string_views(chain@)),
        string_views(chain@)[0] == word@,
        chain@.len() <= max_steps + 1,
        chain@.len() < min_steps + 1 ==> is_normal_form(rule_seq(rules@), string_views(chain@).last()),
{
    let ghost rs = rule_seq(rules@);
    let mut w = word.to_string();
    let mut chain: Vec<String> = Vec::new();
    chain.push(w.clone());
    proof {
        broadcast use vstd::string::group_string_axioms;
        assert(string_views(chain@) =~= seq![word@]);
    }
    let steps = gen_range_inclusive(rng, min_steps, max_steps);
    let mut k: usize = 0;
    while k < steps
        invariant
            rs == rule_seq(rules@),
            k <= steps,
            steps <= max_steps,
            chain@.len() == k + 1,
            is_path(rs, string_views(chain@)),
            string_views(chain@)[0] == word@,
            string_views(chain@).last() == w@,
        ensures
            chain@.len() <= steps + 1,
            is_path(rs, string_views(chain@)),
            string_views(chain@)[0] == word@,
            chain@.len() < steps + 1 ==> is_normal_form(rs, string_views(chain@).last()),
        decreases steps - k,
    {
        let neigh = neighbors_fwd(w.as_str(), rules);
        if neigh.len() == 0 {
            proof {
                assert forall|y: Seq<char>| !#[trigger] is_neighbor(rs, w@, y) by {
                    if is_neighbor(rs, w@, y) {
                        assert(string_views(neigh@).contains(y));
                    }
                }
            }
            break;
        }
        let picked = choose_from(neigh.as_slice(), rng);
        let next = match picked {
            Some(x) => {
                proof {
                    let j = choose|j: int| 0 <= j < neigh@.len() && neigh@[j] == *x;
                    assert(string_views(neigh@)[j] == x@);
                    assert(string_views(neigh@).contains(x@));
                    assert(is_neighbor(rs, w@, x@));
                }
                x.clone()
            },
            None => {
                assert(false);
                break;
            },
        };
        let ghost before = string_views(chain@);
        w = next;
        chain.push(w.clone());
        proof {
            let after = string_views(chain@);
            assert(after =~= before.push(w@));
            assert forall|i: int| 0 <= i < after.len() - 1 implies #[trigger] path_step(rs, after, i) by {
                if i < before.len() - 1 {
                    assert(path_step(rs, before, i));
                }
            }
        }
        k = k + 1;
    }
    chain
}

/// Whether the two lists of words share a word.
pub fn shares_word(a: &Vec<String>, b: &Vec<String>) -> (r: bool)
    ensures
        r == exists|x: Seq<char>| string_views(a@).contains(x) && string_views(b@).contains(x),
{
    for i in 0..a.len()
        invariant
            forall|x: Seq<char>| #[trigger] string_views(b@).contains(x) ==> !string_views(a@).take(i as int).contains(x),
    {
        for j in 0..b.len()
            invariant
                i < a@.len(),
                forall|x: Seq<char>| #[trigger] string_views(b@).contains(x) ==> !string_views(a@).take(i as int).contains(x),
                forall|k: int| 0 <= k < j ==> b@[k]@ != a@[i as int]@,
        {
            if a[i] == b[j] {
                proof {
                    assert(string_views(a@)[i as int] == a@[i as int]@);
                    assert(string_views(b@)[j as int] == b@[j as int]@);
                    assert(string_views(a@).contains(a@[i as int]@));
                    assert(string_views(b@).contains(a@[i as int]@));
                }
                return true;
            }
        }
        proof {
            assert forall|x: Seq<char>| #[trigger] string_views(b@).contains(x) implies !string_views(a@).take(i + 1).contains(x) by {
                if string_views(a@).take(i + 1).contains(x) {
                    let tk = string_views(a@).take(i + 1);
                    let k = choose|k: int| 0 <= k < tk.len() && tk[k] == x;
                    if k < i {
                        assert(string_views(a@).take(i as int)[k] == x);
                        assert(string_views(a@).take(i as int).contains(x));
                    } else {
                        let m = choose|m: int| 0 <= m < string_views(b@).len() && string_views(b@)[m] == x;
                        assert(b@[m]@ == x);
                    }
                }
            }
        }
    }
    proof {
        assert(string_views(a@).take(a@.len() as int) =~= string_views(a@));
    }
    false
}

/// Searches the normal forms of both words under `rules` (with the given
/// limits) and tells whether the two searches found a common one. A `true`
/// answer means the two words rewrite to a common normal form; where neither
/// search can hit its limits, the answer is exactly whether they do. In all
/// cases it is whether the two results of `bfs_search` share a word.
pub fn normal_forms_meet(w: &str, w_prime: &str, rules: &Rules, max_depth: usize, max_nodes: usize) -> (r: bool)
    ensures
        r ==> exists|x: Seq<char>| #[trigger] is_normal_form(rule_seq(rules@), x) && reachable(rule_seq(rules@), w@, x)
            && reachable(rule_seq(rules@), w_prime@, x),
        search_fits(rule_seq(rules@), w@, max_depth as int, max_nodes as int)
            && search_fits(rule_seq(rules@), w_prime@, max_depth as int, max_nodes as int)
            ==> (r <==> exists|x: Seq<char>| #[trigger] is_normal_form(rule_seq(rules@), x) && reachable(rule_seq(rules@), w@, x)
            && reachable(rule_seq(rules@), w_prime@, x)),
        r == exists|x: Seq<char>| #[trigger] bfs_search(rule_seq(rules@), w@, max_depth as int, max_nodes as int).0.contains(x)
            && bfs_search(rule_seq(rules@), w_prime@, max_depth as int, max_nodes as int).0.contains(x),
{
    let (a, _cut1) = normal_forms_all(w, rules, max_depth, max_nodes);
    let (b, _cut2) = normal_forms_all(w_prime, rules, max_depth, max_nodes);
    let r = shares_word(&a, &b);
    proof {
        if r {
            let x = choose|x: Seq<char>| string_views(a@).contains(x) && string_views(b@).contains(x);
            crate::search::lemma_reachable_of_within(rule_seq(rules@), w@, x, max_depth as int);
            crate::search::lemma_reachable_of_within(rule_seq(rules@), w_prime@, x, max_depth as int);
            assert(is_normal_form(rule_seq(rules@), x));
        }
        let rs = rule_seq(rules@);
        let sa = bfs_search(rs, w@, max_depth as int, max_nodes as int).0;
        let sb = bfs_search(rs, w_prime@, max_depth as int, max_nodes as int).0;
        assert(string_views(a@) == sa);
        assert(string_views(b@) == sb);
        if r {
            let x = choose|x: Seq<char>| string_views(a@).contains(x) && string_views(b@).contains(x);
            assert(sa.contains(x) && sb.contains(x));
        } else {
            assert forall|x: Seq<char>| !(#[trigger] sa.contains(x) && sb.contains(x)) by {
                if sa.contains(x) && sb.contains(x) {
                    assert(string_views(a@).contains(x) && string_views(b@).contains(x));
                }
            }
        }
        if search_fits(rs, w@, max_depth as int, max_nodes as int) && search_fits(rs, w_prime@, max_depth as int, max_nodes as int)
            && exists|x: Seq<char>| #[trigger] is_normal_form(rs, x) && reachable(rs, w@, x) && reachable(rs, w_prime@, x) {
            let x = choose|x: Seq<char>| #[trigger] is_normal_form(rs, x) && reachable(rs, w@, x) && reachable(rs, w_prime@, x);
            assert(string_views(a@).contains(x));
            assert(string_views(b@).contains(x));
        }
    }
    r
}

/// How many of the flags are set.
pub open spec fn count_true(s: Seq<bool>) -> nat
    decreases s.len(),
{
    if s.len() == 0 {
        0
    } else {
        count_true(s.drop_last()) + if s.last() { 1nat } else { 0nat }
    }
}

proof fn lemma_count_true_push(s: Seq<bool>, b: bool)
    ensures
        count_true(s.push(b)) == count_true(s) + if b { 1nat } else { 0nat },
        count_true(s) <= s.len(),
    decreases s.len(),
{
    assert(s.push(b).drop_last() =~= s);
    if s.len() > 0 {
        lemma_count_true_push(s.drop_last(), s.last());
        assert(s.drop_last().push(s.last()) =~= s);
    }
}

/// A word that `rand_word` may return: between `min_len` and `max_len`
/// letters, each from `alphabet`.
pub open spec fn drawable_word(alphabet: Seq<char>, min_len: int, max_len: int, w: Seq<char>) -> bool {
    &&& min_len <= w.len() <= max_len
    &&& forall|i: int| 0 <= i < w.len() ==> alphabet.contains(#[trigger] w[i])
}

/// A chain that `random_chain` may return from `word`: a rewriting path from
/// `word` of at most `max_steps` steps, which stops before `min_steps` steps
/// only at a normal form.
pub open spec fn drawable_chain(
    rules: Seq<(Seq<char>, Seq<char>)>,
    word: Seq<char>,
    min_steps: int,
    max_steps: int,
    c: Seq<Seq<char>>,
) -> bool {
    &&& is_path(rules, c)
    &&& c[0] == word
    &&& c.len() <= max_steps + 1
    &&& c.len() < min_steps + 1 ==> is_normal_form(rules, c.last())
}

/// The searches for normal forms of `w` and `w2` under `rules` (with the
/// given limits) find a common one: what `normal_forms_meet` answers.
pub open spec fn nf_hit(rules: Seq<(Seq<char>, Seq<char>)>, w: Seq<char>, w2: Seq<char>, md: int, mn: int) -> bool {
    exists|x: Seq<char>| #[trigger] bfs_search(rules, w, md, mn).0.contains(x) && bfs_search(rules, w2, md, mn).0.contains(x)
}

/// `hits` is the number of successes of the normal-form experiment on the
/// drawn words `ws` and the drawn T-chains `chains` (one per trial): trial
/// `i` succeeds when `ws[i]` and the end of `chains[i]` meet under T'.
pub open spec fn nf_compare_outcome(
    t: Seq<(Seq<char>, Seq<char>)>,
    tprime: Seq<(Seq<char>, Seq<char>)>,
    num_trials: int,
    gen_min_len: int,
    gen_max_len: int,
    chain_min_steps: int,
    chain_max_steps: int,
    md: int,
    mn: int,
    ws: Seq<Seq<char>>,
    chains: Seq<Seq<Seq<char>>>,
    hits: nat,
) -> bool {
    &&& ws.len() == num_trials
    &&& chains.len() == num_trials
    &&& forall|i: int| 0 <= i < num_trials ==> drawable_word(ALPHABET@, gen_min_len, gen_max_len, #[trigger] ws[i])
        && drawable_chain(t, ws[i], chain_min_steps, chain_max_steps, chains[i])
    &&& hits == count_true(Seq::new(num_trials as nat, |i: int| nf_hit(tprime, ws[i], chains[i].last(), md, mn)))
}

/// Runs `num_trials` experiments comparing normal forms under T' (`tprime`)
/// of a random word and of the end of a random T-chain (`t`) from it.
/// Repeated rules are dropped from both systems first; the generator is
/// seeded with `seed`. Returns how many experiments found a common normal
/// form and how many did not: for some words and chains that the generator
/// may draw, the first count is the number of trials in which the word and
/// the end of its chain meet.
pub fn fuzz_nf_compare(
    t: &Rules,
    tprime: &Rules,
    num_trials: usize,
    gen_min_len: usize,
    gen_max_len: usize,
    chain_min_steps: usize,
    chain_max_steps: usize,
    nf_max_depth: usize,
    nf_max_nodes: usize,
    seed: u64,
) -> (res: (usize, usize))
    requires
        gen_min_len <= gen_max_len,
        chain_min_steps <= chain_max_steps,
    ensures
        res.0 + res.1 == num_trials,
        exists|ws: Seq<Seq<char>>, chains: Seq<Seq<Seq<char>>>| #[trigger] nf_compare_outcome(dedup(rule_seq(t@)),
            dedup(rule_seq(tprime@)), num_trials as int, gen_min_len as int, gen_max_len as int, chain_min_steps as int,
            chain_max_steps as int, nf_max_depth as int, nf_max_nodes as int, ws, chains, res.0 as nat),
{
    let mut rng = seeded_rng(seed);
    let ghost t_in = t;
    let ghost tp_in = tprime;
    let t = dedup_rules(t);
    let tprime = dedup_rules(tprime);
    let alphabet = ALPHABET;
    assert(alphabet@.len() == 11);
    assert(alphabet@ == ALPHABET@);
    let ghost trs = dedup(rule_seq(t_in@));
    let ghost tprs = dedup(rule_seq(tp_in@));
    let ghost md = nf_max_depth as int;
    let ghost mn = nf_max_nodes as int;

    let mut success: usize = 0;
    let mut fail: usize = 0;
    let ghost mut ws: Seq<Seq<char>> = Seq::empty();
    let ghost mut chains: Seq<Seq<Seq<char>>> = Seq::empty();
    let ghost mut flags: Seq<bool> = Seq::empty();
    for _i in 0..num_trials
        invariant
            success + fail == _i,
            gen_min_len <= gen_max_len,
            chain_min_steps <= chain_max_steps,
            alphabet@.len() == 11,
            alphabet@ == ALPHABET@,
            trs == rule_seq(t@),
            tprs == rule_seq(tprime@),
            md == nf_max_depth as int,
            mn == nf_max_nodes as int,
            ws.len() == _i,
            chains.len() == _i,
            flags.len() == _i,
            forall|i: int| 0 <= i < _i ==> drawable_word(ALPHABET@, gen_min_len as int, gen_max_len as int, #[trigger] ws[i])
                && drawable_chain(trs, ws[i], chain_min_steps as int, chain_max_steps as int, chains[i]),
            forall|i: int| 0 <= i < _i ==> #[trigger] flags[i] == nf_hit(tprs, ws[i], chains[i].last(), md, mn),
            success == count_true(flags),
    {
        let w = rand_word(&alphabet, gen_min_len, gen_max_len, &mut rng);
        let chain = random_chain(w.as_str(), &t, chain_min_steps, chain_max_steps, &mut rng);
        let w_prime = &chain[chain.len() - 1];
        let hit = normal_forms_meet(w.as_str(), w_prime.as_str(), &tprime, nf_max_depth, nf_max_nodes);
        proof {
            let c = string_views(chain@);
            assert(c.last() == w_prime@);
            assert(drawable_word(ALPHABET@, gen_min_len as int, gen_max_len as int, w@));
            assert(drawable_chain(trs, w@, chain_min_steps as int, chain_max_steps as int, c));
            lemma_count_true_push(flags, hit);
            ws = ws.push(w@);
            chains = chains.push(c);
            flags = flags.push(hit);
            assert forall|i: int| 0 <= i < _i + 1 implies #[trigger] flags[i] == nf_hit(tprs, ws[i], chains[i].last(), md, mn) by {
                if i == _i {
                    assert(flags[i] == hit);
                }
            }
        }
        if hit {
            success = success + 1;
        } else {
            fail = fail + 1;
        }
    }
    proof {
        assert(flags =~= Seq::new(num_trials as nat, |i: int| nf_hit(tprs, ws[i], chains[i].last(), md, mn)));
        assert(nf_compare_outcome(trs, tprs, num_trials as int, gen_min_len as int, gen_max_len as int,
            chain_min_steps as int, chain_max_steps as int, md, mn, ws, chains, success as nat));
    }
    (success, fail)
}

/// Along a rewriting path under rules that keep the invariants, every word
/// has the invariants of the first word.
pub proof fn lemma_path_keeps_invariants(rules: Seq<(Seq<char>, Seq<char>)>, p: Seq<Seq<char>>, k: int)
    requires
        rules_keep_invariants(rules),
        is_path(rules, p),
        0 <= k < p.len(),
    ensures
        word_invariants(p[k]) == word_invariants(p[0]),
    decreases k,
{
    if k > 0 {
        lemma_path_keeps_invariants(rules, p, k - 1);
        assert(path_step(rules, p, k - 1));
        lemma_rewrite_keeps_invariants(rules, p[k - 1], p[k]);
    }
}

/// Every word of the chain has the invariants of its first word.
pub open spec fn chain_keeps_invariants(c: Seq<Seq<char>>) -> bool {
    forall|i: int| 0 <= i < c.len() ==> word_invariants(#[trigger] c[i]) == word_invariants(c[0])
}

/// `passed` is the number of chains, among the drawn `chains` (one per
/// trial, each from a drawn word over `alphabet`), along which the
/// invariants stay those of the first word.
pub open spec fn forward_outcome(
    rules: Seq<(Seq<char>, Seq<char>)>,
    alphabet: Seq<char>,
    trials: int,
    min_len: int,
    max_len: int,
    min_steps: int,
    max_steps: int,
    chains: Seq<Seq<Seq<char>>>,
    passed: nat,
) -> bool {
    &&& chains.len() == trials
    &&& forall|i: int| 0 <= i < trials ==> drawable_word(alphabet, min_len, max_len, (#[trigger] chains[i])[0])
        && drawable_chain(rules, chains[i][0], min_steps, max_steps, chains[i])
    &&& passed == count_true(Seq::new(trials as nat, |i: int| chain_keeps_invariants(chains[i])))
}

/// Runs `trials` experiments: a random word over `alphabet`, a random chain
/// from it under `rules`, and a check that every word of the chain has the
/// invariants of the first. Returns how many chains passed and how many did
/// not: for some words and chains that the generator may draw, the first
/// count is the number of chains along which the invariants stay. When every
/// rule keeps the invariants, no chain fails.
pub fn fuzz_test_forward(
    rules: &Rules,
    trials: usize,
    min_len: usize,
    max_len: usize,
    min_steps: usize,
    max_steps: usize,
    seed: u64,
    alphabet: &[char],
) -> (res: (usize, usize))
    requires
        min_len <= max_len,
        min_steps <= max_steps,
        alphabet@.len() > 0 || max_len == 0,
    ensures
        res.0 + res.1 == trials,
        rules_keep_invariants(rule_seq(rules@)) ==> res.1 == 0,
        exists|chains: Seq<Seq<Seq<char>>>| #[trigger] forward_outcome(rule_seq(rules@), alphabet@, trials as int,
            min_len as int, max_len as int, min_steps as int, max_steps as int, chains, res.0 as nat),
{
    let mut rng = seeded_rng(seed);
    let mut ok: usize = 0;
    let ghost rs = rule_seq(rules@);
    let ghost mut chains: Seq<Seq<Seq<char>>> = Seq::empty();
    let ghost mut flags: Seq<bool> = Seq::empty();
    for _i in 0..trials
        invariant
            ok <= _i,
            rs == rule_seq(rules@),
            rules_keep_invariants(rs) ==> ok == _i,
            min_len <= max_len,
            min_steps <= max_steps,
            alphabet@.len() > 0 || max_len == 0,
            chains.len() == _i,
            flags.len() == _i,
            forall|i: int| 0 <= i < _i ==> drawable_word(alphabet@, min_len as int, max_len as int, (#[trigger] chains[i])[0])
                && drawable_chain(rs, chains[i][0], min_steps as int, max_steps as int, chains[i]),
            forall|i: int| 0 <= i < _i ==> #[trigger] flags[i] == chain_keeps_invariants(chains[i]),
            ok == count_true(flags),
    {
        let w0 = rand_word(alphabet, min_len, max_len, &mut rng);
        let chain = random_chain(w0.as_str(), rules, min_steps, max_steps, &mut rng);
        let good = check_chain_preserves_invariants(chain.as_slice());
        proof {
            let p = string_views(chain@);
            if rules_keep_invariants(rule_seq(rules@)) {
                assert forall|i: int| 0 <= i < chain@.len() implies word_invariants(#[trigger] chain@[i]@) == word_invariants(chain@[0]@) by {
                    lemma_path_keeps_invariants(rule_seq(rules@), p, i);
                    assert(p[i] == chain@[i]@);
                    assert(p[0] == chain@[0]@);
                }
            }
            assert(good == chain_keeps_invariants(p)) by {
                if good {
                    assert forall|i: int| 0 <= i < p.len() implies word_invariants(#[trigger] p[i]) == word_invariants(p[0]) by {
                        assert(p[i] == chain@[i]@);
                        assert(word_invariants(chain@[i]@) == word_invariants(chain@[0]@));
                    }
                } else {
                    let i = choose|i: int| 0 <= i < chain@.len() && word_invariants(#[trigger] chain@[i]@) != word_invariants(chain@[0]@);
                    assert(p[i] == chain@[i]@);
                    assert(word_invariants(p[i]) != word_invariants(p[0]));
                }
            }
            assert(drawable_word(alphabet@, min_len as int, max_len as int, p[0]));
            lemma_count_true_push(flags, good);
            chains = chains.push(p);
            flags = flags.push(good);
            assert forall|i: int| 0 <= i < _i + 1 implies #[trigger] flags[i] == chain_keeps_invariants(chains[i]) by {
                if i == _i {
                    assert(flags[i] == good);
                }
            }
        }
        if good {
            ok = ok + 1;
        }
    }
    proof {
        assert(flags =~= Seq::new(trials as nat, |i: int| chain_keeps_invariants(chains[i])));
        assert(forward_outcome(rs, alphabet@, trials as int, min_len as int, max_len as int, min_steps as int,
            max_steps as int, chains, ok as nat));
    }
    (ok, trials - ok)
}

} // verus!
