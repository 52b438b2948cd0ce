//! Breadth-first search for the normal forms reachable from a word, with
//! limits on depth and on the number of explored edges.

use std::collections::VecDeque;
use vstd::prelude::*;
use vstd::hash_set::StringHashSet;
use crate::rewriting::{
    is_neighbor, is_normal_form, kb_lhs, kb_rhs, kb_rules, letters, neighbors_fwd, occurs_at, replace_at, rewrites_by, rewrites_to,
    rule_seq, t_rules, tprime_base_rules, tprime_upto, Rules,
};
use crate::words::{lemma_lex_irreflexive, lex_lt, string_views, strictly_sorted};

verus! {

broadcast use {vstd::hash_set::group_hash_set_axioms, vstd::string::group_string_axioms};

/// Step `i` of the sequence `p` is a rewrite to a different word.
pub open spec fn path_step(rules: Seq<(Seq<char>, Seq<char>)>, p: Seq<Seq<char>>, i: int) -> bool {
    is_neighbor(rules, p[i], p[i + 1])
}

/// `p` is a non-empty sequence of words, each a one-step rewrite of the previous.
pub open spec fn is_path(rules: Seq<(Seq<char>, Seq<char>)>, p: Seq<Seq<char>>) -> bool {
    &&& p.len() >= 1
    &&& forall|i: int| 0 <= i < p.len() - 1 ==> #[trigger] path_step(rules, p, i)
}

/// `b` is reachable from `a` in at most `n` rewriting steps.
pub open spec fn reachable_within(rules: Seq<(Seq<char>, Seq<char>)>, a: Seq<char>, b: Seq<char>, n: int) -> bool {
    exists|p: Seq<Seq<char>>| #[trigger] is_path(rules, p) && p[0] == a && p.last() == b && p.len() <= n + 1
}

/// `b` is reachable from `a` by rewriting steps.
pub open spec fn reachable(rules: Seq<(Seq<char>, Seq<char>)>, a: Seq<char>, b: Seq<char>) -> bool {
    exists|p: Seq<Seq<char>>| #[trigger] is_path(rules, p) && p[0] == a && p.last() == b
}

/// `b` is reachable from `a` in exactly `n` rewriting steps.
pub open spec fn reachable_in(rules: Seq<(Seq<char>, Seq<char>)>, a: Seq<char>, b: Seq<char>, n: int) -> bool {
    exists|p: Seq<Seq<char>>| #[trigger] is_path(rules, p) && p[0] == a && p.last() == b && p.len() == n + 1
}

/// No rewriting path from `start` has more than `n` steps.
pub open spec fn paths_at_most(rules: Seq<(Seq<char>, Seq<char>)>, start: Seq<char>, n: int) -> bool {
    forall|p: Seq<Seq<char>>| #[trigger] is_path(rules, p) && p[0] == start ==> p.len() <= n + 1
}

/// Fewer than `n` rewriting steps leave words reachable from `start`: some
/// finite set of fewer than `n` pairs holds every pair `(x, y)` with `x`
/// reachable from `start` and `y` a neighbor of `x`.
pub open spec fn steps_fewer_than(rules: Seq<(Seq<char>, Seq<char>)>, start: Seq<char>, n: int) -> bool {
    exists|e: Set<(Seq<char>, Seq<char>)>| e.finite() && e.len() < n
        && forall|x: Seq<char>, y: Seq<char>| reachable(rules, start, x) && #[trigger] is_neighbor(rules, x, y) ==> e.contains((x, y))
}

/// The search from `start` cannot hit its limits: no rewriting path from
/// `start` is longer than `max_depth` steps, and fewer than `max_nodes`
/// rewriting steps leave the words reachable from `start`.
pub open spec fn search_fits(rules: Seq<(Seq<char>, Seq<char>)>, start: Seq<char>, max_depth: int, max_nodes: int) -> bool {
    paths_at_most(rules, start, max_depth) && steps_fewer_than(rules, start, max_nodes)
}

proof fn lemma_reach_start(rules: Seq<(Seq<char>, Seq<char>)>, a: Seq<char>)
    ensures
        reachable_in(rules, a, a, 0),
{
    let p = seq![a];
    assert(is_path(rules, p));
}

proof fn lemma_reach_extend(rules: Seq<(Seq<char>, Seq<char>)>, a: Seq<char>, u: Seq<char>, v: Seq<char>, n: int)
    requires
        reachable_in(rules, a, u, n),
        is_neighbor(rules, u, v),
    ensures
        reachable_in(rules, a, v, n + 1),
{
    let p = choose|p: Seq<Seq<char>>| #[trigger] is_path(rules, p) && p[0] == a && p.last() == u && p.len() == n + 1;
    let q = p.push(v);
    assert forall|i: int| 0 <= i < q.len() - 1 implies #[trigger] path_step(rules, q, i) by {
        if i < p.len() - 1 {
            assert(path_step(rules, p, i));
        }
    }
    assert(is_path(rules, q));
}

proof fn lemma_reach_in_within(rules: Seq<(Seq<char>, Seq<char>)>, a: Seq<char>, b: Seq<char>, n: int)
    requires
        reachable_in(rules, a, b, n),
    ensures
        reachable_within(rules, a, b, n),
        reachable(rules, a, b),
{
    let p = choose|p: Seq<Seq<char>>| #[trigger] is_path(rules, p) && p[0] == a && p.last() == b && p.len() == n + 1;
    assert(is_path(rules, p) && p[0] == a && p.last() == b && p.len() <= n + 1);
}

/// A word that is not a normal form and is reached in `d` steps lies at a
/// depth below the bound on path lengths.
proof fn lemma_depth_below(rules: Seq<(Seq<char>, Seq<char>)>, start: Seq<char>, u: Seq<char>, v: Seq<char>, d: int, n: int)
    requires
        reachable_in(rules, start, u, d),
        is_neighbor(rules, u, v),
        paths_at_most(rules, start, n),
    ensures
        d < n,
{
    lemma_reach_extend(rules, start, u, v, d);
    let p = choose|p: Seq<Seq<char>>| #[trigger] is_path(rules, p) && p[0] == start && p.last() == v && p.len() == d + 2;
}

/// A finite set of rewriting steps out of words reachable from `start` has
/// fewer than `n` elements when fewer than `n` such steps exist.
proof fn lemma_budget(rules: Seq<(Seq<char>, Seq<char>)>, start: Seq<char>, fe: Set<(Seq<char>, Seq<char>)>, n: int)
    requires
        steps_fewer_than(rules, start, n),
        fe.finite(),
        forall|e: (Seq<char>, Seq<char>)| #[trigger] fe.contains(e) ==> reachable(rules, start, e.0) && is_neighbor(rules, e.0, e.1),
    ensures
        fe.len() < n,
{
    let all = choose|e: Set<(Seq<char>, Seq<char>)>| e.finite() && e.len() < n
        && forall|x: Seq<char>, y: Seq<char>| reachable(rules, start, x) && #[trigger] is_neighbor(rules, x, y) ==> e.contains((x, y));
    assert forall|e: (Seq<char>, Seq<char>)| fe.contains(e) implies all.contains(e) by {
        assert(is_neighbor(rules, e.0, e.1));
        assert(e == (e.0, e.1));
    }
    vstd::set_lib::lemma_len_subset(fe, all);
}

/// A word reachable within some number of steps is reachable.
pub proof fn lemma_reachable_of_within(rules: Seq<(Seq<char>, Seq<char>)>, a: Seq<char>, b: Seq<char>, n: int)
    requires
        reachable_within(rules, a, b, n),
    ensures
        reachable(rules, a, b),
{
}

proof fn lemma_reach_within_mono(rules: Seq<(Seq<char>, Seq<char>)>, a: Seq<char>, b: Seq<char>, n: int, m: int)
    requires
        reachable_within(rules, a, b, n),
        n <= m,
    ensures
        reachable_within(rules, a, b, m),
        reachable(rules, a, b),
{
}

/// A set of words that holds `a` and every neighbor of each of its words
/// holds every word reachable from `a`.
proof fn lemma_closed_holds_reachable(rules: Seq<(Seq<char>, Seq<char>)>, s: Set<Seq<char>>, a: Seq<char>, b: Seq<char>)
    requires
        s.contains(a),
        forall|x: Seq<char>, y: Seq<char>| s.contains(x) && #[trigger] is_neighbor(rules, x, y) ==> s.contains(y),
        reachable(rules, a, b),
    ensures
        s.contains(b),
{
    let p = choose|p: Seq<Seq<char>>| #[trigger] is_path(rules, p) && p[0] == a && p.last() == b;
    lemma_closed_holds_path(rules, s, p, p.len() - 1);
}

proof fn lemma_closed_holds_path(rules: Seq<(Seq<char>, Seq<char>)>, s: Set<Seq<char>>, p: Seq<Seq<char>>, k: int)
    requires
        is_path(rules, p),
        0 <= k < p.len(),
        s.contains(p[0]),
        forall|x: Seq<char>, y: Seq<char>| s.contains(x) && #[trigger] is_neighbor(rules, x, y) ==> s.contains(y),
    ensures
        s.contains(p[k]),
    decreases k,
{
    if k > 0 {
        lemma_closed_holds_path(rules, s, p, k - 1);
        assert(path_step(rules, p, k - 1));
    }
}

/// The words of the queue entries.
pub open spec fn queue_words(q: Seq<(String, usize)>) -> Seq<Seq<char>> {
    Seq::new(q.len(), |i: int| q[i].0@)
}

/// Every queued word is visited, reachable from `start` in exactly its
/// recorded number of steps, that depth is at most `max_depth`, and no word is queued twice.
#[verifier::opaque]
spec fn queue_ok(
    rs: Seq<(Seq<char>, Seq<char>)>,
    start: Seq<char>,
    max_depth: int,
    q: Seq<(String, usize)>,
    visited: Set<Seq<char>>,
) -> bool {
    &&& forall|i: int| 0 <= i < q.len() ==> visited.contains(#[trigger] queue_words(q)[i]) && q[i].1 <= max_depth
        && reachable_in(rs, start, queue_words(q)[i], q[i].1 as int)
    &&& queue_words(q).no_duplicates()
}

/// The normal forms found so far: no repeats, each a normal form reachable
/// within `max_depth`, visited and no longer queued.
#[verifier::opaque]
spec fn found_ok(
    rs: Seq<(Seq<char>, Seq<char>)>,
    start: Seq<char>,
    max_depth: int,
    nf: Seq<Seq<char>>,
    visited: Set<Seq<char>>,
    qw: Seq<Seq<char>>,
) -> bool {
    &&& nf.no_duplicates()
    &&& forall|x: Seq<char>| #[trigger] nf.contains(x) ==> is_normal_form(rs, x) && reachable_within(rs, start, x, max_depth)
        && visited.contains(x) && !qw.contains(x)
}

/// Every visited word that left the queue (other than `skip`, while it is
/// being expanded) has its neighbors visited, and is recorded if it is a
/// normal form.
#[verifier::opaque]
spec fn closed_ok(
    rs: Seq<(Seq<char>, Seq<char>)>,
    nf: Seq<Seq<char>>,
    visited: Set<Seq<char>>,
    qw: Seq<Seq<char>>,
    skip: Option<Seq<char>>,
) -> bool {
    forall|x: Seq<char>| #[trigger] visited.contains(x) && !qw.contains(x) && skip != Some(x) ==> (
        (is_normal_form(rs, x) ==> nf.contains(x))
        && forall|y: Seq<char>| #[trigger] is_neighbor(rs, x, y) ==> visited.contains(y))
}

proof fn lemma_start(rs: Seq<(Seq<char>, Seq<char>)>, start: Seq<char>, max_depth: int, q: Seq<(String, usize)>, visited: Set<Seq<char>>)
    requires
        q.len() == 1,
        q[0].0@ == start,
        q[0].1 == 0,
        visited == Set::empty().insert(start),
        max_depth >= 0,
    ensures
        queue_ok(rs, start, max_depth, q, visited),
        found_ok(rs, start, max_depth, Seq::empty(), visited, queue_words(q)),
        closed_ok(rs, Seq::empty(), visited, queue_words(q), None),
{
    reveal(queue_ok);
    reveal(found_ok);
    reveal(closed_ok);
    lemma_reach_start(rs, start);
    assert(queue_words(q) =~= seq![start]);
    assert(queue_words(q)[0] == start);
}

proof fn lemma_pop(
    rs: Seq<(Seq<char>, Seq<char>)>,
    start: Seq<char>,
    max_depth: int,
    qb: Seq<(String, usize)>,
    q: Seq<(String, usize)>,
    nf: Seq<Seq<char>>,
    visited: Set<Seq<char>>,
    cut: bool,
)
    requires
        qb.len() > 0,
        q == qb.subrange(1, qb.len() as int),
        queue_ok(rs, start, max_depth, qb, visited),
        found_ok(rs, start, max_depth, nf, visited, queue_words(qb)),
        !cut ==> closed_ok(rs, nf, visited, queue_words(qb), None),
    ensures
        queue_ok(rs, start, max_depth, q, visited),
        found_ok(rs, start, max_depth, nf, visited, queue_words(q)),
        !cut ==> closed_ok(rs, nf, visited, queue_words(q), Some(qb[0].0@)),
        !queue_words(q).contains(qb[0].0@),
        !nf.contains(qb[0].0@),
        visited.contains(qb[0].0@),
        qb[0].1 <= max_depth,
        reachable_in(rs, start, qb[0].0@, qb[0].1 as int),
        queue_words(qb).contains(qb[0].0@),
        forall|x: Seq<char>| #[trigger] queue_words(q).contains(x) ==> queue_words(qb).contains(x),
{
    reveal(queue_ok);
    reveal(found_ok);
    reveal(closed_ok);
    let u = qb[0].0@;
    assert(queue_words(qb) =~= seq![u] + queue_words(q));
    assert(queue_words(qb)[0] == u);
    assert forall|x: Seq<char>| queue_words(q).contains(x) implies queue_words(qb).contains(x) && x != u by {
        let k = choose|k: int| 0 <= k < queue_words(q).len() && queue_words(q)[k] == x;
        assert(queue_words(qb)[k + 1] == x);
    }
    assert forall|i: int| 0 <= i < q.len() implies visited.contains(#[trigger] queue_words(q)[i]) && q[i].1 <= max_depth
        && reachable_in(rs, start, queue_words(q)[i], q[i].1 as int) by {
        assert(queue_words(q)[i] == queue_words(qb)[i + 1]);
        assert(q[i] == qb[i + 1]);
    }
    assert(queue_words(q).no_duplicates()) by {
        assert forall|i: int, j: int| 0 <= i < queue_words(q).len() && 0 <= j < queue_words(q).len() && i != j
            implies queue_words(q)[i] != queue_words(q)[j] by {
            assert(queue_words(q)[i] == queue_words(qb)[i + 1]);
            assert(queue_words(q)[j] == queue_words(qb)[j + 1]);
        }
    }
    assert(queue_words(qb).contains(u));
}

proof fn lemma_record_normal_form(
    rs: Seq<(Seq<char>, Seq<char>)>,
    start: Seq<char>,
    max_depth: int,
    nf: Seq<Seq<char>>,
    visited: Set<Seq<char>>,
    qw: Seq<Seq<char>>,
    u: Seq<char>,
    cut: bool,
)
    requires
        found_ok(rs, start, max_depth, nf, visited, qw),
        !cut ==> closed_ok(rs, nf, visited, qw, Some(u)),
        !qw.contains(u),
        !nf.contains(u),
        visited.contains(u),
        is_normal_form(rs, u),
        reachable_within(rs, start, u, max_depth),
    ensures
        found_ok(rs, start, max_depth, nf.push(u), visited, qw),
        !cut ==> closed_ok(rs, nf.push(u), visited, qw, None),
{
    reveal(found_ok);
    reveal(closed_ok);
    let n2 = nf.push(u);
    assert forall|x: Seq<char>| #[trigger] n2.contains(x) implies nf.contains(x) || x == u by {
        let k = choose|k: int| 0 <= k < n2.len() && n2[k] == x;
        if k < nf.len() {
            assert(nf[k] == x);
        }
    }
    assert forall|x: Seq<char>| nf.contains(x) implies #[trigger] n2.contains(x) by {
        let k = choose|k: int| 0 <= k < nf.len() && nf[k] == x;
        assert(n2[k] == x);
    }
    assert(n2[nf.len() as int] == u);
    assert(n2.no_duplicates()) by {
        assert forall|i: int, j: int| 0 <= i < n2.len() && 0 <= j < n2.len() && i != j implies n2[i] != n2[j] by {
            if i == nf.len() {
                assert(nf[j] == n2[j]);
            } else if j == nf.len() {
                assert(nf[i] == n2[i]);
            }
        }
    }
}

proof fn lemma_visit(
    rs: Seq<(Seq<char>, Seq<char>)>,
    start: Seq<char>,
    max_depth: int,
    qb: Seq<(String, usize)>,
    q: Seq<(String, usize)>,
    nf: Seq<Seq<char>>,
    vb: Set<Seq<char>>,
    visited: Set<Seq<char>>,
    u: Seq<char>,
    d: int,
    v: Seq<char>,
    fresh: bool,
    cut: bool,
)
    requires
        queue_ok(rs, start, max_depth, qb, vb),
        found_ok(rs, start, max_depth, nf, vb, queue_words(qb)),
        !cut ==> closed_ok(rs, nf, vb, queue_words(qb), Some(u)),
        !queue_words(qb).contains(u),
        reachable_in(rs, start, u, d),
        0 <= d < max_depth,
        max_depth <= usize::MAX as int,
        is_neighbor(rs, u, v),
        visited == vb.insert(v),
        fresh == !vb.contains(v),
        fresh ==> q == qb.push((q.last().0, (d + 1) as usize)) && q.last().0@ == v,
        !fresh ==> q == qb,
    ensures
        queue_ok(rs, start, max_depth, q, visited),
        found_ok(rs, start, max_depth, nf, visited, queue_words(q)),
        !cut ==> closed_ok(rs, nf, visited, queue_words(q), Some(u)),
        !queue_words(q).contains(u),
        visited.contains(v),
        forall|x: Seq<char>| #[trigger] queue_words(q).contains(x) ==> queue_words(qb).contains(x) || (fresh && x == v),
{
    reveal(queue_ok);
    reveal(found_ok);
    reveal(closed_ok);
    if fresh {
        lemma_reach_extend(rs, start, u, v, d);
        let qwb = queue_words(qb);
        let qw = queue_words(q);
        assert(qw =~= qwb.push(v));
        assert(!qwb.contains(v));
        assert(qw[qwb.len() as int] == v);
        assert(qw.contains(v));
        assert forall|x: Seq<char>| qw.contains(x) implies qwb.contains(x) || x == v by {
            let k = choose|k: int| 0 <= k < qw.len() && qw[k] == x;
            if k < qwb.len() {
                assert(qwb[k] == x);
            }
        }
        assert forall|x: Seq<char>| qwb.contains(x) implies qw.contains(x) by {
            let k = choose|k: int| 0 <= k < qwb.len() && qwb[k] == x;
            assert(qw[k] == x);
        }
        assert(qw.no_duplicates()) by {
            assert forall|i: int, j: int| 0 <= i < qw.len() && 0 <= j < qw.len() && i != j implies qw[i] != qw[j] by {
                if i == qwb.len() {
                    assert(qwb[j] == qw[j]);
                } else if j == qwb.len() {
                    assert(qwb[i] == qw[i]);
                }
            }
        }
        assert forall|i: int| 0 <= i < q.len() implies visited.contains(#[trigger] queue_words(q)[i]) && q[i].1 <= max_depth
            && reachable_in(rs, start, queue_words(q)[i], q[i].1 as int) by {
            if i < qb.len() {
                assert(queue_words(q)[i] == qwb[i]);
                assert(q[i] == qb[i]);
            } else {
                assert(i == qb.len());
                assert(q[i] == q.last());
                assert(queue_words(q)[i] == v);
                assert(q[i].1 == d + 1);
            }
        }
        assert(!qw.contains(u));
        if !cut {
            assert forall|x: Seq<char>| #[trigger] visited.contains(x) && !qw.contains(x) && Some(u) != Some(x) implies (
                (is_normal_form(rs, x) ==> nf.contains(x))
                && forall|y: Seq<char>| #[trigger] is_neighbor(rs, x, y) ==> visited.contains(y)) by {
                assert(x != v);
                assert(vb.contains(x));
                assert(!qwb.contains(x));
            }
        }
    } else {
        assert(visited =~= vb);
    }
}

proof fn lemma_finish_expansion(
    rs: Seq<(Seq<char>, Seq<char>)>,
    nf: Seq<Seq<char>>,
    visited: Set<Seq<char>>,
    qw: Seq<Seq<char>>,
    u: Seq<char>,
)
    requires
        closed_ok(rs, nf, visited, qw, Some(u)),
        !is_normal_form(rs, u),
        forall|y: Seq<char>| #[trigger] is_neighbor(rs, u, y) ==> visited.contains(y),
    ensures
        closed_ok(rs, nf, visited, qw, None),
{
    reveal(closed_ok);
}

proof fn lemma_complete(
    rs: Seq<(Seq<char>, Seq<char>)>,
    start: Seq<char>,
    max_depth: int,
    nf: Seq<Seq<char>>,
    visited: Set<Seq<char>>,
    q: Seq<(String, usize)>,
    cut: bool,
)
    requires
        visited.contains(start),
        found_ok(rs, start, max_depth, nf, visited, queue_words(q)),
        !cut ==> closed_ok(rs, nf, visited, queue_words(q), None),
        !cut ==> q.len() == 0,
    ensures
        nf.no_duplicates(),
        forall|x: Seq<char>| #[trigger] nf.contains(x) ==> is_normal_form(rs, x) && reachable_within(rs, start, x, max_depth),
        !cut ==> forall|x: Seq<char>| #[trigger] nf.contains(x) <==> (is_normal_form(rs, x) && reachable(rs, start, x)),
{
    reveal(found_ok);
    reveal(closed_ok);
    if !cut {
        assert(queue_words(q) =~= Seq::empty());
        assert forall|x: Seq<char>| #[trigger] nf.contains(x) <==> (is_normal_form(rs, x) && reachable(rs, start, x)) by {
            if is_normal_form(rs, x) && reachable(rs, start, x) {
                lemma_closed_holds_reachable(rs, visited, start, x);
            }
            if nf.contains(x) {
                lemma_reach_within_mono(rs, start, x, max_depth, max_depth);
            }
        }
    }
}

/// The neighbors of `u`, each once, in lexicographic order.
pub open spec fn sorted_neighbors(rules: Seq<(Seq<char>, Seq<char>)>, u: Seq<char>) -> Seq<Seq<char>> {
    choose|s: Seq<Seq<char>>| strictly_sorted(s) && forall|v: Seq<char>| s.contains(v) <==> is_neighbor(rules, u, v)
}

/// Two strictly sorted sequences with the same elements are equal.
proof fn lemma_sorted_unique(a: Seq<Seq<char>>, b: Seq<Seq<char>>)
    requires
        strictly_sorted(a),
        strictly_sorted(b),
        forall|v: Seq<char>| a.contains(v) <==> b.contains(v),
    ensures
        a == b,
    decreases a.len(),
{
    if a.len() == 0 {
        if b.len() > 0 {
            assert(b.contains(b[0]));
        }
        assert(a =~= b);
    } else {
        assert(a.contains(a[0]));
        assert(b.len() > 0);
        assert(b.contains(b[0]));
        if a[0] != b[0] {
            let j = choose|j: int| 0 <= j < b.len() && b[j] == a[0];
            let i = choose|i: int| 0 <= i < a.len() && a[i] == b[0];
            assert(lex_lt(b[0], b[j]));
            assert(lex_lt(a[0], a[i]));
            crate::words::lemma_lex_transitive(a[0], b[0], a[0]);
            lemma_lex_irreflexive(a[0]);
        }
        let ta = a.drop_first();
        let tb = b.drop_first();
        assert forall|v: Seq<char>| ta.contains(v) <==> tb.contains(v) by {
            if ta.contains(v) {
                let i = choose|i: int| 0 <= i < ta.len() && ta[i] == v;
                assert(a[i + 1] == v);
                assert(lex_lt(a[0], a[i + 1]));
                lemma_lex_irreflexive(v);
                assert(a.contains(v));
                let j = choose|j: int| 0 <= j < b.len() && b[j] == v;
                assert(j != 0);
                assert(tb[j - 1] == v);
            }
            if tb.contains(v) {
                let j = choose|j: int| 0 <= j < tb.len() && tb[j] == v;
                assert(b[j + 1] == v);
                assert(lex_lt(b[0], b[j + 1]));
                lemma_lex_irreflexive(v);
                assert(b.contains(v));
                let i = choose|i: int| 0 <= i < a.len() && a[i] == v;
                assert(i != 0);
                assert(ta[i - 1] == v);
            }
        }
        assert forall|i: int, j: int| 0 <= i < j < ta.len() implies lex_lt(#[trigger] ta[i], #[trigger] ta[j]) by {
            assert(lex_lt(a[i + 1], a[j + 1]));
        }
        assert forall|i: int, j: int| 0 <= i < j < tb.len() implies lex_lt(#[trigger] tb[i], #[trigger] tb[j]) by {
            assert(lex_lt(b[i + 1], b[j + 1]));
        }
        lemma_sorted_unique(ta, tb);
        assert(a =~= seq![a[0]] + ta);
        assert(b =~= seq![b[0]] + tb);
    }
}

/// The search's queue entries as words with their depths.
pub open spec fn queue_state(q: Seq<(String, usize)>) -> Seq<(Seq<char>, int)> {
    Seq::new(q.len(), |i: int| (q[i].0@, q[i].1 as int))
}

/// Following the edges from a word at depth `d` to the words `outs[i..]`,
/// with `e` edges followed so far and a budget of `mn` edges: each edge
/// marks its end visited and queues it at depth `d + 1` if it was not
/// visited yet. Returns the queue, the visited words, the number of edges
/// followed, and whether the budget ran out first.
pub open spec fn expand_edges(
    mn: int,
    d: int,
    outs: Seq<Seq<char>>,
    i: int,
    q: Seq<(Seq<char>, int)>,
    vis: Set<Seq<char>>,
    e: int,
) -> (Seq<(Seq<char>, int)>, Set<Seq<char>>, int, bool)
    decreases outs.len() - i,
{
    if i >= outs.len() {
        (q, vis, e, false)
    } else if e >= mn {
        (q, vis, e, true)
    } else {
        let v = outs[i];
        expand_edges(mn, d, outs, i + 1, if vis.contains(v) { q } else { q.push((v, d + 1)) }, vis.insert(v), e + 1)
    }
}

/// Following edges adds at most one queue entry per edge, and stays within
/// the budget unless it runs out.
pub proof fn lemma_expand_bounds(
    mn: int,
    d: int,
    outs: Seq<Seq<char>>,
    i: int,
    q: Seq<(Seq<char>, int)>,
    vis: Set<Seq<char>>,
    e: int,
)
    requires
        0 <= i,
    ensures
        ({
            let r = expand_edges(mn, d, outs, i, q, vis, e);
            &&& e <= r.2
            &&& r.0.len() <= q.len() + (r.2 - e)
            &&& (!r.3 && e <= mn) ==> r.2 <= mn
        }),
    decreases outs.len() - i,
{
    if i < outs.len() && e < mn {
        let v = outs[i];
        lemma_expand_bounds(mn, d, outs, i + 1, if vis.contains(v) { q } else { q.push((v, d + 1)) }, vis.insert(v), e + 1);
    }
}

/// The breadth-first search from a given state: the queue `q`, the visited
/// words, the normal forms found `nf`, the number `e` of edges followed, and
/// whether a limit was hit. A word is taken from the front of the queue; the
/// search stops, cut, when `mn` edges have been followed; a word without
/// neighbors is recorded; a word at depth `md` or more is not expanded, and
/// the search is marked cut; otherwise its edges are followed in order, and
/// after that the search stops if it has been cut. Returns the normal forms
/// found and whether the search was cut.
pub open spec fn bfs_from(
    rules: Seq<(Seq<char>, Seq<char>)>,
    md: int,
    mn: int,
    q: Seq<(Seq<char>, int)>,
    vis: Set<Seq<char>>,
    nf: Seq<Seq<char>>,
    e: int,
    cut: bool,
) -> (Seq<Seq<char>>, bool)
    decreases (mn - e) + q.len(),
{
    if q.len() == 0 {
        (nf, cut)
    } else if e >= mn {
        (nf, true)
    } else {
        let u = q[0].0;
        let d = q[0].1;
        let q1 = q.drop_first();
        let outs = sorted_neighbors(rules, u);
        if outs.len() == 0 {
            bfs_from(rules, md, mn, q1, vis, nf.push(u), e, cut)
        } else if d >= md {
            bfs_from(rules, md, mn, q1, vis, nf, e, true)
        } else {
            let r = expand_edges(mn, d, outs, 0, q1, vis, e);
            if r.3 || cut {
                (nf, true)
            } else {
                proof {
                    lemma_expand_bounds(mn, d, outs, 0, q1, vis, e);
                }
                bfs_from(rules, md, mn, r.0, r.1, nf, r.2, cut)
            }
        }
    }
}

/// What the search from `start` with depth limit `md` and edge budget `mn`
/// returns: the normal forms found, in order, and whether it was cut.
pub open spec fn bfs_search(rules: Seq<(Seq<char>, Seq<char>)>, start: Seq<char>, md: int, mn: int) -> (Seq<Seq<char>>, bool) {
    bfs_from(rules, md, mn, seq![(start, 0int)], set![start], Seq::empty(), 0, false)
}

proof fn lemma_bfs_cut_stays(
    rules: Seq<(Seq<char>, Seq<char>)>,
    md: int,
    mn: int,
    q: Seq<(Seq<char>, int)>,
    vis: Set<Seq<char>>,
    nf: Seq<Seq<char>>,
    e: int,
)
    ensures
        bfs_from(rules, md, mn, q, vis, nf, e, true).1,
    decreases (mn - e) + q.len(),
{
    if q.len() > 0 && e < mn {
        let u = q[0].0;
        let d = q[0].1;
        let q1 = q.drop_first();
        let outs = sorted_neighbors(rules, u);
        if outs.len() == 0 {
            lemma_bfs_cut_stays(rules, md, mn, q1, vis, nf.push(u), e);
        } else if d >= md {
            lemma_bfs_cut_stays(rules, md, mn, q1, vis, nf, e);
        }
    }
}

proof fn lemma_expand_mono(
    mn1: int,
    mn2: int,
    d: int,
    outs: Seq<Seq<char>>,
    i: int,
    q: Seq<(Seq<char>, int)>,
    vis: Set<Seq<char>>,
    e: int,
)
    requires
        mn1 <= mn2,
        !expand_edges(mn1, d, outs, i, q, vis, e).3,
    ensures
        expand_edges(mn2, d, outs, i, q, vis, e) == expand_edges(mn1, d, outs, i, q, vis, e),
    decreases outs.len() - i,
{
    if i < outs.len() {
        let v = outs[i];
        lemma_expand_mono(mn1, mn2, d, outs, i + 1, if vis.contains(v) { q } else { q.push((v, d + 1)) }, vis.insert(v), e + 1);
    }
}

proof fn lemma_bfs_mono(
    rules: Seq<(Seq<char>, Seq<char>)>,
    md1: int,
    mn1: int,
    md2: int,
    mn2: int,
    q: Seq<(Seq<char>, int)>,
    vis: Set<Seq<char>>,
    nf: Seq<Seq<char>>,
    e: int,
    cut: bool,
)
    requires
        md1 <= md2,
        mn1 <= mn2,
        !bfs_from(rules, md1, mn1, q, vis, nf, e, cut).1,
    ensures
        bfs_from(rules, md2, mn2, q, vis, nf, e, cut) == bfs_from(rules, md1, mn1, q, vis, nf, e, cut),
    decreases (mn1 - e) + q.len(),
{
    if q.len() > 0 {
        let u = q[0].0;
        let d = q[0].1;
        let q1 = q.drop_first();
        let outs = sorted_neighbors(rules, u);
        assert(e < mn1);
        if outs.len() == 0 {
            lemma_bfs_mono(rules, md1, mn1, md2, mn2, q1, vis, nf.push(u), e, cut);
        } else if d >= md1 {
            lemma_bfs_cut_stays(rules, md1, mn1, q1, vis, nf, e);
        } else {
            let r = expand_edges(mn1, d, outs, 0, q1, vis, e);
            if !r.3 && !cut {
                lemma_expand_mono(mn1, mn2, d, outs, 0, q1, vis, e);
                lemma_expand_bounds(mn1, d, outs, 0, q1, vis, e);
                lemma_bfs_mono(rules, md1, mn1, md2, mn2, r.0, r.1, nf, r.2, cut);
            }
        }
    }
}

/// A search that was not cut short gives the same answer, again not cut,
/// with any larger depth limit and any larger edge budget.
pub proof fn lemma_search_limits_monotone(
    rules: Seq<(Seq<char>, Seq<char>)>,
    start: Seq<char>,
    md1: int,
    mn1: int,
    md2: int,
    mn2: int,
)
    requires
        md1 <= md2,
        mn1 <= mn2,
        !bfs_search(rules, start, md1, mn1).1,
    ensures
        bfs_search(rules, start, md2, mn2) == bfs_search(rules, start, md1, mn1),
{
    lemma_bfs_mono(rules, md1, mn1, md2, mn2, seq![(start, 0int)], set![start], Seq::empty(), 0, false);
}

/// Breadth-first search from `start` for words that no rule rewrites.
///
/// Words at depth `max_depth` are not expanded, and at most `max_nodes` edges
/// are followed. Returns the normal forms found, each once, and whether the
/// search was cut short by either limit. Each returned word is a normal form
/// reachable from `start` in at most `max_depth` steps; when the search was
/// not cut, the returned words are exactly the normal forms reachable from
/// `start`. The search is not cut when no rewriting path from `start` is
/// longer than `max_depth` steps and fewer than `max_nodes` rewriting steps
/// leave the words reachable from `start`; it is cut, with nothing found,
/// when `max_nodes` is 0, or when `max_depth` is 0 and `start` can be
/// rewritten. The result is exactly `bfs_search`, the search described step
/// by step (see `lemma_search_limits_monotone` for larger limits).
pub fn normal_forms_all(start: &str, rules: &Rules, max_depth: usize, max_nodes: usize) -> (res: (Vec<String>, bool))
    ensures
        string_views(res.0@).no_duplicates(),
        forall|x: Seq<char>| #[trigger] string_views(res.0@).contains(x) ==> is_normal_form(rule_seq(rules@), x)
            && reachable_within(rule_seq(rules@), start@, x, max_depth as int),
        !res.1 ==> forall|x: Seq<char>| #[trigger] string_views(res.0@).contains(x) <==> (is_normal_form(rule_seq(rules@), x)
            && reachable(rule_seq(rules@), start@, x)),
        search_fits(rule_seq(rules@), start@, max_depth as int, max_nodes as int) ==> !res.1,
        max_nodes == 0 ==> res.1 && res.0@.len() == 0,
        max_depth == 0 && !is_normal_form(rule_seq(rules@), start@) ==> res.1 && res.0@.len() == 0,
        (string_views(res.0@), res.1) == bfs_search(rule_seq(rules@), start@, max_depth as int, max_nodes as int),
{
    let ghost rs = rule_seq(rules@);
    let ghost md = max_depth as int;
    let ghost fits = search_fits(rs, start@, md, max_nodes as int);
    let ghost mn = max_nodes as int;
    let ghost init = bfs_search(rs, start@, md, mn);
    let mut q: VecDeque<(String, usize)> = VecDeque::new();
    let mut visited = StringHashSet::new();
    let mut nforms: Vec<String> = Vec::new();

    q.push_back((start.to_string(), 0));
    visited.insert(start.to_string());
    proof {
        assert(visited@ =~= Set::empty().insert(start@));
        assert(string_views(nforms@) =~= Seq::empty());
        lemma_start(rs, start@, md, q@, visited@);
        assert(queue_state(q@) =~= seq![(start@, 0int)]);
    }

    let mut expanded: usize = 0;
    let mut cut = false;
    // The edges followed so far.
    let ghost mut fe: Set<(Seq<char>, Seq<char>)> = Set::empty();

    loop
        invariant_except_break
            bfs_from(rs, md, mn, queue_state(q@), visited@, string_views(nforms@), expanded as int, cut) == init,
        invariant
            rs == rule_seq(rules@),
            md == max_depth as int,
            fits == search_fits(rs, start@, md, max_nodes as int),
            expanded <= max_nodes,
            visited@.contains(start@),
            queue_ok(rs, start@, md, q@, visited@),
            found_ok(rs, start@, md, string_views(nforms@), visited@, queue_words(q@)),
            !cut ==> closed_ok(rs, string_views(nforms@), visited@, queue_words(q@), None),
            fe.finite(),
            fe.len() == expanded,
            forall|e: (Seq<char>, Seq<char>)| #[trigger] fe.contains(e) ==> reachable(rs, start@, e.0) && is_neighbor(rs, e.0, e.1)
                && visited@.contains(e.0) && !queue_words(q@).contains(e.0),
            fits ==> !cut,
            max_nodes == 0 ==> nforms@.len() == 0 && (cut || q@.len() > 0),
            md == 0 && !is_normal_form(rs, start@) ==> nforms@.len() == 0
                && (cut || (q@.len() == 1 && q@[0].0@ == start@)),
            mn == max_nodes as int,
            init == bfs_search(rs, start@, md, mn),
        ensures
            !cut ==> q@.len() == 0,
            (string_views(nforms@), cut) == init,
        decreases (max_nodes - expanded) + q@.len(),
    {
        let ghost qb = q@;
        let ghost nf0 = string_views(nforms@);
        let ghost vis0 = visited@;
        let ghost cut0 = cut;
        let popped = q.pop_front();
        let (u, d) = match popped {
            None => {
                break;
            },
            Some(entry) => entry,
        };
        proof {
            lemma_pop(rs, start@, md, qb, q@, string_views(nforms@), visited@, cut);
            lemma_reach_in_within(rs, start@, u@, d as int);
            assert(queue_state(q@) =~= queue_state(qb).drop_first());
            assert(queue_state(qb)[0] == (u@, d as int));
        }
        if expanded >= max_nodes {
            proof {
                if fits {
                    lemma_budget(rs, start@, fe, max_nodes as int);
                }
            }
            cut = true;
            break;
        }
        let outs = neighbors_fwd(u.as_str(), rules);
        proof {
            assert(strictly_sorted(string_views(outs@)) && forall|v: Seq<char>| string_views(outs@).contains(v) <==> is_neighbor(rs, u@, v));
            let sn = sorted_neighbors(rs, u@);
            lemma_sorted_unique(string_views(outs@), sn);
        }
        if outs.len() == 0 {
            proof {
                assert forall|y: Seq<char>| !#[trigger] is_neighbor(rs, u@, y) by {
                    if is_neighbor(rs, u@, y) {
                        assert(string_views(outs@).contains(y));
                    }
                }
                lemma_reach_within_mono(rs, start@, u@, d as int, md);
                lemma_record_normal_form(rs, start@, md, string_views(nforms@), visited@, queue_words(q@), u@, cut);
            }
            let ghost old_n = string_views(nforms@);
            let ghost uv = u@;
            nforms.push(u);
            assert(string_views(nforms@) =~= old_n.push(uv));
            continue;
        }
        proof {
            assert(string_views(outs@)[0] == outs@[0]@);
            assert(string_views(outs@).contains(outs@[0]@));
            assert(is_neighbor(rs, u@, outs@[0]@));
        }
        if d >= max_depth {
            proof {
                if fits {
                    lemma_depth_below(rs, start@, u@, outs@[0]@, d as int, md);
                }
            }
            cut = true;
            continue;
        }
        let mut idx: usize = 0;
        let ghost e0 = expanded as int;
        let ghost q0 = q@.len() as int;
        let ghost outs_v = string_views(outs@);
        let ghost xr = expand_edges(mn, d as int, outs_v, 0, queue_state(q@), visited@, expanded as int);
        let ghost mut icut = false;
        loop
            invariant_except_break
                expand_edges(mn, d as int, outs_v, idx as int, queue_state(q@), visited@, expanded as int) == xr,
                !icut,
            invariant
                e0 <= expanded,
                q@.len() <= q0 + (expanded - e0),
                rs == rule_seq(rules@),
                md == max_depth as int,
                fits == search_fits(rs, start@, md, max_nodes as int),
                0 <= idx <= outs@.len(),
                d < max_depth,
                expanded <= max_nodes,
                visited@.contains(start@),
                visited@.contains(u@),
                reachable_in(rs, start@, u@, d as int),
                reachable(rs, start@, u@),
                !queue_words(q@).contains(u@),
                queue_ok(rs, start@, md, q@, visited@),
                found_ok(rs, start@, md, string_views(nforms@), visited@, queue_words(q@)),
                !cut ==> closed_ok(rs, string_views(nforms@), visited@, queue_words(q@), Some(u@)),
                !cut ==> forall|j: int| 0 <= j < idx ==> visited@.contains(#[trigger] string_views(outs@)[j]),
                forall|y: Seq<char>| #[trigger] string_views(outs@).contains(y) <==> is_neighbor(rs, u@, y),
                strictly_sorted(string_views(outs@)),
                fe.finite(),
                fe.len() == expanded,
                forall|e: (Seq<char>, Seq<char>)| #[trigger] fe.contains(e) ==> reachable(rs, start@, e.0) && is_neighbor(rs, e.0, e.1)
                    && visited@.contains(e.0) && (e.0 == u@ || !queue_words(q@).contains(e.0)),
                forall|e: (Seq<char>, Seq<char>)| #[trigger] fe.contains(e) && e.0 == u@ ==> exists|j: int| 0 <= j < idx && e.1 == string_views(outs@)[j],
                fits ==> !cut,
                mn == max_nodes as int,
                outs_v == string_views(outs@),
                cut == (cut0 || icut),
            ensures
                !cut ==> idx == outs@.len(),
                xr == (queue_state(q@), visited@, expanded as int, icut),
            decreases (max_nodes - expanded) + outs@.len() - idx,
        {
            if idx >= outs.len() {
                break;
            }
            let ghost edge = (u@, string_views(outs@)[idx as int]);
            proof {
                assert(string_views(outs@).contains(edge.1));
                if fe.contains(edge) {
                    let j = choose|j: int| 0 <= j < idx && edge.1 == string_views(outs@)[j];
                    assert(lex_lt(string_views(outs@)[j], string_views(outs@)[idx as int]));
                    lemma_lex_irreflexive(edge.1);
                }
            }
            if expanded >= max_nodes {
                proof {
                    if fits {
                        lemma_budget(rs, start@, fe.insert(edge), max_nodes as int);
                    }
                }
                cut = true;
                proof {
                    icut = true;
                }
                break;
            }
            let ghost qs_before = queue_state(q@);
            expanded = expanded + 1;
            let ghost qb2 = q@;
            let ghost vb = visited@;
            let ghost fb = fe;
            let v = &outs[idx];
            assert(v@ == string_views(outs@)[idx as int]);
            assert(string_views(outs@).contains(v@));
            let fresh = visited.insert(v.clone());
            if fresh {
                q.push_back((v.clone(), d + 1));
                assert(queue_state(q@) =~= qs_before.push((v@, d + 1)));
            } else {
                assert(queue_state(q@) =~= qs_before);
            }
            proof {
                lemma_visit(rs, start@, md, qb2, q@, string_views(nforms@), vb, visited@, u@, d as int, v@, fresh, cut);
                fe = fe.insert(edge);
                assert forall|e: (Seq<char>, Seq<char>)| #[trigger] fe.contains(e) implies reachable(rs, start@, e.0) && is_neighbor(rs, e.0, e.1)
                    && visited@.contains(e.0) && (e.0 == u@ || !queue_words(q@).contains(e.0)) by {
                    if e != edge {
                        assert(fb.contains(e));
                        if e.0 != u@ && queue_words(q@).contains(e.0) {
                            assert(!queue_words(qb2).contains(e.0));
                            assert(vb.contains(e.0));
                        }
                    }
                }
                assert forall|e: (Seq<char>, Seq<char>)| #[trigger] fe.contains(e) && e.0 == u@ implies exists|j: int| 0 <= j < idx + 1 && e.1 == string_views(outs@)[j] by {
                    if e == edge {
                        assert(e.1 == string_views(outs@)[idx as int]);
                    } else {
                        assert(fb.contains(e));
                    }
                }
            }
            idx = idx + 1;
        }
        if cut {
            break;
        }
        proof {
            assert forall|y: Seq<char>| #[trigger] is_neighbor(rs, u@, y) implies visited@.contains(y) by {
                assert(string_views(outs@).contains(y));
                let j = choose|j: int| 0 <= j < string_views(outs@).len() && string_views(outs@)[j] == y;
            }
            lemma_finish_expansion(rs, string_views(nforms@), visited@, queue_words(q@), u@);
        }
    }
    proof {
        lemma_complete(rs, start@, md, string_views(nforms@), visited@, q@, cut);
    }
    (nforms, cut)
}

/// A rule of T whose left side has, at place `j`, a letter that `w` lacks
/// rewrites nothing in `w`.
proof fn lemma_no_rewrite_by_letter(w: Seq<char>, k: int, j: int, v: Seq<char>)
    requires
        0 <= k < t_rules().len(),
        0 <= j < t_rules()[k].0.len(),
        forall|m: int| 0 <= m < w.len() ==> w[m] != t_rules()[k].0[j],
    ensures
        !rewrites_by(t_rules()[k].0, t_rules()[k].1, w, v),
{
    let l = t_rules()[k].0;
    if rewrites_by(l, t_rules()[k].1, w, v) {
        let i = choose|i: int| occurs_at(w, l, i) && v == #[trigger] replace_at(w, l, t_rules()[k].1, i);
        assert(w.subrange(i, i + l.len())[j] == w[i + j]);
    }
}

/// A word over letters that no left side of T is made of alone is a normal form of T.
proof fn lemma_t_normal_by_letters(w: Seq<char>, js: Seq<int>)
    requires
        js.len() == 11,
        forall|k: int| 0 <= k < 11 ==> 0 <= #[trigger] js[k] < t_rules()[k].0.len(),
        forall|k: int, m: int| #![trigger w[m], t_rules()[k].0[js[k]]] 0 <= k < 11 && 0 <= m < w.len() ==> w[m] != t_rules()[k].0[js[k]],
    ensures
        is_normal_form(t_rules(), w),
{
    let t = t_rules();
    assert forall|v: Seq<char>| !#[trigger] is_neighbor(t, w, v) by {
        if rewrites_to(t, w, v) {
            let k = choose|k: int| 0 <= k < t.len() && #[trigger] rewrites_by(t[k].0, t[k].1, w, v);
            assert(0 <= js[k] < t[k].0.len());
            assert forall|m: int| 0 <= m < w.len() implies w[m] != t[k].0[js[k]] by {
                assert(w[m] != t[k].0[js[k]]);
            }
            lemma_no_rewrite_by_letter(w, k, js[k], v);
        }
    }
}

/// T is not locally confluent: `GFFI` rewrites in one step both to `GGFI`
/// (by `GF -> GG`) and to `GHGH` (by `FFI -> HGH`), and no word is reachable
/// from both; the first leads only to the normal form `GGGI`, the second is a
/// normal form.
pub proof fn lemma_t_not_locally_confluent()
    ensures
        is_neighbor(t_rules(), seq!['G', 'F', 'F', 'I'], seq!['G', 'G', 'F', 'I']),
        is_neighbor(t_rules(), seq!['G', 'F', 'F', 'I'], seq!['G', 'H', 'G', 'H']),
        !exists|x: Seq<char>| reachable(t_rules(), seq!['G', 'G', 'F', 'I'], x)
            && reachable(t_rules(), seq!['G', 'H', 'G', 'H'], x),
{
    let t = t_rules();
    let gffi = seq!['G', 'F', 'F', 'I'];
    let ggfi = seq!['G', 'G', 'F', 'I'];
    let ghgh = seq!['G', 'H', 'G', 'H'];
    let gggi = seq!['G', 'G', 'G', 'I'];
    // GFFI -> GGFI by GF -> GG at 0, GFFI -> GHGH by FFI -> HGH at 1.
    assert(gffi.subrange(0, 2) =~= t[2].0);
    assert(ggfi =~= replace_at(gffi, t[2].0, t[2].1, 0));
    assert(rewrites_by(t[2].0, t[2].1, gffi, ggfi));
    assert(gffi.subrange(1, 4) =~= t[5].0);
    assert(ghgh =~= replace_at(gffi, t[5].0, t[5].1, 1));
    assert(rewrites_by(t[5].0, t[5].1, gffi, ghgh));
    assert(ggfi != gffi && ghgh != gffi) by {
        assert(ggfi[1] != gffi[1]);
        assert(ghgh[1] != gffi[1]);
    }
    // GHGH and GGGI are normal forms.
    let js_ghgh = seq![0int, 0, 1, 0, 0, 0, 0, 1, 1, 2, 0];
    assert forall|k: int, m: int| #![trigger ghgh[m], t[k].0[js_ghgh[k]]] 0 <= k < 11 && 0 <= m < ghgh.len() implies ghgh[m] != t[k].0[js_ghgh[k]] by {
        assert(m == 0 || m == 1 || m == 2 || m == 3);
        assert(k == 0 || k == 1 || k == 2 || k == 3 || k == 4 || k == 5 || k == 6 || k == 7 || k == 8 || k == 9 || k == 10);
    }
    lemma_t_normal_by_letters(ghgh, js_ghgh);
    let js_gggi = seq![0int, 0, 1, 1, 0, 0, 0, 0, 0, 2, 1];
    assert forall|k: int, m: int| #![trigger gggi[m], t[k].0[js_gggi[k]]] 0 <= k < 11 && 0 <= m < gggi.len() implies gggi[m] != t[k].0[js_gggi[k]] by {
        assert(m == 0 || m == 1 || m == 2 || m == 3);
        assert(k == 0 || k == 1 || k == 2 || k == 3 || k == 4 || k == 5 || k == 6 || k == 7 || k == 8 || k == 9 || k == 10);
    }
    lemma_t_normal_by_letters(gggi, js_gggi);
    // The only neighbor of GGFI is GGGI.
    assert forall|y: Seq<char>| #[trigger] is_neighbor(t, ggfi, y) implies y == gggi by {
        let k = choose|k: int| 0 <= k < t.len() && #[trigger] rewrites_by(t[k].0, t[k].1, ggfi, y);
        assert(k == 0 || k == 1 || k == 2 || k == 3 || k == 4 || k == 5 || k == 6 || k == 7 || k == 8 || k == 9 || k == 10);
        let l = t[k].0;
        let i = choose|i: int| occurs_at(ggfi, l, i) && y == #[trigger] replace_at(ggfi, l, t[k].1, i);
        assert(l[0] == ggfi.subrange(i, i + l.len())[0]);
        assert(l[1] == ggfi.subrange(i, i + l.len())[1]);
        if k == 2 {
            assert(i == 1);
            assert(y =~= gggi);
        } else {
            let j: int = if k == 3 || k == 6 || k == 10 { 1 } else if k == 9 { 2 } else { 0 };
            assert(l[j] == ggfi.subrange(i, i + l.len())[j]);
            assert(ggfi.subrange(i, i + l.len())[j] == ggfi[i + j]);
            assert(false);
        }
    }
    // The words reachable from GGFI are GGFI and GGGI; from GHGH only GHGH.
    let s1 = set![ggfi, gggi];
    assert forall|x: Seq<char>, y: Seq<char>| s1.contains(x) && #[trigger] is_neighbor(t, x, y) implies s1.contains(y) by {
        if x == gggi {
            assert(!is_neighbor(t, gggi, y));
        }
    }
    let s2 = set![ghgh];
    assert forall|x: Seq<char>, y: Seq<char>| s2.contains(x) && #[trigger] is_neighbor(t, x, y) implies s2.contains(y) by {
        assert(!is_neighbor(t, ghgh, y));
    }
    if exists|x: Seq<char>| reachable(t, ggfi, x) && reachable(t, ghgh, x) {
        let x = choose|x: Seq<char>| reachable(t, ggfi, x) && reachable(t, ghgh, x);
        lemma_closed_holds_reachable(t, s1, ggfi, x);
        lemma_closed_holds_reachable(t, s2, ghgh, x);
        assert(ghgh[1] != ggfi[1] && ghgh[1] != gggi[1]);
    }
}

/// The rule `G F^n G -> G F^(n+1)` belongs to T' with the completion rules
/// up to `n` (for `n = 0` it is the base rule `GG -> GF`).
proof fn lemma_kb_rule_index(n: nat) -> (k: int)
    ensures
        0 <= k < tprime_upto(n).len(),
        tprime_upto(n)[k] == (kb_lhs(n), kb_rhs(n)),
{
    if n == 0 {
        assert(kb_lhs(0) =~= seq!['G', 'G']);
        assert(kb_rhs(0) =~= seq!['G', 'F']);
        assert(tprime_upto(0)[2] == tprime_base_rules()[2]);
        2
    } else {
        let k = 11 + n - 1;
        assert(tprime_upto(n)[k] == kb_rules(n)[n - 1]);
        k
    }
}

/// Rewriting one occurrence of a rule's left side into a different word is a step.
proof fn lemma_step_at(rules: Seq<(Seq<char>, Seq<char>)>, k: int, w: Seq<char>, i: int, v: Seq<char>)
    requires
        0 <= k < rules.len(),
        occurs_at(w, rules[k].0, i),
        v == replace_at(w, rules[k].0, rules[k].1, i),
        v != w,
    ensures
        is_neighbor(rules, w, v),
{
    assert(rewrites_by(rules[k].0, rules[k].1, w, v));
}

/// The letters of `G F^m G`.
proof fn lemma_kb_lhs_letters(m: nat, j: int)
    requires
        0 <= j < m + 2,
    ensures
        kb_lhs(m).len() == m + 2,
        kb_lhs(m)[j] == (if j == 0 || j == m + 1 { 'G' } else { 'F' }),
{
    assert((seq!['G'] + letters('F', m)).len() == m + 1);
    if j < m + 1 {
        assert(kb_lhs(m)[j] == (seq!['G'] + letters('F', m))[j]);
    }
}

/// The letters of `G F^(m+1)`.
proof fn lemma_kb_rhs_letters(m: nat, j: int)
    requires
        0 <= j < m + 2,
    ensures
        kb_rhs(m).len() == m + 2,
        kb_rhs(m)[j] == (if j == 0 { 'G' } else { 'F' }),
{
}

/// A word made of `G`s and `F`s in which every `G` but the first stands at
/// the end, and no two `G`s are adjacent or `n + 1` letters apart, is a
/// normal form of T' with the completion rules up to `n`.
proof fn lemma_gf_normal(n: nat, w: Seq<char>)
    requires
        w.len() >= 2,
        w[0] == 'G',
        forall|j: int| 0 < j < w.len() - 1 ==> w[j] == 'F',
        w.last() == 'G' ==> w.len() >= n + 3,
        w.last() == 'G' || w.last() == 'F',
    ensures
        is_normal_form(tprime_upto(n), w),
{
    let rs = tprime_upto(n);
    let b = tprime_base_rules();
    assert forall|v: Seq<char>| !#[trigger] is_neighbor(rs, w, v) by {
        if rewrites_to(rs, w, v) {
            let k = choose|k: int| 0 <= k < rs.len() && #[trigger] rewrites_by(rs[k].0, rs[k].1, w, v);
            let l = rs[k].0;
            let i = choose|i: int| occurs_at(w, l, i) && v == #[trigger] replace_at(w, l, rs[k].1, i);
            assert forall|j: int| 0 <= j < l.len() implies l[j] == w[i + j] by {
                assert(w.subrange(i, i + l.len())[j] == w[i + j]);
            }
            assert forall|j: int| 0 <= j < w.len() implies w[j] == 'G' || w[j] == 'F' by {
                if j == w.len() - 1 {
                    assert(w[j] == w.last());
                }
            }
            if k < 11 {
                assert(rs[k] == b[k]);
                assert(k == 0 || k == 1 || k == 2 || k == 3 || k == 4 || k == 5 || k == 6 || k == 7 || k == 8 || k == 9 || k == 10);
                if k == 2 {
                    assert(l[0] == w[i] && l[1] == w[i + 1]);
                    if i > 0 {
                        assert(i + 1 == w.len() - 1);
                        assert(w[i] == 'F');
                    }
                    assert(w[1] == 'G');
                } else {
                    let j: int = if k == 6 { 1 } else { 0 };
                    assert(l[j] == w[i + j]);
                }
            } else {
                let p = (k - 10) as nat;
                assert(rs[k] == kb_rules(n)[k - 11]);
                assert(l == kb_lhs(p));
                lemma_kb_lhs_letters(p, 0);
                lemma_kb_lhs_letters(p, p as int + 1);
                assert(w[i] == 'G');
                assert(w[i + p + 1] == 'G');
                if i > 0 {
                    assert(i == w.len() - 1);
                }
                assert(i == 0);
                assert(p + 1 == w.len() - 1);
            }
        }
    }
}

/// The Knuth–Bendix completion of T' never ends: for every `n`, T' with
/// the completion rules `G F^k G -> G F^(k+1)` for `k <= n` still has two
/// different normal forms, `G F^(n+1) G` and `G F^(n+2)`, that both come
/// from the word `G F^n G G`; completion must add the next rule of the family.
pub proof fn lemma_completion_never_ends(n: nat)
    ensures
        is_normal_form(tprime_upto(n), kb_lhs(n + 1)),
        is_normal_form(tprime_upto(n), kb_rhs(n + 1)),
        kb_lhs(n + 1) != kb_rhs(n + 1),
        reachable(tprime_upto(n), kb_lhs(n) + seq!['G'], kb_lhs(n + 1)),
        reachable(tprime_upto(n), kb_lhs(n) + seq!['G'], kb_rhs(n + 1)),
{
    let rs = tprime_upto(n);
    let m: nat = n + 1;
    let ni = n as int;
    // Both words are normal forms.
    let w1 = kb_lhs(m);
    let w2 = kb_rhs(m);
    assert forall|j: int| 0 < j < w1.len() - 1 implies w1[j] == 'F' by {
        lemma_kb_lhs_letters(m, j);
    }
    lemma_kb_lhs_letters(m, 0);
    lemma_kb_lhs_letters(m, ni + 2);
    lemma_gf_normal(n, w1);
    assert forall|j: int| 0 < j < w2.len() - 1 implies w2[j] == 'F' by {
        lemma_kb_rhs_letters(m, j);
    }
    lemma_kb_rhs_letters(m, 0);
    lemma_kb_rhs_letters(m, ni + 2);
    lemma_gf_normal(n, w2);
    assert(w1 != w2) by {
        assert(w1[ni + 2] != w2[ni + 2]);
    }
    // G F^n G G rewrites to G F^(n+1) G, and through G F^n G F to G F^(n+2).
    let k = lemma_kb_rule_index(n);
    let s = kb_lhs(n) + seq!['G'];
    let l = kb_lhs(n);
    lemma_kb_lhs_letters(n, 0);
    assert(s.subrange(0, l.len() as int) =~= l);
    assert(replace_at(s, l, kb_rhs(n), 0) =~= w1);
    assert(s.len() == n + 3 && w1.len() == n + 3);
    assert(s[ni + 1] == 'G');
    lemma_kb_lhs_letters(m, ni + 1);
    assert(w1[ni + 1] == 'F');
    lemma_step_at(rs, k, s, 0, w1);
    let p1 = seq![s, w1];
    assert(path_step(rs, p1, 0));
    assert(is_path(rs, p1));

    let gg = seq!['G', 'G'];
    let gf = seq!['G', 'F'];
    assert(rs[2] == tprime_base_rules()[2]);
    let mid = l + seq!['F'];
    assert(s.subrange(ni + 1, ni + 3) =~= gg);
    assert(replace_at(s, gg, gf, ni + 1) =~= mid);
    assert(mid[ni + 2] != s[ni + 2]);
    lemma_step_at(rs, 2, s, ni + 1, mid);
    assert(mid.subrange(0, l.len() as int) =~= l);
    assert(replace_at(mid, l, kb_rhs(n), 0) =~= w2);
    lemma_kb_lhs_letters(n, ni + 1);
    assert(mid[ni + 1] == 'G' && w2[ni + 1] == 'F');
    lemma_step_at(rs, k, mid, 0, w2);
    let p2 = seq![s, mid, w2];
    assert(path_step(rs, p2, 0));
    assert(path_step(rs, p2, 1));
    assert(is_path(rs, p2));
}

} // verus!
