//! Dependency graphs over the nodes `0..n` and their deterministic
//! topological schedule.
//!
//! `edges[i]` lists the nodes that node `i` depends on.  A schedule places,
//! at every step, the lowest-numbered node whose dependencies have all been
//! placed already; it is complete exactly when the graph has no cycle.

use vstd::prelude::*;

verus! {

/// Every edge points at a node of the graph.
pub open spec fn well_formed(g: Seq<Seq<usize>>) -> bool {
    forall|i: int, k: int|
        0 <= i < g.len() && 0 <= k < g[i].len() ==> (#[trigger] g[i][k]) < g.len()
}

/// Node `a` lists node `b` among its dependencies.
pub open spec fn depends_on(g: Seq<Seq<usize>>, a: int, b: int) -> bool {
    &&& 0 <= a < g.len()
    &&& 0 <= b < g.len()
    &&& g[a].contains(b as usize)
}

/// Node `i` is not placed yet and all of its dependencies are.
pub open spec fn ready(g: Seq<Seq<usize>>, placed: Seq<usize>, i: int) -> bool {
    &&& 0 <= i < g.len()
    &&& !placed.contains(i as usize)
    &&& forall|k: int| 0 <= k < g[i].len() ==> placed.contains(#[trigger] g[i][k])
}

/// Node `i` is the lowest-numbered ready node.
pub open spec fn first_ready(g: Seq<Seq<usize>>, placed: Seq<usize>, i: int) -> bool {
    &&& ready(g, placed, i)
    &&& forall|j: int| 0 <= j < i ==> !ready(g, placed, j)
}

/// The node at position `k` of `order` was the lowest-numbered ready node
/// when the `k` nodes before it had been placed.
pub open spec fn scheduled_at(g: Seq<Seq<usize>>, order: Seq<usize>, k: int) -> bool {
    first_ready(g, order.take(k), order[k] as int)
}

/// Every position of `order` holds the node that the tie-break rule picks.
pub open spec fn is_schedule(g: Seq<Seq<usize>>, order: Seq<usize>) -> bool {
    forall|k: int| 0 <= k < order.len() ==> #[trigger] scheduled_at(g, order, k)
}

/// No node can be placed after `placed`.
pub open spec fn stuck(g: Seq<Seq<usize>>, placed: Seq<usize>) -> bool {
    forall|i: int| 0 <= i < g.len() ==> !#[trigger] ready(g, placed, i)
}

/// A schedule that cannot be extended.
pub open spec fn is_maximal_schedule(g: Seq<Seq<usize>>, order: Seq<usize>) -> bool {
    is_schedule(g, order) && stuck(g, order)
}

/// The maximal schedule of `g`; `lemma_maximal_schedule_unique` shows that
/// there is only one.
pub open spec fn schedule_of(g: Seq<Seq<usize>>) -> Seq<usize> {
    choose|order: Seq<usize>| is_maximal_schedule(g, order)
}

/// `order` holds every node of `g` exactly once.
pub open spec fn is_permutation(g: Seq<Seq<usize>>, order: Seq<usize>) -> bool {
    &&& order.len() == g.len()
    &&& order.no_duplicates()
    &&& forall|i: usize| i < g.len() ==> order.contains(i)
    &&& forall|k: int| 0 <= k < order.len() ==> (#[trigger] order[k]) < g.len()
}

/// Every dependency of every node stands before that node in `order`.
pub open spec fn respects_dependencies(g: Seq<Seq<usize>>, order: Seq<usize>) -> bool {
    forall|p: int, k: int|
        0 <= p < order.len() && 0 <= order[p] < g.len() && 0 <= k < g[order[p] as int].len()
            ==> order.take(p).contains(#[trigger] g[order[p] as int][k])
}

/// `c` is a dependency cycle: every node of it depends on the next one, and
/// the last on the first.
pub open spec fn is_cycle(g: Seq<Seq<usize>>, c: Seq<usize>) -> bool {
    &&& c.len() > 0
    &&& forall|t: int|
        0 <= t < c.len() ==> depends_on(
            g,
            (#[trigger] c[t]) as int,
            c[if t + 1 < c.len() { t + 1 } else { 0 }] as int,
        )
}

/// No dependency cycle runs through the graph.
pub open spec fn acyclic(g: Seq<Seq<usize>>) -> bool {
    forall|c: Seq<usize>| !is_cycle(g, c)
}

/// Node `i` is the lowest-numbered node that is not placed.
pub open spec fn first_unplaced(g: Seq<Seq<usize>>, placed: Seq<usize>, i: int) -> bool {
    &&& 0 <= i < g.len()
    &&& !placed.contains(i as usize)
    &&& forall|j: usize| j < i ==> placed.contains(j)
}

/// Position `k` holds the first dependency of node `i` that is not placed.
pub open spec fn first_unplaced_dependency(
    g: Seq<Seq<usize>>,
    placed: Seq<usize>,
    i: int,
    k: int,
) -> bool {
    &&& 0 <= k < g[i].len()
    &&& !placed.contains(g[i][k])
    &&& forall|j: int| 0 <= j < k ==> placed.contains(#[trigger] g[i][j])
}

/// The first dependency of node `i` that is not placed: what keeps `i`
/// from being placed.
pub open spec fn blocker(g: Seq<Seq<usize>>, placed: Seq<usize>, i: int) -> usize {
    g[i][choose|k: int| first_unplaced_dependency(g, placed, i, k)]
}

/// The walk that starts at the lowest-numbered unplaced node and goes from
/// each node to its blocker.
pub open spec fn walk(g: Seq<Seq<usize>>, placed: Seq<usize>, t: nat) -> usize
    decreases t,
{
    if t == 0 {
        choose|i: usize| first_unplaced(g, placed, i as int)
    } else {
        blocker(g, placed, walk(g, placed, (t - 1) as nat) as int)
    }
}

/// The walk returns at step `e` to the node of step `s`, for the first time.
pub open spec fn walk_closes(g: Seq<Seq<usize>>, placed: Seq<usize>, s: nat, e: nat) -> bool {
    &&& s < e
    &&& walk(g, placed, e) == walk(g, placed, s)
    &&& forall|a: nat, b: nat| a < b < e ==> walk(g, placed, a) != walk(g, placed, b)
}

/// `cycle` is the loop that the walk runs into: its nodes from the first
/// node that it meets twice up to the step before it meets it again.
pub open spec fn is_blocking_cycle(g: Seq<Seq<usize>>, placed: Seq<usize>, cycle: Seq<usize>) -> bool {
    exists|s: nat, e: nat|
        #![trigger walk_closes(g, placed, s, e)]
        walk_closes(g, placed, s, e) && cycle == Seq::new(
            (e - s) as nat,
            |t: int| walk(g, placed, (s + t) as nat),
        )
}

/// A sequence of distinct numbers below `n` has at most `n` entries.
pub proof fn lemma_distinct_bounded(s: Seq<usize>, n: nat)
    requires
        s.no_duplicates(),
        forall|k: int| 0 <= k < s.len() ==> (#[trigger] s[k]) < n,
    ensures
        s.len() <= n,
        s.len() == n ==> forall|i: usize| i < n ==> s.contains(i),
        n <= usize::MAX && (forall|i: usize| i < n ==> s.contains(i)) ==> s.len() == n,
{
    let ints = s.map_values(|x: usize| x as int);
    assert(ints.no_duplicates()) by {
        assert forall|a: int, b: int| 0 <= a < ints.len() && 0 <= b < ints.len() && a != b implies ints[a] != ints[b] by {
            assert(s[a] != s[b]);
        }
    }
    ints.unique_seq_to_set();
    vstd::set_lib::lemma_int_range(0, n as int);
    let range = vstd::set_lib::set_int_range(0, n as int);
    assert(ints.to_set().subset_of(range)) by {
        assert forall|x: int| ints.to_set().contains(x) implies range.contains(x) by {
            let k = choose|k: int| 0 <= k < ints.len() && ints[k] == x;
            assert(s[k] < n);
        }
    }
    vstd::set_lib::lemma_len_subset(ints.to_set(), range);
    if n <= usize::MAX && forall|i: usize| i < n ==> s.contains(i) {
        assert(range.subset_of(ints.to_set())) by {
            assert forall|x: int| range.contains(x) implies ints.to_set().contains(x) by {
                assert(s.contains(x as usize));
                let k = choose|k: int| 0 <= k < s.len() && s[k] == x as usize;
                assert(ints[k] == x);
            }
        }
        vstd::set_lib::lemma_len_subset(range, ints.to_set());
    }
    if s.len() == n {
        vstd::set_lib::lemma_subset_equality(ints.to_set(), range);
        assert forall|i: usize| i < n implies s.contains(i) by {
            assert(range.contains(i as int));
            assert(ints.to_set().contains(i as int));
            let k = choose|k: int| 0 <= k < ints.len() && ints[k] == i as int;
            assert(s[k] == i);
        }
    }
}

/// Two schedules of one graph agree on every position that both have.
pub proof fn lemma_schedules_agree(g: Seq<Seq<usize>>, a: Seq<usize>, b: Seq<usize>, k: int)
    requires
        is_schedule(g, a),
        is_schedule(g, b),
        0 <= k <= a.len(),
        k <= b.len(),
    ensures
        a.take(k) == b.take(k),
    decreases k,
{
    if k == 0 {
        assert(a.take(0) =~= b.take(0));
    } else {
        lemma_schedules_agree(g, a, b, k - 1);
        assert(scheduled_at(g, a, k - 1));
        assert(scheduled_at(g, b, k - 1));
        let x = a[k - 1] as int;
        let y = b[k - 1] as int;
        if x < y {
            assert(!ready(g, b.take(k - 1), x));
        } else if y < x {
            assert(!ready(g, a.take(k - 1), y));
        }
        assert(a.take(k) =~= a.take(k - 1).push(a[k - 1]));
        assert(b.take(k) =~= b.take(k - 1).push(b[k - 1]));
    }
}

/// A graph has one maximal schedule only: the tie-break rule leaves no
/// choice at any step.
pub proof fn lemma_maximal_schedule_unique(g: Seq<Seq<usize>>, a: Seq<usize>, b: Seq<usize>)
    requires
        is_maximal_schedule(g, a),
        is_maximal_schedule(g, b),
    ensures
        a == b,
{
    if a.len() < b.len() {
        lemma_schedules_agree(g, a, b, a.len() as int);
        assert(a.take(a.len() as int) =~= a);
        assert(scheduled_at(g, b, a.len() as int));
        assert(ready(g, a, b[a.len() as int] as int));
    } else if b.len() < a.len() {
        lemma_schedules_agree(g, a, b, b.len() as int);
        assert(b.take(b.len() as int) =~= b);
        assert(scheduled_at(g, a, b.len() as int));
        assert(ready(g, b, a[b.len() as int] as int));
    } else {
        lemma_schedules_agree(g, a, b, a.len() as int);
        assert(a.take(a.len() as int) =~= a);
        assert(b.take(b.len() as int) =~= b);
    }
}

/// A schedule never places a node twice, places nodes of the graph only,
/// and places every node after all of its dependencies.
pub proof fn lemma_schedule_is_ordered(g: Seq<Seq<usize>>, order: Seq<usize>)
    requires
        is_schedule(g, order),
    ensures
        order.no_duplicates(),
        forall|k: int| 0 <= k < order.len() ==> (#[trigger] order[k]) < g.len(),
        order.len() <= g.len(),
        respects_dependencies(g, order),
{
    assert forall|a: int, b: int| 0 <= a < order.len() && 0 <= b < order.len() && a != b implies order[a]
        != order[b] by {
        if a < b {
            assert(scheduled_at(g, order, b));
            assert(order.take(b)[a] == order[a]);
        } else {
            assert(scheduled_at(g, order, a));
            assert(order.take(a)[b] == order[b]);
        }
    }
    assert forall|k: int| 0 <= k < order.len() implies (#[trigger] order[k]) < g.len() by {
        assert(scheduled_at(g, order, k));
    }
    lemma_distinct_bounded(order, g.len());
    assert forall|p: int, k: int|
        0 <= p < order.len() && 0 <= order[p] < g.len() && 0 <= k < g[order[p] as int].len() implies order.take(
        p,
    ).contains(#[trigger] g[order[p] as int][k]) by {
        assert(scheduled_at(g, order, p));
    }
}

/// A schedule that holds as many nodes as the graph has holds each of them
/// once.
pub proof fn lemma_full_schedule_is_permutation(g: Seq<Seq<usize>>, order: Seq<usize>)
    requires
        is_schedule(g, order),
        order.len() == g.len(),
    ensures
        is_permutation(g, order),
        stuck(g, order),
{
    lemma_schedule_is_ordered(g, order);
    lemma_distinct_bounded(order, g.len());
}

/// No node of a dependency cycle can ever be placed: a schedule of a graph
/// with a cycle stays incomplete.
pub proof fn lemma_cycle_is_never_scheduled(g: Seq<Seq<usize>>, c: Seq<usize>, order: Seq<usize>)
    requires
        is_cycle(g, c),
        is_schedule(g, order),
    ensures
        forall|t: int| 0 <= t < c.len() ==> !order.contains(#[trigger] c[t]),
        order.len() < g.len(),
{
    lemma_cycle_misses_prefix(g, c, order, order.len() as int);
    assert(order.take(order.len() as int) =~= order);
    lemma_schedule_is_ordered(g, order);
    lemma_distinct_bounded(order, g.len());
    assert(depends_on(g, c[0] as int, c[if 1 < c.len() { 1int } else { 0int }] as int));
    assert(!order.contains(c[0]));
}

/// The first `k` nodes of a schedule hold no node of a dependency cycle.
proof fn lemma_cycle_misses_prefix(g: Seq<Seq<usize>>, c: Seq<usize>, order: Seq<usize>, k: int)
    requires
        is_cycle(g, c),
        is_schedule(g, order),
        0 <= k <= order.len(),
    ensures
        forall|t: int| 0 <= t < c.len() ==> !order.take(k).contains(#[trigger] c[t]),
    decreases k,
{
    if k > 0 {
        lemma_cycle_misses_prefix(g, c, order, k - 1);
        assert(scheduled_at(g, order, k - 1));
        assert(order.take(k) =~= order.take(k - 1).push(order[k - 1]));
        assert forall|t: int| 0 <= t < c.len() implies !order.take(k).contains(#[trigger] c[t]) by {
            if order.take(k).contains(c[t]) {
                let p = choose|p: int| 0 <= p < order.take(k).len() && order.take(k)[p] == c[t];
                if p < k - 1 {
                    assert(order.take(k - 1)[p] == c[t]);
                } else {
                    let next = if t + 1 < c.len() { t + 1 } else { 0 };
                    assert(depends_on(g, c[t] as int, c[next] as int));
                    let d = choose|d: int| 0 <= d < g[c[t] as int].len() && g[c[t] as int][d] == c[next];
                    assert(order.take(k - 1).contains(g[c[t] as int][d]));
                }
            }
        }
    } else {
        assert(order.take(0).len() == 0);
    }
}

/// The walk over the unplaced nodes runs into one loop only.
pub proof fn lemma_blocking_cycle_unique(
    g: Seq<Seq<usize>>,
    placed: Seq<usize>,
    a: Seq<usize>,
    b: Seq<usize>,
)
    requires
        is_blocking_cycle(g, placed, a),
        is_blocking_cycle(g, placed, b),
    ensures
        a == b,
{
    let (sa, ea) = choose|s: nat, e: nat|
        #![trigger walk_closes(g, placed, s, e)]
        walk_closes(g, placed, s, e) && a == Seq::new(
            (e - s) as nat,
            |t: int| walk(g, placed, (s + t) as nat),
        );
    let (sb, eb) = choose|s: nat, e: nat|
        #![trigger walk_closes(g, placed, s, e)]
        walk_closes(g, placed, s, e) && b == Seq::new(
            (e - s) as nat,
            |t: int| walk(g, placed, (s + t) as nat),
        );
    if ea < eb {
        assert(walk(g, placed, sa) != walk(g, placed, ea));
    } else if eb < ea {
        assert(walk(g, placed, sb) != walk(g, placed, eb));
    } else if sa < sb {
        assert(walk(g, placed, sa) != walk(g, placed, sb));
    } else if sb < sa {
        assert(walk(g, placed, sb) != walk(g, placed, sa));
    }
    assert(a =~= b);
}

/// Where a number below `n` has the property `p`, a least one has it.
proof fn lemma_least(p: spec_fn(int) -> bool, i: int)
    requires
        0 <= i,
        p(i),
    ensures
        exists|j: int| 0 <= j <= i && #[trigger] p(j) && forall|k: int| 0 <= k < j ==> !#[trigger] p(k),
    decreases i,
{
    if exists|k: int| 0 <= k < i && #[trigger] p(k) {
        let k = choose|k: int| 0 <= k < i && #[trigger] p(k);
        lemma_least(p, k);
    }
}

/// Every schedule can be extended to a maximal one: a graph has a maximal
/// schedule.
pub proof fn lemma_maximal_schedule_exists(g: Seq<Seq<usize>>, placed: Seq<usize>)
    requires
        is_schedule(g, placed),
        g.len() <= usize::MAX,
    ensures
        exists|order: Seq<usize>| is_maximal_schedule(g, order),
        is_maximal_schedule(g, schedule_of(g)),
    decreases g.len() - placed.len(),
{
    lemma_schedule_is_ordered(g, placed);
    if stuck(g, placed) {
        assert(is_maximal_schedule(g, placed));
    } else {
        let some = choose|i: int| 0 <= i < g.len() && #[trigger] ready(g, placed, i);
        let is_ready = |i: int| ready(g, placed, i);
        assert(is_ready(some));
        lemma_least(is_ready, some);
        let i = choose|j: int|
            0 <= j <= some && #[trigger] is_ready(j) && forall|k: int| 0 <= k < j ==> !#[trigger] is_ready(k);
        assert forall|k: int| 0 <= k < i implies !ready(g, placed, k) by {
            assert(!is_ready(k));
        }
        let next = placed.push(i as usize);
        assert(first_ready(g, placed, i));
        assert forall|k: int| 0 <= k < next.len() implies #[trigger] scheduled_at(g, next, k) by {
            if k < placed.len() {
                assert(scheduled_at(g, placed, k));
                assert(next.take(k) =~= placed.take(k));
            } else {
                assert(next.take(k) =~= placed);
            }
        }
        lemma_schedule_is_ordered(g, next);
        lemma_maximal_schedule_exists(g, next);
    }
}

/// While no node is ready though one is unplaced, the walk stays among the
/// unplaced nodes, and each of its steps follows a dependency.
pub proof fn lemma_walk_follows_dependencies(g: Seq<Seq<usize>>, placed: Seq<usize>, t: nat)
    requires
        well_formed(g),
        stuck(g, placed),
        exists|i: usize| first_unplaced(g, placed, i as int),
    ensures
        walk(g, placed, t) < g.len(),
        !placed.contains(walk(g, placed, t)),
        !placed.contains(walk(g, placed, t + 1)),
        depends_on(g, walk(g, placed, t) as int, walk(g, placed, t + 1) as int),
    decreases t,
{
    if t > 0 {
        lemma_walk_follows_dependencies(g, placed, (t - 1) as nat);
    } else {
        let start = choose|i: usize| first_unplaced(g, placed, i as int);
        assert(first_unplaced(g, placed, start as int));
    }
    let i = walk(g, placed, t) as int;
    assert(i < g.len() && !placed.contains(i as usize));
    assert(!ready(g, placed, i));
    let some = choose|k: int| 0 <= k < g[i].len() && !placed.contains(#[trigger] g[i][k]);
    let blocks = |k: int| 0 <= k < g[i].len() && !placed.contains(g[i][k]);
    assert(blocks(some));
    lemma_least(blocks, some);
    let k = choose|j: int|
        0 <= j <= some && #[trigger] blocks(j) && forall|x: int| 0 <= x < j ==> !#[trigger] blocks(x);
    assert forall|j: int| 0 <= j < k implies placed.contains(#[trigger] g[i][j]) by {
        assert(!blocks(j));
    }
    assert(first_unplaced_dependency(g, placed, i, k));
    let c = choose|c: int| first_unplaced_dependency(g, placed, i, c);
    assert(g[i][c] < g.len());
    assert(walk(g, placed, t + 1) == g[i][c]);
}

/// At step `e` the walk is back at the node of the earlier step `s`.
pub open spec fn walk_returns(g: Seq<Seq<usize>>, placed: Seq<usize>, s: int, e: int) -> bool {
    0 <= s < e && walk(g, placed, s as nat) == walk(g, placed, e as nat)
}

/// A maximal schedule that leaves a node out is held up by a dependency
/// cycle: the walk over the unplaced nodes runs into one.
pub proof fn lemma_incomplete_schedule_has_cycle(g: Seq<Seq<usize>>, placed: Seq<usize>)
    requires
        well_formed(g),
        g.len() <= usize::MAX,
        is_maximal_schedule(g, placed),
        placed.len() < g.len(),
    ensures
        exists|c: Seq<usize>| is_blocking_cycle(g, placed, c) && is_cycle(g, c),
        !acyclic(g),
{
    let n = g.len();
    lemma_schedule_is_ordered(g, placed);
    lemma_distinct_bounded(placed, n);
    let some = choose|i: usize| i < n && !placed.contains(i);
    let unplaced = |i: int| 0 <= i < n && !placed.contains(i as usize);
    assert(unplaced(some as int));
    lemma_least(unplaced, some as int);
    let first = choose|j: int|
        0 <= j <= some && #[trigger] unplaced(j) && forall|x: int| 0 <= x < j ==> !#[trigger] unplaced(x);
    assert(first_unplaced(g, placed, first)) by {
        assert forall|j: usize| j < first implies placed.contains(j) by {
            assert(!unplaced(j as int));
        }
    }
    assert(first_unplaced(g, placed, (first as usize) as int));
    let steps = Seq::new(n + 1, |t: int| walk(g, placed, t as nat));
    assert forall|t: int| 0 <= t < steps.len() implies (#[trigger] steps[t]) < n by {
        lemma_walk_follows_dependencies(g, placed, t as nat);
    }
    if steps.no_duplicates() {
        lemma_distinct_bounded(steps, n);
    }
    let (a, b) = choose|a: int, b: int|
        0 <= a < steps.len() && 0 <= b < steps.len() && a != b && steps[a] == steps[b];
    let hi = if a < b { b } else { a };
    let pred = |e: int| exists|s: int| #[trigger] walk_returns(g, placed, s, e);
    assert(pred(hi)) by {
        let lo = if a < b { a } else { b };
        assert(steps[lo] == walk(g, placed, lo as nat));
        assert(steps[hi] == walk(g, placed, hi as nat));
        assert(walk_returns(g, placed, lo, hi));
    }
    lemma_least(pred, hi);
    let e = choose|j: int| 0 <= j <= hi && #[trigger] pred(j) && forall|k: int| 0 <= k < j ==> !#[trigger] pred(k);
    let s = choose|s: int| #[trigger] walk_returns(g, placed, s, e);
    assert forall|x: nat, y: nat| x < y < e implies walk(g, placed, x) != walk(g, placed, y) by {
        if walk(g, placed, x) == walk(g, placed, y) {
            assert(walk_returns(g, placed, x as int, y as int));
            assert(pred(y as int));
        }
    }
    assert(walk_closes(g, placed, s as nat, e as nat));
    let cycle = Seq::new((e - s) as nat, |t: int| walk(g, placed, (s as nat + t) as nat));
    assert(is_blocking_cycle(g, placed, cycle));
    assert forall|t: int| 0 <= t < cycle.len() implies depends_on(
        g,
        (#[trigger] cycle[t]) as int,
        cycle[if t + 1 < cycle.len() { t + 1 } else { 0 }] as int,
    ) by {
        lemma_walk_follows_dependencies(g, placed, (s + t) as nat);
        assert(cycle[t] == walk(g, placed, (s + t) as nat));
        if t + 1 < cycle.len() {
            assert(cycle[t + 1] == walk(g, placed, (s + t + 1) as nat));
        } else {
            assert(s + t + 1 == e);
            assert(cycle[0] == walk(g, placed, s as nat));
        }
    }
    assert(is_cycle(g, cycle));
}

/// The schedule of a graph is complete exactly when the graph has no
/// cycle.  Then it holds every node once, each after all of its
/// dependencies; else it leaves out every node of every cycle.
pub proof fn lemma_schedule_complete_iff_acyclic(g: Seq<Seq<usize>>)
    requires
        well_formed(g),
        g.len() <= usize::MAX,
    ensures
        is_maximal_schedule(g, schedule_of(g)),
        acyclic(g) <==> schedule_of(g).len() == g.len(),
        acyclic(g) ==> is_permutation(g, schedule_of(g)) && respects_dependencies(g, schedule_of(g)),
        !acyclic(g) ==> exists|c: Seq<usize>| is_blocking_cycle(g, schedule_of(g), c) && is_cycle(g, c),
{
    let empty = Seq::<usize>::empty();
    assert(is_schedule(g, empty));
    lemma_maximal_schedule_exists(g, empty);
    let order = schedule_of(g);
    lemma_schedule_is_ordered(g, order);
    if order.len() < g.len() {
        lemma_incomplete_schedule_has_cycle(g, order);
    } else {
        lemma_full_schedule_is_permutation(g, order);
        assert forall|c: Seq<usize>| !is_cycle(g, c) by {
            if is_cycle(g, c) {
                lemma_cycle_is_never_scheduled(g, c, order);
            }
        }
    }
}

/// A dependency graph over the nodes `0..edges.len()`.
pub struct DependencyGraph {
    /// For each node, the nodes that it depends on.
    pub edges: Vec<Vec<usize>>,
}

impl View for DependencyGraph {
    type V = Seq<Seq<usize>>;

    open spec fn view(&self) -> Seq<Seq<usize>> {
        Seq::new(self.edges@.len(), |i: int| self.edges@[i]@)
    }
}

/// `flags[i]` says whether node `i` occurs in `placed`.
pub open spec fn flags_match(flags: Seq<bool>, placed: Seq<usize>) -> bool {
    forall|i: usize| i < flags.len() ==> flags[i as int] == #[trigger] placed.contains(i)
}

impl DependencyGraph {
    /// Every edge points at a node of the graph.
    pub open spec fn wf(&self) -> bool {
        well_formed(self@)
    }

    /// Whether every edge points at a node of the graph.
    pub fn is_well_formed(&self) -> (r: bool)
        ensures
            r == self.wf(),
    {
        let n = self.edges.len();
        let mut i: usize = 0;
        while i < n
            invariant
                n == self@.len(),
                i <= n,
                forall|a: int, k: int|
                    0 <= a < i && 0 <= k < self@[a].len() ==> (#[trigger] self@[a][k]) < n,
            decreases n - i,
        {
            let row = &self.edges[i];
            let mut k: usize = 0;
            while k < row.len()
                invariant
                    i < self@.len(),
                    n == self@.len(),
                    row@ == self@[i as int],
                    k <= row@.len(),
                    forall|j: int| 0 <= j < k ==> (#[trigger] row@[j]) < n,
                decreases row@.len() - k,
            {
                if row[k] >= n {
                    assert(!(self@[i as int][k as int] < self@.len()));
                    return false;
                }
                k += 1;
            }
            i += 1;
        }
        true
    }

    /// Whether every dependency of node `i` is flagged as placed.
    fn dependencies_placed(&self, flags: &Vec<bool>, i: usize) -> (r: bool)
        requires
            self.wf(),
            i < self@.len(),
            flags@.len() == self@.len(),
        ensures
            r == (forall|k: int| 0 <= k < self@[i as int].len() ==> flags@[(#[trigger] self@[i as int][k]) as int]),
    {
        let deps = &self.edges[i];
        let mut k: usize = 0;
        while k < deps.len()
            invariant
                self.wf(),
                i < self@.len(),
                flags@.len() == self@.len(),
                deps@ == self@[i as int],
                k <= deps@.len(),
                forall|j: int| 0 <= j < k ==> flags@[(#[trigger] deps@[j]) as int],
            decreases deps@.len() - k,
        {
            assert(self@[i as int][k as int] < self@.len());
            if !flags[deps[k]] {
                return false;
            }
            k += 1;
        }
        true
    }

    /// The lowest-numbered node that is not placed and whose dependencies
    /// all are, if there is one.
    fn first_ready_node(&self, flags: &Vec<bool>, Ghost(placed): Ghost<Seq<usize>>) -> (r: Option<usize>)
        requires
            self.wf(),
            flags@.len() == self@.len(),
            flags_match(flags@, placed),
        ensures
            match r {
                Some(i) => first_ready(self@, placed, i as int),
                None => stuck(self@, placed),
            },
    {
        let n = self.edges.len();
        let mut i: usize = 0;
        while i < n
            invariant
                self.wf(),
                n == self@.len(),
                flags@.len() == n,
                flags_match(flags@, placed),
                i <= n,
                forall|j: int| 0 <= j < i ==> !ready(self@, placed, j),
            decreases n - i,
        {
            if !flags[i] && self.dependencies_placed(flags, i) {
                assert(ready(self@, placed, i as int)) by {
                    assert forall|k: int| 0 <= k < self@[i as int].len() implies placed.contains(
                        #[trigger] self@[i as int][k],
                    ) by {
                        let d = self@[i as int][k];
                        assert(d < n);
                        assert(flags@[d as int]);
                    }
                }
                return Some(i);
            }
            assert(!ready(self@, placed, i as int)) by {
                if !flags@[i as int] {
                    let k = choose|k: int| 0 <= k < self@[i as int].len() && !flags@[(#[trigger] self@[i as int][k]) as int];
                    let d = self@[i as int][k];
                    assert(d < n);
                    assert(!placed.contains(d));
                }
            }
            i += 1;
        }
        None
    }

    /// The first dependency of the unplaced node `i` that is not placed
    /// either.
    fn blocking_dependency(&self, flags: &Vec<bool>, i: usize, Ghost(placed): Ghost<Seq<usize>>) -> (d: usize)
        requires
            self.wf(),
            flags@.len() == self@.len(),
            flags_match(flags@, placed),
            i < self@.len(),
            !placed.contains(i),
            !ready(self@, placed, i as int),
        ensures
            d == blocker(self@, placed, i as int),
            d < self@.len(),
            !placed.contains(d),
            depends_on(self@, i as int, d as int),
    {
        let deps = &self.edges[i];
        let mut k: usize = 0;
        while k < deps.len()
            invariant
                self.wf(),
                flags@.len() == self@.len(),
                flags_match(flags@, placed),
                i < self@.len(),
                deps@ == self@[i as int],
                k <= deps@.len(),
                forall|j: int| 0 <= j < k ==> placed.contains(#[trigger] deps@[j]),
            decreases deps@.len() - k,
        {
            let d = deps[k];
            assert(self@[i as int][k as int] < self@.len());
            if !flags[d] {
                proof {
                    assert(first_unplaced_dependency(self@, placed, i as int, k as int));
                    let other = choose|c: int| first_unplaced_dependency(self@, placed, i as int, c);
                    if other < k {
                        assert(placed.contains(deps@[other]));
                    } else if k < other {
                        assert(placed.contains(self@[i as int][k as int]));
                    }
                }
                return d;
            }
            k += 1;
        }
        proof {
            assert(ready(self@, placed, i as int));
        }
        i
    }

    /// The dependency cycle that keeps the unplaced nodes from being
    /// placed, found by walking from the lowest-numbered unplaced node to
    /// its first unplaced dependency, and so on, until a node comes twice.
    fn blocking_cycle(&self, flags: &Vec<bool>, Ghost(placed): Ghost<Seq<usize>>) -> (cycle: Vec<usize>)
        requires
            self.wf(),
            flags@.len() == self@.len(),
            flags_match(flags@, placed),
            is_maximal_schedule(self@, placed),
            placed.len() < self@.len(),
        ensures
            is_blocking_cycle(self@, placed, cycle@),
            is_cycle(self@, cycle@),
    {
        let n = self.edges.len();
        proof {
            lemma_schedule_is_ordered(self@, placed);
            lemma_distinct_bounded(placed, n as nat);
        }
        let mut start: usize = 0;
        while start < n && flags[start]
            invariant
                n == self@.len(),
                flags@.len() == n,
                flags_match(flags@, placed),
                start <= n,
                forall|j: usize| j < start ==> placed.contains(j),
            decreases n - start,
        {
            start += 1;
        }
        assert(start < n);
        proof {
            assert(first_unplaced(self@, placed, start as int));
            let other = choose|i: usize| first_unplaced(self@, placed, i as int);
            if other < start {
                assert(placed.contains(other));
            } else if start < other {
                assert(placed.contains(start));
            }
            assert(walk(self@, placed, 0) == start);
        }
        let mut seen_at: Vec<usize> = Vec::new();
        let mut f: usize = 0;
        while f < n
            invariant
                f <= n,
                seen_at@.len() == f,
                forall|i: int| 0 <= i < f ==> seen_at@[i] == n,
            decreases n - f,
        {
            seen_at.push(n);
            f += 1;
        }
        let mut path: Vec<usize> = Vec::new();
        let mut cur: usize = start;
        while seen_at[cur] == n
            invariant
                self.wf(),
                n == self@.len(),
                flags@.len() == n,
                flags_match(flags@, placed),
                stuck(self@, placed),
                cur < n,
                !placed.contains(cur),
                cur == walk(self@, placed, path@.len()),
                path@.len() <= n,
                forall|t: int| 0 <= t < path@.len() ==> (#[trigger] path@[t]) == walk(self@, placed, t as nat),
                forall|t: int| 0 <= t < path@.len() ==> (#[trigger] path@[t]) < n,
                path@.no_duplicates(),
                seen_at@.len() == n,
                forall|v: int| 0 <= v < n && (#[trigger] seen_at@[v]) != n ==> seen_at@[v] < path@.len() && path@[seen_at@[v] as int] == v,
                forall|t: int| 0 <= t < path@.len() ==> seen_at@[(#[trigger] path@[t]) as int] == t,
                forall|t: int| 0 <= t < path@.len() ==> depends_on(
                    self@,
                    (#[trigger] path@[t]) as int,
                    (if t + 1 < path@.len() { path@[t + 1] } else { cur }) as int,
                ),
            decreases n - path@.len(),
        {
            let ghost before = path@;
            proof {
                assert forall|t: int| 0 <= t < before.len() implies before[t] != cur by {
                    assert(seen_at@[before[t] as int] == t);
                }
                assert(before.push(cur).no_duplicates());
                lemma_distinct_bounded(before.push(cur), n as nat);
                assert(!ready(self@, placed, cur as int));
            }
            seen_at.set(cur, path.len());
            path.push(cur);
            let next = self.blocking_dependency(flags, cur, Ghost(placed));
            proof {
                assert(walk(self@, placed, path@.len()) == blocker(
                    self@,
                    placed,
                    walk(self@, placed, (path@.len() - 1) as nat) as int,
                ));
                assert forall|t: int| 0 <= t < path@.len() implies depends_on(
                    self@,
                    (#[trigger] path@[t]) as int,
                    (if t + 1 < path@.len() { path@[t + 1] } else { next }) as int,
                ) by {
                    if t < before.len() {
                        assert(depends_on(
                            self@,
                            before[t] as int,
                            (if t + 1 < before.len() { before[t + 1] } else { cur }) as int,
                        ));
                    }
                }
            }
            cur = next;
        }
        let s = seen_at[cur];
        let e = path.len();
        proof {
            assert forall|a: nat, b: nat| a < b < e implies walk(self@, placed, a) != walk(self@, placed, b) by {
                assert(path@[a as int] != path@[b as int]);
            }
            assert(walk_closes(self@, placed, s as nat, e as nat));
        }
        let mut cycle: Vec<usize> = Vec::new();
        let mut t: usize = s;
        while t < e
            invariant
                s <= t <= e,
                e == path@.len(),
                cycle@.len() == t - s,
                forall|j: int| 0 <= j < cycle@.len() ==> cycle@[j] == path@[s + j],
            decreases e - t,
        {
            cycle.push(path[t]);
            t += 1;
        }
        proof {
            assert(cycle@ =~= Seq::new((e - s) as nat, |j: int| walk(self@, placed, (s + j) as nat)));
            assert forall|j: int| 0 <= j < cycle@.len() implies depends_on(
                self@,
                (#[trigger] cycle@[j]) as int,
                cycle@[if j + 1 < cycle@.len() { j + 1 } else { 0 }] as int,
            ) by {
                assert(depends_on(
                    self@,
                    path@[s + j] as int,
                    (if s + j + 1 < path@.len() { path@[s + j + 1] } else { cur }) as int,
                ));
            }
        }
        cycle
    }

    /// The maximal schedule of the graph, and for each node whether the
    /// schedule holds it.
    fn run_schedule(&self) -> (r: (Vec<usize>, Vec<bool>))
        requires
            self.wf(),
        ensures
            is_maximal_schedule(self@, r.0@),
            r.0@ == schedule_of(self@),
            r.1@.len() == self@.len(),
            flags_match(r.1@, r.0@),
    {
        let n = self.edges.len();
        let mut flags: Vec<bool> = Vec::new();
        let mut f: usize = 0;
        while f < n
            invariant
                f <= n,
                flags@.len() == f,
                forall|i: int| 0 <= i < f ==> !flags@[i],
            decreases n - f,
        {
            flags.push(false);
            f += 1;
        }
        let mut order: Vec<usize> = Vec::new();
        let mut done = false;
        while !done
            invariant
                self.wf(),
                n == self@.len(),
                flags@.len() == n,
                flags_match(flags@, order@),
                is_schedule(self@, order@),
                done ==> stuck(self@, order@),
            decreases n - order@.len() + (if done { 0int } else { 1int }),
        {
            proof {
                lemma_schedule_is_ordered(self@, order@);
            }
            match self.first_ready_node(&flags, Ghost(order@)) {
                Some(i) => {
                    let ghost before = order@;
                    flags.set(i, true);
                    order.push(i);
                    proof {
                        assert(before.push(i).take(before.len() as int) =~= before);
                        assert forall|k: int| 0 <= k < order@.len() implies #[trigger] scheduled_at(
                            self@,
                            order@,
                            k,
                        ) by {
                            if k < before.len() {
                                assert(scheduled_at(self@, before, k));
                                assert(order@.take(k) =~= before.take(k));
                            } else {
                                assert(order@.take(k) =~= before);
                            }
                        }
                        assert forall|j: usize| j < flags@.len() implies flags@[j as int]
                            == #[trigger] order@.contains(j) by {
                            if j == i {
                                assert(order@[before.len() as int] == i);
                            } else {
                                if before.contains(j) {
                                    let p = choose|p: int| 0 <= p < before.len() && before[p] == j;
                                    assert(order@[p] == j);
                                }
                                if order@.contains(j) {
                                    let p = choose|p: int| 0 <= p < order@.len() && order@[p] == j;
                                    assert(before[p] == j);
                                }
                            }
                        }
                        lemma_schedule_is_ordered(self@, order@);
                    }
                },
                None => {
                    done = true;
                },
            }
        }
        proof {
            let chosen = schedule_of(self@);
            assert(is_maximal_schedule(self@, order@));
            lemma_maximal_schedule_unique(self@, order@, chosen);
        }
        (order, flags)
    }

    /// The maximal schedule of the graph: at each step the lowest-numbered
    /// node whose dependencies are all placed, until none is left.
    pub fn schedule(&self) -> (order: Vec<usize>)
        requires
            self.wf(),
        ensures
            is_maximal_schedule(self@, order@),
            order@ == schedule_of(self@),
    {
        self.run_schedule().0
    }

    /// Orders the nodes so that every node comes after all of its
    /// dependencies, lower-numbered nodes first wherever the dependencies
    /// leave a choice.  Fails exactly when the graph has a cycle, and then
    /// hands back one: the loop that the walk from the lowest-numbered
    /// unplaced node runs into.
    pub fn topological_order(&self) -> (r: Result<Vec<usize>, Vec<usize>>)
        requires
            self.wf(),
        ensures
            r is Ok <==> acyclic(self@),
            is_maximal_schedule(self@, schedule_of(self@)),
            match r {
                Ok(order) => {
                    &&& order@ == schedule_of(self@)
                    &&& is_permutation(self@, order@)
                    &&& respects_dependencies(self@, order@)
                },
                Err(cycle) => {
                    &&& is_blocking_cycle(self@, schedule_of(self@), cycle@)
                    &&& is_cycle(self@, cycle@)
                },
            },
    {
        let (order, flags) = self.run_schedule();
        proof {
            lemma_schedule_is_ordered(self@, order@);
        }
        if order.len() == self.edges.len() {
            proof {
                lemma_full_schedule_is_permutation(self@, order@);
                assert forall|c: Seq<usize>| !is_cycle(self@, c) by {
                    if is_cycle(self@, c) {
                        lemma_cycle_is_never_scheduled(self@, c, order@);
                    }
                }
            }
            Ok(order)
        } else {
            let cycle = self.blocking_cycle(&flags, Ghost(order@));
            Err(cycle)
        }
    }
}

} // verus!
