//! Directed-graph notions shared by the genome: paths, cycles,
//! reachability, and a verified topological ordering.
//!
//! Nodes are indices below some bound `n`; edges are `(from, to)` pairs.

use vstd::prelude::*;
use vstd::seq_lib::*;
use vstd::set_lib::*;

verus! {

/// `c` lists the nodes of a directed cycle in `es`: consecutive nodes are
/// joined by edges and the last node loops back to the first.
pub open spec fn is_cycle(c: Seq<usize>, es: Set<(usize, usize)>) -> bool {
    &&& c.len() >= 1
    &&& (forall|i: int| 0 <= i < c.len() - 1 ==> #[trigger] es.contains((c[i], c[i + 1])))
    &&& es.contains((c[c.len() - 1], c[0]))
}

/// Some directed cycle exists among the edges `es`.
pub open spec fn has_cycle(es: Set<(usize, usize)>) -> bool {
    exists|c: Seq<usize>| is_cycle(c, es)
}

/// `p` is a walk of at least one edge: consecutive nodes are joined by edges.
pub open spec fn is_path(p: Seq<usize>, es: Set<(usize, usize)>) -> bool {
    &&& p.len() >= 2
    &&& (forall|i: int| 0 <= i < p.len() - 1 ==> #[trigger] es.contains((p[i], p[i + 1])))
}

/// `dst` can be reached from `src` along at least one edge of `es`.
pub open spec fn reaches(es: Set<(usize, usize)>, src: usize, dst: usize) -> bool {
    exists|p: Seq<usize>| is_path(p, es) && p[0] == src && p[p.len() - 1] == dst
}

/// `v` equals `src` or is reachable from it.
pub open spec fn reach0(es: Set<(usize, usize)>, src: usize, v: usize) -> bool {
    v == src || reaches(es, src, v)
}

/// `a` occurs strictly before `b` somewhere in `v`.
pub open spec fn edge_ordered(v: Seq<usize>, a: usize, b: usize) -> bool {
    exists|i: int, j: int| 0 <= i < j < v.len() && v[i] == a && v[j] == b
}

/// The set of node indices below `n`.
pub open spec fn range_set(n: usize) -> Set<usize> {
    Set::new(|v: usize| v < n)
}

/// How many entries of a boolean sequence are true.
pub open spec fn count_true(s: Seq<bool>) -> nat
    decreases s.len(),
{
    if s.len() == 0 {
        0
    } else {
        count_true(s.drop_last()) + if s.last() { 1nat } else { 0nat }
    }
}

pub proof fn lemma_count_true_le(s: Seq<bool>)
    ensures
        count_true(s) <= s.len(),
    decreases s.len(),
{
    if s.len() > 0 {
        lemma_count_true_le(s.drop_last());
    }
}

pub proof fn lemma_count_true_lt(s: Seq<bool>, i: int)
    requires
        0 <= i < s.len(),
        !s[i],
    ensures
        count_true(s) < s.len(),
    decreases s.len(),
{
    if i == s.len() - 1 {
        lemma_count_true_le(s.drop_last());
    } else {
        lemma_count_true_lt(s.drop_last(), i);
    }
}

pub proof fn lemma_count_true_update_true(s: Seq<bool>, i: int)
    requires
        0 <= i < s.len(),
        !s[i],
    ensures
        count_true(s.update(i, true)) == count_true(s) + 1,
    decreases s.len(),
{
    let t = s.update(i, true);
    if i == s.len() - 1 {
        assert(t.drop_last() =~= s.drop_last());
        assert(t.last());
    } else {
        lemma_count_true_update_true(s.drop_last(), i);
        assert(t.drop_last() =~= s.drop_last().update(i, true));
        assert(t.last() == s.last());
    }
}

pub proof fn lemma_range_set(n: usize)
    ensures
        range_set(n).finite(),
        range_set(n).len() == n,
    decreases n,
{
    if n == 0 {
        assert(range_set(0) =~= Set::empty());
    } else {
        let m = (n - 1) as usize;
        lemma_range_set(m);
        assert(range_set(m).insert(m) =~= range_set(n));
    }
}

/// A duplicate-free sequence of indices below `n` has at most `n` entries.
pub proof fn lemma_bounded_nodup_len(s: Seq<usize>, n: usize)
    requires
        s.no_duplicates(),
        forall|i: int| 0 <= i < s.len() ==> s[i] < n,
    ensures
        s.len() <= n,
{
    broadcast use vstd::seq_lib::seq_to_set_is_finite;

    s.unique_seq_to_set();
    lemma_range_set(n);
    assert forall|x: usize| s.to_set().contains(x) implies range_set(n).contains(x) by {
        assert(s.contains(x));
        let i = choose|i: int| 0 <= i < s.len() && s[i] == x;
        assert(s[i] < n);
    }
    lemma_len_subset(s.to_set(), range_set(n));
}

/// A sequence containing every index below `n` has at least `n` entries.
pub proof fn lemma_contains_range_len(s: Seq<usize>, n: usize)
    requires
        forall|x: usize| x < n ==> s.contains(x),
    ensures
        s.len() >= n,
{
    broadcast use vstd::seq_lib::seq_to_set_is_finite;

    lemma_range_set(n);
    assert forall|x: usize| range_set(n).contains(x) implies s.to_set().contains(x) by {
        assert(s.contains(x));
    }
    lemma_len_subset(range_set(n), s.to_set());
    s.lemma_cardinality_of_set();
}

/// A duplicate-free sequence of `n` indices below `n` contains every index below `n`.
pub proof fn lemma_full_range_contains(s: Seq<usize>, n: usize)
    requires
        s.no_duplicates(),
        s.len() == n,
        forall|i: int| 0 <= i < s.len() ==> s[i] < n,
    ensures
        forall|x: usize| x < n ==> s.contains(x),
{
    broadcast use vstd::seq_lib::seq_to_set_is_finite;

    s.unique_seq_to_set();
    lemma_range_set(n);
    assert forall|x: usize| x < n implies s.contains(x) by {
        if !s.contains(x) {
            assert forall|y: usize| s.to_set().contains(y)
                implies range_set(n).remove(x).contains(y) by {
                assert(s.contains(y));
                let i = choose|i: int| 0 <= i < s.len() && s[i] == y;
                assert(s[i] < n);
            }
            lemma_len_subset(s.to_set(), range_set(n).remove(x));
            assert(range_set(n).remove(x).len() == n - 1);
        }
    }
}

/// Pigeonhole: more than `n` entries below `n` force a repeat.
pub proof fn lemma_long_seq_has_dup(s: Seq<usize>, n: usize)
    requires
        forall|i: int| 0 <= i < s.len() ==> s[i] < n,
        s.len() > n,
    ensures
        exists|i: int, j: int| 0 <= i < j < s.len() && s[i] == s[j],
{
    if s.no_duplicates() {
        lemma_bounded_nodup_len(s, n);
    } else {
        let (i0, j0) = choose|i0: int, j0: int|
            0 <= i0 < s.len() && 0 <= j0 < s.len() && i0 != j0 && s[i0] == s[j0];
        if i0 < j0 {
            assert(0 <= i0 < j0 < s.len() && s[i0] == s[j0]);
        } else {
            assert(0 <= j0 < i0 < s.len() && s[j0] == s[i0]);
        }
    }
}

/// Walk backwards through `stuck` for `k` steps, ending at `v`.
proof fn build_chain(es: Set<(usize, usize)>, stuck: Set<usize>, v: usize, k: nat) -> (c: Seq<usize>)
    requires
        stuck.contains(v),
        forall|w: usize| #[trigger] stuck.contains(w)
            ==> exists|a: usize| stuck.contains(a) && es.contains((a, w)),
    ensures
        c.len() == k + 1,
        c[k as int] == v,
        forall|i: int| 0 <= i < c.len() ==> stuck.contains(#[trigger] c[i]),
        forall|i: int| 0 <= i < c.len() - 1 ==> #[trigger] es.contains((c[i], c[i + 1])),
    decreases k,
{
    if k == 0 {
        seq![v]
    } else {
        let a = choose|a: usize| stuck.contains(a) && es.contains((a, v));
        let c0 = build_chain(es, stuck, a, (k - 1) as nat);
        let c = c0.push(v);
        assert(c[k as int] == v);
        assert(c[k - 1] == a);
        assert forall|i: int| 0 <= i < c.len() - 1 implies #[trigger] es.contains((c[i], c[i + 1])) by {
            if i < k - 1 {
                assert(c[i] == c0[i] && c[i + 1] == c0[i + 1]);
            } else {
                assert(c[i] == a && c[i + 1] == v);
            }
        }
        c
    }
}

/// If every node of a nonempty set of indices below `n` has a predecessor
/// inside the set, the edges contain a cycle.
pub proof fn lemma_stuck_has_cycle(es: Set<(usize, usize)>, n: usize, stuck: Set<usize>, v0: usize)
    requires
        stuck.contains(v0),
        forall|w: usize| #[trigger] stuck.contains(w) ==> w < n,
        forall|w: usize| #[trigger] stuck.contains(w)
            ==> exists|a: usize| stuck.contains(a) && es.contains((a, w)),
    ensures
        has_cycle(es),
{
    let c = build_chain(es, stuck, v0, n as nat);
    assert forall|i: int| 0 <= i < c.len() implies c[i] < n by {
        assert(stuck.contains(c[i]));
    }
    lemma_long_seq_has_dup(c, n);
    let (i, j) = choose|i: int, j: int| 0 <= i < j < c.len() && c[i] == c[j];
    let d = c.subrange(i, j);
    assert(d.len() == j - i >= 1);
    assert forall|t: int| 0 <= t < d.len() - 1 implies #[trigger] es.contains((d[t], d[t + 1])) by {
        assert(d[t] == c[i + t] && d[t + 1] == c[i + t + 1]);
        assert(es.contains((c[i + t], c[i + t + 1])));
    }
    assert(d[d.len() - 1] == c[j - 1]);
    assert(d[0] == c[i]);
    assert(es.contains((c[j - 1], c[j - 1 + 1])));
    assert(es.contains((c[j - 1], c[j])));
    assert(es.contains((d[d.len() - 1], d[0])));
    assert(is_cycle(d, es));
}

/// The position of `x` in a duplicate-free sequence.
pub open spec fn pos_of(v: Seq<usize>, x: usize) -> int {
    choose|i: int| 0 <= i < v.len() && v[i] == x
}

proof fn lemma_ordered_pos(v: Seq<usize>, a: usize, b: usize)
    requires
        v.no_duplicates(),
        edge_ordered(v, a, b),
    ensures
        0 <= pos_of(v, a) < pos_of(v, b) < v.len(),
        v[pos_of(v, a)] == a,
        v[pos_of(v, b)] == b,
{
    let (i, j) = choose|i: int, j: int| 0 <= i < j < v.len() && v[i] == a && v[j] == b;
    assert(0 <= i < v.len() && v[i] == a);
    assert(0 <= j < v.len() && v[j] == b);
    let pa = pos_of(v, a);
    let pb = pos_of(v, b);
    assert(0 <= pa < v.len() && v[pa] == a);
    assert(0 <= pb < v.len() && v[pb] == b);
    if pa != i {
        assert(v[pa] == v[i]);
    }
    if pb != j {
        assert(v[pb] == v[j]);
    }
}

proof fn lemma_cycle_climb(v: Seq<usize>, es: Set<(usize, usize)>, c: Seq<usize>, t: int)
    requires
        v.no_duplicates(),
        forall|a: usize, b: usize| #[trigger] es.contains((a, b)) ==> edge_ordered(v, a, b),
        is_cycle(c, es),
        0 <= t < c.len(),
    ensures
        pos_of(v, c[0]) <= pos_of(v, c[t]),
    decreases t,
{
    if t == 0 {
    } else {
        lemma_cycle_climb(v, es, c, t - 1);
        assert(es.contains((c[t - 1], c[t - 1 + 1])));
        assert(es.contains((c[t - 1], c[t])));
        lemma_ordered_pos(v, c[t - 1], c[t]);
    }
}

/// A sequence that orders every edge source before its target admits no cycle.
pub proof fn lemma_order_excludes_cycle(v: Seq<usize>, es: Set<(usize, usize)>)
    requires
        v.no_duplicates(),
        forall|a: usize, b: usize| #[trigger] es.contains((a, b)) ==> edge_ordered(v, a, b),
    ensures
        !has_cycle(es),
{
    if has_cycle(es) {
        let c = choose|c: Seq<usize>| is_cycle(c, es);
        let last = c.len() - 1;
        lemma_cycle_climb(v, es, c, last);
        assert(es.contains((c[last], c[0])));
        lemma_ordered_pos(v, c[last], c[0]);
    }
}

/// A cycle among a subset of edges is a cycle among the larger set.
pub proof fn lemma_cycle_subset(es1: Set<(usize, usize)>, es2: Set<(usize, usize)>)
    requires
        has_cycle(es1),
        es1.subset_of(es2),
    ensures
        has_cycle(es2),
{
    let c = choose|c: Seq<usize>| is_cycle(c, es1);
    assert forall|i: int| 0 <= i < c.len() - 1 implies #[trigger] es2.contains((c[i], c[i + 1])) by {
        assert(es1.contains((c[i], c[i + 1])));
    }
    assert(es1.contains((c[c.len() - 1], c[0])));
    assert(is_cycle(c, es2));
}

/// Reaching `a` (or starting there) and following one edge reaches `b`.
pub proof fn lemma_edge_extends_path(es: Set<(usize, usize)>, s: usize, a: usize, b: usize)
    requires
        reach0(es, s, a),
        es.contains((a, b)),
    ensures
        reaches(es, s, b),
{
    if a == s {
        let p = seq![s, b];
        assert(p[0] == s && p[p.len() - 1] == b);
        assert(es.contains((p[0], p[1])));
        assert(is_path(p, es));
    } else {
        let p = choose|p: Seq<usize>| is_path(p, es) && p[0] == s && p[p.len() - 1] == a;
        let q = p.push(b);
        assert forall|i: int| 0 <= i < q.len() - 1 implies #[trigger] es.contains((q[i], q[i + 1])) by {
            if i < p.len() - 1 {
                assert(q[i] == p[i] && q[i + 1] == p[i + 1]);
            } else {
                assert(q[i] == a && q[i + 1] == b);
            }
        }
        assert(q[0] == s && q[q.len() - 1] == b);
        assert(is_path(q, es));
    }
}

/// Every node of a walk that starts inside a successor-closed set stays inside it.
pub proof fn lemma_path_in_closed_set(es: Set<(usize, usize)>, p: Seq<usize>, r: Set<usize>)
    requires
        p.len() >= 1,
        r.contains(p[0]),
        forall|i: int| 0 <= i < p.len() - 1 ==> #[trigger] es.contains((p[i], p[i + 1])),
        forall|a: usize, b: usize| r.contains(a) && #[trigger] es.contains((a, b)) ==> r.contains(b),
    ensures
        forall|i: int| 0 <= i < p.len() ==> r.contains(#[trigger] p[i]),
    decreases p.len(),
{
    if p.len() > 1 {
        let q = p.drop_last();
        assert forall|i: int| 0 <= i < q.len() - 1 implies #[trigger] es.contains((q[i], q[i + 1])) by {
            assert(q[i] == p[i] && q[i + 1] == p[i + 1]);
        }
        lemma_path_in_closed_set(es, q, r);
        assert(r.contains(q[p.len() - 2]));
        assert(es.contains((p[p.len() - 2], p[p.len() - 2 + 1])));
        assert(es.contains((p[p.len() - 2], p[p.len() - 1])));
        assert forall|i: int| 0 <= i < p.len() implies r.contains(#[trigger] p[i]) by {
            if i < p.len() - 1 {
                assert(r.contains(q[i]));
            }
        }
    }
}

/// Reachability always goes through a final edge out of `reach0`.
pub proof fn lemma_reach_last_edge(es: Set<(usize, usize)>, s: usize, t: usize)
    requires
        reaches(es, s, t),
    ensures
        exists|a: usize| reach0(es, s, a) && #[trigger] es.contains((a, t)),
{
    let p = choose|p: Seq<usize>| is_path(p, es) && p[0] == s && p[p.len() - 1] == t;
    let a = p[p.len() - 2];
    assert(es.contains((p[p.len() - 2], p[p.len() - 2 + 1])));
    assert(es.contains((p[p.len() - 2], p[p.len() - 1])));
    if p.len() == 2 {
        assert(a == s);
        assert(reach0(es, s, a) && es.contains((a, t)));
    } else {
        let q = p.drop_last();
        assert forall|i: int| 0 <= i < q.len() - 1 implies #[trigger] es.contains((q[i], q[i + 1])) by {
            assert(q[i] == p[i] && q[i + 1] == p[i + 1]);
        }
        assert(q[0] == s && q[q.len() - 1] == a);
        assert(is_path(q, es));
        assert(reaches(es, s, a));
        assert(reach0(es, s, a) && es.contains((a, t)));
    }
}

/// Does every edge into `i` start at a node marked in `mask`?
fn all_preds_marked(i: usize, edges: &Vec<(usize, usize)>, mask: &Vec<bool>) -> (r: bool)
    requires
        forall|k: int| 0 <= k < edges@.len() ==> (#[trigger] edges@[k]).0 < mask@.len(),
    ensures
        r == (forall|k: int| 0 <= k < edges@.len() && (#[trigger] edges@[k]).1 == i
            ==> mask@[edges@[k].0 as int]),
{
    let mut k: usize = 0;
    while k < edges.len()
        invariant
            k <= edges@.len(),
            forall|m: int| 0 <= m < edges@.len() ==> (#[trigger] edges@[m]).0 < mask@.len(),
            forall|m: int| 0 <= m < k && (#[trigger] edges@[m]).1 == i ==> mask@[edges@[m].0 as int],
        decreases edges@.len() - k,
    {
        let (a, b) = edges[k];
        if b == i && !mask[a] {
            return false;
        }
        k += 1;
    }
    true
}

/// Computes a topological order of the nodes `0..n` under `edges`, seeding
/// the given source nodes first, or reports that the edges contain a cycle.
///
/// Sources must have no incoming edges; all endpoints must lie below `n`.
pub fn topo_sort(n: usize, source: &Vec<bool>, edges: &Vec<(usize, usize)>) -> (r: Option<Vec<usize>>)
    requires
        source@.len() == n,
        forall|k: int| 0 <= k < edges@.len() ==> (#[trigger] edges@[k]).0 < n,
        forall|k: int| 0 <= k < edges@.len() ==> (#[trigger] edges@[k]).1 < n,
        forall|k: int| 0 <= k < edges@.len() ==> !source@[(#[trigger] edges@[k]).1 as int],
    ensures
        (r is None) <==> has_cycle(edges@.to_set()),
        r is Some ==> (r->Some_0)@.len() == n,
        r is Some ==> (r->Some_0)@.no_duplicates(),
        r is Some ==> forall|x: usize| x < n ==> (r->Some_0)@.contains(x),
        r is Some ==> forall|i: int| 0 <= i < n ==> (r->Some_0)@[i] < n,
        r is Some ==> forall|a: usize, b: usize| #[trigger] edges@.to_set().contains((a, b))
            ==> edge_ordered((r->Some_0)@, a, b),
        r is Some ==> forall|i: int, j: int|
            #![trigger (r->Some_0)@[i], (r->Some_0)@[j]]
            0 <= i < j < n && source@[(r->Some_0)@[j] as int]
                ==> source@[(r->Some_0)@[i] as int],
{
    let ghost es = edges@.to_set();
    let mut visited: Vec<usize> = Vec::new();
    let mut mask: Vec<bool> = Vec::new();
    let mut i: usize = 0;
    while i < n
        invariant
            i <= n,
            mask@.len() == i,
            forall|v: int| 0 <= v < i ==> !mask@[v],
        decreases n - i,
    {
        mask.push(false);
        i += 1;
    }

    // Seed the sources.
    let mut i: usize = 0;
    while i < n
        invariant
            i <= n,
            source@.len() == n,
            mask@.len() == n,
            visited@.no_duplicates(),
            visited@.len() <= n,
            forall|j: int| 0 <= j < visited@.len() ==> #[trigger] visited@[j] < n,
            forall|v: usize| v < n ==> (mask@[v as int] <==> visited@.contains(v)),
            forall|j: int| 0 <= j < visited@.len() ==> source@[#[trigger] visited@[j] as int],
            forall|v: int| 0 <= v < i && source@[v] ==> mask@[v],
        decreases n - i,
    {
        if source[i] && !mask[i] {
            proof {
                assert(!visited@.contains(i));
                if visited@.len() == n {
                    lemma_full_range_contains(visited@, n);
                    assert(visited@.contains(i));
                }
            }
            let ghost old_visited = visited@;
            visited.push(i);
            mask[i] = true;
            proof {
                assert forall|v: usize| v < n implies (mask@[v as int] <==> visited@.contains(v)) by {
                    if v == i {
                        assert(visited@[visited@.len() - 1] == i);
                    } else {
                        if old_visited.contains(v) {
                            let j = choose|j: int| 0 <= j < old_visited.len() && old_visited[j] == v;
                            assert(visited@[j] == v);
                        }
                        if visited@.contains(v) {
                            let j = choose|j: int| 0 <= j < visited@.len() && visited@[j] == v;
                            assert(j < visited@.len() - 1);
                            assert(old_visited[j] == v);
                        }
                    }
                }
            }
        }
        i += 1;
    }

    // Repeatedly visit nodes whose predecessors are all visited.
    let mut changed = true;
    while changed
        invariant
            source@.len() == n,
            mask@.len() == n,
            forall|k: int| 0 <= k < edges@.len() ==> (#[trigger] edges@[k]).0 < n,
            forall|k: int| 0 <= k < edges@.len() ==> (#[trigger] edges@[k]).1 < n,
            visited@.no_duplicates(),
            visited@.len() <= n,
            forall|j: int| 0 <= j < visited@.len() ==> #[trigger] visited@[j] < n,
            forall|v: usize| v < n ==> (mask@[v as int] <==> visited@.contains(v)),
            forall|k: int, j: int| 0 <= k < edges@.len() && 0 <= j < visited@.len()
                && #[trigger] visited@[j] == (#[trigger] edges@[k]).1
                ==> exists|m: int| 0 <= m < j && visited@[m] == edges@[k].0,
            forall|v: int| 0 <= v < n && source@[v] ==> mask@[v],
            forall|i2: int, j2: int|
                #![trigger visited@[i2], visited@[j2]]
                0 <= i2 < j2 < visited@.len() && source@[visited@[j2] as int]
                    ==> source@[visited@[i2] as int],
            !changed ==> forall|v: usize| v < n && !mask@[v as int]
                ==> exists|k: int| 0 <= k < edges@.len() && (#[trigger] edges@[k]).1 == v
                    && !mask@[edges@[k].0 as int],
            es == edges@.to_set(),
        decreases 2 * (n - visited@.len()) + (if changed { 1int } else { 0int }),
    {
        changed = false;
        let ghost len0 = visited@.len();
        let mut i: usize = 0;
        while i < n
            invariant
                i <= n,
                mask@.len() == n,
                forall|k: int| 0 <= k < edges@.len() ==> (#[trigger] edges@[k]).0 < n,
                forall|k: int| 0 <= k < edges@.len() ==> (#[trigger] edges@[k]).1 < n,
                visited@.no_duplicates(),
                visited@.len() <= n,
                forall|j: int| 0 <= j < visited@.len() ==> #[trigger] visited@[j] < n,
                forall|v: usize| v < n ==> (mask@[v as int] <==> visited@.contains(v)),
                forall|k: int, j: int| 0 <= k < edges@.len() && 0 <= j < visited@.len()
                    && #[trigger] visited@[j] == (#[trigger] edges@[k]).1
                    ==> exists|m: int| 0 <= m < j && visited@[m] == edges@[k].0,
                source@.len() == n,
                forall|v: int| 0 <= v < n && source@[v] ==> mask@[v],
                forall|i2: int, j2: int|
                    #![trigger visited@[i2], visited@[j2]]
                    0 <= i2 < j2 < visited@.len() && source@[visited@[j2] as int]
                        ==> source@[visited@[i2] as int],
                !changed ==> forall|v: usize| v < i && !mask@[v as int]
                    ==> exists|k: int| 0 <= k < edges@.len() && (#[trigger] edges@[k]).1 == v
                        && !mask@[edges@[k].0 as int],
                changed ==> visited@.len() > len0,
                visited@.len() >= len0,
            decreases n - i,
        {
            if !mask[i] {
                if all_preds_marked(i, edges, &mask) {
                    proof {
                        assert(!visited@.contains(i));
                        if visited@.len() == n {
                            lemma_full_range_contains(visited@, n);
                            assert(visited@.contains(i));
                        }
                    }
                    proof {
                        // Every source is already visited, so `i` is not one.
                        assert(!source@[i as int]);
                    }
                    let ghost old_visited = visited@;
                    let ghost old_mask = mask@;
                    visited.push(i);
                    mask[i] = true;
                    changed = true;
                    proof {
                        assert forall|i2: int, j2: int|
                            #![trigger visited@[i2], visited@[j2]]
                            0 <= i2 < j2 < visited@.len() && source@[visited@[j2] as int]
                            implies source@[visited@[i2] as int] by {
                            assert(j2 < visited@.len() - 1);
                            assert(visited@[i2] == old_visited[i2]
                                && visited@[j2] == old_visited[j2]);
                        }
                        assert forall|v: usize| v < n implies (mask@[v as int] <==> visited@.contains(v)) by {
                            if v == i {
                                assert(visited@[visited@.len() - 1] == i);
                            } else {
                                if old_visited.contains(v) {
                                    let j = choose|j: int| 0 <= j < old_visited.len() && old_visited[j] == v;
                                    assert(visited@[j] == v);
                                }
                                if visited@.contains(v) {
                                    let j = choose|j: int| 0 <= j < visited@.len() && visited@[j] == v;
                                    assert(j < visited@.len() - 1);
                                    assert(old_visited[j] == v);
                                }
                            }
                        }
                        assert forall|k: int, j: int| 0 <= k < edges@.len() && 0 <= j < visited@.len()
                            && #[trigger] visited@[j] == (#[trigger] edges@[k]).1
                            implies exists|m: int| 0 <= m < j && visited@[m] == edges@[k].0 by {
                            if j < visited@.len() - 1 {
                                assert(old_visited[j] == edges@[k].1);
                                let m = choose|m: int| 0 <= m < j && old_visited[m] == edges@[k].0;
                                assert(visited@[m] == edges@[k].0);
                            } else {
                                assert(edges@[k].1 == i);
                                let a = edges@[k].0;
                                assert(old_mask[a as int]);
                                assert(old_visited.contains(a));
                                let m = choose|m: int| 0 <= m < old_visited.len() && old_visited[m] == a;
                                assert(visited@[m] == a);
                                assert(m < visited@.len() - 1);
                            }
                        }
                    }
                }
            }
            i += 1;
        }
    }

    if visited.len() == n {
        proof {
            lemma_full_range_contains(visited@, n);
            assert forall|a: usize, b: usize| #[trigger] es.contains((a, b))
                implies edge_ordered(visited@, a, b) by {
                assert(edges@.contains((a, b)));
                let k = choose|k: int| 0 <= k < edges@.len() && edges@[k] == (a, b);
                assert(visited@.contains(b));
                let j = choose|j: int| 0 <= j < visited@.len() && visited@[j] == b;
                assert(visited@[j] == edges@[k].1);
                let m = choose|m: int| 0 <= m < j && visited@[m] == edges@[k].0;
                assert(0 <= m < j < visited@.len() && visited@[m] == a && visited@[j] == b);
            }
            lemma_order_excludes_cycle(visited@, es);
        }
        Some(visited)
    } else {
        proof {
            assert(exists|v: usize| v < n && !mask@[v as int]) by {
                if !(exists|v: usize| v < n && !mask@[v as int]) {
                    assert forall|x: usize| x < n implies visited@.contains(x) by {
                        assert(mask@[x as int]);
                    }
                    lemma_contains_range_len(visited@, n);
                }
            }
            let v0 = choose|v: usize| v < n && !mask@[v as int];
            let stuck = Set::new(|v: usize| v < n && !mask@[v as int]);
            assert(stuck.contains(v0));
            assert forall|w: usize| #[trigger] stuck.contains(w)
                implies exists|a: usize| stuck.contains(a) && es.contains((a, w)) by {
                let k = choose|k: int| 0 <= k < edges@.len() && (#[trigger] edges@[k]).1 == w
                    && !mask@[edges@[k].0 as int];
                let a = edges@[k].0;
                assert(stuck.contains(a));
                assert(edges@.contains((a, w)));
                assert(es.contains((a, w)));
            }
            lemma_stuck_has_cycle(es, n, stuck, v0);
        }
        None
    }
}

/// Marks every node reachable from `src` (and `src` itself) among `0..n`.
pub fn reachable_mask(n: usize, src: usize, edges: &Vec<(usize, usize)>) -> (mask: Vec<bool>)
    requires
        src < n,
        forall|k: int| 0 <= k < edges@.len() ==> (#[trigger] edges@[k]).0 < n,
        forall|k: int| 0 <= k < edges@.len() ==> (#[trigger] edges@[k]).1 < n,
    ensures
        mask@.len() == n,
        forall|v: usize| v < n ==> (mask@[v as int] <==> reach0(edges@.to_set(), src, v)),
{
    let ghost es = edges@.to_set();
    let mut mask: Vec<bool> = Vec::new();
    let mut i: usize = 0;
    while i < n
        invariant
            i <= n,
            mask@.len() == i,
            count_true(mask@) == 0,
            forall|v: int| 0 <= v < i ==> !mask@[v],
        decreases n - i,
    {
        let ghost old_mask = mask@;
        mask.push(false);
        proof {
            assert(mask@.drop_last() =~= old_mask);
        }
        i += 1;
    }
    let ghost pre_mask = mask@;
    mask[src] = true;
    proof {
        lemma_count_true_update_true(pre_mask, src as int);
    }

    let mut changed = true;
    while changed
        invariant
            src < n,
            mask@.len() == n,
            count_true(mask@) <= n,
            forall|k: int| 0 <= k < edges@.len() ==> (#[trigger] edges@[k]).0 < n,
            forall|k: int| 0 <= k < edges@.len() ==> (#[trigger] edges@[k]).1 < n,
            mask@[src as int],
            forall|v: usize| v < n && #[trigger] mask@[v as int] ==> reach0(es, src, v),
            !changed ==> forall|k: int| 0 <= k < edges@.len()
                && mask@[(#[trigger] edges@[k]).0 as int] ==> mask@[edges@[k].1 as int],
            es == edges@.to_set(),
        decreases n - count_true(mask@) + (if changed { 1int } else { 0int }),
    {
        changed = false;
        let ghost count0 = count_true(mask@);
        let mut k: usize = 0;
        while k < edges.len()
            invariant
                src < n,
                mask@.len() == n,
                count_true(mask@) <= n,
                k <= edges@.len(),
                forall|m: int| 0 <= m < edges@.len() ==> (#[trigger] edges@[m]).0 < n,
                forall|m: int| 0 <= m < edges@.len() ==> (#[trigger] edges@[m]).1 < n,
                mask@[src as int],
                forall|v: usize| v < n && #[trigger] mask@[v as int] ==> reach0(es, src, v),
                !changed ==> forall|m: int| 0 <= m < k
                    && mask@[(#[trigger] edges@[m]).0 as int] ==> mask@[edges@[m].1 as int],
                changed ==> count_true(mask@) > count0,
                count_true(mask@) >= count0,
                es == edges@.to_set(),
            decreases edges@.len() - k,
        {
            let (a, b) = edges[k];
            if mask[a] && !mask[b] {
                let ghost old_mask = mask@;
                mask[b] = true;
                changed = true;
                proof {
                    assert(edges@.contains((a, b))) by {
                        assert(edges@[k as int] == (a, b));
                    }
                    assert(es.contains((a, b)));
                    lemma_edge_extends_path(es, src, a, b);
                    lemma_count_true_update_true(old_mask, b as int);
                    lemma_count_true_le(old_mask);
                    lemma_count_true_lt(old_mask, b as int);
                }
            }
            k += 1;
        }
    }

    proof {
        assert forall|v: usize| v < n && reach0(es, src, v) implies mask@[v as int] by {
            if v != src {
                let r = Set::new(|w: usize| w < n && mask@[w as int]);
                let p = choose|p: Seq<usize>| is_path(p, es) && p[0] == src && p[p.len() - 1] == v;
                assert forall|x: usize, y: usize| r.contains(x) && #[trigger] es.contains((x, y))
                    implies r.contains(y) by {
                    assert(edges@.contains((x, y)));
                    let k = choose|k: int| 0 <= k < edges@.len() && edges@[k] == (x, y);
                    assert(mask@[(edges@[k]).0 as int]);
                }
                assert(r.contains(p[0]));
                lemma_path_in_closed_set(es, p, r);
                assert(r.contains(p[p.len() - 1]));
            }
        }
    }
    mask
}

} // verus!
