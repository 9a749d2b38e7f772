//! Computation schedules: orderings of update operations that respect their
//! data dependencies.

use vstd::prelude::*;
use vstd::set_lib::lemma_len_subset;

verus! {

/// Why no schedule could be built.
#[derive(Clone, Copy, Debug, PartialEq, Eq, Structural)]
pub enum ScheduleError {
    /// A dependency names a node, block or operation that does not exist.
    UnknownNode,
    /// The dependencies form a cycle that passes through no state element.
    UnresolvableCycle,
}

/// Whether `a` stands before `b` in `order`.
pub open spec fn precedes(order: Seq<usize>, a: usize, b: usize) -> bool {
    exists|i: int, j: int| 0 <= i < j < order.len() && order[i] == a && order[j] == b
}

/// Whether every edge joins two of the nodes `0 .. n`.
pub open spec fn edges_in_range(n: nat, edges: Seq<(usize, usize)>) -> bool {
    forall|k: int| 0 <= k < edges.len() ==> (#[trigger] edges[k]).0 < n && edges[k].1 < n
}

/// Whether `order` lists each node of `0 .. n` exactly once, every edge's
/// source before its target.
pub open spec fn is_topological_order(n: nat, edges: Seq<(usize, usize)>, order: Seq<usize>) -> bool {
    &&& order.len() == n
    &&& order.no_duplicates()
    &&& forall|i: int| 0 <= i < order.len() ==> #[trigger] order[i] < n
    &&& forall|k: int| 0 <= k < edges.len() ==> precedes(order, (#[trigger] edges[k]).0, edges[k].1)
}

/// Whether the graph on `0 .. n` with these edges can be scheduled at all.
pub open spec fn has_topological_order(n: nat, edges: Seq<(usize, usize)>) -> bool {
    exists|order: Seq<usize>| is_topological_order(n, edges, order)
}

/// Whether every edge into `v` starts at a node of `prefix`.
pub open spec fn ready_after(edges: Seq<(usize, usize)>, prefix: Seq<usize>, v: usize) -> bool {
    forall|k: int| 0 <= k < edges.len() && (#[trigger] edges[k]).1 == v ==> prefix.contains(edges[k].0)
}

/// Whether each node of `order` is the smallest of those not yet listed
/// whose predecessors are all listed before it.
pub open spec fn is_smallest_first(edges: Seq<(usize, usize)>, order: Seq<usize>) -> bool {
    forall|i: int, w: usize|
        0 <= i < order.len() && w < order[i] ==> order.take(i).contains(w) || !#[trigger] ready_after(
            edges,
            order.take(i),
            w,
        )
}

/// Whether every edge into `v` comes from a node already placed.
pub open spec fn is_ready(placed: Seq<bool>, edges: Seq<(usize, usize)>, v: usize) -> bool {
    forall|k: int| 0 <= k < edges.len() && (#[trigger] edges[k]).1 == v ==> placed[edges[k].0 as int]
}

fn ready(placed: &Vec<bool>, edges: &Vec<(usize, usize)>, v: usize) -> (r: bool)
    requires
        edges_in_range(placed@.len(), edges@),
    ensures
        r == is_ready(placed@, edges@, v),
{
    let mut k: usize = 0;
    while k < edges.len()
        invariant
            k <= edges.len(),
            edges_in_range(placed@.len(), edges@),
            forall|j: int| 0 <= j < k && (#[trigger] edges@[j]).1 == v ==> placed@[edges@[j].0 as int],
        decreases edges.len() - k,
    {
        let (u, w) = edges[k];
        if w == v && !placed[u] {
            return false;
        }
        k = k + 1;
    }
    true
}

/// Orders the nodes `0 .. n` so that every edge `(u, v)` has `u` before `v`.
/// Among the nodes that are ready at each point the smallest comes first, so
/// the result is fully determined by the graph.
pub fn topological_order(n: usize, edges: &Vec<(usize, usize)>) -> (r: Result<Vec<usize>, ScheduleError>)
    ensures
        r matches Ok(order) ==> is_topological_order(n as nat, edges@, order@),
        r matches Ok(order) ==> is_smallest_first(edges@, order@),
        r is Ok <==> has_topological_order(n as nat, edges@),
        r == Err::<Vec<usize>, ScheduleError>(ScheduleError::UnknownNode) <==> !edges_in_range(n as nat, edges@),
{
    let mut k: usize = 0;
    while k < edges.len()
        invariant
            k <= edges.len(),
            forall|j: int| 0 <= j < k ==> (#[trigger] edges@[j]).0 < n && edges@[j].1 < n,
        decreases edges.len() - k,
    {
        let (u, v) = edges[k];
        if u >= n || v >= n {
            proof {
                lemma_out_of_range_unschedulable(n as nat, edges@, k as int);
            }
            return Err(ScheduleError::UnknownNode);
        }
        k = k + 1;
    }
    let mut placed: Vec<bool> = Vec::new();
    let mut i: usize = 0;
    while i < n
        invariant
            i <= n,
            placed@ == Seq::new(i as nat, |_j: int| false),
        decreases n - i,
    {
        placed.push(false);
        i = i + 1;
        assert(placed@ =~= Seq::new(i as nat, |_j: int| false));
    }
    let mut order: Vec<usize> = Vec::new();
    while order.len() < n
        invariant
            edges_in_range(n as nat, edges@),
            placed@.len() == n,
            order@.len() <= n,
            order@.no_duplicates(),
            forall|j: int| 0 <= j < order@.len() ==> #[trigger] order@[j] < n,
            forall|v: int| 0 <= v < n ==> (#[trigger] placed@[v] <==> order@.contains(v as usize)),
            forall|k: int|
                0 <= k < edges@.len() && placed@[(#[trigger] edges@[k]).1 as int] ==> precedes(
                    order@,
                    edges@[k].0,
                    edges@[k].1,
                ),
            is_smallest_first(edges@, order@),
        decreases n - order@.len(),
    {
        let mut v: usize = 0;
        let mut found = false;
        while v < n && !found
            invariant
                v <= n,
                placed@.len() == n,
                edges_in_range(n as nat, edges@),
                found ==> v < n && !placed@[v as int] && is_ready(placed@, edges@, v),
                forall|w: int| 0 <= w < v ==> placed@[w] || !is_ready(placed@, edges@, w as usize),
            decreases n - v, if found { 0int } else { 1int },
        {
            if !placed[v] && ready(&placed, edges, v) {
                found = true;
            } else {
                v = v + 1;
            }
        }
        if !found {
            proof {
                lemma_stuck_unschedulable(n as nat, edges@, placed@, order@);
            }
            return Err(ScheduleError::UnresolvableCycle);
        }
        let ghost old_order = order@;
        let ghost old_placed = placed@;
        placed.set(v, true);
        order.push(v);
        proof {
            assert forall|i: int, w: usize|
                0 <= i < order@.len() && w < order@[i] implies order@.take(i).contains(w) || !#[trigger] ready_after(
                edges@,
                order@.take(i),
                w,
            ) by {
                if i < old_order.len() {
                    assert(order@.take(i) =~= old_order.take(i));
                    assert(order@[i] == old_order[i]);
                } else {
                    assert(order@.take(i) =~= old_order);
                    if !old_placed[w as int] {
                        assert(!is_ready(old_placed, edges@, w));
                        let k = choose|k: int|
                            0 <= k < edges@.len() && (#[trigger] edges@[k]).1 == w && !old_placed[edges@[k].0 as int];
                        assert(!old_order.contains(edges@[k].0));
                    } else {
                        assert(old_order.contains(w));
                    }
                }
            }
            assert forall|k: int|
                0 <= k < edges@.len() && placed@[(#[trigger] edges@[k]).1 as int] implies precedes(
                order@,
                edges@[k].0,
                edges@[k].1,
            ) by {
                let (a, b) = edges@[k];
                if b == v {
                    assert(old_order.contains(a));
                    let ia = choose|ia: int| 0 <= ia < old_order.len() && old_order[ia] == a;
                    assert(order@[ia] == a && order@[old_order.len() as int] == b);
                } else {
                    assert(old_order.contains(b));
                    let (ia, ib) = choose|ia: int, ib: int|
                        0 <= ia < ib < old_order.len() && old_order[ia] == a && old_order[ib] == b;
                    assert(order@[ia] == a && order@[ib] == b);
                }
            }
            assert forall|w: int| 0 <= w < n implies (#[trigger] placed@[w] <==> order@.contains(w as usize)) by {
                if w == v {
                    assert(order@[old_order.len() as int] == v);
                } else if old_order.contains(w as usize) {
                    let j = choose|j: int| 0 <= j < old_order.len() && old_order[j] == w as usize;
                    assert(order@[j] == w as usize);
                } else if order@.contains(w as usize) {
                    let j = choose|j: int| 0 <= j < order@.len() && order@[j] == w as usize;
                    assert(j < old_order.len());
                    assert(old_order[j] == w as usize);
                }
            }
            assert forall|a: int, b: int| 0 <= a < b < order@.len() implies order@[a] != order@[b] by {
                if b == old_order.len() {
                    assert(old_order.contains(order@[a]) ==> placed@[order@[a] as int]);
                }
            }
        }
    }
    proof {
        assert forall|k: int| 0 <= k < edges@.len() implies precedes(order@, (#[trigger] edges@[k]).0, edges@[k].1) by {
            let b = edges@[k].1;
            lemma_all_placed(n as nat, order@, b);
        }
    }
    assert(is_topological_order(n as nat, edges@, order@));
    Ok(order)
}

/// A list of `n` distinct nodes below `n` holds every node below `n`.
proof fn lemma_all_placed(n: nat, order: Seq<usize>, b: usize)
    requires
        order.len() == n,
        order.no_duplicates(),
        forall|j: int| 0 <= j < order.len() ==> #[trigger] order[j] < n,
        b < n,
    ensures
        order.contains(b),
{
    if !order.contains(b) {
        let full = Set::new(|x: usize| x < n);
        lemma_below_n_finite(n);
        assert(order.to_set().insert(b).subset_of(full));
        order.unique_seq_to_set();
        lemma_len_subset(order.to_set().insert(b), full);
    }
}

proof fn lemma_below_n_finite(n: nat)
    ensures
        Set::new(|x: usize| x < n).finite(),
        Set::new(|x: usize| x < n).len() <= n,
    decreases n,
{
    if n == 0 {
        assert(Set::new(|x: usize| x < n) =~= Set::<usize>::empty());
    } else {
        lemma_below_n_finite((n - 1) as nat);
        let smaller = Set::new(|x: usize| x < (n - 1) as nat);
        if n - 1 <= usize::MAX {
            assert(Set::new(|x: usize| x < n) =~= smaller.insert((n - 1) as usize));
        } else {
            assert(Set::new(|x: usize| x < n) =~= smaller);
        }
    }
}

/// A graph with an edge that leaves `0 .. n` has no topological order.
proof fn lemma_out_of_range_unschedulable(n: nat, edges: Seq<(usize, usize)>, k: int)
    requires
        0 <= k < edges.len(),
        edges[k].0 >= n || edges[k].1 >= n,
    ensures
        !has_topological_order(n, edges),
{
    if has_topological_order(n, edges) {
        let o = choose|o: Seq<usize>| is_topological_order(n, edges, o);
        assert(precedes(o, edges[k].0, edges[k].1));
        let (i, j) = choose|i: int, j: int| 0 <= i < j < o.len() && o[i] == edges[k].0 && o[j] == edges[k].1;
        assert(o[i] < n && o[j] < n);
    }
}

/// If every node not yet placed waits on another node not yet placed, no
/// topological order exists: the first such node in any order would have to
/// follow one of them.
proof fn lemma_stuck_unschedulable(n: nat, edges: Seq<(usize, usize)>, placed: Seq<bool>, order: Seq<usize>)
    requires
        edges_in_range(n, edges),
        placed.len() == n,
        order.len() < n,
        order.no_duplicates(),
        forall|j: int| 0 <= j < order.len() ==> #[trigger] order[j] < n,
        forall|v: int| 0 <= v < n ==> (#[trigger] placed[v] <==> order.contains(v as usize)),
        forall|w: int| 0 <= w < n ==> placed[w] || !is_ready(placed, edges, w as usize),
    ensures
        !has_topological_order(n, edges),
{
    if has_topological_order(n, edges) {
        let o = choose|o: Seq<usize>| is_topological_order(n, edges, o);
        // some node of `o` is not placed, else `order` would hold n distinct nodes
        if forall|i: int| 0 <= i < o.len() ==> placed[#[trigger] o[i] as int] {
            assert(o.to_set().subset_of(order.to_set()));
            o.unique_seq_to_set();
            order.unique_seq_to_set();
            lemma_len_subset(o.to_set(), order.to_set());
            assert(false);
        }
        let j = choose|i: int| 0 <= i < o.len() && !placed[#[trigger] o[i] as int];
        let i = lemma_first_unplaced(o, placed, j);
        let v = o[i];
        assert(!is_ready(placed, edges, v));
        let k = choose|k: int| 0 <= k < edges.len() && (#[trigger] edges[k]).1 == v && !placed[edges[k].0 as int];
        assert(precedes(o, edges[k].0, edges[k].1));
        let (a, b) = choose|a: int, b: int| 0 <= a < b < o.len() && o[a] == edges[k].0 && o[b] == edges[k].1;
        assert(b == i);
    }
}

proof fn lemma_first_unplaced(o: Seq<usize>, placed: Seq<bool>, j: int) -> (i: int)
    requires
        0 <= j < o.len(),
        forall|x: int| 0 <= x < o.len() ==> #[trigger] o[x] < placed.len(),
        !placed[o[j] as int],
    ensures
        0 <= i <= j,
        !placed[o[i] as int],
        forall|x: int| 0 <= x < i ==> placed[#[trigger] o[x] as int],
    decreases j,
{
    if forall|x: int| 0 <= x < j ==> placed[#[trigger] o[x] as int] {
        j
    } else {
        let x = choose|x: int| 0 <= x < j && !placed[#[trigger] o[x] as int];
        lemma_first_unplaced(o, placed, x)
    }
}

/// The state reached from `s` by applying `eff` for each node of `order`, in order.
pub open spec fn run<S>(order: Seq<usize>, eff: spec_fn(usize, S) -> S, s: S) -> S
    decreases order.len(),
{
    if order.len() == 0 {
        s
    } else {
        run(order.drop_first(), eff, eff(order[0], s))
    }
}

/// Whether an edge joins `a` and `b`, in either direction.
pub open spec fn linked(edges: Seq<(usize, usize)>, a: usize, b: usize) -> bool {
    exists|k: int| 0 <= k < edges.len() && (#[trigger] edges[k] == (a, b) || edges[k] == (b, a))
}

/// Whether applying two nodes with no edge between them gives the same state
/// in either order.
pub open spec fn independent_commute<S>(edges: Seq<(usize, usize)>, eff: spec_fn(usize, S) -> S) -> bool {
    forall|a: usize, b: usize, s: S|
        a != b && !linked(edges, a, b) ==> #[trigger] eff(a, eff(b, s)) == #[trigger] eff(b, eff(a, s))
}

/// Whether `order` puts the source of every edge before its target, where both occur.
pub open spec fn respects(edges: Seq<(usize, usize)>, order: Seq<usize>) -> bool {
    forall|k: int, i: int, j: int|
        0 <= k < edges.len() && 0 <= i < order.len() && 0 <= j < order.len() && #[trigger] order[i]
            == (#[trigger] edges[k]).0 && #[trigger] order[j] == edges[k].1 ==> i < j
}

/// Determinism of schedules: two topological orders of one dependency graph
/// leave the same final state, whenever operations with no dependency
/// between them commute. Ties between independent nodes may be broken either
/// way without changing the outcome.
pub proof fn lemma_schedule_deterministic<S>(
    n: nat,
    edges: Seq<(usize, usize)>,
    o1: Seq<usize>,
    o2: Seq<usize>,
    eff: spec_fn(usize, S) -> S,
    s: S,
)
    requires
        is_topological_order(n, edges, o1),
        is_topological_order(n, edges, o2),
        independent_commute(edges, eff),
    ensures
        run(o1, eff, s) == run(o2, eff, s),
{
    lemma_topological_respects(n, edges, o1);
    lemma_topological_respects(n, edges, o2);
    assert forall|x: usize| o1.contains(x) implies o2.contains(x) by {
        let i = choose|i: int| 0 <= i < o1.len() && o1[i] == x;
        lemma_all_placed(n, o2, x);
    }
    assert forall|x: usize| o2.contains(x) implies o1.contains(x) by {
        let i = choose|i: int| 0 <= i < o2.len() && o2[i] == x;
        lemma_all_placed(n, o1, x);
    }
    lemma_orders_agree(edges, o1, o2, eff, s);
}

proof fn lemma_topological_respects(n: nat, edges: Seq<(usize, usize)>, o: Seq<usize>)
    requires
        is_topological_order(n, edges, o),
    ensures
        respects(edges, o),
{
    assert forall|k: int, i: int, j: int|
        0 <= k < edges.len() && 0 <= i < o.len() && 0 <= j < o.len() && #[trigger] o[i] == (#[trigger] edges[k]).0
            && #[trigger] o[j] == edges[k].1 implies i < j by {
        assert(precedes(o, edges[k].0, edges[k].1));
        let (a, b) = choose|a: int, b: int| 0 <= a < b < o.len() && o[a] == edges[k].0 && o[b] == edges[k].1;
        assert(a == i && b == j);
    }
}

/// Two duplicate-free orders of the same nodes that both respect the edges
/// give the same run.
proof fn lemma_orders_agree<S>(
    edges: Seq<(usize, usize)>,
    o1: Seq<usize>,
    o2: Seq<usize>,
    eff: spec_fn(usize, S) -> S,
    s: S,
)
    requires
        o1.no_duplicates(),
        o2.no_duplicates(),
        forall|x: usize| o1.contains(x) <==> o2.contains(x),
        respects(edges, o1),
        respects(edges, o2),
        independent_commute(edges, eff),
    ensures
        run(o1, eff, s) == run(o2, eff, s),
    decreases o1.len(),
{
    if o1.len() == 0 {
        if o2.len() > 0 {
            assert(o2.contains(o2[0]));
        }
    } else {
        let x = o1[0];
        assert(o1.contains(x));
        let p = choose|p: int| 0 <= p < o2.len() && o2[p] == x;
        assert forall|i: int| 0 <= i < p implies #[trigger] o2[i] != x && !linked(edges, o2[i], x) by {
            let y = o2[i];
            assert(o2.contains(y));
            let q = choose|q: int| 0 <= q < o1.len() && o1[q] == y;
            if y == x {
                assert(i == p);
            } else {
                assert(q != 0);
                if linked(edges, y, x) {
                    let k = choose|k: int| 0 <= k < edges.len() && (#[trigger] edges[k] == (y, x) || edges[k] == (x, y));
                    if edges[k] == (y, x) {
                        assert(o1[q] == edges[k].0 && o1[0] == edges[k].1);
                    } else {
                        assert(o2[p] == edges[k].0 && o2[i] == edges[k].1);
                    }
                }
            }
        }
        lemma_bubble(edges, o2, p, eff, s);
        let rest2 = o2.remove(p);
        let rest1 = o1.drop_first();
        assert((seq![x] + rest2).drop_first() =~= rest2);
        assert forall|a: int, b: int| 0 <= a < b < rest2.len() implies rest2[a] != rest2[b] by {
            let a2 = if a < p { a } else { a + 1 };
            let b2 = if b < p { b } else { b + 1 };
            assert(rest2[a] == o2[a2] && rest2[b] == o2[b2]);
        }
        assert forall|a: int, b: int| 0 <= a < b < rest1.len() implies rest1[a] != rest1[b] by {
            assert(rest1[a] == o1[a + 1] && rest1[b] == o1[b + 1]);
        }
        assert forall|y: usize| rest1.contains(y) <==> rest2.contains(y) by {
            if rest1.contains(y) {
                let i = choose|i: int| 0 <= i < rest1.len() && rest1[i] == y;
                assert(o1[i + 1] == y);
                assert(o1.contains(y));
                let j = choose|j: int| 0 <= j < o2.len() && o2[j] == y;
                assert(y != x);
                assert(j != p);
                if j < p {
                    assert(rest2[j] == y);
                } else {
                    assert(rest2[j - 1] == y);
                }
            }
            if rest2.contains(y) {
                let j = choose|j: int| 0 <= j < rest2.len() && rest2[j] == y;
                let j2 = if j < p { j } else { j + 1 };
                assert(o2[j2] == y);
                assert(o2.contains(y));
                let i = choose|i: int| 0 <= i < o1.len() && o1[i] == y;
                assert(j2 != p);
                assert(i != 0);
                assert(rest1[i - 1] == y);
            }
        }
        assert forall|k: int, i: int, j: int|
            0 <= k < edges.len() && 0 <= i < rest1.len() && 0 <= j < rest1.len() && #[trigger] rest1[i]
                == (#[trigger] edges[k]).0 && #[trigger] rest1[j] == edges[k].1 implies i < j by {
            assert(o1[i + 1] == edges[k].0 && o1[j + 1] == edges[k].1);
        }
        assert forall|k: int, i: int, j: int|
            0 <= k < edges.len() && 0 <= i < rest2.len() && 0 <= j < rest2.len() && #[trigger] rest2[i]
                == (#[trigger] edges[k]).0 && #[trigger] rest2[j] == edges[k].1 implies i < j by {
            let i2 = if i < p { i } else { i + 1 };
            let j2 = if j < p { j } else { j + 1 };
            assert(o2[i2] == edges[k].0 && o2[j2] == edges[k].1);
        }
        lemma_orders_agree(edges, rest1, rest2, eff, eff(x, s));
    }
}

/// Running `a` then `b` is running their concatenation.
proof fn lemma_run_append<S>(a: Seq<usize>, b: Seq<usize>, eff: spec_fn(usize, S) -> S, s: S)
    ensures
        run(a + b, eff, s) == run(b, eff, run(a, eff, s)),
    decreases a.len(),
{
    if a.len() == 0 {
        assert(a + b =~= b);
    } else {
        assert((a + b).drop_first() =~= a.drop_first() + b);
        lemma_run_append(a.drop_first(), b, eff, eff(a[0], s));
    }
}

proof fn lemma_run_two<S>(a: usize, b: usize, eff: spec_fn(usize, S) -> S, s: S)
    ensures
        run(seq![a, b], eff, s) == eff(b, eff(a, s)),
{
    let two = seq![a, b];
    let one = seq![b];
    assert(two.drop_first() =~= one);
    assert(one.drop_first() =~= Seq::<usize>::empty());
    assert(run(one.drop_first(), eff, eff(b, eff(a, s))) == eff(b, eff(a, s)));
    assert(run(one, eff, eff(a, s)) == eff(b, eff(a, s)));
    assert(run(two, eff, s) == run(one, eff, eff(a, s)));
}

/// A node with no link to anything before it can be moved to the front.
proof fn lemma_bubble<S>(edges: Seq<(usize, usize)>, o: Seq<usize>, p: int, eff: spec_fn(usize, S) -> S, s: S)
    requires
        0 <= p < o.len(),
        forall|i: int| 0 <= i < p ==> #[trigger] o[i] != o[p] && !linked(edges, o[i], o[p]),
        independent_commute(edges, eff),
    ensures
        run(o, eff, s) == run(seq![o[p]] + o.remove(p), eff, s),
    decreases p,
{
    if p == 0 {
        assert(o =~= seq![o[0]] + o.remove(0));
    } else {
        let x = o[p];
        let y = o[p - 1];
        let head = o.take(p - 1);
        let tail = o.skip(p + 1);
        let swapped = head + seq![x, y] + tail;
        assert(o =~= head + seq![y, x] + tail);
        lemma_run_append(head + seq![y, x], tail, eff, s);
        lemma_run_append(head, seq![y, x], eff, s);
        lemma_run_append(head + seq![x, y], tail, eff, s);
        lemma_run_append(head, seq![x, y], eff, s);
        let mid = run(head, eff, s);
        lemma_run_two(y, x, eff, mid);
        lemma_run_two(x, y, eff, mid);
        assert(eff(x, eff(y, mid)) == eff(y, eff(x, mid)));
        assert(run(o, eff, s) == run(swapped, eff, s));
        assert(swapped[p - 1] == x);
        assert forall|i: int| 0 <= i < p - 1 implies #[trigger] swapped[i] != swapped[p - 1] && !linked(
            edges,
            swapped[i],
            swapped[p - 1],
        ) by {
            assert(swapped[i] == o[i]);
        }
        lemma_bubble(edges, swapped, p - 1, eff, s);
        assert(swapped.remove(p - 1) =~= o.remove(p));
    }
}

/// What kind of state a block carries.
#[derive(Clone, Copy, Debug, PartialEq, Eq, Structural)]
pub enum StateKind {
    /// No state: the block's state update is a no-op.
    Stateless,
    /// A continuous state: the state update writes only the derivative, and
    /// the output update reads the value as it was before integration.
    Continuous,
    /// A discrete state: the state update writes the new value in place, and
    /// the block's own output update must see it.
    Discrete,
}

/// The two update operations of a block.
#[derive(Clone, Copy, Debug, PartialEq, Eq, Structural)]
pub enum UpdateKind {
    State,
    Output,
}

/// One entry of a schedule: an update operation of one block.
#[derive(Clone, Copy, Debug, PartialEq, Eq, Structural)]
pub struct Operation {
    pub block: usize,
    pub kind: UpdateKind,
}

/// A wire from an output of block `producer` to an input of block
/// `consumer`, with which of the consumer's updates read that input.
#[derive(Clone, Copy, Debug, PartialEq, Eq, Structural)]
pub struct Connection {
    pub producer: usize,
    pub consumer: usize,
    pub to_state: bool,
    pub to_output: bool,
}

/// Whether update `b` must run after update `a` within one step: a discrete
/// block's output follows its state update, and an update that reads a wired
/// input follows the producer's output update. A continuous state breaks the
/// chain: its output reads the value from before this step's integration.
pub open spec fn is_dependency(blocks: Seq<StateKind>, wires: Seq<Connection>, a: Operation, b: Operation) -> bool {
    ||| (a.block == b.block && a.block < blocks.len() && a.kind == UpdateKind::State && b.kind == UpdateKind::Output
        && blocks[a.block as int] == StateKind::Discrete)
    ||| exists|k: int|
        0 <= k < wires.len() && a.kind == UpdateKind::Output && (#[trigger] wires[k]).producer == a.block
            && wires[k].consumer == b.block && (if b.kind == UpdateKind::State {
            wires[k].to_state
        } else {
            wires[k].to_output
        })
}

/// Whether `a` stands before `b` in `ops`.
pub open spec fn runs_before(ops: Seq<Operation>, a: Operation, b: Operation) -> bool {
    exists|i: int, j: int| 0 <= i < j < ops.len() && ops[i] == a && ops[j] == b
}

/// Whether `ops` holds both updates of every block exactly once, each after
/// every update it depends on.
pub open spec fn is_valid_schedule(blocks: Seq<StateKind>, wires: Seq<Connection>, ops: Seq<Operation>) -> bool {
    &&& ops.len() == 2 * blocks.len()
    &&& ops.no_duplicates()
    &&& forall|i: int| 0 <= i < ops.len() ==> (#[trigger] ops[i]).block < blocks.len()
    &&& forall|a: Operation, b: Operation|
        #[trigger] is_dependency(blocks, wires, a, b) ==> runs_before(ops, a, b)
}

/// Whether every wire joins two existing blocks.
pub open spec fn wires_in_range(blocks: Seq<StateKind>, wires: Seq<Connection>) -> bool {
    forall|k: int|
        0 <= k < wires.len() ==> (#[trigger] wires[k]).producer < blocks.len() && wires[k].consumer < blocks.len()
}

/// The graph node of an operation: `2 * block` for its state update, one more for its output update.
pub open spec fn node_of(op: Operation) -> int {
    2 * op.block + if op.kind == UpdateKind::Output { 1int } else { 0int }
}

/// The operation of a graph node.
pub open spec fn op_of(x: int) -> Operation {
    Operation { block: (x / 2) as usize, kind: if x % 2 == 1 { UpdateKind::Output } else { UpdateKind::State } }
}

proof fn lemma_node_op(op: Operation, x: int)
    requires
        0 <= x <= usize::MAX,
    ensures
        op_of(node_of(op)) == op,
        node_of(op_of(x)) == x,
        node_of(op) >= 0,
{
}

/// The dependency graph of a wiring, on nodes `0 .. 2 * blocks.len()`.
fn dependency_edges(blocks: &Vec<StateKind>, wires: &Vec<Connection>) -> (r: Vec<(usize, usize)>)
    requires
        wires_in_range(blocks@, wires@),
        2 * blocks@.len() + 1 <= usize::MAX,
    ensures
        edges_in_range(2 * blocks@.len(), r@),
        forall|k: int| 0 <= k < r@.len() ==> is_dependency(blocks@, wires@, op_of((#[trigger] r@[k]).0 as int), op_of(r@[k].1 as int)),
        forall|a: Operation, b: Operation|
            #[trigger] is_dependency(blocks@, wires@, a, b) ==> r@.contains((node_of(a) as usize, node_of(b) as usize)),
{
    let mut r: Vec<(usize, usize)> = Vec::new();
    let mut b: usize = 0;
    while b < blocks.len()
        invariant
            b <= blocks.len(),
            2 * blocks@.len() + 1 <= usize::MAX,
            edges_in_range(2 * blocks@.len(), r@),
            forall|k: int| 0 <= k < r@.len() ==> is_dependency(blocks@, wires@, op_of((#[trigger] r@[k]).0 as int), op_of(r@[k].1 as int)),
            forall|c: int| 0 <= c < b && blocks@[c] == StateKind::Discrete ==> r@.contains(((2 * c) as usize, (2 * c + 1) as usize)),
        decreases blocks.len() - b,
    {
        let ghost before = r@;
        if blocks[b] == StateKind::Discrete {
            r.push((2 * b, 2 * b + 1));
            proof {
                assert(r@[r@.len() - 1] == ((2 * b) as usize, (2 * b + 1) as usize));
                assert(op_of(2 * b as int) == Operation { block: b, kind: UpdateKind::State });
                assert(op_of(2 * b + 1) == Operation { block: b, kind: UpdateKind::Output });
            }
        }
        proof {
            assert forall|c: int| 0 <= c <= b && blocks@[c] == StateKind::Discrete implies r@.contains(((2 * c) as usize, (2 * c + 1) as usize)) by {
                if c < b {
                    let k = choose|k: int| 0 <= k < before.len() && before[k] == ((2 * c) as usize, (2 * c + 1) as usize);
                    assert(r@[k] == ((2 * c) as usize, (2 * c + 1) as usize));
                } else {
                    assert(r@[r@.len() - 1] == ((2 * b) as usize, (2 * b + 1) as usize));
                }
            }
        }
        b = b + 1;
    }
    let mut w: usize = 0;
    while w < wires.len()
        invariant
            w <= wires.len(),
            wires_in_range(blocks@, wires@),
            2 * blocks@.len() + 1 <= usize::MAX,
            edges_in_range(2 * blocks@.len(), r@),
            forall|k: int| 0 <= k < r@.len() ==> is_dependency(blocks@, wires@, op_of((#[trigger] r@[k]).0 as int), op_of(r@[k].1 as int)),
            forall|c: int| 0 <= c < blocks@.len() && blocks@[c] == StateKind::Discrete ==> r@.contains(((2 * c) as usize, (2 * c + 1) as usize)),
            forall|k: int| 0 <= k < w && (#[trigger] wires@[k]).to_state ==> r@.contains(((2 * wires@[k].producer + 1) as usize, (2 * wires@[k].consumer) as usize)),
            forall|k: int| 0 <= k < w && (#[trigger] wires@[k]).to_output ==> r@.contains(((2 * wires@[k].producer + 1) as usize, (2 * wires@[k].consumer + 1) as usize)),
        decreases wires.len() - w,
    {
        let c = wires[w];
        let ghost before = r@;
        if c.to_state {
            r.push((2 * c.producer + 1, 2 * c.consumer));
            proof {
                assert(op_of(2 * c.producer + 1) == Operation { block: c.producer, kind: UpdateKind::Output });
                assert(op_of(2 * c.consumer as int) == Operation { block: c.consumer, kind: UpdateKind::State });
                assert(wires@[w as int] == c);
            }
        }
        let ghost mid = r@;
        if c.to_output {
            r.push((2 * c.producer + 1, 2 * c.consumer + 1));
            proof {
                assert(op_of(2 * c.producer + 1) == Operation { block: c.producer, kind: UpdateKind::Output });
                assert(op_of(2 * c.consumer + 1) == Operation { block: c.consumer, kind: UpdateKind::Output });
                assert(wires@[w as int] == c);
            }
        }
        proof {
            assert forall|e: (usize, usize)| before.contains(e) implies r@.contains(e) by {
                let k = choose|k: int| 0 <= k < before.len() && before[k] == e;
                assert(r@[k] == e);
            }
            if c.to_state {
                assert(mid[mid.len() - 1] == ((2 * c.producer + 1) as usize, (2 * c.consumer) as usize));
                assert(r@[mid.len() - 1] == mid[mid.len() - 1]);
            }
            if c.to_output {
                assert(r@[r@.len() - 1] == ((2 * c.producer + 1) as usize, (2 * c.consumer + 1) as usize));
            }
        }
        w = w + 1;
    }
    proof {
        assert forall|a: Operation, b: Operation|
            #[trigger] is_dependency(blocks@, wires@, a, b) implies r@.contains((node_of(a) as usize, node_of(b) as usize)) by {
            if a.block == b.block && a.block < blocks@.len() && a.kind == UpdateKind::State && b.kind == UpdateKind::Output
                && blocks@[a.block as int] == StateKind::Discrete {
                assert(r@.contains(((2 * a.block) as usize, (2 * a.block + 1) as usize)));
            } else {
                let k = choose|k: int|
                    0 <= k < wires@.len() && a.kind == UpdateKind::Output && (#[trigger] wires@[k]).producer == a.block
                        && wires@[k].consumer == b.block && (if b.kind == UpdateKind::State {
                        wires@[k].to_state
                    } else {
                        wires@[k].to_output
                    });
            }
        }
    }
    r
}

/// Orders the updates of all blocks for one step so that each runs after
/// every update it depends on. Refuses wires that name a missing block, and
/// dependencies that close a loop through no state element.
/// `blocks[b]` is the state kind of block `b`.
pub fn schedule(blocks: &Vec<StateKind>, wires: &Vec<Connection>) -> (r: Result<Vec<Operation>, ScheduleError>)
    requires
        2 * blocks@.len() + 1 <= usize::MAX,
    ensures
        r matches Ok(ops) ==> is_valid_schedule(blocks@, wires@, ops@),
        r is Ok <==> wires_in_range(blocks@, wires@) && exists|ops: Seq<Operation>|
            is_valid_schedule(blocks@, wires@, ops),
        r == Err::<Vec<Operation>, ScheduleError>(ScheduleError::UnknownNode) <==> !wires_in_range(blocks@, wires@),
{
    let mut w: usize = 0;
    while w < wires.len()
        invariant
            w <= wires.len(),
            forall|k: int| 0 <= k < w ==> (#[trigger] wires@[k]).producer < blocks@.len() && wires@[k].consumer < blocks@.len(),
        decreases wires.len() - w,
    {
        if wires[w].producer >= blocks.len() || wires[w].consumer >= blocks.len() {
            return Err(ScheduleError::UnknownNode);
        }
        w = w + 1;
    }
    let edges = dependency_edges(blocks, wires);
    let n = 2 * blocks.len();
    match topological_order(n, &edges) {
        Err(_) => {
            proof {
                if exists|ops: Seq<Operation>| is_valid_schedule(blocks@, wires@, ops) {
                    let ops = choose|ops: Seq<Operation>| is_valid_schedule(blocks@, wires@, ops);
                    lemma_schedule_gives_order(blocks@, wires@, edges@, ops);
                }
            }
            Err(ScheduleError::UnresolvableCycle)
        },
        Ok(order) => {
            let mut ops: Vec<Operation> = Vec::new();
            let mut i: usize = 0;
            while i < order.len()
                invariant
                    i <= order@.len(),
                    ops@.len() == i,
                    forall|j: int| 0 <= j < i ==> #[trigger] ops@[j] == op_of(order@[j] as int),
                decreases order.len() - i,
            {
                let x = order[i];
                let kind = if x % 2 == 1 { UpdateKind::Output } else { UpdateKind::State };
                ops.push(Operation { block: x / 2, kind });
                i = i + 1;
            }
            proof {
                assert forall|a: int, b: int| 0 <= a < b < ops@.len() implies ops@[a] != ops@[b] by {
                    lemma_node_op(ops@[a], order@[a] as int);
                    lemma_node_op(ops@[b], order@[b] as int);
                }
                assert forall|j: int| 0 <= j < ops@.len() implies (#[trigger] ops@[j]).block < blocks@.len() by {
                    assert(order@[j] < n);
                }
                assert forall|a: Operation, b: Operation|
                    #[trigger] is_dependency(blocks@, wires@, a, b) implies runs_before(ops@, a, b) by {
                    let e = (node_of(a) as usize, node_of(b) as usize);
                    let k = choose|k: int| 0 <= k < edges@.len() && edges@[k] == e;
                    assert(precedes(order@, edges@[k].0, edges@[k].1));
                    let (x, y) = choose|x: int, y: int|
                        0 <= x < y < order@.len() && order@[x] == edges@[k].0 && order@[y] == edges@[k].1;
                    lemma_node_op(a, 0);
                    lemma_node_op(b, 0);
                    assert(ops@[x] == a && ops@[y] == b);
                }
                assert(is_valid_schedule(blocks@, wires@, ops@));
            }
            Ok(ops)
        },
    }
}

/// Whether an operation does any work: every output update does, and the
/// state update of a block that has state.
pub open spec fn is_active(blocks: Seq<StateKind>, op: Operation) -> bool {
    op.kind == UpdateKind::Output || (op.block < blocks.len() && blocks[op.block as int] != StateKind::Stateless)
}

/// The schedule without the state updates of stateless blocks, which are
/// no-ops; the order of the rest is kept.
pub fn without_noops(blocks: &Vec<StateKind>, ops: &Vec<Operation>) -> (r: Vec<Operation>)
    ensures
        r@ == ops@.filter(|op: Operation| is_active(blocks@, op)),
{
    let ghost pred = |op: Operation| is_active(blocks@, op);
    let mut r: Vec<Operation> = Vec::new();
    let mut i: usize = 0;
    while i < ops.len()
        invariant
            i <= ops.len(),
            pred == (|op: Operation| is_active(blocks@, op)),
            r@ == ops@.take(i as int).filter(pred),
        decreases ops.len() - i,
    {
        let op = ops[i];
        let active = match op.kind {
            UpdateKind::Output => true,
            UpdateKind::State => op.block < blocks.len() && blocks[op.block] != StateKind::Stateless,
        };
        proof {
            assert(ops@.take(i as int + 1).drop_last() == ops@.take(i as int));
            reveal(Seq::filter);
        }
        if active {
            r.push(op);
        }
        i = i + 1;
    }
    assert(ops@.take(ops.len() as int) == ops@);
    r
}

/// A valid schedule, read as graph nodes, is a topological order of the dependency graph.
proof fn lemma_schedule_gives_order(
    blocks: Seq<StateKind>,
    wires: Seq<Connection>,
    edges: Seq<(usize, usize)>,
    ops: Seq<Operation>,
)
    requires
        is_valid_schedule(blocks, wires, ops),
        2 * blocks.len() + 1 <= usize::MAX,
        forall|k: int| 0 <= k < edges.len() ==> is_dependency(blocks, wires, op_of((#[trigger] edges[k]).0 as int), op_of(edges[k].1 as int)),
    ensures
        has_topological_order(2 * blocks.len(), edges),
{
    let order = Seq::new(ops.len(), |i: int| node_of(ops[i]) as usize);
    assert forall|a: int, b: int| 0 <= a < b < order.len() implies order[a] != order[b] by {
        lemma_node_op(ops[a], 0);
        lemma_node_op(ops[b], 0);
    }
    assert forall|i: int| 0 <= i < order.len() implies #[trigger] order[i] < 2 * blocks.len() by {
        assert(ops[i].block < blocks.len());
    }
    assert forall|k: int| 0 <= k < edges.len() implies precedes(order, (#[trigger] edges[k]).0, edges[k].1) by {
        let a = op_of(edges[k].0 as int);
        let b = op_of(edges[k].1 as int);
        assert(is_dependency(blocks, wires, a, b));
        let (i, j) = choose|i: int, j: int| 0 <= i < j < ops.len() && ops[i] == a && ops[j] == b;
        lemma_node_op(a, edges[k].0 as int);
        lemma_node_op(b, edges[k].1 as int);
        assert(order[i] == edges[k].0 && order[j] == edges[k].1);
    }
    assert(is_topological_order(2 * blocks.len(), edges, order));
}

} // verus!
