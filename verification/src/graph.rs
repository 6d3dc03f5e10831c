//! Kahn's ordering of a dependency graph: nodes `0..n`, of which those marked in `scope`
//! take part, `adj[s]` listing (with repetitions) the nodes that `s` depends on.

use vstd::prelude::*;
use vstd::set_lib::{lemma_int_range, lemma_len_subset, lemma_subset_equality, set_int_range};
use std::collections::VecDeque;

verus! {

/// How often `x` occurs in `l`.
pub open spec fn count_of(l: Seq<int>, x: int) -> nat
    decreases l.len(),
{
    if l.len() == 0 {
        0
    } else {
        count_of(l.drop_last(), x) + (if l.last() == x { 1nat } else { 0nat })
    }
}

/// How many entries of `l` are not in `done`.
pub open spec fn remaining(l: Seq<int>, done: Seq<int>) -> nat
    decreases l.len(),
{
    if l.len() == 0 {
        0
    } else {
        remaining(l.drop_last(), done) + (if done.contains(l.last()) { 0nat } else { 1nat })
    }
}

/// The numbers below `k` that satisfy `pred`, in increasing order.
pub open spec fn ascending_where(k: int, pred: spec_fn(int) -> bool) -> Seq<int>
    decreases k,
{
    if k <= 0 {
        Seq::empty()
    } else {
        let prev = ascending_where(k - 1, pred);
        if pred(k - 1) {
            prev.push(k - 1)
        } else {
            prev
        }
    }
}

/// The nodes that take part.
pub open spec fn members(scope: Seq<bool>) -> Set<int> {
    Set::new(|i: int| 0 <= i < scope.len() && scope[i])
}

/// Each node that takes part depends only on nodes that take part.
pub open spec fn graph_closed(scope: Seq<bool>, adj: Seq<Seq<int>>) -> bool {
    &&& adj.len() == scope.len()
    &&& forall|s: int, j: int|
        0 <= s < scope.len() && scope[s] && 0 <= j < adj[s].len() ==> 0 <= #[trigger] adj[s][j] < scope.len()
            && scope[adj[s][j]]
}

/// Every dependency of each node of `order` comes earlier in `order`.
pub open spec fn is_topological(order: Seq<int>, adj: Seq<Seq<int>>) -> bool {
    forall|k: int, j: int|
        0 <= k < order.len() && 0 <= j < adj[order[k]].len() ==> exists|m: int|
            0 <= m < k && order[m] == #[trigger] adj[order[k]][j]
}

/// A nonempty group of nodes that take part, in which each node depends on another node of
/// the group.
pub open spec fn is_cyclic_group(scope: Seq<bool>, adj: Seq<Seq<int>>, group: Set<int>) -> bool {
    &&& exists|i: int| group.contains(i)
    &&& forall|i: int|
        #[trigger] group.contains(i) ==> 0 <= i < scope.len() && scope[i] && exists|j: int|
            0 <= j < adj[i].len() && group.contains(#[trigger] adj[i][j])
}

/// The dependencies loop: some group of the nodes that take part is cyclic (it is finite, so
/// following dependencies inside it comes back to a node already met).
pub open spec fn has_cycle(scope: Seq<bool>, adj: Seq<Seq<int>>) -> bool {
    exists|group: Set<int>| #[trigger] is_cyclic_group(scope, adj, group)
}

/// The state of Kahn's algorithm: the nodes put in order, the queue of nodes whose
/// dependencies are all in order, and how many dependencies of each node are still pending.
pub struct KahnState {
    pub order: Seq<int>,
    pub queue: Seq<int>,
    pub pending: Seq<int>,
}

/// Before the first step: the queue holds the nodes without dependencies, in increasing order.
pub open spec fn kahn_start(scope: Seq<bool>, adj: Seq<Seq<int>>) -> KahnState {
    KahnState {
        order: Seq::empty(),
        queue: ascending_where(scope.len() as int, |s: int| scope[s] && adj[s].len() == 0),
        pending: Seq::new(scope.len(), |s: int| if scope[s] { adj[s].len() as int } else { 0 }),
    }
}

/// One step: the first node of the queue goes into the order; each node loses the
/// dependencies on it that it has, and those that so lose their last pending dependency join
/// the queue, in increasing order.
pub open spec fn kahn_step(scope: Seq<bool>, adj: Seq<Seq<int>>, st: KahnState) -> KahnState {
    if st.queue.len() == 0 {
        st
    } else {
        let c = st.queue[0];
        let pending = Seq::new(
            st.pending.len(),
            |s: int| if scope[s] { st.pending[s] - count_of(adj[s], c) } else { st.pending[s] },
        );
        let freed = ascending_where(
            scope.len() as int,
            |s: int| scope[s] && count_of(adj[s], c) > 0 && pending[s] == 0,
        );
        KahnState { order: st.order.push(c), queue: st.queue.drop_first() + freed, pending }
    }
}

/// The state after `k` steps.
pub open spec fn kahn_run(scope: Seq<bool>, adj: Seq<Seq<int>>, k: nat) -> KahnState
    decreases k,
{
    if k == 0 {
        kahn_start(scope, adj)
    } else {
        kahn_step(scope, adj, kahn_run(scope, adj, (k - 1) as nat))
    }
}

/// The order Kahn's algorithm gives: that of the state after as many steps as there are nodes.
pub open spec fn kahn_order(scope: Seq<bool>, adj: Seq<Seq<int>>) -> Seq<int> {
    kahn_run(scope, adj, scope.len()).order
}

// ---------------------------------------------------------------------------------------------
// Lemmas on counting
// ---------------------------------------------------------------------------------------------

pub proof fn lemma_count_positive(l: Seq<int>, x: int)
    ensures
        count_of(l, x) > 0 <==> l.contains(x),
    decreases l.len(),
{
    if l.len() > 0 {
        lemma_count_positive(l.drop_last(), x);
        if l.drop_last().contains(x) {
            let i = choose|i: int| 0 <= i < l.drop_last().len() && l.drop_last()[i] == x;
            assert(l[i] == x);
        }
        if l.contains(x) && l.last() != x {
            let i = choose|i: int| 0 <= i < l.len() && l[i] == x;
            assert(l.drop_last()[i] == x);
        }
    }
}

pub proof fn lemma_remaining_push(l: Seq<int>, done: Seq<int>, c: int)
    requires
        !done.contains(c),
    ensures
        remaining(l, done.push(c)) + count_of(l, c) == remaining(l, done),
    decreases l.len(),
{
    if l.len() > 0 {
        lemma_remaining_push(l.drop_last(), done, c);
        let x = l.last();
        if x == c {
            assert(done.push(c)[done.len() as int] == c);
        } else {
            if done.push(c).contains(x) {
                let i = choose|i: int| 0 <= i < done.push(c).len() && done.push(c)[i] == x;
                assert(done[i] == x);
            }
            if done.contains(x) {
                let i = choose|i: int| 0 <= i < done.len() && done[i] == x;
                assert(done.push(c)[i] == x);
            }
        }
    }
}

pub proof fn lemma_remaining_zero(l: Seq<int>, done: Seq<int>)
    ensures
        remaining(l, done) == 0 <==> forall|j: int| 0 <= j < l.len() ==> done.contains(#[trigger] l[j]),
    decreases l.len(),
{
    if l.len() > 0 {
        lemma_remaining_zero(l.drop_last(), done);
        if remaining(l, done) == 0 {
            assert forall|j: int| 0 <= j < l.len() implies done.contains(#[trigger] l[j]) by {
                if j < l.len() - 1 {
                    assert(l.drop_last()[j] == l[j]);
                }
            }
        }
        if forall|j: int| 0 <= j < l.len() ==> done.contains(#[trigger] l[j]) {
            assert forall|j: int| 0 <= j < l.drop_last().len() implies done.contains(#[trigger] l.drop_last()[j]) by {
                assert(l.drop_last()[j] == l[j]);
            }
            assert(done.contains(l[l.len() - 1]));
        }
    }
}

pub proof fn lemma_remaining_empty(l: Seq<int>)
    ensures
        remaining(l, Seq::empty()) == l.len(),
    decreases l.len(),
{
    if l.len() > 0 {
        lemma_remaining_empty(l.drop_last());
    }
}

pub proof fn lemma_ascending(k: int, pred: spec_fn(int) -> bool)
    ensures
        forall|i: int| 0 <= i < ascending_where(k, pred).len() ==> 0 <= #[trigger] ascending_where(k, pred)[i] < k
            && pred(ascending_where(k, pred)[i]),
        forall|i: int, j: int|
            0 <= i < j < ascending_where(k, pred).len() ==> #[trigger] ascending_where(k, pred)[i]
                < #[trigger] ascending_where(k, pred)[j],
        forall|x: int| 0 <= x < k && pred(x) ==> #[trigger] ascending_where(k, pred).contains(x),
        ascending_where(k, pred).no_duplicates(),
    decreases k,
{
    if k > 0 {
        lemma_ascending(k - 1, pred);
        let prev = ascending_where(k - 1, pred);
        let cur = ascending_where(k, pred);
        assert forall|x: int| 0 <= x < k && pred(x) implies #[trigger] cur.contains(x) by {
            if x < k - 1 {
                assert(prev.contains(x));
                let i = choose|i: int| 0 <= i < prev.len() && prev[i] == x;
                assert(cur[i] == x);
            } else {
                assert(cur[cur.len() - 1] == x);
            }
        }
    }
    let cur = ascending_where(k, pred);
    assert forall|i: int, j: int| 0 <= i < cur.len() && 0 <= j < cur.len() && i != j implies cur[i] != cur[j] by {
        if i < j {
            assert(cur[i] < cur[j]);
        } else {
            assert(cur[j] < cur[i]);
        }
    }
}

/// A sequence of distinct numbers below `n` has at most `n` entries; with exactly `n` it holds
/// each of them.
pub proof fn lemma_distinct_below(s: Seq<int>, n: int)
    requires
        0 <= n,
        s.no_duplicates(),
        forall|i: int| 0 <= i < s.len() ==> 0 <= #[trigger] s[i] < n,
    ensures
        s.len() <= n,
        s.len() == n ==> forall|x: int| 0 <= x < n ==> #[trigger] s.contains(x),
{
    lemma_int_range(0, n);
    s.unique_seq_to_set();
    assert(s.to_set().subset_of(set_int_range(0, n)));
    lemma_len_subset(s.to_set(), set_int_range(0, n));
    if s.len() == n {
        lemma_subset_equality(s.to_set(), set_int_range(0, n));
        assert forall|x: int| 0 <= x < n implies #[trigger] s.contains(x) by {
            assert(set_int_range(0, n).contains(x));
            assert(s.to_set().contains(x));
        }
    }
}

// ---------------------------------------------------------------------------------------------
// What every state of the algorithm keeps
// ---------------------------------------------------------------------------------------------

/// What each state of Kahn's algorithm keeps: order and queue hold distinct nodes that take
/// part, none in both; each node's pending count is the number of its dependencies not yet in
/// order; a node is in order or queued exactly when none is pending; the order is topological.
pub open spec fn kahn_inv(scope: Seq<bool>, adj: Seq<Seq<int>>, st: KahnState) -> bool {
    let n = scope.len();
    &&& st.pending.len() == n
    &&& st.order.no_duplicates()
    &&& st.queue.no_duplicates()
    &&& forall|i: int|
        0 <= i < st.order.len() ==> 0 <= #[trigger] st.order[i] < n && scope[st.order[i]]
            && !st.queue.contains(st.order[i])
    &&& forall|i: int| 0 <= i < st.queue.len() ==> 0 <= #[trigger] st.queue[i] < n && scope[st.queue[i]]
    &&& forall|s: int| 0 <= s < n && scope[s] ==> #[trigger] st.pending[s] == remaining(adj[s], st.order) as int
    &&& forall|s: int|
        0 <= s < n && scope[s] ==> ((st.order.contains(s) || st.queue.contains(s)) <==> #[trigger] st.pending[s]
            == 0)
    &&& is_topological(st.order, adj)
}

pub proof fn lemma_kahn_start(scope: Seq<bool>, adj: Seq<Seq<int>>)
    requires
        graph_closed(scope, adj),
    ensures
        kahn_inv(scope, adj, kahn_start(scope, adj)),
{
    let st = kahn_start(scope, adj);
    let pred = |s: int| scope[s] && adj[s].len() == 0;
    lemma_ascending(scope.len() as int, pred);
    assert forall|s: int| 0 <= s < scope.len() && scope[s] implies #[trigger] st.pending[s] == remaining(
        adj[s],
        st.order,
    ) as int by {
        lemma_remaining_empty(adj[s]);
    }
    assert forall|s: int| 0 <= s < scope.len() && scope[s] implies ((st.order.contains(s) || st.queue.contains(s))
        <==> #[trigger] st.pending[s] == 0) by {
        if st.queue.contains(s) {
            let i = choose|i: int| 0 <= i < st.queue.len() && st.queue[i] == s;
            assert(pred(st.queue[i]));
        }
        if st.pending[s] == 0 {
            assert(pred(s));
        }
    }
}

pub proof fn lemma_kahn_step(scope: Seq<bool>, adj: Seq<Seq<int>>, st: KahnState)
    requires
        graph_closed(scope, adj),
        kahn_inv(scope, adj, st),
    ensures
        kahn_inv(scope, adj, kahn_step(scope, adj, st)),
        st.queue.len() > 0 ==> kahn_step(scope, adj, st).order.len() == st.order.len() + 1,
        st.queue.len() == 0 ==> kahn_step(scope, adj, st) == st,
{
    if st.queue.len() > 0 {
        let n = scope.len();
        let c = st.queue[0];
        let nx = kahn_step(scope, adj, st);
        let pending = nx.pending;
        let pred = |s: int| scope[s] && count_of(adj[s], c) > 0 && pending[s] == 0;
        let freed = ascending_where(n as int, pred);
        assert(nx.queue == st.queue.drop_first() + freed);
        lemma_ascending(n as int, pred);
        assert(st.queue.contains(c));
        assert(!st.order.contains(c)) by {
            if st.order.contains(c) {
                let i = choose|i: int| 0 <= i < st.order.len() && st.order[i] == c;
                assert(!st.queue.contains(st.order[i]));
            }
        }
        assert(st.pending[c] == 0);
        lemma_remaining_zero(adj[c], st.order);
        // pending counts after the step
        assert forall|s: int| 0 <= s < n && scope[s] implies #[trigger] pending[s] == remaining(adj[s], nx.order) as int by {
            lemma_remaining_push(adj[s], st.order, c);
        }
        // a node that depends on `c` still had something pending
        assert forall|s: int| 0 <= s < n && scope[s] && count_of(adj[s], c) > 0 implies st.pending[s] > 0
            && !st.order.contains(s) && !st.queue.contains(s) by {
            lemma_remaining_push(adj[s], st.order, c);
        }
        // freed nodes are new
        assert forall|i: int| 0 <= i < freed.len() implies !st.order.contains(#[trigger] freed[i])
            && !st.queue.contains(freed[i]) && freed[i] != c by {
            assert(pred(freed[i]));
        }
        // the order stays without repetition
        assert(nx.order.no_duplicates()) by {
            assert forall|i: int, j: int| 0 <= i < nx.order.len() && 0 <= j < nx.order.len() && i != j
                implies nx.order[i] != nx.order[j] by {
                if i == st.order.len() {
                    assert(st.order.contains(nx.order[j]) || j == i);
                } else if j == st.order.len() {
                    assert(st.order.contains(nx.order[i]));
                }
            }
        }
        let rest = st.queue.drop_first();
        assert(nx.queue.no_duplicates()) by {
            assert forall|i: int, j: int| 0 <= i < nx.queue.len() && 0 <= j < nx.queue.len() && i != j
                implies nx.queue[i] != nx.queue[j] by {
                if i < rest.len() && j < rest.len() {
                    assert(nx.queue[i] == st.queue[i + 1]);
                    assert(nx.queue[j] == st.queue[j + 1]);
                } else if i >= rest.len() && j >= rest.len() {
                    assert(nx.queue[i] == freed[i - rest.len()]);
                    assert(nx.queue[j] == freed[j - rest.len()]);
                } else if i < rest.len() {
                    assert(nx.queue[j] == freed[j - rest.len()]);
                    assert(st.queue.contains(nx.queue[i]));
                } else {
                    assert(nx.queue[i] == freed[i - rest.len()]);
                    assert(st.queue.contains(nx.queue[j]));
                }
            }
        }
        // membership in the new queue
        assert forall|x: int| #[trigger] nx.queue.contains(x) <==> (rest.contains(x) || freed.contains(x)) by {
            if nx.queue.contains(x) {
                let i = choose|i: int| 0 <= i < nx.queue.len() && nx.queue[i] == x;
                if i < rest.len() {
                    assert(rest[i] == x);
                } else {
                    assert(freed[i - rest.len()] == x);
                }
            }
            if rest.contains(x) {
                let i = choose|i: int| 0 <= i < rest.len() && rest[i] == x;
                assert(nx.queue[i] == x);
            }
            if freed.contains(x) {
                let i = choose|i: int| 0 <= i < freed.len() && freed[i] == x;
                assert(nx.queue[i + rest.len()] == x);
            }
        }
        assert forall|x: int| #[trigger] rest.contains(x) <==> (st.queue.contains(x) && x != c) by {
            if rest.contains(x) {
                let i = choose|i: int| 0 <= i < rest.len() && rest[i] == x;
                assert(st.queue[i + 1] == x);
            }
            if st.queue.contains(x) && x != c {
                let i = choose|i: int| 0 <= i < st.queue.len() && st.queue[i] == x;
                assert(rest[i - 1] == x);
            }
        }
        assert forall|x: int| #[trigger] nx.order.contains(x) <==> (st.order.contains(x) || x == c) by {
            if nx.order.contains(x) {
                let i = choose|i: int| 0 <= i < nx.order.len() && nx.order[i] == x;
                if i < st.order.len() {
                    assert(st.order[i] == x);
                }
            }
            if st.order.contains(x) {
                let i = choose|i: int| 0 <= i < st.order.len() && st.order[i] == x;
                assert(nx.order[i] == x);
            }
            assert(nx.order[st.order.len() as int] == c);
        }
        assert forall|i: int| 0 <= i < nx.order.len() implies 0 <= #[trigger] nx.order[i] < n
            && scope[nx.order[i]] && !nx.queue.contains(nx.order[i]) by {
            if i < st.order.len() {
                assert(st.order[i] == nx.order[i]);
            }
        }
        assert forall|i: int| 0 <= i < nx.queue.len() implies 0 <= #[trigger] nx.queue[i] < n
            && scope[nx.queue[i]] by {
            if i < rest.len() {
                assert(nx.queue[i] == st.queue[i + 1]);
            } else {
                assert(nx.queue[i] == freed[i - rest.len()]);
            }
        }
        assert forall|s: int| 0 <= s < n && scope[s] implies ((nx.order.contains(s) || nx.queue.contains(s))
            <==> #[trigger] pending[s] == 0) by {
            lemma_remaining_push(adj[s], st.order, c);
            lemma_count_positive(adj[s], c);
            if st.order.contains(s) || st.queue.contains(s) {
                assert(st.pending[s] == 0);
                lemma_remaining_zero(adj[s], st.order);
                if count_of(adj[s], c) > 0 {
                    let j = choose|j: int| 0 <= j < adj[s].len() && adj[s][j] == c;
                    assert(st.order.contains(adj[s][j]));
                }
            } else {
                assert(st.pending[s] != 0);
                if pending[s] == 0 {
                    assert(pred(s));
                }
            }
        }
        assert(is_topological(nx.order, adj)) by {
            assert forall|k: int, j: int| 0 <= k < nx.order.len() && 0 <= j < adj[nx.order[k]].len() implies exists|m: int|
                0 <= m < k && nx.order[m] == #[trigger] adj[nx.order[k]][j] by {
                if k < st.order.len() {
                    assert(nx.order[k] == st.order[k]);
                    let m = choose|m: int| 0 <= m < k && st.order[m] == adj[st.order[k]][j];
                    assert(nx.order[m] == st.order[m]);
                } else {
                    assert(nx.order[k] == c);
                    assert(st.order.contains(adj[c][j]));
                    let m = choose|m: int| 0 <= m < st.order.len() && st.order[m] == adj[c][j];
                    assert(nx.order[m] == st.order[m]);
                }
            }
        }
    }
}

pub proof fn lemma_kahn_run(scope: Seq<bool>, adj: Seq<Seq<int>>, k: nat)
    requires
        graph_closed(scope, adj),
    ensures
        kahn_inv(scope, adj, kahn_run(scope, adj, k)),
        kahn_run(scope, adj, k).queue.len() > 0 ==> kahn_run(scope, adj, k).order.len() == k,
        kahn_run(scope, adj, k).order.len() <= k,
    decreases k,
{
    if k == 0 {
        lemma_kahn_start(scope, adj);
    } else {
        lemma_kahn_run(scope, adj, (k - 1) as nat);
        lemma_kahn_step(scope, adj, kahn_run(scope, adj, (k - 1) as nat));
    }
}

/// Once the queue is empty, further steps change nothing.
pub proof fn lemma_kahn_settled(scope: Seq<bool>, adj: Seq<Seq<int>>, k: nat, m: nat)
    requires
        kahn_run(scope, adj, k).queue.len() == 0,
        k <= m,
    ensures
        kahn_run(scope, adj, m) == kahn_run(scope, adj, k),
    decreases m - k,
{
    if k < m {
        lemma_kahn_settled(scope, adj, k, (m - 1) as nat);
    }
}

proof fn lemma_no_group_member_in_order(order: Seq<int>, adj: Seq<Seq<int>>, group: Set<int>, k: int)
    requires
        is_topological(order, adj),
        forall|i: int|
            #[trigger] group.contains(i) ==> exists|j: int| 0 <= j < adj[i].len() && group.contains(#[trigger] adj[i][j]),
        0 <= k <= order.len(),
    ensures
        forall|m: int| 0 <= m < k ==> !group.contains(#[trigger] order[m]),
    decreases k,
{
    if k > 0 {
        lemma_no_group_member_in_order(order, adj, group, k - 1);
        if group.contains(order[k - 1]) {
            let j = choose|j: int| 0 <= j < adj[order[k - 1]].len() && group.contains(#[trigger] adj[order[k - 1]][j]);
            let m = choose|m: int| 0 <= m < k - 1 && #[trigger] order[m] == adj[order[k - 1]][j];
            assert(!group.contains(order[m]));
        }
    }
}

/// After as many steps as there are nodes, the queue is empty.
proof fn lemma_kahn_queue_drained(scope: Seq<bool>, adj: Seq<Seq<int>>)
    requires
        graph_closed(scope, adj),
    ensures
        kahn_run(scope, adj, scope.len()).queue.len() == 0,
        kahn_inv(scope, adj, kahn_run(scope, adj, scope.len())),
{
    let n = scope.len();
    let st = kahn_run(scope, adj, n);
    lemma_kahn_run(scope, adj, n);
    if st.queue.len() > 0 {
        assert(forall|i: int| 0 <= i < st.order.len() ==> 0 <= #[trigger] st.order[i] < n);
        lemma_distinct_below(st.order, n as int);
        assert(0 <= st.queue[0] < n);
        assert(st.order.contains(st.queue[0]));
        let i = choose|i: int| 0 <= i < st.order.len() && st.order[i] == st.queue[0];
        assert(!st.queue.contains(st.order[i]));
    }
}

/// A sequence of distinct members is no longer than the members; as long, it holds them all;
/// shorter, it misses one.
proof fn lemma_members_count(scope: Seq<bool>, order: Seq<int>)
    requires
        order.no_duplicates(),
        forall|i: int| 0 <= i < order.len() ==> #[trigger] members(scope).contains(order[i]),
    ensures
        members(scope).finite(),
        order.len() <= members(scope).len(),
        order.len() == members(scope).len() ==> forall|s: int| #[trigger] members(scope).contains(s) ==> order.contains(s),
        order.len() < members(scope).len() ==> exists|s: int| #[trigger] members(scope).contains(s) && !order.contains(s),
{
    let n = scope.len();
    let mem = members(scope);
    lemma_int_range(0, n as int);
    assert(mem.subset_of(set_int_range(0, n as int)));
    lemma_len_subset(mem, set_int_range(0, n as int));
    order.unique_seq_to_set();
    assert(order.to_set().subset_of(mem)) by {
        assert forall|x: int| order.to_set().contains(x) implies mem.contains(x) by {
            let i = choose|i: int| 0 <= i < order.len() && order[i] == x;
            assert(mem.contains(order[i]));
        }
    }
    lemma_len_subset(order.to_set(), mem);
    if order.len() == mem.len() {
        lemma_subset_equality(order.to_set(), mem);
        assert forall|s: int| #[trigger] mem.contains(s) implies order.contains(s) by {
            assert(order.to_set().contains(s));
        }
    }
    if order.len() < mem.len() {
        if forall|s: int| #[trigger] mem.contains(s) ==> order.contains(s) {
            assert(mem.subset_of(order.to_set()));
            lemma_len_subset(mem, order.to_set());
        }
    }
}

/// When the queue has run dry and a member is left out of the order, the members left out
/// form a cyclic group.
proof fn lemma_left_out_cycle(scope: Seq<bool>, adj: Seq<Seq<int>>, order: Seq<int>)
    requires
        graph_closed(scope, adj),
        forall|s: int| 0 <= s < scope.len() && scope[s] && !order.contains(s) ==> #[trigger] remaining(adj[s], order) != 0,
        exists|s: int| #[trigger] members(scope).contains(s) && !order.contains(s),
    ensures
        has_cycle(scope, adj),
{
    let group = Set::new(|i: int| 0 <= i < scope.len() && scope[i] && !order.contains(i));
    assert forall|i: int| #[trigger] group.contains(i) implies 0 <= i < scope.len() && scope[i] && exists|j: int|
        0 <= j < adj[i].len() && group.contains(#[trigger] adj[i][j]) by {
        assert(remaining(adj[i], order) != 0);
        lemma_remaining_zero(adj[i], order);
        let j = choose|j: int| 0 <= j < adj[i].len() && !order.contains(#[trigger] adj[i][j]);
        let d = adj[i][j];
        assert(0 <= d < scope.len() && scope[d]);
        assert(group.contains(d));
    }
    let s = choose|s: int| #[trigger] members(scope).contains(s) && !order.contains(s);
    assert(group.contains(s));
    lemma_cyclic_group(scope, adj, group, s);
}

proof fn lemma_cyclic_group(scope: Seq<bool>, adj: Seq<Seq<int>>, group: Set<int>, s: int)
    requires
        group.contains(s),
        forall|i: int|
            #[trigger] group.contains(i) ==> 0 <= i < scope.len() && scope[i] && exists|j: int|
                0 <= j < adj[i].len() && group.contains(#[trigger] adj[i][j]),
    ensures
        has_cycle(scope, adj),
{
    assert(is_cyclic_group(scope, adj, group));
}

/// A topological order that holds every member leaves no room for a cyclic group.
proof fn lemma_complete_order_acyclic(scope: Seq<bool>, adj: Seq<Seq<int>>, order: Seq<int>)
    requires
        is_topological(order, adj),
        forall|s: int| #[trigger] members(scope).contains(s) ==> order.contains(s),
    ensures
        !has_cycle(scope, adj),
{
    if has_cycle(scope, adj) {
        let group = choose|group: Set<int>| #[trigger] is_cyclic_group(scope, adj, group);
        lemma_no_group_member_in_order(order, adj, group, order.len() as int);
        let i = choose|i: int| group.contains(i);
        assert(members(scope).contains(i));
        assert(order.contains(i));
        let m = choose|m: int| 0 <= m < order.len() && order[m] == i;
        assert(!group.contains(order[m]));
    }
}

/// What Kahn's order is: a topological order of distinct nodes that take part, with all of
/// them exactly when the dependencies do not loop.
pub proof fn lemma_kahn_order(scope: Seq<bool>, adj: Seq<Seq<int>>)
    requires
        graph_closed(scope, adj),
    ensures
        is_topological(kahn_order(scope, adj), adj),
        kahn_order(scope, adj).no_duplicates(),
        forall|i: int| 0 <= i < kahn_order(scope, adj).len() ==> #[trigger] members(scope).contains(kahn_order(scope, adj)[i]),
        members(scope).finite(),
        kahn_order(scope, adj).len() <= members(scope).len(),
        (kahn_order(scope, adj).len() == members(scope).len()) <==> !has_cycle(scope, adj),
        kahn_order(scope, adj).len() == members(scope).len() ==> forall|s: int| #[trigger] members(scope).contains(s) ==> kahn_order(scope, adj).contains(s),
{
    let st = kahn_run(scope, adj, scope.len());
    lemma_kahn_queue_drained(scope, adj);
    let order = st.order;
    assert forall|i: int| 0 <= i < order.len() implies #[trigger] members(scope).contains(order[i]) by {
        assert(0 <= order[i] < scope.len() && scope[order[i]]);
    }
    lemma_members_count(scope, order);
    if order.len() == members(scope).len() {
        lemma_complete_order_acyclic(scope, adj, order);
    } else {
        assert forall|s: int| 0 <= s < scope.len() && scope[s] && !order.contains(s) implies #[trigger] remaining(adj[s], order) != 0 by {
            assert(!st.queue.contains(s));
            assert(st.pending[s] != 0);
        }
        lemma_left_out_cycle(scope, adj, order);
    }
}

/// Without dependencies, Kahn's order is the nodes that take part, in increasing order.
pub proof fn lemma_kahn_no_edges(scope: Seq<bool>, adj: Seq<Seq<int>>)
    requires
        graph_closed(scope, adj),
        forall|s: int| 0 <= s < scope.len() && scope[s] ==> #[trigger] adj[s].len() == 0,
    ensures
        kahn_order(scope, adj) == kahn_start(scope, adj).queue,
{
    let st0 = kahn_start(scope, adj);
    let q = st0.queue;
    let n = scope.len();
    let pred0 = |s: int| scope[s] && adj[s].len() == 0;
    lemma_ascending(n as int, pred0);
    assert forall|i: int| 0 <= i < q.len() implies 0 <= #[trigger] q[i] < n by {}
    lemma_distinct_below(q, n as int);
    lemma_kahn_no_edges_run(scope, adj, q.len());
    assert(q.skip(q.len() as int) =~= Seq::<int>::empty());
    assert(q.take(q.len() as int) =~= q);
    lemma_kahn_settled(scope, adj, q.len(), n);
}

proof fn lemma_kahn_no_edges_run(scope: Seq<bool>, adj: Seq<Seq<int>>, k: nat)
    requires
        graph_closed(scope, adj),
        forall|s: int| 0 <= s < scope.len() && scope[s] ==> #[trigger] adj[s].len() == 0,
        k <= kahn_start(scope, adj).queue.len(),
    ensures
        kahn_run(scope, adj, k) == (KahnState {
            order: kahn_start(scope, adj).queue.take(k as int),
            queue: kahn_start(scope, adj).queue.skip(k as int),
            pending: kahn_start(scope, adj).pending,
        }),
    decreases k,
{
    let st0 = kahn_start(scope, adj);
    let q = st0.queue;
    if k == 0 {
        assert(q.take(0) =~= Seq::<int>::empty());
        assert(q.skip(0) =~= q);
    } else {
        lemma_kahn_no_edges_run(scope, adj, (k - 1) as nat);
        let prev = kahn_run(scope, adj, (k - 1) as nat);
        let c = prev.queue[0];
        assert(c == q[k - 1]);
        let nx = kahn_step(scope, adj, prev);
        assert forall|s: int| 0 <= s < scope.len() && scope[s] implies count_of(#[trigger] adj[s], c) == 0 by {
            assert(adj[s].len() == 0);
        }
        assert(nx.pending =~= st0.pending);
        let pred = |s: int| scope[s] && count_of(adj[s], c) > 0 && nx.pending[s] == 0;
        lemma_ascending(scope.len() as int, pred);
        let freed = ascending_where(scope.len() as int, pred);
        if freed.len() > 0 {
            assert(pred(freed[0]));
        }
        assert(freed =~= Seq::<int>::empty());
        assert(nx.queue =~= q.skip(k as int));
        assert(nx.order =~= q.take(k as int));
    }
}

// ---------------------------------------------------------------------------------------------
// The executable algorithm
// ---------------------------------------------------------------------------------------------

/// Positions as integers.
pub open spec fn ints(v: Seq<usize>) -> Seq<int> {
    v.map_values(|x: usize| x as int)
}

/// The dependency lists as integers.
pub open spec fn adj_view(adj: Seq<Vec<usize>>) -> Seq<Seq<int>> {
    adj.map_values(|v: Vec<usize>| ints(v@))
}

pub proof fn lemma_ints_push(v: Seq<usize>, x: usize)
    ensures
        ints(v.push(x)) == ints(v).push(x as int),
{
    assert(ints(v.push(x)) =~= ints(v).push(x as int));
}

/// How often `x` occurs in `l`.
fn count_in(l: &Vec<usize>, x: usize) -> (r: usize)
    ensures
        r == count_of(ints(l@), x as int),
{
    let mut r: usize = 0;
    let mut i: usize = 0;
    while i < l.len()
        invariant
            i <= l.len(),
            r <= i,
            r == count_of(ints(l@.subrange(0, i as int)), x as int),
        decreases l.len() - i,
    {
        proof {
            let a = l@.subrange(0, i + 1);
            assert(a.drop_last() =~= l@.subrange(0, i as int));
            assert(ints(a).drop_last() =~= ints(a.drop_last()));
        }
        if l[i] == x {
            r = r + 1;
        }
        i = i + 1;
    }
    assert(l@.subrange(0, l.len() as int) =~= l@);
    r
}

/// Kahn's order of the nodes that take part: [`kahn_order`].
pub fn topological_order(scope: &Vec<bool>, adj: &Vec<Vec<usize>>) -> (order: Vec<usize>)
    requires
        graph_closed(scope@, adj_view(adj@)),
    ensures
        ints(order@) == kahn_order(scope@, adj_view(adj@)),
{
    let n = scope.len();
    let ghost sc = scope@;
    let ghost g = adj_view(adj@);
    assert(adj.len() == n);
    let ghost start = kahn_start(sc, g);
    let mut pending: Vec<usize> = Vec::new();
    let mut p: usize = 0;
    while p < n
        invariant
            n == sc.len(),
            sc == scope@,
            g == adj_view(adj@),
            adj.len() == n,
            start == kahn_start(sc, g),
            p <= n,
            pending.len() == p,
            forall|i: int| 0 <= i < p ==> #[trigger] pending@[i] as int == start.pending[i],
        decreases n - p,
    {
        if scope[p] {
            assert(g[p as int] == ints(adj@[p as int]@));
            pending.push(adj[p].len());
        } else {
            pending.push(0);
        }
        p = p + 1;
    }
    let ghost pred0 = |s: int| sc[s] && g[s].len() == 0;
    let mut queue: VecDeque<usize> = VecDeque::new();
    p = 0;
    while p < n
        invariant
            n == sc.len(),
            sc == scope@,
            g == adj_view(adj@),
            adj.len() == n,
            pred0 == (|s: int| sc[s] && g[s].len() == 0),
            p <= n,
            ints(queue@) == ascending_where(p as int, pred0),
        decreases n - p,
    {
        assert(g[p as int] == ints(adj@[p as int]@));
        if scope[p] && adj[p].len() == 0 {
            let ghost before = queue@;
            queue.push_back(p);
            proof {
                lemma_ints_push(before, p);
            }
        }
        p = p + 1;
    }
    assert(ints(queue@) == start.queue);
    assert(ints(pending@) =~= start.pending) by {
        assert forall|i: int| 0 <= i < n implies #[trigger] ints(pending@)[i] == start.pending[i] by {
            assert(pending@[i] as int == start.pending[i]);
        }
    }
    let mut order: Vec<usize> = Vec::new();
    proof {
        lemma_kahn_run(sc, g, 0);
        assert(ints(order@) =~= Seq::<int>::empty());
    }
    loop
        invariant
            n == sc.len(),
            sc == scope@,
            g == adj_view(adj@),
            adj.len() == n,
            graph_closed(sc, g),
            order.len() <= n,
            pending.len() == n,
            ints(order@) == kahn_run(sc, g, order.len() as nat).order,
            ints(queue@) == kahn_run(sc, g, order.len() as nat).queue,
            ints(pending@) == kahn_run(sc, g, order.len() as nat).pending,
            kahn_inv(sc, g, kahn_run(sc, g, order.len() as nat)),
        ensures
            queue@.len() == 0,
        decreases n - order.len(),
    {
        let ghost k = order.len() as nat;
        let ghost st = kahn_run(sc, g, k);
        let ghost old_queue = queue@;
        match queue.pop_front() {
            None => {
                break;
            },
            Some(c) => {
                let ghost nx = kahn_step(sc, g, st);
                proof {
                    assert(st.queue[0] == c as int);
                    assert(!st.order.contains(c as int)) by {
                        if st.order.contains(c as int) {
                            let i = choose|i: int| 0 <= i < st.order.len() && st.order[i] == c as int;
                            assert(!st.queue.contains(st.order[i]));
                        }
                    }
                    lemma_kahn_step(sc, g, st);
                    lemma_kahn_run(sc, g, k + 1);
                    assert(kahn_run(sc, g, k + 1) == nx);
                }
                let ghost pred = |s: int| sc[s] && count_of(g[s], c as int) > 0 && nx.pending[s] == 0;
                let ghost base = ints(queue@);
                assert(base =~= st.queue.drop_first());
                let ghost old_order = order@;
                order.push(c);
                proof {
                    lemma_ints_push(old_order, c);
                }
                let mut s: usize = 0;
                while s < n
                    invariant
                        n == sc.len(),
                        sc == scope@,
                        g == adj_view(adj@),
                        adj.len() == n,
                        pending.len() == n,
                        st.pending.len() == n,
                        s <= n,
                        !st.order.contains(c as int),
                        forall|t: int| 0 <= t < n && sc[t] ==> #[trigger] st.pending[t] == remaining(g[t], st.order) as int,
                        nx == kahn_step(sc, g, st),
                        st.queue.len() > 0,
                        st.queue[0] == c as int,
                        pred == (|s: int| sc[s] && count_of(g[s], c as int) > 0 && nx.pending[s] == 0),
                        forall|t: int| 0 <= t < s ==> #[trigger] pending@[t] as int == nx.pending[t],
                        forall|t: int| s <= t < n ==> #[trigger] pending@[t] as int == st.pending[t],
                        ints(queue@) == base + ascending_where(s as int, pred),
                    decreases n - s,
                {
                    assert(g[s as int] == ints(adj@[s as int]@));
                    assert(nx.pending[s as int] == if sc[s as int] { st.pending[s as int] - count_of(g[s as int], c as int) } else { st.pending[s as int] });
                    if scope[s] {
                        let m = count_in(&adj[s], c);
                        if m > 0 {
                            proof {
                                lemma_remaining_push(g[s as int], st.order, c as int);
                            }
                            let v = pending[s] - m;
                            pending.set(s, v);
                            if v == 0 {
                                let ghost before = queue@;
                                queue.push_back(s);
                                proof {
                                    lemma_ints_push(before, s);
                                }
                            }
                        }
                    }
                    proof {
                        assert(ascending_where(s + 1, pred) == (if pred(s as int) { ascending_where(s as int, pred).push(s as int) } else { ascending_where(s as int, pred) }));
                    }
                    s = s + 1;
                }
                proof {
                    assert(ints(pending@) =~= nx.pending) by {
                        assert forall|t: int| 0 <= t < n implies #[trigger] ints(pending@)[t] == nx.pending[t] by {
                            assert(pending@[t] as int == nx.pending[t]);
                        }
                    }
                    assert(ints(queue@) =~= nx.queue);
                    assert(ints(order@) == nx.order);
                    assert(kahn_inv(sc, g, nx));
                    assert(forall|i: int| 0 <= i < nx.order.len() ==> 0 <= #[trigger] nx.order[i] < n);
                    lemma_distinct_below(nx.order, n as int);
                    assert(order.len() == nx.order.len());
                }
            },
        }
    }
    proof {
        let k = order.len() as nat;
        assert(kahn_run(sc, g, k).queue.len() == 0);
        lemma_kahn_settled(sc, g, k, n as nat);
    }
    order
}

} // verus!
