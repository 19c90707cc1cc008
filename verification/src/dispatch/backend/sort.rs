//! Topological order.

use vstd::prelude::*;

use crate::errors::lists;

verus! {

/// Whether all the elements of a list are among those of another.
pub open spec fn covered(ids: Seq<usize>, order: Seq<usize>) -> bool {
    forall|i: int| 0 <= i < ids.len() ==> order.contains(#[trigger] ids[i])
}

/// Whether a node with the given inputs is free after exactly the first `at` nodes of an order: it
/// takes the last of them, and no node that comes later.
pub open spec fn freed(inputs: Seq<usize>, order: Seq<usize>, at: int) -> bool {
    &&& 0 <= at <= order.len()
    &&& covered(inputs, order.take(at))
    &&& at > 0 ==> inputs.contains(order[at - 1])
}

/// Whether a node of an order is free after nodes that come before it.
pub open spec fn follows(inputs: Seq<Seq<usize>>, order: Seq<usize>, i: int) -> bool {
    exists|at: int| at <= i && freed(inputs[order[i] as int], order, at)
}

/// Whether a list is the order in which nodes become free, where `inputs` holds the inputs of each
/// node.
///
/// A node is in the list if and only if all its inputs are; these come before it. A node comes
/// before another if it is free earlier, or at the same time and has the lesser identifier.
pub open spec fn is_order(inputs: Seq<Seq<usize>>, order: Seq<usize>) -> bool {
    &&& order.no_duplicates()
    &&& forall|i: int| 0 <= i < order.len() ==> #[trigger] order[i] < inputs.len()
    &&& forall|v: usize|
        v < inputs.len() ==> (#[trigger] order.contains(v) <==> covered(inputs[v as int], order))
    &&& forall|i: int| 0 <= i < order.len() ==> #[trigger] follows(inputs, order, i)
    &&& forall|i: int, j: int, a: int, b: int|
        0 <= i < j < order.len() && #[trigger] freed(inputs[order[i] as int], order, a)
            && #[trigger] freed(inputs[order[j] as int], order, b) ==> a < b || (a == b && order[i]
            < order[j])
}

/// Whether all the inputs are nodes.
pub open spec fn inputs_exist(inputs: Seq<Seq<usize>>) -> bool {
    forall|v: int, i: int|
        0 <= v < inputs.len() && 0 <= i < inputs[v].len() ==> #[trigger] inputs[v][i]
            < inputs.len()
}

/// Whether no node leads back to itself: the nodes can be numbered so that each has a greater
/// number than its inputs.
pub open spec fn acyclic(inputs: Seq<Seq<usize>>) -> bool {
    exists|rank: spec_fn(int) -> nat| #[trigger] descends(inputs, rank)
}

/// Whether every node has a greater number than its inputs.
pub open spec fn descends(inputs: Seq<Seq<usize>>, rank: spec_fn(int) -> nat) -> bool {
    forall|v: int, i: int|
        0 <= v < inputs.len() && 0 <= i < inputs[v].len() ==> rank(
            (#[trigger] inputs[v][i]) as int,
        ) < rank(v)
}

/// A node that is free after some of the first nodes of an order is free after the same nodes of
/// any order that starts with them.
proof fn lemma_freed_prefix(
    inputs: Seq<usize>,
    p: Seq<usize>,
    q: Seq<usize>,
    at: int,
    k: int,
)
    requires
        freed(inputs, p, at),
        at <= k <= p.len(),
        k <= q.len(),
        p.take(k) == q.take(k),
    ensures
        freed(inputs, q, at),
{
    assert(p.take(at) == p.take(k).take(at));
    assert(q.take(at) == q.take(k).take(at));
    if at > 0 {
        assert(p[at - 1] == p.take(k)[at - 1]);
        assert(q[at - 1] == q.take(k)[at - 1]);
    }
}

/// A node whose inputs are among the first nodes of an order is in the order.
proof fn lemma_covered_take(inputs: Seq<usize>, p: Seq<usize>, k: int)
    requires
        0 <= k <= p.len(),
        covered(inputs, p.take(k)),
    ensures
        covered(inputs, p),
{
    assert forall|i: int| 0 <= i < inputs.len() implies p.contains(#[trigger] inputs[i]) by {
        let j = p.take(k).index_of(inputs[i]);
        assert(p.take(k).contains(inputs[i]));
        assert(p[j] == inputs[i]);
    }
}

/// Two orders that agree on the first `k` nodes agree on the next, if the first has one.
proof fn lemma_next_unique(inputs: Seq<Seq<usize>>, p: Seq<usize>, q: Seq<usize>, k: int)
    requires
        is_order(inputs, p),
        is_order(inputs, q),
        0 <= k < p.len(),
        k <= q.len(),
        p.take(k) == q.take(k),
    ensures
        k < q.len(),
        p[k] == q[k],
{
    let x = p[k];
    assert(follows(inputs, p, k));
    let a = choose|at: int| at <= k && freed(inputs[p[k] as int], p, at);
    assert(freed(inputs[x as int], p, a) && a <= k);
    lemma_freed_prefix(inputs[x as int], p, q, a, k);
    lemma_covered_take(inputs[x as int], q, a);
    assert(q.contains(x));
    let j = q.index_of(x);
    assert(q[j] == x);
    if j < k {
        assert(q.take(k)[j] == x);
        assert(p.take(k)[j] == x);
        assert(p[j] == p[k]);
    }
    assert(k <= j);
    let y = q[k];
    assert(follows(inputs, q, k));
    let b = choose|at: int| at <= k && freed(inputs[q[k] as int], q, at);
    assert(freed(inputs[y as int], q, b) && b <= k);
    if x != y {
        lemma_freed_prefix(inputs[y as int], q, p, b, k);
        lemma_covered_take(inputs[y as int], p, b);
        assert(p.contains(y));
        let i = p.index_of(y);
        assert(p[i] == y);
        if i < k {
            assert(p.take(k)[i] == y);
            assert(q.take(k)[i] == y);
            assert(q[i] == q[k]);
        }
        assert(k < i && k < j);
        assert(freed(inputs[p[k] as int], p, a));
        assert(freed(inputs[p[i] as int], p, b));
        assert(freed(inputs[q[k] as int], q, b));
        assert(freed(inputs[q[j] as int], q, a));
    }
}

proof fn lemma_prefix_unique(inputs: Seq<Seq<usize>>, p: Seq<usize>, q: Seq<usize>, k: int)
    requires
        is_order(inputs, p),
        is_order(inputs, q),
        0 <= k <= p.len(),
    ensures
        k <= q.len(),
        p.take(k) == q.take(k),
    decreases k,
{
    if k > 0 {
        lemma_prefix_unique(inputs, p, q, k - 1);
        lemma_next_unique(inputs, p, q, k - 1);
        assert(p.take(k) == p.take(k - 1).push(p[k - 1]));
        assert(q.take(k) == q.take(k - 1).push(q[k - 1]));
    }
}

/// There is only one order in which nodes become free.
pub proof fn lemma_order_unique(inputs: Seq<Seq<usize>>, p: Seq<usize>, q: Seq<usize>)
    requires
        is_order(inputs, p),
        is_order(inputs, q),
    ensures
        p == q,
{
    lemma_prefix_unique(inputs, p, q, p.len() as int);
    lemma_prefix_unique(inputs, q, p, q.len() as int);
    assert(p.take(p.len() as int) == p);
    assert(q.take(q.len() as int) == q);
}

proof fn lemma_ranked_contained(
    inputs: Seq<Seq<usize>>,
    order: Seq<usize>,
    rank: spec_fn(int) -> nat,
    v: usize,
)
    requires
        is_order(inputs, order),
        inputs_exist(inputs),
        descends(inputs, rank),
        v < inputs.len(),
    ensures
        order.contains(v),
    decreases rank(v as int),
{
    assert forall|i: int| 0 <= i < inputs[v as int].len() implies order.contains(
        #[trigger] inputs[v as int][i],
    ) by {
        lemma_ranked_contained(inputs, order, rank, inputs[v as int][i]);
    }
    assert(covered(inputs[v as int], order));
}

proof fn lemma_full_order(inputs: Seq<Seq<usize>>, order: Seq<usize>)
    requires
        is_order(inputs, order),
        inputs.len() <= usize::MAX,
        forall|v: usize| v < inputs.len() ==> #[trigger] order.contains(v),
    ensures
        order.len() == inputs.len(),
{
    let all = Seq::new(inputs.len(), |i: int| i as usize);
    assert(all.no_duplicates());
    assert forall|v: usize| #[trigger] all.contains(v) implies order.contains(v) by {
        let i = all.index_of(v);
        assert(all[i] == v);
    }
    assert forall|v: usize| #[trigger] order.contains(v) implies all.contains(v) by {
        let i = order.index_of(v);
        assert(order[i] == v);
        assert(all[v as int] == v);
    }
    assert(order.to_set() =~= all.to_set());
    order.unique_seq_to_set();
    all.unique_seq_to_set();
}

pub proof fn lemma_full_contains(inputs: Seq<Seq<usize>>, order: Seq<usize>, v: usize)
    requires
        is_order(inputs, order),
        order.len() == inputs.len(),
        inputs.len() <= usize::MAX,
        v < inputs.len(),
    ensures
        order.contains(v),
{
    let all = Seq::new(inputs.len(), |i: int| i as usize);
    assert(all.no_duplicates());
    assert forall|u: usize| #[trigger] order.to_set().contains(u) implies all.to_set().contains(
        u,
    ) by {
        let i = order.index_of(u);
        assert(order.contains(u));
        assert(order[i] == u);
        assert(all[u as int] == u);
    }
    order.unique_seq_to_set();
    all.unique_seq_to_set();
    vstd::set_lib::lemma_subset_equality(order.to_set(), all.to_set());
    assert(all[v as int] == v);
    assert(all.to_set().contains(v));
    assert(order.to_set().contains(v));
}

/// The order holds all the nodes if and only if no node leads back to itself.
pub proof fn lemma_order_acyclic(inputs: Seq<Seq<usize>>, order: Seq<usize>)
    requires
        is_order(inputs, order),
        inputs_exist(inputs),
        inputs.len() <= usize::MAX,
    ensures
        order.len() == inputs.len() <==> acyclic(inputs),
{
    if acyclic(inputs) {
        let rank = choose|rank: spec_fn(int) -> nat| #[trigger] descends(inputs, rank);
        assert forall|v: usize| v < inputs.len() implies #[trigger] order.contains(v) by {
            lemma_ranked_contained(inputs, order, rank, v);
        }
        lemma_full_order(inputs, order);
    }
    if order.len() == inputs.len() {
        let rank = |v: int| order.index_of(v as usize) as nat;
        assert forall|v: int, i: int|
            0 <= v < inputs.len() && 0 <= i < inputs[v].len() implies rank(
            (#[trigger] inputs[v][i]) as int,
        ) < rank(v) by {
            lemma_full_contains(inputs, order, v as usize);
            lemma_position(inputs, order, order.index_of(v as usize), i);
        }
        assert(descends(inputs, rank));
    }
}

/// The inputs of a node come before it.
pub proof fn lemma_position(inputs: Seq<Seq<usize>>, order: Seq<usize>, k: int, i: int)
    requires
        is_order(inputs, order),
        0 <= k < order.len(),
        0 <= i < inputs[order[k] as int].len(),
    ensures
        order.contains(inputs[order[k] as int][i]),
        order.index_of(inputs[order[k] as int][i]) < k,
{
    let v = order[k];
    let u = inputs[v as int][i];
    assert(follows(inputs, order, k));
    let at = choose|at: int| at <= k && freed(inputs[order[k] as int], order, at);
    assert(covered(inputs[v as int], order.take(at)));
    assert(order.take(at).contains(u));
    let j = order.take(at).index_of(u);
    assert(order[j] == u);
    let h = order.index_of(u);
    assert(order[h] == u);
    assert(h == j);
}

/// How often an element occurs in a list.
pub open spec fn occurrences(s: Seq<usize>, x: usize) -> nat
    decreases s.len(),
{
    if s.len() == 0 {
        0
    } else {
        occurrences(s.drop_last(), x) + if s.last() == x {
            1nat
        } else {
            0nat
        }
    }
}

/// How many elements of a list are not in another.
spec fn waiting(s: Seq<usize>, done: Seq<usize>) -> nat
    decreases s.len(),
{
    if s.len() == 0 {
        0
    } else {
        waiting(s.drop_last(), done) + if done.contains(s.last()) {
            0nat
        } else {
            1nat
        }
    }
}

pub proof fn lemma_occurrences_push(s: Seq<usize>, y: usize, x: usize)
    ensures
        occurrences(s.push(y), x) == occurrences(s, x) + if y == x {
            1nat
        } else {
            0nat
        },
{
    assert(s.push(y).drop_last() == s);
}

proof fn lemma_occurrences_first(s: Seq<usize>, x: usize)
    requires
        s.len() > 0,
    ensures
        occurrences(s, x) == occurrences(s.skip(1), x) + if s[0] == x {
            1nat
        } else {
            0nat
        },
    decreases s.len(),
{
    if s.len() == 1 {
        assert(occurrences(s.drop_last(), x) == 0);
        assert(occurrences(s.skip(1), x) == 0);
    } else {
        lemma_occurrences_first(s.drop_last(), x);
        assert(s.skip(1).drop_last() == s.drop_last().skip(1));
        assert(s.skip(1).last() == s.last());
    }
}

pub proof fn lemma_occurrences_contains(s: Seq<usize>, x: usize)
    ensures
        occurrences(s, x) > 0 <==> s.contains(x),
    decreases s.len(),
{
    if s.len() > 0 {
        lemma_occurrences_contains(s.drop_last(), x);
        if s.contains(x) {
            let i = s.index_of(x);
            if i < s.len() - 1 {
                assert(s.drop_last()[i] == x);
            }
        }
        if s.drop_last().contains(x) {
            let i = s.drop_last().index_of(x);
            assert(s[i] == x);
        }
        if s.last() == x {
            assert(s[s.len() - 1] == x);
        }
    }
}

proof fn lemma_waiting_push(s: Seq<usize>, done: Seq<usize>, u: usize)
    requires
        !done.contains(u),
    ensures
        waiting(s, done) == waiting(s, done.push(u)) + occurrences(s, u),
    decreases s.len(),
{
    if s.len() > 0 {
        lemma_waiting_push(s.drop_last(), done, u);
        let x = s.last();
        if x == u {
            assert(done.push(u)[done.len() as int] == u);
        } else if done.contains(x) {
            let i = done.index_of(x);
            assert(done.push(u)[i] == x);
        } else if done.push(u).contains(x) {
            let i = done.push(u).index_of(x);
            assert(done[i] == x);
        }
    }
}

proof fn lemma_waiting_zero(s: Seq<usize>, done: Seq<usize>)
    ensures
        waiting(s, done) == 0 <==> covered(s, done),
    decreases s.len(),
{
    if s.len() > 0 {
        lemma_waiting_zero(s.drop_last(), done);
        if covered(s, done) {
            assert(done.contains(s[s.len() - 1]));
            assert forall|i: int| 0 <= i < s.drop_last().len() implies done.contains(
                #[trigger] s.drop_last()[i],
            ) by {
                assert(done.contains(s[i]));
            }
        }
        if covered(s.drop_last(), done) && done.contains(s.last()) {
            assert forall|i: int| 0 <= i < s.len() implies done.contains(#[trigger] s[i]) by {
                if i < s.len() - 1 {
                    assert(done.contains(s.drop_last()[i]));
                }
            }
        }
    }
}

proof fn lemma_waiting_none(s: Seq<usize>)
    ensures
        waiting(s, Seq::empty()) == s.len(),
    decreases s.len(),
{
    if s.len() > 0 {
        lemma_waiting_none(s.drop_last());
    }
}

/// A node is free after exactly one number of nodes.
proof fn lemma_freed_unique(inputs: Seq<usize>, order: Seq<usize>, a: int, b: int)
    requires
        order.no_duplicates(),
        freed(inputs, order, a),
        freed(inputs, order, b),
    ensures
        a == b,
    decreases (if b < a {
        1int
    } else {
        0int
    }),
{
    if a < b {
        let i = inputs.index_of(order[b - 1]);
        assert(inputs[i] == order[b - 1]);
        assert(order.take(a).contains(inputs[i]));
        let j = order.take(a).index_of(order[b - 1]);
        assert(order[j] == order[b - 1]);
    } else if b < a {
        lemma_freed_unique(inputs, order, b, a);
    }
}

/// Whether a node of a queue became free after `stamp` nodes, all of them before it.
spec fn stamped(inputs: Seq<Seq<usize>>, queue: Seq<usize>, stamp: int, i: int) -> bool {
    stamp <= i && freed(inputs[queue[i] as int], queue, stamp)
}

/// How far the search for an order has come.
///
/// The nodes of `queue` are free; `stamps` holds after how many nodes each of them became free,
/// which is at most `bound`.
spec fn queued(
    inputs: Seq<Seq<usize>>,
    queue: Seq<usize>,
    stamps: Seq<int>,
    bound: int,
) -> bool {
    &&& queue.no_duplicates()
    &&& stamps.len() == queue.len()
    &&& forall|i: int| 0 <= i < queue.len() ==> #[trigger] queue[i] < inputs.len()
    &&& forall|i: int|
        0 <= i < queue.len() ==> #[trigger] stamped(inputs, queue, stamps[i], i) && stamps[i]
            <= bound
    &&& forall|i: int, j: int|
        0 <= i < j < queue.len() ==> #[trigger] stamps[i] < #[trigger] stamps[j] || (stamps[i]
            == stamps[j] && queue[i] < queue[j])
}

/// A node that becomes free joins the queue.
proof fn lemma_queue_push(
    inputs: Seq<Seq<usize>>,
    queue: Seq<usize>,
    stamps: Seq<int>,
    at: int,
    v: usize,
)
    requires
        queued(inputs, queue, stamps, at),
        0 <= at <= queue.len(),
        v < inputs.len(),
        !queue.contains(v),
        covered(inputs[v as int], queue.take(at)),
        at > 0 ==> inputs[v as int].contains(queue[at - 1]),
        forall|i: int| 0 <= i < queue.len() && #[trigger] stamps[i] == at ==> queue[i] < v,
    ensures
        queued(inputs, queue.push(v), stamps.push(at), at),
{
    let longer = queue.push(v);
    let more = stamps.push(at);
    let k = queue.len() as int;
    assert(longer.take(k) == queue);
    assert(queue.take(k) == queue);
    assert forall|i: int| 0 <= i < longer.len() implies #[trigger] stamped(
        inputs,
        longer,
        more[i],
        i,
    ) && more[i] <= at by {
        if i < k {
            assert(stamped(inputs, queue, stamps[i], i));
            lemma_freed_prefix(inputs[queue[i] as int], queue, longer, stamps[i], k);
        } else {
            assert(longer.take(at) == queue.take(at));
        }
    }
    assert forall|i: int, j: int| 0 <= i < j < longer.len() implies #[trigger] more[i]
        < #[trigger] more[j] || (more[i] == more[j] && longer[i] < longer[j]) by {
        if j < k {
            assert(stamps[i] < stamps[j] || (stamps[i] == stamps[j] && queue[i] < queue[j]));
        } else {
            assert(stamped(inputs, queue, stamps[i], i));
        }
    }
    assert(longer.no_duplicates()) by {
        assert forall|i: int, j: int|
            0 <= i < longer.len() && 0 <= j < longer.len() && i != j implies longer[i]
            != longer[j] by {
            if i < k && j < k {
                assert(queue[i] != queue[j]);
            } else if i < k {
                assert(queue.contains(queue[i]));
            } else {
                assert(queue.contains(queue[j]));
            }
        }
    }
    assert forall|i: int| 0 <= i < longer.len() implies #[trigger] longer[i] < inputs.len() by {
        if i < k {
            assert(queue[i] < inputs.len());
        }
    }
}

/// The queue is the order once none of its nodes is left.
proof fn lemma_queue_order(inputs: Seq<Seq<usize>>, queue: Seq<usize>, stamps: Seq<int>, bound: int)
    requires
        queued(inputs, queue, stamps, bound),
        forall|v: usize|
            v < inputs.len() ==> (#[trigger] queue.contains(v) <==> waiting(
                inputs[v as int],
                queue,
            ) == 0),
    ensures
        is_order(inputs, queue),
{
    assert forall|v: usize| v < inputs.len() implies (#[trigger] queue.contains(v) <==> covered(
        inputs[v as int],
        queue,
    )) by {
        lemma_waiting_zero(inputs[v as int], queue);
    }
    assert forall|i: int| 0 <= i < queue.len() implies #[trigger] follows(inputs, queue, i) by {
        assert(stamped(inputs, queue, stamps[i], i));
    }
    assert forall|i: int, j: int, a: int, b: int|
        0 <= i < j < queue.len() && #[trigger] freed(inputs[queue[i] as int], queue, a)
            && #[trigger] freed(inputs[queue[j] as int], queue, b) implies a < b || (a == b
        && queue[i] < queue[j]) by {
        assert(stamped(inputs, queue, stamps[i], i));
        assert(stamped(inputs, queue, stamps[j], j));
        lemma_freed_unique(inputs[queue[i] as int], queue, a, stamps[i]);
        lemma_freed_unique(inputs[queue[j] as int], queue, b, stamps[j]);
        assert(stamps[i] < stamps[j] || (stamps[i] == stamps[j] && queue[i] < queue[j]));
    }
}

/// Whether `users` lists, for each node, the nodes that take it, in order, once for each time they
/// take it.
pub open spec fn users_listed(inputs: Seq<Seq<usize>>, users: Seq<Vec<usize>>) -> bool {
    &&& users.len() == inputs.len()
    &&& forall|u: int, i: int, j: int|
        0 <= u < users.len() && 0 <= i <= j < users[u]@.len() ==> #[trigger] users[u]@[i]
            <= #[trigger] users[u]@[j]
    &&& forall|u: int, i: int|
        0 <= u < users.len() && 0 <= i < users[u]@.len() ==> #[trigger] users[u]@[i]
            < inputs.len()
    &&& forall|u: usize, v: usize|
        u < inputs.len() && v < inputs.len() ==> #[trigger] occurrences(users[u as int]@, v)
            == occurrences(inputs[v as int], u)
}

/// Lists, for each node, the nodes that take it.
pub fn list_users(inputs: &Vec<Vec<usize>>) -> (users: Vec<Vec<usize>>)
    requires
        inputs_exist(lists(inputs@)),
    ensures
        users_listed(lists(inputs@), users@),
{
    let n: usize = inputs.len();
    let ghost ins = lists(inputs@);
    let mut users: Vec<Vec<usize>> = Vec::new();
    let mut u: usize = 0;
    while u < n
        invariant
            u <= n,
            users@.len() == u,
            forall|j: int| 0 <= j < u ==> (#[trigger] users@[j])@ == Seq::<usize>::empty(),
        decreases n - u,
    {
        users.push(Vec::new());
        u += 1;
    }
    let mut v: usize = 0;
    while v < n
        invariant
            v <= n,
            n == inputs@.len(),
            ins == lists(inputs@),
            inputs_exist(ins),
            users@.len() == n,
            forall|u: int, i: int, j: int|
                0 <= u < n && 0 <= i <= j < users@[u]@.len() ==> #[trigger] users@[u]@[i]
                    <= #[trigger] users@[u]@[j],
            forall|u: int, i: int|
                0 <= u < n && 0 <= i < users@[u]@.len() ==> #[trigger] users@[u]@[i] < v,
            forall|u: usize, w: usize|
                u < n && w < n ==> #[trigger] occurrences(users@[u as int]@, w) == if w < v {
                    occurrences(ins[w as int], u)
                } else {
                    0
                },
        decreases n - v,
    {
        let row = &inputs[v];
        assert(row@ == ins[v as int]);
        let mut i: usize = 0;
        proof {
            assert(row@.take(0) == Seq::<usize>::empty());
        }
        while i < row.len()
            invariant
                i <= row@.len(),
                v < n,
                n == inputs@.len(),
                ins == lists(inputs@),
                row@ == ins[v as int],
                inputs_exist(ins),
                users@.len() == n,
                forall|u: int, i: int, j: int|
                    0 <= u < n && 0 <= i <= j < users@[u]@.len() ==> #[trigger] users@[u]@[i]
                        <= #[trigger] users@[u]@[j],
                forall|u: int, i: int|
                    0 <= u < n && 0 <= i < users@[u]@.len() ==> #[trigger] users@[u]@[i] <= v,
                forall|u: usize, w: usize|
                    u < n && w < n ==> #[trigger] occurrences(users@[u as int]@, w) == if w < v {
                        occurrences(ins[w as int], u)
                    } else if w == v {
                        occurrences(row@.take(i as int), u)
                    } else {
                        0
                    },
            decreases row@.len() - i,
        {
            let input: usize = row[i];
            assert(ins[v as int][i as int] < n);
            let ghost before = users@;
            users[input].push(v);
            proof {
                assert(row@.take(i + 1) == row@.take(i as int).push(input));
                assert forall|u: usize, w: usize| u < n && w < n implies #[trigger] occurrences(
                    users@[u as int]@,
                    w,
                ) == if w < v {
                    occurrences(ins[w as int], u)
                } else if w == v {
                    occurrences(row@.take(i + 1), u)
                } else {
                    0
                } by {
                    assert(occurrences(before[u as int]@, w) == occurrences(before[u as int]@, w));
                    lemma_occurrences_push(row@.take(i as int), input, u);
                    if u == input {
                        lemma_occurrences_push(before[u as int]@, v, w);
                    }
                }
            }
            i += 1;
        }
        assert(row@.take(row@.len() as int) == row@);
        v += 1;
    }
    users
}

/// The order in which nodes become free.
pub fn free_order(inputs: &Vec<Vec<usize>>) -> (order: Vec<usize>)
    requires
        inputs_exist(lists(inputs@)),
    ensures
        is_order(lists(inputs@), order@),
{
    let n: usize = inputs.len();
    let ghost ins = lists(inputs@);
    let users = list_users(inputs);
    let mut in_degree: Vec<usize> = Vec::new();
    let mut queue: Vec<usize> = Vec::new();
    let ghost mut stamps: Seq<int> = Seq::empty();
    let mut v: usize = 0;
    while v < n
        invariant
            v <= n,
            n == inputs@.len(),
            ins == lists(inputs@),
            in_degree@.len() == v,
            forall|w: int| 0 <= w < v ==> #[trigger] in_degree@[w] == ins[w].len(),
            queued(ins, queue@, stamps, 0),
            forall|i: int| 0 <= i < queue@.len() ==> #[trigger] queue@[i] < v,
            forall|w: usize|
                w < v ==> (#[trigger] queue@.contains(w) <==> in_degree@[w as int] == 0),
        decreases n - v,
    {
        let count: usize = inputs[v].len();
        assert(ins[v as int] == inputs@[v as int]@);
        in_degree.push(count);
        let ghost before = queue@;
        if count == 0 {
            proof {
                assert(!queue@.contains(v)) by {
                    if queue@.contains(v) {
                        let i = queue@.index_of(v);
                        assert(queue@[i] == v);
                    }
                }
                lemma_queue_push(ins, queue@, stamps, 0, v);
                stamps = stamps.push(0);
            }
            queue.push(v);
        }
        proof {
            assert forall|w: usize| w < v + 1 implies (#[trigger] queue@.contains(w)
                <==> in_degree@[w as int] == 0) by {
                if w == v {
                    if count == 0 {
                        assert(queue@[before.len() as int] == v);
                    } else if queue@.contains(w) {
                        let i = queue@.index_of(w);
                        assert(queue@[i] == w);
                    }
                } else {
                    assert(before.contains(w) <==> in_degree@[w as int] == 0);
                    if before.contains(w) {
                        let i = before.index_of(w);
                        assert(queue@[i] == w);
                    } else if queue@.contains(w) {
                        let i = queue@.index_of(w);
                        assert(queue@[i] == w);
                        assert(before[i] == w);
                    }
                }
            }
        }
        v += 1;
    }
    let mut idx: usize = 0;
    proof {
        assert(queue@.take(0) == Seq::<usize>::empty());
        assert forall|w: int| 0 <= w < n implies #[trigger] in_degree@[w] == waiting(
            ins[w],
            queue@.take(0),
        ) by {
            lemma_waiting_none(ins[w]);
        }
        lemma_queue_bounded(ins, queue@);
    }
    while idx < queue.len()
        invariant
            n == inputs@.len(),
            n == ins.len(),
            ins == lists(inputs@),
            users_listed(ins, users@),
            idx <= queue@.len() <= n,
            in_degree@.len() == n,
            queued(ins, queue@, stamps, idx as int),
            forall|w: int|
                0 <= w < n ==> #[trigger] in_degree@[w] == waiting(
                    ins[w],
                    queue@.take(idx as int),
                ),
            forall|w: usize|
                w < n ==> (#[trigger] queue@.contains(w) <==> in_degree@[w as int] == 0),
        decreases n - idx,
    {
        let node: usize = queue[idx];
        let nexts = &users[node];
        let ghost start = queue@;
        let ghost done = queue@.take(idx + 1);
        proof {
            assert(done == queue@.take(idx as int).push(node));
            assert(!queue@.take(idx as int).contains(node)) by {
                if queue@.take(idx as int).contains(node) {
                    let i = queue@.take(idx as int).index_of(node);
                    assert(queue@[i] == queue@[idx as int]);
                }
            }
            assert(nexts@.skip(0) == nexts@);
            assert forall|w: int| 0 <= w < n implies #[trigger] in_degree@[w] == waiting(
                ins[w],
                done,
            ) + occurrences(nexts@.skip(0), w as usize) by {
                lemma_waiting_push(ins[w], queue@.take(idx as int), node);
                assert(occurrences(users@[node as int]@, w as usize) == occurrences(
                    ins[w],
                    node,
                ));
            }
            lemma_queued_later(ins, queue@, stamps, idx as int, idx + 1);
        }
        let mut k: usize = 0;
        while k < nexts.len()
            invariant
                n == ins.len(),
                users_listed(ins, users@),
                node < n,
                *nexts == users@[node as int],
                idx < start.len() <= queue@.len(),
                queue@.take(idx + 1) == done,
                done.len() == idx + 1,
                done[idx as int] == node,
                k <= nexts@.len(),
                in_degree@.len() == n,
                queued(ins, queue@, stamps, idx + 1),
                forall|w: int|
                    0 <= w < n ==> #[trigger] in_degree@[w] == waiting(ins[w], done)
                        + occurrences(nexts@.skip(k as int), w as usize),
                forall|w: usize|
                    w < n ==> (#[trigger] queue@.contains(w) <==> in_degree@[w as int] == 0),
                forall|i: int, m: int|
                    0 <= i < queue@.len() && #[trigger] stamps[i] == idx + 1 && k <= m
                        < nexts@.len() ==> queue@[i] <= #[trigger] nexts@[m],
            decreases nexts@.len() - k,
        {
            let nxt: usize = nexts[k];
            let ghost before = queue@;
            let ghost degrees = in_degree@;
            proof {
                assert(nexts@[k as int] < n);
                assert(nexts@.skip(k as int).skip(1) == nexts@.skip(k + 1));
                lemma_occurrences_first(nexts@.skip(k as int), nxt);
                assert(in_degree@[nxt as int] >= 1);
            }
            in_degree[nxt] -= 1;
            proof {
                assert forall|w: int| 0 <= w < n implies #[trigger] in_degree@[w] == waiting(
                    ins[w],
                    done,
                ) + occurrences(nexts@.skip(k + 1), w as usize) by {
                    lemma_occurrences_first(nexts@.skip(k as int), w as usize);
                    assert(degrees[w] == waiting(ins[w], done) + occurrences(
                        nexts@.skip(k as int),
                        w as usize,
                    ));
                }
                assert(!before.contains(nxt));
            }
            if in_degree[nxt] == 0 {
                proof {
                    lemma_waiting_zero(ins[nxt as int], done);
                    assert(nexts@[k as int] == nxt);
                    lemma_occurrences_contains(nexts@, nxt);
                    assert(nexts@.contains(nxt));
                    assert(occurrences(users@[node as int]@, nxt) == occurrences(
                        ins[nxt as int],
                        node,
                    ));
                    lemma_occurrences_contains(ins[nxt as int], node);
                    assert forall|i: int|
                        0 <= i < before.len() && #[trigger] stamps[i] == idx + 1 implies before[i]
                        < nxt by {
                        assert(before[i] <= nexts@[k as int]);
                        if before[i] == nxt {
                            assert(before.contains(nxt));
                        }
                    }
                    assert(before[idx as int] == before.take(idx + 1)[idx as int]);
                    lemma_queue_push(ins, before, stamps, idx + 1, nxt);
                    stamps = stamps.push(idx + 1);
                }
                queue.push(nxt);
                assert(queue@.take(idx + 1) == before.take(idx + 1));
            }
            proof {
                assert forall|w: usize| w < n implies (#[trigger] queue@.contains(w)
                    <==> in_degree@[w as int] == 0) by {
                    assert(before.contains(w) <==> degrees[w as int] == 0);
                    if before.contains(w) {
                        let i = before.index_of(w);
                        assert(queue@[i] == w);
                        assert(w != nxt);
                    } else {
                        if queue@.contains(w) {
                            let i = queue@.index_of(w);
                            assert(queue@[i] == w);
                            if i < before.len() {
                                assert(before[i] == w);
                            }
                            assert(w == nxt);
                        }
                        if w == nxt && in_degree@[w as int] == 0 {
                            assert(queue@[before.len() as int] == w);
                        }
                    }
                }
                assert forall|i: int, m: int|
                    0 <= i < queue@.len() && #[trigger] stamps[i] == idx + 1 && k + 1 <= m
                        < nexts@.len() implies queue@[i] <= #[trigger] nexts@[m] by {
                    if i < before.len() {
                        assert(before[i] <= nexts@[m]);
                    } else {
                        assert(users@[node as int]@[k as int] <= users@[node as int]@[m]);
                    }
                }
            }
            k += 1;
        }
        proof {
            assert(nexts@.skip(nexts@.len() as int).len() == 0);
            lemma_queue_bounded(ins, queue@);
            assert forall|w: int| 0 <= w < n implies #[trigger] in_degree@[w] == waiting(
                ins[w],
                queue@.take(idx + 1),
            ) by {}
        }
        idx += 1;
    }
    proof {
        assert(queue@.take(queue@.len() as int) == queue@);
        assert forall|w: usize| w < ins.len() implies (#[trigger] queue@.contains(w) <==> waiting(
            ins[w as int],
            queue@,
        ) == 0) by {
            assert(in_degree@[w as int] == waiting(ins[w as int], queue@.take(idx as int)));
        }
        lemma_queue_order(ins, queue@, stamps, idx as int);
    }
    queue
}

/// A queue holds each node at most once.
proof fn lemma_queue_bounded(inputs: Seq<Seq<usize>>, queue: Seq<usize>)
    requires
        queue.no_duplicates(),
        forall|i: int| 0 <= i < queue.len() ==> #[trigger] queue[i] < inputs.len(),
        inputs.len() <= usize::MAX,
    ensures
        queue.len() <= inputs.len(),
{
    let all = Seq::new(inputs.len(), |i: int| i as usize);
    assert forall|u: usize| #[trigger] queue.to_set().contains(u) implies all.to_set().contains(
        u,
    ) by {
        let i = queue.index_of(u);
        assert(queue.contains(u));
        assert(queue[i] == u);
        assert(all[u as int] == u);
    }
    assert(all.no_duplicates());
    queue.unique_seq_to_set();
    all.unique_seq_to_set();
    vstd::set_lib::lemma_len_subset(queue.to_set(), all.to_set());
}

proof fn lemma_queued_later(
    inputs: Seq<Seq<usize>>,
    queue: Seq<usize>,
    stamps: Seq<int>,
    a: int,
    b: int,
)
    requires
        queued(inputs, queue, stamps, a),
        a <= b,
    ensures
        queued(inputs, queue, stamps, b),
        forall|i: int| 0 <= i < queue.len() ==> #[trigger] stamps[i] <= a,
{
    assert forall|i: int| 0 <= i < queue.len() implies #[trigger] stamped(
        inputs,
        queue,
        stamps[i],
        i,
    ) && stamps[i] <= b by {
        assert(stamped(inputs, queue, stamps[i], i));
    }
    assert forall|i: int| 0 <= i < queue.len() implies #[trigger] stamps[i] <= a by {
        assert(stamped(inputs, queue, stamps[i], i));
    }
}

/// Whether `input` is the first input, of the first node, that is no node.
pub open spec fn first_missing(inputs: Seq<Seq<usize>>, node: usize, input: usize) -> bool {
    &&& node < inputs.len()
    &&& input >= inputs.len()
    &&& exists|i: int|
        {
            &&& 0 <= i < inputs[node as int].len()
            &&& #[trigger] inputs[node as int][i] == input
            &&& forall|v: int, j: int|
                0 <= v <= node && 0 <= j < inputs[v].len() && (v < node || j < i)
                    ==> #[trigger] inputs[v][j] < inputs.len()
        }
}

/// Finds the first input, of the first node, that is no node.
pub fn find_missing(inputs: &Vec<Vec<usize>>) -> (r: Option<(usize, usize)>)
    ensures
        match r {
            Some((node, input)) => first_missing(lists(inputs@), node, input),
            None => inputs_exist(lists(inputs@)),
        },
{
    let n: usize = inputs.len();
    let ghost ins = lists(inputs@);
    let mut v: usize = 0;
    while v < n
        invariant
            v <= n,
            n == inputs@.len(),
            ins == lists(inputs@),
            forall|w: int, j: int|
                0 <= w < v && 0 <= j < ins[w].len() ==> #[trigger] ins[w][j] < n,
        decreases n - v,
    {
        let row = &inputs[v];
        assert(row@ == ins[v as int]);
        let mut i: usize = 0;
        while i < row.len()
            invariant
                i <= row@.len(),
                v < n,
                n == inputs@.len(),
                ins == lists(inputs@),
                row@ == ins[v as int],
                forall|w: int, j: int|
                    0 <= w <= v && 0 <= j < ins[w].len() && (w < v || j < i)
                        ==> #[trigger] ins[w][j] < n,
            decreases row@.len() - i,
        {
            if row[i] >= n {
                assert(ins[v as int][i as int] >= n);
                return Some((v, row[i]));
            }
            i += 1;
        }
        v += 1;
    }
    None
}

/// The identifiers in a list, replaced by their positions in an order.
pub open spec fn renumber(ids: Seq<usize>, order: Seq<usize>) -> Seq<usize> {
    Seq::new(ids.len(), |i: int| order.index_of(ids[i]) as usize)
}

/// The position of each node in an order of all the nodes.
pub fn positions(order: &Vec<usize>, Ghost(inputs): Ghost<Seq<Seq<usize>>>) -> (r: Vec<usize>)
    requires
        is_order(inputs, order@),
        order@.len() == inputs.len(),
    ensures
        r@.len() == order@.len(),
        forall|v: usize|
            v < order@.len() ==> #[trigger] r@[v as int] == order@.index_of(v) && r@[v as int]
                < order@.len(),
{
    let n: usize = order.len();
    let mut r: Vec<usize> = vec![0;n];
    let mut i: usize = 0;
    while i < n
        invariant
            i <= n,
            n == order@.len(),
            r@.len() == n,
            is_order(inputs, order@),
            order@.len() == inputs.len(),
            forall|k: int| 0 <= k < i ==> r@[#[trigger] order@[k] as int] == k,
        decreases n - i,
    {
        let v: usize = order[i];
        r[v] = i;
        i += 1;
    }
    proof {
        assert forall|v: usize| v < n implies #[trigger] r@[v as int] == order@.index_of(v)
            && r@[v as int] < n by {
            lemma_full_contains(inputs, order@, v);
            let k = order@.index_of(v);
            assert(order@[k] == v);
        }
    }
    r
}

/// Replaces the identifiers in a list by their positions in an order of all the nodes.
pub fn renumber_ids(ids: &Vec<usize>, places: &Vec<usize>, Ghost(order): Ghost<Seq<usize>>) -> (r:
    Vec<usize>)
    requires
        places@.len() == order.len(),
        forall|v: usize| v < order.len() ==> #[trigger] places@[v as int] == order.index_of(v),
        forall|i: int| 0 <= i < ids@.len() ==> #[trigger] ids@[i] < order.len(),
    ensures
        r@ == renumber(ids@, order),
{
    let mut r: Vec<usize> = Vec::new();
    let mut i: usize = 0;
    while i < ids.len()
        invariant
            i <= ids@.len(),
            places@.len() == order.len(),
            forall|v: usize| v < order.len() ==> #[trigger] places@[v as int] == order.index_of(v),
            forall|j: int| 0 <= j < ids@.len() ==> #[trigger] ids@[j] < order.len(),
            r@.len() == i,
            forall|j: int| 0 <= j < i ==> #[trigger] r@[j] == order.index_of(ids@[j]) as usize,
        decreases ids@.len() - i,
    {
        let v: usize = ids[i];
        assert(ids@[i as int] < order.len());
        r.push(places[v]);
        i += 1;
    }
    assert(r@ == renumber(ids@, order));
    r
}

/// The inputs of a node, renumbered, come before the new number of the node.
pub proof fn lemma_renumber_descends(inputs: Seq<Seq<usize>>, order: Seq<usize>, k: int)
    requires
        is_order(inputs, order),
        0 <= k < order.len(),
        order.len() <= usize::MAX,
    ensures
        forall|i: int|
            0 <= i < inputs[order[k] as int].len() ==> #[trigger] renumber(
                inputs[order[k] as int],
                order,
            )[i] < k,
{
    assert forall|i: int| 0 <= i < inputs[order[k] as int].len() implies #[trigger] renumber(
        inputs[order[k] as int],
        order,
    )[i] < k by {
        lemma_position(inputs, order, k, i);
        let u = inputs[order[k] as int][i];
        let j = order.index_of(u);
        assert(order[j] == u);
    }
}

} // verus!
