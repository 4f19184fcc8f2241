use vstd::prelude::*;
use crate::store::{arena_wf, node_wf, NodeView, Store};

verus! {

/// Node `j` is reachable from `entry` by following operand edges: it is the
/// entry itself, or an operand of a reachable node. Consumers sit above their
/// operands, so the consumers of `j` are looked for among the ids above it.
pub open spec fn reachable<V>(nodes: Seq<NodeView<V>>, entry: int, j: int) -> bool
    decreases entry - j, 1int,
{
    if j >= entry {
        j == entry
    } else {
        feeds_from(nodes, entry, j, j + 1)
    }
}

/// Some node with an id in `[m, entry]` is reachable from `entry` and has
/// `j` among its operands.
pub open spec fn feeds_from<V>(nodes: Seq<NodeView<V>>, entry: int, j: int, m: int) -> bool
    decreases entry - m + 1, 0int,
{
    if m > entry {
        false
    } else {
        (reachable(nodes, entry, m) && nodes[m].operands.contains(j as usize)) || feeds_from(
            nodes,
            entry,
            j,
            m + 1,
        )
    }
}

/// The ids in `[lo, hi)` that are reachable from `entry`, highest first.
pub open spec fn reachable_desc<V>(nodes: Seq<NodeView<V>>, entry: int, lo: int, hi: int) -> Seq<
    usize,
>
    decreases hi - lo,
{
    if hi <= lo {
        Seq::empty()
    } else {
        let rest = reachable_desc(nodes, entry, lo + 1, hi);
        if reachable(nodes, entry, lo) {
            rest.push(lo as usize)
        } else {
            rest
        }
    }
}

/// The order in which a backward pass from `entry` visits nodes: every node
/// reachable from it, by descending id. A consumer always has a higher id than
/// its operands, so each node comes before all of its operands.
pub open spec fn backward_order_of<V>(nodes: Seq<NodeView<V>>, entry: int) -> Seq<usize> {
    reachable_desc(nodes, entry, 0, entry + 1)
}

/// Each element is greater than every element after it.
pub open spec fn strictly_descending(s: Seq<usize>) -> bool {
    forall|a: int, b: int| 0 <= a < b < s.len() ==> s[a] > s[b]
}

/// `reachable_desc` is strictly descending and holds exactly the reachable
/// ids of its range.
proof fn lemma_reachable_desc<V>(nodes: Seq<NodeView<V>>, entry: int, lo: int, hi: int)
    requires
        0 <= lo,
        hi <= usize::MAX,
    ensures
        strictly_descending(reachable_desc(nodes, entry, lo, hi)),
        forall|x: usize| #[trigger]
            reachable_desc(nodes, entry, lo, hi).contains(x) <==> (lo <= x < hi && reachable(
                nodes,
                entry,
                x as int,
            )),
    decreases hi - lo,
{
    if hi > lo {
        lemma_reachable_desc(nodes, entry, lo + 1, hi);
        let rest = reachable_desc(nodes, entry, lo + 1, hi);
        if reachable(nodes, entry, lo) {
            let s = rest.push(lo as usize);
            assert(s[rest.len() as int] == lo);
            assert forall|x: usize| #[trigger] s.contains(x) <==> (lo <= x < hi && reachable(nodes, entry, x as int)) by {
                if x == lo {
                    assert(s[rest.len() as int] == x);
                } else {
                    if s.contains(x) {
                        let a = choose|a: int| 0 <= a < s.len() && s[a] == x;
                        assert(a < rest.len());
                        assert(rest[a] == x);
                        assert(rest.contains(x));
                    }
                    if lo < x < hi && reachable(nodes, entry, x as int) {
                        assert(rest.contains(x));
                        let a = choose|a: int| 0 <= a < rest.len() && rest[a] == x;
                        assert(s[a] == x);
                    }
                }
            }
            assert forall|a: int, b: int| 0 <= a < b < s.len() implies s[a] > s[b] by {
                assert(rest.contains(s[a]));
            }
        }
    }
}

/// One step of a backward pass: the gradient of `consumer` is pushed, by the
/// rule of the consumer's operation for operand position `slot`, onto the
/// gradient of `operand`. The caller adds the result to what `operand`
/// already holds; it never overwrites it.
#[derive(Clone, Copy, Debug, PartialEq, Eq, Structural)]
pub struct Contribution {
    pub consumer: usize,
    pub slot: usize,
    pub operand: usize,
}

/// The step from node `n` to its operand at position `k`.
pub open spec fn step<V>(nodes: Seq<NodeView<V>>, n: usize, k: int) -> Contribution {
    Contribution { consumer: n, slot: k as usize, operand: nodes[n as int].operands[k] }
}

/// The steps that node `n` sends to its operands, one per operand position.
pub open spec fn node_contributions<V>(nodes: Seq<NodeView<V>>, n: usize) -> Seq<Contribution> {
    Seq::new(
        nodes[n as int].operands.len(),
        |k: int| step(nodes, n, k),
    )
}

/// The steps of the nodes of `order`, node by node, in that order.
pub open spec fn contributions<V>(nodes: Seq<NodeView<V>>, order: Seq<usize>) -> Seq<Contribution>
    decreases order.len(),
{
    if order.len() == 0 {
        Seq::empty()
    } else {
        contributions(nodes, order.drop_last()) + node_contributions(nodes, order.last())
    }
}

/// The full schedule of a backward pass from `entry`.
pub open spec fn backward_schedule_of<V>(nodes: Seq<NodeView<V>>, entry: int) -> Seq<Contribution> {
    contributions(nodes, backward_order_of(nodes, entry))
}

/// Facts on the steps of any order of distinct existing nodes taken by
/// descending id: each step follows an operand edge of a node of the order,
/// consumers never increase along the steps, a (consumer, slot) pair occurs
/// at most once, and every operand position of every node of the order is
/// covered.
proof fn lemma_contributions<V>(nodes: Seq<NodeView<V>>, order: Seq<usize>)
    requires
        arena_wf(nodes),
        strictly_descending(order),
        forall|i: int| 0 <= i < order.len() ==> #[trigger] order[i] < nodes.len(),
    ensures
        ({
            let c = contributions(nodes, order);
            &&& forall|a: int|
                0 <= a < c.len() ==> {
                    &&& order.contains(#[trigger] c[a].consumer)
                    &&& c[a].slot < nodes[c[a].consumer as int].operands.len()
                    &&& c[a].operand == nodes[c[a].consumer as int].operands[c[a].slot as int]
                }
            &&& forall|a: int, b: int|
                0 <= a < b < c.len() ==> #[trigger] c[a].consumer >= #[trigger] c[b].consumer
            &&& forall|a: int, b: int|
                0 <= a < b < c.len() && #[trigger] c[a].consumer == #[trigger] c[b].consumer
                    ==> c[a].slot != c[b].slot
            &&& forall|n: usize, k: int|
                order.contains(n) && 0 <= k < nodes[n as int].operands.len() ==> c.contains(#[trigger] step(nodes, n, k))
        }),
    decreases order.len(),
{
    if order.len() > 0 {
        let front = order.drop_last();
        let last = order.last();
        assert forall|i: int| 0 <= i < front.len() implies #[trigger] front[i] < nodes.len() by {
            assert(order[i] < nodes.len());
        }
        lemma_contributions(nodes, front);
        let p = contributions(nodes, front);
        let q = node_contributions(nodes, last);
        let c = contributions(nodes, order);
        assert(c == p + q);
        assert(order[order.len() - 1] == last);
        assert(node_wf(nodes, last as int));
        assert(q.len() <= 2);
        assert forall|x: usize| front.contains(x) implies order.contains(x) && x > last by {
            let i = choose|i: int| 0 <= i < front.len() && front[i] == x;
            assert(order[i] == x);
            assert(order[order.len() - 1] == last);
        }
        assert(order.contains(last)) by {
            assert(order[order.len() - 1] == last);
        }
        assert forall|a: int|
            0 <= a < c.len() implies {
                &&& order.contains(#[trigger] c[a].consumer)
                &&& c[a].slot < nodes[c[a].consumer as int].operands.len()
                &&& c[a].operand == nodes[c[a].consumer as int].operands[c[a].slot as int]
            } by {
            if a < p.len() {
                assert(c[a] == p[a]);
                assert(front.contains(p[a].consumer));
            } else {
                assert(c[a] == q[a - p.len()]);
                assert(q[a - p.len()] == step(nodes, last, a - p.len()));
            }
        }
        assert forall|a: int, b: int| 0 <= a < b < c.len() implies #[trigger] c[a].consumer
            >= #[trigger] c[b].consumer by {
            if b < p.len() {
                assert(c[a] == p[a] && c[b] == p[b]);
            } else if a < p.len() {
                assert(c[a] == p[a]);
                assert(front.contains(p[a].consumer));
            }
        }
        assert forall|a: int, b: int|
            0 <= a < b < c.len() && #[trigger] c[a].consumer == #[trigger] c[b].consumer implies c[a].slot
                != c[b].slot by {
            if b < p.len() {
                assert(c[a] == p[a] && c[b] == p[b]);
            } else if a < p.len() {
                assert(c[a] == p[a]);
                assert(front.contains(p[a].consumer));
            } else {
                assert(c[a] == q[a - p.len()] && c[b] == q[b - p.len()]);
                assert(q[a - p.len()] == step(nodes, last, a - p.len()));
                assert(q[b - p.len()] == step(nodes, last, b - p.len()));
            }
        }
        assert forall|n: usize, k: int|
            order.contains(n) && 0 <= k < nodes[n as int].operands.len() implies c.contains(#[trigger] step(nodes, n, k)) by {
            let e = step(nodes, n, k);
            if n == last {
                assert(c[p.len() + k] == e);
            } else {
                let i = choose|i: int| 0 <= i < order.len() && order[i] == n;
                assert(i < front.len());
                assert(front[i] == n);
                assert(p.contains(e));
                let a = choose|a: int| 0 <= a < p.len() && p[a] == e;
                assert(c[a] == e);
            }
        }
    }
}

/// In the backward order every node comes before all of its operands that
/// are reachable, that is after all of its consumers: if `order[b]` consumes
/// `order[a]`, then `b < a`. The order holds exactly the reachable nodes.
pub proof fn lemma_backward_order_consumers_first<V>(nodes: Seq<NodeView<V>>, entry: int)
    requires
        arena_wf(nodes),
        0 <= entry < nodes.len(),
    ensures
        ({
            let order = backward_order_of(nodes, entry);
            &&& forall|x: usize| #[trigger]
                order.contains(x) <==> (x < nodes.len() && reachable(nodes, entry, x as int))
            &&& forall|a: int, b: int|
                0 <= a < order.len() && 0 <= b < order.len() && nodes[order[b] as int].operands.contains(
                    #[trigger] order[a],
                ) && #[trigger] order[b] == order[b] ==> b < a
        }),
{
    let order = backward_order_of(nodes, entry);
    lemma_reachable_desc(nodes, entry, 0, entry + 1);
    assert forall|a: int, b: int|
        0 <= a < order.len() && 0 <= b < order.len() && nodes[order[b] as int].operands.contains(
            #[trigger] order[a],
        ) && #[trigger] order[b] == order[b] implies b < a by {
        assert(order.contains(order[b]));
        assert(node_wf(nodes, order[b] as int));
        let k = choose|k: int|
            0 <= k < nodes[order[b] as int].operands.len() && nodes[order[b] as int].operands[k]
                == order[a];
        assert(nodes[order[b] as int].operands[k] < order[b]);
    }
}

proof fn lemma_schedule_facts<V>(nodes: Seq<NodeView<V>>, entry: int)
    requires
        arena_wf(nodes),
        0 <= entry < nodes.len(),
    ensures
        forall|x: usize| #[trigger]
            backward_order_of(nodes, entry).contains(x) <==> (x < nodes.len() && reachable(
                nodes,
                entry,
                x as int,
            )),
        ({
            let c = backward_schedule_of(nodes, entry);
            &&& forall|a: int|
                0 <= a < c.len() ==> {
                    &&& backward_order_of(nodes, entry).contains(#[trigger] c[a].consumer)
                    &&& c[a].slot < nodes[c[a].consumer as int].operands.len()
                    &&& c[a].operand == nodes[c[a].consumer as int].operands[c[a].slot as int]
                }
            &&& forall|a: int, b: int|
                0 <= a < b < c.len() ==> #[trigger] c[a].consumer >= #[trigger] c[b].consumer
            &&& forall|a: int, b: int|
                0 <= a < b < c.len() && #[trigger] c[a].consumer == #[trigger] c[b].consumer
                    ==> c[a].slot != c[b].slot
            &&& forall|n: usize, k: int|
                backward_order_of(nodes, entry).contains(n) && 0 <= k
                    < nodes[n as int].operands.len() ==> c.contains(#[trigger] step(nodes, n, k))
        }),
{
    let order = backward_order_of(nodes, entry);
    lemma_reachable_desc(nodes, entry, 0, entry + 1);
    assert forall|i: int| 0 <= i < order.len() implies #[trigger] order[i] < nodes.len() by {
        assert(order.contains(order[i]));
    }
    lemma_contributions(nodes, order);
}

/// Gradient flows one way: a step into a node always comes before every step
/// out of that node. So when a node passes its gradient on, every consumer
/// of it in the reachable set has already added its share.
pub proof fn lemma_schedule_consumers_first<V>(nodes: Seq<NodeView<V>>, entry: int)
    requires
        arena_wf(nodes),
        0 <= entry < nodes.len(),
    ensures
        ({
            let c = backward_schedule_of(nodes, entry);
            forall|a: int, b: int|
                0 <= a < c.len() && 0 <= b < c.len() && #[trigger] c[b].operand
                    == #[trigger] c[a].consumer ==> b < a
        }),
{
    lemma_schedule_facts(nodes, entry);
    let c = backward_schedule_of(nodes, entry);
    assert forall|a: int, b: int|
        0 <= a < c.len() && 0 <= b < c.len() && #[trigger] c[b].operand == #[trigger] c[a].consumer implies b
            < a by {
        let m = c[b].consumer;
        assert(backward_order_of(nodes, entry).contains(m));
        assert(node_wf(nodes, m as int));
        assert(c[b].operand < m);
        if a < b {
            assert(c[a].consumer >= c[b].consumer);
        }
    }
}

/// A backward pass adds, never overwrites: each operand position of each
/// reachable node gets exactly one step, so a node used twice (as in `x * x`)
/// receives two steps and its gradient is their sum. Every step leaves a
/// reachable node and goes down one of its operand edges to a reachable node.
pub proof fn lemma_schedule_one_step_per_operand<V>(nodes: Seq<NodeView<V>>, entry: int)
    requires
        arena_wf(nodes),
        0 <= entry < nodes.len(),
    ensures
        ({
            let c = backward_schedule_of(nodes, entry);
            &&& forall|n: usize, k: int|
                n < nodes.len() && reachable(nodes, entry, n as int) && 0 <= k
                    < nodes[n as int].operands.len() ==> c.contains(#[trigger] step(nodes, n, k))
            &&& forall|a: int, b: int|
                0 <= a < c.len() && 0 <= b < c.len() && a != b ==> (#[trigger] c[a].consumer,
                c[a].slot) != (#[trigger] c[b].consumer, c[b].slot)
            &&& forall|a: int|
                0 <= a < c.len() ==> {
                    &&& reachable(nodes, entry, #[trigger] c[a].consumer as int)
                    &&& reachable(nodes, entry, c[a].operand as int)
                    &&& c[a] == step(nodes, c[a].consumer, c[a].slot as int)
                }
        }),
{
    lemma_schedule_facts(nodes, entry);
    let c = backward_schedule_of(nodes, entry);
    assert forall|a: int, b: int|
        0 <= a < c.len() && 0 <= b < c.len() && a != b implies (#[trigger] c[a].consumer, c[a].slot)
            != (#[trigger] c[b].consumer, c[b].slot) by {
        if a < b {
            if c[a].consumer == c[b].consumer {
                assert(c[a].slot != c[b].slot);
            }
        } else {
            if c[a].consumer == c[b].consumer {
                assert(c[b].slot != c[a].slot);
            }
        }
    }
    assert forall|a: int|
        0 <= a < c.len() implies {
            &&& reachable(nodes, entry, #[trigger] c[a].consumer as int)
            &&& reachable(nodes, entry, c[a].operand as int)
            &&& c[a] == step(nodes, c[a].consumer, c[a].slot as int)
        } by {
        let m = c[a].consumer;
        let j = c[a].operand;
        assert(backward_order_of(nodes, entry).contains(m));
        assert(node_wf(nodes, m as int));
        assert(j < m);
        assert(nodes[m as int].operands.contains(j));
        lemma_feeds_from(nodes, entry, j as int, m as int);
    }
}

/// A reachable node `m` above `j` that has `j` among its operands makes `j`
/// reachable.
proof fn lemma_feeds_from<V>(nodes: Seq<NodeView<V>>, entry: int, j: int, m: int)
    requires
        j < m <= entry,
        reachable(nodes, entry, m),
        nodes[m].operands.contains(j as usize),
    ensures
        feeds_from(nodes, entry, j, j + 1),
        reachable(nodes, entry, j),
    decreases m - j,
{
    if m > j + 1 {
        lemma_feeds_from_between(nodes, entry, j, j + 1, m);
    }
}

proof fn lemma_feeds_from_between<V>(nodes: Seq<NodeView<V>>, entry: int, j: int, lo: int, m: int)
    requires
        lo <= m <= entry,
        reachable(nodes, entry, m),
        nodes[m].operands.contains(j as usize),
    ensures
        feeds_from(nodes, entry, j, lo),
    decreases m - lo,
{
    if lo < m {
        lemma_feeds_from_between(nodes, entry, j, lo + 1, m);
    }
}

/// Nothing below a leaf is reachable from it.
proof fn lemma_leaf_reaches_nothing<V>(nodes: Seq<NodeView<V>>, entry: int, j: int, m: int)
    requires
        0 <= entry < nodes.len(),
        nodes[entry].operands.len() == 0,
        j < m,
    ensures
        !feeds_from(nodes, entry, j, m),
    decreases entry - m + 1,
{
    if m <= entry {
        lemma_leaf_reaches_nothing(nodes, entry, j, m + 1);
        if m < entry {
            lemma_leaf_reaches_nothing(nodes, entry, m, m + 1);
            assert(!reachable(nodes, entry, m));
        } else {
            assert(!nodes[m].operands.contains(j as usize));
        }
    }
}

/// A backward pass from a leaf has no steps: the seed on the leaf itself is
/// all it does.
pub proof fn lemma_leaf_schedule_empty<V>(nodes: Seq<NodeView<V>>, entry: int)
    requires
        arena_wf(nodes),
        0 <= entry < nodes.len(),
        nodes[entry].kind is None,
    ensures
        backward_schedule_of(nodes, entry).len() == 0,
{
    lemma_schedule_facts(nodes, entry);
    assert(node_wf(nodes, entry));
    let c = backward_schedule_of(nodes, entry);
    if c.len() > 0 {
        let m = c[0].consumer;
        assert(backward_order_of(nodes, entry).contains(m));
        if (m as int) < entry {
            lemma_leaf_reaches_nothing(nodes, entry, m as int, m + 1);
        }
    }
}

impl<V: Copy> Store<V> {
    /// The nodes that a backward pass from `entry` visits, in the order it
    /// visits them: each node reachable from `entry`, by descending id. Every
    /// node thus comes after all of its consumers in the reachable set.
    pub fn backward_order(&self, entry: usize) -> (r: Vec<usize>)
        requires
            self.wf(),
            entry < self@.len(),
        ensures
            r@ == backward_order_of(self@, entry as int),
            strictly_descending(r@),
            forall|x: usize| #[trigger]
                r@.contains(x) <==> (x < self@.len() && reachable(self@, entry as int, x as int)),
    {
        let ghost nodes = self@;
        let mut marked: Vec<bool> = Vec::new();
        while marked.len() <= entry
            invariant
                marked@.len() <= entry + 1,
                forall|j: int| 0 <= j < marked@.len() ==> !(#[trigger] marked@[j]),
            decreases entry + 1 - marked@.len(),
        {
            marked.push(false);
        }
        marked.set(entry, true);
        let mut order: Vec<usize> = Vec::new();
        let mut i: usize = entry + 1;
        while i > 0
            invariant
                self.wf(),
                self@ == nodes,
                entry < nodes.len(),
                marked@.len() == entry + 1,
                i <= entry + 1,
                order@ == reachable_desc(nodes, entry as int, i as int, entry + 1),
                forall|j: int|
                    0 <= j < i ==> (#[trigger] marked@[j] <==> (j == entry || feeds_from(
                        nodes,
                        entry as int,
                        j,
                        i as int,
                    ))),
            decreases i,
        {
            i = i - 1;
            assert(marked@[i as int] == reachable(nodes, entry as int, i as int));
            if marked[i] {
                order.push(i);
                let ops = self.operands_of(i);
                assert(node_wf(nodes, i as int));
                let ghost before = marked@;
                let mut k: usize = 0;
                while k < ops.len()
                    invariant
                        i < nodes.len(),
                        i <= entry,
                        ops@ == nodes[i as int].operands,
                        forall|t: int| 0 <= t < ops@.len() ==> #[trigger] ops@[t] < i,
                        marked@.len() == entry + 1,
                        before.len() == entry + 1,
                        k <= ops@.len(),
                        forall|j: int|
                            0 <= j < entry + 1 ==> (#[trigger] marked@[j] <==> (before[j]
                                || exists|t: int| 0 <= t < k && #[trigger] ops@[t] == j)),
                    decreases ops@.len() - k,
                {
                    marked.set(ops[k], true);
                    k = k + 1;
                }
                assert forall|j: int| 0 <= j < i implies (#[trigger] marked@[j] <==> (j == entry
                    || feeds_from(nodes, entry as int, j, i as int))) by {
                    if nodes[i as int].operands.contains(j as usize) {
                        let t = choose|t: int| 0 <= t < ops@.len() && ops@[t] == j as usize;
                        assert(ops@[t] == j);
                    }
                    if exists|t: int| 0 <= t < k && #[trigger] ops@[t] == j {
                        let t = choose|t: int| 0 <= t < k && #[trigger] ops@[t] == j;
                        assert(nodes[i as int].operands[t] == j as usize);
                    }
                }
            }
        }
        proof {
            lemma_reachable_desc(nodes, entry as int, 0, entry + 1);
        }
        order
    }

    /// The steps of a backward pass from `entry`: the nodes of
    /// `backward_order(entry)` in that order, each sending one step per
    /// operand position. Every step into a node comes before every step out of
    /// it, so each node has gathered all of its gradient before passing it on.
    pub fn backward_schedule(&self, entry: usize) -> (r: Vec<Contribution>)
        requires
            self.wf(),
            entry < self@.len(),
        ensures
            r@ == backward_schedule_of(self@, entry as int),
    {
        let order = self.backward_order(entry);
        let ghost nodes = self@;
        let mut sched: Vec<Contribution> = Vec::new();
        let mut idx: usize = 0;
        while idx < order.len()
            invariant
                self.wf(),
                self@ == nodes,
                idx <= order@.len(),
                forall|x: usize| #[trigger]
                    order@.contains(x) ==> x < nodes.len(),
                sched@ == contributions(nodes, order@.take(idx as int)),
            decreases order@.len() - idx,
        {
            let n = order[idx];
            assert(order@.contains(n));
            let ops = self.operands_of(n);
            let ghost prefix = sched@;
            let mut k: usize = 0;
            while k < ops.len()
                invariant
                    n < nodes.len(),
                    ops@ == nodes[n as int].operands,
                    k <= ops@.len(),
                    sched@ == prefix + node_contributions(nodes, n).take(k as int),
                decreases ops@.len() - k,
            {
                sched.push(Contribution { consumer: n, slot: k, operand: ops[k] });
                k = k + 1;
                assert(sched@ =~= prefix + node_contributions(nodes, n).take(k as int));
            }
            assert(node_contributions(nodes, n).take(k as int) =~= node_contributions(nodes, n));
            assert(order@.take(idx + 1).drop_last() =~= order@.take(idx as int));
            idx = idx + 1;
        }
        assert(order@.take(idx as int) =~= order@);
        sched
    }

    /// Starts a backward pass from `entry`: seeds its gradient with one and
    /// returns the steps that carry it to every reachable node. No other
    /// gradient, and no value or operation, changes.
    pub fn begin_backward(&mut self, entry: usize) -> (r: Vec<Contribution>)
        requires
            old(self).wf(),
            entry < old(self)@.len(),
        ensures
            final(self).wf(),
            final(self)@ == old(self)@.update(
                entry as int,
                NodeView { gradient: old(self).one(), ..old(self)@[entry as int] },
            ),
            final(self).zero() == old(self).zero(),
            final(self).one() == old(self).one(),
            r@ == backward_schedule_of(old(self)@, entry as int),
    {
        let r = self.backward_schedule(entry);
        self.seed_gradient(entry);
        r
    }
}

} // verus!
