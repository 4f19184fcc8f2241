use vstd::prelude::*;

verus! {

/// The primitive operations that a node can record.
#[derive(Clone, Copy, Debug, PartialEq, Eq, Structural)]
pub enum OpKind {
    Add,
    Multiply,
    Power,
    Relu,
}

impl OpKind {
    /// How many operands an operation of this kind takes.
    pub open spec fn arity(self) -> nat {
        match self {
            OpKind::Relu => 1,
            _ => 2,
        }
    }

    pub fn operand_count(&self) -> (r: usize)
        ensures
            r == self.arity(),
    {
        match self {
            OpKind::Relu => 1,
            _ => 2,
        }
    }
}

/// What a node is, seen from proofs: its value, its gradient, and the
/// operation that produced it (none for a leaf) with its operand ids.
pub struct NodeView<V> {
    pub value: V,
    pub gradient: V,
    pub kind: Option<OpKind>,
    pub operands: Seq<usize>,
}

/// Node `i` records a well-formed operation: a leaf has no operands, an
/// operation has as many as its kind takes, and each operand id is below `i`.
pub open spec fn node_wf<V>(nodes: Seq<NodeView<V>>, i: int) -> bool {
    let n = nodes[i];
    &&& n.kind is None ==> n.operands.len() == 0
    &&& n.kind matches Some(k) ==> n.operands.len() == k.arity()
    &&& forall|k: int| 0 <= k < n.operands.len() ==> 0 <= #[trigger] n.operands[k] < i
}

/// Every id fits in `usize` and every node of the arena is well formed;
/// operands always come first, so the arena is acyclic and ascending ids form
/// a topological order.
pub open spec fn arena_wf<V>(nodes: Seq<NodeView<V>>) -> bool {
    &&& nodes.len() <= usize::MAX
    &&& forall|i: int| 0 <= i < nodes.len() ==> #[trigger] node_wf(nodes, i)
}

/// The arena with every gradient set to `zero`.
pub open spec fn with_gradients_reset<V>(nodes: Seq<NodeView<V>>, zero: V) -> Seq<NodeView<V>> {
    Seq::new(nodes.len(), |i: int| NodeView { gradient: zero, ..nodes[i] })
}

/// The arena is acyclic by construction: in a well-formed store every
/// operand id of every node is strictly below the node's own id.
pub proof fn lemma_operands_precede<V: Copy>(s: &Store<V>)
    requires
        s.wf(),
    ensures
        forall|i: int, k: int|
            0 <= i < s@.len() && 0 <= k < s@[i].operands.len() ==> #[trigger] s@[i].operands[k] < i,
{
    assert forall|i: int, k: int|
        0 <= i < s@.len() && 0 <= k < s@[i].operands.len() implies #[trigger] s@[i].operands[k]
            < i by {
        assert(node_wf(s@, i));
    }
}

/// Resetting forgets every earlier gradient: two arenas that differ in their
/// gradients alone are equal once reset, and resetting twice is resetting
/// once. A backward pass changes gradients only, so reset followed by a
/// backward pass starts from the same state every time.
pub proof fn lemma_reset_forgets_gradients<V>(a: Seq<NodeView<V>>, b: Seq<NodeView<V>>, zero: V)
    requires
        a.len() == b.len(),
        forall|i: int|
            0 <= i < a.len() ==> (#[trigger] a[i]).value == b[i].value && a[i].kind == b[i].kind
                && a[i].operands == b[i].operands,
    ensures
        with_gradients_reset(a, zero) == with_gradients_reset(b, zero),
        with_gradients_reset(with_gradients_reset(a, zero), zero) == with_gradients_reset(a, zero),
{
    assert(with_gradients_reset(a, zero) =~= with_gradients_reset(b, zero));
    assert(with_gradients_reset(with_gradients_reset(a, zero), zero) =~= with_gradients_reset(
        a,
        zero,
    ));
}

/// An append-only arena of nodes. Ids are positions: they grow with each
/// node created and are never reused. `V` is the scalar type; the store keeps
/// the values it is given and the gradients written to it, and is told at
/// creation which scalars stand for zero and one.
pub struct Store<V> {
    values: Vec<V>,
    gradients: Vec<V>,
    kinds: Vec<Option<OpKind>>,
    operands: Vec<Vec<usize>>,
    zero: V,
    one: V,
}

impl<V> View for Store<V> {
    type V = Seq<NodeView<V>>;

    closed spec fn view(&self) -> Seq<NodeView<V>> {
        Seq::new(
            self.values@.len(),
            |i: int|
                NodeView {
                    value: self.values@[i],
                    gradient: self.gradients@[i],
                    kind: self.kinds@[i],
                    operands: self.operands@[i]@,
                },
        )
    }
}

impl<V: Copy> Store<V> {
    /// The scalar that gradients start from and are reset to.
    pub closed spec fn zero(&self) -> V {
        self.zero
    }

    /// The scalar that a backward pass seeds its entry node with.
    pub closed spec fn one(&self) -> V {
        self.one
    }

    /// The parallel columns of the arena have one entry per node.
    pub closed spec fn fields_agree(&self) -> bool {
        &&& self.gradients@.len() == self.values@.len()
        &&& self.kinds@.len() == self.values@.len()
        &&& self.operands@.len() == self.values@.len()
    }

    /// The store's internal invariant, and the acyclicity of its arena.
    pub open spec fn wf(&self) -> bool {
        &&& self.fields_agree()
        &&& arena_wf(self@)
    }

    /// An empty store.
    pub fn new(zero: V, one: V) -> (r: Self)
        ensures
            r.wf(),
            r@.len() == 0,
            r.zero() == zero,
            r.one() == one,
    {
        let r = Store {
            values: Vec::new(),
            gradients: Vec::new(),
            kinds: Vec::new(),
            operands: Vec::new(),
            zero,
            one,
        };
        assert(r@ =~= Seq::<NodeView<V>>::empty());
        r
    }

    /// The number of nodes created so far; also the id the next node gets.
    pub fn len(&self) -> (r: usize)
        requires
            self.wf(),
        ensures
            r == self@.len(),
    {
        self.values.len()
    }

    /// Appends a leaf holding `value`, with a zero gradient, and returns its id.
    pub fn create_leaf(&mut self, value: V) -> (id: usize)
        requires
            old(self).wf(),
            old(self)@.len() < usize::MAX,
        ensures
            final(self).wf(),
            id == old(self)@.len(),
            final(self)@ == old(self)@.push(
                NodeView { value, gradient: old(self).zero(), kind: None, operands: Seq::empty() },
            ),
            final(self).zero() == old(self).zero(),
            final(self).one() == old(self).one(),
    {
        let id = self.values.len();
        self.values.push(value);
        self.gradients.push(self.zero);
        self.kinds.push(None);
        self.operands.push(Vec::new());
        let ghost node = NodeView {
            value,
            gradient: old(self).zero(),
            kind: None,
            operands: Seq::<usize>::empty(),
        };
        assert(self@ =~= old(self)@.push(node)) by {
            assert(self.operands@[id as int]@ =~= Seq::<usize>::empty());
        }
        assert(arena_wf(self@)) by {
            assert forall|i: int| 0 <= i < self@.len() implies #[trigger] node_wf(self@, i) by {
                if i < id {
                    assert(node_wf(old(self)@, i));
                }
            }
        }
        id
    }

    /// Appends a node recording an operation of `kind` on `operands`, whose
    /// forward result the caller computed as `value`; its gradient is zero.
    /// Every operand must be an existing node, so the arena stays acyclic.
    pub fn create_op(&mut self, kind: OpKind, operands: Vec<usize>, value: V) -> (id: usize)
        requires
            old(self).wf(),
            old(self)@.len() < usize::MAX,
            operands@.len() == kind.arity(),
            forall|k: int| 0 <= k < operands@.len() ==> #[trigger] operands@[k] < old(self)@.len(),
        ensures
            final(self).wf(),
            id == old(self)@.len(),
            final(self)@ == old(self)@.push(
                NodeView { value, gradient: old(self).zero(), kind: Some(kind), operands: operands@ },
            ),
            final(self).zero() == old(self).zero(),
            final(self).one() == old(self).one(),
    {
        let id = self.values.len();
        let ghost ops = operands@;
        self.values.push(value);
        self.gradients.push(self.zero);
        self.kinds.push(Some(kind));
        self.operands.push(operands);
        let ghost node = NodeView { value, gradient: old(self).zero(), kind: Some(kind), operands: ops };
        assert(self@ =~= old(self)@.push(node));
        assert(arena_wf(self@)) by {
            assert forall|i: int| 0 <= i < self@.len() implies #[trigger] node_wf(self@, i) by {
                if i < id {
                    assert(node_wf(old(self)@, i));
                }
            }
        }
        id
    }

    /// Sets every gradient to zero, leaving values and operations as they are.
    pub fn reset_gradients(&mut self)
        requires
            old(self).wf(),
        ensures
            final(self).wf(),
            final(self)@ == with_gradients_reset(old(self)@, old(self).zero()),
            final(self).zero() == old(self).zero(),
            final(self).one() == old(self).one(),
    {
        let n = self.gradients.len();
        let mut i: usize = 0;
        while i < n
            invariant
                self.fields_agree(),
                n == self@.len(),
                i <= n,
                self.zero == old(self).zero,
                self.one == old(self).one,
                self.values@ == old(self).values@,
                self.kinds@ == old(self).kinds@,
                self.operands@ == old(self).operands@,
                forall|j: int|
                    0 <= j < n ==> (#[trigger] self.gradients@[j]) == (if j < i {
                        old(self).zero
                    } else {
                        old(self).gradients@[j]
                    }),
            decreases n - i,
        {
            let z = self.zero;
            self.gradients.set(i, z);
            i = i + 1;
        }
        assert(self@ =~= with_gradients_reset(old(self)@, old(self).zero()));
        assert(arena_wf(self@)) by {
            assert forall|i: int| 0 <= i < self@.len() implies #[trigger] node_wf(self@, i) by {
                assert(node_wf(old(self)@, i));
            }
        }
    }

    /// Overwrites the gradient of node `id`; nothing else changes.
    pub fn set_gradient(&mut self, id: usize, gradient: V)
        requires
            old(self).wf(),
            id < old(self)@.len(),
        ensures
            final(self).wf(),
            final(self)@ == old(self)@.update(id as int, NodeView { gradient, ..old(self)@[id as int] }),
            final(self).zero() == old(self).zero(),
            final(self).one() == old(self).one(),
    {
        self.gradients.set(id, gradient);
        assert(self@ =~= old(self)@.update(id as int, NodeView { gradient, ..old(self)@[id as int] }));
        assert(arena_wf(self@)) by {
            assert forall|i: int| 0 <= i < self@.len() implies #[trigger] node_wf(self@, i) by {
                assert(node_wf(old(self)@, i));
            }
        }
    }

    /// Seeds a backward pass from `entry`: its gradient becomes one, the
    /// derivative of the entry with respect to itself.
    pub fn seed_gradient(&mut self, entry: usize)
        requires
            old(self).wf(),
            entry < old(self)@.len(),
        ensures
            final(self).wf(),
            final(self)@ == old(self)@.update(
                entry as int,
                NodeView { gradient: old(self).one(), ..old(self)@[entry as int] },
            ),
            final(self).zero() == old(self).zero(),
            final(self).one() == old(self).one(),
    {
        let one = self.one;
        self.set_gradient(entry, one);
    }

    /// The value of node `id`.
    pub fn value_of(&self, id: usize) -> (r: V)
        requires
            self.wf(),
            id < self@.len(),
        ensures
            r == self@[id as int].value,
    {
        self.values[id]
    }

    /// The gradient accumulated on node `id`.
    pub fn gradient_of(&self, id: usize) -> (r: V)
        requires
            self.wf(),
            id < self@.len(),
        ensures
            r == self@[id as int].gradient,
    {
        self.gradients[id]
    }

    /// The operation that produced node `id`; `None` for a leaf.
    pub fn kind_of(&self, id: usize) -> (r: Option<OpKind>)
        requires
            self.wf(),
            id < self@.len(),
        ensures
            r == self@[id as int].kind,
    {
        self.kinds[id]
    }

    /// The operand ids of node `id`, in order; empty for a leaf.
    pub fn operands_of(&self, id: usize) -> (r: Vec<usize>)
        requires
            self.wf(),
            id < self@.len(),
        ensures
            r@ == self@[id as int].operands,
    {
        let src = &self.operands[id];
        let mut r: Vec<usize> = Vec::new();
        let mut k: usize = 0;
        while k < src.len()
            invariant
                k <= src@.len(),
                r@ == src@.take(k as int),
            decreases src@.len() - k,
        {
            r.push(src[k]);
            k = k + 1;
            assert(r@ =~= src@.take(k as int));
        }
        assert(src@.take(k as int) =~= src@);
        r
    }
}

} // verus!
