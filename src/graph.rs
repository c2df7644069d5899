//! The computation graph: construction, evaluation order and evaluation.
use crate::arena::{fresh_graph_token, slot_entries, slots_get, slots_insert, slots_new, slots_remove, NodeSlots};
use crate::count::{
    all_pending, lemma_occurrences_bound, lemma_occurrences_empty, lemma_occurrences_present,
    lemma_occurrences_take, lemma_uses_bounds, lemma_uses_push, lemma_uses_retire, lemma_uses_update,
    lemma_uses_zero, occurrences, uses,
};
use crate::dot::{decimal, escaped, push_decimal, push_escaped};
use crate::node::{total, Node};
use crate::paths::{
    adj_wf, has_reachable_cycle, input_closed, is_evaluation_order, is_path, is_topo_order,
    lemma_closed_covers, lemma_distinct_bounded, lemma_order_excludes_cycle, lemma_path_extend,
    lemma_path_sub, lemma_topo_push, on_cycle, reaches,
};
use vstd::prelude::*;

verus! {

/// Why a graph operation was refused.
#[derive(Debug, Clone, Copy, PartialEq, Eq)]
pub enum GraphError {
    /// A handle issued by another graph.
    ForeignHandle,
    /// An output node was already designated.
    OutputAlreadyDesignated,
    /// A node was listed among its own inputs.
    SelfLoop,
    /// `compute` was called before an output node was designated.
    OutputNotDesignated,
    /// A cycle is reachable from the output node.
    Cycle,
    /// The wiring would push a live-reference counter past `u32::MAX`.
    CounterOverflow,
}

/// An opaque handle to a node of a [`ComputationGraph`]: the node's key and
/// the token of the graph that issued it. It is deliberately neither `Copy`
/// nor `Clone`.
#[derive(Debug, PartialEq, Eq, Hash)]
pub struct NodeHandle {
    node_key: u64,
    graph_id: u64,
}

impl NodeHandle {
    /// The token of the graph that issued the handle.
    pub closed spec fn graph(&self) -> u64 {
        self.graph_id
    }
}

/// A DAG that expresses a computation flow between nodes. Node records sit
/// at fixed positions; the slot map hands out the keys that handles carry.
pub struct ComputationGraph<T, F> {
    slots: NodeSlots,
    nodes: Vec<Option<Node<T, F>>>,
    keys: Vec<u64>,
    refcount: Vec<u32>,
    output_node: Option<usize>,
    graph_id: u64,
}

impl<T, F: Fn(&[&T]) -> T> ComputationGraph<T, F> {
    /// Number of node positions in use.
    pub closed spec fn len(&self) -> nat {
        self.nodes@.len()
    }

    /// The record at position `i`.
    pub closed spec fn node_at(&self, i: int) -> Node<T, F> {
        self.nodes@[i]->Some_0
    }

    /// Declared inputs of every node, by position.
    pub closed spec fn adj(&self) -> Seq<Seq<usize>> {
        Seq::new(self.nodes@.len(), |i: int| self.nodes@[i]->Some_0.input_nodes@)
    }

    /// Names of every node, by position.
    pub closed spec fn names(&self) -> Seq<Seq<char>> {
        Seq::new(self.nodes@.len(), |i: int| self.nodes@[i]->Some_0.name@)
    }

    /// Functions of every node, by position.
    pub closed spec fn funcs(&self) -> Seq<F> {
        Seq::new(self.nodes@.len(), |i: int| self.nodes@[i]->Some_0.func)
    }

    /// Position of the designated output node.
    pub closed spec fn output(&self) -> Option<usize> {
        self.output_node
    }

    /// The token carried by every handle this graph issues.
    pub closed spec fn token(&self) -> u64 {
        self.graph_id
    }

    /// `h` was issued by this graph and names a node in it.
    pub closed spec fn owns(&self, h: NodeHandle) -> bool {
        h.graph_id == self.graph_id && slot_entries(self.slots).contains_key(h.node_key)
    }

    /// Position of the node that `h` names.
    pub closed spec fn pos(&self, h: NodeHandle) -> usize {
        slot_entries(self.slots)[h.node_key]
    }

    /// Consumers of node `v`: each place it is listed as an input, and the
    /// output designation.
    pub open spec fn consumers(&self, v: usize) -> nat {
        uses(self.adj(), all_pending(self.len()), v) + if self.output() == Some(v) {
            1nat
        } else {
            0nat
        }
    }

    /// The graph's invariant while it is being built.
    pub closed spec fn wf(&self) -> bool {
        let n = self.nodes@.len();
        let entries = slot_entries(self.slots);
        &&& self.keys@.len() == n
        &&& self.refcount@.len() == n
        &&& forall|i: int|
            0 <= i < n ==> (#[trigger] self.nodes@[i]) is Some && self.node_at(i).output_cache is None
                && total(self.node_at(i).func)
        &&& adj_wf(self.adj())
        &&& forall|u: int| 0 <= u < n ==> !(#[trigger] self.adj()[u]).contains(u as usize)
        &&& entries.dom().finite()
        &&& entries.dom().len() == n
        &&& forall|k: u64|
            #[trigger] entries.contains_key(k) ==> entries[k] < n && self.keys@[entries[k] as int]
                == k
        &&& forall|i: int|
            0 <= i < n ==> entries.contains_key(#[trigger] self.keys@[i]) && entries[self.keys@[i]]
                == i
        &&& self.output_node matches Some(o) ==> o < n
        &&& forall|v: usize| v < n ==> #[trigger] self.refcount@[v as int] == self.consumers(v)
    }

    /// An empty graph with a fresh token.
    pub fn new() -> (r: Self)
        ensures
            r.wf(),
            r.len() == 0,
            r.adj() == Seq::<Seq<usize>>::empty(),
            r.names() == Seq::<Seq<char>>::empty(),
            r.funcs() == Seq::<F>::empty(),
            r.output() is None,
    {
        let g = ComputationGraph {
            slots: slots_new(),
            nodes: Vec::new(),
            keys: Vec::new(),
            refcount: Vec::new(),
            output_node: None,
            graph_id: fresh_graph_token(),
        };
        assert(g.adj() =~= Seq::<Seq<usize>>::empty());
        assert(g.names() =~= Seq::<Seq<char>>::empty());
        assert(g.funcs() =~= Seq::<F>::empty());
        g
    }

    /// Inserts a new node with no inputs, returning its handle. Names need not
    /// be unique, though unique names make diagnostics easier to read.
    pub fn insert_node(&mut self, name: String, func: F) -> (h: NodeHandle)
        requires
            old(self).wf(),
            total(func),
            old(self).len() + 3 < u32::MAX,
        ensures
            final(self).wf(),
            final(self).adj() == old(self).adj().push(Seq::<usize>::empty()),
            final(self).names() == old(self).names().push(name@),
            final(self).funcs() == old(self).funcs().push(func),
            final(self).output() == old(self).output(),
            final(self).token() == old(self).token(),
            final(self).owns(h),
            final(self).pos(h) == old(self).len(),
            forall|h2: NodeHandle|
                old(self).owns(h2) ==> final(self).owns(h2) && final(self).pos(h2) == old(self).pos(
                    h2,
                ),
    {
        let ghost g0 = self.adj();
        let ghost n0 = self.nodes@.len();
        let pos = self.nodes.len();
        let node = Node::new(name, func);
        let key = slots_insert(&mut self.slots, pos);
        self.nodes.push(Some(node));
        self.keys.push(key);
        self.refcount.push(0);
        proof {
            assert(self.adj() =~= g0.push(Seq::<usize>::empty()));
            assert(self.names() =~= old(self).names().push(name@));
            assert(self.funcs() =~= old(self).funcs().push(func));
            assert(all_pending(n0 + 1) =~= all_pending(n0).push(true));
            let entries = slot_entries(self.slots);
            assert(entries.dom() =~= slot_entries(old(self).slots).dom().insert(key));
            assert forall|k: u64| #[trigger] entries.contains_key(k) implies entries[k] < self.nodes@.len()
                && self.keys@[entries[k] as int] == k by {
                if k != key {
                    assert(slot_entries(old(self).slots).contains_key(k));
                }
            }
            assert forall|i: int| 0 <= i < self.nodes@.len() implies entries.contains_key(
                #[trigger] self.keys@[i],
            ) && entries[self.keys@[i]] == i by {
                if i < n0 {
                    assert(self.keys@[i] == old(self).keys@[i]);
                    assert(slot_entries(old(self).slots).contains_key(old(self).keys@[i]));
                }
            }
            assert forall|v: usize| v < self.nodes@.len() implies #[trigger] self.refcount@[v as int]
                == self.consumers(v) by {
                lemma_uses_push(g0, all_pending(n0), true, v);
                if v == pos {
                    assert forall|u: int| 0 <= u < self.adj().len() && #[trigger] all_pending(
                        n0 + 1,
                    )[u] implies !self.adj()[u].contains(v) by {
                        if u < n0 && self.adj()[u].contains(v) {
                            let k = choose|k: int| 0 <= k < g0[u].len() && g0[u][k] == v;
                            assert(g0[u][k] < n0);
                        }
                    }
                    lemma_uses_zero(self.adj(), all_pending(n0 + 1), v);
                } else {
                    assert(self.refcount@[v as int] == old(self).refcount@[v as int]);
                }
            }
            assert forall|u: int| 0 <= u < self.nodes@.len() implies !(
            #[trigger] self.adj()[u]).contains(u as usize) by {
                if u < n0 {
                    assert(self.adj()[u] == g0[u]);
                }
            }
            assert forall|i: int| 0 <= i < self.nodes@.len() implies (
            #[trigger] self.nodes@[i]) is Some && self.node_at(i).output_cache is None && total(
                self.node_at(i).func,
            ) by {
                if i < n0 {
                    assert(self.nodes@[i] == old(self).nodes@[i]);
                }
            }
        }
        NodeHandle { node_key: key, graph_id: self.graph_id }
    }

    /// `other` has the same nodes, names, functions, identifiers and handles.
    pub open spec fn same_nodes(&self, other: &Self) -> bool {
        &&& self.len() == other.len()
        &&& self.names() == other.names()
        &&& self.funcs() == other.funcs()
        &&& self.ids() == other.ids()
        &&& self.token() == other.token()
        &&& forall|h: NodeHandle| #[trigger] self.owns(h) == other.owns(h) && self.pos(h) == other.pos(h)
    }

    /// `node` and every handle of `inputs` were issued by this graph.
    pub open spec fn owns_all(&self, node: NodeHandle, inputs: Seq<&NodeHandle>) -> bool {
        &&& self.owns(node)
        &&& forall|k: int| 0 <= k < inputs.len() ==> self.owns(*#[trigger] inputs[k])
    }

    /// Positions of the nodes that `hs` name, in order.
    pub open spec fn positions(&self, hs: Seq<&NodeHandle>) -> Seq<usize> {
        hs.map_values(|h: &NodeHandle| self.pos(*h))
    }

    /// Returns the name of the node that `node` names.
    pub fn node_name(&self, node: &NodeHandle) -> (r: Result<&str, GraphError>)
        requires
            self.wf(),
        ensures
            node.graph() != self.token() ==> r == Err::<&str, GraphError>(GraphError::ForeignHandle),
            self.owns(*node) ==> (r matches Ok(s) && s@ == self.names()[self.pos(*node) as int]),
    {
        if node.graph_id != self.graph_id {
            return Err(GraphError::ForeignHandle);
        }
        match slots_get(&self.slots, node.node_key) {
            Some(p) => {
                proof {
                    let k2 = choose|k2: u64|
                        slot_entries(self.slots).contains_key(k2) && slot_entries(self.slots)[k2] == p;
                    assert(self.nodes@[p as int] is Some);
                }
                Ok(self.nodes[p].as_ref().unwrap().name.as_str())
            },
            None => Err(GraphError::ForeignHandle),
        }
    }

    /// Designates the node that `node` names as the output node, which counts
    /// as one more consumer of it.
    pub fn designate_output(&mut self, node: &NodeHandle) -> (r: Result<(), GraphError>)
        requires
            old(self).wf(),
        ensures
            final(self).wf(),
            r is Err ==> *final(self) == *old(self),
            old(self).output() is Some ==> r == Err::<(), GraphError>(GraphError::OutputAlreadyDesignated),
            old(self).output() is None && node.graph() != old(self).token() ==> r == Err::<(), GraphError>(
                GraphError::ForeignHandle,
            ),
            old(self).output() is None && old(self).owns(*node) ==> (r == Err::<(), GraphError>(
                GraphError::CounterOverflow,
            ) <==> old(self).consumers(old(self).pos(*node)) == u32::MAX),
            old(self).output() is None && old(self).owns(*node) && old(self).consumers(old(self).pos(*node))
                < u32::MAX ==> r is Ok,
            old(self).output() is None && old(self).owns(*node) && r is Ok ==> final(self).output() == Some(
                old(self).pos(*node),
            ),
            r is Ok ==> final(self).same_nodes(old(self)) && final(self).adj() == old(self).adj(),
    {
        if self.output_node.is_some() {
            return Err(GraphError::OutputAlreadyDesignated);
        }
        if node.graph_id != self.graph_id {
            return Err(GraphError::ForeignHandle);
        }
        let p = match slots_get(&self.slots, node.node_key) {
            Some(p) => p,
            None => {
                return Err(GraphError::ForeignHandle);
            },
        };
        proof {
            let k2 = choose|k2: u64|
                slot_entries(self.slots).contains_key(k2) && slot_entries(self.slots)[k2] == p;
        }
        let c = self.refcount[p];
        if c == u32::MAX {
            return Err(GraphError::CounterOverflow);
        }
        self.output_node = Some(p);
        self.refcount.set(p, c + 1);
        proof {
            assert(self.adj() =~= old(self).adj());
            assert(self.names() =~= old(self).names());
            assert(self.funcs() =~= old(self).funcs());
            assert forall|v: usize| v < self.nodes@.len() implies #[trigger] self.refcount@[v as int]
                == self.consumers(v) by {
                assert(old(self).refcount@[v as int] == old(self).consumers(v));
            }
        }
        Ok(())
    }

    /// Sets the inputs of the node that `node` names, in order. Each listed
    /// node gains a consumer and each formerly listed one loses one. A node
    /// cannot be its own input; longer cycles are only found by `compute`.
    #[verifier::loop_isolation(false)]
    pub fn set_inputs(&mut self, node: &mut NodeHandle, inputs: &[&NodeHandle]) -> (r: Result<
        (),
        GraphError,
    >)
        requires
            old(self).wf(),
        ensures
            final(self).wf(),
            *final(node) == *old(node),
            r is Err ==> *final(self) == *old(self),
            old(node).graph() != old(self).token() || (exists|k: int|
                0 <= k < inputs@.len() && (#[trigger] inputs@[k]).graph() != old(self).token())
                ==> r == Err::<(), GraphError>(GraphError::ForeignHandle),
            old(self).owns_all(*old(node), inputs@) ==> (r == Err::<(), GraphError>(
                GraphError::SelfLoop,
            ) <==> old(self).positions(inputs@).contains(old(self).pos(*old(node)))),
            old(self).owns_all(*old(node), inputs@) && !old(self).positions(inputs@).contains(
                old(self).pos(*old(node)),
            ) ==> (r == Err::<(), GraphError>(GraphError::CounterOverflow) <==> exists|k: int|
                0 <= k < inputs@.len() && old(self).consumers(
                    #[trigger] old(self).positions(inputs@)[k],
                ) + inputs@.len() > u32::MAX),
            old(self).owns_all(*old(node), inputs@) && !old(self).positions(inputs@).contains(
                old(self).pos(*old(node)),
            ) && (forall|k: int|
                0 <= k < inputs@.len() ==> old(self).consumers(
                    #[trigger] old(self).positions(inputs@)[k],
                ) + inputs@.len() <= u32::MAX) ==> r is Ok,
            old(self).owns_all(*old(node), inputs@) && r is Ok ==> final(self).adj() == old(
                self,
            ).adj().update(old(self).pos(*old(node)) as int, old(self).positions(inputs@)),
            r is Ok ==> final(self).same_nodes(old(self)) && final(self).output() == old(self).output(),
    {
        let n = self.nodes.len();
        if node.graph_id != self.graph_id {
            return Err(GraphError::ForeignHandle);
        }
        let mut k: usize = 0;
        while k < inputs.len()
            invariant
                k <= inputs@.len(),
                forall|j: int| 0 <= j < k ==> (#[trigger] inputs@[j]).graph() == self.token(),
            decreases inputs@.len() - k,
        {
            if inputs[k].graph_id != self.graph_id {
                return Err(GraphError::ForeignHandle);
            }
            k = k + 1;
        }
        let target = match slots_get(&self.slots, node.node_key) {
            Some(p) => p,
            None => {
                return Err(GraphError::ForeignHandle);
            },
        };
        proof {
            let k2 = choose|k2: u64|
                slot_entries(self.slots).contains_key(k2) && slot_entries(self.slots)[k2] == target;
        }
        let mut positions: Vec<usize> = Vec::new();
        k = 0;
        while k < inputs.len()
            invariant
                self == old(self),
                self.wf(),
                n == self.nodes@.len(),
                k <= inputs@.len(),
                positions@.len() == k,
                forall|j: int| 0 <= j < k ==> #[trigger] positions@[j] < n,
                forall|j: int|
                    0 <= j < k && self.owns(*inputs@[j]) ==> #[trigger] positions@[j] == self.pos(
                        *inputs@[j],
                    ),
            decreases inputs@.len() - k,
        {
            match slots_get(&self.slots, inputs[k].node_key) {
                Some(p) => {
                    proof {
                        let k2 = choose|k2: u64|
                            slot_entries(self.slots).contains_key(k2) && slot_entries(self.slots)[k2]
                                == p;
                    }
                    positions.push(p);
                },
                None => {
                    return Err(GraphError::ForeignHandle);
                },
            }
            k = k + 1;
        }
        proof {
            if self.owns_all(*node, inputs@) {
                assert(positions@ =~= self.positions(inputs@));
            }
        }
        k = 0;
        while k < positions.len()
            invariant
                k <= positions@.len(),
                forall|j: int| 0 <= j < k ==> #[trigger] positions@[j] != target,
            decreases positions@.len() - k,
        {
            if positions[k] == target {
                return Err(GraphError::SelfLoop);
            }
            k = k + 1;
        }
        k = 0;
        while k < positions.len()
            invariant
                self == old(self),
                self.wf(),
                n == self.nodes@.len(),
                positions@.len() == inputs@.len(),
                forall|j: int| 0 <= j < positions@.len() ==> #[trigger] positions@[j] < n,
                k <= positions@.len(),
                forall|j: int|
                    0 <= j < k ==> self.refcount@[#[trigger] positions@[j] as int] + inputs@.len()
                        <= u32::MAX,
            decreases positions@.len() - k,
        {
            let c = self.refcount[positions[k]] as usize;
            if inputs.len() > u32::MAX as usize || c > u32::MAX as usize - inputs.len() {
                return Err(GraphError::CounterOverflow);
            }
            k = k + 1;
        }
        self.rewire(target, positions);
        Ok(())
    }

    /// Replaces the inputs of the node at `target` and corrects the counters.
    #[verifier::loop_isolation(false)]
    fn rewire(&mut self, target: usize, positions: Vec<usize>)
        requires
            old(self).wf(),
            target < old(self).len(),
            forall|j: int| 0 <= j < positions@.len() ==> #[trigger] positions@[j] < old(self).len(),
            !positions@.contains(target),
            forall|j: int|
                0 <= j < positions@.len() ==> old(self).refcount@[#[trigger] positions@[j] as int]
                    + positions@.len() <= u32::MAX,
        ensures
            final(self).wf(),
            final(self).adj() == old(self).adj().update(target as int, positions@),
            final(self).same_nodes(old(self)),
            final(self).output() == old(self).output(),
    {
        let ghost g0 = self.adj();
        let ghost c0 = self.refcount@;
        let ghost n = self.nodes@.len();
        let ghost pend = all_pending(n);
        let mut slot: Option<Node<T, F>> = None;
        self.nodes.set_and_swap(target, &mut slot);
        let mut nd = slot.unwrap();
        let mut old_inputs: Vec<usize> = Vec::new();
        std::mem::swap(&mut nd.input_nodes, &mut old_inputs);
        let ghost o = old_inputs@;
        let ghost nodes1 = self.nodes@;
        assert(o == g0[target as int]);
        let mut j: usize = 0;
        while j < old_inputs.len()
            invariant
                o == old_inputs@,
                o == g0[target as int],
                self.nodes@ == nodes1,
                self.keys == old(self).keys,
                self.slots == old(self).slots,
                self.output_node == old(self).output_node,
                self.graph_id == old(self).graph_id,
                j <= o.len(),
                self.refcount@.len() == n,
                g0.len() == n,
                pend == all_pending(n),
                target < n,
                adj_wf(g0),
                forall|v: usize|
                    v < n ==> #[trigger] self.refcount@[v as int] + occurrences(o.subrange(0, j as int), v)
                        == c0[v as int],
                forall|v: usize| v < n ==> c0[v as int] >= uses(g0, pend, v),
            decreases o.len() - j,
        {
            let w = old_inputs[j];
            proof {
                lemma_occurrences_take(o, j as int, w);
                lemma_uses_bounds(g0, pend, target as int, w);
                assert(w < n);
            }
            let c = self.refcount[w];
            self.refcount.set(w, c - 1);
            proof {
                assert forall|v: usize| v < n implies #[trigger] self.refcount@[v as int] + occurrences(
                    o.subrange(0, j + 1),
                    v,
                ) == c0[v as int] by {
                    lemma_occurrences_take(o, j as int, v);
                }
            }
            j = j + 1;
        }
        assert(o.subrange(0, o.len() as int) =~= o);
        let ghost c1 = self.refcount@;
        let ghost p = positions@;
        j = 0;
        while j < positions.len()
            invariant
                p == positions@,
                j <= p.len(),
                self.nodes@ == nodes1,
                self.keys == old(self).keys,
                self.slots == old(self).slots,
                self.output_node == old(self).output_node,
                self.graph_id == old(self).graph_id,
                self.refcount@.len() == n,
                forall|i: int| 0 <= i < p.len() ==> #[trigger] p[i] < n,
                forall|i: int| 0 <= i < p.len() ==> c0[#[trigger] p[i] as int] + p.len() <= u32::MAX,
                forall|v: usize| v < n ==> #[trigger] c1[v as int] <= c0[v as int],
                forall|v: usize|
                    v < n ==> #[trigger] self.refcount@[v as int] == c1[v as int] + occurrences(
                        p.subrange(0, j as int),
                        v,
                    ),
            decreases p.len() - j,
        {
            let w = positions[j];
            proof {
                lemma_occurrences_take(p, j as int, w);
                lemma_occurrences_bound(p.subrange(0, j as int), w);
            }
            let c = self.refcount[w];
            self.refcount.set(w, c + 1);
            proof {
                assert forall|v: usize| v < n implies #[trigger] self.refcount@[v as int] == c1[v as int]
                    + occurrences(p.subrange(0, j + 1), v) by {
                    lemma_occurrences_take(p, j as int, v);
                }
            }
            j = j + 1;
        }
        assert(p.subrange(0, p.len() as int) =~= p);
        nd.input_nodes = positions;
        let mut back = Some(nd);
        self.nodes.set_and_swap(target, &mut back);
        proof {
            let g1 = g0.update(target as int, p);
            assert(self.adj() =~= g1);
            assert(self.names() =~= old(self).names());
            assert(self.funcs() =~= old(self).funcs());
            assert forall|v: usize| v < n implies #[trigger] self.refcount@[v as int] == self.consumers(v) by {
                lemma_uses_update(g0, pend, target as int, p, v);
                assert(old(self).refcount@[v as int] == old(self).consumers(v));
            }
            assert forall|u: int, k: int| 0 <= u < g1.len() && 0 <= k < g1[u].len() implies g1[u][k] < g1.len() by {
                if u != target {
                    assert(g1[u] == g0[u]);
                }
            }
            assert forall|u: int| 0 <= u < n implies !(#[trigger] self.adj()[u]).contains(u as usize) by {
                if u != target {
                    assert(self.adj()[u] == g0[u]);
                }
            }
            assert forall|i: int| 0 <= i < n implies (#[trigger] self.nodes@[i]) is Some
                && self.node_at(i).output_cache is None && total(self.node_at(i).func) by {
                if i != target {
                    assert(self.nodes@[i] == old(self).nodes@[i]);
                }
            }
        }
    }

    /// The declared inputs of the node at position `v`.
    fn inputs_of(&self, v: usize) -> (r: &Vec<usize>)
        requires
            self.wf(),
            v < self.len(),
        ensures
            r@ == self.adj()[v as int],
    {
        assert(self.nodes@[v as int] is Some);
        &self.nodes[v].as_ref().unwrap().input_nodes
    }

    /// Depth-first visit of `node` and its inputs. `state` marks each node as
    /// unseen (0), on the current walk `stack` from `root` (1) or finished (2);
    /// finished nodes are appended to `order`. Returns false when the walk
    /// meets itself, which closes a cycle.
    #[verifier::loop_isolation(false)]
    #[verifier::rlimit(40)]
    fn toposort_helper(
        &self,
        node: usize,
        state: &mut Vec<u8>,
        order: &mut Vec<usize>,
        Ghost(root): Ghost<usize>,
        Ghost(stack): Ghost<Seq<usize>>,
    ) -> (ok: bool)
        requires
            self.wf(),
            node < self.len(),
            old(state)@.len() == self.len(),
            is_path(self.adj(), stack.push(node)),
            stack.push(node)[0] == root,
            stack.no_duplicates(),
            forall|i: int| 0 <= i < stack.len() ==> #[trigger] stack[i] < self.len(),
            dfs_marks(old(state)@, stack, old(order)@),
            is_topo_order(self.adj(), old(order)@),
            forall|x: usize| #[trigger] old(order)@.contains(x) ==> reaches(self.adj(), root, x),
        ensures
            ok ==> dfs_marks(final(state)@, stack, final(order)@),
            ok ==> final(state)@.len() == self.len(),
            ok ==> is_topo_order(self.adj(), final(order)@),
            ok ==> forall|x: usize| #[trigger] final(order)@.contains(x) ==> reaches(self.adj(), root, x),
            ok ==> forall|x: usize| #[trigger] old(order)@.contains(x) ==> final(order)@.contains(x),
            ok ==> final(order)@.contains(node),
            !ok ==> has_reachable_cycle(self.adj(), root),
        decreases self.len() - stack.len(),
    {
        let ghost g = self.adj();
        let ghost n = self.len();
        let ghost path = stack.push(node);
        proof {
            lemma_distinct_bounded(stack, n);
        }
        if state[node] == 2 {
            return true;
        }
        if state[node] == 1 {
            proof {
                let j = choose|j: int| 0 <= j < stack.len() && stack[j] == node;
                lemma_path_sub(g, path, j, path.len() as int);
                lemma_path_sub(g, path, 0, j + 1);
                let c = path.subrange(j, path.len() as int);
                let q = path.subrange(0, j + 1);
                assert(c[0] == node && c.last() == node);
                assert(q[0] == root && q.last() == node);
                assert(reaches(g, root, node));
                assert(on_cycle(g, node));
            }
            return false;
        }
        state.set(node, 1);
        let ghost stack2 = path;
        proof {
            assert(!stack.contains(node));
            assert forall|a: int, b: int| 0 <= a < b < stack2.len() implies stack2[a] != stack2[b] by {
                if b == stack.len() {
                    assert(stack2[a] == stack[a]);
                }
            }
            assert(dfs_marks(state@, stack2, order@)) by {
                assert forall|x: usize| x < state@.len() implies (#[trigger] state@[x as int] == 1
                    <==> stack2.contains(x)) by {
                    if x == node {
                        assert(stack2[stack.len() as int] == node);
                    } else if stack.contains(x) {
                        let i = choose|i: int| 0 <= i < stack.len() && stack[i] == x;
                        assert(stack2[i] == x);
                    } else if stack2.contains(x) {
                        let i = choose|i: int| 0 <= i < stack2.len() && stack2[i] == x;
                        assert(stack[i] == x);
                    }
                }
            }
            lemma_distinct_bounded(stack2, n);
            assert(path.last() == node);
            assert(reaches(g, root, node));
        }
        let inputs = self.inputs_of(node);
        let ghost order0 = order@;
        let mut k: usize = 0;
        while k < inputs.len()
            invariant
                k <= inputs@.len(),
                inputs@ == g[node as int],
                state@.len() == n,
                dfs_marks(state@, stack2, order@),
                is_topo_order(g, order@),
                forall|x: usize| #[trigger] order@.contains(x) ==> reaches(g, root, x),
                forall|x: usize| #[trigger] order0.contains(x) ==> order@.contains(x),
                forall|j: int| 0 <= j < k ==> order@.contains(#[trigger] inputs@[j]),
            decreases inputs@.len() - k,
        {
            let w = inputs[k];
            proof {
                assert(g[node as int].contains(w));
                lemma_path_extend(g, stack2, w);
                assert(w < n);
            }
            let ok = self.toposort_helper(w, state, order, Ghost(root), Ghost(stack2));
            if !ok {
                return false;
            }
            k = k + 1;
        }
        proof {
            assert(stack2[stack.len() as int] == node);
            assert(state@[node as int] == 1);
        }
        let ghost s_b = state@;
        state.set(node, 2);
        let ghost order1 = order@;
        order.push(node);
        proof {
            assert(!order1.contains(node));
            let o2 = order@;
            assert(state@.update(node as int, 1) =~= s_b);
            assert(state@.update(node as int, 2) =~= state@);
            lemma_finish_marks(state@, stack, node, order1);
            lemma_topo_push(g, order1, node);
            assert(is_path(g, path) && path[0] == root && path.last() == node);
            assert(reaches(g, root, node));
            assert forall|x: usize| #[trigger] o2.contains(x) implies reaches(g, root, x) by {
                if x != node {
                    let i = choose|i: int| 0 <= i < o2.len() && o2[i] == x;
                    assert(order1[i] == x);
                    assert(order1.contains(x));
                }
            }
            assert forall|x: usize| #[trigger] old(order)@.contains(x) implies o2.contains(x) by {
                let i = choose|i: int| 0 <= i < order1.len() && order1[i] == x;
                assert(o2[i] == x);
            }
            assert(o2[order1.len() as int] == node);
        }
        true
    }

    /// The topological order of the nodes that `root` needs, or nothing when
    /// a cycle is reachable from `root`.
    fn toposort(&self, root: usize) -> (r: Option<Vec<usize>>)
        requires
            self.wf(),
            root < self.len(),
        ensures
            r matches Some(o) ==> is_evaluation_order(self.adj(), root, o@),
            r is None ==> has_reachable_cycle(self.adj(), root),
    {
        let n = self.nodes.len();
        let mut state: Vec<u8> = Vec::new();
        let mut i: usize = 0;
        while i < n
            invariant
                state@.len() == i,
                i <= n,
                forall|j: int| 0 <= j < i ==> state@[j] == 0,
            decreases n - i,
        {
            state.push(0);
            i = i + 1;
        }
        let mut order: Vec<usize> = Vec::new();
        let ghost g = self.adj();
        proof {
            let p = Seq::<usize>::empty().push(root);
            assert(is_path(g, p));
            assert(dfs_marks(state@, Seq::<usize>::empty(), order@));
        }
        let ok = self.toposort_helper(root, &mut state, &mut order, Ghost(root), Ghost(Seq::empty()));
        if !ok {
            return None;
        }
        proof {
            let o = order@;
            assert forall|i: int, k: int| 0 <= i < o.len() && 0 <= k < g[o[i] as int].len() implies o.contains(
                #[trigger] g[o[i] as int][k],
            ) by {
                assert(o.subrange(0, i).contains(g[o[i] as int][k]));
                let j = choose|j: int| 0 <= j < i && o.subrange(0, i)[j] == g[o[i] as int][k];
                assert(o[j] == g[o[i] as int][k]);
            }
            assert(input_closed(g, o));
            assert forall|v: usize| #[trigger] o.contains(v) <==> reaches(g, root, v) by {
                if reaches(g, root, v) {
                    lemma_closed_covers(g, o, root, v);
                }
            }
        }
        Some(order)
    }

    /// The state of an evaluation that has run the nodes `order[0..t]`, of a
    /// graph whose inputs were `g`, functions `funcs` and keys `keys`.
    spec fn evaluating(
        &self,
        g: Seq<Seq<usize>>,
        funcs: Seq<F>,
        keys: Seq<u64>,
        out: usize,
        order: Seq<usize>,
        t: int,
        vals: Map<usize, T>,
    ) -> bool {
        let n = g.len();
        &&& self.nodes@.len() == n
        &&& self.refcount@.len() == n
        &&& self.keys@ == keys
        &&& keys.len() == n
        &&& funcs.len() == n
        &&& adj_wf(g)
        &&& forall|u: int| 0 <= u < n ==> !(#[trigger] g[u]).contains(u as usize)
        &&& forall|u: int| 0 <= u < n ==> total(#[trigger] funcs[u])
        &&& is_evaluation_order(g, out, order)
        &&& 0 <= t <= order.len()
        &&& forall|v: usize|
            v < n ==> #[trigger] self.refcount@[v as int] == uses(g, pending_after(n, order, t), v)
                + if v == out {
                1nat
            } else {
                0nat
            }
        &&& forall|i: int|
            t <= i < order.len() ==> (#[trigger] self.nodes@[order[i] as int]) is Some
                && self.node_at(order[i] as int).output_cache is None
                && self.node_at(order[i] as int).func == funcs[order[i] as int]
                && self.node_at(order[i] as int).input_nodes@ == g[order[i] as int]
        &&& forall|i: int|
            0 <= i < t && self.refcount@[order[i] as int] > 0 ==> (#[trigger] self.nodes@[order[i] as int]) is Some
                && self.node_at(order[i] as int).output_cache == Some(vals[order[i]])
        &&& forall|w: int|
            0 <= w < n && (#[trigger] self.nodes@[w]) is Some ==> slot_entries(self.slots).contains_key(keys[w])
        &&& forall|a: int, b: int| 0 <= a < b < n ==> keys[a] != keys[b]
        &&& vals.dom() == order.subrange(0, t).to_set()
        &&& forall|i: int|
            0 <= i < t ==> ran(
                funcs[order[i] as int],
                g[order[i] as int].map_values(|x: usize| vals[x]),
                #[trigger] vals[order[i]],
            )
    }

    /// Removes every node that `out` does not need; each removed node stops
    /// counting as a consumer of its inputs.
    #[verifier::loop_isolation(false)]
    fn sweep(&mut self, order: &Vec<usize>, Ghost(out): Ghost<usize>)
        requires
            old(self).wf(),
            old(self).output() == Some(out),
            is_evaluation_order(old(self).adj(), out, order@),
        ensures
            final(self).evaluating(
                old(self).adj(),
                old(self).funcs(),
                old(self).keys@,
                out,
                order@,
                0,
                Map::empty(),
            ),
    {
        let n = self.nodes.len();
        let ghost g = self.adj();
        let ghost funcs0 = self.funcs();
        let ghost keys0 = self.keys@;
        let ghost nodes0 = self.nodes@;
        let ghost extra = Seq::new(n as nat, |v: int| if v == out { 1nat } else { 0nat });
        let mut keep: Vec<bool> = Vec::new();
        let mut i: usize = 0;
        while i < n
            invariant
                keep@.len() == i,
                i <= n,
                forall|j: int| 0 <= j < i ==> !keep@[j],
            decreases n - i,
        {
            keep.push(false);
            i = i + 1;
        }
        i = 0;
        while i < order.len()
            invariant
                keep@.len() == n,
                i <= order@.len(),
                forall|x: usize| x < n ==> (#[trigger] keep@[x as int] <==> order@.subrange(0, i as int).contains(x)),
            decreases order@.len() - i,
        {
            let v = order[i];
            keep.set(v, true);
            proof {
                let s1 = order@.subrange(0, i + 1);
                let s0 = order@.subrange(0, i as int);
                assert(s1 =~= s0.push(v));
                assert forall|x: usize| x < n implies (#[trigger] keep@[x as int] <==> s1.contains(x)) by {
                    if s1.contains(x) && x != v {
                        let q = choose|q: int| 0 <= q < s1.len() && s1[q] == x;
                        assert(s0[q] == x);
                    }
                    if s0.contains(x) {
                        let q = choose|q: int| 0 <= q < s0.len() && s0[q] == x;
                        assert(s1[q] == x);
                    }
                    if x == v {
                        assert(s1[i as int] == v);
                    }
                }
            }
            i = i + 1;
        }
        assert(order@.subrange(0, order@.len() as int) =~= order@);
        proof {
            assert(sweep_pending(keep@, 0) =~= all_pending(n as nat));
            assert forall|a: int, b: int| 0 <= a < b < n implies keys0[a] != keys0[b] by {
                assert(slot_entries(self.slots)[keys0[a]] == a);
                assert(slot_entries(self.slots)[keys0[b]] == b);
            }
        }
        let mut s: usize = 0;
        while s < n
            invariant
                keep@.len() == n,
                forall|x: usize| x < n ==> (#[trigger] keep@[x as int] <==> order@.contains(x)),
                self.nodes@.len() == n,
                self.refcount@.len() == n,
                self.keys@ == keys0,
                s <= n,
                forall|v: usize|
                    v < n ==> #[trigger] self.refcount@[v as int] == uses(g, sweep_pending(keep@, s as int), v)
                        + extra[v as int],
                forall|x: int| s <= x < n ==> #[trigger] self.nodes@[x] == nodes0[x],
                forall|x: int| 0 <= x < s && keep@[x] ==> #[trigger] self.nodes@[x] == nodes0[x],
                forall|w: int|
                    0 <= w < n && (#[trigger] self.nodes@[w]) is Some ==> slot_entries(self.slots).contains_key(
                        keys0[w],
                    ),
            decreases n - s,
        {
            if !keep[s] {
                let ghost pend = sweep_pending(keep@, s as int);
                let mut slot: Option<Node<T, F>> = None;
                self.nodes.set_and_swap(s, &mut slot);
                assert(slot == nodes0[s as int]);
                let nd = slot.unwrap();
                let _ = release(&mut self.refcount, &nd.input_nodes, Ghost(g), Ghost(pend), Ghost(s as int), Ghost(extra));
                let key = self.keys[s];
                slots_remove(&mut self.slots, key);
                proof {
                    assert(sweep_pending(keep@, s + 1) =~= pend.update(s as int, false));
                    assert forall|w: int| 0 <= w < n && (#[trigger] self.nodes@[w]) is Some implies slot_entries(
                        self.slots,
                    ).contains_key(keys0[w]) by {
                        assert(w != s);
                        assert(keys0[w] != keys0[s as int]);
                    }
                }
            } else {
                assert(sweep_pending(keep@, s + 1) =~= sweep_pending(keep@, s as int));
            }
            s = s + 1;
        }
        proof {
            assert(pending_after(n as nat, order@, 0) =~= sweep_pending(keep@, n as int)) by {
                assert(order@.subrange(0, order@.len() as int) =~= order@);
            }
            assert(order@.subrange(0, 0).to_set() =~= Set::<usize>::empty());
            assert forall|i: int| 0 <= i < order@.len() implies (#[trigger] self.nodes@[order@[i] as int]) is Some
                && self.node_at(order@[i] as int).output_cache is None
                && self.node_at(order@[i] as int).func == funcs0[order@[i] as int]
                && self.node_at(order@[i] as int).input_nodes@ == g[order@[i] as int] by {
                let v = order@[i];
                assert(order@.contains(v));
                assert(keep@[v as int]);
                assert(nodes0[v as int] is Some);
            }
        }
    }

    /// Runs the nodes of `order` one after the other and returns the value of
    /// `out`. A node's record is dropped as soon as its last consumer has run.
    /// `invoked` logs, in order, each node whose function is called.
    #[verifier::loop_isolation(false)]
    #[verifier::rlimit(60)]
    fn evaluate(
        &mut self,
        order: &Vec<usize>,
        out: usize,
        Ghost(g): Ghost<Seq<Seq<usize>>>,
        Ghost(funcs): Ghost<Seq<F>>,
        Ghost(keys): Ghost<Seq<u64>>,
        invoked: &mut Ghost<Seq<usize>>,
    ) -> (r: T)
        requires
            old(self).evaluating(g, funcs, keys, out, order@, 0, Map::empty()),
        ensures
            exists|vals: Map<usize, T>| computed_by(g, funcs, out, vals) && r == vals[out],
            final(invoked)@ == old(invoked)@ + order@,
    {
        let ghost n = g.len();
        let nn = self.nodes.len();
        assert(n == nn);
        let ghost extra = Seq::new(n, |v: int| if v == out { 1nat } else { 0nat });
        let ghost mut vals: Map<usize, T> = Map::empty();
        let mut t: usize = 0;
        while t < order.len()
            invariant
                self.evaluating(g, funcs, keys, out, order@, t as int, vals),
                invoked@ == old(invoked)@ + order@.subrange(0, t as int),
            decreases order@.len() - t,
        {
            let u = order[t];
            let ghost pend = pending_after(n, order@, t as int);
            let ghost vals0 = vals;
            let ghost nodes0 = self.nodes@;
            let ghost prev = *self;
            proof {
                assert(self.nodes@[order@[t as int] as int] is Some);
                assert(order@.subrange(t as int, order@.len() as int)[0] == u);
                assert(pend[u as int]);
                assert(slot_entries(self.slots).contains_key(keys[u as int]));
            }
            let mut slot: Option<Node<T, F>> = None;
            self.nodes.set_and_swap(u, &mut slot);
            let mut nd = slot.unwrap();
            let mut args: Vec<&T> = Vec::new();
            let mut k: usize = 0;
            while k < nd.input_nodes.len()
                invariant
                    self.nodes@ == nodes0.update(u as int, None),
                    nd.input_nodes@ == g[u as int],
                    k <= g[u as int].len(),
                    args@.len() == k,
                    forall|j: int| 0 <= j < k ==> *args@[j] == vals[#[trigger] g[u as int][j]],
                decreases g[u as int].len() - k,
            {
                let w = nd.input_nodes[k];
                proof {
                    assert(order@.subrange(0, t as int).contains(g[order@[t as int] as int][k as int]));
                    let i = choose|i: int| 0 <= i < t && order@.subrange(0, t as int)[i] == w;
                    assert(order@[i] == w);
                    assert(g[u as int].contains(w));
                    lemma_occurrences_present(g[u as int], w);
                    lemma_uses_bounds(g, pend, u as int, w);
                    assert(self.refcount@[w as int] > 0);
                    assert(nodes0[order@[i] as int] is Some);
                    assert(w != u);
                }
                args.push(self.nodes[w].as_ref().unwrap().computed_val());
                k = k + 1;
            }
            let freed = release(&mut self.refcount, &nd.input_nodes, Ghost(g), Ghost(pend), Ghost(u as int), Ghost(extra));
            let sl = args.as_slice();
            nd.eval(sl);
            *invoked = Ghost(invoked@.push(u));
            let ghost v = nd.output_cache->Some_0;
            proof {
                vals = vals0.insert(u, v);
                assert(!vals0.dom().contains(u)) by {
                    if order@.subrange(0, t as int).contains(u) {
                        let i = choose|i: int| 0 <= i < t && order@.subrange(0, t as int)[i] == u;
                        assert(order@[i] == order@[t as int]);
                    }
                }
                let ins = g[u as int].map_values(|x: usize| vals[x]);
                assert forall|j: int| 0 <= j < ins.len() implies *sl@[j] == ins[j] by {
                    assert(g[u as int][j] != u);
                }
                assert(ran(funcs[u as int], ins, vals[u]));
            }
            let ghost rc1 = self.refcount@;
            let mut q: usize = 0;
            while q < freed.len()
                invariant
                    q <= freed@.len(),
                    self.nodes@.len() == n,
                    self.keys@ == keys,
                    keys.len() == n,
                    self.refcount@ == rc1,
                    forall|j: int| 0 <= j < q ==> self.nodes@[#[trigger] freed@[j] as int] is None,
                    forall|x: int|
                        0 <= x < n && !freed@.subrange(0, q as int).contains(x as usize) ==> #[trigger] self.nodes@[x]
                            == nodes0.update(u as int, None)[x],
                    forall|w: int|
                        0 <= w < n && (#[trigger] self.nodes@[w]) is Some ==> slot_entries(self.slots).contains_key(
                            keys[w],
                        ),
                    slot_entries(self.slots).contains_key(keys[u as int]),
                decreases freed@.len() - q,
            {
                let w = freed[q];
                proof {
                    assert(g[u as int].contains(w));
                    assert(w != u);
                    assert(!freed@.subrange(0, q as int).contains(w)) by {
                        if freed@.subrange(0, q as int).contains(w) {
                            let j = choose|j: int| 0 <= j < q && freed@.subrange(0, q as int)[j] == w;
                            assert(freed@[j] == freed@[q as int]);
                        }
                    }
                    assert(order@.subrange(0, t as int).contains(w)) by {
                        let kk = choose|kk: int| 0 <= kk < g[u as int].len() && g[u as int][kk] == w;
                        assert(order@.subrange(0, t as int).contains(g[order@[t as int] as int][kk]));
                    }
                    let i = choose|i: int| 0 <= i < t && order@.subrange(0, t as int)[i] == w;
                    assert(order@[i] == w);
                    lemma_occurrences_present(g[u as int], w);
                    lemma_uses_bounds(g, pend, u as int, w);
                    assert(nodes0[w as int] is Some);
                }
                let mut gone: Option<Node<T, F>> = None;
                self.nodes.set_and_swap(w, &mut gone);
                let key = self.keys[w];
                slots_remove(&mut self.slots, key);
                proof {
                    let f1 = freed@.subrange(0, q + 1);
                    assert(f1 =~= freed@.subrange(0, q as int).push(w));
                    assert forall|x: int|
                        0 <= x < n && !f1.contains(x as usize) implies #[trigger] self.nodes@[x] == nodes0.update(
                        u as int,
                        None,
                    )[x] by {
                        assert(f1[q as int] == w);
                        if freed@.subrange(0, q as int).contains(x as usize) {
                            let j = choose|j: int| 0 <= j < q && freed@.subrange(0, q as int)[j] == x as usize;
                            assert(f1[j] == x as usize);
                        }
                    }
                    assert forall|w2: int| 0 <= w2 < n && (#[trigger] self.nodes@[w2]) is Some implies slot_entries(
                        self.slots,
                    ).contains_key(keys[w2]) by {
                        assert(w2 != w);
                    }
                    assert(keys[u as int] != keys[w as int]);
                }
                q = q + 1;
            }
            proof {
                assert(freed@.subrange(0, freed@.len() as int) =~= freed@);
            }
            self.nodes.set(u, Some(nd));
            proof {
                Self::lemma_eval_step(*self, prev, g, funcs, keys, out, order@, t as int, vals0, vals, freed@);
                assert(order@.subrange(0, t + 1) =~= order@.subrange(0, t as int).push(u));
            }
            t = t + 1;
        }
        proof {
            assert(order@.subrange(0, t as int) =~= order@);
            let p = Seq::<usize>::empty().push(out);
            assert(is_path(g, p));
            assert(p[0] == out && p.last() == out);
            assert(reaches(g, out, out));
            assert(order@.contains(out));
            let i = choose|i: int| 0 <= i < order@.len() && order@[i] == out;
            assert forall|u: int| 0 <= u < n && #[trigger] pending_after(n, order@, t as int)[u] implies !g[u].contains(out) by {
                assert(order@.subrange(t as int, order@.len() as int).len() == 0);
            }
            lemma_uses_zero(g, pending_after(n, order@, t as int), out);
            assert(self.refcount@[out as int] > 0);
            assert(self.nodes@[order@[i] as int] is Some);
            assert forall|u: usize| #[trigger] reaches(g, out, u) implies vals.contains_key(u) && ran(
                funcs[u as int],
                g[u as int].map_values(|x: usize| vals[x]),
                vals[u],
            ) by {
                assert(order@.contains(u));
                let j = choose|j: int| 0 <= j < order@.len() && order@[j] == u;
                assert(order@.subrange(0, t as int) =~= order@);
                assert(order@.subrange(0, t as int).to_set().contains(u));
                assert(vals[order@[j]] == vals[u]);
            }
        }
        // The output's counter never reached zero, so its record is still
        // here; it is the last one dropped.
        let mut last: Option<Node<T, F>> = None;
        self.nodes.set_and_swap(out, &mut last);
        let nd = last.unwrap();
        let key = self.keys[out];
        slots_remove(&mut self.slots, key);
        nd.output_cache.unwrap()
    }

    /// One step of `evaluate`: once `order[t]` has run, its inputs have been
    /// released and the records that reached zero consumers dropped, the
    /// evaluation state holds for `t + 1`.
    proof fn lemma_eval_step(
        cur: Self,
        prev: Self,
        g: Seq<Seq<usize>>,
        funcs: Seq<F>,
        keys: Seq<u64>,
        out: usize,
        order: Seq<usize>,
        t: int,
        vals0: Map<usize, T>,
        vals: Map<usize, T>,
        freed: Seq<usize>,
    )
        requires
            prev.evaluating(g, funcs, keys, out, order, t, vals0),
            0 <= t < order.len(),
            g.len() <= usize::MAX,
            cur.nodes@.len() == g.len(),
            cur.refcount@.len() == g.len(),
            cur.keys@ == keys,
            forall|v: usize|
                v < g.len() ==> #[trigger] cur.refcount@[v as int] == uses(
                    g,
                    pending_after(g.len(), order, t).update(order[t] as int, false),
                    v,
                ) + if v == out {
                    1nat
                } else {
                    0nat
                },
            freed.no_duplicates(),
            forall|i: int|
                0 <= i < freed.len() ==> g[order[t] as int].contains(#[trigger] freed[i])
                    && cur.refcount@[freed[i] as int] == 0,
            forall|w: usize|
                w < g.len() && !g[order[t] as int].contains(w) ==> cur.refcount@[w as int]
                    == prev.refcount@[w as int],
            cur.nodes@[order[t] as int] is Some,
            cur.node_at(order[t] as int).output_cache == Some(vals[order[t]]),
            forall|x: int|
                0 <= x < g.len() && x != order[t] && !freed.contains(x as usize) ==> #[trigger] cur.nodes@[x]
                    == prev.nodes@[x],
            forall|w: int|
                0 <= w < g.len() && (#[trigger] cur.nodes@[w]) is Some ==> slot_entries(cur.slots).contains_key(
                    keys[w],
                ),
            !vals0.contains_key(order[t]),
            vals == vals0.insert(order[t], vals[order[t]]),
            ran(funcs[order[t] as int], g[order[t] as int].map_values(|x: usize| vals[x]), vals[order[t]]),
        ensures
            cur.evaluating(g, funcs, keys, out, order, t + 1, vals),
    {
        let n = g.len();
        let u = order[t];
        let pend = pending_after(n, order, t);
        assert(pending_after(n, order, t + 1) =~= pend.update(u as int, false)) by {
            assert forall|x: int| 0 <= x < n implies pending_after(n, order, t + 1)[x] == pend.update(u as int, false)[x] by {
                let s0 = order.subrange(t, order.len() as int);
                let s1 = order.subrange(t + 1, order.len() as int);
                if s1.contains(x as usize) {
                    let j = choose|j: int| 0 <= j < s1.len() && s1[j] == x as usize;
                    assert(s0[j + 1] == x as usize);
                    assert(order[t + 1 + j] != order[t]);
                }
                if s0.contains(x as usize) && x != u {
                    let j = choose|j: int| 0 <= j < s0.len() && s0[j] == x as usize;
                    assert(s0[0] == u);
                    assert((x as usize) as int == x);
                    assert(j != 0);
                    assert(s1[j - 1] == x as usize);
                }
            }
        }
        // Inputs of `u`, and so every freed node, ran before `u`.
        assert forall|w: usize| #[trigger] g[u as int].contains(w) implies exists|j: int| 0 <= j < t && order[j] == w by {
            let kk = choose|kk: int| 0 <= kk < g[u as int].len() && g[u as int][kk] == w;
            assert(order.subrange(0, t).contains(g[order[t] as int][kk]));
            let j = choose|j: int| 0 <= j < t && order.subrange(0, t)[j] == w;
            assert(order[j] == w);
        }
        assert forall|i: int| t + 1 <= i < order.len() implies (#[trigger] cur.nodes@[order[i] as int]) is Some
            && cur.node_at(order[i] as int).output_cache is None
            && cur.node_at(order[i] as int).func == funcs[order[i] as int]
            && cur.node_at(order[i] as int).input_nodes@ == g[order[i] as int] by {
            let x = order[i];
            assert(x != u);
            if freed.contains(x) {
                let q = choose|q: int| 0 <= q < freed.len() && freed[q] == x;
                assert(g[u as int].contains(freed[q]));
                let j = choose|j: int| 0 <= j < t && order[j] == x;
            }
            assert(cur.nodes@[x as int] == prev.nodes@[x as int]);
        }
        assert forall|i: int| 0 <= i < t + 1 && cur.refcount@[order[i] as int] > 0 implies (
        #[trigger] cur.nodes@[order[i] as int]) is Some && cur.node_at(order[i] as int).output_cache == Some(
            vals[order[i]],
        ) by {
            if i < t {
                let w = order[i];
                assert(w != u);
                if freed.contains(w) {
                    let q = choose|q: int| 0 <= q < freed.len() && freed[q] == w;
                }
                assert(cur.nodes@[w as int] == prev.nodes@[w as int]);
                lemma_uses_retire(g, pend, u as int, w);
                assert(prev.refcount@[w as int] > 0);
                assert(vals[w] == vals0[w]);
            }
        }
        assert(vals.dom() =~= order.subrange(0, t + 1).to_set()) by {
            assert forall|x: usize| vals.dom().contains(x) <==> order.subrange(0, t + 1).contains(x) by {
                let s0 = order.subrange(0, t);
                let s1 = order.subrange(0, t + 1);
                if s0.contains(x) {
                    let j = choose|j: int| 0 <= j < s0.len() && s0[j] == x;
                    assert(s1[j] == x);
                }
                if s1.contains(x) && x != u {
                    let j = choose|j: int| 0 <= j < s1.len() && s1[j] == x;
                    assert(j != t);
                    assert(s0[j] == x);
                }
                if x == u {
                    assert(s1[t] == u);
                }
            }
        }
        assert forall|i: int| 0 <= i < t + 1 implies ran(
            funcs[order[i] as int],
            g[order[i] as int].map_values(|x: usize| vals[x]),
            #[trigger] vals[order[i]],
        ) by {
            if i < t {
                let w = order[i];
                assert(vals[w] == vals0[w]);
                assert(g[w as int].map_values(|x: usize| vals[x]) =~= g[w as int].map_values(|x: usize| vals0[x])) by {
                    assert forall|k: int| 0 <= k < g[w as int].len() implies vals[g[w as int][k]] == vals0[g[w as int][k]] by {
                        assert(order.subrange(0, i).contains(g[order[i] as int][k]));
                        let j = choose|j: int| 0 <= j < i && order.subrange(0, i)[j] == g[w as int][k];
                        assert(order[j] == g[w as int][k]);
                        assert(order[j] != order[t]);
                    }
                }
                assert(ran(funcs[order[i] as int], g[order[i] as int].map_values(|x: usize| vals0[x]), vals0[order[i]]));
            }
        }
    }

    /// The identifier of each node in the rendering: its key, by position.
    pub closed spec fn ids(&self) -> Seq<u64> {
        self.keys@
    }

    /// Renders the graph as a directed-graph description: one line per node,
    /// labelled with its name (the output node drawn as a box), then one line
    /// per declared input, from the input to its consumer. Nodes are named by
    /// their keys, since names may repeat.
    #[verifier::loop_isolation(false)]
    pub fn dot_graph(&self) -> (r: String)
        requires
            self.wf(),
        ensures
            r@ == dot_text(self.ids(), self.names(), self.adj(), self.output()),
    {
        let ghost ids = self.ids();
        let ghost names = self.names();
        let ghost g = self.adj();
        let ghost out = self.output();
        let mut s = String::new();
        s.append("strict digraph {\n");
        let n = self.nodes.len();
        let mut i: usize = 0;
        while i < n
            invariant
                i <= n,
                s@ == "strict digraph {\n"@ + node_lines(ids, names, out, i as nat),
            decreases n - i,
        {
            let ghost before = s@;
            assert(self.nodes@[i as int] is Some);
            let nd = self.nodes[i].as_ref().unwrap();
            push_decimal(&mut s, self.keys[i]);
            s.append(" [label=\"");
            push_escaped(&mut s, nd.name.as_str());
            s.append("\"");
            let is_out = match self.output_node {
                Some(o) => o == i,
                None => false,
            };
            if is_out {
                s.append(", shape=box");
            }
            s.append("];\n");
            proof {
                assert(s@ =~= before + node_line(ids[i as int], names[i as int], out == Some(i)));
            }
            i = i + 1;
        }
        let ghost head = s@;
        i = 0;
        while i < n
            invariant
                i <= n,
                head == "strict digraph {\n"@ + node_lines(ids, names, out, n as nat),
                s@ == head + edge_lines(ids, g, i as nat),
            decreases n - i,
        {
            let ins = self.inputs_of(i);
            let mut j: usize = 0;
            let ghost mid = s@;
            while j < ins.len()
                invariant
                    j <= ins@.len(),
                    ins@ == g[i as int],
                    s@ == mid + input_lines(ids, ins@, ids[i as int], j as nat),
                decreases ins@.len() - j,
            {
                let ghost before = s@;
                let w = ins[j];
                assert(w < n);
                push_decimal(&mut s, self.keys[w]);
                s.append("->");
                push_decimal(&mut s, self.keys[i]);
                s.append(";\n");
                proof {
                    assert(s@ =~= before + edge_line(ids[w as int], ids[i as int]));
                }
                j = j + 1;
            }
            proof {
                assert(s@ =~= head + edge_lines(ids, g, (i + 1) as nat));
            }
            i = i + 1;
        }
        s.append("}\n");
        proof {
            assert(names.len() == n && g.len() == n);
            assert(s@ =~= dot_text(ids, names, g, out));
        }
        s
    }

    /// Computes and returns the value of the output node, consuming the graph.
    /// Nodes that the output does not need are removed first and never run;
    /// every other node runs exactly once, after all of its inputs, and is
    /// handed their values in the order `set_inputs` declared them.
    pub fn compute(self) -> (r: Result<T, GraphError>)
        requires
            self.wf(),
        ensures
            self.output() is None ==> r == Err::<T, GraphError>(GraphError::OutputNotDesignated),
            self.output() matches Some(o) ==> (r is Ok <==> !has_reachable_cycle(self.adj(), o)),
            self.output() is Some && r is Err ==> r == Err::<T, GraphError>(GraphError::Cycle),
            self.output() is Some && r is Ok ==> exists|vals: Map<usize, T>|
                computed_by(self.adj(), self.funcs(), self.output()->Some_0, vals) && r == Ok::<T, GraphError>(
                    vals[self.output()->Some_0],
                ),
    {
        let mut graph = self;
        let out = match graph.output_node {
            Some(o) => o,
            None => {
                return Err(GraphError::OutputNotDesignated);
            },
        };
        let ghost g = graph.adj();
        let ghost funcs = graph.funcs();
        let ghost keys = graph.keys@;
        let order = match graph.toposort(out) {
            Some(o) => o,
            None => {
                return Err(GraphError::Cycle);
            },
        };
        proof {
            lemma_order_excludes_cycle(g, out, order@);
        }
        graph.sweep(&order, Ghost(out));
        let mut invoked: Ghost<Seq<usize>> = Ghost(Seq::empty());
        let v = graph.evaluate(&order, out, Ghost(g), Ghost(funcs), Ghost(keys), &mut invoked);
        Ok(v)
    }
}

impl<T, F: Fn(&[&T]) -> T> Default for ComputationGraph<T, F> {
    /// An empty graph with a fresh token.
    fn default() -> (r: Self)
        ensures
            r.wf(),
            r.len() == 0,
            r.adj() == Seq::<Seq<usize>>::empty(),
            r.names() == Seq::<Seq<char>>::empty(),
            r.funcs() == Seq::<F>::empty(),
            r.output() is None,
    {
        Self::new()
    }
}

/// Retires the pending node `u` as a consumer: each of its inputs loses one
/// count per listing. Returns the inputs whose counter reached zero, each once.
#[verifier::loop_isolation(false)]
fn release(
    counts: &mut Vec<u32>,
    inputs: &Vec<usize>,
    Ghost(g): Ghost<Seq<Seq<usize>>>,
    Ghost(pend): Ghost<Seq<bool>>,
    Ghost(u): Ghost<int>,
    Ghost(extra): Ghost<Seq<nat>>,
) -> (freed: Vec<usize>)
    requires
        adj_wf(g),
        old(counts)@.len() == g.len(),
        pend.len() == g.len(),
        extra.len() == g.len(),
        0 <= u < g.len(),
        pend[u],
        inputs@ == g[u],
        forall|v: usize| v < g.len() ==> #[trigger] old(counts)@[v as int] == uses(g, pend, v) + extra[v as int],
    ensures
        final(counts)@.len() == g.len(),
        forall|v: usize|
            v < g.len() ==> #[trigger] final(counts)@[v as int] == uses(g, pend.update(u, false), v) + extra[v as int],
        freed@.no_duplicates(),
        forall|i: int| 0 <= i < freed@.len() ==> g[u].contains(#[trigger] freed@[i]) && final(counts)@[freed@[i] as int] == 0,
        forall|w: usize| w < g.len() && g[u].contains(w) && final(counts)@[w as int] == 0 ==> freed@.contains(w),
        forall|w: usize| w < g.len() && !g[u].contains(w) ==> final(counts)@[w as int] == old(counts)@[w as int],
{
    let ghost c0 = counts@;
    let ghost o = g[u];
    let ghost n = g.len();
    let mut freed: Vec<usize> = Vec::new();
    let mut j: usize = 0;
    while j < inputs.len()
        invariant
            j <= o.len(),
            counts@.len() == n,
            forall|v: usize|
                v < n ==> #[trigger] counts@[v as int] + occurrences(o.subrange(0, j as int), v) == c0[v as int],
            forall|i: int| 0 <= i < freed@.len() ==> o.subrange(0, j as int).contains(#[trigger] freed@[i]) && counts@[freed@[i] as int] == 0,
            forall|w: usize| w < n && o.subrange(0, j as int).contains(w) && counts@[w as int] == 0 ==> freed@.contains(w),
            freed@.no_duplicates(),
        decreases o.len() - j,
    {
        let w = inputs[j];
        proof {
            lemma_occurrences_take(o, j as int, w);
            lemma_uses_bounds(g, pend, u, w);
            assert(w < n);
        }
        let c = counts[w];
        let ghost cnt_before = counts@;
        counts.set(w, c - 1);
        let ghost f0 = freed@;
        if c == 1 {
            freed.push(w);
        }
        proof {
            assert forall|v: usize| v < n implies #[trigger] counts@[v as int] + occurrences(o.subrange(0, j + 1), v) == c0[v as int] by {
                lemma_occurrences_take(o, j as int, v);
            }
            assert(o.subrange(0, j + 1) =~= o.subrange(0, j as int).push(w));
            assert forall|i: int| 0 <= i < freed@.len() implies o.subrange(0, j + 1).contains(#[trigger] freed@[i]) && counts@[freed@[i] as int] == 0 by {
                if i < f0.len() {
                    assert(freed@[i] == f0[i]);
                    assert(o.subrange(0, j as int).contains(f0[i]));
                    let s0 = o.subrange(0, j as int);
                    let q = choose|q: int| 0 <= q < j && s0[q] == f0[i];
                    assert(o.subrange(0, j + 1)[q] == f0[i]);
                } else {
                    assert(o.subrange(0, j + 1)[j as int] == w);
                }
            }
            assert forall|x: usize| x < n && o.subrange(0, j + 1).contains(x) && counts@[x as int] == 0 implies freed@.contains(x) by {
                if x == w {
                    if c == 1 {
                        assert(freed@[f0.len() as int] == w);
                    }
                } else {
                    let s1 = o.subrange(0, j + 1);
                    let s0 = o.subrange(0, j as int);
                    let q = choose|q: int| 0 <= q < j + 1 && s1[q] == x;
                    assert(s0[q] == x);
                    assert(s0.contains(x));
                    assert(cnt_before[x as int] == 0);
                    assert(f0.contains(x));
                    let i = choose|i: int| 0 <= i < f0.len() && f0[i] == x;
                    assert(freed@[i] == x);
                }
            }
            if c == 1 {
                assert(!f0.contains(w));
                assert forall|a: int, b: int| 0 <= a < b < freed@.len() implies freed@[a] != freed@[b] by {
                    if b == f0.len() {
                        assert(freed@[a] == f0[a]);
                    }
                }
            }
        }
        j = j + 1;
    }
    proof {
        assert(o.subrange(0, o.len() as int) =~= o);
        assert forall|v: usize| v < n implies #[trigger] counts@[v as int] == uses(g, pend.update(u, false), v) + extra[v as int] by {
            lemma_uses_retire(g, pend, u, v);
        }
        assert forall|w: usize| w < n && !g[u].contains(w) implies counts@[w as int] == c0[w as int] by {
            lemma_occurrences_empty(o, w);
        }
    }
    freed
}

/// Nodes that count as consumers while sweeping position `s`: those kept,
/// and those not yet swept.
pub open spec fn sweep_pending(keep: Seq<bool>, s: int) -> Seq<bool> {
    Seq::new(keep.len(), |u: int| keep[u] || u >= s)
}

/// Nodes of `order` that have not run once `order[0..t]` has.
pub open spec fn pending_after(n: nat, order: Seq<usize>, t: int) -> Seq<bool> {
    Seq::new(n, |u: int| order.subrange(t, order.len() as int).contains(u as usize))
}

/// `f` returned `out` when handed references to `inputs`, in that order.
pub open spec fn ran<T, F: Fn(&[&T]) -> T>(f: F, inputs: Seq<T>, out: T) -> bool {
    exists|args: &[&T]|
        args@.len() == inputs.len() && (forall|k: int| 0 <= k < inputs.len() ==> *args@[k] == inputs[k])
            && #[trigger] f.ensures((args,), out)
}

/// `vals` gives each node that `root` needs a value that its function
/// returned when handed the values of its inputs, in declared order.
pub open spec fn computed_by<T, F: Fn(&[&T]) -> T>(
    g: Seq<Seq<usize>>,
    funcs: Seq<F>,
    root: usize,
    vals: Map<usize, T>,
) -> bool {
    forall|u: usize|
        #[trigger] reaches(g, root, u) ==> vals.contains_key(u) && ran(
            funcs[u as int],
            g[u as int].map_values(|x: usize| vals[x]),
            vals[u],
        )
}

/// The line that declares a node.
pub open spec fn node_line(id: u64, name: Seq<char>, is_output: bool) -> Seq<char> {
    decimal(id as nat) + " [label=\""@ + escaped(name) + "\""@ + (if is_output {
        ", shape=box"@
    } else {
        Seq::empty()
    }) + "];\n"@
}

/// The declarations of the first `i` nodes.
pub open spec fn node_lines(ids: Seq<u64>, names: Seq<Seq<char>>, out: Option<usize>, i: nat) -> Seq<char>
    decreases i,
{
    if i == 0 {
        Seq::empty()
    } else {
        node_lines(ids, names, out, (i - 1) as nat) + node_line(
            ids[i - 1],
            names[i - 1],
            out == Some((i - 1) as usize),
        )
    }
}

/// The line for an edge from `from` into `to`.
pub open spec fn edge_line(from: u64, to: u64) -> Seq<char> {
    decimal(from as nat) + "->"@ + decimal(to as nat) + ";\n"@
}

/// The edges from the first `j` of `inputs` into the node `to`.
pub open spec fn input_lines(ids: Seq<u64>, inputs: Seq<usize>, to: u64, j: nat) -> Seq<char>
    decreases j,
{
    if j == 0 {
        Seq::empty()
    } else {
        input_lines(ids, inputs, to, (j - 1) as nat) + edge_line(ids[inputs[j - 1] as int], to)
    }
}

/// The edges into the first `i` nodes.
pub open spec fn edge_lines(ids: Seq<u64>, g: Seq<Seq<usize>>, i: nat) -> Seq<char>
    decreases i,
{
    if i == 0 {
        Seq::empty()
    } else {
        edge_lines(ids, g, (i - 1) as nat) + input_lines(ids, g[i - 1], ids[i - 1], g[i - 1].len())
    }
}

/// The rendering of a graph: its node declarations, then its edges.
pub open spec fn dot_text(
    ids: Seq<u64>,
    names: Seq<Seq<char>>,
    g: Seq<Seq<usize>>,
    out: Option<usize>,
) -> Seq<char> {
    "strict digraph {\n"@ + node_lines(ids, names, out, names.len()) + edge_lines(ids, g, g.len()) + "}\n"@
}

/// The marks of a depth-first walk: 1 for the nodes on `stack`, 2 for those
/// in `order`, 0 for the rest.
pub open spec fn dfs_marks(state: Seq<u8>, stack: Seq<usize>, order: Seq<usize>) -> bool {
    forall|x: usize|
        x < state.len() ==> (#[trigger] state[x as int] == 1 <==> stack.contains(x)) && (state[x as int]
            == 2 <==> order.contains(x)) && state[x as int] <= 2
}

/// Finishing `node`, the top of the walk, moves it from the stack to the order.
proof fn lemma_finish_marks(state: Seq<u8>, stack: Seq<usize>, node: usize, order: Seq<usize>)
    requires
        node < state.len(),
        !stack.contains(node),
        dfs_marks(state.update(node as int, 1), stack.push(node), order),
        !order.contains(node),
    ensures
        dfs_marks(state.update(node as int, 2), stack, order.push(node)),
{
    let s1 = state.update(node as int, 1);
    let s2 = state.update(node as int, 2);
    let stack2 = stack.push(node);
    let o2 = order.push(node);
    assert forall|x: usize| x < s2.len() implies (#[trigger] s2[x as int] == 1 <==> stack.contains(x))
        && (s2[x as int] == 2 <==> o2.contains(x)) && s2[x as int] <= 2 by {
        assert(s1[x as int] == 1 <==> stack2.contains(x));
        assert(s1[x as int] == 2 <==> order.contains(x));
        if x != node {
            assert(s2[x as int] == s1[x as int]);
            if stack2.contains(x) {
                let i = choose|i: int| 0 <= i < stack2.len() && stack2[i] == x;
                assert(stack[i] == x);
            }
            if stack.contains(x) {
                let i = choose|i: int| 0 <= i < stack.len() && stack[i] == x;
                assert(stack2[i] == x);
            }
            if o2.contains(x) {
                let i = choose|i: int| 0 <= i < o2.len() && o2[i] == x;
                assert(order[i] == x);
            }
            if order.contains(x) {
                let i = choose|i: int| 0 <= i < order.len() && order[i] == x;
                assert(o2[i] == x);
            }
        } else {
            assert(o2[order.len() as int] == node);
        }
    }
}

} // verus!
