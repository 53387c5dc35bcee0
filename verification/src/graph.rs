//! The operator graph the compiler passes rewrite: nodes carry either an
//! abstract primitive operator or a device operator instance; edges carry
//! data dependencies (with the producer's view and the consumer's input
//! slot) or schedule constraints. Node and edge slots are stable: removal
//! clears a slot and never renumbers the rest.

use crate::expr::DynDimMap;
use crate::prim::{
    ConstantValue, CudaAdd, CudaConstant, CudaContiguous, CudaExp2, CudaLessThan, CudaLog2,
    CudaMaxReduce, CudaMod, CudaMul, CudaRecip, CudaSin, CudaSqrt, CudaSumReduce,
};
use crate::shape::ShapeTracker;
use vstd::prelude::*;

verus! {

/// An abstract, device-agnostic primitive operator.
pub enum PrimKind {
    /// Produces or consumes host tensors (inputs, weights, host callbacks).
    Function,
    /// A debug print of its input.
    Print,
    /// A single-element constant.
    Constant(ConstantValue),
    Log2,
    Exp2,
    Sin,
    Sqrt,
    Recip,
    Add,
    Mul,
    Mod,
    LessThan,
    Contiguous,
    SumReduce(usize),
    MaxReduce(usize),
    /// A kind this backend does not lower; left untouched.
    Other,
}

/// A node's payload: an abstract primitive, a host/device boundary copy, or
/// a device operator instance.
pub enum NodeOp {
    Prim(PrimKind),
    /// Copy a host tensor to the device; pass a device tensor through.
    CopyToDevice,
    /// Copy a device tensor to the host; pass a host tensor through.
    CopyFromDevice,
    Log2(CudaLog2),
    Exp2(CudaExp2),
    Sin(CudaSin),
    Sqrt(CudaSqrt),
    Recip(CudaRecip),
    Constant(CudaConstant),
    Contiguous(CudaContiguous),
    Add(CudaAdd),
    Mul(CudaMul),
    Mod(CudaMod),
    LessThan(CudaLessThan),
    SumReduce(CudaSumReduce),
    MaxReduce(CudaMaxReduce),
}

/// What an edge carries.
pub enum Dependency {
    /// The producer's view of the tensor, and its position among the
    /// consumer's inputs and the producer's outputs.
    Data { shape: ShapeTracker, input_order: u64, output_order: u64 },
    /// An ordering constraint only; ignored by this layer.
    Schedule,
}

pub struct Edge {
    pub src: usize,
    pub dst: usize,
    pub dep: Dependency,
}

/// The operator graph, with the retrieval and keep-alive bookkeeping the
/// runtime reads, and the process-wide dynamic dimension map.
pub struct Graph {
    pub nodes: Vec<Option<NodeOp>>,
    pub edges: Vec<Option<Edge>>,
    /// Nodes whose tensors must not be freed.
    pub no_delete: Vec<usize>,
    /// Nodes whose outputs the caller will read back.
    pub to_retrieve: Vec<usize>,
    pub dyn_map: DynDimMap,
}

impl Graph {
    /// Node slot `i` holds a live node.
    pub open spec fn live(&self, i: int) -> bool {
        0 <= i < self.nodes@.len() && self.nodes@[i] is Some
    }

    pub open spec fn op_of(&self, i: int) -> NodeOp {
        self.nodes@[i]->Some_0
    }

    /// Edge slot `e` holds a live edge.
    pub open spec fn e_live(&self, e: int) -> bool {
        0 <= e < self.edges@.len() && self.edges@[e] is Some
    }

    pub open spec fn edge_at(&self, e: int) -> Edge {
        self.edges@[e]->Some_0
    }

    /// Every live edge joins two distinct live nodes.
    pub open spec fn wf(&self) -> bool {
        forall|e: int|
            #![trigger self.edge_at(e)]
            self.e_live(e) ==> self.live(self.edge_at(e).src as int) && self.live(self.edge_at(e).dst as int)
                && self.edge_at(e).src != self.edge_at(e).dst
    }

    /// Some live edge leaves node `i`.
    pub open spec fn has_out_edge(&self, i: int) -> bool {
        exists|e: int| self.e_live(e) && (#[trigger] self.edge_at(e)).src == i
    }

    pub fn new() -> (r: Self)
        ensures
            r.nodes@ =~= Seq::<Option<NodeOp>>::empty(),
            r.edges@ =~= Seq::<Option<Edge>>::empty(),
            r.no_delete@ =~= Seq::<usize>::empty(),
            r.to_retrieve@ =~= Seq::<usize>::empty(),
            r.wf(),
    {
        Graph {
            nodes: Vec::new(),
            edges: Vec::new(),
            no_delete: Vec::new(),
            to_retrieve: Vec::new(),
            dyn_map: crate::expr::DynDimMap::new(),
        }
    }

    /// Add a node; its identifier is the new slot's index.
    pub fn add_node(&mut self, op: NodeOp) -> (r: usize)
        ensures
            final(self).nodes@ == old(self).nodes@.push(Some(op)),
            r == old(self).nodes@.len(),
            final(self).edges@ == old(self).edges@,
            final(self).no_delete@ == old(self).no_delete@,
            final(self).to_retrieve@ == old(self).to_retrieve@,
            final(self).dyn_map == old(self).dyn_map,
            old(self).wf() ==> final(self).wf(),
    {
        let r = self.nodes.len();
        self.nodes.push(Some(op));
        proof {
            if old(self).wf() {
                assert forall|e: int| final(self).e_live(e) implies final(self).live(
                    final(self).edge_at(e).src as int,
                ) && final(self).live(final(self).edge_at(e).dst as int) && final(self).edge_at(e).src
                    != final(self).edge_at(e).dst by {
                    assert(old(self).e_live(e) && old(self).edge_at(e) == final(self).edge_at(e));
                }
            }
        }
        r
    }

    /// Connect two live nodes.
    pub fn add_edge(&mut self, src: usize, dst: usize, dep: Dependency)
        requires
            old(self).live(src as int),
            old(self).live(dst as int),
            src != dst,
        ensures
            final(self).edges@ == old(self).edges@.push(Some(Edge { src, dst, dep })),
            final(self).nodes@ == old(self).nodes@,
            final(self).no_delete@ == old(self).no_delete@,
            final(self).to_retrieve@ == old(self).to_retrieve@,
            final(self).dyn_map == old(self).dyn_map,
            old(self).wf() ==> final(self).wf(),
    {
        self.edges.push(Some(Edge { src, dst, dep }));
        proof {
            if old(self).wf() {
                assert forall|e: int| final(self).e_live(e) implies final(self).live(
                    final(self).edge_at(e).src as int,
                ) && final(self).live(final(self).edge_at(e).dst as int) && final(self).edge_at(e).src
                    != final(self).edge_at(e).dst by {
                    if e < old(self).edges@.len() {
                        assert(old(self).e_live(e) && old(self).edge_at(e) == final(self).edge_at(
                            e,
                        ));
                    }
                }
            }
        }
    }

    /// Rewire a live edge to leave from `s` instead.
    pub fn set_edge_src(&mut self, e: usize, s: usize)
        requires
            old(self).e_live(e as int),
            old(self).live(s as int),
            s != old(self).edge_at(e as int).dst,
        ensures
            final(self).edges@ == old(self).edges@.update(
                e as int,
                Some(
                    Edge {
                        src: s,
                        dst: old(self).edge_at(e as int).dst,
                        dep: old(self).edge_at(e as int).dep,
                    },
                ),
            ),
            final(self).nodes@ == old(self).nodes@,
            final(self).no_delete@ == old(self).no_delete@,
            final(self).to_retrieve@ == old(self).to_retrieve@,
            final(self).dyn_map == old(self).dyn_map,
            old(self).wf() ==> final(self).wf(),
    {
        let slot = self.edges.remove(e);
        let edge = match slot {
            Some(edge) => edge,
            None => {
                proof {
                    assert(false);
                }
                Edge { src: 0, dst: 0, dep: Dependency::Schedule }
            },
        };
        self.edges.insert(e, Some(Edge { src: s, dst: edge.dst, dep: edge.dep }));
        proof {
            assert(final(self).edges@ =~= old(self).edges@.update(
                e as int,
                Some(
                    Edge {
                        src: s,
                        dst: old(self).edge_at(e as int).dst,
                        dep: old(self).edge_at(e as int).dep,
                    },
                ),
            ));
            if old(self).wf() {
                assert forall|e2: int| final(self).e_live(e2) implies final(self).live(
                    final(self).edge_at(e2).src as int,
                ) && final(self).live(final(self).edge_at(e2).dst as int) && final(self).edge_at(e2).src
                    != final(self).edge_at(e2).dst by {
                    if e2 != e {
                        assert(old(self).e_live(e2) && old(self).edge_at(e2)
                            == final(self).edge_at(e2));
                    } else {
                        assert(old(self).e_live(e2));
                    }
                }
            }
        }
    }

    /// Replace a live node's payload in place.
    pub fn set_node_op(&mut self, i: usize, op: NodeOp)
        requires
            old(self).live(i as int),
        ensures
            final(self).nodes@ == old(self).nodes@.update(i as int, Some(op)),
            final(self).edges@ == old(self).edges@,
            final(self).no_delete@ == old(self).no_delete@,
            final(self).to_retrieve@ == old(self).to_retrieve@,
            final(self).dyn_map == old(self).dyn_map,
            old(self).wf() ==> final(self).wf(),
    {
        let _ = self.nodes.remove(i);
        self.nodes.insert(i, Some(op));
        proof {
            assert(final(self).nodes@ =~= old(self).nodes@.update(i as int, Some(op)));
            if old(self).wf() {
                assert forall|e: int| final(self).e_live(e) implies final(self).live(
                    final(self).edge_at(e).src as int,
                ) && final(self).live(final(self).edge_at(e).dst as int) && final(self).edge_at(e).src
                    != final(self).edge_at(e).dst by {
                    assert(old(self).e_live(e) && old(self).edge_at(e) == final(self).edge_at(e));
                }
            }
        }
    }

    /// Clear a live edge slot.
    pub fn remove_edge(&mut self, e: usize)
        requires
            e < old(self).edges@.len(),
        ensures
            final(self).edges@ == old(self).edges@.update(e as int, None),
            final(self).nodes@ == old(self).nodes@,
            final(self).no_delete@ == old(self).no_delete@,
            final(self).to_retrieve@ == old(self).to_retrieve@,
            final(self).dyn_map == old(self).dyn_map,
            old(self).wf() ==> final(self).wf(),
    {
        let _ = self.edges.remove(e);
        self.edges.insert(e, None);
        proof {
            assert(final(self).edges@ =~= old(self).edges@.update(e as int, None));
            if old(self).wf() {
                assert forall|e2: int| final(self).e_live(e2) implies final(self).live(
                    final(self).edge_at(e2).src as int,
                ) && final(self).live(final(self).edge_at(e2).dst as int) && final(self).edge_at(e2).src
                    != final(self).edge_at(e2).dst by {
                    assert(old(self).e_live(e2) && old(self).edge_at(e2) == final(self).edge_at(
                        e2,
                    ));
                }
            }
        }
    }

    /// Mark a node as kept alive.
    pub fn mark_no_delete(&mut self, x: usize)
        ensures
            final(self).nodes@ == old(self).nodes@,
            final(self).edges@ == old(self).edges@,
            final(self).to_retrieve@ == old(self).to_retrieve@,
            final(self).dyn_map == old(self).dyn_map,
            forall|y: usize|
                final(self).no_delete@.contains(y) <==> (old(self).no_delete@.contains(y) || y
                    == x),
            old(self).wf() ==> final(self).wf(),
    {
        ids_insert(&mut self.no_delete, x);
        proof {
            if old(self).wf() {
                assert forall|e: int| final(self).e_live(e) implies final(self).live(
                    final(self).edge_at(e).src as int,
                ) && final(self).live(final(self).edge_at(e).dst as int) && final(self).edge_at(
                    e,
                ).src != final(self).edge_at(e).dst by {
                    assert(old(self).e_live(e) && old(self).edge_at(e) == final(self).edge_at(e));
                }
            }
        }
    }

    /// Mark a node for retrieval.
    pub fn mark_retrieve(&mut self, x: usize)
        ensures
            final(self).nodes@ == old(self).nodes@,
            final(self).edges@ == old(self).edges@,
            final(self).no_delete@ == old(self).no_delete@,
            final(self).dyn_map == old(self).dyn_map,
            forall|y: usize|
                final(self).to_retrieve@.contains(y) <==> (old(self).to_retrieve@.contains(y) || y
                    == x),
            old(self).wf() ==> final(self).wf(),
    {
        ids_insert(&mut self.to_retrieve, x);
        proof {
            if old(self).wf() {
                assert forall|e: int| final(self).e_live(e) implies final(self).live(
                    final(self).edge_at(e).src as int,
                ) && final(self).live(final(self).edge_at(e).dst as int) && final(self).edge_at(
                    e,
                ).src != final(self).edge_at(e).dst by {
                    assert(old(self).e_live(e) && old(self).edge_at(e) == final(self).edge_at(e));
                }
            }
        }
    }

    /// Drop `from` from the keep-alive and retrieval sets and put `to` into
    /// both (the retrieval-elision bookkeeping).
    pub fn retarget_sets(&mut self, from: usize, to: usize)
        ensures
            final(self).nodes@ == old(self).nodes@,
            final(self).edges@ == old(self).edges@,
            final(self).dyn_map == old(self).dyn_map,
            forall|y: usize|
                final(self).no_delete@.contains(y) <==> ((old(self).no_delete@.contains(y) && y
                    != from) || y == to),
            forall|y: usize|
                final(self).to_retrieve@.contains(y) <==> ((old(self).to_retrieve@.contains(y) && y
                    != from) || y == to),
            old(self).wf() ==> final(self).wf(),
    {
        ids_remove(&mut self.no_delete, from);
        ids_insert(&mut self.no_delete, to);
        ids_remove(&mut self.to_retrieve, from);
        ids_insert(&mut self.to_retrieve, to);
        proof {
            if old(self).wf() {
                assert forall|e: int| final(self).e_live(e) implies final(self).live(
                    final(self).edge_at(e).src as int,
                ) && final(self).live(final(self).edge_at(e).dst as int) && final(self).edge_at(
                    e,
                ).src != final(self).edge_at(e).dst by {
                    assert(old(self).e_live(e) && old(self).edge_at(e) == final(self).edge_at(e));
                }
            }
        }
    }

    /// Rewire a live edge to leave from `s` with the given dependency.
    pub fn set_edge_src_dep(&mut self, e: usize, s: usize, dep: Dependency)
        requires
            old(self).e_live(e as int),
            old(self).live(s as int),
            s != old(self).edge_at(e as int).dst,
        ensures
            final(self).edges@ == old(self).edges@.update(
                e as int,
                Some(Edge { src: s, dst: old(self).edge_at(e as int).dst, dep }),
            ),
            final(self).nodes@ == old(self).nodes@,
            final(self).no_delete@ == old(self).no_delete@,
            final(self).to_retrieve@ == old(self).to_retrieve@,
            final(self).dyn_map == old(self).dyn_map,
            old(self).wf() ==> final(self).wf(),
    {
        let slot = self.edges.remove(e);
        let edge = match slot {
            Some(edge) => edge,
            None => {
                proof {
                    assert(false);
                }
                Edge { src: 0, dst: 0, dep: Dependency::Schedule }
            },
        };
        self.edges.insert(e, Some(Edge { src: s, dst: edge.dst, dep }));
        proof {
            assert(final(self).edges@ =~= old(self).edges@.update(
                e as int,
                Some(Edge { src: s, dst: old(self).edge_at(e as int).dst, dep }),
            ));
            if old(self).wf() {
                assert forall|e2: int| final(self).e_live(e2) implies final(self).live(
                    final(self).edge_at(e2).src as int,
                ) && final(self).live(final(self).edge_at(e2).dst as int) && final(self).edge_at(
                    e2,
                ).src != final(self).edge_at(e2).dst by {
                    if e2 != e {
                        assert(old(self).e_live(e2) && old(self).edge_at(e2)
                            == final(self).edge_at(e2));
                    } else {
                        assert(old(self).e_live(e2));
                    }
                }
            }
        }
    }

    /// Edge `e` is live and touches node `i`.
    pub open spec fn touches(&self, i: int, e: int) -> bool {
        self.e_live(e) && (self.edge_at(e).src == i || self.edge_at(e).dst == i)
    }

    /// Remove a node and every edge incident to it.
    #[verifier::rlimit(80)]
    #[verifier::spinoff_prover]
    pub fn remove_node(&mut self, i: usize)
        requires
            i < old(self).nodes@.len(),
        ensures
            final(self).nodes@ == old(self).nodes@.update(i as int, None),
            final(self).edges@.len() == old(self).edges@.len(),
            forall|e: int|
                0 <= e < old(self).edges@.len() ==> final(self).edges@[e] == (if old(self).touches(
                    i as int,
                    e,
                ) {
                    None
                } else {
                    old(self).edges@[e]
                }),
            final(self).no_delete@ == old(self).no_delete@,
            final(self).to_retrieve@ == old(self).to_retrieve@,
            final(self).dyn_map == old(self).dyn_map,
            old(self).wf() ==> final(self).wf(),
    {
        let _ = self.nodes.remove(i);
        self.nodes.insert(i, None);
        proof {
            assert(self.nodes@ =~= old(self).nodes@.update(i as int, None));
        }
        let n = self.edges.len();
        let mut e: usize = 0;
        while e < n
            invariant
                0 <= e <= n == old(self).edges@.len(),
                self.edges@.len() == n,
                self.nodes@ == old(self).nodes@.update(i as int, None),
                self.no_delete@ == old(self).no_delete@,
                self.to_retrieve@ == old(self).to_retrieve@,
                self.dyn_map == old(self).dyn_map,
                i < old(self).nodes@.len(),
                forall|e2: int|
                    0 <= e2 < e ==> self.edges@[e2] == (if old(self).touches(i as int, e2) {
                        None
                    } else {
                        old(self).edges@[e2]
                    }),
                forall|e2: int| e <= e2 < n ==> self.edges@[e2] == old(self).edges@[e2],
            decreases n - e,
        {
            let hit = match &self.edges[e] {
                Some(edge) => edge.src == i || edge.dst == i,
                None => false,
            };
            let ghost prev = self.edges@;
            if hit {
                let _ = self.edges.remove(e);
                self.edges.insert(e, None);
                proof {
                    assert(self.edges@ =~= prev.update(e as int, None));
                }
            }
            proof {
                assert(prev[e as int] == old(self).edges@[e as int]);
                assert(hit == old(self).touches(i as int, e as int));
                assert forall|e2: int|
                    0 <= e2 < e + 1 implies self.edges@[e2] == (if old(self).touches(
                    i as int,
                    e2,
                ) {
                    None
                } else {
                    old(self).edges@[e2]
                }) by {
                    if e2 < e {
                        assert(self.edges@[e2] == prev[e2]);
                    } else {
                        if hit {
                            assert(self.edges@[e2] == None::<Edge>);
                        } else {
                            assert(self.edges@[e2] == prev[e2]);
                        }
                    }
                }
            }
            e = e + 1;
        }
        proof {
            if old(self).wf() {
                assert forall|e2: int| final(self).e_live(e2) implies final(self).live(
                    final(self).edge_at(e2).src as int,
                ) && final(self).live(final(self).edge_at(e2).dst as int) && final(self).edge_at(e2).src
                    != final(self).edge_at(e2).dst by {
                    assert(!old(self).touches(i as int, e2));
                    assert(final(self).edges@[e2] == old(self).edges@[e2]);
                    assert(old(self).e_live(e2));
                    assert(old(self).edge_at(e2) == final(self).edge_at(e2));
                    assert(old(self).edge_at(e2).src != i && old(self).edge_at(e2).dst != i);
                }
            }
        }
    }
}

/// Membership test on an identifier list.
pub fn ids_contain(v: &Vec<usize>, x: usize) -> (r: bool)
    ensures
        r == v@.contains(x),
{
    let mut i: usize = 0;
    while i < v.len()
        invariant
            0 <= i <= v@.len(),
            forall|j: int| 0 <= j < i ==> v@[j] != x,
        decreases v@.len() - i,
    {
        if v[i] == x {
            return true;
        }
        i = i + 1;
    }
    false
}

/// Add an identifier to a set kept as a list.
pub fn ids_insert(v: &mut Vec<usize>, x: usize)
    ensures
        forall|y: usize| final(v)@.contains(y) <==> (old(v)@.contains(y) || y == x),
{
    if !ids_contain(v, x) {
        v.push(x);
        proof {
            assert forall|y: usize| final(v)@.contains(y) <==> (old(v)@.contains(y) || y == x) by {
                if final(v)@.contains(y) {
                    let j = choose|j: int| 0 <= j < final(v)@.len() && final(v)@[j] == y;
                    if j < old(v)@.len() {
                        assert(old(v)@[j] == y);
                    }
                }
                if old(v)@.contains(y) {
                    let j = choose|j: int| 0 <= j < old(v)@.len() && old(v)@[j] == y;
                    assert(final(v)@[j] == y);
                }
                if y == x {
                    assert(final(v)@[final(v)@.len() - 1] == x);
                }
            }
        }
    }
}

/// Remove an identifier from a set kept as a list.
pub fn ids_remove(v: &mut Vec<usize>, x: usize)
    ensures
        forall|y: usize| final(v)@.contains(y) <==> (old(v)@.contains(y) && y != x),
{
    let mut out: Vec<usize> = Vec::new();
    let mut i: usize = 0;
    while i < v.len()
        invariant
            0 <= i <= v@.len(),
            forall|y: usize|
                #![trigger out@.contains(y)]
                #![trigger v@.subrange(0, i as int).contains(y)]
                out@.contains(y) <==> (v@.subrange(0, i as int).contains(y) && y != x),
        decreases v@.len() - i,
    {
        let c = v[i];
        let ghost pre_out = out@;
        if c != x {
            out.push(c);
        }
        proof {
            let pre = v@.subrange(0, i as int);
            let cur = v@.subrange(0, i as int + 1);
            assert(cur.drop_last() =~= pre);
            assert(cur.last() == v@[i as int]);
            assert forall|y: usize| out@.contains(y) <==> (cur.contains(y) && y != x) by {
                if out@.contains(y) {
                    let j = choose|j: int| 0 <= j < out@.len() && out@[j] == y;
                    if j < pre_out.len() {
                        assert(pre_out[j] == y);
                        assert(pre_out.contains(y));
                        assert(pre.contains(y) && y != x);
                        let k = choose|k: int| 0 <= k < pre.len() && pre[k] == y;
                        assert(cur[k] == y);
                        assert(cur.contains(y));
                    } else {
                        assert(y == c && c != x);
                        assert(cur[i as int] == y);
                        assert(cur.contains(y));
                    }
                }
                if cur.contains(y) && y != x {
                    let k = choose|k: int| 0 <= k < cur.len() && cur[k] == y;
                    if k < i {
                        assert(pre[k] == y);
                        assert(pre.contains(y));
                        assert(pre_out.contains(y));
                        let j = choose|j: int| 0 <= j < pre_out.len() && pre_out[j] == y;
                        assert(out@[j] == y);
                        assert(out@.contains(y));
                    } else {
                        assert(y == c);
                        assert(c != x);
                        assert(out@[out@.len() - 1] == y);
                        assert(out@.contains(y));
                    }
                }
            }
        }
        i = i + 1;
    }
    proof {
        assert(v@.subrange(0, v@.len() as int) =~= v@);
    }
    *v = out;
}

/// Transfer a graph's keep-alive and retrieval bookkeeping, and every
/// external reference, from one node to another.
pub fn graph_move_references(g: &mut Graph, remap: &mut Vec<usize>, from: usize, to: usize)
    ensures
        final(g).nodes@ == old(g).nodes@,
        final(g).edges@ == old(g).edges@,
        final(g).dyn_map == old(g).dyn_map,
        final(remap)@.len() == old(remap)@.len(),
        forall|j: int|
            0 <= j < old(remap)@.len() ==> final(remap)@[j] == (if old(remap)@[j] == from {
                to
            } else {
                old(remap)@[j]
            }),
        forall|y: usize|
            final(g).no_delete@.contains(y) <==> ((old(g).no_delete@.contains(y) && y != from) || (
            y == to && old(g).no_delete@.contains(from))),
        forall|y: usize|
            final(g).to_retrieve@.contains(y) <==> ((old(g).to_retrieve@.contains(y) && y != from)
                || (y == to && old(g).to_retrieve@.contains(from))),
        old(g).wf() ==> final(g).wf(),
{
    move_references(remap, &mut g.no_delete, &mut g.to_retrieve, from, to);
    proof {
        if old(g).wf() {
            assert forall|e: int| final(g).e_live(e) implies final(g).live(
                final(g).edge_at(e).src as int,
            ) && final(g).live(final(g).edge_at(e).dst as int) && final(g).edge_at(e).src
                != final(g).edge_at(e).dst by {
                assert(old(g).e_live(e) && old(g).edge_at(e) == final(g).edge_at(e));
            }
        }
    }
}

/// Transfer the keep-alive and retrieval bookkeeping, and every external
/// reference, from one node to another.
pub fn move_references(
    remap: &mut Vec<usize>,
    no_delete: &mut Vec<usize>,
    to_retrieve: &mut Vec<usize>,
    from: usize,
    to: usize,
)
    ensures
        final(remap)@.len() == old(remap)@.len(),
        forall|j: int|
            0 <= j < old(remap)@.len() ==> final(remap)@[j] == (if old(remap)@[j] == from {
                to
            } else {
                old(remap)@[j]
            }),
        forall|y: usize|
            final(no_delete)@.contains(y) <==> ((old(no_delete)@.contains(y) && y != from) || (y
                == to && old(no_delete)@.contains(from))),
        forall|y: usize|
            final(to_retrieve)@.contains(y) <==> ((old(to_retrieve)@.contains(y) && y != from) || (
            y == to && old(to_retrieve)@.contains(from))),
{
    let n = remap.len();
    let mut j: usize = 0;
    while j < n
        invariant
            0 <= j <= n == remap@.len(),
            forall|k: int|
                0 <= k < j ==> remap@[k] == (if old(remap)@[k] == from {
                    to
                } else {
                    old(remap)@[k]
                }),
            forall|k: int| j <= k < n ==> remap@[k] == old(remap)@[k],
        decreases n - j,
    {
        if remap[j] == from {
            remap[j] = to;
        }
        j = j + 1;
    }
    if ids_contain(no_delete, from) {
        ids_remove(no_delete, from);
        ids_insert(no_delete, to);
    }
    if ids_contain(to_retrieve, from) {
        ids_remove(to_retrieve, from);
        ids_insert(to_retrieve, to);
    }
}

} // verus!
