//! A simpler, single-element-type lowering pass: route every input
//! function's output through a `CopyToDevice`, copy every kept (no-delete)
//! value back to the host, and swap the unary primitives for their 32-bit
//! float device operators.

use crate::compile::is_copy;
use crate::graph::{graph_move_references, Dependency, Graph, NodeOp, PrimKind};
use crate::prim::{CudaExp2, CudaLog2, CudaRecip, CudaSin, CudaSqrt, ElemKind};
use crate::shape::ShapeTracker;
use vstd::prelude::*;

verus! {

/// How the pass maps a node payload: the five unary primitives become their
/// 32-bit float device operators; everything else is untouched.
pub open spec fn unary_sub_ok(o: NodeOp, n2: NodeOp) -> bool {
    let tn = crate::prim::spec_type_name(ElemKind::F32);
    match o {
        NodeOp::Prim(PrimKind::Log2) => n2 matches NodeOp::Log2(x) && x.code@
            == crate::prim::spec_unary_kernel(tn, "log2"@),
        NodeOp::Prim(PrimKind::Exp2) => n2 matches NodeOp::Exp2(x) && x.code@
            == crate::prim::spec_unary_kernel(tn, "exp2"@),
        NodeOp::Prim(PrimKind::Sin) => n2 matches NodeOp::Sin(x) && x.code@
            == crate::prim::spec_unary_kernel(tn, "sin"@),
        NodeOp::Prim(PrimKind::Sqrt) => n2 matches NodeOp::Sqrt(x) && x.code@
            == crate::prim::spec_unary_kernel(tn, "sqrt"@),
        NodeOp::Prim(PrimKind::Recip) => n2 matches NodeOp::Recip(x) && x.code@
            == crate::prim::spec_unary_kernel(tn, "__frcp_rn"@),
        _ => n2 == o,
    }
}

/// Node `y` feeds a fresh copy-to-device node among the inserted ones.
pub open spec fn to_device_inserted(g: Graph, y: usize, bound: int) -> bool {
    exists|e: int|
        #[trigger] g.e_live(e) && g.edge_at(e).src == y && bound <= g.edge_at(e).dst as int
            && g.op_of(g.edge_at(e).dst as int) is CopyToDevice
}

/// Node `y` gained a read-back copy: an inserted `CopyFromDevice` successor
/// that now carries the keep-alive mark and every external reference that
/// named `y` in `r0`.
pub open spec fn copy_back_inserted(g: Graph, r: Seq<usize>, r0: Seq<usize>, y: usize, bound: int) -> bool {
    exists|c: usize|
        (#[trigger] g.op_of(c as int)) is CopyFromDevice && g.live(c as int) && bound <= c
            < g.nodes@.len() && crate::compile::edge_to(g, y as int, c as int)
            && g.no_delete@.contains(c) && (forall|j: int|
            0 <= j < r0.len() && r0[j] == y ==> r[j] == c)
}

/// Every keep-alive identifier names a node slot.
pub open spec fn no_delete_in_range(g: Graph) -> bool {
    forall|n: usize| #[trigger] g.no_delete@.contains(n) ==> (n as int) < g.nodes@.len()
}

/// Convert the unary primitives to device operators and insert the copies
/// to and from the device around inputs and kept values.
pub struct CudaPrimitiveOptimizer {
}

impl CudaPrimitiveOptimizer {
    pub fn optimize(&self, g: &mut Graph, remap: &mut Vec<usize>)
        requires
            old(g).wf(),
            no_delete_in_range(*old(g)),
        ensures
            final(g).wf(),
            // every input function gained a copy to the device; if it was
            // kept, the inserted copy is kept in turn through a read-back
            forall|y: usize|
                (y as int) < old(g).nodes@.len() && old(g).live(y as int)
                    && crate::compile::is_function(#[trigger] old(g).op_of(y as int))
                    ==> to_device_inserted(*final(g), y, old(g).nodes@.len() as int),
            // every kept non-function value gained a read-back copy holding
            // its keep-alive mark and its external references
            forall|y: usize|
                #[trigger] old(g).no_delete@.contains(y) && old(g).live(y as int)
                    && !crate::compile::is_function(old(g).op_of(y as int))
                    ==> copy_back_inserted(
                    *final(g),
                    final(remap)@,
                    old(remap)@,
                    y,
                    old(g).nodes@.len() as int,
                ) && !final(g).no_delete@.contains(y),
            final(g).nodes@.len() >= old(g).nodes@.len(),
            forall|i: int|
                0 <= i < old(g).nodes@.len() ==> (if old(g).live(i) {
                    final(g).live(i) && unary_sub_ok(old(g).op_of(i), #[trigger] final(g).op_of(i))
                } else {
                    final(g).nodes@[i] is None
                }),
            forall|j: int|
                old(g).nodes@.len() <= j < final(g).nodes@.len() && final(g).nodes@[j] is Some
                    ==> is_copy(#[trigger] final(g).nodes@[j]->Some_0),
            // every input function now feeds its consumers through copies to
            // the device
            forall|i: int|
                0 <= i < old(g).nodes@.len() && old(g).live(i) && crate::compile::is_function(
                    #[trigger] old(g).op_of(i),
                ) ==> crate::compile::all_outs_to_dev(*final(g), i),
            // no edge is removed, retargeted or reweighted: a producer
            // changes only onto one of the inserted copies
            forall|e: int|
                0 <= e < old(g).edges@.len() ==> #[trigger] final(g).e_live(e) == old(g).e_live(e)
                    && (old(g).e_live(e) ==> final(g).edge_at(e).dst == old(g).edge_at(e).dst
                    && final(g).edge_at(e).dep == old(g).edge_at(e).dep && (final(g).edge_at(e).src
                    == old(g).edge_at(e).src || old(g).nodes@.len() <= final(g).edge_at(e).src)),
            // bookkeeping moves only onto the inserted copies, and marks on
            // functions stay put
            forall|y: usize|
                #[trigger] final(g).no_delete@.contains(y) ==> old(g).no_delete@.contains(y)
                    || old(g).nodes@.len() <= y < final(g).nodes@.len(),
            forall|y: usize|
                #[trigger] final(g).to_retrieve@.contains(y) ==> old(g).to_retrieve@.contains(y)
                    || old(g).nodes@.len() <= y < final(g).nodes@.len(),
            forall|y: usize|
                old(g).no_delete@.contains(y) && old(g).live(y as int)
                    && crate::compile::is_function(old(g).op_of(y as int))
                    ==> final(g).no_delete@.contains(y),
            final(remap)@.len() == old(remap)@.len(),
            forall|j: int|
                0 <= j < old(remap)@.len() ==> final(remap)@[j] == old(remap)@[j] || old(
                    g,
                ).nodes@.len() <= final(remap)@[j] < final(g).nodes@.len(),
    {
        let n0 = g.nodes.len();
        let ghost e0 = g.edges@.len();
        // Copy every input function's output to the device.
        let mut i: usize = 0;
        while i < n0
            invariant
                0 <= i <= n0 == old(g).nodes@.len(),
                g.wf(),
                g.nodes@.len() >= n0,
                e0 == old(g).edges@.len() <= g.edges@.len(),
                forall|j: int| 0 <= j < n0 ==> g.nodes@[j] == old(g).nodes@[j],
                forall|j: int|
                    n0 <= j < g.nodes@.len() && g.nodes@[j] is Some ==> is_copy(
                        #[trigger] g.nodes@[j]->Some_0,
                    ),
                forall|j: int|
                    0 <= j < i && old(g).live(j) && crate::compile::is_function(
                        #[trigger] old(g).op_of(j),
                    ) ==> crate::compile::all_outs_to_dev(*g, j),
                forall|j: int|
                    0 <= j < i && old(g).live(j) && crate::compile::is_function(
                        #[trigger] old(g).op_of(j),
                    ) ==> to_device_inserted(*g, j as usize, n0 as int) && (old(
                        g,
                    ).no_delete@.contains(j as usize) ==> exists|e2: int|
                        #[trigger] g.e_live(e2) && g.edge_at(e2).src == j && n0 <= g.edge_at(
                            e2,
                        ).dst as int && g.op_of(g.edge_at(e2).dst as int) is CopyToDevice
                            && g.no_delete@.contains(g.edge_at(e2).dst)),
                forall|e: int|
                    0 <= e < e0 ==> #[trigger] g.e_live(e) == old(g).e_live(e) && (old(g).e_live(e)
                        ==> g.edge_at(e).dst == old(g).edge_at(e).dst && g.edge_at(e).dep == old(
                        g,
                    ).edge_at(e).dep && (g.edge_at(e).src == old(g).edge_at(e).src || n0
                        <= g.edge_at(e).src)),
                forall|y: usize|
                    #[trigger] g.no_delete@.contains(y) ==> old(g).no_delete@.contains(y) || n0 <= y
                        < g.nodes@.len(),
                g.to_retrieve@ == old(g).to_retrieve@,
                forall|y: usize|
                    old(g).no_delete@.contains(y) ==> g.no_delete@.contains(y),
                no_delete_in_range(*g),
                remap@ == old(remap)@,
                g.dyn_map == old(g).dyn_map,
            decreases n0 - i,
        {
            let live_fn = match &g.nodes[i] {
                Some(op) => {
                    match op {
                        NodeOp::Prim(PrimKind::Function) => true,
                        _ => false,
                    }
                },
                None => false,
            };
            if live_fn {
                let ghost g_pre = *g;
                let copy = g.add_node(NodeOp::CopyToDevice);
                proof {
                    assert forall|e2: int| g.e_live(e2) implies (#[trigger] g.edge_at(e2)).dst
                        != copy by {
                        assert(g_pre.e_live(e2));
                        assert(g_pre.live(g_pre.edge_at(e2).dst as int));
                    }
                    assert forall|j: int|
                        0 <= j < i && old(g).live(j) && crate::compile::is_function(
                            #[trigger] old(g).op_of(j),
                        ) implies crate::compile::all_outs_to_dev(*g, j) by {
                        assert(crate::compile::all_outs_to_dev(g_pre, j));
                        assert forall|e2: int|
                            g.e_live(e2) && (#[trigger] g.edge_at(e2)).src == j implies g.op_of(
                            g.edge_at(e2).dst as int,
                        ) is CopyToDevice by {
                            assert(g_pre.e_live(e2) && g_pre.edge_at(e2) == g.edge_at(e2));
                            assert(g_pre.op_of(g_pre.edge_at(e2).dst as int) is CopyToDevice);
                        }
                    }
                    assert forall|e2: int|
                        0 <= e2 < e0 implies #[trigger] g.e_live(e2) == old(g).e_live(e2) && (old(
                            g,
                        ).e_live(e2) ==> g.edge_at(e2).dst == old(g).edge_at(e2).dst && g.edge_at(
                            e2,
                        ).dep == old(g).edge_at(e2).dep && (g.edge_at(e2).src == old(g).edge_at(
                            e2,
                        ).src || n0 <= g.edge_at(e2).src)) by {
                        assert(g.edges@[e2] == g_pre.edges@[e2]);
                        assert(g_pre.e_live(e2) == old(g).e_live(e2));
                    }
                }
                // Switch the outgoing edges over to the copy.
                let m = g.edges.len();
                let mut e: usize = 0;
                while e < m
                    invariant
                        0 <= e <= m == g.edges@.len(),
                        g.wf(),
                        g.nodes@ == g_pre.nodes@.push(Some(NodeOp::CopyToDevice)),
                        copy == g_pre.nodes@.len(),
                        n0 <= copy,
                        i < n0,
                        e0 <= g.edges@.len(),
                        g.live(copy as int),
                        g.op_of(copy as int) is CopyToDevice,
                        g.live(i as int),
                        g.no_delete@ == g_pre.no_delete@,
                        g.to_retrieve@ == g_pre.to_retrieve@,
                        g.dyn_map == g_pre.dyn_map,
                        forall|e2: int|
                            g.e_live(e2) ==> (#[trigger] g.edge_at(e2)).dst != copy,
                        forall|e2: int|
                            0 <= e2 < e && g.e_live(e2) ==> (#[trigger] g.edge_at(e2)).src != i,
                        m == g_pre.edges@.len(),
                        forall|e2: int|
                            0 <= e2 < m ==> g.edges@[e2] == g_pre.edges@[e2] || (g_pre.e_live(e2)
                                && (#[trigger] g_pre.edge_at(e2)).src == i),
                        forall|j: int|
                            0 <= j < i && old(g).live(j) && crate::compile::is_function(
                                #[trigger] old(g).op_of(j),
                            ) ==> crate::compile::all_outs_to_dev(*g, j),
                        e0 == old(g).edges@.len(),
                        forall|e2: int|
                            0 <= e2 < e0 ==> #[trigger] g.e_live(e2) == old(g).e_live(e2) && (old(
                                g,
                            ).e_live(e2) ==> g.edge_at(e2).dst == old(g).edge_at(e2).dst
                                && g.edge_at(e2).dep == old(g).edge_at(e2).dep && (g.edge_at(
                                e2,
                            ).src == old(g).edge_at(e2).src || n0 <= g.edge_at(e2).src)),
                        forall|j: int| 0 <= j < n0 ==> g.nodes@[j] == old(g).nodes@[j],
                    decreases m - e,
                {
                    let hit = match &g.edges[e] {
                        Some(edge) => edge.src == i,
                        None => false,
                    };
                    if hit {
                        proof {
                            assert(g.e_live(e as int));
                            assert(g.edge_at(e as int).dst != copy);
                        }
                        let ghost g_mid = *g;
                        g.set_edge_src(e, copy);
                        proof {
                            assert forall|e2: int| g.e_live(e2) implies (#[trigger] g.edge_at(
                                e2,
                            )).dst != copy by {
                                if e2 != e {
                                    assert(g_mid.e_live(e2) && g_mid.edge_at(e2) == g.edge_at(e2));
                                }
                            }
                            assert forall|j: int|
                                0 <= j < i && old(g).live(j) && crate::compile::is_function(
                                    #[trigger] old(g).op_of(j),
                                ) implies crate::compile::all_outs_to_dev(*g, j) by {
                                assert(crate::compile::all_outs_to_dev(g_mid, j));
                                assert forall|e2: int|
                                    g.e_live(e2) && (#[trigger] g.edge_at(e2)).src == j implies
                                    g.op_of(g.edge_at(e2).dst as int) is CopyToDevice by {
                                    if e2 == e {
                                        assert(g.edge_at(e2).src == copy && copy != j);
                                        assert(false);
                                    }
                                    assert(g_mid.e_live(e2) && g_mid.edge_at(e2) == g.edge_at(e2));
                                }
                            }
                            assert forall|e2: int|
                                0 <= e2 < e0 implies #[trigger] g.e_live(e2) == old(g).e_live(e2)
                                    && (old(g).e_live(e2) ==> g.edge_at(e2).dst == old(g).edge_at(
                                    e2,
                                ).dst && g.edge_at(e2).dep == old(g).edge_at(e2).dep && (g.edge_at(
                                    e2,
                                ).src == old(g).edge_at(e2).src || n0 <= g.edge_at(e2).src)) by {
                                if e2 == e {
                                    assert(g.edge_at(e2).src == copy && n0 <= copy);
                                    assert(g.edge_at(e2).dst == g_mid.edge_at(e2).dst);
                                    assert(g.edge_at(e2).dep == g_mid.edge_at(e2).dep);
                                } else {
                                    assert(g.edges@[e2] == g_mid.edges@[e2]);
                                }
                            }
                            assert forall|e2: int|
                                0 <= e2 < m implies g.edges@[e2] == g_pre.edges@[e2] || (
                            g_pre.e_live(e2) && (#[trigger] g_pre.edge_at(e2)).src == i) by {
                                if e2 == e {
                                    assert(g_mid.e_live(e2) && g_mid.edge_at(e2).src == i);
                                    if g_mid.edges@[e2] == g_pre.edges@[e2] {
                                        assert(g_pre.e_live(e2) && g_pre.edge_at(e2).src == i);
                                    }
                                } else {
                                    assert(g.edges@[e2] == g_mid.edges@[e2]);
                                }
                            }
                        }
                    }
                    e = e + 1;
                }
                let empty_dims: Vec<u64> = Vec::new();
                let ghost g_rw = *g;
                g.add_edge(
                    i,
                    copy,
                    Dependency::Data {
                        shape: ShapeTracker::new(&empty_dims),
                        input_order: 0,
                        output_order: 0,
                    },
                );
                let was_kept = crate::graph::ids_contain(&g.no_delete, i);
                if was_kept {
                    g.mark_no_delete(copy);
                }
                proof {
                    // the new copy is this function's device-side successor,
                    // kept when the function is kept
                    let we = g_rw.edges@.len() as int;
                    assert(g.e_live(we) && g.edge_at(we).src == i && g.edge_at(we).dst == copy);
                    assert(g.op_of(copy as int) is CopyToDevice);
                    assert(n0 <= copy);
                    assert(to_device_inserted(*g, i, n0 as int));
                    if old(g).no_delete@.contains(i) {
                        assert(was_kept);
                        assert(g.no_delete@.contains(copy));
                    }
                    // the function's only remaining out-edge feeds the copy
                    assert forall|e2: int|
                        g.e_live(e2) && (#[trigger] g.edge_at(e2)).src == i implies g.op_of(
                        g.edge_at(e2).dst as int,
                    ) is CopyToDevice by {
                        if e2 < g_rw.edges@.len() {
                            assert(g_rw.e_live(e2) && g_rw.edge_at(e2) == g.edge_at(e2));
                            assert(false);
                        } else {
                            assert(g.edge_at(e2).dst == copy);
                        }
                    }
                    assert(crate::compile::all_outs_to_dev(*g, i as int));
                    assert forall|e2: int|
                        0 <= e2 < e0 implies #[trigger] g.e_live(e2) == old(g).e_live(e2) && (old(
                            g,
                        ).e_live(e2) ==> g.edge_at(e2).dst == old(g).edge_at(e2).dst && g.edge_at(
                            e2,
                        ).dep == old(g).edge_at(e2).dep && (g.edge_at(e2).src == old(g).edge_at(
                            e2,
                        ).src || n0 <= g.edge_at(e2).src)) by {
                        assert(g.edges@[e2] == g_rw.edges@[e2]);
                        assert(g_rw.e_live(e2) == old(g).e_live(e2));
                        assert(g.e_live(e2) == g_rw.e_live(e2));
                    }
                    assert forall|j: int|
                        0 <= j < i + 1 && old(g).live(j) && crate::compile::is_function(
                            #[trigger] old(g).op_of(j),
                        ) implies crate::compile::all_outs_to_dev(*g, j) by {
                        if j < i {
                            assert(crate::compile::all_outs_to_dev(g_rw, j));
                            assert forall|e2: int|
                                g.e_live(e2) && (#[trigger] g.edge_at(e2)).src == j implies
                                g.op_of(g.edge_at(e2).dst as int) is CopyToDevice by {
                                if e2 < g_rw.edges@.len() {
                                    assert(g_rw.e_live(e2) && g_rw.edge_at(e2) == g.edge_at(e2));
                                } else {
                                    assert(g.edge_at(e2).src == i && i != j);
                                    assert(false);
                                }
                            }
                        }
                    }
                    assert forall|j: int|
                        0 <= j < i + 1 && old(g).live(j) && crate::compile::is_function(
                            #[trigger] old(g).op_of(j),
                        ) implies to_device_inserted(*g, j as usize, n0 as int) && (old(
                            g,
                        ).no_delete@.contains(j as usize) ==> exists|e2: int|
                            #[trigger] g.e_live(e2) && g.edge_at(e2).src == j && n0 <= g.edge_at(
                                e2,
                            ).dst as int && g.op_of(g.edge_at(e2).dst as int) is CopyToDevice
                                && g.no_delete@.contains(g.edge_at(e2).dst)) by {
                        if j < i {
                            // the earlier function's witness edge survives:
                            // this round only rewired edges leaving `i`
                            let we2 = choose|we2: int|
                                #[trigger] g_pre.e_live(we2) && g_pre.edge_at(we2).src == j && n0
                                    <= g_pre.edge_at(we2).dst as int && g_pre.op_of(
                                    g_pre.edge_at(we2).dst as int,
                                ) is CopyToDevice;
                            assert(g_rw.edges@[we2] == g_pre.edges@[we2]);
                            assert(g.edges@[we2] == g_rw.edges@[we2]);
                            assert(g.e_live(we2) && g.edge_at(we2) == g_pre.edge_at(we2));
                            assert(g.op_of(g.edge_at(we2).dst as int) is CopyToDevice);
                            assert(to_device_inserted(*g, j as usize, n0 as int));
                            if old(g).no_delete@.contains(j as usize) {
                                let we3 = choose|we3: int|
                                    #[trigger] g_pre.e_live(we3) && g_pre.edge_at(we3).src == j
                                        && n0 <= g_pre.edge_at(we3).dst as int && g_pre.op_of(
                                        g_pre.edge_at(we3).dst as int,
                                    ) is CopyToDevice && g_pre.no_delete@.contains(
                                        g_pre.edge_at(we3).dst,
                                    );
                                assert(g_rw.edges@[we3] == g_pre.edges@[we3]);
                                assert(g.edges@[we3] == g_rw.edges@[we3]);
                                assert(g.e_live(we3) && g.edge_at(we3) == g_pre.edge_at(we3));
                                assert(g.no_delete@.contains(g.edge_at(we3).dst));
                            }
                        } else {
                            assert(to_device_inserted(*g, i, n0 as int));
                        }
                    }
                }
            } else {
                proof {
                    assert forall|j: int|
                        0 <= j < i + 1 && old(g).live(j) && crate::compile::is_function(
                            #[trigger] old(g).op_of(j),
                        ) implies crate::compile::all_outs_to_dev(*g, j) && to_device_inserted(
                        *g,
                        j as usize,
                        n0 as int,
                    ) by {
                        if j == i {
                            assert(g.nodes@[j] == old(g).nodes@[j]);
                            assert(false);
                        }
                    }
                }
            }
            i = i + 1;
        }
        // Copy every kept value that is not an input back from the device.
        let mut snapshot: Vec<usize> = Vec::new();
        let mut k: usize = 0;
        while k < g.no_delete.len()
            invariant
                0 <= k <= g.no_delete@.len(),
                snapshot@ == g.no_delete@.subrange(0, k as int),
            decreases g.no_delete@.len() - k,
        {
            snapshot.push(g.no_delete[k]);
            proof {
                assert(snapshot@ =~= g.no_delete@.subrange(0, k as int + 1));
            }
            k = k + 1;
        }
        let ghost g_half = *g;
        let ghost r_half = remap@;
        proof {
            assert(snapshot@ =~= g_half.no_delete@);
            assert forall|v: usize| #[trigger] snapshot@.contains(v) implies (v as int)
                < g_half.nodes@.len() by {
                assert(g_half.no_delete@.contains(v));
            }
        }
        let mut k: usize = 0;
        while k < snapshot.len()
            invariant
                0 <= k <= snapshot@.len(),
                g.wf(),
                g.nodes@.len() >= g_half.nodes@.len() >= n0,
                e0 <= g_half.edges@.len() <= g.edges@.len(),
                forall|j: int| 0 <= j < g_half.nodes@.len() ==> g.nodes@[j] == g_half.nodes@[j],
                forall|j: int| 0 <= j < n0 ==> g_half.nodes@[j] == old(g).nodes@[j],
                forall|j: int|
                    g_half.nodes@.len() <= j < g.nodes@.len() && g.nodes@[j] is Some ==> is_copy(
                        #[trigger] g.nodes@[j]->Some_0,
                    ),
                forall|j: int|
                    0 <= j < n0 && old(g).live(j) && crate::compile::is_function(
                        #[trigger] old(g).op_of(j),
                    ) ==> crate::compile::all_outs_to_dev(*g, j),
                forall|e: int|
                    0 <= e < g_half.edges@.len() ==> g.edges@[e] == g_half.edges@[e],
                forall|y: usize|
                    #[trigger] g.no_delete@.contains(y) ==> g_half.no_delete@.contains(y)
                        || g_half.nodes@.len() <= y < g.nodes@.len(),
                forall|y: usize|
                    g_half.no_delete@.contains(y) && 0 <= (y as int) < n0 && old(g).live(y as int)
                        && crate::compile::is_function(#[trigger] old(g).op_of(y as int))
                        ==> g.no_delete@.contains(y),
                forall|y: usize|
                    #[trigger] g.to_retrieve@.contains(y) ==> g_half.to_retrieve@.contains(y)
                        || g_half.nodes@.len() <= y < g.nodes@.len(),
                remap@.len() == r_half.len(),
                forall|j: int|
                    0 <= j < r_half.len() ==> remap@[j] == r_half[j] || g_half.nodes@.len()
                        <= remap@[j] < g.nodes@.len(),
                g.dyn_map == g_half.dyn_map,
                forall|v: usize| #[trigger] snapshot@.contains(v) ==> (v as int) < g_half.nodes@.len(),
                forall|j: int|
                    0 <= j < n0 && old(g).live(j) && crate::compile::is_function(
                        #[trigger] old(g).op_of(j),
                    ) ==> to_device_inserted(*g, j as usize, n0 as int),
                // every kept value in the snapshot is either still to be
                // visited or already owns its read-back copy
                forall|y: usize|
                    #[trigger] snapshot@.contains(y) && g_half.live(y as int) && !crate::compile::is_function(
                        g_half.op_of(y as int),
                    ) ==> (exists|k2: int| k <= k2 < snapshot@.len() && snapshot@[k2] == y)
                        || (copy_back_inserted(*g, remap@, r_half, y, g_half.nodes@.len() as int)
                        && !g.no_delete@.contains(y)),
                // until visited, a kept value holds its mark and its
                // external references; afterwards both sit on its copy
                forall|y: usize|
                    #[trigger] snapshot@.contains(y) && g_half.live(y as int) && !crate::compile::is_function(
                        g_half.op_of(y as int),
                    ) ==> (g.no_delete@.contains(y) && (forall|j: int|
                        0 <= j < r_half.len() && r_half[j] == y ==> remap@[j] == y)) || (
                    copy_back_inserted(*g, remap@, r_half, y, g_half.nodes@.len() as int)
                        && !g.no_delete@.contains(y)),
            decreases snapshot@.len() - k,
        {
            let n = snapshot[k];
            let keep = if n < g.nodes.len() {
                match &g.nodes[n] {
                    Some(op) => {
                        match op {
                            NodeOp::Prim(PrimKind::Function) => false,
                            _ => true,
                        }
                    },
                    None => false,
                }
            } else {
                false
            };
            proof {
                if snapshot@.contains(n) && g_half.live(n as int) && !crate::compile::is_function(
                    g_half.op_of(n as int),
                ) {
                    assert((n as int) < g_half.nodes@.len());
                    assert(g.nodes@[n as int] == g_half.nodes@[n as int]);
                    assert(g.live(n as int));
                }
            }
            if keep {
                let empty_dims: Vec<u64> = Vec::new();
                let ghost g_s = *g;
                let ghost r_s = remap@;
                let copy = g.add_node(NodeOp::CopyFromDevice);
                g.add_edge(
                    n,
                    copy,
                    Dependency::Data {
                        shape: ShapeTracker::new(&empty_dims),
                        input_order: 0,
                        output_order: 0,
                    },
                );
                graph_move_references(g, remap, n, copy);
                proof {
                    // the processed value now owns its read-back copy, and
                    // every other value's witness survives untouched
                    let we = g_s.edges@.len() as int;
                    assert(g.e_live(we) && g.edge_at(we).src == n && g.edge_at(we).dst == copy);
                    assert(g.op_of(copy as int) is CopyFromDevice);
                    assert(crate::compile::edge_to(*g, n as int, copy as int));
                    assert(copy == g_s.nodes@.len() && n0 <= g_half.nodes@.len()
                        <= g_s.nodes@.len());
                    let gl = g_half.nodes@.len() as int;
                    assert forall|y: usize|
                        #[trigger] snapshot@.contains(y) && g_half.live(y as int)
                            && !crate::compile::is_function(g_half.op_of(y as int)) implies ((
                    g.no_delete@.contains(y) && (forall|j: int|
                        0 <= j < r_half.len() && r_half[j] == y ==> remap@[j] == y)) || (
                    copy_back_inserted(*g, remap@, r_half, y, gl) && !g.no_delete@.contains(y)))
                        && ((exists|k2: int| k + 1 <= k2 < snapshot@.len() && snapshot@[k2] == y)
                        || (copy_back_inserted(*g, remap@, r_half, y, gl)
                        && !g.no_delete@.contains(y))) by {
                        if y == n {
                            if g_s.no_delete@.contains(n) {
                                // first visit: the move puts the mark and the
                                // external references onto the fresh copy
                                assert(g.no_delete@.contains(copy));
                                assert(!g.no_delete@.contains(n));
                                assert forall|j: int|
                                    0 <= j < r_half.len() && r_half[j] == n implies remap@[j]
                                        == copy by {
                                    assert(r_s[j] == n);
                                }
                                assert(gl <= copy < g.nodes@.len());
                                assert(copy_back_inserted(*g, remap@, r_half, n, gl));
                            } else {
                                // visited before: its read-back copy exists
                                assert(copy_back_inserted(g_s, r_s, r_half, n, gl));
                                let c0 = choose|c0: usize|
                                    (#[trigger] g_s.op_of(c0 as int)) is CopyFromDevice
                                        && g_s.live(c0 as int) && gl <= c0 < g_s.nodes@.len()
                                        && crate::compile::edge_to(g_s, n as int, c0 as int)
                                        && g_s.no_delete@.contains(c0) && (forall|j: int|
                                        0 <= j < r_half.len() && r_half[j] == n ==> r_s[j] == c0);
                                assert((n as int) < gl);
                                assert(c0 != n);
                                assert(g.live(c0 as int) && g.op_of(c0 as int)
                                    is CopyFromDevice);
                                assert(g.no_delete@.contains(c0));
                                let ew = choose|ew: int|
                                    g_s.e_live(ew) && (#[trigger] g_s.edge_at(ew)).src == n
                                        && g_s.edge_at(ew).dst == c0;
                                assert(g.edges@[ew] == g_s.edges@[ew]);
                                assert(g.e_live(ew) && g.edge_at(ew).src == n && g.edge_at(
                                    ew,
                                ).dst == c0);
                                assert(crate::compile::edge_to(*g, n as int, c0 as int));
                                assert forall|j: int|
                                    0 <= j < r_half.len() && r_half[j] == n implies remap@[j]
                                        == c0 by {
                                    assert(r_s[j] == c0);
                                    assert(c0 != n);
                                }
                                assert(copy_back_inserted(*g, remap@, r_half, n, gl));
                                assert(!g.no_delete@.contains(n));
                            }
                        } else {
                            assert((y as int) < gl);
                            if g_s.no_delete@.contains(y) {
                                assert(g.no_delete@.contains(y));
                                assert forall|j: int|
                                    0 <= j < r_half.len() && r_half[j] == y implies remap@[j]
                                        == y by {
                                    assert(r_s[j] == y);
                                    assert(y != n);
                                }
                                let k2 = choose|k2: int|
                                    k <= k2 < snapshot@.len() && snapshot@[k2] == y;
                                assert(k2 != k);
                            } else {
                                assert(copy_back_inserted(g_s, r_s, r_half, y, gl));
                                let c0 = choose|c0: usize|
                                    (#[trigger] g_s.op_of(c0 as int)) is CopyFromDevice
                                        && g_s.live(c0 as int) && gl <= c0 < g_s.nodes@.len()
                                        && crate::compile::edge_to(g_s, y as int, c0 as int)
                                        && g_s.no_delete@.contains(c0) && (forall|j: int|
                                        0 <= j < r_half.len() && r_half[j] == y ==> r_s[j] == c0);
                                assert(snapshot@[k as int] == n);
                                assert(snapshot@.contains(n));
                                assert((n as int) < gl);
                                assert(c0 != n);
                                assert(g.live(c0 as int) && g.op_of(c0 as int)
                                    is CopyFromDevice);
                                assert(g.no_delete@.contains(c0));
                                let ew = choose|ew: int|
                                    g_s.e_live(ew) && (#[trigger] g_s.edge_at(ew)).src == y
                                        && g_s.edge_at(ew).dst == c0;
                                assert(g.edges@[ew] == g_s.edges@[ew]);
                                assert(g.e_live(ew) && g.edge_at(ew).src == y && g.edge_at(
                                    ew,
                                ).dst == c0);
                                assert(crate::compile::edge_to(*g, y as int, c0 as int));
                                assert forall|j: int|
                                    0 <= j < r_half.len() && r_half[j] == y implies remap@[j]
                                        == c0 by {
                                    assert(r_s[j] == c0);
                                    assert(c0 != n);
                                }
                                assert(copy_back_inserted(*g, remap@, r_half, y, gl));
                                assert(!g.no_delete@.contains(y));
                            }
                        }
                    }
                    assert forall|j: int|
                        0 <= j < n0 && old(g).live(j) && crate::compile::is_function(
                            #[trigger] old(g).op_of(j),
                        ) implies to_device_inserted(*g, j as usize, n0 as int) by {
                        let ew = choose|ew: int|
                            #[trigger] g_s.e_live(ew) && g_s.edge_at(ew).src == j as usize && n0
                                <= g_s.edge_at(ew).dst as int && g_s.op_of(
                                g_s.edge_at(ew).dst as int,
                            ) is CopyToDevice;
                        assert(g.edges@[ew] == g_s.edges@[ew]);
                        assert(g.e_live(ew) && g.edge_at(ew) == g_s.edge_at(ew));
                        assert(g.op_of(g.edge_at(ew).dst as int) is CopyToDevice);
                    }
                    assert forall|y: usize|
                        g_half.no_delete@.contains(y) && 0 <= (y as int) < n0 && old(g).live(
                            y as int,
                        ) && crate::compile::is_function(#[trigger] old(g).op_of(y as int))
                            implies g.no_delete@.contains(y) by {
                        assert(g_s.no_delete@.contains(y));
                        assert((y as int) < n0);
                        assert(g_s.nodes@[y as int] == g_half.nodes@[y as int]);
                        assert(g_half.nodes@[y as int] == old(g).nodes@[y as int]);
                        assert(crate::compile::is_function(g_s.op_of(y as int)));
                        assert(!crate::compile::is_function(g_s.op_of(n as int)));
                        assert(y != n);
                    }
                    assert forall|j: int|
                        0 <= j < n0 && old(g).live(j) && crate::compile::is_function(
                            #[trigger] old(g).op_of(j),
                        ) implies crate::compile::all_outs_to_dev(*g, j) by {
                        assert(crate::compile::all_outs_to_dev(g_s, j));
                        assert forall|e2: int|
                            g.e_live(e2) && (#[trigger] g.edge_at(e2)).src == j implies g.op_of(
                            g.edge_at(e2).dst as int,
                        ) is CopyToDevice by {
                            if e2 == g_s.edges@.len() {
                                assert(g.edge_at(e2).src == n);
                                assert(!crate::compile::is_function(g_s.op_of(n as int)));
                                assert(g_s.nodes@[j] == g_half.nodes@[j]);
                                assert(g_half.nodes@[j] == old(g).nodes@[j]);
                                assert(n != j);
                                assert(false);
                            }
                            assert(g_s.e_live(e2) && g_s.edge_at(e2) == g.edge_at(e2));
                            assert(g.edge_at(e2).dst != copy);
                        }
                    }
                }
            }
            proof {
                assert(snapshot@[k as int] == n);
                assert forall|y: usize|
                    #[trigger] snapshot@.contains(y) && g_half.live(y as int)
                        && !crate::compile::is_function(g_half.op_of(y as int)) implies (exists|
                    k2: int|
                    k + 1 <= k2 < snapshot@.len() && snapshot@[k2] == y) || (copy_back_inserted(
                    *g,
                    remap@,
                    r_half,
                    y,
                    g_half.nodes@.len() as int,
                ) && !g.no_delete@.contains(y)) by {
                    if !(copy_back_inserted(*g, remap@, r_half, y, g_half.nodes@.len() as int)
                        && !g.no_delete@.contains(y)) {
                        let k2 = choose|k2: int|
                            k <= k2 < snapshot@.len() && snapshot@[k2] == y;
                        if k2 == k {
                            assert(y == n);
                            assert(false);
                        }
                    }
                }
            }
            k = k + 1;
        }
        // Swap the unary primitives for their device operators.
        let ghost g_mid2 = *g;
        let n2 = g.nodes.len();
        let mut i: usize = 0;
        while i < n2
            invariant
                0 <= i <= n2 == g_mid2.nodes@.len(),
                g.wf(),
                g.nodes@.len() == n2,
                g.edges@ == g_mid2.edges@,
                g.no_delete@ == g_mid2.no_delete@,
                g.to_retrieve@ == g_mid2.to_retrieve@,
                g.dyn_map == g_mid2.dyn_map,
                forall|j: int|
                    0 <= j < i ==> (if g_mid2.live(j) {
                        g.live(j) && unary_sub_ok(g_mid2.op_of(j), #[trigger] g.op_of(j))
                    } else {
                        g.nodes@[j] is None
                    }),
                forall|j: int| i <= j < n2 ==> g.nodes@[j] == g_mid2.nodes@[j],
                forall|j: int|
                    0 <= j < i && g_mid2.live(j) && g_mid2.op_of(j) is CopyToDevice
                        ==> #[trigger] g.op_of(j) is CopyToDevice,
                forall|j: int|
                    0 <= j < i && g_mid2.live(j) && g_mid2.op_of(j) is CopyFromDevice
                        ==> #[trigger] g.op_of(j) is CopyFromDevice,
            decreases n2 - i,
        {
            let ghost g_entry = *g;
            let replacement: Option<NodeOp> = match &g.nodes[i] {
                Some(NodeOp::Prim(PrimKind::Log2)) => Some(
                    NodeOp::Log2(CudaLog2::new(ElemKind::F32)),
                ),
                Some(NodeOp::Prim(PrimKind::Exp2)) => Some(
                    NodeOp::Exp2(CudaExp2::new(ElemKind::F32)),
                ),
                Some(NodeOp::Prim(PrimKind::Sin)) => Some(
                    NodeOp::Sin(CudaSin::new(ElemKind::F32)),
                ),
                Some(NodeOp::Prim(PrimKind::Sqrt)) => Some(
                    NodeOp::Sqrt(CudaSqrt::new(ElemKind::F32)),
                ),
                Some(NodeOp::Prim(PrimKind::Recip)) => Some(
                    NodeOp::Recip(CudaRecip::new(ElemKind::F32)),
                ),
                _ => None,
            };
            match replacement {
                Some(op) => {
                    g.set_node_op(i, op);
                },
                None => {},
            }
            proof {
                assert forall|j: int|
                    0 <= j < i + 1 implies (if g_mid2.live(j) {
                    g.live(j) && unary_sub_ok(g_mid2.op_of(j), #[trigger] g.op_of(j))
                } else {
                    g.nodes@[j] is None
                }) by {
                    if j < i {
                        assert(g.nodes@[j] == g_entry.nodes@[j]);
                        if g_mid2.live(j) {
                            assert(g_entry.live(j) && unary_sub_ok(
                                g_mid2.op_of(j),
                                g_entry.op_of(j),
                            ));
                            assert(g.op_of(j) == g_entry.op_of(j));
                        }
                    }
                }
            }
            i = i + 1;
        }
        proof {
            assert forall|i2: int|
                0 <= i2 < old(g).nodes@.len() implies (if old(g).live(i2) {
                g.live(i2) && unary_sub_ok(old(g).op_of(i2), #[trigger] g.op_of(i2))
            } else {
                g.nodes@[i2] is None
            }) by {
                assert(g_half.nodes@[i2] == old(g).nodes@[i2]);
                assert(g_mid2.nodes@[i2] == g_half.nodes@[i2]);
            }
            assert forall|j: int|
                old(g).nodes@.len() <= j < g.nodes@.len() && g.nodes@[j] is Some implies is_copy(
                #[trigger] g.nodes@[j]->Some_0,
            ) by {
                assert(g_mid2.live(j));
                assert(unary_sub_ok(g_mid2.op_of(j), g.op_of(j)));
                if j < g_half.nodes@.len() {
                    assert(is_copy(g_half.nodes@[j]->Some_0));
                    assert(g_mid2.nodes@[j] == g_half.nodes@[j]);
                } else {
                    assert(is_copy(g_mid2.nodes@[j]->Some_0));
                }
            }
            assert forall|y: usize|
                old(g).no_delete@.contains(y) && old(g).live(y as int)
                    && crate::compile::is_function(old(g).op_of(y as int)) implies
            g.no_delete@.contains(y) by {
                assert(g_half.no_delete@.contains(y));
                assert((y as int) < n0);
                assert(g_mid2.no_delete@.contains(y));
            }
            // the functions' device routing survives the payload swap
            assert forall|i2: int|
                0 <= i2 < old(g).nodes@.len() && old(g).live(i2) && crate::compile::is_function(
                    #[trigger] old(g).op_of(i2),
                ) implies crate::compile::all_outs_to_dev(*g, i2) by {
                assert(crate::compile::all_outs_to_dev(g_mid2, i2));
                assert forall|e2: int|
                    g.e_live(e2) && (#[trigger] g.edge_at(e2)).src == i2 implies g.op_of(
                    g.edge_at(e2).dst as int,
                ) is CopyToDevice by {
                    assert(g_mid2.e_live(e2) && g_mid2.edge_at(e2) == g.edge_at(e2));
                    let d = g_mid2.edge_at(e2).dst as int;
                    assert(g_mid2.op_of(d) is CopyToDevice);
                    assert(g_mid2.live(d));
                    assert(unary_sub_ok(g_mid2.op_of(d), g.op_of(d)));
                    assert(g.op_of(d) == g_mid2.op_of(d));
                }
            }
            // the inserted device routing survives the payload swap
            assert forall|y: usize|
                (y as int) < old(g).nodes@.len() && old(g).live(y as int)
                    && crate::compile::is_function(#[trigger] old(g).op_of(y as int)) implies
            to_device_inserted(*g, y, old(g).nodes@.len() as int) by {
                assert(to_device_inserted(g_mid2, y, n0 as int));
                let ew = choose|e: int|
                    #[trigger] g_mid2.e_live(e) && g_mid2.edge_at(e).src == y && n0
                        <= g_mid2.edge_at(e).dst as int && g_mid2.op_of(
                        g_mid2.edge_at(e).dst as int,
                    ) is CopyToDevice;
                assert(g.e_live(ew) && g.edge_at(ew) == g_mid2.edge_at(ew));
                let d = g_mid2.edge_at(ew).dst as int;
                assert(g_mid2.live(d));
                assert(unary_sub_ok(g_mid2.op_of(d), g.op_of(d)));
                assert(g.op_of(d) is CopyToDevice);
            }
            assert forall|y: usize|
                #[trigger] old(g).no_delete@.contains(y) && old(g).live(y as int)
                    && !crate::compile::is_function(old(g).op_of(y as int)) implies
            copy_back_inserted(*g, remap@, old(remap)@, y, old(g).nodes@.len() as int)
                && !g.no_delete@.contains(y) by {
                let gl = g_half.nodes@.len() as int;
                assert(g_half.no_delete@.contains(y));
                assert(snapshot@.contains(y));
                assert((y as int) < n0);
                assert(g_half.nodes@[y as int] == old(g).nodes@[y as int]);
                assert(g_half.live(y as int));
                assert(!crate::compile::is_function(g_half.op_of(y as int)));
                assert(!(exists|k2: int|
                    snapshot@.len() <= k2 < snapshot@.len() && snapshot@[k2] == y));
                assert(copy_back_inserted(g_mid2, remap@, r_half, y, gl));
                assert(!g_mid2.no_delete@.contains(y));
                assert(r_half == old(remap)@);
                let c0 = choose|c0: usize|
                    (#[trigger] g_mid2.op_of(c0 as int)) is CopyFromDevice && g_mid2.live(
                        c0 as int,
                    ) && gl <= c0 < g_mid2.nodes@.len() && crate::compile::edge_to(
                        g_mid2,
                        y as int,
                        c0 as int,
                    ) && g_mid2.no_delete@.contains(c0) && (forall|j: int|
                        0 <= j < r_half.len() && r_half[j] == y ==> remap@[j] == c0);
                assert(g_mid2.live(c0 as int));
                assert(unary_sub_ok(g_mid2.op_of(c0 as int), g.op_of(c0 as int)));
                assert(g.op_of(c0 as int) is CopyFromDevice);
                assert(g.live(c0 as int));
                let ew = choose|ew: int|
                    g_mid2.e_live(ew) && (#[trigger] g_mid2.edge_at(ew)).src == y
                        && g_mid2.edge_at(ew).dst == c0;
                assert(g.e_live(ew) && g.edge_at(ew) == g_mid2.edge_at(ew));
                assert(crate::compile::edge_to(*g, y as int, c0 as int));
                assert((n0 as int) <= gl <= c0);
                assert(copy_back_inserted(*g, remap@, old(remap)@, y, n0 as int));
            }
            // edge and bookkeeping frames compose across the three sweeps
            assert forall|e: int|
                0 <= e < old(g).edges@.len() implies #[trigger] g.e_live(e) == old(g).e_live(e) && (
            old(g).e_live(e) ==> g.edge_at(e).dst == old(g).edge_at(e).dst && g.edge_at(e).dep
                == old(g).edge_at(e).dep && (g.edge_at(e).src == old(g).edge_at(e).src || old(
                g,
            ).nodes@.len() <= g.edge_at(e).src)) by {
                assert(e < e0 <= g_half.edges@.len());
                assert(g.edges@[e] == g_mid2.edges@[e]);
                assert(g_mid2.edges@[e] == g_half.edges@[e]);
                assert(g.e_live(e) == g_half.e_live(e));
                assert(g_half.e_live(e) == old(g).e_live(e));
            }
        }
    }
}

} // verus!