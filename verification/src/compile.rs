//! The graph-rewriting compiler passes: the primitive substitution pass,
//! which lowers every abstract primitive to its device operator and inserts
//! the host/device boundary copies, and the copy-fusion pass, which
//! eliminates the adjacent inverse copy pairs the insertion leaves behind,
//! rewiring every consumer of a fused pair to the pair's data source.

use crate::graph::{graph_move_references, Dependency, Edge, Graph, NodeOp, PrimKind};
use crate::prim::{
    CudaAdd, CudaConstant, CudaContiguous, CudaExp2, CudaLessThan, CudaLog2, CudaMaxReduce,
    CudaMod, CudaMul, CudaRecip, CudaSin, CudaSqrt, CudaSumReduce, ElemKind,
};
use crate::shape::{Axis, ShapeTracker};
use vstd::prelude::*;

verus! {

/// A host/device boundary copy.
pub open spec fn is_copy(op: NodeOp) -> bool {
    op is CopyToDevice || op is CopyFromDevice
}

/// Two copies of complementary directions.
pub open spec fn inverse_pair(a: NodeOp, b: NodeOp) -> bool {
    (a is CopyToDevice && b is CopyFromDevice) || (a is CopyFromDevice && b is CopyToDevice)
}

/// Edge `e` joins two copies of complementary directions.
pub open spec fn fusible(g: Graph, e: int) -> bool {
    g.e_live(e) && inverse_pair(
        g.op_of(g.edge_at(e).src as int),
        g.op_of(g.edge_at(e).dst as int),
    )
}

/// Some live edge leaves `a` for a non-copy consumer.
pub open spec fn out_to_non_copy(g: Graph, a: int) -> bool {
    exists|e: int|
        g.e_live(e) && (#[trigger] g.edge_at(e)).src == a && !is_copy(
            g.op_of(g.edge_at(e).dst as int),
        )
}

/// Some live edge runs from `x` to `y`.
pub open spec fn edge_to(g: Graph, x: int, y: int) -> bool {
    exists|e: int| g.e_live(e) && (#[trigger] g.edge_at(e)).src == x && g.edge_at(e).dst == y
}

/// The lowest-numbered live data edge into `i`, scanning from slot `e`.
pub open spec fn first_data_in_from(g: Graph, i: int, e: int) -> Option<int>
    decreases g.edges@.len() - e,
{
    if e < 0 || e >= g.edges@.len() {
        None
    } else if g.e_live(e) && g.edge_at(e).dst == i && g.edge_at(e).dep is Data {
        Some(e)
    } else {
        first_data_in_from(g, i, e + 1)
    }
}

pub open spec fn first_data_in(g: Graph, i: int) -> Option<int> {
    first_data_in_from(g, i, 0)
}

pub proof fn lemma_first_data_in_props(g: Graph, i: int, e: int)
    requires
        0 <= e,
        first_data_in_from(g, i, e) is Some,
    ensures
        ({
            let de = first_data_in_from(g, i, e)->Some_0;
            g.e_live(de) && g.edge_at(de).dst == i && g.edge_at(de).dep is Data && e <= de
        }),
    decreases g.edges@.len() - e,
{
    if e >= g.edges@.len() {
    } else if g.e_live(e) && g.edge_at(e).dst == i && g.edge_at(e).dep is Data {
    } else {
        lemma_first_data_in_props(g, i, e + 1);
    }
}

/// Edge slot `e` carries data into node `i`.
pub open spec fn data_into(g: Graph, e: int, i: int) -> bool {
    g.e_live(e) && g.edge_at(e).dst == i && g.edge_at(e).dep is Data
}

/// The first data edge into `i` is found at the same slot in two graphs
/// whose slots agree on which carry data into `i`.
pub proof fn lemma_first_data_in_frame(g1: Graph, g2: Graph, i: int, e: int)
    requires
        0 <= e,
        forall|e2: int|
            e <= e2 ==> (#[trigger] data_into(g2, e2, i) <==> data_into(g1, e2, i)),
    ensures
        first_data_in_from(g2, i, e) == first_data_in_from(g1, i, e),
    decreases (if g1.edges@.len() > g2.edges@.len() {
        g1.edges@.len()
    } else {
        g2.edges@.len()
    }) - e,
{
    let both_longer = e < g1.edges@.len() || e < g2.edges@.len();
    if !both_longer {
    } else {
        assert(data_into(g2, e, i) <==> data_into(g1, e, i));
        if data_into(g1, e, i) {
        } else {
            lemma_first_data_in_frame(g1, g2, i, e + 1);
            if e >= g1.edges@.len() {
                assert(first_data_in_from(g1, i, e) is None);
                assert(first_data_in_from(g1, i, e + 1) is None);
            }
            if e >= g2.edges@.len() {
                assert(first_data_in_from(g2, i, e) is None);
                assert(first_data_in_from(g2, i, e + 1) is None);
            }
        }
    }
}

/// Every node a pass added is reached by a data edge.
pub open spec fn inserted_have_inputs(g0: Graph, g: Graph) -> bool {
    forall|j: int|
        g0.nodes@.len() <= j < g.nodes@.len() && #[trigger] g.live(j) ==> exists|e: int|
            data_into(g, e, j)
}

/// A data edge into an added node survives any step that keeps slot
/// liveness, consumers and the data kind of each dependency.
pub proof fn lemma_inserted_inputs_frame(g0: Graph, ga: Graph, gb: Graph)
    requires
        inserted_have_inputs(g0, ga),
        g0.nodes@.len() <= ga.nodes@.len() <= gb.nodes@.len(),
        forall|j: int|
            g0.nodes@.len() <= j < ga.nodes@.len() && #[trigger] gb.live(j) ==> ga.live(j),
        ga.edges@.len() <= gb.edges@.len(),
        forall|e: int|
            0 <= e < ga.edges@.len() ==> (#[trigger] gb.e_live(e) == ga.e_live(e)) && (ga.e_live(e)
                ==> gb.edge_at(e).dst == ga.edge_at(e).dst && (gb.edge_at(e).dep is Data
                <==> ga.edge_at(e).dep is Data)),
        forall|j: int|
            ga.nodes@.len() <= j < gb.nodes@.len() && #[trigger] gb.live(j) ==> exists|e: int|
                data_into(gb, e, j),
    ensures
        inserted_have_inputs(g0, gb),
{
    assert forall|j: int|
        g0.nodes@.len() <= j < gb.nodes@.len() && #[trigger] gb.live(j) implies exists|e: int|
            data_into(gb, e, j) by {
        if j < ga.nodes@.len() {
            assert(ga.live(j));
            let e = choose|e: int| data_into(ga, e, j);
            assert(gb.e_live(e) && gb.edge_at(e).dst == ga.edge_at(e).dst);
            assert(data_into(gb, e, j));
        }
    }
}

/// Why a fusible edge `(a, b)` must be left alone: a consumer of `a` other
/// than a complementary copy, or the keep-alive mark on `a`. The last two
/// reasons go beyond those: a copy with no data source to rewire to, and a
/// degenerate cycle in which the source is itself one of the nodes the
/// fusion would remove or a target of their consumers. Neither arises on a
/// graph the substitution pass produced (its copies are fed by an acyclic
/// data edge), where the boundary insertion always leaves a source; they
/// only pin pairs on which the rewiring itself would be meaningless.
pub open spec fn fusion_blocked(g: Graph, e: int) -> bool {
    let a = g.edge_at(e).src as int;
    let b = g.edge_at(e).dst as int;
    ||| g.no_delete@.contains(g.edge_at(e).src)
    ||| out_to_non_copy(g, a)
    ||| first_data_in(g, a) is None
    ||| {
        let s = g.edge_at(first_data_in(g, a)->Some_0).src as int;
        ||| s == b
        ||| edge_to(g, a, s)
        ||| edge_to(g, b, s)
        ||| exists|d: int| #[trigger] edge_to(g, a, d) && edge_to(g, d, s)
    }
}

/// Every producer feeding `y` is something other than a copy.
pub open spec fn non_copy_fed(g: Graph, y: usize) -> bool {
    forall|e2: int|
        g.e_live(e2) && (#[trigger] g.edge_at(e2)).dst == y ==> !is_copy(
            g.op_of(g.edge_at(e2).src as int),
        )
}

/// A keep-alive mark on a node no copy feeds keeps the fusion pass away
/// from the node entirely.
pub open spec fn fusion_protected(g: Graph, y: usize) -> bool {
    g.no_delete@.contains(y) && g.live(y as int) && non_copy_fed(g, y)
}

/// The fusion pass's running frame against its input graph: payloads and
/// slots survive except deleted copies, and a producer changes only from a
/// copy the pass deleted.
pub open spec fn fusion_frame(gz: Graph, g: Graph) -> bool {
    &&& g.nodes@.len() == gz.nodes@.len()
    &&& forall|j: int|
        0 <= j < gz.nodes@.len() ==> g.nodes@[j] == gz.nodes@[j] || (#[trigger] g.nodes@[j]
            is None && gz.live(j) && is_copy(gz.op_of(j)))
    &&& g.edges@.len() == gz.edges@.len()
    &&& forall|e: int|
        #[trigger] g.e_live(e) ==> gz.e_live(e) && g.edge_at(e).dst == gz.edge_at(e).dst
            && g.edge_at(e).dep == gz.edge_at(e).dep && (g.edge_at(e).src == gz.edge_at(e).src || (
        gz.live(gz.edge_at(e).src as int) && is_copy(gz.op_of(gz.edge_at(e).src as int))
            && !g.live(gz.edge_at(e).src as int)))
}

/// A node that a live copy feeds mid-pass was already copy-fed in the
/// pass's input graph.
pub proof fn lemma_copy_fed_unprotected(gz: Graph, g: Graph, we: int)
    requires
        g.wf(),
        fusion_frame(gz, g),
        g.e_live(we),
        g.live(g.edge_at(we).src as int),
        is_copy(g.op_of(g.edge_at(we).src as int)),
    ensures
        !non_copy_fed(gz, g.edge_at(we).dst),
{
    assert(gz.e_live(we) && gz.edge_at(we).dst == g.edge_at(we).dst);
    let s = g.edge_at(we).src as int;
    let sz = gz.edge_at(we).src as int;
    if s == sz {
        assert(g.nodes@[s] == gz.nodes@[s]);
        assert(is_copy(gz.op_of(sz)));
    } else {
        assert(is_copy(gz.op_of(sz)));
    }
}

/// The fusion frame composes across two runs of deletions.
pub proof fn lemma_fusion_frame_trans(gz: Graph, ga: Graph, gb: Graph)
    requires
        fusion_frame(gz, ga),
        fusion_frame(ga, gb),
    ensures
        fusion_frame(gz, gb),
{
    assert forall|e: int|
        #[trigger] gb.e_live(e) implies gz.e_live(e) && gb.edge_at(e).dst == gz.edge_at(e).dst
            && gb.edge_at(e).dep == gz.edge_at(e).dep && (gb.edge_at(e).src == gz.edge_at(e).src
            || (gz.live(gz.edge_at(e).src as int) && is_copy(gz.op_of(gz.edge_at(e).src as int))
            && !gb.live(gz.edge_at(e).src as int))) by {
        assert(ga.e_live(e));
        let sz = gz.edge_at(e).src as int;
        let sa = ga.edge_at(e).src as int;
        if gb.edge_at(e).src == ga.edge_at(e).src {
            if sa != sz {
                assert(gz.live(sz) && is_copy(gz.op_of(sz)) && !ga.live(sz));
                if gb.live(sz) {
                    assert(gb.nodes@[sz] == ga.nodes@[sz] || gb.nodes@[sz] is None);
                    assert(false);
                }
            }
        } else {
            assert(ga.live(sa) && is_copy(ga.op_of(sa)) && !gb.live(sa));
            if sa == sz {
                assert(ga.nodes@[sa] == gz.nodes@[sa]);
                assert(gz.live(sz) && is_copy(gz.op_of(sz)));
            } else {
                assert(gz.live(sz) && is_copy(gz.op_of(sz)) && !ga.live(sz));
                if gb.live(sz) {
                    assert(gb.nodes@[sz] == ga.nodes@[sz] || gb.nodes@[sz] is None);
                    assert(false);
                }
            }
        }
    }
    assert forall|j: int|
        0 <= j < gz.nodes@.len() implies gb.nodes@[j] == gz.nodes@[j] || (#[trigger] gb.nodes@[j]
            is None && gz.live(j) && is_copy(gz.op_of(j))) by {
        if gb.nodes@[j] != ga.nodes@[j] {
            assert(gb.nodes@[j] is None && ga.live(j) && is_copy(ga.op_of(j)));
            assert(ga.nodes@[j] == gz.nodes@[j]);
        }
    }
}

/// Walking back from `c` along edges of the pass's input graph, through
/// copies the pass has deleted (or the one copy `pending` that the current
/// fusion is still to delete), the data source `s` is reached.
pub open spec fn chain_from(
    gz: Graph,
    g: Graph,
    pending: usize,
    s: usize,
    c: usize,
    fuel: nat,
) -> bool
    decreases fuel,
{
    exists|e1: int|
        #[trigger] gz.e_live(e1) && gz.edge_at(e1).dst == c && (gz.edge_at(e1).src == s || (fuel
            > 0 && gz.live(gz.edge_at(e1).src as int) && is_copy(
            gz.op_of(gz.edge_at(e1).src as int),
        ) && (!g.live(gz.edge_at(e1).src as int) || gz.edge_at(e1).src == pending) && chain_from(
            gz,
            g,
            pending,
            s,
            gz.edge_at(e1).src,
            (fuel - 1) as nat,
        )))
}

/// A chain survives a step in which liveness only shrinks, the pending
/// copy dies or stays pending, and the fuel does not drop.
pub proof fn lemma_chain_step(
    gz: Graph,
    ga: Graph,
    gb: Graph,
    p: usize,
    q: usize,
    s: usize,
    c: usize,
    fuel: nat,
    fuel2: nat,
)
    requires
        chain_from(gz, ga, p, s, c, fuel),
        forall|j: int| #[trigger] gb.live(j) ==> ga.live(j),
        !gb.live(p as int) || p == q,
        fuel <= fuel2,
    ensures
        chain_from(gz, gb, q, s, c, fuel2),
    decreases fuel,
{
    let e1 = choose|e1: int|
        #[trigger] gz.e_live(e1) && gz.edge_at(e1).dst == c && (gz.edge_at(e1).src == s || (fuel
            > 0 && gz.live(gz.edge_at(e1).src as int) && is_copy(
            gz.op_of(gz.edge_at(e1).src as int),
        ) && (!ga.live(gz.edge_at(e1).src as int) || gz.edge_at(e1).src == p) && chain_from(
            gz,
            ga,
            p,
            s,
            gz.edge_at(e1).src,
            (fuel - 1) as nat,
        )));
    let m = gz.edge_at(e1).src;
    if m == s {
    } else {
        if !ga.live(m as int) {
            assert(!gb.live(m as int));
        } else {
            assert(m == p);
            assert(!gb.live(m as int) || m == q);
        }
        lemma_chain_step(gz, ga, gb, p, q, s, m, (fuel - 1) as nat, (fuel2 - 1) as nat);
    }
}

/// Chains concatenate across an intermediate deleted (or pending) copy.
pub proof fn lemma_chain_concat(
    gz: Graph,
    g: Graph,
    p: usize,
    s: usize,
    m: usize,
    c: usize,
    f1: nat,
    f2: nat,
)
    requires
        chain_from(gz, g, p, s, m, f1),
        chain_from(gz, g, p, m, c, f2),
        gz.live(m as int),
        is_copy(gz.op_of(m as int)),
        !g.live(m as int) || m == p,
    ensures
        chain_from(gz, g, p, s, c, (f1 + f2 + 1) as nat),
    decreases f2,
{
    let e1 = choose|e1: int|
        #[trigger] gz.e_live(e1) && gz.edge_at(e1).dst == c && (gz.edge_at(e1).src == m || (f2 > 0
            && gz.live(gz.edge_at(e1).src as int) && is_copy(gz.op_of(gz.edge_at(e1).src as int))
            && (!g.live(gz.edge_at(e1).src as int) || gz.edge_at(e1).src == p) && chain_from(
            gz,
            g,
            p,
            m,
            gz.edge_at(e1).src,
            (f2 - 1) as nat,
        )));
    let m2 = gz.edge_at(e1).src;
    if m2 == m {
        lemma_chain_step(gz, g, g, p, p, s, m, f1, (f1 + f2) as nat);
        assert(chain_from(gz, g, p, s, c, (f1 + f2 + 1) as nat));
    } else {
        lemma_chain_concat(gz, g, p, s, m, m2, f1, (f2 - 1) as nat);
        assert(chain_from(gz, g, p, s, m2, (f1 + f2) as nat));
        assert(chain_from(gz, g, p, s, c, (f1 + f2 + 1) as nat));
    }
}

/// Number of live nodes.
pub open spec fn live_count(nodes: Seq<Option<NodeOp>>) -> nat
    decreases nodes.len(),
{
    if nodes.len() == 0 {
        0
    } else {
        live_count(nodes.drop_last()) + if nodes.last() is Some {
            1nat
        } else {
            0nat
        }
    }
}

pub proof fn lemma_live_count_remove(nodes: Seq<Option<NodeOp>>, i: int)
    requires
        0 <= i < nodes.len(),
        nodes[i] is Some,
    ensures
        live_count(nodes.update(i, None)) < live_count(nodes),
    decreases nodes.len(),
{
    if i == nodes.len() - 1 {
        assert(nodes.update(i, None).drop_last() =~= nodes.drop_last());
    } else {
        assert(nodes.update(i, None).drop_last() =~= nodes.drop_last().update(i, None));
        lemma_live_count_remove(nodes.drop_last(), i);
    }
}

pub proof fn lemma_live_count_frame(a: Seq<Option<NodeOp>>, b: Seq<Option<NodeOp>>)
    requires
        a.len() == b.len(),
        forall|i: int| 0 <= i < a.len() ==> (a[i] is Some <==> b[i] is Some),
    ensures
        live_count(a) == live_count(b),
    decreases a.len(),
{
    if a.len() > 0 {
        assert(forall|i: int|
            0 <= i < a.drop_last().len() ==> (a.drop_last()[i] is Some <==> b.drop_last()[i]
                is Some));
        lemma_live_count_frame(a.drop_last(), b.drop_last());
    }
}

fn op_is_copy(op: &NodeOp) -> (r: bool)
    ensures
        r == is_copy(*op),
{
    match op {
        NodeOp::CopyToDevice => true,
        NodeOp::CopyFromDevice => true,
        _ => false,
    }
}

fn ops_inverse(a: &NodeOp, b: &NodeOp) -> (r: bool)
    ensures
        r == inverse_pair(*a, *b),
{
    match (a, b) {
        (NodeOp::CopyToDevice, NodeOp::CopyFromDevice) => true,
        (NodeOp::CopyFromDevice, NodeOp::CopyToDevice) => true,
        _ => false,
    }
}

/// Whether any live edge leaves `a` for a non-copy node.
fn has_out_to_non_copy(g: &Graph, a: usize) -> (r: bool)
    requires
        g.wf(),
    ensures
        r == out_to_non_copy(*g, a as int),
{
    let n = g.edges.len();
    let mut e: usize = 0;
    while e < n
        invariant
            0 <= e <= n == g.edges@.len(),
            g.wf(),
            forall|e2: int|
                0 <= e2 < e ==> !(g.e_live(e2) && (#[trigger] g.edge_at(e2)).src == a && !is_copy(
                    g.op_of(g.edge_at(e2).dst as int),
                )),
        decreases n - e,
    {
        match &g.edges[e] {
            Some(edge) => {
                if edge.src == a {
                    let dst_op = match &g.nodes[edge.dst] {
                        Some(op) => op,
                        None => {
                            proof {
                                assert(g.e_live(e as int));
                                assert(false);
                            }
                            return false;
                        },
                    };
                    if !op_is_copy(dst_op) {
                        proof {
                            assert(g.e_live(e as int) && g.edge_at(e as int).src == a && !is_copy(
                                g.op_of(g.edge_at(e as int).dst as int),
                            ));
                        }
                        return true;
                    }
                }
            },
            None => {},
        }
        e = e + 1;
    }
    false
}

/// Whether any live edge runs from `x` to `y`.
fn has_edge_to(g: &Graph, x: usize, y: usize) -> (r: bool)
    ensures
        r == edge_to(*g, x as int, y as int),
{
    let n = g.edges.len();
    let mut e: usize = 0;
    while e < n
        invariant
            0 <= e <= n == g.edges@.len(),
            forall|e2: int|
                0 <= e2 < e ==> !(g.e_live(e2) && (#[trigger] g.edge_at(e2)).src == x && g.edge_at(
                    e2,
                ).dst == y),
        decreases n - e,
    {
        match &g.edges[e] {
            Some(edge) => {
                if edge.src == x && edge.dst == y {
                    proof {
                        assert(g.e_live(e as int) && g.edge_at(e as int).src == x && g.edge_at(
                            e as int,
                        ).dst == y);
                    }
                    return true;
                }
            },
            None => {},
        }
        e = e + 1;
    }
    false
}

/// Whether some consumer `d` of `a` has an edge to `s`.
fn consumer_reaches(g: &Graph, a: usize, s: usize) -> (r: bool)
    ensures
        r == exists|d: int| #[trigger] edge_to(*g, a as int, d) && edge_to(*g, d, s as int),
{
    let n = g.edges.len();
    let mut e: usize = 0;
    while e < n
        invariant
            0 <= e <= n == g.edges@.len(),
            forall|e2: int|
                0 <= e2 < e ==> !(g.e_live(e2) && (#[trigger] g.edge_at(e2)).src == a && edge_to(
                    *g,
                    g.edge_at(e2).dst as int,
                    s as int,
                )),
        decreases n - e,
    {
        match &g.edges[e] {
            Some(edge) => {
                if edge.src == a {
                    let d = edge.dst;
                    if has_edge_to(g, d, s) {
                        proof {
                            assert(g.e_live(e as int) && g.edge_at(e as int).src == a && g.edge_at(
                                e as int,
                            ).dst == d);
                            assert(edge_to(*g, a as int, d as int));
                        }
                        return true;
                    }
                }
            },
            None => {},
        }
        e = e + 1;
    }
    proof {
        if exists|d: int| #[trigger] edge_to(*g, a as int, d) && edge_to(*g, d, s as int) {
            let d = choose|d: int| #[trigger] edge_to(*g, a as int, d) && edge_to(*g, d, s as int);
            let e2 = choose|e2: int|
                g.e_live(e2) && (#[trigger] g.edge_at(e2)).src == a && g.edge_at(e2).dst == d;
            assert(false);
        }
    }
    false
}

/// The lowest-numbered live data edge into `i`.
fn find_first_data_in(g: &Graph, i: usize) -> (r: Option<usize>)
    ensures
        match r {
            Some(e) => first_data_in(*g, i as int) == Some(e as int),
            None => first_data_in(*g, i as int) is None,
        },
{
    let n = g.edges.len();
    let mut e: usize = 0;
    while e < n
        invariant
            0 <= e <= n == g.edges@.len(),
            first_data_in_from(*g, i as int, e as int) == first_data_in(*g, i as int),
        decreases n - e,
    {
        match &g.edges[e] {
            Some(edge) => {
                if edge.dst == i {
                    let is_data = match &edge.dep {
                        Dependency::Data { .. } => true,
                        Dependency::Schedule => false,
                    };
                    if is_data {
                        return Some(e);
                    }
                }
            },
            None => {},
        }
        e = e + 1;
    }
    None
}

/// A fusible, unblocked edge, with the nodes the fusion works on: the edge,
/// the pair `(first, second)`, and `first`'s data source.
fn find_fusible(g: &Graph) -> (r: Option<(usize, usize, usize, usize)>)
    requires
        g.wf(),
    ensures
        match r {
            Some(f) => {
                &&& fusible(*g, f.0 as int)
                &&& g.edge_at(f.0 as int).src == f.1
                &&& g.edge_at(f.0 as int).dst == f.2
                &&& !g.no_delete@.contains(f.1)
                &&& !out_to_non_copy(*g, f.1 as int)
                &&& first_data_in(*g, f.1 as int) matches Some(de) && g.edge_at(de).src == f.3
                &&& f.3 != f.2
                &&& !edge_to(*g, f.1 as int, f.3 as int)
                &&& !edge_to(*g, f.2 as int, f.3 as int)
                &&& !(exists|d: int|
                    #[trigger] edge_to(*g, f.1 as int, d) && edge_to(*g, d, f.3 as int))
                &&& g.live(f.3 as int)
                &&& f.3 != f.1
            },
            None => forall|e: int| fusible(*g, e) ==> fusion_blocked(*g, e),
        },
{
    let n = g.edges.len();
    let mut e: usize = 0;
    while e < n
        invariant
            0 <= e <= n == g.edges@.len(),
            g.wf(),
            forall|e2: int| 0 <= e2 < e && #[trigger] fusible(*g, e2) ==> fusion_blocked(*g, e2),
        decreases n - e,
    {
        proof {
            if g.e_live(e as int) {
                assert(g.live(g.edge_at(e as int).src as int) && g.live(
                    g.edge_at(e as int).dst as int,
                ));
            }
        }
        let (a, b, live_pair) = match &g.edges[e] {
            Some(edge) => {
                let pair_ok = match (&g.nodes[edge.src], &g.nodes[edge.dst]) {
                    (Some(sa), Some(sb)) => ops_inverse(sa, sb),
                    _ => false,
                };
                (edge.src, edge.dst, pair_ok)
            },
            None => (0usize, 0usize, false),
        };
        if live_pair {
            proof {
                assert(fusible(*g, e as int));
            }
            if !crate::graph::ids_contain(&g.no_delete, a) && !has_out_to_non_copy(g, a) {
                match find_first_data_in(g, a) {
                    Some(de) => {
                        proof {
                            lemma_first_data_in_props(*g, a as int, 0);
                        }
                        let s = match &g.edges[de] {
                            Some(edge) => edge.src,
                            None => {
                                proof {
                                    assert(false);
                                }
                                0
                            },
                        };
                        if s != b && !has_edge_to(g, a, s) && !has_edge_to(g, b, s)
                            && !consumer_reaches(g, a, s) {
                            proof {
                                assert(g.e_live(de as int));
                                assert(s != a);
                            }
                            return Some((e, a, b, s));
                        }
                    },
                    None => {},
                }
            }
        }
        proof {
            if fusible(*g, e as int) {
                assert(fusion_blocked(*g, e as int));
            }
        }
        e = e + 1;
    }
    None
}

/// The destination of some live out-edge of `x`, if one exists.
fn find_out_edge_dst(g: &Graph, x: usize) -> (r: Option<usize>)
    ensures
        match r {
            Some(d) => edge_to(*g, x as int, d as int),
            None => forall|e: int| !(g.e_live(e) && (#[trigger] g.edge_at(e)).src == x),
        },
{
    let n = g.edges.len();
    let mut e: usize = 0;
    while e < n
        invariant
            0 <= e <= n == g.edges@.len(),
            forall|e2: int| 0 <= e2 < e ==> !(g.e_live(e2) && (#[trigger] g.edge_at(e2)).src == x),
        decreases n - e,
    {
        match &g.edges[e] {
            Some(edge) => {
                if edge.src == x {
                    proof {
                        assert(g.e_live(e as int) && g.edge_at(e as int).src == x);
                    }
                    return Some(edge.dst);
                }
            },
            None => {},
        }
        e = e + 1;
    }
    None
}

// ---------------------------------------------------------------------------
// Input shapes of a node, ordered by input slot.
// ---------------------------------------------------------------------------

/// The `(input_order, view)` pairs of the live data edges into `i`, in edge
/// order, starting at slot `e`.
pub open spec fn data_pairs_from(edges: Seq<Option<Edge>>, i: int, e: int) -> Seq<
    (u64, Seq<Axis>),
>
    decreases edges.len() - e,
{
    if e < 0 || e >= edges.len() {
        Seq::empty()
    } else {
        let rest = data_pairs_from(edges, i, e + 1);
        if edges[e] is Some && edges[e]->Some_0.dst == i {
            match edges[e]->Some_0.dep {
                Dependency::Data { shape, input_order, output_order } => seq![
                    (input_order, shape.axes@),
                ] + rest,
                Dependency::Schedule => rest,
            }
        } else {
            rest
        }
    }
}

pub open spec fn data_pairs(edges: Seq<Option<Edge>>, i: int) -> Seq<(u64, Seq<Axis>)> {
    data_pairs_from(edges, i, 0)
}

/// Insert a pair behind every pair whose slot is not greater, keeping the
/// sort stable.
pub open spec fn insert_pair(p: (u64, Seq<Axis>), s: Seq<(u64, Seq<Axis>)>) -> Seq<
    (u64, Seq<Axis>),
>
    decreases s.len(),
{
    if s.len() == 0 {
        seq![p]
    } else if p.0 < s[0].0 {
        seq![p] + s
    } else {
        seq![s[0]] + insert_pair(p, s.subrange(1, s.len() as int))
    }
}

/// Stable insertion sort by input slot.
pub open spec fn sort_pairs(s: Seq<(u64, Seq<Axis>)>) -> Seq<(u64, Seq<Axis>)>
    decreases s.len(),
{
    if s.len() == 0 {
        Seq::empty()
    } else {
        insert_pair(s.last(), sort_pairs(s.drop_last()))
    }
}

/// The views of a node's inputs, in input-slot order (ties in edge order).
pub open spec fn input_views(edges: Seq<Option<Edge>>, i: int) -> Seq<Seq<Axis>> {
    sort_pairs(data_pairs(edges, i)).map_values(|p: (u64, Seq<Axis>)| p.1)
}

/// Inserting at the first strictly-greater slot is the stable insertion.
proof fn lemma_insert_pair_at(p: (u64, Seq<Axis>), s: Seq<(u64, Seq<Axis>)>, idx: int)
    requires
        0 <= idx <= s.len(),
        forall|j: int| 0 <= j < idx ==> (#[trigger] s[j]).0 <= p.0,
        idx < s.len() ==> p.0 < s[idx].0,
    ensures
        insert_pair(p, s) == s.insert(idx, p),
    decreases s.len(),
{
    if s.len() == 0 {
        assert(insert_pair(p, s) =~= s.insert(0, p));
    } else if p.0 < s[0].0 {
        assert(idx == 0);
        assert(insert_pair(p, s) =~= s.insert(0, p));
    } else {
        assert(s[0].0 <= p.0);
        assert(idx >= 1);
        let rest = s.subrange(1, s.len() as int);
        assert(forall|j: int| 0 <= j < idx - 1 ==> (#[trigger] rest[j]).0 <= p.0);
        lemma_insert_pair_at(p, rest, idx - 1);
        assert(insert_pair(p, s) =~= seq![s[0]] + rest.insert(idx - 1, p));
        assert(seq![s[0]] + rest.insert(idx - 1, p) =~= s.insert(idx, p));
    }
}

/// Collect the input shapes of node `i`, ordered by input slot, ties broken
/// by edge order.
pub fn input_shapes_ordered(g: &Graph, i: usize) -> (r: Vec<ShapeTracker>)
    ensures
        r@.map_values(|st: ShapeTracker| st.axes@) == input_views(g.edges@, i as int),
{
    let n = g.edges.len();
    let mut pairs: Vec<(u64, ShapeTracker)> = Vec::new();
    let mut e: usize = n;
    // Collect in reverse so the recursion over the tail matches directly.
    while e > 0
        invariant
            0 <= e <= n == g.edges@.len(),
            pairs@.map_values(|p: (u64, ShapeTracker)| (p.0, p.1.axes@)) == data_pairs_from(
                g.edges@,
                i as int,
                e as int,
            ),
        decreases e,
    {
        e = e - 1;
        let ghost pre = pairs@.map_values(|p: (u64, ShapeTracker)| (p.0, p.1.axes@));
        match &g.edges[e] {
            Some(edge) => {
                if edge.dst == i {
                    match &edge.dep {
                        Dependency::Data { shape, input_order, output_order } => {
                            pairs.insert(0, (*input_order, shape.duplicate()));
                            proof {
                                assert(pairs@.map_values(|p: (u64, ShapeTracker)| (p.0, p.1.axes@))
                                    =~= seq![(*input_order, shape.axes@)] + pre);
                            }
                        },
                        Dependency::Schedule => {},
                    }
                }
            },
            None => {},
        }
    }
    // Stable insertion sort by input slot.
    let m = pairs.len();
    let mut sorted: Vec<(u64, ShapeTracker)> = Vec::new();
    let mut k: usize = 0;
    proof {
        assert(pairs@.subrange(0, 0) =~= Seq::<(u64, ShapeTracker)>::empty());
        assert(sorted@.map_values(|p: (u64, ShapeTracker)| (p.0, p.1.axes@)) =~= Seq::<
            (u64, Seq<Axis>),
        >::empty());
    }
    while k < m
        invariant
            0 <= k <= m == pairs@.len(),
            sorted@.map_values(|p: (u64, ShapeTracker)| (p.0, p.1.axes@)) == sort_pairs(
                pairs@.subrange(0, k as int).map_values(
                    |p: (u64, ShapeTracker)| (p.0, p.1.axes@),
                ),
            ),
        decreases m - k,
    {
        let ghost pre = sorted@.map_values(|p: (u64, ShapeTracker)| (p.0, p.1.axes@));
        let key = pairs[k].0;
        let mut idx: usize = 0;
        while idx < sorted.len() && sorted[idx].0 <= key
            invariant
                0 <= idx <= sorted@.len(),
                forall|j: int| 0 <= j < idx ==> (#[trigger] sorted@[j]).0 <= key,
            decreases sorted@.len() - idx,
        {
            idx = idx + 1;
        }
        let p = (pairs[k].0, pairs[k].1.duplicate());
        sorted.insert(idx, p);
        proof {
            lemma_insert_pair_at((key, pairs@[k as int].1.axes@), pre, idx as int);
            assert(sorted@.map_values(|p2: (u64, ShapeTracker)| (p2.0, p2.1.axes@)) =~= pre.insert(
                idx as int,
                (key, pairs@[k as int].1.axes@),
            ));
            let cur = pairs@.subrange(0, k as int + 1).map_values(
                |p2: (u64, ShapeTracker)| (p2.0, p2.1.axes@),
            );
            assert(cur.drop_last() =~= pairs@.subrange(0, k as int).map_values(
                |p2: (u64, ShapeTracker)| (p2.0, p2.1.axes@),
            ));
            assert(cur.last() == (key, pairs@[k as int].1.axes@));
        }
        k = k + 1;
    }
    proof {
        assert(pairs@.subrange(0, m as int) =~= pairs@);
    }
    let mut out: Vec<ShapeTracker> = Vec::new();
    let mut k2: usize = 0;
    while k2 < sorted.len()
        invariant
            0 <= k2 <= sorted@.len(),
            out@.map_values(|st: ShapeTracker| st.axes@) =~= sorted@.subrange(
                0,
                k2 as int,
            ).map_values(|p: (u64, ShapeTracker)| (p.0, p.1.axes@)).map_values(
                |p: (u64, Seq<Axis>)| p.1,
            ),
        decreases sorted@.len() - k2,
    {
        let ghost preo = out@.map_values(|st: ShapeTracker| st.axes@);
        out.push(sorted[k2].1.duplicate());
        proof {
            assert(out@.map_values(|st: ShapeTracker| st.axes@) =~= preo.push(
                sorted@[k2 as int].1.axes@,
            ));
            assert(sorted@.subrange(0, k2 as int + 1).map_values(
                |p: (u64, ShapeTracker)| (p.0, p.1.axes@),
            ).map_values(|p: (u64, Seq<Axis>)| p.1) =~= preo.push(sorted@[k2 as int].1.axes@));
        }
        k2 = k2 + 1;
    }
    proof {
        assert(sorted@.subrange(0, sorted@.len() as int) =~= sorted@);
        assert(out@.map_values(|st: ShapeTracker| st.axes@) =~= input_views(g.edges@, i as int));
    }
    out
}

// ---------------------------------------------------------------------------
// The primitive substitution pass.
// ---------------------------------------------------------------------------

pub open spec fn is_function(op: NodeOp) -> bool {
    op matches NodeOp::Prim(PrimKind::Function)
}

pub open spec fn is_print(op: NodeOp) -> bool {
    op matches NodeOp::Prim(PrimKind::Print)
}

/// A primitive kind this backend lowers to a device operator.
pub open spec fn recognized(k: PrimKind) -> bool {
    !(k is Function || k is Print || k is Other)
}

/// How many input views the device operator for `k` is built from.
pub open spec fn arity_of(k: PrimKind) -> int {
    match k {
        PrimKind::Add => 2,
        PrimKind::Mul => 2,
        PrimKind::Mod => 2,
        PrimKind::LessThan => 2,
        PrimKind::Contiguous => 1,
        PrimKind::SumReduce(_) => 1,
        PrimKind::MaxReduce(_) => 1,
        _ => 0,
    }
}

pub open spec fn all_outs_to_dev(g: Graph, i: int) -> bool {
    forall|e: int|
        g.e_live(e) && (#[trigger] g.edge_at(e)).src == i ==> g.op_of(g.edge_at(e).dst as int)
            is CopyToDevice
}

pub open spec fn all_ins_from_dev(g: Graph, i: int) -> bool {
    forall|e: int|
        g.e_live(e) && (#[trigger] g.edge_at(e)).dst == i ==> g.op_of(g.edge_at(e).src as int)
            is CopyFromDevice
}

/// Function `i` feeds its consumers through device copies and is fed
/// through host copies.
pub open spec fn fn_boundary_ok(g: Graph, i: int) -> bool {
    all_outs_to_dev(g, i) && all_ins_from_dev(g, i)
}

/// Every function with consumers feeds them through device copies and is
/// fed through host copies.
pub open spec fn boundaries_done(g: Graph) -> bool {
    forall|i: int|
        g.live(i) && is_function(#[trigger] g.op_of(i)) && g.has_out_edge(i) ==> fn_boundary_ok(
            g,
            i,
        )
}

/// The first data edge into `i` is the lowest relevant slot.
pub proof fn lemma_first_data_in_finds(g: Graph, i: int, k: int, e: int)
    requires
        0 <= e <= k,
        data_into(g, k, i),
        forall|e2: int| 0 <= e2 < k ==> !data_into(g, e2, i),
    ensures
        first_data_in_from(g, i, e) == Some(k),
    decreases k - e,
{
    assert(0 <= k < g.edges@.len());
    if e < k {
        assert(!data_into(g, e, i));
        lemma_first_data_in_finds(g, i, k, e + 1);
    }
}

/// No live retrieval point is a copy to the device: true of the abstract
/// graphs this pass starts from, and restored by the pass itself.
pub open spec fn no_retrieved_device_copies(g: Graph) -> bool {
    forall|n: usize|
        #[trigger] g.to_retrieve@.contains(n) && g.live(n as int) ==> !(g.op_of(n as int)
            is CopyToDevice)
}

/// Every retrieved `CopyToDevice` reads directly from a live function, so
/// retrieval can be handed back to that function.
pub open spec fn retrieve_copies_elidable(g: Graph) -> bool {
    forall|n: usize|
        #[trigger] g.to_retrieve@.contains(n) && g.live(n as int) && g.op_of(n as int)
            is CopyToDevice ==> match first_data_in(g, n as int) {
            Some(de) => g.live(g.edge_at(de).src as int) && is_function(
                g.op_of(g.edge_at(de).src as int),
            ),
            None => false,
        }
}

/// As `retrieve_copies_elidable`, with the feeding functions below `bound`.
pub open spec fn elidable_upto(g: Graph, bound: int) -> bool {
    forall|n: usize|
        #[trigger] g.to_retrieve@.contains(n) && g.live(n as int) && g.op_of(n as int)
            is CopyToDevice ==> match first_data_in(g, n as int) {
            Some(de) => g.live(g.edge_at(de).src as int) && is_function(
                g.op_of(g.edge_at(de).src as int),
            ) && (g.edge_at(de).src as int) < bound,
            None => false,
        }
}

/// The elidable-retrieval invariant survives a mutation that keeps the
/// retrieval set, the old payloads, and every retrieved device copy's data
/// edges (their first one byte for byte).
pub proof fn lemma_elidable_frame(g1: Graph, g2: Graph, bound: int)
    requires
        elidable_upto(g1, bound),
        retrieve_in_range(g1),
        g2.to_retrieve@ == g1.to_retrieve@,
        g1.nodes@.len() <= g2.nodes@.len(),
        forall|j: int| 0 <= j < g1.nodes@.len() ==> g2.nodes@[j] == g1.nodes@[j],
        forall|n: usize, e2: int|
            g1.to_retrieve@.contains(n) && g1.live(n as int) && g1.op_of(n as int) is CopyToDevice
                ==> (#[trigger] data_into(g2, e2, n as int) <==> data_into(g1, e2, n as int)),
        forall|n: usize|
            #[trigger] g1.to_retrieve@.contains(n) && g1.live(n as int) && g1.op_of(n as int)
                is CopyToDevice ==> ({
                let de = first_data_in(g1, n as int)->Some_0;
                g2.edges@[de] == g1.edges@[de]
            }),
    ensures
        elidable_upto(g2, bound),
        retrieve_in_range(g2),
{
    assert forall|n: usize|
        #[trigger] g2.to_retrieve@.contains(n) && g2.live(n as int) && g2.op_of(n as int)
            is CopyToDevice implies match first_data_in(g2, n as int) {
        Some(de) => g2.live(g2.edge_at(de).src as int) && is_function(
            g2.op_of(g2.edge_at(de).src as int),
        ) && (g2.edge_at(de).src as int) < bound,
        None => false,
    } by {
        assert(g1.to_retrieve@.contains(n));
        assert((n as int) < g1.nodes@.len());
        assert(g1.live(n as int) && g1.op_of(n as int) == g2.op_of(n as int));
        assert forall|e2: int|
            0 <= e2 implies (#[trigger] data_into(g2, e2, n as int) <==> data_into(
            g1,
            e2,
            n as int,
        )) by {}
        lemma_first_data_in_frame(g1, g2, n as int, 0);
        match first_data_in(g1, n as int) {
            Some(de) => {
                lemma_first_data_in_props(g1, n as int, 0);
                assert(g2.edges@[de] == g1.edges@[de]);
                let src = g1.edge_at(de).src as int;
                assert(g1.live(src) && is_function(g1.op_of(src)) && src < bound);
                assert(src < g1.nodes@.len());
                assert(g2.nodes@[src] == g1.nodes@[src]);
            },
            None => {
                assert(false);
            },
        }
    }
}

/// A slot that carries data into `i` guarantees a first data edge exists.
pub proof fn lemma_first_data_some(g: Graph, i: int, k: int, e: int)
    requires
        0 <= e <= k,
        data_into(g, k, i),
    ensures
        first_data_in_from(g, i, e) is Some,
    decreases k - e,
{
    assert(0 <= k < g.edges@.len());
    if e < k && !data_into(g, e, i) {
        lemma_first_data_some(g, i, k, e + 1);
    }
}

/// Every live retrieval point that is not a function has a data input to
/// read back (the original aborts otherwise).
pub open spec fn retrieved_have_inputs(g: Graph) -> bool {
    forall|n: usize|
        #[trigger] g.to_retrieve@.contains(n) && g.live(n as int) && !is_function(g.op_of(n as int))
            ==> first_data_in(g, n as int) is Some
}

/// The three retrieval invariants survive a mutation that keeps the
/// retrieval set, the old payloads, and every retrieved node's data edges
/// (the first data edge of a retrieved device copy byte for byte).
pub proof fn lemma_retrieval_frame(g1: Graph, g2: Graph, bound: int)
    requires
        elidable_upto(g1, bound),
        retrieve_in_range(g1),
        retrieved_have_inputs(g1),
        g2.to_retrieve@ == g1.to_retrieve@,
        g1.nodes@.len() <= g2.nodes@.len(),
        forall|j: int| 0 <= j < g1.nodes@.len() ==> g2.nodes@[j] == g1.nodes@[j],
        forall|n: usize, e2: int|
            g1.to_retrieve@.contains(n) && g1.live(n as int) ==> (#[trigger] data_into(
                g2,
                e2,
                n as int,
            ) <==> data_into(g1, e2, n as int)),
        forall|n: usize|
            #[trigger] g1.to_retrieve@.contains(n) && g1.live(n as int) && g1.op_of(n as int)
                is CopyToDevice ==> ({
                let de = first_data_in(g1, n as int)->Some_0;
                g2.edges@[de] == g1.edges@[de]
            }),
    ensures
        elidable_upto(g2, bound),
        retrieve_in_range(g2),
        retrieved_have_inputs(g2),
{
    lemma_elidable_frame(g1, g2, bound);
    assert forall|n: usize|
        #[trigger] g2.to_retrieve@.contains(n) && g2.live(n as int) && !is_function(
            g2.op_of(n as int),
        ) implies first_data_in(g2, n as int) is Some by {
        assert((n as int) < g1.nodes@.len());
        assert(g1.live(n as int) && g1.op_of(n as int) == g2.op_of(n as int));
        assert(first_data_in(g1, n as int) is Some);
        lemma_first_data_in_props(g1, n as int, 0);
        let de = first_data_in(g1, n as int)->Some_0;
        assert(data_into(g1, de, n as int));
        assert(data_into(g2, de, n as int));
        lemma_first_data_some(g2, n as int, de, 0);
    }
}

/// Every retrieval identifier names a node slot.
pub open spec fn retrieve_in_range(g: Graph) -> bool {
    forall|n: usize| #[trigger] g.to_retrieve@.contains(n) ==> (n as int) < g.nodes@.len()
}

/// Every live retrieval point is a function output or a copy back to the
/// host.
pub open spec fn retrieval_done(g: Graph) -> bool {
    forall|n: usize|
        #[trigger] g.to_retrieve@.contains(n) && g.live(n as int) ==> is_function(g.op_of(n as int))
            || g.op_of(n as int) is CopyFromDevice
}

/// Every print reads its first data input from a copy back to the host.
pub open spec fn prints_done(g: Graph) -> bool {
    forall|i: int|
        g.live(i) && is_print(#[trigger] g.op_of(i)) ==> match first_data_in(g, i) {
            Some(de) => g.op_of(g.edge_at(de).src as int) is CopyFromDevice,
            None => true,
        }
}

/// No abstract primitive of a recognized kind with enough inputs remains.
pub open spec fn substitution_done(g: Graph) -> bool {
    forall|i: int|
        g.live(i) ==> match #[trigger] g.op_of(i) {
            NodeOp::Prim(k) => !recognized(k) || input_views(g.edges@, i).len() < arity_of(k),
            _ => true,
        }
}

/// A graph the substitution pass has nothing left to do on.
pub open spec fn lowered(g: Graph) -> bool {
    boundaries_done(g) && retrieval_done(g) && prints_done(g) && substitution_done(g)
}

/// Constant payloads carrying the same value.
pub open spec fn const_eq(a: crate::prim::ConstantValue, b: crate::prim::ConstantValue) -> bool {
    match a {
        crate::prim::ConstantValue::Float(x) => b matches crate::prim::ConstantValue::Float(y)
            && x == y,
        crate::prim::ConstantValue::Expr(ea) => b matches crate::prim::ConstantValue::Expr(eb)
            && ea.terms@ == eb.terms@,
    }
}

/// The payload the substitution leaves on a node: the device operator for
/// the primitive's kind, built from the node's ordered input views and the
/// element type.
pub open spec fn device_sub_ok(
    op: NodeOp,
    k: PrimKind,
    views: Seq<Seq<Axis>>,
    elem: ElemKind,
) -> bool {
    let tn = crate::prim::spec_type_name(elem);
    match k {
        PrimKind::Log2 => op matches NodeOp::Log2(x) && x.code@ == crate::prim::spec_unary_kernel(
            tn,
            "log2"@,
        ),
        PrimKind::Exp2 => op matches NodeOp::Exp2(x) && x.code@ == crate::prim::spec_unary_kernel(
            tn,
            "exp2"@,
        ),
        PrimKind::Sin => op matches NodeOp::Sin(x) && x.code@ == crate::prim::spec_unary_kernel(
            tn,
            "sin"@,
        ),
        PrimKind::Sqrt => op matches NodeOp::Sqrt(x) && x.code@ == crate::prim::spec_unary_kernel(
            tn,
            if elem is F32 {
                "sqrt"@
            } else {
                "hsqrt"@
            },
        ),
        PrimKind::Recip => op matches NodeOp::Recip(x) && x.code@
            == crate::prim::spec_unary_kernel(
            tn,
            if elem is F32 {
                "__frcp_rn"@
            } else {
                "hrcp"@
            },
        ),
        PrimKind::Constant(v) => op matches NodeOp::Constant(c) && const_eq(c.value, v),
        PrimKind::Contiguous => op matches NodeOp::Contiguous(c) && c.code@
            == crate::prim::spec_contiguous_kernel(tn, views[0]) && c.dyn_symbols@
            == crate::shape::dyn_syms(seq![views[0]]),
        PrimKind::Add => op matches NodeOp::Add(a) && a.code@ == crate::prim::spec_binary_kernel(
            tn,
            "+"@,
            views[0],
            views[1],
        ) && a.dyn_symbols@ == crate::shape::dyn_syms(seq![views[0], views[1]]),
        PrimKind::Mul => op matches NodeOp::Mul(a) && a.code@ == crate::prim::spec_binary_kernel(
            tn,
            "*"@,
            views[0],
            views[1],
        ) && a.dyn_symbols@ == crate::shape::dyn_syms(seq![views[0], views[1]]),
        PrimKind::Mod => op matches NodeOp::Mod(a) && a.code@ == crate::prim::spec_mod_kernel(
            tn,
            views[0],
            views[1],
        ) && a.dyn_symbols@ == crate::shape::dyn_syms(seq![views[0], views[1]]),
        PrimKind::LessThan => op matches NodeOp::LessThan(a) && a.code@
            == crate::prim::spec_less_than_kernel(tn, views[0], views[1]) && a.dyn_symbols@
            == crate::shape::dyn_syms(seq![views[0], views[1]]),
        PrimKind::SumReduce(d) => op matches NodeOp::SumReduce(r) && r.dim == d && r.code@
            == crate::prim::spec_reduce_kernel(
            tn,
            "0.0"@,
            "reduce_value + (float)"@,
            ""@,
            views[0],
        ) && r.dyn_symbols@ == crate::shape::dyn_syms(seq![views[0]]),
        PrimKind::MaxReduce(d) => op matches NodeOp::MaxReduce(r) && r.dim == d && r.code@
            == crate::prim::spec_reduce_kernel(
            tn,
            "-__int_as_float(0x7f800000)"@,
            "max(reduce_value, (float)"@,
            ")"@,
            views[0],
        ) && r.dyn_symbols@ == crate::shape::dyn_syms(seq![views[0]]),
        _ => true,
    }
}

/// The relation between a node's payload before and after the substitution
/// stage: recognized primitives with enough inputs become their device
/// operator; everything else is untouched.
pub open spec fn subst_ok(
    old_op: NodeOp,
    new_op: NodeOp,
    views: Seq<Seq<Axis>>,
    elem: ElemKind,
) -> bool {
    match old_op {
        NodeOp::Prim(k) => if recognized(k) && views.len() >= arity_of(k) {
            device_sub_ok(new_op, k, views, elem)
        } else {
            new_op == old_op
        },
        _ => new_op == old_op,
    }
}

fn op_is_function(op: &NodeOp) -> (r: bool)
    ensures
        r == is_function(*op),
{
    match op {
        NodeOp::Prim(PrimKind::Function) => true,
        _ => false,
    }
}

fn op_is_copy_from(op: &NodeOp) -> (r: bool)
    ensures
        r == (*op is CopyFromDevice),
{
    match op {
        NodeOp::CopyFromDevice => true,
        _ => false,
    }
}

fn op_is_copy_to(op: &NodeOp) -> (r: bool)
    ensures
        r == (*op is CopyToDevice),
{
    match op {
        NodeOp::CopyToDevice => true,
        _ => false,
    }
}

/// Whether any live edge leaves `i`.
fn has_any_out(g: &Graph, i: usize) -> (r: bool)
    ensures
        r == g.has_out_edge(i as int),
{
    match find_out_edge_dst(g, i) {
        Some(_) => true,
        None => {
            proof {
                if g.has_out_edge(i as int) {
                    let e = choose|e: int| g.e_live(e) && (#[trigger] g.edge_at(e)).src == i;
                    assert(false);
                }
            }
            false
        },
    }
}

/// Whether every live out-edge of `i` feeds a `CopyToDevice`.
fn outs_all_to_dev(g: &Graph, i: usize) -> (r: bool)
    requires
        g.wf(),
    ensures
        r == all_outs_to_dev(*g, i as int),
{
    let n = g.edges.len();
    let mut e: usize = 0;
    while e < n
        invariant
            0 <= e <= n == g.edges@.len(),
            g.wf(),
            forall|e2: int|
                0 <= e2 < e && g.e_live(e2) && (#[trigger] g.edge_at(e2)).src == i ==> g.op_of(
                    g.edge_at(e2).dst as int,
                ) is CopyToDevice,
        decreases n - e,
    {
        let bad = match &g.edges[e] {
            Some(edge) => {
                if edge.src == i {
                    proof {
                        assert(g.e_live(e as int));
                    }
                    match &g.nodes[edge.dst] {
                        Some(op) => !op_is_copy_to(op),
                        None => true,
                    }
                } else {
                    false
                }
            },
            None => false,
        };
        if bad {
            proof {
                assert(g.e_live(e as int) && g.edge_at(e as int).src == i && !(g.op_of(
                    g.edge_at(e as int).dst as int,
                ) is CopyToDevice));
            }
            return false;
        }
        e = e + 1;
    }
    true
}

/// An edge payload kept up to its view: both schedule, or both data
/// carrying the same axes (the print stage renumbers slot orders on the
/// edge it reroutes).
pub open spec fn dep_view_kept(a: Dependency, b: Dependency) -> bool {
    match a {
        Dependency::Data { shape: sa, .. } => b matches Dependency::Data { shape: sb, .. }
            && sa.axes@ == sb.axes@,
        Dependency::Schedule => b is Schedule,
    }
}

/// Edge preservation across the substitution stages: no edge is removed,
/// every edge keeps its consumer and its view, and a producer changes only
/// onto one of the inserted copies.
pub open spec fn edges_extended(g0: Graph, g: Graph) -> bool {
    forall|e: int|
        0 <= e < g0.edges@.len() ==> #[trigger] g.e_live(e) == g0.e_live(e) && (g0.e_live(e)
            ==> g.edge_at(e).dst == g0.edge_at(e).dst && dep_view_kept(
            g0.edge_at(e).dep,
            g.edge_at(e).dep,
        ) && (g.edge_at(e).src == g0.edge_at(e).src || g0.nodes@.len() <= g.edge_at(e).src))
}

/// Node-payload preservation across a stage: old nodes keep their payloads,
/// new nodes are boundary copies.
pub open spec fn nodes_extended(g0: Graph, g: Graph) -> bool {
    &&& g0.nodes@.len() <= g.nodes@.len()
    &&& forall|j: int| 0 <= j < g0.nodes@.len() ==> g.nodes@[j] == g0.nodes@[j]
    &&& forall|j: int|
        g0.nodes@.len() <= j < g.nodes@.len() && g.nodes@[j] is Some ==> is_copy(
            #[trigger] g.nodes@[j]->Some_0,
        )
}

/// Every function among the first `n` nodes with consumers has its
/// boundaries in place.
pub open spec fn boundaries_done_upto(g: Graph, n: int) -> bool {
    forall|j: int|
        0 <= j < n && g.live(j) && is_function(#[trigger] g.op_of(j)) && g.has_out_edge(j)
            ==> fn_boundary_ok(g, j)
}

/// Stage one of the substitution pass: for every function with consumers,
/// route its output through a fresh `CopyToDevice` (keeping retrieval on the
/// copy as well when the function is retrieved) and feed each of its inputs
/// through a fresh `CopyFromDevice`. A function whose boundaries are already
/// in place is left untouched, so the stage does nothing on a graph where
/// every function boundary is done.
#[verifier::rlimit(100)]
#[verifier::spinoff_prover]
fn stage_boundaries(g: &mut Graph)
    requires
        old(g).wf(),
        no_retrieved_device_copies(*old(g)),
        retrieve_in_range(*old(g)),
        retrieved_have_inputs(*old(g)),
    ensures
        final(g).wf(),
        boundaries_done(*old(g)) ==> *final(g) == *old(g),
        boundaries_done(*final(g)),
        retrieve_copies_elidable(*final(g)),
        retrieve_in_range(*final(g)),
        retrieved_have_inputs(*final(g)),
        nodes_extended(*old(g), *final(g)),
        edges_extended(*old(g), *final(g)),
        old(g).edges@.len() <= final(g).edges@.len(),
        forall|y: usize|
            old(g).to_retrieve@.contains(y) ==> final(g).to_retrieve@.contains(y),
        final(g).no_delete@ == old(g).no_delete@,
        final(g).dyn_map == old(g).dyn_map,
        forall|y: usize|
            final(g).to_retrieve@.contains(y) ==> old(g).to_retrieve@.contains(y) || old(
                g,
            ).nodes@.len() <= y < final(g).nodes@.len(),
        inserted_have_inputs(*old(g), *final(g)),
{
    let n0 = g.nodes.len();
    let mut i: usize = 0;
    while i < n0
        invariant
            0 <= i <= n0 == old(g).nodes@.len(),
            g.wf(),
            boundaries_done(*old(g)) ==> *g == *old(g),
            inserted_have_inputs(*old(g), *g),
            boundaries_done_upto(*g, i as int),
            elidable_upto(*g, i as int),
            retrieve_in_range(*g),
            retrieved_have_inputs(*g),
            nodes_extended(*old(g), *g),
            edges_extended(*old(g), *g),
            old(g).edges@.len() <= g.edges@.len(),
            g.no_delete@ == old(g).no_delete@,
            g.dyn_map == old(g).dyn_map,
            forall|y: usize|
                g.to_retrieve@.contains(y) ==> old(g).to_retrieve@.contains(y) || old(
                    g,
                ).nodes@.len() <= y < g.nodes@.len(),
            forall|y: usize| old(g).to_retrieve@.contains(y) ==> g.to_retrieve@.contains(y),
        decreases n0 - i,
    {
        let live_fn = match &g.nodes[i] {
            Some(op) => op_is_function(op),
            None => false,
        };
        let with_out = live_fn && has_any_out(g, i);
        if with_out {
            if !outs_all_to_dev(g, i) {
                proof {
                    if boundaries_done(*old(g)) {
                        assert(*g == *old(g));
                        assert(false);
                    }
                }
                let ghost g_pre = *g;
                let copy = g.add_node(NodeOp::CopyToDevice);
                proof {
                    assert forall|e2: int| g.e_live(e2) implies (#[trigger] g.edge_at(e2)).dst
                        != copy by {
                        assert(g_pre.e_live(e2));
                        assert(g_pre.live(g_pre.edge_at(e2).dst as int));
                    }
                    assert forall|n: usize, e2: int|
                        g_pre.to_retrieve@.contains(n) && g_pre.live(n as int) implies (
                    #[trigger] data_into(*g, e2, n as int) <==> data_into(
                        g_pre,
                        e2,
                        n as int,
                    )) by {}
                    lemma_retrieval_frame(g_pre, *g, i as int);
                    assert forall|e2: int|
                        0 <= e2 < old(g).edges@.len() implies #[trigger] g.e_live(e2) == old(
                        g,
                    ).e_live(e2) && (old(g).e_live(e2) ==> g.edge_at(e2).dst == old(g).edge_at(
                        e2,
                    ).dst && dep_view_kept(old(g).edge_at(e2).dep, g.edge_at(e2).dep) && (
                    g.edge_at(e2).src == old(g).edge_at(e2).src || old(g).nodes@.len()
                        <= g.edge_at(e2).src)) by {
                        assert(g.edges@[e2] == g_pre.edges@[e2]);
                        assert(g_pre.e_live(e2) == old(g).e_live(e2));
                        assert(g.e_live(e2) == g_pre.e_live(e2));
                        if old(g).e_live(e2) {
                            assert(g_pre.edge_at(e2).dst == old(g).edge_at(e2).dst);
                            assert(dep_view_kept(old(g).edge_at(e2).dep, g_pre.edge_at(e2).dep));
                            assert(g_pre.edge_at(e2).src == old(g).edge_at(e2).src || old(
                                g,
                            ).nodes@.len() <= g_pre.edge_at(e2).src);
                        }
                    }
                    assert(edges_extended(*old(g), *g));
                    assert forall|j: int|
                        0 <= j < i && g.live(j) && is_function(#[trigger] g.op_of(j))
                            && g.has_out_edge(j) implies fn_boundary_ok(*g, j) by {
                        assert(g_pre.live(j) && g_pre.op_of(j) == g.op_of(j));
                        let we = choose|we: int|
                            g.e_live(we) && (#[trigger] g.edge_at(we)).src == j;
                        assert(g_pre.e_live(we) && g_pre.edge_at(we).src == j);
                        assert(g_pre.has_out_edge(j));
                        assert(fn_boundary_ok(g_pre, j));
                        assert forall|e2: int|
                            g.e_live(e2) && (#[trigger] g.edge_at(e2)).src == j implies g.op_of(
                            g.edge_at(e2).dst as int,
                        ) is CopyToDevice by {
                            assert(g_pre.e_live(e2) && g_pre.edge_at(e2) == g.edge_at(e2));
                            assert(g_pre.op_of(g_pre.edge_at(e2).dst as int) is CopyToDevice);
                        }
                        assert forall|e2: int|
                            g.e_live(e2) && (#[trigger] g.edge_at(e2)).dst == j implies g.op_of(
                            g.edge_at(e2).src as int,
                        ) is CopyFromDevice by {
                            assert(g_pre.e_live(e2) && g_pre.edge_at(e2) == g.edge_at(e2));
                            assert(g_pre.op_of(g_pre.edge_at(e2).src as int) is CopyFromDevice);
                        }
                    }
                }
                let m = g.edges.len();
                let mut e: usize = 0;
                while e < m
                    invariant
                        0 <= e <= m == g.edges@.len(),
                        g.wf(),
                        g.nodes@ == g_pre.nodes@.push(Some(NodeOp::CopyToDevice)),
                        copy == g_pre.nodes@.len(),
                        i < copy,
                        g.live(copy as int),
                        g.op_of(copy as int) is CopyToDevice,
                        g.live(i as int) && is_function(g.op_of(i as int)),
                        boundaries_done_upto(*g, i as int),
                        elidable_upto(*g, i as int),
                        retrieve_in_range(*g),
                        retrieved_have_inputs(*g),
                        edges_extended(*old(g), *g),
                        nodes_extended(*old(g), *g),
                        i < old(g).nodes@.len(),
                        old(g).nodes@.len() <= copy,
                        old(g).edges@.len() <= g.edges@.len(),
                        g.no_delete@ == g_pre.no_delete@,
                        g.to_retrieve@ == g_pre.to_retrieve@,
                        g.dyn_map == g_pre.dyn_map,
                        forall|e2: int|
                            g.e_live(e2) ==> (#[trigger] g.edge_at(e2)).dst != copy,
                        forall|e2: int|
                            0 <= e2 < e && g.e_live(e2) ==> (#[trigger] g.edge_at(e2)).src != i,
                        m == g_pre.edges@.len(),
                        forall|e2: int|
                            0 <= e2 < m ==> #[trigger] g.e_live(e2) == g_pre.e_live(e2) && (
                            g_pre.e_live(e2) ==> g.edge_at(e2).dst == g_pre.edge_at(e2).dst
                                && g.edge_at(e2).dep == g_pre.edge_at(e2).dep),
                    decreases m - e,
                {
                    let hit = match &g.edges[e] {
                        Some(edge) => edge.src == i,
                        None => false,
                    };
                    if hit {
                        proof {
                            assert(g.e_live(e as int));
                            assert(g.edge_at(e as int).dst != copy);
                        }
                        let ghost g_mid = *g;
                        g.set_edge_src(e, copy);
                        proof {
                            assert forall|e2: int| g.e_live(e2) implies (#[trigger] g.edge_at(
                                e2,
                            )).dst != copy by {
                                if e2 != e {
                                    assert(g_mid.e_live(e2) && g_mid.edge_at(e2) == g.edge_at(e2));
                                }
                            }
                            assert forall|e2: int|
                                0 <= e2 < m implies #[trigger] g.e_live(e2) == g_pre.e_live(e2)
                                    && (g_pre.e_live(e2) ==> g.edge_at(e2).dst == g_pre.edge_at(
                                    e2,
                                ).dst && g.edge_at(e2).dep == g_pre.edge_at(e2).dep) by {
                                assert(g_mid.e_live(e2) == g_pre.e_live(e2));
                                if g_pre.e_live(e2) {
                                    assert(g_mid.edge_at(e2).dst == g_pre.edge_at(e2).dst);
                                    assert(g_mid.edge_at(e2).dep == g_pre.edge_at(e2).dep);
                                }
                                if e2 == e as int {
                                    assert(g_mid.e_live(e2) && g.e_live(e2));
                                    assert(g.edge_at(e2).dst == g_mid.edge_at(e2).dst);
                                    assert(g.edge_at(e2).dep == g_mid.edge_at(e2).dep);
                                } else {
                                    assert(g.edges@[e2] == g_mid.edges@[e2]);
                                }
                            }
                            assert forall|n: usize, e2: int|
                                g_mid.to_retrieve@.contains(n) && g_mid.live(n as int) implies (
                            #[trigger] data_into(*g, e2, n as int) <==> data_into(
                                g_mid,
                                e2,
                                n as int,
                            )) by {
                                if e2 == e {
                                    assert(g.edge_at(e2).dst == g_mid.edge_at(e2).dst);
                                    assert(g.edge_at(e2).dep == g_mid.edge_at(e2).dep);
                                }
                            }
                            assert forall|n: usize|
                                #[trigger] g_mid.to_retrieve@.contains(n) && g_mid.live(n as int)
                                    && g_mid.op_of(n as int) is CopyToDevice implies ({
                                let de = first_data_in(g_mid, n as int)->Some_0;
                                g.edges@[de] == g_mid.edges@[de]
                            }) by {
                                let de = first_data_in(g_mid, n as int)->Some_0;
                                lemma_first_data_in_props(g_mid, n as int, 0);
                                // the first data edge of a retrieved copy
                                // comes from an earlier function, never from
                                // the one being processed
                                if de == e {
                                    assert(g_mid.edge_at(de).src == i);
                                    assert((g_mid.edge_at(de).src as int) < i as int);
                                    assert(false);
                                }
                            }
                            lemma_retrieval_frame(g_mid, *g, i as int);
                            assert forall|e2: int|
                                0 <= e2 < old(g).edges@.len() implies #[trigger] g.e_live(e2)
                                    == old(g).e_live(e2) && (old(g).e_live(e2) ==> g.edge_at(
                                    e2,
                                ).dst == old(g).edge_at(e2).dst && dep_view_kept(
                                    old(g).edge_at(e2).dep,
                                    g.edge_at(e2).dep,
                                ) && (g.edge_at(e2).src == old(g).edge_at(e2).src || old(
                                    g,
                                ).nodes@.len() <= g.edge_at(e2).src)) by {
                                if e2 == e {
                                    assert(g.e_live(e2) && g_mid.e_live(e2));
                                    assert(g_mid.e_live(e2) == old(g).e_live(e2));
                                    assert(g.edge_at(e2).dst == g_mid.edge_at(e2).dst);
                                    assert(g.edge_at(e2).dep == g_mid.edge_at(e2).dep);
                                    assert(dep_view_kept(
                                        old(g).edge_at(e2).dep,
                                        g_mid.edge_at(e2).dep,
                                    ));
                                    assert(g.edge_at(e2).src == copy);
                                    assert(old(g).nodes@.len() <= copy);
                                } else {
                                    assert(g.edges@[e2] == g_mid.edges@[e2]);
                                    assert(g.e_live(e2) == g_mid.e_live(e2));
                                }
                            }
                            assert forall|j: int|
                                0 <= j < i && g.live(j) && is_function(#[trigger] g.op_of(j))
                                    && g.has_out_edge(j) implies fn_boundary_ok(*g, j) by {
                                assert(g_mid.live(j) && g_mid.op_of(j) == g.op_of(j));
                                let we = choose|we: int|
                                    g.e_live(we) && (#[trigger] g.edge_at(we)).src == j;
                                assert(g_mid.e_live(we));
                                if we == e {
                                    assert(g.edge_at(we).src == copy);
                                    assert(false);
                                }
                                assert(g_mid.edge_at(we).src == j);
                                assert(g_mid.has_out_edge(j));
                                assert(fn_boundary_ok(g_mid, j));
                                assert forall|e2: int|
                                    g.e_live(e2) && (#[trigger] g.edge_at(e2)).src == j implies
                                    g.op_of(g.edge_at(e2).dst as int) is CopyToDevice by {
                                    assert(g_mid.e_live(e2));
                                    if e2 == e {
                                        assert(g.edge_at(e2).src == copy && copy != j);
                                        assert(false);
                                    }
                                    assert(g_mid.edge_at(e2) == g.edge_at(e2));
                                }
                                assert forall|e2: int|
                                    g.e_live(e2) && (#[trigger] g.edge_at(e2)).dst == j implies
                                    g.op_of(g.edge_at(e2).src as int) is CopyFromDevice by {
                                    assert(g_mid.e_live(e2));
                                    if e2 == e {
                                        // the rewired edge kept its target; its
                                        // old source was the function `i`, which
                                        // a done function cannot read from
                                        assert(g_mid.edge_at(e2).dst == j);
                                        assert(g_mid.edge_at(e2).src == i);
                                        assert(g_mid.op_of(i as int) is CopyFromDevice);
                                        assert(false);
                                    }
                                    assert(g_mid.edge_at(e2) == g.edge_at(e2));
                                }
                            }
                        }
                    }
                    e = e + 1;
                }
                let empty_dims: Vec<u64> = Vec::new();
                let ghost g_rw = *g;
                g.add_edge(
                    i,
                    copy,
                    Dependency::Data {
                        shape: ShapeTracker::new(&empty_dims),
                        input_order: 0,
                        output_order: 0,
                    },
                );
                proof {
                    assert forall|n: usize, e2: int|
                        g_rw.to_retrieve@.contains(n) && g_rw.live(n as int) implies (
                    #[trigger] data_into(*g, e2, n as int) <==> data_into(
                        g_rw,
                        e2,
                        n as int,
                    )) by {
                        if e2 == g_rw.edges@.len() {
                            assert((n as int) < g_rw.nodes@.len());
                            assert(g.edge_at(e2).dst == copy && copy != n);
                        }
                    }
                    assert forall|n: usize|
                        #[trigger] g_rw.to_retrieve@.contains(n) && g_rw.live(n as int)
                            && g_rw.op_of(n as int) is CopyToDevice implies ({
                        let de = first_data_in(g_rw, n as int)->Some_0;
                        g.edges@[de] == g_rw.edges@[de]
                    }) by {
                        lemma_first_data_in_props(g_rw, n as int, 0);
                    }
                    lemma_retrieval_frame(g_rw, *g, i as int);
                    assert forall|e2: int|
                        0 <= e2 < old(g).edges@.len() implies #[trigger] g.e_live(e2) == old(
                        g,
                    ).e_live(e2) && (old(g).e_live(e2) ==> g.edge_at(e2).dst == old(g).edge_at(
                        e2,
                    ).dst && dep_view_kept(old(g).edge_at(e2).dep, g.edge_at(e2).dep) && (
                    g.edge_at(e2).src == old(g).edge_at(e2).src || old(g).nodes@.len()
                        <= g.edge_at(e2).src)) by {
                        assert(e2 < g_rw.edges@.len());
                        assert(g.edges@[e2] == g_rw.edges@[e2]);
                        assert(g_rw.e_live(e2) == old(g).e_live(e2));
                        assert(g.e_live(e2) == g_rw.e_live(e2));
                        if old(g).e_live(e2) {
                            assert(g_rw.edge_at(e2).dst == old(g).edge_at(e2).dst);
                            assert(dep_view_kept(old(g).edge_at(e2).dep, g_rw.edge_at(e2).dep));
                            assert(g_rw.edge_at(e2).src == old(g).edge_at(e2).src || old(
                                g,
                            ).nodes@.len() <= g_rw.edge_at(e2).src);
                        }
                    }
                }
                let ghost g_ae = *g;
                if crate::graph::ids_contain(&g.to_retrieve, i) {
                    g.mark_retrieve(copy);
                    proof {
                        assert forall|n: usize, e2: int|
                            g_ae.to_retrieve@.contains(n) && g_ae.live(n as int) && g_ae.op_of(
                                n as int,
                            ) is CopyToDevice implies (#[trigger] data_into(*g, e2, n as int)
                            <==> data_into(g_ae, e2, n as int)) by {}
                        assert forall|n: usize|
                            #[trigger] g.to_retrieve@.contains(n) && g.live(n as int) && g.op_of(
                                n as int,
                            ) is CopyToDevice implies match first_data_in(*g, n as int) {
                            Some(de) => g.live(g.edge_at(de).src as int) && is_function(
                                g.op_of(g.edge_at(de).src as int),
                            ) && (g.edge_at(de).src as int) < i as int + 1,
                            None => false,
                        } by {
                            if n == copy {
                                let k = g_ae.edges@.len() - 1;
                                assert(g.edges@[k] == g_ae.edges@[k]);
                                assert(data_into(*g, k, copy as int));
                                assert forall|e2: int| 0 <= e2 < k implies !data_into(
                                    *g,
                                    e2,
                                    copy as int,
                                ) by {
                                    if g.e_live(e2) {
                                        assert(g_ae.e_live(e2));
                                        assert(g_ae.edges@[e2] == g_rw.edges@[e2]);
                                        assert(g_rw.e_live(e2));
                                        assert(g_rw.edge_at(e2).dst != copy);
                                        assert(g_ae.edge_at(e2).dst != copy);
                                    }
                                }
                                lemma_first_data_in_finds(*g, copy as int, k, 0);
                                assert(g.edge_at(k).src == i);
                            } else {
                                assert(g_ae.to_retrieve@.contains(n));
                                assert(g_ae.live(n as int) && g_ae.op_of(n as int)
                                    is CopyToDevice);
                                lemma_first_data_in_frame(g_ae, *g, n as int, 0);
                                lemma_first_data_in_props(g_ae, n as int, 0);
                                match first_data_in(g_ae, n as int) {
                                    Some(de) => {
                                        assert(g.edges@[de] == g_ae.edges@[de]);
                                        let src = g_ae.edge_at(de).src as int;
                                        assert(g_ae.live(src) && is_function(g_ae.op_of(src))
                                            && src < i as int);
                                    },
                                    None => {
                                        assert(false);
                                    },
                                }
                            }
                        }
                        assert(elidable_upto(*g, i as int + 1));
                        assert forall|n: usize|
                            #[trigger] g.to_retrieve@.contains(n) && g.live(n as int)
                                && !is_function(g.op_of(n as int)) implies first_data_in(
                            *g,
                            n as int,
                        ) is Some by {
                            if n == copy {
                                let k = g_ae.edges@.len() - 1;
                                assert(data_into(*g, k, copy as int));
                                lemma_first_data_some(*g, copy as int, k, 0);
                            } else {
                                assert(g_ae.to_retrieve@.contains(n));
                                assert(g_ae.live(n as int) && g_ae.op_of(n as int) == g.op_of(
                                    n as int,
                                ));
                                assert(first_data_in(g_ae, n as int) is Some);
                                lemma_first_data_in_props(g_ae, n as int, 0);
                                let de = first_data_in(g_ae, n as int)->Some_0;
                                assert(data_into(g_ae, de, n as int));
                                assert(data_into(*g, de, n as int));
                                lemma_first_data_some(*g, n as int, de, 0);
                            }
                        }
                        assert(retrieved_have_inputs(*g));
                    }
                }
                proof {
                    assert(elidable_upto(*g, i as int + 1));
                    assert(retrieve_in_range(*g));
                    assert(retrieved_have_inputs(*g));
                    // the retrieval mark leaves nodes and edges untouched
                    assert forall|e2: int|
                        0 <= e2 < old(g).edges@.len() implies #[trigger] g.e_live(e2) == old(
                        g,
                    ).e_live(e2) && (old(g).e_live(e2) ==> g.edge_at(e2).dst == old(g).edge_at(
                        e2,
                    ).dst && dep_view_kept(old(g).edge_at(e2).dep, g.edge_at(e2).dep) && (
                    g.edge_at(e2).src == old(g).edge_at(e2).src || old(g).nodes@.len()
                        <= g.edge_at(e2).src)) by {
                        assert(g.edges@[e2] == g_ae.edges@[e2]);
                        assert(g_ae.e_live(e2) == old(g).e_live(e2));
                        assert(g.e_live(e2) == g_ae.e_live(e2));
                        if old(g).e_live(e2) {
                            assert(g_ae.edge_at(e2).dst == old(g).edge_at(e2).dst);
                            assert(dep_view_kept(old(g).edge_at(e2).dep, g_ae.edge_at(e2).dep));
                            assert(g_ae.edge_at(e2).src == old(g).edge_at(e2).src || old(
                                g,
                            ).nodes@.len() <= g_ae.edge_at(e2).src);
                        }
                    }
                    assert(edges_extended(*old(g), *g));
                    // every inserted node still reads a data edge, and the
                    // fresh device copy reads the function
                    assert forall|j: int|
                        old(g).nodes@.len() <= j < g.nodes@.len() && #[trigger] g.live(j)
                            implies exists|e2: int| data_into(*g, e2, j) by {
                        if j == copy as int {
                            assert(data_into(*g, g_rw.edges@.len() as int, j));
                        } else {
                            assert(j < g_pre.nodes@.len());
                            assert(g_pre.live(j));
                            let ew = choose|ew: int| data_into(g_pre, ew, j);
                            assert(g_rw.e_live(ew) == g_pre.e_live(ew));
                            assert(g_rw.edge_at(ew).dst == g_pre.edge_at(ew).dst);
                            assert(g_rw.edge_at(ew).dep == g_pre.edge_at(ew).dep);
                            assert(g.edges@[ew] == g_rw.edges@[ew]);
                            assert(data_into(*g, ew, j));
                        }
                    }
                }
                proof {
                    // the function's only remaining out-edge is the new one,
                    // and it feeds the fresh device copy
                    assert forall|e2: int|
                        g.e_live(e2) && (#[trigger] g.edge_at(e2)).src == i implies g.op_of(
                        g.edge_at(e2).dst as int,
                    ) is CopyToDevice by {
                        if e2 < g_rw.edges@.len() {
                            assert(g_rw.e_live(e2) && g_rw.edge_at(e2) == g.edge_at(e2));
                            assert(false);
                        } else {
                            assert(g.edge_at(e2).dst == copy);
                        }
                    }
                    assert forall|j: int|
                        0 <= j < i && g.live(j) && is_function(#[trigger] g.op_of(j))
                            && g.has_out_edge(j) implies fn_boundary_ok(*g, j) by {
                        assert(g_rw.live(j) && g_rw.op_of(j) == g.op_of(j));
                        let we = choose|we: int|
                            g.e_live(we) && (#[trigger] g.edge_at(we)).src == j;
                        if we == g_rw.edges@.len() {
                            assert(g.edge_at(we).src == i);
                            assert(false);
                        }
                        assert(g_rw.e_live(we) && g_rw.edge_at(we).src == j);
                        assert(g_rw.has_out_edge(j));
                        assert(fn_boundary_ok(g_rw, j));
                        assert forall|e2: int|
                            g.e_live(e2) && (#[trigger] g.edge_at(e2)).src == j implies g.op_of(
                            g.edge_at(e2).dst as int,
                        ) is CopyToDevice by {
                            if e2 < g_rw.edges@.len() {
                                assert(g_rw.e_live(e2) && g_rw.edge_at(e2) == g.edge_at(e2));
                            } else {
                                assert(g.edge_at(e2).src == i && i != j);
                                assert(false);
                            }
                        }
                        assert forall|e2: int|
                            g.e_live(e2) && (#[trigger] g.edge_at(e2)).dst == j implies g.op_of(
                            g.edge_at(e2).src as int,
                        ) is CopyFromDevice by {
                            if e2 < g_rw.edges@.len() {
                                assert(g_rw.e_live(e2) && g_rw.edge_at(e2) == g.edge_at(e2));
                            } else {
                                assert(g.edge_at(e2).dst == copy && copy != j);
                                assert(false);
                            }
                        }
                    }
                }
            }
            // Feed every input that does not already come through a
            // host-bound copy through a fresh one.
            proof {
                assert(all_outs_to_dev(*g, i as int));
                assert(edges_extended(*old(g), *g));
            }
            let m2 = g.edges.len();
            let mut e: usize = 0;
            while e < m2
                invariant
                    0 <= e <= m2 <= g.edges@.len(),
                    g.wf(),
                    i < old(g).nodes@.len(),
                    boundaries_done(*old(g)) ==> *g == *old(g) && is_function(old(g).op_of(i as int))
                        && old(g).has_out_edge(i as int),
                    boundaries_done_upto(*g, i as int),
                    nodes_extended(*old(g), *g),
                    g.live(i as int) && is_function(g.op_of(i as int)),
                    elidable_upto(*g, i as int + 1),
                    retrieve_in_range(*g),
                    retrieved_have_inputs(*g),
                    edges_extended(*old(g), *g),
                    old(g).edges@.len() <= g.edges@.len(),
                    all_outs_to_dev(*g, i as int),
                    forall|e2: int|
                        0 <= e2 < e && g.e_live(e2) && (#[trigger] g.edge_at(e2)).dst == i
                            ==> g.op_of(g.edge_at(e2).src as int) is CopyFromDevice,
                    forall|e2: int|
                        m2 <= e2 < g.edges@.len() && g.e_live(e2) ==> (#[trigger] g.edge_at(
                            e2,
                        )).dst != i,
                    g.no_delete@ == old(g).no_delete@,
                    g.dyn_map == old(g).dyn_map,
                    forall|y: usize|
                        g.to_retrieve@.contains(y) ==> old(g).to_retrieve@.contains(y) || old(
                            g,
                        ).nodes@.len() <= y < g.nodes@.len(),
                    forall|y: usize| old(g).to_retrieve@.contains(y) ==> g.to_retrieve@.contains(y),
                    inserted_have_inputs(*old(g), *g),
                decreases m2 - e,
            {
                let needs = match &g.edges[e] {
                    Some(edge) => {
                        if edge.dst == i {
                            proof {
                                assert(g.e_live(e as int));
                                assert(g.live(g.edge_at(e as int).src as int));
                            }
                            match &g.nodes[edge.src] {
                                Some(op) => !op_is_copy_from(op),
                                None => false,
                            }
                        } else {
                            false
                        }
                    },
                    None => false,
                };
                if needs {
                    proof {
                        assert(g.e_live(e as int));
                        assert(g.edge_at(e as int).dst == i);
                        assert(!(g.op_of(g.edge_at(e as int).src as int) is CopyFromDevice));
                        if boundaries_done(*old(g)) {
                            assert(*g == *old(g));
                            assert(all_ins_from_dev(*old(g), i as int));
                            assert(old(g).e_live(e as int) && old(g).edge_at(e as int).dst == i);
                            assert(old(g).op_of(old(g).edge_at(e as int).src as int)
                                is CopyFromDevice);
                            assert(false);
                        }
                    }
                    let s = match &g.edges[e] {
                        Some(edge) => edge.src,
                        None => 0,
                    };
                    proof {
                        assert(g.e_live(e as int));
                        assert(s == g.edge_at(e as int).src);
                        assert(g.live(g.edge_at(e as int).src as int));
                        assert(g.live(s as int));
                        // a done function cannot be this input's source: its
                        // consumers are all device copies, never a function
                        if g.live(s as int) && is_function(g.op_of(s as int)) && s < i {
                            assert(g.has_out_edge(s as int));
                            assert(fn_boundary_ok(*g, s as int));
                            assert(g.op_of(i as int) is CopyToDevice);
                            assert(false);
                        }
                    }
                    let ghost g_in = *g;
                    let cf = g.add_node(NodeOp::CopyFromDevice);
                    proof {
                        assert(s < cf);
                        assert(g.edge_at(e as int).dst == i && i < cf);
                    }
                    let empty_dims: Vec<u64> = Vec::new();
                    g.add_edge(
                        s,
                        cf,
                        Dependency::Data {
                            shape: ShapeTracker::new(&empty_dims),
                            input_order: 0,
                            output_order: 0,
                        },
                    );
                    g.set_edge_src(e, cf);
                    proof {
                        let gl = *g;
                        assert(gl.edges@.len() == g_in.edges@.len() + 1);
                        assert forall|n: usize, e2: int|
                            g_in.to_retrieve@.contains(n) && g_in.live(n as int) implies (
                        #[trigger] data_into(gl, e2, n as int) <==> data_into(
                            g_in,
                            e2,
                            n as int,
                        )) by {
                            if e2 == e {
                                if g_in.to_retrieve@.contains(n) && g_in.live(n as int) {
                                    assert(gl.edge_at(e2).dst == g_in.edge_at(e2).dst);
                                    assert(gl.edge_at(e2).dep == g_in.edge_at(e2).dep);
                                }
                            } else if e2 == g_in.edges@.len() {
                                assert((n as int) < g_in.nodes@.len());
                                assert(gl.edge_at(e2).dst == cf && cf != n);
                            }
                        }
                        assert forall|n: usize|
                            #[trigger] g_in.to_retrieve@.contains(n) && g_in.live(n as int)
                                && g_in.op_of(n as int) is CopyToDevice implies ({
                            let de = first_data_in(g_in, n as int)->Some_0;
                            gl.edges@[de] == g_in.edges@[de]
                        }) by {
                            let de = first_data_in(g_in, n as int)->Some_0;
                            lemma_first_data_in_props(g_in, n as int, 0);
                            if de == e {
                                assert(g_in.edge_at(de).dst == i as usize && i != n);
                                assert(false);
                            }
                        }
                        lemma_retrieval_frame(g_in, gl, i as int + 1);
                        // inserted nodes keep a data edge through the rewire
                        assert forall|j: int|
                            old(g).nodes@.len() <= j < gl.nodes@.len() && #[trigger] gl.live(j)
                                implies exists|e2: int| data_into(gl, e2, j) by {
                            if j == cf as int {
                                assert(data_into(gl, g_in.edges@.len() as int, j));
                            } else {
                                assert(j < g_in.nodes@.len());
                                assert(g_in.live(j));
                                let ew = choose|ew: int| data_into(g_in, ew, j);
                                if ew == e as int {
                                    assert(gl.edge_at(ew).dst == g_in.edge_at(ew).dst);
                                    assert(gl.edge_at(ew).dep == g_in.edge_at(ew).dep);
                                    assert(gl.e_live(ew));
                                } else {
                                    assert(gl.edges@[ew] == g_in.edges@[ew]);
                                }
                                assert(data_into(gl, ew, j));
                            }
                        }
                        assert forall|e2: int|
                            0 <= e2 < old(g).edges@.len() implies #[trigger] gl.e_live(e2) == old(
                            g,
                        ).e_live(e2) && (old(g).e_live(e2) ==> gl.edge_at(e2).dst == old(
                            g,
                        ).edge_at(e2).dst && dep_view_kept(
                            old(g).edge_at(e2).dep,
                            gl.edge_at(e2).dep,
                        ) && (gl.edge_at(e2).src == old(g).edge_at(e2).src || old(
                            g,
                        ).nodes@.len() <= gl.edge_at(e2).src)) by {
                            if e2 == e {
                                assert(gl.e_live(e2) && g_in.e_live(e2));
                                assert(g_in.e_live(e2) == old(g).e_live(e2));
                                assert(gl.edge_at(e2).dst == g_in.edge_at(e2).dst);
                                assert(gl.edge_at(e2).dep == g_in.edge_at(e2).dep);
                                assert(dep_view_kept(
                                    old(g).edge_at(e2).dep,
                                    g_in.edge_at(e2).dep,
                                ));
                                assert(gl.edge_at(e2).src == cf);
                                assert(cf == g_in.nodes@.len());
                                assert(old(g).nodes@.len() <= g_in.nodes@.len());
                            } else {
                                assert(e2 < g_in.edges@.len());
                                assert(e2 != g_in.edges@.len());
                                assert(gl.edges@[e2] == g_in.edges@[e2]);
                                assert(gl.e_live(e2) == g_in.e_live(e2));
                            }
                        }
                        assert forall|e2: int|
                            gl.e_live(e2) && (#[trigger] gl.edge_at(e2)).src == i implies gl.op_of(
                            gl.edge_at(e2).dst as int,
                        ) is CopyToDevice by {
                            if e2 == e {
                                assert(gl.edge_at(e2).src == cf && cf != i);
                                assert(false);
                            } else if e2 == g_in.edges@.len() {
                                assert(gl.edge_at(e2).src == s);
                                assert(g_in.e_live(e as int) && g_in.edge_at(e as int).src == s
                                    && g_in.edge_at(e as int).dst == i);
                                assert(s != i);
                                assert(false);
                            } else {
                                assert(g_in.e_live(e2) && g_in.edge_at(e2) == gl.edge_at(e2));
                                assert(g_in.op_of(g_in.edge_at(e2).dst as int) is CopyToDevice);
                                assert(gl.edge_at(e2).dst != cf);
                            }
                        }
                        assert forall|j: int|
                            0 <= j < i && gl.live(j) && is_function(#[trigger] gl.op_of(j))
                                && gl.has_out_edge(j) implies fn_boundary_ok(gl, j) by {
                            assert(g_in.live(j) && g_in.op_of(j) == gl.op_of(j));
                            let we = choose|we: int|
                                gl.e_live(we) && (#[trigger] gl.edge_at(we)).src == j;
                            if we == e {
                                assert(gl.edge_at(we).src == cf);
                                assert(false);
                            }
                            if we == g_in.edges@.len() {
                                // the new edge's source feeds this function's
                                // input, so it cannot be a done function
                                assert(gl.edge_at(we).src == s);
                                assert(j == s);
                                assert(g_in.has_out_edge(j));
                                assert(fn_boundary_ok(g_in, j));
                                assert(g_in.e_live(e as int) && g_in.edge_at(e as int).src == j);
                                assert(g_in.op_of(i as int) is CopyToDevice);
                                assert(false);
                            }
                            assert(g_in.e_live(we) && g_in.edge_at(we).src == j);
                            assert(g_in.has_out_edge(j));
                            assert(fn_boundary_ok(g_in, j));
                            assert forall|e2: int|
                                gl.e_live(e2) && (#[trigger] gl.edge_at(e2)).src == j implies
                                gl.op_of(gl.edge_at(e2).dst as int) is CopyToDevice by {
                                if e2 == e {
                                    assert(gl.edge_at(e2).src == cf && cf != j);
                                    assert(false);
                                } else if e2 == g_in.edges@.len() {
                                    assert(gl.edge_at(e2).src == s && s == j);
                                    assert(g_in.e_live(e as int) && g_in.edge_at(e as int).src
                                        == j);
                                    assert(g_in.op_of(i as int) is CopyToDevice);
                                    assert(false);
                                } else {
                                    assert(g_in.e_live(e2) && g_in.edge_at(e2) == gl.edge_at(e2));
                                    assert(gl.edge_at(e2).dst != cf);
                                }
                            }
                            assert forall|e2: int|
                                gl.e_live(e2) && (#[trigger] gl.edge_at(e2)).dst == j implies
                                gl.op_of(gl.edge_at(e2).src as int) is CopyFromDevice by {
                                if e2 == e {
                                    assert(gl.edge_at(e2).dst == i && i != j);
                                    assert(false);
                                } else if e2 == g_in.edges@.len() {
                                    assert(gl.edge_at(e2).dst == cf && cf != j);
                                    assert(false);
                                } else {
                                    assert(g_in.e_live(e2) && g_in.edge_at(e2) == gl.edge_at(e2));
                                }
                            }
                        }
                        assert forall|e2: int|
                            0 <= e2 < e + 1 && gl.e_live(e2) && (#[trigger] gl.edge_at(e2)).dst
                            == i implies gl.op_of(gl.edge_at(e2).src as int) is CopyFromDevice by {
                            if e2 == e {
                                assert(gl.edge_at(e2).src == cf);
                                assert(gl.op_of(cf as int) is CopyFromDevice);
                            } else {
                                assert(g_in.e_live(e2) && g_in.edge_at(e2) == gl.edge_at(e2));
                                assert(g_in.op_of(g_in.edge_at(e2).src as int) is CopyFromDevice);
                                assert(gl.edge_at(e2).src != cf);
                                assert(gl.op_of(gl.edge_at(e2).src as int) == g_in.op_of(
                                    g_in.edge_at(e2).src as int,
                                ));
                            }
                        }
                        assert forall|e2: int|
                            m2 <= e2 < gl.edges@.len() && gl.e_live(e2) implies (
                        #[trigger] gl.edge_at(e2)).dst != i by {
                            if e2 == g_in.edges@.len() {
                                assert(gl.edge_at(e2).dst == cf && cf != i);
                            } else {
                                assert(e2 != e);
                                assert(g_in.e_live(e2) && g_in.edge_at(e2) == gl.edge_at(e2));
                            }
                        }
                    }
                } else {
                    proof {
                        if g.e_live(e as int) && g.edge_at(e as int).dst == i {
                            assert(g.op_of(g.edge_at(e as int).src as int) is CopyFromDevice);
                        }
                    }
                }
                e = e + 1;
            }
            proof {
                assert forall|e2: int|
                    g.e_live(e2) && (#[trigger] g.edge_at(e2)).dst == i implies g.op_of(
                    g.edge_at(e2).src as int,
                ) is CopyFromDevice by {
                    if e2 < m2 {
                    } else {
                        assert(g.edge_at(e2).dst != i);
                    }
                }
                assert(fn_boundary_ok(*g, i as int));
            }
        }
        proof {
            assert forall|j: int|
                0 <= j < i + 1 && g.live(j) && is_function(#[trigger] g.op_of(j))
                    && g.has_out_edge(j) implies fn_boundary_ok(*g, j) by {
                if j == i {
                    if !with_out {
                        assert(false);
                    }
                }
            }
            assert(elidable_upto(*g, i as int + 1));
            assert(retrieved_have_inputs(*g));
        }
        i = i + 1;
    }
    proof {
        assert forall|j: int|
            g.live(j) && is_function(#[trigger] g.op_of(j)) && g.has_out_edge(j) implies
            fn_boundary_ok(*g, j) by {
            if j >= n0 {
                assert(is_copy(g.nodes@[j]->Some_0));
                assert(false);
            }
        }
        assert(retrieve_copies_elidable(*g));
    }
}

/// The weight the retrieval stage ranks input views by: the physical
/// element count when the view is well formed and fits, zero otherwise.
pub open spec fn view_weight(axes: Seq<crate::shape::Axis>, env: Map<char, int>) -> int {
    if (forall|j: int| 0 <= j < axes.len() ==> crate::shape::axis_wf(#[trigger] axes[j]))
        && crate::shape::n_physical_model(axes, env) <= u64::MAX {
        crate::shape::n_physical_model(axes, env)
    } else {
        0
    }
}

/// The axes of the view a data edge carries (empty for a schedule edge).
pub open spec fn edge_axes(g: Graph, e: int) -> Seq<crate::shape::Axis> {
    match g.edge_at(e).dep {
        Dependency::Data { shape, .. } => shape.axes@,
        Dependency::Schedule => Seq::empty(),
    }
}

/// Among the data inputs of `n`, no resolved view outweighs edge `be`'s
/// (when `be`'s own view is resolved).
pub open spec fn heaviest_data_input(g: Graph, be: int, n: int) -> bool {
    data_into(g, be, n) && (forall|e2: int|
        #[trigger] data_into(g, e2, n) && crate::shape::shape_resolved(
            edge_axes(g, e2),
            g.dyn_map.env(),
        ) && crate::shape::shape_resolved(edge_axes(g, be), g.dyn_map.env()) ==> view_weight(
            edge_axes(g, e2),
            g.dyn_map.env(),
        ) <= view_weight(edge_axes(g, be), g.dyn_map.env()))
}

/// In `g`, node `y` feeds an inserted `CopyFromDevice` through a fresh edge
/// carrying one of `y`'s heaviest data input views from `g0`.
pub open spec fn retrieval_copy_inserted(g0: Graph, g: Graph, y: usize) -> bool {
    exists|e: int, be: int|
        g0.edges@.len() <= e < g.edges@.len() && #[trigger] g.e_live(e) && g.edge_at(e).src == y
            && g0.nodes@.len() <= g.edge_at(e).dst as int && g.op_of(g.edge_at(e).dst as int)
            is CopyFromDevice && #[trigger] heaviest_data_input(g0, be, y as int) && edge_axes(
            g,
            e,
        ) == edge_axes(g0, be)
}

/// The producer behind `n`'s first data edge: where an elided retrieval
/// point hands its bookkeeping.
pub open spec fn first_data_src(g: Graph, n: int) -> usize {
    g.edge_at(first_data_in(g, n)->Some_0).src
}

/// While a stage only appends edges that feed fresh nodes, the data inputs
/// of the old nodes do not move.
pub proof fn lemma_data_inputs_stable(g0: Graph, g: Graph, y: int)
    requires
        0 <= y < g0.nodes@.len(),
        g0.edges@.len() <= g.edges@.len(),
        forall|e: int| 0 <= e < g0.edges@.len() ==> g.edges@[e] == g0.edges@[e],
        forall|e: int|
            g0.edges@.len() <= e < g.edges@.len() && #[trigger] g.e_live(e) ==> g0.nodes@.len()
                <= g.edge_at(e).dst as int,
    ensures
        forall|e: int| #[trigger] data_into(g, e, y) <==> data_into(g0, e, y),
        first_data_in(g, y) == first_data_in(g0, y),
        forall|e: int| 0 <= e < g0.edges@.len() ==> edge_axes(g, e) == edge_axes(g0, e),
{
    assert forall|e: int| #[trigger] data_into(g, e, y) <==> data_into(g0, e, y) by {
        if 0 <= e < g0.edges@.len() {
            assert(g.edges@[e] == g0.edges@[e]);
        } else if g0.edges@.len() <= e < g.edges@.len() {
            if data_into(g, e, y) {
                assert(g.e_live(e));
                assert(false);
            }
            assert(!data_into(g0, e, y));
        }
    }
    lemma_first_data_in_frame(g0, g, y, 0);
    assert forall|e: int| 0 <= e < g0.edges@.len() implies edge_axes(g, e) == edge_axes(
        g0,
        e,
    ) by {
        assert(g.edges@[e] == g0.edges@[e]);
    }
}

/// A fresh read-back copy survives any later step that keeps the old node
/// and edge slots and only appends.
pub proof fn lemma_retrieval_copy_frame(g0: Graph, ga: Graph, gb: Graph, y: usize)
    requires
        ga.wf(),
        retrieval_copy_inserted(g0, ga, y),
        ga.edges@.len() <= gb.edges@.len(),
        forall|e: int| 0 <= e < ga.edges@.len() ==> gb.edges@[e] == ga.edges@[e],
        ga.nodes@.len() <= gb.nodes@.len(),
        forall|j: int| 0 <= j < ga.nodes@.len() ==> gb.nodes@[j] == ga.nodes@[j],
    ensures
        retrieval_copy_inserted(g0, gb, y),
{
    let (e, be) = choose|e: int, be: int|
        g0.edges@.len() <= e < ga.edges@.len() && #[trigger] ga.e_live(e) && ga.edge_at(e).src == y
            && g0.nodes@.len() <= ga.edge_at(e).dst as int && ga.op_of(ga.edge_at(e).dst as int)
            is CopyFromDevice && #[trigger] heaviest_data_input(g0, be, y as int) && edge_axes(
            ga,
            e,
        ) == edge_axes(g0, be);
    assert(gb.edges@[e] == ga.edges@[e]);
    assert(gb.e_live(e) && gb.edge_at(e) == ga.edge_at(e));
    let d = ga.edge_at(e).dst as int;
    assert(ga.live(d));
    assert(gb.nodes@[d] == ga.nodes@[d]);
    assert(gb.op_of(d) is CopyFromDevice);
    assert(edge_axes(gb, e) == edge_axes(ga, e));
}

/// An estimate of the physical element count behind a view, for the
/// retrieval stage's largest-input choice; zero when the view is malformed
/// or the product overflows. On a view whose symbols the map does not
/// resolve the estimate is unspecified (the choice is a heuristic).
fn physical_size_estimate(st: &ShapeTracker, env: &crate::expr::DynDimMap) -> (r: u64)
    ensures
        crate::shape::shape_resolved(st.axes@, env.env()) ==> r as int == view_weight(
            st.axes@,
            env.env(),
        ),
{
    if !st.is_well_formed() {
        return 0;
    }
    match st.n_physical_elements(env) {
        Some(v) => v,
        None => 0,
    }
}

/// The data edge into `n` carrying the heaviest view (ties to the first
/// such edge): on resolved views, no other data input outweighs the chosen
/// one.
fn largest_data_input(g: &Graph, n: usize) -> (r: Option<usize>)
    requires
        g.wf(),
    ensures
        match r {
            Some(be) => data_into(*g, be as int, n as int) && (forall|e2: int|
                #[trigger] data_into(*g, e2, n as int) && crate::shape::shape_resolved(
                    edge_axes(*g, e2),
                    g.dyn_map.env(),
                ) && crate::shape::shape_resolved(edge_axes(*g, be as int), g.dyn_map.env())
                    ==> view_weight(edge_axes(*g, e2), g.dyn_map.env()) <= view_weight(
                    edge_axes(*g, be as int),
                    g.dyn_map.env(),
                )),
            None => forall|e2: int| !data_into(*g, e2, n as int),
        },
{
    let m = g.edges.len();
    let mut best: Option<usize> = None;
    let mut best_size: u64 = 0;
    let mut e: usize = 0;
    while e < m
        invariant
            0 <= e <= m == g.edges@.len(),
            g.wf(),
            match best {
                Some(be) => data_into(*g, be as int, n as int) && (
                crate::shape::shape_resolved(edge_axes(*g, be as int), g.dyn_map.env())
                    ==> best_size as int == view_weight(edge_axes(*g, be as int), g.dyn_map.env()))
                    && (forall|e2: int|
                    0 <= e2 < e && #[trigger] data_into(*g, e2, n as int)
                        && crate::shape::shape_resolved(edge_axes(*g, e2), g.dyn_map.env())
                        ==> view_weight(edge_axes(*g, e2), g.dyn_map.env()) <= best_size as int),
                None => forall|e2: int| 0 <= e2 < e ==> !data_into(*g, e2, n as int),
            },
        decreases m - e,
    {
        match &g.edges[e] {
            Some(edge) => {
                if edge.dst == n {
                    match &edge.dep {
                        Dependency::Data { shape, .. } => {
                            let sz = physical_size_estimate(shape, &g.dyn_map);
                            proof {
                                assert(g.e_live(e as int));
                                assert(data_into(*g, e as int, n as int));
                                assert(edge_axes(*g, e as int) == shape.axes@);
                            }
                            if best.is_none() || sz > best_size {
                                best = Some(e);
                                best_size = sz;
                            }
                        },
                        Dependency::Schedule => {},
                    }
                }
            },
            None => {},
        }
        e = e + 1;
    }
    best
}

/// Stage two of the substitution pass: every retrieval point that is not a
/// function gets a `CopyFromDevice` inserted after it (reading the largest
/// input view), and the bookkeeping moves to the copy; a retrieval point
/// that is itself a `CopyToDevice` instead hands its bookkeeping back to its
/// first data source. Retrieval points that already read from the host are
/// left alone, so the stage does nothing on a graph whose retrieval points
/// are done.
#[verifier::rlimit(100)]
#[verifier::spinoff_prover]
fn stage_retrieval(g: &mut Graph, remap: &mut Vec<usize>)
    requires
        old(g).wf(),
        retrieve_copies_elidable(*old(g)),
        retrieve_in_range(*old(g)),
        retrieved_have_inputs(*old(g)),
    ensures
        final(g).wf(),
        retrieval_done(*old(g)) ==> *final(g) == *old(g) && final(remap)@ == old(remap)@,
        nodes_extended(*old(g), *final(g)),
        final(g).dyn_map == old(g).dyn_map,
        boundaries_done(*old(g)) ==> boundaries_done(*final(g)),
        retrieval_done(*final(g)),
        retrieve_in_range(*final(g)),
        retrieved_have_inputs(*final(g)),
        edges_extended(*old(g), *final(g)),
        old(g).edges@.len() <= final(g).edges@.len(),
        // marks move only onto the inserted copies or live functions
        forall|y: usize|
            #[trigger] final(g).to_retrieve@.contains(y) ==> old(g).to_retrieve@.contains(y)
                || old(g).nodes@.len() <= y < final(g).nodes@.len() || (final(g).live(y as int)
                && is_function(final(g).op_of(y as int))),
        forall|y: usize|
            #[trigger] final(g).no_delete@.contains(y) ==> old(g).no_delete@.contains(y) || old(
                g,
            ).nodes@.len() <= y < final(g).nodes@.len() || (final(g).live(y as int) && is_function(
                final(g).op_of(y as int),
            )),
        // a retrieved function keeps its mark; unretrieved keep-alive marks
        // are untouched
        forall|y: usize|
            old(g).to_retrieve@.contains(y) && old(g).live(y as int) && is_function(
                old(g).op_of(y as int),
            ) ==> final(g).to_retrieve@.contains(y),
        forall|y: usize|
            old(g).no_delete@.contains(y) && !old(g).to_retrieve@.contains(y)
                ==> final(g).no_delete@.contains(y),
        // external references are redirected only onto the inserted copies
        final(remap)@.len() == old(remap)@.len(),
        forall|j: int|
            0 <= j < old(remap)@.len() ==> final(remap)@[j] == old(remap)@[j] || old(
                g,
            ).nodes@.len() <= final(remap)@[j] < final(g).nodes@.len(),
        // a retrieved device operator reads back through a fresh host copy
        // carrying its largest resolved input view
        forall|y: usize|
            old(g).to_retrieve@.contains(y) && old(g).live(y as int) && !is_function(
                #[trigger] old(g).op_of(y as int),
            ) && !(old(g).op_of(y as int) is CopyToDevice) && !(old(g).op_of(y as int)
                is CopyFromDevice) ==> retrieval_copy_inserted(*old(g), *final(g), y),
        // an elided device copy hands both marks to its feeding function,
        // whether or not that function held them before
        forall|y: usize|
            #[trigger] old(g).to_retrieve@.contains(y) && old(g).live(y as int) && old(g).op_of(
                y as int,
            ) is CopyToDevice ==> !final(g).to_retrieve@.contains(y)
                && final(g).to_retrieve@.contains(first_data_src(*old(g), y as int))
                && final(g).no_delete@.contains(first_data_src(*old(g), y as int)),
        inserted_have_inputs(*old(g), *final(g)),
{
    // Snapshot of the retrieval set: the stage moves entries while walking.
    let mut snapshot: Vec<usize> = Vec::new();
    let mut k: usize = 0;
    while k < g.to_retrieve.len()
        invariant
            0 <= k <= g.to_retrieve@.len(),
            snapshot@ == g.to_retrieve@.subrange(0, k as int),
        decreases g.to_retrieve@.len() - k,
    {
        snapshot.push(g.to_retrieve[k]);
        proof {
            assert(snapshot@ =~= g.to_retrieve@.subrange(0, k as int + 1));
        }
        k = k + 1;
    }
    proof {
        assert(snapshot@ =~= g.to_retrieve@);
    }
    let ghost g0 = *g;
    let ghost b0 = g0.nodes@.len() as int;
    proof {
        assert(elidable_upto(g0, b0));
        assert forall|y: usize|
            #[trigger] g0.to_retrieve@.contains(y) && g0.live(y as int) implies is_function(
            g0.op_of(y as int),
        ) || g0.op_of(y as int) is CopyFromDevice || exists|k2: int|
            0 <= k2 < snapshot@.len() && snapshot@[k2] == y by {
            if !(is_function(g0.op_of(y as int)) || g0.op_of(y as int) is CopyFromDevice) {
                let k2 = choose|k2: int| 0 <= k2 < snapshot@.len() && snapshot@[k2] == y;
                assert(snapshot@[k2] == y);
            }
        }
    }
    let mut k: usize = 0;
    while k < snapshot.len()
        invariant
            0 <= k <= snapshot@.len(),
            g.wf(),
            retrieval_done(g0) ==> *g == g0 && remap@ == old(remap)@,
            boundaries_done(g0) ==> boundaries_done(*g),
            nodes_extended(g0, *g),
            g.dyn_map == g0.dyn_map,
            b0 == g0.nodes@.len(),
            snapshot@ == g0.to_retrieve@,
            elidable_upto(*g, b0),
            retrieve_in_range(*g),
            retrieved_have_inputs(*g),
            edges_extended(g0, *g),
            g0.edges@.len() <= g.edges@.len(),
            // every live retrieval point is settled or still to be visited
            forall|y: usize|
                #[trigger] g.to_retrieve@.contains(y) && g.live(y as int) ==> is_function(
                    g.op_of(y as int),
                ) || g.op_of(y as int) is CopyFromDevice || exists|k2: int|
                    k <= k2 < snapshot@.len() && snapshot@[k2] == y,
            forall|y: usize|
                #[trigger] g.to_retrieve@.contains(y) ==> g0.to_retrieve@.contains(y) || b0 <= y
                    < g.nodes@.len() || (g.live(y as int) && is_function(g.op_of(y as int))),
            forall|y: usize|
                #[trigger] g.no_delete@.contains(y) ==> g0.no_delete@.contains(y) || b0 <= y
                    < g.nodes@.len() || (g.live(y as int) && is_function(g.op_of(y as int))),
            forall|y: usize|
                g0.to_retrieve@.contains(y) && g0.live(y as int) && is_function(
                    #[trigger] g0.op_of(y as int),
                ) ==> g.to_retrieve@.contains(y),
            forall|y: usize|
                g0.no_delete@.contains(y) && !g0.to_retrieve@.contains(y)
                    ==> g.no_delete@.contains(y),
            remap@.len() == old(remap)@.len(),
            forall|j: int|
                0 <= j < old(remap)@.len() ==> remap@[j] == old(remap)@[j] || b0 <= remap@[j]
                    < g.nodes@.len(),
            elidable_upto(g0, b0),
            retrieve_in_range(g0),
            inserted_have_inputs(g0, *g),
            // edges never change once written; fresh edges feed fresh nodes
            forall|e: int| 0 <= e < g0.edges@.len() ==> g.edges@[e] == g0.edges@[e],
            forall|e: int|
                g0.edges@.len() <= e < g.edges@.len() && #[trigger] g.e_live(e) ==> b0
                    <= g.edge_at(e).dst as int,
            // a retrieved device operator is visited later or already reads
            // back through a fresh host copy
            forall|y: usize|
                g0.to_retrieve@.contains(y) && g0.live(y as int) && !is_function(
                    #[trigger] g0.op_of(y as int),
                ) && !(g0.op_of(y as int) is CopyToDevice) && !(g0.op_of(y as int)
                    is CopyFromDevice) ==> ((exists|k2: int|
                    k <= k2 < snapshot@.len() && snapshot@[k2] == y) && g.to_retrieve@.contains(y))
                    || retrieval_copy_inserted(g0, *g, y),
            // a retrieved device copy is visited later or already elided
            forall|y: usize|
                #[trigger] g0.to_retrieve@.contains(y) && g0.live(y as int) && g0.op_of(y as int)
                    is CopyToDevice ==> ((exists|k2: int|
                    k <= k2 < snapshot@.len() && snapshot@[k2] == y) && g.to_retrieve@.contains(y))
                    || (!g.to_retrieve@.contains(y) && g.to_retrieve@.contains(
                    first_data_src(g0, y as int),
                ) && g.no_delete@.contains(first_data_src(g0, y as int))),
        decreases snapshot@.len() - k,
    {
        let n = snapshot[k];
        proof {
            assert(snapshot@.contains(n));
            assert(g0.to_retrieve@.contains(n));
        }
        let kind: u8 = if n < g.nodes.len() {
            match &g.nodes[n] {
                Some(op) => {
                    if op_is_function(op) {
                        0
                    } else if op_is_copy_from(op) {
                        1
                    } else if op_is_copy_to(op) {
                        2
                    } else {
                        3
                    }
                },
                None => 0,
            }
        } else {
            0
        };
        // an entry may repeat in the snapshot or have moved already
        let still = crate::graph::ids_contain(&g.to_retrieve, n);
        if kind == 2 && still {
            // A copy back to the device is retrieved: hand the bookkeeping
            // to its data source (a live function) instead of copying back
            // again.
            proof {
                if retrieval_done(g0) {
                    assert(*g == g0);
                    assert(g0.to_retrieve@.contains(n) && g0.live(n as int));
                    assert(false);
                }
            }
            match find_first_data_in(g, n) {
                Some(de) => {
                    proof {
                        lemma_first_data_in_props(*g, n as int, 0);
                    }
                    let s = match &g.edges[de] {
                        Some(edge) => edge.src,
                        None => 0,
                    };
                    proof {
                        if g.to_retrieve@.contains(n) {
                            assert(g.live(g.edge_at(de as int).src as int) && is_function(
                                g.op_of(g.edge_at(de as int).src as int),
                            ));
                        }
                    }
                    let ghost g_el = *g;
                    g.retarget_sets(n, s);
                    proof {
                        if boundaries_done(g0) {
                            assert(boundaries_done(g_el));
                            assert forall|j: int|
                                g.live(j) && is_function(#[trigger] g.op_of(j)) && g.has_out_edge(
                                    j,
                                ) implies fn_boundary_ok(*g, j) by {
                                assert(g_el.live(j) && g_el.op_of(j) == g.op_of(j));
                                let we = choose|we: int|
                                    g.e_live(we) && (#[trigger] g.edge_at(we)).src == j;
                                assert(g_el.e_live(we) && g_el.edge_at(we) == g.edge_at(we));
                                assert(g_el.has_out_edge(j));
                                assert(fn_boundary_ok(g_el, j));
                                assert forall|e2: int|
                                    g.e_live(e2) && (#[trigger] g.edge_at(e2)).src == j implies
                                    g.op_of(g.edge_at(e2).dst as int) is CopyToDevice by {
                                    assert(g_el.e_live(e2) && g_el.edge_at(e2) == g.edge_at(e2));
                                }
                                assert forall|e2: int|
                                    g.e_live(e2) && (#[trigger] g.edge_at(e2)).dst == j implies
                                    g.op_of(g.edge_at(e2).src as int) is CopyFromDevice by {
                                    assert(g_el.e_live(e2) && g_el.edge_at(e2) == g.edge_at(e2));
                                }
                            }
                        }
                        // the bookkeeping moved from the copy to a live
                        // function; the graph itself is untouched
                        assert(g_el.to_retrieve@.contains(n));
                        assert(g.live(s as int) && is_function(g.op_of(s as int)));
                        assert forall|y: usize|
                            #[trigger] g.to_retrieve@.contains(y) && g.live(y as int) implies
                        is_function(g.op_of(y as int)) || g.op_of(y as int) is CopyFromDevice
                            || exists|k2: int|
                            k + 1 <= k2 < snapshot@.len() && snapshot@[k2] == y by {
                            if y != s {
                                assert(g_el.to_retrieve@.contains(y) && y != n);
                                if !(is_function(g.op_of(y as int)) || g.op_of(y as int)
                                    is CopyFromDevice) {
                                    let k2 = choose|k2: int|
                                        k <= k2 < snapshot@.len() && snapshot@[k2] == y;
                                    assert(k2 != k);
                                }
                            }
                        }
                        assert forall|y: usize|
                            #[trigger] g.to_retrieve@.contains(y) && g.live(y as int) && g.op_of(
                                y as int,
                            ) is CopyToDevice implies match first_data_in(*g, y as int) {
                            Some(de2) => g.live(g.edge_at(de2).src as int) && is_function(
                                g.op_of(g.edge_at(de2).src as int),
                            ) && (g.edge_at(de2).src as int) < b0,
                            None => false,
                        } by {
                            assert(g_el.to_retrieve@.contains(y));
                            lemma_first_data_in_frame(g_el, *g, y as int, 0);
                        }
                        assert forall|y: usize|
                            #[trigger] g.to_retrieve@.contains(y) && g.live(y as int)
                                && !is_function(g.op_of(y as int)) implies first_data_in(
                            *g,
                            y as int,
                        ) is Some by {
                            assert(g_el.to_retrieve@.contains(y));
                            lemma_first_data_in_frame(g_el, *g, y as int, 0);
                        }
                        assert forall|e2: int|
                            0 <= e2 < g0.edges@.len() implies #[trigger] g.e_live(e2)
                                == g0.e_live(e2) && (g0.e_live(e2) ==> g.edge_at(e2).dst
                                == g0.edge_at(e2).dst && dep_view_kept(
                                g0.edge_at(e2).dep,
                                g.edge_at(e2).dep,
                            ) && (g.edge_at(e2).src == g0.edge_at(e2).src || g0.nodes@.len()
                                <= g.edge_at(e2).src)) by {
                            assert(g.edges@[e2] == g_el.edges@[e2]);
                            assert(g_el.e_live(e2) == g0.e_live(e2));
                            assert(g.e_live(e2) == g_el.e_live(e2));
                            if g0.e_live(e2) {
                                assert(g_el.edge_at(e2).dst == g0.edge_at(e2).dst);
                                assert(dep_view_kept(g0.edge_at(e2).dep, g_el.edge_at(e2).dep));
                                assert(g_el.edge_at(e2).src == g0.edge_at(e2).src
                                    || g0.nodes@.len() <= g_el.edge_at(e2).src);
                            }
                        }
                        assert(edges_extended(g0, *g));
                        // the elided copy's bookkeeping is now on its feeding
                        // function, and nothing settled comes undone
                        assert((n as int) < b0);
                        assert(g_el.nodes@[n as int] == g0.nodes@[n as int]);
                        lemma_data_inputs_stable(g0, g_el, n as int);
                        lemma_first_data_in_props(g0, n as int, 0);
                        assert(first_data_in(g_el, n as int) == first_data_in(g0, n as int));
                        assert(g_el.edges@[de as int] == g0.edges@[de as int]);
                        assert(s == first_data_src(g0, n as int));
                        assert(g_el.live(s as int) && is_function(g_el.op_of(s as int)));
                        assert(n != s);
                        assert(!g.to_retrieve@.contains(n));
                        assert(g.to_retrieve@.contains(s) && g.no_delete@.contains(s));
                        assert forall|e2: int|
                            g0.edges@.len() <= e2 < g.edges@.len() && #[trigger] g.e_live(
                                e2,
                            ) implies b0 <= g.edge_at(e2).dst as int by {
                            assert(g.edges@[e2] == g_el.edges@[e2]);
                            assert(g_el.e_live(e2));
                        }
                        assert forall|y: usize|
                            g0.to_retrieve@.contains(y) && g0.live(y as int) && !is_function(
                                #[trigger] g0.op_of(y as int),
                            ) && !(g0.op_of(y as int) is CopyToDevice) && !(g0.op_of(y as int)
                                is CopyFromDevice) implies ((exists|k2: int|
                            k + 1 <= k2 < snapshot@.len() && snapshot@[k2] == y)
                            && g.to_retrieve@.contains(y)) || retrieval_copy_inserted(
                            g0,
                            *g,
                            y,
                        ) by {
                            assert((y as int) < b0);
                            assert(g_el.nodes@[y as int] == g0.nodes@[y as int]);
                            assert(y != n);
                            assert((s as int) < b0 ==> g_el.nodes@[s as int] == g0.nodes@[
                                s as int
                            ]);
                            if retrieval_copy_inserted(g0, g_el, y) {
                                lemma_retrieval_copy_frame(g0, g_el, *g, y);
                            } else {
                                assert(g_el.to_retrieve@.contains(y));
                                assert(y != s);
                                assert(g.to_retrieve@.contains(y));
                                let k2 = choose|k2: int|
                                    k <= k2 < snapshot@.len() && snapshot@[k2] == y;
                                assert(k2 != k);
                            }
                        }
                        assert forall|y: usize|
                            #[trigger] g0.to_retrieve@.contains(y) && g0.live(y as int)
                                && g0.op_of(y as int) is CopyToDevice implies ((exists|k2: int|
                            k + 1 <= k2 < snapshot@.len() && snapshot@[k2] == y)
                            && g.to_retrieve@.contains(y)) || (!g.to_retrieve@.contains(y)
                            && g.to_retrieve@.contains(first_data_src(g0, y as int))
                            && g.no_delete@.contains(first_data_src(g0, y as int))) by {
                            if y != n {
                                assert((y as int) < b0);
                                assert(g_el.nodes@[y as int] == g0.nodes@[y as int]);
                                assert(y != s);
                                let sy = first_data_src(g0, y as int);
                                lemma_first_data_in_props(g0, y as int, 0);
                                assert(g0.live(sy as int) && is_function(g0.op_of(sy as int))
                                    && (sy as int) < b0);
                                assert(g_el.nodes@[sy as int] == g0.nodes@[sy as int]);
                                assert(sy != n);
                                if !g_el.to_retrieve@.contains(y) {
                                    assert(g_el.to_retrieve@.contains(sy)
                                        && g_el.no_delete@.contains(sy));
                                    assert(!g.to_retrieve@.contains(y));
                                    assert(g.to_retrieve@.contains(sy)
                                        && g.no_delete@.contains(sy));
                                } else {
                                    assert(g.to_retrieve@.contains(y));
                                    let k2 = choose|k2: int|
                                        k <= k2 < snapshot@.len() && snapshot@[k2] == y;
                                    assert(k2 != k);
                                }
                            }
                        }
                        assert forall|j: int|
                            g0.nodes@.len() <= j < g.nodes@.len() && #[trigger] g.live(j)
                                implies exists|e2: int| data_into(*g, e2, j) by {
                            assert(g_el.live(j));
                            let ew = choose|ew: int| data_into(g_el, ew, j);
                            assert(g.edges@[ew] == g_el.edges@[ew]);
                            assert(data_into(*g, ew, j));
                        }
                    }
                },
                None => {
                    proof {
                        assert(g.to_retrieve@.contains(n) && g.live(n as int) && g.op_of(n as int)
                            is CopyToDevice);
                        assert(first_data_in(*g, n as int) is Some);
                        assert(false);
                    }
                },
            }
        } else if kind == 3 && still {
            // A device operator is retrieved: copy its output back to the
            // host, reading its largest input view.
            proof {
                if retrieval_done(g0) {
                    assert(*g == g0);
                    assert(g0.to_retrieve@.contains(n) && g0.live(n as int));
                    assert(false);
                }
            }
            let best = largest_data_input(g, n);
            match best {
                Some(be) => {
                    let shape_copy = match &g.edges[be] {
                        Some(edge) => {
                            match &edge.dep {
                                Dependency::Data { shape, .. } => shape.duplicate(),
                                Dependency::Schedule => ShapeTracker { axes: Vec::new() },
                            }
                        },
                        None => ShapeTracker { axes: Vec::new() },
                    };
                    proof {
                        assert(g.live(n as int));
                    }
                    let ghost g_b = *g;
                    let ghost copy_axes = shape_copy.axes@;
                    let cf = g.add_node(NodeOp::CopyFromDevice);
                    g.add_edge(
                        n,
                        cf,
                        Dependency::Data { shape: shape_copy, input_order: 0, output_order: 0 },
                    );
                    proof {
                        assert forall|n2: usize, e2: int|
                            g_b.to_retrieve@.contains(n2) && g_b.live(n2 as int) implies (
                        #[trigger] data_into(*g, e2, n2 as int) <==> data_into(
                            g_b,
                            e2,
                            n2 as int,
                        )) by {
                            if e2 == g_b.edges@.len() {
                                assert((n2 as int) < g_b.nodes@.len());
                                assert(g.edge_at(e2).dst == cf && cf != n2);
                            }
                        }
                        assert forall|n2: usize|
                            #[trigger] g_b.to_retrieve@.contains(n2) && g_b.live(n2 as int)
                                && g_b.op_of(n2 as int) is CopyToDevice implies ({
                            let de = first_data_in(g_b, n2 as int)->Some_0;
                            g.edges@[de] == g_b.edges@[de]
                        }) by {
                            lemma_first_data_in_props(g_b, n2 as int, 0);
                        }
                        lemma_retrieval_frame(g_b, *g, b0);
                    }
                    let ghost g_mv = *g;
                    graph_move_references(g, remap, n, cf);
                    proof {
                        // the bookkeeping moved onto the fresh host copy
                        assert(g.live(cf as int) && g.op_of(cf as int) is CopyFromDevice);
                        assert(data_into(*g, g_b.edges@.len() as int, cf as int));
                        assert forall|y: usize|
                            #[trigger] g.to_retrieve@.contains(y) && g.live(y as int) implies
                        is_function(g.op_of(y as int)) || g.op_of(y as int) is CopyFromDevice
                            || exists|k2: int|
                            k + 1 <= k2 < snapshot@.len() && snapshot@[k2] == y by {
                            if y != cf {
                                assert(g_mv.to_retrieve@.contains(y) && y != n);
                                if !(is_function(g.op_of(y as int)) || g.op_of(y as int)
                                    is CopyFromDevice) {
                                    let k2 = choose|k2: int|
                                        k <= k2 < snapshot@.len() && snapshot@[k2] == y;
                                    assert(k2 != k);
                                }
                            }
                        }
                        assert forall|y: usize|
                            #[trigger] g.to_retrieve@.contains(y) && g.live(y as int) && g.op_of(
                                y as int,
                            ) is CopyToDevice implies match first_data_in(*g, y as int) {
                            Some(de2) => g.live(g.edge_at(de2).src as int) && is_function(
                                g.op_of(g.edge_at(de2).src as int),
                            ) && (g.edge_at(de2).src as int) < b0,
                            None => false,
                        } by {
                            assert(y != cf);
                            assert(g_mv.to_retrieve@.contains(y));
                            lemma_first_data_in_frame(g_mv, *g, y as int, 0);
                        }
                        assert forall|y: usize|
                            #[trigger] g.to_retrieve@.contains(y) && g.live(y as int)
                                && !is_function(g.op_of(y as int)) implies first_data_in(
                            *g,
                            y as int,
                        ) is Some by {
                            if y == cf {
                                lemma_first_data_some(*g, cf as int, g_b.edges@.len() as int, 0);
                            } else {
                                assert(g_mv.to_retrieve@.contains(y));
                                lemma_first_data_in_frame(g_mv, *g, y as int, 0);
                            }
                        }
                        assert forall|e2: int|
                            0 <= e2 < g0.edges@.len() implies #[trigger] g.e_live(e2)
                                == g0.e_live(e2) && (g0.e_live(e2) ==> g.edge_at(e2).dst
                                == g0.edge_at(e2).dst && dep_view_kept(
                                g0.edge_at(e2).dep,
                                g.edge_at(e2).dep,
                            ) && (g.edge_at(e2).src == g0.edge_at(e2).src || g0.nodes@.len()
                                <= g.edge_at(e2).src)) by {
                            assert(e2 < g_b.edges@.len());
                            assert(g.edges@[e2] == g_b.edges@[e2]);
                            assert(g_b.e_live(e2) == g0.e_live(e2));
                            assert(g.e_live(e2) == g_b.e_live(e2));
                            if g0.e_live(e2) {
                                assert(g_b.edge_at(e2).dst == g0.edge_at(e2).dst);
                                assert(dep_view_kept(g0.edge_at(e2).dep, g_b.edge_at(e2).dep));
                                assert(g_b.edge_at(e2).src == g0.edge_at(e2).src
                                    || g0.nodes@.len() <= g_b.edge_at(e2).src);
                            }
                        }
                        assert(edges_extended(g0, *g));
                        // the fresh host copy reads the heaviest resolved
                        // input view, and nothing settled comes undone
                        assert((n as int) < b0);
                        assert(g_b.nodes@[n as int] == g0.nodes@[n as int]);
                        assert forall|e2: int| 0 <= e2 < g_b.edges@.len() implies g.edges@[e2]
                            == g_b.edges@[e2] by {}
                        assert forall|j: int| 0 <= j < g_b.nodes@.len() implies g.nodes@[j]
                            == g_b.nodes@[j] by {}
                        lemma_data_inputs_stable(g0, g_b, n as int);
                        assert(data_into(g_b, be as int, n as int));
                        assert(data_into(g0, be as int, n as int));
                        assert forall|e2: int|
                            #[trigger] data_into(g0, e2, n as int)
                                && crate::shape::shape_resolved(
                                edge_axes(g0, e2),
                                g0.dyn_map.env(),
                            ) && crate::shape::shape_resolved(
                                edge_axes(g0, be as int),
                                g0.dyn_map.env(),
                            ) implies view_weight(edge_axes(g0, e2), g0.dyn_map.env())
                            <= view_weight(edge_axes(g0, be as int), g0.dyn_map.env()) by {
                            assert(data_into(g_b, e2, n as int));
                            assert(edge_axes(g_b, e2) == edge_axes(g0, e2));
                            assert(edge_axes(g_b, be as int) == edge_axes(g0, be as int));
                            assert(g_b.dyn_map == g0.dyn_map);
                        }
                        assert(heaviest_data_input(g0, be as int, n as int));
                        let enew = g_b.edges@.len() as int;
                        assert(g.e_live(enew) && g.edge_at(enew).src == n && g.edge_at(
                            enew,
                        ).dst == cf);
                        assert(edge_axes(*g, enew) == copy_axes);
                        assert(copy_axes == edge_axes(g_b, be as int));
                        assert(edge_axes(g_b, be as int) == edge_axes(g0, be as int));
                        assert(b0 <= cf as int && g.op_of(cf as int) is CopyFromDevice);
                        assert(g0.edges@.len() <= enew < g.edges@.len());
                        assert(retrieval_copy_inserted(g0, *g, n));
                        assert forall|e2: int|
                            0 <= e2 < g0.edges@.len() implies g.edges@[e2] == g0.edges@[e2] by {
                            assert(g.edges@[e2] == g_b.edges@[e2]);
                        }
                        assert forall|e2: int|
                            g0.edges@.len() <= e2 < g.edges@.len() && #[trigger] g.e_live(
                                e2,
                            ) implies b0 <= g.edge_at(e2).dst as int by {
                            if e2 < g_b.edges@.len() {
                                assert(g.edges@[e2] == g_b.edges@[e2]);
                                assert(g_b.e_live(e2));
                            } else {
                                assert(g.edge_at(e2).dst == cf);
                            }
                        }
                        assert forall|y: usize|
                            g0.to_retrieve@.contains(y) && g0.live(y as int) && !is_function(
                                #[trigger] g0.op_of(y as int),
                            ) && !(g0.op_of(y as int) is CopyToDevice) && !(g0.op_of(y as int)
                                is CopyFromDevice) implies ((exists|k2: int|
                            k + 1 <= k2 < snapshot@.len() && snapshot@[k2] == y)
                            && g.to_retrieve@.contains(y)) || retrieval_copy_inserted(
                            g0,
                            *g,
                            y,
                        ) by {
                            if y != n {
                                assert((y as int) < b0);
                                assert(g_b.nodes@[y as int] == g0.nodes@[y as int]);
                                assert(y != cf);
                                if retrieval_copy_inserted(g0, g_b, y) {
                                    lemma_retrieval_copy_frame(g0, g_b, *g, y);
                                } else {
                                    assert(g_b.to_retrieve@.contains(y));
                                    assert(g.to_retrieve@.contains(y));
                                    let k2 = choose|k2: int|
                                        k <= k2 < snapshot@.len() && snapshot@[k2] == y;
                                    assert(k2 != k);
                                }
                            }
                        }
                        assert forall|y: usize|
                            #[trigger] g0.to_retrieve@.contains(y) && g0.live(y as int)
                                && g0.op_of(y as int) is CopyToDevice implies ((exists|k2: int|
                            k + 1 <= k2 < snapshot@.len() && snapshot@[k2] == y)
                            && g.to_retrieve@.contains(y)) || (!g.to_retrieve@.contains(y)
                            && g.to_retrieve@.contains(first_data_src(g0, y as int))
                            && g.no_delete@.contains(first_data_src(g0, y as int))) by {
                            assert((y as int) < b0);
                            assert(g_b.nodes@[y as int] == g0.nodes@[y as int]);
                            assert(y != n);
                            assert(y != cf);
                            let sy = first_data_src(g0, y as int);
                            lemma_first_data_in_props(g0, y as int, 0);
                            assert(g0.live(sy as int) && is_function(g0.op_of(sy as int)) && (
                            sy as int) < b0);
                            assert(g_b.nodes@[sy as int] == g0.nodes@[sy as int]);
                            assert(sy != n && sy != cf);
                            if !g_b.to_retrieve@.contains(y) {
                                assert(g_b.to_retrieve@.contains(sy)
                                    && g_b.no_delete@.contains(sy));
                                assert(!g.to_retrieve@.contains(y));
                                assert(g.to_retrieve@.contains(sy) && g.no_delete@.contains(sy));
                            } else {
                                assert(g.to_retrieve@.contains(y));
                                let k2 = choose|k2: int|
                                    k <= k2 < snapshot@.len() && snapshot@[k2] == y;
                                assert(k2 != k);
                            }
                        }
                        assert forall|j: int|
                            g0.nodes@.len() <= j < g.nodes@.len() && #[trigger] g.live(j)
                                implies exists|e2: int| data_into(*g, e2, j) by {
                            if j == cf as int {
                                assert(data_into(*g, g_b.edges@.len() as int, j));
                            } else {
                                assert(j < g_b.nodes@.len());
                                assert(g_b.live(j));
                                let ew = choose|ew: int| data_into(g_b, ew, j);
                                assert(g.edges@[ew] == g_b.edges@[ew]);
                                assert(data_into(*g, ew, j));
                            }
                        }
                        if boundaries_done(g0) {
                            assert(boundaries_done(g_b));
                            assert(!is_function(g_b.op_of(n as int)));
                            assert forall|j: int|
                                g.live(j) && is_function(#[trigger] g.op_of(j)) && g.has_out_edge(
                                    j,
                                ) implies fn_boundary_ok(*g, j) by {
                                assert(j < g_b.nodes@.len() && g_b.live(j) && g_b.op_of(j)
                                    == g.op_of(j));
                                assert(j != n);
                                let we = choose|we: int|
                                    g.e_live(we) && (#[trigger] g.edge_at(we)).src == j;
                                if we == g_b.edges@.len() {
                                    assert(g.edge_at(we).src == n);
                                    assert(false);
                                }
                                assert(g_b.e_live(we) && g_b.edge_at(we).src == j);
                                assert(g_b.has_out_edge(j));
                                assert(fn_boundary_ok(g_b, j));
                                assert forall|e2: int|
                                    g.e_live(e2) && (#[trigger] g.edge_at(e2)).src == j implies
                                    g.op_of(g.edge_at(e2).dst as int) is CopyToDevice by {
                                    if e2 == g_b.edges@.len() {
                                        assert(g.edge_at(e2).src == n && n != j);
                                        assert(false);
                                    }
                                    assert(g_b.e_live(e2) && g_b.edge_at(e2) == g.edge_at(e2));
                                    assert(g.edge_at(e2).dst != cf);
                                }
                                assert forall|e2: int|
                                    g.e_live(e2) && (#[trigger] g.edge_at(e2)).dst == j implies
                                    g.op_of(g.edge_at(e2).src as int) is CopyFromDevice by {
                                    if e2 == g_b.edges@.len() {
                                        assert(g.edge_at(e2).dst == cf && cf != j);
                                        assert(false);
                                    }
                                    assert(g_b.e_live(e2) && g_b.edge_at(e2) == g.edge_at(e2));
                                    assert(g.edge_at(e2).src != cf);
                                }
                            }
                        }
                    }
                },
                None => {
                    proof {
                        assert(g.to_retrieve@.contains(n) && g.live(n as int) && !is_function(
                            g.op_of(n as int),
                        ));
                        assert(first_data_in(*g, n as int) is Some);
                        lemma_first_data_in_props(*g, n as int, 0);
                        let de = first_data_in(*g, n as int)->Some_0;
                        assert(data_into(*g, de, n as int));
                        assert(false);
                    }
                },
            }
        }
        proof {
            assert forall|y: usize|
                #[trigger] g.to_retrieve@.contains(y) && g.live(y as int) implies is_function(
                g.op_of(y as int),
            ) || g.op_of(y as int) is CopyFromDevice || exists|k2: int|
                k + 1 <= k2 < snapshot@.len() && snapshot@[k2] == y by {
                if !(is_function(g.op_of(y as int)) || g.op_of(y as int) is CopyFromDevice) {
                    let k2 = choose|k2: int| k <= k2 < snapshot@.len() && snapshot@[k2] == y;
                    if k2 == k {
                        assert(y == n);
                    }
                }
            }
            assert forall|y: usize|
                g0.to_retrieve@.contains(y) && g0.live(y as int) && !is_function(
                    #[trigger] g0.op_of(y as int),
                ) && !(g0.op_of(y as int) is CopyToDevice) && !(g0.op_of(y as int)
                    is CopyFromDevice) implies ((exists|k2: int|
                k + 1 <= k2 < snapshot@.len() && snapshot@[k2] == y) && g.to_retrieve@.contains(
                y,
            )) || retrieval_copy_inserted(g0, *g, y) by {
                if !retrieval_copy_inserted(g0, *g, y) {
                    assert(g.to_retrieve@.contains(y));
                    let k2 = choose|k2: int| k <= k2 < snapshot@.len() && snapshot@[k2] == y;
                    if k2 == k {
                        assert(y == n);
                        assert(false);
                    }
                }
            }
            assert forall|y: usize|
                #[trigger] g0.to_retrieve@.contains(y) && g0.live(y as int) && g0.op_of(y as int)
                    is CopyToDevice implies ((exists|k2: int|
                k + 1 <= k2 < snapshot@.len() && snapshot@[k2] == y) && g.to_retrieve@.contains(
                y,
            )) || (!g.to_retrieve@.contains(y) && g.to_retrieve@.contains(
                first_data_src(g0, y as int),
            ) && g.no_delete@.contains(first_data_src(g0, y as int))) by {
                if !(!g.to_retrieve@.contains(y) && g.to_retrieve@.contains(
                    first_data_src(g0, y as int),
                ) && g.no_delete@.contains(first_data_src(g0, y as int))) {
                    assert(g.to_retrieve@.contains(y));
                    let k2 = choose|k2: int| k <= k2 < snapshot@.len() && snapshot@[k2] == y;
                    if k2 == k {
                        assert(y == n);
                        assert(false);
                    }
                }
            }
        }
        k = k + 1;
    }
    proof {
        assert(g0 == *old(g));
        assert forall|y: usize|
            old(g).to_retrieve@.contains(y) && old(g).live(y as int) && !is_function(
                #[trigger] old(g).op_of(y as int),
            ) && !(old(g).op_of(y as int) is CopyToDevice) && !(old(g).op_of(y as int)
                is CopyFromDevice) implies retrieval_copy_inserted(*old(g), *g, y) by {
            if !retrieval_copy_inserted(g0, *g, y) {
                let k2 = choose|k2: int|
                    k <= k2 < snapshot@.len() && snapshot@[k2] == y;
                assert(false);
            }
        }
        assert forall|y: usize|
            #[trigger] old(g).to_retrieve@.contains(y) && old(g).live(y as int) && old(g).op_of(
                y as int,
            ) is CopyToDevice implies !g.to_retrieve@.contains(y) && g.to_retrieve@.contains(
            first_data_src(*old(g), y as int),
        ) && g.no_delete@.contains(first_data_src(*old(g), y as int)) by {
            if g.to_retrieve@.contains(y) || !(g.to_retrieve@.contains(
                first_data_src(g0, y as int),
            ) && g.no_delete@.contains(first_data_src(g0, y as int))) {
                let k2 = choose|k2: int|
                    k <= k2 < snapshot@.len() && snapshot@[k2] == y;
                assert(false);
            }
        }
    }
}

/// Stage three of the substitution pass: every print whose first data input
/// does not already come from a `CopyFromDevice` gets one inserted on that
/// edge. Does nothing when every print is already fed from the host.
#[verifier::rlimit(100)]
#[verifier::spinoff_prover]
fn stage_prints(g: &mut Graph)
    requires
        old(g).wf(),
        retrieval_done(*old(g)),
        retrieve_in_range(*old(g)),
        retrieved_have_inputs(*old(g)),
    ensures
        final(g).wf(),
        prints_done(*old(g)) ==> *final(g) == *old(g),
        nodes_extended(*old(g), *final(g)),
        final(g).no_delete@ == old(g).no_delete@,
        final(g).to_retrieve@ == old(g).to_retrieve@,
        final(g).dyn_map == old(g).dyn_map,
        boundaries_done(*old(g)) ==> boundaries_done(*final(g)),
        prints_done(*final(g)),
        retrieval_done(*final(g)),
        retrieve_in_range(*final(g)),
        retrieved_have_inputs(*final(g)),
        edges_extended(*old(g), *final(g)),
        old(g).edges@.len() <= final(g).edges@.len(),
        inserted_have_inputs(*old(g), *final(g)),
{
    let n0 = g.nodes.len();
    let mut i: usize = 0;
    while i < n0
        invariant
            0 <= i <= n0 == old(g).nodes@.len(),
            g.wf(),
            inserted_have_inputs(*old(g), *g),
            prints_done(*old(g)) ==> *g == *old(g),
            boundaries_done(*old(g)) ==> boundaries_done(*g),
            retrieval_done(*g),
            retrieve_in_range(*g),
            retrieved_have_inputs(*g),
            edges_extended(*old(g), *g),
            old(g).edges@.len() <= g.edges@.len(),
            forall|j: int|
                0 <= j < i && g.live(j) && is_print(#[trigger] g.op_of(j)) ==> match first_data_in(
                    *g,
                    j,
                ) {
                    Some(de) => g.op_of(g.edge_at(de).src as int) is CopyFromDevice,
                    None => true,
                },
            nodes_extended(*old(g), *g),
            g.no_delete@ == old(g).no_delete@,
            g.to_retrieve@ == old(g).to_retrieve@,
            g.dyn_map == old(g).dyn_map,
        decreases n0 - i,
    {
        let live_print = match &g.nodes[i] {
            Some(op) => {
                match op {
                    NodeOp::Prim(PrimKind::Print) => true,
                    _ => false,
                }
            },
            None => false,
        };
        if live_print {
            match find_first_data_in(g, i) {
                Some(de) => {
                    proof {
                        lemma_first_data_in_props(*g, i as int, 0);
                        assert(g.live(g.edge_at(de as int).src as int));
                    }
                    let (s, shape_copy) = match &g.edges[de] {
                        Some(edge) => {
                            let sc = match &edge.dep {
                                Dependency::Data { shape, .. } => shape.duplicate(),
                                Dependency::Schedule => ShapeTracker { axes: Vec::new() },
                            };
                            (edge.src, sc)
                        },
                        None => (0, ShapeTracker { axes: Vec::new() }),
                    };
                    let src_is_cf = match &g.nodes[s] {
                        Some(op) => op_is_copy_from(op),
                        None => false,
                    };
                    if !src_is_cf {
                        proof {
                            if prints_done(*old(g)) {
                                assert(*g == *old(g));
                                assert(is_print(old(g).op_of(i as int)));
                                assert(false);
                            }
                        }
                        let shape_copy2 = shape_copy.duplicate();
                        let ghost g_c = *g;
                        let cf = g.add_node(NodeOp::CopyFromDevice);
                        proof {
                            assert(s < cf && i < cf);
                            assert(g.e_live(de as int));
                        }
                        g.add_edge(
                            s,
                            cf,
                            Dependency::Data { shape: shape_copy, input_order: 0, output_order: 0 },
                        );
                        g.set_edge_src_dep(
                            de,
                            cf,
                            Dependency::Data {
                                shape: shape_copy2,
                                input_order: 0,
                                output_order: 0,
                            },
                        );
                        proof {
                            // every inserted node keeps a data edge, and the
                            // fresh host copy reads the print's old source
                            assert forall|j: int|
                                old(g).nodes@.len() <= j < g.nodes@.len() && #[trigger] g.live(
                                    j,
                                ) implies exists|e2: int| data_into(*g, e2, j) by {
                                if j == cf as int {
                                    assert(data_into(*g, g_c.edges@.len() as int, j));
                                } else {
                                    assert(j < g_c.nodes@.len());
                                    assert(g_c.live(j));
                                    let ew = choose|ew: int| data_into(g_c, ew, j);
                                    assert(g_c.edge_at(ew).dst == j);
                                    assert(ew != de as int);
                                    assert(g.edges@[ew] == g_c.edges@[ew]);
                                    assert(data_into(*g, ew, j));
                                }
                            }
                            // the retrieval bookkeeping is untouched; its
                            // members (functions and host copies) are not
                            // prints, so their data edges survive unchanged
                            assert forall|y: usize|
                                #[trigger] g.to_retrieve@.contains(y) && g.live(y as int) implies
                            is_function(g.op_of(y as int)) || g.op_of(y as int)
                                is CopyFromDevice by {
                                assert(g_c.to_retrieve@.contains(y));
                                assert((y as int) < g_c.nodes@.len());
                                assert(g_c.live(y as int) && g_c.op_of(y as int) == g.op_of(
                                    y as int,
                                ));
                            }
                            assert(retrieval_done(*g));
                            assert forall|n2: usize, e2: int|
                                g_c.to_retrieve@.contains(n2) && g_c.live(n2 as int) implies (
                            #[trigger] data_into(*g, e2, n2 as int) <==> data_into(
                                g_c,
                                e2,
                                n2 as int,
                            )) by {
                                if e2 == de {
                                    assert(g.edge_at(e2).dst == i as usize);
                                    assert(g_c.edge_at(e2).dst == i as usize);
                                    assert(g.edge_at(e2).dep is Data && g_c.edge_at(e2).dep
                                        is Data);
                                } else if e2 == g_c.edges@.len() {
                                    assert((n2 as int) < g_c.nodes@.len());
                                    assert(g.edge_at(e2).dst == cf && cf != n2);
                                }
                            }
                            assert forall|n2: usize|
                                #[trigger] g_c.to_retrieve@.contains(n2) && g_c.live(n2 as int)
                                    && g_c.op_of(n2 as int) is CopyToDevice implies ({
                                let de2 = first_data_in(g_c, n2 as int)->Some_0;
                                g.edges@[de2] == g_c.edges@[de2]
                            }) by {
                                assert(is_function(g_c.op_of(n2 as int)) || g_c.op_of(n2 as int)
                                    is CopyFromDevice);
                                assert(false);
                            }
                            lemma_retrieval_frame(g_c, *g, g_c.nodes@.len() as int);
                            assert forall|e2: int|
                                0 <= e2 < old(g).edges@.len() implies #[trigger] g.e_live(e2)
                                    == old(g).e_live(e2) && (old(g).e_live(e2) ==> g.edge_at(
                                    e2,
                                ).dst == old(g).edge_at(e2).dst && dep_view_kept(
                                    old(g).edge_at(e2).dep,
                                    g.edge_at(e2).dep,
                                ) && (g.edge_at(e2).src == old(g).edge_at(e2).src || old(
                                    g,
                                ).nodes@.len() <= g.edge_at(e2).src)) by {
                                assert(g_c.e_live(e2) == old(g).e_live(e2));
                                if e2 == de {
                                    assert(g.e_live(e2) && g_c.e_live(e2));
                                    assert(g.edge_at(e2).dst == g_c.edge_at(e2).dst);
                                    assert(g.edge_at(e2).src == cf);
                                    assert(cf == g_c.nodes@.len());
                                    assert(old(g).nodes@.len() <= g_c.nodes@.len());
                                    // the rerouted print edge keeps its view
                                    assert(g_c.edge_at(e2).dep is Data);
                                    assert(dep_view_kept(
                                        g_c.edge_at(e2).dep,
                                        g.edge_at(e2).dep,
                                    ));
                                    assert(dep_view_kept(
                                        old(g).edge_at(e2).dep,
                                        g.edge_at(e2).dep,
                                    ));
                                } else if e2 == g_c.edges@.len() {
                                    assert(false);
                                } else {
                                    assert(g.edges@[e2] == g_c.edges@[e2]);
                                    assert(g.e_live(e2) == g_c.e_live(e2));
                                    if old(g).e_live(e2) {
                                        assert(g_c.edge_at(e2).dst == old(g).edge_at(e2).dst);
                                        assert(dep_view_kept(
                                            old(g).edge_at(e2).dep,
                                            g_c.edge_at(e2).dep,
                                        ));
                                        assert(g_c.edge_at(e2).src == old(g).edge_at(e2).src
                                            || old(g).nodes@.len() <= g_c.edge_at(e2).src);
                                    }
                                }
                            }
                            assert(edges_extended(*old(g), *g));
                            if boundaries_done(*old(g)) {
                                assert(boundaries_done(g_c));
                                // a print's input source cannot be a function
                                // whose boundaries are done: such a function
                                // feeds only device copies
                                assert(g_c.e_live(de as int) && g_c.edge_at(de as int).src == s
                                    && g_c.edge_at(de as int).dst == i);
                                if g_c.live(s as int) && is_function(g_c.op_of(s as int)) {
                                    assert(g_c.has_out_edge(s as int));
                                    assert(fn_boundary_ok(g_c, s as int));
                                    assert(g_c.op_of(i as int) is CopyToDevice);
                                    assert(false);
                                }
                                assert forall|j: int|
                                    g.live(j) && is_function(#[trigger] g.op_of(j))
                                        && g.has_out_edge(j) implies fn_boundary_ok(*g, j) by {
                                    assert(j < g_c.nodes@.len() && g_c.live(j) && g_c.op_of(j)
                                        == g.op_of(j));
                                    assert(j != s);
                                    let we = choose|we: int|
                                        g.e_live(we) && (#[trigger] g.edge_at(we)).src == j;
                                    if we == de {
                                        assert(g.edge_at(we).src == cf);
                                        assert(false);
                                    }
                                    if we == g_c.edges@.len() {
                                        assert(g.edge_at(we).src == s);
                                        assert(false);
                                    }
                                    assert(g_c.e_live(we) && g_c.edge_at(we) == g.edge_at(we));
                                    assert(g_c.has_out_edge(j));
                                    assert(fn_boundary_ok(g_c, j));
                                    assert forall|e2: int|
                                        g.e_live(e2) && (#[trigger] g.edge_at(e2)).src == j
                                            implies g.op_of(g.edge_at(e2).dst as int)
                                        is CopyToDevice by {
                                        if e2 == de {
                                            assert(g.edge_at(e2).src == cf && cf != j);
                                            assert(false);
                                        } else if e2 == g_c.edges@.len() {
                                            assert(g.edge_at(e2).src == s && s != j);
                                            assert(false);
                                        } else {
                                            assert(g_c.e_live(e2) && g_c.edge_at(e2) == g.edge_at(
                                                e2,
                                            ));
                                            assert(g.edge_at(e2).dst != cf);
                                        }
                                    }
                                    assert forall|e2: int|
                                        g.e_live(e2) && (#[trigger] g.edge_at(e2)).dst == j
                                            implies g.op_of(g.edge_at(e2).src as int)
                                        is CopyFromDevice by {
                                        if e2 == de {
                                            assert(g.edge_at(e2).dst == i);
                                            assert(is_print(g_c.op_of(i as int)));
                                            assert(false);
                                        } else if e2 == g_c.edges@.len() {
                                            assert(g.edge_at(e2).dst == cf && cf != j);
                                            assert(false);
                                        } else {
                                            assert(g_c.e_live(e2) && g_c.edge_at(e2) == g.edge_at(
                                                e2,
                                            ));
                                            assert(g.edge_at(e2).src != cf);
                                        }
                                    }
                                }
                            }
                            // the fixed print and every print already done
                            // keep reading their first data input from a
                            // host-bound copy
                            assert forall|j: int|
                                0 <= j < i + 1 && g.live(j) && is_print(#[trigger] g.op_of(j))
                                    implies match first_data_in(*g, j) {
                                Some(fd) => g.op_of(g.edge_at(fd).src as int) is CopyFromDevice,
                                None => true,
                            } by {
                                assert(g_c.live(j) && g_c.op_of(j) == g.op_of(j));
                                assert forall|e2: int|
                                    0 <= e2 implies (#[trigger] data_into(*g, e2, j) <==> data_into(
                                    g_c,
                                    e2,
                                    j,
                                )) by {
                                    if e2 == de {
                                        assert(g.edge_at(e2).dst == i && g.edge_at(e2).dep
                                            is Data);
                                        assert(g_c.edge_at(e2).dst == i && g_c.edge_at(e2).dep
                                            is Data);
                                    } else if e2 == g_c.edges@.len() {
                                        assert(!(g.e_live(e2) && g.edge_at(e2).dst == j));
                                    } else if 0 <= e2 < g_c.edges@.len() {
                                        assert(g.edges@[e2] == g_c.edges@[e2]);
                                    }
                                }
                                lemma_first_data_in_frame(g_c, *g, j, 0);
                                if j == i as int {
                                    match first_data_in(*g, j) {
                                        Some(fd) => {
                                            lemma_first_data_in_props(g_c, j, 0);
                                            assert(fd == de);
                                            assert(g.edge_at(fd).src == cf);
                                        },
                                        None => {},
                                    }
                                } else {
                                    match first_data_in(*g, j) {
                                        Some(fd) => {
                                            lemma_first_data_in_props(g_c, j, 0);
                                            assert(data_into(g_c, fd, j));
                                            assert(fd != de && fd != g_c.edges@.len());
                                            assert(g.edges@[fd] == g_c.edges@[fd]);
                                            assert(g_c.op_of(g_c.edge_at(fd).src as int)
                                                is CopyFromDevice);
                                            assert(g.op_of(g.edge_at(fd).src as int) == g_c.op_of(
                                                g_c.edge_at(fd).src as int,
                                            ));
                                        },
                                        None => {},
                                    }
                                }
                            }
                        }
                    }
                },
                None => {},
            }
        }
        proof {
            assert forall|j: int|
                0 <= j < i + 1 && g.live(j) && is_print(#[trigger] g.op_of(j)) implies match
                first_data_in(*g, j) {
                Some(fd) => g.op_of(g.edge_at(fd).src as int) is CopyFromDevice,
                None => true,
            } by {}
        }
        i = i + 1;
    }
    proof {
        assert forall|j: int|
            g.live(j) && is_print(#[trigger] g.op_of(j)) implies match first_data_in(*g, j) {
            Some(fd) => g.op_of(g.edge_at(fd).src as int) is CopyFromDevice,
            None => true,
        } by {
            if j >= n0 {
                assert(is_copy(g.nodes@[j]->Some_0));
                assert(false);
            }
        }
    }
}

/// The device operator for an abstract primitive, when it is of a
/// recognized kind and its input views suffice.
fn build_replacement(op: &NodeOp, shapes: &Vec<ShapeTracker>, elem: ElemKind) -> (r: Option<
    NodeOp,
>)
    ensures
        match r {
            Some(newop) => *op matches NodeOp::Prim(k) && recognized(k) && shapes@.len()
                >= arity_of(k) && device_sub_ok(
                newop,
                k,
                shapes@.map_values(|st: ShapeTracker| st.axes@),
                elem,
            ),
            None => !(*op matches NodeOp::Prim(k) && recognized(k) && shapes@.len() >= arity_of(
                k,
            )),
        },
{
    let ghost views = shapes@.map_values(|st: ShapeTracker| st.axes@);
    match op {
        NodeOp::Prim(k) => {
            match k {
                PrimKind::Log2 => Some(NodeOp::Log2(CudaLog2::new(elem))),
                PrimKind::Exp2 => Some(NodeOp::Exp2(CudaExp2::new(elem))),
                PrimKind::Sin => Some(NodeOp::Sin(CudaSin::new(elem))),
                PrimKind::Sqrt => Some(NodeOp::Sqrt(CudaSqrt::new(elem))),
                PrimKind::Recip => Some(NodeOp::Recip(CudaRecip::new(elem))),
                PrimKind::Constant(v) => {
                    let dup = match v {
                        crate::prim::ConstantValue::Float(bits) => {
                            crate::prim::ConstantValue::Float(*bits)
                        },
                        crate::prim::ConstantValue::Expr(ex) => {
                            let mut terms: Vec<crate::expr::Term> = Vec::new();
                            let mut t: usize = 0;
                            while t < ex.terms.len()
                                invariant
                                    0 <= t <= ex.terms@.len(),
                                    terms@ =~= ex.terms@.subrange(0, t as int),
                                decreases ex.terms@.len() - t,
                            {
                                terms.push(ex.terms[t]);
                                t = t + 1;
                            }
                            proof {
                                assert(terms@ =~= ex.terms@);
                            }
                            crate::prim::ConstantValue::Expr(crate::expr::Expression { terms })
                        },
                    };
                    proof {
                        assert(const_eq(dup, *v));
                    }
                    Some(NodeOp::Constant(CudaConstant::new(dup)))
                },
                PrimKind::Contiguous => {
                    if shapes.len() >= 1 {
                        proof {
                            assert(views[0] == shapes@[0].axes@);
                        }
                        Some(NodeOp::Contiguous(CudaContiguous::new(&shapes[0], elem)))
                    } else {
                        None
                    }
                },
                PrimKind::Add => {
                    if shapes.len() >= 2 {
                        proof {
                            assert(views[0] == shapes@[0].axes@ && views[1] == shapes@[1].axes@);
                        }
                        Some(NodeOp::Add(CudaAdd::new(&shapes[0], &shapes[1], elem)))
                    } else {
                        None
                    }
                },
                PrimKind::Mul => {
                    if shapes.len() >= 2 {
                        proof {
                            assert(views[0] == shapes@[0].axes@ && views[1] == shapes@[1].axes@);
                        }
                        Some(NodeOp::Mul(CudaMul::new(&shapes[0], &shapes[1], elem)))
                    } else {
                        None
                    }
                },
                PrimKind::Mod => {
                    if shapes.len() >= 2 {
                        proof {
                            assert(views[0] == shapes@[0].axes@ && views[1] == shapes@[1].axes@);
                        }
                        Some(NodeOp::Mod(CudaMod::new(&shapes[0], &shapes[1], elem)))
                    } else {
                        None
                    }
                },
                PrimKind::LessThan => {
                    if shapes.len() >= 2 {
                        proof {
                            assert(views[0] == shapes@[0].axes@ && views[1] == shapes@[1].axes@);
                        }
                        Some(NodeOp::LessThan(CudaLessThan::new(&shapes[0], &shapes[1], elem)))
                    } else {
                        None
                    }
                },
                PrimKind::SumReduce(d) => {
                    if shapes.len() >= 1 {
                        proof {
                            assert(views[0] == shapes@[0].axes@);
                        }
                        Some(NodeOp::SumReduce(CudaSumReduce::new(*d, &shapes[0], elem)))
                    } else {
                        None
                    }
                },
                PrimKind::MaxReduce(d) => {
                    if shapes.len() >= 1 {
                        proof {
                            assert(views[0] == shapes@[0].axes@);
                        }
                        Some(NodeOp::MaxReduce(CudaMaxReduce::new(*d, &shapes[0], elem)))
                    } else {
                        None
                    }
                },
                PrimKind::Function => None,
                PrimKind::Print => None,
                PrimKind::Other => None,
            }
        },
        _ => None,
    }
}

/// Stage four of the substitution pass: replace every abstract primitive of
/// a recognized kind, in place, with the device operator built from its
/// ordered input views and the element type. A primitive short of inputs is
/// skipped silently.
fn stage_substitute(g: &mut Graph, elem: ElemKind)
    requires
        old(g).wf(),
    ensures
        final(g).wf(),
        substitution_done(*old(g)) ==> *final(g) == *old(g),
        final(g).edges@ == old(g).edges@,
        final(g).no_delete@ == old(g).no_delete@,
        final(g).to_retrieve@ == old(g).to_retrieve@,
        final(g).dyn_map == old(g).dyn_map,
        final(g).nodes@.len() == old(g).nodes@.len(),
        forall|i: int|
            0 <= i < old(g).nodes@.len() ==> (if old(g).live(i) {
                final(g).live(i) && subst_ok(
                    old(g).op_of(i),
                    #[trigger] final(g).op_of(i),
                    input_views(old(g).edges@, i),
                    elem,
                )
            } else {
                final(g).nodes@[i] is None
            }),
{
    let n0 = g.nodes.len();
    let mut i: usize = 0;
    while i < n0
        invariant
            0 <= i <= n0 == old(g).nodes@.len(),
            g.wf(),
            g.edges@ == old(g).edges@,
            g.no_delete@ == old(g).no_delete@,
            g.to_retrieve@ == old(g).to_retrieve@,
            g.dyn_map == old(g).dyn_map,
            g.nodes@.len() == old(g).nodes@.len(),
            substitution_done(*old(g)) ==> *g == *old(g),
            forall|j: int|
                0 <= j < i ==> (if old(g).live(j) {
                    g.live(j) && subst_ok(
                        old(g).op_of(j),
                        #[trigger] g.op_of(j),
                        input_views(old(g).edges@, j),
                        elem,
                    )
                } else {
                    g.nodes@[j] is None
                }),
            forall|j: int| i <= j < n0 ==> g.nodes@[j] == old(g).nodes@[j],
        decreases n0 - i,
    {
        let ghost g_entry = *g;
        let shapes = input_shapes_ordered(g, i);
        let replacement: Option<NodeOp> = match &g.nodes[i] {
            Some(op) => build_replacement(op, &shapes, elem),
            None => None,
        };
        match replacement {
            Some(op) => {
                proof {
                    assert(shapes@.map_values(|st: ShapeTracker| st.axes@) == input_views(
                        old(g).edges@,
                        i as int,
                    ));
                    assert(input_views(old(g).edges@, i as int).len() == shapes@.len());
                    if substitution_done(*old(g)) {
                        assert(*g == *old(g));
                        assert(old(g).live(i as int));
                        assert(false);
                    }
                }
                g.set_node_op(i, op);
                proof {
                    assert(g.op_of(i as int) == op);
                    assert(subst_ok(
                        old(g).op_of(i as int),
                        op,
                        input_views(old(g).edges@, i as int),
                        elem,
                    ));
                }
            },
            None => {
                proof {
                    assert(shapes@.map_values(|st: ShapeTracker| st.axes@) == input_views(
                        old(g).edges@,
                        i as int,
                    ));
                    assert(input_views(old(g).edges@, i as int).len() == shapes@.len());
                    if old(g).live(i as int) {
                        assert(g.op_of(i as int) == old(g).op_of(i as int));
                        assert(subst_ok(
                            old(g).op_of(i as int),
                            g.op_of(i as int),
                            input_views(old(g).edges@, i as int),
                            elem,
                        ));
                    }
                }
            },
        }
        proof {
            assert forall|j: int|
                0 <= j < i + 1 implies (if old(g).live(j) {
                g.live(j) && subst_ok(
                    old(g).op_of(j),
                    #[trigger] g.op_of(j),
                    input_views(old(g).edges@, j),
                    elem,
                )
            } else {
                g.nodes@[j] is None
            }) by {
                if j < i {
                    assert(g.nodes@[j] == g_entry.nodes@[j]);
                    if old(g).live(j) {
                        assert(g_entry.live(j) && subst_ok(
                            old(g).op_of(j),
                            g_entry.op_of(j),
                            input_views(old(g).edges@, j),
                            elem,
                        ));
                        assert(g.op_of(j) == g_entry.op_of(j));
                    }
                }
            }
        }
        i = i + 1;
    }
}

/// The primitive substitution pass: routes every function's outputs and
/// inputs through host/device boundary copies, copies every retrieval point
/// back to the host (handing a retrieved device copy's bookkeeping back to
/// the function that feeds it), feeds prints from the host, and replaces
/// every abstract primitive of a recognized kind, in place, with the device
/// operator synthesized from its ordered input views and the element type.
/// Its contract pins the whole effect: the output is lowered, edges are
/// never dropped or retargeted (producers move only onto inserted copies),
/// and the retrieval, keep-alive and external-reference bookkeeping moves
/// only onto inserted copies or live functions. The pass is idempotent: on
/// an already-lowered graph it changes nothing.
pub struct CudaPrimitiveCompiler {
    pub elem: ElemKind,
}

impl CudaPrimitiveCompiler {
    pub fn compile(&self, g: &mut Graph, remap: &mut Vec<usize>)
        requires
            old(g).wf(),
            no_retrieved_device_copies(*old(g)),
            retrieve_in_range(*old(g)),
            retrieved_have_inputs(*old(g)),
        ensures
            final(g).wf(),
            lowered(*old(g)) ==> *final(g) == *old(g) && final(remap)@ == old(remap)@,
            lowered(*final(g)),
            retrieval_done(*final(g)),
            no_retrieved_device_copies(*final(g)),
            retrieve_in_range(*final(g)),
            retrieved_have_inputs(*final(g)),
            // bookkeeping moves only onto the inserted copies or live
            // functions; marked functions stay marked, unretrieved
            // keep-alive marks are untouched, and external references are
            // redirected only onto the inserted copies
            forall|y: usize|
                final(g).to_retrieve@.contains(y) ==> old(g).to_retrieve@.contains(y) || old(
                    g,
                ).nodes@.len() <= y < final(g).nodes@.len() || (final(g).live(y as int)
                    && is_function(final(g).op_of(y as int))),
            forall|y: usize|
                final(g).no_delete@.contains(y) ==> old(g).no_delete@.contains(y) || old(
                    g,
                ).nodes@.len() <= y < final(g).nodes@.len() || (final(g).live(y as int)
                    && is_function(final(g).op_of(y as int))),
            forall|y: usize|
                old(g).to_retrieve@.contains(y) && old(g).live(y as int) && is_function(
                    old(g).op_of(y as int),
                ) ==> final(g).to_retrieve@.contains(y),
            forall|y: usize|
                old(g).no_delete@.contains(y) && old(g).live(y as int) && !old(
                    g,
                ).to_retrieve@.contains(y) ==> final(g).no_delete@.contains(y),
            final(remap)@.len() == old(remap)@.len(),
            forall|j: int|
                0 <= j < old(remap)@.len() ==> final(remap)@[j] == old(remap)@[j] || old(
                    g,
                ).nodes@.len() <= final(remap)@[j] < final(g).nodes@.len(),
            edges_extended(*old(g), *final(g)),
            final(g).nodes@.len() >= old(g).nodes@.len(),
            forall|i: int|
                0 <= i < old(g).nodes@.len() ==> (if old(g).live(i) {
                    final(g).live(i) && subst_ok(
                        old(g).op_of(i),
                        #[trigger] final(g).op_of(i),
                        input_views(final(g).edges@, i),
                        self.elem,
                    )
                } else {
                    final(g).nodes@[i] is None
                }),
            forall|j: int|
                old(g).nodes@.len() <= j < final(g).nodes@.len() && final(g).nodes@[j] is Some
                    ==> is_copy(#[trigger] final(g).nodes@[j]->Some_0),
            substitution_done(*final(g)),
            boundaries_done(*final(g)),
            prints_done(*final(g)),
            // every node the pass added reads a data edge, so the fusion
            // pass always finds a source behind an inserted pair
            inserted_have_inputs(*old(g), *final(g)),
    {
        let ghost g0 = *g;
        stage_boundaries(g);
        let ghost g1 = *g;
        stage_retrieval(g, remap);
        let ghost g2 = *g;
        stage_prints(g);
        let ghost g3 = *g;
        stage_substitute(g, self.elem);
        proof {
            if lowered(g0) {
                assert(g1 == g0);
                assert(g2 == g1);
                assert(g3 == g2);
                assert(*g == g3);
            }
            // old payloads reach the substitution stage unchanged
            assert forall|i: int|
                0 <= i < g0.nodes@.len() implies g3.nodes@[i] == g0.nodes@[i] by {
                assert(g1.nodes@[i] == g0.nodes@[i]);
                assert(g2.nodes@[i] == g1.nodes@[i]);
            }
            assert forall|i: int|
                0 <= i < g0.nodes@.len() implies (if g0.live(i) {
                g.live(i) && subst_ok(
                    g0.op_of(i),
                    #[trigger] g.op_of(i),
                    input_views(g.edges@, i),
                    self.elem,
                )
            } else {
                g.nodes@[i] is None
            }) by {
                assert(g3.nodes@[i] == g0.nodes@[i]);
                if g0.live(i) {
                    assert(g3.live(i));
                    assert(g3.op_of(i) == g0.op_of(i));
                    assert(g.edges@ == g3.edges@);
                } else {
                    assert(!g3.live(i));
                }
            }
            // nodes the stages added are boundary copies, and the
            // substitution stage leaves them alone
            assert forall|j: int|
                g0.nodes@.len() <= j < g.nodes@.len() && g.nodes@[j] is Some implies is_copy(
                #[trigger] g.nodes@[j]->Some_0,
            ) by {
                assert(g.nodes@.len() == g3.nodes@.len());
                assert(g3.live(j));
                assert(subst_ok(g3.op_of(j), g.op_of(j), input_views(g3.edges@, j), self.elem));
                if j < g1.nodes@.len() {
                    if j < g0.nodes@.len() {
                    } else {
                        assert(is_copy(g1.nodes@[j]->Some_0));
                        assert(g3.nodes@[j] == g1.nodes@[j]);
                    }
                } else if j < g2.nodes@.len() {
                    assert(is_copy(g2.nodes@[j]->Some_0));
                    assert(g3.nodes@[j] == g2.nodes@[j]);
                } else {
                    assert(is_copy(g3.nodes@[j]->Some_0));
                }
            }
            // the edge frame composes across the four stages
            assert forall|e2: int|
                0 <= e2 < old(g).edges@.len() implies #[trigger] g.e_live(e2) == old(g).e_live(e2)
                    && (old(g).e_live(e2) ==> g.edge_at(e2).dst == old(g).edge_at(e2).dst
                    && dep_view_kept(old(g).edge_at(e2).dep, g.edge_at(e2).dep) && (g.edge_at(
                    e2,
                ).src == old(g).edge_at(e2).src || old(g).nodes@.len() <= g.edge_at(e2).src)) by {
                assert(g.edges@[e2] == g3.edges@[e2]);
                assert(g1.e_live(e2) == old(g).e_live(e2));
                assert(e2 < g1.edges@.len());
                assert(g2.e_live(e2) == g1.e_live(e2));
                assert(e2 < g2.edges@.len());
                assert(g3.e_live(e2) == g2.e_live(e2));
                assert(g.e_live(e2) == g3.e_live(e2));
                if old(g).e_live(e2) {
                    assert(g1.edge_at(e2).dst == old(g).edge_at(e2).dst);
                    assert(g2.edge_at(e2).dst == g1.edge_at(e2).dst);
                    assert(g3.edge_at(e2).dst == g2.edge_at(e2).dst);
                    assert(dep_view_kept(old(g).edge_at(e2).dep, g1.edge_at(e2).dep));
                    assert(dep_view_kept(g1.edge_at(e2).dep, g2.edge_at(e2).dep));
                    assert(dep_view_kept(g2.edge_at(e2).dep, g3.edge_at(e2).dep));
                    assert(dep_view_kept(old(g).edge_at(e2).dep, g3.edge_at(e2).dep));
                    assert(old(g).nodes@.len() <= g1.nodes@.len() <= g2.nodes@.len());
                    assert(g1.edge_at(e2).src == old(g).edge_at(e2).src || old(g).nodes@.len()
                        <= g1.edge_at(e2).src);
                    assert(g2.edge_at(e2).src == g1.edge_at(e2).src || g1.nodes@.len()
                        <= g2.edge_at(e2).src);
                    assert(g3.edge_at(e2).src == g2.edge_at(e2).src || g2.nodes@.len()
                        <= g3.edge_at(e2).src);
                }
            }
            assert(edges_extended(*old(g), *g));
            // the data edge behind every inserted node survives the later
            // stages: no stage removes an edge or changes a consumer
            assert forall|j: int|
                old(g).nodes@.len() <= j < g1.nodes@.len() && #[trigger] g2.live(j) implies
            g1.live(j) by {
                assert(g2.nodes@[j] == g1.nodes@[j]);
            }
            assert forall|e: int|
                0 <= e < g1.edges@.len() implies (#[trigger] g2.e_live(e) == g1.e_live(e)) && (
            g1.e_live(e) ==> g2.edge_at(e).dst == g1.edge_at(e).dst && (g2.edge_at(e).dep
                is Data <==> g1.edge_at(e).dep is Data)) by {
                if g1.e_live(e) {
                    assert(dep_view_kept(g1.edge_at(e).dep, g2.edge_at(e).dep));
                }
            }
            lemma_inserted_inputs_frame(*old(g), g1, g2);
            assert forall|j: int|
                old(g).nodes@.len() <= j < g2.nodes@.len() && #[trigger] g3.live(j) implies
            g2.live(j) by {
                assert(g3.nodes@[j] == g2.nodes@[j]);
            }
            assert forall|e: int|
                0 <= e < g2.edges@.len() implies (#[trigger] g3.e_live(e) == g2.e_live(e)) && (
            g2.e_live(e) ==> g3.edge_at(e).dst == g2.edge_at(e).dst && (g3.edge_at(e).dep
                is Data <==> g2.edge_at(e).dep is Data)) by {
                if g2.e_live(e) {
                    assert(dep_view_kept(g2.edge_at(e).dep, g3.edge_at(e).dep));
                }
            }
            lemma_inserted_inputs_frame(*old(g), g2, g3);
            assert forall|j: int|
                old(g).nodes@.len() <= j < g3.nodes@.len() && #[trigger] g.live(j) implies
            g3.live(j) by {
                if g3.live(j) {
                } else {
                    let o = g.op_of(j);
                    assert(subst_ok(g3.op_of(j), o, input_views(g3.edges@, j), self.elem)
                        || g.nodes@[j] is None);
                    assert(g.nodes@[j] is None);
                    assert(false);
                }
            }
            assert forall|e: int|
                0 <= e < g3.edges@.len() implies (#[trigger] g.e_live(e) == g3.e_live(e)) && (
            g3.e_live(e) ==> g.edge_at(e).dst == g3.edge_at(e).dst && (g.edge_at(e).dep is Data
                <==> g3.edge_at(e).dep is Data)) by {
                assert(g.edges@[e] == g3.edges@[e]);
            }
            assert forall|j: int|
                g3.nodes@.len() <= j < g.nodes@.len() && #[trigger] g.live(j) implies exists|
            e: int| data_into(*g, e, j) by {
                assert(false);
            }
            lemma_inserted_inputs_frame(*old(g), g3, *g);
            assert(inserted_have_inputs(*old(g), *g));
            // the retrieval discipline the second stage set up survives:
            // the sets are untouched afterwards and the substitution leaves
            // functions and copies alone
            assert(retrieval_done(g3) && retrieve_in_range(g3) && retrieved_have_inputs(g3));
            assert(g.to_retrieve@ == g3.to_retrieve@ && g.no_delete@ == g3.no_delete@);
            assert forall|y: usize|
                #[trigger] g.to_retrieve@.contains(y) && g.live(y as int) implies is_function(
                g.op_of(y as int),
            ) || g.op_of(y as int) is CopyFromDevice by {
                assert((y as int) < g3.nodes@.len());
                assert(g3.live(y as int));
                assert(subst_ok(g3.op_of(y as int), g.op_of(y as int), input_views(g3.edges@, y as int), self.elem));
                assert(is_function(g3.op_of(y as int)) || g3.op_of(y as int) is CopyFromDevice);
                match g3.op_of(y as int) {
                    NodeOp::Prim(kk) => {
                        assert(!recognized(kk));
                        assert(g.op_of(y as int) == g3.op_of(y as int));
                    },
                    _ => {
                        assert(g.op_of(y as int) == g3.op_of(y as int));
                    },
                }
            }
            assert(retrieval_done(*g));
            assert forall|y: usize|
                #[trigger] g.to_retrieve@.contains(y) && g.live(y as int) && !is_function(
                    g.op_of(y as int),
                ) implies first_data_in(*g, y as int) is Some by {
                assert((y as int) < g3.nodes@.len());
                assert(g3.live(y as int));
                assert(subst_ok(g3.op_of(y as int), g.op_of(y as int), input_views(g3.edges@, y as int), self.elem));
                assert(g3.op_of(y as int) is CopyFromDevice);
                assert(g.op_of(y as int) == g3.op_of(y as int));
                assert(!is_function(g3.op_of(y as int)));
                assert(first_data_in(g3, y as int) is Some);
                lemma_first_data_in_props(g3, y as int, 0);
                let de = first_data_in(g3, y as int)->Some_0;
                assert(g.edges@[de] == g3.edges@[de]);
                assert(data_into(*g, de, y as int));
                lemma_first_data_some(*g, y as int, de, 0);
            }
            assert(retrieved_have_inputs(*g));
            assert(retrieve_in_range(*g));
            // the retrieval-set movement clauses compose across the stages
            assert forall|y: usize|
                #[trigger] g.to_retrieve@.contains(y) implies old(g).to_retrieve@.contains(y)
                    || old(g).nodes@.len() <= y < g.nodes@.len() || (g.live(y as int)
                    && is_function(g.op_of(y as int))) by {
                if !(old(g).nodes@.len() <= y < g.nodes@.len()) {
                    assert(g2.to_retrieve@.contains(y));
                    assert((y as int) < g.nodes@.len());
                    assert(old(g).nodes@.len() <= g1.nodes@.len() <= g2.nodes@.len()
                        <= g3.nodes@.len() == g.nodes@.len());
                    assert((y as int) < old(g).nodes@.len());
                    if g1.to_retrieve@.contains(y) {
                        if !old(g).to_retrieve@.contains(y) {
                            assert(old(g).nodes@.len() <= y < g1.nodes@.len());
                            assert(false);
                        }
                    } else {
                        if g1.nodes@.len() <= y < g2.nodes@.len() {
                            assert(false);
                        }
                        assert(g2.live(y as int) && is_function(g2.op_of(y as int)));
                        assert((y as int) < g2.nodes@.len());
                        assert(g3.nodes@[y as int] == g2.nodes@[y as int]);
                        assert(subst_ok(g3.op_of(y as int), g.op_of(y as int), input_views(g3.edges@, y as int), self.elem));
                        assert(g.op_of(y as int) == g3.op_of(y as int));
                        assert(g.live(y as int) && is_function(g.op_of(y as int)));
                    }
                }
            }
            assert forall|y: usize|
                #[trigger] g.no_delete@.contains(y) implies old(g).no_delete@.contains(y) || old(
                    g,
                ).nodes@.len() <= y < g.nodes@.len() || (g.live(y as int) && is_function(
                    g.op_of(y as int),
                )) by {
                if !(old(g).nodes@.len() <= y < g.nodes@.len()) {
                    assert(g2.no_delete@.contains(y));
                    assert(old(g).nodes@.len() <= g1.nodes@.len() <= g2.nodes@.len()
                        <= g3.nodes@.len() == g.nodes@.len());
                    if g1.no_delete@.contains(y) {
                        assert(old(g).no_delete@.contains(y));
                    } else {
                        if g1.nodes@.len() <= y < g2.nodes@.len() {
                            assert(false);
                        }
                        assert(g2.live(y as int) && is_function(g2.op_of(y as int)));
                        assert((y as int) < g2.nodes@.len());
                        assert((y as int) < old(g).nodes@.len());
                        assert(g3.nodes@[y as int] == g2.nodes@[y as int]);
                        assert(subst_ok(g3.op_of(y as int), g.op_of(y as int), input_views(g3.edges@, y as int), self.elem));
                        assert(g.op_of(y as int) == g3.op_of(y as int));
                        assert(g.live(y as int) && is_function(g.op_of(y as int)));
                    }
                }
            }
            assert forall|y: usize|
                old(g).no_delete@.contains(y) && old(g).live(y as int) && !old(
                    g,
                ).to_retrieve@.contains(y) implies g.no_delete@.contains(y) by {
                assert(g1.no_delete@ == old(g).no_delete@);
                assert((y as int) < old(g).nodes@.len());
                if g1.to_retrieve@.contains(y) {
                    assert(old(g).to_retrieve@.contains(y) || old(g).nodes@.len() <= y
                        < g1.nodes@.len());
                    assert(false);
                }
                assert(g2.no_delete@.contains(y));
            }
            assert forall|y: usize|
                old(g).to_retrieve@.contains(y) && old(g).live(y as int) && is_function(
                    #[trigger] old(g).op_of(y as int),
                ) implies g.to_retrieve@.contains(y) by {
                assert(g1.to_retrieve@.contains(y));
                assert(g1.nodes@[y as int] == old(g).nodes@[y as int]);
                assert(g1.live(y as int) && is_function(g1.op_of(y as int)));
                assert(g2.to_retrieve@.contains(y));
            }
            // the boundary discipline the first stage set up survives the
            // later stages: the substitution changes only recognized
            // primitives, never functions or copies
            assert(boundaries_done(g3));
            assert forall|j: int|
                g.live(j) && is_function(#[trigger] g.op_of(j)) && g.has_out_edge(j) implies
                fn_boundary_ok(*g, j) by {
                assert(g3.live(j));
                assert(subst_ok(g3.op_of(j), g.op_of(j), input_views(g3.edges@, j), self.elem));
                match g3.op_of(j) {
                    NodeOp::Prim(k) => {
                        if recognized(k) && input_views(g3.edges@, j).len() >= arity_of(k) {
                            assert(device_sub_ok(
                                g.op_of(j),
                                k,
                                input_views(g3.edges@, j),
                                self.elem,
                            ));
                            assert(!is_function(g.op_of(j)));
                            assert(false);
                        } else {
                            assert(g.op_of(j) == g3.op_of(j));
                        }
                    },
                    _ => {
                        assert(g.op_of(j) == g3.op_of(j));
                    },
                }
                assert(is_function(g3.op_of(j)));
                let we = choose|we: int| g.e_live(we) && (#[trigger] g.edge_at(we)).src == j;
                assert(g3.e_live(we) && g3.edge_at(we) == g.edge_at(we));
                assert(g3.has_out_edge(j));
                assert(fn_boundary_ok(g3, j));
                assert forall|e2: int|
                    g.e_live(e2) && (#[trigger] g.edge_at(e2)).src == j implies g.op_of(
                    g.edge_at(e2).dst as int,
                ) is CopyToDevice by {
                    assert(g3.e_live(e2) && g3.edge_at(e2) == g.edge_at(e2));
                    let d = g3.edge_at(e2).dst as int;
                    assert(g3.op_of(d) is CopyToDevice);
                    assert(g3.live(d));
                    assert(subst_ok(g3.op_of(d), g.op_of(d), input_views(g3.edges@, d), self.elem));
                    assert(g.op_of(d) == g3.op_of(d));
                }
                assert forall|e2: int|
                    g.e_live(e2) && (#[trigger] g.edge_at(e2)).dst == j implies g.op_of(
                    g.edge_at(e2).src as int,
                ) is CopyFromDevice by {
                    assert(g3.e_live(e2) && g3.edge_at(e2) == g.edge_at(e2));
                    let d = g3.edge_at(e2).src as int;
                    assert(g3.op_of(d) is CopyFromDevice);
                    assert(g3.live(d));
                    assert(subst_ok(g3.op_of(d), g.op_of(d), input_views(g3.edges@, d), self.elem));
                    assert(g.op_of(d) == g3.op_of(d));
                }
            }
            // prints keep reading from host-bound copies through the
            // substitution stage, which leaves prints and copies alone
            assert(prints_done(g3));
            assert forall|j: int|
                g.live(j) && is_print(#[trigger] g.op_of(j)) implies match first_data_in(*g, j) {
                Some(fd) => g.op_of(g.edge_at(fd).src as int) is CopyFromDevice,
                None => true,
            } by {
                assert(g3.live(j));
                assert(subst_ok(g3.op_of(j), g.op_of(j), input_views(g3.edges@, j), self.elem));
                match g3.op_of(j) {
                    NodeOp::Prim(k) => {
                        if recognized(k) && input_views(g3.edges@, j).len() >= arity_of(k) {
                            assert(device_sub_ok(
                                g.op_of(j),
                                k,
                                input_views(g3.edges@, j),
                                self.elem,
                            ));
                            assert(!is_print(g.op_of(j)));
                            assert(false);
                        } else {
                            assert(g.op_of(j) == g3.op_of(j));
                        }
                    },
                    _ => {
                        assert(g.op_of(j) == g3.op_of(j));
                    },
                }
                assert(is_print(g3.op_of(j)));
                assert forall|e2: int|
                    0 <= e2 implies (#[trigger] data_into(*g, e2, j) <==> data_into(
                    g3,
                    e2,
                    j,
                )) by {
                    if 0 <= e2 < g3.edges@.len() {
                        assert(g.edges@[e2] == g3.edges@[e2]);
                    }
                }
                lemma_first_data_in_frame(g3, *g, j, 0);
                match first_data_in(*g, j) {
                    Some(fd) => {
                        lemma_first_data_in_props(g3, j, 0);
                        assert(g.edges@[fd] == g3.edges@[fd]);
                        let d = g3.edge_at(fd).src as int;
                        assert(g3.op_of(d) is CopyFromDevice);
                        assert(g3.live(d));
                        assert(subst_ok(
                            g3.op_of(d),
                            g.op_of(d),
                            input_views(g3.edges@, d),
                            self.elem,
                        ));
                        assert(g.op_of(d) == g3.op_of(d));
                    },
                    None => {},
                }
            }
            // no recognized primitive with enough inputs is left
            assert forall|i: int|
                g.live(i) implies match #[trigger] g.op_of(i) {
                NodeOp::Prim(k) => !recognized(k) || input_views(g.edges@, i).len() < arity_of(k),
                _ => true,
            } by {
                assert(g3.live(i));
                assert(subst_ok(g3.op_of(i), g.op_of(i), input_views(g3.edges@, i), self.elem));
                match g3.op_of(i) {
                    NodeOp::Prim(k) => {
                        if recognized(k) && input_views(g3.edges@, i).len() >= arity_of(k) {
                            assert(device_sub_ok(
                                g.op_of(i),
                                k,
                                input_views(g3.edges@, i),
                                self.elem,
                            ));
                        }
                    },
                    _ => {},
                }
            }
        }
    }
}

/// The slot's content after rewiring out-edges of `from` to `to`.
pub open spec fn rewired_slot(g0: Graph, e: int, from: usize, to: usize) -> Option<Edge> {
    if g0.e_live(e) && g0.edge_at(e).src == from {
        Some(Edge { src: to, dst: g0.edge_at(e).dst, dep: g0.edge_at(e).dep })
    } else {
        g0.edges@[e]
    }
}

/// Rewire every live out-edge of `from` to leave `to` instead.
#[verifier::rlimit(100)]
#[verifier::spinoff_prover]
fn move_outgoing_edge(g: &mut Graph, from: usize, to: usize)
    requires
        old(g).wf(),
        old(g).live(to as int),
        forall|e: int|
            old(g).e_live(e) && (#[trigger] old(g).edge_at(e)).src == from ==> old(g).edge_at(
                e,
            ).dst != to,
    ensures
        final(g).wf(),
        final(g).nodes@ == old(g).nodes@,
        final(g).no_delete@ == old(g).no_delete@,
        final(g).to_retrieve@ == old(g).to_retrieve@,
        final(g).dyn_map == old(g).dyn_map,
        final(g).edges@.len() == old(g).edges@.len(),
        forall|e: int|
            0 <= e < old(g).edges@.len() ==> final(g).edges@[e] == rewired_slot(
                *old(g),
                e,
                from,
                to,
            ),
{
    let n = g.edges.len();
    let mut e: usize = 0;
    while e < n
        invariant
            0 <= e <= n == old(g).edges@.len(),
            g.edges@.len() == n,
            g.wf(),
            g.nodes@ == old(g).nodes@,
            g.no_delete@ == old(g).no_delete@,
            g.to_retrieve@ == old(g).to_retrieve@,
            g.dyn_map == old(g).dyn_map,
            old(g).live(to as int),
            forall|e2: int|
                old(g).e_live(e2) && (#[trigger] old(g).edge_at(e2)).src == from ==> old(
                    g,
                ).edge_at(e2).dst != to,
            forall|e2: int|
                0 <= e2 < e ==> g.edges@[e2] == rewired_slot(*old(g), e2, from, to),
            forall|e2: int| e <= e2 < n ==> g.edges@[e2] == old(g).edges@[e2],
        decreases n - e,
    {
        let hit = match &g.edges[e] {
            Some(edge) => edge.src == from,
            None => false,
        };
        let ghost prev = g.edges@;
        if hit {
            proof {
                assert(g.edges@[e as int] == old(g).edges@[e as int]);
                assert(old(g).e_live(e as int) && old(g).edge_at(e as int).src == from);
                assert(old(g).edge_at(e as int).dst != to);
                assert(g.edge_at(e as int).dst != to);
            }
            g.set_edge_src(e, to);
        }
        proof {
            assert forall|e2: int|
                0 <= e2 < e + 1 implies g.edges@[e2] == rewired_slot(*old(g), e2, from, to) by {
                if e2 < e {
                    assert(g.edges@[e2] == prev[e2]);
                } else {
                    assert(prev[e2] == old(g).edges@[e2]);
                    if hit {
                        assert(prev[e2] is Some);
                        assert(prev[e2]->Some_0 == old(g).edge_at(e2));
                        assert(g.edges@[e2] == prev.update(
                            e as int,
                            Some(
                                Edge {
                                    src: to,
                                    dst: prev[e as int]->Some_0.dst,
                                    dep: prev[e as int]->Some_0.dep,
                                },
                            ),
                        )[e2]);
                        assert(g.edges@[e2] == Some(
                            Edge {
                                src: to,
                                dst: old(g).edge_at(e2).dst,
                                dep: old(g).edge_at(e2).dep,
                            },
                        ));
                    } else {
                        assert(g.edges@[e2] == prev[e2]);
                        if old(g).e_live(e2) {
                            assert(prev[e2] is Some);
                        }
                    }
                }
            }
        }
        e = e + 1;
    }
}

/// The copy-fusion pass: repeatedly fuse an adjacent inverse copy pair whose
/// first node has only complementary copies as consumers and is not pinned,
/// rewiring every consumer of the pair to the pair's data source, until no
/// such pair is left. Each fusion strictly shrinks the graph, so the pass
/// terminates; on return no fusible adjacency remains except the pinned or
/// degenerate ones.
pub struct CopyCompiler {
}

impl CopyCompiler {
    #[verifier::rlimit(100)]
    #[verifier::spinoff_prover]
    pub fn compile(&self, g: &mut Graph, remap: &mut Vec<usize>)
        requires
            old(g).wf(),
        ensures
            final(g).wf(),
            // the fixed point: no fusible inverse pair is left unless pinned
            forall|e: int| fusible(*final(g), e) ==> fusion_blocked(*final(g), e),
            // when every candidate pair is already blocked, nothing changes
            (forall|e: int| fusible(*old(g), e) ==> fusion_blocked(*old(g), e)) ==> *final(g)
                == *old(g) && final(remap)@ == old(remap)@,
            // the pass only deletes copy nodes; every other node keeps its
            // slot and payload, and no node is added
            final(g).nodes@.len() == old(g).nodes@.len(),
            forall|j: int|
                0 <= j < old(g).nodes@.len() ==> final(g).nodes@[j] == old(g).nodes@[j] || (
                #[trigger] final(g).nodes@[j] is None && old(g).live(j) && is_copy(
                    old(g).op_of(j),
                )),
            // the pass adds no edge and never retargets or reweights one: a
            // surviving edge keeps its consumer and payload, and its
            // producer changed only because the old producer was a copy the
            // pass deleted
            final(g).edges@.len() == old(g).edges@.len(),
            forall|e: int|
                #[trigger] final(g).e_live(e) ==> old(g).e_live(e) && final(g).edge_at(e).dst
                    == old(g).edge_at(e).dst && final(g).edge_at(e).dep == old(g).edge_at(e).dep
                    && (final(g).edge_at(e).src == old(g).edge_at(e).src || (old(g).live(
                    old(g).edge_at(e).src as int,
                ) && is_copy(old(g).op_of(old(g).edge_at(e).src as int)) && !final(g).live(
                    old(g).edge_at(e).src as int,
                ))),
            // a surviving node keeps its bookkeeping marks; marks appear
            // only on nodes that were live (the fused pairs' data sources)
            forall|y: usize|
                old(g).to_retrieve@.contains(y) && final(g).live(y as int)
                    ==> final(g).to_retrieve@.contains(y),
            forall|y: usize|
                old(g).no_delete@.contains(y) && final(g).live(y as int)
                    ==> final(g).no_delete@.contains(y),
            forall|y: usize|
                #[trigger] final(g).to_retrieve@.contains(y) ==> old(g).to_retrieve@.contains(y)
                    || old(g).live(y as int),
            forall|y: usize|
                #[trigger] final(g).no_delete@.contains(y) ==> old(g).no_delete@.contains(y)
                    || old(g).live(y as int),
            // external references change only from a deleted copy
            final(remap)@.len() == old(remap)@.len(),
            forall|j: int|
                0 <= j < old(remap)@.len() ==> final(remap)@[j] == old(remap)@[j] || (old(g).live(
                    old(remap)@[j] as int,
                ) && is_copy(old(g).op_of(old(remap)@[j] as int)) && !final(g).live(
                    old(remap)@[j] as int,
                )),
            // a pinned node that no copy feeds survives with its payload and
            // both marks
            forall|y: usize|
                #[trigger] fusion_protected(*old(g), y) ==> final(g).live(y as int)
                    && final(g).nodes@[y as int] == old(g).nodes@[y as int]
                    && final(g).no_delete@.contains(y) && (old(g).to_retrieve@.contains(y)
                    ==> final(g).to_retrieve@.contains(y)),
            // a rewired edge reads from the data source of the pair (or
            // chain of pairs) whose deleted copies once stood between that
            // source and the edge's old producer
            forall|e: int|
                #[trigger] final(g).e_live(e) && final(g).edge_at(e).src != old(g).edge_at(e).src
                    ==> exists|fl: nat|
                    chain_from(
                        *old(g),
                        *final(g),
                        old(g).edge_at(e).src,
                        final(g).edge_at(e).src,
                        old(g).edge_at(e).src,
                        fl,
                    ),
            // a pair pinned through such a node keeps its edge byte for byte
            // while the second node lives (an overlapping pair may still
            // delete the second)
            forall|e: int|
                #[trigger] old(g).e_live(e) && fusion_protected(*old(g), old(g).edge_at(e).src)
                    && final(g).live(old(g).edge_at(e).dst as int) ==> final(g).e_live(e)
                    && final(g).edge_at(e).src == old(g).edge_at(e).src
                    && final(g).edge_at(e).dst == old(g).edge_at(e).dst
                    && final(g).edge_at(e).dep == old(g).edge_at(e).dep,
    {
        let ghost gz = *g;
        loop
            invariant
                g.wf(),
                (forall|e: int| fusible(gz, e) ==> fusion_blocked(gz, e)) ==> *g == gz && remap@
                    == old(remap)@,
                gz == *old(g),
                g.nodes@.len() == gz.nodes@.len(),
                forall|j: int|
                    0 <= j < gz.nodes@.len() ==> g.nodes@[j] == gz.nodes@[j] || (
                    #[trigger] g.nodes@[j] is None && gz.live(j) && is_copy(gz.op_of(j))),
                g.edges@.len() == gz.edges@.len(),
                forall|e: int|
                    #[trigger] g.e_live(e) ==> gz.e_live(e) && g.edge_at(e).dst == gz.edge_at(
                        e,
                    ).dst && g.edge_at(e).dep == gz.edge_at(e).dep && (g.edge_at(e).src
                        == gz.edge_at(e).src || (gz.live(gz.edge_at(e).src as int) && is_copy(
                        gz.op_of(gz.edge_at(e).src as int),
                    ) && !g.live(gz.edge_at(e).src as int))),
                forall|y: usize|
                    gz.to_retrieve@.contains(y) && g.live(y as int) ==> g.to_retrieve@.contains(y),
                forall|y: usize|
                    gz.no_delete@.contains(y) && g.live(y as int) ==> g.no_delete@.contains(y),
                forall|y: usize|
                    #[trigger] g.to_retrieve@.contains(y) ==> gz.to_retrieve@.contains(y)
                        || gz.live(y as int),
                forall|y: usize|
                    #[trigger] g.no_delete@.contains(y) ==> gz.no_delete@.contains(y) || gz.live(
                        y as int,
                    ),
                remap@.len() == old(remap)@.len(),
                forall|j: int|
                    0 <= j < old(remap)@.len() ==> remap@[j] == old(remap)@[j] || (gz.live(
                        old(remap)@[j] as int,
                    ) && is_copy(gz.op_of(old(remap)@[j] as int)) && !g.live(
                        old(remap)@[j] as int,
                    )),
                forall|y: usize| #[trigger] fusion_protected(gz, y) ==> g.live(y as int),
                forall|e2: int|
                    #[trigger] g.e_live(e2) && fusion_protected(gz, gz.edge_at(e2).src)
                        ==> g.edge_at(e2).src == gz.edge_at(e2).src,
                forall|e2: int|
                    #[trigger] gz.e_live(e2) && fusion_protected(gz, gz.edge_at(e2).src) && g.live(
                        gz.edge_at(e2).dst as int,
                    ) ==> g.e_live(e2),
                forall|e2: int|
                    #[trigger] g.e_live(e2) && g.edge_at(e2).src != gz.edge_at(e2).src ==> exists|
                    fl: nat|
                        chain_from(
                            gz,
                            *g,
                            gz.edge_at(e2).src,
                            g.edge_at(e2).src,
                            gz.edge_at(e2).src,
                            fl,
                        ),
            decreases live_count(g.nodes@),
        {
            let found = find_fusible(g);
            match found {
                None => {
                    return ;
                },
                Some(f) => {
                    proof {
                        if forall|e: int| fusible(gz, e) ==> fusion_blocked(gz, e) {
                            assert(*g == gz);
                            assert(false);
                        }
                    }
                    let ghost count0 = live_count(g.nodes@);
                    let (fe, first, second, source) = f;
                    let ghost g0 = *g;
                    let ghost r0 = remap@;
                    proof {
                        assert(is_copy(g0.op_of(first as int)) && is_copy(g0.op_of(second as int)));
                        assert(g0.live(first as int) && g0.live(second as int));
                    }
                    // Rewire the second copy's consumers to the source,
                    // move its bookkeeping there, and delete it.
                    move_outgoing_edge(g, second, source);
                    graph_move_references(g, remap, second, source);
                    proof {
                        assert(g.live(second as int));
                    }
                    let ghost gm = *g;
                    g.remove_node(second);
                    proof {
                        lemma_live_count_frame(gm.nodes@, g0.nodes@);
                        lemma_live_count_remove(gm.nodes@, second as int);
                        assert(live_count(g.nodes@) < count0);
                        assert forall|e: int| #[trigger] g.e_live(e) implies g0.e_live(e)
                            && g.edge_at(e).dst == g0.edge_at(e).dst && g.edge_at(e).dep
                            == g0.edge_at(e).dep && (g.edge_at(e).src == g0.edge_at(e).src || (
                        g.edge_at(e).src == source && g0.live(g0.edge_at(e).src as int) && is_copy(
                            g0.op_of(g0.edge_at(e).src as int),
                        ) && !g.live(g0.edge_at(e).src as int))) by {
                            assert(g.edges@[e] == gm.edges@[e]);
                            assert(gm.e_live(e));
                            assert(gm.edges@[e] == rewired_slot(g0, e, second, source));
                            if g0.e_live(e) && g0.edge_at(e).src == second {
                                assert(g.edge_at(e).src == source);
                                assert(g.edge_at(e).dst == g0.edge_at(e).dst);
                                assert(g.edge_at(e).dep == g0.edge_at(e).dep);
                                assert(!g.live(second as int));
                            } else {
                                assert(gm.edges@[e] == g0.edges@[e]);
                            }
                        }
                        // protected nodes are untouched: the deleted second
                        // copy reads from the pair's first copy
                        assert(fusion_frame(gz, g0));
                        lemma_copy_fed_unprotected(gz, g0, fe as int);
                        assert(!non_copy_fed(gz, second));
                        assert forall|y: usize| #[trigger] fusion_protected(gz, y) implies g.live(
                            y as int,
                        ) by {
                            assert(g0.live(y as int));
                            assert(y != second);
                        }
                        assert forall|e2: int|
                            #[trigger] g.e_live(e2) && fusion_protected(gz, gz.edge_at(e2).src)
                                implies g.edge_at(e2).src == gz.edge_at(e2).src by {
                            assert(g.edges@[e2] == gm.edges@[e2]);
                            assert(gm.e_live(e2));
                            assert(gm.edges@[e2] == rewired_slot(g0, e2, second, source));
                            assert(g0.e_live(e2));
                            assert(g0.edge_at(e2).src == gz.edge_at(e2).src);
                            if g0.edge_at(e2).src == second {
                                assert(fusion_protected(gz, second));
                                assert(false);
                            }
                            assert(gm.edges@[e2] == g0.edges@[e2]);
                        }
                        assert forall|e2: int|
                            #[trigger] gz.e_live(e2) && fusion_protected(gz, gz.edge_at(e2).src)
                                && g.live(gz.edge_at(e2).dst as int) implies g.e_live(e2) by {
                            assert(gz.edge_at(e2).dst != second);
                            assert(g0.live(gz.edge_at(e2).dst as int));
                            assert(g0.e_live(e2));
                            assert(g0.edge_at(e2).src == gz.edge_at(e2).src);
                            assert(g0.edge_at(e2).src != second);
                            assert(gm.edges@[e2] == g0.edges@[e2]);
                            assert(gm.e_live(e2) && gm.edge_at(e2) == g0.edge_at(e2));
                            assert(g0.edge_at(e2).dst == gz.edge_at(e2).dst);
                            assert(!gm.touches(second as int, e2));
                            assert(g.edges@[e2] == gm.edges@[e2]);
                        }
                        // the pair's data source now stands one chain of
                        // deleted copies above every rewired consumer
                        lemma_first_data_in_props(g0, first as int, 0);
                        let de = first_data_in(g0, first as int)->Some_0;
                        assert(g0.e_live(de) && g0.edge_at(de).dst == first && g0.edge_at(
                            de,
                        ).src == source);
                        assert(gz.e_live(de) && gz.edge_at(de).dst == first);
                        assert forall|j: int| #[trigger] g.live(j) implies g0.live(j) by {
                            assert(g.nodes@[j] == gm.nodes@.update(second as int, None)[j]);
                        }
                        assert(g0.nodes@[first as int] == gz.nodes@[first as int]);
                        assert(gz.live(first as int) && is_copy(gz.op_of(first as int)));
                        assert(g0.nodes@[second as int] == gz.nodes@[second as int]);
                        assert(gz.live(second as int) && is_copy(gz.op_of(second as int)));
                        assert(!g.live(second as int));
                        if gz.edge_at(de).src == source {
                            assert(chain_from(gz, *g, first, source, first, 0));
                        } else {
                            let md = gz.edge_at(de).src;
                            assert(gz.live(md as int) && is_copy(gz.op_of(md as int)) && !g0.live(
                                md as int,
                            ));
                            let flm = choose|fl: nat| chain_from(gz, g0, md, source, md, fl);
                            lemma_chain_step(gz, g0, *g, md, first, source, md, flm, flm);
                            assert(chain_from(gz, *g, first, source, first, (flm + 1) as nat));
                        }
                        let fl_sf = choose|fl: nat| chain_from(gz, *g, first, source, first, fl);
                        assert(gz.e_live(fe as int) && gz.edge_at(fe as int).dst == second);
                        let mw = gz.edge_at(fe as int).src;
                        if mw == first {
                            assert(chain_from(gz, *g, first, source, second, (fl_sf + 1) as nat));
                        } else {
                            assert(gz.live(mw as int) && is_copy(gz.op_of(mw as int)) && !g0.live(
                                mw as int,
                            ));
                            let flw = choose|fl: nat| chain_from(gz, g0, mw, first, mw, fl);
                            lemma_chain_step(gz, g0, *g, mw, first, first, mw, flw, flw);
                            lemma_chain_concat(gz, *g, first, source, first, mw, fl_sf, flw);
                            assert(chain_from(
                                gz,
                                *g,
                                first,
                                source,
                                second,
                                (fl_sf + flw + 2) as nat,
                            ));
                        }
                        let fl_sec = choose|fl: nat| chain_from(gz, *g, first, source, second, fl);
                        assert forall|e2: int|
                            #[trigger] g.e_live(e2) && g.edge_at(e2).src != gz.edge_at(e2).src
                                implies exists|fl: nat|
                            chain_from(
                                gz,
                                *g,
                                first,
                                g.edge_at(e2).src,
                                gz.edge_at(e2).src,
                                fl,
                            ) by {
                            assert(g.edges@[e2] == gm.edges@[e2]);
                            assert(gm.edges@[e2] == rewired_slot(g0, e2, second, source));
                            assert(g0.e_live(e2));
                            if g0.edge_at(e2).src == second {
                                assert(g.edge_at(e2).src == source);
                                if gz.edge_at(e2).src == second {
                                    assert(chain_from(gz, *g, first, source, second, fl_sec));
                                } else {
                                    let me = gz.edge_at(e2).src;
                                    assert(gz.live(me as int) && is_copy(gz.op_of(me as int))
                                        && !g0.live(me as int));
                                    let fle = choose|fl: nat| chain_from(gz, g0, me, second, me, fl);
                                    lemma_chain_step(gz, g0, *g, me, first, second, me, fle, fle);
                                    lemma_chain_concat(
                                        gz,
                                        *g,
                                        first,
                                        source,
                                        second,
                                        me,
                                        fl_sec,
                                        fle,
                                    );
                                }
                            } else {
                                assert(gm.edges@[e2] == g0.edges@[e2]);
                                assert(g.edge_at(e2).src == g0.edge_at(e2).src);
                                let me = gz.edge_at(e2).src;
                                assert(!g0.live(me as int));
                                let fle = choose|fl: nat|
                                    chain_from(gz, g0, me, g0.edge_at(e2).src, me, fl);
                                lemma_chain_step(
                                    gz,
                                    g0,
                                    *g,
                                    me,
                                    first,
                                    g0.edge_at(e2).src,
                                    me,
                                    fle,
                                    fle,
                                );
                            }
                        }
                    }
                    // Every remaining consumer of the first copy is another
                    // complementary copy; rewire its consumers to the source
                    // and delete it too.
                    let mut dest: Option<usize> = find_out_edge_dst(g, first);
                    while dest.is_some()
                        invariant
                            g.wf(),
                            g.live(source as int),
                            g.live(first as int),
                            source != first,
                            live_count(g.nodes@) < count0,
                            (dest matches Some(d) ==> edge_to(*g, first as int, d as int)),
                            !edge_to(g0, first as int, source as int),
                            !g0.no_delete@.contains(first),
                            !out_to_non_copy(g0, first as int),
                            forall|d: int|
                                #[trigger] edge_to(g0, first as int, d) ==> !edge_to(
                                    g0,
                                    d,
                                    source as int,
                                ),
                            g.nodes@.len() == g0.nodes@.len(),
                            forall|j: int|
                                0 <= j < g0.nodes@.len() ==> g.nodes@[j] == g0.nodes@[j] || (
                                #[trigger] g.nodes@[j] is None && g0.live(j) && is_copy(
                                    g0.op_of(j),
                                )),
                            g.edges@.len() == g0.edges@.len(),
                            // every live edge is an original edge, possibly
                            // rewired to read from the source in place of a
                            // now-deleted copy
                            forall|e: int|
                                #[trigger] g.e_live(e) ==> g0.e_live(e) && g.edge_at(e).dst
                                    == g0.edge_at(e).dst && g.edge_at(e).dep == g0.edge_at(e).dep
                                    && (g.edge_at(e).src == g0.edge_at(e).src || (g.edge_at(e).src
                                    == source && g0.live(g0.edge_at(e).src as int) && is_copy(
                                    g0.op_of(g0.edge_at(e).src as int),
                                ) && !g.live(g0.edge_at(e).src as int))),
                            forall|y: usize|
                                g0.to_retrieve@.contains(y) && g.live(y as int)
                                    ==> g.to_retrieve@.contains(y),
                            forall|y: usize|
                                g0.no_delete@.contains(y) && g.live(y as int)
                                    ==> g.no_delete@.contains(y),
                            forall|y: usize|
                                #[trigger] g.to_retrieve@.contains(y) ==> g0.to_retrieve@.contains(
                                    y,
                                ) || y == source,
                            forall|y: usize|
                                #[trigger] g.no_delete@.contains(y) ==> g0.no_delete@.contains(y)
                                    || y == source,
                            remap@.len() == r0.len(),
                            forall|j: int|
                                0 <= j < r0.len() ==> remap@[j] == r0[j] || (remap@[j] == source
                                    && g0.live(r0[j] as int) && is_copy(g0.op_of(r0[j] as int))
                                    && !g.live(r0[j] as int)),
                            fusion_frame(gz, g0),
                            is_copy(g0.op_of(first as int)),
                            forall|y: usize|
                                #[trigger] fusion_protected(gz, y) ==> g.live(y as int),
                            forall|e2: int|
                                #[trigger] g.e_live(e2) && fusion_protected(
                                    gz,
                                    gz.edge_at(e2).src,
                                ) ==> g.edge_at(e2).src == gz.edge_at(e2).src,
                            forall|e2: int|
                                #[trigger] gz.e_live(e2) && fusion_protected(
                                    gz,
                                    gz.edge_at(e2).src,
                                ) && g.live(gz.edge_at(e2).dst as int) ==> g.e_live(e2),
                            exists|fl: nat|
                                chain_from(gz, *g, first, source, first, fl),
                            forall|e2: int|
                                #[trigger] g.e_live(e2) && g.edge_at(e2).src != gz.edge_at(
                                    e2,
                                ).src ==> exists|fl: nat|
                                    chain_from(
                                        gz,
                                        *g,
                                        first,
                                        g.edge_at(e2).src,
                                        gz.edge_at(e2).src,
                                        fl,
                                    ),
                        decreases live_count(g.nodes@),
                    {
                        match dest {
                            None => {
                                proof {
                                    assert(false);
                                }
                            },
                            Some(d) => {
                                let ghost ge = *g;
                                proof {
                                    assert(edge_to(*g, first as int, d as int));
                                    // the witness edge is original: its
                                    // source is `first`, not `source`
                                    let we = choose|we: int|
                                        g.e_live(we) && (#[trigger] g.edge_at(we)).src == first
                                            && g.edge_at(we).dst == d;
                                    assert(g.edge_at(we).src == g0.edge_at(we).src);
                                    assert(g.edge_at(we).dst == g0.edge_at(we).dst);
                                    assert(edge_to(g0, first as int, d as int));
                                    assert(!edge_to(g0, d as int, source as int));
                                    assert(d != source);
                                    assert(d != first);
                                    // `d` is one of the complementary copies
                                    // consuming `first`
                                    assert(g0.op_of(g0.edge_at(we).dst as int) is CopyToDevice
                                        || g0.op_of(g0.edge_at(we).dst as int)
                                        is CopyFromDevice || !is_copy(
                                        g0.op_of(g0.edge_at(we).dst as int),
                                    ));
                                    assert(is_copy(g0.op_of(d as int)));
                                    assert(g.live(d as int) && g0.live(d as int));
                                    // every current out-edge of `d` is an
                                    // original out-edge of `d`
                                    assert forall|e2: int|
                                        g.e_live(e2) && (#[trigger] g.edge_at(e2)).src == d
                                            implies g.edge_at(e2).dst != source by {
                                        assert(g0.e_live(e2));
                                        assert(g.edge_at(e2).src == g0.edge_at(e2).src);
                                        assert(g.edge_at(e2).dst == g0.edge_at(e2).dst);
                                        assert(edge_to(g0, d as int, g0.edge_at(e2).dst as int));
                                    }
                                }
                                move_outgoing_edge(g, d, source);
                                graph_move_references(g, remap, d, source);
                                let ghost g1 = *g;
                                proof {
                                    assert(g1.wf());
                                }
                                g.remove_node(d);
                                proof {
                                    lemma_live_count_remove(g1.nodes@, d as int);
                                    assert(g.wf());
                                    assert forall|e: int| #[trigger] g.e_live(e) implies
                                    g0.e_live(e) && g.edge_at(e).dst == g0.edge_at(e).dst
                                        && g.edge_at(e).dep == g0.edge_at(e).dep && (g.edge_at(
                                        e,
                                    ).src == g0.edge_at(e).src || (g.edge_at(e).src == source
                                        && g0.live(g0.edge_at(e).src as int) && is_copy(
                                        g0.op_of(g0.edge_at(e).src as int),
                                    ) && !g.live(g0.edge_at(e).src as int))) by {
                                        assert(g.edges@[e] == g1.edges@[e]);
                                        assert(g1.e_live(e));
                                        if ge.e_live(e) && ge.edge_at(e).src == d {
                                            assert(g1.edge_at(e).src == source && g1.edge_at(
                                                e,
                                            ).dst == ge.edge_at(e).dst && g1.edge_at(e).dep
                                                == ge.edge_at(e).dep);
                                            assert(ge.edge_at(e).src == g0.edge_at(e).src);
                                            assert(ge.edge_at(e).dst == g0.edge_at(e).dst);
                                            assert(ge.edge_at(e).dep == g0.edge_at(e).dep);
                                        } else {
                                            assert(g1.edges@[e] == ge.edges@[e]);
                                        }
                                    }
                                    assert forall|y: usize|
                                        g0.to_retrieve@.contains(y) && g.live(y as int) implies
                                    g.to_retrieve@.contains(y) by {
                                        assert(y != d);
                                        assert(ge.live(y as int));
                                        assert(ge.to_retrieve@.contains(y));
                                    }
                                    assert forall|y: usize|
                                        g0.no_delete@.contains(y) && g.live(y as int) implies
                                    g.no_delete@.contains(y) by {
                                        assert(y != d);
                                        assert(ge.live(y as int));
                                        assert(ge.no_delete@.contains(y));
                                    }
                                    // protected nodes ride through this
                                    // deletion too: `d` reads from a copy
                                    assert(fusion_frame(gz, g0));
                                    assert(fusion_frame(g0, ge));
                                    lemma_fusion_frame_trans(gz, g0, ge);
                                    let wep = choose|wep: int|
                                        ge.e_live(wep) && (#[trigger] ge.edge_at(wep)).src == first
                                            && ge.edge_at(wep).dst == d;
                                    assert(ge.nodes@[first as int] == g0.nodes@[first as int]);
                                    assert(is_copy(ge.op_of(first as int)));
                                    lemma_copy_fed_unprotected(gz, ge, wep);
                                    assert(!non_copy_fed(gz, d));
                                    assert forall|y: usize|
                                        #[trigger] fusion_protected(gz, y) implies g.live(
                                        y as int,
                                    ) by {
                                        assert(ge.live(y as int));
                                        assert(y != d);
                                    }
                                    assert forall|e2: int|
                                        #[trigger] g.e_live(e2) && fusion_protected(
                                            gz,
                                            gz.edge_at(e2).src,
                                        ) implies g.edge_at(e2).src == gz.edge_at(e2).src by {
                                        assert(g.edges@[e2] == g1.edges@[e2]);
                                        assert(g1.e_live(e2));
                                        assert(g1.edges@[e2] == rewired_slot(ge, e2, d, source));
                                        assert(ge.e_live(e2));
                                        assert(ge.edge_at(e2).src == gz.edge_at(e2).src);
                                        if ge.edge_at(e2).src == d {
                                            assert(fusion_protected(gz, d));
                                            assert(false);
                                        }
                                        assert(g1.edges@[e2] == ge.edges@[e2]);
                                    }
                                    assert forall|e2: int|
                                        #[trigger] gz.e_live(e2) && fusion_protected(
                                            gz,
                                            gz.edge_at(e2).src,
                                        ) && g.live(gz.edge_at(e2).dst as int) implies g.e_live(
                                        e2,
                                    ) by {
                                        assert(gz.edge_at(e2).dst != d);
                                        assert(ge.live(gz.edge_at(e2).dst as int));
                                        assert(ge.e_live(e2));
                                        assert(ge.edge_at(e2).src == gz.edge_at(e2).src);
                                        assert(ge.edge_at(e2).src != d);
                                        assert(g1.edges@[e2] == ge.edges@[e2]);
                                        assert(g1.e_live(e2) && g1.edge_at(e2) == ge.edge_at(e2));
                                        assert(ge.edge_at(e2).dst == gz.edge_at(e2).dst);
                                        assert(!g1.touches(d as int, e2));
                                        assert(g.edges@[e2] == g1.edges@[e2]);
                                    }
                                    // the data source also stands above the
                                    // consumers this deletion rewired
                                    let fl_h = choose|fl: nat|
                                        chain_from(gz, ge, first, source, first, fl);
                                    assert forall|j: int| #[trigger] g.live(j) implies ge.live(
                                        j,
                                    ) by {
                                        assert(g.nodes@[j] == g1.nodes@.update(d as int, None)[j]);
                                    }
                                    lemma_chain_step(gz, ge, *g, first, first, source, first, fl_h, fl_h);
                                    let fl_sf = fl_h;
                                    assert(ge.nodes@[first as int] == gz.nodes@[first as int]);
                                    assert(gz.live(first as int) && is_copy(gz.op_of(
                                        first as int,
                                    )));
                                    assert(ge.nodes@[d as int] == gz.nodes@[d as int]);
                                    assert(gz.live(d as int) && is_copy(gz.op_of(d as int)));
                                    assert(!g.live(d as int));
                                    assert(gz.e_live(wep) && gz.edge_at(wep).dst == d);
                                    let mw = gz.edge_at(wep).src;
                                    if mw == first {
                                        assert(chain_from(gz, *g, first, source, d, (fl_sf + 1) as nat));
                                    } else {
                                        assert(gz.live(mw as int) && is_copy(gz.op_of(mw as int))
                                            && !ge.live(mw as int));
                                        assert(ge.edge_at(wep).src != gz.edge_at(wep).src);
                                        let flw = choose|fl: nat|
                                            chain_from(gz, ge, first, first, mw, fl);
                                        lemma_chain_step(gz, ge, *g, first, first, first, mw, flw, flw);
                                        lemma_chain_concat(gz, *g, first, source, first, mw, fl_sf, flw);
                                        assert(chain_from(gz, *g, first, source, d, (fl_sf + flw + 2) as nat));
                                    }
                                    let fl_d = choose|fl: nat|
                                        chain_from(gz, *g, first, source, d, fl);
                                    assert forall|e2: int|
                                        #[trigger] g.e_live(e2) && g.edge_at(e2).src
                                            != gz.edge_at(e2).src implies exists|fl: nat|
                                        chain_from(
                                            gz,
                                            *g,
                                            first,
                                            g.edge_at(e2).src,
                                            gz.edge_at(e2).src,
                                            fl,
                                        ) by {
                                        assert(g.edges@[e2] == g1.edges@[e2]);
                                        assert(g1.edges@[e2] == rewired_slot(ge, e2, d, source));
                                        assert(ge.e_live(e2));
                                        if ge.edge_at(e2).src == d {
                                            assert(g.edge_at(e2).src == source);
                                            if gz.edge_at(e2).src == d {
                                                assert(chain_from(gz, *g, first, source, d, fl_d));
                                            } else {
                                                let me = gz.edge_at(e2).src;
                                                assert(gz.live(me as int) && is_copy(gz.op_of(
                                                    me as int,
                                                )) && !ge.live(me as int));
                                                let fle = choose|fl: nat|
                                                    chain_from(gz, ge, first, d, me, fl);
                                                lemma_chain_step(gz, ge, *g, first, first, d, me, fle, fle);
                                                lemma_chain_concat(gz, *g, first, source, d, me, fl_d, fle);
                                            }
                                        } else {
                                            assert(g1.edges@[e2] == ge.edges@[e2]);
                                            assert(g.edge_at(e2).src == ge.edge_at(e2).src);
                                            let fle = choose|fl: nat|
                                                chain_from(
                                                    gz,
                                                    ge,
                                                    first,
                                                    ge.edge_at(e2).src,
                                                    gz.edge_at(e2).src,
                                                    fl,
                                                );
                                            lemma_chain_step(
                                                gz,
                                                ge,
                                                *g,
                                                first,
                                                first,
                                                ge.edge_at(e2).src,
                                                gz.edge_at(e2).src,
                                                fle,
                                                fle,
                                            );
                                        }
                                    }
                                }
                            },
                        }
                        dest = find_out_edge_dst(g, first);
                    }
                    proof {
                        assert(g.live(first as int));
                    }
                    let ghost g2 = *g;
                    g.remove_node(first);
                    proof {
                        lemma_live_count_remove(g2.nodes@, first as int);
                        // a protected node still wears its mark, so it is
                        // never the pair's unpinned first copy
                        assert forall|y: usize| #[trigger] fusion_protected(gz, y) implies g.live(
                            y as int,
                        ) by {
                            assert(g0.live(y as int));
                            assert(g0.no_delete@.contains(y));
                            assert(g2.live(y as int));
                            assert(g2.no_delete@.contains(y));
                            if y == first {
                                assert(false);
                            }
                        }
                        assert forall|e2: int|
                            #[trigger] g.e_live(e2) && fusion_protected(gz, gz.edge_at(e2).src)
                                implies g.edge_at(e2).src == gz.edge_at(e2).src by {
                            assert(g.edges@[e2] == g2.edges@[e2]);
                            assert(g2.e_live(e2));
                        }
                        assert forall|e2: int|
                            #[trigger] gz.e_live(e2) && fusion_protected(gz, gz.edge_at(e2).src)
                                && g.live(gz.edge_at(e2).dst as int) implies g.e_live(e2) by {
                            assert(gz.edge_at(e2).dst != first);
                            assert(g2.live(gz.edge_at(e2).dst as int));
                            assert(g2.e_live(e2));
                            assert(g2.edge_at(e2).src == gz.edge_at(e2).src);
                            let p = gz.edge_at(e2).src;
                            assert(g0.live(p as int));
                            assert(g0.no_delete@.contains(p));
                            assert(g2.live(p as int));
                            assert(g2.no_delete@.contains(p));
                            assert(p != first);
                            assert(g2.edge_at(e2).dst == gz.edge_at(e2).dst);
                            assert(!g2.touches(first as int, e2));
                            assert(g.edges@[e2] == g2.edges@[e2]);
                        }
                        // the first copy is gone too, so the chains no
                        // longer lean on a pending node
                        assert forall|j: int| #[trigger] g.live(j) implies g2.live(j) by {
                            assert(g.nodes@[j] == g2.nodes@.update(first as int, None)[j]);
                        }
                        assert(!g.live(first as int));
                        assert forall|e2: int|
                            #[trigger] g.e_live(e2) && g.edge_at(e2).src != gz.edge_at(e2).src
                                implies exists|fl: nat|
                            chain_from(
                                gz,
                                *g,
                                gz.edge_at(e2).src,
                                g.edge_at(e2).src,
                                gz.edge_at(e2).src,
                                fl,
                            ) by {
                            assert(g.edges@[e2] == g2.edges@[e2]);
                            assert(g2.e_live(e2));
                            assert(g.edge_at(e2).src == g2.edge_at(e2).src);
                            let fle = choose|fl: nat|
                                chain_from(
                                    gz,
                                    g2,
                                    first,
                                    g2.edge_at(e2).src,
                                    gz.edge_at(e2).src,
                                    fl,
                                );
                            lemma_chain_step(
                                gz,
                                g2,
                                *g,
                                first,
                                gz.edge_at(e2).src,
                                g2.edge_at(e2).src,
                                gz.edge_at(e2).src,
                                fle,
                                fle,
                            );
                        }
                        // compose this fusion's effect with the previous
                        // ones, back to the pass's input
                        assert forall|j: int|
                            0 <= j < gz.nodes@.len() implies g.nodes@[j] == gz.nodes@[j] || (
                        #[trigger] g.nodes@[j] is None && gz.live(j) && is_copy(gz.op_of(j))) by {
                            if g.nodes@[j] != g2.nodes@[j] {
                                assert(j == first);
                                assert(g0.live(j) && is_copy(g0.op_of(j)));
                                assert(g0.nodes@[j] == gz.nodes@[j]);
                            } else {
                                if g2.nodes@[j] != g0.nodes@[j] {
                                    assert(g2.nodes@[j] is None && g0.live(j) && is_copy(
                                        g0.op_of(j),
                                    ));
                                    assert(g0.nodes@[j] == gz.nodes@[j]);
                                }
                            }
                        }
                        assert forall|e: int| #[trigger] g.e_live(e) implies gz.e_live(e)
                            && g.edge_at(e).dst == gz.edge_at(e).dst && g.edge_at(e).dep
                            == gz.edge_at(e).dep && (g.edge_at(e).src == gz.edge_at(e).src || (
                        gz.live(gz.edge_at(e).src as int) && is_copy(
                            gz.op_of(gz.edge_at(e).src as int),
                        ) && !g.live(gz.edge_at(e).src as int))) by {
                            assert(g.edges@[e] == g2.edges@[e]);
                            assert(g2.e_live(e));
                            assert(g0.e_live(e));
                            assert(gz.e_live(e));
                            if g2.edge_at(e).src == g0.edge_at(e).src {
                            } else {
                                // rewired this round: its producer at the
                                // round's start was a live copy, deleted now
                                let x = g0.edge_at(e).src as int;
                                assert(g0.live(x) && is_copy(g0.op_of(x)) && !g2.live(x));
                                assert(g0.nodes@[x] == gz.nodes@[x]);
                                assert(gz.live(x) && is_copy(gz.op_of(x)));
                                if g0.edge_at(e).src == gz.edge_at(e).src {
                                    assert(!g.live(x));
                                } else {
                                    assert(gz.live(gz.edge_at(e).src as int) && is_copy(
                                        gz.op_of(gz.edge_at(e).src as int),
                                    ) && !g0.live(gz.edge_at(e).src as int));
                                    assert(!g.live(gz.edge_at(e).src as int));
                                }
                            }
                        }
                        assert forall|y: usize|
                            gz.to_retrieve@.contains(y) && g.live(y as int) implies
                        g.to_retrieve@.contains(y) by {
                            assert(y != first);
                            assert(g.nodes@[y as int] == g2.nodes@[y as int]);
                            assert(g2.live(y as int));
                            assert(g2.nodes@[y as int] == g0.nodes@[y as int]);
                            assert(g0.live(y as int));
                            assert(g0.nodes@[y as int] == gz.nodes@[y as int]);
                            assert(g0.to_retrieve@.contains(y));
                            assert(g2.to_retrieve@.contains(y));
                        }
                        assert forall|y: usize|
                            gz.no_delete@.contains(y) && g.live(y as int) implies
                        g.no_delete@.contains(y) by {
                            assert(y != first);
                            assert(g.nodes@[y as int] == g2.nodes@[y as int]);
                            assert(g2.live(y as int));
                            assert(g2.nodes@[y as int] == g0.nodes@[y as int]);
                            assert(g0.live(y as int));
                            assert(g0.nodes@[y as int] == gz.nodes@[y as int]);
                            assert(g0.no_delete@.contains(y));
                            assert(g2.no_delete@.contains(y));
                        }
                        assert forall|y: usize|
                            #[trigger] g.to_retrieve@.contains(y) implies gz.to_retrieve@.contains(
                            y,
                        ) || gz.live(y as int) by {
                            if !g0.to_retrieve@.contains(y) {
                                assert(y == source);
                                assert(g0.live(y as int));
                            }
                        }
                        assert forall|y: usize|
                            #[trigger] g.no_delete@.contains(y) implies gz.no_delete@.contains(y)
                                || gz.live(y as int) by {
                            if !g0.no_delete@.contains(y) {
                                assert(y == source);
                                assert(g0.live(y as int));
                            }
                        }
                        assert forall|j: int|
                            0 <= j < old(remap)@.len() implies remap@[j] == old(remap)@[j] || (
                        gz.live(old(remap)@[j] as int) && is_copy(
                            gz.op_of(old(remap)@[j] as int),
                        ) && !g.live(old(remap)@[j] as int)) by {
                            if remap@[j] != old(remap)@[j] {
                                if remap@[j] == r0[j] {
                                    assert(gz.live(old(remap)@[j] as int) && is_copy(
                                        gz.op_of(old(remap)@[j] as int),
                                    ) && !g0.live(old(remap)@[j] as int));
                                    assert(!g.live(old(remap)@[j] as int));
                                } else {
                                    assert(g0.live(r0[j] as int) && is_copy(
                                        g0.op_of(r0[j] as int),
                                    ) && !g.live(r0[j] as int));
                                    if r0[j] == old(remap)@[j] {
                                        assert(g0.nodes@[r0[j] as int]
                                            == gz.nodes@[r0[j] as int]);
                                    } else {
                                        assert(gz.live(old(remap)@[j] as int) && is_copy(
                                            gz.op_of(old(remap)@[j] as int),
                                        ) && !g0.live(old(remap)@[j] as int));
                                        assert(!g.live(old(remap)@[j] as int));
                                    }
                                }
                            }
                        }
                    }
                },
            }
        }
    }
}

} // verus!