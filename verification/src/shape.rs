//! A model of the symbolic tensor view that annotates every edge of the
//! operator graph: per-axis sizes (fixed or a dynamic dimension symbol),
//! padding, slicing, and broadcast (fake) axes, together with the lowering
//! of a view to its scalar index and validity expressions.
//!
//! The arithmetic model: a logical index `z` is decomposed into per-axis
//! coordinates over the padded, sliced lengths (row-major). A position is
//! in bounds when every coordinate lies inside the unpadded region; its
//! physical offset sums, over the non-fake axes, the data coordinate times
//! the physical stride.

use crate::expr::{
    node_ok, node_rpn, node_value, rpn_of_node, rpn_value, term_ok, DynDimMap,
    ExprNode, Expression, Term,
};
use vstd::arithmetic::div_mod::{lemma_div_pos_is_pos, lemma_mod_bound};
use vstd::arithmetic::mul::lemma_mul_strictly_positive;
use vstd::prelude::*;

verus! {

/// A dimension extent: a fixed size or a dynamic dimension symbol looked up
/// at launch time.
#[derive(Clone, Copy, PartialEq, Eq, Structural, Debug)]
pub enum DimSize {
    Fixed(u64),
    Sym(char),
}

/// Sentinel for an unbounded slice end.
pub const SLICE_OPEN: u64 = 0xffff_ffff_ffff_ffff;

/// One axis of a tensor view. Only the size may be a dynamic symbol;
/// padding and slice bounds are held as plain numbers, so a view whose
/// padding itself depends on a dynamic dimension is outside this model.
#[derive(Clone, Copy, PartialEq, Eq, Structural, Debug)]
pub struct Axis {
    pub size: DimSize,
    pub pad_start: u64,
    pub pad_end: u64,
    pub slice_start: u64,
    pub slice_end: u64,
    /// A broadcast axis: present logically, absent physically.
    pub fake: bool,
}

/// A logical view onto a physical buffer.
#[derive(Clone, Debug)]
pub struct ShapeTracker {
    pub axes: Vec<Axis>,
}

/// Numeric fields small enough to appear as 32-bit literals in kernel
/// source, and the thread-index variable `z` left free.
pub open spec fn dim_wf(d: DimSize) -> bool {
    match d {
        DimSize::Fixed(v) => v <= i32::MAX,
        DimSize::Sym(c) => c != 'z',
    }
}

pub open spec fn axis_wf(a: Axis) -> bool {
    &&& dim_wf(a.size)
    &&& a.pad_start <= i32::MAX
    &&& a.pad_end <= i32::MAX
    &&& a.slice_start <= i32::MAX
    &&& (a.slice_end == SLICE_OPEN || a.slice_start <= a.slice_end <= i32::MAX)
    &&& (a.slice_end == SLICE_OPEN ==> a.slice_start == 0)
}

/// The axis size under an environment of dynamic dimension values.
pub open spec fn size_val(d: DimSize, env: Map<char, int>) -> int {
    match d {
        DimSize::Fixed(v) => v as int,
        DimSize::Sym(c) => env[c],
    }
}

pub open spec fn size_covered(d: DimSize, env: Map<char, int>) -> bool {
    match d {
        DimSize::Fixed(_) => true,
        DimSize::Sym(c) => env.dom().contains(c) && 0 <= env[c] <= i32::MAX,
    }
}

/// Length of the kept (sliced) data region of an axis.
pub open spec fn eff_len(a: Axis, env: Map<char, int>) -> int {
    if a.slice_end == SLICE_OPEN {
        size_val(a.size, env)
    } else {
        (if a.slice_end <= size_val(a.size, env) {
            a.slice_end as int
        } else {
            size_val(a.size, env)
        }) - a.slice_start
    }
}

/// Logical length of an axis: padding on both ends around the kept region.
pub open spec fn log_len(a: Axis, env: Map<char, int>) -> int {
    a.pad_start + eff_len(a, env) + a.pad_end
}

/// Product of logical lengths of the axes from `i` on.
pub open spec fn log_size_from(axes: Seq<Axis>, i: int, env: Map<char, int>) -> int
    decreases axes.len() - i,
{
    if i < 0 || i >= axes.len() {
        1
    } else {
        log_len(axes[i], env) * log_size_from(axes, i + 1, env)
    }
}

/// Product of physical sizes of the non-fake axes from `i` on.
pub open spec fn phys_size_from(axes: Seq<Axis>, i: int, env: Map<char, int>) -> int
    decreases axes.len() - i,
{
    if i < 0 || i >= axes.len() {
        1
    } else {
        (if axes[i].fake {
            1
        } else {
            size_val(axes[i].size, env)
        }) * phys_size_from(axes, i + 1, env)
    }
}

/// Number of logical elements of the view.
pub open spec fn n_elements_model(axes: Seq<Axis>, env: Map<char, int>) -> int {
    log_size_from(axes, 0, env)
}

/// Number of physical elements of the underlying buffer.
pub open spec fn n_physical_model(axes: Seq<Axis>, env: Map<char, int>) -> int {
    phys_size_from(axes, 0, env)
}

/// Coordinate of logical index `z` along axis `i`.
pub open spec fn coord_model(axes: Seq<Axis>, i: int, env: Map<char, int>, z: int) -> int {
    (z / log_size_from(axes, i + 1, env)) % log_len(axes[i], env)
}

/// A logical index is in bounds when every coordinate lies inside the
/// unpadded kept region of its axis.
pub open spec fn in_bounds_from(axes: Seq<Axis>, i: int, env: Map<char, int>, z: int) -> bool
    decreases axes.len() - i,
{
    if i < 0 || i >= axes.len() {
        true
    } else {
        &&& axes[i].pad_start <= coord_model(axes, i, env, z) < axes[i].pad_start + eff_len(
            axes[i],
            env,
        )
        &&& in_bounds_from(axes, i + 1, env, z)
    }
}

pub open spec fn in_bounds_model(axes: Seq<Axis>, env: Map<char, int>, z: int) -> bool {
    in_bounds_from(axes, 0, env, z)
}

/// Physical offset of logical index `z`: over the non-fake axes, the data
/// coordinate (coordinate minus front padding plus slice start) times the
/// physical stride.
pub open spec fn offset_from(axes: Seq<Axis>, i: int, env: Map<char, int>, z: int) -> int
    decreases axes.len() - i,
{
    if i < 0 || i >= axes.len() {
        0
    } else {
        (if axes[i].fake {
            0
        } else {
            (coord_model(axes, i, env, z) - axes[i].pad_start + axes[i].slice_start)
                * phys_size_from(axes, i + 1, env)
        }) + offset_from(axes, i + 1, env, z)
    }
}

pub open spec fn offset_model(axes: Seq<Axis>, env: Map<char, int>, z: int) -> int {
    offset_from(axes, 0, env, z)
}

// ---------------------------------------------------------------------------
// Expression trees the lowering emits.
// ---------------------------------------------------------------------------

pub open spec fn size_node(d: DimSize) -> ExprNode {
    match d {
        DimSize::Fixed(v) => ExprNode::Num(v as i64),
        DimSize::Sym(c) => ExprNode::Var(c),
    }
}

pub open spec fn eff_node(a: Axis) -> ExprNode {
    if a.slice_end == SLICE_OPEN {
        size_node(a.size)
    } else {
        ExprNode::Op(
            Term::Sub,
            Box::new(
                ExprNode::Op(
                    Term::Min,
                    Box::new(ExprNode::Num(a.slice_end as i64)),
                    Box::new(size_node(a.size)),
                ),
            ),
            Box::new(ExprNode::Num(a.slice_start as i64)),
        )
    }
}

pub open spec fn len_node(a: Axis) -> ExprNode {
    if a.pad_start == 0 && a.pad_end == 0 {
        eff_node(a)
    } else {
        ExprNode::Op(
            Term::Add,
            Box::new(
                ExprNode::Op(
                    Term::Add,
                    Box::new(ExprNode::Num(a.pad_start as i64)),
                    Box::new(eff_node(a)),
                ),
            ),
            Box::new(ExprNode::Num(a.pad_end as i64)),
        )
    }
}

/// Product of the logical lengths of the axes after `i`.
pub open spec fn stride_node(axes: Seq<Axis>, i: int) -> ExprNode
    decreases axes.len() - i,
{
    if i + 1 >= axes.len() {
        ExprNode::Num(1)
    } else {
        ExprNode::Op(
            Term::Mul,
            Box::new(len_node(axes[i + 1])),
            Box::new(stride_node(axes, i + 1)),
        )
    }
}

/// `(z / stride) % len`: the coordinate of the thread index along axis `i`.
pub open spec fn coord_node(axes: Seq<Axis>, i: int) -> ExprNode {
    ExprNode::Op(
        Term::Mod,
        Box::new(ExprNode::Op(Term::Div, Box::new(ExprNode::Var('z')), Box::new(stride_node(axes, i)))),
        Box::new(len_node(axes[i])),
    )
}

/// Product of the physical sizes of the non-fake axes after `i`.
pub open spec fn phys_stride_node(axes: Seq<Axis>, i: int) -> ExprNode
    decreases axes.len() - i,
{
    if i + 1 >= axes.len() {
        ExprNode::Num(1)
    } else if axes[i + 1].fake {
        phys_stride_node(axes, i + 1)
    } else {
        ExprNode::Op(
            Term::Mul,
            Box::new(size_node(axes[i + 1].size)),
            Box::new(phys_stride_node(axes, i + 1)),
        )
    }
}

/// The part axis `i` adds to the physical offset.
pub open spec fn axis_offset_node(axes: Seq<Axis>, i: int) -> ExprNode {
    ExprNode::Op(
        Term::Mul,
        Box::new(
            ExprNode::Op(
                Term::Add,
                Box::new(
                    ExprNode::Op(
                        Term::Sub,
                        Box::new(coord_node(axes, i)),
                        Box::new(ExprNode::Num(axes[i].pad_start as i64)),
                    ),
                ),
                Box::new(ExprNode::Num(axes[i].slice_start as i64)),
            ),
        ),
        Box::new(phys_stride_node(axes, i)),
    )
}

/// The index expression: the sum of the non-fake axes' contributions.
pub open spec fn index_tree_from(axes: Seq<Axis>, i: int) -> ExprNode
    decreases axes.len() - i,
{
    if i < 0 || i >= axes.len() {
        ExprNode::Num(0)
    } else if axes[i].fake {
        index_tree_from(axes, i + 1)
    } else {
        ExprNode::Op(
            Term::Add,
            Box::new(axis_offset_node(axes, i)),
            Box::new(index_tree_from(axes, i + 1)),
        )
    }
}

pub open spec fn index_tree(axes: Seq<Axis>) -> ExprNode {
    index_tree_from(axes, 0)
}

/// Whether an axis needs a bounds check at all.
pub open spec fn axis_guarded(a: Axis) -> bool {
    a.pad_start != 0 || a.pad_end != 0 || !(a.slice_end == SLICE_OPEN)
}

/// `coord >= pad_start && coord < pad_start + eff`: axis `i`'s bounds check.
pub open spec fn check_node(axes: Seq<Axis>, i: int) -> ExprNode {
    ExprNode::Op(
        Term::And,
        Box::new(
            ExprNode::Op(
                Term::Gte,
                Box::new(coord_node(axes, i)),
                Box::new(ExprNode::Num(axes[i].pad_start as i64)),
            ),
        ),
        Box::new(
            ExprNode::Op(
                Term::Lt,
                Box::new(coord_node(axes, i)),
                Box::new(
                    ExprNode::Op(
                        Term::Add,
                        Box::new(ExprNode::Num(axes[i].pad_start as i64)),
                        Box::new(eff_node(axes[i])),
                    ),
                ),
            ),
        ),
    )
}

/// The validity expression: the conjunction of the bounds checks of the
/// padded or sliced axes; `1` when none is needed.
pub open spec fn valid_tree_from(axes: Seq<Axis>, i: int) -> ExprNode
    decreases axes.len() - i,
{
    if i < 0 || i >= axes.len() {
        ExprNode::Num(1)
    } else if !axis_guarded(axes[i]) {
        valid_tree_from(axes, i + 1)
    } else {
        ExprNode::Op(
            Term::And,
            Box::new(check_node(axes, i)),
            Box::new(valid_tree_from(axes, i + 1)),
        )
    }
}

pub open spec fn valid_tree(axes: Seq<Axis>) -> ExprNode {
    valid_tree_from(axes, 0)
}

// ---------------------------------------------------------------------------
// The lowering matches the arithmetic model.
// ---------------------------------------------------------------------------

/// A view whose axes are well formed and whose symbols the environment
/// covers, with a non-empty kept region bound and a positive logical length
/// on every axis.
pub open spec fn shape_env_ok(axes: Seq<Axis>, env: Map<char, int>) -> bool {
    forall|i: int|
        0 <= i < axes.len() ==> {
            &&& axis_wf(#[trigger] axes[i])
            &&& size_covered(axes[i].size, env)
            &&& eff_len(axes[i], env) >= 0
            &&& log_len(axes[i], env) >= 1
        }
}

pub proof fn lemma_log_size_pos(axes: Seq<Axis>, i: int, env: Map<char, int>)
    requires
        shape_env_ok(axes, env),
    ensures
        log_size_from(axes, i, env) >= 1,
    decreases axes.len() - i,
{
    if i < 0 || i >= axes.len() {
    } else {
        lemma_log_size_pos(axes, i + 1, env);
        lemma_mul_strictly_positive(log_len(axes[i], env), log_size_from(axes, i + 1, env));
    }
}

pub proof fn lemma_index_tree_ok(axes: Seq<Axis>, i: int)
    ensures
        node_ok(index_tree_from(axes, i)),
        node_ok(valid_tree_from(axes, i)),
        node_ok(stride_node(axes, i)),
        node_ok(phys_stride_node(axes, i)),
    decreases axes.len() - i,
{
    reveal_with_fuel(node_ok, 16);
    if i >= axes.len() {
    } else {
        lemma_index_tree_ok(axes, i + 1);
    }
}

/// The environment the kernel evaluates under: the dynamic dimension values
/// with the thread index bound to `z`.
pub open spec fn kernel_env(env: Map<char, int>, z: int) -> Map<char, int> {
    env.insert('z', z)
}

pub proof fn lemma_size_node_value(d: DimSize, env: Map<char, int>, z: int)
    requires
        size_covered(d, env),
        dim_wf(d),
    ensures
        node_value(size_node(d), kernel_env(env, z)) == Some(size_val(d, env)),
{
    reveal_with_fuel(node_value, 4);
}

pub proof fn lemma_len_node_value(a: Axis, env: Map<char, int>, z: int)
    requires
        axis_wf(a),
        size_covered(a.size, env),
    ensures
        node_value(eff_node(a), kernel_env(env, z)) == Some(eff_len(a, env)),
        node_value(len_node(a), kernel_env(env, z)) == Some(log_len(a, env)),
{
    reveal_with_fuel(node_value, 8);
    lemma_size_node_value(a.size, env, z);
}

pub proof fn lemma_stride_node_value(axes: Seq<Axis>, i: int, env: Map<char, int>, z: int)
    requires
        shape_env_ok(axes, env),
        0 <= i,
    ensures
        node_value(stride_node(axes, i), kernel_env(env, z)) == Some(
            log_size_from(axes, i + 1, env),
        ),
    decreases axes.len() - i,
{
    reveal_with_fuel(node_value, 8);
    if i + 1 >= axes.len() {
    } else {
        lemma_len_node_value(axes[i + 1], env, z);
        lemma_stride_node_value(axes, i + 1, env, z);
    }
}

pub proof fn lemma_phys_stride_node_value(axes: Seq<Axis>, i: int, env: Map<char, int>, z: int)
    requires
        shape_env_ok(axes, env),
        0 <= i,
    ensures
        node_value(phys_stride_node(axes, i), kernel_env(env, z)) == Some(
            phys_size_from(axes, i + 1, env),
        ),
    decreases axes.len() - i,
{
    reveal_with_fuel(node_value, 8);
    if i + 1 >= axes.len() {
    } else if axes[i + 1].fake {
        lemma_phys_stride_node_value(axes, i + 1, env, z);
        assert(phys_size_from(axes, i + 1, env) == 1 * phys_size_from(axes, i + 2, env));
    } else {
        lemma_size_node_value(axes[i + 1].size, env, z);
        lemma_phys_stride_node_value(axes, i + 1, env, z);
    }
}

pub proof fn lemma_coord_node_value(axes: Seq<Axis>, i: int, env: Map<char, int>, z: int)
    requires
        shape_env_ok(axes, env),
        0 <= i < axes.len(),
        0 <= z,
    ensures
        node_value(coord_node(axes, i), kernel_env(env, z)) == Some(coord_model(axes, i, env, z)),
        0 <= coord_model(axes, i, env, z) < log_len(axes[i], env),
{
    reveal_with_fuel(node_value, 8);
    lemma_stride_node_value(axes, i, env, z);
    lemma_len_node_value(axes[i], env, z);
    lemma_log_size_pos(axes, i + 1, env);
    let s = log_size_from(axes, i + 1, env);
    let l = log_len(axes[i], env);
    lemma_div_pos_is_pos(z, s);
    lemma_mod_bound(z / s, l);
    assert(term_ok(Term::Div, z, s));
    assert(term_ok(Term::Mod, z / s, l));
}

pub proof fn lemma_index_tree_value(axes: Seq<Axis>, i: int, env: Map<char, int>, z: int)
    requires
        shape_env_ok(axes, env),
        0 <= i,
        0 <= z,
    ensures
        node_value(index_tree_from(axes, i), kernel_env(env, z)) == Some(
            offset_from(axes, i, env, z),
        ),
    decreases axes.len() - i,
{
    reveal_with_fuel(node_value, 8);
    if i >= axes.len() {
    } else if axes[i].fake {
        lemma_index_tree_value(axes, i + 1, env, z);
    } else {
        lemma_coord_node_value(axes, i, env, z);
        lemma_phys_stride_node_value(axes, i, env, z);
        lemma_index_tree_value(axes, i + 1, env, z);
    }
}

pub proof fn lemma_valid_tree_value(axes: Seq<Axis>, i: int, env: Map<char, int>, z: int)
    requires
        shape_env_ok(axes, env),
        0 <= i,
        0 <= z,
    ensures
        node_value(valid_tree_from(axes, i), kernel_env(env, z)) == Some(
            if in_bounds_from(axes, i, env, z) {
                1int
            } else {
                0int
            },
        ),
    decreases axes.len() - i,
{
    reveal_with_fuel(node_value, 8);
    if i >= axes.len() {
    } else if !axis_guarded(axes[i]) {
        lemma_valid_tree_value(axes, i + 1, env, z);
        // An unguarded axis is always in bounds: its coordinate lies in
        // [0, log_len) and the kept region is the whole logical length.
        lemma_coord_node_value(axes, i, env, z);
        assert(axes[i].pad_start == 0 && axes[i].pad_end == 0);
        assert(eff_len(axes[i], env) == log_len(axes[i], env));
    } else {
        lemma_coord_node_value(axes, i, env, z);
        lemma_len_node_value(axes[i], env, z);
        lemma_valid_tree_value(axes, i + 1, env, z);
    }
}

/// For every view `S` and every logical index `z` in `[0, n_elements(S))`:
/// the lowered index expression, evaluated with `idx = z`, equals the
/// reference physical offset of the arithmetic model, and the lowered
/// validity expression is nonzero exactly when the model marks the position
/// in bounds.
pub proof fn lemma_lowering_matches_model(axes: Seq<Axis>, env: Map<char, int>, z: int)
    requires
        shape_env_ok(axes, env),
        0 <= z < n_elements_model(axes, env),
    ensures
        rpn_value(node_rpn(index_tree(axes)), kernel_env(env, z)) == Some(
            offset_model(axes, env, z),
        ),
        rpn_value(node_rpn(valid_tree(axes)), kernel_env(env, z)) == Some(
            if in_bounds_model(axes, env, z) {
                1int
            } else {
                0int
            },
        ),
{
    lemma_index_tree_ok(axes, 0);
    lemma_index_tree_value(axes, 0, env, z);
    lemma_valid_tree_value(axes, 0, env, z);
    crate::expr::lemma_node_expression_value(index_tree(axes), kernel_env(env, z));
    crate::expr::lemma_node_expression_value(valid_tree(axes), kernel_env(env, z));
}

// ---------------------------------------------------------------------------
// Executable lowering.
// ---------------------------------------------------------------------------

fn size_node_x(d: DimSize) -> (r: ExprNode)
    ensures
        r == size_node(d),
{
    match d {
        DimSize::Fixed(v) => ExprNode::Num(v as i64),
        DimSize::Sym(c) => ExprNode::Var(c),
    }
}

fn eff_node_x(a: &Axis) -> (r: ExprNode)
    ensures
        r == eff_node(*a),
{
    if a.slice_end == SLICE_OPEN {
        size_node_x(a.size)
    } else {
        ExprNode::Op(
            Term::Sub,
            Box::new(
                ExprNode::Op(
                    Term::Min,
                    Box::new(ExprNode::Num(a.slice_end as i64)),
                    Box::new(size_node_x(a.size)),
                ),
            ),
            Box::new(ExprNode::Num(a.slice_start as i64)),
        )
    }
}

fn len_node_x(a: &Axis) -> (r: ExprNode)
    ensures
        r == len_node(*a),
{
    if a.pad_start == 0 && a.pad_end == 0 {
        eff_node_x(a)
    } else {
        ExprNode::Op(
            Term::Add,
            Box::new(
                ExprNode::Op(
                    Term::Add,
                    Box::new(ExprNode::Num(a.pad_start as i64)),
                    Box::new(eff_node_x(a)),
                ),
            ),
            Box::new(ExprNode::Num(a.pad_end as i64)),
        )
    }
}

fn stride_node_x(axes: &Vec<Axis>, i: usize) -> (r: ExprNode)
    ensures
        r == stride_node(axes@, i as int),
    decreases axes@.len() - i,
{
    if i >= axes.len() || i + 1 >= axes.len() {
        ExprNode::Num(1)
    } else {
        ExprNode::Op(
            Term::Mul,
            Box::new(len_node_x(&axes[i + 1])),
            Box::new(stride_node_x(axes, i + 1)),
        )
    }
}

fn phys_stride_node_x(axes: &Vec<Axis>, i: usize) -> (r: ExprNode)
    ensures
        r == phys_stride_node(axes@, i as int),
    decreases axes@.len() - i,
{
    if i >= axes.len() || i + 1 >= axes.len() {
        ExprNode::Num(1)
    } else if axes[i + 1].fake {
        phys_stride_node_x(axes, i + 1)
    } else {
        ExprNode::Op(
            Term::Mul,
            Box::new(size_node_x(axes[i + 1].size)),
            Box::new(phys_stride_node_x(axes, i + 1)),
        )
    }
}

fn coord_node_x(axes: &Vec<Axis>, i: usize) -> (r: ExprNode)
    requires
        i < axes@.len(),
    ensures
        r == coord_node(axes@, i as int),
{
    ExprNode::Op(
        Term::Mod,
        Box::new(
            ExprNode::Op(Term::Div, Box::new(ExprNode::Var('z')), Box::new(stride_node_x(axes, i))),
        ),
        Box::new(len_node_x(&axes[i])),
    )
}

fn index_tree_x(axes: &Vec<Axis>, i: usize) -> (r: ExprNode)
    ensures
        r == index_tree_from(axes@, i as int),
    decreases axes@.len() - i,
{
    if i >= axes.len() {
        ExprNode::Num(0)
    } else if axes[i].fake {
        index_tree_x(axes, i + 1)
    } else {
        let axis_offset = ExprNode::Op(
            Term::Mul,
            Box::new(
                ExprNode::Op(
                    Term::Add,
                    Box::new(
                        ExprNode::Op(
                            Term::Sub,
                            Box::new(coord_node_x(axes, i)),
                            Box::new(ExprNode::Num(axes[i].pad_start as i64)),
                        ),
                    ),
                    Box::new(ExprNode::Num(axes[i].slice_start as i64)),
                ),
            ),
            Box::new(phys_stride_node_x(axes, i)),
        );
        ExprNode::Op(Term::Add, Box::new(axis_offset), Box::new(index_tree_x(axes, i + 1)))
    }
}

fn valid_tree_x(axes: &Vec<Axis>, i: usize) -> (r: ExprNode)
    ensures
        r == valid_tree_from(axes@, i as int),
    decreases axes@.len() - i,
{
    if i >= axes.len() {
        ExprNode::Num(1)
    } else if !(axes[i].pad_start != 0 || axes[i].pad_end != 0 || !(axes[i].slice_end
        == SLICE_OPEN)) {
        valid_tree_x(axes, i + 1)
    } else {
        let check = ExprNode::Op(
            Term::And,
            Box::new(
                ExprNode::Op(
                    Term::Gte,
                    Box::new(coord_node_x(axes, i)),
                    Box::new(ExprNode::Num(axes[i].pad_start as i64)),
                ),
            ),
            Box::new(
                ExprNode::Op(
                    Term::Lt,
                    Box::new(coord_node_x(axes, i)),
                    Box::new(
                        ExprNode::Op(
                            Term::Add,
                            Box::new(ExprNode::Num(axes[i].pad_start as i64)),
                            Box::new(eff_node_x(&axes[i])),
                        ),
                    ),
                ),
            ),
        );
        ExprNode::Op(Term::And, Box::new(check), Box::new(valid_tree_x(axes, i + 1)))
    }
}

impl ShapeTracker {
    /// Every axis is well formed.
    pub open spec fn wf(&self) -> bool {
        forall|i: int| 0 <= i < self.axes@.len() ==> axis_wf(#[trigger] self.axes@[i])
    }

    /// A view of plain fixed axes.
    pub fn new(dims: &Vec<u64>) -> (r: Self)
        ensures
            r.axes@.len() == dims@.len(),
            forall|i: int|
                0 <= i < dims@.len() ==> #[trigger] r.axes@[i] == (Axis {
                    size: DimSize::Fixed(dims@[i]),
                    pad_start: 0,
                    pad_end: 0,
                    slice_start: 0,
                    slice_end: SLICE_OPEN,
                    fake: false,
                }),
    {
        let mut axes: Vec<Axis> = Vec::new();
        let mut i: usize = 0;
        while i < dims.len()
            invariant
                0 <= i <= dims@.len(),
                axes@.len() == i,
                forall|j: int|
                    0 <= j < i ==> #[trigger] axes@[j] == (Axis {
                        size: DimSize::Fixed(dims@[j]),
                        pad_start: 0,
                        pad_end: 0,
                        slice_start: 0,
                        slice_end: SLICE_OPEN,
                        fake: false,
                    }),
            decreases dims@.len() - i,
        {
            axes.push(
                Axis {
                    size: DimSize::Fixed(dims[i]),
                    pad_start: 0,
                    pad_end: 0,
                    slice_start: 0,
                    slice_end: SLICE_OPEN,
                    fake: false,
                },
            );
            i = i + 1;
        }
        ShapeTracker { axes }
    }

    /// Whether every axis is well formed: lets an unverified caller test
    /// this before entering functions that require it.
    pub fn is_well_formed(&self) -> (r: bool)
        ensures
            r == self.wf(),
    {
        let mut i: usize = 0;
        while i < self.axes.len()
            invariant
                0 <= i <= self.axes@.len(),
                forall|j: int| 0 <= j < i ==> axis_wf(#[trigger] self.axes@[j]),
            decreases self.axes@.len() - i,
        {
            let a = self.axes[i];
            let size_ok = match a.size {
                DimSize::Fixed(v) => v <= i32::MAX as u64,
                DimSize::Sym(c) => c != 'z',
            };
            if !(size_ok && a.pad_start <= i32::MAX as u64 && a.pad_end <= i32::MAX as u64
                && a.slice_start <= i32::MAX as u64 && (a.slice_end == SLICE_OPEN || (
            a.slice_start <= a.slice_end && a.slice_end <= i32::MAX as u64)) && (a.slice_end
                != SLICE_OPEN || a.slice_start == 0)) {
                proof {
                    assert(!axis_wf(self.axes@[i as int]));
                }
                return false;
            }
            i = i + 1;
        }
        true
    }

    /// An exact copy of the view.
    pub fn duplicate(&self) -> (r: Self)
        ensures
            r.axes@ == self.axes@,
    {
        let mut axes: Vec<Axis> = Vec::new();
        let mut i: usize = 0;
        while i < self.axes.len()
            invariant
                0 <= i <= self.axes@.len(),
                axes@ =~= self.axes@.subrange(0, i as int),
            decreases self.axes@.len() - i,
        {
            axes.push(self.axes[i]);
            i = i + 1;
        }
        proof {
            assert(axes@ =~= self.axes@);
        }
        ShapeTracker { axes }
    }

    /// The view with a broadcast axis of the given extent inserted at `at`.
    pub fn expanded(&self, at: usize, size: DimSize) -> (r: Self)
        requires
            at <= self.axes@.len(),
        ensures
            r.axes@ == self.axes@.insert(
                at as int,
                Axis {
                    size,
                    pad_start: 0,
                    pad_end: 0,
                    slice_start: 0,
                    slice_end: SLICE_OPEN,
                    fake: true,
                },
            ),
    {
        let mut r = self.duplicate();
        r.axes.insert(
            at,
            Axis {
                size,
                pad_start: 0,
                pad_end: 0,
                slice_start: 0,
                slice_end: SLICE_OPEN,
                fake: true,
            },
        );
        r
    }

    /// Pad the given axis at both ends.
    pub fn set_padding(&mut self, i: usize, pad_start: u64, pad_end: u64)
        requires
            i < old(self).axes@.len(),
        ensures
            final(self).axes@ == old(self).axes@.update(
                i as int,
                Axis { pad_start, pad_end, ..old(self).axes@[i as int] },
            ),
    {
        let a = self.axes[i];
        self.axes[i] = Axis { pad_start, pad_end, ..a };
    }

    /// Slice the given axis to `[slice_start, slice_end)`.
    pub fn set_slice(&mut self, i: usize, slice_start: u64, slice_end: u64)
        requires
            i < old(self).axes@.len(),
        ensures
            final(self).axes@ == old(self).axes@.update(
                i as int,
                Axis { slice_start, slice_end, ..old(self).axes@[i as int] },
            ),
    {
        let a = self.axes[i];
        self.axes[i] = Axis { slice_start, slice_end, ..a };
    }

    /// Drop an axis (used by reductions to form their output view).
    pub fn remove_dim(&mut self, dim: usize)
        requires
            dim < old(self).axes@.len(),
        ensures
            final(self).axes@ == old(self).axes@.remove(dim as int),
    {
        self.axes.remove(dim);
    }

    /// The index expression: the physical offset of the logical element
    /// `z`, as a scalar expression over `z` and the dynamic dimension
    /// symbols.
    pub fn index_expression(&self) -> (r: Expression)
        ensures
            r.terms@ == node_rpn(index_tree(self.axes@)),
            r.wf(),
    {
        let tree = index_tree_x(&self.axes, 0);
        proof {
            lemma_index_tree_ok(self.axes@, 0);
            crate::expr::lemma_node_wf(index_tree(self.axes@));
        }
        Expression { terms: rpn_of_node(&tree) }
    }

    /// The validity expression: nonzero exactly when the logical element
    /// `z` lies on real (not padded, not sliced-out) data.
    pub fn valid_expression(&self) -> (r: Expression)
        ensures
            r.terms@ == node_rpn(valid_tree(self.axes@)),
            r.wf(),
    {
        let tree = valid_tree_x(&self.axes, 0);
        proof {
            lemma_index_tree_ok(self.axes@, 0);
            crate::expr::lemma_node_wf(valid_tree(self.axes@));
        }
        Expression { terms: rpn_of_node(&tree) }
    }
}

/// The axis symbols the environment resolves, with a non-negative kept
/// region on every axis.
pub open spec fn shape_resolved(axes: Seq<Axis>, env: Map<char, int>) -> bool {
    forall|i: int|
        0 <= i < axes.len() ==> size_covered((#[trigger] axes[i]).size, env) && eff_len(
            axes[i],
            env,
        ) >= 0
}

/// Product of the logical lengths of the axes in `[i, j)`.
pub open spec fn log_size_range(axes: Seq<Axis>, i: int, j: int, env: Map<char, int>) -> int
    decreases j - i,
{
    if i < 0 || i >= j || j > axes.len() {
        1
    } else {
        log_len(axes[i], env) * log_size_range(axes, i + 1, j, env)
    }
}

pub proof fn lemma_log_size_range_is_from(axes: Seq<Axis>, i: int, env: Map<char, int>)
    requires
        0 <= i <= axes.len(),
    ensures
        log_size_range(axes, i, axes.len() as int, env) == log_size_from(axes, i, env),
    decreases axes.len() - i,
{
    if i < axes.len() {
        lemma_log_size_range_is_from(axes, i + 1, env);
    }
}

/// Splitting a product of logical lengths at any point.
pub proof fn lemma_log_size_range_split(axes: Seq<Axis>, i: int, j: int, k: int, env: Map<
    char,
    int,
>)
    requires
        0 <= i <= j <= k <= axes.len(),
    ensures
        log_size_range(axes, i, k, env) == log_size_range(axes, i, j, env) * log_size_range(
            axes,
            j,
            k,
            env,
        ),
    decreases j - i,
{
    if i < j {
        lemma_log_size_range_split(axes, i + 1, j, k, env);
        vstd::arithmetic::mul::lemma_mul_is_associative(
            log_len(axes[i], env),
            log_size_range(axes, i + 1, j, env),
            log_size_range(axes, j, k, env),
        );
    }
}

pub proof fn lemma_log_size_range_one(axes: Seq<Axis>, j: int, env: Map<char, int>)
    requires
        0 <= j < axes.len(),
    ensures
        log_size_range(axes, j, j + 1, env) == log_len(axes[j], env),
{
    assert(log_size_range(axes, j + 1, j + 1, env) == 1);
}

pub proof fn lemma_log_size_zero(axes: Seq<Axis>, i: int, j: int, env: Map<char, int>)
    requires
        0 <= i <= j < axes.len(),
        log_len(axes[j], env) == 0,
    ensures
        log_size_from(axes, i, env) == 0,
    decreases j - i,
{
    if i < j {
        lemma_log_size_zero(axes, i + 1, j, env);
    } else {
        lemma_log_size_range_is_from(axes, i, env);
    }
}

pub proof fn lemma_log_size_pos_each(axes: Seq<Axis>, i: int, env: Map<char, int>)
    requires
        forall|j: int| 0 <= j < axes.len() ==> log_len(#[trigger] axes[j], env) >= 1,
        0 <= i,
    ensures
        log_size_from(axes, i, env) >= 1,
    decreases axes.len() - i,
{
    if i < axes.len() {
        lemma_log_size_pos_each(axes, i + 1, env);
        lemma_mul_strictly_positive(log_len(axes[i], env), log_size_from(axes, i + 1, env));
    }
}

fn size_value_x(d: DimSize, env: &DynDimMap) -> (r: Option<u64>)
    ensures
        r == (if size_covered(d, env.env()) {
            Some(size_val(d, env.env()) as u64)
        } else {
            None::<u64>
        }),
        r matches Some(v) ==> v == size_val(d, env.env()),
{
    match d {
        DimSize::Fixed(v) => Some(v),
        DimSize::Sym(c) => {
            match env.get(c) {
                Some(v) => {
                    if v <= i32::MAX as u64 {
                        Some(v)
                    } else {
                        None
                    }
                },
                None => None,
            }
        },
    }
}

/// The logical length of one axis under the environment; `None` when a
/// symbol is unbound or the slice empties past the size.
fn log_len_x(a: &Axis, env: &DynDimMap) -> (r: Option<u64>)
    requires
        axis_wf(*a),
    ensures
        size_covered(a.size, env.env()) && eff_len(*a, env.env()) >= 0 ==> r is Some,
        r matches Some(v) ==> v as int == log_len(*a, env.env()) && size_covered(
            a.size,
            env.env(),
        ) && eff_len(*a, env.env()) >= 0,
{
    match size_value_x(a.size, env) {
        None => None,
        Some(size) => {
            let eff: u64 = if a.slice_end == SLICE_OPEN {
                size
            } else {
                let kept = if a.slice_end <= size {
                    a.slice_end
                } else {
                    size
                };
                if kept < a.slice_start {
                    return None;
                }
                kept - a.slice_start
            };
            Some(a.pad_start + eff + a.pad_end)
        },
    }
}

impl ShapeTracker {
    /// Logical element count of the axes in `[from, to)`: the product of
    /// their logical lengths. `None` when a symbol is unbound, a slice is
    /// inconsistent, or the product leaves the 64-bit range.
    #[verifier::rlimit(80)]
    pub fn n_elements_range(&self, env: &DynDimMap, from: usize, to: usize) -> (r: Option<u64>)
        requires
            self.wf(),
            from <= to <= self.axes@.len(),
        ensures
            shape_resolved(self.axes@, env.env()) ==> match r {
                Some(v) => v == log_size_range(self.axes@, from as int, to as int, env.env()),
                None => log_size_range(self.axes@, from as int, to as int, env.env())
                    > u64::MAX,
            },
    {
        let ghost e = env.env();
        let mut acc: u64 = 1;
        let mut i: usize = from;
        while i < to
            invariant
                from <= i <= to <= self.axes@.len(),
                self.wf(),
                e == env.env(),
                shape_resolved(self.axes@, e) ==> acc as int == log_size_range(
                    self.axes@,
                    from as int,
                    i as int,
                    e,
                ),
            decreases to - i,
        {
            let l = match log_len_x(&self.axes[i], env) {
                Some(l) => l,
                None => {
                    return None;
                },
            };
            proof {
                lemma_log_size_range_split(self.axes@, from as int, i as int, i as int + 1, e);
                lemma_log_size_range_one(self.axes@, i as int, e);
            }
            acc = match acc.checked_mul(l) {
                Some(v) => v,
                None => {
                    // The remaining axes cannot shrink the product below
                    // what already overflows, unless one of them is zero;
                    // rule that out by scanning for a zero length.
                    let mut j: usize = i + 1;
                    while j < to
                        invariant
                            from <= i < j <= to <= self.axes@.len(),
                            self.wf(),
                            e == env.env(),
                            shape_resolved(self.axes@, e) ==> log_size_range(
                                self.axes@,
                                i as int + 1,
                                j as int,
                                e,
                            ) >= 1,
                        decreases to - j,
                    {
                        let lj = match log_len_x(&self.axes[j], env) {
                            Some(v) => v,
                            None => {
                                return None;
                            },
                        };
                        if lj == 0 {
                            proof {
                                if shape_resolved(self.axes@, e) {
                                    lemma_log_size_range_split(
                                        self.axes@,
                                        from as int,
                                        j as int,
                                        to as int,
                                        e,
                                    );
                                    lemma_log_size_range_split(
                                        self.axes@,
                                        j as int,
                                        j as int + 1,
                                        to as int,
                                        e,
                                    );
                                    lemma_log_size_range_one(self.axes@, j as int, e);
                                    assert(log_len(self.axes@[j as int], e) == 0);
                                    assert(log_size_range(self.axes@, j as int, j as int + 1, e)
                                        == 0);
                                    assert(log_size_range(self.axes@, j as int, to as int, e)
                                        == 0);
                                    assert(log_size_range(self.axes@, from as int, to as int, e)
                                        == 0);
                                }
                            }
                            return Some(0);
                        }
                        proof {
                            if shape_resolved(self.axes@, e) {
                                lemma_log_size_range_split(
                                    self.axes@,
                                    i as int + 1,
                                    j as int,
                                    j as int + 1,
                                    e,
                                );
                                lemma_log_size_range_one(self.axes@, j as int, e);
                                lemma_mul_strictly_positive(
                                    log_size_range(self.axes@, i as int + 1, j as int, e),
                                    log_size_range(self.axes@, j as int, j as int + 1, e),
                                );
                            }
                        }
                        j = j + 1;
                    }
                    proof {
                        if shape_resolved(self.axes@, e) {
                            lemma_log_size_range_split(
                                self.axes@,
                                from as int,
                                i as int + 1,
                                to as int,
                                e,
                            );
                            vstd::arithmetic::mul::lemma_mul_increases(
                                log_size_range(self.axes@, i as int + 1, to as int, e),
                                acc as int * l as int,
                            );
                            vstd::arithmetic::mul::lemma_mul_is_commutative(
                                acc as int * l as int,
                                log_size_range(self.axes@, i as int + 1, to as int, e),
                            );
                        }
                    }
                    return None;
                },
            };
            i = i + 1;
        }
        proof {
            if shape_resolved(self.axes@, e) {
                lemma_log_size_range_split(self.axes@, from as int, i as int, to as int, e);
            }
        }
        Some(acc)
    }

    /// Number of logical elements of the view.
    pub fn n_elements(&self, env: &DynDimMap) -> (r: Option<u64>)
        requires
            self.wf(),
        ensures
            shape_resolved(self.axes@, env.env()) ==> match r {
                Some(v) => v == n_elements_model(self.axes@, env.env()),
                None => n_elements_model(self.axes@, env.env()) > u64::MAX,
            },
    {
        let r = self.n_elements_range(env, 0, self.axes.len());
        proof {
            lemma_log_size_range_is_from(self.axes@, 0, env.env());
        }
        r
    }
}

/// Product of the physical sizes of the non-fake axes in `[i, j)`.
pub open spec fn phys_size_range(axes: Seq<Axis>, i: int, j: int, env: Map<char, int>) -> int
    decreases j - i,
{
    if i < 0 || i >= j || j > axes.len() {
        1
    } else {
        (if axes[i].fake {
            1
        } else {
            size_val(axes[i].size, env)
        }) * phys_size_range(axes, i + 1, j, env)
    }
}

pub proof fn lemma_phys_size_range_is_from(axes: Seq<Axis>, i: int, env: Map<char, int>)
    requires
        0 <= i <= axes.len(),
    ensures
        phys_size_range(axes, i, axes.len() as int, env) == phys_size_from(axes, i, env),
    decreases axes.len() - i,
{
    if i < axes.len() {
        lemma_phys_size_range_is_from(axes, i + 1, env);
    }
}

pub proof fn lemma_phys_size_range_split(axes: Seq<Axis>, i: int, j: int, k: int, env: Map<
    char,
    int,
>)
    requires
        0 <= i <= j <= k <= axes.len(),
    ensures
        phys_size_range(axes, i, k, env) == phys_size_range(axes, i, j, env) * phys_size_range(
            axes,
            j,
            k,
            env,
        ),
    decreases j - i,
{
    if i < j {
        lemma_phys_size_range_split(axes, i + 1, j, k, env);
        vstd::arithmetic::mul::lemma_mul_is_associative(
            if axes[i].fake {
                1
            } else {
                size_val(axes[i].size, env)
            },
            phys_size_range(axes, i + 1, j, env),
            phys_size_range(axes, j, k, env),
        );
    }
}

pub proof fn lemma_phys_size_range_one(axes: Seq<Axis>, j: int, env: Map<char, int>)
    requires
        0 <= j < axes.len(),
    ensures
        phys_size_range(axes, j, j + 1, env) == (if axes[j].fake {
            1int
        } else {
            size_val(axes[j].size, env)
        }),
{
    assert(phys_size_range(axes, j + 1, j + 1, env) == 1);
}

/// Physical extent of one axis: 1 for a broadcast axis, else its size.
fn phys_len_x(a: &Axis, env: &DynDimMap) -> (r: Option<u64>)
    requires
        axis_wf(*a),
    ensures
        size_covered(a.size, env.env()) ==> r is Some,
        r matches Some(v) ==> v as int == (if a.fake {
            1int
        } else {
            size_val(a.size, env.env())
        }),
{
    if a.fake {
        Some(1)
    } else {
        size_value_x(a.size, env)
    }
}

impl ShapeTracker {
    /// Number of physical elements of the underlying buffer: the product of
    /// the non-fake axis sizes. `None` when a symbol is unbound or the
    /// product leaves the 64-bit range.
    #[verifier::rlimit(80)]
    pub fn n_physical_elements(&self, env: &DynDimMap) -> (r: Option<u64>)
        requires
            self.wf(),
        ensures
            shape_resolved(self.axes@, env.env()) ==> match r {
                Some(v) => v == n_physical_model(self.axes@, env.env()),
                None => n_physical_model(self.axes@, env.env()) > u64::MAX,
            },
    {
        let ghost e = env.env();
        let to = self.axes.len();
        let mut acc: u64 = 1;
        let mut i: usize = 0;
        while i < to
            invariant
                0 <= i <= to == self.axes@.len(),
                self.wf(),
                e == env.env(),
                shape_resolved(self.axes@, e) ==> acc as int == phys_size_range(
                    self.axes@,
                    0,
                    i as int,
                    e,
                ),
            decreases to - i,
        {
            let l = match phys_len_x(&self.axes[i], env) {
                Some(l) => l,
                None => {
                    return None;
                },
            };
            proof {
                lemma_phys_size_range_split(self.axes@, 0, i as int, i as int + 1, e);
                lemma_phys_size_range_one(self.axes@, i as int, e);
            }
            acc = match acc.checked_mul(l) {
                Some(v) => v,
                None => {
                    let mut j: usize = i + 1;
                    while j < to
                        invariant
                            0 <= i < j <= to == self.axes@.len(),
                            self.wf(),
                            e == env.env(),
                            shape_resolved(self.axes@, e) ==> phys_size_range(
                                self.axes@,
                                i as int + 1,
                                j as int,
                                e,
                            ) >= 1,
                        decreases to - j,
                    {
                        let lj = match phys_len_x(&self.axes[j], env) {
                            Some(v) => v,
                            None => {
                                return None;
                            },
                        };
                        if lj == 0 {
                            proof {
                                if shape_resolved(self.axes@, e) {
                                    lemma_phys_size_range_split(
                                        self.axes@,
                                        0,
                                        j as int,
                                        to as int,
                                        e,
                                    );
                                    lemma_phys_size_range_split(
                                        self.axes@,
                                        j as int,
                                        j as int + 1,
                                        to as int,
                                        e,
                                    );
                                    lemma_phys_size_range_one(self.axes@, j as int, e);
                                    assert(phys_size_range(self.axes@, j as int, j as int + 1, e)
                                        == 0);
                                    assert(phys_size_range(self.axes@, j as int, to as int, e)
                                        == 0);
                                    vstd::arithmetic::mul::lemma_mul_by_zero_is_zero(
                                        phys_size_range(self.axes@, 0, j as int, e),
                                    );
                                    assert(phys_size_range(self.axes@, 0, to as int, e) == 0);
                                    lemma_phys_size_range_is_from(self.axes@, 0, e);
                                }
                            }
                            return Some(0);
                        }
                        proof {
                            if shape_resolved(self.axes@, e) {
                                lemma_phys_size_range_split(
                                    self.axes@,
                                    i as int + 1,
                                    j as int,
                                    j as int + 1,
                                    e,
                                );
                                lemma_phys_size_range_one(self.axes@, j as int, e);
                                lemma_mul_strictly_positive(
                                    phys_size_range(self.axes@, i as int + 1, j as int, e),
                                    phys_size_range(self.axes@, j as int, j as int + 1, e),
                                );
                            }
                        }
                        j = j + 1;
                    }
                    proof {
                        if shape_resolved(self.axes@, e) {
                            lemma_phys_size_range_split(
                                self.axes@,
                                0,
                                i as int + 1,
                                to as int,
                                e,
                            );
                            vstd::arithmetic::mul::lemma_mul_increases(
                                phys_size_range(self.axes@, i as int + 1, to as int, e),
                                acc as int * l as int,
                            );
                            vstd::arithmetic::mul::lemma_mul_is_commutative(
                                acc as int * l as int,
                                phys_size_range(self.axes@, i as int + 1, to as int, e),
                            );
                            lemma_phys_size_range_is_from(self.axes@, 0, e);
                        }
                    }
                    return None;
                },
            };
            i = i + 1;
        }
        proof {
            if shape_resolved(self.axes@, e) {
                lemma_phys_size_range_is_from(self.axes@, 0, e);
            }
        }
        Some(acc)
    }
}

// ---------------------------------------------------------------------------
// Dynamic dimension symbols of a set of views.
// ---------------------------------------------------------------------------

/// The symbol of one axis, if its size is dynamic.
pub open spec fn axis_syms(a: Axis) -> Seq<char> {
    match a.size {
        DimSize::Fixed(_) => Seq::empty(),
        DimSize::Sym(c) => seq![c],
    }
}

/// Symbols of a view's axes, in axis order.
pub open spec fn shape_syms(axes: Seq<Axis>) -> Seq<char>
    decreases axes.len(),
{
    if axes.len() == 0 {
        Seq::empty()
    } else {
        shape_syms(axes.drop_last()) + axis_syms(axes.last())
    }
}

/// Symbols of several views (each given as its axis sequence), in order.
pub open spec fn shapes_syms(shapes: Seq<Seq<Axis>>) -> Seq<char>
    decreases shapes.len(),
{
    if shapes.len() == 0 {
        Seq::empty()
    } else {
        shapes_syms(shapes.drop_last()) + shape_syms(shapes.last())
    }
}

/// The axis sequences of a sequence of views.
pub open spec fn views_of(shapes: Seq<ShapeTracker>) -> Seq<Seq<Axis>> {
    shapes.map_values(|st: ShapeTracker| st.axes@)
}

/// Keep the first occurrence of each symbol, in order, starting from `acc`.
pub open spec fn dedup_first(s: Seq<char>, acc: Seq<char>) -> Seq<char>
    decreases s.len(),
{
    if s.len() == 0 {
        acc
    } else {
        dedup_first(
            s.subrange(1, s.len() as int),
            if acc.contains(s[0]) {
                acc
            } else {
                acc.push(s[0])
            },
        )
    }
}

/// The ordered distinct dynamic dimension symbols of the given views.
pub open spec fn dyn_syms(shapes: Seq<Seq<Axis>>) -> Seq<char> {
    dedup_first(shapes_syms(shapes), Seq::empty())
}

/// The parameter-list suffix appended to every kernel signature:
/// `", const int s"` for each symbol `s` in order.
pub open spec fn dyn_suffix(syms: Seq<char>) -> Seq<char>
    decreases syms.len(),
{
    if syms.len() == 0 {
        Seq::empty()
    } else {
        dyn_suffix(syms.drop_last()) + ", const int "@ + seq![syms.last()]
    }
}

pub proof fn lemma_dedup_split(s1: Seq<char>, s2: Seq<char>, acc: Seq<char>)
    ensures
        dedup_first(s1 + s2, acc) == dedup_first(s2, dedup_first(s1, acc)),
    decreases s1.len(),
{
    if s1.len() == 0 {
        assert(s1 + s2 =~= s2);
    } else {
        assert((s1 + s2)[0] == s1[0]);
        assert((s1 + s2).subrange(1, (s1 + s2).len() as int) =~= s1.subrange(
            1,
            s1.len() as int,
        ) + s2);
        lemma_dedup_split(
            s1.subrange(1, s1.len() as int),
            s2,
            if acc.contains(s1[0]) {
                acc
            } else {
                acc.push(s1[0])
            },
        );
    }
}

fn contains_char(v: &Vec<char>, c: char) -> (r: bool)
    ensures
        r == v@.contains(c),
{
    let mut i: usize = 0;
    while i < v.len()
        invariant
            0 <= i <= v@.len(),
            forall|j: int| 0 <= j < i ==> v@[j] != c,
        decreases v@.len() - i,
    {
        if v[i] == c {
            return true;
        }
        i = i + 1;
    }
    false
}

/// Collect every distinct dynamic dimension symbol of the given views,
/// first occurrence first, and render the kernel-parameter suffix
/// `", const int s1, const int s2, …"`.
pub fn render_dyn_dim_inputs(shapes: &[ShapeTracker]) -> (r: (Vec<char>, String))
    ensures
        r.0@ == dyn_syms(views_of(shapes@)),
        r.1@ == dyn_suffix(dyn_syms(views_of(shapes@))),
{
    let mut syms: Vec<char> = Vec::new();
    let mut k: usize = 0;
    proof {
        assert(shapes@.subrange(0, 0) =~= Seq::<ShapeTracker>::empty());
        assert(dedup_first(Seq::<char>::empty(), Seq::<char>::empty()) == Seq::<char>::empty());
    }
    while k < shapes.len()
        invariant
            0 <= k <= shapes@.len(),
            syms@ == dedup_first(shapes_syms(views_of(shapes@.subrange(0, k as int))), Seq::empty()),
        decreases shapes@.len() - k,
    {
        let st = &shapes[k];
        let ghost pre_shapes = views_of(shapes@.subrange(0, k as int));
        let mut i: usize = 0;
        proof {
            assert(st.axes@.subrange(0, 0) =~= Seq::<Axis>::empty());
            lemma_dedup_split(shapes_syms(pre_shapes), Seq::empty(), Seq::empty());
            assert(shapes_syms(pre_shapes) + Seq::<char>::empty() =~= shapes_syms(pre_shapes));
        }
        while i < st.axes.len()
            invariant
                0 <= i <= st.axes@.len(),
                syms@ == dedup_first(
                    shapes_syms(views_of(shapes@.subrange(0, k as int))) + shape_syms(
                        st.axes@.subrange(0, i as int),
                    ),
                    Seq::empty(),
                ),
                0 <= k < shapes@.len(),
                st == &shapes[k as int],
            decreases st.axes@.len() - i,
        {
            let ghost pre = shapes_syms(views_of(shapes@.subrange(0, k as int))) + shape_syms(
                st.axes@.subrange(0, i as int),
            );
            match st.axes[i].size {
                DimSize::Fixed(_) => {},
                DimSize::Sym(c) => {
                    if !contains_char(&syms, c) {
                        syms.push(c);
                    }
                    proof {
                        lemma_dedup_split(pre, seq![c], Seq::empty());
                        assert(dedup_first(seq![c], dedup_first(pre, Seq::empty()))
                            == dedup_first(
                            seq![c].subrange(1, 1),
                            if dedup_first(pre, Seq::empty()).contains(c) {
                                dedup_first(pre, Seq::empty())
                            } else {
                                dedup_first(pre, Seq::empty()).push(c)
                            },
                        ));
                        assert(seq![c].subrange(1, 1) =~= Seq::<char>::empty());
                    }
                },
            }
            proof {
                assert(st.axes@.subrange(0, i as int + 1).drop_last() =~= st.axes@.subrange(
                    0,
                    i as int,
                ));
                assert(st.axes@.subrange(0, i as int + 1).last() == st.axes@[i as int]);
                assert(pre + axis_syms(st.axes@[i as int]) =~= shapes_syms(
                    views_of(shapes@.subrange(0, k as int)),
                ) + shape_syms(st.axes@.subrange(0, i as int + 1)));
                lemma_dedup_split(pre, axis_syms(st.axes@[i as int]), Seq::empty());
            }
            i = i + 1;
        }
        proof {
            assert(st.axes@.subrange(0, st.axes@.len() as int) =~= st.axes@);
            assert(views_of(shapes@.subrange(0, k as int + 1)).drop_last() =~= views_of(
                shapes@.subrange(0, k as int),
            ));
            assert(views_of(shapes@.subrange(0, k as int + 1)).last() == shapes@[k as int].axes@);
        }
        k = k + 1;
    }
    proof {
        assert(shapes@.subrange(0, shapes@.len() as int) =~= shapes@);
    }
    let mut suffix = String::new();
    let mut i: usize = 0;
    while i < syms.len()
        invariant
            0 <= i <= syms@.len(),
            suffix@ == dyn_suffix(syms@.subrange(0, i as int)),
        decreases syms@.len() - i,
    {
        suffix.append(", const int ");
        crate::expr::push_char(&mut suffix, syms[i]);
        proof {
            assert(syms@.subrange(0, i as int + 1).drop_last() =~= syms@.subrange(0, i as int));
            assert(syms@.subrange(0, i as int + 1).last() == syms@[i as int]);
            assert(suffix@ =~= dyn_suffix(syms@.subrange(0, i as int + 1)));
        }
        i = i + 1;
    }
    proof {
        assert(syms@.subrange(0, syms@.len() as int) =~= syms@);
    }
    (syms, suffix)
}

/// An axis that neither pads, slices, nor broadcasts.
pub open spec fn plain_axis(a: Axis) -> bool {
    a.pad_start == 0 && a.pad_end == 0 && a.slice_start == 0 && a.slice_end == SLICE_OPEN
        && !a.fake
}

/// A view whose every axis is plain: the logical layout is the physical one.
pub open spec fn contiguous_view(axes: Seq<Axis>) -> bool {
    forall|i: int| 0 <= i < axes.len() ==> plain_axis(#[trigger] axes[i])
}

proof fn lemma_plain_offset(axes: Seq<Axis>, i: int, env: Map<char, int>, z: int)
    requires
        shape_env_ok(axes, env),
        contiguous_view(axes),
        0 <= i <= axes.len(),
        0 <= z,
    ensures
        offset_from(axes, i, env, z) == z % log_size_from(axes, i, env),
        in_bounds_from(axes, i, env, z),
    decreases axes.len() - i,
{
    if i >= axes.len() {
        assert(z % 1int == 0) by (nonlinear_arith);
    } else {
        lemma_plain_offset(axes, i + 1, env, z);
        let l = log_len(axes[i], env);
        let t = log_size_from(axes, i + 1, env);
        lemma_log_size_pos(axes, i + 1, env);
        vstd::arithmetic::div_mod::lemma_breakdown(z, t, l);
        assert(log_size_from(axes, i, env) == l * t);
        vstd::arithmetic::mul::lemma_mul_is_commutative(l, t);
        // on a plain axis the physical stride is the logical one
        lemma_plain_strides(axes, i + 1, env);
        lemma_div_pos_is_pos(z, t);
        lemma_mod_bound(z / t, l);
        vstd::arithmetic::mul::lemma_mul_is_commutative((z / t) % l, t);
        assert(eff_len(axes[i], env) == l);
    }
}

proof fn lemma_plain_strides(axes: Seq<Axis>, i: int, env: Map<char, int>)
    requires
        shape_env_ok(axes, env),
        contiguous_view(axes),
        0 <= i,
    ensures
        phys_size_from(axes, i, env) == log_size_from(axes, i, env),
    decreases axes.len() - i,
{
    if i < axes.len() {
        lemma_plain_strides(axes, i + 1, env);
    }
}

/// Packing an already-contiguous view is the identity: every logical index
/// in range is in bounds and its physical offset is the index itself, so
/// the lowered index expression evaluates to `z` and the lowered validity
/// expression to 1.
pub proof fn lemma_contiguous_identity(axes: Seq<Axis>, env: Map<char, int>, z: int)
    requires
        shape_env_ok(axes, env),
        contiguous_view(axes),
        0 <= z < n_elements_model(axes, env),
    ensures
        in_bounds_model(axes, env, z),
        offset_model(axes, env, z) == z,
        rpn_value(node_rpn(index_tree(axes)), kernel_env(env, z)) == Some(z),
        rpn_value(node_rpn(valid_tree(axes)), kernel_env(env, z)) == Some(1int),
{
    lemma_plain_offset(axes, 0, env, z);
    vstd::arithmetic::div_mod::lemma_small_mod(z as nat, n_elements_model(axes, env) as nat);
    lemma_lowering_matches_model(axes, env, z);
}

impl ShapeTracker {
    /// The dense view the packing kernel writes: every axis becomes plain
    /// (no padding, no slicing, not broadcast) with the same logical length.
    /// An axis that pads or slices must resolve numerically; `None` when a
    /// symbol is unbound, a slice is inconsistent, or a logical length does
    /// not fit a 32-bit literal.
    pub fn contiguous(&self, env: &DynDimMap) -> (r: Option<ShapeTracker>)
        requires
            self.wf(),
        ensures
            r matches Some(st) ==> {
                &&& st.wf()
                &&& contiguous_view(st.axes@)
                &&& st.axes@.len() == self.axes@.len()
                &&& forall|i: int|
                    0 <= i < self.axes@.len() ==> log_len(#[trigger] st.axes@[i], env.env())
                        == log_len(self.axes@[i], env.env())
            },
            shape_resolved(self.axes@, env.env()) && (forall|i: int|
                0 <= i < self.axes@.len() ==> log_len(#[trigger] self.axes@[i], env.env())
                    <= i32::MAX) ==> r is Some,
    {
        let mut axes: Vec<Axis> = Vec::new();
        let mut i: usize = 0;
        while i < self.axes.len()
            invariant
                0 <= i <= self.axes@.len(),
                self.wf(),
                axes@.len() == i,
                forall|j: int|
                    0 <= j < i ==> axis_wf(#[trigger] axes@[j]) && plain_axis(axes@[j]) && log_len(
                        axes@[j],
                        env.env(),
                    ) == log_len(self.axes@[j], env.env()),
            decreases self.axes@.len() - i,
        {
            let a = self.axes[i];
            let plain = a.pad_start == 0 && a.pad_end == 0 && a.slice_start == 0 && a.slice_end
                == SLICE_OPEN;
            if plain {
                axes.push(
                    Axis {
                        size: a.size,
                        pad_start: 0,
                        pad_end: 0,
                        slice_start: 0,
                        slice_end: SLICE_OPEN,
                        fake: false,
                    },
                );
            } else {
                let l = match log_len_x(&a, env) {
                    Some(l) => l,
                    None => {
                        proof {
                            assert(!(size_covered(self.axes@[i as int].size, env.env())
                                && eff_len(self.axes@[i as int], env.env()) >= 0));
                        }
                        return None;
                    },
                };
                if l > i32::MAX as u64 {
                    proof {
                        assert(log_len(self.axes@[i as int], env.env()) > i32::MAX);
                    }
                    return None;
                }
                axes.push(
                    Axis {
                        size: DimSize::Fixed(l),
                        pad_start: 0,
                        pad_end: 0,
                        slice_start: 0,
                        slice_end: SLICE_OPEN,
                        fake: false,
                    },
                );
            }
            i = i + 1;
        }
        Some(ShapeTracker { axes })
    }
}

/// The pair of lowered expressions of a view, rendered in the GPU C
/// dialect: the index expression, then the validity expression.
pub fn get_idx_valid_exps(shape: &ShapeTracker) -> (r: (String, String))
    ensures
        r.0@ == crate::expr::rpn_text(node_rpn(index_tree(shape.axes@))),
        r.1@ == crate::expr::rpn_text(node_rpn(valid_tree(shape.axes@))),
{
    let idx = shape.index_expression();
    let valid = shape.valid_expression();
    (crate::expr::expr_to_cuda_string(&idx), crate::expr::expr_to_cuda_string(&valid))
}

} // verus!
