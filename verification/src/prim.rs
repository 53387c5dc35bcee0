//! The device operator factories: for each primitive tensor operator, the
//! GPU kernel source synthesized from a fixed template specialized by the
//! element type name, the input views' lowered index/validity expressions,
//! and the dynamic-dimension parameter suffix.
//!
//! Every kernel follows one launch convention: one thread per output
//! element, parameters `(out, inputs…, numel, dynamic symbols…)`;
//! reductions pass `front_size, back_size, dim_size` before `numel`.

use crate::expr::{DynDimMap, Expression};
use crate::shape::{
    dyn_suffix, dyn_syms, index_tree, log_size_range, n_elements_model, valid_tree, ShapeTracker,
};
use crate::expr::{node_rpn, rpn_text};
use vstd::prelude::*;
use vstd::string::StringExecFns;

verus! {

/// The element type a kernel is specialized for.
#[derive(Clone, Copy, PartialEq, Eq, Structural, Debug)]
pub enum ElemKind {
    F32,
    F16,
}

pub open spec fn spec_type_name(e: ElemKind) -> Seq<char> {
    match e {
        ElemKind::F32 => "float"@,
        ElemKind::F16 => "__half"@,
    }
}

impl ElemKind {
    /// The type's name in device source.
    pub fn device_name(&self) -> (r: &'static str)
        ensures
            r@ == spec_type_name(*self),
    {
        match self {
            ElemKind::F32 => "float",
            ElemKind::F16 => "__half",
        }
    }

    pub fn is_f32(&self) -> (r: bool)
        ensures
            r == (*self is F32),
    {
        match self {
            ElemKind::F32 => true,
            ElemKind::F16 => false,
        }
    }
}

/// The lowered index expression of a view, as text.
pub open spec fn idx_text(axes: Seq<crate::shape::Axis>) -> Seq<char> {
    rpn_text(node_rpn(index_tree(axes)))
}

/// The lowered validity expression of a view, as text.
pub open spec fn valid_text(axes: Seq<crate::shape::Axis>) -> Seq<char> {
    rpn_text(node_rpn(valid_tree(axes)))
}

/// The kernel-signature suffix for the dynamic symbols of the given views.
pub open spec fn suffix_text(shapes: Seq<Seq<crate::shape::Axis>>) -> Seq<char> {
    dyn_suffix(dyn_syms(shapes))
}

// ---------------------------------------------------------------------------
// Templates.
// ---------------------------------------------------------------------------

/// Unary elementwise kernel: `out[i] = f(inp[i])` for `i < numel`.
pub open spec fn spec_unary_kernel(tn: Seq<char>, f: Seq<char>) -> Seq<char> {
    "\n#include \"cuda_fp16.h\"\nextern \"C\" __global__ void kernel("@ + tn + " *out, const "@
        + tn
        + " *inp, int numel) {\n    int i = blockIdx.x * blockDim.x + threadIdx.x;\n    if (i < numel) {\n        out[i] = "@
        + f + "(inp[i]);\n    }\n}"@
}

fn unary_kernel(tn: &str, f: &str) -> (r: String)
    ensures
        r@ == spec_unary_kernel(tn@, f@),
{
    let mut s = String::new();
    s.append("\n#include \"cuda_fp16.h\"\nextern \"C\" __global__ void kernel(");
    s.append(tn);
    s.append(" *out, const ");
    s.append(tn);
    s.append(
        " *inp, int numel) {\n    int i = blockIdx.x * blockDim.x + threadIdx.x;\n    if (i < numel) {\n        out[i] = ",
    );
    s.append(f);
    s.append("(inp[i]);\n    }\n}");
    proof {
        assert(s@ =~= spec_unary_kernel(tn@, f@));
    }
    s
}

/// Contiguous kernel: packs a logical view into a dense buffer, writing
/// only the valid positions.
pub open spec fn spec_contiguous_kernel(tn: Seq<char>, st: Seq<crate::shape::Axis>) -> Seq<char> {
    "\n#include \"cuda_fp16.h\"\nextern \"C\" __global__ void kernel("@ + tn + " *out, const "@
        + tn + " *inp_a, int numel"@ + suffix_text(seq![st])
        + ") {\n    int idx = blockIdx.x * blockDim.x + threadIdx.x;\n    if (idx < numel && ("@
        + valid_text(st) + ") != 0) {\n        out[idx] = inp_a["@ + idx_text(st)
        + "];\n    }\n}"@
}

/// Binary elementwise kernel body for `+` and `*`: each operand masked to
/// zero where its view is invalid.
pub open spec fn spec_binary_kernel(
    tn: Seq<char>,
    op: Seq<char>,
    a: Seq<crate::shape::Axis>,
    b: Seq<crate::shape::Axis>,
) -> Seq<char> {
    "\n#include \"cuda_fp16.h\"\nextern \"C\" __global__ void kernel("@ + tn + " *out, const "@
        + tn + " *inp_a, const "@ + tn + " *inp_b, int numel"@ + suffix_text(seq![a, b])
        + ") {\n    int idx = blockIdx.x * blockDim.x + threadIdx.x;\n    if (idx < numel) {\n        out[idx] = (("@
        + valid_text(a) + ") == 0 ? ("@ + tn + ")0.0 : inp_a["@ + idx_text(a) + "]) "@ + op
        + " (("@ + valid_text(b) + ") == 0 ? ("@ + tn + ")0.0 : inp_b["@ + idx_text(b)
        + "]);\n    }\n}"@
}

/// Binary modulo kernel: `fmod` of the two masked operands.
pub open spec fn spec_mod_kernel(tn: Seq<char>, a: Seq<crate::shape::Axis>, b: Seq<crate::shape::Axis>) -> Seq<char> {
    "\n#include \"cuda_fp16.h\"\nextern \"C\" __global__ void kernel("@ + tn + " *out, const "@
        + tn + " *inp_a, const "@ + tn + " *inp_b, int numel"@ + suffix_text(seq![a, b])
        + ") {\n    int idx = blockIdx.x * blockDim.x + threadIdx.x;\n    if (idx < numel) {\n        out[idx] = fmod((("@
        + valid_text(a) + ") == 0 ? ("@ + tn + ")0.0 : inp_a["@ + idx_text(a) + "]), (("@
        + valid_text(b) + ") == 0 ? ("@ + tn + ")0.0 : inp_b["@ + idx_text(b)
        + "]));\n    }\n}"@
}

/// Less-than kernel: `1.0` where the left masked operand is below the
/// right, else `0.0`.
pub open spec fn spec_less_than_kernel(
    tn: Seq<char>,
    a: Seq<crate::shape::Axis>,
    b: Seq<crate::shape::Axis>,
) -> Seq<char> {
    "\n#include \"cuda_fp16.h\"\nextern \"C\" __global__ void kernel("@ + tn + " *out, const "@
        + tn + " *inp_a, const "@ + tn + " *inp_b, int numel"@ + suffix_text(seq![a, b])
        + ") {\n    int idx = blockIdx.x * blockDim.x + threadIdx.x;\n    if (idx < numel) {\n        "@
        + tn + " a_t = (("@ + valid_text(a) + ") != 0) ? inp_a["@ + idx_text(a) + "] : ("@ + tn
        + ")0.0;\n        "@ + tn + " b_t = (("@ + valid_text(b) + ") != 0) ? inp_b["@ + idx_text(
        b,
    ) + "] : ("@ + tn
        + ")0.0;\n        if (a_t < b_t) {\n            out[idx] = ("@ + tn
        + ")1.0;\n        } else {\n            out[idx] = ("@ + tn + ")0.0;\n        }\n    }\n}"@
}

/// Reduction kernel: each thread sweeps the reduced axis, skipping invalid
/// positions, accumulating in 32-bit float.
pub open spec fn spec_reduce_kernel(
    tn: Seq<char>,
    init: Seq<char>,
    accum_pre: Seq<char>,
    accum_post: Seq<char>,
    st: Seq<crate::shape::Axis>,
) -> Seq<char> {
    "#include \"cuda_fp16.h\"\nextern \"C\" __global__ void kernel("@ + tn + " *out, const "@ + tn
        + " *inp, const int front_size, const int back_size, const int dim_size, int numel"@
        + suffix_text(seq![st])
        + ") {\n    int i_ = blockIdx.x * blockDim.x + threadIdx.x;\n\n    if (i_ < numel) {\n        int a_ = i_ / back_size;\n        int b_ = i_ % back_size;\n        float reduce_value = "@
        + init
        + ";\n        for (int c_ = 0; c_ < dim_size; c_++) {\n            int idx = a_ * dim_size * back_size + c_ * back_size + b_;\n            if (("@
        + valid_text(st) + ") != 0) {\n                reduce_value = "@ + accum_pre + "inp["@
        + idx_text(st) + "]"@ + accum_post + ";\n            }\n        }\n        out[i_] = ("@
        + tn + ")reduce_value;\n    }\n}"@
}

// ---------------------------------------------------------------------------
// Operator instances. Each owns its kernel source and the ordered dynamic
// dimension symbols its launch expects; the compiled handle is attached by
// the loader outside this crate.
// ---------------------------------------------------------------------------

pub struct CudaLog2 {
    pub code: String,
}

impl CudaLog2 {
    pub fn new(elem: ElemKind) -> (r: Self)
        ensures
            r.code@ == spec_unary_kernel(spec_type_name(elem), "log2"@),
    {
        CudaLog2 { code: unary_kernel(elem.device_name(), "log2") }
    }
}

pub struct CudaExp2 {
    pub code: String,
}

impl CudaExp2 {
    pub fn new(elem: ElemKind) -> (r: Self)
        ensures
            r.code@ == spec_unary_kernel(spec_type_name(elem), "exp2"@),
    {
        CudaExp2 { code: unary_kernel(elem.device_name(), "exp2") }
    }
}

pub struct CudaSin {
    pub code: String,
}

impl CudaSin {
    pub fn new(elem: ElemKind) -> (r: Self)
        ensures
            r.code@ == spec_unary_kernel(spec_type_name(elem), "sin"@),
    {
        CudaSin { code: unary_kernel(elem.device_name(), "sin") }
    }
}

pub struct CudaSqrt {
    pub code: String,
}

impl CudaSqrt {
    /// `sqrt` for 32-bit floats, `hsqrt` for 16-bit.
    pub fn new(elem: ElemKind) -> (r: Self)
        ensures
            r.code@ == spec_unary_kernel(
                spec_type_name(elem),
                if elem is F32 {
                    "sqrt"@
                } else {
                    "hsqrt"@
                },
            ),
    {
        let f = if elem.is_f32() {
            "sqrt"
        } else {
            "hsqrt"
        };
        CudaSqrt { code: unary_kernel(elem.device_name(), f) }
    }
}

pub struct CudaRecip {
    pub code: String,
}

impl CudaRecip {
    /// `__frcp_rn` for 32-bit floats, `hrcp` for 16-bit.
    pub fn new(elem: ElemKind) -> (r: Self)
        ensures
            r.code@ == spec_unary_kernel(
                spec_type_name(elem),
                if elem is F32 {
                    "__frcp_rn"@
                } else {
                    "hrcp"@
                },
            ),
    {
        let f = if elem.is_f32() {
            "__frcp_rn"
        } else {
            "hrcp"
        };
        CudaRecip { code: unary_kernel(elem.device_name(), f) }
    }
}

pub struct CudaContiguous {
    pub code: String,
    pub dyn_symbols: Vec<char>,
}

impl CudaContiguous {
    pub fn new(shape: &ShapeTracker, elem: ElemKind) -> (r: Self)
        ensures
            r.code@ == spec_contiguous_kernel(spec_type_name(elem), shape.axes@),
            r.dyn_symbols@ == dyn_syms(seq![shape.axes@]),
    {
        let (idx, valid) = crate::shape::get_idx_valid_exps(shape);
        let shapes_vec = vec![shape.duplicate()];
        proof {
            assert(crate::shape::views_of(shapes_vec@) =~= seq![shape.axes@]);
        }
        let (dyn_symbols, rendered) = crate::shape::render_dyn_dim_inputs(shapes_vec.as_slice());
        let tn = elem.device_name();
        let mut s = String::new();
        s.append("\n#include \"cuda_fp16.h\"\nextern \"C\" __global__ void kernel(");
        s.append(tn);
        s.append(" *out, const ");
        s.append(tn);
        s.append(" *inp_a, int numel");
        s.append(rendered.as_str());
        s.append(") {\n    int idx = blockIdx.x * blockDim.x + threadIdx.x;\n    if (idx < numel && (");
        s.append(valid.as_str());
        s.append(") != 0) {\n        out[idx] = inp_a[");
        s.append(idx.as_str());
        s.append("];\n    }\n}");
        proof {
            assert(s@ =~= spec_contiguous_kernel(spec_type_name(elem), shape.axes@));
        }
        CudaContiguous { code: s, dyn_symbols }
    }
}

/// Shared construction of the two-operand elementwise kernels.
fn binary_sources(a_shape: &ShapeTracker, b_shape: &ShapeTracker) -> (r: (
    String,
    String,
    String,
    String,
    Vec<char>,
    String,
))
    ensures
        r.0@ == idx_text(a_shape.axes@),
        r.1@ == valid_text(a_shape.axes@),
        r.2@ == idx_text(b_shape.axes@),
        r.3@ == valid_text(b_shape.axes@),
        r.4@ == dyn_syms(seq![a_shape.axes@, b_shape.axes@]),
        r.5@ == suffix_text(seq![a_shape.axes@, b_shape.axes@]),
{
    let (a_idx, a_valid) = crate::shape::get_idx_valid_exps(a_shape);
    let (b_idx, b_valid) = crate::shape::get_idx_valid_exps(b_shape);
    let shapes_vec = vec![a_shape.duplicate(), b_shape.duplicate()];
    proof {
        assert(crate::shape::views_of(shapes_vec@) =~= seq![a_shape.axes@, b_shape.axes@]);
    }
    let (dyn_symbols, rendered) = crate::shape::render_dyn_dim_inputs(shapes_vec.as_slice());
    (a_idx, a_valid, b_idx, b_valid, dyn_symbols, rendered)
}

pub struct CudaAdd {
    pub code: String,
    pub dyn_symbols: Vec<char>,
}

impl CudaAdd {
    pub fn new(a_shape: &ShapeTracker, b_shape: &ShapeTracker, elem: ElemKind) -> (r: Self)
        ensures
            r.code@ == spec_binary_kernel(spec_type_name(elem), "+"@, a_shape.axes@, b_shape.axes@),
            r.dyn_symbols@ == dyn_syms(seq![a_shape.axes@, b_shape.axes@]),
    {
        let (code, dyn_symbols) = binary_kernel(a_shape, b_shape, elem, "+");
        proof {
            reveal_strlit("+");
        }
        CudaAdd { code, dyn_symbols }
    }
}

pub struct CudaMul {
    pub code: String,
    pub dyn_symbols: Vec<char>,
}

impl CudaMul {
    pub fn new(a_shape: &ShapeTracker, b_shape: &ShapeTracker, elem: ElemKind) -> (r: Self)
        ensures
            r.code@ == spec_binary_kernel(spec_type_name(elem), "*"@, a_shape.axes@, b_shape.axes@),
            r.dyn_symbols@ == dyn_syms(seq![a_shape.axes@, b_shape.axes@]),
    {
        let (code, dyn_symbols) = binary_kernel(a_shape, b_shape, elem, "*");
        CudaMul { code, dyn_symbols }
    }
}

fn binary_kernel(a_shape: &ShapeTracker, b_shape: &ShapeTracker, elem: ElemKind, op: &str) -> (r: (
    String,
    Vec<char>,
))
    ensures
        r.0@ == spec_binary_kernel(spec_type_name(elem), op@, a_shape.axes@, b_shape.axes@),
        r.1@ == dyn_syms(seq![a_shape.axes@, b_shape.axes@]),
{
    let (a_idx, a_valid, b_idx, b_valid, dyn_symbols, rendered) = binary_sources(a_shape, b_shape);
    let tn = elem.device_name();
    let mut s = String::new();
    s.append("\n#include \"cuda_fp16.h\"\nextern \"C\" __global__ void kernel(");
    s.append(tn);
    s.append(" *out, const ");
    s.append(tn);
    s.append(" *inp_a, const ");
    s.append(tn);
    s.append(" *inp_b, int numel");
    s.append(rendered.as_str());
    s.append(") {\n    int idx = blockIdx.x * blockDim.x + threadIdx.x;\n    if (idx < numel) {\n        out[idx] = ((");
    s.append(a_valid.as_str());
    s.append(") == 0 ? (");
    s.append(tn);
    s.append(")0.0 : inp_a[");
    s.append(a_idx.as_str());
    s.append("]) ");
    s.append(op);
    s.append(" ((");
    s.append(b_valid.as_str());
    s.append(") == 0 ? (");
    s.append(tn);
    s.append(")0.0 : inp_b[");
    s.append(b_idx.as_str());
    s.append("]);\n    }\n}");
    proof {
        assert(s@ =~= spec_binary_kernel(spec_type_name(elem), op@, a_shape.axes@, b_shape.axes@));
    }
    (s, dyn_symbols)
}

pub struct CudaMod {
    pub code: String,
    pub dyn_symbols: Vec<char>,
}

impl CudaMod {
    pub fn new(a_shape: &ShapeTracker, b_shape: &ShapeTracker, elem: ElemKind) -> (r: Self)
        ensures
            r.code@ == spec_mod_kernel(spec_type_name(elem), a_shape.axes@, b_shape.axes@),
            r.dyn_symbols@ == dyn_syms(seq![a_shape.axes@, b_shape.axes@]),
    {
        let (a_idx, a_valid, b_idx, b_valid, dyn_symbols, rendered) = binary_sources(
            a_shape,
            b_shape,
        );
        let tn = elem.device_name();
        let mut s = String::new();
        s.append("\n#include \"cuda_fp16.h\"\nextern \"C\" __global__ void kernel(");
        s.append(tn);
        s.append(" *out, const ");
        s.append(tn);
        s.append(" *inp_a, const ");
        s.append(tn);
        s.append(" *inp_b, int numel");
        s.append(rendered.as_str());
        s.append(") {\n    int idx = blockIdx.x * blockDim.x + threadIdx.x;\n    if (idx < numel) {\n        out[idx] = fmod(((");
        s.append(a_valid.as_str());
        s.append(") == 0 ? (");
        s.append(tn);
        s.append(")0.0 : inp_a[");
        s.append(a_idx.as_str());
        s.append("]), ((");
        s.append(b_valid.as_str());
        s.append(") == 0 ? (");
        s.append(tn);
        s.append(")0.0 : inp_b[");
        s.append(b_idx.as_str());
        s.append("]));\n    }\n}");
        proof {
            assert(s@ =~= spec_mod_kernel(spec_type_name(elem), a_shape.axes@, b_shape.axes@));
        }
        CudaMod { code: s, dyn_symbols }
    }
}

pub struct CudaLessThan {
    pub code: String,
    pub dyn_symbols: Vec<char>,
}

impl CudaLessThan {
    pub fn new(a_shape: &ShapeTracker, b_shape: &ShapeTracker, elem: ElemKind) -> (r: Self)
        ensures
            r.code@ == spec_less_than_kernel(spec_type_name(elem), a_shape.axes@, b_shape.axes@),
            r.dyn_symbols@ == dyn_syms(seq![a_shape.axes@, b_shape.axes@]),
    {
        let (a_idx, a_valid, b_idx, b_valid, dyn_symbols, rendered) = binary_sources(
            a_shape,
            b_shape,
        );
        let tn = elem.device_name();
        let mut s = String::new();
        s.append("\n#include \"cuda_fp16.h\"\nextern \"C\" __global__ void kernel(");
        s.append(tn);
        s.append(" *out, const ");
        s.append(tn);
        s.append(" *inp_a, const ");
        s.append(tn);
        s.append(" *inp_b, int numel");
        s.append(rendered.as_str());
        s.append(") {\n    int idx = blockIdx.x * blockDim.x + threadIdx.x;\n    if (idx < numel) {\n        ");
        s.append(tn);
        s.append(" a_t = ((");
        s.append(a_valid.as_str());
        s.append(") != 0) ? inp_a[");
        s.append(a_idx.as_str());
        s.append("] : (");
        s.append(tn);
        s.append(")0.0;\n        ");
        s.append(tn);
        s.append(" b_t = ((");
        s.append(b_valid.as_str());
        s.append(") != 0) ? inp_b[");
        s.append(b_idx.as_str());
        s.append("] : (");
        s.append(tn);
        s.append(")0.0;\n        if (a_t < b_t) {\n            out[idx] = (");
        s.append(tn);
        s.append(")1.0;\n        } else {\n            out[idx] = (");
        s.append(tn);
        s.append(")0.0;\n        }\n    }\n}");
        proof {
            assert(s@ =~= spec_less_than_kernel(spec_type_name(elem), a_shape.axes@, b_shape.axes@));
        }
        CudaLessThan { code: s, dyn_symbols }
    }
}

fn reduce_kernel(
    shape: &ShapeTracker,
    elem: ElemKind,
    init: &str,
    accum_pre: &str,
    accum_post: &str,
) -> (r: (String, Vec<char>))
    ensures
        r.0@ == spec_reduce_kernel(spec_type_name(elem), init@, accum_pre@, accum_post@, shape.axes@),
        r.1@ == dyn_syms(seq![shape.axes@]),
{
    let (idx, valid) = crate::shape::get_idx_valid_exps(shape);
    let shapes_vec = vec![shape.duplicate()];
    proof {
        assert(crate::shape::views_of(shapes_vec@) =~= seq![shape.axes@]);
    }
    let (dyn_symbols, rendered) = crate::shape::render_dyn_dim_inputs(shapes_vec.as_slice());
    let tn = elem.device_name();
    let mut s = String::new();
    s.append("#include \"cuda_fp16.h\"\nextern \"C\" __global__ void kernel(");
    s.append(tn);
    s.append(" *out, const ");
    s.append(tn);
    s.append(" *inp, const int front_size, const int back_size, const int dim_size, int numel");
    s.append(rendered.as_str());
    s.append(") {\n    int i_ = blockIdx.x * blockDim.x + threadIdx.x;\n\n    if (i_ < numel) {\n        int a_ = i_ / back_size;\n        int b_ = i_ % back_size;\n        float reduce_value = ");
    s.append(init);
    s.append(";\n        for (int c_ = 0; c_ < dim_size; c_++) {\n            int idx = a_ * dim_size * back_size + c_ * back_size + b_;\n            if ((");
    s.append(valid.as_str());
    s.append(") != 0) {\n                reduce_value = ");
    s.append(accum_pre);
    s.append("inp[");
    s.append(idx.as_str());
    s.append("]");
    s.append(accum_post);
    s.append(";\n            }\n        }\n        out[i_] = (");
    s.append(tn);
    s.append(")reduce_value;\n    }\n}");
    proof {
        assert(s@ =~= spec_reduce_kernel(
            spec_type_name(elem),
            init@,
            accum_pre@,
            accum_post@,
            shape.axes@,
        ));
    }
    (s, dyn_symbols)
}

pub struct CudaSumReduce {
    pub code: String,
    pub dyn_symbols: Vec<char>,
    pub dim: usize,
}

impl CudaSumReduce {
    /// Sum along `dim`; the identity is `0.0`.
    pub fn new(dim: usize, shape: &ShapeTracker, elem: ElemKind) -> (r: Self)
        ensures
            r.code@ == spec_reduce_kernel(
                spec_type_name(elem),
                "0.0"@,
                "reduce_value + (float)"@,
                ""@,
                shape.axes@,
            ),
            r.dyn_symbols@ == dyn_syms(seq![shape.axes@]),
            r.dim == dim,
    {
        let (code, dyn_symbols) = reduce_kernel(shape, elem, "0.0", "reduce_value + (float)", "");
        CudaSumReduce { code, dyn_symbols, dim }
    }
}

pub struct CudaMaxReduce {
    pub code: String,
    pub dyn_symbols: Vec<char>,
    pub dim: usize,
}

impl CudaMaxReduce {
    /// Maximum along `dim`; the identity is negative infinity.
    pub fn new(dim: usize, shape: &ShapeTracker, elem: ElemKind) -> (r: Self)
        ensures
            r.code@ == spec_reduce_kernel(
                spec_type_name(elem),
                "-__int_as_float(0x7f800000)"@,
                "max(reduce_value, (float)"@,
                ")"@,
                shape.axes@,
            ),
            r.dyn_symbols@ == dyn_syms(seq![shape.axes@]),
            r.dim == dim,
    {
        let (code, dyn_symbols) = reduce_kernel(
            shape,
            elem,
            "-__int_as_float(0x7f800000)",
            "max(reduce_value, (float)",
            ")",
        );
        CudaMaxReduce { code, dyn_symbols, dim }
    }
}

/// A constant's value: the raw bits of a 32-bit float literal, or a
/// symbolic expression resolved against the dynamic dimension map when the
/// operator runs.
pub enum ConstantValue {
    Float(u32),
    Expr(Expression),
}

pub struct CudaConstant {
    pub value: ConstantValue,
}

impl CudaConstant {
    pub fn new(value: ConstantValue) -> (r: Self)
        ensures
            r.value == value,
    {
        CudaConstant { value }
    }

    /// The integer value of an expression constant under the current
    /// dynamic dimension map; `None` for a float literal (whose bits are in
    /// the payload) or an expression the map does not determine.
    pub fn resolve(&self, env: &DynDimMap) -> (r: Option<i64>)
        ensures
            self.value matches ConstantValue::Expr(e) ==> (crate::expr::rpn_bounded_from(
                e.terms@,
                env.env(),
                Seq::empty(),
            ) ==> r == (match crate::expr::rpn_value(e.terms@, env.env()) {
                Some(v) => Some(v as i64),
                None => None::<i64>,
            })),
            self.value matches ConstantValue::Expr(e) ==> (!crate::expr::rpn_bounded_from(
                e.terms@,
                env.env(),
                Seq::empty(),
            ) ==> r is None),
            self.value is Float ==> r is None,
    {
        match &self.value {
            ConstantValue::Expr(e) => e.exec(env),
            ConstantValue::Float(_) => None,
        }
    }
}

/// The current values of an operator's dynamic dimension symbols, in the
/// order its kernel expects them as trailing parameters; `None` as soon as
/// one symbol is unbound.
pub fn dyn_dim_values(syms: &Vec<char>, env: &DynDimMap) -> (r: Option<Vec<u64>>)
    ensures
        match r {
            Some(v) => v@.len() == syms@.len() && forall|k: int|
                0 <= k < syms@.len() ==> crate::expr::lookup_entries(env.entries@, #[trigger] syms@[k])
                    == Some(v@[k]),
            None => exists|k: int|
                0 <= k < syms@.len() && crate::expr::lookup_entries(env.entries@, #[trigger] syms@[k])
                    is None,
        },
{
    let mut out: Vec<u64> = Vec::new();
    let mut k: usize = 0;
    while k < syms.len()
        invariant
            0 <= k <= syms@.len(),
            out@.len() == k,
            forall|j: int|
                0 <= j < k ==> crate::expr::lookup_entries(env.entries@, #[trigger] syms@[j])
                    == Some(out@[j]),
        decreases syms@.len() - k,
    {
        match env.get(syms[k]) {
            Some(v) => {
                out.push(v);
            },
            None => {
                proof {
                    assert(crate::expr::lookup_entries(env.entries@, syms@[k as int]) is None);
                }
                return None;
            },
        }
        k = k + 1;
    }
    Some(out)
}

// ---------------------------------------------------------------------------
// Launch geometry.
// ---------------------------------------------------------------------------

/// Threads per block of the shared launch convention.
pub const BLOCK_THREADS: u32 = 1024;

/// The grid/block pair covering `n` elements, one thread each: enough
/// whole blocks to cover `n`, and none at all for an empty output.
pub fn launch_blocks(n: u32) -> (r: (u32, u32))
    ensures
        r.1 == BLOCK_THREADS,
        r.0 == (n + BLOCK_THREADS - 1) as int / BLOCK_THREADS as int,
        n == 0 ==> r.0 == 0,
        r.0 as int * BLOCK_THREADS as int >= n as int,
{
    let blocks: u64 = ((n as u64) + (BLOCK_THREADS as u64) - 1) / (BLOCK_THREADS as u64);
    proof {
        assert(blocks as int * BLOCK_THREADS as int >= n as int) by (nonlinear_arith)
            requires
                blocks == (n as int + BLOCK_THREADS - 1) / (BLOCK_THREADS as int),
                n <= u32::MAX,
                BLOCK_THREADS == 1024,
        ;
    }
    (blocks as u32, BLOCK_THREADS)
}

// ---------------------------------------------------------------------------
// Reduction geometry.
// ---------------------------------------------------------------------------

/// The launch sizes of a reduction along `dim`: the product of the logical
/// lengths in front of the axis, behind it, the axis length itself, and the
/// output element count. For every reduction,
/// `front * dim_size * back == n_elements(input)` and
/// `front * back == n_elements(output)`.
pub fn reduce_sizes(shape: &ShapeTracker, dim: usize, env: &DynDimMap) -> (r: Option<
    (u64, u64, u64, u64),
>)
    requires
        shape.wf(),
        dim < shape.axes@.len(),
    ensures
        crate::shape::shape_resolved(shape.axes@, env.env()) ==> match r {
            Some(sizes) => {
                &&& sizes.0 as int * sizes.2 as int * sizes.1 as int == n_elements_model(
                    shape.axes@,
                    env.env(),
                )
                &&& sizes.0 as int * sizes.1 as int == sizes.3 as int
                &&& sizes.3 as int == n_elements_model(shape.axes@.remove(dim as int), env.env())
                &&& sizes.2 as int == log_size_range(
                    shape.axes@,
                    dim as int,
                    dim as int + 1,
                    env.env(),
                )
            },
            None => log_size_range(shape.axes@, 0, dim as int, env.env()) > u64::MAX
                || log_size_range(shape.axes@, dim as int + 1, shape.axes@.len() as int, env.env())
                > u64::MAX || log_size_range(shape.axes@, dim as int, dim as int + 1, env.env())
                > u64::MAX || n_elements_model(shape.axes@.remove(dim as int), env.env())
                > u64::MAX,
        },
{
    let ghost e = env.env();
    let len = shape.axes.len();
    let front = match shape.n_elements_range(env, 0, dim) {
        Some(v) => v,
        None => {
            return None;
        },
    };
    let back = match shape.n_elements_range(env, dim + 1, len) {
        Some(v) => v,
        None => {
            return None;
        },
    };
    let dim_size = match shape.n_elements_range(env, dim, dim + 1) {
        Some(v) => v,
        None => {
            return None;
        },
    };
    let numel_out = match front.checked_mul(back) {
        Some(v) => v,
        None => {
            proof {
                if crate::shape::shape_resolved(shape.axes@, e) {
                    lemma_remove_product(shape.axes@, dim as int, e);
                }
            }
            return None;
        },
    };
    proof {
        if crate::shape::shape_resolved(shape.axes@, e) {
            lemma_reduce_split(shape.axes@, dim as int, e);
            lemma_remove_product(shape.axes@, dim as int, e);
            vstd::arithmetic::mul::lemma_mul_is_associative(
                front as int,
                dim_size as int,
                back as int,
            );
            vstd::arithmetic::mul::lemma_mul_is_commutative(dim_size as int, back as int);
        }
    }
    Some((front, back, dim_size, numel_out))
}

/// The input element count splits at the reduced axis:
/// `front * (dim_size * back) == n_elements`.
proof fn lemma_reduce_split(axes: Seq<crate::shape::Axis>, d: int, env: Map<char, int>)
    requires
        0 <= d < axes.len(),
    ensures
        log_size_range(axes, 0, d, env) * (log_size_range(axes, d, d + 1, env) * log_size_range(
            axes,
            d + 1,
            axes.len() as int,
            env,
        )) == n_elements_model(axes, env),
{
    crate::shape::lemma_log_size_range_split(axes, 0, d, axes.len() as int, env);
    crate::shape::lemma_log_size_range_split(axes, d, d + 1, axes.len() as int, env);
    crate::shape::lemma_log_size_range_is_from(axes, 0, env);
}




/// Removing the reduced axis leaves `front * back` elements.
proof fn lemma_remove_product(axes: Seq<crate::shape::Axis>, d: int, env: Map<char, int>)
    requires
        0 <= d < axes.len(),
    ensures
        n_elements_model(axes.remove(d), env) == log_size_range(axes, 0, d, env) * log_size_range(
            axes,
            d + 1,
            axes.len() as int,
            env,
        ),
{
    lemma_remove_suffix(axes, d, d, env);
    lemma_remove_prefix(axes, d, 0, env);
    crate::shape::lemma_log_size_range_is_from(axes, d + 1, env);
}

/// Past the removed axis, the products agree with the original's tail.
proof fn lemma_remove_suffix(axes: Seq<crate::shape::Axis>, d: int, i: int, env: Map<char, int>)
    requires
        0 <= d < axes.len(),
        d <= i <= axes.len() - 1,
    ensures
        crate::shape::log_size_from(axes.remove(d), i, env) == crate::shape::log_size_from(
            axes,
            i + 1,
            env,
        ),
    decreases axes.len() - i,
{
    if i >= axes.remove(d).len() {
    } else {
        assert(axes.remove(d)[i] == axes[i + 1]);
        lemma_remove_suffix(axes, d, i + 1, env);
    }
}

/// Before the removed axis, the removed view's product is the original's
/// range up to `d` times the original's tail past `d`.
proof fn lemma_remove_prefix(axes: Seq<crate::shape::Axis>, d: int, i: int, env: Map<char, int>)
    requires
        0 <= i <= d < axes.len(),
    ensures
        crate::shape::log_size_from(axes.remove(d), i, env) == log_size_range(axes, i, d, env)
            * crate::shape::log_size_from(axes, d + 1, env),
    decreases d - i,
{
    if i == d {
        lemma_remove_suffix(axes, d, d, env);
        assert(log_size_range(axes, d, d, env) == 1);
    } else {
        assert(axes.remove(d)[i] == axes[i]);
        lemma_remove_prefix(axes, d, i + 1, env);
        vstd::arithmetic::mul::lemma_mul_is_associative(
            crate::shape::log_len(axes[i], env),
            log_size_range(axes, i + 1, d, env),
            crate::shape::log_size_from(axes, d + 1, env),
        );
    }
}

} // verus!
