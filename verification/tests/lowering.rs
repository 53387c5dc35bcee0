//! Unit tests for the expression lowering, the shape interface, and the
//! kernel cache and loader.

use luminal_cuda::expr::{expr_to_cuda_string, DynDimMap, Expression, Term};
use luminal_cuda::kernel::{prepare_kernel, stable_hash, string_of_chars, KernelCache};
use luminal_cuda::prim::{dyn_dim_values, launch_blocks, reduce_sizes, ConstantValue, CudaConstant, CudaLessThan, CudaLog2, CudaMod, CudaSqrt, ElemKind};
use luminal_cuda::shape::{get_idx_valid_exps, render_dyn_dim_inputs, DimSize, ShapeTracker};

fn chars(s: &str) -> Vec<char> {
    s.chars().collect()
}

#[test]
fn renders_numbers_and_thread_index() {
    let e = Expression { terms: vec![Term::Num(42)] };
    assert_eq!(expr_to_cuda_string(&e), "42");
    let e = Expression { terms: vec![Term::Var('z')] };
    assert_eq!(expr_to_cuda_string(&e), "(int)idx");
    let e = Expression { terms: vec![Term::Var('b')] };
    assert_eq!(expr_to_cuda_string(&e), "b");
    let e = Expression { terms: vec![Term::Num(-7)] };
    assert_eq!(expr_to_cuda_string(&e), "-7");
}

#[test]
fn renders_binary_with_pop_order() {
    // The first value popped is the left operand, so the term pushed last
    // is printed first.
    let e = Expression { terms: vec![Term::Num(1), Term::Num(2), Term::Add] };
    assert_eq!(expr_to_cuda_string(&e), "(2+1)");
    let e = Expression { terms: vec![Term::Num(1), Term::Num(2), Term::Sub] };
    assert_eq!(expr_to_cuda_string(&e), "(2-1)");
    let e = Expression { terms: vec![Term::Num(3), Term::Var('z'), Term::Max] };
    assert_eq!(expr_to_cuda_string(&e), "max((int)(int)idx, (int)3)");
    let e = Expression { terms: vec![Term::Num(3), Term::Var('z'), Term::Min] };
    assert_eq!(expr_to_cuda_string(&e), "min((int)(int)idx, (int)3)");
}

#[test]
fn evaluates_with_pop_order() {
    let env = DynDimMap::new();
    let e = Expression { terms: vec![Term::Num(1), Term::Num(7), Term::Sub] };
    assert_eq!(e.exec(&env), Some(6)); // 7 - 1: second push is the left operand
    let e = Expression { terms: vec![Term::Num(2), Term::Num(13), Term::Div] };
    assert_eq!(e.exec(&env), Some(6));
    let e = Expression { terms: vec![Term::Num(5), Term::Num(13), Term::Mod] };
    assert_eq!(e.exec(&env), Some(3));
    let e = Expression { terms: vec![Term::Num(5), Term::Num(3), Term::Lt] };
    assert_eq!(e.exec(&env), Some(1)); // 3 < 5
}

#[test]
fn evaluates_variables_from_the_dyn_map() {
    let mut env = DynDimMap::new();
    env.bind('b', 10);
    let e = Expression { terms: vec![Term::Num(4), Term::Var('b'), Term::Mul] };
    assert_eq!(e.exec(&env), Some(40));
    let e = Expression { terms: vec![Term::Num(4), Term::Var('q'), Term::Mul] };
    assert_eq!(e.exec(&env), None); // unbound symbol
    let e = Expression { terms: vec![Term::Num(0), Term::Num(3), Term::Div] };
    assert_eq!(e.exec(&env), None); // division by zero
}

#[test]
fn contiguous_shape_indexes_identically() {
    // A plain [2, 3] view: the index expression is the identity on
    // 0..6 and every position is valid.
    let st = ShapeTracker::new(&vec![2, 3]);
    let idx = st.index_expression();
    let valid = st.valid_expression();
    for z in 0..6u64 {
        let mut env = DynDimMap::new();
        env.bind('z', z);
        assert_eq!(idx.exec(&env), Some(z as i64));
        assert_eq!(valid.exec(&env), Some(1));
    }
}

#[test]
fn padded_shape_masks_the_padding() {
    // [4] padded by one in front: logical length 5; position 0 reads
    // padding, positions 1..=4 map to physical 0..=3.
    let mut st = ShapeTracker::new(&vec![4]);
    st.set_padding(0, 1, 0);
    let mut env0 = DynDimMap::new();
    assert_eq!(st.n_elements(&env0), Some(5));
    assert_eq!(st.n_physical_elements(&env0), Some(4));
    let idx = st.index_expression();
    let valid = st.valid_expression();
    env0.bind('z', 0);
    assert_eq!(valid.exec(&env0), Some(0));
    for z in 1..5u64 {
        let mut env = DynDimMap::new();
        env.bind('z', z);
        assert_eq!(valid.exec(&env), Some(1));
        assert_eq!(idx.exec(&env), Some(z as i64 - 1));
    }
}

#[test]
fn broadcast_axis_repeats_rows() {
    // [3] expanded to a fake leading axis of 2: both rows read the same
    // physical elements.
    let st = ShapeTracker::new(&vec![3]).expanded(0, DimSize::Fixed(2));
    let mut env = DynDimMap::new();
    assert_eq!(st.n_elements(&env), Some(6));
    assert_eq!(st.n_physical_elements(&env), Some(3));
    let idx = st.index_expression();
    for z in 0..6u64 {
        let mut e = DynDimMap::new();
        e.bind('z', z);
        assert_eq!(idx.exec(&e), Some((z % 3) as i64));
    }
    let _ = env.get('z');
}

#[test]
fn dynamic_dims_collect_in_first_occurrence_order() {
    let a = ShapeTracker::new(&vec![2]).expanded(0, DimSize::Sym('b'));
    let b = ShapeTracker { axes: vec![] }.expanded(0, DimSize::Sym('s')).expanded(
        0,
        DimSize::Sym('b'),
    );
    let shapes = vec![a, b];
    let (syms, suffix) = render_dyn_dim_inputs(&shapes);
    assert_eq!(syms, vec!['b', 's']);
    assert_eq!(suffix, ", const int b, const int s");
}

#[test]
fn idx_valid_strings_of_symbolic_shape() {
    let st = ShapeTracker::new(&vec![3]).expanded(0, DimSize::Sym('b'));
    let (idx, valid) = get_idx_valid_exps(&st);
    assert_eq!(idx, "(((((((int)idx/1)%3)-0)+0)*1)+0)");
    assert_eq!(valid, "1");
}

#[test]
fn stable_hash_is_a_function_of_text() {
    let a = stable_hash(&chars("kernel source"));
    let b = stable_hash(&chars("kernel source"));
    let c = stable_hash(&chars("kernel  source"));
    assert_eq!(a, b);
    assert_ne!(a, c); // whitespace changes the text, so the key may differ
}

#[test]
fn prepare_kernel_renames_every_entry_occurrence() {
    let r = prepare_kernel("extern \"C\" __global__ void kernel(float *out) { kernel_x; }");
    let name = format!("kernel_{}", r.hash);
    assert_eq!(r.name, name);
    assert_eq!(
        r.source,
        format!("extern \"C\" __global__ void {name}(float *out) {{ {name}_x; }}")
    );
}

#[test]
fn cache_returns_the_first_handle_for_equal_source() {
    let mut cache = KernelCache::new();
    let r1 = prepare_kernel("void kernel() {}");
    let h1 = cache.load(r1.hash, 11);
    assert_eq!(h1, 11);
    // a later load of textually equal source returns the cached handle,
    // whatever fresh handle the loader had ready
    let r2 = prepare_kernel("void kernel() {}");
    assert_eq!(r2.hash, r1.hash);
    let h2 = cache.load(r2.hash, 99);
    assert_eq!(h2, 11);
    assert_eq!(cache.lookup(r1.hash), Some(11));
    // a different source gets its own entry
    let r3 = prepare_kernel("void kernel() { }");
    let h3 = cache.load(r3.hash, 7);
    assert_eq!(h3, 7);
    assert_eq!(cache.lookup(r1.hash), Some(11));
}

#[test]
fn unary_template_text() {
    let log2 = CudaLog2::new(ElemKind::F32);
    assert_eq!(
        log2.code,
        "\n#include \"cuda_fp16.h\"\nextern \"C\" __global__ void kernel(float *out, const float *inp, int numel) {\n    int i = blockIdx.x * blockDim.x + threadIdx.x;\n    if (i < numel) {\n        out[i] = log2(inp[i]);\n    }\n}"
    );
    let hsqrt = CudaSqrt::new(ElemKind::F16);
    assert!(hsqrt.code.contains("hsqrt(inp[i])"));
    assert!(hsqrt.code.contains("__half *out"));
    // templates never hold the entry substring anywhere else
    assert_eq!(log2.code.matches("kernel").count(), 1);
}

#[test]
fn string_of_chars_round_trips() {
    let v = chars("abc kernel_123");
    assert_eq!(string_of_chars(&v), "abc kernel_123");
}

#[test]
fn launch_covers_every_element_and_no_empty_grid() {
    assert_eq!(launch_blocks(0), (0, 1024));
    assert_eq!(launch_blocks(1), (1, 1024));
    assert_eq!(launch_blocks(1024), (1, 1024));
    assert_eq!(launch_blocks(1025), (2, 1024));
}

#[test]
fn reduce_sizes_factor_the_element_count() {
    let st = ShapeTracker::new(&vec![2, 3]);
    let env = DynDimMap::new();
    let (front, back, dim, numel_out) = reduce_sizes(&st, 1, &env).unwrap();
    assert_eq!((front, back, dim, numel_out), (2, 1, 3, 2));
    assert_eq!(front * dim * back, st.n_elements(&env).unwrap());
    let (front, back, dim, numel_out) = reduce_sizes(&st, 0, &env).unwrap();
    assert_eq!((front, back, dim, numel_out), (1, 3, 2, 3));
    assert_eq!(front * back, numel_out);
}

#[test]
fn logical_terms_evaluate_to_flags() {
    let env = DynDimMap::new();
    let e = Expression { terms: vec![Term::Num(0), Term::Num(3), Term::And] };
    assert_eq!(e.exec(&env), Some(0));
    let e = Expression { terms: vec![Term::Num(0), Term::Num(3), Term::Or] };
    assert_eq!(e.exec(&env), Some(1));
    let e = Expression { terms: vec![Term::Num(5), Term::Num(5), Term::Gte] };
    assert_eq!(e.exec(&env), Some(1));
    let e = Expression { terms: vec![Term::Num(2), Term::Num(9), Term::Max] };
    assert_eq!(e.exec(&env), Some(9));
    let e = Expression { terms: vec![Term::Num(2), Term::Num(9), Term::Min] };
    assert_eq!(e.exec(&env), Some(2));
}

#[test]
fn constants_resolve_against_the_dyn_map() {
    let mut env = DynDimMap::new();
    env.bind('b', 6);
    let c = CudaConstant::new(ConstantValue::Expr(Expression {
        terms: vec![Term::Num(2), Term::Var('b'), Term::Div],
    }));
    assert_eq!(c.resolve(&env), Some(3));
    let f = CudaConstant::new(ConstantValue::Float(1.5f32.to_bits()));
    assert_eq!(f.resolve(&env), None);
    if let ConstantValue::Float(bits) = f.value {
        assert_eq!(f32::from_bits(bits), 1.5);
    } else {
        panic!("constant kept the wrong payload");
    }
}

#[test]
fn dyn_values_follow_symbol_order() {
    let mut env = DynDimMap::new();
    env.bind('b', 4);
    env.bind('s', 9);
    assert_eq!(dyn_dim_values(&vec!['s', 'b'], &env), Some(vec![9, 4]));
    assert_eq!(dyn_dim_values(&vec!['s', 'q'], &env), None);
}

#[test]
fn binary_templates_guard_both_operands() {
    let a = ShapeTracker::new(&vec![2]);
    let b = ShapeTracker::new(&vec![2]);
    let m = CudaMod::new(&a, &b, ElemKind::F32);
    assert!(m.code.contains("fmod((("));
    assert!(m.code.contains(") == 0 ? (float)0.0 : inp_a["));
    assert!(m.code.contains(") == 0 ? (float)0.0 : inp_b["));
    assert!(m.dyn_symbols.is_empty());
    let lt = CudaLessThan::new(&a, &b, ElemKind::F32);
    assert!(lt.code.contains("if (a_t < b_t)"));
    assert!(lt.code.contains("(float)1.0"));
}

#[test]
fn contiguous_output_view_is_plain() {
    let env = DynDimMap::new();
    let mut st = ShapeTracker::new(&vec![4]);
    st.set_padding(0, 1, 0);
    let dense = st.contiguous(&env).unwrap();
    assert_eq!(dense.axes.len(), 1);
    assert_eq!(dense.axes[0].size, DimSize::Fixed(5));
    assert_eq!(dense.n_elements(&env), st.n_elements(&env));
    // a broadcast axis materializes
    let b = ShapeTracker::new(&vec![3]).expanded(0, DimSize::Fixed(2));
    let dense = b.contiguous(&env).unwrap();
    assert!(!dense.axes[0].fake);
    assert_eq!(dense.n_physical_elements(&env), Some(6));
    // packing an already-dense view keeps it
    let c = ShapeTracker::new(&vec![2, 3]);
    let again = c.contiguous(&env).unwrap();
    assert_eq!(again.axes, c.axes);
}

#[test]
fn constant_expression_overflow_resolves_to_none() {
    // i64::MAX + i64::MAX does not fit, so the constant has no value
    let e = Expression { terms: vec![Term::Num(i64::MAX), Term::Num(i64::MAX), Term::Add] };
    let c = CudaConstant::new(ConstantValue::Expr(e));
    let env = DynDimMap::new();
    assert_eq!(c.resolve(&env), None);
}
