use fused_gpu::dispatch::backend::kernel::optimize::{optimize, FloatExpr, OptFlags};
use fused_gpu::dispatch::backend::kernel::{RawKernel, SaveIndicator};
use fused_gpu::dispatch::backend::wgsl::{
    align_meta, check_download, check_upload, generate_layout_desc, generate_wgsl, is_printable,
    size_in_bytes, size_in_words, BindingKind,
};
use fused_gpu::dispatch::backend::{
    Axis, DType, Metadata, Op, Param, ParamTy, SharedAlloc, Value, ValueId, ValueState,
};
use fused_gpu::scalar::Float32;
use fused_gpu::tensor::{build_dims, calc_grid, checked_product};

fn float(x: f32) -> Float32 {
    Float32::from_bits(x.to_bits())
}

fn empty() -> RawKernel {
    RawKernel {
        meta: Metadata::new(),
        shared: Vec::new(),
        values: Vec::new(),
        ops: Vec::new(),
        block: [16, 16, 1],
        iter_space: Vec::new(),
        root: 0,
    }
}

fn def(kernel: &mut RawKernel, dtype: DType, state: ValueState, init: Option<Op>) -> ValueId {
    let id = kernel.values.len();
    kernel.values.push(Value { state, dtype, init });
    kernel.ops.push(Op::DefineVar { id });
    id
}

fn source(kernel: &RawKernel, params: &[Param], pretty: bool) -> String {
    assert!(is_printable(kernel));
    generate_wgsl(kernel, params, pretty, &|x: Float32| {
        format!("{}", f32::from_bits(x.bits))
    })
}

/// The statements of a kernel.
fn body(kernel: &RawKernel) -> String {
    let text = source(kernel, &[], false);
    let begin = text.find(") {").unwrap() + 4;
    text[begin..text.len() - 2].to_string()
}

#[test]
fn kernels_are_written() {
    let mut kernel = empty();
    kernel.meta.new_field();
    kernel.meta.new_field();
    kernel.shared.push(SharedAlloc { dtype: DType::Float, size: 256 });
    let i = def(
        &mut kernel,
        DType::UnsignedInt,
        ValueState::Immut,
        Some(Op::GlobalId { axis: Axis::X }),
    );
    let n = def(
        &mut kernel,
        DType::UnsignedInt,
        ValueState::Inline,
        Some(Op::ReadMeta { param: 0, field: 1 }),
    );
    let fits = def(&mut kernel, DType::Bool, ValueState::Inline, Some(Op::Lt { a: i, b: n }));
    kernel.ops.push(Op::IfBegin { cond: fits });
    let x = def(
        &mut kernel,
        DType::Float,
        ValueState::Mut,
        Some(Op::ParamLoad { param: 3, index: i }),
    );
    kernel.ops.push(Op::AddAssign { id: x, val: Box::new(Op::ConstF32 { value: float(0.5) }) });
    kernel.ops.push(Op::ParamStore { param: 3, index: i, value: x });
    kernel.ops.push(Op::EndScope);
    let params = [
        Param { dtype: DType::UnsignedInt, ty: ParamTy::Uniform, pid: 0 },
        Param { dtype: DType::Float, ty: ParamTy::ReadWrite, pid: 3 },
    ];
    assert_eq!(
        source(&kernel, &params, true),
        "struct Meta {\n  f0: u32,\n  f1: u32,\n}\n\n\
         @group(0) @binding(0) var<uniform> param0: Meta;\n\
         @group(0) @binding(1) var<storage, read_write> param3: array<f32>;\n\n\
         var<workgroup> shared0: array<f32, (256)>;\n\n\
         @compute @workgroup_size(16, (16), (1)) \n\
         fn main(\n  @builtin(local_invocation_id) lid: vec3<u32>,\
         \n  @builtin(workgroup_id) bid: vec3<u32>,\
         \n  @builtin(global_invocation_id) gid: vec3<u32>,\n) {\n  \
         let v0: u32 = gid.x;\n  \n  \n  \
         if ((v0) < (param0.f1)) {\n    \
         var v3: f32 = param3[v0];\n    \
         v3 += 0.5f;\n    \
         param3[v0] = v3;\n  }\n}"
    );
    assert_eq!(
        source(&kernel, &params, false),
        "struct Meta { f0: u32, f1: u32, }  \
         @group(0) @binding(0) var<uniform> param0: Meta; \
         @group(0) @binding(1) var<storage, read_write> param3: array<f32>;  \
         var<workgroup> shared0: array<f32, (256)>;  \
         @compute @workgroup_size(16, (16), (1))  \
         fn main( @builtin(local_invocation_id) lid: vec3<u32>, \
         @builtin(workgroup_id) bid: vec3<u32>, \
         @builtin(global_invocation_id) gid: vec3<u32>, ) { \
         let v0: u32 = gid.x;   \
         if ((v0) < (param0.f1)) { \
         var v3: f32 = param3[v0]; v3 += 0.5f; param3[v0] = v3; } }"
    );
}

#[test]
fn operations_are_written() {
    let mut kernel = empty();
    let a = def(&mut kernel, DType::Float, ValueState::Mut, None);
    let b = def(
        &mut kernel,
        DType::SignedInt,
        ValueState::Const,
        Some(Op::ConstI32 { value: -7 }),
    );
    let c = def(&mut kernel, DType::Bool, ValueState::Mut, None);
    kernel.ops.clear();
    let cases: Vec<(Op, &str)> = vec![
        (Op::DefineVar { id: a }, "var v0: f32;"),
        (Op::DefineVar { id: b }, "const v1: i32 = -7;"),
        (Op::Nop, ""),
        (Op::CopyVar { id: a }, "v0"),
        (Op::ConstU32 { value: 4_000_000_000 }, "4000000000u"),
        (Op::Add { a, b }, "(v0) + (v1)"),
        (Op::Sub { a, b }, "(v0) - (v1)"),
        (Op::Mul { a, b }, "(v0) * (v1)"),
        (Op::Div { a, b }, "(v0) / (v1)"),
        (Op::Mod { a, b }, "(v0) % (v1)"),
        (Op::Shl { a, b }, "(v0) << (v1)"),
        (Op::Shr { a, b }, "(v0) >> (v1)"),
        (Op::Eq { a, b }, "(v0) == (v1)"),
        (Op::Ne { a, b }, "(v0) != (v1)"),
        (Op::Gt { a, b }, "(v0) > (v1)"),
        (Op::Le { a, b }, "(v0) <= (v1)"),
        (Op::Ge { a, b }, "(v0) >= (v1)"),
        (Op::Pow { a, b }, "pow(v0, v1)"),
        (Op::Max { a, b }, "max(v0, v1)"),
        (Op::Min { a, b }, "min(v0, v1)"),
        (Op::Fma { a, b, c: a }, "fma(v0, v1, v0)"),
        (Op::Select { cond: c, a, b }, "select(v1, v0, v2)"),
        (Op::Exp { x: a }, "exp(v0)"),
        (Op::Abs { x: a }, "abs(v0)"),
        (Op::Neg { x: a }, "-(v0)"),
        (Op::Not { cond: b }, "!(v1)"),
        (Op::Log { x: a }, "log(v0)"),
        (Op::Tanh { x: a }, "tanh(v0)"),
        (Op::Sqrt { x: a }, "sqrt(v0)"),
        (Op::LocalId { axis: Axis::Y }, "lid.y"),
        (Op::BlockId { axis: Axis::Z }, "bid.z"),
        (Op::SharedLoad { mem: 2, index: b }, "shared2[v1]"),
        (Op::SharedStore { mem: 2, index: b, value: a }, "shared2[v1] = v0;"),
        (Op::SharedAccum { mem: 2, index: b, value: a }, "shared2[v1] += v0;"),
        (Op::ParamMul { param: 5, index: b, value: a }, "param5[v1] *= v0;"),
        (Op::ParamDiv { param: 5, index: b, value: a }, "param5[v1] /= v0;"),
        (Op::ParamSub { param: 5, index: b, value: a }, "param5[v1] -= v0;"),
        (Op::ParamShl { param: 5, index: b, value: a }, "param5[v1] <<= v0;"),
        (Op::ParamShr { param: 5, index: b, value: a }, "param5[v1] >>= v0;"),
        (
            Op::OverwriteVar { id: a, val: Box::new(Op::Neg { x: a }) },
            "v0 = -(v0);",
        ),
        (Op::MulAssign { id: a, val: Box::new(Op::CopyVar { id: b }) }, "v0 *= v1;"),
        (Op::ShrAssign { id: a, val: Box::new(Op::CopyVar { id: b }) }, "v0 >>= v1;"),
        (Op::Barrier, "workgroupBarrier();"),
        (Op::Return, "return;"),
        (Op::Continue, "continue;"),
        (Op::Break, "break;"),
        (Op::ForeverLoopBegin, "loop {"),
        (
            Op::WhileLoopBegin { cond: Box::new(Op::Lt { a, b }) },
            "while ((v0) < (v1)) {",
        ),
        (
            Op::ForLoopBegin { index: a, end: b, step: b },
            "for (; v0 < v1; v0 += v1) {",
        ),
        (Op::ElseBegin, "else {"),
    ];
    for (op, text) in cases {
        kernel.ops = vec![op];
        assert_eq!(body(&kernel), text);
    }
}

#[test]
fn kernels_that_cannot_be_written_are_told_apart() {
    let mut kernel = empty();
    kernel.ops.push(Op::EndScope);
    assert!(!is_printable(&kernel));
    kernel.ops = vec![Op::ForeverLoopBegin, Op::EndScope];
    assert!(is_printable(&kernel));
    kernel.ops = vec![Op::CopyVar { id: 0 }];
    assert!(!is_printable(&kernel));
    let a = def(
        &mut kernel,
        DType::Float,
        ValueState::Inline,
        Some(Op::Neg { x: 1 }),
    );
    def(&mut kernel, DType::Float, ValueState::Inline, Some(Op::Neg { x: a }));
    assert!(!is_printable(&kernel));
    kernel.values[1].state = ValueState::Mut;
    kernel.values[1].init = None;
    assert!(is_printable(&kernel));
}

fn all() -> OptFlags {
    OptFlags { mul_add: true, div_const: true, const_fold: true, identity: true, dead_code: true }
}

fn compute(e: FloatExpr) -> Float32 {
    let f = |x: Float32| f32::from_bits(x.bits);
    float(match e {
        FloatExpr::Add(a, b) => f(a) + f(b),
        FloatExpr::Mul(a, b) => f(a) * f(b),
        FloatExpr::Sub(a, b) => f(a) - f(b),
        FloatExpr::Div(a, b) => f(a) / f(b),
        FloatExpr::MulAdd(a, b, c) => f(a) * f(b) + f(c),
        FloatExpr::Inverse(a) => 1.0 / f(a),
    })
}

fn number(kernel: &mut RawKernel, op: Op) -> ValueId {
    def(kernel, DType::Float, ValueState::Immut, Some(op))
}

fn none() -> OptFlags {
    OptFlags {
        mul_add: false,
        div_const: false,
        const_fold: false,
        identity: false,
        dead_code: false,
    }
}

#[test]
fn nothing_is_optimized_without_being_asked_for() {
    let mut kernel = empty();
    let x = number(&mut kernel, Op::ConstF32 { value: float(1.0) });
    number(&mut kernel, Op::Add { a: x, b: x });
    kernel.ops.push(Op::Nop);
    let ops = kernel.ops.clone();
    optimize(&mut kernel, none(), 0, &compute);
    assert!(kernel.ops == ops);
    optimize(&mut kernel, none(), 2, &compute);
    assert!(kernel.ops == ops[..2]);
    assert!(kernel.values[1].init == Some(Op::Add { a: x, b: x }));
}

#[test]
fn sums_of_products_are_fused() {
    let mut kernel = empty();
    let x = number(&mut kernel, Op::ParamLoad { param: 1, index: 0 });
    let y = number(&mut kernel, Op::ParamLoad { param: 2, index: 0 });
    let p = number(&mut kernel, Op::Mul { a: x, b: y });
    let s = number(&mut kernel, Op::Add { a: x, b: p });
    optimize(&mut kernel, OptFlags { mul_add: true, ..none() }, 1, &compute);
    assert!(kernel.values[s].init == Some(Op::Fma { a: x, b: y, c: x }));
    assert!(kernel.values[p].state == ValueState::Masked);
    assert!(kernel.values[x].state == ValueState::Immut);
}

#[test]
fn divisions_by_constants_become_products() {
    let mut kernel = empty();
    let x = number(&mut kernel, Op::ParamLoad { param: 1, index: 0 });
    let four = number(&mut kernel, Op::ConstF32 { value: float(4.0) });
    let q = number(&mut kernel, Op::Div { a: x, b: four });
    optimize(&mut kernel, OptFlags { div_const: true, ..none() }, 1, &compute);
    assert!(kernel.values[q].init == Some(Op::Mul { a: x, b: four }));
    assert!(kernel.values[four].init == Some(Op::ConstF32 { value: float(0.25) }));
}

#[test]
fn constants_are_folded() {
    let unsigned = |op: fn(ValueId, ValueId) -> Op, a: u32, b: u32| {
        let mut kernel = empty();
        let a = number(&mut kernel, Op::ConstU32 { value: a });
        let b = number(&mut kernel, Op::ConstU32 { value: b });
        let r = number(&mut kernel, op(a, b));
        optimize(&mut kernel, OptFlags { const_fold: true, ..none() }, 1, &compute);
        match kernel.values[r].init {
            Some(Op::ConstU32 { value }) => Some(value),
            _ => None,
        }
    };
    let signed = |op: fn(ValueId, ValueId) -> Op, a: i32, b: i32| {
        let mut kernel = empty();
        let a = number(&mut kernel, Op::ConstI32 { value: a });
        let b = number(&mut kernel, Op::ConstI32 { value: b });
        let r = number(&mut kernel, op(a, b));
        optimize(&mut kernel, OptFlags { const_fold: true, ..none() }, 1, &compute);
        match kernel.values[r].init {
            Some(Op::ConstI32 { value }) => Some(value),
            _ => None,
        }
    };
    assert_eq!(unsigned(|a, b| Op::Add { a, b }, 7, 5), Some(12));
    assert_eq!(unsigned(|a, b| Op::Add { a, b }, u32::MAX, 1), None);
    assert_eq!(unsigned(|a, b| Op::Sub { a, b }, 7, 5), Some(2));
    assert_eq!(unsigned(|a, b| Op::Sub { a, b }, 5, 7), None);
    assert_eq!(unsigned(|a, b| Op::Mul { a, b }, 7, 5), Some(35));
    assert_eq!(unsigned(|a, b| Op::Div { a, b }, 17, 5), Some(3));
    assert_eq!(unsigned(|a, b| Op::Div { a, b }, 17, 0), None);
    assert_eq!(unsigned(|a, b| Op::Shl { a, b }, 3, 31), Some(1 << 31));
    assert_eq!(unsigned(|a, b| Op::Shr { a, b }, 256, 1), Some(128));
    assert_eq!(unsigned(|a, b| Op::Shr { a, b }, 256, 32), None);
    assert_eq!(signed(|a, b| Op::Add { a, b }, -7, 5), Some(-2));
    assert_eq!(signed(|a, b| Op::Sub { a, b }, i32::MIN, 1), None);
    assert_eq!(signed(|a, b| Op::Mul { a, b }, -7, 5), Some(-35));
    assert_eq!(signed(|a, b| Op::Div { a, b }, -17, 5), Some(-3));
    assert_eq!(signed(|a, b| Op::Div { a, b }, 17, -5), Some(-3));
    assert_eq!(signed(|a, b| Op::Div { a, b }, i32::MIN, -1), None);
    assert_eq!(signed(|a, b| Op::Shr { a, b }, -8, 1), Some(-4));
    assert_eq!(signed(|a, b| Op::Shl { a, b }, -8, 1), Some(-16));

    let mut kernel = empty();
    let a = number(&mut kernel, Op::ConstF32 { value: float(2.0) });
    let b = number(&mut kernel, Op::ConstF32 { value: float(0.5) });
    let m = def(
        &mut kernel,
        DType::Float,
        ValueState::Mut,
        Some(Op::ConstF32 { value: float(3.0) }),
    );
    let sum = number(&mut kernel, Op::Add { a, b });
    let fused = number(&mut kernel, Op::Fma { a, b, c: a });
    let kept = number(&mut kernel, Op::Add { a, b: m });
    optimize(&mut kernel, OptFlags { const_fold: true, ..none() }, 1, &compute);
    assert!(kernel.values[sum].init == Some(Op::ConstF32 { value: float(2.5) }));
    assert!(kernel.values[fused].init == Some(Op::ConstF32 { value: float(3.0) }));
    assert!(kernel.values[kept].init == Some(Op::Add { a, b: m }));
}

#[test]
fn operations_that_change_nothing_become_copies() {
    let mut kernel = empty();
    let x = number(&mut kernel, Op::ParamLoad { param: 1, index: 0 });
    let zero = number(&mut kernel, Op::ConstF32 { value: float(-0.0) });
    let one = number(&mut kernel, Op::ConstU32 { value: 1 });
    let ids = [
        number(&mut kernel, Op::Add { a: zero, b: x }),
        number(&mut kernel, Op::Add { a: x, b: zero }),
        number(&mut kernel, Op::Sub { a: x, b: zero }),
        number(&mut kernel, Op::Mul { a: one, b: x }),
        number(&mut kernel, Op::Mul { a: x, b: one }),
        number(&mut kernel, Op::Div { a: x, b: one }),
    ];
    let kept = number(&mut kernel, Op::Sub { a: zero, b: x });
    optimize(&mut kernel, OptFlags { identity: true, ..none() }, 1, &compute);
    for id in ids {
        assert!(kernel.values[id].init == Some(Op::CopyVar { id: x }));
    }
    assert!(kernel.values[kept].init == Some(Op::Sub { a: zero, b: x }));
}

#[test]
fn values_that_nothing_uses_are_left_out() {
    let mut kernel = empty();
    let i = number(&mut kernel, Op::ConstU32 { value: 0 });
    let x = number(&mut kernel, Op::ParamLoad { param: 1, index: i });
    let unused = number(&mut kernel, Op::ConstF32 { value: float(3.0) });
    kernel.ops.push(Op::AddAssign { id: unused, val: Box::new(Op::CopyVar { id: unused }) });
    kernel.ops.push(Op::ParamStore { param: 1, index: i, value: x });
    optimize(&mut kernel, all(), 1, &compute);
    assert!(kernel.values[unused].state == ValueState::Masked);
    assert!(kernel.values[x].state == ValueState::Immut);
    assert!(
        kernel.ops
            == vec![
                Op::DefineVar { id: i },
                Op::DefineVar { id: x },
                Op::ParamStore { param: 1, index: i, value: x },
            ]
    );
}

#[test]
fn save_indicators_are_joined() {
    let a = SaveIndicator::defined_in_forward();
    let b = SaveIndicator::used_by_backward();
    let both = a | b;
    assert!(both.is_defined_in_forward());
    assert!(!both.is_defined_in_backward());
    assert!(!SaveIndicator::none().is_defined_in_forward());
    assert!(both == b.or(a));
}

#[test]
fn buffers_are_bound_by_their_parameters() {
    let param = |ty| Param { dtype: DType::Float, ty, pid: 0 };
    assert_eq!(
        generate_layout_desc(&[
            param(ParamTy::Uniform),
            param(ParamTy::ReadOnly),
            param(ParamTy::ReadWrite),
        ]),
        vec![
            BindingKind::Uniform,
            BindingKind::Storage { read_only: true },
            BindingKind::Storage { read_only: false },
        ]
    );
}

#[test]
fn metadata_is_filled_up() {
    assert!(align_meta(&[]).is_empty());
    assert_eq!(align_meta(&[7]), vec![7, u32::MAX, u32::MAX, u32::MAX]);
    assert_eq!(align_meta(&[7, 8, 9]), vec![7, 8, 9, u32::MAX]);
    assert_eq!(align_meta(&[7, 8, 9, 10]), vec![7, 8, 9, 10]);
    assert_eq!(align_meta(&[1; 5]).len(), 8);
}

#[test]
fn sizes_are_checked() {
    assert!(check_upload(16, 16).is_ok());
    assert_eq!(
        check_upload(16, 12).err().unwrap().text(),
        "failed GPU buffer download: CPU and GPU buffers of unequal sizes during upload"
    );
    assert_eq!(check_download(16, 20).ok(), Some(16));
    assert_eq!(
        check_download(16, 12).err().unwrap().text(),
        "failed GPU buffer download: insufficient CPU memory allocated for GPU download"
    );
    assert_eq!(size_in_bytes(0x1_0000_0010), 16);
    assert_eq!(size_in_words(18), 4);
    assert_eq!(size_in_words(0x4_0000_0010), 4);
}

#[test]
fn grids_cover_the_dimensions() {
    assert_eq!(calc_grid(&[33, 16], [16, 16, 1]), [1, 3, 1]);
    assert_eq!(calc_grid(&[3, 5, 33, 16], [16, 16, 2]), [1, 3, 8]);
    assert_eq!(calc_grid(&[2, 30, 40], [1, 256, 1]), [1, 40, 2]);
    assert_eq!(calc_grid(&[2, 30, 40], [256, 1, 1]), [30, 1, 2]);
    assert_eq!(calc_grid(&[0, 40], [16, 16, 1]), [3, 0, 1]);
    assert_eq!(build_dims(&[2, 0, 2], &[16, 32, 48]), vec![48, 16, 48]);
    assert_eq!(checked_product(&[16, 32, 3], 2), Some(512));
    assert_eq!(checked_product(&[], 0), Some(1));
    assert_eq!(checked_product(&[0x1_0000, 0x1_0000], 2), None);
}
