//! What holds of the kernels that graphs are lowered to.

use fused_gpu::dispatch::backend::kernel::optimize::{optimize, FloatExpr, OptFlags};
use fused_gpu::dispatch::backend::kernel::{
    Dependencies, KernelGroup, KernelsRedirected, LinkedKernel, RawKernel, Redirect,
};
use fused_gpu::dispatch::backend::wgsl::{generate_wgsl, is_printable};
use fused_gpu::dispatch::backend::{
    Graph, LossType, Metadata, NopGpuContext, Op, ParamId, ValueId,
};
use fused_gpu::dispatch::launch::{
    has_fields, is_gridable, launch_order, resolve, taken_bindings,
};
use fused_gpu::dispatch::CompilationOptions;
use fused_gpu::scalar::Float32;

fn lowered(graph: &mut Graph, meta: Metadata) -> KernelGroup {
    let options: CompilationOptions<NopGpuContext> = CompilationOptions::default();
    let saved = graph.compute_saved_nodes();
    assert!(graph.validate(meta).is_ok());
    assert!(graph.topo_sort().is_ok());
    graph.rebuild_outputs();
    assert!(graph.is_compilable(meta, saved.len(), options.opt.tile_size));
    graph.lower(meta, &options, &saved).unwrap()
}

/// `tanh(a * b) + -(a - c)`
fn elementwise() -> (Graph, Metadata) {
    let mut meta = Metadata::new();
    let m = meta.new_field();
    let n = meta.new_field();
    let mut graph = Graph::new(LossType::MEAN_SQUARED_ERROR);
    let a = graph.input(&[m, n]);
    let b = graph.input(&[m, n]);
    let c = graph.input(&[m, n]);
    let x = graph.mul(a, b);
    let x = graph.tanh(x);
    let y = graph.sub(a, c);
    let y = graph.neg(y);
    graph.add(x, y);
    (graph, meta)
}

/// `softmax(gelu(a @ b)) @ c`
fn mixed() -> (Graph, Metadata) {
    let mut meta = Metadata::new();
    let m = meta.new_field();
    let k = meta.new_field();
    let n = meta.new_field();
    let mut graph = Graph::new(LossType::CROSS_ENTROPY);
    let a = graph.input(&[m, k]);
    let b = graph.input(&[k, n]);
    let c = graph.input(&[n, m]);
    let x = graph.matmul(a, b);
    let x = graph.gelu(x);
    let x = graph.softmax(x);
    graph.matmul(x, c);
    (graph, meta)
}

fn kept(pass: &KernelsRedirected) -> Vec<&LinkedKernel> {
    pass.kernels
        .iter()
        .filter_map(|step| match &step.val {
            Redirect::Unmasked(kernel) => Some(kernel),
            Redirect::Redirected(_) => None,
        })
        .collect()
}

fn all_of(group: &KernelGroup) -> Vec<&LinkedKernel> {
    let mut r = kept(&group.forward);
    r.extend(kept(&group.backward));
    r
}

fn loops(kernel: &RawKernel) -> usize {
    kernel
        .ops
        .iter()
        .filter(|op| {
            matches!(
                op,
                Op::ForLoopBegin { .. } | Op::WhileLoopBegin { .. } | Op::ForeverLoopBegin
            )
        })
        .count()
}

fn parameter(op: &Op) -> Option<ParamId> {
    match op {
        Op::OverwriteVar { val, .. } | Op::AddAssign { val, .. } => parameter(val),
        Op::WhileLoopBegin { cond } => parameter(cond),
        Op::ReadMeta { param, .. }
        | Op::ParamLoad { param, .. }
        | Op::ParamStore { param, .. }
        | Op::ParamAccum { param, .. }
        | Op::ParamMul { param, .. } => Some(*param),
        _ => None,
    }
}

#[test]
fn elementwise_graphs_are_fused() {
    let (mut graph, meta) = elementwise();
    let group = lowered(&mut graph, meta);

    assert_eq!(group.forward.kernels.len(), 1);
    let output = group.forward.params.len() - 1;
    for kernel in kept(&group.forward) {
        assert_eq!(loops(&kernel.raw), 0);
        assert!(matches!(
            kernel.raw.ops.last(),
            Some(Op::ParamStore { param, .. }) if *param == output
        ));
        assert_eq!(kernel.raw.root, 7);
    }

    assert_eq!(group.backward.kernels.len(), 3);
    let roots: Vec<usize> = kept(&group.backward).iter().map(|k| k.raw.root).collect();
    assert_eq!(roots, vec![0, 1, 2]);
    for kernel in kept(&group.backward) {
        assert_eq!(loops(&kernel.raw), 0);
        assert!(matches!(kernel.raw.ops.last(), Some(Op::ParamStore { .. })));
    }
}

#[test]
fn a_loss_is_stored_with_its_gradient() {
    for loss in [
        LossType::MEAN_SQUARED_ERROR,
        LossType::BINARY_CROSS_ENTROPY,
        LossType::CROSS_ENTROPY,
    ] {
        let (mut graph, meta) = elementwise();
        graph.loss = loss;
        let group = lowered(&mut graph, meta);
        let ops = &group.loss.raw.ops;
        let stores: Vec<(ParamId, ValueId)> = ops[ops.len() - 2..]
            .iter()
            .map(|op| match op {
                Op::ParamStore { param, index, .. } => (*param, *index),
                _ => panic!("no store: {op:?}"),
            })
            .collect();
        assert_eq!(stores[0].0, 1);
        assert_eq!(stores[1].0, 2);
        assert_eq!(stores[0].1, stores[1].1);
        assert!(is_printable(&group.loss.raw));
    }
}

#[test]
fn lowered_kernels_can_be_written() {
    for (mut graph, meta) in [elementwise(), mixed()] {
        let group = lowered(&mut graph, meta);
        for kernel in all_of(&group) {
            assert!(is_printable(&kernel.raw));
            let text = generate_wgsl(&kernel.raw, &[], true, &|x: Float32| {
                format!("{}", f32::from_bits(x.bits))
            });
            assert_eq!(text.matches('{').count(), text.matches('}').count());
        }
    }
}

#[test]
fn optimized_kernels_can_be_written() {
    let flags = OptFlags {
        mul_add: true,
        div_const: true,
        const_fold: true,
        identity: true,
        dead_code: true,
    };
    let compute = |e: FloatExpr| {
        let f = |x: Float32| f32::from_bits(x.bits);
        let r = match e {
            FloatExpr::Add(a, b) => f(a) + f(b),
            FloatExpr::Mul(a, b) => f(a) * f(b),
            FloatExpr::Sub(a, b) => f(a) - f(b),
            FloatExpr::Div(a, b) => f(a) / f(b),
            FloatExpr::MulAdd(a, b, c) => f(a) * f(b) + f(c),
            FloatExpr::Inverse(a) => 1.0 / f(a),
        };
        Float32::from_bits(r.to_bits())
    };
    for (mut graph, meta) in [elementwise(), mixed()] {
        let mut group = lowered(&mut graph, meta);
        for step in group.forward.kernels.iter_mut().chain(&mut group.backward.kernels) {
            if let Redirect::Unmasked(kernel) = &mut step.val {
                let values = kernel.raw.values.len();
                optimize(&mut kernel.raw, flags, 3, &compute);
                assert!(is_printable(&kernel.raw));
                assert_eq!(kernel.raw.values.len(), values);
            }
        }
    }
}

#[test]
fn kernels_are_marked_for_what_they_take() {
    for (mut graph, meta) in [elementwise(), mixed()] {
        let group = lowered(&mut graph, meta);
        for pass in [&group.forward, &group.backward] {
            for (i, param) in pass.params.iter().enumerate() {
                assert_eq!(param.pid, i);
            }
            for kernel in kept(pass) {
                assert_eq!(kernel.params.len(), pass.params.len());
                let inits = kernel.raw.values.iter().filter_map(|v| v.init.as_ref());
                for op in kernel.raw.ops.iter().chain(inits) {
                    if let Some(p) = parameter(op) {
                        assert!(kernel.params[p]);
                    }
                }
            }
        }
    }
}

#[test]
fn products_run_in_loops() {
    let (mut graph, meta) = mixed();
    let group = lowered(&mut graph, meta);
    assert!(group.forward.kernels.len() >= 2);
    assert!(all_of(&group).iter().any(|k| loops(&k.raw) > 0));
}

fn step<T>(val: Redirect<T>) -> Dependencies<Redirect<T>> {
    Dependencies { val, dep: Vec::new() }
}

#[test]
fn redirections_are_followed_once() {
    let flags = [true, false, true];
    let kernels = [
        step(Redirect::Unmasked(('a', 4, &flags[..]))),
        step(Redirect::Redirected(0)),
        step(Redirect::Redirected(1)),
        step(Redirect::Redirected(9)),
    ];
    assert_eq!(resolve(&kernels, 0), Some(&('a', 4, &flags[..])));
    assert_eq!(resolve(&kernels, 1), Some(&('a', 4, &flags[..])));
    assert_eq!(resolve(&kernels, 2), None);
    assert_eq!(resolve(&kernels, 3), None);
}

#[test]
fn kernels_are_launched_after_what_they_need() {
    let flags = [true];
    let kernel = |root: usize, dep: Vec<usize>| Dependencies {
        val: Redirect::Unmasked(('k', root, &flags[..])),
        dep,
    };
    let kernels = [kernel(5, vec![4, 2]), kernel(4, vec![2]), kernel(2, vec![])];
    let order = launch_order(&kernels);
    assert_eq!(order, vec![2, 1, 0]);
    for (p, i) in order.iter().enumerate() {
        for d in &kernels[*i].dep {
            assert!(order[..p]
                .iter()
                .any(|j| resolve(&kernels, *j).map(|k| k.1) == Some(*d)));
        }
    }
}

#[test]
fn launches_take_what_is_marked() {
    assert_eq!(taken_bindings(&[true, false, true, true], 4), vec![0, 2, 3]);
    assert_eq!(taken_bindings(&[true, false, true, true], 3), vec![0, 2]);
    assert_eq!(taken_bindings(&[false, true], 9), vec![1]);
    assert_eq!(taken_bindings(&[], 9), Vec::<usize>::new());
}

#[test]
fn launches_are_checked() {
    assert!(is_gridable(&[3, 4], [16, 16, 1]));
    assert!(!is_gridable(&[3], [16, 16, 1]));
    assert!(!is_gridable(&[3, 4], [0, 0, 1]));
    assert!(!is_gridable(&[3, 4], [16, 16, 0]));
    assert!(!is_gridable(&[0x1_0000, 0x1_0000, 3, 4], [16, 16, 1]));
    assert!(has_fields(&[0, 1, 2], 3));
    assert!(!has_fields(&[0, 1, 3], 3));
    assert!(has_fields(&[], 0));
}
