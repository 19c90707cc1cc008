use fused_gpu::dispatch::backend::kernel::{topo_sort, Dependencies, SaveIndicator};
use fused_gpu::dispatch::backend::{
    Axis, DispatchOptions, Graph, GraphOp, LossType, Metadata, NopGpuBuffer, NopGpuContext,
    NopGpuKernel,
};
use fused_gpu::dispatch::{
    CompilationOptions, GpuBackend, GpuBufferBackend, GpuContext, GpuKernelBackend, PollStatus,
};
use fused_gpu::errors::{Error, ErrorKind, GraphErrorContext};
use fused_gpu::scalar::Float32;

fn product() -> (Graph, Metadata) {
    let mut meta = Metadata::new();
    let m = meta.new_field();
    let k = meta.new_field();
    let n = meta.new_field();
    let mut graph = Graph::new(LossType::MEAN_SQUARED_ERROR);
    let a = graph.input(&[m, k]);
    let b = graph.input(&[k, n]);
    graph.matmul(a, b);
    (graph, meta)
}

fn texts(graph: &Graph, meta: Metadata) -> Vec<String> {
    match graph.validate(meta) {
        Ok(()) => Vec::new(),
        Err(errors) => errors.iter().map(|e| e.text()).collect(),
    }
}

#[test]
fn metadata_fields_count_up() {
    let mut meta = Metadata::new();
    assert_eq!(meta.iter_fields(), 0..0);
    assert_eq!(meta.new_field(), 0);
    assert_eq!(meta.new_field(), 1);
    assert_eq!(meta.new_field(), 2);
    assert_eq!(meta.iter_fields(), 0..3);
    assert!(meta.validate_meta(&[16, 32, 0]));
    assert!(!meta.validate_meta(&[16, 32]));
    assert!(!meta.validate_meta(&[16, 32, 8]));
}

#[test]
fn axes_come_from_small_numbers() {
    assert_eq!(Axis::try_from(0).ok(), Some(Axis::X));
    assert_eq!(Axis::try_from(1).ok(), Some(Axis::Y));
    assert_eq!(Axis::try_from(2).ok(), Some(Axis::Z));
    let e = Axis::try_from(3).err().unwrap();
    assert_eq!(e.text(), "invalid argument: could not coerce invalid integer to axis");
}

#[test]
fn dispatch_options_are_ordered_by_what_they_require() {
    let any = DispatchOptions::Any;
    let row = DispatchOptions::ReqRow;
    let col = DispatchOptions::ReqCol;
    assert!(any < row);
    assert!(col > any);
    assert_eq!(row.partial_cmp(&col), None);
    assert_eq!(row.partial_cmp(&row), Some(std::cmp::Ordering::Equal));
    assert_eq!(any.partial_cmp(&col), Some(std::cmp::Ordering::Less));
    assert_eq!(col.partial_cmp(&any), Some(std::cmp::Ordering::Greater));
}

#[test]
fn a_product_is_valid() {
    let (graph, meta) = product();
    assert_eq!(graph.nodes[2].shape, vec![0, 2]);
    assert!(texts(&graph, meta).is_empty());
}

#[test]
fn a_cycle_is_reported() {
    let (mut graph, meta) = product();
    graph.nodes[0].inputs.push(2);
    let errors = graph.validate(meta).err().unwrap();
    assert_eq!(
        errors[0].text(),
        "graph must be acrylic: cycle detected at node 0 following [0, 2]"
    );
    assert_eq!(
        errors[1].text(),
        "leaf node accepting inputs: invalid input count 1 for arity of 0 at node 0"
    );
    assert_eq!(errors.len(), 2);
    let before: Vec<Vec<usize>> = graph.nodes.iter().map(|n| n.inputs.clone()).collect();
    let e = graph.topo_sort().err().unwrap();
    assert_eq!(e.text(), "cycle detected in graph: cycle detected at node 0 following [1]");
    let after: Vec<Vec<usize>> = graph.nodes.iter().map(|n| n.inputs.clone()).collect();
    assert_eq!(before, after);
}

#[test]
fn a_missing_input_is_reported() {
    let (mut graph, meta) = product();
    graph.nodes[2].inputs[1] = 7;
    assert_eq!(
        texts(&graph, meta),
        vec!["node referenced non-existent input(s): missing input at node 2 on input node 7"]
    );
    let e = graph.topo_sort().err().unwrap();
    assert_eq!(
        e.text(),
        "invalid node reference in graph: missing input at node 2 on input node 7"
    );
}

#[test]
fn a_missing_field_is_reported() {
    let (graph, _) = product();
    let mut small = Metadata::new();
    small.new_field();
    small.new_field();
    assert_eq!(
        texts(&graph, small),
        vec![
            "node has no metadata entry: missing metadata at node 1 on field f2",
            "node has no metadata entry: missing metadata at node 2 on field f2",
        ]
    );
}

#[test]
fn shapes_that_do_not_fit_are_reported() {
    let (mut graph, meta) = product();
    graph.nodes[1].shape = vec![2, 2];
    assert_eq!(
        texts(&graph, meta),
        vec![
            "inner dimensions don't match for matrix multiplication: \
             shape mismatch at node 2 [0, 1] @ [2, 2]"
        ]
    );
    graph.nodes[1].shape = vec![0, 1, 2];
    assert_eq!(
        texts(&graph, meta),
        vec!["matrix multiplication has invalid input rank(s): rank mismatch at node 22== 3"]
    );
    graph.nodes[1].shape = vec![1, 2];
    graph.nodes[2].shape = vec![0];
    assert_eq!(
        texts(&graph, meta),
        vec![
            "no compute node can have less than two dimensions: \
             rank too low at node 2 (1 >= 2)"
        ]
    );
    graph.nodes[2].shape = vec![0, 2];
    graph.nodes[2].inputs.pop();
    assert_eq!(
        texts(&graph, meta),
        vec![
            "matrix multiplication has invalid input count: \
             invalid input count 1 for arity of 2 at node 2"
        ]
    );
}

#[test]
fn operands_of_other_operations_are_checked() {
    let mut meta = Metadata::new();
    let m = meta.new_field();
    let n = meta.new_field();
    let mut graph = Graph::new(LossType::BINARY_CROSS_ENTROPY);
    let a = graph.input(&[m, n]);
    let b = graph.input(&[n, m]);
    let sum = graph.add(a, b);
    let t = graph.tanh(sum);
    graph.softmax(t);
    assert_eq!(
        texts(&graph, meta),
        vec![
            "binary operation has different shaped inputs: \
             shape mismatch at node 2 [0, 1] + [1, 0]"
        ]
    );
    graph.nodes[1].shape = vec![m, n];
    graph.nodes[2].inputs.pop();
    graph.nodes[3].inputs.push(0);
    graph.nodes[4].inputs.clear();
    assert_eq!(
        texts(&graph, meta),
        vec![
            "binary operation has invalid input count: \
             invalid input count 1 for arity of 2 at node 2",
            "unary operation has invalid input count: \
             invalid input count 2 for arity of 1 at node 3",
            "softmax has invalid input count: \
             invalid input count 0 for arity of 1 at node 4",
        ]
    );
}

#[test]
fn a_product_of_constants_has_no_shape() {
    let mut graph = Graph::new(LossType::MEAN_SQUARED_ERROR);
    let (mut other, mut meta) = product();
    let one = graph.constant_f32(Float32::from_bits(1.0_f32.to_bits()));
    let two = graph.constant_f32(Float32::from_bits(2.0_f32.to_bits()));
    let mut node = other.nodes.remove(2);
    node.inputs = vec![one, two];
    graph.nodes.push(node);
    meta.new_field();
    assert_eq!(
        texts(&graph, meta),
        vec![
            "binary operation has only constant inputs: \
             cannot infer shape of node 2 with op [] @ []"
        ]
    );
}

#[test]
fn errors_are_shown() {
    let e = Error { msg: "out of memory", kind: ErrorKind::LimitsExceeded, ctx: () };
    assert_eq!(e.text(), "GPU limits exceeded: out of memory");
    let kinds = [
        (ErrorKind::EnvNotSet, "environment not set"),
        (ErrorKind::LimitsExceeded, "GPU limits exceeded"),
        (ErrorKind::UnsupportedFeature, "unsupported feature"),
        (ErrorKind::AdapterNotFound, "adapter not found"),
        (ErrorKind::DeviceNotFound, "device not found"),
        (ErrorKind::ParamNotMaterialized, "param not materialized"),
        (ErrorKind::GraphEmpty, "graph empty"),
        (ErrorKind::InvalidDType, "invalid data type"),
        (ErrorKind::UnresolvedInput, "unresolved input"),
        (ErrorKind::UnresolvedOutput, "unresolved output"),
        (ErrorKind::InvalidArgument, "invalid argument"),
        (ErrorKind::ComputeGraphError, "compute graph error"),
        (ErrorKind::FailedDownload, "failed GPU buffer download"),
    ];
    for (kind, text) in kinds {
        assert_eq!(kind.text(), text);
    }
    let axis = GraphErrorContext::InvalidAxis { node: 3, axis: 12, rank: 2 };
    assert_eq!(axis.text(), "invalid axis 12 for rank of 2 at node 3");
}

#[test]
fn operations_are_shown() {
    let mut graph = Graph::new(LossType::MEAN_SQUARED_ERROR);
    let x = graph.input(&[0, 1]);
    let y = graph.input(&[0, 1]);
    let one = [vec![0, 10]];
    let two = [vec![0, 10], vec![]];
    let shown = |graph: &Graph, id: usize, sides: &[Vec<usize>]| graph.nodes[id].op.debug(sides);
    let id = graph.log(x);
    assert_eq!(shown(&graph, id, &one), "log2([0, 10])");
    let id = graph.tanh(x);
    assert_eq!(shown(&graph, id, &one), "tanh([0, 10])");
    let id = graph.elu(x);
    assert_eq!(shown(&graph, id, &one), "ELU([0, 10])");
    let id = graph.relu(x);
    assert_eq!(shown(&graph, id, &one), "ReLU([0, 10])");
    let id = graph.gelu(x);
    assert_eq!(shown(&graph, id, &one), "GELU([0, 10])");
    let id = graph.exp(x);
    assert_eq!(shown(&graph, id, &one), "e^[0, 10]");
    let id = graph.abs(x);
    assert_eq!(shown(&graph, id, &one), "|[0, 10]|");
    let id = graph.neg(x);
    assert_eq!(shown(&graph, id, &one), "-[0, 10]");
    let id = graph.softmax(x);
    assert_eq!(shown(&graph, id, &one), "softmax([0, 10])");
    let id = graph.add(x, y);
    assert_eq!(shown(&graph, id, &two), "[0, 10] + []");
    let id = graph.sub(x, y);
    assert_eq!(shown(&graph, id, &two), "[0, 10] - []");
    let id = graph.mul(x, y);
    assert_eq!(shown(&graph, id, &two), "[0, 10] * []");
    let id = graph.div(x, y);
    assert_eq!(shown(&graph, id, &two), "[0, 10] / []");
    let id = graph.matmul(x, y);
    assert_eq!(shown(&graph, id, &two), "[0, 10] @ []");
    assert_eq!(shown(&graph, x, &[]), "");
    assert!(graph.nodes[x].op.is_leaf());
    assert!(matches!(graph.nodes[x].op, GraphOp::Input));
}

#[test]
fn rebuilding_what_was_built_changes_nothing() {
    let (mut graph, _) = product();
    let sum = graph.add(2, 2);
    graph.mul(sum, 2);
    let built: Vec<Vec<usize>> = graph.nodes.iter().map(|n| n.outputs.clone()).collect();
    assert_eq!(built, vec![vec![2], vec![2], vec![3, 3, 4], vec![4], vec![]]);
    graph.rebuild_outputs();
    let rebuilt: Vec<Vec<usize>> = graph.nodes.iter().map(|n| n.outputs.clone()).collect();
    assert_eq!(rebuilt, built);
}

#[test]
fn sorting_puts_inputs_first() {
    let (mut graph, meta) = product();
    let sum = graph.add(2, 2);
    // The same graph with its nodes turned round.
    graph.nodes.reverse();
    for node in &mut graph.nodes {
        for input in &mut node.inputs {
            *input = 3 - *input;
        }
        node.outputs.clear();
    }
    assert_eq!(sum, 3);
    assert!(graph.topo_sort().is_ok());
    graph.rebuild_outputs();
    let inputs: Vec<Vec<usize>> = graph.nodes.iter().map(|n| n.inputs.clone()).collect();
    let outputs: Vec<Vec<usize>> = graph.nodes.iter().map(|n| n.outputs.clone()).collect();
    assert_eq!(inputs, vec![vec![], vec![], vec![1, 0], vec![2, 2]]);
    assert_eq!(outputs, vec![vec![2], vec![2], vec![3, 3], vec![]]);
    let shapes: Vec<Vec<usize>> = graph.nodes.iter().map(|n| n.shape.clone()).collect();
    assert_eq!(shapes, vec![vec![1, 2], vec![0, 1], vec![0, 2], vec![0, 2]]);
    assert!(texts(&graph, meta).is_empty());
}

#[test]
fn values_are_sorted_by_what_they_depend_on() {
    let mut nodes = [
        Dependencies { val: 'd', dep: vec![1, 2] },
        Dependencies { val: 'b', dep: vec![3] },
        Dependencies { val: 'c', dep: vec![3] },
        Dependencies { val: 'a', dep: vec![] },
    ];
    assert!(topo_sort(&mut nodes).is_ok());
    let order: String = nodes.iter().map(|n| n.val).collect();
    assert_eq!(order, "abcd");
    assert_eq!(nodes[1].dep, vec![0]);
    assert_eq!(nodes[3].dep, vec![1, 2]);

    nodes[0].dep = vec![3];
    let e = topo_sort(&mut nodes).err().unwrap();
    assert_eq!(e.text(), "cycle detected in graph: cycle detected at node 0 following []");
    nodes[2].dep = vec![9];
    let e = topo_sort(&mut nodes).err().unwrap();
    assert_eq!(
        e.text(),
        "invalid node reference in graph: missing input at node 2 on input node 9"
    );
}

#[test]
fn a_structure_is_repeated() {
    let mut graph = Graph::new(LossType::MEAN_SQUARED_ERROR);
    let x = graph.input(&[0, 1]);
    graph.repeat(3, x, |g, id| g.neg(id));
    let inputs: Vec<Vec<usize>> = graph.nodes.iter().map(|n| n.inputs.clone()).collect();
    assert_eq!(inputs, vec![vec![], vec![0], vec![1], vec![2]]);
}

#[test]
fn edges_tell_the_sides_of_an_operation() {
    let mut graph = Graph::new(LossType::MEAN_SQUARED_ERROR);
    let a = graph.input(&[0, 1]);
    let b = graph.input(&[0, 1]);
    let c = graph.sub(a, b);
    assert!(graph.is_lhs_edge(a, c));
    assert!(!graph.is_lhs_edge(b, c));
    assert!(graph.is_rhs_edge(b, c));
    assert!(!graph.is_rhs_edge(a, c));
}

#[test]
fn results_are_saved_where_the_backward_pass_reads_them() {
    let mut graph = Graph::new(LossType::MEAN_SQUARED_ERROR);
    let a = graph.input(&[0, 1]);
    let b = graph.input(&[0, 1]);
    let x = graph.neg(a);
    let y = graph.mul(x, b);
    let z = graph.tanh(y);
    let saved = graph.compute_saved_nodes();
    assert!(graph.is_savable());
    assert_eq!(saved.len(), 5);
    assert!(saved[a].is_defined_in_backward() && !saved[a].is_defined_in_forward());
    assert!(saved[b].is_defined_in_backward() && !saved[b].is_defined_in_forward());
    assert!(saved[x].is_defined_in_forward());
    assert!(saved[y].is_defined_in_forward());
    assert!(!saved[z].is_defined_in_forward());
}

#[test]
fn a_graph_without_nodes_is_not_lowered() {
    let graph = Graph::new(LossType::MEAN_SQUARED_ERROR);
    let options: CompilationOptions<NopGpuContext> = CompilationOptions::default();
    let e = graph.lower(Metadata::new(), &options, &[]).err().unwrap();
    assert_eq!(e.text(), "graph empty: graph empty");
}

#[test]
fn a_gradient_that_is_not_saved_is_not_lowered() {
    let mut meta = Metadata::new();
    let m = meta.new_field();
    let mut graph = Graph::new(LossType::MEAN_SQUARED_ERROR);
    let x = graph.input(&[m, m]);
    graph.tanh(x);
    let saved = graph.compute_saved_nodes();
    let options: CompilationOptions<NopGpuContext> = CompilationOptions::default();
    let e = graph.lower(meta, &options, &saved).err().unwrap();
    assert_eq!(
        e.text(),
        "param not materialized: could not materialize saved forward param"
    );
}

#[test]
fn graphs_that_cannot_be_lowered_are_told_apart() {
    let (graph, meta) = product();
    assert!(graph.is_compilable(meta, 3, 16));
    assert!(!graph.is_compilable(meta, 2, 16));
    assert!(!graph.is_compilable(meta, 3, 0x1_0000));
    assert!(!graph.is_compilable(Metadata::new(), 3, 16));
    let mut lone = Graph::new(LossType::MEAN_SQUARED_ERROR);
    lone.input(&[0, 1]);
    assert!(lone.is_compilable(meta, 1, 16));
    let mut shapeless = Graph::new(LossType::MEAN_SQUARED_ERROR);
    shapeless.input(&[]);
    assert!(!shapeless.is_compilable(meta, 1, 16));
}

#[test]
fn a_graph_that_computes_nothing_has_no_kernels() {
    let mut meta = Metadata::new();
    let m = meta.new_field();
    let mut graph = Graph::new(LossType::MEAN_SQUARED_ERROR);
    graph.input(&[m, m]);
    graph.input(&[m, m]);
    let saved = graph.compute_saved_nodes();
    let options: CompilationOptions<NopGpuContext> = CompilationOptions::default();
    assert!(graph.validate(meta).is_ok());
    let ir = graph.lower(meta, &options, &saved).unwrap();
    assert_eq!(ir.forward.kernels.len(), 0);
    assert_eq!(ir.forward.params.len(), 2);
    assert_eq!(ir.backward.kernels.len(), 0);
}

#[test]
fn an_input_that_nothing_takes_has_no_parameter() {
    let mut meta = Metadata::new();
    let m = meta.new_field();
    let mut graph = Graph::new(LossType::MEAN_SQUARED_ERROR);
    let a = graph.input(&[m, m]);
    graph.input(&[m, m]);
    graph.neg(a);
    let saved = graph.compute_saved_nodes();
    let options: CompilationOptions<NopGpuContext> = CompilationOptions::default();
    assert!(graph.validate(meta).is_ok());
    assert!(graph.is_compilable(meta, saved.len(), 16));
    let e = graph.lower(meta, &options, &saved).err().unwrap();
    assert_eq!(e.text(), "param not materialized: input param missing");
}

#[test]
fn flags_of_saved_results() {
    let mut graph = Graph::new(LossType::MEAN_SQUARED_ERROR);
    let a = graph.input(&[0, 2]);
    let b = graph.input(&[2, 1]);
    let c = graph.input(&[0, 2]);
    let d = graph.input(&[2, 1]);
    let x = graph.matmul(a, b);
    let y = graph.matmul(c, d);
    graph.sub(x, y);
    let flags: Vec<u8> = graph.compute_saved_nodes().iter().map(|s| s.flags).collect();
    assert_eq!(flags, vec![12, 12, 12, 12, 15, 15, 0]);

    assert_eq!(SaveIndicator::none().flags, 0);
    assert_eq!(SaveIndicator::defined_in_forward().flags, 1);
    assert_eq!(SaveIndicator::used_by_forward().flags, 2);
    assert_eq!(SaveIndicator::defined_in_backward().flags, 4);
    assert_eq!(SaveIndicator::used_by_backward().flags, 8);
    let mut both = SaveIndicator::defined_in_forward();
    both |= SaveIndicator::used_by_backward();
    assert_eq!(both.flags, 9);
    assert_eq!(Metadata::default(), Metadata::new());
}

#[test]
fn the_nop_backend_refuses() {
    let msg = "unsupported feature: using nop backend";
    assert_eq!(NopGpuContext::new().err().unwrap().text(), msg);
    let nop = NopGpuContext;
    let buffer = nop.alloc_buffer(64);
    assert_eq!((buffer.size(), NopGpuBuffer.size_bytes()), (0, 0));
    assert_eq!(NopGpuKernel.block(), &[0, 0, 0]);
    assert!(NopGpuKernel.iteration_space().is_empty());
    assert_eq!(nop.poll(), PollStatus::Failed);
    let mut out = [1, 2];
    assert_eq!(nop.download(&buffer, &mut out).err().unwrap().text(), msg);
    assert_eq!(out, [1, 2]);
    assert_eq!(nop.upload(&buffer, &[]).err().unwrap().text(), msg);
    assert_eq!(nop.pipe(&buffer, &buffer).err().unwrap().text(), msg);

    let (graph, meta) = product();
    let saved = graph.compute_saved_nodes();
    let options: CompilationOptions<NopGpuContext> = CompilationOptions::default();
    assert_eq!(options.opt.tile_size, 16);
    assert_eq!(options.opt.opt_passes, 0);
    assert!(!options.target.lin_acc);
    let ir = graph.lower(meta, &options, &saved).unwrap();
    let ctx = GpuContext::new_with_context(nop);
    assert_eq!(ctx.compile(&ir, &options).err().unwrap().text(), msg);
}
