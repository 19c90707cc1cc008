//! Graphs are lowered, compiled and run on a simulated device, in lockstep over the threads of each
//! block.

use std::cell::RefCell;
use std::rc::Rc;

use fused_gpu::dispatch::backend::kernel::{Dependencies, RawKernel, Redirect};
use fused_gpu::dispatch::backend::{
    Axis, DType, Graph, LossType, MetaId, Metadata, NodeId, Op, Param, Value, ValueId, ValueState,
};
use fused_gpu::dispatch::launch::launch_order;
use fused_gpu::dispatch::{
    gpu_alloc, AllocTensors, CompilationOptions, GpuBackend, GpuBufferBackend, GpuContext, GpuKernelBackend,
    PollStatus, TargetCompilationOptions,
};
use fused_gpu::errors::{Error, ErrorKind};
use fused_gpu::tensor::{build_dims, calc_grid, Tensor};

#[derive(Clone)]
struct Buffer(Rc<RefCell<Vec<u32>>>, usize);

impl GpuBufferBackend for Buffer {
    fn size(&self) -> u32 {
        self.0.borrow().len() as u32
    }

    fn size_bytes(&self) -> u32 {
        (4 * self.0.borrow().len() + self.1) as u32
    }
}

struct Program {
    values: Vec<Value>,
    ops: Vec<Op>,
    shared: Vec<(DType, usize)>,
    block: [u32; 3],
    iter_space: Vec<MetaId>,
    params: Vec<Param>,
}

#[derive(Clone)]
struct Kernel(Rc<Program>);

impl GpuKernelBackend for Kernel {
    fn iteration_space(&self) -> &[MetaId] {
        &self.0.iter_space
    }

    fn block(&self) -> &[u32; 3] {
        &self.0.block
    }
}

#[derive(Clone)]
struct Launch {
    kernel: Kernel,
    grid: [u32; 3],
    bindings: Vec<Buffer>,
}

struct Device;

fn words(data: &[u8]) -> Vec<u32> {
    data.chunks(4)
        .map(|b| u32::from_ne_bytes([b[0], b[1], b[2], b[3]]))
        .collect()
}

fn fail(msg: &'static str) -> Error {
    Error {
        msg,
        kind: ErrorKind::FailedDownload,
        ctx: (),
    }
}

impl GpuBackend for Device {
    type Buffer = Buffer;
    type Kernel = Kernel;
    type Batcher<'a> = &'a mut Vec<Launch>;
    type BatchState = Vec<Launch>;
    type SubmissionIndex = ();
    type ParamLayout = ();
    type Schedule<'a> = Vec<Launch>;
    type SyncSubmissions = Vec<Launch>;

    fn target_spec() -> TargetCompilationOptions<Self> {
        TargetCompilationOptions::new(false, false, false)
    }

    fn alloc_buffer(&self, len: usize) -> Buffer {
        Buffer(Rc::new(RefCell::new(vec![0; len / 4])), len % 4)
    }

    fn alloc_init(&self, data: &[u8]) -> Buffer {
        Buffer(Rc::new(RefCell::new(words(data))), 0)
    }

    fn alloc_meta(&self, data: &[u32]) -> Buffer {
        Buffer(Rc::new(RefCell::new(data.to_vec())), 0)
    }

    fn upload(&self, buffer: &Buffer, data: &[u8]) -> Result<(), Error> {
        if buffer.size_bytes() as usize != data.len() {
            return Err(fail("upload"));
        }
        *buffer.0.borrow_mut() = words(data);
        Ok(())
    }

    fn pipe(&self, src: &Buffer, dst: &Buffer) -> Result<(), Error> {
        if src.size() != dst.size() {
            return Err(fail("pipe"));
        }
        let data = src.0.borrow().clone();
        *dst.0.borrow_mut() = data;
        Ok(())
    }

    fn download(&self, buffer: &Buffer, out: &mut [u8]) -> Result<(), Error> {
        let len = buffer.size_bytes() as usize;
        if len > out.len() {
            return Err(fail("download"));
        }
        for (i, word) in buffer.0.borrow().iter().enumerate() {
            out[4 * i..4 * i + 4].copy_from_slice(&word.to_ne_bytes());
        }
        Ok(())
    }

    fn compile(
        &self,
        src: &RawKernel,
        params: &[Param],
        _options: &CompilationOptions<Self>,
    ) -> Result<Kernel, Error> {
        assert!(fused_gpu::dispatch::backend::wgsl::is_printable(src));
        Ok(Kernel(Rc::new(Program {
            values: src.values.clone(),
            ops: src.ops.clone(),
            shared: src.shared.iter().map(|s| (s.dtype, s.size as usize)).collect(),
            block: src.block,
            iter_space: src.iter_space.clone(),
            params: params.to_vec(),
        })))
    }

    fn schedule<'a>(
        &self,
        kernels: &'a [Dependencies<Redirect<(Kernel, NodeId, &'a [bool])>>],
        bindings: &[&'a Buffer],
        meta: &[u32],
    ) -> Result<Vec<Launch>, Error> {
        let mut launches = Vec::new();
        let root = |i: usize| match &kernels[i].val {
            Redirect::Unmasked((_, root, _)) => *root,
            Redirect::Redirected(j) => match &kernels[*j].val {
                Redirect::Unmasked((_, root, _)) => *root,
                Redirect::Redirected(_) => panic!("redirected twice"),
            },
        };
        for (i, step) in kernels.iter().enumerate() {
            for d in &step.dep {
                assert!((i + 1..kernels.len()).any(|j| root(j) == *d));
            }
        }
        for i in launch_order(kernels) {
            let step = &kernels[i];
            let (kernel, flags) = match &step.val {
                Redirect::Unmasked((kernel, _, flags)) => (kernel, flags),
                Redirect::Redirected(j) => match &kernels[*j].val {
                    Redirect::Unmasked((kernel, _, flags)) => (kernel, flags),
                    Redirect::Redirected(_) => return Err(fail("redirected twice")),
                },
            };
            let dims = build_dims(kernel.iteration_space(), meta);
            launches.push(Launch {
                kernel: kernel.clone(),
                grid: calc_grid(&dims, *kernel.block()),
                bindings: bindings
                    .iter()
                    .zip(flags.iter())
                    .filter(|(_, taken)| **taken)
                    .map(|(b, _)| (*b).clone())
                    .collect(),
            });
        }
        Ok(launches)
    }

    fn dispatch_kernel(
        &self,
        batcher: &mut &mut Vec<Launch>,
        kernel: &Kernel,
        wg: [u32; 3],
        bindings: &[&Buffer],
    ) {
        batcher.push(Launch {
            kernel: kernel.clone(),
            grid: wg,
            bindings: bindings.iter().map(|b| (*b).clone()).collect(),
        });
    }

    fn dispatch_schedule(&self, batcher: &mut &mut Vec<Launch>, schedule: &Vec<Launch>) {
        batcher.extend(schedule.iter().cloned());
    }

    fn sync(&self, _submission_index: ()) {}

    fn prepare_batch(&self) -> Vec<Launch> {
        Vec::new()
    }

    fn start_batch<'a>(&self, state: &'a mut Vec<Launch>) -> &'a mut Vec<Launch> {
        state
    }

    fn encode(&self, state: Vec<Launch>) -> Vec<Launch> {
        state
    }

    fn submit(&self, submission: Vec<Launch>) {
        for launch in &submission {
            run(launch);
        }
    }

    fn poll(&self) -> PollStatus {
        PollStatus::QueueEmpty
    }
}

#[derive(Clone, Copy, Debug)]
enum Item {
    F(f32),
    U(u32),
    I(i32),
    B(bool),
}

impl Item {
    fn f(self) -> f32 {
        match self {
            Item::F(x) => x,
            _ => panic!("not a number: {self:?}"),
        }
    }

    fn u(self) -> u32 {
        match self {
            Item::U(x) => x,
            _ => panic!("not an index: {self:?}"),
        }
    }

    fn b(self) -> bool {
        match self {
            Item::B(x) => x,
            _ => panic!("not a truth value: {self:?}"),
        }
    }

    fn bits(self) -> u32 {
        match self {
            Item::F(x) => x.to_bits(),
            Item::U(x) => x,
            Item::I(x) => x as u32,
            Item::B(x) => x as u32,
        }
    }

    fn of(dtype: DType, bits: u32) -> Item {
        match dtype {
            DType::Float => Item::F(f32::from_bits(bits)),
            DType::SignedInt => Item::I(bits as i32),
            DType::Bool => Item::B(bits != 0),
            _ => Item::U(bits),
        }
    }
}

fn arith(
    a: Item,
    b: Item,
    f: impl Fn(f32, f32) -> f32,
    u: impl Fn(u32, u32) -> u32,
) -> Item {
    match (a, b) {
        (Item::F(a), Item::F(b)) => Item::F(f(a, b)),
        (Item::U(a), Item::U(b)) => Item::U(u(a, b)),
        _ => panic!("operands of unequal types: {a:?} and {b:?}"),
    }
}

fn less(a: Item, b: Item) -> bool {
    match (a, b) {
        (Item::F(a), Item::F(b)) => a < b,
        (Item::U(a), Item::U(b)) => a < b,
        _ => panic!("operands of unequal types: {a:?} and {b:?}"),
    }
}

fn same(a: Item, b: Item) -> bool {
    match (a, b) {
        (Item::F(a), Item::F(b)) => a == b,
        (Item::U(a), Item::U(b)) => a == b,
        (Item::B(a), Item::B(b)) => a == b,
        _ => panic!("operands of unequal types: {a:?} and {b:?}"),
    }
}

struct Block<'a> {
    program: &'a Program,
    bindings: &'a [Buffer],
    at: [u32; 3],
    vars: Vec<Vec<Option<Item>>>,
    shared: Vec<Vec<Item>>,
}

impl Block<'_> {
    fn binding(&self, pid: usize) -> usize {
        let slot = self.program.params.iter().position(|p| p.pid == pid);
        slot.unwrap()
    }

    fn local(&self, thread: usize, axis: Axis) -> u32 {
        let [x, y, _] = self.program.block;
        let t = thread as u32;
        match axis {
            Axis::X => t % x,
            Axis::Y => t / x % y,
            Axis::Z => t / x / y,
        }
    }

    fn place(&self, axis: Axis) -> usize {
        match axis {
            Axis::X => 0,
            Axis::Y => 1,
            Axis::Z => 2,
        }
    }

    fn read(&self, t: usize, id: ValueId) -> Item {
        let value = &self.program.values[id];
        match value.state {
            ValueState::Inline => match &value.init {
                Some(op) => self.eval(t, op),
                None => panic!("inlined value without a definition"),
            },
            ValueState::Masked => panic!("read of a value that was left out"),
            _ => self.vars[id][t].unwrap(),
        }
    }

    fn eval(&self, t: usize, op: &Op) -> Item {
        match op {
            Op::CopyVar { id } => self.read(t, *id),
            Op::ConstF32 { value } => Item::F(f32::from_bits(value.bits)),
            Op::ConstU32 { value } => Item::U(*value),
            Op::ConstI32 { value } => Item::I(*value),
            Op::ReadMeta { param, field } => {
                Item::U(self.bindings[self.binding(*param)].0.borrow()[*field])
            }
            Op::LocalId { axis } => Item::U(self.local(t, *axis)),
            Op::BlockId { axis } => Item::U(self.at[self.place(*axis)]),
            Op::GlobalId { axis } => {
                let p = self.place(*axis);
                Item::U(self.at[p] * self.program.block[p] + self.local(t, *axis))
            }
            Op::Add { a, b } => {
                arith(self.read(t, *a), self.read(t, *b), |a, b| a + b, u32::wrapping_add)
            }
            Op::Sub { a, b } => {
                arith(self.read(t, *a), self.read(t, *b), |a, b| a - b, u32::wrapping_sub)
            }
            Op::Mul { a, b } => {
                arith(self.read(t, *a), self.read(t, *b), |a, b| a * b, u32::wrapping_mul)
            }
            Op::Div { a, b } => {
                arith(self.read(t, *a), self.read(t, *b), |a, b| a / b, |a, b| a / b)
            }
            Op::Mod { a, b } => {
                arith(self.read(t, *a), self.read(t, *b), |a, b| a % b, |a, b| a % b)
            }
            Op::Shl { a, b } => Item::U(self.read(t, *a).u() << self.read(t, *b).u()),
            Op::Shr { a, b } => Item::U(self.read(t, *a).u() >> self.read(t, *b).u()),
            Op::Max { a, b } => {
                arith(self.read(t, *a), self.read(t, *b), f32::max, u32::max)
            }
            Op::Min { a, b } => {
                arith(self.read(t, *a), self.read(t, *b), f32::min, u32::min)
            }
            Op::Pow { a, b } => Item::F(self.read(t, *a).f().powf(self.read(t, *b).f())),
            Op::Fma { a, b, c } => {
                let (a, b, c) = (self.read(t, *a), self.read(t, *b), self.read(t, *c));
                match (a, b, c) {
                    (Item::U(a), Item::U(b), Item::U(c)) => Item::U(a * b + c),
                    _ => Item::F(a.f().mul_add(b.f(), c.f())),
                }
            }
            Op::Exp { x } => Item::F(self.read(t, *x).f().exp()),
            Op::Abs { x } => Item::F(self.read(t, *x).f().abs()),
            Op::Neg { x } => Item::F(-self.read(t, *x).f()),
            Op::Log { x } => Item::F(self.read(t, *x).f().ln()),
            Op::Tanh { x } => Item::F(self.read(t, *x).f().tanh()),
            Op::Sqrt { x } => Item::F(self.read(t, *x).f().sqrt()),
            Op::ParamLoad { param, index } => {
                let slot = self.binding(*param);
                let index = self.read(t, *index).u() as usize;
                // A load outside of a buffer gives zero.
                let bits = self.bindings[slot].0.borrow().get(index).copied().unwrap_or(0);
                Item::of(self.program.params[slot].dtype, bits)
            }
            Op::SharedLoad { mem, index } => {
                let index = self.read(t, *index).u() as usize;
                self.shared[*mem][index]
            }
            Op::Eq { a, b } => Item::B(same(self.read(t, *a), self.read(t, *b))),
            Op::Ne { a, b } => Item::B(!same(self.read(t, *a), self.read(t, *b))),
            Op::Lt { a, b } => Item::B(less(self.read(t, *a), self.read(t, *b))),
            Op::Gt { a, b } => Item::B(less(self.read(t, *b), self.read(t, *a))),
            Op::Le { a, b } => Item::B(!less(self.read(t, *b), self.read(t, *a))),
            Op::Ge { a, b } => Item::B(!less(self.read(t, *a), self.read(t, *b))),
            Op::Not { cond } => Item::B(!self.read(t, *cond).b()),
            Op::Select { cond, a, b } => {
                if self.read(t, *cond).b() {
                    self.read(t, *a)
                } else {
                    self.read(t, *b)
                }
            }
            _ => panic!("no value: {op:?}"),
        }
    }

    fn assign(&mut self, active: &[usize], id: ValueId, val: &Op, f: impl Fn(Item, Item) -> Item) {
        for t in active {
            let new = self.eval(*t, val);
            let old = self.vars[id][*t].unwrap_or(new);
            self.vars[id][*t] = Some(f(old, new));
        }
    }

    fn store(
        &mut self,
        active: &[usize],
        param: usize,
        index: ValueId,
        value: ValueId,
        f: impl Fn(Item, Item) -> Item,
    ) {
        for t in active {
            let slot = self.binding(param);
            let at = self.read(*t, index).u() as usize;
            let new = self.read(*t, value);
            let dtype = self.program.params[slot].dtype;
            // A store outside of a buffer is dropped.
            if let Some(word) = self.bindings[slot].0.borrow_mut().get_mut(at) {
                *word = f(Item::of(dtype, *word), new).bits();
            }
        }
    }

    /// The end of the block that begins before `at`.
    fn end(&self, mut at: usize) -> usize {
        let mut depth = 1;
        while depth > 0 {
            match &self.program.ops[at] {
                Op::EndScope => depth -= 1,
                Op::IfBegin { .. }
                | Op::ElseBegin
                | Op::ForLoopBegin { .. }
                | Op::WhileLoopBegin { .. }
                | Op::ForeverLoopBegin => depth += 1,
                _ => {}
            }
            at += 1;
        }
        at
    }

    /// Runs operations on the given threads, and returns those that come to their end.
    fn run(&mut self, mut at: usize, end: usize, threads: Vec<usize>, exits: &mut Exits) -> Vec<usize> {
        let program = self.program;
        let mut active = threads;
        while at < end && !active.is_empty() {
            let op = &program.ops[at];
            at += 1;
            match op {
                Op::Nop | Op::Barrier => {}
                Op::DefineVar { id } => {
                    let value = &program.values[*id];
                    for t in &active {
                        self.vars[*id][*t] = match (value.state, &value.init) {
                            (ValueState::Inline | ValueState::Masked, _) => None,
                            (_, Some(op)) => Some(self.eval(*t, op)),
                            (_, None) => Some(Item::of(value.dtype, 0)),
                        };
                    }
                }
                Op::OverwriteVar { id, val } => self.assign(&active, *id, val, |_, new| new),
                Op::AddAssign { id, val } => self.assign(&active, *id, val, |old, new| {
                    arith(old, new, |a, b| a + b, u32::wrapping_add)
                }),
                Op::MulAssign { id, val } => self.assign(&active, *id, val, |old, new| {
                    arith(old, new, |a, b| a * b, u32::wrapping_mul)
                }),
                Op::SubAssign { id, val } => self.assign(&active, *id, val, |old, new| {
                    arith(old, new, |a, b| a - b, u32::wrapping_sub)
                }),
                Op::DivAssign { id, val } => self.assign(&active, *id, val, |old, new| {
                    arith(old, new, |a, b| a / b, |a, b| a / b)
                }),
                Op::ShlAssign { id, val } => self.assign(&active, *id, val, |old, new| {
                    Item::U(old.u() << new.u())
                }),
                Op::ShrAssign { id, val } => self.assign(&active, *id, val, |old, new| {
                    Item::U(old.u() >> new.u())
                }),
                Op::ParamStore { param, index, value } => {
                    self.store(&active, *param, *index, *value, |_, new| new)
                }
                Op::ParamAccum { param, index, value } => {
                    self.store(&active, *param, *index, *value, |old, new| {
                        arith(old, new, |a, b| a + b, u32::wrapping_add)
                    })
                }
                Op::ParamMul { param, index, value } => {
                    self.store(&active, *param, *index, *value, |old, new| {
                        arith(old, new, |a, b| a * b, u32::wrapping_mul)
                    })
                }
                Op::SharedStore { mem, index, value } => {
                    for t in &active {
                        let index = self.read(*t, *index).u() as usize;
                        self.shared[*mem][index] = self.read(*t, *value);
                    }
                }
                Op::SharedAccum { mem, index, value } => {
                    for t in &active {
                        let index = self.read(*t, *index).u() as usize;
                        let old = self.shared[*mem][index];
                        let new = self.read(*t, *value);
                        self.shared[*mem][index] =
                            arith(old, new, |a, b| a + b, u32::wrapping_add);
                    }
                }
                Op::ForLoopBegin { index, end: bound, step } => {
                    let close = self.end(at);
                    let mut done = Vec::new();
                    loop {
                        let (on, off): (Vec<usize>, Vec<usize>) = active
                            .iter()
                            .partition(|t| less(self.read(**t, *index), self.read(**t, *bound)));
                        done.extend(off);
                        if on.is_empty() {
                            break;
                        }
                        let mut inner = Exits::default();
                        active = self.run(at, close - 1, on, &mut inner);
                        active.extend(inner.continued);
                        done.extend(inner.broken);
                        exits.returned.extend(inner.returned);
                        for t in &active {
                            let next = self.read(*t, *index).u() + self.read(*t, *step).u();
                            self.vars[*index][*t] = Some(Item::U(next));
                        }
                    }
                    active = done;
                    at = close;
                }
                Op::WhileLoopBegin { .. } | Op::ForeverLoopBegin => {
                    let close = self.end(at);
                    let mut done = Vec::new();
                    loop {
                        if let Op::WhileLoopBegin { cond } = op {
                            let (on, off): (Vec<usize>, Vec<usize>) =
                                active.iter().partition(|t| self.eval(**t, cond).b());
                            active = on;
                            done.extend(off);
                        }
                        if active.is_empty() {
                            break;
                        }
                        let mut inner = Exits::default();
                        active = self.run(at, close - 1, active, &mut inner);
                        active.extend(inner.continued);
                        done.extend(inner.broken);
                        exits.returned.extend(inner.returned);
                    }
                    active = done;
                    at = close;
                }
                Op::IfBegin { cond } => {
                    let mut close = self.end(at);
                    let (yes, no): (Vec<usize>, Vec<usize>) =
                        active.iter().partition(|t| self.read(**t, *cond).b());
                    active = self.run(at, close - 1, yes, exits);
                    if close < end && matches!(program.ops[close], Op::ElseBegin) {
                        let begin = close + 1;
                        close = self.end(begin);
                        active.extend(self.run(begin, close - 1, no, exits));
                    } else {
                        active.extend(no);
                    }
                    at = close;
                }
                Op::Break => exits.broken.append(&mut active),
                Op::Continue => exits.continued.append(&mut active),
                Op::Return => exits.returned.append(&mut active),
                _ => panic!("no statement: {op:?}"),
            }
        }
        active
    }
}

/// The threads that left a list of operations before its end.
#[derive(Default)]
struct Exits {
    broken: Vec<usize>,
    continued: Vec<usize>,
    returned: Vec<usize>,
}

fn run(launch: &Launch) {
    let program = &*launch.kernel.0;
    let threads: usize = program.block.iter().map(|b| *b as usize).product();
    let all: Vec<usize> = (0..threads).collect();
    for z in 0..launch.grid[2] {
        for y in 0..launch.grid[1] {
            for x in 0..launch.grid[0] {
                let mut block = Block {
                    program,
                    bindings: &launch.bindings,
                    at: [x, y, z],
                    vars: vec![vec![None; threads]; program.values.len()],
                    shared: program
                        .shared
                        .iter()
                        .map(|(dtype, size)| vec![Item::of(*dtype, 0); *size])
                        .collect(),
                };
                block.run(0, program.ops.len(), all.clone(), &mut Exits::default());
            }
        }
    }
}

fn bits(data: &[f32]) -> Vec<u32> {
    data.iter().map(|x| x.to_bits()).collect()
}

fn fetch(ctx: &GpuContext<Device>, tensor: &Tensor<Device>) -> Vec<f32> {
    let mut dst = vec![0_u32; tensor.len() as usize];
    ctx.download(tensor, &mut dst).unwrap();
    dst.iter().map(|x| f32::from_bits(*x)).collect()
}

/// Runs the forward pass of a graph, and the backward pass from the given gradient on.
fn train(
    graph: &mut Graph,
    meta: Metadata,
    sizes: &[u32],
    inputs: &[(&[u32], &[f32])],
    seed: &[f32],
) -> (GpuContext<Device>, AllocTensors<Device>) {
    let saved = graph.compute_saved_nodes();
    let options = CompilationOptions::default();

    let ctx = GpuContext::new_with_context(Device);
    assert!(graph.validate(meta).is_ok());
    assert!(graph.topo_sort().is_ok());
    graph.rebuild_outputs();
    assert!(graph.is_compilable(meta, saved.len(), options.opt.tile_size));
    let ir = graph.lower(meta, &options, &saved).unwrap();
    let kernels = ctx.compile(&ir, &options).map_err(|e| e.msg).ok().unwrap();

    let in_tensors: Vec<Tensor<Device>> = inputs
        .iter()
        .map(|(shape, data)| ctx.new_tensor_init(shape, &bits(data)))
        .collect();

    assert!(meta.validate_meta(sizes));

    let tensors = ctx.alloc_tensors(graph, &saved, sizes);
    let upload = ctx.upload(&tensors.seed, &bits(seed)).ok().unwrap();

    {
        let schedule = ctx
            .schedule(&kernels, sizes, &in_tensors, &tensors)
            .map_err(|e| e.msg)
            .ok()
            .unwrap();

        let mut state = ctx.prepare_batch();

        {
            let mut pass = ctx.start_batch(&mut state);

            pass.dispatch_forward(&schedule);
            pass.dispatch_backward(&schedule);
        }

        upload.sync();

        state.encode().submit().sync();
    }

    (ctx, tensors)
}

fn filled(tensor: &[f32], value: f32) -> bool {
    tensor.iter().all(|x| *x == value)
}

#[test]
fn mul_add_forward_backward() {
    let mut meta = Metadata::new();
    let m = meta.new_field();
    let n = meta.new_field();

    let mut graph = Graph::new(LossType::MEAN_SQUARED_ERROR);
    let a = graph.input(&[m, n]);
    let b = graph.input(&[m, n]);
    let c = graph.input(&[m, n]);

    let x = graph.mul(a, b);
    graph.add(c, x);

    let (ctx, tensors) = train(
        &mut graph,
        meta,
        &[32, 32],
        &[
            (&[32, 32], &[3.0; 1024]),
            (&[32, 32], &[2.0; 1024]),
            (&[32, 32], &[1.0; 1024]),
        ],
        &[1.0; 1024],
    );

    let out = fetch(&ctx, &tensors.forward_out);
    assert_eq!(out.len(), 1024);
    assert!(filled(&out, 7.0));
    assert!(filled(&fetch(&ctx, &tensors.grad_tensors[0]), 2.0));
    assert!(filled(&fetch(&ctx, &tensors.grad_tensors[1]), 3.0));
    assert!(filled(&fetch(&ctx, &tensors.grad_tensors[2]), 1.0));
}

#[test]
fn matmul_sub_forward_backward() {
    const M: u32 = 32;
    const N: u32 = 64;
    const K: u32 = 128;

    const A_VAL: f32 = 3.0;
    const B_VAL: f32 = 2.0;
    const C_VAL: f32 = 1.0;
    const D_VAL: f32 = 0.5;

    const X_VAL: f32 = A_VAL * B_VAL * K as f32;
    const Y_VAL: f32 = C_VAL * D_VAL * K as f32;
    const Z_VAL: f32 = X_VAL - Y_VAL;

    const A_GRAD: f32 = B_VAL * N as f32;
    const B_GRAD: f32 = A_VAL * M as f32;
    const C_GRAD: f32 = -D_VAL * N as f32;
    const D_GRAD: f32 = -C_VAL * M as f32;

    let mut meta = Metadata::new();
    let m = meta.new_field();
    let n = meta.new_field();
    let k = meta.new_field();

    let mut graph = Graph::new(LossType::MEAN_SQUARED_ERROR);

    let a = graph.input(&[m, k]);
    let b = graph.input(&[k, n]);
    let c = graph.input(&[m, k]);
    let d = graph.input(&[k, n]);

    let x = graph.matmul(a, b);
    let y = graph.matmul(c, d);

    graph.sub(x, y);

    let (ctx, tensors) = train(
        &mut graph,
        meta,
        &[M, N, K],
        &[
            (&[M, K], &[A_VAL; (M * K) as usize]),
            (&[K, N], &[B_VAL; (K * N) as usize]),
            (&[M, K], &[C_VAL; (M * K) as usize]),
            (&[K, N], &[D_VAL; (K * N) as usize]),
        ],
        &[1.0; (M * N) as usize],
    );

    assert!(filled(&fetch(&ctx, &tensors.forward_saved[0]), X_VAL));
    assert!(filled(&fetch(&ctx, &tensors.forward_saved[1]), Y_VAL));
    assert!(filled(&fetch(&ctx, &tensors.forward_out), Z_VAL));
    assert!(filled(&fetch(&ctx, &tensors.grad_tensors[0]), A_GRAD));
    assert!(filled(&fetch(&ctx, &tensors.grad_tensors[1]), B_GRAD));
    assert!(filled(&fetch(&ctx, &tensors.grad_tensors[2]), C_GRAD));
    assert!(filled(&fetch(&ctx, &tensors.grad_tensors[3]), D_GRAD));
}

#[test]
fn matmul_sub_softmax_forward_backward() {
    let mut meta = Metadata::new();
    let m = meta.new_field();
    let n = meta.new_field();
    let k = meta.new_field();

    let mut graph = Graph::new(LossType::CROSS_ENTROPY);
    let a = graph.input(&[m, k]);
    let b = graph.input(&[k, n]);
    let c = graph.input(&[m, n]);

    let x = graph.matmul(a, b);
    let s = graph.sub(c, x);
    graph.softmax(s);

    let (ctx, tensors) = train(
        &mut graph,
        meta,
        &[16, 64, 32],
        &[
            (&[16, 32], &[3.0; 512]),
            (&[32, 64], &[2.0; 2048]),
            (&[16, 64], &[1.0; 1024]),
        ],
        &[1.0; 1024],
    );

    let out = fetch(&ctx, &tensors.forward_out);
    assert_eq!(out.len(), 1024);
    assert!(filled(&out, 1.0 / 64.0));
    let grad = fetch(&ctx, &tensors.grad_tensors[0]);
    assert_eq!(grad.len(), 512);
    assert!(filled(&grad, 0.0));
    let grad = fetch(&ctx, &tensors.grad_tensors[1]);
    assert_eq!(grad.len(), 2048);
    assert!(filled(&grad, 0.0));
    let grad = fetch(&ctx, &tensors.grad_tensors[2]);
    assert_eq!(grad.len(), 1024);
    assert!(filled(&grad, 0.0));
}

/// Runs an operation whose result is multiplied by ones, and returns the product and the gradient
/// of the input.
fn scaled(build: impl Fn(&mut Graph, NodeId) -> NodeId, data: &[f32]) -> (Vec<f32>, Vec<f32>) {
    let mut meta = Metadata::new();
    let m = meta.new_field();
    let n = meta.new_field();
    let mut graph = Graph::new(LossType::MEAN_SQUARED_ERROR);
    let x = graph.input(&[m, n]);
    let ones = graph.input(&[m, n]);
    let y = build(&mut graph, x);
    graph.mul(y, ones);
    let (ctx, tensors) = train(
        &mut graph,
        meta,
        &[16, 16],
        &[(&[16, 16], data), (&[16, 16], &[1.0; 256])],
        &[1.0; 256],
    );
    let out = fetch(&ctx, &tensors.forward_out);
    let grad = fetch(&ctx, &tensors.grad_tensors[0]);
    (out, grad)
}

/// Runs a graph with one input and returns its output and the gradient of the input.
fn through(build: impl Fn(&mut Graph, NodeId) -> NodeId, data: &[f32]) -> (Vec<f32>, Vec<f32>) {
    let mut meta = Metadata::new();
    let m = meta.new_field();
    let n = meta.new_field();
    let mut graph = Graph::new(LossType::MEAN_SQUARED_ERROR);
    let x = graph.input(&[m, n]);
    build(&mut graph, x);
    let (ctx, tensors) = train(&mut graph, meta, &[16, 16], &[(&[16, 16], data)], &[1.0; 256]);
    let out = fetch(&ctx, &tensors.forward_out);
    let grad = fetch(&ctx, &tensors.grad_tensors[0]);
    (out, grad)
}

/// Numbers on both sides of zero.
fn spread() -> Vec<f32> {
    (0..256).map(|i| (i as f32 - 127.5) / 32.0).collect()
}

fn close(a: f32, b: f32) -> bool {
    (a - b).abs() <= 1e-4 * (1.0 + b.abs())
}

fn check(
    build: impl Fn(&mut Graph, NodeId) -> NodeId,
    data: &[f32],
    value: impl Fn(f32) -> f32,
    slope: impl Fn(f32) -> f32,
) {
    let (out, grad) = scaled(build, data);
    for (i, x) in data.iter().enumerate() {
        assert!(close(out[i], value(*x)), "value at {x}: {}", out[i]);
        assert!(close(grad[i], slope(*x)), "slope at {x}: {}", grad[i]);
    }
}

#[test]
fn log_values() {
    // The slope is taken at what the forward pass has saved.
    let data: Vec<f32> = (1..257).map(|i| i as f32 / 16.0 + 1.0).collect();
    check(|g, x| g.log(x), &data, f32::ln, |x| 1.0 / x.ln());
}

#[test]
fn tanh_values() {
    check(|g, x| g.tanh(x), &spread(), f32::tanh, |x| 1.0 - x.tanh() * x.tanh());
}

#[test]
fn relu_values() {
    // What the forward pass has saved is never negative.
    check(|g, x| g.relu(x), &spread(), |x| x.max(0.0), |_| 1.0);
}

#[test]
fn elu_values() {
    check(
        |g, x| g.elu(x),
        &spread(),
        |x| if x >= 0.0 { x } else { x.exp() - 1.0 },
        |x| if x >= 0.0 { 1.0 } else { x.exp() },
    );
}

#[test]
fn gelu_values() {
    // The slope is computed from the tangent that the forward pass has saved.
    let tangent = |x: f32| (0.797_884_6 * (x + 0.044_715 * x * x * x)).tanh();
    check(
        |g, x| g.gelu(x),
        &spread(),
        |x| 0.5 * x * (1.0 + tangent(x)),
        |x| {
            let t = tangent(x);
            let inner = 0.797_884_6 * (1.0 + 3.0 * 0.044_715 * t * t);
            0.5 * ((1.0 + t) + (1.0 - t * t) * (t * inner))
        },
    );
}

#[test]
fn exp_values() {
    check(|g, x| g.exp(x), &spread(), f32::exp, f32::exp);
}

#[test]
fn abs_values() {
    // What the forward pass has saved is never negative.
    check(|g, x| g.abs(x), &spread(), f32::abs, |_| 1.0);
}

#[test]
fn neg_values() {
    check(|g, x| g.neg(x), &spread(), |x| -x, |_| -1.0);
}

/// Runs the loss of a graph with one input and returns the loss and the first gradient.
fn loss_of(loss: LossType, pred: &[f32], target: &[u32]) -> (Vec<f32>, Vec<f32>) {
    let mut meta = Metadata::new();
    let m = meta.new_field();
    let mut graph = Graph::new(loss);
    let x = graph.input(&[m, m]);
    let y = graph.input(&[m, m]);
    graph.matmul(x, y);
    let saved = graph.compute_saved_nodes();
    let options = CompilationOptions::default();
    let ctx = GpuContext::new_with_context(Device);
    let ir = graph.lower(meta, &options, &saved).unwrap();
    let kernels = ctx.compile(&ir, &options).map_err(|e| e.msg).ok().unwrap();
    let tensors = ctx.alloc_tensors(&graph, &saved, &[16]);
    ctx.upload(&tensors.forward_out, &bits(pred)).ok().unwrap().sync();
    let target = ctx.new_onehot_init(target);
    let mut state = ctx.prepare_batch();
    ctx.start_batch(&mut state).launch_loss(&kernels, &target, &tensors);
    state.encode().submit().sync();
    (fetch(&ctx, &tensors.loss_t), fetch(&ctx, &tensors.seed))
}

#[test]
fn mean_squared_error_values() {
    let pred = spread();
    let target: Vec<f32> = pred.iter().map(|x| 1.0 - x * x).collect();
    let (loss, grad) = loss_of(LossType::MEAN_SQUARED_ERROR, &pred, &bits(&target));
    for i in 0..256 {
        let diff = pred[i] - target[i];
        assert_eq!(loss[i], diff * diff);
        assert_eq!(grad[i], 2.0 * diff);
    }
}

#[test]
fn binary_cross_entropy_values() {
    let pred: Vec<f32> = (0..256).map(|i| (i as f32 + 0.5) / 256.0).collect();
    let target = [0.25_f32; 256];
    let (loss, grad) = loss_of(LossType::BINARY_CROSS_ENTROPY, &pred, &bits(&target));
    for i in 0..256 {
        let expected = 0.75 * 0.75_f32.ln() - 0.25 * pred[i].ln();
        assert!(close(loss[i], expected));
        assert_eq!(grad[i], pred[i] - 0.25);
    }
}

#[test]
fn cross_entropy_values() {
    let pred: Vec<f32> = (0..256).map(|i| (i as f32 + 0.5) / 256.0).collect();
    let classes: Vec<u32> = (0..16).map(|row| (5 * row) % 16).collect();
    let (loss, grad) = loss_of(LossType::CROSS_ENTROPY, &pred, &classes);
    for row in 0..16 {
        for col in 0..16 {
            let i = 16 * row + col;
            if classes[row] as usize == col {
                assert!(close(loss[i], -pred[i].ln()));
                assert_eq!(grad[i], pred[i] - 1.0);
            } else {
                assert_eq!(loss[i], 0.0);
                assert_eq!(grad[i], pred[i]);
            }
        }
    }
}

#[test]
fn tensors_hold_what_they_are_given() {
    let ctx = GpuContext::new_with_context(Device);
    let tensor = ctx.new_tensor_init(&[2, 3], &[1, 2, 3, 0xff, 0x1234_5678, u32::MAX]);
    let other = ctx.new_tensor(&[2, 3]);
    assert_eq!(tensor.rank(), 2);
    assert_eq!(tensor.len(), 6);
    assert_eq!(other.len(), 6);
    assert!(!tensor.is_empty());
    assert!(ctx.new_tensor(&[4, 0]).is_empty());
    assert_eq!(tensor.dims(), Ok(&vec![2, 3]));
    assert!(tensor == other);
    assert!(tensor != ctx.new_tensor(&[3, 2]));

    let mut words = [7; 6];
    ctx.download(&tensor, &mut words).unwrap();
    assert_eq!(words, [1, 2, 3, 0xff, 0x1234_5678, u32::MAX]);

    ctx.pipe(&tensor, &other).ok().unwrap().sync();
    let mut words = [7; 8];
    ctx.download(&other, &mut words).unwrap();
    assert_eq!(words, [1, 2, 3, 0xff, 0x1234_5678, u32::MAX, 7, 7]);

    ctx.upload(&other, &[9; 6]).ok().unwrap().sync();
    let mut words = [7; 6];
    ctx.download(&other, &mut words).unwrap();
    assert_eq!(words, [9; 6]);
    assert!(ctx.upload(&other, &[9; 5]).is_err());
    assert!(ctx.download(&other, &mut [0; 5]).is_err());
    assert!(ctx.pipe(&other, &ctx.new_onehot(5)).is_err());
    assert_eq!(ctx.new_onehot(5).dims(), Ok(&vec![5]));
    assert_eq!(ctx.new_onehot_init(&[4, 2]).dims(), Ok(&vec![2]));
}

#[test]
fn a_buffer_of_less_than_a_word_is_empty() {
    let ctx = GpuContext::new_with_context(Device);
    let tensor: Tensor<Device> = Tensor {
        shape: None,
        data: gpu_alloc(&ctx.inner, 2),
    };
    assert_eq!((tensor.data.size_bytes(), tensor.data.size()), (2, 0));
    assert_eq!(tensor.len(), 0);
    assert!(tensor.is_empty());
    assert_eq!(tensor.dims(), Err(0));

    let tensor: Tensor<Device> = Tensor {
        shape: None,
        data: gpu_alloc(&ctx.inner, 14),
    };
    assert_eq!((tensor.data.size_bytes(), tensor.data.size()), (14, 3));
    assert!(!tensor.is_empty());
    assert_eq!(tensor.dims(), Err(3));
}

#[test]
fn products_of_given_matrices() {
    const M: usize = 32;
    const N: usize = 16;
    const K: usize = 48;
    let mut meta = Metadata::new();
    let m = meta.new_field();
    let n = meta.new_field();
    let k = meta.new_field();
    let mut graph = Graph::new(LossType::MEAN_SQUARED_ERROR);
    let a = graph.input(&[m, k]);
    let b = graph.input(&[k, n]);
    graph.matmul(a, b);

    let left: Vec<f32> = (0..M * K).map(|i| (i % 7) as f32 - 3.0).collect();
    let right: Vec<f32> = (0..K * N).map(|i| (i % 5) as f32 - 1.0).collect();
    let seed: Vec<f32> = (0..M * N).map(|i| (i % 3) as f32).collect();
    let (ctx, tensors) = train(
        &mut graph,
        meta,
        &[M as u32, N as u32, K as u32],
        &[
            (&[M as u32, K as u32], &left),
            (&[K as u32, N as u32], &right),
        ],
        &seed,
    );

    let out = fetch(&ctx, &tensors.forward_out);
    for row in 0..M {
        for col in 0..N {
            let sum: f32 = (0..K).map(|t| left[row * K + t] * right[t * N + col]).sum();
            assert_eq!(out[row * N + col], sum);
        }
    }
    let grad = fetch(&ctx, &tensors.grad_tensors[0]);
    for row in 0..M {
        for col in 0..K {
            let sum: f32 = (0..N).map(|t| seed[row * N + t] * right[col * N + t]).sum();
            assert_eq!(grad[row * K + col], sum);
        }
    }
    let grad = fetch(&ctx, &tensors.grad_tensors[1]);
    for row in 0..K {
        for col in 0..N {
            let sum: f32 = (0..M).map(|t| left[t * K + row] * seed[t * N + col]).sum();
            assert_eq!(grad[row * N + col], sum);
        }
    }
}

#[test]
fn softmax_rows() {
    let data = spread();
    let (out, _) = through(|g, x| g.softmax(x), &data);
    for row in 0..16 {
        let cells = &data[16 * row..16 * row + 16];
        let top = cells.iter().cloned().fold(f32::MIN, f32::max);
        let sum: f32 = cells.iter().map(|x| (x - top).exp()).sum();
        for (col, x) in cells.iter().enumerate() {
            assert!(close(out[16 * row + col], (x - top).exp() / sum));
        }
    }
}

#[test]
fn quotient_values() {
    let mut meta = Metadata::new();
    let m = meta.new_field();
    let mut graph = Graph::new(LossType::MEAN_SQUARED_ERROR);
    let a = graph.input(&[m, m]);
    let b = graph.input(&[m, m]);
    graph.div(a, b);
    let (ctx, tensors) = train(
        &mut graph,
        meta,
        &[16],
        &[(&[16, 16], &[3.0; 256]), (&[16, 16], &[2.0; 256])],
        &[1.0; 256],
    );
    assert!(filled(&fetch(&ctx, &tensors.forward_out), 1.5));
    assert!(filled(&fetch(&ctx, &tensors.grad_tensors[0]), 0.5));
    assert!(filled(&fetch(&ctx, &tensors.grad_tensors[1]), -0.75));
}

#[test]
fn matmul_add_forward_backward() {
    const M: u32 = 32;
    const N: u32 = 64;
    const K: u32 = 16;

    let mut meta = Metadata::new();
    let m = meta.new_field();
    let n = meta.new_field();
    let k = meta.new_field();

    let mut graph = Graph::new(LossType::MEAN_SQUARED_ERROR);
    let a = graph.input(&[m, k]);
    let b = graph.input(&[k, n]);
    let c = graph.input(&[m, n]);

    let x = graph.matmul(a, b);
    graph.add(x, c);

    let (ctx, tensors) = train(
        &mut graph,
        meta,
        &[M, N, K],
        &[
            (&[M, K], &[3.0; (M * K) as usize]),
            (&[K, N], &[2.0; (K * N) as usize]),
            (&[M, N], &[1.0; (M * N) as usize]),
        ],
        &[1.0; (M * N) as usize],
    );

    assert!(filled(&fetch(&ctx, &tensors.forward_out), 3.0 * 2.0 * K as f32 + 1.0));
    assert!(filled(&fetch(&ctx, &tensors.grad_tensors[0]), 2.0 * N as f32));
    assert!(filled(&fetch(&ctx, &tensors.grad_tensors[1]), 3.0 * M as f32));
    assert!(filled(&fetch(&ctx, &tensors.grad_tensors[2]), 1.0));
}

#[test]
fn chained_products() {
    const M: u32 = 16;
    const N: u32 = 16;
    const K: u32 = 32;
    const H: u32 = 48;

    let mut meta = Metadata::new();
    let m = meta.new_field();
    let n = meta.new_field();
    let k = meta.new_field();
    let h = meta.new_field();

    let mut graph = Graph::new(LossType::MEAN_SQUARED_ERROR);
    let a = graph.input(&[m, k]);
    let b = graph.input(&[k, n]);
    let c = graph.input(&[h, m]);
    let d = graph.input(&[n, h]);
    let e = graph.input(&[h, h]);

    let x = graph.matmul(a, b);
    let y = graph.matmul(c, x);
    let z = graph.matmul(y, d);
    graph.add(z, e);

    let (ctx, tensors) = train(
        &mut graph,
        meta,
        &[M, N, K, H],
        &[
            (&[M, K], &[3.0; (M * K) as usize]),
            (&[K, N], &[2.0; (K * N) as usize]),
            (&[H, M], &[1.0; (H * M) as usize]),
            (&[N, H], &[0.5; (N * H) as usize]),
            (&[H, H], &[1.0; (H * H) as usize]),
        ],
        &[1.0; (H * H) as usize],
    );

    let x_val = 3.0 * 2.0 * K as f32;
    let y_val = 1.0 * x_val * M as f32;
    let z_val = y_val * 0.5 * N as f32;
    let y_grad = 0.5 * H as f32;
    let x_grad = y_grad * 1.0 * H as f32;

    assert!(filled(&fetch(&ctx, &tensors.forward_saved[0]), x_val));
    assert!(filled(&fetch(&ctx, &tensors.forward_saved[1]), y_val));
    assert!(filled(&fetch(&ctx, &tensors.forward_saved[2]), z_val));
    assert!(filled(&fetch(&ctx, &tensors.forward_out), z_val + 1.0));
    assert!(filled(&fetch(&ctx, &tensors.grad_tensors[0]), x_grad * 2.0 * N as f32));
    assert!(filled(&fetch(&ctx, &tensors.grad_tensors[1]), 3.0 * x_grad * M as f32));
    assert!(filled(&fetch(&ctx, &tensors.grad_tensors[2]), y_grad * x_val * N as f32));
    assert!(filled(&fetch(&ctx, &tensors.grad_tensors[3]), y_val * H as f32));
    assert!(filled(&fetch(&ctx, &tensors.grad_tensors[4]), 1.0));
}
