//! The recorded graphs, computed on the host and held to hand-made values.
use rxla_core::dtype::DType;
use rxla_core::batch_norm_state::BatchNormState;
use rxla_core::graph::{Graph, Node, Tensor};
use rxla_core::kv_cache::KvCache;
use rxla_core::random_state::ThreefryState;
use rxla_core::state::StateGraph;
use rxla_core::op::{
    Binary, Comparison, Conv2dOptions, ConvTranspose2dOptions, IntegerBinary, Op, Pool2dOptions,
    Reduction, Scalar, Unary,
};
use rxla_core::random::{
    categorical_from_bits, normal_f32_from_bits, threefry2x32, threefry2x32_blocks,
    top_p_categorical_from_bits, topk_categorical_from_bits, uniform_f32_from_bits,
};
use rxla_core::resize::LinearSamples;
use rxla_core::rotary::RotaryLayout;
use rxla_core::tracer::Tracer;

/// The bits of every element, in row-major order.
#[derive(Clone, Debug, PartialEq)]
struct Data {
    dims: Vec<usize>,
    bits: Vec<u32>,
}

fn float(bits: u32) -> f32 {
    f32::from_bits(bits)
}

fn volume(dims: &[usize]) -> usize {
    dims.iter().product()
}

fn index_at(dims: &[usize], mut position: usize) -> Vec<usize> {
    let mut index = vec![0usize; dims.len()];
    for axis in (0..dims.len()).rev() {
        index[axis] = position % dims[axis];
        position /= dims[axis];
    }
    index
}

fn position_of(dims: &[usize], index: &[usize]) -> usize {
    let mut position = 0usize;
    for axis in 0..dims.len() {
        position = position * dims[axis] + index[axis];
    }
    position
}

impl Data {
    fn at(&self, index: &[usize]) -> u32 {
        self.bits[position_of(&self.dims, index)]
    }

    fn floats(&self) -> Vec<f32> {
        self.bits.iter().map(|bits| float(*bits)).collect()
    }

    fn build(dims: &[usize], mut element: impl FnMut(&[usize]) -> u32) -> Data {
        let mut bits = Vec::new();
        for position in 0..volume(dims) {
            bits.push(element(&index_at(dims, position)));
        }
        Data { dims: dims.to_vec(), bits }
    }
}

fn constant(value: &Scalar) -> f32 {
    match value {
        Scalar::Bits(bits) => float(*bits),
        Scalar::Reciprocal { count } => 1.0 / *count as f32,
        Scalar::ReciprocalProduct { a, b } => 1.0 / (*a as f32 * *b as f32),
        Scalar::ReciprocalSqrt { radicand } => 1.0 / (*radicand as f32).sqrt(),
        Scalar::ReciprocalOf(bits) => 1.0 / float(*bits),
        Scalar::OneMinus(bits) => 1.0 - float(*bits),
        Scalar::Negated(bits) => -float(*bits),
        Scalar::NegatedLog(bits) => -float(*bits).ln(),
        Scalar::Quotient { numerator, divisor } => float(*numerator) / *divisor as f32,
    }
}

fn erf(x: f32) -> f32 {
    let mut sum = x as f64;
    let mut term = x as f64;
    for n in 1..60 {
        let n = n as f64;
        term *= -(x as f64) * (x as f64) / n;
        sum += term / (2.0 * n + 1.0);
    }
    (sum * 2.0 / std::f64::consts::PI.sqrt()) as f32
}

fn round_even(x: f32) -> f32 {
    let down = x.floor();
    if x - down == 0.5 {
        2.0 * (x / 2.0).round()
    } else {
        x.round()
    }
}

fn unary(op: &Unary, x: f32) -> f32 {
    match op {
        Unary::Exp => x.exp(),
        Unary::Log => x.ln(),
        Unary::Log1p => x.ln_1p(),
        Unary::Expm1 => x.exp_m1(),
        Unary::Abs => x.abs(),
        Unary::Neg => -x,
        Unary::Sqrt => x.sqrt(),
        Unary::Rsqrt => 1.0 / x.sqrt(),
        Unary::Tanh => x.tanh(),
        Unary::Erf => erf(x),
        Unary::Floor => x.floor(),
        Unary::Ceil => x.ceil(),
        Unary::Round => x.round(),
        Unary::RoundTiesEven => round_even(x),
        Unary::Sin => x.sin(),
        Unary::Cos => x.cos(),
    }
}

fn binary(op: &Binary, x: f32, y: f32) -> f32 {
    match op {
        Binary::Add => x + y,
        Binary::Sub => x - y,
        Binary::Mul => x * y,
        Binary::Div => x / y,
        Binary::Maximum => x.max(y),
        Binary::Minimum => x.min(y),
    }
}

fn integer(op: &Binary, x: i32, y: i32) -> i32 {
    match op {
        Binary::Add => x.wrapping_add(y),
        Binary::Sub => x.wrapping_sub(y),
        Binary::Mul => x.wrapping_mul(y),
        Binary::Maximum => x.max(y),
        Binary::Minimum => x.min(y),
        Binary::Div => panic!("integer division"),
    }
}

fn bitwise(op: &IntegerBinary, x: u32, y: u32) -> u32 {
    match op {
        IntegerBinary::And => x & y,
        IntegerBinary::Or => x | y,
        IntegerBinary::Xor => x ^ y,
        IntegerBinary::ShiftLeft => x << y,
        IntegerBinary::ShiftRightLogical => x >> y,
        IntegerBinary::ShiftRightArithmetic => ((x as i32) >> y) as u32,
    }
}

fn compared<T: PartialOrd>(op: &Comparison, x: T, y: T) -> bool {
    match op {
        Comparison::Equal => x == y,
        Comparison::NotEqual => x != y,
        Comparison::Less => x < y,
        Comparison::LessEqual => x <= y,
        Comparison::Greater => x > y,
        Comparison::GreaterEqual => x >= y,
    }
}

fn mask(set: bool) -> u32 {
    if set {
        1.0f32.to_bits()
    } else {
        0
    }
}

fn clamped(at: i32, size: usize) -> usize {
    (at.max(0) as usize).min(size - 1)
}

/// Positions along one axis in a stable order, NaN last.
fn ordered(x: &Data, axis: usize, descending: bool, index: &[usize]) -> Vec<usize> {
    let mut order: Vec<usize> = (0..x.dims[axis]).collect();
    let value = |k: usize| {
        let mut at = index.to_vec();
        at[axis] = k;
        float(x.at(&at))
    };
    order.sort_by(|a, b| {
        let (p, q) = (value(*a), value(*b));
        if p.is_nan() || q.is_nan() {
            p.is_nan().cmp(&q.is_nan())
        } else if descending {
            q.partial_cmp(&p).unwrap()
        } else {
            p.partial_cmp(&q).unwrap()
        }
    });
    order
}

fn matmul(x: &Data, y: &Data, dims: &[usize]) -> Data {
    let rank = dims.len();
    let depth = x.dims[rank - 1];
    Data::build(dims, |index| {
        let mut sum = 0.0f32;
        for k in 0..depth {
            let mut a = index.to_vec();
            a[rank - 1] = k;
            let mut b = index.to_vec();
            b[rank - 2] = k;
            sum += float(x.at(&a)) * float(y.at(&b));
        }
        sum.to_bits()
    })
}

fn attention(args: &[&Data], scale: f32, dims: &[usize]) -> Data {
    let rank = dims.len();
    let keys = args[1].dims[rank - 2];
    let depth = args[0].dims[rank - 1];
    Data::build(dims, |index| {
        let mut scores = Vec::new();
        for key in 0..keys {
            let mut score = 0.0f32;
            for d in 0..depth {
                let mut q = index.to_vec();
                q[rank - 1] = d;
                let mut k = index.to_vec();
                k[rank - 2] = key;
                k[rank - 1] = d;
                score += float(args[0].at(&q)) * float(args[1].at(&k));
            }
            score *= scale;
            if args.len() == 4 {
                let mut m = index.to_vec();
                m[rank - 1] = key;
                score += float(args[3].at(&m));
            }
            scores.push(score);
        }
        let top = scores.iter().cloned().fold(f32::NEG_INFINITY, f32::max);
        let total: f32 = scores.iter().map(|s| (s - top).exp()).sum();
        let mut sum = 0.0f32;
        for key in 0..keys {
            let mut v = index.to_vec();
            v[rank - 2] = key;
            sum += (scores[key] - top).exp() / total * float(args[2].at(&v));
        }
        sum.to_bits()
    })
}

/// The input coordinate of a window element, where it is inside.
fn tap(at: usize, stride: i64, offset: i64, low: i64, size: usize) -> Option<usize> {
    let position = at as i64 * stride + offset - low;
    if 0 <= position && (position as usize) < size {
        Some(position as usize)
    } else {
        None
    }
}

fn conv2d(x: &Data, k: &Data, options: &Conv2dOptions, oihw: bool, dims: &[usize]) -> Data {
    let outputs = dims[3];
    let per_group = outputs / options.groups as usize;
    let (kh, kw, kc) = if oihw {
        (k.dims[2], k.dims[3], k.dims[1])
    } else {
        (k.dims[0], k.dims[1], k.dims[2])
    };
    Data::build(dims, |index| {
        let group = index[3] / per_group;
        let mut sum = 0.0f32;
        for i in 0..kh {
            for j in 0..kw {
                let row = tap(
                    index[1],
                    options.strides.0,
                    i as i64 * options.dilation.0,
                    options.padding.0.0,
                    x.dims[1],
                );
                let column = tap(
                    index[2],
                    options.strides.1,
                    j as i64 * options.dilation.1,
                    options.padding.1.0,
                    x.dims[2],
                );
                if let (Some(row), Some(column)) = (row, column) {
                    for c in 0..kc {
                        let weight = if oihw {
                            k.at(&[index[3], c, i, j])
                        } else {
                            k.at(&[i, j, c, index[3]])
                        };
                        let value = x.at(&[index[0], row, column, group * kc + c]);
                        sum += float(value) * float(weight);
                    }
                }
            }
        }
        sum.to_bits()
    })
}

fn conv_transpose2d(
    x: &Data,
    k: &Data,
    options: &ConvTranspose2dOptions,
    dims: &[usize],
) -> Data {
    let mut totals = vec![0.0f32; volume(dims)];
    for position in 0..x.bits.len() {
        let at = index_at(&x.dims, position);
        for i in 0..k.dims[0] {
            for j in 0..k.dims[1] {
                let row = tap(
                    at[1],
                    options.strides.0,
                    i as i64 * options.dilation.0,
                    options.padding.0.0,
                    dims[1],
                );
                let column = tap(
                    at[2],
                    options.strides.1,
                    j as i64 * options.dilation.1,
                    options.padding.1.0,
                    dims[2],
                );
                if let (Some(row), Some(column)) = (row, column) {
                    for o in 0..k.dims[2] {
                        let to = position_of(dims, &[at[0], row, column, o]);
                        let weight = float(k.at(&[i, j, o, at[3]]));
                        totals[to] += float(x.bits[position]) * weight;
                    }
                }
            }
        }
    }
    Data { dims: dims.to_vec(), bits: totals.iter().map(|x| x.to_bits()).collect() }
}

fn kernel_gradient(x: &Data, d: &Data, options: &Conv2dOptions, dims: &[usize]) -> Data {
    let group_size = dims[3] / options.groups as usize;
    Data::build(dims, |index| {
        let channel = index[3] / group_size * dims[2] + index[2];
        let mut sum = 0.0f32;
        for n in 0..d.dims[0] {
            for i in 0..d.dims[1] {
                for j in 0..d.dims[2] {
                    let row = tap(
                        i,
                        options.strides.0,
                        index[0] as i64 * options.dilation.0,
                        options.padding.0.0,
                        x.dims[1],
                    );
                    let column = tap(
                        j,
                        options.strides.1,
                        index[1] as i64 * options.dilation.1,
                        options.padding.1.0,
                        x.dims[2],
                    );
                    if let (Some(row), Some(column)) = (row, column) {
                        let value = float(x.at(&[n, row, column, channel]));
                        sum += value * float(d.at(&[n, i, j, index[3]]));
                    }
                }
            }
        }
        sum.to_bits()
    })
}

fn pool(x: &Data, options: &Pool2dOptions, sum: bool, dims: &[usize]) -> Data {
    Data::build(dims, |index| {
        let mut total = if sum { 0.0f32 } else { f32::NEG_INFINITY };
        for i in 0..options.window.0 {
            for j in 0..options.window.1 {
                let row = tap(index[1], options.strides.0, i, options.padding.0.0, x.dims[1]);
                let column = tap(index[2], options.strides.1, j, options.padding.1.0, x.dims[2]);
                if let (Some(row), Some(column)) = (row, column) {
                    let value = float(x.at(&[index[0], row, column, index[3]]));
                    total = if sum { total + value } else { total.max(value) };
                }
            }
        }
        total.to_bits()
    })
}

fn sigmoid(x: f32) -> f32 {
    1.0 / (1.0 + (-x).exp())
}

/// One node, from the data of its operands.
fn compute(node: &Node, args: &[&Data], inputs: &[Data]) -> Data {
    let dims: Vec<usize> = node.ty.dims.iter().map(|size| *size as usize).collect();
    let each = |f: &dyn Fn(f32) -> f32| {
        let bits = args[0].bits.iter().map(|x| f(float(*x)).to_bits()).collect();
        Data { dims: dims.clone(), bits }
    };
    let pairs = |f: &dyn Fn(u32, u32) -> u32| {
        let bits = (0..volume(&dims)).map(|i| f(args[0].bits[i], args[1].bits[i])).collect();
        Data { dims: dims.clone(), bits }
    };
    match &node.op {
        Op::Parameter(number) | Op::StateInput { number, .. } => inputs[*number].clone(),
        Op::ConstantF32(values) => Data {
            dims,
            bits: values.iter().map(|value| constant(value).to_bits()).collect(),
        },
        Op::ConstantI32(values) => Data {
            dims,
            bits: values.iter().map(|value| *value as u32).collect(),
        },
        Op::Iota { axis } => Data::build(&dims, |index| index[*axis] as u32),
        Op::IndexToFloat => Data {
            dims,
            bits: args[0].bits.iter().map(|x| (*x as i32 as f32).to_bits()).collect(),
        },
        Op::Unary(op) => each(&|x| unary(op, x)),
        Op::Binary(op) => {
            if node.ty.dtype == DType::I32 {
                pairs(&|x, y| integer(op, x as i32, y as i32) as u32)
            } else {
                pairs(&|x, y| binary(op, float(x), float(y)).to_bits())
            }
        }
        Op::IntegerBinary(op) => pairs(&|x, y| bitwise(op, x, y)),
        Op::CompareMask(op) => pairs(&|x, y| mask(compared(op, float(x), float(y)))),
        Op::IndexLessEqualMask => pairs(&|x, y| mask(x as i32 <= y as i32)),
        Op::IsFiniteMask => each(&|x| if x.is_finite() { 1.0 } else { 0.0 }),
        Op::Select => {
            let bits = (0..volume(&dims))
                .map(|i| {
                    if float(args[0].bits[i]) != 0.0 {
                        args[1].bits[i]
                    } else {
                        args[2].bits[i]
                    }
                })
                .collect();
            Data { dims, bits }
        }
        Op::Relu => each(&|x| if x > 0.0 { x } else { 0.0 }),
        Op::Softplus => each(&|x| x.max(0.0) + (-x.abs()).exp().ln_1p()),
        Op::Sigmoid => each(&sigmoid),
        Op::StateRead { .. }
        | Op::StateWrite { .. }
        | Op::StopGradient
        | Op::OptimizationBarrier
        | Op::WithGradient
        | Op::WithElementwiseDerivative => args[0].clone(),
        Op::Reshape => Data { dims, bits: args[0].bits.clone() },
        Op::Broadcast { axes } => Data::build(&dims, |index| {
            let from: Vec<usize> = (0..axes.len())
                .map(|i| if args[0].dims[i] == 1 { 0 } else { index[axes[i]] })
                .collect();
            args[0].at(&from)
        }),
        Op::Transpose { permutation } => Data::build(&dims, |index| {
            let mut from = vec![0usize; index.len()];
            for i in 0..index.len() {
                from[permutation[i]] = index[i];
            }
            args[0].at(&from)
        }),
        Op::Reverse { axes } => Data::build(&dims, |index| {
            let mut from = index.to_vec();
            for axis in axes {
                from[*axis] = dims[*axis] - 1 - from[*axis];
            }
            args[0].at(&from)
        }),
        Op::Reduce { kind, axes } => {
            let start = match kind {
                Reduction::Sum => 0.0f32,
                Reduction::Maximum => f32::NEG_INFINITY,
            };
            let mut totals = vec![start; volume(&dims)];
            for position in 0..args[0].bits.len() {
                let index = index_at(&args[0].dims, position);
                let kept: Vec<usize> =
                    (0..index.len()).filter(|i| !axes.contains(i)).map(|i| index[i]).collect();
                let to = position_of(&dims, &kept);
                let value = float(args[0].bits[position]);
                totals[to] = match kind {
                    Reduction::Sum => totals[to] + value,
                    Reduction::Maximum => totals[to].max(value),
                };
            }
            Data { dims, bits: totals.iter().map(|x| x.to_bits()).collect() }
        }
        Op::Cumsum { axis } => Data::build(&dims, |index| {
            let mut sum = 0.0f32;
            for k in 0..index[*axis] + 1 {
                let mut at = index.to_vec();
                at[*axis] = k;
                sum += float(args[0].at(&at));
            }
            sum.to_bits()
        }),
        Op::Slice(axes) => Data::build(&dims, |index| {
            let from: Vec<usize> = (0..axes.len())
                .map(|i| axes[i].start as usize + index[i] * axes[i].stride as usize)
                .collect();
            args[0].at(&from)
        }),
        Op::SliceGradient(axes) => {
            let mut result = Data { dims: dims.clone(), bits: vec![0; volume(&dims)] };
            for position in 0..args[0].bits.len() {
                let index = index_at(&args[0].dims, position);
                let to: Vec<usize> = (0..axes.len())
                    .map(|i| axes[i].start as usize + index[i] * axes[i].stride as usize)
                    .collect();
                result.bits[position_of(&dims, &to)] = args[0].bits[position];
            }
            result
        }
        Op::Pad(padding) => Data::build(&dims, |index| {
            let mut from = Vec::new();
            for i in 0..padding.len() {
                let at = index[i] as i64 - padding[i].0;
                if at < 0 || at as usize >= args[0].dims[i] {
                    return args[1].bits[0];
                }
                from.push(at as usize);
            }
            args[0].at(&from)
        }),
        Op::Concatenate { axis } => Data::build(&dims, |index| {
            let mut at = index.to_vec();
            for part in args {
                if at[*axis] < part.dims[*axis] {
                    return part.at(&at);
                }
                at[*axis] -= part.dims[*axis];
            }
            panic!("outside of every part")
        }),
        Op::Take { axis } => Data::build(&dims, |index| {
            let rank = args[1].dims.len();
            let at = args[1].at(&index[*axis..*axis + rank]) as i32;
            let mut from = index[..*axis].to_vec();
            from.push(clamped(at, args[0].dims[*axis]));
            from.extend(&index[*axis + rank..]);
            args[0].at(&from)
        }),
        Op::TakeAlongAxis { axis } => Data::build(&dims, |index| {
            let mut from = index.to_vec();
            from[*axis] = clamped(args[1].at(index) as i32, args[0].dims[*axis]);
            args[0].at(&from)
        }),
        Op::GatherGradient { axis, batched } => {
            let mut totals = vec![0.0f32; volume(&dims)];
            for position in 0..args[0].bits.len() {
                let index = index_at(&args[0].dims, position);
                let to = if *batched {
                    let mut to = index.clone();
                    to[*axis] = clamped(args[1].at(&index) as i32, dims[*axis]);
                    to
                } else {
                    let rank = args[1].dims.len();
                    let at = args[1].at(&index[*axis..*axis + rank]) as i32;
                    let mut to = index[..*axis].to_vec();
                    to.push(clamped(at, dims[*axis]));
                    to.extend(&index[*axis + rank..]);
                    to
                };
                totals[position_of(&dims, &to)] += float(args[0].bits[position]);
            }
            Data { dims, bits: totals.iter().map(|x| x.to_bits()).collect() }
        }
        Op::DynamicSlice => Data::build(&dims, |index| {
            let from: Vec<usize> = (0..index.len())
                .map(|i| {
                    let room = args[0].dims[i] - dims[i] + 1;
                    clamped(args[1 + i].bits[0] as i32, room) + index[i]
                })
                .collect();
            args[0].at(&from)
        }),
        Op::DynamicUpdateSlice => {
            let mut result = args[0].clone();
            for position in 0..args[1].bits.len() {
                let index = index_at(&args[1].dims, position);
                let to: Vec<usize> = (0..index.len())
                    .map(|i| {
                        let room = dims[i] - args[1].dims[i] + 1;
                        clamped(args[2 + i].bits[0] as i32, room) + index[i]
                    })
                    .collect();
                result.bits[position_of(&dims, &to)] = args[1].bits[position];
            }
            result
        }
        Op::ArgMax { axis } => Data::build(&dims, |index| {
            let mut at = index.to_vec();
            at.insert(*axis, 0);
            let mut best = 0usize;
            let mut top = float(args[0].at(&at));
            for k in 1..args[0].dims[*axis] {
                at[*axis] = k;
                let value = float(args[0].at(&at));
                if value > top {
                    best = k;
                    top = value;
                }
            }
            best as u32
        }),
        Op::SortedIndices { axis, descending } => Data::build(&dims, |index| {
            ordered(args[0], *axis, *descending, index)[index[*axis]] as u32
        }),
        Op::Matmul { .. } => matmul(args[0], args[1], &dims),
        Op::Attention { scale } => attention(args, constant(scale), &dims),
        Op::Conv2d(options) => conv2d(args[0], args[1], options, false, &dims),
        Op::Conv2dOihw(options) => conv2d(args[0], args[1], options, true, &dims),
        Op::ConvTranspose2d(options) => conv_transpose2d(args[0], args[1], options, &dims),
        Op::Conv2dKernelGradient(options) => kernel_gradient(args[0], args[1], options, &dims),
        Op::MaxPool2d(options) => pool(args[0], options, false, &dims),
        Op::SumPool2d(options) => pool(args[0], options, true, &dims),
        Op::GetDimensionSize { axis } => Data {
            dims,
            bits: vec![args[0].dims[*axis] as u32],
        },
        _ => panic!("operation not computed here"),
    }
}

fn run(graph: &Graph, tensor: &Tensor, inputs: &[Data]) -> Data {
    let mut done: Vec<Data> = Vec::new();
    for position in 0..tensor.node_id() + 1 {
        let node = graph.node_at(position);
        let args: Vec<&Data> = node.operands.iter().map(|at| &done[*at]).collect();
        let data = compute(node, &args, inputs);
        assert_eq!(data.bits.len(), volume(&data.dims));
        done.push(data);
    }
    let result = done.pop().unwrap();
    let shape: Vec<usize> = tensor.shape().iter().map(|size| *size as usize).collect();
    assert_eq!(result.dims, shape);
    result
}

fn floats(graph: &Graph, tensor: &Tensor) -> Vec<f32> {
    run(graph, tensor, &[]).floats()
}

fn words(graph: &Graph, tensor: &Tensor) -> Vec<u32> {
    run(graph, tensor, &[]).bits
}

fn indices(graph: &Graph, tensor: &Tensor) -> Vec<i32> {
    words(graph, tensor).iter().map(|word| *word as i32).collect()
}

fn scalars(values: &[f32]) -> Vec<Scalar> {
    values.iter().map(|value| Scalar::Bits(value.to_bits())).collect()
}

fn tensor(graph: &mut Graph, dims: &[i64], values: &[f32]) -> Tensor {
    graph.constant(dims, &scalars(values)).unwrap()
}

/// Consecutive numbers from one on.
fn counting(graph: &mut Graph, dims: &[i64]) -> Tensor {
    let count: i64 = dims.iter().product();
    let values: Vec<f32> = (1..count + 1).map(|value| value as f32).collect();
    tensor(graph, dims, &values)
}

fn close(actual: &[f32], expected: &[f32]) {
    assert_eq!(actual.len(), expected.len());
    for i in 0..actual.len() {
        let bound = 1e-4 * expected[i].abs().max(1.0);
        assert!((actual[i] - expected[i]).abs() <= bound, "{} is not {}", actual[i], expected[i]);
    }
}

#[test]
fn threefry_gives_the_known_answers() {
    let cases: [([u32; 2], [u32; 2], [u32; 2]); 3] = [
        ([0, 0], [0, 0], [0x6b20_0159, 0x99ba_4efe]),
        ([0xffff_ffff, 0xffff_ffff], [0xffff_ffff, 0xffff_ffff], [0x1cb9_96fc, 0xbb00_2be7]),
        ([0x1319_8a2e, 0x0370_7344], [0x243f_6a88, 0x85a3_08d3], [0xc492_3a9c, 0x483d_f7a0]),
    ];
    for (key, counter, expected) in cases {
        let mut g = Graph::new(1);
        let k0 = g.scalar_i32(key[0] as i32).unwrap();
        let k1 = g.scalar_i32(key[1] as i32).unwrap();
        let c0 = g.scalar_i32(counter[0] as i32).unwrap();
        let c1 = g.scalar_i32(counter[1] as i32).unwrap();
        let (a, b) = threefry2x32(&mut g, (&k0, &k1), (&c0, &c1)).unwrap();
        assert_eq!(words(&g, &a), [expected[0]]);
        assert_eq!(words(&g, &b), [expected[1]]);
    }
}

/// The two words of one block, drawn on its own.
fn single_block(key: [u32; 2], counter: u64) -> [u32; 2] {
    let mut g = Graph::new(1);
    let k0 = g.scalar_i32(key[0] as i32).unwrap();
    let k1 = g.scalar_i32(key[1] as i32).unwrap();
    let c0 = g.scalar_i32(counter as u32 as i32).unwrap();
    let c1 = g.scalar_i32((counter >> 32) as u32 as i32).unwrap();
    let (a, b) = threefry2x32(&mut g, (&k0, &k1), (&c0, &c1)).unwrap();
    [words(&g, &a)[0], words(&g, &b)[0]]
}

#[test]
fn draws_take_consecutive_blocks_across_the_low_word() {
    let key = [7u32, 11];
    let start = 0x0000_0005_ffff_fffeu64;
    let mut g = Graph::new(1);
    let k0 = g.scalar_i32(7).unwrap();
    let k1 = g.scalar_i32(11).unwrap();
    let low = g.scalar_i32(-2).unwrap();
    let high = g.scalar_i32(5).unwrap();
    let draw = threefry2x32_blocks(&mut g, (&k0, &k1), (&low, &high), &[2, 2]).unwrap();
    for i in 0..4usize {
        let block = single_block(key, start + i as u64);
        assert_eq!(words(&g, &draw.bits.0)[i], block[0]);
        assert_eq!(words(&g, &draw.bits.1)[i], block[1]);
    }
    assert_eq!(words(&g, &draw.next_counter.0), [2]);
    assert_eq!(words(&g, &draw.next_counter.1), [6]);
    assert_eq!(floats(&g, &draw.counter_wrapped), [0.0]);
}

#[test]
fn a_draw_across_the_period_reports_the_wrap() {
    let mut g = Graph::new(1);
    let zero = g.scalar_i32(0).unwrap();
    let low = g.scalar_i32(-1).unwrap();
    let high = g.scalar_i32(-1).unwrap();
    let draw = threefry2x32_blocks(&mut g, (&zero, &zero), (&low, &high), &[2]).unwrap();
    assert_eq!(words(&g, &draw.bits.0)[1], 0x6b20_0159);
    assert_eq!(words(&g, &draw.next_counter.0), [1]);
    assert_eq!(words(&g, &draw.next_counter.1), [0]);
    assert_eq!(floats(&g, &draw.counter_wrapped), [1.0]);
    let nothing = threefry2x32_blocks(&mut g, (&zero, &zero), (&low, &high), &[0]).unwrap();
    assert_eq!(words(&g, &nothing.next_counter.0), [0xffff_ffff]);
    assert_eq!(words(&g, &nothing.next_counter.1), [0xffff_ffff]);
    assert_eq!(floats(&g, &nothing.counter_wrapped), [0.0]);
}

#[test]
fn random_words_become_uniform_and_normal_values() {
    let mut g = Graph::new(1);
    let low = g.constant_i32(&[3], &[0, 0x100, -1]).unwrap();
    let uniform = uniform_f32_from_bits(&mut g, &low).unwrap();
    let step = 1.0 / 16_777_216.0;
    assert_eq!(floats(&g, &uniform), [0.0, step, 1.0 - step]);
    let radius = g.constant_i32(&[1], &[-1]).unwrap();
    let turn = g.constant_i32(&[1], &[0]).unwrap();
    let normal = normal_f32_from_bits(&mut g, (&radius, &turn)).unwrap();
    let inside = (8_388_607.5f32) / 8_388_608.0;
    close(&floats(&g, &normal), &[(-2.0 * inside.ln()).sqrt()]);
}

#[test]
fn categorical_draws_prefer_the_only_category() {
    let mut g = Graph::new(1);
    let off = f32::NEG_INFINITY;
    let logits = tensor(&mut g, &[3, 3], &[off, 2.0, off, off, off, off, 0.0, f32::NAN, 1.0]);
    let bits = g.constant_i32(&[3, 3], &[1, 2, 3, 4, 5, 6, 7, 8, 9]).unwrap();
    let draw = categorical_from_bits(&mut g, &logits, &bits, 1).unwrap();
    assert_eq!(indices(&g, &draw.indices), [1, 0, 0]);
    assert_eq!(floats(&g, &draw.valid), [1.0, 0.0, 0.0]);
    let row = tensor(&mut g, &[4], &[1.0, 9.0, 3.0, 2.0]);
    let one = g.constant_i32(&[1], &[12345]).unwrap();
    let best = topk_categorical_from_bits(&mut g, &row, &one, 1, 0).unwrap();
    assert_eq!(indices(&g, &best.indices), [1]);
    assert_eq!(floats(&g, &best.valid), [1.0]);
    let four = g.constant_i32(&[4], &[1, 2, 3, 4]).unwrap();
    let nucleus = top_p_categorical_from_bits(&mut g, &row, &four, 0.5f32.to_bits(), 0).unwrap();
    assert_eq!(indices(&g, &nucleus.indices), [1]);
    assert_eq!(floats(&g, &nucleus.valid), [1.0]);
}

#[test]
fn rearrangements_move_elements_as_promised() {
    let mut g = Graph::new(1);
    let x = counting(&mut g, &[5]);
    let rolled = x.roll(&mut g, 2, 0).unwrap();
    assert_eq!(floats(&g, &rolled), [4.0, 5.0, 1.0, 2.0, 3.0]);
    let back = x.roll(&mut g, -6, 0).unwrap();
    assert_eq!(floats(&g, &back), [2.0, 3.0, 4.0, 5.0, 1.0]);
    let m = counting(&mut g, &[2, 3]);
    let flipped = m.flip(&mut g, &[1]).unwrap();
    assert_eq!(floats(&g, &flipped), [3.0, 2.0, 1.0, 6.0, 5.0, 4.0]);
    let twice = flipped.flip(&mut g, &[1]).unwrap();
    assert_eq!(floats(&g, &twice), floats(&g, &m));
    let turned = m.swap_axes(&mut g, 0, 1).unwrap();
    assert_eq!(turned.shape(), [3, 2]);
    assert_eq!(floats(&g, &turned), [1.0, 4.0, 2.0, 5.0, 3.0, 6.0]);
    let cube = counting(&mut g, &[2, 3, 4]);
    let moved = cube.move_axis(&mut g, 0, 2).unwrap();
    assert_eq!(moved.shape(), [3, 4, 2]);
    assert_eq!(floats(&g, &moved)[..4], [1.0, 13.0, 2.0, 14.0]);
    let flat = cube.flatten(&mut g, 1, 2).unwrap();
    assert_eq!(flat.shape(), [2, 12]);
    assert_eq!(floats(&g, &flat), floats(&g, &cube));
    let split = flat.unflatten(&mut g, 1, &[2, 6]).unwrap();
    assert_eq!(split.shape(), [2, 2, 6]);
    assert_eq!(floats(&g, &split), floats(&g, &cube));
}

#[test]
fn repeats_and_pieces_follow_the_axis() {
    let mut g = Graph::new(1);
    let m = counting(&mut g, &[2, 2]);
    let repeated = m.repeat_interleave(&mut g, 3, 1).unwrap();
    assert_eq!(repeated.shape(), [2, 6]);
    assert_eq!(
        floats(&g, &repeated),
        [1.0, 1.0, 1.0, 2.0, 2.0, 2.0, 3.0, 3.0, 3.0, 4.0, 4.0, 4.0]
    );
    assert_eq!(m.repeat_interleave(&mut g, 0, 0).unwrap().shape(), [0, 2]);
    let x = counting(&mut g, &[6]);
    let pieces = x.split(&mut g, 0, &[1, 3, 2]).unwrap();
    assert_eq!(pieces.len(), 3);
    assert_eq!(floats(&g, &pieces[1]), [2.0, 3.0, 4.0]);
    let whole = Tensor::concatenate(&mut g, &pieces, 0).unwrap();
    assert_eq!(floats(&g, &whole), floats(&g, &x));
    assert!(x.split(&mut g, 0, &[1, 3]).is_err());
    let rows = m.unbind(&mut g, 1).unwrap();
    assert_eq!(floats(&g, &rows[0]), [1.0, 3.0]);
    assert_eq!(floats(&g, &rows[1]), [2.0, 4.0]);
    let stacked = Tensor::stack(&mut g, &rows, 1).unwrap();
    assert_eq!(floats(&g, &stacked), floats(&g, &m));
    let unit = m.unsqueeze(&mut g, 1).unwrap();
    assert_eq!(unit.shape(), [2, 1, 2]);
    assert_eq!(unit.squeeze(&mut g, 1).unwrap().shape(), [2, 2]);
    assert!(m.squeeze(&mut g, 0).is_err());
}

#[test]
fn paddings_fill_repeat_or_mirror() {
    let mut g = Graph::new(1);
    let x = counting(&mut g, &[3]);
    let filled = x.pad(&mut g, &[(1, 2)], Scalar::Bits(9.0f32.to_bits())).unwrap();
    assert_eq!(floats(&g, &filled), [9.0, 1.0, 2.0, 3.0, 9.0, 9.0]);
    let edges = x.pad_replicate(&mut g, &[(2, 1)]).unwrap();
    assert_eq!(floats(&g, &edges), [1.0, 1.0, 1.0, 2.0, 3.0, 3.0]);
    let mirrored = x.pad_reflect(&mut g, &[(1, 2)]).unwrap();
    assert_eq!(floats(&g, &mirrored), [2.0, 1.0, 2.0, 3.0, 2.0, 1.0]);
    assert!(x.pad_reflect(&mut g, &[(3, 0)]).is_err());
    let empty = g.constant(&[0], &[]).unwrap();
    assert!(empty.pad_replicate(&mut g, &[(1, 0)]).is_err());
    assert!(x.pad(&mut g, &[(-1, 0)], Scalar::Bits(0)).is_err());
    let m = counting(&mut g, &[2, 2]);
    let corner = m.pad_reflect(&mut g, &[(1, 0), (0, 1)]).unwrap();
    assert_eq!(floats(&g, &corner), [3.0, 4.0, 3.0, 1.0, 2.0, 1.0, 3.0, 4.0, 3.0]);
}

#[test]
fn diagonals_are_taken_and_embedded() {
    let mut g = Graph::new(1);
    let m = counting(&mut g, &[3, 4]);
    let main = m.diagonal(&mut g, 0, 0, 1).unwrap();
    assert_eq!(floats(&g, &main), [1.0, 6.0, 11.0]);
    let above = m.diagonal(&mut g, 2, 0, 1).unwrap();
    assert_eq!(floats(&g, &above), [3.0, 8.0]);
    let below = m.diagonal(&mut g, -1, 0, 1).unwrap();
    assert_eq!(floats(&g, &below), [5.0, 10.0]);
    assert_eq!(m.diagonal(&mut g, 9, 0, 1).unwrap().shape(), [0]);
    let trace = m.trace(&mut g, 0, 0, 1).unwrap();
    assert_eq!(floats(&g, &trace), [18.0]);
    let v = tensor(&mut g, &[2], &[f32::NAN, 5.0]);
    let embedded = v.diag_embed(&mut g, 1).unwrap();
    assert_eq!(embedded.shape(), [3, 3]);
    let values = floats(&g, &embedded);
    assert!(values[1].is_nan());
    assert_eq!(values[5], 5.0);
    assert_eq!([values[0], values[2], values[3], values[4]], [0.0; 4]);
    assert_eq!([values[6], values[7], values[8]], [0.0; 3]);
    let lower = counting(&mut g, &[2]).diag_embed(&mut g, -1).unwrap();
    assert_eq!(floats(&g, &lower), [0.0, 0.0, 0.0, 1.0, 0.0, 0.0, 0.0, 2.0, 0.0]);
    let long = counting(&mut g, &[4]).diag_embed(&mut g, 0).unwrap();
    let again = long.diagonal(&mut g, 0, 0, 1).unwrap();
    assert_eq!(floats(&g, &again), [1.0, 2.0, 3.0, 4.0]);
}

#[test]
fn scans_accumulate_along_the_axis() {
    let mut g = Graph::new(1);
    let x = counting(&mut g, &[7]);
    let sums = x.cumsum(&mut g, 0).unwrap();
    assert_eq!(floats(&g, &sums), [1.0, 3.0, 6.0, 10.0, 15.0, 21.0, 28.0]);
    let products = x.cumprod(&mut g, 0).unwrap();
    assert_eq!(floats(&g, &products), [1.0, 2.0, 6.0, 24.0, 120.0, 720.0, 5040.0]);
    let expected: Vec<f32> = (1..8)
        .map(|n| (1..n + 1).map(|k| (k as f32).exp()).sum::<f32>().ln())
        .collect();
    let tree = x.logcumsumexp_tree(&mut g, 0).unwrap();
    close(&floats(&g, &tree), &expected);
    let doubled = x.logcumsumexp(&mut g, 0).unwrap();
    close(&floats(&g, &doubled), &expected);
    let factor = tensor(&mut g, &[7], &[9.0, 2.0, 0.5, 1.0, -1.0, 3.0, 0.0]);
    let states = x.affine_scan(&mut g, &factor, 0).unwrap();
    close(&floats(&g, &states), &[1.0, 4.0, 5.0, 9.0, -4.0, -6.0, 7.0]);
    let initial = tensor(&mut g, &[], &[2.0]);
    let from = x.affine_scan_from(&mut g, &factor, &initial, 0).unwrap();
    close(&floats(&g, &from), &[19.0, 40.0, 23.0, 27.0, -22.0, -60.0, 7.0]);
    let empty = g.constant(&[0, 2], &[]).unwrap();
    assert_eq!(empty.cumprod(&mut g, 0).unwrap().shape(), [0, 2]);
    assert!(x.cumprod(&mut g, 1).is_err());
    let m = counting(&mut g, &[2, 3]);
    let rows = m.cumprod(&mut g, 0).unwrap();
    assert_eq!(floats(&g, &rows), [1.0, 2.0, 3.0, 4.0, 10.0, 18.0]);
}

#[test]
fn statistics_match_their_formulas() {
    let mut g = Graph::new(1);
    let m = tensor(&mut g, &[2, 3], &[1.0, 2.0, 3.0, 2.0, 4.0, 9.0]);
    let (mean, variance) = m.moments(&mut g, &[1], true, 1).unwrap();
    assert_eq!(mean.shape(), [2, 1]);
    assert_eq!(variance.shape(), [2, 1]);
    close(&floats(&g, &mean), &[2.0, 5.0]);
    close(&floats(&g, &variance), &[1.0, 13.0]);
    let population = m.variance(&mut g, &[1], false, 0).unwrap();
    close(&floats(&g, &population), &[2.0 / 3.0, 26.0 / 3.0]);
    assert!(m.variance(&mut g, &[1], false, 3).is_err());
    let total = m.logsumexp(&mut g, &[0, 1], false).unwrap();
    let sum: f32 = [1.0f32, 2.0, 3.0, 2.0, 4.0, 9.0].iter().map(|x| x.exp()).sum();
    close(&floats(&g, &total), &[sum.ln()]);
    let soft = m.softmax(&mut g, 1).unwrap();
    let row: f32 = 1.0f32.exp() + 2.0f32.exp() + 3.0f32.exp();
    close(&floats(&g, &soft)[..1], &[1.0f32.exp() / row]);
    let log_soft = m.log_softmax(&mut g, 1).unwrap();
    close(&floats(&g, &log_soft)[..1], &[1.0 - row.ln()]);
    let weight = tensor(&mut g, &[3], &[1.0, 2.0, 0.5]);
    let rms = m.rms_norm(&mut g, &weight, 0.0f32.to_bits());
    assert!(rms.is_err());
    let rms = m.rms_norm(&mut g, &weight, 1e-6f32.to_bits()).unwrap();
    let scale = 1.0 / (14.0f32 / 3.0).sqrt();
    close(&floats(&g, &rms)[..3], &[scale, 4.0 * scale, 1.5 * scale]);
    let infinite = tensor(&mut g, &[2], &[f32::INFINITY, f32::NEG_INFINITY]);
    let sum = infinite.logaddexp(&mut g, &infinite).unwrap();
    assert_eq!(floats(&g, &sum), [f32::INFINITY, f32::NEG_INFINITY]);
}

#[test]
fn normalizations_center_and_scale() {
    let mut g = Graph::new(1);
    let tiny = 1e-8f32.to_bits();
    let x = tensor(&mut g, &[2, 2], &[1.0, 3.0, 10.0, 30.0]);
    let layer = x.layer_norm(&mut g, &[2], None, None, tiny).unwrap();
    close(&floats(&g, &layer), &[-1.0, 1.0, -1.0, 1.0]);
    let weight = tensor(&mut g, &[2], &[2.0, 3.0]);
    let bias = tensor(&mut g, &[2], &[5.0, 7.0]);
    let affine = x.layer_norm(&mut g, &[2], Some(&weight), Some(&bias), tiny).unwrap();
    close(&floats(&g, &affine), &[3.0, 10.0, 3.0, 10.0]);
    let grouped = tensor(&mut g, &[1, 4, 1], &[1.0, 3.0, 10.0, 30.0]);
    let group = grouped.group_norm(&mut g, 2, None, None, tiny).unwrap();
    close(&floats(&g, &group), &[-1.0, 1.0, -1.0, 1.0]);
    assert!(grouped.group_norm(&mut g, 3, None, None, tiny).is_err());
    let batch = x.batch_norm_training(&mut g, 1, &weight, &bias, tiny).unwrap();
    close(&floats(&g, &batch.output), &[3.0, 4.0, 7.0, 10.0]);
    close(&floats(&g, &batch.mean), &[5.5, 16.5]);
    close(&floats(&g, &batch.variance), &[20.25, 182.25]);
    let mean = tensor(&mut g, &[2], &[1.0, 10.0]);
    let variance = tensor(&mut g, &[2], &[4.0, 25.0]);
    let fixed = x.batch_norm_inference(&mut g, 1, &mean, &variance, &weight, &bias, tiny).unwrap();
    close(&floats(&g, &fixed), &[5.0, 2.8, 14.0, 19.0]);
}

#[test]
fn losses_match_their_formulas() {
    let mut g = Graph::new(1);
    let x = tensor(&mut g, &[3], &[0.5, 3.0, -2.0]);
    let y = tensor(&mut g, &[3], &[0.0, 0.0, 1.0]);
    let huber = x.huber_loss(&mut g, &y, 1.0f32.to_bits()).unwrap();
    close(&floats(&g, &huber), &[0.125, 2.5, 2.5]);
    assert!(x.huber_loss(&mut g, &y, 0.0f32.to_bits()).is_err());
    let binary = x.binary_cross_entropy_with_logits(&mut g, &y).unwrap();
    let expected: Vec<f32> = [(0.5f32, 0.0f32), (3.0, 0.0), (-2.0, 1.0)]
        .iter()
        .map(|(x, y)| -(y * sigmoid(*x).ln() + (1.0 - y) * (1.0 - sigmoid(*x)).ln()))
        .collect();
    close(&floats(&g, &binary), &expected);
    let logits = tensor(&mut g, &[2, 3], &[1.0, 2.0, 3.0, 0.0, 0.0, 0.0]);
    let classes = g.constant_i32(&[2], &[2, 0]).unwrap();
    let cross = logits.cross_entropy_with_indices(&mut g, &classes, 1).unwrap();
    let row: f32 = 1.0f32.exp() + 2.0f32.exp() + 3.0f32.exp();
    close(&floats(&g, &cross), &[row.ln() - 3.0, 3.0f32.ln()]);
    let probs = tensor(&mut g, &[2, 3], &[0.0, 0.5, 0.5, 1.0, 0.0, 0.0]);
    let soft = logits.cross_entropy_with_probs(&mut g, &probs, 1).unwrap();
    close(&floats(&g, &soft), &[row.ln() - 2.5, 3.0f32.ln()]);
    let zero = tensor(&mut g, &[3], &[0.0; 3]);
    let density = x.normal_log_prob(&mut g, &zero, &zero).unwrap();
    let log_root = (2.0 * std::f32::consts::PI).ln() / 2.0;
    close(&floats(&g, &density), &[-0.125 - log_root, -4.5 - log_root, -2.0 - log_root]);
    let keep = tensor(&mut g, &[3], &[1.0, 0.0, 1.0]);
    let infinite = tensor(&mut g, &[3], &[1.0, f32::INFINITY, 3.0]);
    let dropped = infinite.dropout_with_mask(&mut g, &keep, 0.5f32.to_bits()).unwrap();
    assert_eq!(floats(&g, &dropped), [2.0, 0.0, 6.0]);
}

#[test]
fn contractions_match_written_out_sums() {
    let mut g = Graph::new(1);
    let a = counting(&mut g, &[2, 3]);
    let b = counting(&mut g, &[3, 2]);
    let product = a.matmul(&mut g, &b).unwrap();
    assert_eq!(floats(&g, &product), [22.0, 28.0, 49.0, 64.0]);
    let same = a.einsum(&mut g, "ij,jk->ik", &b).unwrap();
    assert_eq!(floats(&g, &same), [22.0, 28.0, 49.0, 64.0]);
    let turned = a.einsum(&mut g, "ij,jk->ki", &b).unwrap();
    assert_eq!(floats(&g, &turned), [22.0, 49.0, 28.0, 64.0]);
    let square = counting(&mut g, &[2, 2]);
    let traced = square.einsum(&mut g, "ii,jk->kj", &b).unwrap();
    assert_eq!(traced.shape(), [2, 3]);
    assert_eq!(floats(&g, &traced), [5.0, 15.0, 25.0, 10.0, 20.0, 30.0]);
    let outer = counting(&mut g, &[2]).einsum(&mut g, "i,j->ij", &square);
    assert!(outer.is_err());
    let v = counting(&mut g, &[2]);
    let pairs = v.einsum(&mut g, "i , j -> i j", &v).unwrap();
    assert_eq!(floats(&g, &pairs), [1.0, 2.0, 2.0, 4.0]);
    let nothing = g.constant(&[0], &[]).unwrap();
    let zeros = v.einsum(&mut g, "i,k->i", &nothing).unwrap();
    assert_eq!(floats(&g, &zeros), [0.0, 0.0]);
    assert!(a.einsum(&mut g, "ij,jk", &b).is_err());
    assert!(a.einsum(&mut g, "ij,jk->iik", &b).is_err());
    assert!(a.einsum(&mut g, "ij,jk->iz", &b).is_err());
    let batched = counting(&mut g, &[2, 2, 1]);
    let general = batched.dot_general(&mut g, &batched, &[1], &[1], &[0], &[0]).unwrap();
    assert_eq!(general.shape(), [2, 1, 1]);
    assert_eq!(floats(&g, &general), [5.0, 25.0]);
    let dots = a.tensordot(&mut g, &b, &[1], &[0]).unwrap();
    assert_eq!(floats(&g, &dots), [22.0, 28.0, 49.0, 64.0]);
    let weight = counting(&mut g, &[2, 3]);
    let bias = tensor(&mut g, &[2], &[100.0, 200.0]);
    let linear = a.linear(&mut g, &weight, Some(&bias)).unwrap();
    assert_eq!(floats(&g, &linear), [114.0, 232.0, 132.0, 277.0]);
    let row = counting(&mut g, &[3]);
    let vector = row.matmul(&mut g, &b).unwrap();
    assert_eq!(vector.shape(), [2]);
    assert_eq!(floats(&g, &vector), [22.0, 28.0]);
}

#[test]
fn attention_weighs_values_by_scores() {
    let mut g = Graph::new(1);
    let q = tensor(&mut g, &[1, 2, 1], &[0.0, 10.0]);
    let k = tensor(&mut g, &[1, 2, 1], &[1.0, -1.0]);
    let v = tensor(&mut g, &[1, 2, 2], &[1.0, 2.0, 3.0, 6.0]);
    let plain = q.scaled_dot_product_attention(&mut g, &k, &v, None, None).unwrap();
    assert_eq!(plain.shape(), [1, 2, 2]);
    close(&floats(&g, &plain), &[2.0, 4.0, 1.0, 2.0]);
    let mask = g.causal_attention_mask(2, 2, 0).unwrap();
    let causal = floats(&g, &mask);
    assert_eq!(causal, [0.0, f32::NEG_INFINITY, 0.0, 0.0]);
    let masked = q.scaled_dot_product_attention(&mut g, &k, &v, Some(&mask), None).unwrap();
    close(&floats(&g, &masked), &[1.0, 2.0, 1.0, 2.0]);
    let grouped = tensor(&mut g, &[2, 2, 1], &[0.0, 10.0, -10.0, 0.0]);
    let shared = grouped.grouped_query_attention(&mut g, &k, &v, None, None).unwrap();
    assert_eq!(shared.shape(), [2, 2, 2]);
    close(&floats(&g, &shared), &[2.0, 4.0, 1.0, 2.0, 3.0, 6.0, 2.0, 4.0]);
}

#[test]
fn refused_gradients_leave_the_graph_as_it_was() {
    let mut g = Graph::new(1);
    let options = Pool2dOptions {
        window: (2, 2),
        strides: (2, 2),
        padding: ((0, 0), (0, 0)),
    };
    let x = g.input(&[1, 2, 2, 1]).unwrap();
    let pooled = x.max_pool2d(&mut g, options).unwrap();
    let squared = pooled.square(&mut g).unwrap();
    let loss = squared.sum(&mut g, &[0, 1, 2, 3], false).unwrap();
    let count = g.len();
    assert!(loss.grad(&mut g, &[x.clone()]).is_err());
    assert_eq!(g.len(), count);
    assert!(pooled.vjp(&mut g, &[x.clone()], &squared).is_err());
    assert_eq!(g.len(), count);
    let mean = x.avg_pool2d(&mut g, options, true).unwrap();
    let total = mean.sum(&mut g, &[0, 1, 2, 3], false).unwrap();
    let count = g.len();
    assert_eq!(total.grad(&mut g, &[x]).unwrap()[0].shape(), [1, 2, 2, 1]);
    assert!(g.len() > count);
}

#[test]
fn causal_masks_compare_positions() {
    let mut g = Graph::new(1);
    let (open, shut) = (0.0, f32::NEG_INFINITY);
    let later = g.causal_attention_mask(2, 4, 1).unwrap();
    assert_eq!(floats(&g, &later), [open, open, shut, shut, open, open, open, shut]);
    let rows = g.constant_i32(&[2], &[i32::MAX, -1]).unwrap();
    let columns = g.constant_i32(&[3], &[i32::MIN, 0, i32::MAX]).unwrap();
    let extreme = rows.causal_attention_mask(&mut g, &columns).unwrap();
    assert_eq!(extreme.shape(), [2, 3]);
    assert_eq!(floats(&g, &extreme), [open, open, open, open, shut, shut]);
    assert!(g.causal_attention_mask(1, 1, -1).is_err());
}

#[test]
fn einsum_sums_the_labels_of_one_operand() {
    let mut g = Graph::new(1);
    let a = counting(&mut g, &[2, 3]);
    let b = counting(&mut g, &[2, 2]);
    let sums = a.einsum(&mut g, "ij,ik->k", &b).unwrap();
    assert_eq!(floats(&g, &sums), [51.0, 72.0]);
    let diagonal = b.einsum(&mut g, "ii,ij->j", &a).unwrap();
    assert_eq!(floats(&g, &diagonal), [17.0, 22.0, 27.0]);
}

#[test]
fn boxes_overlap_as_areas_do() {
    let mut g = Graph::new(1);
    let centers = tensor(&mut g, &[1, 4], &[2.0, 3.0, 4.0, 2.0]);
    let corners = centers.box_cxcywh_to_xyxy(&mut g).unwrap();
    assert_eq!(floats(&g, &corners), [0.0, 2.0, 4.0, 4.0]);
    let again = corners.box_xyxy_to_cxcywh(&mut g).unwrap();
    assert_eq!(floats(&g, &again), [2.0, 3.0, 4.0, 2.0]);
    let area = corners.box_area(&mut g).unwrap();
    assert_eq!(area.shape(), [1]);
    assert_eq!(floats(&g, &area), [8.0]);
    let a = tensor(&mut g, &[2, 4], &[0.0, 0.0, 2.0, 2.0, 0.0, 0.0, 1.0, 1.0]);
    let b = tensor(&mut g, &[2, 4], &[1.0, 0.0, 3.0, 2.0, 2.0, 2.0, 3.0, 3.0]);
    let iou = a.box_iou(&mut g, &b).unwrap();
    close(&floats(&g, &iou), &[1.0 / 3.0, 0.0]);
    let giou = a.box_giou(&mut g, &b).unwrap();
    close(&floats(&g, &giou), &[1.0 / 3.0, -7.0 / 9.0]);
    let pairs = a.pairwise_box_iou(&mut g, &b).unwrap();
    assert_eq!(pairs.shape(), [2, 2]);
    close(&floats(&g, &pairs), &[1.0 / 3.0, 0.0, 0.0, 0.0]);
    let degenerate = tensor(&mut g, &[1, 4], &[1.0, 1.0, 1.0, 1.0]);
    let none = degenerate.box_iou(&mut g, &degenerate).unwrap();
    assert_eq!(floats(&g, &none), [0.0]);
}

#[test]
fn rotations_turn_channel_pairs() {
    let mut g = Graph::new(1);
    let x = counting(&mut g, &[1, 4]);
    let quarter = std::f32::consts::FRAC_PI_2;
    let angles = tensor(&mut g, &[1, 2], &[quarter, 0.0]);
    let halves = x.rotary_embedding_angles(&mut g, &angles, RotaryLayout::SplitHalf).unwrap();
    close(&floats(&g, &halves), &[-3.0, 2.0, 1.0, 4.0]);
    let pairs = x.rotary_embedding_angles(&mut g, &angles, RotaryLayout::Interleaved).unwrap();
    close(&floats(&g, &pairs), &[-2.0, 1.0, 3.0, 4.0]);
    let odd = counting(&mut g, &[1, 3]);
    assert!(odd.rotary_embedding_angles(&mut g, &angles, RotaryLayout::SplitHalf).is_err());
}

#[test]
fn windows_slide_over_images() {
    let mut g = Graph::new(1);
    let x = counting(&mut g, &[1, 3, 3, 1]);
    let kernel = tensor(&mut g, &[2, 2, 1, 1], &[1.0, 0.0, 0.0, 1.0]);
    let conv = x.conv2d(&mut g, &kernel, Conv2dOptions::default()).unwrap();
    assert_eq!(floats(&g, &conv), [6.0, 8.0, 12.0, 14.0]);
    let native = tensor(&mut g, &[1, 1, 2, 2], &[1.0, 0.0, 0.0, 1.0]);
    let same = x.conv2d_oihw(&mut g, &native, Conv2dOptions::default()).unwrap();
    assert_eq!(floats(&g, &same), [6.0, 8.0, 12.0, 14.0]);
    let options = Pool2dOptions {
        window: (2, 2),
        strides: (2, 2),
        padding: ((1, 0), (1, 0)),
    };
    let largest = x.max_pool2d(&mut g, options).unwrap();
    assert_eq!(floats(&g, &largest), [1.0, 3.0, 7.0, 9.0]);
    let counted = x.avg_pool2d(&mut g, options, true).unwrap();
    close(&floats(&g, &counted), &[0.25, 1.25, 2.75, 7.0]);
    let valid = x.avg_pool2d(&mut g, options, false).unwrap();
    close(&floats(&g, &valid), &[1.0, 2.5, 5.5, 7.0]);
}

#[test]
fn selections_read_what_their_indices_name() {
    let mut g = Graph::new(1);
    let m = tensor(&mut g, &[2, 3], &[3.0, 1.0, 2.0, f32::NAN, 5.0, 5.0]);
    let picks = g.constant_i32(&[2], &[2, -7]).unwrap();
    let taken = m.take(&mut g, &picks, 1).unwrap();
    assert_eq!(taken.shape(), [2, 2]);
    assert_eq!(floats(&g, &taken)[..3], [2.0, 3.0, 5.0]);
    let along = g.constant_i32(&[2, 1], &[9, 1]).unwrap();
    let each = m.take_along_axis(&mut g, &along, 1).unwrap();
    assert_eq!(floats(&g, &each), [2.0, 5.0]);
    let (values, places) = m.topk(&mut g, 2, 1).unwrap();
    assert_eq!(floats(&g, &values), [3.0, 2.0, 5.0, 5.0]);
    assert_eq!(indices(&g, &places), [0, 2, 1, 2]);
    assert!(m.topk(&mut g, 4, 1).is_err());
    let order = m.argsort(&mut g, 1, false).unwrap();
    assert_eq!(indices(&g, &order), [1, 2, 0, 1, 2, 0]);
    let row = tensor(&mut g, &[4], &[1.0, 7.0, 7.0, 0.0]);
    let first = row.argmax(&mut g, 0, true).unwrap();
    assert_eq!(first.shape(), [1]);
    assert_eq!(indices(&g, &first), [1]);
    let base = tensor(&mut g, &[3], &[1.0, 1.0, 1.0]);
    let where_to = g.constant_i32(&[3], &[0, 2, 0]).unwrap();
    let amounts = tensor(&mut g, &[3], &[10.0, 20.0, 30.0]);
    let added = base.index_add(&mut g, 0, &where_to, &amounts).unwrap();
    assert_eq!(floats(&g, &added), [41.0, 1.0, 21.0]);
    let far = g.scalar_i32(5).unwrap();
    let window = row.dynamic_slice(&mut g, &[far.clone()], &[2]).unwrap();
    assert_eq!(floats(&g, &window), [7.0, 0.0]);
    let two = tensor(&mut g, &[2], &[8.0, 9.0]);
    let updated = row.dynamic_update_slice(&mut g, &two, &[far]).unwrap();
    assert_eq!(floats(&g, &updated), [1.0, 7.0, 8.0, 9.0]);
    let strided = row.slice(&mut g, &[0], &[4], &[3]).unwrap();
    assert_eq!(floats(&g, &strided), [1.0, 0.0]);
}

#[test]
fn integer_operations_wrap_and_shift() {
    let mut g = Graph::new(1);
    let x = g.constant_i32(&[2], &[i32::MAX, -8]).unwrap();
    let one = g.constant_i32(&[2], &[1, 3]).unwrap();
    let sum = x.wrapping_add(&mut g, &one).unwrap();
    assert_eq!(indices(&g, &sum), [i32::MIN, -5]);
    let difference = one.wrapping_sub(&mut g, &x).unwrap();
    assert_eq!(indices(&g, &difference), [1i32.wrapping_sub(i32::MAX), 11]);
    let product = x.wrapping_mul(&mut g, &one).unwrap();
    assert_eq!(indices(&g, &product), [i32::MAX, -24]);
    let not = x.bitwise_not(&mut g).unwrap();
    assert_eq!(indices(&g, &not), [i32::MIN, 7]);
    let logical = x.shift_right_logical(&mut g, 1).unwrap();
    assert_eq!(indices(&g, &logical), [0x3fff_ffff, 0x7fff_fffc]);
    let arithmetic = x.shift_right_arithmetic(&mut g, 1).unwrap();
    assert_eq!(indices(&g, &arithmetic), [0x3fff_ffff, -4]);
    let left = x.shift_left(&mut g, 4).unwrap();
    assert_eq!(indices(&g, &left), [-16, -128]);
    assert!(x.shift_left(&mut g, 32).is_err());
    let and = x.bitwise_and(&mut g, &one).unwrap();
    assert_eq!(indices(&g, &and), [1, 0]);
    let or = x.bitwise_or(&mut g, &one).unwrap();
    assert_eq!(indices(&g, &or), [i32::MAX, -5]);
    let less = x.le_mask(&mut g, &one).unwrap();
    assert_eq!(floats(&g, &less), [0.0, 1.0]);
    let real = x.to_f32(&mut g).unwrap();
    assert_eq!(floats(&g, &real), [i32::MAX as f32, -8.0]);
}

#[test]
fn images_are_resized_and_adjusted() {
    let mut g = Graph::new(1);
    let x = counting(&mut g, &[1, 2, 2, 1]);
    let larger = x.upsample_nearest2d(&mut g, (1, 2)).unwrap();
    assert_eq!(larger.shape(), [1, 2, 4, 1]);
    assert_eq!(floats(&g, &larger), [1.0, 1.0, 2.0, 2.0, 3.0, 3.0, 4.0, 4.0]);
    let nearest = x.resize_nearest2d(&mut g, (3, 1)).unwrap();
    assert_eq!(floats(&g, &nearest), [1.0, 1.0, 3.0]);
    let rows = LinearSamples {
        lower: vec![0, 0, 0],
        upper: vec![1, 1, 1],
        weight: vec![0.0f32.to_bits(), 0.5f32.to_bits(), 1.0f32.to_bits()],
    };
    let columns = LinearSamples { lower: vec![0], upper: vec![1], weight: vec![0.5f32.to_bits()] };
    let blended = x.resize_bilinear2d(&mut g, (3, 1), &rows, &columns).unwrap();
    close(&floats(&g, &blended), &[1.5, 2.5, 3.5]);
    let brighter = x.adjust_brightness(&mut g, 0.5f32.to_bits()).unwrap();
    assert_eq!(floats(&g, &brighter), [1.5, 2.5, 3.5, 4.5]);
    let contrast = x.adjust_contrast(&mut g, 2.0f32.to_bits()).unwrap();
    close(&floats(&g, &contrast), &[-0.5, 1.5, 3.5, 5.5]);
    let mirrored = x.flip_left_right(&mut g).unwrap();
    assert_eq!(floats(&g, &mirrored), [2.0, 1.0, 4.0, 3.0]);
    let upside = x.flip_up_down(&mut g).unwrap();
    assert_eq!(floats(&g, &upside), [3.0, 4.0, 1.0, 2.0]);
    let wide = counting(&mut g, &[1, 3, 3, 1]);
    let center = wide.center_crop(&mut g, (1, 1)).unwrap();
    assert_eq!(floats(&g, &center), [5.0]);
    let tall = counting(&mut g, &[1, 4, 1, 1]);
    let upper = tall.center_crop(&mut g, (3, 1)).unwrap();
    assert_eq!(upper.shape(), [1, 3, 1, 1]);
    assert_eq!(floats(&g, &upper), [1.0, 2.0, 3.0]);
    let flat = counting(&mut g, &[1, 1, 6, 1]);
    let middle = flat.resize_with_crop_or_pad(&mut g, (2, 3)).unwrap();
    assert_eq!(floats(&g, &middle), [2.0, 3.0, 4.0, 0.0, 0.0, 0.0]);
    let odd = wide.center_crop(&mut g, (2, 9)).unwrap();
    assert_eq!(floats(&g, &odd), [1.0, 2.0, 3.0, 4.0, 5.0, 6.0]);
    let framed = center.resize_with_crop_or_pad(&mut g, (3, 2)).unwrap();
    assert_eq!(floats(&g, &framed), [0.0, 0.0, 5.0, 0.0, 0.0, 0.0]);
    assert_eq!(framed.shape(), [1, 3, 2, 1]);
    let total: f32 = floats(&g, &framed).iter().sum();
    assert_eq!(total, 5.0);
    let pixel = tensor(&mut g, &[1, 1, 1, 3], &[1.0, 1.0, 1.0]);
    let gray = pixel.rgb_to_grayscale(&mut g, "rec601").unwrap();
    close(&floats(&g, &gray), &[1.0]);
    assert!(pixel.rgb_to_grayscale(&mut g, "unknown").is_err());
    let shades = tensor(&mut g, &[1, 1, 2, 1], &[0.2, 0.9]);
    let solar = shades.solarize(&mut g, 0.5f32.to_bits()).unwrap();
    close(&floats(&g, &solar), &[0.2, 0.1]);
    let one = [2.0f32.to_bits()];
    let two = [4.0f32.to_bits()];
    let normal = x.normalize_nhwc(&mut g, &one, &two).unwrap();
    close(&floats(&g, &normal), &[-0.25, 0.0, 0.25, 0.5]);
}

/// The gradient of a sum, against differences of its values.
fn check_gradient(
    dims: &[i64],
    start: &[f32],
    build: &dyn Fn(&mut Graph, &Tensor) -> Tensor,
) {
    let mut g = Graph::new(1);
    let x = g.input(dims).unwrap();
    let y = build(&mut g, &x);
    let axes: Vec<usize> = (0..y.shape().len()).collect();
    let loss = y.sum(&mut g, &axes, false).unwrap();
    let gradient = loss.grad(&mut g, &[x.clone()]).unwrap();
    let shape: Vec<usize> = dims.iter().map(|size| *size as usize).collect();
    let point = |values: &[f32]| Data {
        dims: shape.clone(),
        bits: values.iter().map(|value| value.to_bits()).collect(),
    };
    let found = run(&g, &gradient[0], &[point(start)]).floats();
    let step = 1.0 / 128.0;
    for i in 0..start.len() {
        let mut above = start.to_vec();
        above[i] += step;
        let mut below = start.to_vec();
        below[i] -= step;
        let high = run(&g, &loss, &[point(&above)]).floats()[0];
        let low = run(&g, &loss, &[point(&below)]).floats()[0];
        let slope = (high - low) / (2.0 * step);
        let bound = 0.02 * slope.abs().max(1.0);
        assert!((found[i] - slope).abs() <= bound, "{} is not {}", found[i], slope);
    }
}

#[test]
fn gradients_follow_the_slopes() {
    let start = [0.3f32, -0.7, 1.1, 0.9, -0.2, 0.5];
    check_gradient(&[2, 3], &start, &|g, x| x.tanh(g).unwrap().mul(g, x).unwrap());
    check_gradient(&[2, 3], &start, &|g, x| {
        let soft = x.softmax(g, 1).unwrap();
        soft.mul(g, &soft).unwrap()
    });
    check_gradient(&[2, 3], &start, &|g, x| {
        let turned = x.swap_axes(g, 0, 1).unwrap();
        x.matmul(g, &turned).unwrap()
    });
    check_gradient(&[2, 3], &start, &|g, x| {
        let padded = x.pad_reflect(g, &[(1, 0), (1, 2)]).unwrap();
        padded.square(g).unwrap()
    });
    check_gradient(&[2, 3], &start, &|g, x| {
        let rolled = x.roll(g, 1, 1).unwrap();
        rolled.mul(g, x).unwrap()
    });
    check_gradient(&[2, 3], &start, &|g, x| x.logcumsumexp(g, 1).unwrap().exp(g).unwrap());
    check_gradient(&[2, 3], &start, &|g, x| x.cumprod(g, 1).unwrap());
    check_gradient(&[2, 3], &start, &|g, x| x.gelu(g).unwrap());
    check_gradient(&[2, 3], &start, &|g, x| x.silu(g).unwrap().sigmoid(g).unwrap());
    check_gradient(&[2, 3], &start, &|g, x| {
        let normal = x.layer_norm(g, &[3], None, None, 1e-3f32.to_bits()).unwrap();
        normal.mul(g, x).unwrap()
    });
    check_gradient(&[2, 3], &start, &|g, x| {
        let picks = g.constant_i32(&[4], &[0, 2, 2, 1]).unwrap();
        let taken = x.take(g, &picks, 1).unwrap();
        taken.square(g).unwrap()
    });
    check_gradient(&[1, 2, 3, 1], &start, &|g, x| {
        let kernel = tensor(g, &[1, 2, 1, 1], &[0.5, -1.5]);
        x.conv2d(g, &kernel, Conv2dOptions::default()).unwrap().square(g).unwrap()
    });
    let strided = Conv2dOptions {
        strides: (2, 2),
        padding: ((1, 0), (0, 1)),
        dilation: (1, 1),
        groups: 1,
    };
    check_gradient(&[1, 2, 3, 1], &start, &|g, x| {
        let kernel = tensor(g, &[2, 1, 1, 2], &[0.5, -1.5, 1.0, 0.25]);
        x.conv2d(g, &kernel, strided).unwrap().square(g).unwrap()
    });
    check_gradient(&[3, 2, 1, 1], &start, &|g, kernel| {
        let image = counting(g, &[1, 4, 4, 1]);
        image.conv2d(g, kernel, strided).unwrap()
    });
    check_gradient(&[1, 1, 3, 2], &start, &|g, kernel| {
        let image = counting(g, &[1, 4, 4, 1]);
        image.conv2d_oihw(g, kernel, strided).unwrap()
    });
    check_gradient(&[2, 3], &start, &|g, x| {
        let axis = x.diagonal(g, 1, 0, 1).unwrap();
        axis.diag_embed(g, -1).unwrap().square(g).unwrap()
    });
    check_gradient(&[2, 3], &start, &|g, x| {
        let other = counting(g, &[3, 2]);
        x.einsum(g, "ij,ji->j", &other).unwrap().square(g).unwrap()
    });
}

#[test]
fn a_surrogate_changes_the_gradient_alone() {
    let mut g = Graph::new(1);
    let x = g.input(&[2]).unwrap();
    let rounded = x.round(&mut g).unwrap();
    let through = rounded.with_gradient_of(&mut g, &x).unwrap();
    let loss = through.sum(&mut g, &[0], false).unwrap();
    let gradient = loss.grad(&mut g, &[x]).unwrap();
    let input = Data { dims: vec![2], bits: vec![0.4f32.to_bits(), 2.6f32.to_bits()] };
    assert_eq!(run(&g, &through, &[input.clone()]).floats(), [0.0, 3.0]);
    assert_eq!(run(&g, &gradient[0], &[input]).floats(), [1.0, 1.0]);
}

#[test]
fn surrogate_inputs_are_pruned() {
    let mut g = Graph::new(1);
    let x = g.input(&[2]).unwrap();
    let other = g.input(&[2]).unwrap();
    let value = x.with_gradient_of(&mut g, &other).unwrap();
    let derived = value.with_elementwise_derivative(&mut g, &other, &other).unwrap();
    let outputs = [derived];
    assert_eq!(g.prepare_many(&outputs, "code").unwrap().input_count(), 2);
    let (pruned, kept) = g.prepare_pruned(&outputs, "code").unwrap();
    assert_eq!(pruned.input_count(), 1);
    assert_eq!(kept, [0]);
    let used = outputs[0].add(&mut g, &other).unwrap();
    assert_eq!(g.prepare_pruned(&[used], "code").unwrap().1, [0, 1]);
}

/// The words of a key and a counter, as scalar inputs.
fn generator(key: [u32; 2], counter: u64) -> Vec<Data> {
    [key[0], key[1], counter as u32, (counter >> 32) as u32]
        .iter()
        .map(|word| Data { dims: vec![], bits: vec![*word] })
        .collect()
}

#[test]
fn sequences_draw_consecutive_blocks_and_commit_the_counter() {
    let mut state = StateGraph::new(1);
    let random = ThreefryState::new(&mut state).unwrap();
    let mut sequence = random.begin(&mut state).unwrap();
    let (first, second) = sequence.blocks(state.tracer(), &[2]).unwrap();
    let uniform = sequence.uniform_f32(state.tracer(), &[3]).unwrap();
    let (keys, _) = sequence.split_keys(state.tracer(), 1).unwrap();
    let sure = sequence.bernoulli(state.tracer(), &[2], 1.0f32.to_bits()).unwrap();
    assert!(sequence.bernoulli(state.tracer(), &[2], 2.0f32.to_bits()).is_err());
    let one = tensor(state.tracer(), &[], &[1.0]);
    let accepted = sequence.commit_if(&mut state, &one).unwrap();
    let slots = random.slots().clone();
    let low = state.read(&slots[2]).unwrap();
    let high = state.read(&slots[3]).unwrap();
    let key = [3u32, 9];
    let start = 0xffff_fffdu64;
    let words = generator(key, start);
    let g = state.dataflow();
    for i in 0..2usize {
        let block = single_block(key, start + i as u64);
        assert_eq!(run(g, &first, &words).bits[i], block[0]);
        assert_eq!(run(g, &second, &words).bits[i], block[1]);
    }
    for i in 0..3usize {
        let block = single_block(key, start + 2 + i as u64);
        let expected = (block[0] >> 8) as f32 / 16_777_216.0;
        assert_eq!(run(g, &uniform, &words).floats()[i], expected);
    }
    assert_eq!(run(g, &keys, &words).bits, [single_block(key, start + 5)[0]]);
    assert_eq!(run(g, &sure, &words).floats(), [1.0, 1.0]);
    assert_eq!(run(g, &accepted, &words).floats(), [1.0]);
    assert_eq!(run(g, &low, &words).bits, [3]);
    assert_eq!(run(g, &high, &words).bits, [1]);
    let ending = generator(key, u64::MAX - 3);
    assert_eq!(run(g, &accepted, &ending).floats(), [0.0]);
    assert_eq!(run(g, &low, &ending).bits, [0xffff_fffc]);
    assert_eq!(run(g, &high, &ending).bits, [0xffff_ffff]);
    let last = generator(key, u64::MAX - 6);
    assert_eq!(run(g, &accepted, &last).floats(), [1.0]);
    assert_eq!(run(g, &low, &last).bits, [0xffff_ffff]);
}

#[test]
fn rejected_conditions_keep_the_counter() {
    let mut state = StateGraph::new(1);
    let random = ThreefryState::new(&mut state).unwrap();
    let mut sequence = random.begin(&mut state).unwrap();
    let stale = random.begin(&mut state).unwrap();
    sequence.normal_f32(state.tracer(), &[4]).unwrap();
    let zero = tensor(state.tracer(), &[], &[0.0]);
    let one = tensor(state.tracer(), &[], &[1.0]);
    let accepted = sequence.commit_if(&mut state, &zero).unwrap();
    assert!(stale.commit_if(&mut state, &one).is_err());
    let slots = random.slots().clone();
    let low = state.read(&slots[2]).unwrap();
    let words = generator([1, 2], 40);
    assert_eq!(run(state.dataflow(), &accepted, &words).floats(), [0.0]);
    assert_eq!(run(state.dataflow(), &low, &words).bits, [40]);
    let first = state.scalar_i32(77).unwrap();
    let second = state.scalar_i32(88).unwrap();
    random.reset_key_if(&mut state, (&first, &second), &one).unwrap();
    let expected = [77u32, 88, 0, 0];
    for k in 0..4usize {
        let value = state.read(&slots[k]).unwrap();
        assert_eq!(run(state.dataflow(), &value, &words).bits, [expected[k]]);
    }
    let initial = random.initial_state((0x8000_0000, 5), 0x1_ffff_ffff);
    assert_eq!(initial[0].1, i32::MIN);
    assert_eq!(initial[2].1, -1);
    assert_eq!(initial[3].1, 1);
}

#[test]
fn dropout_scales_what_it_keeps() {
    let mut state = StateGraph::new(1);
    let random = ThreefryState::new(&mut state).unwrap();
    let mut sequence = random.begin(&mut state).unwrap();
    let x = counting(state.tracer(), &[4]);
    let sample = sequence.dropout(state.tracer(), &x, 0.5f32.to_bits()).unwrap();
    let all = sequence.dropout(state.tracer(), &x, 1.0f32.to_bits()).unwrap();
    let words = generator([4, 4], 0);
    let g = state.dataflow();
    let kept = run(g, &sample.keep_mask, &words).floats();
    let output = run(g, &sample.output, &words).floats();
    for i in 0..4usize {
        let uniform = (single_block([4, 4], i as u64)[0] >> 8) as f32 / 16_777_216.0;
        let keep = if uniform < 0.5 { 1.0 } else { 0.0 };
        assert_eq!(kept[i], keep);
        assert_eq!(output[i], keep * 2.0 * (i as f32 + 1.0));
    }
    assert_eq!(run(g, &all.output, &words).floats(), [1.0, 2.0, 3.0, 4.0]);
    assert_eq!(run(g, &all.keep_mask, &words).floats(), [1.0; 4]);
    assert!(sequence.dropout(state.tracer(), &x, 0.0f32.to_bits()).is_err());
}

#[test]
fn caches_update_within_bounds_alone() {
    let mut state = StateGraph::new(1);
    let mut cache = KvCache::new(&mut state, &[3, 1]).unwrap();
    let k = tensor(state.tracer(), &[2, 1], &[10.0, 11.0]);
    let v = tensor(state.tracer(), &[2, 1], &[20.0, 21.0]);
    let row = state.input_i32_scalar().unwrap();
    let column = state.scalar_i32(0).unwrap();
    let starts = [row, column];
    let update = cache.update_at_checked(&mut state, &k, &v, &starts).unwrap();
    let (keys, values) = cache.read(&state).unwrap();
    assert_ne!(keys.node_id(), update.keys.node_id());
    let held = |numbers: [f32; 3]| Data {
        dims: vec![3, 1],
        bits: numbers.iter().map(|x| x.to_bits()).collect(),
    };
    let at = |start: i32| {
        vec![
            held([1.0, 2.0, 3.0]),
            held([4.0, 5.0, 6.0]),
            Data { dims: vec![], bits: vec![start as u32] },
        ]
    };
    let g = state.dataflow();
    assert_eq!(run(g, &keys, &at(1)).floats(), [1.0, 10.0, 11.0]);
    assert_eq!(run(g, &update.keys, &at(1)).floats(), [1.0, 10.0, 11.0]);
    assert_eq!(run(g, &values, &at(1)).floats(), [4.0, 20.0, 21.0]);
    assert_eq!(run(g, &update.accepted, &at(1)).floats(), [1.0]);
    for outside in [2, -1] {
        assert_eq!(run(g, &keys, &at(outside)).floats(), [1.0, 2.0, 3.0]);
        assert_eq!(run(g, &values, &at(outside)).floats(), [4.0, 5.0, 6.0]);
        assert_eq!(run(g, &update.accepted, &at(outside)).floats(), [0.0]);
    }
}

#[test]
fn running_statistics_move_by_their_rate() {
    let mut state = StateGraph::new(1);
    let running = BatchNormState::new(&mut state, 1).unwrap();
    assert!(BatchNormState::new(&mut state, 0).is_err());
    let x = tensor(state.tracer(), &[2, 1], &[1.0, 5.0]);
    let weight = tensor(state.tracer(), &[1], &[1.0]);
    let bias = tensor(state.tracer(), &[1], &[0.0]);
    let tiny = 1e-6f32.to_bits();
    let batch = x.batch_norm_training(state.tracer(), 1, &weight, &bias, tiny).unwrap();
    running.update(&mut state, &batch, 0.25f32.to_bits()).unwrap();
    let (mean, variance) = running.read(&state).unwrap();
    let one = |value: f32| Data { dims: vec![1], bits: vec![value.to_bits()] };
    let old = [one(11.0), one(8.0)];
    close(&run(state.dataflow(), &mean, &old).floats(), &[9.0]);
    close(&run(state.dataflow(), &variance, &old).floats(), &[7.0]);
    let zero = tensor(state.tracer(), &[], &[0.0]);
    running.update_if(&mut state, &batch, 1.0f32.to_bits(), &zero).unwrap();
    let (mean, _) = running.read(&state).unwrap();
    close(&run(state.dataflow(), &mean, &old).floats(), &[9.0]);
    let proposal = running.prepare(&mut state, &batch, 1.0f32.to_bits()).unwrap();
    let finite = proposal.finite_mask(state.tracer()).unwrap();
    proposal.commit_if(&mut state, &finite).unwrap();
    let (mean, variance) = running.read(&state).unwrap();
    close(&run(state.dataflow(), &mean, &old).floats(), &[3.0]);
    close(&run(state.dataflow(), &variance, &old).floats(), &[4.0]);
    assert!(running.update(&mut state, &batch, 1.5f32.to_bits()).is_err());
    let initial = running.initial_state();
    assert_eq!(initial[0].1, [0.0f32.to_bits()]);
    assert_eq!(initial[1].1, [1.0f32.to_bits()]);
}

#[test]
fn stacks_come_apart_in_order() {
    let mut g = Graph::new(1);
    let a = tensor(&mut g, &[2], &[1.0, 2.0]);
    let b = tensor(&mut g, &[2], &[3.0, 4.0]);
    let c = tensor(&mut g, &[2], &[5.0, 6.0]);
    for axis in 0..2usize {
        let list = [a.clone(), b.clone(), c.clone()];
        let stacked = Tensor::stack(&mut g, &list, axis).unwrap();
        let parts = stacked.unbind(&mut g, axis).unwrap();
        assert_eq!(parts.len(), 3);
        assert_eq!(floats(&g, &parts[0]), [1.0, 2.0]);
        assert_eq!(floats(&g, &parts[1]), [3.0, 4.0]);
        assert_eq!(floats(&g, &parts[2]), [5.0, 6.0]);
    }
    let empty = g.constant(&[0], &[]).unwrap();
    let pair = Tensor::stack(&mut g, &[empty.clone(), empty], 0).unwrap();
    assert_eq!(pair.unbind(&mut g, 0).unwrap().len(), 2);
}

#[test]
fn tree_scans_succeed_where_doubling_scans_do() {
    let mut g = Graph::new(1);
    for length in 0..10i64 {
        let x = g.input(&[2, length]).unwrap();
        assert_eq!(x.logcumsumexp_tree(&mut g, 1).unwrap().shape(), [2, length]);
        assert_eq!(x.logcumsumexp(&mut g, 1).unwrap().shape(), [2, length]);
        assert!(x.logcumsumexp_tree(&mut g, 2).is_err());
        assert!(x.logcumsumexp(&mut g, 2).is_err());
    }
    let words = g.constant_i32(&[2], &[1, 2]).unwrap();
    assert!(words.logcumsumexp_tree(&mut g, 0).is_err());
    assert!(words.logcumsumexp(&mut g, 0).is_err());
    let word = g.constant_i32(&[1], &[1]).unwrap();
    assert_eq!(word.logcumsumexp_tree(&mut g, 0).unwrap().shape(), [1]);
    assert_eq!(word.logcumsumexp(&mut g, 0).unwrap().shape(), [1]);
}

#[test]
fn draws_take_scalar_words_of_one_graph() {
    let mut g = Graph::new(1);
    let word = g.scalar_i32(7).unwrap();
    let pair = (&word, &word);
    let draw = threefry2x32_blocks(&mut g, pair, pair, &[2, 3]).unwrap();
    assert_eq!(draw.bits.0.shape(), [2, 3]);
    assert_eq!(draw.bits.1.shape(), [2, 3]);
    assert_eq!(draw.next_counter.0.shape().len(), 0);
    assert_eq!(draw.counter_wrapped.dtype(), DType::F32);
    assert!(threefry2x32_blocks(&mut g, pair, pair, &[0x8000_0000]).is_err());
    assert!(threefry2x32_blocks(&mut g, pair, pair, &[-1]).is_err());
    let vector = g.constant_i32(&[1], &[7]).unwrap();
    assert!(threefry2x32_blocks(&mut g, (&word, &vector), pair, &[2]).is_err());
    let float = tensor(&mut g, &[], &[7.0]);
    assert!(threefry2x32_blocks(&mut g, (&float, &float), pair, &[2]).is_err());
    assert!(threefry2x32_blocks(&mut g, pair, (&word, &float), &[2]).is_err());
    let mut other = Graph::new(2);
    let stranger = other.scalar_i32(7).unwrap();
    assert!(threefry2x32_blocks(&mut g, pair, (&stranger, &word), &[2]).is_err());
}

#[test]
fn split_keys_are_consecutive_blocks() {
    let mut state = StateGraph::new(1);
    let random = ThreefryState::new(&mut state).unwrap();
    let mut sequence = random.begin(&mut state).unwrap();
    let (none, _) = sequence.split_keys(state.tracer(), 0).unwrap();
    assert_eq!(none.shape(), [0]);
    let (first, second) = sequence.split_keys(state.tracer(), 3).unwrap();
    assert_eq!(first.shape(), [3]);
    assert!(sequence.split_keys(state.tracer(), 0x8000_0000).is_err());
    let (after, _) = sequence.split_keys(state.tracer(), 1).unwrap();
    let key = [5u32, 11];
    let words = generator(key, 40);
    let g = state.dataflow();
    for i in 0..3usize {
        let block = single_block(key, 40 + i as u64);
        assert_eq!(run(g, &first, &words).bits[i], block[0]);
        assert_eq!(run(g, &second, &words).bits[i], block[1]);
    }
    assert_eq!(run(g, &after, &words).bits, [single_block(key, 43)[0]]);
}

#[test]
fn embedded_diagonals_come_back() {
    let mut g = Graph::new(1);
    for offset in [-3i64, -1, 0, 2] {
        let x = counting(&mut g, &[2, 3]);
        let embedded = x.diag_embed(&mut g, offset).unwrap();
        let side = 3 + offset.abs();
        assert_eq!(embedded.shape(), [2, side, side]);
        let again = embedded.diagonal(&mut g, offset, 1, 2).unwrap();
        assert_eq!(again.shape(), [2, 3]);
        assert_eq!(floats(&g, &again), floats(&g, &x));
    }
    let empty = g.constant(&[0], &[]).unwrap();
    let bare = empty.diag_embed(&mut g, 0).unwrap();
    assert_eq!(bare.diagonal(&mut g, 0, 0, 1).unwrap().shape(), [0]);
}

#[test]
fn oihw_kernels_act_as_their_transposes() {
    let mut g = Graph::new(1);
    let x = counting(&mut g, &[1, 4, 4, 2]);
    let options = Conv2dOptions { groups: 2, ..Conv2dOptions::default() };
    let native = counting(&mut g, &[4, 1, 3, 2]);
    let turned = native.transpose(&mut g, &[2, 3, 1, 0]).unwrap();
    let direct = x.conv2d_oihw(&mut g, &native, options).unwrap();
    let indirect = x.conv2d(&mut g, &turned, options).unwrap();
    assert_eq!(direct.shape(), indirect.shape());
    assert_eq!(floats(&g, &direct), floats(&g, &indirect));
    let whole = Conv2dOptions::default();
    assert!(x.conv2d_oihw(&mut g, &native, whole).is_err());
    assert!(x.conv2d(&mut g, &turned, whole).is_err());
}

#[test]
fn box_overlaps_are_symmetric_fractions() {
    let mut g = Graph::new(1);
    let corners = [
        0.0, 0.0, 2.0, 2.0, 1.0, -1.0, 3.0, 1.5, 2.0, 2.0, 1.0, 1.0, 0.0, 0.0, 4.0, 4.0,
    ];
    let a = tensor(&mut g, &[4, 4], &corners);
    let pairs = a.pairwise_box_iou(&mut g, &a).unwrap();
    let values = floats(&g, &pairs);
    let one = tensor(&mut g, &[4], &corners[4..8]);
    let there = a.box_iou(&mut g, &one).unwrap();
    let back = one.box_iou(&mut g, &a).unwrap();
    assert_eq!(there.shape(), [4]);
    assert_eq!(floats(&g, &there), floats(&g, &back));
    for i in 0..4usize {
        for j in 0..4usize {
            assert_eq!(values[4 * i + j], values[4 * j + i]);
            assert!(values[4 * i + j] >= 0.0 && values[4 * i + j] <= 1.0);
        }
        assert_eq!(values[4 * i + i], if i == 2 { 0.0 } else { 1.0 });
        assert_eq!(values[4 * i + 1], floats(&g, &there)[i]);
    }
    let none = g.constant(&[0, 4], &[]).unwrap();
    assert_eq!(none.pairwise_box_iou(&mut g, &a).unwrap().shape(), [0, 4]);
    assert_eq!(a.pairwise_box_iou(&mut g, &none).unwrap().shape(), [4, 0]);
    assert!(one.pairwise_box_iou(&mut g, &a).is_err());
    let words = g.constant_i32(&[1, 4], &[0, 0, 1, 1]).unwrap();
    assert!(words.box_iou(&mut g, &words).is_err());
}

#[test]
fn gradients_follow_mixtures_of_cotangents() {
    let mut g = Graph::new(1);
    let x = g.input(&[2, 2]).unwrap();
    let weight = tensor(&mut g, &[2, 2], &[1.0, -2.0, 0.5, 3.0]);
    let product = x.matmul(&mut g, &weight).unwrap();
    let bent = product.relu(&mut g).unwrap().mul(&mut g, &x).unwrap();
    let y = bent.cumsum(&mut g, 1).unwrap();
    let first = tensor(&mut g, &[2, 2], &[1.0, 2.0, -1.0, 4.0]);
    let second = tensor(&mut g, &[2, 2], &[0.5, -3.0, 2.0, 8.0]);
    let twice = first.mul_scalar(&mut g, Scalar::Bits(2.0f32.to_bits())).unwrap();
    let mixed = twice.sub(&mut g, &second).unwrap();
    let point = [Data {
        dims: vec![2, 2],
        bits: [1.0f32, -1.0, 2.0, 0.25].iter().map(|v| v.to_bits()).collect(),
    }];
    let mut gradients: Vec<Vec<f32>> = Vec::new();
    for cotangent in [&mixed, &first, &second] {
        let gradient = y.vjp(&mut g, &[x.clone()], cotangent).unwrap();
        gradients.push(run(&g, &gradient[0], &point).floats());
    }
    for i in 0..4usize {
        assert_eq!(gradients[0][i], 2.0 * gradients[1][i] - gradients[2][i]);
    }
    assert!(gradients[0].iter().any(|v| *v != 0.0));
}

#[test]
fn refused_compositions_record_nothing() {
    let mut g = Graph::new(1);
    let x = counting(&mut g, &[2, 3]);
    let y = counting(&mut g, &[3, 2]);
    let empty = g.constant(&[0, 2], &[]).unwrap();
    let other = counting(&mut Graph::new(2), &[3, 2]);
    let before = g.len();
    assert!(x.einsum(&mut g, "ij,jk->ik", &other).is_err());
    assert!(x.einsum(&mut g, "ij,jk", &y).is_err());
    assert!(x.einsum(&mut g, "ijk,jk->ik", &y).is_err());
    assert!(x.einsum(&mut g, "ij,ik->jk", &y).is_err());
    assert!(x.einsum(&mut g, "ij,jk->iz", &y).is_err());
    assert!(empty.pad_replicate(&mut g, &[(1, 0), (0, 0)]).is_err());
    assert!(x.pad_replicate(&mut g, &[(1, 0)]).is_err());
    assert!(x.pad_replicate(&mut g, &[(-1, 0), (0, 0)]).is_err());
    assert!(x.pad_replicate(&mut g, &[(i64::MAX, 1), (0, 0)]).is_err());
    assert!(x.pad_reflect(&mut g, &[(2, 0), (0, 0)]).is_err());
    assert!(x.pad_reflect(&mut g, &[(0, 0), (0, 3)]).is_err());
    assert!(x.pad_reflect(&mut g, &[(0, 0), (0, -1)]).is_err());
    assert!(x.matmul(&mut g, &x).is_err());
    assert!(x.dot_general(&mut g, &y, &[1], &[1], &[], &[]).is_err());
    assert!(x.dot_general(&mut g, &y, &[1], &[], &[], &[]).is_err());
    assert!(x.diagonal(&mut g, 0, 1, 1).is_err());
    assert!(x.diag_embed(&mut g, i64::MIN).is_err());
    assert!(x.scaled_dot_product_attention(&mut g, &y, &y, None, None).is_err());
    assert!(x.grouped_query_attention(&mut g, &x, &x, None, None).is_err());
    assert!(x.box_iou(&mut g, &x).is_err());
    assert!(x.box_giou(&mut g, &y).is_err());
    assert!(x.pairwise_box_iou(&mut g, &x).is_err());
    let epsilon = 1e-5f32.to_bits();
    assert!(x.layer_norm(&mut g, &[2], None, None, epsilon).is_err());
    assert!(x.layer_norm(&mut g, &[3], None, None, 0).is_err());
    assert!(x.group_norm(&mut g, 2, None, None, epsilon).is_err());
    assert!(x.group_norm(&mut g, 3, Some(&y), None, epsilon).is_err());
    assert_eq!(g.len(), before);
    let kept = empty.pad_replicate(&mut g, &[(0, 0), (1, 1)]).unwrap();
    assert_eq!(kept.shape(), [0, 4]);
    assert!(x.einsum(&mut g, "ij,jk->ik", &y).is_ok());
    assert!(g.len() > before);
}

#[test]
fn single_operations_record_one_value() {
    let mut g = Graph::new(1);
    let x = counting(&mut g, &[2, 3]);
    for round in 0..3usize {
        let before = g.len();
        let recorded = match round {
            0 => x.exp(&mut g).unwrap(),
            1 => x.add(&mut g, &x).unwrap(),
            _ => x.transpose(&mut g, &[1, 0]).unwrap(),
        };
        assert_eq!(recorded.node_id(), before);
        assert_eq!(g.len(), before + 1);
    }
    let mut trace = Tracer::new(2);
    let first = trace.input(&[2]).unwrap();
    assert_eq!((first.node_id(), trace.dataflow().len()), (0, 1));
    assert!(trace.input(&[-1]).is_err());
    assert_eq!(trace.dataflow().len(), 1);
    let wide = trace.input_bf16_as_f32(&[2]).unwrap();
    assert_eq!((wide.node_id(), trace.dataflow().len()), (2, 3));
    let mut state = StateGraph::new(3);
    let second = state.input(&[2]).unwrap();
    assert_eq!((second.node_id(), state.dataflow().len()), (0, 1));
}

#[test]
fn generalized_overlaps_are_symmetric_and_bounded() {
    let mut g = Graph::new(1);
    let corners = [
        0.0, 0.0, 2.0, 2.0, 1.0, -1.0, 3.0, 1.5, 2.0, 2.0, 1.0, 1.0, 6.0, 0.0, 8.0, 2.0,
    ];
    let a = tensor(&mut g, &[4, 4], &corners);
    for k in 0..4usize {
        let one = tensor(&mut g, &[4], &corners[4 * k..4 * k + 4]);
        let there = a.box_giou(&mut g, &one).unwrap();
        let back = one.box_giou(&mut g, &a).unwrap();
        let plain = a.box_iou(&mut g, &one).unwrap();
        assert_eq!(there.shape(), [4]);
        let (values, bounds) = (floats(&g, &there), floats(&g, &plain));
        assert_eq!(values, floats(&g, &back));
        for i in 0..4usize {
            assert!(-1.0 <= values[i] && values[i] <= bounds[i]);
        }
        assert_eq!(values[k], if k == 2 { 0.0 } else { 1.0 });
    }
    let left = tensor(&mut g, &[4], &corners[0..4]);
    let right = tensor(&mut g, &[4], &corners[12..16]);
    let apart = left.box_giou(&mut g, &right).unwrap();
    assert_eq!(floats(&g, &apart), [-0.5]);
    let words = g.constant_i32(&[1, 4], &[0, 0, 1, 1]).unwrap();
    assert!(words.box_giou(&mut g, &words).is_err());
    assert!(left.box_giou(&mut g, &apart).is_err());
}

#[test]
fn pieces_join_to_what_was_split() {
    let mut g = Graph::new(1);
    let x = counting(&mut g, &[2, 5]);
    for sizes in [vec![5i64], vec![2, 3], vec![0, 1, 0, 4], vec![1, 1, 1, 1, 1]] {
        let pieces = x.split(&mut g, 1, &sizes).unwrap();
        assert_eq!(pieces.len(), sizes.len());
        let whole = Tensor::concatenate(&mut g, &pieces, 1).unwrap();
        assert_eq!(whole.shape(), x.shape());
        assert_eq!(floats(&g, &whole), floats(&g, &x));
    }
    let none = g.constant(&[0, 3], &[]).unwrap();
    let pieces = none.split(&mut g, 1, &[1, 2]).unwrap();
    assert_eq!(Tensor::concatenate(&mut g, &pieces, 1).unwrap().shape(), [0, 3]);
}

#[test]
fn every_axis_can_be_unbound() {
    let mut g = Graph::new(1);
    let x = g.constant(&[3, 0, 2], &[]).unwrap();
    let rows = x.unbind(&mut g, 0).unwrap();
    assert_eq!(rows.len(), 3);
    assert!(rows.iter().all(|row| row.shape() == [0, 2]));
    assert_eq!(x.unbind(&mut g, 1).unwrap().len(), 0);
    assert_eq!(x.unbind(&mut g, 2).unwrap()[1].shape(), [3, 0]);
    assert!(x.unbind(&mut g, 3).is_err());
    let stacked = Tensor::stack(&mut g, &rows, 2).unwrap();
    assert_eq!(stacked.shape(), [0, 2, 3]);
    assert_eq!(stacked.unbind(&mut g, 2).unwrap().len(), 3);
}

#[test]
fn cumulative_scans_hold_sums_of_exponentials() {
    let mut g = Graph::new(1);
    let x = tensor(&mut g, &[5], &[1.0f32.ln(), 2.0f32.ln(), 3.0f32.ln(), 4.0f32.ln(), 5.0f32.ln()]);
    let sums: Vec<f32> = [1.0f32, 3.0, 6.0, 10.0, 15.0].iter().map(|sum| sum.ln()).collect();
    let tree = x.logcumsumexp_tree(&mut g, 0).unwrap();
    let doubled = x.logcumsumexp(&mut g, 0).unwrap();
    close(&floats(&g, &tree), &sums);
    close(&floats(&g, &doubled), &sums);
}
