use fluidsim::fno::backprop::fft_traced::{fft_1d, fft_2d, ifft_1d, ifft_2d, ComplexVariable as Complex};
use fluidsim::fno::backprop::graph::{Context, Leaf, Node, Op, Variable};
use fluidsim::fno::init_segments;
use fluidsim::fno::training::rollout_loss;
use fluidsim::fno::layers::LinearLayer;
use fluidsim::fno::FNO;
use rand::distr::{Distribution, Uniform};
use rand::rngs::StdRng;
use rand::SeedableRng;

/// Values and gradients of the nodes of a graph, evaluated in binary32 arithmetic as
/// the nodes are created.
struct Tape {
    vals: Vec<f32>,
    grads: Vec<f32>,
}

fn leaf_value(leaf: Leaf) -> f32 {
    match leaf {
        Leaf::Bits(b) => f32::from_bits(b),
        Leaf::TwiddleCos(len) => f32::cos(-2.0 * std::f32::consts::PI / len as f32),
        Leaf::TwiddleSin(len) => f32::sin(-2.0 * std::f32::consts::PI / len as f32),
        Leaf::Reciprocal(n) => 1.0 / n as f32,
    }
}

impl Tape {
    fn new() -> Self {
        Tape { vals: Vec::new(), grads: Vec::new() }
    }

    fn sync(&mut self, ctx: &Context) {
        for i in self.vals.len()..ctx.len() {
            let v = match ctx.node(i) {
                Node::Input(leaf) | Node::Const(leaf) => leaf_value(leaf),
                Node::Apply(op) => match op {
                    Op::Add(l, r) => self.vals[l] + self.vals[r],
                    Op::Sub(l, r) => self.vals[l] - self.vals[r],
                    Op::Mul(l, r) => self.vals[l] * self.vals[r],
                    Op::Sin(a) => f32::sin(self.vals[a]),
                    Op::ReLU(a) => {
                        if self.vals[a] > 0.0 {
                            self.vals[a]
                        } else {
                            0.0
                        }
                    }
                },
            };
            self.vals.push(v);
            self.grads.push(0.0);
        }
    }

    fn get_val(&mut self, ctx: &Context, v: Variable) -> f32 {
        self.sync(ctx);
        self.vals[v.id()]
    }

    fn get_grad(&mut self, ctx: &Context, v: Variable) -> f32 {
        self.sync(ctx);
        self.grads[v.id()]
    }

    fn update_val(&mut self, ctx: &Context, v: Variable, x: f32) {
        self.sync(ctx);
        self.vals[v.id()] = x;
    }

    fn zero_grad(&mut self, ctx: &Context) {
        self.sync(ctx);
        for g in self.grads.iter_mut() {
            *g = 0.0;
        }
    }

    fn backward(&mut self, ctx: &Context, v: Variable) {
        self.sync(ctx);
        self.grads[v.id()] = 1.0;
        for node_id in (0..ctx.len()).rev() {
            let grad = self.grads[node_id];
            if let Node::Apply(op) = ctx.node(node_id) {
                match op {
                    Op::Add(l, r) => {
                        self.grads[l] += grad;
                        self.grads[r] += grad;
                    }
                    Op::Sub(l, r) => {
                        self.grads[l] += grad;
                        self.grads[r] -= grad;
                    }
                    Op::Mul(l, r) => {
                        self.grads[l] += grad * self.vals[r];
                        self.grads[r] += grad * self.vals[l];
                    }
                    Op::Sin(a) => {
                        self.grads[a] += f32::cos(self.vals[a]) * grad;
                    }
                    Op::ReLU(a) => {
                        if self.vals[a] > 0.0 {
                            self.grads[a] += grad;
                        }
                    }
                }
            }
        }
    }
}

fn var(ctx: &mut Context, x: f32) -> Variable {
    ctx.variable(x.to_bits())
}

/// The random initial weights, drawn run by run from a generator seeded with `seed`.
fn draw_samples(channels: (usize, usize, usize), modes: (usize, usize), num_layers: usize, seed: u64) -> Vec<u32> {
    let mut rng = StdRng::seed_from_u64(seed);
    let mut out = Vec::new();
    for (len, fan_in) in init_segments(channels, modes, num_layers) {
        let a = (1.0 / fan_in as f32).sqrt() * 0.5;
        let between = Uniform::try_from(-a..a).unwrap();
        for _ in 0..len {
            out.push(between.sample(&mut rng).to_bits());
        }
    }
    out
}

fn new_fno(ctx: &mut Context, channels: (usize, usize, usize), modes: (usize, usize), num_layers: usize, seed: u64) -> FNO {
    let samples = draw_samples(channels, modes, num_layers, seed);
    FNO::new(ctx, channels, modes, num_layers, &samples)
}

#[derive(Debug, Clone, Copy)]
struct FloatComplex {
    re: f32,
    im: f32,
}

impl FloatComplex {
    fn zero() -> Self {
        Self { re: 0.0, im: 0.0 }
    }
    fn new(re: f32, im: f32) -> Self {
        Self { re, im }
    }
}

impl std::ops::Add for FloatComplex {
    type Output = Self;
    fn add(self, rhs: Self) -> Self {
        Self { re: self.re + rhs.re, im: self.im + rhs.im }
    }
}

impl std::ops::Mul for FloatComplex {
    type Output = Self;
    fn mul(self, rhs: Self) -> Self {
        Self {
            re: self.re * rhs.re - self.im * rhs.im,
            im: self.re * rhs.im + self.im * rhs.re,
        }
    }
}

fn slow_dft(input: &[FloatComplex]) -> Vec<FloatComplex> {
    let n = input.len();
    let mut output = vec![FloatComplex::zero(); n];
    for k in 0..n {
        let mut sum = FloatComplex::zero();
        for j in 0..n {
            let angle = -2.0 * std::f32::consts::PI * k as f32 * j as f32 / n as f32;
            let twiddle = FloatComplex::new(angle.cos(), angle.sin());
            sum = sum + input[j] * twiddle;
        }
        output[k] = sum;
    }
    output
}

#[test]
fn test_complex_operators() {
    let mut ctx = Context::default();
    let mut tape = Tape::new();
    let a = Complex { re: var(&mut ctx, 1.0), im: var(&mut ctx, 2.0) };
    let b = Complex { re: var(&mut ctx, 3.0), im: var(&mut ctx, 4.0) };

    let add_res = a.add(b, &mut ctx);
    assert!((tape.get_val(&ctx, add_res.re) - 4.0).abs() < 1e-5);
    assert!((tape.get_val(&ctx, add_res.im) - 6.0).abs() < 1e-5);

    let sub_res = a.sub(b, &mut ctx);
    assert!((tape.get_val(&ctx, sub_res.re) - -2.0).abs() < 1e-5);
    assert!((tape.get_val(&ctx, sub_res.im) - -2.0).abs() < 1e-5);

    let mul_res = a.mul(b, &mut ctx);
    assert!((tape.get_val(&ctx, mul_res.re) - -5.0).abs() < 1e-5);
    assert!((tape.get_val(&ctx, mul_res.im) - 10.0).abs() < 1e-5);
}

#[test]
fn test_fft_vs_dft() {
    let mut ctx = Context::default();
    let mut tape = Tape::new();
    let float_input = vec![
        FloatComplex::new(1.0, 0.0),
        FloatComplex::new(2.0, -1.0),
        FloatComplex::new(0.0, 3.0),
        FloatComplex::new(-1.5, 1.5),
    ];

    let dft_res = slow_dft(&float_input);

    let mut fft_input = float_input
        .iter()
        .map(|fc| Complex { re: var(&mut ctx, fc.re), im: var(&mut ctx, fc.im) })
        .collect::<Vec<_>>();

    fft_1d(&mut ctx, &mut fft_input);

    for i in 0..float_input.len() {
        let val_re = tape.get_val(&ctx, fft_input[i].re);
        let val_im = tape.get_val(&ctx, fft_input[i].im);
        assert!((val_re - dft_res[i].re).abs() < 1e-3, "Mismatch at index {} re", i);
        assert!((val_im - dft_res[i].im).abs() < 1e-3, "Mismatch at index {} im", i);
    }
}

#[test]
fn test_fft_invertibility_1d() {
    let mut ctx = Context::default();
    let mut tape = Tape::new();
    let initial_floats = vec![1.0f32, 2.0, -3.5, 0.0, 0.0, -1.25, 4.0, 3.0];

    let mut data = initial_floats
        .chunks(2)
        .map(|chunk| Complex { re: var(&mut ctx, chunk[0]), im: var(&mut ctx, chunk[1]) })
        .collect::<Vec<_>>();

    let initial = data.clone();

    fft_1d(&mut ctx, &mut data);
    ifft_1d(&mut ctx, &mut data);

    for i in 0..data.len() {
        let initial_re = tape.get_val(&ctx, initial[i].re);
        let initial_im = tape.get_val(&ctx, initial[i].im);
        let reconstructed_re = tape.get_val(&ctx, data[i].re);
        let reconstructed_im = tape.get_val(&ctx, data[i].im);

        assert!((reconstructed_re - initial_re).abs() < 1e-3, "Inversion re failed at {}", i);
        assert!((reconstructed_im - initial_im).abs() < 1e-3, "Inversion im failed at {}", i);
    }
}

#[test]
fn test_fft_invertibility_2d() {
    let mut ctx = Context::default();
    let mut tape = Tape::new();
    let width = 4;
    let height = 4;

    let zero = Complex { re: var(&mut ctx, 0.0), im: var(&mut ctx, 0.0) };
    let mut data = vec![zero; width * height];
    for r in 0..height {
        for c in 0..width {
            let x = c as f32 / width as f32;
            let y = r as f32 / height as f32;
            let re_val = (2.0 * std::f32::consts::PI * (x + 2.0 * y)).sin();
            data[r * width + c] = Complex { re: var(&mut ctx, re_val), im: var(&mut ctx, 0.0) };
        }
    }

    let initial = data.clone();

    fft_2d(&mut ctx, &mut data, width, height);
    ifft_2d(&mut ctx, &mut data, width, height);

    for i in 0..data.len() {
        let initial_re = tape.get_val(&ctx, initial[i].re);
        let initial_im = tape.get_val(&ctx, initial[i].im);
        let reconstructed_re = tape.get_val(&ctx, data[i].re);
        let reconstructed_im = tape.get_val(&ctx, data[i].im);

        assert!((reconstructed_re - initial_re).abs() < 1e-3, "2D inversion re failed at {}", i);
        assert!((reconstructed_im - initial_im).abs() < 1e-3, "2D inversion im failed at {}", i);
    }
}

#[test]
fn test_linear_regression_training() {
    let mut ctx = Context::default();
    let mut tape = Tape::new();

    let x = var(&mut ctx, 2.0);
    let target = var(&mut ctx, 5.0);

    let w = var(&mut ctx, 0.5);
    let b = var(&mut ctx, 0.0);

    let lr = 0.02;

    let mut last_loss = f32::MAX;
    for _ in 0..10 {
        let wx = ctx.mul(w, x);
        let pred = ctx.add(wx, b);

        let diff = ctx.sub(pred, target);
        let loss = ctx.mul(diff, diff);

        let loss_val = tape.get_val(&ctx, loss);
        assert!(loss_val <= last_loss);
        last_loss = loss_val;

        tape.zero_grad(&ctx);
        tape.backward(&ctx, loss);

        let w_val = tape.get_val(&ctx, w);
        let w_grad = tape.get_grad(&ctx, w);
        tape.update_val(&ctx, w, w_val - lr * w_grad);

        let b_val = tape.get_val(&ctx, b);
        let b_grad = tape.get_grad(&ctx, b);
        tape.update_val(&ctx, b, b_val - lr * b_grad);
    }
}

#[test]
fn test_numerical_gradient_checking() {
    let epsilon = 1e-4;

    let eval_loss = |w_val: f32| -> f32 {
        let mut ctx = Context::default();
        let mut tape = Tape::new();
        let x = var(&mut ctx, 1.5);
        let target = var(&mut ctx, 3.0);
        let w = var(&mut ctx, w_val);
        let wx = ctx.mul(w, x);
        let diff = ctx.sub(wx, target);
        let loss = ctx.mul(diff, diff);
        tape.get_val(&ctx, loss)
    };

    let w_init = 0.8;
    let mut ctx = Context::default();
    let mut tape = Tape::new();
    let x = var(&mut ctx, 1.5);
    let target = var(&mut ctx, 3.0);
    let w = var(&mut ctx, w_init);
    let wx = ctx.mul(w, x);
    let diff = ctx.sub(wx, target);
    let loss = ctx.mul(diff, diff);

    tape.backward(&ctx, loss);
    let analytical_grad = tape.get_grad(&ctx, w);

    let loss_plus = eval_loss(w_init + epsilon);
    let loss_minus = eval_loss(w_init - epsilon);
    let numerical_grad = (loss_plus - loss_minus) / (2.0 * epsilon);

    assert!((analytical_grad - numerical_grad).abs() < 5e-3);
}

#[test]
fn test_fno_forward_and_training() {
    let mut ctx = Context::default();
    let mut tape = Tape::new();
    let seed = 42u64;

    let width = 4;
    let height = 4;
    let in_channels = 1;
    let out_channels = 1;
    let layer_channels = 2;
    let modes_x = 2;
    let modes_y = 2;
    let num_layers = 1;

    let fno = new_fno(&mut ctx, (in_channels, layer_channels, out_channels), (modes_x, modes_y), num_layers, seed);

    let input = (0..16).map(|i| var(&mut ctx, i as f32 / 16.0)).collect::<Vec<_>>();

    let target = (0..16).map(|i| var(&mut ctx, (i as f32 / 16.0).sin())).collect::<Vec<_>>();

    let pred = fno.forward(&mut ctx, (width, height), &input);
    assert_eq!(pred.len(), 16);

    let mut total_loss = var(&mut ctx, 0.0);
    for i in 0..16 {
        let diff = ctx.sub(pred[i], target[i]);
        let sq_diff = ctx.mul(diff, diff);
        total_loss = ctx.add(total_loss, sq_diff);
    }

    tape.backward(&ctx, total_loss);

    let lift_has_grad = fno.lift_layer.w.iter().any(|row| row.iter().any(|&v| tape.get_grad(&ctx, v) != 0.0));
    assert!(lift_has_grad, "Lifting gradients should be non-zero");

    let w_has_grad = fno.fourier_layers[0]
        .residual
        .w
        .iter()
        .any(|row| row.iter().any(|&v| tape.get_grad(&ctx, v) != 0.0));
    assert!(w_has_grad, "Fourier spatial gradients should be non-zero");

    let r_has_grad = fno.fourier_layers[0].r.iter().any(|c_out| {
        c_out.iter().any(|c_in| {
            c_in.iter().any(|kx| kx.iter().any(|&(re, im)| tape.get_grad(&ctx, re) != 0.0 || tape.get_grad(&ctx, im) != 0.0))
        })
    });
    assert!(r_has_grad, "Fourier spectral gradients should be non-zero");
}

#[test]
fn test_fno_from_weights_consistency() {
    let mut ctx1 = Context::default();
    let mut ctx2 = Context::default();
    let mut tape1 = Tape::new();
    let mut tape2 = Tape::new();
    let seed = 123u64;

    let width = 4;
    let height = 4;
    let in_channels = 1;
    let out_channels = 1;
    let layer_channels = 2;
    let modes_x = 2;
    let modes_y = 2;
    let num_layers = 2;

    let fno1 = new_fno(&mut ctx1, (in_channels, layer_channels, out_channels), (modes_x, modes_y), num_layers, seed);

    let weights: Vec<f32> = fno1.collect_weights().iter().map(|&v| tape1.get_val(&ctx1, v)).collect();
    let bits: Vec<u32> = weights.iter().map(|w| w.to_bits()).collect();

    let fno2 = FNO::from_weights(&mut ctx2, (in_channels, layer_channels, out_channels), (modes_x, modes_y), num_layers, &bits);

    let weights2: Vec<f32> = fno2.collect_weights().iter().map(|&v| tape2.get_val(&ctx2, v)).collect();

    assert_eq!(weights, weights2, "Weights must be reconstructed identically");

    let input1: Vec<_> = (0..16).map(|i| var(&mut ctx1, i as f32 * 0.1)).collect();
    let input2: Vec<_> = (0..16).map(|i| var(&mut ctx2, i as f32 * 0.1)).collect();

    let pred1 = fno1.forward(&mut ctx1, (width, height), &input1);
    let pred2 = fno2.forward(&mut ctx2, (width, height), &input2);

    for i in 0..16 {
        let val1 = tape1.get_val(&ctx1, pred1[i]);
        let val2 = tape2.get_val(&ctx2, pred2[i]);
        assert!(
            (val1 - val2).abs() < 1e-6,
            "Forward pass output must match between FNO::new and FNO::from_weights"
        );
    }
}

#[test]
fn rollout_loss_is_the_mean_squared_error_of_the_rollout() {
    let channels = (1, 2, 1);
    let modes = (2, 2);
    let dims = (4, 4);
    let n = 16;
    let samples = draw_samples(channels, modes, 1, 7);
    let frames: Vec<Vec<f32>> = (0..3).map(|s| (0..n).map(|i| ((i + 3 * s) as f32 * 0.37).sin()).collect()).collect();
    let frame_bits: Vec<Vec<u32>> = frames.iter().map(|f| f.iter().map(|x| x.to_bits()).collect()).collect();

    let mut ctx = Context::default();
    let mut tape = Tape::new();
    let fno = FNO::new(&mut ctx, channels, modes, 1, &samples);
    let loss = rollout_loss(&mut ctx, &fno, dims, &frame_bits, 2);
    let loss_val = tape.get_val(&ctx, loss);

    // the same rollout, step by step
    let mut ctx2 = Context::default();
    let mut tape2 = Tape::new();
    let fno2 = FNO::new(&mut ctx2, channels, modes, 1, &samples);
    let mut state: Vec<Variable> = frames[0].iter().map(|&x| var(&mut ctx2, x)).collect();
    let mut total = 0.0f32;
    for step in 1..=2 {
        let pred = fno2.forward(&mut ctx2, dims, &state);
        for i in 0..n {
            let d = tape2.get_val(&ctx2, pred[i]) - frames[step][i];
            total += d * d;
        }
        state = pred;
    }
    let expected = total * (1.0 / (2 * n) as f32);
    assert_eq!(loss_val, expected);
    assert!(loss_val > 0.0);
}

#[test]
fn rollout_loss_without_steps_is_zero() {
    let mut ctx = Context::default();
    let mut tape = Tape::new();
    let samples = draw_samples((1, 2, 1), (2, 2), 1, 3);
    let fno = FNO::new(&mut ctx, (1, 2, 1), (2, 2), 1, &samples);
    let frames = vec![vec![1.5f32.to_bits(); 16]];
    let loss = rollout_loss(&mut ctx, &fno, (4, 4), &frames, 0);
    let v = tape.get_val(&ctx, loss);
    // zero times the reciprocal of zero points
    assert!(v.is_nan());
}

#[test]
fn linear_layer_acts_point_by_point() {
    let mut ctx = Context::default();
    let mut tape = Tape::new();
    let weights: Vec<u32> = [0.5f32, -1.0, 2.0, 0.25, 1.5, -0.75].iter().map(|w| w.to_bits()).collect();
    let layer = LinearLayer::from_weights(&mut ctx, (2, 3), &weights);
    // two 2 by 1 fields of 2 channels that agree at point 1 only
    let a: Vec<Variable> = [1.0f32, 2.0, 3.0, 4.0].iter().map(|&x| var(&mut ctx, x)).collect();
    let b: Vec<Variable> = [-7.0f32, 9.0, 3.0, 4.0].iter().map(|&x| var(&mut ctx, x)).collect();
    let out_a = layer.forward(&mut ctx, (2, 1), &a);
    let out_b = layer.forward(&mut ctx, (2, 1), &b);
    assert_eq!(out_a.len(), 6);
    for o in 0..3 {
        assert_eq!(tape.get_val(&ctx, out_a[3 + o]), tape.get_val(&ctx, out_b[3 + o]));
    }
    assert_ne!(tape.get_val(&ctx, out_a[0]), tape.get_val(&ctx, out_b[0]));
    // channel 0 of point 1: 0 + 3 * 0.5 + 4 * -1
    assert_eq!(tape.get_val(&ctx, out_a[3]), 3.0 * 0.5 + 4.0 * -1.0);
}
