use fluidsim::calculations::fft::{bit_reverse_permute, gather, scatter};
use fluidsim::fno::backprop::fft_traced::{fft_1d, ComplexVariable};
use fluidsim::fno::backprop::graph::{Context, Leaf, Node, Op, ONE_BITS, ZERO_BITS};
use fluidsim::fno::layers::{mode_indices, FourierLayer, LinearLayer};
use fluidsim::fno::{init_segments, initial_weights_vec, FNO};
use fluidsim::solver::{beyond_two_thirds, dealias_mask, wavenumber};
use fluidsim::web::{bytes_to_words, paint_side_by_side, paint_single, render_buffer_len, render_width};
use fluidsim::ModelPreset;

#[test]
fn bit_reversal_of_eight_items() {
    let mut v: Vec<u32> = (0..8).collect();
    bit_reverse_permute(&mut v);
    assert_eq!(v, vec![0, 4, 2, 6, 1, 5, 3, 7]);
}

#[test]
fn bit_reversal_twice_restores_the_order() {
    let orig: Vec<u32> = (100..116).collect();
    let mut v = orig.clone();
    bit_reverse_permute(&mut v);
    assert_ne!(v, orig);
    bit_reverse_permute(&mut v);
    assert_eq!(v, orig);
}

#[test]
fn bit_reversal_of_one_item() {
    let mut v = vec![9u32];
    bit_reverse_permute(&mut v);
    assert_eq!(v, vec![9]);
}

#[test]
fn gather_and_scatter_a_column() {
    let grid: Vec<u32> = (0..12).collect();
    let col = gather(&grid, 1, 4, 3);
    assert_eq!(col, vec![1, 5, 9]);
    let mut out = vec![0u32; 12];
    scatter(&mut out, &vec![7, 8, 9], 2, 4);
    assert_eq!(out, vec![0, 0, 7, 0, 0, 0, 8, 0, 0, 0, 9, 0]);
}

#[test]
fn kept_modes_of_an_axis() {
    assert_eq!(mode_indices(2, 4), vec![(0, 0), (1, 1), (3, 1)]);
    assert_eq!(mode_indices(3, 8), vec![(0, 0), (1, 1), (2, 2), (7, 1), (6, 2)]);
    assert_eq!(mode_indices(12, 4), vec![(0, 0), (1, 1), (2, 2), (3, 3), (3, 1), (2, 2), (1, 3)]);
    assert_eq!(mode_indices(0, 4), vec![]);
}

#[test]
fn context_nodes_record_operations() {
    let mut ctx = Context::new();
    let a = ctx.variable(ONE_BITS);
    let b = ctx.variable(ZERO_BITS);
    let s = ctx.add(a, b);
    let d = ctx.sub(s, a);
    let m = ctx.mul(d, b);
    let sn = ctx.sin(m);
    let r = ctx.relu(sn);
    let c = ctx.constant(Leaf::Reciprocal(4));
    assert_eq!(ctx.len(), 8);
    assert_eq!((a.id(), b.id(), s.id(), r.id(), c.id()), (0, 1, 2, 6, 7));
    assert_eq!(ctx.node(0), Node::Input(Leaf::Bits(0x3f80_0000)));
    assert_eq!(ctx.node(2), Node::Apply(Op::Add(0, 1)));
    assert_eq!(ctx.node(3), Node::Apply(Op::Sub(2, 0)));
    assert_eq!(ctx.node(4), Node::Apply(Op::Mul(3, 1)));
    assert_eq!(ctx.node(5), Node::Apply(Op::Sin(4)));
    assert_eq!(ctx.node(6), Node::Apply(Op::ReLU(5)));
    assert_eq!(ctx.node(7), Node::Const(Leaf::Reciprocal(4)));
}

#[test]
fn complex_product_builds_four_products() {
    let mut ctx = Context::default();
    let a = ComplexVariable::new(&mut ctx, 1, 2);
    let b = ComplexVariable::new(&mut ctx, 3, 4);
    let p = a.mul(b, &mut ctx);
    assert_eq!(ctx.len(), 10);
    assert_eq!(ctx.node(4), Node::Apply(Op::Mul(0, 2)));
    assert_eq!(ctx.node(5), Node::Apply(Op::Mul(1, 3)));
    assert_eq!(ctx.node(p.re.id()), Node::Apply(Op::Sub(4, 5)));
    assert_eq!(ctx.node(7), Node::Apply(Op::Mul(0, 3)));
    assert_eq!(ctx.node(8), Node::Apply(Op::Mul(1, 2)));
    assert_eq!(ctx.node(p.im.id()), Node::Apply(Op::Add(7, 8)));
}

#[test]
fn fft_of_two_points_is_one_butterfly() {
    let mut ctx = Context::default();
    let x0 = ComplexVariable::new(&mut ctx, 10, 11);
    let x1 = ComplexVariable::new(&mut ctx, 12, 13);
    let mut data = vec![x0, x1];
    fft_1d(&mut ctx, &mut data);
    assert_eq!(data.len(), 2);
    // the outputs are u + t and u - t for the same twiddled t
    let (sum_l, sum_r) = match ctx.node(data[0].re.id()) {
        Node::Apply(Op::Add(l, r)) => (l, r),
        other => panic!("unexpected node {:?}", other),
    };
    let (diff_l, diff_r) = match ctx.node(data[1].re.id()) {
        Node::Apply(Op::Sub(l, r)) => (l, r),
        other => panic!("unexpected node {:?}", other),
    };
    assert_eq!(sum_l, x0.re.id());
    assert_eq!(diff_l, x0.re.id());
    assert_eq!(sum_r, diff_r);
    // the twiddle step of a length-two stage is named by its constants
    let has_twiddle = (0..ctx.len()).any(|i| ctx.node(i) == Node::Const(Leaf::TwiddleCos(2)));
    assert!(has_twiddle);
}

#[test]
fn linear_layer_weights_round_trip() {
    let mut ctx = Context::default();
    let weights = vec![1u32, 2, 3, 4, 5, 6];
    let layer = LinearLayer::from_weights(&mut ctx, (2, 3), &weights);
    assert_eq!(layer.channels, (2, 3));
    assert_eq!(layer.w.len(), 3);
    assert!(layer.w.iter().all(|row| row.len() == 2));
    let mut vars = Vec::new();
    layer.collect_weights(&mut vars);
    let leaves: Vec<Node> = vars.iter().map(|v| ctx.node(v.id())).collect();
    let expected: Vec<Node> = weights.iter().map(|&b| Node::Input(Leaf::Bits(b))).collect();
    assert_eq!(leaves, expected);
}

#[test]
fn fourier_layer_weights_round_trip() {
    let mut ctx = Context::default();
    // 1 channel, 2 by 1 modes: 1 residual weight and 2 complex spectral weights
    let weights = vec![10u32, 20, 21, 30, 31];
    let layer = FourierLayer::from_weights(&mut ctx, 1, (2, 1), &weights);
    assert_eq!(layer.r.len(), 1);
    assert_eq!(layer.r[0][0].len(), 2);
    let (re, im) = layer.r[0][0][1][0];
    assert_eq!(ctx.node(re.id()), Node::Input(Leaf::Bits(30)));
    assert_eq!(ctx.node(im.id()), Node::Input(Leaf::Bits(31)));
    let mut vars = Vec::new();
    layer.collect_variables(&mut vars);
    let bits: Vec<Node> = vars.iter().map(|v| ctx.node(v.id())).collect();
    let expected: Vec<Node> = weights.iter().map(|&b| Node::Input(Leaf::Bits(b))).collect();
    assert_eq!(bits, expected);
}

#[test]
fn initial_weight_runs() {
    // channels (1, 2, 1), modes (2, 2), one layer: 2*2 + 2*2*2*2*2 = 36 weights per layer
    let segs = init_segments((1, 2, 1), (2, 2), 1);
    assert_eq!(segs, vec![(2, 1), (36, 2), (4, 2), (2, 2)]);
    let segs = init_segments((1, 4, 1), (4, 4), 2);
    assert_eq!(segs, vec![(4, 1), (528, 4), (528, 4), (16, 4), (4, 4)]);
}

#[test]
fn initial_weights_put_zero_biases_in_place() {
    let samples: Vec<u32> = (1..=44).collect();
    let w = initial_weights_vec(&samples, (1, 2, 1), (2, 2), 1);
    assert_eq!(w.len(), 2 + 2 + 36 + 4 + 2 + 2 + 1);
    assert_eq!(&w[0..2], &[1, 2]);
    assert_eq!(&w[2..4], &[0, 0]);
    assert_eq!(&w[4..44], &samples[2..42]);
    assert_eq!(&w[44..46], &[0, 0]);
    assert_eq!(&w[46..48], &[43, 44]);
    assert_eq!(&w[48..49], &[0]);
}

#[test]
fn new_operator_shares_its_zero_biases() {
    let mut ctx = Context::default();
    let samples: Vec<u32> = (1..=44).collect();
    let fno = FNO::new(&mut ctx, (1, 2, 1), (2, 2), 1, &samples);
    assert_eq!(fno.lift_bias.len(), 2);
    assert_eq!(fno.lift_bias[0].id(), fno.lift_bias[1].id());
    assert_eq!(ctx.node(fno.lift_bias[0].id()), Node::Input(Leaf::Bits(0)));
    let vars = fno.collect_weights();
    assert_eq!(vars.len(), 49);
    let bits: Vec<Node> = vars.iter().map(|v| ctx.node(v.id())).collect();
    let w = initial_weights_vec(&samples, (1, 2, 1), (2, 2), 1);
    let expected: Vec<Node> = w.iter().map(|&b| Node::Input(Leaf::Bits(b))).collect();
    assert_eq!(bits, expected);
}

#[test]
fn operator_from_weights_collects_them_back() {
    let mut ctx = Context::default();
    let weights: Vec<u32> = (0..49).map(|i| 1000 + i).collect();
    let fno = FNO::from_weights(&mut ctx, (1, 2, 1), (2, 2), 1, &weights);
    assert_eq!(fno.fourier_layers.len(), 1);
    assert_ne!(fno.lift_bias[0].id(), fno.lift_bias[1].id());
    let vars = fno.collect_weights();
    let bits: Vec<Node> = vars.iter().map(|v| ctx.node(v.id())).collect();
    let expected: Vec<Node> = weights.iter().map(|&b| Node::Input(Leaf::Bits(b))).collect();
    assert_eq!(bits, expected);
}

#[test]
fn wavenumbers_of_an_axis() {
    let ks: Vec<isize> = (0..8).map(|x| wavenumber(x, 8)).collect();
    assert_eq!(ks, vec![0, 1, 2, 3, -4, -3, -2, -1]);
    assert_eq!(wavenumber(0, 1), -1);
    assert_eq!(wavenumber(2, 3), -1);
}

#[test]
fn two_thirds_cut_off() {
    assert!(!beyond_two_thirds(2, 8));
    assert!(beyond_two_thirds(3, 8));
    assert!(beyond_two_thirds(-3, 8));
    assert!(!beyond_two_thirds(-2, 8));
    assert!(!beyond_two_thirds(10, 30));
    assert!(beyond_two_thirds(11, 32));
    assert!(!beyond_two_thirds(10, 32));
    assert!(!dealias_mask(0, 0, 8, 8));
    assert!(dealias_mask(3, 0, 8, 8));
    assert!(dealias_mask(0, 4, 8, 8));
    assert!(!dealias_mask(6, 7, 8, 8));
}

#[test]
fn presets_from_numbers() {
    assert_eq!(ModelPreset::from_index(0), ModelPreset::Untrained);
    assert_eq!(ModelPreset::from_index(1), ModelPreset::Epoch5);
    assert_eq!(ModelPreset::from_index(2), ModelPreset::Epoch25);
    assert_eq!(ModelPreset::from_index(9), ModelPreset::Epoch25);
    assert_eq!(ModelPreset::Custom.index(), 3);
    assert_eq!(ModelPreset::Epoch5.index(), 1);
    assert_eq!(ModelPreset::Untrained.checkpoint_epoch(), 0);
    assert_eq!(ModelPreset::Epoch5.checkpoint_epoch(), 5);
    assert_eq!(ModelPreset::Custom.checkpoint_epoch(), 25);
}

#[test]
fn checkpoint_bytes_to_words() {
    let one = 1.0f32.to_le_bytes();
    let neg = (-2.5f32).to_le_bytes();
    let mut bytes = Vec::new();
    bytes.extend_from_slice(&one);
    bytes.extend_from_slice(&neg);
    bytes.extend_from_slice(&[7, 7]);
    let words = bytes_to_words(&bytes);
    assert_eq!(words, vec![1.0f32.to_bits(), (-2.5f32).to_bits()]);
    assert_eq!(bytes_to_words(&[1, 2, 3, 4]), vec![0x0403_0201]);
    assert_eq!(bytes_to_words(&[1, 2, 3]), Vec::<u32>::new());
}

#[test]
fn render_sizes() {
    assert_eq!(render_width(32, 0), 64);
    assert_eq!(render_width(32, 1), 32);
    assert_eq!(render_width(32, 3), 32);
    assert_eq!(render_buffer_len(32, 16), 32 * 2 * 16 * 4);
}

#[test]
fn single_view_pixels() {
    let mut buffer = vec![9u8; 20];
    paint_single(&mut buffer, &vec![(1, 2, 3), (4, 5, 6)]);
    assert_eq!(buffer[0..8], [1, 2, 3, 255, 4, 5, 6, 255]);
    assert!(buffer[8..].iter().all(|&b| b == 9));
}

#[test]
fn side_by_side_pixels() {
    // 2 by 1 fields: the image is 4 pixels wide and 1 high
    let mut buffer = vec![0u8; 2 * 2 * 1 * 4 + 3];
    let left = vec![(1, 1, 1), (2, 2, 2)];
    let right = vec![(3, 3, 3), (4, 4, 4)];
    paint_side_by_side(&mut buffer, &left, &right, 2, 1);
    assert_eq!(buffer[0..16], [1, 1, 1, 255, 2, 2, 2, 255, 3, 3, 3, 255, 4, 4, 4, 255]);
    assert_eq!(buffer[16..], [0, 0, 0]);
    // two rows: the second row of each field starts after a full image row
    let mut buffer = vec![0u8; 2 * 1 * 2 * 4];
    let left = vec![(1, 0, 0), (2, 0, 0)];
    let right = vec![(3, 0, 0), (4, 0, 0)];
    paint_side_by_side(&mut buffer, &left, &right, 1, 2);
    assert_eq!(buffer, vec![1, 0, 0, 255, 3, 0, 0, 255, 2, 0, 0, 255, 4, 0, 0, 255]);
}

#[test]
fn layers_from_random_draws() {
    let mut ctx = Context::default();
    let linear = LinearLayer::new(&mut ctx, (1, 2), &[5, 6]);
    assert_eq!(linear.w.len(), 2);
    assert_eq!(ctx.node(linear.w[1][0].id()), Node::Input(Leaf::Bits(6)));
    let fourier = FourierLayer::new(&mut ctx, 1, (1, 1), &[7, 8, 9]);
    assert_eq!(ctx.node(fourier.residual.w[0][0].id()), Node::Input(Leaf::Bits(7)));
    let (re, im) = fourier.r[0][0][0][0];
    assert_eq!((ctx.node(re.id()), ctx.node(im.id())), (Node::Input(Leaf::Bits(8)), Node::Input(Leaf::Bits(9))));
}

#[test]
fn equal_weights_get_distinct_new_nodes() {
    let mut ctx = Context::default();
    let _before = ctx.variable(ONE_BITS);
    let weights = vec![0u32; 49];
    let fno = FNO::from_weights(&mut ctx, (1, 2, 1), (2, 2), 1, &weights);
    let vars = fno.collect_weights();
    let ids: Vec<usize> = vars.iter().map(|v| v.id()).collect();
    assert_eq!(ids, (1..50).collect::<Vec<usize>>());
    assert_eq!(ctx.len(), 50);
}

#[test]
fn internal_constants_are_not_inputs() {
    let mut ctx = Context::default();
    let layer = LinearLayer::from_weights(&mut ctx, (1, 1), &[ONE_BITS]);
    let x = ctx.variable(ONE_BITS);
    let out = layer.forward(&mut ctx, (1, 1), &vec![x]);
    // the output reads the weight node itself, not a copy of its value
    let inputs: Vec<usize> = (0..ctx.len()).filter(|&i| matches!(ctx.node(i), Node::Input(_))).collect();
    assert_eq!(inputs, vec![0, 1]);
    match ctx.node(out[0].id()) {
        Node::Apply(Op::Add(_, r)) => assert_eq!(ctx.node(r), Node::Apply(Op::Mul(1, 0))),
        other => panic!("unexpected node {:?}", other),
    }
}
