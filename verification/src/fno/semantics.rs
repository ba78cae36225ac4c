use vstd::prelude::*;

use vstd::arithmetic::power2::lemma_pow2_pos;

use crate::calculations::fft::{is_power_of_two, lemma_grid_join, lemma_grid_split, log2};
use crate::fno::backprop::fft_laws::{
    ceval, lemma_ceval_ops, lemma_fft_2d_constant_origin, lemma_transform_2d_impulse, unit_leaves,
};
use crate::fno::backprop::fft_traced::{transform_2d, CExpr, Transform};
use crate::fno::backprop::graph::{eval, zero_expr, Expr, Leaf, ZERO_BITS};
use crate::fno::layers::{
    dot_expr, fourier_spec, last_mode, linear_spec, mix_expr, mode_seq, point_channels, spectral_cell, spectral_inputs,
    SpectralModel,
};
use crate::fno::values::{mat_shape, model_shaped};
use crate::fno::{add_bias, add_bias_relu, fno_spec, FnoModel};

verus! {

/// Every output of a Fourier layer is the ReLU of its two branches: whatever the
/// weights, the input and the values of the leaves, it is never negative.
pub proof fn lemma_fourier_outputs_nonnegative(res: Seq<Seq<Expr>>, rm: SpectralModel, ch: nat, modes: (usize, usize),
    dims: (usize, usize), xs: Seq<Expr>, leaf: spec_fn(Leaf) -> int, sin: spec_fn(int) -> int)
    ensures
        forall|p: int| 0 <= p < fourier_spec(res, rm, ch, modes, dims, xs).len()
            ==> eval(#[trigger] fourier_spec(res, rm, ch, modes, dims, xs)[p], leaf, sin) >= 0,
{
}

proof fn lemma_dot_nonnegative(xs: Seq<Expr>, ws: Seq<Expr>, k: nat, leaf: spec_fn(Leaf) -> int, sin: spec_fn(int) -> int)
    requires
        leaf(Leaf::Bits(ZERO_BITS)) == 0,
        k <= xs.len(),
        k <= ws.len(),
        forall|i: int| 0 <= i < k ==> eval(#[trigger] xs[i], leaf, sin) >= 0,
        forall|i: int| 0 <= i < k ==> eval(#[trigger] ws[i], leaf, sin) >= 0,
    ensures
        eval(dot_expr(xs, ws, k), leaf, sin) >= 0,
    decreases k,
{
    reveal_with_fuel(eval, 2);
    if k > 0 {
        lemma_dot_nonnegative(xs, ws, (k - 1) as nat, leaf, sin);
        let a = eval(xs[k - 1], leaf, sin);
        let b = eval(ws[k - 1], leaf, sin);
        assert(a * b >= 0) by (nonlinear_arith) requires a >= 0, b >= 0;
    }
}

/// The first projection of the operator passes through ReLU: when the second
/// projection's weights and biases have nonnegative values, every output of the
/// operator is nonnegative, whatever the other weights and the input.
pub proof fn lemma_fno_outputs_nonnegative(m: FnoModel, channels: (usize, usize, usize), modes: (usize, usize),
    dims: (usize, usize), xs: Seq<Expr>, leaf: spec_fn(Leaf) -> int, sin: spec_fn(int) -> int)
    requires
        leaf(Leaf::Bits(ZERO_BITS)) == 0,
        model_shaped(m, channels, modes),
        forall|o: int, i: int| 0 <= o < channels.2 && 0 <= i < channels.1 ==> eval(#[trigger] m.proj_2[o][i], leaf, sin) >= 0,
        forall|o: int| 0 <= o < channels.2 ==> eval(#[trigger] m.proj_b2[o], leaf, sin) >= 0,
    ensures
        forall|p: int| 0 <= p < fno_spec(m, channels, modes, dims, xs).len()
            ==> eval(#[trigger] fno_spec(m, channels, modes, dims, xs)[p], leaf, sin) >= 0,
{
    let out = fno_spec(m, channels, modes, dims, xs);
    let n = (dims.0 * dims.1) as nat;
    let c1 = channels.1 as nat;
    let c2 = channels.2 as nat;
    let hidden = crate::fno::layers_spec(m.layers, c1, modes, dims,
        add_bias(linear_spec(m.lift, channels.0 as nat, c1, n, xs), m.lift_bias, c1));
    let projected = add_bias_relu(linear_spec(m.proj_1, c1, c1, n, hidden), m.proj_b1, c1);
    assert(projected.len() == n * c1);
    assert forall|p: int| 0 <= p < out.len() implies eval(#[trigger] out[p], leaf, sin) >= 0 by {
        assert(out.len() == n * c2);
        assert(c2 > 0) by (nonlinear_arith) requires 0 <= p < n * c2;
        assert(c2 * n == n * c2) by (nonlinear_arith);
        lemma_grid_split(p, c2 as int, n as int);
        let i = p / (c2 as int);
        let o = p % (c2 as int);
        assert(i * c1 + c1 <= n * c1) by (nonlinear_arith) requires i < n;
        assert(0 <= i * c1) by (nonlinear_arith) requires 0 <= i;
        let pc = point_channels(projected, i, c1);
        assert forall|q: int| 0 <= q < c1 implies eval(#[trigger] pc[q], leaf, sin) >= 0 by {
            assert(pc[q] == projected[i * c1 + q]);
        }
        assert forall|q: int| 0 <= q < c1 implies eval(#[trigger] m.proj_2[o][q], leaf, sin) >= 0 by {}
        lemma_dot_nonnegative(pc, m.proj_2[o], c1, leaf, sin);
    }
}

/// A single-channel Fourier layer keeping only the zero mode, on a constant real field
/// of value `c`: the zero mode of the field is `n * c` (its imaginary part is zero),
/// it is scaled by the spectral weight `rho`, and the inverse transform spreads it back
/// evenly, so every output is `ReLU(w * c + rho.re * n * c / n)` with `1 / n` taken as
/// the product of the leaves for the reciprocals of the two grid sides, and `w` the
/// residual weight.
pub proof fn lemma_fourier_constant_field(residual: Seq<Seq<Expr>>, rm: SpectralModel, dims: (usize, usize),
    xs: Seq<Expr>, leaf: spec_fn(Leaf) -> int, sin: spec_fn(int) -> int, c: int, w: int, rho: (int, int))
    requires
        unit_leaves(leaf),
        is_power_of_two(dims.0 as int),
        is_power_of_two(dims.1 as int),
        xs.len() >= dims.0 * dims.1,
        residual.len() >= 1,
        residual[0].len() >= 1,
        rm.len() >= 1,
        rm[0].len() >= 1,
        rm[0][0].len() >= 1,
        rm[0][0][0].len() >= 1,
        eval(residual[0][0], leaf, sin) == w,
        ceval(rm[0][0][0][0], leaf, sin) == rho,
        forall|i: int| 0 <= i < dims.0 * dims.1 ==> eval(#[trigger] xs[i], leaf, sin) == c,
    ensures
        forall|p: int| 0 <= p < dims.0 * dims.1 ==> eval(#[trigger] fourier_spec(residual, rm, 1, (1, 1), dims, xs)[p], leaf, sin)
            == ({
                let v = w * c + rho.0 * (dims.0 * dims.1 * c) * leaf(Leaf::Reciprocal(dims.0)) * leaf(Leaf::Reciprocal(dims.1));
                if v > 0 { v } else { 0 }
            }),
{
    let d0 = dims.0 as int;
    let d1 = dims.1 as int;
    let n = (dims.0 * dims.1) as nat;
    let s0 = leaf(Leaf::Reciprocal(dims.0));
    let s1 = leaf(Leaf::Reciprocal(dims.1));
    lemma_pow2_pos(log2(d0));
    lemma_pow2_pos(log2(d1));
    assert(d0 * d1 > 0) by (nonlinear_arith) requires d0 > 0, d1 > 0;
    // The spectrum of the field at the origin.
    let lifted = Seq::new(n, |i: int| (xs[i * 1 + 0], zero_expr()));
    assert forall|i: int| 0 <= i < lifted.len() implies #[trigger] ceval(lifted[i], leaf, sin) == (c, 0int) by {
        assert(i * 1 + 0 == i);
    }
    lemma_fft_2d_constant_origin(lifted, d0, d1, (c, 0int), leaf, sin);
    let f_in = spectral_inputs(xs, 1, dims);
    assert(f_in[0] == transform_2d(lifted, d0, d1, Transform::Forward));
    let big = d0 * d1 * c;
    assert(ceval(f_in[0][0], leaf, sin) == (big, 0int)) by {
        assert(d0 * d1 * 0 == 0) by (nonlinear_arith);
    }
    // The kept modes: position 0 alone on each axis.
    let ys = mode_seq(1, dims.1);
    let xm = mode_seq(1, dims.0);
    assert(ys =~= seq![(0usize, 0usize)]);
    assert(xm =~= seq![(0usize, 0usize)]);
    let cells = Seq::new(n, |i: int| spectral_cell(rm, f_in, ys, xm, d0, 1, 0, i));
    let zz: CExpr = (zero_expr(), zero_expr());
    assert(cells[0] == mix_expr(rm, f_in, 0, 0, 0, 0, 1)) by {
        assert(0int / d0 == 0 && 0int % d0 == 0);
        assert(ys.last() == (0usize, 0usize));
        assert(last_mode(ys, 0) == Some(0usize));
        assert(last_mode(xm, 0) == Some(0usize));
    }
    reveal_with_fuel(mix_expr, 2);
    lemma_ceval_ops(zz, crate::fno::backprop::fft_traced::c_mul(rm[0][0][0][0], f_in[0][0]), leaf, sin);
    lemma_ceval_ops(rm[0][0][0][0], f_in[0][0], leaf, sin);
    let a = (rho.0 * big, rho.1 * big);
    assert(ceval(cells[0], leaf, sin) == a) by {
        reveal_with_fuel(eval, 2);
        assert(rho.0 * big - rho.1 * 0 == rho.0 * big) by (nonlinear_arith);
        assert(rho.0 * 0 + rho.1 * big == rho.1 * big) by (nonlinear_arith);
    }
    assert forall|i: int| 1 <= i < cells.len() implies #[trigger] ceval(cells[i], leaf, sin) == (0int, 0int) by {
        reveal_with_fuel(last_mode, 2);
        lemma_grid_split(i, d0, d1);
        if i / d0 == 0 && i % d0 == 0 {
            assert(i == d0 * (i / d0) + i % d0) by (nonlinear_arith) requires d0 > 0;
            assert(false) by (nonlinear_arith) requires i == d0 * (i / d0) + i % d0, i / d0 == 0, i % d0 == 0, i >= 1;
        }
        reveal_with_fuel(eval, 2);
    }
    lemma_transform_2d_impulse(cells, d0, d1, Transform::Inverse, a, leaf, sin);
    let out = fourier_spec(residual, rm, 1, (1, 1), dims, xs);
    assert forall|p: int| 0 <= p < dims.0 * dims.1 implies eval(#[trigger] out[p], leaf, sin) == ({
        let v = w * c + rho.0 * (dims.0 * dims.1 * c) * s0 * s1;
        if v > 0 { v } else { 0 }
    }) by {
        assert(p % 1 == 0 && p / 1 == p);
        let res = linear_spec(residual, 1, 1, n, xs);
        assert(point_channels(xs, p, 1)[0] == xs[p]);
        assert(eval(res[p], leaf, sin) == w * c) by {
            reveal_with_fuel(dot_expr, 2);
            reveal_with_fuel(eval, 3);
            assert(c * w == w * c) by (nonlinear_arith);
        }
        let gp = transform_2d(cells, d0, d1, Transform::Inverse)[p];
        assert(eval(gp.0, leaf, sin) == rho.0 * big * s0 * s1);
        reveal_with_fuel(eval, 3);
    }
}

/// A one-channel linear map scales each point by its weight.
proof fn lemma_linear_one_channel(w: Seq<Seq<Expr>>, n: nat, xs: Seq<Expr>, p: int, leaf: spec_fn(Leaf) -> int,
    sin: spec_fn(int) -> int)
    requires
        leaf(Leaf::Bits(ZERO_BITS)) == 0,
        0 <= p < n,
        xs.len() >= n,
    ensures
        eval(linear_spec(w, 1, 1, n, xs)[p], leaf, sin) == eval(w[0][0], leaf, sin) * eval(xs[p], leaf, sin),
{
    assert(p % 1 == 0 && p / 1 == p);
    assert(point_channels(xs, p, 1)[0] == xs[p]);
    reveal_with_fuel(dot_expr, 2);
    reveal_with_fuel(eval, 3);
    let a = eval(xs[p], leaf, sin);
    let b = eval(w[0][0], leaf, sin);
    assert(a * b == b * a) by (nonlinear_arith);
}

/// A one-channel operator with one Fourier layer that keeps only the zero mode, on a
/// constant real field of value `c`: the field is lifted to `h = wl * c + bl`, the
/// layer makes it `g = ReLU(w * h + rho.re * n * h / n)` everywhere (as in
/// `lemma_fourier_constant_field`), the first projection `q = ReLU(w1 * g + b1)`, and
/// every output is `w2 * q + b2`.
pub proof fn lemma_fno_constant_field(m: FnoModel, dims: (usize, usize), xs: Seq<Expr>, leaf: spec_fn(Leaf) -> int,
    sin: spec_fn(int) -> int, c: int, wl: int, bl: int, w: int, rho: (int, int), w1: int, b1: int, w2: int, b2: int)
    requires
        unit_leaves(leaf),
        is_power_of_two(dims.0 as int),
        is_power_of_two(dims.1 as int),
        model_shaped(m, (1, 1, 1), (1, 1)),
        m.layers.len() == 1,
        xs.len() >= dims.0 * dims.1,
        forall|i: int| 0 <= i < dims.0 * dims.1 ==> eval(#[trigger] xs[i], leaf, sin) == c,
        eval(m.lift[0][0], leaf, sin) == wl,
        eval(m.lift_bias[0], leaf, sin) == bl,
        eval(m.layers[0].0[0][0], leaf, sin) == w,
        ceval(m.layers[0].1[0][0][0][0], leaf, sin) == rho,
        eval(m.proj_1[0][0], leaf, sin) == w1,
        eval(m.proj_b1[0], leaf, sin) == b1,
        eval(m.proj_2[0][0], leaf, sin) == w2,
        eval(m.proj_b2[0], leaf, sin) == b2,
    ensures
        forall|p: int| 0 <= p < dims.0 * dims.1 ==> eval(#[trigger] fno_spec(m, (1, 1, 1), (1, 1), dims, xs)[p], leaf, sin)
            == ({
                let h = wl * c + bl;
                let v = w * h + rho.0 * (dims.0 * dims.1 * h) * leaf(Leaf::Reciprocal(dims.0)) * leaf(Leaf::Reciprocal(dims.1));
                let g = if v > 0 { v } else { 0 };
                let u = w1 * g + b1;
                let q = if u > 0 { u } else { 0 };
                w2 * q + b2
            }),
{
    let n = (dims.0 * dims.1) as nat;
    let h = wl * c + bl;
    let lin = linear_spec(m.lift, 1, 1, n, xs);
    let lifted = add_bias(lin, m.lift_bias, 1);
    assert forall|i: int| 0 <= i < n implies eval(#[trigger] lifted[i], leaf, sin) == h by {
        lemma_linear_one_channel(m.lift, n, xs, i, leaf, sin);
        assert(i % 1 == 0);
        reveal_with_fuel(eval, 2);
    }
    let l = m.layers[0];
    assert(m.layers.last() == l);
    assert(m.layers.drop_last().len() == 0);
    let hidden = crate::fno::layers_spec(m.layers, 1, (1, 1), dims, lifted);
    assert(hidden == fourier_spec(l.0, l.1, 1, (1, 1), dims, lifted)) by {
        reveal_with_fuel(crate::fno::layers_spec, 2);
    }
    assert(mat_shape(l.0, 1, 1) && crate::fno::values::rm_shape(l.1, 1, (1, 1)));
    lemma_fourier_constant_field(l.0, l.1, dims, lifted, leaf, sin, h, w, rho);
    let v = w * h + rho.0 * (dims.0 * dims.1 * h) * leaf(Leaf::Reciprocal(dims.0)) * leaf(Leaf::Reciprocal(dims.1));
    let g = if v > 0 { v } else { 0 };
    assert(hidden.len() == n * 1);
    let lin1 = linear_spec(m.proj_1, 1, 1, n, hidden);
    let projected = add_bias_relu(lin1, m.proj_b1, 1);
    let u = w1 * g + b1;
    let q = if u > 0 { u } else { 0 };
    assert forall|i: int| 0 <= i < n implies eval(#[trigger] projected[i], leaf, sin) == q by {
        assert(eval(hidden[i], leaf, sin) == g);
        lemma_linear_one_channel(m.proj_1, n, hidden, i, leaf, sin);
        assert(i % 1 == 0);
        reveal_with_fuel(eval, 3);
    }
    let out = fno_spec(m, (1, 1, 1), (1, 1), dims, xs);
    assert forall|p: int| 0 <= p < n implies eval(#[trigger] out[p], leaf, sin) == w2 * q + b2 by {
        assert(projected.len() == n);
        lemma_linear_one_channel(m.proj_2, n, projected, p, leaf, sin);
        assert(p % 1 == 0);
        reveal_with_fuel(eval, 2);
    }
}

} // verus!
