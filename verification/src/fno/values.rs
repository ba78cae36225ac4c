use vstd::prelude::*;
use vstd::arithmetic::power2::{pow2, lemma_pow2_adds, lemma_pow2_pos, lemma_pow2_strictly_increases};
use vstd::arithmetic::div_mod::{lemma_fundamental_div_mod, lemma_mod_multiples_basic};

use crate::calculations::fft::{
    bit_reverse_index, bit_reversed, is_power_of_two, lemma_grid_join, lemma_grid_split, lemma_rev_bits_bound, log2,
};
use crate::fno::backprop::fft_traced::{
    butterfly_stage, butterfly_stages, c_add, c_conj, c_conj_scale, c_mul, c_sub, col_of, cols_transformed,
    fft_network, ifft_network, row_of, rows_transformed, transform_2d, transform_spec, twiddle, CExpr, Transform,
};
use crate::fno::backprop::graph::{leaves_at, zero_expr, Context, Expr, Leaf, Variable};
use crate::fno::layers::{
    dot_expr, fourier_spec, lemma_last_mode_in, lemma_mode_seq_bounds, linear_spec, mix_expr, mode_seq, point_channels,
    spectral_cell, spectral_inputs, last_mode, SpectralModel, bits_exprs, fresh_leaves,
};
use crate::fno::layers::{
    concat, concat_map, lemma_concat_eq_parts, lemma_concat_len_eq, lemma_concat_map_len_eq, lemma_row2_len,
    lemma_row3_len, pair_fn, row1_fn, row2_fn, row3_fn, FourierLayer, LinearLayer,
};
use crate::fno::{add_bias, add_bias_relu, fno_spec, layer_vars_fn, layers_spec, FnoModel, LayerModel, FNO};

verus! {

/// The expression with the identity of its input nodes forgotten: each input node
/// becomes the constant it holds. Expressions with the same erasure compute the same
/// number.
pub open spec fn erase(e: Expr) -> Expr
    decreases e,
{
    match e {
        Expr::Var(_, leaf) => Expr::Const(leaf),
        Expr::Const(leaf) => Expr::Const(leaf),
        Expr::Add(a, b) => Expr::Add(Box::new(erase(*a)), Box::new(erase(*b))),
        Expr::Sub(a, b) => Expr::Sub(Box::new(erase(*a)), Box::new(erase(*b))),
        Expr::Mul(a, b) => Expr::Mul(Box::new(erase(*a)), Box::new(erase(*b))),
        Expr::Sin(a) => Expr::Sin(Box::new(erase(*a))),
        Expr::Relu(a) => Expr::Relu(Box::new(erase(*a))),
    }
}

pub open spec fn erase_all(s: Seq<Expr>) -> Seq<Expr> {
    Seq::new(s.len(), |i: int| erase(s[i]))
}

pub open spec fn erase_c(c: CExpr) -> CExpr {
    (erase(c.0), erase(c.1))
}

pub open spec fn erase_cs(s: Seq<CExpr>) -> Seq<CExpr> {
    Seq::new(s.len(), |i: int| erase_c(s[i]))
}

proof fn lemma_erase_c_ops(a: CExpr, b: CExpr, s: Expr)
    ensures
        erase_c(c_add(a, b)) == c_add(erase_c(a), erase_c(b)),
        erase_c(c_sub(a, b)) == c_sub(erase_c(a), erase_c(b)),
        erase_c(c_mul(a, b)) == c_mul(erase_c(a), erase_c(b)),
        erase_c(c_conj(a)) == c_conj(erase_c(a)),
        erase_c(c_conj_scale(a, s)) == c_conj_scale(erase_c(a), erase(s)),
{
    reveal_with_fuel(erase, 3);
}

proof fn lemma_erase_twiddle(len: nat, j: nat)
    ensures
        erase_c(twiddle(len, j)) == twiddle(len, j),
    decreases j,
{
    reveal_with_fuel(erase, 2);
    if j > 0 {
        lemma_erase_twiddle(len, (j - 1) as nat);
        lemma_erase_c_ops(twiddle(len, (j - 1) as nat), twiddle(len, 1) , zero_expr());
        assert(erase_c((Expr::Const(Leaf::TwiddleCos(len as usize)), Expr::Const(Leaf::TwiddleSin(len as usize))))
            == (Expr::Const(Leaf::TwiddleCos(len as usize)), Expr::Const(Leaf::TwiddleSin(len as usize))));
    }
}

/// Position `p` lies in a block of `len` items that fits in `total`.
pub proof fn lemma_block_bound(p: int, len: int, total: int)
    requires
        len > 0,
        total % len == 0,
        0 <= p < total,
    ensures
        0 <= p % len < len,
        p - p % len + len <= total,
        p - p % len >= 0,
{
    lemma_fundamental_div_mod(p, len);
    lemma_fundamental_div_mod(total, len);
    vstd::arithmetic::div_mod::lemma_mod_pos_bound(p, len);
    vstd::arithmetic::div_mod::lemma_div_pos_is_pos(p, len);
    let q = p / len;
    let t = total / len;
    assert(q < t) by (nonlinear_arith)
        requires p == len * q + p % len, total == len * t, p < total, 0 <= p % len < len, len > 0;
    assert(len * q + len <= len * t) by (nonlinear_arith)
        requires q < t, len > 0;
}

proof fn lemma_erase_stage(xs: Seq<CExpr>, half: nat)
    requires
        half > 0,
        xs.len() % (2 * half) == 0,
    ensures
        erase_cs(butterfly_stage(xs, half)) == butterfly_stage(erase_cs(xs), half),
{
    let len = 2 * half;
    assert forall|p: int| 0 <= p < xs.len() implies #[trigger] erase_cs(butterfly_stage(xs, half))[p]
        == butterfly_stage(erase_cs(xs), half)[p] by {
        lemma_block_bound(p, len as int, xs.len() as int);
        let j = p % (len as int);
        if j < half {
            lemma_erase_twiddle(len, j as nat);
            lemma_erase_c_ops(twiddle(len, j as nat), xs[p + half], zero_expr());
            lemma_erase_c_ops(xs[p], c_mul(twiddle(len, j as nat), xs[p + half]), zero_expr());
        } else {
            lemma_erase_twiddle(len, (j - half) as nat);
            lemma_erase_c_ops(twiddle(len, (j - half) as nat), xs[p], zero_expr());
            lemma_erase_c_ops(xs[p - half], c_mul(twiddle(len, (j - half) as nat), xs[p]), zero_expr());
        }
    }
    assert(erase_cs(butterfly_stage(xs, half)) =~= butterfly_stage(erase_cs(xs), half));
}

/// A power of two below another one divides it twice over.
pub proof fn lemma_pow2_double_divides(a: nat, b: nat)
    requires
        pow2(a) < pow2(b),
    ensures
        pow2(b) % (2 * pow2(a)) == 0,
{
    if b <= a {
        if b < a {
            lemma_pow2_strictly_increases(b, a);
        }
        assert(false);
    }
    lemma_pow2_adds(a + 1, (b - a - 1) as nat);
    lemma_pow2_adds(a, 1);
    assert(pow2(1) == 2) by { vstd::arithmetic::power2::lemma2_to64(); }
    assert(((a + 1) + (b - a - 1)) as nat == b);
    lemma_pow2_pos(a + 1);
    lemma_mod_multiples_basic(pow2((b - a - 1) as nat) as int, pow2(a + 1) as int);
    assert(pow2((b - a - 1) as nat) * pow2(a + 1) == pow2(a + 1) * pow2((b - a - 1) as nat)) by (nonlinear_arith);
}

proof fn lemma_erase_stages(xs: Seq<CExpr>, half: nat, a: nat, b: nat)
    requires
        pow2(a) == half,
        pow2(b) == xs.len(),
    ensures
        erase_cs(butterfly_stages(xs, half)) == butterfly_stages(erase_cs(xs), half),
    decreases if half < xs.len() { xs.len() - half } else { 0 },
{
    lemma_pow2_pos(a);
    if !(half == 0 || half >= xs.len()) {
        lemma_pow2_double_divides(a, b);
        lemma_erase_stage(xs, half);
        lemma_pow2_adds(a, 1);
        assert(pow2(1) == 2) by { vstd::arithmetic::power2::lemma2_to64(); }
        lemma_erase_stages(butterfly_stage(xs, half), 2 * half, a + 1, b);
    }
}

proof fn lemma_erase_bit_reversed(xs: Seq<CExpr>)
    requires
        is_power_of_two(xs.len() as int),
    ensures
        erase_cs(bit_reversed(xs)) == bit_reversed(erase_cs(xs)),
{
    let n = xs.len() as int;
    let k = log2(n);
    assert(pow2(k) == n);
    assert forall|i: int| 0 <= i < n implies #[trigger] erase_cs(bit_reversed(xs))[i] == bit_reversed(erase_cs(xs))[i] by {
        lemma_rev_bits_bound(i, k);
        assert(bit_reverse_index(i, n) == crate::calculations::fft::rev_bits(i, k));
    }
    assert(erase_cs(bit_reversed(xs)) =~= bit_reversed(erase_cs(xs)));
}

proof fn lemma_erase_fft(xs: Seq<CExpr>)
    requires
        is_power_of_two(xs.len() as int),
    ensures
        erase_cs(fft_network(xs)) == fft_network(erase_cs(xs)),
{
    let b = log2(xs.len() as int);
    lemma_erase_bit_reversed(xs);
    assert(pow2(0) == 1) by { vstd::arithmetic::power2::lemma2_to64(); }
    lemma_erase_stages(bit_reversed(xs), 1, 0, b);
}

proof fn lemma_erase_ifft(xs: Seq<CExpr>)
    requires
        is_power_of_two(xs.len() as int),
    ensures
        erase_cs(ifft_network(xs)) == ifft_network(erase_cs(xs)),
{
    let n = xs.len();
    let conj = Seq::new(n, |i: int| c_conj(xs[i]));
    let econj = Seq::new(n, |i: int| c_conj(erase_cs(xs)[i]));
    assert(erase_cs(conj) =~= econj) by {
        assert forall|i: int| 0 <= i < n implies #[trigger] erase_cs(conj)[i] == econj[i] by {
            lemma_erase_c_ops(xs[i], xs[i], zero_expr());
        }
    }
    lemma_erase_fft(conj);
    let ys = fft_network(conj);
    crate::fno::backprop::fft_traced::lemma_fft_network_len(conj);
    let s = Expr::Const(Leaf::Reciprocal(n as usize));
    assert(erase(s) == s);
    assert forall|i: int| 0 <= i < n implies #[trigger] erase_cs(ifft_network(xs))[i] == ifft_network(erase_cs(xs))[i] by {
        lemma_erase_c_ops(ys[i], ys[i], s);
    }
    assert(erase_cs(ifft_network(xs)) =~= ifft_network(erase_cs(xs)));
}

proof fn lemma_erase_transform(f: Transform, xs: Seq<CExpr>)
    requires
        is_power_of_two(xs.len() as int),
    ensures
        erase_cs(transform_spec(f, xs)) == transform_spec(f, erase_cs(xs)),
        transform_spec(f, xs).len() == xs.len(),
{
    crate::fno::backprop::fft_traced::lemma_transform_len(f, xs);
    match f {
        Transform::Forward => lemma_erase_fft(xs),
        Transform::Inverse => lemma_erase_ifft(xs),
    }
}

/// Erasure commutes with the 2D transform of a power-of-two grid.
pub proof fn lemma_erase_transform_2d(xs: Seq<CExpr>, width: int, height: int, f: Transform)
    requires
        xs.len() == width * height,
        is_power_of_two(width),
        is_power_of_two(height),
    ensures
        erase_cs(transform_2d(xs, width, height, f)) == transform_2d(erase_cs(xs), width, height, f),
        transform_2d(xs, width, height, f).len() == xs.len(),
{
    lemma_pow2_pos(log2(width));
    lemma_pow2_pos(log2(height));
    let rows = rows_transformed(xs, width, f);
    let erows = rows_transformed(erase_cs(xs), width, f);
    assert forall|p: int| 0 <= p < xs.len() implies #[trigger] erase_cs(rows)[p] == erows[p] by {
        lemma_grid_split(p, width, height);
        let r = p / width;
        assert(r * width + width <= width * height) by (nonlinear_arith)
            requires r < height, width > 0;
        assert(0 <= r * width) by (nonlinear_arith) requires r >= 0, width > 0;
        let row = row_of(xs, width, r);
        assert(erase_cs(row) =~= row_of(erase_cs(xs), width, r));
        lemma_erase_transform(f, row);
    }
    assert(erase_cs(rows) =~= erows);
    assert forall|p: int| 0 <= p < xs.len() implies #[trigger] erase_cs(cols_transformed(rows, width, height, f))[p]
        == cols_transformed(erows, width, height, f)[p] by {
        lemma_grid_split(p, width, height);
        let c = p % width;
        let col = col_of(rows, width, height, c);
        assert forall|r: int| 0 <= r < height implies 0 <= #[trigger] (c + r * width) < rows.len() by {
            lemma_grid_join(r, c, width, height);
            assert(r * width + c == c + r * width);
        }
        assert(erase_cs(col) =~= col_of(erows, width, height, c));
        lemma_erase_transform(f, col);
    }
    assert(erase_cs(cols_transformed(rows, width, height, f)) =~= cols_transformed(erows, width, height, f));
}

/// `w` has `rows` rows of `cols` items.
pub open spec fn mat_shape(w: Seq<Seq<Expr>>, rows: nat, cols: nat) -> bool {
    &&& w.len() == rows
    &&& forall|o: int| 0 <= o < rows ==> (#[trigger] w[o]).len() == cols
}

/// `rm` has the shape `[channels][channels][modes.0][modes.1]`.
pub open spec fn rm_shape(rm: SpectralModel, ch: nat, modes: (usize, usize)) -> bool {
    &&& rm.len() == ch
    &&& forall|o: int| 0 <= o < ch ==> (#[trigger] rm[o]).len() == ch
    &&& forall|o: int, c: int| 0 <= o < ch && 0 <= c < ch ==> (#[trigger] rm[o][c]).len() == modes.0
    &&& forall|o: int, c: int, kx: int| 0 <= o < ch && 0 <= c < ch && 0 <= kx < modes.0
        ==> (#[trigger] rm[o][c][kx]).len() == modes.1
}

pub open spec fn erase_mat(w: Seq<Seq<Expr>>) -> Seq<Seq<Expr>> {
    Seq::new(w.len(), |o: int| erase_all(w[o]))
}

pub open spec fn erase_css(f: Seq<Seq<CExpr>>) -> Seq<Seq<CExpr>> {
    Seq::new(f.len(), |c: int| erase_cs(f[c]))
}

pub open spec fn erase_rm(rm: SpectralModel) -> SpectralModel {
    Seq::new(rm.len(), |o: int| Seq::new(rm[o].len(), |c: int| Seq::new(rm[o][c].len(), |kx: int|
        erase_cs(rm[o][c][kx]))))
}

pub open spec fn erase_layers(layers: Seq<LayerModel>) -> Seq<LayerModel> {
    Seq::new(layers.len(), |k: int| (erase_mat(layers[k].0), erase_rm(layers[k].1)))
}

/// The weights with the identity of their nodes forgotten: only their values.
pub open spec fn erase_model(m: FnoModel) -> FnoModel {
    FnoModel {
        lift: erase_mat(m.lift),
        lift_bias: erase_all(m.lift_bias),
        layers: erase_layers(m.layers),
        proj_1: erase_mat(m.proj_1),
        proj_b1: erase_all(m.proj_b1),
        proj_2: erase_mat(m.proj_2),
        proj_b2: erase_all(m.proj_b2),
    }
}

/// The weights have the shapes that the channels and modes give.
pub open spec fn model_shaped(m: FnoModel, channels: (usize, usize, usize), modes: (usize, usize)) -> bool {
    let c0 = channels.0 as nat;
    let c1 = channels.1 as nat;
    let c2 = channels.2 as nat;
    &&& mat_shape(m.lift, c1, c0)
    &&& m.lift_bias.len() == c1
    &&& forall|k: int| 0 <= k < m.layers.len() ==> mat_shape((#[trigger] m.layers[k]).0, c1, c1) && rm_shape(m.layers[k].1, c1, modes)
    &&& mat_shape(m.proj_1, c1, c1)
    &&& m.proj_b1.len() == c1
    &&& mat_shape(m.proj_2, c2, c1)
    &&& m.proj_b2.len() == c2
}

proof fn lemma_erase_dot(xs: Seq<Expr>, ws: Seq<Expr>, k: nat)
    requires
        k <= xs.len(),
        k <= ws.len(),
    ensures
        erase(dot_expr(xs, ws, k)) == dot_expr(erase_all(xs), erase_all(ws), k),
    decreases k,
{
    reveal_with_fuel(erase, 3);
    if k > 0 {
        lemma_erase_dot(xs, ws, (k - 1) as nat);
    }
}

/// Erasure commutes with a pointwise linear map.
pub proof fn lemma_erase_linear(w: Seq<Seq<Expr>>, cin: nat, cout: nat, n: nat, xs: Seq<Expr>)
    requires
        mat_shape(w, cout, cin),
        n * cin <= xs.len(),
    ensures
        erase_all(linear_spec(w, cin, cout, n, xs)) == linear_spec(erase_mat(w), cin, cout, n, erase_all(xs)),
{
    assert forall|p: int| 0 <= p < n * cout implies #[trigger] erase_all(linear_spec(w, cin, cout, n, xs))[p]
        == linear_spec(erase_mat(w), cin, cout, n, erase_all(xs))[p] by {
        assert(cout > 0) by (nonlinear_arith) requires 0 <= p < n * cout;
        assert(cout * n == n * cout) by (nonlinear_arith);
        lemma_grid_split(p, cout as int, n as int);
        let i = p / (cout as int);
        let o = p % (cout as int);
        assert(i * cin + cin <= n * cin) by (nonlinear_arith) requires i < n;
        assert(0 <= i * cin) by (nonlinear_arith) requires 0 <= i;
        let pc = point_channels(xs, i, cin);
        assert(erase_all(pc) =~= point_channels(erase_all(xs), i, cin));
        lemma_erase_dot(pc, w[o], cin);
    }
    assert(erase_all(linear_spec(w, cin, cout, n, xs)) =~= linear_spec(erase_mat(w), cin, cout, n, erase_all(xs)));
}

/// Erasure commutes with adding a bias per channel, with or without ReLU.
pub proof fn lemma_erase_add_bias(xs: Seq<Expr>, b: Seq<Expr>, c: nat)
    requires
        b.len() == c,
        c > 0 || xs.len() == 0,
    ensures
        erase_all(add_bias(xs, b, c)) == add_bias(erase_all(xs), erase_all(b), c),
        erase_all(add_bias_relu(xs, b, c)) == add_bias_relu(erase_all(xs), erase_all(b), c),
{
    reveal_with_fuel(erase, 3);
    assert forall|p: int| 0 <= p < xs.len() implies 0 <= #[trigger] (p % (c as int)) < c by {
        vstd::arithmetic::div_mod::lemma_mod_pos_bound(p, c as int);
    }
    assert(erase_all(add_bias(xs, b, c)) =~= add_bias(erase_all(xs), erase_all(b), c));
    assert(erase_all(add_bias_relu(xs, b, c)) =~= add_bias_relu(erase_all(xs), erase_all(b), c));
}

proof fn lemma_erase_spectral_inputs(xs: Seq<Expr>, ch: nat, dims: (usize, usize))
    requires
        ((dims.0 * dims.1) as nat) * ch <= xs.len(),
        is_power_of_two(dims.0 as int),
        is_power_of_two(dims.1 as int),
    ensures
        erase_css(spectral_inputs(xs, ch, dims)) == spectral_inputs(erase_all(xs), ch, dims),
        forall|c: int| 0 <= c < ch ==> (#[trigger] spectral_inputs(xs, ch, dims)[c]).len() == dims.0 * dims.1,
{
    let n = (dims.0 * dims.1) as nat;
    assert(0 <= dims.0 * dims.1) by (nonlinear_arith);
    assert forall|c: int| 0 <= c < ch implies #[trigger] erase_css(spectral_inputs(xs, ch, dims))[c]
        == spectral_inputs(erase_all(xs), ch, dims)[c]
        && spectral_inputs(xs, ch, dims)[c].len() == dims.0 * dims.1 by {
        let inner = Seq::new(n, |i: int| (xs[i * ch + c], zero_expr()));
        let einner = Seq::new(n, |i: int| (erase_all(xs)[i * ch + c], zero_expr()));
        assert forall|i: int| 0 <= i < n implies #[trigger] erase_cs(inner)[i] == einner[i] by {
            lemma_grid_join(i, c, ch as int, n as int);
            assert(ch * n == n * ch) by (nonlinear_arith);
            assert(i * ch + c == i * (ch as int) + c);
        }
        assert(erase_cs(inner) =~= einner);
        lemma_erase_transform_2d(inner, dims.0 as int, dims.1 as int, Transform::Forward);
    }
    assert(erase_css(spectral_inputs(xs, ch, dims)) =~= spectral_inputs(erase_all(xs), ch, dims));
}

proof fn lemma_erase_mix(rm: SpectralModel, f: Seq<Seq<CExpr>>, o: int, kx: int, ky: int, i: int, k: nat)
    requires
        0 <= o < rm.len(),
        k <= rm[o].len(),
        k <= f.len(),
        forall|c: int| 0 <= c < k ==> 0 <= kx < (#[trigger] rm[o][c]).len() && 0 <= ky < rm[o][c][kx].len()
            && 0 <= i < f[c].len(),
    ensures
        erase_c(mix_expr(rm, f, o, kx, ky, i, k)) == mix_expr(erase_rm(rm), erase_css(f), o, kx, ky, i, k),
    decreases k,
{
    reveal_with_fuel(erase, 2);
    if k > 0 {
        lemma_erase_mix(rm, f, o, kx, ky, i, (k - 1) as nat);
        let c = k - 1;
        assert(0 <= kx < rm[o][c].len() && 0 <= ky < rm[o][c][kx].len() && 0 <= i < f[c].len());
        lemma_erase_c_ops(rm[o][c][kx][ky], f[c][i], zero_expr());
        lemma_erase_c_ops(mix_expr(rm, f, o, kx, ky, i, (k - 1) as nat), c_mul(rm[o][c][kx][ky], f[c][i]), zero_expr());
        assert(erase_rm(rm)[o][c][kx][ky] == erase_c(rm[o][c][kx][ky]));
        assert(erase_css(f)[c][i] == erase_c(f[c][i]));
    }
}

proof fn lemma_erase_cell(rm: SpectralModel, f: Seq<Seq<CExpr>>, ch: nat, modes: (usize, usize), dims: (usize, usize),
    o: int, i: int)
    requires
        rm_shape(rm, ch, modes),
        0 <= o < ch,
        f.len() == ch,
        0 <= i,
        forall|c: int| 0 <= c < ch ==> i < (#[trigger] f[c]).len(),
    ensures
        erase_c(spectral_cell(rm, f, mode_seq(modes.1, dims.1), mode_seq(modes.0, dims.0), dims.0 as int, ch, o, i))
            == spectral_cell(erase_rm(rm), erase_css(f), mode_seq(modes.1, dims.1), mode_seq(modes.0, dims.0),
                dims.0 as int, ch, o, i),
{
    let ys = mode_seq(modes.1, dims.1);
    let xm = mode_seq(modes.0, dims.0);
    let w = dims.0 as int;
    lemma_last_mode_in(ys, i / w);
    lemma_last_mode_in(xm, i % w);
    match (last_mode(ys, i / w), last_mode(xm, i % w)) {
        (Some(ky), Some(kx)) => {
            let a = choose|a: int| 0 <= a < ys.len() && ys[a] == ((i / w) as usize, ky) && ys[a].0 == i / w;
            lemma_mode_seq_bounds(modes.1, dims.1, a);
            let b = choose|b: int| 0 <= b < xm.len() && xm[b] == ((i % w) as usize, kx) && xm[b].0 == i % w;
            lemma_mode_seq_bounds(modes.0, dims.0, b);
            assert forall|c: int| 0 <= c < ch implies 0 <= kx < (#[trigger] rm[o][c]).len() && 0 <= ky < rm[o][c][kx as int].len()
                && 0 <= i < f[c].len() by {}
            lemma_erase_mix(rm, f, o, kx as int, ky as int, i, ch);
        },
        _ => {},
    }
}

/// Erasure commutes with a Fourier layer.
pub proof fn lemma_erase_fourier(res: Seq<Seq<Expr>>, rm: SpectralModel, ch: nat, modes: (usize, usize),
    dims: (usize, usize), xs: Seq<Expr>)
    requires
        mat_shape(res, ch, ch),
        rm_shape(rm, ch, modes),
        ((dims.0 * dims.1) as nat) * ch <= xs.len(),
        is_power_of_two(dims.0 as int),
        is_power_of_two(dims.1 as int),
    ensures
        erase_all(fourier_spec(res, rm, ch, modes, dims, xs))
            == fourier_spec(erase_mat(res), erase_rm(rm), ch, modes, dims, erase_all(xs)),
        fourier_spec(res, rm, ch, modes, dims, xs).len() == ((dims.0 * dims.1) as nat) * ch,
{
    reveal_with_fuel(erase, 3);
    let n = (dims.0 * dims.1) as nat;
    assert(0 <= dims.0 * dims.1) by (nonlinear_arith);
    let ys = mode_seq(modes.1, dims.1);
    let xm = mode_seq(modes.0, dims.0);
    lemma_erase_linear(res, ch, ch, n, xs);
    lemma_erase_spectral_inputs(xs, ch, dims);
    let f_in = spectral_inputs(xs, ch, dims);
    let ef_in = spectral_inputs(erase_all(xs), ch, dims);
    let erm = erase_rm(rm);
    assert(erase_css(f_in).len() == ch);
    let out = fourier_spec(res, rm, ch, modes, dims, xs);
    let eout = fourier_spec(erase_mat(res), erm, ch, modes, dims, erase_all(xs));
    assert forall|p: int| 0 <= p < n * ch implies #[trigger] erase_all(out)[p] == eout[p] by {
        assert(ch > 0) by (nonlinear_arith) requires 0 <= p < n * ch;
        assert(ch * n == n * ch) by (nonlinear_arith);
        lemma_grid_split(p, ch as int, n as int);
        let o = p % (ch as int);
        let i = p / (ch as int);
        let cells = Seq::new(n, |q: int| spectral_cell(rm, f_in, ys, xm, dims.0 as int, ch, o, q));
        let ecells = Seq::new(n, |q: int| spectral_cell(erm, ef_in, ys, xm, dims.0 as int, ch, o, q));
        assert forall|q: int| 0 <= q < n implies #[trigger] erase_cs(cells)[q] == ecells[q] by {
            lemma_erase_cell(rm, f_in, ch, modes, dims, o, q);
        }
        assert(erase_cs(cells) =~= ecells);
        lemma_erase_transform_2d(cells, dims.0 as int, dims.1 as int, Transform::Inverse);
        let g_o = transform_2d(cells, dims.0 as int, dims.1 as int, Transform::Inverse);
        assert(erase_cs(g_o)[i] == erase_c(g_o[i]));
        assert(erase(g_o[i].0) == transform_2d(ecells, dims.0 as int, dims.1 as int, Transform::Inverse)[i].0);
    }
    assert(erase_all(out) =~= eout);
}

/// Erasure commutes with a stack of Fourier layers.
pub proof fn lemma_erase_layers(layers: Seq<LayerModel>, c: nat, modes: (usize, usize), dims: (usize, usize), xs: Seq<Expr>)
    requires
        forall|k: int| 0 <= k < layers.len() ==> mat_shape((#[trigger] layers[k]).0, c, c) && rm_shape(layers[k].1, c, modes),
        layers.len() > 0 ==> is_power_of_two(dims.0 as int) && is_power_of_two(dims.1 as int),
        ((dims.0 * dims.1) as nat) * c <= xs.len(),
    ensures
        erase_all(layers_spec(layers, c, modes, dims, xs)) == layers_spec(erase_layers(layers), c, modes, dims, erase_all(xs)),
        ((dims.0 * dims.1) as nat) * c <= layers_spec(layers, c, modes, dims, xs).len(),
        layers.len() == 0 ==> layers_spec(layers, c, modes, dims, xs) == xs,
    decreases layers.len(),
{
    if layers.len() > 0 {
        let init = layers.drop_last();
        lemma_erase_layers(init, c, modes, dims, xs);
        assert(erase_layers(layers).drop_last() =~= erase_layers(init));
        let l = layers.last();
        assert(mat_shape(layers[layers.len() - 1].0, c, c));
        lemma_erase_fourier(l.0, l.1, c, modes, dims, layers_spec(init, c, modes, dims, xs));
        assert(erase_layers(layers).last() == (erase_mat(l.0), erase_rm(l.1)));
    }
}

/// The values the forward pass computes depend only on the values of the weights
/// and of the inputs, not on which nodes hold them.
pub proof fn lemma_erase_fno(m: FnoModel, channels: (usize, usize, usize), modes: (usize, usize), dims: (usize, usize),
    xs: Seq<Expr>)
    requires
        model_shaped(m, channels, modes),
        m.layers.len() > 0 ==> is_power_of_two(dims.0 as int) && is_power_of_two(dims.1 as int),
        ((dims.0 * dims.1) as nat) * (channels.0 as nat) <= xs.len(),
    ensures
        erase_all(fno_spec(m, channels, modes, dims, xs)) == fno_spec(erase_model(m), channels, modes, dims, erase_all(xs)),
{
    let n = (dims.0 * dims.1) as nat;
    let c0 = channels.0 as nat;
    let c1 = channels.1 as nat;
    let c2 = channels.2 as nat;
    let em = erase_model(m);
    lemma_erase_linear(m.lift, c0, c1, n, xs);
    let lin = linear_spec(m.lift, c0, c1, n, xs);
    assert(c1 > 0 || lin.len() == 0) by (nonlinear_arith) requires lin.len() == n * c1;
    lemma_erase_add_bias(lin, m.lift_bias, c1);
    let lifted = add_bias(lin, m.lift_bias, c1);
    lemma_erase_layers(m.layers, c1, modes, dims, lifted);
    let hidden = layers_spec(m.layers, c1, modes, dims, lifted);
    lemma_erase_linear(m.proj_1, c1, c1, n, hidden);
    let lin1 = linear_spec(m.proj_1, c1, c1, n, hidden);
    lemma_erase_add_bias(lin1, m.proj_b1, c1);
    let projected = add_bias_relu(lin1, m.proj_b1, c1);
    lemma_erase_linear(m.proj_2, c1, c2, n, projected);
    let lin2 = linear_spec(m.proj_2, c1, c2, n, projected);
    assert(c2 > 0 || lin2.len() == 0) by (nonlinear_arith) requires lin2.len() == n * c2;
    lemma_erase_add_bias(lin2, m.proj_b2, c2);
}


/// The values of the variables of `s`: their expressions with node identities erased.
pub open spec fn vals(ctx: Context, s: Seq<Variable>) -> Seq<Expr> {
    erase_all(ctx.exprs(s))
}

pub proof fn lemma_vals_append(ctx: Context, a: Seq<Variable>, b: Seq<Variable>)
    ensures
        vals(ctx, a + b) == vals(ctx, a) + vals(ctx, b),
{
    assert(vals(ctx, a + b) =~= vals(ctx, a) + vals(ctx, b));
}

pub proof fn lemma_vals_concat(ctx: Context, pieces: Seq<Seq<Variable>>)
    ensures
        vals(ctx, concat(pieces)) == concat(Seq::new(pieces.len(), |i: int| vals(ctx, pieces[i]))),
    decreases pieces.len(),
{
    let m = Seq::new(pieces.len(), |i: int| vals(ctx, pieces[i]));
    if pieces.len() > 0 {
        lemma_vals_concat(ctx, pieces.drop_last());
        lemma_vals_append(ctx, concat(pieces.drop_last()), pieces.last());
        assert(m.drop_last() =~= Seq::new(pieces.drop_last().len(), |i: int| vals(ctx, pieces.drop_last()[i])));
    } else {
        assert(vals(ctx, concat(pieces)) =~= concat(m));
    }
}

pub proof fn lemma_vals_split(c1: Context, a1: Seq<Variable>, b1: Seq<Variable>, c2: Context, a2: Seq<Variable>, b2: Seq<Variable>)
    requires
        a1.len() == a2.len(),
        vals(c1, a1 + b1) == vals(c2, a2 + b2),
    ensures
        vals(c1, a1) == vals(c2, a2),
        vals(c1, b1) == vals(c2, b2),
{
    lemma_vals_append(c1, a1, b1);
    lemma_vals_append(c2, a2, b2);
    let x = vals(c1, a1) + vals(c1, b1);
    assert(vals(c1, a1) =~= x.subrange(0, a1.len() as int));
    assert(vals(c2, a2) =~= x.subrange(0, a1.len() as int));
    assert(vals(c1, b1) =~= x.subrange(a1.len() as int, x.len() as int));
    assert(vals(c2, b2) =~= x.subrange(a1.len() as int, x.len() as int));
}

pub proof fn lemma_concat_map_vals_parts<A>(c1: Context, x: Seq<A>, c2: Context, y: Seq<A>, f: spec_fn(A) -> Seq<Variable>)
    requires
        x.len() == y.len(),
        forall|i: int| 0 <= i < x.len() ==> (#[trigger] f(x[i])).len() == f(y[i]).len(),
        vals(c1, concat_map(x, f)) == vals(c2, concat_map(y, f)),
    ensures
        forall|i: int| 0 <= i < x.len() ==> vals(c1, #[trigger] f(x[i])) == vals(c2, f(y[i])),
{
    let px = Seq::new(x.len(), |i: int| f(x[i]));
    let py = Seq::new(y.len(), |i: int| f(y[i]));
    lemma_vals_concat(c1, px);
    lemma_vals_concat(c2, py);
    let ex = Seq::new(px.len(), |i: int| vals(c1, px[i]));
    let ey = Seq::new(py.len(), |i: int| vals(c2, py[i]));
    assert forall|i: int| 0 <= i < ex.len() implies (#[trigger] ex[i]).len() == ey[i].len() by {
        assert(f(x[i]).len() == f(y[i]).len());
    }
    lemma_concat_eq_parts(ex, ey);
    assert forall|i: int| 0 <= i < x.len() implies vals(c1, #[trigger] f(x[i])) == vals(c2, f(y[i])) by {
        assert(ex[i] == ey[i]);
    }
}

pub proof fn lemma_pairs_from_vals(c1: Context, x: Seq<(Variable, Variable)>, c2: Context, y: Seq<(Variable, Variable)>)
    requires
        x.len() == y.len(),
        vals(c1, concat_map(x, pair_fn())) == vals(c2, concat_map(y, pair_fn())),
    ensures
        forall|k: int| #![trigger x[k]] 0 <= k < x.len() ==> erase(c1.expr_of(x[k].0)) == erase(c2.expr_of(y[k].0)) && erase(c1.expr_of(x[k].1)) == erase(c2.expr_of(y[k].1)),
{
    assert forall|i: int| 0 <= i < x.len() implies (#[trigger] pair_fn()(x[i])).len() == pair_fn()(y[i]).len() by {}
    lemma_concat_map_vals_parts(c1, x, c2, y, pair_fn());
    assert forall|k: int| #![trigger x[k]] 0 <= k < x.len() implies erase(c1.expr_of(x[k].0)) == erase(c2.expr_of(y[k].0)) && erase(c1.expr_of(x[k].1)) == erase(c2.expr_of(y[k].1)) by {
        let a = vals(c1, pair_fn()(x[k]));
        let b = vals(c2, pair_fn()(y[k]));
        assert(a == b);
        assert(a[0] == b[0]);
        assert(a[1] == b[1]);
    }
}

pub proof fn lemma_row2_vals(c1: Context, x: Vec<Vec<(Variable, Variable)>>, c2: Context, y: Vec<Vec<(Variable, Variable)>>)
    requires
        x@.len() == y@.len(),
        forall|k: int| 0 <= k < x@.len() ==> (#[trigger] x@[k])@.len() == y@[k]@.len(),
        vals(c1, row2_fn()(x)) == vals(c2, row2_fn()(y)),
    ensures
        forall|k: int, j: int| #![trigger x@[k]@[j]] 0 <= k < x@.len() && 0 <= j < x@[k]@.len() ==>
            erase(c1.expr_of(x@[k]@[j].0)) == erase(c2.expr_of(y@[k]@[j].0)) && erase(c1.expr_of(x@[k]@[j].1)) == erase(c2.expr_of(y@[k]@[j].1)),
{
    assert forall|k: int| 0 <= k < x@.len() implies (#[trigger] row1_fn()(x@[k])).len() == row1_fn()(y@[k]).len() by {
        lemma_concat_map_len_eq(x@[k]@, y@[k]@, pair_fn());
    }
    lemma_concat_map_vals_parts(c1, x@, c2, y@, row1_fn());
    assert forall|k: int, j: int| #![trigger x@[k]@[j]] 0 <= k < x@.len() && 0 <= j < x@[k]@.len() implies
        erase(c1.expr_of(x@[k]@[j].0)) == erase(c2.expr_of(y@[k]@[j].0)) && erase(c1.expr_of(x@[k]@[j].1)) == erase(c2.expr_of(y@[k]@[j].1)) by {
        assert(vals(c1, row1_fn()(x@[k])) == vals(c2, row1_fn()(y@[k])));
        lemma_pairs_from_vals(c1, x@[k]@, c2, y@[k]@);
    }
}

pub proof fn lemma_row3_vals(c1: Context, x: Vec<Vec<Vec<(Variable, Variable)>>>, c2: Context, y: Vec<Vec<Vec<(Variable, Variable)>>>)
    requires
        x@.len() == y@.len(),
        forall|k: int| 0 <= k < x@.len() ==> (#[trigger] x@[k])@.len() == y@[k]@.len(),
        forall|k: int, j: int| 0 <= k < x@.len() && 0 <= j < x@[k]@.len() ==> (#[trigger] x@[k]@[j])@.len() == y@[k]@[j]@.len(),
        vals(c1, row3_fn()(x)) == vals(c2, row3_fn()(y)),
    ensures
        forall|k: int, j: int, q: int| #![trigger x@[k]@[j]@[q]] 0 <= k < x@.len() && 0 <= j < x@[k]@.len() && 0 <= q < x@[k]@[j]@.len() ==>
            erase(c1.expr_of(x@[k]@[j]@[q].0)) == erase(c2.expr_of(y@[k]@[j]@[q].0)) && erase(c1.expr_of(x@[k]@[j]@[q].1)) == erase(c2.expr_of(y@[k]@[j]@[q].1)),
{
    assert forall|k: int| 0 <= k < x@.len() implies (#[trigger] row2_fn()(x@[k])).len() == row2_fn()(y@[k]).len() by {
        assert forall|j: int| 0 <= j < x@[k]@.len() implies (#[trigger] x@[k]@[j])@.len() == y@[k]@[j]@.len() by {}
        lemma_row2_len(x@[k], y@[k]);
    }
    lemma_concat_map_vals_parts(c1, x@, c2, y@, row2_fn());
    assert forall|k: int, j: int, q: int| #![trigger x@[k]@[j]@[q]] 0 <= k < x@.len() && 0 <= j < x@[k]@.len() && 0 <= q < x@[k]@[j]@.len() implies
        erase(c1.expr_of(x@[k]@[j]@[q].0)) == erase(c2.expr_of(y@[k]@[j]@[q].0)) && erase(c1.expr_of(x@[k]@[j]@[q].1)) == erase(c2.expr_of(y@[k]@[j]@[q].1)) by {
        assert(vals(c1, row2_fn()(x@[k])) == vals(c2, row2_fn()(y@[k])));
        assert forall|j2: int| 0 <= j2 < x@[k]@.len() implies (#[trigger] x@[k]@[j2])@.len() == y@[k]@[j2]@.len() by {}
        lemma_row2_vals(c1, x@[k], c2, y@[k]);
        assert(x@[k]@[j]@[q] == x@[k]@[j]@[q]);
    }
}

impl LinearLayer {
    pub proof fn lemma_values_from_vars(self, c1: Context, other: LinearLayer, c2: Context)
        requires
            self.wf(c1),
            other.wf(c2),
            self.channels == other.channels,
            vals(c1, self.vars()) == vals(c2, other.vars()),
        ensures
            erase_mat(self.model(c1)) == erase_mat(other.model(c2)),
            self.vars().len() == other.vars().len(),
    {
        lemma_vals_concat(c1, self.weights());
        lemma_vals_concat(c2, other.weights());
        let ex = Seq::new(self.weights().len(), |i: int| vals(c1, self.weights()[i]));
        let ey = Seq::new(other.weights().len(), |i: int| vals(c2, other.weights()[i]));
        assert forall|i: int| 0 <= i < ex.len() implies (#[trigger] ex[i]).len() == ey[i].len() by {
            assert(self.w@[i]@.len() == self.channels.0);
            assert(other.w@[i]@.len() == other.channels.0);
        }
        lemma_concat_eq_parts(ex, ey);
        assert(erase_mat(self.model(c1)) =~= erase_mat(other.model(c2))) by {
            assert forall|o: int| 0 <= o < self.w@.len() implies #[trigger] erase_mat(self.model(c1))[o] == erase_mat(other.model(c2))[o] by {
                assert(ex[o] == ey[o]);
            }
        }
        assert forall|i: int| 0 <= i < self.weights().len() implies (#[trigger] self.weights()[i]).len() == other.weights()[i].len() by {
            assert(self.w@[i]@.len() == self.channels.0);
            assert(other.w@[i]@.len() == other.channels.0);
        }
        lemma_concat_len_eq(self.weights(), other.weights());
    }
}

impl FourierLayer {
    pub proof fn lemma_values_from_vars(self, c1: Context, other: FourierLayer, c2: Context)
        requires
            self.wf(c1),
            other.wf(c2),
            self.channels == other.channels,
            self.modes == other.modes,
            vals(c1, self.vars()) == vals(c2, other.vars()),
        ensures
            erase_mat(self.residual.model(c1)) == erase_mat(other.residual.model(c2)),
            erase_rm(self.spectral_model(c1)) == erase_rm(other.spectral_model(c2)),
    {
        let ch = self.channels as int;
        assert forall|i: int| 0 <= i < self.residual.weights().len() implies (#[trigger] self.residual.weights()[i]).len() == other.residual.weights()[i].len() by {
            assert(self.residual.w@[i]@.len() == self.channels);
            assert(other.residual.w@[i]@.len() == other.channels);
        }
        lemma_concat_len_eq(self.residual.weights(), other.residual.weights());
        lemma_vals_split(c1, self.residual.vars(), self.spectral_vars(), c2, other.residual.vars(), other.spectral_vars());
        self.residual.lemma_values_from_vars(c1, other.residual, c2);
        let x = self.r;
        let y = other.r;
        assert forall|o: int| 0 <= o < x@.len() implies (#[trigger] row3_fn()(x@[o])).len() == row3_fn()(y@[o]).len() by {
            assert forall|k: int| 0 <= k < x@[o]@.len() implies (#[trigger] x@[o]@[k])@.len() == y@[o]@[k]@.len() by {}
            assert forall|k: int, j: int| 0 <= k < x@[o]@.len() && 0 <= j < x@[o]@[k]@.len() implies (#[trigger] x@[o]@[k]@[j])@.len() == y@[o]@[k]@[j]@.len() by {}
            lemma_row3_len(x@[o], y@[o]);
        }
        lemma_concat_map_vals_parts(c1, x@, c2, y@, row3_fn());
        assert forall|o: int, c: int, kx: int, ky: int| self.in_r(o, c, kx, ky) implies
            erase(c1.expr_of(#[trigger] self.r_at(o, c, kx, ky).0)) == erase(c2.expr_of(other.r_at(o, c, kx, ky).0))
            && erase(c1.expr_of(self.r_at(o, c, kx, ky).1)) == erase(c2.expr_of(other.r_at(o, c, kx, ky).1)) by {
            assert(vals(c1, row3_fn()(x@[o])) == vals(c2, row3_fn()(y@[o])));
            assert forall|k: int| 0 <= k < x@[o]@.len() implies (#[trigger] x@[o]@[k])@.len() == y@[o]@[k]@.len() by {}
            assert forall|k: int, j: int| 0 <= k < x@[o]@.len() && 0 <= j < x@[o]@[k]@.len() implies (#[trigger] x@[o]@[k]@[j])@.len() == y@[o]@[k]@[j]@.len() by {}
            lemma_row3_vals(c1, x@[o], c2, y@[o]);
            assert(x@[o]@[c]@[kx]@[ky] == self.r_at(o, c, kx, ky));
        }
        assert(erase_rm(self.spectral_model(c1)) =~= erase_rm(other.spectral_model(c2))) by {
            assert forall|o: int| 0 <= o < ch implies #[trigger] erase_rm(self.spectral_model(c1))[o] == erase_rm(other.spectral_model(c2))[o] by {
                assert(erase_rm(self.spectral_model(c1))[o] =~= erase_rm(other.spectral_model(c2))[o]) by {
                    assert forall|c: int| 0 <= c < ch implies #[trigger] erase_rm(self.spectral_model(c1))[o][c] == erase_rm(other.spectral_model(c2))[o][c] by {
                        assert(erase_rm(self.spectral_model(c1))[o][c] =~= erase_rm(other.spectral_model(c2))[o][c]) by {
                            assert forall|kx: int| 0 <= kx < self.modes.0 implies #[trigger] erase_rm(self.spectral_model(c1))[o][c][kx] == erase_rm(other.spectral_model(c2))[o][c][kx] by {
                                assert(erase_rm(self.spectral_model(c1))[o][c][kx] =~= erase_rm(other.spectral_model(c2))[o][c][kx]) by {
                                    assert forall|ky: int| 0 <= ky < self.modes.1 implies #[trigger] erase_rm(self.spectral_model(c1))[o][c][kx][ky] == erase_rm(other.spectral_model(c2))[o][c][kx][ky] by {
                                        assert(self.in_r(o, c, kx, ky));
                                    }
                                }
                            }
                        }
                    }
                }
            }
        }
    }
}

impl FNO {
    /// A well-formed operator's weight expressions have the shapes of its architecture.
    pub proof fn lemma_model_shaped(self, ctx: Context)
        requires
            self.wf(ctx),
        ensures
            model_shaped(self.model(ctx), self.channels, self.modes),
    {
        let m = self.model(ctx);
        assert forall|k: int| 0 <= k < m.layers.len() implies mat_shape((#[trigger] m.layers[k]).0, self.channels.1 as nat,
            self.channels.1 as nat) && rm_shape(m.layers[k].1, self.channels.1 as nat, self.modes) by {
            let l = self.fourier_layers@[k];
            assert(l.wf(ctx));
        }
    }

    /// Two Fourier neural operators of the same architecture whose weights, in
    /// collection order, hold the same values have weight models of the same values,
    /// and compute the same values on inputs of the same values, on every grid the
    /// forward pass accepts, wherever their nodes sit.
    pub proof fn lemma_same_values_same_forward(self, c1: Context, other: FNO, c2: Context)
        requires
            self.wf(c1),
            other.wf(c2),
            self.channels == other.channels,
            self.modes == other.modes,
            self.fourier_layers@.len() == other.fourier_layers@.len(),
            vals(c1, self.vars()) == vals(c2, other.vars()),
        ensures
            erase_model(self.model(c1)) == erase_model(other.model(c2)),
            forall|dims: (usize, usize), xs1: Seq<Expr>, xs2: Seq<Expr>|
                (self.fourier_layers@.len() > 0 ==> is_power_of_two(dims.0 as int) && is_power_of_two(dims.1 as int))
                && ((dims.0 * dims.1) as nat) * (self.channels.0 as nat) <= xs1.len()
                && ((dims.0 * dims.1) as nat) * (self.channels.0 as nat) <= xs2.len()
                && erase_all(xs1) == erase_all(xs2)
                ==> #[trigger] erase_all(fno_spec(self.model(c1), self.channels, self.modes, dims, xs1))
                    == #[trigger] erase_all(fno_spec(other.model(c2), other.channels, other.modes, dims, xs2)),
    {
        let f = layer_vars_fn();
        let l1 = self.fourier_layers@;
        let l2 = other.fourier_layers@;
        self.lift_layer.lemma_vars_len_eq(c1, other.lift_layer, c2);
        self.proj_1.lemma_vars_len_eq(c1, other.proj_1, c2);
        self.proj_2.lemma_vars_len_eq(c1, other.proj_2, c2);
        assert forall|k: int| 0 <= k < l1.len() implies (#[trigger] f(l1[k])).len() == f(l2[k]).len() by {
            l1[k].lemma_vars_len_eq(c1, l2[k], c2);
        }
        lemma_concat_map_len_eq(l1, l2, f);
        let a1 = self.lift_layer.vars() + self.lift_bias@ + concat_map(l1, f) + self.proj_1.vars() + self.proj_b1@ + self.proj_2.vars();
        let a2 = other.lift_layer.vars() + other.lift_bias@ + concat_map(l2, f) + other.proj_1.vars() + other.proj_b1@ + other.proj_2.vars();
        lemma_vals_split(c1, a1, self.proj_b2@, c2, a2, other.proj_b2@);
        let b1 = self.lift_layer.vars() + self.lift_bias@ + concat_map(l1, f) + self.proj_1.vars() + self.proj_b1@;
        let b2 = other.lift_layer.vars() + other.lift_bias@ + concat_map(l2, f) + other.proj_1.vars() + other.proj_b1@;
        lemma_vals_split(c1, b1, self.proj_2.vars(), c2, b2, other.proj_2.vars());
        let d1 = self.lift_layer.vars() + self.lift_bias@ + concat_map(l1, f) + self.proj_1.vars();
        let d2 = other.lift_layer.vars() + other.lift_bias@ + concat_map(l2, f) + other.proj_1.vars();
        lemma_vals_split(c1, d1, self.proj_b1@, c2, d2, other.proj_b1@);
        let e1 = self.lift_layer.vars() + self.lift_bias@ + concat_map(l1, f);
        let e2 = other.lift_layer.vars() + other.lift_bias@ + concat_map(l2, f);
        lemma_vals_split(c1, e1, self.proj_1.vars(), c2, e2, other.proj_1.vars());
        let g1 = self.lift_layer.vars() + self.lift_bias@;
        let g2 = other.lift_layer.vars() + other.lift_bias@;
        lemma_vals_split(c1, g1, concat_map(l1, f), c2, g2, concat_map(l2, f));
        lemma_vals_split(c1, self.lift_layer.vars(), self.lift_bias@, c2, other.lift_layer.vars(), other.lift_bias@);
        self.lift_layer.lemma_values_from_vars(c1, other.lift_layer, c2);
        self.proj_1.lemma_values_from_vars(c1, other.proj_1, c2);
        self.proj_2.lemma_values_from_vars(c1, other.proj_2, c2);
        lemma_concat_map_vals_parts(c1, l1, c2, l2, f);
        let m1 = erase_model(self.model(c1));
        let m2 = erase_model(other.model(c2));
        assert(m1.layers =~= m2.layers) by {
            assert forall|k: int| 0 <= k < l1.len() implies #[trigger] m1.layers[k] == m2.layers[k] by {
                assert(vals(c1, f(l1[k])) == vals(c2, f(l2[k])));
                l1[k].lemma_values_from_vars(c1, l2[k], c2);
            }
        }
        assert(m1 == m2);
        self.lemma_model_shaped(c1);
        other.lemma_model_shaped(c2);
        assert forall|dims: (usize, usize), xs1: Seq<Expr>, xs2: Seq<Expr>|
            (self.fourier_layers@.len() > 0 ==> is_power_of_two(dims.0 as int) && is_power_of_two(dims.1 as int))
            && ((dims.0 * dims.1) as nat) * (self.channels.0 as nat) <= xs1.len()
            && ((dims.0 * dims.1) as nat) * (self.channels.0 as nat) <= xs2.len()
            && erase_all(xs1) == erase_all(xs2)
            implies #[trigger] erase_all(fno_spec(self.model(c1), self.channels, self.modes, dims, xs1))
                == #[trigger] erase_all(fno_spec(other.model(c2), other.channels, other.modes, dims, xs2)) by {
            lemma_erase_fno(self.model(c1), self.channels, self.modes, dims, xs1);
            lemma_erase_fno(other.model(c2), other.channels, other.modes, dims, xs2);
        }
    }
}


/// Input nodes holding `w`, wherever they sit, have the values `w`.
pub proof fn lemma_erase_leaves(ids: Seq<int>, w: Seq<u32>)
    ensures
        erase_all(leaves_at(ids, w)) == bits_exprs(w),
{
    assert(erase_all(leaves_at(ids, w)) =~= bits_exprs(w));
}

/// New input nodes holding `w` have the values `w`.
pub proof fn lemma_erase_fresh(base: int, w: Seq<u32>)
    ensures
        erase_all(fresh_leaves(base, w)) == bits_exprs(w),
{
    assert(erase_all(fresh_leaves(base, w)) =~= bits_exprs(w));
}

} // verus!
