use vstd::prelude::*;

use crate::calculations::fft::{gather, is_power_of_two, lemma_grid_join, lemma_grid_split};
use crate::fno::backprop::fft_traced::{
    c_add, c_mul, fft_2d, ifft_2d, transform_2d, CExpr, ComplexVariable, Transform,
};
use crate::fno::backprop::graph::{id_range, leaves_at, Node, zero_expr, Context, Expr, Leaf, Variable, ZERO_BITS};

verus! {

/// `zero + x[0] * w[0] + ... + x[k - 1] * w[k - 1]`, summed from the left.
pub open spec fn dot_expr(xs: Seq<Expr>, ws: Seq<Expr>, k: nat) -> Expr
    decreases k,
{
    if k == 0 {
        zero_expr()
    } else {
        Expr::Add(
            Box::new(dot_expr(xs, ws, (k - 1) as nat)),
            Box::new(Expr::Mul(Box::new(xs[k - 1]), Box::new(ws[k - 1]))),
        )
    }
}

/// The `cin` channels of point `i` of a point-major, channel-minor field.
pub open spec fn point_channels(xs: Seq<Expr>, i: int, cin: nat) -> Seq<Expr> {
    xs.subrange(i * cin, i * cin + cin)
}

/// A pointwise linear map from `cin` to `cout` channels over `n` points, with weights
/// `w[out][in]`: output channel `o` of point `i` is the dot product of the input
/// channels of point `i` with `w[o]`.
pub open spec fn linear_spec(w: Seq<Seq<Expr>>, cin: nat, cout: nat, n: nat, xs: Seq<Expr>) -> Seq<Expr> {
    Seq::new(n * cout, |p: int| dot_expr(point_channels(xs, p / (cout as int), cin), w[p % (cout as int)], cin))
}

/// A linear layer acts point by point: channel `o` of the output at point `i` depends
/// only on the channels of the input at point `i`, whatever the grid.
pub proof fn lemma_linear_pointwise(w: Seq<Seq<Expr>>, cin: nat, cout: nat, n: nat, xs: Seq<Expr>, ys: Seq<Expr>, i: int, o: int)
    requires
        0 <= i < n,
        0 <= o < cout,
        point_channels(xs, i, cin) == point_channels(ys, i, cin),
    ensures
        linear_spec(w, cin, cout, n, xs)[i * cout + o] == linear_spec(w, cin, cout, n, ys)[i * cout + o],
{
    lemma_grid_join(i, o, cout as int, n as int);
    assert(cout * n == n * cout) by (nonlinear_arith);
}

pub struct LinearLayer {
    pub channels: (usize, usize),
    pub w: Vec<Vec<Variable>>,
}

impl LinearLayer {
    /// The weights, `w[out][in]`.
    pub open spec fn weights(self) -> Seq<Seq<Variable>> {
        Seq::new(self.w@.len(), |o: int| self.w@[o]@)
    }

    /// The weights have shape `[channels.1][channels.0]` and are nodes of `ctx`.
    pub open spec fn wf(self, ctx: Context) -> bool {
        &&& self.w@.len() == self.channels.1
        &&& forall|o: int| 0 <= o < self.channels.1 ==> (#[trigger] self.w@[o])@.len() == self.channels.0
        &&& forall|o: int| 0 <= o < self.channels.1 ==> ctx.contains_vars(#[trigger] self.w@[o]@)
    }

    /// The expressions of the weights, `[out][in]`.
    pub open spec fn model(self, ctx: Context) -> Seq<Seq<Expr>> {
        Seq::new(self.w@.len(), |o: int| ctx.exprs(self.w@[o]@))
    }

    /// A layer well formed in an arena stays so, with the same weight expressions,
    /// in any extension of it.
    pub proof fn lemma_stable(self, ctx: Context, older: Context)
        requires
            self.wf(older),
            ctx.extends(older),
        ensures
            self.wf(ctx),
            self.model(ctx) == self.model(older),
    {
        assert forall|o: int| 0 <= o < self.channels.1 implies ctx.contains_vars(#[trigger] self.w@[o]@)
            && ctx.exprs(self.w@[o]@) == older.exprs(self.w@[o]@) by {
            ctx.lemma_exprs_stable(older, self.w@[o]@);
        }
        assert(self.model(ctx) =~= self.model(older)) by {
            assert forall|o: int| 0 <= o < self.w@.len() implies #[trigger] self.model(ctx)[o] == self.model(older)[o] by {
                ctx.lemma_exprs_stable(older, self.w@[o]@);
            }
        }
    }

    /// Applies the layer pointwise to a field of `in_dims.0 * in_dims.1` points with
    /// `channels.0` channels each, stored point-major.
    pub fn forward(&self, ctx: &mut Context, in_dims: (usize, usize), input: &Vec<Variable>) -> (output: Vec<Variable>)
        requires
            old(ctx).wf(),
            self.wf(*old(ctx)),
            old(ctx).contains_vars(input@),
            in_dims.0 * in_dims.1 <= usize::MAX,
            in_dims.0 * in_dims.1 * self.channels.0 <= input@.len(),
            in_dims.0 * in_dims.1 * self.channels.1 <= usize::MAX,
        ensures
            final(ctx).wf(),
            final(ctx).extends(*old(ctx)),
            final(ctx).contains_vars(output@),
            output@.len() == in_dims.0 * in_dims.1 * self.channels.1,
            final(ctx).exprs(output@) == linear_spec(self.model(*old(ctx)), self.channels.0 as nat,
                self.channels.1 as nat, (in_dims.0 * in_dims.1) as nat, old(ctx).exprs(input@)),
    {
        let ghost c_in = *ctx;
        let ghost xs = ctx.exprs(input@);
        let ghost model = self.model(*ctx);
        let input_len = input.len();
        let cin = self.channels.0;
        let cout = self.channels.1;
        proof {
            assert(in_dims.0 * in_dims.1 * cout == (in_dims.0 * in_dims.1) * cout);
        }
        let n = in_dims.0 * in_dims.1;
        let ghost spec = linear_spec(model, cin as nat, cout as nat, n as nat, xs);
        proof {
            assert(n * cout == cout * n) by (nonlinear_arith);
        }
        let zero = ctx.constant(Leaf::Bits(ZERO_BITS));
        let mut output = vec![zero; n * cout];
        proof {
            self.lemma_stable(*ctx, c_in);
            ctx.lemma_exprs_stable(c_in, input@);
        }
        for i in 0..n
            invariant
                ctx.wf(),
                ctx.extends(c_in),
                self.wf(*ctx),
                self.model(*ctx) == model,
                cin == self.channels.0,
                cout == self.channels.1,
                n * cin <= input@.len(),
                input_len == input@.len(),
                n * cout <= usize::MAX,
                n * cout == cout * n,
                output@.len() == n * cout,
                ctx.contains_vars(input@),
                ctx.exprs(input@) == xs,
                spec == linear_spec(model, cin as nat, cout as nat, n as nat, xs),
                ctx.contains_vars(output@),
                forall|p: int| 0 <= p < n * cout && p / (cout as int) < i ==> #[trigger] ctx.exprs(output@)[p] == spec[p],
        {
            for o in 0..cout
                invariant
                    ctx.wf(),
                    ctx.extends(c_in),
                    self.wf(*ctx),
                    self.model(*ctx) == model,
                    cin == self.channels.0,
                    cout == self.channels.1,
                    i < n,
                    n * cin <= input@.len(),
                    input_len == input@.len(),
                    n * cout <= usize::MAX,
                    n * cout == cout * n,
                    output@.len() == n * cout,
                    ctx.contains_vars(input@),
                    ctx.exprs(input@) == xs,
                    spec == linear_spec(model, cin as nat, cout as nat, n as nat, xs),
                    ctx.contains_vars(output@),
                    forall|p: int| 0 <= p < n * cout && (p / (cout as int) < i || (p / (cout as int) == i && p % (cout as int) < o))
                        ==> #[trigger] ctx.exprs(output@)[p] == spec[p],
            {
                proof {
                    lemma_grid_join(i as int, o as int, cout as int, n as int);
                    assert(i * cin + cin <= n * cin) by (nonlinear_arith)
                        requires i < n;
                }
                let ghost c_o = *ctx;
                let ghost row = point_channels(xs, i as int, cin as nat);
                let ghost ws = model[o as int];
                let mut sum = ctx.constant(Leaf::Bits(ZERO_BITS));
                proof {
                    self.lemma_stable(*ctx, c_o);
                    ctx.lemma_exprs_stable(c_o, input@);
                    ctx.lemma_exprs_stable(c_o, output@);
                }
                for c in 0..cin
                    invariant
                        ctx.wf(),
                        ctx.extends(c_in),
                        ctx.extends(c_o),
                        self.wf(*ctx),
                        self.model(*ctx) == model,
                        cin == self.channels.0,
                        cout == self.channels.1,
                        o < cout,
                        i * cin + cin <= input@.len(),
                        input_len == input@.len(),
                        ctx.contains_vars(input@),
                        ctx.exprs(input@) == xs,
                        row == point_channels(xs, i as int, cin as nat),
                        ws == model[o as int],
                        ctx.contains(sum),
                        ctx.expr_of(sum) == dot_expr(row, ws, c as nat),
                {
                    let ghost c_c = *ctx;
                    proof {
                        assert(i * cin + c < i * cin + cin) by (nonlinear_arith)
                            requires c < cin;
                    }
                    let inp = input[i * cin + c];
                    let w = self.w[o][c];
                    proof {
                        assert(ctx.contains(input@[i * cin + c]));
                        assert(ctx.contains(self.w@[o as int]@[c as int]));
                        assert(ctx.expr_of(inp) == row[c as int]);
                        assert(ctx.expr_of(w) == ws[c as int]);
                    }
                    let prod = ctx.mul(inp, w);
                    let ghost c_p = *ctx;
                    proof { c_p.lemma_extends(c_c); }
                    sum = ctx.add(sum, prod);
                    proof {
                        ctx.lemma_extends(c_p);
                        self.lemma_stable(*ctx, c_c);
                        ctx.lemma_exprs_stable(c_c, input@);
                    }
                }
                proof {
                    ctx.lemma_exprs_stable(c_o, output@);
                }
                let ghost before = output@;
                output.set(i * cout + o, sum);
                proof {
                    assert(spec[i * cout + o] == dot_expr(row, ws, cin as nat));
                    assert forall|p: int| 0 <= p < n * cout && (p / (cout as int) < i || (p / (cout as int) == i && p % (cout as int) < o + 1))
                        implies #[trigger] ctx.exprs(output@)[p] == spec[p] by {
                        if p != i * cout + o {
                            lemma_grid_split(p, cout as int, n as int);
                            assert(output@[p] == before[p]);
                            assert(ctx.exprs(before)[p] == c_o.exprs(before)[p]);
                        }
                    }
                    assert(ctx.contains_vars(output@)) by {
                        assert forall|p: int| 0 <= p < output@.len() implies ctx.contains(#[trigger] output@[p]) by {
                            if p != i * cout + o {
                                assert(output@[p] == before[p]);
                            }
                        }
                    }
                }
            }
            proof {
                assert forall|p: int| 0 <= p < n * cout && p / (cout as int) < i + 1 implies #[trigger] ctx.exprs(output@)[p] == spec[p] by {
                    lemma_grid_split(p, cout as int, n as int);
                }
            }
        }
        proof {
            assert(ctx.exprs(output@) =~= spec) by {
                assert forall|p: int| 0 <= p < n * cout implies #[trigger] ctx.exprs(output@)[p] == spec[p] by {
                    lemma_grid_split(p, cout as int, n as int);
                }
            }
        }
        output
    }
}

/// The Fourier modes kept along an axis of `dim` points, as `(position, mode)`
/// pairs: the `min(modes, dim)` lowest modes at their own positions, then the
/// negative modes `1, 2, ...` at positions `dim - 1, dim - 2, ...`.
pub open spec fn mode_seq(modes: usize, dim: usize) -> Seq<(usize, usize)> {
    let m = if modes < dim { modes } else { dim };
    Seq::new(m as nat, |k: int| (k as usize, k as usize))
        + Seq::new(if m > 0 { (m - 1) as nat } else { 0 }, |k: int| ((dim - (k + 1)) as usize, (k + 1) as usize))
}

/// The mode of the last pair of `list` whose position is `pos`, if any.
pub open spec fn last_mode(list: Seq<(usize, usize)>, pos: int) -> Option<usize>
    decreases list.len(),
{
    if list.len() == 0 {
        None
    } else if list.last().0 == pos {
        Some(list.last().1)
    } else {
        last_mode(list.drop_last(), pos)
    }
}

pub proof fn lemma_last_mode_take(list: Seq<(usize, usize)>, a: int, pos: int)
    requires
        0 <= a < list.len(),
    ensures
        last_mode(list.take(a + 1), pos) == if list[a].0 == pos {
            Some(list[a].1)
        } else {
            last_mode(list.take(a), pos)
        },
{
    assert(list.take(a + 1).drop_last() =~= list.take(a));
}

/// Every pair of a mode list has its position below `dim` and its mode below `modes`.
pub proof fn lemma_mode_seq_bounds(modes: usize, dim: usize, a: int)
    requires
        0 <= a < mode_seq(modes, dim).len(),
    ensures
        mode_seq(modes, dim)[a].0 < dim,
        mode_seq(modes, dim)[a].1 < modes,
{
}

/// A mode found for a position comes from a pair of the list.
pub proof fn lemma_last_mode_in(list: Seq<(usize, usize)>, pos: int)
    ensures
        last_mode(list, pos) matches Some(k) ==> exists|a: int| 0 <= a < list.len() && list[a] == (pos as usize, k) && list[a].0 == pos,
    decreases list.len(),
{
    if list.len() > 0 && list.last().0 != pos {
        lemma_last_mode_in(list.drop_last(), pos);
        if let Some(k) = last_mode(list, pos) {
            let a = choose|a: int| 0 <= a < list.drop_last().len() && list.drop_last()[a] == (pos as usize, k) && list.drop_last()[a].0 == pos;
            assert(list[a] == list.drop_last()[a]);
        }
    } else if list.len() > 0 {
        assert(list[list.len() - 1] == list.last());
    }
}

proof fn lemma_last_mode_at(list: Seq<(usize, usize)>, pos: int, a: int)
    requires
        0 <= a < list.len(),
        list[a].0 == pos,
        forall|b: int| a < b < list.len() ==> (#[trigger] list[b]).0 != pos,
    ensures
        last_mode(list, pos) == Some(list[a].1),
    decreases list.len(),
{
    if a < list.len() - 1 {
        assert(list.last() == list[list.len() - 1]);
        let rest = list.drop_last();
        assert forall|b: int| a < b < rest.len() implies (#[trigger] rest[b]).0 != pos by {
            assert(rest[b] == list[b]);
        }
        lemma_last_mode_at(rest, pos, a);
        assert(rest[a] == list[a]);
    } else {
        assert(list.last() == list[a]);
    }
}

proof fn lemma_last_mode_absent(list: Seq<(usize, usize)>, pos: int)
    requires
        forall|b: int| 0 <= b < list.len() ==> (#[trigger] list[b]).0 != pos,
    ensures
        last_mode(list, pos) == None::<usize>,
    decreases list.len(),
{
    if list.len() > 0 {
        assert(list.last() == list[list.len() - 1]);
        let rest = list.drop_last();
        assert forall|b: int| 0 <= b < rest.len() implies (#[trigger] rest[b]).0 != pos by {
            assert(rest[b] == list[b]);
        }
        lemma_last_mode_absent(rest, pos);
    }
}

/// Which frequency positions of an axis of `dim` points a Fourier layer keeps, and the
/// mode whose weights it uses there: with `m = min(modes, dim)`, a position `pos` with
/// `1 <= dim - pos < m` is the negative mode `dim - pos`; otherwise a position below `m`
/// is the mode `pos` itself; every other position is dropped.
pub proof fn lemma_kept_modes(modes: usize, dim: usize, pos: int)
    requires
        0 <= pos < dim,
    ensures
        last_mode(mode_seq(modes, dim), pos) == ({
            let m = if modes < dim { modes as int } else { dim as int };
            if 1 <= dim - pos < m {
                Some((dim - pos) as usize)
            } else if pos < m {
                Some(pos as usize)
            } else {
                None::<usize>
            }
        }),
{
    let m = if modes < dim { modes as int } else { dim as int };
    let list = mode_seq(modes, dim);
    let neg = if m > 0 { m - 1 } else { 0 };
    assert(list.len() == m + neg);
    assert forall|b: int| 0 <= b < m implies #[trigger] list[b] == (b as usize, b as usize) by {}
    assert forall|b: int| m <= b < m + neg implies #[trigger] list[b] == ((dim - (b - m + 1)) as usize, (b - m + 1) as usize) by {}
    if 1 <= dim - pos < m {
        let a = m + (dim - pos - 1);
        assert(list[a] == ((dim - (a - m + 1)) as usize, (a - m + 1) as usize));
        assert forall|b: int| a < b < list.len() implies (#[trigger] list[b]).0 != pos by {
            assert(list[b] == ((dim - (b - m + 1)) as usize, (b - m + 1) as usize));
        }
        lemma_last_mode_at(list, pos, a);
    } else if pos < m {
        assert forall|b: int| pos < b < list.len() implies (#[trigger] list[b]).0 != pos by {
            if b < m {
                assert(list[b] == (b as usize, b as usize));
            } else {
                assert(list[b] == ((dim - (b - m + 1)) as usize, (b - m + 1) as usize));
            }
        }
        assert(list[pos] == (pos as usize, pos as usize));
        lemma_last_mode_at(list, pos, pos);
    } else {
        assert forall|b: int| 0 <= b < list.len() implies (#[trigger] list[b]).0 != pos by {
            if b < m {
                assert(list[b] == (b as usize, b as usize));
            } else {
                assert(list[b] == ((dim - (b - m + 1)) as usize, (b - m + 1) as usize));
            }
        }
        lemma_last_mode_absent(list, pos);
    }
}

/// The list of kept modes along an axis.
pub fn mode_indices(modes: usize, dim: usize) -> (v: Vec<(usize, usize)>)
    ensures
        v@ == mode_seq(modes, dim),
{
    let m = if modes < dim { modes } else { dim };
    let mut v: Vec<(usize, usize)> = Vec::new();
    for k in 0..m
        invariant
            m == (if modes < dim { modes } else { dim }),
            v@ =~= Seq::new(k as nat, |q: int| (q as usize, q as usize)),
    {
        v.push((k, k));
    }
    let mut k: usize = 1;
    proof {
        assert(v@ =~= Seq::new(m as nat, |q: int| (q as usize, q as usize))
            + Seq::new(0, |q: int| ((dim - (q + 1)) as usize, (q + 1) as usize)));
    }
    while k < m
        invariant
            m == (if modes < dim { modes } else { dim }),
            m <= dim,
            1 <= k,
            k <= m || m == 0,
            m == 0 ==> k == 1,
            v@ =~= Seq::new(m as nat, |q: int| (q as usize, q as usize))
                + Seq::new((k - 1) as nat, |q: int| ((dim - (q + 1)) as usize, (q + 1) as usize)),
        decreases m - k,
    {
        v.push((dim - k, k));
        k = k + 1;
    }
    proof {
        if m == 0 {
            assert(v@ =~= mode_seq(modes, dim));
        } else {
            assert(k == m);
        }
    }
    v
}

/// The spectral weights of a Fourier layer, `[out][in][mode x][mode y]`, as expressions.
pub type SpectralModel = Seq<Seq<Seq<Seq<CExpr>>>>;

/// `(0, 0) + r[o][0][kx][ky] * f[0][i] + ... + r[o][k - 1][kx][ky] * f[k - 1][i]`.
pub open spec fn mix_expr(rm: SpectralModel, f_in: Seq<Seq<CExpr>>, o: int, kx: int, ky: int, i: int, k: nat) -> CExpr
    decreases k,
{
    if k == 0 {
        (zero_expr(), zero_expr())
    } else {
        c_add(
            mix_expr(rm, f_in, o, kx, ky, i, (k - 1) as nat),
            c_mul(rm[o][k - 1][kx][ky], f_in[k - 1][i]),
        )
    }
}

/// The transform of each input channel, lifted to complex numbers with a zero imaginary part.
pub open spec fn spectral_inputs(xs: Seq<Expr>, channels: nat, dims: (usize, usize)) -> Seq<Seq<CExpr>> {
    Seq::new(channels, |c: int| transform_2d(
        Seq::new((dims.0 * dims.1) as nat, |i: int| (xs[i * channels + c], zero_expr())),
        dims.0 as int, dims.1 as int, Transform::Forward,
    ))
}

/// Output channel `o` at frequency position `i`: where both the row and the column of
/// `i` are kept modes, the mixture of the input channels by the weights of the last
/// pair of modes listed for that row and that column; zero elsewhere.
pub open spec fn spectral_cell(rm: SpectralModel, f_in: Seq<Seq<CExpr>>, ys: Seq<(usize, usize)>,
    xs: Seq<(usize, usize)>, width: int, channels: nat, o: int, i: int) -> CExpr
{
    match (last_mode(ys, i / width), last_mode(xs, i % width)) {
        (Some(ky), Some(kx)) => mix_expr(rm, f_in, o, kx as int, ky as int, i, channels),
        _ => (zero_expr(), zero_expr()),
    }
}

/// The forward pass of a Fourier layer: for each point and output channel, ReLU of the
/// residual linear map plus the real part of the inverse transform of the mixed modes.
pub open spec fn fourier_spec(residual: Seq<Seq<Expr>>, rm: SpectralModel, channels: nat,
    modes: (usize, usize), dims: (usize, usize), xs: Seq<Expr>) -> Seq<Expr>
{
    let n = (dims.0 * dims.1) as nat;
    let res = linear_spec(residual, channels, channels, n, xs);
    let f_in = spectral_inputs(xs, channels, dims);
    let ys = mode_seq(modes.1, dims.1);
    let xm = mode_seq(modes.0, dims.0);
    let g = Seq::new(channels, |o: int| transform_2d(
        Seq::new(n, |i: int| spectral_cell(rm, f_in, ys, xm, dims.0 as int, channels, o, i)),
        dims.0 as int, dims.1 as int, Transform::Inverse,
    ));
    Seq::new(n * channels, |p: int| Expr::Relu(Box::new(Expr::Add(
        Box::new(res[p]),
        Box::new(g[p % (channels as int)][p / (channels as int)].0),
    ))))
}

pub struct FourierLayer {
    pub channels: usize,
    pub modes: (usize, usize),
    pub residual: LinearLayer,
    pub r: Vec<Vec<Vec<Vec<(Variable, Variable)>>>>,
}

impl FourierLayer {
    /// The spectral weight pair for output `o`, input `c` and modes `kx`, `ky`.
    pub open spec fn r_at(self, o: int, c: int, kx: int, ky: int) -> (Variable, Variable) {
        self.r@[o]@[c]@[kx]@[ky]
    }

    /// The spectral weights have shape `[channels][channels][modes.0][modes.1]`.
    pub open spec fn r_shape(self) -> bool {
        &&& self.r@.len() == self.channels
        &&& forall|o: int| 0 <= o < self.channels ==> (#[trigger] self.r@[o])@.len() == self.channels
        &&& forall|o: int, c: int| 0 <= o < self.channels && 0 <= c < self.channels
            ==> (#[trigger] self.r@[o]@[c])@.len() == self.modes.0
        &&& forall|o: int, c: int, kx: int| 0 <= o < self.channels && 0 <= c < self.channels && 0 <= kx < self.modes.0
            ==> (#[trigger] self.r@[o]@[c]@[kx])@.len() == self.modes.1
    }

    pub open spec fn in_r(self, o: int, c: int, kx: int, ky: int) -> bool {
        0 <= o < self.channels && 0 <= c < self.channels && 0 <= kx < self.modes.0 && 0 <= ky < self.modes.1
    }

    /// The weights have their shapes and are nodes of `ctx`.
    pub open spec fn wf(self, ctx: Context) -> bool {
        &&& self.residual.channels == (self.channels, self.channels)
        &&& self.residual.wf(ctx)
        &&& self.r_shape()
        &&& forall|o: int, c: int, kx: int, ky: int| self.in_r(o, c, kx, ky)
            ==> ctx.contains(#[trigger] self.r_at(o, c, kx, ky).0) && ctx.contains(self.r_at(o, c, kx, ky).1)
    }

    /// The expressions of the spectral weights.
    pub open spec fn spectral_model(self, ctx: Context) -> SpectralModel {
        Seq::new(self.channels as nat, |o: int| Seq::new(self.channels as nat, |c: int|
            Seq::new(self.modes.0 as nat, |kx: int| Seq::new(self.modes.1 as nat, |ky: int|
                (ctx.expr_of(self.r_at(o, c, kx, ky).0), ctx.expr_of(self.r_at(o, c, kx, ky).1))))))
    }

    pub proof fn lemma_stable(self, ctx: Context, older: Context)
        requires
            self.wf(older),
            ctx.extends(older),
        ensures
            self.wf(ctx),
            self.residual.model(ctx) == self.residual.model(older),
            self.spectral_model(ctx) == self.spectral_model(older),
    {
        self.residual.lemma_stable(ctx, older);
        ctx.lemma_extends(older);
        assert forall|o: int, c: int, kx: int, ky: int| self.in_r(o, c, kx, ky)
            implies ctx.contains(#[trigger] self.r_at(o, c, kx, ky).0) && ctx.contains(self.r_at(o, c, kx, ky).1)
            && ctx.expr_of(self.r_at(o, c, kx, ky).0) == older.expr_of(self.r_at(o, c, kx, ky).0)
            && ctx.expr_of(self.r_at(o, c, kx, ky).1) == older.expr_of(self.r_at(o, c, kx, ky).1) by {
            assert(older.contains(self.r_at(o, c, kx, ky).0));
            assert(older.contains(self.r_at(o, c, kx, ky).1));
        }
        assert(self.spectral_model(ctx) =~= self.spectral_model(older)) by {
            assert forall|o: int| 0 <= o < self.channels implies #[trigger] self.spectral_model(ctx)[o] == self.spectral_model(older)[o] by {
                assert(self.spectral_model(ctx)[o] =~= self.spectral_model(older)[o]) by {
                    assert forall|c: int| 0 <= c < self.channels implies #[trigger] self.spectral_model(ctx)[o][c] == self.spectral_model(older)[o][c] by {
                        assert(self.spectral_model(ctx)[o][c] =~= self.spectral_model(older)[o][c]) by {
                            assert forall|kx: int| 0 <= kx < self.modes.0 implies #[trigger] self.spectral_model(ctx)[o][c][kx] == self.spectral_model(older)[o][c][kx] by {
                                assert(self.spectral_model(ctx)[o][c][kx] =~= self.spectral_model(older)[o][c][kx]) by {
                                    assert forall|ky: int| 0 <= ky < self.modes.1 implies #[trigger] self.spectral_model(ctx)[o][c][kx][ky] == self.spectral_model(older)[o][c][kx][ky] by {
                                        assert(self.in_r(o, c, kx, ky));
                                    }
                                }
                            }
                        }
                    }
                }
            }
        }
    }
}

impl Context {
    /// Every complex variable of every channel of `f` is a node of this arena.
    pub open spec fn contains_channels(self, f: Seq<Vec<ComplexVariable>>) -> bool {
        forall|c: int| 0 <= c < f.len() ==> self.contains_all(#[trigger] f[c]@)
    }

    /// The complex expressions of every channel of `f`.
    pub open spec fn channel_exprs(self, f: Seq<Vec<ComplexVariable>>) -> Seq<Seq<CExpr>> {
        Seq::new(f.len(), |c: int| self.cexprs(f[c]@))
    }

    pub proof fn lemma_channels_stable(self, older: Context, f: Seq<Vec<ComplexVariable>>)
        requires
            self.extends(older),
            older.contains_channels(f),
        ensures
            self.contains_channels(f),
            self.channel_exprs(f) == older.channel_exprs(f),
    {
        assert forall|c: int| 0 <= c < f.len() implies self.contains_all(#[trigger] f[c]@)
            && self.cexprs(f[c]@) == older.cexprs(f[c]@) by {
            self.lemma_cexprs_stable(older, f[c]@);
        }
        assert(self.channel_exprs(f) =~= older.channel_exprs(f));
    }
}

/// Channel `c` of the point-major field `input`, as complex numbers with new zero
/// imaginary parts, transformed by the 2D FFT.
fn spectral_input_channel(ctx: &mut Context, input: &Vec<Variable>, c: usize, channels: usize, in_dims: (usize, usize))
    -> (out: Vec<ComplexVariable>)
    requires
        old(ctx).wf(),
        old(ctx).contains_vars(input@),
        c < channels,
        in_dims.0 * in_dims.1 * channels <= input@.len(),
        is_power_of_two(in_dims.0 as int),
        is_power_of_two(in_dims.1 as int),
    ensures
        final(ctx).wf(),
        final(ctx).extends(*old(ctx)),
        final(ctx).contains_all(out@),
        out@.len() == in_dims.0 * in_dims.1,
        final(ctx).cexprs(out@) == spectral_inputs(old(ctx).exprs(input@), channels as nat, in_dims)[c as int],
{
    let ghost c_in = *ctx;
    let ghost xs = ctx.exprs(input@);
    let input_len = input.len();
    proof {
        assert(in_dims.0 * in_dims.1 * channels == (in_dims.0 * in_dims.1) * channels);
        if channels > 0 {
            assert((in_dims.0 * in_dims.1) * channels >= in_dims.0 * in_dims.1) by (nonlinear_arith)
                requires channels > 0;
        }
    }
    let n = in_dims.0 * in_dims.1;
    let ghost lifted = Seq::new(n as nat, |i: int| (xs[i * channels + c], zero_expr()));
    let mut out: Vec<ComplexVariable> = Vec::new();
    for i in 0..n
        invariant
            ctx.wf(),
            ctx.extends(c_in),
            ctx.contains_vars(input@),
            ctx.exprs(input@) == xs,
            input_len == input@.len(),
            n * channels <= input@.len(),
            c < channels,
            lifted == Seq::new(n as nat, |i: int| (xs[i * channels + c], zero_expr())),
            out@.len() == i,
            ctx.contains_all(out@),
            forall|q: int| 0 <= q < i ==> #[trigger] ctx.cexprs(out@)[q] == lifted[q],
    {
        proof {
            assert(i * channels + c < n * channels) by (nonlinear_arith)
                requires i < n, c < channels;
        }
        let ghost c0 = *ctx;
        let re = input[i * channels + c];
        assert(ctx.contains(input@[i * channels + c]));
        let im = ctx.constant(Leaf::Bits(ZERO_BITS));
        proof {
            ctx.lemma_cexprs_stable(c0, out@);
            ctx.lemma_exprs_stable(c0, input@);
        }
        let ghost before = out@;
        proof {
            assert(ctx.exprs(input@)[i * channels + c] == xs[i * channels + c]);
            assert(ctx.cexpr(ComplexVariable { re, im }) == lifted[i as int]);
        }
        out.push(ComplexVariable { re, im });
        proof {
            assert forall|q: int| 0 <= q < i + 1 implies #[trigger] ctx.cexprs(out@)[q] == lifted[q] by {
                if q < i {
                    assert(out@[q] == before[q]);
                    assert(ctx.cexprs(before)[q] == lifted[q]);
                } else {
                    assert(out@[q] == ComplexVariable { re, im });
                }
            }
            assert(ctx.contains_all(out@)) by {
                assert forall|q: int| 0 <= q < out@.len() implies ctx.contains_c(#[trigger] out@[q]) by {
                    if q < i {
                        assert(out@[q] == before[q]);
                    }
                }
            }
        }
    }
    proof {
        assert(ctx.cexprs(out@) =~= lifted);
    }
    fft_2d(ctx, &mut out, in_dims.0, in_dims.1);
    out
}

/// The spectral outputs while the pairs `ys[..a]` of rows are done, and, of row pair
/// `ys[a]`, the column pairs `xs[..b]`.
pub open spec fn partial_cell(rm: SpectralModel, f_in: Seq<Seq<CExpr>>, ys: Seq<(usize, usize)>,
    xs: Seq<(usize, usize)>, width: int, channels: nat, a: int, b: int, o: int, i: int) -> CExpr
{
    if i / width == ys[a].0 && last_mode(xs.take(b), i % width) is Some {
        mix_expr(rm, f_in, o, last_mode(xs.take(b), i % width)->0 as int, ys[a].1 as int, i, channels)
    } else {
        spectral_cell(rm, f_in, ys.take(a), xs, width, channels, o, i)
    }
}

impl FourierLayer {
    /// The mode mixing of the layer: for every kept pair of modes, each output channel
    /// at that frequency is the sum over input channels of weight times input. The
    /// result is channel-major: output channel `o` at position `i` is at `o * n + i`.
    fn mix_modes(&self, ctx: &mut Context, f_inp: &Vec<Vec<ComplexVariable>>, in_dims: (usize, usize), zero: ComplexVariable)
        -> (f_out: Vec<ComplexVariable>)
        requires
            old(ctx).wf(),
            self.wf(*old(ctx)),
            f_inp@.len() == self.channels,
            forall|c: int| 0 <= c < self.channels ==> (#[trigger] f_inp@[c])@.len() == in_dims.0 * in_dims.1,
            old(ctx).contains_channels(f_inp@),
            old(ctx).contains_c(zero),
            old(ctx).cexpr(zero) == (zero_expr(), zero_expr()),
            self.channels * (in_dims.0 * in_dims.1) <= usize::MAX,
            in_dims.0 * in_dims.1 <= usize::MAX,
        ensures
            final(ctx).wf(),
            final(ctx).extends(*old(ctx)),
            f_out@.len() == self.channels * (in_dims.0 * in_dims.1),
            final(ctx).contains_all(f_out@),
            forall|q: int| 0 <= q < f_out@.len() ==> #[trigger] final(ctx).cexprs(f_out@)[q] == spectral_cell(
                self.spectral_model(*old(ctx)), old(ctx).channel_exprs(f_inp@), mode_seq(self.modes.1, in_dims.1),
                mode_seq(self.modes.0, in_dims.0), in_dims.0 as int, self.channels as nat,
                q / ((in_dims.0 * in_dims.1) as int), q % ((in_dims.0 * in_dims.1) as int)),
    {
        let ghost c_in = *ctx;
        let ghost rm = self.spectral_model(*ctx);
        let ghost f_in = ctx.channel_exprs(f_inp@);
        let cs = self.channels;
        let w = in_dims.0;
        let h = in_dims.1;
        let n = w * h;
        let ys = mode_indices(self.modes.1, h);
        let xm = mode_indices(self.modes.0, w);
        let ghost wi = w as int;
        let ghost ni = n as int;
        let mut f_out = vec![zero; cs * n];
        proof {
            assert forall|q: int| 0 <= q < f_out@.len() implies #[trigger] ctx.cexprs(f_out@)[q] == spectral_cell(
                rm, f_in, ys@.take(0), xm@, wi, cs as nat, q / ni, q % ni) by {
                assert(ys@.take(0).len() == 0);
            }
        }
        for a in 0..ys.len()
            invariant
                ctx.wf(),
                ctx.extends(c_in),
                self.wf(*ctx),
                self.spectral_model(*ctx) == rm,
                ctx.contains_channels(f_inp@),
                ctx.channel_exprs(f_inp@) == f_in,
                f_inp@.len() == cs,
                forall|c: int| 0 <= c < cs ==> (#[trigger] f_inp@[c])@.len() == n,
                cs == self.channels,
                w == in_dims.0,
                h == in_dims.1,
                n == w * h,
                wi == w,
                ni == n,
                ys@ == mode_seq(self.modes.1, h),
                xm@ == mode_seq(self.modes.0, w),
                f_out@.len() == cs * n,
                cs * n <= usize::MAX,
                ctx.contains_all(f_out@),
                forall|q: int| 0 <= q < f_out@.len() ==> #[trigger] ctx.cexprs(f_out@)[q] == spectral_cell(
                    rm, f_in, ys@.take(a as int), xm@, wi, cs as nat, q / ni, q % ni),
        {
            let (row, ky) = ys[a];
            proof {
                lemma_mode_seq_bounds(self.modes.1, h, a as int);
                assert forall|q: int| 0 <= q < f_out@.len() implies #[trigger] ctx.cexprs(f_out@)[q] == partial_cell(
                    rm, f_in, ys@, xm@, wi, cs as nat, a as int, 0, q / ni, q % ni) by {
                    assert(xm@.take(0).len() == 0);
                }
            }
            for b in 0..xm.len()
                invariant
                    ctx.wf(),
                    ctx.extends(c_in),
                    self.wf(*ctx),
                    self.spectral_model(*ctx) == rm,
                    ctx.contains_channels(f_inp@),
                    ctx.channel_exprs(f_inp@) == f_in,
                    f_inp@.len() == cs,
                    forall|c: int| 0 <= c < cs ==> (#[trigger] f_inp@[c])@.len() == n,
                    cs == self.channels,
                    w == in_dims.0,
                    h == in_dims.1,
                    n == w * h,
                    wi == w,
                    ni == n,
                    a < ys@.len(),
                    (row, ky) == ys@[a as int],
                    row < h,
                    ky < self.modes.1,
                    ys@ == mode_seq(self.modes.1, h),
                    xm@ == mode_seq(self.modes.0, w),
                    f_out@.len() == cs * n,
                    cs * n <= usize::MAX,
                    ctx.contains_all(f_out@),
                    forall|q: int| 0 <= q < f_out@.len() ==> #[trigger] ctx.cexprs(f_out@)[q] == partial_cell(
                        rm, f_in, ys@, xm@, wi, cs as nat, a as int, b as int, q / ni, q % ni),
            {
                let (col, kx) = xm[b];
                proof {
                    lemma_mode_seq_bounds(self.modes.0, w, b as int);
                    lemma_grid_join(row as int, col as int, w as int, h as int);
                    assert(w * h == n);
                }
                let i = row * w + col;
                let ghost mid = f_out@;
                for o in 0..cs
                    invariant
                        ctx.wf(),
                        ctx.extends(c_in),
                        self.wf(*ctx),
                        self.spectral_model(*ctx) == rm,
                        ctx.contains_channels(f_inp@),
                        ctx.channel_exprs(f_inp@) == f_in,
                        f_inp@.len() == cs,
                        forall|c: int| 0 <= c < cs ==> (#[trigger] f_inp@[c])@.len() == n,
                        cs == self.channels,
                        n == w * h,
                        wi == w,
                        ni == n,
                        i < n,
                        (i as int) / wi == row,
                        (i as int) % wi == col,
                        kx < self.modes.0,
                        ky < self.modes.1,
                        f_out@.len() == cs * n,
                        cs * n <= usize::MAX,
                        ctx.contains_all(f_out@),
                        forall|q: int| 0 <= q < f_out@.len() ==> #[trigger] ctx.cexprs(f_out@)[q] ==
                            if q % ni == i && q / ni < o {
                                mix_expr(rm, f_in, q / ni, kx as int, ky as int, i as int, cs as nat)
                            } else {
                                partial_cell(rm, f_in, ys@, xm@, wi, cs as nat, a as int, b as int, q / ni, q % ni)
                            },
                {
                    let ghost c_o = *ctx;
                    let s_re = ctx.constant(Leaf::Bits(ZERO_BITS));
                    let s_im = ctx.constant(Leaf::Bits(ZERO_BITS));
                    let mut sum = ComplexVariable { re: s_re, im: s_im };
                    proof {
                        ctx.lemma_extends(c_o);
                        self.lemma_stable(*ctx, c_o);
                        ctx.lemma_channels_stable(c_o, f_inp@);
                        ctx.lemma_cexprs_stable(c_o, f_out@);
                    }
                    for c in 0..cs
                        invariant
                            ctx.wf(),
                            ctx.extends(c_in),
                            ctx.extends(c_o),
                            self.wf(*ctx),
                            self.spectral_model(*ctx) == rm,
                            ctx.contains_channels(f_inp@),
                            ctx.channel_exprs(f_inp@) == f_in,
                            f_inp@.len() == cs,
                            forall|c: int| 0 <= c < cs ==> (#[trigger] f_inp@[c])@.len() == n,
                            cs == self.channels,
                            o < cs,
                            i < n,
                            kx < self.modes.0,
                            ky < self.modes.1,
                            ctx.contains_c(sum),
                            ctx.cexpr(sum) == mix_expr(rm, f_in, o as int, kx as int, ky as int, i as int, c as nat),
                    {
                        let ghost c_c = *ctx;
                        proof {
                            assert(self.in_r(o as int, c as int, kx as int, ky as int));
                            assert(self.r@[o as int]@.len() == cs);
                            assert(self.r@[o as int]@[c as int]@.len() == self.modes.0);
                            assert(self.r@[o as int]@[c as int]@[kx as int]@.len() == self.modes.1);
                        }
                        let (re, im) = self.r[o][c][kx][ky];
                        let weight = ComplexVariable { re, im };
                        proof {
                            assert(ctx.contains(self.r_at(o as int, c as int, kx as int, ky as int).0));
                            assert(ctx.cexpr(weight) == rm[o as int][c as int][kx as int][ky as int]);
                            assert(ctx.contains_all(f_inp@[c as int]@));
                            assert(ctx.cexprs(f_inp@[c as int]@)[i as int] == f_in[c as int][i as int]);
                        }
                        let x = f_inp[c][i];
                        let prod = weight.mul(x, ctx);
                        let ghost c_p = *ctx;
                        proof { ctx.lemma_cexpr_stable(c_c, sum); }
                        sum = sum.add(prod, ctx);
                        proof {
                            ctx.lemma_extends(c_p);
                            self.lemma_stable(*ctx, c_c);
                            ctx.lemma_channels_stable(c_c, f_inp@);
                        }
                    }
                    proof {
                        ctx.lemma_cexprs_stable(c_o, f_out@);
                        lemma_grid_join(o as int, i as int, n as int, cs as int);
                        assert(o * n + i < cs * n) by (nonlinear_arith)
                            requires o < cs, i < n;
                    }
                    let ghost before = f_out@;
                    f_out.set(o * n + i, sum);
                    proof {
                        assert forall|q: int| 0 <= q < f_out@.len() implies #[trigger] ctx.cexprs(f_out@)[q] ==
                            if q % ni == i && q / ni < o + 1 {
                                mix_expr(rm, f_in, q / ni, kx as int, ky as int, i as int, cs as nat)
                            } else {
                                partial_cell(rm, f_in, ys@, xm@, wi, cs as nat, a as int, b as int, q / ni, q % ni)
                            } by {
                            if q != o * n + i {
                                lemma_grid_split(q, ni, cs as int);
                                assert(f_out@[q] == before[q]);
                                assert(ctx.cexprs(before)[q] == c_o.cexprs(before)[q]);
                                if q % ni == i {
                                    assert(q / ni != o);
                                }
                            }
                        }
                        assert(ctx.contains_all(f_out@)) by {
                            assert forall|q: int| 0 <= q < f_out@.len() implies ctx.contains_c(#[trigger] f_out@[q]) by {
                                if q != o * n + i {
                                    assert(f_out@[q] == before[q]);
                                }
                            }
                        }
                    }
                }
                proof {
                    lemma_last_mode_take(xm@, b as int, col as int);
                    assert forall|q: int| 0 <= q < f_out@.len() implies #[trigger] ctx.cexprs(f_out@)[q] == partial_cell(
                        rm, f_in, ys@, xm@, wi, cs as nat, a as int, b + 1, q / ni, q % ni) by {
                        lemma_grid_split(q, ni, cs as int);
                        let ii = q % ni;
                        lemma_grid_split(ii, wi, h as int);
                        lemma_last_mode_take(xm@, b as int, ii % wi);
                        if ii == i {
                        } else if ii / wi == row {
                            if ii % wi == col {
                                assert(ii == (ii / wi) * wi + ii % wi);
                                assert(false);
                            }
                        }
                    }
                }
            }
            proof {
                assert(xm@.take(xm@.len() as int) =~= xm@);
                lemma_last_mode_take(ys@, a as int, row as int);
                assert forall|q: int| 0 <= q < f_out@.len() implies #[trigger] ctx.cexprs(f_out@)[q] == spectral_cell(
                    rm, f_in, ys@.take(a + 1), xm@, wi, cs as nat, q / ni, q % ni) by {
                    let ii = q % ni;
                    lemma_grid_split(q, ni, cs as int);
                    lemma_last_mode_take(ys@, a as int, ii / wi);
                }
            }
        }
        proof {
            assert(ys@.take(ys@.len() as int) =~= ys@);
        }
        f_out
    }
}

impl FourierLayer {
    /// The forward pass over a field of `in_dims.0 * in_dims.1` points with `channels`
    /// channels each, stored point-major: ReLU of the residual linear map plus the real
    /// part of the inverse transform of the mixed low modes of the transformed input.
    pub fn forward(&self, ctx: &mut Context, in_dims: (usize, usize), input: &Vec<Variable>) -> (ret: Vec<Variable>)
        requires
            old(ctx).wf(),
            self.wf(*old(ctx)),
            old(ctx).contains_vars(input@),
            is_power_of_two(in_dims.0 as int),
            is_power_of_two(in_dims.1 as int),
            in_dims.0 * in_dims.1 <= usize::MAX,
            in_dims.0 * in_dims.1 * self.channels <= input@.len(),
        ensures
            final(ctx).wf(),
            final(ctx).extends(*old(ctx)),
            final(ctx).contains_vars(ret@),
            ret@.len() == in_dims.0 * in_dims.1 * self.channels,
            final(ctx).exprs(ret@) == fourier_spec(self.residual.model(*old(ctx)), self.spectral_model(*old(ctx)),
                self.channels as nat, self.modes, in_dims, old(ctx).exprs(input@)),
    {
        let ghost c_in = *ctx;
        let ghost xs = ctx.exprs(input@);
        let cs = self.channels;
        let w = in_dims.0;
        let h = in_dims.1;
        let input_len = input.len();
        proof {
            assert(w * h * cs == (w * h) * cs);
            assert((w * h) * cs == cs * (w * h)) by (nonlinear_arith);
        }
        let n = w * h;
        proof {
            vstd::arithmetic::power2::lemma_pow2_pos(crate::calculations::fft::log2(w as int));
            vstd::arithmetic::power2::lemma_pow2_pos(crate::calculations::fft::log2(h as int));
            assert(n > 0) by (nonlinear_arith)
                requires n == w * h, w > 0, h > 0;
        }
        let ghost spec = fourier_spec(self.residual.model(*ctx), self.spectral_model(*ctx), cs as nat, self.modes, in_dims, xs);
        let ghost res = linear_spec(self.residual.model(*ctx), cs as nat, cs as nat, n as nat, xs);
        let w_val = self.residual.forward(ctx, in_dims, input);
        proof {
            self.lemma_stable(*ctx, c_in);
            ctx.lemma_exprs_stable(c_in, input@);
        }
        let ghost c_z = *ctx;
        // the initial fill of the spectral buffers
        let _fill = ComplexVariable::zero(ctx);
        proof {
            self.lemma_stable(*ctx, c_z);
            ctx.lemma_exprs_stable(c_z, input@);
            ctx.lemma_exprs_stable(c_z, w_val@);
        }
        let ghost f_in = spectral_inputs(xs, cs as nat, in_dims);
        let mut f_inp: Vec<Vec<ComplexVariable>> = Vec::new();
        for c in 0..cs
            invariant
                ctx.wf(),
                ctx.extends(c_in),
                self.wf(*ctx),
                self.residual.model(*ctx) == self.residual.model(c_in),
                self.spectral_model(*ctx) == self.spectral_model(c_in),
                cs == self.channels,
                n == w * h,
                w == in_dims.0,
                h == in_dims.1,
                n * cs <= input@.len(),
                is_power_of_two(in_dims.0 as int),
                is_power_of_two(in_dims.1 as int),
                ctx.contains_vars(input@),
                ctx.exprs(input@) == xs,
                ctx.contains_vars(w_val@),
                ctx.exprs(w_val@) == res,
                f_in == spectral_inputs(xs, cs as nat, in_dims),
                f_inp@.len() == c,
                forall|k: int| 0 <= k < c ==> (#[trigger] f_inp@[k])@.len() == n,
                ctx.contains_channels(f_inp@),
                forall|k: int| 0 <= k < c ==> #[trigger] ctx.channel_exprs(f_inp@)[k] == f_in[k],
        {
            let ghost c0 = *ctx;
            let line = spectral_input_channel(ctx, input, c, cs, in_dims);
            proof {
                self.lemma_stable(*ctx, c0);
                ctx.lemma_exprs_stable(c0, input@);
                ctx.lemma_exprs_stable(c0, w_val@);
                ctx.lemma_channels_stable(c0, f_inp@);
            }
            let ghost before = f_inp@;
            f_inp.push(line);
            proof {
                assert forall|k: int| 0 <= k < c + 1 implies #[trigger] ctx.channel_exprs(f_inp@)[k] == f_in[k] by {
                    if k < c {
                        assert(f_inp@[k] == before[k]);
                        assert(ctx.channel_exprs(before)[k] == f_in[k]);
                    }
                }
                assert(ctx.contains_channels(f_inp@)) by {
                    assert forall|k: int| 0 <= k < f_inp@.len() implies ctx.contains_all(#[trigger] f_inp@[k]@) by {
                        if k < c {
                            assert(f_inp@[k] == before[k]);
                        }
                    }
                }
                assert forall|k: int| 0 <= k < c + 1 implies (#[trigger] f_inp@[k])@.len() == n by {
                    if k < c {
                        assert(f_inp@[k] == before[k]);
                    }
                }
            }
        }
        proof {
            assert(ctx.channel_exprs(f_inp@) =~= f_in);
        }
        let ghost c_z2 = *ctx;
        let zero_cell = ComplexVariable::zero(ctx);
        proof {
            self.lemma_stable(*ctx, c_z2);
            ctx.lemma_exprs_stable(c_z2, input@);
            ctx.lemma_exprs_stable(c_z2, w_val@);
            ctx.lemma_channels_stable(c_z2, f_inp@);
            assert(cs * n <= usize::MAX) by (nonlinear_arith)
                requires n * cs <= input_len, input_len <= usize::MAX;
        }
        let ghost c_mix = *ctx;
        let f_out = self.mix_modes(ctx, &f_inp, in_dims, zero_cell);
        let ghost ni = n as int;
        let ghost ys = mode_seq(self.modes.1, h);
        let ghost xm = mode_seq(self.modes.0, w);
        let ghost rm = self.spectral_model(c_in);
        let ghost g = Seq::new(cs as nat, |o: int| transform_2d(
            Seq::new(n as nat, |i: int| spectral_cell(rm, f_in, ys, xm, w as int, cs as nat, o, i)),
            w as int, h as int, Transform::Inverse,
        ));
        proof {
            ctx.lemma_exprs_stable(c_mix, w_val@);
        }
        let ghost c_r = *ctx;
        let zero = ctx.constant(Leaf::Bits(ZERO_BITS));
        let mut ret = vec![zero; n * cs];
        proof {
            ctx.lemma_exprs_stable(c_r, w_val@);
            ctx.lemma_cexprs_stable(c_r, f_out@);
            assert forall|p: int| 0 <= p < n * cs && p % (cs as int) < 0 implies #[trigger] ctx.exprs(ret@)[p] == spec[p] by {
                if cs == 0 {
                    assert(n * cs == 0);
                } else {
                    vstd::arithmetic::div_mod::lemma_mod_pos_bound(p, cs as int);
                }
            }
        }
        for o in 0..cs
            invariant
                ctx.wf(),
                ctx.extends(c_in),
                cs == self.channels,
                n == w * h,
                ni == n,
                w == in_dims.0,
                h == in_dims.1,
                is_power_of_two(in_dims.0 as int),
                is_power_of_two(in_dims.1 as int),
                n * cs <= input@.len(),
                n > 0,
                input_len == input@.len(),
                cs * n <= usize::MAX,
                f_out@.len() == cs * n,
                ctx.contains_all(f_out@),
                forall|q: int| 0 <= q < f_out@.len() ==> #[trigger] ctx.cexprs(f_out@)[q] == spectral_cell(
                    rm, f_in, ys, xm, w as int, cs as nat, q / ni, q % ni),
                g == Seq::new(cs as nat, |o: int| transform_2d(
                    Seq::new(n as nat, |i: int| spectral_cell(rm, f_in, ys, xm, w as int, cs as nat, o, i)),
                    w as int, h as int, Transform::Inverse,
                )),
                w_val@.len() == n * cs,
                ctx.contains_vars(w_val@),
                ctx.exprs(w_val@) == res,
                res.len() == n * cs,
                spec == Seq::new((n * cs) as nat, |p: int| Expr::Relu(Box::new(Expr::Add(
                    Box::new(res[p]), Box::new(g[p % (cs as int)][p / (cs as int)].0))))),
                ret@.len() == n * cs,
                ctx.contains_vars(ret@),
                forall|p: int| 0 <= p < n * cs && p % (cs as int) < o ==> #[trigger] ctx.exprs(ret@)[p] == spec[p],
        {
            proof {
                lemma_grid_join(o as int, 0, n as int, cs as int);
                if n > 0 {
                    lemma_grid_join(o as int, n - 1, n as int, cs as int);
                }
            }
            let ghost c0 = *ctx;
            let mut line = gather(&f_out, o * n, 1, n);
            let ghost cells = Seq::new(n as nat, |i: int| spectral_cell(rm, f_in, ys, xm, w as int, cs as nat, o as int, i));
            proof {
                assert(ctx.contains_all(line@)) by {
                    assert forall|i: int| 0 <= i < n implies ctx.contains_c(#[trigger] line@[i]) by {
                        assert(line@[i] == f_out@[o * n + i * 1]);
                    }
                }
                assert(ctx.cexprs(line@) =~= cells) by {
                    assert forall|i: int| 0 <= i < n implies #[trigger] ctx.cexprs(line@)[i] == cells[i] by {
                        assert(line@[i] == f_out@[o * n + i * 1]);
                        lemma_grid_join(o as int, i, n as int, cs as int);
                        assert(ctx.cexprs(f_out@)[o * n + i] == spectral_cell(rm, f_in, ys, xm, w as int, cs as nat, o as int, i));
                    }
                }
            }
            ifft_2d(ctx, &mut line, w, h);
            proof {
                ctx.lemma_exprs_stable(c0, w_val@);
                ctx.lemma_exprs_stable(c0, ret@);
                ctx.lemma_cexprs_stable(c0, f_out@);
                assert(ctx.cexprs(line@) == g[o as int]);
            }
            for i in 0..n
                invariant
                    ctx.wf(),
                    ctx.extends(c_in),
                    cs == self.channels,
                    o < cs,
                    n * cs <= input@.len(),
                    cs * n <= usize::MAX,
                    input_len == input@.len(),
                    line@.len() == n,
                    ctx.contains_all(line@),
                    ctx.cexprs(line@) == g[o as int],
                    f_out@.len() == cs * n,
                    ctx.contains_all(f_out@),
                    forall|q: int| 0 <= q < f_out@.len() ==> #[trigger] ctx.cexprs(f_out@)[q] == spectral_cell(
                        rm, f_in, ys, xm, w as int, cs as nat, q / ni, q % ni),
                    w_val@.len() == n * cs,
                    ctx.contains_vars(w_val@),
                    ctx.exprs(w_val@) == res,
                    spec == Seq::new((n * cs) as nat, |p: int| Expr::Relu(Box::new(Expr::Add(
                        Box::new(res[p]), Box::new(g[p % (cs as int)][p / (cs as int)].0))))),
                    ret@.len() == n * cs,
                    ctx.contains_vars(ret@),
                    forall|p: int| 0 <= p < n * cs && (p % (cs as int) < o || (p % (cs as int) == o && p / (cs as int) < i))
                        ==> #[trigger] ctx.exprs(ret@)[p] == spec[p],
            {
                proof {
                    lemma_grid_join(i as int, o as int, cs as int, n as int);
                    assert(cs * n == n * cs) by (nonlinear_arith);
                }
                let idx = i * cs + o;
                let ghost c1 = *ctx;
                assert(ctx.contains(w_val@[idx as int]));
                assert(ctx.contains_c(line@[i as int]));
                let spectral_re = line[i].re;
                let sum = ctx.add(w_val[idx], spectral_re);
                let ghost c2 = *ctx;
                proof { c2.lemma_extends(c1); }
                let out = ctx.relu(sum);
                proof {
                    ctx.lemma_extends(c2);
                    ctx.lemma_exprs_stable(c1, w_val@);
                    ctx.lemma_exprs_stable(c1, ret@);
                    ctx.lemma_cexprs_stable(c1, line@);
                    ctx.lemma_cexprs_stable(c1, f_out@);
                    assert(ctx.cexprs(line@)[i as int] == g[o as int][i as int]);
                    assert(ctx.expr_of(out) == spec[idx as int]);
                }
                let ghost before = ret@;
                ret.set(idx, out);
                proof {
                    assert forall|p: int| 0 <= p < n * cs && (p % (cs as int) < o || (p % (cs as int) == o && p / (cs as int) < i + 1))
                        implies #[trigger] ctx.exprs(ret@)[p] == spec[p] by {
                        if p != idx {
                            lemma_grid_split(p, cs as int, n as int);
                            assert(ret@[p] == before[p]);
                            assert(ctx.exprs(before)[p] == c1.exprs(before)[p]);
                        }
                    }
                    assert(ctx.contains_vars(ret@)) by {
                        assert forall|p: int| 0 <= p < ret@.len() implies ctx.contains(#[trigger] ret@[p]) by {
                            if p != idx {
                                assert(ret@[p] == before[p]);
                            }
                        }
                    }
                }
            }
            proof {
                assert forall|p: int| 0 <= p < n * cs && p % (cs as int) < o + 1 implies #[trigger] ctx.exprs(ret@)[p] == spec[p] by {
                    lemma_grid_split(p, cs as int, n as int);
                    assert(cs * n == n * cs) by (nonlinear_arith);
                }
            }
        }
        proof {
            assert(ctx.exprs(ret@) =~= spec) by {
                assert forall|p: int| 0 <= p < n * cs implies #[trigger] ctx.exprs(ret@)[p] == spec[p] by {
                    if cs == 0 {
                        assert(n * cs == 0);
                    }
                    lemma_grid_split(p, cs as int, n as int);
                    assert(cs * n == n * cs) by (nonlinear_arith);
                }
            }
        }
        ret
    }
}

/// The sequences of `s`, one after the other.
pub open spec fn concat<T>(s: Seq<Seq<T>>) -> Seq<T>
    decreases s.len(),
{
    if s.len() == 0 {
        Seq::empty()
    } else {
        concat(s.drop_last()) + s.last()
    }
}

pub proof fn lemma_concat_take<T>(s: Seq<Seq<T>>, k: int)
    requires
        0 <= k < s.len(),
    ensures
        concat(s.take(k + 1)) == concat(s.take(k)) + s[k],
{
    assert(s.take(k + 1).drop_last() =~= s.take(k));
}

pub proof fn lemma_concat_full<T>(s: Seq<Seq<T>>)
    ensures
        concat(s.take(s.len() as int)) == concat(s),
{
    assert(s.take(s.len() as int) =~= s);
}

/// Concatenating `k` rows of length `len`: item `q` of row `o` is at `o * len + q`.
pub proof fn lemma_concat_rows<T>(s: Seq<Seq<T>>, len: nat)
    requires
        forall|o: int| 0 <= o < s.len() ==> (#[trigger] s[o]).len() == len,
    ensures
        concat(s).len() == s.len() * len,
        forall|o: int, q: int| 0 <= o < s.len() && 0 <= q < len ==> #[trigger] concat(s)[o * len + q] == s[o][q],
    decreases s.len(),
{
    if s.len() > 0 {
        let t = s.drop_last();
        lemma_concat_rows(t, len);
        assert((t.len() + 1) * len == t.len() * len + len) by (nonlinear_arith);
        assert forall|o: int, q: int| 0 <= o < s.len() && 0 <= q < len implies #[trigger] concat(s)[o * len + q] == s[o][q] by {
            if o < t.len() {
                assert(o * len + q < t.len() * len) by (nonlinear_arith)
                    requires o < t.len(), q < len;
                assert(concat(s)[o * len + q] == concat(t)[o * len + q]);
                assert(concat(t)[o * len + q] == t[o][q]);
            } else {
                assert(o * len == t.len() * len);
            }
        }
    }
}

/// The bit patterns `w` as constant expressions: the values of nodes holding them.
pub open spec fn bits_exprs(w: Seq<u32>) -> Seq<Expr> {
    Seq::new(w.len(), |i: int| Expr::Const(Leaf::Bits(w[i])))
}

/// New input nodes at positions `base, base + 1, ...` holding the bit patterns `w`.
pub open spec fn fresh_leaves(base: int, w: Seq<u32>) -> Seq<Expr> {
    Seq::new(w.len(), |i: int| Expr::Var((base + i) as usize, Leaf::Bits(w[i])))
}

pub proof fn lemma_fresh_leaves_append(base: int, a: Seq<u32>, b: Seq<u32>)
    ensures
        fresh_leaves(base, a + b) == fresh_leaves(base, a) + fresh_leaves(base + a.len(), b),
{
    assert(fresh_leaves(base, a + b) =~= fresh_leaves(base, a) + fresh_leaves(base + a.len(), b));
}

pub proof fn lemma_fresh_as_leaves(base: int, w: Seq<u32>)
    ensures
        fresh_leaves(base, w) == leaves_at(id_range(base, w.len()), w),
{
    assert(fresh_leaves(base, w) =~= leaves_at(id_range(base, w.len()), w));
}

impl Context {
    /// Variables whose expressions are the new input nodes from `base` on sit at
    /// positions `base, base + 1, ...`.
    pub proof fn lemma_fresh_ids(self, vars: Seq<Variable>, base: int, w: Seq<u32>)
        requires
            self.contains_vars(vars),
            0 <= base,
            base + w.len() <= usize::MAX,
            self.exprs(vars) == fresh_leaves(base, w),
        ensures
            vars.len() == w.len(),
            forall|k: int| 0 <= k < vars.len() ==> (#[trigger] vars[k]).id_spec() == base + k,
            forall|k: int| 0 <= k < vars.len() ==> self@[(#[trigger] vars[k]).id_spec() as int] == Node::Input(Leaf::Bits(w[k])),
    {
        assert(self.exprs(vars).len() == vars.len());
        assert(fresh_leaves(base, w).len() == w.len());
        assert forall|k: int| 0 <= k < vars.len() implies (#[trigger] vars[k]).id_spec() == base + k
            && self@[vars[k].id_spec() as int] == Node::Input(Leaf::Bits(w[k])) by {
            assert(self.exprs(vars)[k] == self.expr_of(vars[k]));
            assert(fresh_leaves(base, w)[k] == Expr::Var((base + k) as usize, Leaf::Bits(w[k])));
            assert(self.contains(vars[k]));
            self.lemma_var_node(vars[k], (base + k) as usize, Leaf::Bits(w[k]));
        }
    }
}

impl LinearLayer {
    /// The weights in the order in which they are collected: `w[0][0], w[0][1], ...`.
    pub open spec fn vars(self) -> Seq<Variable> {
        concat(self.weights())
    }

    /// Appends the weights to `vars`, row by row.
    pub fn collect_weights(&self, vars: &mut Vec<Variable>)
        ensures
            final(vars)@ == old(vars)@ + self.vars(),
    {
        let ghost start = vars@;
        let rows = self.w.len();
        for o in 0..rows
            invariant
                rows == self.w@.len(),
                vars@ == start + concat(self.weights().take(o as int)),
        {
            let ghost mid = vars@;
            let row = &self.w[o];
            let cols = row.len();
            for c in 0..cols
                invariant
                    cols == row@.len(),
                    row@ == self.w@[o as int]@,
                    vars@ == mid + row@.take(c as int),
            {
                vars.push(row[c]);
                proof {
                    assert(row@.take(c + 1) =~= row@.take(c as int).push(row@[c as int]));
                }
            }
            proof {
                assert(row@.take(cols as int) =~= row@);
                lemma_concat_take(self.weights(), o as int);
                assert(self.weights()[o as int] == row@);
            }
        }
        proof {
            lemma_concat_full(self.weights());
        }
    }

    /// A layer mapping `channels.0` to `channels.1` channels whose weights are new input
    /// nodes holding `weights`, read row by row.
    pub fn from_weights(ctx: &mut Context, channels: (usize, usize), weights: &[u32]) -> (layer: LinearLayer)
        requires
            old(ctx).wf(),
            weights@.len() == channels.0 * channels.1,
        ensures
            final(ctx).wf(),
            final(ctx).extends(*old(ctx)),
            layer.channels == channels,
            layer.wf(*final(ctx)),
            final(ctx).contains_vars(layer.vars()),
            final(ctx)@.len() == old(ctx)@.len() + weights@.len(),
            final(ctx).exprs(layer.vars()) == fresh_leaves(old(ctx)@.len() as int, weights@),
            forall|k: int| 0 <= k < layer.vars().len() ==> (#[trigger] layer.vars()[k]).id_spec() == old(ctx)@.len() + k,
    {
        let ghost c_in = *ctx;
        let mut w: Vec<Vec<Variable>> = Vec::new();
        let mut off: usize = 0;
        let wlen = weights.len();
        proof {
            assert(channels.0 * channels.1 == channels.1 * channels.0) by (nonlinear_arith);
            assert(0 * (channels.0 as int) == 0) by (nonlinear_arith);
        }
        for o in 0..channels.1
            invariant
                ctx.wf(),
                ctx.extends(c_in),
                weights@.len() == channels.1 * channels.0,
                wlen == weights@.len(),
                off == o * channels.0,
                w@.len() == o,
                forall|k: int| 0 <= k < o ==> (#[trigger] w@[k])@.len() == channels.0,
                forall|k: int| 0 <= k < o ==> ctx.contains_vars(#[trigger] w@[k]@),
                ctx@.len() == c_in@.len() + off,
                ctx.exprs(concat(Seq::new(w@.len(), |k: int| w@[k]@))) == fresh_leaves(c_in@.len() as int, weights@.take(off as int)),
        {
            proof {
                assert(off + channels.0 <= weights@.len()) by (nonlinear_arith)
                    requires off == o * channels.0, o < channels.1, weights@.len() == channels.1 * channels.0;
            }
            let ghost c_row = *ctx;
            let ghost rows_before = Seq::new(w@.len(), |k: int| w@[k]@);
            let mut row: Vec<Variable> = Vec::new();
            for c in 0..channels.0
                invariant
                    ctx.wf(),
                    ctx.extends(c_in),
                    ctx.extends(c_row),
                    off + channels.0 <= weights@.len(),
                    wlen == weights@.len(),
                    row@.len() == c,
                    ctx.contains_vars(row@),
                    ctx@.len() == c_in@.len() + off + c,
                    ctx.exprs(row@) == fresh_leaves(c_in@.len() + off, weights@.subrange(off as int, off + c)),
            {
                let ghost c0 = *ctx;
                let ghost row_before = row@;
                let v = ctx.variable(weights[off + c]);
                proof {
                    ctx.lemma_exprs_stable(c0, row@);
                }
                row.push(v);
                proof {
                    assert(ctx.exprs(row@) =~= fresh_leaves(c_in@.len() + off, weights@.subrange(off as int, off + c + 1))) by {
                        assert forall|q: int| 0 <= q < c + 1 implies #[trigger] ctx.exprs(row@)[q] == fresh_leaves(c_in@.len() + off, weights@.subrange(off as int, off + c + 1))[q] by {
                            if q < c {
                                assert(row@[q] == row_before[q]);
                                assert(ctx.exprs(row@)[q] == ctx.exprs(row_before)[q]);
                                assert(c0.exprs(row_before)[q] == fresh_leaves(c_in@.len() + off, weights@.subrange(off as int, off + c))[q]);
                            }
                        }
                    }
                    assert(ctx.contains_vars(row@)) by {
                        assert forall|q: int| 0 <= q < row@.len() implies ctx.contains(#[trigger] row@[q]) by {
                            if q < c {
                                assert(row@[q] == row@.drop_last()[q]);
                            }
                        }
                    }
                }
            }
            proof {
                ctx.lemma_extends(c_row);
                assert forall|k: int| 0 <= k < o implies ctx.contains_vars(#[trigger] w@[k]@) && ctx.exprs(w@[k]@) == c_row.exprs(w@[k]@) by {
                    ctx.lemma_exprs_stable(c_row, w@[k]@);
                }
                assert(forall|k: int| 0 <= k < rows_before.len() ==> c_row.contains_vars(#[trigger] rows_before[k]));
                lemma_concat_contains(c_row, rows_before);
                ctx.lemma_exprs_stable(c_row, concat(rows_before));
            }
            let ghost before = w@;
            w.push(row);
            proof {
                let rows = Seq::new(w@.len(), |k: int| w@[k]@);
                assert(rows.drop_last() =~= rows_before);
                assert(rows.last() == row@);
                assert(concat(rows) == concat(rows_before) + row@);
                assert(weights@.take(off + channels.0) =~= weights@.take(off as int) + weights@.subrange(off as int, off + channels.0));
                lemma_exprs_append(*ctx, concat(rows_before), row@);
                lemma_fresh_leaves_append(c_in@.len() as int, weights@.take(off as int), weights@.subrange(off as int, off + channels.0));
                assert(ctx.exprs(concat(rows)) == fresh_leaves(c_in@.len() as int, weights@.take(off + channels.0)));
                assert forall|k: int| 0 <= k < o + 1 implies (#[trigger] w@[k])@.len() == channels.0 && ctx.contains_vars(w@[k]@) by {
                    if k < o {
                        assert(w@[k] == before[k]);
                    }
                }
                assert(off + channels.0 == (o + 1) * channels.0) by (nonlinear_arith)
                    requires off == o * channels.0;
            }
            off = off + channels.0;
        }
        let layer = LinearLayer { channels, w };
        let n_after = ctx.len();
        proof {
            assert(layer.weights() =~= Seq::new(w@.len(), |k: int| w@[k]@));
            assert(weights@.take(off as int) =~= weights@);
            lemma_concat_contains(*ctx, layer.weights());
            ctx.lemma_fresh_ids(layer.vars(), c_in@.len() as int, weights@);
        }
        layer
    }
}

pub proof fn lemma_exprs_append(ctx: Context, a: Seq<Variable>, b: Seq<Variable>)
    ensures
        ctx.exprs(a + b) == ctx.exprs(a) + ctx.exprs(b),
{
    assert(ctx.exprs(a + b) =~= ctx.exprs(a) + ctx.exprs(b));
}

/// Every variable of the concatenation of rows held by an arena is held by it.
pub proof fn lemma_concat_contains(ctx: Context, rows: Seq<Seq<Variable>>)
    requires
        forall|k: int| 0 <= k < rows.len() ==> ctx.contains_vars(#[trigger] rows[k]),
    ensures
        ctx.contains_vars(concat(rows)),
    decreases rows.len(),
{
    if rows.len() > 0 {
        lemma_concat_contains(ctx, rows.drop_last());
        let a = concat(rows.drop_last());
        assert(ctx.contains_vars(rows[rows.len() - 1]));
        assert forall|i: int| 0 <= i < concat(rows).len() implies ctx.contains(#[trigger] concat(rows)[i]) by {
            if i < a.len() {
                assert(concat(rows)[i] == a[i]);
            } else {
                assert(concat(rows)[i] == rows.last()[i - a.len()]);
            }
        }
    }
}

/// The item sequences `f(x[0]), f(x[1]), ...`, one after the other.
pub open spec fn concat_map<A, B>(x: Seq<A>, f: spec_fn(A) -> Seq<B>) -> Seq<B> {
    concat(Seq::new(x.len(), |i: int| f(x[i])))
}

pub proof fn lemma_concat_append<T>(a: Seq<Seq<T>>, b: Seq<Seq<T>>)
    ensures
        concat(a + b) == concat(a) + concat(b),
    decreases b.len(),
{
    if b.len() == 0 {
        assert(a + b =~= a);
        assert(concat(a) + concat(b) =~= concat(a));
    } else {
        lemma_concat_append(a, b.drop_last());
        assert((a + b).drop_last() =~= a + b.drop_last());
        assert(concat(a + b) =~= concat(a) + concat(b));
    }
}

pub proof fn lemma_concat_map_append<A, B>(x: Seq<A>, y: Seq<A>, f: spec_fn(A) -> Seq<B>)
    ensures
        concat_map(x + y, f) == concat_map(x, f) + concat_map(y, f),
{
    assert(Seq::new((x + y).len(), |i: int| f((x + y)[i]))
        =~= Seq::new(x.len(), |i: int| f(x[i])) + Seq::new(y.len(), |i: int| f(y[i])));
    lemma_concat_append(Seq::new(x.len(), |i: int| f(x[i])), Seq::new(y.len(), |i: int| f(y[i])));
}

/// Cutting `v` into `count` pieces of `size` items and mapping each piece with a
/// concatenating map gives the map of the whole.
pub proof fn lemma_concat_map_chunks<A, B>(v: Seq<A>, size: nat, count: nat, f: spec_fn(A) -> Seq<B>)
    requires
        v.len() == count * size,
    ensures
        concat(Seq::new(count, |i: int| concat_map(v.subrange(i * size, i * size + size), f))) == concat_map(v, f),
    decreases count,
{
    let pieces = Seq::new(count, |i: int| concat_map(v.subrange(i * size, i * size + size), f));
    if count == 0 {
        assert(count * size == 0) by (nonlinear_arith)
            requires count == 0;
        assert(v =~= Seq::<A>::empty());
        assert(concat_map(v, f) =~= Seq::<B>::empty()) by {
            assert(Seq::new(v.len(), |i: int| f(v[i])) =~= Seq::<Seq<B>>::empty());
        }
    } else {
        let k = (count - 1) as nat;
        assert(k * size + size == count * size) by (nonlinear_arith)
            requires k == count - 1;
        let head = v.subrange(0, (k * size) as int);
        let tail = v.subrange((k * size) as int, (k * size + size) as int);
        assert(v =~= head + tail);
        lemma_concat_map_chunks(head, size, k, f);
        assert(pieces.drop_last() =~= Seq::new(k, |i: int| concat_map(head.subrange(i * size, i * size + size), f))) by {
            assert forall|i: int| 0 <= i < k implies #[trigger] head.subrange(i * size, i * size + size) =~= v.subrange(i * size, i * size + size) by {
                assert(i * size + size <= k * size) by (nonlinear_arith)
                    requires i < k;
                assert(0 <= i * size) by (nonlinear_arith)
                    requires 0 <= i;
            }
        }
        lemma_concat_map_append(head, tail, f);
    }
}

/// Cuts `v` into `count` consecutive pieces of `size` items.
pub fn chunk<T>(v: Vec<T>, size: usize, count: usize) -> (out: Vec<Vec<T>>)
    requires
        v@.len() == count * size,
    ensures
        out@.len() == count,
        forall|i: int| 0 <= i < count ==> (#[trigger] out@[i])@ == v@.subrange(i * size, i * size + size),
{
    let ghost orig = v@;
    let mut rest = v;
    let mut out: Vec<Vec<T>> = Vec::new();
    proof {
        assert(0 * (size as int) == 0) by (nonlinear_arith);
        assert(rest@ =~= orig.subrange(0, count * size));
    }
    for i in 0..count
        invariant
            orig.len() == count * size,
            out@.len() == i,
            i * size <= count * size,
            rest@ == orig.subrange(i * size, count * size),
            forall|k: int| 0 <= k < i ==> (#[trigger] out@[k])@ == orig.subrange(k * size, k * size + size),
    {
        proof {
            assert(i * size + size <= count * size) by (nonlinear_arith)
                requires i < count;
            assert((i + 1) * size == i * size + size) by (nonlinear_arith);
        }
        let tail = rest.split_off(size);
        let ghost before = out@;
        proof {
            assert(rest@ =~= orig.subrange(i * size, i * size + size));
            assert(tail@ =~= orig.subrange((i + 1) * size, count * size));
        }
        out.push(rest);
        rest = tail;
        proof {
            assert forall|k: int| 0 <= k < i + 1 implies (#[trigger] out@[k])@ == orig.subrange(k * size, k * size + size) by {
                if k < i {
                    assert(out@[k] == before[k]);
                }
            }
        }
    }
    out
}

pub proof fn lemma_concat_map_take<A, B>(x: Seq<A>, k: int, f: spec_fn(A) -> Seq<B>)
    requires
        0 <= k < x.len(),
    ensures
        concat_map(x.take(k + 1), f) == concat_map(x.take(k), f) + f(x[k]),
{
    assert(x.take(k + 1) =~= x.take(k) + seq![x[k]]);
    lemma_concat_map_append(x.take(k), seq![x[k]], f);
    assert(Seq::new(1, |i: int| f(seq![x[k]][i])) =~= seq![f(x[k])]);
    let one = seq![f(x[k])];
    assert(one.drop_last() =~= Seq::<Seq<B>>::empty());
    assert(concat(one.drop_last()) =~= Seq::<B>::empty());
    assert(one.last() == f(x[k]));
    assert(concat(one) =~= f(x[k]));
}

/// The consecutive pieces of `size` items of `v` make up `v`.
pub proof fn lemma_concat_subranges<A>(v: Seq<A>, size: nat, count: nat)
    requires
        v.len() == count * size,
    ensures
        concat(Seq::new(count, |i: int| v.subrange(i * size, i * size + size))) == v,
    decreases count,
{
    if count == 0 {
        assert(count * size == 0) by (nonlinear_arith)
            requires count == 0;
        assert(v =~= Seq::<A>::empty());
    } else {
        let k = (count - 1) as nat;
        assert(k * size + size == count * size) by (nonlinear_arith)
            requires k == count - 1;
        let head = v.subrange(0, (k * size) as int);
        lemma_concat_subranges(head, size, k);
        let pieces = Seq::new(count, |i: int| v.subrange(i * size, i * size + size));
        assert(pieces.drop_last() =~= Seq::new(k, |i: int| head.subrange(i * size, i * size + size))) by {
            assert forall|i: int| 0 <= i < k implies #[trigger] head.subrange(i * size, i * size + size) =~= v.subrange(i * size, i * size + size) by {
                assert(i * size + size <= k * size) by (nonlinear_arith)
                    requires i < k;
                assert(0 <= i * size) by (nonlinear_arith)
                    requires 0 <= i;
            }
        }
        assert(v =~= head + v.subrange((k * size) as int, (k * size + size) as int));
    }
}

/// The two variables of a complex weight, real part first.
pub open spec fn pair_fn() -> spec_fn((Variable, Variable)) -> Seq<Variable> {
    |p: (Variable, Variable)| seq![p.0, p.1]
}

/// The variables of a row of complex weights.
pub open spec fn row1_fn() -> spec_fn(Vec<(Variable, Variable)>) -> Seq<Variable> {
    |x: Vec<(Variable, Variable)>| concat_map(x@, pair_fn())
}

pub open spec fn row2_fn() -> spec_fn(Vec<Vec<(Variable, Variable)>>) -> Seq<Variable> {
    |x: Vec<Vec<(Variable, Variable)>>| concat_map(x@, row1_fn())
}

pub open spec fn row3_fn() -> spec_fn(Vec<Vec<Vec<(Variable, Variable)>>>) -> Seq<Variable> {
    |x: Vec<Vec<Vec<(Variable, Variable)>>>| concat_map(x@, row2_fn())
}

impl FourierLayer {
    /// The spectral weights in the order in which they are collected: by output channel,
    /// input channel, x mode, y mode, and real part before imaginary part.
    pub open spec fn spectral_vars(self) -> Seq<Variable> {
        concat_map(self.r@, row3_fn())
    }

    /// All the weights in the order in which they are collected: residual, then spectral.
    pub open spec fn vars(self) -> Seq<Variable> {
        self.residual.vars() + self.spectral_vars()
    }

    /// Appends all the weights of the layer to `vars`.
    pub fn collect_variables(&self, vars: &mut Vec<Variable>)
        ensures
            final(vars)@ == old(vars)@ + self.vars(),
    {
        let ghost start = vars@;
        self.residual.collect_weights(vars);
        let ghost after_res = vars@;
        let n0 = self.r.len();
        for o in 0..n0
            invariant
                n0 == self.r@.len(),
                vars@ == after_res + concat_map(self.r@.take(o as int), row3_fn()),
        {
            let ghost m0 = vars@;
            let r1 = &self.r[o];
            let n1 = r1.len();
            for c in 0..n1
                invariant
                    n1 == r1@.len(),
                    vars@ == m0 + concat_map(r1@.take(c as int), row2_fn()),
            {
                let ghost m1 = vars@;
                let r2 = &r1[c];
                let n2 = r2.len();
                for kx in 0..n2
                    invariant
                        n2 == r2@.len(),
                        vars@ == m1 + concat_map(r2@.take(kx as int), row1_fn()),
                {
                    let ghost m2 = vars@;
                    let r3 = &r2[kx];
                    let n3 = r3.len();
                    for ky in 0..n3
                        invariant
                            n3 == r3@.len(),
                            vars@ == m2 + concat_map(r3@.take(ky as int), pair_fn()),
                    {
                        let (re, im) = r3[ky];
                        vars.push(re);
                        vars.push(im);
                        proof {
                            lemma_concat_map_take(r3@, ky as int, pair_fn());
                            assert(vars@ =~= m2 + concat_map(r3@.take(ky + 1), pair_fn()));
                        }
                    }
                    proof {
                        lemma_concat_map_take(r2@, kx as int, row1_fn());
                        assert(r3@.take(n3 as int) =~= r3@);
                        assert(vars@ =~= m1 + concat_map(r2@.take(kx + 1), row1_fn()));
                    }
                }
                proof {
                    lemma_concat_map_take(r1@, c as int, row2_fn());
                    assert(r2@.take(n2 as int) =~= r2@);
                    assert(vars@ =~= m0 + concat_map(r1@.take(c + 1), row2_fn()));
                }
            }
            proof {
                lemma_concat_map_take(self.r@, o as int, row3_fn());
                assert(r1@.take(n1 as int) =~= r1@);
                assert(vars@ =~= after_res + concat_map(self.r@.take(o + 1), row3_fn()));
            }
        }
        proof {
            assert(self.r@.take(n0 as int) =~= self.r@);
            assert(vars@ =~= start + self.vars());
        }
    }
}

/// Position `o * c2 + k` of a `c1` by `c2` array is inside it.
pub proof fn lemma_index2(o: int, k: int, c1: int, c2: int)
    requires
        0 <= o < c1,
        0 <= k < c2,
    ensures
        0 <= o * c2 + k < c1 * c2,
{
    lemma_grid_join(o, k, c2, c1);
    assert(c2 * c1 == c1 * c2) by (nonlinear_arith);
}

/// Piece `q` of `n` pieces of `size` items lies inside the whole.
pub proof fn lemma_piece_bound(q: int, n: int, size: int)
    requires
        0 <= q < n,
        0 <= size,
    ensures
        0 <= q * size,
        q * size + size <= n * size,
{
    assert(0 <= q * size) by (nonlinear_arith)
        requires 0 <= q, 0 <= size;
    assert(q * size + size <= n * size) by (nonlinear_arith)
        requires q < n, 0 <= size;
}

/// The items `start .. start + len` of `weights`.
pub fn copy_range(weights: &[u32], start: usize, len: usize) -> (out: Vec<u32>)
    requires
        start + len <= weights@.len(),
    ensures
        out@ == weights@.subrange(start as int, start + len),
{
    let mut out: Vec<u32> = Vec::new();
    let wlen = weights.len();
    for k in 0..len
        invariant
            start + len <= weights@.len(),
            wlen == weights@.len(),
            out@ == weights@.subrange(start as int, start + k),
    {
        out.push(weights[start + k]);
        proof {
            assert(out@ =~= weights@.subrange(start as int, start + k + 1));
        }
    }
    out
}

/// New input nodes holding the bit patterns `weights[start .. start + len]`, in order.
pub fn new_inputs(ctx: &mut Context, weights: &[u32], start: usize, len: usize) -> (vars: Vec<Variable>)
    requires
        old(ctx).wf(),
        start + len <= weights@.len(),
    ensures
        final(ctx).wf(),
        final(ctx).extends(*old(ctx)),
        vars@.len() == len,
        final(ctx).contains_vars(vars@),
        final(ctx)@.len() == old(ctx)@.len() + len,
        final(ctx).exprs(vars@) == fresh_leaves(old(ctx)@.len() as int, weights@.subrange(start as int, start + len)),
        forall|k: int| 0 <= k < len ==> (#[trigger] vars@[k]).id_spec() == old(ctx)@.len() + k,
{
    let ghost c_in = *ctx;
    let mut vars: Vec<Variable> = Vec::new();
    let wlen = weights.len();
    for k in 0..len
        invariant
            ctx.wf(),
            ctx.extends(c_in),
            start + len <= weights@.len(),
            wlen == weights@.len(),
            vars@.len() == k,
            ctx.contains_vars(vars@),
            ctx@.len() == c_in@.len() + k,
            ctx.exprs(vars@) == fresh_leaves(c_in@.len() as int, weights@.subrange(start as int, start + k)),
    {
        let ghost c0 = *ctx;
        let ghost before = vars@;
        let v = ctx.variable(weights[start + k]);
        proof {
            ctx.lemma_exprs_stable(c0, vars@);
        }
        vars.push(v);
        proof {
            assert(ctx.exprs(vars@) =~= fresh_leaves(c_in@.len() as int, weights@.subrange(start as int, start + k + 1))) by {
                assert forall|q: int| 0 <= q < k + 1 implies #[trigger] ctx.exprs(vars@)[q] == fresh_leaves(c_in@.len() as int, weights@.subrange(start as int, start + k + 1))[q] by {
                    if q < k {
                        assert(vars@[q] == before[q]);
                        assert(ctx.exprs(before)[q] == c0.exprs(before)[q]);
                    }
                }
            }
            assert(ctx.contains_vars(vars@)) by {
                assert forall|q: int| 0 <= q < vars@.len() implies ctx.contains(#[trigger] vars@[q]) by {
                    if q < k {
                        assert(vars@[q] == before[q]);
                    }
                }
            }
        }
    }
    let n_after = ctx.len();
    proof {
        ctx.lemma_fresh_ids(vars@, c_in@.len() as int, weights@.subrange(start as int, start + len));
    }
    vars
}

/// Groups `flat` into `count` pairs of consecutive items.
pub fn pair_up(flat: &Vec<Variable>, count: usize) -> (pairs: Vec<(Variable, Variable)>)
    requires
        flat@.len() == 2 * count,
    ensures
        pairs@.len() == count,
        forall|i: int| 0 <= i < count ==> #[trigger] pairs@[i] == (flat@[2 * i], flat@[2 * i + 1]),
        concat_map(pairs@, pair_fn()) == flat@,
{
    let mut pairs: Vec<(Variable, Variable)> = Vec::new();
    let flen = flat.len();
    for i in 0..count
        invariant
            flat@.len() == 2 * count,
            flen == flat@.len(),
            pairs@.len() == i,
            forall|k: int| 0 <= k < i ==> #[trigger] pairs@[k] == (flat@[2 * k], flat@[2 * k + 1]),
    {
        pairs.push((flat[2 * i], flat[2 * i + 1]));
    }
    proof {
        assert forall|i: int| 0 <= i < count implies #[trigger] pair_fn()(pairs@[i]) =~= flat@.subrange(i * 2, i * 2 + 2) by {
            assert(pairs@[i] == (flat@[2 * i], flat@[2 * i + 1]));
        }
        assert(Seq::new(count as nat, |i: int| pair_fn()(pairs@[i]))
            =~= Seq::new(count as nat, |i: int| flat@.subrange(i * 2, i * 2 + 2)));
        lemma_concat_subranges(flat@, 2, count as nat);
    }
    pairs
}

impl FourierLayer {
    /// A Fourier layer whose weights are new input nodes holding `weights`: first the
    /// residual weights row by row, then the spectral weights in collection order.
    #[verifier::rlimit(40)]
    pub fn from_weights(ctx: &mut Context, channels: usize, modes: (usize, usize), weights: &[u32]) -> (layer: FourierLayer)
        requires
            old(ctx).wf(),
            weights@.len() == channels * channels + 2 * channels * channels * modes.0 * modes.1,
            channels * channels * modes.0 <= usize::MAX,
        ensures
            final(ctx).wf(),
            final(ctx).extends(*old(ctx)),
            layer.channels == channels,
            layer.modes == modes,
            layer.wf(*final(ctx)),
            final(ctx).contains_vars(layer.vars()),
            final(ctx)@.len() == old(ctx)@.len() + weights@.len(),
            final(ctx).exprs(layer.vars()) == fresh_leaves(old(ctx)@.len() as int, weights@),
            forall|k: int| 0 <= k < layer.vars().len() ==> (#[trigger] layer.vars()[k]).id_spec() == old(ctx)@.len() + k,
    {
        let ghost c_in = *ctx;
        let wlen = weights.len();
        proof {
            assert(2 * channels * channels * modes.0 * modes.1 == 2 * (((channels * channels) * modes.0) * modes.1))
                by (nonlinear_arith);
            assert(0 <= ((channels * channels) * modes.0) * modes.1) by (nonlinear_arith);
            assert(0 <= (channels * channels) * modes.0) by (nonlinear_arith);
            assert(0 <= (channels * channels)) by (nonlinear_arith);
            if modes.0 > 0 && modes.1 > 0 {
                assert((channels * channels) * modes.0 <= ((channels * channels) * modes.0) * modes.1) by (nonlinear_arith)
                    requires modes.1 > 0;
            }
        }
        let cc = channels * channels;
        let res_w = copy_range(weights, 0, cc);
        let residual = LinearLayer::from_weights(ctx, (channels, channels), res_w.as_slice());
        let ghost c_res = *ctx;
        let count = cc * modes.0 * modes.1;
        let flat = new_inputs(ctx, weights, cc, 2 * count);
        let pairs = pair_up(&flat, count);
        proof {
            assert(cc * modes.0 * modes.1 == (cc * modes.0) * modes.1);
        }
        let l2 = chunk(pairs, modes.1, cc * modes.0);
        proof {
            assert(cc * modes.0 == channels * (channels * modes.0)) by (nonlinear_arith)
                requires cc == channels * channels;
        }
        let l3 = chunk(l2, modes.0, cc);
        let r = chunk(l3, channels, channels);
        let layer = FourierLayer { channels, modes, residual, r };
        let n_after = ctx.len();
        proof {
            let mx = modes.0 as int;
            let my = modes.1 as int;
            let c = channels as int;
            // the collection order gives back the flat list
            assert(Seq::new(l2@.len(), |i: int| row1_fn()(l2@[i]))
                =~= Seq::new((cc * modes.0) as nat, |i: int| concat_map(pairs@.subrange(i * my, i * my + my), pair_fn())));
            lemma_concat_map_chunks(pairs@, modes.1 as nat, (cc * modes.0) as nat, pair_fn());
            assert(concat_map(l2@, row1_fn()) == flat@);
            assert(Seq::new(l3@.len(), |i: int| row2_fn()(l3@[i]))
                =~= Seq::new(cc as nat, |i: int| concat_map(l2@.subrange(i * mx, i * mx + mx), row1_fn())));
            lemma_concat_map_chunks(l2@, modes.0 as nat, cc as nat, row1_fn());
            assert(Seq::new(r@.len(), |i: int| row3_fn()(r@[i]))
                =~= Seq::new(channels as nat, |i: int| concat_map(l3@.subrange(i * c, i * c + c), row2_fn())));
            lemma_concat_map_chunks(l3@, channels as nat, channels as nat, row2_fn());
            assert(layer.spectral_vars() == flat@);
            // shapes and membership
            assert forall|o: int, k: int, kx: int, ky: int| layer.in_r(o, k, kx, ky)
                implies ctx.contains(#[trigger] layer.r_at(o, k, kx, ky).0) && ctx.contains(layer.r_at(o, k, kx, ky).1)
                    && layer.r@[o]@.len() == channels && layer.r@[o]@[k]@.len() == modes.0
                    && layer.r@[o]@[k]@[kx]@.len() == modes.1 by {
                let q3 = o * c + k;
                lemma_index2(o, k, c, c);
                lemma_index2(o, c - 1, c, c);
                assert(o * c + k < o * c + c) by (nonlinear_arith) requires k < c;
                assert(layer.r@[o]@[k] == l3@[q3]);
                let q2 = q3 * mx + kx;
                lemma_index2(q3, kx, cc as int, mx);
                lemma_piece_bound(q3, cc as int, mx);
                assert(q3 * mx + kx < q3 * mx + mx) by (nonlinear_arith) requires kx < mx;
                assert(l3@[q3]@[kx] == l2@[q2]);
                let q1 = q2 * my + ky;
                lemma_index2(q2, ky, cc * mx, my);
                lemma_piece_bound(q2, cc * mx, my);
                assert(q2 * my + ky < q2 * my + my) by (nonlinear_arith) requires ky < my;
                assert(l2@[q2]@[ky] == pairs@[q1]);
                assert(ctx.contains(flat@[2 * q1]));
                assert(ctx.contains(flat@[2 * q1 + 1]));
            }
            assert(layer.r_shape()) by {
                assert forall|o: int| 0 <= o < channels implies (#[trigger] layer.r@[o])@.len() == channels by {
                    lemma_index2(o, c - 1, c, c);
                }
                assert forall|o: int, k: int| 0 <= o < channels && 0 <= k < channels implies (#[trigger] layer.r@[o]@[k])@.len() == modes.0 by {
                    let q3 = o * c + k;
                    assert(o * c + k < o * c + c) by (nonlinear_arith) requires k < c;
                    lemma_index2(o, c - 1, c, c);
                    assert(layer.r@[o]@[k] == l3@[q3]);
                    lemma_index2(o, k, c, c);
                    lemma_piece_bound(q3, cc as int, mx);
                }
                assert forall|o: int, k: int, kx: int| 0 <= o < channels && 0 <= k < channels && 0 <= kx < modes.0
                    implies (#[trigger] layer.r@[o]@[k]@[kx])@.len() == modes.1 by {
                    let q3 = o * c + k;
                    assert(o * c + k < o * c + c) by (nonlinear_arith) requires k < c;
                    lemma_index2(o, c - 1, c, c);
                    assert(layer.r@[o]@[k] == l3@[q3]);
                    lemma_index2(o, k, c, c);
                    let q2 = q3 * mx + kx;
                    assert(q3 * mx + kx < q3 * mx + mx) by (nonlinear_arith) requires kx < mx;
                    lemma_index2(q3, kx, cc as int, mx);
                    lemma_piece_bound(q3, cc as int, mx);
                    lemma_piece_bound(q2, cc * mx, my);
                    assert(l3@[q3]@[kx] == l2@[q2]);
                }
            }
            residual.lemma_stable(*ctx, c_res);
            // the expressions of all the weights
            assert forall|k: int| 0 <= k < residual.weights().len() implies c_res.contains_vars(#[trigger] residual.weights()[k]) by {}
            lemma_concat_contains(c_res, residual.weights());
            ctx.lemma_exprs_stable(c_res, residual.vars());
            lemma_exprs_append(*ctx, residual.vars(), flat@);
            assert(ctx.contains_vars(layer.vars())) by {
                assert forall|q: int| 0 <= q < layer.vars().len() implies ctx.contains(#[trigger] layer.vars()[q]) by {
                    if q < residual.vars().len() {
                        assert(layer.vars()[q] == residual.vars()[q]);
                    } else {
                        assert(layer.vars()[q] == flat@[q - residual.vars().len()]);
                    }
                }
            }
            lemma_fresh_leaves_append(c_in@.len() as int, weights@.subrange(0, cc as int), weights@.subrange(cc as int, cc + 2 * count));
            assert(weights@ =~= weights@.subrange(0, cc as int) + weights@.subrange(cc as int, cc + 2 * count));
            assert(res_w@ == weights@.subrange(0, cc as int));
            ctx.lemma_fresh_ids(layer.vars(), c_in@.len() as int, weights@);
        }
        layer
    }
}

impl LinearLayer {
    /// A layer whose weights are new input nodes holding the random draws `samples`,
    /// `w[out][in]` row by row.
    pub fn new(ctx: &mut Context, channels: (usize, usize), samples: &[u32]) -> (layer: LinearLayer)
        requires
            old(ctx).wf(),
            samples@.len() == channels.0 * channels.1,
        ensures
            final(ctx).wf(),
            final(ctx).extends(*old(ctx)),
            layer.channels == channels,
            layer.wf(*final(ctx)),
            final(ctx).contains_vars(layer.vars()),
            final(ctx)@.len() == old(ctx)@.len() + samples@.len(),
            final(ctx).exprs(layer.vars()) == fresh_leaves(old(ctx)@.len() as int, samples@),
            forall|k: int| 0 <= k < layer.vars().len() ==> (#[trigger] layer.vars()[k]).id_spec() == old(ctx)@.len() + k,
    {
        LinearLayer::from_weights(ctx, channels, samples)
    }
}

impl FourierLayer {
    /// A layer whose weights are new input nodes holding the random draws `samples`:
    /// the residual weights, then the spectral ones in collection order.
    pub fn new(ctx: &mut Context, channels: usize, modes: (usize, usize), samples: &[u32]) -> (layer: FourierLayer)
        requires
            old(ctx).wf(),
            samples@.len() == channels * channels + 2 * channels * channels * modes.0 * modes.1,
            channels * channels * modes.0 <= usize::MAX,
        ensures
            final(ctx).wf(),
            final(ctx).extends(*old(ctx)),
            layer.channels == channels,
            layer.modes == modes,
            layer.wf(*final(ctx)),
            final(ctx).contains_vars(layer.vars()),
            final(ctx)@.len() == old(ctx)@.len() + samples@.len(),
            final(ctx).exprs(layer.vars()) == fresh_leaves(old(ctx)@.len() as int, samples@),
            forall|k: int| 0 <= k < layer.vars().len() ==> (#[trigger] layer.vars()[k]).id_spec() == old(ctx)@.len() + k,
    {
        FourierLayer::from_weights(ctx, channels, modes, samples)
    }
}

/// Concatenations of pieces of pairwise equal lengths have equal lengths.
pub proof fn lemma_concat_len_eq<T, U>(p: Seq<Seq<T>>, q: Seq<Seq<U>>)
    requires
        p.len() == q.len(),
        forall|i: int| 0 <= i < p.len() ==> (#[trigger] p[i]).len() == q[i].len(),
    ensures
        concat(p).len() == concat(q).len(),
    decreases p.len(),
{
    if p.len() > 0 {
        lemma_concat_len_eq(p.drop_last(), q.drop_last());
        assert(p.last().len() == q.last().len()) by {
            assert(p[p.len() - 1].len() == q[q.len() - 1].len());
        }
    }
}

/// Equal concatenations of pieces of pairwise equal lengths have equal pieces.
pub proof fn lemma_concat_eq_parts<T>(p: Seq<Seq<T>>, q: Seq<Seq<T>>)
    requires
        p.len() == q.len(),
        forall|i: int| 0 <= i < p.len() ==> (#[trigger] p[i]).len() == q[i].len(),
        concat(p) == concat(q),
    ensures
        p == q,
    decreases p.len(),
{
    if p.len() > 0 {
        let a = concat(p.drop_last());
        let b = concat(q.drop_last());
        lemma_concat_len_eq(p.drop_last(), q.drop_last());
        assert(p[p.len() - 1].len() == q[q.len() - 1].len());
        assert(a + p.last() == b + q.last());
        assert(a =~= (a + p.last()).subrange(0, a.len() as int));
        assert(b =~= (b + q.last()).subrange(0, b.len() as int));
        assert(p.last() =~= (a + p.last()).subrange(a.len() as int, (a + p.last()).len() as int));
        assert(q.last() =~= (b + q.last()).subrange(b.len() as int, (b + q.last()).len() as int));
        lemma_concat_eq_parts(p.drop_last(), q.drop_last());
        assert(p =~= q) by {
            assert forall|i: int| 0 <= i < p.len() implies p[i] == q[i] by {
                if i < p.len() - 1 {
                    assert(p[i] == p.drop_last()[i]);
                    assert(q[i] == q.drop_last()[i]);
                }
            }
        }
    }
}

/// The expressions of a concatenation are the concatenation of the expressions.
pub proof fn lemma_exprs_concat(ctx: Context, pieces: Seq<Seq<Variable>>)
    ensures
        ctx.exprs(concat(pieces)) == concat(Seq::new(pieces.len(), |i: int| ctx.exprs(pieces[i]))),
    decreases pieces.len(),
{
    let m = Seq::new(pieces.len(), |i: int| ctx.exprs(pieces[i]));
    if pieces.len() > 0 {
        lemma_exprs_concat(ctx, pieces.drop_last());
        lemma_exprs_append(ctx, concat(pieces.drop_last()), pieces.last());
        assert(m.drop_last() =~= Seq::new(pieces.drop_last().len(), |i: int| ctx.exprs(pieces.drop_last()[i])));
    } else {
        assert(ctx.exprs(concat(pieces)) =~= concat(m));
    }
}

/// Two sequences of variables with equal expressions, split after equal lengths,
/// have parts with equal expressions.
pub proof fn lemma_exprs_split(c1: Context, a1: Seq<Variable>, b1: Seq<Variable>, c2: Context, a2: Seq<Variable>, b2: Seq<Variable>)
    requires
        a1.len() == a2.len(),
        c1.exprs(a1 + b1) == c2.exprs(a2 + b2),
    ensures
        c1.exprs(a1) == c2.exprs(a2),
        c1.exprs(b1) == c2.exprs(b2),
{
    lemma_exprs_append(c1, a1, b1);
    lemma_exprs_append(c2, a2, b2);
    let x = c1.exprs(a1) + c1.exprs(b1);
    assert(c1.exprs(a1) =~= x.subrange(0, a1.len() as int));
    assert(c2.exprs(a2) =~= x.subrange(0, a1.len() as int));
    assert(c1.exprs(b1) =~= x.subrange(a1.len() as int, x.len() as int));
    assert(c2.exprs(b2) =~= x.subrange(a1.len() as int, x.len() as int));
}

/// Concatenating mapped pieces of pairwise equal lengths: equal expressions of the
/// whole give equal expressions of each piece.
pub proof fn lemma_concat_map_exprs_parts<A>(c1: Context, x: Seq<A>, c2: Context, y: Seq<A>, f: spec_fn(A) -> Seq<Variable>)
    requires
        x.len() == y.len(),
        forall|i: int| 0 <= i < x.len() ==> (#[trigger] f(x[i])).len() == f(y[i]).len(),
        c1.exprs(concat_map(x, f)) == c2.exprs(concat_map(y, f)),
    ensures
        forall|i: int| 0 <= i < x.len() ==> c1.exprs(#[trigger] f(x[i])) == c2.exprs(f(y[i])),
{
    let px = Seq::new(x.len(), |i: int| f(x[i]));
    let py = Seq::new(y.len(), |i: int| f(y[i]));
    lemma_exprs_concat(c1, px);
    lemma_exprs_concat(c2, py);
    let ex = Seq::new(px.len(), |i: int| c1.exprs(px[i]));
    let ey = Seq::new(py.len(), |i: int| c2.exprs(py[i]));
    assert forall|i: int| 0 <= i < ex.len() implies (#[trigger] ex[i]).len() == ey[i].len() by {
        assert(f(x[i]).len() == f(y[i]).len());
    }
    lemma_concat_eq_parts(ex, ey);
    assert forall|i: int| 0 <= i < x.len() implies c1.exprs(#[trigger] f(x[i])) == c2.exprs(f(y[i])) by {
        assert(ex[i] == ey[i]);
    }
}

/// Concatenating mapped pieces of pairwise equal lengths gives equal lengths.
pub proof fn lemma_concat_map_len_eq<A>(x: Seq<A>, y: Seq<A>, f: spec_fn(A) -> Seq<Variable>)
    requires
        x.len() == y.len(),
        forall|i: int| 0 <= i < x.len() ==> (#[trigger] f(x[i])).len() == f(y[i]).len(),
    ensures
        concat_map(x, f).len() == concat_map(y, f).len(),
{
    let px = Seq::new(x.len(), |i: int| f(x[i]));
    let py = Seq::new(y.len(), |i: int| f(y[i]));
    assert forall|i: int| 0 <= i < px.len() implies (#[trigger] px[i]).len() == py[i].len() by {
        assert(f(x[i]).len() == f(y[i]).len());
    }
    lemma_concat_len_eq(px, py);
}

impl LinearLayer {
    /// Two layers of the same shape whose weights, in collection order, have equal
    /// expressions have equal weight expressions everywhere.
    pub proof fn lemma_model_from_vars(self, c1: Context, other: LinearLayer, c2: Context)
        requires
            self.wf(c1),
            other.wf(c2),
            self.channels == other.channels,
            c1.exprs(self.vars()) == c2.exprs(other.vars()),
        ensures
            self.model(c1) == other.model(c2),
            self.vars().len() == other.vars().len(),
    {
        lemma_exprs_concat(c1, self.weights());
        lemma_exprs_concat(c2, other.weights());
        let ex = Seq::new(self.weights().len(), |i: int| c1.exprs(self.weights()[i]));
        let ey = Seq::new(other.weights().len(), |i: int| c2.exprs(other.weights()[i]));
        assert forall|i: int| 0 <= i < ex.len() implies (#[trigger] ex[i]).len() == ey[i].len() by {
            assert(self.w@[i]@.len() == self.channels.0);
            assert(other.w@[i]@.len() == other.channels.0);
        }
        lemma_concat_eq_parts(ex, ey);
        assert(self.model(c1) =~= other.model(c2)) by {
            assert forall|o: int| 0 <= o < self.w@.len() implies #[trigger] self.model(c1)[o] == other.model(c2)[o] by {
                assert(ex[o] == ey[o]);
            }
        }
        assert forall|i: int| 0 <= i < self.weights().len() implies (#[trigger] self.weights()[i]).len() == other.weights()[i].len() by {
            assert(self.w@[i]@.len() == self.channels.0);
            assert(other.w@[i]@.len() == other.channels.0);
        }
        lemma_concat_len_eq(self.weights(), other.weights());
    }
}

/// Rows of complex weights whose variables, in collection order, have equal
/// expressions hold weights with equal expressions.
pub proof fn lemma_pairs_from_exprs(c1: Context, x: Seq<(Variable, Variable)>, c2: Context, y: Seq<(Variable, Variable)>)
    requires
        x.len() == y.len(),
        c1.exprs(concat_map(x, pair_fn())) == c2.exprs(concat_map(y, pair_fn())),
    ensures
        forall|k: int| #![trigger x[k]] 0 <= k < x.len() ==> c1.expr_of(x[k].0) == c2.expr_of(y[k].0) && c1.expr_of(x[k].1) == c2.expr_of(y[k].1),
{
    assert forall|i: int| 0 <= i < x.len() implies (#[trigger] pair_fn()(x[i])).len() == pair_fn()(y[i]).len() by {}
    lemma_concat_map_exprs_parts(c1, x, c2, y, pair_fn());
    assert forall|k: int| #![trigger x[k]] 0 <= k < x.len() implies c1.expr_of(x[k].0) == c2.expr_of(y[k].0) && c1.expr_of(x[k].1) == c2.expr_of(y[k].1) by {
        let a = c1.exprs(pair_fn()(x[k]));
        let b = c2.exprs(pair_fn()(y[k]));
        assert(a == b);
        assert(a[0] == b[0]);
        assert(a[1] == b[1]);
    }
}

pub proof fn lemma_row2_len(x: Vec<Vec<(Variable, Variable)>>, y: Vec<Vec<(Variable, Variable)>>)
    requires
        x@.len() == y@.len(),
        forall|k: int| 0 <= k < x@.len() ==> (#[trigger] x@[k])@.len() == y@[k]@.len(),
    ensures
        row2_fn()(x).len() == row2_fn()(y).len(),
{
    assert forall|k: int| 0 <= k < x@.len() implies (#[trigger] row1_fn()(x@[k])).len() == row1_fn()(y@[k]).len() by {
        lemma_concat_map_len_eq(x@[k]@, y@[k]@, pair_fn());
    }
    lemma_concat_map_len_eq(x@, y@, row1_fn());
}

pub proof fn lemma_row3_len(x: Vec<Vec<Vec<(Variable, Variable)>>>, y: Vec<Vec<Vec<(Variable, Variable)>>>)
    requires
        x@.len() == y@.len(),
        forall|k: int| 0 <= k < x@.len() ==> (#[trigger] x@[k])@.len() == y@[k]@.len(),
        forall|k: int, j: int| 0 <= k < x@.len() && 0 <= j < x@[k]@.len() ==> (#[trigger] x@[k]@[j])@.len() == y@[k]@[j]@.len(),
    ensures
        row3_fn()(x).len() == row3_fn()(y).len(),
{
    assert forall|k: int| 0 <= k < x@.len() implies (#[trigger] row2_fn()(x@[k])).len() == row2_fn()(y@[k]).len() by {
        assert forall|j: int| 0 <= j < x@[k]@.len() implies (#[trigger] x@[k]@[j])@.len() == y@[k]@[j]@.len() by {}
        lemma_row2_len(x@[k], y@[k]);
    }
    lemma_concat_map_len_eq(x@, y@, row2_fn());
}

pub proof fn lemma_row2_exprs(c1: Context, x: Vec<Vec<(Variable, Variable)>>, c2: Context, y: Vec<Vec<(Variable, Variable)>>)
    requires
        x@.len() == y@.len(),
        forall|k: int| 0 <= k < x@.len() ==> (#[trigger] x@[k])@.len() == y@[k]@.len(),
        c1.exprs(row2_fn()(x)) == c2.exprs(row2_fn()(y)),
    ensures
        forall|k: int, j: int| #![trigger x@[k]@[j]] 0 <= k < x@.len() && 0 <= j < x@[k]@.len() ==>
            c1.expr_of(x@[k]@[j].0) == c2.expr_of(y@[k]@[j].0) && c1.expr_of(x@[k]@[j].1) == c2.expr_of(y@[k]@[j].1),
{
    assert forall|k: int| 0 <= k < x@.len() implies (#[trigger] row1_fn()(x@[k])).len() == row1_fn()(y@[k]).len() by {
        lemma_concat_map_len_eq(x@[k]@, y@[k]@, pair_fn());
    }
    lemma_concat_map_exprs_parts(c1, x@, c2, y@, row1_fn());
    assert forall|k: int, j: int| #![trigger x@[k]@[j]] 0 <= k < x@.len() && 0 <= j < x@[k]@.len() implies
        c1.expr_of(x@[k]@[j].0) == c2.expr_of(y@[k]@[j].0) && c1.expr_of(x@[k]@[j].1) == c2.expr_of(y@[k]@[j].1) by {
        assert(c1.exprs(row1_fn()(x@[k])) == c2.exprs(row1_fn()(y@[k])));
        lemma_pairs_from_exprs(c1, x@[k]@, c2, y@[k]@);
    }
}

pub proof fn lemma_row3_exprs(c1: Context, x: Vec<Vec<Vec<(Variable, Variable)>>>, c2: Context, y: Vec<Vec<Vec<(Variable, Variable)>>>)
    requires
        x@.len() == y@.len(),
        forall|k: int| 0 <= k < x@.len() ==> (#[trigger] x@[k])@.len() == y@[k]@.len(),
        forall|k: int, j: int| 0 <= k < x@.len() && 0 <= j < x@[k]@.len() ==> (#[trigger] x@[k]@[j])@.len() == y@[k]@[j]@.len(),
        c1.exprs(row3_fn()(x)) == c2.exprs(row3_fn()(y)),
    ensures
        forall|k: int, j: int, q: int| #![trigger x@[k]@[j]@[q]] 0 <= k < x@.len() && 0 <= j < x@[k]@.len() && 0 <= q < x@[k]@[j]@.len() ==>
            c1.expr_of(x@[k]@[j]@[q].0) == c2.expr_of(y@[k]@[j]@[q].0) && c1.expr_of(x@[k]@[j]@[q].1) == c2.expr_of(y@[k]@[j]@[q].1),
{
    assert forall|k: int| 0 <= k < x@.len() implies (#[trigger] row2_fn()(x@[k])).len() == row2_fn()(y@[k]).len() by {
        assert forall|j: int| 0 <= j < x@[k]@.len() implies (#[trigger] x@[k]@[j])@.len() == y@[k]@[j]@.len() by {}
        lemma_row2_len(x@[k], y@[k]);
    }
    lemma_concat_map_exprs_parts(c1, x@, c2, y@, row2_fn());
    assert forall|k: int, j: int, q: int| #![trigger x@[k]@[j]@[q]] 0 <= k < x@.len() && 0 <= j < x@[k]@.len() && 0 <= q < x@[k]@[j]@.len() implies
        c1.expr_of(x@[k]@[j]@[q].0) == c2.expr_of(y@[k]@[j]@[q].0) && c1.expr_of(x@[k]@[j]@[q].1) == c2.expr_of(y@[k]@[j]@[q].1) by {
        assert(c1.exprs(row2_fn()(x@[k])) == c2.exprs(row2_fn()(y@[k])));
        assert forall|j2: int| 0 <= j2 < x@[k]@.len() implies (#[trigger] x@[k]@[j2])@.len() == y@[k]@[j2]@.len() by {}
        lemma_row2_exprs(c1, x@[k], c2, y@[k]);
        assert(x@[k]@[j]@[q] == x@[k]@[j]@[q]);
    }
}

impl FourierLayer {
    /// Two layers of the same shape whose weights, in collection order, have equal
    /// expressions have equal residual and spectral weight expressions.
    pub proof fn lemma_model_from_vars(self, c1: Context, other: FourierLayer, c2: Context)
        requires
            self.wf(c1),
            other.wf(c2),
            self.channels == other.channels,
            self.modes == other.modes,
            c1.exprs(self.vars()) == c2.exprs(other.vars()),
        ensures
            self.residual.model(c1) == other.residual.model(c2),
            self.spectral_model(c1) == other.spectral_model(c2),
    {
        let ch = self.channels as int;
        assert forall|i: int| 0 <= i < self.residual.weights().len() implies (#[trigger] self.residual.weights()[i]).len() == other.residual.weights()[i].len() by {
            assert(self.residual.w@[i]@.len() == self.channels);
            assert(other.residual.w@[i]@.len() == other.channels);
        }
        lemma_concat_len_eq(self.residual.weights(), other.residual.weights());
        lemma_exprs_split(c1, self.residual.vars(), self.spectral_vars(), c2, other.residual.vars(), other.spectral_vars());
        self.residual.lemma_model_from_vars(c1, other.residual, c2);
        let x = self.r;
        let y = other.r;
        assert forall|o: int| 0 <= o < x@.len() implies (#[trigger] row3_fn()(x@[o])).len() == row3_fn()(y@[o]).len() by {
            assert forall|k: int| 0 <= k < x@[o]@.len() implies (#[trigger] x@[o]@[k])@.len() == y@[o]@[k]@.len() by {}
            assert forall|k: int, j: int| 0 <= k < x@[o]@.len() && 0 <= j < x@[o]@[k]@.len() implies (#[trigger] x@[o]@[k]@[j])@.len() == y@[o]@[k]@[j]@.len() by {}
            lemma_row3_len(x@[o], y@[o]);
        }
        lemma_concat_map_exprs_parts(c1, x@, c2, y@, row3_fn());
        assert forall|o: int, c: int, kx: int, ky: int| self.in_r(o, c, kx, ky) implies
            c1.expr_of(#[trigger] self.r_at(o, c, kx, ky).0) == c2.expr_of(other.r_at(o, c, kx, ky).0)
            && c1.expr_of(self.r_at(o, c, kx, ky).1) == c2.expr_of(other.r_at(o, c, kx, ky).1) by {
            assert(c1.exprs(row3_fn()(x@[o])) == c2.exprs(row3_fn()(y@[o])));
            assert forall|k: int| 0 <= k < x@[o]@.len() implies (#[trigger] x@[o]@[k])@.len() == y@[o]@[k]@.len() by {}
            assert forall|k: int, j: int| 0 <= k < x@[o]@.len() && 0 <= j < x@[o]@[k]@.len() implies (#[trigger] x@[o]@[k]@[j])@.len() == y@[o]@[k]@[j]@.len() by {}
            lemma_row3_exprs(c1, x@[o], c2, y@[o]);
            assert(x@[o]@[c]@[kx]@[ky] == self.r_at(o, c, kx, ky));
        }
        assert(self.spectral_model(c1) =~= other.spectral_model(c2)) by {
            assert forall|o: int| 0 <= o < ch implies #[trigger] self.spectral_model(c1)[o] == other.spectral_model(c2)[o] by {
                assert(self.spectral_model(c1)[o] =~= other.spectral_model(c2)[o]) by {
                    assert forall|c: int| 0 <= c < ch implies #[trigger] self.spectral_model(c1)[o][c] == other.spectral_model(c2)[o][c] by {
                        assert(self.spectral_model(c1)[o][c] =~= other.spectral_model(c2)[o][c]) by {
                            assert forall|kx: int| 0 <= kx < self.modes.0 implies #[trigger] self.spectral_model(c1)[o][c][kx] == other.spectral_model(c2)[o][c][kx] by {
                                assert(self.spectral_model(c1)[o][c][kx] =~= other.spectral_model(c2)[o][c][kx]) by {
                                    assert forall|ky: int| 0 <= ky < self.modes.1 implies #[trigger] self.spectral_model(c1)[o][c][kx][ky] == other.spectral_model(c2)[o][c][kx][ky] by {
                                        assert(self.in_r(o, c, kx, ky));
                                    }
                                }
                            }
                        }
                    }
                }
            }
        }
    }
}

} // verus!
