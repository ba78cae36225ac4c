use vstd::prelude::*;
use vstd::arithmetic::power2::{pow2, lemma_pow2_pos, lemma_pow2_unfold, lemma_pow2_adds};

use crate::calculations::fft::{
    bit_reverse_permute, bit_reversed, gather, gather_into, in_stripe, is_power_of_two, lemma_column_stripe,
    lemma_grid_join, lemma_grid_split, log2, scatter,
};
use crate::fno::backprop::graph::{
    one_expr, zero_expr, Context, Expr, Leaf, Variable, ONE_BITS, ZERO_BITS,
};

verus! {

/// A complex number whose parts are nodes of a computation graph.
#[derive(Clone, Copy, Debug)]
pub struct ComplexVariable {
    pub re: Variable,
    pub im: Variable,
}

/// A complex expression: real and imaginary part.
pub type CExpr = (Expr, Expr);

pub open spec fn c_add(a: CExpr, b: CExpr) -> CExpr {
    (Expr::Add(Box::new(a.0), Box::new(b.0)), Expr::Add(Box::new(a.1), Box::new(b.1)))
}

pub open spec fn c_sub(a: CExpr, b: CExpr) -> CExpr {
    (Expr::Sub(Box::new(a.0), Box::new(b.0)), Expr::Sub(Box::new(a.1), Box::new(b.1)))
}

/// `(a.re * b.re - a.im * b.im, a.re * b.im + a.im * b.re)`.
pub open spec fn c_mul(a: CExpr, b: CExpr) -> CExpr {
    (
        Expr::Sub(
            Box::new(Expr::Mul(Box::new(a.0), Box::new(b.0))),
            Box::new(Expr::Mul(Box::new(a.1), Box::new(b.1))),
        ),
        Expr::Add(
            Box::new(Expr::Mul(Box::new(a.0), Box::new(b.1))),
            Box::new(Expr::Mul(Box::new(a.1), Box::new(b.0))),
        ),
    )
}

impl Context {
    pub open spec fn contains_c(self, v: ComplexVariable) -> bool {
        self.contains(v.re) && self.contains(v.im)
    }

    pub open spec fn cexpr(self, v: ComplexVariable) -> CExpr {
        (self.expr_of(v.re), self.expr_of(v.im))
    }

    pub open spec fn contains_all(self, s: Seq<ComplexVariable>) -> bool {
        forall|i: int| 0 <= i < s.len() ==> self.contains_c(#[trigger] s[i])
    }

    pub open spec fn cexprs(self, s: Seq<ComplexVariable>) -> Seq<CExpr> {
        Seq::new(s.len(), |i: int| self.cexpr(s[i]))
    }

    /// Growing the arena keeps the expressions of the complex variables it held.
    pub proof fn lemma_cexprs_stable(self, older: Context, s: Seq<ComplexVariable>)
        requires
            self.extends(older),
            older.contains_all(s),
        ensures
            self.contains_all(s),
            self.cexprs(s) == older.cexprs(s),
    {
        self.lemma_extends(older);
        assert forall|i: int| 0 <= i < s.len() implies self.contains_c(#[trigger] s[i]) by {
            assert(older.contains_c(s[i]));
        }
        assert(self.cexprs(s) =~= older.cexprs(s)) by {
            assert forall|i: int| 0 <= i < s.len() implies #[trigger] self.cexprs(s)[i] == older.cexprs(s)[i] by {
                assert(older.contains_c(s[i]));
            }
        }
    }

    /// Growing the arena keeps the expression of a complex variable it held.
    pub proof fn lemma_cexpr_stable(self, older: Context, v: ComplexVariable)
        requires
            self.extends(older),
            older.contains_c(v),
        ensures
            self.contains_c(v),
            self.cexpr(v) == older.cexpr(v),
    {
        self.lemma_extends(older);
    }
}

impl ComplexVariable {
    /// A complex number with two new input nodes holding the bit patterns `re` and `im`.
    pub fn new(ctx: &mut Context, re: u32, im: u32) -> (c: Self)
        requires
            old(ctx).wf(),
        ensures
            final(ctx).wf(),
            final(ctx).extends(*old(ctx)),
            final(ctx)@.len() == old(ctx)@.len() + 2,
            final(ctx).contains_c(c),
            final(ctx).cexpr(c) == (Expr::Var(old(ctx)@.len() as usize, Leaf::Bits(re)),
                Expr::Var((old(ctx)@.len() + 1) as usize, Leaf::Bits(im))),
    {
        let re = ctx.variable(re);
        let ghost mid = *ctx;
        let im = ctx.variable(im);
        proof {
            ctx.lemma_extends(mid);
        }
        ComplexVariable { re, im }
    }

    /// A complex zero made of two new constant nodes.
    pub(crate) fn zero(ctx: &mut Context) -> (c: Self)
        requires
            old(ctx).wf(),
        ensures
            final(ctx).wf(),
            final(ctx).extends(*old(ctx)),
            final(ctx).contains_c(c),
            final(ctx).cexpr(c) == (zero_expr(), zero_expr()),
    {
        let re = ctx.constant(Leaf::Bits(ZERO_BITS));
        let ghost mid = *ctx;
        let im = ctx.constant(Leaf::Bits(ZERO_BITS));
        proof {
            ctx.lemma_extends(mid);
        }
        ComplexVariable { re, im }
    }

    pub fn add(self, other: Self, ctx: &mut Context) -> (c: Self)
        requires
            old(ctx).wf(),
            old(ctx).contains_c(self),
            old(ctx).contains_c(other),
        ensures
            final(ctx).wf(),
            final(ctx).extends(*old(ctx)),
            final(ctx).contains_c(c),
            final(ctx).cexpr(c) == c_add(old(ctx).cexpr(self), old(ctx).cexpr(other)),
    {
        let ghost c0 = *ctx;
        let re = ctx.add(self.re, other.re);
        let ghost c1 = *ctx;
        proof { c1.lemma_extends(c0); }
        let im = ctx.add(self.im, other.im);
        proof { ctx.lemma_extends(c1); }
        ComplexVariable { re, im }
    }

    pub fn sub(self, other: Self, ctx: &mut Context) -> (c: Self)
        requires
            old(ctx).wf(),
            old(ctx).contains_c(self),
            old(ctx).contains_c(other),
        ensures
            final(ctx).wf(),
            final(ctx).extends(*old(ctx)),
            final(ctx).contains_c(c),
            final(ctx).cexpr(c) == c_sub(old(ctx).cexpr(self), old(ctx).cexpr(other)),
    {
        let ghost c0 = *ctx;
        let re = ctx.sub(self.re, other.re);
        let ghost c1 = *ctx;
        proof { c1.lemma_extends(c0); }
        let im = ctx.sub(self.im, other.im);
        proof { ctx.lemma_extends(c1); }
        ComplexVariable { re, im }
    }

    pub fn mul(self, other: Self, ctx: &mut Context) -> (c: Self)
        requires
            old(ctx).wf(),
            old(ctx).contains_c(self),
            old(ctx).contains_c(other),
        ensures
            final(ctx).wf(),
            final(ctx).extends(*old(ctx)),
            final(ctx).contains_c(c),
            final(ctx).cexpr(c) == c_mul(old(ctx).cexpr(self), old(ctx).cexpr(other)),
    {
        let ghost c0 = *ctx;
        let r1 = ctx.mul(self.re, other.re);
        let ghost c1 = *ctx;
        proof { c1.lemma_extends(c0); }
        let r2 = ctx.mul(self.im, other.im);
        let ghost c2 = *ctx;
        proof { c2.lemma_extends(c1); }
        let re = ctx.sub(r1, r2);
        let ghost c3 = *ctx;
        proof { c3.lemma_extends(c2); }
        let i1 = ctx.mul(self.re, other.im);
        let ghost c4 = *ctx;
        proof { c4.lemma_extends(c3); c4.lemma_extends(c0); }
        let i2 = ctx.mul(self.im, other.re);
        let ghost c5 = *ctx;
        proof { c5.lemma_extends(c4); c5.lemma_extends(c0); }
        let im = ctx.add(i1, i2);
        proof { ctx.lemma_extends(c5); ctx.lemma_extends(c3); }
        ComplexVariable { re, im }
    }
}

/// The twiddle step `(cos(-2 PI / len), sin(-2 PI / len))` of a stage of length `len`.
pub open spec fn twiddle_step(len: nat) -> CExpr {
    (Expr::Const(Leaf::TwiddleCos(len as usize)), Expr::Const(Leaf::TwiddleSin(len as usize)))
}

/// The `j`-th twiddle factor of a stage of length `len`: the unit, multiplied `j` times by the step.
pub open spec fn twiddle(len: nat, j: nat) -> CExpr
    decreases j,
{
    if j == 0 {
        (one_expr(), zero_expr())
    } else {
        c_mul(twiddle(len, (j - 1) as nat), twiddle_step(len))
    }
}

/// One radix-2 stage over blocks of length `2 * half`: item `p` in the first half of
/// its block becomes `x[p] + w * x[p + half]`, item `p` in the second half becomes
/// `x[p - half] - w * x[p]`, with `w` the twiddle of its offset within the half.
pub open spec fn butterfly_stage(xs: Seq<CExpr>, half: nat) -> Seq<CExpr> {
    Seq::new(xs.len(), |p: int| {
        let len = 2 * half;
        let j = p % (len as int);
        if j < half {
            c_add(xs[p], c_mul(twiddle(len, j as nat), xs[p + half]))
        } else {
            c_sub(xs[p - half], c_mul(twiddle(len, (j - half) as nat), xs[p]))
        }
    })
}

/// The stages of half-length `half`, `2 * half`, ... below `xs.len()`, applied in turn.
pub open spec fn butterfly_stages(xs: Seq<CExpr>, half: nat) -> Seq<CExpr>
    decreases if half < xs.len() { xs.len() - half } else { 0 },
{
    if half == 0 || half >= xs.len() {
        xs
    } else {
        butterfly_stages(butterfly_stage(xs, half), 2 * half)
    }
}

/// The radix-2 decimation-in-time Fourier transform of `xs`, as an expression network.
pub open spec fn fft_network(xs: Seq<CExpr>) -> Seq<CExpr> {
    butterfly_stages(bit_reversed(xs), 1)
}

/// Computes the 1D Fast Fourier Transform in place: the graph gains the nodes of the
/// radix-2 butterfly network, and `data` holds its outputs.
pub fn fft_1d(ctx: &mut Context, data: &mut Vec<ComplexVariable>)
    requires
        old(ctx).wf(),
        old(ctx).contains_all(old(data)@),
        is_power_of_two(old(data)@.len() as int),
    ensures
        final(ctx).wf(),
        final(ctx).extends(*old(ctx)),
        final(data)@.len() == old(data)@.len(),
        final(ctx).contains_all(final(data)@),
        final(ctx).cexprs(final(data)@) == fft_network(old(ctx).cexprs(old(data)@)),
{
    let n = data.len();
    let ghost k = log2(n as int);
    let ghost c_in = *ctx;
    let ghost input = ctx.cexprs(data@);
    let ghost perm = data@;
    bit_reverse_permute(data);
    proof {
        lemma_pow2_pos(k);
        assert(ctx.cexprs(data@) =~= bit_reversed(input)) by {
            assert forall|p: int| 0 <= p < n implies #[trigger] ctx.cexprs(data@)[p] == bit_reversed(input)[p] by {
                crate::calculations::fft::lemma_rev_bits_bound(p, log2(n as int));
            }
        }
        assert(ctx.contains_all(data@)) by {
            assert forall|p: int| 0 <= p < n implies ctx.contains_c(#[trigger] data@[p]) by {
                crate::calculations::fft::lemma_rev_bits_bound(p, log2(n as int));
                assert(data@[p] == perm[crate::calculations::fft::bit_reverse_index(p, n as int)]);
            }
        }
    }
    let mut half: usize = 1;
    let ghost mut s: nat = 0;
    proof {
        assert(pow2(0) == 1) by { vstd::arithmetic::power2::lemma2_to64(); }
    }
    while half < n
        invariant
            ctx.wf(),
            ctx.extends(c_in),
            n == data@.len(),
            pow2(k) == n,
            half == pow2(s),
            s <= k,
            ctx.contains_all(data@),
            butterfly_stages(ctx.cexprs(data@), half as nat) == fft_network(input),
        decreases n - half,
    {
        proof {
            if s == k {
                assert(false);
            }
            lemma_pow2_unfold(s + 1);
            lemma_pow2_adds(s + 1, (k - s - 1) as nat);
            lemma_pow2_pos((k - s - 1) as nat);
            assert(pow2(s + 1) * pow2((k - s - 1) as nat) >= pow2(s + 1)) by (nonlinear_arith)
                requires pow2((k - s - 1) as nat) >= 1;
        }
        let len = half * 2;
        let ghost prev = ctx.cexprs(data@);
        let ghost stage = butterfly_stage(prev, half as nat);
        let ghost c_stage = *ctx;
        let ghost blocks = pow2((k - s - 1) as nat);
        let cos_w = ctx.constant(Leaf::TwiddleCos(len));
        let sin_w = ctx.constant(Leaf::TwiddleSin(len));
        let w_step = ComplexVariable { re: cos_w, im: sin_w };
        proof {
            ctx.lemma_extends(c_stage);
            ctx.lemma_cexprs_stable(c_stage, data@);
        }
        let mut i: usize = 0;
        let ghost mut c: nat = 0;
        while i < n
            invariant
                ctx.wf(),
                ctx.extends(c_in),
                n == data@.len(),
                half as nat == pow2(s),
                len == 2 * half,
                n == len * blocks,
                i == c * len,
                c <= blocks,
                prev.len() == n,
                stage == butterfly_stage(prev, half as nat),
                ctx.contains_c(w_step),
                ctx.cexpr(w_step) == twiddle_step(len as nat),
                ctx.contains_all(data@),
                forall|p: int| 0 <= p < n ==> #[trigger] ctx.cexprs(data@)[p] == if p < i { stage[p] } else { prev[p] },
            decreases n - i,
        {
            proof {
                assert(i + len <= n) by (nonlinear_arith)
                    requires i == c * len, i < n, n == len * blocks, len > 0, c <= blocks;
                vstd::arithmetic::div_mod::lemma_mod_multiples_basic(c as int, len as int);
                assert((c * len) as int == (c as int) * (len as int));
            }
            let ghost c_block = *ctx;
            let one = ctx.constant(Leaf::Bits(ONE_BITS));
            let zero = ctx.constant(Leaf::Bits(ZERO_BITS));
            let mut w = ComplexVariable { re: one, im: zero };
            proof {
                ctx.lemma_extends(c_block);
                ctx.lemma_cexprs_stable(c_block, data@);
                ctx.lemma_cexpr_stable(c_block, w_step);
            }
            let mut j: usize = 0;
            while j < half
                invariant
                    ctx.wf(),
                    ctx.extends(c_in),
                    n == data@.len(),
                    len == 2 * half,
                    i + len <= n,
                    (i as int) % (len as int) == 0,
                    j <= half,
                    prev.len() == n,
                    stage == butterfly_stage(prev, half as nat),
                    ctx.contains_c(w_step),
                    ctx.cexpr(w_step) == twiddle_step(len as nat),
                    ctx.contains_c(w),
                    ctx.cexpr(w) == twiddle(len as nat, j as nat),
                    ctx.contains_all(data@),
                    forall|p: int| 0 <= p < n ==> #[trigger] ctx.cexprs(data@)[p] ==
                        if p < i || (i <= p < i + j) || (i + half <= p < i + half + j) { stage[p] } else { prev[p] },
                decreases half - j,
            {
                let ghost c_j = *ctx;
                let ghost before_ops = data@;
                let a = i + j;
                let b = i + j + half;
                let u = data[a];
                let x = data[b];
                assert(ctx.contains_c(data@[a as int]));
                assert(ctx.contains_c(data@[b as int]));
                let t = w.mul(x, ctx);
                let ghost c_t = *ctx;
                proof { ctx.lemma_cexpr_stable(c_j, u); }
                let sum = u.add(t, ctx);
                let ghost c_sum = *ctx;
                proof { ctx.lemma_cexpr_stable(c_t, u); ctx.lemma_cexpr_stable(c_t, t); }
                let diff = u.sub(t, ctx);
                let ghost c_diff = *ctx;
                proof {
                    ctx.lemma_cexpr_stable(c_sum, sum);
                    ctx.lemma_cexpr_stable(c_j, w_step);
                    ctx.lemma_cexpr_stable(c_j, w);
                }
                let w_next = w.mul(w_step, ctx);
                proof {
                    ctx.lemma_cexpr_stable(c_diff, sum);
                    ctx.lemma_cexpr_stable(c_diff, diff);
                    ctx.lemma_cexpr_stable(c_diff, w_step);
                    ctx.lemma_cexprs_stable(c_j, data@);
                    // the two positions get the butterfly outputs
                    assert((a as int) % (len as int) == j as int) by (nonlinear_arith)
                        requires (i as int) % (len as int) == 0, a == i + j, j < len, len > 0;
                    assert((b as int) % (len as int) == (j + half) as int) by (nonlinear_arith)
                        requires (i as int) % (len as int) == 0, b == i + j + half, j + half < len, len > 0;
                    assert(c_j.cexprs(before_ops)[a as int] == prev[a as int]);
                    assert(c_j.cexprs(before_ops)[b as int] == prev[b as int]);
                    assert(c_j.cexpr(u) == prev[a as int]);
                    assert(c_j.cexpr(x) == prev[b as int]);
                    assert(ctx.cexpr(sum) == c_add(prev[a as int], c_mul(twiddle(len as nat, j as nat), prev[b as int])));
                    assert(ctx.cexpr(diff) == c_sub(prev[a as int], c_mul(twiddle(len as nat, j as nat), prev[b as int])));
                    assert(stage[a as int] == ctx.cexpr(sum));
                    assert(stage[b as int] == ctx.cexpr(diff));
                }
                w = w_next;
                let ghost before = data@;
                data.set(a, sum);
                data.set(b, diff);
                proof {
                    assert forall|p: int| 0 <= p < n implies #[trigger] ctx.cexprs(data@)[p] ==
                        if p < i || (i <= p < i + j + 1) || (i + half <= p < i + half + j + 1) { stage[p] } else { prev[p] } by {
                        if p != a && p != b {
                            assert(data@[p] == before[p]);
                            assert(ctx.cexprs(before)[p] == c_j.cexprs(before)[p]);
                        }
                    }
                    assert(ctx.contains_all(data@)) by {
                        assert forall|p: int| 0 <= p < n implies ctx.contains_c(#[trigger] data@[p]) by {
                            if p != a && p != b {
                                assert(data@[p] == before[p]);
                            }
                        }
                    }
                }
                j = j + 1;
            }
            proof {
                assert forall|p: int| 0 <= p < n implies #[trigger] ctx.cexprs(data@)[p] ==
                    if p < i + len { stage[p] } else { prev[p] } by {
                    if i <= p < i + len {
                        if p < i + half {
                        } else {
                            assert(i + half <= p < i + half + half);
                        }
                    }
                }
            }
            i = i + len;
            proof {
                c = c + 1;
                assert(i == c * len) by (nonlinear_arith)
                    requires i == (c - 1) * len + len;
                assert(c <= blocks) by (nonlinear_arith)
                    requires i == c * len, i <= n, n == len * blocks, len > 0;
            }
        }
        proof {
            assert(ctx.cexprs(data@) =~= stage);
            assert(butterfly_stages(prev, half as nat) == butterfly_stages(stage, 2 * half as nat));
        }
        half = len;
        proof {
            s = s + 1;
        }
    }
    proof {
        assert(butterfly_stages(ctx.cexprs(data@), half as nat) == ctx.cexprs(data@));
    }
}

/// The complex conjugate `(x.re, 0 - x.im)`.
pub open spec fn c_conj(x: CExpr) -> CExpr {
    (x.0, Expr::Sub(Box::new(zero_expr()), Box::new(x.1)))
}

/// The conjugate of `x`, with both parts multiplied by `s`.
pub open spec fn c_conj_scale(x: CExpr, s: Expr) -> CExpr {
    (
        Expr::Mul(Box::new(x.0), Box::new(s)),
        Expr::Mul(Box::new(Expr::Sub(Box::new(zero_expr()), Box::new(x.1))), Box::new(s)),
    )
}

/// The inverse transform: conjugate, transform forward, conjugate and divide by the length.
pub open spec fn ifft_network(xs: Seq<CExpr>) -> Seq<CExpr> {
    let ys = fft_network(Seq::new(xs.len(), |i: int| c_conj(xs[i])));
    Seq::new(xs.len(), |i: int| c_conj_scale(ys[i], Expr::Const(Leaf::Reciprocal(xs.len() as usize))))
}

pub proof fn lemma_butterfly_stages_len(xs: Seq<CExpr>, half: nat)
    ensures
        butterfly_stages(xs, half).len() == xs.len(),
    decreases if half < xs.len() { xs.len() - half } else { 0 },
{
    if !(half == 0 || half >= xs.len()) {
        lemma_butterfly_stages_len(butterfly_stage(xs, half), 2 * half);
    }
}

pub proof fn lemma_fft_network_len(xs: Seq<CExpr>)
    ensures
        fft_network(xs).len() == xs.len(),
{
    lemma_butterfly_stages_len(bit_reversed(xs), 1);
}

/// Computes the 1D inverse Fast Fourier Transform in place, by conjugating, running
/// the forward transform, and conjugating and dividing by the length.
pub fn ifft_1d(ctx: &mut Context, data: &mut Vec<ComplexVariable>)
    requires
        old(ctx).wf(),
        old(ctx).contains_all(old(data)@),
        is_power_of_two(old(data)@.len() as int),
    ensures
        final(ctx).wf(),
        final(ctx).extends(*old(ctx)),
        final(data)@.len() == old(data)@.len(),
        final(ctx).contains_all(final(data)@),
        final(ctx).cexprs(final(data)@) == ifft_network(old(ctx).cexprs(old(data)@)),
{
    let n = data.len();
    let ghost c_in = *ctx;
    let ghost input = ctx.cexprs(data@);
    let ghost conj = Seq::new(n as nat, |i: int| c_conj(input[i]));
    let mut idx: usize = 0;
    while idx < n
        invariant
            ctx.wf(),
            ctx.extends(c_in),
            n == data@.len(),
            input.len() == n,
            conj == Seq::new(n as nat, |i: int| c_conj(input[i])),
            ctx.contains_all(data@),
            forall|p: int| 0 <= p < n ==> #[trigger] ctx.cexprs(data@)[p] == if p < idx { conj[p] } else { input[p] },
        decreases n - idx,
    {
        let ghost c0 = *ctx;
        let ghost before = data@;
        let x = data[idx];
        assert(ctx.contains_c(before[idx as int]));
        let zero = ctx.constant(Leaf::Bits(ZERO_BITS));
        let ghost c1 = *ctx;
        proof { c1.lemma_cexpr_stable(c0, x); }
        let conj_im = ctx.sub(zero, x.im);
        proof {
            ctx.lemma_cexpr_stable(c1, x);
            ctx.lemma_cexprs_stable(c0, data@);
        }
        proof {
            assert(c0.cexprs(before)[idx as int] == input[idx as int]);
            assert(ctx.cexpr(ComplexVariable { re: x.re, im: conj_im }) == c_conj(input[idx as int]));
        }
        data.set(idx, ComplexVariable { re: x.re, im: conj_im });
        proof {
            assert forall|p: int| 0 <= p < n implies #[trigger] ctx.cexprs(data@)[p] == if p < idx + 1 { conj[p] } else { input[p] } by {
                if p != idx {
                    assert(data@[p] == before[p]);
                    assert(ctx.cexprs(before)[p] == c0.cexprs(before)[p]);
                }
            }
            assert(ctx.contains_all(data@)) by {
                assert forall|p: int| 0 <= p < n implies ctx.contains_c(#[trigger] data@[p]) by {
                    if p != idx {
                        assert(data@[p] == before[p]);
                    }
                }
            }
        }
        idx = idx + 1;
    }
    proof {
        assert(ctx.cexprs(data@) =~= conj);
    }
    fft_1d(ctx, data);
    let ghost transformed = ctx.cexprs(data@);
    proof {
        lemma_fft_network_len(conj);
    }
    let ghost c_s = *ctx;
    let s = ctx.constant(Leaf::Reciprocal(n));
    proof {
        ctx.lemma_cexprs_stable(c_s, data@);
    }
    let ghost c_out = *ctx;
    let ghost out = Seq::new(n as nat, |i: int| c_conj_scale(transformed[i], Expr::Const(Leaf::Reciprocal(n))));
    let mut idx: usize = 0;
    while idx < n
        invariant
            ctx.wf(),
            ctx.extends(c_in),
            n == data@.len(),
            transformed.len() == n,
            ctx.contains(s),
            ctx.expr_of(s) == Expr::Const(Leaf::Reciprocal(n)),
            out == Seq::new(n as nat, |i: int| c_conj_scale(transformed[i], Expr::Const(Leaf::Reciprocal(n)))),
            ctx.contains_all(data@),
            forall|p: int| 0 <= p < n ==> #[trigger] ctx.cexprs(data@)[p] == if p < idx { out[p] } else { transformed[p] },
        decreases n - idx,
    {
        let ghost c0 = *ctx;
        let ghost before = data@;
        let x = data[idx];
        assert(ctx.contains_c(before[idx as int]));
        let zero = ctx.constant(Leaf::Bits(ZERO_BITS));
        let ghost c1 = *ctx;
        proof { c1.lemma_cexpr_stable(c0, x); c1.lemma_extends(c0); }
        let conj_im = ctx.sub(zero, x.im);
        let ghost c2 = *ctx;
        proof { c2.lemma_cexpr_stable(c1, x); c2.lemma_extends(c1); }
        let re = ctx.mul(x.re, s);
        let ghost c3 = *ctx;
        proof { c3.lemma_extends(c2); }
        let im = ctx.mul(conj_im, s);
        proof {
            ctx.lemma_extends(c3);
            ctx.lemma_extends(c2);
            ctx.lemma_cexprs_stable(c0, data@);
        }
        proof {
            assert(c0.cexprs(before)[idx as int] == transformed[idx as int]);
            assert(ctx.cexpr(ComplexVariable { re, im }) == out[idx as int]);
        }
        data.set(idx, ComplexVariable { re, im });
        proof {
            assert forall|p: int| 0 <= p < n implies #[trigger] ctx.cexprs(data@)[p] == if p < idx + 1 { out[p] } else { transformed[p] } by {
                if p != idx {
                    assert(data@[p] == before[p]);
                    assert(ctx.cexprs(before)[p] == c0.cexprs(before)[p]);
                }
            }
            assert(ctx.contains_all(data@)) by {
                assert forall|p: int| 0 <= p < n implies ctx.contains_c(#[trigger] data@[p]) by {
                    if p != idx {
                        assert(data@[p] == before[p]);
                    }
                }
            }
        }
        idx = idx + 1;
    }
    proof {
        assert(ctx.cexprs(data@) =~= ifft_network(input));
    }
}

/// Which one-dimensional transform to run over the rows and columns.
#[derive(Clone, Copy, Debug, PartialEq, Eq)]
pub enum Transform {
    Forward,
    Inverse,
}

pub open spec fn transform_spec(f: Transform, xs: Seq<CExpr>) -> Seq<CExpr> {
    match f {
        Transform::Forward => fft_network(xs),
        Transform::Inverse => ifft_network(xs),
    }
}

/// Row `r` of a row-major grid of the given width.
pub open spec fn row_of(xs: Seq<CExpr>, width: int, r: int) -> Seq<CExpr> {
    xs.subrange(r * width, r * width + width)
}

/// Column `c` of a row-major grid of the given width and height.
pub open spec fn col_of(xs: Seq<CExpr>, width: int, height: int, c: int) -> Seq<CExpr> {
    Seq::new(height as nat, |r: int| xs[c + r * width])
}

/// Every row replaced by its transform.
pub open spec fn rows_transformed(xs: Seq<CExpr>, width: int, f: Transform) -> Seq<CExpr> {
    Seq::new(xs.len(), |p: int| transform_spec(f, row_of(xs, width, p / width))[p % width])
}

/// Every column replaced by its transform.
pub open spec fn cols_transformed(xs: Seq<CExpr>, width: int, height: int, f: Transform) -> Seq<CExpr> {
    Seq::new(xs.len(), |p: int| transform_spec(f, col_of(xs, width, height, p % width))[p / width])
}

/// The two-dimensional transform: rows first, then columns.
pub open spec fn transform_2d(xs: Seq<CExpr>, width: int, height: int, f: Transform) -> Seq<CExpr> {
    cols_transformed(rows_transformed(xs, width, f), width, height, f)
}

pub proof fn lemma_transform_len(f: Transform, xs: Seq<CExpr>)
    ensures
        transform_spec(f, xs).len() == xs.len(),
{
    lemma_fft_network_len(xs);
}

fn apply_transform(ctx: &mut Context, data: &mut Vec<ComplexVariable>, f: Transform)
    requires
        old(ctx).wf(),
        old(ctx).contains_all(old(data)@),
        is_power_of_two(old(data)@.len() as int),
    ensures
        final(ctx).wf(),
        final(ctx).extends(*old(ctx)),
        final(data)@.len() == old(data)@.len(),
        final(ctx).contains_all(final(data)@),
        final(ctx).cexprs(final(data)@) == transform_spec(f, old(ctx).cexprs(old(data)@)),
{
    match f {
        Transform::Forward => fft_1d(ctx, data),
        Transform::Inverse => ifft_1d(ctx, data),
    }
}

/// Applies the transform `f` to every row of the row-major grid `data`, then to every column.
pub fn row_col_apply(ctx: &mut Context, data: &mut Vec<ComplexVariable>, width: usize, height: usize, f: Transform)
    requires
        old(ctx).wf(),
        old(ctx).contains_all(old(data)@),
        old(data)@.len() == width * height,
        is_power_of_two(width as int),
        is_power_of_two(height as int),
    ensures
        final(ctx).wf(),
        final(ctx).extends(*old(ctx)),
        final(data)@.len() == old(data)@.len(),
        final(ctx).contains_all(final(data)@),
        final(ctx).cexprs(final(data)@) == transform_2d(old(ctx).cexprs(old(data)@), width as int, height as int, f),
{
    let ghost c_in = *ctx;
    let ghost input = ctx.cexprs(data@);
    let ghost n = data@.len();
    let ghost w = width as int;
    let ghost h = height as int;
    proof {
        vstd::arithmetic::power2::lemma_pow2_pos(log2(width as int));
        vstd::arithmetic::power2::lemma_pow2_pos(log2(height as int));
    }
    let ghost mid = rows_transformed(input, w, f);
    let n_exec = data.len();
    assert forall|p: int| 0 <= p < n implies #[trigger] ctx.cexprs(data@)[p] == if p / w < 0 { mid[p] } else { input[p] } by {
        vstd::arithmetic::div_mod::lemma_div_pos_is_pos(p, w);
    }
    for row in 0..height
        invariant
            ctx.wf(),
            ctx.extends(c_in),
            data@.len() == n,
            n_exec == n,
            n == width * height,
            width > 0,
            height > 0,
            w == width,
            h == height,
            is_power_of_two(width as int),
            input.len() == n,
            mid == rows_transformed(input, w, f),
            ctx.contains_all(data@),
            forall|p: int| 0 <= p < n ==> #[trigger] ctx.cexprs(data@)[p] == if p / w < row { mid[p] } else { input[p] },
    {
        proof {
            lemma_grid_join(row as int, 0, w, h);
            lemma_grid_join(row as int, w - 1, w, h);
        }
        let row_index = row * width;
        let ghost c0 = *ctx;
        let ghost before = data@;
        let mut line = gather(data, row_index, 1, width);
        proof {
            assert forall|q: int| 0 <= q < width implies ctx.contains_c(#[trigger] line@[q]) by {
                assert(line@[q] == before[row_index + q * 1]);
            }
            assert(ctx.cexprs(line@) =~= row_of(input, w, row as int)) by {
                assert forall|q: int| 0 <= q < width implies #[trigger] ctx.cexprs(line@)[q] == row_of(input, w, row as int)[q] by {
                    assert(line@[q] == before[row_index + q * 1]);
                    lemma_grid_join(row as int, q, w, h);
                    assert(ctx.cexprs(before)[row_index + q] == input[row_index + q]);
                }
            }
        }
        apply_transform(ctx, &mut line, f);
        proof {
            ctx.lemma_cexprs_stable(c0, before);
            lemma_transform_len(f, row_of(input, w, row as int));
        }
        scatter(data, &line, row_index, 1);
        proof {
            assert forall|p: int| 0 <= p < n implies #[trigger] ctx.cexprs(data@)[p] == if p / w < row + 1 { mid[p] } else { input[p] } by {
                lemma_grid_split(p, w, h);
                assert(p < width * height);
                if p / w == row {
                    assert(p == row_index + p % w);
                    assert(in_stripe(p, row_index as int, 1, width as int));
                    assert(data@[p] == line@[p - row_index]);
                } else {
                    if p / w < row {
                        assert((p / w) * w + w <= row * w) by (nonlinear_arith)
                            requires p / w < row, w > 0;
                    } else {
                        assert((p / w) * w >= row * w + w) by (nonlinear_arith)
                            requires p / w > row, w > 0;
                    }
                    assert(!in_stripe(p, row_index as int, 1, width as int));
                    assert(data@[p] == before[p]);
                    assert(ctx.cexprs(before)[p] == c0.cexprs(before)[p]);
                }
            }
            assert(ctx.contains_all(data@)) by {
                assert forall|p: int| 0 <= p < n implies ctx.contains_c(#[trigger] data@[p]) by {
                    if row_index <= p < row_index + width {
                        assert(in_stripe(p, row_index as int, 1, width as int));
                        assert(data@[p] == line@[p - row_index]);
                    } else {
                        assert(!in_stripe(p, row_index as int, 1, width as int));
                        assert(data@[p] == before[p]);
                    }
                }
            }
        }
    }
    proof {
        assert(ctx.cexprs(data@) =~= mid) by {
            assert forall|p: int| 0 <= p < n implies #[trigger] ctx.cexprs(data@)[p] == mid[p] by {
                lemma_grid_split(p, w, h);
                lemma_grid_join(p / w, p % w, w, h);
                assert(p < height * width) by (nonlinear_arith) requires p < n, n == width * height;
            }
        }
    }
    let ghost c_cols = *ctx;
    let zero_re = ctx.constant(Leaf::Bits(ZERO_BITS));
    let zero_im = ctx.constant(Leaf::Bits(ZERO_BITS));
    let mut columns = vec![ComplexVariable { re: zero_re, im: zero_im }; height];
    proof {
        ctx.lemma_cexprs_stable(c_cols, data@);
        ctx.lemma_extends(c_cols);
    }
    let ghost out = cols_transformed(mid, w, h, f);
    for col in 0..width
        invariant
            ctx.wf(),
            ctx.extends(c_in),
            data@.len() == n,
            n == width * height,
            width > 0,
            height > 0,
            w == width,
            h == height,
            is_power_of_two(height as int),
            mid.len() == n,
            out == cols_transformed(mid, w, h, f),
            columns@.len() == height,
            ctx.contains_all(columns@),
            ctx.contains_all(data@),
            forall|p: int| 0 <= p < n ==> #[trigger] ctx.cexprs(data@)[p] == if p % w < col { out[p] } else { mid[p] },
    {
        let ghost c0 = *ctx;
        let ghost before = data@;
        proof {
            lemma_grid_join(h - 1, col as int, w, h);
        }
        gather_into(&mut columns, data, col, width);
        proof {
            assert forall|q: int| 0 <= q < height implies ctx.contains_c(#[trigger] columns@[q]) by {
                lemma_grid_join(q, col as int, w, h);
                assert(columns@[q] == before[col + q * width]);
            }
            assert(ctx.cexprs(columns@) =~= col_of(mid, w, h, col as int)) by {
                assert forall|q: int| 0 <= q < height implies #[trigger] ctx.cexprs(columns@)[q] == col_of(mid, w, h, col as int)[q] by {
                    lemma_grid_join(q, col as int, w, h);
                    assert(col + q * width == q * width + col);
                    assert(columns@[q] == before[col + q * width]);
                    assert(ctx.cexprs(before)[col + q * width] == mid[col + q * width]);
                }
            }
        }
        apply_transform(ctx, &mut columns, f);
        proof {
            ctx.lemma_cexprs_stable(c0, before);
            lemma_transform_len(f, col_of(mid, w, h, col as int));
        }
        scatter(data, &columns, col, width);
        proof {
            assert forall|p: int| 0 <= p < n implies #[trigger] ctx.cexprs(data@)[p] == if p % w < col + 1 { out[p] } else { mid[p] } by {
                lemma_column_stripe(p, col as int, w, h);
                lemma_grid_split(p, w, h);
                if p % w == col {
                    assert(data@[p] == columns@[(p - col) / w]);
                } else {
                    assert(data@[p] == before[p]);
                    assert(ctx.cexprs(before)[p] == c0.cexprs(before)[p]);
                }
            }
            assert(ctx.contains_all(data@)) by {
                assert forall|p: int| 0 <= p < n implies ctx.contains_c(#[trigger] data@[p]) by {
                    lemma_column_stripe(p, col as int, w, h);
                    lemma_grid_split(p, w, h);
                    if p % w == col {
                        assert(data@[p] == columns@[(p - col) / w]);
                    } else {
                        assert(data@[p] == before[p]);
                    }
                }
            }
        }
    }
    proof {
        assert(ctx.cexprs(data@) =~= out) by {
            assert forall|p: int| 0 <= p < n implies #[trigger] ctx.cexprs(data@)[p] == out[p] by {
                lemma_grid_split(p, w, h);
            }
        }
    }
}

/// Computes the 2D FFT in place on a row-major grid: every row, then every column.
pub fn fft_2d(ctx: &mut Context, data: &mut Vec<ComplexVariable>, width: usize, height: usize)
    requires
        old(ctx).wf(),
        old(ctx).contains_all(old(data)@),
        old(data)@.len() == width * height,
        is_power_of_two(width as int),
        is_power_of_two(height as int),
    ensures
        final(ctx).wf(),
        final(ctx).extends(*old(ctx)),
        final(data)@.len() == old(data)@.len(),
        final(ctx).contains_all(final(data)@),
        final(ctx).cexprs(final(data)@) == transform_2d(old(ctx).cexprs(old(data)@), width as int, height as int, Transform::Forward),
{
    row_col_apply(ctx, data, width, height, Transform::Forward)
}

/// Computes the 2D inverse FFT in place on a row-major grid.
pub fn ifft_2d(ctx: &mut Context, data: &mut Vec<ComplexVariable>, width: usize, height: usize)
    requires
        old(ctx).wf(),
        old(ctx).contains_all(old(data)@),
        old(data)@.len() == width * height,
        is_power_of_two(width as int),
        is_power_of_two(height as int),
    ensures
        final(ctx).wf(),
        final(ctx).extends(*old(ctx)),
        final(data)@.len() == old(data)@.len(),
        final(ctx).contains_all(final(data)@),
        final(ctx).cexprs(final(data)@) == transform_2d(old(ctx).cexprs(old(data)@), width as int, height as int, Transform::Inverse),
{
    row_col_apply(ctx, data, width, height, Transform::Inverse)
}

} // verus!
