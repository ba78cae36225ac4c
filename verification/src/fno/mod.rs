pub mod backprop;
pub mod layers;
pub mod training;
pub mod values;
pub mod semantics;

use vstd::prelude::*;

use crate::calculations::fft::{is_power_of_two, lemma_grid_join, lemma_grid_split};
use crate::fno::backprop::graph::{
    id_range, leaves_at, lemma_id_range_append, lemma_leaves_at_append, Context, Expr, Leaf, Node, Variable, ZERO_BITS,
};
use crate::fno::layers::{
    concat, concat_map, copy_range, fourier_spec, fresh_leaves, lemma_concat_contains, lemma_fresh_as_leaves,
    lemma_concat_len_eq, lemma_concat_map_exprs_parts, lemma_concat_map_len_eq, lemma_concat_map_take,
    lemma_exprs_append, lemma_exprs_split, lemma_row3_len, linear_spec, new_inputs, row3_fn, FourierLayer,
    LinearLayer, SpectralModel,
};

verus! {

/// The weights of a Fourier layer as expressions: residual, then spectral.
pub type LayerModel = (Seq<Seq<Expr>>, SpectralModel);

/// The weights of a Fourier neural operator, as expressions.
pub struct FnoModel {
    pub lift: Seq<Seq<Expr>>,
    pub lift_bias: Seq<Expr>,
    pub layers: Seq<LayerModel>,
    pub proj_1: Seq<Seq<Expr>>,
    pub proj_b1: Seq<Expr>,
    pub proj_2: Seq<Seq<Expr>>,
    pub proj_b2: Seq<Expr>,
}

/// `xs[p] + b[p % c]`: a bias per channel added to a point-major field.
pub open spec fn add_bias(xs: Seq<Expr>, b: Seq<Expr>, c: nat) -> Seq<Expr> {
    Seq::new(xs.len(), |p: int| Expr::Add(Box::new(xs[p]), Box::new(b[p % (c as int)])))
}

/// `relu(xs[p] + b[p % c])`.
pub open spec fn add_bias_relu(xs: Seq<Expr>, b: Seq<Expr>, c: nat) -> Seq<Expr> {
    Seq::new(xs.len(), |p: int| Expr::Relu(Box::new(Expr::Add(Box::new(xs[p]), Box::new(b[p % (c as int)])))))
}

/// The Fourier layers applied in turn, the first one first.
pub open spec fn layers_spec(layers: Seq<LayerModel>, c: nat, modes: (usize, usize), dims: (usize, usize), xs: Seq<Expr>) -> Seq<Expr>
    decreases layers.len(),
{
    if layers.len() == 0 {
        xs
    } else {
        let l = layers.last();
        fourier_spec(l.0, l.1, c, modes, dims, layers_spec(layers.drop_last(), c, modes, dims, xs))
    }
}

/// The forward pass of a Fourier neural operator: lift and add the bias, the Fourier
/// layers, then the first projection with bias and ReLU, and the second with bias.
pub open spec fn fno_spec(m: FnoModel, channels: (usize, usize, usize), modes: (usize, usize), dims: (usize, usize),
    xs: Seq<Expr>) -> Seq<Expr>
{
    let n = (dims.0 * dims.1) as nat;
    let lifted = add_bias(linear_spec(m.lift, channels.0 as nat, channels.1 as nat, n, xs), m.lift_bias, channels.1 as nat);
    let hidden = layers_spec(m.layers, channels.1 as nat, modes, dims, lifted);
    let projected = add_bias_relu(linear_spec(m.proj_1, channels.1 as nat, channels.1 as nat, n, hidden), m.proj_b1, channels.1 as nat);
    add_bias(linear_spec(m.proj_2, channels.1 as nat, channels.2 as nat, n, projected), m.proj_b2, channels.2 as nat)
}

/// The number of weights of one Fourier layer.
pub open spec fn layer_weight_count(c: nat, modes: (usize, usize)) -> nat {
    c * c + 2 * c * c * (modes.0 as nat) * (modes.1 as nat)
}

/// The number of weights of a Fourier neural operator, in collection order: lifting
/// weights and bias, the Fourier layers, the two projections and their biases.
pub open spec fn weight_count(channels: (usize, usize, usize), modes: (usize, usize), num_layers: nat) -> nat {
    let c0 = channels.0 as nat;
    let c1 = channels.1 as nat;
    let c2 = channels.2 as nat;
    c0 * c1 + c1 + num_layers * layer_weight_count(c1, modes) + c1 * c1 + c1 + c1 * c2 + c2
}

/// The variables of a Fourier layer in collection order.
pub open spec fn layer_vars_fn() -> spec_fn(FourierLayer) -> Seq<Variable> {
    |l: FourierLayer| l.vars()
}

pub struct FNO {
    pub channels: (usize, usize, usize),
    pub modes: (usize, usize),
    pub lift_layer: LinearLayer,
    pub lift_bias: Vec<Variable>,
    pub fourier_layers: Vec<FourierLayer>,
    pub proj_1: LinearLayer,
    pub proj_b1: Vec<Variable>,
    pub proj_2: LinearLayer,
    pub proj_b2: Vec<Variable>,
}

impl FNO {
    /// The layers have the shapes that the channels and modes give, and their weights
    /// are nodes of `ctx`.
    pub open spec fn wf(self, ctx: Context) -> bool {
        &&& self.lift_layer.channels == (self.channels.0, self.channels.1)
        &&& self.lift_layer.wf(ctx)
        &&& self.lift_bias@.len() == self.channels.1
        &&& ctx.contains_vars(self.lift_bias@)
        &&& forall|k: int| 0 <= k < self.fourier_layers@.len() ==> {
            &&& (#[trigger] self.fourier_layers@[k]).channels == self.channels.1
            &&& self.fourier_layers@[k].modes == self.modes
            &&& self.fourier_layers@[k].wf(ctx)
        }
        &&& self.proj_1.channels == (self.channels.1, self.channels.1)
        &&& self.proj_1.wf(ctx)
        &&& self.proj_b1@.len() == self.channels.1
        &&& ctx.contains_vars(self.proj_b1@)
        &&& self.proj_2.channels == (self.channels.1, self.channels.2)
        &&& self.proj_2.wf(ctx)
        &&& self.proj_b2@.len() == self.channels.2
        &&& ctx.contains_vars(self.proj_b2@)
    }

    /// The expressions of all the weights.
    pub open spec fn model(self, ctx: Context) -> FnoModel {
        FnoModel {
            lift: self.lift_layer.model(ctx),
            lift_bias: ctx.exprs(self.lift_bias@),
            layers: Seq::new(self.fourier_layers@.len(), |k: int|
                (self.fourier_layers@[k].residual.model(ctx), self.fourier_layers@[k].spectral_model(ctx))),
            proj_1: self.proj_1.model(ctx),
            proj_b1: ctx.exprs(self.proj_b1@),
            proj_2: self.proj_2.model(ctx),
            proj_b2: ctx.exprs(self.proj_b2@),
        }
    }

    /// All the weights in collection order.
    pub open spec fn vars(self) -> Seq<Variable> {
        self.lift_layer.vars() + self.lift_bias@ + concat_map(self.fourier_layers@, layer_vars_fn())
            + self.proj_1.vars() + self.proj_b1@ + self.proj_2.vars() + self.proj_b2@
    }

    pub proof fn lemma_stable(self, ctx: Context, older: Context)
        requires
            self.wf(older),
            ctx.extends(older),
        ensures
            self.wf(ctx),
            self.model(ctx) == self.model(older),
    {
        self.lift_layer.lemma_stable(ctx, older);
        self.proj_1.lemma_stable(ctx, older);
        self.proj_2.lemma_stable(ctx, older);
        ctx.lemma_exprs_stable(older, self.lift_bias@);
        ctx.lemma_exprs_stable(older, self.proj_b1@);
        ctx.lemma_exprs_stable(older, self.proj_b2@);
        assert forall|k: int| 0 <= k < self.fourier_layers@.len() implies (#[trigger] self.fourier_layers@[k]).wf(ctx)
            && self.fourier_layers@[k].residual.model(ctx) == self.fourier_layers@[k].residual.model(older)
            && self.fourier_layers@[k].spectral_model(ctx) == self.fourier_layers@[k].spectral_model(older) by {
            self.fourier_layers@[k].lemma_stable(ctx, older);
        }
        assert(self.model(ctx).layers =~= self.model(older).layers);
    }

    /// All the weights, in collection order: lifting weights and bias, each Fourier
    /// layer, then the two projections, each followed by its bias.
    pub fn collect_weights(&self) -> (vars: Vec<Variable>)
        ensures
            vars@ == self.vars(),
    {
        let mut vars: Vec<Variable> = Vec::new();
        self.lift_layer.collect_weights(&mut vars);
        extend_vars(&mut vars, &self.lift_bias);
        let ghost start = vars@;
        let nl = self.fourier_layers.len();
        for k in 0..nl
            invariant
                nl == self.fourier_layers@.len(),
                vars@ == start + concat_map(self.fourier_layers@.take(k as int), layer_vars_fn()),
        {
            self.fourier_layers[k].collect_variables(&mut vars);
            proof {
                lemma_concat_map_take(self.fourier_layers@, k as int, layer_vars_fn());
                assert(vars@ =~= start + concat_map(self.fourier_layers@.take(k + 1), layer_vars_fn()));
            }
        }
        proof {
            assert(self.fourier_layers@.take(nl as int) =~= self.fourier_layers@);
        }
        self.proj_1.collect_weights(&mut vars);
        extend_vars(&mut vars, &self.proj_b1);
        self.proj_2.collect_weights(&mut vars);
        extend_vars(&mut vars, &self.proj_b2);
        proof {
            assert(vars@ =~= self.vars());
        }
        vars
    }
}

/// Appends the items of `more` to `vars`.
fn extend_vars(vars: &mut Vec<Variable>, more: &Vec<Variable>)
    ensures
        final(vars)@ == old(vars)@ + more@,
{
    let ghost start = vars@;
    for k in 0..more.len()
        invariant
            vars@ == start + more@.take(k as int),
    {
        vars.push(more[k]);
        proof {
            assert(vars@ =~= start + more@.take(k + 1));
        }
    }
    proof {
        assert(more@.take(more@.len() as int) =~= more@);
    }
}

/// Adds `bias[channel]` to every channel of every point of the point-major field
/// `state`, and applies ReLU to the sums when `relu` holds.
fn add_channel_bias(ctx: &mut Context, state: &mut Vec<Variable>, bias: &Vec<Variable>, n: usize, c: usize, relu: bool)
    requires
        old(ctx).wf(),
        old(ctx).contains_vars(old(state)@),
        old(ctx).contains_vars(bias@),
        old(state)@.len() == n * c,
        bias@.len() == c,
    ensures
        final(ctx).wf(),
        final(ctx).extends(*old(ctx)),
        final(state)@.len() == n * c,
        final(ctx).contains_vars(final(state)@),
        final(ctx).exprs(final(state)@) == if relu {
            add_bias_relu(old(ctx).exprs(old(state)@), old(ctx).exprs(bias@), c as nat)
        } else {
            add_bias(old(ctx).exprs(old(state)@), old(ctx).exprs(bias@), c as nat)
        },
{
    let ghost c_in = *ctx;
    let ghost orig = ctx.exprs(state@);
    let ghost b = ctx.exprs(bias@);
    let ghost target = if relu { add_bias_relu(orig, b, c as nat) } else { add_bias(orig, b, c as nat) };
    let state_len = state.len();
    for i in 0..n
        invariant
            ctx.wf(),
            ctx.extends(c_in),
            state@.len() == n * c,
            state_len == n * c,
            bias@.len() == c,
            ctx.contains_vars(bias@),
            ctx.exprs(bias@) == b,
            orig.len() == n * c,
            target == if relu { add_bias_relu(orig, b, c as nat) } else { add_bias(orig, b, c as nat) },
            ctx.contains_vars(state@),
            forall|p: int| 0 <= p < n * c ==> #[trigger] ctx.exprs(state@)[p] == if p / (c as int) < i { target[p] } else { orig[p] },
    {
        for ch in 0..c
            invariant
                ctx.wf(),
                ctx.extends(c_in),
                i < n,
                state@.len() == n * c,
                state_len == n * c,
                bias@.len() == c,
                ctx.contains_vars(bias@),
                ctx.exprs(bias@) == b,
                orig.len() == n * c,
                target == if relu { add_bias_relu(orig, b, c as nat) } else { add_bias(orig, b, c as nat) },
                ctx.contains_vars(state@),
                forall|p: int| 0 <= p < n * c ==> #[trigger] ctx.exprs(state@)[p] ==
                    if p / (c as int) < i || (p / (c as int) == i && p % (c as int) < ch) { target[p] } else { orig[p] },
        {
            proof {
                lemma_grid_join(i as int, ch as int, c as int, n as int);
                assert(c * n == n * c) by (nonlinear_arith);
            }
            let idx = i * c + ch;
            let ghost c0 = *ctx;
            let ghost before = state@;
            assert(ctx.contains(state@[idx as int]));
            assert(ctx.contains(bias@[ch as int]));
            let sum = ctx.add(state[idx], bias[ch]);
            let mut v = sum;
            if relu {
                let ghost c1 = *ctx;
                v = ctx.relu(sum);
                proof { ctx.lemma_extends(c1); }
            }
            proof {
                ctx.lemma_exprs_stable(c0, before);
                ctx.lemma_exprs_stable(c0, bias@);
                assert(c0.exprs(before)[idx as int] == orig[idx as int]);
                assert(ctx.expr_of(v) == target[idx as int]);
            }
            state.set(idx, v);
            proof {
                assert forall|p: int| 0 <= p < n * c implies #[trigger] ctx.exprs(state@)[p] ==
                    if p / (c as int) < i || (p / (c as int) == i && p % (c as int) < ch + 1) { target[p] } else { orig[p] } by {
                    if p != idx {
                        lemma_grid_split(p, c as int, n as int);
                        assert(state@[p] == before[p]);
                        assert(ctx.exprs(before)[p] == c0.exprs(before)[p]);
                    }
                }
                assert(ctx.contains_vars(state@)) by {
                    assert forall|p: int| 0 <= p < state@.len() implies ctx.contains(#[trigger] state@[p]) by {
                        if p != idx {
                            assert(state@[p] == before[p]);
                        }
                    }
                }
            }
        }
        proof {
            assert forall|p: int| 0 <= p < n * c implies #[trigger] ctx.exprs(state@)[p] ==
                if p / (c as int) < i + 1 { target[p] } else { orig[p] } by {
                assert(c * n == n * c) by (nonlinear_arith);
                if c == 0 {
                    assert(n * c == 0);
                }
                lemma_grid_split(p, c as int, n as int);
            }
        }
    }
    proof {
        assert(ctx.exprs(state@) =~= target) by {
            assert forall|p: int| 0 <= p < n * c implies #[trigger] ctx.exprs(state@)[p] == target[p] by {
                assert(c * n == n * c) by (nonlinear_arith);
                if c == 0 {
                    assert(n * c == 0);
                }
                lemma_grid_split(p, c as int, n as int);
            }
        }
    }
}

impl FNO {
    /// The forward pass over a field of `in_dims.0 * in_dims.1` points with
    /// `channels.0` channels each, stored point-major; the output has `channels.2`
    /// channels per point.
    pub fn forward(&self, ctx: &mut Context, in_dims: (usize, usize), input: &Vec<Variable>) -> (output: Vec<Variable>)
        requires
            old(ctx).wf(),
            self.wf(*old(ctx)),
            old(ctx).contains_vars(input@),
            self.fourier_layers@.len() > 0 ==> is_power_of_two(in_dims.0 as int) && is_power_of_two(in_dims.1 as int),
            in_dims.0 * in_dims.1 * self.channels.0 <= input@.len(),
            in_dims.0 * in_dims.1 * self.channels.1 <= usize::MAX,
            in_dims.0 * in_dims.1 * self.channels.2 <= usize::MAX,
            in_dims.0 * in_dims.1 <= usize::MAX,
        ensures
            final(ctx).wf(),
            final(ctx).extends(*old(ctx)),
            final(ctx).contains_vars(output@),
            final(ctx).exprs(output@) == fno_spec(self.model(*old(ctx)), self.channels, self.modes, in_dims, old(ctx).exprs(input@)),
    {
        let ghost c_in = *ctx;
        let ghost m = self.model(*ctx);
        let ghost xs = ctx.exprs(input@);
        let ghost n = (in_dims.0 * in_dims.1) as nat;
        let c1 = self.channels.1;
        let c2 = self.channels.2;
        let np = in_dims.0 * in_dims.1;
        let mut state = self.lift_layer.forward(ctx, in_dims, input);
        proof {
            self.lemma_stable(*ctx, c_in);
        }
        add_channel_bias(ctx, &mut state, &self.lift_bias, np, c1, false);
        proof {
            self.lemma_stable(*ctx, c_in);
        }
        let ghost lifted = ctx.exprs(state@);
        let nl = self.fourier_layers.len();
        for k in 0..nl
            invariant
                ctx.wf(),
                ctx.extends(c_in),
                self.wf(*ctx),
                self.model(*ctx) == m,
                nl == self.fourier_layers@.len(),
                c1 == self.channels.1,
                np == in_dims.0 * in_dims.1,
                np * c1 <= usize::MAX,
                nl > 0 ==> is_power_of_two(in_dims.0 as int) && is_power_of_two(in_dims.1 as int),
                state@.len() == np * c1,
                ctx.contains_vars(state@),
                ctx.exprs(state@) == layers_spec(m.layers.take(k as int), c1 as nat, self.modes, in_dims, lifted),
        {
            let ghost c0 = *ctx;
            let layer = &self.fourier_layers[k];
            proof {
                assert(layer.wf(*ctx));
                assert(np * c1 == in_dims.0 * in_dims.1 * layer.channels);
            }
            let next = layer.forward(ctx, in_dims, &state);
            proof {
                self.lemma_stable(*ctx, c0);
                assert(m.layers.take(k + 1).drop_last() =~= m.layers.take(k as int));
                assert(m.layers.take(k + 1).last() == m.layers[k as int]);
                assert(next@.len() == np * c1) by {
                    assert(ctx.exprs(next@).len() == next@.len());
                }
            }
            state = next;
        }
        proof {
            assert(m.layers.take(nl as int) =~= m.layers);
        }
        let ghost hidden = ctx.exprs(state@);
        let ghost c_p1 = *ctx;
        let mut state = self.proj_1.forward(ctx, in_dims, &state);
        proof {
            self.lemma_stable(*ctx, c_p1);
        }
        add_channel_bias(ctx, &mut state, &self.proj_b1, np, c1, true);
        proof {
            self.lemma_stable(*ctx, c_p1);
        }
        let ghost c_p2 = *ctx;
        let mut output = self.proj_2.forward(ctx, in_dims, &state);
        proof {
            self.lemma_stable(*ctx, c_p2);
            assert(output@.len() == np * c2) by {
                assert(ctx.exprs(output@).len() == output@.len());
            }
        }
        add_channel_bias(ctx, &mut output, &self.proj_b2, np, c2, false);
        output
    }
}

/// Appending `more`, whose expressions are the input nodes `more_ids` holding
/// `w[off .. off + len]`, to `acc`, whose expressions are the input nodes `ids`
/// holding `w[.. off]`, gives the input nodes `ids + more_ids` holding `w[.. off + len]`.
proof fn lemma_extend_acc(ctx: Context, acc: Seq<Variable>, more: Seq<Variable>, ids: Seq<int>, more_ids: Seq<int>,
    w: Seq<u32>, off: int, len: int)
    requires
        0 <= off,
        0 <= len,
        off + len <= w.len(),
        ids.len() == off,
        more_ids.len() == len,
        ctx.contains_vars(acc),
        ctx.contains_vars(more),
        ctx.exprs(acc) == leaves_at(ids, w.take(off)),
        ctx.exprs(more) == leaves_at(more_ids, w.subrange(off, off + len)),
    ensures
        ctx.contains_vars(acc + more),
        ctx.exprs(acc + more) == leaves_at(ids + more_ids, w.take(off + len)),
{
    lemma_exprs_append(ctx, acc, more);
    lemma_leaves_at_append(ids, w.take(off), more_ids, w.subrange(off, off + len));
    assert(w.take(off + len) =~= w.take(off) + w.subrange(off, off + len));
    assert forall|q: int| 0 <= q < (acc + more).len() implies ctx.contains(#[trigger] (acc + more)[q]) by {
        if q < acc.len() {
            assert((acc + more)[q] == acc[q]);
        } else {
            assert((acc + more)[q] == more[q - acc.len()]);
        }
    }
}

/// The nodes of `count` biases starting at position `start`: one shared node, or
/// `count` new ones.
pub open spec fn bias_ids(start: int, count: nat, shared: bool) -> Seq<int> {
    if shared {
        Seq::new(count, |k: int| start)
    } else {
        id_range(start, count)
    }
}

/// The number of nodes that `count` biases take.
pub open spec fn bias_node_count(count: nat, shared: bool) -> nat {
    if shared {
        1
    } else {
        count
    }
}

/// The positions of the weight nodes of an operator built from position `base` on, in
/// collection order: every weight a new node, except that with `shared` each bias
/// vector is one new node.
pub open spec fn fno_ids(base: int, channels: (usize, usize, usize), modes: (usize, usize), num_layers: nat, shared: bool)
    -> Seq<int>
{
    let c0 = channels.0 as nat;
    let c1 = channels.1 as nat;
    let c2 = channels.2 as nat;
    let lm = num_layers * layer_weight_count(c1, modes);
    let s1 = base + c0 * c1;
    let s2 = s1 + bias_node_count(c1, shared);
    let s3 = s2 + lm + c1 * c1;
    let s4 = s3 + bias_node_count(c1, shared);
    let s5 = s4 + c1 * c2;
    id_range(base, c0 * c1) + bias_ids(s1, c1, shared) + id_range(s2, lm) + id_range(s2 + lm, c1 * c1)
        + bias_ids(s3, c1, shared) + id_range(s4, c1 * c2) + bias_ids(s5, c2, shared)
}

/// Without sharing, the weights of an operator are the nodes that follow `base`, in order.
pub proof fn lemma_fno_ids_unshared(base: int, channels: (usize, usize, usize), modes: (usize, usize), num_layers: nat)
    ensures
        fno_ids(base, channels, modes, num_layers, false) == id_range(base, weight_count(channels, modes, num_layers)),
{
    let c0 = channels.0 as nat;
    let c1 = channels.1 as nat;
    let c2 = channels.2 as nat;
    let lm = num_layers * layer_weight_count(c1, modes);
    lemma_id_range_append(base, c0 * c1, c1);
    lemma_id_range_append(base, c0 * c1 + c1, lm);
    lemma_id_range_append(base, c0 * c1 + c1 + lm, c1 * c1);
    lemma_id_range_append(base, c0 * c1 + c1 + lm + c1 * c1, c1);
    lemma_id_range_append(base, c0 * c1 + c1 + lm + c1 * c1 + c1, c1 * c2);
    lemma_id_range_append(base, c0 * c1 + c1 + lm + c1 * c1 + c1 + c1 * c2, c2);
}

/// The position of the lifting bias among the weights in collection order.
pub open spec fn lift_bias_start(channels: (usize, usize, usize)) -> int {
    (channels.0 as int) * (channels.1 as int)
}

/// The position of the first projection bias among the weights in collection order.
pub open spec fn proj_b1_start(channels: (usize, usize, usize), modes: (usize, usize), num_layers: nat) -> int {
    let c1 = channels.1 as int;
    lift_bias_start(channels) + c1 + num_layers * layer_weight_count(channels.1 as nat, modes) + c1 * c1
}

/// The position of the second projection bias among the weights in collection order.
pub open spec fn proj_b2_start(channels: (usize, usize, usize), modes: (usize, usize), num_layers: nat) -> int {
    let c1 = channels.1 as int;
    proj_b1_start(channels, modes, num_layers) + c1 + c1 * (channels.2 as int)
}

/// The biases, in collection order, are all zero.
pub open spec fn biases_zero(weights: Seq<u32>, channels: (usize, usize, usize), modes: (usize, usize), num_layers: nat) -> bool {
    &&& forall|q: int| lift_bias_start(channels) <= q < lift_bias_start(channels) + channels.1 ==> #[trigger] weights[q] == ZERO_BITS
    &&& forall|q: int| proj_b1_start(channels, modes, num_layers) <= q < proj_b1_start(channels, modes, num_layers) + channels.1
        ==> #[trigger] weights[q] == ZERO_BITS
    &&& forall|q: int| proj_b2_start(channels, modes, num_layers) <= q < proj_b2_start(channels, modes, num_layers) + channels.2
        ==> #[trigger] weights[q] == ZERO_BITS
}

/// `count` biases: one shared new zero node, or new input nodes holding
/// `weights[off .. off + count]`.
fn bias_vars(ctx: &mut Context, weights: &[u32], off: usize, count: usize, shared: bool) -> (vars: Vec<Variable>)
    requires
        old(ctx).wf(),
        off + count <= weights@.len(),
        shared ==> forall|q: int| off <= q < off + count ==> #[trigger] weights@[q] == ZERO_BITS,
    ensures
        final(ctx).wf(),
        final(ctx).extends(*old(ctx)),
        vars@.len() == count,
        final(ctx).contains_vars(vars@),
        final(ctx)@.len() == old(ctx)@.len() + bias_node_count(count as nat, shared),
        final(ctx).exprs(vars@) == leaves_at(bias_ids(old(ctx)@.len() as int, count as nat, shared),
            weights@.subrange(off as int, off + count)),
{
    let ghost base = ctx@.len() as int;
    if shared {
        let zero = ctx.variable(ZERO_BITS);
        let vars = vec![zero; count];
        proof {
            assert(ctx.contains_vars(vars@));
            assert(ctx.exprs(vars@) =~= leaves_at(bias_ids(base, count as nat, shared), weights@.subrange(off as int, off + count))) by {
                assert forall|q: int| 0 <= q < count implies #[trigger] ctx.exprs(vars@)[q]
                    == leaves_at(bias_ids(base, count as nat, shared), weights@.subrange(off as int, off + count))[q] by {
                    assert(weights@[off + q] == ZERO_BITS);
                }
            }
        }
        vars
    } else {
        let vars = new_inputs(ctx, weights, off, count);
        proof {
            lemma_fresh_as_leaves(base, weights@.subrange(off as int, off + count));
        }
        vars
    }
}

impl FNO {
    /// A Fourier neural operator whose weights are new input nodes holding `weights`,
    /// read in collection order.
    pub fn from_weights(ctx: &mut Context, channels: (usize, usize, usize), modes: (usize, usize), num_layers: usize,
        weights: &[u32]) -> (fno: FNO)
        requires
            old(ctx).wf(),
            weights@.len() == weight_count(channels, modes, num_layers as nat),
            layer_weight_count(channels.1 as nat, modes) <= usize::MAX,
            channels.1 * channels.1 * modes.0 <= usize::MAX,
        ensures
            final(ctx).wf(),
            final(ctx).extends(*old(ctx)),
            fno.channels == channels,
            fno.modes == modes,
            fno.fourier_layers@.len() == num_layers,
            fno.wf(*final(ctx)),
            final(ctx)@.len() == old(ctx)@.len() + weights@.len(),
            final(ctx).exprs(fno.vars()) == fresh_leaves(old(ctx)@.len() as int, weights@),
            forall|k: int| 0 <= k < fno.vars().len() ==> (#[trigger] fno.vars()[k]).id_spec() == old(ctx)@.len() + k,
            forall|k: int| 0 <= k < fno.vars().len() ==>
                final(ctx)@[(#[trigger] fno.vars()[k]).id_spec() as int] == Node::Input(Leaf::Bits(weights@[k])),
    {
        let ghost base = ctx@.len() as int;
        let fno = Self::build(ctx, channels, modes, num_layers, weights, false);
        let n_after = ctx.len();
        proof {
            lemma_fno_ids_unshared(base, channels, modes, num_layers as nat);
            lemma_fresh_as_leaves(base, weights@);
            ctx.lemma_fresh_ids(fno.vars(), base, weights@);
        }
        fno
    }

    /// Builds the layers from `weights` in collection order; with `shared`, each bias
    /// is one new zero node repeated instead, and the bias entries of `weights` are zero.
    fn build(ctx: &mut Context, channels: (usize, usize, usize), modes: (usize, usize), num_layers: usize,
        weights: &[u32], shared: bool) -> (fno: FNO)
        requires
            old(ctx).wf(),
            shared ==> biases_zero(weights@, channels, modes, num_layers as nat),
            weights@.len() == weight_count(channels, modes, num_layers as nat),
            layer_weight_count(channels.1 as nat, modes) <= usize::MAX,
            channels.1 * channels.1 * modes.0 <= usize::MAX,
        ensures
            final(ctx).wf(),
            final(ctx).extends(*old(ctx)),
            fno.channels == channels,
            fno.modes == modes,
            fno.fourier_layers@.len() == num_layers,
            fno.wf(*final(ctx)),
            !shared ==> final(ctx)@.len() == old(ctx)@.len() + weights@.len(),
            final(ctx).contains_vars(fno.vars()),
            final(ctx).exprs(fno.vars()) == leaves_at(fno_ids(old(ctx)@.len() as int, channels, modes, num_layers as nat, shared),
                weights@),
    {
        let ghost c_in = *ctx;
        let ghost base = ctx@.len() as int;
        let c0 = channels.0;
        let c1 = channels.1;
        let c2 = channels.2;
        let wlen = weights.len();
        let ghost lw = layer_weight_count(c1 as nat, modes);
        proof {
            assert(0 <= (num_layers as nat) * lw) by (nonlinear_arith);
            assert(0 <= (c0 as nat) * (c1 as nat)) by (nonlinear_arith);
            assert(0 <= (c1 as nat) * (c1 as nat)) by (nonlinear_arith);
            assert(0 <= (c1 as nat) * (c2 as nat)) by (nonlinear_arith);
            assert(2 * c1 * c1 * modes.0 * modes.1 >= 0) by (nonlinear_arith);
        }
        let mut off: usize = 0;
        let lift_size = c0 * c1;
        let lift_w = copy_range(weights, off, lift_size);
        let lift_layer = LinearLayer::from_weights(ctx, (c0, c1), lift_w.as_slice());
        let ghost mut acc: Seq<Variable> = lift_layer.vars();
        let ghost mut ids: Seq<int> = id_range(base, lift_size as nat);
        proof {
            assert(weights@.take(0) =~= Seq::<u32>::empty());
            assert(ctx.exprs(Seq::<Variable>::empty()) =~= leaves_at(Seq::<int>::empty(), weights@.take(0)));
            lemma_fresh_as_leaves(base, lift_w@);
            lemma_extend_acc(*ctx, Seq::empty(), acc, Seq::empty(), ids, weights@, 0, lift_size as int);
            assert(Seq::<Variable>::empty() + acc =~= acc);
            assert(Seq::<int>::empty() + ids =~= ids);
        }
        off = off + lift_size;
        let ghost c1_ctx = *ctx;
        let lift_bias = bias_vars(ctx, weights, off, c1, shared);
        proof {
            lift_layer.lemma_stable(*ctx, c1_ctx);
            ctx.lemma_exprs_stable(c1_ctx, acc);
            lemma_extend_acc(*ctx, acc, lift_bias@, ids, bias_ids(c1_ctx@.len() as int, c1 as nat, shared),
                weights@, off as int, c1 as int);
            acc = acc + lift_bias@;
            ids = ids + bias_ids(c1_ctx@.len() as int, c1 as nat, shared);
        }
        off = off + c1;
        proof {
            assert(c1 * c1 * modes.0 * modes.1 <= lw) by (nonlinear_arith)
                requires lw == layer_weight_count(c1 as nat, modes), c1 * c1 * modes.0 * modes.1 >= 0;
            assert(2 * c1 * c1 * modes.0 * modes.1 == 2 * (c1 * c1 * modes.0 * modes.1)) by (nonlinear_arith);
        }
        let fourier_size = c1 * c1 + 2 * (c1 * c1 * modes.0 * modes.1);
        let mut fourier_layers: Vec<FourierLayer> = Vec::with_capacity(num_layers);
        let ghost acc_before_layers = acc;
        let ghost ids_before_layers = ids;
        let ghost ls = ctx@.len() as int;
        proof {
            assert(ids =~= ids_before_layers + id_range(ls, (0 * lw) as nat));
            assert(0 * lw == 0) by (nonlinear_arith);
            assert(fourier_layers@ =~= Seq::<FourierLayer>::empty());
            assert(acc =~= acc_before_layers + concat_map(fourier_layers@, layer_vars_fn()));
        }
        for k in 0..num_layers
            invariant
                ctx.wf(),
                ctx.extends(c_in),
                wlen == weights@.len(),
                weights@.len() == weight_count(channels, modes, num_layers as nat),
                lw == layer_weight_count(c1 as nat, modes),
                fourier_size == lw,
                c1 == channels.1,
                c0 == channels.0,
                c2 == channels.2,
                c1 * c1 * modes.0 <= usize::MAX,
                off == c0 * c1 + c1 + k * lw,
                0 <= (num_layers as nat) * lw,
                lift_layer.channels == (c0, c1),
                lift_layer.wf(*ctx),
                lift_bias@.len() == c1,
                ctx.contains_vars(lift_bias@),
                fourier_layers@.len() == k,
                forall|j: int| 0 <= j < k ==> {
                    &&& (#[trigger] fourier_layers@[j]).channels == c1
                    &&& fourier_layers@[j].modes == modes
                    &&& fourier_layers@[j].wf(*ctx)
                },
                acc == acc_before_layers + concat_map(fourier_layers@, layer_vars_fn()),
                acc_before_layers == lift_layer.vars() + lift_bias@,
                ctx.contains_vars(acc),
                ids_before_layers.len() == c0 * c1 + c1,
                ids == ids_before_layers + id_range(ls, (k * lw) as nat),
                ctx@.len() == ls + k * lw,
                ctx.exprs(acc) == leaves_at(ids, weights@.take(off as int)),
        {
            proof {
                assert(k * lw + lw <= (num_layers as nat) * lw) by (nonlinear_arith)
                    requires k < num_layers;
                assert((k + 1) * lw == k * lw + lw) by (nonlinear_arith);
            }
            let ghost c0_ctx = *ctx;
            let f_w = copy_range(weights, off, fourier_size);
            let layer = FourierLayer::from_weights(ctx, c1, modes, f_w.as_slice());
            proof {
                lift_layer.lemma_stable(*ctx, c0_ctx);
                ctx.lemma_exprs_stable(c0_ctx, lift_bias@);
                ctx.lemma_exprs_stable(c0_ctx, acc);
                assert forall|j: int| 0 <= j < k implies (#[trigger] fourier_layers@[j]).wf(*ctx) by {
                    fourier_layers@[j].lemma_stable(*ctx, c0_ctx);
                }
                lemma_fresh_as_leaves(c0_ctx@.len() as int, f_w@);
                lemma_extend_acc(*ctx, acc, layer.vars(), ids, id_range(c0_ctx@.len() as int, lw as nat),
                    weights@, off as int, fourier_size as int);
                lemma_id_range_append(ls, (k * lw) as nat, lw as nat);
            }
            let ghost before = fourier_layers@;
            fourier_layers.push(layer);
            proof {
                lemma_concat_map_take(fourier_layers@, k as int, layer_vars_fn());
                assert(fourier_layers@.take(k as int) =~= before);
                assert(fourier_layers@.take(k + 1) =~= fourier_layers@);
                acc = acc + layer.vars();
                ids = ids + id_range(c0_ctx@.len() as int, lw as nat);
                assert(ids =~= ids_before_layers + id_range(ls, ((k + 1) * lw) as nat));
                assert(acc =~= acc_before_layers + concat_map(fourier_layers@, layer_vars_fn()));
                assert forall|j: int| 0 <= j < k + 1 implies {
                    &&& (#[trigger] fourier_layers@[j]).channels == c1
                    &&& fourier_layers@[j].modes == modes
                    &&& fourier_layers@[j].wf(*ctx)
                } by {
                    if j < k {
                        assert(fourier_layers@[j] == before[j]);
                    }
                }
            }
            off = off + fourier_size;
        }
        let ghost c2_ctx = *ctx;
        let proj1_size = c1 * c1;
        let p1_w = copy_range(weights, off, proj1_size);
        let proj_1 = LinearLayer::from_weights(ctx, (c1, c1), p1_w.as_slice());
        proof {
            ctx.lemma_exprs_stable(c2_ctx, acc);
            lemma_fresh_as_leaves(c2_ctx@.len() as int, p1_w@);
            lemma_extend_acc(*ctx, acc, proj_1.vars(), ids, id_range(c2_ctx@.len() as int, proj1_size as nat),
                weights@, off as int, proj1_size as int);
        }
        let ghost c3_ctx = *ctx;
        let ghost acc = acc + proj_1.vars();
        let ghost ids = ids + id_range(c2_ctx@.len() as int, proj1_size as nat);
        off = off + proj1_size;
        let proj_b1 = bias_vars(ctx, weights, off, c1, shared);
        proof {
            ctx.lemma_exprs_stable(c3_ctx, acc);
            lemma_extend_acc(*ctx, acc, proj_b1@, ids, bias_ids(c3_ctx@.len() as int, c1 as nat, shared),
                weights@, off as int, c1 as int);
        }
        let ghost c4_ctx = *ctx;
        let ghost acc = acc + proj_b1@;
        let ghost ids = ids + bias_ids(c3_ctx@.len() as int, c1 as nat, shared);
        off = off + c1;
        let proj2_size = c1 * c2;
        let p2_w = copy_range(weights, off, proj2_size);
        let proj_2 = LinearLayer::from_weights(ctx, (c1, c2), p2_w.as_slice());
        proof {
            ctx.lemma_exprs_stable(c4_ctx, acc);
            lemma_fresh_as_leaves(c4_ctx@.len() as int, p2_w@);
            lemma_extend_acc(*ctx, acc, proj_2.vars(), ids, id_range(c4_ctx@.len() as int, proj2_size as nat),
                weights@, off as int, proj2_size as int);
        }
        let ghost c5_ctx = *ctx;
        let ghost acc = acc + proj_2.vars();
        let ghost ids = ids + id_range(c4_ctx@.len() as int, proj2_size as nat);
        off = off + proj2_size;
        let proj_b2 = bias_vars(ctx, weights, off, c2, shared);
        proof {
            ctx.lemma_exprs_stable(c5_ctx, acc);
            lemma_extend_acc(*ctx, acc, proj_b2@, ids, bias_ids(c5_ctx@.len() as int, c2 as nat, shared),
                weights@, off as int, c2 as int);
        }
        let ghost acc = acc + proj_b2@;
        let ghost ids = ids + bias_ids(c5_ctx@.len() as int, c2 as nat, shared);
        off = off + c2;
        let fno = FNO { channels, modes, lift_layer, lift_bias, fourier_layers, proj_1, proj_b1, proj_2, proj_b2 };
        proof {
            // every part stays well formed in the final arena
            fno.lift_layer.lemma_stable(*ctx, c2_ctx);
            ctx.lemma_exprs_stable(c2_ctx, fno.lift_bias@);
            assert forall|j: int| 0 <= j < num_layers implies (#[trigger] fno.fourier_layers@[j]).wf(*ctx) by {
                fno.fourier_layers@[j].lemma_stable(*ctx, c2_ctx);
            }
            fno.proj_1.lemma_stable(*ctx, c3_ctx);
            ctx.lemma_exprs_stable(c4_ctx, fno.proj_b1@);
            fno.proj_2.lemma_stable(*ctx, c5_ctx);
            assert(acc =~= fno.vars());
            assert(weights@.take(off as int) =~= weights@);
            assert(ids =~= fno_ids(base, channels, modes, num_layers as nat, shared));
        }
        fno
    }
}

/// The number of random samples that initialise a Fourier neural operator: all its
/// weights but the biases, which start at zero.
pub open spec fn sample_count(channels: (usize, usize, usize), modes: (usize, usize), num_layers: nat) -> nat {
    let c0 = channels.0 as nat;
    let c1 = channels.1 as nat;
    let c2 = channels.2 as nat;
    c0 * c1 + num_layers * layer_weight_count(c1, modes) + c1 * c1 + c1 * c2
}

pub open spec fn zero_bits(k: nat) -> Seq<u32> {
    Seq::new(k, |i: int| ZERO_BITS)
}

/// The initial weights in collection order: the samples, with zero biases put in
/// after the lifting layer and after each projection.
pub open spec fn initial_weights(samples: Seq<u32>, channels: (usize, usize, usize), modes: (usize, usize), num_layers: nat) -> Seq<u32> {
    let c1 = channels.1 as nat;
    let a = (channels.0 as int) * (c1 as int);
    let b = a + num_layers * layer_weight_count(c1, modes) + (c1 as int) * (c1 as int);
    samples.take(a) + zero_bits(c1) + samples.subrange(a, b) + zero_bits(c1) + samples.subrange(b, samples.len() as int)
        + zero_bits(channels.2 as nat)
}

/// How the random initial weights are drawn: for each run of samples in collection
/// order, its length and the fan-in whose inverse square root bounds it.
pub open spec fn init_segments_spec(channels: (usize, usize, usize), modes: (usize, usize), num_layers: nat) -> Seq<(usize, usize)> {
    let c0 = channels.0;
    let c1 = channels.1;
    seq![((c0 * c1) as usize, c0)]
        + Seq::new(num_layers, |k: int| (layer_weight_count(c1 as nat, modes) as usize, c1))
        + seq![((c1 * c1) as usize, c1), ((c1 * channels.2) as usize, c1)]
}

fn push_range(out: &mut Vec<u32>, src: &[u32], start: usize, len: usize)
    requires
        start + len <= src@.len(),
    ensures
        final(out)@ == old(out)@ + src@.subrange(start as int, start + len),
{
    let ghost orig = out@;
    let slen = src.len();
    for k in 0..len
        invariant
            start + len <= src@.len(),
            slen == src@.len(),
            out@ == orig + src@.subrange(start as int, start + k),
    {
        out.push(src[start + k]);
        proof {
            assert(out@ =~= orig + src@.subrange(start as int, start + k + 1));
        }
    }
}

fn push_zeros(out: &mut Vec<u32>, count: usize)
    ensures
        final(out)@ == old(out)@ + zero_bits(count as nat),
{
    let ghost orig = out@;
    for k in 0..count
        invariant
            out@ == orig + zero_bits(k as nat),
    {
        out.push(ZERO_BITS);
        proof {
            assert(out@ =~= orig + zero_bits((k + 1) as nat));
        }
    }
}

/// The lengths and fan-ins of the runs of random samples, in collection order.
pub fn init_segments(channels: (usize, usize, usize), modes: (usize, usize), num_layers: usize) -> (segs: Vec<(usize, usize)>)
    requires
        sample_count(channels, modes, num_layers as nat) <= usize::MAX,
        channels.1 * channels.1 * modes.0 <= usize::MAX,
    ensures
        segs@ == init_segments_spec(channels, modes, num_layers as nat),
{
    let c0 = channels.0;
    let c1 = channels.1;
    let c2 = channels.2;
    let ghost lw = layer_weight_count(c1 as nat, modes);
    proof {
        assert(0 <= (num_layers as nat) * lw) by (nonlinear_arith);
        assert(0 <= (c0 as nat) * (c1 as nat)) by (nonlinear_arith);
        assert(0 <= (c1 as nat) * (c1 as nat)) by (nonlinear_arith);
        assert(0 <= (c1 as nat) * (c2 as nat)) by (nonlinear_arith);
        assert(2 * c1 * c1 * modes.0 * modes.1 >= 0) by (nonlinear_arith);
    }
    let mut segs: Vec<(usize, usize)> = Vec::new();
    segs.push((c0 * c1, c0));
    if num_layers > 0 {
        proof {
            assert(lw <= (num_layers as nat) * lw) by (nonlinear_arith)
                requires num_layers > 0;
            assert(c1 * c1 * modes.0 * modes.1 <= lw) by (nonlinear_arith)
                requires lw == layer_weight_count(c1 as nat, modes), c1 * c1 * modes.0 * modes.1 >= 0;
            assert(2 * c1 * c1 * modes.0 * modes.1 == 2 * (c1 * c1 * modes.0 * modes.1)) by (nonlinear_arith);
        }
    }
    let ghost before = segs@;
    for k in 0..num_layers
        invariant
            segs@ == seq![((c0 * c1) as usize, c0)] + Seq::new(k as nat, |j: int| (lw as usize, c1)),
            lw == layer_weight_count(c1 as nat, modes),
            c1 == channels.1,
            num_layers > 0 ==> lw <= usize::MAX,
            num_layers > 0 ==> c1 * c1 * modes.0 * modes.1 <= usize::MAX,
            c1 * c1 * modes.0 <= usize::MAX,
    {
        proof {
            assert(2 * c1 * c1 * modes.0 * modes.1 == 2 * (c1 * c1 * modes.0 * modes.1)) by (nonlinear_arith);
            assert(c1 * c1 * modes.0 * modes.1 >= 0) by (nonlinear_arith);
            assert(lw == c1 * c1 + 2 * (c1 * c1 * modes.0 * modes.1));
        }
        let size = c1 * c1 + 2 * (c1 * c1 * modes.0 * modes.1);
        segs.push((size, c1));
        proof {
            assert(segs@ =~= seq![((c0 * c1) as usize, c0)] + Seq::new((k + 1) as nat, |j: int| (lw as usize, c1)));
        }
    }
    segs.push((c1 * c1, c1));
    segs.push((c1 * c2, c1));
    proof {
        assert(segs@ =~= init_segments_spec(channels, modes, num_layers as nat));
    }
    segs
}

/// The initial weights in collection order, from the samples.
pub fn initial_weights_vec(samples: &[u32], channels: (usize, usize, usize), modes: (usize, usize), num_layers: usize)
    -> (w: Vec<u32>)
    requires
        samples@.len() == sample_count(channels, modes, num_layers as nat),
        weight_count(channels, modes, num_layers as nat) <= usize::MAX,
    ensures
        w@ == initial_weights(samples@, channels, modes, num_layers as nat),
        w@.len() == weight_count(channels, modes, num_layers as nat),
        biases_zero(w@, channels, modes, num_layers as nat),
{
    let c0 = channels.0;
    let c1 = channels.1;
    let c2 = channels.2;
    let ghost lw = layer_weight_count(c1 as nat, modes);
    proof {
        assert(0 <= (num_layers as nat) * lw) by (nonlinear_arith);
        assert(0 <= (c0 as nat) * (c1 as nat)) by (nonlinear_arith);
        assert(0 <= (c1 as nat) * (c1 as nat)) by (nonlinear_arith);
        assert(0 <= (c1 as nat) * (c2 as nat)) by (nonlinear_arith);
    }
    let slen = samples.len();
    let a = c0 * c1;
    let b = slen - c1 * c2;
    let mut w: Vec<u32> = Vec::new();
    push_range(&mut w, samples, 0, a);
    push_zeros(&mut w, c1);
    push_range(&mut w, samples, a, b - a);
    push_zeros(&mut w, c1);
    push_range(&mut w, samples, b, slen - b);
    push_zeros(&mut w, c2);
    proof {
        assert(samples@.take(a as int) =~= samples@.subrange(0, a as int));
        assert(w@ =~= initial_weights(samples@, channels, modes, num_layers as nat));
    }
    w
}

impl FNO {
    /// A Fourier neural operator whose weights are new input nodes holding the random
    /// `samples` in collection order, with each bias one zero node shared by its channels.
    pub fn new(ctx: &mut Context, channels: (usize, usize, usize), modes: (usize, usize), num_layers: usize,
        samples: &[u32]) -> (fno: FNO)
        requires
            old(ctx).wf(),
            samples@.len() == sample_count(channels, modes, num_layers as nat),
            weight_count(channels, modes, num_layers as nat) <= usize::MAX,
            layer_weight_count(channels.1 as nat, modes) <= usize::MAX,
            channels.1 * channels.1 * modes.0 <= usize::MAX,
        ensures
            final(ctx).wf(),
            final(ctx).extends(*old(ctx)),
            fno.channels == channels,
            fno.modes == modes,
            fno.fourier_layers@.len() == num_layers,
            fno.wf(*final(ctx)),
            final(ctx).exprs(fno.vars()) == leaves_at(fno_ids(old(ctx)@.len() as int, channels, modes, num_layers as nat, true),
                initial_weights(samples@, channels, modes, num_layers as nat)),
            fno.vars().len() == weight_count(channels, modes, num_layers as nat),
            forall|k: int| 0 <= k < fno.vars().len() ==> final(ctx)@[(#[trigger] fno.vars()[k]).id_spec() as int]
                == Node::Input(Leaf::Bits(initial_weights(samples@, channels, modes, num_layers as nat)[k])),
            biases_zero(initial_weights(samples@, channels, modes, num_layers as nat), channels, modes, num_layers as nat),
    {
        let w = initial_weights_vec(samples, channels, modes, num_layers);
        let fno = Self::build(ctx, channels, modes, num_layers, w.as_slice(), true);
        proof {
            let vars = fno.vars();
            let ids = fno_ids(old(ctx)@.len() as int, channels, modes, num_layers as nat, true);
            assert(ctx.exprs(vars).len() == vars.len());
            assert forall|k: int| 0 <= k < vars.len() implies ctx@[(#[trigger] vars[k]).id_spec() as int]
                == Node::Input(Leaf::Bits(w@[k])) by {
                assert(ctx.exprs(vars)[k] == ctx.expr_of(vars[k]));
                assert(leaves_at(ids, w@)[k] == Expr::Var(ids[k] as usize, Leaf::Bits(w@[k])));
                assert(ctx.contains(vars[k]));
                ctx.lemma_var_node(vars[k], ids[k] as usize, Leaf::Bits(w@[k]));
            }
        }
        fno
    }
}

impl LinearLayer {
    /// Layers of the same shape have as many weights.
    pub proof fn lemma_vars_len_eq(self, c1: Context, other: LinearLayer, c2: Context)
        requires
            self.wf(c1),
            other.wf(c2),
            self.channels == other.channels,
        ensures
            self.vars().len() == other.vars().len(),
    {
        assert forall|i: int| 0 <= i < self.weights().len() implies (#[trigger] self.weights()[i]).len() == other.weights()[i].len() by {
            assert(self.w@[i]@.len() == self.channels.0);
            assert(other.w@[i]@.len() == other.channels.0);
        }
        lemma_concat_len_eq(self.weights(), other.weights());
    }
}

impl FourierLayer {
    /// Layers of the same shape have as many weights.
    pub proof fn lemma_vars_len_eq(self, c1: Context, other: FourierLayer, c2: Context)
        requires
            self.wf(c1),
            other.wf(c2),
            self.channels == other.channels,
            self.modes == other.modes,
        ensures
            self.vars().len() == other.vars().len(),
    {
        self.residual.lemma_vars_len_eq(c1, other.residual, c2);
        let x = self.r;
        let y = other.r;
        assert forall|o: int| 0 <= o < x@.len() implies (#[trigger] row3_fn()(x@[o])).len() == row3_fn()(y@[o]).len() by {
            assert forall|k: int| 0 <= k < x@[o]@.len() implies (#[trigger] x@[o]@[k])@.len() == y@[o]@[k]@.len() by {}
            assert forall|k: int, j: int| 0 <= k < x@[o]@.len() && 0 <= j < x@[o]@[k]@.len() implies (#[trigger] x@[o]@[k]@[j])@.len() == y@[o]@[k]@[j]@.len() by {}
            lemma_row3_len(x@[o], y@[o]);
        }
        lemma_concat_map_len_eq(x@, y@, row3_fn());
    }
}

impl FNO {
    /// Two Fourier neural operators of the same architecture whose weights, in
    /// collection order, have equal expressions hold the same model, and so compute
    /// the same forward pass on every grid and every input.
    pub proof fn lemma_same_weights_same_forward(self, c1: Context, other: FNO, c2: Context)
        requires
            self.wf(c1),
            other.wf(c2),
            self.channels == other.channels,
            self.modes == other.modes,
            self.fourier_layers@.len() == other.fourier_layers@.len(),
            c1.exprs(self.vars()) == c2.exprs(other.vars()),
        ensures
            self.model(c1) == other.model(c2),
            forall|dims: (usize, usize), xs: Seq<Expr>|
                #[trigger] fno_spec(self.model(c1), self.channels, self.modes, dims, xs)
                    == fno_spec(other.model(c2), other.channels, other.modes, dims, xs),
    {
        let f = layer_vars_fn();
        let l1 = self.fourier_layers@;
        let l2 = other.fourier_layers@;
        self.lift_layer.lemma_vars_len_eq(c1, other.lift_layer, c2);
        self.proj_1.lemma_vars_len_eq(c1, other.proj_1, c2);
        self.proj_2.lemma_vars_len_eq(c1, other.proj_2, c2);
        assert forall|k: int| 0 <= k < l1.len() implies (#[trigger] f(l1[k])).len() == f(l2[k]).len() by {
            l1[k].lemma_vars_len_eq(c1, l2[k], c2);
        }
        lemma_concat_map_len_eq(l1, l2, f);
        // peel the pieces off from the end
        let a1 = self.lift_layer.vars() + self.lift_bias@ + concat_map(l1, f) + self.proj_1.vars() + self.proj_b1@ + self.proj_2.vars();
        let a2 = other.lift_layer.vars() + other.lift_bias@ + concat_map(l2, f) + other.proj_1.vars() + other.proj_b1@ + other.proj_2.vars();
        lemma_exprs_split(c1, a1, self.proj_b2@, c2, a2, other.proj_b2@);
        let b1 = self.lift_layer.vars() + self.lift_bias@ + concat_map(l1, f) + self.proj_1.vars() + self.proj_b1@;
        let b2 = other.lift_layer.vars() + other.lift_bias@ + concat_map(l2, f) + other.proj_1.vars() + other.proj_b1@;
        lemma_exprs_split(c1, b1, self.proj_2.vars(), c2, b2, other.proj_2.vars());
        let d1 = self.lift_layer.vars() + self.lift_bias@ + concat_map(l1, f) + self.proj_1.vars();
        let d2 = other.lift_layer.vars() + other.lift_bias@ + concat_map(l2, f) + other.proj_1.vars();
        lemma_exprs_split(c1, d1, self.proj_b1@, c2, d2, other.proj_b1@);
        let e1 = self.lift_layer.vars() + self.lift_bias@ + concat_map(l1, f);
        let e2 = other.lift_layer.vars() + other.lift_bias@ + concat_map(l2, f);
        lemma_exprs_split(c1, e1, self.proj_1.vars(), c2, e2, other.proj_1.vars());
        let g1 = self.lift_layer.vars() + self.lift_bias@;
        let g2 = other.lift_layer.vars() + other.lift_bias@;
        lemma_exprs_split(c1, g1, concat_map(l1, f), c2, g2, concat_map(l2, f));
        lemma_exprs_split(c1, self.lift_layer.vars(), self.lift_bias@, c2, other.lift_layer.vars(), other.lift_bias@);
        self.lift_layer.lemma_model_from_vars(c1, other.lift_layer, c2);
        self.proj_1.lemma_model_from_vars(c1, other.proj_1, c2);
        self.proj_2.lemma_model_from_vars(c1, other.proj_2, c2);
        lemma_concat_map_exprs_parts(c1, l1, c2, l2, f);
        let m1 = self.model(c1);
        let m2 = other.model(c2);
        assert(m1.layers =~= m2.layers) by {
            assert forall|k: int| 0 <= k < l1.len() implies #[trigger] m1.layers[k] == m2.layers[k] by {
                assert(c1.exprs(f(l1[k])) == c2.exprs(f(l2[k])));
                l1[k].lemma_model_from_vars(c1, l2[k], c2);
            }
        }
        assert(m1 == m2);
    }
}

} // verus!
