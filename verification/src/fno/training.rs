use vstd::prelude::*;

use crate::calculations::fft::is_power_of_two;
use crate::fno::backprop::graph::{zero_expr, Context, Expr, Leaf, Variable, ZERO_BITS};
use crate::fno::layers::{fresh_leaves, new_inputs};
use crate::fno::{fno_spec, FnoModel, FNO};

verus! {

/// `(p - t) * (p - t)`, the target `t` being a new input node.
pub open spec fn sq_diff(p: Expr, t: u32) -> Expr {
    let d = Expr::Sub(Box::new(p), Box::new(Expr::Const(Leaf::Bits(t))));
    Expr::Mul(Box::new(d), Box::new(d))
}

/// `acc + sq_diff(pred[0], target[0]) + ... + sq_diff(pred[k - 1], target[k - 1])`,
/// summed from the left.
pub open spec fn sq_err_sum(acc: Expr, pred: Seq<Expr>, target: Seq<u32>, k: nat) -> Expr
    decreases k,
{
    if k == 0 {
        acc
    } else {
        Expr::Add(Box::new(sq_err_sum(acc, pred, target, (k - 1) as nat)), Box::new(sq_diff(pred[k - 1], target[k - 1])))
    }
}

/// The state after `s` autoregressive steps of the operator from `x0`.
pub open spec fn rollout_state(m: FnoModel, channels: (usize, usize, usize), modes: (usize, usize), dims: (usize, usize),
    x0: Seq<Expr>, s: nat) -> Seq<Expr>
    decreases s,
{
    if s == 0 {
        x0
    } else {
        fno_spec(m, channels, modes, dims, rollout_state(m, channels, modes, dims, x0, (s - 1) as nat))
    }
}

/// The squared errors of the first `n` points of the predictions of steps `1 ..= s`
/// against frames `1 ..= s`, summed from zero in that order; the rollout starts
/// from the state `x0`.
pub open spec fn rollout_total(m: FnoModel, channels: (usize, usize, usize), modes: (usize, usize), dims: (usize, usize),
    x0: Seq<Expr>, frames: Seq<Seq<u32>>, s: nat) -> Expr
    decreases s,
{
    if s == 0 {
        zero_expr()
    } else {
        sq_err_sum(
            rollout_total(m, channels, modes, dims, x0, frames, (s - 1) as nat),
            rollout_state(m, channels, modes, dims, x0, s),
            frames[s as int],
            (dims.0 * dims.1) as nat,
        )
    }
}

/// The mean squared error of a rollout of `rollout` steps from `x0`: the total times
/// the reciprocal of `rollout * n`.
pub open spec fn rollout_loss_spec(m: FnoModel, channels: (usize, usize, usize), modes: (usize, usize), dims: (usize, usize),
    x0: Seq<Expr>, frames: Seq<Seq<u32>>, rollout: nat) -> Expr
{
    Expr::Mul(
        Box::new(rollout_total(m, channels, modes, dims, x0, frames, rollout)),
        Box::new(Expr::Const(Leaf::Reciprocal((rollout * ((dims.0 * dims.1) as nat)) as usize))),
    )
}

/// The frames as sequences of bit patterns.
pub open spec fn frames_view(frames: Seq<Vec<u32>>) -> Seq<Seq<u32>> {
    Seq::new(frames.len(), |s: int| frames[s]@)
}

/// Adds `(pred[i] - target[i])^2` to `total` for `i` in `0..n`, each target a new
/// constant node, and returns the node of the sum.
fn add_squared_errors(ctx: &mut Context, total: Variable, pred: &Vec<Variable>, target: &Vec<u32>, n: usize)
    -> (sum: Variable)
    requires
        old(ctx).wf(),
        old(ctx).contains(total),
        old(ctx).contains_vars(pred@),
        n <= pred@.len(),
        n <= target@.len(),
    ensures
        final(ctx).wf(),
        final(ctx).extends(*old(ctx)),
        final(ctx).contains(sum),
        final(ctx).expr_of(sum) == sq_err_sum(old(ctx).expr_of(total), old(ctx).exprs(pred@), target@, n as nat),
{
    let ghost c_in = *ctx;
    let ghost pe = ctx.exprs(pred@);
    let ghost acc0 = ctx.expr_of(total);
    let mut total_loss = total;
    for i in 0..n
        invariant
            ctx.wf(),
            ctx.extends(c_in),
            n <= pred@.len(),
            n <= target@.len(),
            c_in.contains_vars(pred@),
            pe == c_in.exprs(pred@),
            ctx.contains(total_loss),
            ctx.expr_of(total_loss) == sq_err_sum(acc0, pe, target@, i as nat),
    {
        let ghost c1 = *ctx;
        proof {
            ctx.lemma_exprs_stable(c_in, pred@);
        }
        assert(ctx.contains(pred@[i as int]));
        let t = ctx.constant(Leaf::Bits(target[i]));
        let ghost c2 = *ctx;
        proof {
            c2.lemma_extends(c1);
        }
        let diff = ctx.sub(pred[i], t);
        let sq = ctx.mul(diff, diff);
        let ghost c4 = *ctx;
        proof {
            c4.lemma_extends(c1);
        }
        total_loss = ctx.add(total_loss, sq);
        proof {
            assert(c1.expr_of(pred@[i as int]) == pe[i as int]);
        }
    }
    total_loss
}

/// The training loss of one trajectory: frame `0` becomes new input nodes, the operator is
/// applied `rollout_steps` times in turn, the first `n` points of each prediction are
/// compared with the next frame, and the squared errors are averaged.
pub fn rollout_loss(ctx: &mut Context, fno: &FNO, dims: (usize, usize), frames: &Vec<Vec<u32>>, rollout_steps: usize)
    -> (loss: Variable)
    requires
        old(ctx).wf(),
        fno.wf(*old(ctx)),
        rollout_steps < frames@.len(),
        forall|s: int| 1 <= s <= rollout_steps ==> dims.0 * dims.1 <= (#[trigger] frames@[s])@.len(),
        dims.0 * dims.1 <= usize::MAX,
        rollout_steps * (dims.0 * dims.1) <= usize::MAX,
        rollout_steps >= 1 ==> dims.0 * dims.1 * fno.channels.0 <= frames@[0]@.len(),
        rollout_steps >= 1 ==> dims.0 * dims.1 <= dims.0 * dims.1 * fno.channels.2,
        rollout_steps >= 2 ==> dims.0 * dims.1 * fno.channels.0 <= dims.0 * dims.1 * fno.channels.2,
        rollout_steps >= 1 && fno.fourier_layers@.len() > 0 ==> is_power_of_two(dims.0 as int) && is_power_of_two(dims.1 as int),
        rollout_steps >= 1 ==> dims.0 * dims.1 * fno.channels.1 <= usize::MAX,
        rollout_steps >= 1 ==> dims.0 * dims.1 * fno.channels.2 <= usize::MAX,
    ensures
        final(ctx).wf(),
        final(ctx).extends(*old(ctx)),
        final(ctx).contains(loss),
        final(ctx).expr_of(loss) == rollout_loss_spec(fno.model(*old(ctx)), fno.channels, fno.modes, dims,
            fresh_leaves(old(ctx)@.len() as int, frames@[0]@), frames_view(frames@), rollout_steps as nat),
{
    let ghost c_in = *ctx;
    let ghost m = fno.model(*ctx);
    let ghost fv = frames_view(frames@);
    let n = dims.0 * dims.1;
    let f0 = &frames[0];
    let mut current_state = new_inputs(ctx, f0.as_slice(), 0, f0.len());
    proof {
        fno.lemma_stable(*ctx, c_in);
        assert(f0@.subrange(0, f0@.len() as int) =~= f0@);
        assert(fv[0] == f0@);
    }
    let ghost x0 = fresh_leaves(c_in@.len() as int, fv[0]);
    let ghost c_z = *ctx;
    let mut total_loss = ctx.constant(Leaf::Bits(ZERO_BITS));
    proof {
        fno.lemma_stable(*ctx, c_in);
        ctx.lemma_exprs_stable(c_z, current_state@);
    }
    let nframes = frames.len();
    let mut step: usize = 1;
    while step <= rollout_steps
        invariant
            nframes == frames@.len(),
            ctx.wf(),
            ctx.extends(c_in),
            fno.wf(*ctx),
            fno.model(*ctx) == m,
            fv == frames_view(frames@),
            x0 == fresh_leaves(c_in@.len() as int, fv[0]),
            1 <= step <= rollout_steps + 1,
            n == dims.0 * dims.1,
            rollout_steps < frames@.len(),
            forall|s: int| 1 <= s <= rollout_steps ==> dims.0 * dims.1 <= (#[trigger] frames@[s])@.len(),
            rollout_steps >= 1 ==> dims.0 * dims.1 * fno.channels.0 <= frames@[0]@.len(),
            rollout_steps >= 1 ==> dims.0 * dims.1 <= dims.0 * dims.1 * fno.channels.2,
            rollout_steps >= 2 ==> dims.0 * dims.1 * fno.channels.0 <= dims.0 * dims.1 * fno.channels.2,
            rollout_steps >= 1 && fno.fourier_layers@.len() > 0 ==> is_power_of_two(dims.0 as int) && is_power_of_two(dims.1 as int),
            rollout_steps >= 1 ==> dims.0 * dims.1 * fno.channels.1 <= usize::MAX,
            rollout_steps >= 1 ==> dims.0 * dims.1 * fno.channels.2 <= usize::MAX,
            ctx.contains_vars(current_state@),
            ctx.exprs(current_state@) == rollout_state(m, fno.channels, fno.modes, dims, x0, (step - 1) as nat),
            step >= 2 ==> current_state@.len() == n * fno.channels.2,
            step == 1 ==> current_state@.len() == fv[0].len(),
            ctx.contains(total_loss),
            ctx.expr_of(total_loss) == rollout_total(m, fno.channels, fno.modes, dims, x0, fv, (step - 1) as nat),
        decreases rollout_steps + 1 - step,
    {
        let ghost c0 = *ctx;
        let pred = fno.forward(ctx, dims, &current_state);
        let ghost c1 = *ctx;
        proof {
            fno.lemma_stable(*ctx, c0);
            ctx.lemma_extends(c0);
            assert(ctx.exprs(pred@).len() == pred@.len());
        }
        let target = &frames[step];
        proof {
            assert(fv[step as int] == target@);
        }
        total_loss = add_squared_errors(ctx, total_loss, &pred, target, n);
        proof {
            fno.lemma_stable(*ctx, c1);
            ctx.lemma_exprs_stable(c1, pred@);
            assert(((step + 1) - 1) as nat == step as nat);
        }
        current_state = pred;
        step = step + 1;
    }
    let ghost total_e = ctx.expr_of(total_loss);
    let ghost c5 = *ctx;
    let scale = ctx.constant(Leaf::Reciprocal(rollout_steps * n));
    proof {
        ctx.lemma_extends(c5);
    }
    let mean_loss = ctx.mul(total_loss, scale);
    proof {
        assert((step - 1) as nat == rollout_steps as nat);
        assert(total_e == rollout_total(m, fno.channels, fno.modes, dims, x0, fv, rollout_steps as nat));
    }
    mean_loss
}

} // verus!
