use vstd::prelude::*;
use vstd::arithmetic::power2::{pow2, lemma_pow2_adds, lemma_pow2_pos, lemma_pow2_strictly_increases, lemma_pow2_unfold};
use vstd::arithmetic::div_mod::{lemma_fundamental_div_mod, lemma_mod_multiples_vanish};

use crate::calculations::fft::{
    bit_reversed, is_power_of_two, lemma_grid_join, lemma_grid_split, lemma_rev_bits_bound, lemma_rev_bits_involution,
    lemma_rev_bits_zero, log2, rev_bits,
};
use crate::fno::backprop::fft_traced::{
    butterfly_stage, butterfly_stages, c_add, c_conj, c_conj_scale, c_mul, c_sub, col_of, cols_transformed, fft_network,
    ifft_network, lemma_butterfly_stages_len, twiddle_step, lemma_fft_network_len, lemma_transform_len, row_of, rows_transformed,
    transform_2d, transform_spec, twiddle, CExpr, Transform,
};
use crate::fno::backprop::graph::{eval, Expr, Leaf, ONE_BITS, ZERO_BITS};
use crate::fno::values::lemma_pow2_double_divides;

verus! {

/// The items of `xs` at even positions.
pub open spec fn evens<T>(xs: Seq<T>) -> Seq<T> {
    Seq::new(xs.len() / 2, |i: int| xs[2 * i])
}

/// The items of `xs` at odd positions.
pub open spec fn odds<T>(xs: Seq<T>) -> Seq<T> {
    Seq::new(xs.len() / 2, |i: int| xs[2 * i + 1])
}

proof fn lemma_log2_of(n: int, k: nat)
    requires
        pow2(k) == n,
    ensures
        log2(n) == k,
{
    let j = log2(n);
    assert(pow2(j) == n);
    if j < k {
        lemma_pow2_strictly_increases(j, k);
    } else if k < j {
        lemma_pow2_strictly_increases(k, j);
    }
}

/// Reversing `k` bits of a number below `2^(k-1)` doubles the reversal of its `k - 1` bits.
proof fn lemma_rev_bits_low(i: int, k: nat)
    requires
        k >= 1,
        0 <= i < pow2((k - 1) as nat),
    ensures
        rev_bits(i, k) == 2 * rev_bits(i, (k - 1) as nat),
    decreases k,
{
    if k == 1 {
        assert(pow2(0) == 1) by { vstd::arithmetic::power2::lemma2_to64(); }
        assert(i == 0);
        assert(rev_bits(0, 1) == (0int % 2) * pow2(0) as int + rev_bits(0int / 2, 0));
    } else {
        lemma_pow2_unfold((k - 1) as nat);
        let q = pow2((k - 2) as nat) as int;
        assert(((k - 1) - 1) as nat == (k - 2) as nat);
        assert(pow2((k - 1) as nat) == 2 * q);
        assert(i / 2 < q);
        lemma_rev_bits_low(i / 2, (k - 1) as nat);
        let b = i % 2;
        assert(rev_bits(i, k) == b * (2 * q) + rev_bits(i / 2, (k - 1) as nat));
        assert(rev_bits(i, (k - 1) as nat) == b * q + rev_bits(i / 2, (k - 2) as nat));
        assert(b * (2 * q) == 2 * (b * q)) by (nonlinear_arith);
    }
}

/// Reversing `k` bits of a number at or above `2^(k-1)` gives twice the reversal of the
/// rest, plus one.
proof fn lemma_rev_bits_high(i: int, k: nat)
    requires
        k >= 1,
        pow2((k - 1) as nat) <= i < pow2(k),
    ensures
        rev_bits(i, k) == 2 * rev_bits(i - pow2((k - 1) as nat), (k - 1) as nat) + 1,
    decreases k,
{
    lemma_pow2_unfold(k);
    if k == 1 {
        assert(pow2(0) == 1) by { vstd::arithmetic::power2::lemma2_to64(); }
        assert(i == 1);
        assert(rev_bits(1, 1) == (1int % 2) * pow2(0) as int + rev_bits(1int / 2, 0));
        assert(rev_bits(0, 0) == 0);
    } else {
        let p = pow2((k - 1) as nat) as int;
        lemma_pow2_unfold((k - 1) as nat);
        let q = pow2((k - 2) as nat) as int;
        assert(p == 2 * q);
        let r = i - p;
        assert(i % 2 == r % 2 && i / 2 == q + r / 2) by {
            lemma_fundamental_div_mod(r, 2);
            vstd::arithmetic::div_mod::lemma_mod_pos_bound(r, 2);
            vstd::arithmetic::div_mod::lemma_fundamental_div_mod_converse(i, 2, q + r / 2, r % 2);
        }
        assert(((k - 1) - 1) as nat == (k - 2) as nat);
        assert(pow2(k) == 2 * p);
        assert(q <= i / 2 < 2 * q);
        lemma_rev_bits_high(i / 2, (k - 1) as nat);
        assert(i / 2 - q == r / 2);
        let b = i % 2;
        assert(rev_bits(i, k) == b * p + rev_bits(i / 2, (k - 1) as nat));
        assert(rev_bits(r, (k - 1) as nat) == b * q + rev_bits(r / 2, (k - 2) as nat));
        assert(b * p == 2 * (b * q)) by (nonlinear_arith) requires p == 2 * q;
    }
}

/// Bit-reversal reordering of `2m` items puts the even items, reordered, in the first
/// half and the odd ones, reordered, in the second.
proof fn lemma_bit_reversed_halves<T>(xs: Seq<T>, k: nat)
    requires
        k >= 1,
        pow2(k) == xs.len(),
    ensures
        bit_reversed(xs) == bit_reversed(evens(xs)) + bit_reversed(odds(xs)),
{
    let n = xs.len() as int;
    lemma_pow2_unfold(k);
    let m = pow2((k - 1) as nat) as int;
    assert(n == 2 * m);
    assert(n / 2 == m);
    lemma_log2_of(n, k);
    lemma_log2_of(m, (k - 1) as nat);
    let e = evens(xs);
    let o = odds(xs);
    assert(e.len() == m && o.len() == m);
    assert forall|i: int| 0 <= i < n implies #[trigger] bit_reversed(xs)[i] == (bit_reversed(e) + bit_reversed(o))[i] by {
        if i < m {
            lemma_rev_bits_low(i, k);
            lemma_rev_bits_bound(i, (k - 1) as nat);
            assert(bit_reversed(e)[i] == e[rev_bits(i, (k - 1) as nat)]);
        } else {
            lemma_rev_bits_high(i, k);
            lemma_rev_bits_bound(i - m, (k - 1) as nat);
            assert(bit_reversed(o)[i - m] == o[rev_bits(i - m, (k - 1) as nat)]);
        }
    }
    assert(bit_reversed(xs) =~= bit_reversed(e) + bit_reversed(o));
}

/// A stage acts on each of two halves made of whole blocks separately.
proof fn lemma_stage_split(a: Seq<CExpr>, b: Seq<CExpr>, half: nat)
    requires
        half > 0,
        a.len() % (2 * half) == 0,
        b.len() % (2 * half) == 0,
    ensures
        butterfly_stage(a + b, half) == butterfly_stage(a, half) + butterfly_stage(b, half),
{
    let len = (2 * half) as int;
    let s = a + b;
    assert forall|p: int| 0 <= p < s.len() implies #[trigger] butterfly_stage(s, half)[p]
        == (butterfly_stage(a, half) + butterfly_stage(b, half))[p] by {
        if p < a.len() {
            crate::fno::values::lemma_block_bound(p, len, a.len() as int);
        } else {
            let q = p - a.len();
            crate::fno::values::lemma_block_bound(q, len, b.len() as int);
            let al = a.len() as int;
            lemma_fundamental_div_mod(al, len);
            lemma_mod_multiples_vanish(al / len, q, len);
            assert(len * (al / len) + q == p);
        }
    }
    assert(butterfly_stage(s, half) =~= butterfly_stage(a, half) + butterfly_stage(b, half));
}

/// Running the stages from `half` up on two halves of `m` items each is running them on
/// each half, then the last stage of half-length `m` over the whole.
proof fn lemma_stages_split(a: Seq<CExpr>, b: Seq<CExpr>, half: nat, h: nat, k: nat)
    requires
        pow2(h) == half,
        pow2(k) == a.len(),
        b.len() == a.len(),
        half <= a.len(),
    ensures
        butterfly_stages(a + b, half)
            == butterfly_stage(butterfly_stages(a, half) + butterfly_stages(b, half), a.len()),
    decreases a.len() - half,
{
    let m = a.len();
    lemma_pow2_pos(h);
    if half == m {
        assert(butterfly_stages(a, half) == a);
        assert(butterfly_stages(b, half) == b);
        assert(butterfly_stage(a + b, m).len() == 2 * m);
        assert(butterfly_stages(butterfly_stage(a + b, m), 2 * m) == butterfly_stage(a + b, m));
    } else {
        lemma_pow2_double_divides(h, k);
        lemma_stage_split(a, b, half);
        lemma_pow2_adds(h, 1);
        assert(pow2(1) == 2) by { vstd::arithmetic::power2::lemma2_to64(); }
        assert(2 * half <= m) by {
            lemma_fundamental_div_mod(m as int, (2 * half) as int);
            vstd::arithmetic::div_mod::lemma_div_pos_is_pos(m as int, (2 * half) as int);
            assert(m / (2 * half) >= 1) by (nonlinear_arith)
                requires m == (2 * half) * (m / (2 * half)) + m % (2 * half), m % (2 * half) == 0, m > 0, m / (2 * half) >= 0;
            assert((2 * half) * (m / (2 * half)) >= 2 * half) by (nonlinear_arith)
                requires m / (2 * half) >= 1, half > 0;
        }
        let a2 = butterfly_stage(a, half);
        let b2 = butterfly_stage(b, half);
        lemma_stages_split(a2, b2, 2 * half, h + 1, k);
    }
}

/// The radix-2 recursion of the Fourier transform: the transform of `n = 2m` points,
/// at `k` and `k + m`, is the transform of the even items at `k` plus, and minus, the
/// `k`-th twiddle of length `n` times the transform of the odd items at `k`. With the
/// one-point case (`lemma_fft_one_point`) this determines the transform of every
/// power-of-two length.
pub proof fn lemma_fft_radix2(xs: Seq<CExpr>)
    requires
        is_power_of_two(xs.len() as int),
        xs.len() >= 2,
    ensures
        forall|k: int| 0 <= k < xs.len() / 2 ==> #[trigger] fft_network(xs)[k]
            == c_add(fft_network(evens(xs))[k], c_mul(twiddle(xs.len(), k as nat), fft_network(odds(xs))[k])),
        forall|k: int| 0 <= k < xs.len() / 2 ==> #[trigger] fft_network(xs)[k + xs.len() / 2]
            == c_sub(fft_network(evens(xs))[k], c_mul(twiddle(xs.len(), k as nat), fft_network(odds(xs))[k])),
{
    let n = xs.len();
    let kk = log2(n as int);
    assert(pow2(kk) == n);
    if kk == 0 {
        assert(pow2(0) == 1) by { vstd::arithmetic::power2::lemma2_to64(); }
    }
    lemma_pow2_unfold(kk);
    let m = pow2((kk - 1) as nat);
    assert(n == 2 * m && n / 2 == m);
    lemma_bit_reversed_halves(xs, kk);
    let e = bit_reversed(evens(xs));
    let o = bit_reversed(odds(xs));
    assert(e.len() == m && o.len() == m);
    assert(pow2(0) == 1) by { vstd::arithmetic::power2::lemma2_to64(); }
    lemma_stages_split(e, o, 1, 0, (kk - 1) as nat);
    lemma_butterfly_stages_len(e, 1);
    lemma_butterfly_stages_len(o, 1);
    let se = butterfly_stages(e, 1);
    let so = butterfly_stages(o, 1);
    assert(fft_network(evens(xs)) == se);
    assert(fft_network(odds(xs)) == so);
    let whole = butterfly_stage(se + so, m);
    assert(fft_network(xs) == whole);
    assert forall|k: int| 0 <= k < m implies #[trigger] fft_network(xs)[k]
        == c_add(se[k], c_mul(twiddle(n, k as nat), so[k])) by {
        vstd::arithmetic::div_mod::lemma_small_mod(k as nat, (2 * m) as nat);
        assert((se + so)[k + m] == so[k]);
    }
    assert forall|k: int| 0 <= k < m implies #[trigger] fft_network(xs)[k + m]
        == c_sub(se[k], c_mul(twiddle(n, k as nat), so[k])) by {
        vstd::arithmetic::div_mod::lemma_small_mod((k + m) as nat, (2 * m) as nat);
        assert((se + so)[k] == se[k]);
        assert((se + so)[k + m] == so[k]);
    }
}

/// The transform of one point is that point.
pub proof fn lemma_fft_one_point(x: CExpr)
    ensures
        fft_network(seq![x]) == seq![x],
{
    let xs = seq![x];
    assert(pow2(0) == 1) by { vstd::arithmetic::power2::lemma2_to64(); }
    lemma_log2_of(1, 0);
    assert(rev_bits(0, 0) == 0);
    assert(bit_reversed(xs) =~= xs);
}

/// The value of a complex expression: its real and imaginary parts.
pub open spec fn ceval(c: CExpr, leaf: spec_fn(Leaf) -> int, sin: spec_fn(int) -> int) -> (int, int) {
    (eval(c.0, leaf, sin), eval(c.1, leaf, sin))
}

/// The leaves `0.0` and `1.0` have their values.
pub open spec fn unit_leaves(leaf: spec_fn(Leaf) -> int) -> bool {
    leaf(Leaf::Bits(ZERO_BITS)) == 0 && leaf(Leaf::Bits(ONE_BITS)) == 1
}

pub proof fn lemma_ceval_ops(a: CExpr, b: CExpr, leaf: spec_fn(Leaf) -> int, sin: spec_fn(int) -> int)
    ensures
        ceval(c_add(a, b), leaf, sin) == (ceval(a, leaf, sin).0 + ceval(b, leaf, sin).0, ceval(a, leaf, sin).1 + ceval(b, leaf, sin).1),
        ceval(c_sub(a, b), leaf, sin) == (ceval(a, leaf, sin).0 - ceval(b, leaf, sin).0, ceval(a, leaf, sin).1 - ceval(b, leaf, sin).1),
        ceval(c_mul(a, b), leaf, sin) == (
            ceval(a, leaf, sin).0 * ceval(b, leaf, sin).0 - ceval(a, leaf, sin).1 * ceval(b, leaf, sin).1,
            ceval(a, leaf, sin).0 * ceval(b, leaf, sin).1 + ceval(a, leaf, sin).1 * ceval(b, leaf, sin).0),
{
    reveal_with_fuel(eval, 3);
}

/// A product with zero is zero.
proof fn lemma_ceval_mul_zero(w: CExpr, t: CExpr, leaf: spec_fn(Leaf) -> int, sin: spec_fn(int) -> int)
    requires
        ceval(t, leaf, sin) == (0int, 0int),
    ensures
        ceval(c_mul(w, t), leaf, sin) == (0int, 0int),
{
    lemma_ceval_ops(w, t, leaf, sin);
}

/// The stages from `half` on, over items that are `a` below `half` and zero after, make
/// every item `a`.
proof fn lemma_stages_impulse(ys: Seq<CExpr>, half: nat, h: nat, k: nat, a: (int, int), leaf: spec_fn(Leaf) -> int,
    sin: spec_fn(int) -> int)
    requires
        pow2(h) == half,
        pow2(k) == ys.len(),
        half <= ys.len(),
        forall|p: int| 0 <= p < ys.len() ==> #[trigger] ceval(ys[p], leaf, sin) == if p < half { a } else { (0int, 0int) },
    ensures
        forall|p: int| 0 <= p < ys.len() ==> ceval(#[trigger] butterfly_stages(ys, half)[p], leaf, sin) == a,
    decreases ys.len() - half,
{
    lemma_pow2_pos(h);
    if half < ys.len() {
        lemma_pow2_double_divides(h, k);
        let len = (2 * half) as int;
        let zs = butterfly_stage(ys, half);
        assert forall|p: int| 0 <= p < ys.len() implies #[trigger] ceval(zs[p], leaf, sin)
            == if p < 2 * half { a } else { (0int, 0int) } by {
            crate::fno::values::lemma_block_bound(p, len, ys.len() as int);
            let j = p % len;
            if j < half {
                let w = twiddle(len as nat, j as nat);
                lemma_ceval_mul_zero(w, ys[p + half], leaf, sin);
                lemma_ceval_ops(ys[p], c_mul(w, ys[p + half]), leaf, sin);
                if p < 2 * half {
                    vstd::arithmetic::div_mod::lemma_small_mod(p as nat, len as nat);
                }
            } else {
                let w = twiddle(len as nat, (j - half) as nat);
                lemma_ceval_mul_zero(w, ys[p], leaf, sin);
                lemma_ceval_ops(ys[p - half], c_mul(w, ys[p]), leaf, sin);
                if p < 2 * half {
                    vstd::arithmetic::div_mod::lemma_small_mod(p as nat, len as nat);
                }
            }
        }
        lemma_pow2_adds(h, 1);
        assert(pow2(1) == 2) by { vstd::arithmetic::power2::lemma2_to64(); }
        assert(2 * half <= ys.len()) by {
            let m = ys.len() as int;
            lemma_fundamental_div_mod(m, len);
            assert(m / len >= 1) by (nonlinear_arith)
                requires m == len * (m / len) + m % len, m % len == 0, m > 0, len > 0;
            assert(len * (m / len) >= len) by (nonlinear_arith) requires m / len >= 1, len > 0;
        }
        lemma_stages_impulse(zs, 2 * half, h + 1, k, a, leaf, sin);
        assert(butterfly_stages(ys, half) == butterfly_stages(zs, 2 * half));
    }
}

/// The stages from `half` on, over items whose every `half`-th one is `half * c`, make
/// the first item `n * c`, when the twiddle of offset zero is the unit.
proof fn lemma_stages_sum(ys: Seq<CExpr>, half: nat, h: nat, k: nat, c: (int, int), leaf: spec_fn(Leaf) -> int,
    sin: spec_fn(int) -> int)
    requires
        unit_leaves(leaf),
        pow2(h) == half,
        pow2(k) == ys.len(),
        half <= ys.len(),
        forall|p: int| 0 <= p < ys.len() && p % (half as int) == 0 ==> #[trigger] ceval(ys[p], leaf, sin)
            == (half * c.0, half * c.1),
    ensures
        ceval(butterfly_stages(ys, half)[0], leaf, sin) == (ys.len() * c.0, ys.len() * c.1),
    decreases ys.len() - half,
{
    lemma_pow2_pos(h);
    if half == ys.len() {
        assert(0int % (half as int) == 0);
    } else {
        lemma_pow2_double_divides(h, k);
        let len = (2 * half) as int;
        let zs = butterfly_stage(ys, half);
        assert forall|p: int| 0 <= p < ys.len() && p % len == 0 implies #[trigger] ceval(zs[p], leaf, sin)
            == (2 * half * c.0, 2 * half * c.1) by {
            crate::fno::values::lemma_block_bound(p, len, ys.len() as int);
            let q = p / len;
            lemma_fundamental_div_mod(p, len);
            assert(p == (half as int) * (2 * q)) by (nonlinear_arith) requires p == len * q + 0, len == 2 * half;
            vstd::arithmetic::div_mod::lemma_mod_multiples_basic(2 * q, half as int);
            assert(p + half == (half as int) * (2 * q + 1)) by (nonlinear_arith) requires p == (half as int) * (2 * q);
            vstd::arithmetic::div_mod::lemma_mod_multiples_basic(2 * q + 1, half as int);
            assert((2 * q) * (half as int) == (half as int) * (2 * q)) by (nonlinear_arith);
            assert((2 * q + 1) * (half as int) == (half as int) * (2 * q + 1)) by (nonlinear_arith);
            assert(p % (half as int) == 0);
            assert((p + half) % (half as int) == 0);
            assert(p + half < ys.len());
            let u = ys[p];
            let t = ys[p + half];
            assert(ceval(u, leaf, sin) == (half * c.0, half * c.1));
            assert(ceval(t, leaf, sin) == (half * c.0, half * c.1));
            let w = twiddle((2 * half) as nat, 0);
            assert(w == (Expr::Const(Leaf::Bits(ONE_BITS)), Expr::Const(Leaf::Bits(ZERO_BITS))));
            assert(ceval(w, leaf, sin) == (1int, 0int));
            assert(zs[p] == c_add(u, c_mul(w, t)));
            lemma_ceval_ops(w, t, leaf, sin);
            assert(ceval(c_mul(w, t), leaf, sin) == (half * c.0, half * c.1));
            lemma_ceval_ops(u, c_mul(w, t), leaf, sin);
            assert(half * c.0 + half * c.0 == 2 * half * c.0) by (nonlinear_arith);
            assert(half * c.1 + half * c.1 == 2 * half * c.1) by (nonlinear_arith);
        }
        lemma_pow2_adds(h, 1);
        assert(pow2(1) == 2) by { vstd::arithmetic::power2::lemma2_to64(); }
        assert(2 * half <= ys.len()) by {
            let m = ys.len() as int;
            lemma_fundamental_div_mod(m, len);
            assert(m / len >= 1) by (nonlinear_arith)
                requires m == len * (m / len) + m % len, m % len == 0, m > 0, len > 0;
            assert(len * (m / len) >= len) by (nonlinear_arith) requires m / len >= 1, len > 0;
        }
        lemma_stages_sum(zs, 2 * half, h + 1, k, c, leaf, sin);
        assert(butterfly_stages(ys, half) == butterfly_stages(zs, 2 * half));
    }
}

/// The forward transform of an impulse at the first position is that impulse at every
/// position.
proof fn lemma_fft_impulse(xs: Seq<CExpr>, a: (int, int), leaf: spec_fn(Leaf) -> int, sin: spec_fn(int) -> int)
    requires
        is_power_of_two(xs.len() as int),
        ceval(xs[0], leaf, sin) == a,
        forall|p: int| 1 <= p < xs.len() ==> #[trigger] ceval(xs[p], leaf, sin) == (0int, 0int),
    ensures
        forall|p: int| 0 <= p < xs.len() ==> ceval(#[trigger] fft_network(xs)[p], leaf, sin) == a,
{
    let n = xs.len() as int;
    let k = log2(n);
    assert(pow2(k) == n);
    lemma_pow2_pos(k);
    let ys = bit_reversed(xs);
    assert forall|p: int| 0 <= p < n implies #[trigger] ceval(ys[p], leaf, sin) == if p < 1 { a } else { (0int, 0int) } by {
        lemma_rev_bits_bound(p, k);
        lemma_rev_bits_zero(k);
        if p != 0 && rev_bits(p, k) == 0 {
            lemma_rev_bits_involution(p, k);
        }
    }
    assert(pow2(0) == 1) by { vstd::arithmetic::power2::lemma2_to64(); }
    lemma_stages_impulse(ys, 1, 0, k, a, leaf, sin);
}

/// The forward transform of a constant sequence is its length times the constant at
/// the first position, when the unit leaves have their values.
proof fn lemma_fft_constant_origin(xs: Seq<CExpr>, c: (int, int), leaf: spec_fn(Leaf) -> int, sin: spec_fn(int) -> int)
    requires
        unit_leaves(leaf),
        is_power_of_two(xs.len() as int),
        forall|p: int| 0 <= p < xs.len() ==> #[trigger] ceval(xs[p], leaf, sin) == c,
    ensures
        ceval(fft_network(xs)[0], leaf, sin) == (xs.len() * c.0, xs.len() * c.1),
{
    let n = xs.len() as int;
    let k = log2(n);
    assert(pow2(k) == n);
    lemma_pow2_pos(k);
    let ys = bit_reversed(xs);
    assert forall|p: int| 0 <= p < n && p % 1 == 0 implies #[trigger] ceval(ys[p], leaf, sin) == (1 * c.0, 1 * c.1) by {
        lemma_rev_bits_bound(p, k);
    }
    assert(pow2(0) == 1) by { vstd::arithmetic::power2::lemma2_to64(); }
    lemma_stages_sum(ys, 1, 0, k, c, leaf, sin);
}

/// The factor by which a transform of `n` points scales an impulse: one forward, the
/// value of `1 / n` inverse.
pub open spec fn tscale(f: Transform, a: (int, int), n: nat, leaf: spec_fn(Leaf) -> int) -> (int, int) {
    match f {
        Transform::Forward => a,
        Transform::Inverse => (a.0 * leaf(Leaf::Reciprocal(n as usize)), a.1 * leaf(Leaf::Reciprocal(n as usize))),
    }
}

proof fn lemma_transform_impulse(f: Transform, xs: Seq<CExpr>, a: (int, int), leaf: spec_fn(Leaf) -> int,
    sin: spec_fn(int) -> int)
    requires
        unit_leaves(leaf),
        is_power_of_two(xs.len() as int),
        ceval(xs[0], leaf, sin) == a,
        forall|p: int| 1 <= p < xs.len() ==> #[trigger] ceval(xs[p], leaf, sin) == (0int, 0int),
    ensures
        forall|p: int| 0 <= p < xs.len() ==> ceval(#[trigger] transform_spec(f, xs)[p], leaf, sin) == tscale(f, a, xs.len(), leaf),
{
    match f {
        Transform::Forward => lemma_fft_impulse(xs, a, leaf, sin),
        Transform::Inverse => {
            reveal_with_fuel(eval, 3);
            let n = xs.len();
            let conj = Seq::new(n, |i: int| c_conj(xs[i]));
            assert forall|p: int| 1 <= p < n implies #[trigger] ceval(conj[p], leaf, sin) == (0int, 0int) by {
                assert(ceval(xs[p], leaf, sin) == (0int, 0int));
            }
            lemma_pow2_pos(log2(n as int));
            assert(n > 0);
            assert(conj[0] == c_conj(xs[0]));
            assert(ceval(conj[0], leaf, sin) == (a.0, 0 - a.1));
            lemma_fft_impulse(conj, (a.0, 0 - a.1), leaf, sin);
            lemma_fft_network_len(conj);
            let s = Expr::Const(Leaf::Reciprocal(n as usize));
            assert forall|p: int| 0 <= p < n implies ceval(#[trigger] transform_spec(f, xs)[p], leaf, sin) == tscale(f, a, n, leaf) by {
                let y = fft_network(conj)[p];
                assert(ceval(y, leaf, sin) == (a.0, 0 - a.1));
                assert(transform_spec(f, xs)[p] == c_conj_scale(y, s));
            }
        },
    }
}

/// The 2D transform of an impulse at the origin is that impulse, scaled by the two
/// transforms, at every position.
pub proof fn lemma_transform_2d_impulse(xs: Seq<CExpr>, width: int, height: int, f: Transform, a: (int, int),
    leaf: spec_fn(Leaf) -> int, sin: spec_fn(int) -> int)
    requires
        unit_leaves(leaf),
        xs.len() == width * height,
        is_power_of_two(width),
        is_power_of_two(height),
        ceval(xs[0], leaf, sin) == a,
        forall|p: int| 1 <= p < xs.len() ==> #[trigger] ceval(xs[p], leaf, sin) == (0int, 0int),
    ensures
        forall|p: int| 0 <= p < xs.len() ==> ceval(#[trigger] transform_2d(xs, width, height, f)[p], leaf, sin)
            == tscale(f, tscale(f, a, width as nat, leaf), height as nat, leaf),
{
    lemma_pow2_pos(log2(width));
    lemma_pow2_pos(log2(height));
    let b = tscale(f, a, width as nat, leaf);
    let rows = rows_transformed(xs, width, f);
    assert forall|p: int| 0 <= p < xs.len() implies #[trigger] ceval(rows[p], leaf, sin) == if p < width { b } else { (0int, 0int) } by {
        lemma_grid_split(p, width, height);
        let r = p / width;
        assert(r * width + width <= width * height) by (nonlinear_arith) requires r < height, width > 0;
        assert(0 <= r * width) by (nonlinear_arith) requires r >= 0, width > 0;
        let row = row_of(xs, width, r);
        if r == 0 {
            assert(r * width == 0) by (nonlinear_arith) requires r == 0;
            assert(p < width) by (nonlinear_arith) requires p / width == 0, 0 <= p, width > 0;
            assert(row =~= xs.subrange(0, width));
            assert(row.len() == width);
            assert forall|q: int| 1 <= q < row.len() implies #[trigger] ceval(row[q], leaf, sin) == (0int, 0int) by {
                assert(row[q] == xs[q]);
            }
            assert(row[0] == xs[0]);
            lemma_transform_impulse(f, row, a, leaf, sin);
            assert(p < width);
        } else {
            assert(r * width >= width) by (nonlinear_arith) requires r >= 1, width > 0;
            assert forall|q: int| 1 <= q < row.len() implies #[trigger] ceval(row[q], leaf, sin) == (0int, 0int) by {
                assert(row[q] == xs[r * width + q]);
            }
            assert(row[0] == xs[r * width]);
            lemma_transform_impulse(f, row, (0int, 0int), leaf, sin);
            assert(tscale(f, (0int, 0int), width as nat, leaf) == (0int, 0int)) by {
                match f {
                    Transform::Forward => {},
                    Transform::Inverse => {
                        assert(0int * leaf(Leaf::Reciprocal(width as nat as usize)) == 0) by (nonlinear_arith);
                    },
                }
            }
            assert(p >= width);
        }
    }
    assert forall|p: int| 0 <= p < xs.len() implies ceval(#[trigger] transform_2d(xs, width, height, f)[p], leaf, sin)
        == tscale(f, b, height as nat, leaf) by {
        lemma_grid_split(p, width, height);
        let c = p % width;
        let col = col_of(rows, width, height, c);
        assert forall|r: int| 1 <= r < height implies #[trigger] ceval(col[r], leaf, sin) == (0int, 0int) by {
            lemma_grid_join(r, c, width, height);
            assert(c + r * width >= width) by (nonlinear_arith) requires r >= 1, width > 0, c >= 0;
        }
        lemma_grid_join(0, c, width, height);
        assert(col[0] == rows[c]);
        lemma_transform_impulse(f, col, b, leaf, sin);
    }
}

/// The forward 2D transform of a constant field has, at the origin, the number of
/// points times the constant.
pub proof fn lemma_fft_2d_constant_origin(xs: Seq<CExpr>, width: int, height: int, c: (int, int),
    leaf: spec_fn(Leaf) -> int, sin: spec_fn(int) -> int)
    requires
        unit_leaves(leaf),
        xs.len() == width * height,
        is_power_of_two(width),
        is_power_of_two(height),
        forall|p: int| 0 <= p < xs.len() ==> #[trigger] ceval(xs[p], leaf, sin) == c,
    ensures
        ceval(transform_2d(xs, width, height, Transform::Forward)[0], leaf, sin)
            == (width * height * c.0, width * height * c.1),
{
    lemma_pow2_pos(log2(width));
    lemma_pow2_pos(log2(height));
    let f = Transform::Forward;
    let rows = rows_transformed(xs, width, f);
    let col = col_of(rows, width, height, 0);
    assert forall|r: int| 0 <= r < height implies #[trigger] ceval(col[r], leaf, sin) == (width * c.0, width * c.1) by {
        lemma_grid_join(r, 0, width, height);
        let p = r * width;
        assert(col[r] == rows[p]);
        lemma_grid_join(r, 0, width, height);
        let row = row_of(xs, width, r);
        assert(r * width + width <= width * height) by (nonlinear_arith) requires r < height, width > 0;
        assert(0 <= r * width) by (nonlinear_arith) requires r >= 0, width > 0;
        assert forall|q: int| 0 <= q < row.len() implies #[trigger] ceval(row[q], leaf, sin) == c by {
            assert(row[q] == xs[r * width + q]);
        }
        lemma_fft_constant_origin(row, c, leaf, sin);
    }
    lemma_fft_constant_origin(col, (width * c.0, width * c.1), leaf, sin);
    assert(height * (width * c.0) == width * height * c.0) by (nonlinear_arith);
    assert(height * (width * c.1) == width * height * c.1) by (nonlinear_arith);
    assert(0int % width == 0 && 0int / width == 0);
    assert(width * height > 0) by (nonlinear_arith) requires width > 0, height > 0;
    assert(rows.len() == xs.len());
    assert(transform_2d(xs, width, height, f) == cols_transformed(rows, width, height, f));
    assert(cols_transformed(rows, width, height, f)[0] == transform_spec(f, col)[0]);
}

/// `a + b` on complex values.
pub open spec fn vadd(a: (int, int), b: (int, int)) -> (int, int) {
    (a.0 + b.0, a.1 + b.1)
}

/// `a - b` on complex values.
pub open spec fn vsub(a: (int, int), b: (int, int)) -> (int, int) {
    (a.0 - b.0, a.1 - b.1)
}

/// `-i * a`.
pub open spec fn vmul_neg_i(a: (int, int)) -> (int, int) {
    (a.1, -a.0)
}

/// `i * a`.
pub open spec fn vmul_i(a: (int, int)) -> (int, int) {
    (-a.1, a.0)
}

/// The discrete Fourier transform of four values at `k`: the sum over `j` of
/// `v[j] * e^(-2 * PI * i * j * k / 4)`, where `e^(-2 * PI * i / 4)` is `-i`.
pub open spec fn dft4(v: Seq<(int, int)>, k: int) -> (int, int) {
    if k == 0 {
        vadd(vadd(vadd(v[0], v[1]), v[2]), v[3])
    } else if k == 1 {
        vadd(vsub(vadd(v[0], vmul_neg_i(v[1])), v[2]), vmul_i(v[3]))
    } else if k == 2 {
        vsub(vadd(vsub(v[0], v[1]), v[2]), v[3])
    } else {
        vadd(vsub(vadd(v[0], vmul_i(v[1])), v[2]), vmul_neg_i(v[3]))
    }
}

/// The values of a sequence of complex expressions.
pub open spec fn cevals(xs: Seq<CExpr>, leaf: spec_fn(Leaf) -> int, sin: spec_fn(int) -> int) -> Seq<(int, int)> {
    Seq::new(xs.len(), |j: int| ceval(xs[j], leaf, sin))
}

/// The leaves of the quarter-turn twiddle have their exact values: `cos(-PI / 2) = 0`,
/// `sin(-PI / 2) = -1`.
pub open spec fn quarter_turn_leaves(leaf: spec_fn(Leaf) -> int) -> bool {
    leaf(Leaf::TwiddleCos(4)) == 0 && leaf(Leaf::TwiddleSin(4)) == -1
}

proof fn lemma_ceval_mul_by(w: CExpr, t: CExpr, leaf: spec_fn(Leaf) -> int, sin: spec_fn(int) -> int)
    ensures
        ceval(w, leaf, sin) == (1int, 0int) ==> ceval(c_mul(w, t), leaf, sin) == ceval(t, leaf, sin),
        ceval(w, leaf, sin) == (0int, -1int) ==> ceval(c_mul(w, t), leaf, sin) == vmul_neg_i(ceval(t, leaf, sin)),
{
    lemma_ceval_ops(w, t, leaf, sin);
    let a = ceval(w, leaf, sin);
    let b = ceval(t, leaf, sin);
    if a == (1int, 0int) {
        assert(1 * b.0 - 0 * b.1 == b.0 && 1 * b.1 + 0 * b.0 == b.1) by (nonlinear_arith);
    }
    if a == (0int, -1int) {
        assert(0 * b.0 - (-1) * b.1 == b.1 && 0 * b.1 + (-1) * b.0 == -b.0) by (nonlinear_arith);
    }
}

/// The transform of two points: their sum and their difference.
proof fn lemma_fft2_values(xs: Seq<CExpr>, leaf: spec_fn(Leaf) -> int, sin: spec_fn(int) -> int)
    requires
        unit_leaves(leaf),
        xs.len() == 2,
    ensures
        fft_network(xs).len() == 2,
        ceval(fft_network(xs)[0], leaf, sin) == vadd(ceval(xs[0], leaf, sin), ceval(xs[1], leaf, sin)),
        ceval(fft_network(xs)[1], leaf, sin) == vsub(ceval(xs[0], leaf, sin), ceval(xs[1], leaf, sin)),
{
    assert(pow2(1) == 2) by { vstd::arithmetic::power2::lemma2_to64(); }
    assert(is_power_of_two(2));
    lemma_fft_network_len(xs);
    lemma_fft_radix2(xs);
    assert(evens(xs) =~= seq![xs[0]]);
    assert(odds(xs) =~= seq![xs[1]]);
    lemma_fft_one_point(xs[0]);
    lemma_fft_one_point(xs[1]);
    let w = twiddle(2, 0);
    assert(ceval(w, leaf, sin) == (1int, 0int)) by { reveal_with_fuel(eval, 2); }
    lemma_ceval_mul_by(w, xs[1], leaf, sin);
    lemma_ceval_ops(xs[0], c_mul(w, xs[1]), leaf, sin);
    assert(fft_network(xs)[0int + 1] == c_sub(fft_network(evens(xs))[0], c_mul(twiddle(2, 0), fft_network(odds(xs))[0])));
}

/// The transform of four points is their discrete Fourier transform, where the
/// quarter-turn twiddle leaves hold their exact values.
pub proof fn lemma_fft4_dft(xs: Seq<CExpr>, leaf: spec_fn(Leaf) -> int, sin: spec_fn(int) -> int)
    requires
        unit_leaves(leaf),
        quarter_turn_leaves(leaf),
        xs.len() == 4,
    ensures
        fft_network(xs).len() == 4,
        forall|k: int| 0 <= k < 4 ==> ceval(#[trigger] fft_network(xs)[k], leaf, sin) == dft4(cevals(xs, leaf, sin), k),
{
    assert(pow2(2) == 4) by { vstd::arithmetic::power2::lemma2_to64(); }
    assert(is_power_of_two(4));
    lemma_fft_network_len(xs);
    lemma_fft_radix2(xs);
    let e = evens(xs);
    let o = odds(xs);
    assert(e =~= seq![xs[0], xs[2]]);
    assert(o =~= seq![xs[1], xs[3]]);
    lemma_fft2_values(e, leaf, sin);
    lemma_fft2_values(o, leaf, sin);
    let v = cevals(xs, leaf, sin);
    let fe = fft_network(e);
    let fo = fft_network(o);
    let w0 = twiddle(4, 0);
    let w1 = twiddle(4, 1);
    assert(ceval(w0, leaf, sin) == (1int, 0int)) by { reveal_with_fuel(eval, 2); }
    assert(ceval(twiddle_step(4), leaf, sin) == (0int, -1int)) by { reveal_with_fuel(eval, 2); }
    lemma_ceval_mul_by(w0, twiddle_step(4), leaf, sin);
    assert(ceval(w1, leaf, sin) == (0int, -1int));
    lemma_ceval_mul_by(w0, fo[0], leaf, sin);
    lemma_ceval_mul_by(w1, fo[1], leaf, sin);
    lemma_ceval_ops(fe[0], c_mul(w0, fo[0]), leaf, sin);
    lemma_ceval_ops(fe[1], c_mul(w1, fo[1]), leaf, sin);
    assert(fft_network(xs)[0] == c_add(fe[0], c_mul(w0, fo[0])));
    assert(fft_network(xs)[1] == c_add(fe[1], c_mul(w1, fo[1])));
    assert(fft_network(xs)[0int + 2] == c_sub(fe[0], c_mul(w0, fo[0])));
    assert(fft_network(xs)[1int + 2] == c_sub(fe[1], c_mul(w1, fo[1])));
    assert(v[0] == ceval(xs[0], leaf, sin) && v[1] == ceval(xs[1], leaf, sin));
    assert(v[2] == ceval(xs[2], leaf, sin) && v[3] == ceval(xs[3], leaf, sin));
}

/// Transforming four points forward and then back gives each point multiplied by
/// `4 * r`, where `r` is the value of the leaf `1 / 4`: the points themselves.
pub proof fn lemma_fft4_round_trip(xs: Seq<CExpr>, leaf: spec_fn(Leaf) -> int, sin: spec_fn(int) -> int)
    requires
        unit_leaves(leaf),
        quarter_turn_leaves(leaf),
        xs.len() == 4,
    ensures
        forall|k: int| 0 <= k < 4 ==> ceval(#[trigger] ifft_network(fft_network(xs))[k], leaf, sin)
            == (4 * leaf(Leaf::Reciprocal(4)) * ceval(xs[k], leaf, sin).0, 4 * leaf(Leaf::Reciprocal(4)) * ceval(xs[k], leaf, sin).1),
{
    let r = leaf(Leaf::Reciprocal(4));
    lemma_fft4_dft(xs, leaf, sin);
    let ys = fft_network(xs);
    let zs = Seq::new(ys.len(), |i: int| c_conj(ys[i]));
    lemma_fft4_dft(zs, leaf, sin);
    let v = cevals(xs, leaf, sin);
    let u = cevals(zs, leaf, sin);
    assert forall|i: int| 0 <= i < 4 implies #[trigger] u[i] == (dft4(v, i).0, -dft4(v, i).1) by {
        reveal_with_fuel(eval, 2);
        assert(ceval(ys[i], leaf, sin) == dft4(v, i));
    }
    let out = ifft_network(ys);
    assert forall|k: int| 0 <= k < 4 implies ceval(#[trigger] out[k], leaf, sin) == (4 * r * v[k].0, 4 * r * v[k].1) by {
        let t = fft_network(zs)[k];
        assert(out[k] == c_conj_scale(t, Expr::Const(Leaf::Reciprocal(4))));
        reveal_with_fuel(eval, 3);
        assert(ceval(out[k], leaf, sin) == (ceval(t, leaf, sin).0 * r, (0 - ceval(t, leaf, sin).1) * r));
        let d = dft4(u, k);
        assert(ceval(t, leaf, sin) == d);
        assert(d.0 == 4 * v[k].0 && -d.1 == 4 * v[k].1) by {
            assert(u[0] == (dft4(v, 0).0, -dft4(v, 0).1));
            assert(u[1] == (dft4(v, 1).0, -dft4(v, 1).1));
            assert(u[2] == (dft4(v, 2).0, -dft4(v, 2).1));
            assert(u[3] == (dft4(v, 3).0, -dft4(v, 3).1));
        }
        assert(d.0 * r == 4 * r * v[k].0 && (0 - d.1) * r == 4 * r * v[k].1) by (nonlinear_arith)
            requires d.0 == 4 * v[k].0, -d.1 == 4 * v[k].1;
    }
}

} // verus!
