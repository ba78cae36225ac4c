use vstd::prelude::*;
use vstd::arithmetic::power2::{pow2, lemma_pow2_pos, lemma_pow2_unfold};
use vstd::arithmetic::div_mod::{
    lemma_fundamental_div_mod_converse, lemma_div_denominator, lemma_mod_mod,
    lemma_mod_breakdown, lemma_fundamental_div_mod,
};

verus! {

/// `n` is a power of two.
pub open spec fn is_power_of_two(n: int) -> bool {
    exists|k: nat| pow2(k) == n
}

/// The exponent `k` with `pow2(k) == n`, for `n` a power of two.
pub open spec fn log2(n: int) -> nat {
    choose|k: nat| pow2(k) == n
}

/// The number whose `k` low bits are those of `i` in reverse order.
pub open spec fn rev_bits(i: int, k: nat) -> int
    decreases k,
{
    if k == 0 {
        0
    } else {
        (i % 2) * pow2((k - 1) as nat) as int + rev_bits(i / 2, (k - 1) as nat)
    }
}

/// The position from which bit-reversal reordering of `n` items takes item `i`.
pub open spec fn bit_reverse_index(i: int, n: int) -> int {
    rev_bits(i, log2(n))
}

/// `s` in bit-reversed order.
pub open spec fn bit_reversed<T>(s: Seq<T>) -> Seq<T> {
    Seq::new(s.len(), |i: int| s[bit_reverse_index(i, s.len() as int)])
}

/// Adds one to a bit-reversed counter: bits `t`, `t - 1`, ... are the low
/// digits, and the carry runs from bit `t` downwards.
pub open spec fn reverse_increment(j: int, t: int) -> int
    decreases t + 1,
{
    if t < 0 {
        j
    } else if (j / (pow2(t as nat) as int)) % 2 == 1 {
        reverse_increment(j - (pow2(t as nat) as int), t - 1)
    } else {
        j + (pow2(t as nat) as int)
    }
}

pub proof fn lemma_rev_bits_bound(i: int, k: nat)
    requires
        0 <= i,
    ensures
        0 <= rev_bits(i, k) < pow2(k),
    decreases k,
{
    lemma_pow2_pos(k);
    if k > 0 {
        lemma_rev_bits_bound(i / 2, (k - 1) as nat);
        lemma_pow2_unfold(k);
        assert(0 <= i % 2 <= 1);
        assert((i % 2) * pow2((k - 1) as nat) as int <= pow2((k - 1) as nat) as int) by (nonlinear_arith)
            requires 0 <= i % 2 <= 1, pow2((k - 1) as nat) as int > 0;
    }
}

/// Splitting off the top bit: it becomes the lowest bit of the reversal.
proof fn lemma_rev_bits_top(i: int, k: nat)
    requires
        k >= 1,
        0 <= i < pow2(k),
    ensures
        rev_bits(i, k) == 2 * rev_bits(i % pow2((k - 1) as nat) as int, (k - 1) as nat) + i / pow2((k - 1) as nat) as int,
    decreases k,
{
    let p = pow2((k - 1) as nat) as int;
    lemma_pow2_unfold(k);
    lemma_pow2_pos((k - 1) as nat);
    if k == 1 {
        assert(p == 1) by { vstd::arithmetic::power2::lemma2_to64(); }
        assert(i % 1 == 0);
        assert(i / 1 == i);
        assert(i % 2 == i);
        assert(rev_bits(i / 2, 0) == 0);
        assert(rev_bits(0, 0) == 0);
    } else {
        let q = pow2((k - 2) as nat) as int;
        lemma_pow2_unfold((k - 1) as nat);
        lemma_pow2_pos((k - 2) as nat);
        assert(p == 2 * q);
        // the induction hypothesis on i / 2
        assert(i / 2 < p) by {
            lemma_fundamental_div_mod(i, 2);
        }
        lemma_rev_bits_top(i / 2, (k - 1) as nat);
        // rev_bits(i % p, k - 1) unfolds through (i % p) % 2 and (i % p) / 2
        lemma_mod_mod(i, 2, q);
        lemma_mod_breakdown(i, 2, q);
        let r = i % p;
        assert(r == 2 * ((i / 2) % q) + i % 2);
        lemma_fundamental_div_mod_converse(r, 2, (i / 2) % q, i % 2);
        assert(r / 2 == (i / 2) % q);
        assert(r % 2 == i % 2);
        lemma_div_denominator(i, 2, q);
        assert((i / 2) / q == i / p);
        assert(rev_bits(r, (k - 1) as nat) == (i % 2) * q + rev_bits((i / 2) % q, (k - 2) as nat));
        assert(2 * ((i % 2) * q) == (i % 2) * p) by (nonlinear_arith)
            requires p == 2 * q;
    }
}

pub proof fn lemma_rev_bits_zero(k: nat)
    ensures
        rev_bits(0, k) == 0,
    decreases k,
{
    if k > 0 {
        lemma_rev_bits_zero((k - 1) as nat);
        assert(0int % 2 == 0 && 0int / 2 == 0);
        assert(rev_bits(0, k) == (0int % 2) * pow2((k - 1) as nat) as int + rev_bits(0int / 2, (k - 1) as nat));
    }
}

/// Reversing the bits twice gives the number back.
pub proof fn lemma_rev_bits_involution(i: int, k: nat)
    requires
        0 <= i < pow2(k),
    ensures
        rev_bits(rev_bits(i, k), k) == i,
    decreases k,
{
    if k == 0 {
        assert(pow2(0) == 1) by { vstd::arithmetic::power2::lemma2_to64(); }
    } else {
        let p = pow2((k - 1) as nat) as int;
        lemma_pow2_unfold(k);
        lemma_pow2_pos((k - 1) as nat);
        let b = rev_bits(i / 2, (k - 1) as nat);
        lemma_rev_bits_bound(i / 2, (k - 1) as nat);
        let r = rev_bits(i, k);
        assert(r == (i % 2) * p + b);
        lemma_rev_bits_bound(i, k);
        lemma_rev_bits_top(r, k);
        lemma_fundamental_div_mod_converse(r, p, i % 2, b);
        assert(i / 2 < p) by {
            lemma_fundamental_div_mod(i, 2);
        }
        lemma_rev_bits_involution(i / 2, (k - 1) as nat);
        lemma_fundamental_div_mod(i, 2);
    }
}

/// The reversal of `i + 1` is the reverse increment of the reversal of `i`.
pub proof fn lemma_rev_bits_increment(i: int, k: nat)
    requires
        k >= 1,
        0 <= i,
        i + 1 < pow2(k),
    ensures
        reverse_increment(rev_bits(i, k), k - 1) == rev_bits(i + 1, k),
    decreases k,
{
    let p = pow2((k - 1) as nat) as int;
    lemma_pow2_unfold(k);
    lemma_pow2_pos((k - 1) as nat);
    let b = rev_bits(i / 2, (k - 1) as nat);
    lemma_rev_bits_bound(i / 2, (k - 1) as nat);
    let r = rev_bits(i, k);
    assert(r == (i % 2) * p + b);
    lemma_fundamental_div_mod_converse(r, p, i % 2, b);
    assert(rev_bits(i + 1, k) == ((i + 1) % 2) * p + rev_bits((i + 1) / 2, (k - 1) as nat));
    assert(((k - 1) as int) as nat == (k - 1) as nat);
    if i % 2 == 0 {
        assert((i % 2) * p == 0);
        assert(r / p == 0);
        assert(reverse_increment(r, k - 1) == r + p);
        assert((i + 1) % 2 == 1);
        assert((i + 1) / 2 == i / 2);
    } else {
        assert(i % 2 == 1);
        assert((i % 2) * p == p) by (nonlinear_arith)
            requires i % 2 == 1;
        assert(r / p == 1);
        assert(r - p == b);
        assert((i + 1) % 2 == 0);
        assert((i + 1) / 2 == i / 2 + 1);
        if k == 1 {
            assert(p == 1) by { vstd::arithmetic::power2::lemma2_to64(); }
            assert(false);
        } else {
            assert(i / 2 + 1 < p);
            lemma_rev_bits_increment(i / 2, (k - 1) as nat);
        }
    }
}

/// Bit-reversal reordering of a power-of-two number of items undoes itself.
pub proof fn lemma_bit_reversed_involution<T>(s: Seq<T>)
    requires
        is_power_of_two(s.len() as int),
    ensures
        bit_reversed(bit_reversed(s)) == s,
{
    let n = s.len() as int;
    let k = log2(n);
    assert(pow2(k) == n);
    let once = bit_reversed(s);
    assert forall|i: int| 0 <= i < n implies #[trigger] bit_reversed(once)[i] == s[i] by {
        lemma_rev_bits_bound(i, k);
        lemma_rev_bits_involution(i, k);
        assert(once[rev_bits(i, k)] == s[rev_bits(rev_bits(i, k), k)]);
    }
    assert(bit_reversed(once) =~= s);
}

/// Reorders `data` so that item `i` is the one that stood at the bit reversal of `i`.
pub fn bit_reverse_permute<T: Copy>(data: &mut Vec<T>)
    requires
        is_power_of_two(old(data)@.len() as int),
    ensures
        final(data)@ == bit_reversed(old(data)@),
{
    let n = data.len();
    let ghost k = log2(n as int);
    let ghost orig = data@;
    proof {
        lemma_pow2_pos(k);
        if k >= 1 {
            lemma_pow2_unfold(k);
        } else {
            assert(pow2(0) == 1) by { vstd::arithmetic::power2::lemma2_to64(); }
        }
    }
    proof {
        lemma_rev_bits_zero(k);
        assert forall|p: int| 0 <= p < n implies 0 <= #[trigger] rev_bits(p, k) by {
            lemma_rev_bits_bound(p, k);
        }
    }
    let mut j: usize = 0;
    for i in 0..n
        invariant
            n == data@.len(),
            n == orig.len(),
            pow2(k) == n,
            k >= 1 ==> n == 2 * (pow2((k - 1) as nat) as int),
            k == 0 ==> n == 1,
            i < n ==> j == rev_bits(i as int, k),
            forall|p: int| 0 <= p < n ==> #[trigger] data@[p] == if p < i || rev_bits(p, k) < i {
                orig[rev_bits(p, k)]
            } else {
                orig[p]
            },
    {
        proof {
            lemma_rev_bits_bound(i as int, k);
            lemma_rev_bits_involution(i as int, k);
        }
        if i < j {
            let a = data[i];
            let b = data[j];
            data.set(i, b);
            data.set(j, a);
        }
        proof {
            assert forall|p: int| 0 <= p < n implies #[trigger] data@[p] == if p < i + 1 || rev_bits(p, k) < i + 1 {
                orig[rev_bits(p, k)]
            } else {
                orig[p]
            } by {
                lemma_rev_bits_involution(p, k);
                lemma_rev_bits_bound(p, k);
                if p != i && p != j {
                    assert(rev_bits(p, k) != i);
                }
            }
        }
        // advance j to the bit reversal of i + 1
        let mut m: usize = n / 2;
        let ghost j0 = j as int;
        let ghost mut t: int = k - 1;
        proof {
            if k == 0 {
                assert(m == 0);
            }
        }
        while m >= 1 && (j / m) % 2 == 1
            invariant
                -1 <= t <= k - 1,
                t >= 0 ==> m == pow2(t as nat),
                t < 0 ==> m == 0,
                j < (pow2((t + 1) as nat) as int),
                reverse_increment(j as int, t) == reverse_increment(j0, k - 1),
                pow2(k) == n,
                m <= n / 2,
            decreases t + 1,
        {
            proof {
                lemma_pow2_unfold((t + 1) as nat);
                lemma_fundamental_div_mod(j as int, m as int);
                let q = (j as int) / (m as int);
                assert((m as int) * q >= m as int) by (nonlinear_arith)
                    requires q % 2 == 1, m >= 1, q >= 0;
                if t >= 1 {
                    lemma_pow2_unfold(t as nat);
                }
            }
            j = j - m;
            m = m / 2;
            proof {
                t = t - 1;
                if t == -1 {
                    assert(pow2(0) == 1) by { vstd::arithmetic::power2::lemma2_to64(); }
                }
            }
        }
        proof {
            if t >= 0 {
                lemma_pow2_unfold((t + 1) as nat);
                lemma_fundamental_div_mod(j as int, m as int);
                let q = (j as int) / (m as int);
                assert(q < 2) by (nonlinear_arith)
                    requires j == (m as int) * q + (j as int) % (m as int), j < 2 * m, (j as int) % (m as int) >= 0, m >= 1;
                assert(q == 0);
                assert((m as int) * q == 0) by (nonlinear_arith)
                    requires q == 0;
                vstd::arithmetic::div_mod::lemma_mod_pos_bound(j as int, m as int);
                assert(j < m);
            } else {
                assert(pow2(0) == 1) by { vstd::arithmetic::power2::lemma2_to64(); }
            }
            lemma_pow2_pos(k);
            if i + 1 < n {
                lemma_rev_bits_increment(i as int, k);
            }
        }
        j = j + m;
    }
    proof {
        assert forall|p: int| 0 <= p < n implies #[trigger] data@[p] == bit_reversed(orig)[p] by {
            assert(log2(n as int) == k);
        }
        assert(data@ =~= bit_reversed(orig));
    }
}

/// Position `p` is one of the `count` positions `start`, `start + stride`, ...
pub open spec fn in_stripe(p: int, start: int, stride: int, count: int) -> bool {
    &&& start <= p
    &&& (p - start) % stride == 0
    &&& (p - start) / stride < count
}

/// The `q`-th position of a stripe is in it, with index `q`.
pub proof fn lemma_stripe_position(q: int, start: int, stride: int, count: int)
    requires
        0 <= q < count,
        0 <= start,
        stride > 0,
    ensures
        in_stripe(start + q * stride, start, stride, count),
        (start + q * stride - start) / stride == q,
{
    vstd::arithmetic::div_mod::lemma_mod_multiples_basic(q, stride);
    vstd::arithmetic::div_mod::lemma_div_multiples_vanish(q, stride);
    assert(start + q * stride - start == q * stride);
    assert(q * stride == stride * q) by (nonlinear_arith);
}

/// A position of a stripe is its start plus a multiple of its stride.
pub proof fn lemma_stripe_index(p: int, start: int, stride: int, count: int)
    requires
        in_stripe(p, start, stride, count),
        stride > 0,
    ensures
        p == start + ((p - start) / stride) * stride,
        0 <= (p - start) / stride < count,
{
    lemma_fundamental_div_mod(p - start, stride);
    assert(((p - start) / stride) * stride == stride * ((p - start) / stride)) by (nonlinear_arith);
    vstd::arithmetic::div_mod::lemma_div_pos_is_pos(p - start, stride);
}

/// Reads the items at `start`, `start + stride`, ... of `src` into the places of `dst`.
pub fn gather_into<T: Copy>(dst: &mut Vec<T>, src: &Vec<T>, start: usize, stride: usize)
    requires
        stride > 0,
        old(dst)@.len() == 0 || start + (old(dst)@.len() - 1) * stride < src@.len(),
    ensures
        final(dst)@.len() == old(dst)@.len(),
        forall|q: int| 0 <= q < final(dst)@.len() ==> #[trigger] final(dst)@[q] == src@[start + q * stride],
{
    let count = dst.len();
    let src_len = src.len();
    let mut q: usize = 0;
    let mut pos: usize = start;
    while q < count
        invariant
            dst@.len() == count,
            count == 0 || start + (count - 1) * stride < src@.len(),
            src_len == src@.len(),
            stride > 0,
            q <= count,
            q < count ==> pos == start + q * stride,
            forall|r: int| 0 <= r < q ==> #[trigger] dst@[r] == src@[start + r * stride],
        decreases count - q,
    {
        proof {
            assert(start + q * stride <= start + (count - 1) * stride) by (nonlinear_arith)
                requires q <= count - 1, stride > 0;
        }
        dst.set(q, src[pos]);
        if q + 1 < count {
            proof {
                assert(start + (q + 1) * stride <= start + (count - 1) * stride) by (nonlinear_arith)
                    requires q + 1 <= count - 1, stride > 0;
                assert(start + (q + 1) * stride == pos + stride) by (nonlinear_arith)
                    requires pos == start + q * stride;
            }
            pos = pos + stride;
        }
        q = q + 1;
    }
}

/// Writes the items of `src` to the positions `start`, `start + stride`, ... of `dst`.
pub fn scatter<T: Copy>(dst: &mut Vec<T>, src: &Vec<T>, start: usize, stride: usize)
    requires
        stride > 0,
        src@.len() == 0 || start + (src@.len() - 1) * stride < old(dst)@.len(),
    ensures
        final(dst)@.len() == old(dst)@.len(),
        forall|p: int| 0 <= p < final(dst)@.len() ==> #[trigger] final(dst)@[p] ==
            if in_stripe(p, start as int, stride as int, src@.len() as int) {
                src@[(p - start) / (stride as int)]
            } else {
                old(dst)@[p]
            },
{
    let count = src.len();
    let dst_len = dst.len();
    let ghost orig = dst@;
    let mut q: usize = 0;
    let mut pos: usize = start;
    while q < count
        invariant
            dst@.len() == orig.len(),
            dst_len == orig.len(),
            count == src@.len(),
            count == 0 || start + (count - 1) * stride < orig.len(),
            stride > 0,
            q <= count,
            q < count ==> pos == start + q * stride,
            forall|p: int| 0 <= p < orig.len() ==> #[trigger] dst@[p] ==
                if in_stripe(p, start as int, stride as int, q as int) {
                    src@[(p - start) / (stride as int)]
                } else {
                    orig[p]
                },
        decreases count - q,
    {
        proof {
            assert(start + q * stride <= start + (count - 1) * stride) by (nonlinear_arith)
                requires q <= count - 1, stride > 0;
        }
        let ghost before = dst@;
        dst.set(pos, src[q]);
        proof {
            lemma_stripe_position(q as int, start as int, stride as int, q + 1);
            assert forall|p: int| 0 <= p < orig.len() implies #[trigger] dst@[p] ==
                if in_stripe(p, start as int, stride as int, q + 1) {
                    src@[(p - start) / (stride as int)]
                } else {
                    orig[p]
                } by {
                if p != pos {
                    assert(dst@[p] == before[p]);
                    if in_stripe(p, start as int, stride as int, q + 1) {
                        lemma_stripe_index(p, start as int, stride as int, q + 1);
                        if (p - start) / (stride as int) == q as int {
                            assert(p == pos);
                        }
                    }
                } else {
                    assert(!in_stripe(p, start as int, stride as int, q as int));
                }
            }
        }
        if q + 1 < count {
            proof {
                assert(start + (q + 1) * stride <= start + (count - 1) * stride) by (nonlinear_arith)
                    requires q + 1 <= count - 1, stride > 0;
                assert(start + (q + 1) * stride == pos + stride) by (nonlinear_arith)
                    requires pos == start + q * stride;
                assert(pos + stride < dst_len);
            }
            pos = pos + stride;
        }
        q = q + 1;
    }
}

/// The items at `start`, `start + stride`, ... of `src`, `count` of them.
pub fn gather<T: Copy>(src: &Vec<T>, start: usize, stride: usize, count: usize) -> (out: Vec<T>)
    requires
        stride > 0,
        count == 0 || start + (count - 1) * stride < src@.len(),
    ensures
        out@.len() == count,
        forall|q: int| 0 <= q < count ==> #[trigger] out@[q] == src@[start + q * stride],
{
    let mut out: Vec<T> = Vec::new();
    let src_len = src.len();
    let mut q: usize = 0;
    let mut pos: usize = start;
    while q < count
        invariant
            out@.len() == q,
            count == 0 || start + (count - 1) * stride < src@.len(),
            src_len == src@.len(),
            stride > 0,
            q <= count,
            q < count ==> pos == start + q * stride,
            forall|r: int| 0 <= r < q ==> #[trigger] out@[r] == src@[start + r * stride],
        decreases count - q,
    {
        proof {
            assert(start + q * stride <= start + (count - 1) * stride) by (nonlinear_arith)
                requires q <= count - 1, stride > 0;
        }
        out.push(src[pos]);
        if q + 1 < count {
            proof {
                assert(start + (q + 1) * stride <= start + (count - 1) * stride) by (nonlinear_arith)
                    requires q + 1 <= count - 1, stride > 0;
                assert(start + (q + 1) * stride == pos + stride) by (nonlinear_arith)
                    requires pos == start + q * stride;
            }
            pos = pos + stride;
        }
        q = q + 1;
    }
    out
}

/// Row `p / width` and column `p % width` of a position of a `width` by `height` grid.
pub proof fn lemma_grid_split(p: int, width: int, height: int)
    requires
        width > 0,
        0 <= p < width * height,
    ensures
        p == (p / width) * width + p % width,
        0 <= p / width < height,
        0 <= p % width < width,
{
    lemma_fundamental_div_mod(p, width);
    vstd::arithmetic::div_mod::lemma_mod_pos_bound(p, width);
    vstd::arithmetic::div_mod::lemma_div_pos_is_pos(p, width);
    assert((p / width) * width == width * (p / width)) by (nonlinear_arith);
    if p / width >= height {
        assert(width * (p / width) >= width * height) by (nonlinear_arith)
            requires p / width >= height, width > 0;
    }
}

/// The position at row `r` and column `c` of a `width` by `height` grid.
pub proof fn lemma_grid_join(r: int, c: int, width: int, height: int)
    requires
        0 <= r < height,
        0 <= c < width,
    ensures
        (r * width + c) / width == r,
        (r * width + c) % width == c,
        0 <= r * width + c < width * height,
{
    lemma_fundamental_div_mod_converse(r * width + c, width, r, c);
    assert(r * width + c < width * height) by (nonlinear_arith)
        requires 0 <= r < height, 0 <= c < width;
    assert(0 <= r * width) by (nonlinear_arith)
        requires 0 <= r, 0 <= c < width;
}

/// In a `width` by `height` grid, the stripe from column `c` down with stride `width`
/// holds the positions of column `c`, each at its row.
pub proof fn lemma_column_stripe(p: int, c: int, width: int, height: int)
    requires
        0 <= p < width * height,
        0 <= c < width,
    ensures
        in_stripe(p, c, width, height) <==> p % width == c,
        p % width == c ==> (p - c) / width == p / width,
{
    lemma_grid_split(p, width, height);
    if p % width == c {
        let r = p / width;
        lemma_stripe_position(r, c, width, height);
        assert(c + r * width == p);
    }
    if in_stripe(p, c, width, height) {
        lemma_stripe_index(p, c, width, height);
        let q = (p - c) / width;
        lemma_grid_join(q, c, width, height);
        assert(q * width + c == p);
    }
}

} // verus!
