use vstd::arithmetic::div_mod::{lemma_mod_add_multiples_vanish, lemma_small_mod};
use crate::plan::ConvPlan;
use vstd::prelude::*;

verus! {

/// Length of the linear convolution of sequences of lengths `n` and `m`.
/// An empty operand gives an empty convolution.
pub open spec fn conv_len(n: nat, m: nat) -> nat {
    if n == 0 || m == 0 {
        0
    } else {
        (n + m - 1) as nat
    }
}

/// Entry `j` of `s`, reading every position outside `s` as 0.
pub open spec fn at(s: Seq<int>, j: int) -> int {
    if 0 <= j < s.len() {
        s[j]
    } else {
        0
    }
}

/// `f(0) + f(1) + ... + f(count - 1)`.
pub open spec fn sum_range(f: spec_fn(int) -> int, count: nat) -> int
    decreases count,
{
    if count == 0 {
        0
    } else {
        sum_range(f, (count - 1) as nat) + f(count - 1)
    }
}

/// Entry `k` of the linear convolution of `a` and `b`: the sum of
/// `a[j] * b[k - j]` over the indices `j` where both factors exist.
pub open spec fn conv_entry(a: Seq<int>, b: Seq<int>, k: int) -> int {
    sum_range(|j: int| at(a, j) * at(b, k - j), (k + 1) as nat)
}

/// The linear convolution of `a` and `b`: `n + m - 1` entries, or none when
/// either operand is empty.
pub open spec fn linear_convolution(a: Seq<int>, b: Seq<int>) -> Seq<int> {
    Seq::new(conv_len(a.len(), b.len()), |k: int| conv_entry(a, b, k))
}

/// `a` followed by zeros up to length `size`.
pub open spec fn zero_padded(a: Seq<int>, size: nat) -> Seq<int> {
    a + Seq::new((size - a.len()) as nat, |i: int| 0int)
}

/// The cyclic convolution of two sequences of the length of `x`: indices of
/// `y` wrap around modulo that length.
pub open spec fn cyclic_convolution(x: Seq<int>, y: Seq<int>) -> Seq<int> {
    Seq::new(
        x.len(),
        |k: int| sum_range(|j: int| x[j] * y[(k - j) % (x.len() as int)], x.len()),
    )
}

/// Every entry of `a` multiplied by `c`.
pub open spec fn scaled(c: int, a: Seq<int>) -> Seq<int> {
    a.map_values(|v: int| c * v)
}

proof fn lemma_sum_ext(f: spec_fn(int) -> int, g: spec_fn(int) -> int, count: nat)
    requires
        forall|j: int| 0 <= j < count ==> #[trigger] f(j) == g(j),
    ensures
        sum_range(f, count) == sum_range(g, count),
    decreases count,
{
    if count > 0 {
        lemma_sum_ext(f, g, (count - 1) as nat);
    }
}

proof fn lemma_sum_zero_tail(f: spec_fn(int) -> int, lo: nat, hi: nat)
    requires
        lo <= hi,
        forall|j: int| lo <= j < hi ==> #[trigger] f(j) == 0,
    ensures
        sum_range(f, hi) == sum_range(f, lo),
    decreases hi,
{
    if hi > lo {
        lemma_sum_zero_tail(f, lo, (hi - 1) as nat);
    }
}

proof fn lemma_sum_drop_first(g: spec_fn(int) -> int, count: nat)
    requires
        count >= 1,
    ensures
        sum_range(g, count) == g(0) + sum_range(|j: int| g(j + 1), (count - 1) as nat),
    decreases count,
{
    let h = |j: int| g(j + 1);
    if count > 1 {
        lemma_sum_drop_first(g, (count - 1) as nat);
        assert(sum_range(h, (count - 1) as nat) == sum_range(h, (count - 2) as nat) + g(
            count - 1,
        ));
    } else {
        assert(sum_range(g, 1) == sum_range(g, 0) + g(0));
        assert(sum_range(h, 0) == 0);
    }
}

proof fn lemma_sum_reverse(f: spec_fn(int) -> int, count: nat)
    ensures
        sum_range(f, count) == sum_range(|j: int| f(count - 1 - j), count),
    decreases count,
{
    if count > 0 {
        let rev = |j: int| f(count - 1 - j);
        let shorter = (count - 1) as nat;
        lemma_sum_drop_first(rev, count);
        lemma_sum_ext(|j: int| rev(j + 1), |j: int| f(shorter - 1 - j), shorter);
        lemma_sum_reverse(f, shorter);
    }
}

proof fn lemma_sum_scale(f: spec_fn(int) -> int, c: int, count: nat)
    ensures
        sum_range(|j: int| c * f(j), count) == c * sum_range(f, count),
    decreases count,
{
    if count > 0 {
        lemma_sum_scale(f, c, (count - 1) as nat);
        let s = sum_range(f, (count - 1) as nat);
        let v = f(count - 1);
        assert(c * s + c * v == c * (s + v)) by (nonlinear_arith);
    }
}

proof fn lemma_sum_single_one(a: Seq<int>, k: int, count: nat)
    requires
        0 <= k,
    ensures
        sum_range(|j: int| at(a, j) * at(seq![1int], k - j), count) == (if k < count {
            at(a, k)
        } else {
            0
        }),
    decreases count,
{
    if count > 0 {
        lemma_sum_single_one(a, k, (count - 1) as nat);
    }
}

/// Length law: a convolution of non-empty operands of lengths `n` and `m` has
/// `n + m - 1` entries; with an empty operand it is empty.
pub proof fn lemma_convolution_length(a: Seq<int>, b: Seq<int>)
    ensures
        a.len() > 0 && b.len() > 0 ==> linear_convolution(a, b).len() == a.len() + b.len() - 1,
        a.len() == 0 || b.len() == 0 ==> linear_convolution(a, b).len() == 0,
{
}

/// Identity: convolving with the one-entry sequence `[1]` gives the sequence
/// back.
pub proof fn lemma_convolution_identity(a: Seq<int>)
    ensures
        linear_convolution(a, seq![1int]) == a,
{
    assert forall|k: int| 0 <= k < a.len() implies #[trigger] linear_convolution(
        a,
        seq![1int],
    )[k] == a[k] by {
        lemma_sum_single_one(a, k, (k + 1) as nat);
    }
    assert(linear_convolution(a, seq![1int]) =~= a);
}

/// Commutativity: `a` convolved with `b` equals `b` convolved with `a`.
pub proof fn lemma_convolution_commutes(a: Seq<int>, b: Seq<int>)
    ensures
        linear_convolution(a, b) == linear_convolution(b, a),
{
    assert forall|k: int| 0 <= k < linear_convolution(a, b).len() implies #[trigger] linear_convolution(
        a,
        b,
    )[k] == linear_convolution(b, a)[k] by {
        let f = |j: int| at(a, j) * at(b, k - j);
        let count = (k + 1) as nat;
        lemma_sum_reverse(f, count);
        assert forall|j: int| 0 <= j < count implies #[trigger] f(count - 1 - j) == at(b, j) * at(a, k - j) by {
            assert(at(a, k - j) * at(b, j) == at(b, j) * at(a, k - j)) by (nonlinear_arith);
        }
        lemma_sum_ext(
            |j: int| f(count - 1 - j),
            |j: int| at(b, j) * at(a, k - j),
            count,
        );
    }
    assert(linear_convolution(a, b) =~= linear_convolution(b, a));
}

/// Scaling: multiplying one operand by `c` multiplies the convolution by `c`.
pub proof fn lemma_convolution_scales(c: int, a: Seq<int>, b: Seq<int>)
    ensures
        linear_convolution(scaled(c, a), b) == scaled(c, linear_convolution(a, b)),
{
    assert forall|k: int| 0 <= k < linear_convolution(a, b).len() implies #[trigger] linear_convolution(
        scaled(c, a),
        b,
    )[k] == c * linear_convolution(a, b)[k] by {
        let f = |j: int| at(a, j) * at(b, k - j);
        let count = (k + 1) as nat;
        assert forall|j: int| 0 <= j < count implies at(scaled(c, a), j) * at(b, k - j) == c * #[trigger] f(j) by {
            let x = at(a, j);
            let y = at(b, k - j);
            assert((c * x) * y == c * (x * y)) by (nonlinear_arith);
            assert((0int) * y == c * (0int * y)) by (nonlinear_arith);
        }
        lemma_sum_ext(|j: int| at(scaled(c, a), j) * at(b, k - j), |j: int| c * f(j), count);
        lemma_sum_scale(f, c, count);
    }
    assert(linear_convolution(scaled(c, a), b) =~= scaled(c, linear_convolution(a, b)));
}

/// Two unit pulses convolve to the triangle `[1, 2, 1]`.
pub proof fn lemma_pulse_pair()
    ensures
        linear_convolution(seq![1int, 1], seq![1int, 1]) == seq![1int, 2, 1],
{
    let p = seq![1int, 1];
    assert(at(p, 0) == 1 && at(p, 1) == 1 && at(p, 2) == 0 && at(p, -1) == 0);
    let f0 = |j: int| at(p, j) * at(p, 0 - j);
    let f1 = |j: int| at(p, j) * at(p, 1 - j);
    let f2 = |j: int| at(p, j) * at(p, 2 - j);
    assert(sum_range(f0, 1) == sum_range(f0, 0) + f0(0));
    assert(sum_range(f1, 1) == sum_range(f1, 0) + f1(0));
    assert(sum_range(f1, 2) == sum_range(f1, 1) + f1(1));
    assert(sum_range(f2, 1) == sum_range(f2, 0) + f2(0));
    assert(sum_range(f2, 2) == sum_range(f2, 1) + f2(1));
    assert(sum_range(f2, 3) == sum_range(f2, 2) + f2(2));
    assert(conv_entry(p, p, 0) == 1);
    assert(conv_entry(p, p, 1) == 2);
    assert(conv_entry(p, p, 2) == 1);
    assert(linear_convolution(p, p) =~= seq![1int, 2, 1]);
}

/// Padding both operands with zeros to a common length of at least
/// `n + m - 1` makes their cyclic convolution agree with the linear
/// convolution on its first `n + m - 1` entries: every wrapped-around term
/// meets a padding zero.
pub proof fn lemma_padded_cyclic_is_linear(a: Seq<int>, b: Seq<int>, size: nat)
    requires
        a.len() <= size,
        b.len() <= size,
        conv_len(a.len(), b.len()) <= size,
    ensures
        forall|k: int|
            0 <= k < conv_len(a.len(), b.len()) ==> #[trigger] cyclic_convolution(
                zero_padded(a, size),
                zero_padded(b, size),
            )[k] == linear_convolution(a, b)[k],
{
    let x = zero_padded(a, size);
    let y = zero_padded(b, size);
    let n = size as int;
    assert(x.len() == size && y.len() == size);
    assert forall|j: int| 0 <= j < size implies #[trigger] x[j] == at(a, j) && #[trigger] y[j] == at(b, j) by {}
    assert forall|k: int| 0 <= k < conv_len(a.len(), b.len()) implies #[trigger] cyclic_convolution(
        x,
        y,
    )[k] == linear_convolution(a, b)[k] by {
        let g = |j: int| x[j] * y[(k - j) % n];
        let f = |j: int| at(a, j) * at(b, k - j);
        assert forall|j: int| 0 <= j < k + 1 implies #[trigger] g(j) == f(j) by {
            lemma_small_mod((k - j) as nat, size);
        }
        assert forall|j: int| k + 1 <= j < n implies #[trigger] g(j) == 0 by {
            lemma_mod_add_multiples_vanish(k - j, n);
            lemma_small_mod((n + k - j) as nat, size);
            assert((k - j) % n == n + k - j);
            if j < a.len() {
                assert(n + k - j >= b.len());
                assert(y[n + k - j] == at(b, n + k - j));
                assert(y[n + k - j] == 0);
            } else {
                assert(x[j] == 0);
            }
        }
        lemma_sum_zero_tail(g, (k + 1) as nat, size);
        lemma_sum_ext(g, f, (k + 1) as nat);
    }
}

/// The transform size that a plan picks is large enough: padding both
/// operands to it, the cyclic convolution read up to the plan's result length
/// is the linear convolution.
pub proof fn lemma_plan_avoids_wraparound(a: Seq<int>, b: Seq<int>, p: ConvPlan)
    requires
        a.len() > 0,
        b.len() > 0,
        p.wf(),
        p.conv_length == a.len() + b.len() - 1,
    ensures
        linear_convolution(a, b).len() == p.conv_length,
        forall|k: int|
            0 <= k < p.conv_length ==> #[trigger] cyclic_convolution(
                zero_padded(a, p.fft_size as nat),
                zero_padded(b, p.fft_size as nat),
            )[k] == linear_convolution(a, b)[k],
{
    lemma_padded_cyclic_is_linear(a, b, p.fft_size as nat);
}

} // verus!
