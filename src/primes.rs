use vstd::arithmetic::div_mod::{lemma_fundamental_div_mod, lemma_mod_multiples_basic};
use vstd::prelude::*;

verus! {

/// `x` is prime: at least 2, with no divisor strictly between 1 and itself.
pub open spec fn is_prime(x: nat) -> bool {
    x >= 2 && forall|d: nat| 2 <= d < x ==> #[trigger] (x % d) != 0
}

/// The primes below `n`, in increasing order.
pub open spec fn primes_below(n: nat) -> Seq<int>
    decreases n,
{
    if n == 0 {
        Seq::empty()
    } else if is_prime((n - 1) as nat) {
        primes_below((n - 1) as nat).push(n - 1)
    } else {
        primes_below((n - 1) as nat)
    }
}

/// The primes up to and including `limit`, in increasing order.
pub open spec fn primes_up_to(limit: nat) -> Seq<int> {
    primes_below(limit + 1)
}

/// Sum of a sequence of integers.
pub open spec fn sum_of(s: Seq<int>) -> int
    decreases s.len(),
{
    if s.len() == 0 {
        0
    } else {
        sum_of(s.drop_last()) + s.last()
    }
}

/// A sequence of machine integers read as mathematical integers.
pub open spec fn as_ints(s: Seq<usize>) -> Seq<int> {
    s.map_values(|v: usize| v as int)
}

/// `x` is at least 2 and no `d` with `2 <= d < bound` and `d * d <= x` divides
/// it: what the sieve has left standing once it has crossed out the
/// multiples of every number below `bound`.
pub open spec fn uncrossed(x: nat, bound: nat) -> bool {
    x >= 2 && forall|d: nat| 2 <= d < bound && d * d <= x ==> #[trigger] (x % d) != 0
}

proof fn lemma_divides_trans(d: nat, i: nat, x: nat)
    requires
        d > 0,
        i > 0,
        i % d == 0,
        x % i == 0,
    ensures
        x % d == 0,
{
    lemma_fundamental_div_mod(i as int, d as int);
    lemma_fundamental_div_mod(x as int, i as int);
    let a = i / d;
    let b = x / i;
    assert(x == d * (a * b)) by (nonlinear_arith)
        requires
            i == d * a,
            x == i * b,
    ;
    lemma_mod_multiples_basic((a * b) as int, d as int);
    assert(d * (a * b) == (a * b) * d) by (nonlinear_arith);
}

/// Once every candidate divisor below `bound` has been tried, a number below
/// `bound * bound` is left standing exactly when it is prime.
proof fn lemma_uncrossed_is_prime(x: nat, bound: nat)
    requires
        x < bound * bound,
    ensures
        uncrossed(x, bound) <==> is_prime(x),
{
    if is_prime(x) {
        assert forall|d: nat| 2 <= d < bound && d * d <= x implies #[trigger] (x % d) != 0 by {
            assert(d < x) by (nonlinear_arith)
                requires
                    2 <= d,
                    d * d <= x,
            ;
        }
    }
    if uncrossed(x, bound) {
        assert forall|d: nat| 2 <= d < x implies #[trigger] (x % d) != 0 by {
            if x % d == 0 {
                lemma_fundamental_div_mod(x as int, d as int);
                let q: nat = x / d;
                assert(x == d * q);
                if q < 2 {
                    assert(q == 1) by (nonlinear_arith)
                        requires
                            x == d * q,
                            q < 2,
                            x >= 2,
                    ;
                    assert(x == d) by (nonlinear_arith)
                        requires
                            x == d * q,
                            q == 1,
                    ;
                } else {
                    lemma_mod_multiples_basic(d as int, q as int);
                    assert(x % q == 0);
                    let e: nat = if d <= q {
                        d
                    } else {
                        q
                    };
                    assert(e * e <= x) by (nonlinear_arith)
                        requires
                            x == d * q,
                            e == d || e == q,
                            e <= d,
                            e <= q,
                            e >= 2,
                    ;
                    assert(e < bound) by (nonlinear_arith)
                        requires
                            e * e <= x,
                            x < bound * bound,
                            e >= 2,
                    ;
                    assert(x % e == 0);
                    assert(2 <= e < bound && e * e <= x);
                    assert(x % e != 0);
                }
            }
        }
    }
}

proof fn lemma_next_multiple(x: int, j: int, i: int)
    requires
        i > 0,
        j >= 0,
        x % i == 0,
        j % i == 0,
        j < x,
    ensures
        x >= j + i,
{
    lemma_fundamental_div_mod(x, i);
    lemma_fundamental_div_mod(j, i);
    let qx = x / i;
    let qj = j / i;
    assert(qx > qj) by (nonlinear_arith)
        requires
            x == i * qx,
            j == i * qj,
            j < x,
            i > 0,
    ;
    assert(x >= j + i) by (nonlinear_arith)
        requires
            x == i * qx,
            j == i * qj,
            qx >= qj + 1,
            i > 0,
    ;
}

proof fn lemma_square_at_most(i: nat, limit: nat)
    requires
        i > 0,
    ensures
        i <= limit / i <==> i * i <= limit,
{
    lemma_fundamental_div_mod(limit as int, i as int);
    let q = limit / i;
    let r = limit % i;
    if i <= q {
        assert(i * i <= limit) by (nonlinear_arith)
            requires
                i <= q,
                limit == i * q + r,
                r >= 0,
        ;
    } else {
        assert(i * i > limit) by (nonlinear_arith)
            requires
                i >= q + 1,
                limit == i * q + r,
                r < i,
        ;
    }
}

/// The primes up to and including `limit`, in increasing order, found with the
/// sieve of Eratosthenes.
pub fn generate_primes(limit: usize) -> (r: Vec<usize>)
    requires
        limit < usize::MAX,
    ensures
        as_ints(r@) == primes_up_to(limit as nat),
{
    let mut marks: Vec<bool> = vec![true; limit + 1];
    if limit >= 1 {
        marks.set(0, false);
        marks.set(1, false);
    } else {
        marks.set(0, false);
    }
    assert forall|x: int| 0 <= x <= limit implies marks[x] == uncrossed(x as nat, 2) by {}
    let mut i: usize = 2;
    while i <= limit / i
        invariant
            2 <= i,
            i <= limit + 1 || i == 2,
            marks.len() == limit + 1,
            limit < usize::MAX,
            forall|x: int| 0 <= x <= limit ==> #[trigger] marks[x] == uncrossed(x as nat, i as nat),
        decreases limit + 1 - i,
    {
        proof {
            lemma_square_at_most(i as nat, limit as nat);
        }
        assert(i <= limit) by (nonlinear_arith)
            requires
                i * i <= limit,
                i >= 2,
        ;
        let ghost before = marks@;
        if marks[i] {
            let ii: usize = i * i;
            let mut j: usize = ii;
            proof {
                lemma_mod_multiples_basic(i as int, i as int);
            }
            let mut done = false;
            while !done
                invariant
                    2 <= i <= limit,
                    ii == i * i,
                    ii <= j <= limit,
                    before.len() == limit + 1,
                    j % i == 0,
                    marks.len() == limit + 1,
                    forall|x: int|
                        0 <= x <= limit ==> #[trigger] marks[x] == (before[x] && !(ii <= x && x
                            % (i as int) == 0 && x < (if done {
                            limit + 1
                        } else {
                            j as int
                        }))),
                decreases (if done {
                    0
                } else {
                    limit + 1 - j
                }),
            {
                marks.set(j, false);
                if limit - j < i {
                    done = true;
                    assert forall|x: int| 0 <= x <= limit implies #[trigger] marks[x] == (
                    before[x] && !(ii <= x && x % (i as int) == 0 && x < limit + 1)) by {
                        if x > j && x % (i as int) == 0 {
                            lemma_next_multiple(x, j as int, i as int);
                        }
                    }
                } else {
                    j = j + i;
                    assert((j as int) % (i as int) == 0) by {
                        lemma_fundamental_div_mod((j - i) as int, i as int);
                        lemma_mod_multiples_basic(((j - i) / i as int) + 1, i as int);
                        assert(j == ((j - i) / i as int + 1) * i) by (nonlinear_arith)
                            requires
                                j - i == i * ((j - i) / i as int),
                        ;
                    }
                    assert forall|x: int| 0 <= x <= limit implies #[trigger] marks[x] == (
                    before[x] && !(ii <= x && x % (i as int) == 0 && x < j)) by {
                        if j - i < x < j && x % (i as int) == 0 {
                            lemma_next_multiple(x, (j - i) as int, i as int);
                        }
                    }
                }
            }
            assert forall|x: int| 0 <= x <= limit implies #[trigger] marks[x] == uncrossed(
                x as nat,
                (i + 1) as nat,
            ) by {
                if uncrossed(x as nat, i as nat) && ii <= x && x % (i as int) == 0 {
                    assert(!uncrossed(x as nat, (i + 1) as nat));
                }
                if !uncrossed(x as nat, (i + 1) as nat) && uncrossed(x as nat, i as nat) {
                    let d = choose|d: nat|
                        2 <= d < i + 1 && d * d <= x && #[trigger] ((x as nat) % d) == 0;
                    assert(d == i);
                }
            }
        } else {
            assert forall|x: int| 0 <= x <= limit implies #[trigger] marks[x] == uncrossed(
                x as nat,
                (i + 1) as nat,
            ) by {
                if uncrossed(x as nat, i as nat) && !uncrossed(x as nat, (i + 1) as nat) {
                    assert(x % (i as int) == 0 && i * i <= x);
                    assert(!uncrossed(i as nat, i as nat));
                    let d = choose|d: nat|
                        2 <= d < i && d * d <= i && #[trigger] ((i as nat) % d) == 0;
                    lemma_divides_trans(d, i as nat, x as nat);
                    assert(i <= i * i) by (nonlinear_arith)
                        requires
                            i >= 2,
                    ;
                    assert(d * d <= x);
                    assert((x as nat) % d == 0);
                }
            }
        }
        i = i + 1;
    }
    proof {
        lemma_square_at_most(i as nat, limit as nat);
    }
    let mut r: Vec<usize> = Vec::new();
    let mut x: usize = 0;
    while x <= limit
        invariant
            x <= limit + 1,
            limit < usize::MAX,
            marks.len() == limit + 1,
            limit < i * i,
            forall|y: int| 0 <= y <= limit ==> #[trigger] marks[y] == uncrossed(y as nat, i as nat),
            as_ints(r@) == primes_below(x as nat),
        decreases limit + 1 - x,
    {
        proof {
            lemma_uncrossed_is_prime(x as nat, i as nat);
        }
        if marks[x] {
            assert(as_ints(r@.push(x)) =~= as_ints(r@).push(x as int));
            r.push(x);
        }
        x = x + 1;
    }
    r
}

/// The primes up to and including `limit`, in increasing order.
pub fn get_primes(limit: usize) -> (r: Vec<usize>)
    requires
        limit < usize::MAX,
    ensures
        as_ints(r@) == primes_up_to(limit as nat),
{
    generate_primes(limit)
}

/// The largest prime up to and including `limit`, or 0 when there is none.
pub fn get_last_prime(limit: usize) -> (r: usize)
    requires
        limit < usize::MAX,
    ensures
        r == (if primes_up_to(limit as nat).len() == 0 {
            0
        } else {
            primes_up_to(limit as nat).last()
        }),
{
    let primes = generate_primes(limit);
    if primes.len() == 0 {
        0
    } else {
        let last = primes[primes.len() - 1];
        assert(as_ints(primes@)[primes.len() - 1] == last as int);
        last
    }
}

proof fn lemma_sum_prefix_monotone(s: Seq<int>, k: nat)
    requires
        k <= s.len(),
        forall|i: int| 0 <= i < s.len() ==> s[i] >= 0,
    ensures
        sum_of(s.take(k as int)) <= sum_of(s),
    decreases s.len(),
{
    if k < s.len() {
        assert(s.drop_last().take(k as int) =~= s.take(k as int));
        lemma_sum_prefix_monotone(s.drop_last(), k);
    } else {
        assert(s.take(k as int) =~= s);
    }
}

/// The sum of `arr`, or `None` when it exceeds `usize::MAX`.
pub fn sum_array(arr: Vec<usize>) -> (r: Option<usize>)
    ensures
        match r {
            Some(v) => v == sum_of(as_ints(arr@)),
            None => sum_of(as_ints(arr@)) > usize::MAX,
        },
{
    let ghost s = as_ints(arr@);
    let mut acc: usize = 0;
    let mut k: usize = 0;
    assert(s.take(0) =~= Seq::<int>::empty());
    while k < arr.len()
        invariant
            s == as_ints(arr@),
            k <= arr.len(),
            acc == sum_of(s.take(k as int)),
        decreases arr.len() - k,
    {
        assert(s.take(k + 1).drop_last() =~= s.take(k as int));
        if acc > usize::MAX - arr[k] {
            proof {
                lemma_sum_prefix_monotone(s, (k + 1) as nat);
            }
            return None;
        }
        acc = acc + arr[k];
        k = k + 1;
    }
    assert(s.take(k as int) =~= s);
    Some(acc)
}

/// The sum of the primes up to and including `limit`, or `None` when it
/// exceeds `usize::MAX`.
pub fn sum_primes(limit: usize) -> (r: Option<usize>)
    requires
        limit < usize::MAX,
    ensures
        match r {
            Some(v) => v == sum_of(primes_up_to(limit as nat)),
            None => sum_of(primes_up_to(limit as nat)) > usize::MAX,
        },
{
    sum_array(generate_primes(limit))
}

} // verus!
