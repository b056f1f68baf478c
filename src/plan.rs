use vstd::prelude::*;

verus! {

/// `x` is a power of two: 1, 2, 4, 8, ...
pub open spec fn is_power_of_two(x: nat) -> bool
    decreases x,
{
    if x == 1 {
        true
    } else if x < 2 || x % 2 == 1 {
        false
    } else {
        is_power_of_two(x / 2)
    }
}

/// `s` is the smallest power of two that is at least `c`.
pub open spec fn is_transform_size(s: nat, c: nat) -> bool {
    &&& is_power_of_two(s)
    &&& s >= c
    &&& forall|p: nat| is_power_of_two(p) && p >= c ==> s <= p
}

/// Of two distinct powers of two, the larger is at least twice the smaller.
pub proof fn lemma_power_of_two_gap(a: nat, b: nat)
    requires
        is_power_of_two(a),
        is_power_of_two(b),
        a < b,
    ensures
        2 * a <= b,
    decreases a,
{
    if a != 1 {
        lemma_power_of_two_gap(a / 2, b / 2);
    }
}

/// The sizes that a convolution of two given lengths works with.
#[derive(Clone, Copy, Debug, PartialEq, Eq, Structural)]
pub struct ConvPlan {
    /// Length of the result: `n + m - 1` for operands of lengths `n` and `m`.
    pub conv_length: usize,
    /// Length of the transform buffers: the smallest power of two that is at
    /// least `conv_length`.
    pub fft_size: usize,
}

/// Failures of a convolution.
#[derive(Clone, Copy, Debug, PartialEq, Eq, Structural)]
pub enum ConvolveError {
    /// The transform buffers would be larger than any length a `usize` holds.
    AllocationFailure,
}

impl ConvPlan {
    /// The transform size is the smallest power of two that holds the result.
    pub open spec fn wf(self) -> bool {
        is_transform_size(self.fft_size as nat, self.conv_length as nat)
    }
}

/// Sizes for convolving a signal of length `n` with a kernel of length `m`.
///
/// `Ok(None)` when an operand is empty: the convolution is then empty and no
/// transform is needed. Fails exactly when no power of two at least
/// `n + m - 1` fits in a `usize`.
pub fn plan_convolution(n: usize, m: usize) -> (r: Result<Option<ConvPlan>, ConvolveError>)
    ensures
        match r {
            Ok(None) => n == 0 || m == 0,
            Ok(Some(p)) => {
                &&& n > 0 && m > 0
                &&& p.conv_length == n + m - 1
                &&& p.wf()
            },
            Err(e) => {
                &&& n > 0 && m > 0
                &&& e == ConvolveError::AllocationFailure
                &&& forall|s: nat| is_power_of_two(s) && s >= n + m - 1 ==> s > usize::MAX
            },
        },
{
    if n == 0 || m == 0 {
        return Ok(None);
    }
    if n - 1 > usize::MAX - m {
        return Err(ConvolveError::AllocationFailure);
    }
    let conv_length: usize = n - 1 + m;
    let mut fft_size: usize = 1;
    while fft_size < conv_length
        invariant
            n > 0 && m > 0,
            conv_length == n + m - 1,
            is_power_of_two(fft_size as nat),
            fft_size == 1 || fft_size / 2 < conv_length,
        decreases usize::MAX - fft_size,
    {
        if fft_size > usize::MAX / 2 {
            assert forall|s: nat| is_power_of_two(s) && s >= conv_length implies s > usize::MAX by {
                lemma_power_of_two_gap(fft_size as nat, s);
            }
            return Err(ConvolveError::AllocationFailure);
        }
        fft_size = fft_size * 2;
    }
    assert forall|s: nat| is_power_of_two(s) && s >= conv_length implies fft_size <= s by {
        if s < fft_size {
            lemma_power_of_two_gap(s, fft_size as nat);
            if s == 0 {
                assert(!is_power_of_two(0));
            }
        }
    }
    Ok(Some(ConvPlan { conv_length, fft_size }))
}

/// A convolution whose length is already a power of two is not padded further.
pub proof fn lemma_exact_power_not_padded(p: ConvPlan)
    requires
        p.wf(),
        is_power_of_two(p.conv_length as nat),
    ensures
        p.fft_size == p.conv_length,
{
}

} // verus!
