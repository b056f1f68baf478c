use vstd::prelude::*;

verus! {

/// Builds a transform buffer of length `size`: entry `i` is `embed(values[i])`
/// for each input value, and every later entry is `zero`.
pub fn padded_buffer<S: Copy, T: Copy, F: Fn(S) -> T>(
    values: &Vec<S>,
    size: usize,
    embed: F,
    zero: T,
) -> (r: Vec<T>)
    requires
        values.len() <= size,
        forall|i: int| 0 <= i < values.len() ==> call_requires(embed, (values[i],)),
    ensures
        r.len() == size,
        forall|i: int| 0 <= i < values.len() ==> call_ensures(embed, (values[i],), #[trigger] r[i]),
        forall|i: int| values.len() <= i < size ==> #[trigger] r[i] == zero,
{
    let mut r: Vec<T> = Vec::with_capacity(size);
    let n = values.len();
    let mut k: usize = 0;
    while k < n
        invariant
            n == values.len() <= size,
            k <= n,
            r.len() == k,
            forall|i: int| 0 <= i < n ==> call_requires(embed, (values[i],)),
            forall|i: int| 0 <= i < k ==> call_ensures(embed, (values[i],), #[trigger] r[i]),
        decreases n - k,
    {
        let v = embed(values[k]);
        r.push(v);
        k = k + 1;
    }
    while k < size
        invariant
            n == values.len() <= k <= size,
            r.len() == k,
            forall|i: int| 0 <= i < n ==> call_ensures(embed, (values[i],), #[trigger] r[i]),
            forall|i: int| n <= i < k ==> #[trigger] r[i] == zero,
        decreases size - k,
    {
        r.push(zero);
        k = k + 1;
    }
    r
}

/// Combines two spectra of equal length entry by entry: entry `i` of the
/// result is `combine(a[i], b[i])`.
pub fn pointwise<T: Copy, F: Fn(T, T) -> T>(a: &Vec<T>, b: &Vec<T>, combine: F) -> (r: Vec<T>)
    requires
        a.len() == b.len(),
        forall|i: int| 0 <= i < a.len() ==> call_requires(combine, (a[i], b[i])),
    ensures
        r.len() == a.len(),
        forall|i: int| 0 <= i < a.len() ==> call_ensures(combine, (a[i], b[i]), #[trigger] r[i]),
{
    let mut r: Vec<T> = Vec::with_capacity(a.len());
    let mut k: usize = 0;
    while k < a.len()
        invariant
            a.len() == b.len(),
            k <= a.len(),
            r.len() == k,
            forall|i: int| 0 <= i < a.len() ==> call_requires(combine, (a[i], b[i])),
            forall|i: int| 0 <= i < k ==> call_ensures(combine, (a[i], b[i]), #[trigger] r[i]),
        decreases a.len() - k,
    {
        let v = combine(a[k], b[k]);
        r.push(v);
        k = k + 1;
    }
    r
}

/// Reads the first `len` entries of a buffer back out: entry `i` of the
/// result is `extract(buffer[i])`; the padded tail is dropped.
pub fn truncated<T: Copy, U, F: Fn(T) -> U>(buffer: &Vec<T>, len: usize, extract: F) -> (r: Vec<U>)
    requires
        len <= buffer.len(),
        forall|i: int| 0 <= i < len ==> call_requires(extract, (buffer[i],)),
    ensures
        r.len() == len,
        forall|i: int| 0 <= i < len ==> call_ensures(extract, (buffer[i],), #[trigger] r[i]),
{
    let mut r: Vec<U> = Vec::with_capacity(len);
    let mut k: usize = 0;
    while k < len
        invariant
            len <= buffer.len(),
            k <= len,
            r.len() == k,
            forall|i: int| 0 <= i < len ==> call_requires(extract, (buffer[i],)),
            forall|i: int| 0 <= i < k ==> call_ensures(extract, (buffer[i],), #[trigger] r[i]),
        decreases len - k,
    {
        let v = extract(buffer[k]);
        r.push(v);
        k = k + 1;
    }
    r
}

} // verus!
