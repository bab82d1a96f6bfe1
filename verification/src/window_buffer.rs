//! Streaming sample buffers that hand out the windows a FIR filter or a
//! decimating FIR filter needs.
//!
//! The buffer keeps the samples that later calls still need; each call
//! appends the new input, returns a copy of every window of `ntaps`
//! samples that the filter evaluates in this call (in order), and drops
//! the samples that no later window can reach.  The multiply-accumulate
//! over each window is left to the caller.
use vstd::prelude::*;
use vstd::arithmetic::div_mod::lemma_fundamental_div_mod;
use vstd::arithmetic::div_mod::lemma_mod_pos_bound;
use vstd::arithmetic::div_mod::lemma_div_pos_is_pos;
use vstd::arithmetic::mul::lemma_mul_inequality;
use vstd::slice::slice_subrange;
use vstd::slice::slice_to_vec;

verus! {

/// The sample sequences that a vector of windows holds.
pub open spec fn window_views<T>(ws: Seq<Vec<T>>) -> Seq<Seq<T>> {
    ws.map_values(|w: Vec<T>| w@)
}

/// Number of multiples of `step` (0, step, 2*step, ...) that lie below `span`.
pub open spec fn strided_count(span: int, step: int) -> int {
    if span <= 0 {
        0
    } else {
        (span - 1) / step + 1
    }
}

/// The windows of `ntaps` samples of `s` that start at the multiples of
/// `step` below `span`.
pub open spec fn strided_windows<T>(s: Seq<T>, span: int, step: int, ntaps: int) -> Seq<Seq<T>> {
    Seq::new(strided_count(span, step) as nat, |k: int| s.subrange(k * step, k * step + ntaps))
}

/// The windows of `ntaps` samples of `s` that start at 0, 1, ..., count - 1.
pub open spec fn sliding_windows<T>(s: Seq<T>, count: int, ntaps: int) -> Seq<Seq<T>> {
    Seq::new(count as nat, |k: int| s.subrange(k, k + ntaps))
}

/// One call of the streaming FIR: the windows it evaluates and the
/// samples it keeps.  Every position of the extended buffer that is
/// followed by more than `ntaps - 1` samples starts a window (the last
/// full window is left for the next call), and exactly the last `ntaps`
/// samples are kept.
pub open spec fn fir_step<T>(buf: Seq<T>, input: Seq<T>, ntaps: int) -> (Seq<Seq<T>>, Seq<T>) {
    let ext = buf + input;
    let count = ext.len() - ntaps;
    (sliding_windows(ext, count, ntaps), ext.skip(count))
}

/// One call of the decimating FIR: windows at the multiples of `factor`
/// below `len - ntaps`; the samples before the position one step past the
/// last window are dropped (one step when no window was taken).  With a
/// factor larger than the filter the call does nothing and drops the input.
pub open spec fn decimate_step<T>(buf: Seq<T>, input: Seq<T>, ntaps: int, factor: int) -> (
    Seq<Seq<T>>,
    Seq<T>,
) {
    if factor > ntaps {
        (Seq::empty(), buf)
    } else {
        let ext = buf + input;
        let span = ext.len() - ntaps;
        let n = strided_count(span, factor);
        (
            strided_windows(ext, span, factor, ntaps),
            ext.skip(
                if n == 0 {
                    factor
                } else {
                    n * factor
                },
            ),
        )
    }
}

/// Like [`decimate_step`], but the buffer only accumulates until it holds
/// more samples than the filter has taps; nothing is dropped before that.
pub open spec fn decimate_when_full_step<T>(
    buf: Seq<T>,
    input: Seq<T>,
    ntaps: int,
    factor: int,
) -> (Seq<Seq<T>>, Seq<T>) {
    if factor > ntaps {
        (Seq::empty(), buf)
    } else {
        let ext = buf + input;
        if ext.len() > ntaps {
            let span = ext.len() - ntaps;
            (
                strided_windows(ext, span, factor, ntaps),
                ext.skip(strided_count(span, factor) * factor),
            )
        } else {
            (Seq::empty(), ext)
        }
    }
}

/// `strided_count` is the number of multiples of `step` below `span`: the
/// last counted multiple lies below `span`, the next one does not.
pub proof fn lemma_strided_count_bounds(span: int, step: int)
    requires
        span > 0,
        step > 0,
    ensures
        strided_count(span, step) >= 1,
        (strided_count(span, step) - 1) * step < span,
        span <= strided_count(span, step) * step,
{
    let q = (span - 1) / step;
    let r = (span - 1) % step;
    lemma_fundamental_div_mod(span - 1, step);
    lemma_mod_pos_bound(span - 1, step);
    lemma_div_pos_is_pos(span - 1, step);
    assert(q * step == step * q) by (nonlinear_arith);
    assert((q + 1) * step == q * step + step) by (nonlinear_arith);
}

/// A count `k` that satisfies the bounds of [`lemma_strided_count_bounds`]
/// is `strided_count`.
pub proof fn lemma_strided_count_unique(span: int, step: int, k: int)
    requires
        span > 0,
        step > 0,
        k >= 1,
        (k - 1) * step < span,
        span <= k * step,
    ensures
        strided_count(span, step) == k,
{
    lemma_strided_count_bounds(span, step);
    let n = strided_count(span, step);
    if n < k {
        lemma_mul_inequality(n, k - 1, step);
    }
    if n > k {
        lemma_mul_inequality(k, n - 1, step);
    }
}

/// Counting the multiples of `step` below `a * step + r` counts the `a`
/// first ones and then those below `r`, shifted.
pub proof fn lemma_strided_count_shift(a: int, r: int, step: int)
    requires
        a >= 0,
        r > 0,
        step > 0,
    ensures
        strided_count(a * step + r, step) == a + strided_count(r, step),
{
    lemma_strided_count_bounds(r, step);
    let m = strided_count(r, step);
    assert((a + m - 1) * step == a * step + (m - 1) * step) by (nonlinear_arith);
    assert((a + m) * step == a * step + m * step) by (nonlinear_arith);
    assert(a * step >= 0) by (nonlinear_arith)
        requires
            a >= 0,
            step > 0,
    ;
    lemma_strided_count_unique(a * step + r, step, a + m);
}

/// A buffer of samples for streaming FIR and decimating FIR filters.
pub struct WindowBuffer<T> {
    samples: Vec<T>,
}

impl<T> View for WindowBuffer<T> {
    type V = Seq<T>;

    closed spec fn view(&self) -> Seq<T> {
        self.samples@
    }
}

/// Copies of the windows of `ntaps` samples of `s` that start at the
/// multiples of `factor` below `s.len() - ntaps`.
fn collect_strided<T: Copy>(s: &Vec<T>, ntaps: usize, factor: usize) -> (out: Vec<Vec<T>>)
    requires
        0 < factor <= ntaps <= s@.len(),
    ensures
        window_views(out@) == strided_windows(s@, s@.len() - ntaps, factor as int, ntaps as int),
        out@.len() == strided_count(s@.len() - ntaps, factor as int),
        forall|k: int|
            0 <= k < out@.len() ==> #[trigger] out@[k]@ == s@.subrange(
                k * factor,
                k * factor + ntaps,
            ),
        out@.len() * factor >= s@.len() - ntaps,
        out@.len() == 0 || (out@.len() - 1) * factor < s@.len() - ntaps,
{
    let span = s.len() - ntaps;
    let mut out: Vec<Vec<T>> = Vec::new();
    let mut i: usize = 0;
    proof {
        assert(out@.len() * factor == 0) by (nonlinear_arith)
            requires
                out@.len() == 0,
        ;
    }
    while i < span
        invariant
            0 < factor <= ntaps <= s@.len() <= usize::MAX,
            span == s@.len() - ntaps,
            i == out@.len() * factor,
            out@.len() == 0 || (out@.len() - 1) * factor < span,
            i < span + factor,
            forall|j: int|
                0 <= j < out@.len() ==> #[trigger] out@[j]@ == s@.subrange(
                    j * factor,
                    j * factor + ntaps,
                ),
        decreases span + factor - i,
    {
        let w = slice_to_vec(slice_subrange(s.as_slice(), i, i + ntaps));
        let ghost k = out@.len();
        out.push(w);
        proof {
            assert((k + 1) * factor == k * factor + factor) by (nonlinear_arith);
        }
        i = i + factor;
    }
    proof {
        if span > 0 {
            lemma_strided_count_unique(span as int, factor as int, out@.len() as int);
        }
        assert(window_views(out@) =~= strided_windows(
            s@,
            s@.len() - ntaps,
            factor as int,
            ntaps as int,
        ));
    }
    out
}

impl<T: Copy> WindowBuffer<T> {
    /// An empty buffer.
    pub fn new() -> (r: Self)
        ensures
            r@ == Seq::<T>::empty(),
    {
        WindowBuffer { samples: Vec::new() }
    }

    /// Number of samples held.
    pub fn len(&self) -> (r: usize)
        ensures
            r == self@.len(),
    {
        self.samples.len()
    }

    /// The samples held, oldest first.
    pub fn as_slice(&self) -> (r: &[T])
        ensures
            r@ == self@,
    {
        self.samples.as_slice()
    }

    fn append(&mut self, input: &[T])
        requires
            old(self)@.len() + input@.len() <= usize::MAX,
        ensures
            final(self)@ == old(self)@ + input@,
    {
        let n = input.len();
        for i in 0..n
            invariant
                n == input@.len(),
                self@ == old(self)@ + input@.take(i as int),
                old(self)@.len() + input@.len() <= usize::MAX,
        {
            self.samples.push(input[i]);
            assert(input@.take(i + 1) =~= input@.take(i as int).push(input@[i as int]));
        }
        assert(input@.take(n as int) =~= input@);
    }

    fn drop_front(&mut self, n: usize)
        requires
            n <= old(self)@.len(),
        ensures
            final(self)@ == old(self)@.skip(n as int),
    {
        let rest = self.samples.split_off(n);
        self.samples = rest;
    }

    /// Evaluates the stride windows of the buffer as it stands and drops
    /// the samples before one step past the last window.
    fn take_strided(&mut self, ntaps: usize, factor: usize) -> (out: Vec<Vec<T>>)
        requires
            0 < factor <= ntaps <= old(self)@.len(),
        ensures
            window_views(out@) == strided_windows(
                old(self)@,
                old(self)@.len() - ntaps,
                factor as int,
                ntaps as int,
            ),
            ({
                let n = strided_count(old(self)@.len() - ntaps, factor as int);
                final(self)@ == old(self)@.skip(
                    if n == 0 {
                        factor as int
                    } else {
                        n * factor
                    },
                )
            }),
            forall|k: int|
                0 <= k < out@.len() ==> #[trigger] out@[k]@ == old(self)@.subrange(
                    k * factor,
                    k * factor + ntaps,
                ),
            out@.len() * factor >= old(self)@.len() - ntaps,
            out@.len() == 0 || (out@.len() - 1) * factor < old(self)@.len() - ntaps,
            final(self)@ == old(self)@.skip(
                if out@.len() == 0 {
                    factor as int
                } else {
                    out@.len() * factor
                },
            ),
    {
        let len = self.samples.len();
        let out = collect_strided(&self.samples, ntaps, factor);
        let n = out.len();
        let ghost span = self@.len() - ntaps;
        let drain: usize;
        if n == 0 {
            drain = factor;
        } else {
            proof {
                lemma_strided_count_bounds(span, factor as int);
                assert(n * factor == (n - 1) * factor + factor) by (nonlinear_arith);
                assert(n * factor <= len);
            }
            drain = n * factor;
        }
        self.drop_front(drain);
        out
    }

    /// Streaming FIR: appends `input` and returns, in order, the window of
    /// `ntaps` samples at each position of the extended buffer that is
    /// followed by more than `ntaps - 1` samples; afterwards the buffer
    /// holds exactly the last `ntaps` samples.
    pub fn fir(&mut self, input: &[T], ntaps: usize) -> (out: Vec<Vec<T>>)
        requires
            old(self)@.len() + input@.len() >= ntaps,
            old(self)@.len() + input@.len() <= usize::MAX,
        ensures
            window_views(out@) == fir_step(old(self)@, input@, ntaps as int).0,
            final(self)@ == fir_step(old(self)@, input@, ntaps as int).1,
            final(self)@.len() == ntaps,
            out@.len() == old(self)@.len() + input@.len() - ntaps,
            forall|i: int|
                0 <= i < out@.len() ==> #[trigger] out@[i]@ == (old(self)@ + input@).subrange(
                    i,
                    i + ntaps,
                ) && out@[i]@.len() == ntaps,
            final(self)@ == (old(self)@ + input@).subrange(
                old(self)@.len() + input@.len() - ntaps,
                old(self)@.len() + input@.len() as int,
            ),
    {
        self.append(input);
        let count = self.samples.len() - ntaps;
        let mut out: Vec<Vec<T>> = Vec::new();
        for i in 0..count
            invariant
                count == self@.len() - ntaps,
                self@.len() <= usize::MAX,
                out@.len() == i,
                forall|j: int|
                    0 <= j < i ==> #[trigger] out@[j]@ == self@.subrange(j, j + ntaps),
        {
            let w = slice_to_vec(slice_subrange(self.samples.as_slice(), i, i + ntaps));
            out.push(w);
        }
        proof {
            assert(window_views(out@) =~= sliding_windows(self@, count as int, ntaps as int));
        }
        self.drop_front(count);
        out
    }

    /// Decimating FIR: see [`decimate_step`].
    pub fn decimate(&mut self, input: &[T], ntaps: usize, factor: usize) -> (out: Vec<Vec<T>>)
        requires
            factor > ntaps || (factor > 0 && old(self)@.len() + input@.len() >= ntaps),
            old(self)@.len() + input@.len() <= usize::MAX,
        ensures
            window_views(out@) == decimate_step(
                old(self)@,
                input@,
                ntaps as int,
                factor as int,
            ).0,
            final(self)@ == decimate_step(old(self)@, input@, ntaps as int, factor as int).1,
            factor > ntaps ==> out@.len() == 0 && final(self)@ == old(self)@,
            factor <= ntaps ==> ({
                let ext = old(self)@ + input@;
                &&& forall|k: int|
                    0 <= k < out@.len() ==> #[trigger] out@[k]@ == ext.subrange(
                        k * factor,
                        k * factor + ntaps,
                    )
                &&& out@.len() * factor >= ext.len() - ntaps
                &&& (out@.len() == 0 || (out@.len() - 1) * factor < ext.len() - ntaps)
                &&& final(self)@ == ext.skip(
                    if out@.len() == 0 {
                        factor as int
                    } else {
                        out@.len() * factor
                    },
                )
            }),
    {
        if factor > ntaps {
            return Vec::new();
        }
        self.append(input);
        self.take_strided(ntaps, factor)
    }

    /// Decimating FIR that waits for a full buffer: see
    /// [`decimate_when_full_step`].
    pub fn decimate_when_full(&mut self, input: &[T], ntaps: usize, factor: usize) -> (out: Vec<
        Vec<T>,
    >)
        requires
            factor > 0 || old(self)@.len() + input@.len() <= ntaps,
            old(self)@.len() + input@.len() <= usize::MAX,
        ensures
            window_views(out@) == decimate_when_full_step(
                old(self)@,
                input@,
                ntaps as int,
                factor as int,
            ).0,
            final(self)@ == decimate_when_full_step(
                old(self)@,
                input@,
                ntaps as int,
                factor as int,
            ).1,
            factor > ntaps ==> out@.len() == 0 && final(self)@ == old(self)@,
            factor <= ntaps && old(self)@.len() + input@.len() <= ntaps ==> out@.len() == 0
                && final(self)@ == old(self)@ + input@,
            factor <= ntaps && old(self)@.len() + input@.len() > ntaps ==> ({
                let ext = old(self)@ + input@;
                &&& forall|k: int|
                    0 <= k < out@.len() ==> #[trigger] out@[k]@ == ext.subrange(
                        k * factor,
                        k * factor + ntaps,
                    )
                &&& out@.len() >= 1
                &&& out@.len() * factor >= ext.len() - ntaps
                &&& (out@.len() - 1) * factor < ext.len() - ntaps
                &&& final(self)@ == ext.skip(out@.len() * factor)
            }),
    {
        if factor > ntaps {
            return Vec::new();
        }
        self.append(input);
        if self.samples.len() > ntaps {
            self.take_strided(ntaps, factor)
        } else {
            let out: Vec<Vec<T>> = Vec::new();
            assert(window_views(out@) =~= Seq::<Seq<T>>::empty());
            out
        }
    }
}

} // verus!
