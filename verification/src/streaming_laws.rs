//! Laws of the streaming filters: how their output depends on the way the
//! input stream is cut into chunks.
use vstd::prelude::*;
use crate::window_buffer::strided_count;
use crate::window_buffer::strided_windows;
use crate::window_buffer::fir_step;
use crate::window_buffer::decimate_step;
use crate::window_buffer::decimate_when_full_step;
use crate::window_buffer::lemma_strided_count_bounds;
use crate::window_buffer::lemma_strided_count_unique;
use crate::window_buffer::lemma_strided_count_shift;
use vstd::arithmetic::div_mod::lemma_fundamental_div_mod_converse;

verus! {

/// Windows taken from a prefix of `e` that ends past their last sample are
/// the windows of `e` itself.
proof fn lemma_prefix_windows<T>(e: Seq<T>, l1: int, ntaps: int, f: int, n: int)
    requires
        0 < f,
        0 <= ntaps,
        l1 <= e.len(),
        0 <= n <= strided_count(l1 - ntaps, f),
    ensures
        forall|k: int|
            0 <= k < n ==> #[trigger] e.take(l1).subrange(k * f, k * f + ntaps) == e.subrange(
                k * f,
                k * f + ntaps,
            ),
{
    assert forall|k: int| 0 <= k < n implies #[trigger] e.take(l1).subrange(
        k * f,
        k * f + ntaps,
    ) == e.subrange(k * f, k * f + ntaps) by {
        lemma_strided_count_bounds(l1 - ntaps, f);
        let c = strided_count(l1 - ntaps, f);
        vstd::arithmetic::mul::lemma_mul_inequality(k, c - 1, f);
        assert(0 <= k * f) by (nonlinear_arith)
            requires
                0 <= k,
                0 < f,
        ;
        assert(e.take(l1).subrange(k * f, k * f + ntaps) =~= e.subrange(k * f, k * f + ntaps));
    }
}

/// Decimating a stream in two chunks, where the second chunk is decimated
/// from the sample one step past the first chunk's last window and still
/// holds more than `ntaps` samples, gives the windows and the drop point
/// of decimating the whole stream.
proof fn lemma_strided_concat<T>(e: Seq<T>, l1: int, ntaps: int, f: int)
    requires
        0 < f <= ntaps,
        ntaps < l1 <= e.len(),
        e.len() - strided_count(l1 - ntaps, f) * f > ntaps,
    ensures
        ({
            let p = strided_count(l1 - ntaps, f) * f;
            &&& strided_count(e.len() - ntaps, f) == strided_count(l1 - ntaps, f) + strided_count(
                e.len() - p - ntaps,
                f,
            )
            &&& strided_windows(e.take(l1), l1 - ntaps, f, ntaps) + strided_windows(
                e.skip(p),
                e.len() - p - ntaps,
                f,
                ntaps,
            ) == strided_windows(e, e.len() - ntaps, f, ntaps)
        }),
{
    let n1 = strided_count(l1 - ntaps, f);
    let p = n1 * f;
    let span2 = e.len() - p - ntaps;
    let n2 = strided_count(span2, f);
    lemma_strided_count_bounds(l1 - ntaps, f);
    assert(e.len() - ntaps == n1 * f + span2);
    lemma_strided_count_shift(n1, span2, f);
    let w1 = strided_windows(e.take(l1), l1 - ntaps, f, ntaps);
    let w2 = strided_windows(e.skip(p), span2, f, ntaps);
    let w = strided_windows(e, e.len() - ntaps, f, ntaps);
    lemma_prefix_windows(e, l1, ntaps, f, n1);
    assert forall|j: int| 0 <= j < w.len() implies #[trigger] (w1 + w2)[j] == w[j] by {
        if j < n1 {
            assert(w1[j] == e.take(l1).subrange(j * f, j * f + ntaps));
        } else {
            let k = j - n1;
            assert(j * f == p + k * f) by (nonlinear_arith)
                requires
                    k == j - n1,
                    p == n1 * f,
            ;
            assert(0 <= k * f) by (nonlinear_arith)
                requires
                    0 <= k,
                    0 < f,
            ;
            lemma_strided_count_bounds(span2, f);
            vstd::arithmetic::mul::lemma_mul_inequality(k, n2 - 1, f);
            assert(w2[k] =~= w[j]);
        }
    }
    assert(w1 + w2 =~= w);
}

/// When the second chunk leaves no more than `ntaps` samples after the
/// first chunk's drop point, decimating the whole stream takes the same
/// windows and drops the same samples as the first chunk.
proof fn lemma_strided_prefix<T>(e: Seq<T>, l1: int, ntaps: int, f: int)
    requires
        0 < f <= ntaps,
        ntaps < l1 <= e.len(),
        e.len() - strided_count(l1 - ntaps, f) * f <= ntaps,
    ensures
        strided_count(e.len() - ntaps, f) == strided_count(l1 - ntaps, f),
        strided_windows(e.take(l1), l1 - ntaps, f, ntaps) == strided_windows(
            e,
            e.len() - ntaps,
            f,
            ntaps,
        ),
{
    let n1 = strided_count(l1 - ntaps, f);
    lemma_strided_count_bounds(l1 - ntaps, f);
    lemma_strided_count_unique(e.len() - ntaps, f, n1);
    lemma_prefix_windows(e, l1, ntaps, f, n1);
    assert(strided_windows(e.take(l1), l1 - ntaps, f, ntaps) =~= strided_windows(
        e,
        e.len() - ntaps,
        f,
        ntaps,
    ));
}

/// Streaming FIR does not depend on how its input is cut into chunks:
/// filtering `s1` and then `s2` returns, one after the other, the windows
/// that filtering `s1 + s2` in one call returns, and leaves the same
/// samples in the buffer.
pub proof fn law_fir_chunking<T>(buf: Seq<T>, s1: Seq<T>, s2: Seq<T>, ntaps: int)
    requires
        ntaps >= 0,
        buf.len() + s1.len() >= ntaps,
    ensures
        fir_step(buf, s1, ntaps).0 + fir_step(fir_step(buf, s1, ntaps).1, s2, ntaps).0 == fir_step(
            buf,
            s1 + s2,
            ntaps,
        ).0,
        fir_step(fir_step(buf, s1, ntaps).1, s2, ntaps).1 == fir_step(buf, s1 + s2, ntaps).1,
{
    let e = buf + (s1 + s2);
    let ext1 = buf + s1;
    let c1 = ext1.len() - ntaps;
    let (o1, b1) = fir_step(buf, s1, ntaps);
    let (o2, b2) = fir_step(b1, s2, ntaps);
    let (o, b) = fir_step(buf, s1 + s2, ntaps);
    let ext2 = b1 + s2;
    assert(ext2 =~= e.skip(c1));
    assert(forall|j: int| 0 <= j < o1.len() ==> #[trigger] o1[j] == ext1.subrange(j, j + ntaps));
    assert forall|j: int| 0 <= j < o.len() implies #[trigger] (o1 + o2)[j] == o[j] by {
        if j < c1 {
            assert(ext1.subrange(j, j + ntaps) =~= e.subrange(j, j + ntaps));
        } else {
            assert(ext2.subrange(j - c1, j - c1 + ntaps) =~= e.subrange(j, j + ntaps));
        }
    }
    assert(o1 + o2 =~= o);
    assert(b2 =~= b);
}

/// The decimating FIR that waits for a full buffer does not depend on how
/// its input is cut into chunks: decimating `s1` and then `s2` returns,
/// one after the other, the windows that decimating `s1 + s2` in one call
/// returns, and leaves the same samples in the buffer.
pub proof fn law_decimate_when_full_chunking<T>(
    buf: Seq<T>,
    s1: Seq<T>,
    s2: Seq<T>,
    ntaps: int,
    factor: int,
)
    requires
        ntaps >= 0,
        factor > 0 || buf.len() + s1.len() + s2.len() <= ntaps,
    ensures
        decimate_when_full_step(buf, s1, ntaps, factor).0 + decimate_when_full_step(
            decimate_when_full_step(buf, s1, ntaps, factor).1,
            s2,
            ntaps,
            factor,
        ).0 == decimate_when_full_step(buf, s1 + s2, ntaps, factor).0,
        decimate_when_full_step(
            decimate_when_full_step(buf, s1, ntaps, factor).1,
            s2,
            ntaps,
            factor,
        ).1 == decimate_when_full_step(buf, s1 + s2, ntaps, factor).1,
{
    let e = buf + (s1 + s2);
    let ext1 = buf + s1;
    let l1 = ext1.len() as int;
    let (o1, b1) = decimate_when_full_step(buf, s1, ntaps, factor);
    let (o2, b2) = decimate_when_full_step(b1, s2, ntaps, factor);
    let (o, b) = decimate_when_full_step(buf, s1 + s2, ntaps, factor);
    if factor > ntaps {
        assert(o1 + o2 =~= o);
    } else if l1 <= ntaps {
        assert(b1 + s2 =~= e);
        assert(o1 + o2 =~= o2);
    } else {
        assert(ext1 =~= e.take(l1));
        let n1 = strided_count(l1 - ntaps, factor);
        let p = n1 * factor;
        lemma_strided_count_bounds(l1 - ntaps, factor);
        assert(p <= l1) by (nonlinear_arith)
            requires
                (n1 - 1) * factor < l1 - ntaps,
                p == n1 * factor,
                factor <= ntaps,
        ;
        assert(b1 + s2 =~= e.skip(p));
        if e.len() - p <= ntaps {
            lemma_strided_prefix(e, l1, ntaps, factor);
            assert(o1 + o2 =~= o1);
        } else {
            lemma_strided_concat(e, l1, ntaps, factor);
            let n2 = strided_count(e.len() - p - ntaps, factor);
            assert((n1 + n2) * factor == p + n2 * factor) by (nonlinear_arith)
                requires
                    p == n1 * factor,
            ;
            lemma_strided_count_bounds(e.len() - p - ntaps, factor);
            assert(0 <= n2 * factor <= e.len() - p) by (nonlinear_arith)
                requires
                    (n2 - 1) * factor < e.len() - p - ntaps,
                    n2 >= 1,
                    0 < factor <= ntaps,
            ;
            assert(e.skip(p).skip(n2 * factor) =~= e.skip(p + n2 * factor));
        }
    }
}

/// The decimating FIR does not depend on how its input is cut into chunks,
/// as long as each call finds more than `ntaps` samples in its buffer
/// (with exactly `ntaps` samples a call takes no window but still drops
/// one step of samples): decimating `s1` and then `s2` returns, one after
/// the other, the windows that decimating `s1 + s2` in one call returns,
/// and leaves the same samples in the buffer.
pub proof fn law_decimate_chunking<T>(
    buf: Seq<T>,
    s1: Seq<T>,
    s2: Seq<T>,
    ntaps: int,
    factor: int,
)
    requires
        ntaps >= 0,
        factor > ntaps || (factor > 0 && buf.len() + s1.len() > ntaps
            && decimate_step(buf, s1, ntaps, factor).1.len() + s2.len() > ntaps),
    ensures
        decimate_step(buf, s1, ntaps, factor).0 + decimate_step(
            decimate_step(buf, s1, ntaps, factor).1,
            s2,
            ntaps,
            factor,
        ).0 == decimate_step(buf, s1 + s2, ntaps, factor).0,
        decimate_step(decimate_step(buf, s1, ntaps, factor).1, s2, ntaps, factor).1
            == decimate_step(buf, s1 + s2, ntaps, factor).1,
{
    let e = buf + (s1 + s2);
    let ext1 = buf + s1;
    let l1 = ext1.len() as int;
    let (o1, b1) = decimate_step(buf, s1, ntaps, factor);
    let (o2, b2) = decimate_step(b1, s2, ntaps, factor);
    let (o, b) = decimate_step(buf, s1 + s2, ntaps, factor);
    if factor > ntaps {
        assert(o1 + o2 =~= o);
    } else {
        assert(ext1 =~= e.take(l1));
        let n1 = strided_count(l1 - ntaps, factor);
        let p = n1 * factor;
        lemma_strided_count_bounds(l1 - ntaps, factor);
        assert(p <= l1) by (nonlinear_arith)
            requires
                (n1 - 1) * factor < l1 - ntaps,
                p == n1 * factor,
                factor <= ntaps,
        ;
        assert(b1 + s2 =~= e.skip(p));
        lemma_strided_concat(e, l1, ntaps, factor);
        let n2 = strided_count(e.len() - p - ntaps, factor);
        lemma_strided_count_bounds(e.len() - p - ntaps, factor);
        lemma_strided_count_bounds(e.len() - ntaps, factor);
        assert((n1 + n2) * factor == p + n2 * factor) by (nonlinear_arith)
            requires
                p == n1 * factor,
        ;
        assert(0 <= n2 * factor <= e.len() - p) by (nonlinear_arith)
            requires
                (n2 - 1) * factor < e.len() - p - ntaps,
                n2 >= 1,
                0 < factor <= ntaps,
        ;
        assert(e.skip(p).skip(n2 * factor) =~= e.skip(p + n2 * factor));
    }
}

/// The decimating FIRs keep little state: whatever the input, a call
/// leaves at most `ntaps` samples in the buffer, and the number of windows
/// it returns is `(len - ntaps + factor - 1) / factor` for an extended
/// buffer of `len > ntaps` samples (none otherwise).
pub proof fn law_decimate_bounded_state<T>(buf: Seq<T>, input: Seq<T>, ntaps: int, factor: int)
    requires
        0 < factor <= ntaps,
    ensures
        decimate_when_full_step(buf, input, ntaps, factor).1.len() <= ntaps,
        decimate_when_full_step(buf, input, ntaps, factor).0.len() == if buf.len() + input.len()
            > ntaps {
            (buf.len() + input.len() - ntaps + factor - 1) / factor
        } else {
            0
        },
        buf.len() + input.len() >= ntaps ==> decimate_step(buf, input, ntaps, factor).1.len()
            <= ntaps,
        buf.len() + input.len() >= ntaps ==> decimate_step(buf, input, ntaps, factor).0.len() == (
        buf.len() + input.len() - ntaps + factor - 1) / factor,
{
    let len = buf.len() + input.len();
    let span = len - ntaps;
    if span > 0 {
        lemma_strided_count_bounds(span, factor);
        let n = strided_count(span, factor);
        assert((n - 1) * factor == n * factor - factor) by (nonlinear_arith);
        lemma_fundamental_div_mod_converse(
            span + factor - 1,
            factor,
            n,
            span + factor - 1 - n * factor,
        );
    } else if span == 0 {
        lemma_fundamental_div_mod_converse(factor - 1, factor, 0, factor - 1);
    }
}

/// What a streaming FIR call evaluates: with `len` samples buffered and
/// input together, the `len - ntaps` windows it returns are the runs of
/// exactly `ntaps` consecutive samples starting at 0, 1, ..., and it keeps
/// the last `ntaps` samples.
pub proof fn law_fir_windows<T>(buf: Seq<T>, input: Seq<T>, ntaps: int)
    requires
        0 <= ntaps <= buf.len() + input.len(),
    ensures
        ({
            let ext = buf + input;
            let (out, kept) = fir_step(buf, input, ntaps);
            &&& out.len() == ext.len() - ntaps
            &&& forall|i: int|
                0 <= i < out.len() ==> (#[trigger] out[i]).len() == ntaps && forall|j: int|
                    0 <= j < ntaps ==> out[i][j] == ext[i + j]
            &&& kept.len() == ntaps
            &&& forall|j: int| 0 <= j < ntaps ==> kept[j] == ext[ext.len() - ntaps + j]
        }),
{
}

/// What a decimating FIR call evaluates: for a factor in `1..=ntaps` and at
/// least `ntaps` samples buffered and input together, the `k`-th window is
/// the run of exactly `ntaps` consecutive samples starting at `k * factor`;
/// the windows are those starting below `len - ntaps`; the call keeps the
/// samples from `max(count, 1) * factor` on.  A factor above `ntaps`
/// returns nothing and keeps the buffer.
pub proof fn law_decimate_windows<T>(buf: Seq<T>, input: Seq<T>, ntaps: int, factor: int)
    requires
        0 <= ntaps,
        factor > ntaps || (0 < factor && buf.len() + input.len() >= ntaps),
    ensures
        ({
            let ext = buf + input;
            let (out, kept) = decimate_step(buf, input, ntaps, factor);
            if factor > ntaps {
                out.len() == 0 && kept == buf
            } else {
                &&& forall|k: int|
                    0 <= k < out.len() ==> (#[trigger] out[k]).len() == ntaps && forall|j: int|
                        0 <= j < ntaps ==> out[k][j] == ext[k * factor + j]
                &&& out.len() * factor >= ext.len() - ntaps
                &&& (out.len() == 0 || (out.len() - 1) * factor < ext.len() - ntaps)
                &&& kept.len() == ext.len() - (if out.len() == 0 {
                    factor
                } else {
                    out.len() * factor
                })
                &&& forall|j: int|
                    0 <= j < kept.len() ==> kept[j] == ext[(if out.len() == 0 {
                        factor
                    } else {
                        out.len() * factor
                    }) + j]
            }
        }),
{
    let ext = buf + input;
    let span = ext.len() - ntaps;
    if factor <= ntaps {
        let n = strided_count(span, factor);
        if span > 0 {
            lemma_strided_count_bounds(span, factor);
            assert(n * factor == (n - 1) * factor + factor) by (nonlinear_arith);
        }
        let out = decimate_step(buf, input, ntaps, factor).0;
        assert forall|k: int| 0 <= k < out.len() implies (#[trigger] out[k]).len() == ntaps
            && forall|j: int| 0 <= j < ntaps ==> out[k][j] == ext[k * factor + j] by {
            lemma_strided_count_bounds(span, factor);
            vstd::arithmetic::mul::lemma_mul_inequality(k, n - 1, factor);
            assert(0 <= k * factor) by (nonlinear_arith)
                requires
                    0 <= k,
                    0 < factor,
            ;
        }
    }
}

/// What the decimating FIR that waits for a full buffer does: for a factor
/// in `1..=ntaps`, up to `ntaps` samples it only accumulates; with more,
/// the `k`-th window is the run of exactly `ntaps` consecutive samples
/// starting at `k * factor`, the windows are those starting below
/// `len - ntaps` (at least one), and the call keeps the samples from
/// `count * factor` on.  A factor above `ntaps` returns nothing and keeps
/// the buffer.
pub proof fn law_decimate_when_full_windows<T>(buf: Seq<T>, input: Seq<T>, ntaps: int, factor: int)
    requires
        0 <= ntaps,
        factor > 0,
    ensures
        ({
            let ext = buf + input;
            let (out, kept) = decimate_when_full_step(buf, input, ntaps, factor);
            if factor > ntaps {
                out.len() == 0 && kept == buf
            } else if ext.len() <= ntaps {
                out.len() == 0 && kept == ext
            } else {
                &&& forall|k: int|
                    0 <= k < out.len() ==> (#[trigger] out[k]).len() == ntaps && forall|j: int|
                        0 <= j < ntaps ==> out[k][j] == ext[k * factor + j]
                &&& out.len() >= 1
                &&& out.len() * factor >= ext.len() - ntaps
                &&& (out.len() - 1) * factor < ext.len() - ntaps
                &&& kept.len() == ext.len() - out.len() * factor
                &&& forall|j: int| 0 <= j < kept.len() ==> kept[j] == ext[out.len() * factor + j]
            }
        }),
{
    let ext = buf + input;
    let span = ext.len() - ntaps;
    if factor <= ntaps && span > 0 {
        let n = strided_count(span, factor);
        lemma_strided_count_bounds(span, factor);
        assert(n * factor == (n - 1) * factor + factor) by (nonlinear_arith);
        let out = decimate_when_full_step(buf, input, ntaps, factor).0;
        assert forall|k: int| 0 <= k < out.len() implies (#[trigger] out[k]).len() == ntaps
            && forall|j: int| 0 <= j < ntaps ==> out[k][j] == ext[k * factor + j] by {
            vstd::arithmetic::mul::lemma_mul_inequality(k, n - 1, factor);
            assert(0 <= k * factor) by (nonlinear_arith)
                requires
                    0 <= k,
                    0 < factor,
            ;
        }
    }
}

} // verus!
