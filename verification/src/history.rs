//! The two most recent samples of a stream, for filters (such as a
//! quadrature FM discriminator) whose output depends on the current
//! sample and the two before it.
use vstd::prelude::*;

verus! {

/// The stream seen by a history in state `(before_last, last)` that then
/// receives `input`.
pub open spec fn history_stream<T>(state: (T, T), input: Seq<T>) -> Seq<T> {
    seq![state.0, state.1] + input
}

/// One call of [`SampleHistory::advance`]: for each input sample, the
/// sample with the two samples before it; then the new state.
pub open spec fn history_step<T>(state: (T, T), input: Seq<T>) -> (Seq<(T, T, T)>, (T, T)) {
    let h = history_stream(state, input);
    (
        Seq::new(input.len(), |k: int| (h[k + 2], h[k + 1], h[k])),
        (h[h.len() - 2], h[h.len() - 1]),
    )
}

/// The last two samples of a stream.
pub struct SampleHistory<T> {
    before_last: T,
    last: T,
}

impl<T> View for SampleHistory<T> {
    type V = (T, T);

    /// `(before_last, last)`.
    closed spec fn view(&self) -> (T, T) {
        (self.before_last, self.last)
    }
}

impl<T: Copy> SampleHistory<T> {
    /// A history as if the stream had started with two `initial` samples.
    pub fn new(initial: T) -> (r: Self)
        ensures
            r@ == (initial, initial),
    {
        SampleHistory { before_last: initial, last: initial }
    }

    /// The two most recent samples, older first.
    pub fn samples(&self) -> (r: (T, T))
        ensures
            r == self@,
    {
        (self.before_last, self.last)
    }

    /// Returns, for each input sample in order, the triple (sample,
    /// previous sample, the one before that), and remembers the last two
    /// samples.
    pub fn advance(&mut self, input: &[T]) -> (out: Vec<(T, T, T)>)
        ensures
            out@ == history_step(old(self)@, input@).0,
            final(self)@ == history_step(old(self)@, input@).1,
            out@.len() == input@.len(),
            forall|k: int|
                0 <= k < out@.len() ==> (#[trigger] out@[k]).0 == input@[k] && out@[k].1 == (if k
                    >= 1 {
                    input@[k - 1]
                } else {
                    old(self)@.1
                }) && out@[k].2 == (if k >= 2 {
                    input@[k - 2]
                } else if k == 1 {
                    old(self)@.1
                } else {
                    old(self)@.0
                }),
            final(self)@ == (if input@.len() >= 2 {
                (input@[input@.len() - 2], input@[input@.len() - 1])
            } else if input@.len() == 1 {
                (old(self)@.1, input@[0])
            } else {
                old(self)@
            }),
    {
        let ghost h = history_stream(old(self)@, input@);
        let n = input.len();
        let mut out: Vec<(T, T, T)> = Vec::new();
        for k in 0..n
            invariant
                n == input@.len(),
                h == history_stream(old(self)@, input@),
                out@.len() == k,
                forall|j: int| 0 <= j < k ==> #[trigger] out@[j] == (h[j + 2], h[j + 1], h[j]),
                self@ == (h[k as int], h[k + 1]),
        {
            let x = input[k];
            out.push((x, self.last, self.before_last));
            self.before_last = self.last;
            self.last = x;
        }
        assert(out@ =~= history_step(old(self)@, input@).0);
        proof {
            law_history_samples(old(self)@, input@);
        }
        out
    }
}

/// What the history hands out: each input sample comes with the sample
/// before it and the one before that, reaching back into the two samples
/// held before the call; afterwards the history holds the last two
/// samples of the stream.
pub proof fn law_history_samples<T>(state: (T, T), input: Seq<T>)
    ensures
        ({
            let (out, next) = history_step(state, input);
            &&& out.len() == input.len()
            &&& forall|k: int|
                0 <= k < out.len() ==> (#[trigger] out[k]).0 == input[k] && out[k].1 == (if k >= 1 {
                    input[k - 1]
                } else {
                    state.1
                }) && out[k].2 == (if k >= 2 {
                    input[k - 2]
                } else if k == 1 {
                    state.1
                } else {
                    state.0
                })
            &&& next == (if input.len() >= 2 {
                (input[input.len() - 2], input[input.len() - 1])
            } else if input.len() == 1 {
                (state.1, input[0])
            } else {
                state
            })
        }),
{
}

/// The history does not depend on how the stream is cut into chunks:
/// advancing over `s1` and then `s2` returns, one after the other, the
/// triples of advancing over `s1 + s2`, and ends in the same state.
pub proof fn law_history_chunking<T>(state: (T, T), s1: Seq<T>, s2: Seq<T>)
    ensures
        history_step(state, s1).0 + history_step(history_step(state, s1).1, s2).0 == history_step(
            state,
            s1 + s2,
        ).0,
        history_step(history_step(state, s1).1, s2).1 == history_step(state, s1 + s2).1,
{
    let h = history_stream(state, s1 + s2);
    let h1 = history_stream(state, s1);
    let st1 = history_step(state, s1).1;
    let h2 = history_stream(st1, s2);
    let n1 = s1.len() as int;
    assert(h1 =~= h.take(n1 + 2));
    assert(h2 =~= h.skip(n1));
    let o1 = history_step(state, s1).0;
    let o2 = history_step(st1, s2).0;
    let o = history_step(state, s1 + s2).0;
    assert forall|j: int| 0 <= j < o.len() implies #[trigger] (o1 + o2)[j] == o[j] by {
        if j < n1 {
            assert(o1[j] == (h1[j + 2], h1[j + 1], h1[j]));
        } else {
            assert(o2[j - n1] == (h2[j - n1 + 2], h2[j - n1 + 1], h2[j - n1]));
        }
    }
    assert(o1 + o2 =~= o);
}

} // verus!
