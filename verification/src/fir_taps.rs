//! Layout of the taps of a windowed-sinc FIR low-pass filter.
use vstd::prelude::*;

verus! {

/// Window function applied to the sinc taps.
#[derive(Clone, Copy, Debug, PartialEq, Eq, Structural)]
pub enum Window {
    Boxcar,
    Blackman,
    Hamming,
}

impl Window {
    /// Whether the tap designer has a formula for this window.
    /// Only the tapered windows (Blackman and Hamming) are designed; a
    /// request for a boxcar window is a fatal configuration error.
    pub fn is_supported(&self) -> (r: bool)
        ensures
            r <==> !(*self is Boxcar),
    {
        match self {
            Window::Boxcar => false,
            Window::Blackman => true,
            Window::Hamming => true,
        }
    }
}

/// Rounds a requested tap count to the odd count the designer uses,
/// so that the filter has a middle tap: an even count grows by one.
pub fn odd_taps_len(n: usize) -> (r: usize)
    ensures
        r % 2 == 1,
        r == if n % 2 == 0 { n + 1 } else { n as int },
{
    let r = n | 1;
    assert(r == if n % 2 == 0 { n + 1 } else { n as int }) by (bit_vector)
        requires
            r == n | 1,
    ;
    assert(r % 2 == 1) by (bit_vector)
        requires
            r == n | 1,
    ;
    r
}

/// Lays out the taps of a symmetric (linear-phase) filter: the side taps
/// `side[0]`, `side[1]`, ... are the taps at distance 1, 2, ... from the
/// middle tap `center`, on both sides.
pub fn mirror_taps<T: Copy>(center: T, side: &[T]) -> (taps: Vec<T>)
    requires
        2 * side@.len() + 1 <= usize::MAX,
    ensures
        taps@ == side@.reverse() + seq![center] + side@,
        taps@.len() == 2 * side@.len() + 1,
        taps@[side@.len() as int] == center,
        forall|i: int|
            0 <= i < side@.len() ==> taps@[side@.len() + 1 + i] == side@[i] && taps@[side@.len() - 1
                - i] == side@[i],
        forall|i: int|
            0 <= i < taps@.len() ==> #[trigger] taps@[i] == taps@[taps@.len() - 1 - i],
{
    let m = side.len();
    let mut taps: Vec<T> = Vec::new();
    for k in 0..m
        invariant
            m == side@.len(),
            taps@ == side@.reverse().take(k as int),
    {
        taps.push(side[m - 1 - k]);
        assert(side@.reverse().take(k + 1) =~= side@.reverse().take(k as int).push(
            side@[m - 1 - k],
        ));
    }
    assert(side@.reverse().take(m as int) =~= side@.reverse());
    taps.push(center);
    for k in 0..m
        invariant
            m == side@.len(),
            2 * m + 1 <= usize::MAX,
            taps@ == side@.reverse() + seq![center] + side@.take(k as int),
    {
        taps.push(side[k]);
        assert(side@.take(k + 1) =~= side@.take(k as int).push(side@[k as int]));
    }
    assert(side@.take(m as int) =~= side@);
    assert(taps@ =~= side@.reverse() + seq![center] + side@);
    assert forall|i: int| 0 <= i < taps@.len() implies #[trigger] taps@[i] == taps@[taps@.len()
        - 1 - i] by {
        if i < m {
            assert(taps@[i] == side@[m - 1 - i]);
        } else if i > m {
            assert(taps@[i] == side@[i - m - 1]);
        }
    }
    taps
}

} // verus!
