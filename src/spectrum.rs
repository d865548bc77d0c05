use vstd::prelude::*;
use vstd::arithmetic::div_mod::lemma_fundamental_div_mod;
use vstd::arithmetic::mul::lemma_mul_inequality;
use vstd::arithmetic::mul::lemma_mul_is_distributive_add_other_way;

verus! {

/// Number of bars in the spectrum display.
pub const NUM_FREQUENCY_BARS: usize = 180;

/// How many transform bins feed one bar: the meaningful half of an
/// `n`-point transform split evenly over `bars`, remainder dropped.
pub open spec fn bins_per_bar(n: nat, bars: nat) -> nat {
    n / 2 / bars
}

/// The bar whose smoothed value is shown at position `i` of `bars`: the
/// left half in order, the right half mirrored.
pub open spec fn mirror_of(i: int, bars: int) -> int {
    if i < bars / 2 {
        i
    } else {
        bars - i - 1
    }
}

/// How many transform bins of an `n`-point transform feed each of `bars`.
pub fn points_per_bar(n: usize, bars: usize) -> (r: usize)
    requires
        bars > 0,
    ensures
        r == bins_per_bar(n as nat, bars as nat),
        r * bars <= n / 2,
{
    let r = n / 2 / bars;
    proof {
        lemma_fundamental_div_mod((n / 2) as int, bars as int);
        assert(r * bars <= n / 2) by (nonlinear_arith)
            requires
                r == (n / 2) / bars,
                bars > 0,
                (n / 2) as int == bars * ((n / 2) as int / bars as int) + (n / 2) as int
                    % bars as int,
                (n / 2) as int % bars as int >= 0,
        ;
    }
    r
}

/// The half-open range of transform bins averaged into bar `bar`.
pub fn bar_bins(n: usize, bars: usize, bar: usize) -> (r: (usize, usize))
    requires
        bar < bars,
    ensures
        r.0 == bar * bins_per_bar(n as nat, bars as nat),
        r.1 == r.0 + bins_per_bar(n as nat, bars as nat),
        r.1 <= bins_per_bar(n as nat, bars as nat) * bars,
        r.1 <= n / 2,
{
    let per = points_per_bar(n, bars);
    proof {
        lemma_bins_partition(n as nat, bars as nat, bar as nat);
        assert(bar * per <= (bar + 1) * per) by (nonlinear_arith);
        assert(per * bars == bars * per) by (nonlinear_arith);
    }
    let start = bar * per;
    (start, start + per)
}

/// Where each shown bar takes its value from.
pub fn mirror_index(i: usize, bars: usize) -> (r: usize)
    requires
        i < bars,
    ensures
        r == mirror_of(i as int, bars as int),
        r < bars,
        r <= i,
{
    if i < bars / 2 {
        i
    } else {
        bars - i - 1
    }
}

/// Lays `smoothed` out symmetrically: position `i` shows
/// `smoothed[mirror_of(i, len)]`.
pub fn mirror<T: Copy>(smoothed: &[T]) -> (r: Vec<T>)
    ensures
        r@.len() == smoothed@.len(),
        forall|i: int| 0 <= i < r@.len() ==> #[trigger] r@[i] == smoothed@[mirror_of(i, r@.len() as int)],
        forall|i: int| 0 <= i < r@.len() ==> #[trigger] r@[i] == r@[r@.len() - 1 - i],
{
    let bars = smoothed.len();
    let mut out: Vec<T> = Vec::new();
    let mut i: usize = 0;
    while i < bars
        invariant
            i <= bars,
            bars == smoothed@.len(),
            out@.len() == i,
            forall|j: int| 0 <= j < i ==> #[trigger] out@[j] == smoothed@[mirror_of(j, bars as int)],
        decreases bars - i,
    {
        let x: T = smoothed[mirror_index(i, bars)];
        out.push(x);
        i += 1;
    }
    proof {
        lemma_mirror_symmetric(bars as int);
    }
    out
}

/// Showing bar `i` and bar `bars - 1 - i` reads the same smoothed value.
pub proof fn lemma_mirror_symmetric(bars: int)
    ensures
        forall|i: int|
            0 <= i < bars ==> #[trigger] mirror_of(i, bars) == mirror_of(bars - 1 - i, bars),
{
}

/// The neighbourhood that one bar is smoothed over: the bar itself with
/// weight two, and each neighbour that exists with weight one.
#[derive(Clone, Copy, Debug, PartialEq, Eq, Structural)]
pub struct Taps {
    pub left: Option<usize>,
    pub center: usize,
    pub right: Option<usize>,
}

impl Taps {
    /// The sum of the tap weights.
    pub open spec fn weight_sum(&self) -> nat {
        2 + (if self.left.is_some() { 1nat } else { 0 }) + (if self.right.is_some() { 1nat } else { 0 })
    }

    /// The weighted sum of `raw` over these taps; the smoothed value is this
    /// divided by `weight_sum`.
    pub open spec fn weighted(&self, raw: Seq<int>) -> int {
        2 * raw[self.center as int] + (match self.left {
            Some(l) => raw[l as int],
            None => 0,
        }) + (match self.right {
            Some(r) => raw[r as int],
            None => 0,
        })
    }

    /// What the weighted sum is divided by.
    pub fn divisor(&self) -> (r: u32)
        ensures
            r == self.weight_sum(),
    {
        let mut d: u32 = 2;
        if self.left.is_some() {
            d += 1;
        }
        if self.right.is_some() {
            d += 1;
        }
        d
    }
}

/// The smoothing neighbourhood of bar `idx` among `bars`: the first and the
/// last bar lack their outer neighbour.
pub open spec fn taps_of(idx: usize, bars: usize) -> Taps {
    Taps {
        left: if idx == 0 { None } else { Some((idx - 1) as usize) },
        center: idx,
        right: if idx + 1 == bars { None } else { Some((idx + 1) as usize) },
    }
}

/// The smoothing neighbourhood of bar `idx` among `bars` raw bars.
pub fn smoothing_taps(idx: usize, bars: usize) -> (r: Taps)
    requires
        2 <= bars,
        idx < bars,
    ensures
        r == taps_of(idx, bars),
{
    let left = if idx == 0 {
        None
    } else {
        Some(idx - 1)
    };
    let right = if idx + 1 == bars {
        None
    } else {
        Some(idx + 1)
    };
    Taps { left, center: idx, right }
}

/// Smoothing is a weighted average with non-negative weights: the smoothed
/// value of any bar lies between the least and the greatest raw value in
/// its neighbourhood.
pub proof fn lemma_smoothing_bounded(raw: Seq<int>, idx: usize, bars: usize, lo: int, hi: int)
    requires
        2 <= bars,
        idx < bars,
        raw.len() == bars,
        forall|j: int| idx - 1 <= j <= idx + 1 && 0 <= j < bars ==> lo <= #[trigger] raw[j] <= hi,
    ensures
        lo * taps_of(idx, bars).weight_sum() <= taps_of(idx, bars).weighted(raw),
        taps_of(idx, bars).weighted(raw) <= hi * taps_of(idx, bars).weight_sum(),
{
    assert(lo <= raw[idx as int] <= hi);
    if idx > 0 {
        assert(lo <= raw[idx - 1] <= hi);
    }
    if idx + 1 < bars {
        assert(lo <= raw[idx + 1] <= hi);
    }
    if idx == 0 {
        assert(lo * 3 == lo + lo + lo && hi * 3 == hi + hi + hi);
    } else if idx + 1 == bars {
        assert(lo * 3 == lo + lo + lo && hi * 3 == hi + hi + hi);
    } else {
        assert(lo * 4 == lo + lo + lo + lo && hi * 4 == hi + hi + hi + hi);
    }
}

/// The bins that the bars read lie in the meaningful half of the transform,
/// and bar after bar they tile `[0, bins_per_bar * bars)` without overlap.
pub proof fn lemma_bins_partition(n: nat, bars: nat, bar: nat)
    requires
        bars > 0,
        bar < bars,
    ensures
        bins_per_bar(n, bars) * bars <= n / 2,
        (bar + 1) * bins_per_bar(n, bars) <= bins_per_bar(n, bars) * bars,
        bar * bins_per_bar(n, bars) + bins_per_bar(n, bars) == (bar + 1) * bins_per_bar(n, bars),
{
    let per = bins_per_bar(n, bars);
    lemma_fundamental_div_mod((n / 2) as int, bars as int);
    assert(per * bars <= n / 2) by (nonlinear_arith)
        requires
            per == (n / 2) / bars,
            bars > 0,
            (n / 2) as int == bars * ((n / 2) as int / bars as int) + (n / 2) as int % bars as int,
            (n / 2) as int % bars as int >= 0,
    ;
    lemma_mul_inequality((bar + 1) as int, bars as int, per as int);
    lemma_mul_is_distributive_add_other_way(per as int, bar as int, 1);
}

} // verus!
