use vstd::prelude::*;
use vstd::arithmetic::div_mod::lemma_fundamental_div_mod;

verus! {

/// Most samples the waveform draws from, out of an `n`-sample buffer.
pub open spec fn wave_span(n: nat) -> nat {
    if n <= n / 2 {
        n
    } else {
        n / 2
    }
}

/// How many points the waveform of a `width`-pixel view is drawn with: one
/// per four pixels, and never more than the `n` buffered samples.
pub fn wave_point_count(n: usize, width: i32) -> (r: usize)
    requires
        width >= 0,
    ensures
        r == if n <= width / 4 {
            n as int
        } else {
            width / 4
        },
{
    let quarter = (width / 4) as usize;
    if n <= quarter {
        n
    } else {
        quarter
    }
}

/// Which samples of an `n`-sample buffer feed a waveform of `points`
/// points: each point averages `r.0` consecutive samples, the first point
/// starting at `r.1`; the window is the newest part of the buffer.
pub fn wave_window(n: usize, points: usize) -> (r: (usize, usize))
    requires
        points > 0,
    ensures
        r.0 == wave_span(n as nat) / points as nat,
        r.1 == n - wave_span(n as nat),
        r.1 + points * r.0 <= n,
{
    let span = if n <= n / 2 {
        n
    } else {
        n / 2
    };
    let per = span / points;
    proof {
        lemma_fundamental_div_mod(span as int, points as int);
        assert(points * per <= span) by (nonlinear_arith)
            requires
                per == span / points,
                points > 0,
                span as int == points * (span as int / points as int) + span as int % points as int,
                span as int % points as int >= 0,
        ;
    }
    (per, n - span)
}

} // verus!
