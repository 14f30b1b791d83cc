use vstd::prelude::*;

verus! {

/// Millionths of a touch: the resolution at which rates are kept.
pub const MICRO: u64 = 1_000_000;

/// A non-negative number of touches per day, held as an exact fraction:
/// `micro_touches` millionths of a touch over a window of `window_days` days.
/// A rate over an empty window is zero: nothing can have been observed in
/// no time.  Two rates with the same `numer() / denom()` are the same rate,
/// whatever their windows.
#[derive(Clone, Copy, Debug)]
pub struct Rate {
    pub micro_touches: u128,
    pub window_days: u128,
}

impl Rate {
    /// Numerator of the rate in touches per day.
    pub open spec fn numer(self) -> int {
        if self.window_days == 0 {
            0
        } else {
            self.micro_touches as int
        }
    }

    /// Denominator of the rate in touches per day; always positive.
    pub open spec fn denom(self) -> int {
        if self.window_days == 0 {
            1
        } else {
            self.window_days as int * MICRO as int
        }
    }

    /// Whether the rate is strictly below `tenths / 10` touches per day.
    pub open spec fn below_tenths(self, tenths: int) -> bool {
        self.numer() * 10 < tenths * self.denom()
    }

    /// Whether the rate equals `n / d` touches per day, for `d > 0`.
    pub open spec fn equals_ratio(self, n: int, d: int) -> bool {
        self.numer() * d == n * self.denom()
    }

    /// The intensity bucket of a change rate: thresholds 1.7, 3.4, 5.2 and 6.9
    /// touches per day, a rate on a threshold falling into the higher bucket.
    pub open spec fn bucket(self) -> nat {
        if self.below_tenths(17) {
            0
        } else if self.below_tenths(34) {
            1
        } else if self.below_tenths(52) {
            2
        } else if self.below_tenths(69) {
            3
        } else {
            4
        }
    }

    /// The zero rate.
    pub fn zero() -> (r: Rate)
        ensures
            r == (Rate { micro_touches: 0, window_days: 0 }),
            r.numer() == 0,
    {
        Rate { micro_touches: 0, window_days: 0 }
    }

    /// The rate of `touches` touches seen in a window of `window_days` days.
    pub fn from_touches(touches: u64, window_days: u64) -> (r: Rate)
        ensures
            r == (Rate {
                micro_touches: (touches * MICRO) as u128,
                window_days: window_days as u128,
            }),
            window_days > 0 ==> r.equals_ratio(touches as int, window_days as int),
            window_days == 0 ==> r.numer() == 0,
    {
        let r = Rate {
            micro_touches: (touches as u128) * 1_000_000,
            window_days: window_days as u128,
        };
        proof {
            if window_days > 0 {
                assert(touches * 1_000_000 * window_days == touches * (window_days * 1_000_000))
                    by (nonlinear_arith);
            }
        }
        r
    }

    /// Whether the rate is strictly below `tenths / 10` touches per day.
    pub fn is_below_tenths(&self, tenths: u8) -> (b: bool)
        ensures
            b == self.below_tenths(tenths as int),
    {
        if self.window_days == 0 {
            tenths > 0
        } else {
            // micro * 10 < tenths * (days * 1_000_000) just where
            // micro / days < tenths * 100_000
            let whole: u128 = self.micro_touches / self.window_days;
            let bound: u128 = (tenths as u128) * 100_000;
            proof {
                let m = self.micro_touches as int;
                let w = self.window_days as int;
                vstd::arithmetic::div_mod::lemma_fundamental_div_mod(m, w);
                vstd::arithmetic::div_mod::lemma_mod_pos_bound(m, w);
                assert((m * 10 < tenths * (w * 1_000_000)) == (m / w < tenths * 100_000))
                    by (nonlinear_arith)
                    requires
                        m == w * (m / w) + m % w,
                        0 <= m % w < w,
                        w > 0,
                        tenths >= 0,
                ;
            }
            whole < bound
        }
    }
}

/// What is known of one file or directory: its size and how often it changes.
#[derive(Clone, Copy, Debug)]
pub struct Metrics {
    /// Lines of text.
    pub lines: usize,
    /// Changes per day.
    pub change_frequency: Rate,
}

/// The intensity bucket of a line count: `[0,50)`, `[50,100)`, `[100,200)`,
/// `[200,500)`, `[500,1000)` and `[1000,..)`.
pub open spec fn lines_bucket(lines: nat) -> nat {
    if lines < 50 {
        0
    } else if lines < 100 {
        1
    } else if lines < 200 {
        2
    } else if lines < 500 {
        3
    } else if lines < 1000 {
        4
    } else {
        5
    }
}

impl Default for Metrics {
    fn default() -> (m: Metrics)
        ensures
            m.lines == 0,
            m.change_frequency == (Rate { micro_touches: 0, window_days: 0 }),
    {
        Metrics { lines: 0, change_frequency: Rate::zero() }
    }
}

impl Metrics {
    pub fn new(lines: usize, change_frequency: Rate) -> (m: Metrics)
        ensures
            m == (Metrics { lines, change_frequency }),
    {
        Metrics { lines, change_frequency }
    }

    /// Bucket of the line count, for the heatmap.
    pub fn lines_category(&self) -> (bucket: usize)
        ensures
            bucket == lines_bucket(self.lines as nat),
    {
        if self.lines < 50 {
            0
        } else if self.lines < 100 {
            1
        } else if self.lines < 200 {
            2
        } else if self.lines < 500 {
            3
        } else if self.lines < 1000 {
            4
        } else {
            5
        }
    }

    /// Bucket of the change rate, for the heatmap.
    pub fn change_frequency_category(&self) -> (bucket: usize)
        ensures
            bucket == self.change_frequency.bucket(),
    {
        let rate = &self.change_frequency;
        if rate.is_below_tenths(17) {
            0
        } else if rate.is_below_tenths(34) {
            1
        } else if rate.is_below_tenths(52) {
            2
        } else if rate.is_below_tenths(69) {
            3
        } else {
            4
        }
    }
}

/// A larger line count never falls into a lower bucket.
pub proof fn law_lines_bucket_is_monotonic(a: nat, b: nat)
    requires
        a <= b,
    ensures
        lines_bucket(a) <= lines_bucket(b),
{
}

/// A larger rate never falls into a lower bucket.
pub proof fn law_rate_bucket_is_monotonic(a: Rate, b: Rate)
    requires
        a.numer() * b.denom() <= b.numer() * a.denom(),
    ensures
        a.bucket() <= b.bucket(),
{
    assert forall|t: int| 0 <= t && b.below_tenths(t) implies a.below_tenths(t) by {
        lemma_below_is_downward_closed(a, b, t);
    }
}

proof fn lemma_below_is_downward_closed(a: Rate, b: Rate, t: int)
    requires
        a.numer() * b.denom() <= b.numer() * a.denom(),
        0 <= t,
        b.below_tenths(t),
    ensures
        a.below_tenths(t),
{
    let (an, ad, bn, bd) = (a.numer(), a.denom(), b.numer(), b.denom());
    assert(ad > 0 && bd > 0 && an >= 0 && bn >= 0) by (nonlinear_arith)
        requires
            ad == a.denom(),
            bd == b.denom(),
            an == a.numer(),
            bn == b.numer(),
            a.denom() == 1 || a.denom() == a.window_days * 1_000_000 && a.window_days > 0,
            b.denom() == 1 || b.denom() == b.window_days * 1_000_000 && b.window_days > 0,
            a.numer() >= 0,
            b.numer() >= 0,
    ;
    assert(an * 10 < t * ad) by (nonlinear_arith)
        requires
            an * bd <= bn * ad,
            bn * 10 < t * bd,
            ad > 0,
            bd > 0,
            an >= 0,
            bn >= 0,
            t >= 0,
    ;
}

} // verus!
