//! The band calculator: rolling windows over a fixed-point price series,
//! with recoverable errors for every rejected input.

use vstd::prelude::*;
use vstd::arithmetic::div_mod::{
    lemma_div_basics, lemma_div_is_ordered, lemma_div_is_ordered_by_denominator,
    lemma_div_multiples_vanish, lemma_div_pos_is_pos,
};
use crate::stats::{
    sum_seq, dev_sq_seq, is_sqrt_floor, isqrt, floor_div_i128, lemma_sum_seq_bound,
    lemma_sum_seq_const, lemma_dev_sq_seq_nonneg, lemma_dev_sq_seq_const,
    lemma_sqrt_floor_exists, lemma_sqrt_floor_unique,
};

verus! {

/// Largest window the calculator accepts; keeps every intermediate sum
/// inside 128-bit arithmetic.
pub const MAX_WINDOW: usize = 65536;

/// Largest magnitude a fixed-point price may have; together with
/// `MAX_WINDOW` it keeps every squared deviation inside 128-bit
/// arithmetic.
pub const PRICE_LIMIT: i64 = 100_000_000_000;

/// The band multiplier is carried in thousandths: 2000 means 2.0 standard
/// deviations.
pub const MULT_SCALE: i64 = 1000;

/// Largest multiplier accepted (1000.0 standard deviations).
pub const MULT_LIMIT: i64 = 1_000_000;

/// Default window size: twenty samples.
pub const DEFAULT_WINDOW: usize = 20;

/// Default band multiplier: 2.0 standard deviations, in thousandths.
pub const DEFAULT_MULT: i64 = 2000;

/// One Bollinger Band record, derived from a single trailing window.
/// All prices are in the caller's fixed-point scale; `m` is in
/// thousandths of a standard deviation.
#[derive(Clone, Copy, Debug, PartialEq, Eq, Structural)]
pub struct BollingerBands {
    /// Unix-epoch timestamp of the last sample in the window.
    pub time: u64,
    /// Upper band: `ma + m * sd`, rounded toward negative infinity.
    pub bolu: i64,
    /// Lower band: `ma - m * sd`.
    pub bold: i64,
    /// Moving average over the window, rounded toward negative infinity.
    pub ma: i64,
    /// Number of samples in the window.
    pub n: u32,
    /// Band multiplier in thousandths.
    pub m: i64,
    /// Sample standard deviation of the window, rounded down.
    pub sd: i64,
}

/// Why a band computation was rejected. Every rejection is a value the
/// caller can match on; nothing in this crate aborts the process.
#[derive(Clone, Copy, Debug, PartialEq, Eq, Structural)]
pub enum BandError {
    /// The price and timestamp sequences differ in length.
    MismatchedLength { prices_len: usize, times_len: usize },
    /// The input is shorter than the configured window.
    InsufficientData { required: usize, actual: usize },
    /// A window of fewer than two samples has no sample variance.
    DegenerateWindow { len: usize },
}

/// Whether the rolling output is padded to the input length with leading
/// `None` markers, or holds only the positions whose window is complete.
#[derive(Clone, Copy, Debug, PartialEq, Eq, Structural)]
pub enum PadMode {
    Padded,
    Compact,
}

/// Every price lies within the magnitude the calculator accepts.
pub open spec fn valid_prices(s: Seq<i64>) -> bool {
    forall|i: int| 0 <= i < s.len() ==> -PRICE_LIMIT <= (#[trigger] s[i]) <= PRICE_LIMIT
}

/// The moving average of a window: the exact rational mean, rounded
/// toward negative infinity.
pub open spec fn window_mean(w: Seq<i64>) -> int {
    sum_seq(w) / w.len() as int
}

/// The sample variance of a window, rounded toward negative infinity.
/// `dev_sq_seq(w, sum, n)` is `n^2 * (n - 1)` times the exact sample
/// variance, so dividing by `n^2 * (n - 1)` yields its floor.
pub open spec fn window_var_floor(w: Seq<i64>) -> int {
    dev_sq_seq(w, sum_seq(w), w.len() as int) / (w.len() as int * w.len() as int * (w.len()
        as int - 1))
}

/// How far each band lies from the moving average: `m` thousandths of a
/// standard deviation, rounded down.
pub open spec fn band_offset(m: int, sd: int) -> int {
    (m * sd) / MULT_SCALE as int
}

/// The tuple `(ma, sd, bolu, bold)` is the band statistics of window `w`
/// with multiplier `m`: `ma` is the floored mean, `sd` the floor square
/// root of the floored sample variance, and the bands sit `m/1000`
/// standard deviations on either side of the mean.
pub open spec fn band_stats_ok(t: (i64, i64, i64, i64), w: Seq<i64>, m: int) -> bool {
    &&& t.0 as int == window_mean(w)
    &&& is_sqrt_floor(t.1 as int, window_var_floor(w))
    &&& t.2 as int == t.0 as int + band_offset(m, t.1 as int)
    &&& t.3 as int == t.0 as int - band_offset(m, t.1 as int)
}

/// Sum of `v[lo..hi]` in 128-bit arithmetic.
fn sum_range(v: &Vec<i64>, lo: usize, hi: usize) -> (s: i128)
    requires
        lo <= hi <= v@.len(),
        hi - lo <= MAX_WINDOW,
        valid_prices(v@),
    ensures
        s == sum_seq(v@.subrange(lo as int, hi as int)),
        -((hi - lo) as int * PRICE_LIMIT as int) <= s <= (hi - lo) as int * PRICE_LIMIT as int,
{
    let mut s: i128 = 0;
    let mut j: usize = lo;
    while j < hi
        invariant
            lo <= j <= hi <= v@.len(),
            hi - lo <= MAX_WINDOW,
            valid_prices(v@),
            s == sum_seq(v@.subrange(lo as int, j as int)),
            -((j - lo) as int * PRICE_LIMIT as int) <= s <= (j - lo) as int * PRICE_LIMIT
                as int,
        decreases hi - j,
    {
        let x = v[j];
        proof {
            let pre = v@.subrange(lo as int, j as int);
            let post = v@.subrange(lo as int, j as int + 1);
            assert(post.drop_last() =~= pre);
            assert(post.last() == v@[j as int]);
            assert(-PRICE_LIMIT <= v@[j as int] <= PRICE_LIMIT);
        }
        s = s + x as i128;
        j = j + 1;
    }
    s
}

/// Sum of the squared deviations `((hi - lo) * v[j] - total)^2` over
/// `v[lo..hi]`, in 128-bit arithmetic.
fn dev_sq_range(v: &Vec<i64>, lo: usize, hi: usize, total: i128) -> (d: i128)
    requires
        lo <= hi <= v@.len(),
        2 <= hi - lo <= MAX_WINDOW,
        valid_prices(v@),
        total == sum_seq(v@.subrange(lo as int, hi as int)),
    ensures
        d == dev_sq_seq(v@.subrange(lo as int, hi as int), total as int, (hi - lo) as int),
        0 <= d <= (hi - lo) as int * (4 * (hi - lo) as int * (hi - lo) as int * PRICE_LIMIT
            as int * PRICE_LIMIT as int),
{
    let n: usize = hi - lo;
    proof {
        let w = v@.subrange(lo as int, hi as int);
        assert(forall|i: int| 0 <= i < w.len() ==> -PRICE_LIMIT <= (#[trigger] w[i])
            <= PRICE_LIMIT) by {
            assert(forall|i: int| 0 <= i < w.len() ==> w[i] == v@[lo + i]);
        }
        lemma_sum_seq_bound(w, PRICE_LIMIT as int);
    }
    let mut d: i128 = 0;
    let mut j: usize = lo;
    while j < hi
        invariant
            lo <= j <= hi <= v@.len(),
            n == hi - lo,
            2 <= n <= MAX_WINDOW,
            valid_prices(v@),
            -(n as int * PRICE_LIMIT as int) <= total <= n as int * PRICE_LIMIT as int,
            d == dev_sq_seq(v@.subrange(lo as int, j as int), total as int, n as int),
            0 <= d <= (j - lo) as int * (4 * n as int * n as int * PRICE_LIMIT as int
                * PRICE_LIMIT as int),
        decreases hi - j,
    {
        let x = v[j];
        proof {
            let pre = v@.subrange(lo as int, j as int);
            let post = v@.subrange(lo as int, j as int + 1);
            assert(post.drop_last() =~= pre);
            assert(post.last() == v@[j as int]);
            assert(-PRICE_LIMIT <= v@[j as int] <= PRICE_LIMIT);
        }
        proof {
            assert((-(n as int * 100_000_000_000) <= n as int * (x as int)) && (n as int * (
            x as int) <= n as int * 100_000_000_000)) by (nonlinear_arith)
                requires
                    2 <= n as int <= 65536,
                    -100_000_000_000 <= x as int <= 100_000_000_000,
            ;
        }
        let t: i128 = (n as i128) * (x as i128) - total;
        proof {
            let bb: int = 4 * n as int * n as int * 100_000_000_000 * 100_000_000_000;
            assert((0 <= t as int * (t as int)) && (t as int * (t as int) <= bb))
                by (nonlinear_arith)
                requires
                    bb == 4 * n as int * n as int * 100_000_000_000 * 100_000_000_000,
                    -(2 * n as int * 100_000_000_000) <= t as int,
                    t as int <= 2 * n as int * 100_000_000_000,
                    2 <= n as int <= 65536,
            ;
            assert(bb <= 4 * 65536 * 65536 * 100_000_000_000 * 100_000_000_000)
                by (nonlinear_arith)
                requires
                    bb == 4 * n as int * n as int * 100_000_000_000 * 100_000_000_000,
                    2 <= n as int <= 65536,
            ;
        }
        let sq: i128 = t * t;
        proof {
            let bb: int = 4 * n as int * n as int * 100_000_000_000 * 100_000_000_000;
            assert(((j + 1 - lo) as int * bb == (j - lo) as int * bb + bb) && ((j + 1
                - lo) as int * bb <= n as int * bb) && (n as int * bb <= 65536 * (4 * 65536
                * 65536 * 100_000_000_000 * 100_000_000_000))) by (nonlinear_arith)
                requires
                    bb == 4 * n as int * n as int * 100_000_000_000 * 100_000_000_000,
                    lo <= j,
                    (j + 1 - lo) as int <= n as int,
                    2 <= n as int <= 65536,
            ;
        }
        d = d + sq;
        j = j + 1;
    }
    d
}

/// Band statistics of one complete window: the floored mean, the floored
/// sample standard deviation, and the upper and lower bands, as
/// `(ma, sd, bolu, bold)`. A window of fewer than two samples has no
/// sample variance and is rejected with `DegenerateWindow`.
pub fn compute_window(window: &Vec<i64>, m: i64) -> (res: Result<(i64, i64, i64, i64),
    BandError>)
    requires
        window@.len() <= MAX_WINDOW,
        valid_prices(window@),
        0 <= m <= MULT_LIMIT,
    ensures
        window@.len() < 2 ==> res == Result::<(i64, i64, i64, i64), BandError>::Err(
            BandError::DegenerateWindow { len: window@.len() as usize },
        ),
        window@.len() >= 2 ==> (res matches Ok(t) && band_stats_ok(t, window@, m as int)),
{
    let n = window.len();
    if n < 2 {
        return Err(BandError::DegenerateWindow { len: n });
    }
    proof {
        assert(window@.subrange(0, window@.len() as int) =~= window@);
    }
    let total: i128 = sum_range(window, 0, n);
    let dev: i128 = dev_sq_range(window, 0, n, total);
    proof {
        lemma_dev_sq_seq_nonneg(window@, total as int, n as int);
        assert(n as int * (n as int) <= 65536 * 65536 && 1 <= n as int * (n as int) <= n
            as int * (n as int) * (n as int - 1) && n as int * (n as int) * (n as int - 1)
            <= 65536 * 65536 * 65535) by (nonlinear_arith)
            requires
                2 <= n as int <= 65536,
        ;
    }
    let den: u128 = (n as u128) * (n as u128) * ((n - 1) as u128);
    let var: u128 = (dev as u128) / den;
    proof {
        // var is the floored sample variance, and is small enough for isqrt.
        lemma_div_is_ordered_by_denominator(dev as int, n as int * (n as int), den as int);
        lemma_div_is_ordered(
            dev as int,
            n as int * (4 * n as int * n as int * PRICE_LIMIT as int * PRICE_LIMIT as int),
            n as int * (n as int),
        );
        assert(n as int * (4 * n as int * n as int * PRICE_LIMIT as int * PRICE_LIMIT
            as int) == n as int * (n as int) * (4 * n as int * PRICE_LIMIT as int
            * PRICE_LIMIT as int)) by (nonlinear_arith);
        lemma_div_multiples_vanish(
            4 * n as int * PRICE_LIMIT as int * PRICE_LIMIT as int,
            n as int * (n as int),
        );
        assert(4 * n as int * PRICE_LIMIT as int * PRICE_LIMIT as int <= 4 * 65536
            * 100_000_000_000 * 100_000_000_000) by (nonlinear_arith)
            requires
                n as int <= 65536,
        ;
        assert(var as int == window_var_floor(window@));
    }
    let sd_u: u64 = isqrt(var);
    proof {
        assert(sd_u as int <= 51_200_000_000_000) by (nonlinear_arith)
            requires
                0 <= sd_u as int,
                sd_u as int * (sd_u as int) <= var as int,
                var as int <= 4 * 65536 * 100_000_000_000 * 100_000_000_000,
        ;
    }
    let sd: i64 = sd_u as i64;
    proof {
        lemma_div_is_ordered(-(n as int * PRICE_LIMIT as int), total as int, n as int);
        lemma_div_is_ordered(total as int, n as int * PRICE_LIMIT as int, n as int);
        lemma_div_multiples_vanish(PRICE_LIMIT as int, n as int);
        lemma_div_multiples_vanish(-PRICE_LIMIT as int, n as int);
        assert(-(n as int * PRICE_LIMIT as int) == n as int * (-PRICE_LIMIT as int))
            by (nonlinear_arith);
    }
    let ma128: i128 = floor_div_i128(total, n as i128);
    let ma: i64 = ma128 as i64;
    proof {
        assert(m as int * (sd_u as int) <= 1_000_000 * 51_200_000_000_000 && 0 <= m as int
            * (sd_u as int)) by (nonlinear_arith)
            requires
                0 <= m as int <= 1_000_000,
                0 <= sd_u as int <= 51_200_000_000_000,
        ;
        lemma_div_is_ordered(m as int * (sd_u as int), (1_000_000 * 51_200_000_000_000) as int, 1000);
        lemma_div_pos_is_pos(m as int * (sd_u as int), 1000);
    }
    let off_u: u128 = (m as u128) * (sd_u as u128) / (MULT_SCALE as u128);
    let off: i64 = off_u as i64;
    let bolu: i64 = ma + off;
    let bold: i64 = ma - off;
    Ok((ma, sd, bolu, bold))
}

/// `b` is the Band Record of the trailing window of `prices` of width `w`
/// ending at index `end`: it carries the timestamp of the window's last
/// sample, the window size, the multiplier, and the band statistics of
/// exactly that window.
pub open spec fn is_band_record(
    b: BollingerBands,
    prices: Seq<i64>,
    times: Seq<u64>,
    end: int,
    w: int,
    m: int,
) -> bool {
    let win = prices.subrange(end + 1 - w, end + 1);
    &&& b.time == times[end]
    &&& b.n as int == w
    &&& b.m as int == m
    &&& b.ma as int == window_mean(win)
    &&& is_sqrt_floor(b.sd as int, window_var_floor(win))
    &&& b.bolu as int == b.ma as int + band_offset(m, b.sd as int)
    &&& b.bold as int == b.ma as int - band_offset(m, b.sd as int)
}

/// The rolling output for window size `w`, multiplier `m` and the given
/// padding mode: in padded mode `w - 1` leading `None` markers keep the
/// output aligned with the input, in compact mode only the complete
/// windows appear; either way entry `pad + i` is the Band Record of the
/// window ending at input index `w - 1 + i`.
pub open spec fn rolling_output_ok(
    out: Seq<Option<BollingerBands>>,
    prices: Seq<i64>,
    times: Seq<u64>,
    w: int,
    m: int,
    mode: PadMode,
) -> bool {
    let pad: int = if mode == PadMode::Padded {
        w - 1
    } else {
        0
    };
    &&& out.len() == pad + prices.len() - w + 1
    &&& forall|i: int| 0 <= i < pad ==> (#[trigger] out[i]) is None
    &&& forall|i: int|
        pad <= i < out.len() ==> ((#[trigger] out[i]) matches Some(b) && is_band_record(
            b,
            prices,
            times,
            i - pad + w - 1,
            w,
            m,
        ))
}

/// Copy of `v[lo..hi]`.
fn copy_range(v: &Vec<i64>, lo: usize, hi: usize) -> (w: Vec<i64>)
    requires
        lo <= hi <= v@.len(),
    ensures
        w@ == v@.subrange(lo as int, hi as int),
{
    let mut w: Vec<i64> = Vec::new();
    let mut j: usize = lo;
    while j < hi
        invariant
            lo <= j <= hi <= v@.len(),
            w@ == v@.subrange(lo as int, j as int),
        decreases hi - j,
    {
        w.push(v[j]);
        proof {
            assert(w@ =~= v@.subrange(lo as int, j as int + 1));
        }
        j = j + 1;
    }
    w
}

/// The rolling band computation: one Band Record per trailing window of
/// `window_size` prices, stamped with the timestamp of the window's last
/// sample. Rejects, in this order: price and timestamp sequences of
/// different lengths; an input shorter than the window; a window of fewer
/// than two samples. In `Padded` mode the output is padded to the input
/// length with `window_size - 1` leading `None` markers; in `Compact`
/// mode it holds exactly the `len - window_size + 1` complete windows.
pub fn rolling_bands(
    prices: &Vec<i64>,
    times: &Vec<u64>,
    window_size: usize,
    m: i64,
    mode: PadMode,
) -> (res: Result<Vec<Option<BollingerBands>>, BandError>)
    requires
        window_size <= MAX_WINDOW,
        valid_prices(prices@),
        0 <= m <= MULT_LIMIT,
    ensures
        prices@.len() != times@.len() ==> (res matches Err(e) && e == (
        BandError::MismatchedLength {
            prices_len: prices@.len() as usize,
            times_len: times@.len() as usize,
        })),
        prices@.len() == times@.len() && prices@.len() < window_size ==> (res matches Err(e)
            && e == (BandError::InsufficientData {
            required: window_size,
            actual: prices@.len() as usize,
        })),
        prices@.len() == times@.len() && prices@.len() >= window_size && window_size < 2
            ==> (res matches Err(e) && e == (BandError::DegenerateWindow {
            len: window_size,
        })),
        prices@.len() == times@.len() && prices@.len() >= window_size && window_size >= 2
            ==> (res matches Ok(out) && rolling_output_ok(
            out@,
            prices@,
            times@,
            window_size as int,
            m as int,
            mode,
        )),
{
    let plen = prices.len();
    let tlen = times.len();
    if plen != tlen {
        return Err(BandError::MismatchedLength { prices_len: plen, times_len: tlen });
    }
    if plen < window_size {
        return Err(BandError::InsufficientData { required: window_size, actual: plen });
    }
    if window_size < 2 {
        return Err(BandError::DegenerateWindow { len: window_size });
    }
    let pad: usize = if mode == PadMode::Padded {
        window_size - 1
    } else {
        0
    };
    let mut out: Vec<Option<BollingerBands>> = Vec::new();
    let mut k: usize = 0;
    while k < pad
        invariant
            k <= pad,
            out@.len() == k as int,
            forall|i: int| 0 <= i < out@.len() ==> (#[trigger] out@[i]) is None,
        decreases pad - k,
    {
        out.push(None);
        k = k + 1;
    }
    let mut end: usize = window_size - 1;
    while end < plen
        invariant
            window_size - 1 <= end <= plen,
            2 <= window_size <= MAX_WINDOW,
            plen == prices@.len(),
            tlen == times@.len(),
            plen == tlen,
            window_size <= plen,
            valid_prices(prices@),
            0 <= m <= MULT_LIMIT,
            pad == (if mode == PadMode::Padded {
                window_size - 1
            } else {
                0
            }),
            out@.len() == pad + (end - (window_size - 1)),
            forall|i: int| 0 <= i < pad ==> (#[trigger] out@[i]) is None,
            forall|i: int|
                pad <= i < out@.len() ==> ((#[trigger] out@[i]) matches Some(b)
                    && is_band_record(
                    b,
                    prices@,
                    times@,
                    i - pad + window_size - 1,
                    window_size as int,
                    m as int,
                )),
        decreases plen - end,
    {
        let lo = end + 1 - window_size;
        let win: Vec<i64> = copy_range(prices, lo, end + 1);
        proof {
            assert(forall|i: int| 0 <= i < win@.len() ==> -PRICE_LIMIT <= (#[trigger] win@[i])
                <= PRICE_LIMIT) by {
                assert(forall|i: int| 0 <= i < win@.len() ==> win@[i] == prices@[lo + i]);
            }
        }
        let t = times[end];
        match compute_window(&win, m) {
            Ok((ma, sd, bolu, bold)) => {
                let rec = BollingerBands {
                    time: t,
                    bolu: bolu,
                    bold: bold,
                    ma: ma,
                    n: window_size as u32,
                    m: m,
                    sd: sd,
                };
                out.push(Some(rec));
            },
            Err(e) => {
                proof {
                    assert(false);
                }
                return Err(e);
            },
        }
        end = end + 1;
    }
    Ok(out)
}

/// The floored sample standard deviation of a window: the floor square
/// root of the floored sample variance.
pub open spec fn window_sd(w: Seq<i64>) -> int {
    choose|r: int| #[trigger] is_sqrt_floor(r, window_var_floor(w))
}

/// A window of at least two samples has a well-defined floored standard
/// deviation: `window_sd` really is the floor square root of the floored
/// sample variance.
pub proof fn lemma_window_sd(w: Seq<i64>)
    requires
        2 <= w.len(),
    ensures
        is_sqrt_floor(window_sd(w), window_var_floor(w)),
{
    lemma_dev_sq_seq_nonneg(w, sum_seq(w), w.len() as int);
    assert(1 <= w.len() as int * (w.len() as int) * (w.len() as int - 1)) by (nonlinear_arith)
        requires
            2 <= w.len() as int,
    ;
    lemma_div_pos_is_pos(
        dev_sq_seq(w, sum_seq(w), w.len() as int),
        w.len() as int * (w.len() as int) * (w.len() as int - 1),
    );
    lemma_sqrt_floor_exists(window_var_floor(w));
}

/// `p` is the `(bolu, bold)` band pair of the trailing window of `prices`
/// of width `w` ending at index `end`, with multiplier `m`.
pub open spec fn is_band_pair(p: (i64, i64), prices: Seq<i64>, end: int, w: int, m: int) -> bool {
    let win = prices.subrange(end + 1 - w, end + 1);
    &&& p.0 as int == window_mean(win) + band_offset(m, window_sd(win))
    &&& p.1 as int == window_mean(win) - band_offset(m, window_sd(win))
}

/// `t` is the `(ma, bolu, bold)` triple of the trailing window of
/// `prices` of width `w` ending at index `end`, with multiplier `m`.
pub open spec fn is_band_triple(t: (i64, i64, i64), prices: Seq<i64>, end: int, w: int, m: int) -> bool {
    let win = prices.subrange(end + 1 - w, end + 1);
    &&& t.0 as int == window_mean(win)
    &&& t.1 as int == window_mean(win) + band_offset(m, window_sd(win))
    &&& t.2 as int == window_mean(win) - band_offset(m, window_sd(win))
}

/// Upper and lower band of a single whole-input window, as
/// `(bolu, bold)`, with the default multiplier of 2.0 standard
/// deviations.
pub fn simplest_bb(tp_window: &Vec<i64>) -> (res: Result<(i64, i64), BandError>)
    requires
        tp_window@.len() <= MAX_WINDOW,
        valid_prices(tp_window@),
    ensures
        tp_window@.len() < 2 ==> (res matches Err(e) && e == (BandError::DegenerateWindow {
            len: tp_window@.len() as usize,
        })),
        tp_window@.len() >= 2 ==> (res matches Ok(p) && is_band_pair(
            p,
            tp_window@,
            tp_window@.len() - 1,
            tp_window@.len() as int,
            DEFAULT_MULT as int,
        )),
{
    match compute_window(tp_window, DEFAULT_MULT) {
        Ok((ma, sd, bolu, bold)) => {
            proof {
                assert(tp_window@.subrange(0, tp_window@.len() as int) =~= tp_window@);
                lemma_window_sd(tp_window@);
                lemma_sqrt_floor_unique(
                    sd as int,
                    window_sd(tp_window@),
                    window_var_floor(tp_window@),
                );
            }
            Ok((bolu, bold))
        },
        Err(e) => Err(e),
    }
}

/// Like `simplest_bb`, but also reports the moving average:
/// `(ma, bolu, bold)`.
pub fn simplest_bb_with_mean(tp_window: &Vec<i64>) -> (res: Result<(i64, i64, i64), BandError>)
    requires
        tp_window@.len() <= MAX_WINDOW,
        valid_prices(tp_window@),
    ensures
        tp_window@.len() < 2 ==> (res matches Err(e) && e == (BandError::DegenerateWindow {
            len: tp_window@.len() as usize,
        })),
        tp_window@.len() >= 2 ==> (res matches Ok(t) && is_band_triple(
            t,
            tp_window@,
            tp_window@.len() - 1,
            tp_window@.len() as int,
            DEFAULT_MULT as int,
        )),
{
    match compute_window(tp_window, DEFAULT_MULT) {
        Ok((ma, sd, bolu, bold)) => {
            proof {
                assert(tp_window@.subrange(0, tp_window@.len() as int) =~= tp_window@);
                lemma_window_sd(tp_window@);
                lemma_sqrt_floor_unique(
                    sd as int,
                    window_sd(tp_window@),
                    window_var_floor(tp_window@),
                );
            }
            Ok((ma, bolu, bold))
        },
        Err(e) => Err(e),
    }
}

/// Rolling band statistics over trailing windows of `window_size`
/// prices, padded with `None` until the first complete window.
fn rolling_stats(tp: &Vec<i64>, window_size: usize, m: i64) -> (res: Result<
    Vec<Option<(i64, i64, i64, i64)>>,
    BandError,
>)
    requires
        2 <= window_size <= MAX_WINDOW,
        valid_prices(tp@),
        0 <= m <= MULT_LIMIT,
    ensures
        tp@.len() < window_size ==> (res matches Err(e) && e == (BandError::InsufficientData {
            required: window_size,
            actual: tp@.len() as usize,
        })),
        tp@.len() >= window_size ==> (res matches Ok(v) && v@.len() == tp@.len() && (forall|
            i: int,
        |
            0 <= i < window_size - 1 ==> (#[trigger] v@[i]) is None) && (forall|i: int|
            window_size - 1 <= i < v@.len() ==> ((#[trigger] v@[i]) matches Some(t)
                && band_stats_ok(t, tp@.subrange(i + 1 - window_size, i + 1), m as int)))),
{
    let plen = tp.len();
    if plen < window_size {
        return Err(BandError::InsufficientData { required: window_size, actual: plen });
    }
    let mut out: Vec<Option<(i64, i64, i64, i64)>> = Vec::new();
    let pad: usize = window_size - 1;
    let mut k: usize = 0;
    while k < pad
        invariant
            k <= pad,
            out@.len() == k as int,
            forall|i: int| 0 <= i < out@.len() ==> (#[trigger] out@[i]) is None,
        decreases pad - k,
    {
        out.push(None);
        k = k + 1;
    }
    let mut end: usize = window_size - 1;
    while end < plen
        invariant
            window_size - 1 <= end <= plen,
            2 <= window_size <= MAX_WINDOW,
            plen == tp@.len(),
            window_size <= plen,
            valid_prices(tp@),
            0 <= m <= MULT_LIMIT,
            out@.len() == end as int,
            forall|i: int| 0 <= i < window_size - 1 ==> (#[trigger] out@[i]) is None,
            forall|i: int|
                window_size - 1 <= i < out@.len() ==> ((#[trigger] out@[i]) matches Some(t)
                    && band_stats_ok(t, tp@.subrange(i + 1 - window_size, i + 1), m as int)),
        decreases plen - end,
    {
        let lo = end + 1 - window_size;
        let win: Vec<i64> = copy_range(tp, lo, end + 1);
        proof {
            assert(forall|i: int| 0 <= i < win@.len() ==> -PRICE_LIMIT <= (#[trigger] win@[i])
                <= PRICE_LIMIT) by {
                assert(forall|i: int| 0 <= i < win@.len() ==> win@[i] == tp@[lo + i]);
            }
        }
        match compute_window(&win, m) {
            Ok(t) => {
                out.push(Some(t));
            },
            Err(e) => {
                proof {
                    assert(false);
                }
                return Err(e);
            },
        }
        end = end + 1;
    }
    Ok(out)
}

/// Rolling `(bolu, bold)` pairs with the default window of twenty
/// samples and multiplier 2.0, padded with `None` until the first
/// complete window so the output aligns with the input.
pub fn semi_rolling_bb(tp_array: &Vec<i64>) -> (res: Result<Vec<Option<(i64, i64)>>, BandError>)
    requires
        valid_prices(tp_array@),
    ensures
        tp_array@.len() < DEFAULT_WINDOW ==> (res matches Err(e) && e == (
        BandError::InsufficientData {
            required: DEFAULT_WINDOW,
            actual: tp_array@.len() as usize,
        })),
        tp_array@.len() >= DEFAULT_WINDOW ==> (res matches Ok(v) && v@.len() == tp_array@.len()
            && (forall|i: int|
            0 <= i < DEFAULT_WINDOW - 1 ==> (#[trigger] v@[i]) is None) && (forall|i: int|
            DEFAULT_WINDOW - 1 <= i < v@.len() ==> ((#[trigger] v@[i]) matches Some(p)
                && is_band_pair(p, tp_array@, i, DEFAULT_WINDOW as int, DEFAULT_MULT as int)))),
{
    match rolling_stats(tp_array, DEFAULT_WINDOW, DEFAULT_MULT) {
        Ok(stats) => {
            let mut v: Vec<Option<(i64, i64)>> = Vec::new();
            let mut i: usize = 0;
            while i < stats.len()
                invariant
                    i <= stats@.len(),
                    v@.len() == i as int,
                    stats@.len() == tp_array@.len(),
                    DEFAULT_WINDOW <= tp_array@.len(),
                    forall|j: int|
                        0 <= j < DEFAULT_WINDOW - 1 ==> (#[trigger] stats@[j]) is None,
                    forall|j: int|
                        DEFAULT_WINDOW - 1 <= j < stats@.len() ==> ((#[trigger] stats@[j])
                            matches Some(t) && band_stats_ok(
                            t,
                            tp_array@.subrange(j + 1 - DEFAULT_WINDOW, j + 1),
                            DEFAULT_MULT as int,
                        )),
                    forall|j: int| 0 <= j < i && j < DEFAULT_WINDOW - 1 ==> (#[trigger] v@[j])
                        is None,
                    forall|j: int|
                        DEFAULT_WINDOW - 1 <= j < i ==> ((#[trigger] v@[j]) matches Some(p)
                            && is_band_pair(
                            p,
                            tp_array@,
                            j,
                            DEFAULT_WINDOW as int,
                            DEFAULT_MULT as int,
                        )),
                decreases stats@.len() - i,
            {
                match stats[i] {
                    Some(t) => {
                        proof {
                            let win = tp_array@.subrange(
                                i + 1 - DEFAULT_WINDOW as int,
                                i as int + 1,
                            );
                            lemma_window_sd(win);
                            lemma_sqrt_floor_unique(
                                t.1 as int,
                                window_sd(win),
                                window_var_floor(win),
                            );
                        }
                        v.push(Some((t.2, t.3)));
                    },
                    None => {
                        v.push(None);
                    },
                }
                i = i + 1;
            }
            Ok(v)
        },
        Err(e) => Err(e),
    }
}

/// Like `semi_rolling_bb`, but each entry also reports the moving
/// average: `(ma, bolu, bold)`.
pub fn semi_rolling_bb_with_mean(tp_array: &Vec<i64>) -> (res: Result<
    Vec<Option<(i64, i64, i64)>>,
    BandError,
>)
    requires
        valid_prices(tp_array@),
    ensures
        tp_array@.len() < DEFAULT_WINDOW ==> (res matches Err(e) && e == (
        BandError::InsufficientData {
            required: DEFAULT_WINDOW,
            actual: tp_array@.len() as usize,
        })),
        tp_array@.len() >= DEFAULT_WINDOW ==> (res matches Ok(v) && v@.len() == tp_array@.len()
            && (forall|i: int|
            0 <= i < DEFAULT_WINDOW - 1 ==> (#[trigger] v@[i]) is None) && (forall|i: int|
            DEFAULT_WINDOW - 1 <= i < v@.len() ==> ((#[trigger] v@[i]) matches Some(t)
                && is_band_triple(t, tp_array@, i, DEFAULT_WINDOW as int, DEFAULT_MULT as int)))),
{
    match rolling_stats(tp_array, DEFAULT_WINDOW, DEFAULT_MULT) {
        Ok(stats) => {
            let mut v: Vec<Option<(i64, i64, i64)>> = Vec::new();
            let mut i: usize = 0;
            while i < stats.len()
                invariant
                    i <= stats@.len(),
                    v@.len() == i as int,
                    stats@.len() == tp_array@.len(),
                    DEFAULT_WINDOW <= tp_array@.len(),
                    forall|j: int|
                        0 <= j < DEFAULT_WINDOW - 1 ==> (#[trigger] stats@[j]) is None,
                    forall|j: int|
                        DEFAULT_WINDOW - 1 <= j < stats@.len() ==> ((#[trigger] stats@[j])
                            matches Some(t) && band_stats_ok(
                            t,
                            tp_array@.subrange(j + 1 - DEFAULT_WINDOW, j + 1),
                            DEFAULT_MULT as int,
                        )),
                    forall|j: int| 0 <= j < i && j < DEFAULT_WINDOW - 1 ==> (#[trigger] v@[j])
                        is None,
                    forall|j: int|
                        DEFAULT_WINDOW - 1 <= j < i ==> ((#[trigger] v@[j]) matches Some(t)
                            && is_band_triple(
                            t,
                            tp_array@,
                            j,
                            DEFAULT_WINDOW as int,
                            DEFAULT_MULT as int,
                        )),
                decreases stats@.len() - i,
            {
                match stats[i] {
                    Some(t) => {
                        proof {
                            let win = tp_array@.subrange(
                                i + 1 - DEFAULT_WINDOW as int,
                                i as int + 1,
                            );
                            lemma_window_sd(win);
                            lemma_sqrt_floor_unique(
                                t.1 as int,
                                window_sd(win),
                                window_var_floor(win),
                            );
                        }
                        v.push(Some((t.0, t.2, t.3)));
                    },
                    None => {
                        v.push(None);
                    },
                }
                i = i + 1;
            }
            Ok(v)
        },
        Err(e) => Err(e),
    }
}

impl BollingerBands {
    /// One Band Record computed from a whole array: the window is the
    /// entire input, `n` is its length, `time` the last timestamp, and
    /// the multiplier is the default 2.0.
    pub fn from_tp(data_array: &Vec<i64>, time_array: &Vec<u64>) -> (res: Result<
        BollingerBands,
        BandError,
    >)
        requires
            data_array@.len() <= MAX_WINDOW,
            valid_prices(data_array@),
        ensures
            data_array@.len() != time_array@.len() ==> (res matches Err(e) && e == (
            BandError::MismatchedLength {
                prices_len: data_array@.len() as usize,
                times_len: time_array@.len() as usize,
            })),
            data_array@.len() == time_array@.len() && data_array@.len() < 2 ==> (res matches Err(
                e,
            ) && e == (BandError::DegenerateWindow { len: data_array@.len() as usize })),
            data_array@.len() == time_array@.len() && data_array@.len() >= 2 ==> (res matches Ok(
                b,
            ) && is_band_record(
                b,
                data_array@,
                time_array@,
                data_array@.len() - 1,
                data_array@.len() as int,
                DEFAULT_MULT as int,
            )),
    {
        let n = data_array.len();
        if n != time_array.len() {
            return Err(BandError::MismatchedLength {
                prices_len: n,
                times_len: time_array.len(),
            });
        }
        if n < 2 {
            return Err(BandError::DegenerateWindow { len: n });
        }
        let t = time_array[n - 1];
        match compute_window(data_array, DEFAULT_MULT) {
            Ok((ma, sd, bolu, bold)) => {
                proof {
                    assert(data_array@.subrange(0, data_array@.len() as int) =~= data_array@);
                }
                Ok(BollingerBands {
                    time: t,
                    bolu: bolu,
                    bold: bold,
                    ma: ma,
                    n: n as u32,
                    m: DEFAULT_MULT,
                    sd: sd,
                })
            },
            Err(e) => {
                proof {
                    assert(false);
                }
                Err(e)
            },
        }
    }
}

impl Default for BollingerBands {
    /// The neutral record: zero statistics with the default window size
    /// and multiplier.
    fn default() -> (b: BollingerBands)
        ensures
            b == (BollingerBands {
                time: 0,
                bolu: 0,
                bold: 0,
                ma: 0,
                n: DEFAULT_WINDOW as u32,
                m: DEFAULT_MULT,
                sd: 0,
            }),
    {
        BollingerBands {
            time: 0,
            bolu: 0,
            bold: 0,
            ma: 0,
            n: DEFAULT_WINDOW as u32,
            m: DEFAULT_MULT,
            sd: 0,
        }
    }
}

/// Rolling Band Records with the default window of twenty samples and
/// multiplier 2.0, one per complete window, in window order.
pub fn get_band_vec(tp_array: &Vec<i64>, time_array: &Vec<u64>) -> (res: Result<
    Vec<BollingerBands>,
    BandError,
>)
    requires
        valid_prices(tp_array@),
    ensures
        tp_array@.len() != time_array@.len() ==> (res matches Err(e) && e == (
        BandError::MismatchedLength {
            prices_len: tp_array@.len() as usize,
            times_len: time_array@.len() as usize,
        })),
        tp_array@.len() == time_array@.len() && tp_array@.len() < DEFAULT_WINDOW ==> (res
            matches Err(e) && e == (BandError::InsufficientData {
            required: DEFAULT_WINDOW,
            actual: tp_array@.len() as usize,
        })),
        tp_array@.len() == time_array@.len() && tp_array@.len() >= DEFAULT_WINDOW ==> (res
            matches Ok(v) && v@.len() == tp_array@.len() - DEFAULT_WINDOW + 1 && (forall|i: int|
            0 <= i < v@.len() ==> is_band_record(
                #[trigger] v@[i],
                tp_array@,
                time_array@,
                DEFAULT_WINDOW - 1 + i,
                DEFAULT_WINDOW as int,
                DEFAULT_MULT as int,
            ))),
{
    match rolling_bands(tp_array, time_array, DEFAULT_WINDOW, DEFAULT_MULT, PadMode::Compact) {
        Ok(opts) => {
            let mut v: Vec<BollingerBands> = Vec::new();
            let mut i: usize = 0;
            while i < opts.len()
                invariant
                    i <= opts@.len(),
                    v@.len() == i as int,
                    rolling_output_ok(
                        opts@,
                        tp_array@,
                        time_array@,
                        DEFAULT_WINDOW as int,
                        DEFAULT_MULT as int,
                        PadMode::Compact,
                    ),
                    forall|j: int|
                        0 <= j < i ==> is_band_record(
                            #[trigger] v@[j],
                            tp_array@,
                            time_array@,
                            DEFAULT_WINDOW - 1 + j,
                            DEFAULT_WINDOW as int,
                            DEFAULT_MULT as int,
                        ),
                decreases opts@.len() - i,
            {
                match opts[i] {
                    Some(b) => {
                        v.push(b);
                    },
                    None => {
                        proof {
                            assert(false);
                        }
                    },
                }
                i = i + 1;
            }
            Ok(v)
        },
        Err(e) => Err(e),
    }
}

/// Band ordering: a Band Record's lower band never exceeds its moving
/// average, which never exceeds its upper band, whenever the multiplier
/// is nonnegative.
pub proof fn lemma_band_ordering(
    b: BollingerBands,
    prices: Seq<i64>,
    times: Seq<u64>,
    end: int,
    w: int,
    m: int,
)
    requires
        is_band_record(b, prices, times, end, w, m),
        0 <= m,
    ensures
        b.bold <= b.ma <= b.bolu,
{
    assert(0 <= m * (b.sd as int)) by (nonlinear_arith)
        requires
            0 <= m,
            0 <= b.sd as int,
    ;
    lemma_div_pos_is_pos(m * (b.sd as int), MULT_SCALE as int);
}

/// Constant input: if every price in a Band Record's window equals `c`,
/// then the moving average is exactly `c`, the standard deviation is
/// zero, and both bands collapse onto `c`.
pub proof fn lemma_constant_window(
    b: BollingerBands,
    prices: Seq<i64>,
    times: Seq<u64>,
    end: int,
    w: int,
    m: int,
    c: i64,
)
    requires
        is_band_record(b, prices, times, end, w, m),
        2 <= w,
        0 <= end + 1 - w,
        end < prices.len(),
        forall|j: int| end + 1 - w <= j <= end ==> (#[trigger] prices[j]) == c,
    ensures
        b.ma == c,
        b.sd == 0,
        b.bolu == c,
        b.bold == c,
{
    let win = prices.subrange(end + 1 - w, end + 1);
    assert(forall|i: int| 0 <= i < win.len() ==> (#[trigger] win[i]) == c) by {
        assert(forall|i: int| 0 <= i < win.len() ==> win[i] == prices[end + 1 - w + i]);
    }
    lemma_sum_seq_const(win, c as int);
    assert(sum_seq(win) == w * (c as int));
    lemma_div_multiples_vanish(c as int, w);
    assert(b.ma as int == c as int);
    lemma_dev_sq_seq_const(win, c as int, sum_seq(win), w);
    assert(dev_sq_seq(win, sum_seq(win), win.len() as int) == 0);
    assert(1 <= w * w * (w - 1)) by (nonlinear_arith)
        requires
            2 <= w,
    ;
    lemma_div_basics(w * w * (w - 1));
    assert(window_var_floor(win) == 0);
    assert(b.sd as int == 0) by (nonlinear_arith)
        requires
            0 <= b.sd as int,
            b.sd as int * (b.sd as int) <= 0,
    ;
    assert(m * 0 == 0) by (nonlinear_arith);
    lemma_div_basics(MULT_SCALE as int);
    assert(band_offset(m, 0) == 0);
}

} // verus!
