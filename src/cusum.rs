use vstd::prelude::*;

verus! {

/// Options of the CUSUM filter.
pub struct CusumKwargs {
    pub threshold: i64,
}

/// Running sums of rises and of falls after one more difference, and the event
/// it raises: `-1` when the sum of falls drops below `-threshold`, else `1` when
/// the sum of rises exceeds `threshold`, else `0`. The sum that raised the event
/// starts again from zero; a missing difference changes nothing.
pub open spec fn cusum_step(s_pos: int, s_neg: int, v: Option<i64>, threshold: int) -> (int, int, i8) {
    match v {
        None => (s_pos, s_neg, 0i8),
        Some(v) => {
            let p = if s_pos + v > 0 {
                s_pos + v
            } else {
                0
            };
            let q = if s_neg + v < 0 {
                s_neg + v
            } else {
                0
            };
            if q < -threshold {
                (p, 0, -1i8)
            } else if p > threshold {
                (0, q, 1i8)
            } else {
                (p, q, 0i8)
            }
        },
    }
}

/// Running sums of rises and falls after the differences `diffs`.
pub open spec fn cusum_state(diffs: Seq<Option<i64>>, threshold: int) -> (int, int)
    decreases diffs.len(),
{
    if diffs.len() == 0 {
        (0, 0)
    } else {
        let (p, q) = cusum_state(diffs.drop_last(), threshold);
        let (next_pos, next_neg, _) = cusum_step(p, q, diffs.last(), threshold);
        (next_pos, next_neg)
    }
}

/// Symmetric CUSUM events of a series of differences, one per row.
pub fn calculate_cusum_filter(diff_series: &Vec<Option<i64>>, threshold: i64) -> (r: Vec<i8>)
    ensures
        r@.len() == diff_series@.len(),
        forall|k: int|
            0 <= k < diff_series@.len() ==> r@[k] == cusum_step(
                cusum_state(#[trigger] diff_series@.take(k), threshold as int).0,
                cusum_state(diff_series@.take(k), threshold as int).1,
                diff_series@[k],
                threshold as int,
            ).2,
{
    let n = diff_series.len();
    let mut out: Vec<i8> = Vec::with_capacity(n);
    let mut s_pos: i128 = 0;
    let mut s_neg: i128 = 0;
    let t = threshold as i128;
    let mut k: usize = 0;
    assert(diff_series@.take(0) =~= Seq::<Option<i64>>::empty());
    while k < n
        invariant
            0 <= k <= n,
            n == diff_series@.len(),
            t == threshold as int,
            out@.len() == k,
            cusum_state(diff_series@.take(k as int), threshold as int) == (s_pos as int, s_neg as int),
            0 <= s_pos <= k * 0x8000_0000_0000_0000,
            -(k * 0x8000_0000_0000_0000) <= s_neg <= 0,
            forall|j: int|
                0 <= j < k ==> out@[j] == cusum_step(
                    cusum_state(#[trigger] diff_series@.take(j), threshold as int).0,
                    cusum_state(diff_series@.take(j), threshold as int).1,
                    diff_series@[j],
                    threshold as int,
                ).2,
        decreases n - k,
    {
        assert(diff_series@.take(k + 1).drop_last() =~= diff_series@.take(k as int));
        assert(k < 0x1_0000_0000_0000_0000);
        let event: i8 = match diff_series[k] {
            None => 0,
            Some(v) => {
                let v = v as i128;
                s_pos = if s_pos + v > 0 {
                    s_pos + v
                } else {
                    0
                };
                s_neg = if s_neg + v < 0 {
                    s_neg + v
                } else {
                    0
                };
                if s_neg < -t {
                    s_neg = 0;
                    -1
                } else if s_pos > t {
                    s_pos = 0;
                    1
                } else {
                    0
                }
            },
        };
        out.push(event);
        k = k + 1;
    }
    out
}

/// The CUSUM filter with its options.
pub fn symmetric_cusum_filter(diff_series: &Vec<Option<i64>>, kwargs: CusumKwargs) -> (r: Vec<i8>)
    ensures
        r@.len() == diff_series@.len(),
        forall|k: int|
            0 <= k < diff_series@.len() ==> r@[k] == cusum_step(
                cusum_state(#[trigger] diff_series@.take(k), kwargs.threshold as int).0,
                cusum_state(diff_series@.take(k), kwargs.threshold as int).1,
                diff_series@[k],
                kwargs.threshold as int,
            ).2,
{
    calculate_cusum_filter(diff_series, kwargs.threshold)
}

} // verus!
