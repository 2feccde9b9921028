use vstd::arithmetic::div_mod::lemma_fundamental_div_mod_converse;
use vstd::prelude::*;

verus! {

/// Returns are fixed-point integers: a return of `r` stands for `r / RETURN_SCALE`.
pub const RETURN_SCALE: i128 = 100_000_000;

/// The outcome of scanning one price path.
pub struct TripleBarrierLabel {
    /// Path return at the touch index.
    pub ret: i128,
    /// `Some(1)` profit-take, `Some(-1)` stop-loss, `Some(0)` neutral expiry,
    /// `None` when the direction at expiry is inside the deadband.
    pub label: Option<i64>,
    /// Index on the path where the outcome was decided.
    pub barrier_touch: usize,
}

/// The return reaches the profit-take barrier, and is clear of the deadband.
pub open spec fn upper_hit(r: int, profit_taking: Option<i128>, min_return: Option<u64>) -> bool {
    match profit_taking {
        Some(pt) => r >= pt && match min_return {
            Some(m) => r >= m,
            None => true,
        },
        None => false,
    }
}

/// The return reaches the stop-loss barrier, and is clear of the deadband.
pub open spec fn lower_hit(r: int, stop_loss: Option<i128>, min_return: Option<u64>) -> bool {
    match stop_loss {
        Some(sl) => r <= sl && match min_return {
            Some(m) => r <= -m,
            None => true,
        },
        None => false,
    }
}

/// The return reaches either barrier.
pub open spec fn touched(
    r: int,
    profit_taking: Option<i128>,
    stop_loss: Option<i128>,
    min_return: Option<u64>,
) -> bool {
    upper_hit(r, profit_taking, min_return) || lower_hit(r, stop_loss, min_return)
}

/// Label on vertical expiry. With no deadband a zero return counts as positive.
pub open spec fn expiry_label(r: int, zero_vertical_barrier: bool, min_return: Option<u64>) -> Option<i64> {
    if zero_vertical_barrier {
        Some(0i64)
    } else {
        match min_return {
            Some(m) => if r > m {
                Some(1i64)
            } else if r < -m {
                Some(-1i64)
            } else {
                None
            },
            None => if r >= 0 {
                Some(1i64)
            } else {
                Some(-1i64)
            },
        }
    }
}

/// The label of the index where the scan stopped.
pub open spec fn label_at(
    r: int,
    profit_taking: Option<i128>,
    stop_loss: Option<i128>,
    zero_vertical_barrier: bool,
    min_return: Option<u64>,
) -> Option<i64> {
    if lower_hit(r, stop_loss, min_return) {
        Some(-1i64)
    } else if upper_hit(r, profit_taking, min_return) {
        Some(1i64)
    } else {
        expiry_label(r, zero_vertical_barrier, min_return)
    }
}

/// Index where a scan from `i` stops: the first touch, or the last index.
pub open spec fn first_touch_from(
    path: Seq<i128>,
    profit_taking: Option<i128>,
    stop_loss: Option<i128>,
    min_return: Option<u64>,
    i: int,
) -> int
    decreases path.len() - i,
{
    if i >= path.len() - 1 {
        path.len() - 1
    } else if touched(path[i] as int, profit_taking, stop_loss, min_return) {
        i
    } else {
        first_touch_from(path, profit_taking, stop_loss, min_return, i + 1)
    }
}

/// The label that scanning a non-empty path gives.
pub open spec fn scan_label(
    path: Seq<i128>,
    profit_taking: Option<i128>,
    stop_loss: Option<i128>,
    zero_vertical_barrier: bool,
    min_return: Option<u64>,
) -> TripleBarrierLabel {
    let k = first_touch_from(path, profit_taking, stop_loss, min_return, 0);
    TripleBarrierLabel {
        ret: path[k],
        label: label_at(path[k] as int, profit_taking, stop_loss, zero_vertical_barrier, min_return),
        barrier_touch: k as usize,
    }
}

fn is_upper_hit(r: i128, profit_taking: Option<i128>, min_return: Option<u64>) -> (b: bool)
    ensures
        b == upper_hit(r as int, profit_taking, min_return),
{
    match profit_taking {
        Some(pt) => r >= pt && match min_return {
            Some(m) => r >= m as i128,
            None => true,
        },
        None => false,
    }
}

fn is_lower_hit(r: i128, stop_loss: Option<i128>, min_return: Option<u64>) -> (b: bool)
    ensures
        b == lower_hit(r as int, stop_loss, min_return),
{
    match stop_loss {
        Some(sl) => r <= sl && match min_return {
            Some(m) => r <= -(m as i128),
            None => true,
        },
        None => false,
    }
}

/// Classifies a path of returns by the first barrier it touches.
///
/// The first index at which the return reaches either barrier decides; when both
/// barriers are reached at that index the stop-loss wins. A path that touches
/// neither expires at its last index.
pub fn get_label(
    path: &[i128],
    profit_taking: Option<i128>,
    stop_loss: Option<i128>,
    zero_vertical_barrier: bool,
    min_return: Option<u64>,
) -> (r: TripleBarrierLabel)
    requires
        path@.len() > 0,
    ensures
        r == scan_label(path@, profit_taking, stop_loss, zero_vertical_barrier, min_return),
        r.barrier_touch < path@.len(),
        r.ret == path@[r.barrier_touch as int],
        forall|j: int|
            0 <= j < r.barrier_touch ==> !touched(
                #[trigger] path@[j] as int,
                profit_taking,
                stop_loss,
                min_return,
            ),
        touched(r.ret as int, profit_taking, stop_loss, min_return) || r.barrier_touch
            == path@.len() - 1,
        r.label == label_at(
            r.ret as int,
            profit_taking,
            stop_loss,
            zero_vertical_barrier,
            min_return,
        ),
        // a path that never touches and ends inside the deadband has no direction
        (forall|j: int|
            0 <= j < path@.len() ==> !touched(
                #[trigger] path@[j] as int,
                profit_taking,
                stop_loss,
                min_return,
            )) ==> r.barrier_touch == path@.len() - 1 && match min_return {
            Some(m) => -m <= r.ret <= m ==> r.label == (if zero_vertical_barrier {
                Some(0i64)
            } else {
                None
            }),
            None => true,
        },
{
    let n = path.len();
    let mut i: usize = 0;
    while i < n
        invariant
            0 <= i <= n,
            n == path@.len(),
            forall|j: int|
                0 <= j < i ==> !touched(#[trigger] path@[j] as int, profit_taking, stop_loss, min_return),
            i < n ==> first_touch_from(path@, profit_taking, stop_loss, min_return, 0)
                == first_touch_from(path@, profit_taking, stop_loss, min_return, i as int),
            i == n ==> first_touch_from(path@, profit_taking, stop_loss, min_return, 0) == n - 1,
        decreases n - i,
    {
        let r = path[i];
        let lower = is_lower_hit(r, stop_loss, min_return);
        let upper = is_upper_hit(r, profit_taking, min_return);
        if lower {
            return TripleBarrierLabel { ret: r, label: Some(-1), barrier_touch: i };
        }
        if upper {
            return TripleBarrierLabel { ret: r, label: Some(1), barrier_touch: i };
        }
        i = i + 1;
    }
    let last = path[n - 1];
    let label = if zero_vertical_barrier {
        Some(0)
    } else {
        match min_return {
            Some(m) => if last > m as i128 {
                Some(1)
            } else if last < -(m as i128) {
                Some(-1)
            } else {
                None
            },
            None => if last >= 0 {
                Some(1)
            } else {
                Some(-1)
            },
        }
    };
    TripleBarrierLabel { ret: last, label, barrier_touch: n - 1 }
}

/// Return of price `p` relative to `base`, in units of `1 / RETURN_SCALE`, rounded down.
pub open spec fn path_return(p: int, base: int) -> int {
    (p - base) * RETURN_SCALE / base
}

/// Returns of each price of a window relative to the window's first price.
pub open spec fn returns_of(prices: Seq<u64>) -> Seq<i128> {
    Seq::new(prices.len(), |j: int| path_return(prices[j] as int, prices[0] as int) as i128)
}

/// `x / d` rounded down.
fn floor_div(x: i128, d: u128) -> (q: i128)
    requires
        d > 0,
    ensures
        q as int == x as int / d as int,
{
    if x >= 0 {
        let q = x as u128 / d;
        assert(q <= x as u128) by (nonlinear_arith)
            requires
                q == x as u128 / d,
                d > 0,
        ;
        q as i128
    } else {
        let m = if x == i128::MIN {
            0x8000_0000_0000_0000_0000_0000_0000_0000u128
        } else {
            (-x) as u128
        };
        assert(m as int == -(x as int));
        let q = m / d + if m % d == 0 {
            0u128
        } else {
            1u128
        };
        proof {
            let xi = m as int;
            let di = d as int;
            let q0 = xi / di;
            let r0 = xi % di;
            vstd::arithmetic::div_mod::lemma_fundamental_div_mod(xi, di);
            vstd::arithmetic::div_mod::lemma_mod_bound(xi, di);
            assert(q0 <= xi) by (nonlinear_arith)
                requires
                    xi == di * q0 + r0,
                    di > 0,
                    r0 >= 0,
                    q0 >= 0,
            ;
            if r0 == 0 {
                assert(-xi == (-q0) * di + 0) by (nonlinear_arith)
                    requires
                        xi == di * q0 + r0,
                        r0 == 0,
                ;
                lemma_fundamental_div_mod_converse(-xi, di, -q0, 0);
            } else {
                assert(q0 < xi) by (nonlinear_arith)
                    requires
                        xi == di * q0 + r0,
                        di > 0,
                        r0 > 0,
                        q0 >= 0,
                ;
                assert(-xi == (-(q0 + 1)) * di + (di - r0)) by (nonlinear_arith)
                    requires
                        xi == di * q0 + r0,
                ;
                lemma_fundamental_div_mod_converse(-xi, di, -(q0 + 1), di - r0);
            }
        }
        if q == 0x8000_0000_0000_0000_0000_0000_0000_0000u128 {
            i128::MIN
        } else {
            -(q as i128)
        }
    }
}

fn price_return(p: u64, base: u64) -> (r: i128)
    requires
        base > 0,
    ensures
        r as int == path_return(p as int, base as int),
{
    let d = p as i128 - base as i128;
    assert(-(u64::MAX as int) * 100_000_000 <= d * 100_000_000 <= u64::MAX as int * 100_000_000)
        by (nonlinear_arith)
        requires
            -(u64::MAX as int) <= d <= u64::MAX,
    ;
    floor_div(d * 100_000_000, base as u128)
}

/// A barrier scaled by a width, both fixed-point: `rate * width / RETURN_SCALE`,
/// rounded down; absent when the rate or the width is.
pub open spec fn scaled_barrier(rate: Option<i64>, width: Option<i64>) -> Option<i128> {
    match (rate, width) {
        (Some(r), Some(w)) => Some(((r * w) / (RETURN_SCALE as int)) as i128),
        _ => None,
    }
}

/// Per-row barriers from one rate and a per-row width (such as a volatility);
/// a row without a width gets no barrier.
pub fn horizontal_barriers(rate: Option<i64>, widths: &Vec<Option<i64>>) -> (r: Vec<Option<i128>>)
    ensures
        r@.len() == widths@.len(),
        forall|k: int| 0 <= k < widths@.len() ==> r@[k] == scaled_barrier(rate, #[trigger] widths@[k]),
{
    let mut out: Vec<Option<i128>> = Vec::with_capacity(widths.len());
    let mut k: usize = 0;
    while k < widths.len()
        invariant
            0 <= k <= widths@.len(),
            out@.len() == k,
            forall|j: int| 0 <= j < k ==> out@[j] == scaled_barrier(rate, #[trigger] widths@[j]),
        decreases widths@.len() - k,
    {
        let b = match (rate, widths[k]) {
            (Some(r), Some(w)) => {
                assert(-0x4000_0000_0000_0000_0000_0000_0000_0000 <= r * w
                    <= 0x4000_0000_0000_0000_0000_0000_0000_0000) by (nonlinear_arith)
                    requires
                        i64::MIN <= r <= i64::MAX,
                        i64::MIN <= w <= i64::MAX,
                ;
                let x = r as i128 * w as i128;
                let q = floor_div(x, 100_000_000);
                assert(x as int / (RETURN_SCALE as int) == q);
                Some(q)
            },
            _ => None,
        };
        out.push(b);
        k = k + 1;
    }
    out
}

/// Returns of `prices[start..end]` relative to `prices[start]`.
fn window_returns(prices: &Vec<u64>, start: usize, end: usize) -> (r: Vec<i128>)
    requires
        start < end <= prices@.len(),
        prices@[start as int] > 0,
    ensures
        r@ == returns_of(prices@.subrange(start as int, end as int)),
{
    let base = prices[start];
    let mut out: Vec<i128> = Vec::with_capacity(end - start);
    let mut j: usize = start;
    while j < end
        invariant
            start <= j <= end <= prices@.len(),
            base == prices@[start as int],
            base > 0,
            out@.len() == j - start,
            forall|k: int|
                0 <= k < out@.len() ==> #[trigger] out@[k] == returns_of(
                    prices@.subrange(start as int, end as int),
                )[k],
        decreases end - j,
    {
        let r = price_return(prices[j], base);
        out.push(r);
        j = j + 1;
    }
    assert(out@ =~= returns_of(prices@.subrange(start as int, end as int)));
    out
}

/// Returns of a price path relative to its first price, so that the first return is zero.
pub fn calculate_price_path_return(prices: Vec<u64>) -> (r: Vec<i128>)
    requires
        prices@.len() > 0,
        prices@[0] > 0,
    ensures
        r@ == returns_of(prices@),
        r@[0] == 0,
{
    let n = prices.len();
    let r = window_returns(&prices, 0, n);
    assert(prices@.subrange(0, n as int) =~= prices@);
    r
}

/// A key of the ordering index that could not be found.
#[derive(Clone, Copy, Debug, PartialEq, Eq, Structural)]
pub enum SliceRangeError {
    StartNotFound(i64),
    EndNotFound(i64),
    BothNotFound(i64, i64),
}

/// Why a labeling call failed as a whole.
#[derive(Clone, Copy, Debug, PartialEq, Eq, Structural)]
pub enum LabelError {
    /// The ordering index holds a null.
    NullIndex,
    /// The price column holds a null.
    NullPrice,
    /// A price is zero, so no return can be taken relative to it.
    ZeroPrice,
    /// A start or end key of an explicit horizon is absent from the index.
    Lookup(SliceRangeError),
    /// The end key of an explicit horizon lies before its start key.
    EmptyWindow(i64, i64),
}

/// Relies on std's `format!`: writes `key` in decimal into a sentence naming
/// the index key that is missing.
#[verifier::external_body]
fn missing_key_text(role: &str, key: i64) -> String {
    format!("{} index {} not found in index", role, key)
}

/// Relies on std's `format!`: writes both keys in decimal into a sentence
/// naming them as missing.
#[verifier::external_body]
fn missing_keys_text(start: i64, end: i64) -> String {
    format!("Both start index {} and end index {} not found in index", start, end)
}

impl SliceRangeError {
    /// A sentence that names the missing key or keys.
    pub fn message(&self) -> String {
        match self {
            SliceRangeError::StartNotFound(start) => missing_key_text("Start", *start),
            SliceRangeError::EndNotFound(end) => missing_key_text("End", *end),
            SliceRangeError::BothNotFound(start, end) => missing_keys_text(*start, *end),
        }
    }
}

/// Position of the first `x` in `s` at or after `i`, or `s.len()` if there is none.
pub open spec fn position_from(s: Seq<i64>, x: i64, i: int) -> int
    decreases s.len() - i,
{
    if i >= s.len() {
        s.len() as int
    } else if s[i] == x {
        i
    } else {
        position_from(s, x, i + 1)
    }
}

pub open spec fn position_of(s: Seq<i64>, x: i64) -> int {
    position_from(s, x, 0)
}

/// The half-open range from the first `start` to the first `end`, inclusive of `end`.
pub open spec fn slice_range(data: Seq<i64>, start: i64, end: i64) -> Result<(int, int), SliceRangeError> {
    let a = position_of(data, start);
    let b = position_of(data, end);
    if a < data.len() && b < data.len() {
        Ok((a, b + 1))
    } else if a < data.len() {
        Err(SliceRangeError::EndNotFound(end))
    } else if b < data.len() {
        Err(SliceRangeError::StartNotFound(start))
    } else {
        Err(SliceRangeError::BothNotFound(start, end))
    }
}

fn position(data: &Vec<i64>, x: i64) -> (r: Option<usize>)
    ensures
        match r {
            Some(k) => k == position_of(data@, x) && k < data@.len() && data@[k as int] == x,
            None => position_of(data@, x) == data@.len() && !data@.contains(x),
        },
{
    let mut i: usize = 0;
    while i < data.len()
        invariant
            0 <= i <= data@.len(),
            position_of(data@, x) == position_from(data@, x, i as int),
            forall|j: int| 0 <= j < i ==> data@[j] != x,
        decreases data@.len() - i,
    {
        if data[i] == x {
            return Some(i);
        }
        i = i + 1;
    }
    None
}

/// Locates `start` and `end` in the ordering index and returns the range of rows
/// from the first `start` up to and including the first `end`.
pub fn get_slice_range(data: &Vec<i64>, start: i64, end: i64) -> (r: Result<(usize, usize), SliceRangeError>)
    ensures
        match r {
            Ok((a, b)) => slice_range(data@, start, end) == Ok::<(int, int), SliceRangeError>(
                (a as int, b as int),
            ),
            Err(e) => slice_range(data@, start, end) == Err::<(int, int), SliceRangeError>(e),
        },
{
    let n = data.len();
    let start_idx = position(data, start);
    let end_idx = position(data, end);
    match (start_idx, end_idx) {
        (Some(a), Some(b)) => {
            assert(b < n);
            Ok((a, b + 1))
        },
        (Some(_), None) => Err(SliceRangeError::EndNotFound(end)),
        (None, Some(_)) => Err(SliceRangeError::StartNotFound(start)),
        (None, None) => Err(SliceRangeError::BothNotFound(start, end)),
    }
}

/// Rows `[start, end)` of the price path that row `i` scans: up to the row whose
/// key is `vertical_barrier`, or to the end of the data when there is none.
pub open spec fn window(index: Seq<i64>, i: int, vertical_barrier: Option<i64>) -> Result<
    (int, int),
    LabelError,
> {
    match vertical_barrier {
        None => Ok((i, index.len() as int)),
        Some(e) => match slice_range(index, index[i], e) {
            Err(err) => Err(LabelError::Lookup(err)),
            Ok((a, b)) => if a < b {
                Ok((a, b))
            } else {
                Err(LabelError::EmptyWindow(index[i], e))
            },
        },
    }
}

/// What an invalid seed row produces.
pub open spec fn placeholder() -> TripleBarrierLabel {
    TripleBarrierLabel { ret: 0, label: Some(0i64), barrier_touch: 0 }
}

/// The label of the path of prices `[start, end)`, its touch index counted from
/// the start of the data.
pub open spec fn window_label(
    prices: Seq<u64>,
    start: int,
    end: int,
    profit_taking: Option<i128>,
    stop_loss: Option<i128>,
    zero_vertical_barrier: bool,
    min_return: Option<u64>,
) -> TripleBarrierLabel {
    let l = scan_label(
        returns_of(prices.subrange(start, end)),
        profit_taking,
        stop_loss,
        zero_vertical_barrier,
        min_return,
    );
    TripleBarrierLabel { barrier_touch: (start + l.barrier_touch) as usize, ..l }
}

fn label_window(
    prices: &Vec<u64>,
    start: usize,
    end: usize,
    profit_taking: Option<i128>,
    stop_loss: Option<i128>,
    zero_vertical_barrier: bool,
    min_return: Option<u64>,
) -> (r: TripleBarrierLabel)
    requires
        start < end <= prices@.len(),
        prices@[start as int] > 0,
    ensures
        r == window_label(
            prices@,
            start as int,
            end as int,
            profit_taking,
            stop_loss,
            zero_vertical_barrier,
            min_return,
        ),
{
    let path = window_returns(prices, start, end);
    let l = get_label(path.as_slice(), profit_taking, stop_loss, zero_vertical_barrier, min_return);
    TripleBarrierLabel { ret: l.ret, label: l.label, barrier_touch: start + l.barrier_touch }
}

/// The label of seed row `i`, its touch index counted from the start of the data.
pub open spec fn row_label(
    index: Seq<i64>,
    prices: Seq<u64>,
    profit_taking: Option<i128>,
    stop_loss: Option<i128>,
    vertical_barrier: Option<i64>,
    valid: bool,
    zero_vertical_barrier: bool,
    min_return: Option<u64>,
    i: int,
) -> Result<TripleBarrierLabel, LabelError> {
    if !valid {
        Ok(placeholder())
    } else {
        match window(index, i, vertical_barrier) {
            Err(e) => Err(e),
            Ok((a, b)) => Ok(
                window_label(prices, a, b, profit_taking, stop_loss, zero_vertical_barrier, min_return),
            ),
        }
    }
}

/// The labels of the first `k` rows, or the error of the first row that fails.
pub open spec fn labels_upto(
    index: Seq<i64>,
    prices: Seq<u64>,
    profit_taking: Seq<Option<i128>>,
    stop_loss: Seq<Option<i128>>,
    vertical_barriers: Seq<Option<i64>>,
    validity_mask: Seq<bool>,
    zero_vertical_barrier: bool,
    min_return: Option<u64>,
    k: int,
) -> Result<Seq<TripleBarrierLabel>, LabelError>
    decreases k,
{
    if k <= 0 {
        Ok(Seq::empty())
    } else {
        match labels_upto(
            index,
            prices,
            profit_taking,
            stop_loss,
            vertical_barriers,
            validity_mask,
            zero_vertical_barrier,
            min_return,
            k - 1,
        ) {
            Err(e) => Err(e),
            Ok(s) => match row_label(
                index,
                prices,
                profit_taking[k - 1],
                stop_loss[k - 1],
                vertical_barriers[k - 1],
                validity_mask[k - 1],
                zero_vertical_barrier,
                min_return,
                k - 1,
            ) {
                Err(e) => Err(e),
                Ok(l) => Ok(s.push(l)),
            },
        }
    }
}

proof fn lemma_labels_error_stays(
    index: Seq<i64>,
    prices: Seq<u64>,
    profit_taking: Seq<Option<i128>>,
    stop_loss: Seq<Option<i128>>,
    vertical_barriers: Seq<Option<i64>>,
    validity_mask: Seq<bool>,
    zero_vertical_barrier: bool,
    min_return: Option<u64>,
    k: int,
    m: int,
    e: LabelError,
)
    requires
        0 <= k <= m,
        labels_upto(
            index,
            prices,
            profit_taking,
            stop_loss,
            vertical_barriers,
            validity_mask,
            zero_vertical_barrier,
            min_return,
            k,
        ) == Err::<Seq<TripleBarrierLabel>, LabelError>(e),
    ensures
        labels_upto(
            index,
            prices,
            profit_taking,
            stop_loss,
            vertical_barriers,
            validity_mask,
            zero_vertical_barrier,
            min_return,
            m,
        ) == Err::<Seq<TripleBarrierLabel>, LabelError>(e),
    decreases m - k,
{
    if k < m {
        lemma_labels_error_stays(
            index,
            prices,
            profit_taking,
            stop_loss,
            vertical_barriers,
            validity_mask,
            zero_vertical_barrier,
            min_return,
            k,
            m - 1,
            e,
        );
    }
}

/// Labels in column form, one entry per input row.
pub struct TripleBarrierLabels {
    pub rets: Vec<i128>,
    pub labels: Vec<Option<i64>>,
    pub barrier_touches: Vec<usize>,
}

impl TripleBarrierLabels {
    /// The three columns have one entry per row.
    pub open spec fn wf(&self) -> bool {
        self.labels@.len() == self.rets@.len() && self.barrier_touches@.len() == self.rets@.len()
    }

    /// The rows that the columns hold.
    pub open spec fn rows(&self) -> Seq<TripleBarrierLabel> {
        Seq::new(
            self.rets@.len(),
            |i: int|
                TripleBarrierLabel {
                    ret: self.rets@[i],
                    label: self.labels@[i],
                    barrier_touch: self.barrier_touches@[i],
                },
        )
    }

    pub fn new() -> (r: Self)
        ensures
            r.wf(),
            r.rows().len() == 0,
    {
        TripleBarrierLabels { rets: Vec::new(), labels: Vec::new(), barrier_touches: Vec::new() }
    }

    pub fn new_with_capacity(capacity: usize) -> (r: Self)
        ensures
            r.wf(),
            r.rows().len() == 0,
    {
        TripleBarrierLabels {
            rets: Vec::with_capacity(capacity),
            labels: Vec::with_capacity(capacity),
            barrier_touches: Vec::with_capacity(capacity),
        }
    }

    fn push(&mut self, l: TripleBarrierLabel)
        requires
            old(self).wf(),
        ensures
            final(self).wf(),
            final(self).rows() == old(self).rows().push(l),
    {
        self.rets.push(l.ret);
        self.labels.push(l.label);
        self.barrier_touches.push(l.barrier_touch);
        assert(self.rows() =~= old(self).rows().push(l));
    }
}

/// Labels every row of a price series by the triple-barrier method.
///
/// Each valid row scans the returns from its own price up to its vertical barrier
/// (the row whose index key is `vertical_barriers[i]`, or the end of the data);
/// invalid rows get a neutral placeholder. A horizon key that cannot be resolved
/// fails the whole call.
pub fn calculate_labels(
    index: Vec<i64>,
    prices: Vec<u64>,
    profit_taking: Vec<Option<i128>>,
    stop_loss: Vec<Option<i128>>,
    vertical_barriers: Vec<Option<i64>>,
    validity_mask: Vec<bool>,
    zero_vertical_barrier: bool,
    min_return: Option<u64>,
) -> (r: Result<TripleBarrierLabels, LabelError>)
    requires
        prices@.len() == index@.len(),
        profit_taking@.len() == index@.len(),
        stop_loss@.len() == index@.len(),
        vertical_barriers@.len() == index@.len(),
        validity_mask@.len() == index@.len(),
        forall|j: int| 0 <= j < prices@.len() ==> #[trigger] prices@[j] > 0,
    ensures
        match r {
            Ok(out) => out.wf() && labels_upto(
                index@,
                prices@,
                profit_taking@,
                stop_loss@,
                vertical_barriers@,
                validity_mask@,
                zero_vertical_barrier,
                min_return,
                index@.len() as int,
            ) == Ok::<Seq<TripleBarrierLabel>, LabelError>(out.rows()),
            Err(e) => labels_upto(
                index@,
                prices@,
                profit_taking@,
                stop_loss@,
                vertical_barriers@,
                validity_mask@,
                zero_vertical_barrier,
                min_return,
                index@.len() as int,
            ) == Err::<Seq<TripleBarrierLabel>, LabelError>(e),
        },
{
    let n = index.len();
    let mut out = TripleBarrierLabels::new_with_capacity(n);
    assert(out.rows() =~= Seq::<TripleBarrierLabel>::empty());
    let mut i: usize = 0;
    while i < n
        invariant
            0 <= i <= n,
            n == index@.len(),
            prices@.len() == n,
            profit_taking@.len() == n,
            stop_loss@.len() == n,
            vertical_barriers@.len() == n,
            validity_mask@.len() == n,
            forall|j: int| 0 <= j < prices@.len() ==> #[trigger] prices@[j] > 0,
            out.wf(),
            labels_upto(
                index@,
                prices@,
                profit_taking@,
                stop_loss@,
                vertical_barriers@,
                validity_mask@,
                zero_vertical_barrier,
                min_return,
                i as int,
            ) == Ok::<Seq<TripleBarrierLabel>, LabelError>(out.rows()),
        decreases n - i,
    {
        let row = if !validity_mask[i] {
            TripleBarrierLabel { ret: 0, label: Some(0), barrier_touch: 0 }
        } else {
            let (start, end) = match vertical_barriers[i] {
                None => (i, n),
                Some(vb) => match get_slice_range(&index, index[i], vb) {
                    Err(e) => {
                        proof {
                            lemma_labels_error_stays(
                                index@,
                                prices@,
                                profit_taking@,
                                stop_loss@,
                                vertical_barriers@,
                                validity_mask@,
                                zero_vertical_barrier,
                                min_return,
                                i + 1,
                                n as int,
                                LabelError::Lookup(e),
                            );
                        }
                        return Err(LabelError::Lookup(e));
                    },
                    Ok((a, b)) => {
                        if a >= b {
                            proof {
                                lemma_labels_error_stays(
                                    index@,
                                    prices@,
                                    profit_taking@,
                                    stop_loss@,
                                    vertical_barriers@,
                                    validity_mask@,
                                    zero_vertical_barrier,
                                    min_return,
                                    i + 1,
                                    n as int,
                                    LabelError::EmptyWindow(index@[i as int], vb),
                                );
                            }
                            return Err(LabelError::EmptyWindow(index[i], vb));
                        }
                        (a, b)
                    },
                },
            };
            label_window(&prices, start, end, profit_taking[i], stop_loss[i], zero_vertical_barrier, min_return)
        };
        out.push(row);
        i = i + 1;
    }
    Ok(out)
}

/// End of the path of row `i` that looks `horizon` rows ahead of it, cut at the end of the data.
pub open spec fn horizon_end(n: int, i: int, horizon: int) -> int {
    if i + horizon + 1 < n {
        i + horizon + 1
    } else {
        n
    }
}

/// Labels every row by the triple-barrier method, each valid row scanning its own
/// price and the `horizon` rows after it; invalid rows get a neutral placeholder.
pub fn calculate_labels_fixed_horizon(
    prices: Vec<u64>,
    profit_taking: Vec<Option<i128>>,
    stop_loss: Vec<Option<i128>>,
    horizon: usize,
    validity_mask: Vec<bool>,
    zero_vertical_barrier: bool,
    min_return: Option<u64>,
) -> (r: TripleBarrierLabels)
    requires
        profit_taking@.len() == prices@.len(),
        stop_loss@.len() == prices@.len(),
        validity_mask@.len() == prices@.len(),
        forall|j: int| 0 <= j < prices@.len() ==> #[trigger] prices@[j] > 0,
    ensures
        r.wf(),
        r.rows().len() == prices@.len(),
        forall|i: int|
            0 <= i < prices@.len() ==> #[trigger] r.rows()[i] == if validity_mask@[i] {
                window_label(
                    prices@,
                    i,
                    horizon_end(prices@.len() as int, i, horizon as int),
                    profit_taking@[i],
                    stop_loss@[i],
                    zero_vertical_barrier,
                    min_return,
                )
            } else {
                placeholder()
            },
{
    let n = prices.len();
    let mut out = TripleBarrierLabels::new_with_capacity(n);
    let mut i: usize = 0;
    while i < n
        invariant
            0 <= i <= n,
            n == prices@.len(),
            profit_taking@.len() == n,
            stop_loss@.len() == n,
            validity_mask@.len() == n,
            forall|j: int| 0 <= j < prices@.len() ==> #[trigger] prices@[j] > 0,
            out.wf(),
            out.rows().len() == i,
            forall|j: int|
                0 <= j < i ==> #[trigger] out.rows()[j] == if validity_mask@[j] {
                    window_label(
                        prices@,
                        j,
                        horizon_end(n as int, j, horizon as int),
                        profit_taking@[j],
                        stop_loss@[j],
                        zero_vertical_barrier,
                        min_return,
                    )
                } else {
                    placeholder()
                },
        decreases n - i,
    {
        let row = if !validity_mask[i] {
            TripleBarrierLabel { ret: 0, label: Some(0), barrier_touch: 0 }
        } else {
            let end = if horizon < n - i - 1 {
                i + horizon + 1
            } else {
                n
            };
            label_window(&prices, i, end, profit_taking[i], stop_loss[i], zero_vertical_barrier, min_return)
        };
        out.push(row);
        i = i + 1;
    }
    out
}

/// The column holds a null.
pub open spec fn has_null<T>(col: Seq<Option<T>>) -> bool {
    exists|j: int| 0 <= j < col.len() && #[trigger] col[j] is None
}

/// The values of a column that holds no null.
pub open spec fn present<T>(col: Seq<Option<T>>) -> Seq<T> {
    Seq::new(col.len(), |j: int| col[j]->Some_0)
}

/// The values of a column, or `None` if any of them is null.
fn present_values<T: Copy>(col: &Vec<Option<T>>) -> (r: Option<Vec<T>>)
    ensures
        match r {
            Some(v) => !has_null(col@) && v@ == present(col@),
            None => has_null(col@),
        },
{
    let mut out: Vec<T> = Vec::with_capacity(col.len());
    let mut i: usize = 0;
    while i < col.len()
        invariant
            0 <= i <= col@.len(),
            out@.len() == i,
            forall|j: int| 0 <= j < i ==> #[trigger] col@[j] is Some,
            forall|j: int| 0 <= j < i ==> out@[j] == #[trigger] col@[j]->Some_0,
        decreases col@.len() - i,
    {
        match col[i] {
            Some(v) => out.push(v),
            None => return None,
        }
        i = i + 1;
    }
    assert(out@ =~= present(col@));
    Some(out)
}

/// Labels a price series given as nullable columns.
///
/// A null in the ordering index or in the prices fails the call before any row is
/// labeled, as does a zero price; otherwise the result is that of `calculate_labels`.
pub fn triple_barrier_label(
    index: Vec<Option<i64>>,
    prices: Vec<Option<u64>>,
    profit_taking: Vec<Option<i128>>,
    stop_loss: Vec<Option<i128>>,
    vertical_barriers: Vec<Option<i64>>,
    validity_mask: Vec<bool>,
    zero_vertical_barrier: bool,
    min_return: Option<u64>,
) -> (r: Result<TripleBarrierLabels, LabelError>)
    requires
        prices@.len() == index@.len(),
        profit_taking@.len() == index@.len(),
        stop_loss@.len() == index@.len(),
        vertical_barriers@.len() == index@.len(),
        validity_mask@.len() == index@.len(),
    ensures
        has_null(index@) ==> r == Err::<TripleBarrierLabels, LabelError>(LabelError::NullIndex),
        !has_null(index@) && has_null(prices@) ==> r == Err::<TripleBarrierLabels, LabelError>(
            LabelError::NullPrice,
        ),
        !has_null(index@) && !has_null(prices@) && present(prices@).contains(0u64) ==> r == Err::<
            TripleBarrierLabels,
            LabelError,
        >(LabelError::ZeroPrice),
        !has_null(index@) && !has_null(prices@) && !present(prices@).contains(0u64) ==> match r {
            Ok(out) => out.wf() && labels_upto(
                present(index@),
                present(prices@),
                profit_taking@,
                stop_loss@,
                vertical_barriers@,
                validity_mask@,
                zero_vertical_barrier,
                min_return,
                index@.len() as int,
            ) == Ok::<Seq<TripleBarrierLabel>, LabelError>(out.rows()),
            Err(e) => labels_upto(
                present(index@),
                present(prices@),
                profit_taking@,
                stop_loss@,
                vertical_barriers@,
                validity_mask@,
                zero_vertical_barrier,
                min_return,
                index@.len() as int,
            ) == Err::<Seq<TripleBarrierLabel>, LabelError>(e),
        },
{
    let keys = match present_values(&index) {
        Some(v) => v,
        None => return Err(LabelError::NullIndex),
    };
    let ticks = match present_values(&prices) {
        Some(v) => v,
        None => return Err(LabelError::NullPrice),
    };
    let mut j: usize = 0;
    while j < ticks.len()
        invariant
            0 <= j <= ticks@.len(),
            !has_null(index@),
            !has_null(prices@),
            ticks@ == present(prices@),
            forall|k: int| 0 <= k < j ==> #[trigger] ticks@[k] > 0,
        decreases ticks@.len() - j,
    {
        if ticks[j] == 0 {
            assert(present(prices@)[j as int] == 0);
            return Err(LabelError::ZeroPrice);
        }
        j = j + 1;
    }
    assert(!ticks@.contains(0u64));
    calculate_labels(
        keys,
        ticks,
        profit_taking,
        stop_loss,
        vertical_barriers,
        validity_mask,
        zero_vertical_barrier,
        min_return,
    )
}

} // verus!
