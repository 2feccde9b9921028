use crate::bars::{
    compute_bar_groups, lemma_overflow_bars, lemma_split_bars_exact, segmentation, split_piece,
};
use vstd::prelude::*;

verus! {

/// A trade: its time, its price in ticks, and its size.
#[derive(Clone, Copy, Debug, PartialEq, Eq, Structural)]
pub struct Transaction {
    pub timestamp: i64,
    pub price: u64,
    pub size: u64,
}

/// The part of a trade that falls into one bar.
#[derive(Clone, Copy, Debug, PartialEq, Eq, Structural)]
pub struct Fill {
    pub timestamp: i64,
    pub price: u64,
    pub amount: u64,
}

/// Open, high, low, close and volume of one bar.
///
/// `notional` is the traded value `sum(price * amount)`, and `vwap` is
/// `notional / volume` rounded down, absent when the volume is zero.
#[derive(Clone, Copy, Debug, PartialEq, Eq, Structural)]
pub struct Bar {
    pub start_time: i64,
    pub end_time: i64,
    pub open: u64,
    pub high: u64,
    pub low: u64,
    pub close: u64,
    pub vwap: Option<u128>,
    pub volume: u128,
    pub notional: u128,
    pub transaction_count: usize,
}

pub open spec fn fill_volume(f: Seq<Fill>) -> int
    decreases f.len(),
{
    if f.len() == 0 {
        0
    } else {
        fill_volume(f.drop_last()) + f.last().amount
    }
}

pub open spec fn fill_notional(f: Seq<Fill>) -> int
    decreases f.len(),
{
    if f.len() == 0 {
        0
    } else {
        fill_notional(f.drop_last()) + f.last().price * f.last().amount
    }
}

/// `bar` summarises the fills `f`, taken in time order.
pub open spec fn is_summary(f: Seq<Fill>, bar: Bar) -> bool {
    &&& f.len() > 0
    &&& bar.start_time == f[0].timestamp
    &&& bar.end_time == f.last().timestamp
    &&& bar.open == f[0].price
    &&& bar.close == f.last().price
    &&& forall|j: int| 0 <= j < f.len() ==> #[trigger] f[j].price <= bar.high
    &&& exists|j: int| 0 <= j < f.len() && #[trigger] f[j].price == bar.high
    &&& forall|j: int| 0 <= j < f.len() ==> bar.low <= #[trigger] f[j].price
    &&& exists|j: int| 0 <= j < f.len() && #[trigger] f[j].price == bar.low
    &&& bar.volume == fill_volume(f)
    &&& bar.notional == fill_notional(f)
    &&& bar.vwap == (if bar.volume > 0 {
        Some((bar.notional / bar.volume) as u128)
    } else {
        None
    })
    &&& bar.transaction_count == f.len()
}

/// The volume and the traded value of the fills fit in 128 bits.
pub open spec fn summary_fits(f: Seq<Fill>) -> bool {
    fill_volume(f) <= u128::MAX && fill_notional(f) <= u128::MAX
}

proof fn lemma_sums_grow(f: Seq<Fill>, i: int)
    requires
        0 <= i <= f.len(),
    ensures
        0 <= fill_volume(f.take(i)) <= fill_volume(f),
        0 <= fill_notional(f.take(i)) <= fill_notional(f),
    decreases f.len() - i,
{
    if i < f.len() {
        lemma_sums_grow(f, i + 1);
        assert(f.take(i + 1).drop_last() =~= f.take(i));
        let l = f[i];
        assert(l.price * l.amount >= 0) by (nonlinear_arith);
        lemma_sums_nonneg(f.take(i));
    } else {
        assert(f.take(i) =~= f);
        lemma_sums_nonneg(f);
    }
}

proof fn lemma_sums_nonneg(f: Seq<Fill>)
    ensures
        fill_volume(f) >= 0,
        fill_notional(f) >= 0,
    decreases f.len(),
{
    if f.len() > 0 {
        lemma_sums_nonneg(f.drop_last());
        let l = f.last();
        assert(l.price * l.amount >= 0) by (nonlinear_arith);
    }
}

/// Summarises a non-empty run of fills into one bar, or `None` when its volume or
/// traded value does not fit in 128 bits.
pub fn bar_summary(fills: &Vec<Fill>) -> (r: Option<Bar>)
    requires
        fills@.len() > 0,
    ensures
        match r {
            Some(bar) => is_summary(fills@, bar),
            None => !summary_fits(fills@),
        },
{
    let n = fills.len();
    let first = fills[0];
    let mut high = first.price;
    let mut low = first.price;
    let mut volume: u128 = 0;
    let mut notional: u128 = 0;
    let mut i: usize = 0;
    assert(fills@.take(0) =~= Seq::<Fill>::empty());
    while i < n
        invariant
            0 < n == fills@.len(),
            0 <= i <= n,
            first == fills@[0],
            volume == fill_volume(fills@.take(i as int)),
            notional == fill_notional(fills@.take(i as int)),
            forall|j: int| 0 <= j < i ==> #[trigger] fills@[j].price <= high,
            forall|j: int| 0 <= j < i ==> low <= #[trigger] fills@[j].price,
            exists|j: int| 0 <= j < n && #[trigger] fills@[j].price == high,
            exists|j: int| 0 <= j < n && #[trigger] fills@[j].price == low,
        decreases n - i,
    {
        let f = fills[i];
        proof {
            assert(fills@.take(i + 1).drop_last() =~= fills@.take(i as int));
            lemma_sums_grow(fills@, i + 1);
        }
        assert(f.price * f.amount <= u64::MAX as int * u64::MAX as int) by (nonlinear_arith)
            requires
                f.price <= u64::MAX,
                f.amount <= u64::MAX,
        ;
        let value = f.price as u128 * f.amount as u128;
        if volume > u128::MAX - f.amount as u128 || notional > u128::MAX - value {
            return None;
        }
        volume = volume + f.amount as u128;
        notional = notional + value;
        if f.price > high {
            high = f.price;
        }
        if f.price < low {
            low = f.price;
        }
        i = i + 1;
    }
    assert(fills@.take(n as int) =~= fills@);
    let last = fills[n - 1];
    let vwap = if volume > 0 {
        Some(notional / volume)
    } else {
        None
    };
    Some(
        Bar {
            start_time: first.timestamp,
            end_time: last.timestamp,
            open: first.price,
            high,
            low,
            close: last.price,
            vwap,
            volume,
            notional,
            transaction_count: n,
        },
    )
}

/// The fills of a segmentation: piece `k` is `amounts[k]` of transaction `tx[k]`.
pub open spec fn piece_fills(txs: Seq<Transaction>, tx: Seq<usize>, amounts: Seq<u64>) -> Seq<Fill> {
    Seq::new(
        amounts.len(),
        |k: int|
            Fill {
                timestamp: txs[tx[k] as int].timestamp,
                price: txs[tx[k] as int].price,
                amount: amounts[k],
            },
    )
}

/// The fills among the first `k` whose bar is `b`, in order.
pub open spec fn group_fills_upto(f: Seq<Fill>, group: Seq<usize>, b: int, k: int) -> Seq<Fill>
    decreases k,
{
    if k <= 0 {
        Seq::empty()
    } else if group[k - 1] == b {
        group_fills_upto(f, group, b, k - 1).push(f[k - 1])
    } else {
        group_fills_upto(f, group, b, k - 1)
    }
}

/// The fills of bar `b`.
pub open spec fn group_fills(f: Seq<Fill>, group: Seq<usize>, b: int) -> Seq<Fill> {
    group_fills_upto(f, group, b, f.len() as int)
}

/// Bar ids start at 0 and rise by at most one from piece to piece.
pub open spec fn consecutive_ids(group: Seq<usize>) -> bool {
    &&& group.len() > 0 ==> group[0] == 0
    &&& forall|k: int|
        0 <= k < group.len() - 1 ==> group[k] <= #[trigger] group[k + 1] <= group[k] + 1
}

/// Number of bars that a sequence of bar ids names.
pub open spec fn bar_count(group: Seq<usize>) -> int {
    if group.len() == 0 {
        0
    } else {
        group.last() + 1
    }
}

proof fn lemma_ids_monotone(group: Seq<usize>, i: int, j: int)
    requires
        consecutive_ids(group),
        0 <= i <= j < group.len(),
    ensures
        group[i] <= group[j],
    decreases j - i,
{
    if i < j {
        lemma_ids_monotone(group, i, j - 1);
        assert(group[j - 1] <= group[(j - 1) + 1]);
    }
}

proof fn lemma_upto_skip(f: Seq<Fill>, group: Seq<usize>, b: int, k: int, m: int)
    requires
        0 <= k <= m <= group.len(),
        forall|j: int| k <= j < m ==> #[trigger] group[j] != b,
    ensures
        group_fills_upto(f, group, b, m) == group_fills_upto(f, group, b, k),
    decreases m - k,
{
    if k < m {
        lemma_upto_skip(f, group, b, k, m - 1);
    }
}

/// Summarises each bar of a segmentation, or returns `None` when some bar's
/// volume or traded value does not fit in 128 bits.
pub fn aggregate_bars(
    txs: &Vec<Transaction>,
    tx_ids: &Vec<usize>,
    group_ids: &Vec<usize>,
    amounts: &Vec<u64>,
) -> (r: Option<Vec<Bar>>)
    requires
        tx_ids@.len() == amounts@.len(),
        group_ids@.len() == amounts@.len(),
        forall|k: int| 0 <= k < tx_ids@.len() ==> #[trigger] tx_ids@[k] < txs@.len(),
        consecutive_ids(group_ids@),
    ensures
        match r {
            Some(bars) => bars@.len() == bar_count(group_ids@) && forall|b: int|
                0 <= b < bars@.len() ==> is_summary(
                    group_fills(piece_fills(txs@, tx_ids@, amounts@), group_ids@, b),
                    #[trigger] bars@[b],
                ),
            None => exists|b: int|
                0 <= b < bar_count(group_ids@) && !summary_fits(
                    #[trigger] group_fills(piece_fills(txs@, tx_ids@, amounts@), group_ids@, b),
                ),
        },
{
    let ghost f = piece_fills(txs@, tx_ids@, amounts@);
    let ghost g = group_ids@;
    let m = amounts.len();
    let mut bars: Vec<Bar> = Vec::new();
    let mut run: Vec<Fill> = Vec::new();
    let mut cur: usize = 0;
    let mut k: usize = 0;
    while k < m
        invariant
            0 <= k <= m,
            m == amounts@.len(),
            f == piece_fills(txs@, tx_ids@, amounts@),
            g == group_ids@,
            tx_ids@.len() == m,
            g.len() == m,
            forall|j: int| 0 <= j < tx_ids@.len() ==> #[trigger] tx_ids@[j] < txs@.len(),
            consecutive_ids(g),
            bars@.len() == cur,
            k > 0 ==> g[k - 1] == cur && run@.len() > 0,
            k == 0 ==> cur == 0 && run@.len() == 0,
            run@ == group_fills_upto(f, g, cur as int, k as int),
            forall|b: int|
                0 <= b < cur ==> is_summary(group_fills(f, g, b), #[trigger] bars@[b]),
        decreases m - k,
    {
        let t = tx_ids[k];
        let piece = Fill { timestamp: txs[t].timestamp, price: txs[t].price, amount: amounts[k] };
        assert(piece == f[k as int]);
        if k > 0 && group_ids[k] != cur {
            proof {
                assert(g[k - 1] <= g[(k - 1) + 1] <= g[k - 1] + 1);
                assert forall|j: int| k <= j < m implies #[trigger] g[j] != cur by {
                    lemma_ids_monotone(g, k as int, j);
                }
                lemma_upto_skip(f, g, cur as int, k as int, m as int);
            }
            match bar_summary(&run) {
                Some(bar) => bars.push(bar),
                None => {
                    proof {
                        lemma_ids_monotone(g, k - 1, m - 1);
                        assert(!summary_fits(group_fills(f, g, cur as int)));
                    }
                    return None;
                },
            }
            proof {
                assert forall|j: int| 0 <= j < k implies #[trigger] g[j] != cur + 1 by {
                    lemma_ids_monotone(g, j, k - 1);
                }
                lemma_upto_skip(f, g, cur + 1, 0, k as int);
            }
            cur = cur + 1;
            run = Vec::new();
        }
        if k == 0 {
            assert(g[0] == 0);
        }
        run.push(piece);
        k = k + 1;
    }
    if m > 0 {
        match bar_summary(&run) {
            Some(bar) => bars.push(bar),
            None => {
                assert(!summary_fits(group_fills(f, g, cur as int)));
                return None;
            },
        }
    }
    Some(bars)
}

/// The sizes of the transactions.
pub open spec fn sizes_of(txs: Seq<Transaction>) -> Seq<u64> {
    Seq::new(txs.len(), |k: int| txs[k].size)
}

/// What `aggregate_bars` returns for a segmentation of `txs`.
pub open spec fn bars_of(
    txs: Seq<Transaction>,
    tx: Seq<usize>,
    group: Seq<usize>,
    amounts: Seq<u64>,
    r: Option<Vec<Bar>>,
) -> bool {
    match r {
        Some(bars) => bars@.len() == bar_count(group) && forall|b: int|
            0 <= b < bars@.len() ==> is_summary(
                group_fills(piece_fills(txs, tx, amounts), group, b),
                #[trigger] bars@[b],
            ),
        None => exists|b: int|
            0 <= b < bar_count(group) && !summary_fits(
                #[trigger] group_fills(piece_fills(txs, tx, amounts), group, b),
            ),
    }
}

/// Volume bars of a trade stream: the sizes are cut into bars of `bar_size`
/// (see `compute_bar_groups`) and each bar is summarised.
pub fn volume_bars(txs: &Vec<Transaction>, bar_size: u64, allow_splits: bool) -> (r: Option<Vec<Bar>>)
    requires
        bar_size > 0,
    ensures
        exists|tx: Seq<usize>, group: Seq<usize>, amounts: Seq<u64>|
            segmentation(sizes_of(txs@), bar_size as int, allow_splits, tx, group, amounts)
                && #[trigger] bars_of(txs@, tx, group, amounts, r),
{
    let mut sizes: Vec<u64> = Vec::with_capacity(txs.len());
    let mut i: usize = 0;
    while i < txs.len()
        invariant
            0 <= i <= txs@.len(),
            sizes@ == sizes_of(txs@).take(i as int),
        decreases txs@.len() - i,
    {
        sizes.push(txs[i].size);
        i = i + 1;
        assert(sizes@ =~= sizes_of(txs@).take(i as int));
    }
    assert(sizes@ =~= sizes_of(txs@));
    let (tx_ids, group_ids, amounts) = compute_bar_groups(&sizes, bar_size, allow_splits);
    proof {
        if allow_splits {
            lemma_split_bars_exact(sizes@, bar_size as int, tx_ids@, group_ids@, amounts@, 0, 0);
            assert forall|k: int| 0 <= k < tx_ids@.len() implies #[trigger] tx_ids@[k] < txs@.len() by {
                assert(split_piece(sizes@, bar_size as int, tx_ids@, group_ids@, amounts@, k));
            }
        } else {
            lemma_overflow_bars(sizes@, bar_size as int, group_ids@, 0, 0);
        }
    }
    let r = aggregate_bars(txs, &tx_ids, &group_ids, &amounts);
    assert(bars_of(txs@, tx_ids@, group_ids@, amounts@, r));
    r
}

/// The amount a bar accumulates: traded size, or traded value in tick units.
#[derive(Clone, Copy, Debug, PartialEq, Eq, Structural)]
pub enum Threshold {
    Volume(u64),
    Dollar(u64),
}

/// Why transactions could not be cut into bars.
#[derive(Clone, Copy, Debug, PartialEq, Eq, Structural)]
pub enum BarError {
    /// A bar of size zero would never fill.
    ZeroThreshold,
    /// The traded value of a transaction does not fit in 64 bits.
    ValueOverflow,
}

/// The traded value `price * size` of each transaction.
pub open spec fn notionals_of(txs: Seq<Transaction>) -> Seq<int> {
    Seq::new(txs.len(), |k: int| txs[k].price * txs[k].size)
}

/// Some transaction's traded value does not fit in 64 bits.
pub open spec fn value_overflow(txs: Seq<Transaction>) -> bool {
    exists|k: int| 0 <= k < txs.len() && #[trigger] notionals_of(txs)[k] > u64::MAX
}

pub open spec fn threshold_size(threshold: Threshold) -> int {
    match threshold {
        Threshold::Volume(v) => v as int,
        Threshold::Dollar(d) => d as int,
    }
}

/// Cuts transactions into bars of traded size or of traded value.
pub fn threshold_bar_groups(txs: &Vec<Transaction>, threshold: Threshold, allow_splits: bool) -> (r:
    Result<(Vec<usize>, Vec<usize>, Vec<u64>), BarError>)
    ensures
        match r {
            Ok((tx, group, amounts)) => threshold_size(threshold) > 0 && match threshold {
                Threshold::Volume(v) => segmentation(
                    sizes_of(txs@),
                    v as int,
                    allow_splits,
                    tx@,
                    group@,
                    amounts@,
                ),
                Threshold::Dollar(d) => !value_overflow(txs@) && segmentation(
                    Seq::new(txs@.len(), |k: int| notionals_of(txs@)[k] as u64),
                    d as int,
                    allow_splits,
                    tx@,
                    group@,
                    amounts@,
                ),
            },
            Err(e) => if threshold_size(threshold) == 0 {
                e == BarError::ZeroThreshold
            } else {
                threshold is Dollar && value_overflow(txs@) && e == BarError::ValueOverflow
            },
        },
{
    let n = txs.len();
    let mut values: Vec<u64> = Vec::with_capacity(n);
    let bar_size = match threshold {
        Threshold::Volume(v) => v,
        Threshold::Dollar(d) => d,
    };
    if bar_size == 0 {
        return Err(BarError::ZeroThreshold);
    }
    let mut i: usize = 0;
    while i < n
        invariant
            0 <= i <= n,
            n == txs@.len(),
            bar_size as int == threshold_size(threshold),
            bar_size > 0,
            values@.len() == i,
            forall|k: int|
                0 <= k < i ==> #[trigger] values@[k] == (match threshold {
                    Threshold::Volume(_) => txs@[k].size as int,
                    Threshold::Dollar(_) => notionals_of(txs@)[k],
                }),
        decreases n - i,
    {
        let tr = txs[i];
        let v = match threshold {
            Threshold::Volume(_) => tr.size,
            Threshold::Dollar(_) => match tr.price.checked_mul(tr.size) {
                Some(p) => p,
                None => {
                    assert(notionals_of(txs@)[i as int] > u64::MAX);
                    assert(value_overflow(txs@));
                    assert(threshold_size(threshold) == bar_size);
                    return Err(BarError::ValueOverflow);
                },
            },
        };
        values.push(v);
        i = i + 1;
    }
    proof {
        if threshold is Dollar {
            assert forall|k: int| 0 <= k < n implies !(#[trigger] notionals_of(txs@)[k] > u64::MAX) by {
                assert(values@[k] == notionals_of(txs@)[k]);
            }
        }
    }
    match threshold {
        Threshold::Volume(_) => assert(values@ =~= sizes_of(txs@)),
        Threshold::Dollar(_) => assert(values@ =~= Seq::new(
            txs@.len(),
            |k: int| notionals_of(txs@)[k] as u64,
        )),
    }
    Ok(compute_bar_groups(&values, bar_size, allow_splits))
}

} // verus!
