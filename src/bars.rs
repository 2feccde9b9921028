use vstd::prelude::*;

verus! {

/// Sum of a sequence of amounts.
pub open spec fn seq_sum(s: Seq<u64>) -> int
    decreases s.len(),
{
    if s.len() == 0 {
        0
    } else {
        seq_sum(s.drop_last()) + s.last()
    }
}

/// Sum of the first `k` amounts.
pub open spec fn prefix_sum(s: Seq<u64>, k: int) -> int {
    seq_sum(s.take(k))
}

/// Piece `k` of a split segmentation: a positive amount of transaction `tx[k]`
/// that lies, on the line of cumulative amounts, inside that transaction and
/// inside bar `group[k]`, which covers `[group[k] * bar_size, (group[k] + 1) * bar_size)`.
pub open spec fn split_piece(
    values: Seq<u64>,
    bar_size: int,
    tx: Seq<usize>,
    group: Seq<usize>,
    amounts: Seq<u64>,
    k: int,
) -> bool {
    &&& amounts[k] > 0
    &&& tx[k] < values.len()
    &&& prefix_sum(values, tx[k] as int) <= prefix_sum(amounts, k)
    &&& prefix_sum(amounts, k + 1) <= prefix_sum(values, tx[k] + 1)
    &&& group[k] * bar_size <= prefix_sum(amounts, k)
    &&& prefix_sum(amounts, k + 1) <= (group[k] + 1) * bar_size
}

/// The split segmentation: pieces that cover all the values in order, each within
/// one transaction and one bar, with no piece cut where neither a transaction nor
/// a bar ends.
pub open spec fn split_segmentation(
    values: Seq<u64>,
    bar_size: int,
    tx: Seq<usize>,
    group: Seq<usize>,
    amounts: Seq<u64>,
) -> bool {
    &&& tx.len() == amounts.len()
    &&& group.len() == amounts.len()
    &&& forall|k: int| 0 <= k < amounts.len() ==> split_piece(values, bar_size, tx, group, amounts, k)
    &&& forall|k: int|
        0 <= k < amounts.len() - 1 ==> #[trigger] tx[k] != tx[k + 1] || group[k] != group[k + 1]
    &&& seq_sum(amounts) == seq_sum(values)
}

/// Group of the next row and running sum of the open group after the rows of
/// `values`, when a group closes as soon as its sum reaches `bar_size`.
pub open spec fn overflow_state(values: Seq<u64>, bar_size: int) -> (int, int)
    decreases values.len(),
{
    if values.len() == 0 {
        (0, 0)
    } else {
        let (g, s) = overflow_state(values.drop_last(), bar_size);
        if s + values.last() >= bar_size {
            (g + 1, 0)
        } else {
            (g, s + values.last())
        }
    }
}

proof fn lemma_prefix_push(s: Seq<u64>, x: u64, k: int)
    requires
        0 <= k <= s.len(),
    ensures
        prefix_sum(s.push(x), k) == prefix_sum(s, k),
        prefix_sum(s.push(x), s.len() + 1int) == seq_sum(s) + x,
{
    assert(s.push(x).take(k) =~= s.take(k));
    assert(s.push(x).take(s.len() + 1int) =~= s.push(x));
    assert(s.push(x).drop_last() =~= s);
    assert(s.take(s.len() as int) =~= s);
}

proof fn lemma_prefix_next(s: Seq<u64>, k: int)
    requires
        0 <= k < s.len(),
    ensures
        prefix_sum(s, k + 1) == prefix_sum(s, k) + s[k],
{
    assert(s.take(k + 1).drop_last() =~= s.take(k));
}

/// The bar id of row `k` when bars close as soon as their sum reaches `bar_size`.
pub open spec fn overflow_segmentation(
    values: Seq<u64>,
    bar_size: int,
    tx: Seq<usize>,
    group: Seq<usize>,
    amounts: Seq<u64>,
) -> bool {
    &&& tx.len() == values.len()
    &&& group.len() == values.len()
    &&& amounts == values
    &&& forall|k: int| 0 <= k < values.len() ==> tx[k] == k
    &&& forall|k: int|
        0 <= k < values.len() ==> group[k] == overflow_state(#[trigger] values.take(k), bar_size).0
}

/// What `compute_bar_groups` returns, in either mode.
pub open spec fn segmentation(
    values: Seq<u64>,
    bar_size: int,
    allow_splits: bool,
    tx: Seq<usize>,
    group: Seq<usize>,
    amounts: Seq<u64>,
) -> bool {
    if allow_splits {
        split_segmentation(values, bar_size, tx, group, amounts)
    } else {
        overflow_segmentation(values, bar_size, tx, group, amounts)
    }
}

/// Assigns each value to bars of `bar_size`, returning for every piece its
/// transaction id, bar id and amount.
///
/// With `allow_splits`, a value that crosses a bar boundary is cut so that every
/// closed bar holds exactly `bar_size`; a value may then span several bars.
/// Without it, each value goes whole to the open bar, and the bar closes once its
/// sum reaches `bar_size`.
pub fn compute_bar_groups(values: &Vec<u64>, bar_size: u64, allow_splits: bool) -> (r: (
    Vec<usize>,
    Vec<usize>,
    Vec<u64>,
))
    requires
        bar_size > 0,
    ensures
        segmentation(values@, bar_size as int, allow_splits, r.0@, r.1@, r.2@),
{
    if allow_splits {
        split_groups(values, bar_size)
    } else {
        overflow_groups(values, bar_size)
    }
}

fn overflow_groups(values: &Vec<u64>, bar_size: u64) -> (r: (Vec<usize>, Vec<usize>, Vec<u64>))
    requires
        bar_size > 0,
    ensures
        overflow_segmentation(values@, bar_size as int, r.0@, r.1@, r.2@),
{
    let n = values.len();
    let mut transaction_ids: Vec<usize> = Vec::with_capacity(n);
    let mut group_ids: Vec<usize> = Vec::with_capacity(n);
    let mut amounts: Vec<u64> = Vec::with_capacity(n);
    let mut current_sum: u64 = 0;
    let mut group_id: usize = 0;
    let mut t: usize = 0;
    while t < n
        invariant
            0 <= t <= n,
            n == values@.len(),
            transaction_ids@.len() == t,
            group_ids@.len() == t,
            amounts@ == values@.take(t as int),
            forall|k: int| 0 <= k < t ==> transaction_ids@[k] == k,
            forall|k: int|
                0 <= k < t ==> group_ids@[k] == overflow_state(
                    #[trigger] values@.take(k),
                    bar_size as int,
                ).0,
            overflow_state(values@.take(t as int), bar_size as int) == (
                group_id as int,
                current_sum as int,
            ),
            current_sum < bar_size,
            group_id <= t,
        decreases n - t,
    {
        let v = values[t];
        transaction_ids.push(t);
        group_ids.push(group_id);
        amounts.push(v);
        assert(values@.take(t + 1).drop_last() =~= values@.take(t as int));
        if v >= bar_size - current_sum {
            group_id = group_id + 1;
            current_sum = 0;
        } else {
            current_sum = current_sum + v;
        }
        assert(amounts@ =~= values@.take(t + 1));
        t = t + 1;
    }
    assert(values@.take(n as int) =~= values@);
    (transaction_ids, group_ids, amounts)
}

fn split_groups(values: &Vec<u64>, bar_size: u64) -> (r: (Vec<usize>, Vec<usize>, Vec<u64>))
    requires
        bar_size > 0,
    ensures
        split_segmentation(values@, bar_size as int, r.0@, r.1@, r.2@),
{
    let ghost vals = values@;
    let ghost b = bar_size as int;
    let n = values.len();
    let mut transaction_ids: Vec<usize> = Vec::new();
    let mut group_ids: Vec<usize> = Vec::new();
    let mut amounts: Vec<u64> = Vec::new();
    let mut current_sum: u64 = 0;
    let mut group_id: usize = 0;
    let mut t: usize = 0;
    assert(vals.take(0) =~= Seq::<u64>::empty());
    assert(amounts@.take(0) =~= Seq::<u64>::empty());
    while t < n
        invariant
            0 <= t <= n,
            n == vals.len(),
            vals == values@,
            b == bar_size as int,
            b > 0,
            transaction_ids@.len() == amounts@.len(),
            group_ids@.len() == amounts@.len(),
            forall|k: int|
                0 <= k < amounts@.len() ==> split_piece(
                    vals,
                    b,
                    transaction_ids@,
                    group_ids@,
                    amounts@,
                    k,
                ),
            forall|k: int|
                0 <= k < amounts@.len() - 1 ==> #[trigger] transaction_ids@[k] != transaction_ids@[k + 1]
                    || group_ids@[k] != group_ids@[k + 1],
            forall|k: int| 0 <= k < amounts@.len() ==> transaction_ids@[k] < t,
            prefix_sum(amounts@, amounts@.len() as int) == prefix_sum(vals, t as int),
            group_id * b + current_sum == prefix_sum(vals, t as int),
            current_sum < bar_size,
            group_id <= amounts@.len(),
        decreases n - t,
    {
        let v = values[t];
        let mut remaining = v;
        proof {
            lemma_prefix_next(vals, t as int);
        }
        while remaining > 0
            invariant
                0 <= t < n,
                n == vals.len(),
                vals == values@,
                b == bar_size as int,
                b > 0,
                transaction_ids@.len() == amounts@.len(),
                group_ids@.len() == amounts@.len(),
                forall|k: int|
                    0 <= k < amounts@.len() ==> split_piece(
                        vals,
                        b,
                        transaction_ids@,
                        group_ids@,
                        amounts@,
                        k,
                    ),
                forall|k: int|
                    0 <= k < amounts@.len() - 1 ==> #[trigger] transaction_ids@[k] != transaction_ids@[k
                        + 1] || group_ids@[k] != group_ids@[k + 1],
                forall|k: int| 0 <= k < amounts@.len() ==> transaction_ids@[k] <= t,
                remaining > 0 && amounts@.len() > 0 ==> transaction_ids@[amounts@.len() - 1] < t
                    || group_ids@[amounts@.len() - 1] < group_id,
                prefix_sum(vals, t as int) <= prefix_sum(amounts@, amounts@.len() as int),
                prefix_sum(amounts@, amounts@.len() as int) + remaining == prefix_sum(
                    vals,
                    t + 1,
                ),
                group_id * b + current_sum == prefix_sum(amounts@, amounts@.len() as int),
                current_sum < bar_size,
                group_id <= amounts@.len(),
            decreases remaining,
        {
            let ghost m = amounts@.len() as int;
            let ghost c = prefix_sum(amounts@, m);
            let ghost old_tx = transaction_ids@;
            let ghost old_g = group_ids@;
            let ghost old_a = amounts@;
            let amount = if remaining >= bar_size - current_sum {
                bar_size - current_sum
            } else {
                remaining
            };
            transaction_ids.push(t);
            group_ids.push(group_id);
            amounts.push(amount);
            proof {
                assert forall|k: int| 0 <= k <= m implies prefix_sum(amounts@, k) == prefix_sum(
                    old_a,
                    k,
                ) by {
                    lemma_prefix_push(old_a, amount, k);
                }
                lemma_prefix_push(old_a, amount, m);
                assert(old_a.take(m) =~= old_a);
                assert(prefix_sum(amounts@, m + 1) == c + amount);
                assert((group_id + 1) * b == group_id * b + b) by (nonlinear_arith);
                assert forall|k: int| 0 <= k < amounts@.len() implies split_piece(
                    vals,
                    b,
                    transaction_ids@,
                    group_ids@,
                    amounts@,
                    k,
                ) by {
                    if k < m {
                        assert(split_piece(vals, b, old_tx, old_g, old_a, k));
                    }
                }
            }
            let pieces = amounts.len();
            if remaining >= bar_size - current_sum {
                assert(group_id < pieces);
                group_id = group_id + 1;
                current_sum = 0;
            } else {
                current_sum = current_sum + amount;
            }
            remaining = remaining - amount;
            assert(amounts@.take(amounts@.len() as int) =~= amounts@);
        }
        t = t + 1;
    }
    assert(amounts@.take(amounts@.len() as int) =~= amounts@);
    assert(vals.take(n as int) =~= vals);
    (transaction_ids, group_ids, amounts)
}

/// Pieces `[lo, hi)` are all the pieces of one bar.
pub open spec fn bar_run(group: Seq<usize>, lo: int, hi: int) -> bool {
    &&& 0 <= lo < hi <= group.len()
    &&& forall|k: int| lo <= k < hi ==> #[trigger] group[k] == group[lo]
    &&& lo == 0 || group[lo - 1] != group[lo]
    &&& hi == group.len() || group[hi] != group[lo]
}

proof fn lemma_sum_subrange(s: Seq<u64>, lo: int, hi: int)
    requires
        0 <= lo <= hi <= s.len(),
    ensures
        prefix_sum(s, hi) == prefix_sum(s, lo) + seq_sum(s.subrange(lo, hi)),
    decreases hi - lo,
{
    if hi == lo {
        assert(s.subrange(lo, hi) =~= Seq::<u64>::empty());
    } else {
        lemma_sum_subrange(s, lo, hi - 1);
        lemma_prefix_next(s, hi - 1);
        assert(s.subrange(lo, hi).drop_last() =~= s.subrange(lo, hi - 1));
    }
}

proof fn lemma_split_monotone(
    values: Seq<u64>,
    bar_size: int,
    tx: Seq<usize>,
    group: Seq<usize>,
    amounts: Seq<u64>,
)
    requires
        bar_size > 0,
        split_segmentation(values, bar_size, tx, group, amounts),
    ensures
        amounts.len() > 0 ==> group[0] == 0,
        forall|k: int|
            0 <= k < amounts.len() - 1 ==> group[k] <= #[trigger] group[k + 1] <= group[k] + 1,
        forall|k: int|
            0 <= k < amounts.len() - 1 && #[trigger] group[k + 1] == group[k] + 1 ==> prefix_sum(
                amounts,
                k + 1,
            ) == (group[k] + 1) * bar_size,
        forall|k: int|
            0 <= k < amounts.len() ==> prefix_sum(amounts, k) < #[trigger] prefix_sum(
                amounts,
                k + 1,
            ),
{
    assert forall|k: int| 0 <= k < amounts.len() implies prefix_sum(amounts, k) < #[trigger] prefix_sum(
        amounts,
        k + 1,
    ) by {
        lemma_prefix_next(amounts, k);
        assert(split_piece(values, bar_size, tx, group, amounts, k));
    }
    if amounts.len() > 0 {
        assert(split_piece(values, bar_size, tx, group, amounts, 0));
        assert(amounts.take(0) =~= Seq::<u64>::empty());
        let g0 = group[0] as int;
        assert(g0 == 0) by (nonlinear_arith)
            requires
                g0 * bar_size <= 0,
                g0 >= 0,
                bar_size > 0,
        ;
    }
    assert forall|k: int| 0 <= k < amounts.len() - 1 implies group[k] <= #[trigger] group[k + 1]
        <= group[k] + 1 && (group[k + 1] == group[k] + 1 ==> prefix_sum(amounts, k + 1) == (group[k]
        + 1) * bar_size) by {
        assert(split_piece(values, bar_size, tx, group, amounts, k));
        assert(split_piece(values, bar_size, tx, group, amounts, k + 1));
        assert(prefix_sum(amounts, k + 1) < prefix_sum(amounts, k + 2));
        let x = group[k] as int;
        let y = group[k + 1] as int;
        let c0 = prefix_sum(amounts, k);
        let c1 = prefix_sum(amounts, k + 1);
        let c2 = prefix_sum(amounts, k + 2);
        assert(y <= x + 1) by (nonlinear_arith)
            requires
                y * bar_size <= c1,
                c1 <= (x + 1) * bar_size,
                bar_size > 0,
        ;
        assert(x <= y) by (nonlinear_arith)
            requires
                x * bar_size <= c0,
                c0 < c1,
                c1 < c2,
                c2 <= (y + 1) * bar_size,
                bar_size > 0,
        ;
    }
}

/// In split mode every closed bar holds exactly `bar_size` and the last bar holds
/// at most `bar_size`; bar ids start at 0 and rise by at most one from piece to piece.
pub proof fn lemma_split_bars_exact(
    values: Seq<u64>,
    bar_size: int,
    tx: Seq<usize>,
    group: Seq<usize>,
    amounts: Seq<u64>,
    lo: int,
    hi: int,
)
    requires
        bar_size > 0,
        split_segmentation(values, bar_size, tx, group, amounts),
    ensures
        amounts.len() > 0 ==> group[0] == 0,
        forall|k: int|
            0 <= k < amounts.len() - 1 ==> group[k] <= #[trigger] group[k + 1] <= group[k] + 1,
        bar_run(group, lo, hi) && hi < group.len() ==> seq_sum(amounts.subrange(lo, hi))
            == bar_size,
        bar_run(group, lo, hi) && hi == group.len() ==> 0 < seq_sum(amounts.subrange(lo, hi))
            <= bar_size,
{
    lemma_split_monotone(values, bar_size, tx, group, amounts);
    if bar_run(group, lo, hi) {
        lemma_sum_subrange(amounts, lo, hi);
        let x = group[lo] as int;
        assert(group[hi - 1] == group[lo]);
        assert(split_piece(values, bar_size, tx, group, amounts, lo));
        assert(split_piece(values, bar_size, tx, group, amounts, hi - 1));
        if lo == 0 {
            assert(amounts.take(0) =~= Seq::<u64>::empty());
            assert(x * bar_size == 0);
        } else {
            let k = lo - 1;
            assert(group[k] <= group[k + 1] <= group[k] + 1);
            assert(group[k + 1] == group[k] + 1);
            assert(prefix_sum(amounts, k + 1) == (group[k] + 1) * bar_size);
        }
        assert(prefix_sum(amounts, lo) == x * bar_size);
        assert(prefix_sum(amounts, lo) < prefix_sum(amounts, lo + 1));
        if lo + 1 < hi {
            lemma_increasing(values, bar_size, tx, group, amounts, lo + 1, hi);
        }
        assert((x + 1) * bar_size == x * bar_size + bar_size) by (nonlinear_arith);
        if hi < group.len() {
            let k = hi - 1;
            assert(group[k] <= group[k + 1] <= group[k] + 1);
            assert(group[k + 1] == group[k] + 1);
            assert(prefix_sum(amounts, k + 1) == (group[k] + 1) * bar_size);
        }
    }
}

proof fn lemma_increasing(
    values: Seq<u64>,
    bar_size: int,
    tx: Seq<usize>,
    group: Seq<usize>,
    amounts: Seq<u64>,
    i: int,
    j: int,
)
    requires
        bar_size > 0,
        split_segmentation(values, bar_size, tx, group, amounts),
        0 <= i <= j <= amounts.len(),
    ensures
        prefix_sum(amounts, i) <= prefix_sum(amounts, j),
    decreases j - i,
{
    if i < j {
        lemma_increasing(values, bar_size, tx, group, amounts, i, j - 1);
        lemma_prefix_next(amounts, j - 1);
        assert(split_piece(values, bar_size, tx, group, amounts, j - 1));
    }
}

proof fn lemma_overflow_step(values: Seq<u64>, bar_size: int, k: int)
    requires
        0 <= k < values.len(),
    ensures
        overflow_state(values.take(k + 1), bar_size) == (if overflow_state(values.take(k), bar_size).1
            + values[k] >= bar_size {
            (overflow_state(values.take(k), bar_size).0 + 1, 0)
        } else {
            (
                overflow_state(values.take(k), bar_size).0,
                overflow_state(values.take(k), bar_size).1 + values[k],
            )
        }),
{
    assert(values.take(k + 1).drop_last() =~= values.take(k));
}

proof fn lemma_overflow_sum_bounded(values: Seq<u64>, bar_size: int)
    requires
        bar_size > 0,
    ensures
        0 <= overflow_state(values, bar_size).1 < bar_size,
    decreases values.len(),
{
    if values.len() > 0 {
        lemma_overflow_sum_bounded(values.drop_last(), bar_size);
    }
}

proof fn lemma_overflow_run_sum(values: Seq<u64>, bar_size: int, group: Seq<usize>, lo: int, k: int)
    requires
        bar_size > 0,
        group.len() == values.len(),
        forall|j: int|
            0 <= j < values.len() ==> group[j] == overflow_state(
                #[trigger] values.take(j),
                bar_size,
            ).0,
        0 <= lo <= k < values.len(),
        lo == 0 || group[lo - 1] != group[lo],
        forall|j: int| lo <= j <= k ==> #[trigger] group[j] == group[lo],
    ensures
        overflow_state(values.take(k), bar_size).1 == seq_sum(values.subrange(lo, k)),
    decreases k - lo,
{
    if k == lo {
        assert(values.subrange(lo, k) =~= Seq::<u64>::empty());
        if lo == 0 {
            assert(values.take(0) =~= Seq::<u64>::empty());
        } else {
            lemma_overflow_step(values, bar_size, lo - 1);
            assert(values.take(lo - 1) == values.take(lo - 1));
            assert(group[lo - 1] == overflow_state(values.take(lo - 1), bar_size).0);
        }
    } else {
        lemma_overflow_run_sum(values, bar_size, group, lo, k - 1);
        lemma_overflow_step(values, bar_size, k - 1);
        assert(group[k - 1] == overflow_state(values.take(k - 1), bar_size).0);
        assert(group[k] == overflow_state(values.take(k), bar_size).0);
        assert(values.subrange(lo, k).drop_last() =~= values.subrange(lo, k - 1));
    }
}

/// Without splits a bar takes rows whole and closes at the first row where its
/// sum reaches `bar_size`: a bar holds less than `bar_size` before its last row,
/// and every bar but the last holds at least `bar_size`.
pub proof fn lemma_overflow_bars(values: Seq<u64>, bar_size: int, group: Seq<usize>, lo: int, hi: int)
    requires
        bar_size > 0,
        group.len() == values.len(),
        forall|j: int|
            0 <= j < values.len() ==> group[j] == overflow_state(
                #[trigger] values.take(j),
                bar_size,
            ).0,
    ensures
        values.len() > 0 ==> group[0] == 0,
        forall|k: int|
            0 <= k < values.len() - 1 ==> group[k] <= #[trigger] group[k + 1] <= group[k] + 1,
        bar_run(group, lo, hi) ==> seq_sum(values.subrange(lo, hi - 1)) < bar_size,
        bar_run(group, lo, hi) && hi < group.len() ==> seq_sum(values.subrange(lo, hi))
            >= bar_size,
{
    if values.len() > 0 {
        assert(values.take(0) =~= Seq::<u64>::empty());
        assert(group[0] == overflow_state(values.take(0), bar_size).0);
    }
    assert forall|k: int| 0 <= k < values.len() - 1 implies group[k] <= #[trigger] group[k + 1]
        <= group[k] + 1 by {
        lemma_overflow_step(values, bar_size, k);
        assert(group[k] == overflow_state(values.take(k), bar_size).0);
        assert(group[k + 1] == overflow_state(values.take(k + 1), bar_size).0);
    }
    if bar_run(group, lo, hi) {
        lemma_overflow_run_sum(values, bar_size, group, lo, hi - 1);
        lemma_overflow_sum_bounded(values.take(hi - 1), bar_size);
        if hi < group.len() {
            lemma_overflow_step(values, bar_size, hi - 1);
            assert(group[hi - 1] == overflow_state(values.take(hi - 1), bar_size).0);
            assert(group[hi] == overflow_state(values.take(hi), bar_size).0);
            assert(values.subrange(lo, hi).drop_last() =~= values.subrange(lo, hi - 1));
        }
    }
}

/// Bar of the next row and rows counted in the open bar after the rows whose
/// thresholds are `thresholds`: a bar closes once its row count reaches the
/// threshold of the row that is added.
pub open spec fn tick_state(thresholds: Seq<u64>) -> (int, int)
    decreases thresholds.len(),
{
    if thresholds.len() == 0 {
        (0, 0)
    } else {
        let (g, c) = tick_state(thresholds.drop_last());
        if c + 1 >= thresholds.last() {
            (g + 1, 0)
        } else {
            (g, c + 1)
        }
    }
}

/// Bar id of each row for tick bars whose size each row sets for itself.
pub fn tick_bar_groups(thresholds: &Vec<u64>) -> (r: Vec<usize>)
    ensures
        r@.len() == thresholds@.len(),
        forall|k: int|
            0 <= k < thresholds@.len() ==> r@[k] == tick_state(#[trigger] thresholds@.take(k)).0,
{
    let n = thresholds.len();
    let mut group_ids: Vec<usize> = Vec::with_capacity(n);
    let mut count: usize = 0;
    let mut group_id: usize = 0;
    let mut t: usize = 0;
    assert(thresholds@.take(0) =~= Seq::<u64>::empty());
    while t < n
        invariant
            0 <= t <= n,
            n == thresholds@.len(),
            group_ids@.len() == t,
            forall|k: int|
                0 <= k < t ==> group_ids@[k] == tick_state(#[trigger] thresholds@.take(k)).0,
            tick_state(thresholds@.take(t as int)) == (group_id as int, count as int),
            count <= t,
            group_id <= t,
        decreases n - t,
    {
        group_ids.push(group_id);
        assert(thresholds@.take(t + 1).drop_last() =~= thresholds@.take(t as int));
        if count as u64 + 1 >= thresholds[t] {
            group_id = group_id + 1;
            count = 0;
        } else {
            count = count + 1;
        }
        t = t + 1;
    }
    group_ids
}

proof fn lemma_prefix_monotone(s: Seq<u64>, i: int, j: int)
    requires
        0 <= i <= j <= s.len(),
    ensures
        prefix_sum(s, i) <= prefix_sum(s, j),
    decreases j - i,
{
    if i < j {
        lemma_prefix_monotone(s, i, j - 1);
        lemma_prefix_next(s, j - 1);
    }
}

/// Transaction ids never go back, in either mode.
proof fn lemma_tx_sorted(
    values: Seq<u64>,
    bar_size: int,
    allow_splits: bool,
    tx: Seq<usize>,
    group: Seq<usize>,
    amounts: Seq<u64>,
)
    requires
        bar_size > 0,
        segmentation(values, bar_size, allow_splits, tx, group, amounts),
    ensures
        tx.len() == amounts.len(),
        group.len() == amounts.len(),
        forall|k: int| 0 <= k < tx.len() ==> #[trigger] tx[k] < values.len(),
        forall|k: int| 0 <= k < tx.len() - 1 ==> tx[k] <= #[trigger] tx[k + 1],
{
    if allow_splits {
        assert forall|k: int| 0 <= k < tx.len() implies #[trigger] tx[k] < values.len() by {
            assert(split_piece(values, bar_size, tx, group, amounts, k));
        }
        assert forall|k: int| 0 <= k < tx.len() - 1 implies tx[k] <= #[trigger] tx[k + 1] by {
            assert(split_piece(values, bar_size, tx, group, amounts, k));
            assert(split_piece(values, bar_size, tx, group, amounts, k + 1));
            lemma_prefix_next(amounts, k);
            lemma_prefix_next(amounts, k + 1);
            if tx[k + 1] < tx[k] {
                lemma_prefix_monotone(values, tx[k + 1] + 1, tx[k] as int);
            }
        }
    }
}

/// The pieces among the first `j` that belong to transaction `t`, as (bar id, amount).
pub open spec fn row_pieces_upto(
    tx: Seq<usize>,
    group: Seq<usize>,
    amounts: Seq<u64>,
    t: int,
    j: int,
) -> Seq<(usize, u64)>
    decreases j,
{
    if j <= 0 {
        Seq::empty()
    } else if tx[j - 1] == t {
        row_pieces_upto(tx, group, amounts, t, j - 1).push((group[j - 1], amounts[j - 1]))
    } else {
        row_pieces_upto(tx, group, amounts, t, j - 1)
    }
}

/// The pieces of transaction `t`, in order, as (bar id, amount).
pub open spec fn row_pieces(tx: Seq<usize>, group: Seq<usize>, amounts: Seq<u64>, t: int) -> Seq<
    (usize, u64),
> {
    row_pieces_upto(tx, group, amounts, t, amounts.len() as int)
}

proof fn lemma_row_skip(tx: Seq<usize>, group: Seq<usize>, amounts: Seq<u64>, t: int, k: int, m: int)
    requires
        0 <= k <= m <= tx.len(),
        forall|j: int| k <= j < m ==> #[trigger] tx[j] != t,
    ensures
        row_pieces_upto(tx, group, amounts, t, m) == row_pieces_upto(tx, group, amounts, t, k),
    decreases m - k,
{
    if k < m {
        lemma_row_skip(tx, group, amounts, t, k, m - 1);
    }
}

proof fn lemma_sorted_between(tx: Seq<usize>, i: int, j: int)
    requires
        forall|k: int| 0 <= k < tx.len() - 1 ==> tx[k] <= #[trigger] tx[k + 1],
        0 <= i <= j < tx.len(),
    ensures
        tx[i] <= tx[j],
    decreases j - i,
{
    if i < j {
        lemma_sorted_between(tx, i, j - 1);
        assert(tx[j - 1] <= tx[(j - 1) + 1]);
    }
}

/// Collects the pieces of each of `n` transactions from sorted pieces.
fn rows_of_pieces(n: usize, tx_ids: &Vec<usize>, group_ids: &Vec<usize>, amounts: &Vec<u64>) -> (r:
    Vec<Vec<(usize, u64)>>)
    requires
        tx_ids@.len() == amounts@.len(),
        group_ids@.len() == amounts@.len(),
        forall|k: int| 0 <= k < tx_ids@.len() ==> #[trigger] tx_ids@[k] < n,
        forall|k: int| 0 <= k < tx_ids@.len() - 1 ==> tx_ids@[k] <= #[trigger] tx_ids@[k + 1],
    ensures
        r@.len() == n,
        forall|t: int|
            0 <= t < n ==> (#[trigger] r@[t])@ == row_pieces(tx_ids@, group_ids@, amounts@, t),
{
    let ghost tx = tx_ids@;
    let m = amounts.len();
    let mut rows: Vec<Vec<(usize, u64)>> = Vec::with_capacity(n);
    let mut k: usize = 0;
    let mut t: usize = 0;
    while t < n
        invariant
            0 <= t <= n,
            0 <= k <= m,
            m == amounts@.len(),
            tx == tx_ids@,
            tx.len() == m,
            group_ids@.len() == m,
            forall|j: int| 0 <= j < tx.len() ==> #[trigger] tx[j] < n,
            forall|j: int| 0 <= j < tx.len() - 1 ==> tx[j] <= #[trigger] tx[j + 1],
            forall|j: int| 0 <= j < k ==> #[trigger] tx[j] < t,
            k < m ==> tx[k as int] >= t,
            rows@.len() == t,
            forall|u: int|
                0 <= u < t ==> (#[trigger] rows@[u])@ == row_pieces(tx, group_ids@, amounts@, u),
        decreases n - t,
    {
        let mut row: Vec<(usize, u64)> = Vec::new();
        proof {
            lemma_row_skip(tx, group_ids@, amounts@, t as int, 0, k as int);
        }
        while k < m && tx_ids[k] == t
            invariant
                0 <= t < n,
                0 <= k <= m,
                m == amounts@.len(),
                tx == tx_ids@,
                tx.len() == m,
                group_ids@.len() == m,
                forall|j: int| 0 <= j < tx.len() - 1 ==> tx[j] <= #[trigger] tx[j + 1],
                forall|j: int| 0 <= j < k ==> #[trigger] tx[j] <= t,
                k < m ==> tx[k as int] >= t,
                row@ == row_pieces_upto(tx, group_ids@, amounts@, t as int, k as int),
            decreases m - k,
        {
            row.push((group_ids[k], amounts[k]));
            proof {
                if k + 1 < m {
                    assert(tx[k as int] <= tx[k + 1]);
                }
            }
            k = k + 1;
        }
        proof {
            assert forall|j: int| k <= j < m implies #[trigger] tx[j] != t by {
                lemma_sorted_between(tx, k as int, j);
            }
            lemma_row_skip(tx, group_ids@, amounts@, t as int, k as int, m as int);
            assert forall|j: int| 0 <= j < k implies #[trigger] tx[j] < t + 1 by {}
        }
        rows.push(row);
        t = t + 1;
    }
    rows
}

/// For each value, the (bar id, amount) pieces it was cut into by `compute_bar_groups`.
pub fn create_row_groups(values: &Vec<u64>, bar_size: u64, allow_splits: bool) -> (r: Vec<
    Vec<(usize, u64)>,
>)
    requires
        bar_size > 0,
    ensures
        r@.len() == values@.len(),
        exists|tx: Seq<usize>, group: Seq<usize>, amounts: Seq<u64>|
            #[trigger] segmentation(values@, bar_size as int, allow_splits, tx, group, amounts)
                && forall|t: int|
                0 <= t < values@.len() ==> (#[trigger] r@[t])@ == row_pieces(tx, group, amounts, t),
{
    let (tx_ids, group_ids, amounts) = compute_bar_groups(values, bar_size, allow_splits);
    proof {
        lemma_tx_sorted(values@, bar_size as int, allow_splits, tx_ids@, group_ids@, amounts@);
    }
    rows_of_pieces(values.len(), &tx_ids, &group_ids, &amounts)
}

} // verus!
