use vstd::prelude::*;
use crate::weights::{COEFF_LIMIT, QuantKey, Weights};

verus! {

// The calibration harness: a brute-force grid sweep over the weight
// space. Coefficients are fixed-point thousandths, so a range is
// enumerated by exact repeated addition of the step and the enumerated
// count always agrees with the iteration count - no accumulated drift.
//
// The sweep is a data-parallel fan-out: evaluating one candidate is
// independent of every other, and the only shared effects are one
// results-table insert and one progress-count increment per candidate,
// performed here in sequence; a driver may partition candidates across
// workers and funnel each (key, aggregate) pair into a single table.

/// One closed coefficient range: lower and upper bound and step, all in
/// thousandths.
#[derive(Copy, Clone, Debug, PartialEq, Eq, Structural)]
pub struct WeightRange {
    pub lo: u64,
    pub hi: u64,
    pub step: u64,
}

/// One range per feature coefficient.
#[derive(Copy, Clone, Debug, PartialEq, Eq, Structural)]
pub struct SweepRanges {
    pub max_value: WeightRange,
    pub adjacent: WeightRange,
    pub empty_cells: WeightRange,
    pub smoothness: WeightRange,
}

impl WeightRange {
    /// A usable range: a positive step, a non-empty span, bounds within
    /// the coefficient limit.
    pub open spec fn wf(&self) -> bool {
        &&& self.step >= 1
        &&& self.lo <= self.hi
        &&& self.hi <= COEFF_LIMIT
    }
}

/// The values a range enumerates: the lower bound, then repeated addition
/// of the step while the upper bound is not exceeded.
pub open spec fn spec_range_values(lo: int, hi: int, step: int) -> Seq<u64>
    decreases hi + step - lo when step >= 1 && lo >= 0
{
    if lo > hi {
        Seq::empty()
    } else {
        seq![lo as u64] + spec_range_values(lo + step, hi, step)
    }
}

/// Every enumerated value lies between the bounds.
pub proof fn lemma_range_values_bounds(lo: int, hi: int, step: int)
    requires
        step >= 1,
        lo >= 0,
        hi <= u64::MAX,
    ensures
        forall|i: int| 0 <= i < spec_range_values(lo, hi, step).len()
            ==> lo <= #[trigger] spec_range_values(lo, hi, step)[i] <= hi,
    decreases hi + step - lo,
{
    if lo <= hi {
        lemma_range_values_bounds(lo + step, hi, step);
        assert(spec_range_values(lo, hi, step)
            == seq![lo as u64] + spec_range_values(lo + step, hi, step));
        assert forall|i: int| 0 <= i < spec_range_values(lo, hi, step).len()
            implies lo <= #[trigger] spec_range_values(lo, hi, step)[i] <= hi by {
            if i == 0 {
                assert(spec_range_values(lo, hi, step)[0] == lo as u64);
            } else {
                assert(spec_range_values(lo, hi, step)[i]
                    == spec_range_values(lo + step, hi, step)[i - 1]);
                assert(lo + step <= spec_range_values(lo + step, hi, step)[i - 1] <= hi);
            }
        }
    }
}

/// The ordered sequence of coefficients a range stands for.
pub fn enumerate_range(r: &WeightRange) -> (v: Vec<u64>)
    requires
        r.wf(),
    ensures
        v@ == spec_range_values(r.lo as int, r.hi as int, r.step as int),
        v@.len() >= 1,
{
    let ghost lo0 = r.lo as int;
    let mut v: Vec<u64> = Vec::new();
    let mut cur: u64 = r.lo;
    proof {
        assert(v@ + spec_range_values(cur as int, r.hi as int, r.step as int)
            =~= spec_range_values(lo0, r.hi as int, r.step as int));
    }
    loop
        invariant_except_break
            r.wf(),
            r.lo <= cur <= r.hi,
            v@ + spec_range_values(cur as int, r.hi as int, r.step as int)
                == spec_range_values(lo0, r.hi as int, r.step as int),
        ensures
            v@ == spec_range_values(lo0, r.hi as int, r.step as int),
            v@.len() >= 1,
        decreases r.hi - cur,
    {
        let ghost pre = v@;
        v.push(cur);
        proof {
            assert(v@ + spec_range_values(cur as int + r.step as int, r.hi as int, r.step as int)
                =~= pre + (seq![cur] + spec_range_values(cur as int + r.step as int, r.hi as int, r.step as int)));
        }
        if r.step > r.hi - cur {
            proof {
                assert(spec_range_values(cur as int + r.step as int, r.hi as int, r.step as int)
                    =~= Seq::<u64>::empty());
                assert(v@ + Seq::<u64>::empty() =~= v@);
            }
            break;
        }
        cur = cur + r.step;
    }
    v
}

/// All (empty-cells, smoothness) coefficient pairs, in order: the first
/// coordinate outermost.
pub open spec fn spec_pairs(xs: Seq<u64>, ys: Seq<u64>) -> Seq<(u64, u64)>
    decreases xs.len(),
{
    if xs.len() == 0 {
        Seq::empty()
    } else {
        Seq::new(ys.len(), |j: int| (xs[0], ys[j])) + spec_pairs(xs.drop_first(), ys)
    }
}

/// One more coordinate prepended to every pair.
pub open spec fn spec_triples(xs: Seq<u64>, ps: Seq<(u64, u64)>) -> Seq<(u64, u64, u64)>
    decreases xs.len(),
{
    if xs.len() == 0 {
        Seq::empty()
    } else {
        Seq::new(ps.len(), |j: int| (xs[0], ps[j].0, ps[j].1)) + spec_triples(xs.drop_first(), ps)
    }
}

/// Weight vectors from a max-value coefficient and the remaining triple.
pub open spec fn spec_weights_of(xs: Seq<u64>, ts: Seq<(u64, u64, u64)>) -> Seq<Weights>
    decreases xs.len(),
{
    if xs.len() == 0 {
        Seq::empty()
    } else {
        Seq::new(
            ts.len(),
            |j: int| Weights {
                max_value: xs[0],
                adjacent: ts[j].0,
                empty_cells: ts[j].1,
                smoothness: ts[j].2,
            },
        ) + spec_weights_of(xs.drop_first(), ts)
    }
}

/// The full Cartesian product of the four enumerated ranges, in row-major
/// order: max-value outermost, smoothness innermost.
pub open spec fn spec_candidates(a: Seq<u64>, b: Seq<u64>, c: Seq<u64>, d: Seq<u64>) -> Seq<Weights> {
    spec_weights_of(a, spec_triples(b, spec_pairs(c, d)))
}

fn pairs(xs: &Vec<u64>, ys: &Vec<u64>) -> (out: Vec<(u64, u64)>)
    ensures
        out@ == spec_pairs(xs@, ys@),
{
    let mut out: Vec<(u64, u64)> = Vec::new();
    let mut i: usize = 0;
    proof {
        assert(xs@.skip(0) =~= xs@);
        assert(out@ + spec_pairs(xs@, ys@) =~= spec_pairs(xs@, ys@));
    }
    while i < xs.len()
        invariant
            i <= xs@.len(),
            out@ + spec_pairs(xs@.skip(i as int), ys@) == spec_pairs(xs@, ys@),
        decreases xs@.len() - i,
    {
        let ghost base = out@;
        let ghost block = Seq::new(ys@.len(), |j: int| (xs@[i as int], ys@[j]));
        let x = xs[i];
        let mut j: usize = 0;
        while j < ys.len()
            invariant
                i < xs@.len(),
                j <= ys@.len(),
                x == xs@[i as int],
                block == Seq::new(ys@.len(), |t: int| (xs@[i as int], ys@[t])),
                out@.len() == base.len() + j,
                forall|t: int| 0 <= t < base.len() ==> out@[t] == base[t],
                forall|t: int| 0 <= t < j ==> out@[base.len() + t] == block[t],
            decreases ys@.len() - j,
        {
            out.push((x, ys[j]));
            j += 1;
        }
        proof {
            assert(out@ =~= base + block);
            assert(xs@.skip(i as int).drop_first() =~= xs@.skip(i as int + 1));
            assert(xs@.skip(i as int)[0] == xs@[i as int]);
            assert(spec_pairs(xs@.skip(i as int), ys@)
                == block + spec_pairs(xs@.skip(i as int + 1), ys@));
            assert((base + block) + spec_pairs(xs@.skip(i as int + 1), ys@)
                =~= base + (block + spec_pairs(xs@.skip(i as int + 1), ys@)));
        }
        i += 1;
    }
    proof {
        assert(xs@.skip(xs@.len() as int) =~= Seq::<u64>::empty());
        assert(out@ + Seq::<(u64, u64)>::empty() =~= out@);
    }
    out
}

fn triples(xs: &Vec<u64>, ps: &Vec<(u64, u64)>) -> (out: Vec<(u64, u64, u64)>)
    ensures
        out@ == spec_triples(xs@, ps@),
{
    let mut out: Vec<(u64, u64, u64)> = Vec::new();
    let mut i: usize = 0;
    proof {
        assert(xs@.skip(0) =~= xs@);
        assert(out@ + spec_triples(xs@, ps@) =~= spec_triples(xs@, ps@));
    }
    while i < xs.len()
        invariant
            i <= xs@.len(),
            out@ + spec_triples(xs@.skip(i as int), ps@) == spec_triples(xs@, ps@),
        decreases xs@.len() - i,
    {
        let ghost base = out@;
        let ghost block = Seq::new(ps@.len(), |j: int| (xs@[i as int], ps@[j].0, ps@[j].1));
        let x = xs[i];
        let mut j: usize = 0;
        while j < ps.len()
            invariant
                i < xs@.len(),
                j <= ps@.len(),
                x == xs@[i as int],
                block == Seq::new(ps@.len(), |t: int| (xs@[i as int], ps@[t].0, ps@[t].1)),
                out@.len() == base.len() + j,
                forall|t: int| 0 <= t < base.len() ==> out@[t] == base[t],
                forall|t: int| 0 <= t < j ==> out@[base.len() + t] == block[t],
            decreases ps@.len() - j,
        {
            let p = ps[j];
            out.push((x, p.0, p.1));
            j += 1;
        }
        proof {
            assert(out@ =~= base + block);
            assert(xs@.skip(i as int).drop_first() =~= xs@.skip(i as int + 1));
            assert(xs@.skip(i as int)[0] == xs@[i as int]);
            assert(spec_triples(xs@.skip(i as int), ps@)
                == block + spec_triples(xs@.skip(i as int + 1), ps@));
            assert((base + block) + spec_triples(xs@.skip(i as int + 1), ps@)
                =~= base + (block + spec_triples(xs@.skip(i as int + 1), ps@)));
        }
        i += 1;
    }
    proof {
        assert(xs@.skip(xs@.len() as int) =~= Seq::<u64>::empty());
        assert(out@ + Seq::<(u64, u64, u64)>::empty() =~= out@);
    }
    out
}

fn weights_of(xs: &Vec<u64>, ts: &Vec<(u64, u64, u64)>) -> (out: Vec<Weights>)
    ensures
        out@ == spec_weights_of(xs@, ts@),
{
    let mut out: Vec<Weights> = Vec::new();
    let mut i: usize = 0;
    proof {
        assert(xs@.skip(0) =~= xs@);
        assert(out@ + spec_weights_of(xs@, ts@) =~= spec_weights_of(xs@, ts@));
    }
    while i < xs.len()
        invariant
            i <= xs@.len(),
            out@ + spec_weights_of(xs@.skip(i as int), ts@) == spec_weights_of(xs@, ts@),
        decreases xs@.len() - i,
    {
        let ghost base = out@;
        let ghost block = Seq::new(
            ts@.len(),
            |j: int| Weights {
                max_value: xs@[i as int],
                adjacent: ts@[j].0,
                empty_cells: ts@[j].1,
                smoothness: ts@[j].2,
            },
        );
        let x = xs[i];
        let mut j: usize = 0;
        while j < ts.len()
            invariant
                i < xs@.len(),
                j <= ts@.len(),
                x == xs@[i as int],
                block == Seq::new(
                    ts@.len(),
                    |t: int| Weights {
                        max_value: xs@[i as int],
                        adjacent: ts@[t].0,
                        empty_cells: ts@[t].1,
                        smoothness: ts@[t].2,
                    },
                ),
                out@.len() == base.len() + j,
                forall|t: int| 0 <= t < base.len() ==> out@[t] == base[t],
                forall|t: int| 0 <= t < j ==> out@[base.len() + t] == block[t],
            decreases ts@.len() - j,
        {
            let t = ts[j];
            out.push(Weights { max_value: x, adjacent: t.0, empty_cells: t.1, smoothness: t.2 });
            j += 1;
        }
        proof {
            assert(out@ =~= base + block);
            assert(xs@.skip(i as int).drop_first() =~= xs@.skip(i as int + 1));
            assert(xs@.skip(i as int)[0] == xs@[i as int]);
            assert(spec_weights_of(xs@.skip(i as int), ts@)
                == block + spec_weights_of(xs@.skip(i as int + 1), ts@));
            assert((base + block) + spec_weights_of(xs@.skip(i as int + 1), ts@)
                =~= base + (block + spec_weights_of(xs@.skip(i as int + 1), ts@)));
        }
        i += 1;
    }
    proof {
        assert(xs@.skip(xs@.len() as int) =~= Seq::<u64>::empty());
        assert(out@ + Seq::<Weights>::empty() =~= out@);
    }
    out
}

/// Candidates built from in-limit coefficients are well-formed.
pub proof fn lemma_candidates_wf(a: Seq<u64>, b: Seq<u64>, c: Seq<u64>, d: Seq<u64>)
    requires
        forall|i: int| 0 <= i < a.len() ==> #[trigger] a[i] <= COEFF_LIMIT,
        forall|i: int| 0 <= i < b.len() ==> #[trigger] b[i] <= COEFF_LIMIT,
        forall|i: int| 0 <= i < c.len() ==> #[trigger] c[i] <= COEFF_LIMIT,
        forall|i: int| 0 <= i < d.len() ==> #[trigger] d[i] <= COEFF_LIMIT,
    ensures
        forall|i: int| 0 <= i < spec_candidates(a, b, c, d).len()
            ==> (#[trigger] spec_candidates(a, b, c, d)[i]).wf(),
{
    lemma_pairs_wf(c, d);
    lemma_triples_wf(b, spec_pairs(c, d));
    lemma_weights_of_wf(a, spec_triples(b, spec_pairs(c, d)));
}

proof fn lemma_pairs_wf(xs: Seq<u64>, ys: Seq<u64>)
    requires
        forall|i: int| 0 <= i < xs.len() ==> #[trigger] xs[i] <= COEFF_LIMIT,
        forall|i: int| 0 <= i < ys.len() ==> #[trigger] ys[i] <= COEFF_LIMIT,
    ensures
        forall|i: int| 0 <= i < spec_pairs(xs, ys).len()
            ==> (#[trigger] spec_pairs(xs, ys)[i]).0 <= COEFF_LIMIT
                && spec_pairs(xs, ys)[i].1 <= COEFF_LIMIT,
    decreases xs.len(),
{
    if xs.len() > 0 {
        assert(xs[0] <= COEFF_LIMIT);
        assert(forall|i: int| 0 <= i < xs.drop_first().len()
            ==> #[trigger] xs.drop_first()[i] <= COEFF_LIMIT);
        lemma_pairs_wf(xs.drop_first(), ys);
        let block = Seq::new(ys.len(), |j: int| (xs[0], ys[j]));
        assert forall|i: int| 0 <= i < spec_pairs(xs, ys).len()
            implies (#[trigger] spec_pairs(xs, ys)[i]).0 <= COEFF_LIMIT
                && spec_pairs(xs, ys)[i].1 <= COEFF_LIMIT by {
            if i < block.len() {
                assert(spec_pairs(xs, ys)[i] == block[i]);
            } else {
                assert(spec_pairs(xs, ys)[i] == spec_pairs(xs.drop_first(), ys)[i - block.len()]);
            }
        }
    }
}

proof fn lemma_triples_wf(xs: Seq<u64>, ps: Seq<(u64, u64)>)
    requires
        forall|i: int| 0 <= i < xs.len() ==> #[trigger] xs[i] <= COEFF_LIMIT,
        forall|i: int| 0 <= i < ps.len()
            ==> (#[trigger] ps[i]).0 <= COEFF_LIMIT && ps[i].1 <= COEFF_LIMIT,
    ensures
        forall|i: int| 0 <= i < spec_triples(xs, ps).len()
            ==> (#[trigger] spec_triples(xs, ps)[i]).0 <= COEFF_LIMIT
                && spec_triples(xs, ps)[i].1 <= COEFF_LIMIT
                && spec_triples(xs, ps)[i].2 <= COEFF_LIMIT,
    decreases xs.len(),
{
    if xs.len() > 0 {
        assert(xs[0] <= COEFF_LIMIT);
        assert(forall|i: int| 0 <= i < xs.drop_first().len()
            ==> #[trigger] xs.drop_first()[i] <= COEFF_LIMIT);
        lemma_triples_wf(xs.drop_first(), ps);
        let block = Seq::new(ps.len(), |j: int| (xs[0], ps[j].0, ps[j].1));
        assert forall|i: int| 0 <= i < spec_triples(xs, ps).len()
            implies (#[trigger] spec_triples(xs, ps)[i]).0 <= COEFF_LIMIT
                && spec_triples(xs, ps)[i].1 <= COEFF_LIMIT
                && spec_triples(xs, ps)[i].2 <= COEFF_LIMIT by {
            if i < block.len() {
                assert(spec_triples(xs, ps)[i] == block[i]);
            } else {
                assert(spec_triples(xs, ps)[i] == spec_triples(xs.drop_first(), ps)[i - block.len()]);
            }
        }
    }
}

proof fn lemma_weights_of_wf(xs: Seq<u64>, ts: Seq<(u64, u64, u64)>)
    requires
        forall|i: int| 0 <= i < xs.len() ==> #[trigger] xs[i] <= COEFF_LIMIT,
        forall|i: int| 0 <= i < ts.len()
            ==> (#[trigger] ts[i]).0 <= COEFF_LIMIT && ts[i].1 <= COEFF_LIMIT
                && ts[i].2 <= COEFF_LIMIT,
    ensures
        forall|i: int| 0 <= i < spec_weights_of(xs, ts).len()
            ==> (#[trigger] spec_weights_of(xs, ts)[i]).wf(),
    decreases xs.len(),
{
    if xs.len() > 0 {
        assert(xs[0] <= COEFF_LIMIT);
        assert(forall|i: int| 0 <= i < xs.drop_first().len()
            ==> #[trigger] xs.drop_first()[i] <= COEFF_LIMIT);
        lemma_weights_of_wf(xs.drop_first(), ts);
        let block = Seq::new(
            ts.len(),
            |j: int| Weights {
                max_value: xs[0],
                adjacent: ts[j].0,
                empty_cells: ts[j].1,
                smoothness: ts[j].2,
            },
        );
        assert forall|i: int| 0 <= i < spec_weights_of(xs, ts).len()
            implies (#[trigger] spec_weights_of(xs, ts)[i]).wf() by {
            if i < block.len() {
                assert(spec_weights_of(xs, ts)[i] == block[i]);
            } else {
                assert(spec_weights_of(xs, ts)[i] == spec_weights_of(xs.drop_first(), ts)[i - block.len()]);
            }
        }
    }
}

/// Why a sweep or benchmark is refused before any work starts. Fatal to
/// the invocation, not to the process.
#[derive(Copy, Clone, Debug, PartialEq, Eq, Structural)]
pub enum ConfigError {
    /// Some range's lower bound exceeds its upper bound.
    EmptyRange,
    /// Some range's step is zero, so it cannot be enumerated.
    ZeroStep,
    /// Some range's upper bound exceeds the coefficient limit.
    CoefficientTooLarge,
    /// No runs were asked for.
    ZeroRuns,
    /// A search of zero plies was asked for where at least one is needed.
    ZeroDepth,
}

/// Summary of one completed simulated game.
#[derive(Copy, Clone, Debug, PartialEq, Eq, Structural)]
pub struct RunRecord {
    /// Largest cell value on the final board.
    pub max_metric: u64,
    /// Moves played.
    pub move_count: u64,
    /// Wall-clock duration, in milliseconds.
    pub duration_millis: u64,
}

impl RunRecord {
    pub open spec fn wf(&self) -> bool {
        &&& self.max_metric <= 0xffff_ffff
        &&& self.move_count <= 0xffff_ffff
        &&& self.duration_millis <= 0xffff_ffff
    }
}

/// Mean outcome of a batch of runs. Means are carried in thousandths
/// (truncated), so no precision worth reporting is lost to integer
/// division.
#[derive(Copy, Clone, Debug, PartialEq, Eq, Structural)]
pub struct Aggregate {
    pub runs: u64,
    pub mean_metric_milli: u64,
    pub mean_moves_milli: u64,
    pub mean_duration_milli: u64,
}

pub open spec fn sum_metric_from(rs: Seq<RunRecord>, i: int) -> int
    decreases rs.len() - i,
{
    if i < 0 || i >= rs.len() {
        0
    } else {
        rs[i].max_metric + sum_metric_from(rs, i + 1)
    }
}

pub open spec fn sum_moves_from(rs: Seq<RunRecord>, i: int) -> int
    decreases rs.len() - i,
{
    if i < 0 || i >= rs.len() {
        0
    } else {
        rs[i].move_count + sum_moves_from(rs, i + 1)
    }
}

pub open spec fn sum_duration_from(rs: Seq<RunRecord>, i: int) -> int
    decreases rs.len() - i,
{
    if i < 0 || i >= rs.len() {
        0
    } else {
        rs[i].duration_millis + sum_duration_from(rs, i + 1)
    }
}

/// The aggregate of a batch: the run count and each arithmetic mean in
/// thousandths, truncated.
pub open spec fn spec_aggregate(rs: Seq<RunRecord>) -> Aggregate {
    Aggregate {
        runs: rs.len() as u64,
        mean_metric_milli: (1000 * sum_metric_from(rs, 0) / (rs.len() as int)) as u64,
        mean_moves_milli: (1000 * sum_moves_from(rs, 0) / (rs.len() as int)) as u64,
        mean_duration_milli: (1000 * sum_duration_from(rs, 0) / (rs.len() as int)) as u64,
    }
}

pub proof fn lemma_sums_bounds(rs: Seq<RunRecord>, i: int)
    requires
        forall|t: int| 0 <= t < rs.len() ==> (#[trigger] rs[t]).wf(),
        0 <= i <= rs.len(),
    ensures
        0 <= sum_metric_from(rs, i) <= (rs.len() - i) * 0xffff_ffff,
        0 <= sum_moves_from(rs, i) <= (rs.len() - i) * 0xffff_ffff,
        0 <= sum_duration_from(rs, i) <= (rs.len() - i) * 0xffff_ffff,
    decreases rs.len() - i,
{
    if i < rs.len() {
        lemma_sums_bounds(rs, i + 1);
    }
}

/// Aggregation: the reported means are exactly the arithmetic means of
/// the recorded values, in thousandths, truncated.
pub fn aggregate(records: &Vec<RunRecord>) -> (a: Aggregate)
    requires
        1 <= records@.len() <= 1_000_000,
        forall|t: int| 0 <= t < records@.len() ==> (#[trigger] records@[t]).wf(),
    ensures
        a == spec_aggregate(records@),
{
    let ghost rs = records@;
    let n = records.len();
    let mut sum_metric: u64 = 0;
    let mut sum_moves: u64 = 0;
    let mut sum_duration: u64 = 0;
    let mut i: usize = 0;
    while i < n
        invariant
            rs == records@,
            n == rs.len(),
            1 <= n <= 1_000_000,
            forall|t: int| 0 <= t < rs.len() ==> (#[trigger] rs[t]).wf(),
            i <= n,
            sum_metric == sum_metric_from(rs, 0) - sum_metric_from(rs, i as int),
            sum_moves == sum_moves_from(rs, 0) - sum_moves_from(rs, i as int),
            sum_duration == sum_duration_from(rs, 0) - sum_duration_from(rs, i as int),
        decreases n - i,
    {
        proof {
            lemma_sums_bounds(rs, 0);
            lemma_sums_bounds(rs, i as int);
            lemma_sums_bounds(rs, i as int + 1);
        }
        let r = records[i];
        sum_metric = sum_metric + r.max_metric;
        sum_moves = sum_moves + r.move_count;
        sum_duration = sum_duration + r.duration_millis;
        i += 1;
    }
    proof {
        lemma_sums_bounds(rs, 0);
    }
    let n64 = n as u64;
    Aggregate {
        runs: n64,
        mean_metric_milli: 1000 * sum_metric / n64,
        mean_moves_milli: 1000 * sum_moves / n64,
        mean_duration_milli: 1000 * sum_duration / n64,
    }
}

pub open spec fn max_metric_from(rs: Seq<RunRecord>, i: int) -> int
    decreases rs.len() - i,
{
    if i < 0 || i >= rs.len() {
        0
    } else if i == rs.len() - 1 {
        rs[i].max_metric as int
    } else {
        let rest = max_metric_from(rs, i + 1);
        if rs[i].max_metric >= rest {
            rs[i].max_metric as int
        } else {
            rest
        }
    }
}

pub open spec fn min_metric_from(rs: Seq<RunRecord>, i: int) -> int
    decreases rs.len() - i,
{
    if i < 0 || i >= rs.len() {
        0
    } else if i == rs.len() - 1 {
        rs[i].max_metric as int
    } else {
        let rest = min_metric_from(rs, i + 1);
        if rs[i].max_metric <= rest {
            rs[i].max_metric as int
        } else {
            rest
        }
    }
}

/// Best and worst terminal metric of a batch, with the same means as the
/// aggregate.
#[derive(Copy, Clone, Debug, PartialEq, Eq, Structural)]
pub struct BenchmarkReport {
    pub runs: u64,
    pub best_metric: u64,
    pub worst_metric: u64,
    pub mean_metric_milli: u64,
    pub mean_moves_milli: u64,
    pub mean_duration_milli: u64,
}

pub open spec fn spec_bench(rs: Seq<RunRecord>) -> BenchmarkReport {
    let a = spec_aggregate(rs);
    BenchmarkReport {
        runs: a.runs,
        best_metric: max_metric_from(rs, 0) as u64,
        worst_metric: min_metric_from(rs, 0) as u64,
        mean_metric_milli: a.mean_metric_milli,
        mean_moves_milli: a.mean_moves_milli,
        mean_duration_milli: a.mean_duration_milli,
    }
}

pub proof fn lemma_minmax_bounds(rs: Seq<RunRecord>, i: int)
    requires
        forall|t: int| 0 <= t < rs.len() ==> (#[trigger] rs[t]).wf(),
    ensures
        0 <= max_metric_from(rs, i) <= 0xffff_ffff,
        0 <= min_metric_from(rs, i) <= 0xffff_ffff,
        min_metric_from(rs, i) <= max_metric_from(rs, i),
    decreases rs.len() - i,
{
    if 0 <= i < rs.len() {
        lemma_minmax_bounds(rs, i + 1);
    }
}

/// Benchmark reproducibility of aggregates: with a single recorded run,
/// best and worst both equal that run's terminal metric.
pub proof fn lemma_bench_single(rs: Seq<RunRecord>)
    requires
        rs.len() == 1,
    ensures
        spec_bench(rs).best_metric == rs[0].max_metric,
        spec_bench(rs).worst_metric == rs[0].max_metric,
{
}

/// Best/worst/average digest of a batch of recorded runs.
pub fn bench_aggregate(records: &Vec<RunRecord>) -> (b: BenchmarkReport)
    requires
        1 <= records@.len() <= 1_000_000,
        forall|t: int| 0 <= t < records@.len() ==> (#[trigger] records@[t]).wf(),
    ensures
        b == spec_bench(records@),
{
    let ghost rs = records@;
    let a = aggregate(records);
    let n = records.len();
    let mut best: u64 = records[n - 1].max_metric;
    let mut worst: u64 = records[n - 1].max_metric;
    let mut i: usize = n - 1;
    while i > 0
        invariant
            rs == records@,
            n == rs.len(),
            1 <= n,
            forall|t: int| 0 <= t < rs.len() ==> (#[trigger] rs[t]).wf(),
            i < n,
            best as int == max_metric_from(rs, i as int),
            worst as int == min_metric_from(rs, i as int),
        decreases i,
    {
        let r = records[i - 1];
        if r.max_metric > best {
            best = r.max_metric;
        }
        if r.max_metric < worst {
            worst = r.max_metric;
        }
        i -= 1;
    }
    BenchmarkReport {
        runs: a.runs,
        best_metric: best,
        worst_metric: worst,
        mean_metric_milli: a.mean_metric_milli,
        mean_moves_milli: a.mean_moves_milli,
        mean_duration_milli: a.mean_duration_milli,
    }
}

/// The shared results table of a sweep: one entry per quantized key,
/// first writer wins. Created fresh per sweep and discarded at its end;
/// a concurrent driver guards each insert with one lock.
pub struct ResultsTable {
    entries: Vec<(QuantKey, Aggregate)>,
}

impl View for ResultsTable {
    type V = Seq<(QuantKey, Aggregate)>;

    closed spec fn view(&self) -> Seq<(QuantKey, Aggregate)> {
        self.entries@
    }
}

pub open spec fn keys_unique(s: Seq<(QuantKey, Aggregate)>) -> bool {
    forall|i: int, j: int| 0 <= i < j < s.len() ==> (#[trigger] s[i]).0 != (#[trigger] s[j]).0
}

pub open spec fn spec_has_key(s: Seq<(QuantKey, Aggregate)>, k: QuantKey) -> bool {
    exists|i: int| 0 <= i < s.len() && (#[trigger] s[i]).0 == k
}

/// Entry `j` holds the strictly first maximum of the mean terminal metric.
pub open spec fn is_first_max_entry(s: Seq<(QuantKey, Aggregate)>, j: int) -> bool {
    &&& 0 <= j < s.len()
    &&& forall|i: int| 0 <= i < s.len()
        ==> (#[trigger] s[i]).1.mean_metric_milli <= s[j].1.mean_metric_milli
    &&& forall|i: int| 0 <= i < j
        ==> (#[trigger] s[i]).1.mean_metric_milli < s[j].1.mean_metric_milli
}

impl ResultsTable {
    pub open spec fn wf(&self) -> bool {
        keys_unique(self@)
    }

    pub fn new() -> (t: ResultsTable)
        ensures
            t@ == Seq::<(QuantKey, Aggregate)>::empty(),
            t.wf(),
    {
        ResultsTable { entries: Vec::new() }
    }

    pub fn len(&self) -> (n: usize)
        ensures
            n == self@.len(),
    {
        self.entries.len()
    }

    pub fn contains_key(&self, k: &QuantKey) -> (r: bool)
        ensures
            r == spec_has_key(self@, *k),
    {
        let mut i: usize = 0;
        while i < self.entries.len()
            invariant
                i <= self@.len(),
                forall|t: int| 0 <= t < i ==> (#[trigger] self@[t]).0 != *k,
            decreases self@.len() - i,
        {
            if self.entries[i].0 == *k {
                return true;
            }
            i += 1;
        }
        false
    }

    /// Records one candidate's aggregate: a key already present keeps the
    /// aggregate that was inserted first (the documented tie policy for
    /// colliding quantized keys); a new key is appended.
    pub fn insert_first_wins(&mut self, k: QuantKey, a: Aggregate)
        requires
            old(self).wf(),
        ensures
            final(self).wf(),
            spec_has_key(old(self)@, k) ==> final(self)@ == old(self)@,
            !spec_has_key(old(self)@, k) ==> final(self)@ == old(self)@.push((k, a)),
    {
        if !self.contains_key(&k) {
            self.entries.push((k, a));
            proof {
                assert forall|i: int, j: int| 0 <= i < j < self@.len()
                    implies (#[trigger] self@[i]).0 != (#[trigger] self@[j]).0 by {
                    if j == self@.len() - 1 {
                        assert(self@[i] == old(self)@[i]);
                    }
                }
            }
        }
    }

    /// The entry with the largest mean terminal metric; on ties the one
    /// inserted first. `None` only for an empty table.
    pub fn best_entry(&self) -> (r: Option<(QuantKey, Aggregate)>)
        ensures
            (r is None) <==> self@.len() == 0,
            r is Some ==> exists|j: int| is_first_max_entry(self@, j) && r == Some(self@[j]),
    {
        if self.entries.len() == 0 {
            return None;
        }
        let mut best_idx: usize = 0;
        let mut i: usize = 1;
        while i < self.entries.len()
            invariant
                best_idx < i <= self@.len(),
                forall|t: int| 0 <= t < i
                    ==> (#[trigger] self@[t]).1.mean_metric_milli
                        <= self@[best_idx as int].1.mean_metric_milli,
                forall|t: int| 0 <= t < best_idx
                    ==> (#[trigger] self@[t]).1.mean_metric_milli
                        < self@[best_idx as int].1.mean_metric_milli,
            decreases self@.len() - i,
        {
            if self.entries[i].1.mean_metric_milli > self.entries[best_idx].1.mean_metric_milli {
                best_idx = i;
            }
            i += 1;
        }
        proof {
            assert(is_first_max_entry(self@, best_idx as int));
        }
        Some(self.entries[best_idx])
    }
}

/// A batch of records a digest can stand for: exactly `n` of them, every
/// one within bounds and from a played game (a terminal maximum of at
/// least 2 and at least one move).
pub open spec fn records_ok(rs: Seq<RunRecord>, n: int) -> bool {
    &&& rs.len() == n
    &&& forall|t: int| 0 <= t < rs.len()
        ==> (#[trigger] rs[t]).wf() && rs[t].max_metric >= 2 && rs[t].move_count >= 1
}

/// An aggregate some batch of played games stands behind.
pub open spec fn agg_backed(a: Aggregate, n: int) -> bool {
    exists|rs: Seq<RunRecord>| #[trigger] records_ok(rs, n) && spec_aggregate(rs) == a
}

/// Metric sums of played games reach at least 2 per remaining record.
proof fn lemma_sum_metric_lower(rs: Seq<RunRecord>, i: int)
    requires
        forall|t: int| 0 <= t < rs.len() ==> (#[trigger] rs[t]).max_metric >= 2,
        0 <= i <= rs.len(),
    ensures
        sum_metric_from(rs, i) >= 2 * (rs.len() - i),
    decreases rs.len() - i,
{
    if i < rs.len() {
        lemma_sum_metric_lower(rs, i + 1);
    }
}

/// The mean terminal metric of a batch of played games is at least 2.
pub proof fn lemma_aggregate_metric_lower(rs: Seq<RunRecord>)
    requires
        1 <= rs.len() <= 1_000_000,
        forall|t: int| 0 <= t < rs.len() ==> (#[trigger] rs[t]).wf(),
        forall|t: int| 0 <= t < rs.len() ==> (#[trigger] rs[t]).max_metric >= 2,
    ensures
        spec_aggregate(rs).mean_metric_milli >= 2000,
{
    let n = rs.len() as int;
    lemma_sum_metric_lower(rs, 0);
    lemma_sums_bounds(rs, 0);
    vstd::arithmetic::div_mod::lemma_div_is_ordered(2000 * n, 1000 * sum_metric_from(rs, 0), n);
    vstd::arithmetic::div_mod::lemma_div_by_multiple(2000, n);
}

/// Best and worst of a batch of played games are at least 2.
pub proof fn lemma_minmax_lower(rs: Seq<RunRecord>, i: int)
    requires
        forall|t: int| 0 <= t < rs.len() ==> (#[trigger] rs[t]).max_metric >= 2,
        0 <= i < rs.len(),
    ensures
        max_metric_from(rs, i) >= 2,
        min_metric_from(rs, i) >= 2,
    decreases rs.len() - i,
{
    if i < rs.len() - 1 {
        lemma_minmax_lower(rs, i + 1);
    }
}

/// Per-run move budget: a run that has not reached a terminal board after
/// this many moves is cut off and reports the stats it reached.
pub const RUN_MOVE_CAP: u32 = 100_000;

/// One full simulated game: a fresh random start, search-backed moves at
/// the given depth until the board is terminal or the move budget is
/// spent, one random tile spawned after each move. Returns the final
/// board together with its record: the terminal maximum is the board's
/// largest cell, at least one move is always played (a fresh board always
/// has a legal move), and a run under the budget ended on a terminal
/// board. Which board comes out depends on the process-local random
/// source.
pub fn run_one_game(weights: &crate::weights::Weights, depth: usize) -> (r: (
    crate::slide::SlideBoard,
    RunRecord,
))
    requires
        weights.wf(),
        depth >= 1,
    ensures
        r.0.wf(),
        r.1.wf(),
        r.1.max_metric as int == crate::slide::spec_max_value(r.0@),
        r.1.max_metric >= 2,
        1 <= r.1.move_count <= RUN_MOVE_CAP,
        r.1.move_count < RUN_MOVE_CAP ==> crate::slide::spec_terminal(r.0@),
{
    let t0 = crate::rng::now_millis();
    let mut board = crate::slide::SlideBoard::new_random();
    let mut moves: u32 = 0;
    let config = crate::selector::SelectorConfig::SearchBacked { depth };
    let mut done = false;
    proof {
        crate::slide::lemma_nonzero_exists(board@);
        let i = choose|i: int| 0 <= i < 16 && (#[trigger] board@[i]) != 0;
        assert(board@[i] >= 2);
    }
    while !done && moves < RUN_MOVE_CAP
        invariant
            board.wf(),
            weights.wf(),
            depth >= 1,
            config == (crate::selector::SelectorConfig::SearchBacked { depth }),
            moves <= RUN_MOVE_CAP,
            exists|i: int| 0 <= i < 16 && (#[trigger] board@[i]) >= 2,
            moves == 0 ==> crate::slide::spec_empty(board@) > 0,
            done ==> crate::slide::spec_terminal(board@) && moves >= 1,
        decreases RUN_MOVE_CAP - moves + (if done { 0int } else { 1int }),
    {
        proof {
            if moves == 0 {
                let i = choose|i: int| 0 <= i < 16 && (#[trigger] board@[i]) >= 2;
                crate::slide::lemma_empty_witness(board@);
                let z = choose|z: int| 0 <= z < 16 && (#[trigger] board@[z]) == 0;
                crate::slide::lemma_playable(board@, i, z);
            }
        }
        match crate::selector::select_move(&board, &config, weights) {
            Some(direction) => {
                let ghost pre = board@;
                board = board.apply_move(direction);
                proof {
                    crate::slide::lemma_move_keeps_big(pre, direction);
                }
                let ghost mid = board@;
                board = board.spawn_random_tile();
                proof {
                    assert(exists|i: int| 0 <= i < 16 && (#[trigger] mid[i]) >= 2) by {
                        let w = choose|w: int|
                            0 <= w < 16 && (#[trigger] crate::slide::spec_move_board(pre, direction)[w]) >= 2;
                        assert(mid[w] >= 2);
                    }
                    let i = choose|i: int| 0 <= i < 16 && (#[trigger] mid[i]) >= 2;
                    crate::slide::lemma_empty_bounds(mid, 0);
                    if crate::slide::spec_empty(mid) > 0 {
                        let t = choose|t: int|
                            0 <= t < 16 && mid[t] == 0
                                && (board@ == mid.update(t, 2u32) || board@ == mid.update(t, 4u32));
                        if t == i {
                            assert(board@[t] >= 2);
                        } else {
                            assert(board@[i] == mid[i]);
                        }
                    } else {
                        assert(board@[i] == mid[i]);
                    }
                }
                moves = moves + 1;
            },
            None => {
                done = true;
            },
        }
    }
    let t1 = crate::rng::now_millis();
    let dur0: u64 = if t1 >= t0 { t1 - t0 } else { 0 };
    let dur: u64 = if dur0 > 0xffff_ffff { 0xffff_ffff } else { dur0 };
    let maxv = board.max_value();
    proof {
        let i = choose|i: int| 0 <= i < 16 && (#[trigger] board@[i]) >= 2;
        crate::slide::lemma_max_from_ge(board@, 0, i);
    }
    (board, RunRecord { max_metric: maxv as u64, move_count: moves as u64, duration_millis: dur })
}

/// One candidate evaluated: `n_runs` independent full games, and their
/// aggregate. The records are returned with the aggregate, which is
/// exactly their spec-level digest.
pub fn evaluate_candidate(weights: &crate::weights::Weights, n_runs: u32, depth: usize) -> (r: (
    Vec<RunRecord>,
    Aggregate,
))
    requires
        weights.wf(),
        1 <= n_runs <= 1_000_000,
        depth >= 1,
    ensures
        records_ok(r.0@, n_runs as int),
        r.1 == spec_aggregate(r.0@),
{
    let mut records: Vec<RunRecord> = Vec::new();
    while records.len() < n_runs as usize
        invariant
            weights.wf(),
            1 <= n_runs <= 1_000_000,
            depth >= 1,
            records@.len() <= n_runs,
            forall|t: int| 0 <= t < records@.len()
                ==> (#[trigger] records@[t]).wf() && records@[t].max_metric >= 2
                    && records@[t].move_count >= 1,
        decreases n_runs - records.len(),
    {
        let rec = run_one_game(weights, depth);
        records.push(rec.1);
    }
    let a = aggregate(&records);
    (records, a)
}

/// The first configuration fault of a range, if any.
pub open spec fn range_error(r: WeightRange) -> Option<ConfigError> {
    if r.step == 0 {
        Some(ConfigError::ZeroStep)
    } else if r.lo > r.hi {
        Some(ConfigError::EmptyRange)
    } else if r.hi > COEFF_LIMIT {
        Some(ConfigError::CoefficientTooLarge)
    } else {
        None
    }
}

/// The first configuration fault of a whole sweep, if any: ranges in
/// field order, then the run count, then the depth.
pub open spec fn spec_config_error(ranges: SweepRanges, n_runs: u32, depth: usize) -> Option<
    ConfigError,
> {
    if range_error(ranges.max_value) is Some {
        range_error(ranges.max_value)
    } else if range_error(ranges.adjacent) is Some {
        range_error(ranges.adjacent)
    } else if range_error(ranges.empty_cells) is Some {
        range_error(ranges.empty_cells)
    } else if range_error(ranges.smoothness) is Some {
        range_error(ranges.smoothness)
    } else if n_runs == 0 {
        Some(ConfigError::ZeroRuns)
    } else if depth == 0 {
        Some(ConfigError::ZeroDepth)
    } else {
        None
    }
}

fn check_range(r: &WeightRange) -> (e: Option<ConfigError>)
    ensures
        e == range_error(*r),
        e is None ==> r.wf(),
{
    if r.step == 0 {
        Some(ConfigError::ZeroStep)
    } else if r.lo > r.hi {
        Some(ConfigError::EmptyRange)
    } else if r.hi > COEFF_LIMIT {
        Some(ConfigError::CoefficientTooLarge)
    } else {
        None
    }
}

/// What a finished sweep reports: the candidate count, the winning
/// quantized key with the weight vector it stands for (by inverse
/// scaling), that candidate's aggregate performance, and the elapsed
/// wall-clock time.
#[derive(Copy, Clone, Debug, PartialEq, Eq, Structural)]
pub struct CalibrationReport {
    pub candidates_evaluated: u64,
    pub best_key: crate::weights::QuantKey,
    pub best_weights: crate::weights::Weights,
    pub best_mean_metric_milli: u64,
    pub best_mean_moves_milli: u64,
    pub total_duration_millis: u64,
}

/// The enumerated coefficient values of each range of a sweep.
pub open spec fn range_seq(r: WeightRange) -> Seq<u64> {
    spec_range_values(r.lo as int, r.hi as int, r.step as int)
}

/// The candidate weight vectors a sweep enumerates.
pub open spec fn sweep_candidates(ranges: SweepRanges) -> Seq<Weights> {
    spec_candidates(
        range_seq(ranges.max_value),
        range_seq(ranges.adjacent),
        range_seq(ranges.empty_cells),
        range_seq(ranges.smoothness),
    )
}

/// Brute-force grid calibration: enumerates the Cartesian product of the
/// four coefficient ranges, plays `n_runs` full games per candidate with
/// a search-backed selector at `depth` plies, stores each candidate's
/// aggregate under its quantized key (first writer wins), and reports the
/// key with the best mean terminal metric, ties to the first inserted.
/// Configuration faults are reported before any game is played.
pub fn run_calibration(ranges: &SweepRanges, n_runs: u32, depth: usize) -> (r: Result<
    CalibrationReport,
    ConfigError,
>)
    requires
        n_runs <= 1_000_000,
    ensures
        r is Err <==> spec_config_error(*ranges, n_runs, depth) is Some,
        r is Err ==> Some(r->Err_0) == spec_config_error(*ranges, n_runs, depth),
        r is Ok ==> {
            let cands = sweep_candidates(*ranges);
            &&& r->Ok_0.candidates_evaluated == cands.len()
            &&& cands.len() >= 1
            &&& exists|i: int|
                0 <= i < cands.len() && r->Ok_0.best_key == crate::weights::spec_quantize(
                    #[trigger] cands[i],
                )
            &&& r->Ok_0.best_weights == crate::weights::spec_dequantize(r->Ok_0.best_key)
            &&& r->Ok_0.best_weights.wf()
            &&& r->Ok_0.best_mean_metric_milli >= 2000
            &&& exists|rs: Seq<RunRecord>| #[trigger] records_ok(rs, n_runs as int)
                && spec_aggregate(rs).mean_metric_milli == r->Ok_0.best_mean_metric_milli
                && spec_aggregate(rs).mean_moves_milli == r->Ok_0.best_mean_moves_milli
        },
{
    if let Some(e) = check_range(&ranges.max_value) {
        return Err(e);
    }
    if let Some(e) = check_range(&ranges.adjacent) {
        return Err(e);
    }
    if let Some(e) = check_range(&ranges.empty_cells) {
        return Err(e);
    }
    if let Some(e) = check_range(&ranges.smoothness) {
        return Err(e);
    }
    if n_runs == 0 {
        return Err(ConfigError::ZeroRuns);
    }
    if depth == 0 {
        return Err(ConfigError::ZeroDepth);
    }
    let t0 = crate::rng::now_millis();
    let va = enumerate_range(&ranges.max_value);
    let vb = enumerate_range(&ranges.adjacent);
    let vc = enumerate_range(&ranges.empty_cells);
    let vd = enumerate_range(&ranges.smoothness);
    let ps = pairs(&vc, &vd);
    let ts = triples(&vb, &ps);
    let cands = weights_of(&va, &ts);
    let ghost cseq = sweep_candidates(*ranges);
    proof {
        lemma_range_values_bounds(
            ranges.max_value.lo as int,
            ranges.max_value.hi as int,
            ranges.max_value.step as int,
        );
        lemma_range_values_bounds(
            ranges.adjacent.lo as int,
            ranges.adjacent.hi as int,
            ranges.adjacent.step as int,
        );
        lemma_range_values_bounds(
            ranges.empty_cells.lo as int,
            ranges.empty_cells.hi as int,
            ranges.empty_cells.step as int,
        );
        lemma_range_values_bounds(
            ranges.smoothness.lo as int,
            ranges.smoothness.hi as int,
            ranges.smoothness.step as int,
        );
        lemma_candidates_wf(va@, vb@, vc@, vd@);
        assert(ps@.len() >= vd@.len());
        assert(ts@.len() >= ps@.len());
        assert(cands@.len() >= ts@.len());
        assert(cands@.len() >= 1);
    }
    let mut table = ResultsTable::new();
    let mut idx: usize = 0;
    while idx < cands.len()
        invariant
            1 <= n_runs <= 1_000_000,
            depth >= 1,
            cands@ == cseq,
            forall|t: int| 0 <= t < cands@.len() ==> (#[trigger] cands@[t]).wf(),
            idx <= cands@.len(),
            table.wf(),
            table@.len() <= idx,
            idx >= 1 ==> table@.len() >= 1,
            forall|e: int| 0 <= e < table@.len()
                ==> exists|i: int|
                    0 <= i < idx && (#[trigger] table@[e]).0 == crate::weights::spec_quantize(
                        cands@[i],
                    ),
            forall|e: int| 0 <= e < table@.len()
                ==> agg_backed((#[trigger] table@[e]).1, n_runs as int),
        decreases cands@.len() - idx,
    {
        let w = cands[idx];
        let pair = evaluate_candidate(&w, n_runs, depth);
        let key = crate::weights::quantize(&w);
        let ghost pre = table@;
        table.insert_first_wins(key, pair.1);
        proof {
            assert(records_ok(pair.0@, n_runs as int));
            assert(agg_backed(pair.1, n_runs as int));
            assert forall|e: int| 0 <= e < table@.len()
                implies agg_backed((#[trigger] table@[e]).1, n_runs as int) by {
                if e < pre.len() {
                    assert(table@[e] == pre[e]);
                } else {
                    assert(table@[e].1 == pair.1);
                }
            }
            assert forall|e: int| 0 <= e < table@.len()
                implies exists|i: int|
                    0 <= i < idx + 1 && (#[trigger] table@[e]).0 == crate::weights::spec_quantize(
                        cands@[i],
                    ) by {
                if e < pre.len() {
                    assert(table@[e] == pre[e]);
                    let i0 = choose|i: int|
                        0 <= i < idx && (#[trigger] pre[e]).0 == crate::weights::spec_quantize(
                            cands@[i],
                        );
                    assert(table@[e].0 == crate::weights::spec_quantize(cands@[i0]));
                } else {
                    assert(table@[e].0 == crate::weights::spec_quantize(cands@[idx as int]));
                }
            }
        }
        idx += 1;
    }
    let best = table.best_entry();
    match best {
        Some(entry) => {
            proof {
                let j = choose|j: int| is_first_max_entry(table@, j) && best == Some(table@[j]);
                let i0 = choose|i: int|
                    0 <= i < cands@.len() && (#[trigger] table@[j]).0
                        == crate::weights::spec_quantize(cands@[i]);
                crate::weights::lemma_quantize_in_limit(cands@[i0]);
                assert(agg_backed(table@[j].1, n_runs as int));
                let rs = choose|rs: Seq<RunRecord>|
                    #[trigger] records_ok(rs, n_runs as int) && spec_aggregate(rs) == table@[j].1;
                lemma_aggregate_metric_lower(rs);
                assert(records_ok(rs, n_runs as int));
            }
            let bw = crate::weights::dequantize(&entry.0);
            let t1 = crate::rng::now_millis();
            let dur: u64 = if t1 >= t0 { t1 - t0 } else { 0 };
            Ok(
                CalibrationReport {
                    candidates_evaluated: cands.len() as u64,
                    best_key: entry.0,
                    best_weights: bw,
                    best_mean_metric_milli: entry.1.mean_metric_milli,
                    best_mean_moves_milli: entry.1.mean_moves_milli,
                    total_duration_millis: dur,
                },
            )
        },
        None => {
            proof {
                assert(false);
            }
            Err(ConfigError::ZeroRuns)
        },
    }
}

/// The harness's degenerate case: one fixed weight vector, `n_runs` full
/// games, and the best/worst/average digest of their outcomes.
pub fn run_benchmark(weights: &crate::weights::Weights, n_runs: u32, depth: usize) -> (r: Result<
    BenchmarkReport,
    ConfigError,
>)
    requires
        weights.wf(),
        n_runs <= 1_000_000,
    ensures
        r is Err <==> (n_runs == 0 || depth == 0),
        n_runs == 0 ==> r == Err::<BenchmarkReport, ConfigError>(ConfigError::ZeroRuns),
        n_runs >= 1 && depth == 0 ==> r == Err::<BenchmarkReport, ConfigError>(
            ConfigError::ZeroDepth,
        ),
        r is Ok ==> ({
            &&& r->Ok_0.runs == n_runs
            &&& 2 <= r->Ok_0.worst_metric <= r->Ok_0.best_metric
            &&& r->Ok_0.mean_metric_milli >= 2000
            &&& (n_runs == 1 ==> r->Ok_0.best_metric == r->Ok_0.worst_metric)
            &&& exists|rs: Seq<RunRecord>| #[trigger] records_ok(rs, n_runs as int)
                && spec_bench(rs) == r->Ok_0
        }),
{
    if n_runs == 0 {
        return Err(ConfigError::ZeroRuns);
    }
    if depth == 0 {
        return Err(ConfigError::ZeroDepth);
    }
    let pair = evaluate_candidate(weights, n_runs, depth);
    let b = bench_aggregate(&pair.0);
    proof {
        lemma_minmax_bounds(pair.0@, 0);
        lemma_minmax_lower(pair.0@, 0);
        lemma_aggregate_metric_lower(pair.0@);
        if n_runs == 1 {
            lemma_bench_single(pair.0@);
        }
        assert(records_ok(pair.0@, n_runs as int));
        assert(spec_bench(pair.0@) == b);
    }
    Ok(b)
}

} // verus!
