//! The prediction model: an estimated interval between starts, the most recent
//! start, and the number of cycles projected past it.

use crate::date::Date;
use vstd::prelude::*;

verus! {

/// Why a model cannot be built from a log.
#[derive(Debug, Clone, Copy, PartialEq, Eq, Structural)]
pub enum PredictError {
    /// The log holds fewer than two dates, so no interval can be estimated.
    InsufficientData,
    /// The estimated interval is not positive (the log is not increasing).
    NonPositiveRate,
}

/// Sum of the day differences between consecutive dates of the log.
pub open spec fn gap_sum(log: Seq<Date>) -> int
    decreases log.len(),
{
    if log.len() < 2 {
        0
    } else {
        gap_sum(log.drop_last()) + (log.last().days - log[log.len() - 2].days)
    }
}

/// What a model holds: the estimated interval in days is `total / len`, the
/// Poisson rate of the model.
pub struct ModelView {
    pub total: int,
    pub len: int,
    pub anchor: int,
    pub cycles: int,
}

/// The model's rate truncated to whole days.
pub open spec fn rate_floor(v: ModelView) -> int {
    v.total / v.len
}

/// Day offset of `date` from the start of projected cycle `k`, negative
/// offsets clamped to zero.
pub open spec fn cycle_offset(v: ModelView, date: int, k: int) -> int {
    let o = date - v.anchor - k * rate_floor(v);
    if o < 0 {
        0
    } else {
        o
    }
}

/// A model of when the next cycles start, built from a log of past starts.
pub struct DateDiffDistribution {
    total_gap_days: i64,
    log_len: u64,
    most_recent: Date,
    cycles_to_predict: u32,
}

impl View for DateDiffDistribution {
    type V = ModelView;

    closed spec fn view(&self) -> ModelView {
        ModelView {
            total: self.total_gap_days as int,
            len: self.log_len as int,
            anchor: self.most_recent.days as int,
            cycles: self.cycles_to_predict as int,
        }
    }
}

impl DateDiffDistribution {
    #[verifier::type_invariant]
    spec fn inv(&self) -> bool {
        &&& 0 < self.total_gap_days <= u32::MAX
        &&& self.log_len >= 2
    }

    /// Well-formedness every model has: a positive interval and at least two dates.
    pub open spec fn wf_view(v: ModelView) -> bool {
        &&& 0 < v.total <= u32::MAX
        &&& v.len >= 2
        &&& i32::MIN <= v.anchor <= i32::MAX
        &&& 0 <= v.cycles <= u32::MAX
    }

    /// The estimated interval's numerator: the sum of the consecutive differences.
    pub fn total_gap_days(&self) -> (r: i64)
        ensures
            r == self@.total,
    {
        self.total_gap_days
    }

    /// The estimated interval's divisor: the number of dates in the log.
    pub fn log_len(&self) -> (r: u64)
        ensures
            r == self@.len,
    {
        self.log_len
    }

    /// The most recent date of the log, from which cycles are projected.
    pub fn most_recent(&self) -> (r: Date)
        ensures
            r.days == self@.anchor,
    {
        self.most_recent
    }

    /// The number of projected cycles.
    pub fn cycles_to_predict(&self) -> (r: u32)
        ensures
            r == self@.cycles,
    {
        self.cycles_to_predict
    }

    /// The estimated interval truncated to whole days.
    pub fn rate_floor(&self) -> (r: u64)
        ensures
            r == rate_floor(self@),
            0 <= r <= u32::MAX,
    {
        proof {
            use_type_invariant(self);
        }
        (self.total_gap_days as u64) / self.log_len
    }

    /// For each projected cycle `k`, the clamped day offset of `date` from
    /// the cycle's start, `k` whole intervals after the most recent date. The
    /// density at `date` is the sum of the Poisson masses at these offsets.
    pub fn cycle_offsets(&self, date: Date) -> (r: Vec<u64>)
        ensures
            r@.len() == self@.cycles,
            forall|k: int| 0 <= k < r@.len() ==> r@[k] as int == cycle_offset(self@, date.days as int, k),
    {
        proof {
            use_type_invariant(self);
        }
        let step = self.rate_floor();
        let n = self.cycles_to_predict;
        let base: i64 = date.days as i64 - self.most_recent.days as i64;
        let mut out: Vec<u64> = Vec::new();
        let mut k: u32 = 0;
        while k < n
            invariant
                k <= n,
                n == self@.cycles,
                step == rate_floor(self@),
                step <= u32::MAX,
                base == date.days - self@.anchor,
                out@.len() == k,
                forall|j: int| 0 <= j < k ==> out@[j] as int == cycle_offset(self@, date.days as int, j),
            decreases n - k,
        {
            proof {
                assert(0 <= k * step <= (u32::MAX as int) * (u32::MAX as int)) by (nonlinear_arith)
                    requires
                        0 <= k <= u32::MAX,
                        0 <= step <= u32::MAX,
                ;
            }
            let shift: i128 = (k as i128) * (step as i128);
            let o: i128 = base as i128 - shift;
            let v: u64 = if o < 0 {
                0
            } else {
                o as u64
            };
            out.push(v);
            k = k + 1;
        }
        out
    }

    /// Builds the model from the log of start dates. The estimated interval is
    /// the sum of the consecutive differences divided by the length of the log.
    pub fn new(past_data: &[Date], cycles_to_predict: u32) -> (r: Result<Self, PredictError>)
        ensures
            r is Ok <==> past_data@.len() >= 2 && gap_sum(past_data@) > 0,
            r matches Err(e) ==> e == (if past_data@.len() < 2 {
                PredictError::InsufficientData
            } else {
                PredictError::NonPositiveRate
            }),
            r matches Ok(m) ==> Self::wf_view(m@),
            r matches Ok(m) ==> m@ == (ModelView {
                total: gap_sum(past_data@),
                len: past_data@.len() as int,
                anchor: past_data@.last().days as int,
                cycles: cycles_to_predict as int,
            }),
    {
        let n = past_data.len();
        if n < 2 {
            return Err(PredictError::InsufficientData);
        }
        let mut total: i64 = 0;
        let mut i: usize = 1;
        while i < n
            invariant
                n == past_data@.len(),
                1 <= i <= n,
                total == gap_sum(past_data@.subrange(0, i as int)),
                total == past_data@[i - 1].days - past_data@[0].days,
            decreases n - i,
        {
            proof {
                let s = past_data@.subrange(0, i + 1);
                assert(s.drop_last() =~= past_data@.subrange(0, i as int));
            }
            total = total + (past_data[i].days as i64 - past_data[i - 1].days as i64);
            i = i + 1;
        }
        assert(past_data@.subrange(0, n as int) =~= past_data@);
        if total <= 0 {
            return Err(PredictError::NonPositiveRate);
        }
        Ok(DateDiffDistribution {
            total_gap_days: total,
            log_len: n as u64,
            most_recent: past_data[n - 1],
            cycles_to_predict,
        })
    }
}

/// For a log of three dates the estimated interval's numerator is the sum of
/// the two gaps; `new` divides it by three, the length of the log.
pub proof fn lemma_interval_of_three(d0: Date, d1: Date, d2: Date)
    ensures
        gap_sum(seq![d0, d1, d2]) == (d1.days - d0.days) + (d2.days - d1.days),
        seq![d0, d1, d2].len() == 3,
{
    let s = seq![d0, d1, d2];
    assert(s.drop_last() =~= seq![d0, d1]);
    assert(seq![d0, d1].drop_last() =~= seq![d0]);
    assert(gap_sum(seq![d0]) == 0);
    assert(gap_sum(seq![d0, d1]) == d1.days - d0.days);
}

/// On or before the most recent date of the log, the offset of every
/// projected cycle is clamped to zero, so each cycle adds the Poisson mass at 0.
pub proof fn lemma_clamped_before_anchor(v: ModelView, date: int, k: int)
    requires
        DateDiffDistribution::wf_view(v),
        date <= v.anchor,
        0 <= k,
    ensures
        cycle_offset(v, date, k) == 0,
{
    assert(rate_floor(v) >= 0);
    assert(k * rate_floor(v) >= 0) by (nonlinear_arith)
        requires
            k >= 0,
            rate_floor(v) >= 0,
    ;
}

/// Queries are deterministic: two offset lists of one model at one date, each
/// as `cycle_offsets` returns it, are equal.
pub proof fn lemma_offsets_determined(v: ModelView, date: int, a: Seq<u64>, b: Seq<u64>)
    requires
        a.len() == v.cycles,
        b.len() == v.cycles,
        forall|k: int| 0 <= k < a.len() ==> a[k] as int == cycle_offset(v, date, k),
        forall|k: int| 0 <= k < b.len() ==> b[k] as int == cycle_offset(v, date, k),
    ensures
        a == b,
{
    assert(a =~= b);
}

} // verus!
