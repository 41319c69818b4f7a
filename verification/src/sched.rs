//! Drift-compensated scheduling of a periodic action.
//!
//! A scheduler drives a render loop at a nominal period. Each cycle it is
//! told how long the previous cycle really took, records the signed drift
//! (elapsed minus nominal) in a fixed-capacity ring of recent samples, and
//! computes the next sleep as the nominal period shortened by the average
//! recorded drift, cancelling systematic sleep bias.

use vstd::prelude::*;

verus! {

/// Sum of a sequence of signed drift samples.
pub open spec fn sum_ns(s: Seq<i64>) -> int
    decreases s.len(),
{
    if s.len() == 0 {
        0
    } else {
        sum_ns(s.drop_last()) + s.last()
    }
}

/// Integer division truncated toward zero, the rounding the drift average uses.
pub open spec fn div_trunc(a: int, b: int) -> int {
    if a >= 0 {
        a / b
    } else {
        -((-a) / b)
    }
}

/// The arithmetic mean of all drift samples in a history, truncated toward
/// zero. Slots not yet written since startup count as zero samples.
pub open spec fn avg_drift(s: Seq<i64>) -> int {
    div_trunc(sum_ns(s), s.len() as int)
}

/// The sleep a scheduler computes from a nominal period and a drift history:
/// the nominal period shortened by the average drift. A negative or
/// unrepresentable result signals a configuration error and yields no sleep.
pub open spec fn spec_sleep(nominal: int, drifts: Seq<i64>) -> Option<u64> {
    if 0 <= nominal - avg_drift(drifts) <= u64::MAX {
        Some((nominal - avg_drift(drifts)) as u64)
    } else {
        None
    }
}

/// A drift history after one drift sample is recorded at a slot.
pub open spec fn record(drifts: Seq<i64>, slot: int, drift: i64) -> Seq<i64> {
    drifts.update(slot, drift)
}

/// A drift history after a whole run of drift samples is recorded, starting
/// at the given slot and walking the ring one slot per sample.
pub open spec fn record_run(drifts: Seq<i64>, slot: int, run: Seq<i64>) -> Seq<i64>
    decreases run.len(),
{
    if run.len() == 0 {
        drifts
    } else {
        record_run(
            record(drifts, slot, run[0]),
            (slot + 1) % (drifts.len() as int),
            run.subrange(1, run.len() as int),
        )
    }
}

/// Whether every drift sample in a history is zero.
pub open spec fn all_zero(s: Seq<i64>) -> bool {
    forall|i: int| 0 <= i < s.len() ==> s[i] == 0i64
}

/// A history whose samples are all zero except possibly one slot, which then
/// holds one given spike value.
pub open spec fn single_spike(s: Seq<i64>, spike: int, x: i64) -> bool {
    &&& forall|i: int| 0 <= i < s.len() && i != spike ==> s[i] == 0i64
    &&& (s[spike] == 0i64 || s[spike] == x)
}

/// Slots the ring walks through from one slot before reaching another.
pub open spec fn ring_dist(from: int, to: int, len: int) -> int {
    if to >= from {
        to - from
    } else {
        to - from + len
    }
}

/// A sum over samples all within one band stays within the band scaled by
/// the number of samples.
pub proof fn lemma_sum_bounds(s: Seq<i64>, lo: int, hi: int)
    requires
        forall|i: int| 0 <= i < s.len() ==> lo <= #[trigger] s[i] <= hi,
    ensures
        s.len() * lo <= sum_ns(s) <= s.len() * hi,
    decreases s.len(),
{
    if s.len() > 0 {
        lemma_sum_bounds(s.drop_last(), lo, hi);
        assert((s.len() - 1) * lo + lo == s.len() * lo) by (nonlinear_arith);
        assert((s.len() - 1) * hi + hi == s.len() * hi) by (nonlinear_arith);
    }
}

/// The sum of a history with at most one nonzero spike is that spike or zero.
pub proof fn lemma_sum_single_spike(s: Seq<i64>, spike: int, x: i64)
    requires
        0 <= spike < s.len(),
        single_spike(s, spike, x),
        0 <= x,
    ensures
        0 <= sum_ns(s) <= x,
    decreases s.len(),
{
    if spike == s.len() - 1 {
        lemma_sum_bounds(s.drop_last(), 0, 0);
    } else {
        lemma_sum_single_spike(s.drop_last(), spike, x);
    }
}

/// Truncated division keeps a banded numerator inside the scaled-down band.
pub proof fn lemma_div_trunc_bounds(sum: int, len: int, lo: int, hi: int)
    requires
        1 <= len,
        lo <= 0 <= hi,
        len * lo <= sum <= len * hi,
    ensures
        lo <= div_trunc(sum, len) <= hi,
{
    if sum >= 0 {
        vstd::arithmetic::div_mod::lemma_div_is_ordered(sum, len * hi, len);
        assert((len * hi) / len == hi) by {
            vstd::arithmetic::div_mod::lemma_div_multiples_vanish(hi, len);
        }
        assert(sum / len >= 0) by {
            vstd::arithmetic::div_mod::lemma_div_pos_is_pos(sum, len);
        }
    } else {
        assert(len * -lo == -(len * lo)) by (nonlinear_arith);
        vstd::arithmetic::div_mod::lemma_div_is_ordered(-sum, len * -lo, len);
        assert((len * -lo) / len == -lo) by {
            vstd::arithmetic::div_mod::lemma_div_multiples_vanish(-lo, len);
        }
        assert((-sum) / len >= 0) by {
            vstd::arithmetic::div_mod::lemma_div_pos_is_pos(-sum, len);
        }
    }
}

/// A scheduler that invokes a periodic action once per nominal period,
/// correcting the sleep it asks for by the average measured drift of the
/// most recent cycles.
pub struct Scheduler {
    nominal_ns: i64,
    drifts_ns: Vec<i64>,
    drifts_idx: usize,
}

impl Scheduler {
    /// The nominal period, in nanoseconds.
    pub closed spec fn nominal(&self) -> int {
        self.nominal_ns as int
    }

    /// The recorded drift history, one slot per recent cycle.
    pub closed spec fn drifts(&self) -> Seq<i64> {
        self.drifts_ns@
    }

    /// The ring slot the next drift sample will overwrite.
    pub closed spec fn slot(&self) -> int {
        self.drifts_idx as int
    }

    /// Well-formed: the ring is nonempty, the write slot is inside it, the
    /// nominal period is nonnegative, and every recorded drift is at least
    /// the negated nominal period, as a cycle's elapsed time is nonnegative.
    pub open spec fn wf(&self) -> bool {
        &&& 1 <= self.drifts().len()
        &&& 0 <= self.slot() < self.drifts().len()
        &&& 0 <= self.nominal()
        &&& forall|i: int|
            0 <= i < self.drifts().len() ==> -self.nominal() <= #[trigger] self.drifts()[i]
    }

    /// Creates a scheduler for a nominal period with a drift ring of the
    /// given fixed capacity, all slots starting at zero drift.
    pub fn new(nominal_ns: i64, capacity: usize) -> (s: Scheduler)
        requires
            0 <= nominal_ns,
            1 <= capacity,
        ensures
            s.wf(),
            s.nominal() == nominal_ns,
            s.slot() == 0,
            s.drifts().len() == capacity,
            all_zero(s.drifts()),
    {
        let mut drifts_ns: Vec<i64> = Vec::new();
        let mut i: usize = 0;
        while i < capacity
            invariant
                i <= capacity,
                drifts_ns@.len() == i,
                forall|j: int| 0 <= j < i ==> drifts_ns@[j] == 0i64,
            decreases capacity - i,
        {
            drifts_ns.push(0);
            i = i + 1;
        }
        Scheduler { nominal_ns, drifts_ns, drifts_idx: 0 }
    }

    /// Records how long the previous cycle really took and returns how long
    /// to sleep before the next one: the nominal period shortened by the
    /// average drift of the recorded history. No sleep value comes back when
    /// the correction would be negative, which signals that the nominal
    /// period was chosen too small for the measured drift.
    pub fn advance(&mut self, elapsed_ns: i64) -> (sleep_ns: Option<u64>)
        requires
            old(self).wf(),
            0 <= elapsed_ns,
        ensures
            final(self).wf(),
            final(self).nominal() == old(self).nominal(),
            final(self).drifts() == record(
                old(self).drifts(),
                old(self).slot(),
                (elapsed_ns - old(self).nominal()) as i64,
            ),
            final(self).slot() == (old(self).slot() + 1) % (old(self).drifts().len() as int),
            sleep_ns == spec_sleep(old(self).nominal(), final(self).drifts()),
    {
        let drift: i64 = elapsed_ns - self.nominal_ns;
        let len = self.drifts_ns.len();
        self.drifts_ns.set(self.drifts_idx, drift);
        self.drifts_idx = (self.drifts_idx + 1) % len;

        let mut sum: i128 = 0;
        let mut i: usize = 0;
        while i < len
            invariant
                i <= len,
                len == self.drifts_ns@.len(),
                sum == sum_ns(self.drifts_ns@.take(i as int)),
                -(i as int) * 0x8000_0000_0000_0000 <= sum,
                sum <= (i as int) * 0x7fff_ffff_ffff_ffff,
            decreases len - i,
        {
            let d = self.drifts_ns[i];
            proof {
                lemma_sum_take_step(self.drifts_ns@, i as int);
            }
            sum = sum + (d as i128);
            i = i + 1;
        }
        proof {
            assert(self.drifts_ns@.take(len as int) =~= self.drifts_ns@);
            lemma_sum_bounds(self.drifts_ns@, -self.nominal(), i64::MAX as int);
            lemma_div_trunc_bounds(
                sum_ns(self.drifts_ns@),
                len as int,
                -self.nominal(),
                i64::MAX as int,
            );
        }
        let avg: i128 = if sum >= 0 {
            ((sum as u128) / (len as u128)) as i128
        } else {
            let m = ((-sum) as u128) / (len as u128);
            -(m as i128)
        };
        let computed: i128 = (self.nominal_ns as i128) - avg;
        if computed >= 0 {
            Some(computed as u64)
        } else {
            None
        }
    }
}

/// Summing one more sample extends the sum of a prefix by that sample.
pub proof fn lemma_sum_take_step(s: Seq<i64>, i: int)
    requires
        0 <= i < s.len(),
    ensures
        sum_ns(s.take(i + 1)) == sum_ns(s.take(i)) + s[i],
{
    assert(s.take(i + 1).drop_last() =~= s.take(i));
    assert(s.take(i + 1).last() == s[i]);
}

/// Recording a run leaves the ring's capacity unchanged.
pub proof fn lemma_record_run_len(drifts: Seq<i64>, slot: int, run: Seq<i64>)
    requires
        1 <= drifts.len(),
        0 <= slot < drifts.len(),
    ensures
        record_run(drifts, slot, run).len() == drifts.len(),
    decreases run.len(),
{
    if run.len() > 0 {
        lemma_record_run_len(
            record(drifts, slot, run[0]),
            (slot + 1) % (drifts.len() as int),
            run.subrange(1, run.len() as int),
        );
    }
}

/// Recording a nonempty run is recording its first sample and then the rest.
pub proof fn lemma_record_run_step(drifts: Seq<i64>, slot: int, run: Seq<i64>, j: int)
    requires
        1 <= j <= run.len(),
    ensures
        record_run(drifts, slot, run.take(j)) == record_run(
            record(drifts, slot, run[0]),
            (slot + 1) % (drifts.len() as int),
            run.subrange(1, run.len() as int).take(j - 1),
        ),
{
    let t = run.take(j);
    assert(t[0] == run[0]);
    assert(t.subrange(1, t.len() as int) =~= run.subrange(1, run.len() as int).take(j - 1));
}

/// A run of zero samples keeps an all-zero history all zero, at every point
/// along the run.
pub proof fn lemma_zero_run_stays_zero(drifts: Seq<i64>, slot: int, run: Seq<i64>)
    requires
        1 <= drifts.len(),
        0 <= slot < drifts.len(),
        all_zero(drifts),
        all_zero(run),
    ensures
        forall|j: int|
            0 <= j <= run.len() ==> all_zero(#[trigger] record_run(drifts, slot, run.take(j))),
    decreases run.len(),
{
    assert(run.take(0) =~= Seq::<i64>::empty());
    if run.len() > 0 {
        let d1 = record(drifts, slot, run[0]);
        let s1 = (slot + 1) % (drifts.len() as int);
        let run1 = run.subrange(1, run.len() as int);
        assert(all_zero(d1));
        lemma_zero_run_stays_zero(d1, s1, run1);
        assert forall|j: int|
            1 <= j <= run.len() implies all_zero(
            #[trigger] record_run(drifts, slot, run.take(j)),
        ) by {
            lemma_record_run_step(drifts, slot, run, j);
            assert(all_zero(record_run(d1, s1, run1.take(j - 1))));
        }
    }
}

/// An all-zero history has zero average drift.
pub proof fn lemma_avg_all_zero(s: Seq<i64>)
    requires
        1 <= s.len(),
        all_zero(s),
    ensures
        avg_drift(s) == 0,
{
    lemma_sum_bounds(s, 0, 0);
    vstd::arithmetic::div_mod::lemma_div_of0(s.len() as int);
}

/// Law: with zero real drift the scheduler is steady. If every sample in the
/// history is zero and every cycle of a run elapses exactly the nominal
/// period, so that each recorded drift is zero, then after every cycle of
/// the run the history is still all zero, the average drift is still zero,
/// and the computed sleep is exactly the nominal period.
pub proof fn lemma_zero_drift_is_steady(drifts: Seq<i64>, slot: int, run: Seq<i64>, nominal: int)
    requires
        1 <= drifts.len(),
        0 <= slot < drifts.len(),
        all_zero(drifts),
        all_zero(run),
        0 <= nominal <= i64::MAX,
    ensures
        forall|j: int|
            0 <= j <= run.len() ==> all_zero(#[trigger] record_run(drifts, slot, run.take(j))),
        forall|j: int|
            0 <= j <= run.len() ==> avg_drift(#[trigger] record_run(drifts, slot, run.take(j)))
                == 0,
        forall|j: int|
            0 <= j <= run.len() ==> spec_sleep(
                nominal,
                #[trigger] record_run(drifts, slot, run.take(j)),
            ) == Some(nominal as u64),
{
    lemma_zero_run_stays_zero(drifts, slot, run);
    assert forall|j: int| 0 <= j <= run.len() implies avg_drift(
        #[trigger] record_run(drifts, slot, run.take(j)),
    ) == 0 by {
        lemma_record_run_len(drifts, slot, run.take(j));
        lemma_avg_all_zero(record_run(drifts, slot, run.take(j)));
    }
}

/// A run of zero samples never grows a lone spike, and wipes it as soon as
/// the ring walk reaches its slot.
proof fn lemma_spike_run(d: Seq<i64>, slot: int, spike: int, x: i64, run: Seq<i64>)
    requires
        1 <= d.len(),
        0 <= slot < d.len(),
        0 <= spike < d.len(),
        0 <= x,
        single_spike(d, spike, x),
        all_zero(run),
    ensures
        forall|j: int|
            0 <= j <= run.len() ==> single_spike(
                #[trigger] record_run(d, slot, run.take(j)),
                spike,
                x,
            ),
        forall|j: int|
            ring_dist(slot, spike, d.len() as int) < j <= run.len() ==> all_zero(
                #[trigger] record_run(d, slot, run.take(j)),
            ),
        all_zero(d) ==> forall|j: int|
            0 <= j <= run.len() ==> all_zero(#[trigger] record_run(d, slot, run.take(j))),
    decreases run.len(),
{
    let len = d.len() as int;
    assert(run.take(0) =~= Seq::<i64>::empty());
    if all_zero(d) {
        lemma_zero_run_stays_zero(d, slot, run);
        assert forall|j: int| 0 <= j <= run.len() implies single_spike(
            #[trigger] record_run(d, slot, run.take(j)),
            spike,
            x,
        ) by {
            lemma_record_run_len(d, slot, run.take(j));
        }
    } else {
        assert(d[spike] == x);
        if run.len() > 0 {
            let d1 = record(d, slot, run[0]);
            let s1 = (slot + 1) % len;
            let run1 = run.subrange(1, run.len() as int);
            if slot + 1 < len {
                vstd::arithmetic::div_mod::lemma_small_mod((slot + 1) as nat, len as nat);
            } else {
                vstd::arithmetic::div_mod::lemma_mod_self_0(len);
            }
            assert(single_spike(d1, spike, x));
            lemma_spike_run(d1, s1, spike, x, run1);
            if slot == spike {
                assert(all_zero(d1));
            } else {
                assert(ring_dist(s1, spike, len) == ring_dist(slot, spike, len) - 1);
            }
            assert forall|j: int| 1 <= j <= run.len() implies single_spike(
                #[trigger] record_run(d, slot, run.take(j)),
                spike,
                x,
            ) && (ring_dist(slot, spike, len) < j ==> all_zero(
                record_run(d, slot, run.take(j)),
            )) by {
                lemma_record_run_step(d, slot, run, j);
                if slot == spike {
                    lemma_record_run_len(d1, s1, run1.take(j - 1));
                    assert(all_zero(record_run(d1, s1, run1.take(j - 1))));
                }
            }
        }
    }
}

/// Law: one overshooting cycle decays and never diverges. Recording one
/// overshoot drift into an all-zero history and then running cycles of zero
/// drift keeps the average drift between zero and the overshoot divided by
/// the ring capacity, and once the run has gone all the way around the ring
/// the history is all zero again and the average drift is exactly zero.
pub proof fn lemma_overshoot_decays(drifts: Seq<i64>, slot: int, overshoot: i64, run: Seq<i64>)
    requires
        1 <= drifts.len(),
        0 <= slot < drifts.len(),
        all_zero(drifts),
        0 <= overshoot,
        all_zero(run),
    ensures
        forall|j: int|
            0 <= j <= run.len() ==> {
                let h = #[trigger] record_run(
                    record(drifts, slot, overshoot),
                    (slot + 1) % (drifts.len() as int),
                    run.take(j),
                );
                0 <= avg_drift(h) <= div_trunc(overshoot as int, drifts.len() as int)
            },
        forall|j: int|
            drifts.len() <= j <= run.len() ==> {
                let h = #[trigger] record_run(
                    record(drifts, slot, overshoot),
                    (slot + 1) % (drifts.len() as int),
                    run.take(j),
                );
                all_zero(h) && avg_drift(h) == 0
            },
{
    let len = drifts.len() as int;
    let d1 = record(drifts, slot, overshoot);
    let s1 = (slot + 1) % len;
    if slot + 1 < len {
        vstd::arithmetic::div_mod::lemma_small_mod((slot + 1) as nat, len as nat);
    } else {
        vstd::arithmetic::div_mod::lemma_mod_self_0(len);
    }
    assert(single_spike(d1, slot, overshoot));
    assert(ring_dist(s1, slot, len) == len - 1);
    lemma_spike_run(d1, s1, slot, overshoot, run);
    assert forall|j: int| 0 <= j <= run.len() implies {
        let h = #[trigger] record_run(d1, s1, run.take(j));
        0 <= avg_drift(h) <= div_trunc(overshoot as int, len)
    } by {
        let h = record_run(d1, s1, run.take(j));
        lemma_record_run_len(d1, s1, run.take(j));
        lemma_sum_single_spike(h, slot, overshoot);
        vstd::arithmetic::div_mod::lemma_div_pos_is_pos(sum_ns(h), len);
        vstd::arithmetic::div_mod::lemma_div_is_ordered(sum_ns(h), overshoot as int, len);
        vstd::arithmetic::div_mod::lemma_div_pos_is_pos(overshoot as int, len);
    }
    assert forall|j: int| drifts.len() <= j <= run.len() implies {
        let h = #[trigger] record_run(d1, s1, run.take(j));
        all_zero(h) && avg_drift(h) == 0
    } by {
        let h = record_run(d1, s1, run.take(j));
        lemma_record_run_len(d1, s1, run.take(j));
        assert(all_zero(h));
        lemma_avg_all_zero(h);
    }
}

} // verus!
