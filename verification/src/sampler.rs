//! Oversampling: a burst of raw conversions of one channel is averaged into
//! one stable 16-bit reading.

use vstd::prelude::*;

verus! {

/// Sum of a burst of raw samples.
pub open spec fn sample_sum(samples: Seq<u16>) -> nat
    decreases samples.len(),
{
    if samples.len() == 0 {
        0
    } else {
        sample_sum(samples.drop_last()) + samples.last() as nat
    }
}

/// Arithmetic mean of a non-empty burst, rounded down.
pub open spec fn sample_mean(samples: Seq<u16>) -> nat
    recommends
        samples.len() > 0,
{
    sample_sum(samples) / samples.len()
}

/// The two bytes of a reading on the wire, low byte first.
pub open spec fn le_bytes(reading: u16) -> Seq<u8> {
    seq![(reading % 256) as u8, (reading / 256) as u8]
}

/// A burst whose samples all stay at or under `max` sums to at most
/// `max` per sample.
pub proof fn lemma_sum_bounded(samples: Seq<u16>, max: nat)
    requires
        forall|i: int| 0 <= i < samples.len() ==> samples[i] <= max,
    ensures
        sample_sum(samples) <= samples.len() * max,
    decreases samples.len(),
{
    if samples.len() > 0 {
        let head = samples.drop_last();
        lemma_sum_bounded(head, max);
        assert(head.len() * max + max == samples.len() * max) by (nonlinear_arith)
            requires
                head.len() + 1 == samples.len(),
        ;
    }
}

/// A reading never exceeds the largest raw sample of its burst.
pub proof fn lemma_mean_bounded(samples: Seq<u16>, max: nat)
    requires
        samples.len() > 0,
        forall|i: int| 0 <= i < samples.len() ==> samples[i] <= max,
    ensures
        sample_mean(samples) <= max,
{
    lemma_sum_bounded(samples, max);
    let n = samples.len() as int;
    let total = sample_sum(samples) as int;
    let bound = max as int;
    assert(total / n <= bound) by (nonlinear_arith)
        requires
            n > 0,
            0 <= total <= n * bound,
    ;
}

/// The reading of a constant input is that constant.
pub proof fn lemma_mean_constant(samples: Seq<u16>, v: u16)
    requires
        samples.len() > 0,
        forall|i: int| 0 <= i < samples.len() ==> samples[i] == v,
    ensures
        sample_mean(samples) == v,
{
    lemma_sum_constant(samples, v);
    let n = samples.len() as int;
    let total = sample_sum(samples) as int;
    let value = v as int;
    assert(total / n == value) by (nonlinear_arith)
        requires
            n > 0,
            total == n * value,
    ;
}

/// A burst of `n` samples of value `v` sums to `n * v`.
proof fn lemma_sum_constant(samples: Seq<u16>, v: u16)
    requires
        forall|i: int| 0 <= i < samples.len() ==> samples[i] == v,
    ensures
        sample_sum(samples) == samples.len() * v,
    decreases samples.len(),
{
    if samples.len() > 0 {
        let head = samples.drop_last();
        lemma_sum_constant(head, v);
        assert(head.len() * v + v == samples.len() * v) by (nonlinear_arith)
            requires
                head.len() + 1 == samples.len(),
        ;
    }
}

/// The reading of a burst of `n` samples that is zero but for one sample
/// of value `n * k` is `k`.
pub proof fn lemma_mean_single(samples: Seq<u16>, at: int, k: nat)
    requires
        0 <= at < samples.len(),
        samples[at] == samples.len() * k,
        forall|i: int| 0 <= i < samples.len() && i != at ==> samples[i] == 0,
    ensures
        sample_mean(samples) == k,
{
    lemma_sum_single(samples, at);
    let n = samples.len() as int;
    let total = sample_sum(samples) as int;
    let value = k as int;
    assert(total / n == value) by (nonlinear_arith)
        requires
            n > 0,
            total == n * value,
    ;
}

/// A burst that is zero but for one sample sums to that sample.
proof fn lemma_sum_single(samples: Seq<u16>, at: int)
    requires
        0 <= at < samples.len(),
        forall|i: int| 0 <= i < samples.len() && i != at ==> samples[i] == 0,
    ensures
        sample_sum(samples) == samples[at],
    decreases samples.len(),
{
    let head = samples.drop_last();
    if at == samples.len() - 1 {
        lemma_sum_constant(head, 0);
    } else {
        lemma_sum_single(head, at);
    }
}

/// Mean of a burst of raw samples, rounded down.
pub fn mean(samples: &[u16]) -> (reading: u16)
    requires
        samples@.len() > 0,
    ensures
        reading == sample_mean(samples@),
{
    let mut total: u128 = 0;
    let mut i: usize = 0;
    while i < samples.len()
        invariant
            i <= samples@.len(),
            total == sample_sum(samples@.take(i as int)),
            total <= i * 0xFFFF,
        decreases samples.len() - i,
    {
        assert(samples@.take(i + 1).drop_last() =~= samples@.take(i as int));
        total = total + samples[i] as u128;
        i += 1;
    }
    proof {
        assert(samples@.take(i as int) =~= samples@);
        lemma_mean_bounded(samples@, 0xFFFF);
    }
    (total / (samples.len() as u128)) as u16
}

/// Averages a burst of raw samples of one channel into a reading and
/// returns it as it goes on the wire: two bytes, low byte first.
pub fn oversample(samples: &[u16]) -> (reading: [u8; 2])
    requires
        samples@.len() > 0,
    ensures
        reading@ == le_bytes(sample_mean(samples@) as u16),
{
    let res = mean(samples);
    let bytes = [(res % 256) as u8, (res / 256) as u8];
    assert(bytes@ =~= le_bytes(res));
    bytes
}

} // verus!
