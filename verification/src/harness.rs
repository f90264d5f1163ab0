//! Per-trial aggregation for the benchmark sweep: wrapping cycle deltas,
//! accumulated times and failure counts, and the averaged record.

use vstd::prelude::*;

verus! {

use vstd::arithmetic::div_mod::{lemma_small_mod, lemma_mod_multiples_vanish};

/// One averaged per-trial record.
#[derive(Clone, Copy, PartialEq, Eq, Debug)]
pub struct TrialResult {
    pub avg_ecc_cycles: u32,
    pub avg_rsa_cycles: u32,
    pub ecc_failures: u16,
    pub rsa_failures: u16,
}

/// Running totals for one trial.
#[derive(Clone, Copy, PartialEq, Eq, Debug)]
pub struct TrialAccumulator {
    pub ecc_cycles: u64,
    pub rsa_cycles: u64,
    pub ecc_failures: u16,
    pub rsa_failures: u16,
}

/// The elapsed count on a free-running 32-bit counter, tolerating a single
/// wraparound within the measurement window.
pub fn cycle_delta(start: u32, end: u32) -> (d: u32)
    ensures
        d as int == (end as int - start as int) % 0x1_0000_0000int,
{
    if end >= start {
        proof {
            lemma_small_mod((end - start) as nat, 0x1_0000_0000nat);
        }
        end - start
    } else {
        let d = 0xFFFF_FFFFu32 - start + end + 1;
        proof {
            lemma_mod_multiples_vanish(1, end as int - start as int, 0x1_0000_0000int);
            lemma_small_mod((end as int - start as int + 0x1_0000_0000int) as nat,
                0x1_0000_0000nat);
        }
        d
    }
}

impl TrialAccumulator {
    /// A fresh accumulator with nothing recorded.
    pub fn new() -> (r: TrialAccumulator)
        ensures
            r.ecc_cycles == 0 && r.rsa_cycles == 0,
            r.ecc_failures == 0 && r.rsa_failures == 0,
    {
        TrialAccumulator { ecc_cycles: 0, rsa_cycles: 0, ecc_failures: 0, rsa_failures: 0 }
    }

    /// Fold one repetition in: add both cycle deltas and count a failure
    /// for each protocol round that did not agree.
    pub fn record(&mut self, ecc_ok: bool, ecc_delta: u32, rsa_ok: bool, rsa_delta: u32)
        requires
            old(self).ecc_cycles + ecc_delta <= u64::MAX,
            old(self).rsa_cycles + rsa_delta <= u64::MAX,
            old(self).ecc_failures < u16::MAX,
            old(self).rsa_failures < u16::MAX,
        ensures
            final(self).ecc_cycles == old(self).ecc_cycles + ecc_delta,
            final(self).rsa_cycles == old(self).rsa_cycles + rsa_delta,
            final(self).ecc_failures
                == old(self).ecc_failures + (if ecc_ok { 0int } else { 1int }),
            final(self).rsa_failures
                == old(self).rsa_failures + (if rsa_ok { 0int } else { 1int }),
    {
        self.ecc_cycles = self.ecc_cycles + ecc_delta as u64;
        self.rsa_cycles = self.rsa_cycles + rsa_delta as u64;
        if !ecc_ok {
            self.ecc_failures = self.ecc_failures + 1;
        }
        if !rsa_ok {
            self.rsa_failures = self.rsa_failures + 1;
        }
    }

    /// The averaged per-trial record over a repetition count.
    pub fn finalize(&self, reps: u32) -> (r: TrialResult)
        requires
            reps >= 1,
            self.ecc_cycles / (reps as u64) <= u32::MAX,
            self.rsa_cycles / (reps as u64) <= u32::MAX,
        ensures
            r.avg_ecc_cycles == self.ecc_cycles / (reps as u64),
            r.avg_rsa_cycles == self.rsa_cycles / (reps as u64),
            r.ecc_failures == self.ecc_failures,
            r.rsa_failures == self.rsa_failures,
    {
        TrialResult {
            avg_ecc_cycles: (self.ecc_cycles / (reps as u64)) as u32,
            avg_rsa_cycles: (self.rsa_cycles / (reps as u64)) as u32,
            ecc_failures: self.ecc_failures,
            rsa_failures: self.rsa_failures,
        }
    }
}

} // verus!
