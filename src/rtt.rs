//! Round-trip time estimation. Times and durations are microseconds.
use vstd::prelude::*;

verus! {

/// Round-trip time assumed before the first sample: 333 ms.
pub const INITIAL_RTT: u64 = 333000;

/// Timer granularity: 1 ms.
pub const K_GRANULARITY: u64 = 1000;

/// Largest round-trip time this estimator takes as a sample (about twelve days); it
/// keeps the weighted sums below 2^64.
pub const MAX_RTT: u64 = 1099511627776;

/// Default of the peer's largest acknowledgment delay: 25 ms.
pub const DEFAULT_MAX_ACK_DELAY: u64 = 25000;

pub open spec fn max_int(a: int, b: int) -> int {
    if a >= b {
        a
    } else {
        b
    }
}

pub open spec fn min_int(a: int, b: int) -> int {
    if a <= b {
        a
    } else {
        b
    }
}

pub open spec fn abs_diff(a: int, b: int) -> int {
    if a >= b {
        a - b
    } else {
        b - a
    }
}

/// Round-trip time state shared by the packet number spaces of a connection.
#[derive(Clone, Copy, Debug, PartialEq, Eq, Structural)]
pub struct Rtt {
    pub latest_rtt: u64,
    pub smoothed_rtt: u64,
    pub rttvar: u64,
    pub min_rtt: u64,
    /// Whether a sample has been taken.
    pub has_sample: bool,
    /// The peer's largest acknowledgment delay.
    pub max_ack_delay: u64,
}

impl Rtt {
    pub open spec fn wf(self) -> bool {
        &&& self.latest_rtt <= MAX_RTT
        &&& self.smoothed_rtt <= MAX_RTT
        &&& self.rttvar <= MAX_RTT
        &&& self.min_rtt <= MAX_RTT
    }

    /// The sample once the acknowledgment delay is taken off: the delay counts only
    /// after handshake confirmation, is capped by the peer's largest delay, and the
    /// result never goes below the smallest sample.
    pub open spec fn adjusted(self, latest: u64, ack_delay: u64, confirmed: bool) -> int {
        let min_rtt = min_int(self.min_rtt as int, latest as int);
        let delay = if confirmed {
            min_int(ack_delay as int, self.max_ack_delay as int)
        } else {
            0
        };
        max_int(latest - delay, min_rtt)
    }

    /// The state after taking a sample.
    pub open spec fn after_sample(self, latest: u64, ack_delay: u64, confirmed: bool) -> Rtt {
        if !self.has_sample {
            Rtt {
                latest_rtt: latest,
                smoothed_rtt: latest,
                rttvar: (latest / 2) as u64,
                min_rtt: latest,
                has_sample: true,
                max_ack_delay: self.max_ack_delay,
            }
        } else {
            let adj = self.adjusted(latest, ack_delay, confirmed);
            Rtt {
                latest_rtt: adj as u64,
                smoothed_rtt: ((7 * self.smoothed_rtt + adj) / 8) as u64,
                rttvar: ((3 * self.rttvar + abs_diff(self.smoothed_rtt as int, adj)) / 4) as u64,
                min_rtt: min_int(self.min_rtt as int, latest as int) as u64,
                has_sample: true,
                max_ack_delay: self.max_ack_delay,
            }
        }
    }

    pub open spec fn spec_loss_delay(self) -> int {
        max_int(9 * max_int(self.smoothed_rtt as int, self.latest_rtt as int) / 8, K_GRANULARITY as int)
    }

    pub open spec fn spec_pto_base(self) -> int {
        self.smoothed_rtt + max_int(4 * self.rttvar, K_GRANULARITY as int)
    }

    /// The state before any sample: smoothed time 333 ms, variation half of it.
    pub fn new() -> (r: Rtt)
        ensures
            r.wf(),
            r.smoothed_rtt == INITIAL_RTT,
            r.rttvar == INITIAL_RTT / 2,
            r.latest_rtt == 0,
            r.min_rtt == 0,
            !r.has_sample,
            r.max_ack_delay == DEFAULT_MAX_ACK_DELAY,
    {
        Rtt {
            latest_rtt: 0,
            smoothed_rtt: INITIAL_RTT,
            rttvar: INITIAL_RTT / 2,
            min_rtt: 0,
            has_sample: false,
            max_ack_delay: DEFAULT_MAX_ACK_DELAY,
        }
    }

    /// Takes a sample of the round-trip time.
    pub fn update(&mut self, latest_rtt: u64, ack_delay: u64, handshake_confirmed: bool)
        requires
            old(self).wf(),
            latest_rtt <= MAX_RTT,
        ensures
            final(self).wf(),
            *final(self) == old(self).after_sample(latest_rtt, ack_delay, handshake_confirmed),
    {
        if !self.has_sample {
            self.latest_rtt = latest_rtt;
            self.smoothed_rtt = latest_rtt;
            self.rttvar = latest_rtt / 2;
            self.min_rtt = latest_rtt;
            self.has_sample = true;
            return;
        }
        if latest_rtt < self.min_rtt {
            self.min_rtt = latest_rtt;
        }
        let mut adjusted = latest_rtt;
        if handshake_confirmed {
            let delay = if ack_delay < self.max_ack_delay {
                ack_delay
            } else {
                self.max_ack_delay
            };
            adjusted = if latest_rtt - self.min_rtt >= delay {
                latest_rtt - delay
            } else {
                self.min_rtt
            };
        }
        let diff = if self.smoothed_rtt >= adjusted {
            self.smoothed_rtt - adjusted
        } else {
            adjusted - self.smoothed_rtt
        };
        self.rttvar = (3 * self.rttvar + diff) / 4;
        self.smoothed_rtt = (7 * self.smoothed_rtt + adjusted) / 8;
        self.latest_rtt = adjusted;
    }

    /// How long after a later packet was acknowledged a packet counts as lost:
    /// nine eighths of the larger of the smoothed and latest times, at least 1 ms.
    pub fn loss_delay(&self) -> (r: u64)
        requires
            self.wf(),
        ensures
            r == self.spec_loss_delay(),
    {
        let m = if self.smoothed_rtt >= self.latest_rtt {
            self.smoothed_rtt
        } else {
            self.latest_rtt
        };
        let d = 9 * m / 8;
        if d >= K_GRANULARITY {
            d
        } else {
            K_GRANULARITY
        }
    }

    /// The probe timeout before the acknowledgment delay is added: the smoothed time
    /// plus four variations, the variation term at least 1 ms.
    pub fn pto_base(&self) -> (r: u64)
        requires
            self.wf(),
        ensures
            r == self.spec_pto_base(),
    {
        let v = 4 * self.rttvar;
        self.smoothed_rtt + if v >= K_GRANULARITY {
            v
        } else {
            K_GRANULARITY
        }
    }
}

/// A first sample sets the smoothed time to the sample and the variation to half of it;
/// a later one moves the smoothed time by an eighth and the variation by a quarter of
/// the distance to the adjusted sample, and the adjusted sample is never below the
/// smallest sample.
pub proof fn lemma_rtt_update(r: Rtt, latest: u64, ack_delay: u64, confirmed: bool)
    requires
        r.wf(),
        latest <= MAX_RTT,
    ensures
        !r.has_sample ==> r.after_sample(latest, ack_delay, confirmed).smoothed_rtt == latest
            && r.after_sample(latest, ack_delay, confirmed).rttvar == latest / 2,
        r.has_sample ==> {
            let a = r.adjusted(latest, ack_delay, confirmed);
            let n = r.after_sample(latest, ack_delay, confirmed);
            &&& n.smoothed_rtt == (7 * r.smoothed_rtt + a) / 8
            &&& n.rttvar == (3 * r.rttvar + abs_diff(r.smoothed_rtt as int, a)) / 4
            &&& a >= n.min_rtt
            &&& n.min_rtt <= r.min_rtt
        },
        r.after_sample(latest, ack_delay, confirmed).wf(),
{
}

} // verus!
