//! A BBR congestion algorithm: a windowed maximum of the delivery rate, a windowed
//! minimum of the round-trip time, and the Startup, Drain, ProbeBW and ProbeRTT modes.
use vstd::prelude::*;
use crate::congestion::{Acked, Algorithm, Sent};

verus! {

/// Largest datagram payload assumed for window arithmetic.
pub const MSS: u64 = 1200;

/// Smallest congestion window: four datagrams.
pub const MIN_CWND: u64 = 4800;

/// Window before any delivery-rate sample: ten datagrams.
pub const INITIAL_CWND: u64 = 12000;

/// Rounds over which the delivery-rate maximum is kept.
pub const BTL_BW_WINDOW: usize = 10;

/// How long the smallest round-trip time stays valid: 10 s.
pub const RT_PROP_WINDOW: u64 = 10000000;

/// Shortest stay in ProbeRTT: 200 ms.
pub const PROBE_RTT_TIME: u64 = 200000;

/// Gains are thousandths.
pub const GAIN_UNIT: u64 = 1000;

/// Startup gain, 2/ln 2.
pub const HIGH_GAIN: u64 = 2885;

/// a * b, or the largest u64 where the product does not fit.
pub open spec fn sat_mul_spec(a: int, b: int) -> int {
    if a * b > u64::MAX { u64::MAX as int } else { a * b }
}

/// a * b, or the largest u64 where the product does not fit.
pub fn sat_mul(a: u64, b: u64) -> (r: u64)
    ensures
        r == sat_mul_spec(a as int, b as int),
        a * b <= u64::MAX ==> r == a * b,
        a * b > u64::MAX ==> r == u64::MAX,
{
    if b == 0 {
        assert(a * b == 0) by (nonlinear_arith)
            requires
                b == 0,
        ;
        0
    } else if a > u64::MAX / b {
        assert(a * b > u64::MAX) by (nonlinear_arith)
            requires
                b > 0,
                a > u64::MAX / b,
        ;
        u64::MAX
    } else {
        assert(a * b <= u64::MAX) by (nonlinear_arith)
            requires
                b > 0,
                a <= u64::MAX / b,
        ;
        a * b
    }
}

#[derive(Clone, Copy, Debug, PartialEq, Eq, Structural)]
pub enum BbrMode {
    Startup,
    Drain,
    ProbeBw,
    ProbeRtt,
}

/// Pacing gain of each step of the ProbeBW cycle, in thousandths: 5/4, 3/4, then six
/// steps of 1.
pub open spec fn spec_cycle_gain(i: int) -> u64 {
    if i == 0 {
        1250
    } else if i == 1 {
        750
    } else {
        1000
    }
}

pub fn cycle_gain(i: usize) -> (r: u64)
    ensures
        r == spec_cycle_gain(i as int),
{
    if i == 0 {
        1250
    } else if i == 1 {
        750
    } else {
        1000
    }
}

/// BBR state.
#[derive(Clone, Debug)]
pub struct Bbr {
    pub mode: BbrMode,
    /// Bytes acknowledged so far.
    pub delivered: u64,
    /// When the last acknowledgment that delivered bytes arrived.
    pub delivered_time: u64,
    /// Send time of the packet most recently acknowledged.
    pub first_sent_time: u64,
    pub bytes_in_flight: u64,
    /// Delivery-rate samples of the last rounds, bytes per second.
    pub bw_samples: Vec<u64>,
    /// Smallest round-trip time seen in the window, if any.
    pub rt_prop: Option<u64>,
    pub rt_prop_stamp: u64,
    /// Delivery rate at the last check for a full pipe, and rounds without growth.
    pub full_bw: u64,
    pub full_bw_count: u64,
    pub cycle_index: usize,
    pub cycle_stamp: u64,
    pub probe_rtt_done: Option<u64>,
    pub cwnd: u64,
}

impl Bbr {
    pub open spec fn wf(self) -> bool {
        &&& self.cycle_index < 8
        &&& self.cwnd >= MIN_CWND
        &&& self.bw_samples@.len() <= BTL_BW_WINDOW
    }

    pub fn new() -> (r: Bbr)
        ensures
            r.wf(),
            r.mode == BbrMode::Startup,
            r.cwnd == INITIAL_CWND,
    {
        Bbr {
            mode: BbrMode::Startup,
            delivered: 0,
            delivered_time: 0,
            first_sent_time: 0,
            bytes_in_flight: 0,
            bw_samples: Vec::new(),
            rt_prop: None,
            rt_prop_stamp: 0,
            full_bw: 0,
            full_bw_count: 0,
            cycle_index: 0,
            cycle_stamp: 0,
            probe_rtt_done: None,
            cwnd: INITIAL_CWND,
        }
    }

    /// The largest delivery-rate sample in the window.
    pub fn btl_bw(&self) -> (r: u64)
        ensures
            forall|i: int| 0 <= i < self.bw_samples@.len() ==> self.bw_samples@[i] <= r,
            self.bw_samples@.len() == 0 ==> r == 0,
            self.bw_samples@.len() > 0 ==> exists|i: int|
                0 <= i < self.bw_samples@.len() && self.bw_samples@[i] == r,
    {
        let mut best: u64 = 0;
        let mut i: usize = 0;
        while i < self.bw_samples.len()
            invariant
                i <= self.bw_samples@.len(),
                forall|j: int| 0 <= j < i ==> self.bw_samples@[j] <= best,
                i == 0 ==> best == 0,
                i > 0 ==> exists|j: int| 0 <= j < i && self.bw_samples@[j] == best,
            decreases self.bw_samples@.len() - i,
        {
            if self.bw_samples[i] >= best || i == 0 {
                best = self.bw_samples[i];
            }
            i = i + 1;
        }
        best
    }

    /// Bandwidth-delay product scaled by a gain, never below the smallest window.
    pub fn target_cwnd(&self, gain: u64) -> (r: u64)
        ensures
            r >= MIN_CWND,
    {
        let rt = match self.rt_prop {
            Some(t) => t,
            None => return if self.cwnd >= MIN_CWND {
                self.cwnd
            } else {
                MIN_CWND
            },
        };
        let bw = self.btl_bw();
        let bdp = sat_mul(bw, rt) / 1000000;
        let w = sat_mul(bdp, gain) / GAIN_UNIT;
        if w >= MIN_CWND {
            w
        } else {
            MIN_CWND
        }
    }

    fn push_bw_sample(&mut self, bw: u64)
        ensures
            final(self).bw_samples@.len() > 0,
            final(self).bw_samples@.last() == bw,
            *final(self) == (Bbr { bw_samples: final(self).bw_samples, ..*old(self) }),
    {
        while self.bw_samples.len() >= BTL_BW_WINDOW
            invariant
                *self == (Bbr { bw_samples: self.bw_samples, ..*old(self) }),
            decreases self.bw_samples@.len(),
        {
            self.bw_samples.remove(0);
        }
        self.bw_samples.push(bw);
    }

    /// Moves between modes after an acknowledgment at time now.
    fn update_mode(&mut self, now: u64)
        ensures
            final(self).delivered == old(self).delivered,
            final(self).bytes_in_flight == old(self).bytes_in_flight,
            final(self).delivered_time == old(self).delivered_time,
            final(self).first_sent_time == old(self).first_sent_time,
            final(self).bw_samples == old(self).bw_samples,
            final(self).rt_prop == old(self).rt_prop,
    {
        let bw = self.btl_bw();
        match self.mode {
            BbrMode::Startup => {
                // the pipe is full once the rate grew by less than a quarter three times
                if bw >= self.full_bw.saturating_add(self.full_bw / 4) {
                    self.full_bw = bw;
                    self.full_bw_count = 0;
                } else {
                    self.full_bw_count = self.full_bw_count.saturating_add(1);
                }
                if self.full_bw_count >= 3 {
                    self.mode = BbrMode::Drain;
                }
            },
            BbrMode::Drain => {
                if self.bytes_in_flight <= self.target_cwnd(GAIN_UNIT) {
                    self.mode = BbrMode::ProbeBw;
                    self.cycle_index = 0;
                    self.cycle_stamp = now;
                }
            },
            BbrMode::ProbeBw => {
                let rt = match self.rt_prop {
                    Some(t) => t,
                    None => 0,
                };
                if now >= self.cycle_stamp.saturating_add(rt) {
                    self.cycle_index = if self.cycle_index >= 7 {
                        0
                    } else {
                        self.cycle_index + 1
                    };
                    self.cycle_stamp = now;
                }
            },
            BbrMode::ProbeRtt => {
                match self.probe_rtt_done {
                    Some(t) => {
                        if now >= t {
                            self.probe_rtt_done = None;
                            self.rt_prop_stamp = now;
                            self.mode = BbrMode::ProbeBw;
                            self.cycle_index = 0;
                            self.cycle_stamp = now;
                        }
                    },
                    None => {
                        let rt = match self.rt_prop {
                            Some(t) => t,
                            None => 0,
                        };
                        let stay = if rt > PROBE_RTT_TIME {
                            rt
                        } else {
                            PROBE_RTT_TIME
                        };
                        self.probe_rtt_done = Some(now.saturating_add(stay));
                    },
                }
            },
        }
        if self.mode != BbrMode::ProbeRtt && now > self.rt_prop_stamp.saturating_add(
            RT_PROP_WINDOW,
        ) {
            self.mode = BbrMode::ProbeRtt;
            self.probe_rtt_done = None;
        }
    }

    fn update_cwnd(&mut self)
        ensures
            final(self).delivered == old(self).delivered,
            final(self).bytes_in_flight == old(self).bytes_in_flight,
            final(self).delivered_time == old(self).delivered_time,
            final(self).first_sent_time == old(self).first_sent_time,
            final(self).bw_samples == old(self).bw_samples,
            final(self).rt_prop == old(self).rt_prop,
            final(self).cwnd >= MIN_CWND,
    {
        let gain = match self.mode {
            BbrMode::Startup => HIGH_GAIN,
            BbrMode::Drain => GAIN_UNIT,
            BbrMode::ProbeBw => 2 * GAIN_UNIT,
            BbrMode::ProbeRtt => 0,
        };
        self.cwnd = self.target_cwnd(gain);
        if self.mode == BbrMode::ProbeBw && cycle_gain(self.cycle_index) > GAIN_UNIT {
            self.cwnd = self.cwnd.saturating_add(MSS);
        }
    }
}

impl Algorithm for Bbr {
    open spec fn spec_cwnd(&self) -> u64 {
        self.cwnd
    }

    /// Where nothing is in flight the delivery clock restarts at now; the record takes
    /// the bytes delivered, the delivery and first-send times and the bytes in flight
    /// once it is counted, and is not application-limited.
    open spec fn sent_rel(o: Bbr, f: Bbr, sent: Sent, sent_bytes: usize, now: u64) -> bool {
        let dt = if o.bytes_in_flight == 0 { now } else { o.delivered_time };
        let ft = if o.bytes_in_flight == 0 { now } else { o.first_sent_time };
        let bif = if o.bytes_in_flight + sent_bytes > u64::MAX { u64::MAX } else { (o.bytes_in_flight + sent_bytes) as u64 };
        &&& f == (Bbr { delivered_time: dt, first_sent_time: ft, bytes_in_flight: bif, ..o })
        &&& sent.delivered == o.delivered
        &&& sent.delivered_time == dt
        &&& sent.first_sent_time == ft
        &&& !sent.is_app_limited
        &&& sent.tx_in_flight == bif
    }

    /// The packet's bytes leave the flight and count as delivered, at now; a
    /// delivery-rate sample (bytes delivered since the packet was sent over the time
    /// since then) joins the window where that time is not zero; the smallest round-trip
    /// time takes the packet's when smaller or when the window of 10 s ran out; then
    /// the mode and window rules apply, the window never below four datagrams.
    open spec fn acked_rel(o: Bbr, f: Bbr, packet: Acked, now: u64) -> bool {
        let delivered = if o.delivered + packet.size > u64::MAX { u64::MAX } else { (o.delivered + packet.size) as u64 };
        let interval = if now >= packet.delivered_time { now - packet.delivered_time } else { 0 };
        let fresh = match o.rt_prop {
            Some(t) => packet.rtt <= t || now > crate::congestion::sat_add(o.rt_prop_stamp as int, RT_PROP_WINDOW as int),
            None => true,
        };
        &&& f.delivered == delivered
        &&& f.bytes_in_flight == if o.bytes_in_flight >= packet.size { o.bytes_in_flight - packet.size } else { 0 }
        &&& f.delivered_time == now
        &&& f.first_sent_time == packet.time_sent
        &&& interval > 0 ==> f.bw_samples@.len() > 0 && f.bw_samples@.last() == (crate::bbr::sat_mul_spec(
            if delivered >= packet.delivered { delivered - packet.delivered } else { 0 }, 1000000) / interval) as u64
        &&& interval == 0 ==> f.bw_samples@ == o.bw_samples@
        &&& f.rt_prop == if fresh { Some(packet.rtt) } else { o.rt_prop }
        &&& f.cwnd >= MIN_CWND
    }

    /// The lost packet's bytes leave the flight; nothing else changes.
    open spec fn lost_rel(o: Bbr, f: Bbr, lost: Sent, now: u64) -> bool {
        f == (Bbr {
            bytes_in_flight: if o.bytes_in_flight >= lost.size { (o.bytes_in_flight - lost.size) as u64 } else { 0 },
            ..o
        })
    }

    fn init(&mut self) {
        *self = Bbr::new();
    }

    fn on_packet_sent(&mut self, sent: &mut Sent, sent_bytes: usize, now: u64) {
        if self.bytes_in_flight == 0 {
            self.delivered_time = now;
            self.first_sent_time = now;
        }
        sent.delivered = self.delivered;
        sent.delivered_time = self.delivered_time;
        sent.first_sent_time = self.first_sent_time;
        sent.is_app_limited = false;
        self.bytes_in_flight = self.bytes_in_flight.saturating_add(sent_bytes as u64);
        sent.tx_in_flight = self.bytes_in_flight;
    }

    fn on_packet_acked(&mut self, packet: &Acked, now: u64) {
        self.bytes_in_flight = self.bytes_in_flight.saturating_sub(packet.size as u64);
        self.delivered = self.delivered.saturating_add(packet.size as u64);
        self.delivered_time = now;
        self.first_sent_time = packet.time_sent;
        let interval = now.saturating_sub(packet.delivered_time);
        if interval > 0 {
            let bytes = self.delivered.saturating_sub(packet.delivered);
            self.push_bw_sample(sat_mul(bytes, 1000000) / interval);
        }
        let fresh = match self.rt_prop {
            Some(t) => packet.rtt <= t || now > self.rt_prop_stamp.saturating_add(RT_PROP_WINDOW),
            None => true,
        };
        if fresh {
            self.rt_prop = Some(packet.rtt);
            self.rt_prop_stamp = now;
        }
        self.update_mode(now);
        self.update_cwnd();
    }

    fn on_congestion_event(&mut self, lost: &Sent, _now: u64) {
        self.bytes_in_flight = self.bytes_in_flight.saturating_sub(lost.size as u64);
    }

    fn cwnd(&self) -> u64 {
        self.cwnd
    }
}

} // verus!
