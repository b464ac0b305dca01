//! The sending side of a stream: its state machine over the send buffer.
use vstd::prelude::*;
use crate::frame::StreamFrame;
use crate::sndbuf::{acked_into, can_ack_spec, lost_into, picked_into, wrote_into, Color, SendBuf};
use crate::varint::VARINT_MAX;

verus! {

/// Room taken at most by a STREAM frame's header: type, identifier, offset, length.
pub const STREAM_HEADER_MAX: usize = 25;

/// Sending state of a stream.
pub enum Sender {
    Ready(SendBuf),
    Sending(SendBuf),
    DataSent(SendBuf),
    DataRecvd,
    ResetSent,
    ResetRecvd,
}

/// The states without their buffers.
#[derive(Debug, Clone, Copy, PartialEq, Eq, Structural)]
pub enum SendState {
    Ready,
    Sending,
    DataSent,
    DataRecvd,
    ResetSent,
    ResetRecvd,
}

/// Why a cancellation came too late.
#[derive(Debug, Clone, Copy, PartialEq, Eq, Structural)]
pub enum CancelTooLate {
    ResetRecvd,
    DataRecvd,
}

/// Where a cancellation by the application stands: not yet known (None), done
/// (Some(Ok)), or too late (Some(Err)).
#[derive(Debug, Clone, Copy)]
pub struct IsCancelled {
    pub result: Option<Result<(), CancelTooLate>>,
}

/// The payload room a STREAM frame has within capacity bytes.
pub open spec fn max_payload(capacity: usize) -> int {
    if capacity > STREAM_HEADER_MAX {
        capacity - STREAM_HEADER_MAX
    } else {
        0
    }
}

/// The STREAM frame header for a pick of the send buffer.
pub open spec fn frame_of(sid: u64, p: Option<(u64, usize, bool)>) -> Option<StreamFrame> {
    match p {
        None => None,
        Some((offset, len, eos)) => Some(
            StreamFrame {
                id: sid,
                offset,
                length: len as u64,
                flag: (2 + (if offset > 0 { 4int } else { 0int }) + (if eos { 1int } else { 0int })) as u8,
            },
        ),
    }
}

/// A STREAM frame that carries no data, only FIN, at the end of the stream.
pub open spec fn fin_frame(sid: u64, wrote: int) -> StreamFrame {
    StreamFrame {
        id: sid,
        offset: wrote as u64,
        length: 0,
        flag: (3 + (if wrote > 0 { 4int } else { 0int })) as u8,
    }
}

/// Whether the FIN goes out alone: the stream is finished, nothing was left to pick,
/// and the frame has room.
pub open spec fn fin_alone(fin: bool, max_len: int, p: Option<(u64, usize, bool)>) -> bool {
    fin && max_len > 0 && p is None
}

/// The state after picking data: a ready or sending stream goes to DataSent once the
/// FIN is out (with its last bytes, or alone), and is sending otherwise; DataSent
/// stays.
pub open spec fn next_state(s: SendState, fin: bool, max_len: int, p: Option<(u64, usize, bool)>) -> SendState {
    match s {
        SendState::Ready | SendState::Sending => if (p matches Some(x) && x.2) || fin_alone(fin, max_len, p) {
            SendState::DataSent
        } else {
            SendState::Sending
        },
        _ => s,
    }
}

/// What try_send(sid, capacity) does to a stream: in Ready, Sending or DataSent it picks
/// up to capacity less the largest header from the buffer, hands back the frame of the
/// pick (or, for a finished stream with nothing left in Ready or Sending, a frame with
/// the FIN alone), and moves as next_state says; other states stay and give None.
pub open spec fn try_send_post(o: Outgoing, f: Outgoing, sid: u64, capacity: usize, r: Option<StreamFrame>) -> bool {
    if o.state() == SendState::Ready || o.state() == SendState::Sending || o.state() == SendState::DataSent {
        exists|p: Option<(u64, usize, bool)>|
            #![trigger picked_into(o.buf().unwrap(), f.buf().unwrap(), max_payload(capacity), p)]
            picked_into(o.buf().unwrap(), f.buf().unwrap(), max_payload(capacity), p)
            && f.state() == next_state(o.state(), o.buf().unwrap().spec_fin(), max_payload(capacity), p)
            && r == if o.state() != SendState::DataSent && fin_alone(o.buf().unwrap().spec_fin(), max_payload(capacity), p) {
                Some(fin_frame(sid, o.buf().unwrap().spec_wrote()))
            } else {
                frame_of(sid, p)
            }
    } else {
        r is None && f == o
    }
}

/// What ack_recv(start, end) does to a stream, r being its result.
pub open spec fn ack_recv_post(o: Outgoing, f: Outgoing, start: int, end: int, r: bool) -> bool {
    &&& ((o.state() == SendState::Sending || o.state() == SendState::DataSent) && !can_ack_spec(o.buf().unwrap(), start, end) ==> !r && f == o)
    &&& (o.state() == SendState::Sending && can_ack_spec(o.buf().unwrap(), start, end) ==> !r && f.state() == SendState::Sending && acked_into(o.buf().unwrap(), f.buf().unwrap(), start, end))
    &&& (o.state() == SendState::DataSent && can_ack_spec(o.buf().unwrap(), start, end) ==> ({
        let b = o.buf().unwrap();
        let done = forall|x: int| 0 <= x < b.spec_wrote() && !(start <= x < end) ==> #[trigger] b.color(x) == Some(Color::Recved);
        &&& r == done
        &&& done ==> f.state() == SendState::DataRecvd
        &&& !done ==> f.state() == SendState::DataSent && acked_into(b, f.buf().unwrap(), start, end)
    }))
    &&& (!(o.state() == SendState::Sending || o.state() == SendState::DataSent) ==> !r && f == o)
}

/// What may_loss(start, end) does to a stream.
pub open spec fn may_loss_post(o: Outgoing, f: Outgoing, start: int, end: int) -> bool {
    &&& (f.state() == o.state())
    &&& ((o.state() == SendState::Sending || o.state() == SendState::DataSent) && start <= end <= o.buf().unwrap().spec_wrote() ==> lost_into(o.buf().unwrap(), f.buf().unwrap(), start, end))
    &&& (!((o.state() == SendState::Sending || o.state() == SendState::DataSent) && start <= end <= o.buf().unwrap().spec_wrote()) ==> f.buf() == o.buf())
}

/// The sending side of a stream.
pub struct Outgoing {
    pub sender: Sender,
}

impl Outgoing {
    pub open spec fn state(&self) -> SendState {
        match self.sender {
            Sender::Ready(_) => SendState::Ready,
            Sender::Sending(_) => SendState::Sending,
            Sender::DataSent(_) => SendState::DataSent,
            Sender::DataRecvd => SendState::DataRecvd,
            Sender::ResetSent => SendState::ResetSent,
            Sender::ResetRecvd => SendState::ResetRecvd,
        }
    }

    /// The buffer of a state that has one.
    pub open spec fn buf(&self) -> Option<SendBuf> {
        match self.sender {
            Sender::Ready(b) => Some(b),
            Sender::Sending(b) => Some(b),
            Sender::DataSent(b) => Some(b),
            _ => None,
        }
    }

    pub open spec fn wf(&self) -> bool {
        self.buf() matches Some(b) ==> b.wf()
    }

    /// The state, without its buffer.
    pub fn send_state(&self) -> (r: SendState)
        ensures
            r == self.state(),
    {
        match &self.sender {
            Sender::Ready(_) => SendState::Ready,
            Sender::Sending(_) => SendState::Sending,
            Sender::DataSent(_) => SendState::DataSent,
            Sender::DataRecvd => SendState::DataRecvd,
            Sender::ResetSent => SendState::ResetSent,
            Sender::ResetRecvd => SendState::ResetRecvd,
        }
    }

    /// Takes bytes from the application as far as the window allows; nothing once the
    /// stream is finished, reset or past sending.
    pub fn write(&mut self, data: &[u8]) -> (n: usize)
        requires
            old(self).wf(),
        ensures
            final(self).wf(),
            final(self).state() == old(self).state(),
            ((old(self).state() == SendState::Ready || old(self).state() == SendState::Sending)
                && !old(self).buf().unwrap().spec_fin()) ==> wrote_into(old(self).buf().unwrap(), final(self).buf().unwrap(), data@, n as int),
            !((old(self).state() == SendState::Ready || old(self).state() == SendState::Sending)
                && !old(self).buf().unwrap().spec_fin()) ==> n == 0 && final(self).buf() == old(self).buf(),
    {
        match &mut self.sender {
            Sender::Ready(b) => if b.is_shutdown() {
                0
            } else {
                b.write(data)
            },
            Sender::Sending(b) => if b.is_shutdown() {
                0
            } else {
                b.write(data)
            },
            _ => 0,
        }
    }

    /// The application finishes the stream: no more bytes will be written.
    pub fn shutdown(&mut self)
        requires
            old(self).wf(),
        ensures
            final(self).wf(),
            final(self).state() == old(self).state(),
            (old(self).state() == SendState::Ready || old(self).state() == SendState::Sending) ==> ({
                let o = old(self).buf().unwrap();
                let f = final(self).buf().unwrap();
                &&& f.spec_fin()
                &&& f.spec_data() == o.spec_data()
                &&& f.colors() == o.colors()
                &&& f.spec_max_data() == o.spec_max_data()
            }),
            !(old(self).state() == SendState::Ready || old(self).state() == SendState::Sending) ==> final(self).buf() == old(self).buf(),
    {
        match &mut self.sender {
            Sender::Ready(b) => b.shutdown(),
            Sender::Sending(b) => b.shutdown(),
            _ => {},
        }
    }

    /// Raises the flow-control window while sending; a smaller one is ignored.
    pub fn update_window(&mut self, max_data_size: u64)
        requires
            old(self).wf(),
            max_data_size <= VARINT_MAX,
        ensures
            final(self).wf(),
            final(self).state() == old(self).state(),
            old(self).state() == SendState::Sending ==> ({
                let o = old(self).buf().unwrap();
                let f = final(self).buf().unwrap();
                &&& f.spec_data() == o.spec_data()
                &&& f.colors() == o.colors()
                &&& f.spec_fin() == o.spec_fin()
                &&& f.spec_max_data() == if max_data_size > o.spec_max_data() {
                    max_data_size
                } else {
                    o.spec_max_data()
                }
            }),
            old(self).state() != SendState::Sending ==> final(self).buf() == old(self).buf(),
    {
        match &mut self.sender {
            Sender::Sending(b) => b.update_window(max_data_size),
            _ => {},
        }
    }

    /// Picks data for a STREAM frame of stream sid within capacity bytes, taking from
    /// the send buffer up to capacity less the largest header, lost bytes before pending
    /// ones. A ready stream starts sending; a ready or sending stream goes to DataSent
    /// once its FIN is out: with its last bytes, or alone once it is finished and has
    /// nothing left to send. Hands back the frame header, whose data is the buffer's
    /// bytes [offset, offset + length): OFF set where the offset is not 0, LEN always,
    /// FIN where the data ends the finished stream.
    pub fn try_send(&mut self, sid: u64, capacity: usize) -> (r: Option<StreamFrame>)
        requires
            old(self).wf(),
            sid <= VARINT_MAX,
        ensures
            final(self).wf(),
            try_send_post(*old(self), *final(self), sid, capacity, r),
            r matches Some(f) ==> final(self).buf() is Some && old(self).buf() is Some
                && f.offset + f.length <= final(self).buf().unwrap().spec_wrote()
                && f.length <= usize::MAX && f.id == sid && f.flag & 2 != 0 && f.flag <= 7
                && f.offset <= VARINT_MAX && f.length <= VARINT_MAX
                && f.length + STREAM_HEADER_MAX <= capacity
                && final(self).buf().unwrap().spec_data() == old(self).buf().unwrap().spec_data(),
    {
        let max_len = if capacity > STREAM_HEADER_MAX {
            capacity - STREAM_HEADER_MAX
        } else {
            0
        };
        let mut sender = Sender::DataRecvd;
        core::mem::swap(&mut sender, &mut self.sender);
        let (next, picked, fin_only, wrote) = match sender {
            Sender::Ready(mut b) | Sender::Sending(mut b) => {
                let p = b.pick_up(max_len);
                let alone = b.is_shutdown() && max_len > 0 && p.is_none();
                let done = match p {
                    Some((_, _, eos)) => eos,
                    None => alone,
                };
                let w = b.wrote();
                if done {
                    (Sender::DataSent(b), p, alone, w)
                } else {
                    (Sender::Sending(b), p, false, w)
                }
            },
            Sender::DataSent(mut b) => {
                let p = b.pick_up(max_len);
                (Sender::DataSent(b), p, false, 0)
            },
            other => (other, None, false, 0),
        };
        self.sender = next;
        proof {
            if old(self).state() == SendState::Ready || old(self).state() == SendState::Sending
                || old(self).state() == SendState::DataSent {
                assert(max_payload(capacity) == max_len as int);
                assert(picked_into(old(self).buf().unwrap(), self.buf().unwrap(), max_payload(capacity), picked));
                assert(old(self).state() != SendState::DataSent ==> wrote == old(self).buf().unwrap().spec_wrote());
                assert(fin_only == (old(self).state() != SendState::DataSent
                    && fin_alone(old(self).buf().unwrap().spec_fin(), max_payload(capacity), picked)));
            }
        }
        if fin_only {
            let flag: u8 = if wrote > 0 {
                7
            } else {
                3
            };
            assert(flag & 2 != 0 && flag <= 7) by (bit_vector)
                requires
                    flag == 3 || flag == 7,
            ;
            return Some(StreamFrame { id: sid, offset: wrote, length: 0, flag });
        }
        let r = match picked {
            Some((offset, len, eos)) => {
                let mut flag: u8 = 2;
                if offset > 0 {
                    flag = flag + 4;
                }
                if eos {
                    flag = flag + 1;
                }
                assert(flag & 2 != 0 && flag <= 7) by (bit_vector)
                    requires
                        flag == 2 || flag == 3 || flag == 6 || flag == 7,
                ;
                Some(StreamFrame { id: sid, offset, length: len as u64, flag })
            },
            None => None,
        };
        r
    }

    /// The peer acknowledged [start, end). A range that leaves the written bytes or
    /// holds bytes never sent is ignored; otherwise, while sending or after all data was
    /// sent, its bytes count as received. A stream that sent all its data and so sees
    /// every byte acknowledged goes to DataRecvd, and true comes back.
    pub fn ack_recv(&mut self, start: u64, end: u64) -> (r: bool)
        requires
            old(self).wf(),
        ensures
            final(self).wf(),
            (old(self).state() == SendState::Sending || old(self).state() == SendState::DataSent)
                && !can_ack_spec(old(self).buf().unwrap(), start as int, end as int) ==> !r && *final(self) == *old(self),
            old(self).state() == SendState::Sending && can_ack_spec(old(self).buf().unwrap(), start as int, end as int) ==> !r
                && final(self).state() == SendState::Sending
                && acked_into(old(self).buf().unwrap(), final(self).buf().unwrap(), start as int, end as int),
            old(self).state() == SendState::DataSent && can_ack_spec(old(self).buf().unwrap(), start as int, end as int) ==> ({
                let o = old(self).buf().unwrap();
                let done = forall|x: int| 0 <= x < o.spec_wrote() && !(start <= x < end) ==> #[trigger] o.color(x) == Some(Color::Recved);
                &&& r == done
                &&& done ==> final(self).state() == SendState::DataRecvd
                &&& !done ==> final(self).state() == SendState::DataSent
                    && acked_into(o, final(self).buf().unwrap(), start as int, end as int)
            }),
            !(old(self).state() == SendState::Sending || old(self).state() == SendState::DataSent) ==> !r && *final(self) == *old(self),
            ack_recv_post(*old(self), *final(self), start as int, end as int, r),
    {
        let mut sender = Sender::DataRecvd;
        core::mem::swap(&mut sender, &mut self.sender);
        let (next, r) = match sender {
            Sender::Sending(mut b) => {
                if b.can_ack(start, end) {
                    b.ack(start, end);
                }
                (Sender::Sending(b), false)
            },
            Sender::DataSent(mut b) => {
                if b.can_ack(start, end) {
                    let ghost before = b;
                    b.ack(start, end);
                    let all = b.is_all_acked();
                    proof {
                        let done = forall|x: int| 0 <= x < before.spec_wrote() && !(start <= x < end) ==> #[trigger] before.color(x) == Some(Color::Recved);
                        assert(b.spec_wrote() == before.spec_wrote());
                        if all {
                            assert forall|x: int| 0 <= x < before.spec_wrote() && !(start <= x < end) implies #[trigger] before.color(x) == Some(Color::Recved) by {
                                assert(b.color(x) == before.color(x));
                            }
                        }
                        if done {
                            assert forall|x: int| 0 <= x < b.spec_wrote() implies #[trigger] b.color(x) == Some(Color::Recved) by {
                                if !(start <= x < end) {
                                    assert(before.color(x) == Some(Color::Recved));
                                }
                            }
                        }
                    }
                    if all {
                        (Sender::DataRecvd, true)
                    } else {
                        (Sender::DataSent(b), false)
                    }
                } else {
                    (Sender::DataSent(b), false)
                }
            },
            other => (other, false),
        };
        self.sender = next;
        r
    }

    /// The bytes [start, end) may have been lost: while sending or after all data was
    /// sent, those in flight become lost, to be sent again. A range past the written
    /// bytes is ignored.
    pub fn may_loss(&mut self, start: u64, end: u64)
        requires
            old(self).wf(),
        ensures
            final(self).wf(),
            final(self).state() == old(self).state(),
            (old(self).state() == SendState::Sending || old(self).state() == SendState::DataSent)
                && start <= end <= old(self).buf().unwrap().spec_wrote() ==> lost_into(old(self).buf().unwrap(), final(self).buf().unwrap(), start as int, end as int),
            !((old(self).state() == SendState::Sending || old(self).state() == SendState::DataSent)
                && start <= end <= old(self).buf().unwrap().spec_wrote()) ==> final(self).buf() == old(self).buf(),
            may_loss_post(*old(self), *final(self), start as int, end as int),
    {
        match &mut self.sender {
            Sender::Sending(b) => if start <= end && end <= b.wrote() {
                b.may_loss(start, end)
            },
            Sender::DataSent(b) => if start <= end && end <= b.wrote() {
                b.may_loss(start, end)
            },
            _ => {},
        }
    }

    /// The stream is reset: from Ready, Sending or DataSent it goes to ResetSent and its
    /// buffered data is dropped; other states stay.
    pub fn stop(&mut self)
        requires
            old(self).wf(),
        ensures
            final(self).wf(),
            (old(self).state() == SendState::Ready || old(self).state() == SendState::Sending || old(self).state() == SendState::DataSent)
                ==> final(self).state() == SendState::ResetSent,
            !(old(self).state() == SendState::Ready || old(self).state() == SendState::Sending || old(self).state() == SendState::DataSent)
                ==> final(self).state() == old(self).state(),
    {
        let next = match &self.sender {
            Sender::Ready(_) | Sender::Sending(_) | Sender::DataSent(_) => true,
            _ => false,
        };
        if next {
            self.sender = Sender::ResetSent;
        }
    }

    /// The peer acknowledged the RESET_STREAM: ResetSent goes to ResetRecvd.
    pub fn confirm_reset(&mut self)
        requires
            old(self).wf(),
            old(self).state() == SendState::ResetSent || old(self).state() == SendState::ResetRecvd,
        ensures
            final(self).wf(),
            final(self).state() == SendState::ResetRecvd,
    {
        self.sender = Sender::ResetRecvd;
    }

    /// Where a cancellation by the application stands: done once reset was sent, too
    /// late once all data or the reset was acknowledged, not yet known otherwise.
    pub fn is_cancelled_by_app(&self) -> (r: IsCancelled)
        ensures
            self.state() == SendState::ResetSent ==> r.result == Some(Ok::<(), CancelTooLate>(())),
            self.state() == SendState::ResetRecvd ==> r.result == Some(Err::<(), CancelTooLate>(CancelTooLate::ResetRecvd)),
            self.state() == SendState::DataRecvd ==> r.result == Some(Err::<(), CancelTooLate>(CancelTooLate::DataRecvd)),
            (self.state() == SendState::Ready || self.state() == SendState::Sending || self.state() == SendState::DataSent) ==> r.result is None,
    {
        match &self.sender {
            Sender::ResetSent => IsCancelled { result: Some(Ok(())) },
            Sender::ResetRecvd => IsCancelled { result: Some(Err(CancelTooLate::ResetRecvd)) },
            Sender::DataRecvd => IsCancelled { result: Some(Err(CancelTooLate::DataRecvd)) },
            _ => IsCancelled { result: None },
        }
    }

    /// The bytes [offset, offset + len) of the buffer, where the state holds one.
    pub fn data_at(&self, offset: u64, len: usize) -> (r: Option<&[u8]>)
        requires
            self.wf(),
        ensures
            r is Some <==> (self.buf() is Some && offset + len <= self.buf().unwrap().spec_wrote()),
            r matches Some(d) ==> d@ == self.buf().unwrap().spec_data().subrange(offset as int, offset + len),
    {
        match &self.sender {
            Sender::Ready(b) | Sender::Sending(b) | Sender::DataSent(b) => if offset <= b.wrote() && len as u64 <= b.wrote() - offset {
                Some(b.data_at(offset, len))
            } else {
                None
            },
            _ => None,
        }
    }
}

/// The sending side of a new stream, ready, with a window of initial_max_stream_data
/// bytes.
pub fn new(initial_max_stream_data: u64) -> (r: Outgoing)
    requires
        initial_max_stream_data <= VARINT_MAX,
    ensures
        r.wf(),
        r.state() == SendState::Ready,
        r.buf().unwrap().spec_wrote() == 0,
        r.buf().unwrap().colors().dom().is_empty(),
        r.buf().unwrap().spec_max_data() == initial_max_stream_data,
        !r.buf().unwrap().spec_fin(),
{
    Outgoing { sender: Sender::Ready(SendBuf::with_capacity(initial_max_stream_data)) }
}

} // verus!
