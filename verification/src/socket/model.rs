use vstd::prelude::*;

use crate::error::Error;
use crate::socket::buffer::{min, BufferView};
use crate::socket::tcp::{State, Verdict, DEFAULT_MSS};
use crate::wire::ip::{IpAddress, IpEndpoint, IpProtocol, IpRepr};
use crate::wire::tcp::{seq_add, seq_sub, Segment, TcpControl};

verus! {

/// A socket, as it is reasoned about.
#[verifier::ext_equal]
pub struct SocketView {
    pub state: State,
    pub listen_address: IpAddress,
    pub local_endpoint: IpEndpoint,
    pub remote_endpoint: IpEndpoint,
    pub local_seq_no: i32,
    pub remote_seq_no: i32,
    pub remote_last_seq: i32,
    pub remote_last_ack: i32,
    pub remote_win_len: int,
    /// Whether the segment that is due has been sent.
    pub sent: bool,
    pub rx: BufferView,
    pub tx: BufferView,
}

impl SocketView {
    /// A closed socket that has not been used yet.
    pub open spec fn fresh(rx: BufferView, tx: BufferView) -> SocketView {
        SocketView {
            state: State::Closed,
            listen_address: IpAddress::Unspecified,
            local_endpoint: IpEndpoint::nowhere(),
            remote_endpoint: IpEndpoint::nowhere(),
            local_seq_no: 0,
            remote_seq_no: 0,
            remote_last_seq: 0,
            remote_last_ack: 0,
            remote_win_len: 0,
            sent: false,
            rx,
            tx,
        }
    }

    /// Both buffers are sound, and the free space of the receive buffer can be announced.
    pub open spec fn wf(self) -> bool {
        &&& self.rx.wf()
        &&& self.tx.wf()
        &&& self.rx.capacity() <= u16::MAX
        &&& 0 <= self.remote_win_len
    }

    /// The sequence number of the next octet that is expected, which is also the acknowledgement
    /// that is owed.
    pub open spec fn next_remote_seq(self) -> i32 {
        seq_add(self.remote_seq_no, self.rx.length as i32)
    }

    /// The sequence number past the last octet that is queued for sending.
    pub open spec fn next_local_seq(self) -> i32 {
        seq_add(self.local_seq_no, self.tx.length as i32)
    }

    // ----------------------------------------------------------------- incoming segments

    /// Whether a segment belongs to this socket: it goes to the local endpoint and comes from the
    /// remote one, as far as these are known.
    pub open spec fn addressed(self, ip: IpRepr, segment: Segment) -> bool {
        &&& self.local_endpoint.port == segment.dst_port
        &&& self.local_endpoint.addr.unspecified() || self.local_endpoint.addr == ip.dst()
        &&& self.remote_endpoint.port == 0 || self.remote_endpoint.port == segment.src_port
        &&& self.remote_endpoint.addr.unspecified() || self.remote_endpoint.addr == ip.src()
    }

    /// How far the last sequence number that was sent lies past the first one that is not
    /// acknowledged.
    pub open spec fn in_flight(self) -> i32 {
        seq_sub(self.remote_last_seq, self.local_seq_no)
    }

    /// How many of the queued octets have been sent.
    pub open spec fn transmitted(self) -> int {
        if self.in_flight() < 0 {
            0
        } else {
            min(self.in_flight() as int, self.tx.length)
        }
    }

    /// How many sequence numbers have been sent and not acknowledged yet. A SYN takes up one, and
    /// nothing is sent behind it; so does a FIN, behind the octets.
    pub open spec fn unacknowledged(self) -> i32 {
        match self.state {
            State::SynSent | State::SynReceived => 1,
            State::FinWait1 | State::LastAck => seq_add(self.transmitted() as i32, 1),
            _ => self.transmitted() as i32,
        }
    }

    /// Whether an acknowledgement is for what has been sent and not acknowledged yet.
    pub open spec fn ack_in_window(self, ack: i32) -> bool {
        &&& seq_sub(ack, self.local_seq_no) >= 0
        &&& seq_sub(ack, seq_add(self.local_seq_no, self.unacknowledged())) <= 0
    }

    /// Whether the acknowledgement of a segment, or its absence, is in order. The first segment of
    /// a connection has none. A reset that answers our SYN acknowledges just that. Every other
    /// segment acknowledges something that has been sent.
    pub open spec fn ack_acceptable(self, segment: Segment) -> bool {
        match (self.state, segment.ack_number) {
            (State::Listen, ack) => ack is None,
            (_, None) => false,
            (State::SynSent, Some(ack)) => if segment.control == TcpControl::Rst {
                ack == self.local_seq_no
            } else {
                self.ack_in_window(ack)
            },
            (_, Some(ack)) => self.ack_in_window(ack),
        }
    }

    /// Whether the two ends agree on sequence numbers.
    pub open spec fn synchronized(self) -> bool {
        self.state != State::Listen && self.state != State::SynSent
    }

    /// What a segment that is in order does.
    pub open spec fn in_order_verdict(self, control: TcpControl) -> Verdict {
        match (self.state, control) {
            (State::Listen, TcpControl::Rst) => Verdict::Ignored,
            (State::SynReceived, TcpControl::Rst) => Verdict::Relisten,
            (_, TcpControl::Rst) => Verdict::Reset,
            (State::Listen, TcpControl::Syn) => Verdict::Opened,
            (State::SynReceived, TcpControl::Plain) => Verdict::Completed,
            (State::Established, TcpControl::Plain) => Verdict::Continued,
            (State::Established, TcpControl::Fin) => Verdict::Finished,
            _ => Verdict::Refused(Error::Malformed),
        }
    }

    /// What becomes of a segment.
    pub open spec fn verdict(self, ip: IpRepr, segment: Segment) -> Verdict {
        let ahead = seq_sub(segment.seq_number, self.next_remote_seq());
        if !self.addressed(ip, segment) {
            Verdict::Refused(Error::Rejected)
        } else if self.state == State::Closed || !self.ack_acceptable(segment) {
            Verdict::Refused(Error::Malformed)
        } else if self.synchronized() && ahead > 0 {
            Verdict::Refused(Error::Malformed)
        } else if self.synchronized() && ahead < 0 {
            Verdict::Ignored
        } else {
            self.in_order_verdict(segment.control)
        }
    }

    /// The socket once it listens again.
    pub open spec fn relistening(self) -> SocketView {
        SocketView {
            state: State::Listen,
            local_endpoint: IpEndpoint { addr: self.listen_address, ..self.local_endpoint },
            remote_endpoint: IpEndpoint::nowhere(),
            ..self
        }
    }

    /// The socket once the remote end has reset the connection.
    pub open spec fn closed(self) -> SocketView {
        SocketView {
            state: State::Closed,
            local_endpoint: IpEndpoint::nowhere(),
            remote_endpoint: IpEndpoint::nowhere(),
            ..self
        }
    }

    /// The socket once a segment with a SYN has opened a connection.
    pub open spec fn opened(self, ip: IpRepr, segment: Segment) -> SocketView {
        SocketView {
            state: State::SynReceived,
            local_endpoint: IpEndpoint { addr: ip.dst(), port: segment.dst_port },
            remote_endpoint: IpEndpoint { addr: ip.src(), port: segment.src_port },
            local_seq_no: seq_sub(0, segment.seq_number),
            remote_last_seq: seq_add(seq_sub(0, segment.seq_number), 1),
            remote_seq_no: seq_add(segment.seq_number, 1),
            sent: false,
            ..self
        }
    }

    /// The socket once its own SYN has been acknowledged.
    pub open spec fn completed(self) -> SocketView {
        SocketView {
            state: State::Established,
            local_seq_no: seq_add(self.local_seq_no, 1),
            sent: false,
            ..self
        }
    }

    /// The socket once the remote end sends no more.
    pub open spec fn finished(self) -> SocketView {
        SocketView {
            state: State::CloseWait,
            remote_seq_no: seq_add(self.remote_seq_no, 1),
            sent: false,
            ..self
        }
    }

    /// How many octets of the transmit buffer a segment acknowledges.
    pub open spec fn acknowledged(self, segment: Segment) -> int {
        match segment.ack_number {
            Some(ack) => seq_sub(ack, self.local_seq_no) as int,
            None => 0,
        }
    }

    /// Whether the octets that a segment acknowledges are there to be given up. A buffer without any
    /// storage can neither give up nor take in octets.
    pub open spec fn can_absorb(self, segment: Segment) -> bool {
        &&& segment.ack_number is Some ==> {
            &&& 0 <= self.acknowledged(segment) <= self.tx.length
            &&& self.tx.capacity() > 0
        }
        &&& segment.payload.len() > 0 ==> self.rx.capacity() > 0
    }

    /// The socket once it has given up the octets that a segment acknowledges, and taken in those
    /// that it brings, as far as they fit.
    pub open spec fn absorbed(self, segment: Segment) -> SocketView {
        SocketView {
            tx: if segment.ack_number is Some {
                self.tx.advanced(self.acknowledged(segment))
            } else {
                self.tx
            },
            local_seq_no: match segment.ack_number {
                Some(ack) => ack,
                None => self.local_seq_no,
            },
            rx: if segment.payload.len() > 0 {
                self.rx.appended(segment.payload)
            } else {
                self.rx
            },
            remote_win_len: segment.window_len as int,
            ..self
        }
    }

    /// The socket once the flags of a segment, but not what it carries, have been heeded.
    pub open spec fn heeded(self, ip: IpRepr, segment: Segment) -> SocketView {
        match self.verdict(ip, segment) {
            Verdict::Refused(_) | Verdict::Ignored | Verdict::Continued => self,
            Verdict::Relisten => self.relistening(),
            Verdict::Reset => self.closed(),
            Verdict::Opened => self.opened(ip, segment),
            Verdict::Completed => self.completed(),
            Verdict::Finished => self.finished(),
        }
    }

    /// Whether what a segment carries is looked at.
    pub open spec fn absorbs(self, ip: IpRepr, segment: Segment) -> bool {
        match self.verdict(ip, segment) {
            Verdict::Refused(_) | Verdict::Ignored | Verdict::Relisten | Verdict::Reset => false,
            _ => true,
        }
    }

    /// Whether a segment can be processed. One that completes a handshake without acknowledging the
    /// SYN of it cannot.
    pub open spec fn can_process(self, ip: IpRepr, segment: Segment) -> bool {
        self.absorbs(ip, segment) ==> self.heeded(ip, segment).can_absorb(segment)
    }

    /// The socket once a segment has been processed.
    pub open spec fn processed(self, ip: IpRepr, segment: Segment) -> SocketView {
        if self.absorbs(ip, segment) {
            self.heeded(ip, segment).absorbed(segment)
        } else {
            self.heeded(ip, segment)
        }
    }

    /// What the sender of a segment is told.
    pub open spec fn process_result(self, ip: IpRepr, segment: Segment) -> Result<(), Error> {
        match self.verdict(ip, segment) {
            Verdict::Refused(error) => Err(error),
            _ => Ok(()),
        }
    }

    /// The segment that a packet carries.
    pub open spec fn carried_segment(ip: IpRepr, octets: Seq<u8>) -> Result<Segment, Error> {
        if ip.carries() != IpProtocol::Tcp {
            Err(Error::Rejected)
        } else {
            Segment::parsed(octets, ip.src(), ip.dst())
        }
    }

    /// Whether a packet can be taken in.
    pub open spec fn can_collect(self, ip: IpRepr, octets: Seq<u8>) -> bool {
        match Self::carried_segment(ip, octets) {
            Ok(segment) => self.can_process(ip, segment),
            Err(_) => true,
        }
    }

    /// The socket once a packet has been taken in.
    pub open spec fn collected(self, ip: IpRepr, octets: Seq<u8>) -> SocketView {
        match Self::carried_segment(ip, octets) {
            Ok(segment) => self.processed(ip, segment),
            Err(_) => self,
        }
    }

    /// What the sender of a packet is told.
    pub open spec fn collect_result(self, ip: IpRepr, octets: Seq<u8>) -> Result<(), Error> {
        match Self::carried_segment(ip, octets) {
            Ok(segment) => self.process_result(ip, segment),
            Err(error) => Err(error),
        }
    }

    // ----------------------------------------------------------------- outgoing segments

    /// Whether octets of the transmit buffer are sent next: there are some, the remote end has
    /// room, and either a segment is due or something has not been sent yet.
    pub open spec fn sends_data(self) -> bool {
        &&& self.state == State::Established || self.state == State::CloseWait
        &&& self.tx.length > 0
        &&& self.remote_win_len > 0
        &&& !self.sent || self.remote_last_seq != self.next_local_seq()
    }

    /// The octets that are sent next.
    pub open spec fn next_data(self) -> Seq<u8> {
        if self.sends_data() {
            self.tx.window_at(
                self.in_flight() as int,
                min(self.remote_win_len, DEFAULT_MSS as int),
            )
        } else {
            Seq::empty()
        }
    }

    /// Whether a segment goes out.
    pub open spec fn sends(self) -> bool {
        match self.state {
            State::SynReceived => !self.sent,
            State::Established | State::CloseWait => {
                self.sends_data() || self.remote_last_ack != self.next_remote_seq()
            },
            _ => false,
        }
    }

    /// The segment that goes out. Its sequence number is that of the first octet that it carries,
    /// which comes next behind the octets in flight.
    pub open spec fn next_segment(self) -> Segment {
        Segment {
            src_port: self.local_endpoint.port,
            dst_port: self.remote_endpoint.port,
            control: if self.state == State::SynReceived {
                TcpControl::Syn
            } else {
                TcpControl::Plain
            },
            seq_number: if self.sends_data() {
                seq_add(self.local_seq_no, self.in_flight())
            } else {
                self.local_seq_no
            },
            ack_number: Some(self.next_remote_seq()),
            window_len: self.rx.window() as u16,
            payload: self.next_data(),
        }
    }

    /// The packet that the segment goes out in.
    pub open spec fn next_ip_repr(self) -> IpRepr {
        IpRepr::Unspecified {
            src_addr: self.local_endpoint.addr,
            dst_addr: self.remote_endpoint.addr,
            protocol: IpProtocol::Tcp,
        }
    }

    /// Whether the socket can be asked for a segment: it is in a state that sends, or idle, and
    /// the octets in flight are some of those in the transmit buffer.
    pub open spec fn can_dispatch(self) -> bool {
        &&& match self.state {
            State::Closed | State::Listen | State::SynReceived => true,
            State::Established | State::CloseWait => true,
            _ => false,
        }
        &&& self.sends_data() ==> 0 <= self.in_flight() <= self.tx.length
    }

    /// The socket once it has been asked for a segment.
    pub open spec fn dispatched(self) -> SocketView {
        let asked = match self.state {
            State::Closed | State::Listen => self,
            _ => SocketView { sent: true, ..self },
        };
        if self.sends() {
            SocketView {
                remote_win_len: self.remote_win_len - self.next_data().len(),
                remote_last_seq: seq_add(self.remote_last_seq, self.next_data().len() as i32),
                remote_last_ack: self.next_remote_seq(),
                ..asked
            }
        } else {
            asked
        }
    }

    // ----------------------------------------------------------------- the user's side

    /// The socket once it listens on an endpoint.
    pub open spec fn listening(self, endpoint: IpEndpoint) -> SocketView {
        SocketView {
            state: State::Listen,
            listen_address: endpoint.addr,
            local_endpoint: endpoint,
            remote_endpoint: IpEndpoint::nowhere(),
            ..self
        }
    }

    /// The socket once octets have been queued for sending.
    pub open spec fn queued(self, data: Seq<u8>) -> SocketView {
        SocketView { tx: self.tx.appended(data), ..self }
    }

    /// The socket once the oldest received octets have been taken out.
    pub open spec fn taken(self, count: int) -> SocketView {
        SocketView {
            rx: self.rx.advanced(count),
            remote_seq_no: seq_add(self.remote_seq_no, count as i32),
            ..self
        }
    }
}

} // verus!
