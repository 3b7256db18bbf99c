use vstd::prelude::*;

use crate::error::Error;
use crate::socket::buffer::{copy, lemma_appended_contents, SocketBuffer};
use crate::socket::model::SocketView;
use crate::wire::ip::{IpAddress, IpEndpoint, IpProtocol, IpRepr};
use crate::wire::tcp::{TcpControl, TcpRepr};

verus! {

/// The state of a connection.
#[derive(Debug, PartialEq, Eq, Clone, Copy, Structural)]
pub enum State {
    Closed,
    Listen,
    SynSent,
    SynReceived,
    Established,
    FinWait1,
    FinWait2,
    CloseWait,
    Closing,
    LastAck,
    TimeWait,
}

impl State {
    /// The name of the state.
    pub fn name(&self) -> (name: &'static str)
        ensures
            name@ == match *self {
                State::Closed => "CLOSED"@,
                State::Listen => "LISTEN"@,
                State::SynSent => "SYN_SENT"@,
                State::SynReceived => "SYN_RECEIVED"@,
                State::Established => "ESTABLISHED"@,
                State::FinWait1 => "FIN_WAIT_1"@,
                State::FinWait2 => "FIN_WAIT_2"@,
                State::CloseWait => "CLOSE_WAIT"@,
                State::Closing => "CLOSING"@,
                State::LastAck => "LAST_ACK"@,
                State::TimeWait => "TIME_WAIT"@,
            },
    {
        match *self {
            State::Closed => "CLOSED",
            State::Listen => "LISTEN",
            State::SynSent => "SYN_SENT",
            State::SynReceived => "SYN_RECEIVED",
            State::Established => "ESTABLISHED",
            State::FinWait1 => "FIN_WAIT_1",
            State::FinWait2 => "FIN_WAIT_2",
            State::CloseWait => "CLOSE_WAIT",
            State::Closing => "CLOSING",
            State::LastAck => "LAST_ACK",
            State::TimeWait => "TIME_WAIT",
        }
    }
}

/// Whether a segment is due again.
#[derive(Debug)]
pub struct Retransmit {
    pub sent: bool,
}

impl Retransmit {
    pub fn new() -> (retransmit: Retransmit)
        ensures
            !retransmit.sent,
    {
        Retransmit { sent: false }
    }

    pub fn reset(&mut self)
        ensures
            !final(self).sent,
    {
        self.sent = false;
    }

    /// Whether a segment is due; it is due once after every reset.
    pub fn check(&mut self) -> (result: bool)
        ensures
            result == !old(self).sent,
            final(self).sent,
    {
        let result = !self.sent;
        self.sent = true;
        result
    }
}

/// `From::from` of std, from a type to itself: it returns its argument unchanged.
pub assume_specification<Any>[ <Any as std::convert::From<Any>>::from ](value: Any) -> (same: Any)
    ensures
        same == value,
;

/// The most octets that one segment carries.
pub const DEFAULT_MSS: usize = 536;

/// What becomes of an incoming segment.
#[derive(Debug, PartialEq, Eq, Clone, Copy, Structural)]
pub enum Verdict {
    /// It is turned down.
    Refused(Error),
    /// It is taken note of and changes nothing.
    Ignored,
    /// It takes a half-open connection back to listening.
    Relisten,
    /// It closes the connection.
    Reset,
    /// It opens a connection.
    Opened,
    /// It completes the handshake.
    Completed,
    /// It carries on with an open connection.
    Continued,
    /// It says that the remote end sends no more.
    Finished,
}

/// A Transmission Control Protocol data stream.
#[derive(Debug)]
pub struct TcpSocket<'a> {
    /// State of the socket.
    pub state: State,
    /// Address passed to `listen()`. `listen_address` is set when `listen()` is called and
    /// used every time the socket is reset back to the `LISTEN` state.
    pub listen_address: IpAddress,
    /// Current local endpoint. This is used for both filtering the incoming packets and
    /// setting the source address. When listening or initiating connection on/from
    /// an unspecified address, this field is updated with the chosen source address before
    /// any packets are sent.
    pub local_endpoint: IpEndpoint,
    /// Current remote endpoint. This is used for both filtering the incoming packets and
    /// setting the destination address.
    pub remote_endpoint: IpEndpoint,
    /// The sequence number corresponding to the beginning of the transmit buffer.
    /// I.e. an ACK(local_seq_no+n) packet removes n bytes from the transmit buffer.
    pub local_seq_no: i32,
    /// The sequence number corresponding to the beginning of the receive buffer.
    /// I.e. userspace reading n bytes adds n to remote_seq_no.
    pub remote_seq_no: i32,
    /// The last sequence number sent.
    /// I.e. in an idle socket, local_seq_no+tx_buffer.len().
    pub remote_last_seq: i32,
    /// The last acknowledgement number sent.
    /// I.e. in an idle socket, remote_seq_no+rx_buffer.len().
    pub remote_last_ack: i32,
    /// The speculative remote window size.
    /// I.e. the actual remote window size minus the count of in-flight octets.
    pub remote_win_len: usize,
    pub retransmit: Retransmit,
    pub rx_buffer: SocketBuffer<'a>,
    pub tx_buffer: SocketBuffer<'a>,
}

impl<'a> View for TcpSocket<'a> {
    type V = SocketView;

    open spec fn view(&self) -> SocketView {
        SocketView {
            state: self.state,
            listen_address: self.listen_address,
            local_endpoint: self.local_endpoint,
            remote_endpoint: self.remote_endpoint,
            local_seq_no: self.local_seq_no,
            remote_seq_no: self.remote_seq_no,
            remote_last_seq: self.remote_last_seq,
            remote_last_ack: self.remote_last_ack,
            remote_win_len: self.remote_win_len as int,
            sent: self.retransmit.sent,
            rx: self.rx_buffer@,
            tx: self.tx_buffer@,
        }
    }
}

/// A network socket.
#[derive(Debug)]
pub enum Socket<'a> {
    Tcp(TcpSocket<'a>),
}

impl<'a> TcpSocket<'a> {
    /// Create a socket using the given buffers.
    pub fn new<T>(rx_buffer: T, tx_buffer: T) -> (socket: Socket<'a>) where
        T: Into<SocketBuffer<'a>>,

        requires
            // Larger buffers require window scaling, which is not implemented.
            forall|buffer: SocketBuffer<'a>| #[trigger]
                call_ensures(T::into, (rx_buffer,), buffer) ==> buffer@.wf() && buffer@.capacity()
                    <= u16::MAX,
            forall|buffer: SocketBuffer<'a>| #[trigger]
                call_ensures(T::into, (tx_buffer,), buffer) ==> buffer@.wf(),
        ensures
            socket matches Socket::Tcp(tcp) && {
                &&& call_ensures(T::into, (rx_buffer,), tcp.rx_buffer)
                &&& call_ensures(T::into, (tx_buffer,), tcp.tx_buffer)
                &&& tcp@ == SocketView::fresh(tcp.rx_buffer@, tcp.tx_buffer@)
                &&& tcp@.wf()
            },
    {
        let rx_buffer: SocketBuffer<'a> = rx_buffer.into();
        let tx_buffer: SocketBuffer<'a> = tx_buffer.into();
        Socket::Tcp(
            TcpSocket {
                state: State::Closed,
                listen_address: IpAddress::default(),
                local_endpoint: IpEndpoint::default(),
                remote_endpoint: IpEndpoint::default(),
                local_seq_no: 0,
                remote_seq_no: 0,
                remote_last_seq: 0,
                remote_last_ack: 0,
                remote_win_len: 0,
                retransmit: Retransmit::new(),
                tx_buffer,
                rx_buffer: rx_buffer.into(),
            },
        )
    }

    /// Return the connection state.
    pub fn state(&self) -> (state: State)
        ensures
            state == self@.state,
    {
        self.state
    }

    /// Return the local endpoint.
    pub fn local_endpoint(&self) -> (endpoint: IpEndpoint)
        ensures
            endpoint == self@.local_endpoint,
    {
        self.local_endpoint
    }

    /// Return the remote endpoint.
    pub fn remote_endpoint(&self) -> (endpoint: IpEndpoint)
        ensures
            endpoint == self@.remote_endpoint,
    {
        self.remote_endpoint
    }

    /// Start listening on the given endpoint. The socket must be in the CLOSED state.
    pub fn listen(&mut self, endpoint: IpEndpoint)
        requires
            old(self)@.state == State::Closed,
        ensures
            final(self)@ == old(self)@.listening(endpoint),
            final(self).state == State::Listen,
            final(self).local_endpoint == endpoint,
            final(self).listen_address == endpoint.addr,
            final(self).remote_endpoint == (IpEndpoint { addr: IpAddress::Unspecified, port: 0 }),
    {
        self.listen_address = endpoint.addr;
        self.local_endpoint = endpoint;
        self.remote_endpoint = IpEndpoint::default();
        self.set_state(State::Listen);
    }

    /// Enqueue a sequence of octets to be sent, and return a pointer to it.
    ///
    /// This function may return a slice smaller than the requested size in case
    /// there is not enough contiguous free space in the transmit buffer, down to
    /// an empty slice.
    pub fn send(&mut self, size: usize) -> (buffer: &mut [u8])
        requires
            old(self)@.wf(),
            old(self)@.tx.capacity() > 0,
        ensures
            buffer@.len() == old(self)@.tx.writable(size as int),
            buffer@ == old(self)@.tx.storage.subrange(
                old(self)@.tx.slot(old(self)@.tx.length),
                old(self)@.tx.slot(old(self)@.tx.length) + old(self)@.tx.writable(size as int),
            ),
            final(buffer)@.len() == buffer@.len(),
            final(self)@ == old(self)@.queued(final(buffer)@),
            final(self)@.wf(),
    {
        self.tx_buffer.enqueue(size)
    }

    /// Enqueue a sequence of octets to be sent, and fill it from a slice.
    ///
    /// This function returns the amount of bytes actually enqueued, which is limited
    /// by the amount of free space in the transmit buffer; down to zero.
    ///
    /// See also [send](#method.send).
    pub fn send_slice(&mut self, data: &[u8]) -> (count: usize)
        requires
            old(self)@.wf(),
            old(self)@.tx.capacity() > 0,
        ensures
            count == old(self)@.tx.writable(data@.len() as int),
            final(self)@ == old(self)@.queued(data@.take(count as int)),
            final(self)@.wf(),
            final(self)@.tx.contents() == old(self)@.tx.contents() + data@.take(count as int),
    {
        let buffer = self.send(data.len());
        let count: usize = buffer.len();
        let data = vstd::slice::slice_subrange(data, 0, count);
        copy(buffer, data);
        proof {
            lemma_appended_contents(old(self)@.tx, data@);
            assert(data@.take(data@.len() as int) =~= data@);
        }
        count
    }

    /// Dequeue a sequence of received octets, and return a pointer to it.
    ///
    /// This function may return a slice smaller than the requested size in case
    /// there are not enough octets queued in the receive buffer, down to
    /// an empty slice.
    pub fn recv(&mut self, size: usize) -> (buffer: &[u8])
        requires
            old(self)@.wf(),
            old(self)@.rx.capacity() > 0,
        ensures
            buffer@ == old(self)@.rx.contents().take(old(self)@.rx.readable(0, size as int)),
            final(self)@ == old(self)@.taken(old(self)@.rx.readable(0, size as int)),
            final(self)@.wf(),
            final(self)@.rx.contents() == old(self)@.rx.contents().skip(
                old(self)@.rx.readable(0, size as int),
            ),
    {
        let buffer = self.rx_buffer.dequeue(size);
        self.remote_seq_no = self.remote_seq_no.wrapping_add(buffer.len() as i32);
        buffer
    }

    /// Dequeue a sequence of received octets, and fill a slice from it.
    ///
    /// This function returns the amount of bytes actually dequeued, which is limited
    /// by the amount of octets queued in the receive buffer; down to zero.
    ///
    /// See also [recv](#method.recv).
    pub fn recv_slice(&mut self, data: &mut [u8]) -> (count: usize)
        requires
            old(self)@.wf(),
            old(self)@.rx.capacity() > 0,
        ensures
            count == old(self)@.rx.readable(0, old(data)@.len() as int),
            final(data)@ == old(self)@.rx.contents().take(count as int) + old(data)@.skip(
                count as int,
            ),
            final(self)@ == old(self)@.taken(count as int),
            final(self)@.wf(),
            final(self)@.rx.contents() == old(self)@.rx.contents().skip(count as int),
    {
        let buffer = self.recv(data.len());
        let (front, _) = data.split_at_mut(buffer.len());
        copy(front, buffer);
        buffer.len()
    }

    /// Whether a segment can be processed.
    pub fn can_process(&self, ip_repr: &IpRepr, repr: &TcpRepr) -> (result: bool)
        requires
            self@.wf(),
        ensures
            result == self@.can_process(*ip_repr, repr@),
    {
        let local_seq_no: i32 = match self.judge(ip_repr, repr) {
            Verdict::Refused(_) | Verdict::Ignored | Verdict::Relisten | Verdict::Reset => {
                return true;
            },
            Verdict::Opened => 0i32.wrapping_sub(repr.seq_number),
            Verdict::Completed => self.local_seq_no.wrapping_add(1),
            Verdict::Continued | Verdict::Finished => self.local_seq_no,
        };
        if let Some(ack_number) = repr.ack_number {
            let ack_length: i32 = ack_number.wrapping_sub(local_seq_no);
            if ack_length < 0 || ack_length as usize > self.tx_buffer.len()
                || self.tx_buffer.capacity() == 0 {
                return false;
            }
        }
        repr.payload.len() == 0 || self.rx_buffer.capacity() > 0
    }

    /// Whether the socket can be asked for a segment.
    pub fn can_dispatch(&self) -> (result: bool)
        requires
            self@.wf(),
        ensures
            result == self@.can_dispatch(),
    {
        match self.state {
            State::Closed | State::Listen | State::SynReceived => true,
            State::Established | State::CloseWait => {
                let next_local_seq: i32 = self.local_seq_no.wrapping_add(
                    self.tx_buffer.len() as i32,
                );
                let sends_data = self.tx_buffer.len() > 0 && self.remote_win_len > 0 && (
                !self.retransmit.sent || self.remote_last_seq != next_local_seq);
                let offset: i32 = self.remote_last_seq.wrapping_sub(self.local_seq_no);
                !sends_data || offset >= 0 && offset as usize <= self.tx_buffer.len()
            },
            _ => false,
        }
    }

    fn set_state(&mut self, state: State)
        ensures
            *final(self) == (TcpSocket { state, ..*old(self) }),
    {
        self.state = state;
    }

    /// Return how many of the queued octets have been sent.
    fn transmitted(&self) -> (count: i32)
        requires
            self@.wf(),
        ensures
            count == self@.transmitted(),
    {
        let in_flight: i32 = self.remote_last_seq.wrapping_sub(self.local_seq_no);
        if in_flight < 0 {
            0
        } else if in_flight as usize <= self.tx_buffer.len() {
            in_flight
        } else {
            self.tx_buffer.len() as i32
        }
    }

    /// Decide what becomes of a segment.
    fn judge(&self, ip_repr: &IpRepr, repr: &TcpRepr) -> (verdict: Verdict)
        requires
            self@.wf(),
        ensures
            verdict == self@.verdict(*ip_repr, repr@),
    {
        // Reject packets with a wrong destination.
        if self.local_endpoint.port != repr.dst_port {
            return Verdict::Refused(Error::Rejected);
        }
        if !self.local_endpoint.addr.is_unspecified() && self.local_endpoint.addr
            != ip_repr.dst_addr() {
            return Verdict::Refused(Error::Rejected);
        }
        // Reject packets from a source to which we aren't connected.
        if self.remote_endpoint.port != 0 && self.remote_endpoint.port != repr.src_port {
            return Verdict::Refused(Error::Rejected);
        }
        if !self.remote_endpoint.addr.is_unspecified() && self.remote_endpoint.addr
            != ip_repr.src_addr() {
            return Verdict::Refused(Error::Rejected);
        }
        // Reject packets addressed to a closed socket.
        if self.state == State::Closed {
            return Verdict::Refused(Error::Malformed);
        }
        // Reject unacceptable acknowledgements.
        match (self.state, repr.control, repr.ack_number) {
            // The initial SYN (or whatever) cannot contain an acknowledgement.
            (State::Listen, _, Some(_)) => {
                return Verdict::Refused(Error::Malformed);
            },
            (State::Listen, _, None) => (),
            // A reset received in response to initial SYN is acceptable if it acknowledges
            // the initial SYN.
            (State::SynSent, TcpControl::Rst, Some(ack_number)) => {
                if ack_number != self.local_seq_no {
                    return Verdict::Refused(Error::Malformed);
                }
            },
            // Every packet after the initial SYN must be an acknowledgement.
            (_, _, None) => {
                return Verdict::Refused(Error::Malformed);
            },
            // Every acknowledgement must be for transmitted but unacknowledged data.
            (state, _, Some(ack_number)) => {
                let unacknowledged: i32 = match state {
                    // In SYN_SENT or SYN_RECEIVED, we've just sent a SYN, and nothing behind it.
                    State::SynSent | State::SynReceived => 1,
                    // In FIN_WAIT_1 or LAST_ACK, we've just sent a FIN.
                    State::FinWait1 | State::LastAck => self.transmitted().wrapping_add(1),
                    // In all other states we've already got acknowledgements for
                    // all of the control flags we sent.
                    _ => self.transmitted(),
                };
                let past_last: i32 = self.local_seq_no.wrapping_add(unacknowledged);
                if !(ack_number.wrapping_sub(self.local_seq_no) >= 0 && ack_number.wrapping_sub(
                    past_last,
                ) <= 0) {
                    return Verdict::Refused(Error::Malformed);
                }
            },
        }
        match self.state {
            // In LISTEN and SYN_SENT states, we have not yet synchronized with the remote end.
            State::Listen => (),
            State::SynSent => (),
            // In all other states, segments must occupy a valid portion of the receive window.
            // For now, do not try to reassemble out-of-order segments.
            _ => {
                let next_remote_seq: i32 = self.remote_seq_no.wrapping_add(
                    self.rx_buffer.len() as i32,
                );
                let ahead: i32 = repr.seq_number.wrapping_sub(next_remote_seq);
                if ahead > 0 {
                    return Verdict::Refused(Error::Malformed);
                } else if ahead != 0 {
                    return Verdict::Ignored;
                }
            },
        }
        match (self.state, repr.control) {
            // RSTs are ignored in the LISTEN state.
            (State::Listen, TcpControl::Rst) => Verdict::Ignored,
            // RSTs in SYN_RECEIVED flip the socket back to the LISTEN state.
            (State::SynReceived, TcpControl::Rst) => Verdict::Relisten,
            // RSTs in any other state close the socket.
            (_, TcpControl::Rst) => Verdict::Reset,
            // SYN packets in the LISTEN state change it to SYN_RECEIVED.
            (State::Listen, TcpControl::Syn) => Verdict::Opened,
            // ACK packets in the SYN_RECEIVED state change it to ESTABLISHED.
            (State::SynReceived, TcpControl::Plain) => Verdict::Completed,
            // ACK packets in ESTABLISHED state do nothing.
            (State::Established, TcpControl::Plain) => Verdict::Continued,
            // FIN packets in ESTABLISHED state indicate the remote side has closed.
            (State::Established, TcpControl::Fin) => Verdict::Finished,
            _ => Verdict::Refused(Error::Malformed),
        }
    }

    /// Process a segment that came in a packet.
    pub fn process(&mut self, ip_repr: &IpRepr, repr: &TcpRepr) -> (result: Result<(), Error>)
        requires
            old(self)@.wf(),
            old(self)@.can_process(*ip_repr, repr@),
        ensures
            result == old(self)@.process_result(*ip_repr, repr@),
            final(self)@ == old(self)@.processed(*ip_repr, repr@),
            final(self)@.wf(),
    {
        let verdict = self.judge(ip_repr, repr);
        match verdict {
            Verdict::Refused(error) => {
                return Err(error);
            },
            Verdict::Ignored => {
                return Ok(());
            },
            Verdict::Relisten => {
                self.local_endpoint.addr = self.listen_address;
                self.remote_endpoint = IpEndpoint::default();
                self.set_state(State::Listen);
                return Ok(());
            },
            Verdict::Reset => {
                self.local_endpoint = IpEndpoint::default();
                self.remote_endpoint = IpEndpoint::default();
                self.set_state(State::Closed);
                return Ok(());
            },
            Verdict::Opened => {
                self.local_endpoint = IpEndpoint::new(ip_repr.dst_addr(), repr.dst_port);
                self.remote_endpoint = IpEndpoint::new(ip_repr.src_addr(), repr.src_port);
                self.local_seq_no = 0i32.wrapping_sub(repr.seq_number);
                self.remote_last_seq = self.local_seq_no.wrapping_add(1);
                self.remote_seq_no = repr.seq_number.wrapping_add(1);
                self.set_state(State::SynReceived);
                self.retransmit.reset();
            },
            Verdict::Completed => {
                self.local_seq_no = self.local_seq_no.wrapping_add(1);
                self.set_state(State::Established);
                self.retransmit.reset();
            },
            Verdict::Continued => (),
            Verdict::Finished => {
                self.remote_seq_no = self.remote_seq_no.wrapping_add(1);
                self.set_state(State::CloseWait);
                self.retransmit.reset();
            },
        }
        // Dequeue acknowledged octets.
        if let Some(ack_number) = repr.ack_number {
            let ack_length: i32 = ack_number.wrapping_sub(self.local_seq_no);
            self.tx_buffer.advance(ack_length as usize);
            self.local_seq_no = ack_number;
        }
        // Enqueue payload octets, which is guaranteed to be in order, unless we already did.
        if repr.payload.len() > 0 {
            self.rx_buffer.enqueue_slice(repr.payload);
        }
        // Update window length.
        self.remote_win_len = repr.window_len as usize;
        Ok(())
    }

    /// Whether a packet can be taken in.
    pub fn can_collect(&self, ip_repr: &IpRepr, payload: &[u8]) -> (result: bool)
        requires
            self@.wf(),
        ensures
            result == self@.can_collect(*ip_repr, payload@),
    {
        if ip_repr.protocol() != IpProtocol::Tcp {
            return true;
        }
        match TcpRepr::parse(payload, &ip_repr.src_addr(), &ip_repr.dst_addr()) {
            Ok(repr) => self.can_process(ip_repr, &repr),
            Err(_) => true,
        }
    }

    /// Take in a packet.
    pub fn collect(&mut self, ip_repr: &IpRepr, payload: &[u8]) -> (result: Result<(), Error>)
        requires
            old(self)@.wf(),
            old(self)@.can_collect(*ip_repr, payload@),
        ensures
            result == old(self)@.collect_result(*ip_repr, payload@),
            final(self)@ == old(self)@.collected(*ip_repr, payload@),
            final(self)@.wf(),
    {
        if ip_repr.protocol() != IpProtocol::Tcp {
            return Err(Error::Rejected);
        }
        match TcpRepr::parse(payload, &ip_repr.src_addr(), &ip_repr.dst_addr()) {
            Ok(repr) => self.process(ip_repr, &repr),
            Err(error) => Err(error),
        }
    }

    /// Hand the segment that is to be sent next, if there is one, to `emit`.
    pub fn dispatch<F, R>(&mut self, emit: &mut F) -> (result: Result<R, Error>) where
        F: FnMut(&IpRepr, &TcpRepr) -> Result<R, Error>,

        requires
            old(self)@.wf(),
            old(self)@.can_dispatch(),
            old(self)@.sends() ==> forall|ip: &IpRepr, repr: &TcpRepr|
                *ip == old(self)@.next_ip_repr() && repr@ == old(self)@.next_segment()
                    ==> #[trigger] call_requires(*old(emit), (ip, repr)),
        ensures
            final(self)@ == old(self)@.dispatched(),
            final(self)@.wf(),
            !old(self)@.sends() ==> result == Err::<R, Error>(Error::Exhausted) && *final(emit)
                == *old(emit),
            old(self)@.sends() ==> exists|ip: &IpRepr, repr: &TcpRepr|
                *ip == old(self)@.next_ip_repr() && repr@ == old(self)@.next_segment()
                    && #[trigger] call_ensures(*old(emit), (ip, repr), result),
    {
        let ip_repr = IpRepr::Unspecified {
            src_addr: self.local_endpoint.addr,
            dst_addr: self.remote_endpoint.addr,
            protocol: IpProtocol::Tcp,
        };
        let mut repr = TcpRepr {
            src_port: self.local_endpoint.port,
            dst_port: self.remote_endpoint.port,
            control: TcpControl::Plain,
            seq_number: self.local_seq_no,
            ack_number: None,
            window_len: self.rx_buffer.window() as u16,
            payload: &[],
        };
        let mut should_send = false;
        match self.state {
            State::SynReceived => {
                if !self.retransmit.check() {
                    return Err(Error::Exhausted);
                }
                repr.control = TcpControl::Syn;
                should_send = true;
            },
            State::Established | State::CloseWait => {
                // See if we should send data to the remote end because:
                //   1. the retransmit timer has expired, or...
                let mut may_send = self.retransmit.check();
                //   2. we've got new data in the transmit buffer.
                let remote_next_seq: i32 = self.local_seq_no.wrapping_add(
                    self.tx_buffer.len() as i32,
                );
                if self.remote_last_seq != remote_next_seq {
                    may_send = true;
                }
                if self.tx_buffer.len() > 0 && self.remote_win_len > 0 && may_send {
                    // We can send something, so let's do that.
                    let offset: i32 = self.remote_last_seq.wrapping_sub(self.local_seq_no);
                    let mut size: usize = self.remote_win_len;
                    // Clamp to MSS. Currently we only support the default MSS value.
                    if size > DEFAULT_MSS {
                        size = DEFAULT_MSS;
                    }
                    // Extract data from the buffer. This may return less than what we want,
                    // in case it's not possible to extract a contiguous slice.
                    let data = self.tx_buffer.peek(offset as usize, size);
                    // Send the extracted data, which comes next behind the octets in flight.
                    repr.seq_number = self.remote_last_seq;
                    repr.payload = data;
                    // Speculatively shrink the remote window. This will get updated the next
                    // time we receive a packet.
                    self.remote_win_len = self.remote_win_len - data.len();
                    // Advance the in-flight sequence number.
                    self.remote_last_seq = self.remote_last_seq.wrapping_add(data.len() as i32);
                    should_send = true;
                }
            },
            _ => {
                return Err(Error::Exhausted);
            },
        }
        let ack_number: i32 = self.remote_seq_no.wrapping_add(self.rx_buffer.len() as i32);
        if !should_send && self.remote_last_ack != ack_number {
            // Acknowledge all data we have received, since it is all in order.
            should_send = true;
        }
        if should_send {
            repr.ack_number = Some(ack_number);
            self.remote_last_ack = ack_number;
            assert(repr.payload@ =~= old(self)@.next_data());
            assert(repr@ == old(self)@.next_segment());
            emit(&ip_repr, &repr)
        } else {
            Err(Error::Exhausted)
        }
    }
}

} // verus!
