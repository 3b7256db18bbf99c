use vstd::prelude::*;

use crate::error::Error;
use crate::socket::buffer::{lemma_advanced_contents, lemma_appended_contents};
use crate::socket::laws::lemma_in_window;
use crate::socket::model::SocketView;
use crate::socket::tcp::State;
use crate::wire::ip::{IpAddress, IpEndpoint, IpProtocol, IpRepr, Ipv4Address};
use crate::wire::tcp::{seq_add, seq_sub, Segment, TcpControl};

verus! {

/// Whether a segment is for a socket, acknowledges `k` numbers past the first one that is not
/// acknowledged, and starts `d` numbers past the first one that has not been received.
pub open spec fn brings(socket: SocketView, ip: IpRepr, segment: Segment, k: i32, d: i32) -> bool {
    &&& socket.addressed(ip, segment)
    &&& segment.ack_number == Some(seq_add(socket.local_seq_no, k))
    &&& segment.seq_number == seq_add(
        seq_add(socket.remote_seq_no, socket.rx.length as i32),
        d,
    )
}

/// Whether just the `n` oldest of the queued octets are in flight.
pub open spec fn flying(socket: SocketView, n: int) -> bool {
    &&& 0 <= n <= socket.tx.length
    &&& n < i32::MAX
    &&& socket.remote_last_seq == seq_add(socket.local_seq_no, n as i32)
}

/// How much of a payload there is room for.
pub open spec fn room_for(socket: SocketView, payload: Seq<u8>) -> int {
    if payload.len() <= socket.rx.storage.len() - socket.rx.length {
        payload.len() as int
    } else {
        socket.rx.storage.len() - socket.rx.length
    }
}

/// A socket is in order when each of its queues fits in its storage and starts within it, and the
/// receive buffer can be announced in sixteen bits.
pub proof fn law_socket_in_order(socket: SocketView)
    ensures
        socket.wf() <==> {
            &&& 0 <= socket.rx.length <= socket.rx.storage.len() <= 65535
            &&& 0 <= socket.tx.length <= socket.tx.storage.len()
            &&& 0 <= socket.rx.read_at
            &&& socket.rx.read_at == 0 || socket.rx.read_at < socket.rx.storage.len()
            &&& 0 <= socket.tx.read_at
            &&& socket.tx.read_at == 0 || socket.tx.read_at < socket.tx.storage.len()
            &&& 0 <= socket.remote_win_len
        },
{
}

/// No particular host is meant by the placeholder and by the address of zeros, and by no other.
pub proof fn law_unspecified(addr: IpAddress)
    ensures
        addr.unspecified() <==> addr == IpAddress::Unspecified || addr == IpAddress::Ipv4(
            Ipv4Address(0, 0, 0, 0),
        ),
        IpEndpoint::nowhere().addr == IpAddress::Unspecified,
        IpEndpoint::nowhere().port == 0,
{
}

/// A packet comes from its source address and goes to its destination address.
pub proof fn law_packet_addresses(src_addr: IpAddress, dst_addr: IpAddress, protocol: IpProtocol)
    ensures
        ({
            let ip = IpRepr::Unspecified { src_addr, dst_addr, protocol };
            ip.src() == src_addr && ip.dst() == dst_addr && ip.carries() == protocol
        }),
{
}

/// A segment is rejected if and only if it goes to another port or to another address than the
/// socket has, or comes from another port or from another address than the socket is connected to,
/// as far as the socket has and is connected to any.
pub proof fn law_rejected(
    socket: SocketView,
    src_addr: IpAddress,
    dst_addr: IpAddress,
    protocol: IpProtocol,
    segment: Segment,
)
    ensures
        ({
            let ip = IpRepr::Unspecified { src_addr, dst_addr, protocol };
            let rejected = {
                ||| segment.dst_port != socket.local_endpoint.port
                ||| socket.local_endpoint.addr != dst_addr && socket.local_endpoint.addr
                    != IpAddress::Unspecified && socket.local_endpoint.addr != IpAddress::Ipv4(
                    Ipv4Address(0, 0, 0, 0),
                )
                ||| socket.remote_endpoint.port != 0 && segment.src_port
                    != socket.remote_endpoint.port
                ||| socket.remote_endpoint.addr != src_addr && socket.remote_endpoint.addr
                    != IpAddress::Unspecified && socket.remote_endpoint.addr != IpAddress::Ipv4(
                    Ipv4Address(0, 0, 0, 0),
                )
            };
            &&& socket.addressed(ip, segment) == !rejected
            &&& socket.process_result(ip, segment) == Err::<(), Error>(Error::Rejected) <==> rejected
            &&& rejected ==> socket.can_process(ip, segment) && socket.processed(ip, segment)
                == socket
        }),
{
}

/// A packet of another protocol is rejected. One that does not hold a segment is refused for the
/// reason why it does not. Any other is taken in as the segment that it holds.
pub proof fn law_packet_is_its_segment(socket: SocketView, ip: IpRepr, octets: Seq<u8>)
    ensures
        ip.carries() != IpProtocol::Tcp ==> {
            &&& socket.can_collect(ip, octets)
            &&& socket.collect_result(ip, octets) == Err::<(), Error>(Error::Rejected)
            &&& socket.collected(ip, octets) == socket
        },
        ip.carries() == IpProtocol::Tcp ==> match Segment::parsed(octets, ip.src(), ip.dst()) {
            Ok(segment) => {
                &&& socket.can_collect(ip, octets) == socket.can_process(ip, segment)
                &&& socket.collect_result(ip, octets) == socket.process_result(ip, segment)
                &&& socket.collected(ip, octets) == socket.processed(ip, segment)
            },
            Err(error) => {
                &&& socket.can_collect(ip, octets)
                &&& socket.collect_result(ip, octets) == Err::<(), Error>(error)
                &&& socket.collected(ip, octets) == socket
            },
        },
{
}

/// A closed socket finds every segment malformed that is addressed to it.
pub proof fn law_closed_socket_refuses(socket: SocketView, ip: IpRepr, segment: Segment)
    requires
        socket.state == State::Closed,
        socket.addressed(ip, segment),
    ensures
        socket.can_process(ip, segment),
        socket.process_result(ip, segment) == Err::<(), Error>(Error::Malformed),
        socket.processed(ip, segment) == socket,
{
}

/// A listening socket takes a SYN that acknowledges nothing for the start of a connection with
/// whoever sent it. It starts to count from the negative of the number that the other end starts
/// from, and has its own SYN in flight. It lets a reset pass, and refuses everything else.
pub proof fn law_listening_socket(socket: SocketView, ip: IpRepr, segment: Segment)
    requires
        socket.wf(),
        segment.payload.len() > 0 ==> socket.rx.storage.len() > 0,
        socket.state == State::Listen,
        socket.addressed(ip, segment),
    ensures
        socket.can_process(ip, segment),
        ({
            let after = socket.processed(ip, segment);
            let result = socket.process_result(ip, segment);
            match (segment.control, segment.ack_number) {
                (TcpControl::Syn, None) => {
                    &&& result == Ok::<(), Error>(())
                    &&& after == SocketView {
                        state: State::SynReceived,
                        local_endpoint: IpEndpoint { addr: ip.dst(), port: segment.dst_port },
                        remote_endpoint: IpEndpoint { addr: ip.src(), port: segment.src_port },
                        local_seq_no: after.local_seq_no,
                        remote_last_seq: seq_add(after.local_seq_no, 1),
                        remote_seq_no: seq_add(segment.seq_number, 1),
                        sent: false,
                        remote_win_len: segment.window_len as int,
                        rx: after.rx,
                        ..socket
                    }
                    &&& seq_add(after.local_seq_no, segment.seq_number) == 0
                    &&& after.rx.contents() == socket.rx.contents() + segment.payload.take(
                        room_for(socket, segment.payload),
                    )
                    &&& after.wf()
                },
                (TcpControl::Rst, None) => result == Ok::<(), Error>(()) && after == socket,
                _ => result == Err::<(), Error>(Error::Malformed) && after == socket,
            }
        }),
{
    lemma_appended_contents(socket.rx, segment.payload);
    assert(segment.payload.len() == 0 ==> socket.rx.contents() + segment.payload.take(0)
        =~= socket.rx.contents());
}

/// A socket that has sent a SYN is closed by a reset that acknowledges just what was acknowledged
/// before the SYN, and refuses everything else.
pub proof fn law_syn_sent_socket(socket: SocketView, ip: IpRepr, segment: Segment)
    requires
        socket.state == State::SynSent,
        socket.addressed(ip, segment),
    ensures
        socket.can_process(ip, segment),
        ({
            let after = socket.processed(ip, segment);
            let result = socket.process_result(ip, segment);
            if segment.control == TcpControl::Rst && segment.ack_number == Some(
                socket.local_seq_no,
            ) {
                &&& result == Ok::<(), Error>(())
                &&& closes(socket, after)
            } else {
                &&& result == Err::<(), Error>(Error::Malformed)
                &&& after == socket
            }
        }),
{
}

/// Whether a socket became a closed one that is connected to no one, and is otherwise as it was.
pub open spec fn closes(socket: SocketView, after: SocketView) -> bool {
    after == SocketView {
        state: State::Closed,
        local_endpoint: IpEndpoint { addr: IpAddress::Unspecified, port: 0 },
        remote_endpoint: IpEndpoint { addr: IpAddress::Unspecified, port: 0 },
        ..socket
    }
}

/// Once a connection has begun, every segment acknowledges something.
pub proof fn law_acknowledgement_expected(socket: SocketView, ip: IpRepr, segment: Segment)
    requires
        socket.state != State::Listen,
        socket.addressed(ip, segment),
        segment.ack_number is None,
    ensures
        socket.can_process(ip, segment),
        socket.process_result(ip, segment) == Err::<(), Error>(Error::Malformed),
        socket.processed(ip, segment) == socket,
{
}

/// A half-open connection is opened by a plain segment that acknowledges its SYN, and goes back to
/// listening, on the address that it was asked to listen on, upon a reset. It refuses whatever else
/// is in order, and whatever acknowledges more or less than its SYN.
pub proof fn law_half_open_connection(socket: SocketView, ip: IpRepr, segment: Segment, k: i32)
    requires
        socket.wf(),
        segment.payload.len() > 0 ==> socket.rx.storage.len() > 0,
        socket.tx.storage.len() > 0,
        socket.state == State::SynReceived,
        brings(socket, ip, segment, k, 0),
        segment.control == TcpControl::Plain ==> k != 0,
    ensures
        socket.can_process(ip, segment),
        ({
            let after = socket.processed(ip, segment);
            let result = socket.process_result(ip, segment);
            if k == 1 && segment.control == TcpControl::Plain {
                &&& result == Ok::<(), Error>(())
                &&& after == SocketView {
                    state: State::Established,
                    local_seq_no: seq_add(socket.local_seq_no, 1),
                    sent: false,
                    remote_win_len: segment.window_len as int,
                    rx: after.rx,
                    tx: after.tx,
                    ..socket
                }
                &&& after.tx.contents() == socket.tx.contents()
                &&& after.tx.storage == socket.tx.storage
                &&& after.rx.contents() == socket.rx.contents() + segment.payload.take(
                    room_for(socket, segment.payload),
                )
                &&& after.wf()
            } else if (k == 0 || k == 1) && segment.control == TcpControl::Rst {
                &&& result == Ok::<(), Error>(())
                &&& after == SocketView {
                    state: State::Listen,
                    local_endpoint: IpEndpoint {
                        addr: socket.listen_address,
                        port: socket.local_endpoint.port,
                    },
                    remote_endpoint: IpEndpoint { addr: IpAddress::Unspecified, port: 0 },
                    ..socket
                }
            } else {
                &&& result == Err::<(), Error>(Error::Malformed)
                &&& after == socket
            }
        }),
{
    let expected = seq_add(socket.remote_seq_no, socket.rx.length as i32);
    assert(seq_sub(seq_add(expected, 0), expected) == 0);
    lemma_distance_back(socket.local_seq_no, k);
    if socket.ack_in_window(seq_add(socket.local_seq_no, k)) {
        lemma_in_window(socket.local_seq_no, seq_add(socket.local_seq_no, k), 1);
    }
    lemma_appended_contents(socket.rx, segment.payload);
    assert(segment.payload.len() == 0 ==> socket.rx.contents() + segment.payload.take(0)
        =~= socket.rx.contents());
    lemma_advanced_contents(socket.tx, 0);
    assert(socket.tx.contents().skip(0) =~= socket.tx.contents());
}

/// A plain segment that does not acknowledge the SYN of a half-open connection cannot be processed.
pub proof fn law_syn_must_be_acknowledged(socket: SocketView, ip: IpRepr, segment: Segment)
    requires
        socket.wf(),
        socket.state == State::SynReceived,
        brings(socket, ip, segment, 0, 0),
        segment.control == TcpControl::Plain,
    ensures
        !socket.can_process(ip, segment),
{
    let expected = seq_add(socket.remote_seq_no, socket.rx.length as i32);
    assert(seq_sub(seq_add(expected, 0), expected) == 0);
    assert(seq_add(socket.local_seq_no, 0) == socket.local_seq_no);
}

/// An open connection with `n` octets in flight takes any number of them, from none to all, for
/// acknowledged: it gives up just that many of its oldest octets, puts the payload behind what waits
/// to be read, as far as there is room, and notes the window. A FIN also takes up a number and says
/// that nothing more will come. A reset closes the connection, and a SYN is refused.
pub proof fn law_open_connection(
    socket: SocketView,
    ip: IpRepr,
    segment: Segment,
    n: int,
    k: i32,
)
    requires
        socket.wf(),
        segment.payload.len() > 0 ==> socket.rx.storage.len() > 0,
        socket.tx.storage.len() > 0,
        socket.state == State::Established,
        flying(socket, n),
        brings(socket, ip, segment, k, 0),
        0 <= k <= n,
    ensures
        socket.can_process(ip, segment),
        ({
            let after = socket.processed(ip, segment);
            let result = socket.process_result(ip, segment);
            let fin = segment.control == TcpControl::Fin;
            match segment.control {
                TcpControl::Plain | TcpControl::Fin => {
                    &&& result == Ok::<(), Error>(())
                    &&& after == SocketView {
                        state: if fin {
                            State::CloseWait
                        } else {
                            State::Established
                        },
                        local_seq_no: seq_add(socket.local_seq_no, k),
                        remote_seq_no: if fin {
                            seq_add(socket.remote_seq_no, 1)
                        } else {
                            socket.remote_seq_no
                        },
                        sent: !fin && socket.sent,
                        remote_win_len: segment.window_len as int,
                        rx: after.rx,
                        tx: after.tx,
                        ..socket
                    }
                    &&& after.tx.contents() == socket.tx.contents().skip(k as int)
                    &&& after.tx.storage == socket.tx.storage
                    &&& after.rx.contents() == socket.rx.contents() + segment.payload.take(
                        room_for(socket, segment.payload),
                    )
                    &&& flying(after, n - k)
                    &&& after.wf()
                },
                TcpControl::Rst => result == Ok::<(), Error>(()) && closes(socket, after),
                TcpControl::Syn => result == Err::<(), Error>(Error::Malformed) && after == socket,
            }
        }),
{
    let expected = seq_add(socket.remote_seq_no, socket.rx.length as i32);
    assert(seq_sub(seq_add(expected, 0), expected) == 0);
    lemma_distance_back(socket.local_seq_no, k);
    lemma_distance_back(socket.local_seq_no, n as i32);
    lemma_within(socket.local_seq_no, k, n as i32);
    lemma_appended_contents(socket.rx, segment.payload);
    assert(segment.payload.len() == 0 ==> socket.rx.contents() + segment.payload.take(0)
        =~= socket.rx.contents());
    lemma_advanced_contents(socket.tx, k as int);
}

/// How many numbers past the first one that is not acknowledged can be acknowledged: the octets in
/// flight, and the SYN or FIN that is.
pub open spec fn acknowledgeable(socket: SocketView, n: int) -> int {
    match socket.state {
        State::SynReceived => 1,
        State::FinWait1 | State::LastAck => n + 1,
        _ => n,
    }
}

/// Whether a socket has begun a connection, and knows what the other end counts from.
pub open spec fn begun(socket: SocketView) -> bool {
    socket.state != State::Closed && socket.state != State::Listen && socket.state
        != State::SynSent
}

/// Whatever acknowledges what was acknowledged before, or what has not been sent, is malformed, and
/// nothing is given up for it.
pub proof fn law_false_acknowledgement(
    socket: SocketView,
    ip: IpRepr,
    segment: Segment,
    n: int,
    k: i32,
    d: i32,
)
    requires
        socket.wf(),
        begun(socket),
        flying(socket, n) || socket.state == State::SynReceived,
        brings(socket, ip, segment, k, d),
        k < 0 || k > acknowledgeable(socket, n),
    ensures
        socket.can_process(ip, segment),
        socket.process_result(ip, segment) == Err::<(), Error>(Error::Malformed),
        socket.processed(ip, segment) == socket,
{
    lemma_distance_back(socket.local_seq_no, k);
    lemma_distance_back(socket.local_seq_no, n as i32);
    if socket.ack_in_window(seq_add(socket.local_seq_no, k)) {
        lemma_in_window(
            socket.local_seq_no,
            seq_add(socket.local_seq_no, k),
            acknowledgeable(socket, n) as i32,
        );
    }
}

/// However far the last number that was sent lies past the first one that is not acknowledged, just
/// those numbers up to it can be acknowledged that queued octets have; and none if it lies before.
pub proof fn law_acknowledged_is_sent_and_queued(
    socket: SocketView,
    ip: IpRepr,
    segment: Segment,
    k: i32,
)
    requires
        socket.wf(),
        segment.payload.len() > 0 ==> socket.rx.storage.len() > 0,
        socket.tx.storage.len() > 0,
        socket.state == State::Established,
        brings(socket, ip, segment, k, 0),
        segment.control == TcpControl::Plain,
    ensures
        ({
            let sent = seq_sub(socket.remote_last_seq, socket.local_seq_no);
            let result = socket.process_result(ip, segment);
            &&& socket.can_process(ip, segment)
            &&& result is Ok <==> k == 0 || 0 < k <= sent && k <= socket.tx.length
            &&& result is Ok ==> socket.processed(ip, segment).tx.contents()
                == socket.tx.contents().skip(k as int)
            &&& result is Err ==> socket.processed(ip, segment) == socket
        }),
{
    let expected = seq_add(socket.remote_seq_no, socket.rx.length as i32);
    assert(seq_sub(seq_add(expected, 0), expected) == 0);
    lemma_distance_back(socket.local_seq_no, k);
    let ack = seq_add(socket.local_seq_no, k);
    let top = socket.unacknowledged();
    if socket.ack_in_window(ack) {
        lemma_in_window(socket.local_seq_no, ack, top);
        lemma_advanced_contents(socket.tx, k as int);
    }
    if 0 <= k <= top {
        lemma_within(socket.local_seq_no, k, top);
    }
}

/// A segment that starts past what has been received is malformed, and one that starts before it is
/// let pass; neither changes anything.
pub proof fn law_out_of_order(
    socket: SocketView,
    ip: IpRepr,
    segment: Segment,
    n: int,
    k: i32,
    d: i32,
)
    requires
        socket.wf(),
        begun(socket),
        flying(socket, n) || socket.state == State::SynReceived,
        brings(socket, ip, segment, k, d),
        0 <= k <= acknowledgeable(socket, n),
        d != 0,
    ensures
        socket.can_process(ip, segment),
        socket.process_result(ip, segment) == if d > 0 {
            Err::<(), Error>(Error::Malformed)
        } else {
            Ok::<(), Error>(())
        },
        socket.processed(ip, segment) == socket,
{
    let expected = seq_add(socket.remote_seq_no, socket.rx.length as i32);
    lemma_distance_back(expected, d);
    lemma_distance_back(socket.local_seq_no, k);
    lemma_distance_back(socket.local_seq_no, n as i32);
    lemma_within(socket.local_seq_no, k, acknowledgeable(socket, n) as i32);
}

/// A connection that one end has closed is closed altogether by a reset, and refuses whatever else
/// is in order.
pub proof fn law_closing_connection(
    socket: SocketView,
    ip: IpRepr,
    segment: Segment,
    n: int,
    k: i32,
)
    requires
        socket.wf(),
        begun(socket),
        socket.state != State::SynReceived,
        socket.state != State::Established,
        flying(socket, n),
        brings(socket, ip, segment, k, 0),
        0 <= k <= acknowledgeable(socket, n),
    ensures
        socket.can_process(ip, segment),
        ({
            let after = socket.processed(ip, segment);
            let result = socket.process_result(ip, segment);
            if segment.control == TcpControl::Rst {
                result == Ok::<(), Error>(()) && closes(socket, after)
            } else {
                result == Err::<(), Error>(Error::Malformed) && after == socket
            }
        }),
{
    let expected = seq_add(socket.remote_seq_no, socket.rx.length as i32);
    assert(seq_sub(seq_add(expected, 0), expected) == 0);
    lemma_distance_back(socket.local_seq_no, k);
    lemma_distance_back(socket.local_seq_no, n as i32);
    lemma_within(socket.local_seq_no, k, acknowledgeable(socket, n) as i32);
}

/// A number lies as far past another as was added to it.
proof fn lemma_distance_back(base: i32, count: i32)
    ensures
        seq_sub(seq_add(base, count), base) == count,
{
}

/// A number no farther past the first of two others than the second lies between them.
proof fn lemma_within(base: i32, k: i32, count: i32)
    requires
        0 <= k <= count,
    ensures
        seq_sub(seq_add(base, k), seq_add(base, count)) <= 0,
{
}

} // verus!
