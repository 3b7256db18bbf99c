use vstd::prelude::*;

use crate::error::Error;
use crate::socket::buffer::{lemma_advanced_contents, lemma_appended_contents, BufferView};
use crate::socket::incoming::{flying, law_listening_socket};
use crate::socket::laws::law_buffer_places;
use crate::socket::model::SocketView;
use crate::socket::tcp::State;
use crate::wire::ip::{IpAddress, IpEndpoint, IpProtocol, IpRepr, Ipv4Address};
use crate::wire::tcp::{seq_add, seq_sub, Segment, TcpControl};

verus! {

/// A new socket is closed, connected to no one, and has sent and received nothing.
pub proof fn law_new_socket(rx: BufferView, tx: BufferView)
    ensures
        ({
            let socket = SocketView::fresh(rx, tx);
            let nowhere = IpEndpoint { addr: IpAddress::Unspecified, port: 0 };
            &&& socket.state == State::Closed
            &&& socket.listen_address == IpAddress::Unspecified
            &&& socket.local_endpoint == nowhere && socket.remote_endpoint == nowhere
            &&& socket.local_seq_no == 0 && socket.remote_seq_no == 0
            &&& socket.remote_last_seq == 0 && socket.remote_last_ack == 0
            &&& socket.remote_win_len == 0 && !socket.sent
            &&& socket.rx == rx && socket.tx == tx
        }),
{
}

/// A socket that listens on an endpoint can be connected to there, by anyone: a SYN to the endpoint,
/// from any address and port, takes it to SYN_RECEIVED, with just these two for its ends. A segment
/// to another port, or to another address if a particular one was asked for, is rejected.
pub proof fn law_listen(
    socket: SocketView,
    endpoint: IpEndpoint,
    src_addr: IpAddress,
    dst_addr: IpAddress,
    segment: Segment,
)
    requires
        socket.wf(),
        segment.payload.len() > 0 ==> socket.rx.storage.len() > 0,
    ensures
        ({
            let listening = socket.listening(endpoint);
            let ip = IpRepr::Unspecified { src_addr, dst_addr, protocol: IpProtocol::Tcp };
            let anywhere = endpoint.addr == IpAddress::Unspecified || endpoint.addr
                == IpAddress::Ipv4(Ipv4Address(0, 0, 0, 0));
            &&& listening.state == State::Listen
            &&& listening.local_endpoint == endpoint
            &&& listening.listen_address == endpoint.addr
            &&& listening.remote_endpoint == IpEndpoint { addr: IpAddress::Unspecified, port: 0 }
            &&& listening.rx == socket.rx && listening.tx == socket.tx
            &&& segment.dst_port == endpoint.port && (anywhere || dst_addr == endpoint.addr)
                && segment.control == TcpControl::Syn && segment.ack_number is None ==> {
                let after = listening.processed(ip, segment);
                &&& listening.can_process(ip, segment)
                &&& listening.process_result(ip, segment) == Ok::<(), Error>(())
                &&& after.state == State::SynReceived
                &&& after.local_endpoint == IpEndpoint { addr: dst_addr, port: endpoint.port }
                &&& after.remote_endpoint == IpEndpoint { addr: src_addr, port: segment.src_port }
                &&& after.listen_address == endpoint.addr
            }
            &&& segment.dst_port != endpoint.port || !anywhere && dst_addr != endpoint.addr ==> {
                &&& listening.process_result(ip, segment) == Err::<(), Error>(Error::Rejected)
                &&& listening.processed(ip, segment) == listening
            }
        }),
{
    let listening = socket.listening(endpoint);
    let ip = IpRepr::Unspecified { src_addr, dst_addr, protocol: IpProtocol::Tcp };
    if listening.addressed(ip, segment) {
        law_listening_socket(listening, ip, segment);
    }
}

/// Listening changes nothing but the state and the ends.
pub proof fn law_listen_keeps_the_rest(socket: SocketView, endpoint: IpEndpoint)
    ensures
        socket.listening(endpoint) == (SocketView {
            state: State::Listen,
            listen_address: endpoint.addr,
            local_endpoint: endpoint,
            remote_endpoint: IpEndpoint { addr: IpAddress::Unspecified, port: 0 },
            ..socket
        }),
{
}

/// Octets that are sent are put behind those that are queued, as many as there is room for, and
/// nothing else changes.
pub proof fn law_send(socket: SocketView, data: Seq<u8>)
    requires
        socket.wf(),
    ensures
        ({
            let after = socket.queued(data);
            let room = socket.tx.storage.len() - socket.tx.length;
            &&& after == SocketView { tx: after.tx, ..socket }
            &&& after.tx.contents() == socket.tx.contents() + if data.len() <= room {
                data
            } else {
                data.take(room)
            }
            &&& after.tx.storage.len() == socket.tx.storage.len()
            &&& after.wf()
        }),
{
    lemma_appended_contents(socket.tx, data);
    assert(data.take(data.len() as int) =~= data);
}

/// Octets that are received are the oldest ones. Taking them out moves the number that the receive
/// buffer starts at by as many, and changes nothing else.
pub proof fn law_recv(socket: SocketView, count: int)
    requires
        socket.wf(),
        0 <= count <= socket.rx.length,
    ensures
        ({
            let after = socket.taken(count);
            &&& after == SocketView {
                rx: after.rx,
                remote_seq_no: seq_add(socket.remote_seq_no, count as i32),
                ..socket
            }
            &&& after.rx.contents() == socket.rx.contents().skip(count)
            &&& after.rx.length == socket.rx.length - count
            &&& after.rx.storage == socket.rx.storage
            &&& after.wf()
        }),
{
    lemma_advanced_contents(socket.rx, count);
}

/// Whenever a socket sends, it announces all the room that is left in its receive buffer.
pub proof fn law_announces_free_room(socket: SocketView)
    requires
        socket.wf(),
        socket.sends(),
    ensures
        socket.next_segment().window_len as int == socket.rx.storage.len() - socket.rx.length,
{
}

/// Whenever a socket sends, it sends from its own end to the end that it is connected to, and
/// acknowledges all that it has received.
pub proof fn law_sends_to_the_other_end(socket: SocketView)
    requires
        socket.sends(),
    ensures
        socket.next_ip_repr() == (IpRepr::Unspecified {
            src_addr: socket.local_endpoint.addr,
            dst_addr: socket.remote_endpoint.addr,
            protocol: IpProtocol::Tcp,
        }),
        socket.next_segment().src_port == socket.local_endpoint.port,
        socket.next_segment().dst_port == socket.remote_endpoint.port,
        socket.next_segment().ack_number == Some(
            seq_add(socket.remote_seq_no, socket.rx.length as i32),
        ),
        socket.dispatched().remote_last_ack == seq_add(
            socket.remote_seq_no,
            socket.rx.length as i32,
        ),
{
}

/// A socket without a connection has nothing to send, and asking it changes nothing. In the states
/// that a listening socket does not get to, it cannot be asked.
pub proof fn law_asking_without_connection(socket: SocketView)
    ensures
        socket.state == State::Closed || socket.state == State::Listen ==> {
            &&& socket.can_dispatch()
            &&& !socket.sends()
            &&& socket.dispatched() == socket
        },
        match socket.state {
            State::SynSent | State::FinWait1 | State::FinWait2 => !socket.can_dispatch(),
            State::Closing | State::LastAck | State::TimeWait => !socket.can_dispatch(),
            _ => true,
        },
{
}

/// A half-open connection answers with a SYN that carries nothing, once.
pub proof fn law_half_open_answers(socket: SocketView)
    requires
        socket.state == State::SynReceived,
    ensures
        socket.can_dispatch(),
        socket.sends() <==> !socket.sent,
        socket.next_segment().control == TcpControl::Syn,
        socket.next_segment().seq_number == socket.local_seq_no,
        socket.next_segment().payload.len() == 0,
        socket.dispatched() == if socket.sent {
            socket
        } else {
            SocketView {
                sent: true,
                remote_last_ack: seq_add(socket.remote_seq_no, socket.rx.length as i32),
                ..socket
            }
        },
{
    assert(seq_add(socket.remote_last_seq, 0) == socket.remote_last_seq);
}

/// An open connection with `n` octets in flight sends when octets are queued, the other end has
/// room, and there are octets that have not been sent or a segment is due; and also when there is
/// something to acknowledge. What it sends are the octets that come next behind those in flight,
/// under their number: as many as there are, but no more than the other end has room for, than fit
/// into a segment, and than stand together in the storage. It then has that many more in flight, and
/// counts on that much less room.
pub proof fn law_open_connection_sends(socket: SocketView, n: int)
    requires
        socket.wf(),
        socket.state == State::Established || socket.state == State::CloseWait,
        socket.tx.storage.len() < i32::MAX,
        flying(socket, n),
    ensures
        ({
            let due = socket.tx.length > 0 && socket.remote_win_len > 0 && (n < socket.tx.length
                || !socket.sent);
            let owed = seq_add(socket.remote_seq_no, socket.rx.length as i32);
            let segment = socket.next_segment();
            let count = segment.payload.len() as int;
            let after = socket.dispatched();
            &&& socket.can_dispatch()
            &&& socket.sends() <==> due || socket.remote_last_ack != owed
            &&& socket.sends() ==> segment.control == TcpControl::Plain && flying(after, n + count)
                && after == SocketView {
                sent: true,
                remote_win_len: socket.remote_win_len - count,
                remote_last_seq: seq_add(socket.remote_last_seq, count as i32),
                remote_last_ack: owed,
                ..socket
            }
            &&& !socket.sends() ==> after == SocketView { sent: true, ..socket }
            &&& !due ==> count == 0 && segment.seq_number == socket.local_seq_no
            &&& due ==> {
                &&& segment.seq_number == seq_add(socket.local_seq_no, n as i32)
                &&& segment.seq_number == socket.remote_last_seq
                &&& n + count <= socket.tx.length
                &&& segment.payload == socket.tx.contents().subrange(n, n + count)
                &&& count <= socket.remote_win_len && count <= 536
                &&& n < socket.tx.length ==> count > 0
                &&& {
                    ||| n + count == socket.tx.length
                    ||| count == socket.remote_win_len
                    ||| count == 536
                    ||| (socket.tx.read_at + n) % (socket.tx.storage.len() as int) + count
                        == socket.tx.storage.len()
                }
            }
        }),
{
    let end = socket.tx.length as i32;
    assert(seq_sub(seq_add(socket.local_seq_no, n as i32), socket.local_seq_no) == n);
    assert(seq_sub(seq_add(socket.local_seq_no, end), socket.local_seq_no) == end);
    assert(seq_add(socket.remote_last_seq, 0) == socket.remote_last_seq);
    if socket.sends_data() {
        law_buffer_places(socket.tx, n);
        let count = socket.next_data().len() as int;
        assert(seq_add(seq_add(socket.local_seq_no, n as i32), count as i32) == seq_add(
            socket.local_seq_no,
            (n + count) as i32,
        ));
        assert(socket.next_data() =~= socket.tx.contents().subrange(n, n + count));
    }
}

} // verus!
