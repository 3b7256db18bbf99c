use vstd::prelude::*;

use crate::error::Error;
use crate::socket::buffer::{lemma_advanced_contents, lemma_appended_contents, BufferView};
use crate::socket::model::SocketView;
use crate::socket::tcp::State;
use crate::wire::ip::{IpEndpoint, IpRepr};
use crate::wire::tcp::{law_parse_emitted, seq_add, seq_sub, Segment, TcpControl};

verus! {

/// What is queued comes out again: octets that are appended to a buffer are, once everything that
/// was queued before them has been given up, what the buffer holds.
pub proof fn law_buffer_round_trip(buffer: BufferView, data: Seq<u8>)
    requires
        buffer.wf(),
    ensures
        buffer.appended(data).advanced(buffer.length).contents() == data.take(
            buffer.accepted(data.len() as int),
        ),
{
    lemma_appended_contents(buffer, data);
    lemma_advanced_contents(buffer.appended(data), buffer.length);
    assert(buffer.appended(data).contents().skip(buffer.length) =~= data.take(
        buffer.accepted(data.len() as int),
    ));
}

/// The place `i` octets past the oldest one is found by counting on from it, round the storage.
pub proof fn law_buffer_places(buffer: BufferView, i: int)
    requires
        buffer.wf(),
        buffer.storage.len() > 0,
        0 <= i <= buffer.storage.len(),
    ensures
        buffer.slot(i) == (buffer.read_at + i) % (buffer.storage.len() as int),
{
    let len = buffer.storage.len() as int;
    if buffer.read_at + i < len {
        vstd::arithmetic::div_mod::lemma_small_mod((buffer.read_at + i) as nat, len as nat);
    } else {
        let rest = buffer.read_at + i - len;
        vstd::arithmetic::div_mod::lemma_mod_add_multiples_vanish(rest, len);
        vstd::arithmetic::div_mod::lemma_small_mod(rest as nat, len as nat);
    }
}

/// A buffer holds the octets that stand from its oldest one on, round the storage, as many as are
/// queued. The rest of the storage is free.
pub proof fn law_buffer_holds(buffer: BufferView)
    requires
        buffer.wf(),
        buffer.storage.len() > 0,
    ensures
        buffer.capacity() == buffer.storage.len(),
        buffer.window() == buffer.storage.len() - buffer.length,
        buffer.contents().len() == buffer.length,
        forall|i: int|
            0 <= i < buffer.length ==> #[trigger] buffer.contents()[i] == buffer.storage[(
            buffer.read_at + i) % (buffer.storage.len() as int)],
{
    assert forall|i: int| 0 <= i < buffer.length implies #[trigger] buffer.contents()[i]
        == buffer.storage[(buffer.read_at + i) % (buffer.storage.len() as int)] by {
        law_buffer_places(buffer, i);
    }
}

/// A buffer over new storage holds nothing, and has room for as much as the storage is long.
pub proof fn law_new_buffer(storage: Seq<u8>)
    ensures
        ({
            let buffer = BufferView::over(storage);
            &&& buffer.wf()
            &&& buffer.storage == storage
            &&& buffer.length == 0 && buffer.read_at == 0
            &&& buffer.capacity() == storage.len() && buffer.window() == storage.len()
        }),
{
}

/// Queueing octets leaves those that are queued, puts the new ones behind them, as many as there is
/// room for, and leaves the places that stay free as they were.
pub proof fn law_buffer_appends(buffer: BufferView, data: Seq<u8>)
    requires
        buffer.wf(),
        buffer.storage.len() > 0,
    ensures
        ({
            let after = buffer.appended(data);
            let room = buffer.storage.len() - buffer.length;
            let count = if data.len() <= room {
                data.len() as int
            } else {
                room
            };
            &&& after.wf()
            &&& buffer.accepted(data.len() as int) == count
            &&& after.length == buffer.length + count
            &&& after.read_at == buffer.read_at
            &&& after.storage.len() == buffer.storage.len()
            &&& after.contents() == buffer.contents() + data.take(count)
            &&& forall|i: int|
                after.length <= i < buffer.storage.len() ==> after.storage[#[trigger] buffer.slot(i)]
                    == buffer.storage[buffer.slot(i)]
        }),
{
    lemma_appended_contents(buffer, data);
}

/// Giving up octets gives up the oldest ones, and leaves the others where they stand.
pub proof fn law_buffer_advances(buffer: BufferView, count: int)
    requires
        buffer.wf(),
        buffer.storage.len() > 0,
        0 <= count <= buffer.length,
    ensures
        ({
            let after = buffer.advanced(count);
            &&& after.wf()
            &&& after.length == buffer.length - count
            &&& after.read_at == (buffer.read_at + count) % (buffer.storage.len() as int)
            &&& after.storage == buffer.storage
            &&& after.contents() == buffer.contents().skip(count)
        }),
{
    lemma_advanced_contents(buffer, count);
    law_buffer_places(buffer, count);
}

/// A request to write gets all that it asks for, unless the buffer is full or the end of the
/// storage is reached before that.
pub proof fn law_buffer_writes(buffer: BufferView, size: int)
    requires
        buffer.wf(),
        buffer.storage.len() > 0,
        size >= 0,
    ensures
        ({
            let place = (buffer.read_at + buffer.length) % (buffer.storage.len() as int);
            let count = buffer.writable(size);
            &&& buffer.slot(buffer.length) == place
            &&& 0 <= count <= size
            &&& buffer.length + count <= buffer.storage.len()
            &&& place + count <= buffer.storage.len()
            &&& {
                ||| count == size
                ||| buffer.length + count == buffer.storage.len()
                ||| place + count == buffer.storage.len()
            }
        }),
{
    law_buffer_places(buffer, buffer.length);
}

/// A request to read gets all that it asks for, unless the queue or the storage ends before that.
/// What it gets is what is queued there.
pub proof fn law_buffer_reads(buffer: BufferView, offset: int, size: int)
    requires
        buffer.wf(),
        buffer.storage.len() > 0,
        0 <= offset <= buffer.length,
        size >= 0,
    ensures
        ({
            let place = (buffer.read_at + offset) % (buffer.storage.len() as int);
            let count = buffer.readable(offset, size);
            &&& buffer.slot(offset) == place
            &&& 0 <= count <= size
            &&& offset + count <= buffer.length
            &&& place + count <= buffer.storage.len()
            &&& {
                ||| count == size
                ||| offset + count == buffer.length
                ||| place + count == buffer.storage.len()
            }
            &&& buffer.window_at(offset, size) == buffer.contents().subrange(
                offset,
                offset + count,
            )
        }),
{
    law_buffer_places(buffer, offset);
    assert(buffer.window_at(offset, size) =~= buffer.contents().subrange(
        offset,
        offset + buffer.readable(offset, size),
    ));
}

/// A segment that is refused leaves the socket as it was, and so does a packet.
pub proof fn law_refused_changes_nothing(
    socket: SocketView,
    ip: IpRepr,
    segment: Segment,
    octets: Seq<u8>,
)
    ensures
        socket.process_result(ip, segment) is Err ==> socket.processed(ip, segment) == socket,
        socket.collect_result(ip, octets) is Err ==> socket.collected(ip, octets) == socket,
{
}

/// A segment that lies before what is expected is put up with and changes nothing.
pub proof fn law_duplicate_changes_nothing(socket: SocketView, ip: IpRepr, segment: Segment)
    requires
        socket.synchronized(),
        socket.state != State::Closed,
        socket.addressed(ip, segment),
        socket.ack_acceptable(segment),
        seq_sub(segment.seq_number, socket.next_remote_seq()) < 0,
    ensures
        socket.process_result(ip, segment) == Ok::<(), Error>(()),
        socket.processed(ip, segment) == socket,
{
}

/// A segment that leaves a gap behind what has been received is refused and changes nothing.
pub proof fn law_gap_is_refused(socket: SocketView, ip: IpRepr, segment: Segment)
    requires
        socket.synchronized(),
        socket.addressed(ip, segment),
        seq_sub(segment.seq_number, socket.next_remote_seq()) > 0,
    ensures
        socket.process_result(ip, segment) == Err::<(), Error>(Error::Malformed),
        socket.processed(ip, segment) == socket,
{
}

/// A reset that is in order is ignored by a listening socket, takes a half-open connection back to
/// listening on the address that was asked for, and closes any other connection. It never touches
/// the buffers.
pub proof fn law_reset(socket: SocketView, ip: IpRepr, segment: Segment)
    requires
        segment.control == TcpControl::Rst,
        socket.state != State::Closed,
        socket.addressed(ip, segment),
        socket.ack_acceptable(segment),
        socket.synchronized() ==> segment.seq_number == socket.next_remote_seq(),
    ensures
        socket.process_result(ip, segment) == Ok::<(), Error>(()),
        ({
            let after = socket.processed(ip, segment);
            &&& after.rx == socket.rx && after.tx == socket.tx
            &&& match socket.state {
                State::Listen => after == socket,
                State::SynReceived => {
                    &&& after.state == State::Listen
                    &&& after.local_endpoint.addr == socket.listen_address
                    &&& after.local_endpoint.port == socket.local_endpoint.port
                    &&& after.remote_endpoint == IpEndpoint::nowhere()
                },
                _ => {
                    &&& after.state == State::Closed
                    &&& after.local_endpoint == IpEndpoint::nowhere()
                    &&& after.remote_endpoint == IpEndpoint::nowhere()
                },
            }
        }),
{
}

/// A connection opens in three steps, whatever sequence number the remote end starts from. A
/// listening socket that gets a SYN answers with a SYN of its own that acknowledges it, once. The
/// acknowledgement of that answer opens the connection.
pub proof fn law_three_way_handshake(socket: SocketView, ip: IpRepr, syn: Segment, ack: Segment)
    requires
        socket.wf(),
        socket.state == State::Listen,
        socket.addressed(ip, syn),
        syn.control == TcpControl::Syn,
        syn.ack_number is None,
        socket.can_process(ip, syn),
        socket.tx.capacity() > 0,
        ({
            let answer = socket.processed(ip, syn).next_segment();
            &&& ack.src_port == syn.src_port && ack.dst_port == syn.dst_port
            &&& ack.control == TcpControl::Plain
            &&& Some(ack.seq_number) == answer.ack_number
            &&& ack.ack_number == Some(seq_add(answer.seq_number, 1))
            &&& ack.payload.len() > 0 ==> socket.rx.capacity() > 0
        }),
    ensures
        ({
            let half_open = socket.processed(ip, syn);
            let answer = half_open.next_segment();
            let answered = half_open.dispatched();
            let open = answered.processed(ip, ack);
            &&& socket.process_result(ip, syn) == Ok::<(), Error>(())
            &&& half_open.state == State::SynReceived
            &&& half_open.local_endpoint == IpEndpoint { addr: ip.dst(), port: syn.dst_port }
            &&& half_open.remote_endpoint == IpEndpoint { addr: ip.src(), port: syn.src_port }
            &&& half_open.sends()
            &&& answer.control == TcpControl::Syn
            &&& answer.seq_number == seq_sub(0, syn.seq_number)
            &&& answer.ack_number == Some(half_open.next_remote_seq())
            &&& answered.can_dispatch() && !answered.sends()
            &&& answered.can_process(ip, ack)
            &&& answered.process_result(ip, ack) == Ok::<(), Error>(())
            &&& open.state == State::Established
            &&& open.local_seq_no == seq_add(seq_sub(0, syn.seq_number), 1)
            &&& open.remote_seq_no == seq_add(syn.seq_number, 1)
            &&& open.tx.contents() == socket.tx.contents()
        }),
{
    lemma_appended_contents(socket.rx, syn.payload);
    let half_open = socket.processed(ip, syn);
    let answered = half_open.dispatched();
    let local = seq_sub(0, syn.seq_number);
    assert(answered.local_seq_no == local);
    assert(seq_sub(seq_add(local, 1), local) == 1);
    assert(answered.ack_in_window(seq_add(local, 1)));
    assert(answered.next_remote_seq() == half_open.next_remote_seq());
    assert(seq_sub(ack.seq_number, answered.next_remote_seq()) == 0);
    assert(answered.addressed(ip, ack));
    lemma_advanced_contents(socket.tx, 0);
    assert(socket.tx.contents().skip(0) =~= socket.tx.contents());
}

/// An open connection takes in a segment that is in order: the octets that it brings are put
/// behind those that wait to be read, as far as they fit, and just these are acknowledged from then
/// on; a FIN takes up one more number. The octets that it acknowledges are not kept any longer.
pub proof fn law_segment_in_order(socket: SocketView, ip: IpRepr, segment: Segment, ack: i32)
    requires
        socket.wf(),
        socket.state == State::Established,
        socket.addressed(ip, segment),
        segment.control == TcpControl::Plain || segment.control == TcpControl::Fin,
        segment.seq_number == socket.next_remote_seq(),
        segment.ack_number == Some(ack),
        socket.ack_in_window(ack),
        socket.tx.capacity() > 0,
        socket.rx.capacity() > 0,
    ensures
        ({
            let after = socket.processed(ip, segment);
            let count = socket.rx.accepted(segment.payload.len() as int);
            let fin: i32 = if segment.control == TcpControl::Fin {
                1
            } else {
                0
            };
            let given_up = seq_sub(ack, socket.local_seq_no) as int;
            &&& socket.can_process(ip, segment)
            &&& socket.process_result(ip, segment) == Ok::<(), Error>(())
            &&& after.state == if segment.control == TcpControl::Fin {
                State::CloseWait
            } else {
                State::Established
            }
            &&& after.rx.contents() == socket.rx.contents() + segment.payload.take(count)
            &&& after.next_remote_seq() == seq_add(
                seq_add(socket.next_remote_seq(), count as i32),
                fin,
            )
            &&& after.remote_win_len == segment.window_len
            &&& 0 <= given_up <= socket.tx.length
            &&& after.tx.contents() == socket.tx.contents().skip(given_up)
            &&& socket.tx.length <= i32::MAX ==> after.next_local_seq() == socket.next_local_seq()
            &&& after.local_seq_no == ack
        }),
{
    let count = socket.rx.accepted(segment.payload.len() as int);
    lemma_appended_contents(socket.rx, segment.payload);
    assert(segment.payload.len() == 0 ==> segment.payload.take(0) =~= segment.payload);
    assert(segment.payload.len() == 0 ==> socket.rx.contents() + segment.payload
        =~= socket.rx.contents());
    lemma_in_window(socket.local_seq_no, ack, socket.unacknowledged());
    lemma_advanced_contents(socket.tx, seq_sub(ack, socket.local_seq_no) as int);
}

/// A number between two others lies no farther past the first than the second does.
pub proof fn lemma_in_window(base: i32, seq: i32, count: i32)
    requires
        count >= 0,
        seq_sub(seq, base) >= 0,
        seq_sub(seq, seq_add(base, count)) <= 0,
    ensures
        seq_sub(seq, base) <= count,
        seq_add(base, count) == seq_add(seq, (count - seq_sub(seq, base)) as i32),
{
}

/// Only what has been sent can be acknowledged: an acknowledgement of anything else is malformed, and
/// nothing that is queued is given up for it.
pub proof fn law_only_sent_is_acknowledged(
    socket: SocketView,
    ip: IpRepr,
    segment: Segment,
    ack: i32,
)
    requires
        socket.wf(),
        socket.state == State::SynReceived || socket.state == State::Established || socket.state
            == State::CloseWait,
        socket.addressed(ip, segment),
        segment.ack_number == Some(ack),
        !(0 <= seq_sub(ack, socket.local_seq_no) <= if socket.state == State::SynReceived {
            1
        } else {
            socket.transmitted()
        }),
    ensures
        socket.process_result(ip, segment) == Err::<(), Error>(Error::Malformed),
        socket.processed(ip, segment) == socket,
{
    if socket.ack_in_window(ack) {
        lemma_in_window(socket.local_seq_no, ack, socket.unacknowledged());
    }
}

/// A socket with room in both buffers can process every segment but one: that which would complete
/// a handshake and does not acknowledge the SYN of it.
pub proof fn law_processes_all_but_one(socket: SocketView, ip: IpRepr, segment: Segment)
    requires
        socket.wf(),
        socket.rx.capacity() > 0,
        socket.tx.capacity() > 0,
        !(socket.state == State::SynReceived && segment.control == TcpControl::Plain
            && segment.ack_number == Some(socket.local_seq_no)),
    ensures
        socket.can_process(ip, segment),
{
    if socket.absorbs(ip, segment) {
        if let Some(ack) = segment.ack_number {
            lemma_in_window(socket.local_seq_no, ack, socket.unacknowledged());
        }
    }
}

/// Reading received octets makes room for as many, and changes nothing of what is acknowledged.
pub proof fn law_reading_keeps_acknowledgement(socket: SocketView, count: int)
    requires
        socket.wf(),
        0 <= count <= socket.rx.length,
    ensures
        socket.taken(count).next_remote_seq() == socket.next_remote_seq(),
        socket.taken(count).rx.window() == socket.rx.window() + count,
{
}

/// The last sequence number that was sent lies within what is queued. A half-open connection has
/// its SYN in flight and nothing else.
pub open spec fn sound(socket: SocketView) -> bool {
    match socket.state {
        State::SynReceived => socket.in_flight() == 1,
        State::Established | State::CloseWait => 0 <= socket.in_flight() <= socket.tx.length,
        _ => true,
    }
}

/// Whether a socket is in one of the states that a listening socket gets to.
pub open spec fn passive(socket: SocketView) -> bool {
    match socket.state {
        State::Closed | State::Listen => true,
        State::SynReceived | State::Established | State::CloseWait => true,
        _ => false,
    }
}

/// A sound socket can be asked for a segment in every state that a listening socket gets to.
pub proof fn law_sound_can_dispatch(socket: SocketView)
    requires
        sound(socket),
        passive(socket),
    ensures
        socket.can_dispatch(),
{
}

/// A socket stays sound whatever the user does with it.
pub proof fn law_user_keeps_sound(
    socket: SocketView,
    endpoint: IpEndpoint,
    data: Seq<u8>,
    count: int,
)
    requires
        socket.wf(),
        sound(socket),
    ensures
        sound(socket.listening(endpoint)),
        sound(socket.queued(data)),
        sound(socket.taken(count)),
{
}

/// A socket stays sound whatever segment comes in.
pub proof fn law_segment_keeps_sound(socket: SocketView, ip: IpRepr, segment: Segment)
    requires
        socket.wf(),
        sound(socket),
        socket.can_process(ip, segment),
    ensures
        sound(socket.processed(ip, segment)),
{
    if socket.absorbs(ip, segment) {
        if let Some(ack) = segment.ack_number {
            lemma_in_window(socket.local_seq_no, ack, socket.unacknowledged());
        }
    }
}

/// A socket stays sound when it is asked for a segment.
pub proof fn law_dispatch_keeps_sound(socket: SocketView)
    requires
        socket.wf(),
        sound(socket),
        // The number of queued octets can be told from a sequence number.
        socket.tx.capacity() <= i32::MAX,
    ensures
        sound(socket.dispatched()),
{
}

/// Something that is done to a socket.
pub enum SocketOp {
    /// The user has it listen.
    Listen(IpEndpoint),
    /// The user queues octets, as far as they fit.
    Send(Seq<u8>),
    /// The user takes out so many octets.
    Recv(int),
    /// A packet comes in.
    Collect(IpRepr, Seq<u8>),
    /// It is asked for a segment.
    Dispatch,
}

impl SocketOp {
    /// Whether a socket lets it be done. Being asked for a segment is always let.
    pub open spec fn allowed(self, socket: SocketView) -> bool {
        match self {
            SocketOp::Listen(_) => socket.state == State::Closed,
            SocketOp::Send(_) => true,
            SocketOp::Recv(count) => 0 <= count <= socket.rx.length,
            SocketOp::Collect(ip, octets) => socket.can_collect(ip, octets),
            SocketOp::Dispatch => true,
        }
    }

    /// The socket once it has been done.
    pub open spec fn done(self, socket: SocketView) -> SocketView {
        match self {
            SocketOp::Listen(endpoint) => socket.listening(endpoint),
            SocketOp::Send(data) => socket.queued(data),
            SocketOp::Recv(count) => socket.taken(count),
            SocketOp::Collect(ip, octets) => socket.collected(ip, octets),
            SocketOp::Dispatch => socket.dispatched(),
        }
    }
}

/// What becomes of a socket to which things are done one after the other, if it lets them all be
/// done.
pub open spec fn after_all(socket: SocketView, ops: Seq<SocketOp>) -> Option<SocketView>
    decreases ops.len(),
{
    if ops.len() == 0 {
        Some(socket)
    } else {
        match after_all(socket, ops.drop_last()) {
            Some(before) => if ops.last().allowed(before) {
                Some(ops.last().done(before))
            } else {
                None
            },
            None => None,
        }
    }
}

/// Whatever is done to a new socket, by its user and by whoever sends it packets, the last sequence
/// number that it sent lies within what is queued, and it can be asked for a segment.
pub proof fn law_always_sound(rx: BufferView, tx: BufferView, ops: Seq<SocketOp>)
    requires
        rx.wf(),
        tx.wf(),
        rx.capacity() <= u16::MAX,
        tx.capacity() <= i32::MAX,
    ensures
        after_all(SocketView::fresh(rx, tx), ops) matches Some(socket) ==> {
            &&& socket.wf()
            &&& sound(socket)
            &&& passive(socket)
            &&& socket.can_dispatch()
            &&& socket.tx.capacity() == tx.capacity()
        },
    decreases ops.len(),
{
    if ops.len() > 0 {
        law_always_sound(rx, tx, ops.drop_last());
        if let Some(before) = after_all(SocketView::fresh(rx, tx), ops.drop_last()) {
            if ops.last().allowed(before) {
                lemma_step_keeps_sound(before, ops.last());
            }
        }
    }
}

proof fn lemma_step_keeps_sound(socket: SocketView, op: SocketOp)
    requires
        socket.wf(),
        sound(socket),
        passive(socket),
        socket.tx.capacity() <= i32::MAX,
        op.allowed(socket),
    ensures
        op.done(socket).wf(),
        sound(op.done(socket)),
        passive(op.done(socket)),
        op.done(socket).tx.capacity() == socket.tx.capacity(),
{
    match op {
        SocketOp::Listen(_) => {},
        SocketOp::Send(data) => {
            lemma_appended_contents(socket.tx, data);
        },
        SocketOp::Recv(count) => {
            lemma_advanced_contents(socket.rx, count);
        },
        SocketOp::Collect(ip, octets) => {
            if let Ok(segment) = SocketView::carried_segment(ip, octets) {
                law_segment_keeps_sound(socket, ip, segment);
                if socket.absorbs(ip, segment) {
                    lemma_appended_contents(socket.rx, segment.payload);
                    if segment.ack_number is Some {
                        let heeded = socket.heeded(ip, segment);
                        lemma_advanced_contents(heeded.tx, heeded.acknowledged(segment));
                    }
                }
            }
        },
        SocketOp::Dispatch => {
            law_dispatch_keeps_sound(socket);
        },
    }
}

/// What is sent is what is queued: the octets of a segment are those that come next behind the
/// octets in flight, under the sequence number of the first of them, and there is at least one if
/// any are left. They are no more than the remote end has room for.
pub proof fn law_sends_queued_octets(socket: SocketView)
    requires
        socket.wf(),
        socket.sends_data(),
        socket.can_dispatch(),
    ensures
        socket.sends(),
        socket.next_segment().payload == socket.tx.contents().subrange(
            socket.in_flight() as int,
            socket.in_flight() + socket.next_data().len(),
        ),
        socket.next_segment().seq_number == seq_add(socket.local_seq_no, socket.in_flight()),
        socket.in_flight() + socket.next_data().len() <= socket.tx.length,
        socket.in_flight() < socket.tx.length ==> socket.next_data().len() > 0,
        socket.next_data().len() <= socket.remote_win_len,
        socket.dispatched().tx == socket.tx,
{
    assert(socket.next_data() =~= socket.tx.contents().subrange(
        socket.in_flight() as int,
        socket.in_flight() + socket.next_data().len(),
    ));
}

/// A socket that has said everything is silent: once it has been asked for a segment, and
/// everything queued is in flight or the remote end has no room left, there is nothing more to
/// send, and asking again changes nothing.
pub proof fn law_silent_when_done(socket: SocketView)
    requires
        socket.can_dispatch(),
        ({
            let after = socket.dispatched();
            after.remote_last_seq == after.next_local_seq() || after.remote_win_len <= 0
        }),
    ensures
        !socket.dispatched().sends(),
        socket.dispatched().dispatched() == socket.dispatched(),
{
}

/// A silent socket is up to date: an open connection that has nothing to send has acknowledged
/// everything that it received, and the last sequence number that it sent is that of the end of the
/// queue, unless octets are queued that the remote end has no room for.
pub proof fn law_silent_is_up_to_date(socket: SocketView)
    requires
        socket.wf(),
        sound(socket),
        socket.state == State::Established || socket.state == State::CloseWait,
        !socket.sends(),
    ensures
        socket.remote_last_ack == seq_add(socket.remote_seq_no, socket.rx.length as i32),
        socket.tx.length == 0 || socket.remote_win_len > 0 ==> socket.remote_last_seq == seq_add(
            socket.local_seq_no,
            socket.tx.length as i32,
        ),
{
}

/// Whether two sockets are the two ends of one connection, and agree on what has been sent and
/// received: the one has received whatever the other has in flight.
pub open spec fn connected(sender: SocketView, receiver: SocketView) -> bool {
    &&& receiver.state == State::Established
    &&& sender.local_endpoint == receiver.remote_endpoint
    &&& sender.remote_endpoint == receiver.local_endpoint
    &&& sender.local_endpoint.port != 0
    &&& sender.remote_endpoint.port != 0
    &&& sender.local_endpoint.addr is Ipv4
    &&& sender.remote_endpoint.addr is Ipv4
    &&& receiver.next_remote_seq() == sender.remote_last_seq
    &&& receiver.ack_in_window(sender.next_remote_seq())
}

/// What one end of a connection is given to send, the other end is given to read: the packet that
/// a sender sends puts the octets that come next in its queue behind those in flight, as many as it
/// sends, behind those that wait to be read at the other end, as far as they fit there, and the
/// other end acknowledges just these from then on. If all of them fit, the two ends agree again, so
/// that the next packet carries on from there.
pub proof fn law_octets_arrive(sender: SocketView, receiver: SocketView)
    requires
        sender.wf(),
        receiver.wf(),
        connected(sender, receiver),
        sender.sends_data(),
        sender.can_dispatch(),
        receiver.rx.capacity() > 0,
        receiver.tx.capacity() > 0,
    ensures
        ({
            let ip = sender.next_ip_repr();
            let octets = sender.next_segment().emitted(ip.src()->Ipv4_0, ip.dst()->Ipv4_0);
            let after = receiver.collected(ip, octets);
            let first = sender.in_flight() as int;
            let sent = sender.next_data().len() as int;
            let count = receiver.rx.accepted(sent);
            &&& first < sender.tx.length ==> sent > 0
            &&& receiver.can_collect(ip, octets)
            &&& receiver.collect_result(ip, octets) == Ok::<(), Error>(())
            &&& after.rx.contents() == receiver.rx.contents() + sender.tx.contents().subrange(
                first,
                first + count,
            )
            &&& after.next_remote_seq() == seq_add(sender.remote_last_seq, count as i32)
            &&& count == sent ==> connected(sender.dispatched(), after)
        }),
{
    let ip = sender.next_ip_repr();
    let segment = sender.next_segment();
    law_parse_emitted(segment, ip.src()->Ipv4_0, ip.dst()->Ipv4_0);
    law_sends_queued_octets(sender);
    law_segment_in_order(receiver, ip, segment, sender.next_remote_seq());
    let first = sender.in_flight() as int;
    let count = receiver.rx.accepted(sender.next_data().len() as int);
    assert(segment.payload.take(count) =~= sender.tx.contents().subrange(first, first + count));
}

} // verus!
