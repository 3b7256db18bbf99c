use tcp_switch::error::Error;
use tcp_switch::socket::buffer::SocketBuffer;
use tcp_switch::socket::tcp::{Retransmit, Socket, State, TcpSocket};
use tcp_switch::wire::ip::{IpAddress, IpEndpoint, IpProtocol, IpRepr, Ipv4Address};
use tcp_switch::wire::tcp::{TcpControl, TcpRepr};

#[test]
fn test_buffer() {
    let mut buffer = SocketBuffer::new(vec![0; 8]); // ........
    buffer.enqueue(6).copy_from_slice(b"foobar"); // foobar..
    assert_eq!(buffer.dequeue(3), b"foo"); // ...bar..
    buffer.enqueue(6).copy_from_slice(b"ba"); // ...barba
    buffer.enqueue(4).copy_from_slice(b"zho"); // zhobarba
    assert_eq!(buffer.dequeue(6), b"barba"); // zho.....
    assert_eq!(buffer.dequeue(8), b"zho"); // ........
    buffer.enqueue(8).copy_from_slice(b"gefug"); // ...gefug
}

#[test]
fn test_buffer_wraparound() {
    let mut buffer = SocketBuffer::new(vec![0; 8]); // ........
    buffer.enqueue_slice(&b"foobar"[..]); // foobar..
    assert_eq!(buffer.dequeue(3), b"foo"); // ...bar..
    buffer.enqueue_slice(&b"bazhoge"[..]); // zhobarba
}

const LOCAL_IP: IpAddress = IpAddress::Ipv4(Ipv4Address(10, 0, 0, 1));
const REMOTE_IP: IpAddress = IpAddress::Ipv4(Ipv4Address(10, 0, 0, 2));
const LOCAL_PORT: u16 = 80;
const REMOTE_PORT: u16 = 49500;
const LOCAL_END: IpEndpoint = IpEndpoint { addr: LOCAL_IP, port: LOCAL_PORT };
const REMOTE_END: IpEndpoint = IpEndpoint { addr: REMOTE_IP, port: REMOTE_PORT };
const LOCAL_SEQ: i32 = 10000;
const REMOTE_SEQ: i32 = -10000;

const SEND_TEMPL: TcpRepr<'static> = TcpRepr {
    src_port: REMOTE_PORT,
    dst_port: LOCAL_PORT,
    control: TcpControl::Plain,
    seq_number: 0,
    ack_number: Some(0),
    window_len: 256,
    payload: &[],
};
const RECV_TEMPL: TcpRepr<'static> = TcpRepr {
    src_port: LOCAL_PORT,
    dst_port: REMOTE_PORT,
    control: TcpControl::Plain,
    seq_number: 0,
    ack_number: Some(0),
    window_len: 64,
    payload: &[],
};

const SEND_IP: IpRepr =
    IpRepr::Unspecified { src_addr: REMOTE_IP, dst_addr: LOCAL_IP, protocol: IpProtocol::Tcp };

fn send(socket: &mut TcpSocket, repr: &TcpRepr) -> Result<(), Error> {
    let mut buffer = vec![0; repr.buffer_len()];
    repr.emit(&SEND_IP, &mut buffer);
    assert!(socket.can_collect(&SEND_IP, &buffer));
    socket.collect(&SEND_IP, &buffer)
}

fn recv<F>(socket: &mut TcpSocket, mut f: F)
where
    F: FnMut(Result<TcpRepr, Error>),
{
    assert!(socket.can_dispatch());
    let mut buffer = vec![];
    let result = socket.dispatch(&mut |ip_repr: &IpRepr, payload: &TcpRepr| {
        assert_eq!(ip_repr.protocol(), IpProtocol::Tcp);
        assert_eq!(ip_repr.src_addr(), LOCAL_IP);
        assert_eq!(ip_repr.dst_addr(), REMOTE_IP);

        buffer.resize(payload.buffer_len(), 0);
        payload.emit(ip_repr, &mut buffer[..]);
        let repr = TcpRepr::parse(&buffer[..], &ip_repr.src_addr(), &ip_repr.dst_addr())?;
        f(Ok(repr));
        Ok(())
    });
    match result {
        Ok(()) => (),
        Err(e) => f(Err(e)),
    }
}

fn send_all(socket: &mut TcpSocket, reprs: &[TcpRepr]) {
    for repr in reprs {
        assert_eq!(send(socket, repr), Ok(()));
    }
}

fn recv_all(socket: &mut TcpSocket, reprs: &[TcpRepr]) {
    for expected in reprs {
        let mut calls = 0;
        recv(socket, |repr| {
            calls += 1;
            assert_eq!(repr, Ok(*expected));
        });
        assert_eq!(calls, 1);
    }
    recv(socket, |repr| assert_eq!(repr, Err(Error::Exhausted)));
}

fn socket() -> TcpSocket<'static> {
    let rx_buffer = SocketBuffer::new(vec![0; 64]);
    let tx_buffer = SocketBuffer::new(vec![0; 64]);
    match TcpSocket::new(rx_buffer, tx_buffer) {
        Socket::Tcp(socket) => socket,
    }
}

// Tests for the CLOSED state.

#[test]
fn test_closed() {
    let mut s = socket();
    assert_eq!(s.state(), State::Closed);

    assert_eq!(
        send(&mut s, &TcpRepr { control: TcpControl::Syn, ..SEND_TEMPL }),
        Err(Error::Rejected)
    );
}

// Tests for the LISTEN state.

fn socket_listen() -> TcpSocket<'static> {
    let mut s = socket();
    s.state = State::Listen;
    s.local_endpoint = IpEndpoint::new(IpAddress::default(), LOCAL_PORT);
    s
}

#[test]
fn test_listen_syn_no_ack() {
    let mut s = socket_listen();
    assert_eq!(
        send(
            &mut s,
            &TcpRepr {
                control: TcpControl::Syn,
                seq_number: REMOTE_SEQ,
                ack_number: Some(LOCAL_SEQ),
                ..SEND_TEMPL
            }
        ),
        Err(Error::Malformed)
    );
    assert_eq!(s.state, State::Listen);
}

#[test]
fn test_listen_rst() {
    let mut s = socket_listen();
    send_all(
        &mut s,
        &[TcpRepr {
            control: TcpControl::Rst,
            seq_number: REMOTE_SEQ,
            ack_number: None,
            ..SEND_TEMPL
        }],
    );
    assert_eq!(s.state, State::Listen);
}

// Tests for the SYN_RECEIVED state.

fn socket_syn_received() -> TcpSocket<'static> {
    let mut s = socket();
    s.state = State::SynReceived;
    s.local_endpoint = LOCAL_END;
    s.remote_endpoint = REMOTE_END;
    s.local_seq_no = LOCAL_SEQ;
    s.remote_seq_no = REMOTE_SEQ;
    s
}

#[test]
fn test_syn_received_rst() {
    let mut s = socket_syn_received();
    send_all(
        &mut s,
        &[TcpRepr {
            control: TcpControl::Rst,
            seq_number: REMOTE_SEQ,
            ack_number: Some(LOCAL_SEQ),
            ..SEND_TEMPL
        }],
    );
    assert_eq!(s.state, State::Listen);
    assert_eq!(s.local_endpoint, IpEndpoint::new(IpAddress::Unspecified, LOCAL_END.port));
    assert_eq!(s.remote_endpoint, IpEndpoint::default());
}

#[test]
fn syn_received_ack_of_nothing_cannot_be_processed() {
    let mut s = socket_syn_received();
    let repr = TcpRepr { seq_number: REMOTE_SEQ, ack_number: Some(LOCAL_SEQ), ..SEND_TEMPL };
    assert!(!s.can_process(&SEND_IP, &repr));
    let repr = TcpRepr { ack_number: Some(LOCAL_SEQ + 1), ..repr };
    assert!(s.can_process(&SEND_IP, &repr));
    assert_eq!(s.process(&SEND_IP, &repr), Ok(()));
    assert_eq!(s.state, State::Established);
    assert_eq!(s.local_seq_no, LOCAL_SEQ + 1);
    assert_eq!(s.remote_win_len, 256);
}

// Tests for the SYN_SENT state.

fn socket_syn_sent() -> TcpSocket<'static> {
    let mut s = socket();
    s.state = State::SynSent;
    s.local_endpoint = LOCAL_END;
    s.remote_endpoint = REMOTE_END;
    s.local_seq_no = LOCAL_SEQ;
    s
}

#[test]
fn test_syn_sent_rst() {
    let mut s = socket_syn_sent();
    send_all(
        &mut s,
        &[TcpRepr {
            control: TcpControl::Rst,
            seq_number: REMOTE_SEQ,
            ack_number: Some(LOCAL_SEQ),
            ..SEND_TEMPL
        }],
    );
    assert_eq!(s.state, State::Closed);
    assert_eq!(s.local_endpoint, IpEndpoint::default());
    assert_eq!(s.remote_endpoint, IpEndpoint::default());
}

#[test]
fn test_syn_sent_rst_no_ack() {
    let mut s = socket_syn_sent();
    assert_eq!(
        send(
            &mut s,
            &TcpRepr {
                control: TcpControl::Rst,
                seq_number: REMOTE_SEQ,
                ack_number: None,
                ..SEND_TEMPL
            }
        ),
        Err(Error::Malformed)
    );
    assert_eq!(s.state, State::SynSent);
}

#[test]
fn test_syn_sent_rst_bad_ack() {
    let mut s = socket_syn_sent();
    assert_eq!(
        send(
            &mut s,
            &TcpRepr {
                control: TcpControl::Rst,
                seq_number: REMOTE_SEQ,
                ack_number: Some(1234),
                ..SEND_TEMPL
            }
        ),
        Err(Error::Malformed)
    );
    assert_eq!(s.state, State::SynSent);
}

#[test]
fn syn_sent_cannot_dispatch() {
    let s = socket_syn_sent();
    assert!(!s.can_dispatch());
}

// Tests for the ESTABLISHED state.

fn socket_established() -> TcpSocket<'static> {
    let mut s = socket();
    s.state = State::Established;
    s.local_endpoint = LOCAL_END;
    s.remote_endpoint = REMOTE_END;
    s.local_seq_no = LOCAL_SEQ + 1;
    s.remote_seq_no = REMOTE_SEQ + 1;
    s.remote_last_seq = LOCAL_SEQ + 1;
    s.remote_last_ack = REMOTE_SEQ + 1;
    s.remote_win_len = 128;
    s
}

#[test]
fn test_established_recv() {
    let mut s = socket_established();
    send_all(
        &mut s,
        &[TcpRepr {
            seq_number: REMOTE_SEQ + 1,
            ack_number: Some(LOCAL_SEQ + 1),
            payload: &b"abcdef"[..],
            ..SEND_TEMPL
        }],
    );
    recv_all(
        &mut s,
        &[TcpRepr {
            seq_number: LOCAL_SEQ + 1,
            ack_number: Some(REMOTE_SEQ + 1 + 6),
            window_len: 58,
            ..RECV_TEMPL
        }],
    );
    assert_eq!(s.rx_buffer.dequeue(6), &b"abcdef"[..]);
}

#[test]
fn test_established_send() {
    let mut s = socket_established();
    // First roundtrip after establishing.
    s.tx_buffer.enqueue_slice(b"abcdef");
    recv_all(
        &mut s,
        &[TcpRepr {
            seq_number: LOCAL_SEQ + 1,
            ack_number: Some(REMOTE_SEQ + 1),
            payload: &b"abcdef"[..],
            ..RECV_TEMPL
        }],
    );
    assert_eq!(s.tx_buffer.len(), 6);
    send_all(
        &mut s,
        &[TcpRepr {
            seq_number: REMOTE_SEQ + 1,
            ack_number: Some(LOCAL_SEQ + 1 + 6),
            ..SEND_TEMPL
        }],
    );
    assert_eq!(s.tx_buffer.len(), 0);
    // Second roundtrip.
    s.tx_buffer.enqueue_slice(b"foobar");
    recv_all(
        &mut s,
        &[TcpRepr {
            seq_number: LOCAL_SEQ + 1 + 6,
            ack_number: Some(REMOTE_SEQ + 1),
            payload: &b"foobar"[..],
            ..RECV_TEMPL
        }],
    );
    send_all(
        &mut s,
        &[TcpRepr {
            seq_number: REMOTE_SEQ + 1,
            ack_number: Some(LOCAL_SEQ + 1 + 6 + 6),
            ..SEND_TEMPL
        }],
    );
    assert_eq!(s.tx_buffer.len(), 0);
}

#[test]
fn test_established_no_ack() {
    let mut s = socket_established();
    assert_eq!(
        send(
            &mut s,
            &TcpRepr { seq_number: REMOTE_SEQ + 1, ack_number: None, ..SEND_TEMPL }
        ),
        Err(Error::Malformed)
    );
}

#[test]
fn test_established_bad_ack() {
    let mut s = socket_established();
    // Already acknowledged data.
    assert_eq!(
        send(
            &mut s,
            &TcpRepr {
                seq_number: REMOTE_SEQ + 1,
                ack_number: Some(LOCAL_SEQ - 1),
                ..SEND_TEMPL
            }
        ),
        Err(Error::Malformed)
    );
    assert_eq!(s.local_seq_no, LOCAL_SEQ + 1);
    // Data not yet transmitted.
    assert_eq!(
        send(
            &mut s,
            &TcpRepr {
                seq_number: REMOTE_SEQ + 1,
                ack_number: Some(LOCAL_SEQ + 10),
                ..SEND_TEMPL
            }
        ),
        Err(Error::Malformed)
    );
    assert_eq!(s.local_seq_no, LOCAL_SEQ + 1);
}

#[test]
fn test_established_bad_seq() {
    let mut s = socket_established();
    // Data outside of receive window.
    assert_eq!(
        send(
            &mut s,
            &TcpRepr {
                seq_number: REMOTE_SEQ + 1 + 256,
                ack_number: Some(LOCAL_SEQ + 1),
                ..SEND_TEMPL
            }
        ),
        Err(Error::Malformed)
    );
    assert_eq!(s.remote_seq_no, REMOTE_SEQ + 1);
}

#[test]
fn test_established_fin() {
    let mut s = socket_established();
    send_all(
        &mut s,
        &[TcpRepr {
            control: TcpControl::Fin,
            seq_number: REMOTE_SEQ + 1,
            ack_number: Some(LOCAL_SEQ + 1),
            ..SEND_TEMPL
        }],
    );
    assert_eq!(s.state, State::CloseWait);
    recv_all(
        &mut s,
        &[TcpRepr {
            seq_number: LOCAL_SEQ + 1,
            ack_number: Some(REMOTE_SEQ + 1 + 1),
            ..RECV_TEMPL
        }],
    );
}

#[test]
fn test_established_send_fin() {
    let mut s = socket_established();
    s.tx_buffer.enqueue_slice(b"abcdef");
    send_all(
        &mut s,
        &[TcpRepr {
            control: TcpControl::Fin,
            seq_number: REMOTE_SEQ + 1,
            ack_number: Some(LOCAL_SEQ + 1),
            ..SEND_TEMPL
        }],
    );
    assert_eq!(s.state, State::CloseWait);
    recv_all(
        &mut s,
        &[TcpRepr {
            seq_number: LOCAL_SEQ + 1,
            ack_number: Some(REMOTE_SEQ + 1 + 1),
            payload: &b"abcdef"[..],
            ..RECV_TEMPL
        }],
    );
}

#[test]
fn test_established_rst() {
    let mut s = socket_established();
    send_all(
        &mut s,
        &[TcpRepr {
            control: TcpControl::Rst,
            seq_number: REMOTE_SEQ + 1,
            ack_number: Some(LOCAL_SEQ + 1),
            ..SEND_TEMPL
        }],
    );
    assert_eq!(s.state, State::Closed);
}

#[test]
fn established_duplicate_changes_nothing() {
    let mut s = socket_established();
    let repr = TcpRepr {
        seq_number: REMOTE_SEQ + 1,
        ack_number: Some(LOCAL_SEQ + 1),
        payload: &b"abcdef"[..],
        ..SEND_TEMPL
    };
    send_all(&mut s, &[repr, repr, repr]);
    assert_eq!(s.rx_buffer.len(), 6);
    assert_eq!(s.remote_seq_no, REMOTE_SEQ + 1);
    assert_eq!(s.recv(16), &b"abcdef"[..]);
    assert_eq!(s.remote_seq_no, REMOTE_SEQ + 1 + 6);
    assert_eq!(s.rx_buffer.len(), 0);
}

#[test]
fn reading_makes_room_and_keeps_the_acknowledgement() {
    let mut s = socket_established();
    send_all(
        &mut s,
        &[TcpRepr {
            seq_number: REMOTE_SEQ + 1,
            ack_number: Some(LOCAL_SEQ + 1),
            payload: &b"abcdef"[..],
            ..SEND_TEMPL
        }],
    );
    let mut data = [0; 4];
    assert_eq!(s.recv_slice(&mut data), 4);
    assert_eq!(&data, b"abcd");
    assert_eq!(s.remote_seq_no, REMOTE_SEQ + 1 + 4);
    recv_all(
        &mut s,
        &[TcpRepr {
            seq_number: LOCAL_SEQ + 1,
            ack_number: Some(REMOTE_SEQ + 1 + 6),
            window_len: 62,
            ..RECV_TEMPL
        }],
    );
    assert_eq!(s.remote_last_ack, REMOTE_SEQ + 1 + 6);
    assert_eq!(s.recv(4), &b"ef"[..]);
    recv_all(&mut s, &[]);
}

#[test]
fn established_refused_segment_changes_nothing() {
    let mut s = socket_established();
    assert_eq!(s.send_slice(b"abcdef"), 6);
    let before = format!("{:?}", s);
    let repr = TcpRepr {
        seq_number: REMOTE_SEQ + 2,
        ack_number: Some(LOCAL_SEQ + 1 + 3),
        window_len: 1,
        payload: &b"xyz"[..],
        ..SEND_TEMPL
    };
    assert_eq!(send(&mut s, &repr), Err(Error::Malformed));
    assert_eq!(format!("{:?}", s), before);
}

#[test]
fn established_syn_is_malformed() {
    let mut s = socket_established();
    assert_eq!(
        send(
            &mut s,
            &TcpRepr {
                control: TcpControl::Syn,
                seq_number: REMOTE_SEQ + 1,
                ack_number: Some(LOCAL_SEQ + 1),
                ..SEND_TEMPL
            }
        ),
        Err(Error::Malformed)
    );
    assert_eq!(s.state, State::Established);
}

#[test]
fn established_wrong_addresses_are_rejected() {
    let mut s = socket_established();
    let repr =
        TcpRepr { seq_number: REMOTE_SEQ + 1, ack_number: Some(LOCAL_SEQ + 1), ..SEND_TEMPL };
    let rejected = Err(Error::Rejected);
    assert_eq!(send(&mut s, &TcpRepr { src_port: 1, ..repr }), rejected);
    assert_eq!(send(&mut s, &TcpRepr { dst_port: 1, ..repr }), rejected);
    let elsewhere = IpAddress::v4(10, 0, 0, 3);
    for (src_addr, dst_addr) in [(elsewhere, LOCAL_IP), (REMOTE_IP, elsewhere)] {
        let ip_repr = IpRepr::Unspecified { src_addr, dst_addr, protocol: IpProtocol::Tcp };
        assert_eq!(s.process(&ip_repr, &repr), rejected);
    }
    let ip_repr = IpRepr::Unspecified {
        src_addr: REMOTE_IP,
        dst_addr: LOCAL_IP,
        protocol: IpProtocol::Udp,
    };
    assert_eq!(s.collect(&ip_repr, &[0; 20]), rejected);
    assert_eq!(s.collect(&SEND_IP, &[0; 19]), Err(Error::Truncated));
    assert_eq!(s.process(&SEND_IP, &repr), Ok(()));
}

#[test]
fn closed_socket_finds_packets_malformed() {
    let mut s = socket();
    s.local_endpoint = LOCAL_END;
    assert_eq!(send(&mut s, &SEND_TEMPL), Err(Error::Malformed));
    recv(&mut s, |repr| assert_eq!(repr, Err(Error::Exhausted)));
}

#[test]
fn receive_buffer_takes_what_fits() {
    let mut s = socket_established();
    let payload = [7u8; 70];
    send_all(
        &mut s,
        &[TcpRepr {
            seq_number: REMOTE_SEQ + 1,
            ack_number: Some(LOCAL_SEQ + 1),
            payload: &payload,
            ..SEND_TEMPL
        }],
    );
    assert_eq!(s.rx_buffer.len(), 64);
    assert_eq!(s.rx_buffer.window(), 0);
    recv_all(
        &mut s,
        &[TcpRepr {
            seq_number: LOCAL_SEQ + 1,
            ack_number: Some(REMOTE_SEQ + 1 + 64),
            window_len: 0,
            ..RECV_TEMPL
        }],
    );
}

#[test]
fn window_and_segment_size_limit_what_is_sent() {
    let mut s = socket_established();
    s.remote_win_len = 4;
    assert_eq!(s.send_slice(b"abcdef"), 6);
    recv_all(
        &mut s,
        &[TcpRepr {
            seq_number: LOCAL_SEQ + 1,
            ack_number: Some(REMOTE_SEQ + 1),
            payload: &b"abcd"[..],
            ..RECV_TEMPL
        }],
    );
    assert_eq!(s.remote_win_len, 0);
    assert_eq!(s.remote_last_seq, LOCAL_SEQ + 1 + 4);

    let rx_buffer = SocketBuffer::new(vec![0; 64]);
    let tx_buffer = SocketBuffer::new(vec![0; 1024]);
    let Socket::Tcp(mut s) = TcpSocket::new(rx_buffer, tx_buffer);
    s.state = State::Established;
    s.local_endpoint = LOCAL_END;
    s.remote_endpoint = REMOTE_END;
    s.remote_win_len = 1000;
    assert_eq!(s.send_slice(&[1; 1000]), 1000);
    let mut sent = 0;
    recv(&mut s, |repr| sent = repr.unwrap().payload.len());
    assert_eq!(sent, 536);
    assert_eq!(s.remote_win_len, 464);
}

#[test]
fn the_rest_is_sent_once_there_is_room() {
    let mut s = socket_established();
    s.remote_win_len = 4;
    assert_eq!(s.send_slice(b"abcdef"), 6);
    recv_all(
        &mut s,
        &[TcpRepr {
            seq_number: LOCAL_SEQ + 1,
            ack_number: Some(REMOTE_SEQ + 1),
            payload: &b"abcd"[..],
            ..RECV_TEMPL
        }],
    );
    send_all(
        &mut s,
        &[TcpRepr {
            seq_number: REMOTE_SEQ + 1,
            ack_number: Some(LOCAL_SEQ + 1 + 4),
            window_len: 10,
            ..SEND_TEMPL
        }],
    );
    assert_eq!(s.tx_buffer.len(), 2);
    recv_all(
        &mut s,
        &[TcpRepr {
            seq_number: LOCAL_SEQ + 1 + 4,
            ack_number: Some(REMOTE_SEQ + 1),
            payload: &b"ef"[..],
            ..RECV_TEMPL
        }],
    );
    assert_eq!(s.remote_win_len, 8);
    assert_eq!(s.remote_last_seq, LOCAL_SEQ + 1 + 6);
    assert_eq!(s.remote_last_ack, REMOTE_SEQ + 1);
}

#[test]
fn octets_behind_those_in_flight_are_sent() {
    let mut s = socket_established();
    s.remote_win_len = 4;
    assert_eq!(s.send_slice(b"abcdef"), 6);
    recv(&mut s, |repr| assert_eq!(repr.unwrap().payload, b"abcd"));
    // More room, but nothing acknowledged.
    send_all(
        &mut s,
        &[TcpRepr {
            seq_number: REMOTE_SEQ + 1,
            ack_number: Some(LOCAL_SEQ + 1),
            ..SEND_TEMPL
        }],
    );
    recv_all(
        &mut s,
        &[TcpRepr {
            seq_number: LOCAL_SEQ + 1 + 4,
            ack_number: Some(REMOTE_SEQ + 1),
            payload: &b"ef"[..],
            ..RECV_TEMPL
        }],
    );
    assert_eq!(s.remote_last_seq, LOCAL_SEQ + 1 + 6);
    assert_eq!(s.remote_win_len, 254);
    assert!(s.can_dispatch());
}

#[test]
fn octets_queued_later_are_sent_alone() {
    let mut s = socket_established();
    s.tx_buffer.enqueue_slice(b"abcdef");
    recv_all(
        &mut s,
        &[TcpRepr {
            seq_number: LOCAL_SEQ + 1,
            ack_number: Some(REMOTE_SEQ + 1),
            payload: &b"abcdef"[..],
            ..RECV_TEMPL
        }],
    );
    s.tx_buffer.enqueue_slice(b"xyz");
    recv_all(
        &mut s,
        &[TcpRepr {
            seq_number: LOCAL_SEQ + 1 + 6,
            ack_number: Some(REMOTE_SEQ + 1),
            payload: &b"xyz"[..],
            ..RECV_TEMPL
        }],
    );
    assert_eq!(s.remote_last_seq, 10010);
    assert_eq!(s.remote_last_seq, s.local_seq_no + s.tx_buffer.len() as i32);
    // All of it can be acknowledged, and no more.
    let ack = TcpRepr { seq_number: REMOTE_SEQ + 1, ack_number: Some(10011), ..SEND_TEMPL };
    assert_eq!(send(&mut s, &ack), Err(Error::Malformed));
    assert_eq!(send(&mut s, &TcpRepr { ack_number: Some(10010), ..ack }), Ok(()));
    assert_eq!(s.tx_buffer.len(), 0);
}

#[test]
fn octets_never_sent_cannot_be_acknowledged() {
    let mut s = socket_established();
    s.tx_buffer.enqueue_slice(b"abcdef");
    let ack = TcpRepr { seq_number: REMOTE_SEQ + 1, ack_number: Some(10007), ..SEND_TEMPL };
    assert_eq!(send(&mut s, &ack), Err(Error::Malformed));
    assert_eq!(s.local_seq_no, 10001);
    assert_eq!(s.tx_buffer.len(), 6);
    recv(&mut s, |repr| assert_eq!(repr.unwrap().payload, b"abcdef"));
    assert_eq!(send(&mut s, &ack), Ok(()));
    assert_eq!(s.local_seq_no, 10007);
    assert_eq!(s.tx_buffer.len(), 0);
    assert!(s.can_dispatch());
}

#[test]
fn only_the_syn_can_be_acknowledged_before_the_connection_opens() {
    let mut s = socket_syn_received();
    assert_eq!(s.send_slice(b"early"), 5);
    let ack =
        TcpRepr { seq_number: REMOTE_SEQ, ack_number: Some(LOCAL_SEQ + 2), ..SEND_TEMPL };
    assert_eq!(send(&mut s, &ack), Err(Error::Malformed));
    assert_eq!(s.state, State::SynReceived);
    assert_eq!(send(&mut s, &TcpRepr { ack_number: Some(LOCAL_SEQ + 1), ..ack }), Ok(()));
    assert_eq!(s.state, State::Established);
    assert_eq!(s.tx_buffer.len(), 5);
}

#[test]
fn nothing_is_sent_again_behind_the_queue() {
    let mut s = socket_established();
    assert_eq!(s.send_slice(b"abc"), 3);
    recv(&mut s, |repr| assert_eq!(repr.unwrap().payload, b"abc"));
    send_all(
        &mut s,
        &[TcpRepr {
            control: TcpControl::Fin,
            seq_number: REMOTE_SEQ + 1,
            ack_number: Some(LOCAL_SEQ + 1),
            ..SEND_TEMPL
        }],
    );
    recv_all(
        &mut s,
        &[TcpRepr {
            seq_number: LOCAL_SEQ + 1 + 3,
            ack_number: Some(REMOTE_SEQ + 1 + 1),
            ..RECV_TEMPL
        }],
    );
    assert_eq!(s.remote_last_seq, LOCAL_SEQ + 1 + 3);
}

#[test]
fn send_hands_out_contiguous_room() {
    let mut s = socket_established();
    s.send(60).copy_from_slice(&[b'x'; 60]);
    s.tx_buffer.advance(50);
    assert_eq!(s.send(20).len(), 4);
    assert_eq!(s.send(20).len(), 20);
    assert_eq!(s.tx_buffer.len(), 34);
    assert_eq!(s.send_slice(&[b'y'; 64]), 30);
    assert_eq!(s.send_slice(b"z"), 0);
}

#[test]
fn sequence_numbers_go_round() {
    let mut s = socket_established();
    s.local_seq_no = i32::MAX - 2;
    s.remote_last_seq = i32::MAX - 2;
    s.remote_seq_no = i32::MAX - 1;
    s.remote_last_ack = i32::MAX - 1;
    assert_eq!(s.send_slice(b"abcdef"), 6);
    send_all(
        &mut s,
        &[TcpRepr {
            seq_number: i32::MAX - 1,
            ack_number: Some(i32::MAX - 2),
            payload: &b"xyz"[..],
            ..SEND_TEMPL
        }],
    );
    recv_all(
        &mut s,
        &[TcpRepr {
            seq_number: i32::MAX - 2,
            ack_number: Some(i32::MIN + 1),
            window_len: 61,
            payload: &b"abcdef"[..],
            ..RECV_TEMPL
        }],
    );
    send_all(
        &mut s,
        &[TcpRepr { seq_number: i32::MIN + 1, ack_number: Some(i32::MIN + 3), ..SEND_TEMPL }],
    );
    assert_eq!(s.tx_buffer.len(), 0);
    assert_eq!(s.local_seq_no, i32::MIN + 3);
}

// Tests for transitioning through multiple states.

#[test]
fn test_listen() {
    let mut s = socket();
    s.listen(IpEndpoint::new(IpAddress::default(), LOCAL_PORT));
    assert_eq!(s.state, State::Listen);
}

#[test]
fn test_three_way_handshake() {
    let mut s = socket();
    s.state = State::Listen;
    s.local_endpoint = IpEndpoint::new(IpAddress::default(), LOCAL_PORT);

    send_all(
        &mut s,
        &[TcpRepr {
            control: TcpControl::Syn,
            seq_number: REMOTE_SEQ,
            ack_number: None,
            ..SEND_TEMPL
        }],
    );
    assert_eq!(s.state(), State::SynReceived);
    assert_eq!(s.local_endpoint(), LOCAL_END);
    assert_eq!(s.remote_endpoint(), REMOTE_END);
    recv_all(
        &mut s,
        &[TcpRepr {
            control: TcpControl::Syn,
            seq_number: LOCAL_SEQ,
            ack_number: Some(REMOTE_SEQ + 1),
            ..RECV_TEMPL
        }],
    );
    send_all(
        &mut s,
        &[TcpRepr {
            seq_number: REMOTE_SEQ + 1,
            ack_number: Some(LOCAL_SEQ + 1),
            ..SEND_TEMPL
        }],
    );
    assert_eq!(s.state(), State::Established);
    assert_eq!(s.local_seq_no, LOCAL_SEQ + 1);
    assert_eq!(s.remote_seq_no, REMOTE_SEQ + 1);
}

fn both_ends() -> (TcpSocket<'static>, TcpSocket<'static>) {
    let here = socket_established();
    let mut there = socket_established();
    there.local_endpoint = REMOTE_END;
    there.remote_endpoint = LOCAL_END;
    there.local_seq_no = REMOTE_SEQ + 1;
    there.remote_last_seq = REMOTE_SEQ + 1;
    there.remote_seq_no = LOCAL_SEQ + 1;
    there.remote_last_ack = LOCAL_SEQ + 1;
    (here, there)
}

fn carry(from: &mut TcpSocket, to: &mut TcpSocket) -> Result<(), Error> {
    assert!(from.can_dispatch());
    let (ip_repr, packet) = from.dispatch(&mut |ip_repr: &IpRepr, repr: &TcpRepr| {
        let mut buffer = vec![0; repr.buffer_len()];
        repr.emit(ip_repr, &mut buffer);
        Ok((*ip_repr, buffer))
    })?;
    assert!(to.can_collect(&ip_repr, &packet));
    to.collect(&ip_repr, &packet)
}

#[test]
fn octets_arrive_at_the_other_end() {
    let (mut here, mut there) = both_ends();
    assert_eq!(here.send_slice(b"over the wire"), 13);
    assert_eq!(carry(&mut here, &mut there), Ok(()));

    let mut data = [b'.'; 16];
    assert_eq!(there.recv_slice(&mut data), 13);
    assert_eq!(&data, b"over the wire...");
    assert_eq!(there.recv_slice(&mut data), 0);

    // The acknowledgement takes the octets out of the transmit buffer.
    assert_eq!(carry(&mut there, &mut here), Ok(()));
    assert_eq!(here.tx_buffer.len(), 0);
    assert_eq!(here.local_seq_no, LOCAL_SEQ + 1 + 13);
}

#[test]
fn octets_arrive_while_others_are_in_flight() {
    let (mut here, mut there) = both_ends();
    for part in ["one ", "two ", "three"] {
        assert_eq!(here.send_slice(part.as_bytes()), part.len());
        assert_eq!(carry(&mut here, &mut there), Ok(()));
    }
    assert_eq!(here.tx_buffer.len(), 13);
    assert_eq!(carry(&mut here, &mut there), Err(Error::Exhausted));
    assert_eq!(there.recv(64), b"one two three");

    // One acknowledgement is enough for all of them.
    assert_eq!(carry(&mut there, &mut here), Ok(()));
    assert_eq!(here.tx_buffer.len(), 0);
    assert_eq!(here.local_seq_no, here.remote_last_seq);
}

#[test]
fn lost_octets_leave_a_gap() {
    let (mut here, mut there) = both_ends();
    assert_eq!(here.send_slice(b"lost"), 4);
    recv(&mut here, |repr| assert_eq!(repr.unwrap().payload, b"lost"));
    assert_eq!(here.send_slice(b"found"), 5);
    assert_eq!(carry(&mut here, &mut there), Err(Error::Malformed));
    assert_eq!(there.recv(64), b"");
}

#[test]
fn error_of_emit_is_passed_on() {
    let mut s = socket_established();
    assert_eq!(s.send_slice(b"abc"), 3);
    let result: Result<(), Error> =
        s.dispatch(&mut |_: &IpRepr, _: &TcpRepr| Err(Error::Truncated));
    assert_eq!(result, Err(Error::Truncated));
    assert_eq!(s.remote_last_seq, LOCAL_SEQ + 1 + 3);
}

#[test]
fn borrowed_storage_holds_the_octets() {
    let mut storage = [0u8; 4];
    {
        let mut buffer = SocketBuffer::new(&mut storage[..]);
        assert_eq!(buffer.capacity(), 4);
        buffer.enqueue_slice(b"abc");
        buffer.advance(2);
        buffer.enqueue_slice(b"defg");
        assert_eq!(buffer.len(), 4);
        assert_eq!(buffer.peek(0, 8), b"cd");
        assert_eq!(buffer.peek(2, 2), b"ef");
    }
    assert_eq!(&storage, b"efcd");
}

#[test]
fn managed_storage_becomes_a_buffer() {
    let storage: managed::Managed<[u8]> = managed::Managed::from(vec![1, 2, 3]);
    let buffer: SocketBuffer = storage.into();
    assert_eq!(buffer.capacity(), 3);
    assert_eq!(buffer.window(), 3);
    assert_eq!(buffer.len(), 0);
}

#[test]
fn storage_is_owned_or_borrowed() {
    let mut buffer = SocketBuffer::owned(vec![7, 8, 9]);
    assert_eq!((buffer.capacity(), buffer.len()), (3, 0));
    assert_eq!(buffer.enqueue(2), &[7, 8]);
    let mut storage = [4, 5, 6];
    let mut buffer = SocketBuffer::borrowed(&mut storage);
    assert_eq!((buffer.capacity(), buffer.len()), (3, 0));
    assert_eq!(buffer.enqueue(8), &[4, 5, 6]);
}

#[test]
fn socket_takes_what_becomes_a_buffer() {
    let storage = |len: usize| -> managed::Managed<'static, [u8]> {
        managed::Managed::from(vec![0; len])
    };
    let Socket::Tcp(s) = TcpSocket::new(storage(8), storage(16));
    assert_eq!((s.rx_buffer.capacity(), s.tx_buffer.capacity()), (8, 16));
    assert_eq!(s.state(), State::Closed);
}

#[test]
fn peek_stays_within_the_queue() {
    let mut buffer = SocketBuffer::new(vec![b'-'; 8]);
    buffer.enqueue_slice(b"abc");
    assert_eq!(buffer.peek(1, 8), b"bc");
    assert_eq!(buffer.peek(3, 8), b"");
    assert_eq!(buffer.clamp_reader(1, 8), (1, 2));
    assert_eq!(buffer.clamp_writer(8), (3, 5));
}

#[test]
fn retransmit_is_due_once() {
    let mut retransmit = Retransmit::new();
    assert!(retransmit.check());
    assert!(!retransmit.check());
    retransmit.reset();
    assert!(retransmit.check());
    assert!(!retransmit.check());
}

#[test]
fn state_names() {
    let names = [
        (State::Closed, "CLOSED"),
        (State::Listen, "LISTEN"),
        (State::SynSent, "SYN_SENT"),
        (State::SynReceived, "SYN_RECEIVED"),
        (State::Established, "ESTABLISHED"),
        (State::FinWait1, "FIN_WAIT_1"),
        (State::FinWait2, "FIN_WAIT_2"),
        (State::CloseWait, "CLOSE_WAIT"),
        (State::Closing, "CLOSING"),
        (State::LastAck, "LAST_ACK"),
        (State::TimeWait, "TIME_WAIT"),
    ];
    for (state, name) in names {
        assert_eq!(state.name(), name);
    }
}
