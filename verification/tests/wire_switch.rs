use tcp_switch::wire::capture::{FrameCapture, Reception};
use tcp_switch::wire::ethernet::{
    dump, EthernetAddress, EthernetHeader, EthernetProtocol, FrameSummary,
};
use tcp_switch::wire::ring::{create_port_channel, PortReceiver, RingBuffer};
use tcp_switch::wire::switch::{Route, Switch};

const A: [u8; 6] = [2, 0, 0, 0, 0, 1];
const B: [u8; 6] = [2, 0, 0, 0, 0, 2];
const C: [u8; 6] = [2, 0, 0, 0, 0, 3];
const BROADCAST: [u8; 6] = [0xff; 6];

fn frame(dst: [u8; 6], src: [u8; 6], payload: &[u8]) -> Vec<u8> {
    let mut frame = vec![];
    frame.extend_from_slice(&dst);
    frame.extend_from_slice(&src);
    frame.extend_from_slice(&[0x08, 0x00]);
    frame.extend_from_slice(payload);
    frame
}

fn switch_with_ports(capacity: usize) -> (Switch, Vec<PortReceiver>) {
    let mut switch = Switch::new();
    let mut receivers = vec![];
    for (i, addr) in [A, B, C].iter().enumerate() {
        let (sender, receiver) = create_port_channel(capacity);
        assert_eq!(switch.add_port(EthernetAddress(*addr), sender), i);
        receivers.push(receiver);
    }
    (switch, receivers)
}

fn process(switch: &mut Switch, frame: Vec<u8>, in_port: usize) -> Vec<usize> {
    assert!(switch.can_process_frame(&frame, in_port));
    let deliveries = switch.process_frame(frame, in_port);
    deliveries.iter().map(|delivery| delivery.port).collect()
}

#[test]
fn ring_is_first_in_first_out() {
    let (producer, consumer) = RingBuffer::new(4).split();
    assert_eq!(consumer.try_pop(), None);
    assert_eq!(producer.try_push(1), Ok(()));
    assert_eq!(producer.try_push(2), Ok(()));
    assert_eq!(producer.try_push(3), Ok(()));
    assert_eq!(producer.try_push(4), Err(4));
    assert_eq!(consumer.try_pop(), Some(1));
    assert_eq!(producer.try_push(5), Ok(()));
    assert_eq!(consumer.try_pop(), Some(2));
    assert_eq!(consumer.try_pop(), Some(3));
    assert_eq!(consumer.try_pop(), Some(5));
    assert_eq!(consumer.try_pop(), None);
}

#[test]
fn ring_goes_round() {
    let mut ring = RingBuffer::new(3);
    for i in 0..10 {
        assert_eq!(ring.push(i), Ok(()));
        assert_eq!(ring.push(i + 100), Ok(()));
        assert_eq!(ring.push(i + 200), Err(i + 200));
        assert_eq!(ring.pop(), Some(i));
        assert_eq!(ring.pop(), Some(i + 100));
        assert_eq!(ring.pop(), None);
    }
}

#[test]
fn ring_moves_one_end_at_a_time() {
    let mut ring = RingBuffer::new(3);
    assert_eq!((ring.head, ring.tail, ring.capacity), (0, 0, 3));
    assert_eq!(ring.push('a'), Ok(()));
    assert_eq!((ring.head, ring.tail), (0, 1));
    assert_eq!(ring.push('b'), Ok(()));
    assert_eq!((ring.head, ring.tail), (0, 2));
    assert_eq!(ring.push('c'), Err('c'));
    assert_eq!((ring.head, ring.tail), (0, 2));
    assert_eq!(ring.pop(), Some('a'));
    assert_eq!((ring.head, ring.tail), (1, 2));
    assert_eq!(ring.push('d'), Ok(()));
    assert_eq!((ring.head, ring.tail), (1, 0));
    assert_eq!(ring.buffer[1], Some('b'));
}

#[test]
fn split_keeps_the_queue() {
    let mut ring = RingBuffer::new(3);
    assert_eq!(ring.push(1), Ok(()));
    let (producer, consumer) = ring.split();
    assert_eq!(producer.try_push(2), Ok(()));
    assert_eq!(producer.try_push(3), Err(3));
    assert_eq!(consumer.try_pop(), Some(1));
    assert_eq!(consumer.try_pop(), Some(2));
    assert_eq!(consumer.try_pop(), None);
}

#[test]
fn new_port_is_empty() {
    for capacity in 1..5 {
        let (sender, receiver) = create_port_channel(capacity);
        assert_eq!(receiver.try_recv(), None);
        for i in 1..capacity {
            assert_eq!(sender.send(vec![i as u8]), Ok(()));
        }
        assert_eq!(sender.send(vec![9]), Err(vec![9]));
    }
}

#[test]
fn ring_of_one_slot_holds_nothing() {
    let (producer, consumer) = RingBuffer::new(1).split();
    assert_eq!(producer.slots(), 1);
    assert_eq!(producer.try_push('x'), Err('x'));
    assert_eq!(consumer.try_pop(), None);
}

#[test]
fn ring_without_slots_is_empty() {
    let (producer, consumer) = RingBuffer::<u8>::new(0).split();
    assert_eq!(producer.slots(), 0);
    assert_eq!(consumer.try_pop(), None);
}

#[test]
fn clones_share_the_queue() {
    let (producer, consumer) = RingBuffer::new(4).split();
    let other = producer.clone();
    assert_eq!(producer.try_push("first"), Ok(()));
    assert_eq!(other.try_push("second"), Ok(()));
    assert_eq!(consumer.clone().try_pop(), Some("first"));
    assert_eq!(consumer.try_pop(), Some("second"));
}

#[test]
fn port_hands_a_frame_back_when_full() {
    let (sender, receiver) = create_port_channel(2);
    assert_eq!(sender.send(vec![1, 2]), Ok(()));
    assert_eq!(sender.send(vec![3]), Err(vec![3]));
    assert_eq!(receiver.try_recv(), Some(vec![1, 2]));
    assert_eq!(receiver.try_recv(), None);
}

#[test]
fn unknown_destination_is_flooded() {
    let (mut switch, receivers) = switch_with_ports(4);
    let sent = frame(B, A, b"hello");
    assert_eq!(process(&mut switch, sent.clone(), 0), [1, 2]);
    assert_eq!(receivers[0].try_recv(), None);
    assert_eq!(receivers[1].try_recv(), Some(sent.clone()));
    assert_eq!(receivers[2].try_recv(), Some(sent));
}

#[test]
fn broadcast_goes_everywhere_else() {
    let (mut switch, receivers) = switch_with_ports(4);
    let sent = frame(BROADCAST, B, b"");
    assert_eq!(process(&mut switch, sent.clone(), 1), [0, 2]);
    assert_eq!(receivers[0].try_recv(), Some(sent.clone()));
    assert_eq!(receivers[1].try_recv(), None);
    assert_eq!(receivers[2].try_recv(), Some(sent));
    // A frame from a port that the switch does not have goes to every port.
    assert_eq!(process(&mut switch, frame(BROADCAST, C, b""), 7), [0, 1, 2]);
}

#[test]
fn learned_host_gets_the_frame_alone() {
    let (mut switch, receivers) = switch_with_ports(4);
    assert_eq!(process(&mut switch, frame(BROADCAST, A, b""), 0), [1, 2]);
    assert_eq!(receivers[1].try_recv().map(|frame| frame.len()), Some(14));
    let reply = frame(A, B, b"reply");
    assert_eq!(process(&mut switch, reply.clone(), 1), [0]);
    assert_eq!(receivers[0].try_recv(), Some(reply));
    assert_eq!(receivers[1].try_recv(), None);
    // The host has moved to another port.
    assert_eq!(process(&mut switch, frame(B, A, b""), 2), [1]);
    assert_eq!(process(&mut switch, frame(A, B, b""), 1), [2]);
}

#[test]
fn frame_never_goes_back() {
    let (mut switch, receivers) = switch_with_ports(4);
    switch.add_mac_list(EthernetAddress(B), 0);
    assert_eq!(process(&mut switch, frame(B, A, b""), 0), []);
    assert_eq!(process(&mut switch, frame(A, A, b""), 0), []);
    for receiver in receivers {
        assert_eq!(receiver.try_recv(), None);
    }
}

#[test]
fn short_frame_is_dropped() {
    let (mut switch, _receivers) = switch_with_ports(4);
    assert_eq!(process(&mut switch, vec![0xff; 13], 0), []);
    assert_eq!(switch.mac_table.len(), 0);
    assert_eq!(switch.route(&[0xff; 13], 0), Route::Nowhere);
}

#[test]
fn full_port_hands_the_frame_back() {
    let (mut switch, _receivers) = switch_with_ports(1);
    let sent = frame(BROADCAST, A, b"x");
    let deliveries = switch.process_frame(sent.clone(), 0);
    assert_eq!(deliveries.len(), 2);
    for delivery in deliveries {
        assert_eq!(delivery.result, Err(sent.clone()));
    }
}

#[test]
fn missing_port_is_noticed() {
    let (mut switch, _receivers) = switch_with_ports(4);
    switch.add_mac_list(EthernetAddress(B), 9);
    assert!(!switch.can_process_frame(&frame(B, A, b""), 0));
    assert!(switch.can_process_frame(&frame(B, A, b""), 9));
    let (mut switch, _receivers) = switch_with_ports(0);
    assert!(!switch.can_process_frame(&frame(BROADCAST, A, b""), 0));
    assert_eq!(switch.route(&frame(BROADCAST, A, b""), 0), Route::Flood);
}

#[test]
fn addresses_and_their_numbers() {
    let addr = EthernetAddress([0x01, 0x23, 0x45, 0x67, 0x89, 0xab]);
    assert_eq!(addr.key(), 0x0123_4567_89ab);
    assert_eq!(EthernetAddress::from_key(0x0123_4567_89ab), addr);
    assert_eq!(EthernetAddress(BROADCAST).key(), 0xffff_ffff_ffff);
}

#[test]
fn header_of_a_frame() {
    let header = EthernetHeader::parse(&frame(A, B, b"abc")).unwrap();
    assert_eq!(header.dst_addr, EthernetAddress(A));
    assert_eq!(header.src_addr, EthernetAddress(B));
    assert_eq!(header.ethertype, EthernetProtocol::Ipv4);
    assert_eq!(header.payload_len, 3);
    assert_eq!(EthernetHeader::parse(&[0; 13]), None);
}

#[test]
fn dump_breaks_lines() {
    assert_eq!(dump(&[]), "");
    assert_eq!(dump(&[0x00, 0x9f, 0xab]), "00 9f ab ");
    let line = "11 11 11 11 11 11 11 11 11 11 11 11 11 11 11 11 \n";
    assert_eq!(dump(&[0x11; 16]), line);
    assert_eq!(dump(&[0x11; 17]), format!("{}11 ", line));
}

#[test]
fn protocols_have_numbers() {
    assert_eq!(EthernetProtocol::from_number(0x0800), EthernetProtocol::Ipv4);
    assert_eq!(EthernetProtocol::from_number(0x0806), EthernetProtocol::Arp);
    assert_eq!(EthernetProtocol::from_number(0x86dd), EthernetProtocol::Ipv6);
    assert_eq!(EthernetProtocol::from_number(0x88cc), EthernetProtocol::Unknown(0x88cc));
}

#[test]
fn summary_of_a_frame() {
    let summary = FrameSummary::new(&frame(A, B, &[0xcd; 40]));
    assert_eq!(summary.length, 54);
    assert_eq!(summary.raw.len(), 54 * 3 + 3);
    assert_eq!(summary.header.unwrap().payload_len, 40);
    assert_eq!(summary.preview, dump(&[0xcd; 32]));
    let summary = FrameSummary::new(&frame(A, B, &[0xcd]));
    assert_eq!(summary.preview, "cd ");
    let summary = FrameSummary::new(&[1, 2]);
    assert_eq!(summary.header, None);
    assert_eq!(summary.raw, "01 02 ");
    assert_eq!(summary.preview, "");
}

#[test]
fn capture_prefers_the_switch() {
    let (sender, receiver) = create_port_channel(4);
    let (producer, consumer) = RingBuffer::new(4).split();
    let mut capture = FrameCapture::new("tap0", producer, receiver);
    assert_eq!(capture.port_no, 0);
    capture.set_port_no(3);

    assert!(matches!(capture.receive(), Reception::AskTap));
    assert!(capture.process_switch_data().is_none());
    let token = capture.take_in(Some(vec![9])).unwrap();
    assert_eq!((token.buffer, token.name), (vec![9], "tap0".to_string()));
    assert!(capture.take_in(None).is_none());

    assert_eq!(sender.send(vec![1]), Ok(()));
    assert_eq!(sender.send(vec![2]), Ok(()));
    match capture.receive() {
        Reception::Switch(token) => {
            assert_eq!((token.buffer, token.name), (vec![1], "tap0".to_string()))
        }
        Reception::AskTap => panic!("the switch had a frame"),
    }
    assert_eq!(capture.process_switch_data().unwrap().buffer, vec![2]);
    assert!(matches!(capture.choose_source(Some(vec![5])), Reception::Switch(_)));

    assert_eq!(capture.forward(&[7, 8]), Ok(()));
    assert_eq!(consumer.try_pop(), Some((vec![7, 8], 3)));
}
