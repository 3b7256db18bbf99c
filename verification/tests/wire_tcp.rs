use tcp_switch::error::Error;
use tcp_switch::wire::checksum::add_octets;
use tcp_switch::wire::ip::{IpAddress, IpProtocol, IpRepr};
use tcp_switch::wire::tcp::{TcpControl, TcpRepr};

// A SYN from 192.168.1.1:48896 to 192.168.1.2:80, with four octets of payload.
const PACKET: [u8; 24] = [
    0xbf, 0x00, 0x00, 0x50, 0x01, 0x23, 0x45, 0x67, 0x00, 0x00, 0x00, 0x00, 0x50, 0x02, 0x01, 0x23,
    0x6f, 0x9a, 0x00, 0x00, 0xaa, 0x00, 0x00, 0xff,
];

fn ip_repr() -> IpRepr {
    IpRepr::Unspecified {
        src_addr: IpAddress::v4(192, 168, 1, 1),
        dst_addr: IpAddress::v4(192, 168, 1, 2),
        protocol: IpProtocol::Tcp,
    }
}

fn repr() -> TcpRepr<'static> {
    TcpRepr {
        src_port: 48896,
        dst_port: 80,
        control: TcpControl::Syn,
        seq_number: 0x01234567,
        ack_number: None,
        window_len: 0x0123,
        payload: &[0xaa, 0x00, 0x00, 0xff],
    }
}

fn parse(packet: &[u8]) -> Result<TcpRepr, Error> {
    let ip = ip_repr();
    TcpRepr::parse(packet, &ip.src_addr(), &ip.dst_addr())
}

fn with_checksum(mut packet: Vec<u8>) -> Vec<u8> {
    packet[16] = 0;
    packet[17] = 0;
    let len = packet.len() as u16;
    let mut covered = vec![192, 168, 1, 1, 192, 168, 1, 2, 0, 6, (len >> 8) as u8, len as u8];
    covered.extend_from_slice(&packet);
    let checksum = !add_octets(0, &covered);
    packet[16] = (checksum >> 8) as u8;
    packet[17] = checksum as u8;
    packet
}

#[test]
fn sums_in_ones_complement() {
    assert_eq!(add_octets(0, &[]), 0);
    assert_eq!(add_octets(0, &[0x12]), 0x1200);
    assert_eq!(add_octets(0, &[0xff, 0xff, 0x00, 0x01]), 1);
    assert_eq!(add_octets(0xffff, &[0xff, 0xff]), 0xffff);
    assert_eq!(add_octets(0, &[0x00, 0x01, 0xf2, 0x03, 0xf4, 0xf5, 0xf6, 0xf7]), 0xddf2);
}

#[test]
fn emits_the_wire_format() {
    let mut buffer = vec![0xee; repr().buffer_len()];
    repr().emit(&ip_repr(), &mut buffer);
    assert_eq!(buffer, with_checksum(PACKET.to_vec()));
    assert_eq!(buffer[..16], PACKET[..16]);
    assert_eq!(buffer[18..], PACKET[18..]);
}

#[test]
fn parses_the_wire_format() {
    let packet = with_checksum(PACKET.to_vec());
    assert_eq!(parse(&packet), Ok(repr()));
}

#[test]
fn parses_what_was_emitted() {
    for control in [TcpControl::Plain, TcpControl::Syn, TcpControl::Fin, TcpControl::Rst] {
        for ack_number in [None, Some(0), Some(-1), Some(i32::MIN), Some(i32::MAX)] {
            for payload in [&b""[..], &b"x"[..], &b"odd"[..], &b"even"[..]] {
                let repr = TcpRepr {
                    src_port: 1,
                    dst_port: 65535,
                    control,
                    seq_number: -2,
                    ack_number,
                    window_len: 65535,
                    payload,
                };
                let mut buffer = vec![0; repr.buffer_len()];
                repr.emit(&ip_repr(), &mut buffer);
                assert_eq!(parse(&buffer), Ok(repr));
            }
        }
    }
}

#[test]
fn options_are_skipped() {
    let mut packet = PACKET.to_vec();
    packet[12] = 0x60;
    let packet = with_checksum(packet);
    assert_eq!(parse(&packet), Ok(TcpRepr { payload: &[], ..repr() }));
}

#[test]
fn short_packets_are_truncated() {
    assert_eq!(parse(&PACKET[..19]), Err(Error::Truncated));
    let mut packet = PACKET.to_vec();
    packet[12] = 0x70;
    assert_eq!(parse(&packet), Err(Error::Truncated));
}

#[test]
fn contradictory_packets_are_malformed() {
    let mut packet = PACKET.to_vec();
    packet[12] = 0x40;
    assert_eq!(parse(&packet), Err(Error::Malformed));
    let mut packet = PACKET.to_vec();
    packet[0] = 0;
    packet[1] = 0;
    assert_eq!(parse(&packet), Err(Error::Malformed));
    let mut packet = PACKET.to_vec();
    packet[3] = 0;
    assert_eq!(parse(&packet), Err(Error::Malformed));
    let mut packet = PACKET.to_vec();
    packet[13] = 0x03;
    assert_eq!(parse(&with_checksum(packet)), Err(Error::Malformed));
}

#[test]
fn harmed_packets_fail_the_checksum() {
    let mut packet = with_checksum(PACKET.to_vec());
    packet[20] ^= 1;
    assert_eq!(parse(&packet), Err(Error::Checksum));
    let packet = with_checksum(PACKET.to_vec());
    assert_eq!(
        TcpRepr::parse(&packet, &IpAddress::default(), &IpAddress::v4(192, 168, 1, 2)),
        Err(Error::Checksum)
    );
}

#[test]
fn addresses() {
    assert!(IpAddress::default().is_unspecified());
    assert!(IpAddress::v4(0, 0, 0, 0).is_unspecified());
    assert!(!IpAddress::v4(0, 0, 0, 1).is_unspecified());
}
