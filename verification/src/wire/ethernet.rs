use vstd::prelude::*;

verus! {

/// The octets of an Ethernet header: two addresses and a type.
pub const HEADER_LEN: usize = 14;

/// The number that the six octets of an address make up, the highest one first.
pub open spec fn address_key(octets: Seq<u8>) -> u64 {
    (((((octets[0] * 256 + octets[1]) * 256 + octets[2]) * 256 + octets[3]) * 256 + octets[4]) * 256
        + octets[5]) as u64
}

/// The number that the broadcast address makes up.
pub const BROADCAST_KEY: u64 = 0xffff_ffff_ffff;

/// A six-octet Ethernet II address.
#[derive(Debug, PartialEq, Eq, Clone, Copy)]
pub struct EthernetAddress(pub [u8; 6]);

impl EthernetAddress {
    /// Return the number that the address makes up.
    pub fn key(&self) -> (key: u64)
        ensures
            key == address_key(self.0@),
    {
        let high: u64 = (self.0[0] as u64 * 256 + self.0[1] as u64) * 256 + self.0[2] as u64;
        ((high * 256 + self.0[3] as u64) * 256 + self.0[4] as u64) * 256 + self.0[5] as u64
    }

    /// Return the address that makes up a number.
    pub fn from_key(key: u64) -> (addr: EthernetAddress)
        requires
            key <= BROADCAST_KEY,
        ensures
            address_key(addr.0@) == key,
    {
        let (a, high): (u8, u64) = ((key % 256) as u8, key / 256);
        let (b, high): (u8, u64) = ((high % 256) as u8, high / 256);
        let (c, high): (u8, u64) = ((high % 256) as u8, high / 256);
        let (d, high): (u8, u64) = ((high % 256) as u8, high / 256);
        let (e, high): (u8, u64) = ((high % 256) as u8, high / 256);
        EthernetAddress([high as u8, e, d, c, b, a])
    }
}

/// The octets of a frame that hold the address that it goes to.
pub open spec fn frame_dst(frame: Seq<u8>) -> Seq<u8> {
    frame.subrange(0, 6)
}

/// The octets of a frame that hold the address that it comes from.
pub open spec fn frame_src(frame: Seq<u8>) -> Seq<u8> {
    frame.subrange(6, 12)
}

/// Different addresses make up different numbers.
pub proof fn law_address_key(a: Seq<u8>, b: Seq<u8>)
    requires
        a.len() == 6,
        b.len() == 6,
        address_key(a) == address_key(b),
    ensures
        a == b,
{
    let head = |s: Seq<u8>| s[0] * 256 + s[1];
    let high = |s: Seq<u8>| head(s) * 256 + s[2];
    let middle = |s: Seq<u8>| high(s) * 256 + s[3];
    let low = |s: Seq<u8>| middle(s) * 256 + s[4];
    lemma_last_octet(low(a), a[5], low(b), b[5]);
    lemma_last_octet(middle(a), a[4], middle(b), b[4]);
    lemma_last_octet(high(a), a[3], high(b), b[3]);
    lemma_last_octet(head(a), a[2], head(b), b[2]);
    lemma_last_octet(a[0] as int, a[1], b[0] as int, b[1]);
    assert(a =~= b);
}

proof fn lemma_last_octet(x: int, a: u8, y: int, b: u8)
    requires
        x * 256 + a == y * 256 + b,
    ensures
        x == y,
        a == b,
{
}

/// What a frame carries.
#[derive(Debug, PartialEq, Eq, Clone, Copy, Structural)]
pub enum EthernetProtocol {
    Ipv4,
    Arp,
    Ipv6,
    Unknown(u16),
}

impl EthernetProtocol {
    /// The protocol that a number stands for.
    pub open spec fn numbered(number: u16) -> EthernetProtocol {
        if number == 0x0800 {
            EthernetProtocol::Ipv4
        } else if number == 0x0806 {
            EthernetProtocol::Arp
        } else if number == 0x86dd {
            EthernetProtocol::Ipv6
        } else {
            EthernetProtocol::Unknown(number)
        }
    }

    /// Return the protocol that a number stands for.
    pub fn from_number(number: u16) -> (protocol: EthernetProtocol)
        ensures
            protocol == EthernetProtocol::numbered(number),
    {
        match number {
            0x0800 => EthernetProtocol::Ipv4,
            0x0806 => EthernetProtocol::Arp,
            0x86dd => EthernetProtocol::Ipv6,
            _ => EthernetProtocol::Unknown(number),
        }
    }
}

/// The header of an Ethernet frame, and how much follows it.
#[derive(Debug, PartialEq, Eq, Clone, Copy)]
pub struct EthernetHeader {
    pub dst_addr: EthernetAddress,
    pub src_addr: EthernetAddress,
    pub ethertype: EthernetProtocol,
    pub payload_len: usize,
}

impl EthernetHeader {
    /// Whether this is the header of a frame.
    pub open spec fn describes(self, frame: Seq<u8>) -> bool {
        &&& self.dst_addr.0@ == frame_dst(frame)
        &&& self.src_addr.0@ == frame_src(frame)
        &&& self.ethertype == EthernetProtocol::numbered((frame[12] * 256 + frame[13]) as u16)
        &&& self.payload_len == frame.len() - HEADER_LEN
    }

    /// Read the header of a frame, if the frame is long enough to hold one.
    pub fn parse(frame: &[u8]) -> (header: Option<EthernetHeader>)
        ensures
            header is Some <==> frame@.len() >= HEADER_LEN,
            header matches Some(header) ==> header.describes(frame@),
    {
        if frame.len() < HEADER_LEN {
            return None;
        }
        let dst_addr = EthernetAddress([frame[0], frame[1], frame[2], frame[3], frame[4], frame[5]]);
        let src_addr = EthernetAddress(
            [frame[6], frame[7], frame[8], frame[9], frame[10], frame[11]],
        );
        assert(dst_addr.0@ =~= frame@.subrange(0, 6));
        assert(src_addr.0@ =~= frame@.subrange(6, 12));
        Some(
            EthernetHeader {
                dst_addr,
                src_addr,
                ethertype: EthernetProtocol::from_number(
                    frame[12] as u16 * 256 + frame[13] as u16,
                ),
                payload_len: frame.len() - HEADER_LEN,
            },
        )
    }
}

/// How many octets stand on a line of a dump.
pub const DUMP_WIDTH: usize = 16;

/// How many octets of a payload are shown.
pub const PREVIEW_LEN: usize = 32;

/// A hexadecimal digit.
pub open spec fn hex_digit(value: u8) -> char {
    seq!['0', '1', '2', '3', '4', '5', '6', '7', '8', '9', 'a', 'b', 'c', 'd', 'e', 'f'][value as int]
}

/// Octets in hexadecimal, two digits and a space each, and a new line after every full line.
pub open spec fn dump_text(octets: Seq<u8>) -> Seq<char>
    decreases octets.len(),
{
    if octets.len() == 0 {
        Seq::empty()
    } else {
        let octet = octets.last();
        let text = dump_text(octets.drop_last()) + seq![
            hex_digit(octet / 16),
            hex_digit(octet % 16),
            ' ',
        ];
        if octets.len() % DUMP_WIDTH as nat == 0 {
            text.push('\n')
        } else {
            text
        }
    }
}

fn digit(value: u8) -> (text: &'static str)
    requires
        value < 16,
    ensures
        text@ == seq![hex_digit(value)],
{
    proof {
        reveal_strlit("0");
        reveal_strlit("1");
        reveal_strlit("2");
        reveal_strlit("3");
        reveal_strlit("4");
        reveal_strlit("5");
        reveal_strlit("6");
        reveal_strlit("7");
        reveal_strlit("8");
        reveal_strlit("9");
        reveal_strlit("a");
        reveal_strlit("b");
        reveal_strlit("c");
        reveal_strlit("d");
        reveal_strlit("e");
        reveal_strlit("f");
    }
    let text = match value {
        0 => "0",
        1 => "1",
        2 => "2",
        3 => "3",
        4 => "4",
        5 => "5",
        6 => "6",
        7 => "7",
        8 => "8",
        9 => "9",
        10 => "a",
        11 => "b",
        12 => "c",
        13 => "d",
        14 => "e",
        _ => "f",
    };
    assert(text@ =~= seq![hex_digit(value)]);
    text
}

/// Write octets in hexadecimal.
pub fn dump(octets: &[u8]) -> (text: String)
    ensures
        text@ == dump_text(octets@),
{
    proof {
        reveal_strlit(" ");
        reveal_strlit("\n");
    }
    let mut text = String::new();
    let mut i: usize = 0;
    assert(octets@.take(0) =~= Seq::<u8>::empty());
    while i < octets.len()
        invariant
            i <= octets@.len(),
            text@ == dump_text(octets@.take(i as int)),
            " "@ == seq![' '],
            "\n"@ == seq!['\n'],
        decreases octets@.len() - i,
    {
        let ghost before = text@;
        text.append(digit(octets[i] / 16));
        text.append(digit(octets[i] % 16));
        text.append(" ");
        assert(text@ =~= before + seq![
            hex_digit(octets@[i as int] / 16),
            hex_digit(octets@[i as int] % 16),
            ' ',
        ]);
        i += 1;
        assert(octets@.take(i as int).drop_last() =~= octets@.take(i - 1));
        if i % DUMP_WIDTH == 0 {
            text.append("\n");
        }
        assert(text@ =~= dump_text(octets@.take(i as int)));
    }
    assert(octets@.take(i as int) =~= octets@);
    text
}

/// What there is to say about a frame.
pub struct FrameSummary {
    /// How long the frame is.
    pub length: usize,
    /// The frame in hexadecimal.
    pub raw: String,
    /// Its header, if it is long enough to hold one.
    pub header: Option<EthernetHeader>,
    /// The first octets after the header in hexadecimal.
    pub preview: String,
}

impl FrameSummary {
    /// Sum up a frame.
    pub fn new(frame: &[u8]) -> (summary: FrameSummary)
        ensures
            summary.length == frame@.len(),
            summary.raw@ == dump_text(frame@),
            summary.header is Some <==> frame@.len() >= HEADER_LEN,
            summary.header matches Some(header) ==> header.describes(frame@),
            summary.preview@ == dump_text(preview(frame@)),
    {
        let header = EthernetHeader::parse(frame);
        let start: usize = if frame.len() < HEADER_LEN {
            frame.len()
        } else {
            HEADER_LEN
        };
        let end: usize = if frame.len() - start < PREVIEW_LEN {
            frame.len()
        } else {
            start + PREVIEW_LEN
        };
        let shown = vstd::slice::slice_subrange(frame, start, end);
        assert(shown@ =~= preview(frame@));
        FrameSummary { length: frame.len(), raw: dump(frame), header, preview: dump(shown) }
    }
}

/// The first octets of a frame after its header.
pub open spec fn preview(frame: Seq<u8>) -> Seq<u8> {
    if frame.len() < HEADER_LEN {
        Seq::empty()
    } else if frame.len() < HEADER_LEN + PREVIEW_LEN {
        frame.skip(HEADER_LEN as int)
    } else {
        frame.subrange(HEADER_LEN as int, HEADER_LEN + PREVIEW_LEN)
    }
}

/// A frame starts with the six octets of the address that it goes to, followed by the six of the
/// address that it comes from.
pub proof fn law_frame_addresses(frame: Seq<u8>)
    requires
        frame.len() >= 14,
    ensures
        frame_dst(frame).len() == 6,
        frame_src(frame).len() == 6,
        forall|i: int| 0 <= i < 6 ==> #[trigger] frame_dst(frame)[i] == frame[i],
        forall|i: int| 0 <= i < 6 ==> #[trigger] frame_src(frame)[i] == frame[6 + i],
{
}

/// An address makes up a number of six digits in base 256, the first octet the highest. It is that of
/// the broadcast address if and only if every octet is 255.
pub proof fn law_address_number(octets: Seq<u8>)
    requires
        octets.len() == 6,
    ensures
        address_key(octets) == octets[0] * 0x100_0000_0000 + octets[1] * 0x1_0000_0000 + octets[2]
            * 0x100_0000 + octets[3] * 0x1_0000 + octets[4] * 0x100 + octets[5],
        address_key(octets) == BROADCAST_KEY <==> forall|i: int|
            0 <= i < 6 ==> #[trigger] octets[i] == 255,
{
    let all = seq![255u8, 255u8, 255u8, 255u8, 255u8, 255u8];
    if address_key(octets) == BROADCAST_KEY {
        law_address_key(octets, all);
    }
    if forall|i: int| 0 <= i < 6 ==> #[trigger] octets[i] == 255 {
        assert(octets =~= all);
    }
}

/// A header says where its frame goes to and comes from, what it carries and how much.
pub proof fn law_header(header: EthernetHeader, frame: Seq<u8>)
    requires
        frame.len() >= 14,
        header.describes(frame),
    ensures
        forall|i: int| 0 <= i < 6 ==> #[trigger] header.dst_addr.0@[i] == frame[i],
        forall|i: int| 0 <= i < 6 ==> #[trigger] header.src_addr.0@[i] == frame[6 + i],
        header.ethertype == EthernetProtocol::Ipv4 <==> frame[12] == 0x08 && frame[13] == 0x00,
        header.ethertype == EthernetProtocol::Arp <==> frame[12] == 0x08 && frame[13] == 0x06,
        header.ethertype == EthernetProtocol::Ipv6 <==> frame[12] == 0x86 && frame[13] == 0xdd,
        header.ethertype matches EthernetProtocol::Unknown(number) ==> number == frame[12] * 256
            + frame[13],
        header.payload_len == frame.len() - 14,
{
}

/// A digit of sixteen is one of the ten that are numbers, or one of the six letters from `a` on.
pub proof fn law_hex_digit(value: u8)
    requires
        value < 16,
    ensures
        hex_digit(value) as int == if value < 10 {
            '0' as int + value
        } else {
            'a' as int + value - 10
        },
{
}

/// An octet is added to a dump as its two digits, the higher one first, and a space, and every
/// sixteenth one ends a line.
pub proof fn law_dump(octets: Seq<u8>, octet: u8)
    ensures
        dump_text(Seq::<u8>::empty()).len() == 0,
        dump_text(octets.push(octet)) == dump_text(octets) + seq![
            hex_digit(octet / 16),
            hex_digit(octet % 16),
            ' ',
        ] + if (octets.len() + 1) % 16 == 0 {
            seq!['\n']
        } else {
            Seq::empty()
        },
{
    assert(octets.push(octet).drop_last() =~= octets);
    let digits = seq![hex_digit(octet / 16), hex_digit(octet % 16), ' '];
    assert(dump_text(octets.push(octet)) =~= dump_text(octets) + digits + if (octets.len() + 1) % 16
        == 0 {
        seq!['\n']
    } else {
        Seq::empty()
    });
}

/// A preview shows the octets from the fifteenth on, up to thirty-two of them.
pub proof fn law_preview(frame: Seq<u8>)
    ensures
        frame.len() < 14 ==> preview(frame).len() == 0,
        frame.len() >= 14 ==> preview(frame).len() == if frame.len() - 14 < 32 {
            frame.len() - 14
        } else {
            32
        },
        forall|i: int|
            0 <= i < preview(frame).len() ==> #[trigger] preview(frame)[i] == frame[14 + i],
{
}

} // verus!
