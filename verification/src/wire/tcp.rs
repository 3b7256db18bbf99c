use vstd::prelude::*;
use vstd::wrapping::i32_specs;

use crate::error::Error;
use crate::wire::checksum::{
    intact, lemma_word_sum_concat, pseudo_header, segment_sum, sum_segment, verify_segment,
    word_sum,
};
use crate::wire::ip::{IpAddress, IpRepr, Ipv4Address};

verus! {

/// The sequence number that lies `count` past `seq`; sequence numbers go round.
pub open spec fn seq_add(seq: i32, count: i32) -> i32 {
    i32_specs::wrapping_add(seq, count)
}

/// How far `seq` lies past `base`, or, where it is negative, before it.
pub open spec fn seq_sub(seq: i32, base: i32) -> i32 {
    i32_specs::wrapping_sub(seq, base)
}

/// The octets of a header without options.
pub const HEADER_LEN: usize = 20;

/// The number that two octets make up, the high one first.
pub open spec fn word_at(octets: Seq<u8>, i: int) -> u16 {
    (octets[i] * 256 + octets[i + 1]) as u16
}

/// The number that four octets make up, the highest one first, in two's complement.
pub open spec fn seq_at(octets: Seq<u8>, i: int) -> i32 {
    let value = word_at(octets, i) * 65536 + word_at(octets, i + 2);
    if value < 0x8000_0000 {
        value as i32
    } else {
        (value - 0x1_0000_0000) as i32
    }
}

/// The two octets of a number, the high one first.
pub open spec fn word_octets(word: u16) -> Seq<u8> {
    seq![(word / 256) as u8, (word % 256) as u8]
}

/// The four octets of a number in two's complement, the highest one first.
pub open spec fn seq_octets(seq: i32) -> Seq<u8> {
    let value = if seq < 0 {
        seq + 0x1_0000_0000
    } else {
        seq as int
    };
    word_octets((value / 65536) as u16) + word_octets((value % 65536) as u16)
}

/// Whether the bit that counts for `weight` is set.
pub open spec fn flag(octet: u8, weight: u8) -> bool {
    octet / weight % 2 == 1
}

/// The control flag of a segment.
#[derive(Debug, PartialEq, Eq, Clone, Copy, Structural)]
pub enum TcpControl {
    /// No flag is set.
    Plain,
    Syn,
    Fin,
    Rst,
}

/// A segment, as it is reasoned about.
#[verifier::ext_equal]
pub struct Segment {
    pub src_port: u16,
    pub dst_port: u16,
    pub control: TcpControl,
    pub seq_number: i32,
    pub ack_number: Option<i32>,
    pub window_len: u16,
    pub payload: Seq<u8>,
}

/// A high-level representation of a Transmission Control Protocol packet.
#[derive(Debug, PartialEq, Eq, Clone, Copy)]
pub struct TcpRepr<'a> {
    pub src_port: u16,
    pub dst_port: u16,
    pub control: TcpControl,
    pub seq_number: i32,
    pub ack_number: Option<i32>,
    pub window_len: u16,
    pub payload: &'a [u8],
}

impl<'a> View for TcpRepr<'a> {
    type V = Segment;

    open spec fn view(&self) -> Segment {
        Segment {
            src_port: self.src_port,
            dst_port: self.dst_port,
            control: self.control,
            seq_number: self.seq_number,
            ack_number: self.ack_number,
            window_len: self.window_len,
            payload: self.payload@,
        }
    }
}

impl Segment {
    /// How many octets the header takes up that octets start with.
    pub open spec fn header_len(octets: Seq<u8>) -> int {
        octets[12] / 16 * 4
    }

    /// The control flag in the octet of flags: at most one of FIN, SYN and RST may be set.
    pub open spec fn parsed_control(flags: u8) -> Option<TcpControl> {
        match (flag(flags, 2), flag(flags, 1), flag(flags, 4)) {
            (false, false, false) => Some(TcpControl::Plain),
            (true, false, false) => Some(TcpControl::Syn),
            (false, true, false) => Some(TcpControl::Fin),
            (false, false, true) => Some(TcpControl::Rst),
            _ => None,
        }
    }

    /// The segment that octets hold. Options, the PSH and URG flags and the urgent pointer are
    /// ignored.
    pub open spec fn parsed(octets: Seq<u8>, src: IpAddress, dst: IpAddress) -> Result<
        Segment,
        Error,
    > {
        if octets.len() < HEADER_LEN || octets.len() < Self::header_len(octets) {
            Err(Error::Truncated)
        } else if Self::header_len(octets) < HEADER_LEN {
            Err(Error::Malformed)
        } else if word_at(octets, 0) == 0 || word_at(octets, 2) == 0 {
            Err(Error::Malformed)
        } else if !intact(octets, src, dst) {
            Err(Error::Checksum)
        } else {
            match Self::parsed_control(octets[13]) {
                None => Err(Error::Malformed),
                Some(control) => Ok(
                    Segment {
                        src_port: word_at(octets, 0),
                        dst_port: word_at(octets, 2),
                        control,
                        seq_number: seq_at(octets, 4),
                        ack_number: if flag(octets[13], 16) {
                            Some(seq_at(octets, 8))
                        } else {
                            None
                        },
                        window_len: word_at(octets, 14),
                        payload: octets.skip(Self::header_len(octets)),
                    },
                ),
            }
        }
    }

    /// The octet of flags.
    pub open spec fn flags(self) -> u8 {
        let control = match self.control {
            TcpControl::Plain => 0int,
            TcpControl::Fin => 1,
            TcpControl::Syn => 2,
            TcpControl::Rst => 4,
        };
        (control + if self.ack_number is Some {
            16int
        } else {
            0
        }) as u8
    }

    /// The octets of the segment with a given checksum.
    #[verifier::opaque]
    pub open spec fn octets(self, checksum: u16) -> Seq<u8> {
        word_octets(self.src_port) + word_octets(self.dst_port) + seq_octets(self.seq_number)
            + seq_octets(
            match self.ack_number {
                Some(ack) => ack,
                None => 0,
            },
        ) + seq![80u8, self.flags()] + word_octets(self.window_len) + word_octets(checksum) + seq![
            0u8,
            0u8,
        ] + self.payload
    }

    /// The octets of the segment as it is sent between two hosts.
    pub open spec fn emitted(self, src: Ipv4Address, dst: Ipv4Address) -> Seq<u8> {
        self.octets((0xffff - segment_sum(self.octets(0), src, dst)) as u16)
    }
}

/// Where each octet of a segment stands.
pub proof fn lemma_octets(segment: Segment, checksum: u16)
    ensures
        ({
            let octets = segment.octets(checksum);
            let ack = match segment.ack_number {
                Some(ack) => ack,
                None => 0,
            };
            &&& octets.len() == HEADER_LEN + segment.payload.len()
            &&& octets.subrange(0, 2) == word_octets(segment.src_port)
            &&& octets.subrange(2, 4) == word_octets(segment.dst_port)
            &&& octets.subrange(4, 8) == seq_octets(segment.seq_number)
            &&& octets.subrange(8, 12) == seq_octets(ack)
            &&& octets[12] == 80
            &&& octets[13] == segment.flags()
            &&& octets.subrange(14, 16) == word_octets(segment.window_len)
            &&& octets.subrange(16, 18) == word_octets(checksum)
            &&& octets.subrange(18, 20) == word_octets(0)
            &&& octets.skip(HEADER_LEN as int) == segment.payload
        }),
{
    reveal(Segment::octets);
    let octets = segment.octets(checksum);
    let ack = match segment.ack_number {
        Some(ack) => ack,
        None => 0,
    };
    assert(octets.subrange(0, 2) =~= word_octets(segment.src_port));
    assert(octets.subrange(2, 4) =~= word_octets(segment.dst_port));
    assert(octets.subrange(4, 8) =~= seq_octets(segment.seq_number));
    assert(octets.subrange(8, 12) =~= seq_octets(ack));
    assert(octets.subrange(14, 16) =~= word_octets(segment.window_len));
    assert(octets.subrange(16, 18) =~= word_octets(checksum));
    assert(octets.subrange(18, 20) =~= word_octets(0));
    assert(octets.skip(HEADER_LEN as int) =~= segment.payload);
}

fn get_word(octets: &[u8], i: usize) -> (word: u16)
    requires
        i + 1 < octets.len(),
    ensures
        word == word_at(octets@, i as int),
{
    octets[i] as u16 * 256 + octets[i + 1] as u16
}

fn get_seq(octets: &[u8], i: usize) -> (seq: i32)
    requires
        i + 3 < octets.len(),
    ensures
        seq == seq_at(octets@, i as int),
{
    let value: u32 = get_word(octets, i) as u32 * 65536 + get_word(octets, i + 2) as u32;
    if value < 0x8000_0000 {
        value as i32
    } else {
        (value as i64 - 0x1_0000_0000) as i32
    }
}

fn put_word(octets: &mut [u8], i: usize, word: u16)
    requires
        i + 1 < old(octets).len(),
    ensures
        final(octets)@.len() == old(octets)@.len(),
        final(octets)@.subrange(i as int, i + 2) == word_octets(word),
        forall|j: int| 0 <= j < i || i + 2 <= j < old(octets)@.len() ==> final(octets)@[j] == old(octets)@[j],
{
    octets[i] = (word / 256) as u8;
    octets[i + 1] = (word % 256) as u8;
    assert(octets@.subrange(i as int, i + 2) =~= word_octets(word));
}

fn put_seq(octets: &mut [u8], i: usize, seq: i32)
    requires
        i + 3 < old(octets).len(),
    ensures
        final(octets)@.len() == old(octets)@.len(),
        final(octets)@.subrange(i as int, i + 4) == seq_octets(seq),
        forall|j: int| 0 <= j < i || i + 4 <= j < old(octets)@.len() ==> final(octets)@[j] == old(octets)@[j],
{
    let value: u32 = if seq < 0 {
        (seq as i64 + 0x1_0000_0000) as u32
    } else {
        seq as u32
    };
    put_word(octets, i, (value / 65536) as u16);
    let ghost first = octets@;
    put_word(octets, i + 2, (value % 65536) as u16);
    assert(octets@.subrange(i as int, i + 2) =~= first.subrange(i as int, i + 2));
    assert(octets@.subrange(i as int, i + 4) =~= octets@.subrange(i as int, i + 2)
        + octets@.subrange(i + 2, i + 4));
}

/// Octets that agree on every field are the same.
proof fn lemma_same_fields(a: Seq<u8>, b: Seq<u8>)
    requires
        a.len() == b.len() >= HEADER_LEN,
        a.subrange(0, 2) == b.subrange(0, 2),
        a.subrange(2, 4) == b.subrange(2, 4),
        a.subrange(4, 8) == b.subrange(4, 8),
        a.subrange(8, 12) == b.subrange(8, 12),
        a[12] == b[12],
        a[13] == b[13],
        a.subrange(14, 16) == b.subrange(14, 16),
        a.subrange(16, 18) == b.subrange(16, 18),
        a.subrange(18, 20) == b.subrange(18, 20),
        a.skip(HEADER_LEN as int) == b.skip(HEADER_LEN as int),
    ensures
        a == b,
{
    let cut = |octets: Seq<u8>|
        octets.subrange(0, 2) + octets.subrange(2, 4) + octets.subrange(4, 8) + octets.subrange(
            8,
            12,
        ) + seq![octets[12], octets[13]] + octets.subrange(14, 16) + octets.subrange(16, 18)
            + octets.subrange(18, 20) + octets.skip(HEADER_LEN as int);
    assert(a =~= cut(a));
    assert(b =~= cut(b));
}

/// Octets that agree on the header agree on every field of it.
proof fn lemma_header_kept(a: Seq<u8>, b: Seq<u8>)
    requires
        a.len() == b.len() >= HEADER_LEN,
        forall|j: int| 0 <= j < HEADER_LEN ==> b[j] == a[j],
    ensures
        b.subrange(0, 2) == a.subrange(0, 2),
        b.subrange(2, 4) == a.subrange(2, 4),
        b.subrange(4, 8) == a.subrange(4, 8),
        b.subrange(8, 12) == a.subrange(8, 12),
        b.subrange(14, 16) == a.subrange(14, 16),
        b.subrange(16, 18) == a.subrange(16, 18),
        b.subrange(18, 20) == a.subrange(18, 20),
{
    assert(b.subrange(0, 2) =~= a.subrange(0, 2));
    assert(b.subrange(2, 4) =~= a.subrange(2, 4));
    assert(b.subrange(4, 8) =~= a.subrange(4, 8));
    assert(b.subrange(8, 12) =~= a.subrange(8, 12));
    assert(b.subrange(14, 16) =~= a.subrange(14, 16));
    assert(b.subrange(16, 18) =~= a.subrange(16, 18));
    assert(b.subrange(18, 20) =~= a.subrange(18, 20));
}

/// Octets that agree on everything but the checksum agree on every other field.
proof fn lemma_checksum_put(a: Seq<u8>, b: Seq<u8>)
    requires
        a.len() == b.len() >= HEADER_LEN,
        forall|j: int| 0 <= j < 16 || 18 <= j < a.len() ==> b[j] == a[j],
    ensures
        b.subrange(0, 2) == a.subrange(0, 2),
        b.subrange(2, 4) == a.subrange(2, 4),
        b.subrange(4, 8) == a.subrange(4, 8),
        b.subrange(8, 12) == a.subrange(8, 12),
        b.subrange(14, 16) == a.subrange(14, 16),
        b.subrange(18, 20) == a.subrange(18, 20),
        b.skip(HEADER_LEN as int) == a.skip(HEADER_LEN as int),
{
    assert(b.subrange(0, 2) =~= a.subrange(0, 2));
    assert(b.subrange(2, 4) =~= a.subrange(2, 4));
    assert(b.subrange(4, 8) =~= a.subrange(4, 8));
    assert(b.subrange(8, 12) =~= a.subrange(8, 12));
    assert(b.subrange(14, 16) =~= a.subrange(14, 16));
    assert(b.subrange(18, 20) =~= a.subrange(18, 20));
    assert(b.skip(HEADER_LEN as int) =~= a.skip(HEADER_LEN as int));
}

/// Parsing gives back what was emitted: whatever segment is sent between two hosts, from one port
/// to another, arrives as it was.
pub proof fn law_parse_emitted(segment: Segment, src: Ipv4Address, dst: Ipv4Address)
    requires
        segment.src_port != 0,
        segment.dst_port != 0,
    ensures
        Segment::parsed(segment.emitted(src, dst), IpAddress::Ipv4(src), IpAddress::Ipv4(dst)) == Ok::<
            Segment,
            Error,
        >(segment),
{
    let checksum = (0xffff - segment_sum(segment.octets(0), src, dst)) as u16;
    let octets = segment.emitted(src, dst);
    lemma_octets(segment, 0);
    lemma_octets(segment, checksum);
    lemma_emitted_intact(segment, src, dst);
    lemma_word_read(octets, 0, segment.src_port);
    lemma_word_read(octets, 2, segment.dst_port);
    lemma_seq_read(octets, 4, segment.seq_number);
    lemma_word_read(octets, 14, segment.window_len);
    lemma_seq_read(
        octets,
        8,
        match segment.ack_number {
            Some(ack) => ack,
            None => 0,
        },
    );
    assert(Segment::header_len(octets) == HEADER_LEN);
    assert(Segment::parsed_control(octets[13]) == Some(segment.control));
    assert(flag(octets[13], 16) == (segment.ack_number is Some));
}

/// The checksum that a segment is sent with is the one that it is checked against.
proof fn lemma_emitted_intact(segment: Segment, src: Ipv4Address, dst: Ipv4Address)
    ensures
        intact(segment.emitted(src, dst), IpAddress::Ipv4(src), IpAddress::Ipv4(dst)),
{
    let blank = segment.octets(0);
    let checksum = (0xffff - segment_sum(blank, src, dst)) as u16;
    let octets = segment.octets(checksum);
    lemma_octets(segment, 0);
    lemma_octets(segment, checksum);
    reveal(Segment::octets);
    let front = octets.take(16);
    let back = octets.skip(18);
    assert(blank =~= front + word_octets(0) + back);
    assert(octets =~= front + word_octets(checksum) + back);
    lemma_word_sum_concat(front + word_octets(0), back);
    lemma_word_sum_concat(front, word_octets(0));
    lemma_word_sum_concat(front + word_octets(checksum), back);
    lemma_word_sum_concat(front, word_octets(checksum));
    lemma_word_sum(0);
    lemma_word_sum(checksum);
    let header = pseudo_header(src, dst, octets.len());
    let head = header.take(8);
    assert(header =~= head + header.skip(8));
    lemma_word_sum_concat(head, header.skip(8));
    assert(word_sum(header.skip(8)) >= 6);
}

/// The sum of one word is the word.
proof fn lemma_word_sum(word: u16)
    ensures
        word_sum(word_octets(word)) == word,
{
    reveal_with_fuel(word_sum, 2);
    assert(word_octets(word).skip(2).len() == 0);
}

/// A word that is written is the word that is read.
proof fn lemma_word_read(octets: Seq<u8>, i: int, word: u16)
    requires
        0 <= i <= octets.len() - 2,
        octets.subrange(i, i + 2) == word_octets(word),
    ensures
        word_at(octets, i) == word,
{
    assert(octets[i] == octets.subrange(i, i + 2)[0]);
    assert(octets[i + 1] == octets.subrange(i, i + 2)[1]);
}

/// A sequence number that is written is the one that is read.
proof fn lemma_seq_read(octets: Seq<u8>, i: int, seq: i32)
    requires
        0 <= i <= octets.len() - 4,
        octets.subrange(i, i + 4) == seq_octets(seq),
    ensures
        seq_at(octets, i) == seq,
{
    let value = if seq < 0 {
        seq + 0x1_0000_0000
    } else {
        seq as int
    };
    assert(octets.subrange(i, i + 2) =~= octets.subrange(i, i + 4).take(2));
    assert(octets.subrange(i + 2, i + 4) =~= octets.subrange(i, i + 4).skip(2));
    assert(seq_octets(seq).take(2) =~= word_octets((value / 65536) as u16));
    assert(seq_octets(seq).skip(2) =~= word_octets((value % 65536) as u16));
    lemma_word_read(octets, i, (value / 65536) as u16);
    lemma_word_read(octets, i + 2, (value % 65536) as u16);
}

impl<'a> TcpRepr<'a> {
    /// Parse a Transmission Control Protocol packet and return a high-level representation.
    pub fn parse(octets: &'a [u8], src_addr: &IpAddress, dst_addr: &IpAddress) -> (result: Result<
        TcpRepr<'a>,
        Error,
    >)
        ensures
            match result {
                Ok(repr) => Segment::parsed(octets@, *src_addr, *dst_addr) == Ok::<Segment, Error>(
                    repr@,
                ),
                Err(error) => Segment::parsed(octets@, *src_addr, *dst_addr) == Err::<
                    Segment,
                    Error,
                >(error),
            },
    {
        if octets.len() < HEADER_LEN {
            return Err(Error::Truncated);
        }
        let header_len: usize = (octets[12] / 16) as usize * 4;
        if octets.len() < header_len {
            return Err(Error::Truncated);
        }
        if header_len < HEADER_LEN {
            return Err(Error::Malformed);
        }
        // Source and destination ports must be present.
        let src_port: u16 = get_word(octets, 0);
        let dst_port: u16 = get_word(octets, 2);
        if src_port == 0 || dst_port == 0 {
            return Err(Error::Malformed);
        }
        // Valid checksum is expected.
        if !verify_segment(octets, src_addr, dst_addr) {
            return Err(Error::Checksum);
        }
        let flags: u8 = octets[13];
        let control = match (flags / 2 % 2 == 1, flags % 2 == 1, flags / 4 % 2 == 1) {
            (false, false, false) => TcpControl::Plain,
            (true, false, false) => TcpControl::Syn,
            (false, true, false) => TcpControl::Fin,
            (false, false, true) => TcpControl::Rst,
            _ => {
                return Err(Error::Malformed);
            },
        };
        let ack_number = if flags / 16 % 2 == 1 {
            Some(get_seq(octets, 8))
        } else {
            None
        };
        let payload = vstd::slice::slice_subrange(octets, header_len, octets.len());
        let repr = TcpRepr {
            src_port,
            dst_port,
            control,
            seq_number: get_seq(octets, 4),
            ack_number,
            window_len: get_word(octets, 14),
            payload,
        };
        assert(payload@ =~= octets@.skip(header_len as int));
        Ok(repr)
    }

    /// Return the length of the packet that this representation is emitted as.
    pub fn buffer_len(&self) -> (len: usize)
        requires
            self.payload@.len() + HEADER_LEN <= usize::MAX,
        ensures
            len == self.payload@.len() + HEADER_LEN,
    {
        HEADER_LEN + self.payload.len()
    }

    fn emit_header(&self, octets: &mut [u8], ack_number: i32, flags: u8)
        requires
            old(octets).len() >= HEADER_LEN,
        ensures
            final(octets)@.len() == old(octets)@.len(),
            final(octets)@.subrange(0, 2) == word_octets(self.src_port),
            final(octets)@.subrange(2, 4) == word_octets(self.dst_port),
            final(octets)@.subrange(4, 8) == seq_octets(self.seq_number),
            final(octets)@.subrange(8, 12) == seq_octets(ack_number),
            final(octets)@[12] == 80,
            final(octets)@[13] == flags,
            final(octets)@.subrange(14, 16) == word_octets(self.window_len),
            final(octets)@.subrange(16, 18) == word_octets(0),
            final(octets)@.subrange(18, 20) == word_octets(0),
    {
        put_word(octets, 0, self.src_port);
        let ghost a = octets@;
        put_word(octets, 2, self.dst_port);
        let ghost b = octets@;
        put_seq(octets, 4, self.seq_number);
        let ghost c = octets@;
        put_seq(octets, 8, ack_number);
        let ghost d = octets@;
        octets[12] = 80;
        octets[13] = flags;
        put_word(octets, 14, self.window_len);
        let ghost e = octets@;
        put_word(octets, 16, 0);
        let ghost f = octets@;
        put_word(octets, 18, 0);
        assert(octets@.subrange(0, 2) =~= a.subrange(0, 2));
        assert(octets@.subrange(2, 4) =~= b.subrange(2, 4));
        assert(octets@.subrange(4, 8) =~= c.subrange(4, 8));
        assert(octets@.subrange(8, 12) =~= d.subrange(8, 12));
        assert(octets@.subrange(14, 16) =~= e.subrange(14, 16));
        assert(octets@.subrange(16, 18) =~= f.subrange(16, 18));
    }

    /// Emit this representation into a packet of the right length.
    pub fn emit(&self, ip_repr: &IpRepr, payload: &mut [u8])
        requires
            old(payload).len() == self.payload@.len() + HEADER_LEN,
            ip_repr.src() is Ipv4,
            ip_repr.dst() is Ipv4,
        ensures
            final(payload)@ == self@.emitted(ip_repr.src()->Ipv4_0, ip_repr.dst()->Ipv4_0),
    {
        let ack_number: i32 = match self.ack_number {
            Some(ack_number) => ack_number,
            None => 0,
        };
        let control: u8 = match self.control {
            TcpControl::Plain => 0,
            TcpControl::Fin => 1,
            TcpControl::Syn => 2,
            TcpControl::Rst => 4,
        };
        let ack: u8 = if self.ack_number.is_some() {
            16
        } else {
            0
        };
        self.emit_header(payload, ack_number, control + ack);
        let ghost header = payload@;
        let mut i: usize = 0;
        while i < self.payload.len()
            invariant
                i <= self.payload@.len(),
                payload.len() == self.payload@.len() + HEADER_LEN == header.len(),
                forall|j: int| 0 <= j < HEADER_LEN ==> payload@[j] == header[j],
                forall|j: int|
                    0 <= j < i ==> #[trigger] self.payload@[j] == payload@[HEADER_LEN + j],
            decreases self.payload@.len() - i,
        {
            payload[HEADER_LEN + i] = self.payload[i];
            i += 1;
        }
        proof {
            lemma_octets(self@, 0);
            assert(payload@.skip(HEADER_LEN as int) =~= self.payload@);
            lemma_header_kept(header, payload@);
            lemma_same_fields(payload@, self@.octets(0));
        }
        if let (IpAddress::Ipv4(src), IpAddress::Ipv4(dst)) = (
            ip_repr.src_addr(),
            ip_repr.dst_addr(),
        ) {
            let checksum: u16 = 0xffff - sum_segment(payload, src, dst);
            let ghost summed = payload@;
            put_word(payload, 16, checksum);
            proof {
                lemma_octets(self@, checksum);
                lemma_checksum_put(summed, payload@);
                lemma_same_fields(payload@, self@.octets(checksum));
            }
        }
    }
}

} // verus!
