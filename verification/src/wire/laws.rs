use vstd::prelude::*;

use crate::error::Error;
use crate::wire::checksum::{carried, intact, pseudo_header, segment_sum, word_sum};
use crate::wire::ip::{IpAddress, Ipv4Address};
use crate::wire::tcp::{
    flag, lemma_octets, seq_add, seq_at, seq_octets, seq_sub, word_at,
    word_octets, Segment, TcpControl,
};

verus! {

/// Sequence numbers are added and subtracted modulo 2^32, and one undoes the other.
pub proof fn law_sequence_numbers(seq: i32, count: i32)
    ensures
        (seq_add(seq, count) - (seq + count)) % 0x1_0000_0000 == 0,
        (seq_sub(seq, count) - (seq - count)) % 0x1_0000_0000 == 0,
        seq_sub(seq_add(seq, count), seq) == count,
        seq_add(count, seq_sub(seq, count)) == seq,
{
}

/// Of the flags that control a connection, the lowest bit means FIN, the next one SYN and the one
/// after that RST; more than one of them means nothing. The bit that counts for sixteen says that
/// there is an acknowledgement. No other bit matters.
pub proof fn law_flags(flags: u8)
    ensures
        Segment::parsed_control(flags) == match (
            flags & 0x01 != 0,
            flags & 0x02 != 0,
            flags & 0x04 != 0,
        ) {
            (false, false, false) => Some(TcpControl::Plain),
            (true, false, false) => Some(TcpControl::Fin),
            (false, true, false) => Some(TcpControl::Syn),
            (false, false, true) => Some(TcpControl::Rst),
            _ => None,
        },
        flag(flags, 16) == (flags & 0x10 != 0),
        Segment::parsed_control(0x00) == Some(TcpControl::Plain),
        Segment::parsed_control(0x10) == Some(TcpControl::Plain),
        Segment::parsed_control(0x01) == Some(TcpControl::Fin),
        Segment::parsed_control(0x11) == Some(TcpControl::Fin),
        Segment::parsed_control(0x02) == Some(TcpControl::Syn),
        Segment::parsed_control(0x12) == Some(TcpControl::Syn),
        Segment::parsed_control(0x04) == Some(TcpControl::Rst),
        Segment::parsed_control(0x14) == Some(TcpControl::Rst),
        Segment::parsed_control(0x03) is None,
        !flag(0x01, 16) && flag(0x11, 16) && !flag(0x04, 16) && flag(0x14, 16),
{
    assert((flags / 1 % 2 == 1) == (flags & 0x01 != 0)) by (bit_vector);
    assert((flags / 2 % 2 == 1) == (flags & 0x02 != 0)) by (bit_vector);
    assert((flags / 4 % 2 == 1) == (flags & 0x04 != 0)) by (bit_vector);
    assert((flags / 16 % 2 == 1) == (flags & 0x10 != 0)) by (bit_vector);
}

/// Two octets make up a number with the high one first, and four a number in two's complement.
/// Writing a number undoes reading it.
pub proof fn law_numbers_in_octets(octets: Seq<u8>, i: int, word: u16, seq: i32)
    ensures
        word_at(octets, i) == octets[i] * 256 + octets[i + 1],
        (seq_at(octets, i) - (octets[i] * 0x100_0000 + octets[i + 1] * 0x1_0000 + octets[i + 2]
            * 0x100 + octets[i + 3])) % 0x1_0000_0000 == 0,
        word_octets(word).len() == 2,
        word_octets(word)[0] * 256 + word_octets(word)[1] == word,
        seq_octets(seq).len() == 4,
        (seq_octets(seq)[0] * 0x100_0000 + seq_octets(seq)[1] * 0x1_0000 + seq_octets(seq)[2]
            * 0x100 + seq_octets(seq)[3] - seq) % 0x1_0000_0000 == 0,
{
    let value = if seq < 0 {
        seq + 0x1_0000_0000
    } else {
        seq as int
    };
    assert(seq_octets(seq)[0] * 256 + seq_octets(seq)[1] == value / 65536);
    assert(seq_octets(seq)[2] * 256 + seq_octets(seq)[3] == value % 65536);
}

/// Where each part of a segment is found in a packet that holds one.
pub proof fn law_parsed_parts(octets: Seq<u8>, src: IpAddress, dst: IpAddress)
    ensures
        Segment::parsed(octets, src, dst) matches Ok(segment) ==> {
            let header_len = octets[12] / 16 * 4;
            &&& 20 <= header_len <= octets.len()
            &&& segment.src_port == octets[0] * 256 + octets[1]
            &&& segment.dst_port == octets[2] * 256 + octets[3]
            &&& segment.src_port != 0 && segment.dst_port != 0
            &&& (segment.seq_number - (octets[4] * 0x100_0000 + octets[5] * 0x1_0000 + octets[6]
                * 0x100 + octets[7])) % 0x1_0000_0000 == 0
            &&& segment.ack_number is Some <==> octets[13] & 0x10 != 0
            &&& segment.ack_number matches Some(ack) ==> (ack - (octets[8] * 0x100_0000 + octets[9]
                * 0x1_0000 + octets[10] * 0x100 + octets[11])) % 0x1_0000_0000 == 0
            &&& segment.control == TcpControl::Fin <==> octets[13] & 0x01 != 0
            &&& segment.control == TcpControl::Syn <==> octets[13] & 0x02 != 0
            &&& segment.control == TcpControl::Rst <==> octets[13] & 0x04 != 0
            &&& segment.window_len == octets[14] * 256 + octets[15]
            &&& segment.payload == octets.skip(header_len)
        },
{
    law_flags(octets[13]);
    law_numbers_in_octets(octets, 4, 0, 0);
    law_numbers_in_octets(octets, 8, 0, 0);
}

/// Which packets hold no segment, and why: those that are shorter than a header, or than theirs;
/// those whose header is too short, that lack a port, or that have contradictory flags; and those
/// whose checksum does not match.
pub proof fn law_parse_refuses(octets: Seq<u8>, src: IpAddress, dst: IpAddress)
    ensures
        ({
            let result = Segment::parsed(octets, src, dst);
            let header_len = octets[12] / 16 * 4;
            let short = octets.len() < 20 || octets.len() < header_len;
            let nonsense = header_len < 20 || octets[0] == 0 && octets[1] == 0 || octets[2] == 0
                && octets[3] == 0;
            let fin = octets[13] & 0x01 != 0;
            let syn = octets[13] & 0x02 != 0;
            let rst = octets[13] & 0x04 != 0;
            let contradictory = fin && syn || fin && rst || syn && rst;
            &&& result == Err::<Segment, Error>(Error::Truncated) <==> short
            &&& result == Err::<Segment, Error>(Error::Checksum) <==> !short && !nonsense
                && !intact(octets, src, dst)
            &&& result == Err::<Segment, Error>(Error::Malformed) <==> !short && (nonsense
                || intact(octets, src, dst) && contradictory)
            &&& result is Ok <==> !short && !nonsense && intact(octets, src, dst) && !contradictory
        }),
{
    law_flags(octets[13]);
}

/// Where each part of a segment is written.
pub proof fn law_emitted_parts(segment: Segment, src: Ipv4Address, dst: Ipv4Address)
    ensures
        ({
            let octets = segment.emitted(src, dst);
            &&& octets.len() == 20 + segment.payload.len()
            &&& octets[0] * 256 + octets[1] == segment.src_port
            &&& octets[2] * 256 + octets[3] == segment.dst_port
            &&& (octets[4] * 0x100_0000 + octets[5] * 0x1_0000 + octets[6] * 0x100 + octets[7]
                - segment.seq_number) % 0x1_0000_0000 == 0
            &&& (octets[8] * 0x100_0000 + octets[9] * 0x1_0000 + octets[10] * 0x100 + octets[11]
                - match segment.ack_number {
                Some(ack) => ack,
                None => 0,
            }) % 0x1_0000_0000 == 0
            &&& octets[12] == 0x50
            &&& octets[13] & 0x10 != 0 <==> segment.ack_number is Some
            &&& octets[13] & 0x01 != 0 <==> segment.control == TcpControl::Fin
            &&& octets[13] & 0x02 != 0 <==> segment.control == TcpControl::Syn
            &&& octets[13] & 0x04 != 0 <==> segment.control == TcpControl::Rst
            &&& octets[13] & 0xe8 == 0
            &&& octets[14] * 256 + octets[15] == segment.window_len
            &&& octets[18] == 0 && octets[19] == 0
            &&& octets.skip(20) == segment.payload
        }),
{
    let octets = segment.emitted(src, dst);
    let checksum = (0xffff - segment_sum(segment.octets(0), src, dst)) as u16;
    let ack: i32 = match segment.ack_number {
        Some(ack) => ack,
        None => 0,
    };
    lemma_octets(segment, checksum);
    law_numbers_in_octets(octets, 0, segment.src_port, segment.seq_number);
    law_numbers_in_octets(octets, 0, segment.dst_port, ack);
    law_numbers_in_octets(octets, 0, segment.window_len, 0);
    lemma_at(octets, 0, 2);
    lemma_at(octets, 2, 4);
    lemma_at(octets, 4, 8);
    lemma_at(octets, 8, 12);
    lemma_at(octets, 14, 16);
    lemma_at(octets, 18, 20);
    let flags = octets[13];
    law_flags(flags);
    assert(flags & 0xe8 == 0) by (bit_vector)
        requires
            flags == 0 || flags == 1 || flags == 2 || flags == 4 || flags == 16 || flags == 17
                || flags == 18 || flags == 20,
    ;
}

/// Part of a packet holds what the packet holds there.
proof fn lemma_at(octets: Seq<u8>, from: int, to: int)
    requires
        0 <= from < to <= octets.len(),
    ensures
        forall|i: int|
            from <= i < to ==> #[trigger] octets[i] == octets.subrange(from, to)[i - from],
{
}

/// Octets are summed up two by two, the first of each two counting for 256 times as much; a last
/// one without a second counts as the first of two.
pub proof fn law_word_sum(first: u8, second: u8, rest: Seq<u8>)
    ensures
        word_sum(Seq::<u8>::empty()) == 0,
        word_sum(seq![first]) == first * 256,
        word_sum(seq![first, second] + rest) == first * 256 + second + word_sum(rest),
{
    let all = seq![first, second] + rest;
    assert(all.skip(2) =~= rest);
}

/// A sum in one's complement fits in sixteen bits, differs from the sum by a multiple of 65535, and
/// is zero only if the sum is.
pub proof fn law_carried(sum: nat)
    ensures
        carried(sum) <= 65535,
        (sum - carried(sum)) % 65535 == 0,
        carried(sum) == 0 <==> sum == 0,
{
}

/// A segment is intact if and only if its octets, together with the addresses, the number of the
/// protocol and the length, sum up to a multiple of 65535. They never sum up to nothing.
pub proof fn law_intact(octets: Seq<u8>, src: Ipv4Address, dst: Ipv4Address)
    ensures
        intact(octets, IpAddress::Ipv4(src), IpAddress::Ipv4(dst)) <==> (word_sum(octets)
            + src.0 * 256 + src.1 + src.2 * 256 + src.3 + dst.0 * 256 + dst.1 + dst.2 * 256 + dst.3
            + 6 + octets.len() % 65536) % 65535 == 0,
        !intact(octets, IpAddress::Unspecified, IpAddress::Ipv4(dst)),
        !intact(octets, IpAddress::Ipv4(src), IpAddress::Unspecified),
        !intact(octets, IpAddress::Unspecified, IpAddress::Unspecified),
{
    lemma_pseudo_header_sum(src, dst, octets.len());
}

proof fn lemma_pseudo_header_sum(src: Ipv4Address, dst: Ipv4Address, len: nat)
    ensures
        word_sum(pseudo_header(src, dst, len)) == src.0 * 256 + src.1 + src.2 * 256 + src.3 + dst.0
            * 256 + dst.1 + dst.2 * 256 + dst.3 + 6 + len % 65536,
{
    let (high, low) = ((len / 256 % 256) as u8, (len % 256) as u8);
    let e = seq![high, low];
    let d = seq![0u8, 6u8] + e;
    let c = seq![dst.2, dst.3] + d;
    let b = seq![dst.0, dst.1] + c;
    let a = seq![src.2, src.3] + b;
    assert(e =~= seq![high, low] + Seq::<u8>::empty());
    law_word_sum(high, low, Seq::empty());
    law_word_sum(0, 6, e);
    law_word_sum(dst.2, dst.3, d);
    law_word_sum(dst.0, dst.1, c);
    law_word_sum(src.2, src.3, b);
    law_word_sum(src.0, src.1, a);
    assert(pseudo_header(src, dst, len) =~= seq![src.0, src.1] + a);
}

/// Harm is noticed: if one octet of an intact segment is changed, the segment is intact no longer.
pub proof fn law_harm_is_noticed(
    octets: Seq<u8>,
    src: Ipv4Address,
    dst: Ipv4Address,
    i: int,
    octet: u8,
)
    requires
        intact(octets, IpAddress::Ipv4(src), IpAddress::Ipv4(dst)),
        0 <= i < octets.len(),
        octet != octets[i],
    ensures
        !intact(octets.update(i, octet), IpAddress::Ipv4(src), IpAddress::Ipv4(dst)),
{
    let after = octets.update(i, octet);
    lemma_word_sum_update(octets, i, octet);
    let sum = covered(octets, src, dst);
    let change = word_sum(after) - word_sum(octets);
    assert(intact(octets, IpAddress::Ipv4(src), IpAddress::Ipv4(dst)) <==> sum % 65535 == 0) by {
        law_intact(octets, src, dst);
    }
    assert(intact(after, IpAddress::Ipv4(src), IpAddress::Ipv4(dst)) <==> (sum + change) % 65535
        == 0) by {
        law_intact(after, src, dst);
    }
    assert(-65535 < change < 65535 && change != 0);
    lemma_no_multiple(sum, change);
}

/// What the checksum of a segment covers, summed up.
spec fn covered(octets: Seq<u8>, src: Ipv4Address, dst: Ipv4Address) -> int {
    word_sum(octets) + src.0 * 256 + src.1 + src.2 * 256 + src.3 + dst.0 * 256 + dst.1 + dst.2 * 256
        + dst.3 + 6 + octets.len() % 65536
}

proof fn lemma_no_multiple(sum: int, change: int)
    requires
        -65535 < change < 65535,
        change != 0,
        sum % 65535 == 0,
    ensures
        (sum + change) % 65535 != 0,
{
}

/// Changing one octet changes the sum by as much as the octet counts for.
proof fn lemma_word_sum_update(octets: Seq<u8>, i: int, octet: u8)
    requires
        0 <= i < octets.len(),
    ensures
        word_sum(octets.update(i, octet)) - word_sum(octets) == (octet - octets[i]) * if i % 2 == 0 {
            256
        } else {
            1int
        },
    decreases octets.len(),
{
    let after = octets.update(i, octet);
    if i >= 2 {
        assert(after.skip(2) =~= octets.skip(2).update(i - 2, octet));
        lemma_word_sum_update(octets.skip(2), i - 2, octet);
    } else if octets.len() >= 2 {
        assert(after.skip(2) =~= octets.skip(2));
    }
}

} // verus!
