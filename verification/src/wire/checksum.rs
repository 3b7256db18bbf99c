use vstd::prelude::*;

use crate::wire::ip::{IpAddress, Ipv4Address};

verus! {

/// The sum of the 16-bit words that octets make up, the high octet first; a lone last octet is the
/// high octet of a word.
pub open spec fn word_sum(octets: Seq<u8>) -> nat
    decreases octets.len(),
{
    if octets.len() == 0 {
        0
    } else if octets.len() == 1 {
        octets[0] as nat * 256
    } else {
        octets[0] as nat * 256 + octets[1] as nat + word_sum(octets.skip(2))
    }
}

/// A sum in 16-bit one's complement, in which every carry is added again at the low end. The sum of
/// anything but zeros is never zero.
pub open spec fn carried(sum: nat) -> nat {
    if sum == 0 {
        0
    } else {
        ((sum - 1) % 65535 + 1) as nat
    }
}

/// What the checksum of a TCP segment covers besides the segment itself.
pub open spec fn pseudo_header(src: Ipv4Address, dst: Ipv4Address, len: nat) -> Seq<u8> {
    src.octets() + dst.octets() + seq![0u8, 6u8, (len / 256 % 256) as u8, (len % 256) as u8]
}

/// The one's complement sum over a segment and its pseudo header.
pub open spec fn segment_sum(octets: Seq<u8>, src: Ipv4Address, dst: Ipv4Address) -> nat {
    carried(word_sum(pseudo_header(src, dst, octets.len())) + word_sum(octets))
}

/// Whether a segment that holds its own checksum arrived unharmed. There is nothing to check it
/// against unless both addresses are known.
pub open spec fn intact(octets: Seq<u8>, src: IpAddress, dst: IpAddress) -> bool {
    match (src, dst) {
        (IpAddress::Ipv4(src), IpAddress::Ipv4(dst)) => segment_sum(octets, src, dst) == 0xffff,
        _ => false,
    }
}

/// Carrying early or late makes no difference.
pub proof fn lemma_carried_early(a: nat, b: nat)
    ensures
        carried(carried(a) + b) == carried(a + b),
{
}

/// The words of one run of octets and those of a second one add up, if the first run is a whole
/// number of words.
pub proof fn lemma_word_sum_concat(a: Seq<u8>, b: Seq<u8>)
    requires
        a.len() % 2 == 0,
    ensures
        word_sum(a + b) == word_sum(a) + word_sum(b),
    decreases a.len(),
{
    if a.len() == 0 {
        assert(a + b =~= b);
    } else {
        assert((a + b).skip(2) =~= a.skip(2) + b);
        lemma_word_sum_concat(a.skip(2), b);
    }
}

/// Add a word in one's complement.
fn add_word(sum: u16, high: u8, low: u8) -> (result: u16)
    ensures
        result == carried((sum + high * 256 + low) as nat),
{
    let total: u32 = sum as u32 + high as u32 * 256 + low as u32;
    if total > 0xffff {
        (total - 0xffff) as u16
    } else {
        total as u16
    }
}

/// Add octets, word by word, in one's complement.
pub fn add_octets(sum: u16, octets: &[u8]) -> (result: u16)
    ensures
        result == carried(sum as nat + word_sum(octets@)),
{
    let mut result: u16 = sum;
    let mut i: usize = 0;
    assert(octets@.skip(0) =~= octets@);
    assert(carried(sum as nat) == sum);
    while octets.len() - i > 1
        invariant
            i <= octets@.len(),
            carried(result as nat + word_sum(octets@.skip(i as int))) == carried(
                sum as nat + word_sum(octets@),
            ),
        decreases octets@.len() - i,
    {
        let ghost rest = octets@.skip(i as int);
        let ghost before = result as nat;
        result = add_word(result, octets[i], octets[i + 1]);
        i += 2;
        proof {
            assert(rest.skip(2) =~= octets@.skip(i as int));
            lemma_carried_early(
                before + rest[0] as nat * 256 + rest[1] as nat,
                word_sum(rest.skip(2)),
            );
        }
    }
    if i < octets.len() {
        result = add_word(result, octets[i], 0);
    }
    result
}

/// Sum up a segment and its pseudo header.
pub fn sum_segment(octets: &[u8], src: Ipv4Address, dst: Ipv4Address) -> (result: u16)
    ensures
        result == segment_sum(octets@, src, dst),
{
    let len: usize = octets.len();
    let header = [
        src.0,
        src.1,
        src.2,
        src.3,
        dst.0,
        dst.1,
        dst.2,
        dst.3,
        0u8,
        6u8,
        (len / 256 % 256) as u8,
        (len % 256) as u8,
    ];
    assert(header@ =~= pseudo_header(src, dst, octets@.len()));
    let sum: u16 = add_octets(0, &header);
    proof {
        lemma_carried_early(word_sum(header@), word_sum(octets@));
    }
    add_octets(sum, octets)
}

/// Query whether a segment that holds its own checksum arrived unharmed.
pub fn verify_segment(octets: &[u8], src: &IpAddress, dst: &IpAddress) -> (result: bool)
    ensures
        result == intact(octets@, *src, *dst),
{
    match (*src, *dst) {
        (IpAddress::Ipv4(src), IpAddress::Ipv4(dst)) => sum_segment(octets, src, dst) == 0xffff,
        _ => false,
    }
}

} // verus!
