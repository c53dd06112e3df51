use crate::error::WolError;
use crate::mac::{is_mac_text, lemma_mac_text_bytes, mac_bytes, mac_octets, Mac};
use vstd::prelude::*;

verus! {

/// The six `0xFF` bytes that open every magic packet.
pub open spec fn sync_header() -> Seq<u8> {
    Seq::new(6, |_i: int| 0xffu8)
}

/// `block` written `n` times, one copy after the other.
pub open spec fn repeat(block: Seq<u8>, n: nat) -> Seq<u8>
    decreases n,
{
    if n == 0 {
        Seq::empty()
    } else {
        repeat(block, (n - 1) as nat) + block
    }
}

/// The magic packet for an address: the header, then the address sixteen times.
pub open spec fn magic_packet(mac: Seq<u8>) -> Seq<u8> {
    sync_header() + repeat(mac, 16)
}

/// What building yields for address text once the text has been checked
/// against the address pattern, with `valid` the answer of that check.
pub open spec fn packet_outcome(s: Seq<char>, valid: bool) -> Result<Seq<u8>, WolError> {
    if !valid {
        Err(WolError::InvalidMacAddress)
    } else {
        match mac_bytes(s) {
            None => Err(WolError::MacConversionFailed),
            Some(b) => if b.len() == 6 {
                Ok(magic_packet(b))
            } else {
                Err(WolError::InvalidBufferLength)
            },
        }
    }
}

/// A built packet, seen as a byte sequence.
pub open spec fn outcome_view(r: Result<Vec<u8>, WolError>) -> Result<Seq<u8>, WolError> {
    match r {
        Ok(p) => Ok(p@),
        Err(e) => Err(e),
    }
}

proof fn lemma_repeat_len(block: Seq<u8>, n: nat)
    requires
        block.len() == 6,
    ensures
        repeat(block, n).len() == 6 * n,
    decreases n,
{
    if n > 0 {
        lemma_repeat_len(block, (n - 1) as nat);
    }
}

proof fn lemma_repeat_block(block: Seq<u8>, n: nat, k: int)
    requires
        block.len() == 6,
        0 <= k < n,
    ensures
        repeat(block, n).subrange(6 * k, 6 * k + 6) == block,
    decreases n,
{
    lemma_repeat_len(block, (n - 1) as nat);
    let front = repeat(block, (n - 1) as nat);
    if k == n - 1 {
        assert((front + block).subrange(6 * k, 6 * k + 6) =~= block);
    } else {
        lemma_repeat_block(block, (n - 1) as nat, k);
        assert((front + block).subrange(6 * k, 6 * k + 6) =~= front.subrange(6 * k, 6 * k + 6));
    }
}

/// Well-formed address text always builds: the packet has 102 bytes and
/// opens with six `0xFF` bytes.
pub proof fn lemma_well_formed_text_builds(s: Seq<char>)
    requires
        is_mac_text(s),
    ensures
        packet_outcome(s, is_mac_text(s)) == Ok::<Seq<u8>, WolError>(magic_packet(mac_octets(s))),
        magic_packet(mac_octets(s)).len() == 102,
        forall|i: int| 0 <= i < 6 ==> #[trigger] magic_packet(mac_octets(s))[i] == 0xff,
{
    lemma_mac_text_bytes(s);
    lemma_repeat_len(mac_octets(s), 16);
}

/// Text that is not a well-formed address is always refused as such.
pub proof fn lemma_malformed_text_rejected(s: Seq<char>)
    requires
        !is_mac_text(s),
    ensures
        packet_outcome(s, is_mac_text(s)) == Err::<Seq<u8>, WolError>(WolError::InvalidMacAddress),
{
}

/// In the packet built from well-formed text, bytes 6 to 12 are the address
/// bytes that the text reads as, and that block repeats unchanged up to
/// byte 102.
pub proof fn lemma_packet_repeats_address(s: Seq<char>)
    requires
        is_mac_text(s),
    ensures
        mac_bytes(s) == Some(mac_octets(s)),
        packet_outcome(s, is_mac_text(s)) == Ok::<Seq<u8>, WolError>(magic_packet(mac_octets(s))),
        magic_packet(mac_octets(s)).subrange(6, 12) == mac_octets(s),
        forall|k: int|
            0 <= k < 16 ==> #[trigger] magic_packet(mac_octets(s)).subrange(6 + 6 * k, 12 + 6 * k)
                == mac_octets(s),
{
    lemma_mac_text_bytes(s);
    let b = mac_octets(s);
    let p = magic_packet(b);
    lemma_repeat_len(b, 16);
    assert forall|k: int| 0 <= k < 16 implies #[trigger] p.subrange(6 + 6 * k, 12 + 6 * k) == b by {
        lemma_repeat_block(b, 16, k);
        assert(p.subrange(6 + 6 * k, 12 + 6 * k) =~= repeat(b, 16).subrange(6 * k, 6 * k + 6));
    }
    assert(p.subrange(6 + 6 * 0int, 12 + 6 * 0int) == b);
}

/// Builds the magic packet for `mac`, given whether its text was found to
/// match the address pattern.
pub fn build_checked_packet(mac: &Mac, valid: bool) -> (r: Result<Vec<u8>, WolError>)
    ensures
        outcome_view(r) == packet_outcome(mac@, valid),
{
    if !valid {
        return Err(WolError::InvalidMacAddress);
    }
    let mut packet: Vec<u8> = Vec::new();
    let mut i: usize = 0;
    while i < 6
        invariant
            i <= 6,
            packet@ == Seq::new(i as nat, |_k: int| 0xffu8),
        decreases 6 - i,
    {
        packet.push(0xff);
        i += 1;
        assert(packet@ =~= Seq::new(i as nat, |_k: int| 0xffu8));
    }
    assert(packet@ =~= sync_header() + repeat(Seq::<u8>::empty(), 0));
    let payload = match mac.as_bytes() {
        Ok(p) => p,
        Err(_) => return Err(WolError::MacConversionFailed),
    };
    if payload.len() != 6 {
        return Err(WolError::InvalidBufferLength);
    }
    let mut n: usize = 0;
    while n < 16
        invariant
            n <= 16,
            payload@.len() == 6,
            packet@ == sync_header() + repeat(payload@, n as nat),
        decreases 16 - n,
    {
        let ghost before = packet@;
        let mut j: usize = 0;
        while j < 6
            invariant
                j <= 6,
                payload@.len() == 6,
                packet@ == before + payload@.take(j as int),
            decreases 6 - j,
        {
            packet.push(payload[j]);
            j += 1;
            assert(packet@ =~= before + payload@.take(j as int));
        }
        assert(payload@.take(6) =~= payload@);
        n += 1;
        assert(packet@ =~= sync_header() + repeat(payload@, n as nat));
    }
    proof {
        lemma_repeat_len(payload@, 16);
    }
    if packet.len() != 102 {
        return Err(WolError::InvalidPacketSize);
    }
    Ok(packet)
}

/// Builds the magic packet for `mac`: `Err(InvalidMacAddress)` unless its
/// text is a well-formed address, else the header and the address bytes
/// sixteen times.
pub fn build_packet(mac: &Mac) -> (r: Result<Vec<u8>, WolError>)
    ensures
        outcome_view(r) == packet_outcome(mac@, is_mac_text(mac@)),
        is_mac_text(mac@) ==> r is Ok && r->Ok_0@ == magic_packet(mac_octets(mac@))
            && r->Ok_0@.len() == 102,
        !is_mac_text(mac@) ==> r == Err::<Vec<u8>, WolError>(WolError::InvalidMacAddress),
{
    let valid = match mac.is_valid() {
        Ok(v) => v,
        Err(_) => return Err(WolError::MacValidationFailed),
    };
    if valid {
        proof {
            lemma_well_formed_text_builds(mac@);
        }
    }
    build_checked_packet(mac, valid)
}

/// Builds the magic packet for address text, as `build_packet` does.
pub fn build_magic_packet(mac: &str) -> (r: Result<Vec<u8>, WolError>)
    ensures
        outcome_view(r) == packet_outcome(mac@, is_mac_text(mac@)),
        is_mac_text(mac@) ==> r is Ok && r->Ok_0@ == magic_packet(mac_octets(mac@))
            && r->Ok_0@.len() == 102,
        !is_mac_text(mac@) ==> r == Err::<Vec<u8>, WolError>(WolError::InvalidMacAddress),
{
    build_packet(&Mac::new(mac))
}

/// The datagram that carries a packet: its first 102 bytes, or `None` when
/// it is shorter than a magic packet.
pub fn datagram(p: &[u8]) -> (r: Option<Vec<u8>>)
    ensures
        p@.len() >= 102 <==> r is Some,
        r matches Some(d) ==> d@ == p@.take(102),
{
    if p.len() < 102 {
        return None;
    }
    let mut d: Vec<u8> = Vec::new();
    let mut i: usize = 0;
    while i < 102
        invariant
            i <= 102 <= p@.len(),
            d@ == p@.take(i as int),
        decreases 102 - i,
    {
        d.push(p[i]);
        i += 1;
        assert(d@ =~= p@.take(i as int));
    }
    Some(d)
}

} // verus!
