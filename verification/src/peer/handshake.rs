//! BitTorrent handshake (BEP-3) with optional extension protocol flag (BEP-10).

use vstd::prelude::*;
use vstd::slice::slice_subrange;
use vstd::string::StringSliceAdditionalSpecFns;
use vstd::utf8::is_ascii_chars_encode_utf8;

use crate::error::{Error, PeerError, Result};
use crate::octets::{append_bytes, array20, same_bytes};
use crate::types::{InfoHash, PeerId};

verus! {

/// Length of a handshake: pstrlen(1) + pstr(19) + reserved(8) + info_hash(20) + peer_id(20).
pub const HANDSHAKE_LEN: usize = 68;

/// Which BEP-10 / BEP-5 / BEP-6 capabilities a peer advertised.
#[derive(Debug, Clone, Copy, PartialEq, Eq, Structural)]
pub struct PeerCapabilities {
    /// Extension protocol (BEP-10): `reserved[5]` & 0x10
    pub extension_protocol: bool,
    /// DHT (BEP-5):           `reserved[7]` & 0x01
    pub dht: bool,
    /// Fast extension (BEP-6): `reserved[7]` & 0x04
    pub fast: bool,
}

impl Default for PeerCapabilities {
    /// No capability.
    fn default() -> (c: Self)
        ensures
            !c.extension_protocol && !c.dht && !c.fast,
    {
        PeerCapabilities { extension_protocol: false, dht: false, fast: false }
    }
}

/// The peer ID and advertised capabilities returned after a successful handshake.
pub struct HandshakeResult {
    pub peer_id: [u8; 20],
    pub capabilities: PeerCapabilities,
}

/// The reserved bytes that advertise the BEP-10 extension protocol.
pub open spec fn our_reserved() -> Seq<u8> {
    seq![0u8, 0, 0, 0, 0, 0x10, 0, 0]
}

/// The bytes of a handshake.
pub open spec fn handshake_bytes(
    reserved: Seq<u8>,
    info_hash: Seq<u8>,
    peer_id: Seq<u8>,
) -> Seq<u8> {
    seq![19u8] + "BitTorrent protocol".spec_bytes() + reserved + info_hash + peer_id
}

/// The capabilities that the reserved bytes of a handshake advertise.
pub open spec fn capabilities_of(reserved: Seq<u8>) -> PeerCapabilities {
    PeerCapabilities {
        extension_protocol: reserved[5] & 0x10 != 0,
        dht: reserved[7] & 0x01 != 0,
        fast: reserved[7] & 0x04 != 0,
    }
}

/// What a peer's handshake says to one who expects the given info hash.
pub open spec fn handshake_of(resp: Seq<u8>, info_hash: Seq<u8>) -> std::result::Result<
    (Seq<u8>, PeerCapabilities),
    PeerError,
> {
    if resp[0] != 19 || resp.subrange(1, 20) != "BitTorrent protocol".spec_bytes() {
        Err(PeerError::ProtocolString { length: resp[0] })
    } else if resp.subrange(28, 48) != info_hash {
        Err(PeerError::InfoHashMismatch)
    } else {
        Ok((resp.subrange(48, 68), capabilities_of(resp.subrange(20, 28))))
    }
}

/// Our handshake.
pub fn build_handshake(info_hash: &InfoHash, our_peer_id: &PeerId) -> (msg: Vec<u8>)
    ensures
        msg@ == handshake_bytes(our_reserved(), info_hash.0@, our_peer_id.0@),
        msg@.len() == HANDSHAKE_LEN,
{
    let mut msg: Vec<u8> = Vec::new();
    msg.push(19);
    append_bytes(&mut msg, "BitTorrent protocol".as_bytes());
    let reserved: [u8; 8] = [0, 0, 0, 0, 0, 0x10, 0, 0];
    append_bytes(&mut msg, reserved.as_slice());
    append_bytes(&mut msg, info_hash.0.as_slice());
    append_bytes(&mut msg, our_peer_id.0.as_slice());
    proof {
        lemma_protocol();
        assert(reserved@ =~= our_reserved());
        assert(msg@ =~= handshake_bytes(our_reserved(), info_hash.0@, our_peer_id.0@));
    }
    msg
}

/// Check the peer's handshake and read its peer-id and advertised
/// capabilities. The info-hash in it must match ours.
pub fn parse_handshake(resp: &[u8], info_hash: &InfoHash) -> (r: Result<HandshakeResult>)
    requires
        resp@.len() == HANDSHAKE_LEN,
    ensures
        match handshake_of(resp@, info_hash.0@) {
            Ok((peer_id, capabilities)) => r matches Ok(h) && h.peer_id@ == peer_id
                && h.capabilities == capabilities,
            Err(e) => r matches Err(Error::Peer(x)) && x == e,
        },
{
    if resp[0] != 19 || !same_bytes(
        slice_subrange(resp, 1, 20),
        "BitTorrent protocol".as_bytes(),
    ) {
        return Err(Error::Peer(PeerError::ProtocolString { length: resp[0] }));
    }
    if !same_bytes(slice_subrange(resp, 28, 48), info_hash.0.as_slice()) {
        return Err(Error::Peer(PeerError::InfoHashMismatch));
    }
    let capabilities = PeerCapabilities {
        extension_protocol: resp[25] & 0x10 != 0,
        dht: resp[27] & 0x01 != 0,
        fast: resp[27] & 0x04 != 0,
    };
    Ok(HandshakeResult { peer_id: array20(resp, 48), capabilities })
}

proof fn lemma_protocol()
    ensures
        "BitTorrent protocol".spec_bytes().len() == 19,
{
    reveal_strlit("BitTorrent protocol");
    is_ascii_chars_encode_utf8("BitTorrent protocol"@);
}

/// A handshake tells the peer who sent it and what it can do, if both are
/// about the same torrent; otherwise it is refused.
#[verifier::spinoff_prover]
#[verifier::rlimit(40)]
pub proof fn lemma_handshake_round_trip(
    reserved: Seq<u8>,
    info_hash: Seq<u8>,
    peer_id: Seq<u8>,
    expected: Seq<u8>,
)
    requires
        reserved.len() == 8,
        info_hash.len() == 20,
        peer_id.len() == 20,
    ensures
        handshake_of(handshake_bytes(reserved, info_hash, peer_id), expected) == if info_hash
            == expected {
            Ok((peer_id, capabilities_of(reserved)))
        } else {
            Err(PeerError::InfoHashMismatch)
        },
{
    let m = handshake_bytes(reserved, info_hash, peer_id);
    lemma_protocol();
    assert(m.subrange(1, 20) =~= "BitTorrent protocol".spec_bytes());
    assert(m.subrange(20, 28) =~= reserved);
    assert(m.subrange(28, 48) =~= info_hash);
    assert(m.subrange(48, 68) =~= peer_id);
}

/// Our handshake advertises the extension protocol and nothing else.
pub proof fn lemma_we_advertise_extensions()
    ensures
        capabilities_of(our_reserved()) == (PeerCapabilities {
            extension_protocol: true,
            dht: false,
            fast: false,
        }),
{
    assert(0x10u8 & 0x10 != 0 && 0u8 & 0x01 == 0 && 0u8 & 0x04 == 0) by (bit_vector);
}

/// The parts of a handshake stand where the protocol wants them.
#[verifier::spinoff_prover]
pub proof fn lemma_handshake_layout(reserved: Seq<u8>, info_hash: Seq<u8>, peer_id: Seq<u8>)
    requires
        reserved.len() == 8,
        info_hash.len() == 20,
        peer_id.len() == 20,
    ensures
        ({
            let m = handshake_bytes(reserved, info_hash, peer_id);
            &&& m.len() == 68
            &&& m[0] == 19
            &&& m.subrange(1, 20) == "BitTorrent protocol".spec_bytes()
            &&& m.subrange(20, 28) == reserved
            &&& m.subrange(28, 48) == info_hash
            &&& m.subrange(48, 68) == peer_id
        }),
{
    let m = handshake_bytes(reserved, info_hash, peer_id);
    lemma_protocol();
    assert(m.subrange(1, 20) =~= "BitTorrent protocol".spec_bytes());
    assert(m.subrange(20, 28) =~= reserved);
    assert(m.subrange(28, 48) =~= info_hash);
    assert(m.subrange(48, 68) =~= peer_id);
}

proof fn lemma_bits(b: u8)
    by (bit_vector)
    ensures
        (b & 0x10 != 0) <==> (b / 16) % 2 == 1,
        (b & 0x01 != 0) <==> b % 2 == 1,
        (b & 0x04 != 0) <==> (b / 4) % 2 == 1,
{
}

/// Each capability has its own bit among the reserved ones, and the others do
/// not matter.
pub proof fn lemma_capability_bits(reserved: Seq<u8>)
    requires
        reserved.len() == 8,
    ensures
        capabilities_of(reserved).extension_protocol <==> (reserved[5] / 16) % 2 == 1,
        capabilities_of(reserved).dht <==> reserved[7] % 2 == 1,
        capabilities_of(reserved).fast <==> (reserved[7] / 4) % 2 == 1,
{
    lemma_bits(reserved[5]);
    lemma_bits(reserved[7]);
}

/// What does not begin like a handshake is refused, whatever follows.
pub proof fn lemma_not_a_handshake(resp: Seq<u8>, expected: Seq<u8>)
    requires
        resp.len() == 68,
        resp[0] != 19 || resp.subrange(1, 20) != "BitTorrent protocol".spec_bytes(),
    ensures
        handshake_of(resp, expected) == Err::<(Seq<u8>, PeerCapabilities), PeerError>(
            PeerError::ProtocolString { length: resp[0] },
        ),
{
}

} // verus!
