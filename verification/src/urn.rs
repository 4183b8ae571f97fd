//! References and capabilities as URNs, peer keys and peer addresses.

use crate::text::chars_of;
use crate::text::decimal;
use crate::text::find_marker;
use crate::text::first_marker;
use crate::text::has_marker_at;
use crate::text::marker_at;
use crate::text::push_decimal;
use crate::text::push_text;
use crate::text::string_of;
use crate::text::tail_from;
use crate::types::BlockSize;
use crate::types::CapabilityView;
use crate::types::ReadCapability;
use crate::types::ReferenceKeyPair;
use crate::types::RkPair;
use vstd::prelude::*;

verus! {

/// The unpadded RFC 4648 base32 text of `data`.
pub uninterp spec fn base32_text(data: Seq<u8>) -> Seq<char>;

/// The bytes that unpadded RFC 4648 base32 `text` stands for, if it is
/// valid.
pub uninterp spec fn base32_bytes(text: Seq<char>) -> Option<Seq<u8>>;

/// Calls `base32::encode` with the alphabet `Rfc4648 { padding: false }`.
/// The text is a function of the bytes alone, and decoding it with the same
/// alphabet gives the bytes back.
#[verifier::external_body]
fn base32_encode(data: &[u8]) -> (text: String)
    ensures
        text@ == base32_text(data@),
        base32_bytes(text@) == Some(data@),
{
    base32::encode(base32::Alphabet::Rfc4648 { padding: false }, data)
}

/// Calls `base32::decode` with the alphabet `Rfc4648 { padding: false }`.
/// Whether the text is accepted, and the bytes it gives, are a function of
/// the text alone.
#[verifier::external_body]
fn base32_decode(text: &str) -> (data: Option<Vec<u8>>)
    ensures
        match data {
            Some(bytes) => base32_bytes(text@) == Some(bytes@),
            None => base32_bytes(text@).is_none(),
        },
{
    base32::decode(base32::Alphabet::Rfc4648 { padding: false }, text)
}

/// The bytes that follow the first `urn:` of `urn` in base32, provided
/// there are exactly 32 of them.
pub open spec fn urn_reference(urn: Seq<char>) -> Option<Seq<u8>> {
    match first_marker(urn, "urn:"@, 0) {
        None => None,
        Some(at) => match base32_bytes(urn.subrange(at + "urn:"@.len(), urn.len() as int)) {
            Some(bytes) => if bytes.len() == 32 {
                Some(bytes)
            } else {
                None
            },
            None => None,
        },
    }
}

/// The URN of a bare reference: `urn:` and the reference in base32.
pub open spec fn reference_urn(reference: Seq<u8>) -> Seq<char> {
    "urn:"@ + base32_text(reference)
}

/// Copies 32 bytes into an array.
fn array_of(bytes: &Vec<u8>, from: usize) -> (out: [u8; 32])
    requires
        from + 32 <= bytes@.len(),
    ensures
        out@ == bytes@.subrange(from as int, from + 32),
{
    let mut out: [u8; 32] = [0u8; 32];
    let total: usize = bytes.len();
    let mut i: usize = 0;
    while i < 32
        invariant
            i <= 32,
            from + 32 <= bytes@.len() == total,
            forall|j: int| 0 <= j < i ==> out@[j] == bytes@[from + j],
        decreases 32 - i,
    {
        out[i] = bytes[from + i];
        i += 1;
    }
    assert(out@ =~= bytes@.subrange(from as int, from + 32));
    out
}

/// Reads a bare reference URN: the text after the first `urn:` must be the
/// base32 of exactly 32 bytes.
pub fn urn_to_ref(urn: String) -> (reference: Option<[u8; 32]>)
    ensures
        match reference {
            Some(r) => urn_reference(urn@) == Some(r@),
            None => urn_reference(urn@).is_none(),
        },
{
    let chars = chars_of(urn.as_str());
    match find_marker(&chars, "urn:") {
        None => None,
        Some(at) => {
            let skip: usize = "urn:".unicode_len();
            let total: usize = chars.len();
            assert(at + skip <= total);
            let tail = tail_from(&chars, at + skip);
            let text = string_of(&tail);
            match base32_decode(text.as_str()) {
                Some(bytes) => {
                    if bytes.len() == 32 {
                        let r = array_of(&bytes, 0);
                        assert(bytes@.subrange(0, 32) =~= bytes@);
                        Some(r)
                    } else {
                        None
                    }
                },
                None => None,
            }
        },
    }
}

/// Writes a reference as a bare reference URN. Reading the URN gives the
/// reference back.
pub fn ref_to_urn(reference: &[u8; 32]) -> (urn: String)
    ensures
        urn@ == reference_urn(reference@),
        urn_reference(urn@) == Some(reference@),
{
    let encoded = base32_encode(reference.as_slice());
    let mut chars: Vec<char> = Vec::new();
    push_text(&mut chars, "urn:");
    push_text(&mut chars, encoded.as_str());
    let urn = string_of(&chars);
    proof {
        let marker = "urn:"@;
        reveal_strlit("urn:");
        assert(urn@ =~= marker + encoded@);
        assert(urn@.subrange(0, marker.len() as int) =~= marker);
        assert(marker_at(urn@, 0, marker));
        assert(urn@.subrange(marker.len() as int, urn@.len() as int) =~= encoded@);
    }
    urn
}

/// The DHT key of a block: the first 20 bytes of its reference.
pub fn try_ref_to_id(reference: &[u8; 32]) -> (id: [u8; 20])
    ensures
        id@ == reference@.subrange(0, 20),
{
    let mut id: [u8; 20] = [0u8; 20];
    let mut i: usize = 0;
    while i < 20
        invariant
            i <= 20,
            forall|j: int| 0 <= j < i ==> id@[j] == reference@[j],
        decreases 20 - i,
    {
        id[i] = reference[i];
        i += 1;
    }
    assert(id@ =~= reference@.subrange(0, 20));
    id
}

/// The address under which the peer at `ip` and `port` serves the block
/// that `reference` names.
pub open spec fn peer_url(ip: Seq<u8>, port: u16, reference: Seq<u8>) -> Seq<char> {
    "http://"@ + decimal(ip[0] as nat) + "."@ + decimal(ip[1] as nat) + "."@ + decimal(
        ip[2] as nat,
    ) + "."@ + decimal(ip[3] as nat) + ":"@ + decimal(port as nat) + "/uri-res/N2R?"@
        + reference_urn(reference)
}

/// Builds the address under which a peer serves one block.
pub fn peer_to_url(ip: [u8; 4], port: u16, block: &[u8; 32]) -> (url: String)
    ensures
        url@ == peer_url(ip@, port, block@),
{
    let urn = ref_to_urn(block);
    let mut chars: Vec<char> = Vec::new();
    push_text(&mut chars, "http://");
    push_decimal(&mut chars, ip[0] as u16);
    push_text(&mut chars, ".");
    push_decimal(&mut chars, ip[1] as u16);
    push_text(&mut chars, ".");
    push_decimal(&mut chars, ip[2] as u16);
    push_text(&mut chars, ".");
    push_decimal(&mut chars, ip[3] as u16);
    push_text(&mut chars, ":");
    push_decimal(&mut chars, port);
    push_text(&mut chars, "/uri-res/N2R?");
    push_text(&mut chars, urn.as_str());
    assert(chars@ =~= peer_url(ip@, port, block@));
    string_of(&chars)
}

/// The byte that stands for a block size in a capability.
pub open spec fn size_byte(size: BlockSize) -> u8 {
    match size {
        BlockSize::Size1KiB => 0u8,
        BlockSize::Size32KiB => 1u8,
    }
}

/// A capability as 66 bytes: block size, level, root reference, root key.
pub open spec fn capability_bytes(capability: CapabilityView) -> Seq<u8> {
    seq![size_byte(capability.block_size), capability.level as u8] + capability.root.reference
        + capability.root.key
}

/// The capability that 66 bytes stand for; none for another length or an
/// unknown block size.
pub open spec fn parsed_capability(bytes: Seq<u8>) -> Option<CapabilityView> {
    if bytes.len() != 66 || bytes[0] > 1 {
        None
    } else {
        Some(
            CapabilityView {
                block_size: if bytes[0] == 0 {
                    BlockSize::Size1KiB
                } else {
                    BlockSize::Size32KiB
                },
                level: bytes[1] as nat,
                root: RkPair { reference: bytes.subrange(2, 34), key: bytes.subrange(34, 66) },
            },
        )
    }
}

/// The URN of a capability: `urn:eris:` and its bytes in base32.
pub open spec fn capability_urn(capability: CapabilityView) -> Seq<char> {
    "urn:eris:"@ + base32_text(capability_bytes(capability))
}

/// The capability that a URN names: the text must begin with `urn:eris:`
/// and go on with the base32 of a capability's bytes.
pub open spec fn urn_capability(urn: Seq<char>) -> Option<CapabilityView> {
    if marker_at(urn, 0, "urn:eris:"@) {
        match base32_bytes(urn.subrange("urn:eris:"@.len() as int, urn.len() as int)) {
            Some(bytes) => parsed_capability(bytes),
            None => None,
        }
    } else {
        None
    }
}

/// Reading the bytes of a capability gives the capability back.
pub proof fn lemma_capability_bytes_round_trip(capability: ReadCapability)
    ensures
        capability_bytes(capability@).len() == 66,
        parsed_capability(capability_bytes(capability@)) == Some(capability@),
{
    let c = capability@;
    let bytes = capability_bytes(c);
    assert(c.root.reference.len() == 32);
    assert(c.root.key.len() == 32);
    assert(bytes.len() == 66);
    assert(bytes[0] == size_byte(c.block_size));
    assert(bytes[1] == capability.level);
    assert(bytes.subrange(2, 34) =~= c.root.reference);
    assert(bytes.subrange(34, 66) =~= c.root.key);
}

impl ReadCapability {
    /// Writes the capability as 66 bytes.
    pub fn to_bytes(&self) -> (bytes: Vec<u8>)
        ensures
            bytes@ == capability_bytes(self@),
    {
        let mut bytes: Vec<u8> = Vec::with_capacity(66);
        bytes.push(
            match self.block_size {
                BlockSize::Size1KiB => 0,
                BlockSize::Size32KiB => 1,
            },
        );
        bytes.push(self.level);
        let mut i: usize = 0;
        while i < 32
            invariant
                i <= 32,
                bytes@ == seq![size_byte(self.block_size), self.level] + self.root.reference@.subrange(
                    0,
                    i as int,
                ),
            decreases 32 - i,
        {
            bytes.push(self.root.reference[i]);
            assert(bytes@ =~= seq![size_byte(self.block_size), self.level]
                + self.root.reference@.subrange(0, i + 1));
            i += 1;
        }
        assert(self.root.reference@.subrange(0, 32) =~= self.root.reference@);
        let mut k: usize = 0;
        while k < 32
            invariant
                k <= 32,
                bytes@ == seq![size_byte(self.block_size), self.level] + self.root.reference@
                    + self.root.key@.subrange(0, k as int),
            decreases 32 - k,
        {
            bytes.push(self.root.key[k]);
            assert(bytes@ =~= seq![size_byte(self.block_size), self.level] + self.root.reference@
                + self.root.key@.subrange(0, k + 1));
            k += 1;
        }
        assert(self.root.key@.subrange(0, 32) =~= self.root.key@);
        bytes
    }

    /// Reads a capability from its 66 bytes.
    pub fn from_bytes(data: &Vec<u8>) -> (capability: Option<ReadCapability>)
        ensures
            match capability {
                Some(c) => parsed_capability(data@) == Some(c@),
                None => parsed_capability(data@).is_none(),
            },
    {
        if data.len() != 66 || data[0] > 1 {
            return None;
        }
        let block_size = if data[0] == 0 {
            BlockSize::Size1KiB
        } else {
            BlockSize::Size32KiB
        };
        let reference = array_of(data, 2);
        let key = array_of(data, 34);
        Some(
            ReadCapability {
                block_size,
                level: data[1],
                root: ReferenceKeyPair { reference, key },
            },
        )
    }

    /// Writes the capability as a URN. Reading the URN gives the capability
    /// back.
    pub fn to_urn(&self) -> (urn: String)
        ensures
            urn@ == capability_urn(self@),
            urn_capability(urn@) == Some(self@),
    {
        let bytes = self.to_bytes();
        let encoded = base32_encode(bytes.as_slice());
        let mut chars: Vec<char> = Vec::new();
        push_text(&mut chars, "urn:eris:");
        push_text(&mut chars, encoded.as_str());
        let urn = string_of(&chars);
        proof {
            let marker = "urn:eris:"@;
            lemma_capability_bytes_round_trip(*self);
            assert(urn@ =~= marker + encoded@);
            assert(urn@.subrange(0, marker.len() as int) =~= marker);
            assert(urn@.subrange(marker.len() as int, urn@.len() as int) =~= encoded@);
        }
        urn
    }

    /// Reads a capability URN: `urn:eris:` followed by the base32 of
    /// exactly 66 bytes that name a known block size.
    pub fn from_urn(urn: String) -> (capability: Option<ReadCapability>)
        ensures
            match capability {
                Some(c) => urn_capability(urn@) == Some(c@),
                None => urn_capability(urn@).is_none(),
            },
    {
        let chars = chars_of(urn.as_str());
        if !has_marker_at(&chars, 0, "urn:eris:") {
            return None;
        }
        let skip: usize = "urn:eris:".unicode_len();
        let tail = tail_from(&chars, skip);
        let text = string_of(&tail);
        match base32_decode(text.as_str()) {
            Some(bytes) => ReadCapability::from_bytes(&bytes),
            None => None,
        }
    }
}

} // verus!
