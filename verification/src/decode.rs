//! The decoder: the tree below a capability is walked depth first, every
//! block is checked against its reference before it is decrypted, and the
//! padding is taken off the last leaf.

use crate::cipher::apply_cipher;
use crate::cipher::chacha20_zero_nonce;
use crate::encode::pair_views;
use crate::encode::MAX_LEVEL;
use crate::hash::blake2b256;
use crate::hash::block_matches;
use crate::types::bytes_equal;
use crate::types::BlockSize;
use crate::types::BlockWithReference;
use crate::types::CapabilityView;
use crate::types::ReadCapability;
use crate::types::ReferenceKeyPair;
use crate::types::RkPair;
use vstd::prelude::*;

verus! {

/// Why a capability could not be decoded.
#[derive(Clone, Copy, Debug)]
pub enum DecodeError {
    /// No block is known under this reference.
    BlockNotFound([u8; 32]),
    /// The block under this reference does not have the capability's block
    /// size.
    WrongLength([u8; 32]),
    /// The digest of the block found under this reference is not the
    /// reference.
    Corrupted([u8; 32]),
    /// The last leaf does not end in `0x80` followed by zeros only.
    BadPadding,
    /// The capability claims more levels than any tree has.
    TooDeep,
}

/// Mathematical value of a `DecodeError`.
pub ghost enum Fault {
    BlockNotFound(Seq<u8>),
    WrongLength(Seq<u8>),
    Corrupted(Seq<u8>),
    BadPadding,
    TooDeep,
}

impl View for DecodeError {
    type V = Fault;

    open spec fn view(&self) -> Fault {
        match *self {
            DecodeError::BlockNotFound(r) => Fault::BlockNotFound(r@),
            DecodeError::WrongLength(r) => Fault::WrongLength(r@),
            DecodeError::Corrupted(r) => Fault::Corrupted(r@),
            DecodeError::BadPadding => Fault::BadPadding,
            DecodeError::TooDeep => Fault::TooDeep,
        }
    }
}

/// The bytes of the first block in `blocks` that is filed under
/// `reference`, if there is one.
pub open spec fn resolved(blocks: Seq<BlockWithReference>, reference: Seq<u8>) -> Option<Seq<u8>>
    decreases blocks.len(),
{
    if blocks.len() == 0 {
        None
    } else if blocks[0].reference@ == reference {
        Some(blocks[0].block@)
    } else {
        resolved(blocks.drop_first(), reference)
    }
}

/// Looks `reference` up among `blocks`; the first block filed under it wins.
pub fn resolve<'a>(blocks: &'a [BlockWithReference], reference: &[u8; 32]) -> (found: Option<
    &'a BlockWithReference,
>)
    ensures
        match found {
            Some(b) => resolved(blocks@, reference@) == Some(b.block@) && b.reference@
                == reference@,
            None => resolved(blocks@, reference@).is_none(),
        },
{
    let mut i: usize = 0;
    assert(blocks@.subrange(0, blocks@.len() as int) =~= blocks@);
    while i < blocks.len()
        invariant
            i <= blocks@.len(),
            resolved(blocks@, reference@) == resolved(
                blocks@.subrange(i as int, blocks@.len() as int),
                reference@,
            ),
        decreases blocks@.len() - i,
    {
        let ghost rest = blocks@.subrange(i as int, blocks@.len() as int);
        assert(rest[0] == blocks@[i as int]);
        assert(rest.drop_first() =~= blocks@.subrange(i + 1, blocks@.len() as int));
        if bytes_equal(blocks[i].reference.as_slice(), reference.as_slice()) {
            return Some(&blocks[i]);
        }
        i += 1;
    }
    assert(blocks@.subrange(i as int, blocks@.len() as int).len() == 0);
    None
}

/// The plaintext of the block that `pair` names: the block must be known,
/// have the right length and hash to the reference it was asked for under.
pub open spec fn opened(blocks: Seq<BlockWithReference>, pair: RkPair, size: BlockSize) -> Result<
    Seq<u8>,
    Fault,
> {
    match resolved(blocks, pair.reference) {
        None => Err(Fault::BlockNotFound(pair.reference)),
        Some(b) => if b.len() != size.spec_bytes() {
            Err(Fault::WrongLength(pair.reference))
        } else if blake2b256(b) != pair.reference {
            Err(Fault::Corrupted(pair.reference))
        } else {
            Ok(chacha20_zero_nonce(pair.key, b))
        },
    }
}

/// Fetches, checks and decrypts the block that `pair` names.
pub fn open_block(blocks: &[BlockWithReference], pair: &ReferenceKeyPair, size: BlockSize) -> (out:
    Result<Vec<u8>, DecodeError>)
    ensures
        match out {
            Ok(plain) => opened(blocks@, pair@, size) == Ok::<Seq<u8>, Fault>(plain@)
                && plain@.len() == size.spec_bytes(),
            Err(e) => opened(blocks@, pair@, size) == Err::<Seq<u8>, Fault>(e@),
        },
{
    match resolve(blocks, &pair.reference) {
        None => Err(DecodeError::BlockNotFound(pair.reference)),
        Some(found) => {
            if found.block.len() != size.bytes() {
                Err(DecodeError::WrongLength(pair.reference))
            } else if !block_matches(&pair.reference, found.block.as_slice()) {
                Err(DecodeError::Corrupted(pair.reference))
            } else {
                Ok(apply_cipher(&pair.key, found.block.as_slice()))
            }
        },
    }
}

/// What is left of a padded leaf once the padding is taken off: the bytes
/// before the last `0x80`, provided only zeros follow it.
pub open spec fn unpadded(plain: Seq<u8>) -> Option<Seq<u8>>
    decreases plain.len(),
{
    if plain.len() == 0 {
        None
    } else if plain.last() == 0x80u8 {
        Some(plain.drop_last())
    } else if plain.last() == 0u8 {
        unpadded(plain.drop_last())
    } else {
        None
    }
}

/// Takes the padding off the last leaf.
pub fn unpad(plain: &[u8]) -> (out: Option<Vec<u8>>)
    ensures
        match out {
            Some(v) => unpadded(plain@) == Some(v@),
            None => unpadded(plain@).is_none(),
        },
{
    let mut end: usize = plain.len();
    assert(plain@.subrange(0, end as int) =~= plain@);
    while end > 0
        invariant
            end <= plain@.len(),
            unpadded(plain@) == unpadded(plain@.subrange(0, end as int)),
        decreases end,
    {
        let ghost head = plain@.subrange(0, end as int);
        assert(head.last() == plain@[end - 1]);
        assert(head.drop_last() =~= plain@.subrange(0, end - 1));
        let b: u8 = plain[end - 1];
        if b == 0x80 {
            let mut out: Vec<u8> = Vec::with_capacity(end - 1);
            let mut i: usize = 0;
            while i < end - 1
                invariant
                    i <= end - 1,
                    end <= plain@.len(),
                    out@ == plain@.subrange(0, i as int),
                decreases end - 1 - i,
            {
                out.push(plain[i]);
                assert(out@ =~= plain@.subrange(0, i + 1));
                i += 1;
            }
            return Some(out);
        } else if b != 0 {
            return None;
        }
        end -= 1;
    }
    None
}

/// The pair held in slot `s` of an inner node: 32 bytes of reference, then
/// 32 bytes of key.
pub open spec fn slot_pair(plain: Seq<u8>, s: int) -> RkPair {
    RkPair {
        reference: plain.subrange(64 * s, 64 * s + 32),
        key: plain.subrange(64 * s + 32, 64 * s + 64),
    }
}

/// Whether every byte is zero.
pub open spec fn is_zero(bytes: Seq<u8>) -> bool {
    forall|i: int| 0 <= i < bytes.len() ==> bytes[i] == 0u8
}

/// Number of children among the first `slots` slots of an inner node: the
/// slots before the first one whose reference is all zero.
pub open spec fn child_count(plain: Seq<u8>, slots: nat) -> nat
    decreases slots,
{
    if slots == 0 {
        0
    } else {
        let before = child_count(plain, (slots - 1) as nat);
        if before == slots - 1 && !is_zero(slot_pair(plain, slots - 1).reference) {
            slots
        } else {
            before
        }
    }
}

/// The children of an inner node, in order.
pub open spec fn children(plain: Seq<u8>, size: BlockSize) -> Seq<RkPair> {
    Seq::new(child_count(plain, size.spec_arity()), |s: int| slot_pair(plain, s))
}

/// Once a slot with a zero reference has ended the list, later slots add
/// nothing.
proof fn lemma_list_ended(plain: Seq<u8>, ended: nat, slots: nat)
    requires
        child_count(plain, ended) < ended <= slots,
    ensures
        child_count(plain, slots) == child_count(plain, ended),
    decreases slots,
{
    if slots > ended {
        lemma_list_ended(plain, ended, (slots - 1) as nat);
    }
}

/// Whether all 32 bytes are zero.
fn all_zero(bytes: &[u8; 32]) -> (zero: bool)
    ensures
        zero == is_zero(bytes@),
{
    let mut i: usize = 0;
    while i < 32
        invariant
            i <= 32,
            forall|j: int| 0 <= j < i ==> bytes@[j] == 0u8,
        decreases 32 - i,
    {
        if bytes[i] != 0 {
            return false;
        }
        i += 1;
    }
    true
}

/// Reads the pair in slot `s` of an inner node.
fn read_pair(plain: &Vec<u8>, s: usize) -> (pair: ReferenceKeyPair)
    requires
        64 * s + 64 <= plain@.len(),
    ensures
        pair@ == slot_pair(plain@, s as int),
{
    let mut reference: [u8; 32] = [0u8; 32];
    let mut key: [u8; 32] = [0u8; 32];
    let total: usize = plain.len();
    let mut i: usize = 0;
    while i < 32
        invariant
            i <= 32,
            64 * s + 64 <= plain@.len() == total,
            forall|j: int| 0 <= j < i ==> reference@[j] == plain@[64 * s + j],
            forall|j: int| 0 <= j < i ==> key@[j] == plain@[64 * s + 32 + j],
        decreases 32 - i,
    {
        reference[i] = plain[64 * s + i];
        key[i] = plain[64 * s + 32 + i];
        i += 1;
    }
    assert(reference@ =~= plain@.subrange(64 * s, 64 * s + 32));
    assert(key@ =~= plain@.subrange(64 * s + 32, 64 * s + 64));
    ReferenceKeyPair { reference, key }
}

/// Reads the children of a decrypted inner node: its pairs in order, up to
/// the first whose reference is all zero.
pub fn read_children(plain: &Vec<u8>, size: BlockSize) -> (kids: Vec<ReferenceKeyPair>)
    requires
        plain@.len() == size.spec_bytes(),
    ensures
        pair_views(kids@) == children(plain@, size),
{
    let arity: usize = size.arity();
    let mut kids: Vec<ReferenceKeyPair> = Vec::new();
    let mut s: usize = 0;
    while s < arity
        invariant
            s <= arity,
            arity == size.spec_arity(),
            arity * 64 == plain@.len(),
            kids@.len() == s,
            child_count(plain@, s as nat) == s,
            forall|k: int| 0 <= k < s ==> (#[trigger] kids@[k])@ == slot_pair(plain@, k),
        decreases arity - s,
    {
        let pair = read_pair(plain, s);
        if all_zero(&pair.reference) {
            proof {
                assert(child_count(plain@, (s + 1) as nat) == s);
                lemma_list_ended(plain@, (s + 1) as nat, arity as nat);
                assert(pair_views(kids@) =~= children(plain@, size));
            }
            return kids;
        }
        kids.push(pair);
        s += 1;
    }
    assert(pair_views(kids@) =~= children(plain@, size));
    kids
}

/// `head` put in front of a result that follows it.
pub open spec fn prepend(head: Seq<u8>, rest: Result<Seq<u8>, Fault>) -> Result<Seq<u8>, Fault> {
    match rest {
        Ok(tail) => Ok(head + tail),
        Err(e) => Err(e),
    }
}

/// The content below the block that `pair` names, which stands `level`
/// levels above the leaves. `last` says that the subtree ends the content,
/// so that its last leaf carries the padding.
pub open spec fn decoded_node(
    blocks: Seq<BlockWithReference>,
    pair: RkPair,
    size: BlockSize,
    level: nat,
    last: bool,
) -> Result<Seq<u8>, Fault>
    decreases level, 0nat,
{
    match opened(blocks, pair, size) {
        Err(e) => Err(e),
        Ok(plain) => if level == 0 {
            if last {
                match unpadded(plain) {
                    Some(content) => Ok(content),
                    None => Err(Fault::BadPadding),
                }
            } else {
                Ok(plain)
            }
        } else {
            decoded_children(blocks, children(plain, size), size, (level - 1) as nat, last)
        },
    }
}

/// The content below `kids`, in order; the first failure ends the walk.
pub open spec fn decoded_children(
    blocks: Seq<BlockWithReference>,
    kids: Seq<RkPair>,
    size: BlockSize,
    level: nat,
    last: bool,
) -> Result<Seq<u8>, Fault>
    decreases level, kids.len() + 1,
{
    if kids.len() == 0 {
        Ok(Seq::empty())
    } else {
        match decoded_node(blocks, kids[0], size, level, last && kids.len() == 1) {
            Err(e) => Err(e),
            Ok(head) => prepend(
                head,
                decoded_children(blocks, kids.drop_first(), size, level, last),
            ),
        }
    }
}

/// The content that a capability names, given the blocks at hand.
pub open spec fn decoded(blocks: Seq<BlockWithReference>, capability: CapabilityView) -> Result<
    Seq<u8>,
    Fault,
> {
    if capability.level > MAX_LEVEL {
        Err(Fault::TooDeep)
    } else {
        decoded_node(blocks, capability.root, capability.block_size, capability.level, true)
    }
}

/// Whether an outcome of decoding is the one the model gives.
pub open spec fn agrees(out: Result<Vec<u8>, DecodeError>, model: Result<Seq<u8>, Fault>) -> bool {
    match out {
        Ok(content) => model == Ok::<Seq<u8>, Fault>(content@),
        Err(e) => model == Err::<Seq<u8>, Fault>(e@),
    }
}

/// Walks the subtree below `pair` and returns its content.
fn decode_node(
    blocks: &[BlockWithReference],
    pair: &ReferenceKeyPair,
    size: BlockSize,
    level: u8,
    last: bool,
) -> (out: Result<Vec<u8>, DecodeError>)
    ensures
        agrees(out, decoded_node(blocks@, pair@, size, level as nat, last)),
    decreases level,
{
    let plain = match open_block(blocks, pair, size) {
        Ok(plain) => plain,
        Err(e) => {
            return Err(e);
        },
    };
    if level == 0 {
        if last {
            match unpad(plain.as_slice()) {
                Some(content) => Ok(content),
                None => Err(DecodeError::BadPadding),
            }
        } else {
            Ok(plain)
        }
    } else {
        let kids = read_children(&plain, size);
        let ghost all = pair_views(kids@);
        let ghost below = (level - 1) as nat;
        let mut out: Vec<u8> = Vec::new();
        let mut s: usize = 0;
        assert(all.subrange(0, all.len() as int) =~= all);
        assert(Seq::<u8>::empty() + Seq::<u8>::empty() =~= Seq::<u8>::empty());
        while s < kids.len()
            invariant
                s <= kids@.len(),
                level > 0,
                below == level - 1,
                all == pair_views(kids@),
                decoded_node(blocks@, pair@, size, level as nat, last) == decoded_children(
                    blocks@,
                    all,
                    size,
                    below,
                    last,
                ),
                decoded_children(blocks@, all, size, below, last) == prepend(
                    out@,
                    decoded_children(blocks@, all.subrange(s as int, all.len() as int), size, below, last),
                ),
            decreases kids@.len() - s,
        {
            let ends: bool = last && s + 1 == kids.len();
            let ghost rest = all.subrange(s as int, all.len() as int);
            let ghost tail = decoded_children(blocks@, rest.drop_first(), size, below, last);
            proof {
                assert(all.len() == kids@.len());
                assert(rest.len() == kids@.len() - s);
                assert(rest[0] == kids@[s as int]@);
                assert(rest.drop_first() =~= all.subrange(s + 1, all.len() as int));
                assert(decoded_children(blocks@, rest, size, below, last) == match decoded_node(
                    blocks@,
                    rest[0],
                    size,
                    below,
                    ends,
                ) {
                    Err(e) => Err(e),
                    Ok(head) => prepend(head, tail),
                });
            }
            match decode_node(blocks, &kids[s], size, level - 1, ends) {
                Err(e) => {
                    return Err(e);
                },
                Ok(part) => {
                    let ghost before = out@;
                    let mut part = part;
                    let ghost piece = part@;
                    out.append(&mut part);
                    proof {
                        match tail {
                            Ok(t) => {
                                assert((before + piece) + t =~= before + (piece + t));
                            },
                            Err(_) => {},
                        }
                    }
                },
            }
            s += 1;
        }
        assert(out@ + Seq::<u8>::empty() =~= out@);
        Ok(out)
    }
}

/// Decodes the content that `capability` names from the blocks at hand.
///
/// Every block is looked up by its reference, checked against it, and
/// decrypted with the key its parent holds for it; children are visited in
/// the order their parent lists them, and the padding is taken off the last
/// leaf. The first failure ends the walk and is returned: a block that is
/// not at hand, one of the wrong length, one that does not hash to its
/// reference, a last leaf without valid padding, or a level above
/// `MAX_LEVEL`.
pub fn decode(capability: &ReadCapability, blocks: &[BlockWithReference]) -> (out: Result<
    Vec<u8>,
    DecodeError,
>)
    ensures
        agrees(out, decoded(blocks@, capability@)),
{
    if capability.level > MAX_LEVEL {
        return Err(DecodeError::TooDeep);
    }
    decode_node(blocks, &capability.root, capability.block_size, capability.level, true)
}

/// Only a block that hashes to the reference it was asked for under, and
/// has the capability's block size, is ever decrypted.
pub proof fn lemma_only_matching_blocks_open(
    blocks: Seq<BlockWithReference>,
    pair: RkPair,
    size: BlockSize,
)
    requires
        opened(blocks, pair, size) is Ok,
    ensures
        resolved(blocks, pair.reference) matches Some(block) && blake2b256(block) == pair.reference
            && block.len() == size.spec_bytes(),
{
}

/// A capability whose root block was altered, so that it no longer hashes
/// to the root reference, is rejected.
pub proof fn lemma_altered_root_is_rejected(
    blocks: Seq<BlockWithReference>,
    capability: CapabilityView,
    found: Seq<u8>,
)
    requires
        resolved(blocks, capability.root.reference) == Some(found),
        blake2b256(found) != capability.root.reference,
    ensures
        decoded(blocks, capability) is Err,
{
}

/// Decoding succeeds only if the subtree's own block passed the check, at
/// whatever level it stands.
pub proof fn lemma_decoded_node_was_checked(
    blocks: Seq<BlockWithReference>,
    pair: RkPair,
    size: BlockSize,
    level: nat,
    last: bool,
)
    requires
        decoded_node(blocks, pair, size, level, last) is Ok,
    ensures
        resolved(blocks, pair.reference) matches Some(block) && blake2b256(block) == pair.reference,
{
}

} // verus!
