//! The encoder: content is cut into padded leaves, every block is
//! encrypted under a key derived from its own plaintext, and the pairs of
//! references and keys are packed into inner nodes until one is left.

use crate::cipher::apply_cipher;
use crate::cipher::chacha20_zero_nonce;
use crate::decode::decoded;
use crate::decode::opened;
use crate::decode::resolved;
use crate::decode::Fault;
use crate::hash::blake2b256;
use crate::roundtrip::all_held;
use crate::roundtrip::collision_free;
use crate::roundtrip::holds;
use crate::roundtrip::leaf_segment;
use crate::roundtrip::lemma_last_leaf_unpads;
use crate::roundtrip::lemma_round_trip;
use crate::roundtrip::no_zero_reference;
use crate::roundtrip::row;
use crate::roundtrip::row_plain;
use crate::roundtrip::seals;
use crate::hash::blake2b256_hash;
use crate::hash::blake2b256_keyed;
use crate::types::BlockSize;
use crate::types::BlockWithReference;
use crate::types::CapabilityView;
use crate::types::ReadCapability;
use crate::types::ReferenceKeyPair;
use crate::types::RkPair;
use vstd::arithmetic::power2::lemma2_to64;
use vstd::arithmetic::power2::lemma_pow2_unfold;
use vstd::arithmetic::power2::pow2;
use vstd::prelude::*;

verus! {

/// Byte `pos` of the padded content stream: the content itself, then one
/// `0x80`, then zeros without end.
pub open spec fn padded_byte(content: Seq<u8>, pos: int) -> u8 {
    if pos < content.len() {
        content[pos]
    } else if pos == content.len() {
        0x80u8
    } else {
        0u8
    }
}

/// Plaintext of leaf `i`: block `i` of the padded content stream.
pub open spec fn leaf_plain(content: Seq<u8>, size: BlockSize, i: int) -> Seq<u8> {
    Seq::new(size.spec_bytes(), |t: int| padded_byte(content, i * size.spec_bytes() + t))
}

/// Number of leaves: every full block of content, and one more that holds
/// the rest and the padding.
pub open spec fn leaf_count(content: Seq<u8>, size: BlockSize) -> nat {
    content.len() / size.spec_bytes() + 1
}

/// Key of a block: the keyed digest of its plaintext under the convergence
/// secret.
pub open spec fn sealed_key(plain: Seq<u8>, secret: Seq<u8>) -> Seq<u8> {
    blake2b256_keyed(plain, secret)
}

/// Ciphertext of a block: its plaintext under ChaCha20 with the block's key.
pub open spec fn sealed_block(plain: Seq<u8>, secret: Seq<u8>) -> Seq<u8> {
    chacha20_zero_nonce(sealed_key(plain, secret), plain)
}

/// Reference-key pair of a block: the digest of its ciphertext, and its key.
pub open spec fn sealed_pair(plain: Seq<u8>, secret: Seq<u8>) -> RkPair {
    RkPair { reference: blake2b256(sealed_block(plain, secret)), key: sealed_key(plain, secret) }
}

/// Pairs of all leaves of `content`, in order.
pub open spec fn leaf_pairs(content: Seq<u8>, secret: Seq<u8>, size: BlockSize) -> Seq<RkPair> {
    Seq::new(leaf_count(content, size), |i: int| sealed_pair(leaf_plain(content, size, i), secret))
}

/// Ciphertexts of all leaves of `content`, in order.
pub open spec fn leaf_blocks(content: Seq<u8>, secret: Seq<u8>, size: BlockSize) -> Seq<Seq<u8>> {
    Seq::new(
        leaf_count(content, size),
        |i: int| sealed_block(leaf_plain(content, size, i), secret),
    )
}

/// Byte `pos` of the pair stream: each pair as its reference followed by its
/// key, 64 bytes in all, then zeros without end.
pub open spec fn node_byte(pairs: Seq<RkPair>, pos: int) -> u8 {
    let slot = pos / 64;
    let off = pos % 64;
    if slot < pairs.len() {
        if off < 32 {
            pairs[slot].reference[off]
        } else {
            pairs[slot].key[off - 32]
        }
    } else {
        0u8
    }
}

/// Plaintext of inner node `j` above `pairs`: block `j` of the pair stream.
pub open spec fn node_plain(pairs: Seq<RkPair>, size: BlockSize, j: int) -> Seq<u8> {
    Seq::new(size.spec_bytes(), |t: int| node_byte(pairs, j * size.spec_bytes() + t))
}

/// Number of inner nodes needed to hold `n` pairs.
pub open spec fn node_count(n: nat, size: BlockSize) -> nat {
    ((n + size.spec_arity() - 1) / (size.spec_arity() as int)) as nat
}

/// Pairs of the inner nodes directly above `pairs`, in order.
pub open spec fn parent_pairs(pairs: Seq<RkPair>, secret: Seq<u8>, size: BlockSize) -> Seq<RkPair> {
    Seq::new(
        node_count(pairs.len(), size),
        |j: int| sealed_pair(node_plain(pairs, size, j), secret),
    )
}

/// Ciphertexts of the inner nodes directly above `pairs`, in order.
pub open spec fn node_blocks(pairs: Seq<RkPair>, secret: Seq<u8>, size: BlockSize) -> Seq<Seq<u8>> {
    Seq::new(
        node_count(pairs.len(), size),
        |j: int| sealed_block(node_plain(pairs, size, j), secret),
    )
}

/// A finished tree: its root pair, the number of inner levels, and the
/// ciphertexts of its blocks in the order they were produced.
pub ghost struct Tree {
    pub root: RkPair,
    pub level: nat,
    pub blocks: Seq<Seq<u8>>,
}

/// The tree above `pairs`, which stand `level` levels above the leaves:
/// inner levels are added until a single pair is left.
pub open spec fn grow(pairs: Seq<RkPair>, secret: Seq<u8>, size: BlockSize, level: nat) -> Tree
    decreases pairs.len(),
{
    let up = parent_pairs(pairs, secret, size);
    if 1 < pairs.len() && up.len() < pairs.len() {
        let rest = grow(up, secret, size, level + 1);
        Tree {
            root: rest.root,
            level: rest.level,
            blocks: node_blocks(pairs, secret, size) + rest.blocks,
        }
    } else {
        Tree { root: pairs[0], level: level, blocks: Seq::empty() }
    }
}

/// The tree that encoding `content` under `secret` gives: the leaves first,
/// then each inner level from the bottom up.
pub open spec fn encoded(content: Seq<u8>, secret: Seq<u8>, size: BlockSize) -> Tree {
    let above = grow(leaf_pairs(content, secret, size), secret, size, 0);
    Tree {
        root: above.root,
        level: above.level,
        blocks: leaf_blocks(content, secret, size) + above.blocks,
    }
}

/// Ciphertexts of a list of stored blocks, in order.
pub open spec fn ciphertexts(blocks: Seq<BlockWithReference>) -> Seq<Seq<u8>> {
    Seq::new(blocks.len(), |i: int| blocks[i].block@)
}

/// Every block is stored under the digest of its own bytes and has exactly
/// the length of the chosen block size.
pub open spec fn well_addressed(blocks: Seq<BlockWithReference>, size: BlockSize) -> bool {
    forall|i: int|
        0 <= i < blocks.len() ==> {
            &&& (#[trigger] blocks[i]).reference@ == blake2b256(blocks[i].block@)
            &&& blocks[i].block@.len() == size.spec_bytes()
        }
}

/// Views of a list of pairs, in order.
pub open spec fn pair_views(pairs: Seq<ReferenceKeyPair>) -> Seq<RkPair> {
    Seq::new(pairs.len(), |i: int| pairs[i]@)
}

/// A block that is held stays held when more blocks are appended.
proof fn lemma_holds_extends(
    before: Seq<BlockWithReference>,
    after: Seq<BlockWithReference>,
    pair: RkPair,
    plain: Seq<u8>,
    size: BlockSize,
)
    requires
        before.len() <= after.len(),
        forall|i: int| 0 <= i < before.len() ==> #[trigger] after[i] == before[i],
        holds(before, pair, plain, size),
    ensures
        holds(after, pair, plain, size),
{
    let i = choose|i: int| 0 <= i < before.len() && seals(#[trigger] before[i], pair, plain, size);
    assert(seals(after[i], pair, plain, size));
}

/// Encrypts one plaintext block, appends the ciphertext to `blocks` under
/// its reference, and returns the block's pair.
fn seal(plain: &Vec<u8>, secret: &[u8; 32], blocks: &mut Vec<BlockWithReference>) -> (pair:
    ReferenceKeyPair)
    requires
        plain@.len() <= 32768,
    ensures
        pair@ == sealed_pair(plain@, secret@),
        final(blocks)@.len() == old(blocks)@.len() + 1,
        final(blocks)@.subrange(0, old(blocks)@.len() as int) == old(blocks)@,
        final(blocks)@.last().block@ == sealed_block(plain@, secret@),
        final(blocks)@.last().reference@ == blake2b256(sealed_block(plain@, secret@)),
        final(blocks)@.last().block@.len() == plain@.len(),
        chacha20_zero_nonce(pair.key@, sealed_block(plain@, secret@)) == plain@,
{
    let key = blake2b256_hash(plain.as_slice(), Some(secret.as_slice()));
    let block = apply_cipher(&key, plain.as_slice());
    let reference = blake2b256_hash(block.as_slice(), None);
    blocks.push(BlockWithReference { block, reference });
    assert(blocks@.subrange(0, old(blocks)@.len() as int) =~= old(blocks)@);
    ReferenceKeyPair { reference, key }
}

/// Builds the plaintext of the leaf that starts at byte `start` of the
/// content.
fn leaf_at(content: &[u8], size: BlockSize, start: usize, Ghost(i): Ghost<int>) -> (plain: Vec<u8>)
    requires
        start <= content@.len(),
        start == i * size.spec_bytes(),
    ensures
        plain@ == leaf_plain(content@, size, i),
{
    let bs: usize = size.bytes();
    let rem: usize = content.len() - start;
    let mut plain: Vec<u8> = Vec::with_capacity(bs);
    let mut t: usize = 0;
    while t < bs
        invariant
            t <= bs,
            bs == size.spec_bytes(),
            rem == content@.len() - start,
            start <= content@.len() <= usize::MAX,
            plain@.len() == t,
            forall|u: int| 0 <= u < t ==> plain@[u] == padded_byte(content@, start + u),
        decreases bs - t,
    {
        let b: u8 = if t < rem {
            content[start + t]
        } else if t == rem {
            0x80
        } else {
            0
        };
        plain.push(b);
        t += 1;
    }
    assert(plain@ =~= leaf_plain(content@, size, i));
    plain
}

/// Builds the plaintext of the inner node whose first pair is
/// `pairs[first]`.
fn node_at(pairs: &Vec<ReferenceKeyPair>, size: BlockSize, first: usize, Ghost(j): Ghost<int>) -> (plain:
    Vec<u8>)
    requires
        first <= pairs@.len(),
        first == j * size.spec_arity(),
    ensures
        plain@ == node_plain(pair_views(pairs@), size, j),
{
    let bs: usize = size.bytes();
    let rem: usize = pairs.len() - first;
    let mut plain: Vec<u8> = Vec::with_capacity(bs);
    let mut t: usize = 0;
    proof {
        assert(first * 64 == j * size.spec_bytes()) by {
            if size == BlockSize::Size1KiB {
            } else {
            }
        }
    }
    while t < bs
        invariant
            t <= bs,
            bs == size.spec_bytes(),
            rem == pairs@.len() - first,
            first <= pairs@.len() <= usize::MAX,
            first * 64 == j * size.spec_bytes(),
            plain@.len() == t,
            forall|u: int|
                0 <= u < t ==> plain@[u] == node_byte(
                    pair_views(pairs@),
                    j * size.spec_bytes() + u,
                ),
        decreases bs - t,
    {
        let slot: usize = t / 64;
        let off: usize = t % 64;
        assert((first * 64 + t) / 64 == first + slot);
        assert((first * 64 + t) % 64 == off as int);
        let b: u8 = if slot < rem {
            let pair = &pairs[first + slot];
            assert(pair_views(pairs@)[first + slot] == pair@);
            if off < 32 {
                pair.reference[off]
            } else {
                pair.key[off - 32]
            }
        } else {
            0
        };
        plain.push(b);
        t += 1;
    }
    assert(plain@ =~= node_plain(pair_views(pairs@), size, j));
    plain
}


/// How the number of leaves relates to the length of the content: all
/// leaves but the last are full, and the last holds what is left over.
pub proof fn lemma_leaf_bounds(len: nat, size: BlockSize)
    ensures
        (len / size.spec_bytes()) * size.spec_bytes() + len % size.spec_bytes() == len,
        0 <= len % size.spec_bytes() < size.spec_bytes(),
        len < size.spec_bytes() <==> len / size.spec_bytes() == 0,
        forall|k: int|
            0 <= k < len / size.spec_bytes() ==> (#[trigger] (k * size.spec_bytes()))
                + size.spec_bytes() <= len,
{
    match size {
        BlockSize::Size1KiB => {
            assert(size.spec_bytes() == 1024);
            assert((len / 1024) * 1024 + len % 1024 == len);
            assert forall|k: int| 0 <= k < len / 1024 implies (#[trigger] (k * 1024)) + 1024
                <= len by {}
        },
        BlockSize::Size32KiB => {
            assert(size.spec_bytes() == 32768);
            assert((len / 32768) * 32768 + len % 32768 == len);
            assert forall|k: int| 0 <= k < len / 32768 implies (#[trigger] (k * 32768)) + 32768
                <= len by {}
        },
    }
}

/// Block `i` starts inside the content, or right at its end, whenever `i`
/// is at most the number of full blocks.
proof fn lemma_block_start(i: int, len: int, size: BlockSize)
    requires
        0 <= i <= len / (size.spec_bytes() as int),
    ensures
        0 <= i * size.spec_bytes() <= len,
{
    match size {
        BlockSize::Size1KiB => {
            assert(i * 1024 <= len);
        },
        BlockSize::Size32KiB => {
            assert(i * 32768 <= len);
        },
    }
}

/// Encrypts every leaf of `content`, appends the ciphertexts to `blocks`,
/// and returns the leaves' pairs.
fn encode_leaves(content: &[u8], secret: &[u8; 32], size: BlockSize, blocks: &mut Vec<BlockWithReference>) -> (pairs:
    Vec<ReferenceKeyPair>)
    requires
        old(blocks)@.len() == 0,
    ensures
        pair_views(pairs@) == leaf_pairs(content@, secret@, size),
        ciphertexts(final(blocks)@) == leaf_blocks(content@, secret@, size),
        well_addressed(final(blocks)@, size),
        forall|k: int|
            0 <= k < leaf_count(content@, size) ==> holds(
                final(blocks)@,
                sealed_pair(#[trigger] leaf_plain(content@, size, k), secret@),
                leaf_plain(content@, size, k),
                size,
            ),
{
    let bs: usize = size.bytes();
    let count: usize = content.len() / bs + 1;
    let mut pairs: Vec<ReferenceKeyPair> = Vec::new();
    let mut i: usize = 0;
    while i < count
        invariant
            i <= count,
            count == leaf_count(content@, size),
            content@.len() <= usize::MAX,
            bs == size.spec_bytes(),
            pairs@.len() == i,
            blocks@.len() == i,
            well_addressed(blocks@, size),
            forall|k: int|
                0 <= k < i ==> (#[trigger] pairs@[k])@ == sealed_pair(
                    leaf_plain(content@, size, k),
                    secret@,
                ),
            forall|k: int|
                0 <= k < i ==> (#[trigger] blocks@[k]).block@ == sealed_block(
                    leaf_plain(content@, size, k),
                    secret@,
                ),
            forall|k: int|
                0 <= k < i ==> holds(
                    blocks@,
                    sealed_pair(#[trigger] leaf_plain(content@, size, k), secret@),
                    leaf_plain(content@, size, k),
                    size,
                ),
        decreases count - i,
    {
        proof {
            lemma_block_start(i as int, content@.len() as int, size);
        }
        let start: usize = i * bs;
        let plain = leaf_at(content, size, start, Ghost(i as int));
        let ghost before = blocks@;
        let pair = seal(&plain, secret, blocks);
        pairs.push(pair);
        proof {
            assert forall|k: int| 0 <= k < i implies #[trigger] blocks@[k] == before[k] by {
                assert(blocks@.subrange(0, i as int)[k] == before[k]);
            }
            assert(blocks@[i as int] == blocks@.last());
            assert(seals(blocks@[i as int], pair@, plain@, size));
            assert forall|k: int| 0 <= k < i implies holds(
                blocks@,
                sealed_pair(#[trigger] leaf_plain(content@, size, k), secret@),
                leaf_plain(content@, size, k),
                size,
            ) by {
                lemma_holds_extends(
                    before,
                    blocks@,
                    sealed_pair(leaf_plain(content@, size, k), secret@),
                    leaf_plain(content@, size, k),
                    size,
                );
            }
        }
        i += 1;
    }
    assert(pair_views(pairs@) =~= leaf_pairs(content@, secret@, size));
    assert(ciphertexts(blocks@) =~= leaf_blocks(content@, secret@, size));
    pairs
}


/// How many inner nodes `n` pairs need, in terms a machine can compute
/// without overflow, and how that number compares with `n`.
pub proof fn lemma_node_count(n: nat, size: BlockSize)
    ensures
        node_count(n, size) == n / size.spec_arity() + (if n % size.spec_arity() != 0 {
            1nat
        } else {
            0nat
        }),
        n >= 1 ==> node_count(n, size) >= 1,
        n > 1 ==> node_count(n, size) < n,
        2 * node_count(n, size) <= n + 1,
        forall|j: int| 0 <= j < node_count(n, size) ==> 0 <= #[trigger] (j * size.spec_arity()) < n,
{
    match size {
        BlockSize::Size1KiB => {
            assert(node_count(n, size) == (n + 15) / 16);
            assert forall|j: int| 0 <= j < node_count(n, size) implies 0 <= #[trigger] (j * 16)
                < n by {}
        },
        BlockSize::Size32KiB => {
            assert(node_count(n, size) == (n + 511) / 512);
            assert forall|j: int| 0 <= j < node_count(n, size) implies 0 <= #[trigger] (j * 512)
                < n by {}
        },
    }
}

/// Encrypts the inner nodes directly above `pairs`, appends the ciphertexts
/// to `blocks`, and returns the nodes' pairs.
fn encode_level(
    pairs: &Vec<ReferenceKeyPair>,
    secret: &[u8; 32],
    size: BlockSize,
    blocks: &mut Vec<BlockWithReference>,
) -> (up: Vec<ReferenceKeyPair>)
    requires
        well_addressed(old(blocks)@, size),
    ensures
        pair_views(up@) == parent_pairs(pair_views(pairs@), secret@, size),
        ciphertexts(final(blocks)@) == ciphertexts(old(blocks)@) + node_blocks(
            pair_views(pairs@),
            secret@,
            size,
        ),
        well_addressed(final(blocks)@, size),
        old(blocks)@.len() <= final(blocks)@.len(),
        forall|k: int| 0 <= k < old(blocks)@.len() ==> #[trigger] final(blocks)@[k] == old(blocks)@[k],
        forall|k: int|
            0 <= k < node_count(pairs@.len(), size) ==> holds(
                final(blocks)@,
                sealed_pair(#[trigger] node_plain(pair_views(pairs@), size, k), secret@),
                node_plain(pair_views(pairs@), size, k),
                size,
            ),
{
    let arity: usize = size.arity();
    let n: usize = pairs.len();
    let count: usize = n / arity + (if n % arity != 0 {
        1
    } else {
        0
    });
    let ghost views = pair_views(pairs@);
    let ghost base = blocks@;
    proof {
        lemma_node_count(n as nat, size);
    }
    let mut up: Vec<ReferenceKeyPair> = Vec::new();
    let mut j: usize = 0;
    while j < count
        invariant
            j <= count,
            count == node_count(n as nat, size),
            n == pairs@.len(),
            arity == size.spec_arity(),
            views == pair_views(pairs@),
            forall|q: int| 0 <= q < count ==> 0 <= #[trigger] (q * size.spec_arity()) < n,
            up@.len() == j,
            blocks@.len() == base.len() + j,
            well_addressed(blocks@, size),
            forall|k: int| 0 <= k < base.len() ==> #[trigger] blocks@[k] == base[k],
            forall|k: int|
                0 <= k < j ==> (#[trigger] up@[k])@ == sealed_pair(
                    node_plain(views, size, k),
                    secret@,
                ),
            forall|k: int|
                0 <= k < j ==> (#[trigger] blocks@[base.len() + k]).block@ == sealed_block(
                    node_plain(views, size, k),
                    secret@,
                ),
            forall|k: int|
                0 <= k < j ==> holds(
                    blocks@,
                    sealed_pair(#[trigger] node_plain(views, size, k), secret@),
                    node_plain(views, size, k),
                    size,
                ),
        decreases count - j,
    {
        assert(0 <= (j as int) * size.spec_arity() < n);
        let first: usize = j * arity;
        let plain = node_at(pairs, size, first, Ghost(j as int));
        let ghost before = blocks@;
        let pair = seal(&plain, secret, blocks);
        up.push(pair);
        proof {
            assert forall|k: int| 0 <= k < before.len() implies #[trigger] blocks@[k]
                == before[k] by {
                assert(blocks@.subrange(0, before.len() as int)[k] == before[k]);
            }
            assert(blocks@[base.len() + j] == blocks@.last());
            assert(seals(blocks@[base.len() + j], pair@, plain@, size));
            assert forall|k: int| 0 <= k < j implies holds(
                blocks@,
                sealed_pair(#[trigger] node_plain(views, size, k), secret@),
                node_plain(views, size, k),
                size,
            ) by {
                lemma_holds_extends(
                    before,
                    blocks@,
                    sealed_pair(node_plain(views, size, k), secret@),
                    node_plain(views, size, k),
                    size,
                );
            }
        }
        j += 1;
    }
    assert(pair_views(up@) =~= parent_pairs(views, secret@, size));
    assert forall|i: int| base.len() <= i < blocks@.len() implies blocks@[i].block@
        == sealed_block(node_plain(views, size, i - base.len()), secret@) by {
        let k = i - base.len();
        assert(blocks@[base.len() + k].block@ == sealed_block(node_plain(views, size, k), secret@));
    }
    assert(ciphertexts(blocks@) =~= ciphertexts(base) + node_blocks(views, secret@, size));
    up
}

/// No tree has more inner levels than this: each level holds at most half
/// as many blocks as the one below, and a machine cannot count more than
/// 2^64 leaves.
pub const MAX_LEVEL: u8 = 64;

/// The capability that names a finished tree.
pub open spec fn capability_of(tree: Tree, size: BlockSize) -> CapabilityView {
    CapabilityView { block_size: size, level: tree.level, root: tree.root }
}

/// Encodes `content` into a tree of encrypted blocks of the chosen size.
///
/// The content is cut into blocks and padded with one `0x80` and zeros, so
/// that the last leaf is always padded. Each block's key is the keyed digest
/// of its plaintext under `secret`, its ciphertext is the plaintext under
/// ChaCha20 with that key, and its reference is the digest of the
/// ciphertext. Pairs are packed into inner nodes level by level until one
/// pair is left.
///
/// Returns the read capability and every block of the tree, leaves first,
/// each under its reference and ready to be persisted. Decoding the
/// capability from these blocks gives the content back: always where the
/// content fits one block, and for larger trees unless two different blocks
/// share a reference or a reference is all zero.
pub fn encode(content: &[u8], secret: &[u8; 32], size: BlockSize) -> (out: (
    ReadCapability,
    Vec<BlockWithReference>,
))
    ensures
        out.0@ == capability_of(encoded(content@, secret@, size), size),
        ciphertexts(out.1@) == encoded(content@, secret@, size).blocks,
        well_addressed(out.1@, size),
        out.0.level <= MAX_LEVEL,
        content@.len() < size.spec_bytes() ==> decoded(out.1@, out.0@) == Ok::<Seq<u8>, Fault>(
            content@,
        ),
        collision_free(out.1@) && no_zero_reference(out.1@) ==> decoded(out.1@, out.0@) == Ok::<
            Seq<u8>,
            Fault,
        >(content@),
        all_held(out.1@, content@, secret@, size, out.0.level as nat),
        row(content@, secret@, size, out.0.level as nat).len() == 1,
        row(content@, secret@, size, out.0.level as nat)[0] == out.0.root@,
{
    let mut blocks: Vec<BlockWithReference> = Vec::new();
    let mut pairs = encode_leaves(content, secret, size, &mut blocks);
    let mut level: u8 = 0;
    let ghost leaves = pair_views(pairs@);
    let ghost mut k: nat = 64;
    let leaf_total: usize = pairs.len();
    proof {
        lemma2_to64();
        assert(leaves.len() == leaf_total);
        assert(leaf_total >= 1);
        assert forall|l: nat, j: int|
            l <= 0 && 0 <= j < row(content@, secret@, size, l).len() implies holds(
            blocks@,
            #[trigger] row(content@, secret@, size, l)[j],
            row_plain(content@, secret@, size, l, j),
            size,
        ) by {
            assert(row(content@, secret@, size, l)[j] == sealed_pair(
                leaf_plain(content@, size, j),
                secret@,
            ));
        }
        if content@.len() < size.spec_bytes() {
            let plain = leaf_plain(content@, size, 0);
            lemma_leaf_bounds(content@.len(), size);
            assert(leaf_total == 1);
            assert(leaves[0] == pairs@[0]@);
            assert(ciphertexts(blocks@)[0] == blocks@[0].block@);
            assert(pairs@[0].reference@ == blocks@[0].reference@);
            assert(resolved(blocks@, pairs@[0].reference@) == Some(blocks@[0].block@));
            assert(opened(blocks@, pairs@[0]@, size) == Ok::<Seq<u8>, Fault>(plain));
            lemma_last_leaf_unpads(content@, size, size.spec_bytes() as int);
            assert(plain.subrange(0, size.spec_bytes() as int) =~= plain);
            assert(leaf_segment(content@, size, 0) =~= content@);
        }
    }
    while pairs.len() > 1
        invariant
            1 <= pairs@.len() <= pow2(k),
            level + k == 64,
            pow2(0) == 1,
            well_addressed(blocks@, size),
            pair_views(pairs@) == row(content@, secret@, size, level as nat),
            all_held(blocks@, content@, secret@, size, level as nat),
            grow(pair_views(pairs@), secret@, size, level as nat).root == grow(
                leaves,
                secret@,
                size,
                0,
            ).root,
            grow(pair_views(pairs@), secret@, size, level as nat).level == grow(
                leaves,
                secret@,
                size,
                0,
            ).level,
            ciphertexts(blocks@) + grow(pair_views(pairs@), secret@, size, level as nat).blocks
                == leaf_blocks(content@, secret@, size) + grow(leaves, secret@, size, 0).blocks,
        decreases pairs@.len(),
    {
        let ghost below = ciphertexts(blocks@);
        let ghost views = pair_views(pairs@);
        let ghost held = blocks@;
        let up = encode_level(&pairs, secret, size, &mut blocks);
        proof {
            let next = (level + 1) as nat;
            assert(row(content@, secret@, size, next) == parent_pairs(views, secret@, size));
            assert forall|l: nat, j: int|
                l <= next && 0 <= j < row(content@, secret@, size, l).len() implies holds(
                blocks@,
                #[trigger] row(content@, secret@, size, l)[j],
                row_plain(content@, secret@, size, l, j),
                size,
            ) by {
                if l <= level {
                    lemma_holds_extends(
                        held,
                        blocks@,
                        row(content@, secret@, size, l)[j],
                        row_plain(content@, secret@, size, l, j),
                        size,
                    );
                } else {
                    assert(row(content@, secret@, size, l)[j] == sealed_pair(
                        node_plain(views, size, j),
                        secret@,
                    ));
                }
            }
            lemma_node_count(pairs@.len(), size);
            lemma_pow2_unfold(k);
            let rest = grow(pair_views(up@), secret@, size, (level + 1) as nat);
            assert(grow(views, secret@, size, level as nat).blocks == node_blocks(
                views,
                secret@,
                size,
            ) + rest.blocks);
            assert(ciphertexts(blocks@) + rest.blocks =~= below + (node_blocks(
                views,
                secret@,
                size,
            ) + rest.blocks));
            k = (k - 1) as nat;
        }
        level += 1;
        pairs = up;
    }
    let root = pairs[0];
    proof {
        assert(pair_views(pairs@)[0] == root@);
        assert(ciphertexts(blocks@) + Seq::<Seq<u8>>::empty() =~= ciphertexts(blocks@));
        if collision_free(blocks@) && no_zero_reference(blocks@) {
            lemma_round_trip(blocks@, content@, secret@, size, level as nat);
        }
    }
    (ReadCapability { block_size: size, level, root }, blocks)
}

/// Whether `out` is what encoding `content` under `secret` returns.
pub open spec fn is_encoding(
    out: (ReadCapability, Vec<BlockWithReference>),
    content: Seq<u8>,
    secret: Seq<u8>,
    size: BlockSize,
) -> bool {
    &&& out.0@ == capability_of(encoded(content, secret, size), size)
    &&& ciphertexts(out.1@) == encoded(content, secret, size).blocks
    &&& well_addressed(out.1@, size)
}

/// Encoding is deterministic: two encodings of the same content under the
/// same secret and block size name the same capability and hold the same
/// blocks under the same references, in the same order.
pub proof fn lemma_encoding_is_deterministic(
    a: (ReadCapability, Vec<BlockWithReference>),
    b: (ReadCapability, Vec<BlockWithReference>),
    content: Seq<u8>,
    secret: Seq<u8>,
    size: BlockSize,
)
    requires
        is_encoding(a, content, secret, size),
        is_encoding(b, content, secret, size),
    ensures
        a.0@ == b.0@,
        a.1@.len() == b.1@.len(),
        forall|i: int|
            0 <= i < a.1@.len() ==> (#[trigger] a.1@[i]).block@ == b.1@[i].block@
                && a.1@[i].reference@ == b.1@[i].reference@,
{
    assert(ciphertexts(a.1@).len() == ciphertexts(b.1@).len());
    assert forall|i: int| 0 <= i < a.1@.len() implies (#[trigger] a.1@[i]).block@
        == b.1@[i].block@ && a.1@[i].reference@ == b.1@[i].reference@ by {
        assert(ciphertexts(a.1@)[i] == ciphertexts(b.1@)[i]);
    }
}

/// A tree never has fewer levels than were below it when it was begun.
proof fn lemma_grow_level(pairs: Seq<RkPair>, secret: Seq<u8>, size: BlockSize, level: nat)
    ensures
        grow(pairs, secret, size, level).level >= level,
        pairs.len() <= 1 ==> grow(pairs, secret, size, level).level == level,
    decreases pairs.len(),
{
    let up = parent_pairs(pairs, secret, size);
    if 1 < pairs.len() && up.len() < pairs.len() {
        lemma_grow_level(up, secret, size, level + 1);
    }
}

/// The root is a leaf exactly when the content is shorter than one block;
/// from one full block on there is at least one inner level: exactly one
/// as long as a single inner node holds all leaves, and exactly two as
/// long as a single node holds all nodes above the leaves.
pub proof fn lemma_level_by_length(content: Seq<u8>, secret: Seq<u8>, size: BlockSize)
    ensures
        encoded(content, secret, size).level == 0 <==> content.len() < size.spec_bytes(),
        size.spec_bytes() <= content.len() < size.spec_arity() * size.spec_bytes() ==> encoded(
            content,
            secret,
            size,
        ).level == 1,
        size.spec_arity() * size.spec_bytes() <= content.len() < size.spec_arity()
            * size.spec_arity() * size.spec_bytes() ==> encoded(content, secret, size).level == 2,
{
    let leaves = leaf_pairs(content, secret, size);
    let up = parent_pairs(leaves, secret, size);
    let top = parent_pairs(up, secret, size);
    lemma_node_count(leaves.len(), size);
    lemma_node_count(up.len(), size);
    lemma_grow_level(leaves, secret, size, 0);
    lemma_grow_level(up, secret, size, 1);
    lemma_grow_level(top, secret, size, 2);
    lemma_leaf_bounds(content.len(), size);
    assert(leaves.len() == content.len() / size.spec_bytes() + 1);
    match size {
        BlockSize::Size1KiB => {
            assert(content.len() < 1024 <==> leaves.len() == 1);
            assert(content.len() < 16 * 1024 ==> content.len() / 1024 < 16);
            assert(1024 <= content.len() < 16 * 1024 ==> 2 <= leaves.len() <= 16);
            assert(2 <= leaves.len() <= 16 ==> (leaves.len() + 15) / 16 == 1);
            assert(1024 <= content.len() < 16 * 1024 ==> up.len() == 1);
            assert(16 * 1024 <= content.len() ==> content.len() / 1024 >= 16);
            assert(content.len() < 16 * 16 * 1024 ==> content.len() / 1024 < 256);
            assert(16 * 1024 <= content.len() < 16 * 16 * 1024 ==> 17 <= leaves.len() <= 256);
            assert(17 <= leaves.len() <= 256 ==> 2 <= (leaves.len() + 15) / 16 <= 16);
            assert(2 <= up.len() <= 16 ==> (up.len() + 15) / 16 == 1);
            assert(16 * 1024 <= content.len() < 16 * 16 * 1024 ==> top.len() == 1);
        },
        BlockSize::Size32KiB => {
            assert(content.len() < 32768 <==> leaves.len() == 1);
            assert(content.len() < 512 * 32768 ==> content.len() / 32768 < 512);
            assert(32768 <= content.len() < 512 * 32768 ==> 2 <= leaves.len() <= 512);
            assert(2 <= leaves.len() <= 512 ==> (leaves.len() + 511) / 512 == 1);
            assert(32768 <= content.len() < 512 * 32768 ==> up.len() == 1);
            assert(512 * 32768 <= content.len() ==> content.len() / 32768 >= 512);
            assert(content.len() < 512 * 512 * 32768 ==> content.len() / 32768 < 262144);
            assert(512 * 32768 <= content.len() < 512 * 512 * 32768 ==> 513 <= leaves.len()
                <= 262144);
            assert(513 <= leaves.len() <= 262144 ==> 2 <= (leaves.len() + 511) / 512 <= 512);
            assert(2 <= up.len() <= 512 ==> (up.len() + 511) / 512 == 1);
            assert(512 * 32768 <= content.len() < 512 * 512 * 32768 ==> top.len() == 1);
        },
    }
}

/// A block that is `0x80` followed by zeros only.
pub open spec fn pad_block(size: BlockSize) -> Seq<u8> {
    Seq::new(
        size.spec_bytes(),
        |t: int|
            if t == 0 {
                0x80u8
            } else {
                0u8
            },
    )
}

/// Content whose length is a multiple of the block size, the empty content
/// among them, ends in a leaf that is all padding.
pub proof fn lemma_exact_multiple_ends_in_pad_block(content: Seq<u8>, size: BlockSize)
    requires
        content.len() % size.spec_bytes() == 0,
    ensures
        leaf_plain(content, size, leaf_count(content, size) - 1) == pad_block(size),
        content.len() == 0 ==> leaf_count(content, size) == 1,
{
    let last = leaf_count(content, size) - 1;
    match size {
        BlockSize::Size1KiB => {
            assert(last * 1024 == content.len());
        },
        BlockSize::Size32KiB => {
            assert(last * 32768 == content.len());
        },
    }
    assert(leaf_plain(content, size, last) =~= pad_block(size));
}

} // verus!
