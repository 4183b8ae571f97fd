//! Why decoding undoes encoding, and why a spoiled block is noticed: the
//! tree is described row by row, and the walk of the decoder is followed
//! down from the root.

use crate::cipher::chacha20_zero_nonce;
use crate::decode::child_count;
use crate::decode::children;
use crate::decode::decoded;
use crate::decode::decoded_children;
use crate::decode::decoded_node;
use crate::decode::is_zero;
use crate::decode::opened;
use crate::decode::resolved;
use crate::decode::slot_pair;
use crate::decode::unpadded;
use crate::decode::Fault;
use crate::encode::capability_of;
use crate::encode::encoded;
use crate::encode::grow;
use crate::encode::leaf_count;
use crate::encode::leaf_pairs;
use crate::encode::lemma_leaf_bounds;
use crate::encode::lemma_node_count;
use crate::encode::MAX_LEVEL;
use crate::encode::leaf_plain;
use crate::encode::node_byte;
use crate::encode::node_count;
use crate::encode::node_plain;
use crate::encode::padded_byte;
use crate::encode::parent_pairs;
use crate::hash::blake2b256;
use crate::types::BlockSize;
use crate::types::BlockWithReference;
use crate::types::CapabilityView;
use crate::types::RkPair;
use vstd::prelude::*;

verus! {

/// No two blocks with different bytes are filed under the same reference.
pub open spec fn collision_free(blocks: Seq<BlockWithReference>) -> bool {
    forall|i: int, j: int|
        0 <= i < blocks.len() && 0 <= j < blocks.len() && (#[trigger] blocks[i]).reference@ == (
        #[trigger] blocks[j]).reference@ ==> blocks[i].block@ == blocks[j].block@
}

/// No block is filed under the all-zero reference, which inner nodes use
/// to end their list of children.
pub open spec fn no_zero_reference(blocks: Seq<BlockWithReference>) -> bool {
    forall|i: int| 0 <= i < blocks.len() ==> !is_zero((#[trigger] blocks[i]).reference@)
}

/// Block `b` is the ciphertext of `plain`, filed under the reference of
/// `pair` and opened by its key.
pub open spec fn seals(b: BlockWithReference, pair: RkPair, plain: Seq<u8>, size: BlockSize) -> bool {
    &&& b.reference@ == pair.reference
    &&& blake2b256(b.block@) == pair.reference
    &&& b.block@.len() == size.spec_bytes()
    &&& chacha20_zero_nonce(pair.key, b.block@) == plain
    &&& pair.reference.len() == 32
    &&& pair.key.len() == 32
}

/// Some block among `blocks` is the ciphertext of `plain` under `pair`.
pub open spec fn holds(
    blocks: Seq<BlockWithReference>,
    pair: RkPair,
    plain: Seq<u8>,
    size: BlockSize,
) -> bool {
    exists|i: int| 0 <= i < blocks.len() && seals(#[trigger] blocks[i], pair, plain, size)
}

/// The pairs that stand `l` levels above the leaves.
pub open spec fn row(content: Seq<u8>, secret: Seq<u8>, size: BlockSize, l: nat) -> Seq<RkPair>
    decreases l,
{
    if l == 0 {
        leaf_pairs(content, secret, size)
    } else {
        parent_pairs(row(content, secret, size, (l - 1) as nat), secret, size)
    }
}

/// The plaintext of block `j` of the row `l` levels above the leaves.
pub open spec fn row_plain(content: Seq<u8>, secret: Seq<u8>, size: BlockSize, l: nat, j: int) -> Seq<
    u8,
> {
    if l == 0 {
        leaf_plain(content, size, j)
    } else {
        node_plain(row(content, secret, size, (l - 1) as nat), size, j)
    }
}

/// Every block of the rows up to `top` is among `blocks`.
pub open spec fn all_held(
    blocks: Seq<BlockWithReference>,
    content: Seq<u8>,
    secret: Seq<u8>,
    size: BlockSize,
    top: nat,
) -> bool {
    forall|l: nat, j: int|
        l <= top && 0 <= j < row(content, secret, size, l).len() ==> holds(
            blocks,
            #[trigger] row(content, secret, size, l)[j],
            row_plain(content, secret, size, l, j),
            size,
        )
}

/// A lookup finds a block filed under the reference if there is one.
proof fn lemma_resolved_finds(blocks: Seq<BlockWithReference>, r: Seq<u8>, i: int)
    requires
        0 <= i < blocks.len(),
        blocks[i].reference@ == r,
    ensures
        exists|k: int|
            0 <= k <= i && (#[trigger] blocks[k]).reference@ == r && resolved(blocks, r) == Some(
                blocks[k].block@,
            ),
    decreases blocks.len(),
{
    if blocks[0].reference@ == r {
        assert(blocks[0].reference@ == r && resolved(blocks, r) == Some(blocks[0].block@));
    } else {
        let rest = blocks.drop_first();
        assert(rest[i - 1] == blocks[i]);
        lemma_resolved_finds(rest, r, i - 1);
        let k = choose|k: int|
            0 <= k <= i - 1 && (#[trigger] rest[k]).reference@ == r && resolved(rest, r) == Some(
                rest[k].block@,
            );
        assert(rest[k] == blocks[k + 1]);
        assert(blocks[k + 1].reference@ == r && resolved(blocks, r) == Some(
            blocks[k + 1].block@,
        ));
    }
}

/// Without collisions, a block that is held opens to its plaintext.
proof fn lemma_held_block_opens(
    blocks: Seq<BlockWithReference>,
    pair: RkPair,
    plain: Seq<u8>,
    size: BlockSize,
)
    requires
        collision_free(blocks),
        holds(blocks, pair, plain, size),
    ensures
        opened(blocks, pair, size) == Ok::<Seq<u8>, Fault>(plain),
        pair.reference.len() == 32,
        pair.key.len() == 32,
{
    let i = choose|i: int| 0 <= i < blocks.len() && seals(#[trigger] blocks[i], pair, plain, size);
    lemma_resolved_finds(blocks, pair.reference, i);
    let k = choose|k: int|
        0 <= k <= i && (#[trigger] blocks[k]).reference@ == pair.reference && resolved(
            blocks,
            pair.reference,
        ) == Some(blocks[k].block@);
    assert(blocks[k].block@ == blocks[i].block@);
}

/// The smaller of two numbers.
pub open spec fn least(a: int, b: int) -> int {
    if a <= b {
        a
    } else {
        b
    }
}

/// Reading the children of an inner node gives back the pairs that were
/// packed into it, as long as none of them has an all-zero reference.
proof fn lemma_children_of_node(pairs: Seq<RkPair>, size: BlockSize, j: int)
    requires
        0 <= j,
        j * size.spec_arity() < pairs.len(),
        forall|k: int|
            0 <= k < pairs.len() ==> (#[trigger] pairs[k]).reference.len() == 32 && pairs[k].key.len()
                == 32 && !is_zero(pairs[k].reference),
    ensures
        children(node_plain(pairs, size, j), size) == pairs.subrange(
            j * size.spec_arity(),
            least((j + 1) * size.spec_arity(), pairs.len() as int),
        ),
{
    let a = size.spec_arity() as int;
    let plain = node_plain(pairs, size, j);
    let first = j * a;
    let n = pairs.len() as int;
    assert(size.spec_bytes() == 64 * a);
    assert(j * size.spec_bytes() == 64 * first) by {
        match size {
            BlockSize::Size1KiB => {
                assert(a == 16 && size.spec_bytes() == 1024);
            },
            BlockSize::Size32KiB => {
                assert(a == 512 && size.spec_bytes() == 32768);
            },
        }
    }
    assert forall|s: int| 0 <= s < a implies (first + s < n ==> slot_pair(plain, s) == pairs[first
        + s]) && (first + s >= n ==> is_zero(slot_pair(plain, s).reference)) by {
        let got = slot_pair(plain, s);
        assert forall|t: int| 0 <= t < 32 implies #[trigger] got.reference[t] == (if first + s
            < n {
            pairs[first + s].reference[t]
        } else {
            0u8
        }) && #[trigger] got.key[t] == (if first + s < n {
            pairs[first + s].key[t]
        } else {
            0u8
        }) by {
            let pos = 64 * (first + s) + t;
            assert(pos / 64 == first + s && pos % 64 == t);
            assert((pos + 32) / 64 == first + s && (pos + 32) % 64 == 32 + t);
            assert(got.reference[t] == plain[64 * s + t]);
            assert(got.key[t] == plain[64 * s + 32 + t]);
            assert(plain[64 * s + t] == node_byte(pairs, pos));
            assert(plain[64 * s + 32 + t] == node_byte(pairs, pos + 32));
        }
        if first + s < n {
            assert(got.reference =~= pairs[first + s].reference);
            assert(got.key =~= pairs[first + s].key);
        } else {
            assert forall|t: int| 0 <= t < got.reference.len() implies got.reference[t]
                == 0u8 by {}
        }
    }
    lemma_child_count(pairs, size, j, size.spec_arity());
    assert(children(plain, size) =~= pairs.subrange(first, least((j + 1) * a, n)));
}

/// The list of children ends where the pairs end.
proof fn lemma_child_count(pairs: Seq<RkPair>, size: BlockSize, j: int, slots: nat)
    requires
        0 <= j,
        j * size.spec_arity() < pairs.len(),
        slots <= size.spec_arity(),
        forall|s: int|
            0 <= s < size.spec_arity() ==> (j * size.spec_arity() + s < pairs.len()
                ==> #[trigger] slot_pair(node_plain(pairs, size, j), s) == pairs[j
                * size.spec_arity() + s]) && (j * size.spec_arity() + s >= pairs.len() ==> is_zero(
                slot_pair(node_plain(pairs, size, j), s).reference,
            )),
        forall|k: int| 0 <= k < pairs.len() ==> !is_zero((#[trigger] pairs[k]).reference),
    ensures
        child_count(node_plain(pairs, size, j), slots) == least(
            slots as int,
            pairs.len() - j * size.spec_arity(),
        ),
    decreases slots,
{
    if slots > 0 {
        lemma_child_count(pairs, size, j, (slots - 1) as nat);
        let s = slots - 1;
        let got = slot_pair(node_plain(pairs, size, j), s);
        if j * size.spec_arity() + s < pairs.len() {
            assert(got == pairs[j * size.spec_arity() + s]);
        }
    }
}

/// The part of the content that leaf `k` carries.
pub open spec fn leaf_segment(content: Seq<u8>, size: BlockSize, k: int) -> Seq<u8> {
    content.subrange(
        k * size.spec_bytes(),
        least((k + 1) * size.spec_bytes(), content.len() as int),
    )
}

/// The part of the content below block `j` of row `l`.
pub open spec fn below(content: Seq<u8>, secret: Seq<u8>, size: BlockSize, l: nat, j: int) -> Seq<u8>
    decreases l, 0nat,
{
    if l == 0 {
        leaf_segment(content, size, j)
    } else {
        below_range(
            content,
            secret,
            size,
            (l - 1) as nat,
            j * size.spec_arity(),
            least(
                (j + 1) * size.spec_arity(),
                row(content, secret, size, (l - 1) as nat).len() as int,
            ),
        )
    }
}

/// The part of the content below blocks `lo` up to `hi` of row `l`.
pub open spec fn below_range(
    content: Seq<u8>,
    secret: Seq<u8>,
    size: BlockSize,
    l: nat,
    lo: int,
    hi: int,
) -> Seq<u8>
    decreases l, 1 + (if hi > lo {
        hi - lo
    } else {
        0
    }),
{
    if lo >= hi {
        Seq::empty()
    } else {
        below(content, secret, size, l, lo) + below_range(content, secret, size, l, lo + 1, hi)
    }
}

/// Taking the padding off the last leaf gives the rest of the content; so
/// it does for the leaf cut off at `end`, as long as the padding marker is
/// still in it.
pub proof fn lemma_last_leaf_unpads(content: Seq<u8>, size: BlockSize, end: int)
    requires
        content.len() % size.spec_bytes() < end <= size.spec_bytes(),
    ensures
        unpadded(leaf_plain(content, size, leaf_count(content, size) - 1).subrange(0, end)) == Some(
            leaf_segment(content, size, leaf_count(content, size) - 1),
        ),
    decreases end,
{
    let k = leaf_count(content, size) - 1;
    let start = k * size.spec_bytes();
    assert(start + content.len() % size.spec_bytes() == content.len()) by {
        match size {
            BlockSize::Size1KiB => {
                assert(k == content.len() / 1024);
                assert(k * 1024 + content.len() % 1024 == content.len());
            },
            BlockSize::Size32KiB => {
                assert(k == content.len() / 32768);
                assert(k * 32768 + content.len() % 32768 == content.len());
            },
        }
    }
    let plain = leaf_plain(content, size, k);
    let head = plain.subrange(0, end);
    assert(head.last() == padded_byte(content, start + end - 1));
    assert(head.drop_last() =~= plain.subrange(0, end - 1));
    if start + end - 1 == content.len() {
        assert(head.drop_last() =~= leaf_segment(content, size, k));
    } else {
        lemma_last_leaf_unpads(content, size, end - 1);
    }
}

/// Every pair of a row that is held has a reference and a key of 32 bytes,
/// and its reference is not all zero.
proof fn lemma_row_pairs_fit(
    blocks: Seq<BlockWithReference>,
    content: Seq<u8>,
    secret: Seq<u8>,
    size: BlockSize,
    top: nat,
    l: nat,
)
    requires
        no_zero_reference(blocks),
        all_held(blocks, content, secret, size, top),
        l <= top,
    ensures
        forall|k: int|
            0 <= k < row(content, secret, size, l).len() ==> (#[trigger] row(
                content,
                secret,
                size,
                l,
            )[k]).reference.len() == 32 && row(content, secret, size, l)[k].key.len() == 32
                && !is_zero(row(content, secret, size, l)[k].reference),
{
    let r = row(content, secret, size, l);
    assert forall|k: int| 0 <= k < r.len() implies (#[trigger] r[k]).reference.len() == 32
        && r[k].key.len() == 32 && !is_zero(r[k].reference) by {
        let plain = row_plain(content, secret, size, l, k);
        assert(holds(blocks, r[k], plain, size));
        let i = choose|i: int|
            0 <= i < blocks.len() && seals(#[trigger] blocks[i], r[k], plain, size);
        assert(!is_zero(blocks[i].reference@));
    }
}

/// Decoding block `j` of row `l` gives the part of the content below it.
proof fn lemma_node_decodes(
    blocks: Seq<BlockWithReference>,
    content: Seq<u8>,
    secret: Seq<u8>,
    size: BlockSize,
    top: nat,
    l: nat,
    j: int,
)
    requires
        collision_free(blocks),
        no_zero_reference(blocks),
        all_held(blocks, content, secret, size, top),
        l <= top,
        0 <= j < row(content, secret, size, l).len(),
    ensures
        decoded_node(
            blocks,
            row(content, secret, size, l)[j],
            size,
            l,
            j == row(content, secret, size, l).len() - 1,
        ) == Ok::<Seq<u8>, Fault>(below(content, secret, size, l, j)),
    decreases l, 0nat,
{
    let pair = row(content, secret, size, l)[j];
    let plain = row_plain(content, secret, size, l, j);
    assert(holds(blocks, pair, plain, size));
    lemma_held_block_opens(blocks, pair, plain, size);
    if l == 0 {
        let n = leaf_count(content, size) as int;
        assert(row(content, secret, size, 0).len() == n);
        if j == n - 1 {
            lemma_last_leaf_unpads(content, size, size.spec_bytes() as int);
            assert(plain.subrange(0, size.spec_bytes() as int) =~= plain);
        } else {
            assert((j + 1) * size.spec_bytes() <= content.len()) by {
                match size {
                    BlockSize::Size1KiB => {
                        assert(j + 1 <= content.len() / 1024);
                        assert((j + 1) * 1024 <= content.len());
                    },
                    BlockSize::Size32KiB => {
                        assert(j + 1 <= content.len() / 32768);
                        assert((j + 1) * 32768 <= content.len());
                    },
                }
            }
            assert(plain =~= leaf_segment(content, size, j));
        }
    } else {
        let under = row(content, secret, size, (l - 1) as nat);
        let hi = least((j + 1) * size.spec_arity(), under.len() as int);
        lemma_node_shape(blocks, content, secret, size, top, l, j);
        lemma_range_decodes(
            blocks,
            content,
            secret,
            size,
            top,
            (l - 1) as nat,
            j * size.spec_arity(),
            hi,
        );
    }
}

/// Decoding blocks `lo` up to `hi` of row `l` in order gives the part of
/// the content below them.
proof fn lemma_range_decodes(
    blocks: Seq<BlockWithReference>,
    content: Seq<u8>,
    secret: Seq<u8>,
    size: BlockSize,
    top: nat,
    l: nat,
    lo: int,
    hi: int,
)
    requires
        collision_free(blocks),
        no_zero_reference(blocks),
        all_held(blocks, content, secret, size, top),
        l <= top,
        0 <= lo <= hi <= row(content, secret, size, l).len(),
    ensures
        decoded_children(
            blocks,
            row(content, secret, size, l).subrange(lo, hi),
            size,
            l,
            hi == row(content, secret, size, l).len(),
        ) == Ok::<Seq<u8>, Fault>(below_range(content, secret, size, l, lo, hi)),
    decreases l, 1 + hi - lo,
{
    let r = row(content, secret, size, l);
    let kids = r.subrange(lo, hi);
    if lo < hi {
        assert(kids[0] == r[lo]);
        assert(kids.drop_first() =~= r.subrange(lo + 1, hi));
        lemma_node_decodes(blocks, content, secret, size, top, l, lo);
        lemma_range_decodes(blocks, content, secret, size, top, l, lo + 1, hi);
    }
}

/// Two adjoining ranges of a row make up the range that spans both.
proof fn lemma_range_split(
    content: Seq<u8>,
    secret: Seq<u8>,
    size: BlockSize,
    l: nat,
    x: int,
    y: int,
    z: int,
)
    requires
        x <= y <= z,
    ensures
        below_range(content, secret, size, l, x, y) + below_range(content, secret, size, l, y, z)
            == below_range(content, secret, size, l, x, z),
    decreases y - x,
{
    if x < y {
        lemma_range_split(content, secret, size, l, x + 1, y, z);
        let head = below(content, secret, size, l, x);
        assert((head + below_range(content, secret, size, l, x + 1, y)) + below_range(
            content,
            secret,
            size,
            l,
            y,
            z,
        ) =~= head + (below_range(content, secret, size, l, x + 1, y) + below_range(
            content,
            secret,
            size,
            l,
            y,
            z,
        )));
    } else {
        assert(Seq::<u8>::empty() + below_range(content, secret, size, l, y, z) =~= below_range(
            content,
            secret,
            size,
            l,
            y,
            z,
        ));
    }
}

/// The leaves from `lo` on carry the content from where leaf `lo` begins.
proof fn lemma_leaves_concat(content: Seq<u8>, secret: Seq<u8>, size: BlockSize, lo: int)
    requires
        0 <= lo < leaf_count(content, size),
    ensures
        lo * size.spec_bytes() <= content.len(),
        below_range(content, secret, size, 0, lo, leaf_count(content, size) as int)
            == content.subrange(lo * size.spec_bytes(), content.len() as int),
    decreases leaf_count(content, size) - lo,
{
    let n = leaf_count(content, size) as int;
    let bs = size.spec_bytes() as int;
    lemma_leaf_bounds(content.len(), size);
    assert(n - 1 == content.len() / size.spec_bytes());
    assert(lo * bs <= content.len() && (lo + 1 < n ==> (lo + 1) * bs <= content.len()) && (lo + 1
        == n ==> (lo + 1) * bs > content.len())) by {
        match size {
            BlockSize::Size1KiB => {
                assert(bs == 1024);
                assert(lo * 1024 <= (n - 1) * 1024);
            },
            BlockSize::Size32KiB => {
                assert(bs == 32768);
                assert(lo * 32768 <= (n - 1) * 32768);
            },
        }
    }
    let head = below(content, secret, size, 0, lo);
    assert(head == leaf_segment(content, size, lo));
    if lo + 1 < n {
        lemma_leaves_concat(content, secret, size, lo + 1);
        assert(head + content.subrange((lo + 1) * bs, content.len() as int) =~= content.subrange(
            lo * bs,
            content.len() as int,
        ));
    } else {
        assert(below_range(content, secret, size, 0, lo + 1, n) =~= Seq::<u8>::empty());
        assert(head + Seq::<u8>::empty() =~= content.subrange(lo * bs, content.len() as int));
    }
}

/// The blocks of row `l + 1` from `lo` on carry what the blocks of row `l`
/// below them carry.
proof fn lemma_regroup(content: Seq<u8>, secret: Seq<u8>, size: BlockSize, l: nat, lo: int)
    requires
        0 <= lo <= row(content, secret, size, l + 1).len(),
    ensures
        below_range(
            content,
            secret,
            size,
            l + 1,
            lo,
            row(content, secret, size, l + 1).len() as int,
        ) == below_range(
            content,
            secret,
            size,
            l,
            lo * size.spec_arity(),
            row(content, secret, size, l).len() as int,
        ),
    decreases row(content, secret, size, l + 1).len() - lo,
{
    let under = row(content, secret, size, l);
    let n = under.len() as int;
    let m = row(content, secret, size, l + 1).len() as int;
    let a = size.spec_arity() as int;
    lemma_node_count(under.len(), size);
    assert(m == node_count(under.len(), size));
    assert((lo < m ==> lo * a < n) && (lo == m ==> lo * a >= n) && (lo + 1) * a == lo * a + a) by {
        match size {
            BlockSize::Size1KiB => {
                assert(a == 16 && m == (n + 15) / 16);
                assert(lo * 16 < n <==> lo < (n + 15) / 16);
            },
            BlockSize::Size32KiB => {
                assert(a == 512 && m == (n + 511) / 512);
                assert(lo * 512 < n <==> lo < (n + 511) / 512);
            },
        }
    }
    if lo < m {
        lemma_regroup(content, secret, size, l, lo + 1);
        let hi = least((lo + 1) * a, n);
        assert(below(content, secret, size, l + 1, lo) == below_range(
            content,
            secret,
            size,
            l,
            lo * a,
            hi,
        ));
        if (lo + 1) * a <= n {
            lemma_range_split(content, secret, size, l, lo * a, (lo + 1) * a, n);
        } else {
            assert(below_range(content, secret, size, l, (lo + 1) * a, n) =~= Seq::<u8>::empty());
            assert(below_range(content, secret, size, l, lo * a, n) + Seq::<u8>::empty()
                =~= below_range(content, secret, size, l, lo * a, n));
        }
    }
}

/// Every row carries the whole content.
proof fn lemma_row_total(content: Seq<u8>, secret: Seq<u8>, size: BlockSize, l: nat)
    ensures
        below_range(content, secret, size, l, 0, row(content, secret, size, l).len() as int)
            == content,
    decreases l,
{
    if l == 0 {
        lemma_leaves_concat(content, secret, size, 0);
        assert(content.subrange(0, content.len() as int) =~= content);
    } else {
        lemma_row_total(content, secret, size, (l - 1) as nat);
        lemma_regroup(content, secret, size, (l - 1) as nat, 0);
    }
}

/// Round trip: where every block of a tree is at hand, no two different
/// blocks share a reference and no reference is all zero, decoding the
/// capability of the tree gives the content back.
pub proof fn lemma_round_trip(
    blocks: Seq<BlockWithReference>,
    content: Seq<u8>,
    secret: Seq<u8>,
    size: BlockSize,
    top: nat,
)
    requires
        collision_free(blocks),
        no_zero_reference(blocks),
        all_held(blocks, content, secret, size, top),
        row(content, secret, size, top).len() == 1,
        top <= MAX_LEVEL,
    ensures
        decoded(
            blocks,
            CapabilityView {
                block_size: size,
                level: top,
                root: row(content, secret, size, top)[0],
            },
        ) == Ok::<Seq<u8>, Fault>(content),
{
    lemma_node_decodes(blocks, content, secret, size, top, top, 0);
    lemma_row_total(content, secret, size, top);
    assert(below_range(content, secret, size, top, 1, 1) =~= Seq::<u8>::empty());
    assert(below(content, secret, size, top, 0) + Seq::<u8>::empty() =~= below(
        content,
        secret,
        size,
        top,
        0,
    ));
}

/// What the walk finds at block `j` of row `l`: the block opens to its
/// plaintext, and above the leaves its children are the pairs of the row
/// below that were packed into it.
proof fn lemma_node_shape(
    blocks: Seq<BlockWithReference>,
    content: Seq<u8>,
    secret: Seq<u8>,
    size: BlockSize,
    top: nat,
    l: nat,
    j: int,
)
    requires
        collision_free(blocks),
        no_zero_reference(blocks),
        all_held(blocks, content, secret, size, top),
        l <= top,
        0 <= j < row(content, secret, size, l).len(),
    ensures
        opened(blocks, row(content, secret, size, l)[j], size) == Ok::<Seq<u8>, Fault>(
            row_plain(content, secret, size, l, j),
        ),
        l > 0 ==> {
            let under = row(content, secret, size, (l - 1) as nat);
            let hi = least((j + 1) * size.spec_arity(), under.len() as int);
            &&& 0 <= j * size.spec_arity() < hi <= under.len()
            &&& children(row_plain(content, secret, size, l, j), size) == under.subrange(
                j * size.spec_arity(),
                hi,
            )
            &&& (j == row(content, secret, size, l).len() - 1 <==> hi == under.len())
        },
{
    let pair = row(content, secret, size, l)[j];
    let plain = row_plain(content, secret, size, l, j);
    assert(holds(blocks, pair, plain, size));
    lemma_held_block_opens(blocks, pair, plain, size);
    if l > 0 {
        let under = row(content, secret, size, (l - 1) as nat);
        let a = size.spec_arity() as int;
        lemma_node_count(under.len(), size);
        assert(row(content, secret, size, l).len() == node_count(under.len(), size));
        assert(0 <= j * a < under.len());
        lemma_row_pairs_fit(blocks, content, secret, size, top, (l - 1) as nat);
        lemma_children_of_node(under, size, j);
        let hi = least((j + 1) * a, under.len() as int);
        assert((j == node_count(under.len(), size) - 1) <==> hi == under.len()) by {
            match size {
                BlockSize::Size1KiB => {
                    assert(a == 16 && node_count(under.len(), size) == (under.len() + 15) / 16);
                    assert((j + 1) * 16 >= under.len() <==> j + 1 >= (under.len() + 15) / 16);
                },
                BlockSize::Size32KiB => {
                    assert(a == 512 && node_count(under.len(), size) == (under.len() + 511) / 512);
                    assert((j + 1) * 512 >= under.len() <==> j + 1 >= (under.len() + 511) / 512);
                },
            }
        }
        assert((j + 1) * a == j * a + a) by {
            match size {
                BlockSize::Size1KiB => {
                    assert(a == 16);
                },
                BlockSize::Size32KiB => {
                    assert(a == 512);
                },
            }
        }
    }
}

/// The index, `up` rows higher, of the block above block `j`.
pub open spec fn ancestor(size: BlockSize, j: int, up: nat) -> int
    decreases up,
{
    if up == 0 {
        j
    } else {
        ancestor(size, j, (up - 1) as nat) / (size.spec_arity() as int)
    }
}

/// `altered` differs from `blocks` in what is found under one reference
/// only, and what is found there does not pass the check.
pub open spec fn spoiled(
    blocks: Seq<BlockWithReference>,
    altered: Seq<BlockWithReference>,
    reference: Seq<u8>,
    size: BlockSize,
) -> bool {
    &&& match resolved(altered, reference) {
        None => true,
        Some(found) => found.len() != size.spec_bytes() || blake2b256(found) != reference,
    }
    &&& forall|r: Seq<u8>| r != reference ==> #[trigger] resolved(altered, r) == resolved(blocks, r)
}

/// What the walk below block `j` of row `l` gives, with `blocks` at hand.
pub open spec fn walked(
    blocks: Seq<BlockWithReference>,
    content: Seq<u8>,
    secret: Seq<u8>,
    size: BlockSize,
    l: nat,
    j: int,
) -> Result<Seq<u8>, Fault> {
    decoded_node(
        blocks,
        row(content, secret, size, l)[j],
        size,
        l,
        j == row(content, secret, size, l).len() - 1,
    )
}

/// With one reference spoiled, the walk below any block of the tree either
/// fails or gives what it gave before.
proof fn lemma_node_fails_or_agrees(
    blocks: Seq<BlockWithReference>,
    altered: Seq<BlockWithReference>,
    reference: Seq<u8>,
    content: Seq<u8>,
    secret: Seq<u8>,
    size: BlockSize,
    top: nat,
    l: nat,
    j: int,
)
    requires
        collision_free(blocks),
        no_zero_reference(blocks),
        all_held(blocks, content, secret, size, top),
        spoiled(blocks, altered, reference, size),
        l <= top,
        0 <= j < row(content, secret, size, l).len(),
    ensures
        ({
            let out = decoded_node(
                altered,
                row(content, secret, size, l)[j],
                size,
                l,
                j == row(content, secret, size, l).len() - 1,
            );
            out is Err || out == Ok::<Seq<u8>, Fault>(below(content, secret, size, l, j))
        }),
        row(content, secret, size, l)[j].reference == reference ==> decoded_node(
            altered,
            row(content, secret, size, l)[j],
            size,
            l,
            j == row(content, secret, size, l).len() - 1,
        ) is Err,
    decreases l, 0nat,
{
    let pair = row(content, secret, size, l)[j];
    lemma_node_shape(blocks, content, secret, size, top, l, j);
    if pair.reference != reference {
        assert(resolved(altered, pair.reference) == resolved(blocks, pair.reference));
        assert(opened(altered, pair, size) == opened(blocks, pair, size));
        if l == 0 {
            lemma_node_decodes(blocks, content, secret, size, top, l, j);
        } else {
            let under = row(content, secret, size, (l - 1) as nat);
            let hi = least((j + 1) * size.spec_arity(), under.len() as int);
            lemma_range_fails_or_agrees(
                blocks,
                altered,
                reference,
                content,
                secret,
                size,
                top,
                (l - 1) as nat,
                j * size.spec_arity(),
                hi,
            );
        }
    }
}

/// With one reference spoiled, the walk below a range of blocks of one row
/// either fails or gives what it gave before; it fails if one of them does.
proof fn lemma_range_fails_or_agrees(
    blocks: Seq<BlockWithReference>,
    altered: Seq<BlockWithReference>,
    reference: Seq<u8>,
    content: Seq<u8>,
    secret: Seq<u8>,
    size: BlockSize,
    top: nat,
    l: nat,
    lo: int,
    hi: int,
)
    requires
        collision_free(blocks),
        no_zero_reference(blocks),
        all_held(blocks, content, secret, size, top),
        spoiled(blocks, altered, reference, size),
        l <= top,
        0 <= lo <= hi <= row(content, secret, size, l).len(),
    ensures
        ({
            let out = decoded_children(
                altered,
                row(content, secret, size, l).subrange(lo, hi),
                size,
                l,
                hi == row(content, secret, size, l).len(),
            );
            &&& out is Err || out == Ok::<Seq<u8>, Fault>(
                below_range(content, secret, size, l, lo, hi),
            )
            &&& forall|t: int|
                lo <= t < hi && (#[trigger] walked(altered, content, secret, size, l, t)) is Err
                    ==> out is Err
        }),
    decreases l, 1 + hi - lo,
{
    let r = row(content, secret, size, l);
    let kids = r.subrange(lo, hi);
    if lo < hi {
        assert(kids[0] == r[lo]);
        assert(kids.drop_first() =~= r.subrange(lo + 1, hi));
        lemma_node_fails_or_agrees(blocks, altered, reference, content, secret, size, top, l, lo);
        lemma_range_fails_or_agrees(
            blocks,
            altered,
            reference,
            content,
            secret,
            size,
            top,
            l,
            lo + 1,
            hi,
        );
    }
}

/// With the reference of block `j` of row `l` spoiled, the walk fails
/// below every block above it.
proof fn lemma_spoiled_subtree_fails(
    blocks: Seq<BlockWithReference>,
    altered: Seq<BlockWithReference>,
    content: Seq<u8>,
    secret: Seq<u8>,
    size: BlockSize,
    top: nat,
    l: nat,
    j: int,
    up: nat,
)
    requires
        collision_free(blocks),
        no_zero_reference(blocks),
        all_held(blocks, content, secret, size, top),
        l + up <= top,
        0 <= j < row(content, secret, size, l).len(),
        spoiled(blocks, altered, row(content, secret, size, l)[j].reference, size),
    ensures
        0 <= ancestor(size, j, up) < row(content, secret, size, l + up).len(),
        decoded_node(
            altered,
            row(content, secret, size, l + up)[ancestor(size, j, up)],
            size,
            l + up,
            ancestor(size, j, up) == row(content, secret, size, l + up).len() - 1,
        ) is Err,
    decreases up,
{
    let reference = row(content, secret, size, l)[j].reference;
    if up == 0 {
        lemma_node_fails_or_agrees(blocks, altered, reference, content, secret, size, top, l, j);
    } else {
        let before = (up - 1) as nat;
        lemma_spoiled_subtree_fails(blocks, altered, content, secret, size, top, l, j, before);
        let under = row(content, secret, size, l + before);
        let t = ancestor(size, j, before);
        let a = size.spec_arity() as int;
        let here = t / a;
        lemma_node_count(under.len(), size);
        assert(row(content, secret, size, l + up) == parent_pairs(under, secret, size));
        assert(0 <= here < node_count(under.len(), size) && here * a <= t < (here + 1) * a) by {
            match size {
                BlockSize::Size1KiB => {
                    assert(a == 16 && here == t / 16);
                    assert(t == 16 * (t / 16) + t % 16);
                    assert(node_count(under.len(), size) == (under.len() + 15) / 16);
                    assert(here * 16 <= t < here * 16 + 16);
                    assert(here < (under.len() + 15) / 16);
                },
                BlockSize::Size32KiB => {
                    assert(a == 512 && here == t / 512);
                    assert(t == 512 * (t / 512) + t % 512);
                    assert(node_count(under.len(), size) == (under.len() + 511) / 512);
                    assert(here * 512 <= t < here * 512 + 512);
                    assert(here < (under.len() + 511) / 512);
                },
            }
        }
        let pair = row(content, secret, size, l + up)[here];
        lemma_node_shape(blocks, content, secret, size, top, l + up, here);
        lemma_node_fails_or_agrees(
            blocks,
            altered,
            reference,
            content,
            secret,
            size,
            top,
            l + up,
            here,
        );
        if pair.reference != reference {
            assert(resolved(altered, pair.reference) == resolved(blocks, pair.reference));
            assert(opened(altered, pair, size) == opened(blocks, pair, size));
            let hi = least((here + 1) * a, under.len() as int);
            lemma_range_fails_or_agrees(
                blocks,
                altered,
                reference,
                content,
                secret,
                size,
                top,
                l + before,
                here * a,
                hi,
            );
            assert(here * a <= t < hi);
            assert(walked(altered, content, secret, size, l + before, t) is Err);
        }
    }
}

/// Integrity: where the block of any node of a tree is replaced by bytes
/// that do not pass the check, or is taken away, and every other reference
/// still leads to its block, decoding the capability of the tree fails.
pub proof fn lemma_spoiled_block_is_rejected(
    blocks: Seq<BlockWithReference>,
    altered: Seq<BlockWithReference>,
    content: Seq<u8>,
    secret: Seq<u8>,
    size: BlockSize,
    top: nat,
    l: nat,
    j: int,
)
    requires
        collision_free(blocks),
        no_zero_reference(blocks),
        all_held(blocks, content, secret, size, top),
        row(content, secret, size, top).len() == 1,
        top <= MAX_LEVEL,
        l <= top,
        0 <= j < row(content, secret, size, l).len(),
        spoiled(blocks, altered, row(content, secret, size, l)[j].reference, size),
    ensures
        decoded(
            altered,
            CapabilityView {
                block_size: size,
                level: top,
                root: row(content, secret, size, top)[0],
            },
        ) is Err,
{
    lemma_spoiled_subtree_fails(
        blocks,
        altered,
        content,
        secret,
        size,
        top,
        l,
        j,
        (top - l) as nat,
    );
}

/// The tree grown above row `l` ends in the first row that holds a single
/// pair: that row gives the root, and its height gives the level.
pub proof fn lemma_top_row(content: Seq<u8>, secret: Seq<u8>, size: BlockSize, l: nat)
    requires
        row(content, secret, size, l).len() >= 1,
    ensures
        ({
            let tree = grow(row(content, secret, size, l), secret, size, l);
            &&& tree.level >= l
            &&& row(content, secret, size, tree.level).len() == 1
            &&& tree.root == row(content, secret, size, tree.level)[0]
        }),
    decreases row(content, secret, size, l).len(),
{
    let here = row(content, secret, size, l);
    if here.len() > 1 {
        lemma_node_count(here.len(), size);
        assert(row(content, secret, size, l + 1) == parent_pairs(here, secret, size));
        lemma_top_row(content, secret, size, l + 1);
    }
}

/// Round trip, in terms of the tree that encoding gives: where every block
/// of the tree is at hand, no two different blocks share a reference and no
/// reference is all zero, decoding the capability gives the content back.
pub proof fn lemma_encoded_round_trip(
    blocks: Seq<BlockWithReference>,
    content: Seq<u8>,
    secret: Seq<u8>,
    size: BlockSize,
)
    requires
        collision_free(blocks),
        no_zero_reference(blocks),
        all_held(blocks, content, secret, size, encoded(content, secret, size).level),
        encoded(content, secret, size).level <= MAX_LEVEL,
    ensures
        decoded(blocks, capability_of(encoded(content, secret, size), size)) == Ok::<
            Seq<u8>,
            Fault,
        >(content),
{
    assert(row(content, secret, size, 0).len() == leaf_count(content, size));
    lemma_top_row(content, secret, size, 0);
    lemma_round_trip(blocks, content, secret, size, encoded(content, secret, size).level);
}

} // verus!
