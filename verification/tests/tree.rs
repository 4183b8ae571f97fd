use apsis::decode::decode;
use apsis::decode::open_block;
use apsis::decode::read_children;
use apsis::decode::unpad;
use apsis::decode::DecodeError;
use apsis::encode::encode;
use apsis::hash::blake2b256_hash;
use apsis::hash::block_matches;
use apsis::types::BlockSize;
use chacha20::cipher::KeyIvInit;
use chacha20::cipher::StreamCipher;

fn sample(len: usize) -> Vec<u8> {
    let mut state: u32 = 12345;
    let mut out = Vec::with_capacity(len);
    for _ in 0..len {
        state = state.wrapping_mul(1_103_515_245).wrapping_add(12_345);
        out.push((state >> 16) as u8);
    }
    out
}

fn round_trip(content: &[u8], size: BlockSize) -> (u8, usize) {
    let secret = [7u8; 32];
    let (capability, blocks) = encode(content, &secret, size);
    let back = decode(&capability, &blocks).expect("decodes");
    assert_eq!(back, content);
    (capability.level, blocks.len())
}

#[test]
fn empty_input_is_one_padded_leaf() {
    let secret = [1u8; 32];
    let (capability, blocks) = encode(&[], &secret, BlockSize::Size1KiB);
    assert_eq!(capability.level, 0);
    assert_eq!(blocks.len(), 1);
    assert_eq!(blocks[0].block.len(), 1024);
    assert_eq!(blocks[0].reference, capability.root.reference);
    let plain = open_block(&blocks, &capability.root, BlockSize::Size1KiB).unwrap();
    assert_eq!(plain[0], 0x80);
    assert!(plain[1..].iter().all(|b| *b == 0));
    assert_eq!(decode(&capability, &blocks).unwrap(), Vec::<u8>::new());
}

#[test]
fn hello_world_round_trip() {
    let (level, count) = round_trip(b"{\"hello\":\"world\"}", BlockSize::Size1KiB);
    assert_eq!(level, 0);
    assert_eq!(count, 1);
}

#[test]
fn leaf_is_keyed_hash_then_chacha20_then_hash() {
    let secret = [9u8; 32];
    let content = b"Hail ERIS!";
    let (capability, blocks) = encode(content, &secret, BlockSize::Size1KiB);
    let mut plain = vec![0u8; 1024];
    plain[..content.len()].copy_from_slice(content);
    plain[content.len()] = 0x80;
    let key = blake2b_simd::Params::new().hash_length(32).key(&secret).hash(&plain);
    assert_eq!(capability.root.key, key.as_bytes());
    let mut expected = plain.clone();
    let nonce = [0u8; 12];
    let mut cipher = chacha20::ChaCha20::new(
        chacha20::Key::from_slice(key.as_bytes()),
        chacha20::Nonce::from_slice(&nonce),
    );
    cipher.apply_keystream(&mut expected);
    assert_eq!(blocks[0].block, expected);
    assert_ne!(blocks[0].block, plain);
    let reference = blake2b_simd::Params::new().hash_length(32).hash(&expected);
    assert_eq!(capability.root.reference, reference.as_bytes());
}

#[test]
fn exact_multiple_ends_in_a_full_pad_block() {
    let secret = [3u8; 32];
    let content = sample(1024);
    let (capability, blocks) = encode(&content, &secret, BlockSize::Size1KiB);
    assert_eq!(capability.level, 1);
    assert_eq!(blocks.len(), 3);
    let root = open_block(&blocks, &capability.root, BlockSize::Size1KiB).unwrap();
    let kids = read_children(&root, BlockSize::Size1KiB);
    assert_eq!(kids.len(), 2);
    let first = open_block(&blocks, &kids[0], BlockSize::Size1KiB).unwrap();
    assert_eq!(first, content);
    let last = open_block(&blocks, &kids[1], BlockSize::Size1KiB).unwrap();
    assert_eq!(last[0], 0x80);
    assert!(last[1..].iter().all(|b| *b == 0));
    assert_eq!(decode(&capability, &blocks).unwrap(), content);
}

#[test]
fn level_goes_from_zero_to_one_at_a_full_block() {
    assert_eq!(round_trip(&sample(1023), BlockSize::Size1KiB), (0, 1));
    assert_eq!(round_trip(&sample(1024), BlockSize::Size1KiB), (1, 3));
    assert_eq!(round_trip(&sample(32767), BlockSize::Size32KiB), (0, 1));
    assert_eq!(round_trip(&sample(32768), BlockSize::Size32KiB), (1, 3));
}

#[test]
fn level_goes_from_one_to_two_past_one_full_node() {
    // 15 full leaves and the padded one fill a node of 16 pairs.
    assert_eq!(round_trip(&sample(15 * 1024 + 5), BlockSize::Size1KiB), (1, 17));
    // 17 leaves need two nodes and a root above them.
    assert_eq!(round_trip(&sample(16 * 1024), BlockSize::Size1KiB), (2, 20));
}

#[test]
fn one_mebibyte_and_a_byte_in_large_blocks() {
    let content = sample(1_048_577);
    assert_eq!(round_trip(&content, BlockSize::Size32KiB), (1, 34));
}

#[test]
fn three_levels_in_small_blocks() {
    // 257 leaves, 17 nodes, 2 nodes, 1 root.
    assert_eq!(round_trip(&sample(256 * 1024 + 100), BlockSize::Size1KiB), (3, 277));
}

#[test]
fn every_block_is_filed_under_its_digest() {
    let secret = [5u8; 32];
    for size in [BlockSize::Size1KiB, BlockSize::Size32KiB] {
        let (_, blocks) = encode(&sample(70_000), &secret, size);
        for b in &blocks {
            assert_eq!(b.block.len(), size.bytes());
            assert_eq!(blake2b256_hash(&b.block, None), b.reference);
            assert!(block_matches(&b.reference, &b.block));
        }
    }
}

#[test]
fn encoding_is_deterministic() {
    let secret = [5u8; 32];
    let content = sample(5000);
    let (c1, b1) = encode(&content, &secret, BlockSize::Size1KiB);
    let (c2, b2) = encode(&content, &secret, BlockSize::Size1KiB);
    assert_eq!(c1.to_urn(), c2.to_urn());
    assert_eq!(b1.len(), b2.len());
    for (x, y) in b1.iter().zip(b2.iter()) {
        assert_eq!(x.reference, y.reference);
        assert_eq!(x.block, y.block);
    }
}

#[test]
fn secrets_separate_block_sets() {
    let content = sample(5000);
    let (c1, b1) = encode(&content, &[1u8; 32], BlockSize::Size1KiB);
    let (c2, b2) = encode(&content, &[2u8; 32], BlockSize::Size1KiB);
    assert_ne!(c1.to_urn(), c2.to_urn());
    for x in &b1 {
        assert!(b2.iter().all(|y| y.reference != x.reference));
    }
}

#[test]
fn a_changed_byte_is_rejected() {
    let secret = [5u8; 32];
    let content = sample(3000);
    let (capability, blocks) = encode(&content, &secret, BlockSize::Size1KiB);
    for i in 0..blocks.len() {
        let mut damaged = blocks.clone();
        damaged[i].block[17] ^= 0x01;
        let reference = damaged[i].reference;
        match decode(&capability, &damaged) {
            Err(DecodeError::Corrupted(r)) => assert_eq!(r, reference),
            other => panic!("block {} accepted: {:?}", i, other),
        }
    }
}

#[test]
fn a_missing_block_is_named() {
    let secret = [5u8; 32];
    let content = sample(3000);
    let (capability, mut blocks) = encode(&content, &secret, BlockSize::Size1KiB);
    let gone = blocks.remove(1);
    match decode(&capability, &blocks) {
        Err(DecodeError::BlockNotFound(r)) => assert_eq!(r, gone.reference),
        other => panic!("unexpected: {:?}", other),
    }
    blocks.push(gone);
    assert_eq!(decode(&capability, &blocks).unwrap(), content);
}

#[test]
fn a_block_of_the_wrong_length_is_rejected() {
    let secret = [5u8; 32];
    let (capability, mut blocks) = encode(b"abc", &secret, BlockSize::Size1KiB);
    blocks[0].block.push(0);
    assert!(matches!(decode(&capability, &blocks), Err(DecodeError::WrongLength(_))));
}

#[test]
fn a_level_above_the_bound_is_rejected() {
    let secret = [5u8; 32];
    let (mut capability, blocks) = encode(b"abc", &secret, BlockSize::Size1KiB);
    capability.level = 65;
    assert!(matches!(decode(&capability, &blocks), Err(DecodeError::TooDeep)));
}

#[test]
fn padding_comes_off_at_the_last_marker() {
    assert_eq!(unpad(&[1, 2, 0x80, 0, 0]), Some(vec![1, 2]));
    assert_eq!(unpad(&[1, 0x80, 2, 0x80]), Some(vec![1, 0x80, 2]));
    assert_eq!(unpad(&[0x80]), Some(vec![]));
    assert_eq!(unpad(&[0, 0, 0]), None);
    assert_eq!(unpad(&[]), None);
    assert_eq!(unpad(&[1, 0x80, 3, 0]), None);
}

#[test]
fn equal_leaves_share_one_reference() {
    let secret = [5u8; 32];
    let content = vec![0x41u8; 2048];
    let (capability, blocks) = encode(&content, &secret, BlockSize::Size1KiB);
    assert_eq!(blocks.len(), 4);
    assert_eq!(blocks[0].reference, blocks[1].reference);
    assert_ne!(blocks[0].reference, blocks[2].reference);
    let kept = vec![blocks[1].clone(), blocks[2].clone(), blocks[3].clone()];
    assert_eq!(decode(&capability, &kept).unwrap(), content);
}

#[test]
fn a_leaf_without_padding_is_rejected() {
    // A full leaf handed in as the whole content has no padding to take off.
    let secret = [5u8; 32];
    let content = vec![1u8; 1024];
    let (capability, blocks) = encode(&content, &secret, BlockSize::Size1KiB);
    let root = open_block(&blocks, &capability.root, BlockSize::Size1KiB).unwrap();
    let kids = read_children(&root, BlockSize::Size1KiB);
    let leaf_only = apsis::types::ReadCapability {
        block_size: BlockSize::Size1KiB,
        level: 0,
        root: kids[0],
    };
    assert!(matches!(decode(&leaf_only, &blocks), Err(DecodeError::BadPadding)));
}

#[test]
fn unkeyed_digest_of_nothing() {
    let expected: [u8; 32] = [
        0x0e, 0x57, 0x51, 0xc0, 0x26, 0xe5, 0x43, 0xb2, 0xe8, 0xab, 0x2e, 0xb0, 0x60, 0x99, 0xda,
        0xa1, 0xd1, 0xe5, 0xdf, 0x47, 0x77, 0x8f, 0x77, 0x87, 0xfa, 0xab, 0x45, 0xcd, 0xf1, 0x2f,
        0xe3, 0xa8,
    ];
    assert_eq!(blake2b256_hash(&[], None), expected);
    assert_ne!(blake2b256_hash(&[], Some(&[1u8; 32])), expected);
}
