use apsis::types::BlockSize;
use apsis::types::ReadCapability;
use apsis::types::ReferenceKeyPair;
use apsis::urn::peer_to_url;
use apsis::urn::ref_to_urn;
use apsis::urn::try_ref_to_id;
use apsis::urn::urn_to_ref;

fn counting() -> [u8; 32] {
    let mut r = [0u8; 32];
    for (i, b) in r.iter_mut().enumerate() {
        *b = i as u8;
    }
    r
}

#[test]
fn zero_reference_urn() {
    let urn = ref_to_urn(&[0u8; 32]);
    assert_eq!(urn, format!("urn:{}", "A".repeat(52)));
    assert_eq!(urn_to_ref(urn), Some([0u8; 32]));
}

#[test]
fn reference_urn_round_trip() {
    let r = counting();
    let urn = ref_to_urn(&r);
    assert_eq!(urn, "urn:AAAQEAYEAUDAOCAJBIFQYDIOB4IBCEQTCQKRMFYYDENBWHA5DYPQ");
    assert_eq!(urn_to_ref(urn), Some(r));
}

#[test]
fn reference_urn_is_read_after_the_first_marker() {
    let r = counting();
    let urn = format!("see urn:{}", &ref_to_urn(&r)[4..]);
    assert_eq!(urn_to_ref(urn), Some(r));
}

#[test]
fn malformed_reference_urns() {
    assert_eq!(urn_to_ref("".to_string()), None);
    assert_eq!(urn_to_ref("AAAA".to_string()), None);
    assert_eq!(urn_to_ref("urn:".to_string()), None);
    assert_eq!(urn_to_ref("urn:AAAA".to_string()), None);
    assert_eq!(urn_to_ref(format!("urn:{}", "A".repeat(51))), None);
    assert_eq!(urn_to_ref(format!("urn:{}", "A".repeat(56))), None);
    assert_eq!(urn_to_ref(format!("urn:{}!", "A".repeat(51))), None);
    assert_eq!(urn_to_ref(format!("urn:{}\u{e9}", "A".repeat(51))), None);
}

#[test]
fn capability_urn_round_trip() {
    for (size, level) in [(BlockSize::Size1KiB, 0u8), (BlockSize::Size32KiB, 2), (BlockSize::Size32KiB, 255)] {
        let c = ReadCapability {
            block_size: size,
            level,
            root: ReferenceKeyPair { reference: counting(), key: [0xabu8; 32] },
        };
        let urn = c.to_urn();
        assert!(urn.starts_with("urn:eris:"));
        let back = ReadCapability::from_urn(urn).expect("parses");
        assert_eq!(back.block_size, size);
        assert_eq!(back.level, level);
        assert_eq!(back.root.reference, counting());
        assert_eq!(back.root.key, [0xabu8; 32]);
    }
}

#[test]
fn capability_bytes_layout() {
    let c = ReadCapability {
        block_size: BlockSize::Size32KiB,
        level: 3,
        root: ReferenceKeyPair { reference: [1u8; 32], key: [2u8; 32] },
    };
    let bytes = c.to_bytes();
    assert_eq!(bytes.len(), 66);
    assert_eq!(bytes[0], 1);
    assert_eq!(bytes[1], 3);
    assert_eq!(&bytes[2..34], &[1u8; 32]);
    assert_eq!(&bytes[34..], &[2u8; 32]);
    let small = ReadCapability { block_size: BlockSize::Size1KiB, ..c };
    assert_eq!(small.to_bytes()[0], 0);
    assert_eq!(small.to_urn(), format!("urn:eris:AABQ{}", &c.to_urn()[13..]));
}

#[test]
fn malformed_capability_urns() {
    let c = ReadCapability {
        block_size: BlockSize::Size1KiB,
        level: 0,
        root: ReferenceKeyPair { reference: [1u8; 32], key: [2u8; 32] },
    };
    let urn = c.to_urn();
    assert!(ReadCapability::from_urn(format!(" {}", urn)).is_none());
    assert!(ReadCapability::from_urn(urn[4..].to_string()).is_none());
    assert!(ReadCapability::from_urn(format!("urn:{}", &urn[9..])).is_none());
    assert!(ReadCapability::from_urn(format!("{}AA", urn)).is_none());
    assert!(ReadCapability::from_urn(urn[..urn.len() - 2].to_string()).is_none());
    assert!(ReadCapability::from_urn(ref_to_urn(&[0u8; 32])).is_none());
    let mut bytes = c.to_bytes();
    bytes[0] = 2;
    assert!(ReadCapability::from_bytes(&bytes).is_none());
    bytes[0] = 0x0a;
    assert!(ReadCapability::from_bytes(&bytes).is_none());
    bytes[0] = 1;
    assert_eq!(ReadCapability::from_bytes(&bytes).unwrap().block_size, BlockSize::Size32KiB);
    bytes.push(0);
    assert!(ReadCapability::from_bytes(&bytes).is_none());
}

#[test]
fn a_capability_urn_is_no_bare_reference() {
    let c = ReadCapability {
        block_size: BlockSize::Size1KiB,
        level: 0,
        root: ReferenceKeyPair { reference: [1u8; 32], key: [2u8; 32] },
    };
    assert_eq!(urn_to_ref(c.to_urn()), None);
}

#[test]
fn peer_id_is_the_first_twenty_bytes() {
    let id = try_ref_to_id(&counting());
    assert_eq!(id.to_vec(), (0u8..20).collect::<Vec<u8>>());
}

#[test]
fn peer_url_layout() {
    let url = peer_to_url([127, 0, 0, 1], 8080, &[0u8; 32]);
    assert_eq!(url, format!("http://127.0.0.1:8080/uri-res/N2R?urn:{}", "A".repeat(52)));
    let url = peer_to_url([255, 10, 9, 100], 65535, &[0u8; 32]);
    assert_eq!(url, format!("http://255.10.9.100:65535/uri-res/N2R?urn:{}", "A".repeat(52)));
    let url = peer_to_url([0, 0, 0, 0], 0, &[0u8; 32]);
    assert!(url.starts_with("http://0.0.0.0:0/uri-res/N2R?urn:"));
}
