use apsis::api::authenticate;
use apsis::api::choose_block_size;
use apsis::api::classify_accept;
use apsis::api::classify_content;
use apsis::api::name_to_resource;
use apsis::api::parse_name;
use apsis::api::resource_to_name;
use apsis::api::shape_content;
use apsis::api::Accept;
use apsis::api::ContentKind;
use apsis::api::Name;
use apsis::api::Reply;
use apsis::api::Served;
use apsis::decode::DecodeError;
use apsis::encode::encode;
use apsis::resolver::Fetch;
use apsis::resolver::FetchAction;
use apsis::resolver::FetchEvent;
use apsis::resolver::Peer;
use apsis::resolver::Phase;
use apsis::resolver::MAX_PEER_RETRIES;
use apsis::types::BlockSize;
use apsis::types::ReadCapability;
use apsis::urn::peer_to_url;
use apsis::urn::ref_to_urn;

#[test]
fn only_uploads_need_the_token() {
    assert!(authenticate("/uri-res/N2R", None, b"secret"));
    assert!(authenticate("/", Some(b"wrong"), b"secret"));
    assert!(authenticate("/uri-res/R2N", Some(b"secret"), b"secret"));
    assert!(!authenticate("/uri-res/R2N", Some(b"secreT"), b"secret"));
    assert!(!authenticate("/uri-res/R2N", Some(b"secre"), b"secret"));
    assert!(!authenticate("/uri-res/R2N", Some(b""), b"secret"));
    assert!(!authenticate("/uri-res/R2N", None, b"secret"));
}

#[test]
fn content_types() {
    assert_eq!(classify_content(Some("application/json")), Some(ContentKind::Json));
    assert_eq!(
        classify_content(Some("application/json; charset=utf-8")),
        Some(ContentKind::Json)
    );
    assert_eq!(
        classify_content(Some("multipart/form-data; boundary=x")),
        Some(ContentKind::File)
    );
    assert_eq!(classify_content(Some("text/plain")), None);
    assert_eq!(classify_content(Some(" application/json")), None);
    assert_eq!(classify_content(Some("")), None);
    assert_eq!(classify_content(None), None);
}

#[test]
fn block_size_policy() {
    assert_eq!(choose_block_size(ContentKind::Json, 0), BlockSize::Size1KiB);
    assert_eq!(choose_block_size(ContentKind::Json, 999), BlockSize::Size1KiB);
    assert_eq!(choose_block_size(ContentKind::Json, 1000), BlockSize::Size32KiB);
    assert_eq!(choose_block_size(ContentKind::File, 10), BlockSize::Size32KiB);
    assert_eq!(choose_block_size(ContentKind::File, 1_048_577), BlockSize::Size32KiB);
}

#[test]
fn statuses() {
    assert_eq!(Reply::Created(String::new()).status(), 201);
    assert_eq!(Reply::Json(vec![]).status(), 200);
    assert_eq!(Reply::Bytes(vec![]).status(), 200);
    assert_eq!(Reply::NotJson.status(), 422);
    assert_eq!(Reply::InvalidName.status(), 422);
    assert_eq!(Reply::NotAcceptable.status(), 404);
    assert_eq!(Reply::NotDereferenced(DecodeError::BadPadding).status(), 404);
    assert_eq!(Reply::BlockNotFound.status(), 404);
    assert_eq!(Reply::UnsupportedMedia.status(), 415);
    assert_eq!(Reply::Unauthorized.status(), 401);
}

#[test]
fn accept_headers() {
    assert_eq!(classify_accept(Some("application/json")), Accept::Json);
    assert_eq!(classify_accept(Some("application/octet-stream")), Accept::Octets);
    assert_eq!(classify_accept(Some("application/json, text/plain")), Accept::Other);
    assert_eq!(classify_accept(Some("*/*")), Accept::Other);
    assert_eq!(classify_accept(None), Accept::Other);
}

#[test]
fn upload_json_then_ask_for_json() {
    let secret = [4u8; 32];
    let doc = b"{\"hello\":\"world\"}";
    let (reply, blocks) = resource_to_name(ContentKind::Json, doc, &secret);
    assert_eq!(reply.status(), 201);
    let urn = match reply {
        Reply::Created(urn) => urn,
        other => panic!("unexpected: {:?}", other),
    };
    assert!(urn.starts_with("urn:eris:AAA"));
    assert_eq!(blocks.len(), 1);
    assert_eq!(blocks[0].block.len(), 1024);
    match name_to_resource(&urn, Accept::Json, &blocks) {
        Served::Reply(Reply::Json(body)) => assert_eq!(body, doc),
        other => panic!("unexpected: {:?}", other),
    }
    match name_to_resource(&urn, Accept::Octets, &blocks) {
        Served::Reply(Reply::Bytes(body)) => assert_eq!(body, doc),
        other => panic!("unexpected: {:?}", other),
    }
    assert!(matches!(
        name_to_resource(&urn, Accept::Other, &blocks),
        Served::Reply(Reply::NotAcceptable)
    ));
}

#[test]
fn upload_file_uses_large_blocks() {
    let secret = [4u8; 32];
    let (reply, blocks) = resource_to_name(ContentKind::File, b"not json", &secret);
    let urn = match reply {
        Reply::Created(urn) => urn,
        other => panic!("unexpected: {:?}", other),
    };
    let capability = ReadCapability::from_urn(urn.clone()).unwrap();
    assert_eq!(capability.block_size, BlockSize::Size32KiB);
    assert_eq!(blocks[0].block.len(), 32768);
    assert!(matches!(
        name_to_resource(&urn, Accept::Json, &blocks),
        Served::Reply(Reply::NotJson)
    ));
}

#[test]
fn same_secret_same_capability() {
    let doc = b"[1,2,3]";
    let (a, _) = resource_to_name(ContentKind::Json, doc, &[1u8; 32]);
    let (b, _) = resource_to_name(ContentKind::Json, doc, &[1u8; 32]);
    let (c, _) = resource_to_name(ContentKind::Json, doc, &[2u8; 32]);
    match (a, b, c) {
        (Reply::Created(a), Reply::Created(b), Reply::Created(c)) => {
            assert_eq!(a, b);
            assert_ne!(a, c);
        }
        other => panic!("unexpected: {:?}", other),
    }
}

#[test]
fn a_missing_block_is_asked_for_and_then_served() {
    let secret = [4u8; 32];
    let content = vec![0x5au8; 40_000];
    let (capability, blocks) = encode(&content, &secret, BlockSize::Size32KiB);
    let urn = capability.to_urn();
    let mut at_hand = vec![blocks[2].clone()];
    let root = blocks[2].reference;
    assert_eq!(root, capability.root.reference);
    let first = match name_to_resource(&urn, Accept::Octets, &at_hand) {
        Served::Need(r) => r,
        other => panic!("unexpected: {:?}", other),
    };
    assert_eq!(first, blocks[0].reference);
    at_hand.push(blocks[0].clone());
    let second = match name_to_resource(&urn, Accept::Octets, &at_hand) {
        Served::Need(r) => r,
        other => panic!("unexpected: {:?}", other),
    };
    assert_eq!(second, blocks[1].reference);
    at_hand.push(blocks[1].clone());
    match name_to_resource(&urn, Accept::Octets, &at_hand) {
        Served::Reply(Reply::Bytes(body)) => assert_eq!(body, content),
        other => panic!("unexpected: {:?}", other),
    }
}

#[test]
fn a_corrupted_leaf_is_not_dereferenced() {
    let secret = [4u8; 32];
    let (capability, mut blocks) = encode(b"{\"a\":1}", &secret, BlockSize::Size1KiB);
    blocks[0].block[0] ^= 0xff;
    let served = name_to_resource(&capability.to_urn(), Accept::Json, &blocks);
    match served {
        Served::Reply(reply) => {
            assert_eq!(reply.status(), 404);
            assert!(matches!(reply, Reply::NotDereferenced(DecodeError::Corrupted(_))));
        }
        other => panic!("unexpected: {:?}", other),
    }
}

#[test]
fn a_bare_reference_gives_the_encrypted_block() {
    let secret = [4u8; 32];
    let (_, blocks) = encode(b"{\"a\":1}", &secret, BlockSize::Size1KiB);
    let urn = ref_to_urn(&blocks[0].reference);
    match name_to_resource(&urn, Accept::Other, &blocks) {
        Served::Reply(Reply::Bytes(body)) => assert_eq!(body, blocks[0].block),
        other => panic!("unexpected: {:?}", other),
    }
    match name_to_resource(&urn, Accept::Other, &[]) {
        Served::Need(r) => assert_eq!(r, blocks[0].reference),
        other => panic!("unexpected: {:?}", other),
    }
}

#[test]
fn names() {
    assert!(matches!(parse_name(&"nonsense".to_string()), Name::Invalid));
    assert!(matches!(parse_name(&"urn:eris:AAAA".to_string()), Name::Invalid));
    assert!(matches!(parse_name(&ref_to_urn(&[9u8; 32])), Name::Reference(r) if r == [9u8; 32]));
    let (capability, _) = encode(b"x", &[0u8; 32], BlockSize::Size1KiB);
    assert!(matches!(
        parse_name(&capability.to_urn()),
        Name::Capability(c) if c.root.reference == capability.root.reference
    ));
    assert!(matches!(
        name_to_resource(&"nonsense".to_string(), Accept::Json, &[]),
        Served::Reply(Reply::InvalidName)
    ));
}

#[test]
fn shaping() {
    assert!(matches!(shape_content(Accept::Json, vec![1], true), Reply::Json(b) if b == vec![1]));
    assert!(matches!(shape_content(Accept::Json, vec![1], false), Reply::NotJson));
    assert!(matches!(shape_content(Accept::Octets, vec![1], false), Reply::Bytes(b) if b == vec![1]));
    assert!(matches!(shape_content(Accept::Other, vec![1], true), Reply::NotAcceptable));
}

fn peer(last: u8) -> Peer {
    Peer { ip: [10, 0, 0, last], port: 3000 }
}

#[test]
fn fetch_without_bootstrap_fails_at_once() {
    let (fetch, action) = Fetch::start([1u8; 32], true, false);
    assert!(matches!(action, FetchAction::NotFound));
    assert_eq!(fetch.phase, Phase::Finished);
}

#[test]
fn fetch_gives_up_after_three_rounds() {
    assert_eq!(MAX_PEER_RETRIES, 3);
    let reference = [1u8; 32];
    let (mut fetch, action) = Fetch::start(reference, true, true);
    assert!(matches!(action, FetchAction::Lookup(id) if id == [1u8; 20]));
    assert!(matches!(fetch.step(FetchEvent::Peers(vec![])), FetchAction::Lookup(_)));
    assert_eq!(fetch.round, 2);
    assert!(matches!(fetch.step(FetchEvent::Peers(vec![peer(1)])), FetchAction::Get(_)));
    assert!(matches!(fetch.step(FetchEvent::Unreachable), FetchAction::Lookup(_)));
    assert_eq!(fetch.round, 3);
    assert!(matches!(fetch.step(FetchEvent::Peers(vec![])), FetchAction::NotFound));
    assert_eq!(fetch.phase, Phase::Finished);
    assert!(matches!(fetch.step(FetchEvent::Peers(vec![peer(1)])), FetchAction::NotFound));
}

#[test]
fn fetch_skips_bad_peers_and_takes_the_first_good_body() {
    let secret = [4u8; 32];
    let (_, blocks) = encode(b"payload", &secret, BlockSize::Size1KiB);
    let reference = blocks[0].reference;
    let (mut fetch, _) = Fetch::start(reference, true, true);
    let action = fetch.step(FetchEvent::Peers(vec![peer(1), peer(2), peer(3)]));
    match action {
        FetchAction::Get(url) => assert_eq!(url, peer_to_url([10, 0, 0, 1], 3000, &reference)),
        other => panic!("unexpected: {:?}", other),
    }
    let action = fetch.step(FetchEvent::Body(vec![0u8; 1024]));
    match action {
        FetchAction::Get(url) => assert_eq!(url, peer_to_url([10, 0, 0, 2], 3000, &reference)),
        other => panic!("unexpected: {:?}", other),
    }
    let action = fetch.step(FetchEvent::Unreachable);
    match action {
        FetchAction::Get(url) => assert_eq!(url, peer_to_url([10, 0, 0, 3], 3000, &reference)),
        other => panic!("unexpected: {:?}", other),
    }
    assert_eq!(fetch.round, 1);
    let action = fetch.step(FetchEvent::Body(blocks[0].block.clone()));
    match action {
        FetchAction::Done(body) => assert_eq!(body, blocks[0].block),
        other => panic!("unexpected: {:?}", other),
    }
    assert_eq!(fetch.phase, Phase::Finished);
}

#[test]
fn fetch_without_check_takes_any_body() {
    let (mut fetch, _) = Fetch::start([1u8; 32], false, true);
    assert!(matches!(fetch.step(FetchEvent::Peers(vec![peer(1)])), FetchAction::Get(_)));
    assert!(matches!(fetch.step(FetchEvent::Body(vec![1, 2, 3])), FetchAction::Done(b) if b == vec![1, 2, 3]));
}

#[test]
fn fetch_ends_on_an_event_it_did_not_wait_for() {
    let (mut fetch, _) = Fetch::start([1u8; 32], true, true);
    assert!(matches!(fetch.step(FetchEvent::Body(vec![])), FetchAction::NotFound));
    assert_eq!(fetch.phase, Phase::Finished);
}
