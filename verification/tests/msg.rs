use ssp::msg::{Msg, MsgError, MsgPayload, SLPMsg, SLPMsgData};

const SECRET: [u8; 32] = [7u8; 32];

fn public(secret: &[u8; 32]) -> [u8; 32] {
    *iroh::SecretKey::from_bytes(secret).public().as_bytes()
}

#[test]
fn data_message_layout() {
    let msg = SLPMsg {
        body: SLPMsgData::Data { data: vec![0xaa, 0xbb], nonce: [9; 12] },
        signature: vec![1, 2, 3],
    };
    let mut expected = vec![0, 0, 0, 0, 2, 0, 0, 0, 0, 0, 0, 0, 0xaa, 0xbb];
    expected.extend_from_slice(&[9; 12]);
    expected.extend_from_slice(&[3, 0, 0, 0, 0, 0, 0, 0, 1, 2, 3]);
    assert_eq!(msg.to_vec(), expected);
}

#[test]
fn chunk_message_layout() {
    let from = public(&SECRET);
    let msg = SLPMsg {
        body: SLPMsgData::Chunk { from, id: 0x0102, index: 3, total: 0x0405, payload: vec![6] },
        signature: Vec::new(),
    };
    let mut expected = vec![1, 0, 0, 0];
    expected.extend_from_slice(&from);
    expected.extend_from_slice(&[2, 1, 0, 0, 0, 0, 0, 0, 3, 0, 5, 4]);
    expected.extend_from_slice(&[1, 0, 0, 0, 0, 0, 0, 0, 6]);
    expected.extend_from_slice(&[0; 8]);
    assert_eq!(msg.to_vec(), expected);
}

#[test]
fn new_game_message_layout() {
    let from = public(&SECRET);
    let msg = SLPMsg {
        body: SLPMsgData::NewGame { from, newseed: [5; 32] },
        signature: vec![4],
    };
    let mut expected = vec![2, 0, 0, 0];
    expected.extend_from_slice(&from);
    expected.extend_from_slice(&[5; 32]);
    expected.extend_from_slice(&[1, 0, 0, 0, 0, 0, 0, 0, 4]);
    assert_eq!(msg.to_vec(), expected);
}

#[test]
fn messages_roundtrip_with_trailing_bytes() {
    let from = public(&SECRET);
    let bodies = vec![
        SLPMsgData::Data { data: vec![1; 300], nonce: [3; 12] },
        SLPMsgData::Chunk { from, id: u64::MAX, index: 65535, total: 1, payload: vec![2; 70] },
        SLPMsgData::NewGame { from, newseed: [8; 32] },
    ];
    for body in bodies {
        let msg = SLPMsg::new_signed(body, &SECRET);
        let mut bytes = msg.to_vec();
        let again = SLPMsg::from_bytes(&bytes).unwrap();
        assert_eq!(format!("{again:?}"), format!("{msg:?}"));
        bytes.extend_from_slice(&[1, 2, 3]);
        let again = SLPMsg::from_bytes(&bytes).unwrap();
        assert_eq!(format!("{again:?}"), format!("{msg:?}"));
        assert!(again.verify(&from));
    }
}

#[test]
fn malformed_messages_are_refused() {
    assert_eq!(SLPMsg::from_bytes(&[]).unwrap_err(), MsgError::Malformed);
    assert_eq!(SLPMsg::from_bytes(&[3, 0, 0, 0]).unwrap_err(), MsgError::Malformed);
    let good = SLPMsg::new_signed(SLPMsgData::Data { data: vec![1, 2], nonce: [0; 12] }, &SECRET);
    let bytes = good.to_vec();
    assert!(SLPMsg::from_bytes(&bytes[..bytes.len() - 1]).is_err());
    let mut long = bytes.clone();
    long[4] = 255;
    assert!(SLPMsg::from_bytes(&long).is_err());
}

fn invalid_identity() -> [u8; 32] {
    let mut id = [0u8; 32];
    for b in 0..=255u8 {
        id[0] = b;
        if iroh::EndpointId::from_bytes(&id).is_err() {
            return id;
        }
    }
    panic!("some bytes are no identity");
}

#[test]
fn named_senders_must_be_valid() {
    let from = invalid_identity();
    let bodies = vec![
        SLPMsgData::Chunk { from, id: 1, index: 0, total: 1, payload: vec![1] },
        SLPMsgData::NewGame { from, newseed: [0; 32] },
    ];
    for body in bodies {
        let bytes = SLPMsg::new_signed(body, &SECRET).to_vec();
        assert_eq!(SLPMsg::from_bytes(&bytes).unwrap_err(), MsgError::Malformed);
    }
}

#[test]
fn signatures_verify_only_for_their_signer_and_body() {
    let from = public(&SECRET);
    let msg = SLPMsg::new_signed(SLPMsgData::NewGame { from, newseed: [1; 32] }, &SECRET);
    assert_eq!(msg.signature.len(), 64);
    assert!(msg.verify(&from));
    assert!(!msg.verify(&public(&[8; 32])));
    assert!(!msg.verify(&invalid_identity()));
    let forged = SLPMsg {
        body: SLPMsgData::NewGame { from, newseed: [2; 32] },
        signature: msg.signature.clone(),
    };
    assert!(!forged.verify(&from));
    let short = SLPMsg {
        body: SLPMsgData::NewGame { from, newseed: [1; 32] },
        signature: msg.signature[..63].to_vec(),
    };
    assert!(!short.verify(&from));
}

#[test]
fn signature_is_that_of_the_key_over_the_body() {
    let from = public(&SECRET);
    let msg = SLPMsg::new_signed(SLPMsgData::NewGame { from, newseed: [1; 32] }, &SECRET);
    let body = msg.to_vec()[..68].to_vec();
    let expected = iroh::SecretKey::from_bytes(&SECRET).sign(&body).to_bytes();
    assert_eq!(msg.signature, expected.to_vec());
}

#[test]
fn payload_roundtrip_and_errors() {
    let from = public(&SECRET);
    let payload = MsgPayload { from, data: b"hello".to_vec() };
    let bytes = payload.to_vec();
    let mut expected = from.to_vec();
    expected.extend_from_slice(&[5, 0, 0, 0, 0, 0, 0, 0]);
    expected.extend_from_slice(b"hello");
    assert_eq!(bytes, expected);
    let again = MsgPayload::from_bytes(&bytes).unwrap();
    assert_eq!(again.from, from);
    assert_eq!(again.data, b"hello");
    assert_eq!(MsgPayload::from_bytes(&bytes[..40]).unwrap_err(), MsgError::Malformed);
    let mut bad = invalid_identity().to_vec();
    bad.extend_from_slice(&[0; 8]);
    assert_eq!(MsgPayload::from_bytes(&bad).unwrap_err(), MsgError::Malformed);
}

#[test]
fn received_message_keeps_its_parts() {
    let msg = Msg::new(vec![1, 2], [3; 32], 99);
    assert_eq!((msg.data, msg.from, msg.recvtime), (vec![1, 2], [3; 32], 99));
}
