use ssp::msg::{SLPMsg, SLPMsgData};
use ssp::packet::{packetize, ChunkAssembler};

const SECRET: [u8; 32] = [11u8; 32];

fn public(secret: &[u8; 32]) -> [u8; 32] {
    *iroh::SecretKey::from_bytes(secret).public().as_bytes()
}

fn data_message(len: usize, secret: &[u8; 32]) -> SLPMsg {
    let data: Vec<u8> = (0..len).map(|i| (i % 251) as u8).collect();
    SLPMsg::new_signed(SLPMsgData::Data { data, nonce: [4; 12] }, secret)
}

#[test]
fn short_message_is_one_packet() {
    let bytes = data_message(10, &SECRET).to_vec();
    let packets = packetize(&bytes, bytes.len(), &public(&SECRET), 1, &SECRET);
    assert_eq!(packets, vec![bytes]);
}

#[test]
fn empty_message_is_no_packet() {
    assert!(packetize(&Vec::new(), 100, &public(&SECRET), 1, &SECRET).is_empty());
}

#[test]
fn long_message_is_split_into_fitting_fragments() {
    let bytes = data_message(5000, &SECRET).to_vec();
    let packets = packetize(&bytes, 1512, &public(&SECRET), 1, &SECRET);
    assert_eq!(packets.len(), (bytes.len() + 999) / 1000);
    for (i, packet) in packets.iter().enumerate() {
        assert!(packet.len() <= 1512);
        let msg = SLPMsg::from_bytes(packet).unwrap();
        assert!(msg.verify(&public(&SECRET)));
        match msg.body {
            SLPMsgData::Chunk { from, id, index, total, payload } => {
                assert_eq!(from, public(&SECRET));
                assert_eq!(id, 1);
                assert_eq!(index as usize, i);
                assert_eq!(total as usize, packets.len());
                let end = (i * 1000 + 1000).min(bytes.len());
                assert_eq!(payload, bytes[i * 1000..end].to_vec());
                assert_eq!(packet.len(), payload.len() + 128);
            }
            _ => panic!("expected a fragment"),
        }
    }
}

#[test]
fn packets_too_small_for_a_fragment() {
    let bytes = data_message(300, &SECRET).to_vec();
    assert!(packetize(&bytes, 128, &public(&SECRET), 1, &SECRET).is_empty());
    assert!(packetize(&bytes, 0, &public(&SECRET), 1, &SECRET).is_empty());
    let packets = packetize(&bytes, 129, &public(&SECRET), 1, &SECRET);
    assert_eq!(packets.len(), bytes.len());
    assert!(packets.iter().all(|p| p.len() == 129));
}

#[test]
fn too_many_fragments() {
    let bytes = vec![0u8; 65536];
    assert!(packetize(&bytes, 512, &public(&SECRET), 1, &SECRET).is_empty());
}

#[test]
fn fragments_in_any_order_make_up_the_message() {
    let msg = data_message(4000, &SECRET);
    let bytes = msg.to_vec();
    let packets = packetize(&bytes, 1012, &public(&SECRET), 77, &SECRET);
    let n = packets.len();
    assert!(n > 5);
    let orders: Vec<Vec<usize>> = vec![
        (0..n).collect(),
        (0..n).rev().collect(),
        (0..n).map(|i| (i * 2 + 1) % n).collect::<Vec<_>>(),
    ];
    for order in orders {
        let mut sorted = order.clone();
        sorted.sort();
        sorted.dedup();
        if sorted.len() != n {
            continue;
        }
        let mut assembler = ChunkAssembler::new();
        for (k, i) in order.iter().enumerate() {
            let out = assembler.handle_content(&packets[*i]);
            if k + 1 < n {
                assert!(out.is_none());
            } else {
                assert_eq!(out.unwrap().to_vec(), bytes);
            }
        }
    }
}

#[test]
fn messages_of_several_senders_do_not_mix() {
    let other = [12u8; 32];
    let a = data_message(1500, &SECRET).to_vec();
    let b = data_message(1600, &other).to_vec();
    let pa = packetize(&a, 1512, &public(&SECRET), 5, &SECRET);
    let pb = packetize(&b, 1512, &public(&other), 5, &other);
    assert_eq!((pa.len(), pb.len()), (2, 2));
    let mut assembler = ChunkAssembler::new();
    assert!(assembler.handle_content(&pa[0]).is_none());
    assert!(assembler.handle_content(&pb[1]).is_none());
    assert!(assembler.handle_content(&pa[0]).is_none());
    assert_eq!(assembler.handle_content(&pb[0]).unwrap().to_vec(), b);
    assert_eq!(assembler.handle_content(&pa[1]).unwrap().to_vec(), a);
}

#[test]
fn reassembled_message_must_be_signed_by_the_sender() {
    let other = [12u8; 32];
    let stolen = data_message(1500, &other).to_vec();
    let packets = packetize(&stolen, 1512, &public(&SECRET), 5, &SECRET);
    let mut assembler = ChunkAssembler::new();
    assert!(assembler.handle_content(&packets[0]).is_none());
    assert!(assembler.handle_content(&packets[1]).is_none());
}

#[test]
fn unsigned_announcements_and_fragments_are_dropped() {
    let from = public(&SECRET);
    let mut assembler = ChunkAssembler::new();
    let good = SLPMsg::new_signed(SLPMsgData::NewGame { from, newseed: [1; 32] }, &SECRET);
    assert!(assembler.handle_content(&good.to_vec()).is_some());
    let forged = SLPMsg::new_signed(SLPMsgData::NewGame { from, newseed: [1; 32] }, &[12; 32]);
    assert!(assembler.handle_content(&forged.to_vec()).is_none());
    let chunk = SLPMsgData::Chunk { from, id: 1, index: 0, total: 1, payload: good.to_vec() };
    let forged = SLPMsg::new_signed(chunk.clone(), &[12; 32]);
    assert!(assembler.handle_content(&forged.to_vec()).is_none());
    let signed = SLPMsg::new_signed(chunk, &SECRET);
    assert_eq!(assembler.handle_content(&signed.to_vec()).unwrap().to_vec(), good.to_vec());
    assert!(assembler.handle_content(&[1, 2, 3]).is_none());
}

#[test]
fn data_is_handed_on_whoever_signed_it() {
    let mut assembler = ChunkAssembler::new();
    let msg = data_message(5, &SECRET);
    assert_eq!(assembler.handle_content(&msg.to_vec()).unwrap().to_vec(), msg.to_vec());
}

#[test]
fn first_fragment_decides_on_the_number() {
    let from = public(&SECRET);
    let inner = data_message(3, &SECRET).to_vec();
    let part = |index: u16, total: u16, payload: &[u8]| {
        SLPMsg::new_signed(
            SLPMsgData::Chunk { from, id: 9, index, total, payload: payload.to_vec() },
            &SECRET,
        )
        .to_vec()
    };
    let mut assembler = ChunkAssembler::new();
    assert!(assembler.handle_content(&part(0, 2, &inner[..10])).is_none());
    let out = assembler.handle_content(&part(1, 7, &inner[10..]));
    assert_eq!(out.unwrap().to_vec(), inner);
    assert!(assembler.handle_content(&part(0, 0, &inner)).is_none());
}

#[test]
fn repeated_fragments_do_no_harm() {
    let msg = data_message(4000, &SECRET);
    let bytes = msg.to_vec();
    let packets = packetize(&bytes, 1512, &public(&SECRET), 3, &SECRET);
    assert_eq!(packets.len(), 5);
    let mut assembler = ChunkAssembler::new();
    for i in [2, 2, 0, 4, 0, 1, 2, 4, 1] {
        assert!(assembler.handle_content(&packets[i]).is_none());
    }
    assert_eq!(assembler.handle_content(&packets[3]).unwrap().to_vec(), bytes);
    for i in [0, 1, 2, 4] {
        assert!(assembler.handle_content(&packets[i]).is_none());
    }
    assert_eq!(assembler.handle_content(&packets[3]).unwrap().to_vec(), bytes);
}

#[test]
fn pieces_of_any_length_make_up_the_message() {
    let bytes = data_message(500, &SECRET).to_vec();
    let cuts = [0, 1, 1, 100, 101, 400, bytes.len()];
    let packets: Vec<Vec<u8>> = (0..6u16)
        .map(|i| {
            let payload = bytes[cuts[i as usize]..cuts[i as usize + 1]].to_vec();
            let from = public(&SECRET);
            let body = SLPMsgData::Chunk { from, id: 8, index: i, total: 6, payload };
            SLPMsg::new_signed(body, &SECRET).to_vec()
        })
        .collect();
    let mut assembler = ChunkAssembler::new();
    for i in [5, 0, 3, 3, 1, 4] {
        assert!(assembler.handle_content(&packets[i]).is_none());
    }
    assert_eq!(assembler.handle_content(&packets[2]).unwrap().to_vec(), bytes);
}
