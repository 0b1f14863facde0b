use base64::engine::general_purpose::STANDARD;
use base64::Engine;
use ssp::crypter::CrypterInput;
use ssp::dolphin::{
    encode_cursor, encode_ubjson_handshake, DolphinEvent, GameMeta, InputFrame, MessageOutcome,
    PlayerMeta, ReaderError, ReaderOutput, SLPEventType, SLPreader, CONNECT_REQUEST,
};

fn reader() -> SLPreader {
    SLPreader::new("127.0.0.1", 51441, 0x0102_0304)
}

fn sizes(entries: &[(u8, u16)]) -> Vec<u8> {
    let mut out = vec![0x35, (1 + 3 * entries.len()) as u8];
    for (command, len) in entries {
        out.push(*command);
        out.extend_from_slice(&len.to_be_bytes());
    }
    out
}

fn game_start(seed: u32, version: [u8; 3], stage: u8, teams: bool) -> Vec<u8> {
    let mut body = vec![0u8; 0x140];
    body[0..3].copy_from_slice(&version);
    body[0x13d - 1..0x140].copy_from_slice(&seed.to_be_bytes());
    body[0x0e - 1] = teams as u8;
    body[0x14 - 1] = stage;
    for i in 0..4usize {
        body[0x66 - 1 + 0x24 * i] = if i == 3 { 0 } else { 1 };
        body[0x68 - 1 + 0x24 * i] = i as u8;
        body[0x6e - 1 + 0x24 * i] = 10 + i as u8;
    }
    let mut out = vec![0x36];
    out.extend(body);
    out
}

fn post_frame(player: u8, character: u8) -> Vec<u8> {
    let mut out = vec![0x38, 0, 0, 0, 0];
    out.push(player);
    out.push(0);
    out.push(character);
    out
}

fn pre_frame(frame: i32, player: u8, fill: u8) -> Vec<u8> {
    let mut out = vec![0u8; 0x3c];
    out[0] = 0x37;
    out[1..5].copy_from_slice(&frame.to_be_bytes());
    out[5] = player;
    for b in out[0x19..0x3c].iter_mut() {
        *b = fill;
    }
    out
}

fn bookend(frame: i32, finalized: i32) -> Vec<u8> {
    let mut out = vec![0x3c];
    out.extend_from_slice(&frame.to_be_bytes());
    out.extend_from_slice(&finalized.to_be_bytes());
    out
}

const SIZES: [(u8, u16); 5] = [(0x36, 0x140), (0x37, 0x3b), (0x38, 7), (0x39, 1), (0x3c, 8)];

fn json_event(payload: &[u8]) -> Vec<u8> {
    format!("{{\"type\":\"game_event\",\"payload\":\"{}\"}}", STANDARD.encode(payload)).into_bytes()
}

fn outputs(result: Result<MessageOutcome, ReaderError>) -> Vec<ReaderOutput> {
    result.unwrap().outputs
}

#[test]
fn new_game_is_reported_on_the_second_post_frame() {
    let mut r = reader();
    assert!(outputs(r.handle_packet(b"{\"type\":\"start_game\"}")).is_empty());
    let mut payload = sizes(&[(0x36, 0x140), (0x38, 7)]);
    payload.extend(game_start(0x0102_0304, [3, 19, 0], 8, true));
    payload.extend(post_frame(0, 20));
    payload.extend(post_frame(0, 20));
    payload.push(0);
    let out = outputs(r.handle_packet(&json_event(&payload)));
    assert_eq!(out.len(), 2);
    let reset = match &out[0] {
        ReaderOutput::Crypter(CrypterInput::Reset(meta)) => meta.clone(),
        other => panic!("unexpected {other:?}"),
    };
    let meta = match &out[1] {
        ReaderOutput::Event(DolphinEvent::NewGame(meta)) => meta.clone(),
        other => panic!("unexpected {other:?}"),
    };
    assert_eq!(format!("{reset:?}"), format!("{meta:?}"));
    assert_eq!(meta.seed, 0x0102_0304);
    assert_eq!(meta.slp_version, [3, 19, 0]);
    assert_eq!(meta.stage, 8);
    assert!(meta.is_teams);
    assert_eq!(meta.players.len(), 1);
    let p = meta.players[0];
    assert_eq!((p.port, p.char, p.color, p.team, p.cpu), (1, 20, 0, 10, false));
}

#[test]
fn game_is_reported_once_until_the_next_start() {
    let mut r = reader();
    let mut payload = sizes(&SIZES);
    payload.extend(game_start(1, [0, 0, 0], 0, false));
    for _ in 0..4 {
        payload.extend(post_frame(1, 3));
    }
    assert_eq!(r.handle_payload(&payload).len(), 2);
    let mut again = game_start(2, [0, 0, 0], 0, false);
    again.extend(post_frame(3, 7));
    again.extend(post_frame(1, 3));
    again.extend(post_frame(3, 7));
    let out = r.handle_payload(&again);
    assert_eq!(out.len(), 2);
    match &out[1] {
        ReaderOutput::Event(DolphinEvent::NewGame(meta)) => {
            assert_eq!(meta.seed, 2);
            let ports: Vec<(u8, u8, bool)> =
                meta.players.iter().map(|p| (p.port, p.char, p.cpu)).collect();
            assert_eq!(ports, vec![(2, 3, false), (4, 7, true)]);
        }
        other => panic!("unexpected {other:?}"),
    }
}

#[test]
fn post_frames_of_unknown_players_are_ignored() {
    let mut r = reader();
    let mut payload = sizes(&SIZES);
    payload.extend(game_start(1, [0, 0, 0], 0, false));
    for player in [4u8, 5, 255] {
        payload.extend(post_frame(player, 3));
        payload.extend(post_frame(player, 3));
    }
    assert!(r.handle_payload(&payload).is_empty());
}

#[test]
fn inputs_of_a_frame_are_joined_at_its_end() {
    let mut r = reader();
    let mut payload = sizes(&SIZES);
    payload.extend(pre_frame(-123, 2, 0xbb));
    payload.extend(pre_frame(-123, 1, 0xaa));
    payload.extend(pre_frame(-123, 0, 0x11));
    payload.extend(pre_frame(-122, 3, 0xcc));
    payload.extend(bookend(-123, -125));
    payload.extend(bookend(-122, -124));
    payload.extend(bookend(-121, -124));
    let out = r.handle_payload(&payload);
    assert_eq!(out.len(), 2);
    match &out[0] {
        ReaderOutput::Crypter(CrypterInput::Frame(input)) => {
            assert_eq!((input.frame, input.last_finalized_frame), (-123, -125));
            let mut expected = vec![0xaa; 35];
            expected.extend(vec![0xbb; 35]);
            assert_eq!(input.data, expected);
        }
        other => panic!("unexpected {other:?}"),
    }
    match &out[1] {
        ReaderOutput::Crypter(CrypterInput::Frame(input)) => {
            assert_eq!(input.frame, -122);
            assert_eq!(input.data, vec![0xcc; 35]);
        }
        other => panic!("unexpected {other:?}"),
    }
}

#[test]
fn later_inputs_of_a_frame_replace_earlier_ones() {
    let mut r = reader();
    let mut payload = sizes(&SIZES);
    payload.extend(pre_frame(7, 1, 1));
    payload.extend(pre_frame(7, 1, 2));
    payload.extend(bookend(7, 5));
    let out = r.handle_payload(&payload);
    match &out[0] {
        ReaderOutput::Crypter(CrypterInput::Frame(input)) => assert_eq!(input.data, vec![2; 35]),
        other => panic!("unexpected {other:?}"),
    }
}

#[test]
fn end_of_a_game_forgets_inputs() {
    let mut r = reader();
    let mut payload = sizes(&SIZES);
    payload.extend(pre_frame(7, 1, 1));
    payload.extend([0x39, 0]);
    payload.extend(bookend(7, 5));
    assert!(r.handle_payload(&payload).is_empty());
    r.handle_payload(&pre_frame(8, 1, 1));
    assert!(outputs(r.handle_packet(b"{\"type\":\"START_GAME\"}")).is_empty());
    assert!(r.handle_payload(&bookend(8, 5)).is_empty());
}

#[test]
fn sizes_are_remembered_and_unknown_events_stop_the_stream() {
    let mut r = reader();
    assert!(r.handle_payload(&bookend(7, 5)).is_empty());
    r.handle_payload(&sizes(&SIZES));
    let mut payload = pre_frame(7, 1, 1);
    payload.push(0x99);
    payload.extend(bookend(7, 5));
    assert!(r.handle_payload(&payload).is_empty());
    assert_eq!(r.handle_payload(&bookend(7, 5)).len(), 1);
    r.reconnect();
    assert!(r.handle_payload(&bookend(7, 5)).is_empty());
}

#[test]
fn truncated_streams_stop() {
    let mut r = reader();
    r.handle_payload(&sizes(&SIZES));
    r.handle_payload(&pre_frame(7, 1, 1));
    let end = bookend(7, 5);
    assert!(r.handle_payload(&end[..8]).is_empty());
    assert!(r.handle_payload(&[0x35]).is_empty());
    assert!(r.handle_payload(&[0x35, 4, 0x3c, 0]).is_empty());
    assert!(r.handle_payload(&[0x35, 0, 1, 2]).is_empty());
    assert!(r.handle_payload(&[]).is_empty());
    assert_eq!(r.handle_payload(&end).len(), 1);
}

#[test]
fn short_game_start_tells_nothing() {
    let mut r = reader();
    let mut payload = sizes(&[(0x36, 0x80), (0x38, 7)]);
    payload.push(0x36);
    payload.extend(vec![1u8; 0x80]);
    payload.extend(post_frame(0, 1));
    payload.extend(post_frame(0, 1));
    let out = r.handle_payload(&payload);
    assert_eq!(out.len(), 2);
    match &out[1] {
        ReaderOutput::Event(DolphinEvent::NewGame(meta)) => {
            assert_eq!(meta.seed, 0);
            assert_eq!(meta.slp_version, [1, 1, 1]);
        }
        other => panic!("unexpected {other:?}"),
    }
    let mut payload = sizes(&[(0x36, 0x7f), (0x38, 7)]);
    payload.push(0x36);
    payload.extend(vec![1u8; 0x7f]);
    payload.extend(post_frame(0, 1));
    payload.extend(post_frame(0, 1));
    assert!(r.handle_payload(&payload).is_empty());
}

#[test]
fn short_pre_frames_are_refused() {
    let mut r = reader();
    r.handle_payload(&sizes(&[(0x37, 9)]));
    let payload = [0x37u8, 0, 0, 0, 1, 1, 2, 3, 4, 5];
    assert!(!r.payload_readable(&payload));
    let result = r.handle_packet(&json_event(&payload));
    assert_eq!(result.unwrap_err(), ReaderError::ShortPreFrame);
    r.handle_payload(&sizes(&[(0x37, 4)]));
    assert!(r.payload_readable(&payload[..5]));
    assert!(outputs(r.handle_packet(&json_event(&payload[..5]))).is_empty());
    let mut both = sizes(&[(0x37, 9)]);
    both.extend_from_slice(&payload);
    assert!(!r.payload_readable(&both));
}

#[test]
fn packets_that_say_nothing() {
    let mut r = reader();
    for packet in [
        &b""[..],
        b"not json",
        b"{}",
        b"{\"type\":5}",
        b"{\"type\":\"connect_reply\"}",
        b"{\"type\":\"game_event\"}",
        b"{\"type\":\"game_event\",\"payload\":\"***\"}",
        b"{\"type\":\"game_event\",\"payload\":\"\"}",
    ] {
        let outcome = r.handle_packet(packet).unwrap();
        assert!(outcome.outputs.is_empty());
        assert!(outcome.reply.is_none());
    }
}

#[test]
fn end_of_game_message_is_reported() {
    let mut r = reader();
    for packet in [&b"{\"type\":\"end_game\"}"[..], b"{\"type\":\"END_GAME\"}"] {
        let out = outputs(r.handle_packet(packet));
        assert_eq!(out.len(), 1);
        assert!(matches!(out[0], ReaderOutput::Event(DolphinEvent::GameEnd)));
    }
    let out = outputs(r.handle_message(&"end_game".to_string(), &None, None));
    assert_eq!(out.len(), 1);
}

#[test]
fn cursors_are_acknowledged() {
    let mut r = reader();
    let outcome = r.handle_packet(b"{\"type\":\"connect_reply\",\"next_cursor\":256}").unwrap();
    let body = [
        0x5b, 0x23, 0x55, 2, 0x55, 1, 0x5b, 0x23, 0x55, 3, 0x5b, 0x23, 0x55, 2, 0x55, 1, 0x55, 0,
        0x5b, 0x23, 0x55, 4, 0x55, 1, 0x55, 2, 0x55, 3, 0x55, 4, 0x46,
    ];
    let mut expected = vec![0, 0, 0, body.len() as u8];
    expected.extend_from_slice(&body);
    assert_eq!(outcome.reply.unwrap(), expected);
    assert!(outcome.outputs.is_empty());
    assert!(r.handle_packet(b"{\"next_cursor\":-1}").unwrap().reply.is_none());
    let realtime = encode_ubjson_handshake(&vec![0], 0, true);
    assert_eq!(*realtime.last().unwrap(), 0x54);
}

#[test]
fn cursors_have_no_leading_zeros() {
    assert_eq!(encode_cursor(0), vec![0]);
    assert_eq!(encode_cursor(255), vec![255]);
    assert_eq!(encode_cursor(256), vec![1, 0]);
    assert_eq!(encode_cursor(0x0102_0304), vec![1, 2, 3, 4]);
    assert_eq!(encode_cursor(u64::MAX), vec![255; 8]);
}

#[test]
fn event_types_by_command_byte() {
    assert_eq!(SLPEventType::from_byte(0x10), Some(SLPEventType::GeckoCodes));
    assert_eq!(SLPEventType::from_byte(0x35), Some(SLPEventType::Payloads));
    assert_eq!(SLPEventType::from_byte(0x36), Some(SLPEventType::GameStart));
    assert_eq!(SLPEventType::from_byte(0x37), Some(SLPEventType::PreFrame));
    assert_eq!(SLPEventType::from_byte(0x38), Some(SLPEventType::PostFrame));
    assert_eq!(SLPEventType::from_byte(0x39), Some(SLPEventType::GameEnd));
    assert_eq!(SLPEventType::from_byte(0x3a), Some(SLPEventType::FrameStart));
    assert_eq!(SLPEventType::from_byte(0x3b), Some(SLPEventType::ItemUpdate));
    assert_eq!(SLPEventType::from_byte(0x3c), Some(SLPEventType::FrameBookend));
    assert_eq!(SLPEventType::from_byte(0x3d), None);
}

#[test]
fn plain_values_of_the_reader() {
    let r = reader();
    assert_eq!((r.ip(), r.port()), ("127.0.0.1".to_string(), 51441));
    assert_eq!(CONNECT_REQUEST, r#"{"type":"connect_request","cursor":0}"#);
    let meta = GameMeta::new();
    assert_eq!((meta.stage, meta.is_teams, meta.seed), (255, false, 0));
    assert!(meta.players.is_empty());
    let p = PlayerMeta::new(1, 2, 3, 4, true);
    assert_eq!((p.port, p.char, p.color, p.team, p.cpu), (1, 2, 3, 4, true));
    let f = InputFrame::new(-1, -2, vec![3]);
    assert_eq!((f.frame, f.last_finalized_frame, f.data), (-1, -2, vec![3]));
}

#[test]
fn one_stream_reports_each_started_game_once() {
    let mut r = reader();
    let mut payload = sizes(&SIZES);
    for seed in [7, 8, 9] {
        payload.extend(game_start(seed, [3, 19, 0], 0, false));
        for _ in 0..5 {
            payload.extend(post_frame(0, 20));
            payload.extend(post_frame(1, 21));
        }
    }
    payload.push(0);
    let seeds: Vec<u32> = outputs(r.handle_packet(&json_event(&payload)))
        .iter()
        .filter_map(|o| match o {
            ReaderOutput::Event(DolphinEvent::NewGame(meta)) => Some(meta.seed),
            _ => None,
        })
        .collect();
    assert_eq!(seeds, vec![7, 8, 9]);
}
