use ssp::crypter::{CrypterInput, CrypterUpdate, SLPcrypter, SLPcryptoSponge};
use ssp::dolphin::{GameMeta, InputFrame};

fn game(seed: u32) -> GameMeta {
    let mut meta = GameMeta::new();
    meta.seed = seed;
    meta
}

fn frame(f: i64, finalized: i64, data: &[u8]) -> InputFrame {
    InputFrame::new(f, finalized, data.to_vec())
}

fn hex(key: &[u8; 32]) -> String {
    hex::encode(key)
}

fn keys(updates: &[CrypterUpdate]) -> Vec<(u64, String)> {
    updates
        .iter()
        .filter_map(|u| match u {
            CrypterUpdate::Key(k) => Some((k.frames, hex(&k.key))),
            CrypterUpdate::Rotate => None,
        })
        .collect()
}

const SEED_KEY: &str = "dca3f2c2cc519c5ad15922bfcc258b84f7f5c8536244e02aa3a5ef585a31b84e";
const SEED_ABC_KEY: &str = "2d8078118cfa8b61bef98157b1357f0f14de63cbe6cb42f862d2f654fa4b80a8";

#[test]
fn first_key_comes_from_the_seed() {
    let mut crypter = SLPcrypter::new(120, 60);
    assert!(crypter.derive_current_key().is_none());
    let out = crypter.reset(game(0x0102_0304));
    assert_eq!(keys(&out), vec![(0, SEED_KEY.to_string())]);
    assert_eq!(out.len(), 1);
    assert_eq!(hex(&crypter.derive_current_key().unwrap().key), SEED_KEY);
    let sponge = SLPcryptoSponge::new([1, 2, 3, 4]);
    assert_eq!(sponge.frames, 0);
}

#[test]
fn nothing_happens_without_a_game() {
    let mut crypter = SLPcrypter::new(0, 0);
    assert!(crypter.handle_frame(frame(1, 1, b"ab")).is_empty());
    assert!(crypter.derive_current_key().is_none());
}

#[test]
fn keys_come_every_rollover_and_rotate_after_the_offset() {
    let mut crypter = SLPcrypter::new(2, 1);
    crypter.reset(game(0x0102_0304));
    assert!(crypter.handle_frame(frame(1, 1, b"ab")).is_empty());
    let out = crypter.handle_frame(frame(2, 2, b"c"));
    assert_eq!(keys(&out), vec![(2, SEED_ABC_KEY.to_string())]);
    assert_eq!(out.len(), 1);
    let out = crypter.handle_frame(frame(3, 3, b"d"));
    assert_eq!(out.len(), 1);
    assert!(matches!(out[0], CrypterUpdate::Rotate));
    let out = crypter.handle_frame(frame(4, 4, b"e"));
    assert!(matches!(&out[0], CrypterUpdate::Key(k) if k.frames == 4));
}

#[test]
fn only_finalized_frames_count_and_rollbacks_replace() {
    let mut a = SLPcrypter::new(2, 1);
    let mut b = SLPcrypter::new(2, 1);
    a.reset(game(0x0102_0304));
    b.reset(game(0x0102_0304));
    a.handle_frame(frame(1, 1, b"ab"));
    b.handle_frame(frame(1, 1, b"ab"));
    assert!(b.handle_frame(frame(2, 1, b"wrong")).is_empty());
    assert!(b.handle_frame(frame(2, 1, b"c")).is_empty());
    let from_a = a.handle_frame(frame(2, 2, b"c"));
    let from_b = b.handle_frame(frame(3, 2, b"later"));
    assert_eq!(keys(&from_a), keys(&from_b));
    assert_eq!(keys(&from_a), vec![(2, SEED_ABC_KEY.to_string())]);
}

#[test]
fn finalizing_at_once_or_one_by_one() {
    let mut a = SLPcrypter::new(2, 1);
    let mut b = SLPcrypter::new(2, 1);
    a.reset(game(9));
    b.reset(game(9));
    let mut out_a = Vec::new();
    let mut out_b = Vec::new();
    out_a.extend(a.handle_frame(frame(0, 0, b"0")));
    out_b.extend(b.handle_frame(frame(0, 0, b"0")));
    for f in 1..=6i64 {
        out_a.extend(a.handle_frame(frame(f, f, &[f as u8])));
    }
    for f in 1..=5i64 {
        out_b.extend(b.handle_frame(frame(f, 0, &[f as u8])));
    }
    out_b.extend(b.handle_frame(frame(6, 6, &[6])));
    assert_eq!(format!("{out_a:?}"), format!("{out_b:?}"));
    assert!(out_a.len() > 4);
}

#[test]
fn frames_without_inputs_are_skipped() {
    let mut crypter = SLPcrypter::new(1, 0);
    crypter.reset(game(1));
    let out = crypter.handle_frame(frame(5, 3, b"x"));
    assert!(out.is_empty());
    let out = crypter.handle_frame(frame(6, 6, b"y"));
    assert_eq!(out.iter().filter(|u| matches!(u, CrypterUpdate::Key(_))).count(), 2);
    assert_eq!(out.iter().filter(|u| matches!(u, CrypterUpdate::Rotate)).count(), 2);
    assert!(crypter.handle_frame(frame(2, 2, b"z")).is_empty());
}

#[test]
fn reconfiguring_changes_the_rollover() {
    let mut crypter = SLPcrypter::new(100, 1);
    crypter.reset(game(1));
    assert!(crypter.handle_frame(frame(1, 1, b"x")).is_empty());
    crypter.reconfigure(2, 5);
    assert!(crypter.has_room());
    let out = crypter.handle_input(CrypterInput::Frame(frame(2, 2, b"y")));
    assert_eq!(out.len(), 1);
    let out = crypter.handle_input(CrypterInput::Reset(game(0x0102_0304)));
    assert_eq!(keys(&out), vec![(0, SEED_KEY.to_string())]);
}

#[test]
fn huge_intervals_never_make_a_key() {
    let mut crypter = SLPcrypter::new(u64::MAX, u64::MAX);
    crypter.reset(game(1));
    for f in 1..=50i64 {
        assert!(crypter.handle_frame(frame(f, f, b"x")).is_empty());
    }
}

fn all_updates(calls: &[(i64, i64, &[u8])]) -> Vec<Option<(u64, String)>> {
    let mut crypter = SLPcrypter::new(2, 1);
    let mut out = crypter.reset(game(5));
    for (f, finalized, data) in calls {
        out.extend(crypter.handle_frame(frame(*f, *finalized, data)));
    }
    out.iter()
        .map(|u| match u {
            CrypterUpdate::Key(k) => Some((k.frames, hex(&k.key))),
            CrypterUpdate::Rotate => None,
        })
        .collect()
}

#[test]
fn same_game_same_keys_however_it_is_reported() {
    let plain = all_updates(&[
        (1, 1, b"a"),
        (2, 2, b"b"),
        (3, 3, b"c"),
        (4, 4, b"d"),
        (5, 5, b"e"),
    ]);
    let rolled_back = all_updates(&[
        (1, 1, b"a"),
        (3, 1, b"?"),
        (2, 1, b"!"),
        (1, 1, b"too late"),
        (2, 1, b"b"),
        (4, 1, b"d"),
        (3, 3, b"c"),
        (3, 2, b"too late"),
        (5, 5, b"e"),
        (9, 4, b"never final"),
    ]);
    assert_eq!(plain, rolled_back);
    assert_eq!(plain.len(), 5);
    let other = all_updates(&[
        (1, 1, b"a"),
        (2, 2, b"x"),
        (3, 3, b"c"),
        (4, 4, b"d"),
        (5, 5, b"e"),
    ]);
    assert_ne!(plain, other);
}
