use seb_mul_game::game::{Command, GameState};
use seb_mul_game::geometry::{Piece, Rejection};
use seb_mul_game::protocol::{decode_command, encode_event, encode_state, Event};
use seb_mul_game::text::{parse_fixed, split_words};

fn text(v: Vec<u8>) -> String {
    String::from_utf8(v).unwrap()
}

#[test]
fn decode_place_and_shoot() {
    assert_eq!(decode_command(b"PLACE 1.5 -2 0.25"), Some(Command::Place { x: 1500, y: -2000, radius: 250 }));
    assert_eq!(
        decode_command(b"  SHOOT 3\t1 0 .5  extra"),
        Some(Command::Shoot { index: 3, dx: 1000, dy: 0, force: 500 })
    );
}

#[test]
fn decode_rejects_unknown_or_malformed() {
    assert_eq!(decode_command(b""), None);
    assert_eq!(decode_command(b"   "), None);
    assert_eq!(decode_command(b"place 1 2 3"), None);
    assert_eq!(decode_command(b"JUMP 1 2 3"), None);
    assert_eq!(decode_command(b"PLACE 1 2"), None);
    assert_eq!(decode_command(b"PLACE 1 x 2"), None);
    assert_eq!(decode_command(b"SHOOT -1 1 0 1"), None);
    assert_eq!(decode_command(b"SHOOT 0 1 0"), None);
}

#[test]
fn fixed_point_parsing() {
    assert_eq!(parse_fixed(b"0"), Some(0));
    assert_eq!(parse_fixed(b"1.0"), Some(1000));
    assert_eq!(parse_fixed(b"+2.5"), Some(2500));
    assert_eq!(parse_fixed(b"-0.001"), Some(-1));
    assert_eq!(parse_fixed(b"3."), Some(3000));
    assert_eq!(parse_fixed(b".75"), Some(750));
    assert_eq!(parse_fixed(b"1.23456"), Some(1234));
    assert_eq!(parse_fixed(b"2147483.647"), Some(i32::MAX));
    assert_eq!(parse_fixed(b"-2147483.648"), Some(i32::MIN));
    assert_eq!(parse_fixed(b"2147483.648"), None);
    assert_eq!(parse_fixed(b"99999999999999999999"), None);
    assert_eq!(parse_fixed(b"."), None);
    assert_eq!(parse_fixed(b""), None);
    assert_eq!(parse_fixed(b"-"), None);
    assert_eq!(parse_fixed(b"1e3"), None);
    assert_eq!(parse_fixed(b"1.2.3"), None);
    assert_eq!(parse_fixed(b"NaN"), None);
}

#[test]
fn split_words_drops_whitespace() {
    assert_eq!(split_words(b" a  bc\td\n"), vec![b"a".to_vec(), b"bc".to_vec(), b"d".to_vec()]);
    assert!(split_words(b" \t ").is_empty());
}

#[test]
fn encode_simple_events() {
    assert_eq!(text(encode_event(&Event::Waiting)), "WAITING\n");
    assert_eq!(text(encode_event(&Event::Ready { player_id: 1 })), "READY 1\n");
    assert_eq!(text(encode_event(&Event::YourTurn)), "YOUR_TURN\n");
    assert_eq!(text(encode_event(&Event::OpponentTurn)), "OPPONENT_TURN\n");
    assert_eq!(text(encode_event(&Event::Accepted)), "OK\n");
    assert_eq!(text(encode_event(&Event::Disconnected)), "DISCONNECTED\n");
}

#[test]
fn encode_each_rejection() {
    let cases = [
        (Rejection::NotYourTurn, "ERROR not your turn\n"),
        (Rejection::NonPositiveRadius, "ERROR radius must be positive\n"),
        (Rejection::Overlap, "ERROR overlaps an existing piece\n"),
        (Rejection::ZeroDirection, "ERROR direction vector must be non-zero\n"),
        (Rejection::IndexOutOfRange, "ERROR piece index out of range\n"),
        (Rejection::NotOwner, "ERROR that piece does not belong to you\n"),
    ];
    for (reason, line) in cases {
        assert_eq!(text(encode_event(&Event::Error { reason })), line);
    }
}

#[test]
fn encode_state_lines() {
    assert_eq!(text(encode_state(&Vec::new())), "STATE 0\n");
    let pieces = vec![
        Piece { owner: 0, x: 1000, y: 2000, radius: 500 },
        Piece { owner: 1, x: -1500, y: -7, radius: 12345678 },
    ];
    assert_eq!(
        text(encode_event(&Event::State { pieces })),
        "STATE 2 0 1.000 2.000 0.500 1 -1.500 -0.007 12345.678\n"
    );
}

#[test]
fn state_line_word_count_after_play() {
    let mut g = GameState::new();
    assert_eq!(g.place(0, 0, 0, 1000), Ok(()));
    assert_eq!(g.place(1, 5000, 0, 1000), Ok(()));
    assert_eq!(g.place(0, 5000, 0, 1000), Err(Rejection::Overlap));
    assert_eq!(g.shoot(0, 0, 0, 1000, 2000), Ok(()));
    let line = text(encode_state(&g.render_state()));
    assert!(line.ends_with('\n'));
    assert_eq!(line.matches('\n').count(), 1);
    let ws: Vec<&str> = line.split_whitespace().collect();
    assert_eq!(ws[0], "STATE");
    assert_eq!(ws[1], "2");
    assert_eq!(ws.len(), 2 + 4 * 2);
}
