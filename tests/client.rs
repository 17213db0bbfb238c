use seb_mul_game::client::{decode_server, parse_board, parse_input, to_wire, Field, InputError, ServerMsg};
use seb_mul_game::game::Command;
use seb_mul_game::geometry::Piece;
use seb_mul_game::protocol::{decode_command, encode_event, Event};

#[test]
fn state_round_trip_single_piece() {
    let line = encode_event(&Event::State { pieces: vec![Piece { owner: 0, x: 1000, y: 2000, radius: 500 }] });
    match decode_server(&line) {
        ServerMsg::State { pieces } => {
            assert_eq!(pieces.len(), 1);
            assert_eq!(pieces[0], Piece { owner: 0, x: 1000, y: 2000, radius: 500 });
        }
        other => panic!("unexpected {:?}", other),
    }
}

#[test]
fn state_round_trip_several_pieces() {
    let pieces = vec![
        Piece { owner: 1, x: -1500, y: 0, radius: 1 },
        Piece { owner: 0, x: i32::MIN, y: i32::MAX, radius: 2000 },
    ];
    let line = encode_event(&Event::State { pieces: pieces.clone() });
    match decode_server(&line) {
        ServerMsg::State { pieces: got } => assert_eq!(got, pieces),
        other => panic!("unexpected {:?}", other),
    }
}

#[test]
fn decode_server_keywords() {
    assert!(matches!(decode_server(b"WAITING\n"), ServerMsg::Waiting));
    assert!(matches!(decode_server(b"  YOUR_TURN "), ServerMsg::YourTurn));
    assert!(matches!(decode_server(b"OPPONENT_TURN"), ServerMsg::OpponentTurn));
    assert!(matches!(decode_server(b"OK"), ServerMsg::Accepted));
    assert!(matches!(decode_server(b"DISCONNECTED"), ServerMsg::Disconnected));
    assert!(matches!(decode_server(b"READY 1"), ServerMsg::Ready { player_id: 1 }));
    match decode_server(b"ERROR not your turn\n") {
        ServerMsg::Error { reason } => assert_eq!(reason, b"not your turn".to_vec()),
        other => panic!("unexpected {:?}", other),
    }
}

#[test]
fn decode_server_unknown() {
    match decode_server(b"READY x") {
        ServerMsg::Unknown { raw } => assert_eq!(raw, b"READY x".to_vec()),
        other => panic!("unexpected {:?}", other),
    }
    match decode_server(b"STATE 2 0 1 1 1") {
        ServerMsg::Unknown { raw } => assert_eq!(raw, b"STATE 2 0 1 1 1".to_vec()),
        other => panic!("unexpected {:?}", other),
    }
    assert!(matches!(decode_server(b"HELLO"), ServerMsg::Unknown { .. }));
}

#[test]
fn parse_board_values() {
    assert_eq!(parse_board(b"0"), Some(vec![]));
    assert_eq!(parse_board(b"0 "), Some(vec![]));
    assert_eq!(parse_board(b"1 1 0.5 -0.5 2"), Some(vec![Piece { owner: 1, x: 500, y: -500, radius: 2000 }]));
    assert_eq!(parse_board(b"1 1 0.5 -0.5"), None);
    assert_eq!(parse_board(b"1 256 0 0 1"), None);
    assert_eq!(parse_board(b""), None);
    assert_eq!(parse_board(b"99999999999999999999999 1 1 1 1"), None);
}

#[test]
fn typed_input_commands() {
    assert_eq!(parse_input(b"place 1 2 0.5"), Ok(Command::Place { x: 1000, y: 2000, radius: 500 }));
    assert_eq!(parse_input(b"ShOoT 2 1 1 3"), Ok(Command::Shoot { index: 2, dx: 1000, dy: 1000, force: 3000 }));
}

#[test]
fn typed_input_errors() {
    assert_eq!(parse_input(b"   "), Err(InputError::Empty));
    assert_eq!(parse_input(b"jump"), Err(InputError::UnknownCommand));
    assert_eq!(parse_input(b"place"), Err(InputError::Missing { field: Field::X }));
    assert_eq!(parse_input(b"place 1 y 2"), Err(InputError::NotANumber { field: Field::Y }));
    assert_eq!(parse_input(b"place 1 2"), Err(InputError::Missing { field: Field::Radius }));
    assert_eq!(parse_input(b"place 1 2 0"), Err(InputError::NonPositiveRadius));
    assert_eq!(parse_input(b"shoot"), Err(InputError::MissingIndex));
    assert_eq!(parse_input(b"shoot 1.5 1 1 1"), Err(InputError::BadIndex));
    assert_eq!(parse_input(b"shoot 1 1"), Err(InputError::Missing { field: Field::Dy }));
    assert_eq!(parse_input(b"shoot 1 a 1 1"), Err(InputError::NotANumber { field: Field::Dx }));
    assert_eq!(parse_input(b"shoot 1 1 1"), Err(InputError::Missing { field: Field::Force }));
    assert_eq!(parse_input(b"shoot 1 1 1 -2"), Err(InputError::NonPositiveForce));
}

#[test]
fn wire_form_of_commands() {
    let place = Command::Place { x: 1500, y: -2000, radius: 250 };
    assert_eq!(to_wire(&place), b"PLACE 1.5 -2 0.25\n".to_vec());
    assert_eq!(decode_command(&to_wire(&place)), Some(place));
    let shoot = Command::Shoot { index: 12, dx: 1, dy: 0, force: 9000 };
    assert_eq!(to_wire(&shoot), b"SHOOT 12 0.001 0 9\n".to_vec());
    assert_eq!(decode_command(&to_wire(&shoot)), Some(shoot));
}

#[test]
fn wire_form_uses_plain_decimals() {
    assert_eq!(to_wire(&Command::Place { x: 1500, y: -2000, radius: 500 }), b"PLACE 1.5 -2 0.5\n".to_vec());
    assert_eq!(to_wire(&Command::Shoot { index: 0, dx: 1000, dy: 0, force: 3000 }), b"SHOOT 0 1 0 3\n".to_vec());
    assert_eq!(to_wire(&Command::Place { x: -500, y: 10, radius: 120 }), b"PLACE -0.5 0.01 0.12\n".to_vec());
    let extreme = Command::Place { x: i32::MIN, y: i32::MAX, radius: 1 };
    assert_eq!(to_wire(&extreme), b"PLACE -2147483.648 2147483.647 0.001\n".to_vec());
    assert_eq!(decode_command(&to_wire(&extreme)), Some(extreme));
}
