use seb_mul_game::game::{Command, GameState};
use seb_mul_game::geometry::{apply_shoot, integer_sqrt, validate_placement, Piece, Rejection};

fn piece(owner: u8, x: i32, y: i32, radius: i32) -> Piece {
    Piece { owner, x, y, radius }
}

#[test]
fn two_placements_then_overlap() {
    let mut g = GameState::new();
    assert_eq!(g.place(0, 0, 0, 1000), Ok(()));
    assert_eq!(g.place(1, 3000, 0, 1000), Ok(()));
    assert_eq!(g.place(0, 3000, 0, 1000), Err(Rejection::Overlap));
    assert_eq!(g.render_state().len(), 2);
    assert_eq!(g.turn(), 0);
}

#[test]
fn touching_pieces_are_accepted() {
    let mut g = GameState::new();
    assert_eq!(g.place(0, 0, 0, 1000), Ok(()));
    assert_eq!(g.place(1, 2000, 0, 1000), Ok(()));
    assert_eq!(g.place(0, 1999, 0, 1000), Err(Rejection::Overlap));
    assert_eq!(g.place(0, 0, 5000, 4000), Ok(()));
}

#[test]
fn turn_alternates_over_accepted_moves() {
    let mut g = GameState::new();
    assert_eq!(g.turn(), 0);
    assert_eq!(g.place(1, 0, 0, 500), Err(Rejection::NotYourTurn));
    assert_eq!(g.turn(), 0);
    assert_eq!(g.place(0, 0, 0, 500), Ok(()));
    assert_eq!(g.turn(), 1);
    assert_eq!(g.place(1, 0, 0, 0), Err(Rejection::NonPositiveRadius));
    assert_eq!(g.turn(), 1);
    assert_eq!(g.place(1, 5000, 0, 500), Ok(()));
    assert_eq!(g.turn(), 0);
    assert_eq!(g.shoot(0, 0, 1000, 0, 1000), Ok(()));
    assert_eq!(g.turn(), 1);
}

#[test]
fn zero_direction_is_refused_whatever_the_force() {
    let mut g = GameState::new();
    assert_eq!(g.place(0, 0, 0, 500), Ok(()));
    assert_eq!(g.place(1, 5000, 0, 500), Ok(()));
    for force in [0, 1, -1000, 1000, i32::MAX, i32::MIN] {
        assert_eq!(g.shoot(0, 0, 0, 0, force), Err(Rejection::ZeroDirection));
        assert_eq!(g.shoot(0, 7, 0, 0, force), Err(Rejection::ZeroDirection));
    }
    assert_eq!(g.turn(), 0);
}

#[test]
fn shoot_rejections() {
    let mut g = GameState::new();
    assert_eq!(g.place(0, 0, 0, 500), Ok(()));
    assert_eq!(g.place(1, 5000, 0, 500), Ok(()));
    assert_eq!(g.shoot(1, 0, 1000, 0, 1000), Err(Rejection::NotYourTurn));
    assert_eq!(g.shoot(0, 2, 1000, 0, 1000), Err(Rejection::IndexOutOfRange));
    assert_eq!(g.shoot(0, 1, 1000, 0, 1000), Err(Rejection::NotOwner));
    assert_eq!(g.render_state()[0], piece(0, 0, 0, 500));
}

#[test]
fn shoot_moves_piece_along_normalised_direction() {
    let mut g = GameState::new();
    assert_eq!(g.place(0, 1000, 2000, 500), Ok(()));
    assert_eq!(g.place(1, 9000, 9000, 500), Ok(()));
    // direction (3, 4) has length 5; force 10 moves by (6, 8)
    assert_eq!(g.shoot(0, 0, 3000, 4000, 10000), Ok(()));
    let ps = g.render_state();
    assert_eq!(ps.len(), 2);
    assert_eq!(ps[0], piece(0, 7000, 10000, 500));
    assert_eq!(ps[1], piece(1, 9000, 9000, 500));
}

#[test]
fn shoot_may_leave_pieces_overlapping() {
    let mut g = GameState::new();
    assert_eq!(g.place(0, 0, 0, 1000), Ok(()));
    assert_eq!(g.place(1, 5000, 0, 1000), Ok(()));
    assert_eq!(g.shoot(0, 0, 1000, 0, 4000), Ok(()));
    assert_eq!(g.render_state()[0], piece(0, 4000, 0, 1000));
}

#[test]
fn shoot_never_changes_piece_count() {
    let mut g = GameState::new();
    assert_eq!(g.place(0, 0, 0, 100), Ok(()));
    assert_eq!(g.place(1, 1000, 0, 100), Ok(()));
    assert_eq!(g.shoot(0, 0, 0, 1000, 500), Ok(()));
    assert_eq!(g.shoot(1, 1, -1000, 0, 500), Ok(()));
    assert_eq!(g.render_state().len(), 2);
}

#[test]
fn apply_dispatches_commands() {
    let mut g = GameState::new();
    assert_eq!(g.apply(0, Command::Place { x: 0, y: 0, radius: 1000 }), Ok(()));
    assert_eq!(g.apply(1, Command::Shoot { index: 0, dx: 1000, dy: 0, force: 1000 }), Err(Rejection::NotOwner));
    assert_eq!(g.apply(1, Command::Place { x: 0, y: 0, radius: -5 }), Err(Rejection::NonPositiveRadius));
}

#[test]
fn validate_placement_on_empty_board() {
    let pieces: Vec<Piece> = Vec::new();
    assert_eq!(validate_placement(&pieces, 0, 0, 1), Ok(()));
    assert_eq!(validate_placement(&pieces, 0, 0, 0), Err(Rejection::NonPositiveRadius));
    assert_eq!(validate_placement(&pieces, 0, 0, -3), Err(Rejection::NonPositiveRadius));
}

#[test]
fn validate_placement_at_extreme_coordinates() {
    let pieces = vec![piece(0, i32::MIN, i32::MIN, i32::MAX)];
    assert_eq!(validate_placement(&pieces, i32::MAX, i32::MAX, i32::MAX), Ok(()));
    assert_eq!(validate_placement(&pieces, i32::MIN + 1000, i32::MIN + 1000, 1), Err(Rejection::Overlap));
}

#[test]
fn integer_sqrt_values() {
    assert_eq!(integer_sqrt(0), 0);
    assert_eq!(integer_sqrt(1), 1);
    assert_eq!(integer_sqrt(24), 4);
    assert_eq!(integer_sqrt(25), 5);
    assert_eq!(integer_sqrt(2_000_000), 1414);
    assert_eq!(integer_sqrt((1u128 << 84) - 1), (1u128 << 42) - 1);
    assert_eq!(integer_sqrt(u128::MAX), u64::MAX as u128);
}

#[test]
fn apply_shoot_values() {
    let p = piece(0, 0, 0, 1000);
    assert_eq!(apply_shoot(&p, 0, 0, 5), Err(Rejection::ZeroDirection));
    assert_eq!(apply_shoot(&p, 1, 1, 1000), Ok((707, 707)));
    assert_eq!(apply_shoot(&p, -2000, 0, 1500), Ok((-1500, 0)));
    assert_eq!(apply_shoot(&p, 0, 5, -1000), Ok((0, -1000)));
    let far = piece(0, i32::MAX - 10, i32::MIN + 10, 1000);
    assert_eq!(apply_shoot(&far, 1000, -1000, 1_000_000), Ok((i32::MAX, i32::MIN)));
}
