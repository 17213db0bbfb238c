use vstd::prelude::*;
use crate::geometry::{
    Piece,
    Rejection,
    placement_check,
    shot_check,
    overlaps,
    validate_placement,
    apply_shoot,
};

verus! {

/// A client's intent, decoded from one line.
#[derive(Debug, Clone, Copy, PartialEq, Eq, Structural)]
pub enum Command {
    Place { x: i32, y: i32, radius: i32 },
    Shoot { index: usize, dx: i32, dy: i32, force: i32 },
}

/// The abstract board: pieces in spawn order and whose turn it is.
pub struct GameModel {
    pub pieces: Seq<Piece>,
    pub turn: u8,
}

/// Outcome of `owner` placing a circle in `m`.
pub open spec fn place_spec(m: GameModel, owner: u8, x: int, y: int, radius: int) -> Result<
    GameModel,
    Rejection,
> {
    if owner != m.turn {
        Err(Rejection::NotYourTurn)
    } else {
        match placement_check(m.pieces, x, y, radius) {
            Err(e) => Err(e),
            Ok(_) => Ok(
                GameModel {
                    pieces: m.pieces.push(Piece { owner, x: x as i32, y: y as i32, radius: radius as i32 }),
                    turn: (1 - m.turn) as u8,
                },
            ),
        }
    }
}

/// Outcome of `owner` shooting the piece at `index` in `m`.
pub open spec fn shoot_spec(m: GameModel, owner: u8, index: int, dx: int, dy: int, force: int) -> Result<
    GameModel,
    Rejection,
> {
    if owner != m.turn {
        Err(Rejection::NotYourTurn)
    } else if dx == 0 && dy == 0 {
        Err(Rejection::ZeroDirection)
    } else if index < 0 || index >= m.pieces.len() {
        Err(Rejection::IndexOutOfRange)
    } else if m.pieces[index].owner != owner {
        Err(Rejection::NotOwner)
    } else {
        match shot_check(m.pieces[index], dx, dy, force) {
            Err(e) => Err(e),
            Ok((nx, ny)) => Ok(
                GameModel {
                    pieces: m.pieces.update(
                        index,
                        Piece { x: nx as i32, y: ny as i32, ..m.pieces[index] },
                    ),
                    turn: (1 - m.turn) as u8,
                },
            ),
        }
    }
}

/// Outcome of `player` issuing `cmd` in `m`.
pub open spec fn command_spec(m: GameModel, player: u8, cmd: Command) -> Result<GameModel, Rejection> {
    match cmd {
        Command::Place { x, y, radius } => place_spec(m, player, x as int, y as int, radius as int),
        Command::Shoot { index, dx, dy, force } => shoot_spec(
            m,
            player,
            index as int,
            dx as int,
            dy as int,
            force as int,
        ),
    }
}

/// A board reached by play: the turn is a player slot, every piece belongs
/// to a player and has a positive radius.
pub open spec fn model_wf(m: GameModel) -> bool {
    &&& m.turn <= 1
    &&& forall|i: int| 0 <= i < m.pieces.len() ==> (#[trigger] m.pieces[i]).owner <= 1 && m.pieces[i].radius > 0
}

/// The board at the start of a game.
pub open spec fn initial_model() -> GameModel {
    GameModel { pieces: Seq::empty(), turn: 0 }
}

/// The board after `moves`, each a player and the command they issued,
/// played from the start of a game; a rejected move changes nothing.
pub open spec fn play(moves: Seq<(u8, Command)>) -> GameModel
    decreases moves.len(),
{
    if moves.len() == 0 {
        initial_model()
    } else {
        let m = play(moves.drop_last());
        match command_spec(m, moves.last().0, moves.last().1) {
            Ok(m2) => m2,
            Err(_) => m,
        }
    }
}

/// How many of `moves` were accepted.
pub open spec fn accepted_count(moves: Seq<(u8, Command)>) -> nat
    decreases moves.len(),
{
    if moves.len() == 0 {
        0
    } else {
        let m = play(moves.drop_last());
        accepted_count(moves.drop_last()) + if command_spec(m, moves.last().0, moves.last().1) is Ok {
            1nat
        } else {
            0nat
        }
    }
}

/// How many of `moves` were accepted placements.
pub open spec fn placed_count(moves: Seq<(u8, Command)>) -> nat
    decreases moves.len(),
{
    if moves.len() == 0 {
        0
    } else {
        let m = play(moves.drop_last());
        placed_count(moves.drop_last()) + if moves.last().1 is Place && command_spec(
            m,
            moves.last().0,
            moves.last().1,
        ) is Ok {
            1nat
        } else {
            0nat
        }
    }
}

/// Every accepted move, placement or shot, hands the turn to the other
/// player.
pub proof fn lemma_accepted_move_flips_turn(m: GameModel, player: u8, cmd: Command)
    requires
        model_wf(m),
    ensures
        command_spec(m, player, cmd) is Ok ==> command_spec(m, player, cmd)->Ok_0.turn == 1 - m.turn,
        command_spec(m, player, cmd) is Ok ==> model_wf(command_spec(m, player, cmd)->Ok_0),
{
    match cmd {
        Command::Place { x, y, radius } => {
            if let Ok(m2) = command_spec(m, player, cmd) {
                assert forall|i: int| 0 <= i < m2.pieces.len() implies (#[trigger] m2.pieces[i]).owner <= 1
                    && m2.pieces[i].radius > 0 by {
                    if i < m.pieces.len() {
                        assert(m2.pieces[i] == m.pieces[i]);
                    }
                }
            }
        },
        Command::Shoot { index, dx, dy, force } => {
            if let Ok(m2) = command_spec(m, player, cmd) {
                assert forall|i: int| 0 <= i < m2.pieces.len() implies (#[trigger] m2.pieces[i]).owner <= 1
                    && m2.pieces[i].radius > 0 by {
                    if i != index {
                        assert(m2.pieces[i] == m.pieces[i]);
                    }
                }
            }
        },
    }
}

/// Over any sequence of moves from the start of a game, the turn strictly
/// alternates: it is 0 after an even number of accepted moves and 1 after an
/// odd number, and a rejected move leaves it where it was.
pub proof fn lemma_turn_alternates(moves: Seq<(u8, Command)>)
    ensures
        play(moves).turn == accepted_count(moves) % 2,
        model_wf(play(moves)),
    decreases moves.len(),
{
    if moves.len() > 0 {
        lemma_turn_alternates(moves.drop_last());
        lemma_accepted_move_flips_turn(play(moves.drop_last()), moves.last().0, moves.last().1);
    }
}

/// Over any sequence of moves from the start of a game, the board holds
/// exactly one piece per accepted placement: shots never change the count.
pub proof fn lemma_piece_count(moves: Seq<(u8, Command)>)
    ensures
        play(moves).pieces.len() == placed_count(moves),
    decreases moves.len(),
{
    if moves.len() > 0 {
        lemma_piece_count(moves.drop_last());
    }
}

/// An accepted shot keeps the number of pieces.
pub proof fn lemma_shoot_keeps_count(m: GameModel, owner: u8, index: int, dx: int, dy: int, force: int)
    ensures
        shoot_spec(m, owner, index, dx, dy, force) is Ok ==> shoot_spec(
            m,
            owner,
            index,
            dx,
            dy,
            force,
        )->Ok_0.pieces.len() == m.pieces.len(),
{
}

/// A placement by the player to move, with a positive radius, is refused
/// as overlapping exactly when some existing piece's center lies strictly
/// closer than the sum of the two radii; touching pieces are accepted.
pub proof fn lemma_overlap_iff(m: GameModel, owner: u8, x: int, y: int, radius: int)
    requires
        owner == m.turn,
        radius > 0,
    ensures
        place_spec(m, owner, x, y, radius) == Err::<GameModel, Rejection>(Rejection::Overlap) <==> exists|
            i: int,
        |
            0 <= i < m.pieces.len() && crate::geometry::sq(m.pieces[i].x - x) + crate::geometry::sq(
                m.pieces[i].y - y,
            ) < crate::geometry::sq(#[trigger] m.pieces[i].radius + radius),
{
    if exists|i: int|
        0 <= i < m.pieces.len() && crate::geometry::sq(m.pieces[i].x - x) + crate::geometry::sq(
            m.pieces[i].y - y,
        ) < crate::geometry::sq(#[trigger] m.pieces[i].radius + radius) {
        let i = choose|i: int|
            0 <= i < m.pieces.len() && crate::geometry::sq(m.pieces[i].x - x) + crate::geometry::sq(
                m.pieces[i].y - y,
            ) < crate::geometry::sq(#[trigger] m.pieces[i].radius + radius);
        assert(overlaps(m.pieces[i], x, y, radius));
    }
}

/// A shot with a zero direction by the player to move is always refused
/// with `ZeroDirection`, whatever the piece and the force.
pub proof fn lemma_zero_direction(m: GameModel, owner: u8, index: int, force: int)
    requires
        owner == m.turn,
    ensures
        shoot_spec(m, owner, index, 0, 0, force) == Err::<GameModel, Rejection>(Rejection::ZeroDirection),
{
}

/// Authoritative state of one game.
pub struct GameState {
    pieces: Vec<Piece>,
    turn: u8,
}

impl View for GameState {
    type V = GameModel;

    closed spec fn view(&self) -> GameModel {
        GameModel { pieces: self.pieces@, turn: self.turn }
    }
}

impl GameState {
    pub open spec fn wf(&self) -> bool {
        model_wf(self@)
    }

    pub fn new() -> (r: Self)
        ensures
            r@ == initial_model(),
            r.wf(),
    {
        GameState { pieces: Vec::new(), turn: 0 }
    }

    /// Whose turn it is: 0 or 1.
    pub fn turn(&self) -> (r: u8)
        ensures
            r == self@.turn,
    {
        self.turn
    }

    /// Places a piece for `owner`; on success the turn passes to the other
    /// player. A rejected placement changes nothing.
    pub fn place(&mut self, owner: u8, x: i32, y: i32, radius: i32) -> (r: Result<(), Rejection>)
        requires
            old(self).wf(),
        ensures
            final(self).wf(),
            match r {
                Ok(_) => place_spec(old(self)@, owner, x as int, y as int, radius as int) == Ok::<
                    GameModel,
                    Rejection,
                >(final(self)@),
                Err(e) => place_spec(old(self)@, owner, x as int, y as int, radius as int)
                    == Err::<GameModel, Rejection>(e) && final(self)@ == old(self)@,
            },
    {
        if owner != self.turn {
            return Err(Rejection::NotYourTurn);
        }
        match validate_placement(&self.pieces, x, y, radius) {
            Err(e) => Err(e),
            Ok(()) => {
                self.pieces.push(Piece { owner, x, y, radius });
                self.turn = 1 - self.turn;
                proof {
                    assert(self@.pieces =~= old(self)@.pieces.push(Piece { owner, x, y, radius }));
                }
                Ok(())
            },
        }
    }

    /// Shoots the piece at `index`, owned by `owner`, along `(dx, dy)` with
    /// `force`; on success the turn passes to the other player. A rejected
    /// shot changes nothing. The shot is not checked for overlap.
    pub fn shoot(&mut self, owner: u8, index: usize, dx: i32, dy: i32, force: i32) -> (r: Result<
        (),
        Rejection,
    >)
        requires
            old(self).wf(),
        ensures
            final(self).wf(),
            match r {
                Ok(_) => shoot_spec(
                    old(self)@,
                    owner,
                    index as int,
                    dx as int,
                    dy as int,
                    force as int,
                ) == Ok::<GameModel, Rejection>(final(self)@),
                Err(e) => shoot_spec(
                    old(self)@,
                    owner,
                    index as int,
                    dx as int,
                    dy as int,
                    force as int,
                ) == Err::<GameModel, Rejection>(e) && final(self)@ == old(self)@,
            },
    {
        if owner != self.turn {
            return Err(Rejection::NotYourTurn);
        }
        if dx == 0 && dy == 0 {
            return Err(Rejection::ZeroDirection);
        }
        if index >= self.pieces.len() {
            return Err(Rejection::IndexOutOfRange);
        }
        let p = self.pieces[index];
        if p.owner != owner {
            return Err(Rejection::NotOwner);
        }
        match apply_shoot(&p, dx, dy, force) {
            Err(e) => Err(e),
            Ok((nx, ny)) => {
                self.pieces.set(index, Piece { x: nx, y: ny, ..p });
                self.turn = 1 - self.turn;
                Ok(())
            },
        }
    }

    /// Applies a decoded command issued by `player`.
    pub fn apply(&mut self, player: u8, cmd: Command) -> (r: Result<(), Rejection>)
        requires
            old(self).wf(),
        ensures
            final(self).wf(),
            match r {
                Ok(_) => command_spec(old(self)@, player, cmd) == Ok::<GameModel, Rejection>(
                    final(self)@,
                ),
                Err(e) => command_spec(old(self)@, player, cmd) == Err::<GameModel, Rejection>(e)
                    && final(self)@ == old(self)@,
            },
    {
        match cmd {
            Command::Place { x, y, radius } => self.place(player, x, y, radius),
            Command::Shoot { index, dx, dy, force } => self.shoot(player, index, dx, dy, force),
        }
    }

    /// A full snapshot of the pieces, in spawn order.
    pub fn render_state(&self) -> (r: Vec<Piece>)
        ensures
            r@ == self@.pieces,
    {
        self.pieces.clone()
    }
}

} // verus!
