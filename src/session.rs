use vstd::prelude::*;
use crate::game::{GameModel, GameState, command_spec, initial_model};
use crate::geometry::Rejection;
use crate::protocol::{Event, encode_event, encode_state, event_bytes, state_bytes, command_of, decode_command};
use crate::text::words;

verus! {

/// Game logic that answers each message a peer sends with at most one
/// message back. Implemented by users of the library; it promises nothing
/// about what it answers.
pub trait GameLogic {
    type Message;

    fn on_message(&mut self, msg: Self::Message) -> Option<Self::Message>;
}

/// One line to send to one player.
pub struct Outgoing {
    /// Player slot, 0 or 1.
    pub to: u8,
    pub line: Vec<u8>,
}

/// The recipients and contents of outgoing lines.
pub open spec fn sent(out: Seq<Outgoing>) -> Seq<(u8, Seq<u8>)> {
    out.map_values(|o: Outgoing| (o.to, o.line@))
}

/// What a session does with one line: the lines it sends, and whether the
/// line was not a command at all (which is only worth logging).
pub struct Step {
    pub sends: Vec<Outgoing>,
    pub unrecognised: bool,
}

/// The turn signal for `player` when `turn` is to move.
pub open spec fn turn_event(player: u8, turn: u8) -> Event {
    if player == turn {
        Event::YourTurn
    } else {
        Event::OpponentTurn
    }
}

/// The broadcast after an accepted move: `OK` to both, then the board to
/// both, then each player's turn signal.
pub open spec fn broadcast(m: GameModel) -> Seq<(u8, Seq<u8>)> {
    seq![
        (0u8, event_bytes(Event::Accepted)),
        (1u8, event_bytes(Event::Accepted)),
        (0u8, state_bytes(m.pieces)),
        (1u8, state_bytes(m.pieces)),
        (0u8, event_bytes(turn_event(0, m.turn))),
        (1u8, event_bytes(turn_event(1, m.turn))),
    ]
}

/// The lines sent when the game begins: slot 0 moves first.
pub open spec fn opening() -> Seq<(u8, Seq<u8>)> {
    seq![
        (0u8, event_bytes(Event::Ready { player_id: 0 })),
        (0u8, event_bytes(Event::YourTurn)),
        (1u8, event_bytes(Event::Ready { player_id: 1 })),
        (1u8, event_bytes(Event::OpponentTurn)),
    ]
}

/// The rejection reply to `player`.
pub open spec fn rejection_reply(player: u8, e: Rejection) -> Seq<(u8, Seq<u8>)> {
    seq![(player, event_bytes(Event::Error { reason: e }))]
}

/// The per-game protocol between two players around one game state.
pub struct Session {
    state: GameState,
    ended: bool,
}

impl View for Session {
    type V = GameModel;

    closed spec fn view(&self) -> GameModel {
        self.state@
    }
}

fn send(out: &mut Vec<Outgoing>, to: u8, e: &Event)
    ensures
        sent(final(out)@) == sent(old(out)@).push((to, event_bytes(*e))),
{
    let line = encode_event(e);
    out.push(Outgoing { to, line });
    assert(sent(out@) =~= sent(old(out)@).push((to, event_bytes(*e))));
}

fn turn_signal(player: u8, turn: u8) -> (e: Event)
    ensures
        e == turn_event(player, turn),
{
    if player == turn {
        Event::YourTurn
    } else {
        Event::OpponentTurn
    }
}

impl Session {
    /// Whether a player has left: the session is over and sends nothing
    /// more.
    pub closed spec fn ended(&self) -> bool {
        self.ended
    }

    pub closed spec fn wf(&self) -> bool {
        self.state.wf()
    }

    pub fn new() -> (r: Self)
        ensures
            r@ == initial_model(),
            r.wf(),
            !r.ended(),
    {
        Session { state: GameState::new(), ended: false }
    }

    /// Whether the session is over.
    pub fn is_ended(&self) -> (r: bool)
        ensures
            r == self.ended(),
    {
        self.ended
    }

    /// The game state as it stands.
    pub fn state(&self) -> (r: &GameState)
        ensures
            r@ == self@,
    {
        &self.state
    }

    /// The lines that open the game.
    pub fn start(&self) -> (r: Vec<Outgoing>)
        ensures
            sent(r@) == opening(),
    {
        let mut out: Vec<Outgoing> = Vec::new();
        send(&mut out, 0, &Event::Ready { player_id: 0 });
        send(&mut out, 0, &Event::YourTurn);
        send(&mut out, 1, &Event::Ready { player_id: 1 });
        send(&mut out, 1, &Event::OpponentTurn);
        assert(sent(out@) =~= opening());
        out
    }

    /// Handles one line from `player`. Out of turn it replies
    /// `ERROR not your turn` to the sender only; a line that is not a
    /// command changes nothing and sends nothing; a rejected command is
    /// answered to the sender only; an accepted one is broadcast.
    pub fn on_line(&mut self, player: u8, line: &[u8]) -> (r: Step)
        requires
            old(self).wf(),
            player <= 1,
        ensures
            final(self).wf(),
            final(self).ended() == old(self).ended(),
            old(self).ended() ==> {
                &&& sent(r.sends@).len() == 0
                &&& final(self)@ == old(self)@
                &&& !r.unrecognised
            },
            !old(self).ended() && player != old(self)@.turn ==> {
                &&& sent(r.sends@) == rejection_reply(player, Rejection::NotYourTurn)
                &&& final(self)@ == old(self)@
                &&& !r.unrecognised
            },
            !old(self).ended() && player == old(self)@.turn ==> match command_of(words(line@)) {
                None => {
                    &&& sent(r.sends@).len() == 0
                    &&& final(self)@ == old(self)@
                    &&& r.unrecognised
                },
                Some(cmd) => {
                    &&& !r.unrecognised
                    &&& match command_spec(old(self)@, player, cmd) {
                        Err(e) => sent(r.sends@) == rejection_reply(player, e) && final(self)@
                            == old(self)@,
                        Ok(m) => sent(r.sends@) == broadcast(m) && final(self)@ == m,
                    }
                },
            },
    {
        let mut out: Vec<Outgoing> = Vec::new();
        if self.ended {
            assert(sent(out@) =~= Seq::empty());
            return Step { sends: out, unrecognised: false };
        }
        if player != self.state.turn() {
            send(&mut out, player, &Event::Error { reason: Rejection::NotYourTurn });
            assert(sent(out@) =~= rejection_reply(player, Rejection::NotYourTurn));
            return Step { sends: out, unrecognised: false };
        }
        match decode_command(line) {
            None => {
                assert(sent(out@) =~= Seq::empty());
                Step { sends: out, unrecognised: true }
            },
            Some(cmd) => {
                match self.state.apply(player, cmd) {
                    Err(e) => {
                        send(&mut out, player, &Event::Error { reason: e });
                        assert(sent(out@) =~= rejection_reply(player, e));
                    },
                    Ok(()) => {
                        let pieces = self.state.render_state();
                        let turn = self.state.turn();
                        send(&mut out, 0, &Event::Accepted);
                        send(&mut out, 1, &Event::Accepted);
                        let ghost before = sent(out@);
                        out.push(Outgoing { to: 0, line: encode_state(&pieces) });
                        out.push(Outgoing { to: 1, line: encode_state(&pieces) });
                        assert(sent(out@) =~= before.push((0u8, state_bytes(pieces@))).push(
                            (1u8, state_bytes(pieces@)),
                        ));
                        send(&mut out, 0, &turn_signal(0, turn));
                        send(&mut out, 1, &turn_signal(1, turn));
                        assert(sent(out@) =~= broadcast(self@));
                    },
                }
                Step { sends: out, unrecognised: false }
            },
        }
    }

    /// Ends the session because `player` left. The first time, returns the
    /// notice to the player who stays; once ended, returns nothing.
    pub fn on_disconnect(&mut self, player: u8) -> (r: Option<Outgoing>)
        requires
            old(self).wf(),
            player <= 1,
        ensures
            final(self).wf(),
            final(self).ended(),
            final(self)@ == old(self)@,
            old(self).ended() ==> r is None,
            !old(self).ended() ==> r is Some && r->Some_0.to == 1 - player && r->Some_0.line@
                == event_bytes(Event::Disconnected),
    {
        if self.ended {
            return None;
        }
        self.ended = true;
        Some(Outgoing { to: 1 - player, line: encode_event(&Event::Disconnected) })
    }
}

} // verus!
