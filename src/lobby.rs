use vstd::prelude::*;

verus! {

/// Where the pairing of the next game stands.
#[derive(Debug, Clone, Copy, PartialEq, Eq, Structural)]
pub enum Phase {
    /// No slot is held: one must be acquired before accepting.
    NeedSlot,
    /// A slot is held and no player has connected yet.
    NeedFirst,
    /// A slot is held and one player, told to wait, is connected.
    NeedSecond { first: u64 },
}

/// What the accept loop must do after a connection was accepted.
#[derive(Debug, Clone, Copy, PartialEq, Eq, Structural)]
pub enum LobbyAction {
    /// Tell this connection to wait for an opponent.
    SendWaiting { conn: u64 },
    /// Start a game between two connections; the held slot now belongs to
    /// that game until it ends.
    StartGame { game_id: u32, first: u64, second: u64 },
}

/// Slots that the pairing in progress holds.
pub open spec fn held(p: Phase) -> nat {
    if p is NeedSlot {
        0
    } else {
        1
    }
}

/// Pairs arriving connections into games and bounds how many games run at
/// once by a pool of slots. Every slot is free, held by the pairing in
/// progress, or owned by a running game.
pub struct Lobby {
    pub max_games: u32,
    pub available: u32,
    pub running: u32,
    pub phase: Phase,
    pub next_game_id: u32,
}

impl Lobby {
    pub open spec fn wf(&self) -> bool {
        &&& self.max_games >= 1
        &&& self.available + self.running + held(self.phase) == self.max_games
    }

    /// A lobby with `max_games` slots (at least one).
    pub fn new(max_games: u32) -> (r: Self)
        ensures
            r.wf(),
            r.max_games == if max_games == 0 { 1 } else { max_games },
            r.available == r.max_games,
            r.running == 0,
            r.phase == Phase::NeedSlot,
            r.next_game_id == 0,
    {
        let m = if max_games == 0 { 1 } else { max_games };
        Lobby { max_games: m, available: m, running: 0, phase: Phase::NeedSlot, next_game_id: 0 }
    }

    /// Takes a slot for the next pairing if none is held yet. Returns
    /// whether the loop may accept a connection now; `false` exactly when
    /// every slot is owned by a running game, in which case the loop must
    /// wait for one to end.
    pub fn try_acquire(&mut self) -> (r: bool)
        requires
            old(self).wf(),
        ensures
            final(self).wf(),
            r == (!(old(self).phase is NeedSlot) || old(self).available > 0),
            r == !(final(self).phase is NeedSlot),
            old(self).phase is NeedSlot && r ==> final(self).phase == Phase::NeedFirst
                && final(self).available == old(self).available - 1,
            !(old(self).phase is NeedSlot && r) ==> final(self).phase == old(self).phase
                && final(self).available == old(self).available,
            final(self).running == old(self).running,
            final(self).max_games == old(self).max_games,
            final(self).next_game_id == old(self).next_game_id,
    {
        match self.phase {
            Phase::NeedSlot => {
                if self.available > 0 {
                    self.available = self.available - 1;
                    self.phase = Phase::NeedFirst;
                    true
                } else {
                    false
                }
            },
            _ => true,
        }
    }

    /// Records an accepted connection: the first of a pair is told to wait;
    /// the second starts a game, which takes over the held slot.
    pub fn on_accepted(&mut self, conn: u64) -> (r: LobbyAction)
        requires
            old(self).wf(),
            !(old(self).phase is NeedSlot),
        ensures
            final(self).wf(),
            final(self).max_games == old(self).max_games,
            final(self).available == old(self).available,
            match old(self).phase {
                Phase::NeedFirst => {
                    &&& r == LobbyAction::SendWaiting { conn }
                    &&& final(self).phase == Phase::NeedSecond { first: conn }
                    &&& final(self).running == old(self).running
                    &&& final(self).next_game_id == old(self).next_game_id
                },
                Phase::NeedSecond { first } => {
                    &&& r == LobbyAction::StartGame {
                        game_id: old(self).next_game_id,
                        first,
                        second: conn,
                    }
                    &&& final(self).phase == Phase::NeedSlot
                    &&& final(self).running == old(self).running + 1
                    &&& final(self).next_game_id == (old(self).next_game_id + 1) % 0x1_0000_0000
                },
                Phase::NeedSlot => false,
            },
    {
        match self.phase {
            Phase::NeedSecond { first } => {
                let game_id = self.next_game_id;
                self.next_game_id = self.next_game_id.wrapping_add(1);
                self.running = self.running + 1;
                self.phase = Phase::NeedSlot;
                LobbyAction::StartGame { game_id, first, second: conn }
            },
            _ => {
                self.phase = Phase::NeedSecond { first: conn };
                LobbyAction::SendWaiting { conn }
            },
        }
    }

    /// Accepting a connection failed: the held slot is freed at once and any
    /// waiting connection is dropped.
    pub fn on_accept_failed(&mut self)
        requires
            old(self).wf(),
            !(old(self).phase is NeedSlot),
        ensures
            final(self).wf(),
            final(self).phase == Phase::NeedSlot,
            final(self).available == old(self).available + 1,
            final(self).running == old(self).running,
            final(self).max_games == old(self).max_games,
            final(self).next_game_id == old(self).next_game_id,
    {
        self.available = self.available + 1;
        self.phase = Phase::NeedSlot;
    }

    /// A running game ended: its slot is released.
    pub fn on_game_ended(&mut self)
        requires
            old(self).wf(),
            old(self).running > 0,
        ensures
            final(self).wf(),
            final(self).available == old(self).available + 1,
            final(self).running == old(self).running - 1,
            final(self).phase == old(self).phase,
            final(self).max_games == old(self).max_games,
            final(self).next_game_id == old(self).next_game_id,
    {
        self.available = self.available + 1;
        self.running = self.running - 1;
    }
}

/// The pool never holds more than its configured number of slots, nor
/// fewer than none; and while every slot is owned by a running game, no
/// pairing holds one, so no new game can start until one ends.
pub proof fn lemma_slots_bounded(l: Lobby)
    requires
        l.wf(),
    ensures
        l.running <= l.max_games,
        l.available <= l.max_games,
        l.running == l.max_games ==> l.available == 0 && l.phase is NeedSlot,
{
}

} // verus!
