//! The data model: moves, outcomes, game records and the contract
//! configuration, together with their mathematical views.

use vstd::prelude::*;

verus! {

/// A move submitted by a player.
#[derive(Clone, Copy, Debug, PartialEq, Eq, Structural)]
pub enum GameMove {
    Rock,
    Paper,
    Scissors,
}

/// The computed outcome of a resolved game; derived, never set by a caller.
#[derive(Clone, Copy, Debug, PartialEq, Eq, Structural)]
pub enum GameResult {
    HostWins,
    OpponentWins,
    Tie,
}

/// One challenge between a host and an opponent.
///
/// `opp_move` and `result` transition together: both are absent while the
/// game is pending and both are set at the moment the opponent responds.
#[derive(Debug)]
pub struct Game {
    pub host: String,
    pub opponent: String,
    pub host_move: GameMove,
    pub opp_move: Option<GameMove>,
    pub result: Option<GameResult>,
}

/// The mathematical value of a [`Game`]: addresses as character sequences.
pub ghost struct GameV {
    pub host: Seq<char>,
    pub opponent: Seq<char>,
    pub host_move: GameMove,
    pub opp_move: Option<GameMove>,
    pub result: Option<GameResult>,
}

impl View for Game {
    type V = GameV;

    open spec fn view(&self) -> GameV {
        GameV {
            host: self.host@,
            opponent: self.opponent@,
            host_move: self.host_move,
            opp_move: self.opp_move,
            result: self.result,
        }
    }
}

impl Clone for Game {
    /// A clone denotes the same game.
    fn clone(&self) -> (r: Self)
        ensures
            r@ == self@,
    {
        Game {
            host: self.host.clone(),
            opponent: self.opponent.clone(),
            host_move: self.host_move,
            opp_move: self.opp_move,
            result: self.result,
        }
    }
}

/// A pending game: the opponent has not responded yet. Stored games are
/// always pending, since a game is removed in the same operation that
/// resolves it.
pub open spec fn pending(g: GameV) -> bool {
    g.opp_move is None && g.result is None
}

/// The game record created when `host` challenges `opponent` with `host_move`.
pub open spec fn fresh_game(host: Seq<char>, opponent: Seq<char>, host_move: GameMove) -> GameV {
    GameV { host, opponent, host_move, opp_move: None, result: None }
}

/// Configuration recorded once at instantiation and read-only afterwards:
/// the instantiating caller and the initial administrator.
#[derive(Debug)]
pub struct State {
    pub owner: String,
    pub admin: String,
}

/// The mathematical value of a [`State`].
pub ghost struct StateV {
    pub owner: Seq<char>,
    pub admin: Seq<char>,
}

impl View for State {
    type V = StateV;

    open spec fn view(&self) -> StateV {
        StateV { owner: self.owner@, admin: self.admin@ }
    }
}

impl Clone for State {
    /// A clone denotes the same configuration.
    fn clone(&self) -> (r: Self)
        ensures
            r@ == self@,
    {
        State { owner: self.owner.clone(), admin: self.admin.clone() }
    }
}

} // verus!
