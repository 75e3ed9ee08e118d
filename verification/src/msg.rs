//! Request and response shapes of the contract's external interface.
//!
//! The exterior that faces the host environment turns wire messages into
//! these values and serialises the answers; the logic here only ever sees
//! plain addresses and moves.

use vstd::prelude::*;

use crate::state::{Game, GameMove};

verus! {

/// Records the instantiating caller as owner and sets the given address
/// as the initial administrator.
#[derive(Debug)]
pub struct InstantiateMsg {
    pub admin: String,
}

/// A mutating request.
#[derive(Debug)]
pub enum ExecuteMsg {
    StartGame { opponent: String, host_move: GameMove },
    UpdateAdmin { admin: String },
    AddToBlacklist { address: String },
    RemoveFromBlacklist { address: String },
    OpponentResponse { host: String, opponent: String, opp_move: GameMove },
}

/// A read-only request.
#[derive(Debug)]
pub enum QueryMsg {
    GetGamesByHost { host: String },
    GetGamesByOpponent { opponent: String },
    GetGameByHostAndOpponent { host: String, opponent: String },
    GetAdmin {},
}

/// A list of games, as the by-host and by-opponent queries return it.
#[derive(Debug)]
pub struct GamesListResponse {
    pub games: Vec<Game>,
}

/// The answer to a query, before serialisation at the exterior.
#[derive(Debug)]
pub enum QueryAnswer {
    Games(GamesListResponse),
    Game(Game),
    Admin(Option<String>),
}

/// One key/value attribute of a response.
#[derive(Debug, PartialEq, Eq)]
pub struct Attribute {
    pub key: String,
    pub value: String,
}

impl View for Attribute {
    type V = (Seq<char>, Seq<char>);

    open spec fn view(&self) -> (Seq<char>, Seq<char>) {
        (self.key@, self.value@)
    }
}

/// The observable result of a successful mutating request: a list of
/// key/value attributes.
#[derive(Debug, PartialEq, Eq)]
pub struct Response {
    pub attributes: Vec<Attribute>,
}

impl View for Response {
    type V = Seq<(Seq<char>, Seq<char>)>;

    open spec fn view(&self) -> Seq<(Seq<char>, Seq<char>)> {
        self.attributes@.map_values(|a: Attribute| a@)
    }
}

impl Response {
    /// A response with no attributes yet.
    pub fn new() -> (r: Response)
        ensures
            r@ == Seq::<(Seq<char>, Seq<char>)>::empty(),
    {
        let r = Response { attributes: Vec::new() };
        proof {
            assert(r@ =~= Seq::<(Seq<char>, Seq<char>)>::empty());
        }
        r
    }

    /// Appends one attribute.
    pub fn add_attribute(self, key: &str, value: String) -> (r: Response)
        ensures
            r@ == self@.push((key@, value@)),
    {
        let ghost before = self.attributes@;
        let mut attributes = self.attributes;
        attributes.push(Attribute { key: key.to_owned(), value });
        let r = Response { attributes };
        proof {
            assert forall|j: int| 0 <= j < before.len() + 1 implies #[trigger] r@[j] == before.map_values(
                |a: Attribute| a@,
            ).push((key@, value@))[j] by {
                if j < before.len() {
                    assert(r.attributes@[j] == before[j]);
                }
            }
            assert(r@ =~= self@.push((key@, value@)));
        }
        r
    }
}

} // verus!
