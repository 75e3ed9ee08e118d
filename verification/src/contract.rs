//! Request-level orchestration: instantiation, starting games, opponent
//! responses, admin and blacklist updates, and queries.
//!
//! Each mutating request either fully applies its state change and returns
//! a response, or fails with a [`ContractError`] and changes nothing.

use vstd::prelude::*;

use crate::access::{addrs_set, AccessGate};
use crate::error::ContractError;
use crate::msg::{ExecuteMsg, GamesListResponse, InstantiateMsg, QueryAnswer, QueryMsg, Response};
use crate::state::{fresh_game, pending, Game, GameMove, GameResult, GameV, State, StateV};
use crate::store::{
    by_host, by_opponent, game_at, games_view, has_game, is_key, lemma_insert_preserves_keys,
    lemma_insert_then_found, lemma_remove_key_absent, GameStore,
};

verus! {

/// The pairs on which the host's move wins outright.
pub open spec fn beats(a: GameMove, b: GameMove) -> bool {
    ||| (a == GameMove::Rock && b == GameMove::Scissors)
    ||| (a == GameMove::Paper && b == GameMove::Rock)
    ||| (a == GameMove::Scissors && b == GameMove::Paper)
}

/// The outcome of a game: a tie on equal moves, a host win exactly on the
/// beats relation, an opponent win otherwise. Total: every pair of moves
/// has an outcome.
pub open spec fn resolve(host_move: GameMove, opp_move: GameMove) -> GameResult {
    if host_move == opp_move {
        GameResult::Tie
    } else if beats(host_move, opp_move) {
        GameResult::HostWins
    } else {
        GameResult::OpponentWins
    }
}

/// Computes the outcome of a game from the two moves. Never fails; the
/// `Result` shape is kept for callers that thread errors through.
pub fn get_game_result(host_move: GameMove, opp_move: GameMove) -> (r: Result<
    GameResult,
    ContractError,
>)
    ensures
        r == Ok::<GameResult, ContractError>(resolve(host_move, opp_move)),
{
    if host_move == opp_move {
        Ok(GameResult::Tie)
    } else if host_move == GameMove::Rock && opp_move == GameMove::Scissors
        || host_move == GameMove::Paper && opp_move == GameMove::Rock || host_move
        == GameMove::Scissors && opp_move == GameMove::Paper {
        Ok(GameResult::HostWins)
    } else {
        Ok(GameResult::OpponentWins)
    }
}

/// Resolution is total over the nine move pairs: equal moves tie, the host
/// wins exactly on the beats relation, the opponent wins otherwise; and for
/// distinct moves it is antisymmetric: swapping the players swaps the winner.
pub proof fn lemma_resolve_properties(a: GameMove, b: GameMove)
    ensures
        resolve(a, a) == GameResult::Tie,
        (resolve(a, b) == GameResult::HostWins) <==> beats(a, b),
        (resolve(a, b) == GameResult::OpponentWins) <==> (a != b && !beats(a, b)),
        a != b ==> ((resolve(a, b) == GameResult::HostWins) <==> (resolve(b, a)
            == GameResult::OpponentWins)),
{
}

/// The phrase a resolved game reports as its `result` attribute.
pub open spec fn result_phrase(result: GameResult) -> Seq<char> {
    match result {
        GameResult::HostWins => "Host Wins"@,
        GameResult::OpponentWins => "Opponent Wins"@,
        GameResult::Tie => "Tie"@,
    }
}

/// The full persistent state of the contract.
pub struct Contract {
    pub config: Option<State>,
    pub gate: AccessGate,
    pub store: GameStore,
}

/// The mathematical value of a [`Contract`]: the recorded configuration,
/// the current admin, the blacklist, and the pending games in key order.
pub ghost struct ContractV {
    pub config: Option<StateV>,
    pub admin: Option<Seq<char>>,
    pub blacklist: Set<Seq<char>>,
    pub games: Seq<GameV>,
}

impl View for Contract {
    type V = ContractV;

    open spec fn view(&self) -> ContractV {
        ContractV {
            config: match self.config {
                Some(s) => Some(s@),
                None => None,
            },
            admin: self.gate@.admin,
            blacklist: self.gate@.blacklist,
            games: self.store@,
        }
    }
}

/// Persisted games can be reloaded exactly when every record is pending
/// and no two records share a (host, opponent) key.
pub open spec fn restorable(games: Seq<GameV>) -> bool {
    &&& forall|i: int| 0 <= i < games.len() ==> pending(#[trigger] games[i])
    &&& forall|i: int, j: int|
        0 <= i < j < games.len() ==> !is_key(
            #[trigger] games[j],
            (#[trigger] games[i]).host,
            games[i].opponent,
        )
}

impl Contract {
    /// Well-formedness of the representation: gate and store invariants.
    pub open spec fn wf(&self) -> bool {
        self.gate.wf() && self.store.wf()
    }

    /// Rebuilds a contract from recorded parts, e.g. when the exterior
    /// loads persisted state. Returns `None` exactly when the games are
    /// not restorable: some record is not pending, or two records share
    /// a (host, opponent) key.
    pub fn from_parts(
        config: Option<State>,
        admin: Option<String>,
        blacklist: Vec<String>,
        games: Vec<Game>,
    ) -> (r: Option<Contract>)
        ensures
            (r is Some) == restorable(games_view(games@)),
            r matches Some(c) ==> ({
                &&& c.wf()
                &&& c@.config == (match config {
                    Some(s) => Some(s@),
                    None => None::<StateV>,
                })
                &&& c@.admin == (match admin {
                    Some(a) => Some(a@),
                    None => None::<Seq<char>>,
                })
                &&& c@.blacklist == addrs_set(blacklist@)
                &&& c@.games.len() == games@.len()
                &&& forall|k: int|
                    0 <= k < games@.len() ==> has_game(
                        c@.games,
                        (#[trigger] games@[k])@.host,
                        games@[k]@.opponent,
                    )
            }),
    {
        let gate = AccessGate::restore(admin, blacklist);
        let mut store = GameStore::new();
        let n = games.len();
        let mut i: usize = 0;
        while i < n
            invariant
                n == games.len(),
                i <= n,
                store.wf(),
                store@.len() == i,
                forall|k: int|
                    0 <= k < i ==> has_game(
                        store@,
                        (#[trigger] games@[k])@.host,
                        games@[k]@.opponent,
                    ),
                forall|p: int|
                    0 <= p < store@.len() ==> exists|k: int|
                        0 <= k < i && #[trigger] store@[p] == games@[k]@,
                forall|k: int| 0 <= k < i ==> pending((#[trigger] games@[k])@),
                forall|k: int, j: int|
                    0 <= k < j < i ==> !is_key(
                        (#[trigger] games@[j])@,
                        (#[trigger] games@[k])@.host,
                        games@[k]@.opponent,
                    ),
            decreases n - i,
        {
            let g = games[i].clone();
            if g.opp_move.is_some() || g.result.is_some() {
                proof {
                    assert(!pending(games_view(games@)[i as int]));
                }
                return None;
            }
            let ghost gv = g@;
            let ghost pre = store@;
            match store.insert(g) {
                Ok(_) => {
                    proof {
                        let pos = choose|pos: int|
                            0 <= pos <= pre.len() && store@ == pre.insert(pos, gv);
                        pre.insert_ensures(pos, gv);
                        lemma_insert_then_found(pre, pos, gv);
                        assert forall|k: int| 0 <= k < i + 1 implies has_game(
                            store@,
                            (#[trigger] games@[k])@.host,
                            games@[k]@.opponent,
                        ) by {
                            if k < i {
                                lemma_insert_preserves_keys(
                                    pre,
                                    pos,
                                    gv,
                                    games@[k]@.host,
                                    games@[k]@.opponent,
                                );
                            }
                        }
                        assert forall|p: int| 0 <= p < store@.len() implies exists|k: int|
                            0 <= k < i + 1 && #[trigger] store@[p] == games@[k]@ by {
                            if p < pos {
                                assert(store@[p] == pre[p]);
                            } else if p == pos {
                                assert(store@[p] == games@[i as int]@);
                            } else {
                                assert(store@[p] == pre[p - 1]);
                            }
                        }
                        assert forall|k: int, j: int| 0 <= k < j < i + 1 implies !is_key(
                            (#[trigger] games@[j])@,
                            (#[trigger] games@[k])@.host,
                            games@[k]@.opponent,
                        ) by {
                            if j == i as int && is_key(games@[j]@, games@[k]@.host,
                            games@[k]@.opponent) {
                                // the key of games[j] was free before this insert,
                                // yet games[k] already put it in the store
                                assert(!has_game(pre, gv.host, gv.opponent));
                                assert(has_game(pre, games@[k]@.host, games@[k]@.opponent));
                            }
                        }
                    }
                },
                Err(_) => {
                    proof {
                        // the key is already present: some earlier record shares it
                        assert(has_game(pre, gv.host, gv.opponent));
                        let p = choose|p: int|
                            0 <= p < pre.len() && is_key(#[trigger] pre[p], gv.host, gv.opponent);
                        let k = choose|k: int| 0 <= k < i && #[trigger] pre[p] == games@[k]@;
                        assert(is_key(
                            games_view(games@)[i as int],
                            games_view(games@)[k].host,
                            games_view(games@)[k].opponent,
                        ));
                    }
                    return None;
                },
            }
            i += 1;
        }
        proof {
            assert forall|k: int| 0 <= k < games@.len() implies pending(
                #[trigger] games_view(games@)[k],
            ) by {
                assert(games_view(games@)[k] == games@[k]@);
            }
            assert forall|k: int, j: int| 0 <= k < j < games@.len() implies !is_key(
                #[trigger] games_view(games@)[j],
                (#[trigger] games_view(games@)[k]).host,
                games_view(games@)[k].opponent,
            ) by {
                assert(games_view(games@)[k] == games@[k]@);
                assert(games_view(games@)[j] == games@[j]@);
            }
        }
        Some(Contract { config, gate, store })
    }

    /// A fresh, uninstantiated contract: no configuration, no admin, an
    /// empty blacklist and no games.
    pub fn new() -> (r: Contract)
        ensures
            r.wf(),
            r@.config is None,
            r@.admin is None,
            r@.blacklist == Set::<Seq<char>>::empty(),
            r@.games == Seq::<GameV>::empty(),
    {
        Contract { config: None, gate: AccessGate::new(), store: GameStore::new() }
    }
}

/// What instantiation guarantees: the configuration records the caller as
/// owner and the given address as admin, the admin capability goes to that
/// address, games and blacklist are untouched, and the response reports
/// the method and the owner.
pub open spec fn instantiate_post(
    pre: ContractV,
    post: ContractV,
    sender: Seq<char>,
    admin: Seq<char>,
    r: Result<Response, ContractError>,
) -> bool {
    &&& post.config == Some(StateV { owner: sender, admin })
    &&& post.admin == Some(admin)
    &&& post.blacklist == pre.blacklist
    &&& post.games == pre.games
    &&& r matches Ok(resp) && resp@ == seq![("method"@, "instantiate"@), ("owner"@, sender)]
}

/// What starting a game guarantees. A blacklisted host fails with
/// `OnTheBlacklist`; a pair with a pending game fails with
/// `OneGameAtATime`; both leave the state unchanged. Otherwise exactly one
/// fresh pending game is inserted at its key position and the response
/// reports method, host and opponent.
pub open spec fn start_game_post(
    pre: ContractV,
    post: ContractV,
    sender: Seq<char>,
    opponent: Seq<char>,
    host_move: GameMove,
    r: Result<Response, ContractError>,
) -> bool {
    if pre.blacklist.contains(sender) {
        r == Err::<Response, ContractError>(ContractError::OnTheBlacklist {  }) && post == pre
    } else if has_game(pre.games, sender, opponent) {
        r == Err::<Response, ContractError>(ContractError::OneGameAtATime {  }) && post == pre
    } else {
        &&& post.config == pre.config
        &&& post.admin == pre.admin
        &&& post.blacklist == pre.blacklist
        &&& exists|i: int|
            0 <= i <= pre.games.len() && post.games == pre.games.insert(
                i,
                fresh_game(sender, opponent, host_move),
            )
        &&& has_game(post.games, sender, opponent)
        &&& r matches Ok(resp) && resp@ == seq![
            ("method"@, "try_start_game"@),
            ("host"@, sender),
            ("opponent"@, opponent),
        ]
    }
}

/// What an opponent response guarantees. Any caller but the challenged
/// opponent fails with `Unauthorized`; a missing game fails with
/// `NoGameFound`; both leave the state unchanged. Otherwise the pending
/// game is resolved against the stored host move and removed in the same
/// operation, and the response reports the outcome phrase.
pub open spec fn opponent_response_post(
    pre: ContractV,
    post: ContractV,
    sender: Seq<char>,
    host: Seq<char>,
    opponent: Seq<char>,
    opp_move: GameMove,
    r: Result<Response, ContractError>,
) -> bool {
    if sender != opponent {
        r == Err::<Response, ContractError>(ContractError::Unauthorized {  }) && post == pre
    } else if !has_game(pre.games, host, opponent) {
        r == Err::<Response, ContractError>(ContractError::NoGameFound {  }) && post == pre
    } else {
        let outcome = resolve(game_at(pre.games, host, opponent).host_move, opp_move);
        &&& post.config == pre.config
        &&& post.admin == pre.admin
        &&& post.blacklist == pre.blacklist
        &&& exists|i: int|
            0 <= i < pre.games.len() && is_key(#[trigger] pre.games[i], host, opponent)
                && post.games == pre.games.remove(i)
        &&& !has_game(post.games, host, opponent)
        &&& r matches Ok(resp) && resp@ == seq![
            ("method"@, "try_opponent_response"@),
            ("host"@, host),
            ("opponent"@, opponent),
            ("result"@, result_phrase(outcome)),
        ]
    }
}

/// What replacing the admin guarantees: only the current admin may do it.
pub open spec fn update_admin_post(
    pre: ContractV,
    post: ContractV,
    sender: Seq<char>,
    admin: Seq<char>,
    r: Result<Response, ContractError>,
) -> bool {
    if pre.admin == Some(sender) {
        &&& post.config == pre.config
        &&& post.admin == Some(admin)
        &&& post.blacklist == pre.blacklist
        &&& post.games == pre.games
        &&& r matches Ok(resp) && resp@ == seq![("action"@, "update_admin"@), ("admin"@, admin)]
    } else {
        r == Err::<Response, ContractError>(ContractError::Unauthorized {  }) && post == pre
    }
}

/// What blacklisting an address guarantees: admin-gated, idempotent insert.
pub open spec fn add_to_blacklist_post(
    pre: ContractV,
    post: ContractV,
    sender: Seq<char>,
    address: Seq<char>,
    r: Result<Response, ContractError>,
) -> bool {
    if pre.admin == Some(sender) {
        &&& post.config == pre.config
        &&& post.admin == pre.admin
        &&& post.blacklist == pre.blacklist.insert(address)
        &&& post.games == pre.games
        &&& r matches Ok(resp) && resp@ == seq![
            ("action"@, "add_to_blacklist"@),
            ("address"@, address),
        ]
    } else {
        r == Err::<Response, ContractError>(ContractError::Unauthorized {  }) && post == pre
    }
}

/// What removing an address from the blacklist guarantees: admin-gated,
/// idempotent removal.
pub open spec fn remove_from_blacklist_post(
    pre: ContractV,
    post: ContractV,
    sender: Seq<char>,
    address: Seq<char>,
    r: Result<Response, ContractError>,
) -> bool {
    if pre.admin == Some(sender) {
        &&& post.config == pre.config
        &&& post.admin == pre.admin
        &&& post.blacklist == pre.blacklist.remove(address)
        &&& post.games == pre.games
        &&& r matches Ok(resp) && resp@ == seq![
            ("action"@, "remove_from_blacklist"@),
            ("address"@, address),
        ]
    } else {
        r == Err::<Response, ContractError>(ContractError::Unauthorized {  }) && post == pre
    }
}

/// Records the configuration and hands the admin capability to the given
/// address; the instantiating caller acts as the super-authority.
pub fn instantiate(contract: &mut Contract, sender: String, msg: InstantiateMsg) -> (r: Result<
    Response,
    ContractError,
>)
    requires
        old(contract).wf(),
    ensures
        final(contract).wf(),
        instantiate_post(old(contract)@, final(contract)@, sender@, msg.admin@, r),
{
    let owner_value = sender.clone();
    let admin = msg.admin;
    contract.config = Some(State { owner: sender, admin: admin.clone() });
    contract.gate.set_admin(admin);
    let resp = Response::new().add_attribute("method", "instantiate".to_owned()).add_attribute(
        "owner",
        owner_value,
    );
    proof {
        assert(resp@ =~= seq![("method"@, "instantiate"@), ("owner"@, sender@)]);
    }
    Ok(resp)
}

/// Starts a game: the caller hosts a challenge against `opponent` with
/// `host_move` committed. The caller must not be blacklisted and no game
/// may be pending for the pair. Address-format validation is the
/// exterior's duty; the logic treats addresses as opaque strings.
pub fn try_start_game(
    contract: &mut Contract,
    sender: String,
    opponent: String,
    host_move: GameMove,
) -> (r: Result<Response, ContractError>)
    requires
        old(contract).wf(),
    ensures
        final(contract).wf(),
        start_game_post(old(contract)@, final(contract)@, sender@, opponent@, host_move, r),
{
    if contract.gate.is_blacklisted(sender.as_str()) {
        return Err(ContractError::OnTheBlacklist {  });
    }
    if contract.store.contains_key(sender.as_str(), opponent.as_str()) {
        return Err(ContractError::OneGameAtATime {  });
    }
    let game = Game {
        host: sender.clone(),
        opponent: opponent.clone(),
        host_move,
        opp_move: None,
        result: None,
    };
    proof {
        assert(game@ == fresh_game(sender@, opponent@, host_move));
    }
    match contract.store.insert(game) {
        Ok(_) => {},
        Err(e) => {
            proof {
                assert(false);
            }
            return Err(e);
        },
    }
    proof {
        let gv = fresh_game(sender@, opponent@, host_move);
        let i = choose|i: int|
            0 <= i <= old(contract)@.games.len() && contract@.games == old(
                contract,
            )@.games.insert(i, gv);
        lemma_insert_then_found(old(contract)@.games, i, gv);
    }
    let resp = Response::new().add_attribute(
        "method",
        "try_start_game".to_owned(),
    ).add_attribute("host", sender).add_attribute("opponent", opponent);
    proof {
        assert(resp@ =~= seq![
            ("method"@, "try_start_game"@),
            ("host"@, sender@),
            ("opponent"@, opponent@),
        ]);
    }
    Ok(resp)
}

/// Resolves a pending game: only the challenged opponent may respond, the
/// outcome is computed against the stored host move, and the record is
/// resolved and removed in the same operation.
pub fn try_opponent_response(
    contract: &mut Contract,
    sender: String,
    host: String,
    opponent: String,
    opp_move: GameMove,
) -> (r: Result<Response, ContractError>)
    requires
        old(contract).wf(),
    ensures
        final(contract).wf(),
        opponent_response_post(
            old(contract)@,
            final(contract)@,
            sender@,
            host@,
            opponent@,
            opp_move,
            r,
        ),
{
    if !(sender == opponent) {
        return Err(ContractError::Unauthorized {  });
    }
    let game_found = match contract.store.get(host.as_str(), opponent.as_str()) {
        Some(g) => g,
        None => {
            return Err(ContractError::NoGameFound {  });
        },
    };
    let result = match get_game_result(game_found.host_move, opp_move) {
        Ok(x) => x,
        Err(e) => {
            proof {
                assert(false);
            }
            return Err(e);
        },
    };
    let phrase = match result {
        GameResult::HostWins => "Host Wins",
        GameResult::OpponentWins => "Opponent Wins",
        GameResult::Tie => "Tie",
    };
    match contract.store.update_and_resolve(host.as_str(), opponent.as_str(), opp_move, result) {
        Ok(_) => {},
        Err(e) => {
            proof {
                assert(false);
            }
            return Err(e);
        },
    }
    proof {
        let i = choose|i: int|
            0 <= i < old(contract)@.games.len() && is_key(
                #[trigger] old(contract)@.games[i],
                host@,
                opponent@,
            ) && contract@.games == old(contract)@.games.remove(i);
        lemma_remove_key_absent(old(contract)@.games, host@, opponent@, i);
    }
    let resp = Response::new().add_attribute(
        "method",
        "try_opponent_response".to_owned(),
    ).add_attribute("host", host).add_attribute("opponent", opponent).add_attribute(
        "result",
        phrase.to_owned(),
    );
    proof {
        assert(resp@ =~= seq![
            ("method"@, "try_opponent_response"@),
            ("host"@, host@),
            ("opponent"@, opponent@),
            ("result"@, result_phrase(result)),
        ]);
    }
    Ok(resp)
}

/// Admin replacement, dispatched from `execute`.
fn do_update_admin(contract: &mut Contract, sender: String, admin: String) -> (r: Result<
    Response,
    ContractError,
>)
    requires
        old(contract).wf(),
    ensures
        final(contract).wf(),
        update_admin_post(old(contract)@, final(contract)@, sender@, admin@, r),
{
    match contract.gate.update_admin(sender.as_str(), admin.clone()) {
        Ok(_) => {
            let resp = Response::new().add_attribute(
                "action",
                "update_admin".to_owned(),
            ).add_attribute("admin", admin);
            proof {
                assert(resp@ =~= seq![("action"@, "update_admin"@), ("admin"@, admin@)]);
            }
            Ok(resp)
        },
        Err(e) => Err(e),
    }
}

/// Blacklist insertion, dispatched from `execute`.
fn do_add_to_blacklist(contract: &mut Contract, sender: String, address: String) -> (r: Result<
    Response,
    ContractError,
>)
    requires
        old(contract).wf(),
    ensures
        final(contract).wf(),
        add_to_blacklist_post(old(contract)@, final(contract)@, sender@, address@, r),
{
    match contract.gate.add_to_blacklist(sender.as_str(), address.as_str()) {
        Ok(_) => {
            let resp = Response::new().add_attribute(
                "action",
                "add_to_blacklist".to_owned(),
            ).add_attribute("address", address);
            proof {
                assert(resp@ =~= seq![("action"@, "add_to_blacklist"@), ("address"@, address@)]);
            }
            Ok(resp)
        },
        Err(e) => Err(e),
    }
}

/// Blacklist removal, dispatched from `execute`.
fn do_remove_from_blacklist(
    contract: &mut Contract,
    sender: String,
    address: String,
) -> (r: Result<Response, ContractError>)
    requires
        old(contract).wf(),
    ensures
        final(contract).wf(),
        remove_from_blacklist_post(old(contract)@, final(contract)@, sender@, address@, r),
{
    match contract.gate.remove_from_blacklist(sender.as_str(), address.as_str()) {
        Ok(_) => {
            let resp = Response::new().add_attribute(
                "action",
                "remove_from_blacklist".to_owned(),
            ).add_attribute("address", address);
            proof {
                assert(resp@ =~= seq![
                    ("action"@, "remove_from_blacklist"@),
                    ("address"@, address@),
                ]);
            }
            Ok(resp)
        },
        Err(e) => Err(e),
    }
}

/// Dispatches a mutating request to the operation it names.
pub fn execute(contract: &mut Contract, sender: String, msg: ExecuteMsg) -> (r: Result<
    Response,
    ContractError,
>)
    requires
        old(contract).wf(),
    ensures
        final(contract).wf(),
        (match msg {
            ExecuteMsg::StartGame { opponent, host_move } => start_game_post(
                old(contract)@,
                final(contract)@,
                sender@,
                opponent@,
                host_move,
                r,
            ),
            ExecuteMsg::UpdateAdmin { admin } => update_admin_post(
                old(contract)@,
                final(contract)@,
                sender@,
                admin@,
                r,
            ),
            ExecuteMsg::AddToBlacklist { address } => add_to_blacklist_post(
                old(contract)@,
                final(contract)@,
                sender@,
                address@,
                r,
            ),
            ExecuteMsg::RemoveFromBlacklist { address } => remove_from_blacklist_post(
                old(contract)@,
                final(contract)@,
                sender@,
                address@,
                r,
            ),
            ExecuteMsg::OpponentResponse { host, opponent, opp_move } => opponent_response_post(
                old(contract)@,
                final(contract)@,
                sender@,
                host@,
                opponent@,
                opp_move,
                r,
            ),
        }),
{
    match msg {
        ExecuteMsg::StartGame { opponent, host_move } => {
            try_start_game(contract, sender, opponent, host_move)
        },
        ExecuteMsg::UpdateAdmin { admin } => do_update_admin(contract, sender, admin),
        ExecuteMsg::AddToBlacklist { address } => do_add_to_blacklist(contract, sender, address),
        ExecuteMsg::RemoveFromBlacklist { address } => {
            do_remove_from_blacklist(contract, sender, address)
        },
        ExecuteMsg::OpponentResponse { host, opponent, opp_move } => {
            try_opponent_response(contract, sender, host, opponent, opp_move)
        },
    }
}

/// All pending games hosted by `host`, ascending by opponent address.
fn query_games_by_host(contract: &Contract, host: &str) -> (r: GamesListResponse)
    requires
        contract.wf(),
    ensures
        games_view(r.games@) == contract@.games.filter(by_host(host@)),
{
    GamesListResponse { games: contract.store.scan_by_host(host) }
}

/// All pending games challenging `opponent`, in stored-key order.
fn query_games_by_opponent(contract: &Contract, opponent: &str) -> (r: GamesListResponse)
    requires
        contract.wf(),
    ensures
        games_view(r.games@) == contract@.games.filter(by_opponent(opponent@)),
{
    GamesListResponse { games: contract.store.scan_by_opponent(opponent) }
}

/// The pending game of the exact (host, opponent) pair, or `NoGameFound`.
fn query_game_by_host_and_opponent(contract: &Contract, host: &str, opponent: &str) -> (r: Result<
    Game,
    ContractError,
>)
    requires
        contract.wf(),
    ensures
        has_game(contract@.games, host@, opponent@) ==> (r matches Ok(g) && g@ == game_at(
            contract@.games,
            host@,
            opponent@,
        )),
        !has_game(contract@.games, host@, opponent@) ==> r == Err::<Game, ContractError>(
            ContractError::NoGameFound {  },
        ),
{
    match contract.store.get(host, opponent) {
        Some(g) => Ok(g),
        None => Err(ContractError::NoGameFound {  }),
    }
}

/// Answers a read-only request; queries never mutate the state.
pub fn query(contract: &Contract, msg: QueryMsg) -> (r: Result<QueryAnswer, ContractError>)
    requires
        contract.wf(),
    ensures
        (match msg {
            QueryMsg::GetGamesByHost { host } => r matches Ok(QueryAnswer::Games(list))
                && games_view(list.games@) == contract@.games.filter(by_host(host@)),
            QueryMsg::GetGamesByOpponent { opponent } => r matches Ok(QueryAnswer::Games(list))
                && games_view(list.games@) == contract@.games.filter(by_opponent(opponent@)),
            QueryMsg::GetGameByHostAndOpponent { host, opponent } => ({
                if has_game(contract@.games, host@, opponent@) {
                    r matches Ok(QueryAnswer::Game(g)) && g@ == game_at(
                        contract@.games,
                        host@,
                        opponent@,
                    )
                } else {
                    r == Err::<QueryAnswer, ContractError>(ContractError::NoGameFound {  })
                }
            }),
            QueryMsg::GetAdmin {  } => r matches Ok(QueryAnswer::Admin(a)) && (match a {
                Some(x) => contract@.admin == Some(x@),
                None => contract@.admin is None,
            }),
        }),
{
    match msg {
        QueryMsg::GetGamesByHost { host } => {
            Ok(QueryAnswer::Games(query_games_by_host(contract, host.as_str())))
        },
        QueryMsg::GetGamesByOpponent { opponent } => {
            Ok(QueryAnswer::Games(query_games_by_opponent(contract, opponent.as_str())))
        },
        QueryMsg::GetGameByHostAndOpponent { host, opponent } => {
            match query_game_by_host_and_opponent(contract, host.as_str(), opponent.as_str()) {
                Ok(g) => Ok(QueryAnswer::Game(g)),
                Err(e) => Err(e),
            }
        },
        QueryMsg::GetAdmin {  } => Ok(QueryAnswer::Admin(contract.gate.get_admin())),
    }
}

/// Starting a game and then starting another for the same (host, opponent)
/// pair: the second attempt fails with `OneGameAtATime` and the state,
/// including the original record, is unchanged.
pub proof fn lemma_one_game_at_a_time(
    pre: ContractV,
    mid: ContractV,
    post: ContractV,
    sender: Seq<char>,
    opponent: Seq<char>,
    first_move: GameMove,
    second_move: GameMove,
    r1: Result<Response, ContractError>,
    r2: Result<Response, ContractError>,
)
    requires
        start_game_post(pre, mid, sender, opponent, first_move, r1),
        r1 is Ok,
        start_game_post(mid, post, sender, opponent, second_move, r2),
    ensures
        r2 == Err::<Response, ContractError>(ContractError::OneGameAtATime {  }),
        post == mid,
{
    let g = fresh_game(sender, opponent, first_move);
    let i = choose|i: int| 0 <= i <= pre.games.len() && mid.games == pre.games.insert(i, g);
    lemma_insert_then_found(pre.games, i, g);
}

/// A blacklisted host cannot start a game; the attempt fails with
/// `OnTheBlacklist` and changes nothing.
pub proof fn lemma_blacklisted_cannot_start(
    pre: ContractV,
    post: ContractV,
    sender: Seq<char>,
    opponent: Seq<char>,
    host_move: GameMove,
    r: Result<Response, ContractError>,
)
    requires
        start_game_post(pre, post, sender, opponent, host_move, r),
        pre.blacklist.contains(sender),
    ensures
        r == Err::<Response, ContractError>(ContractError::OnTheBlacklist {  }),
        post == pre,
{
}

/// Once the admin removes a host from the blacklist, that host's next
/// attempt to start a game (for a pair with no pending game) succeeds.
pub proof fn lemma_unblacklisted_can_start(
    pre: ContractV,
    mid: ContractV,
    post: ContractV,
    admin: Seq<char>,
    sender: Seq<char>,
    opponent: Seq<char>,
    host_move: GameMove,
    r1: Result<Response, ContractError>,
    r2: Result<Response, ContractError>,
)
    requires
        pre.admin == Some(admin),
        remove_from_blacklist_post(pre, mid, admin, sender, r1),
        !has_game(mid.games, sender, opponent),
        start_game_post(mid, post, sender, opponent, host_move, r2),
    ensures
        r2 is Ok,
{
    assert(!mid.blacklist.contains(sender));
}

/// After a successful opponent response, no game remains for that key, so
/// the point query for the exact pair reports not-found.
pub proof fn lemma_resolved_game_removed(
    pre: ContractV,
    post: ContractV,
    sender: Seq<char>,
    host: Seq<char>,
    opponent: Seq<char>,
    opp_move: GameMove,
    r: Result<Response, ContractError>,
)
    requires
        opponent_response_post(pre, post, sender, host, opponent, opp_move, r),
        r is Ok,
    ensures
        !has_game(post.games, host, opponent),
{
}

/// The scans are exact: a game is in the by-host result iff it is stored
/// with that host, and in the by-opponent result iff it is stored with
/// that opponent.
pub proof fn lemma_scan_membership(
    games: Seq<GameV>,
    host: Seq<char>,
    opponent: Seq<char>,
    g: GameV,
)
    ensures
        games.filter(by_host(host)).contains(g) <==> (games.contains(g) && g.host == host),
        games.filter(by_opponent(opponent)).contains(g) <==> (games.contains(g) && g.opponent
            == opponent),
{
    if games.filter(by_host(host)).contains(g) {
        games.lemma_filter_contains_rev(by_host(host), g);
        let i = choose|i: int|
            0 <= i < games.filter(by_host(host)).len() && games.filter(by_host(host))[i] == g;
        games.lemma_filter_pred(by_host(host), i);
    }
    if games.contains(g) && g.host == host {
        let i = choose|i: int| 0 <= i < games.len() && games[i] == g;
        games.lemma_filter_contains(by_host(host), i);
    }
    if games.filter(by_opponent(opponent)).contains(g) {
        games.lemma_filter_contains_rev(by_opponent(opponent), g);
        let i = choose|i: int|
            0 <= i < games.filter(by_opponent(opponent)).len() && games.filter(
                by_opponent(opponent),
            )[i] == g;
        games.lemma_filter_pred(by_opponent(opponent), i);
    }
    if games.contains(g) && g.opponent == opponent {
        let i = choose|i: int| 0 <= i < games.len() && games[i] == g;
        games.lemma_filter_contains(by_opponent(opponent), i);
    }
}

} // verus!
