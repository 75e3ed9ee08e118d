use rps_dapp::contract::{execute, get_game_result, instantiate, query, Contract};
use rps_dapp::error::ContractError;
use rps_dapp::msg::{ExecuteMsg, InstantiateMsg, QueryAnswer, QueryMsg};
use rps_dapp::state::{Game, GameMove, GameResult};

#[test]
fn resolution_table() {
    // ties on the diagonal
    assert_eq!(
        Ok(GameResult::Tie),
        get_game_result(GameMove::Rock, GameMove::Rock)
    );
    assert_eq!(
        Ok(GameResult::Tie),
        get_game_result(GameMove::Paper, GameMove::Paper)
    );
    assert_eq!(
        Ok(GameResult::Tie),
        get_game_result(GameMove::Scissors, GameMove::Scissors)
    );
    // the host wins exactly on the beats relation
    assert_eq!(
        Ok(GameResult::HostWins),
        get_game_result(GameMove::Rock, GameMove::Scissors)
    );
    assert_eq!(
        Ok(GameResult::HostWins),
        get_game_result(GameMove::Paper, GameMove::Rock)
    );
    assert_eq!(
        Ok(GameResult::HostWins),
        get_game_result(GameMove::Scissors, GameMove::Paper)
    );
    // the opponent wins the remaining pairs
    assert_eq!(
        Ok(GameResult::OpponentWins),
        get_game_result(GameMove::Rock, GameMove::Paper)
    );
    assert_eq!(
        Ok(GameResult::OpponentWins),
        get_game_result(GameMove::Paper, GameMove::Scissors)
    );
    assert_eq!(
        Ok(GameResult::OpponentWins),
        get_game_result(GameMove::Scissors, GameMove::Rock)
    );
}

#[test]
fn one_game_at_a_time() {
    let mut deps = Contract::new();
    let msg = InstantiateMsg {
        admin: "creator".to_string(),
    };
    instantiate(&mut deps, "creator".to_string(), msg).unwrap();

    let msg = ExecuteMsg::StartGame {
        opponent: "other_player".to_string(),
        host_move: GameMove::Rock,
    };
    execute(&mut deps, "creator".to_string(), msg).unwrap();

    // a second game for the identical pair is rejected
    let msg = ExecuteMsg::StartGame {
        opponent: "other_player".to_string(),
        host_move: GameMove::Paper,
    };
    let res = execute(&mut deps, "creator".to_string(), msg);
    assert_eq!(Err(ContractError::OneGameAtATime {}), res);

    // the original record is unchanged: the stored move is still Rock
    let res = query(
        &deps,
        QueryMsg::GetGameByHostAndOpponent {
            host: "creator".to_string(),
            opponent: "other_player".to_string(),
        },
    )
    .unwrap();
    let game = match res {
        QueryAnswer::Game(g) => g,
        _ => panic!("expected a single game"),
    };
    assert_eq!(GameMove::Rock, game.host_move);

    // the two directions of a pair are distinct keys
    let msg = ExecuteMsg::StartGame {
        opponent: "creator".to_string(),
        host_move: GameMove::Scissors,
    };
    execute(&mut deps, "other_player".to_string(), msg).unwrap();
}

#[test]
fn only_the_opponent_may_respond() {
    let mut deps = Contract::new();
    let msg = InstantiateMsg {
        admin: "creator".to_string(),
    };
    instantiate(&mut deps, "creator".to_string(), msg).unwrap();

    let msg = ExecuteMsg::StartGame {
        opponent: "toasty".to_string(),
        host_move: GameMove::Rock,
    };
    execute(&mut deps, "hosty".to_string(), msg).unwrap();

    // the host cannot respond to their own challenge
    let msg = ExecuteMsg::OpponentResponse {
        host: "hosty".to_string(),
        opponent: "toasty".to_string(),
        opp_move: GameMove::Paper,
    };
    let res = execute(&mut deps, "hosty".to_string(), msg);
    assert_eq!(Err(ContractError::Unauthorized {}), res);

    // neither can a third party
    let msg = ExecuteMsg::OpponentResponse {
        host: "hosty".to_string(),
        opponent: "toasty".to_string(),
        opp_move: GameMove::Paper,
    };
    let res = execute(&mut deps, "somebody_else".to_string(), msg);
    assert_eq!(Err(ContractError::Unauthorized {}), res);

    // the game is still pending afterwards
    let res = query(
        &deps,
        QueryMsg::GetGameByHostAndOpponent {
            host: "hosty".to_string(),
            opponent: "toasty".to_string(),
        },
    );
    assert!(res.is_ok());
}

#[test]
fn response_without_game_fails() {
    let mut deps = Contract::new();
    let msg = InstantiateMsg {
        admin: "creator".to_string(),
    };
    instantiate(&mut deps, "creator".to_string(), msg).unwrap();

    let msg = ExecuteMsg::OpponentResponse {
        host: "hosty".to_string(),
        opponent: "toasty".to_string(),
        opp_move: GameMove::Rock,
    };
    let res = execute(&mut deps, "toasty".to_string(), msg);
    assert_eq!(Err(ContractError::NoGameFound {}), res);
}

#[test]
fn resolved_game_is_gone() {
    let mut deps = Contract::new();
    let msg = InstantiateMsg {
        admin: "creator".to_string(),
    };
    instantiate(&mut deps, "creator".to_string(), msg).unwrap();

    let msg = ExecuteMsg::StartGame {
        opponent: "toasty".to_string(),
        host_move: GameMove::Scissors,
    };
    execute(&mut deps, "hosty".to_string(), msg).unwrap();

    let msg = ExecuteMsg::OpponentResponse {
        host: "hosty".to_string(),
        opponent: "toasty".to_string(),
        opp_move: GameMove::Rock,
    };
    let res = execute(&mut deps, "toasty".to_string(), msg).unwrap();
    assert_eq!("result", res.attributes[3].key);
    assert_eq!("Opponent Wins", res.attributes[3].value);

    // the pair can be challenged again right away
    let msg = ExecuteMsg::StartGame {
        opponent: "toasty".to_string(),
        host_move: GameMove::Paper,
    };
    execute(&mut deps, "hosty".to_string(), msg).unwrap();
}

#[test]
fn blacklist_mutation_is_idempotent() {
    let mut deps = Contract::new();
    let msg = InstantiateMsg {
        admin: "creator".to_string(),
    };
    instantiate(&mut deps, "creator".to_string(), msg).unwrap();

    // adding the same address twice is not an error
    for _ in 0..2 {
        let msg = ExecuteMsg::AddToBlacklist {
            address: "bad_guy".to_string(),
        };
        execute(&mut deps, "creator".to_string(), msg).unwrap();
    }

    // one removal suffices, and removing again is a no-op
    for _ in 0..2 {
        let msg = ExecuteMsg::RemoveFromBlacklist {
            address: "bad_guy".to_string(),
        };
        execute(&mut deps, "creator".to_string(), msg).unwrap();
    }

    let msg = ExecuteMsg::StartGame {
        opponent: "other_player".to_string(),
        host_move: GameMove::Rock,
    };
    execute(&mut deps, "bad_guy".to_string(), msg).unwrap();
}

#[test]
fn blacklist_mutation_requires_admin() {
    let mut deps = Contract::new();
    let msg = InstantiateMsg {
        admin: "creator".to_string(),
    };
    instantiate(&mut deps, "creator".to_string(), msg).unwrap();

    let msg = ExecuteMsg::AddToBlacklist {
        address: "bad_guy".to_string(),
    };
    let res = execute(&mut deps, "not_admin".to_string(), msg);
    assert_eq!(Err(ContractError::Unauthorized {}), res);

    let msg = ExecuteMsg::RemoveFromBlacklist {
        address: "bad_guy".to_string(),
    };
    let res = execute(&mut deps, "not_admin".to_string(), msg);
    assert_eq!(Err(ContractError::Unauthorized {}), res);
}

#[test]
fn old_admin_loses_capability() {
    let mut deps = Contract::new();
    let msg = InstantiateMsg {
        admin: "creator".to_string(),
    };
    instantiate(&mut deps, "creator".to_string(), msg).unwrap();

    let msg = ExecuteMsg::UpdateAdmin {
        admin: "other_admin".to_string(),
    };
    execute(&mut deps, "creator".to_string(), msg).unwrap();

    // the former admin may no longer mutate the blacklist
    let msg = ExecuteMsg::AddToBlacklist {
        address: "bad_guy".to_string(),
    };
    let res = execute(&mut deps, "creator".to_string(), msg);
    assert_eq!(Err(ContractError::Unauthorized {}), res);

    // the new admin may
    let msg = ExecuteMsg::AddToBlacklist {
        address: "bad_guy".to_string(),
    };
    execute(&mut deps, "other_admin".to_string(), msg).unwrap();
}

#[test]
fn scan_by_host_orders_by_opponent() {
    let mut deps = Contract::new();
    let msg = InstantiateMsg {
        admin: "creator".to_string(),
    };
    instantiate(&mut deps, "creator".to_string(), msg).unwrap();

    // insert out of order; opponents compare as plain byte strings
    for opp in ["z_player", "ab_player", "a_player"] {
        let msg = ExecuteMsg::StartGame {
            opponent: opp.to_string(),
            host_move: GameMove::Rock,
        };
        execute(&mut deps, "hosty".to_string(), msg).unwrap();
    }

    let res = query(
        &deps,
        QueryMsg::GetGamesByHost {
            host: "hosty".to_string(),
        },
    )
    .unwrap();
    let list = match res {
        QueryAnswer::Games(list) => list,
        _ => panic!("expected a games list"),
    };
    assert_eq!(3, list.games.len());
    assert_eq!("a_player", list.games[0].opponent);
    assert_eq!("ab_player", list.games[1].opponent);
    assert_eq!("z_player", list.games[2].opponent);
}

#[test]
fn scan_by_opponent_orders_by_stored_key() {
    let mut deps = Contract::new();
    let msg = InstantiateMsg {
        admin: "creator".to_string(),
    };
    instantiate(&mut deps, "creator".to_string(), msg).unwrap();

    // the stored key length-prefixes the host, so shorter hosts come first
    for host in ["cc", "a", "bbb"] {
        let msg = ExecuteMsg::StartGame {
            opponent: "other_player".to_string(),
            host_move: GameMove::Rock,
        };
        execute(&mut deps, host.to_string(), msg).unwrap();
    }

    let res = query(
        &deps,
        QueryMsg::GetGamesByOpponent {
            opponent: "other_player".to_string(),
        },
    )
    .unwrap();
    let list = match res {
        QueryAnswer::Games(list) => list,
        _ => panic!("expected a games list"),
    };
    assert_eq!(3, list.games.len());
    assert_eq!("a", list.games[0].host);
    assert_eq!("cc", list.games[1].host);
    assert_eq!("bbb", list.games[2].host);
}

#[test]
fn error_texts() {
    assert_eq!("Unauthorized", ContractError::Unauthorized {}.text());
    assert_eq!(
        "Only One Game At A Time For The Same Host And Opponent",
        ContractError::OneGameAtATime {}.text()
    );
    assert_eq!("No Game Found", ContractError::NoGameFound {}.text());
    assert_eq!(
        "Given Address Already Registered On The Blacklist",
        ContractError::OnTheBlacklist {}.text()
    );
    assert_eq!(
        "Given Address Is Not Registered On The Blacklist",
        ContractError::NotOnTheBlacklist {}.text()
    );
    assert_eq!("Caller is not admin", ContractError::NotAdmin {}.text());
}

#[test]
fn self_challenge_is_allowed() {
    // no self-play restriction exists: a host may challenge itself
    let mut deps = Contract::new();
    let msg = InstantiateMsg {
        admin: "creator".to_string(),
    };
    instantiate(&mut deps, "creator".to_string(), msg).unwrap();

    let msg = ExecuteMsg::StartGame {
        opponent: "creator".to_string(),
        host_move: GameMove::Rock,
    };
    execute(&mut deps, "creator".to_string(), msg).unwrap();

    let msg = ExecuteMsg::OpponentResponse {
        host: "creator".to_string(),
        opponent: "creator".to_string(),
        opp_move: GameMove::Paper,
    };
    let res = execute(&mut deps, "creator".to_string(), msg).unwrap();
    assert_eq!("Opponent Wins", res.attributes[3].value);
}

#[test]
fn state_round_trips_through_parts() {
    let mut deps = Contract::new();
    let msg = InstantiateMsg {
        admin: "creator".to_string(),
    };
    instantiate(&mut deps, "creator".to_string(), msg).unwrap();

    let msg = ExecuteMsg::AddToBlacklist {
        address: "bad_guy".to_string(),
    };
    execute(&mut deps, "creator".to_string(), msg).unwrap();

    for host in ["hosty", "other_host"] {
        let msg = ExecuteMsg::StartGame {
            opponent: "toasty".to_string(),
            host_move: GameMove::Paper,
        };
        execute(&mut deps, host.to_string(), msg).unwrap();
    }

    // extract the recorded parts and rebuild, as an exterior reloading
    // persisted state would
    let rebuilt = Contract::from_parts(
        deps.config.clone(),
        deps.gate.get_admin(),
        deps.gate.entries(),
        deps.store.scan_all(),
    )
    .unwrap();

    let admin = match query(&rebuilt, QueryMsg::GetAdmin {}).unwrap() {
        QueryAnswer::Admin(a) => a,
        _ => panic!("expected the admin"),
    };
    assert_eq!(Some("creator".to_string()), admin);

    let res = query(
        &rebuilt,
        QueryMsg::GetGamesByOpponent {
            opponent: "toasty".to_string(),
        },
    )
    .unwrap();
    let list = match res {
        QueryAnswer::Games(list) => list,
        _ => panic!("expected a games list"),
    };
    assert_eq!(2, list.games.len());
    assert_eq!("hosty", list.games[0].host);
    assert_eq!("other_host", list.games[1].host);

    // the blacklist came back too
    let msg = ExecuteMsg::StartGame {
        opponent: "toasty".to_string(),
        host_move: GameMove::Rock,
    };
    let mut rebuilt = rebuilt;
    let res = execute(&mut rebuilt, "bad_guy".to_string(), msg);
    assert_eq!(Err(ContractError::OnTheBlacklist {}), res);
}

#[test]
fn reload_rejects_malformed_records() {
    let pending_game = Game {
        host: "hosty".to_string(),
        opponent: "toasty".to_string(),
        host_move: GameMove::Rock,
        opp_move: None,
        result: None,
    };

    // two records sharing a (host, opponent) key cannot be reloaded
    let r = Contract::from_parts(
        None,
        None,
        Vec::new(),
        vec![pending_game.clone(), pending_game.clone()],
    );
    assert!(r.is_none());

    // a record that is not pending cannot be reloaded
    let resolved_game = Game {
        host: "hosty".to_string(),
        opponent: "toasty".to_string(),
        host_move: GameMove::Rock,
        opp_move: Some(GameMove::Paper),
        result: Some(GameResult::OpponentWins),
    };
    let r = Contract::from_parts(None, None, Vec::new(), vec![resolved_game]);
    assert!(r.is_none());

    // a single pending record reloads fine
    let r = Contract::from_parts(None, None, Vec::new(), vec![pending_game]);
    assert!(r.is_some());
}
