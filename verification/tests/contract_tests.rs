use rps_dapp::contract::{execute, instantiate, query, Contract};
use rps_dapp::error::ContractError;
use rps_dapp::msg::{ExecuteMsg, InstantiateMsg, QueryAnswer, QueryMsg};
use rps_dapp::state::GameMove;

#[test]
fn proper_initialization() {
    let mut deps = Contract::new();

    let msg = InstantiateMsg {
        admin: "creator".to_string(),
    };
    let res = instantiate(&mut deps, "creator".to_string(), msg).unwrap();

    //confirm instantiation response
    assert_eq!("owner", res.attributes[1].key);
    assert_eq!("creator", res.attributes[1].value);
}

#[test]
fn start_game() {
    let mut deps = Contract::new();

    let msg = InstantiateMsg {
        admin: "creator".to_string(),
    };
    let res = instantiate(&mut deps, "creator".to_string(), msg).unwrap();

    //confirm instantiation response
    assert_eq!("owner", res.attributes[1].key);
    assert_eq!("creator", res.attributes[1].value);

    // execute start game
    let msg = ExecuteMsg::StartGame {
        opponent: "other_player".to_string(),
        host_move: GameMove::Rock,
    };

    let res = execute(&mut deps, "creator".to_string(), msg).unwrap();

    assert_eq!("method", res.attributes[0].key);
    assert_eq!("try_start_game", res.attributes[0].value);
    assert_eq!("host", res.attributes[1].key);
    assert_eq!("creator", res.attributes[1].value);
    assert_eq!("opponent", res.attributes[2].key);
    assert_eq!("other_player", res.attributes[2].value);
}

#[test]
fn get_games_by_host() {
    let mut deps = Contract::new();

    let msg = InstantiateMsg {
        admin: "creator".to_string(),
    };
    let res = instantiate(&mut deps, "creator".to_string(), msg).unwrap();

    //confirm instantiation response
    assert_eq!("owner", res.attributes[1].key);
    assert_eq!("creator", res.attributes[1].value);

    // execute start game 1
    let msg = ExecuteMsg::StartGame {
        opponent: "other_player".to_string(),
        host_move: GameMove::Rock,
    };
    let _res = execute(&mut deps, "creator".to_string(), msg).unwrap();

    // execute start game 2
    let msg = ExecuteMsg::StartGame {
        opponent: "other_player_2".to_string(),
        host_move: GameMove::Rock,
    };
    let _res = execute(&mut deps, "creator".to_string(), msg).unwrap();

    // execute start game 3 - other creator
    let msg = ExecuteMsg::StartGame {
        opponent: "other_player".to_string(),
        host_move: GameMove::Rock,
    };
    let _res = execute(&mut deps, "other_creator".to_string(), msg).unwrap();

    //query game by non-host = zero games found
    let res = query(
        &deps,
        QueryMsg::GetGamesByHost {
            host: "non_host".to_string(),
        },
    )
    .unwrap();
    let value = match res {
        QueryAnswer::Games(list) => list,
        _ => panic!("expected a games list"),
    };
    assert_eq!(0, value.games.len());

    //query game by host = 2 games found
    let res = query(
        &deps,
        QueryMsg::GetGamesByHost {
            host: "creator".to_string(),
        },
    )
    .unwrap();

    let value = match res {
        QueryAnswer::Games(list) => list,
        _ => panic!("expected a games list"),
    };
    assert_eq!(2, value.games.len());
    assert_eq!("creator", value.games[0].host);
    assert_eq!("other_player", value.games[0].opponent);
    assert_eq!(GameMove::Rock, value.games[0].host_move);
    assert_eq!(None, value.games[0].opp_move);
    assert_eq!(None, value.games[0].result);
}

#[test]
fn get_games_by_opp() {
    let mut deps = Contract::new();

    let msg = InstantiateMsg {
        admin: "creator".to_string(),
    };
    let res = instantiate(&mut deps, "creator".to_string(), msg).unwrap();

    //confirm instantiation response
    assert_eq!("owner", res.attributes[1].key);
    assert_eq!("creator", res.attributes[1].value);

    // execute start game 1
    let msg = ExecuteMsg::StartGame {
        opponent: "other_player".to_string(),
        host_move: GameMove::Rock,
    };
    let _res = execute(&mut deps, "creator".to_string(), msg).unwrap();

    // execute start game 2
    let msg = ExecuteMsg::StartGame {
        opponent: "other_player_2".to_string(),
        host_move: GameMove::Rock,
    };
    let _res = execute(&mut deps, "creator".to_string(), msg).unwrap();

    // execute start game 3 - other creator
    let msg = ExecuteMsg::StartGame {
        opponent: "other_player".to_string(),
        host_move: GameMove::Rock,
    };
    let _res = execute(&mut deps, "other_creator".to_string(), msg).unwrap();

    // execute start game 4 - another creator
    let msg = ExecuteMsg::StartGame {
        opponent: "other_player".to_string(),
        host_move: GameMove::Rock,
    };
    let _res = execute(&mut deps, "another_creator".to_string(), msg).unwrap();

    //query game by non-opponent = zero games found
    let res = query(
        &deps,
        QueryMsg::GetGamesByOpponent {
            opponent: "non_opponent".to_string(),
        },
    )
    .unwrap();
    let value = match res {
        QueryAnswer::Games(list) => list,
        _ => panic!("expected a games list"),
    };
    assert_eq!(0, value.games.len());

    //query game by opponent = 3 games found
    let res = query(
        &deps,
        QueryMsg::GetGamesByOpponent {
            opponent: "other_player".to_string(),
        },
    )
    .unwrap();

    let value = match res {
        QueryAnswer::Games(list) => list,
        _ => panic!("expected a games list"),
    };
    assert_eq!(3, value.games.len());
    assert_eq!("creator", value.games[0].host);
    assert_eq!("other_player", value.games[0].opponent);
    assert_eq!(GameMove::Rock, value.games[0].host_move);
    assert_eq!(None, value.games[0].opp_move);
    assert_eq!(None, value.games[0].result);
}

#[test]
fn get_game_by_host_and_opp() {
    let mut deps = Contract::new();

    let msg = InstantiateMsg {
        admin: "creator".to_string(),
    };
    let res = instantiate(&mut deps, "creator".to_string(), msg).unwrap();

    //confirm instantiation response
    assert_eq!("owner", res.attributes[1].key);
    assert_eq!("creator", res.attributes[1].value);

    // execute start game 1
    let msg = ExecuteMsg::StartGame {
        opponent: "other_player".to_string(),
        host_move: GameMove::Rock,
    };
    let _res = execute(&mut deps, "creator".to_string(), msg).unwrap();

    // execute start game 2
    let msg = ExecuteMsg::StartGame {
        opponent: "other_player_2".to_string(),
        host_move: GameMove::Rock,
    };
    let _res = execute(&mut deps, "creator".to_string(), msg).unwrap();

    // execute start game 3 - other creator
    let msg = ExecuteMsg::StartGame {
        opponent: "other_player".to_string(),
        host_move: GameMove::Rock,
    };
    let _res = execute(&mut deps, "other_creator".to_string(), msg).unwrap();

    //query game non-players = zero games found
    let res = query(
        &deps,
        QueryMsg::GetGameByHostAndOpponent {
            host: "non_host".to_string(),
            opponent: "non_opponent".to_string(),
        },
    );

    match res {
        Err(_) => {}
        _ => panic!("Should error out."),
    }

    //query game by host and opponent = 1 game found
    let res = query(
        &deps,
        QueryMsg::GetGameByHostAndOpponent {
            host: "creator".to_string(),
            opponent: "other_player".to_string(),
        },
    )
    .unwrap();

    let value = match res {
        QueryAnswer::Game(g) => g,
        _ => panic!("expected a single game"),
    };
    assert_eq!("creator", value.host);
    assert_eq!("other_player", value.opponent);
    assert_eq!(GameMove::Rock, value.host_move);
    assert_eq!(None, value.opp_move);
    assert_eq!(None, value.result);
}

#[test]
fn update_admin() {
    let mut deps = Contract::new();

    let msg = InstantiateMsg {
        admin: "creator".to_string(),
    };
    let res = instantiate(&mut deps, "creator".to_string(), msg).unwrap();

    //confirm instantiation response
    assert_eq!("owner", res.attributes[1].key);
    assert_eq!("creator", res.attributes[1].value);

    // execute start game 1
    let msg = ExecuteMsg::StartGame {
        opponent: "other_player".to_string(),
        host_move: GameMove::Rock,
    };
    let _res = execute(&mut deps, "creator".to_string(), msg).unwrap();

    //query first admin
    let res = query(&deps, QueryMsg::GetAdmin {}).unwrap();

    let value = match res {
        QueryAnswer::Admin(a) => a,
        _ => panic!("expected the admin"),
    };
    assert_eq!(Some("creator".to_string()), value);

    // update admin - fail
    let msg = ExecuteMsg::UpdateAdmin {
        admin: "other_admin".to_string(),
    };
    let res = execute(&mut deps, "not_admin".to_string(), msg);

    match res {
        Err(_) => {}
        _ => panic!("This is supposed to return a Contract Error"),
    };

    // update admin - success
    let msg = ExecuteMsg::UpdateAdmin {
        admin: "other_admin".to_string(),
    };
    let _res = execute(&mut deps, "creator".to_string(), msg).unwrap();

    //query updated admin
    let res = query(&deps, QueryMsg::GetAdmin {}).unwrap();

    let value = match res {
        QueryAnswer::Admin(a) => a,
        _ => panic!("expected the admin"),
    };
    assert_eq!(Some("other_admin".to_string()), value);
}

#[test]
fn blacklist() {
    let mut deps = Contract::new();

    let msg = InstantiateMsg {
        admin: "creator".to_string(),
    };
    let res = instantiate(&mut deps, "creator".to_string(), msg).unwrap();

    //confirm instantiation response
    assert_eq!("owner", res.attributes[1].key);
    assert_eq!("creator", res.attributes[1].value);

    // add address to blacklist
    let msg = ExecuteMsg::AddToBlacklist {
        address: "bad_guy".to_string(),
    };
    let _res = execute(&mut deps, "creator".to_string(), msg).unwrap();

    // execute start game - fail because host is blacklisted
    let msg = ExecuteMsg::StartGame {
        opponent: "other_player".to_string(),
        host_move: GameMove::Rock,
    };
    let res = execute(&mut deps, "bad_guy".to_string(), msg);

    match res {
        Err(ContractError::OnTheBlacklist {}) => {}
        _ => panic!("OnTheBlacklist error should occur"),
    };

    // remove address from blacklist
    let msg = ExecuteMsg::RemoveFromBlacklist {
        address: "bad_guy".to_string(),
    };
    let _res = execute(&mut deps, "creator".to_string(), msg).unwrap();

    // execute start game - success because host has been removed from blacklist
    let msg = ExecuteMsg::StartGame {
        opponent: "other_player".to_string(),
        host_move: GameMove::Rock,
    };
    let _res = execute(&mut deps, "bad_guy".to_string(), msg).unwrap();

    //query game by host and opponent = 1 game found
    let res = query(
        &deps,
        QueryMsg::GetGameByHostAndOpponent {
            host: "bad_guy".to_string(),
            opponent: "other_player".to_string(),
        },
    )
    .unwrap();

    let value = match res {
        QueryAnswer::Game(g) => g,
        _ => panic!("expected a single game"),
    };
    assert_eq!("bad_guy", value.host);
    assert_eq!("other_player", value.opponent);
    assert_eq!(GameMove::Rock, value.host_move);
    assert_eq!(None, value.opp_move);
    assert_eq!(None, value.result);
}

#[test]
fn full_game() {
    let mut deps = Contract::new();

    let msg = InstantiateMsg {
        admin: "creator".to_string(),
    };
    let res = instantiate(&mut deps, "creator".to_string(), msg).unwrap();

    //confirm instantiation response
    assert_eq!("owner", res.attributes[1].key);
    assert_eq!("creator", res.attributes[1].value);

    // execute start game
    let msg = ExecuteMsg::StartGame {
        opponent: "toasty".to_string(),
        host_move: GameMove::Rock,
    };

    let res = execute(&mut deps, "hosty".to_string(), msg).unwrap();
    assert_eq!("host", res.attributes[1].key);
    assert_eq!("hosty", res.attributes[1].value);
    assert_eq!("opponent", res.attributes[2].key);
    assert_eq!("toasty", res.attributes[2].value);

    // execute opponent reponse
    let msg = ExecuteMsg::OpponentResponse {
        host: "hosty".to_string(),
        opponent: "toasty".to_string(),
        opp_move: GameMove::Rock,
    };

    let res = execute(&mut deps, "toasty".to_string(), msg).unwrap();

    assert_eq!("result", res.attributes[3].key);
    assert_eq!("Tie", res.attributes[3].value);

    //query for game - fail
    let res = query(
        &deps,
        QueryMsg::GetGameByHostAndOpponent {
            host: "hosty".to_string(),
            opponent: "toasty".to_string(),
        },
    );
    //confirms game data was deleted
    match res {
        Err(_) => {}
        _ => panic!("No Game Found Error should occur"),
    }
}
