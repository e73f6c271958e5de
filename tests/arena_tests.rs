use icfp2017::arena::{collect_stats, ranks, run_internal_battle, sample_battle, seat_order, ArenaStats, Battle, PunterScore};
use icfp2017::bot::{InternalBot, OfflineBot};
use icfp2017::game::Strategy;
use icfp2017::play::{handshake, offline_gameplay, offline_setup, offline_stop, online_gameplay, online_setup, online_stop};
use icfp2017::prelude::PunterError;
use icfp2017::protocol::{
    OfflineGamePlayPS, Claim, GameMap, Move, Moves, OfflineGamePlaySP, OfflineScoringSP, OnlineGameplaySP, OnlineScoringSP, River, Scores,
    Settings, SetupSP, Site,
};

fn map_of(sites: &[u64], rivers: &[(u64, u64)], mines: &[u64]) -> GameMap {
    GameMap {
        sites: sites.iter().map(|&id| Site { id }).collect(),
        rivers: rivers.iter().map(|&(source, target)| River { source, target }).collect(),
        mines: mines.to_vec(),
    }
}

/// Two mines, five rivers.
fn small_map() -> GameMap {
    map_of(&[0, 1, 2, 3, 4], &[(0, 1), (1, 2), (2, 3), (3, 4), (0, 2)], &[0, 4])
}

fn no_settings() -> Settings {
    Settings { futures: None, splurge: None, options: None }
}

#[test]
fn ranks_share_equal_scores_and_put_the_best_first() {
    assert_eq!(ranks(&vec![10, 30, 20]), vec![3, 1, 2]);
    assert_eq!(ranks(&vec![5, 5, 1]), vec![1, 1, 3]);
    assert_eq!(ranks(&vec![-3]), vec![1]);
    assert_eq!(ranks(&vec![]), Vec::<usize>::new());
}

#[test]
fn edge_weight_battle_on_a_small_map() {
    let strategies = vec![Strategy::EdgeWeight, Strategy::EdgeWeight];
    let o = run_internal_battle(small_map(), no_settings(), &strategies).unwrap();
    assert_eq!(o.len(), 2);
    assert_eq!(o.iter().map(|x| x.move_count).sum::<u64>(), 5);
    assert_eq!(o[0].move_count, 3);
    assert_eq!(o[1].move_count, 2);
    for a in o.iter() {
        for b in o.iter() {
            if a.score > b.score {
                assert!(a.point < b.point);
            }
            if a.score == b.score {
                assert_eq!(a.point, b.point);
            }
        }
    }
    // The same battle again gives the same result.
    let again = run_internal_battle(small_map(), no_settings(), &strategies).unwrap();
    assert_eq!(o, again);
}

#[test]
fn battle_needs_punters_and_a_valid_map() {
    assert!(run_internal_battle(small_map(), no_settings(), &vec![]).is_none());
    let bad = map_of(&[0, 1], &[(0, 7)], &[0]);
    assert!(run_internal_battle(bad, no_settings(), &vec![Strategy::Stupid]).is_none());
}

#[test]
fn stupid_bots_claim_rivers_in_order() {
    let map = map_of(&[0, 1, 2], &[(0, 1), (1, 2)], &[0]);
    let o = run_internal_battle(map, no_settings(), &vec![Strategy::Stupid, Strategy::Stupid]).unwrap();
    // Punter 0 takes 0-1 (1 point), punter 1 takes 1-2, which the mine does not reach.
    assert_eq!((o[0].score, o[0].point), (1, 1));
    assert_eq!((o[1].score, o[1].point), (0, 2));
}

#[test]
fn battle_steps_turn_by_turn() {
    let mut b = Battle::new(small_map(), no_settings(), 2).unwrap();
    assert_eq!(b.punters(), 2);
    let s = b.setup_request(1);
    assert_eq!((s.punter, s.punters), (1, 2));
    let mut turns = 0;
    while !b.is_over() {
        let cur = b.current_punter();
        assert_eq!(cur, turns % 2);
        let request = b.gameplay_request();
        assert_eq!(request.moves.moves.len(), 2);
        // Every bot fails: each turn counts as a pass.
        b.record_reply(Err(PunterError::Io));
        turns += 1;
    }
    assert_eq!(turns, 5);
    assert_eq!(b.stop_order(), vec![1, 0]);
    assert_eq!(b.scores(), vec![0, 0]);
    let o = b.outcomes();
    assert_eq!((o[0].move_count, o[1].move_count), (3, 2));
    assert_eq!((o[0].point, o[1].point), (1, 1));
    assert!(Battle::new(small_map(), no_settings(), 0).is_none());
}

#[test]
fn statistics_are_kept_per_bot_name() {
    let mut stats = ArenaStats::new();
    let result = |name: &str, point, score, move_count| PunterScore {
        bot_name: name.to_string(),
        point,
        score,
        move_count,
        consumed_time: 10,
    };
    stats.add(result("a", 1, 50, 3));
    stats.add(result("b", 2, 20, 2));
    stats.add(result("a", 2, 10, 4));
    assert_eq!(stats.stats.len(), 2);
    let a = stats.get("a").unwrap();
    assert_eq!(a.point, vec![1, 2]);
    assert_eq!(a.score, vec![50, 10]);
    assert_eq!(a.move_count, 7);
    assert_eq!(a.consumed_time, 20);
    assert!(stats.get("c").is_none());
}

#[test]
fn statistics_do_not_depend_on_the_order_of_battles() {
    let results = vec![("a", 1, 50, 3), ("b", 2, 20, 2), ("a", 2, 10, 4), ("b", 1, 70, 1)];
    let collect = |order: &[usize]| {
        let stats = collect_stats(
            order
                .iter()
                .map(|&i| {
                    let (name, point, score, move_count) = results[i];
                    PunterScore { bot_name: name.to_string(), point, score, move_count, consumed_time: 1 }
                })
                .collect(),
        );
        let mut a = stats.get("a").unwrap().clone();
        let mut b = stats.get("b").unwrap().clone();
        a.score.sort();
        a.point.sort();
        b.score.sort();
        b.point.sort();
        (a.score, a.point, a.move_count, b.score, b.point, b.move_count)
    };
    assert_eq!(collect(&[0, 1, 2, 3]), collect(&[3, 2, 1, 0]));
    assert_eq!(collect(&[0, 1, 2, 3]), collect(&[1, 3, 0, 2]));
}

#[test]
fn sample_battle_records_both_bots_under_one_name() {
    let stats = sample_battle(small_map()).unwrap();
    let s = stats.get("EdgeWeight").unwrap();
    assert_eq!(s.score.len(), 2);
    assert_eq!(s.move_count, 5);
}

#[test]
fn internal_bot_plays_after_setup() {
    let mut bot = InternalBot::new(Strategy::Stupid);
    assert_eq!(bot.name(), "Stupid");
    let request = OfflineGamePlaySP { moves: Moves { moves: vec![] }, state: None };
    assert!(matches!(bot.play(request), Err(PunterError::NotSetUp)));
    let setup = SetupSP { punter: 1, punters: 2, map: small_map(), settings: None };
    let reply = bot.setup(setup).unwrap();
    assert_eq!(reply.ready, 1);
    let moves = vec![Move::Claim { claim: Claim { punter: 0, source: 0, target: 1 } }];
    let reply = bot.play(OfflineGamePlaySP { moves: Moves { moves }, state: None }).unwrap();
    let (m, state) = reply.into_parts();
    assert!(state.is_none());
    match m {
        Move::Claim { claim } => assert_eq!((claim.punter, claim.source, claim.target), (1, 1, 2)),
        other => panic!("unexpected {:?}", other),
    }
    assert_eq!(InternalBot::new(Strategy::EdgeWeight).name(), "EdgeWeight");
    assert_eq!(OfflineBot::new("./bot".to_string()).program, "./bot");
}

#[test]
fn offline_punter_carries_its_game_in_the_state() {
    assert_eq!(handshake().me, "hayatox");
    let setup = SetupSP { punter: 0, punters: 2, map: small_map(), settings: None };
    let reply = offline_setup(setup).unwrap();
    assert_eq!(reply.ready, 0);
    assert!(reply.futures.is_none());
    let state = reply.state.unwrap();
    let moves = vec![Move::Claim { claim: Claim { punter: 1, source: 3, target: 4 } }];
    let r = offline_gameplay(OfflineGamePlaySP { moves: Moves { moves }, state: Some(state.clone()) }, Strategy::Stupid).unwrap();
    let (m, next) = r.into_parts();
    match m {
        Move::Claim { claim } => assert_eq!((claim.punter, claim.source, claim.target), (0, 0, 1)),
        other => panic!("unexpected {:?}", other),
    }
    let next = next.unwrap();
    assert_ne!(next, state);
    let stop = OfflineScoringSP { stop: Scores { moves: vec![], scores: vec![] }, state: Some(next) };
    let game = offline_stop(stop).unwrap();
    assert_eq!(game.score(0), 1);
    assert_eq!(game.score(1), 1);
    let missing = OfflineGamePlaySP { moves: Moves { moves: vec![] }, state: None };
    assert!(matches!(offline_gameplay(missing, Strategy::Stupid), Err(PunterError::NotSetUp)));
    let garbage = OfflineGamePlaySP { moves: Moves { moves: vec![] }, state: Some("%%".to_string()) };
    assert!(matches!(offline_gameplay(garbage, Strategy::Stupid), Err(PunterError::Json)));
}

#[test]
fn online_punter_keeps_its_game() {
    let setup = SetupSP { punter: 1, punters: 2, map: small_map(), settings: Some(Settings { futures: Some(true), splurge: None, options: None }) };
    let (mut game, reply) = online_setup(setup).unwrap();
    assert_eq!(reply.ready, 1);
    assert_eq!(reply.futures.unwrap().len(), 2);
    let request = OnlineGameplaySP { move_: Moves { moves: vec![Move::Claim { claim: Claim { punter: 0, source: 0, target: 1 } }] } };
    let m = online_gameplay(&mut game, request, Strategy::Stupid);
    assert!(m.claimed_by(1));
    online_stop(&mut game, OnlineScoringSP { stop: Scores { moves: vec![], scores: vec![] } });
    let bad = SetupSP { punter: 0, punters: 2, map: map_of(&[0], &[(0, 1)], &[0]), settings: None };
    assert!(matches!(online_setup(bad), Err(PunterError::InvalidMap)));
}

#[test]
fn collected_statistics_keep_arrival_order() {
    let results = vec![("x", 2, 7, 1), ("y", 1, 9, 2), ("x", 1, 8, 3)]
        .into_iter()
        .map(|(name, point, score, move_count)| PunterScore { bot_name: name.to_string(), point, score, move_count, consumed_time: 5 })
        .collect();
    let stats = collect_stats(results);
    assert_eq!(stats.stats.len(), 2);
    assert_eq!(stats.stats[0].0, "x");
    let x = stats.get("x").unwrap();
    assert_eq!((x.point.clone(), x.score.clone(), x.move_count), (vec![2, 1], vec![7, 8], 4));
    let y = stats.get("y").unwrap();
    assert_eq!((y.point.clone(), y.score.clone(), y.move_count), (vec![1], vec![9], 2));
}

#[test]
fn move_counts_are_capped_at_the_largest_u64() {
    let mut stats = ArenaStats::new();
    for _ in 0..2 {
        stats.add(PunterScore { bot_name: "a".to_string(), point: 1, score: 0, move_count: u64::MAX - 1, consumed_time: u64::MAX });
    }
    let a = stats.get("a").unwrap();
    assert_eq!(a.move_count, u64::MAX);
    assert_eq!(a.consumed_time, u64::MAX);
}

#[test]
fn seat_order_is_a_permutation() {
    for n in 0..6 {
        let mut seats = seat_order(n);
        seats.sort();
        assert_eq!(seats, (0..n).collect::<Vec<_>>());
    }
}

#[test]
fn a_move_in_another_punters_name_counts_as_a_pass() {
    let mut b = Battle::new(small_map(), no_settings(), 2).unwrap();
    // Seat 0 replies with a claim made in the name of punter 1.
    let forged = OfflineGamePlayPS::Claim { claim: Claim { punter: 1, source: 0, target: 1 }, state: None };
    b.record_reply(Ok(forged));
    assert_eq!(b.scores(), vec![0, 0]);
    let request = b.gameplay_request();
    assert!(matches!(request.moves.moves[0], Move::Pass { .. }));
    // An honest claim is applied.
    let honest = OfflineGamePlayPS::Claim { claim: Claim { punter: 1, source: 0, target: 1 }, state: None };
    b.record_reply(Ok(honest));
    assert_eq!(b.scores(), vec![0, 1]);
}

#[test]
fn internal_bot_announces_futures_when_they_are_on() {
    let mut bot = InternalBot::new(Strategy::EdgeWeight);
    let settings = Settings { futures: Some(true), splurge: None, options: None };
    let reply = bot.setup(SetupSP { punter: 0, punters: 2, map: small_map(), settings: Some(settings) }).unwrap();
    let futures = reply.futures.unwrap();
    assert_eq!(futures.len(), 2);
    assert_eq!((futures[0].source, futures[0].target), (0, 1));
    assert_eq!((futures[1].source, futures[1].target), (4, 2));
    let mut plain = InternalBot::new(Strategy::EdgeWeight);
    assert!(plain.setup(SetupSP { punter: 0, punters: 2, map: small_map(), settings: None }).unwrap().futures.is_none());
}

#[test]
fn collected_statistics_add_up_the_time() {
    let results = vec![("x", 10), ("y", 5), ("x", 7)]
        .into_iter()
        .map(|(name, t)| PunterScore { bot_name: name.to_string(), point: 1, score: 0, move_count: 1, consumed_time: t })
        .collect();
    let stats = collect_stats(results);
    assert_eq!(stats.get("x").unwrap().consumed_time, 17);
    assert_eq!(stats.get("y").unwrap().consumed_time, 5);
}
