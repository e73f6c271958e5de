use icfp2017::edge::{Claimed, Edge, EdgeClaim};
use icfp2017::game::{Game, Strategy};
use icfp2017::protocol::{Claim, GameMap, Move, Pass, River, Settings, SetupSP, Site, Splurge};

fn map_of(sites: &[u64], rivers: &[(u64, u64)], mines: &[u64]) -> GameMap {
    GameMap {
        sites: sites.iter().map(|&id| Site { id }).collect(),
        rivers: rivers.iter().map(|&(source, target)| River { source, target }).collect(),
        mines: mines.to_vec(),
    }
}

fn setup_of(punter: usize, punters: usize, map: GameMap) -> SetupSP {
    SetupSP { punter, punters, map, settings: None }
}

/// The sample map of the contest: eight sites, twelve rivers, two mines.
fn sample_map() -> GameMap {
    map_of(
        &[4, 1, 3, 6, 5, 0, 7, 2],
        &[(3, 4), (0, 1), (2, 3), (1, 3), (5, 6), (4, 5), (3, 5), (6, 7), (5, 7), (1, 7), (0, 7), (1, 2)],
        &[1, 5],
    )
}

fn claim(punter: usize, source: u64, target: u64) -> Move {
    Move::Claim { claim: Claim { punter, source, target } }
}

fn option(punter: usize, source: u64, target: u64) -> Move {
    Move::Option_ { option: Claim { punter, source, target } }
}

#[test]
fn claim_state_transitions() {
    let cases = [
        (Claimed::NotYet, 1, false, Ok(()), Claimed::Claimed(1)),
        (Claimed::NotYet, 1, true, Ok(()), Claimed::Claimed(1)),
        (Claimed::Claimed(0), 1, false, Err(()), Claimed::Claimed(0)),
        (Claimed::Claimed(0), 1, true, Ok(()), Claimed::Optioned(0, 1)),
        (Claimed::Claimed(1), 1, true, Err(()), Claimed::Claimed(1)),
        (Claimed::Claimed(1), 1, false, Err(()), Claimed::Claimed(1)),
        (Claimed::Optioned(0, 1), 2, false, Err(()), Claimed::Optioned(0, 1)),
        (Claimed::Optioned(0, 1), 2, true, Err(()), Claimed::Optioned(0, 1)),
        (Claimed::Optioned(0, 1), 0, true, Err(()), Claimed::Optioned(0, 1)),
    ];
    for (start, me, is_option, result, end) in cases.iter().cloned() {
        let mut c = start;
        assert_eq!(c.claim(me, is_option), result);
        assert_eq!(c, end);
        assert_eq!(start.is_empty(), start == Claimed::NotYet);
    }
}

#[test]
fn edge_claim_is_discarded_when_refused() {
    let mut e = Edge { source: 0, target: 1, claimed: Claimed::Claimed(3) };
    e.claim(4, false);
    assert_eq!(e.claimed, Claimed::Claimed(3));
    e.claim(4, true);
    assert_eq!(e.claimed, Claimed::Optioned(3, 4));
    assert!(!e.is_empty());
}

#[test]
fn edge_claim_orders_its_ends() {
    assert_eq!(EdgeClaim::new(2, 7, 3), EdgeClaim { punter: 2, source: 3, target: 7 });
    assert_eq!(EdgeClaim::new(2, 3, 7), EdgeClaim { punter: 2, source: 3, target: 7 });
}

#[test]
fn nodes_are_numbered_by_increasing_site_id() {
    let g = Game::from(setup_of(0, 2, sample_map())).unwrap();
    assert_eq!(g.node_count(), 8);
    for i in 0..8 {
        assert_eq!(g.node_to_site_id(i), i as u64);
    }
    let g = Game::from(setup_of(0, 2, map_of(&[30, 10, 20], &[(30, 10)], &[20]))).unwrap();
    assert_eq!(g.node_to_site_id(0), 10);
    assert_eq!(g.node_to_site_id(2), 30);
    assert_eq!(g.edges()[0], Edge { source: 0, target: 2, claimed: Claimed::NotYet });
}

#[test]
fn node_numbering_ignores_site_order() {
    let a = Game::from(setup_of(0, 2, sample_map())).unwrap();
    let mut permuted = sample_map();
    permuted.sites.reverse();
    permuted.sites.swap(0, 3);
    let b = Game::from(setup_of(0, 2, permuted)).unwrap();
    for i in 0..8 {
        assert_eq!(a.node_to_site_id(i), b.node_to_site_id(i));
    }
    assert_eq!(a.edges(), b.edges());
}

#[test]
fn invalid_maps_are_refused() {
    assert!(Game::from(setup_of(0, 2, map_of(&[1, 2], &[(1, 3)], &[1]))).is_none());
    assert!(Game::from(setup_of(0, 2, map_of(&[1, 2], &[(1, 2)], &[5]))).is_none());
    assert!(Game::from(setup_of(0, 2, map_of(&[1, 2], &[(2, 2)], &[1]))).is_none());
    assert!(Game::from(setup_of(0, 2, map_of(&[], &[], &[]))).is_some());
}

#[test]
fn distances_from_a_mine() {
    // 10 - 20 - 30 - 40 - 10, and 50 alone.
    let g = Game::from(setup_of(0, 1, map_of(&[50, 40, 30, 20, 10], &[(10, 20), (20, 30), (30, 40), (10, 40)], &[10]))).unwrap();
    assert_eq!(g.distance(0, 0), Some(0));
    assert_eq!(g.distance(0, 1), Some(1));
    assert_eq!(g.distance(0, 2), Some(2));
    assert_eq!(g.distance(0, 3), Some(1));
    assert_eq!(g.distance(0, 4), None);
}

#[test]
fn distances_on_the_sample_map() {
    let g = Game::from(setup_of(0, 2, sample_map())).unwrap();
    let from_1 = [Some(1), Some(0), Some(1), Some(1), Some(2), Some(2), Some(2), Some(1)];
    let from_5 = [Some(2), Some(2), Some(2), Some(1), Some(1), Some(0), Some(1), Some(1)];
    for v in 0..8 {
        assert_eq!(g.distance(0, v), from_1[v]);
        assert_eq!(g.distance(1, v), from_5[v]);
    }
}

#[test]
fn score_counts_squared_distances_of_connected_sites() {
    let mut g = Game::from(setup_of(0, 2, sample_map())).unwrap();
    g.apply_move(claim(0, 1, 3));
    g.apply_move(claim(0, 3, 4));
    // Mine 1 reaches 3 (distance 1) and 4 (distance 2); mine 5 reaches nothing.
    assert_eq!(g.score(0), 5);
    assert_eq!(g.score(1), 0);
    g.apply_move(claim(0, 4, 5));
    // Now both mines are connected: 0+1+4+4 from mine 1, 0+1+1+4 from mine 5.
    assert_eq!(g.score(0), 15);
}

#[test]
fn claims_of_missing_or_taken_rivers_change_nothing() {
    let mut g = Game::from(setup_of(0, 2, sample_map())).unwrap();
    g.apply_move(claim(1, 0, 5));
    g.apply_move(claim(1, 0, 99));
    assert!(g.edges().iter().all(|e| e.claimed == Claimed::NotYet));
    g.apply_move(claim(1, 3, 1));
    g.apply_move(claim(0, 1, 3));
    assert_eq!(g.score(0), 0);
    assert_eq!(g.score(1), 1);
    g.apply_move(option(0, 1, 3));
    assert_eq!(g.score(0), 1);
    assert_eq!(g.edges()[3].claimed, Claimed::Optioned(1, 0));
}

#[test]
fn splurge_claims_each_step_of_its_route() {
    let mut g = Game::from(setup_of(0, 2, sample_map())).unwrap();
    g.apply_move(Move::Splurge { splurge: Splurge { punter: 1, route: vec![1, 3, 4, 5] } });
    assert_eq!(g.score(1), 15);
    g.apply_move(Move::Pass { pass: Pass { punter: 0 } });
    assert_eq!(g.score(1), 15);
}

#[test]
fn moves_of_our_own_punter_are_skipped() {
    let mut g = Game::from(setup_of(0, 2, sample_map())).unwrap();
    g.apply_moves_excluding_me(vec![claim(0, 1, 3), claim(1, 3, 4)]);
    assert_eq!(g.score(0), 0);
    assert_eq!(g.score(1), 0);
    assert_eq!(g.edges()[0].claimed, Claimed::Claimed(1));
    assert_eq!(g.edges()[3].claimed, Claimed::NotYet);
}

#[test]
fn stupid_strategy_takes_the_first_free_river() {
    let mut g = Game::from(setup_of(1, 2, sample_map())).unwrap();
    g.apply_move(claim(0, 3, 4));
    match g.play(Strategy::Stupid) {
        Move::Claim { claim } => assert_eq!((claim.punter, claim.source, claim.target), (1, 0, 1)),
        other => panic!("unexpected {:?}", other),
    }
}

#[test]
fn edge_weight_strategy_takes_the_river_that_most_hangs_on() {
    // A path 0 - 1 - 2 with its mine at 0: the first river carries 1 + 4.
    let g = Game::from(setup_of(0, 2, map_of(&[0, 1, 2], &[(1, 2), (0, 1)], &[0]))).unwrap();
    let c = g.play_edge_weight().unwrap();
    assert_eq!(c, EdgeClaim { punter: 0, source: 0, target: 1 });
    match g.play(Strategy::EdgeWeight) {
        Move::Claim { claim } => assert_eq!((claim.punter, claim.source, claim.target), (0, 0, 1)),
        other => panic!("unexpected {:?}", other),
    }
}

#[test]
fn edge_weight_strategy_without_weight_takes_the_first_free_river() {
    // The mine has no river: every weight is zero.
    let g = Game::from(setup_of(0, 2, map_of(&[0, 1, 2, 3], &[(2, 3), (1, 2)], &[0]))).unwrap();
    assert_eq!(g.play_edge_weight(), Some(EdgeClaim { punter: 0, source: 2, target: 3 }));
}

#[test]
fn a_punter_passes_when_every_river_is_taken() {
    let mut g = Game::from(setup_of(1, 2, map_of(&[0, 1], &[(0, 1)], &[0]))).unwrap();
    g.apply_move(claim(0, 0, 1));
    assert!(matches!(g.play(Strategy::EdgeWeight), Move::Pass { pass: Pass { punter: 1 } }));
    assert!(matches!(g.play(Strategy::Stupid), Move::Pass { pass: Pass { punter: 1 } }));
}

#[test]
fn encoded_game_decodes_to_the_same_play() {
    let mut g = Game::from(setup_of(1, 3, sample_map())).unwrap();
    g.apply_move(claim(0, 1, 3));
    g.apply_move(claim(1, 5, 7));
    g.apply_move(option(2, 3, 1));
    let text = g.encode();
    assert!(!text.is_empty());
    let d = Game::decode(&text).unwrap();
    for p in 0..3 {
        assert_eq!(d.score(p), g.score(p));
    }
    assert_eq!(d.edges(), g.edges());
    assert_eq!(format!("{:?}", d.play(Strategy::EdgeWeight)), format!("{:?}", g.play(Strategy::EdgeWeight)));
    assert_eq!(d.encode(), text);
}

#[test]
fn garbage_does_not_decode() {
    assert!(Game::decode("not base64 at all!").is_none());
    assert!(Game::decode("AAAA").is_none());
}

#[test]
fn replaying_moves_gives_the_same_scores() {
    let moves = vec![claim(0, 1, 3), claim(1, 5, 6), claim(0, 3, 5), option(1, 3, 5), claim(0, 0, 7)];
    let run = || {
        let mut g = Game::from(setup_of(2, 2, sample_map())).unwrap();
        g.apply_moves_excluding_me(moves.clone());
        (g.score(0), g.score(1))
    };
    let first = run();
    assert_eq!(first, run());
    assert_eq!(first, (10, 2));
}

#[test]
fn futures_are_chosen_once_and_announced() {
    let settings = Settings { futures: Some(true), splurge: None, options: Some(false) };
    let mut g = Game::from(SetupSP { punter: 0, punters: 2, map: sample_map(), settings: Some(settings) }).unwrap();
    assert!(g.is_futures_on());
    g.setup_futures();
    let f = g.convert_setup_futures_message().unwrap();
    assert_eq!(f.len(), 2);
    assert_eq!((f[0].source, f[0].target), (1, 0));
    assert_eq!((f[1].source, f[1].target), (5, 2));
    // Mine 1 to site 0 is won: 1 + cube of 1; mine 5's future on 2 is lost: minus 8.
    g.apply_move(claim(0, 0, 1));
    assert_eq!(g.score(0), 1 + 1 - 8);
    let off = Game::from(setup_of(0, 2, sample_map())).unwrap();
    assert!(off.convert_setup_futures_message().is_none());
}

#[test]
fn maps_up_to_the_size_limit_are_accepted() {
    let ids: Vec<u64> = (0..65536).collect();
    assert!(Game::from(setup_of(0, 2, map_of(&ids, &[(0, 65535)], &[0]))).is_some());
    let ids: Vec<u64> = (0..65537).collect();
    assert!(Game::from(setup_of(0, 2, map_of(&ids, &[], &[]))).is_none());
}

#[test]
fn duplicate_site_ids_give_no_game() {
    assert!(Game::from(setup_of(0, 2, map_of(&[5, 3, 5], &[(3, 5)], &[3]))).is_none());
    assert!(Game::from(setup_of(0, 2, map_of(&[5, 3], &[(3, 5)], &[3]))).is_some());
}

#[test]
fn a_splurge_skips_only_its_refused_steps() {
    let mut g = Game::from(setup_of(0, 2, sample_map())).unwrap();
    // 3-6 is no river: the steps 1-3 and 6-5 still count.
    g.apply_move(Move::Splurge { splurge: Splurge { punter: 1, route: vec![1, 3, 6, 5] } });
    assert_eq!(g.edges()[3].claimed, Claimed::Claimed(1));
    assert_eq!(g.edges()[4].claimed, Claimed::Claimed(1));
    assert_eq!(g.score(1), 1 + 1);
    // A step onto a river that is taken is skipped, the one before it stays.
    let mut h = Game::from(setup_of(0, 2, sample_map())).unwrap();
    h.apply_move(claim(0, 3, 4));
    h.apply_move(Move::Splurge { splurge: Splurge { punter: 1, route: vec![1, 3, 4] } });
    assert_eq!(h.edges()[3].claimed, Claimed::Claimed(1));
    assert_eq!(h.edges()[0].claimed, Claimed::Claimed(0));
    assert_eq!(h.score(1), 1);
}

#[test]
fn edge_weight_follows_the_tree_of_discovery() {
    // From mine 0 the traversal finds 2 and then 1, and 2 finds 3: the river
    // 0-2 carries 1 + 4, the river 0-1 only 1.
    let g = Game::from(setup_of(0, 2, map_of(&[0, 1, 2, 3], &[(0, 2), (0, 1), (1, 3), (2, 3)], &[0]))).unwrap();
    assert_eq!(g.play_edge_weight(), Some(EdgeClaim { punter: 0, source: 0, target: 2 }));
}

#[test]
fn node_claims_outside_the_map_are_discarded() {
    let mut g = Game::from(setup_of(0, 2, sample_map())).unwrap();
    g.apply_edge_claim(EdgeClaim { punter: 0, source: 3, target: 40 }, false);
    assert!(g.edges().iter().all(|e| e.claimed == Claimed::NotYet));
    g.apply_edge_claim(EdgeClaim { punter: 0, source: 1, target: 3 }, false);
    assert_eq!(g.score(0), 1);
}

#[test]
fn replaying_a_move_list_twice_gives_the_same_scores() {
    let moves = vec![claim(0, 1, 3), claim(1, 5, 6), claim(0, 3, 5), option(1, 3, 5), claim(0, 0, 7)];
    let run = || {
        let mut g = Game::from(setup_of(0, 2, sample_map())).unwrap();
        g.apply_moves(moves.clone());
        (g.score(0), g.score(1))
    };
    assert_eq!(run(), run());
    assert_eq!(run(), (10, 2));
}
