use vstd::prelude::*;
use crate::bot::game_after_request;
use crate::game::{Game, GameModel, Strategy, edges_after_move, future_targets, futures_message, model_wf, setup_model, strategy_move, valid_map, with_edges};
use crate::game::state::{base64_text, r_model, state_bytes};
use crate::prelude::{PunterError, PunterResult};
use crate::protocol::{HandshakePS, Move, OfflineGamePlayPS, OfflineGamePlaySP, OfflineScoringSP, OfflineSetupPS, OnlineGameplaySP, OnlineScoringSP, OnlineSetupPS, SetupSP};

verus! {

/// The game of a setup message once the futures, if on, are chosen.
pub open spec fn setup_with_futures(setup: SetupSP) -> GameModel {
    let g = setup_model(setup);
    if g.futures_on { GameModel { futures: future_targets(g), ..g } } else { g }
}

/// The name this punter gives in the handshake.
pub fn handshake() -> (r: HandshakePS)
    ensures
        r.me@ == "hayatox"@,
{
    HandshakePS { me: String::from_str("hayatox") }
}

/// Offline setup: starts the game, chooses the futures if they are on, and
/// replies with them and with the encoded game.
pub fn offline_setup(setup: SetupSP) -> (r: PunterResult<OfflineSetupPS>)
    ensures
        r is Ok <==> valid_map(setup.map),
        r is Err ==> r == Err::<OfflineSetupPS, PunterError>(PunterError::InvalidMap),
        r is Ok ==> {
            let g = setup_with_futures(setup);
            let reply = r.unwrap();
            &&& reply.ready == setup.punter
            &&& (reply.futures is Some <==> g.futures_on)
            &&& reply.futures is Some ==> reply.futures.unwrap()@ == futures_message(g)
            &&& reply.state is Some && reply.state.unwrap()@ == base64_text(state_bytes(g))
        },
{
    let punter = setup.punter;
    let mut game = match Game::from(setup) {
        Some(g) => g,
        None => return Err(PunterError::InvalidMap),
    };
    game.setup_futures();
    let futures = game.convert_setup_futures_message();
    let state = game.encode();
    Ok(OfflineSetupPS { ready: punter, futures, state: Some(state) })
}

/// The game after the moves of a request and then the move `m`.
pub open spec fn game_after_turn(g: GameModel, moves: Seq<Move>, m: crate::protocol::MoveView) -> GameModel {
    let g1 = game_after_request(g, moves);
    with_edges(g1, edges_after_move(g1, m))
}

/// Offline gameplay: decodes the game, applies the moves of the others,
/// picks a move, applies it, and replies with the move and the game
/// encoded again.
pub fn offline_gameplay(request: OfflineGamePlaySP, strategy: Strategy) -> (r: PunterResult<OfflineGamePlayPS>)
    ensures
        request.state is None ==> r == Err::<OfflineGamePlayPS, PunterError>(PunterError::NotSetUp),
        r is Err ==> r == Err::<OfflineGamePlayPS, PunterError>(PunterError::NotSetUp) || r == Err::<OfflineGamePlayPS, PunterError>(PunterError::Json),
        forall|g: GameModel| #![trigger state_bytes(g)] request.state is Some && model_wf(g) && request.state.unwrap()@ == base64_text(state_bytes(g)) ==> {
            &&& r is Ok
            &&& strategy_move(game_after_request(g, request.moves.moves@), strategy, r.unwrap().to_move()@)
            &&& r.unwrap().state() is Some
            &&& r.unwrap().state().unwrap()@ == base64_text(state_bytes(game_after_turn(g, request.moves.moves@, r.unwrap().to_move()@)))
        },
{
    let OfflineGamePlaySP { moves, state } = request;
    let text = match state {
        Some(t) => t,
        None => return Err(PunterError::NotSetUp),
    };
    let decoded = Game::decode(text.as_str());
    let ghost dm = r_model(decoded);
    let mut game = match decoded {
        Some(g) => g,
        None => {
            proof {
                assert forall|g: GameModel| model_wf(g) && text@ == base64_text(state_bytes(g)) implies false by {
                    assert(r_model(decoded) == Some(g));
                }
            }
            return Err(PunterError::Json);
        },
    };
    let ghost g0 = game@;
    assert(dm == Some(g0));
    game.apply_moves_excluding_me(moves.moves);
    let mov = game.play(strategy);
    let reply = mov.duplicate();
    game.apply_move(mov);
    let encoded = game.encode();
    let r = reply.into_offline_game_play_ps(Some(encoded));
    proof {
        assert forall|g: GameModel| model_wf(g) && text@ == base64_text(state_bytes(g)) implies g == g0 by {
            assert(r_model(decoded) == Some(g));
        }
    }
    Ok(r)
}

/// Offline stop: decodes the game and applies the final moves of the others.
pub fn offline_stop(scoring: OfflineScoringSP) -> (r: PunterResult<Game>)
    ensures
        r is Ok ==> r.unwrap().wf(),
        scoring.state is None ==> r is Err,
        forall|g: GameModel| #![trigger state_bytes(g)] scoring.state is Some && model_wf(g) && scoring.state.unwrap()@ == base64_text(state_bytes(g)) ==>
            r is Ok && r.unwrap()@ == game_after_request(g, scoring.stop.moves@),
{
    let OfflineScoringSP { stop, state } = scoring;
    let text = match state {
        Some(t) => t,
        None => return Err(PunterError::NotSetUp),
    };
    let decoded = Game::decode(text.as_str());
    let mut game = match decoded {
        Some(g) => g,
        None => {
            proof {
                assert forall|g: GameModel| model_wf(g) && text@ == base64_text(state_bytes(g)) implies false by {
                    assert(r_model(decoded) == Some(g));
                }
            }
            return Err(PunterError::Json);
        },
    };
    let ghost g0 = game@;
    game.apply_moves_excluding_me(stop.moves);
    proof {
        assert forall|g: GameModel| model_wf(g) && text@ == base64_text(state_bytes(g)) implies g == g0 by {
            assert(r_model(decoded) == Some(g));
        }
    }
    Ok(game)
}

/// Online setup: starts the game and the reply, with the futures if they
/// are on.
pub fn online_setup(setup: SetupSP) -> (r: PunterResult<(Game, OnlineSetupPS)>)
    ensures
        r is Ok <==> valid_map(setup.map),
        r is Err ==> r == Err::<(Game, OnlineSetupPS), PunterError>(PunterError::InvalidMap),
        r is Ok ==> {
            let (game, reply) = r.unwrap();
            &&& game.wf()
            &&& game@ == setup_with_futures(setup)
            &&& reply.ready == setup.punter
            &&& (reply.futures is Some <==> game@.futures_on)
            &&& reply.futures is Some ==> reply.futures.unwrap()@ == futures_message(game@)
        },
{
    let punter = setup.punter;
    let mut game = match Game::from(setup) {
        Some(g) => g,
        None => return Err(PunterError::InvalidMap),
    };
    game.setup_futures();
    let futures = game.convert_setup_futures_message();
    Ok((game, OnlineSetupPS { ready: punter, futures }))
}

/// Online gameplay: applies the moves of the others, picks a move and
/// applies it.
pub fn online_gameplay(game: &mut Game, request: OnlineGameplaySP, strategy: Strategy) -> (r: Move)
    requires
        old(game).wf(),
    ensures
        final(game).wf(),
        strategy_move(game_after_request(old(game)@, request.move_.moves@), strategy, r@),
        final(game)@ == game_after_turn(old(game)@, request.move_.moves@, r@),
{
    game.apply_moves_excluding_me(request.move_.moves);
    let mov = game.play(strategy);
    let reply = mov.duplicate();
    game.apply_move(mov);
    reply
}

/// Online stop: applies the final moves of the others.
pub fn online_stop(game: &mut Game, scoring: OnlineScoringSP)
    requires
        old(game).wf(),
    ensures
        final(game).wf(),
        final(game)@ == game_after_request(old(game)@, scoring.stop.moves@),
{
    game.apply_moves_excluding_me(scoring.stop.moves);
}

} // verus!
