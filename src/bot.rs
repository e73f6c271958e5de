use vstd::prelude::*;
use crate::play::setup_with_futures;
use crate::game::{futures_message, Game, GameModel, Strategy, after_moves_excluding, edges_after_move, setup_model, strategy_move, valid_map, with_edges};
use crate::prelude::{PunterError, PunterResult};
use crate::protocol::{Move, OfflineGamePlayPS, OfflineGamePlaySP, OfflineScoringSP, OfflineSetupPS, SetupSP};

verus! {

/// A punter that runs one of the library's strategies in this process and
/// keeps its game in memory.
#[derive(Debug)]
pub struct InternalBot {
    strategy: Strategy,
    game: Option<Game>,
}

pub struct InternalBotView {
    pub strategy: Strategy,
    pub game: Option<GameModel>,
}

impl View for InternalBot {
    type V = InternalBotView;

    closed spec fn view(&self) -> InternalBotView {
        InternalBotView {
            strategy: self.strategy,
            game: match self.game {
                Some(g) => Some(g@),
                None => None,
            },
        }
    }
}

/// The game after the moves of a request, those of punter `me` left out.
pub open spec fn game_after_request(g: GameModel, moves: Seq<Move>) -> GameModel {
    after_moves_excluding(g, moves.map_values(|m: Move| m@), g.me, 0)
}

impl InternalBot {
    pub fn new(strategy: Strategy) -> (r: InternalBot)
        ensures
            r@.strategy == strategy,
            r@.game is None,
            r.wf(),
    {
        InternalBot { strategy, game: None }
    }

    /// The game, where there is one, is well-formed.
    pub closed spec fn wf(&self) -> bool {
        self.game is Some ==> self.game.unwrap().wf()
    }

    /// The bot's name: the name of its strategy.
    pub fn name(&self) -> (r: String)
        ensures
            r@ == match self@.strategy {
                Strategy::Stupid => "Stupid"@,
                Strategy::EdgeWeight => "EdgeWeight"@,
            },
    {
        match self.strategy {
            Strategy::Stupid => String::from_str("Stupid"),
            Strategy::EdgeWeight => String::from_str("EdgeWeight"),
        }
    }

    /// Starts the game of the setup message, with the futures chosen and
    /// announced where that rule is on.
    pub fn setup(&mut self, setup: SetupSP) -> (r: PunterResult<OfflineSetupPS>)
        requires
            old(self).wf(),
        ensures
            final(self).wf(),
            final(self)@.strategy == old(self)@.strategy,
            r is Ok <==> valid_map(setup.map),
            r is Ok ==> final(self)@.game == Some(setup_with_futures(setup)),
            r is Ok ==> r.unwrap().ready == setup.punter && r.unwrap().state is None,
            r is Ok ==> (r.unwrap().futures is Some <==> setup_model(setup).futures_on),
            r is Ok && r.unwrap().futures is Some ==> r.unwrap().futures.unwrap()@ == futures_message(setup_with_futures(setup)),
            r is Err ==> r == Err::<OfflineSetupPS, PunterError>(PunterError::InvalidMap) && final(self)@ == old(self)@,
    {
        let punter = setup.punter;
        match Game::from(setup) {
            Some(mut g) => {
                g.setup_futures();
                let futures = g.convert_setup_futures_message();
                self.game = Some(g);
                Ok(OfflineSetupPS { ready: punter, futures, state: None })
            },
            None => Err(PunterError::InvalidMap),
        }
    }

    /// Applies the moves of the other punters, picks a move, applies it and
    /// replies with it.
    pub fn play(&mut self, gameplay: OfflineGamePlaySP) -> (r: PunterResult<OfflineGamePlayPS>)
        requires
            old(self).wf(),
        ensures
            final(self).wf(),
            final(self)@.strategy == old(self)@.strategy,
            r is Ok <==> old(self)@.game is Some,
            r is Err ==> r == Err::<OfflineGamePlayPS, PunterError>(PunterError::NotSetUp) && final(self)@ == old(self)@,
            r is Ok ==> {
                let g1 = game_after_request(old(self)@.game.unwrap(), gameplay.moves.moves@);
                let m = r.unwrap().to_move()@;
                &&& strategy_move(g1, old(self)@.strategy, m)
                &&& final(self)@.game == Some(with_edges(g1, edges_after_move(g1, m)))
                &&& r.unwrap().state() is None
            },
    {
        match self.game.take() {
            Some(mut game) => {
                game.apply_moves_excluding_me(gameplay.moves.moves);
                let mov = game.play(self.strategy);
                let reply = mov.duplicate();
                game.apply_move(mov);
                self.game = Some(game);
                Ok(reply.into_offline_game_play_ps(None))
            },
            None => Err(PunterError::NotSetUp),
        }
    }

    /// The end of the match: nothing to do.
    pub fn stop(&mut self, scoring: OfflineScoringSP) -> (r: PunterResult<()>)
        ensures
            r is Ok,
            final(self)@ == old(self)@,
    {
        Ok(())
    }

    /// The bot's game, once it is set up.
    pub fn game(&self) -> (r: &Option<Game>)
        ensures
            match (r, self@.game) {
                (Some(g), Some(m)) => g@ == m,
                (None, None) => true,
                _ => false,
            },
            self.wf() && r is Some ==> r.unwrap().wf(),
    {
        &self.game
    }
}

/// A punter that is a program of its own, started for each request.
#[derive(Debug, Clone)]
pub struct OfflineBot {
    pub program: String,
}

impl OfflineBot {
    pub fn new(program: String) -> (r: OfflineBot)
        ensures
            r.program@ == program@,
    {
        OfflineBot { program }
    }
}

} // verus!
