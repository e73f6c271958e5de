use vstd::prelude::*;
use crate::prelude::{PunterId, SiteId};

verus! {

/// The punter introduces itself.
#[derive(Debug, Clone)]
pub struct HandshakePS {
    pub me: String,
}

/// The server answers with the name it heard.
#[derive(Debug, Clone)]
pub struct HandshakeSP {
    pub you: String,
}

/// The setup message: who we are, how many punters play, the map and the
/// optional rules.
#[derive(Debug, Clone)]
pub struct SetupSP {
    pub punter: PunterId,
    pub punters: usize,
    pub map: GameMap,
    pub settings: Option<Settings>,
}

/// The optional rules of a match.
#[derive(Debug, Clone, Copy, PartialEq, Eq, Structural)]
pub struct Settings {
    pub futures: Option<bool>,
    pub splurge: Option<bool>,
    pub options: Option<bool>,
}

impl Default for Settings {
    fn default() -> (r: Settings)
        ensures
            r == (Settings { futures: None, splurge: None, options: None }),
    {
        Settings { futures: None, splurge: None, options: None }
    }
}

/// Reply to the setup message in online mode.
#[derive(Debug, Clone)]
pub struct OnlineSetupPS {
    pub ready: PunterId,
    pub futures: Option<Vec<Future>>,
}

/// A bet that a mine will be connected to a site.
#[derive(Debug, Clone, Copy, PartialEq, Eq, Structural)]
pub struct Future {
    pub source: SiteId,
    pub target: SiteId,
}

/// The map of a match. Sites carry only their identifiers here: their
/// coordinates play no part in the game.
#[derive(Debug, Clone)]
pub struct GameMap {
    pub sites: Vec<Site>,
    pub rivers: Vec<River>,
    pub mines: Vec<SiteId>,
}

#[derive(Debug, Clone, Copy, PartialEq, Eq, Structural)]
pub struct Site {
    pub id: SiteId,
}

#[derive(Debug, Clone, Copy, PartialEq, Eq, Structural)]
pub struct River {
    pub source: SiteId,
    pub target: SiteId,
}

/// A gameplay request in online mode.
#[derive(Debug, Clone)]
pub struct OnlineGameplaySP {
    pub move_: Moves,
}

#[derive(Debug, Clone)]
pub struct Moves {
    pub moves: Vec<Move>,
}

/// One move of a punter.
#[derive(Debug, Clone)]
pub enum Move {
    Claim { claim: Claim },
    Pass { pass: Pass },
    Splurge { splurge: Splurge },
    Option_ { option: Option_ },
}

/// The punter to which a move is attributed.
pub open spec fn move_punter(m: Move) -> PunterId {
    match m {
        Move::Claim { claim } => claim.punter,
        Move::Pass { pass } => pass.punter,
        Move::Splurge { splurge } => splurge.punter,
        Move::Option_ { option } => option.punter,
    }
}

impl Move {
    pub fn from(claim: Claim) -> (r: Move)
        ensures
            r == (Move::Claim { claim }),
    {
        Move::Claim { claim }
    }

    /// Whether the move was made by punter `me`.
    pub fn claimed_by(&self, me: PunterId) -> (r: bool)
        ensures
            r == (move_punter(*self) == me),
    {
        match self {
            Move::Claim { claim } => claim.punter == me,
            Move::Splurge { splurge } => splurge.punter == me,
            Move::Option_ { option } => option.punter == me,
            Move::Pass { pass } => pass.punter == me,
        }
    }

    /// A copy of the move.
    pub fn duplicate(&self) -> (r: Move)
        ensures
            r@ == self@,
    {
        match self {
            Move::Claim { claim } => Move::Claim { claim: *claim },
            Move::Pass { pass } => Move::Pass { pass: *pass },
            Move::Splurge { splurge } => Move::Splurge {
                splurge: Splurge { punter: splurge.punter, route: copy_route(&splurge.route) },
            },
            Move::Option_ { option } => Move::Option_ { option: *option },
        }
    }

    /// Pairs the move with the encoded state of the punter that made it.
    pub fn into_offline_game_play_ps(self, state: EncodedGameState) -> (r: OfflineGamePlayPS)
        ensures
            r.state() == state,
            r.to_move()@ == self@,
    {
        match self {
            Move::Claim { claim } => OfflineGamePlayPS::Claim { claim, state },
            Move::Pass { pass } => OfflineGamePlayPS::Pass { pass, state },
            Move::Splurge { splurge } => OfflineGamePlayPS::Splurge { splurge, state },
            Move::Option_ { option } => OfflineGamePlayPS::Option_ { option, state },
        }
    }
}

/// What a move is, with its route as a sequence.
pub enum MoveView {
    Claim(Claim),
    Pass(Pass),
    Splurge(PunterId, Seq<SiteId>),
    Option_(Claim),
}

impl View for Move {
    type V = MoveView;

    open spec fn view(&self) -> MoveView {
        match *self {
            Move::Claim { claim } => MoveView::Claim(claim),
            Move::Pass { pass } => MoveView::Pass(pass),
            Move::Splurge { splurge } => MoveView::Splurge(splurge.punter, splurge.route@),
            Move::Option_ { option } => MoveView::Option_(option),
        }
    }
}

fn copy_route(route: &Vec<SiteId>) -> (r: Vec<SiteId>)
    ensures
        r@ == route@,
{
    let mut r: Vec<SiteId> = Vec::new();
    let mut i: usize = 0;
    while i < route.len()
        invariant
            i <= route.len(),
            r@ == route@.subrange(0, i as int),
        decreases route.len() - i,
    {
        r.push(route[i]);
        i = i + 1;
        assert(r@ =~= route@.subrange(0, i as int));
    }
    assert(r@ =~= route@);
    r
}

/// The final message in online mode.
#[derive(Debug, Clone)]
pub struct OnlineScoringSP {
    pub stop: Scores,
}

#[derive(Debug, Clone)]
pub struct Scores {
    pub moves: Vec<Move>,
    pub scores: Vec<Score>,
}

#[derive(Debug, Clone, Copy, PartialEq, Eq, Structural)]
pub struct Score {
    pub punter: PunterId,
    pub score: i64,
}

/// The encoded state that an offline punter hands back with each reply;
/// `None` where a punter keeps its state itself.
pub type EncodedGameState = Option<String>;

/// Reply to the setup message in offline mode.
#[derive(Debug, Clone)]
pub struct OfflineSetupPS {
    pub ready: PunterId,
    pub futures: Option<Vec<Future>>,
    pub state: EncodedGameState,
}

/// A gameplay request in offline mode.
#[derive(Debug, Clone)]
pub struct OfflineGamePlaySP {
    pub moves: Moves,
    pub state: EncodedGameState,
}

/// A move reply in offline mode.
#[derive(Debug, Clone)]
pub enum OfflineGamePlayPS {
    Claim { claim: Claim, state: EncodedGameState },
    Pass { pass: Pass, state: EncodedGameState },
    Splurge { splurge: Splurge, state: EncodedGameState },
    Option_ { option: Option_, state: EncodedGameState },
}

impl OfflineGamePlayPS {
    pub open spec fn state(&self) -> EncodedGameState {
        match *self {
            OfflineGamePlayPS::Claim { state, .. } => state,
            OfflineGamePlayPS::Pass { state, .. } => state,
            OfflineGamePlayPS::Splurge { state, .. } => state,
            OfflineGamePlayPS::Option_ { state, .. } => state,
        }
    }

    pub open spec fn to_move(&self) -> Move {
        match *self {
            OfflineGamePlayPS::Claim { claim, .. } => Move::Claim { claim },
            OfflineGamePlayPS::Pass { pass, .. } => Move::Pass { pass },
            OfflineGamePlayPS::Splurge { splurge, .. } => Move::Splurge { splurge },
            OfflineGamePlayPS::Option_ { option, .. } => Move::Option_ { option },
        }
    }

    /// Splits the reply into its move and its state.
    pub fn into_parts(self) -> (r: (Move, EncodedGameState))
        ensures
            r.0 == self.to_move(),
            r.1 == self.state(),
    {
        match self {
            OfflineGamePlayPS::Claim { claim, state } => (Move::Claim { claim }, state),
            OfflineGamePlayPS::Pass { pass, state } => (Move::Pass { pass }, state),
            OfflineGamePlayPS::Splurge { splurge, state } => (Move::Splurge { splurge }, state),
            OfflineGamePlayPS::Option_ { option, state } => (Move::Option_ { option }, state),
        }
    }
}

#[derive(Debug, Clone, Copy, PartialEq, Eq, Structural)]
pub struct Claim {
    pub punter: PunterId,
    pub source: SiteId,
    pub target: SiteId,
}

#[derive(Debug, Clone, Copy, PartialEq, Eq, Structural)]
pub struct Pass {
    pub punter: PunterId,
}

/// A chain of claims along a route of sites.
#[derive(Debug, Clone)]
pub struct Splurge {
    pub punter: PunterId,
    pub route: Vec<SiteId>,
}

/// An option on an edge that another punter has claimed.
pub type Option_ = Claim;

/// The final message in offline mode.
#[derive(Debug, Clone)]
pub struct OfflineScoringSP {
    pub stop: Scores,
    pub state: EncodedGameState,
}

} // verus!
