use vstd::prelude::*;
use vstd::utf8::encode_utf8;
use crate::bot::InternalBot;
use crate::game::{Game, GameModel, Strategy, after_moves_excluding, chosen_move, edges_after_move, lemma_strategy_move_unique, score_of, setup_model, valid_map, with_edges};
use crate::bot::game_after_request;
use crate::play::setup_with_futures;
use crate::prelude::{PunterId, PunterResult, SiteId};
use crate::protocol::{move_punter, EncodedGameState, GameMap, Move, MoveView, Moves, OfflineGamePlayPS, OfflineGamePlaySP, OfflineScoringSP, OfflineSetupPS, Pass, River, Score, Scores, SetupSP, Settings, Site};

verus! {

/// Relies on `rand::seq::SliceRandom::shuffle`: the same items in some order.
#[verifier::external_body]
fn shuffle(v: &mut Vec<usize>)
    ensures
        final(v)@.to_multiset() == old(v)@.to_multiset(),
{
    rand::seq::SliceRandom::shuffle(v.as_mut_slice(), &mut rand::thread_rng());
}

/// A random seating of `n` bots: each of `0..n` once.
pub fn seat_order(n: usize) -> (r: Vec<usize>)
    ensures
        r@.len() == n,
        forall|i: usize| i < n ==> #[trigger] r@.contains(i),
        forall|i: int| 0 <= i < n ==> #[trigger] r@[i] < n,
{
    let mut v: Vec<usize> = Vec::new();
    let mut i: usize = 0;
    while i < n
        invariant
            i <= n,
            v@.len() == i,
            forall|k: int| 0 <= k < i ==> #[trigger] v@[k] == k,
        decreases n - i,
    {
        v.push(i);
        i = i + 1;
    }
    let ghost before = v@;
    shuffle(&mut v);
    proof {
        vstd::seq_lib::to_multiset_len(before);
        vstd::seq_lib::to_multiset_len(v@);
        assert forall|i: usize| i < n implies #[trigger] v@.contains(i) by {
            assert(before[i as int] == i);
            vstd::seq_lib::to_multiset_contains(before, i);
            vstd::seq_lib::to_multiset_contains(v@, i);
        }
        assert forall|i: int| 0 <= i < n implies #[trigger] v@[i] < n by {
            vstd::seq_lib::to_multiset_contains(v@, v@[i]);
            vstd::seq_lib::to_multiset_contains(before, v@[i]);
            let k = choose|k: int| 0 <= k < before.len() && before[k] == v@[i];
        }
    }
    v
}

/// The number of scores in `s[..k]` above `x`.
pub open spec fn count_above(s: Seq<i64>, x: i64, k: int) -> nat
    decreases k,
{
    if k <= 0 {
        0
    } else {
        count_above(s, x, k - 1) + if s[k - 1] > x { 1nat } else { 0nat }
    }
}

/// The rank of a score: one more than the number of higher scores, so that
/// the best score has rank 1 and equal scores share a rank.
pub open spec fn rank_of(s: Seq<i64>, x: i64) -> nat {
    1 + count_above(s, x, s.len() as int)
}

pub proof fn lemma_count_above_monotone(s: Seq<i64>, x: i64, y: i64, k: int)
    requires
        x <= y,
    ensures
        count_above(s, y, k) <= count_above(s, x, k),
    decreases k,
{
    if k > 0 {
        lemma_count_above_monotone(s, x, y, k - 1);
    }
}

proof fn lemma_count_above_strict(s: Seq<i64>, x: i64, y: i64, k: int, j: int)
    requires
        x < y,
        0 <= j < k <= s.len(),
        s[j] == y,
    ensures
        count_above(s, y, k) < count_above(s, x, k),
    decreases k,
{
    if k - 1 == j {
        lemma_count_above_monotone(s, x, y, k - 1);
    } else {
        lemma_count_above_strict(s, x, y, k - 1, j);
    }
}

/// A higher score gets a smaller rank, and equal scores the same rank.
pub proof fn lemma_rank_order(s: Seq<i64>, i: int, j: int)
    requires
        0 <= i < s.len(),
        0 <= j < s.len(),
    ensures
        s[i] > s[j] ==> rank_of(s, s[i]) < rank_of(s, s[j]),
        s[i] == s[j] ==> rank_of(s, s[i]) == rank_of(s, s[j]),
{
    if s[i] > s[j] {
        lemma_count_above_strict(s, s[j], s[i], s.len() as int, i);
    }
}

/// The rank of each score.
pub fn ranks(scores: &Vec<i64>) -> (r: Vec<usize>)
    requires
        scores@.len() < usize::MAX,
    ensures
        r@.len() == scores@.len(),
        forall|i: int| 0 <= i < scores@.len() ==> #[trigger] r@[i] == rank_of(scores@, scores@[i]),
{
    let mut r: Vec<usize> = Vec::new();
    let mut i: usize = 0;
    while i < scores.len()
        invariant
            scores@.len() < usize::MAX,
            i <= scores@.len(),
            r@.len() == i,
            forall|k: int| 0 <= k < i ==> #[trigger] r@[k] == rank_of(scores@, scores@[k]),
        decreases scores@.len() - i,
    {
        let x = scores[i];
        let mut above: usize = 0;
        let mut j: usize = 0;
        while j < scores.len()
            invariant
                scores@.len() < usize::MAX,
                j <= scores@.len(),
                above == count_above(scores@, x, j as int),
                above <= j,
            decreases scores@.len() - j,
        {
            if scores[j] > x {
                above = above + 1;
            }
            j = j + 1;
        }
        r.push(above + 1);
        i = i + 1;
    }
    r
}

pub open spec fn seq_sum(s: Seq<u64>) -> int
    decreases s.len(),
{
    if s.len() == 0 { 0 } else { seq_sum(s.drop_last()) + s.last() }
}

proof fn lemma_sum_update(s: Seq<u64>, i: int, v: u64)
    requires
        0 <= i < s.len(),
    ensures
        seq_sum(s.update(i, v)) == seq_sum(s) - s[i] + v,
    decreases s.len(),
{
    if i < s.len() - 1 {
        lemma_sum_update(s.drop_last(), i, v);
        assert(s.update(i, v).drop_last() =~= s.drop_last().update(i, v));
    } else {
        assert(s.update(i, v).drop_last() =~= s.drop_last());
    }
}

proof fn lemma_sum_zeros(s: Seq<u64>)
    requires
        forall|i: int| 0 <= i < s.len() ==> s[i] == 0,
    ensures
        seq_sum(s) == 0,
    decreases s.len(),
{
    if s.len() > 0 {
        lemma_sum_zeros(s.drop_last());
    }
}

fn copy_vec<T: Copy>(v: &Vec<T>) -> (r: Vec<T>)
    ensures
        r@ == v@,
{
    let mut r: Vec<T> = Vec::new();
    let mut i: usize = 0;
    while i < v.len()
        invariant
            i <= v@.len(),
            r@ == v@.subrange(0, i as int),
        decreases v@.len() - i,
    {
        r.push(v[i]);
        i = i + 1;
        assert(r@ =~= v@.subrange(0, i as int));
    }
    assert(r@ =~= v@);
    r
}

/// A copy of the map.
pub fn copy_map(map: &GameMap) -> (r: GameMap)
    ensures
        r.sites@ == map.sites@,
        r.rivers@ == map.rivers@,
        r.mines@ == map.mines@,
{
    GameMap { sites: copy_vec(&map.sites), rivers: copy_vec(&map.rivers), mines: copy_vec(&map.mines) }
}

fn copy_state(s: &EncodedGameState) -> (r: EncodedGameState)
    ensures
        state_view(r) == state_view(*s),
{
    match s {
        Some(t) => Some(t.clone()),
        None => None,
    }
}

/// The largest number of punters in a battle: the library's own limit, so
/// that ranks and counts stay within their integer types.
pub const MAX_PUNTERS: usize = 65536;

/// One match between punters, run turn by turn: the battle hands out the
/// requests, takes the replies, and keeps the referee's game, in which
/// every move is applied.
pub struct Battle {
    map: GameMap,
    settings: Settings,
    punters: usize,
    game: Game,
    states: Vec<EncodedGameState>,
    last_moves: Vec<Move>,
    move_counts: Vec<u64>,
    moves: Vec<Move>,
    turn: usize,
    turns: usize,
}

/// The text of an encoded state, if any.
pub open spec fn state_view(s: EncodedGameState) -> Option<Seq<char>> {
    match s {
        Some(t) => Some(t@),
        None => None,
    }
}

pub struct BattleView {
    pub settings: Settings,
    /// The last move of each punter; a pass before its first turn.
    pub last_moves: Seq<MoveView>,
    /// The state each punter last handed back.
    pub states: Seq<Option<Seq<char>>>,
    pub sites: Seq<Site>,
    pub rivers: Seq<River>,
    pub mines: Seq<SiteId>,
    pub punters: usize,
    pub game: GameModel,
    pub move_counts: Seq<u64>,
    pub moves: Seq<MoveView>,
    pub turn: usize,
    pub turns: usize,
}

impl View for Battle {
    type V = BattleView;

    closed spec fn view(&self) -> BattleView {
        BattleView {
            settings: self.settings,
            last_moves: self.last_moves@.map_values(|m: Move| m@),
            states: self.states@.map_values(|s: EncodedGameState| state_view(s)),
            sites: self.map.sites@,
            rivers: self.map.rivers@,
            mines: self.map.mines@,
            punters: self.punters,
            game: self.game@,
            move_counts: self.move_counts@,
            moves: self.moves@.map_values(|m: Move| m@),
            turn: self.turn,
            turns: self.turns,
        }
    }
}

/// The result of one punter in a battle.
#[derive(Debug, Clone, Copy, PartialEq, Eq, Structural)]
pub struct PunterOutcome {
    pub punter: PunterId,
    pub score: i64,
    /// 1 for the best score; equal scores share a rank.
    pub point: usize,
    pub move_count: u64,
}

impl Battle {
    pub closed spec fn wf(&self) -> bool {
        &&& self.game.wf()
        &&& self.punters > 0
        &&& self.punters <= MAX_PUNTERS
        &&& self.states@.len() == self.punters
        &&& self.last_moves@.len() == self.punters
        &&& self.move_counts@.len() == self.punters
        &&& self.turn <= self.turns
        &&& self.turns == self.game@.edges.len()
        &&& self.moves@.len() == self.turn
        &&& seq_sum(self.move_counts@) == self.turn
        &&& forall|i: int| 0 <= i < self.punters ==> #[trigger] self.move_counts@[i] <= self.turn
        &&& forall|i: int| 0 <= i < self.punters ==> #[trigger] self.move_counts@[i] == seat_turns(self.turn as int, self.punters as int, i)
    }

    /// Starts a battle of `punters` punters on `map`; `None` when there is
    /// no punter or the map is not valid.
    pub fn new(map: GameMap, settings: Settings, punters: usize) -> (r: Option<Battle>)
        ensures
            r is Some <==> (0 < punters <= MAX_PUNTERS && valid_map(map)),
            r is Some ==> {
                let b = r.unwrap();
                &&& b.wf()
                &&& b@.punters == punters
                &&& b@.turn == 0
                &&& b@.turns == map.rivers@.len()
                &&& b@.sites == map.sites@ && b@.rivers == map.rivers@ && b@.mines == map.mines@
                &&& b@.settings == settings
                &&& b@.last_moves == Seq::new(punters as nat, |i: int| MoveView::Pass(Pass { punter: i as usize }))
                &&& b@.states == Seq::new(punters as nat, |i: int| None::<Seq<char>>)
                &&& b@.game == setup_model(SetupSP { punter: 0, punters, map, settings: Some(settings) })
            },
    {
        if punters == 0 || punters > MAX_PUNTERS {
            return None;
        }
        let setup = SetupSP { punter: 0, punters, map: copy_map(&map), settings: Some(settings) };
        proof {
            crate::game::lemma_same_map_same_model(setup, SetupSP { punter: 0, punters, map, settings: Some(settings) });
        }
        let game = match Game::from(setup) {
            Some(g) => g,
            None => return None,
        };
        let turns = map.rivers.len();
        let mut states: Vec<EncodedGameState> = Vec::new();
        let mut last_moves: Vec<Move> = Vec::new();
        let mut move_counts: Vec<u64> = Vec::new();
        let mut i: usize = 0;
        while i < punters
            invariant
                i <= punters,
                states@.len() == i,
                last_moves@.len() == i,
                move_counts@.len() == i,
                forall|k: int| 0 <= k < i ==> #[trigger] move_counts@[k] == 0,
                forall|k: int| 0 <= k < i ==> #[trigger] states@[k] is None,
                forall|k: int| 0 <= k < i ==> #[trigger] last_moves@[k]@ == MoveView::Pass(Pass { punter: k as usize }),
            decreases punters - i,
        {
            states.push(None);
            last_moves.push(Move::Pass { pass: Pass { punter: i } });
            move_counts.push(0);
            i = i + 1;
        }
        proof { lemma_sum_zeros(move_counts@); }
        assert(last_moves@.map_values(|m: Move| m@) =~= Seq::new(punters as nat, |i: int| MoveView::Pass(Pass { punter: i as usize })));
        assert(states@.map_values(|s: EncodedGameState| state_view(s)) =~= Seq::new(punters as nat, |i: int| None::<Seq<char>>));
        Some(Battle { map, settings, punters, game, states, last_moves, move_counts, moves: Vec::new(), turn: 0, turns })
    }

    pub fn punters(&self) -> (r: usize)
        ensures
            r == self@.punters,
    {
        self.punters
    }

    pub fn is_over(&self) -> (r: bool)
        ensures
            r == (self@.turn == self@.turns),
    {
        self.turn == self.turns
    }

    /// The punter whose turn it is: turns go round the punters in order.
    pub fn current_punter(&self) -> (r: usize)
        requires
            self.wf(),
        ensures
            r == self@.turn % self@.punters,
            r < self@.punters,
    {
        self.turn % self.punters
    }

    /// The setup message for punter `punter`.
    pub fn setup_request(&self, punter: usize) -> (r: SetupSP)
        ensures
            r.punter == punter,
            r.punters == self@.punters,
            r.settings == Some(self@.settings),
            r.map.sites@ == self@.sites && r.map.rivers@ == self@.rivers && r.map.mines@ == self@.mines,
    {
        SetupSP { punter, punters: self.punters, map: copy_map(&self.map), settings: Some(self.settings) }
    }

    /// Keeps the state that punter `punter` replied to the setup with.
    pub fn record_setup(&mut self, punter: usize, reply: PunterResult<OfflineSetupPS>)
        requires
            old(self).wf(),
            punter < old(self)@.punters,
        ensures
            final(self).wf(),
            final(self)@ == (BattleView {
                states: old(self)@.states.update(punter as int, match reply {
                    Ok(r) => state_view(r.state),
                    Err(_) => None,
                }),
                ..old(self)@
            }),
    {
        let state = match reply {
            Ok(r) => r.state,
            Err(_) => None,
        };
        let ghost before = self.states@;
        self.states.set(punter, state);
        assert(self.states@.map_values(|s: EncodedGameState| state_view(s)) =~= before.map_values(|s: EncodedGameState| state_view(s)).update(punter as int, state_view(state)));
    }

    /// The request for the punter whose turn it is: the last move of every
    /// punter, and its own state.
    pub fn gameplay_request(&self) -> (r: OfflineGamePlaySP)
        requires
            self.wf(),
        ensures
            r.moves.moves@.map_values(|m: Move| m@) == self@.last_moves,
            state_view(r.state) == self@.states[(self@.turn % self@.punters) as int],
    {
        let moves = self.copy_last_moves();
        let cur = self.turn % self.punters;
        let state = copy_state(&self.states[cur]);
        OfflineGamePlaySP { moves: Moves { moves }, state }
    }

    fn copy_last_moves(&self) -> (r: Vec<Move>)
        ensures
            r@.map_values(|m: Move| m@) == self@.last_moves,
    {
        let mut moves: Vec<Move> = Vec::new();
        let mut i: usize = 0;
        while i < self.last_moves.len()
            invariant
                i <= self.last_moves@.len(),
                moves@.len() == i,
                forall|k: int| 0 <= k < i ==> #[trigger] moves@[k]@ == self.last_moves@[k]@,
            decreases self.last_moves@.len() - i,
        {
            moves.push(self.last_moves[i].duplicate());
            i = i + 1;
        }
        assert(moves@.map_values(|m: Move| m@) =~= self@.last_moves);
        moves
    }

    /// Takes the reply of the punter whose turn it is. A failed reply, or a
    /// move made in another punter's name, counts as a pass of that punter,
    /// and its state is not kept. The move is applied to the referee's game.
    pub fn record_reply(&mut self, reply: PunterResult<OfflineGamePlayPS>)
        requires
            old(self).wf(),
            old(self)@.turn < old(self)@.turns,
        ensures
            final(self).wf(),
            final(self)@.punters == old(self)@.punters,
            final(self)@.turns == old(self)@.turns,
            final(self)@.turn == old(self)@.turn + 1,
            ({
                let cur = old(self)@.turn % old(self)@.punters;
                let accepted = reply is Ok && move_punter(reply.unwrap().to_move()) == cur;
                let m: MoveView = if accepted { reply.unwrap().to_move()@ } else { MoveView::Pass(Pass { punter: cur }) };
                &&& final(self)@.moves == old(self)@.moves.push(m)
                &&& final(self)@.last_moves == old(self)@.last_moves.update(cur as int, m)
                &&& final(self)@.states == if accepted {
                    old(self)@.states.update(cur as int, state_view(reply.unwrap().state()))
                } else {
                    old(self)@.states
                }
                &&& final(self)@.game == with_edges(old(self)@.game, edges_after_move(old(self)@.game, m))
                &&& final(self)@.move_counts == old(self)@.move_counts.update(cur as int, (old(self)@.move_counts[cur as int] + 1) as u64)
            }),
    {
        let cur = self.turn % self.punters;
        let ghost states0 = self.states@;
        let ghost last0 = self.last_moves@;
        let mov = match reply {
            Ok(r) => {
                let (m, state) = r.into_parts();
                if m.claimed_by(cur) {
                    self.states.set(cur, state);
                    assert(self.states@.map_values(|s: EncodedGameState| state_view(s)) =~= states0.map_values(|s: EncodedGameState| state_view(s)).update(cur as int, state_view(state)));
                    m
                } else {
                    Move::Pass { pass: Pass { punter: cur } }
                }
            },
            Err(_) => Move::Pass { pass: Pass { punter: cur } },
        };
        let ghost mv = mov@;
        proof {
            crate::game::lemma_move_keeps_len(self.game@, mv);
            crate::game::lemma_wf_model(&self.game);
        }
        self.game.apply_move(mov.duplicate());
        self.last_moves.set(cur, mov.duplicate());
        assert(self.last_moves@.map_values(|m: Move| m@) =~= last0.map_values(|m: Move| m@).update(cur as int, mv));
        let c = self.move_counts[cur];
        proof { lemma_sum_update(self.move_counts@, cur as int, (c + 1) as u64); }
        self.move_counts.set(cur, c + 1);
        proof {
            let t = self.turn as int;
            let pn = self.punters as int;
            assert forall|i: int| 0 <= i < pn implies #[trigger] self.move_counts@[i] == seat_turns(t + 1, pn, i) by {
                assert(seat_turns(t + 1, pn, i) == seat_turns(t, pn, i) + if t % pn == i { 1nat } else { 0nat });
            }
        }
        let ghost old_moves = self.moves@;
        self.moves.push(mov);
        assert(self.moves@.map_values(|m: Move| m@) =~= old_moves.map_values(|m: Move| m@).push(mv));
        self.turn = self.turn + 1;
    }

    /// The order in which the punters get the final message: from the one
    /// after the last to move, round the table.
    pub fn stop_order(&self) -> (r: Vec<usize>)
        requires
            self.wf(),
        ensures
            r@.len() == self@.punters,
            forall|i: int| 0 <= i < self@.punters ==> #[trigger] r@[i] == (i + self@.turns) % (self@.punters as int),
    {
        let mut r: Vec<usize> = Vec::new();
        let shift = self.turns % self.punters;
        let mut i: usize = 0;
        while i < self.punters
            invariant
                self.wf(),
                shift == self.turns % self.punters,
                i <= self.punters,
                r@.len() == i,
                forall|k: int| 0 <= k < i ==> #[trigger] r@[k] == (k + self.turns) % (self.punters as int),
            decreases self.punters - i,
        {
            let p = if i >= self.punters - shift { i - (self.punters - shift) } else { i + shift };
            proof {
                vstd::arithmetic::div_mod::lemma_add_mod_noop(i as int, self.turns as int, self.punters as int);
                vstd::arithmetic::div_mod::lemma_small_mod(i as nat, self.punters as nat);
                vstd::arithmetic::div_mod::lemma_mod_bound(self.turns as int, self.punters as int);
                if i >= self.punters - shift {
                    vstd::arithmetic::div_mod::lemma_mod_sub_multiples_vanish((i + shift) as int, self.punters as int);
                    vstd::arithmetic::div_mod::lemma_small_mod((i + shift - self.punters) as nat, self.punters as nat);
                } else {
                    vstd::arithmetic::div_mod::lemma_small_mod((i + shift) as nat, self.punters as nat);
                }
            }
            r.push(p);
            i = i + 1;
        }
        r
    }

    /// The score of each punter in the referee's game.
    pub fn scores(&self) -> (r: Vec<i64>)
        requires
            self.wf(),
        ensures
            r@.len() == self@.punters,
            forall|i: int| 0 <= i < self@.punters ==> #[trigger] r@[i] == score_of(self@.game, i as PunterId),
    {
        let mut r: Vec<i64> = Vec::new();
        let mut i: usize = 0;
        while i < self.punters
            invariant
                self.wf(),
                i <= self.punters,
                r@.len() == i,
                forall|k: int| 0 <= k < i ==> #[trigger] r@[k] == score_of(self@.game, k as PunterId),
            decreases self.punters - i,
        {
            r.push(self.game.score(i));
            i = i + 1;
        }
        r
    }

    /// The final message for punter `punter`.
    pub fn scoring_request(&self, punter: usize) -> (r: OfflineScoringSP)
        requires
            self.wf(),
            punter < self@.punters,
        ensures
            r.stop.moves@.map_values(|m: Move| m@) == self@.last_moves,
            r.stop.scores@.len() == self@.punters,
            forall|i: int| 0 <= i < self@.punters ==> #[trigger] r.stop.scores@[i] == (Score { punter: i as usize, score: score_of(self@.game, i as PunterId) as i64 }),
            state_view(r.state) == self@.states[punter as int],
    {
        let scores = self.scores();
        let mut list: Vec<Score> = Vec::new();
        let mut i: usize = 0;
        while i < scores.len()
            invariant
                i <= scores@.len(),
                scores@.len() == self@.punters,
                list@.len() == i,
                forall|k: int| 0 <= k < self@.punters ==> #[trigger] scores@[k] == score_of(self@.game, k as PunterId),
                forall|k: int| 0 <= k < i ==> #[trigger] list@[k] == (Score { punter: k as usize, score: scores@[k] }),
            decreases scores@.len() - i,
        {
            list.push(Score { punter: i, score: scores[i] });
            i = i + 1;
        }
        let moves = self.copy_last_moves();
        OfflineScoringSP { stop: Scores { moves, scores: list }, state: copy_state(&self.states[punter]) }
    }

    /// The outcome of each punter: its score, its rank and its number of moves.
    pub fn outcomes(&self) -> (r: Vec<PunterOutcome>)
        requires
            self.wf(),
        ensures
            r@.len() == self@.punters,
            forall|i: int| 0 <= i < self@.punters ==> {
                let o = #[trigger] r@[i];
                &&& o.punter == i
                &&& o.score == score_of(self@.game, i as PunterId)
                &&& o.point == rank_of(outcome_scores(r@), o.score)
                &&& o.move_count == self@.move_counts[i]
            },
    {
        let scores = self.scores();
        let points = ranks(&scores);
        let mut r: Vec<PunterOutcome> = Vec::new();
        let mut i: usize = 0;
        while i < self.punters
            invariant
                self.wf(),
                i <= self.punters,
                scores@.len() == self@.punters,
                points@.len() == self@.punters,
                r@.len() == i,
                forall|k: int| 0 <= k < self@.punters ==> #[trigger] scores@[k] == score_of(self@.game, k as PunterId),
                forall|k: int| 0 <= k < self@.punters ==> #[trigger] points@[k] == rank_of(scores@, scores@[k]),
                forall|k: int| 0 <= k < i ==> {
                    let o = #[trigger] r@[k];
                    &&& o.punter == k
                    &&& o.score == scores@[k]
                    &&& o.point == points@[k]
                    &&& o.move_count == self@.move_counts[k]
                },
            decreases self.punters - i,
        {
            r.push(PunterOutcome { punter: i, score: scores[i], point: points[i], move_count: self.move_counts[i] });
            i = i + 1;
        }
        assert(outcome_scores(r@) =~= scores@);
        r
    }
}

/// The scores of a list of outcomes.
pub open spec fn outcome_scores(o: Seq<PunterOutcome>) -> Seq<i64> {
    o.map_values(|x: PunterOutcome| x.score)
}

/// The number of turns `t < turns` that fall to seat `i` of `n`: turns go
/// round the table, turn `t` to seat `t % n`.
pub open spec fn seat_turns(turns: int, n: int, i: int) -> nat
    decreases turns,
{
    if turns <= 0 {
        0
    } else {
        seat_turns(turns - 1, n, i) + if (turns - 1) % n == i { 1nat } else { 0nat }
    }
}

/// A battle between bots of the library, as it stands between turns: the
/// game of each bot, the referee's game, and the last move of each seat.
pub struct BattleSim {
    pub bots: Seq<GameModel>,
    pub referee: GameModel,
    pub last: Seq<MoveView>,
}

/// The setup message of seat `i` of `n`.
pub open spec fn seat_setup(map: GameMap, settings: Settings, n: int, i: int) -> SetupSP {
    SetupSP { punter: i as usize, punters: n as usize, map, settings: Some(settings) }
}

pub open spec fn sim_init(map: GameMap, settings: Settings, n: int) -> BattleSim {
    BattleSim {
        bots: Seq::new(n as nat, |i: int| setup_with_futures(seat_setup(map, settings, n, i))),
        referee: setup_model(seat_setup(map, settings, n, 0)),
        last: Seq::new(n as nat, |i: int| MoveView::Pass(Pass { punter: i as usize })),
    }
}

/// Turn `t`: the bot of seat `t % n` applies the last moves of the others,
/// picks its move with its strategy and applies it; so does the referee.
pub open spec fn sim_turn(st: BattleSim, strategies: Seq<Strategy>, t: int) -> BattleSim {
    let cur = t % (strategies.len() as int);
    let g1 = after_moves_excluding(st.bots[cur], st.last, st.bots[cur].me, 0);
    let m = chosen_move(g1, strategies[cur]);
    BattleSim {
        bots: st.bots.update(cur, with_edges(g1, edges_after_move(g1, m))),
        referee: with_edges(st.referee, edges_after_move(st.referee, m)),
        last: st.last.update(cur, m),
    }
}

/// The battle after its first `t` turns.
pub open spec fn sim_after(map: GameMap, settings: Settings, strategies: Seq<Strategy>, t: int) -> BattleSim
    decreases t,
{
    if t <= 0 {
        sim_init(map, settings, strategies.len() as int)
    } else {
        sim_turn(sim_after(map, settings, strategies, t - 1), strategies, t - 1)
    }
}

proof fn lemma_sim_len(map: GameMap, settings: Settings, strategies: Seq<Strategy>, t: int)
    requires
        strategies.len() > 0,
        strategies.len() <= usize::MAX,
    ensures
        sim_after(map, settings, strategies, t).bots.len() == strategies.len(),
        sim_after(map, settings, strategies, t).last.len() == strategies.len(),
        forall|k: int| 0 <= k < strategies.len() ==> (#[trigger] sim_after(map, settings, strategies, t).bots[k]).me == k,
    decreases t,
{
    if t > 0 {
        lemma_sim_len(map, settings, strategies, t - 1);
        let n = strategies.len() as int;
        assert(0 <= (t - 1) % n < n);
        let st = sim_after(map, settings, strategies, t - 1);
        let cur = (t - 1) % n;
        crate::game::lemma_after_moves_keeps_me(st.bots[cur], st.last, st.bots[cur].me, 0);
        let st2 = sim_after(map, settings, strategies, t);
        assert forall|k: int| 0 <= k < strategies.len() implies (#[trigger] st2.bots[k]).me == k by {
            assert(st.bots[k].me == k);
        }
    } else {
        let st = sim_after(map, settings, strategies, t);
        assert forall|k: int| 0 <= k < strategies.len() implies (#[trigger] st.bots[k]).me == k by {
            assert(st.bots[k] == setup_with_futures(seat_setup(map, settings, strategies.len() as int, k)));
        }
    }
}

/// The move counts of a list of outcomes.
pub open spec fn outcome_move_counts(o: Seq<PunterOutcome>) -> Seq<u64> {
    o.map_values(|x: PunterOutcome| x.move_count)
}

/// Runs a whole battle between bots of the library, one per strategy, in
/// the order given: setup for each, one turn per river round the table,
/// then the final message for each. `None` when there is no bot, too many,
/// or the map is not valid.
pub fn run_internal_battle(map: GameMap, settings: Settings, strategies: &Vec<Strategy>) -> (r: Option<Vec<PunterOutcome>>)
    ensures
        r is Some <==> (0 < strategies@.len() <= MAX_PUNTERS && valid_map(map)),
        r is Some ==> {
            let o = r.unwrap()@;
            let n = strategies@.len() as int;
            let fin = sim_after(map, settings, strategies@, map.rivers@.len() as int);
            &&& o.len() == n
            &&& seq_sum(outcome_move_counts(o)) == map.rivers@.len()
            &&& forall|i: int| 0 <= i < o.len() ==> (#[trigger] o[i]).punter == i
                && o[i].point == rank_of(outcome_scores(o), o[i].score)
                && o[i].score == score_of(fin.referee, i as PunterId)
                && o[i].move_count == seat_turns(map.rivers@.len() as int, n, i)
        },
{
    let ghost smap = map;
    let n = strategies.len();
    let mut battle = match Battle::new(map, settings, n) {
        Some(b) => b,
        None => return None,
    };
    let mut bots: Vec<InternalBot> = Vec::new();
    let mut i: usize = 0;
    while i < n
        invariant
            battle.wf(),
            battle@.punters == n,
            battle@.turn == 0,
            battle@.turns == smap.rivers@.len(),
            battle@.sites == smap.sites@ && battle@.rivers == smap.rivers@ && battle@.mines == smap.mines@,
            battle@.settings == settings,
            battle@.game == sim_init(smap, settings, n as int).referee,
            battle@.last_moves == sim_init(smap, settings, n as int).last,
            valid_map(smap),
            i <= n,
            n == strategies@.len(),
            bots@.len() == i,
            forall|k: int| 0 <= k < i ==> (#[trigger] bots@[k]).wf()
                && bots@[k]@.strategy == strategies@[k]
                && bots@[k]@.game == Some(sim_init(smap, settings, n as int).bots[k]),
        decreases n - i,
    {
        let mut bot = InternalBot::new(strategies[i]);
        let request = battle.setup_request(i);
        proof {
            crate::game::lemma_same_map_same_model(request, seat_setup(smap, settings, n as int, i as int));
        }
        let reply = bot.setup(request);
        battle.record_setup(i, reply);
        bots.push(bot);
        i = i + 1;
    }
    let ghost turns = battle@.turns;
    assert(turns == smap.rivers@.len());
    assert(sim_after(smap, settings, strategies@, 0) == sim_init(smap, settings, n as int));
    while !battle.is_over()
        invariant
            battle.wf(),
            battle@.punters == n,
            battle@.turns == turns,
            n == strategies@.len(),
            bots@.len() == n,
            battle@.game == sim_after(smap, settings, strategies@, battle@.turn as int).referee,
            battle@.last_moves == sim_after(smap, settings, strategies@, battle@.turn as int).last,
            forall|k: int| 0 <= k < n ==> (#[trigger] bots@[k]).wf()
                && bots@[k]@.strategy == strategies@[k]
                && bots@[k]@.game == Some(sim_after(smap, settings, strategies@, battle@.turn as int).bots[k]),
        decreases battle@.turns - battle@.turn,
    {
        let ghost t = battle@.turn as int;
        let ghost st = sim_after(smap, settings, strategies@, t);
        let cur = battle.current_punter();
        let request = battle.gameplay_request();
        let ghost g1 = after_moves_excluding(st.bots[cur as int], st.last, st.bots[cur as int].me, 0);
        assert(game_after_request(st.bots[cur as int], request.moves.moves@) == g1);
        let ghost old_bots = bots@;
        let reply = bots[cur].play(request);
        let ghost m = reply.unwrap().to_move()@;
        proof {
            lemma_strategy_move_unique(g1, strategies@[cur as int], m, m);
            lemma_sim_len(smap, settings, strategies@, t);
            crate::game::lemma_after_moves_keeps_me(st.bots[cur as int], st.last, st.bots[cur as int].me, 0);
            crate::game::lemma_strategy_move_punter(g1, strategies@[cur as int], m);
            assert(move_punter(reply.unwrap().to_move()) == cur);
            assert(bots@[cur as int]@.game == Some(with_edges(g1, edges_after_move(g1, m))));
            assert forall|k: int| 0 <= k < n && k != cur implies #[trigger] bots@[k] == old_bots[k] by {}
        }
        battle.record_reply(reply);
        proof {
            let st2 = sim_after(smap, settings, strategies@, t + 1);
            lemma_sim_len(smap, settings, strategies@, t);
            assert(st2 == sim_turn(st, strategies@, t));
            assert(cur as int == t % (strategies@.len() as int));
            assert(m == chosen_move(g1, strategies@[cur as int]));
            assert(st2.bots[cur as int] == with_edges(g1, edges_after_move(g1, m)));
            assert forall|k: int| 0 <= k < n implies (#[trigger] bots@[k]).wf()
                && bots@[k]@.strategy == strategies@[k]
                && bots@[k]@.game == Some(st2.bots[k]) by {
                if k != cur {
                    assert(bots@[k] == old_bots[k]);
                    assert(st2.bots[k] == st.bots[k]);
                }
            }
        }
    }
    let order = battle.stop_order();
    let mut i: usize = 0;
    while i < n
        invariant
            battle.wf(),
            battle@.punters == n,
            battle@.turn == battle@.turns,
            battle@.turns == turns,
            battle@.game == sim_after(smap, settings, strategies@, turns as int).referee,
            order@.len() == n,
            forall|k: int| 0 <= k < n ==> #[trigger] order@[k] < n,
            bots@.len() == n,
            i <= n,
        decreases n - i,
    {
        let p = order[i];
        let scoring = battle.scoring_request(p);
        let _ = bots[p].stop(scoring);
        i = i + 1;
    }
    let o = battle.outcomes();
    assert(outcome_move_counts(o@) =~= battle@.move_counts);
    assert(seq_sum(battle@.move_counts) == battle@.turn);
    assert(battle@.turn == battle@.turns);
    assert(turns == smap.rivers@.len());
    Some(o)
}

/// What one punter got in one battle, under the name of its bot.
#[derive(Debug, Clone)]
pub struct PunterScore {
    pub bot_name: String,
    pub point: usize,
    pub score: i64,
    pub move_count: u64,
    /// Time spent in the bot, in nanoseconds.
    pub consumed_time: u64,
}

/// What one bot got over many battles.
#[derive(Debug, Clone)]
pub struct BotStat {
    pub point: Vec<usize>,
    pub score: Vec<i64>,
    pub move_count: u64,
    /// Time spent in the bot, in nanoseconds.
    pub consumed_time: u64,
}

/// The statistics of each bot, by name, in the order the names first came.
#[derive(Debug, Clone)]
pub struct ArenaStats {
    pub stats: Vec<(String, BotStat)>,
}

/// `a + b`, or the largest `u64` where the sum does not fit.
pub open spec fn add_capped(a: u64, b: u64) -> u64 {
    if a + b > u64::MAX { u64::MAX } else { (a + b) as u64 }
}

fn add_capped_exec(a: u64, b: u64) -> (r: u64)
    ensures
        r == add_capped(a, b),
{
    if a > u64::MAX - b { u64::MAX } else { a + b }
}

/// Whether two texts are the same, compared byte by byte.
fn same_text(a: &str, b: &str) -> (r: bool)
    ensures
        r == (a@ == b@),
{
    let x = a.as_bytes();
    let y = b.as_bytes();
    proof {
        vstd::utf8::encode_utf8_decode_utf8(a@);
        vstd::utf8::encode_utf8_decode_utf8(b@);
    }
    if x.len() != y.len() {
        return false;
    }
    let mut i: usize = 0;
    while i < x.len()
        invariant
            x@.len() == y@.len(),
            x@ == encode_utf8(a@),
            y@ == encode_utf8(b@),
            i <= x@.len(),
            forall|k: int| 0 <= k < i ==> x@[k] == y@[k],
        decreases x@.len() - i,
    {
        if x[i] != y[i] {
            return false;
        }
        i = i + 1;
    }
    assert(x@ =~= y@);
    true
}

/// The position of the entry named `name`, if there is one.
pub open spec fn entry_of(stats: Seq<(String, BotStat)>, name: Seq<char>) -> Option<int> {
    if exists|i: int| 0 <= i < stats.len() && (#[trigger] stats[i]).0@ == name {
        Some(choose|i: int| 0 <= i < stats.len() && (#[trigger] stats[i]).0@ == name)
    } else {
        None
    }
}

impl ArenaStats {
    pub fn new() -> (r: ArenaStats)
        ensures
            r.stats@.len() == 0,
    {
        ArenaStats { stats: Vec::new() }
    }

    /// No two entries have the same name.
    pub open spec fn wf(&self) -> bool {
        forall|i: int, j: int| 0 <= i < j < self.stats@.len() ==> (#[trigger] self.stats@[i]).0@ != (#[trigger] self.stats@[j]).0@
    }

    /// Adds one result to the entry of its bot, which is made where it is
    /// missing: the point and the score are appended, the counts added.
    pub fn add(&mut self, result: PunterScore)
        requires
            old(self).wf(),
        ensures
            final(self).wf(),
            ({
                let name = result.bot_name@;
                match entry_of(old(self).stats@, name) {
                    Some(i) => {
                        let (n0, s0) = old(self).stats@[i];
                        let (n1, s1) = final(self).stats@[i];
                        &&& final(self).stats@.len() == old(self).stats@.len()
                        &&& forall|j: int| 0 <= j < old(self).stats@.len() && j != i ==> #[trigger] final(self).stats@[j] == old(self).stats@[j]
                        &&& n1@ == name
                        &&& s1.point@ == s0.point@.push(result.point)
                        &&& s1.score@ == s0.score@.push(result.score)
                        &&& s1.move_count == add_capped(s0.move_count, result.move_count)
                        &&& s1.consumed_time == add_capped(s0.consumed_time, result.consumed_time)
                    },
                    None => {
                        let (n1, s1) = final(self).stats@.last();
                        &&& final(self).stats@.len() == old(self).stats@.len() + 1
                        &&& forall|j: int| 0 <= j < old(self).stats@.len() ==> #[trigger] final(self).stats@[j] == old(self).stats@[j]
                        &&& n1@ == name
                        &&& s1.point@ == seq![result.point]
                        &&& s1.score@ == seq![result.score]
                        &&& s1.move_count == result.move_count
                        &&& s1.consumed_time == result.consumed_time
                    },
                }
            }),
    {
        let ghost name = result.bot_name@;
        let mut found: usize = self.stats.len();
        let mut i: usize = 0;
        while i < self.stats.len()
            invariant
                i <= self.stats@.len(),
                found == self.stats@.len() ==> forall|k: int| 0 <= k < i ==> (#[trigger] self.stats@[k]).0@ != name,
                found < self.stats@.len() ==> self.stats@[found as int].0@ == name,
                found <= self.stats@.len(),
                name == result.bot_name@,
                self.stats@ == old(self).stats@,
            decreases self.stats@.len() - i,
        {
            if found == self.stats.len() && same_text(self.stats[i].0.as_str(), result.bot_name.as_str()) {
                found = i;
            }
            i = i + 1;
        }
        let i = found;
        if i < self.stats.len() {
            proof {
                let j = choose|j: int| 0 <= j < self.stats@.len() && (#[trigger] self.stats@[j]).0@ == name;
                if j != i {
                    assert(self.stats@[j].0@ == self.stats@[i as int].0@);
                }
            }
            let (entry_name, mut stat) = self.stats.remove(i);
            stat.point.push(result.point);
            stat.score.push(result.score);
            stat.move_count = add_capped_exec(stat.move_count, result.move_count);
            stat.consumed_time = add_capped_exec(stat.consumed_time, result.consumed_time);
            self.stats.insert(i, (entry_name, stat));
            proof {
                assert forall|j: int| 0 <= j < old(self).stats@.len() && j != i implies #[trigger] self.stats@[j] == old(self).stats@[j] by {
                    if j < i {
                    } else {
                    }
                }
            }
        } else {
            let mut point: Vec<usize> = Vec::new();
            point.push(result.point);
            let mut score: Vec<i64> = Vec::new();
            score.push(result.score);
            let stat = BotStat { point, score, move_count: result.move_count, consumed_time: result.consumed_time };
            self.stats.push((result.bot_name, stat));
            assert(point@ =~= seq![result.point]);
        }
    }

    /// The statistics of the bot named `name`.
    pub fn get(&self, name: &str) -> (r: Option<&BotStat>)
        requires
            self.wf(),
        ensures
            r is Some <==> entry_of(self.stats@, name@) is Some,
            r is Some ==> *r.unwrap() == self.stats@[entry_of(self.stats@, name@).unwrap()].1,
    {
        let mut i: usize = 0;
        while i < self.stats.len()
            invariant
                self.wf(),
                i <= self.stats@.len(),
                forall|k: int| 0 <= k < i ==> (#[trigger] self.stats@[k]).0@ != name@,
            decreases self.stats@.len() - i,
        {
            if same_text(self.stats[i].0.as_str(), name) {
                proof {
                    let j = choose|j: int| 0 <= j < self.stats@.len() && (#[trigger] self.stats@[j]).0@ == name@;
                    if j != i {
                        assert(self.stats@[j].0@ == self.stats@[i as int].0@);
                    }
                }
                return Some(&self.stats[i].1);
            }
            i = i + 1;
        }
        None
    }
}

/// The (point, score) results of the bot named `name`, in the order of `rs`.
pub open spec fn named(rs: Seq<PunterScore>, name: Seq<char>) -> Seq<(usize, i64)>
    decreases rs.len(),
{
    if rs.len() == 0 {
        Seq::empty()
    } else if rs.last().bot_name@ == name {
        named(rs.drop_last(), name).push((rs.last().point, rs.last().score))
    } else {
        named(rs.drop_last(), name)
    }
}

proof fn lemma_named_remove(rs: Seq<PunterScore>, j: int, name: Seq<char>)
    requires
        0 <= j < rs.len(),
    ensures
        named(rs, name).to_multiset() == if rs[j].bot_name@ == name {
            named(rs.remove(j), name).to_multiset().insert((rs[j].point, rs[j].score))
        } else {
            named(rs.remove(j), name).to_multiset()
        },
    decreases rs.len(),
{
    broadcast use vstd::seq_lib::group_seq_properties;
    if j == rs.len() - 1 {
        assert(rs.remove(j) =~= rs.drop_last());
        vstd::seq_lib::to_multiset_build(named(rs.drop_last(), name), (rs[j].point, rs[j].score));
    } else {
        let r2 = rs.remove(j);
        assert(r2.drop_last() =~= rs.drop_last().remove(j));
        assert(r2.last() == rs.last());
        lemma_named_remove(rs.drop_last(), j, name);
        if rs.last().bot_name@ == name {
            vstd::seq_lib::to_multiset_build(named(rs.drop_last(), name), (rs.last().point, rs.last().score));
            vstd::seq_lib::to_multiset_build(named(r2.drop_last(), name), (rs.last().point, rs.last().score));
        }
    }
}

/// The results of each bot, as a multiset, do not depend on the order in
/// which the battles' results come.
pub proof fn lemma_named_permutation(rs1: Seq<PunterScore>, rs2: Seq<PunterScore>, name: Seq<char>)
    requires
        rs1.to_multiset() == rs2.to_multiset(),
    ensures
        named(rs1, name).to_multiset() == named(rs2, name).to_multiset(),
    decreases rs1.len(),
{
    broadcast use vstd::seq_lib::group_seq_properties;
    vstd::seq_lib::to_multiset_len(rs1);
    vstd::seq_lib::to_multiset_len(rs2);
    if rs1.len() == 0 {
        assert(rs2.len() == 0);
        assert(named(rs2, name) =~= Seq::<(usize, i64)>::empty());
    } else {
        let x = rs1.last();
        let r1 = rs1.drop_last();
        assert(rs1 =~= r1.push(x));
        vstd::seq_lib::to_multiset_build(r1, x);
        assert(rs2.to_multiset().count(x) > 0);
        vstd::seq_lib::to_multiset_contains(rs2, x);
        let j = choose|j: int| 0 <= j < rs2.len() && rs2[j] == x;
        vstd::seq_lib::to_multiset_remove(rs2, j);
        assert(r1.to_multiset() =~= rs2.remove(j).to_multiset());
        lemma_named_permutation(r1, rs2.remove(j), name);
        lemma_named_remove(rs2, j, name);
        if x.bot_name@ == name {
            vstd::seq_lib::to_multiset_build(named(r1, name), (x.point, x.score));
        }
    }
}

/// The total time spent in the bot named `name` in `rs`.
pub open spec fn named_times(rs: Seq<PunterScore>, name: Seq<char>) -> int
    decreases rs.len(),
{
    if rs.len() == 0 {
        0
    } else {
        named_times(rs.drop_last(), name) + if rs.last().bot_name@ == name { rs.last().consumed_time as int } else { 0 }
    }
}

proof fn lemma_named_times_nonneg(rs: Seq<PunterScore>, name: Seq<char>)
    ensures
        named_times(rs, name) >= 0,
    decreases rs.len(),
{
    if rs.len() > 0 {
        lemma_named_times_nonneg(rs.drop_last(), name);
    }
}

proof fn lemma_named_times_empty(rs: Seq<PunterScore>, name: Seq<char>)
    requires
        named(rs, name).len() == 0,
    ensures
        named_times(rs, name) == 0,
    decreases rs.len(),
{
    if rs.len() > 0 {
        lemma_named_times_empty(rs.drop_last(), name);
    }
}

proof fn lemma_named_moves_nonneg(rs: Seq<PunterScore>, name: Seq<char>)
    ensures
        named_moves(rs, name) >= 0,
    decreases rs.len(),
{
    if rs.len() > 0 {
        lemma_named_moves_nonneg(rs.drop_last(), name);
    }
}

proof fn lemma_named_moves_empty(rs: Seq<PunterScore>, name: Seq<char>)
    requires
        named(rs, name).len() == 0,
    ensures
        named_moves(rs, name) == 0,
    decreases rs.len(),
{
    if rs.len() > 0 {
        lemma_named_moves_empty(rs.drop_last(), name);
    }
}

proof fn lemma_capped_add(a: int, b: u64)
    requires
        a >= 0,
    ensures
        add_capped(capped(a), b) == capped(a + b),
{
}

proof fn lemma_entry_at(stats: Seq<(String, BotStat)>, name: Seq<char>, i: int)
    requires
        forall|a: int, b: int| 0 <= a < b < stats.len() ==> (#[trigger] stats[a]).0@ != (#[trigger] stats[b]).0@,
        0 <= i < stats.len(),
        stats[i].0@ == name,
    ensures
        entry_of(stats, name) == Some(i),
{
    let j = choose|j: int| 0 <= j < stats.len() && (#[trigger] stats[j]).0@ == name;
    if j < i { assert(stats[j].0@ != stats[i].0@); }
    if i < j { assert(stats[i].0@ != stats[j].0@); }
}

/// The total number of moves of the bot named `name` in `rs`.
pub open spec fn named_moves(rs: Seq<PunterScore>, name: Seq<char>) -> int
    decreases rs.len(),
{
    if rs.len() == 0 {
        0
    } else {
        named_moves(rs.drop_last(), name) + if rs.last().bot_name@ == name { rs.last().move_count as int } else { 0 }
    }
}

proof fn lemma_named_moves_remove(rs: Seq<PunterScore>, j: int, name: Seq<char>)
    requires
        0 <= j < rs.len(),
    ensures
        named_moves(rs, name) == named_moves(rs.remove(j), name) + if rs[j].bot_name@ == name { rs[j].move_count as int } else { 0 },
    decreases rs.len(),
{
    if j == rs.len() - 1 {
        assert(rs.remove(j) =~= rs.drop_last());
    } else {
        let r2 = rs.remove(j);
        assert(r2.drop_last() =~= rs.drop_last().remove(j));
        assert(r2.last() == rs.last());
        lemma_named_moves_remove(rs.drop_last(), j, name);
    }
}

/// The total number of moves of each bot does not depend on the order in
/// which the battles' results come.
pub proof fn lemma_named_moves_permutation(rs1: Seq<PunterScore>, rs2: Seq<PunterScore>, name: Seq<char>)
    requires
        rs1.to_multiset() == rs2.to_multiset(),
    ensures
        named_moves(rs1, name) == named_moves(rs2, name),
    decreases rs1.len(),
{
    vstd::seq_lib::to_multiset_len(rs1);
    vstd::seq_lib::to_multiset_len(rs2);
    if rs1.len() > 0 {
        let x = rs1.last();
        let r1 = rs1.drop_last();
        assert(rs1 =~= r1.push(x));
        vstd::seq_lib::to_multiset_build(r1, x);
        assert(rs2.to_multiset().count(x) > 0);
        vstd::seq_lib::to_multiset_contains(rs2, x);
        let j = choose|j: int| 0 <= j < rs2.len() && rs2[j] == x;
        vstd::seq_lib::to_multiset_remove(rs2, j);
        assert(r1.to_multiset() =~= rs2.remove(j).to_multiset());
        lemma_named_moves_permutation(r1, rs2.remove(j), name);
        lemma_named_moves_remove(rs2, j, name);
    }
}

/// The sum `x`, capped at the largest `u64`.
pub open spec fn capped(x: int) -> u64 {
    if x > u64::MAX { u64::MAX } else { x as u64 }
}

/// Adds the results in order into fresh statistics.
pub fn collect_stats(results: Vec<PunterScore>) -> (r: ArenaStats)
    ensures
        r.wf(),
        forall|name: Seq<char>| #![trigger entry_of(r.stats@, name)] match entry_of(r.stats@, name) {
            Some(i) => named(results@, name).len() > 0 && {
                let s = r.stats@[i].1;
                &&& s.point@.len() == named(results@, name).len()
                &&& s.score@.len() == named(results@, name).len()
                &&& forall|k: int| 0 <= k < s.point@.len() ==> (s.point@[k], s.score@[k]) == #[trigger] named(results@, name)[k]
                &&& s.move_count == capped(named_moves(results@, name))
                &&& s.consumed_time == capped(named_times(results@, name))
            },
            None => named(results@, name).len() == 0,
        },
{
    let ghost rs = results@;
    let mut stats = ArenaStats::new();
    let mut k: usize = 0;
    let n = results.len();
    while k < n
        invariant
            n == rs.len(),
            k <= n,
            results@ == rs,
            stats.wf(),
            forall|name: Seq<char>| #![trigger entry_of(stats.stats@, name)] match entry_of(stats.stats@, name) {
                Some(i) => named(rs.take(k as int), name).len() > 0 && {
                    let s = stats.stats@[i].1;
                    &&& s.point@.len() == named(rs.take(k as int), name).len()
                    &&& s.score@.len() == named(rs.take(k as int), name).len()
                    &&& forall|m: int| 0 <= m < s.point@.len() ==> (s.point@[m], s.score@[m]) == #[trigger] named(rs.take(k as int), name)[m]
                    &&& s.move_count == capped(named_moves(rs.take(k as int), name))
                    &&& s.consumed_time == capped(named_times(rs.take(k as int), name))
                },
                None => named(rs.take(k as int), name).len() == 0,
            },
        decreases n - k,
    {
        let r = PunterScore {
            bot_name: results[k].bot_name.clone(),
            point: results[k].point,
            score: results[k].score,
            move_count: results[k].move_count,
            consumed_time: results[k].consumed_time,
        };
        let ghost old_stats = stats.stats@;
        let ghost rname = r.bot_name@;
        stats.add(r);
        proof {
            let pre = rs.take(k as int);
            let post = rs.take(k + 1);
            assert(post.drop_last() =~= pre);
            assert(post.last() == rs[k as int]);
            assert(rs[k as int] == results@[k as int]);
            assert forall|name: Seq<char>| #![trigger entry_of(stats.stats@, name)] match entry_of(stats.stats@, name) {
                Some(i) => named(post, name).len() > 0 && {
                    let s = stats.stats@[i].1;
                    &&& s.point@.len() == named(post, name).len()
                    &&& s.score@.len() == named(post, name).len()
                    &&& forall|m: int| 0 <= m < s.point@.len() ==> (s.point@[m], s.score@[m]) == #[trigger] named(post, name)[m]
                    &&& s.move_count == capped(named_moves(post, name))
                    &&& s.consumed_time == capped(named_times(post, name))
                },
                None => named(post, name).len() == 0,
            } by {
                let now = stats.stats@;
                if rname == name {
                    assert(named(post, name) == named(pre, name).push((rs[k as int].point, rs[k as int].score)));
                    assert(named_moves(post, name) == named_moves(pre, name) + rs[k as int].move_count);
                    assert(named_moves(pre, name) >= 0) by { lemma_named_moves_nonneg(pre, name); }
                    assert(named_times(post, name) == named_times(pre, name) + rs[k as int].consumed_time);
                    assert(named_times(pre, name) >= 0) by { lemma_named_times_nonneg(pre, name); }
                    match entry_of(old_stats, name) {
                        Some(i) => {
                            lemma_capped_add(named_moves(pre, name), rs[k as int].move_count);
                            lemma_capped_add(named_times(pre, name), rs[k as int].consumed_time);
                            lemma_entry_at(now, name, i);
                        },
                        None => {
                            lemma_named_moves_empty(pre, name);
                            lemma_named_times_empty(pre, name);
                            lemma_entry_at(now, name, now.len() - 1);
                        },
                    }
                } else {
                    assert(named(post, name) == named(pre, name));
                    assert(named_moves(post, name) == named_moves(pre, name));
                    assert(named_times(post, name) == named_times(pre, name));
                    match entry_of(old_stats, name) {
                        Some(i) => {
                            assert(old_stats[i].0@ == name);
                            match entry_of(old_stats, rname) {
                                Some(ir) => { assert(old_stats[ir].0@ == rname); assert(i != ir); },
                                None => {},
                            }
                            assert(now[i] == old_stats[i]);
                            lemma_entry_at(now, name, i);
                        },
                        None => {
                            assert forall|j: int| 0 <= j < now.len() implies (#[trigger] now[j]).0@ != name by {
                                if j < old_stats.len() {
                                    match entry_of(old_stats, rname) {
                                        Some(ir) => {
                                            if j != ir { assert(now[j] == old_stats[j]); }
                                        },
                                        None => { assert(now[j] == old_stats[j]); },
                                    }
                                }
                            }
                        },
                    }
                }
            }
        }
        k = k + 1;
    }
    assert(rs.take(n as int) =~= rs);
    stats
}

/// A battle of two bots of the edge-weight strategy on `map`, with the
/// statistics under the strategy's name: one score per bot, in seat order.
pub fn sample_battle(map: GameMap) -> (r: Option<ArenaStats>)
    ensures
        r is Some <==> valid_map(map),
        r is Some ==> r.unwrap().wf() && r.unwrap().stats@.len() == 1 && r.unwrap().stats@[0].0@ == "EdgeWeight"@
            && r.unwrap().stats@[0].1.score@.len() == 2 && r.unwrap().stats@[0].1.point@.len() == 2,
        r is Some ==> {
            let fin = sim_after(
                map,
                Settings { futures: None, splurge: None, options: None },
                seq![Strategy::EdgeWeight, Strategy::EdgeWeight],
                map.rivers@.len() as int,
            );
            let s = r.unwrap().stats@[0].1;
            &&& s.score@[0] == score_of(fin.referee, 0)
            &&& s.score@[1] == score_of(fin.referee, 1)
            &&& s.point@[0] == rank_of(s.score@, s.score@[0])
            &&& s.point@[1] == rank_of(s.score@, s.score@[1])
        },
{
    let mut strategies: Vec<Strategy> = Vec::new();
    strategies.push(Strategy::EdgeWeight);
    strategies.push(Strategy::EdgeWeight);
    assert(strategies@ =~= seq![Strategy::EdgeWeight, Strategy::EdgeWeight]);
    let outcomes = match run_internal_battle(map, Settings { futures: None, splurge: None, options: None }, &strategies) {
        Some(o) => o,
        None => return None,
    };
    let mut results: Vec<PunterScore> = Vec::new();
    let mut i: usize = 0;
    while i < outcomes.len()
        invariant
            i <= outcomes@.len(),
            results@.len() == i,
            forall|k: int| 0 <= k < i ==> (#[trigger] results@[k]).bot_name@ == "EdgeWeight"@
                && results@[k].score == outcomes@[k].score && results@[k].point == outcomes@[k].point,
        decreases outcomes@.len() - i,
    {
        let o = outcomes[i];
        results.push(PunterScore {
            bot_name: String::from_str("EdgeWeight"),
            point: o.point,
            score: o.score,
            move_count: o.move_count,
            consumed_time: 0,
        });
        i = i + 1;
    }
    let ghost rs = results@;
    let stats = collect_stats(results);
    proof {
        let name = "EdgeWeight"@;
        assert(rs.len() == 2);
        assert(rs.drop_last().drop_last() =~= Seq::<PunterScore>::empty());
        assert(rs.drop_last()[0] == rs[0]);
        assert(rs.last().bot_name@ == name);
        assert(rs.drop_last().last().bot_name@ == name);
        assert(named(rs.drop_last().drop_last(), name).len() == 0);
        assert(named(rs.drop_last(), name).len() == 1);
        assert(named(rs, name).len() == 2);
        match entry_of(stats.stats@, name) {
            Some(e) => {
                assert forall|j: int| 0 <= j < stats.stats@.len() implies (#[trigger] stats.stats@[j]).0@ == name by {
                    let other = stats.stats@[j].0@;
                    if other != name {
                        match entry_of(stats.stats@, other) {
                            Some(x) => { assert(named(rs, other).len() > 0); lemma_named_none(rs, other); },
                            None => { assert(stats.stats@[j].0@ == other); },
                        }
                    }
                }
                if stats.stats@.len() > 1 {
                    assert(stats.stats@[0].0@ == stats.stats@[1].0@);
                }
                assert(stats.stats@[0].0@ == name);
                lemma_entry_at(stats.stats@, name, 0);
                let st = stats.stats@[0].1;
                assert(named(rs, name) == seq![(rs[0].point, rs[0].score), (rs[1].point, rs[1].score)]);
                assert(st.score@ =~= outcome_scores(outcomes@));
                assert((st.point@[0], st.score@[0]) == named(rs, name)[0]);
                assert((st.point@[1], st.score@[1]) == named(rs, name)[1]);
            },
            None => {},
        }
    }
    Some(stats)
}

/// A name that no result carries has no results.
proof fn lemma_named_none(rs: Seq<PunterScore>, name: Seq<char>)
    requires
        forall|k: int| 0 <= k < rs.len() ==> (#[trigger] rs[k]).bot_name@ != name,
    ensures
        named(rs, name).len() == 0,
    decreases rs.len(),
{
    if rs.len() > 0 {
        lemma_named_none(rs.drop_last(), name);
    }
}
} // verus!
