use vstd::prelude::*;
use super::{Game, GameExtension, GameModel, MAX_MINES, MAX_RIVERS, MAX_SITES, Strategy, build_adjacency, build_lookup, model_wf, score_of, strategy_move, strictly_increasing};
use crate::prelude::PunterId;
use crate::protocol::MoveView;
use crate::edge::{Claimed, Edge, Node};
use crate::paths::{Walk, bfs, edges_wf, is_dist_table};

verus! {

/// Words before the variable-length parts of an encoded game.
pub const HEADER_WORDS: usize = 11;

/// A claim state as three words: a tag and the owners.
pub open spec fn claim_words(c: Claimed) -> (u64, u64, u64) {
    match c {
        Claimed::NotYet => (0, 0, 0),
        Claimed::Claimed(p) => (1, p as u64, 0),
        Claimed::Optioned(p, q) => (2, p as u64, q as u64),
    }
}

/// Word `k` of the five that encode an edge.
pub open spec fn edge_word(e: Edge, k: int) -> u64 {
    let c = claim_words(e.claimed);
    if k == 0 {
        e.source as u64
    } else if k == 1 {
        e.target as u64
    } else if k == 2 {
        c.0
    } else if k == 3 {
        c.1
    } else {
        c.2
    }
}

pub open spec fn bool_word(b: bool) -> u64 {
    if b { 1 } else { 0 }
}

/// The header: who we are, the sizes of the parts, the rules and counters.
pub open spec fn header_word(g: GameModel, i: int) -> u64 {
    if i == 0 {
        g.me as u64
    } else if i == 1 {
        g.punters as u64
    } else if i == 2 {
        g.site_ids.len() as u64
    } else if i == 3 {
        g.mines.len() as u64
    } else if i == 4 {
        g.edges.len() as u64
    } else if i == 5 {
        g.futures.len() as u64
    } else if i == 6 {
        bool_word(g.futures_on)
    } else if i == 7 {
        bool_word(g.splurge_on)
    } else if i == 8 {
        bool_word(g.options_on)
    } else if i == 9 {
        g.prior_passes as u64
    } else {
        g.prior_options as u64
    }
}

pub open spec fn word_count(g: GameModel) -> int {
    HEADER_WORDS + g.site_ids.len() + g.mines.len() + 5 * g.edges.len() + g.futures.len()
}

/// Word `i` of an encoded game: the header, then the site identifiers, the
/// mines, five words per edge and the future targets.
pub open spec fn word_at(g: GameModel, i: int) -> u64 {
    let a = HEADER_WORDS as int;
    let b = a + g.site_ids.len();
    let c = b + g.mines.len();
    let d = c + 5 * g.edges.len();
    if i < a {
        header_word(g, i)
    } else if i < b {
        g.site_ids[i - a]
    } else if i < c {
        g.mines[i - b] as u64
    } else if i < d {
        edge_word(g.edges[(i - c) / 5], (i - c) % 5)
    } else {
        g.futures[i - d] as u64
    }
}

pub open spec fn model_words(g: GameModel) -> Seq<u64> {
    Seq::new(word_count(g) as nat, |i: int| word_at(g, i))
}

/// Byte `k` of word `x`, least significant first.
pub open spec fn byte_of(x: u64, k: int) -> u8 {
    if k == 0 {
        (x & 0xff) as u8
    } else if k == 1 {
        ((x >> 8u64) & 0xff) as u8
    } else if k == 2 {
        ((x >> 16u64) & 0xff) as u8
    } else if k == 3 {
        ((x >> 24u64) & 0xff) as u8
    } else if k == 4 {
        ((x >> 32u64) & 0xff) as u8
    } else if k == 5 {
        ((x >> 40u64) & 0xff) as u8
    } else if k == 6 {
        ((x >> 48u64) & 0xff) as u8
    } else {
        ((x >> 56u64) & 0xff) as u8
    }
}

/// Eight bytes per word, little-endian.
pub open spec fn words_bytes(w: Seq<u64>) -> Seq<u8> {
    Seq::new(8 * w.len(), |i: int| byte_of(w[i / 8], i % 8))
}

/// The bytes of an encoded game.
pub open spec fn state_bytes(g: GameModel) -> Seq<u8> {
    words_bytes(model_words(g))
}

/// The text that base64 gives for some bytes.
pub uninterp spec fn base64_text(b: Seq<u8>) -> Seq<char>;

/// Relies on `base64::encode`: the standard, padded base64 text of the bytes.
#[verifier::external_body]
fn base64_encode(b: &Vec<u8>) -> (r: String)
    ensures
        r@ == base64_text(b@),
{
    base64::encode(b)
}

/// Relies on `base64::decode`: text that `base64::encode` made decodes to
/// the bytes it was made from.
#[verifier::external_body]
fn base64_decode(s: &str) -> (r: Option<Vec<u8>>)
    ensures
        forall|b: Seq<u8>| #[trigger] base64_text(b) == s@ ==> r is Some && r.unwrap()@ == b,
{
    base64::decode(s).ok()
}

fn word_bytes(x: u64, out: &mut Vec<u8>)
    ensures
        final(out)@ == old(out)@ + seq![byte_of(x, 0), byte_of(x, 1), byte_of(x, 2), byte_of(x, 3),
            byte_of(x, 4), byte_of(x, 5), byte_of(x, 6), byte_of(x, 7)],
{
    out.push((x & 0xff) as u8);
    out.push(((x >> 8u64) & 0xff) as u8);
    out.push(((x >> 16u64) & 0xff) as u8);
    out.push(((x >> 24u64) & 0xff) as u8);
    out.push(((x >> 32u64) & 0xff) as u8);
    out.push(((x >> 40u64) & 0xff) as u8);
    out.push(((x >> 48u64) & 0xff) as u8);
    out.push(((x >> 56u64) & 0xff) as u8);
}

/// The word whose little-endian bytes stand at `at` in `b`.
pub open spec fn word_of_bytes(b: Seq<u8>, at: int) -> u64 {
    (b[at] as u64) | ((b[at + 1] as u64) << 8u64) | ((b[at + 2] as u64) << 16u64) | ((b[at + 3] as u64) << 24u64)
        | ((b[at + 4] as u64) << 32u64) | ((b[at + 5] as u64) << 40u64) | ((b[at + 6] as u64) << 48u64)
        | ((b[at + 7] as u64) << 56u64)
}

fn word_from_bytes(b: &Vec<u8>, at: usize) -> (r: u64)
    requires
        at + 8 <= b@.len(),
    ensures
        r == word_of_bytes(b@, at as int),
{
    assert(b@.len() == b.len());
    let r = (b[at] as u64) | ((b[at + 1] as u64) << 8u64) | ((b[at + 2] as u64) << 16u64) | ((b[at + 3] as u64) << 24u64)
        | ((b[at + 4] as u64) << 32u64) | ((b[at + 5] as u64) << 40u64) | ((b[at + 6] as u64) << 48u64)
        | ((b[at + 7] as u64) << 56u64);
    r
}

proof fn lemma_word_round_trip(x: u64)
    ensures
        (byte_of(x, 0) as u64) | ((byte_of(x, 1) as u64) << 8u64) | ((byte_of(x, 2) as u64) << 16u64)
            | ((byte_of(x, 3) as u64) << 24u64) | ((byte_of(x, 4) as u64) << 32u64) | ((byte_of(x, 5) as u64) << 40u64)
            | ((byte_of(x, 6) as u64) << 48u64) | ((byte_of(x, 7) as u64) << 56u64) == x,
{
    assert(((x & 0xff) as u8 as u64) | ((((x >> 8u64) & 0xff) as u8 as u64) << 8u64)
        | ((((x >> 16u64) & 0xff) as u8 as u64) << 16u64) | ((((x >> 24u64) & 0xff) as u8 as u64) << 24u64)
        | ((((x >> 32u64) & 0xff) as u8 as u64) << 32u64) | ((((x >> 40u64) & 0xff) as u8 as u64) << 40u64)
        | ((((x >> 48u64) & 0xff) as u8 as u64) << 48u64) | ((((x >> 56u64) & 0xff) as u8 as u64) << 56u64) == x)
        by (bit_vector);
}

fn words_to_bytes(w: &Vec<u64>) -> (r: Vec<u8>)
    requires
        w@.len() <= 268435456,
    ensures
        r@ == words_bytes(w@),
{
    let mut out: Vec<u8> = Vec::new();
    let mut j: usize = 0;
    while j < w.len()
        invariant
            j <= w@.len(),
            w@.len() <= 268435456,
            out@.len() == 8 * j,
            forall|i: int| 0 <= i < 8 * j ==> #[trigger] out@[i] == byte_of(w@[i / 8], i % 8),
        decreases w@.len() - j,
    {
        let ghost before = out@;
        word_bytes(w[j], &mut out);
        proof {
            assert forall|i: int| 0 <= i < 8 * (j + 1) implies #[trigger] out@[i] == byte_of(w@[i / 8], i % 8) by {
                if i < 8 * j {
                    assert(out@[i] == before[i]);
                } else {
                    assert(i / 8 == j as int);
                }
            }
        }
        j = j + 1;
    }
    assert(out@ =~= words_bytes(w@));
    out
}

fn bytes_to_words(b: &Vec<u8>) -> (r: Option<Vec<u64>>)
    ensures
        forall|w: Seq<u64>| #[trigger] words_bytes(w) == b@ ==> r is Some && r.unwrap()@ == w,
{
    if b.len() % 8 != 0 {
        proof {
            assert forall|w: Seq<u64>| #[trigger] words_bytes(w) == b@ implies false by {
                assert(words_bytes(w).len() == 8 * w.len());
            }
        }
        return None;
    }
    let count = b.len() / 8;
    let mut out: Vec<u64> = Vec::new();
    let mut j: usize = 0;
    while j < count
        invariant
            count * 8 == b@.len(),
            j <= count,
            out@.len() == j,
            forall|w: Seq<u64>| #[trigger] words_bytes(w) == b@ ==> out@ == w.subrange(0, j as int),
        decreases count - j,
    {
        assert(8 * j + 8 <= count * 8) by (nonlinear_arith)
            requires j < count;
        assert(b@.len() == b.len());
        let x = word_from_bytes(b, 8 * j);
        let ghost before = out@;
        out.push(x);
        proof {
            assert forall|w: Seq<u64>| #[trigger] words_bytes(w) == b@ implies out@ == w.subrange(0, j + 1) by {
                assert(w.len() == count);
                assert forall|k: int| 0 <= k < 8 implies #[trigger] b@[8 * j + k] == byte_of(w[j as int], k) by {
                    assert(words_bytes(w)[8 * j + k] == byte_of(w[(8 * j + k) / 8], (8 * j + k) % 8));
                    assert((8 * j + k) / 8 == j as int);
                    assert((8 * j + k) % 8 == k);
                }
                assert(b@[8 * j + 0] == byte_of(w[j as int], 0));
                assert(b@[8 * j + 1] == byte_of(w[j as int], 1));
                assert(b@[8 * j + 2] == byte_of(w[j as int], 2));
                assert(b@[8 * j + 3] == byte_of(w[j as int], 3));
                assert(b@[8 * j + 4] == byte_of(w[j as int], 4));
                assert(b@[8 * j + 5] == byte_of(w[j as int], 5));
                assert(b@[8 * j + 6] == byte_of(w[j as int], 6));
                assert(b@[8 * j + 7] == byte_of(w[j as int], 7));
                lemma_word_round_trip(w[j as int]);
                assert(x == w[j as int]);
                assert(before == w.subrange(0, j as int));
                assert(out@ =~= w.subrange(0, j + 1));
            }
        }
        j = j + 1;
    }
    proof {
        assert forall|w: Seq<u64>| #[trigger] words_bytes(w) == b@ implies out@ == w by {
            assert(w.len() == count);
            assert(w.subrange(0, count as int) =~= w);
        }
    }
    Some(out)
}

/// `w` holds the encoding of the well-formed game `g`.
pub open spec fn encodes(w: Seq<u64>, g: GameModel) -> bool {
    model_wf(g) && w == model_words(g)
}

fn claim_from_words(tag: u64, p: u64, q: u64) -> (r: Option<Claimed>)
    ensures
        forall|c: Claimed| #[trigger] claim_words(c) == (tag, p, q) ==> r == Some(c),
        r is Some ==> claim_words(r.unwrap()) == (tag, p, q),
{
    if tag == 0 && p == 0 && q == 0 {
        Some(Claimed::NotYet)
    } else if tag == 1 && p <= usize::MAX as u64 && q == 0 {
        Some(Claimed::Claimed(p as usize))
    } else if tag == 2 && p <= usize::MAX as u64 && q <= usize::MAX as u64 {
        Some(Claimed::Optioned(p as usize, q as usize))
    } else {
        None
    }
}

impl Game {
    /// The game as words: the header, then the site identifiers, the mines,
    /// the edges and the future targets.
    fn encode_words(&self) -> (r: Vec<u64>)
        requires
            self.wf(),
        ensures
            r@ == model_words(self@),
            r@.len() <= 268435456,
    {
        let ghost g = self@;
        let n = self.site_ids.len();
        let m = self.mines.len();
        let e = self.edges.len();
        let f = self.extension.futures.len();
        let mut out: Vec<u64> = Vec::new();
        out.push(self.me as u64);
        out.push(self.punters as u64);
        out.push(n as u64);
        out.push(m as u64);
        out.push(e as u64);
        out.push(f as u64);
        out.push(if self.extension.is_futures_on { 1 } else { 0 });
        out.push(if self.extension.is_splurge_on { 1 } else { 0 });
        out.push(if self.extension.is_options_on { 1 } else { 0 });
        out.push(self.extension.prior_passes as u64);
        out.push(self.extension.prior_options as u64);
        assert forall|i: int| 0 <= i < out@.len() implies #[trigger] out@[i] == word_at(g, i) by {}
        let mut i: usize = 0;
        while i < n
            invariant
                g == self@,
                self.wf(),
                n == g.site_ids.len(),
                i <= n,
                out@.len() == HEADER_WORDS + i,
                forall|k: int| 0 <= k < out@.len() ==> #[trigger] out@[k] == word_at(g, k),
            decreases n - i,
        {
            out.push(self.site_ids[i]);
            i = i + 1;
        }
        let mut i: usize = 0;
        while i < m
            invariant
                g == self@,
                self.wf(),
                n == g.site_ids.len(),
                m == g.mines.len(),
                i <= m,
                out@.len() == HEADER_WORDS + n + i,
                forall|k: int| 0 <= k < out@.len() ==> #[trigger] out@[k] == word_at(g, k),
            decreases m - i,
        {
            out.push(self.mines[i] as u64);
            i = i + 1;
        }
        let mut i: usize = 0;
        while i < e
            invariant
                g == self@,
                self.wf(),
                n == g.site_ids.len(),
                m == g.mines.len(),
                e == g.edges.len(),
                e <= MAX_RIVERS,
                i <= e,
                out@.len() == HEADER_WORDS + n + m + 5 * i,
                forall|k: int| 0 <= k < out@.len() ==> #[trigger] out@[k] == word_at(g, k),
            decreases e - i,
        {
            let edge = self.edges[i];
            let (tag, p, q): (u64, u64, u64) = match edge.claimed {
                Claimed::NotYet => (0, 0, 0),
                Claimed::Claimed(p) => (1, p as u64, 0),
                Claimed::Optioned(p, q) => (2, p as u64, q as u64),
            };
            let ghost base = out@.len() as int;
            out.push(edge.source as u64);
            out.push(edge.target as u64);
            out.push(tag);
            out.push(p);
            out.push(q);
            proof {
                let c = base - 5 * i;
                assert forall|k: int| 0 <= k < out@.len() implies #[trigger] out@[k] == word_at(g, k) by {
                    if k >= base {
                        assert((k - c) / 5 == i as int);
                        assert((k - c) % 5 == k - base);
                    }
                }
            }
            i = i + 1;
        }
        let mut i: usize = 0;
        while i < f
            invariant
                g == self@,
                self.wf(),
                n == g.site_ids.len(),
                m == g.mines.len(),
                e == g.edges.len(),
                f == g.futures.len(),
                i <= f,
                out@.len() == HEADER_WORDS + n + m + 5 * e + i,
                forall|k: int| 0 <= k < out@.len() ==> #[trigger] out@[k] == word_at(g, k),
            decreases f - i,
        {
            out.push(self.extension.futures[i] as u64);
            i = i + 1;
        }
        assert(out@ =~= model_words(g));
        out
    }

    /// The game as text: its words as little-endian bytes, in base64.
    pub fn encode(&self) -> (r: String)
        requires
            self.wf(),
        ensures
            r@ == base64_text(state_bytes(self@)),
    {
        let words = self.encode_words();
        let bytes = words_to_bytes(&words);
        base64_encode(&bytes)
    }

    /// The game that `s` encodes. Text that `encode` made from a game gives
    /// that game back; other text gives `None` or some well-formed game.
    pub fn decode(s: &str) -> (r: Option<Game>)
        ensures
            r is Some ==> r.unwrap().wf(),
            forall|g: GameModel| model_wf(g) && s@ == base64_text(state_bytes(g)) ==> #[trigger] r_model(r) == Some(g),
    {
        let bytes = match base64_decode(s) {
            Some(b) => b,
            None => {
                proof {
                    assert forall|g: GameModel| model_wf(g) && s@ == base64_text(state_bytes(g)) implies #[trigger] r_model(None) == Some(g) by {
                        assert(base64_text(state_bytes(g)) == s@);
                    }
                }
                return None;
            },
        };
        let words = match bytes_to_words(&bytes) {
            Some(w) => w,
            None => {
                proof {
                    assert forall|g: GameModel| model_wf(g) && s@ == base64_text(state_bytes(g)) implies #[trigger] r_model(None) == Some(g) by {
                        assert(base64_text(state_bytes(g)) == s@);
                        assert(words_bytes(model_words(g)) == bytes@);
                    }
                }
                return None;
            },
        };
        let r = Game::decode_words(&words);
        proof {
            assert forall|g: GameModel| model_wf(g) && s@ == base64_text(state_bytes(g)) implies #[trigger] r_model(r) == Some(g) by {
                assert(base64_text(state_bytes(g)) == s@);
                assert(words_bytes(model_words(g)) == bytes@);
                assert(encodes(words@, g));
            }
        }
        r
    }
}

impl Game {
    /// The game that the words `w` encode (see `encode_words`), checked to
    /// be well-formed; the tables derived from the map are computed anew.
    fn decode_words(w: &Vec<u64>) -> (r: Option<Game>)
        ensures
            r is Some ==> r.unwrap().wf(),
            forall|g: GameModel| #[trigger] encodes(w@, g) ==> r_model(r) == Some(g),
    {
        let ghost ws = w@;
        if w.len() < HEADER_WORDS {
            proof { assert forall|g: GameModel| #[trigger] encodes(ws, g) implies r_model(None) == Some(g) by { assert(ws.len() == word_count(g)); } }
            return None;
        }
        let max = usize::MAX as u64;
        if w[0] > max || w[1] > max || w[2] > MAX_SITES as u64 || w[3] > MAX_MINES as u64 || w[4] > MAX_RIVERS as u64
            || w[5] > w[3] || w[6] > 1 || w[7] > 1 || w[8] > 1 || w[9] > max || w[10] > max {
            proof {
                assert forall|g: GameModel| #[trigger] encodes(ws, g) implies r_model(None) == Some(g) by {
                    assert(ws[0] == word_at(g, 0)); assert(ws[1] == word_at(g, 1)); assert(ws[2] == word_at(g, 2));
                    assert(ws[3] == word_at(g, 3)); assert(ws[4] == word_at(g, 4)); assert(ws[5] == word_at(g, 5));
                    assert(ws[6] == word_at(g, 6)); assert(ws[7] == word_at(g, 7)); assert(ws[8] == word_at(g, 8));
                    assert(ws[9] == word_at(g, 9)); assert(ws[10] == word_at(g, 10));
                }
            }
            return None;
        }
        let n = w[2] as usize;
        let m = w[3] as usize;
        let e = w[4] as usize;
        let f = w[5] as usize;
        let total = HEADER_WORDS + n + m + 5 * e + f;
        if w.len() != total {
            proof {
                assert forall|g: GameModel| #[trigger] encodes(ws, g) implies r_model(None) == Some(g) by {
                    assert(ws[2] == word_at(g, 2)); assert(ws[3] == word_at(g, 3));
                    assert(ws[4] == word_at(g, 4)); assert(ws[5] == word_at(g, 5));
                }
            }
            return None;
        }
        proof {
            assert forall|g: GameModel| #[trigger] encodes(ws, g) implies g.site_ids.len() == n && g.mines.len() == m
                && g.edges.len() == e && g.futures.len() == f by {
                assert(ws[2] == word_at(g, 2)); assert(ws[3] == word_at(g, 3));
                assert(ws[4] == word_at(g, 4)); assert(ws[5] == word_at(g, 5));
            }
        }
        let a = HEADER_WORDS;
        let mut site_ids: Vec<u64> = Vec::new();
        let mut i: usize = 0;
        while i < n
            invariant
                ws == w@,
                ws.len() == w.len(),
                ws.len() == HEADER_WORDS + n + m + 5 * e + f,
                a == HEADER_WORDS,
                i <= n,
                site_ids@.len() == i,
                forall|k: int| 0 <= k < i ==> #[trigger] site_ids@[k] == ws[a + k],
                strictly_increasing(site_ids@),
                forall|g: GameModel| #[trigger] encodes(ws, g) ==> g.site_ids.len() == n && g.mines.len() == m
                    && g.edges.len() == e && g.futures.len() == f,
            decreases n - i,
        {
            let x = w[a + i];
            if i > 0 && site_ids[i - 1] >= x {
                proof {
                    assert forall|g: GameModel| #[trigger] encodes(ws, g) implies r_model(None) == Some(g) by {
                        assert(ws[a + i] == word_at(g, a + i));
                        assert(ws[a + i - 1] == word_at(g, a + i - 1));
                        assert(g.site_ids[i - 1] < g.site_ids[i as int]);
                    }
                }
                return None;
            }
            site_ids.push(x);
            i = i + 1;
        }
        let b = a + n;
        let mut mines: Vec<Node> = Vec::new();
        let mut i: usize = 0;
        while i < m
            invariant
                ws == w@,
                ws.len() == w.len(),
                ws.len() == HEADER_WORDS + n + m + 5 * e + f,
                b == HEADER_WORDS + n,
                i <= m,
                mines@.len() == i,
                forall|k: int| 0 <= k < i ==> #[trigger] mines@[k] as u64 == ws[b + k] && mines@[k] < n,
                forall|g: GameModel| #[trigger] encodes(ws, g) ==> g.site_ids.len() == n && g.mines.len() == m
                    && g.edges.len() == e && g.futures.len() == f,
            decreases m - i,
        {
            let x = w[b + i];
            if x >= n as u64 {
                proof {
                    assert forall|g: GameModel| #[trigger] encodes(ws, g) implies r_model(None) == Some(g) by {
                        assert(ws[b + i] == word_at(g, b + i));
                        assert(g.mines[i as int] < n);
                    }
                }
                return None;
            }
            mines.push(x as usize);
            i = i + 1;
        }
        let c = b + m;
        let mut edges: Vec<Edge> = Vec::new();
        let mut i: usize = 0;
        while i < e
            invariant
                ws == w@,
                ws.len() == w.len(),
                ws.len() == HEADER_WORDS + n + m + 5 * e + f,
                c == HEADER_WORDS + n + m,
                e <= MAX_RIVERS,
                i <= e,
                edges@.len() == i,
                edges_wf(edges@, n as int),
                forall|k: int| 0 <= k < i ==> #[trigger] edges@[k].source as u64 == ws[c + 5 * k]
                    && edges@[k].target as u64 == ws[c + 5 * k + 1]
                    && claim_words(edges@[k].claimed) == (ws[c + 5 * k + 2], ws[c + 5 * k + 3], ws[c + 5 * k + 4]),
                forall|g: GameModel| #[trigger] encodes(ws, g) ==> g.site_ids.len() == n && g.mines.len() == m
                    && g.edges.len() == e && g.futures.len() == f,
            decreases e - i,
        {
            let at = c + 5 * i;
            let s = w[at];
            let t = w[at + 1];
            let ghost expect = |g: GameModel| {
                &&& ws[at as int] == g.edges[i as int].source as u64
                &&& ws[at + 1] == g.edges[i as int].target as u64
                &&& claim_words(g.edges[i as int].claimed) == (ws[at + 2], ws[at + 3], ws[at + 4])
            };
            proof {
                assert forall|g: GameModel| #[trigger] encodes(ws, g) implies expect(g) by {
                    let k0 = at as int;
                    assert(ws[k0] == word_at(g, k0));
                    assert(ws[k0 + 1] == word_at(g, k0 + 1));
                    assert(ws[k0 + 2] == word_at(g, k0 + 2));
                    assert(ws[k0 + 3] == word_at(g, k0 + 3));
                    assert(ws[k0 + 4] == word_at(g, k0 + 4));
                    assert((k0 - c) / 5 == i as int && (k0 - c) % 5 == 0);
                    assert((k0 + 1 - c) / 5 == i as int && (k0 + 1 - c) % 5 == 1);
                    assert((k0 + 2 - c) / 5 == i as int && (k0 + 2 - c) % 5 == 2);
                    assert((k0 + 3 - c) / 5 == i as int && (k0 + 3 - c) % 5 == 3);
                    assert((k0 + 4 - c) / 5 == i as int && (k0 + 4 - c) % 5 == 4);
                }
            }
            if !(s < t && t < n as u64) {
                proof {
                    assert forall|g: GameModel| #[trigger] encodes(ws, g) implies r_model(None) == Some(g) by {
                        assert(expect(g));
                        assert(g.edges[i as int].source < g.edges[i as int].target && g.edges[i as int].target < n);
                    }
                }
                return None;
            }
            match claim_from_words(w[at + 2], w[at + 3], w[at + 4]) {
                Some(claimed) => {
                    edges.push(Edge { source: s as usize, target: t as usize, claimed });
                    proof {
                        assert(edges@[i as int].source as u64 == ws[c + 5 * i]);
                        assert forall|g: GameModel| #[trigger] encodes(ws, g) implies g.edges[i as int].claimed == claimed by {
                            assert(expect(g));
                        }
                    }
                },
                None => {
                    proof {
                        assert forall|g: GameModel| #[trigger] encodes(ws, g) implies r_model(None) == Some(g) by {
                            assert(expect(g));
                        }
                    }
                    return None;
                },
            }
            i = i + 1;
        }
        let d = c + 5 * e;
        let mut futures: Vec<Node> = Vec::new();
        let mut i: usize = 0;
        while i < f
            invariant
                ws == w@,
                ws.len() == w.len(),
                ws.len() == HEADER_WORDS + n + m + 5 * e + f,
                d == HEADER_WORDS + n + m + 5 * e,
                i <= f,
                futures@.len() == i,
                forall|k: int| 0 <= k < i ==> #[trigger] futures@[k] as u64 == ws[d + k] && futures@[k] < n,
                forall|g: GameModel| #[trigger] encodes(ws, g) ==> g.site_ids.len() == n && g.mines.len() == m
                    && g.edges.len() == e && g.futures.len() == f,
            decreases f - i,
        {
            let x = w[d + i];
            if x >= n as u64 {
                proof {
                    assert forall|g: GameModel| #[trigger] encodes(ws, g) implies r_model(None) == Some(g) by {
                        assert(ws[d + i] == word_at(g, d + i));
                        assert(g.futures[i as int] < n);
                    }
                }
                return None;
            }
            futures.push(x as usize);
            i = i + 1;
        }
        let adj_edges = build_adjacency(&edges, n);
        let edge_st_to_edge_index = build_lookup(&edges, n);
        let mut dist_from_mine: Vec<Vec<Option<usize>>> = Vec::new();
        let mut i: usize = 0;
        while i < m
            invariant
                mines@.len() == m,
                edges_wf(edges@, n as int),
                crate::paths::adj_wf(edges@, adj_edges@, n as int),
                forall|j: int| 0 <= j < m ==> #[trigger] mines@[j] < n,
                i <= m,
                dist_from_mine@.len() == i,
                forall|j: int| 0 <= j < i ==> is_dist_table(edges@, Walk::Any, #[trigger] mines@[j] as int, n as int, dist_from_mine@[j]@),
                forall|j: int, v: int| 0 <= j < i && 0 <= v < n && #[trigger] dist_from_mine@[j]@[v] is Some
                    ==> dist_from_mine@[j]@[v].unwrap() < n,
            decreases m - i,
        {
            let dist = bfs(&edges, &adj_edges, n, mines[i], Walk::Any);
            dist_from_mine.push(dist);
            i = i + 1;
        }
        let ghost es = edges@;
        let game = Game {
            me: w[0] as usize,
            punters: w[1] as usize,
            site_ids,
            mines,
            edges,
            extension: GameExtension {
                is_futures_on: w[6] == 1,
                is_splurge_on: w[7] == 1,
                is_options_on: w[8] == 1,
                futures,
                prior_passes: w[9] as usize,
                prior_options: w[10] as usize,
            },
            adj_edges,
            edge_st_to_edge_index,
            dist_from_mine,
        };
        proof {
            assert forall|g: GameModel| #[trigger] encodes(ws, g) implies r_model(Some(game)) == Some(g) by {
                assert(ws[0] == word_at(g, 0)); assert(ws[1] == word_at(g, 1));
                assert(ws[6] == word_at(g, 6)); assert(ws[7] == word_at(g, 7)); assert(ws[8] == word_at(g, 8));
                assert(ws[9] == word_at(g, 9)); assert(ws[10] == word_at(g, 10));
                assert forall|k: int| 0 <= k < n implies #[trigger] game@.site_ids[k] == g.site_ids[k] by {
                    assert(ws[HEADER_WORDS + k] == word_at(g, HEADER_WORDS + k));
                }
                assert forall|k: int| 0 <= k < m implies #[trigger] game@.mines[k] == g.mines[k] by {
                    assert(ws[b + k] == word_at(g, b + k));
                }
                assert forall|k: int| 0 <= k < f implies #[trigger] game@.futures[k] == g.futures[k] by {
                    assert(ws[d + k] == word_at(g, d + k));
                }
                assert forall|k: int| 0 <= k < e implies #[trigger] game@.edges[k] == g.edges[k] by {
                    let k0 = c + 5 * k;
                    assert(ws[k0] == word_at(g, k0));
                    assert(ws[k0 + 1] == word_at(g, k0 + 1));
                    assert(ws[k0 + 2] == word_at(g, k0 + 2));
                    assert(ws[k0 + 3] == word_at(g, k0 + 3));
                    assert(ws[k0 + 4] == word_at(g, k0 + 4));
                    assert((k0 - c) / 5 == k && (k0 - c) % 5 == 0);
                    assert((k0 + 1 - c) / 5 == k && (k0 + 1 - c) % 5 == 1);
                    assert((k0 + 2 - c) / 5 == k && (k0 + 2 - c) % 5 == 2);
                    assert((k0 + 3 - c) / 5 == k && (k0 + 3 - c) % 5 == 3);
                    assert((k0 + 4 - c) / 5 == k && (k0 + 4 - c) % 5 == 4);
                    assert(es[k].source as u64 == ws[k0]);
                    let c1 = es[k].claimed;
                    let c2 = g.edges[k].claimed;
                    assert(claim_words(c1) == claim_words(c2));
                    lemma_claim_words_injective(c1, c2);
                }
                assert(game@.site_ids =~= g.site_ids);
                assert(game@.mines =~= g.mines);
                assert(game@.futures =~= g.futures);
                assert(game@.edges =~= g.edges);
            }
        }
        Some(game)
    }
}

proof fn lemma_claim_words_injective(c1: Claimed, c2: Claimed)
    requires
        claim_words(c1) == claim_words(c2),
    ensures
        c1 == c2,
{
}

/// A game that goes through `encode` and then `decode` comes back as the
/// same game: it gives every punter the same score and picks the same next
/// move with either strategy.
pub proof fn lemma_round_trip_keeps_play(g: Game, r: Option<Game>, p: PunterId, strategy: Strategy, m: MoveView)
    requires
        g.wf(),
        forall|h: GameModel| model_wf(h) && base64_text(state_bytes(g@)) == base64_text(state_bytes(h))
            ==> #[trigger] r_model(r) == Some(h),
    ensures
        r is Some,
        r.unwrap()@ == g@,
        score_of(r.unwrap()@, p) == score_of(g@, p),
        strategy_move(r.unwrap()@, strategy, m) == strategy_move(g@, strategy, m),
{
    assert(model_wf(g@));
    assert(r_model(r) == Some(g@));
}

/// The model of a decoded game, if any.
pub open spec fn r_model(r: Option<Game>) -> Option<GameModel> {
    match r {
        Some(g) => Some(g@),
        None => None,
    }
}

} // verus!
