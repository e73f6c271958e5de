use vstd::prelude::*;
use vstd::utf8::{decode_utf8, encode_utf8, valid_utf8};
use crate::prelude::PunterError;

verus! {

/// ASCII white space, as `str::trim` removes it.
pub open spec fn is_space(b: u8) -> bool {
    b == 32 || (9 <= b && b <= 13)
}

pub open spec fn is_digit(b: u8) -> bool {
    48 <= b && b <= 57
}

/// The number that the decimal digits `s` spell.
pub open spec fn digits_value(s: Seq<u8>) -> nat
    decreases s.len(),
{
    if s.len() == 0 {
        0
    } else {
        digits_value(s.drop_last()) * 10 + (s.last() - 48) as nat
    }
}

/// `p[lo..hi]` are digits with only white space around them.
pub open spec fn digits_between(p: Seq<u8>, lo: int, hi: int) -> bool {
    &&& 0 <= lo < hi <= p.len()
    &&& forall|i: int| 0 <= i < lo ==> is_space(#[trigger] p[i])
    &&& forall|i: int| hi <= i < p.len() ==> is_space(#[trigger] p[i])
    &&& forall|i: int| lo <= i < hi ==> is_digit(#[trigger] p[i])
}

/// The length that a prefix announces: an unsigned decimal number that fits
/// in 64 bits, with white space around it allowed.
pub open spec fn length_prefix(p: Seq<u8>) -> Option<nat> {
    if exists|lo: int, hi: int| digits_between(p, lo, hi) {
        let (lo, hi) = choose|lo: int, hi: int| digits_between(p, lo, hi);
        let v = digits_value(p.subrange(lo, hi));
        if v <= u64::MAX { Some(v) } else { None }
    } else {
        None
    }
}

/// The position of the first `:` at or after `i`.
pub open spec fn colon_from(s: Seq<u8>, i: int) -> Option<int>
    decreases s.len() - i,
{
    if i < 0 || i >= s.len() {
        None
    } else if s[i] == 58 {
        Some(i)
    } else {
        colon_from(s, i + 1)
    }
}

/// What reading a message from the bytes `input` gives, where `closed`
/// says that no more bytes will come: a message and the number of bytes it
/// took, `None` when more bytes are needed, or an error.
pub open spec fn frame_result(input: Seq<u8>, closed: bool) -> Result<Option<(Seq<char>, nat)>, PunterError> {
    match colon_from(input, 0) {
        None => if closed { Err(PunterError::Io) } else { Ok(None) },
        Some(c) => match length_prefix(input.subrange(0, c)) {
            None => Err(PunterError::ParseInt),
            Some(n) => if input.len() < c + 1 + n {
                if closed { Err(PunterError::Io) } else { Ok(None) }
            } else {
                let payload = input.subrange(c + 1, c + 1 + n);
                if valid_utf8(payload) {
                    Ok(Some((decode_utf8(payload), (c + 1 + n) as nat)))
                } else {
                    Err(PunterError::FromUtf8)
                }
            },
        },
    }
}

/// The decimal digits of `n`, most significant first.
pub open spec fn decimal(n: nat) -> Seq<u8>
    decreases n,
{
    if n < 10 {
        seq![(48 + n) as u8]
    } else {
        decimal(n / 10).push((48 + n % 10) as u8)
    }
}

/// A message as it is sent: its length in bytes, a colon, its bytes.
pub open spec fn frame(s: Seq<char>) -> Seq<u8> {
    decimal(encode_utf8(s).len()) + seq![58u8] + encode_utf8(s)
}

/// Relies on `String::from_utf8`: the text when the bytes are UTF-8.
#[verifier::external_body]
fn utf8_to_string(b: Vec<u8>) -> (r: Option<String>)
    ensures
        r is Some <==> valid_utf8(b@),
        r is Some ==> r.unwrap()@ == decode_utf8(b@),
{
    String::from_utf8(b).ok()
}

proof fn lemma_decimal(n: nat)
    ensures
        decimal(n).len() > 0,
        forall|i: int| 0 <= i < decimal(n).len() ==> is_digit(#[trigger] decimal(n)[i]),
        digits_value(decimal(n)) == n,
    decreases n,
{
    if n >= 10 {
        lemma_decimal(n / 10);
        assert(decimal(n).drop_last() =~= decimal(n / 10));
        assert(decimal(n).last() == (48 + n % 10) as u8);
        assert(digits_value(decimal(n)) == digits_value(decimal(n / 10)) * 10 + n % 10);
    } else {
        assert(decimal(n).drop_last() =~= Seq::<u8>::empty());
        assert(digits_value(decimal(n)) == digits_value(Seq::<u8>::empty()) * 10 + n);
    }
}

proof fn lemma_colon_from(s: Seq<u8>, i: int, c: int)
    requires
        0 <= i <= c < s.len(),
        s[c] == 58,
        forall|k: int| i <= k < c ==> s[k] != 58,
    ensures
        colon_from(s, i) == Some(c),
    decreases c - i,
{
    if i < c {
        lemma_colon_from(s, i + 1, c);
    }
}

proof fn lemma_no_colon(s: Seq<u8>, i: int)
    requires
        0 <= i,
        forall|k: int| i <= k < s.len() ==> s[k] != 58,
    ensures
        colon_from(s, i) is None,
    decreases s.len() - i,
{
    if i < s.len() {
        lemma_no_colon(s, i + 1);
    }
}

/// The digits between white space are found in one place only.
proof fn lemma_digits_between_unique(p: Seq<u8>, lo: int, hi: int, lo2: int, hi2: int)
    requires
        digits_between(p, lo, hi),
        digits_between(p, lo2, hi2),
    ensures
        lo == lo2 && hi == hi2,
{
    if lo < lo2 { assert(is_space(p[lo]) && is_digit(p[lo])); }
    if lo2 < lo { assert(is_space(p[lo2]) && is_digit(p[lo2])); }
    if hi < hi2 { assert(is_space(p[hi]) && is_digit(p[hi])); }
    if hi2 < hi { assert(is_space(p[hi2]) && is_digit(p[hi2])); }
}

proof fn lemma_digits_value_monotone(s: Seq<u8>, j: int, k: int)
    requires
        0 <= j <= k <= s.len(),
    ensures
        digits_value(s.take(j)) <= digits_value(s.take(k)),
    decreases k - j,
{
    if j < k {
        lemma_digits_value_monotone(s, j, k - 1);
        assert(s.take(k).drop_last() =~= s.take(k - 1));
    }
}

/// Reads the length prefix `input[0..c]`.
fn parse_length(input: &[u8], c: usize) -> (r: Option<u64>)
    requires
        c <= input@.len(),
    ensures
        r is Some <==> length_prefix(input@.subrange(0, c as int)) is Some,
        r is Some ==> r.unwrap() as nat == length_prefix(input@.subrange(0, c as int)).unwrap(),
{
    let ghost p = input@.subrange(0, c as int);
    let mut lo: usize = 0;
    while lo < c && (input[lo] == 32 || (9 <= input[lo] && input[lo] <= 13))
        invariant
            lo <= c <= input@.len(),
            p == input@.subrange(0, c as int),
            forall|i: int| 0 <= i < lo ==> is_space(#[trigger] p[i]),
        decreases c - lo,
    {
        lo = lo + 1;
    }
    let mut hi: usize = c;
    while hi > lo && (input[hi - 1] == 32 || (9 <= input[hi - 1] && input[hi - 1] <= 13))
        invariant
            lo <= hi <= c <= input@.len(),
            p == input@.subrange(0, c as int),
            forall|i: int| hi <= i < c ==> is_space(#[trigger] p[i]),
            forall|i: int| 0 <= i < lo ==> is_space(#[trigger] p[i]),
            lo < c ==> !is_space(p[lo as int]),
        decreases hi - lo,
    {
        hi = hi - 1;
    }
    assert(lo < hi ==> !is_space(p[hi - 1]));
    if lo == hi {
        proof {
            assert forall|a: int, b: int| !digits_between(p, a, b) by {
                if digits_between(p, a, b) {
                    if a < lo { assert(is_space(p[a])); } else { assert(is_space(p[a])); }
                }
            }
        }
        return None;
    }
    let mut i: usize = lo;
    while i < hi
        invariant
            lo < hi <= c <= input@.len(),
            lo <= i <= hi,
            p == input@.subrange(0, c as int),
            forall|k: int| lo <= k < i ==> is_digit(#[trigger] p[k]),
            forall|k: int| 0 <= k < lo ==> is_space(#[trigger] p[k]),
            forall|k: int| hi <= k < c ==> is_space(#[trigger] p[k]),
            !is_space(p[lo as int]),
            !is_space(p[hi - 1]),
        decreases hi - i,
    {
        let b = input[i];
        if !(48 <= b && b <= 57) {
            proof {
                assert(!is_space(p[lo as int]));
                assert(!is_space(p[hi - 1]));
                assert forall|a: int, bb: int| !digits_between(p, a, bb) by {
                    if digits_between(p, a, bb) {
                        if a > lo { assert(is_space(p[lo as int])); }
                        if bb < hi { assert(is_space(p[hi - 1])); }
                        assert(is_digit(p[i as int]));
                    }
                }
            }
            return None;
        }
        i = i + 1;
    }
    proof {
        assert(!is_space(p[lo as int]));
        assert(digits_between(p, lo as int, hi as int));
        let (a, bb) = choose|a: int, bb: int| digits_between(p, a, bb);
        lemma_digits_between_unique(p, lo as int, hi as int, a, bb);
    }
    let ghost ds = p.subrange(lo as int, hi as int);
    let mut v: u64 = 0;
    let mut i: usize = lo;
    while i < hi
        invariant
            lo < hi <= c <= input@.len(),
            lo <= i <= hi,
            p == input@.subrange(0, c as int),
            ds == p.subrange(lo as int, hi as int),
            forall|k: int| lo <= k < hi ==> is_digit(#[trigger] p[k]),
            v as nat == digits_value(ds.take(i - lo)),
            length_prefix(p) == (if digits_value(ds) <= u64::MAX { Some(digits_value(ds)) } else { None::<nat> }),
        decreases hi - i,
    {
        let b = input[i];
        assert(b == ds[i - lo]);
        assert(ds.take(i - lo + 1).drop_last() =~= ds.take(i - lo));
        if v > 1844674407370955161 || (v == 1844674407370955161 && b > 53) {
            proof {
                lemma_digits_value_monotone(ds, i - lo + 1, ds.len() as int);
                assert(ds.take(ds.len() as int) =~= ds);
            }
            return None;
        }
        v = v * 10 + (b - 48) as u64;
        i = i + 1;
    }
    assert(ds.take(hi - lo) =~= ds);
    Some(v)
}

/// The `n` bytes of `input` from `start` on.
fn read_n(input: &[u8], start: usize, n: usize) -> (r: Vec<u8>)
    requires
        start + n <= input@.len(),
    ensures
        r@ == input@.subrange(start as int, start + n),
{
    let mut out: Vec<u8> = Vec::new();
    let mut i: usize = 0;
    while i < n
        invariant
            start + n <= input@.len(),
            input@.len() == input.len(),
            i <= n,
            out@ == input@.subrange(start as int, start + i),
        decreases n - i,
    {
        out.push(input[start + i]);
        i = i + 1;
        assert(out@ =~= input@.subrange(start as int, start + i));
    }
    out
}

/// Reads one message from the bytes received so far, `input`; `closed`
/// says that no more will come. Gives the message and the number of bytes
/// it took, `None` when the message is not complete yet, or the error of
/// `frame_result`.
pub fn read_json_message(input: &[u8], closed: bool) -> (r: Result<Option<(String, usize)>, PunterError>)
    ensures
        match (r, frame_result(input@, closed)) {
            (Ok(Some((s, k))), Ok(Some((t, j)))) => s@ == t && k == j,
            (Ok(None), Ok(None)) => true,
            (Err(e1), Err(e2)) => e1 == e2,
            _ => false,
        },
        r matches Ok(Some((_, k))) ==> k <= input@.len(),
{
    let mut c: usize = 0;
    while c < input.len() && input[c] != 58
        invariant
            c <= input@.len(),
            forall|k: int| 0 <= k < c ==> input@[k] != 58,
        decreases input@.len() - c,
    {
        c = c + 1;
    }
    if c == input.len() {
        proof { lemma_no_colon(input@, 0); }
        return if closed { Err(PunterError::Io) } else { Ok(None) };
    }
    proof { lemma_colon_from(input@, 0, c as int); }
    let n = match parse_length(input, c) {
        Some(n) => n,
        None => {
            return Err(PunterError::ParseInt);
        },
    };
    let avail = input.len() - c - 1;
    if (avail as u64) < n {
        return if closed { Err(PunterError::Io) } else { Ok(None) };
    }
    let n = n as usize;
    let payload = read_n(input, c + 1, n);
    match utf8_to_string(payload) {
        Some(s) => Ok(Some((s, c + 1 + n))),
        None => Err(PunterError::FromUtf8),
    }
}

fn decimal_digits(n: usize) -> (r: Vec<u8>)
    ensures
        r@ == decimal(n as nat),
    decreases n,
{
    if n < 10 {
        let mut v: Vec<u8> = Vec::new();
        v.push((48 + n) as u8);
        assert(v@ =~= decimal(n as nat));
        v
    } else {
        let mut v = decimal_digits(n / 10);
        v.push((48 + n % 10) as u8);
        v
    }
}

/// The bytes that send `json` as one message.
pub fn write_json_message(json: &str) -> (r: Vec<u8>)
    ensures
        r@ == frame(json@),
{
    let bytes = json.as_bytes();
    let mut out = decimal_digits(bytes.len());
    out.push(58u8);
    let mut i: usize = 0;
    let ghost head = out@;
    while i < bytes.len()
        invariant
            bytes@ == encode_utf8(json@),
            i <= bytes@.len(),
            out@ == head + bytes@.subrange(0, i as int),
        decreases bytes@.len() - i,
    {
        out.push(bytes[i]);
        i = i + 1;
        assert(out@ =~= head + bytes@.subrange(0, i as int));
    }
    assert(bytes@.subrange(0, bytes@.len() as int) =~= bytes@);
    assert(out@ =~= frame(json@));
    out
}

/// Reading what `write_json_message` wrote gives back the message, and
/// takes exactly its bytes, whatever follows them.
pub proof fn lemma_frame_round_trip(s: Seq<char>, rest: Seq<u8>, closed: bool)
    requires
        encode_utf8(s).len() <= u64::MAX,
    ensures
        frame_result(frame(s) + rest, closed) == Ok::<Option<(Seq<char>, nat)>, PunterError>(Some((s, frame(s).len()))),
{
    let bytes = encode_utf8(s);
    let n = bytes.len();
    let d = decimal(n);
    let input = frame(s) + rest;
    lemma_decimal(n);
    assert(input[d.len() as int] == 58);
    assert forall|k: int| 0 <= k < d.len() implies input[k] != 58 by {
        assert(input[k] == d[k]);
        assert(is_digit(d[k]));
    }
    lemma_colon_from(input, 0, d.len() as int);
    let p = input.subrange(0, d.len() as int);
    assert(p =~= d);
    assert(digits_between(p, 0, d.len() as int));
    let (lo, hi) = choose|lo: int, hi: int| digits_between(p, lo, hi);
    lemma_digits_between_unique(p, 0, d.len() as int, lo, hi);
    assert(p.subrange(0, d.len() as int) =~= d);
    assert(length_prefix(p) == Some(n));
    let payload = input.subrange(d.len() + 1 as int, d.len() + 1 + n as int);
    assert(payload =~= bytes);
    vstd::utf8::encode_utf8_valid_utf8(s);
    vstd::utf8::encode_utf8_decode_utf8(s);
}

/// The bytes a punter exchanges over a stream in offline mode: what has
/// come in and not been read yet, whether the stream has ended, and what is
/// waiting to go out.
pub struct OfflineIO {
    input: Vec<u8>,
    closed: bool,
    output: Vec<u8>,
}

pub struct OfflineIOView {
    pub pending: Seq<u8>,
    pub closed: bool,
    pub output: Seq<u8>,
}

impl View for OfflineIO {
    type V = OfflineIOView;

    closed spec fn view(&self) -> OfflineIOView {
        OfflineIOView { pending: self.input@, closed: self.closed, output: self.output@ }
    }
}

impl OfflineIO {
    pub fn new() -> (r: OfflineIO)
        ensures
            r@.pending.len() == 0,
            !r@.closed,
            r@.output.len() == 0,
    {
        OfflineIO { input: Vec::new(), closed: false, output: Vec::new() }
    }

    /// Bytes that came in.
    pub fn receive(&mut self, bytes: &[u8])
        ensures
            final(self)@.pending == old(self)@.pending + bytes@,
            final(self)@.closed == old(self)@.closed,
            final(self)@.output == old(self)@.output,
    {
        let mut i: usize = 0;
        let ghost start = self.input@;
        while i < bytes.len()
            invariant
                i <= bytes@.len(),
                self.input@ == start + bytes@.subrange(0, i as int),
                self.closed == old(self).closed,
                self.output@ == old(self)@.output,
            decreases bytes@.len() - i,
        {
            self.input.push(bytes[i]);
            i = i + 1;
            assert(self.input@ =~= start + bytes@.subrange(0, i as int));
        }
        assert(bytes@.subrange(0, bytes@.len() as int) =~= bytes@);
    }

    /// The stream has ended.
    pub fn close(&mut self)
        ensures
            final(self)@ == (OfflineIOView { closed: true, ..old(self)@ }),
    {
        self.closed = true;
    }

    /// Reads the next message, if it has come in whole; its bytes are then
    /// dropped from what is pending.
    pub fn read_json_message(&mut self) -> (r: Result<Option<String>, PunterError>)
        ensures
            final(self)@.closed == old(self)@.closed,
            final(self)@.output == old(self)@.output,
            match (r, frame_result(old(self)@.pending, old(self)@.closed)) {
                (Ok(Some(s)), Ok(Some((t, k)))) => s@ == t && final(self)@.pending == old(self)@.pending.subrange(k as int, old(self)@.pending.len() as int),
                (Ok(None), Ok(None)) => final(self)@.pending == old(self)@.pending,
                (Err(e1), Err(e2)) => e1 == e2 && final(self)@.pending == old(self)@.pending,
                _ => false,
            },
    {
        match read_json_message(self.input.as_slice(), self.closed) {
            Ok(Some((s, k))) => {
                let len = self.input.len();
                let rest = read_n(self.input.as_slice(), k, len - k);
                self.input = rest;
                Ok(Some(s))
            },
            Ok(None) => Ok(None),
            Err(e) => Err(e),
        }
    }

    /// Queues `json` to go out as one message.
    pub fn write_json_message(&mut self, json: &str)
        ensures
            final(self)@ == (OfflineIOView { output: old(self)@.output + frame(json@), ..old(self)@ }),
    {
        let bytes = write_json_message(json);
        let mut i: usize = 0;
        let ghost start = self.output@;
        while i < bytes.len()
            invariant
                i <= bytes@.len(),
                self.output@ == start + bytes@.subrange(0, i as int),
                self.input@ == old(self)@.pending,
                self.closed == old(self)@.closed,
            decreases bytes@.len() - i,
        {
            self.output.push(bytes[i]);
            i = i + 1;
            assert(self.output@ =~= start + bytes@.subrange(0, i as int));
        }
        assert(bytes@.subrange(0, bytes@.len() as int) =~= bytes@);
    }

    /// Hands out what is waiting to go out.
    pub fn take_output(&mut self) -> (r: Vec<u8>)
        ensures
            r@ == old(self)@.output,
            final(self)@ == (OfflineIOView { output: Seq::empty(), ..old(self)@ }),
    {
        let len = self.output.len();
        let out = read_n(self.output.as_slice(), 0, len);
        self.output = Vec::new();
        assert(out@ =~= old(self)@.output);
        out
    }
}

} // verus!
