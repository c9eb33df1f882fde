use vstd::prelude::*;
use vstd::utf8::{decode_utf8, valid_utf8};
use crate::frame::{
    encode_masked_frame, frame_error, lemma_partial_delivery, frame_len, frame_payload, header_known, lemma_masked_frame_round_trip,
    FrameError, WebSocketFrame, LEN64_LIMIT,
};
use crate::game::{Direction, GameState, JoinGame};
use crate::http::{parse_request, request_of, HttpRequest};
use crate::text::{chars_of, utf8_string};

verus! {

/// Largest receive buffer kept for one connection; beyond it the buffer is dropped.
pub const MAX_BUFFER_LEN: usize = 8192;

/// What the bytes received so far hold.
#[derive(Debug)]
pub enum WireUnit {
    /// A complete HTTP request head.
    Request(HttpRequest),
    /// The unmasked payload of one WebSocket frame.
    Payload(Vec<u8>),
    /// More bytes are needed.
    Incomplete,
    /// The bytes cannot be understood; they were dropped.
    Invalid,
}

/// Classifying buffer `before` gives `r` and leaves `after`. Text is read as an HTTP
/// request; other bytes as a WebSocket frame. Only a frame still arriving is kept.
pub open spec fn classified(before: Seq<u8>, after: Seq<u8>, r: WireUnit) -> bool {
    if valid_utf8(before) {
        &&& after.len() == 0
        &&& match request_of(decode_utf8(before)) {
            Some(m) => r matches WireUnit::Request(q) && q@ == m,
            None => r matches WireUnit::Invalid,
        }
    } else {
        match frame_error(before) {
            None => {
                &&& r matches WireUnit::Payload(p) && p@ == frame_payload(before)
                &&& after == before.subrange(frame_len(before) as int, before.len() as int)
            },
            Some(FrameError::Incomplete) => r matches WireUnit::Incomplete && after == before,
            Some(_) => r matches WireUnit::Invalid && after.len() == 0,
        }
    }
}

/// Classifies the bytes received so far and removes what was consumed or dropped.
pub fn parse_client_message(payload: &mut Vec<u8>) -> (r: WireUnit)
    ensures
        classified(old(payload)@, final(payload)@, r),
{
    let copy = payload.clone();
    match utf8_string(copy) {
        Some(text) => {
            let c = chars_of(text.as_str());
            let req = parse_request(&c);
            payload.clear();
            match req {
                Some(q) => WireUnit::Request(q),
                None => WireUnit::Invalid,
            }
        },
        None => match WebSocketFrame::parse(payload) {
            Ok(p) => WireUnit::Payload(p),
            Err(FrameError::Incomplete) => WireUnit::Incomplete,
            Err(_) => {
                payload.clear();
                WireUnit::Invalid
            },
        },
    }
}

/// The buffer after `chunk` arrives: dropped whole when it would grow past
/// `MAX_BUFFER_LEN`.
pub open spec fn capped(buffer: Seq<u8>, chunk: Seq<u8>) -> Seq<u8> {
    if buffer.len() + chunk.len() > MAX_BUFFER_LEN {
        Seq::empty()
    } else {
        buffer + chunk
    }
}

/// A frame still arriving whose full length could never fit the receive buffer.
pub open spec fn never_fits(d: Seq<u8>) -> bool {
    &&& !valid_utf8(d)
    &&& frame_error(d) == Some(FrameError::Incomplete)
    &&& header_known(d)
    &&& frame_len(d) > MAX_BUFFER_LEN
}

/// What the receive path makes of buffer `before`: as `classified`, except that a frame
/// that can never fit the buffer is `Invalid` and dropped.
pub open spec fn received(before: Seq<u8>, after: Seq<u8>, r: WireUnit) -> bool {
    if never_fits(before) {
        (r matches WireUnit::Invalid) && after.len() == 0
    } else {
        classified(before, after, r)
    }
}

proof fn lemma_not_text(d: Seq<u8>)
    requires
        d.len() >= 1,
        0x80 <= d[0] < 0xc0,
    ensures
        !valid_utf8(d),
{
}

/// Partial delivery through the classifier: every non-empty proper prefix of a frame is
/// `Incomplete` and kept whole.
pub proof fn lemma_prefix_kept(d: Seq<u8>, k: int, after: Seq<u8>, r: WireUnit)
    requires
        frame_error(d).is_none(),
        0x80 <= d[0] < 0xc0,
        1 <= k < frame_len(d),
    ensures
        classified(d.take(k), after, r) ==> (r matches WireUnit::Incomplete) && after == d.take(k),
{
    lemma_partial_delivery(d, Seq::empty());
    assert(d.take(k)[0] == d[0]);
    lemma_not_text(d.take(k));
}

/// Invalid resynchronisation: a frame header whose declared length can never fit the
/// receive buffer is reported `Invalid` and the buffer is emptied; a well-formed frame
/// that follows is then decoded to its payload.
pub proof fn lemma_invalid_resynchronises(
    garbage: Seq<u8>,
    after: Seq<u8>,
    r: WireUnit,
    p: Seq<u8>,
    key: Seq<u8>,
    after_next: Seq<u8>,
    r_next: WireUnit,
)
    requires
        0x80 <= garbage[0] < 0xc0,
        header_known(garbage),
        frame_len(garbage) > MAX_BUFFER_LEN,
        garbage.len() <= MAX_BUFFER_LEN,
        p.len() < LEN64_LIMIT,
        key.len() == 4,
    ensures
        received(garbage, after, r) ==> (r matches WireUnit::Invalid) && after.len() == 0,
        received(encode_masked_frame(p, key), after_next, r_next) ==> {
            &&& r_next matches WireUnit::Payload(q) && q@ == p
            &&& after_next.len() == 0
        },
{
    lemma_not_text(garbage);
    let f = encode_masked_frame(p, key);
    lemma_masked_frame_round_trip(p, key);
    lemma_not_text(f);
}

/// Appends freshly read bytes to a connection's buffer, drops the buffer when it grows
/// past `MAX_BUFFER_LEN`, and classifies what is there; a frame whose declared length
/// can never fit the buffer is `Invalid`.
pub fn receive(buffer: &mut Vec<u8>, chunk: &[u8]) -> (r: WireUnit)
    ensures
        received(capped(old(buffer)@, chunk@), final(buffer)@, r),
{
    let mut i: usize = 0;
    while i < chunk.len()
        invariant
            i <= chunk.len(),
            buffer@ == old(buffer)@ + chunk@.subrange(0, i as int),
        decreases chunk.len() - i,
    {
        buffer.push(chunk[i]);
        i += 1;
        assert(buffer@ =~= old(buffer)@ + chunk@.subrange(0, i as int));
    }
    assert(chunk@.subrange(0, chunk.len() as int) =~= chunk@);
    if buffer.len() > MAX_BUFFER_LEN {
        buffer.clear();
    }
    let ghost b = buffer@;
    let r = parse_client_message(buffer);
    match r {
        WireUnit::Incomplete => {
            match WebSocketFrame::frame_size(buffer) {
                Some(n) => {
                    if n > MAX_BUFFER_LEN as u64 {
                        buffer.clear();
                        return WireUnit::Invalid;
                    }
                },
                None => {},
            }
            WireUnit::Incomplete
        },
        other => other,
    }
}

/// An intent sent by a client over the WebSocket.
#[derive(Debug)]
pub enum ClientGameMessage {
    JoinGame(JoinGame),
    Input { direction: Direction },
    ResetGame,
    SetSpeed { interval: u16 },
    Username { username: String },
    Ping,
}

/// One unit of input from a connection, as the event loop sees it.
#[derive(Debug)]
pub enum ClientMessage {
    ClientGameMessage(ClientGameMessage),
    HttpRequest(HttpRequest),
    Invalid,
    Incomplete,
    Disconnect,
}

#[derive(Debug, Clone)]
pub struct HighScoreEntry {
    pub username: String,
    pub score: u32,
}

impl HighScoreEntry {
    pub fn duplicate(&self) -> (r: HighScoreEntry)
        ensures
            r == *self,
    {
        HighScoreEntry { username: self.username.clone(), score: self.score }
    }
}

/// `e` placed into the ranking `t`: after every entry scoring at least as much.
pub open spec fn insert_ranked(t: Seq<HighScoreEntry>, e: HighScoreEntry) -> Seq<HighScoreEntry>
    decreases t.len(),
{
    if t.len() == 0 {
        seq![e]
    } else if t.last().score >= e.score {
        t.push(e)
    } else {
        insert_ranked(t.drop_last(), e).push(t.last())
    }
}

/// The entries by descending score; equal scores keep their order of insertion.
pub open spec fn ranked(s: Seq<HighScoreEntry>) -> Seq<HighScoreEntry>
    decreases s.len(),
{
    if s.len() == 0 {
        s
    } else {
        insert_ranked(ranked(s.drop_last()), s.last())
    }
}

pub open spec fn descending(s: Seq<HighScoreEntry>) -> bool {
    forall|i: int, j: int| 0 <= i < j < s.len() ==> s[i].score >= s[j].score
}

proof fn lemma_insert_bound(t: Seq<HighScoreEntry>, e: HighScoreEntry, m: u32)
    requires
        forall|j: int| 0 <= j < t.len() ==> t[j].score >= m,
        e.score >= m,
    ensures
        forall|j: int| 0 <= j < insert_ranked(t, e).len() ==> insert_ranked(t, e)[j].score >= m,
    decreases t.len(),
{
    let r = insert_ranked(t, e);
    if t.len() == 0 {
        assert(r[0] == e);
    } else if t.last().score >= e.score {
        assert forall|j: int| 0 <= j < r.len() implies r[j].score >= m by {
            if j < t.len() {
                assert(r[j] == t[j]);
            }
        }
    } else {
        let u = t.drop_last();
        lemma_insert_bound(u, e, m);
        let q = insert_ranked(u, e);
        assert forall|j: int| 0 <= j < r.len() implies r[j].score >= m by {
            if j < q.len() {
                assert(r[j] == q[j]);
            } else {
                assert(r[j] == t.last());
            }
        }
    }
}

proof fn lemma_insert_sorted(t: Seq<HighScoreEntry>, e: HighScoreEntry)
    requires
        descending(t),
    ensures
        descending(insert_ranked(t, e)),
        insert_ranked(t, e).len() == t.len() + 1,
    decreases t.len(),
{
    let r = insert_ranked(t, e);
    if t.len() == 0 {
    } else if t.last().score >= e.score {
        assert forall|i: int, j: int| 0 <= i < j < r.len() implies r[i].score >= r[j].score by {
            if j < t.len() {
                assert(r[i] == t[i] && r[j] == t[j]);
            } else {
                assert(r[i] == t[i]);
                assert(t[i].score >= t.last().score);
            }
        }
    } else {
        let u = t.drop_last();
        lemma_insert_sorted(u, e);
        lemma_insert_bound(u, e, t.last().score);
        let q = insert_ranked(u, e);
        assert forall|i: int, j: int| 0 <= i < j < r.len() implies r[i].score >= r[j].score by {
            assert(r[i] == q[i]);
            if j < q.len() {
                assert(r[j] == q[j]);
            } else {
                assert(r[j] == t.last());
            }
        }
    }
}

/// A ranking is ordered by descending score and keeps as many entries as it was given.
pub proof fn lemma_ranked_descending(s: Seq<HighScoreEntry>)
    ensures
        descending(ranked(s)),
        ranked(s).len() == s.len(),
    decreases s.len(),
{
    if s.len() > 0 {
        lemma_ranked_descending(s.drop_last());
        lemma_insert_sorted(ranked(s.drop_last()), s.last());
    }
}

pub const TOP_N: usize = 10;

/// The first ten of a ranking, or all of it.
pub open spec fn top(s: Seq<HighScoreEntry>) -> Seq<HighScoreEntry> {
    if s.len() <= TOP_N {
        s
    } else {
        s.take(TOP_N as int)
    }
}

fn insert_into_ranking(t: &mut Vec<HighScoreEntry>, e: HighScoreEntry)
    ensures
        final(t)@ == insert_ranked(old(t)@, e),
{
    let ghost s = t@;
    let mut j = t.len();
    assert(s.take(j as int) =~= s);
    assert(s.subrange(j as int, j as int) =~= Seq::<HighScoreEntry>::empty());
    while j > 0 && t[j - 1].score < e.score
        invariant
            t@ == s,
            j <= s.len(),
            insert_ranked(s, e) == insert_ranked(s.take(j as int), e) + s.subrange(j as int, s.len() as int),
        decreases j,
    {
        assert(s.take(j as int).drop_last() =~= s.take(j - 1));
        assert(insert_ranked(s.take(j - 1), e) + s.subrange(j - 1, s.len() as int)
            =~= insert_ranked(s.take(j - 1), e).push(s[j - 1]) + s.subrange(j as int, s.len() as int));
        j -= 1;
    }
    t.insert(j, e);
    assert(t@ =~= insert_ranked(s, e));
}

/// The leaderboard as sent: entry `i` holds rank `i + 1`.
#[derive(Debug, Clone)]
pub struct HighScores {
    pub highscores: Vec<HighScoreEntry>,
}

fn rank_all(entries: &Vec<HighScoreEntry>) -> (r: Vec<HighScoreEntry>)
    ensures
        r@ == ranked(entries@),
{
    let mut sorted: Vec<HighScoreEntry> = Vec::new();
    let mut i: usize = 0;
    assert(entries@.take(0) =~= Seq::<HighScoreEntry>::empty());
    while i < entries.len()
        invariant
            i <= entries.len(),
            sorted@ == ranked(entries@.take(i as int)),
        decreases entries.len() - i,
    {
        assert(entries@.take(i + 1).drop_last() =~= entries@.take(i as int));
        insert_into_ranking(&mut sorted, entries[i].duplicate());
        i += 1;
    }
    assert(entries@.take(entries.len() as int) =~= entries@);
    sorted
}

fn first_ten(entries: &Vec<HighScoreEntry>) -> (r: Vec<HighScoreEntry>)
    ensures
        r@ == top(entries@),
{
    let mut out: Vec<HighScoreEntry> = Vec::new();
    let mut i: usize = 0;
    while i < entries.len() && i < TOP_N
        invariant
            i <= entries.len(),
            i <= TOP_N,
            out@ == entries@.take(i as int),
        decreases entries.len() - i,
    {
        out.push(entries[i].duplicate());
        i += 1;
        assert(out@ =~= entries@.take(i as int));
    }
    assert(out@ =~= top(entries@));
    out
}

impl HighScores {
    /// Ranks `value` in place and keeps the first ten.
    pub fn from_vec(value: &mut Vec<HighScoreEntry>) -> (r: Self)
        ensures
            final(value)@ == ranked(old(value)@),
            r.highscores@ == top(ranked(old(value)@)),
    {
        let sorted = rank_all(value);
        let r = HighScores { highscores: first_ten(&sorted) };
        *value = sorted;
        r
    }

    /// The first ten of the ranking of `entries`, which are left as they are.
    pub fn ranking_of(entries: &Vec<HighScoreEntry>) -> (r: Self)
        ensures
            r.highscores@ == top(ranked(entries@)),
    {
        HighScores { highscores: first_ten(&rank_all(entries)) }
    }
}

/// A message the server sends over the WebSocket.
#[derive(Debug)]
pub enum ServerMessage {
    GameState(GameState),
    Error { message: String },
    Pong,
    Connected { client_id: String },
    HighScores(HighScores),
}

impl ServerMessage {
    pub fn error(message: &str) -> (r: Self)
        ensures
            r matches ServerMessage::Error { message: m } && m@ == message@,
    {
        ServerMessage::Error { message: message.to_owned() }
    }

    pub fn game_state(state: GameState) -> (r: Self)
        ensures
            r == ServerMessage::GameState(state),
    {
        ServerMessage::GameState(state)
    }

    pub fn connected(client_id: String) -> (r: Self)
        ensures
            r == (ServerMessage::Connected { client_id }),
    {
        ServerMessage::Connected { client_id }
    }
}

} // verus!
