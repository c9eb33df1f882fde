use vstd::prelude::*;
use crate::game::{string_views, GameModel, GameState, JoinGame, Size, DEFAULT_SIDE};
use crate::http::{
    accept_token, handshake_model, is_handshake, lookup, not_found_model, push_all, response_bytes, HttpMethod,
    HttpRequest, HttpResponse, RequestModel,
};
use crate::protocol::{
    ranked, top, ClientGameMessage, ClientMessage, HighScoreEntry, HighScores, ServerMessage,
};
use crate::text::{chars_of, find, find_from, lemma_find_from_range, string_of};

verus! {

/// Length of the shared heartbeat, in milliseconds.
pub const MINIMUM_TICK: i32 = 50;

/// Relies on `rand::random`: it returns some value drawn from the thread-local
/// generator; nothing is promised about which, so no clause is stated.
pub assume_specification<T>[ rand::random::<T> ]() -> (r: T)
    where
        rand::distributions::Standard: rand::distributions::Distribution<T>,
;

/// One live transport connection.
#[derive(Debug)]
pub struct ClientConnection {
    pub id: String,
    pub game_id: Option<u64>,
    pub websocket: bool,
    pub username: Option<String>,
}

impl ClientConnection {
    pub fn new(id: &str) -> (r: Self)
        ensures
            r.id@ == id@,
            r.game_id.is_none(),
            !r.websocket,
            r.username.is_none(),
    {
        ClientConnection { id: id.to_owned(), game_id: None, websocket: false, username: None }
    }
}

/// A game with its heartbeat accumulator, in milliseconds.
#[derive(Debug)]
pub struct GameEntry {
    pub id: u64,
    pub game: GameState,
    pub accumulator: i32,
}

pub ghost struct EntryModel {
    pub id: u64,
    pub game: GameModel,
    pub acc: i32,
}

impl View for GameEntry {
    type V = EntryModel;

    open spec fn view(&self) -> EntryModel {
        EntryModel { id: self.id, game: self.game@, acc: self.accumulator }
    }
}

pub open spec fn entry_views(v: Seq<GameEntry>) -> Seq<EntryModel> {
    v.map_values(|e: GameEntry| e@)
}

/// What a server message carries.
pub ghost enum MessageModel {
    GameState(GameModel),
    Error(Seq<char>),
    Pong,
    Connected(Seq<char>),
    HighScores(Seq<HighScoreEntry>),
}

impl View for ServerMessage {
    type V = MessageModel;

    open spec fn view(&self) -> MessageModel {
        match self {
            ServerMessage::GameState(g) => MessageModel::GameState(g@),
            ServerMessage::Error { message } => MessageModel::Error(message@),
            ServerMessage::Pong => MessageModel::Pong,
            ServerMessage::Connected { client_id } => MessageModel::Connected(client_id@),
            ServerMessage::HighScores(h) => MessageModel::HighScores(h.highscores@),
        }
    }
}

/// Something to send to one connection.
#[derive(Debug)]
pub enum Outgoing {
    /// Raw bytes of an HTTP response.
    Http { client_id: String, bytes: Vec<u8> },
    /// A message to frame and send over the WebSocket.
    Message { client_id: String, message: ServerMessage },
    /// A static file to read and serve; the response is built by `HttpResponse::file_content`.
    File { client_id: String, path: String },
}

pub ghost enum OutModel {
    Http(Seq<char>, Seq<u8>),
    Message(Seq<char>, MessageModel),
    File(Seq<char>, Seq<char>),
}

impl View for Outgoing {
    type V = OutModel;

    open spec fn view(&self) -> OutModel {
        match self {
            Outgoing::Http { client_id, bytes } => OutModel::Http(client_id@, bytes@),
            Outgoing::Message { client_id, message } => OutModel::Message(client_id@, message@),
            Outgoing::File { client_id, path } => OutModel::File(client_id@, path@),
        }
    }
}

pub open spec fn out_views(v: Seq<Outgoing>) -> Seq<OutModel> {
    v.map_values(|o: Outgoing| o@)
}

/// An event for the orchestrator, in arrival order.
#[derive(Debug)]
pub enum GameEvent {
    ClientInput(String, ClientMessage),
    NewConnection(ClientConnection),
    GameTick,
}

/// Where connection `id` stands, searching from `i`.
pub open spec fn client_index(cs: Seq<ClientConnection>, id: Seq<char>, i: int) -> Option<int>
    decreases cs.len() - i,
{
    if i < 0 || i >= cs.len() {
        None
    } else if cs[i].id@ == id {
        Some(i)
    } else {
        client_index(cs, id, i + 1)
    }
}

/// Where game `id` stands, searching from `i`.
pub open spec fn game_index(gs: Seq<EntryModel>, id: u64, i: int) -> Option<int>
    decreases gs.len() - i,
{
    if i < 0 || i >= gs.len() {
        None
    } else if gs[i].id == id {
        Some(i)
    } else {
        game_index(gs, id, i + 1)
    }
}

pub proof fn lemma_client_index(cs: Seq<ClientConnection>, id: Seq<char>, i: int)
    ensures
        client_index(cs, id, i) matches Some(j) ==> i <= j < cs.len() && cs[j].id@ == id,
        client_index(cs, id, i) is None && 0 <= i ==> forall|j: int| i <= j < cs.len() ==> cs[j].id@ != id,
    decreases cs.len() - i,
{
    if 0 <= i < cs.len() && cs[i].id@ != id {
        lemma_client_index(cs, id, i + 1);
    }
}

pub proof fn lemma_game_index(gs: Seq<EntryModel>, id: u64, i: int)
    ensures
        game_index(gs, id, i) matches Some(j) ==> i <= j < gs.len() && gs[j].id == id,
        game_index(gs, id, i) is None && 0 <= i ==> forall|j: int| i <= j < gs.len() ==> gs[j].id != id,
    decreases gs.len() - i,
{
    if 0 <= i < gs.len() && gs[i].id != id {
        lemma_game_index(gs, id, i + 1);
    }
}

pub struct GameServer {
    pub games: Vec<GameEntry>,
    pub clients: Vec<ClientConnection>,
    /// Every (name, score) recorded, in order of arrival.
    pub high_scores: Vec<HighScoreEntry>,
}

impl GameServer {
    /// Games are valid and keyed uniquely; connections are keyed uniquely.
    pub open spec fn wf(&self) -> bool {
        &&& forall|i: int| 0 <= i < self.games@.len() ==> (#[trigger] self.games@[i])@.game.wf()
        &&& forall|i: int, j: int|
            0 <= i < j < self.games@.len() ==> self.games@[i].id != self.games@[j].id
        &&& forall|i: int, j: int|
            0 <= i < j < self.clients@.len() ==> self.clients@[i].id@ != self.clients@[j].id@
    }

    pub open spec fn games_view(&self) -> Seq<EntryModel> {
        entry_views(self.games@)
    }

    pub fn new() -> (r: Self)
        ensures
            r.wf(),
            r.games@.len() == 0,
            r.clients@.len() == 0,
            r.high_scores@.len() == 0,
    {
        GameServer { games: Vec::new(), clients: Vec::new(), high_scores: Vec::new() }
    }

    fn find_client(&self, id: &String) -> (r: Option<usize>)
        ensures
            match r {
                Some(i) => client_index(self.clients@, id@, 0) == Some(i as int),
                None => client_index(self.clients@, id@, 0).is_none(),
            },
    {
        proof { lemma_client_index(self.clients@, id@, 0); }
        let mut i: usize = 0;
        while i < self.clients.len()
            invariant
                i <= self.clients.len(),
                client_index(self.clients@, id@, 0) == client_index(self.clients@, id@, i as int),
            decreases self.clients.len() - i,
        {
            if self.clients[i].id == *id {
                return Some(i);
            }
            i += 1;
        }
        None
    }

    fn find_game(&self, id: u64) -> (r: Option<usize>)
        ensures
            match r {
                Some(i) => game_index(self.games_view(), id, 0) == Some(i as int),
                None => game_index(self.games_view(), id, 0).is_none(),
            },
    {
        proof { lemma_game_index(self.games_view(), id, 0); }
        let mut i: usize = 0;
        while i < self.games.len()
            invariant
                i <= self.games.len(),
                game_index(self.games_view(), id, 0) == game_index(self.games_view(), id, i as int),
            decreases self.games.len() - i,
        {
            if self.games[i].id == id {
                return Some(i);
            }
            i += 1;
        }
        None
    }

    /// Registers a connection; one with the same identity is replaced.
    pub fn add_client(&mut self, client: ClientConnection)
        requires
            old(self).wf(),
        ensures
            final(self).wf(),
            final(self).games@ == old(self).games@,
            final(self).high_scores@ == old(self).high_scores@,
            match client_index(old(self).clients@, client.id@, 0) {
                Some(i) => final(self).clients@ == old(self).clients@.update(i, client),
                None => final(self).clients@ == old(self).clients@.push(client),
            },
    {
        proof { lemma_client_index(self.clients@, client.id@, 0); }
        match self.find_client(&client.id) {
            Some(i) => {
                self.clients.set(i, client);
            },
            None => {
                self.clients.push(client);
            },
        }
    }

    /// The game that connection `ci` is bound to, where it exists.
    pub open spec fn bound_game(&self, ci: int) -> Option<int> {
        match self.clients@[ci].game_id {
            Some(g) => game_index(self.games_view(), g, 0),
            None => None,
        }
    }

    /// The games after entry `gi` gets `game`.
    pub open spec fn with_game(&self, gi: int, game: GameModel) -> Seq<EntryModel> {
        self.games_view().update(gi, EntryModel { game, ..self.games_view()[gi] })
    }

    /// The games after a join creates game `id` of the given size: an entry already under
    /// that id is given the fresh game and keeps its accumulator.
    pub open spec fn with_new_game(&self, id: u64, size: Size) -> Seq<EntryModel> {
        let g = GameModel::initial(size.width, size.height);
        match game_index(self.games_view(), id, 0) {
            Some(gi) => self.with_game(gi, g),
            None => self.games_view().push(EntryModel { id, game: g, acc: 0 }),
        }
    }

    /// Forgets a connection.
    pub fn remove_client(&mut self, id: &String)
        requires
            old(self).wf(),
        ensures
            final(self).wf(),
            final(self).games@ == old(self).games@,
            final(self).high_scores@ == old(self).high_scores@,
            match client_index(old(self).clients@, id@, 0) {
                Some(i) => final(self).clients@ == old(self).clients@.remove(i),
                None => final(self).clients@ == old(self).clients@,
            },
    {
        proof { lemma_client_index(self.clients@, id@, 0); }
        match self.find_client(id) {
            Some(i) => {
                self.clients.remove(i);
                assert forall|a: int, b: int|
                    0 <= a < b < self.clients@.len() implies self.clients@[a].id@ != self.clients@[b].id@ by {
                    let oa = if a < i { a } else { a + 1 };
                    let ob = if b < i { b } else { b + 1 };
                    assert(self.clients@[a] == old(self).clients@[oa]);
                    assert(self.clients@[b] == old(self).clients@[ob]);
                }
            },
            None => {},
        }
    }
}


pub open spec fn requested_size(j: JoinGame) -> Size {
    match j.size {
        Some(s) => s,
        None => Size { width: DEFAULT_SIDE, height: DEFAULT_SIDE },
    }
}

pub open spec fn valid_size(s: Size) -> bool {
    s.width >= 1 && s.height >= 1
}

/// The effect of intent `msg` from connection `clientid` (a join creates game
/// `new_game_id`), with reply `r`.
pub open spec fn message_effect(
    before: GameServer,
    after: GameServer,
    clientid: String,
    msg: ClientGameMessage,
    new_game_id: u64,
    r: Option<ServerMessage>,
) -> bool {
    match client_index(before.clients@, clientid@, 0) {
        None => {
            &&& r.is_none()
            &&& after.games_view() == before.games_view()
            &&& after.clients@ == before.clients@
            &&& after.high_scores@ == before.high_scores@
        },
        Some(ci) => {
            let c = before.clients@[ci];
            let bound = before.bound_game(ci);
            match msg {
                ClientGameMessage::JoinGame(j) => if valid_size(requested_size(j)) {
                    &&& r matches Some(m) && m@ == MessageModel::Connected(clientid@)
                    &&& after.games_view() == before.with_new_game(new_game_id, requested_size(j))
                    &&& after.clients@ == before.clients@.update(ci, ClientConnection { game_id: Some(new_game_id), ..c })
                    &&& after.high_scores@ == before.high_scores@
                } else {
                    &&& r matches Some(m) && m@ == MessageModel::Error("invalid board size"@)
                    &&& after.games_view() == before.games_view()
                    &&& after.clients@ == before.clients@
                    &&& after.high_scores@ == before.high_scores@
                },
                ClientGameMessage::Username { username } => {
                    let first_after_end = bound matches Some(gi) && before.games_view()[gi].game.game_over && c.username.is_none();
                    &&& after.clients@ == before.clients@.update(ci, ClientConnection { username: Some(username), ..c })
                    &&& after.games_view() == before.games_view()
                    &&& if first_after_end {
                        let entry = HighScoreEntry {
                            username,
                            score: before.games_view()[bound->Some_0].game.score as u32,
                        };
                        &&& after.high_scores@ == before.high_scores@.push(entry)
                        &&& r matches Some(m) && m@ == MessageModel::HighScores(top(ranked(after.high_scores@)))
                    } else {
                        &&& after.high_scores@ == before.high_scores@
                        &&& r.is_none()
                    }
                },
                ClientGameMessage::Ping => {
                    &&& r matches Some(m) && m@ == MessageModel::Pong
                    &&& after.games_view() == before.games_view()
                    &&& after.clients@ == before.clients@
                    &&& after.high_scores@ == before.high_scores@
                },
                _ => {
                    &&& r.is_none()
                    &&& after.clients@ == before.clients@
                    &&& after.high_scores@ == before.high_scores@
                    &&& match bound {
                        None => after.games_view() == before.games_view(),
                        Some(gi) => {
                            let g = before.games_view()[gi].game;
                            after.games_view() == before.with_game(gi, match msg {
                                ClientGameMessage::Input { direction } => g.steered(direction),
                                ClientGameMessage::ResetGame => GameModel::initial(g.width, g.height),
                                ClientGameMessage::SetSpeed { interval } => GameModel { interval, ..g },
                                _ => g,
                            })
                        },
                    }
                },
            }
        },
    }
}

impl GameServer {
    /// Acts on one intent of connection `clientid`. A join creates game `new_game_id`.
    /// Intents that need a game do nothing while the connection has none.
    pub fn handle_client_game_message(&mut self, clientid: &String, msg: ClientGameMessage, new_game_id: u64) -> (r: Option<ServerMessage>)
        requires
            old(self).wf(),
        ensures
            final(self).wf(),
            message_effect(*old(self), *final(self), *clientid, msg, new_game_id, r),

    {
        let ci = match self.find_client(clientid) {
            Some(i) => i,
            None => return None,
        };
        proof { lemma_client_index(self.clients@, clientid@, 0); }
        let bound: Option<usize> = match self.clients[ci].game_id {
            Some(g) => self.find_game(g),
            None => None,
        };
        proof {
            if let Some(g) = self.clients@[ci as int].game_id {
                lemma_game_index(self.games_view(), g, 0);
            }
        }
        let ghost og = self.games_view();
        match msg {
            ClientGameMessage::JoinGame(j) => {
                let size = match j.size {
                    Some(s) => s,
                    None => Size::default(),
                };
                if size.width < 1 || size.height < 1 {
                    return Some(ServerMessage::error("invalid board size"));
                }
                let game = GameState::new(size.width, size.height);
                proof { lemma_game_index(self.games_view(), new_game_id, 0); }
                match self.find_game(new_game_id) {
                    Some(gi) => {
                        self.games[gi].game = game;
                    },
                    None => {
                        self.games.push(GameEntry { id: new_game_id, game, accumulator: 0 });
                    },
                }
                self.clients[ci].game_id = Some(new_game_id);
                assert(self.games_view() =~= old(self).with_new_game(new_game_id, size));
                assert forall|i: int| 0 <= i < self.games@.len() implies (#[trigger] self.games@[i])@.game.wf() by {
                    if i < old(self).games@.len() {
                        assert(self.games@[i]@ == self.games_view()[i]);
                        assert(old(self).games@[i]@ == old(self).games_view()[i]);
                    }
                }
                assert forall|a: int, b: int| 0 <= a < b < self.games@.len() implies self.games@[a].id != self.games@[b].id by {
                    assert(self.games@[a]@ == self.games_view()[a]);
                    assert(self.games@[b]@ == self.games_view()[b]);
                    if b < old(self).games@.len() {
                        assert(old(self).games@[a]@ == old(self).games_view()[a]);
                        assert(old(self).games@[b]@ == old(self).games_view()[b]);
                    } else {
                        assert(old(self).games@[a]@ == old(self).games_view()[a]);
                    }
                }
                assert forall|a: int, b: int| 0 <= a < b < self.clients@.len() implies self.clients@[a].id@ != self.clients@[b].id@ by {
                    assert(self.clients@[a].id == old(self).clients@[a].id);
                    assert(self.clients@[b].id == old(self).clients@[b].id);
                }
                assert(self.wf());
                Some(ServerMessage::connected(clientid.clone()))
            },
            ClientGameMessage::Input { direction } => {
                if let Some(gi) = bound {
                    self.games[gi].game.handle_input(direction);
                    assert(self.games_view() =~= old(self).with_game(gi as int, og[gi as int].game.steered(direction)));
                }
                None
            },
            ClientGameMessage::ResetGame => {
                if let Some(gi) = bound {
                    self.games[gi].game.reset();
                    assert(self.games_view() =~= old(self).with_game(gi as int, GameModel::initial(og[gi as int].game.width, og[gi as int].game.height)));
                }
                None
            },
            ClientGameMessage::SetSpeed { interval } => {
                if let Some(gi) = bound {
                    self.games[gi].game.interval = interval;
                    assert(self.games_view() =~= old(self).with_game(gi as int, GameModel { interval, ..og[gi as int].game }));
                }
                None
            },
            ClientGameMessage::Username { username } => {
                let first_after_end = match bound {
                    Some(gi) => self.games[gi].game.game_over && self.clients[ci].username.is_none(),
                    None => false,
                };
                if first_after_end {
                    let gi = bound.unwrap();
                    let score = self.games[gi].game.score as u32;
                    self.clients[ci].username = Some(username.clone());
                    self.high_scores.push(HighScoreEntry { username, score });
                    Some(ServerMessage::HighScores(HighScores::ranking_of(&self.high_scores)))
                } else {
                    self.clients[ci].username = Some(username);
                    None
                }
            },
            ClientGameMessage::Ping => Some(ServerMessage::Pong),
        }
    }
}


/// The accumulator after one heartbeat drains it (saturating at `i32::MIN`).
pub open spec fn drained(acc: i32) -> i32 {
    if acc - MINIMUM_TICK < i32::MIN {
        i32::MIN
    } else {
        (acc - MINIMUM_TICK) as i32
    }
}

/// The game advances on this heartbeat.
pub open spec fn fires(e: EntryModel) -> bool {
    drained(e.acc) < 0
}

/// A game after one heartbeat: on firing it advances once and its interval is added back.
pub open spec fn advanced(e: EntryModel) -> EntryModel {
    if fires(e) {
        EntryModel { id: e.id, game: e.game.updated(), acc: (drained(e.acc) + e.game.interval) as i32 }
    } else {
        EntryModel { acc: drained(e.acc), ..e }
    }
}

/// The game ends on this heartbeat.
pub open spec fn finishes(e: EntryModel) -> bool {
    fires(e) && !e.game.game_over && e.game.updated().game_over
}

/// One leaderboard entry at `score` for each named connection, in order.
pub open spec fn named_entries(cs: Seq<ClientConnection>, score: i32) -> Seq<HighScoreEntry>
    decreases cs.len(),
{
    if cs.len() == 0 {
        Seq::empty()
    } else {
        named_entries(cs.drop_last(), score) + match cs.last().username {
            Some(u) => seq![HighScoreEntry { username: u, score: score as u32 }],
            None => Seq::empty(),
        }
    }
}

/// The entries recorded for the games among the first `n` that end on this heartbeat.
pub open spec fn final_scores(gs: Seq<EntryModel>, cs: Seq<ClientConnection>, n: int) -> Seq<HighScoreEntry>
    decreases n,
{
    if n <= 0 {
        Seq::empty()
    } else {
        final_scores(gs, cs, n - 1) + if finishes(gs[n - 1]) {
            named_entries(cs, gs[n - 1].game.updated().score)
        } else {
            Seq::empty()
        }
    }
}

/// What connection `c` is sent after a heartbeat over games `gs` (as they were before it),
/// with leaderboard `board`: nothing unless its game advanced; once that game is over,
/// the leaderboard then the final state, once; before that, the state.
pub open spec fn delivery(c: ClientConnection, gs: Seq<EntryModel>, board: Seq<HighScoreEntry>) -> Seq<OutModel> {
    match c.game_id {
        None => Seq::empty(),
        Some(g) => match game_index(gs, g, 0) {
            None => Seq::empty(),
            Some(i) => if !fires(gs[i]) {
                Seq::empty()
            } else {
                let s = gs[i].game.updated();
                let snap = OutModel::Message(c.id@, MessageModel::GameState(GameModel { notified: Seq::empty(), ..s }));
                if s.game_over && s.notified.contains(c.id@) {
                    Seq::empty()
                } else if s.game_over {
                    seq![OutModel::Message(c.id@, MessageModel::HighScores(top(ranked(board)))), snap]
                } else {
                    seq![snap]
                }
            },
        },
    }
}

pub open spec fn deliveries(cs: Seq<ClientConnection>, gs: Seq<EntryModel>, board: Seq<HighScoreEntry>, n: int) -> Seq<OutModel>
    decreases n,
{
    if n <= 0 {
        Seq::empty()
    } else {
        deliveries(cs, gs, board, n - 1) + delivery(cs[n - 1], gs, board)
    }
}

/// Connections among the first `n` told on this heartbeat that game `e` is over.
pub open spec fn newly_notified(cs: Seq<ClientConnection>, e: EntryModel, n: int) -> Seq<Seq<char>>
    decreases n,
{
    if n <= 0 {
        Seq::empty()
    } else {
        newly_notified(cs, e, n - 1) + if cs[n - 1].game_id == Some(e.id) && fires(e) && e.game.updated().game_over
            && !e.game.notified.contains(cs[n - 1].id@) {
            seq![cs[n - 1].id@]
        } else {
            Seq::empty()
        }
    }
}

/// Entry `m` with `extra` connections recorded as told.
pub open spec fn notif(m: EntryModel, extra: Seq<Seq<char>>) -> EntryModel {
    EntryModel { game: GameModel { notified: m.game.notified + extra, ..m.game }, ..m }
}

/// Game `e` after a heartbeat, with the connections in `cs` recorded as told.
pub open spec fn ticked(e: EntryModel, cs: Seq<ClientConnection>) -> EntryModel {
    notif(advanced(e), newly_notified(cs, e, cs.len() as int))
}

proof fn lemma_newly_notified_from(cs: Seq<ClientConnection>, e: EntryModel, n: int, x: Seq<char>)
    requires
        0 <= n <= cs.len(),
        newly_notified(cs, e, n).contains(x),
    ensures
        exists|k: int| 0 <= k < n && cs[k].id@ == x,
    decreases n,
{
    if n > 0 {
        let prev = newly_notified(cs, e, n - 1);
        if prev.contains(x) {
            lemma_newly_notified_from(cs, e, n - 1, x);
        } else {
            let j = choose|j: int| 0 <= j < newly_notified(cs, e, n).len() && newly_notified(cs, e, n)[j] == x;
            assert(j >= prev.len());
            assert(cs[n - 1].id@ == x);
        }
    }
}

proof fn lemma_newly_notified_none(cs: Seq<ClientConnection>, e: EntryModel, n: int)
    requires
        !(fires(e) && e.game.updated().game_over),
    ensures
        newly_notified(cs, e, n).len() == 0,
    decreases n,
{
    if n > 0 {
        lemma_newly_notified_none(cs, e, n - 1);
    }
}

proof fn lemma_game_index_same_ids(a: Seq<EntryModel>, b: Seq<EntryModel>, id: u64, i: int)
    requires
        a.len() == b.len(),
        forall|k: int| 0 <= k < a.len() ==> a[k].id == b[k].id,
    ensures
        game_index(a, id, i) == game_index(b, id, i),
    decreases a.len() - i,
{
    if 0 <= i < a.len() && a[i].id != id {
        lemma_game_index_same_ids(a, b, id, i + 1);
    }
}

fn contains_id(v: &Vec<String>, id: &String) -> (r: bool)
    ensures
        r == string_views(v@).contains(id@),
{
    let ghost w = string_views(v@);
    let mut i: usize = 0;
    while i < v.len()
        invariant
            i <= v.len(),
            w == string_views(v@),
            forall|k: int| 0 <= k < i ==> w[k] != id@,
        decreases v.len() - i,
    {
        if v[i] == *id {
            assert(w[i as int] == id@);
            return true;
        }
        i += 1;
    }
    false
}

/// The effect of one heartbeat, sending `out`.
pub open spec fn tick_effect(before: GameServer, after: GameServer, out: Seq<Outgoing>) -> bool {
    &&& after.clients@ == before.clients@
    &&& after.games_view().len() == before.games_view().len()
    &&& forall|i: int|
        0 <= i < before.games_view().len() ==> after.games_view()[i] == ticked(
            before.games_view()[i],
            before.clients@,
        )
    &&& after.high_scores@ == before.high_scores@ + final_scores(
        before.games_view(),
        before.clients@,
        before.games_view().len() as int,
    )
    &&& out_views(out) == deliveries(
        before.clients@,
        before.games_view(),
        after.high_scores@,
        before.clients@.len() as int,
    )
}

impl GameServer {
    fn deliver_to(
        &mut self,
        j: usize,
        fired: &Vec<bool>,
        out: &mut Vec<Outgoing>,
        Ghost(og): Ghost<Seq<EntryModel>>,
        Ghost(mid): Ghost<Seq<EntryModel>>,
        Ghost(board): Ghost<Seq<HighScoreEntry>>,
    )
        requires
            j < old(self).clients@.len(),
            fired@.len() == og.len() == old(self).games@.len() == mid.len(),
            forall|k: int| 0 <= k < og.len() ==> fired@[k] == fires(og[k]),
            forall|k: int| 0 <= k < og.len() ==> mid[k] == advanced(og[k]),
            forall|k: int|
                0 <= k < og.len() ==> old(self).games_view()[k] == notif(
                    mid[k],
                    newly_notified(old(self).clients@, og[k], j as int),
                ),
            forall|a: int, b: int|
                0 <= a < b < old(self).clients@.len() ==> old(self).clients@[a].id@ != old(self).clients@[b].id@,
            forall|a: int, b: int| 0 <= a < b < og.len() ==> og[a].id != og[b].id,
            old(self).high_scores@ == board,
        ensures
            final(self).clients@ == old(self).clients@,
            final(self).high_scores@ == board,
            final(self).games@.len() == og.len(),
            forall|k: int|
                0 <= k < og.len() ==> final(self).games_view()[k] == notif(
                    mid[k],
                    newly_notified(old(self).clients@, og[k], j + 1),
                ),
            out_views(final(out)@) == out_views(old(out)@) + delivery(old(self).clients@[j as int], og, board),
    {
        let ghost cs = self.clients@;
        let ghost c = cs[j as int];
        let ghost raw = self.games@;
        let ghost mut pushed: Option<int> = None;
        proof {
            assert forall|k: int| 0 <= k < og.len() implies self.games_view()[k].id == og[k].id by {}
            if let Some(g) = c.game_id {
                lemma_game_index_same_ids(self.games_view(), og, g, 0);
                lemma_game_index(og, g, 0);
            }
            assert forall|k: int| 0 <= k < og.len() implies !newly_notified(cs, og[k], j as int).contains(c.id@) by {
                if newly_notified(cs, og[k], j as int).contains(c.id@) {
                    lemma_newly_notified_from(cs, og[k], j as int, c.id@);
                }
            }
        }
        match self.clients[j].game_id {
            Some(g) => match self.find_game(g) {
                Some(gi) => {
                    if fired[gi] {
                        let over = self.games[gi].game.game_over;
                        let told = contains_id(&self.games[gi].game.already_sent_gameovers_to, &self.clients[j].id);
                        proof {
                            assert(self.games@[gi as int]@ == self.games_view()[gi as int]);
                            let extra = newly_notified(cs, og[gi as int], j as int);
                            assert(self.games_view()[gi as int].game.notified == mid[gi as int].game.notified + extra);
                            if told {
                                let w = mid[gi as int].game.notified + extra;
                                let t = choose|t: int| 0 <= t < w.len() && w[t] == c.id@;
                                if t >= mid[gi as int].game.notified.len() {
                                    assert(extra[t - mid[gi as int].game.notified.len()] == c.id@);
                                }
                            }
                            let n0 = og[gi as int].game.notified;
                            assert(mid[gi as int] == advanced(og[gi as int]));
                            assert(mid[gi as int].game.notified == n0);
                            if n0.contains(c.id@) {
                                let t = choose|t: int| 0 <= t < n0.len() && n0[t] == c.id@;
                                assert((n0 + extra)[t] == c.id@);
                            }
                            assert(told == og[gi as int].game.notified.contains(c.id@));
                        }
                        if !(over && told) {
                            let snap = self.games[gi].game.snapshot();
                            let cid = self.clients[j].id.clone();
                            if over {
                                let note = self.clients[j].id.clone();
                                let ghost before = self.games[gi as int].game.already_sent_gameovers_to@;
                                self.games[gi].game.already_sent_gameovers_to.push(note);
                                proof {
                                    pushed = Some(gi as int);
                                    assert(string_views(before.push(note)) =~= string_views(before).push(c.id@));
                                    assert(og[gi as int].id == g);
                                    assert(c.game_id == Some(og[gi as int].id));
                                    assert(fires(og[gi as int]));
                                    assert(og[gi as int].game.updated().game_over);
                                    assert(!og[gi as int].game.notified.contains(c.id@));
                                }
                                out.push(Outgoing::Message {
                                    client_id: cid.clone(),
                                    message: ServerMessage::HighScores(HighScores::ranking_of(&self.high_scores)),
                                });
                            }
                            out.push(Outgoing::Message { client_id: cid, message: ServerMessage::GameState(snap) });
                        }
                    }
                },
                None => {},
            },
            None => {},
        }
        proof {
            assert forall|k: int| 0 <= k < og.len() implies self.games_view()[k] == notif(mid[k], newly_notified(cs, og[k], j + 1)) by {
                if pushed == Some(k) {
                    assert(self.games@[k]@ == self.games_view()[k]);
                    assert(raw[k]@ == entry_views(raw)[k]);
                    assert(self.games_view()[k].game.notified =~= mid[k].game.notified + newly_notified(cs, og[k], j + 1));
                    assert(self.games_view()[k] =~= notif(mid[k], newly_notified(cs, og[k], j + 1)));
                } else {
                    assert(self.games@[k] == raw[k]);
                    assert(newly_notified(cs, og[k], j + 1) =~= newly_notified(cs, og[k], j as int));
                }
            }
            assert(out_views(out@) =~= out_views(old(out)@) + delivery(c, og, board));
        }
    }

    fn record_scores(&mut self, score: i32)
        ensures
            final(self).high_scores@ == old(self).high_scores@ + named_entries(old(self).clients@, score),
            final(self).games@ == old(self).games@,
            final(self).clients@ == old(self).clients@,
    {
        let mut j: usize = 0;
        assert(self.clients@.take(0) =~= Seq::<ClientConnection>::empty());
        assert(self.high_scores@ =~= old(self).high_scores@ + named_entries(self.clients@.take(0), score));
        while j < self.clients.len()
            invariant
                j <= self.clients.len(),
                self.games@ == old(self).games@,
                self.clients@ == old(self).clients@,
                self.high_scores@ == old(self).high_scores@ + named_entries(self.clients@.take(j as int), score),
            decreases self.clients.len() - j,
        {
            assert(self.clients@.take(j + 1).drop_last() =~= self.clients@.take(j as int));
            match &self.clients[j].username {
                Some(u) => {
                    let entry = HighScoreEntry { username: u.clone(), score: score as u32 };
                    self.high_scores.push(entry);
                },
                None => {},
            }
            j += 1;
            assert(self.high_scores@ =~= old(self).high_scores@ + named_entries(self.clients@.take(j as int), score));
        }
        assert(self.clients@.take(self.clients.len() as int) =~= self.clients@);
    }

    /// One heartbeat: drains every accumulator, advances the games that fire, records
    /// scores for games that end, then delivers to every connection bound to a game that
    /// advanced.
    pub fn tick(&mut self) -> (out: Vec<Outgoing>)
        requires
            old(self).wf(),
        ensures
            final(self).wf(),
            tick_effect(*old(self), *final(self), out@),

    {
        let ghost og = self.games_view();
        proof {
            assert forall|k: int| 0 <= k < og.len() implies og[k].game.wf() by {
                assert(og[k] == self.games@[k]@);
            }
            assert forall|a: int, b: int| 0 <= a < b < og.len() implies og[a].id != og[b].id by {
                assert(og[a] == self.games@[a]@);
                assert(og[b] == self.games@[b]@);
            }
        }
        let mut fired: Vec<bool> = Vec::new();
        let mut i: usize = 0;
        while i < self.games.len()
            invariant
                i <= self.games.len() == og.len(),
                self.clients@ == old(self).clients@,
                fired@.len() == i,
                forall|k: int| 0 <= k < i ==> fired@[k] == fires(og[k]),
                forall|k: int| 0 <= k < i ==> self.games_view()[k] == advanced(og[k]),
                forall|k: int| i <= k < og.len() ==> self.games_view()[k] == og[k],
                forall|k: int| 0 <= k < og.len() ==> og[k].game.wf(),
                forall|k: int| 0 <= k < og.len() ==> self.games_view()[k].game.wf(),
                forall|a: int, b: int| 0 <= a < b < og.len() ==> og[a].id != og[b].id,
                self.high_scores@ == old(self).high_scores@ + final_scores(og, self.clients@, i as int),
            decreases self.games.len() - i,
        {
            let ghost raw = self.games@;
            let acc = self.games[i].accumulator;
            let d = if acc < i32::MIN + MINIMUM_TICK {
                i32::MIN
            } else {
                acc - MINIMUM_TICK
            };
            assert(self.games_view()[i as int] == self.games@[i as int]@);
            if d < 0 {
                let was_over = self.games[i].game.game_over;
                self.games[i].game.update();
                if self.games[i].game.game_over && !was_over {
                    let score = self.games[i].game.score;
                    self.record_scores(score);
                }
                let interval = self.games[i].game.interval;
                self.games[i].accumulator = d + interval as i32;
                fired.push(true);
            } else {
                self.games[i].accumulator = d;
                fired.push(false);
            }
            assert(self.games_view()[i as int] == advanced(og[i as int]));
            assert forall|k: int| 0 <= k < og.len() && k != i implies self.games_view()[k] == entry_views(raw)[k] by {
                assert(self.games@[k] == raw[k]);
            }
            assert forall|k: int| 0 <= k < i + 1 implies self.games_view()[k] == advanced(og[k]) by {
                if k < i {
                    assert(self.games_view()[k] == entry_views(raw)[k]);
                }
            }
            assert forall|k: int| 0 <= k < og.len() implies self.games_view()[k].game.wf() by {
                if k != i {
                    assert(self.games_view()[k] == entry_views(raw)[k]);
                } else {
                    assert(self.games_view()[k] == self.games@[k]@);
                }
            }
            assert(self.high_scores@ =~= old(self).high_scores@ + final_scores(og, self.clients@, i + 1));
            i += 1;
        }
        let ghost board = self.high_scores@;
        let ghost mid = self.games_view();
        let ghost cs = self.clients@;
        let mut out: Vec<Outgoing> = Vec::new();
        let mut j: usize = 0;
        assert(out_views(out@) =~= Seq::<OutModel>::empty());
        assert forall|k: int| 0 <= k < og.len() implies self.games_view()[k] == notif(mid[k], newly_notified(cs, og[k], 0)) by {
            assert(mid[k].game.notified + Seq::<Seq<char>>::empty() =~= mid[k].game.notified);
        }
        while j < self.clients.len()
            invariant
                j <= self.clients.len() == cs.len(),
                self.clients@ == cs,
                self.high_scores@ == board,
                fired@.len() == og.len() == self.games@.len() == mid.len(),
                forall|k: int| 0 <= k < og.len() ==> fired@[k] == fires(og[k]),
                forall|k: int| 0 <= k < og.len() ==> mid[k] == advanced(og[k]),
                forall|k: int| 0 <= k < og.len() ==> mid[k].game.wf(),
                forall|k: int| 0 <= k < og.len() ==> self.games_view()[k] == notif(mid[k], newly_notified(cs, og[k], j as int)),
                forall|a: int, b: int| 0 <= a < b < cs.len() ==> cs[a].id@ != cs[b].id@,
                forall|a: int, b: int| 0 <= a < b < og.len() ==> og[a].id != og[b].id,
                out_views(out@) == deliveries(cs, og, board, j as int),
            decreases self.clients.len() - j,
        {
            self.deliver_to(j, &fired, &mut out, Ghost(og), Ghost(mid), Ghost(board));
            j += 1;
        }
        proof {
            assert forall|k: int| 0 <= k < og.len() implies (#[trigger] self.games@[k])@.game.wf() by {
                assert(self.games@[k]@ == self.games_view()[k]);
                if !(fires(og[k]) && og[k].game.updated().game_over) {
                    lemma_newly_notified_none(cs, og[k], cs.len() as int);
                    assert(mid[k].game.notified + newly_notified(cs, og[k], cs.len() as int) =~= mid[k].game.notified);
                }
            }
            assert forall|a: int, b: int| 0 <= a < b < self.games@.len() implies self.games@[a].id != self.games@[b].id by {
                assert(self.games@[a]@ == self.games_view()[a]);
                assert(self.games@[b]@ == self.games_view()[b]);
            }
        }
        out
    }
}


/// The file served for a GET of `path`: what follows its first '/' under `public/`,
/// `index.html` for nothing; no file where the path has no '/'.
pub open spec fn static_path(path: Seq<char>) -> Option<Seq<char>> {
    match find_from(path, seq!['/'], 0) {
        Some(i) => {
            let rest = path.subrange(i + 1, path.len() as int);
            Some("public/"@ + if rest.len() == 0 { "index.html"@ } else { rest })
        },
        None => None,
    }
}

/// The effect of HTTP request `req` from connection `clientid`, sending `out`. A
/// handshake upgrades the connection and is answered with the 101 response and the
/// leaderboard; a handshake without a key gets 404.
pub open spec fn request_effect(
    before: GameServer,
    after: GameServer,
    clientid: String,
    req: RequestModel,
    out: Seq<Outgoing>,
) -> bool {
    let id = clientid@;
    let not_found = OutModel::Http(id, response_bytes(not_found_model()));
    &&& after.games_view() == before.games_view()
    &&& after.high_scores@ == before.high_scores@
    &&& match client_index(before.clients@, id, 0) {
        None => after.clients@ == before.clients@ && out.len() == 0,
        Some(ci) => if is_handshake(req.headers) {
            match lookup(req.headers, "Sec-WebSocket-Key"@) {
                Some(k) => {
                    &&& after.clients@ == before.clients@.update(ci, ClientConnection { websocket: true, ..before.clients@[ci] })
                    &&& out_views(out) == seq![
                        OutModel::Http(id, response_bytes(handshake_model(accept_token(k)))),
                        OutModel::Message(id, MessageModel::HighScores(top(ranked(before.high_scores@)))),
                    ]
                },
                None => after.clients@ == before.clients@ && out_views(out) == seq![not_found],
            }
        } else {
            &&& after.clients@ == before.clients@
            &&& out_views(out) == if req.method == HttpMethod::GET && static_path(req.path) is Some {
                seq![OutModel::File(id, static_path(req.path)->Some_0)]
            } else {
                seq![not_found]
            }
        },
    }
}

fn static_file(path: &String) -> (r: Option<String>)
    ensures
        match static_path(path@) {
            Some(p) => r matches Some(s) && s@ == p,
            None => r.is_none(),
        },
{
    let c = chars_of(path.as_str());
    let slash = vec!['/'];
    assert(c@.subrange(0, c@.len() as int) =~= c@);
    match find(&c, 0, c.len(), &slash) {
        Some(i) => {
            proof {
                assert(slash@ =~= seq!['/']);
                lemma_find_from_range(c@, seq!['/'], 0);
            }
            let mut full = chars_of("public/");
            if i + 1 == c.len() {
                let index = chars_of("index.html");
                push_all(&mut full, &index);
            } else {
                let mut rest: Vec<char> = Vec::new();
                let mut k = i + 1;
                while k < c.len()
                    invariant
                        i + 1 <= k <= c.len(),
                        rest@ == c@.subrange(i + 1, k as int),
                    decreases c.len() - k,
                {
                    rest.push(c[k]);
                    k += 1;
                    assert(rest@ =~= c@.subrange(i + 1, k as int));
                }
                push_all(&mut full, &rest);
            }
            Some(string_of(full.as_slice()))
        },
        None => {
            proof { assert(slash@ =~= seq!['/']); }
            None
        },
    }
}

impl GameServer {
    /// Answers an HTTP request of connection `clientid`.
    pub fn handle_client_http_request(&mut self, clientid: &String, req: &HttpRequest) -> (out: Vec<Outgoing>)
        requires
            old(self).wf(),
        ensures
            final(self).wf(),
            request_effect(*old(self), *final(self), *clientid, req@, out@),
    {
        let mut out: Vec<Outgoing> = Vec::new();
        let ci = match self.find_client(clientid) {
            Some(i) => i,
            None => return out,
        };
        proof { lemma_client_index(self.clients@, clientid@, 0); }
        if req.is_websocket_handshake() {
            match HttpResponse::websocket_handshake(req) {
                Some(res) => {
                    self.clients[ci].websocket = true;
                    out.push(Outgoing::Http { client_id: clientid.clone(), bytes: res.as_bytes() });
                    out.push(Outgoing::Message {
                        client_id: clientid.clone(),
                        message: ServerMessage::HighScores(HighScores::ranking_of(&self.high_scores)),
                    });
                    assert forall|a: int, b: int| 0 <= a < b < self.clients@.len() implies self.clients@[a].id@ != self.clients@[b].id@ by {
                        assert(self.clients@[a].id == old(self).clients@[a].id);
                        assert(self.clients@[b].id == old(self).clients@[b].id);
                    }
                    assert(out_views(out@) =~= seq![
                        OutModel::Http(clientid@, response_bytes(res@)),
                        OutModel::Message(clientid@, MessageModel::HighScores(top(ranked(old(self).high_scores@)))),
                    ]);
                },
                None => {
                    out.push(Outgoing::Http { client_id: clientid.clone(), bytes: HttpResponse::not_found().as_bytes() });
                    assert(out_views(out@) =~= seq![OutModel::Http(clientid@, response_bytes(not_found_model()))]);
                },
            }
        } else {
            let file = if req.method == HttpMethod::GET {
                static_file(&req.path)
            } else {
                None
            };
            match file {
                Some(path) => {
                    let ghost pv = path@;
                    out.push(Outgoing::File { client_id: clientid.clone(), path });
                    assert(out_views(out@) =~= seq![OutModel::File(clientid@, pv)]);
                },
                None => {
                    out.push(Outgoing::Http { client_id: clientid.clone(), bytes: HttpResponse::not_found().as_bytes() });
                    assert(out_views(out@) =~= seq![OutModel::Http(clientid@, response_bytes(not_found_model()))]);
                },
            }
        }
        out
    }

    /// Handles one event and returns what to send. A join draws a fresh game id at random.
    pub fn handle_io_event(&mut self, ev: GameEvent) -> (out: Vec<Outgoing>)
        requires
            old(self).wf(),
        ensures
            final(self).wf(),
            match ev {
                GameEvent::ClientInput(id, ClientMessage::ClientGameMessage(m)) => exists|g: u64, r: Option<ServerMessage>| {
                    &&& message_effect(*old(self), *final(self), id, m, g, r)
                    &&& out_views(out@) == match r {
                        Some(x) => seq![OutModel::Message(id@, x@)],
                        None => Seq::empty(),
                    }
                },
                GameEvent::ClientInput(id, ClientMessage::HttpRequest(req)) => request_effect(*old(self), *final(self), id, req@, out@),
                GameEvent::ClientInput(id, ClientMessage::Disconnect) => {
                    &&& final(self).games@ == old(self).games@
                    &&& final(self).high_scores@ == old(self).high_scores@
                    &&& out@.len() == 0
                    &&& match client_index(old(self).clients@, id@, 0) {
                        Some(i) => final(self).clients@ == old(self).clients@.remove(i),
                        None => final(self).clients@ == old(self).clients@,
                    }
                },
                GameEvent::ClientInput(_, _) => {
                    &&& final(self).games@ == old(self).games@
                    &&& final(self).clients@ == old(self).clients@
                    &&& final(self).high_scores@ == old(self).high_scores@
                    &&& out@.len() == 0
                },
                GameEvent::NewConnection(c) => {
                    &&& final(self).games@ == old(self).games@
                    &&& final(self).high_scores@ == old(self).high_scores@
                    &&& out@.len() == 0
                    &&& match client_index(old(self).clients@, c.id@, 0) {
                        Some(i) => final(self).clients@ == old(self).clients@.update(i, c),
                        None => final(self).clients@ == old(self).clients@.push(c),
                    }
                },
                GameEvent::GameTick => tick_effect(*old(self), *final(self), out@),
            },
    {
        match ev {
            GameEvent::ClientInput(id, msg) => match msg {
                ClientMessage::ClientGameMessage(m) => {
                    let fresh: u64 = match &m {
                        ClientGameMessage::JoinGame(_) => rand::random::<u64>(),
                        _ => 0,
                    };
                    let reply = self.handle_client_game_message(&id, m, fresh);
                    let mut out: Vec<Outgoing> = Vec::new();
                    match reply {
                        Some(x) => {
                            let ghost xv = x;
                            out.push(Outgoing::Message { client_id: id, message: x });
                            assert(out_views(out@) =~= seq![OutModel::Message(id@, xv@)]);
                        },
                        None => {
                            assert(out_views(out@) =~= Seq::<OutModel>::empty());
                        },
                    }
                    out
                },
                ClientMessage::HttpRequest(req) => self.handle_client_http_request(&id, &req),
                ClientMessage::Disconnect => {
                    self.remove_client(&id);
                    Vec::new()
                },
                _ => Vec::new(),
            },
            GameEvent::NewConnection(c) => {
                self.add_client(c);
                Vec::new()
            },
            GameEvent::GameTick => self.tick(),
        }
    }
}


proof fn lemma_game_index_unique(gs: Seq<EntryModel>, i: int)
    requires
        0 <= i < gs.len(),
        forall|a: int, b: int| 0 <= a < b < gs.len() ==> gs[a].id != gs[b].id,
    ensures
        game_index(gs, gs[i].id, 0) == Some(i),
{
    lemma_game_index(gs, gs[i].id, 0);
    if let Some(j) = game_index(gs, gs[i].id, 0) {
        if j != i {
            if j < i {
                assert(gs[j].id != gs[i].id);
            } else {
                assert(gs[i].id != gs[j].id);
            }
        }
    }
}

proof fn lemma_newly_notified_has(cs: Seq<ClientConnection>, e: EntryModel, n: int, ci: int)
    requires
        0 <= ci < n <= cs.len(),
        cs[ci].game_id == Some(e.id),
        fires(e),
        e.game.updated().game_over,
        !e.game.notified.contains(cs[ci].id@),
    ensures
        newly_notified(cs, e, n).contains(cs[ci].id@),
    decreases n,
{
    let prev = newly_notified(cs, e, n - 1);
    if ci < n - 1 {
        lemma_newly_notified_has(cs, e, n - 1, ci);
        let t = choose|t: int| 0 <= t < prev.len() && prev[t] == cs[ci].id@;
        assert(newly_notified(cs, e, n)[t] == cs[ci].id@);
    } else {
        assert(newly_notified(cs, e, n)[prev.len() as int] == cs[ci].id@);
    }
}

/// Game-over delivery happens once. On the heartbeat that ends a game, a connection bound
/// to it is sent the leaderboard then the final state, and is recorded as told. On a
/// later heartbeat, while the game stays over and has told the connection, that
/// connection is sent nothing and stays recorded.
pub proof fn lemma_game_over_delivered_once(before: GameServer, after: GameServer, out: Seq<Outgoing>, ci: int, gi: int)
    requires
        before.wf(),
        tick_effect(before, after, out),
        0 <= ci < before.clients@.len(),
        0 <= gi < before.games_view().len(),
        before.clients@[ci].game_id == Some(before.games_view()[gi].id),
    ensures
        ({
            let c = before.clients@[ci];
            let e = before.games_view()[gi];
            &&& finishes(e) ==> {
                &&& delivery(c, before.games_view(), after.high_scores@) == seq![
                    OutModel::Message(c.id@, MessageModel::HighScores(top(ranked(after.high_scores@)))),
                    OutModel::Message(c.id@, MessageModel::GameState(GameModel { notified: Seq::empty(), ..e.game.updated() })),
                ]
                &&& after.games_view()[gi].game.game_over
                &&& after.games_view()[gi].game.notified.contains(c.id@)
            }
            &&& e.game.game_over && e.game.notified.contains(c.id@) ==> {
                &&& delivery(c, before.games_view(), after.high_scores@) == Seq::<OutModel>::empty()
                &&& after.games_view()[gi].game.game_over
                &&& after.games_view()[gi].game.notified.contains(c.id@)
            }
        }),
{
    let gs = before.games_view();
    let c = before.clients@[ci];
    let e = gs[gi];
    let cs = before.clients@;
    assert forall|a: int, b: int| 0 <= a < b < gs.len() implies gs[a].id != gs[b].id by {
        assert(gs[a] == before.games@[a]@);
        assert(gs[b] == before.games@[b]@);
    }
    lemma_game_index_unique(gs, gi);
    assert(before.games@[gi]@ == e);
    assert(e.game.wf());
    let extra = newly_notified(cs, e, cs.len() as int);
    assert(after.games_view()[gi] == ticked(e, cs));
    if finishes(e) {
        assert(e.game.notified.len() == 0);
        assert(e.game.updated().notified == e.game.notified);
        lemma_newly_notified_has(cs, e, cs.len() as int, ci);
        let t = choose|t: int| 0 <= t < extra.len() && extra[t] == c.id@;
        assert((advanced(e).game.notified + extra)[advanced(e).game.notified.len() + t] == c.id@);
    }
    if e.game.game_over && e.game.notified.contains(c.id@) {
        let t = choose|t: int| 0 <= t < e.game.notified.len() && e.game.notified[t] == c.id@;
        assert((advanced(e).game.notified + extra)[t] == c.id@);
    }
}

/// The accumulator after one heartbeat, for a game run at `interval` milliseconds.
pub open spec fn acc_after(acc: i32, interval: u16) -> i32 {
    if drained(acc) < 0 {
        (drained(acc) + interval) as i32
    } else {
        drained(acc)
    }
}

/// How often a game advances over `n` heartbeats, from accumulator `acc`.
pub open spec fn advances_in(acc: i32, interval: u16, n: nat) -> nat
    decreases n,
{
    if n == 0 {
        0
    } else {
        (if drained(acc) < 0 { 1nat } else { 0nat }) + advances_in(acc_after(acc, interval), interval, (n - 1) as nat)
    }
}

/// Tick fairness. A heartbeat moves each game's accumulator by `acc_after`, and the game
/// advances when it fires; its interval is kept. So, from a fresh accumulator, twenty
/// heartbeats (one second) advance a game at 200 ms five times and one at 1000 ms once.
pub proof fn lemma_tick_fairness(e: EntryModel)
    ensures
        advanced(e).acc == acc_after(e.acc, e.game.interval),
        advanced(e).game.interval == e.game.interval,
        advanced(e).id == e.id,
        advances_in(0, 200, 20) == 5,
        advances_in(0, 1000, 20) == 1,
{
    reveal_with_fuel(advances_in, 21);
}

} // verus!
