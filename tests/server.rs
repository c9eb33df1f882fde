use snake_online::game::{Direction, JoinGame, Size};
use snake_online::gameserver::{ClientConnection, GameEvent, GameServer, Outgoing};
use snake_online::http::HttpRequest;
use snake_online::protocol::{
    parse_client_message, ClientGameMessage, ClientMessage, HighScoreEntry, HighScores, ServerMessage, WireUnit,
};

fn connect(server: &mut GameServer, id: &str) {
    server.handle_io_event(GameEvent::NewConnection(ClientConnection::new(id)));
}

fn say(server: &mut GameServer, id: &str, m: ClientGameMessage) -> Vec<Outgoing> {
    server.handle_io_event(GameEvent::ClientInput(id.to_string(), ClientMessage::ClientGameMessage(m)))
}

fn join(server: &mut GameServer, id: &str, size: Option<Size>) -> Vec<Outgoing> {
    say(server, id, ClientGameMessage::JoinGame(JoinGame { game_id: None, size }))
}

fn request(text: &str) -> HttpRequest {
    let mut buffer = text.as_bytes().to_vec();
    match parse_client_message(&mut buffer) {
        WireUnit::Request(r) => r,
        other => panic!("{:?}", other),
    }
}

fn states_for(out: &[Outgoing], id: &str) -> usize {
    out.iter()
        .filter(|o| matches!(o, Outgoing::Message { client_id, message: ServerMessage::GameState(_) } if client_id == id))
        .count()
}

fn entry(name: &str, score: u32) -> HighScoreEntry {
    HighScoreEntry { username: name.to_string(), score }
}

#[test]
fn join_replies_connected_and_creates_a_game() {
    let mut server = GameServer::new();
    connect(&mut server, "1.2.3.4:5");
    let out = join(&mut server, "1.2.3.4:5", None);
    assert_eq!(out.len(), 1);
    match &out[0] {
        Outgoing::Message { client_id, message: ServerMessage::Connected { client_id: inner } } => {
            assert_eq!(client_id, "1.2.3.4:5");
            assert_eq!(inner, "1.2.3.4:5");
        }
        other => panic!("{:?}", other),
    }
    assert_eq!(server.games.len(), 1);
    let game = &server.games[0].game;
    assert_eq!((game.width, game.height, game.interval), (32, 32, 1500));
    assert_eq!(server.clients[0].game_id, Some(server.games[0].id));
}

#[test]
fn join_with_an_empty_board_is_refused() {
    let mut server = GameServer::new();
    connect(&mut server, "a");
    let out = join(&mut server, "a", Some(Size { width: 0, height: 10 }));
    assert!(matches!(&out[0], Outgoing::Message { message: ServerMessage::Error { .. }, .. }));
    assert!(server.games.is_empty());
    assert_eq!(server.clients[0].game_id, None);
}

#[test]
fn ping_is_answered_and_unbound_intents_do_nothing() {
    let mut server = GameServer::new();
    connect(&mut server, "a");
    let out = say(&mut server, "a", ClientGameMessage::Ping);
    assert!(matches!(&out[0], Outgoing::Message { message: ServerMessage::Pong, .. }));
    assert!(say(&mut server, "a", ClientGameMessage::Input { direction: Direction::Up }).is_empty());
    assert!(say(&mut server, "a", ClientGameMessage::ResetGame).is_empty());
    assert!(say(&mut server, "a", ClientGameMessage::SetSpeed { interval: 10 }).is_empty());
    assert!(say(&mut server, "nobody", ClientGameMessage::Ping).is_empty());
}

#[test]
fn tick_fairness_between_two_speeds() {
    let mut server = GameServer::new();
    connect(&mut server, "fast");
    connect(&mut server, "slow");
    join(&mut server, "fast", None);
    join(&mut server, "slow", None);
    say(&mut server, "fast", ClientGameMessage::SetSpeed { interval: 200 });
    say(&mut server, "slow", ClientGameMessage::SetSpeed { interval: 1000 });
    let (mut fast, mut slow) = (0, 0);
    for _ in 0..20 {
        let out = server.handle_io_event(GameEvent::GameTick);
        fast += states_for(&out, "fast");
        slow += states_for(&out, "slow");
    }
    assert_eq!(fast, 5);
    assert_eq!(slow, 1);
}

#[test]
fn game_over_is_delivered_exactly_once() {
    let mut server = GameServer::new();
    connect(&mut server, "p");
    join(&mut server, "p", Some(Size { width: 3, height: 3 }));
    say(&mut server, "p", ClientGameMessage::Username { username: "pat".to_string() });
    say(&mut server, "p", ClientGameMessage::SetSpeed { interval: 0 });
    let first = server.handle_io_event(GameEvent::GameTick);
    assert_eq!(first.len(), 1);
    assert_eq!(states_for(&first, "p"), 1);
    let second = server.handle_io_event(GameEvent::GameTick);
    assert_eq!(second.len(), 2);
    match &second[0] {
        Outgoing::Message { message: ServerMessage::HighScores(h), .. } => {
            assert_eq!(h.highscores.len(), 1);
            assert_eq!(h.highscores[0].username, "pat");
        }
        other => panic!("{:?}", other),
    }
    match &second[1] {
        Outgoing::Message { message: ServerMessage::GameState(g), .. } => assert!(g.game_over),
        other => panic!("{:?}", other),
    }
    for _ in 0..5 {
        assert!(server.handle_io_event(GameEvent::GameTick).is_empty());
    }
    say(&mut server, "p", ClientGameMessage::ResetGame);
    assert_eq!(states_for(&server.handle_io_event(GameEvent::GameTick), "p"), 1);
}

#[test]
fn game_over_records_every_named_connection() {
    let mut server = GameServer::new();
    connect(&mut server, "p");
    connect(&mut server, "watcher");
    connect(&mut server, "anon");
    say(&mut server, "watcher", ClientGameMessage::Username { username: "w".to_string() });
    join(&mut server, "p", Some(Size { width: 3, height: 3 }));
    say(&mut server, "p", ClientGameMessage::SetSpeed { interval: 0 });
    server.handle_io_event(GameEvent::GameTick);
    server.handle_io_event(GameEvent::GameTick);
    assert_eq!(server.high_scores.len(), 1);
    assert_eq!(server.high_scores[0].username, "w");
    let out = say(&mut server, "p", ClientGameMessage::Username { username: "late".to_string() });
    assert_eq!(server.high_scores.len(), 2);
    assert!(matches!(&out[0], Outgoing::Message { message: ServerMessage::HighScores(h), .. } if h.highscores.len() == 2));
    assert!(say(&mut server, "p", ClientGameMessage::Username { username: "again".to_string() }).is_empty());
    assert_eq!(server.high_scores.len(), 2);
}

#[test]
fn leaderboard_ranking_is_stable() {
    let mut entries = vec![entry("A", 30), entry("B", 50), entry("C", 50), entry("D", 10)];
    let h = HighScores::from_vec(&mut entries);
    let names: Vec<&str> = h.highscores.iter().map(|e| e.username.as_str()).collect();
    assert_eq!(names, vec!["B", "C", "A", "D"]);
    let sorted: Vec<&str> = entries.iter().map(|e| e.username.as_str()).collect();
    assert_eq!(sorted, vec!["B", "C", "A", "D"]);
}

#[test]
fn leaderboard_keeps_ten() {
    let entries: Vec<HighScoreEntry> = (0..15).map(|i| entry(&format!("n{}", i), i)).collect();
    let h = HighScores::ranking_of(&entries);
    assert_eq!(h.highscores.len(), 10);
    assert_eq!(h.highscores[0].score, 14);
    assert_eq!(h.highscores[9].score, 5);
    assert!(HighScores::ranking_of(&vec![]).highscores.is_empty());
}

#[test]
fn handshake_end_to_end() {
    let mut server = GameServer::new();
    connect(&mut server, "c");
    let req = request("GET /chat HTTP/1.1\r\nUpgrade: websocket\r\nSec-WebSocket-Key: dGhlIHNhbXBsZSBub25jZQ==\r\n\r\n");
    let out = server.handle_io_event(GameEvent::ClientInput("c".to_string(), ClientMessage::HttpRequest(req)));
    assert_eq!(out.len(), 2);
    match &out[0] {
        Outgoing::Http { bytes, .. } => {
            let text = String::from_utf8(bytes.clone()).unwrap();
            assert!(text.starts_with("HTTP/1.1 101 "));
            assert!(text.contains("Sec-Websocket-Accept: s3pPLMBiTxaQ9kYGzzhZRbK+xOo=\r\n"));
        }
        other => panic!("{:?}", other),
    }
    assert!(matches!(&out[1], Outgoing::Message { message: ServerMessage::HighScores(_), .. }));
    assert!(server.clients[0].websocket);
}

#[test]
fn plain_requests_are_routed() {
    let mut server = GameServer::new();
    connect(&mut server, "c");
    let mut ask = |text: &str| server.handle_io_event(GameEvent::ClientInput("c".to_string(), ClientMessage::HttpRequest(request(text))));
    let out = ask("GET / HTTP/1.1\r\n\r\n");
    assert!(matches!(&out[0], Outgoing::File { path, .. } if path == "public/index.html"));
    let out = ask("GET /style.css HTTP/1.1\r\n\r\n");
    assert!(matches!(&out[0], Outgoing::File { path, .. } if path == "public/style.css"));
    let out = ask("POST / HTTP/1.1\r\n\r\n");
    assert!(matches!(&out[0], Outgoing::Http { bytes, .. } if bytes.starts_with(b"HTTP/1.1 404")));
    let out = ask("GET /chat HTTP/1.1\r\nUpgrade: websocket\r\n\r\n");
    assert!(matches!(&out[0], Outgoing::Http { bytes, .. } if bytes.starts_with(b"HTTP/1.1 404")));
}

#[test]
fn connections_come_and_go() {
    let mut server = GameServer::new();
    connect(&mut server, "a");
    connect(&mut server, "b");
    connect(&mut server, "a");
    assert_eq!(server.clients.len(), 2);
    server.handle_io_event(GameEvent::ClientInput("a".to_string(), ClientMessage::Invalid));
    assert_eq!(server.clients.len(), 2);
    server.handle_io_event(GameEvent::ClientInput("a".to_string(), ClientMessage::Disconnect));
    assert_eq!(server.clients.len(), 1);
    assert_eq!(server.clients[0].id, "b");
}

#[test]
fn rejoining_moves_to_a_fresh_game() {
    let mut server = GameServer::new();
    connect(&mut server, "a");
    join(&mut server, "a", None);
    let first = server.clients[0].game_id;
    join(&mut server, "a", Some(Size { width: 10, height: 12 }));
    assert_ne!(server.clients[0].game_id, first);
    assert_eq!(server.games.len(), 2);
    let bound = server.games.iter().find(|g| Some(g.id) == server.clients[0].game_id).unwrap();
    assert_eq!((bound.game.width, bound.game.height), (10, 12));
}
