use vstd::prelude::*;

/// WebSocket frames: encoding, and decoding of a growing byte buffer.
pub mod frame;
/// The grid simulation each game runs.
pub mod game;
/// The orchestrator: connections, games, the heartbeat and what is sent to whom.
pub mod gameserver;
/// HTTP request heads, responses and the WebSocket handshake.
pub mod http;
/// Classification of received bytes, client and server messages, the leaderboard.
pub mod protocol;
/// Character-level helpers shared by the parsers.
pub mod text;

verus! {

} // verus!
