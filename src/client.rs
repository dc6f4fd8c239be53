use vstd::prelude::*;
use crate::packet::{C2sPacket, Game, S2cPacket, S2cView, names_view};

verus! {

/// A client that has connected and waits in the lobby.
pub struct LobbyState {
    pub username: String,
    pub players: Vec<String>,
    pub host: bool,
}

/// A client taking part in a running game.
pub struct ClientGameState {
    pub username: String,
    pub players: Vec<String>,
    pub host: bool,
    pub game: Game,
}

/// A client that the server removed, with the reason it gave.
pub struct KickedState {
    pub message: String,
}

/// Where a client stands in its exchange with the server.
pub enum ClientPhase {
    MainMenu,
    Lobby(LobbyState),
    InGame(ClientGameState),
    Kicked(KickedState),
    /// The server ordered the client process to end.
    Terminate,
}

/// How a client in the lobby reacts to server message `p`: a roster update
/// stays in the lobby, a game snapshot enters the game, a disconnect ends in
/// the kicked state, and an order to terminate is ignored.
pub open spec fn lobby_reacts(st: LobbyState, p: S2cView, r: ClientPhase) -> bool {
    match p {
        S2cView::SyncPlayerList(h, l) => r matches ClientPhase::Lobby(s)
            && s.host == h && names_view(s.players@) == l && s.username@ == st.username@,
        S2cView::SyncGame(g) => r matches ClientPhase::InGame(s)
            && s.game@ == g && s.host == st.host
            && names_view(s.players@) == names_view(st.players@)
            && s.username@ == st.username@,
        S2cView::Disconnect(m) => r matches ClientPhase::Kicked(k) && k.message@ == m,
        S2cView::KillYourselfNow => r matches ClientPhase::Lobby(s)
            && s.host == st.host && names_view(s.players@) == names_view(st.players@)
            && s.username@ == st.username@,
    }
}

/// How a client in a game reacts to server message `p`: roster and snapshot
/// updates are adopted, a disconnect ends in the kicked state, and an order
/// to terminate ends the process.
pub open spec fn game_reacts(st: ClientGameState, p: S2cView, r: ClientPhase) -> bool {
    match p {
        S2cView::SyncPlayerList(h, l) => r matches ClientPhase::InGame(s)
            && s.host == h && names_view(s.players@) == l && s.game@ == st.game@
            && s.username@ == st.username@,
        S2cView::SyncGame(g) => r matches ClientPhase::InGame(s)
            && s.game@ == g && s.host == st.host
            && names_view(s.players@) == names_view(st.players@)
            && s.username@ == st.username@,
        S2cView::Disconnect(m) => r matches ClientPhase::Kicked(k) && k.message@ == m,
        S2cView::KillYourselfNow => r is Terminate,
    }
}

impl LobbyState {
    /// The lobby right after connecting: nobody is listed yet.
    pub fn new(username: String) -> (r: LobbyState)
        ensures
            r.username@ == username@,
            r.players@.len() == 0,
            !r.host,
    {
        LobbyState { username, players: Vec::new(), host: false }
    }

    /// The first message on a new connection: the player's name.
    pub fn join_packet(&self) -> (r: C2sPacket)
        ensures
            r matches C2sPacket::CreatePlayer(n) && n@ == self.username@,
    {
        C2sPacket::CreatePlayer(self.username.clone())
    }

    /// The lobby's reaction to a server message: a roster update stays in
    /// the lobby, a game snapshot enters the game, a disconnect ends in the
    /// kicked state, and an order to terminate is ignored here.
    pub fn handle_packet(self, pack: S2cPacket) -> (r: ClientPhase)
        ensures
            lobby_reacts(self, pack@, r),
    {
        match pack {
            S2cPacket::SyncPlayerList(host, list) => {
                ClientPhase::Lobby(LobbyState { username: self.username, players: list, host })
            },
            S2cPacket::SyncGame(game) => ClientPhase::InGame(
                ClientGameState { username: self.username, players: self.players, host: self.host, game },
            ),
            S2cPacket::Disconnect(message) => ClientPhase::Kicked(KickedState { message }),
            S2cPacket::KillYourselfNow => ClientPhase::Lobby(self),
        }
    }
}

impl ClientGameState {
    /// The in-game reaction to a server message: roster and snapshot updates
    /// are adopted, a disconnect ends in the kicked state, and an order to
    /// terminate ends the process.
    pub fn handle_packet(self, pack: S2cPacket) -> (r: ClientPhase)
        ensures
            game_reacts(self, pack@, r),
    {
        match pack {
            S2cPacket::SyncPlayerList(host, list) => ClientPhase::InGame(
                ClientGameState { username: self.username, players: list, host, game: self.game },
            ),
            S2cPacket::SyncGame(game) => ClientPhase::InGame(
                ClientGameState { username: self.username, players: self.players, host: self.host, game },
            ),
            S2cPacket::Disconnect(message) => ClientPhase::Kicked(KickedState { message }),
            S2cPacket::KillYourselfNow => ClientPhase::Terminate,
        }
    }

    /// Whether it is this client's turn: its name heads the queue.
    pub fn is_my_turn(&self) -> (r: bool)
        ensures
            r == (self.game@.queue.len() > 0 && self.game@.queue[0] == self.username@),
    {
        self.game.queue.len() > 0 && self.game.queue[0] == self.username
    }
}

impl ClientPhase {
    /// The reaction of a client in any phase to a server message; outside
    /// the lobby and the game, messages are ignored.
    pub fn handle_packet(self, pack: S2cPacket) -> (r: ClientPhase)
        ensures
            match self {
                ClientPhase::Lobby(l) => lobby_reacts(l, pack@, r),
                ClientPhase::InGame(g) => game_reacts(g, pack@, r),
                _ => r == self,
            },
    {
        match self {
            ClientPhase::Lobby(l) => l.handle_packet(pack),
            ClientPhase::InGame(g) => g.handle_packet(pack),
            other => other,
        }
    }
}

} // verus!
