use vstd::prelude::*;
use crate::packet::{C2sPacket, Game, GameView, S2cPacket, S2cView, copy_names, names_view};
use crate::engine::{
    Engine, EngineView, TickEvent, engine_wf, is_letter, public_part, tick_spec, without_last,
    press_spec, release_spec, lemma_without_last, lemma_rotate_keeps_players, rotate,
    law_snapshot_hides_trigger,
};

verus! {

broadcast use vstd::seq_lib::group_to_multiset_ensures;

/// Port the server listens on.
pub const PORT: u16 = 6666;

/// A joined player, known by the id of its connection.
pub struct Session {
    pub id: u64,
    pub name: String,
    pub host: bool,
}

pub struct SessionView {
    pub id: u64,
    pub name: Seq<char>,
    pub host: bool,
}

impl View for Session {
    type V = SessionView;

    open spec fn view(&self) -> SessionView {
        SessionView { id: self.id, name: self.name@, host: self.host }
    }
}

/// A message for one connection.
pub struct Envelope {
    pub to: u64,
    pub packet: S2cPacket,
}

impl View for Envelope {
    type V = (u64, S2cView);

    open spec fn view(&self) -> (u64, S2cView) {
        (self.to, self.packet@)
    }
}

pub open spec fn sent(out: Seq<Envelope>) -> Seq<(u64, S2cView)> {
    out.map_values(|e: Envelope| e@)
}

/// The session manager: the roster in join order, the running game if any,
/// whether anyone has joined yet, and whether new connections are admitted.
pub struct Server {
    players: Vec<Session>,
    game: Option<Engine>,
    had_players: bool,
    accepting: bool,
}

pub struct ServerView {
    pub players: Seq<SessionView>,
    pub game: Option<EngineView>,
    pub had_players: bool,
    pub accepting: bool,
}

pub open spec fn sessions_view(ps: Seq<Session>) -> Seq<SessionView> {
    ps.map_values(|s: Session| s@)
}

impl View for Server {
    type V = ServerView;

    closed spec fn view(&self) -> ServerView {
        ServerView {
            players: sessions_view(self.players@),
            game: match self.game {
                Some(e) => Some(e@),
                None => None,
            },
            had_players: self.had_players,
            accepting: self.accepting,
        }
    }
}

pub open spec fn reason_empty_name() -> Seq<char> {
    "username cannot be empty"@
}

pub open spec fn reason_not_host() -> Seq<char> {
    "attempted a host-only action while not host."@
}

pub open spec fn reason_left() -> Seq<char> {
    "disconnected"@
}

pub open spec fn reason_lost() -> Seq<char> {
    "you lost."@
}

pub open spec fn reason_won() -> Seq<char> {
    "you won :)"@
}

/// The names of the roster, in join order.
pub open spec fn roster(ps: Seq<SessionView>) -> Seq<Seq<char>> {
    ps.map_values(|s: SessionView| s.name)
}

/// The roster sent to every joined player, each told whether they are host.
pub open spec fn roster_msgs(ps: Seq<SessionView>) -> Seq<(u64, S2cView)> {
    ps.map_values(|s: SessionView| (s.id, S2cView::SyncPlayerList(s.host, roster(ps))))
}

/// A game snapshot sent to every joined player.
pub open spec fn game_msgs(ps: Seq<SessionView>, g: GameView) -> Seq<(u64, S2cView)> {
    ps.map_values(|s: SessionView| (s.id, S2cView::SyncGame(g)))
}

pub open spec fn has_id(ps: Seq<SessionView>, id: u64) -> bool {
    exists|i: int| 0 <= i < ps.len() && ps[i].id == id
}

pub open spec fn index_of(ps: Seq<SessionView>, id: u64) -> int {
    choose|i: int| 0 <= i < ps.len() && ps[i].id == id
}

/// `i` is the first session named `n`.
pub open spec fn first_named(ps: Seq<SessionView>, n: Seq<char>, i: int) -> bool {
    &&& 0 <= i < ps.len()
    &&& ps[i].name == n
    &&& forall|j: int| 0 <= j < i ==> ps[j].name != n
}

pub open spec fn ids_distinct(ps: Seq<SessionView>) -> bool {
    forall|i: int, j: int| 0 <= i < j < ps.len() ==> ps[i].id != ps[j].id
}

/// The server's invariant: connection ids are unique; only the first in the
/// roster can be host, and while admission is open it is; nobody is listed
/// before anyone joined; and a running game has a sound engine whose turn
/// queue holds exactly the roster's names.
pub open spec fn server_wf(s: ServerView) -> bool {
    &&& ids_distinct(s.players)
    &&& forall|i: int| 0 <= i < s.players.len() && #[trigger] s.players[i].host ==> i == 0
    &&& !s.had_players ==> s.players.len() == 0
    &&& s.accepting && s.had_players ==> s.players.len() > 0 && s.players[0].host
    &&& match s.game {
        Some(e) => {
            &&& engine_wf(e)
            &&& s.players.len() > 0
            &&& e.queue.to_multiset() == roster(s.players).to_multiset()
        },
        None => true,
    }
}

pub open spec fn initial() -> ServerView {
    ServerView { players: Seq::empty(), game: None, had_players: false, accepting: true }
}

/// A connection joins under `name` (already trimmed). The first to join with
/// a non-empty name is host; an empty name is turned away.
pub open spec fn join_spec(s: ServerView, id: u64, name: Seq<char>) -> (ServerView, Seq<(u64, S2cView)>) {
    if name.len() == 0 {
        (s, seq![(id, S2cView::Disconnect(reason_empty_name()))])
    } else if has_id(s.players, id) {
        (s, Seq::empty())
    } else {
        let ps = s.players.push(SessionView { id, name, host: !s.had_players });
        let g = match s.game {
            Some(e) => Some(EngineView { queue: e.queue.push(name), ..e }),
            None => None,
        };
        (ServerView { players: ps, game: g, had_players: true, ..s }, roster_msgs(ps))
    }
}

/// Session `id` is removed for `reason`: it is told why, it leaves the
/// roster and the turn queue, and the others get the new roster. The host
/// leaving closes admission; the last player leaving ends the game.
pub open spec fn remove_spec(s: ServerView, id: u64, reason: Seq<char>) -> (ServerView, Seq<(u64, S2cView)>) {
    if !has_id(s.players, id) {
        (s, Seq::empty())
    } else {
        let i = index_of(s.players, id);
        let p = s.players[i];
        let ps = s.players.remove(i);
        let g = if ps.len() == 0 {
            None
        } else {
            match s.game {
                Some(e) => Some(EngineView { queue: without_last(e.queue, p.name), ..e }),
                None => None,
            }
        };
        (
            ServerView { players: ps, game: g, accepting: s.accepting && !p.host, ..s },
            seq![(id, S2cView::Disconnect(reason))] + roster_msgs(ps),
        )
    }
}

/// A game starts on the turn order `order` with the hidden key `trigger`.
pub open spec fn start_spec(s: ServerView, order: Seq<Seq<char>>, trigger: char) -> (ServerView, Seq<(u64, S2cView)>) {
    let e = EngineView { queue: order, progress: Seq::empty(), fired: Seq::empty(), trigger };
    (ServerView { game: Some(e), ..s }, game_msgs(s.players, public_part(e)))
}

/// Whether session `id` holds the turn in the running game.
pub open spec fn holds_turn(s: ServerView, id: u64) -> bool {
    &&& has_id(s.players, id)
    &&& s.game is Some
    &&& s.game.unwrap().queue.len() > 0
    &&& s.game.unwrap().queue[0] == s.players[index_of(s.players, id)].name
}

/// A key press or release from `id`; ignored unless it is `id`'s turn. A
/// valid release is broadcast at once.
pub open spec fn key_spec(s: ServerView, id: u64, key: char, pressed: bool) -> (ServerView, Seq<(u64, S2cView)>) {
    if !holds_turn(s, id) {
        (s, Seq::empty())
    } else {
        let e = s.game.unwrap();
        if pressed {
            (ServerView { game: Some(EngineView { progress: press_spec(e.progress, key), ..e }), ..s }, Seq::empty())
        } else {
            let e2 = EngineView { progress: release_spec(e.progress, key), ..e };
            (ServerView { game: Some(e2), ..s }, game_msgs(s.players, public_part(e2)))
        }
    }
}

/// One tick of the running game. A fired trigger removes the player whose
/// turn it was with "you lost."; if one player is then left, they are
/// removed with "you won :)". Any change is broadcast to those remaining.
pub open spec fn tick_server_spec(s: ServerView) -> (ServerView, Seq<(u64, S2cView)>) {
    match s.game {
        None => (s, Seq::empty()),
        Some(e) => {
            let e2 = tick_spec(e).0;
            let s1 = ServerView { game: Some(e2), ..s };
            match tick_spec(e).1 {
                TickEvent::Quiet => (s, Seq::empty()),
                TickEvent::Fired { key, eliminated } => {
                    if eliminated {
                        let i = choose|i: int| first_named(s1.players, e2.queue.last(), i);
                        let r2 = remove_spec(s1, s1.players[i].id, reason_lost());
                        let s2 = r2.0;
                        let r3 = if s2.players.len() == 1 {
                            remove_spec(s2, s2.players[0].id, reason_won())
                        } else {
                            (s2, Seq::empty())
                        };
                        let s3 = r3.0;
                        let tail = match s3.game {
                            Some(g) => game_msgs(s3.players, public_part(g)),
                            None => Seq::empty(),
                        };
                        (s3, r2.1 + r3.1 + tail)
                    } else {
                        (s1, game_msgs(s.players, public_part(e2)))
                    }
                },
                TickEvent::Charged => (s1, game_msgs(s.players, public_part(e2))),
            }
        },
    }
}

impl Server {
    pub open spec fn wf(&self) -> bool {
        server_wf(self@)
    }

    /// A server that nobody has joined yet, admitting connections.
    pub fn new() -> (r: Server)
        ensures
            r@ == initial(),
            r.wf(),
    {
        let r = Server { players: Vec::new(), game: None, had_players: false, accepting: true };
        assert(r@.players =~= Seq::<SessionView>::empty());
        r
    }

    /// Whether new connections are still admitted (the host has not left).
    pub fn is_accepting(&self) -> (r: bool)
        ensures
            r == self@.accepting,
    {
        self.accepting
    }

    /// Whether the server is done: someone joined and the roster is empty again.
    pub fn is_finished(&self) -> (r: bool)
        ensures
            r == (self@.had_players && self@.players.len() == 0),
    {
        self.had_players && self.players.len() == 0
    }

    /// Whether a game is running.
    pub fn has_game(&self) -> (r: bool)
        ensures
            r == self@.game is Some,
    {
        self.game.is_some()
    }

    /// The snapshot clients would be sent of the running game.
    pub fn game_snapshot(&self) -> (r: Option<Game>)
        ensures
            match self@.game {
                Some(e) => r is Some && r.unwrap()@ == public_part(e),
                None => r is None,
            },
    {
        match &self.game {
            Some(e) => Some(e.snapshot()),
            None => None,
        }
    }

    fn find_id(&self, id: u64) -> (r: Option<usize>)
        ensures
            match r {
                Some(i) => i < self@.players.len() && self@.players[i as int].id == id,
                None => !has_id(self@.players, id),
            },
    {
        let mut i: usize = 0;
        while i < self.players.len()
            invariant
                i <= self@.players.len(),
                self@.players.len() == self.players@.len(),
                forall|j: int| 0 <= j < i ==> self@.players[j].id != id,
            decreases self.players.len() - i,
        {
            if self.players[i].id == id {
                assert(self@.players[i as int] == self.players@[i as int]@);
                return Some(i);
            }
            assert(self@.players[i as int] == self.players@[i as int]@);
            i = i + 1;
        }
        None
    }

    fn find_name(&self, name: &String) -> (r: Option<usize>)
        ensures
            match r {
                Some(i) => first_named(self@.players, name@, i as int),
                None => forall|j: int| 0 <= j < self@.players.len() ==> self@.players[j].name != name@,
            },
    {
        let mut i: usize = 0;
        while i < self.players.len()
            invariant
                i <= self@.players.len(),
                self@.players.len() == self.players@.len(),
                forall|j: int| 0 <= j < i ==> self@.players[j].name != name@,
            decreases self.players.len() - i,
        {
            assert(self@.players[i as int] == self.players@[i as int]@);
            if self.players[i].name == *name {
                return Some(i);
            }
            i = i + 1;
        }
        None
    }

    /// The roster's names, in join order.
    pub fn roster_names(&self) -> (r: Vec<String>)
        ensures
            names_view(r@) == roster(self@.players),
    {
        let mut r: Vec<String> = Vec::new();
        let mut i: usize = 0;
        while i < self.players.len()
            invariant
                i <= self@.players.len(),
                self@.players.len() == self.players@.len(),
                r@.len() == i,
                forall|j: int| 0 <= j < i ==> #[trigger] r@[j]@ == self@.players[j].name,
            decreases self.players.len() - i,
        {
            assert(self@.players[i as int] == self.players@[i as int]@);
            r.push(self.players[i].name.clone());
            i = i + 1;
        }
        assert(names_view(r@) =~= roster(self@.players));
        r
    }

    /// Sends every joined player the roster and their own host flag.
    fn sync_playerlist(&self, out: &mut Vec<Envelope>)
        ensures
            sent(final(out)@) == sent(old(out)@) + roster_msgs(self@.players),
    {
        let names = self.roster_names();
        let ghost o = sent(out@);
        let mut i: usize = 0;
        while i < self.players.len()
            invariant
                i <= self@.players.len(),
                self@.players.len() == self.players@.len(),
                names_view(names@) == roster(self@.players),
                sent(out@) == o + roster_msgs(self@.players).subrange(0, i as int),
            decreases self.players.len() - i,
        {
            assert(self@.players[i as int] == self.players@[i as int]@);
            let e = Envelope {
                to: self.players[i].id,
                packet: S2cPacket::SyncPlayerList(self.players[i].host, copy_names(&names)),
            };
            let ghost ev = e@;
            let ghost before = out@;
            assert(ev == roster_msgs(self@.players)[i as int]);
            out.push(e);
            assert(sent(out@) =~= sent(before).push(ev));
            i = i + 1;
            assert(sent(out@) =~= o + roster_msgs(self@.players).subrange(0, i as int));
        }
        assert(roster_msgs(self@.players).subrange(0, i as int) =~= roster_msgs(self@.players));
    }

    /// Sends every joined player the snapshot `g`.
    fn broadcast_game(&self, g: &Game, out: &mut Vec<Envelope>)
        ensures
            sent(final(out)@) == sent(old(out)@) + game_msgs(self@.players, g@),
    {
        let ghost o = sent(out@);
        let mut i: usize = 0;
        while i < self.players.len()
            invariant
                i <= self@.players.len(),
                self@.players.len() == self.players@.len(),
                sent(out@) == o + game_msgs(self@.players, g@).subrange(0, i as int),
            decreases self.players.len() - i,
        {
            assert(self@.players[i as int] == self.players@[i as int]@);
            let e = Envelope { to: self.players[i].id, packet: S2cPacket::SyncGame(g.snapshot()) };
            let ghost ev = e@;
            let ghost before = out@;
            assert(ev == game_msgs(self@.players, g@)[i as int]);
            out.push(e);
            assert(sent(out@) =~= sent(before).push(ev));
            i = i + 1;
            assert(sent(out@) =~= o + game_msgs(self@.players, g@).subrange(0, i as int));
        }
        assert(game_msgs(self@.players, g@).subrange(0, i as int) =~= game_msgs(self@.players, g@));
    }
}

impl Server {
    /// A connection joins with a name that has already been trimmed.
    pub fn join_trimmed(&mut self, id: u64, name: String, out: &mut Vec<Envelope>)
        requires
            old(self).wf(),
        ensures
            final(self).wf(),
            final(self)@ == join_spec(old(self)@, id, name@).0,
            sent(final(out)@) == sent(old(out)@) + join_spec(old(self)@, id, name@).1,
    {
        let ghost s0 = self@;
        if name.as_str().unicode_len() == 0 {
            let e = Envelope { to: id, packet: S2cPacket::Disconnect("username cannot be empty".to_owned()) };
            let ghost ev = e@;
            let ghost before = out@;
            out.push(e);
            assert(sent(out@) =~= sent(before) + seq![ev]);
            return;
        }
        if self.find_id(id).is_some() {
            assert(sent(out@) =~= sent(out@) + Seq::<(u64, S2cView)>::empty());
            return;
        }
        let host = !self.had_players;
        if let Some(e) = &mut self.game {
            e.add_player(name.clone());
        }
        let ghost sv = SessionView { id, name: name@, host };
        self.players.push(Session { id, name, host });
        self.had_players = true;
        proof {
            let ps = s0.players.push(sv);
            assert(self@.players =~= ps);
            assert(roster(ps) =~= roster(s0.players).push(sv.name));
            assert forall|a: int, b: int| 0 <= a < b < ps.len() implies ps[a].id != ps[b].id by {
                if b == s0.players.len() {
                    assert(s0.players[a].id == ps[a].id);
                }
            }
            match s0.game {
                Some(e) => {
                    assert(e.queue.push(sv.name).to_multiset() =~= e.queue.to_multiset().insert(sv.name));
                    assert(roster(ps).to_multiset() =~= roster(s0.players).to_multiset().insert(sv.name));
                },
                None => {},
            }
            assert(self@ =~= join_spec(s0, id, name@).0);
        }
        self.sync_playerlist(out);
    }

    /// Session `id` is removed for `reason`.
    pub fn remove_player(&mut self, id: u64, reason: &str, out: &mut Vec<Envelope>)
        requires
            old(self).wf(),
        ensures
            final(self).wf(),
            final(self)@ == remove_spec(old(self)@, id, reason@).0,
            sent(final(out)@) == sent(old(out)@) + remove_spec(old(self)@, id, reason@).1,
    {
        let ghost s0 = self@;
        let i = match self.find_id(id) {
            Some(i) => i,
            None => {
                assert(sent(out@) =~= sent(out@) + Seq::<(u64, S2cView)>::empty());
                return;
            },
        };
        proof {
            let c = index_of(s0.players, id);
            if c != i as int {
                if c < i { assert(s0.players[c].id != s0.players[i as int].id); }
                else { assert(s0.players[i as int].id != s0.players[c].id); }
            }
        }
        let e = Envelope { to: id, packet: S2cPacket::Disconnect(reason.to_owned()) };
        let ghost ev = e@;
        let ghost before = out@;
        out.push(e);
        assert(sent(out@) =~= sent(before).push(ev));
        let p = self.players.remove(i);
        let ghost ps = s0.players.remove(i as int);
        assert(self@.players =~= ps);
        if p.host {
            self.accepting = false;
        }
        if self.players.len() == 0 {
            self.game = None;
        } else if let Some(g) = &mut self.game {
            proof {
                let q = g@.queue;
                assert(roster(s0.players).to_multiset().count(p.name@) > 0) by {
                    assert(roster(s0.players)[i as int] == p.name@);
                    assert(roster(s0.players).contains(p.name@));
                }
                assert(q.contains(p.name@));
                lemma_without_last(q, p.name@);
                assert(roster(ps) =~= roster(s0.players).remove(i as int));
                assert(roster(ps).to_multiset() =~= roster(s0.players).to_multiset().remove(p.name@));
            }
            g.drop_player(&p.name);
        }
        proof {
            assert forall|a: int, b: int| 0 <= a < b < ps.len() implies ps[a].id != ps[b].id by {
                let a2 = if a < i { a } else { a + 1 };
                let b2 = if b < i { b } else { b + 1 };
                assert(ps[a] == s0.players[a2]);
                assert(ps[b] == s0.players[b2]);
            }
            assert forall|a: int| 0 <= a < ps.len() && #[trigger] ps[a].host implies a == 0 by {
                let a2 = if a < i { a } else { a + 1 };
                assert(ps[a] == s0.players[a2]);
            }
            if self.accepting && self.had_players {
                assert(s0.players[0].host);
                assert(i != 0);
                assert(ps[0] == s0.players[0]);
            }
            assert(self@ =~= remove_spec(s0, id, reason@).0);
        }
        self.sync_playerlist(out);
        assert(seq![ev] + roster_msgs(ps) =~= seq![ev].add(roster_msgs(ps)));
        assert(sent(out@) =~= sent(old(out)@) + remove_spec(s0, id, reason@).1);
    }
}

/// The name a player joins under: the name sent, without surrounding
/// whitespace.
pub uninterp spec fn trimmed(s: Seq<char>) -> Seq<char>;

/// Relies on `str::trim`: the name without leading and trailing whitespace,
/// which depends on the characters alone; an empty name stays empty.
#[verifier::external_body]
fn trim_name(s: &str) -> (r: String)
    ensures
        r@ == trimmed(s@),
        s@.len() == 0 ==> r@.len() == 0,
{
    s.trim().to_string()
}

impl Server {
    /// A connection joins with the name it sent.
    pub fn player_connect(&mut self, id: u64, name: &str, out: &mut Vec<Envelope>)
        requires
            old(self).wf(),
        ensures
            final(self).wf(),
            final(self)@ == join_spec(old(self)@, id, trimmed(name@)).0,
            sent(final(out)@) == sent(old(out)@) + join_spec(old(self)@, id, trimmed(name@)).1,
    {
        let n = trim_name(name);
        self.join_trimmed(id, n, out);
    }

    /// The connection of session `id` has closed or failed.
    pub fn player_disconnect(&mut self, id: u64, out: &mut Vec<Envelope>)
        requires
            old(self).wf(),
        ensures
            final(self).wf(),
            final(self)@ == remove_spec(old(self)@, id, reason_left()).0,
            sent(final(out)@) == sent(old(out)@) + remove_spec(old(self)@, id, reason_left()).1,
    {
        self.remove_player(id, "disconnected", out);
    }

    fn on_key(&mut self, id: u64, key: char, pressed: bool, out: &mut Vec<Envelope>)
        requires
            old(self).wf(),
        ensures
            final(self).wf(),
            final(self)@ == key_spec(old(self)@, id, key, pressed).0,
            sent(final(out)@) == sent(old(out)@) + key_spec(old(self)@, id, key, pressed).1,
    {
        let ghost s0 = self@;
        let i = match self.find_id(id) {
            Some(i) => i,
            None => {
                assert(sent(out@) =~= sent(out@) + Seq::<(u64, S2cView)>::empty());
                return;
            },
        };
        proof {
            let c = index_of(s0.players, id);
            if c != i as int {
                if c < i { assert(s0.players[c].id != s0.players[i as int].id); }
                else { assert(s0.players[i as int].id != s0.players[c].id); }
            }
            assert(s0.players[i as int] == self.players@[i as int]@);
        }
        let turn = match &self.game {
            Some(e) => e.queue_len() > 0 && *e.current() == self.players[i].name,
            None => false,
        };
        if !turn {
            assert(sent(out@) =~= sent(out@) + Seq::<(u64, S2cView)>::empty());
            return;
        }
        let mut snap: Option<Game> = None;
        if let Some(e) = &mut self.game {
            if pressed {
                e.press(key);
            } else {
                e.release(key);
                snap = Some(e.snapshot());
            }
        }
        assert(self@ =~= key_spec(s0, id, key, pressed).0);
        match snap {
            Some(g) => {
                self.broadcast_game(&g, out);
            },
            None => {
                assert(sent(out@) =~= sent(out@) + Seq::<(u64, S2cView)>::empty());
            },
        }
    }

    fn install_game(&mut self, e: Engine, out: &mut Vec<Envelope>)
        requires
            old(self).wf(),
            old(self)@.players.len() > 0,
            e.wf(),
            e@.queue.to_multiset() == roster(old(self)@.players).to_multiset(),
            e@.progress.len() == 0,
            e@.fired.len() == 0,
        ensures
            final(self).wf(),
            final(self)@ == start_spec(old(self)@, e@.queue, e@.trigger).0,
            sent(final(out)@) == sent(old(out)@) + start_spec(old(self)@, e@.queue, e@.trigger).1,
    {
        let g = e.snapshot();
        let ghost ev = e@;
        self.game = Some(e);
        assert(ev.progress =~= Seq::<(char, u8)>::empty());
        assert(ev.fired =~= Seq::<char>::empty());
        assert(self@ =~= start_spec(old(self)@, ev.queue, ev.trigger).0);
        self.broadcast_game(&g, out);
    }

    /// The host starts a game on the turn order `order` with the hidden key
    /// `trigger`.
    pub fn start_game(&mut self, order: Vec<String>, trigger: char, out: &mut Vec<Envelope>)
        requires
            old(self).wf(),
            old(self)@.players.len() > 0,
            names_view(order@).to_multiset() == roster(old(self)@.players).to_multiset(),
        ensures
            final(self).wf(),
            final(self)@ == start_spec(old(self)@, names_view(order@), trigger).0,
            sent(final(out)@) == sent(old(out)@) + start_spec(old(self)@, names_view(order@), trigger).1,
    {
        let e = Engine::with_parts(order, trigger);
        self.install_game(e, out);
    }

    /// Handles a message from session `id`. A start request from anyone but
    /// the host removes the sender; from the host it starts a game on the
    /// roster in a random order with a random letter as the hidden key.
    pub fn on_packet(&mut self, id: u64, pack: C2sPacket, out: &mut Vec<Envelope>)
        requires
            old(self).wf(),
        ensures
            final(self).wf(),
            match pack {
                C2sPacket::CreatePlayer(_) => final(self)@ == old(self)@ && sent(final(out)@) == sent(old(out)@),
                C2sPacket::KeyPress(k) => final(self)@ == key_spec(old(self)@, id, k, true).0
                    && sent(final(out)@) == sent(old(out)@) + key_spec(old(self)@, id, k, true).1,
                C2sPacket::KeyRelease(k) => final(self)@ == key_spec(old(self)@, id, k, false).0
                    && sent(final(out)@) == sent(old(out)@) + key_spec(old(self)@, id, k, false).1,
                C2sPacket::HostStartGame => if !has_id(old(self)@.players, id) {
                    final(self)@ == old(self)@ && sent(final(out)@) == sent(old(out)@)
                } else if !old(self)@.players[index_of(old(self)@.players, id)].host {
                    final(self)@ == remove_spec(old(self)@, id, reason_not_host()).0
                        && sent(final(out)@) == sent(old(out)@) + remove_spec(old(self)@, id, reason_not_host()).1
                } else {
                    exists|order: Seq<Seq<char>>, trigger: char|
                        order.to_multiset() == roster(old(self)@.players).to_multiset()
                        && is_letter(trigger)
                        && final(self)@ == #[trigger] start_spec(old(self)@, order, trigger).0
                        && sent(final(out)@) == sent(old(out)@) + start_spec(old(self)@, order, trigger).1
                },
            },
    {
        match pack {
            C2sPacket::CreatePlayer(_) => {},
            C2sPacket::KeyPress(k) => self.on_key(id, k, true, out),
            C2sPacket::KeyRelease(k) => self.on_key(id, k, false, out),
            C2sPacket::HostStartGame => {
                let ghost s0 = self@;
                match self.find_id(id) {
                    None => {},
                    Some(i) => {
                        proof {
                            let c = index_of(s0.players, id);
                            if c != i as int {
                                if c < i { assert(s0.players[c].id != s0.players[i as int].id); }
                                else { assert(s0.players[i as int].id != s0.players[c].id); }
                            }
                            assert(s0.players[i as int] == self.players@[i as int]@);
                        }
                        if !self.players[i].host {
                            self.remove_player(id, "attempted a host-only action while not host.", out);
                        } else {
                            let e = Engine::new(self.roster_names());
                            let ghost ev = e@;
                            self.install_game(e, out);
                            assert(ev.queue.to_multiset() == roster(s0.players).to_multiset());
                            assert(is_letter(ev.trigger));
                        }
                    },
                }
            },
        }
    }
}

impl Server {
    /// Advances the running game by one tick (the caller keeps the cadence).
    pub fn tick(&mut self, out: &mut Vec<Envelope>)
        requires
            old(self).wf(),
        ensures
            final(self).wf(),
            final(self)@ == tick_server_spec(old(self)@).0,
            sent(final(out)@) == sent(old(out)@) + tick_server_spec(old(self)@).1,
    {
        let ghost s0 = self@;
        let ghost o0 = sent(out@);
        let ev = match &mut self.game {
            Some(e) => e.tick(),
            None => {
                assert(sent(out@) =~= sent(out@) + Seq::<(u64, S2cView)>::empty());
                return;
            },
        };
        let ghost e0 = s0.game.unwrap();
        let ghost e2 = tick_spec(e0).0;
        let ghost s1 = ServerView { game: Some(e2), ..s0 };
        proof {
            assert(self@ =~= s1);
            lemma_rotate_keeps_players(e0.queue);
            assert(e2.queue.to_multiset() == e0.queue.to_multiset());
            assert(server_wf(s1));
        }
        match ev {
            TickEvent::Quiet => {
                assert(self@ =~= s0);
                assert(sent(out@) =~= sent(out@) + Seq::<(u64, S2cView)>::empty());
            },
            TickEvent::Charged => {
                let g = match &self.game {
                    Some(e) => e.snapshot(),
                    None => { return; },
                };
                self.broadcast_game(&g, out);
            },
            TickEvent::Fired { key, eliminated } => {
                if !eliminated {
                    let g = match &self.game {
                        Some(e) => e.snapshot(),
                        None => { return; },
                    };
                    self.broadcast_game(&g, out);
                } else {
                    proof {
                        assert(e2.queue.to_multiset().len() == roster(s1.players).to_multiset().len());
                        assert(e2.queue.len() > 0);
                    }
                    let loser: String = match &self.game {
                        Some(e) => e.last().clone(),
                        None => { return; },
                    };
                    let i = match self.find_name(&loser) {
                        Some(i) => i,
                        None => {
                            proof {
                                let n = e2.queue.last();
                                assert(e2.queue.contains(n)) by {
                                    assert(e2.queue[e2.queue.len() - 1] == n);
                                }
                                assert(e2.queue.to_multiset().count(n) > 0);
                                assert(roster(s1.players).to_multiset().count(n) > 0);
                                assert(roster(s1.players).contains(n));
                                let j = choose|j: int| 0 <= j < roster(s1.players).len() && roster(s1.players)[j] == n;
                                assert(s1.players[j].name == n);
                            }
                            return;
                        },
                    };
                    proof {
                        let n = e2.queue.last();
                        let c = choose|c: int| first_named(s1.players, n, c);
                        assert(first_named(s1.players, n, i as int));
                        if c < i { assert(s1.players[c].name != n); }
                        else if c > i { assert(s1.players[i as int].name != n); }
                        assert(c == i as int);
                        assert(s1.players[i as int] == self.players@[i as int]@);
                    }
                    let loser_id = self.players[i].id;
                    self.remove_player(loser_id, "you lost.", out);
                    let ghost s2 = self@;
                    let ghost o2 = sent(out@);
                    if self.players.len() == 1 {
                        assert(s2.players[0] == self.players@[0]@);
                        let winner = self.players[0].id;
                        self.remove_player(winner, "you won :)", out);
                    } else {
                        assert(sent(out@) =~= sent(out@) + Seq::<(u64, S2cView)>::empty());
                    }
                    let ghost o3 = sent(out@);
                    let snap = match &self.game {
                        Some(e) => Some(e.snapshot()),
                        None => None,
                    };
                    match snap {
                        Some(g) => self.broadcast_game(&g, out),
                        None => {
                            assert(sent(out@) =~= sent(out@) + Seq::<(u64, S2cView)>::empty());
                        },
                    }
                    proof {
                        let r = tick_server_spec(s0);
                        assert(self@ == r.0);
                        assert(sent(out@) =~= o0 + r.1);
                    }
                }
            },
        }
    }
}

/// The server after a sequence of joins, each an id and a trimmed name.
pub open spec fn joins(s: ServerView, js: Seq<(u64, Seq<char>)>) -> ServerView
    decreases js.len(),
{
    if js.len() == 0 {
        s
    } else {
        join_spec(joins(s, js.drop_last()), js.last().0, js.last().1).0
    }
}

proof fn lemma_join_keeps_wf(s: ServerView, id: u64, name: Seq<char>)
    requires
        server_wf(s),
    ensures
        server_wf(join_spec(s, id, name).0),
        join_spec(s, id, name).0.accepting == s.accepting,
{
    if name.len() > 0 && !has_id(s.players, id) {
        let sv = SessionView { id, name, host: !s.had_players };
        let ps = s.players.push(sv);
        assert(roster(ps) =~= roster(s.players).push(name));
        assert forall|a: int, b: int| 0 <= a < b < ps.len() implies ps[a].id != ps[b].id by {
            if b == s.players.len() {
                assert(s.players[a].id == ps[a].id);
            }
        }
        match s.game {
            Some(e) => {
                assert(e.queue.push(name).to_multiset() =~= e.queue.to_multiset().insert(name));
                assert(roster(ps).to_multiset() =~= roster(s.players).to_multiset().insert(name));
            },
            None => {},
        }
    }
}

/// `k` is the first join in `js` whose name is not empty.
pub open spec fn first_named_join(js: Seq<(u64, Seq<char>)>, k: int) -> bool {
    &&& 0 <= k < js.len()
    &&& js[k].1.len() > 0
    &&& forall|j: int| 0 <= j < k ==> #[trigger] js[j].1.len() == 0
}

/// However players join, with no one leaving, the roster has exactly one
/// host once anyone has joined: the first connection to join with a
/// non-empty name, which stands first in the roster.
pub proof fn law_single_host(js: Seq<(u64, Seq<char>)>)
    ensures
        server_wf(joins(initial(), js)),
        joins(initial(), js).accepting,
        joins(initial(), js).had_players == (joins(initial(), js).players.len() > 0),
        joins(initial(), js).players.len() > 0 ==> joins(initial(), js).players[0].host,
        forall|i: int| 1 <= i < joins(initial(), js).players.len() ==> !(#[trigger] joins(initial(), js).players[i]).host,
        forall|k: int| #[trigger] first_named_join(js, k) ==> joins(initial(), js).players.len() > 0
            && joins(initial(), js).players[0].id == js[k].0
            && joins(initial(), js).players[0].name == js[k].1,
        (forall|j: int| 0 <= j < js.len() ==> #[trigger] js[j].1.len() == 0) ==> joins(initial(), js).players.len() == 0,
    decreases js.len(),
{
    let s = joins(initial(), js);
    if js.len() > 0 {
        let pre = js.drop_last();
        let s0 = joins(initial(), pre);
        law_single_host(pre);
        lemma_join_keeps_wf(s0, js.last().0, js.last().1);
        if s0.players.len() > 0 {
            assert(s.players.len() > 0 && s.players[0] == s0.players[0]);
        }
        assert forall|k: int| #[trigger] first_named_join(js, k) implies s.players.len() > 0
            && s.players[0].id == js[k].0 && s.players[0].name == js[k].1 by {
            if k < pre.len() {
                assert(first_named_join(pre, k));
            } else {
                assert forall|j: int| 0 <= j < pre.len() implies #[trigger] pre[j].1.len() == 0 by {
                    assert(js[j].1.len() == 0);
                }
                assert(s0.players.len() == 0);
            }
        }
        if forall|j: int| 0 <= j < js.len() ==> #[trigger] js[j].1.len() == 0 {
            assert forall|j: int| 0 <= j < pre.len() implies #[trigger] pre[j].1.len() == 0 by {
                assert(js[j].1.len() == 0);
            }
            assert(js.last().1.len() == 0);
        }
    } else {
        assert(server_wf(initial()));
    }
    assert forall|i: int| 1 <= i < s.players.len() implies !(#[trigger] s.players[i]).host by {
        if s.players[i].host {
            assert(i == 0);
        }
    }
}

/// A name that is empty once trimmed never enters the roster: nothing
/// changes and the connection alone is told "username cannot be empty".
pub proof fn law_empty_name_rejected(s: ServerView, id: u64, name: Seq<char>)
    requires
        name.len() == 0,
    ensures
        join_spec(s, id, name).0 == s,
        join_spec(s, id, name).1 == seq![(id, S2cView::Disconnect(reason_empty_name()))],
{
}

/// Whenever a game runs, its turn queue holds exactly the joined players'
/// names, and passing the turn keeps that so.
pub proof fn law_queue_is_roster(s: ServerView)
    requires
        server_wf(s),
        s.game is Some,
    ensures
        s.game.unwrap().queue.to_multiset() == roster(s.players).to_multiset(),
        s.game.unwrap().queue.len() == s.players.len(),
        rotate(s.game.unwrap().queue).to_multiset() == roster(s.players).to_multiset(),
{
    let q = s.game.unwrap().queue;
    assert(q.to_multiset().len() == roster(s.players).to_multiset().len());
    lemma_rotate_keeps_players(q);
}

/// When the key that fires is the hidden trigger, the player whose turn it
/// was is told "you lost." and leaves the roster; when that leaves exactly
/// one player, that player is told "you won :)" and the roster is empty.
pub proof fn law_trigger_eliminates(s: ServerView)
    requires
        server_wf(s),
        s.game is Some,
        tick_spec(s.game.unwrap()).1 matches TickEvent::Fired { key, eliminated } && key == s.game.unwrap().trigger,
    ensures
        exists|i: int| first_named(s.players, s.game.unwrap().queue[0], i)
            && tick_server_spec(s).1[0] == (s.players[i].id, S2cView::Disconnect(reason_lost()))
            && !has_id(tick_server_spec(s).0.players, s.players[i].id),
        s.players.len() == 2 ==> tick_server_spec(s).0.players.len() == 0
            && tick_server_spec(s).1[2] == (tick_server_spec(s).1[1].0, S2cView::Disconnect(reason_won())),
{
    let e = s.game.unwrap();
    let e2 = tick_spec(e).0;
    let s1 = ServerView { game: Some(e2), ..s };
    law_queue_is_roster(s);
    let n = e.queue[0];
    assert(e2.queue == rotate(e.queue));
    assert(e2.queue.last() == n);
    assert(e.queue.contains(n)) by {
        assert(e.queue[0] == n);
    }
    assert(e.queue.to_multiset().count(n) > 0);
    assert(roster(s.players).contains(n));
    let j = choose|j: int| 0 <= j < roster(s.players).len() && roster(s.players)[j] == n;
    lemma_first_named_exists(s.players, n, j, 0);
    let i = choose|i: int| first_named(s1.players, e2.queue.last(), i);
    assert(first_named(s.players, n, i));
    let id = s.players[i].id;
    assert(has_id(s1.players, id));
    let c = index_of(s1.players, id);
    if c != i {
        if c < i { assert(s.players[c].id != s.players[i].id); }
        else { assert(s.players[i].id != s.players[c].id); }
    }
    let r2 = remove_spec(s1, id, reason_lost());
    let ps = s.players.remove(i);
    assert(r2.0.players == ps);
    assert(!has_id(ps, id)) by {
        if has_id(ps, id) {
            let a = choose|a: int| 0 <= a < ps.len() && ps[a].id == id;
            let a2 = if a < i { a } else { a + 1 };
            assert(ps[a] == s.players[a2]);
        }
    }
    let s2 = r2.0;
    let r3 = if s2.players.len() == 1 {
        remove_spec(s2, s2.players[0].id, reason_won())
    } else {
        (s2, Seq::empty())
    };
    assert(r2.1[0] == (id, S2cView::Disconnect(reason_lost())));
    if s2.players.len() == 1 {
        let w = s2.players[0].id;
        assert(has_id(s2.players, w));
        assert(index_of(s2.players, w) == 0);
        assert(r3.0.players.len() == 0);
        assert(!has_id(r3.0.players, id));
        assert(r2.1.len() == 2);
        assert(r3.1[0] == (w, S2cView::Disconnect(reason_won())));
        assert(r2.1[1].0 == w);
    } else {
        assert(s2 == r3.0);
    }
    assert(tick_server_spec(s).1[0] == (id, S2cView::Disconnect(reason_lost())));
}

proof fn lemma_first_named_exists(ps: Seq<SessionView>, n: Seq<char>, j: int, m: int)
    requires
        0 <= m <= j < ps.len(),
        ps[j].name == n,
        forall|k: int| 0 <= k < m ==> ps[k].name != n,
    ensures
        exists|i: int| first_named(ps, n, i),
    decreases j - m,
{
    if ps[m].name == n {
        assert(first_named(ps, n, m));
    } else {
        lemma_first_named_exists(ps, n, j, m + 1);
    }
}

/// The same server, with the running game's hidden key replaced by `t`.
pub open spec fn with_trigger(s: ServerView, t: char) -> ServerView {
    match s.game {
        Some(e) => ServerView { game: Some(EngineView { trigger: t, ..e }), ..s },
        None => s,
    }
}

/// No message reveals the hidden key: joins, removals, key presses and
/// releases, game starts, and ticks on which the key that fires (if any)
/// is neither trigger send the same messages whatever the trigger is.
pub proof fn law_messages_hide_trigger(
    s: ServerView,
    t: char,
    id: u64,
    name: Seq<char>,
    reason: Seq<char>,
    key: char,
    pressed: bool,
    order: Seq<Seq<char>>,
)
    ensures
        join_spec(s, id, name).1 == join_spec(with_trigger(s, t), id, name).1,
        remove_spec(s, id, reason).1 == remove_spec(with_trigger(s, t), id, reason).1,
        key_spec(s, id, key, pressed).1 == key_spec(with_trigger(s, t), id, key, pressed).1,
        start_spec(s, order, key).1 == start_spec(s, order, t).1,
        s.game is Some && !(tick_spec(s.game.unwrap()).1 matches TickEvent::Fired { key: k, eliminated }
            && (k == t || k == s.game.unwrap().trigger)) ==> tick_server_spec(s).1 == tick_server_spec(
            with_trigger(s, t),
        ).1,
{
    let s2 = with_trigger(s, t);
    assert(s2.players == s.players);
    if s.game is Some {
        let e = s.game.unwrap();
        let e2 = EngineView { trigger: t, ..e };
        assert(s2.game == Some(e2));
        law_snapshot_hides_trigger(e, t);
        if tick_spec(e).1 is Fired {
            assert(tick_spec(e2).1 is Fired);
        }
    }
}


} // verus!
