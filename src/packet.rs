use vstd::prelude::*;

verus! {

/// What a client sees of a running game: whose turn it is and in which
/// order, the keys being charged and the keys already used up. The hidden
/// trigger key has no field here, so no client-bound value can carry it.
pub struct Game {
    pub queue: Vec<String>,
    pub progress: Vec<(char, u8)>,
    pub fired: Vec<char>,
}

pub struct GameView {
    pub queue: Seq<Seq<char>>,
    pub progress: Seq<(char, u8)>,
    pub fired: Seq<char>,
}

pub open spec fn names_view(v: Seq<String>) -> Seq<Seq<char>> {
    v.map_values(|s: String| s@)
}

impl View for Game {
    type V = GameView;

    open spec fn view(&self) -> GameView {
        GameView { queue: names_view(self.queue@), progress: self.progress@, fired: self.fired@ }
    }
}

/// Copies a list of names.
pub fn copy_names(v: &Vec<String>) -> (r: Vec<String>)
    ensures
        names_view(r@) == names_view(v@),
{
    let mut r: Vec<String> = Vec::new();
    let mut i: usize = 0;
    while i < v.len()
        invariant
            i <= v.len(),
            r@.len() == i,
            forall|j: int| 0 <= j < i ==> #[trigger] r@[j]@ == v@[j]@,
        decreases v.len() - i,
    {
        let s = v[i].clone();
        r.push(s);
        i = i + 1;
    }
    assert(names_view(r@) =~= names_view(v@));
    r
}

fn copy_progress(v: &Vec<(char, u8)>) -> (r: Vec<(char, u8)>)
    ensures
        r@ == v@,
{
    let mut r: Vec<(char, u8)> = Vec::new();
    let mut i: usize = 0;
    while i < v.len()
        invariant
            i <= v.len(),
            r@ == v@.subrange(0, i as int),
        decreases v.len() - i,
    {
        r.push(v[i]);
        i = i + 1;
        assert(r@ =~= v@.subrange(0, i as int));
    }
    assert(v@.subrange(0, v.len() as int) =~= v@);
    r
}

fn copy_chars(v: &Vec<char>) -> (r: Vec<char>)
    ensures
        r@ == v@,
{
    let mut r: Vec<char> = Vec::new();
    let mut i: usize = 0;
    while i < v.len()
        invariant
            i <= v.len(),
            r@ == v@.subrange(0, i as int),
        decreases v.len() - i,
    {
        r.push(v[i]);
        i = i + 1;
        assert(r@ =~= v@.subrange(0, i as int));
    }
    assert(v@.subrange(0, v.len() as int) =~= v@);
    r
}

impl Game {
    /// A full, independent copy of this snapshot.
    pub fn snapshot(&self) -> (r: Game)
        ensures
            r@ == self@,
    {
        Game {
            queue: copy_names(&self.queue),
            progress: copy_progress(&self.progress),
            fired: copy_chars(&self.fired),
        }
    }
}

/// A message from a client to the server.
pub enum C2sPacket {
    /// The first message of every connection: the player's name.
    CreatePlayer(String),
    /// The sender pressed a key.
    KeyPress(char),
    /// The sender released a key.
    KeyRelease(char),
    /// The host asks for the game to start.
    HostStartGame,
}

/// A message from the server to a client.
pub enum S2cPacket {
    /// The roster in join order, and whether the recipient is the host.
    SyncPlayerList(bool, Vec<String>),
    /// A full snapshot of the running game.
    SyncGame(Game),
    /// Ends the client process; the server never sends it.
    KillYourselfNow,
    /// The recipient has been removed, for the reason given.
    Disconnect(String),
}

pub enum S2cView {
    SyncPlayerList(bool, Seq<Seq<char>>),
    SyncGame(GameView),
    KillYourselfNow,
    Disconnect(Seq<char>),
}

impl View for S2cPacket {
    type V = S2cView;

    open spec fn view(&self) -> S2cView {
        match self {
            S2cPacket::SyncPlayerList(h, l) => S2cView::SyncPlayerList(*h, names_view(l@)),
            S2cPacket::SyncGame(g) => S2cView::SyncGame(g@),
            S2cPacket::KillYourselfNow => S2cView::KillYourselfNow,
            S2cPacket::Disconnect(r) => S2cView::Disconnect(r@),
        }
    }
}

impl S2cPacket {
    /// Whether the connection closes once this message has been sent.
    pub fn closes_connection(&self) -> (r: bool)
        ensures
            r == (self@ is Disconnect),
    {
        match self {
            S2cPacket::Disconnect(_) => true,
            _ => false,
        }
    }
}

/// The name a new connection joins with: only a create-player message may
/// open a connection; anything else, or a failed read, drops it.
pub fn handshake_name(first: Option<C2sPacket>) -> (r: Option<String>)
    ensures
        match first {
            Some(C2sPacket::CreatePlayer(n)) => r == Some(n),
            _ => r is None,
        },
{
    match first {
        Some(C2sPacket::CreatePlayer(n)) => Some(n),
        _ => None,
    }
}

} // verus!
