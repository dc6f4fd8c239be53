use vstd::prelude::*;
use crate::packet::{Game, GameView, names_view};
use rand::Rng;
use rand::seq::SliceRandom;

verus! {

/// Charge added to every held key on each tick.
pub const CHARGE_STEP: u8 = 15;

/// Charge at which a key fires.
pub const CHARGE_FULL: u8 = 255;

/// Number of distinct keys that can fire before the used-up set starts over.
pub const CYCLE_LEN: usize = 26;

/// The server's game: the public snapshot plus the hidden trigger key.
pub struct Engine {
    game: Game,
    trigger: char,
}

/// What one tick did.
pub enum TickEvent {
    /// No key was held; nothing changed.
    Quiet,
    /// Held keys were charged; none fired.
    Charged,
    /// `key` fired; `eliminated` tells whether it was the trigger.
    Fired { key: char, eliminated: bool },
}

pub struct EngineView {
    pub queue: Seq<Seq<char>>,
    pub progress: Seq<(char, u8)>,
    pub fired: Seq<char>,
    pub trigger: char,
}

impl View for Engine {
    type V = EngineView;

    closed spec fn view(&self) -> EngineView {
        EngineView {
            queue: self.game@.queue,
            progress: self.game@.progress,
            fired: self.game@.fired,
            trigger: self.trigger,
        }
    }
}

/// The part of the engine that clients may see.
pub open spec fn public_part(e: EngineView) -> GameView {
    GameView { queue: e.queue, progress: e.progress, fired: e.fired }
}

pub open spec fn is_letter(c: char) -> bool {
    'A' <= c <= 'Z'
}

pub open spec fn keys_distinct(p: Seq<(char, u8)>) -> bool {
    forall|i: int, j: int| 0 <= i < j < p.len() ==> p[i].0 != p[j].0
}

/// The engine's invariant: each key is charged at most once, every charge is
/// a whole number of steps below full, and the used-up set holds distinct
/// keys, fewer than the cycle length.
pub open spec fn engine_wf(e: EngineView) -> bool {
    &&& keys_distinct(e.progress)
    &&& forall|i: int|
        0 <= i < e.progress.len() ==> #[trigger] e.progress[i].1 % 15 == 0 && e.progress[i].1 < 255
    &&& e.fired.no_duplicates()
    &&& e.fired.len() < 26
}

/// The turn passes: the head of the queue goes to the back.
pub open spec fn rotate(q: Seq<Seq<char>>) -> Seq<Seq<char>> {
    if q.len() == 0 {
        q
    } else {
        q.drop_first().push(q[0])
    }
}

/// Every held key gains one step of charge.
pub open spec fn charged(p: Seq<(char, u8)>) -> Seq<(char, u8)> {
    p.map_values(|e: (char, u8)| (e.0, (e.1 + 15) as u8))
}

/// `i` is the earliest held key that is full after this tick's charge.
pub open spec fn first_full(p: Seq<(char, u8)>, i: int) -> bool {
    &&& 0 <= i < p.len()
    &&& p[i].1 + 15 == 255
    &&& forall|j: int| 0 <= j < i ==> #[trigger] p[j].1 + 15 != 255
}

/// The used-up set after `k` fires: `k` joins it, and a set that reaches
/// the cycle length starts over empty.
pub open spec fn fired_after(f: Seq<char>, k: char) -> Seq<char> {
    let g = if f.contains(k) { f } else { f.push(k) };
    if g.len() >= 26 { Seq::empty() } else { g }
}

pub open spec fn tick_spec(e: EngineView) -> (EngineView, TickEvent) {
    if e.progress.len() == 0 {
        (e, TickEvent::Quiet)
    } else if exists|i: int| first_full(e.progress, i) {
        let i = choose|i: int| first_full(e.progress, i);
        let k = e.progress[i].0;
        (
            EngineView {
                queue: rotate(e.queue),
                progress: Seq::empty(),
                fired: fired_after(e.fired, k),
                trigger: e.trigger,
            },
            TickEvent::Fired { key: k, eliminated: k == e.trigger },
        )
    } else {
        (EngineView { progress: charged(e.progress), ..e }, TickEvent::Charged)
    }
}

/// Pressing `k`: its charge starts (again) from zero.
pub open spec fn press_spec(p: Seq<(char, u8)>, k: char) -> Seq<(char, u8)> {
    if exists|i: int| 0 <= i < p.len() && p[i].0 == k {
        let i = choose|i: int| 0 <= i < p.len() && p[i].0 == k;
        p.update(i, (k, 0u8))
    } else {
        p.push((k, 0u8))
    }
}

/// Releasing `k`: its charge is dropped.
pub open spec fn release_spec(p: Seq<(char, u8)>, k: char) -> Seq<(char, u8)> {
    if exists|i: int| 0 <= i < p.len() && p[i].0 == k {
        let i = choose|i: int| 0 <= i < p.len() && p[i].0 == k;
        p.remove(i)
    } else {
        p
    }
}

/// Relies on rand's `SliceRandom::shuffle`, which only swaps elements: the
/// result holds the same names, in an order drawn at random.
#[verifier::external_body]
fn shuffle_names(v: Vec<String>) -> (r: Vec<String>)
    ensures
        names_view(r@).to_multiset() == names_view(v@).to_multiset(),
{
    let mut v = v;
    v.shuffle(&mut rand::thread_rng());
    v
}

/// Relies on rand's `Rng::gen_range` over the inclusive byte range `A..=Z`:
/// an upper-case ASCII letter drawn at random.
#[verifier::external_body]
fn random_letter() -> (r: char)
    ensures
        is_letter(r),
{
    rand::thread_rng().gen_range(b'A'..=b'Z') as char
}

fn find_key(p: &Vec<(char, u8)>, k: char) -> (r: Option<usize>)
    ensures
        match r {
            Some(i) => i < p@.len() && p@[i as int].0 == k,
            None => forall|i: int| 0 <= i < p@.len() ==> p@[i].0 != k,
        },
{
    let mut i: usize = 0;
    while i < p.len()
        invariant
            i <= p@.len(),
            forall|j: int| 0 <= j < i ==> p@[j].0 != k,
        decreases p.len() - i,
    {
        if p[i].0 == k {
            return Some(i);
        }
        i = i + 1;
    }
    None
}

impl Engine {
    pub open spec fn wf(&self) -> bool {
        engine_wf(self@)
    }

    /// Starts a game on the given turn order and trigger key.
    pub fn with_parts(queue: Vec<String>, trigger: char) -> (r: Engine)
        ensures
            r@ == (EngineView {
                queue: names_view(queue@),
                progress: Seq::empty(),
                fired: Seq::empty(),
                trigger,
            }),
            r.wf(),
    {
        Engine { game: Game { queue, progress: Vec::new(), fired: Vec::new() }, trigger }
    }

    /// Starts a game: the players in a random order and a random letter as
    /// the hidden trigger.
    pub fn new(players: Vec<String>) -> (r: Engine)
        ensures
            r@.queue.to_multiset() == names_view(players@).to_multiset(),
            r@.progress.len() == 0,
            r@.fired.len() == 0,
            is_letter(r@.trigger),
            r.wf(),
    {
        let queue = shuffle_names(players);
        let trigger = random_letter();
        Engine::with_parts(queue, trigger)
    }

    /// What clients may be sent of this game.
    pub fn snapshot(&self) -> (r: Game)
        ensures
            r@ == public_part(self@),
    {
        self.game.snapshot()
    }

    /// The player whose turn it is.
    pub fn current(&self) -> (r: &String)
        requires
            self@.queue.len() > 0,
        ensures
            r@ == self@.queue[0],
    {
        &self.game.queue[0]
    }

    /// The player whose turn has just passed (the back of the queue).
    pub fn last(&self) -> (r: &String)
        requires
            self@.queue.len() > 0,
        ensures
            r@ == self@.queue.last(),
    {
        &self.game.queue[self.game.queue.len() - 1]
    }
}

fn contains_char(v: &Vec<char>, c: char) -> (r: bool)
    ensures
        r == v@.contains(c),
{
    let mut i: usize = 0;
    while i < v.len()
        invariant
            i <= v@.len(),
            forall|j: int| 0 <= j < i ==> v@[j] != c,
        decreases v.len() - i,
    {
        if v[i] == c {
            assert(v@[i as int] == c);
            return true;
        }
        i = i + 1;
    }
    false
}

impl Engine {
    /// The player whose turn it is holds `key` down: its charge starts from zero.
    pub fn press(&mut self, key: char)
        requires
            old(self).wf(),
        ensures
            final(self).wf(),
            final(self)@ == (EngineView { progress: press_spec(old(self)@.progress, key), ..old(self)@ }),
    {
        let ghost p = self.game.progress@;
        match find_key(&self.game.progress, key) {
            Some(i) => {
                self.game.progress.set(i, (key, 0u8));
                proof {
                    let j = choose|j: int| 0 <= j < p.len() && p[j].0 == key;
                    assert(j == i as int);
                    assert(self.game.progress@ == p.update(i as int, (key, 0u8)));
                }
            }
            None => {
                self.game.progress.push((key, 0u8));
                assert(self.game.progress@ == p.push((key, 0u8)));
            }
        }
        assert(self@.progress == press_spec(p, key));
        assert(self@ =~= EngineView { progress: press_spec(old(self)@.progress, key), ..old(self)@ });
        assert(forall|i: int|
            0 <= i < self@.progress.len() ==> #[trigger] self@.progress[i].1 % 15 == 0
                && self@.progress[i].1 < 255);
    }

    /// The player whose turn it is lets `key` go: its charge is dropped.
    pub fn release(&mut self, key: char)
        requires
            old(self).wf(),
        ensures
            final(self).wf(),
            final(self)@ == (EngineView { progress: release_spec(old(self)@.progress, key), ..old(self)@ }),
    {
        let ghost p = self.game.progress@;
        match find_key(&self.game.progress, key) {
            Some(i) => {
                self.game.progress.remove(i);
                proof {
                    let j = choose|j: int| 0 <= j < p.len() && p[j].0 == key;
                    assert(j == i as int);
                    assert(self.game.progress@ == p.remove(i as int));
                    assert forall|a: int, b: int| 0 <= a < b < self@.progress.len() implies
                        self@.progress[a].0 != self@.progress[b].0 by {
                        let a2 = if a < i { a } else { a + 1 };
                        let b2 = if b < i { b } else { b + 1 };
                        assert(self@.progress[a] == p[a2]);
                        assert(self@.progress[b] == p[b2]);
                    }
                    assert forall|a: int| 0 <= a < self@.progress.len() implies
                        #[trigger] self@.progress[a].1 % 15 == 0 && self@.progress[a].1 < 255 by {
                        let a2 = if a < i { a } else { a + 1 };
                        assert(self@.progress[a] == p[a2]);
                    }
                }
            }
            None => {}
        }
        assert(self@ =~= EngineView { progress: release_spec(old(self)@.progress, key), ..old(self)@ });
    }

    /// Advances the game by one tick.
    pub fn tick(&mut self) -> (ev: TickEvent)
        requires
            old(self).wf(),
        ensures
            final(self).wf(),
            (final(self)@, ev) == tick_spec(old(self)@),
    {
        let ghost e = self@;
        let n = self.game.progress.len();
        if n == 0 {
            return TickEvent::Quiet;
        }
        let mut i: usize = 0;
        while i < n && self.game.progress[i].1 != CHARGE_FULL - CHARGE_STEP
            invariant
                n == self.game.progress@.len(),
                i <= n,
                self@ == e,
                forall|j: int| 0 <= j < i ==> #[trigger] e.progress[j].1 + 15 != 255,
            decreases n - i,
        {
            i = i + 1;
        }
        if i < n {
            let key = self.game.progress[i].0;
            proof {
                assert(first_full(e.progress, i as int));
                let c = choose|c: int| first_full(e.progress, c);
                if c < i {
                    assert(e.progress[c].1 + 15 != 255);
                } else if c > i {
                    assert(e.progress[i as int].1 + 15 != 255);
                }
                assert(c == i as int);
            }
            self.game.progress = Vec::new();
            if !contains_char(&self.game.fired, key) {
                let ghost f = self.game.fired@;
                self.game.fired.push(key);
                assert forall|a: int, b: int| 0 <= a < b < self.game.fired@.len() implies
                    self.game.fired@[a] != self.game.fired@[b] by {
                    if b == f.len() {
                        assert(f.contains(f[a]));
                    }
                }
            }
            if self.game.fired.len() >= CYCLE_LEN {
                self.game.fired = Vec::new();
            }
            if self.game.queue.len() > 0 {
                let ghost q = self.game.queue@;
                let first = self.game.queue.remove(0);
                self.game.queue.push(first);
                assert(names_view(self.game.queue@) =~= rotate(names_view(q)));
            }
            let ev = TickEvent::Fired { key, eliminated: key == self.trigger };
            assert(self@ =~= tick_spec(e).0);
            ev
        } else {
            let mut j: usize = 0;
            while j < n
                invariant
                    n == self.game.progress@.len(),
                    n == e.progress.len(),
                    j <= n,
                    self@.queue == e.queue,
                    self@.fired == e.fired,
                    self@.trigger == e.trigger,
                    forall|a: int| 0 <= a < n ==> #[trigger] e.progress[a].1 + 15 != 255,
                    forall|a: int| 0 <= a < j ==> #[trigger] self@.progress[a] == (e.progress[a].0, (e.progress[a].1 + 15) as u8),
                    forall|a: int| j <= a < n ==> #[trigger] self@.progress[a] == e.progress[a],
                    engine_wf(e),
                decreases n - j,
            {
                assert(self@.progress[j as int] == e.progress[j as int]);
                let (k, v) = self.game.progress[j];
                assert(e.progress[j as int].1 % 15 == 0 && e.progress[j as int].1 < 255);
                assert(e.progress[j as int].1 + 15 != 255);
                assert(v <= 225);
                self.game.progress.set(j, (k, v + CHARGE_STEP));
                j = j + 1;
            }
            assert(!exists|c: int| first_full(e.progress, c));
            assert(self@.progress =~= charged(e.progress));
            assert(self@ =~= tick_spec(e).0);
            assert forall|a: int, b: int| 0 <= a < b < self@.progress.len() implies
                self@.progress[a].0 != self@.progress[b].0 by {
                assert(self@.progress[a].0 == e.progress[a].0);
                assert(self@.progress[b].0 == e.progress[b].0);
            }
            assert forall|a: int| 0 <= a < self@.progress.len() implies
                #[trigger] self@.progress[a].1 % 15 == 0 && self@.progress[a].1 < 255 by {
                assert(self@.progress[a] == (e.progress[a].0, (e.progress[a].1 + 15) as u8));
                assert(e.progress[a].1 % 15 == 0 && e.progress[a].1 < 255);
            }
            TickEvent::Charged
        }
    }
}

/// `i` is the last place of `n` in `q`.
pub open spec fn last_at(q: Seq<Seq<char>>, n: Seq<char>, i: int) -> bool {
    &&& 0 <= i < q.len()
    &&& q[i] == n
    &&& forall|j: int| i < j < q.len() ==> q[j] != n
}

/// `q` without the last occurrence of `n` (unchanged if `n` is absent).
pub open spec fn without_last(q: Seq<Seq<char>>, n: Seq<char>) -> Seq<Seq<char>> {
    if exists|i: int| last_at(q, n, i) {
        q.remove(choose|i: int| last_at(q, n, i))
    } else {
        q
    }
}

pub proof fn lemma_without_last(q: Seq<Seq<char>>, n: Seq<char>)
    requires
        q.contains(n),
    ensures
        without_last(q, n).to_multiset() == q.to_multiset().remove(n),
        without_last(q, n).len() + 1 == q.len(),
{
    broadcast use vstd::seq_lib::group_to_multiset_ensures;

    let k = choose|k: int| 0 <= k < q.len() && q[k] == n;
    lemma_last_exists(q, n, k, q.len() - 1);
    let i = choose|i: int| last_at(q, n, i);
    assert(q.remove(i).to_multiset() =~= q.to_multiset().remove(q[i]));
}

proof fn lemma_last_exists(q: Seq<Seq<char>>, n: Seq<char>, k: int, m: int)
    requires
        0 <= k <= m < q.len(),
        q[k] == n,
        forall|j: int| m < j < q.len() ==> q[j] != n,
    ensures
        exists|i: int| last_at(q, n, i),
    decreases m - k,
{
    if q[m] == n {
        assert(last_at(q, n, m));
    } else {
        lemma_last_exists(q, n, k, m - 1);
    }
}

impl Engine {
    /// A player who joins while the game runs takes the last turn.
    pub fn add_player(&mut self, name: String)
        requires
            old(self).wf(),
        ensures
            final(self).wf(),
            final(self)@ == (EngineView { queue: old(self)@.queue.push(name@), ..old(self)@ }),
    {
        self.game.queue.push(name);
        assert(names_view(self.game.queue@) =~= old(self)@.queue.push(name@));
    }

    /// A player who leaves gives up their place in the queue.
    pub fn drop_player(&mut self, name: &String)
        requires
            old(self).wf(),
        ensures
            final(self).wf(),
            final(self)@ == (EngineView { queue: without_last(old(self)@.queue, name@), ..old(self)@ }),
    {
        let ghost q = self@.queue;
        let mut i: usize = self.game.queue.len();
        while i > 0
            invariant
                i <= q.len(),
                q == names_view(self.game.queue@),
                self@ == old(self)@,
                engine_wf(old(self)@),
                forall|j: int| i <= j < q.len() ==> q[j] != name@,
            decreases i,
        {
            if self.game.queue[i - 1] == *name {
                let k = i - 1;
                assert(last_at(q, name@, k as int));
                self.game.queue.remove(k);
                proof {
                    let c = choose|c: int| last_at(q, name@, c);
                    if c < k {
                        assert(q[k as int] != name@);
                    } else if c > k {
                        assert(q[c] != name@);
                    }
                    assert(names_view(self.game.queue@) =~= q.remove(k as int));
                }
                assert(self@ =~= EngineView { queue: without_last(old(self)@.queue, name@), ..old(self)@ });
                assert(self@.progress == old(self)@.progress);
                assert(self@.fired == old(self)@.fired);
                return;
            }
            i = i - 1;
        }
        assert(!exists|c: int| last_at(q, name@, c));
    }
}

/// Passing the turn keeps the same players.
pub proof fn lemma_rotate_keeps_players(q: Seq<Seq<char>>)
    ensures
        rotate(q).to_multiset() == q.to_multiset(),
        rotate(q).len() == q.len(),
{
    broadcast use vstd::seq_lib::group_to_multiset_ensures;

    if q.len() > 0 {
        assert(q.drop_first() =~= q.remove(0));
        assert(q.remove(0).push(q[0]).to_multiset() =~= q.to_multiset().remove(q[0]).insert(q[0]));
        assert(q.to_multiset().remove(q[0]).insert(q[0]) =~= q.to_multiset());
    }
}

impl Engine {
    /// How many players are in the turn queue.
    pub fn queue_len(&self) -> (r: usize)
        ensures
            r == self@.queue.len(),
    {
        self.game.queue.len()
    }
}

/// The engine after `n` ticks with no input in between.
pub open spec fn ticks(e: EngineView, n: nat) -> EngineView
    decreases n,
{
    if n == 0 {
        e
    } else {
        tick_spec(ticks(e, (n - 1) as nat)).0
    }
}

proof fn lemma_held_key_charging(e: EngineView, k: char, n: nat)
    requires
        e.progress == seq![(k, 0u8)],
        n <= 16,
    ensures
        ticks(e, n) == (EngineView { progress: seq![(k, (15 * n) as u8)], ..e }),
    decreases n,
{
    if n > 0 {
        lemma_held_key_charging(e, k, (n - 1) as nat);
        let prev = ticks(e, (n - 1) as nat);
        assert(prev.progress[0].1 == 15 * (n - 1));
        assert(!exists|i: int| first_full(prev.progress, i));
        assert(charged(prev.progress) =~= seq![(k, (15 * n) as u8)]);
    }
}

/// A key held down from the start of its turn, with nothing else happening,
/// gains exactly 15 per tick: after 16 ticks it stands at 15 times the number
/// of ticks, below 255, and the 17th tick brings it to exactly 255 and fires
/// it: the charges are cleared, the key joins the used-up set and the turn
/// passes.
pub proof fn law_held_key_fires_on_seventeenth_tick(e: EngineView, k: char)
    requires
        engine_wf(e),
        e.progress == seq![(k, 0u8)],
    ensures
        forall|n: nat| 1 <= n <= 16 ==> #[trigger] ticks(e, n).progress == seq![(k, (15 * n) as u8)]
            && ticks(e, n).progress[0].1 < 255,
        forall|n: nat| n < 16 ==> #[trigger] tick_spec(ticks(e, n)).1 == TickEvent::Charged,
        tick_spec(ticks(e, 16)).1 == (TickEvent::Fired { key: k, eliminated: k == e.trigger }),
        ticks(e, 16).progress[0].1 + 15 == 255,
        ticks(e, 17).progress.len() == 0,
        ticks(e, 17).fired == fired_after(e.fired, k),
        ticks(e, 17).queue == rotate(e.queue),
{
    assert forall|n: nat| 1 <= n <= 16 implies #[trigger] ticks(e, n).progress == seq![(k, (15 * n) as u8)]
        && ticks(e, n).progress[0].1 < 255 by {
        lemma_held_key_charging(e, k, n);
    }
    assert forall|n: nat| n < 16 implies #[trigger] tick_spec(ticks(e, n)).1 == TickEvent::Charged by {
        lemma_held_key_charging(e, k, n);
        assert(!exists|i: int| first_full(ticks(e, n).progress, i));
    }
    lemma_held_key_charging(e, k, 16);
    let last = ticks(e, 16);
    assert(first_full(last.progress, 0));
    assert(ticks(e, 17) == tick_spec(last).0);
}

/// What clients are sent of a game does not depend on the hidden trigger:
/// two games that differ only in their trigger look the same.
pub proof fn law_snapshot_hides_trigger(e: EngineView, t: char)
    ensures
        public_part(EngineView { trigger: t, ..e }) == public_part(e),
{
}

/// The used-up set is cleared exactly when it reaches the cycle length:
/// never before, and never does it grow past it.
pub proof fn law_fired_resets_at_cycle_length(f: Seq<char>, k: char)
    requires
        f.no_duplicates(),
        f.len() < 26,
    ensures
        (fired_after(f, k).len() == 0) <==> (!f.contains(k) && f.len() == 25),
        fired_after(f, k).len() > 0 ==> fired_after(f, k).contains(k)
            && fired_after(f, k).len() == f.len() + (if f.contains(k) { 0int } else { 1int }),
        fired_after(f, k).len() < 26,
{
    if !f.contains(k) {
        assert(f.push(k)[f.len() as int] == k);
    }
}

} // verus!
