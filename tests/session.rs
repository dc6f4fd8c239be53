use roulette::client::{ClientGameState, ClientPhase, LobbyState};
use roulette::engine::{Engine, TickEvent};
use roulette::packet::{handshake_name, C2sPacket, Game, S2cPacket};
use roulette::server::{Envelope, Server};

fn s(x: &str) -> String {
    x.to_string()
}

fn roster_updates(out: &[Envelope]) -> Vec<(u64, bool, Vec<String>)> {
    out.iter()
        .filter_map(|e| match &e.packet {
            S2cPacket::SyncPlayerList(h, l) => Some((e.to, *h, l.clone())),
            _ => None,
        })
        .collect()
}

fn disconnects(out: &[Envelope]) -> Vec<(u64, String)> {
    out.iter()
        .filter_map(|e| match &e.packet {
            S2cPacket::Disconnect(r) => Some((e.to, r.clone())),
            _ => None,
        })
        .collect()
}

fn games(out: &[Envelope]) -> Vec<(u64, &Game)> {
    out.iter()
        .filter_map(|e| match &e.packet {
            S2cPacket::SyncGame(g) => Some((e.to, g)),
            _ => None,
        })
        .collect()
}

fn three_players() -> Server {
    let mut srv = Server::new();
    let mut out = Vec::new();
    srv.player_connect(1, "A", &mut out);
    srv.player_connect(2, "B", &mut out);
    srv.player_connect(3, "C", &mut out);
    srv
}

fn sorted(mut v: Vec<String>) -> Vec<String> {
    v.sort();
    v
}

#[test]
fn three_players_join_and_host_starts() {
    let mut srv = Server::new();
    let mut out = Vec::new();
    srv.player_connect(1, "A", &mut out);
    srv.player_connect(2, "B", &mut out);
    out.clear();
    srv.player_connect(3, "C", &mut out);
    let abc = vec![s("A"), s("B"), s("C")];
    assert_eq!(
        roster_updates(&out),
        vec![(1, true, abc.clone()), (2, false, abc.clone()), (3, false, abc.clone())]
    );
    out.clear();
    srv.on_packet(1, C2sPacket::HostStartGame, &mut out);
    let g = games(&out);
    assert_eq!(g.len(), 3);
    assert_eq!(g.iter().map(|x| x.0).collect::<Vec<_>>(), vec![1, 2, 3]);
    for (_, game) in g {
        assert_eq!(sorted(game.queue.clone()), abc);
        assert!(game.progress.is_empty());
        assert!(game.fired.is_empty());
    }
    assert!(srv.has_game());
}

#[test]
fn first_named_join_is_the_only_host() {
    let mut srv = Server::new();
    let mut out = Vec::new();
    srv.player_connect(7, "   ", &mut out);
    srv.player_connect(8, " ann ", &mut out);
    out.clear();
    srv.player_connect(9, "bob", &mut out);
    let names = vec![s("ann"), s("bob")];
    assert_eq!(roster_updates(&out), vec![(8, true, names.clone()), (9, false, names)]);
}

#[test]
fn blank_name_is_turned_away() {
    let mut srv = Server::new();
    let mut out = Vec::new();
    srv.player_connect(4, " \t ", &mut out);
    assert_eq!(disconnects(&out), vec![(4, s("username cannot be empty"))]);
    assert!(roster_updates(&out).is_empty());
    assert!(srv.roster_names().is_empty());
    assert!(!srv.is_finished());
}

#[test]
fn non_host_cannot_start() {
    let mut srv = three_players();
    let mut out = Vec::new();
    srv.on_packet(2, C2sPacket::HostStartGame, &mut out);
    assert_eq!(disconnects(&out), vec![(2, s("attempted a host-only action while not host."))]);
    assert_eq!(srv.roster_names(), vec![s("A"), s("C")]);
    assert!(!srv.has_game());
    assert!(games(&out).is_empty());
}

#[test]
fn held_key_fires_after_seventeen_ticks() {
    let mut srv = three_players();
    let mut out = Vec::new();
    srv.start_game(vec![s("A"), s("B"), s("C")], 'Z', &mut out);
    srv.on_packet(1, C2sPacket::KeyPress('Q'), &mut out);
    for n in 1..=16u32 {
        out.clear();
        srv.tick(&mut out);
        let g = games(&out);
        assert_eq!(g.len(), 3);
        assert_eq!(g[0].1.progress, vec![('Q', (15 * n) as u8)]);
    }
    out.clear();
    srv.tick(&mut out);
    let g = games(&out);
    assert_eq!(g.len(), 3);
    assert!(g[0].1.progress.is_empty());
    assert_eq!(g[0].1.fired, vec!['Q']);
    assert_eq!(g[0].1.queue, vec![s("B"), s("C"), s("A")]);
    assert!(disconnects(&out).is_empty());
}

#[test]
fn trigger_eliminates_turn_holder() {
    let mut srv = three_players();
    let mut out = Vec::new();
    srv.start_game(vec![s("B"), s("A"), s("C")], 'Q', &mut out);
    srv.on_packet(2, C2sPacket::KeyPress('Q'), &mut out);
    for _ in 0..17 {
        out.clear();
        srv.tick(&mut out);
    }
    assert_eq!(disconnects(&out), vec![(2, s("you lost."))]);
    assert_eq!(srv.roster_names(), vec![s("A"), s("C")]);
    let snap = srv.game_snapshot().unwrap();
    assert_eq!(snap.queue, vec![s("A"), s("C")]);
    assert_eq!(snap.fired, vec!['Q']);
}

#[test]
fn last_player_standing_wins() {
    let mut srv = Server::new();
    let mut out = Vec::new();
    srv.player_connect(1, "A", &mut out);
    srv.player_connect(2, "B", &mut out);
    srv.start_game(vec![s("A"), s("B")], 'K', &mut out);
    srv.on_packet(1, C2sPacket::KeyPress('K'), &mut out);
    for _ in 0..17 {
        out.clear();
        srv.tick(&mut out);
    }
    assert_eq!(disconnects(&out), vec![(1, s("you lost.")), (2, s("you won :)"))]);
    assert!(srv.roster_names().is_empty());
    assert!(!srv.has_game());
    assert!(srv.is_finished());
}

#[test]
fn out_of_turn_keys_are_ignored() {
    let mut srv = three_players();
    let mut out = Vec::new();
    srv.start_game(vec![s("A"), s("B"), s("C")], 'Z', &mut out);
    out.clear();
    srv.on_packet(2, C2sPacket::KeyPress('W'), &mut out);
    srv.on_packet(2, C2sPacket::KeyRelease('W'), &mut out);
    assert!(out.is_empty());
    srv.tick(&mut out);
    assert!(out.is_empty());
    assert!(srv.game_snapshot().unwrap().progress.is_empty());
}

#[test]
fn release_is_broadcast_at_once() {
    let mut srv = three_players();
    let mut out = Vec::new();
    srv.start_game(vec![s("C"), s("A"), s("B")], 'Z', &mut out);
    srv.on_packet(3, C2sPacket::KeyPress('E'), &mut out);
    srv.on_packet(3, C2sPacket::KeyPress('R'), &mut out);
    out.clear();
    srv.tick(&mut out);
    assert_eq!(games(&out)[0].1.progress, vec![('E', 15), ('R', 15)]);
    out.clear();
    srv.on_packet(3, C2sPacket::KeyRelease('E'), &mut out);
    let g = games(&out);
    assert_eq!(g.len(), 3);
    assert_eq!(g[0].1.progress, vec![('R', 15)]);
}

#[test]
fn host_leaving_stops_admission() {
    let mut srv = three_players();
    let mut out = Vec::new();
    srv.start_game(vec![s("A"), s("B"), s("C")], 'Z', &mut out);
    assert!(srv.is_accepting());
    out.clear();
    srv.player_disconnect(1, &mut out);
    assert_eq!(disconnects(&out), vec![(1, s("disconnected"))]);
    assert!(!srv.is_accepting());
    assert!(srv.has_game());
    assert_eq!(srv.game_snapshot().unwrap().queue, vec![s("B"), s("C")]);
    srv.on_packet(2, C2sPacket::KeyPress('P'), &mut out);
    out.clear();
    srv.tick(&mut out);
    assert_eq!(games(&out).len(), 2);
    srv.player_disconnect(2, &mut out);
    assert!(!srv.is_finished());
    srv.player_disconnect(3, &mut out);
    assert!(srv.is_finished());
    assert!(!srv.has_game());
}

#[test]
fn guest_leaving_keeps_admission() {
    let mut srv = three_players();
    let mut out = Vec::new();
    srv.player_disconnect(2, &mut out);
    assert!(srv.is_accepting());
    let ac = vec![s("A"), s("C")];
    assert_eq!(roster_updates(&out), vec![(1, true, ac.clone()), (3, false, ac)]);
}

#[test]
fn late_joiner_takes_last_turn() {
    let mut srv = three_players();
    let mut out = Vec::new();
    srv.start_game(vec![s("B"), s("C"), s("A")], 'Z', &mut out);
    srv.player_connect(4, "D", &mut out);
    assert_eq!(srv.game_snapshot().unwrap().queue, vec![s("B"), s("C"), s("A"), s("D")]);
}

#[test]
fn used_keys_start_over_after_twenty_six() {
    let mut e = Engine::with_parts(vec![s("A")], '#');
    let letters: Vec<char> = ('A'..='Z').collect();
    for (i, k) in letters.iter().enumerate() {
        e.press(*k);
        let mut last = TickEvent::Quiet;
        for _ in 0..17 {
            last = e.tick();
        }
        assert!(matches!(last, TickEvent::Fired { key, eliminated: false } if key == *k));
        let fired = e.snapshot().fired;
        if i < 25 {
            assert_eq!(fired.len(), i + 1);
        } else {
            assert!(fired.is_empty());
        }
    }
}

#[test]
fn engine_tick_without_keys_is_quiet() {
    let mut e = Engine::with_parts(vec![s("A"), s("B")], 'X');
    assert!(matches!(e.tick(), TickEvent::Quiet));
    e.press('X');
    assert!(matches!(e.tick(), TickEvent::Charged));
    e.press('X');
    assert_eq!(e.snapshot().progress, vec![('X', 0)]);
    e.release('X');
    assert!(e.snapshot().progress.is_empty());
}

#[test]
fn random_game_uses_the_roster() {
    let e = Engine::new(vec![s("A"), s("B"), s("C")]);
    let g = e.snapshot();
    assert_eq!(sorted(g.queue), vec![s("A"), s("B"), s("C")]);
    assert!(g.progress.is_empty());
    assert!(g.fired.is_empty());
}

#[test]
fn handshake_needs_create_player() {
    assert_eq!(handshake_name(Some(C2sPacket::CreatePlayer(s("x")))), Some(s("x")));
    assert_eq!(handshake_name(Some(C2sPacket::HostStartGame)), None);
    assert_eq!(handshake_name(None), None);
}

#[test]
fn client_moves_through_phases() {
    let lobby = LobbyState::new(s("me"));
    assert!(matches!(lobby.join_packet(), C2sPacket::CreatePlayer(n) if n == "me"));
    let phase = ClientPhase::Lobby(lobby)
        .handle_packet(S2cPacket::SyncPlayerList(true, vec![s("me"), s("you")]));
    let phase = match phase {
        ClientPhase::Lobby(l) => {
            assert!(l.host);
            assert_eq!(l.players, vec![s("me"), s("you")]);
            ClientPhase::Lobby(l).handle_packet(S2cPacket::KillYourselfNow)
        }
        _ => panic!("expected lobby"),
    };
    let game = Game { queue: vec![s("me"), s("you")], progress: vec![], fired: vec![] };
    let phase = phase.handle_packet(S2cPacket::SyncGame(game));
    let phase = match phase {
        ClientPhase::InGame(g) => {
            assert!(g.is_my_turn());
            assert!(g.host);
            ClientPhase::InGame(g).handle_packet(S2cPacket::Disconnect(s("you lost.")))
        }
        _ => panic!("expected game"),
    };
    match phase {
        ClientPhase::Kicked(k) => {
            assert_eq!(k.message, "you lost.");
            assert!(matches!(ClientPhase::Kicked(k).handle_packet(S2cPacket::KillYourselfNow), ClientPhase::Kicked(_)));
        }
        _ => panic!("expected kicked"),
    }
}

#[test]
fn game_ends_process_on_terminate_order() {
    let g = ClientGameState {
        username: s("me"),
        players: vec![s("me")],
        host: false,
        game: Game { queue: vec![s("you"), s("me")], progress: vec![], fired: vec![] },
    };
    assert!(!g.is_my_turn());
    assert!(matches!(g.handle_packet(S2cPacket::KillYourselfNow), ClientPhase::Terminate));
    assert!(S2cPacket::Disconnect(s("x")).closes_connection());
    assert!(!S2cPacket::KillYourselfNow.closes_connection());
}

#[test]
fn snapshots_do_not_depend_on_trigger() {
    let mut a = Engine::with_parts(vec![s("A"), s("B")], 'Q');
    let mut b = Engine::with_parts(vec![s("A"), s("B")], 'W');
    for e in [&mut a, &mut b] {
        e.press('E');
        e.tick();
    }
    let (ga, gb) = (a.snapshot(), b.snapshot());
    assert_eq!(ga.queue, gb.queue);
    assert_eq!(ga.progress, gb.progress);
    assert_eq!(ga.fired, gb.fired);
}
