//! End-to-end scenarios driven through the public session interface:
//! registration, introduction, the hysteresis band, relaying and
//! timeout eviction.

use proximity_relay::messages::{ClientMessage, ServerMessage};
use proximity_relay::position::ClientPosition;
use proximity_relay::session::Session;
use proximity_relay::world::ServerState;
use tokio::sync::mpsc::Receiver;

fn pos(id: &str, map_id: i32, channel: i32, game_id: i32, x: i32, y: i32) -> ClientPosition {
    ClientPosition { client_id: id.to_string(), map_id, x, y, channel, game_id }
}

fn connect(state: &mut ServerState) -> (Session, Receiver<ServerMessage>) {
    let (tx, rx) = tokio::sync::mpsc::channel(100);
    let conn_id = state.register_connection(tx);
    (Session::new(conn_id), rx)
}

fn drain(rx: &mut Receiver<ServerMessage>) -> Vec<ServerMessage> {
    let mut out = Vec::new();
    while let Ok(m) = rx.try_recv() {
        out.push(m);
    }
    out
}

fn nearby_sets(msgs: &[ServerMessage]) -> Vec<Vec<String>> {
    msgs.iter()
        .filter_map(|m| match m {
            ServerMessage::NearbyPeers(v) => {
                let mut s = v.clone();
                s.sort();
                Some(s)
            }
            _ => None,
        })
        .collect()
}

fn deliver(state: &ServerState, targets: &[String]) {
    for t in targets {
        state.deliver_nearby_to(t);
    }
}

#[test]
fn registration_yields_empty_nearby_list() {
    let mut state = ServerState::new();
    let (mut sa, mut rxa) = connect(&mut state);
    let a = state.handle_message(
        &mut sa,
        ClientMessage::UpdatePosition(pos("A", 1, 0, 0, 0, 0)),
        0,
    );
    assert!(a.reply.is_none());
    assert!(!a.disconnect);
    // A fresh, alone client changes no nearby set, so the move path is
    // silent; the reintroduction pass supplies the empty list.
    assert!(a.notify.is_empty());
    let targets = state.reintroduce_all();
    assert_eq!(targets, vec!["A".to_string()]);
    let msgs = drain(&mut rxa);
    assert_eq!(nearby_sets(&msgs), vec![Vec::<String>::new()]);
}

#[test]
fn introduction_inside_radius_notifies_both() {
    let mut state = ServerState::new();
    let (mut sa, mut rxa) = connect(&mut state);
    let (mut sb, mut rxb) = connect(&mut state);
    state.handle_message(&mut sa, ClientMessage::UpdatePosition(pos("A", 1, 0, 0, 0, 0)), 0);
    let b = state.handle_message(
        &mut sb,
        ClientMessage::UpdatePosition(pos("B", 1, 0, 0, 10, 0)),
        0,
    );
    let mut notify = b.notify.clone();
    notify.sort();
    assert_eq!(notify, vec!["A".to_string(), "B".to_string()]);
    deliver(&state, &b.notify);
    assert_eq!(nearby_sets(&drain(&mut rxa)), vec![vec!["B".to_string()]]);
    assert_eq!(nearby_sets(&drain(&mut rxb)), vec![vec!["A".to_string()]]);
}

#[test]
fn hysteresis_band_holds_between_radii() {
    let mut state = ServerState::new();
    let (mut sa, mut rxa) = connect(&mut state);
    let (mut sb, mut rxb) = connect(&mut state);
    state.handle_message(&mut sa, ClientMessage::UpdatePosition(pos("A", 1, 0, 0, 0, 0)), 0);
    let b1 = state.handle_message(
        &mut sb,
        ClientMessage::UpdatePosition(pos("B", 1, 0, 0, 10, 0)),
        0,
    );
    deliver(&state, &b1.notify);
    drain(&mut rxa);
    drain(&mut rxb);
    // Distance squared 484 sits inside (400, 625]: both retain each
    // other and the move path emits nothing.
    let b2 = state.handle_message(
        &mut sb,
        ClientMessage::UpdatePosition(pos("B", 1, 0, 0, 22, 0)),
        0,
    );
    assert!(b2.notify.is_empty());
    let a = state.handle_message(&mut sa, ClientMessage::RequestPeerRefresh, 0);
    match a.reply {
        Some(ServerMessage::NearbyPeers(v)) => assert_eq!(v, vec!["B".to_string()]),
        _ => panic!("expected a nearby list"),
    }
    let b = state.handle_message(&mut sb, ClientMessage::RequestPeerRefresh, 0);
    match b.reply {
        Some(ServerMessage::NearbyPeers(v)) => assert_eq!(v, vec!["A".to_string()]),
        _ => panic!("expected a nearby list"),
    }
}

#[test]
fn crossing_disconnection_radius_drops_peer() {
    let mut state = ServerState::new();
    let (mut sa, mut rxa) = connect(&mut state);
    let (mut sb, mut rxb) = connect(&mut state);
    state.handle_message(&mut sa, ClientMessage::UpdatePosition(pos("A", 1, 0, 0, 0, 0)), 0);
    let b1 = state.handle_message(
        &mut sb,
        ClientMessage::UpdatePosition(pos("B", 1, 0, 0, 10, 0)),
        0,
    );
    deliver(&state, &b1.notify);
    drain(&mut rxa);
    drain(&mut rxb);
    // Distance squared 676 crosses the disconnection radius: B's set
    // empties on the move path, and A learns on the next
    // reintroduction tick.
    let b2 = state.handle_message(
        &mut sb,
        ClientMessage::UpdatePosition(pos("B", 1, 0, 0, 26, 0)),
        0,
    );
    assert_eq!(b2.notify, vec!["B".to_string()]);
    deliver(&state, &b2.notify);
    assert_eq!(nearby_sets(&drain(&mut rxb)), vec![Vec::<String>::new()]);
    state.reintroduce_all();
    let a_lists = nearby_sets(&drain(&mut rxa));
    assert_eq!(a_lists.last().unwrap(), &Vec::<String>::new());
}

#[test]
fn offer_is_relayed_to_target_only() {
    let mut state = ServerState::new();
    let (mut sa, mut rxa) = connect(&mut state);
    let (mut sb, mut rxb) = connect(&mut state);
    state.handle_message(&mut sa, ClientMessage::UpdatePosition(pos("A", 1, 0, 0, 0, 0)), 0);
    let b1 = state.handle_message(
        &mut sb,
        ClientMessage::UpdatePosition(pos("B", 1, 0, 0, 10, 0)),
        0,
    );
    deliver(&state, &b1.notify);
    drain(&mut rxa);
    drain(&mut rxb);
    let a = state.handle_message(
        &mut sa,
        ClientMessage::SendOffer { target_id: "B".to_string(), offer: "sdp-offer".to_string() },
        0,
    );
    assert!(a.reply.is_none());
    let b_msgs = drain(&mut rxb);
    assert_eq!(b_msgs.len(), 1);
    match &b_msgs[0] {
        ServerMessage::ReceiveOffer { sender_id, offer } => {
            assert_eq!(sender_id, "A");
            assert_eq!(offer, "sdp-offer");
        }
        _ => panic!("expected a relayed offer"),
    }
    assert!(drain(&mut rxa).is_empty());
}

#[test]
fn answer_and_candidate_are_relayed() {
    let mut state = ServerState::new();
    let (mut sa, _rxa) = connect(&mut state);
    let (mut sb, mut rxb) = connect(&mut state);
    state.handle_message(&mut sa, ClientMessage::UpdatePosition(pos("A", 1, 0, 0, 0, 0)), 0);
    state.handle_message(&mut sb, ClientMessage::UpdatePosition(pos("B", 1, 0, 0, 10, 0)), 0);
    drain(&mut rxb);
    let ans = state.handle_message(
        &mut sa,
        ClientMessage::SendAnswer { target_id: "B".to_string(), answer: "sdp-answer".to_string() },
        0,
    );
    assert!(ans.reply.is_none());
    let cand = state.handle_message(
        &mut sa,
        ClientMessage::SendIceCandidate {
            target_id: "B".to_string(),
            candidate: "cand".to_string(),
        },
        0,
    );
    assert!(cand.reply.is_none());
    let msgs = drain(&mut rxb);
    assert_eq!(msgs.len(), 2);
    match &msgs[0] {
        ServerMessage::ReceiveAnswer { sender_id, answer } => {
            assert_eq!(sender_id, "A");
            assert_eq!(answer, "sdp-answer");
        }
        _ => panic!("expected a relayed answer"),
    }
    match &msgs[1] {
        ServerMessage::ReceiveIceCandidate { sender_id, candidate } => {
            assert_eq!(sender_id, "A");
            assert_eq!(candidate, "cand");
        }
        _ => panic!("expected a relayed candidate"),
    }
}

#[test]
fn silent_client_is_evicted_and_peers_relearn() {
    let mut state = ServerState::new();
    let (mut sa, _rxa) = connect(&mut state);
    let (mut sb, mut rxb) = connect(&mut state);
    state.handle_message(&mut sa, ClientMessage::UpdatePosition(pos("A", 1, 0, 0, 0, 0)), 0);
    let b1 = state.handle_message(
        &mut sb,
        ClientMessage::UpdatePosition(pos("B", 1, 0, 0, 10, 0)),
        10_000,
    );
    deliver(&state, &b1.notify);
    drain(&mut rxb);
    // Sixteen seconds after A's last update the sweeper evicts A; B is
    // still fresh.
    let evicted = state.evict_timed_out(16_000);
    assert_eq!(evicted, vec!["A".to_string()]);
    let targets = state.reintroduce_all();
    assert_eq!(targets, vec!["B".to_string()]);
    let lists = nearby_sets(&drain(&mut rxb));
    assert_eq!(lists, vec![Vec::<String>::new()]);
    // A's connection went with it: relaying toward A now fails.
    let r = state.handle_message(
        &mut sb,
        ClientMessage::SendOffer { target_id: "A".to_string(), offer: "x".to_string() },
        16_000,
    );
    match r.reply {
        Some(ServerMessage::Error(_)) => {}
        _ => panic!("expected an error for the evicted target"),
    }
}

#[test]
fn disconnect_then_reconnect_reintroduces_like_fresh() {
    let mut state = ServerState::new();
    let (mut sa, _rxa) = connect(&mut state);
    let (mut sb, mut rxb) = connect(&mut state);
    state.handle_message(&mut sa, ClientMessage::UpdatePosition(pos("A", 1, 0, 0, 0, 0)), 0);
    let b1 = state.handle_message(
        &mut sb,
        ClientMessage::UpdatePosition(pos("B", 1, 0, 0, 10, 0)),
        0,
    );
    deliver(&state, &b1.notify);
    drain(&mut rxb);
    // A disconnects and its session is torn down.
    let d = state.handle_message(&mut sa, ClientMessage::Disconnect, 0);
    assert!(d.disconnect);
    state.cleanup_connection(&sa.conn_id.clone(), sa.registered.as_ref());
    // A reconnects at the same position: B is re-introduced exactly as
    // it would be to a client it had never seen.
    let (mut sa2, mut rxa2) = connect(&mut state);
    let a2 = state.handle_message(
        &mut sa2,
        ClientMessage::UpdatePosition(pos("A", 1, 0, 0, 0, 0)),
        0,
    );
    let mut notify = a2.notify.clone();
    notify.sort();
    assert_eq!(notify, vec!["A".to_string(), "B".to_string()]);
    deliver(&state, &a2.notify);
    assert_eq!(nearby_sets(&drain(&mut rxa2)), vec![vec!["B".to_string()]]);
    assert_eq!(nearby_sets(&drain(&mut rxb)), vec![vec!["A".to_string()]]);
}

#[test]
fn same_update_twice_notifies_once() {
    let mut state = ServerState::new();
    let (mut sa, _rxa) = connect(&mut state);
    let (mut sb, _rxb) = connect(&mut state);
    state.handle_message(&mut sa, ClientMessage::UpdatePosition(pos("A", 1, 0, 0, 0, 0)), 0);
    let first = state.handle_message(
        &mut sb,
        ClientMessage::UpdatePosition(pos("B", 1, 0, 0, 10, 0)),
        0,
    );
    assert!(!first.notify.is_empty());
    let second = state.handle_message(
        &mut sb,
        ClientMessage::UpdatePosition(pos("B", 1, 0, 0, 10, 0)),
        1,
    );
    assert!(second.notify.is_empty());
}

#[test]
fn re_registration_displaces_older_connection() {
    let mut state = ServerState::new();
    let (mut sa, _rxa) = connect(&mut state);
    let (mut sb, mut rxb) = connect(&mut state);
    state.handle_message(&mut sa, ClientMessage::UpdatePosition(pos("A", 1, 0, 0, 0, 0)), 0);
    let b1 = state.handle_message(
        &mut sb,
        ClientMessage::UpdatePosition(pos("B", 1, 0, 0, 10, 0)),
        0,
    );
    deliver(&state, &b1.notify);
    drain(&mut rxb);
    // The same client identifier arrives on a brand-new connection: the
    // old client-keyed state is reaped and peers re-introduce it.
    let (mut sa2, mut rxa2) = connect(&mut state);
    let a2 = state.handle_message(
        &mut sa2,
        ClientMessage::UpdatePosition(pos("A", 1, 0, 0, 0, 0)),
        5,
    );
    let mut notify = a2.notify.clone();
    notify.sort();
    assert_eq!(notify, vec!["A".to_string(), "B".to_string()]);
    deliver(&state, &a2.notify);
    assert_eq!(nearby_sets(&drain(&mut rxa2)), vec![vec!["B".to_string()]]);
    assert_eq!(nearby_sets(&drain(&mut rxb)), vec![vec!["A".to_string()]]);
    // The old connection's own teardown must not reap the new route.
    state.cleanup_connection(&sa.conn_id.clone(), sa.registered.as_ref());
    let again = state.handle_message(
        &mut sb,
        ClientMessage::SendOffer { target_id: "A".to_string(), offer: "x".to_string() },
        5,
    );
    assert!(again.reply.is_none());
    match drain(&mut rxa2).pop() {
        Some(ServerMessage::ReceiveOffer { sender_id, .. }) => assert_eq!(sender_id, "B"),
        _ => panic!("expected the offer on the new connection"),
    }
}
