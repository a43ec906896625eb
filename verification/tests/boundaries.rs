//! Boundary behaviour of the hysteresis predicate, the protocol-order
//! and relay error paths, and the trusted identifier minting.

use proximity_relay::messages::{ClientMessage, ServerMessage};
use proximity_relay::position::{ClientPosition, distance_squared};
use proximity_relay::session::Session;
use proximity_relay::world::ServerState;
use proximity_relay::{
    DISCONNECTION_RADIUS_SQUARED, INTRODUCTION_RADIUS_SQUARED, OUTBOUND_QUEUE_CAPACITY,
    SWEEP_INTERVAL_MS, TIMEOUT_MS,
};
use tokio::sync::mpsc::Receiver;

fn pos(id: &str, map_id: i32, channel: i32, game_id: i32, x: i32, y: i32) -> ClientPosition {
    ClientPosition { client_id: id.to_string(), map_id, x, y, channel, game_id }
}

fn connect(state: &mut ServerState) -> (Session, Receiver<ServerMessage>) {
    let (tx, rx) = tokio::sync::mpsc::channel(100);
    let conn_id = state.register_connection(tx);
    (Session::new(conn_id), rx)
}

fn nearby_of(state: &ServerState, p: &ClientPosition) -> Vec<String> {
    let mut v = state.get_nearby_clients_with_hysteresis(p);
    v.sort();
    v
}

#[test]
fn constants_match_the_design() {
    assert_eq!(INTRODUCTION_RADIUS_SQUARED, 400);
    assert_eq!(DISCONNECTION_RADIUS_SQUARED, 625);
    assert_eq!(TIMEOUT_MS, 15_000);
    assert_eq!(SWEEP_INTERVAL_MS, 5_000);
    assert_eq!(OUTBOUND_QUEUE_CAPACITY, 100);
}

#[test]
fn distance_squared_is_exact() {
    let a = pos("A", 1, 0, 0, 0, 0);
    let b = pos("B", 1, 0, 0, 3, 4);
    assert_eq!(distance_squared(&a, &b), 25);
    let far_a = pos("A", 1, 0, 0, i32::MIN, i32::MIN);
    let far_b = pos("B", 1, 0, 0, i32::MAX, i32::MAX);
    let d = (i32::MAX as i128 - i32::MIN as i128) * (i32::MAX as i128 - i32::MIN as i128);
    assert_eq!(distance_squared(&far_a, &far_b), 2 * d);
}

#[test]
fn introduction_boundary_is_inclusive_at_twenty() {
    let mut state = ServerState::new();
    let (mut sa, _rxa) = connect(&mut state);
    let (mut sb, _rxb) = connect(&mut state);
    state.handle_message(&mut sa, ClientMessage::UpdatePosition(pos("A", 1, 0, 0, 0, 0)), 0);
    state.handle_message(&mut sb, ClientMessage::UpdatePosition(pos("B", 1, 0, 0, 20, 0)), 0);
    // Squared distance 400: exactly on the introduction radius.
    assert_eq!(nearby_of(&state, &pos("A", 1, 0, 0, 0, 0)), vec!["B".to_string()]);
    // One tile further: squared distance 441 introduces nobody.
    let mut state2 = ServerState::new();
    let (mut sc, _rxc) = connect(&mut state2);
    let (mut sd, _rxd) = connect(&mut state2);
    state2.handle_message(&mut sc, ClientMessage::UpdatePosition(pos("A", 1, 0, 0, 0, 0)), 0);
    state2.handle_message(&mut sd, ClientMessage::UpdatePosition(pos("B", 1, 0, 0, 21, 0)), 0);
    assert!(nearby_of(&state2, &pos("A", 1, 0, 0, 0, 0)).is_empty());
}

#[test]
fn disconnection_boundary_is_inclusive_at_twenty_five() {
    let mut state = ServerState::new();
    let (mut sa, _rxa) = connect(&mut state);
    let (mut sb, _rxb) = connect(&mut state);
    state.handle_message(&mut sa, ClientMessage::UpdatePosition(pos("A", 1, 0, 0, 0, 0)), 0);
    state.handle_message(&mut sb, ClientMessage::UpdatePosition(pos("B", 1, 0, 0, 10, 0)), 0);
    // Cached peers hold at squared distance 625 and drop past it.
    let held = state.handle_message(
        &mut sb,
        ClientMessage::UpdatePosition(pos("B", 1, 0, 0, 25, 0)),
        0,
    );
    assert!(held.notify.is_empty());
    assert_eq!(nearby_of(&state, &pos("B", 1, 0, 0, 25, 0)), vec!["A".to_string()]);
    let dropped = state.handle_message(
        &mut sb,
        ClientMessage::UpdatePosition(pos("B", 1, 0, 0, 26, 0)),
        0,
    );
    assert_eq!(dropped.notify, vec!["B".to_string()]);
    assert!(nearby_of(&state, &pos("B", 1, 0, 0, 26, 0)).is_empty());
}

#[test]
fn filters_short_circuit_before_distance() {
    let mut state = ServerState::new();
    let (mut sa, _rxa) = connect(&mut state);
    let (mut sb, _rxb) = connect(&mut state);
    let (mut sc, _rxc) = connect(&mut state);
    let (mut sd, _rxd) = connect(&mut state);
    state.handle_message(&mut sa, ClientMessage::UpdatePosition(pos("A", 1, 0, 0, 0, 0)), 0);
    // Same tile, different channel, map or cohort: never nearby.
    state.handle_message(&mut sb, ClientMessage::UpdatePosition(pos("B", 1, 1, 0, 0, 0)), 0);
    state.handle_message(&mut sc, ClientMessage::UpdatePosition(pos("C", 2, 0, 0, 0, 0)), 0);
    state.handle_message(&mut sd, ClientMessage::UpdatePosition(pos("D", 1, 0, 7, 0, 0)), 0);
    assert!(nearby_of(&state, &pos("A", 1, 0, 0, 0, 0)).is_empty());
}

#[test]
fn messages_before_registration_draw_protocol_errors() {
    let mut state = ServerState::new();
    let (mut sa, _rxa) = connect(&mut state);
    for msg in [
        ClientMessage::RequestPeerRefresh,
        ClientMessage::SendOffer { target_id: "B".to_string(), offer: "x".to_string() },
        ClientMessage::SendAnswer { target_id: "B".to_string(), answer: "x".to_string() },
        ClientMessage::SendIceCandidate { target_id: "B".to_string(), candidate: "x".to_string() },
        ClientMessage::Disconnect,
    ] {
        let a = state.handle_message(&mut sa, msg, 0);
        match a.reply {
            Some(ServerMessage::Error(e)) => {
                assert_eq!(e, "Client must send UpdatePosition first.")
            }
            _ => panic!("expected a protocol error"),
        }
        assert!(!a.disconnect);
        assert!(a.notify.is_empty());
    }
    assert!(sa.registered.is_none());
}

#[test]
fn unknown_relay_target_errors_for_offers_only() {
    let mut state = ServerState::new();
    let (mut sa, _rxa) = connect(&mut state);
    state.handle_message(&mut sa, ClientMessage::UpdatePosition(pos("A", 1, 0, 0, 0, 0)), 0);
    let offer = state.handle_message(
        &mut sa,
        ClientMessage::SendOffer { target_id: "ghost".to_string(), offer: "x".to_string() },
        0,
    );
    match offer.reply {
        Some(ServerMessage::Error(e)) => assert_eq!(e, "Client ghost not found"),
        _ => panic!("expected an error for the unknown offer target"),
    }
    let answer = state.handle_message(
        &mut sa,
        ClientMessage::SendAnswer { target_id: "ghost".to_string(), answer: "x".to_string() },
        0,
    );
    assert!(matches!(answer.reply, Some(ServerMessage::Error(_))));
    // Candidates are best-effort: an unknown target is dropped silently.
    let cand = state.handle_message(
        &mut sa,
        ClientMessage::SendIceCandidate { target_id: "ghost".to_string(), candidate: "x".to_string() },
        0,
    );
    assert!(cand.reply.is_none());
}

#[test]
fn full_sink_errors_for_offers_and_not_candidates() {
    let mut state = ServerState::new();
    let (mut sa, _rxa) = connect(&mut state);
    // B's outbound queue holds a single message and nobody drains it.
    let (txb, _rxb) = tokio::sync::mpsc::channel(1);
    let conn_b = state.register_connection(txb);
    let mut sb = Session::new(conn_b);
    state.handle_message(&mut sa, ClientMessage::UpdatePosition(pos("A", 1, 0, 0, 0, 0)), 0);
    state.handle_message(&mut sb, ClientMessage::UpdatePosition(pos("B", 1, 0, 0, 200, 0)), 0);
    let first = state.handle_message(
        &mut sa,
        ClientMessage::SendOffer { target_id: "B".to_string(), offer: "x".to_string() },
        0,
    );
    assert!(first.reply.is_none());
    let second = state.handle_message(
        &mut sa,
        ClientMessage::SendOffer { target_id: "B".to_string(), offer: "y".to_string() },
        0,
    );
    match second.reply {
        Some(ServerMessage::Error(e)) => assert_eq!(e, "Failed to relay to B"),
        _ => panic!("expected an error for the full sink"),
    }
    let cand = state.handle_message(
        &mut sa,
        ClientMessage::SendIceCandidate { target_id: "B".to_string(), candidate: "z".to_string() },
        0,
    );
    assert!(cand.reply.is_none());
}

#[test]
fn mismatched_identifier_updates_are_ignored() {
    let mut state = ServerState::new();
    let (mut sa, _rxa) = connect(&mut state);
    state.handle_message(&mut sa, ClientMessage::UpdatePosition(pos("A", 1, 0, 0, 0, 0)), 0);
    let other = state.handle_message(
        &mut sa,
        ClientMessage::UpdatePosition(pos("C", 1, 0, 0, 5, 0)),
        0,
    );
    assert!(other.reply.is_none());
    assert!(other.notify.is_empty());
    // C gained no position: it is nobody's neighbor.
    assert!(nearby_of(&state, &pos("Z", 1, 0, 0, 5, 0)).iter().all(|c| c != "C"));
    assert_eq!(sa.registered.as_deref(), Some("A"));
}

#[test]
fn refresh_does_not_mutate_the_world() {
    let mut state = ServerState::new();
    let (mut sa, _rxa) = connect(&mut state);
    let (mut sb, _rxb) = connect(&mut state);
    state.handle_message(&mut sa, ClientMessage::UpdatePosition(pos("A", 1, 0, 0, 0, 0)), 0);
    state.handle_message(&mut sb, ClientMessage::UpdatePosition(pos("B", 1, 0, 0, 22, 0)), 0);
    // B sits in the hysteresis band and is not cached for A; a refresh
    // must report without caching it, twice over.
    let r1 = state.handle_message(&mut sa, ClientMessage::RequestPeerRefresh, 0);
    let r2 = state.handle_message(&mut sa, ClientMessage::RequestPeerRefresh, 0);
    for r in [r1.reply, r2.reply] {
        match r {
            Some(ServerMessage::NearbyPeers(v)) => assert!(v.is_empty()),
            _ => panic!("expected a nearby list"),
        }
    }
}

#[test]
fn minted_connection_identifiers_are_hyphenated_uuids() {
    let mut state = ServerState::new();
    let (sa, _rxa) = connect(&mut state);
    let (sb, _rxb) = connect(&mut state);
    assert_eq!(sa.conn_id.len(), 36);
    assert_eq!(sb.conn_id.len(), 36);
    assert_ne!(sa.conn_id, sb.conn_id);
    assert_eq!(sa.conn_id.chars().filter(|c| *c == '-').count(), 4);
}

#[test]
fn sweeping_every_silent_client_empties_the_world() {
    let mut state = ServerState::new();
    let (mut sa, _rxa) = connect(&mut state);
    let (mut sb, _rxb) = connect(&mut state);
    state.handle_message(&mut sa, ClientMessage::UpdatePosition(pos("A", 1, 0, 0, 0, 0)), 0);
    state.handle_message(&mut sb, ClientMessage::UpdatePosition(pos("B", 1, 0, 0, 10, 0)), 100);
    let mut evicted = state.evict_timed_out(20_000);
    evicted.sort();
    assert_eq!(evicted, vec!["A".to_string(), "B".to_string()]);
    // Every index empties together: records, routes and connections.
    assert!(state.clients.is_empty());
    assert!(state.client_to_conn.is_empty());
    assert!(state.connections.is_empty());
    assert!(state.reintroduce_all().is_empty());
}

#[test]
fn eviction_is_strict_about_the_timeout() {
    let mut state = ServerState::new();
    let (mut sa, _rxa) = connect(&mut state);
    state.handle_message(&mut sa, ClientMessage::UpdatePosition(pos("A", 1, 0, 0, 0, 0)), 0);
    // Exactly at the timeout the client survives; one past it, it goes.
    assert!(state.evict_timed_out(TIMEOUT_MS).is_empty());
    assert_eq!(state.evict_timed_out(TIMEOUT_MS + 1), vec!["A".to_string()]);
}

#[test]
fn unregistered_connection_cleanup_leaves_clients_alone() {
    let mut state = ServerState::new();
    let (mut sa, _rxa) = connect(&mut state);
    state.handle_message(&mut sa, ClientMessage::UpdatePosition(pos("A", 1, 0, 0, 0, 0)), 0);
    // A connection that never registered goes away without touching
    // any client-keyed state.
    let (probe, _rxp) = connect(&mut state);
    state.cleanup_connection(&probe.conn_id.clone(), None);
    let refresh = state.handle_message(&mut sa, ClientMessage::RequestPeerRefresh, 0);
    assert!(matches!(refresh.reply, Some(ServerMessage::NearbyPeers(_))));
}
