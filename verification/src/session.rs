//! The per-connection session: its state machine, the dispatch of every
//! inbound message against the world state, and the relay router.

use vstd::prelude::*;
use vstd::string::StringExecFns;
use crate::messages::{ClientMessage, ServerMessage};
use crate::world::{ServerState, WorldView, nearby_vec_wf, mkey, mval, ckey, cunit,
    lemma_clients_index};
use crate::cleanup::displace_view;
use crate::planner::{after_update, update_notifies};
use crate::proximity::nearby_set;
use crate::outside::sink_try_send;
use crate::kv::lemma_assoc_index;

verus! {

/// Where a session stands: accepted but unregistered, registered to a
/// client, tearing down, or gone.
pub enum SessionPhase {
    Accepted,
    Registered,
    Closing,
    Closed,
}

/// The per-connection state: the connection's identifier and the client
/// registered on it, if any.
pub struct Session {
    pub conn_id: String,
    pub registered: Option<String>,
    pub phase: SessionPhase,
}

impl Session {
    /// A registered session knows its client; an accepted one does not.
    pub open spec fn wf(&self) -> bool {
        &&& (self.phase is Registered ==> self.registered.is_some())
        &&& (self.phase is Accepted ==> self.registered.is_none())
    }

    /// A session fresh from the transport handshake.
    pub fn new(conn_id: String) -> (s: Session)
        ensures
            s.wf(),
            s.conn_id@ == conn_id@,
            s.registered is None,
            s.phase is Accepted,
    {
        Session { conn_id, registered: None, phase: SessionPhase::Accepted }
    }
}

/// What a handled message asks the caller to do: a reply to enqueue on
/// this session's own sink, clients owed a fresh nearby-set delivery,
/// and whether the session should close.
pub struct Actions {
    pub reply: Option<ServerMessage>,
    pub notify: Vec<String>,
    pub disconnect: bool,
}

/// How a relayed signaling message fared.
pub enum RelayOutcome {
    Delivered,
    UnknownTarget,
    SinkRefused,
}

/// The world after a client registers on a connection: a displaced
/// older registration is reaped first, then the client is routed to the
/// connection if it is still live.
pub open spec fn register_step(w: WorldView, c: Seq<char>, conn: Seq<char>) -> WorldView {
    let w1 = if w.client_to_conn.dom().contains(c) {
        displace_view(w, c)
    } else {
        w
    };
    if w.connections.contains(conn) {
        WorldView { client_to_conn: w1.client_to_conn.insert(c, conn), ..w1 }
    } else {
        w1
    }
}

/// The reply is a protocol or relay error.
pub open spec fn is_error_reply(r: Option<ServerMessage>) -> bool {
    r matches Some(ServerMessage::Error(_))
}

/// The reply is a nearby-peers list carrying exactly the set `s`.
pub open spec fn is_nearby_reply(r: Option<ServerMessage>, s: Set<Seq<char>>) -> bool {
    r matches Some(ServerMessage::NearbyPeers(v)) && v.deep_view().to_set() == s
}

/// The protocol-order error sent when a message precedes registration.
fn protocol_error() -> (m: ServerMessage)
    ensures
        m is Error,
{
    ServerMessage::Error("Client must send UpdatePosition first.".to_owned())
}

/// The error sent when a relay target is not connected.
fn target_not_found_error(target_id: &String) -> (m: ServerMessage)
    ensures
        m is Error,
{
    let mut s = "Client ".to_owned();
    s.append(target_id.as_str());
    s.append(" not found");
    ServerMessage::Error(s)
}

/// The error sent when a relay target's sink refuses the message.
fn relay_failed_error(target_id: &String) -> (m: ServerMessage)
    ensures
        m is Error,
{
    let mut s = "Failed to relay to ".to_owned();
    s.append(target_id.as_str());
    ServerMessage::Error(s)
}

impl ServerState {
    /// The relay router: resolve the target client's connection and
    /// enqueue the message on its sink.
    pub fn relay_to(&self, target_id: &String, m: ServerMessage) -> (r: RelayOutcome)
        requires
            self.wf(),
        ensures
            (r is UnknownTarget) <==> !self@.client_to_conn.dom().contains(target_id@),
    {
        match self.find_route_index(target_id) {
            Some(ri) => {
                proof {
                    lemma_assoc_index(self.client_to_conn@, mkey(), mval(), ri as int);
                    assert(self@.client_to_conn.dom().contains(target_id@));
                    assert(self@.client_to_conn[target_id@] == self.client_to_conn@[
                        ri as int
                    ].conn_id@);
                    assert(self@.connections.contains(
                        self.client_to_conn@[ri as int].conn_id@,
                    ));
                }
                match self.find_conn_index(&self.client_to_conn[ri].conn_id) {
                    Some(ci) => {
                        if sink_try_send(&self.connections[ci].sink, m) {
                            RelayOutcome::Delivered
                        } else {
                            RelayOutcome::SinkRefused
                        }
                    },
                    None => {
                        proof {
                            assert(false);
                        }
                        RelayOutcome::SinkRefused
                    },
                }
            },
            None => RelayOutcome::UnknownTarget,
        }
    }

    /// Handle one inbound message for a session: registration and
    /// position updates, peer-list refreshes, signaling relays and the
    /// disconnect request.
    pub fn handle_message(&mut self, session: &mut Session, msg: ClientMessage, now: u64) -> (a:
        Actions)
        requires
            old(self).wf(),
            old(session).wf(),
            old(session).phase is Accepted || old(session).phase is Registered,
        ensures
            final(self).wf(),
            final(session).wf(),
            final(session).conn_id@ == old(session).conn_id@,
            nearby_vec_wf(a.notify.deep_view()),
            // A non-registration message before registration draws a
            // protocol error and changes nothing.
            (old(session).registered is None && !(msg is UpdatePosition)) ==> (final(self)@ == old(self)@ && *final(session) == *old(session) && is_error_reply(a.reply) && a.notify@.len()
                == 0 && !a.disconnect),
            // The first accepted position update registers the client,
            // displacing an older registration of the same identifier.
            msg matches ClientMessage::UpdatePosition(pos) ==> (old(session).registered is None
                ==> (final(self)@ == after_update(
                register_step(old(self)@, pos@.id, old(session).conn_id@),
                pos@,
                now as int,
            ) && a.notify.deep_view().to_set() == update_notifies(
                register_step(old(self)@, pos@.id, old(session).conn_id@),
                pos@,
                now as int,
            ) && (final(session).registered matches Some(r) && r@ == pos@.id) && final(session).phase is Registered && a.reply is None && !a.disconnect)),
            // A position update for the registered client applies the
            // planner's transition.
            msg matches ClientMessage::UpdatePosition(pos) ==> (old(session).registered matches
                Some(r) ==> (r@ == pos@.id ==> (final(self)@ == after_update(
                old(self)@,
                pos@,
                now as int,
            ) && a.notify.deep_view().to_set() == update_notifies(old(self)@, pos@, now as int)
                && *final(session) == *old(session) && a.reply is None && !a.disconnect))),
            // A position update naming another client is ignored.
            msg matches ClientMessage::UpdatePosition(pos) ==> (old(session).registered matches
                Some(r) ==> (r@ != pos@.id ==> (final(self)@ == old(self)@ && *final(session)
                == *old(session) && a.reply is None && a.notify@.len() == 0 && !a.disconnect))),
            // A refresh recomputes the sender's nearby set and mutates
            // nothing.
            msg is RequestPeerRefresh ==> (old(session).registered matches Some(r) ==> (final(self)@ == old(self)@ && *final(session) == *old(session) && a.notify@.len() == 0
                && !a.disconnect && (old(self)@.positions.dom().contains(r@) ==> is_nearby_reply(
                a.reply,
                nearby_set(old(self)@, old(self)@.positions[r@]),
            )) && (!old(self)@.positions.dom().contains(r@) ==> a.reply is None))),
            // An offer or answer is relayed; an unknown target or a
            // refused sink draws an error back to the sender.
            msg matches ClientMessage::SendOffer { target_id, offer } ==> (old(session).registered is Some ==> (final(self)@ == old(self)@ && *final(session) == *old(session) && a.notify@.len()
                == 0 && !a.disconnect && (!old(self)@.client_to_conn.dom().contains(target_id@)
                ==> is_error_reply(a.reply)) && (a.reply is None || is_error_reply(a.reply)))),
            msg matches ClientMessage::SendAnswer { target_id, answer } ==> (old(session).registered is Some ==> (final(self)@ == old(self)@ && *final(session) == *old(session) && a.notify@.len()
                == 0 && !a.disconnect && (!old(self)@.client_to_conn.dom().contains(target_id@)
                ==> is_error_reply(a.reply)) && (a.reply is None || is_error_reply(a.reply)))),
            // A candidate is relayed best-effort: failures are silent.
            msg matches ClientMessage::SendIceCandidate { target_id, candidate } ==> (old(session).registered is Some ==> (final(self)@ == old(self)@ && *final(session) == *old(session) && a.reply is None && a.notify@.len() == 0 && !a.disconnect)),
            // A disconnect request begins the session's teardown.
            old(session).registered is Some && msg is Disconnect ==> (final(self)@ == old(self)@
                && final(session).registered == old(session).registered && final(session).phase is Closing && a.reply is None && a.notify@.len() == 0 && a.disconnect),
    {
        if session.registered.is_none() && !(matches!(msg, ClientMessage::UpdatePosition(_))) {
            return Actions {
                reply: Some(protocol_error()),
                notify: Vec::new(),
                disconnect: false,
            };
        }
        match msg {
            ClientMessage::UpdatePosition(pos) => {
                let mut same = true;
                match &session.registered {
                    None => {
                        match self.find_route_index(&pos.client_id) {
                            Some(ri) => {
                                proof {
                                    lemma_assoc_index(
                                        self.client_to_conn@,
                                        mkey(),
                                        mval(),
                                        ri as int,
                                    );
                                }
                                self.displace_client(&pos.client_id);
                            },
                            None => {},
                        }
                        match self.find_conn_index(&session.conn_id) {
                            Some(ci) => {
                                proof {
                                    lemma_assoc_index(
                                        self.connections@,
                                        ckey(),
                                        cunit(),
                                        ci as int,
                                    );
                                }
                                self.route_client(&pos.client_id, &session.conn_id);
                            },
                            None => {},
                        }
                        proof {
                            assert(self@ == register_step(
                                old(self)@,
                                pos@.id,
                                old(session).conn_id@,
                            ));
                        }
                        session.registered = Some(pos.client_id.clone());
                        session.phase = SessionPhase::Registered;
                    },
                    Some(r) => {
                        same = *r == pos.client_id;
                    },
                }
                if same {
                    let notify = self.update_position_and_notify(&pos, now);
                    Actions { reply: None, notify, disconnect: false }
                } else {
                    Actions { reply: None, notify: Vec::new(), disconnect: false }
                }
            },
            ClientMessage::RequestPeerRefresh => {
                let reply = match &session.registered {
                    Some(r) => {
                        match self.find_client_index(r) {
                            Some(i) => {
                                proof {
                                    lemma_clients_index(self.clients@, i as int);
                                }
                                let list = self.get_nearby_clients_with_hysteresis(
                                    &self.clients[i].pos,
                                );
                                Some(ServerMessage::NearbyPeers(list))
                            },
                            None => None,
                        }
                    },
                    None => {
                        proof {
                            assert(false);
                        }
                        None
                    },
                };
                Actions { reply, notify: Vec::new(), disconnect: false }
            },
            ClientMessage::SendOffer { target_id, offer } => {
                let sender = match &session.registered {
                    Some(r) => r.clone(),
                    None => {
                        proof {
                            assert(false);
                        }
                        String::new()
                    },
                };
                let out = self.relay_to(
                    &target_id,
                    ServerMessage::ReceiveOffer { sender_id: sender, offer },
                );
                let reply = match out {
                    RelayOutcome::Delivered => None,
                    RelayOutcome::UnknownTarget => Some(target_not_found_error(&target_id)),
                    RelayOutcome::SinkRefused => Some(relay_failed_error(&target_id)),
                };
                Actions { reply, notify: Vec::new(), disconnect: false }
            },
            ClientMessage::SendAnswer { target_id, answer } => {
                let sender = match &session.registered {
                    Some(r) => r.clone(),
                    None => {
                        proof {
                            assert(false);
                        }
                        String::new()
                    },
                };
                let out = self.relay_to(
                    &target_id,
                    ServerMessage::ReceiveAnswer { sender_id: sender, answer },
                );
                let reply = match out {
                    RelayOutcome::Delivered => None,
                    RelayOutcome::UnknownTarget => Some(target_not_found_error(&target_id)),
                    RelayOutcome::SinkRefused => Some(relay_failed_error(&target_id)),
                };
                Actions { reply, notify: Vec::new(), disconnect: false }
            },
            ClientMessage::SendIceCandidate { target_id, candidate } => {
                let sender = match &session.registered {
                    Some(r) => r.clone(),
                    None => {
                        proof {
                            assert(false);
                        }
                        String::new()
                    },
                };
                let _ = self.relay_to(
                    &target_id,
                    ServerMessage::ReceiveIceCandidate { sender_id: sender, candidate },
                );
                Actions { reply: None, notify: Vec::new(), disconnect: false }
            },
            ClientMessage::Disconnect => {
                session.phase = SessionPhase::Closing;
                Actions { reply: None, notify: Vec::new(), disconnect: true }
            },
        }
    }
}

} // verus!
