//! Delivery of nearby-set notifications and the sweeper's periodic
//! reintroduction pass. Both recompute each recipient's nearby set
//! against the current world, so a notification planned under an older
//! state is never delivered stale.

use vstd::prelude::*;
use crate::messages::ServerMessage;
use crate::world::{ServerState, nearby_vec_wf, rkey, mkey, mval, lemma_clients_doms,
    lemma_clients_index};
use crate::outside::sink_try_send;
use crate::kv::lemma_assoc_index;

verus! {

impl ServerState {
    /// Recompute `client_id`'s nearby set against the current world and
    /// enqueue it on that client's sink. True when the message was
    /// enqueued, which needs the client to bear a position and a route.
    pub fn deliver_nearby_to(&self, client_id: &String) -> (sent: bool)
        requires
            self.wf(),
        ensures
            sent ==> self@.positions.dom().contains(client_id@)
                && self@.client_to_conn.dom().contains(client_id@),
    {
        match self.find_client_index(client_id) {
            Some(i) => {
                let list = self.get_nearby_clients_with_hysteresis(&self.clients[i].pos);
                match self.find_route_index(client_id) {
                    Some(ri) => {
                        proof {
                            lemma_clients_index(self.clients@, i as int);
                            lemma_assoc_index(self.client_to_conn@, mkey(), mval(), ri as int);
                            assert(self@.client_to_conn.dom().contains(client_id@));
                            assert(self@.client_to_conn[client_id@] == self.client_to_conn@[
                                ri as int
                            ].conn_id@);
                            assert(self@.connections.contains(
                                self.client_to_conn@[ri as int].conn_id@,
                            ));
                        }
                        match self.find_conn_index(&self.client_to_conn[ri].conn_id) {
                            Some(ci) => sink_try_send(
                                &self.connections[ci].sink,
                                ServerMessage::NearbyPeers(list),
                            ),
                            None => {
                                proof {
                                    assert(false);
                                }
                                false
                            },
                        }
                    },
                    None => false,
                }
            },
            None => false,
        }
    }

    /// The reintroduction pass: push a fresh nearby list to every
    /// routed, position-bearing client, unconditionally. Returns the
    /// clients attempted; enqueue failures are tolerated silently.
    pub fn reintroduce_all(&self) -> (targets: Vec<String>)
        requires
            self.wf(),
        ensures
            targets.deep_view().to_set() == Set::new(
                |c: Seq<char>|
                    self@.positions.dom().contains(c) && self@.client_to_conn.dom().contains(c),
            ),
            nearby_vec_wf(targets.deep_view()),
    {
        let mut targets: Vec<String> = Vec::new();
        let mut i: usize = 0;
        while i < self.clients.len()
            invariant
                i <= self.clients@.len(),
                self.wf(),
                forall|c: Seq<char>|
                    #[trigger] targets.deep_view().to_set().contains(c) <==> (exists|j: int|
                        0 <= j < i && (#[trigger] self.clients@[j]).pos@.id == c
                            && self@.client_to_conn.dom().contains(c)),
                nearby_vec_wf(targets.deep_view()),
            decreases self.clients@.len() - i,
        {
            match self.find_route_index(&self.clients[i].pos.client_id) {
                Some(ri) => {
                    proof {
                        lemma_assoc_index(self.client_to_conn@, mkey(), mval(), ri as int);
                        if targets.deep_view().to_set().contains(self.clients@[i as int].pos@.id) {
                            let j = choose|j: int|
                                0 <= j < i && (#[trigger] self.clients@[j]).pos@.id
                                    == self.clients@[i as int].pos@.id
                                    && self@.client_to_conn.dom().contains(
                                    self.clients@[i as int].pos@.id,
                                );
                            assert(rkey()(self.clients@[j]) == rkey()(self.clients@[i as int]));
                            assert(false);
                        }
                    }
                    let _ = self.deliver_nearby_to(&self.clients[i].pos.client_id);
                    let ghost old_targets = targets.deep_view();
                    targets.push(self.clients[i].pos.client_id.clone());
                    proof {
                        assert(targets.deep_view() =~= old_targets.push(
                            self.clients@[i as int].pos@.id,
                        ));
                        old_targets.lemma_push_to_set_commute(self.clients@[i as int].pos@.id);
                        assert(exists|j: int|
                            0 <= j < i + 1 && (#[trigger] self.clients@[j]).pos@.id
                                == self.clients@[i as int].pos@.id
                                && self@.client_to_conn.dom().contains(
                                self.clients@[i as int].pos@.id,
                            ));
                    }
                },
                None => {},
            }
            proof {
                assert forall|c: Seq<char>|
                    #[trigger] targets.deep_view().to_set().contains(c) <==> (exists|j: int|
                        0 <= j < i + 1 && (#[trigger] self.clients@[j]).pos@.id == c
                            && self@.client_to_conn.dom().contains(c)) by {
                    if exists|j: int|
                        0 <= j < i + 1 && (#[trigger] self.clients@[j]).pos@.id == c
                            && self@.client_to_conn.dom().contains(c) {
                        let j = choose|j: int|
                            0 <= j < i + 1 && (#[trigger] self.clients@[j]).pos@.id == c
                                && self@.client_to_conn.dom().contains(c);
                    }
                }
            }
            i = i + 1;
        }
        proof {
            lemma_clients_doms(self.clients@);
            assert forall|c: Seq<char>|
                #[trigger] targets.deep_view().to_set().contains(c) <==> (
                self@.positions.dom().contains(c) && self@.client_to_conn.dom().contains(c)) by {
                if self@.positions.dom().contains(c) && self@.client_to_conn.dom().contains(c) {
                    let j = choose|j: int|
                        0 <= j < self.clients@.len() && (#[trigger] self.clients@[j]).pos@.id == c;
                }
            }
            assert(targets.deep_view().to_set() =~= Set::new(
                |c: Seq<char>|
                    self@.positions.dom().contains(c) && self@.client_to_conn.dom().contains(c),
            ));
        }
        targets
    }
}

} // verus!
