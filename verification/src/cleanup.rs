//! Connection teardown, client displacement and timeout eviction: the
//! mutations that take a client or a connection out of the world while
//! keeping every index coherent.

use vstd::prelude::*;
use crate::TIMEOUT_MS;
use crate::kv::{assoc_map, key_distinct, lemma_assoc_dom, lemma_assoc_index, lemma_assoc_push,
    lemma_assoc_remove, lemma_distinct_push, lemma_distinct_remove, prefix_has};
use crate::world::{ClientConn, ServerState, WorldView, nearby_vec_wf, rkey, rposf, rtimef,
    mkey, mval, ckey, cunit, lemma_clients_doms, lemma_clients_index, lemma_clients_remove};

verus! {

/// Every cached nearby set with `c` taken out.
pub open spec fn purge_nearby(ln: Map<Seq<char>, Set<Seq<char>>>, c: Seq<char>) -> Map<
    Seq<char>,
    Set<Seq<char>>,
> {
    Map::new(|k: Seq<char>| ln.dom().contains(k), |k: Seq<char>| ln[k].remove(c))
}

/// The routing map with every entry pointing at `conn` taken out.
pub open spec fn unroute_conn(m: Map<Seq<char>, Seq<char>>, conn: Seq<char>) -> Map<
    Seq<char>,
    Seq<char>,
> {
    Map::new(|c: Seq<char>| m.dom().contains(c) && m[c] != conn, |c: Seq<char>| m[c])
}

/// The world with client `c`'s position-bearing state removed and `c`
/// purged from every other client's cached nearby set.
pub open spec fn remove_client_view(w: WorldView, c: Seq<char>) -> WorldView {
    WorldView {
        positions: w.positions.remove(c),
        last_update: w.last_update.remove(c),
        last_nearby: purge_nearby(w.last_nearby, c).remove(c),
        ..w
    }
}

/// The world after a connection's teardown: the connection and every
/// route to it are gone, and, when a client was registered on it, that
/// client's position-bearing state too. A route the client re-registered
/// onto another connection survives.
pub open spec fn cleanup_view(w: WorldView, conn: Seq<char>, reg: Option<Seq<char>>) -> WorldView {
    let w1 = WorldView {
        connections: w.connections.remove(conn),
        client_to_conn: unroute_conn(w.client_to_conn, conn),
        ..w
    };
    match reg {
        None => w1,
        Some(c) => remove_client_view(w1, c),
    }
}

/// The world after a client is displaced by a re-registration: its
/// position-bearing state and its route are gone, but its old
/// connection is left to clean itself up.
pub open spec fn displace_view(w: WorldView, c: Seq<char>) -> WorldView {
    WorldView { client_to_conn: w.client_to_conn.remove(c), ..remove_client_view(w, c) }
}

/// Whether client `c` has gone silent: its latest update is older than
/// the timeout.
pub open spec fn timed_out(w: WorldView, now: int, c: Seq<char>) -> bool {
    w.last_update.dom().contains(c) && w.last_update[c] + TIMEOUT_MS < now
}

/// The world after the sweeper evicts one silent client: its
/// position-bearing state, its route, its connection and every route to
/// that connection are gone.
pub open spec fn evict_one_view(w: WorldView, c: Seq<char>) -> WorldView {
    let w1 = remove_client_view(w, c);
    if w.client_to_conn.dom().contains(c) {
        let conn = w.client_to_conn[c];
        WorldView {
            client_to_conn: unroute_conn(w1.client_to_conn.remove(c), conn),
            connections: w1.connections.remove(conn),
            ..w1
        }
    } else {
        w1
    }
}

/// The world after the sweeper evicts the listed clients in order.
pub open spec fn evict_list_view(w: WorldView, ids: Seq<Seq<char>>) -> WorldView
    decreases ids.len(),
{
    if ids.len() == 0 {
        w
    } else {
        evict_list_view(evict_one_view(w, ids[0]), ids.drop_first())
    }
}

/// Evicting one more client after a list is evicting the longer list.
pub proof fn lemma_evict_list_snoc(w: WorldView, s: Seq<Seq<char>>, c: Seq<char>)
    ensures
        evict_list_view(w, s.push(c)) == evict_one_view(evict_list_view(w, s), c),
    decreases s.len(),
{
    if s.len() == 0 {
        assert(s.push(c)[0] == c);
        assert(s.push(c).drop_first() =~= Seq::<Seq<char>>::empty());
        assert(evict_list_view(w, s.push(c)) == evict_list_view(
            evict_one_view(w, c),
            Seq::<Seq<char>>::empty(),
        ));
        assert(evict_list_view(w, s) == w);
    } else {
        assert(s.push(c)[0] == s[0]);
        assert(s.push(c).drop_first() =~= s.drop_first().push(c));
        lemma_evict_list_snoc(evict_one_view(w, s[0]), s.drop_first(), c);
    }
}

/// A copy of `v` with every element equal to `s` taken out.
pub(crate) fn vec_remove_string(v: &Vec<String>, s: &String) -> (r: Vec<String>)
    requires
        nearby_vec_wf(v.deep_view()),
    ensures
        r.deep_view().to_set() == v.deep_view().to_set().remove(s@),
        nearby_vec_wf(r.deep_view()),
{
    let mut out: Vec<String> = Vec::new();
    let mut i: usize = 0;
    while i < v.len()
        invariant
            i <= v@.len(),
            nearby_vec_wf(v.deep_view()),
            forall|c: Seq<char>|
                #[trigger] out.deep_view().to_set().contains(c) <==> (prefix_has(
                    v.deep_view(),
                    i as int,
                    c,
                ) && c != s@),
            nearby_vec_wf(out.deep_view()),
        decreases v@.len() - i,
    {
        if !(v[i] == *s) {
            let ghost old_out = out.deep_view();
            proof {
                if out.deep_view().to_set().contains(v.deep_view()[i as int]) {
                    let l = choose|l: int| 0 <= l < i && v.deep_view()[l] == v.deep_view()[i as int];
                    assert(false);
                }
            }
            out.push(v[i].clone());
            proof {
                assert(out.deep_view() =~= old_out.push(v.deep_view()[i as int]));
                old_out.lemma_push_to_set_commute(v.deep_view()[i as int]);
            }
        }
        proof {
            assert forall|c: Seq<char>|
                #[trigger] out.deep_view().to_set().contains(c) <==> (prefix_has(
                    v.deep_view(),
                    i as int + 1,
                    c,
                ) && c != s@) by {
                if prefix_has(v.deep_view(), i as int + 1, c) && c != s@ {
                    let l = choose|l: int| 0 <= l < i + 1 && v.deep_view()[l] == c;
                }
            }
        }
        i = i + 1;
    }
    proof {
        assert forall|c: Seq<char>|
            #[trigger] out.deep_view().to_set().contains(c) <==> (v.deep_view().to_set().contains(
                c,
            ) && c != s@) by {
            if v.deep_view().to_set().contains(c) && c != s@ {
                let l = choose|l: int|
                    0 <= l < v.deep_view().len() && v.deep_view()[l] == c;
                assert(prefix_has(v.deep_view(), v.deep_view().len() as int, c));
            }
            if prefix_has(v.deep_view(), v.deep_view().len() as int, c) {
                let l = choose|l: int|
                    0 <= l < v.deep_view().len() && v.deep_view()[l] == c;
                assert(v.deep_view().contains(c));
            }
        }
        assert(out.deep_view().to_set() =~= v.deep_view().to_set().remove(s@));
    }
    out
}

impl Clone for ClientConn {
    fn clone(&self) -> (r: Self)
        ensures
            r.client_id@ == self.client_id@,
            r.conn_id@ == self.conn_id@,
    {
        ClientConn { client_id: self.client_id.clone(), conn_id: self.conn_id.clone() }
    }
}

impl ServerState {
    /// Purge a client from every other client's cached nearby set, so
    /// that peers are re-introduced to it if it comes back.
    pub fn remove_from_all_nearby_caches(&mut self, client_id: &String)
        requires
            old(self).wf(),
        ensures
            final(self).wf(),
            final(self)@ == (WorldView {
                last_nearby: purge_nearby(old(self)@.last_nearby, client_id@),
                ..old(self)@
            }),
    {
        let mut i: usize = 0;
        while i < self.clients.len()
            invariant
                i <= self.clients@.len(),
                self.clients@.len() == old(self).clients@.len(),
                self.connections@ == old(self).connections@,
                self.client_to_conn@ == old(self).client_to_conn@,
                old(self).wf(),
                forall|j: int|
                    0 <= j < self.clients@.len() ==> (#[trigger] self.clients@[j]).pos
                        == old(self).clients@[j].pos && self.clients@[j].last_update == old(
                        self,
                    ).clients@[j].last_update,
                forall|j: int|
                    i <= j < self.clients@.len() ==> (#[trigger] self.clients@[j]).last_nearby
                        == old(self).clients@[j].last_nearby,
                forall|j: int|
                    0 <= j < i ==> (#[trigger] self.clients@[j]).last_nearby.deep_view().to_set()
                        == old(self).clients@[j].last_nearby.deep_view().to_set().remove(
                        client_id@,
                    ) && nearby_vec_wf(self.clients@[j].last_nearby.deep_view()),
            decreases self.clients@.len() - i,
        {
            let filtered = vec_remove_string(&self.clients[i].last_nearby, client_id);
            self.clients[i].last_nearby = filtered;
            i = i + 1;
        }
        proof {
            crate::kv::lemma_assoc_congruent(self.clients@, old(self).clients@, rkey(), rposf());
            crate::kv::lemma_assoc_congruent(self.clients@, old(self).clients@, rkey(), rtimef());
            lemma_clients_doms(self.clients@);
            lemma_clients_doms(old(self).clients@);
            assert(self@.positions =~= old(self)@.positions);
            assert(self@.last_update =~= old(self)@.last_update);
            assert(self@.last_nearby.dom() =~= old(self)@.last_nearby.dom());
            assert forall|k: Seq<char>| #[trigger] self@.last_nearby.dom().contains(k) implies
                self@.last_nearby[k] == old(self)@.last_nearby[k].remove(client_id@) by {
                let j = choose|j: int|
                    0 <= j < self.clients@.len() && (#[trigger] self.clients@[j]).pos@.id == k;
                lemma_clients_index(self.clients@, j);
                lemma_clients_index(old(self).clients@, j);
            }
            assert(self@.last_nearby =~= purge_nearby(old(self)@.last_nearby, client_id@));
            assert(self@ == (WorldView {
                last_nearby: purge_nearby(old(self)@.last_nearby, client_id@),
                ..old(self)@
            }));
            assert forall|c: Seq<char>| #[trigger] self@.last_nearby.dom().contains(c) implies
                !self@.last_nearby[c].contains(c) && self@.last_nearby[c].subset_of(
                self@.positions.dom(),
            ) by {
                assert(old(self)@.last_nearby.dom().contains(c));
            }
            assert(self.wf());
        }
    }

    /// Remove a client's position-bearing state and purge it from every
    /// cached nearby set. Routes and connections are untouched.
    pub(crate) fn remove_client_record(&mut self, client_id: &String)
        requires
            old(self).wf(),
        ensures
            final(self).wf(),
            final(self)@ == remove_client_view(old(self)@, client_id@),
    {
        self.remove_from_all_nearby_caches(client_id);
        let ghost w1 = self@;
        match self.find_client_index(client_id) {
            Some(i) => {
                proof {
                    lemma_clients_doms(self.clients@);
                    lemma_clients_index(self.clients@, i as int);
                    lemma_clients_remove(self.clients@, i as int);
                }
                let _ = self.clients.remove(i);
                proof {
                    assert(self@.positions =~= w1.positions.remove(client_id@));
                    assert(self@.last_update =~= w1.last_update.remove(client_id@));
                    assert(self@.last_nearby =~= w1.last_nearby.remove(client_id@));
                }
            },
            None => {
                proof {
                    lemma_clients_doms(self.clients@);
                    assert(self@.positions =~= w1.positions.remove(client_id@));
                    assert(self@.last_update =~= w1.last_update.remove(client_id@));
                    assert(self@.last_nearby =~= w1.last_nearby.remove(client_id@));
                }
            },
        }
        proof {
            assert(self@ == remove_client_view(old(self)@, client_id@));
            assert forall|c: Seq<char>| #[trigger] self@.last_nearby.dom().contains(c) implies
                !self@.last_nearby[c].contains(c) && self@.last_nearby[c].subset_of(
                self@.positions.dom(),
            ) by {
                assert(w1.last_nearby.dom().contains(c));
                assert(self@.last_nearby[c] == w1.last_nearby[c]);
                assert(!self@.last_nearby[c].contains(client_id@));
            }
            assert(self.wf());
        }
    }

    /// Drop every route that points at `conn_id`.
    pub(crate) fn unroute_connection(&mut self, conn_id: &String)
        requires
            old(self).wf(),
        ensures
            final(self).wf(),
            final(self)@ == (WorldView {
                client_to_conn: unroute_conn(old(self)@.client_to_conn, conn_id@),
                ..old(self)@
            }),
    {
        let mut kept: Vec<ClientConn> = Vec::new();
        let mut i: usize = 0;
        while i < self.client_to_conn.len()
            invariant
                i <= self.client_to_conn@.len(),
                self.wf(),
                key_distinct(kept@, mkey()),
                assoc_map(kept@, mkey(), mval()) == Map::new(
                    |c: Seq<char>| exists|j: int|
                        0 <= j < i && (#[trigger] self.client_to_conn@[j]).client_id@ == c
                            && self.client_to_conn@[j].conn_id@ != conn_id@,
                    |c: Seq<char>| self@.client_to_conn[c],
                ),
            decreases self.client_to_conn@.len() - i,
        {
            if !(self.client_to_conn[i].conn_id == *conn_id) {
                let ghost old_kept = kept@;
                proof {
                    lemma_assoc_dom(kept@, mkey(), mval());
                    if assoc_map(kept@, mkey(), mval()).dom().contains(
                        self.client_to_conn@[i as int].client_id@,
                    ) {
                        let j = choose|j: int|
                            0 <= j < i && (#[trigger] self.client_to_conn@[j]).client_id@
                                == self.client_to_conn@[i as int].client_id@
                                && self.client_to_conn@[j].conn_id@ != conn_id@;
                        assert(mkey()(self.client_to_conn@[j]) == mkey()(
                            self.client_to_conn@[i as int],
                        ));
                        assert(false);
                    }
                    lemma_assoc_push(kept@, mkey(), mval(), self.client_to_conn@[i as int]);
                    lemma_distinct_push(
                        kept@,
                        mkey(),
                        mval(),
                        self.client_to_conn@[i as int],
                    );
                    lemma_assoc_index(self.client_to_conn@, mkey(), mval(), i as int);
                }
                let entry = ClientConn {
                    client_id: self.client_to_conn[i].client_id.clone(),
                    conn_id: self.client_to_conn[i].conn_id.clone(),
                };
                kept.push(entry);
                proof {
                    assert(kept@.drop_last() =~= old_kept);
                    assert(kept@.last().client_id@ == self.client_to_conn@[i as int].client_id@);
                    assert(kept@.last().conn_id@ == self.client_to_conn@[i as int].conn_id@);
                    assert(assoc_map(kept@, mkey(), mval()) =~= assoc_map(
                        old_kept,
                        mkey(),
                        mval(),
                    ).insert(
                        self.client_to_conn@[i as int].client_id@,
                        self.client_to_conn@[i as int].conn_id@,
                    ));
                    assert forall|p: int, q: int| 0 <= p < q < kept@.len() implies mkey()(
                        kept@[p],
                    ) != mkey()(kept@[q]) by {
                        if q == kept@.len() - 1 {
                            assert(!assoc_map(old_kept, mkey(), mval()).dom().contains(
                                mkey()(kept@[q]),
                            ));
                            lemma_assoc_dom(old_kept, mkey(), mval());
                            assert(kept@[p] == old_kept[p]);
                        } else {
                            assert(kept@[p] == old_kept[p]);
                            assert(kept@[q] == old_kept[q]);
                        }
                    }
                    assert(assoc_map(kept@, mkey(), mval()) =~= Map::new(
                        |c: Seq<char>| exists|j: int|
                            0 <= j < i + 1 && (#[trigger] self.client_to_conn@[j]).client_id@ == c
                                && self.client_to_conn@[j].conn_id@ != conn_id@,
                        |c: Seq<char>| self@.client_to_conn[c],
                    ));
                }
            } else {
                proof {
                    assert(assoc_map(kept@, mkey(), mval()) =~= Map::new(
                        |c: Seq<char>| exists|j: int|
                            0 <= j < i + 1 && (#[trigger] self.client_to_conn@[j]).client_id@ == c
                                && self.client_to_conn@[j].conn_id@ != conn_id@,
                        |c: Seq<char>| self@.client_to_conn[c],
                    ));
                }
            }
            i = i + 1;
        }
        proof {
            lemma_assoc_dom(self.client_to_conn@, mkey(), mval());
            assert forall|c: Seq<char>|
                #[trigger] unroute_conn(self@.client_to_conn, conn_id@).dom().contains(c) implies (
            exists|j: int|
                0 <= j < self.client_to_conn@.len()
                    && (#[trigger] self.client_to_conn@[j]).client_id@ == c
                    && self.client_to_conn@[j].conn_id@ != conn_id@) by {
                let j = choose|j: int|
                    0 <= j < self.client_to_conn@.len() && mkey()(
                        #[trigger] self.client_to_conn@[j],
                    ) == c;
                lemma_assoc_index(self.client_to_conn@, mkey(), mval(), j);
            }
            assert forall|j: int|
                0 <= j < self.client_to_conn@.len() && (#[trigger] self.client_to_conn@[
                    j
                ]).conn_id@ != conn_id@ implies (unroute_conn(
                self@.client_to_conn,
                conn_id@,
            ).dom().contains(self.client_to_conn@[j].client_id@)) by {
                lemma_assoc_index(self.client_to_conn@, mkey(), mval(), j);
            }
            assert(assoc_map(kept@, mkey(), mval()) =~= unroute_conn(
                self@.client_to_conn,
                conn_id@,
            ));
        }
        self.client_to_conn = kept;
        proof {
            assert(self@ == (WorldView {
                client_to_conn: unroute_conn(old(self)@.client_to_conn, conn_id@),
                ..old(self)@
            }));
            assert(self.wf());
        }
    }
}

impl ServerState {
    /// Tear a connection down: drop the connection and every route to
    /// it, and, when a client was registered on it, that client's
    /// position-bearing state.
    pub fn cleanup_connection(&mut self, conn_id: &String, registered: Option<&String>)
        requires
            old(self).wf(),
        ensures
            final(self).wf(),
            final(self)@ == cleanup_view(
                old(self)@,
                conn_id@,
                match registered {
                    Some(c) => Some(c@),
                    None => None::<Seq<char>>,
                },
            ),
    {
        self.unroute_connection(conn_id);
        let ghost w1 = self@;
        match self.find_conn_index(conn_id) {
            Some(i) => {
                proof {
                    lemma_assoc_remove(self.connections@, ckey(), cunit(), i as int);
                    lemma_distinct_remove(self.connections@, ckey(), i as int);
                }
                let _ = self.connections.remove(i);
                proof {
                    assert(self@.connections =~= w1.connections.remove(conn_id@));
                }
            },
            None => {
                proof {
                    assert(self@.connections =~= w1.connections.remove(conn_id@));
                }
            },
        }
        proof {
            assert forall|c: Seq<char>| #[trigger] self@.client_to_conn.dom().contains(c) implies
                self@.connections.contains(self@.client_to_conn[c]) by {
                assert(w1.client_to_conn[c] != conn_id@);
            }
            assert(self.wf());
        }
        match registered {
            Some(cid) => {
                self.remove_client_record(cid);
            },
            None => {},
        }
        proof {
            assert(self@ == cleanup_view(
                old(self)@,
                conn_id@,
                match registered {
                    Some(c) => Some(c@),
                    None => None::<Seq<char>>,
                },
            ));
        }
    }

    /// Displace a client on re-registration: its position-bearing
    /// state and its route are reaped; its old connection is left to
    /// clean itself up.
    pub(crate) fn displace_client(&mut self, client_id: &String)
        requires
            old(self).wf(),
        ensures
            final(self).wf(),
            final(self)@ == displace_view(old(self)@, client_id@),
    {
        self.remove_client_record(client_id);
        let ghost w1 = self@;
        match self.find_route_index(client_id) {
            Some(i) => {
                proof {
                    lemma_assoc_remove(self.client_to_conn@, mkey(), mval(), i as int);
                    lemma_distinct_remove(self.client_to_conn@, mkey(), i as int);
                }
                let _ = self.client_to_conn.remove(i);
                proof {
                    assert(self@.client_to_conn =~= w1.client_to_conn.remove(client_id@));
                }
            },
            None => {
                proof {
                    assert(self@.client_to_conn =~= w1.client_to_conn.remove(client_id@));
                }
            },
        }
        proof {
            assert(self@ == displace_view(old(self)@, client_id@));
            assert(self.wf());
        }
    }

    /// Route a client to the connection it registered on.
    pub(crate) fn route_client(&mut self, client_id: &String, conn_id: &String)
        requires
            old(self).wf(),
            !old(self)@.client_to_conn.dom().contains(client_id@),
            old(self)@.connections.contains(conn_id@),
        ensures
            final(self).wf(),
            final(self)@ == (WorldView {
                client_to_conn: old(self)@.client_to_conn.insert(client_id@, conn_id@),
                ..old(self)@
            }),
    {
        let entry = ClientConn { client_id: client_id.clone(), conn_id: conn_id.clone() };
        proof {
            lemma_assoc_push(self.client_to_conn@, mkey(), mval(), entry);
            lemma_distinct_push(self.client_to_conn@, mkey(), mval(), entry);
        }
        self.client_to_conn.push(entry);
        proof {
            assert(self@ == (WorldView {
                client_to_conn: old(self)@.client_to_conn.insert(client_id@, conn_id@),
                ..old(self)@
            }));
            assert(self.wf());
        }
    }

    /// Evict one silent client as the sweeper does: its state, its
    /// route, its connection and every route to that connection go.
    pub(crate) fn remove_client_full(&mut self, client_id: &String)
        requires
            old(self).wf(),
        ensures
            final(self).wf(),
            final(self)@ == evict_one_view(old(self)@, client_id@),
    {
        self.remove_client_record(client_id);
        match self.find_route_index(client_id) {
            Some(ri) => {
                proof {
                    lemma_assoc_index(self.client_to_conn@, mkey(), mval(), ri as int);
                    lemma_assoc_remove(self.client_to_conn@, mkey(), mval(), ri as int);
                    lemma_distinct_remove(self.client_to_conn@, mkey(), ri as int);
                }
                let ghost w1 = self@;
                let entry = self.client_to_conn.remove(ri);
                let conn = entry.conn_id;
                proof {
                    assert(self@.client_to_conn =~= w1.client_to_conn.remove(client_id@));
                    assert(w1.connections.contains(conn@));
                    assert(self.wf());
                }
                self.unroute_connection(&conn);
                let ghost w2 = self@;
                match self.find_conn_index(&conn) {
                    Some(ci) => {
                        proof {
                            lemma_assoc_remove(self.connections@, ckey(), cunit(), ci as int);
                            lemma_distinct_remove(self.connections@, ckey(), ci as int);
                        }
                        let _ = self.connections.remove(ci);
                        proof {
                            assert(self@.connections =~= w2.connections.remove(conn@));
                        }
                    },
                    None => {
                        proof {
                            assert(false);
                        }
                    },
                }
                proof {
                    assert forall|c: Seq<char>|
                        #[trigger] self@.client_to_conn.dom().contains(c) implies
                        self@.connections.contains(self@.client_to_conn[c]) by {
                        assert(w2.client_to_conn[c] != conn@);
                    }
                    assert(self.wf());
                    assert(self@.client_to_conn =~= evict_one_view(
                        old(self)@,
                        client_id@,
                    ).client_to_conn);
                    assert(self@ == evict_one_view(old(self)@, client_id@));
                }
            },
            None => {
                proof {
                    assert(self@ == evict_one_view(old(self)@, client_id@));
                }
            },
        }
    }

    /// The sweeper's timeout pass: evict every client whose latest
    /// update is older than the timeout, and report who was evicted.
    pub fn evict_timed_out(&mut self, now: u64) -> (evicted: Vec<String>)
        requires
            old(self).wf(),
        ensures
            final(self).wf(),
            final(self)@ == evict_list_view(old(self)@, evicted.deep_view()),
            evicted.deep_view().to_set() == Set::new(
                |c: Seq<char>| timed_out(old(self)@, now as int, c),
            ),
            nearby_vec_wf(evicted.deep_view()),
    {
        let ghost w0 = self@;
        let mut dead: Vec<String> = Vec::new();
        let mut i: usize = 0;
        while i < self.clients.len()
            invariant
                i <= self.clients@.len(),
                self.wf(),
                self@ == w0,
                self.clients@.len() == old(self).clients@.len(),
                forall|c: Seq<char>|
                    #[trigger] dead.deep_view().to_set().contains(c) <==> (exists|j: int|
                        0 <= j < i && (#[trigger] self.clients@[j]).pos@.id == c && self.clients@[
                            j
                        ].last_update + TIMEOUT_MS < now),
                nearby_vec_wf(dead.deep_view()),
            decreases self.clients@.len() - i,
        {
            let last = self.clients[i].last_update;
            if now > last && now - last > TIMEOUT_MS {
                let ghost old_dead = dead.deep_view();
                proof {
                    if dead.deep_view().to_set().contains(self.clients@[i as int].pos@.id) {
                        let j = choose|j: int|
                            0 <= j < i && (#[trigger] self.clients@[j]).pos@.id == self.clients@[
                                i as int
                            ].pos@.id && self.clients@[j].last_update + TIMEOUT_MS < now;
                        assert(rkey()(self.clients@[j]) == rkey()(self.clients@[i as int]));
                        assert(false);
                    }
                }
                dead.push(self.clients[i].pos.client_id.clone());
                proof {
                    assert(dead.deep_view() =~= old_dead.push(self.clients@[i as int].pos@.id));
                    old_dead.lemma_push_to_set_commute(self.clients@[i as int].pos@.id);
                    assert(exists|j: int|
                        0 <= j < i + 1 && (#[trigger] self.clients@[j]).pos@.id == self.clients@[
                            i as int
                        ].pos@.id && self.clients@[j].last_update + TIMEOUT_MS < now);
                }
            }
            proof {
                assert forall|c: Seq<char>|
                    #[trigger] dead.deep_view().to_set().contains(c) <==> (exists|j: int|
                        0 <= j < i + 1 && (#[trigger] self.clients@[j]).pos@.id == c
                            && self.clients@[j].last_update + TIMEOUT_MS < now) by {
                    if exists|j: int|
                        0 <= j < i + 1 && (#[trigger] self.clients@[j]).pos@.id == c
                            && self.clients@[j].last_update + TIMEOUT_MS < now {
                        let j = choose|j: int|
                            0 <= j < i + 1 && (#[trigger] self.clients@[j]).pos@.id == c
                                && self.clients@[j].last_update + TIMEOUT_MS < now;
                    }
                }
            }
            i = i + 1;
        }
        proof {
            lemma_clients_doms(self.clients@);
            assert forall|c: Seq<char>|
                #[trigger] dead.deep_view().to_set().contains(c) <==> timed_out(
                    w0,
                    now as int,
                    c,
                ) by {
                if dead.deep_view().to_set().contains(c) {
                    let j = choose|j: int|
                        0 <= j < self.clients@.len() && (#[trigger] self.clients@[j]).pos@.id == c
                            && self.clients@[j].last_update + TIMEOUT_MS < now;
                    lemma_clients_index(self.clients@, j);
                }
                if timed_out(w0, now as int, c) {
                    let j = choose|j: int|
                        0 <= j < self.clients@.len() && (#[trigger] self.clients@[j]).pos@.id == c;
                    lemma_clients_index(self.clients@, j);
                }
            }
            assert(dead.deep_view().to_set() =~= Set::new(
                |c: Seq<char>| timed_out(w0, now as int, c),
            ));
        }
        let mut k: usize = 0;
        while k < dead.len()
            invariant
                k <= dead@.len(),
                self.wf(),
                self@ == evict_list_view(w0, dead.deep_view().take(k as int)),
            decreases dead@.len() - k,
        {
            self.remove_client_full(&dead[k]);
            proof {
                assert(dead.deep_view().take(k as int + 1) =~= dead.deep_view().take(
                    k as int,
                ).push(dead.deep_view()[k as int]));
                lemma_evict_list_snoc(
                    w0,
                    dead.deep_view().take(k as int),
                    dead.deep_view()[k as int],
                );
            }
            k = k + 1;
        }
        proof {
            assert(dead.deep_view().take(dead.deep_view().len() as int) =~= dead.deep_view());
        }
        dead
    }
}

} // verus!
