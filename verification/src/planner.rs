//! The notification planner: apply a position update to the world and
//! decide exactly which clients must be told their nearby set changed.
//!
//! The planner is the sole authority for when a nearby-set notification
//! is emitted on the position path: the mover is notified only when its
//! set genuinely changed, and a newly added peer is notified only when
//! the mover is genuinely new to that peer's own set.

use vstd::prelude::*;
use crate::position::{ClientPosition, PosData, is_nearby};
use crate::world::{ClientRecord, ServerState, WorldView, nearby_vec_wf, rkey,
    lemma_clients_doms, lemma_clients_index, lemma_clients_push, lemma_clients_remove};
use crate::kv::prefix_has;
use crate::proximity::{contains_string, nearby_set, prev_of};

verus! {

/// The world right after the mover's record is written: its position
/// and update time are stored, and a fresh client starts with an empty
/// cached nearby set.
pub open spec fn with_mover(w: WorldView, p: PosData, now: int) -> WorldView {
    WorldView {
        positions: w.positions.insert(p.id, p),
        last_update: w.last_update.insert(p.id, now),
        last_nearby: if w.last_nearby.dom().contains(p.id) {
            w.last_nearby
        } else {
            w.last_nearby.insert(p.id, Set::empty())
        },
        ..w
    }
}

/// The mover's cached nearby set before the update.
pub open spec fn mover_prev(w: WorldView, p: PosData) -> Set<Seq<char>> {
    prev_of(w, p.id)
}

/// The mover's nearby set after the update, judged with hysteresis
/// against its old cached set.
pub open spec fn mover_next(w: WorldView, p: PosData, now: int) -> Set<Seq<char>> {
    nearby_set(with_mover(w, p, now), p)
}

/// Whether the mover's nearby set genuinely changed.
pub open spec fn mover_changed(w: WorldView, p: PosData, now: int) -> bool {
    mover_next(w, p, now) != mover_prev(w, p)
}

/// The peers newly entering the mover's nearby set.
pub open spec fn added_of(w: WorldView, p: PosData, now: int) -> Set<Seq<char>> {
    mover_next(w, p, now).difference(mover_prev(w, p))
}

/// The world after the mover's own cache is refreshed (only when it
/// changed).
pub open spec fn after_mover(w: WorldView, p: PosData, now: int) -> WorldView {
    let w1 = with_mover(w, p, now);
    if mover_changed(w, p, now) {
        WorldView { last_nearby: w1.last_nearby.insert(p.id, mover_next(w, p, now)), ..w1 }
    } else {
        w1
    }
}

/// Whether the mover `m` is genuinely new to peer `q`'s own view: not
/// yet in `q`'s cached set, and in `q`'s freshly computed nearby set.
pub open spec fn peer_promotes(w2: WorldView, m: Seq<char>, q: Seq<char>) -> bool {
    &&& !prev_of(w2, q).contains(m)
    &&& nearby_set(w2, w2.positions[q]).contains(m)
}

/// The world after the whole update: newly added peers that promote the
/// mover get their caches refreshed too.
pub open spec fn after_update(w: WorldView, p: PosData, now: int) -> WorldView {
    let w2 = after_mover(w, p, now);
    let added = added_of(w, p, now);
    WorldView {
        last_nearby: Map::new(
            |c: Seq<char>| w2.last_nearby.dom().contains(c),
            |c: Seq<char>|
                if added.contains(c) && peer_promotes(w2, p.id, c) {
                    nearby_set(w2, w2.positions[c])
                } else {
                    w2.last_nearby[c]
                },
        ),
        ..w2
    }
}

/// The clients owed a fresh nearby-set notification by this update: the
/// mover when its set changed, and every promoted new peer that is
/// routed to a connection.
pub open spec fn update_notifies(w: WorldView, p: PosData, now: int) -> Set<Seq<char>> {
    let w2 = after_mover(w, p, now);
    let peers = Set::new(
        |c: Seq<char>|
            added_of(w, p, now).contains(c) && peer_promotes(w2, p.id, c)
                && w.client_to_conn.dom().contains(c),
    );
    if mover_changed(w, p, now) {
        peers.insert(p.id)
    } else {
        peers
    }
}

/// A nearby set depends only on the positions and on the reference
/// client's own cached set.
pub proof fn lemma_nearby_depends(wa: WorldView, wb: WorldView, p: PosData)
    requires
        wa.positions == wb.positions,
        prev_of(wa, p.id) == prev_of(wb, p.id),
    ensures
        nearby_set(wa, p) == nearby_set(wb, p),
{
    assert(nearby_set(wa, p) =~= nearby_set(wb, p));
}

/// Whether two duplicate-free identifier vectors hold the same set.
pub(crate) fn vec_sets_equal(a: &Vec<String>, b: &Vec<String>) -> (r: bool)
    ensures
        r == (a.deep_view().to_set() == b.deep_view().to_set()),
{
    let mut i: usize = 0;
    while i < a.len()
        invariant
            i <= a@.len(),
            forall|j: int| 0 <= j < i ==> b.deep_view().contains(#[trigger] a.deep_view()[j]),
        decreases a@.len() - i,
    {
        if !contains_string(b, &a[i]) {
            proof {
                assert(a.deep_view().to_set().contains(a.deep_view()[i as int]));
                assert(!b.deep_view().to_set().contains(a.deep_view()[i as int]));
            }
            return false;
        }
        i = i + 1;
    }
    let mut j: usize = 0;
    while j < b.len()
        invariant
            j <= b@.len(),
            forall|l: int| 0 <= l < a.deep_view().len() ==> b.deep_view().contains(
                #[trigger] a.deep_view()[l],
            ),
            forall|l: int| 0 <= l < j ==> a.deep_view().contains(#[trigger] b.deep_view()[l]),
        decreases b@.len() - j,
    {
        if !contains_string(a, &b[j]) {
            proof {
                assert(b.deep_view().to_set().contains(b.deep_view()[j as int]));
                assert(!a.deep_view().to_set().contains(b.deep_view()[j as int]));
            }
            return false;
        }
        j = j + 1;
    }
    proof {
        assert(a.deep_view().to_set() =~= b.deep_view().to_set());
    }
    true
}

impl ServerState {
    /// Apply a position update by the client named in `pos` at time
    /// `now`, refresh the caches the update genuinely changes, and
    /// return the clients owed a fresh nearby-set notification.
    pub fn update_position_and_notify(&mut self, pos: &ClientPosition, now: u64) -> (targets: Vec<
        String,
    >)
        requires
            old(self).wf(),
        ensures
            final(self).wf(),
            final(self)@ == after_update(old(self)@, pos@, now as int),
            targets.deep_view().to_set() == update_notifies(old(self)@, pos@, now as int),
            nearby_vec_wf(targets.deep_view()),
    {
        let ghost w0 = self@;
        let ghost p = pos@;
        let ghost nowi = now as int;

        // Write the mover's position and update time; a fresh client
        // starts with an empty cached nearby set.
        match self.find_client_index(&pos.client_id) {
            Some(i) => {
                proof {
                    lemma_clients_doms(self.clients@);
                    lemma_clients_index(self.clients@, i as int);
                    lemma_clients_remove(self.clients@, i as int);
                }
                let mut rec = self.clients.remove(i);
                let ghost mid = self.clients@;
                rec.pos = pos.clone();
                rec.last_update = now;
                proof {
                    lemma_clients_push(mid, rec);
                    crate::kv::lemma_distinct_push(mid, rkey(), crate::world::rposf(), rec);
                }
                self.clients.push(rec);
            },
            None => {
                let rec = ClientRecord {
                    pos: pos.clone(),
                    last_update: now,
                    last_nearby: Vec::new(),
                };
                proof {
                    lemma_clients_doms(self.clients@);
                    lemma_clients_push(self.clients@, rec);
                    crate::kv::lemma_distinct_push(
                        self.clients@,
                        rkey(),
                        crate::world::rposf(),
                        rec,
                    );
                    assert(rec.last_nearby.deep_view().to_set() =~= Set::<Seq<char>>::empty());
                }
                self.clients.push(rec);
            },
        }
        let ghost w1v = with_mover(w0, p, nowi);
        proof {
            assert(self@.positions =~= w1v.positions);
            assert(self@.last_update =~= w1v.last_update);
            assert(self@.last_nearby =~= w1v.last_nearby);
            assert(self@ == w1v);
            assert(self.wf());
        }

        // The mover now sits at the end of the record vector.
        let mover_i = self.clients.len() - 1;
        proof {
            assert(self.clients@[mover_i as int].pos.client_id@ == p.id);
            lemma_clients_index(self.clients@, mover_i as int);
            assert(self.clients@[mover_i as int].last_nearby.deep_view().to_set() == prev_of(
                w1v,
                p.id,
            ));
            assert(prev_of(w1v, p.id) == mover_prev(w0, p));
        }
        let ghost prevs = mover_prev(w0, p);

        // The mover's fresh nearby set under hysteresis.
        let next = self.get_nearby_clients_with_hysteresis(pos);
        let ghost next_set = next.deep_view().to_set();
        proof {
            assert(next_set == mover_next(w0, p, nowi));
        }

        let changed = !vec_sets_equal(&self.clients[mover_i].last_nearby, &next);
        proof {
            assert(changed == mover_changed(w0, p, nowi));
        }

        // The peers newly entering the mover's set.
        let mut added: Vec<String> = Vec::new();
        let mut t: usize = 0;
        while t < next.len()
            invariant
                t <= next@.len(),
                mover_i < self.clients@.len(),
                self.clients@[mover_i as int].last_nearby.deep_view().to_set() == prevs,
                nearby_vec_wf(next.deep_view()),
                forall|c: Seq<char>|
                    #[trigger] added.deep_view().to_set().contains(c) <==> (prefix_has(
                        next.deep_view(),
                        t as int,
                        c,
                    ) && !prevs.contains(c)),
                nearby_vec_wf(added.deep_view()),
            decreases next@.len() - t,
        {
            if !contains_string(&self.clients[mover_i].last_nearby, &next[t]) {
                let ghost old_added = added.deep_view();
                proof {
                    if added.deep_view().to_set().contains(next.deep_view()[t as int]) {
                        let l = choose|l: int|
                            0 <= l < t && next.deep_view()[l] == next.deep_view()[t as int];
                        assert(false);
                    }
                }
                added.push(next[t].clone());
                proof {
                    assert(added.deep_view() =~= old_added.push(next.deep_view()[t as int]));
                    old_added.lemma_push_to_set_commute(next.deep_view()[t as int]);
                }
            }
            proof {
                assert forall|c: Seq<char>|
                    #[trigger] added.deep_view().to_set().contains(c) <==> (prefix_has(
                        next.deep_view(),
                        t as int + 1,
                        c,
                    ) && !prevs.contains(c)) by {
                    if prefix_has(next.deep_view(), t as int + 1, c) && !prevs.contains(c) {
                        let l = choose|l: int|
                            0 <= l < t + 1 && next.deep_view()[l] == c;
                    }
                }
            }
            t = t + 1;
        }
        proof {
            assert forall|c: Seq<char>|
                #[trigger] added.deep_view().to_set().contains(c) <==> added_of(
                    w0,
                    p,
                    nowi,
                ).contains(c) by {
                if next_set.contains(c) && !prevs.contains(c) {
                    assert(next.deep_view().contains(c));
                    let l = choose|l: int|
                        0 <= l < next.deep_view().len() && next.deep_view()[l] == c;
                    assert(prefix_has(next.deep_view(), next.deep_view().len() as int, c));
                }
                if prefix_has(next.deep_view(), next.deep_view().len() as int, c) {
                    let l = choose|l: int|
                        0 <= l < next.deep_view().len() && next.deep_view()[l] == c;
                    assert(next.deep_view().contains(c));
                }
            }
            assert(added.deep_view().to_set() =~= added_of(w0, p, nowi));
        }

        // Refresh the mover's cache and queue its notification only on
        // a genuine change.
        let mut targets: Vec<String> = Vec::new();
        if changed {
            proof {
                lemma_clients_index(self.clients@, mover_i as int);
                lemma_clients_remove(self.clients@, mover_i as int);
            }
            let mut rec = self.clients.remove(mover_i);
            let ghost mid = self.clients@;
            rec.last_nearby = next;
            proof {
                lemma_clients_push(mid, rec);
                crate::kv::lemma_distinct_push(mid, rkey(), crate::world::rposf(), rec);
            }
            self.clients.push(rec);
            targets.push(pos.client_id.clone());
            proof {
                assert(targets.deep_view() =~= Seq::<Seq<char>>::empty().push(p.id));
                Seq::<Seq<char>>::empty().lemma_push_to_set_commute(p.id);
            }
        }
        let ghost w2v = after_mover(w0, p, nowi);
        proof {
            assert(self@.positions =~= w2v.positions);
            assert(self@.last_update =~= w2v.last_update);
            assert(self@.last_nearby =~= w2v.last_nearby);
            assert(self@ == w2v);
            assert(self.wf());
            assert(targets.deep_view().to_set() =~= (if mover_changed(w0, p, nowi) {
                Set::<Seq<char>>::empty().insert(p.id)
            } else {
                Set::<Seq<char>>::empty()
            }));
            // The mover never appears among the added peers.
            if added_of(w0, p, nowi).contains(p.id) {
                assert(is_nearby(p, prevs, w1v.positions[p.id]));
                assert(w1v.positions[p.id].id == p.id);
                assert(false);
            }
        }

        // Introduce the mover to each newly added peer whose own view
        // genuinely gains the mover.
        let mut k: usize = 0;
        while k < added.len()
            invariant
                self.wf(),
                k <= added@.len(),
                p == pos@,
                nowi == now as int,
                w1v == with_mover(w0, p, nowi),
                w2v == after_mover(w0, p, nowi),
                added.deep_view().to_set() == added_of(w0, p, nowi),
                nearby_vec_wf(added.deep_view()),
                !added.deep_view().contains(p.id),
                self@.positions == w2v.positions,
                self@.last_update == w2v.last_update,
                self@.client_to_conn == w2v.client_to_conn,
                self@.connections == w2v.connections,
                self@.last_nearby.dom() == w2v.last_nearby.dom(),
                w2v.client_to_conn == w0.client_to_conn,
                forall|c: Seq<char>|
                    #[trigger] self@.last_nearby.dom().contains(c) ==> self@.last_nearby[c] == (
                    if prefix_has(added.deep_view(), k as int, c) && peer_promotes(w2v, p.id, c) {
                        nearby_set(w2v, w2v.positions[c])
                    } else {
                        w2v.last_nearby[c]
                    }),
                forall|c: Seq<char>|
                    #[trigger] targets.deep_view().to_set().contains(c) <==> ((mover_changed(
                        w0,
                        p,
                        nowi,
                    ) && c == p.id) || (prefix_has(added.deep_view(), k as int, c)
                        && peer_promotes(w2v, p.id, c) && w0.client_to_conn.dom().contains(c))),
                nearby_vec_wf(targets.deep_view()),
            decreases added@.len() - k,
        {
            let ghost qc = added.deep_view()[k as int];
            proof {
                assert(added.deep_view().to_set().contains(qc));
                assert(added_of(w0, p, nowi).contains(qc));
                assert(mover_next(w0, p, nowi).contains(qc));
                assert(nearby_set(w1v, p).contains(qc));
                assert(w1v.positions.dom().contains(qc) && is_nearby(
                    p,
                    prev_of(w1v, p.id),
                    w1v.positions[qc],
                ));
                assert(!prefix_has(added.deep_view(), k as int, qc));
                lemma_clients_doms(self.clients@);
            }
            match self.find_client_index(&added[k]) {
                Some(qi) => {
                    proof {
                        assert(added.deep_view()[k as int] == added@[k as int]@);
                        assert(self@.positions.dom().contains(qc));
                        assert(self@.last_nearby.dom().contains(qc));
                        assert(w2v.last_nearby.dom().contains(qc));
                        lemma_clients_index(self.clients@, qi as int);
                        assert(self.clients@[qi as int].pos@.id == qc);
                        assert(self@.last_nearby[qc] == self.clients@[
                            qi as int
                        ].last_nearby.deep_view().to_set());
                        assert(self@.last_nearby[qc] == w2v.last_nearby[qc]);
                    }
                    let already = contains_string(
                        &self.clients[qi].last_nearby,
                        &pos.client_id,
                    );
                    proof {
                        assert(already == self.clients@[
                            qi as int
                        ].last_nearby.deep_view().contains(p.id));
                        assert(self.clients@[qi as int].last_nearby.deep_view().to_set().contains(
                            p.id,
                        ) == already);
                        assert(prev_of(w2v, qc) == w2v.last_nearby[qc]);
                        assert(already == prev_of(w2v, qc).contains(p.id));
                    }
                    if !already {
                        let peer_next = self.get_nearby_clients_with_hysteresis(
                            &self.clients[qi].pos,
                        );
                        proof {
                            assert(self.clients@[qi as int].pos@ == self@.positions[qc]);
                            lemma_nearby_depends(self@, w2v, self.clients@[qi as int].pos@);
                            assert(peer_next.deep_view().to_set() == nearby_set(
                                w2v,
                                w2v.positions[qc],
                            ));
                        }
                        let has_mover = contains_string(&peer_next, &pos.client_id);
                        if has_mover {
                            proof {
                                assert(peer_promotes(w2v, p.id, qc));
                                lemma_clients_index(self.clients@, qi as int);
                                lemma_clients_remove(self.clients@, qi as int);
                            }
                            let mut rec = self.clients.remove(qi);
                            let ghost mid = self.clients@;
                            rec.last_nearby = peer_next;
                            proof {
                                lemma_clients_push(mid, rec);
                                crate::kv::lemma_distinct_push(
                                    mid,
                                    rkey(),
                                    crate::world::rposf(),
                                    rec,
                                );
                            }
                            self.clients.push(rec);
                            proof {
                                assert(self@.positions =~= w2v.positions);
                                assert(self@.last_update =~= w2v.last_update);
                                assert(self@.last_nearby.dom() =~= w2v.last_nearby.dom());
                            }
                            match self.find_route_index(&added[k]) {
                                Some(ri) => {
                                    let ghost old_targets = targets.deep_view();
                                    proof {
                                        crate::kv::lemma_assoc_index(
                                            self.client_to_conn@,
                                            crate::world::mkey(),
                                            crate::world::mval(),
                                            ri as int,
                                        );
                                        if targets.deep_view().to_set().contains(qc) {
                                            assert(false);
                                        }
                                    }
                                    targets.push(added[k].clone());
                                    proof {
                                        assert(targets.deep_view() =~= old_targets.push(qc));
                                        old_targets.lemma_push_to_set_commute(qc);
                                        assert(self@.client_to_conn.dom().contains(qc));
                                    }
                                },
                                None => {
                                    proof {
                                        assert(!w0.client_to_conn.dom().contains(qc));
                                    }
                                },
                            }
                        } else {
                            proof {
                                assert(!peer_promotes(w2v, p.id, qc));
                            }
                        }
                    } else {
                        proof {
                            assert(!peer_promotes(w2v, p.id, qc));
                        }
                    }
                },
                None => {
                    proof {
                        assert(false);
                    }
                },
            }
            proof {
                assert forall|c: Seq<char>| prefix_has(
                    added.deep_view(),
                    k as int + 1,
                    c,
                ) implies (c == qc || prefix_has(added.deep_view(), k as int, c)) by {
                    let l = choose|l: int| 0 <= l < k + 1 && added.deep_view()[l] == c;
                }
            }
            k = k + 1;
        }
        proof {
            assert forall|c: Seq<char>| prefix_has(
                added.deep_view(),
                added.deep_view().len() as int,
                c,
            ) <==> added_of(w0, p, nowi).contains(c) by {
                if added_of(w0, p, nowi).contains(c) {
                    assert(added.deep_view().to_set().contains(c));
                    let l = choose|l: int|
                        0 <= l < added.deep_view().len() && added.deep_view()[l] == c;
                }
                if prefix_has(added.deep_view(), added.deep_view().len() as int, c) {
                    let l = choose|l: int|
                        0 <= l < added.deep_view().len() && added.deep_view()[l] == c;
                    assert(added.deep_view().contains(c));
                }
            }
            assert(self@.last_nearby =~= after_update(w0, p, nowi).last_nearby);
            assert(self@ == after_update(w0, p, nowi));
            assert(targets.deep_view().to_set() =~= update_notifies(w0, p, nowi));
        }
        targets
    }
}

} // verus!
