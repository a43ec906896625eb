//! The proximity engine: given a reference position and the world,
//! compute the set of nearby clients under the hysteresis predicate.

use vstd::prelude::*;
use crate::{INTRODUCTION_RADIUS_SQUARED, DISCONNECTION_RADIUS_SQUARED};
use crate::position::{ClientPosition, PosData, is_nearby, distance_squared};
use crate::world::{ServerState, WorldView, nearby_vec_wf, rkey, lemma_clients_doms,
    lemma_clients_index};

verus! {

/// The cached nearby set of `id`, or the empty set if `id` bears none.
pub open spec fn prev_of(w: WorldView, id: Seq<char>) -> Set<Seq<char>> {
    if w.last_nearby.dom().contains(id) {
        w.last_nearby[id]
    } else {
        Set::empty()
    }
}

/// The nearby set of a reference position against a world: every
/// position-bearing client that passes the filters and the hysteresis
/// band, judged against the reference client's cached set.
pub open spec fn nearby_set(w: WorldView, p: PosData) -> Set<Seq<char>> {
    Set::new(
        |c: Seq<char>| w.positions.dom().contains(c) && is_nearby(p, prev_of(w, p.id), w.positions[c]),
    )
}

/// Whether a vector of identifiers holds one equal to `s`.
pub(crate) fn contains_string(v: &Vec<String>, s: &String) -> (r: bool)
    ensures
        r == v.deep_view().contains(s@),
{
    let mut i: usize = 0;
    while i < v.len()
        invariant
            i <= v@.len(),
            forall|j: int| 0 <= j < i ==> v.deep_view()[j] != s@,
        decreases v@.len() - i,
    {
        if v[i] == *s {
            assert(v.deep_view()[i as int] == s@);
            return true;
        }
        i = i + 1;
    }
    false
}

impl ServerState {
    /// The nearby clients of `pos`: peers on the same map, channel and
    /// cohort, inside the disconnection radius if cached as nearby and
    /// inside the introduction radius otherwise.
    pub fn get_nearby_clients_with_hysteresis(&self, pos: &ClientPosition) -> (r: Vec<String>)
        requires
            self.wf(),
        ensures
            r.deep_view().to_set() == nearby_set(self@, pos@),
            nearby_vec_wf(r.deep_view()),
            !r.deep_view().contains(pos@.id),
            r.deep_view().to_set().subset_of(self@.positions.dom()),
    {
        let ghost prev_set = prev_of(self@, pos@.id);
        let mover_idx = self.find_client_index(&pos.client_id);
        proof {
            lemma_clients_doms(self.clients@);
        }
        let mut out: Vec<String> = Vec::new();
        let mut i: usize = 0;
        while i < self.clients.len()
            invariant
                self.wf(),
                i <= self.clients@.len(),
                prev_set == prev_of(self@, pos@.id),
                match mover_idx {
                    Some(pi) => pi < self.clients@.len() && self.clients@[
                        pi as int
                    ].pos.client_id@ == pos.client_id@,
                    None => !self@.positions.dom().contains(pos@.id),
                },
                forall|j: int|
                    0 <= j < i ==> (out.deep_view().to_set().contains(
                        (#[trigger] self.clients@[j]).pos@.id,
                    ) <==> is_nearby(pos@, prev_set, self.clients@[j].pos@)),
                forall|c: Seq<char>|
                    #[trigger] out.deep_view().to_set().contains(c) ==> exists|j: int|
                        0 <= j < i && (#[trigger] self.clients@[j]).pos@.id == c && is_nearby(
                            pos@,
                            prev_set,
                            self.clients@[j].pos@,
                        ),
                nearby_vec_wf(out.deep_view()),
            decreases self.clients@.len() - i,
        {
            let passes = !(self.clients[i].pos.client_id == pos.client_id)
                && self.clients[i].pos.map_id == pos.map_id && self.clients[i].pos.channel
                == pos.channel && self.clients[i].pos.game_id == pos.game_id;
            let mut take = false;
            if passes {
                let d = distance_squared(pos, &self.clients[i].pos);
                let was = match mover_idx {
                    Some(pi) => contains_string(
                        &self.clients[pi].last_nearby,
                        &self.clients[i].pos.client_id,
                    ),
                    None => false,
                };
                proof {
                    lemma_clients_doms(self.clients@);
                    match mover_idx {
                        Some(pi) => {
                            lemma_clients_index(self.clients@, pi as int);
                            assert(self@.last_nearby.dom().contains(pos@.id));
                            assert(prev_set == self.clients@[
                                pi as int
                            ].last_nearby.deep_view().to_set());
                        },
                        None => {
                            assert(!self@.last_nearby.dom().contains(pos@.id));
                        },
                    }
                    assert(was == prev_set.contains(self.clients@[i as int].pos@.id));
                }
                take = if was {
                    d <= DISCONNECTION_RADIUS_SQUARED
                } else {
                    d <= INTRODUCTION_RADIUS_SQUARED
                };
            }
            proof {
                assert(take == is_nearby(pos@, prev_set, self.clients@[i as int].pos@));
                if out.deep_view().to_set().contains(self.clients@[i as int].pos@.id) {
                    let j = choose|j: int|
                        0 <= j < i && (#[trigger] self.clients@[j]).pos@.id == self.clients@[
                            i as int
                        ].pos@.id && is_nearby(pos@, prev_set, self.clients@[j].pos@);
                    assert(rkey()(self.clients@[j]) == rkey()(self.clients@[i as int]));
                    assert(false);
                }
            }
            if take {
                let ghost old_out = out.deep_view();
                out.push(self.clients[i].pos.client_id.clone());
                proof {
                    assert(out.deep_view() =~= old_out.push(self.clients@[i as int].pos@.id));
                    old_out.lemma_push_to_set_commute(self.clients@[i as int].pos@.id);
                    assert(out.deep_view().to_set() =~= old_out.to_set().insert(
                        self.clients@[i as int].pos@.id,
                    ));
                    assert(self.clients@[i as int].pos@.id == self.clients@[i as int].pos@.id);
                    assert(exists|j: int|
                        0 <= j < i + 1 && (#[trigger] self.clients@[j]).pos@.id == self.clients@[
                            i as int
                        ].pos@.id && is_nearby(pos@, prev_set, self.clients@[j].pos@));
                }
            }
            i = i + 1;
        }
        proof {
            assert forall|c: Seq<char>| #[trigger] out.deep_view().to_set().contains(c) implies
                nearby_set(self@, pos@).contains(c) by {
                let j = choose|j: int|
                    0 <= j < self.clients@.len() && (#[trigger] self.clients@[j]).pos@.id == c
                        && is_nearby(pos@, prev_set, self.clients@[j].pos@);
                lemma_clients_index(self.clients@, j);
            }
            assert forall|c: Seq<char>| #[trigger] nearby_set(self@, pos@).contains(c) implies
                out.deep_view().to_set().contains(c) by {
                let j = choose|j: int|
                    0 <= j < self.clients@.len() && (#[trigger] self.clients@[j]).pos@.id == c;
                lemma_clients_index(self.clients@, j);
            }
            assert(out.deep_view().to_set() =~= nearby_set(self@, pos@));
            assert(!out.deep_view().contains(pos@.id)) by {
                if out.deep_view().contains(pos@.id) {
                    assert(out.deep_view().to_set().contains(pos@.id));
                }
            }
        }
        out
    }
}

} // verus!
