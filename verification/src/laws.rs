//! The library's quantified laws: the resting invariants of the world,
//! the idempotence of a repeated position update, the behaviour at the
//! hysteresis boundaries, and what a peer sees right after a
//! registration or a teardown.

use vstd::prelude::*;
use crate::{INTRODUCTION_RADIUS_SQUARED, DISCONNECTION_RADIUS_SQUARED};
use crate::position::{PosData, passes_filters, is_nearby, dist_sq, lemma_dist_symmetric};
use crate::world::{ServerState, WorldView, inv, coherent, lemma_clients_doms};
use crate::proximity::{nearby_set, prev_of};
use crate::planner::{with_mover, mover_prev, mover_next, mover_changed, added_of, after_mover,
    peer_promotes, after_update, update_notifies};
use crate::cleanup::cleanup_view;

verus! {

/// Coherence: the three client-keyed indexes of any world state share
/// their keys, mutator or no mutator.
pub proof fn lemma_coherence(s: &ServerState)
    ensures
        coherent(s@),
{
    lemma_clients_doms(s.clients@);
}

/// No self-neighbor: a well-formed world never lists a client in its
/// own cached nearby set.
pub proof fn lemma_no_self_neighbor(s: &ServerState)
    requires
        s.wf(),
    ensures
        forall|c: Seq<char>|
            #[trigger] s@.last_nearby.dom().contains(c) ==> !s@.last_nearby[c].contains(c),
{
}

/// Reflexive mapping: in a well-formed world, every routed client's
/// connection identifier names a live connection.
pub proof fn lemma_routes_live(s: &ServerState)
    requires
        s.wf(),
    ensures
        forall|c: Seq<char>|
            #[trigger] s@.client_to_conn.dom().contains(c) ==> s@.connections.contains(
                s@.client_to_conn[c],
            ),
{
}

/// Introduction symmetry for new peers: immediately after a position
/// update, every peer that newly entered the mover's nearby set (such a
/// peer is within the introduction radius) holds the mover in its own
/// cached set.
pub proof fn lemma_introduction_symmetry(w: WorldView, p: PosData, now: int, q: Seq<char>)
    requires
        inv(w),
        coherent(w),
        added_of(w, p, now).contains(q),
    ensures
        after_update(w, p, now).last_nearby.dom().contains(q),
        after_update(w, p, now).last_nearby[q].contains(p.id),
{
    let w1 = with_mover(w, p, now);
    let w2 = after_mover(w, p, now);
    let prev = mover_prev(w, p);
    assert(mover_next(w, p, now).contains(q));
    assert(w1.positions.dom().contains(q) && is_nearby(p, prev, w1.positions[q]));
    let qp = w1.positions[q];
    assert(q != p.id) by {
        if q == p.id {
            assert(w1.positions[p.id] == p);
        }
    }
    assert(qp == w.positions[q]);
    assert(qp.id == q);
    assert(!prev.contains(q));
    assert(dist_sq(p, qp) <= INTRODUCTION_RADIUS_SQUARED as int);
    assert(w2.positions == w1.positions);
    assert(w2.positions[q] == qp);
    assert(w2.last_nearby.dom().contains(q)) by {
        assert(w.last_nearby.dom().contains(q));
    }
    assert(prev_of(w2, q) == prev_of(w, q)) by {
        assert(w2.last_nearby[q] == w.last_nearby[q]);
    }
    if prev_of(w, q).contains(p.id) {
        // The mover was already in the peer's cached set, which the
        // update leaves in place or refreshes to a set holding it.
        if peer_promotes(w2, p.id, q) {
            assert(false);
        }
        assert(after_update(w, p, now).last_nearby[q] == w2.last_nearby[q]);
    } else {
        // The mover is genuinely new to the peer: within the
        // introduction radius it enters the peer's fresh set, and the
        // peer's cache is refreshed to that set.
        assert(nearby_set(w2, qp).contains(p.id)) by {
            assert(w2.positions.dom().contains(p.id));
            assert(w2.positions[p.id] == p);
            lemma_dist_symmetric(p, qp);
            assert(passes_filters(qp, p));
            assert(!prev_of(w2, qp.id).contains(p.id));
            assert(dist_sq(qp, p) <= INTRODUCTION_RADIUS_SQUARED as int);
            assert(is_nearby(qp, prev_of(w2, qp.id), w2.positions[p.id]));
        }
        assert(peer_promotes(w2, p.id, q));
        assert(after_update(w, p, now).last_nearby[q] == nearby_set(w2, w2.positions[q]));
    }
}

/// Idempotence of a repeated update: submitting the same position twice
/// in succession leaves every cached nearby set as the first update set
/// it, and the second update notifies no one.
pub proof fn lemma_update_idempotent(w: WorldView, p: PosData, now1: int, now2: int)
    requires
        inv(w),
    ensures
        after_update(after_update(w, p, now1), p, now2).positions == after_update(
            w,
            p,
            now1,
        ).positions,
        after_update(after_update(w, p, now1), p, now2).last_nearby == after_update(
            w,
            p,
            now1,
        ).last_nearby,
        after_update(after_update(w, p, now1), p, now2).client_to_conn == after_update(
            w,
            p,
            now1,
        ).client_to_conn,
        after_update(after_update(w, p, now1), p, now2).connections == after_update(
            w,
            p,
            now1,
        ).connections,
        update_notifies(after_update(w, p, now1), p, now2) == Set::<Seq<char>>::empty(),
{
    let w1 = after_update(w, p, now1);
    let prev = mover_prev(w, p);
    let next1 = mover_next(w, p, now1);
    // The mover never lists itself.
    assert(!next1.contains(p.id)) by {
        if next1.contains(p.id) {
            assert(with_mover(w, p, now1).positions[p.id] == p);
        }
    }
    // After the first update the mover's cached set is its fresh set.
    assert(prev_of(w1, p.id) == next1) by {
        let w2 = after_mover(w, p, now1);
        assert(w2.last_nearby.dom().contains(p.id));
        assert(!added_of(w, p, now1).contains(p.id));
        assert(w1.last_nearby.dom().contains(p.id));
        if mover_changed(w, p, now1) {
            assert(w2.last_nearby[p.id] == next1);
        } else {
            assert(next1 == prev);
            assert(w2.last_nearby[p.id] == prev_of(w, p.id));
        }
        assert(w1.last_nearby[p.id] == w2.last_nearby[p.id]);
    }
    // Both rounds judge candidates against the same positions.
    assert(w1.positions =~= with_mover(w, p, now1).positions);
    assert(with_mover(w1, p, now2).positions =~= with_mover(w, p, now1).positions);
    // The second fresh set equals the first: anything within its band
    // in one round is within it in the other.
    assert forall|c: Seq<char>| #[trigger] mover_next(w1, p, now2).contains(c) implies
        next1.contains(c) by {
        let wp = with_mover(w1, p, now2);
        assert(wp.positions.dom().contains(c) && is_nearby(p, next1, wp.positions[c]));
        let qp = wp.positions[c];
        assert(with_mover(w, p, now1).positions[c] == qp);
        assert(qp.id == c) by {
            if c != p.id {
                assert(qp == w.positions[c]);
            }
        }
        if !next1.contains(c) {
            assert(dist_sq(p, qp) <= INTRODUCTION_RADIUS_SQUARED as int);
            assert(is_nearby(p, prev, qp));
        }
    }
    assert forall|c: Seq<char>| #[trigger] next1.contains(c) implies mover_next(
        w1,
        p,
        now2,
    ).contains(c) by {
        let wp = with_mover(w1, p, now2);
        let qp = with_mover(w, p, now1).positions[c];
        assert(wp.positions[c] == qp);
        assert(is_nearby(p, prev, qp));
        assert(qp.id == c) by {
            if c != p.id {
                assert(qp == w.positions[c]);
            }
        }
        assert(dist_sq(p, qp) <= DISCONNECTION_RADIUS_SQUARED as int);
        assert(is_nearby(p, next1, qp));
    }
    assert(mover_next(w1, p, now2) =~= next1);
    assert(!mover_changed(w1, p, now2));
    assert(added_of(w1, p, now2) =~= Set::<Seq<char>>::empty());
    let w2b = after_mover(w1, p, now2);
    assert(w2b.last_nearby =~= w1.last_nearby);
    assert(after_update(w1, p, now2).last_nearby =~= w1.last_nearby);
    assert(after_update(w1, p, now2).positions =~= w1.positions);
    assert(update_notifies(w1, p, now2) =~= Set::<Seq<char>>::empty());
}

/// A fresh or reconnecting client is introduced at the introduction
/// radius: with an empty cached set, a candidate is nearby exactly when
/// it passes the filters and sits within the introduction radius.
pub proof fn lemma_introduction_radius(w: WorldView, p: PosData, b: Seq<char>)
    requires
        prev_of(w, p.id) == Set::<Seq<char>>::empty(),
    ensures
        nearby_set(w, p).contains(b) <==> (w.positions.dom().contains(b) && passes_filters(
            p,
            w.positions[b],
        ) && dist_sq(p, w.positions[b]) <= INTRODUCTION_RADIUS_SQUARED as int),
{
}

/// The hysteresis band: a cached peer stays nearby exactly while it is
/// within the disconnection radius, so moving outward through the band
/// keeps it and crossing the disconnection radius drops it.
pub proof fn lemma_hysteresis_band(w: WorldView, p: PosData, b: Seq<char>)
    requires
        inv(w),
        prev_of(w, p.id).contains(b),
        w.positions.dom().contains(b),
        passes_filters(p, w.positions[b]),
    ensures
        nearby_set(w, p).contains(b) <==> dist_sq(p, w.positions[b])
            <= DISCONNECTION_RADIUS_SQUARED as int,
{
    assert(w.positions[b].id == b);
}

/// The map, channel and cohort filters short-circuit before distance: a
/// candidate on another channel is never nearby, whatever the distance.
pub proof fn lemma_channel_filter(w: WorldView, p: PosData, b: Seq<char>)
    requires
        w.positions.dom().contains(b) ==> w.positions[b].channel != p.channel,
    ensures
        !nearby_set(w, p).contains(b),
{
}

/// After a connection's teardown, the departed client is judged afresh:
/// its own cached set is empty and it stands in no peer's cached set, so
/// every reintroduction uses the introduction radius, as for a client
/// never seen before.
pub proof fn lemma_reconnect_fresh(w: WorldView, conn: Seq<char>, reg: Seq<char>)
    ensures
        prev_of(cleanup_view(w, conn, Some(reg)), reg) == Set::<Seq<char>>::empty(),
        forall|q: Seq<char>| !(#[trigger] prev_of(cleanup_view(w, conn, Some(reg)), q)).contains(
            reg,
        ),
{
    let wc = cleanup_view(w, conn, Some(reg));
    assert(!wc.last_nearby.dom().contains(reg));
    assert forall|q: Seq<char>| !(#[trigger] prev_of(wc, q)).contains(reg) by {
        if wc.last_nearby.dom().contains(q) {
            assert(wc.last_nearby[q] == w.last_nearby[q].remove(reg));
        }
    }
}

} // verus!
