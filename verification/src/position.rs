//! Positions of clients in the tiled world, and the squared-distance
//! arithmetic the proximity predicate is built on.

use vstd::prelude::*;
use crate::{INTRODUCTION_RADIUS_SQUARED, DISCONNECTION_RADIUS_SQUARED};

verus! {

/// A client's position report: which map, channel and cohort it is in,
/// and its tile coordinates there.
pub struct ClientPosition {
    pub client_id: String,
    pub map_id: i32,
    pub x: i32,
    pub y: i32,
    pub channel: i32,
    pub game_id: i32,
}

/// The mathematical image of a position record: the identifier as a
/// character sequence and the coordinates as unbounded integers.
pub struct PosData {
    pub id: Seq<char>,
    pub map_id: int,
    pub x: int,
    pub y: int,
    pub channel: int,
    pub game_id: int,
}

impl View for ClientPosition {
    type V = PosData;

    open spec fn view(&self) -> PosData {
        PosData {
            id: self.client_id@,
            map_id: self.map_id as int,
            x: self.x as int,
            y: self.y as int,
            channel: self.channel as int,
            game_id: self.game_id as int,
        }
    }
}

impl Clone for ClientPosition {
    fn clone(&self) -> (r: Self)
        ensures
            r@ == self@,
    {
        ClientPosition {
            client_id: self.client_id.clone(),
            map_id: self.map_id,
            x: self.x,
            y: self.y,
            channel: self.channel,
            game_id: self.game_id,
        }
    }
}

/// Squared Euclidean distance between two positions.
pub open spec fn dist_sq(a: PosData, b: PosData) -> int {
    (a.x - b.x) * (a.x - b.x) + (a.y - b.y) * (a.y - b.y)
}

/// The two positions agree on map, channel and cohort, and do not name
/// the same client.
pub open spec fn passes_filters(p: PosData, q: PosData) -> bool {
    &&& q.id != p.id
    &&& q.map_id == p.map_id
    &&& q.channel == p.channel
    &&& q.game_id == p.game_id
}

/// The hysteresis band: a peer already in the cached nearby set stays
/// until it crosses the disconnection radius; a new peer enters only
/// inside the introduction radius.
pub open spec fn within_band(p: PosData, was_nearby: bool, q: PosData) -> bool {
    dist_sq(p, q) <= if was_nearby {
        DISCONNECTION_RADIUS_SQUARED as int
    } else {
        INTRODUCTION_RADIUS_SQUARED as int
    }
}

/// The full proximity predicate, evaluated per candidate: `q` is nearby
/// `p` given that `prev` is `p`'s cached nearby set.
pub open spec fn is_nearby(p: PosData, prev: Set<Seq<char>>, q: PosData) -> bool {
    passes_filters(p, q) && within_band(p, prev.contains(q.id), q)
}

/// Squared distance is symmetric.
pub proof fn lemma_dist_symmetric(a: PosData, b: PosData)
    ensures
        dist_sq(a, b) == dist_sq(b, a),
{
    assert((a.x - b.x) * (a.x - b.x) == (b.x - a.x) * (b.x - a.x)) by (nonlinear_arith);
    assert((a.y - b.y) * (a.y - b.y) == (b.y - a.y) * (b.y - a.y)) by (nonlinear_arith);
}

/// Squared distance, promoted to a width where squaring cannot overflow.
pub fn distance_squared(a: &ClientPosition, b: &ClientPosition) -> (r: i128)
    ensures
        r as int == dist_sq(a@, b@),
{
    let dx: i128 = a.x as i128 - b.x as i128;
    let dy: i128 = a.y as i128 - b.y as i128;
    proof {
        assert(dx * dx <= 0x10000000000000000i128 && dx * dx >= 0) by (nonlinear_arith)
            requires
                -0x100000000i128 <= dx <= 0x100000000i128,
        ;
        assert(dy * dy <= 0x10000000000000000i128 && dy * dy >= 0) by (nonlinear_arith)
            requires
                -0x100000000i128 <= dy <= 0x100000000i128,
        ;
    }
    dx * dx + dy * dy
}

} // verus!
