//! The world state: one coherent store of positions, liveness
//! timestamps, cached nearby sets, connection sinks and the mapping
//! from client identifiers to connection identifiers.
//!
//! The store is a single object; its five indexes are projections of
//! three vectors of uniquely keyed entries, so mutations are atomic
//! across indexes by construction.

use vstd::prelude::*;
use crate::kv::{assoc_map, key_distinct, lemma_assoc_dom, lemma_assoc_index, lemma_assoc_push,
    lemma_assoc_remove, lemma_assoc_update, lemma_distinct_push, lemma_distinct_remove,
    lemma_distinct_update};
use crate::position::{ClientPosition, PosData};
use crate::messages::ServerMessage;
use crate::outside::mint_conn_id;

verus! {

/// A position-bearing client: its latest position report, the time of
/// its latest update, and the nearby set it was last told about.
pub struct ClientRecord {
    pub pos: ClientPosition,
    pub last_update: u64,
    pub last_nearby: Vec<String>,
}

/// A live connection: the server-minted connection identifier and the
/// bounded outbound queue toward that client.
pub struct ConnEntry {
    pub conn_id: String,
    pub sink: tokio::sync::mpsc::Sender<ServerMessage>,
}

/// The routing entry from a client identifier to the connection it is
/// currently registered on.
pub struct ClientConn {
    pub client_id: String,
    pub conn_id: String,
}

/// The mathematical image of the world state: five maps and sets over
/// character sequences. Sinks are opaque, so the connection index is
/// seen as the set of live connection identifiers.
#[verifier::ext_equal]
pub struct WorldView {
    pub positions: Map<Seq<char>, PosData>,
    pub last_update: Map<Seq<char>, int>,
    pub last_nearby: Map<Seq<char>, Set<Seq<char>>>,
    pub client_to_conn: Map<Seq<char>, Seq<char>>,
    pub connections: Set<Seq<char>>,
}

/// The key of a client record.
pub open spec fn rkey() -> spec_fn(ClientRecord) -> Seq<char> {
    |r: ClientRecord| r.pos@.id
}

/// The position a client record carries.
pub open spec fn rposf() -> spec_fn(ClientRecord) -> PosData {
    |r: ClientRecord| r.pos@
}

/// The update timestamp a client record carries.
pub open spec fn rtimef() -> spec_fn(ClientRecord) -> int {
    |r: ClientRecord| r.last_update as int
}

/// The cached nearby set a client record carries.
pub open spec fn rnearf() -> spec_fn(ClientRecord) -> Set<Seq<char>> {
    |r: ClientRecord| r.last_nearby.deep_view().to_set()
}

/// The key of a connection entry.
pub open spec fn ckey() -> spec_fn(ConnEntry) -> Seq<char> {
    |c: ConnEntry| c.conn_id@
}

/// Connection entries carry no observable value beside their key.
pub open spec fn cunit() -> spec_fn(ConnEntry) -> () {
    |c: ConnEntry| ()
}

/// The key of a routing entry.
pub open spec fn mkey() -> spec_fn(ClientConn) -> Seq<char> {
    |m: ClientConn| m.client_id@
}

/// The connection a routing entry points at.
pub open spec fn mval() -> spec_fn(ClientConn) -> Seq<char> {
    |m: ClientConn| m.conn_id@
}

/// The world state itself.
pub struct ServerState {
    pub clients: Vec<ClientRecord>,
    pub connections: Vec<ConnEntry>,
    pub client_to_conn: Vec<ClientConn>,
}

impl View for ServerState {
    type V = WorldView;

    open spec fn view(&self) -> WorldView {
        WorldView {
            positions: assoc_map(self.clients@, rkey(), rposf()),
            last_update: assoc_map(self.clients@, rkey(), rtimef()),
            last_nearby: assoc_map(self.clients@, rkey(), rnearf()),
            client_to_conn: assoc_map(self.client_to_conn@, mkey(), mval()),
            connections: assoc_map(self.connections@, ckey(), cunit()).dom(),
        }
    }
}

/// The resting invariants of the world: every stored position names its
/// own key, no client is its own neighbor, cached nearby sets only name
/// position-bearing clients, and every routed connection identifier is
/// live.
pub open spec fn inv(w: WorldView) -> bool {
    &&& forall|c: Seq<char>| #[trigger] w.positions.dom().contains(c) ==> w.positions[c].id == c
    &&& forall|c: Seq<char>| #[trigger] w.last_nearby.dom().contains(c) ==> !w.last_nearby[c].contains(c)
        && w.last_nearby[c].subset_of(w.positions.dom())
    &&& forall|c: Seq<char>| #[trigger] w.client_to_conn.dom().contains(c) ==> w.connections.contains(
        w.client_to_conn[c],
    )
}

/// The three client-keyed indexes always have the same keys.
pub open spec fn coherent(w: WorldView) -> bool {
    w.positions.dom() == w.last_update.dom() && w.positions.dom() == w.last_nearby.dom()
}

/// A cached nearby list holds each identifier at most once.
pub open spec fn nearby_vec_wf(s: Seq<Seq<char>>) -> bool {
    forall|p: int, q: int| 0 <= p < q < s.len() ==> s[p] != s[q]
}

impl ServerState {
    /// Well-formedness: the three vectors are uniquely keyed, cached
    /// nearby lists are duplicate-free, and the resting invariants hold.
    pub open spec fn wf(&self) -> bool {
        &&& key_distinct(self.clients@, rkey())
        &&& key_distinct(self.connections@, ckey())
        &&& key_distinct(self.client_to_conn@, mkey())
        &&& forall|i: int|
            0 <= i < self.clients@.len() ==> nearby_vec_wf(
                (#[trigger] self.clients@[i]).last_nearby.deep_view(),
            )
        &&& inv(self@)
    }
}

/// The three projections of the client vector share their domain, and a
/// key is in it exactly when some record carries it.
pub proof fn lemma_clients_doms(s: Seq<ClientRecord>)
    ensures
        assoc_map(s, rkey(), rposf()).dom() == assoc_map(s, rkey(), rtimef()).dom(),
        assoc_map(s, rkey(), rposf()).dom() == assoc_map(s, rkey(), rnearf()).dom(),
        forall|k: Seq<char>|
            assoc_map(s, rkey(), rposf()).dom().contains(k) <==> (exists|i: int|
                0 <= i < s.len() && (#[trigger] s[i]).pos@.id == k),
{
    lemma_assoc_dom(s, rkey(), rposf());
    lemma_assoc_dom(s, rkey(), rtimef());
    lemma_assoc_dom(s, rkey(), rnearf());
    assert forall|k: Seq<char>|
        assoc_map(s, rkey(), rposf()).dom().contains(k) <==> (exists|i: int|
            0 <= i < s.len() && (#[trigger] s[i]).pos@.id == k) by {
        assert forall|i: int| 0 <= i < s.len() implies rkey()(s[i]) == (#[trigger] s[i]).pos@.id by {}
    }
    assert(assoc_map(s, rkey(), rposf()).dom() =~= assoc_map(s, rkey(), rtimef()).dom());
    assert(assoc_map(s, rkey(), rposf()).dom() =~= assoc_map(s, rkey(), rnearf()).dom());
}

/// The record at index `i` gives the value of all three projections at
/// its key.
pub proof fn lemma_clients_index(s: Seq<ClientRecord>, i: int)
    requires
        key_distinct(s, rkey()),
        0 <= i < s.len(),
    ensures
        assoc_map(s, rkey(), rposf()).dom().contains(s[i].pos@.id),
        assoc_map(s, rkey(), rposf())[s[i].pos@.id] == s[i].pos@,
        assoc_map(s, rkey(), rtimef())[s[i].pos@.id] == s[i].last_update as int,
        assoc_map(s, rkey(), rnearf())[s[i].pos@.id] == s[i].last_nearby.deep_view().to_set(),
{
    lemma_assoc_index(s, rkey(), rposf(), i);
    lemma_assoc_index(s, rkey(), rtimef(), i);
    lemma_assoc_index(s, rkey(), rnearf(), i);
}

/// Appending a record inserts its key in all three projections.
pub proof fn lemma_clients_push(s: Seq<ClientRecord>, a: ClientRecord)
    ensures
        assoc_map(s.push(a), rkey(), rposf()) == assoc_map(s, rkey(), rposf()).insert(
            a.pos@.id,
            a.pos@,
        ),
        assoc_map(s.push(a), rkey(), rtimef()) == assoc_map(s, rkey(), rtimef()).insert(
            a.pos@.id,
            a.last_update as int,
        ),
        assoc_map(s.push(a), rkey(), rnearf()) == assoc_map(s, rkey(), rnearf()).insert(
            a.pos@.id,
            a.last_nearby.deep_view().to_set(),
        ),
{
    lemma_assoc_push(s, rkey(), rposf(), a);
    lemma_assoc_push(s, rkey(), rtimef(), a);
    lemma_assoc_push(s, rkey(), rnearf(), a);
}

/// Deleting the record at `i` removes its key from all three
/// projections.
pub proof fn lemma_clients_remove(s: Seq<ClientRecord>, i: int)
    requires
        key_distinct(s, rkey()),
        0 <= i < s.len(),
    ensures
        assoc_map(s.remove(i), rkey(), rposf()) == assoc_map(s, rkey(), rposf()).remove(
            s[i].pos@.id,
        ),
        assoc_map(s.remove(i), rkey(), rtimef()) == assoc_map(s, rkey(), rtimef()).remove(
            s[i].pos@.id,
        ),
        assoc_map(s.remove(i), rkey(), rnearf()) == assoc_map(s, rkey(), rnearf()).remove(
            s[i].pos@.id,
        ),
        key_distinct(s.remove(i), rkey()),
{
    lemma_assoc_remove(s, rkey(), rposf(), i);
    lemma_assoc_remove(s, rkey(), rtimef(), i);
    lemma_assoc_remove(s, rkey(), rnearf(), i);
    lemma_distinct_remove(s, rkey(), i);
}

impl ServerState {
    /// An empty world: no clients, no connections, no routes.
    pub fn new() -> (s: ServerState)
        ensures
            s.wf(),
            s@.positions == Map::<Seq<char>, PosData>::empty(),
            s@.last_update == Map::<Seq<char>, int>::empty(),
            s@.last_nearby == Map::<Seq<char>, Set<Seq<char>>>::empty(),
            s@.client_to_conn == Map::<Seq<char>, Seq<char>>::empty(),
            s@.connections == Set::<Seq<char>>::empty(),
    {
        let s = ServerState { clients: Vec::new(), connections: Vec::new(), client_to_conn: Vec::new() };
        proof {
            assert(s@.connections =~= Set::<Seq<char>>::empty());
        }
        s
    }

    /// Index of the record for `id`, if that client bears a position.
    pub(crate) fn find_client_index(&self, id: &String) -> (r: Option<usize>)
        ensures
            match r {
                Some(i) => i < self.clients@.len() && self.clients@[i as int].pos.client_id@ == id@,
                None => !self@.positions.dom().contains(id@),
            },
    {
        let mut i: usize = 0;
        while i < self.clients.len()
            invariant
                i <= self.clients@.len(),
                forall|j: int| 0 <= j < i ==> (#[trigger] self.clients@[j]).pos.client_id@ != id@,
            decreases self.clients@.len() - i,
        {
            if self.clients[i].pos.client_id == *id {
                return Some(i);
            }
            i = i + 1;
        }
        proof {
            lemma_clients_doms(self.clients@);
        }
        None
    }

    /// Index of the connection entry for `conn_id`, if it is live.
    pub(crate) fn find_conn_index(&self, conn_id: &String) -> (r: Option<usize>)
        ensures
            match r {
                Some(i) => i < self.connections@.len() && self.connections@[i as int].conn_id@
                    == conn_id@,
                None => !self@.connections.contains(conn_id@),
            },
    {
        let mut i: usize = 0;
        while i < self.connections.len()
            invariant
                i <= self.connections@.len(),
                forall|j: int| 0 <= j < i ==> (#[trigger] self.connections@[j]).conn_id@ != conn_id@,
            decreases self.connections@.len() - i,
        {
            if self.connections[i].conn_id == *conn_id {
                return Some(i);
            }
            i = i + 1;
        }
        proof {
            lemma_assoc_dom(self.connections@, ckey(), cunit());
        }
        None
    }

    /// Index of the routing entry for `client_id`, if it is routed.
    pub(crate) fn find_route_index(&self, client_id: &String) -> (r: Option<usize>)
        ensures
            match r {
                Some(i) => i < self.client_to_conn@.len() && self.client_to_conn@[i as int].client_id@
                    == client_id@,
                None => !self@.client_to_conn.dom().contains(client_id@),
            },
    {
        let mut i: usize = 0;
        while i < self.client_to_conn.len()
            invariant
                i <= self.client_to_conn@.len(),
                forall|j: int|
                    0 <= j < i ==> (#[trigger] self.client_to_conn@[j]).client_id@ != client_id@,
            decreases self.client_to_conn@.len() - i,
        {
            if self.client_to_conn[i].client_id == *client_id {
                return Some(i);
            }
            i = i + 1;
        }
        proof {
            lemma_assoc_dom(self.client_to_conn@, mkey(), mval());
        }
        None
    }

    /// Accept a transport connection: mint a connection identifier and
    /// store its outbound sink. Nothing else changes.
    pub fn register_connection(
        &mut self,
        sink: tokio::sync::mpsc::Sender<ServerMessage>,
    ) -> (conn_id: String)
        requires
            old(self).wf(),
        ensures
            final(self).wf(),
            final(self)@ == (WorldView {
                connections: old(self)@.connections.insert(conn_id@),
                ..old(self)@
            }),
            conn_id@.len() == 36,
    {
        let conn_id = mint_conn_id();
        let entry = ConnEntry { conn_id: conn_id.clone(), sink };
        match self.find_conn_index(&conn_id) {
            Some(i) => {
                proof {
                    lemma_assoc_update(self.connections@, ckey(), cunit(), i as int, entry);
                    lemma_distinct_update(self.connections@, ckey(), i as int, entry);
                }
                self.connections[i] = entry;
                proof {
                    assert(self@.connections =~= old(self)@.connections.insert(conn_id@));
                    assert(self@ == (WorldView {
                        connections: old(self)@.connections.insert(conn_id@),
                        ..old(self)@
                    }));
                }
            },
            None => {
                proof {
                    lemma_assoc_push(self.connections@, ckey(), cunit(), entry);
                    lemma_distinct_push(self.connections@, ckey(), cunit(), entry);
                }
                self.connections.push(entry);
                proof {
                    assert(self@.connections =~= old(self)@.connections.insert(conn_id@));
                    assert(self@ == (WorldView {
                        connections: old(self)@.connections.insert(conn_id@),
                        ..old(self)@
                    }));
                }
            },
        }
        conn_id
    }
}

} // verus!
