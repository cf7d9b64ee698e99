//! The engine's decision core: the connection and listener registries, the
//! pending-buffer bookkeeping, and the transitions the event loop takes for
//! each command and each observed socket change.
//!
//! The event loop around this core performs the outside work — it drives the
//! TCP/IP stack, moves datagrams through the tunnel and invokes the host's
//! callbacks — and hands every observation to these functions as plain
//! values: a connection identifier, a socket handle, whether the socket can
//! send, the bytes that arrived. Each transition states over the ghost model
//! [`EngineModel`] exactly how the registries change and which callback, if
//! any, fires.

use vstd::prelude::*;
use crate::ports::PortAllocator;
use crate::EngineError;

verus! {

/// Whether a connection was opened by this engine or accepted by one of its
/// listeners; decides the payload shape of the host callbacks.
#[derive(Clone, Copy, PartialEq, Eq, Structural, Debug)]
pub enum Flavor {
    Client,
    Server,
}

/// Ghost model of one registered connection.
#[verifier::ext_equal]
pub struct ConnModel {
    /// The stack socket handle the connection borrows.
    pub handle: u64,
    pub flavor: Flavor,
    /// Buffers submitted while the socket could not accept bytes, oldest
    /// first.
    pub pending: Seq<Seq<u8>>,
    /// Every buffer the host has submitted for this connection, in
    /// submission order.
    pub submitted: Seq<Seq<u8>>,
    /// The bytes handed to the stack socket so far, in order.
    pub pushed: Seq<u8>,
}

/// Ghost model of the whole engine state.
#[verifier::ext_equal]
pub struct EngineModel {
    pub conns: Map<u32, ConnModel>,
    /// Each registered listen port, mapped to its currently armed accepting
    /// socket handle.
    pub listeners: Map<u16, u64>,
    pub next_conn_id: u32,
    pub next_port: u16,
}

/// The concatenation of a sequence of byte buffers, in order.
pub open spec fn concat_all(bufs: Seq<Seq<u8>>) -> Seq<u8>
    decreases bufs.len(),
{
    if bufs.len() == 0 {
        Seq::empty()
    } else {
        bufs[0] + concat_all(bufs.drop_first())
    }
}

pub proof fn lemma_concat_all_push(bufs: Seq<Seq<u8>>, b: Seq<u8>)
    ensures
        concat_all(bufs.push(b)) == concat_all(bufs) + b,
    decreases bufs.len(),
{
    if bufs.len() == 0 {
        assert(bufs.push(b).drop_first() =~= Seq::<Seq<u8>>::empty());
        assert(bufs.push(b)[0] == b);
        assert(concat_all(bufs.push(b)) == b + concat_all(Seq::<Seq<u8>>::empty()));
        assert(concat_all(bufs.push(b)) =~= concat_all(bufs) + b);
    } else {
        assert(bufs.push(b).drop_first() =~= bufs.drop_first().push(b));
        lemma_concat_all_push(bufs.drop_first(), b);
        assert(concat_all(bufs.push(b)) =~= concat_all(bufs) + b);
    }
}

/// A connection's stream bookkeeping is consistent: what was handed to the
/// socket, followed by what is still pending, is exactly what was submitted.
pub open spec fn stream_ok(c: ConnModel) -> bool {
    c.pushed + concat_all(c.pending) == concat_all(c.submitted)
}

/// A connection record as it is first registered: nothing submitted,
/// nothing pending, nothing pushed.
pub open spec fn fresh_conn(handle: u64, flavor: Flavor) -> ConnModel {
    ConnModel {
        handle,
        flavor,
        pending: Seq::empty(),
        submitted: Seq::empty(),
        pushed: Seq::empty(),
    }
}

impl EngineModel {
    /// A handle is in use when a connection borrows it or a listener has it
    /// armed.
    pub open spec fn uses_handle(self, h: u64) -> bool {
        ||| exists|id: u32| self.conns.contains_key(id) && #[trigger] self.conns[id].handle == h
        ||| exists|p: u16| self.listeners.contains_key(p) && #[trigger] self.listeners[p] == h
    }

    /// The model invariant: identifiers were assigned by the counter, every
    /// live handle is borrowed by exactly one record, and every connection's
    /// stream bookkeeping is consistent.
    pub open spec fn wf(self) -> bool {
        &&& 1 <= self.next_conn_id
        &&& 49152 <= self.next_port
        &&& forall|id: u32|
            self.conns.contains_key(id) ==> 1 <= id < self.next_conn_id && stream_ok(
                #[trigger] self.conns[id],
            )
        &&& forall|id1: u32, id2: u32|
            self.conns.contains_key(id1) && self.conns.contains_key(id2) && id1 != id2
                ==> (#[trigger] self.conns[id1]).handle != (#[trigger] self.conns[id2]).handle
        &&& forall|p1: u16, p2: u16|
            self.listeners.contains_key(p1) && self.listeners.contains_key(p2) && p1 != p2
                ==> #[trigger] self.listeners[p1] != #[trigger] self.listeners[p2]
        &&& forall|id: u32, p: u16|
            self.conns.contains_key(id) && self.listeners.contains_key(p)
                ==> (#[trigger] self.conns[id]).handle != #[trigger] self.listeners[p]
    }
}

// The spec-level transitions. Each executable transition of [`Engine`]
// ensures that the new state's model is exactly the step applied to the old
// one, so the laws below speak for the executable code.

/// Registering a client connection: the next identifier is bound to a fresh
/// record borrowing the accepted socket's handle, and the counter advances.
pub open spec fn register_client_step(m: EngineModel, handle: u64) -> EngineModel {
    EngineModel {
        conns: m.conns.insert(m.next_conn_id, fresh_conn(handle, Flavor::Client)),
        next_conn_id: (m.next_conn_id + 1) as u32,
        ..m
    }
}

/// Whether a listen intent for the port is accepted: only when the port has
/// no listener yet.
pub open spec fn listen_fires(m: EngineModel, port: u16) -> bool {
    !m.listeners.contains_key(port)
}

/// Installing a listener arms the freshly bound accepting socket on the
/// port.
pub open spec fn listen_step(m: EngineModel, port: u16, handle: u64) -> EngineModel {
    if listen_fires(m, port) {
        EngineModel { listeners: m.listeners.insert(port, handle), ..m }
    } else {
        m
    }
}

/// Whether a submitted buffer is handed to the socket at once: the
/// connection exists, its socket can send, nothing older is pending, and
/// the socket's free send-buffer space takes the whole buffer.
pub open spec fn submit_pushes(
    m: EngineModel,
    id: u32,
    can_send: bool,
    room: usize,
    data: Seq<u8>,
) -> bool {
    m.conns.contains_key(id) && can_send && m.conns[id].pending.len() == 0 && data.len() <= room
}

/// A connection's record after one submission.
pub open spec fn submitted_conn(c: ConnModel, data: Seq<u8>, pushes: bool) -> ConnModel {
    if pushes {
        ConnModel { pushed: c.pushed + data, submitted: c.submitted.push(data), ..c }
    } else {
        ConnModel { pending: c.pending.push(data), submitted: c.submitted.push(data), ..c }
    }
}

/// Submitting a buffer: it is recorded as submitted, and either handed to
/// the socket now or queued behind the buffers already pending.
pub open spec fn submit_step(
    m: EngineModel,
    id: u32,
    can_send: bool,
    room: usize,
    data: Seq<u8>,
) -> EngineModel {
    if m.conns.contains_key(id) {
        EngineModel {
            conns: m.conns.insert(
                id,
                submitted_conn(m.conns[id], data, submit_pushes(m, id, can_send, room, data)),
            ),
            ..m
        }
    } else {
        m
    }
}

/// Whether one flush step hands bytes over: the connection exists, its
/// socket has become sendable with free space, and a buffer is waiting.
pub open spec fn flush_one_fires(m: EngineModel, id: u32, can_send: bool, room: usize) -> bool {
    m.conns.contains_key(id) && can_send && m.conns[id].pending.len() > 0 && room > 0
}

/// The bytes one flush step hands to the socket: the oldest pending buffer,
/// or as much of its front as the socket's free space takes.
pub open spec fn flushed_chunk(m: EngineModel, id: u32, room: usize) -> Seq<u8> {
    let head = m.conns[id].pending[0];
    if head.len() <= room {
        head
    } else {
        head.take(room as int)
    }
}

/// One flush step: the oldest pending buffer moves to the socket whole, or,
/// when the socket's free space is smaller, its front moves and the rest
/// stays at the head of the queue, so submission order is kept exactly.
pub open spec fn flush_one_step(m: EngineModel, id: u32, can_send: bool, room: usize) -> EngineModel {
    if flush_one_fires(m, id, can_send, room) {
        let c = m.conns[id];
        let head = c.pending[0];
        if head.len() <= room {
            EngineModel {
                conns: m.conns.insert(
                    id,
                    ConnModel { pending: c.pending.drop_first(), pushed: c.pushed + head, ..c },
                ),
                ..m
            }
        } else {
            EngineModel {
                conns: m.conns.insert(
                    id,
                    ConnModel {
                        pending: c.pending.update(0, head.skip(room as int)),
                        pushed: c.pushed + head.take(room as int),
                        ..c
                    },
                ),
                ..m
            }
        }
    } else {
        m
    }
}

/// Whether observing a socket in the closed state fires the on-close
/// callback: exactly when the connection is still registered.
pub open spec fn close_fires(m: EngineModel, id: u32) -> bool {
    m.conns.contains_key(id)
}

/// Whether bytes drained from a socket are delivered through on-data:
/// exactly when the connection is still registered.
pub open spec fn data_fires(m: EngineModel, id: u32) -> bool {
    m.conns.contains_key(id)
}

/// Observing the closed state destroys the record; the on-close callback
/// fires at that moment and never again.
pub open spec fn close_step(m: EngineModel, id: u32) -> EngineModel {
    EngineModel { conns: m.conns.remove(id), ..m }
}

/// Whether an established accepting socket graduates: only for a registered
/// listen port.
pub open spec fn graduate_fires(m: EngineModel, port: u16) -> bool {
    m.listeners.contains_key(port)
}

/// Graduation: the armed socket becomes a server connection under the next
/// identifier, and the port is rearmed with the replacement handle in the
/// same transition.
pub open spec fn graduate_step(m: EngineModel, port: u16, new_handle: u64) -> EngineModel {
    if graduate_fires(m, port) {
        EngineModel {
            conns: m.conns.insert(m.next_conn_id, fresh_conn(m.listeners[port], Flavor::Server)),
            listeners: m.listeners.insert(port, new_handle),
            next_conn_id: (m.next_conn_id + 1) as u32,
            ..m
        }
    } else {
        m
    }
}

/// The views of a sequence of byte buffers.
pub open spec fn views_of(bufs: Seq<Vec<u8>>) -> Seq<Seq<u8>> {
    Seq::new(bufs.len(), |i: int| bufs[i]@)
}

/// One registered connection as the engine stores it.
pub struct ConnEntry {
    pub id: u32,
    pub handle: u64,
    pub flavor: Flavor,
    pub pending: Vec<Vec<u8>>,
    pub submitted: Ghost<Seq<Seq<u8>>>,
    pub pushed: Ghost<Seq<u8>>,
}

impl View for ConnEntry {
    type V = ConnModel;

    open spec fn view(&self) -> ConnModel {
        ConnModel {
            handle: self.handle,
            flavor: self.flavor,
            pending: views_of(self.pending@),
            submitted: self.submitted@,
            pushed: self.pushed@,
        }
    }
}

/// One registered listen port with its armed accepting socket handle.
#[derive(Clone, Copy)]
pub struct ListenerEntry {
    pub port: u16,
    pub handle: u64,
}

pub open spec fn conn_ids_unique(s: Seq<ConnEntry>) -> bool {
    forall|i: int, j: int|
        0 <= i < s.len() && 0 <= j < s.len() && i != j ==> (#[trigger] s[i]).id != (
        #[trigger] s[j]).id
}

pub open spec fn conn_has_id(s: Seq<ConnEntry>, id: u32) -> bool {
    exists|i: int| 0 <= i < s.len() && (#[trigger] s[i]).id == id
}

pub open spec fn conn_idx(s: Seq<ConnEntry>, id: u32) -> int {
    choose|i: int| 0 <= i < s.len() && (#[trigger] s[i]).id == id
}

/// The registry a sequence of connection entries stands for.
pub open spec fn conns_map(s: Seq<ConnEntry>) -> Map<u32, ConnModel> {
    Map::new(|id: u32| conn_has_id(s, id), |id: u32| s[conn_idx(s, id)]@)
}

pub open spec fn port_list_unique(s: Seq<ListenerEntry>) -> bool {
    forall|i: int, j: int|
        0 <= i < s.len() && 0 <= j < s.len() && i != j ==> (#[trigger] s[i]).port != (
        #[trigger] s[j]).port
}

pub open spec fn has_port(s: Seq<ListenerEntry>, port: u16) -> bool {
    exists|i: int| 0 <= i < s.len() && (#[trigger] s[i]).port == port
}

pub open spec fn port_idx(s: Seq<ListenerEntry>, port: u16) -> int {
    choose|i: int| 0 <= i < s.len() && (#[trigger] s[i]).port == port
}

/// The listener registry a sequence of listener entries stands for.
pub open spec fn listeners_map(s: Seq<ListenerEntry>) -> Map<u16, u64> {
    Map::new(|port: u16| has_port(s, port), |port: u16| s[port_idx(s, port)].handle)
}

proof fn lemma_conn_at(s: Seq<ConnEntry>, i: int)
    requires
        conn_ids_unique(s),
        0 <= i < s.len(),
    ensures
        conns_map(s).contains_key(s[i].id),
        conns_map(s)[s[i].id] == s[i]@,
{
    assert(conn_has_id(s, s[i].id));
    let j = conn_idx(s, s[i].id);
    assert(0 <= j < s.len() && s[j].id == s[i].id);
    assert(j == i);
}

proof fn lemma_conn_absent(s: Seq<ConnEntry>, id: u32)
    requires
        forall|i: int| 0 <= i < s.len() ==> (#[trigger] s[i]).id != id,
    ensures
        !conns_map(s).contains_key(id),
{
}

proof fn lemma_conns_map_push(s: Seq<ConnEntry>, e: ConnEntry)
    requires
        conn_ids_unique(s),
        !conn_has_id(s, e.id),
    ensures
        conn_ids_unique(s.push(e)),
        conns_map(s.push(e)) == conns_map(s).insert(e.id, e@),
{
    let s2 = s.push(e);
    assert forall|i: int, j: int|
        0 <= i < s2.len() && 0 <= j < s2.len() && i != j implies (#[trigger] s2[i]).id != (
    #[trigger] s2[j]).id by {
        if i < s.len() && j < s.len() {
            assert(s2[i] == s[i] && s2[j] == s[j]);
        } else if i < s.len() {
            assert(s2[j] == e && s2[i] == s[i]);
        } else {
            assert(s2[i] == e && s2[j] == s[j]);
        }
    }
    assert forall|id: u32| #[trigger]
        conns_map(s2).contains_key(id) implies conns_map(s).insert(e.id, e@).contains_key(id) by {
        let i = conn_idx(s2, id);
        if i < s.len() {
            assert(s[i].id == id);
        }
    }
    assert forall|id: u32| #[trigger]
        conns_map(s).insert(e.id, e@).contains_key(id) implies conns_map(s2).contains_key(id)
        && conns_map(s2)[id] == conns_map(s).insert(e.id, e@)[id] by {
        if id == e.id {
            assert(s2[s.len() as int] == e);
            assert(conn_has_id(s2, id));
            let j = conn_idx(s2, id);
            assert(0 <= j < s2.len() && s2[j].id == id);
            if j < s.len() {
                assert(s[j].id == e.id);
                assert(conn_has_id(s, e.id));
            }
            assert(j == s.len());
            assert(conns_map(s2)[id] == e@);
        } else {
            let k = conn_idx(s, id);
            assert(0 <= k < s.len() && s[k].id == id);
            assert(s2[k].id == id);
            assert(conn_has_id(s2, id));
            let j = conn_idx(s2, id);
            assert(0 <= j < s2.len() && s2[j].id == id);
            assert(j != s.len());
            assert(s[j].id == id);
            assert(j == k);
            assert(conns_map(s2)[id] == s[k]@);
            lemma_conn_at(s, k);
        }
    }
    assert(conns_map(s2) =~= conns_map(s).insert(e.id, e@));
}

proof fn lemma_conns_map_update(s: Seq<ConnEntry>, i: int, e: ConnEntry)
    requires
        conn_ids_unique(s),
        0 <= i < s.len(),
        e.id == s[i].id,
    ensures
        conn_ids_unique(s.update(i, e)),
        conns_map(s.update(i, e)) == conns_map(s).insert(e.id, e@),
{
    let s2 = s.update(i, e);
    assert forall|p: int, q: int|
        0 <= p < s2.len() && 0 <= q < s2.len() && p != q implies (#[trigger] s2[p]).id != (
    #[trigger] s2[q]).id by {
        assert(s2[p].id == s[p].id && s2[q].id == s[q].id);
    }
    assert forall|id: u32| #[trigger]
        conns_map(s2).contains_key(id) implies conns_map(s).insert(e.id, e@).contains_key(id) by {
        let j = conn_idx(s2, id);
        assert(s[j].id == s2[j].id);
        assert(conn_has_id(s, id));
    }
    assert forall|id: u32| #[trigger]
        conns_map(s).insert(e.id, e@).contains_key(id) implies conns_map(s2).contains_key(id)
        && conns_map(s2)[id] == conns_map(s).insert(e.id, e@)[id] by {
        if id == e.id {
            assert(s2[i].id == id);
            assert(conn_has_id(s2, id));
            let j = conn_idx(s2, id);
            assert(0 <= j < s2.len() && s2[j].id == id);
            assert(s[j].id == id && s[i].id == id);
            assert(j == i);
            assert(conns_map(s2)[id] == e@);
        } else {
            let k = conn_idx(s, id);
            assert(0 <= k < s.len() && s[k].id == id);
            assert(k != i);
            assert(s2[k].id == id);
            assert(conn_has_id(s2, id));
            let j = conn_idx(s2, id);
            assert(0 <= j < s2.len() && s2[j].id == id);
            assert(s[j].id == id);
            assert(j == k);
            assert(s2[k] == s[k]);
            lemma_conn_at(s, k);
        }
    }
    assert(conns_map(s2) =~= conns_map(s).insert(e.id, e@));
}

proof fn lemma_conns_map_remove(s: Seq<ConnEntry>, i: int)
    requires
        conn_ids_unique(s),
        0 <= i < s.len(),
    ensures
        conn_ids_unique(s.remove(i)),
        conns_map(s.remove(i)) == conns_map(s).remove(s[i].id),
{
    let s2 = s.remove(i);
    assert forall|p: int, q: int|
        0 <= p < s2.len() && 0 <= q < s2.len() && p != q implies (#[trigger] s2[p]).id != (
    #[trigger] s2[q]).id by {
        let p0: int = if p < i { p } else { p + 1 };
        let q0: int = if q < i { q } else { q + 1 };
        assert(s2[p] == s[p0] && s2[q] == s[q0]);
    }
    assert forall|id: u32| #[trigger]
        conns_map(s2).contains_key(id) implies conns_map(s).remove(s[i].id).contains_key(id)
        && conns_map(s2)[id] == conns_map(s).remove(s[i].id)[id] by {
        let j = conn_idx(s2, id);
        let j0: int = if j < i { j } else { j + 1 };
        assert(s2[j] == s[j0]);
        assert(conn_has_id(s, id));
        assert(j0 != i);
        assert(id != s[i].id);
        lemma_conn_at(s, j0);
        let k = conn_idx(s, id);
        assert(k == j0);
        assert(conns_map(s2)[id] == s2[j]@);
    }
    assert forall|id: u32| #[trigger]
        conns_map(s).remove(s[i].id).contains_key(id) implies conns_map(s2).contains_key(id) by {
        let k = conn_idx(s, id);
        assert(0 <= k < s.len() && s[k].id == id);
        assert(k != i);
        let k2: int = if k < i { k } else { k - 1 };
        assert(s2[k2] == s[k]);
        assert(conn_has_id(s2, id));
    }
    assert(conns_map(s2) =~= conns_map(s).remove(s[i].id));
}

proof fn lemma_port_at(s: Seq<ListenerEntry>, i: int)
    requires
        port_list_unique(s),
        0 <= i < s.len(),
    ensures
        listeners_map(s).contains_key(s[i].port),
        listeners_map(s)[s[i].port] == s[i].handle,
{
    assert(has_port(s, s[i].port));
    let j = port_idx(s, s[i].port);
    assert(0 <= j < s.len() && s[j].port == s[i].port);
    assert(j == i);
}

proof fn lemma_port_absent(s: Seq<ListenerEntry>, port: u16)
    requires
        forall|i: int| 0 <= i < s.len() ==> (#[trigger] s[i]).port != port,
    ensures
        !listeners_map(s).contains_key(port),
{
}

proof fn lemma_listeners_map_push(s: Seq<ListenerEntry>, e: ListenerEntry)
    requires
        port_list_unique(s),
        !has_port(s, e.port),
    ensures
        port_list_unique(s.push(e)),
        listeners_map(s.push(e)) == listeners_map(s).insert(e.port, e.handle),
{
    let s2 = s.push(e);
    assert forall|i: int, j: int|
        0 <= i < s2.len() && 0 <= j < s2.len() && i != j implies (#[trigger] s2[i]).port != (
    #[trigger] s2[j]).port by {
        if i < s.len() && j < s.len() {
            assert(s2[i] == s[i] && s2[j] == s[j]);
        } else if i < s.len() {
            assert(s2[j] == e && s2[i] == s[i]);
        } else {
            assert(s2[i] == e && s2[j] == s[j]);
        }
    }
    assert forall|port: u16| #[trigger]
        listeners_map(s2).contains_key(port) implies listeners_map(s).insert(
        e.port,
        e.handle,
    ).contains_key(port) by {
        let i = port_idx(s2, port);
        if i < s.len() {
            assert(s[i].port == port);
        }
    }
    assert forall|port: u16| #[trigger]
        listeners_map(s).insert(e.port, e.handle).contains_key(port) implies listeners_map(
        s2,
    ).contains_key(port) && listeners_map(s2)[port] == listeners_map(s).insert(
        e.port,
        e.handle,
    )[port] by {
        if port == e.port {
            assert(s2[s.len() as int] == e);
            assert(has_port(s2, port));
            let j = port_idx(s2, port);
            assert(0 <= j < s2.len() && s2[j].port == port);
            if j < s.len() {
                assert(has_port(s, e.port));
            }
            assert(j == s.len());
        } else {
            let k = port_idx(s, port);
            assert(0 <= k < s.len() && s[k].port == port);
            assert(s2[k].port == port);
            assert(has_port(s2, port));
            let j = port_idx(s2, port);
            assert(0 <= j < s2.len() && s2[j].port == port);
            assert(j != s.len());
            assert(s[j].port == port);
            assert(j == k);
            lemma_port_at(s, k);
        }
    }
    assert(listeners_map(s2) =~= listeners_map(s).insert(e.port, e.handle));
}

proof fn lemma_listeners_map_update(s: Seq<ListenerEntry>, i: int, e: ListenerEntry)
    requires
        port_list_unique(s),
        0 <= i < s.len(),
        e.port == s[i].port,
    ensures
        port_list_unique(s.update(i, e)),
        listeners_map(s.update(i, e)) == listeners_map(s).insert(e.port, e.handle),
{
    let s2 = s.update(i, e);
    assert forall|p: int, q: int|
        0 <= p < s2.len() && 0 <= q < s2.len() && p != q implies (#[trigger] s2[p]).port != (
    #[trigger] s2[q]).port by {
        assert(s2[p].port == s[p].port && s2[q].port == s[q].port);
    }
    assert forall|port: u16| #[trigger]
        listeners_map(s2).contains_key(port) implies listeners_map(s).insert(
        e.port,
        e.handle,
    ).contains_key(port) by {
        let j = port_idx(s2, port);
        assert(s[j].port == s2[j].port);
        assert(has_port(s, port));
    }
    assert forall|port: u16| #[trigger]
        listeners_map(s).insert(e.port, e.handle).contains_key(port) implies listeners_map(
        s2,
    ).contains_key(port) && listeners_map(s2)[port] == listeners_map(s).insert(
        e.port,
        e.handle,
    )[port] by {
        if port == e.port {
            assert(s2[i].port == port);
            assert(has_port(s2, port));
            let j = port_idx(s2, port);
            assert(0 <= j < s2.len() && s2[j].port == port);
            assert(s[j].port == port && s[i].port == port);
            assert(j == i);
        } else {
            let k = port_idx(s, port);
            assert(0 <= k < s.len() && s[k].port == port);
            assert(k != i);
            assert(s2[k].port == port);
            assert(has_port(s2, port));
            let j = port_idx(s2, port);
            assert(0 <= j < s2.len() && s2[j].port == port);
            assert(s[j].port == port);
            assert(j == k);
            assert(s2[k] == s[k]);
            lemma_port_at(s, k);
        }
    }
    assert(listeners_map(s2) =~= listeners_map(s).insert(e.port, e.handle));
}

proof fn lemma_conns_map_card(s: Seq<ConnEntry>)
    requires
        conn_ids_unique(s),
    ensures
        conns_map(s).dom().finite(),
        conns_map(s).dom().len() == s.len(),
    decreases s.len(),
{
    if s.len() == 0 {
        assert(conns_map(s) =~= Map::<u32, ConnModel>::empty());
        broadcast use vstd::set::axiom_set_empty_len;

        assert(conns_map(s).dom() =~= Set::<u32>::empty());
    } else {
        let s0 = s.drop_last();
        let e = s.last();
        assert forall|i: int, j: int|
            0 <= i < s0.len() && 0 <= j < s0.len() && i != j implies (#[trigger] s0[i]).id != (
        #[trigger] s0[j]).id by {
            assert(s0[i] == s[i] && s0[j] == s[j]);
        }
        assert forall|i: int| 0 <= i < s0.len() implies (#[trigger] s0[i]).id != e.id by {
            assert(s0[i] == s[i] && e == s[s.len() - 1]);
        }
        lemma_conns_map_card(s0);
        assert(!conn_has_id(s0, e.id));
        lemma_conns_map_push(s0, e);
        assert(s0.push(e) =~= s);
        assert(conns_map(s).dom() =~= conns_map(s0).dom().insert(e.id));
        vstd::set::axiom_set_insert_finite(conns_map(s0).dom(), e.id);
        lemma_conn_absent(s0, e.id);
        vstd::set::axiom_set_insert_len(conns_map(s0).dom(), e.id);
    }
}

proof fn lemma_listeners_map_card(s: Seq<ListenerEntry>)
    requires
        port_list_unique(s),
    ensures
        listeners_map(s).dom().finite(),
        listeners_map(s).dom().len() == s.len(),
    decreases s.len(),
{
    if s.len() == 0 {
        assert(listeners_map(s) =~= Map::<u16, u64>::empty());
        broadcast use vstd::set::axiom_set_empty_len;

        assert(listeners_map(s).dom() =~= Set::<u16>::empty());
    } else {
        let s0 = s.drop_last();
        let e = s.last();
        assert forall|i: int, j: int|
            0 <= i < s0.len() && 0 <= j < s0.len() && i != j implies (#[trigger] s0[i]).port != (
        #[trigger] s0[j]).port by {
            assert(s0[i] == s[i] && s0[j] == s[j]);
        }
        assert forall|i: int| 0 <= i < s0.len() implies (#[trigger] s0[i]).port != e.port by {
            assert(s0[i] == s[i] && e == s[s.len() - 1]);
        }
        lemma_listeners_map_card(s0);
        assert(!has_port(s0, e.port));
        lemma_listeners_map_push(s0, e);
        assert(s0.push(e) =~= s);
        assert(listeners_map(s).dom() =~= listeners_map(s0).dom().insert(e.port));
        vstd::set::axiom_set_insert_finite(listeners_map(s0).dom(), e.port);
        lemma_port_absent(s0, e.port);
        vstd::set::axiom_set_insert_len(listeners_map(s0).dom(), e.port);
    }
}

/// What the engine decides for one submitted buffer.
pub enum SendDecision {
    /// The identifier names no live connection; the submission is dropped.
    NotFound,
    /// The socket can take the bytes now: hand exactly these to it.
    Push(Vec<u8>),
    /// The socket cannot take bytes yet: the buffer was queued behind the
    /// ones already pending.
    Buffered,
}

/// The engine's registries and counters: everything the event loop mutates
/// when it dispatches a command or observes a socket change.
pub struct Engine {
    conns: Vec<ConnEntry>,
    listeners: Vec<ListenerEntry>,
    next_conn_id: u32,
    ports: PortAllocator,
}

impl View for Engine {
    type V = EngineModel;

    closed spec fn view(&self) -> EngineModel {
        EngineModel {
            conns: conns_map(self.conns@),
            listeners: listeners_map(self.listeners@),
            next_conn_id: self.next_conn_id,
            next_port: self.ports.next_port(),
        }
    }
}

impl Engine {
    /// The representation invariant: entries are keyed uniquely, identifiers
    /// come from the counter, no two records borrow one handle, and every
    /// stream's bookkeeping is consistent.
    pub closed spec fn inv(self) -> bool {
        &&& conn_ids_unique(self.conns@)
        &&& port_list_unique(self.listeners@)
        &&& forall|i: int|
            0 <= i < self.conns@.len() ==> 1 <= (#[trigger] self.conns@[i]).id < self.next_conn_id
                && stream_ok(self.conns@[i]@)
        &&& forall|i: int, j: int|
            0 <= i < self.conns@.len() && 0 <= j < self.conns@.len() && i != j ==> (
            #[trigger] self.conns@[i]).handle != (#[trigger] self.conns@[j]).handle
        &&& forall|i: int, j: int|
            0 <= i < self.listeners@.len() && 0 <= j < self.listeners@.len() && i != j ==> (
            #[trigger] self.listeners@[i]).handle != (#[trigger] self.listeners@[j]).handle
        &&& forall|i: int, j: int|
            0 <= i < self.conns@.len() && 0 <= j < self.listeners@.len() ==> (
            #[trigger] self.conns@[i]).handle != (#[trigger] self.listeners@[j]).handle
        &&& self.ports.wf()
        &&& 1 <= self.next_conn_id
    }

    proof fn lemma_inv_wf(self)
        requires
            self.inv(),
        ensures
            self@.wf(),
    {
        let m = self@;
        assert forall|id: u32| m.conns.contains_key(id) implies 1 <= id < m.next_conn_id
            && stream_ok(#[trigger] m.conns[id]) by {
            let i = conn_idx(self.conns@, id);
            assert(0 <= i < self.conns@.len() && self.conns@[i].id == id);
            lemma_conn_at(self.conns@, i);
        }
        assert forall|id1: u32, id2: u32|
            m.conns.contains_key(id1) && m.conns.contains_key(id2) && id1 != id2 implies (
        #[trigger] m.conns[id1]).handle != (#[trigger] m.conns[id2]).handle by {
            let i1 = conn_idx(self.conns@, id1);
            let i2 = conn_idx(self.conns@, id2);
            assert(self.conns@[i1].id == id1 && self.conns@[i2].id == id2);
            lemma_conn_at(self.conns@, i1);
            lemma_conn_at(self.conns@, i2);
        }
        assert forall|p1: u16, p2: u16|
            m.listeners.contains_key(p1) && m.listeners.contains_key(p2) && p1 != p2 implies
            #[trigger] m.listeners[p1] != #[trigger] m.listeners[p2] by {
            let i1 = port_idx(self.listeners@, p1);
            let i2 = port_idx(self.listeners@, p2);
            assert(self.listeners@[i1].port == p1 && self.listeners@[i2].port == p2);
            lemma_port_at(self.listeners@, i1);
            lemma_port_at(self.listeners@, i2);
        }
        assert forall|id: u32, p: u16|
            m.conns.contains_key(id) && m.listeners.contains_key(p) implies (
        #[trigger] m.conns[id]).handle != #[trigger] m.listeners[p] by {
            let i = conn_idx(self.conns@, id);
            let j = port_idx(self.listeners@, p);
            assert(self.conns@[i].id == id && self.listeners@[j].port == p);
            lemma_conn_at(self.conns@, i);
            lemma_port_at(self.listeners@, j);
        }
    }

    /// When a handle is free in the model, no stored entry borrows it.
    proof fn lemma_handle_free(self, h: u64)
        requires
            self.inv(),
            !self@.uses_handle(h),
        ensures
            forall|i: int| 0 <= i < self.conns@.len() ==> (#[trigger] self.conns@[i]).handle != h,
            forall|i: int|
                0 <= i < self.listeners@.len() ==> (#[trigger] self.listeners@[i]).handle != h,
    {
        assert forall|i: int| 0 <= i < self.conns@.len() implies (#[trigger] self.conns@[i]).handle
            != h by {
            lemma_conn_at(self.conns@, i);
            assert(self@.conns.contains_key(self.conns@[i].id));
            assert(self@.conns[self.conns@[i].id] == self.conns@[i]@);
            if self.conns@[i].handle == h {
                assert(self@.conns[self.conns@[i].id].handle == h);
                assert(self@.uses_handle(h));
            }
        }
        assert forall|i: int| 0 <= i < self.listeners@.len() implies (
        #[trigger] self.listeners@[i]).handle != h by {
            lemma_port_at(self.listeners@, i);
            assert(self@.listeners.contains_key(self.listeners@[i].port));
            if self.listeners@[i].handle == h {
                assert(self@.listeners[self.listeners@[i].port] == h);
                assert(self@.uses_handle(h));
            }
        }
    }

    /// A fresh engine: no connections, no listeners, the identifier counter
    /// at one, and the port allocator seeded from a clock-derived value.
    pub fn new(seed_millis: u64) -> (e: Engine)
        ensures
            e.inv(),
            e@.wf(),
            e@.conns == Map::<u32, ConnModel>::empty(),
            e@.listeners == Map::<u16, u64>::empty(),
            e@.next_conn_id == 1,
            e@.next_port == (seed_millis % 16383) + 49152,
    {
        let e = Engine {
            conns: Vec::new(),
            listeners: Vec::new(),
            next_conn_id: 1,
            ports: PortAllocator::new(seed_millis),
        };
        proof {
            assert(conns_map(e.conns@) =~= Map::<u32, ConnModel>::empty());
            assert(listeners_map(e.listeners@) =~= Map::<u16, u64>::empty());
            e.lemma_inv_wf();
        }
        e
    }

    /// The position of a connection's entry, when it is registered.
    fn find_conn(&self, id: u32) -> (r: Option<usize>)
        ensures
            match r {
                Some(i) => i < self.conns@.len() && self.conns@[i as int].id == id,
                None => forall|i: int| 0 <= i < self.conns@.len() ==> (#[trigger] self.conns@[i]).id != id,
            },
    {
        let n = self.conns.len();
        let mut i: usize = 0;
        while i < n
            invariant
                i <= n,
                n == self.conns@.len(),
                forall|k: int| 0 <= k < i ==> (#[trigger] self.conns@[k]).id != id,
            decreases n - i,
        {
            if self.conns[i].id == id {
                return Some(i);
            }
            i = i + 1;
        }
        None
    }

    /// The position of a port's listener entry, when one is registered.
    fn find_listener(&self, port: u16) -> (r: Option<usize>)
        ensures
            match r {
                Some(i) => i < self.listeners@.len() && self.listeners@[i as int].port == port,
                None => forall|i: int|
                    0 <= i < self.listeners@.len() ==> (#[trigger] self.listeners@[i]).port != port,
            },
    {
        let n = self.listeners.len();
        let mut i: usize = 0;
        while i < n
            invariant
                i <= n,
                n == self.listeners@.len(),
                forall|k: int| 0 <= k < i ==> (#[trigger] self.listeners@[k]).port != port,
            decreases n - i,
        {
            if self.listeners[i].port == port {
                return Some(i);
            }
            i = i + 1;
        }
        None
    }

    /// Allocates the local port for the next outbound connect.
    pub fn allocate_port(&mut self) -> (p: u16)
        requires
            old(self).inv(),
        ensures
            final(self).inv(),
            p == old(self)@.next_port,
            49152 <= p,
            final(self)@ == (EngineModel { next_port: final(self)@.next_port, ..old(self)@ }),
            final(self)@.next_port == (if p == u16::MAX {
                49152u16
            } else {
                (p + 1) as u16
            }),
    {
        let p = self.ports.allocate();
        proof {
            crate::ports::lemma_ports_strictly_increase(old(self).ports);
            assert(self@ =~= EngineModel { next_port: self@.next_port, ..old(self)@ });
        }
        p
    }

    /// Registers a client connection on an accepted socket. The identifier
    /// is handed to the host at once; the three-way handshake completes in
    /// the background and submitted buffers wait in the pending queue until
    /// the socket becomes sendable.
    pub fn register_client(&mut self, handle: u64) -> (id: u32)
        requires
            old(self).inv(),
            old(self)@.next_conn_id < u32::MAX,
            !old(self)@.uses_handle(handle),
        ensures
            final(self).inv(),
            final(self)@.wf(),
            id == old(self)@.next_conn_id,
            !old(self)@.conns.contains_key(id),
            final(self)@ == register_client_step(old(self)@, handle),
            final(self)@.conns[id] == fresh_conn(handle, Flavor::Client),
    {
        proof {
            old(self).lemma_handle_free(handle);
            lemma_conn_absent(old(self).conns@, old(self).next_conn_id);
        }
        let id = self.next_conn_id;
        let entry = ConnEntry {
            id,
            handle,
            flavor: Flavor::Client,
            pending: Vec::new(),
            submitted: Ghost(Seq::empty()),
            pushed: Ghost(Seq::empty()),
        };
        proof {
            assert(entry@ =~= fresh_conn(handle, Flavor::Client));
            assert(views_of(entry.pending@) =~= Seq::<Seq<u8>>::empty());
            lemma_conns_map_push(self.conns@, entry);
        }
        self.conns.push(entry);
        self.next_conn_id = self.next_conn_id + 1;
        proof {
            assert(self@ =~= register_client_step(old(self)@, handle));
            self.lemma_inv_wf();
        }
        id
    }

    /// Installs a listener: the port gets its callback trio on the host side
    /// and its first armed accepting socket here. A port that already has a
    /// listener is refused.
    pub fn install_listener(&mut self, port: u16, handle: u64) -> (r: Result<(), EngineError>)
        requires
            old(self).inv(),
            !old(self)@.uses_handle(handle),
        ensures
            final(self).inv(),
            final(self)@.wf(),
            final(self)@ == listen_step(old(self)@, port, handle),
            r is Ok <==> listen_fires(old(self)@, port),
            r is Err ==> r == Err::<(), EngineError>(EngineError::BindConflict),
            r is Ok ==> final(self)@.listeners == old(self)@.listeners.insert(port, handle),
    {
        match self.find_listener(port) {
            Some(j) => {
                proof {
                    lemma_port_at(self.listeners@, j as int);
                    assert(self@ =~= listen_step(old(self)@, port, handle));
                    self.lemma_inv_wf();
                }
                Err(EngineError::BindConflict)
            },
            None => {
                proof {
                    lemma_port_absent(self.listeners@, port);
                    old(self).lemma_handle_free(handle);
                    lemma_listeners_map_push(
                        self.listeners@,
                        ListenerEntry { port, handle },
                    );
                }
                self.listeners.push(ListenerEntry { port, handle });
                proof {
                    assert(self@ =~= listen_step(old(self)@, port, handle));
                    self.lemma_inv_wf();
                }
                Ok(())
            },
        }
    }

    /// Decides what happens to one submitted buffer: hand it to the socket
    /// when the socket can send with space for all of it and nothing is
    /// pending ahead of it; queue it otherwise; drop it when the identifier
    /// names no live connection. `room` is the socket's free send-buffer
    /// space, so a handed-over buffer is always accepted whole.
    pub fn submit_send(&mut self, id: u32, can_send: bool, room: usize, data: Vec<u8>) -> (r:
        SendDecision)
        requires
            old(self).inv(),
        ensures
            final(self).inv(),
            final(self)@.wf(),
            final(self)@ == submit_step(old(self)@, id, can_send, room, data@),
            (r is NotFound) <==> !old(self)@.conns.contains_key(id),
            submit_pushes(old(self)@, id, can_send, room, data@) ==> (r matches SendDecision::Push(
                d,
            ) && d@ == data@),
            (old(self)@.conns.contains_key(id) && !submit_pushes(
                old(self)@,
                id,
                can_send,
                room,
                data@,
            )) ==> r is Buffered,
    {
        let ghost m0 = old(self)@;
        let ghost d = data@;
        match self.find_conn(id) {
            None => {
                proof {
                    lemma_conn_absent(self.conns@, id);
                    assert(self@ =~= submit_step(m0, id, can_send, room, d));
                    self.lemma_inv_wf();
                }
                SendDecision::NotFound
            },
            Some(i) => {
                proof {
                    lemma_conn_at(self.conns@, i as int);
                }
                let ghost s0 = self.conns@;
                let ghost c0 = s0[i as int]@;
                let mut entry = self.conns.remove(i);
                let pushes = can_send && entry.pending.len() == 0 && data.len() <= room;
                proof {
                    assert(views_of(entry.pending@).len() == entry.pending@.len());
                    assert(pushes == submit_pushes(m0, id, can_send, room, d));
                }
                if pushes {
                    entry.pushed = Ghost(entry.pushed@ + d);
                    entry.submitted = Ghost(entry.submitted@.push(d));
                    proof {
                        assert(entry@ =~= submitted_conn(c0, d, true));
                        lemma_concat_all_push(c0.submitted, d);
                        assert(concat_all(c0.pending) =~= Seq::<u8>::empty());
                        assert(entry@.pushed + concat_all(entry@.pending) =~= concat_all(
                            entry@.submitted,
                        ));
                        assert(stream_ok(entry@));
                    }
                    let ghost e2 = entry;
                    self.conns.insert(i, entry);
                    proof {
                        assert(self.conns@ =~= s0.update(i as int, e2));
                        lemma_conns_map_update(s0, i as int, e2);
                        assert(self@ =~= submit_step(m0, id, can_send, room, d));
                        self.lemma_inv_wf();
                    }
                    SendDecision::Push(data)
                } else {
                    entry.submitted = Ghost(entry.submitted@.push(d));
                    entry.pending.push(data);
                    proof {
                        assert(views_of(entry.pending@) =~= c0.pending.push(d));
                        assert(entry@ =~= submitted_conn(c0, d, false));
                        lemma_concat_all_push(c0.submitted, d);
                        lemma_concat_all_push(c0.pending, d);
                        assert(entry@.pushed + concat_all(entry@.pending) =~= concat_all(
                            entry@.submitted,
                        ));
                        assert(stream_ok(entry@));
                    }
                    let ghost e2 = entry;
                    self.conns.insert(i, entry);
                    proof {
                        assert(self.conns@ =~= s0.update(i as int, e2));
                        lemma_conns_map_update(s0, i as int, e2);
                        assert(self@ =~= submit_step(m0, id, can_send, room, d));
                        self.lemma_inv_wf();
                    }
                    SendDecision::Buffered
                }
            },
        }
    }

    /// One flush step for a connection whose socket has become sendable:
    /// hands back the oldest pending buffer — or, when the socket's free
    /// space `room` is smaller, exactly its front — for the caller to give
    /// to the socket, where it is accepted whole. Repeated calls drain the
    /// queue oldest-first without ever reordering or losing a byte.
    pub fn flush_one(&mut self, id: u32, can_send: bool, room: usize) -> (r: Option<Vec<u8>>)
        requires
            old(self).inv(),
        ensures
            final(self).inv(),
            final(self)@.wf(),
            final(self)@ == flush_one_step(old(self)@, id, can_send, room),
            r is Some <==> flush_one_fires(old(self)@, id, can_send, room),
            r matches Some(b) ==> b@ == flushed_chunk(old(self)@, id, room) && b@.len() <= room,
    {
        let ghost m0 = old(self)@;
        match self.find_conn(id) {
            None => {
                proof {
                    lemma_conn_absent(self.conns@, id);
                    assert(self@ =~= flush_one_step(m0, id, can_send, room));
                    self.lemma_inv_wf();
                }
                None
            },
            Some(i) => {
                proof {
                    lemma_conn_at(self.conns@, i as int);
                }
                if !can_send || room == 0 || self.conns[i].pending.len() == 0 {
                    proof {
                        assert(views_of(self.conns@[i as int].pending@).len()
                            == self.conns@[i as int].pending@.len());
                        assert(!flush_one_fires(m0, id, can_send, room));
                        assert(self@ =~= flush_one_step(m0, id, can_send, room));
                        self.lemma_inv_wf();
                    }
                    return None;
                }
                let ghost s0 = self.conns@;
                let ghost c0 = s0[i as int]@;
                let mut entry = self.conns.remove(i);
                let head = entry.pending.remove(0);
                proof {
                    assert(c0.pending[0] == head@);
                    assert(views_of(entry.pending@) =~= c0.pending.drop_first());
                    assert(concat_all(c0.pending) == c0.pending[0] + concat_all(
                        c0.pending.drop_first(),
                    ));
                }
                if head.len() <= room {
                    entry.pushed = Ghost(entry.pushed@ + head@);
                    proof {
                        assert(entry@ =~= (ConnModel {
                            pending: c0.pending.drop_first(),
                            pushed: c0.pushed + c0.pending[0],
                            ..c0
                        }));
                        assert(entry@.pushed + concat_all(entry@.pending) =~= concat_all(
                            entry@.submitted,
                        ));
                        assert(stream_ok(entry@));
                    }
                    let ghost e2 = entry;
                    self.conns.insert(i, entry);
                    proof {
                        assert(self.conns@ =~= s0.update(i as int, e2));
                        lemma_conns_map_update(s0, i as int, e2);
                        assert(self@ =~= flush_one_step(m0, id, can_send, room));
                        self.lemma_inv_wf();
                    }
                    Some(head)
                } else {
                    let mut front: Vec<u8> = Vec::new();
                    let mut k: usize = 0;
                    while k < room
                        invariant
                            k <= room,
                            room < head@.len(),
                            front@ == head@.take(k as int),
                        decreases room - k,
                    {
                        front.push(head[k]);
                        proof {
                            assert(front@ =~= head@.take(k + 1));
                        }
                        k = k + 1;
                    }
                    let mut back: Vec<u8> = Vec::new();
                    let mut j: usize = room;
                    let n = head.len();
                    while j < n
                        invariant
                            room <= j <= n,
                            n == head@.len(),
                            room < head@.len(),
                            back@ == head@.subrange(room as int, j as int),
                        decreases n - j,
                    {
                        back.push(head[j]);
                        proof {
                            assert(back@ =~= head@.subrange(room as int, j + 1));
                        }
                        j = j + 1;
                    }
                    proof {
                        assert(back@ =~= head@.skip(room as int));
                        assert(front@ =~= head@.take(room as int));
                    }
                    entry.pending.insert(0, back);
                    entry.pushed = Ghost(entry.pushed@ + front@);
                    proof {
                        assert(views_of(entry.pending@) =~= c0.pending.update(
                            0,
                            c0.pending[0].skip(room as int),
                        ));
                        assert(entry@ =~= (ConnModel {
                            pending: c0.pending.update(0, c0.pending[0].skip(room as int)),
                            pushed: c0.pushed + c0.pending[0].take(room as int),
                            ..c0
                        }));
                        let upd = c0.pending.update(0, c0.pending[0].skip(room as int));
                        assert(upd.drop_first() =~= c0.pending.drop_first());
                        assert(concat_all(upd) == upd[0] + concat_all(upd.drop_first()));
                        assert(c0.pending[0].take(room as int) + c0.pending[0].skip(room as int)
                            =~= c0.pending[0]);
                        assert(entry@.pushed + concat_all(entry@.pending) =~= concat_all(
                            entry@.submitted,
                        ));
                        assert(stream_ok(entry@));
                    }
                    let ghost e2 = entry;
                    self.conns.insert(i, entry);
                    proof {
                        assert(self.conns@ =~= s0.update(i as int, e2));
                        lemma_conns_map_update(s0, i as int, e2);
                        assert(self@ =~= flush_one_step(m0, id, can_send, room));
                        self.lemma_inv_wf();
                    }
                    Some(front)
                }
            },
        }
    }

    /// Observes a socket in the closed state: the record is destroyed and
    /// the caller is told which on-close callback to fire and which handle
    /// to release. Fires at most once per connection: a second observation
    /// finds no record.
    pub fn observe_closed(&mut self, id: u32) -> (r: Option<(u64, Flavor)>)
        requires
            old(self).inv(),
        ensures
            final(self).inv(),
            final(self)@.wf(),
            final(self)@ == close_step(old(self)@, id),
            r is Some <==> close_fires(old(self)@, id),
            r matches Some((h, f)) ==> h == old(self)@.conns[id].handle
                && f == old(self)@.conns[id].flavor,
            !final(self)@.conns.contains_key(id),
    {
        let ghost m0 = old(self)@;
        match self.find_conn(id) {
            None => {
                proof {
                    lemma_conn_absent(self.conns@, id);
                    assert(close_step(m0, id).conns =~= m0.conns);
                    assert(self@ =~= close_step(m0, id));
                    self.lemma_inv_wf();
                }
                None
            },
            Some(i) => {
                proof {
                    lemma_conn_at(self.conns@, i as int);
                    lemma_conns_map_remove(self.conns@, i as int);
                }
                let entry = self.conns.remove(i);
                proof {
                    assert(self@ =~= close_step(m0, id));
                    self.lemma_inv_wf();
                }
                Some((entry.handle, entry.flavor))
            },
        }
    }

    /// Graduates an accepted socket: the armed handle of the port becomes a
    /// server connection under a fresh identifier, and the port is rearmed
    /// with the replacement handle in this same transition, so the port is
    /// never left without an armed accepting socket.
    pub fn graduate(&mut self, port: u16, new_handle: u64) -> (r: Option<u32>)
        requires
            old(self).inv(),
            old(self)@.next_conn_id < u32::MAX,
            !old(self)@.uses_handle(new_handle),
        ensures
            final(self).inv(),
            final(self)@.wf(),
            final(self)@ == graduate_step(old(self)@, port, new_handle),
            r is Some <==> graduate_fires(old(self)@, port),
            r matches Some(cid) ==> cid == old(self)@.next_conn_id
                && final(self)@.conns[cid] == fresh_conn(
                old(self)@.listeners[port],
                Flavor::Server,
            ),
    {
        let ghost m0 = old(self)@;
        match self.find_listener(port) {
            None => {
                proof {
                    lemma_port_absent(self.listeners@, port);
                    assert(self@ =~= graduate_step(m0, port, new_handle));
                    self.lemma_inv_wf();
                }
                None
            },
            Some(j) => {
                proof {
                    lemma_port_at(self.listeners@, j as int);
                    old(self).lemma_handle_free(new_handle);
                    lemma_conn_absent(self.conns@, self.next_conn_id);
                }
                let ghost s0 = self.conns@;
                let ghost l0 = self.listeners@;
                let accepted_handle = self.listeners[j].handle;
                let id = self.next_conn_id;
                let entry = ConnEntry {
                    id,
                    handle: accepted_handle,
                    flavor: Flavor::Server,
                    pending: Vec::new(),
                    submitted: Ghost(Seq::empty()),
                    pushed: Ghost(Seq::empty()),
                };
                proof {
                    assert(views_of(entry.pending@) =~= Seq::<Seq<u8>>::empty());
                    assert(entry@ =~= fresh_conn(accepted_handle, Flavor::Server));
                    lemma_conns_map_push(s0, entry);
                    lemma_listeners_map_update(
                        l0,
                        j as int,
                        ListenerEntry { port, handle: new_handle },
                    );
                }
                self.conns.push(entry);
                self.next_conn_id = self.next_conn_id + 1;
                let rearmed = ListenerEntry { port, handle: new_handle };
                self.listeners.set(j, rearmed);
                proof {
                    assert(self.listeners@ =~= l0.update(j as int, rearmed));
                    assert(self@ =~= graduate_step(m0, port, new_handle));
                    assert(self@.conns[id] == fresh_conn(m0.listeners[port], Flavor::Server));
                    self.lemma_inv_wf();
                }
                Some(id)
            },
        }
    }

    /// Looks a connection up for command dispatch: its socket handle and
    /// callback flavor, when it is registered.
    pub fn lookup(&self, id: u32) -> (r: Option<(u64, Flavor)>)
        requires
            self.inv(),
        ensures
            r is Some <==> self@.conns.contains_key(id),
            r matches Some((h, f)) ==> h == self@.conns[id].handle && f == self@.conns[id].flavor,
    {
        match self.find_conn(id) {
            None => {
                proof {
                    lemma_conn_absent(self.conns@, id);
                }
                None
            },
            Some(i) => {
                proof {
                    lemma_conn_at(self.conns@, i as int);
                }
                Some((self.conns[i].handle, self.conns[i].flavor))
            },
        }
    }

    /// Whether a handle is borrowed by any connection or armed on any port.
    pub fn handle_in_use(&self, h: u64) -> (b: bool)
        requires
            self.inv(),
        ensures
            b == self@.uses_handle(h),
    {
        let n = self.conns.len();
        let mut i: usize = 0;
        while i < n
            invariant
                i <= n,
                n == self.conns@.len(),
                self.inv(),
                forall|k: int| 0 <= k < i ==> (#[trigger] self.conns@[k]).handle != h,
            decreases n - i,
        {
            if self.conns[i].handle == h {
                proof {
                    lemma_conn_at(self.conns@, i as int);
                    assert(self@.conns[self.conns@[i as int].id].handle == h);
                }
                return true;
            }
            i = i + 1;
        }
        let nl = self.listeners.len();
        let mut j: usize = 0;
        while j < nl
            invariant
                j <= nl,
                nl == self.listeners@.len(),
                self.inv(),
                forall|k: int| 0 <= k < j ==> (#[trigger] self.listeners@[k]).handle != h,
            decreases nl - j,
        {
            if self.listeners[j].handle == h {
                proof {
                    lemma_port_at(self.listeners@, j as int);
                    assert(self@.listeners[self.listeners@[j as int].port] == h);
                }
                return true;
            }
            j = j + 1;
        }
        proof {
            if self@.uses_handle(h) {
                if exists|id: u32|
                    self@.conns.contains_key(id) && #[trigger] self@.conns[id].handle == h {
                    let id = choose|id: u32|
                        self@.conns.contains_key(id) && #[trigger] self@.conns[id].handle == h;
                    let k = conn_idx(self.conns@, id);
                    assert(0 <= k < self.conns@.len() && self.conns@[k].id == id);
                    lemma_conn_at(self.conns@, k);
                    assert(false);
                } else {
                    let p = choose|p: u16|
                        self@.listeners.contains_key(p) && #[trigger] self@.listeners[p] == h;
                    let k = port_idx(self.listeners@, p);
                    assert(0 <= k < self.listeners@.len() && self.listeners@[k].port == p);
                    lemma_port_at(self.listeners@, k);
                    assert(false);
                }
            }
        }
        false
    }

    /// Whether the port already has a listener, so a listen intent would be
    /// refused; consulted before a socket is created for it.
    pub fn has_listener(&self, port: u16) -> (b: bool)
        requires
            self.inv(),
        ensures
            b == self@.listeners.contains_key(port),
    {
        match self.find_listener(port) {
            Some(i) => {
                proof {
                    lemma_port_at(self.listeners@, i as int);
                }
                true
            },
            None => {
                proof {
                    lemma_port_absent(self.listeners@, port);
                }
                false
            },
        }
    }

    /// Whether the engine accounts for fewer stack sockets than the pool
    /// holds: one per connection and one armed per listen port. Consulted
    /// before a socket is created, so a connect or listen that would
    /// overflow the pool is refused with a capacity error instead.
    pub fn has_capacity(&self, pool_size: u64) -> (b: bool)
        requires
            self.inv(),
        ensures
            b == (self@.conns.dom().len() + self@.listeners.dom().len() < pool_size),
    {
        proof {
            lemma_conns_map_card(self.conns@);
            lemma_listeners_map_card(self.listeners@);
        }
        (self.conns.len() as u128) + (self.listeners.len() as u128) < (pool_size as u128)
    }

    /// Whether another identifier can still be assigned.
    pub fn id_space_left(&self) -> (b: bool)
        ensures
            b == (self@.next_conn_id < u32::MAX),
    {
        self.next_conn_id < u32::MAX
    }

    /// The identifiers of every registered connection, each exactly once.
    pub fn connection_ids(&self) -> (ids: Vec<u32>)
        requires
            self.inv(),
        ensures
            forall|k: int| 0 <= k < ids@.len() ==> self@.conns.contains_key(#[trigger] ids@[k]),
            forall|id: u32| self@.conns.contains_key(id) ==> ids@.contains(id),
            forall|k1: int, k2: int| 0 <= k1 < k2 < ids@.len() ==> ids@[k1] != ids@[k2],
    {
        let n = self.conns.len();
        let mut ids: Vec<u32> = Vec::new();
        let mut i: usize = 0;
        while i < n
            invariant
                i <= n,
                n == self.conns@.len(),
                ids@.len() == i,
                forall|k: int| 0 <= k < i ==> #[trigger] ids@[k] == self.conns@[k].id,
            decreases n - i,
        {
            ids.push(self.conns[i].id);
            i = i + 1;
        }
        proof {
            assert forall|k: int| 0 <= k < ids@.len() implies self@.conns.contains_key(
                #[trigger] ids@[k],
            ) by {
                lemma_conn_at(self.conns@, k);
            }
            assert forall|id: u32| self@.conns.contains_key(id) implies ids@.contains(id) by {
                let k = conn_idx(self.conns@, id);
                assert(0 <= k < self.conns@.len() && self.conns@[k].id == id);
                assert(ids@[k] == id);
            }
        }
        ids
    }

    /// Every registered listen port with its armed accepting socket handle.
    pub fn listener_ports(&self) -> (ps: Vec<(u16, u64)>)
        requires
            self.inv(),
        ensures
            forall|k: int|
                0 <= k < ps@.len() ==> self@.listeners.contains_key((#[trigger] ps@[k]).0)
                    && self@.listeners[ps@[k].0] == ps@[k].1,
            forall|p: u16|
                self@.listeners.contains_key(p) ==> exists|k: int|
                    0 <= k < ps@.len() && #[trigger] ps@[k] == (p, self@.listeners[p]),
    {
        let n = self.listeners.len();
        let mut ps: Vec<(u16, u64)> = Vec::new();
        let mut i: usize = 0;
        while i < n
            invariant
                i <= n,
                n == self.listeners@.len(),
                ps@.len() == i,
                forall|k: int|
                    0 <= k < i ==> #[trigger] ps@[k] == (
                    self.listeners@[k].port,
                    self.listeners@[k].handle,
                ),
            decreases n - i,
        {
            ps.push((self.listeners[i].port, self.listeners[i].handle));
            i = i + 1;
        }
        proof {
            assert forall|k: int| 0 <= k < ps@.len() implies self@.listeners.contains_key((
            #[trigger] ps@[k]).0) && self@.listeners[ps@[k].0] == ps@[k].1 by {
                lemma_port_at(self.listeners@, k);
            }
            assert forall|p: u16| self@.listeners.contains_key(p) implies exists|k: int|
                0 <= k < ps@.len() && #[trigger] ps@[k] == (p, self@.listeners[p]) by {
                let k = port_idx(self.listeners@, p);
                assert(0 <= k < self.listeners@.len() && self.listeners@[k].port == p);
                lemma_port_at(self.listeners@, k);
                assert(ps@[k] == (p, self@.listeners[p]));
            }
        }
        ps
    }
}

// The laws the transitions obey, stated over the ghost model. The
// executable transitions above tie themselves to these spec-level steps, so
// each law speaks for the running engine.

/// Law: on-close fires exactly once per connection, and strictly after the
/// final on-data delivery for it — once the close has fired the record is
/// gone, so neither a second close nor any further data delivery can fire
/// for that identifier.
pub proof fn lemma_close_fires_once(m: EngineModel, id: u32)
    ensures
        !close_step(m, id).conns.contains_key(id),
        !close_fires(close_step(m, id), id),
        !data_fires(close_step(m, id), id),
{
}

/// Law: for every connection, the bytes handed to its stack socket followed
/// by the buffers still pending concatenate to exactly the submitted
/// buffers in submission order; once nothing is pending, the socket has
/// received precisely the concatenation of all submissions.
pub proof fn lemma_stream_is_submission_order(m: EngineModel, id: u32)
    requires
        m.wf(),
        m.conns.contains_key(id),
    ensures
        m.conns[id].pushed + concat_all(m.conns[id].pending) == concat_all(m.conns[id].submitted),
        m.conns[id].pending.len() == 0 ==> m.conns[id].pushed == concat_all(
            m.conns[id].submitted,
        ),
{
    assert(stream_ok(m.conns[id]));
    if m.conns[id].pending.len() == 0 {
        assert(concat_all(m.conns[id].pending) =~= Seq::<u8>::empty());
        assert(m.conns[id].pushed + Seq::<u8>::empty() =~= m.conns[id].pushed);
    }
}

/// Law: submitting and flushing keep every connection's stream bookkeeping
/// consistent, so the order of bytes promised by
/// [`lemma_stream_is_submission_order`] is preserved across both.
pub proof fn lemma_transitions_keep_streams(
    m: EngineModel,
    id: u32,
    can_send: bool,
    room: usize,
    data: Seq<u8>,
)
    requires
        m.wf(),
    ensures
        forall|j: u32|
            submit_step(m, id, can_send, room, data).conns.contains_key(j) ==> stream_ok(
                #[trigger] submit_step(m, id, can_send, room, data).conns[j],
            ),
        forall|j: u32|
            flush_one_step(m, id, can_send, room).conns.contains_key(j) ==> stream_ok(
                #[trigger] flush_one_step(m, id, can_send, room).conns[j],
            ),
{
    let ms = submit_step(m, id, can_send, room, data);
    assert forall|j: u32| ms.conns.contains_key(j) implies stream_ok(#[trigger] ms.conns[j]) by {
        if m.conns.contains_key(id) && j == id {
            let c = m.conns[id];
            lemma_concat_all_push(c.submitted, data);
            if submit_pushes(m, id, can_send, room, data) {
                assert(concat_all(c.pending) =~= Seq::<u8>::empty());
                assert(ms.conns[j].pushed + concat_all(ms.conns[j].pending) =~= concat_all(
                    ms.conns[j].submitted,
                ));
            } else {
                lemma_concat_all_push(c.pending, data);
                assert(ms.conns[j].pushed + concat_all(ms.conns[j].pending) =~= concat_all(
                    ms.conns[j].submitted,
                ));
            }
        }
    }
    let mf = flush_one_step(m, id, can_send, room);
    assert forall|j: u32| mf.conns.contains_key(j) implies stream_ok(#[trigger] mf.conns[j]) by {
        if flush_one_fires(m, id, can_send, room) && j == id {
            let c = m.conns[id];
            let head = c.pending[0];
            assert(concat_all(c.pending) == head + concat_all(c.pending.drop_first()));
            if head.len() <= room {
                assert(mf.conns[j].pushed + concat_all(mf.conns[j].pending) =~= concat_all(
                    mf.conns[j].submitted,
                ));
            } else {
                let upd = c.pending.update(0, head.skip(room as int));
                assert(upd.drop_first() =~= c.pending.drop_first());
                assert(concat_all(upd) == upd[0] + concat_all(upd.drop_first()));
                assert(head.take(room as int) + head.skip(room as int) =~= head);
                assert(mf.conns[j].pushed + concat_all(mf.conns[j].pending) =~= concat_all(
                    mf.conns[j].submitted,
                ));
            }
        }
    }
}

/// Law: identifiers are never reused — the identifier that the next
/// registration or graduation will assign is not that of any live
/// connection.
pub proof fn lemma_fresh_identifier(m: EngineModel)
    requires
        m.wf(),
    ensures
        !m.conns.contains_key(m.next_conn_id),
{
    if m.conns.contains_key(m.next_conn_id) {
        let c = m.conns[m.next_conn_id];
        assert(stream_ok(c) && m.next_conn_id < m.next_conn_id);
    }
}

/// Law: exactly one record per live stack socket — no two connections
/// borrow one handle, and no connection borrows a handle that is armed on a
/// listen port.
pub proof fn lemma_one_record_per_socket(m: EngineModel, id1: u32, id2: u32, p: u16)
    requires
        m.wf(),
    ensures
        m.conns.contains_key(id1) && m.conns.contains_key(id2) && id1 != id2
            ==> m.conns[id1].handle != m.conns[id2].handle,
        m.conns.contains_key(id1) && m.listeners.contains_key(p) ==> m.conns[id1].handle
            != m.listeners[p],
{
}

/// Law: a listen port, once registered, has exactly one armed accepting
/// socket at every state the transitions can reach — installing arms it,
/// graduation rearms it with the replacement handle in the same transition,
/// and no other transition touches the listener registry.
pub proof fn lemma_listen_port_stays_armed(
    m: EngineModel,
    port: u16,
    h: u64,
    id: u32,
    can_send: bool,
    room: usize,
    data: Seq<u8>,
)
    ensures
        listen_fires(m, port) ==> listen_step(m, port, h).listeners[port] == h,
        graduate_fires(m, port) ==> graduate_step(m, port, h).listeners.contains_key(port)
            && graduate_step(m, port, h).listeners[port] == h,
        m.listeners.contains_key(port) ==> {
            &&& close_step(m, id).listeners == m.listeners
            &&& submit_step(m, id, can_send, room, data).listeners == m.listeners
            &&& flush_one_step(m, id, can_send, room).listeners == m.listeners
            &&& register_client_step(m, h).listeners == m.listeners
            &&& graduate_step(m, port, h).listeners.contains_key(port)
            &&& listen_step(m, port, h).listeners.contains_key(port)
        },
{
}

} // verus!
