//! The pipeline task's data plane: addresses, destinations, the
//! three-class priority merge, the destination and source tables, and the
//! manager that hands out addresses.
//!
//! The runtime's asynchronous shell drives these pieces: it owns the
//! executable graph and the channels, awaits sends, and performs the
//! deliveries this module plans. Everything that decides — which class of
//! message goes first, who receives an event or a signal, how the tables
//! change — is here, with contracts. Events carry their payload as an
//! opaque token; the runtime keeps the data itself.

use vstd::prelude::*;

use crate::channel::{SendError, TrySender};

verus! {

/// Signal kinds; ticks are local to one pipeline.
#[derive(Clone, Copy, Debug, PartialEq, Eq, Structural)]
pub enum SignalKind {
    Tick,
    Drain,
    Other,
}

/// Circuit-breaker directives carried by insights.
#[derive(Clone, Copy, Debug, PartialEq, Eq, Structural)]
pub enum CbAction {
    Open,
    Close,
    Ack,
    Fail,
}

/// An event as the pipeline core routes it: control fields plus an opaque
/// payload token (the runtime owns the data behind the token). Copies made
/// for fan-out compare equal to the original.
#[derive(Clone, Copy, Debug, PartialEq, Eq, Structural)]
pub struct Event {
    pub id: u64,
    pub ingest_ns: u64,
    pub kind: Option<SignalKind>,
    pub cb: Option<CbAction>,
    pub payload: u64,
}

/// A peer endpoint: its identity and, where it has one, the named port
/// instance events are addressed to.
#[derive(Clone, Debug, PartialEq, Eq)]
pub struct PeerRef {
    pub id: u64,
    pub instance_port: Option<Vec<u8>>,
}

/// Forward-channel messages.
pub enum Msg {
    Event { input: Vec<u8>, event: Event },
    Signal(Event),
}

/// Contraflow-channel messages.
pub enum CfMsg {
    Insight(Event),
}

/// Messages to a downstream sink.
pub enum OfframpMsg {
    Event { input: Vec<u8>, event: Event },
    Signal(Event),
}

/// Messages to an upstream source.
#[derive(Clone, Copy, Debug, PartialEq, Eq, Structural)]
pub enum OnrampMsg {
    Cb(CbAction, u64),
}

/// Address of a pipeline: the three send handles and an identifier. The
/// forward handle buffers overflow; the clone of an address shares the
/// queues but starts with an empty overflow of its own.
pub struct Addr {
    pub addr: TrySender<Msg>,
    pub cf_addr: async_channel::Sender<CfMsg>,
    pub mgmt_addr: async_channel::Sender<MgmtMsg>,
    pub id: u64,
}

impl Addr {
    pub fn new(
        addr: TrySender<Msg>,
        cf_addr: async_channel::Sender<CfMsg>,
        mgmt_addr: async_channel::Sender<MgmtMsg>,
        id: u64,
    ) -> (r: Addr)
        ensures
            r.addr == addr,
            r.cf_addr == cf_addr,
            r.mgmt_addr == mgmt_addr,
            r.id == id,
    {
        Addr { addr, cf_addr, mgmt_addr, id }
    }

    /// Messages queued on the forward channel right now (a snapshot).
    pub fn len(&self) -> usize {
        self.addr.len()
    }

    pub fn id(&self) -> (r: u64)
        ensures
            r == self.id,
    {
        self.id
    }

    /// Non-blocking forward send with overflow; order-preserving.
    pub fn try_send_safe(&mut self, msg: Msg) -> (r: Result<(), SendError>)
        requires
            old(self).addr.wf(),
        ensures
            final(self).addr.wf(),
            final(self).cf_addr == old(self).cf_addr,
            final(self).mgmt_addr == old(self).mgmt_addr,
            final(self).id == old(self).id,
            old(self).addr.pending@.len() > 0 ==> r is Ok,
            r is Ok ==> final(self).addr.submitted() == old(self).addr.submitted().push(msg),
            r is Err ==> final(self).addr.submitted() == old(self).addr.submitted(),
    {
        self.addr.try_send_safe(msg)
    }

    /// Best-effort forward send; may discard on a full channel.
    pub fn maybe_send(&self, msg: Msg) -> bool {
        self.addr.maybe_send(msg)
    }

    /// Replay the forward overflow; true once it is empty and the channel
    /// has room.
    pub fn drain_ready(&mut self) -> (r: bool)
        requires
            old(self).addr.wf(),
        ensures
            final(self).addr.wf(),
            final(self).cf_addr == old(self).cf_addr,
            final(self).mgmt_addr == old(self).mgmt_addr,
            final(self).id == old(self).id,
            final(self).addr.submitted() == old(self).addr.submitted(),
            r ==> final(self).addr.pending@.len() == 0,
    {
        self.addr.drain_ready()
    }

    /// The contraflow send handle, for awaitable insight submission.
    pub fn cf_sender(&self) -> (r: &async_channel::Sender<CfMsg>)
        ensures
            *r == self.cf_addr,
    {
        &self.cf_addr
    }

    /// The management send handle, for awaitable topology changes.
    pub fn mgmt_sender(&self) -> (r: &async_channel::Sender<MgmtMsg>)
        ensures
            *r == self.mgmt_addr,
    {
        &self.mgmt_addr
    }

    /// The forward send handle, for awaitable sends.
    pub fn forward_sender(&self) -> (r: &async_channel::Sender<Msg>)
        ensures
            *r == self.addr.addr,
    {
        self.addr.sender()
    }

    /// The data-plane view of this address, as peers hold it.
    pub fn peer(&self) -> (r: PeerAddr)
        ensures
            r.id == self.id,
            r.addr.wf(),
            r.addr.pending@.len() == 0,
    {
        PeerAddr {
            addr: self.addr.clone(),
            cf_addr: crate::channel::clone_sender(&self.cf_addr),
            id: self.id,
        }
    }
}

impl Clone for Addr {
    /// The clone shares all three channels but keeps an independent
    /// (empty) forward overflow.
    fn clone(&self) -> (r: Self)
        ensures
            r.id == self.id,
            r.addr.wf(),
            r.addr.pending@.len() == 0,
    {
        Addr {
            addr: self.addr.clone(),
            cf_addr: crate::channel::clone_sender(&self.cf_addr),
            mgmt_addr: crate::channel::clone_sender(&self.mgmt_addr),
            id: self.id,
        }
    }
}

/// A peer pipeline as a destination: its data-plane handles. The
/// management handle stays with the address owner, so topology messages
/// cannot nest addresses inside themselves.
pub struct PeerAddr {
    pub addr: TrySender<Msg>,
    pub cf_addr: async_channel::Sender<CfMsg>,
    pub id: u64,
}

impl Clone for PeerAddr {
    /// The clone shares the channels but keeps an independent (empty)
    /// forward overflow.
    fn clone(&self) -> (r: Self)
        ensures
            r.id == self.id,
            r.addr.wf(),
            r.addr.pending@.len() == 0,
    {
        PeerAddr {
            addr: self.addr.clone(),
            cf_addr: crate::channel::clone_sender(&self.cf_addr),
            id: self.id,
        }
    }
}

/// A destination of a pipeline output port: a downstream sink behind a
/// buffered sender, or a peer pipeline.
pub enum Dest {
    Offramp(TrySender<OfframpMsg>),
    Pipeline(Box<PeerAddr>),
}

/// Whether a signal of the given kind is delivered to a destination: a
/// peer pipeline never receives a tick — each pipeline has its own ticks.
pub open spec fn signal_delivered(d: Dest, kind: Option<SignalKind>) -> bool {
    !(d matches Dest::Pipeline(_) && kind == Some(SignalKind::Tick))
}

impl Dest {
    /// Decide signal delivery; the runtime performs the send.
    pub fn delivers_signal(&self, signal: &Event) -> (r: bool)
        ensures
            r == signal_delivered(*self, signal.kind),
    {
        match self {
            Dest::Offramp(_) => true,
            Dest::Pipeline(_) => match signal.kind {
                Some(SignalKind::Tick) => false,
                _ => true,
            },
        }
    }
}

/// Ticks never reach a peer pipeline's forward queue: a tick signal is
/// delivered to no pipeline destination.
pub proof fn lemma_tick_stays_local(d: Dest, kind: Option<SignalKind>)
    requires
        d matches Dest::Pipeline(_),
        kind == Some(SignalKind::Tick),
    ensures
        !signal_delivered(d, kind),
{
}

/// Topology changes accepted on the management channel.
pub enum MgmtMsg {
    ConnectOfframp(Vec<u8>, PeerRef, TrySender<OfframpMsg>),
    ConnectOnramp(u64, async_channel::Sender<OnrampMsg>),
    ConnectPipeline(Vec<u8>, PeerRef, Box<PeerAddr>),
    DisconnectOutput(Vec<u8>, u64),
    DisconnectInput(u64),
}

/// One merged item, by class.
pub enum MergeItem {
    Mgmt(MgmtMsg),
    Cf(CfMsg),
    Fwd(Msg),
}

/// The three-class priority merge over drained snapshots: management
/// before contraflow before forward, each class in arrival order.
pub struct PriorityMerge {
    pub mgmt: Vec<MgmtMsg>,
    pub cf: Vec<CfMsg>,
    pub fwd: Vec<Msg>,
}

impl PriorityMerge {
    pub fn new(mgmt: Vec<MgmtMsg>, cf: Vec<CfMsg>, fwd: Vec<Msg>) -> (r: PriorityMerge)
        ensures
            r.mgmt == mgmt,
            r.cf == cf,
            r.fwd == fwd,
    {
        PriorityMerge { mgmt, cf, fwd }
    }

    /// Yield the next item by strict class priority: while any management
    /// item waits it goes first, then contraflow, then forward; the merge
    /// ends only when all three queues are empty.
    pub fn next(&mut self) -> (r: Option<MergeItem>)
        ensures
            old(self).mgmt@.len() > 0 ==> {
                &&& r matches Some(it) && it matches MergeItem::Mgmt(m) && m == old(self).mgmt@[0]
                &&& final(self).mgmt@ == old(self).mgmt@.skip(1)
                &&& final(self).cf == old(self).cf
                &&& final(self).fwd == old(self).fwd
            },
            old(self).mgmt@.len() == 0 && old(self).cf@.len() > 0 ==> {
                &&& r matches Some(it) && it matches MergeItem::Cf(m) && m == old(self).cf@[0]
                &&& final(self).cf@ == old(self).cf@.skip(1)
                &&& final(self).mgmt == old(self).mgmt
                &&& final(self).fwd == old(self).fwd
            },
            old(self).mgmt@.len() == 0 && old(self).cf@.len() == 0 && old(self).fwd@.len() > 0
                ==> {
                &&& r matches Some(it) && it matches MergeItem::Fwd(m) && m == old(self).fwd@[0]
                &&& final(self).fwd@ == old(self).fwd@.skip(1)
                &&& final(self).mgmt == old(self).mgmt
                &&& final(self).cf == old(self).cf
            },
            old(self).mgmt@.len() == 0 && old(self).cf@.len() == 0 && old(self).fwd@.len() == 0
                ==> {
                &&& r is None
                &&& final(self).mgmt == old(self).mgmt
                &&& final(self).cf == old(self).cf
                &&& final(self).fwd == old(self).fwd
            },
    {
        if self.mgmt.len() > 0 {
            let m = self.mgmt.remove(0);
            proof {
                assert(self.mgmt@ =~= old(self).mgmt@.skip(1));
            }
            Some(MergeItem::Mgmt(m))
        } else if self.cf.len() > 0 {
            let m = self.cf.remove(0);
            proof {
                assert(self.cf@ =~= old(self).cf@.skip(1));
            }
            Some(MergeItem::Cf(m))
        } else if self.fwd.len() > 0 {
            let m = self.fwd.remove(0);
            proof {
                assert(self.fwd@ =~= old(self).fwd@.skip(1));
            }
            Some(MergeItem::Fwd(m))
        } else {
            None
        }
    }
}

/// Tick cadence in milliseconds.
pub const TICK_MS: u64 = 1000;

/// Depth of the manager's own command channel.
pub const MGMT_QSIZE: usize = 64;

/// The periodic liveness signal a pipeline emits to itself.
pub fn tick_signal(now_ns: u64) -> (e: Event)
    ensures
        e.kind == Some(SignalKind::Tick),
        e.ingest_ns == now_ns,
        e.cb is None,
        e.id == 0,
{
    Event { id: 0, ingest_ns: now_ns, kind: Some(SignalKind::Tick), cb: None, payload: 0 }
}

/// Swallow a per-event delivery error, as the task's main loop does;
/// reports whether delivery succeeded so the caller may log.
pub fn try_send(r: Result<(), SendError>) -> (ok: bool)
    ensures
        ok == (r is Ok),
{
    match r {
        Ok(()) => true,
        Err(_) => false,
    }
}

/// A stand-in for the compiled pipeline artefact, which the runtime owns.
#[derive(Clone, Copy, Debug, PartialEq, Eq, Structural)]
pub struct PipelineConfig {
    pub handle: u64,
}

/// A request to create one pipeline instance.
pub struct Create {
    pub config: PipelineConfig,
    pub id: u64,
}

/// Commands the manager accepts.
pub enum ManagerMsg {
    Stop,
    Create(async_channel::Sender<Result<Addr, SendError>>, Create),
}

/// Spawns pipeline tasks; its identifiers live in a reserved high
/// bit-range so they never collide with source identifiers.
#[derive(Debug)]
pub struct Manager {
    pub qsize: usize,
    pub uid: u64,
}

impl Manager {
    /// A manager whose channels have the given depth; operator
    /// identifiers start at the reserved high bit.
    pub fn new(qsize: usize) -> (r: Manager)
        ensures
            r.qsize == qsize,
            r.uid == 0x8000_0000_0000_0000u64,
    {
        Manager { qsize, uid: 0x8000_0000_0000_0000u64 }
    }
}

// ------------------------------------------------------------------
// Destination table: output port -> ordered list of (peer, destination).
// ------------------------------------------------------------------
/// The destination table of one pipeline. Port keys are unique and no
/// port maps to an empty list.
pub struct DestTable {
    pub entries: Vec<(Vec<u8>, Vec<(PeerRef, Dest)>)>,
}

/// The entries of `l` whose peer is not `id`, in order.
pub open spec fn remove_id(l: Seq<(PeerRef, Dest)>, id: u64) -> Seq<(PeerRef, Dest)>
    decreases l.len(),
{
    if l.len() == 0 {
        Seq::empty()
    } else if l[0].0.id != id {
        seq![l[0]] + remove_id(l.skip(1), id)
    } else {
        remove_id(l.skip(1), id)
    }
}

impl DestTable {
    pub open spec fn wf(self) -> bool {
        &&& forall|i: int, j: int|
            0 <= i < j < self.entries@.len() ==> (#[trigger] self.entries@[i]).0@ != (
            #[trigger] self.entries@[j]).0@
        &&& forall|i: int| 0 <= i < self.entries@.len() ==> (#[trigger] self.entries@[i]).1@.len()
            >= 1
    }

    pub open spec fn has_port(self, port: Seq<u8>) -> bool {
        exists|i: int| 0 <= i < self.entries@.len() && (#[trigger] self.entries@[i]).0@ == port
    }

    pub open spec fn port_ix(self, port: Seq<u8>) -> int {
        choose|i: int| 0 <= i < self.entries@.len() && (#[trigger] self.entries@[i]).0@ == port
    }

    /// The ordered destination list of a port.
    pub open spec fn port_list(self, port: Seq<u8>) -> Seq<(PeerRef, Dest)> {
        self.entries@[self.port_ix(port)].1@
    }

    pub fn new() -> (r: DestTable)
        ensures
            r.wf(),
            r.entries@.len() == 0,
            forall|q: Seq<u8>| !(#[trigger] r.has_port(q)),
    {
        DestTable { entries: Vec::new() }
    }

    /// Index of a port's entry, if the port is connected.
    fn find_port(&self, port: &[u8]) -> (r: Option<usize>)
        requires
            self.wf(),
        ensures
            r matches Some(i) ==> i < self.entries@.len() && self.entries@[i as int].0@ == port@
                && self.has_port(port@) && self.port_ix(port@) == i,
            r is None ==> !self.has_port(port@),
    {
        let mut i: usize = 0;
        while i < self.entries.len()
            invariant
                i <= self.entries@.len(),
                self.wf(),
                forall|j: int| 0 <= j < i ==> (#[trigger] self.entries@[j]).0@ != port@,
            decreases self.entries@.len() - i,
        {
            if crate::segments::bytes_eq((&self.entries[i].0).as_slice(), port) {
                proof {
                    let k = self.port_ix(port@);
                    assert(self.entries@[i as int].0@ == port@);
                    assert(self.has_port(port@));
                    if k != i {
                        assert(self.entries@[k].0@ == self.entries@[i as int].0@);
                    }
                }
                return Some(i);
            }
            i = i + 1;
        }
        proof {
            if self.has_port(port@) {
                let k = choose|k: int|
                    0 <= k < self.entries@.len() && (#[trigger] self.entries@[k]).0@ == port@;
                assert(self.entries@[k].0@ != port@);
            }
        }
        None
    }

    /// Append a destination to a port's list, creating the port entry if
    /// absent; other ports are untouched.
    pub fn connect_output(&mut self, port: Vec<u8>, id: PeerRef, dest: Dest)
        requires
            old(self).wf(),
        ensures
            connect_rel(*old(self), *final(self), port@, id, dest),
    {
        let ghost port_v = port@;
        match self.find_port(port.as_slice()) {
            Some(i) => {
                let ghost oldents = self.entries@;
                let mut entry = self.entries.remove(i);
                entry.1.push((id, dest));
                self.entries.insert(i, entry);
                proof {
                    assert(self.entries@ =~= oldents.update(
                        i as int,
                        (oldents[i as int].0, entry.1),
                    ));
                    lemma_update_keeps_ports(*old(self), *self, i as int);
                    assert(self.port_ix(port_v) == i) by {
                        let k = self.port_ix(port_v);
                        assert(self.entries@[i as int].0@ == port_v);
                        assert(self.has_port(port_v));
                        if k != i {
                            assert(self.entries@[k].0@ == self.entries@[i as int].0@);
                        }
                    }
                    assert(self.port_list(port_v) =~= old(self).port_list(port_v).push(
                        (id, dest),
                    ));
                }
            },
            None => {
                let ghost oldents = self.entries@;
                let mut lst: Vec<(PeerRef, Dest)> = Vec::new();
                lst.push((id, dest));
                let n = self.entries.len();
                self.entries.push((port, lst));
                proof {
                    assert(self.entries@ =~= oldents.push((port, lst)));
                    assert(self.wf()) by {
                        assert forall|a: int, b: int|
                            0 <= a < b < self.entries@.len() implies (
                        #[trigger] self.entries@[a]).0@ != (#[trigger] self.entries@[b]).0@ by {
                            if b == n {
                                assert(self.entries@[a] == oldents[a]);
                                if oldents[a].0@ == port_v {
                                    assert(old(self).has_port(port_v));
                                }
                            }
                        }
                    }
                    assert(self.entries@[n as int].0@ == port_v);
                    assert(self.has_port(port_v));
                    assert(self.port_ix(port_v) == n) by {
                        let k = self.port_ix(port_v);
                        if k != n {
                            assert(oldents[k].0@ == port_v);
                            assert(old(self).has_port(port_v));
                        }
                    }
                    assert(self.port_list(port_v) =~= Seq::<(PeerRef, Dest)>::empty().push(
                        (id, dest),
                    ));
                    assert forall|q: Seq<u8>| q != port_v implies #[trigger] self.has_port(q)
                        == old(self).has_port(q) by {
                        if self.has_port(q) {
                            let k = choose|k: int|
                                0 <= k < self.entries@.len() && (#[trigger] self.entries@[k]).0@
                                    == q;
                            assert(k != n);
                            assert(oldents[k].0@ == q);
                        }
                        if old(self).has_port(q) {
                            let k = choose|k: int|
                                0 <= k < oldents.len() && (#[trigger] oldents[k]).0@ == q;
                            assert(self.entries@[k].0@ == q);
                        }
                    }
                    assert forall|q: Seq<u8>| q != port_v && old(self).has_port(q) implies
                        #[trigger] self.port_list(q) == old(self).port_list(q) by {
                        let k = old(self).port_ix(q);
                        assert(self.entries@[k].0@ == q);
                        let k2 = self.port_ix(q);
                        assert(self.entries@[k2].0@ == q);
                        if k2 != k {
                            if k2 == n {
                                assert(self.entries@[k2].0@ == port_v);
                            } else {
                                assert(oldents[k2].0@ == q);
                            }
                        }
                    }
                }
            },
        }
    }

    /// Remove the destinations of `id` from a port's list; a port whose
    /// list empties disappears. A send on that port then plans zero
    /// deliveries and still succeeds.
    pub fn disconnect_output(&mut self, port: &[u8], id: u64)
        requires
            old(self).wf(),
        ensures
            disconnect_rel(*old(self), *final(self), port@, id),
    {
        let ghost port_v = port@;
        match self.find_port(port) {
            Some(i) => {
                let ghost oldents = self.entries@;
                let ghost oldlist = self.entries@[i as int].1@;
                let entry = self.entries.remove(i);
                let (key, mut lst) = entry;
                let mut kept: Vec<(PeerRef, Dest)> = Vec::new();
                proof {
                    assert(kept@ + remove_id(lst@, id) =~= remove_id(oldlist, id));
                }
                while lst.len() > 0
                    invariant
                        kept@ + remove_id(lst@, id) == remove_id(oldlist, id),
                    decreases lst@.len(),
                {
                    let ghost pre = lst@;
                    let e = lst.remove(0);
                    proof {
                        assert(lst@ =~= pre.skip(1));
                        assert(pre[0] == e);
                    }
                    if e.0.id != id {
                        let ghost keptpre = kept@;
                        kept.push(e);
                        proof {
                            assert(kept@ + remove_id(lst@, id) =~= (keptpre + (seq![e]
                                + remove_id(pre.skip(1), id))));
                            assert(keptpre + (seq![e] + remove_id(pre.skip(1), id)) =~= keptpre
                                + remove_id(pre, id));
                        }
                    }
                }
                proof {
                    assert(remove_id(lst@, id) =~= Seq::<(PeerRef, Dest)>::empty());
                    assert(kept@ =~= remove_id(oldlist, id));
                }
                if kept.len() > 0 {
                    self.entries.insert(i, (key, kept));
                    proof {
                        assert(self.entries@ =~= oldents.update(
                            i as int,
                            (oldents[i as int].0, kept),
                        ));
                        lemma_update_keeps_ports(*old(self), *self, i as int);
                        assert(self.port_ix(port_v) == i) by {
                            let k = self.port_ix(port_v);
                            assert(self.entries@[i as int].0@ == port_v);
                            assert(self.has_port(port_v));
                            if k != i {
                                assert(self.entries@[k].0@ == self.entries@[i as int].0@);
                            }
                        }
                    }
                } else {
                    proof {
                        assert(self.entries@ =~= oldents.remove(i as int));
                        assert(self.wf()) by {
                            assert forall|a: int, b: int|
                                0 <= a < b < self.entries@.len() implies (
                            #[trigger] self.entries@[a]).0@ != (#[trigger] self.entries@[b]).0@ by {
                                let a0 = if a < i {
                                    a
                                } else {
                                    a + 1
                                };
                                let b0 = if b < i {
                                    b
                                } else {
                                    b + 1
                                };
                                assert(self.entries@[a] == oldents[a0]);
                                assert(self.entries@[b] == oldents[b0]);
                            }
                        }
                        assert(!self.has_port(port_v)) by {
                            if self.has_port(port_v) {
                                let k = choose|k: int|
                                    0 <= k < self.entries@.len() && (
                                    #[trigger] self.entries@[k]).0@ == port_v;
                                let k0 = if k < i {
                                    k
                                } else {
                                    k + 1
                                };
                                assert(oldents[k0].0@ == port_v);
                                assert(k0 != i);
                                assert(oldents[i as int].0@ == port_v);
                            }
                        }
                        assert forall|q: Seq<u8>| q != port_v implies #[trigger] self.has_port(q)
                            == old(self).has_port(q) by {
                            if self.has_port(q) {
                                let k = choose|k: int|
                                    0 <= k < self.entries@.len() && (
                                    #[trigger] self.entries@[k]).0@ == q;
                                let k0 = if k < i {
                                    k
                                } else {
                                    k + 1
                                };
                                assert(oldents[k0].0@ == q);
                            }
                            if old(self).has_port(q) {
                                let k0 = choose|k0: int|
                                    0 <= k0 < oldents.len() && (#[trigger] oldents[k0]).0@ == q;
                                assert(k0 != i);
                                let k = if k0 < i {
                                    k0
                                } else {
                                    k0 - 1
                                };
                                assert(self.entries@[k].0@ == q);
                            }
                        }
                        assert forall|q: Seq<u8>| q != port_v && old(self).has_port(q) implies
                            #[trigger] self.port_list(q) == old(self).port_list(q) by {
                            let k0 = old(self).port_ix(q);
                            assert(oldents[k0].0@ == q);
                            assert(k0 != i);
                            let k = if k0 < i {
                                k0
                            } else {
                                k0 - 1
                            };
                            assert(self.entries@[k].0@ == q);
                            let k2 = self.port_ix(q);
                            assert(self.has_port(q));
                            assert(self.entries@[k2].0@ == q);
                            if k2 != k {
                                let k20 = if k2 < i {
                                    k2
                                } else {
                                    k2 + 1
                                };
                                assert(oldents[k20].0@ == q);
                            }
                        }
                    }
                }
            },
            None => {},
        }
    }
}

/// After an update of entry `i` that keeps its key, the ports and the
/// other lists are as before.
proof fn lemma_update_keeps_ports(o: DestTable, n: DestTable, i: int)
    requires
        o.wf(),
        0 <= i < o.entries@.len(),
        n.entries@.len() == o.entries@.len(),
        n.entries@[i].0@ == o.entries@[i].0@,
        n.entries@[i].1@.len() >= 1,
        forall|j: int| 0 <= j < o.entries@.len() && j != i ==> #[trigger] n.entries@[j]
            == o.entries@[j],
    ensures
        n.wf(),
        forall|q: Seq<u8>| #[trigger] n.has_port(q) == o.has_port(q),
        forall|q: Seq<u8>|
            o.has_port(q) && q != o.entries@[i].0@ ==> #[trigger] n.port_list(q) == o.port_list(
                q,
            ) && n.port_ix(q) == o.port_ix(q),
{
    assert forall|a: int, b: int| 0 <= a < b < n.entries@.len() implies (
    #[trigger] n.entries@[a]).0@ != (#[trigger] n.entries@[b]).0@ by {
        assert(n.entries@[a].0@ == o.entries@[a].0@);
        assert(n.entries@[b].0@ == o.entries@[b].0@);
    }
    assert forall|j: int| 0 <= j < n.entries@.len() implies (#[trigger] n.entries@[j]).1@.len()
        >= 1 by {
        if j != i {
            assert(n.entries@[j] == o.entries@[j]);
        }
    }
    assert forall|q: Seq<u8>| #[trigger] n.has_port(q) == o.has_port(q) by {
        if n.has_port(q) {
            let k = choose|k: int|
                0 <= k < n.entries@.len() && (#[trigger] n.entries@[k]).0@ == q;
            assert(o.entries@[k].0@ == q);
        }
        if o.has_port(q) {
            let k = choose|k: int|
                0 <= k < o.entries@.len() && (#[trigger] o.entries@[k]).0@ == q;
            assert(n.entries@[k].0@ == q);
        }
    }
    assert forall|q: Seq<u8>| o.has_port(q) && q != o.entries@[i].0@ implies
        #[trigger] n.port_list(q) == o.port_list(q) && n.port_ix(q) == o.port_ix(q) by {
        let k0 = o.port_ix(q);
        assert(o.entries@[k0].0@ == q);
        assert(k0 != i);
        assert(n.entries@[k0].0@ == q);
        let k = n.port_ix(q);
        assert(n.has_port(q));
        assert(n.entries@[k].0@ == q);
        if k != k0 {
            assert(o.entries@[k].0@ == n.entries@[k].0@ || k == i);
            if k == i {
                assert(n.entries@[i].0@ == o.entries@[i].0@);
            } else {
                assert(o.entries@[k].0@ == q);
            }
        }
    }
}

/// How a `ConnectOfframp`/`ConnectPipeline` changes the table.
pub open spec fn connect_rel(
    o: DestTable,
    n: DestTable,
    port: Seq<u8>,
    id: PeerRef,
    dest: Dest,
) -> bool {
    &&& n.wf()
    &&& n.has_port(port)
    &&& n.port_list(port) == (if o.has_port(port) {
        o.port_list(port)
    } else {
        Seq::<(PeerRef, Dest)>::empty()
    }).push((id, dest))
    &&& forall|q: Seq<u8>| q != port ==> #[trigger] n.has_port(q) == o.has_port(q)
    &&& forall|q: Seq<u8>| q != port && o.has_port(q) ==> #[trigger] n.port_list(q) == o.port_list(
        q,
    )
}

/// How a `DisconnectOutput` changes the table: the peer's entries leave
/// the port's list; a port with nothing left disappears.
pub open spec fn disconnect_rel(o: DestTable, n: DestTable, port: Seq<u8>, id: u64) -> bool {
    &&& n.wf()
    &&& !o.has_port(port) ==> n == o
    &&& o.has_port(port) ==> {
        let fl = remove_id(o.port_list(port), id);
        &&& (fl.len() == 0 ==> !n.has_port(port))
        &&& (fl.len() > 0 ==> n.has_port(port) && n.port_list(port) == fl)
    }
    &&& forall|q: Seq<u8>| q != port ==> #[trigger] n.has_port(q) == o.has_port(q)
    &&& forall|q: Seq<u8>| q != port && o.has_port(q) ==> #[trigger] n.port_list(q) == o.port_list(
        q,
    )
}

/// Errors of the topology plane.
#[derive(Clone, Copy, Debug, PartialEq, Eq, Structural)]
pub enum TopologyError {
    MissingInstancePort,
}

/// One planned event delivery: which table entry receives the event and
/// under which input port name.
pub struct Delivery {
    pub port_ix: usize,
    pub entry_ix: usize,
    pub input: Vec<u8>,
    pub event: Event,
}

/// One planned signal delivery.
pub struct SignalDelivery {
    pub port_ix: usize,
    pub entry_ix: usize,
    pub signal: Event,
}

impl DestTable {
    /// Plan the fan-out of one event on one port: every destination of
    /// the port, in insertion order, each addressed by its peer's
    /// instance port. A port with no destinations — also one just
    /// disconnected — yields zero deliveries and still succeeds; a peer
    /// without an instance port fails the event.
    #[verifier::loop_isolation(false)]
    pub fn plan_event_sends(&self, port: &[u8], event: Event) -> (r: Result<
        Vec<Delivery>,
        TopologyError,
    >)
        requires
            self.wf(),
        ensures
            !self.has_port(port@) ==> (r matches Ok(v) && v@.len() == 0),
            self.has_port(port@) ==> {
                let l = self.port_list(port@);
                &&& (r is Ok <==> (forall|k: int|
                    0 <= k < l.len() ==> (#[trigger] l[k]).0.instance_port is Some))
                &&& (r matches Ok(v) ==> v@.len() == l.len() && (forall|k: int|
                    0 <= k < l.len() ==> {
                        &&& (#[trigger] v@[k]).port_ix == self.port_ix(port@)
                        &&& v@[k].entry_ix == k
                        &&& v@[k].event == event
                        &&& l[k].0.instance_port matches Some(p) && v@[k].input@ == p@
                    }))
            },
    {
        let mut out: Vec<Delivery> = Vec::new();
        match self.find_port(port) {
            Some(i) => {
                let ghost l = self.port_list(port@);
                let n = self.entries[i].1.len();
                let mut k: usize = 0;
                while k < n
                    invariant
                        k <= n,
                        out@.len() == k,
                        forall|j: int|
                            0 <= j < k ==> {
                                &&& (#[trigger] out@[j]).port_ix == i
                                &&& out@[j].entry_ix == j
                                &&& out@[j].event == event
                                &&& l[j].0.instance_port matches Some(p) && out@[j].input@ == p@
                            },
                    decreases n - k,
                {
                    match &self.entries[i].1[k].0.instance_port {
                        Some(p) => {
                            let mut input: Vec<u8> = Vec::new();
                            crate::segments::push_all(&mut input, p.as_slice());
                            proof {
                                assert(input@ =~= p@);
                            }
                            out.push(Delivery { port_ix: i, entry_ix: k, input, event });
                        },
                        None => {
                            proof {
                                assert(l[k as int].0.instance_port is None);
                                assert(!(forall|kk: int|
                                    0 <= kk < l.len() ==> (#[trigger] l[kk]).0.instance_port
                                        is Some));
                            }
                            return Err(TopologyError::MissingInstancePort);
                        },
                    }
                    k = k + 1;
                }
                proof {
                    assert(out@.len() == l.len());
                    assert forall|kk: int|
                        0 <= kk < l.len() implies (#[trigger] l[kk]).0.instance_port is Some by {
                        assert(out@[kk].event == event);
                    }
                }
                Ok(out)
            },
            None => Ok(out),
        }
    }

    /// Plan the fan-out of one signal: every destination of every port
    /// receives it exactly as planned, except the pipeline's own entry
    /// and — for a tick — every peer pipeline: no planned delivery
    /// carries a tick to a peer, and every other destination is planned.
    #[verifier::loop_isolation(false)]
    #[verifier::rlimit(100)]
    #[verifier::spinoff_prover]
    pub fn plan_signal_sends(&self, own_id: u64, signal: Event) -> (r: Vec<SignalDelivery>)
        requires
            self.wf(),
        ensures
            forall|k: int|
                0 <= k < r@.len() ==> {
                    let d = #[trigger] r@[k];
                    &&& d.port_ix < self.entries@.len()
                    &&& d.entry_ix < self.entries@[d.port_ix as int].1@.len()
                    &&& d.signal == signal
                    &&& self.entries@[d.port_ix as int].1@[d.entry_ix as int].0.id != own_id
                    &&& signal_delivered(
                        self.entries@[d.port_ix as int].1@[d.entry_ix as int].1,
                        signal.kind,
                    )
                },
            forall|i: int, j: int|
                0 <= i < self.entries@.len() && 0 <= j < self.entries@[i].1@.len() && (
                #[trigger] self.entries@[i].1@[j]).0.id != own_id && signal_delivered(
                    self.entries@[i].1@[j].1,
                    signal.kind,
                ) ==> exists|k: int|
                    0 <= k < r@.len() && (#[trigger] r@[k]).port_ix == i && r@[k].entry_ix == j,
            forall|k1: int, k2: int|
                0 <= k1 < k2 < r@.len() ==> !((#[trigger] r@[k1]).port_ix == (
                #[trigger] r@[k2]).port_ix && r@[k1].entry_ix == r@[k2].entry_ix),
    {
        let mut out: Vec<SignalDelivery> = Vec::new();
        let mut i: usize = 0;
        while i < self.entries.len()
            invariant
                i <= self.entries@.len(),
                forall|k: int|
                    0 <= k < out@.len() ==> {
                        let d = #[trigger] out@[k];
                        &&& d.port_ix < self.entries@.len()
                        &&& d.entry_ix < self.entries@[d.port_ix as int].1@.len()
                        &&& d.signal == signal
                        &&& self.entries@[d.port_ix as int].1@[d.entry_ix as int].0.id != own_id
                        &&& signal_delivered(
                            self.entries@[d.port_ix as int].1@[d.entry_ix as int].1,
                            signal.kind,
                        )
                    },
                forall|i0: int, j0: int|
                    0 <= i0 < i && 0 <= j0 < self.entries@[i0].1@.len() && (
                    #[trigger] self.entries@[i0].1@[j0]).0.id != own_id && signal_delivered(
                        self.entries@[i0].1@[j0].1,
                        signal.kind,
                    ) ==> exists|k: int|
                        0 <= k < out@.len() && (#[trigger] out@[k]).port_ix == i0
                            && out@[k].entry_ix == j0,
                forall|k: int| 0 <= k < out@.len() ==> (#[trigger] out@[k]).port_ix < i,
                forall|k1: int, k2: int|
                    0 <= k1 < k2 < out@.len() ==> (#[trigger] out@[k1]).port_ix < (
                    #[trigger] out@[k2]).port_ix || (out@[k1].port_ix == out@[k2].port_ix
                        && out@[k1].entry_ix < out@[k2].entry_ix),
            decreases self.entries@.len() - i,
        {
            let ghost before = out@;
            plan_signal_port(&self.entries[i].1, i, own_id, signal, &mut out);
            proof {
                assert forall|i0: int, j0: int|
                    0 <= i0 < i + 1 && 0 <= j0 < self.entries@[i0].1@.len() && (
                    #[trigger] self.entries@[i0].1@[j0]).0.id != own_id && signal_delivered(
                        self.entries@[i0].1@[j0].1,
                        signal.kind,
                    ) implies exists|k: int|
                        0 <= k < out@.len() && (#[trigger] out@[k]).port_ix == i0
                            && out@[k].entry_ix == j0 by {
                    if i0 < i {
                        let k = choose|k: int|
                            0 <= k < before.len() && (#[trigger] before[k]).port_ix == i0
                                && before[k].entry_ix == j0;
                        assert(out@[k] == before[k]);
                    } else {
                        let k = choose|k: int|
                            before.len() <= k < out@.len() && (#[trigger] out@[k]).entry_ix == j0
                                && out@[k].port_ix == i as int;
                        assert(out@[k].port_ix == i0 && out@[k].entry_ix == j0);
                    }
                }
            }
            i = i + 1;
        }
        out
    }
}

/// Plan one port's share of a signal fan-out: exactly the eligible
/// entries, in order.
#[verifier::loop_isolation(false)]
#[verifier::rlimit(100)]
#[verifier::spinoff_prover]
fn plan_signal_port(
    list: &Vec<(PeerRef, Dest)>,
    port_ix: usize,
    own_id: u64,
    signal: Event,
    out: &mut Vec<SignalDelivery>,
)
    ensures
        final(out)@.len() >= old(out)@.len(),
        forall|k: int| 0 <= k < old(out)@.len() ==> #[trigger] final(out)@[k] == old(out)@[k],
        forall|k: int|
            old(out)@.len() <= k < final(out)@.len() ==> {
                let d = #[trigger] final(out)@[k];
                &&& d.port_ix == port_ix
                &&& d.entry_ix < list@.len()
                &&& d.signal == signal
                &&& list@[d.entry_ix as int].0.id != own_id
                &&& signal_delivered(list@[d.entry_ix as int].1, signal.kind)
            },
        forall|j: int|
            0 <= j < list@.len() && (#[trigger] list@[j]).0.id != own_id && signal_delivered(
                list@[j].1,
                signal.kind,
            ) ==> exists|k: int|
                old(out)@.len() <= k < final(out)@.len() && (#[trigger] final(out)@[k]).entry_ix
                    == j && final(out)@[k].port_ix == port_ix,
        forall|k1: int, k2: int|
            old(out)@.len() <= k1 < k2 < final(out)@.len() ==> (
            #[trigger] final(out)@[k1]).entry_ix < (#[trigger] final(out)@[k2]).entry_ix,
{
    let ghost base = out@;
    let mut j: usize = 0;
    while j < list.len()
        invariant
            j <= list@.len(),
            base.len() <= out@.len(),
            forall|k: int| 0 <= k < base.len() ==> #[trigger] out@[k] == base[k],
            forall|k: int|
                base.len() <= k < out@.len() ==> {
                    let d = #[trigger] out@[k];
                    &&& d.port_ix == port_ix
                    &&& d.entry_ix < list@.len()
                    &&& d.signal == signal
                    &&& list@[d.entry_ix as int].0.id != own_id
                    &&& signal_delivered(list@[d.entry_ix as int].1, signal.kind)
                },
            forall|j0: int|
                0 <= j0 < j && (#[trigger] list@[j0]).0.id != own_id && signal_delivered(
                    list@[j0].1,
                    signal.kind,
                ) ==> exists|k: int|
                    base.len() <= k < out@.len() && (#[trigger] out@[k]).entry_ix == j0
                        && out@[k].port_ix == port_ix,
            forall|k: int|
                base.len() <= k < out@.len() ==> (#[trigger] out@[k]).entry_ix < j,
            forall|k1: int, k2: int|
                base.len() <= k1 < k2 < out@.len() ==> (#[trigger] out@[k1]).entry_ix < (
                #[trigger] out@[k2]).entry_ix,
        decreases list@.len() - j,
    {
        let ghost prev = out@;
        let entry = &list[j];
        let deliver = entry.0.id != own_id && entry.1.delivers_signal(&signal);
        if deliver {
            out.push(SignalDelivery { port_ix, entry_ix: j, signal });
        }
        proof {
            if deliver {
                assert(out@ =~= prev.push(
                    SignalDelivery { port_ix, entry_ix: j, signal },
                ));
            } else {
                assert(out@ == prev);
            }
            assert forall|j0: int|
                0 <= j0 < j + 1 && (#[trigger] list@[j0]).0.id != own_id && signal_delivered(
                    list@[j0].1,
                    signal.kind,
                ) implies exists|k: int|
                    base.len() <= k < out@.len() && (#[trigger] out@[k]).entry_ix == j0
                        && out@[k].port_ix == port_ix by {
                if j0 < j {
                    let k = choose|k: int|
                        base.len() <= k < prev.len() && (#[trigger] prev[k]).entry_ix == j0
                            && prev[k].port_ix == port_ix;
                    assert(out@[k] == prev[k]);
                } else {
                    assert(deliver);
                    assert(out@[prev.len() as int].entry_ix == j0);
                    assert(out@[prev.len() as int].port_ix == port_ix);
                }
            }
        }
        j = j + 1;
    }
}

// ------------------------------------------------------------------
// Source table: source id -> insight send handle.
// ------------------------------------------------------------------
/// How a `ConnectOnramp` changes the source table: the handle is
/// registered under the id — replacing an earlier one in place — and
/// every other entry survives unchanged.
pub open spec fn connect_source_rel(
    o: OnrampTable,
    n: OnrampTable,
    id: u64,
    tx: async_channel::Sender<OnrampMsg>,
) -> bool {
    &&& n.wf()
    &&& n.has_source(id)
    &&& (!o.has_source(id) ==> n.entries@ == o.entries@.push((id, tx)))
    &&& (o.has_source(id) ==> exists|i: int|
        0 <= i < o.entries@.len() && (#[trigger] o.entries@[i]).0 == id && n.entries@
            == o.entries@.update(i, (id, tx)))
}

/// How a `DisconnectInput` changes the source table: the id's entry — if
/// any — leaves; every other entry survives unchanged.
pub open spec fn disconnect_source_rel(o: OnrampTable, n: OnrampTable, id: u64) -> bool {
    &&& n.wf()
    &&& !n.has_source(id)
    &&& (!o.has_source(id) ==> n == o)
    &&& (o.has_source(id) ==> exists|i: int|
        0 <= i < o.entries@.len() && (#[trigger] o.entries@[i]).0 == id && n.entries@
            == o.entries@.remove(i))
}

/// Registered upstream sources; ids are unique.
pub struct OnrampTable {
    pub entries: Vec<(u64, async_channel::Sender<OnrampMsg>)>,
}

impl OnrampTable {
    pub open spec fn wf(self) -> bool {
        forall|i: int, j: int|
            0 <= i < j < self.entries@.len() ==> (#[trigger] self.entries@[i]).0 != (
            #[trigger] self.entries@[j]).0
    }

    pub open spec fn has_source(self, id: u64) -> bool {
        exists|i: int| 0 <= i < self.entries@.len() && (#[trigger] self.entries@[i]).0 == id
    }

    pub fn new() -> (r: OnrampTable)
        ensures
            r.wf(),
            r.entries@.len() == 0,
    {
        OnrampTable { entries: Vec::new() }
    }

    fn find_source(&self, id: u64) -> (r: Option<usize>)
        requires
            self.wf(),
        ensures
            r matches Some(i) ==> i < self.entries@.len() && self.entries@[i as int].0 == id,
            r is None ==> !self.has_source(id),
    {
        let mut i: usize = 0;
        while i < self.entries.len()
            invariant
                i <= self.entries@.len(),
                forall|j: int| 0 <= j < i ==> (#[trigger] self.entries@[j]).0 != id,
            decreases self.entries@.len() - i,
        {
            if self.entries[i].0 == id {
                return Some(i);
            }
            i = i + 1;
        }
        proof {
            if self.has_source(id) {
                let k = choose|k: int|
                    0 <= k < self.entries@.len() && (#[trigger] self.entries@[k]).0 == id;
                assert(self.entries@[k].0 != id);
            }
        }
        None
    }

    /// Register a source handle; a handle already registered under the
    /// id is replaced.
    pub fn connect_source(&mut self, id: u64, tx: async_channel::Sender<OnrampMsg>)
        requires
            old(self).wf(),
        ensures
            connect_source_rel(*old(self), *final(self), id, tx),
    {
        match self.find_source(id) {
            Some(i) => {
                let ghost oldents = self.entries@;
                self.entries.remove(i);
                self.entries.insert(i, (id, tx));
                proof {
                    assert(self.entries@ =~= oldents.update(i as int, (id, tx)));
                    assert forall|a: int, b: int|
                        0 <= a < b < self.entries@.len() implies (#[trigger] self.entries@[a]).0
                        != (#[trigger] self.entries@[b]).0 by {
                        assert(self.entries@[a].0 == oldents[a].0);
                        assert(self.entries@[b].0 == oldents[b].0);
                    }
                    assert(self.entries@[i as int].0 == id);
                }
            },
            None => {
                let ghost n = self.entries@.len();
                self.entries.push((id, tx));
                proof {
                    assert forall|a: int, b: int|
                        0 <= a < b < self.entries@.len() implies (#[trigger] self.entries@[a]).0
                        != (#[trigger] self.entries@[b]).0 by {
                        if b == n {
                            if self.entries@[a].0 == id {
                                assert(old(self).has_source(id));
                            }
                        }
                    }
                    assert(self.entries@[n as int].0 == id);
                }
            },
        }
    }

    /// Remove a source's handle, if registered.
    pub fn disconnect_source(&mut self, id: u64)
        requires
            old(self).wf(),
        ensures
            disconnect_source_rel(*old(self), *final(self), id),
    {
        match self.find_source(id) {
            Some(i) => {
                let ghost oldents = self.entries@;
                self.entries.remove(i);
                proof {
                    assert(self.entries@ =~= oldents.remove(i as int));
                    assert forall|a: int, b: int|
                        0 <= a < b < self.entries@.len() implies (#[trigger] self.entries@[a]).0
                        != (#[trigger] self.entries@[b]).0 by {
                        let a0 = if a < i {
                            a
                        } else {
                            a + 1
                        };
                        let b0 = if b < i {
                            b
                        } else {
                            b + 1
                        };
                        assert(self.entries@[a] == oldents[a0]);
                        assert(self.entries@[b] == oldents[b0]);
                    }
                    assert(!self.has_source(id)) by {
                        if self.has_source(id) {
                            let k = choose|k: int|
                                0 <= k < self.entries@.len() && (#[trigger] self.entries@[k]).0
                                    == id;
                            let k0 = if k < i {
                                k
                            } else {
                                k + 1
                            };
                            assert(oldents[k0].0 == id);
                            assert(k0 != i);
                            assert(oldents[i as int].0 == id);
                        }
                    }
                }
            },
            None => {},
        }
    }

    /// Plan the broadcast of an insight's circuit-breaker directive to
    /// every registered source; an insight without one reaches nobody.
    pub fn cb_broadcast(&self, insight: &Event) -> (r: Vec<(usize, OnrampMsg)>)
        ensures
            insight.cb is None ==> r@.len() == 0,
            insight.cb matches Some(cb) ==> r@.len() == self.entries@.len() && (forall|k: int|
                0 <= k < r@.len() ==> (#[trigger] r@[k]).0 == k && r@[k].1 == OnrampMsg::Cb(
                    cb,
                    insight.id,
                )),
    {
        let mut out: Vec<(usize, OnrampMsg)> = Vec::new();
        match insight.cb {
            None => out,
            Some(cb) => {
                let mut i: usize = 0;
                while i < self.entries.len()
                    invariant
                        i <= self.entries@.len(),
                        out@.len() == i,
                        forall|k: int|
                            0 <= k < i ==> (#[trigger] out@[k]).0 == k && out@[k].1
                                == OnrampMsg::Cb(cb, insight.id),
                    decreases self.entries@.len() - i,
                {
                    out.push((i, OnrampMsg::Cb(cb, insight.id)));
                    i = i + 1;
                }
                out
            },
        }
    }
}

/// The mutable state of one pipeline task: where its outputs go and who
/// its sources are.
pub struct PipelineState {
    pub dests: DestTable,
    pub onramps: OnrampTable,
}

impl PipelineState {
    pub open spec fn wf(self) -> bool {
        self.dests.wf() && self.onramps.wf()
    }

    pub fn new() -> (r: PipelineState)
        ensures
            r.wf(),
            r.dests.entries@.len() == 0,
            r.onramps.entries@.len() == 0,
    {
        PipelineState { dests: DestTable::new(), onramps: OnrampTable::new() }
    }
}

/// What the runtime must do next for one merged item; graph calls and
/// sends are the runtime's, the decision is made here.
pub enum StepAction {
    Contraflow { skip_to: Option<usize>, insight: Event },
    EnqueueEvent { input: Vec<u8>, event: Event },
    EnqueueSignal { signal: Event },
}

/// One turn of the pipeline task's main loop: a contraflow message goes
/// to the graph's contraflow entry, a forward message to enqueue, and a
/// management message edits the tables and needs nothing further.
pub fn pipeline_step(state: &mut PipelineState, item: MergeItem) -> (r: Option<StepAction>)
    requires
        old(state).wf(),
    ensures
        final(state).wf(),
        item matches MergeItem::Cf(CfMsg::Insight(ins)) ==> r == Some(
            StepAction::Contraflow { skip_to: None, insight: ins },
        ) && *final(state) == *old(state),
        item matches MergeItem::Fwd(Msg::Event { input, event }) ==> r == Some(
            StepAction::EnqueueEvent { input, event },
        ) && *final(state) == *old(state),
        item matches MergeItem::Fwd(Msg::Signal(sig)) ==> r == Some(
            StepAction::EnqueueSignal { signal: sig },
        ) && *final(state) == *old(state),
        item matches MergeItem::Mgmt(m) ==> r is None,
        item matches MergeItem::Mgmt(MgmtMsg::ConnectOfframp(port, pr, tx)) ==> connect_rel(
            old(state).dests,
            final(state).dests,
            port@,
            pr,
            Dest::Offramp(tx),
        ) && final(state).onramps == old(state).onramps,
        item matches MergeItem::Mgmt(MgmtMsg::ConnectPipeline(port, pr, pa)) ==> connect_rel(
            old(state).dests,
            final(state).dests,
            port@,
            pr,
            Dest::Pipeline(pa),
        ) && final(state).onramps == old(state).onramps,
        item matches MergeItem::Mgmt(MgmtMsg::DisconnectOutput(port, id)) ==> disconnect_rel(
            old(state).dests,
            final(state).dests,
            port@,
            id,
        ) && final(state).onramps == old(state).onramps,
        item matches MergeItem::Mgmt(MgmtMsg::ConnectOnramp(id, tx)) ==> connect_source_rel(
            old(state).onramps,
            final(state).onramps,
            id,
            tx,
        ) && final(state).dests == old(state).dests,
        item matches MergeItem::Mgmt(MgmtMsg::DisconnectInput(id)) ==> disconnect_source_rel(
            old(state).onramps,
            final(state).onramps,
            id,
        ) && final(state).dests == old(state).dests,
{
    match item {
        MergeItem::Cf(CfMsg::Insight(ins)) => Some(
            StepAction::Contraflow { skip_to: None, insight: ins },
        ),
        MergeItem::Fwd(Msg::Event { input, event }) => Some(
            StepAction::EnqueueEvent { input, event },
        ),
        MergeItem::Fwd(Msg::Signal(sig)) => Some(StepAction::EnqueueSignal { signal: sig }),
        MergeItem::Mgmt(MgmtMsg::ConnectOfframp(port, pr, tx)) => {
            state.dests.connect_output(port, pr, Dest::Offramp(tx));
            None
        },
        MergeItem::Mgmt(MgmtMsg::ConnectPipeline(port, pr, pa)) => {
            state.dests.connect_output(port, pr, Dest::Pipeline(pa));
            None
        },
        MergeItem::Mgmt(MgmtMsg::DisconnectOutput(port, id)) => {
            state.dests.disconnect_output(port.as_slice(), id);
            None
        },
        MergeItem::Mgmt(MgmtMsg::ConnectOnramp(id, tx)) => {
            state.onramps.connect_source(id, tx);
            None
        },
        MergeItem::Mgmt(MgmtMsg::DisconnectInput(id)) => {
            state.onramps.disconnect_source(id);
            None
        },
    }
}

} // verus!
