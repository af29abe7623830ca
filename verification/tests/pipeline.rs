use tremor_core::channel::TrySender;
use tremor_core::pipeline::{
    tick_signal, try_send, CbAction, CfMsg, Dest, DestTable, Event, Manager, MergeItem, MgmtMsg,
    Msg, OnrampTable, PeerRef, PipelineState, PriorityMerge, SignalKind, StepAction,
};

fn ev(id: u64) -> Event {
    Event {
        id,
        ingest_ns: 0,
        kind: None,
        cb: None,
        payload: 0,
    }
}

fn fwd(id: u64) -> Msg {
    Msg::Event {
        input: b"in".to_vec(),
        event: ev(id),
    }
}

#[test]
fn buffered_sender_keeps_submission_order() {
    // A bounded channel of depth 2: the third message parks in the
    // overflow, and the receiver still sees submission order.
    let (tx, rx) = async_channel::bounded::<u64>(2);
    let mut s = TrySender::new(tx);
    assert!(s.try_send_safe(1).is_ok());
    assert!(s.try_send_safe(2).is_ok());
    assert!(s.try_send_safe(3).is_ok());
    assert_eq!(s.pending.len(), 1);
    assert!(!s.ready());
    assert_eq!(rx.try_recv(), Ok(1));
    // The drain moves 3 into the channel, behind 2, refilling the
    // depth-2 channel.
    assert!(!s.drain_ready());
    assert_eq!(s.pending.len(), 0);
    assert_eq!(rx.try_recv(), Ok(2));
    assert_eq!(rx.try_recv(), Ok(3));
}

#[test]
fn overflow_never_overtakes() {
    // Once something is parked, later messages park behind it even if the
    // channel has room again.
    let (tx, rx) = async_channel::bounded::<u64>(1);
    let mut s = TrySender::new(tx);
    assert!(s.try_send_safe(1).is_ok());
    assert!(s.try_send_safe(2).is_ok());
    assert_eq!(rx.try_recv(), Ok(1));
    // The channel now has room, but 3 must wait behind 2.
    assert!(s.try_send_safe(3).is_ok());
    assert_eq!(s.pending.len(), 2);
    // The drain moves 2 into the depth-1 channel; 3 re-hits the full
    // channel and goes back to the overflow in order.
    assert!(!s.drain_ready());
    assert_eq!(s.pending.len(), 1);
    assert_eq!(rx.try_recv(), Ok(2));
    assert!(!s.drain_ready());
    assert_eq!(s.pending.len(), 0);
    assert_eq!(rx.try_recv(), Ok(3));
}

#[test]
fn drain_ready_true_only_after_full_delivery() {
    let (tx, rx) = async_channel::bounded::<u64>(1);
    let mut s = TrySender::new(tx);
    assert!(s.try_send_safe(1).is_ok());
    assert!(s.try_send_safe(2).is_ok());
    // The channel is full and a message is parked: not ready.
    assert!(!s.drain_ready());
    assert_eq!(rx.try_recv(), Ok(1));
    // The parked message moves into the depth-1 channel, filling it
    // again: everything overflowed has been delivered, but the answer
    // reports readiness, so it stays false until there is room too.
    assert!(!s.drain_ready());
    assert_eq!(s.pending.len(), 0);
    assert_eq!(rx.try_recv(), Ok(2));
    // Nothing parked and room in the channel: ready at last.
    assert!(s.drain_ready());
}

#[test]
fn disconnected_sender_reports_it() {
    let (tx, rx) = async_channel::bounded::<u64>(1);
    drop(rx);
    let mut s = TrySender::new(tx);
    assert!(s.try_send_safe(1).is_err());
}

#[test]
fn sender_clone_has_its_own_overflow() {
    let (tx, _rx) = async_channel::bounded::<u64>(1);
    let mut s = TrySender::new(tx);
    assert!(s.try_send_safe(1).is_ok());
    assert!(s.try_send_safe(2).is_ok());
    assert_eq!(s.pending.len(), 1);
    let c = s.clone();
    assert_eq!(c.pending.len(), 0);
}

#[test]
fn merge_yields_management_first() {
    let mut m = PriorityMerge::new(
        vec![MgmtMsg::DisconnectInput(7)],
        vec![CfMsg::Insight(ev(1))],
        vec![fwd(2)],
    );
    match m.next() {
        Some(MergeItem::Mgmt(MgmtMsg::DisconnectInput(7))) => {}
        _ => panic!("management must come first"),
    }
    match m.next() {
        Some(MergeItem::Cf(CfMsg::Insight(e))) => assert_eq!(e.id, 1),
        _ => panic!("contraflow must come before forward"),
    }
    match m.next() {
        Some(MergeItem::Fwd(Msg::Event { event, .. })) => assert_eq!(event.id, 2),
        _ => panic!("forward comes last"),
    }
    assert!(m.next().is_none());
}

#[test]
fn ticks_never_reach_peer_pipelines() {
    let (ftx, _frx) = async_channel::bounded::<Msg>(4);
    let (cftx, _cfrx) = async_channel::bounded::<CfMsg>(4);
    let peer = tremor_core::pipeline::PeerAddr {
        addr: TrySender::new(ftx),
        cf_addr: cftx,
        id: 9,
    };
    let dest = Dest::Pipeline(Box::new(peer));
    let tick = tick_signal(123);
    assert_eq!(tick.kind, Some(SignalKind::Tick));
    assert!(!dest.delivers_signal(&tick));
    let plain = Event {
        kind: Some(SignalKind::Other),
        ..ev(1)
    };
    assert!(dest.delivers_signal(&plain));

    // Through the table: one sink and one peer; the tick is planned for
    // the sink alone.
    let (otx, _orx) = async_channel::bounded(4);
    let mut table = DestTable::new();
    table.connect_output(
        b"out".to_vec(),
        PeerRef {
            id: 1,
            instance_port: Some(b"in".to_vec()),
        },
        Dest::Offramp(TrySender::new(otx)),
    );
    let (ftx2, _frx2) = async_channel::bounded::<Msg>(4);
    let (cftx2, _cfrx2) = async_channel::bounded::<CfMsg>(4);
    table.connect_output(
        b"out".to_vec(),
        PeerRef {
            id: 2,
            instance_port: Some(b"in".to_vec()),
        },
        Dest::Pipeline(Box::new(tremor_core::pipeline::PeerAddr {
            addr: TrySender::new(ftx2),
            cf_addr: cftx2,
            id: 2,
        })),
    );
    let plan = table.plan_signal_sends(0, tick);
    assert_eq!(plan.len(), 1);
    assert_eq!(plan[0].entry_ix, 0);
    // A non-tick signal reaches both.
    let plan2 = table.plan_signal_sends(0, plain);
    assert_eq!(plan2.len(), 2);
}

#[test]
fn disconnect_output_then_send_reaches_nobody() {
    let (otx, _orx) = async_channel::bounded(4);
    let mut table = DestTable::new();
    table.connect_output(
        b"out".to_vec(),
        PeerRef {
            id: 5,
            instance_port: Some(b"in".to_vec()),
        },
        Dest::Offramp(TrySender::new(otx)),
    );
    let plan = table.plan_event_sends(b"out", ev(1)).expect("planned");
    assert_eq!(plan.len(), 1);
    assert_eq!(plan[0].input, b"in".to_vec());

    table.disconnect_output(b"out", 5);
    // The port is gone; a send on it delivers to zero destinations and
    // still succeeds.
    let plan = table.plan_event_sends(b"out", ev(1)).expect("still ok");
    assert_eq!(plan.len(), 0);
}

#[test]
fn missing_instance_port_fails_the_event() {
    let (otx, _orx) = async_channel::bounded(4);
    let mut table = DestTable::new();
    table.connect_output(
        b"out".to_vec(),
        PeerRef {
            id: 5,
            instance_port: None,
        },
        Dest::Offramp(TrySender::new(otx)),
    );
    assert!(table.plan_event_sends(b"out", ev(1)).is_err());
}

#[test]
fn source_table_broadcasts_cb_directives() {
    let (tx1, _r1) = async_channel::bounded(4);
    let (tx2, _r2) = async_channel::bounded(4);
    let mut t = OnrampTable::new();
    t.connect_source(1, tx1);
    t.connect_source(2, tx2);
    let insight = Event {
        cb: Some(CbAction::Close),
        ..ev(42)
    };
    let plan = t.cb_broadcast(&insight);
    assert_eq!(plan.len(), 2);
    let quiet = ev(43);
    assert_eq!(t.cb_broadcast(&quiet).len(), 0);
    t.disconnect_source(1);
    assert_eq!(t.cb_broadcast(&insight).len(), 1);
}

#[test]
fn pipeline_step_routes_and_mutates() {
    let mut st = PipelineState::new();
    // A forward event becomes an enqueue action.
    match tremor_core::pipeline::pipeline_step(&mut st, MergeItem::Fwd(fwd(3))) {
        Some(StepAction::EnqueueEvent { event, .. }) => assert_eq!(event.id, 3),
        _ => panic!("expected an enqueue action"),
    }
    // A contraflow insight becomes a contraflow action with no skip.
    match tremor_core::pipeline::pipeline_step(&mut st, MergeItem::Cf(CfMsg::Insight(ev(4)))) {
        Some(StepAction::Contraflow { skip_to: None, insight }) => assert_eq!(insight.id, 4),
        _ => panic!("expected a contraflow action"),
    }
    // Management messages mutate the tables and need nothing further.
    let (otx, _orx) = async_channel::bounded(4);
    let r = tremor_core::pipeline::pipeline_step(
        &mut st,
        MergeItem::Mgmt(MgmtMsg::ConnectOfframp(
            b"out".to_vec(),
            PeerRef {
                id: 5,
                instance_port: Some(b"in".to_vec()),
            },
            TrySender::new(otx),
        )),
    );
    assert!(r.is_none());
    assert_eq!(st.dests.plan_event_sends(b"out", ev(1)).unwrap().len(), 1);
    let r = tremor_core::pipeline::pipeline_step(
        &mut st,
        MergeItem::Mgmt(MgmtMsg::DisconnectOutput(b"out".to_vec(), 5)),
    );
    assert!(r.is_none());
    assert_eq!(st.dests.plan_event_sends(b"out", ev(1)).unwrap().len(), 0);
}

#[test]
fn manager_ids_use_the_reserved_range() {
    let m = Manager::new(64);
    assert_eq!(m.qsize, 64);
    assert_eq!(m.uid, 0x8000_0000_0000_0000u64);
    assert_eq!(m.uid & 0x7fff_ffff_ffff_ffff, 0);
}

#[test]
fn tick_signals_are_ticks() {
    let t = tick_signal(1_000_000);
    assert_eq!(t.kind, Some(SignalKind::Tick));
    assert_eq!(t.ingest_ns, 1_000_000);
    assert!(t.cb.is_none());
}

#[test]
fn try_send_swallows_delivery_errors() {
    assert!(try_send(Ok(())));
    assert!(!try_send(Err(
        tremor_core::channel::SendError::Disconnected
    )));
}
