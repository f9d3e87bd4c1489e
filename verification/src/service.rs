//! The connection-management service: one serial event loop owns the
//! authoritative map of live connections and is the only place connection
//! state changes.
//!
//! The service is generic over `S`, the send capability of one connection
//! (the write half of its socket, in the surrounding process). `S` is a
//! single-owner resource: the service holds it while the connection is idle,
//! an asynchronous send task holds it while a frame is in flight, and it
//! comes back through a [`Msg::FrameTxComplete`] event. The surrounding
//! process performs the socket work each returned [`Action`] asks for and
//! feeds the resulting events back in; every decision is made here.

use vstd::prelude::*;
use std::collections::BTreeMap;
use std::collections::VecDeque;

verus! {

broadcast use vstd::std_specs::btree::group_btree_axioms, vstd::laws_cmp::group_laws_cmp, vstd::std_specs::vecdeque::group_vec_dequeue_axioms;

/// The events the service's event loop dispatches on.
pub enum Msg<S> {
    /// The listener accepted a connection; `tx` is its send capability.
    NewConnection { tx: S },
    /// A connection's actor observed stream termination.
    ConnectionLost { conn_id: usize },
    /// A connection's actor decoded one inbound frame.
    NewFrame { conn_id: usize, frame: String },
    /// An asynchronous send finished and hands the send capability back.
    FrameTxComplete { conn_id: usize, new_tx: S },
}

/// What the surrounding process must do after one event is handled.
pub enum Action<S> {
    /// Nothing: the event was absorbed into the connection state.
    Done,
    /// Start an actor that reads frames for the newly registered connection.
    Spawn { conn_id: usize },
    /// Begin an asynchronous send of `frame` over `tx`; report completion
    /// with a [`Msg::FrameTxComplete`] event for `conn_id`.
    Send { conn_id: usize, frame: String, tx: S },
}

/// The mathematical model of one event.
pub enum EventView<S> {
    NewConnection { tx: S },
    ConnectionLost { conn_id: usize },
    NewFrame { conn_id: usize, frame: Seq<char> },
    FrameTxComplete { conn_id: usize, new_tx: S },
}

/// The mathematical model of one requested action.
pub enum ActionView<S> {
    Done,
    Spawn { conn_id: usize },
    Send { conn_id: usize, frame: Seq<char>, tx: S },
}

/// The mathematical model of one connection: the frames still queued behind
/// an in-flight send, oldest first, and the send capability while it is idle.
/// `tx is None` means a send is in flight.
#[verifier::ext_equal]
pub struct ConnView<S> {
    pub queue: Seq<Seq<char>>,
    pub tx: Option<S>,
}

/// The mathematical model of the service: the live connections by id, and the
/// id the next accepted connection will get. Ids are assigned monotonically
/// and never reused.
#[verifier::ext_equal]
pub struct ServiceView<S> {
    pub conns: Map<usize, ConnView<S>>,
    pub next_id: usize,
}

impl<S> View for Msg<S> {
    type V = EventView<S>;

    open spec fn view(&self) -> EventView<S> {
        match self {
            Msg::NewConnection { tx } => EventView::NewConnection { tx: *tx },
            Msg::ConnectionLost { conn_id } => EventView::ConnectionLost { conn_id: *conn_id },
            Msg::NewFrame { conn_id, frame } => EventView::NewFrame {
                conn_id: *conn_id,
                frame: frame@,
            },
            Msg::FrameTxComplete { conn_id, new_tx } => EventView::FrameTxComplete {
                conn_id: *conn_id,
                new_tx: *new_tx,
            },
        }
    }
}

impl<S> View for Action<S> {
    type V = ActionView<S>;

    open spec fn view(&self) -> ActionView<S> {
        match self {
            Action::Done => ActionView::Done,
            Action::Spawn { conn_id } => ActionView::Spawn { conn_id: *conn_id },
            Action::Send { conn_id, frame, tx } => ActionView::Send {
                conn_id: *conn_id,
                frame: frame@,
                tx: *tx,
            },
        }
    }
}

/// A service state is well formed when every live id was assigned before the
/// current counter (so ids are never reused) and an idle connection has
/// nothing queued (frames queue up only behind an in-flight send).
pub open spec fn wf_state<S>(s: ServiceView<S>) -> bool {
    &&& forall|id: usize| #[trigger] s.conns.dom().contains(id) ==> id < s.next_id
    &&& forall|id: usize|
        s.conns.dom().contains(id) && (#[trigger] s.conns[id]).tx is Some
            ==> s.conns[id].queue.len() == 0
}

/// The service's transition function: the state after one event, and the
/// action the event loop must issue for it.
pub open spec fn step<S>(s: ServiceView<S>, e: EventView<S>) -> (ServiceView<S>, ActionView<S>) {
    match e {
        EventView::NewConnection { tx } => (
            ServiceView {
                conns: s.conns.insert(s.next_id, ConnView { queue: Seq::empty(), tx: Some(tx) }),
                next_id: (s.next_id + 1) as usize,
            },
            ActionView::Spawn { conn_id: s.next_id },
        ),
        EventView::ConnectionLost { conn_id } => (
            ServiceView { conns: s.conns.remove(conn_id), next_id: s.next_id },
            ActionView::Done,
        ),
        EventView::NewFrame { conn_id, frame } => {
            if !s.conns.dom().contains(conn_id) {
                (s, ActionView::Done)
            } else {
                let c = s.conns[conn_id];
                match c.tx {
                    Some(tx) => (
                        ServiceView {
                            conns: s.conns.insert(conn_id, ConnView { queue: c.queue, tx: None }),
                            next_id: s.next_id,
                        },
                        ActionView::Send { conn_id, frame, tx },
                    ),
                    None => (
                        ServiceView {
                            conns: s.conns.insert(
                                conn_id,
                                ConnView { queue: c.queue.push(frame), tx: None },
                            ),
                            next_id: s.next_id,
                        },
                        ActionView::Done,
                    ),
                }
            }
        },
        EventView::FrameTxComplete { conn_id, new_tx } => {
            if !s.conns.dom().contains(conn_id) {
                (s, ActionView::Done)
            } else {
                let c = s.conns[conn_id];
                if c.queue.len() > 0 {
                    (
                        ServiceView {
                            conns: s.conns.insert(
                                conn_id,
                                ConnView { queue: c.queue.drop_first(), tx: None },
                            ),
                            next_id: s.next_id,
                        },
                        ActionView::Send { conn_id, frame: c.queue[0], tx: new_tx },
                    )
                } else {
                    (
                        ServiceView {
                            conns: s.conns.insert(
                                conn_id,
                                ConnView { queue: c.queue, tx: Some(new_tx) },
                            ),
                            next_id: s.next_id,
                        },
                        ActionView::Done,
                    )
                }
            }
        },
    }
}

/// One live connection: its pending outbound frames, oldest first, and its
/// send capability while no send is outstanding.
pub struct Conn<S> {
    queue: VecDeque<String>,
    frame_tx: Option<S>,
}

impl<S> View for Conn<S> {
    type V = ConnView<S>;

    closed spec fn view(&self) -> ConnView<S> {
        ConnView { queue: self.queue@.map_values(|f: String| f@), tx: self.frame_tx }
    }
}

impl<S> Conn<S> {
    /// A fresh connection: nothing queued, the send capability idle in its
    /// slot.
    pub fn new(socket: S) -> (c: Conn<S>)
        ensures
            c@ == (ConnView { queue: Seq::<Seq<char>>::empty(), tx: Some(socket) }),
    {
        let c = Conn { queue: VecDeque::new(), frame_tx: Some(socket) };
        proof {
            assert(c@.queue =~= Seq::<Seq<char>>::empty());
            assert(c@ =~= ConnView { queue: Seq::<Seq<char>>::empty(), tx: Some(socket) });
        }
        c
    }
}

/// The echo service's state: the authoritative map of live connections and
/// the id counter for the next accepted connection.
pub struct Service<S> {
    conns: BTreeMap<usize, Conn<S>>,
    conn_count: usize,
}

impl<S> View for Service<S> {
    type V = ServiceView<S>;

    closed spec fn view(&self) -> ServiceView<S> {
        ServiceView {
            conns: self.conns@.map_values(|c: Conn<S>| c@),
            next_id: self.conn_count,
        }
    }
}

impl<S> Service<S> {
    /// Well-formedness of the service's state; established by [`Service::new`]
    /// and preserved by every event.
    pub open spec fn wf(self) -> bool {
        wf_state(self@)
    }

    /// A service with no connections and the id counter at zero.
    pub fn new() -> (s: Service<S>)
        ensures
            s.wf(),
            s@ == (ServiceView { conns: Map::<usize, ConnView<S>>::empty(), next_id: 0usize }),
    {
        let s = Service { conns: BTreeMap::new(), conn_count: 0 };
        proof {
            assert(s@.conns =~= Map::<usize, ConnView<S>>::empty());
            assert(s@ =~= ServiceView { conns: Map::<usize, ConnView<S>>::empty(), next_id: 0usize });
        }
        s
    }

    /// How many connections have ever been accepted; also the id the next one
    /// will get.
    pub fn count(&self) -> (n: usize)
        ensures
            n == self@.next_id,
    {
        self.conn_count
    }

    /// The main event handler: applies exactly one [`step`] of the service's
    /// state machine and returns the action the event loop must issue.
    pub fn handle_message(&mut self, msg: Msg<S>) -> (a: Action<S>)
        requires
            old(self).wf(),
            msg is NewConnection ==> old(self)@.next_id < usize::MAX,
        ensures
            final(self).wf(),
            final(self)@ == step(old(self)@, msg@).0,
            a@ == step(old(self)@, msg@).1,
    {
        proof {
            lemma_step_preserves_wf(old(self)@, msg@);
        }
        match msg {
            Msg::NewConnection { tx } => {
                let conn_id = self.conn_count;
                self.conn_count = self.conn_count + 1;
                let conn = Conn::new(tx);
                self.conns.insert(conn_id, conn);
                proof {
                    assert(self@ =~~= step(old(self)@, EventView::NewConnection { tx }).0);
                }
                Action::Spawn { conn_id }
            },
            Msg::ConnectionLost { conn_id } => {
                self.conns.remove(&conn_id);
                proof {
                    assert(self@ =~~= step(old(self)@, EventView::ConnectionLost { conn_id }).0);
                }
                Action::Done
            },
            Msg::NewFrame { conn_id, frame } => {
                let ghost e = EventView::<S>::NewFrame { conn_id, frame: frame@ };
                match self.conns.remove(&conn_id) {
                    None => {
                        proof {
                            assert(self@ =~~= step(old(self)@, e).0);
                        }
                        Action::Done
                    },
                    Some(conn) => {
                        let Conn { mut queue, frame_tx } = conn;
                        match frame_tx {
                            Some(tx) => {
                                self.conns.insert(conn_id, Conn { queue, frame_tx: None });
                                proof {
                                    assert(self@ =~~= step(old(self)@, e).0);
                                }
                                Action::Send { conn_id, frame, tx }
                            },
                            None => {
                                queue.push_back(frame);
                                self.conns.insert(conn_id, Conn { queue, frame_tx: None });
                                proof {
                                    assert(self@ =~~= step(old(self)@, e).0);
                                }
                                Action::Done
                            },
                        }
                    },
                }
            },
            Msg::FrameTxComplete { conn_id, new_tx } => {
                let ghost e = EventView::<S>::FrameTxComplete { conn_id, new_tx };
                match self.conns.remove(&conn_id) {
                    None => {
                        proof {
                            assert(self@ =~~= step(old(self)@, e).0);
                        }
                        Action::Done
                    },
                    Some(conn) => {
                        let Conn { mut queue, frame_tx: _ } = conn;
                        match queue.pop_front() {
                            Some(front) => {
                                self.conns.insert(conn_id, Conn { queue, frame_tx: None });
                                proof {
                                    assert(self@ =~~= step(old(self)@, e).0);
                                }
                                Action::Send { conn_id, frame: front, tx: new_tx }
                            },
                            None => {
                                self.conns.insert(conn_id, Conn { queue, frame_tx: Some(new_tx) });
                                proof {
                                    assert(self@ =~~= step(old(self)@, e).0);
                                }
                                Action::Done
                            },
                        }
                    },
                }
            },
        }
    }
}

/// Maps an arbitrary value, typically an error, to the unit value.
pub fn erase<T>(_t: T) -> () {
    ()
}

/// Every event keeps the service state well formed.
pub proof fn lemma_step_preserves_wf<S>(s: ServiceView<S>, e: EventView<S>)
    requires
        wf_state(s),
        e is NewConnection ==> s.next_id < usize::MAX,
    ensures
        wf_state(step(s, e).0),
{
}

/// The state after a whole sequence of events, applied in order.
pub open spec fn run<S>(s: ServiceView<S>, es: Seq<EventView<S>>) -> ServiceView<S>
    decreases es.len(),
{
    if es.len() == 0 {
        s
    } else {
        run(step(s, es[0]).0, es.drop_first())
    }
}

/// The frames handed to a send for the given connection while the events are
/// processed, in the order the sends are started.
pub open spec fn sends_for<S>(
    s: ServiceView<S>,
    es: Seq<EventView<S>>,
    conn_id: usize,
) -> Seq<Seq<char>>
    decreases es.len(),
{
    if es.len() == 0 {
        Seq::empty()
    } else {
        let rest = sends_for(step(s, es[0]).0, es.drop_first(), conn_id);
        match step(s, es[0]).1 {
            ActionView::Send { conn_id: c, frame, tx } => if c == conn_id {
                seq![frame] + rest
            } else {
                rest
            },
            _ => rest,
        }
    }
}

/// The frames that arrive for the given connection in the events, in order.
pub open spec fn arrivals_for<S>(es: Seq<EventView<S>>, conn_id: usize) -> Seq<Seq<char>>
    decreases es.len(),
{
    if es.len() == 0 {
        Seq::empty()
    } else {
        let rest = arrivals_for(es.drop_first(), conn_id);
        match es[0] {
            EventView::NewFrame { conn_id: c, frame } => if c == conn_id {
                seq![frame] + rest
            } else {
                rest
            },
            _ => rest,
        }
    }
}

/// At most one send is in flight per connection: while a send is outstanding
/// (the slot is empty), a new frame is appended to the connection's queue and
/// no second send is started.
pub proof fn lemma_no_concurrent_send<S>(s: ServiceView<S>, conn_id: usize, frame: Seq<char>)
    requires
        s.conns.dom().contains(conn_id),
        s.conns[conn_id].tx is None,
    ensures
        step(s, EventView::NewFrame { conn_id, frame }).1 is Done,
        step(s, EventView::NewFrame { conn_id, frame }).0.conns[conn_id].queue
            == s.conns[conn_id].queue.push(frame),
        step(s, EventView::NewFrame { conn_id, frame }).0.conns[conn_id].tx is None,
{
}

/// Frames are sent in strict arrival order: across any frame and
/// send-completion events, the frames already handed to a send, followed by
/// those still queued, are exactly the frames pending at the start followed by
/// every frame that arrived, oldest first. Once enough completions arrive,
/// the queue drains in that order.
pub proof fn lemma_fifo<S>(s: ServiceView<S>, es: Seq<EventView<S>>, conn_id: usize)
    requires
        wf_state(s),
        s.conns.dom().contains(conn_id),
        forall|i: int|
            0 <= i < es.len() ==> ((#[trigger] es[i]) is NewFrame || es[i] is FrameTxComplete),
    ensures
        wf_state(run(s, es)),
        run(s, es).conns.dom().contains(conn_id),
        sends_for(s, es, conn_id) + run(s, es).conns[conn_id].queue == s.conns[conn_id].queue
            + arrivals_for(es, conn_id),
        run(s, es).conns[conn_id].tx is Some ==> sends_for(s, es, conn_id) == s.conns[
            conn_id].queue + arrivals_for(es, conn_id),
    decreases es.len(),
{
    if es.len() == 0 {
        assert(sends_for(s, es, conn_id) + run(s, es).conns[conn_id].queue
            =~= s.conns[conn_id].queue + arrivals_for(es, conn_id));
    } else {
        let e = es[0];
        let s1 = step(s, e).0;
        lemma_step_preserves_wf(s, e);
        assert forall|i: int|
            0 <= i < es.drop_first().len() implies ((#[trigger] es.drop_first()[i]) is NewFrame
            || es.drop_first()[i] is FrameTxComplete) by {
            assert(es[i + 1] is NewFrame || es[i + 1] is FrameTxComplete);
        }
        lemma_fifo(s1, es.drop_first(), conn_id);
        let sent = sends_for(s, es, conn_id);
        let sent1 = sends_for(s1, es.drop_first(), conn_id);
        let arr = arrivals_for(es, conn_id);
        let arr1 = arrivals_for(es.drop_first(), conn_id);
        let q0 = s.conns[conn_id].queue;
        let q1 = s1.conns[conn_id].queue;
        let qend = run(s, es).conns[conn_id].queue;
        match e {
            EventView::NewFrame { conn_id: c, frame } => {
                if c == conn_id {
                    if s.conns[conn_id].tx is Some {
                        assert(q0.len() == 0);
                        assert(sent =~= seq![frame] + sent1);
                        assert(q1 == q0);
                        assert(sent + qend =~= q0 + arr);
                    } else {
                        assert(q1 == q0.push(frame));
                        assert(sent + qend =~= q0 + arr);
                    }
                } else {
                    assert(q1 == q0);
                    assert(sent + qend =~= q0 + arr);
                }
            },
            EventView::FrameTxComplete { conn_id: c, new_tx } => {
                if c == conn_id {
                    if q0.len() > 0 {
                        assert(sent =~= seq![q0[0]] + sent1);
                        assert(q1 == q0.drop_first());
                        assert(arr == arr1);
                        assert(q0 =~= seq![q0[0]] + q1);
                        assert((seq![q0[0]] + sent1) + qend =~= seq![q0[0]] + (sent1 + qend));
                        assert(seq![q0[0]] + (q1 + arr1) =~= (seq![q0[0]] + q1) + arr1);
                        assert(sent + qend =~= q0 + arr);
                    } else {
                        assert(q1 == q0);
                        assert(sent + qend =~= q0 + arr);
                    }
                } else {
                    assert(q1 == q0);
                    assert(sent + qend =~= q0 + arr);
                }
            },
            _ => {
                assert(false);
            },
        }
    }
    if run(s, es).conns[conn_id].tx is Some {
        assert(run(s, es).conns[conn_id].queue.len() == 0);
        assert(sends_for(s, es, conn_id) =~= sends_for(s, es, conn_id) + run(s, es).conns[
            conn_id].queue);
    }
}

/// Removal is idempotent: once a connection is gone, a repeated loss report
/// changes nothing, and a late frame or a stale send completion for its id is
/// dropped silently, starting no send and touching no state.
pub proof fn lemma_removal_idempotent<S>(
    s: ServiceView<S>,
    conn_id: usize,
    frame: Seq<char>,
    tx: S,
)
    ensures
        !step(s, EventView::ConnectionLost { conn_id }).0.conns.dom().contains(conn_id),
        step(step(s, EventView::ConnectionLost { conn_id }).0, EventView::ConnectionLost { conn_id }).0
            == step(s, EventView::ConnectionLost { conn_id }).0,
        step(step(s, EventView::ConnectionLost { conn_id }).0, EventView::NewFrame { conn_id, frame }).0
            == step(s, EventView::ConnectionLost { conn_id }).0,
        step(step(s, EventView::ConnectionLost { conn_id }).0, EventView::NewFrame { conn_id, frame }).1
            is Done,
        step(
            step(s, EventView::ConnectionLost { conn_id }).0,
            EventView::FrameTxComplete { conn_id, new_tx: tx },
        ).0 == step(s, EventView::ConnectionLost { conn_id }).0,
        step(
            step(s, EventView::ConnectionLost { conn_id }).0,
            EventView::FrameTxComplete { conn_id, new_tx: tx },
        ).1 is Done,
{
    let s1 = step(s, EventView::ConnectionLost { conn_id }).0;
    assert(s1.conns.remove(conn_id) =~= s1.conns);
    assert(step(s1, EventView::ConnectionLost { conn_id }).0 =~~= s1);
}

} // verus!
