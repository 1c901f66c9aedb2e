//! The life of a session, as mathematics.
//!
//! A session owns a sequence counter and the registry of calls that wait for
//! a reply. Every decision that the client makes is a function of this state
//! and of what happened: a call begins, a message arrives, a deadline passes,
//! the connection ends.

use crate::error::CallError;
use crate::message::{Message, MessageView};
use vstd::prelude::*;

verus! {

/// Where a session stands. `Closed` is final.
#[derive(Debug, Clone, Copy, PartialEq, Eq, Structural)]
pub enum SessionState {
    Disconnected,
    Connecting,
    Ready,
    Closed,
}

/// The end of one call: what to hand to the slot that its caller waits on.
#[derive(Debug, PartialEq, Eq)]
pub struct Resolution<S> {
    pub seq: i64,
    pub slot: S,
    pub outcome: Result<Message, CallError>,
}

/// A [`Resolution`], as mathematical values.
pub struct ResolutionView<S> {
    pub seq: int,
    pub slot: S,
    pub outcome: Result<MessageView, CallError>,
}

impl<S> View for Resolution<S> {
    type V = ResolutionView<S>;

    open spec fn view(&self) -> ResolutionView<S> {
        ResolutionView {
            seq: self.seq as int,
            slot: self.slot,
            outcome: match self.outcome {
                Ok(m) => Ok(m@),
                Err(e) => Err(e),
            },
        }
    }
}

/// What the reader does with a message that arrived.
#[derive(Debug, PartialEq, Eq)]
pub enum Dispatch<S> {
    /// The message answers a waiting call.
    Reply(Resolution<S>),
    /// The server announces a change: tell the watch callback.
    Push { key: String, field: String, value: String },
    /// Nobody waits for the message and it announces nothing: forget it.
    Dropped,
}

/// A [`Dispatch`], as mathematical values.
pub enum DispatchView<S> {
    Reply(ResolutionView<S>),
    Push { key: Seq<char>, field: Seq<char>, value: Seq<char> },
    Dropped,
}

impl<S> View for Dispatch<S> {
    type V = DispatchView<S>;

    open spec fn view(&self) -> DispatchView<S> {
        match self {
            Dispatch::Reply(r) => DispatchView::Reply(r@),
            Dispatch::Push { key, field, value } => DispatchView::Push {
                key: key@,
                field: field@,
                value: value@,
            },
            Dispatch::Dropped => DispatchView::Dropped,
        }
    }
}

/// The command of a server push.
pub open spec fn watch_command() -> Seq<char> {
    "watch"@
}

/// The state of a session.
pub struct SessionView<S> {
    pub state: SessionState,
    /// The sequence given to the latest request; 0 before the first.
    pub last_seq: int,
    /// The slot of each call that waits, by the sequence of its request.
    pub pending: Map<int, S>,
    /// The key spaces that the client watches.
    pub keys: Seq<Seq<char>>,
}

impl<S> SessionView<S> {
    /// What holds of every session: sequences are positive and given out in
    /// order, and only an open session has calls waiting.
    pub open spec fn wf(self) -> bool {
        &&& 0 <= self.last_seq <= i64::MAX
        &&& forall|k: int| self.pending.contains_key(k) ==> 0 < k <= self.last_seq
        &&& self.state != SessionState::Ready ==> self.pending == Map::<int, S>::empty()
    }

    /// A session before anything happened.
    pub open spec fn fresh(keys: Seq<Seq<char>>) -> Self {
        SessionView {
            state: SessionState::Disconnected,
            last_seq: 0,
            pending: Map::empty(),
            keys,
        }
    }

    /// True when a new call can be made.
    pub open spec fn accepts_calls(self) -> bool {
        self.state == SessionState::Ready
    }

    /// The sequence that the next request gets.
    pub open spec fn next_seq(self) -> int {
        self.last_seq + 1
    }

    /// The session in another state.
    pub open spec fn moved(self, state: SessionState) -> Self {
        SessionView { state, ..self }
    }

    /// The session after a sequence was given to a request that waits for
    /// no reply.
    pub open spec fn ticked(self) -> Self {
        SessionView { last_seq: self.next_seq(), ..self }
    }

    /// The session after a call was given the next sequence and its slot
    /// was registered.
    pub open spec fn registered(self, slot: S) -> Self {
        SessionView {
            last_seq: self.next_seq(),
            pending: self.pending.insert(self.next_seq(), slot),
            ..self
        }
    }

    /// The session without the slot of `seq`.
    pub open spec fn without(self, seq: int) -> Self {
        SessionView { pending: self.pending.remove(seq), ..self }
    }

    /// The session after its connection ended.
    pub open spec fn closed(self) -> Self {
        SessionView { state: SessionState::Closed, pending: Map::empty(), ..self }
    }

    /// The session after a call was attempted, and the request to send, or
    /// the failure of the attempt.
    pub open spec fn begin(self, cmd: Seq<char>, values: Seq<Seq<char>>, slot: S) -> (
        Self,
        Result<MessageView, CallError>,
    ) {
        if self.accepts_calls() {
            (self.registered(slot), Ok(MessageView { cmd, seq: self.next_seq(), values }))
        } else {
            (self, Err(CallError::ConnectionClosed))
        }
    }

    /// What becomes of a message that arrived: the reply to the call that
    /// waits under its sequence, else a push if it is a `watch` with at
    /// least three values, else nothing.
    pub open spec fn route(self, msg: MessageView) -> DispatchView<S> {
        if self.pending.contains_key(msg.seq) {
            DispatchView::Reply(
                ResolutionView { seq: msg.seq, slot: self.pending[msg.seq], outcome: Ok(msg) },
            )
        } else if msg.cmd == watch_command() && msg.values.len() >= 3 {
            DispatchView::Push { key: msg.values[0], field: msg.values[1], value: msg.values[2] }
        } else {
            DispatchView::Dropped
        }
    }

    /// The session after the calls of `slots` were registered, in order.
    pub open spec fn registered_all(self, slots: Seq<S>) -> Self
        decreases slots.len(),
    {
        if slots.len() == 0 {
            self
        } else {
            self.registered_all(slots.drop_last()).registered(slots.last())
        }
    }

    /// The session after the messages of `msgs` arrived, in order.
    pub open spec fn after_all(self, msgs: Seq<MessageView>) -> Self
        decreases msgs.len(),
    {
        if msgs.len() == 0 {
            self
        } else {
            self.after_all(msgs.drop_last()).without(msgs.last().seq)
        }
    }

    /// What becomes of message `i` of `msgs` when they arrive in order.
    pub open spec fn route_nth(self, msgs: Seq<MessageView>, i: int) -> DispatchView<S> {
        self.after_all(msgs.take(i)).route(msgs[i])
    }
}

/// True when `ended` ends every call of `pending`, each once and by its own
/// slot, with `error`. The order is left open.
pub open spec fn fails_each<S>(
    ended: Seq<ResolutionView<S>>,
    pending: Map<int, S>,
    error: CallError,
) -> bool {
    &&& forall|i: int|
        0 <= i < ended.len() ==> {
            &&& pending.contains_key(#[trigger] ended[i].seq)
            &&& ended[i].slot == pending[ended[i].seq]
            &&& ended[i].outcome == Err::<MessageView, CallError>(error)
        }
    &&& forall|i: int, j: int|
        0 <= i < j < ended.len() ==> #[trigger] ended[i].seq != #[trigger] ended[j].seq
    &&& forall|k: int|
        pending.contains_key(k) ==> exists|i: int|
            0 <= i < ended.len() && #[trigger] ended[i].seq == k
}

/// Every step of a session keeps it well formed.
pub proof fn lemma_steps_keep_wf<S>(s: SessionView<S>, seq: int)
    requires
        s.wf(),
    ensures
        SessionView::<S>::fresh(s.keys).wf(),
        s.state == SessionState::Disconnected ==> s.moved(SessionState::Connecting).wf(),
        s.state == SessionState::Connecting ==> s.moved(SessionState::Ready).wf(),
        s.accepts_calls() && s.last_seq < i64::MAX ==> forall|slot: S|
            (#[trigger] s.registered(slot)).wf(),
        s.last_seq < i64::MAX ==> s.ticked().wf(),
        s.without(seq).wf(),
        s.closed().wf(),
{
    if s.state != SessionState::Ready {
        assert(s.without(seq).pending =~= Map::<int, S>::empty());
    }
}

/// After `slots` were registered, the session holds what it held before and
/// each new slot under its own sequence: slot `i` under the `i`-th sequence
/// after the last one given out before.
pub proof fn lemma_registered_all<S>(s: SessionView<S>, slots: Seq<S>)
    requires
        s.wf(),
    ensures
        s.registered_all(slots).last_seq == s.last_seq + slots.len(),
        s.registered_all(slots).state == s.state,
        s.registered_all(slots).keys == s.keys,
        forall|k: int|
            #![trigger s.registered_all(slots).pending.contains_key(k)]
            #![trigger s.registered_all(slots).pending[k]]
            {
                let after = s.registered_all(slots).pending;
                if s.last_seq < k <= s.last_seq + slots.len() {
                    after.contains_key(k) && after[k] == slots[k - s.last_seq - 1]
                } else {
                    after.contains_key(k) == s.pending.contains_key(k) && after[k] == s.pending[k]
                }
            },
    decreases slots.len(),
{
    if slots.len() > 0 {
        lemma_registered_all(s, slots.drop_last());
    }
}

/// After `msgs` arrived, the slots under their sequences are gone and the
/// others are as they were.
pub proof fn lemma_after_all<S>(s: SessionView<S>, msgs: Seq<MessageView>)
    ensures
        s.after_all(msgs).last_seq == s.last_seq,
        s.after_all(msgs).state == s.state,
        s.after_all(msgs).keys == s.keys,
        forall|k: int|
            #![trigger s.after_all(msgs).pending.contains_key(k)]
            #![trigger s.after_all(msgs).pending[k]]
            {
                let after = s.after_all(msgs).pending;
                &&& after.contains_key(k) == (s.pending.contains_key(k) && forall|i: int|
                    0 <= i < msgs.len() ==> (#[trigger] msgs[i]).seq != k)
                &&& after.contains_key(k) ==> after[k] == s.pending[k]
            },
    decreases msgs.len(),
{
    if msgs.len() > 0 {
        let front = msgs.drop_last();
        lemma_after_all(s, front);
        assert forall|k: int| #![trigger s.after_all(msgs).pending.contains_key(k)]
        s.after_all(msgs).pending.contains_key(k) == (s.pending.contains_key(k) && forall|i: int|
            0 <= i < msgs.len() ==> (#[trigger] msgs[i]).seq != k) by {
            if s.after_all(msgs).pending.contains_key(k) {
                assert forall|i: int| 0 <= i < msgs.len() implies (#[trigger] msgs[i]).seq != k by {
                    if i < front.len() {
                        assert(front[i] == msgs[i]);
                    }
                }
            }
            if s.pending.contains_key(k) && forall|i: int|
                0 <= i < msgs.len() ==> (#[trigger] msgs[i]).seq != k {
                assert forall|i: int| 0 <= i < front.len() implies (#[trigger] front[i]).seq
                    != k by {
                    assert(front[i] == msgs[i]);
                }
                assert(msgs[msgs.len() - 1].seq != k);
            }
        }
    }
}

/// Replies find their callers by sequence, in whatever order they come.
///
/// Calls are made one after the other on an open session, each with its own
/// slot. Then one reply for each arrives, in the order that `order` gives:
/// message `j` answers call `order[j]`. Every reply is handed to the slot of
/// the call that it answers, and when all have come no new slot is left.
pub proof fn lemma_replies_pair_by_sequence<S>(
    s: SessionView<S>,
    slots: Seq<S>,
    msgs: Seq<MessageView>,
    order: Seq<int>,
)
    requires
        s.wf(),
        s.accepts_calls(),
        s.last_seq + slots.len() <= i64::MAX,
        msgs.len() == slots.len(),
        order.len() == slots.len(),
        order.no_duplicates(),
        forall|j: int| 0 <= j < order.len() ==> 0 <= #[trigger] order[j] < slots.len(),
        forall|j: int| 0 <= j < msgs.len() ==> (#[trigger] msgs[j]).seq == s.last_seq + 1 + order[j],
    ensures
        forall|j: int|
            0 <= j < msgs.len() ==> #[trigger] s.registered_all(slots).route_nth(msgs, j)
                == DispatchView::Reply(
                ResolutionView { seq: msgs[j].seq, slot: slots[order[j]], outcome: Ok(msgs[j]) },
            ),
        s.registered_all(slots).after_all(msgs).pending == s.pending,
{
    let t = s.registered_all(slots);
    lemma_registered_all(s, slots);
    assert forall|j: int| 0 <= j < msgs.len() implies #[trigger] t.route_nth(msgs, j)
        == DispatchView::Reply(
        ResolutionView { seq: msgs[j].seq, slot: slots[order[j]], outcome: Ok(msgs[j]) },
    ) by {
        let before = msgs.take(j);
        let k = msgs[j].seq;
        lemma_after_all(t, before);
        assert(t.pending.contains_key(k));
        assert forall|i: int| 0 <= i < before.len() implies (#[trigger] before[i]).seq != k by {
            assert(before[i] == msgs[i]);
            assert(order[i] != order[j]);
        }
        assert(t.after_all(before).pending.contains_key(k));
    }
    lemma_after_all(t, msgs);
    assert forall|k: int| t.after_all(msgs).pending.contains_key(k) == s.pending.contains_key(
        k,
    ) by {
        if s.last_seq < k <= s.last_seq + slots.len() {
            lemma_order_covers(order, k - s.last_seq - 1);
            let j = choose|j: int| 0 <= j < order.len() && order[j] == k - s.last_seq - 1;
            assert(msgs[j].seq == k);
            assert(t.pending.contains_key(k));
            assert(!t.after_all(msgs).pending.contains_key(k));
        } else {
            assert(t.pending.contains_key(k) == s.pending.contains_key(k));
            if s.pending.contains_key(k) {
                assert forall|i: int| 0 <= i < msgs.len() implies (#[trigger] msgs[i]).seq
                    != k by {
                    assert(0 <= order[i]);
                }
            }
        }
    }
    assert forall|k: int| s.pending.contains_key(k) implies t.after_all(msgs).pending[k]
        == s.pending[k] by {
        assert(t.after_all(msgs).pending.contains_key(k));
        assert(t.pending[k] == s.pending[k]);
    }
    assert(t.after_all(msgs).pending =~= s.pending);
}

/// An order of `n` distinct places below `n` reaches every place.
proof fn lemma_order_covers(order: Seq<int>, place: int)
    requires
        order.no_duplicates(),
        forall|j: int| 0 <= j < order.len() ==> 0 <= #[trigger] order[j] < order.len(),
        0 <= place < order.len(),
    ensures
        exists|j: int| 0 <= j < order.len() && order[j] == place,
{
    let places = Set::new(|p: int| 0 <= p < order.len());
    vstd::set_lib::lemma_int_range(0, order.len() as int);
    assert(places =~= vstd::set_lib::set_int_range(0, order.len() as int));
    order.unique_seq_to_set();
    assert(order.to_set().subset_of(places)) by {
        assert forall|p: int| order.to_set().contains(p) implies places.contains(p) by {
            let j = choose|j: int| 0 <= j < order.len() && order[j] == p;
        }
    }
    vstd::set_lib::lemma_subset_equality(order.to_set(), places);
    assert(order.to_set().contains(place));
}

/// The sequence that a call gets is positive and belongs to no call that
/// waits: no two calls in flight share one, and 0 is never given out.
pub proof fn lemma_next_seq_is_fresh<S>(s: SessionView<S>)
    requires
        s.wf(),
    ensures
        s.next_seq() > 0,
        !s.pending.contains_key(s.next_seq()),
        forall|slot: S|
            #![trigger s.registered(slot)]
            s.registered(slot).pending.remove(s.next_seq()) == s.pending,
{
    assert forall|slot: S| #![trigger s.registered(slot)]
    s.registered(slot).pending.remove(s.next_seq()) == s.pending by {
        assert(s.registered(slot).pending.remove(s.next_seq()) =~= s.pending);
    }
}

/// When the connection ends, every waiting call fails with
/// `ConnectionClosed`: what ends the calls of a session hands each waiting
/// slot that error. None is left waiting, every later call fails at once in
/// the same way, and no message is taken for a reply any more.
pub proof fn lemma_close_is_final<S>(
    s: SessionView<S>,
    ended: Seq<ResolutionView<S>>,
    cmd: Seq<char>,
    values: Seq<Seq<char>>,
    slot: S,
    msg: MessageView,
)
    requires
        s.wf(),
        fails_each(ended, s.pending, CallError::ConnectionClosed),
    ensures
        forall|k: int|
            s.pending.contains_key(k) ==> ended.contains(
                ResolutionView {
                    seq: k,
                    slot: #[trigger] s.pending[k],
                    outcome: Err(CallError::ConnectionClosed),
                },
            ),
        s.closed().wf(),
        s.closed().state == SessionState::Closed,
        s.closed().pending == Map::<int, S>::empty(),
        s.closed().begin(cmd, values, slot) == (
            s.closed(),
            Err::<MessageView, CallError>(CallError::ConnectionClosed),
        ),
        !(s.closed().route(msg) is Reply),
        s.closed().closed() == s.closed(),
{
    assert forall|k: int| s.pending.contains_key(k) implies ended.contains(
        ResolutionView {
            seq: k,
            slot: #[trigger] s.pending[k],
            outcome: Err(CallError::ConnectionClosed),
        },
    ) by {
        let i = choose|i: int| 0 <= i < ended.len() && #[trigger] ended[i].seq == k;
        assert(ended[i] == ResolutionView {
            seq: k,
            slot: s.pending[k],
            outcome: Err::<MessageView, CallError>(CallError::ConnectionClosed),
        });
    }
}

} // verus!
