//! The client's side of a session: sequence numbers, the registry of waiting
//! calls, and the requests of the typed operations.
//!
//! Nothing here waits or touches a socket. A call is begun by registering the
//! slot on which its caller will wait and handing back the request to send;
//! it is ended when the reader passes in the message that arrived, when its
//! deadline passes, or when the connection ends.

use crate::decimal::format_i64;
use crate::error::CallError;
use crate::message::{texts, Message, MessageView};
use crate::session::{
    fails_each, lemma_steps_keep_wf, Dispatch, Resolution, ResolutionView, SessionState,
    SessionView,
};
use std::collections::HashMap;
use vstd::prelude::*;
use vstd::std_specs::hash::*;
use vstd::std_specs::iter::IteratorSpec;

verus! {

/// Seconds between two keepalive frames.
pub const HEARTBEAT_PERIOD_SECS: u64 = 5;

/// Frames that may wait to be written before callers are held back.
pub const OUTBOUND_QUEUE_CAPACITY: usize = 32;

/// A registry keyed by machine integers, as a map over all integers.
spec fn by_int<S>(m: Map<i64, S>) -> Map<int, S> {
    Map::new(
        |k: int| i64::MIN <= k <= i64::MAX && m.contains_key(k as i64),
        |k: int| m[k as i64],
    )
}

/// A request, or the failure to begin a call, as mathematical values.
pub open spec fn request_view(r: Result<Message, CallError>) -> Result<MessageView, CallError> {
    match r {
        Ok(m) => Ok(m@),
        Err(e) => Err(e),
    }
}

/// The state of one session. `S` is the slot on which a caller waits for
/// the end of its call; the client keeps it and hands it back, no more.
pub struct Client<S> {
    pending: HashMap<i64, S>,
    seq: i64,
    state: SessionState,
    pub keys: Vec<String>,
}

impl<S> View for Client<S> {
    type V = SessionView<S>;

    closed spec fn view(&self) -> SessionView<S> {
        SessionView {
            state: self.state,
            last_seq: self.seq as int,
            pending: by_int(self.pending@),
            keys: texts(self.keys@),
        }
    }
}

/// The sequences under which `m` holds a slot.
fn sequences<S>(m: &HashMap<i64, S>) -> (ks: Vec<i64>)
    ensures
        ks@.no_duplicates(),
        ks@.to_set() == m@.dom(),
{
    broadcast use group_hash_axioms;

    let mut ks: Vec<i64> = Vec::new();
    let ghost all: Seq<&i64> = IteratorSpec::remaining(&spec_keys_iter(m));
    proof {
        axiom_spec_keys_iter(m);
    }
    for k in it: m.keys()
        invariant
            it.seq() == all,
            ks@ =~= all.unref().subrange(0, it.index() as int),
    {
        ks.push(*k);
    }
    assert(ks@ =~= all.unref());
    ks
}

impl<S> Client<S> {
    /// What holds of every client; see [`SessionView::wf`].
    pub open spec fn wf(&self) -> bool {
        self@.wf()
    }

    /// A client that watches `keys`, not yet connected.
    pub fn new(keys: Vec<String>) -> (c: Client<S>)
        ensures
            c.wf(),
            c@ == SessionView::<S>::fresh(texts(keys@)),
    {
        let c = Client { pending: HashMap::new(), seq: 0, state: SessionState::Disconnected, keys };
        assert(c@.pending =~= Map::<int, S>::empty());
        c
    }

    /// Where the session stands.
    pub fn state(&self) -> (state: SessionState)
        ensures
            state == self@.state,
    {
        self.state
    }

    /// The sequence given to the latest request.
    pub fn last_sequence(&self) -> (seq: i64)
        ensures
            seq == self@.last_seq,
    {
        self.seq
    }

    /// Notes that a connection attempt began. Only a session that never
    /// connected can do so; any other is left as it is.
    pub fn connecting(&mut self) -> (moved: bool)
        requires
            old(self).wf(),
        ensures
            final(self).wf(),
            moved == (old(self)@.state == SessionState::Disconnected),
            final(self)@ == if moved {
                old(self)@.moved(SessionState::Connecting)
            } else {
                old(self)@
            },
    {
        if self.state == SessionState::Disconnected {
            self.state = SessionState::Connecting;
            true
        } else {
            false
        }
    }

    /// Notes that the connection stands: calls are accepted from now on.
    /// Only a connecting session can do so; any other is left as it is.
    pub fn connected(&mut self) -> (moved: bool)
        requires
            old(self).wf(),
        ensures
            final(self).wf(),
            moved == (old(self)@.state == SessionState::Connecting),
            final(self)@ == if moved {
                old(self)@.moved(SessionState::Ready)
            } else {
                old(self)@
            },
    {
        if self.state == SessionState::Connecting {
            self.state = SessionState::Ready;
            true
        } else {
            false
        }
    }

    /// Begins a call: gives `msg` the next sequence and registers `slot`
    /// under it. The caller then sends `msg` and waits on the slot.
    ///
    /// Fails with `ConnectionClosed`, changing nothing, unless the session
    /// is ready.
    pub fn send_message(&mut self, msg: &mut Message, slot: S) -> (r: Result<(), CallError>)
        requires
            old(self).wf(),
            old(self)@.accepts_calls() ==> old(self)@.last_seq < i64::MAX,
        ensures
            final(self).wf(),
            final(msg).cmd == old(msg).cmd,
            final(msg).values == old(msg).values,
            match r {
                Ok(_) => {
                    &&& old(self)@.accepts_calls()
                    &&& final(self)@ == old(self)@.registered(slot)
                    &&& final(msg).seq == old(self)@.next_seq()
                },
                Err(e) => {
                    &&& !old(self)@.accepts_calls()
                    &&& e == CallError::ConnectionClosed
                    &&& final(self)@ == old(self)@
                    &&& final(msg).seq == old(msg).seq
                },
            },
    {
        broadcast use group_hash_axioms;

        if self.state != SessionState::Ready {
            return Err(CallError::ConnectionClosed);
        }
        self.seq = self.seq + 1;
        msg.seq = self.seq;
        self.pending.insert(self.seq, slot);
        assert(self@.pending =~= old(self)@.pending.insert(old(self)@.next_seq(), slot));
        Ok(())
    }

    /// Begins a call of `cmd` with `values`: the one primitive under every
    /// typed operation. Returns the request to send, with its sequence, and
    /// registers `slot` under that sequence.
    pub fn call(&mut self, cmd: &str, values: Vec<String>, slot: S) -> (r: Result<
        Message,
        CallError,
    >)
        requires
            old(self).wf(),
            old(self)@.accepts_calls() ==> old(self)@.last_seq < i64::MAX,
        ensures
            final(self).wf(),
            (final(self)@, request_view(r)) == old(self)@.begin(cmd@, texts(values@), slot),
    {
        let mut msg = Message::new(cmd.to_owned(), 0, values);
        match self.send_message(&mut msg, slot) {
            Ok(_) => Ok(msg),
            Err(e) => Err(e),
        }
    }

    /// Begins the call that tells the server which key spaces this client
    /// watches.
    pub fn initialize(&mut self, slot: S) -> (r: Result<Message, CallError>)
        requires
            old(self).wf(),
            old(self)@.accepts_calls() ==> old(self)@.last_seq < i64::MAX,
        ensures
            final(self).wf(),
            (final(self)@, request_view(r)) == old(self)@.begin(
                "initialize"@,
                old(self)@.keys,
                slot,
            ),
    {
        let mut values: Vec<String> = Vec::new();
        let mut i: usize = 0;
        while i < self.keys.len()
            invariant
                i <= self.keys@.len(),
                values@ == self.keys@.subrange(0, i as int),
                *self == *old(self),
            decreases self.keys@.len() - i,
        {
            values.push(self.keys[i].clone());
            assert(values@ =~= self.keys@.subrange(0, i + 1));
            i += 1;
        }
        assert(values@ =~= self.keys@);
        self.call("initialize", values, slot)
    }

    /// Begins a heartbeat that is acknowledged.
    pub fn heartbeat(&mut self, slot: S) -> (r: Result<Message, CallError>)
        requires
            old(self).wf(),
            old(self)@.accepts_calls() ==> old(self)@.last_seq < i64::MAX,
        ensures
            final(self).wf(),
            (final(self)@, request_view(r)) == old(self)@.begin(
                "heartbeat"@,
                Seq::<Seq<char>>::empty(),
                slot,
            ),
    {
        let values: Vec<String> = Vec::new();
        assert(texts(values@) =~= Seq::<Seq<char>>::empty());
        self.call("heartbeat", values, slot)
    }

    /// Begins the read of one field of a key.
    pub fn hget(&mut self, key: &str, field: &str, slot: S) -> (r: Result<Message, CallError>)
        requires
            old(self).wf(),
            old(self)@.accepts_calls() ==> old(self)@.last_seq < i64::MAX,
        ensures
            final(self).wf(),
            (final(self)@, request_view(r)) == old(self)@.begin(
                "hget"@,
                seq![key@, field@],
                slot,
            ),
    {
        let mut values: Vec<String> = Vec::new();
        values.push(key.to_owned());
        values.push(field.to_owned());
        assert(texts(values@) =~= seq![key@, field@]);
        self.call("hget", values, slot)
    }

    /// Begins the read of all fields of a key.
    pub fn hgetall(&mut self, key: &str, slot: S) -> (r: Result<Message, CallError>)
        requires
            old(self).wf(),
            old(self)@.accepts_calls() ==> old(self)@.last_seq < i64::MAX,
        ensures
            final(self).wf(),
            (final(self)@, request_view(r)) == old(self)@.begin("hgetall"@, seq![key@], slot),
    {
        let mut values: Vec<String> = Vec::new();
        values.push(key.to_owned());
        assert(texts(values@) =~= seq![key@]);
        self.call("hgetall", values, slot)
    }

    /// Begins the write of one field of a key.
    pub fn hset(&mut self, key: &str, field: &str, value: &str, slot: S) -> (r: Result<
        Message,
        CallError,
    >)
        requires
            old(self).wf(),
            old(self)@.accepts_calls() ==> old(self)@.last_seq < i64::MAX,
        ensures
            final(self).wf(),
            (final(self)@, request_view(r)) == old(self)@.begin(
                "hset"@,
                seq![key@, field@, value@],
                slot,
            ),
    {
        let mut values: Vec<String> = Vec::new();
        values.push(key.to_owned());
        values.push(field.to_owned());
        values.push(value.to_owned());
        assert(texts(values@) =~= seq![key@, field@, value@]);
        self.call("hset", values, slot)
    }

    /// Begins the search for the keys that start with `prefix`.
    pub fn key_prefix(&mut self, prefix: &str, slot: S) -> (r: Result<Message, CallError>)
        requires
            old(self).wf(),
            old(self)@.accepts_calls() ==> old(self)@.last_seq < i64::MAX,
        ensures
            final(self).wf(),
            (final(self)@, request_view(r)) == old(self)@.begin(
                "key_prefix"@,
                seq![prefix@],
                slot,
            ),
    {
        let mut values: Vec<String> = Vec::new();
        values.push(prefix.to_owned());
        assert(texts(values@) =~= seq![prefix@]);
        self.call("key_prefix", values, slot)
    }

    /// Begins the removal of a key.
    pub fn del(&mut self, key: &str, slot: S) -> (r: Result<Message, CallError>)
        requires
            old(self).wf(),
            old(self)@.accepts_calls() ==> old(self)@.last_seq < i64::MAX,
        ensures
            final(self).wf(),
            (final(self)@, request_view(r)) == old(self)@.begin("del"@, seq![key@], slot),
    {
        let mut values: Vec<String> = Vec::new();
        values.push(key.to_owned());
        assert(texts(values@) =~= seq![key@]);
        self.call("del", values, slot)
    }

    /// Begins the addition of `value` to the number in one field of a key.
    pub fn hincrby(&mut self, key: &str, field: &str, value: i64, slot: S) -> (r: Result<
        Message,
        CallError,
    >)
        requires
            old(self).wf(),
            old(self)@.accepts_calls() ==> old(self)@.last_seq < i64::MAX,
        ensures
            final(self).wf(),
            (final(self)@, request_view(r)) == old(self)@.begin(
                "hincrby"@,
                seq![key@, field@, crate::decimal::int_text(value as int)],
                slot,
            ),
    {
        let mut values: Vec<String> = Vec::new();
        values.push(key.to_owned());
        values.push(field.to_owned());
        values.push(format_i64(value));
        assert(texts(values@) =~= seq![key@, field@, crate::decimal::int_text(value as int)]);
        self.call("hincrby", values, slot)
    }

    /// Makes the keepalive frame of one tick of the heartbeat timer. It takes
    /// a sequence of its own and no slot: nobody waits for its reply.
    ///
    /// Fails with `ConnectionClosed`, changing nothing, unless the session
    /// is ready.
    pub fn keepalive(&mut self) -> (r: Result<Message, CallError>)
        requires
            old(self).wf(),
            old(self)@.accepts_calls() ==> old(self)@.last_seq < i64::MAX,
        ensures
            final(self).wf(),
            final(self)@ == if old(self)@.accepts_calls() {
                old(self)@.ticked()
            } else {
                old(self)@
            },
            request_view(r) == if old(self)@.accepts_calls() {
                Ok::<MessageView, CallError>(
                    MessageView {
                        cmd: "heartbeat"@,
                        seq: old(self)@.next_seq(),
                        values: Seq::empty(),
                    },
                )
            } else {
                Err::<MessageView, CallError>(CallError::ConnectionClosed)
            },
    {
        if self.state != SessionState::Ready {
            return Err(CallError::ConnectionClosed);
        }
        self.seq = self.seq + 1;
        let values: Vec<String> = Vec::new();
        assert(texts(values@) =~= Seq::<Seq<char>>::empty());
        Ok(Message::new("heartbeat".to_owned(), self.seq, values))
    }

    /// Decides what becomes of a message that arrived, and forgets the slot
    /// that it answers: a reply ends its call.
    pub fn on_message(&mut self, msg: Message) -> (d: Dispatch<S>)
        requires
            old(self).wf(),
        ensures
            final(self).wf(),
            d@ == old(self)@.route(msg@),
            final(self)@ == old(self)@.without(msg@.seq),
    {
        broadcast use group_hash_axioms;

        let seq = msg.seq;
        let found = self.pending.remove(&seq);
        proof {
            assert(self@.pending =~= old(self)@.pending.remove(seq as int));
            lemma_steps_keep_wf(old(self)@, seq as int);
        }
        match found {
            Some(slot) => Dispatch::Reply(Resolution { seq, slot, outcome: Ok(msg) }),
            None => {
                if msg.values.len() >= 3 && msg.cmd == "watch".to_owned() {
                    Dispatch::Push {
                        key: msg.values[0].clone(),
                        field: msg.values[1].clone(),
                        value: msg.values[2].clone(),
                    }
                } else {
                    Dispatch::Dropped
                }
            },
        }
    }

    /// Ends the call of `seq` because its deadline passed: its slot is
    /// forgotten and handed back with `Timeout`. `None` when no call waits
    /// under `seq`.
    pub fn expire(&mut self, seq: i64) -> (r: Option<Resolution<S>>)
        requires
            old(self).wf(),
        ensures
            final(self).wf(),
            final(self)@ == old(self)@.without(seq as int),
            match r {
                Some(ended) => old(self)@.pending.contains_key(seq as int) && ended@
                    == (ResolutionView {
                    seq: seq as int,
                    slot: old(self)@.pending[seq as int],
                    outcome: Err(CallError::Timeout),
                }),
                None => !old(self)@.pending.contains_key(seq as int),
            },
    {
        match self.cancel(seq) {
            Some(slot) => Some(Resolution { seq, slot, outcome: Err(CallError::Timeout) }),
            None => None,
        }
    }

    /// Forgets the call of `seq` because its caller gave up, and hands its
    /// slot back. `None` when no call waits under `seq`.
    pub fn cancel(&mut self, seq: i64) -> (r: Option<S>)
        requires
            old(self).wf(),
        ensures
            final(self).wf(),
            final(self)@ == old(self)@.without(seq as int),
            r == if old(self)@.pending.contains_key(seq as int) {
                Some(old(self)@.pending[seq as int])
            } else {
                None
            },
    {
        broadcast use group_hash_axioms;

        let found = self.pending.remove(&seq);
        proof {
            assert(self@.pending =~= old(self)@.pending.remove(seq as int));
            lemma_steps_keep_wf(old(self)@, seq as int);
        }
        found
    }

    /// Ends the session: every waiting call is failed with
    /// `ConnectionClosed`, and no call is accepted from now on.
    pub fn close(&mut self) -> (ended: Vec<Resolution<S>>)
        requires
            old(self).wf(),
        ensures
            final(self).wf(),
            final(self)@ == old(self)@.closed(),
            fails_each(
                Seq::new(ended@.len(), |i: int| ended@[i]@),
                old(self)@.pending,
                CallError::ConnectionClosed,
            ),
    {
        broadcast use group_hash_axioms;

        let seqs = sequences(&self.pending);
        let ghost before = self.pending@;
        let mut ended: Vec<Resolution<S>> = Vec::new();
        let mut i: usize = 0;
        while i < seqs.len()
            invariant
                i <= seqs@.len(),
                seqs@.no_duplicates(),
                seqs@.to_set() == before.dom(),
                before == old(self).pending@,
                self.seq == old(self).seq,
                self.state == old(self).state,
                self.keys == old(self).keys,
                ended@.len() == i,
                forall|k: i64|
                    #![trigger self.pending@.contains_key(k)]
                    self.pending@.contains_key(k) <==> before.contains_key(k) && !seqs@.subrange(
                        0,
                        i as int,
                    ).contains(k),
                forall|k: i64|
                    #![trigger self.pending@[k]]
                    self.pending@.contains_key(k) ==> self.pending@[k] == before[k],
                forall|j: int|
                    0 <= j < i ==> {
                        &&& (#[trigger] ended@[j]).seq == seqs@[j]
                        &&& ended@[j].slot == before[seqs@[j]]
                        &&& ended@[j].outcome is Err
                        &&& ended@[j].outcome->Err_0 == CallError::ConnectionClosed
                    },
            decreases seqs@.len() - i,
        {
            let seq = seqs[i];
            assert(seqs@.to_set().contains(seq));
            assert(!seqs@.subrange(0, i as int).contains(seq));
            let ghost held = self.pending@;
            assert(held.contains_key(seq));
            assert(held[seq] == before[seq]);
            match self.pending.remove(&seq) {
                Some(slot) => {
                    ended.push(
                        Resolution { seq, slot, outcome: Err(CallError::ConnectionClosed) },
                    );
                },
                None => {},
            }
            assert forall|k: i64|
                self.pending@.contains_key(k) <==> before.contains_key(k) && !seqs@.subrange(
                    0,
                    i + 1,
                ).contains(k) by {
                let done = seqs@.subrange(0, i as int);
                let next = seqs@.subrange(0, i + 1);
                assert(self.pending@ == held.remove(seq));
                assert(held.contains_key(k) <==> before.contains_key(k) && !done.contains(k));
                assert(next =~= done.push(seq));
                if next.contains(k) && k != seq {
                    let j = choose|j: int| 0 <= j < next.len() && next[j] == k;
                    assert(done[j] == k);
                }
                if done.contains(k) {
                    let j = choose|j: int| 0 <= j < done.len() && done[j] == k;
                    assert(next[j] == k);
                }
                assert(next[i as int] == seq);
            }
            i += 1;
        }
        assert(seqs@.subrange(0, i as int) =~= seqs@);
        assert(self.pending@ =~= Map::<i64, S>::empty()) by {
            assert forall|k: i64| !self.pending@.contains_key(k) by {
                if before.contains_key(k) {
                    assert(seqs@.to_set().contains(k));
                }
            }
        }
        self.state = SessionState::Closed;
        assert(self@.pending =~= Map::<int, S>::empty());
        proof {
            let views = Seq::new(ended@.len(), |i: int| ended@[i]@);
            let pending = old(self)@.pending;
            assert forall|i: int| 0 <= i < views.len() implies {
                &&& pending.contains_key(#[trigger] views[i].seq)
                &&& views[i].slot == pending[views[i].seq]
                &&& views[i].outcome == Err::<MessageView, CallError>(CallError::ConnectionClosed)
            } by {
                assert(seqs@.to_set().contains(seqs@[i]));
                assert(ended@[i].seq == seqs@[i]);
            }
            assert forall|i: int, j: int| 0 <= i < j < views.len() implies #[trigger] views[i].seq
                != #[trigger] views[j].seq by {
                assert(ended@[i].seq == seqs@[i]);
                assert(ended@[j].seq == seqs@[j]);
            }
            assert forall|k: int| pending.contains_key(k) implies exists|i: int|
                0 <= i < views.len() && #[trigger] views[i].seq == k by {
                assert(seqs@.to_set().contains(k as i64));
                let i = choose|i: int| 0 <= i < seqs@.len() && seqs@[i] == k as i64;
                assert(ended@[i].seq == seqs@[i]);
                assert(views[i].seq == k);
            }
        }
        ended
    }
}

} // verus!
