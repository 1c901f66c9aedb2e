//! The unit of exchange between client and server.

use vstd::prelude::*;

verus! {

/// One request, reply or server push.
///
/// `cmd` names the operation, `seq` pairs a reply with its request, and the
/// meaning of `values` depends on the command.
#[derive(Debug, Clone, PartialEq, Eq)]
pub struct Message {
    pub cmd: String,
    pub seq: i64,
    pub values: Vec<String>,
}

/// What a [`Message`] holds, as mathematical values.
pub struct MessageView {
    pub cmd: Seq<char>,
    pub seq: int,
    pub values: Seq<Seq<char>>,
}

/// The texts held by a vector of strings, in order.
pub open spec fn texts(values: Seq<String>) -> Seq<Seq<char>> {
    Seq::new(values.len(), |i: int| values[i]@)
}

impl View for Message {
    type V = MessageView;

    open spec fn view(&self) -> MessageView {
        MessageView { cmd: self.cmd@, seq: self.seq as int, values: texts(self.values@) }
    }
}

impl Message {
    /// Builds a message from its three fields.
    pub fn new(cmd: String, seq: i64, values: Vec<String>) -> (msg: Message)
        ensures
            msg.cmd == cmd,
            msg.seq == seq,
            msg.values == values,
            msg@ == (MessageView { cmd: cmd@, seq: seq as int, values: texts(values@) }),
    {
        Message { cmd, seq, values }
    }
}

} // verus!
