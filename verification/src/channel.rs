//! The message channel's verified core: the FIFO queue that hands decoded
//! messages from the listener to the control loop, and the per-connection
//! decision on the text one connection carried. The blocking I/O around
//! them (accept, read, connect, write) lives outside the library and feeds
//! the text in.
use vstd::prelude::*;

use crate::codec::DecodeError;
use crate::json::{parse_document, spec_parse_document, ParseError};
use crate::message::{decode_message, spec_decode_message, Message, SpecMessage};
use std::collections::VecDeque;

verus! {

/// The single-producer/single-consumer message queue, oldest message first.
pub struct MessageQueue {
    items: VecDeque<Message>,
}

/// Why one connection's payload was not delivered.
#[derive(Debug, PartialEq, Eq)]
pub enum RecvFailure {
    /// The text did not form one interchange document.
    Malformed(ParseError),
    /// The document was not a well-formed message.
    Decode(DecodeError),
}

/// What one connection amounted to.
#[derive(Debug, PartialEq, Eq)]
pub enum ConnOutcome {
    /// The connection carried zero bytes: a no-op, not an error.
    Ignored,
    /// One message was decoded and enqueued.
    Delivered,
    /// The payload did not parse or decode; nothing was enqueued.
    Rejected(RecvFailure),
}

impl MessageQueue {
    /// The queued messages, oldest first.
    pub closed spec fn msgs(self) -> Seq<Message> {
        self.items@
    }

    /// A fresh, empty queue.
    pub fn new() -> (q: MessageQueue)
        ensures
            q.msgs() == Seq::<Message>::empty(),
    {
        MessageQueue { items: VecDeque::new() }
    }

    /// Append one message at the back.
    pub fn push(&mut self, m: Message)
        ensures
            final(self).msgs() == old(self).msgs().push(m),
    {
        self.items.push_back(m);
        proof {
            assert(self.items@ =~= old(self).items@.push(m));
        }
    }

    /// Take at most one message: the oldest one, or `None` on an empty
    /// queue — immediately, never blocking the caller.
    pub fn poll(&mut self) -> (r: Option<Message>)
        ensures
            old(self).msgs().len() == 0 ==> r is None && final(self).msgs() == old(self).msgs(),
            old(self).msgs().len() > 0 ==> r == Some(old(self).msgs()[0]) && final(self).msgs()
                == old(self).msgs().drop_first(),
    {
        self.items.pop_front()
    }

    /// How many messages are waiting.
    pub fn len(&self) -> (n: usize)
        ensures
            n == self.msgs().len(),
    {
        self.items.len()
    }
}

/// What one connection's text amounts to: nothing for empty text; the
/// decoded message for text that holds one well-formed message document;
/// the structured failure otherwise.
pub open spec fn spec_connection_step(data: Seq<char>) -> Result<SpecMessage, ()> {
    if data.len() == 0 {
        Err(())
    } else {
        match spec_parse_document(data) {
            Option::None => Err(()),
            Option::Some(j) => match spec_decode_message(j) {
                Ok(sm) => Ok(sm),
                Err(_) => Err(()),
            },
        }
    }
}

/// The per-connection decision of the inbound listener, on the full text
/// one connection carried: zero bytes are ignored; text that is not one
/// well-formed interchange document (truncated, malformed) is rejected with
/// a parse failure; a document that is not a well-formed message is
/// rejected with its decode failure; otherwise the message is enqueued at
/// the back of the queue. Nothing but a delivery ever changes the queue,
/// and no outcome stops the listener: it always proceeds to the next
/// connection.
pub fn handle_connection(q: &mut MessageQueue, data: &str) -> (r: ConnOutcome)
    ensures
        data@.len() == 0 ==> r == ConnOutcome::Ignored && final(q).msgs() == old(q).msgs(),
        data@.len() > 0 ==> match spec_parse_document(data@) {
            Option::None => r == ConnOutcome::Rejected(RecvFailure::Malformed(ParseError))
                && final(q).msgs() == old(q).msgs(),
            Option::Some(j) => match spec_decode_message(j) {
                Ok(sm) => {
                    &&& r == ConnOutcome::Delivered
                    &&& final(q).msgs().len() == old(q).msgs().len() + 1
                    &&& final(q).msgs() == old(q).msgs().push(final(q).msgs().last())
                    &&& final(q).msgs().last()@ == sm
                },
                Err(se) => {
                    &&& r matches ConnOutcome::Rejected(f) && f matches RecvFailure::Decode(e)
                        && e@ == se
                    &&& final(q).msgs() == old(q).msgs()
                },
            },
        },
        spec_connection_step(data@) matches Ok(sm) ==> msg_views(final(q).msgs()) == msg_views(
            old(q).msgs(),
        ).push(sm),
        spec_connection_step(data@) is Err ==> final(q).msgs() == old(q).msgs(),
{
    if data.unicode_len() == 0 {
        return ConnOutcome::Ignored;
    }
    match parse_document(data) {
        Err(pe) => ConnOutcome::Rejected(RecvFailure::Malformed(pe)),
        Ok(doc) => match decode_message(doc) {
            Ok(m) => {
                let ghost gm = m@;
                q.push(m);
                proof {
                    assert(msg_views(q.msgs()) =~= msg_views(old(q).msgs()).push(gm));
                }
                ConnOutcome::Delivered
            },
            Err(e) => ConnOutcome::Rejected(RecvFailure::Decode(e)),
        },
    }
}

/// The message models held by a queue, oldest first.
pub open spec fn msg_views(s: Seq<Message>) -> Seq<SpecMessage> {
    Seq::new(s.len(), |i: int| s[i]@)
}

/// The messages a run of connections delivers, in connection order: the
/// successful decodes of the well-formed, non-empty payloads, and nothing
/// for any other payload.
pub open spec fn deliveries(reads: Seq<Seq<char>>) -> Seq<SpecMessage>
    decreases reads.len(),
{
    if reads.len() == 0 {
        Seq::empty()
    } else {
        (match spec_connection_step(reads[0]) {
            Ok(sm) => seq![sm],
            Err(_) => Seq::empty(),
        }) + deliveries(reads.drop_first())
    }
}

/// The queue contents after a run of connections, each handled as
/// `handle_connection` promises.
pub open spec fn run_steps(q0: Seq<SpecMessage>, reads: Seq<Seq<char>>) -> Seq<SpecMessage>
    decreases reads.len(),
{
    if reads.len() == 0 {
        q0
    } else {
        run_steps(
            match spec_connection_step(reads[0]) {
                Ok(sm) => q0.push(sm),
                Err(_) => q0,
            },
            reads.drop_first(),
        )
    }
}

/// Malformed-input resilience, over a whole run: however many connections
/// send zero bytes, truncated payloads or unknown tags, the queue ends up
/// holding exactly the initial messages followed by the successful decodes
/// of the well-formed payloads, in connection order — no failed connection
/// enqueues anything or disturbs the handling of a later one.
pub proof fn lemma_listener_resilience(q0: Seq<SpecMessage>, reads: Seq<Seq<char>>)
    ensures
        run_steps(q0, reads) == q0 + deliveries(reads),
    decreases reads.len(),
{
    if reads.len() == 0 {
        assert(q0 + deliveries(reads) =~= q0);
    } else {
        let rest = reads.drop_first();
        match spec_connection_step(reads[0]) {
            Ok(sm) => {
                lemma_listener_resilience(q0.push(sm), rest);
                assert(q0.push(sm) + deliveries(rest) =~= q0 + (seq![sm] + deliveries(rest)));
            },
            Err(_) => {
                lemma_listener_resilience(q0, rest);
                assert(q0 + deliveries(rest) =~= q0 + (Seq::<SpecMessage>::empty() + deliveries(
                    rest,
                )));
            },
        }
    }
}

} // verus!
