pub mod listen;
pub mod reply;

use vstd::prelude::*;
use std::collections::HashMap;
use crate::utils::bytes::be16_at;

verus! {

broadcast use vstd::std_specs::hash::group_hash_axioms;

/// The queries that wait for an upstream answer: for each message ID, the
/// address of the client that sent it.
pub struct QueryMap<A> {
    map: HashMap<u16, A>,
}

impl<A> View for QueryMap<A> {
    type V = Map<u16, A>;

    closed spec fn view(&self) -> Map<u16, A> {
        self.map@
    }
}

impl<A> QueryMap<A> {
    /// No query waits.
    pub fn new() -> (m: Self)
        ensures
            m@ == Map::<u16, A>::empty(),
    {
        QueryMap { map: HashMap::new() }
    }

    /// Notes that the query `id` came from `addr`, replacing what was noted
    /// for `id` before.
    pub fn record(&mut self, id: u16, addr: A)
        ensures
            final(self)@ == after_record(old(self)@, id, addr),
    {
        self.map.insert(id, addr);
    }

    /// The address noted for the query `id`, which stops waiting.
    pub fn take(&mut self, id: u16) -> (addr: Option<A>)
        ensures
            final(self)@ == old(self)@.remove(id),
            match addr {
                Some(a) => old(self)@.contains_key(id) && a == old(self)@[id],
                None => !old(self)@.contains_key(id),
            },
    {
        self.map.remove(&id)
    }
}


/// The waiting queries after `record(id, addr)`.
pub open spec fn after_record<A>(waiting: Map<u16, A>, id: u16, addr: A) -> Map<u16, A> {
    waiting.insert(id, addr)
}

/// The message ID of an answer.
pub open spec fn answer_id(msg: Seq<u8>) -> u16 {
    be16_at(msg, 0) as u16
}

/// Where `reply_target` sends the answer `msg`: the address noted for its
/// ID, if a query with that ID waits.
pub open spec fn target_of<A>(waiting: Map<u16, A>, msg: Seq<u8>) -> Option<A> {
    if waiting.contains_key(answer_id(msg)) {
        Some(waiting[answer_id(msg)])
    } else {
        None
    }
}

/// The waiting queries after `reply_target` handles the answer `msg`.
pub open spec fn after_reply<A>(waiting: Map<u16, A>, msg: Seq<u8>) -> Map<u16, A> {
    waiting.remove(answer_id(msg))
}

/// An answer goes to the client whose query carried its ID: after
/// `record(id, addr)` on the queries `m`, `reply_target` for an answer `msg`
/// with that ID sends it to `addr` and leaves that query no longer waiting;
/// the queries with other IDs stay as they were.
pub proof fn law_answer_goes_to_asker<A>(m: QueryMap<A>, addr: A, msg: Seq<u8>, other: u16)
    requires
        msg.len() >= 2,
        other != answer_id(msg),
    ensures
        ({
            let recorded = after_record(m@, answer_id(msg), addr);
            let replied = after_reply(recorded, msg);
            &&& target_of(recorded, msg) == Some(addr)
            &&& !replied.contains_key(answer_id(msg))
            &&& replied.contains_key(other) == m@.contains_key(other)
            &&& m@.contains_key(other) ==> replied[other] == m@[other]
        }),
{
}


/// An answer is routed by the big-endian number in its first two bytes, the
/// ID that `listen_decide` returns for a query starting with the same two
/// bytes (upstream servers copy the query's ID into their answer).
pub proof fn law_answer_id(msg: Seq<u8>, query: Seq<u8>)
    requires
        msg.len() >= 2,
    ensures
        answer_id(msg) as int == msg[0] as int * 256 + msg[1] as int,
        query.len() >= 2 && query[0] == msg[0] && query[1] == msg[1] ==> answer_id(msg) as int
            == be16_at(query, 0),
{
}

} // verus!
