use vstd::prelude::*;
use crate::error::Result;
use crate::models::msg::{MsgView, answer_bytes, lemma_read_questions_end, lemma_read_questions_len, read_questions};
use crate::models::rr::record_wire;
use crate::route::Route;
use crate::utils::bytes::be16_at;

verus! {

/// What the relay does with a query from a client.
#[derive(Debug)]
pub enum ListenAction {
    /// The route table answers the query: these bytes go back as the reply.
    Reply(Vec<u8>),
    /// The query goes on to the upstream server.
    Forward,
}

/// Decides what to do with the query `msg`: its message ID (which the caller
/// notes with the client's address), and either the answer made with the
/// record that the route table gives for its first question, or forwarding
/// when the table has none. It fails only when the questions cannot be read.
pub fn listen_decide(route: &Route, msg: &[u8]) -> (res: Result<(u16, ListenAction)>)
    requires
        msg@.len() >= 12,
        be16_at(msg@, 4) > 0,
    ensures
        match read_questions(msg@, 12, be16_at(msg@, 4) as nat) {
            Err(e) => res matches Err(e2) && e2 == e,
            Ok((qs, end)) => {
                let q = qs[0];
                res matches Ok((id, action)) && id as int == be16_at(msg@, 0) && if route@.contains_key(
                    q,
                ) {
                    action matches ListenAction::Reply(bytes) && bytes@ == answer_bytes(
                        msg@,
                        end - 12,
                        record_wire(route@[q]),
                        false,
                    )
                } else {
                    action is Forward
                }
            },
        },
{
    let view = MsgView::new(msg);
    let id = view.id();
    let (qds, qlen) = match view.qds() {
        Ok(r) => r,
        Err(e) => {
            return Err(e);
        },
    };
    proof {
        if let Ok((qs, end)) = read_questions(msg@, 12, be16_at(msg@, 4) as nat) {
            lemma_read_questions_len(msg@, 12, be16_at(msg@, 4) as nat);
            lemma_read_questions_end(msg@, 12, be16_at(msg@, 4) as nat);
            assert(qds@.map_values(|q: crate::models::qd::QD| q@)[0] == qds@[0]@);
        }
    }
    let qd = &qds[0];
    match route.get(qd) {
        Some(rr) => Ok((id, ListenAction::Reply(view.answer(rr, qlen, false)))),
        None => Ok((id, ListenAction::Forward)),
    }
}

} // verus!
