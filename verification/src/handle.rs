use vstd::prelude::*;
use vstd::string::StringExecFns;
use crate::error::{Error, Result};
use crate::msg::{MsgView, QUESTIONS_OFFSET, DNS_OFFSET, questions_fit};
use crate::utils::bytes::be16_at;
use crate::utils::name_serde::join_dotted;

verus! {

/// What the handler does with a captured query.
#[derive(Debug, Clone, Copy, PartialEq, Eq, Structural)]
pub enum HandleAction {
    /// The query asks for `localhost`: nothing is sent.
    Ignore,
    /// Any other query: the frame is sent back to the address it came from.
    SendBack,
}

/// Decides what to do with the captured query `buf`: read its questions and
/// ignore it if the name of the first, its labels joined with `.`, is
/// `localhost`, else send it back. The frame view reads no labels for names,
/// so that name is empty and every query that can be read is sent back.
pub fn decide(buf: &[u8]) -> (res: Result<HandleAction>)
    requires
        buf@.len() >= QUESTIONS_OFFSET,
        be16_at(buf@, DNS_OFFSET + 4) > 0,
    ensures
        res is Ok <==> questions_fit(buf@, be16_at(buf@, DNS_OFFSET + 4)),
        res matches Err(e) ==> e == Error::UnexpectedEof,
        res matches Ok(action) ==> action == HandleAction::SendBack,
{
    let view = MsgView::new(buf);
    let qds = match view.qds() {
        Ok(qds) => qds,
        Err(e) => {
            return Err(e);
        },
    };
    let qd = &qds[0];
    let qname = join_dotted(&qd.qname);
    let localhost = String::from_str("localhost");
    proof {
        assert(qd.qname@.map_values(|s: String| s@) =~= Seq::<Seq<char>>::empty());
        reveal_strlit("localhost");
        assert(qname@.len() == 0);
    }
    if qname == localhost {
        Ok(HandleAction::Ignore)
    } else {
        Ok(HandleAction::SendBack)
    }
}

} // verus!
