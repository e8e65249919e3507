use vstd::prelude::*;
use crate::models::msg::MsgView;
use crate::tasks::{QueryMap, after_reply, target_of};

verus! {

/// Where the answer `msg` goes: the address noted for its message ID, which
/// stops waiting; nothing when no query with that ID waits.
pub fn reply_target<A>(query_map: &mut QueryMap<A>, msg: &[u8]) -> (addr: Option<A>)
    requires
        msg@.len() >= 2,
    ensures
        final(query_map)@ == after_reply(old(query_map)@, msg@),
        addr == target_of(old(query_map)@, msg@),
{
    let view = MsgView::new(msg);
    let id = view.id();
    query_map.take(id)
}

} // verus!
