//! Fresh identifier generation: globally unique, roughly time-ordered
//! tokens for nodes created without an explicit identifier.

use vstd::prelude::*;

use crate::id::{root_lit, IdView, NodeId};

verus! {

/// Relies on `uuid::Uuid::now_v7` and the `Display` form of `Uuid`: the
/// hyphenated textual form of a UUID is always exactly 36 characters.
#[verifier::external_body]
fn uuid_v7_string() -> (r: String)
    ensures
        r@.len() == 36,
{
    uuid::Uuid::now_v7().to_string()
}

/// A fresh, globally unique, roughly time-ordered identity. It is never
/// the reserved root identity.
pub fn fresh_id() -> (r: NodeId)
    ensures
        r@ is Id,
        r@ != IdView::Id(root_lit()),
{
    let s = uuid_v7_string();
    proof {
        reveal_strlit("<ROOT>");
        assert(root_lit().len() == 6);
    }
    NodeId::Id(s)
}

} // verus!
