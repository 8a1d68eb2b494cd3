//! Node identities: the distinguished root identity and user-assigned
//! string identifiers. The literal `"<ROOT>"` is reserved for the root.

use vstd::prelude::*;

verus! {

/// The identity of a node in a tree. The root of every tree has the
/// distinguished identity `NodeId::Root`; every other node carries a
/// string identifier, unique within its tree.
///
/// The literal string `"<ROOT>"` is reserved: `NodeId::from` maps it to
/// `NodeId::Root`, and it can never be used as a user-assigned identifier.
#[derive(Debug)]
pub enum NodeId {
    Root,
    Id(String),
}

/// The mathematical value of a `NodeId`: either the root identity or a
/// character sequence.
pub enum IdView {
    Root,
    Id(Seq<char>),
}

impl View for NodeId {
    type V = IdView;

    open spec fn view(&self) -> IdView {
        match self {
            NodeId::Root => IdView::Root,
            NodeId::Id(s) => IdView::Id(s@),
        }
    }
}

/// The character sequence of the reserved root literal.
pub open spec fn root_lit() -> Seq<char> {
    "<ROOT>"@
}

impl NodeId {
    /// Builds the identity named by a string: the reserved root literal
    /// yields `Root`, every other string yields `Id`.
    pub fn from_str_id(s: &str) -> (r: NodeId)
        ensures
            r@ == (if s@ == root_lit() { IdView::Root } else { IdView::Id(s@) }),
    {
        let root = root_literal();
        if s.to_owned() == root {
            NodeId::Root
        } else {
            NodeId::Id(s.to_owned())
        }
    }

    /// Builds the identity named by an owned string, as `from_str_id` does.
    pub fn from_string_id(s: String) -> (r: NodeId)
        ensures
            r@ == (if s@ == root_lit() { IdView::Root } else { IdView::Id(s@) }),
    {
        let root = root_literal();
        if s == root {
            NodeId::Root
        } else {
            NodeId::Id(s)
        }
    }

    /// Renders the identity back to its string form; the root renders as
    /// the reserved literal.
    pub fn render(&self) -> (r: String)
        ensures
            r@ == (match self@ {
                IdView::Root => root_lit(),
                IdView::Id(s) => s,
            }),
    {
        match self {
            NodeId::Root => root_literal(),
            NodeId::Id(s) => s.clone(),
        }
    }

    /// Structural equality of two identities.
    pub fn same(&self, other: &NodeId) -> (r: bool)
        ensures
            r == (self@ == other@),
    {
        match (self, other) {
            (NodeId::Root, NodeId::Root) => true,
            (NodeId::Id(a), NodeId::Id(b)) => *a == *b,
            _ => false,
        }
    }

    /// A fresh copy of the identity, equal in value.
    pub fn dup(&self) -> (r: NodeId)
        ensures
            r@ == self@,
    {
        match self {
            NodeId::Root => NodeId::Root,
            NodeId::Id(s) => NodeId::Id(s.clone()),
        }
    }

    /// True of the root identity and of the reserved literal in identifier
    /// position: the identities that can never name a new node.
    pub fn is_reserved(&self) -> (r: bool)
        ensures
            r == (self@ == IdView::Root || self@ == IdView::Id(root_lit())),
    {
        match self {
            NodeId::Root => true,
            NodeId::Id(s) => *s == root_literal(),
        }
    }

    /// True of the root identity alone.
    pub fn is_root(&self) -> (r: bool)
        ensures
            r == (self@ == IdView::Root),
    {
        match self {
            NodeId::Root => true,
            NodeId::Id(_) => false,
        }
    }
}

/// The reserved root literal as an owned string.
fn root_literal() -> (r: String)
    ensures
        r@ == root_lit(),
{
    "<ROOT>".to_owned()
}

/// The string form of an identity: the root renders as the reserved
/// literal, any other identity as its own characters.
pub open spec fn rendered(x: IdView) -> Seq<char> {
    match x {
        IdView::Root => root_lit(),
        IdView::Id(s) => s,
    }
}

/// The identity named by a string: the reserved literal names the root.
pub open spec fn parsed(s: Seq<char>) -> IdView {
    if s == root_lit() {
        IdView::Root
    } else {
        IdView::Id(s)
    }
}

/// Parsing the rendered form of any identity yields the identity again.
/// (`Id(root_lit())` is excluded: it is not a constructible identity,
/// since parsing maps the reserved literal to `Root`.)
pub proof fn lemma_render_round_trip(x: IdView)
    requires
        x != IdView::Id(root_lit()),
    ensures
        parsed(rendered(x)) == x,
{
}

} // verus!
