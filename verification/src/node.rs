//! Node handles: a lightweight, cheaply copyable handle naming one node
//! of a tree. A handle may outlive the node it names; operations through
//! a dangling handle fail explicitly.

use vstd::prelude::*;

use crate::id::{IdView, NodeId};
use crate::tree::{Tree, TreeError};
use crate::value::Value;

verus! {

/// A handle on one node of a tree: just the node's identity. Many handles
/// may name the same node; all are interchangeable.
#[derive(Debug)]
pub struct Node {
    id: NodeId,
}

impl View for Node {
    type V = IdView;

    closed spec fn view(&self) -> IdView {
        self.id@
    }
}

/// Objects that can stand for a node of a tree: a `Node` handle, or a
/// `Tree` itself, which stands for its root.
pub trait NodeApi {
    /// The identity this object stands for.
    spec fn id_view(&self) -> IdView;

    /// A handle on the node this object stands for.
    fn as_node(&self) -> (n: Node)
        ensures
            n@ == self.id_view(),
    ;
}

impl NodeApi for Node {
    open spec fn id_view(&self) -> IdView {
        self@
    }

    fn as_node(&self) -> (n: Node) {
        Node { id: self.id.dup() }
    }
}

impl NodeApi for Tree {
    open spec fn id_view(&self) -> IdView {
        IdView::Root
    }

    fn as_node(&self) -> (n: Node) {
        Node { id: NodeId::Root }
    }
}

impl Node {
    /// A handle on the node named by `id`.
    pub fn new(id: NodeId) -> (n: Node)
        ensures
            n@ == id@,
    {
        Node { id }
    }

    /// The identity of the node.
    pub fn id(&self) -> (r: &NodeId)
        ensures
            r@ == self@,
    {
        &self.id
    }

    /// Creates a child of this node in `tree`, with the given identity, at
    /// the given index (at the end when `index` is `None`). Exactly the
    /// contract of `Tree::create_child_with_id_opt`, with this node as the
    /// parent.
    pub fn do_create_child(&self, tree: &mut Tree, id: NodeId, index: Option<usize>) -> (r:
        Result<Node, TreeError>)
        requires
            old(tree).wf(),
        ensures
            final(tree).wf(),
            ({
                let m = *old(tree);
                let t = *final(tree);
                match r {
                    Result::Ok(n) => {
                        &&& n@ == id@
                        &&& Tree::ok_new_id(id@) && m.has(self@) && !m.has(id@)
                        &&& (match index {
                            Option::Some(i) => i <= m.kids_of(self@).len(),
                            Option::None => true,
                        })
                        &&& m.created(t, self@, id@, index)
                    },
                    Result::Err(e) => {
                        &&& t == m
                        &&& (e == TreeError::InvalidId || e == TreeError::NotFound
                            || e == TreeError::DuplicateId || e == TreeError::IndexOutOfRange)
                        &&& (e == TreeError::InvalidId <==> !Tree::ok_new_id(id@))
                        &&& (e == TreeError::NotFound <==> Tree::ok_new_id(id@) && !m.has(self@))
                        &&& (e == TreeError::DuplicateId <==> Tree::ok_new_id(id@)
                            && m.has(self@) && m.has(id@))
                        &&& (e == TreeError::IndexOutOfRange <==> Tree::ok_new_id(id@)
                            && m.has(self@) && !m.has(id@) && (match index {
                            Option::Some(i) => i > m.kids_of(self@).len(),
                            Option::None => false,
                        }))
                    },
                }
            }),
    {
        match tree.create_child_with_id_opt(&self.id, &id, index) {
            Result::Ok(nid) => Result::Ok(Node { id: nid }),
            Result::Err(e) => Result::Err(e),
        }
    }

    /// Creates a child with a generated identity at the end of this node's
    /// children.
    pub fn create_child(&self, tree: &mut Tree) -> (r: Result<Node, TreeError>)
        requires
            old(tree).wf(),
        ensures
            final(tree).wf(),
            ({
                let m = *old(tree);
                let t = *final(tree);
                match r {
                    Result::Ok(n) => {
                        &&& Tree::ok_new_id(n@) && m.has(self@) && !m.has(n@)
                        &&& m.created(t, self@, n@, Option::None)
                    },
                    Result::Err(e) => {
                        &&& t == m
                        &&& (e == TreeError::NotFound || e == TreeError::DuplicateId)
                        &&& (e == TreeError::NotFound <==> !m.has(self@))
                    },
                }
            }),
    {
        match tree.create_child(&self.id) {
            Result::Ok(nid) => Result::Ok(Node { id: nid }),
            Result::Err(e) => Result::Err(e),
        }
    }

    /// Creates a child with a generated identity at the given index of
    /// this node's children.
    pub fn create_child_at(&self, tree: &mut Tree, index: usize) -> (r: Result<Node, TreeError>)
        requires
            old(tree).wf(),
        ensures
            final(tree).wf(),
            ({
                let m = *old(tree);
                let t = *final(tree);
                match r {
                    Result::Ok(n) => {
                        &&& Tree::ok_new_id(n@) && m.has(self@) && !m.has(n@)
                        &&& index <= m.kids_of(self@).len()
                        &&& m.created(t, self@, n@, Option::Some(index))
                    },
                    Result::Err(e) => {
                        &&& t == m
                        &&& (e == TreeError::NotFound || e == TreeError::DuplicateId
                            || e == TreeError::IndexOutOfRange)
                        &&& (e == TreeError::NotFound <==> !m.has(self@))
                        &&& (e == TreeError::IndexOutOfRange ==> m.has(self@)
                            && index > m.kids_of(self@).len())
                    },
                }
            }),
    {
        match tree.create_child_at(&self.id, index) {
            Result::Ok(nid) => Result::Ok(Node { id: nid }),
            Result::Err(e) => Result::Err(e),
        }
    }

    /// Creates a child of this node with the given identity, at the end.
    pub fn create_child_with_id(&self, tree: &mut Tree, id: NodeId) -> (r: Result<
        Node,
        TreeError,
    >)
        requires
            old(tree).wf(),
        ensures
            final(tree).wf(),
            ({
                let m = *old(tree);
                let t = *final(tree);
                match r {
                    Result::Ok(n) => {
                        &&& n@ == id@
                        &&& Tree::ok_new_id(id@) && m.has(self@) && !m.has(id@)
                        &&& m.created(t, self@, id@, Option::None)
                    },
                    Result::Err(e) => {
                        &&& t == m
                        &&& (e == TreeError::InvalidId || e == TreeError::NotFound
                            || e == TreeError::DuplicateId)
                        &&& (e == TreeError::InvalidId <==> !Tree::ok_new_id(id@))
                        &&& (e == TreeError::NotFound <==> Tree::ok_new_id(id@) && !m.has(self@))
                        &&& (e == TreeError::DuplicateId <==> Tree::ok_new_id(id@)
                            && m.has(self@) && m.has(id@))
                    },
                }
            }),
    {
        self.do_create_child(tree, id, Option::None)
    }

    /// Creates a child of this node with the given identity, at the given
    /// index.
    pub fn create_child_with_id_at(&self, tree: &mut Tree, id: NodeId, index: usize) -> (r:
        Result<Node, TreeError>)
        requires
            old(tree).wf(),
        ensures
            final(tree).wf(),
            ({
                let m = *old(tree);
                let t = *final(tree);
                match r {
                    Result::Ok(n) => {
                        &&& n@ == id@
                        &&& Tree::ok_new_id(id@) && m.has(self@) && !m.has(id@)
                        &&& index <= m.kids_of(self@).len()
                        &&& m.created(t, self@, id@, Option::Some(index))
                    },
                    Result::Err(e) => {
                        &&& t == m
                        &&& (e == TreeError::InvalidId || e == TreeError::NotFound
                            || e == TreeError::DuplicateId || e == TreeError::IndexOutOfRange)
                        &&& (e == TreeError::InvalidId <==> !Tree::ok_new_id(id@))
                        &&& (e == TreeError::NotFound <==> Tree::ok_new_id(id@) && !m.has(self@))
                        &&& (e == TreeError::DuplicateId <==> Tree::ok_new_id(id@)
                            && m.has(self@) && m.has(id@))
                        &&& (e == TreeError::IndexOutOfRange <==> Tree::ok_new_id(id@)
                            && m.has(self@) && !m.has(id@) && index > m.kids_of(self@).len())
                    },
                }
            }),
    {
        self.do_create_child(tree, id, Option::Some(index))
    }

    /// The parent handle: `None` for the root and for a handle naming no
    /// node of `tree`.
    pub fn parent(&self, tree: &Tree) -> (r: Option<Node>)
        requires
            tree.wf(),
        ensures
            (match r {
                Option::Some(n) => tree.has(self@) && tree.parent_of(self@)
                    == Option::Some(n@),
                Option::None => !tree.has(self@) || tree.parent_of(self@) is None,
            }),
    {
        match tree.get_parent(&self.id) {
            Option::Some(p) => Option::Some(Node { id: p }),
            Option::None => Option::None,
        }
    }

    /// A snapshot of this node's children, in sibling order.
    pub fn children(&self, tree: &Tree) -> (r: Vec<Node>)
        requires
            tree.wf(),
        ensures
            r@.map_values(|n: Node| n@) == (if tree.has(self@) {
                tree.kids_of(self@)
            } else {
                Seq::<IdView>::empty()
            }),
    {
        let ids = tree.get_children(&self.id);
        let mut out: Vec<Node> = Vec::new();
        let mut i: usize = 0;
        while i < ids.len()
            invariant
                i <= ids@.len(),
                out@.len() == i,
                forall|j: int| 0 <= j < i ==> (#[trigger] out@[j])@ == ids@[j]@,
            decreases ids@.len() - i,
        {
            out.push(Node { id: ids[i].dup() });
            i += 1;
        }
        proof {
            assert(out@.map_values(|n: Node| n@) =~= ids@.map_values(|k: NodeId| k@));
        }
        out
    }

    /// This node's siblings: its parent's children (itself included), or
    /// empty when it has no parent.
    pub fn siblings(&self, tree: &Tree) -> (r: Vec<Node>)
        requires
            tree.wf(),
        ensures
            r@.map_values(|n: Node| n@) == (match (if tree.has(self@) {
                tree.parent_of(self@)
            } else {
                Option::<IdView>::None
            }) {
                Option::Some(p) => tree.kids_of(p),
                Option::None => Seq::<IdView>::empty(),
            }),
    {
        match self.parent(tree) {
            Option::Some(p) => {
                proof {
                    crate::tree::lemma_root_is_sole_orphan(*tree);
                    crate::tree::lemma_depth_law(*tree, self@);
                }
                p.children(tree)
            },
            Option::None => {
                let out: Vec<Node> = Vec::new();
                proof {
                    assert(out@.map_values(|n: Node| n@) =~= Seq::<IdView>::empty());
                }
                out
            },
        }
    }

    /// The node's depth: 0 for the root (and for a dangling handle), one
    /// more than its parent's depth otherwise.
    pub fn depth(&self, tree: &Tree) -> (r: usize)
        requires
            tree.wf(),
        ensures
            r == (if tree.has(self@) {
                tree.depth_of(self@)
            } else {
                0nat
            }),
    {
        tree.node_depth(&self.id)
    }

    /// Binds `value` to `key` on this node.
    pub fn set(&self, tree: &mut Tree, key: &str, value: Value) -> (r: Result<(), TreeError>)
        requires
            old(tree).wf(),
        ensures
            final(tree).wf(),
            ({
                let m = *old(tree);
                let t = *final(tree);
                match r {
                    Result::Ok(u) => {
                        &&& m.has(self@)
                        &&& t.data_of(self@, key@) == Option::Some(value@)
                        &&& forall|k: Seq<char>|
                            k != key@ ==> t.data_of(self@, k) == m.data_of(self@, k)
                        &&& forall|y: IdView, k: Seq<char>|
                            m.has(y) && y != self@ ==> t.data_of(y, k) == m.data_of(y, k)
                        &&& forall|y: IdView| t.has(y) == m.has(y)
                        &&& forall|y: IdView|
                            m.has(y) ==> t.kids_of(y) == m.kids_of(y) && t.parent_of(y)
                                == m.parent_of(y) && t.depth_of(y) == m.depth_of(y)
                    },
                    Result::Err(e) => {
                        &&& t == m
                        &&& e == TreeError::NotFound
                        &&& !m.has(self@)
                    },
                }
            }),
    {
        tree.set_data(&self.id, key, value)
    }

    /// Moves this node under `parent` at the given index, or at the end;
    /// `Tree::update_node` gives the exact contract.
    pub fn move_to(&self, tree: &mut Tree, parent: &Node, index: Option<usize>) -> (r: Result<
        (),
        TreeError,
    >)
        requires
            old(tree).wf(),
        ensures
            final(tree).wf(),
            ({
                let m = *old(tree);
                let t = *final(tree);
                match r {
                    Result::Ok(u) => {
                        &&& Tree::ok_new_id(self@) && m.has(parent@) && !m.reaches(
                            parent@,
                            self@,
                        )
                        &&& ({
                            let fi = match index {
                                Option::Some(i) => i as int,
                                Option::None => m.move_base(parent@, self@),
                            };
                            if m.has(self@) {
                                m.moved_to(t, self@, parent@, fi)
                            } else {
                                m.created(t, parent@, self@, index)
                            }
                        })
                    },
                    Result::Err(e) => {
                        &&& t == m
                        &&& (e == TreeError::InvalidId || e == TreeError::NotFound
                            || e == TreeError::Cycle || e == TreeError::IndexOutOfRange)
                        &&& (e == TreeError::InvalidId <==> !Tree::ok_new_id(self@))
                        &&& (e == TreeError::NotFound <==> Tree::ok_new_id(self@)
                            && !m.has(parent@))
                        &&& (e == TreeError::Cycle <==> Tree::ok_new_id(self@) && m.has(parent@)
                            && m.reaches(parent@, self@))
                        &&& (e == TreeError::IndexOutOfRange <==> Tree::ok_new_id(self@)
                            && m.has(parent@) && !m.reaches(parent@, self@) && (match index {
                            Option::Some(i) => i > m.move_base(parent@, self@),
                            Option::None => false,
                        }))
                    },
                }
            }),
    {
        tree.move_to(&self.id, parent.id(), index)
    }

    /// Moves this node next to `other` under the other's parent: before it
    /// for `offset` 0, after it for `offset` 1.
    pub fn move_relative(&self, tree: &mut Tree, other: &Node, offset: usize) -> (r: Result<
        (),
        TreeError,
    >)
        requires
            old(tree).wf(),
            offset <= 1,
        ensures
            final(tree).wf(),
            Tree::move_rel_post(*old(tree), *final(tree), self@, other@, offset as int, r),
    {
        tree.move_relative(&self.id, other.id(), offset)
    }

    /// Moves this node immediately before `other` among its siblings.
    pub fn move_before(&self, tree: &mut Tree, other: &Node) -> (r: Result<(), TreeError>)
        requires
            old(tree).wf(),
        ensures
            final(tree).wf(),
            Tree::move_rel_post(*old(tree), *final(tree), self@, other@, 0, r),
    {
        tree.move_relative(&self.id, other.id(), 0)
    }

    /// Moves this node immediately after `other` among its siblings.
    pub fn move_after(&self, tree: &mut Tree, other: &Node) -> (r: Result<(), TreeError>)
        requires
            old(tree).wf(),
        ensures
            final(tree).wf(),
            Tree::move_rel_post(*old(tree), *final(tree), self@, other@, 1, r),
    {
        tree.move_relative(&self.id, other.id(), 1)
    }

    /// Deletes this node with the `Promote` strategy: its children are
    /// handed to its parent, appended after the existing children.
    pub fn delete_promote(&self, tree: &mut Tree) -> (r: Result<(), TreeError>)
        requires
            old(tree).wf(),
        ensures
            final(tree).wf(),
            ({
                let m = *old(tree);
                let t = *final(tree);
                match r {
                    Result::Ok(u) => {
                        &&& Tree::ok_new_id(self@) && m.has(self@) && self@ != IdView::Root
                        &&& m.promoted(t, self@)
                    },
                    Result::Err(e) => {
                        &&& t == m
                        &&& (e == TreeError::InvalidId || e == TreeError::NotFound)
                        &&& (e == TreeError::InvalidId <==> !Tree::ok_new_id(self@))
                        &&& (e == TreeError::NotFound <==> Tree::ok_new_id(self@)
                            && !m.has(self@))
                    },
                }
            }),
    {
        tree.delete_promote(&self.id)
    }

    /// Reads the value bound to `key` on this node.
    pub fn get(&self, tree: &Tree, key: &str) -> (r: Option<Value>)
        requires
            tree.wf(),
        ensures
            (match r {
                Option::Some(v) => tree.has(self@) && tree.data_of(self@, key@)
                    == Option::Some(v@),
                Option::None => !tree.has(self@) || tree.data_of(self@, key@) is None,
            }),
    {
        tree.get_data(&self.id, key)
    }
}

} // verus!
