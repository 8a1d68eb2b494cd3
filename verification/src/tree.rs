//! The tree itself: a rooted, ordered, labeled tree with per-node payload
//! data. Every mutation preserves the structural invariants: exactly one
//! root, every other node under exactly one parent at exactly one sibling
//! position, no cycles.

use vstd::prelude::*;
use vstd::seq_lib::*;
use vstd::set_lib::lemma_len_subset;

use crate::id::{IdView, NodeId, root_lit};
use crate::value::{ValView, Value};

verus! {

/// Inserting into a child vector inserts into its sequence of identities.
proof fn lemma_map_view_insert(s: Seq<NodeId>, i: int, v: NodeId)
    requires
        0 <= i <= s.len(),
    ensures
        s.insert(i, v).map_values(|k: NodeId| k@) == s.map_values(|k: NodeId| k@).insert(i, v@),
{
    assert(s.insert(i, v).map_values(|k: NodeId| k@) =~= s.map_values(|k: NodeId| k@).insert(
        i,
        v@,
    ));
}

/// Removing from a child vector removes from its sequence of identities.
proof fn lemma_map_view_remove(s: Seq<NodeId>, i: int)
    requires
        0 <= i < s.len(),
    ensures
        s.remove(i).map_values(|k: NodeId| k@) == s.map_values(|k: NodeId| k@).remove(i),
{
    assert(s.remove(i).map_values(|k: NodeId| k@) =~= s.map_values(|k: NodeId| k@).remove(i));
}

/// A sequence without `v` is unchanged by removing `v`.
proof fn lemma_remove_value_absent(s: Seq<IdView>, v: IdView)
    requires
        !s.contains(v),
    ensures
        s.remove_value(v) == s,
{
    s.index_of_first_ensures(v);
}

/// Removing a value present exactly once at `i` removes position `i`.
proof fn lemma_remove_value_at(s: Seq<IdView>, v: IdView, i: int)
    requires
        0 <= i < s.len(),
        s[i] == v,
        forall|j1: int, j2: int| 0 <= j1 < j2 < s.len() ==> s[j1] != s[j2],
    ensures
        s.remove_value(v) == s.remove(i),
{
    assert(s.contains(v));
    s.index_of_first_ensures(v);
    let j = s.index_of_first(v).unwrap();
    assert(s[j] == v);
    if i != j {
        assert(s[i] != s[j]);
    }
}

/// How many siblings stand before the first occurrence of `tgt` in `s`,
/// not counting `x`: the position `tgt` holds once `x` is taken out.
pub open spec fn pos_less(s: Seq<IdView>, x: IdView, tgt: IdView) -> int
    decreases s.len(),
{
    if s.len() == 0 {
        0
    } else if s[0] == tgt {
        0
    } else if s[0] == x {
        pos_less(s.drop_first(), x, tgt)
    } else {
        1 + pos_less(s.drop_first(), x, tgt)
    }
}

/// The position of `tgt` among the others never reaches the list length.
proof fn lemma_pos_less_le(s: Seq<IdView>, x: IdView, tgt: IdView)
    requires
        s.contains(tgt),
    ensures
        0 <= pos_less(s, x, tgt) <= s.len() - 1,
    decreases s.len(),
{
    if s[0] == tgt {
    } else {
        assert(s.drop_first().contains(tgt)) by {
            let j = choose|j: int| 0 <= j < s.len() && s[j] == tgt;
            assert(s.drop_first()[j - 1] == tgt);
        }
        lemma_pos_less_le(s.drop_first(), x, tgt);
    }
}

/// With `x` itself in the list, the position among the others is one
/// smaller still.
proof fn lemma_pos_less_lt(s: Seq<IdView>, x: IdView, tgt: IdView)
    requires
        s.contains(tgt),
        s.contains(x),
        x != tgt,
    ensures
        0 <= pos_less(s, x, tgt) <= s.len() - 2,
    decreases s.len(),
{
    let r = s.drop_first();
    if s[0] == tgt {
    } else if s[0] == x {
        assert(r.contains(tgt)) by {
            let j = choose|j: int| 0 <= j < s.len() && s[j] == tgt;
            assert(r[j - 1] == tgt);
        }
        lemma_pos_less_le(r, x, tgt);
    } else {
        assert(r.contains(tgt)) by {
            let j = choose|j: int| 0 <= j < s.len() && s[j] == tgt;
            assert(r[j - 1] == tgt);
        }
        assert(r.contains(x)) by {
            let j = choose|j: int| 0 <= j < s.len() && s[j] == x;
            assert(r[j - 1] == x);
        }
        lemma_pos_less_lt(r, x, tgt);
    }
}

/// A typed error returned by a tree operation.
#[derive(Debug, Clone, Copy, PartialEq, Eq, Structural)]
pub enum TreeError {
    /// The reserved root literal was used where a concrete node identifier
    /// is required.
    InvalidId,
    /// The operation would make a node its own ancestor, or moves a node
    /// relative to itself.
    Cycle,
    /// The operation targets the root where the root has no valid position.
    InvalidTarget,
    /// The referenced identity does not exist in the tree.
    NotFound,
    /// The requested insertion index exceeds the sibling sequence length.
    IndexOutOfRange,
    /// The identifier is already taken by another node of the tree.
    DuplicateId,
    /// A payload value could not be converted to the requested shape.
    Decode,
}

/// The strategy applied when deleting a node.
#[derive(Debug, Clone, Copy, PartialEq, Eq, Structural)]
pub enum DeleteStrategy {
    /// Re-parent the deleted node's children to the node's former parent,
    /// appended after the parent's existing children.
    Promote,
    /// Delete the node and all of its descendants.
    Cascade,
}

/// One stored node: its identity, its parent (`None` only for the root
/// entry), its depth below the root, the ordered identities of its
/// children, and its payload entries (later bindings stand in front).
struct Entry {
    id: NodeId,
    parent: Option<NodeId>,
    depth: usize,
    kids: Vec<NodeId>,
    data: Vec<(String, Value)>,
}

/// The parent identity recorded in an entry; the root entry, which has
/// none, maps to the root identity itself.
spec fn pv(e: Entry) -> IdView {
    match e.parent {
        Option::Some(p) => p@,
        Option::None => IdView::Root,
    }
}

/// The payload value bound to key `k` in `d`, front binding first.
pub open spec fn assoc(d: Seq<(String, Value)>, k: Seq<char>) -> Option<ValView>
    decreases d.len(),
{
    if d.len() == 0 {
        Option::None
    } else if d[0].0@ == k {
        Option::Some(d[0].1@)
    } else {
        assoc(d.drop_first(), k)
    }
}

/// The view of an optional identity.
pub open spec fn opt_view(r: Option<NodeId>) -> Option<IdView> {
    match r {
        Option::Some(n) => Option::Some(n@),
        Option::None => Option::None,
    }
}

/// A rooted, ordered, labeled tree. The root always exists and cannot be
/// created, moved, or deleted; all other nodes are reached from it.
pub struct Tree {
    nodes: Vec<Entry>,
}

impl Tree {
    /// How many nodes the tree holds, the root included.
    pub closed spec fn count(self) -> int {
        self.nodes@.len() as int
    }

    spec fn ents(self) -> Seq<Entry> {
        self.nodes@
    }

    /// Whether the identity names a node of the tree.
    pub closed spec fn has(self, x: IdView) -> bool {
        exists|i: int| 0 <= i < self.count() && self.ents()[i].id@ == x
    }

    spec fn idx_of(self, x: IdView) -> int {
        choose|i: int| 0 <= i < self.count() && self.ents()[i].id@ == x
    }

    spec fn ent(self, x: IdView) -> Entry {
        self.ents()[self.idx_of(x)]
    }

    /// The ordered identities of the node's children.
    pub closed spec fn kids_of(self, x: IdView) -> Seq<IdView> {
        self.ent(x).kids@.map_values(|k: NodeId| k@)
    }

    /// The node's parent identity: `None` exactly for the root.
    pub closed spec fn parent_of(self, x: IdView) -> Option<IdView> {
        match self.ent(x).parent {
            Option::Some(p) => Option::Some(p@),
            Option::None => Option::None,
        }
    }

    /// The node's depth: 0 for the root, 1 more than its parent otherwise.
    pub closed spec fn depth_of(self, x: IdView) -> nat {
        self.ent(x).depth as nat
    }

    /// The payload value bound to key `k` on node `x`.
    pub closed spec fn data_of(self, x: IdView, k: Seq<char>) -> Option<ValView> {
        assoc(self.ent(x).data@, k)
    }

    /// The structural invariants, as observed of the stored entries.
    #[verifier::opaque]
    pub closed spec fn wf(self) -> bool {
        let n = self.count();
        &&& n >= 1
        &&& self.ents()[0].id@ == IdView::Root
        &&& self.ents()[0].parent is None
        &&& self.ents()[0].depth == 0
        // all other entries are non-root, never the reserved literal, and
        // have a parent
        &&& forall|i: int|
            1 <= i < n ==> (#[trigger] self.ents()[i]).id@ is Id && self.ents()[i].id@
                != IdView::Id(root_lit()) && self.ents()[i].parent is Some
        // identities are unique
        &&& forall|i: int, j: int|
            0 <= i < j < n ==> (#[trigger] self.ents()[i].id@) != (#[trigger] self.ents()[j].id@)
        // each non-root entry hangs off a present parent, sits in that
        // parent's child list, and lies one level below it
        &&& forall|i: int|
            1 <= i < n ==> {
                let e = #[trigger] self.ents()[i];
                &&& self.has(pv(e))
                &&& self.kids_of(pv(e)).contains(e.id@)
                &&& e.depth == self.depth_of(pv(e)) + 1
            }
        // each listed child is a present non-root node whose parent is the
        // listing entry
        &&& forall|i: int, j: int|
            0 <= i < n && 0 <= j < self.ents()[i].kids@.len() ==> {
                let c = (#[trigger] self.ents()[i].kids@[j])@;
                &&& c is Id
                &&& self.has(c)
                &&& pv(self.ent(c)) == self.ents()[i].id@
                &&& self.ent(c).parent is Some
            }
        // no child is listed twice under one parent
        &&& forall|i: int, j1: int, j2: int|
            0 <= i < n && 0 <= j1 < j2 < self.ents()[i].kids@.len()
                ==> (#[trigger] self.ents()[i].kids@[j1])@ != (#[trigger] self.ents()[i].kids@[j2])@
    }

    /// Whether `a` is an ancestor of `x` or `x` itself, following parent
    /// links upward (meaningful on well-formed trees).
    pub closed spec fn reaches(self, x: IdView, a: IdView) -> bool
        decreases self.depth_of(x),
    {
        x == a || {
            &&& self.has(x)
            &&& x != IdView::Root
            &&& self.has(pv(self.ent(x)))
            &&& self.depth_of(pv(self.ent(x))) < self.depth_of(x)
            &&& self.reaches(pv(self.ent(x)), a)
        }
    }

    /// An empty tree: the root alone, with no children and no payload.
    pub fn new() -> (t: Tree)
        ensures
            t.wf(),
            t.count() == 1,
            t.has(IdView::Root),
            forall|x: IdView| t.has(x) ==> x == IdView::Root,
            t.kids_of(IdView::Root) == Seq::<IdView>::empty(),
            forall|k: Seq<char>| t.data_of(IdView::Root, k) is None,
    {
        let root = Entry {
            id: NodeId::Root,
            parent: Option::None,
            depth: 0,
            kids: Vec::new(),
            data: Vec::new(),
        };
        let mut nodes: Vec<Entry> = Vec::new();
        nodes.push(root);
        let t = Tree { nodes };
        proof {
            reveal(Tree::wf);
            assert(t.ents()[0].id@ == IdView::Root);
            assert(t.has(IdView::Root));
            assert(t.idx_of(IdView::Root) == 0);
            assert(t.ent(IdView::Root).kids@.map_values(|k: NodeId| k@) =~= Seq::<IdView>::empty());
        }
        t
    }

    /// Where the identity sits in the entry vector, if anywhere.
    fn find_index(&self, x: &NodeId) -> (r: Option<usize>)
        ensures
            match r {
                Option::Some(i) => i < self.count() && self.ents()[i as int].id@ == x@ && self.has(x@),
                Option::None => !self.has(x@),
            },
    {
        let mut i: usize = 0;
        while i < self.nodes.len()
            invariant
                i <= self.count(),
                forall|j: int| 0 <= j < i ==> self.ents()[j].id@ != x@,
            decreases self.count() - i,
        {
            if self.nodes[i].id.same(x) {
                return Option::Some(i);
            }
            i += 1;
        }
        Option::None
    }

    /// The unique index of a present identity (identities never repeat).
    proof fn lemma_idx(self, i: int)
        requires
            self.wf(),
            0 <= i < self.count(),
        ensures
            self.has(self.ents()[i].id@),
            self.idx_of(self.ents()[i].id@) == i,
    {
        reveal(Tree::wf);
        let x = self.ents()[i].id@;
        assert(self.has(x));
        let j = self.idx_of(x);
        assert(0 <= j < self.count() && self.ents()[j].id@ == x);
        if i < j {
            assert(self.ents()[i].id@ != self.ents()[j].id@);
        } else if j < i {
            assert(self.ents()[j].id@ != self.ents()[i].id@);
        }
    }

    /// The set of a node's strict ancestors below the root, with itself.
    spec fn up_set(self, x: IdView) -> Set<IdView>
        decreases self.depth_of(x),
    {
        if x == IdView::Root || !self.has(x) {
            Set::empty()
        } else if self.has(pv(self.ent(x))) && self.depth_of(pv(self.ent(x))) < self.depth_of(x) {
            self.up_set(pv(self.ent(x))).insert(x)
        } else {
            Set::empty().insert(x)
        }
    }

    /// On a well-formed tree, a node's depth counts its chain of ancestors,
    /// all distinct present non-root nodes; so depth stays below the node
    /// count.
    proof fn lemma_up_set(self, x: IdView)
        requires
            self.wf(),
            self.has(x),
        ensures
            self.up_set(x).finite(),
            self.up_set(x).len() == self.depth_of(x),
            forall|y: IdView| self.up_set(x).contains(y) ==> self.has(y) && y != IdView::Root
                && self.depth_of(y) <= self.depth_of(x),
        decreases self.depth_of(x),
    {
        reveal(Tree::wf);
        let i = self.idx_of(x);
        assert(0 <= i < self.count() && self.ents()[i].id@ == x);
        if x == IdView::Root {
            assert(self.up_set(x) =~= Set::<IdView>::empty());
            if i != 0 {
                assert(self.ents()[i].id@ is Id);
            }
            assert(self.depth_of(x) == 0);
        } else {
            assert(i != 0);
            let e = self.ents()[i];
            let p = pv(e);
            assert(self.has(p) && e.depth == self.depth_of(p) + 1);
            self.lemma_up_set(p);
            assert(!self.up_set(p).contains(x));
            assert(self.up_set(x) =~= self.up_set(p).insert(x));
        }
    }

    /// The identities of all entries, as a set of size `count`.
    spec fn id_set(self) -> Set<IdView> {
        self.ents().map_values(|e: Entry| e.id@).to_set()
    }

    /// A present node's depth is strictly below the node count.
    proof fn lemma_depth_lt(self, x: IdView)
        requires
            self.wf(),
            self.has(x),
        ensures
            self.depth_of(x) < self.count(),
    {
        reveal(Tree::wf);
        self.lemma_up_set(x);
        let ids = self.ents().map_values(|e: Entry| e.id@);
        assert(ids.no_duplicates()) by {
            assert(forall|i: int, j: int| 0 <= i < j < ids.len()
                ==> ids[i] != ids[j]);
        }
        ids.unique_seq_to_set();
        assert(self.id_set().len() == self.count());
        let rest = self.id_set().remove(IdView::Root);
        assert(ids[0] == IdView::Root);
        assert(self.id_set().contains(IdView::Root));
        assert(rest.len() == self.count() - 1);
        assert(self.up_set(x).subset_of(rest)) by {
            assert forall|y: IdView| self.up_set(x).contains(y) implies rest.contains(y) by {
                assert(self.has(y));
                let j = self.idx_of(y);
                assert(0 <= j < self.count() && self.ents()[j].id@ == y);
                assert(ids[j] == y);
                assert(self.id_set().contains(y));
            }
        }
        lemma_len_subset(self.up_set(x), rest);
    }

    /// On a well-formed tree, `reaches` unfolds one parent step at a time.
    proof fn lemma_reaches_unfold(self, x: IdView, a: IdView)
        requires
            self.wf(),
            self.has(x),
            x != IdView::Root,
        ensures
            self.reaches(x, a) == (x == a || self.reaches(pv(self.ent(x)), a)),
    {
        reveal(Tree::wf);
        let i = self.idx_of(x);
        assert(0 <= i < self.count() && self.ents()[i].id@ == x);
        if i == 0 {
            assert(self.ents()[0].id@ == IdView::Root);
        }
        assert(1 <= i);
        let e = self.ents()[i];
        assert(self.has(pv(e)) && e.depth == self.depth_of(pv(e)) + 1);
    }

    /// Whatever a present node reaches is itself present, no deeper than
    /// the node, and reached by the node's parent too (unless it is the
    /// node itself).
    proof fn lemma_reaches_facts(self, x: IdView, a: IdView)
        requires
            self.wf(),
            self.has(x),
            self.reaches(x, a),
        ensures
            self.has(a),
            self.depth_of(a) <= self.depth_of(x),
        decreases self.depth_of(x),
    {
        if x != a {
            reveal(Tree::wf);
            let i = self.idx_of(x);
            assert(self.ents()[i].id@ == x);
            assert(x != IdView::Root);
            let p = pv(self.ent(x));
            self.lemma_reaches_facts(p, a);
        }
    }

    /// Walks parent links upward from the entry at `from`, looking for
    /// `target`.
    fn reaches_up(&self, from: usize, target: &NodeId) -> (r: bool)
        requires
            self.wf(),
            from < self.count(),
        ensures
            r == self.reaches(self.ents()[from as int].id@, target@),
    {
        proof {
            reveal(Tree::wf);
        }
        let mut cur: usize = from;
        loop
            invariant
                self.wf(),
                cur < self.count(),
                self.reaches(self.ents()[from as int].id@, target@) == self.reaches(
                    self.ents()[cur as int].id@,
                    target@,
                ),
            decreases self.ents()[cur as int].depth,
        {
            if self.nodes[cur].id.same(target) {
                return true;
            }
            match &self.nodes[cur].parent {
                Option::None => {
                    proof {
                        reveal(Tree::wf);
                        if cur != 0 {
                            assert(self.ents()[cur as int].parent is Some);
                        }
                        assert(self.ents()[cur as int].id@ == IdView::Root);
                    }
                    return false;
                },
                Option::Some(p) => {
                    proof {
                        reveal(Tree::wf);
                        if cur == 0 {
                            assert(self.ents()[0].parent is None);
                        }
                        self.lemma_idx(cur as int);
                        self.lemma_reaches_unfold(self.ents()[cur as int].id@, target@);
                    }
                    let pi = match self.find_index(p) {
                        Option::Some(i) => i,
                        Option::None => {
                            proof {
                                reveal(Tree::wf);
                                let e = self.ents()[cur as int];
                                assert(self.has(pv(e)));
                                assert(false);
                            }
                            0
                        },
                    };
                    proof {
                        reveal(Tree::wf);
                        let e = self.ents()[cur as int];
                        self.lemma_idx(pi as int);
                        assert(self.ents()[pi as int].id@ == pv(e));
                        assert(self.idx_of(pv(e)) == pi as int);
                        assert(e.depth == self.depth_of(pv(e)) + 1);
                    }
                    cur = pi;
                },
            }
        }
    }

    /// The parent of the named node: `None` for the root and for an
    /// identity that is not in the tree.
    pub fn get_parent(&self, id: &NodeId) -> (r: Option<NodeId>)
        requires
            self.wf(),
        ensures
            opt_view(r) == (if self.has(id@) {
                self.parent_of(id@)
            } else {
                Option::<IdView>::None
            }),
    {
        match self.find_index(id) {
            Option::None => Option::None,
            Option::Some(i) => {
                proof {
                    self.lemma_idx(i as int);
                }
                match &self.nodes[i].parent {
                    Option::None => Option::None,
                    Option::Some(p) => Option::Some(p.dup()),
                }
            },
        }
    }

    /// A snapshot of the named node's child identities, in sibling order;
    /// empty for an identity that is not in the tree.
    pub fn get_children(&self, id: &NodeId) -> (r: Vec<NodeId>)
        requires
            self.wf(),
        ensures
            r@.map_values(|k: NodeId| k@) == (if self.has(id@) {
                self.kids_of(id@)
            } else {
                Seq::<IdView>::empty()
            }),
    {
        let mut out: Vec<NodeId> = Vec::new();
        match self.find_index(id) {
            Option::None => {
                proof {
                    assert(out@.map_values(|k: NodeId| k@) =~= Seq::<IdView>::empty());
                }
            },
            Option::Some(i) => {
                proof {
                    self.lemma_idx(i as int);
                }
                let ks = &self.nodes[i].kids;
                let mut j: usize = 0;
                while j < ks.len()
                    invariant
                        j <= ks@.len(),
                        out@.len() == j,
                        forall|k: int| 0 <= k < j ==> (#[trigger] out@[k])@ == ks@[k]@,
                    decreases ks@.len() - j,
                {
                    out.push(ks[j].dup());
                    j += 1;
                }
                proof {
                    assert(out@.map_values(|k: NodeId| k@) =~= ks@.map_values(|k: NodeId| k@));
                }
            },
        }
        out
    }

    /// The named node's depth: 0 for the root (and for an identity that is
    /// not in the tree), 1 more than its parent's depth otherwise.
    pub fn node_depth(&self, id: &NodeId) -> (r: usize)
        requires
            self.wf(),
        ensures
            r == (if self.has(id@) {
                self.depth_of(id@)
            } else {
                0nat
            }),
    {
        match self.find_index(id) {
            Option::None => 0,
            Option::Some(i) => {
                proof {
                    self.lemma_idx(i as int);
                }
                self.nodes[i].depth
            },
        }
    }

    /// Where `x` sits in the child list of the entry at `i`, if anywhere.
    fn find_kid_pos(&self, i: usize, x: &NodeId) -> (r: Option<usize>)
        requires
            i < self.count(),
        ensures
            match r {
                Option::Some(j) => j < self.ents()[i as int].kids@.len()
                    && self.ents()[i as int].kids@[j as int]@ == x@,
                Option::None => forall|j: int|
                    0 <= j < self.ents()[i as int].kids@.len()
                        ==> (#[trigger] self.ents()[i as int].kids@[j])@ != x@,
            },
    {
        let ks = &self.nodes[i].kids;
        let mut j: usize = 0;
        while j < ks.len()
            invariant
                j <= ks@.len(),
                ks@ == self.ents()[i as int].kids@,
                forall|k: int| 0 <= k < j ==> (#[trigger] ks@[k])@ != x@,
            decreases ks@.len() - j,
        {
            if ks[j].same(x) {
                return Option::Some(j);
            }
            j += 1;
        }
        Option::None
    }

    /// Whether `x` may name a new node: neither the root identity nor the
    /// reserved root literal.
    pub open spec fn ok_new_id(x: IdView) -> bool {
        x is Id && x != IdView::Id(root_lit())
    }

    /// The raw entry splice behind `insert_new`: appends the new leaf
    /// entry and lists it among the children of the entry at `pi`.
    fn splice_leaf(&mut self, id: &NodeId, pi: usize, fi: usize)
        requires
            pi < old(self).nodes@.len(),
            fi <= old(self).nodes@[pi as int].kids@.len(),
            old(self).nodes@[pi as int].depth < usize::MAX,
        ensures
            ({
                let m = *old(self);
                let t = *final(self);
                let n = m.nodes@.len() as int;
                &&& t.nodes@.len() == n + 1
                &&& t.nodes@ == m.nodes@.update(pi as int, t.nodes@[pi as int]).push(t.nodes@[n])
                &&& t.nodes@[pi as int].id == m.nodes@[pi as int].id
                &&& t.nodes@[pi as int].parent == m.nodes@[pi as int].parent
                &&& t.nodes@[pi as int].depth == m.nodes@[pi as int].depth
                &&& t.nodes@[pi as int].data == m.nodes@[pi as int].data
                &&& t.nodes@[pi as int].kids@ == m.nodes@[pi as int].kids@.insert(
                    fi as int,
                    t.nodes@[pi as int].kids@[fi as int],
                )
                &&& t.nodes@[pi as int].kids@[fi as int]@ == id@
                &&& t.nodes@[n].id@ == id@
                &&& t.nodes@[n].parent is Some
                &&& pv(t.nodes@[n]) == m.nodes@[pi as int].id@
                &&& t.nodes@[n].depth == m.nodes@[pi as int].depth + 1
                &&& t.nodes@[n].kids@.len() == 0
                &&& t.nodes@[n].data@.len() == 0
            }),
    {
        let ghost m = *old(self);
        let ghost n = m.nodes@.len() as int;
        let dp = self.nodes[pi].depth;
        let ne = Entry {
            id: id.dup(),
            parent: Option::Some(self.nodes[pi].id.dup()),
            depth: dp + 1,
            kids: Vec::new(),
            data: Vec::new(),
        };
        self.nodes.push(ne);
        let mut pe = self.nodes.remove(pi);
        pe.kids.insert(fi, id.dup());
        self.nodes.insert(pi, pe);
        proof {
            assert(self.nodes@ =~= m.nodes@.update(pi as int, self.nodes@[pi as int]).push(
                self.nodes@[n],
            ));
        }
    }

    /// Inserts a new leaf with identity `id` under the entry at `pi`, at
    /// child position `fi`.
    #[verifier::rlimit(100)]
    fn insert_new(&mut self, id: &NodeId, pi: usize, fi: usize)
        requires
            old(self).wf(),
            !old(self).has(id@),
            Tree::ok_new_id(id@),
            pi < old(self).count(),
            fi <= old(self).ents()[pi as int].kids@.len(),
        ensures
            final(self).wf(),
            ({
                let m = *old(self);
                let t = *final(self);
                let x = id@;
                let p = m.ents()[pi as int].id@;
                &&& forall|y: IdView| t.has(y) == (m.has(y) || y == x)
                &&& t.parent_of(x) == Option::Some(p)
                &&& t.kids_of(p) == m.kids_of(p).insert(fi as int, x)
                &&& t.kids_of(x) == Seq::<IdView>::empty()
                &&& t.depth_of(x) == m.depth_of(p) + 1
                &&& forall|y: IdView| m.has(y) && y != p ==> t.kids_of(y) == m.kids_of(y)
                &&& forall|y: IdView| m.has(y) ==> t.parent_of(y) == m.parent_of(y)
                    && t.depth_of(y) == m.depth_of(y)
                &&& forall|y: IdView, k: Seq<char>|
                    m.has(y) ==> t.data_of(y, k) == m.data_of(y, k)
                &&& forall|k: Seq<char>| t.data_of(x, k) is None
            }),
    {
        let ghost m = *old(self);
        let ghost x = id@;
        let ghost p = m.ents()[pi as int].id@;
        proof {
            m.lemma_idx(pi as int);
            m.lemma_depth_lt(p);
        }
        let total = self.nodes.len();
        proof {
            assert(m.count() == total);
            assert(m.nodes@[pi as int].depth < total);
        }
        self.splice_leaf(id, pi, fi);
        proof {
            lemma_new_leaf(m, *self, x, pi as int, fi as int);
        }
    }

    /// The sibling position a creation lands at: the requested index, or
    /// the end of the parent's child sequence.
    pub open spec fn create_target(self, p: IdView, index: Option<usize>) -> int {
        match index {
            Option::Some(i) => i as int,
            Option::None => self.kids_of(p).len() as int,
        }
    }

    /// What a successful creation does: `x` is a fresh leaf under `p` at
    /// the target position; every other observation is unchanged.
    pub open spec fn created(self, t: Tree, p: IdView, x: IdView, index: Option<usize>) -> bool {
        let m = self;
        &&& forall|y: IdView| t.has(y) == (m.has(y) || y == x)
        &&& t.parent_of(x) == Option::Some(p)
        &&& t.kids_of(p) == m.kids_of(p).insert(m.create_target(p, index), x)
        &&& t.kids_of(x) == Seq::<IdView>::empty()
        &&& t.depth_of(x) == m.depth_of(p) + 1
        &&& forall|y: IdView| m.has(y) && y != p ==> t.kids_of(y) == m.kids_of(y)
        &&& forall|y: IdView|
            m.has(y) ==> t.parent_of(y) == m.parent_of(y) && t.depth_of(y) == m.depth_of(y)
        &&& forall|y: IdView, k: Seq<char>| m.has(y) ==> t.data_of(y, k) == m.data_of(y, k)
        &&& forall|k: Seq<char>| t.data_of(x, k) is None
    }

    /// Creates a new child node with identity `id` under `parent`, at the
    /// given sibling index (at the end when `index` is `None`). Rejects
    /// the reserved identifiers, an unknown parent, an identifier already
    /// in the tree, and an index beyond the child sequence, in that order,
    /// mutating nothing on any error.
    pub fn create_child_with_id_opt(&mut self, parent: &NodeId, id: &NodeId, index: Option<usize>)
        -> (r: Result<NodeId, TreeError>)
        requires
            old(self).wf(),
        ensures
            final(self).wf(),
            ({
                let m = *old(self);
                let t = *final(self);
                let x = id@;
                let p = parent@;
                match r {
                    Result::Ok(nid) => {
                        &&& nid@ == x
                        &&& Tree::ok_new_id(x) && m.has(p) && !m.has(x)
                        &&& (match index {
                            Option::Some(i) => i <= m.kids_of(p).len(),
                            Option::None => true,
                        })
                        &&& m.created(t, p, x, index)
                    },
                    Result::Err(e) => {
                        &&& t == m
                        &&& (e == TreeError::InvalidId || e == TreeError::NotFound
                            || e == TreeError::DuplicateId || e == TreeError::IndexOutOfRange)
                        &&& (e == TreeError::InvalidId <==> !Tree::ok_new_id(x))
                        &&& (e == TreeError::NotFound <==> Tree::ok_new_id(x) && !m.has(p))
                        &&& (e == TreeError::DuplicateId <==> Tree::ok_new_id(x) && m.has(p)
                            && m.has(x))
                        &&& (e == TreeError::IndexOutOfRange <==> Tree::ok_new_id(x) && m.has(p)
                            && !m.has(x) && (match index {
                            Option::Some(i) => i > m.kids_of(p).len(),
                            Option::None => false,
                        }))
                    },
                }
            }),
    {
        if id.is_reserved() {
            return Result::Err(TreeError::InvalidId);
        }
        let pi = match self.find_index(parent) {
            Option::None => {
                return Result::Err(TreeError::NotFound);
            },
            Option::Some(i) => i,
        };
        match self.find_index(id) {
            Option::Some(_) => {
                return Result::Err(TreeError::DuplicateId);
            },
            Option::None => {},
        }
        proof {
            self.lemma_idx(pi as int);
        }
        let klen = self.nodes[pi].kids.len();
        let fi = match index {
            Option::Some(i) => {
                if i > klen {
                    return Result::Err(TreeError::IndexOutOfRange);
                }
                i
            },
            Option::None => klen,
        };
        self.insert_new(id, pi, fi);
        Result::Ok(id.dup())
    }

    /// Creates a new child with the given identity at the end of the
    /// parent's children.
    pub fn create_child_with_id(&mut self, parent: &NodeId, id: &NodeId) -> (r: Result<
        NodeId,
        TreeError,
    >)
        requires
            old(self).wf(),
        ensures
            final(self).wf(),
            ({
                let m = *old(self);
                let t = *final(self);
                match r {
                    Result::Ok(nid) => {
                        &&& nid@ == id@
                        &&& Tree::ok_new_id(id@) && m.has(parent@) && !m.has(id@)
                        &&& m.created(t, parent@, id@, Option::None)
                    },
                    Result::Err(e) => {
                        &&& t == m
                        &&& (e == TreeError::InvalidId || e == TreeError::NotFound
                            || e == TreeError::DuplicateId)
                        &&& (e == TreeError::InvalidId <==> !Tree::ok_new_id(id@))
                        &&& (e == TreeError::NotFound <==> Tree::ok_new_id(id@) && !m.has(parent@))
                        &&& (e == TreeError::DuplicateId <==> Tree::ok_new_id(id@)
                            && m.has(parent@) && m.has(id@))
                    },
                }
            }),
    {
        self.create_child_with_id_opt(parent, id, Option::None)
    }

    /// Creates a new child with a generated identity at the end of the
    /// parent's children. The generated identity is fresh; were it ever
    /// already taken, the duplicate is rejected like any other.
    pub fn create_child(&mut self, parent: &NodeId) -> (r: Result<NodeId, TreeError>)
        requires
            old(self).wf(),
        ensures
            final(self).wf(),
            ({
                let m = *old(self);
                let t = *final(self);
                match r {
                    Result::Ok(nid) => {
                        &&& Tree::ok_new_id(nid@) && m.has(parent@) && !m.has(nid@)
                        &&& m.created(t, parent@, nid@, Option::None)
                    },
                    Result::Err(e) => {
                        &&& t == m
                        &&& (e == TreeError::NotFound <==> !m.has(parent@))
                        &&& (e == TreeError::NotFound || e == TreeError::DuplicateId)
                    },
                }
            }),
    {
        let id = crate::gen::fresh_id();
        self.create_child_with_id_opt(parent, &id, Option::None)
    }

    /// Creates a new child with a generated identity at the given sibling
    /// index of the parent's children.
    pub fn create_child_at(&mut self, parent: &NodeId, index: usize) -> (r: Result<
        NodeId,
        TreeError,
    >)
        requires
            old(self).wf(),
        ensures
            final(self).wf(),
            ({
                let m = *old(self);
                let t = *final(self);
                match r {
                    Result::Ok(nid) => {
                        &&& Tree::ok_new_id(nid@) && m.has(parent@) && !m.has(nid@)
                        &&& index <= m.kids_of(parent@).len()
                        &&& m.created(t, parent@, nid@, Option::Some(index))
                    },
                    Result::Err(e) => {
                        &&& t == m
                        &&& (e == TreeError::NotFound || e == TreeError::DuplicateId
                            || e == TreeError::IndexOutOfRange)
                        &&& (e == TreeError::NotFound <==> !m.has(parent@))
                        &&& (e == TreeError::IndexOutOfRange ==> m.has(parent@)
                            && index > m.kids_of(parent@).len())
                    },
                }
            }),
    {
        let id = crate::gen::fresh_id();
        self.create_child_with_id_opt(parent, &id, Option::Some(index))
    }

    /// The raw entry surgery behind a move: removes `x` from the child
    /// list of the entry at `qi`, inserts it into the child list of the
    /// entry at `pi` at position `fi`, and repoints the parent of the
    /// entry at `xi`.
    #[verifier::rlimit(100)]
    fn splice_move(
        &mut self,
        xi: usize,
        qi: usize,
        pos: usize,
        pi: usize,
        fi: usize,
        new_parent: &NodeId,
        id: &NodeId,
    )
        requires
            xi < old(self).nodes@.len(),
            qi < old(self).nodes@.len(),
            pi < old(self).nodes@.len(),
            xi != qi,
            xi != pi,
            pos < old(self).nodes@[qi as int].kids@.len(),
            fi <= (if qi == pi {
                old(self).nodes@[pi as int].kids@.len() - 1
            } else {
                old(self).nodes@[pi as int].kids@.len() as int
            }),
        ensures
            ({
                let m = *old(self);
                let t = *final(self);
                &&& t.nodes@.len() == m.nodes@.len()
                &&& forall|j: int|
                    0 <= j < m.nodes@.len() ==> (#[trigger] t.nodes@[j]).id == m.nodes@[j].id
                        && t.nodes@[j].data == m.nodes@[j].data && t.nodes@[j].depth
                        == m.nodes@[j].depth
                &&& forall|j: int|
                    0 <= j < m.nodes@.len() && j != xi ==> (#[trigger] t.nodes@[j]).parent
                        == m.nodes@[j].parent
                &&& pv(t.nodes@[xi as int]) == new_parent@
                &&& t.nodes@[xi as int].parent is Some
                &&& (qi != pi ==> {
                    &&& t.nodes@[qi as int].kids@ == m.nodes@[qi as int].kids@.remove(pos as int)
                    &&& t.nodes@[pi as int].kids@ == m.nodes@[pi as int].kids@.insert(
                        fi as int,
                        t.nodes@[pi as int].kids@[fi as int],
                    )
                    &&& t.nodes@[pi as int].kids@[fi as int]@ == id@
                })
                &&& (qi == pi ==> {
                    &&& t.nodes@[pi as int].kids@ == m.nodes@[pi as int].kids@.remove(
                        pos as int,
                    ).insert(fi as int, t.nodes@[pi as int].kids@[fi as int])
                    &&& t.nodes@[pi as int].kids@[fi as int]@ == id@
                })
                &&& forall|j: int|
                    0 <= j < m.nodes@.len() && j != qi && j != pi ==> (#[trigger] t.nodes@[j]).kids
                        == m.nodes@[j].kids
            }),
    {
        let mut qe = self.nodes.remove(qi);
        qe.kids.remove(pos);
        self.nodes.insert(qi, qe);
        let mut pe = self.nodes.remove(pi);
        pe.kids.insert(fi, id.dup());
        self.nodes.insert(pi, pe);
        let mut xe = self.nodes.remove(xi);
        xe.parent = Option::Some(new_parent.dup());
        self.nodes.insert(xi, xe);
        proof {
            assert(forall|j: int|
                0 <= j < old(self).nodes@.len() && j != qi && j != pi && j != xi
                    ==> (#[trigger] self.nodes@[j]) == old(self).nodes@[j]);
        }
    }

    /// What a successful move does: `x` now hangs under `p` at sibling
    /// position `fi`; its subtree, all payloads, and every other sibling
    /// order are untouched.
    pub open spec fn moved_to(self, t: Tree, x: IdView, p: IdView, fi: int) -> bool {
        let m = self;
        &&& forall|y: IdView| t.has(y) == m.has(y)
        &&& t.parent_of(x) == Option::Some(p)
        &&& t.kids_of(p) == m.kids_of(p).remove_value(x).insert(fi, x)
        &&& forall|y: IdView|
            m.has(y) && y != p ==> t.kids_of(y) == m.kids_of(y).remove_value(x)
        &&& forall|y: IdView| m.has(y) && y != x ==> t.parent_of(y) == m.parent_of(y)
        &&& forall|y: IdView, k: Seq<char>| m.has(y) ==> t.data_of(y, k) == m.data_of(y, k)
    }

    /// The sibling sequence of `p` once `x` stands nowhere: the basis for
    /// an insertion index.
    pub open spec fn move_base(self, p: IdView, x: IdView) -> int {
        self.kids_of(p).remove_value(x).len() as int
    }

    /// The single re-parenting primitive: removes `id` from its current
    /// parent's child sequence (a no-op during creation), then inserts it
    /// into `new_parent`'s sequence at `index`, or at the end. Creates the
    /// node when `id` is not yet in the tree. Rejects the reserved
    /// identifiers, an unknown `new_parent`, a move of a node under itself
    /// or any of its descendants, and an index beyond the (post-removal)
    /// sibling sequence, in that order, mutating nothing on any error.
    pub fn update_node(&mut self, id: &NodeId, new_parent: &NodeId, index: Option<usize>) -> (r:
        Result<(), TreeError>)
        requires
            old(self).wf(),
        ensures
            final(self).wf(),
            ({
                let m = *old(self);
                let t = *final(self);
                let x = id@;
                let p = new_parent@;
                match r {
                    Result::Ok(u) => {
                        &&& Tree::ok_new_id(x) && m.has(p) && !m.reaches(p, x)
                        &&& (match index {
                            Option::Some(i) => i <= m.move_base(p, x),
                            Option::None => true,
                        })
                        &&& ({
                            let fi = match index {
                                Option::Some(i) => i as int,
                                Option::None => m.move_base(p, x),
                            };
                            if m.has(x) {
                                m.moved_to(t, x, p, fi)
                            } else {
                                m.created(t, p, x, index)
                            }
                        })
                    },
                    Result::Err(e) => {
                        &&& t == m
                        &&& (e == TreeError::InvalidId || e == TreeError::NotFound
                            || e == TreeError::Cycle || e == TreeError::IndexOutOfRange)
                        &&& (e == TreeError::InvalidId <==> !Tree::ok_new_id(x))
                        &&& (e == TreeError::NotFound <==> Tree::ok_new_id(x) && !m.has(p))
                        &&& (e == TreeError::Cycle <==> Tree::ok_new_id(x) && m.has(p)
                            && m.reaches(p, x))
                        &&& (e == TreeError::IndexOutOfRange <==> Tree::ok_new_id(x) && m.has(p)
                            && !m.reaches(p, x) && (match index {
                            Option::Some(i) => i > m.move_base(p, x),
                            Option::None => false,
                        }))
                    },
                }
            }),
    {
        let ghost m = *old(self);
        let ghost x = id@;
        let ghost p = new_parent@;
        if id.is_reserved() {
            return Result::Err(TreeError::InvalidId);
        }
        let pi = match self.find_index(new_parent) {
            Option::None => {
                return Result::Err(TreeError::NotFound);
            },
            Option::Some(i) => i,
        };
        proof {
            self.lemma_idx(pi as int);
        }
        if self.reaches_up(pi, id) {
            return Result::Err(TreeError::Cycle);
        }
        let xi = match self.find_index(id) {
            Option::None => {
                // creation: the node is not yet in the tree
                proof {
                    assert(m.kids_of(p).remove_value(x) == m.kids_of(p)) by {
                        if m.kids_of(p).contains(x) {
                            let j = choose|j: int|
                                0 <= j < m.kids_of(p).len() && m.kids_of(p)[j] == x;
                            reveal(Tree::wf);
                            assert(m.ents()[pi as int].kids@[j]@ == x);
                            assert(m.has(x));
                        }
                        lemma_remove_value_absent(m.kids_of(p), x);
                    }
                }
                let klen = self.nodes[pi].kids.len();
                let fi = match index {
                    Option::Some(i) => {
                        if i > klen {
                            return Result::Err(TreeError::IndexOutOfRange);
                        }
                        i
                    },
                    Option::None => klen,
                };
                self.insert_new(id, pi, fi);
                return Result::Ok(());
            },
            Option::Some(i) => i,
        };
        proof {
            self.lemma_idx(xi as int);
            reveal(Tree::wf);
            if xi == 0 {
                assert(m.ents()[0].id@ == IdView::Root);
            }
        }
        let q_id = match &self.nodes[xi].parent {
            Option::Some(qn) => qn.dup(),
            Option::None => {
                proof {
                    assert(false);
                }
                NodeId::Root
            },
        };
        let ghost q = q_id@;
        let qi = match self.find_index(&q_id) {
            Option::Some(i) => i,
            Option::None => {
                proof {
                    reveal(Tree::wf);
                    assert(m.has(pv(m.ents()[xi as int])));
                }
                return Result::Err(TreeError::NotFound);
            },
        };
        proof {
            self.lemma_idx(qi as int);
        }
        let pos = match self.find_kid_pos(qi, id) {
            Option::Some(j) => j,
            Option::None => {
                proof {
                    reveal(Tree::wf);
                    assert(m.kids_of(q).contains(x));
                    let j = choose|j: int| 0 <= j < m.kids_of(q).len() && m.kids_of(q)[j] == x;
                    assert(m.ents()[qi as int].kids@[j]@ == x);
                }
                return Result::Err(TreeError::NotFound);
            },
        };
        proof {
            reveal(Tree::wf);
            assert(m.kids_of(q)[pos as int] == x);
            lemma_remove_value_at(m.kids_of(q), x, pos as int);
            if qi != pi {
                assert(m.kids_of(p).remove_value(x) == m.kids_of(p)) by {
                    if m.kids_of(p).contains(x) {
                        let j = choose|j: int|
                            0 <= j < m.kids_of(p).len() && m.kids_of(p)[j] == x;
                        assert(m.ents()[pi as int].kids@[j]@ == x);
                        assert(pv(m.ent(x)) == p);
                        assert(m.idx_of(q) == qi as int);
                    }
                    lemma_remove_value_absent(m.kids_of(p), x);
                }
            }
        }
        let base = if qi == pi {
            self.nodes[pi].kids.len() - 1
        } else {
            self.nodes[pi].kids.len()
        };
        let fi = match index {
            Option::Some(i) => {
                if i > base {
                    return Result::Err(TreeError::IndexOutOfRange);
                }
                i
            },
            Option::None => base,
        };
        let dx = self.nodes[xi].depth;
        let dp = self.nodes[pi].depth;
        // which nodes ride along: everything that reaches x
        let n = self.nodes.len();
        let mut flags: Vec<bool> = Vec::new();
        let mut j: usize = 0;
        while j < n
            invariant
                *self == m,
                m.wf(),
                n == m.count(),
                j <= n,
                flags@.len() == j,
                forall|k: int|
                    0 <= k < j ==> flags@[k] == m.reaches(m.ents()[k].id@, x),
                x == id@,
            decreases n - j,
        {
            flags.push(self.reaches_up(j, id));
            j += 1;
        }
        proof {
            if xi == qi {
                assert(pv(m.ent(x)) == q);
                assert(m.ents()[xi as int].depth == m.ents()[qi as int].depth + 1);
            }
            if xi == pi {
                assert(m.reaches(p, x));
            }
        }
        self.splice_move(xi, qi, pos, pi, fi, new_parent, id);
        let ghost s3 = *self;
        let mut j2: usize = 0;
        while j2 < n
            invariant
                m.wf(),
                n == m.count(),
                self.nodes@.len() == n,
                j2 <= n,
                flags@.len() == n,
                forall|k: int| 0 <= k < n ==> flags@[k] == m.reaches(m.ents()[k].id@, x),
                forall|k: int|
                    0 <= k < n ==> (#[trigger] self.nodes@[k]).id == s3.nodes@[k].id
                        && self.nodes@[k].parent == s3.nodes@[k].parent && self.nodes@[k].kids
                        == s3.nodes@[k].kids && self.nodes@[k].data == s3.nodes@[k].data,
                forall|k: int|
                    0 <= k < n ==> (#[trigger] s3.nodes@[k]).depth == m.ents()[k].depth,
                forall|k: int|
                    j2 <= k < n ==> (#[trigger] self.nodes@[k]).depth == m.ents()[k].depth,
                forall|k: int|
                    0 <= k < j2 ==> (#[trigger] self.nodes@[k]).depth == (if m.reaches(
                        m.ents()[k].id@,
                        x,
                    ) {
                        m.depth_of(p) + 1 + (m.ents()[k].depth - m.depth_of(x))
                    } else {
                        m.ents()[k].depth as int
                    }),
                dx == m.depth_of(x),
                dp == m.depth_of(p),
                m.has(x),
                m.has(p),
                x != IdView::Root,
                !m.reaches(p, x),
                x == id@,
                p == new_parent@,
            decreases n - j2,
        {
            if flags[j2] {
                proof {
                    m.lemma_idx(j2 as int);
                    lemma_move_bound(m, m.ents()[j2 as int].id@, x, p);
                }
                let mut e = self.nodes.remove(j2);
                e.depth = dp + 1 + (e.depth - dx);
                self.nodes.insert(j2, e);
            }
            j2 += 1;
        }
        proof {
            lemma_moved(m, *self, x, p, q, xi as int, qi as int, pi as int, pos as int, fi as int);
        }
        Result::Ok(())
    }

    /// The raw entry surgery behind a leaf deletion: unlists the child at
    /// `pos` of the entry at `qi`, then removes the entry at `xi`.
    fn splice_out(&mut self, xi: usize, qi: usize, pos: usize)
        requires
            xi < old(self).nodes@.len(),
            qi < old(self).nodes@.len(),
            xi != qi,
            pos < old(self).nodes@[qi as int].kids@.len(),
        ensures
            ({
                let m = *old(self);
                let t = *final(self);
                let qj: int = if qi < xi {
                    qi as int
                } else {
                    qi - 1
                };
                &&& t.nodes@.len() == m.nodes@.len() - 1
                &&& forall|j: int|
                    0 <= j < t.nodes@.len() && j != qj ==> (#[trigger] t.nodes@[j])
                        == m.nodes@[if j < xi {
                        j
                    } else {
                        j + 1
                    }]
                &&& t.nodes@[qj].id == m.nodes@[qi as int].id
                &&& t.nodes@[qj].parent == m.nodes@[qi as int].parent
                &&& t.nodes@[qj].depth == m.nodes@[qi as int].depth
                &&& t.nodes@[qj].data == m.nodes@[qi as int].data
                &&& t.nodes@[qj].kids@ == m.nodes@[qi as int].kids@.remove(pos as int)
            }),
    {
        let mut qe = self.nodes.remove(qi);
        qe.kids.remove(pos);
        self.nodes.insert(qi, qe);
        self.nodes.remove(xi);
    }

    /// Deletes a childless non-root node: it vanishes from the tree and
    /// from its parent's child list; nothing else changes.
    fn delete_leaf(&mut self, id: &NodeId)
        requires
            old(self).wf(),
            old(self).has(id@),
            id@ != IdView::Root,
            old(self).kids_of(id@) == Seq::<IdView>::empty(),
        ensures
            final(self).wf(),
            final(self).count() == old(self).count() - 1,
            ({
                let m = *old(self);
                let t = *final(self);
                let x = id@;
                let q = m.rel_parent2(x);
                &&& forall|y: IdView| t.has(y) == (m.has(y) && y != x)
                &&& t.kids_of(q) == m.kids_of(q).remove_value(x)
                &&& forall|y: IdView| t.has(y) && y != q ==> t.kids_of(y) == m.kids_of(y)
                &&& forall|y: IdView|
                    t.has(y) ==> t.parent_of(y) == m.parent_of(y) && t.depth_of(y)
                        == m.depth_of(y)
                &&& forall|y: IdView, k: Seq<char>|
                    t.has(y) ==> t.data_of(y, k) == m.data_of(y, k)
            }),
    {
        let ghost m = *old(self);
        let ghost x = id@;
        let xi = match self.find_index(id) {
            Option::Some(i) => i,
            Option::None => {
                proof {
                    assert(false);
                }
                0
            },
        };
        proof {
            self.lemma_idx(xi as int);
            reveal(Tree::wf);
            if xi == 0 {
                assert(m.ents()[0].id@ == IdView::Root);
            }
        }
        let q_id = match &self.nodes[xi].parent {
            Option::Some(qn) => qn.dup(),
            Option::None => {
                proof {
                    assert(false);
                }
                NodeId::Root
            },
        };
        let ghost q = q_id@;
        let qi = match self.find_index(&q_id) {
            Option::Some(i) => i,
            Option::None => {
                proof {
                    reveal(Tree::wf);
                    assert(m.has(pv(m.ents()[xi as int])));
                    assert(false);
                }
                0
            },
        };
        proof {
            self.lemma_idx(qi as int);
        }
        let pos = match self.find_kid_pos(qi, id) {
            Option::Some(j) => j,
            Option::None => {
                proof {
                    reveal(Tree::wf);
                    assert(m.kids_of(q).contains(x)) by {
                        assert(pv(m.ents()[xi as int]) == q);
                    }
                    let j = choose|j: int| 0 <= j < m.kids_of(q).len() && m.kids_of(q)[j] == x;
                    assert(m.ents()[qi as int].kids@[j]@ == x);
                    assert(false);
                }
                0
            },
        };
        proof {
            assert(xi != qi) by {
                reveal(Tree::wf);
                if xi == qi {
                    assert(m.ents()[xi as int].depth == m.depth_of(pv(m.ents()[xi as int])) + 1);
                }
            }
        }
        self.splice_out(xi, qi, pos);
        proof {
            lemma_leaf_removed(m, *self, x, q, xi as int, qi as int, pos as int);
        }
    }

    /// The parent identity of a present non-root node, as a plain value.
    pub open spec fn rel_parent2(self, x: IdView) -> IdView {
        match self.parent_of(x) {
            Option::Some(w) => w,
            Option::None => IdView::Root,
        }
    }

    /// What deleting with `Promote` does: the node is gone, its former
    /// children hang off its former parent, appended after that parent's
    /// existing children in their old order, and nothing else changes.
    pub open spec fn promoted(self, t: Tree, x: IdView) -> bool {
        let m = self;
        let q = m.rel_parent2(x);
        &&& forall|y: IdView| t.has(y) == (m.has(y) && y != x)
        &&& t.kids_of(q) == m.kids_of(q).remove_value(x) + m.kids_of(x)
        &&& forall|y: IdView| t.has(y) && y != q ==> t.kids_of(y) == m.kids_of(y)
        &&& forall|y: IdView|
            t.has(y) ==> t.parent_of(y) == (if m.kids_of(x).contains(y) {
                Option::Some(q)
            } else {
                m.parent_of(y)
            })
        &&& forall|y: IdView, k: Seq<char>| t.has(y) ==> t.data_of(y, k) == m.data_of(y, k)
    }

    /// Deletes the named node with the `Promote` strategy: hands each of
    /// its children to its parent, in order, then removes the childless
    /// node. Deleting the root or an absent identity is an error, and
    /// mutates nothing.
    #[verifier::rlimit(100)]
    #[verifier::spinoff_prover]
    pub fn delete_promote(&mut self, id: &NodeId) -> (r: Result<(), TreeError>)
        requires
            old(self).wf(),
        ensures
            final(self).wf(),
            ({
                let m = *old(self);
                let t = *final(self);
                match r {
                    Result::Ok(u) => {
                        &&& Tree::ok_new_id(id@) && m.has(id@) && id@ != IdView::Root
                        &&& m.promoted(t, id@)
                    },
                    Result::Err(e) => {
                        &&& t == m
                        &&& (e == TreeError::InvalidId || e == TreeError::NotFound)
                        &&& (e == TreeError::InvalidId <==> !Tree::ok_new_id(id@))
                        &&& (e == TreeError::NotFound <==> Tree::ok_new_id(id@) && !m.has(id@))
                    },
                }
            }),
    {
        if id.is_reserved() {
            return Result::Err(TreeError::InvalidId);
        }
        match self.find_index(id) {
            Option::None => {
                return Result::Err(TreeError::NotFound);
            },
            Option::Some(_) => {},
        }
        let ghost m = *old(self);
        let ghost x = id@;
        let ghost q = m.rel_parent2(x);
        let ghost bigk = m.kids_of(x);
        proof {
            lemma_depth_law(m, x);
            assert(m.has(q) && m.depth_of(x) == m.depth_of(q) + 1);
            assert(x != q);
            assert(!bigk.contains(x)) by {
                if bigk.contains(x) {
                    let j = choose|j: int| 0 <= j < bigk.len() && bigk[j] == x;
                    lemma_child_parent(m, x, j);
                    lemma_depth_law(m, x);
                }
            }
            assert(bigk.take(0) =~= Seq::<IdView>::empty());
            assert(bigk.skip(0) =~= bigk);
            assert(m.kids_of(q) + bigk.take(0) =~= m.kids_of(q));
        }
        let q_id = match self.get_parent(id) {
            Option::Some(qn) => qn,
            Option::None => {
                proof {
                    assert(false);
                }
                NodeId::Root
            },
        };
        let klen0 = self.get_children(id).len();
        let mut j: usize = 0;
        while j < klen0
            invariant
                self.wf(),
                m.wf(),
                m.has(x),
                x == id@,
                x != IdView::Root,
                x != q,
                m.has(q),
                q == m.rel_parent2(x),
                q_id@ == q,
                bigk == m.kids_of(x),
                klen0 == bigk.len(),
                j <= klen0,
                forall|y: IdView| self.has(y) == m.has(y),
                self.kids_of(x) == bigk.skip(j as int),
                self.kids_of(q) == m.kids_of(q) + bigk.take(j as int),
                forall|y: IdView|
                    self.has(y) && y != q && y != x ==> self.kids_of(y) == m.kids_of(y),
                forall|y: IdView|
                    self.has(y) ==> self.parent_of(y) == (if bigk.take(j as int).contains(y) {
                        Option::Some(q)
                    } else {
                        m.parent_of(y)
                    }),
                forall|y: IdView, k: Seq<char>|
                    self.has(y) ==> self.data_of(y, k) == m.data_of(y, k),
            decreases klen0 - j,
        {
            let ghost cur = *self;
            let ghost kv = bigk[j as int];
            proof {
                assert(cur.has(x) && cur.has(q));
                lemma_root_is_sole_orphan(m);
                lemma_depth_law(m, x);
                assert(m.parent_of(x) == Option::Some(q));
                assert(cur.kids_of(x)[0] == kv);
                lemma_children_distinct(m, x);
                assert(!bigk.take(j as int).contains(kv)) by {
                    if bigk.take(j as int).contains(kv) {
                        let a = choose|a: int| 0 <= a < j && bigk.take(j as int)[a] == kv;
                        assert(bigk[a] == bigk[j as int]);
                    }
                }
                lemma_child_parent(m, x, j as int);
                assert(m.has(kv) && m.parent_of(kv) == Option::Some(x));
                assert(cur.parent_of(kv) == Option::Some(x));
                assert(Tree::ok_new_id(kv)) by {
                    reveal(Tree::wf);
                    let i = cur.idx_of(kv);
                    assert(cur.ents()[i].id@ == kv);
                    if i == 0 {
                        assert(cur.ents()[0].id@ == IdView::Root);
                    }
                }
                // the move cannot build a cycle: the kid sits two levels
                // below the grandparent
                lemma_depth_law(cur, kv);
                assert(!bigk.take(j as int).contains(x)) by {
                    assert(!bigk.contains(x)) by {
                        if bigk.contains(x) {
                            let a = choose|a: int|
                                0 <= a < bigk.len() && #[trigger] bigk[a] == x;
                            lemma_child_parent(m, x, a);
                        }
                    }
                    if bigk.take(j as int).contains(x) {
                        let a = choose|a: int|
                            0 <= a < bigk.take(j as int).len() && #[trigger] bigk.take(
                                j as int,
                            )[a] == x;
                        assert(bigk[a] == x);
                    }
                }
                assert(cur.parent_of(x) == Option::Some(q));
                lemma_depth_law(cur, x);
                assert(!cur.reaches(q, kv)) by {
                    if cur.reaches(q, kv) {
                        cur.lemma_reaches_facts(q, kv);
                    }
                }
                // the kid is not yet among the grandparent's children
                assert(!cur.kids_of(q).contains(kv)) by {
                    if cur.kids_of(q).contains(kv) {
                        let a = choose|a: int|
                            0 <= a < cur.kids_of(q).len() && cur.kids_of(q)[a] == kv;
                        lemma_child_parent(cur, q, a);
                    }
                }
                lemma_remove_value_absent(cur.kids_of(q), kv);
            }
            let kids = self.get_children(id);
            proof {
                assert(kids@.map_values(|k: NodeId| k@) == cur.kids_of(x));
                assert(kids@.len() == cur.kids_of(x).len());
                assert(kids@[0]@ == kv) by {
                    assert(kids@.map_values(|k: NodeId| k@)[0] == kids@[0]@);
                }
            }
            let r = self.update_node(&kids[0], &q_id, Option::None);
            proof {
                if r is Err {
                    assert(false);
                }
                assert(cur.moved_to(*self, kv, q, cur.move_base(q, kv)));
                // the grandparent's list gained the kid at its end
                assert(self.kids_of(q) == m.kids_of(q) + bigk.take(j as int + 1)) by {
                    assert(self.kids_of(q) == cur.kids_of(q).remove_value(kv).insert(
                        cur.kids_of(q).len() as int,
                        kv,
                    ));
                    assert(cur.kids_of(q).insert(cur.kids_of(q).len() as int, kv)
                        =~= cur.kids_of(q).push(kv));
                    assert((m.kids_of(q) + bigk.take(j as int)).push(kv) =~= m.kids_of(q)
                        + bigk.take(j as int + 1));
                }
                // the node's own list lost its first child
                assert(self.kids_of(x) == bigk.skip(j as int + 1)) by {
                    assert(x != q);
                    assert(self.kids_of(x) == cur.kids_of(x).remove_value(kv));
                    let s = cur.kids_of(x);
                    s.index_of_first_ensures(kv);
                    assert(s[0] == kv);
                    let f = s.index_of_first(kv).unwrap();
                    assert(f == 0);
                    assert(s.remove(0) =~= bigk.skip(j as int + 1));
                }
                assert(bigk.take(j as int + 1) =~= bigk.take(j as int).push(kv));
                assert forall|y: IdView| self.has(y) implies self.parent_of(y) == (
                if bigk.take(j as int + 1).contains(y) {
                    Option::Some(q)
                } else {
                    m.parent_of(y)
                }) by {
                    if y == kv {
                        assert(bigk.take(j as int + 1)[j as int] == kv);
                    } else {
                        if bigk.take(j as int + 1).contains(y) {
                            let a = choose|a: int|
                                0 <= a < bigk.take(j as int + 1).len() && #[trigger] bigk.take(
                                    j as int + 1,
                                )[a] == y;
                            assert(a != j);
                            assert(bigk.take(j as int)[a] == y);
                        }
                        if bigk.take(j as int).contains(y) {
                            let a = choose|a: int|
                                0 <= a < bigk.take(j as int).len() && #[trigger] bigk.take(
                                    j as int,
                                )[a] == y;
                            assert(bigk.take(j as int + 1)[a] == y);
                        }
                    }
                }
                // lists of bystanders never held the moved kid
                assert forall|y: IdView| self.has(y) && y != q && y != x implies self.kids_of(
                    y,
                ) == m.kids_of(y) by {
                    assert(cur.has(y));
                    assert(self.kids_of(y) == cur.kids_of(y).remove_value(kv));
                    assert(!cur.kids_of(y).contains(kv)) by {
                        if cur.kids_of(y).contains(kv) {
                            let a = choose|a: int|
                                0 <= a < cur.kids_of(y).len() && cur.kids_of(y)[a] == kv;
                            lemma_child_parent(cur, y, a);
                        }
                    }
                    lemma_remove_value_absent(cur.kids_of(y), kv);
                }
            }
            j += 1;
        }
        proof {
            assert(self.kids_of(x) =~= Seq::<IdView>::empty());
            assert(bigk.take(klen0 as int) =~= bigk);
        }
        let ghost cur = *self;
        self.delete_leaf(id);
        proof {
            // the parent's final list: its old children without the node,
            // then the node's former children
            assert(cur.rel_parent2(x) == q) by {
                assert(cur.parent_of(x) == m.parent_of(x)) by {
                    assert(!bigk.contains(x));
                }
            }
            lemma_child_listed(m, x);
            assert(m.kids_of(q).contains(x));
            let posm = choose|p0: int| 0 <= p0 < m.kids_of(q).len() && m.kids_of(q)[p0] == x;
            lemma_children_distinct(m, q);
            lemma_remove_value_at(m.kids_of(q), x, posm);
            lemma_children_distinct(cur, q);
            assert(cur.kids_of(q)[posm] == x);
            lemma_remove_value_at(cur.kids_of(q), x, posm);
            assert(cur.kids_of(q).remove(posm) =~= m.kids_of(q).remove(posm) + bigk);
            assert(self.kids_of(q) == m.kids_of(q).remove_value(x) + bigk);
        }
        Result::Ok(())
    }

    /// The parent a relative move lands under: the target's parent.
    pub open spec fn rel_parent(self, tgt: IdView) -> IdView {
        match self.parent_of(tgt) {
            Option::Some(w) => w,
            Option::None => IdView::Root,
        }
    }

    /// The sibling index of `tgt` under its parent, once `x` is taken out.
    pub open spec fn rel_index(self, x: IdView, tgt: IdView) -> int {
        pos_less(self.kids_of(self.rel_parent(tgt)), x, tgt)
    }

    /// What a relative move (`move_before` with `off == 0`, `move_after`
    /// with `off == 1`) returns and does, for every outcome.
    pub open spec fn move_rel_post(m: Tree, t: Tree, x: IdView, g: IdView, off: int, r: Result<
        (),
        TreeError,
    >) -> bool {
        match r {
            Result::Ok(u) => {
                let w = m.rel_parent(g);
                let fi = m.rel_index(x, g) + off;
                &&& x != g && g != IdView::Root && m.has(g) && Tree::ok_new_id(x)
                &&& !m.reaches(w, x)
                &&& (if m.has(x) {
                    m.moved_to(t, x, w, fi)
                } else {
                    m.created(t, w, x, Option::Some(fi as usize))
                })
            },
            Result::Err(e) => {
                &&& t == m
                &&& (e == TreeError::Cycle || e == TreeError::InvalidTarget
                    || e == TreeError::NotFound || e == TreeError::InvalidId)
                &&& (e == TreeError::Cycle <==> x == g || (g != IdView::Root && m.has(g)
                    && Tree::ok_new_id(x) && m.reaches(m.rel_parent(g), x)))
                &&& (e == TreeError::InvalidTarget <==> x != g && g == IdView::Root)
                &&& (e == TreeError::NotFound <==> x != g && g != IdView::Root && !m.has(g))
                &&& (e == TreeError::InvalidId <==> x != g && g != IdView::Root && m.has(g)
                    && !Tree::ok_new_id(x))
            },
        }
    }

    /// Moves `id` to sit immediately next to `target` under the target's
    /// parent: before it for `offset` 0, after it for `offset` 1. Moving a
    /// node relative to itself is a cycle; the root has no sibling
    /// position to move relative to.
    pub fn move_relative(&mut self, id: &NodeId, target: &NodeId, offset: usize) -> (r: Result<
        (),
        TreeError,
    >)
        requires
            old(self).wf(),
            offset <= 1,
        ensures
            final(self).wf(),
            Tree::move_rel_post(*old(self), *final(self), id@, target@, offset as int, r),
    {
        let ghost m = *old(self);
        let ghost x = id@;
        let ghost g = target@;
        if id.same(target) {
            return Result::Err(TreeError::Cycle);
        }
        if target.is_root() {
            return Result::Err(TreeError::InvalidTarget);
        }
        let gi = match self.find_index(target) {
            Option::None => {
                return Result::Err(TreeError::NotFound);
            },
            Option::Some(i) => i,
        };
        proof {
            self.lemma_idx(gi as int);
            lemma_depth_law(m, g);
        }
        let q_id = match &self.nodes[gi].parent {
            Option::Some(qn) => qn.dup(),
            Option::None => {
                proof {
                    reveal(Tree::wf);
                    if gi != 0 {
                        assert(m.ents()[gi as int].parent is Some);
                    }
                    assert(false);
                }
                NodeId::Root
            },
        };
        let ghost w = q_id@;
        let qi = match self.find_index(&q_id) {
            Option::Some(i) => i,
            Option::None => {
                proof {
                    assert(false);
                }
                return Result::Err(TreeError::NotFound);
            },
        };
        proof {
            self.lemma_idx(qi as int);
            reveal(Tree::wf);
            assert(m.kids_of(w).contains(g)) by {
                assert(pv(m.ents()[gi as int]) == w);
            }
        }
        let ghost kview = m.kids_of(w);
        proof {
            assert(kview.skip(0) =~= kview);
        }
        let ks_len = self.nodes[qi].kids.len();
        let mut j: usize = 0;
        let mut posi: usize = 0;
        let mut found = false;
        while j < ks_len
            invariant
                *self == m,
                m.wf(),
                qi < m.count(),
                m.ents()[qi as int].id@ == w,
                m.idx_of(w) == qi as int,
                kview == m.kids_of(w),
                ks_len == kview.len(),
                kview.contains(g),
                j <= ks_len,
                posi <= j,
                x == id@,
                g == target@,
                !found ==> pos_less(kview, x, g) == posi + pos_less(
                    kview.skip(j as int),
                    x,
                    g,
                ) && (forall|k: int| 0 <= k < j ==> kview[k] != g),
                found ==> posi == pos_less(kview, x, g),
            decreases ks_len - j,
        {
            if !found {
                proof {
                    assert(kview.skip(j as int)[0] == kview[j as int]);
                    assert(kview.skip(j as int).drop_first() =~= kview.skip(j as int + 1));
                    assert(self.ents()[qi as int].kids@[j as int]@ == kview[j as int]);
                }
                if self.nodes[qi].kids[j].same(target) {
                    found = true;
                } else if !self.nodes[qi].kids[j].same(id) {
                    posi += 1;
                }
            }
            j += 1;
        }
        proof {
            if !found {
                let k = choose|k: int| 0 <= k < kview.len() && kview[k] == g;
                assert(false);
            }
            assert(posi == m.rel_index(x, g));
            // the landing index always fits the post-removal sibling list
            if kview.contains(x) {
                lemma_pos_less_lt(kview, x, g);
                let jx = choose|jx: int| 0 <= jx < kview.len() && kview[jx] == x;
                reveal(Tree::wf);
                assert forall|a: int, b: int|
                    0 <= a < b < kview.len() implies kview[a] != kview[b] by {
                    assert(m.ents()[qi as int].kids@[a]@ != m.ents()[qi as int].kids@[b]@);
                }
                lemma_remove_value_at(kview, x, jx);
            } else {
                lemma_pos_less_le(kview, x, g);
                lemma_remove_value_absent(kview, x);
            }
        }
        let r = self.update_node(id, &q_id, Option::Some(posi + offset));
        proof {
            if r is Err {
                reveal(Tree::wf);
            }
        }
        r
    }

    /// Moves `id` under `new_parent` at the given index (at the end when
    /// `index` is `None`); `update_node` gives the exact contract.
    pub fn move_to(&mut self, id: &NodeId, new_parent: &NodeId, index: Option<usize>) -> (r:
        Result<(), TreeError>)
        requires
            old(self).wf(),
        ensures
            final(self).wf(),
            ({
                let m = *old(self);
                let t = *final(self);
                let x = id@;
                let p = new_parent@;
                match r {
                    Result::Ok(u) => {
                        &&& Tree::ok_new_id(x) && m.has(p) && !m.reaches(p, x)
                        &&& ({
                            let fi = match index {
                                Option::Some(i) => i as int,
                                Option::None => m.move_base(p, x),
                            };
                            if m.has(x) {
                                m.moved_to(t, x, p, fi)
                            } else {
                                m.created(t, p, x, index)
                            }
                        })
                    },
                    Result::Err(e) => {
                        &&& t == m
                        &&& (e == TreeError::InvalidId || e == TreeError::NotFound
                            || e == TreeError::Cycle || e == TreeError::IndexOutOfRange)
                        &&& (e == TreeError::InvalidId <==> !Tree::ok_new_id(x))
                        &&& (e == TreeError::NotFound <==> Tree::ok_new_id(x) && !m.has(p))
                        &&& (e == TreeError::Cycle <==> Tree::ok_new_id(x) && m.has(p)
                            && m.reaches(p, x))
                        &&& (e == TreeError::IndexOutOfRange <==> Tree::ok_new_id(x) && m.has(p)
                            && !m.reaches(p, x) && (match index {
                            Option::Some(i) => i > m.move_base(p, x),
                            Option::None => false,
                        }))
                    },
                }
            }),
    {
        self.update_node(id, new_parent, index)
    }

    /// Moves `id` immediately before `target` among the target's siblings.
    pub fn move_before(&mut self, id: &NodeId, target: &NodeId) -> (r: Result<(), TreeError>)
        requires
            old(self).wf(),
        ensures
            final(self).wf(),
            Tree::move_rel_post(*old(self), *final(self), id@, target@, 0, r),
    {
        self.move_relative(id, target, 0)
    }

    /// Moves `id` immediately after `target` among the target's siblings.
    pub fn move_after(&mut self, id: &NodeId, target: &NodeId) -> (r: Result<(), TreeError>)
        requires
            old(self).wf(),
        ensures
            final(self).wf(),
            Tree::move_rel_post(*old(self), *final(self), id@, target@, 1, r),
    {
        self.move_relative(id, target, 1)
    }

    /// Binds `value` to `key` on the named node. Structure is untouched;
    /// only that node's binding for that key changes.
    pub fn set_data(&mut self, id: &NodeId, key: &str, value: Value) -> (r: Result<
        (),
        TreeError,
    >)
        requires
            old(self).wf(),
        ensures
            final(self).wf(),
            ({
                let m = *old(self);
                let t = *final(self);
                let x = id@;
                match r {
                    Result::Ok(u) => {
                        &&& m.has(x)
                        &&& t.data_of(x, key@) == Option::Some(value@)
                        &&& forall|k: Seq<char>| k != key@ ==> t.data_of(x, k) == m.data_of(x, k)
                        &&& forall|y: IdView, k: Seq<char>|
                            m.has(y) && y != x ==> t.data_of(y, k) == m.data_of(y, k)
                        &&& forall|y: IdView| t.has(y) == m.has(y)
                        &&& forall|y: IdView|
                            m.has(y) ==> t.kids_of(y) == m.kids_of(y) && t.parent_of(y)
                                == m.parent_of(y) && t.depth_of(y) == m.depth_of(y)
                    },
                    Result::Err(e) => {
                        &&& t == m
                        &&& e == TreeError::NotFound
                        &&& !m.has(x)
                    },
                }
            }),
    {
        let ghost m = *old(self);
        let i = match self.find_index(id) {
            Option::None => {
                return Result::Err(TreeError::NotFound);
            },
            Option::Some(i) => i,
        };
        proof {
            self.lemma_idx(i as int);
        }
        let mut e = self.nodes.remove(i);
        e.data.insert(0, (key.to_owned(), value));
        self.nodes.insert(i, e);
        proof {
            let t = *self;
            assert(t.ents() =~= m.ents().update(i as int, t.ents()[i as int]));
            assert(t.ents()[i as int].data@ == m.ents()[i as int].data@.insert(
                0,
                t.ents()[i as int].data@[0],
            ));
            assert(t.ents()[i as int].data@[0].0@ == key@);
            assert(t.ents()[i as int].data@[0].1@ == value@);
            lemma_data_put(m, t, i as int);
        }
        Result::Ok(())
    }

    /// The value bound to `key` on the named node, if the node exists and
    /// the key is bound.
    pub fn get_data(&self, id: &NodeId, key: &str) -> (r: Option<Value>)
        requires
            self.wf(),
        ensures
            (match r {
                Option::Some(v) => self.has(id@) && self.data_of(id@, key@)
                    == Option::Some(v@),
                Option::None => !self.has(id@) || self.data_of(id@, key@) is None,
            }),
    {
        let i = match self.find_index(id) {
            Option::None => {
                return Option::None;
            },
            Option::Some(i) => i,
        };
        proof {
            self.lemma_idx(i as int);
        }
        let key_owned = key.to_owned();
        let d = &self.nodes[i].data;
        proof {
            assert(d@.skip(0) =~= d@);
        }
        let mut j: usize = 0;
        while j < d.len()
            invariant
                self.wf(),
                i < self.count(),
                self.has(id@),
                self.ents()[i as int].id@ == id@,
                j <= d@.len(),
                key_owned@ == key@,
                d@ == self.ents()[i as int].data@,
                assoc(d@.skip(j as int), key@) == assoc(d@, key@),
            decreases d@.len() - j,
        {
            proof {
                assert(d@.skip(j as int)[0] == d@[j as int]);
                assert(d@.skip(j as int).drop_first() =~= d@.skip(j as int + 1));
            }
            if d[j].0 == key_owned {
                proof {
                    self.lemma_idx(i as int);
                    assert(assoc(d@.skip(j as int), key@) == Option::Some(d@[j as int].1@));
                }
                return Option::Some(d[j].1.dup());
            }
            j += 1;
        }
        proof {
            self.lemma_idx(i as int);
            assert(d@.skip(d@.len() as int).len() == 0);
        }
        Option::None
    }

    /// The value bound to `key` on the named node, with the well-defined
    /// null standing in when the node or the key is absent.
    pub fn get_data_or_null(&self, id: &NodeId, key: &str) -> (r: Value)
        requires
            self.wf(),
        ensures
            r@ == (if self.has(id@) {
                match self.data_of(id@, key@) {
                    Option::Some(v) => v,
                    Option::None => ValView::Null,
                }
            } else {
                ValView::Null
            }),
    {
        match self.get_data(id, key) {
            Option::Some(v) => v,
            Option::None => Value::Null,
        }
    }
}

/// Prepending a data binding rebinds that key and leaves every other
/// observation alone.
proof fn lemma_data_put(m: Tree, t: Tree, i: int)
    requires
        m.wf(),
        0 <= i < m.count(),
        t.ents() == m.ents().update(i, t.ents()[i]),
        t.ents()[i].id == m.ents()[i].id,
        t.ents()[i].parent == m.ents()[i].parent,
        t.ents()[i].depth == m.ents()[i].depth,
        t.ents()[i].kids == m.ents()[i].kids,
        t.ents()[i].data@ == m.ents()[i].data@.insert(0, t.ents()[i].data@[0]),
    ensures
        t.wf(),
        ({
            let x = m.ents()[i].id@;
            let b = t.ents()[i].data@[0];
            &&& t.has(x)
            &&& t.data_of(x, b.0@) == Option::Some(b.1@)
            &&& forall|k: Seq<char>| k != b.0@ ==> t.data_of(x, k) == m.data_of(x, k)
            &&& forall|y: IdView, k: Seq<char>|
                m.has(y) && y != x ==> t.data_of(y, k) == m.data_of(y, k)
            &&& forall|y: IdView| t.has(y) == m.has(y)
            &&& forall|y: IdView|
                m.has(y) ==> t.kids_of(y) == m.kids_of(y) && t.parent_of(y) == m.parent_of(y)
                    && t.depth_of(y) == m.depth_of(y)
        }),
{
    reveal(Tree::wf);
    let n = m.count();
    let s = t.ents();
    let olds = m.ents();
    let x = olds[i].id@;
    let b = s[i].data@[0];
    m.lemma_idx(i);
    assert(forall|j: int| 0 <= j < n && j != i ==> s[j] == olds[j]);
    assert(forall|j: int| 0 <= j < n ==> (#[trigger] s[j]).id == olds[j].id
        && s[j].parent == olds[j].parent && s[j].depth == olds[j].depth
        && s[j].kids == olds[j].kids);
    assert forall|y: IdView| t.has(y) == m.has(y) by {
        if t.has(y) {
            let j = t.idx_of(y);
            assert(olds[j].id@ == y);
            assert(m.has(y));
        }
        if m.has(y) {
            let j = m.idx_of(y);
            assert(s[j].id@ == y);
            assert(t.has(y));
        }
    }
    assert forall|y: IdView| m.has(y) implies t.idx_of(y) == m.idx_of(y) by {
        let j = m.idx_of(y);
        assert(s[j].id@ == y);
        assert(t.has(y));
        let j2 = t.idx_of(y);
        assert(s[j2].id@ == y);
        if j < j2 {
            assert(olds[j].id@ != olds[j2].id@);
        } else if j2 < j {
            assert(olds[j2].id@ != olds[j].id@);
        }
    }
    assert(t.idx_of(x) == i);
    assert forall|y: IdView, k: Seq<char>| m.has(y) && y != x implies t.data_of(y, k)
        == m.data_of(y, k) by {
        let j = m.idx_of(y);
        assert(t.idx_of(y) == j);
        assert(j != i);
        assert(s[j].data == olds[j].data);
    }
    assert forall|y: IdView| m.has(y) implies t.kids_of(y) == m.kids_of(y) && t.parent_of(y)
        == m.parent_of(y) && t.depth_of(y) == m.depth_of(y) by {
        let j = m.idx_of(y);
        assert(t.idx_of(y) == j);
        assert(s[j].kids == olds[j].kids && s[j].parent == olds[j].parent
            && s[j].depth == olds[j].depth);
    }
    assert(s[i].data@.drop_first() =~= olds[i].data@);
    assert(t.data_of(x, b.0@) == Option::Some(b.1@));
    assert forall|k: Seq<char>| k != b.0@ implies t.data_of(x, k) == m.data_of(x, k) by {
        assert(assoc(s[i].data@, k) == assoc(olds[i].data@, k));
    }
    assert(t.wf()) by {
        assert forall|j: int| 1 <= j < n implies {
            let e = #[trigger] s[j];
            &&& t.has(pv(e))
            &&& t.kids_of(pv(e)).contains(e.id@)
            &&& e.depth == t.depth_of(pv(e)) + 1
        } by {
            let e = s[j];
            let eo = olds[j];
            assert(pv(e) == pv(eo));
            assert(m.has(pv(eo)) && m.kids_of(pv(eo)).contains(eo.id@)
                && eo.depth == m.depth_of(pv(eo)) + 1);
            assert(t.ent(pv(e)).kids == m.ent(pv(eo)).kids);
            assert(t.ent(pv(e)).depth == m.ent(pv(eo)).depth);
        }
        assert forall|j: int, j2: int|
            0 <= j < n && 0 <= j2 < s[j].kids@.len() implies {
            let c = (#[trigger] s[j].kids@[j2])@;
            &&& c is Id
            &&& t.has(c)
            &&& pv(t.ent(c)) == s[j].id@
            &&& t.ent(c).parent is Some
        } by {
            assert(s[j].kids@[j2] == olds[j].kids@[j2]);
            let c = s[j].kids@[j2]@;
            assert(m.has(c) && pv(m.ent(c)) == olds[j].id@ && m.ent(c).parent is Some
                && c is Id);
            assert(t.ent(c).parent == m.ent(c).parent);
        }
    }
}

/// After appending a fresh leaf entry and listing it among its parent's
/// children, the tree is well-formed again and every other observation is
/// unchanged.
proof fn lemma_new_leaf(m: Tree, t: Tree, x: IdView, pi: int, fi: int)
    requires
        m.wf(),
        !m.has(x),
        Tree::ok_new_id(x),
        0 <= pi < m.count(),
        0 <= fi <= m.ents()[pi].kids@.len(),
        t.count() == m.count() + 1,
        t.ents() == m.ents().update(pi, t.ents()[pi]).push(t.ents()[m.count()]),
        t.ents()[pi].id == m.ents()[pi].id,
        t.ents()[pi].parent == m.ents()[pi].parent,
        t.ents()[pi].depth == m.ents()[pi].depth,
        t.ents()[pi].data == m.ents()[pi].data,
        t.ents()[pi].kids@ == m.ents()[pi].kids@.insert(fi, t.ents()[pi].kids@[fi]),
        t.ents()[pi].kids@[fi]@ == x,
        t.ents()[m.count()].id@ == x,
        pv(t.ents()[m.count()]) == m.ents()[pi].id@,
        t.ents()[m.count()].parent is Some,
        t.ents()[m.count()].depth == m.ents()[pi].depth + 1,
        t.ents()[m.count()].kids@.len() == 0,
        t.ents()[m.count()].data@.len() == 0,
    ensures
        t.wf(),
        ({
            let p = m.ents()[pi].id@;
            &&& forall|y: IdView| t.has(y) == (m.has(y) || y == x)
            &&& t.parent_of(x) == Option::Some(p)
            &&& t.kids_of(p) == m.kids_of(p).insert(fi, x)
            &&& t.kids_of(x) == Seq::<IdView>::empty()
            &&& t.depth_of(x) == m.depth_of(p) + 1
            &&& forall|y: IdView| m.has(y) && y != p ==> t.kids_of(y) == m.kids_of(y)
            &&& forall|y: IdView| m.has(y) ==> t.parent_of(y) == m.parent_of(y)
                && t.depth_of(y) == m.depth_of(y)
            &&& forall|y: IdView, k: Seq<char>| m.has(y) ==> t.data_of(y, k) == m.data_of(y, k)
            &&& forall|k: Seq<char>| t.data_of(x, k) is None
        }),
{
    reveal(Tree::wf);
    let n = m.count();
    let s = t.ents();
    let olds = m.ents();
    let p = olds[pi].id@;
    m.lemma_idx(pi);
    assert(forall|j: int| 0 <= j < n && j != pi ==> s[j] == olds[j]);
    assert(forall|j: int| 0 <= j < n ==> (#[trigger] s[j]).id == olds[j].id
        && s[j].parent == olds[j].parent && s[j].depth == olds[j].depth
        && s[j].data == olds[j].data);
    assert(forall|j: int| 0 <= j < n ==> (#[trigger] s[j]).id@ == olds[j].id@);
    assert forall|y: IdView| t.has(y) == (m.has(y) || y == x) by {
        if t.has(y) {
            let j = t.idx_of(y);
            assert(0 <= j < n + 1 && s[j].id@ == y);
            if j < n {
                assert(olds[j].id@ == y);
                assert(m.has(y));
            }
        } else {
            if m.has(y) {
                let j = m.idx_of(y);
                assert(s[j].id@ == y);
                assert(t.has(y));
            }
            if y == x {
                assert(s[n].id@ == y);
                assert(t.has(y));
            }
        }
    }
    assert forall|y: IdView| m.has(y) implies t.idx_of(y) == m.idx_of(y) by {
        let i = m.idx_of(y);
        assert(0 <= i < n && olds[i].id@ == y);
        assert(s[i].id@ == y);
        assert(t.has(y));
        let j = t.idx_of(y);
        assert(0 <= j < n + 1 && s[j].id@ == y);
        if j == n {
            assert(y == x);
            assert(false);
        }
        if i < j {
            assert(olds[i].id@ != olds[j].id@);
        } else if j < i {
            assert(olds[j].id@ != olds[i].id@);
        }
    }
    assert(t.idx_of(x) == n) by {
        assert(s[n].id@ == x);
        assert(t.has(x));
        let j = t.idx_of(x);
        if j < n {
            assert(olds[j].id@ == x);
            assert(m.has(x));
        }
    }
    assert forall|y: IdView| m.has(y) implies {
        let a = t.ent(y);
        let b = m.ent(y);
        &&& a.parent == b.parent
        &&& a.depth == b.depth
        &&& a.data == b.data
        &&& (y != p ==> a.kids == b.kids)
    } by {
        let i = m.idx_of(y);
        assert(t.idx_of(y) == i);
        if i == pi {
            assert(y == p);
        }
    }
    lemma_map_view_insert(olds[pi].kids@, fi, s[pi].kids@[fi]);
    assert(t.kids_of(p) == m.kids_of(p).insert(fi, x));
    assert(t.kids_of(x) =~= Seq::<IdView>::empty());
    lemma_new_leaf_wf(m, t, x, pi, fi);
}

/// The well-formedness part of `lemma_new_leaf`.
#[verifier::rlimit(100)]
proof fn lemma_new_leaf_wf(m: Tree, t: Tree, x: IdView, pi: int, fi: int)
    requires
        m.wf(),
        !m.has(x),
        Tree::ok_new_id(x),
        0 <= pi < m.count(),
        0 <= fi <= m.ents()[pi].kids@.len(),
        t.count() == m.count() + 1,
        t.ents() == m.ents().update(pi, t.ents()[pi]).push(t.ents()[m.count()]),
        t.ents()[pi].id == m.ents()[pi].id,
        t.ents()[pi].parent == m.ents()[pi].parent,
        t.ents()[pi].depth == m.ents()[pi].depth,
        t.ents()[pi].data == m.ents()[pi].data,
        t.ents()[pi].kids@ == m.ents()[pi].kids@.insert(fi, t.ents()[pi].kids@[fi]),
        t.ents()[pi].kids@[fi]@ == x,
        t.ents()[m.count()].id@ == x,
        pv(t.ents()[m.count()]) == m.ents()[pi].id@,
        t.ents()[m.count()].parent is Some,
        t.ents()[m.count()].depth == m.ents()[pi].depth + 1,
        t.ents()[m.count()].kids@.len() == 0,
        t.ents()[m.count()].data@.len() == 0,
        // observations already established
        forall|y: IdView| t.has(y) == (m.has(y) || y == x),
        forall|y: IdView| m.has(y) ==> t.idx_of(y) == m.idx_of(y),
        t.idx_of(x) == m.count(),
        t.kids_of(m.ents()[pi].id@) == m.kids_of(m.ents()[pi].id@).insert(fi, x),
        forall|y: IdView| m.has(y) && y != m.ents()[pi].id@ ==> t.kids_of(y) == m.kids_of(y),
    ensures
        t.wf(),
{
    reveal(Tree::wf);
    let n = m.count();
    let s = t.ents();
    let olds = m.ents();
    let p = olds[pi].id@;
    m.lemma_idx(pi);
    assert(forall|j: int| 0 <= j < n && j != pi ==> s[j] == olds[j]);
    assert(forall|j: int| 0 <= j < n ==> (#[trigger] s[j]).id == olds[j].id
        && s[j].parent == olds[j].parent && s[j].depth == olds[j].depth
        && s[j].data == olds[j].data);
    assert(forall|j: int| 0 <= j < n ==> (#[trigger] s[j]).id@ == olds[j].id@);
    assert(s[0].id@ == IdView::Root && s[0].parent is None && s[0].depth == 0);
    assert(forall|i: int|
        1 <= i < n + 1 ==> (#[trigger] s[i]).id@ is Id && s[i].id@ != IdView::Id(root_lit())
            && s[i].parent is Some);
    assert forall|i: int, j: int| 0 <= i < j < n + 1 implies (#[trigger] s[i].id@)
        != (#[trigger] s[j].id@) by {
        if j < n {
            assert(olds[i].id@ != olds[j].id@);
        } else {
            assert(s[j].id@ == x);
            if s[i].id@ == x {
                assert(m.has(x));
            }
        }
    }
    assert forall|i: int| 1 <= i < n + 1 implies {
        let e = #[trigger] s[i];
        &&& t.has(pv(e))
        &&& t.kids_of(pv(e)).contains(e.id@)
        &&& e.depth == t.depth_of(pv(e)) + 1
    } by {
        let e = s[i];
        if i < n {
            let eo = olds[i];
            assert(pv(e) == pv(eo));
            assert(m.has(pv(eo)) && m.kids_of(pv(eo)).contains(eo.id@)
                && eo.depth == m.depth_of(pv(eo)) + 1);
            assert(t.has(pv(e)));
            assert(t.ent(pv(e)).depth == m.ent(pv(eo)).depth);
            if pv(e) == p {
                let ko = m.kids_of(p);
                let j = choose|j: int| 0 <= j < ko.len() && ko[j] == eo.id@;
                if j < fi {
                    assert(t.kids_of(p)[j] == eo.id@);
                } else {
                    assert(t.kids_of(p)[j + 1] == eo.id@);
                }
                assert(t.kids_of(pv(e)).contains(e.id@));
            } else {
                assert(t.kids_of(pv(e)) == m.kids_of(pv(eo)));
            }
        } else {
            assert(t.has(p));
            assert(t.kids_of(p)[fi] == x);
            assert(t.kids_of(pv(e)).contains(e.id@));
            assert(t.ent(p).depth == m.ent(p).depth);
        }
    }
    assert forall|i: int, j: int| 0 <= i < n + 1 && 0 <= j < s[i].kids@.len() implies {
        let c = (#[trigger] s[i].kids@[j])@;
        &&& c is Id
        &&& t.has(c)
        &&& pv(t.ent(c)) == s[i].id@
        &&& t.ent(c).parent is Some
    } by {
        let c = s[i].kids@[j]@;
        if i == n {
            assert(false);
        } else if i == pi && j == fi {
            assert(c == x);
            assert(t.ent(x) == s[n]);
        } else {
            let jo: int = if i != pi || j < fi { j } else { j - 1 };
            assert(olds[i].kids@[jo] == s[i].kids@[j]);
            assert(m.has(c) && pv(m.ent(c)) == olds[i].id@ && m.ent(c).parent is Some
                && c is Id);
            assert(c != x);
            let ci = m.idx_of(c);
            assert(t.idx_of(c) == ci);
            assert(t.ent(c).parent == m.ent(c).parent);
            assert(pv(t.ent(c)) == pv(m.ent(c)));
        }
    }
    assert forall|i: int, j1: int, j2: int|
        0 <= i < n + 1 && 0 <= j1 < j2 < s[i].kids@.len() implies (#[trigger] s[i].kids@[j1])@
        != (#[trigger] s[i].kids@[j2])@ by {
        if i == pi {
            let v1 = s[i].kids@[j1]@;
            let v2 = s[i].kids@[j2]@;
            let ko = olds[pi].kids@;
            if j1 == fi {
                assert(v1 == x);
                assert(ko[j2 - 1]@ == v2);
                assert(m.has(v2));
            } else if j2 == fi {
                assert(v2 == x);
                let jo1: int = if j1 < fi { j1 } else { j1 - 1 };
                assert(ko[jo1]@ == v1);
                assert(m.has(v1));
            } else {
                let jo1: int = if j1 < fi { j1 } else { j1 - 1 };
                let jo2: int = if j2 < fi { j2 } else { j2 - 1 };
                assert(ko[jo1] == s[i].kids@[j1]);
                assert(ko[jo2] == s[i].kids@[j2]);
                assert(jo1 < jo2);
            }
        } else if i < n {
            assert(s[i].kids@[j1] == olds[i].kids@[j1]);
            assert(s[i].kids@[j2] == olds[i].kids@[j2]);
        }
    }
}

/// After the move surgery and depth repair, the tree is well-formed again
/// and the observations change exactly as `moved_to` says.
#[verifier::rlimit(100)]
proof fn lemma_moved(
    m: Tree,
    t: Tree,
    x: IdView,
    p: IdView,
    q: IdView,
    xi: int,
    qi: int,
    pi: int,
    pos: int,
    fi: int,
)
    requires
        m.wf(),
        m.has(x),
        x != IdView::Root,
        m.has(p),
        !m.reaches(p, x),
        xi == m.idx_of(x),
        q == pv(m.ents()[xi]),
        qi == m.idx_of(q),
        pi == m.idx_of(p),
        m.ents()[pi].id@ == p,
        m.ents()[qi].id@ == q,
        xi != qi,
        xi != pi,
        0 <= pos < m.ents()[qi].kids@.len(),
        m.kids_of(q)[pos] == x,
        0 <= fi <= (if qi == pi {
            m.ents()[pi].kids@.len() - 1
        } else {
            m.ents()[pi].kids@.len() as int
        }),
        t.count() == m.count(),
        forall|j: int|
            0 <= j < m.count() ==> (#[trigger] t.ents()[j]).id == m.ents()[j].id
                && t.ents()[j].data == m.ents()[j].data,
        forall|j: int|
            0 <= j < m.count() && j != xi ==> (#[trigger] t.ents()[j]).parent
                == m.ents()[j].parent,
        pv(t.ents()[xi]) == p,
        t.ents()[xi].parent is Some,
        (qi != pi ==> {
            &&& t.ents()[qi].kids@ == m.ents()[qi].kids@.remove(pos)
            &&& t.ents()[pi].kids@ == m.ents()[pi].kids@.insert(fi, t.ents()[pi].kids@[fi])
            &&& t.ents()[pi].kids@[fi]@ == x
        }),
        (qi == pi ==> {
            &&& t.ents()[pi].kids@ == m.ents()[pi].kids@.remove(pos).insert(
                fi,
                t.ents()[pi].kids@[fi],
            )
            &&& t.ents()[pi].kids@[fi]@ == x
        }),
        forall|j: int|
            0 <= j < m.count() && j != qi && j != pi ==> (#[trigger] t.ents()[j]).kids
                == m.ents()[j].kids,
        forall|j: int|
            0 <= j < m.count() ==> (#[trigger] t.ents()[j]).depth == (if m.reaches(
                m.ents()[j].id@,
                x,
            ) {
                m.depth_of(p) + 1 + (m.ents()[j].depth - m.depth_of(x))
            } else {
                m.ents()[j].depth as int
            }),
    ensures
        t.wf(),
        m.moved_to(t, x, p, fi),
{
    reveal(Tree::wf);
    let n = m.count();
    let s = t.ents();
    let olds = m.ents();
    m.lemma_idx(xi);
    m.lemma_idx(qi);
    m.lemma_idx(pi);
    assert(forall|j: int| 0 <= j < n ==> (#[trigger] s[j]).id@ == olds[j].id@);
    // presence and index stability
    assert forall|y: IdView| t.has(y) == m.has(y) by {
        if t.has(y) {
            let j = t.idx_of(y);
            assert(olds[j].id@ == y);
            assert(m.has(y));
        }
        if m.has(y) {
            let j = m.idx_of(y);
            assert(s[j].id@ == y);
            assert(t.has(y));
        }
    }
    assert forall|y: IdView| m.has(y) implies t.idx_of(y) == m.idx_of(y) by {
        let j = m.idx_of(y);
        assert(s[j].id@ == y);
        assert(t.has(y));
        let j2 = t.idx_of(y);
        assert(s[j2].id@ == y);
        if j < j2 {
            assert(olds[j].id@ != olds[j2].id@);
        } else if j2 < j {
            assert(olds[j2].id@ != olds[j].id@);
        }
    }
    // x is not its own parent, and sits only at `pos` under q
    assert(x != q) by {
        if x == q {
            assert(olds[xi].depth == m.depth_of(q) + 1);
        }
    }
    // sibling sequences
    lemma_map_view_remove(olds[qi].kids@, pos);
    lemma_remove_value_at(m.kids_of(q), x, pos);
    if qi != pi {
        lemma_map_view_insert(olds[pi].kids@, fi, t.ents()[pi].kids@[fi]);
        assert(t.kids_of(p) == m.kids_of(p).insert(fi, x));
        assert(!m.kids_of(p).contains(x)) by {
            if m.kids_of(p).contains(x) {
                let j = choose|j: int| 0 <= j < m.kids_of(p).len() && m.kids_of(p)[j] == x;
                assert(olds[pi].kids@[j]@ == x);
                assert(pv(m.ent(x)) == p);
            }
        }
        lemma_remove_value_absent(m.kids_of(p), x);
        assert(t.kids_of(q) == m.kids_of(q).remove_value(x));
    } else {
        assert(q == p);
        lemma_map_view_insert(olds[pi].kids@.remove(pos), fi, t.ents()[pi].kids@[fi]);
        assert(olds[pi].kids@.remove(pos).map_values(|k: NodeId| k@) == m.kids_of(
            p,
        ).remove_value(x));
        assert(t.kids_of(p) == m.kids_of(p).remove_value(x).insert(fi, x));
    }
    assert forall|y: IdView| m.has(y) && y != p implies t.kids_of(y) == m.kids_of(
        y,
    ).remove_value(x) by {
        let j = m.idx_of(y);
        assert(t.idx_of(y) == j);
        if j == qi {
            assert(y == q);
        } else {
            assert(s[j].kids == olds[j].kids);
            assert(!m.kids_of(y).contains(x)) by {
                if m.kids_of(y).contains(x) {
                    let j3 = choose|j3: int|
                        0 <= j3 < m.kids_of(y).len() && m.kids_of(y)[j3] == x;
                    assert(olds[j].kids@[j3]@ == x);
                    assert(pv(m.ent(x)) == y);
                }
            }
            lemma_remove_value_absent(m.kids_of(y), x);
        }
    }
    // parents and payloads
    assert(t.idx_of(x) == xi);
    assert(t.parent_of(x) == Option::Some(p));
    assert forall|y: IdView| m.has(y) && y != x implies t.parent_of(y) == m.parent_of(y) by {
        let j = m.idx_of(y);
        assert(t.idx_of(y) == j);
        assert(s[j].parent == olds[j].parent);
    }
    assert forall|y: IdView, k: Seq<char>| m.has(y) implies t.data_of(y, k) == m.data_of(
        y,
        k,
    ) by {
        let j = m.idx_of(y);
        assert(t.idx_of(y) == j);
        assert(s[j].data == olds[j].data);
    }
    lemma_moved_wf(m, t, x, p, q, xi, qi, pi, pos, fi);
}

/// The well-formedness half of `lemma_moved`.
#[verifier::rlimit(100)]
proof fn lemma_moved_wf(
    m: Tree,
    t: Tree,
    x: IdView,
    p: IdView,
    q: IdView,
    xi: int,
    qi: int,
    pi: int,
    pos: int,
    fi: int,
)
    requires
        m.wf(),
        m.has(x),
        x != IdView::Root,
        m.has(p),
        !m.reaches(p, x),
        xi == m.idx_of(x),
        q == pv(m.ents()[xi]),
        qi == m.idx_of(q),
        pi == m.idx_of(p),
        m.ents()[pi].id@ == p,
        m.ents()[qi].id@ == q,
        xi != qi,
        xi != pi,
        0 <= pos < m.ents()[qi].kids@.len(),
        m.kids_of(q)[pos] == x,
        m.ents()[qi].kids@[pos]@ == x,
        0 <= fi,
        t.count() == m.count(),
        forall|j: int|
            0 <= j < m.count() ==> (#[trigger] t.ents()[j]).id == m.ents()[j].id
                && t.ents()[j].data == m.ents()[j].data,
        forall|j: int|
            0 <= j < m.count() && j != xi ==> (#[trigger] t.ents()[j]).parent
                == m.ents()[j].parent,
        pv(t.ents()[xi]) == p,
        t.ents()[xi].parent is Some,
        forall|j: int|
            0 <= j < m.count() && j != qi && j != pi ==> (#[trigger] t.ents()[j]).kids
                == m.ents()[j].kids,
        forall|j: int|
            0 <= j < m.count() ==> (#[trigger] t.ents()[j]).depth == (if m.reaches(
                m.ents()[j].id@,
                x,
            ) {
                m.depth_of(p) + 1 + (m.ents()[j].depth - m.depth_of(x))
            } else {
                m.ents()[j].depth as int
            }),
        // observations already established
        forall|y: IdView| t.has(y) == m.has(y),
        forall|y: IdView| m.has(y) ==> t.idx_of(y) == m.idx_of(y),
        t.kids_of(p) == m.kids_of(p).remove_value(x).insert(fi, x),
        fi <= m.kids_of(p).remove_value(x).len(),
        forall|y: IdView|
            m.has(y) && y != p ==> t.kids_of(y) == m.kids_of(y).remove_value(x),
    ensures
        t.wf(),
{
    reveal(Tree::wf);
    let n = m.count();
    let s = t.ents();
    let olds = m.ents();
    m.lemma_idx(xi);
    assert(forall|j: int| 0 <= j < n ==> (#[trigger] s[j]).id@ == olds[j].id@);
    assert(xi != 0);
    assert(s[0].id@ == IdView::Root && s[0].parent is None && s[0].depth == 0);
    lemma_moved_wf_link(m, t, x, p, q, xi, qi, pi, pos, fi);
    lemma_moved_wf_kids(m, t, x, p, q, xi, qi, pi, pos, fi);
    lemma_moved_wf_dups(m, t, x, p, q, xi, qi, pi, pos, fi);
    assert(forall|i: int|
        1 <= i < n ==> (#[trigger] s[i]).id@ is Id && s[i].id@ != IdView::Id(root_lit())
            && s[i].parent is Some);
    assert forall|i: int, j: int| 0 <= i < j < n implies (#[trigger] s[i].id@)
        != (#[trigger] s[j].id@) by {
        assert(olds[i].id@ != olds[j].id@);
    }
}


/// One piece of the well-formedness proof behind `lemma_moved`.
#[verifier::rlimit(100)]
proof fn lemma_moved_wf_link(
    m: Tree,
    t: Tree,
    x: IdView,
    p: IdView,
    q: IdView,
    xi: int,
    qi: int,
    pi: int,
    pos: int,
    fi: int,
)
    requires
        m.wf(),
        m.has(x),
        x != IdView::Root,
        m.has(p),
        !m.reaches(p, x),
        xi == m.idx_of(x),
        q == pv(m.ents()[xi]),
        qi == m.idx_of(q),
        pi == m.idx_of(p),
        m.ents()[pi].id@ == p,
        m.ents()[qi].id@ == q,
        xi != qi,
        xi != pi,
        0 <= pos < m.ents()[qi].kids@.len(),
        m.kids_of(q)[pos] == x,
        m.ents()[qi].kids@[pos]@ == x,
        0 <= fi,
        t.count() == m.count(),
        forall|j: int|
            0 <= j < m.count() ==> (#[trigger] t.ents()[j]).id == m.ents()[j].id
                && t.ents()[j].data == m.ents()[j].data,
        forall|j: int|
            0 <= j < m.count() && j != xi ==> (#[trigger] t.ents()[j]).parent
                == m.ents()[j].parent,
        pv(t.ents()[xi]) == p,
        t.ents()[xi].parent is Some,
        forall|j: int|
            0 <= j < m.count() && j != qi && j != pi ==> (#[trigger] t.ents()[j]).kids
                == m.ents()[j].kids,
        forall|j: int|
            0 <= j < m.count() ==> (#[trigger] t.ents()[j]).depth == (if m.reaches(
                m.ents()[j].id@,
                x,
            ) {
                m.depth_of(p) + 1 + (m.ents()[j].depth - m.depth_of(x))
            } else {
                m.ents()[j].depth as int
            }),
        // observations already established
        forall|y: IdView| t.has(y) == m.has(y),
        forall|y: IdView| m.has(y) ==> t.idx_of(y) == m.idx_of(y),
        t.kids_of(p) == m.kids_of(p).remove_value(x).insert(fi, x),
        fi <= m.kids_of(p).remove_value(x).len(),
        forall|y: IdView|
            m.has(y) && y != p ==> t.kids_of(y) == m.kids_of(y).remove_value(x),
    ensures
        forall|i: int|
            1 <= i < t.count() ==> {
                let e = #[trigger] t.ents()[i];
                &&& t.has(pv(e))
                &&& t.kids_of(pv(e)).contains(e.id@)
                &&& e.depth == t.depth_of(pv(e)) + 1
            },
{
    reveal(Tree::wf);
    reveal(Tree::wf);
    let n = m.count();
    let s = t.ents();
    let olds = m.ents();
    m.lemma_idx(xi);
    m.lemma_idx(qi);
    m.lemma_idx(pi);
    assert(forall|j: int| 0 <= j < n ==> (#[trigger] s[j]).id@ == olds[j].id@);
    assert(xi != 0);
    m.lemma_reaches_facts(x, x);
    assert(t.idx_of(p) == pi && t.idx_of(q) == qi && t.idx_of(x) == xi);
    assert forall|a: int, b: int|
        0 <= a < b < m.kids_of(p).len() implies m.kids_of(p)[a] != m.kids_of(p)[b] by {
        assert(olds[pi].kids@[a]@ != olds[pi].kids@[b]@);
    }
    assert forall|a: int, b: int|
        0 <= a < b < m.kids_of(q).len() implies m.kids_of(q)[a] != m.kids_of(q)[b] by {
        assert(olds[qi].kids@[a]@ != olds[qi].kids@[b]@);
    }
    lemma_remove_value_at(m.kids_of(q), x, pos);
    m.kids_of(q).remove_ensures(pos);
    if q != p {
        assert(!m.kids_of(p).contains(x)) by {
            if m.kids_of(p).contains(x) {
                let jx = choose|jx: int| 0 <= jx < m.kids_of(p).len() && m.kids_of(p)[jx] == x;
                assert(olds[pi].kids@[jx]@ == x);
                assert(pv(m.ent(x)) == p);
            }
        }
        lemma_remove_value_absent(m.kids_of(p), x);
    }
    // flags move with parent steps
    assert forall|j: int| 1 <= j < n && j != xi implies m.reaches(olds[j].id@, x) == m.reaches(
        pv(olds[j]),
        x,
    ) by {
        m.lemma_idx(j);
        m.lemma_reaches_unfold(olds[j].id@, x);
    }
    assert(!m.reaches(olds[0].id@, x));
    assert(s[0].id@ == IdView::Root && s[0].parent is None && s[0].depth == 0);
    assert forall|i: int| 1 <= i < n implies {
        let e = #[trigger] s[i];
        &&& t.has(pv(e))
        &&& t.kids_of(pv(e)).contains(e.id@)
        &&& e.depth == t.depth_of(pv(e)) + 1
    } by {
        let e = s[i];
        let eo = olds[i];
        m.lemma_idx(i);
        if i == xi {
            // the moved node itself: now under p
            assert(pv(e) == p);
            assert(t.has(p));
            assert(t.idx_of(p) == pi);
            assert(t.kids_of(p)[fi] == x);
            assert(t.kids_of(p).contains(e.id@));
            assert(m.reaches(x, x));
            assert(e.depth == m.depth_of(p) + 1);
            assert(!m.reaches(p, x));
            assert(t.ent(p).depth == m.ents()[pi].depth);
            assert(t.depth_of(pv(e)) == m.depth_of(p));
        } else {
            let w = pv(eo);
            assert(pv(e) == w);
            assert(m.has(w) && m.kids_of(w).contains(eo.id@) && eo.depth == m.depth_of(w) + 1);
            assert(t.has(w));
            // the child stays in its parent's (possibly shortened) list
            assert(eo.id@ != x) by {
                if eo.id@ == x {
                    assert(i == xi);
                }
            }
            if w == p {
                let ko = m.kids_of(p).remove_value(x);
                assert(m.kids_of(p).contains(eo.id@));
                let j = choose|j: int| 0 <= j < m.kids_of(p).len() && m.kids_of(p)[j] == eo.id@;
                if q == p {
                    if j < pos {
                        assert(ko[j] == eo.id@);
                    } else {
                        assert(j != pos);
                        assert(ko[j - 1] == eo.id@);
                    }
                } else {
                    assert(ko == m.kids_of(p));
                }
                assert(ko.contains(eo.id@));
                let j2 = choose|j2: int| 0 <= j2 < ko.len() && ko[j2] == eo.id@;
                if j2 < fi {
                    assert(t.kids_of(p)[j2] == eo.id@);
                } else {
                    assert(t.kids_of(p)[j2 + 1] == eo.id@);
                }
                assert(t.kids_of(p).contains(eo.id@));
            } else {
                assert(t.kids_of(w) == m.kids_of(w).remove_value(x));
                let ko = m.kids_of(w);
                let j = choose|j: int| 0 <= j < ko.len() && ko[j] == eo.id@;
                if ko.contains(x) {
                    let jx = choose|jx: int| 0 <= jx < ko.len() && ko[jx] == x;
                    ko.index_of_first_ensures(x);
                    let jf = ko.index_of_first(x).unwrap();
                    assert(jf == jx) by {
                        if jf < jx {
                            assert(ko[jf] != ko[jx]);
                        } else if jx < jf {
                            assert(ko[jx] != ko[jf]);
                        }
                    }
                    assert(j != jx);
                    if j < jx {
                        assert(ko.remove(jx)[j] == eo.id@);
                    } else {
                        assert(ko.remove(jx)[j - 1] == eo.id@);
                    }
                    assert(t.kids_of(w).contains(eo.id@));
                } else {
                    lemma_remove_value_absent(ko, x);
                    assert(t.kids_of(w).contains(eo.id@));
                }
            }
            // depth stays one below the parent
            let wi = m.idx_of(w);
            assert(t.idx_of(w) == wi);
            if m.reaches(eo.id@, x) {
                assert(m.reaches(pv(eo), x));
                m.lemma_reaches_facts(w, x);
                assert(e.depth == m.depth_of(p) + 1 + (eo.depth - m.depth_of(x)));
                assert(s[wi].depth == m.depth_of(p) + 1 + (olds[wi].depth - m.depth_of(x)));
                assert(t.depth_of(w) == s[wi].depth);
            } else {
                assert(!m.reaches(pv(eo), x));
                assert(e.depth == eo.depth);
                assert(s[wi].depth == olds[wi].depth);
            }
        }
    }
}

/// One piece of the well-formedness proof behind `lemma_moved`.
#[verifier::rlimit(100)]
proof fn lemma_moved_wf_kids(
    m: Tree,
    t: Tree,
    x: IdView,
    p: IdView,
    q: IdView,
    xi: int,
    qi: int,
    pi: int,
    pos: int,
    fi: int,
)
    requires
        m.wf(),
        m.has(x),
        x != IdView::Root,
        m.has(p),
        !m.reaches(p, x),
        xi == m.idx_of(x),
        q == pv(m.ents()[xi]),
        qi == m.idx_of(q),
        pi == m.idx_of(p),
        m.ents()[pi].id@ == p,
        m.ents()[qi].id@ == q,
        xi != qi,
        xi != pi,
        0 <= pos < m.ents()[qi].kids@.len(),
        m.kids_of(q)[pos] == x,
        m.ents()[qi].kids@[pos]@ == x,
        0 <= fi,
        t.count() == m.count(),
        forall|j: int|
            0 <= j < m.count() ==> (#[trigger] t.ents()[j]).id == m.ents()[j].id
                && t.ents()[j].data == m.ents()[j].data,
        forall|j: int|
            0 <= j < m.count() && j != xi ==> (#[trigger] t.ents()[j]).parent
                == m.ents()[j].parent,
        pv(t.ents()[xi]) == p,
        t.ents()[xi].parent is Some,
        forall|j: int|
            0 <= j < m.count() && j != qi && j != pi ==> (#[trigger] t.ents()[j]).kids
                == m.ents()[j].kids,
        forall|j: int|
            0 <= j < m.count() ==> (#[trigger] t.ents()[j]).depth == (if m.reaches(
                m.ents()[j].id@,
                x,
            ) {
                m.depth_of(p) + 1 + (m.ents()[j].depth - m.depth_of(x))
            } else {
                m.ents()[j].depth as int
            }),
        // observations already established
        forall|y: IdView| t.has(y) == m.has(y),
        forall|y: IdView| m.has(y) ==> t.idx_of(y) == m.idx_of(y),
        t.kids_of(p) == m.kids_of(p).remove_value(x).insert(fi, x),
        fi <= m.kids_of(p).remove_value(x).len(),
        forall|y: IdView|
            m.has(y) && y != p ==> t.kids_of(y) == m.kids_of(y).remove_value(x),
    ensures
        forall|i: int, j: int|
            0 <= i < t.count() && 0 <= j < t.ents()[i].kids@.len() ==> {
                let c = (#[trigger] t.ents()[i].kids@[j])@;
                &&& c is Id
                &&& t.has(c)
                &&& pv(t.ent(c)) == t.ents()[i].id@
                &&& t.ent(c).parent is Some
            },
{
    reveal(Tree::wf);
    reveal(Tree::wf);
    let n = m.count();
    let s = t.ents();
    let olds = m.ents();
    m.lemma_idx(xi);
    m.lemma_idx(qi);
    m.lemma_idx(pi);
    assert(forall|j: int| 0 <= j < n ==> (#[trigger] s[j]).id@ == olds[j].id@);
    assert(xi != 0);
    m.lemma_reaches_facts(x, x);
    assert(t.idx_of(p) == pi && t.idx_of(q) == qi && t.idx_of(x) == xi);
    assert forall|a: int, b: int|
        0 <= a < b < m.kids_of(p).len() implies m.kids_of(p)[a] != m.kids_of(p)[b] by {
        assert(olds[pi].kids@[a]@ != olds[pi].kids@[b]@);
    }
    assert forall|a: int, b: int|
        0 <= a < b < m.kids_of(q).len() implies m.kids_of(q)[a] != m.kids_of(q)[b] by {
        assert(olds[qi].kids@[a]@ != olds[qi].kids@[b]@);
    }
    lemma_remove_value_at(m.kids_of(q), x, pos);
    m.kids_of(q).remove_ensures(pos);
    if q != p {
        assert(!m.kids_of(p).contains(x)) by {
            if m.kids_of(p).contains(x) {
                let jx = choose|jx: int| 0 <= jx < m.kids_of(p).len() && m.kids_of(p)[jx] == x;
                assert(olds[pi].kids@[jx]@ == x);
                assert(pv(m.ent(x)) == p);
            }
        }
        lemma_remove_value_absent(m.kids_of(p), x);
    }
    // listed children are present, non-root, and point back
    assert forall|i: int, j: int| 0 <= i < n && 0 <= j < s[i].kids@.len() implies {
        let c = (#[trigger] s[i].kids@[j])@;
        &&& c is Id
        &&& t.has(c)
        &&& pv(t.ent(c)) == s[i].id@
        &&& t.ent(c).parent is Some
    } by {
        let c = s[i].kids@[j]@;
        // find the old position of this child
        if i == pi && s[i].kids@[j]@ == x && (qi == pi || (qi != pi && j == fi)) {
        }
        if i == pi {
            if j == fi && s[i].kids@[j]@ == x {
                assert(c == x);
                assert(t.idx_of(x) == xi);
                assert(pv(t.ents()[xi]) == p);
            } else {
                // an old child of p
                assert(t.kids_of(p)[j] == c);
                assert(t.kids_of(p) == m.kids_of(p).remove_value(x).insert(fi, x));
                let ko = m.kids_of(p).remove_value(x);
                ko.insert_ensures(fi, x);
                let jo: int = if j < fi { j } else { j - 1 };
                if j == fi {
                    assert(t.kids_of(p)[fi] == x);
                    assert(c == x);
                    assert(t.idx_of(x) == xi);
                    assert(pv(t.ents()[xi]) == p);
                } else {
                    assert(ko[jo] == c);
                    assert(m.kids_of(p).remove_value(x).len() <= m.kids_of(p).len());
                    assert(m.kids_of(p).contains(c)) by {
                        if q == p {
                            m.kids_of(p).index_of_first_ensures(x);
                            let jf = m.kids_of(p).index_of_first(x).unwrap();
                            if jo < jf {
                                assert(m.kids_of(p)[jo] == c);
                            } else {
                                assert(m.kids_of(p)[jo + 1] == c);
                            }
                        } else {
                            assert(ko == m.kids_of(p));
                        }
                    }
                    let jc = choose|jc: int|
                        0 <= jc < m.kids_of(p).len() && m.kids_of(p)[jc] == c;
                    assert(olds[pi].kids@[jc]@ == c);
                    assert(c is Id && m.has(c) && pv(m.ent(c)) == p && m.ent(c).parent is Some);
                    assert(c != x) by {
                        if c == x {
                            assert(pv(m.ent(x)) == p);
                            assert(q == p);
                        }
                    }
                    let ci = m.idx_of(c);
                    assert(t.idx_of(c) == ci);
                    assert(ci != xi);
                    assert(s[ci].parent == olds[ci].parent);
                    assert(pv(t.ent(c)) == pv(m.ent(c)));
                }
            }
        } else if i == qi {
            // a child of q after the removal
            assert(t.kids_of(q)[j] == c);
            assert(t.kids_of(q) == m.kids_of(q).remove_value(x));
            lemma_remove_value_at(m.kids_of(q), x, pos);
            let jo: int = if j < pos { j } else { j + 1 };
            assert(m.kids_of(q)[jo] == c);
            assert(olds[qi].kids@[jo]@ == c);
            assert(c is Id && m.has(c) && pv(m.ent(c)) == q && m.ent(c).parent is Some);
            assert(c != x) by {
                if jo != pos {
                    assert(m.kids_of(q)[jo] != m.kids_of(q)[pos]);
                }
            }
            let ci = m.idx_of(c);
            assert(t.idx_of(c) == ci);
            assert(ci != xi);
            assert(s[ci].parent == olds[ci].parent);
            assert(pv(t.ent(c)) == pv(m.ent(c)));
        } else {
            assert(s[i].kids@[j] == olds[i].kids@[j]);
            assert(c is Id && m.has(c) && pv(m.ent(c)) == olds[i].id@
                && m.ent(c).parent is Some);
            assert(c != x) by {
                if c == x {
                    assert(pv(m.ent(x)) == olds[i].id@);
                    assert(m.idx_of(q) == qi);
                    assert(i == qi);
                }
            }
            let ci = m.idx_of(c);
            assert(t.idx_of(c) == ci);
            assert(ci != xi);
            assert(s[ci].parent == olds[ci].parent);
            assert(pv(t.ent(c)) == pv(m.ent(c)));
        }
    }
}

/// One piece of the well-formedness proof behind `lemma_moved`.
#[verifier::rlimit(100)]
proof fn lemma_moved_wf_dups(
    m: Tree,
    t: Tree,
    x: IdView,
    p: IdView,
    q: IdView,
    xi: int,
    qi: int,
    pi: int,
    pos: int,
    fi: int,
)
    requires
        m.wf(),
        m.has(x),
        x != IdView::Root,
        m.has(p),
        !m.reaches(p, x),
        xi == m.idx_of(x),
        q == pv(m.ents()[xi]),
        qi == m.idx_of(q),
        pi == m.idx_of(p),
        m.ents()[pi].id@ == p,
        m.ents()[qi].id@ == q,
        xi != qi,
        xi != pi,
        0 <= pos < m.ents()[qi].kids@.len(),
        m.kids_of(q)[pos] == x,
        m.ents()[qi].kids@[pos]@ == x,
        0 <= fi,
        t.count() == m.count(),
        forall|j: int|
            0 <= j < m.count() ==> (#[trigger] t.ents()[j]).id == m.ents()[j].id
                && t.ents()[j].data == m.ents()[j].data,
        forall|j: int|
            0 <= j < m.count() && j != xi ==> (#[trigger] t.ents()[j]).parent
                == m.ents()[j].parent,
        pv(t.ents()[xi]) == p,
        t.ents()[xi].parent is Some,
        forall|j: int|
            0 <= j < m.count() && j != qi && j != pi ==> (#[trigger] t.ents()[j]).kids
                == m.ents()[j].kids,
        forall|j: int|
            0 <= j < m.count() ==> (#[trigger] t.ents()[j]).depth == (if m.reaches(
                m.ents()[j].id@,
                x,
            ) {
                m.depth_of(p) + 1 + (m.ents()[j].depth - m.depth_of(x))
            } else {
                m.ents()[j].depth as int
            }),
        // observations already established
        forall|y: IdView| t.has(y) == m.has(y),
        forall|y: IdView| m.has(y) ==> t.idx_of(y) == m.idx_of(y),
        t.kids_of(p) == m.kids_of(p).remove_value(x).insert(fi, x),
        fi <= m.kids_of(p).remove_value(x).len(),
        forall|y: IdView|
            m.has(y) && y != p ==> t.kids_of(y) == m.kids_of(y).remove_value(x),
    ensures
        forall|i: int, j1: int, j2: int|
            0 <= i < t.count() && 0 <= j1 < j2 < t.ents()[i].kids@.len()
                ==> (#[trigger] t.ents()[i].kids@[j1])@ != (#[trigger] t.ents()[i].kids@[j2])@,
{
    reveal(Tree::wf);
    reveal(Tree::wf);
    let n = m.count();
    let s = t.ents();
    let olds = m.ents();
    m.lemma_idx(xi);
    m.lemma_idx(qi);
    m.lemma_idx(pi);
    assert(forall|j: int| 0 <= j < n ==> (#[trigger] s[j]).id@ == olds[j].id@);
    assert(xi != 0);
    m.lemma_reaches_facts(x, x);
    assert(t.idx_of(p) == pi && t.idx_of(q) == qi && t.idx_of(x) == xi);
    assert forall|a: int, b: int|
        0 <= a < b < m.kids_of(p).len() implies m.kids_of(p)[a] != m.kids_of(p)[b] by {
        assert(olds[pi].kids@[a]@ != olds[pi].kids@[b]@);
    }
    assert forall|a: int, b: int|
        0 <= a < b < m.kids_of(q).len() implies m.kids_of(q)[a] != m.kids_of(q)[b] by {
        assert(olds[qi].kids@[a]@ != olds[qi].kids@[b]@);
    }
    lemma_remove_value_at(m.kids_of(q), x, pos);
    m.kids_of(q).remove_ensures(pos);
    if q != p {
        assert(!m.kids_of(p).contains(x)) by {
            if m.kids_of(p).contains(x) {
                let jx = choose|jx: int| 0 <= jx < m.kids_of(p).len() && m.kids_of(p)[jx] == x;
                assert(olds[pi].kids@[jx]@ == x);
                assert(pv(m.ent(x)) == p);
            }
        }
        lemma_remove_value_absent(m.kids_of(p), x);
    }
    // no child is listed twice
    assert forall|i: int, j1: int, j2: int|
        0 <= i < n && 0 <= j1 < j2 < s[i].kids@.len() implies (#[trigger] s[i].kids@[j1])@
        != (#[trigger] s[i].kids@[j2])@ by {
        let kv = s[i].kids@.map_values(|k: NodeId| k@);
        assert(kv[j1] == s[i].kids@[j1]@ && kv[j2] == s[i].kids@[j2]@);
        if i == pi {
            assert(kv == t.kids_of(p)) by {
                assert(t.idx_of(p) == pi);
            }
            let ko = m.kids_of(p).remove_value(x);
            assert(ko.no_duplicates() && !ko.contains(x)) by {
                assert(m.kids_of(p).no_duplicates()) by {
                    assert(forall|a: int, b: int|
                        0 <= a < b < m.kids_of(p).len() ==> m.kids_of(p)[a] != m.kids_of(p)[b]);
                }
                if q == p {
                    m.kids_of(p).index_of_first_ensures(x);
                } else {
                    lemma_remove_value_absent(m.kids_of(p), x);
                    if ko.contains(x) {
                        let ja = choose|ja: int| 0 <= ja < ko.len() && ko[ja] == x;
                        assert(olds[pi].kids@[ja]@ == x);
                        assert(pv(m.ent(x)) == p);
                        assert(q == p);
                    }
                }
            }
            assert(kv.no_duplicates()) by {
                ko.insert_ensures(fi, x);
                assert(kv == ko.insert(fi, x));
                assert forall|a: int, b: int| 0 <= a < b < kv.len() implies kv[a] != kv[b] by {
                    if a == fi {
                        assert(kv[a] == x && kv[b] == ko[b - 1]);
                    } else if b == fi {
                        assert(kv[b] == x);
                        assert(kv[a] == ko[a]);
                    } else {
                        let a2: int = if a < fi { a } else { a - 1 };
                        let b2: int = if b < fi { b } else { b - 1 };
                        assert(kv[a] == ko[a2] && kv[b] == ko[b2]);
                        assert(a2 < b2);
                    }
                }
            }
        } else if i == qi {
            assert(kv == t.kids_of(q)) by {
                assert(t.idx_of(q) == qi);
            }
            assert(kv == m.kids_of(q).remove(pos));
            let j1o: int = if j1 < pos { j1 } else { j1 + 1 };
            let j2o: int = if j2 < pos { j2 } else { j2 + 1 };
            assert(kv[j1] == m.kids_of(q)[j1o] && kv[j2] == m.kids_of(q)[j2o]);
            assert(olds[qi].kids@[j1o]@ != olds[qi].kids@[j2o]@);
        } else {
            assert(s[i].kids@[j1] == olds[i].kids@[j1]);
            assert(s[i].kids@[j2] == olds[i].kids@[j2]);
        }
    }
}

/// Reachability along parent links is transitive.
proof fn lemma_reaches_trans(t: Tree, a: IdView, b: IdView, c: IdView)
    requires
        t.wf(),
        t.has(a),
        t.reaches(a, b),
        t.reaches(b, c),
    ensures
        t.reaches(a, c),
    decreases t.depth_of(a),
{
    if a != b {
        reveal(Tree::wf);
        let i = t.idx_of(a);
        assert(t.ents()[i].id@ == a);
        assert(a != IdView::Root);
        let p = pv(t.ent(a));
        lemma_reaches_trans(t, p, b, c);
        t.lemma_reaches_unfold(a, c);
    }
}

/// Everything in a node's ancestor set is reached by the node.
proof fn lemma_up_elem(t: Tree, e: IdView, w: IdView)
    requires
        t.wf(),
        t.has(e),
        t.up_set(e).contains(w),
    ensures
        t.reaches(e, w),
    decreases t.depth_of(e),
{
    reveal(Tree::wf);
    let i = t.idx_of(e);
    assert(t.ents()[i].id@ == e);
    if e == IdView::Root {
        assert(t.up_set(e) =~= Set::<IdView>::empty());
    } else {
        let p = pv(t.ent(e));
        assert(t.has(p) && t.depth_of(p) < t.depth_of(e));
        if w == e {
        } else {
            assert(t.up_set(e) == t.up_set(p).insert(e));
            assert(t.up_set(p).contains(w));
            lemma_up_elem(t, p, w);
            t.lemma_reaches_unfold(e, w);
        }
    }
}

/// Ancestors are totally ordered: anything above a node that reaches `x`
/// lies either above `x` or on the segment that still reaches `x`.
proof fn lemma_up_total(t: Tree, e: IdView, x: IdView, w: IdView)
    requires
        t.wf(),
        t.has(e),
        t.reaches(e, x),
        t.up_set(e).contains(w),
    ensures
        t.up_set(x).contains(w) || t.reaches(w, x),
    decreases t.depth_of(e),
{
    reveal(Tree::wf);
    if e == x {
    } else {
        let i = t.idx_of(e);
        assert(t.ents()[i].id@ == e);
        assert(e != IdView::Root);
        let p = pv(t.ent(e));
        assert(t.has(p) && t.depth_of(p) < t.depth_of(e));
        assert(t.up_set(e) == t.up_set(p).insert(e));
        t.lemma_reaches_unfold(e, x);
        if w == e {
            assert(t.reaches(w, x));
        } else {
            lemma_up_total(t, p, x, w);
        }
    }
}

/// When a node that reaches `x` is re-rooted under a new parent `p` that
/// does not reach `x`, its new depth still stays below the node count:
/// the chain through the new parent and the chain down to `x` are made of
/// distinct nodes.
proof fn lemma_move_bound(t: Tree, ej: IdView, x: IdView, p: IdView)
    requires
        t.wf(),
        t.has(ej),
        t.has(x),
        t.has(p),
        x != IdView::Root,
        t.reaches(ej, x),
        !t.reaches(p, x),
    ensures
        t.depth_of(x) <= t.depth_of(ej),
        t.depth_of(p) + 1 + (t.depth_of(ej) - t.depth_of(x)) < t.count(),
{
    reveal(Tree::wf);
    broadcast use vstd::set_lib::lemma_set_intersect_union_lens;

    t.lemma_reaches_facts(ej, x);
    let a = t.up_set(ej);
    let b = t.up_set(p);
    t.lemma_up_set(ej);
    t.lemma_up_set(p);
    t.lemma_up_set(x);
    // the overlap of the two chains sits strictly above x
    assert forall|w: IdView| a.intersect(b).contains(w) implies t.up_set(x).remove(
        x,
    ).contains(w) by {
        lemma_up_total(t, ej, x, w);
        lemma_up_elem(t, p, w);
        if t.reaches(w, x) {
            t.lemma_reaches_facts(p, w);
            lemma_reaches_trans(t, p, w, x);
        }
        assert(t.up_set(x).contains(w));
        if w == x {
            lemma_reaches_trans(t, p, w, x);
        }
    }
    assert(t.up_set(x).contains(x)) by {
        let i = t.idx_of(x);
        assert(t.ents()[i].id@ == x);
        if i == 0 {
            assert(t.ents()[0].id@ == IdView::Root);
        }
        assert(t.has(pv(t.ent(x))) && t.depth_of(pv(t.ent(x))) < t.depth_of(x));
        assert(t.up_set(x) == t.up_set(pv(t.ent(x))).insert(x));
    }
    lemma_len_subset(a.intersect(b), t.up_set(x).remove(x));
    assert(a.intersect(b).len() <= t.depth_of(x) - 1);
    // the union of the chains, with x, fits among the non-root nodes
    let ids = t.ents().map_values(|e: Entry| e.id@);
    assert(ids.no_duplicates()) by {
        assert(forall|i: int, j: int| 0 <= i < j < ids.len() ==> ids[i] != ids[j]);
    }
    ids.unique_seq_to_set();
    let rest = ids.to_set().remove(IdView::Root);
    assert(ids[0] == IdView::Root);
    assert(ids.to_set().contains(IdView::Root));
    assert(rest.len() == t.count() - 1);
    let u = a.union(b);
    assert(u.subset_of(rest)) by {
        assert forall|w: IdView| u.contains(w) implies rest.contains(w) by {
            if a.contains(w) {
                assert(t.has(w) && w != IdView::Root);
            } else {
                assert(b.contains(w));
                assert(t.has(w) && w != IdView::Root);
            }
            let j = t.idx_of(w);
            assert(t.ents()[j].id@ == w);
            assert(ids[j] == w);
            assert(ids.to_set().contains(w));
        }
    }
    lemma_len_subset(u, rest);
    assert(u.len() + a.intersect(b).len() == a.len() + b.len());
}

/// Exactly one node of a well-formed tree has no parent: the root. The
/// root is always present, `parent_of(Root)` is absent, and every other
/// present node has a present parent.
pub proof fn lemma_root_is_sole_orphan(t: Tree)
    requires
        t.wf(),
    ensures
        t.has(IdView::Root),
        t.parent_of(IdView::Root) is None,
        forall|x: IdView|
            t.has(x) && x != IdView::Root ==> (#[trigger] t.parent_of(x)) is Some,
{
    reveal(Tree::wf);
    t.lemma_idx(0);
    assert forall|x: IdView| t.has(x) && x != IdView::Root implies (#[trigger] t.parent_of(
        x,
    )) is Some by {
        let i = t.idx_of(x);
        assert(t.ents()[i].id@ == x);
        if i == 0 {
            assert(x == IdView::Root);
        }
        assert(t.ents()[i].parent is Some);
    }
}

/// Depth law: the root sits at depth 0, and every other present node sits
/// one level below its (present) parent.
pub proof fn lemma_depth_law(t: Tree, x: IdView)
    requires
        t.wf(),
        t.has(x),
    ensures
        x == IdView::Root ==> t.depth_of(x) == 0,
        x != IdView::Root ==> (match t.parent_of(x) {
            Option::Some(p) => t.has(p) && t.depth_of(x) == t.depth_of(p) + 1,
            Option::None => false,
        }),
{
    reveal(Tree::wf);
    let i = t.idx_of(x);
    assert(t.ents()[i].id@ == x);
    t.lemma_idx(0);
    if x == IdView::Root {
        if i != 0 {
            assert(t.ents()[i].id@ is Id);
        }
    } else {
        if i == 0 {
            assert(x == IdView::Root);
        }
        let e = t.ents()[i];
        assert(t.has(pv(e)) && e.depth == t.depth_of(pv(e)) + 1);
    }
}

/// After removing a childless non-root entry and unlisting it from its
/// parent, the tree is well-formed again and only that parent's child
/// list has changed.
#[verifier::rlimit(100)]
proof fn lemma_leaf_removed(m: Tree, t: Tree, x: IdView, q: IdView, xi: int, qi: int, pos: int)
    requires
        m.wf(),
        m.has(x),
        x != IdView::Root,
        m.kids_of(x) == Seq::<IdView>::empty(),
        xi == m.idx_of(x),
        q == pv(m.ents()[xi]),
        qi == m.idx_of(q),
        m.ents()[qi].id@ == q,
        xi != qi,
        0 <= pos < m.ents()[qi].kids@.len(),
        m.ents()[qi].kids@[pos]@ == x,
        t.count() == m.count() - 1,
        ({
            let qj: int = if qi < xi {
                qi
            } else {
                qi - 1
            };
            &&& forall|j: int|
                0 <= j < t.count() && j != qj ==> (#[trigger] t.ents()[j]) == m.ents()[if j < xi {
                    j
                } else {
                    j + 1
                }]
            &&& t.ents()[qj].id == m.ents()[qi].id
            &&& t.ents()[qj].parent == m.ents()[qi].parent
            &&& t.ents()[qj].depth == m.ents()[qi].depth
            &&& t.ents()[qj].data == m.ents()[qi].data
            &&& t.ents()[qj].kids@ == m.ents()[qi].kids@.remove(pos)
        }),
    ensures
        t.wf(),
        forall|y: IdView| t.has(y) == (m.has(y) && y != x),
        t.kids_of(q) == m.kids_of(q).remove_value(x),
        forall|y: IdView| t.has(y) && y != q ==> t.kids_of(y) == m.kids_of(y),
        forall|y: IdView|
            t.has(y) ==> t.parent_of(y) == m.parent_of(y) && t.depth_of(y) == m.depth_of(y),
        forall|y: IdView, k: Seq<char>| t.has(y) ==> t.data_of(y, k) == m.data_of(y, k),
{
    reveal(Tree::wf);
    let n = m.count();
    let s = t.ents();
    let olds = m.ents();
    let qj: int = if qi < xi {
        qi
    } else {
        qi - 1
    };
    m.lemma_idx(xi);
    m.lemma_idx(qi);
    assert(xi != 0);
    // the old position of each surviving entry
    let back = |j: int| if j < xi { j } else { j + 1 };
    assert(forall|j: int| 0 <= j < n - 1 ==> #[trigger] back(j) == (if j < xi { j } else { j + 1 }));
    assert forall|j: int| 0 <= j < n - 1 implies (#[trigger] s[j]).id == olds[back(j)].id
        && s[j].parent == olds[back(j)].parent && s[j].depth == olds[back(j)].depth
        && s[j].data == olds[back(j)].data && (j != qj ==> s[j].kids == olds[back(j)].kids) by {
        if j == qj {
            assert(back(qj) == qi);
        }
    }
    // presence: everything but x survives
    assert forall|y: IdView| t.has(y) == (m.has(y) && y != x) by {
        if t.has(y) {
            let j = t.idx_of(y);
            assert(s[j].id@ == y);
            assert(olds[back(j)].id@ == y);
            assert(m.has(y));
            if y == x {
                assert(back(j) != xi && olds[back(j)].id@ == olds[xi].id@);
                if back(j) < xi {
                    assert(olds[back(j)].id@ != olds[xi].id@);
                } else {
                    assert(olds[xi].id@ != olds[back(j)].id@);
                }
            }
        }
        if m.has(y) && y != x {
            let j = m.idx_of(y);
            assert(olds[j].id@ == y);
            assert(j != xi);
            let jn: int = if j < xi {
                j
            } else {
                j - 1
            };
            assert(back(jn) == j);
            assert(s[jn].id@ == y);
            assert(t.has(y));
        }
    }
    // index correspondence for survivors
    assert forall|y: IdView| m.has(y) && y != x implies 0 <= t.idx_of(y) < n - 1 && back(
        t.idx_of(y),
    ) == m.idx_of(y) by {
        let j = m.idx_of(y);
        let jn: int = if j < xi {
            j
        } else {
            j - 1
        };
        assert(back(jn) == j && s[jn].id@ == y);
        assert(t.has(y));
        let j2 = t.idx_of(y);
        assert(s[j2].id@ == y);
        assert(olds[back(j2)].id@ == y);
        if back(j2) < j {
            assert(olds[back(j2)].id@ != olds[j].id@);
        } else if j < back(j2) {
            assert(olds[j].id@ != olds[back(j2)].id@);
        }
    }
    assert(t.idx_of(q) == qj) by {
        assert(back(qj) == qi);
    }
    // the parent's list loses exactly x
    assert forall|a: int, b: int|
        0 <= a < b < m.kids_of(q).len() implies m.kids_of(q)[a] != m.kids_of(q)[b] by {
        assert(olds[qi].kids@[a]@ != olds[qi].kids@[b]@);
    }
    assert(m.kids_of(q)[pos] == x);
    lemma_remove_value_at(m.kids_of(q), x, pos);
    lemma_map_view_remove(olds[qi].kids@, pos);
    assert(t.kids_of(q) == m.kids_of(q).remove_value(x));
    // frames
    assert forall|y: IdView| t.has(y) && y != q implies t.kids_of(y) == m.kids_of(y) by {
        let j = t.idx_of(y);
        assert(j != qj);
        assert(s[j].kids == olds[back(j)].kids);
        assert(m.idx_of(y) == back(j));
    }
    assert forall|y: IdView| t.has(y) implies t.parent_of(y) == m.parent_of(y) && t.depth_of(y)
        == m.depth_of(y) by {
        let j = t.idx_of(y);
        assert(m.idx_of(y) == back(j));
    }
    assert forall|y: IdView, k: Seq<char>| t.has(y) implies t.data_of(y, k) == m.data_of(
        y,
        k,
    ) by {
        let j = t.idx_of(y);
        assert(m.idx_of(y) == back(j));
    }
    // nothing had x as its parent: x was childless
    assert forall|j: int| 0 <= j < n && j != xi && olds[j].parent is Some implies pv(olds[j])
        != x by {
        if pv(olds[j]) == x {
            m.lemma_idx(j);
            assert(m.kids_of(pv(olds[j])).contains(olds[j].id@));
        }
    }
    // well-formedness of the result
    assert(s[0].id@ == IdView::Root && s[0].parent is None && s[0].depth == 0) by {
        assert(back(0) == 0);
    }
    assert(forall|i: int|
        1 <= i < n - 1 ==> (#[trigger] s[i]).id@ is Id && s[i].id@ != IdView::Id(root_lit())
            && s[i].parent is Some);
    assert forall|i: int, j: int| 0 <= i < j < n - 1 implies (#[trigger] s[i].id@)
        != (#[trigger] s[j].id@) by {
        assert(back(i) < back(j));
        assert(olds[back(i)].id@ != olds[back(j)].id@);
    }
    lemma_leaf_removed_wf_link(m, t, x, q, xi, qi, pos);
    lemma_leaf_removed_wf_kids(m, t, x, q, xi, qi, pos);
    lemma_leaf_removed_wf_dups(m, t, x, q, xi, qi, pos);
}

/// One piece of the well-formedness proof behind `lemma_leaf_removed`.
#[verifier::rlimit(100)]
proof fn lemma_leaf_removed_wf_link(m: Tree, t: Tree, x: IdView, q: IdView, xi: int, qi: int, pos: int)
    requires
        m.wf(),
        m.has(x),
        x != IdView::Root,
        m.kids_of(x) == Seq::<IdView>::empty(),
        xi == m.idx_of(x),
        q == pv(m.ents()[xi]),
        qi == m.idx_of(q),
        m.ents()[qi].id@ == q,
        xi != qi,
        0 <= pos < m.ents()[qi].kids@.len(),
        m.ents()[qi].kids@[pos]@ == x,
        t.count() == m.count() - 1,
        ({
            let qj: int = if qi < xi {
                qi
            } else {
                qi - 1
            };
            &&& forall|j: int|
                0 <= j < t.count() && j != qj ==> (#[trigger] t.ents()[j]) == m.ents()[if j < xi {
                    j
                } else {
                    j + 1
                }]
            &&& t.ents()[qj].id == m.ents()[qi].id
            &&& t.ents()[qj].parent == m.ents()[qi].parent
            &&& t.ents()[qj].depth == m.ents()[qi].depth
            &&& t.ents()[qj].data == m.ents()[qi].data
            &&& t.ents()[qj].kids@ == m.ents()[qi].kids@.remove(pos)
        }),
        // observations already established
        forall|y: IdView| t.has(y) == (m.has(y) && y != x),
        forall|y: IdView|
            m.has(y) && y != x ==> 0 <= t.idx_of(y) < t.count() && (if t.idx_of(y) < xi {
                t.idx_of(y)
            } else {
                t.idx_of(y) + 1
            }) == m.idx_of(y),
        t.idx_of(q) == (if qi < xi {
            qi
        } else {
            qi - 1
        }),
        t.kids_of(q) == m.kids_of(q).remove_value(x),
        forall|y: IdView| t.has(y) && y != q ==> t.kids_of(y) == m.kids_of(y),
        forall|y: IdView|
            t.has(y) ==> t.parent_of(y) == m.parent_of(y) && t.depth_of(y) == m.depth_of(y),
        forall|j: int|
            0 <= j < m.count() && j != xi && (#[trigger] m.ents()[j]).parent is Some
                ==> pv(m.ents()[j]) != x,
    ensures
        forall|i: int|
            1 <= i < t.count() ==> {
                let e = #[trigger] t.ents()[i];
                &&& t.has(pv(e))
                &&& t.kids_of(pv(e)).contains(e.id@)
                &&& e.depth == t.depth_of(pv(e)) + 1
            },
{
    reveal(Tree::wf);
    let n = m.count();
    let s = t.ents();
    let olds = m.ents();
    let qj: int = if qi < xi {
        qi
    } else {
        qi - 1
    };
    m.lemma_idx(xi);
    m.lemma_idx(qi);
    assert(xi != 0);
    let back = |j: int| if j < xi { j } else { j + 1 };
    assert(forall|j: int| 0 <= j < n - 1 ==> #[trigger] back(j) == (if j < xi { j } else { j + 1 }));
    assert forall|j: int| 0 <= j < n - 1 implies (#[trigger] s[j]).id == olds[back(j)].id
        && s[j].parent == olds[back(j)].parent && s[j].depth == olds[back(j)].depth
        && s[j].data == olds[back(j)].data && (j != qj ==> s[j].kids == olds[back(j)].kids) by {
        if j == qj {
            assert(back(qj) == qi);
        }
    }
    assert forall|a: int, b: int|
        0 <= a < b < m.kids_of(q).len() implies m.kids_of(q)[a] != m.kids_of(q)[b] by {
        assert(olds[qi].kids@[a]@ != olds[qi].kids@[b]@);
    }
    assert(m.kids_of(q)[pos] == x);
    lemma_remove_value_at(m.kids_of(q), x, pos);
    assert forall|i: int| 1 <= i < n - 1 implies {
        let e = #[trigger] s[i];
        &&& t.has(pv(e))
        &&& t.kids_of(pv(e)).contains(e.id@)
        &&& e.depth == t.depth_of(pv(e)) + 1
    } by {
        let e = s[i];
        let eo = olds[back(i)];
        assert(e.id == eo.id && e.parent == eo.parent && e.depth == eo.depth);
        m.lemma_idx(back(i));
        let w = pv(eo);
        assert(m.has(w) && m.kids_of(w).contains(eo.id@) && eo.depth == m.depth_of(w) + 1);
        assert(w != x);
        assert(t.has(w));
        if w == q {
            let ko = m.kids_of(q);
            let j = choose|j: int| 0 <= j < ko.len() && ko[j] == eo.id@;
            assert(eo.id@ != x) by {
                if back(i) < xi {
                    assert(olds[back(i)].id@ != olds[xi].id@);
                } else {
                    assert(olds[xi].id@ != olds[back(i)].id@);
                }
            }
            assert(j != pos);
            if j < pos {
                assert(t.kids_of(q)[j] == eo.id@);
            } else {
                assert(t.kids_of(q)[j - 1] == eo.id@);
            }
            assert(t.kids_of(w).contains(e.id@));
        } else {
            assert(t.kids_of(w) == m.kids_of(w));
        }
        assert(t.depth_of(w) == m.depth_of(w));
    }
}

/// One piece of the well-formedness proof behind `lemma_leaf_removed`.
#[verifier::rlimit(100)]
proof fn lemma_leaf_removed_wf_kids(m: Tree, t: Tree, x: IdView, q: IdView, xi: int, qi: int, pos: int)
    requires
        m.wf(),
        m.has(x),
        x != IdView::Root,
        m.kids_of(x) == Seq::<IdView>::empty(),
        xi == m.idx_of(x),
        q == pv(m.ents()[xi]),
        qi == m.idx_of(q),
        m.ents()[qi].id@ == q,
        xi != qi,
        0 <= pos < m.ents()[qi].kids@.len(),
        m.ents()[qi].kids@[pos]@ == x,
        t.count() == m.count() - 1,
        ({
            let qj: int = if qi < xi {
                qi
            } else {
                qi - 1
            };
            &&& forall|j: int|
                0 <= j < t.count() && j != qj ==> (#[trigger] t.ents()[j]) == m.ents()[if j < xi {
                    j
                } else {
                    j + 1
                }]
            &&& t.ents()[qj].id == m.ents()[qi].id
            &&& t.ents()[qj].parent == m.ents()[qi].parent
            &&& t.ents()[qj].depth == m.ents()[qi].depth
            &&& t.ents()[qj].data == m.ents()[qi].data
            &&& t.ents()[qj].kids@ == m.ents()[qi].kids@.remove(pos)
        }),
        // observations already established
        forall|y: IdView| t.has(y) == (m.has(y) && y != x),
        forall|y: IdView|
            m.has(y) && y != x ==> 0 <= t.idx_of(y) < t.count() && (if t.idx_of(y) < xi {
                t.idx_of(y)
            } else {
                t.idx_of(y) + 1
            }) == m.idx_of(y),
        t.idx_of(q) == (if qi < xi {
            qi
        } else {
            qi - 1
        }),
        t.kids_of(q) == m.kids_of(q).remove_value(x),
        forall|y: IdView| t.has(y) && y != q ==> t.kids_of(y) == m.kids_of(y),
        forall|y: IdView|
            t.has(y) ==> t.parent_of(y) == m.parent_of(y) && t.depth_of(y) == m.depth_of(y),
        forall|j: int|
            0 <= j < m.count() && j != xi && (#[trigger] m.ents()[j]).parent is Some
                ==> pv(m.ents()[j]) != x,
    ensures
        forall|i: int, j: int|
            0 <= i < t.count() && 0 <= j < t.ents()[i].kids@.len() ==> {
                let c = (#[trigger] t.ents()[i].kids@[j])@;
                &&& c is Id
                &&& t.has(c)
                &&& pv(t.ent(c)) == t.ents()[i].id@
                &&& t.ent(c).parent is Some
            },
{
    reveal(Tree::wf);
    let n = m.count();
    let s = t.ents();
    let olds = m.ents();
    let qj: int = if qi < xi {
        qi
    } else {
        qi - 1
    };
    m.lemma_idx(xi);
    m.lemma_idx(qi);
    assert(xi != 0);
    let back = |j: int| if j < xi { j } else { j + 1 };
    assert(forall|j: int| 0 <= j < n - 1 ==> #[trigger] back(j) == (if j < xi { j } else { j + 1 }));
    assert forall|j: int| 0 <= j < n - 1 implies (#[trigger] s[j]).id == olds[back(j)].id
        && s[j].parent == olds[back(j)].parent && s[j].depth == olds[back(j)].depth
        && s[j].data == olds[back(j)].data && (j != qj ==> s[j].kids == olds[back(j)].kids) by {
        if j == qj {
            assert(back(qj) == qi);
        }
    }
    assert forall|a: int, b: int|
        0 <= a < b < m.kids_of(q).len() implies m.kids_of(q)[a] != m.kids_of(q)[b] by {
        assert(olds[qi].kids@[a]@ != olds[qi].kids@[b]@);
    }
    assert(m.kids_of(q)[pos] == x);
    lemma_remove_value_at(m.kids_of(q), x, pos);
    assert forall|i: int, j: int| 0 <= i < n - 1 && 0 <= j < s[i].kids@.len() implies {
        let c = (#[trigger] s[i].kids@[j])@;
        &&& c is Id
        &&& t.has(c)
        &&& pv(t.ent(c)) == s[i].id@
        &&& t.ent(c).parent is Some
    } by {
        let c = s[i].kids@[j]@;
        let jo: int = if i == qj && j >= pos {
            j + 1
        } else {
            j
        };
        assert(s[i].kids@[j] == olds[back(i)].kids@[jo]);
        m.lemma_idx(back(i));
        assert(c is Id && m.has(c) && pv(m.ent(c)) == olds[back(i)].id@
            && m.ent(c).parent is Some);
        assert(c != x) by {
            if c == x {
                assert(pv(m.ent(x)) == olds[back(i)].id@);
                assert(olds[back(i)].id@ == q);
                assert(back(i) == qi) by {
                    m.lemma_idx(back(i));
                }
                assert(i == qj);
                assert(jo != pos);
                assert(olds[qi].kids@[jo]@ != olds[qi].kids@[pos]@);
            }
        }
        assert(t.has(c));
        let ci = t.idx_of(c);
        assert(back(ci) == m.idx_of(c));
        assert(t.ents()[ci].parent == olds[m.idx_of(c)].parent);
        assert(pv(t.ent(c)) == pv(m.ent(c)));
        assert(s[i].id@ == olds[back(i)].id@);
    }
}

/// One piece of the well-formedness proof behind `lemma_leaf_removed`.
#[verifier::rlimit(100)]
#[verifier::spinoff_prover]
proof fn lemma_leaf_removed_wf_dups(m: Tree, t: Tree, x: IdView, q: IdView, xi: int, qi: int, pos: int)
    requires
        m.wf(),
        m.has(x),
        x != IdView::Root,
        m.kids_of(x) == Seq::<IdView>::empty(),
        xi == m.idx_of(x),
        q == pv(m.ents()[xi]),
        qi == m.idx_of(q),
        m.ents()[qi].id@ == q,
        xi != qi,
        0 <= pos < m.ents()[qi].kids@.len(),
        m.ents()[qi].kids@[pos]@ == x,
        t.count() == m.count() - 1,
        ({
            let qj: int = if qi < xi {
                qi
            } else {
                qi - 1
            };
            &&& forall|j: int|
                0 <= j < t.count() && j != qj ==> (#[trigger] t.ents()[j]) == m.ents()[if j < xi {
                    j
                } else {
                    j + 1
                }]
            &&& t.ents()[qj].id == m.ents()[qi].id
            &&& t.ents()[qj].parent == m.ents()[qi].parent
            &&& t.ents()[qj].depth == m.ents()[qi].depth
            &&& t.ents()[qj].data == m.ents()[qi].data
            &&& t.ents()[qj].kids@ == m.ents()[qi].kids@.remove(pos)
        }),
        // observations already established
        forall|y: IdView| t.has(y) == (m.has(y) && y != x),
        forall|y: IdView|
            m.has(y) && y != x ==> 0 <= t.idx_of(y) < t.count() && (if t.idx_of(y) < xi {
                t.idx_of(y)
            } else {
                t.idx_of(y) + 1
            }) == m.idx_of(y),
        t.idx_of(q) == (if qi < xi {
            qi
        } else {
            qi - 1
        }),
        t.kids_of(q) == m.kids_of(q).remove_value(x),
        forall|y: IdView| t.has(y) && y != q ==> t.kids_of(y) == m.kids_of(y),
        forall|y: IdView|
            t.has(y) ==> t.parent_of(y) == m.parent_of(y) && t.depth_of(y) == m.depth_of(y),
        forall|j: int|
            0 <= j < m.count() && j != xi && (#[trigger] m.ents()[j]).parent is Some
                ==> pv(m.ents()[j]) != x,
    ensures
        forall|i: int, j1: int, j2: int|
            0 <= i < t.count() && 0 <= j1 < j2 < t.ents()[i].kids@.len()
                ==> (#[trigger] t.ents()[i].kids@[j1])@ != (#[trigger] t.ents()[i].kids@[j2])@,
{
    reveal(Tree::wf);
    let n = m.count();
    let s = t.ents();
    let olds = m.ents();
    let qj: int = if qi < xi {
        qi
    } else {
        qi - 1
    };
    m.lemma_idx(xi);
    m.lemma_idx(qi);
    assert(xi != 0);
    let back = |j: int| if j < xi { j } else { j + 1 };
    assert(forall|j: int| 0 <= j < n - 1 ==> #[trigger] back(j) == (if j < xi { j } else { j + 1 }));
    assert forall|j: int| 0 <= j < n - 1 implies (#[trigger] s[j]).id == olds[back(j)].id
        && s[j].parent == olds[back(j)].parent && s[j].depth == olds[back(j)].depth
        && s[j].data == olds[back(j)].data && (j != qj ==> s[j].kids == olds[back(j)].kids) by {
        if j == qj {
            assert(back(qj) == qi);
        }
    }
    assert forall|a: int, b: int|
        0 <= a < b < m.kids_of(q).len() implies m.kids_of(q)[a] != m.kids_of(q)[b] by {
        assert(olds[qi].kids@[a]@ != olds[qi].kids@[b]@);
    }
    assert(m.kids_of(q)[pos] == x);
    lemma_remove_value_at(m.kids_of(q), x, pos);
    assert forall|i: int, j1: int, j2: int|
        0 <= i < n - 1 && 0 <= j1 < j2 < s[i].kids@.len() implies (#[trigger] s[i].kids@[j1])@
        != (#[trigger] s[i].kids@[j2])@ by {
        if i == qj {
            let j1o: int = if j1 < pos {
                j1
            } else {
                j1 + 1
            };
            let j2o: int = if j2 < pos {
                j2
            } else {
                j2 + 1
            };
            assert(s[i].kids@[j1] == olds[qi].kids@[j1o]);
            assert(s[i].kids@[j2] == olds[qi].kids@[j2o]);
            assert(j1o < j2o);
            assert(olds[qi].kids@[j1o]@ != olds[qi].kids@[j2o]@);
        } else {
            assert(s[i].kids@[j1] == olds[back(i)].kids@[j1]);
            assert(s[i].kids@[j2] == olds[back(i)].kids@[j2]);
            assert(olds[back(i)].kids@[j1]@ != olds[back(i)].kids@[j2]@);
        }
    }
}

/// On a sub-tree that kept every surviving node's parent and depth,
/// reachability is unchanged.
proof fn lemma_reaches_same(m: Tree, t: Tree, y: IdView, a: IdView)
    requires
        m.wf(),
        t.wf(),
        t.has(y),
        forall|z: IdView|
            t.has(z) ==> m.has(z) && t.parent_of(z) == m.parent_of(z) && t.depth_of(z)
                == m.depth_of(z),
    ensures
        t.reaches(y, a) == m.reaches(y, a),
    decreases t.depth_of(y),
{
    reveal(Tree::wf);
    lemma_reaches_step(t, y, a);
    lemma_reaches_step(m, y, a);
    if y != a {
        match t.parent_of(y) {
            Option::Some(w) => {
                lemma_depth_law(t, y);
                lemma_depth_law(m, y);
                lemma_reaches_same(m, t, w, a);
            },
            Option::None => {},
        }
    }
}

/// A node below `x` means `x` has at least one child.
proof fn lemma_reaches_nonempty_kids(t: Tree, y: IdView, x: IdView)
    requires
        t.wf(),
        t.has(y),
        t.reaches(y, x),
        y != x,
    ensures
        t.kids_of(x).len() > 0,
    decreases t.depth_of(y),
{
    reveal(Tree::wf);
    lemma_reaches_step(t, y, x);
    assert(y != IdView::Root) by {
        if y == IdView::Root {
            let i = t.idx_of(y);
            assert(t.ents()[i].id@ == y);
            assert(t.parent_of(y) is None);
        }
    }
    lemma_depth_law(t, y);
    let w = t.parent_of(y).unwrap();
    if w == x {
        lemma_child_listed(t, y);
        assert(t.kids_of(x).contains(y));
        let j = choose|j: int| 0 <= j < t.kids_of(x).len() && t.kids_of(x)[j] == y;
    } else {
        lemma_reaches_nonempty_kids(t, w, x);
    }
}

/// One step of `reaches`: a present node reaches exactly itself and
/// whatever its parent reaches; the root, which has no parent, reaches
/// only itself.
pub proof fn lemma_reaches_step(t: Tree, x: IdView, a: IdView)
    requires
        t.wf(),
        t.has(x),
    ensures
        t.reaches(x, a) == (x == a || (match t.parent_of(x) {
            Option::Some(w) => t.reaches(w, a),
            Option::None => false,
        })),
{
    reveal(Tree::wf);
    let i = t.idx_of(x);
    assert(t.ents()[i].id@ == x);
    if x == IdView::Root {
        if i != 0 {
            assert(t.ents()[i].id@ is Id);
        }
        assert(t.parent_of(x) is None);
    } else {
        if i == 0 {
            assert(x == IdView::Root);
        }
        t.lemma_reaches_unfold(x, a);
        assert(t.parent_of(x) == Option::Some(pv(t.ents()[i])));
    }
}

/// Every present non-root node sits in its parent's child list.
pub proof fn lemma_child_listed(t: Tree, x: IdView)
    requires
        t.wf(),
        t.has(x),
        x != IdView::Root,
    ensures
        (match t.parent_of(x) {
            Option::Some(w) => t.has(w) && t.kids_of(w).contains(x),
            Option::None => false,
        }),
{
    reveal(Tree::wf);
    let i = t.idx_of(x);
    assert(t.ents()[i].id@ == x);
    if i == 0 {
        assert(x == IdView::Root);
    }
    let e = t.ents()[i];
    assert(t.has(pv(e)) && t.kids_of(pv(e)).contains(e.id@));
    assert(t.parent_of(x) == Option::Some(pv(e)));
}

/// No identity stands twice in one child list.
pub proof fn lemma_children_distinct(t: Tree, p: IdView)
    requires
        t.wf(),
        t.has(p),
    ensures
        forall|j1: int, j2: int|
            0 <= j1 < j2 < t.kids_of(p).len() ==> t.kids_of(p)[j1] != t.kids_of(p)[j2],
{
    reveal(Tree::wf);
    let i = t.idx_of(p);
    assert(t.ents()[i].id@ == p);
    assert forall|j1: int, j2: int|
        0 <= j1 < j2 < t.kids_of(p).len() implies t.kids_of(p)[j1] != t.kids_of(p)[j2] by {
        assert(t.ents()[i].kids@[j1]@ != t.ents()[i].kids@[j2]@);
    }
}

/// Every listed child is a present non-root node whose parent is the
/// listing node: an identity stands in exactly one child list.
pub proof fn lemma_child_parent(t: Tree, p: IdView, j: int)
    requires
        t.wf(),
        t.has(p),
        0 <= j < t.kids_of(p).len(),
    ensures
        ({
            let c = t.kids_of(p)[j];
            &&& c is Id
            &&& t.has(c)
            &&& t.parent_of(c) == Option::Some(p)
        }),
{
    reveal(Tree::wf);
    let i = t.idx_of(p);
    assert(t.ents()[i].id@ == p);
    let c = t.ents()[i].kids@[j]@;
    assert(c is Id && t.has(c) && pv(t.ent(c)) == t.ents()[i].id@ && t.ent(c).parent is Some);
    assert(t.parent_of(c) == Option::Some(pv(t.ent(c))));
}

} // verus!
