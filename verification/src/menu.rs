//! The menu tree: an ordered forest of menu nodes assembled from the
//! flat, permission-filtered record list a menu fetch returns.
//!
//! Every node is keyed by a non-zero `id`; the id `0` names an implicit
//! synthetic root that is never part of the fetched data. Each record
//! points at its parent through `parent_id` (`0` meaning the synthetic
//! root). `build` turns the flat list into an adjacency structure whose
//! sibling lists are sorted by ascending id, whatever the arrival order;
//! orphaned, duplicated and cyclic records are reported, never fatal.
//! Rendering reads the forest through `children_of` and `node`, and
//! reacts to clicks through `toggle_expanded` and `activate`.

use vstd::prelude::*;

verus! {

/// How a menu entry behaves when rendered: a section heading, an
/// expandable container, or a clickable leaf.
#[derive(Clone, Copy, Debug, PartialEq, Eq, Structural)]
pub enum MenuType {
    Label,
    Fold,
    Item,
}

impl Default for MenuType {
    fn default() -> (r: Self)
        ensures
            r == MenuType::Label,
    {
        MenuType::Label
    }
}

/// Default of the `expanded` flag on a freshly fetched record: children
/// are rendered until the user collapses the node.
pub fn expanded() -> (r: bool)
    ensures
        r,
{
    true
}

/// One entry of the flat source list, and one node of the tree.
#[derive(Clone, Debug, PartialEq, Eq)]
pub struct MenuNode {
    /// Unique non-zero identifier; `0` is reserved for the synthetic root.
    pub id: u32,
    /// Identifier of the designated parent; `0` attaches under the root.
    pub parent_id: u32,
    pub kind: MenuType,
    /// Display text.
    pub name: String,
    /// Content selected when the node is activated; `0` means none.
    pub target_id: u32,
    /// Whether the node's children are currently rendered.
    pub expanded: bool,
    /// Whether this node is the last-clicked node.
    pub active: bool,
}

/// Mathematical value of a menu node.
pub ghost struct NodeV {
    pub id: u32,
    pub parent_id: u32,
    pub kind: MenuType,
    pub name: Seq<char>,
    pub target_id: u32,
    pub expanded: bool,
    pub active: bool,
}

impl View for MenuNode {
    type V = NodeV;

    open spec fn view(&self) -> NodeV {
        NodeV {
            id: self.id,
            parent_id: self.parent_id,
            kind: self.kind,
            name: self.name@,
            target_id: self.target_id,
            expanded: self.expanded,
            active: self.active,
        }
    }
}

impl MenuNode {
    /// A freshly fetched record: expanded, not active.
    pub fn new(id: u32, parent_id: u32, kind: MenuType, name: String, target_id: u32) -> (n: MenuNode)
        ensures
            n@ == (NodeV {
                id,
                parent_id,
                kind,
                name: name@,
                target_id,
                expanded: true,
                active: false,
            }),
    {
        MenuNode { id, parent_id, kind, name, target_id, expanded: expanded(), active: false }
    }
}

/// The mathematical values of a record list.
pub open spec fn views_of(s: Seq<MenuNode>) -> Seq<NodeV> {
    s.map_values(|n: MenuNode| n@)
}

/// A structural irregularity found while building the tree. None of
/// them aborts the build; they are reported for observability.
#[derive(Clone, Copy, Debug, PartialEq, Eq, Structural)]
pub enum Anomaly {
    /// A record reused an id already taken (by an earlier record, or by
    /// the synthetic root).
    Duplicate(u32),
    /// A record named a parent id that no record carries; the node was
    /// left unattached.
    Orphan(u32),
    /// The node's parent chain never reaches the root: it sits on or
    /// below a cycle of parent references.
    Cycle(u32),
}

/// `s` is sorted in strictly ascending order.
pub open spec fn strictly_sorted(s: Seq<u32>) -> bool {
    forall|i: int, j: int| 0 <= i < j < s.len() ==> s[i] < s[j]
}

/// The menu forest: flat node storage with integer handles. Links are
/// relations between ids, not pointers; the tree owns all nodes.
pub struct MenuTree {
    /// The stored nodes, in first-occurrence order of their ids.
    nodes: Vec<MenuNode>,
    /// For each stored node, the parent id under which it was (or would
    /// have been) attached: the `parent_id` of the first record that
    /// carried its id.
    link_parent: Vec<u32>,
    /// For each stored node, its ordered child ids.
    kids: Vec<Vec<u32>>,
    /// Ordered child ids of the synthetic root.
    root_kids: Vec<u32>,
    /// Id of the active node; `0` means none.
    active_id: u32,
}

impl MenuTree {
    /// Number of stored nodes (the synthetic root not counted).
    pub closed spec fn node_count(self) -> int {
        self.nodes@.len() as int
    }

    /// Some record with this id was stored; never true of `0`.
    pub closed spec fn stored(self, id: u32) -> bool {
        exists|j: int| 0 <= j < self.nodes@.len() && self.nodes@[j].id == id
    }

    /// Index of the stored node with this id.
    pub closed spec fn idx_of(self, id: u32) -> int {
        choose|j: int| 0 <= j < self.nodes@.len() && self.nodes@[j].id == id
    }

    /// Value of the stored node with this id.
    pub closed spec fn data_of(self, id: u32) -> NodeV {
        self.nodes@[self.idx_of(id)]@
    }

    /// The parent id under which the node with this id links.
    pub closed spec fn parent_link(self, id: u32) -> u32 {
        self.link_parent@[self.idx_of(id)]
    }

    /// The ordered child ids of `p`: of the synthetic root for `0`, of
    /// the stored node otherwise; empty for an absent id.
    pub closed spec fn kids_of(self, p: u32) -> Seq<u32> {
        if p == 0 {
            self.root_kids@
        } else if self.stored(p) {
            self.kids@[self.idx_of(p)]@
        } else {
            Seq::empty()
        }
    }

    /// The id of the single active node, if any.
    pub closed spec fn active_of(self) -> Option<u32> {
        if self.active_id == 0 {
            None
        } else {
            Some(self.active_id)
        }
    }

    /// The node with id `c` hangs in the child list of `p`: its link
    /// parent is `p`, and `p` exists (or is the synthetic root).
    pub open spec fn linked(self, c: u32, p: u32) -> bool {
        &&& self.stored(c)
        &&& self.parent_link(c) == p
        &&& (p == 0 || self.stored(p))
    }

    /// The node's designated parent exists (or is the root), so the
    /// node hangs in some child list.
    pub open spec fn attached(self, id: u32) -> bool {
        &&& self.stored(id)
        &&& (self.parent_link(id) == 0 || self.stored(self.parent_link(id)))
    }

    /// Ids are unique and non-zero, and the parallel columns agree.
    pub closed spec fn base_wf(self) -> bool {
        &&& self.link_parent@.len() == self.nodes@.len()
        &&& self.kids@.len() == self.nodes@.len()
        &&& forall|i: int, j: int|
            0 <= i < j < self.nodes@.len() ==> self.nodes@[i].id != self.nodes@[j].id
        &&& forall|i: int| 0 <= i < self.nodes@.len() ==> self.nodes@[i].id != 0
    }

    /// The raw representation invariant, stated over the columns.
    spec fn inv(self) -> bool {
        &&& self.base_wf()
        &&& strictly_sorted(self.root_kids@)
        &&& forall|i: int| 0 <= i < self.kids@.len() ==> strictly_sorted(#[trigger] self.kids@[i]@)
        &&& forall|p: u32, c: u32| #[trigger] self.kids_of(p).contains(c) <==> self.linked(c, p)
        &&& forall|i: int|
            0 <= i < self.nodes@.len()
                ==> ((#[trigger] self.nodes@[i].active) <==> (self.active_id != 0
                && self.nodes@[i].id == self.active_id))
        &&& (self.active_id != 0 ==> self.stored(self.active_id))
    }

    /// Well-formed forest: the root's id is never stored; every
    /// sibling list is strictly ascending by id and holds exactly the
    /// ids linked there; and the node whose data carries the `active`
    /// flag is exactly the stored node that `active_of` names.
    pub open spec fn wf(self) -> bool {
        &&& self.base_wf()
        &&& !self.stored(0)
        &&& forall|p: u32| strictly_sorted(#[trigger] self.kids_of(p))
        &&& forall|p: u32, c: u32| #[trigger] self.kids_of(p).contains(c) <==> self.linked(c, p)
        &&& forall|x: u32| #[trigger]
            self.stored(x) ==> (self.data_of(x).active <==> self.active_of() == Some(x))
        &&& (self.active_of() matches Some(a) ==> self.stored(a))
    }

    /// An empty forest: only the synthetic root, nothing active.
    pub fn new() -> (t: MenuTree)
        ensures
            t.wf(),
            t.node_count() == 0,
            forall|x: u32| !t.stored(x),
            forall|p: u32| t.kids_of(p) == Seq::<u32>::empty(),
            t.active_of() is None,
    {
        let t = MenuTree {
            nodes: Vec::new(),
            link_parent: Vec::new(),
            kids: Vec::new(),
            root_kids: Vec::new(),
            active_id: 0,
        };
        proof {
            assert forall|p: u32| t.kids_of(p) == Seq::<u32>::empty() by {
                assert(t.kids_of(p) =~= Seq::<u32>::empty());
            }
            assert forall|p: u32, c: u32| !(#[trigger] t.kids_of(p).contains(c)) by {
                assert(t.kids_of(p) =~= Seq::<u32>::empty());
            }
        }
        t
    }
}

impl Default for MenuTree {
    /// Same as `new`.
    fn default() -> (t: Self)
        ensures
            t.wf(),
            t.node_count() == 0,
            forall|x: u32| !t.stored(x),
            forall|p: u32| t.kids_of(p) == Seq::<u32>::empty(),
            t.active_of() is None,
    {
        MenuTree::new()
    }
}

impl MenuTree {
    /// Linear scan for the storage index of an id.
    fn find_index(&self, id: u32) -> (r: Option<usize>)
        ensures
            match r {
                Some(j) => 0 <= j < self.nodes@.len() && self.nodes@[j as int].id == id,
                None => !self.stored(id),
            },
    {
        let mut j: usize = 0;
        while j < self.nodes.len()
            invariant
                j <= self.nodes@.len(),
                forall|i: int| 0 <= i < j ==> self.nodes@[i].id != id,
            decreases self.nodes@.len() - j,
        {
            if self.nodes[j].id == id {
                return Some(j);
            }
            j += 1;
        }
        None
    }
}

/// With unique ids, the chosen index of a stored id is the index it
/// stands at.
proof fn lemma_idx_at(t: MenuTree, j: int)
    requires
        t.base_wf(),
        0 <= j < t.node_count(),
    ensures
        t.stored(t.nodes@[j].id),
        t.idx_of(t.nodes@[j].id) == j,
{
    let id = t.nodes@[j].id;
    assert(t.stored(id));
    let k = t.idx_of(id);
    assert(0 <= k < t.nodes@.len() && t.nodes@[k].id == id);
    if k < j {
        assert(t.nodes@[k].id != t.nodes@[j].id);
    } else if j < k {
        assert(t.nodes@[j].id != t.nodes@[k].id);
    }
}

/// The public well-formedness and the raw column invariant coincide.
proof fn lemma_wf_equiv(t: MenuTree)
    ensures
        t.wf() <==> t.inv(),
{
    if t.inv() {
        assert(!t.stored(0)) by {
            if t.stored(0) {
                let w = t.idx_of(0);
                assert(t.nodes@[w].id != 0);
            }
        }
        assert forall|p: u32| strictly_sorted(#[trigger] t.kids_of(p)) by {
            if p == 0 {
                assert(t.kids_of(p) == t.root_kids@);
            } else if t.stored(p) {
                assert(t.kids_of(p) == t.kids@[t.idx_of(p)]@);
            } else {
                assert(t.kids_of(p) == Seq::<u32>::empty());
            }
        }
        assert forall|x: u32| #[trigger]
            t.stored(x) implies (t.data_of(x).active <==> t.active_of() == Some(x)) by {
            let w = t.idx_of(x);
            assert(t.nodes@[w].id == x);
            assert(t.data_of(x).active == t.nodes@[w].active);
        }
        assert(t.wf());
    }
    if t.wf() {
        assert forall|i: int|
            0 <= i < t.kids@.len() implies strictly_sorted(#[trigger] t.kids@[i]@) by {
            let x = t.nodes@[i].id;
            lemma_idx_at(t, i);
            assert(strictly_sorted(t.kids_of(x)));
            assert(t.kids_of(x) == t.kids@[i]@);
        }
        assert(strictly_sorted(t.root_kids@)) by {
            assert(strictly_sorted(t.kids_of(0)));
        }
        assert forall|i: int|
            0 <= i < t.nodes@.len() implies ((#[trigger] t.nodes@[i].active) <==> (t.active_id != 0
            && t.nodes@[i].id == t.active_id)) by {
            let x = t.nodes@[i].id;
            lemma_idx_at(t, i);
            assert(t.stored(x));
            assert(t.data_of(x).active == t.nodes@[i].active);
            assert(t.data_of(x).active <==> t.active_of() == Some(x));
        }
        assert(t.active_id != 0 ==> t.stored(t.active_id)) by {
            if t.active_id != 0 {
                assert(t.active_of() == Some(t.active_id));
            }
        }
        assert(t.inv());
    }
}

/// Insert `id` into a strictly sorted list, immediately before the
/// first entry that exceeds it; at the end if none does.
fn insert_sorted(list: &mut Vec<u32>, id: u32)
    requires
        strictly_sorted(old(list)@),
        !old(list)@.contains(id),
    ensures
        strictly_sorted(final(list)@),
        final(list)@.len() == old(list)@.len() + 1,
        forall|x: u32| #[trigger] final(list)@.contains(x) <==> (old(list)@.contains(x) || x == id),
{
    let mut k: usize = 0;
    while k < list.len() && list[k] < id
        invariant
            k <= list@.len(),
            list@ == old(list)@,
            forall|i: int| 0 <= i < k ==> list@[i] < id,
        decreases list@.len() - k,
    {
        k += 1;
    }
    proof {
        if k < list@.len() {
            assert(list@[k as int] != id) by {
                if list@[k as int] == id {
                    assert(list@.contains(id));
                }
            }
            assert(list@[k as int] > id);
        }
    }
    list.insert(k, id);
    proof {
        let s = old(list)@;
        let t = list@;
        s.insert_ensures(k as int, id);
        assert(strictly_sorted(t)) by {
            assert forall|i: int, j: int| 0 <= i < j < t.len() implies t[i] < t[j] by {
                if j < k {
                    assert(t[i] == s[i] && t[j] == s[j]);
                } else if i < k && j == k {
                    assert(t[i] == s[i] && t[j] == id);
                } else if i < k && j > k {
                    assert(t[i] == s[i] && t[j] == s[j - 1]);
                    if k < s.len() && j - 1 > k {
                        assert(s[k as int] < s[j - 1]);
                    }
                } else if i == k {
                    assert(t[i] == id && t[j] == s[j - 1]);
                    assert(s[k as int] <= s[j - 1]);
                } else {
                    assert(t[i] == s[i - 1] && t[j] == s[j - 1]);
                }
            }
        }
        assert forall|x: u32| #[trigger] t.contains(x) <==> (s.contains(x) || x == id) by {
            if t.contains(x) {
                let w = choose|w: int| 0 <= w < t.len() && t[w] == x;
                if w < k {
                    assert(s[w] == x);
                    assert(s.contains(x));
                } else if w == k {
                    assert(x == id);
                } else {
                    assert(s[w - 1] == x);
                    assert(s.contains(x));
                }
            }
            if s.contains(x) {
                let w = choose|w: int| 0 <= w < s.len() && s[w] == x;
                if w < k {
                    assert(t[w] == x);
                } else {
                    assert(t[w + 1] == x);
                }
                assert(t.contains(x));
            }
            if x == id {
                assert(t[k as int] == x);
                assert(t.contains(x));
            }
        }
    }
}

/// Plain element-wise copy of an id list.
fn copy_ids(v: &Vec<u32>) -> (r: Vec<u32>)
    ensures
        r@ == v@,
{
    let mut r: Vec<u32> = Vec::new();
    let mut i: usize = 0;
    while i < v.len()
        invariant
            i <= v@.len(),
            r@ == v@.subrange(0, i as int),
        decreases v@.len() - i,
    {
        r.push(v[i]);
        proof {
            assert(r@ =~= v@.subrange(0, i + 1 as int));
        }
        i += 1;
    }
    proof {
        assert(r@ =~= v@);
    }
    r
}

impl MenuTree {
    /// The current ordered child ids of `id`: the root's for `0`, empty
    /// for an absent id or a leaf. Pure read.
    pub fn children_of(&self, id: u32) -> (r: Vec<u32>)
        requires
            self.wf(),
        ensures
            r@ == self.kids_of(id),
    {
        if id == 0 {
            return copy_ids(&self.root_kids);
        }
        match self.find_index(id) {
            Some(j) => {
                proof {
                    lemma_idx_at(*self, j as int);
                }
                copy_ids(&self.kids[j])
            },
            None => {
                proof {
                    assert(self.kids_of(id) =~= Seq::<u32>::empty());
                }
                Vec::new()
            },
        }
    }

    /// The node stored under `id`, if any. Pure read.
    pub fn node(&self, id: u32) -> (r: Option<&MenuNode>)
        requires
            self.wf(),
        ensures
            match r {
                Some(n) => self.stored(id) && n@ == self.data_of(id),
                None => !self.stored(id),
            },
    {
        match self.find_index(id) {
            Some(j) => {
                proof {
                    lemma_idx_at(*self, j as int);
                }
                Some(&self.nodes[j])
            },
            None => None,
        }
    }

    /// Whether `id` currently has no children. An absent id is a leaf.
    pub fn is_leaf(&self, id: u32) -> (r: bool)
        requires
            self.wf(),
        ensures
            r == (self.kids_of(id).len() == 0),
    {
        if id == 0 {
            return self.root_kids.len() == 0;
        }
        match self.find_index(id) {
            Some(j) => {
                proof {
                    lemma_idx_at(*self, j as int);
                }
                self.kids[j].len() == 0
            },
            None => {
                proof {
                    assert(self.kids_of(id) =~= Seq::<u32>::empty());
                }
                true
            },
        }
    }
}

/// The forest structure and bookkeeping of `post` equal those of
/// `pre`: same stored ids, same links, same ordered child lists.
pub open spec fn same_shape(pre: MenuTree, post: MenuTree) -> bool {
    &&& post.node_count() == pre.node_count()
    &&& forall|x: u32| #[trigger] post.stored(x) <==> pre.stored(x)
    &&& forall|x: u32| pre.stored(x) ==> #[trigger] post.parent_link(x) == pre.parent_link(x)
    &&& forall|p: u32| #[trigger] post.kids_of(p) == pre.kids_of(p)
}

/// What `toggle_expanded(id)` does: flips `expanded` on the addressed
/// node only, touches nothing else, and is a no-op on an absent id.
pub open spec fn toggle_result(pre: MenuTree, post: MenuTree, id: u32) -> bool {
    &&& same_shape(pre, post)
    &&& post.active_of() == pre.active_of()
    &&& forall|x: u32|
        pre.stored(x) && x != id ==> #[trigger] post.data_of(x) == pre.data_of(x)
    &&& pre.stored(id) ==> post.data_of(id) == (NodeV {
        expanded: !pre.data_of(id).expanded,
        ..pre.data_of(id)
    })
}

/// What `activate(id)` does: the addressed node becomes the single
/// active one and its `target_id` is returned; on an absent id nothing
/// changes and the no-content sentinel `0` is returned.
pub open spec fn activate_result(pre: MenuTree, post: MenuTree, id: u32, target: u32) -> bool {
    &&& same_shape(pre, post)
    &&& if pre.stored(id) {
        &&& post.active_of() == Some(id)
        &&& target == pre.data_of(id).target_id
        &&& forall|x: u32|
            pre.stored(x) ==> #[trigger] post.data_of(x) == (NodeV {
                active: x == id,
                ..pre.data_of(x)
            })
    } else {
        &&& post.active_of() == pre.active_of()
        &&& forall|x: u32| pre.stored(x) ==> #[trigger] post.data_of(x) == pre.data_of(x)
        &&& target == 0
    }
}

/// Trees whose node columns carry the same ids in the same order, and
/// whose link and child columns are equal, agree on every lookup.
proof fn lemma_same_columns(pre: MenuTree, post: MenuTree)
    requires
        pre.base_wf(),
        post.nodes@.len() == pre.nodes@.len(),
        forall|i: int| 0 <= i < pre.nodes@.len() ==> post.nodes@[i].id == pre.nodes@[i].id,
        post.link_parent@ == pre.link_parent@,
        post.kids@ == pre.kids@,
        post.root_kids@ == pre.root_kids@,
    ensures
        post.base_wf(),
        forall|x: u32| #[trigger] post.stored(x) <==> pre.stored(x),
        forall|x: u32| pre.stored(x) ==> #[trigger] post.idx_of(x) == pre.idx_of(x),
        forall|x: u32| pre.stored(x) ==> #[trigger] post.parent_link(x) == pre.parent_link(x),
        forall|p: u32| #[trigger] post.kids_of(p) == pre.kids_of(p),
{
    assert forall|x: u32| post.stored(x) <==> pre.stored(x) by {
        if pre.stored(x) {
            let j = pre.idx_of(x);
            assert(post.nodes@[j].id == x);
            assert(post.stored(x));
        }
        if post.stored(x) {
            let j = post.idx_of(x);
            assert(0 <= j < post.nodes@.len() && post.nodes@[j].id == x);
            assert(pre.nodes@[j].id == x);
            assert(pre.stored(x));
        }
    }
    assert forall|x: u32| pre.stored(x) implies post.idx_of(x) == pre.idx_of(x) by {
        let j = pre.idx_of(x);
        assert(0 <= j < pre.nodes@.len() && pre.nodes@[j].id == x);
        assert(post.nodes@[j].id == x);
        lemma_idx_at(post, j);
    }
    assert forall|p: u32| post.kids_of(p) == pre.kids_of(p) by {
        if p != 0 && pre.stored(p) {
            assert(post.idx_of(p) == pre.idx_of(p));
        }
    }
}

impl MenuTree {
    /// Flips `expanded` on the addressed node; children keep their own
    /// flags. Silent no-op if the id is absent.
    pub fn toggle_expanded(&mut self, id: u32)
        requires
            old(self).wf(),
        ensures
            final(self).wf(),
            toggle_result(*old(self), *final(self), id),
    {
        match self.find_index(id) {
            None => {},
            Some(j) => {
                let e = self.nodes[j].expanded;
                let node_ref = &mut self.nodes[j];
                node_ref.expanded = !e;
                proof {
                    let pre = *old(self);
                    let post = *self;
                    let jj = j as int;
                    lemma_wf_equiv(pre);
                    lemma_idx_at(pre, jj);
                    assert(post.nodes@ == pre.nodes@.update(jj, post.nodes@[jj]));
                    assert forall|i: int|
                        0 <= i < pre.nodes@.len() implies post.nodes@[i].id == pre.nodes@[i].id
                        && post.nodes@[i].active == pre.nodes@[i].active by {
                        if i != jj {
                            assert(post.nodes@[i] == pre.nodes@[i]);
                        }
                    }
                    lemma_same_columns(pre, post);
                    assert forall|x: u32|
                        pre.stored(x) && x != id implies #[trigger] post.data_of(x)
                        == pre.data_of(x) by {
                        let w = pre.idx_of(x);
                        assert(pre.nodes@[w].id == x);
                        assert(w != jj);
                        assert(post.nodes@[w] == pre.nodes@[w]);
                    }
                    assert(post.data_of(id) == (NodeV {
                        expanded: !pre.data_of(id).expanded,
                        ..pre.data_of(id)
                    }));
                    assert(post.inv()) by {
                        assert forall|p: u32, c: u32| #[trigger]
                            post.kids_of(p).contains(c) <==> post.linked(c, p) by {
                            assert(post.kids_of(p) == pre.kids_of(p));
                            assert(pre.kids_of(p).contains(c) <==> pre.linked(c, p));
                        }
                    }
                    lemma_wf_equiv(post);
                }
            },
        }
    }

    /// Makes the addressed node the single active one: the previously
    /// active node (if different) loses its flag. Returns the node's
    /// `target_id`, `0` standing for "no content to switch to"; an
    /// absent id changes nothing and returns `0`.
    pub fn activate(&mut self, id: u32) -> (target: u32)
        requires
            old(self).wf(),
        ensures
            final(self).wf(),
            activate_result(*old(self), *final(self), id, target),
    {
        match self.find_index(id) {
            None => 0,
            Some(j) => {
                let ghost pre = *old(self);
                if self.active_id != 0 && self.active_id != id {
                    let prev = self.active_id;
                    match self.find_index(prev) {
                        Some(oj) => {
                            let node_ref = &mut self.nodes[oj];
                            node_ref.active = false;
                            proof {
                                lemma_idx_at(pre, oj as int);
                            }
                        },
                        None => {},
                    }
                }
                let ghost mid = *self;
                let node_ref = &mut self.nodes[j];
                node_ref.active = true;
                let target = node_ref.target_id;
                self.active_id = id;
                proof {
                    let post = *self;
                    let jj = j as int;
                    lemma_wf_equiv(pre);
                    lemma_idx_at(pre, jj);
                    assert(mid.nodes@.len() == pre.nodes@.len());
                    assert forall|i: int|
                        0 <= i < pre.nodes@.len() implies mid.nodes@[i]
                        == (MenuNode { active: false, ..pre.nodes@[i] })
                        || mid.nodes@[i] == pre.nodes@[i] by {
                        if mid.nodes@ != pre.nodes@ {
                            let oj = pre.idx_of(pre.active_id);
                            if i != oj {
                                assert(mid.nodes@[i] == pre.nodes@[i]);
                            }
                        }
                    }
                    assert forall|i: int|
                        0 <= i < pre.nodes@.len() implies post.nodes@[i].id == pre.nodes@[i].id
                        && post.nodes@[i]@ == (NodeV {
                            active: post.nodes@[i].active,
                            ..pre.nodes@[i]@
                        }) by {
                        if i != jj {
                            assert(post.nodes@[i] == mid.nodes@[i]);
                        }
                    }
                    assert forall|i: int|
                        0 <= i < post.nodes@.len() implies ((#[trigger] post.nodes@[i].active)
                        <==> post.nodes@[i].id == id) by {
                        if i == jj {
                            assert(post.nodes@[i].active);
                        } else {
                            assert(post.nodes@[i].id != id);
                            if pre.active_id != 0 && pre.active_id != id {
                                let oj = pre.idx_of(pre.active_id);
                                if i == oj {
                                    assert(!post.nodes@[i].active);
                                } else {
                                    assert(post.nodes@[i].active == pre.nodes@[i].active);
                                    assert(pre.nodes@[i].id != pre.active_id);
                                }
                            } else {
                                assert(post.nodes@[i].active == pre.nodes@[i].active);
                            }
                        }
                    }
                    lemma_same_columns(pre, post);
                    assert forall|x: u32|
                        pre.stored(x) implies #[trigger] post.data_of(x) == (NodeV {
                        active: x == id,
                        ..pre.data_of(x)
                    }) by {
                        let w = pre.idx_of(x);
                        assert(pre.nodes@[w].id == x);
                        assert(post.idx_of(x) == w);
                        assert(post.nodes@[w]@ == (NodeV {
                            active: post.nodes@[w].active,
                            ..pre.nodes@[w]@
                        }));
                    }
                    assert(post.inv()) by {
                        assert forall|p: u32, c: u32| #[trigger]
                            post.kids_of(p).contains(c) <==> post.linked(c, p) by {
                            assert(post.kids_of(p) == pre.kids_of(p));
                            assert(pre.kids_of(p).contains(c) <==> pre.linked(c, p));
                        }
                    }
                    lemma_wf_equiv(post);
                    assert(target == pre.data_of(id).target_id);
                }
                target
            },
        }
    }
}

/// `rs[k]` is the first record carrying its id.
pub open spec fn is_first_with(rs: Seq<NodeV>, k: int) -> bool {
    forall|j: int| 0 <= j < k ==> rs[j].id != rs[k].id
}

/// `rs[k]` is the last record carrying its id.
pub open spec fn is_last_with(rs: Seq<NodeV>, k: int) -> bool {
    forall|j: int| k < j < rs.len() ==> rs[j].id != rs[k].id
}

/// Some record in `rs` carries this id.
pub open spec fn has_id(rs: Seq<NodeV>, id: u32) -> bool {
    exists|k: int| 0 <= k < rs.len() && rs[k].id == id
}

/// A record as `build` stores it: the transient `active` flag cleared,
/// everything else kept.
pub open spec fn stored_value(r: NodeV) -> NodeV {
    NodeV { active: false, ..r }
}

/// `Duplicate(d)` is owed for the records `rs`: a record reused an
/// earlier record's id, or carried the root's reserved id `0`.
pub open spec fn duplicate_in(rs: Seq<NodeV>, d: u32) -> bool {
    if d == 0 {
        has_id(rs, 0)
    } else {
        exists|j: int, k: int| 0 <= j < k < rs.len() && rs[j].id == d && rs[k].id == d
    }
}

/// The stored nodes tabulate the records, in input order: an id is
/// stored iff some record carries it (never the root's `0`); a node
/// links under the parent named by the first record with its id (the
/// tree position is fixed on first insertion); its data is the last
/// such record's (later duplicates overwrite the data), with the
/// transient `active` flag cleared.
pub open spec fn tabulates(t: MenuTree, rs: Seq<NodeV>) -> bool {
    &&& forall|id: u32| #[trigger] t.stored(id) <==> (id != 0 && has_id(rs, id))
    &&& forall|k: int|
        0 <= k < rs.len() && rs[k].id != 0 && #[trigger] is_first_with(rs, k)
            ==> t.parent_link(rs[k].id) == rs[k].parent_id
    &&& forall|k: int|
        0 <= k < rs.len() && rs[k].id != 0 && #[trigger] is_last_with(rs, k)
            ==> t.data_of(rs[k].id) == stored_value(rs[k])
}

/// The tree is exactly the forest `build` makes of the records: it
/// tabulates them, it is well-formed — each sibling list strictly
/// ascending by id and holding exactly the ids linked there — and
/// nothing is active. Together these pin every observation of the
/// tree.
pub open spec fn models(t: MenuTree, rs: Seq<NodeV>) -> bool {
    &&& t.wf()
    &&& tabulates(t, rs)
    &&& t.active_of() is None
}

impl MenuTree {
    /// The node's designated parent is neither the root nor stored:
    /// the node was left unattached.
    pub open spec fn orphan(self, o: u32) -> bool {
        &&& self.stored(o)
        &&& self.parent_link(o) != 0
        &&& !self.stored(self.parent_link(o))
    }

    /// Walking parent links from `id` for at most `fuel` steps ends:
    /// at the root, outside the stored nodes, or at an unattached node.
    pub open spec fn chain_settles(self, id: u32, fuel: nat) -> bool
        decreases fuel,
    {
        if id == 0 || !self.stored(id) || !self.attached(id) {
            true
        } else if fuel == 0 {
            false
        } else {
            self.chain_settles(self.parent_link(id), (fuel - 1) as nat)
        }
    }

    /// The parent chain from `c` never ends, with as many steps allowed
    /// as there are nodes: `c` sits on or below a cycle of parent
    /// references.
    pub open spec fn cyclic(self, c: u32) -> bool {
        &&& self.stored(c)
        &&& !self.chain_settles(c, self.node_count() as nat)
    }

    /// Bounded walk up the parent links, deciding `chain_settles`.
    fn settles(&self, id: u32) -> (r: bool)
        requires
            self.base_wf(),
        ensures
            r == self.chain_settles(id, self.node_count() as nat),
    {
        let mut cur = id;
        let mut fuel = self.nodes.len();
        loop
            invariant
                self.base_wf(),
                self.chain_settles(id, self.nodes@.len() as nat) == self.chain_settles(
                    cur,
                    fuel as nat,
                ),
            decreases fuel,
        {
            if cur == 0 {
                return true;
            }
            match self.find_index(cur) {
                None => {
                    return true;
                },
                Some(j) => {
                    proof {
                        lemma_idx_at(*self, j as int);
                    }
                    let p = self.link_parent[j];
                    let parent_present = if p == 0 {
                        true
                    } else {
                        self.find_index(p).is_some()
                    };
                    if !parent_present {
                        assert(!self.attached(cur));
                        return true;
                    }
                    if fuel == 0 {
                        assert(!self.chain_settles(cur, fuel as nat));
                        return false;
                    }
                    proof {
                        assert(self.chain_settles(cur, fuel as nat) == self.chain_settles(
                            p,
                            (fuel - 1) as nat,
                        ));
                    }
                    fuel = fuel - 1;
                    cur = p;
                },
            }
        }
    }
}

/// After a push, a sequence holds exactly what it held before plus the
/// pushed element.
proof fn lemma_contains_after_push<A>(s: Seq<A>, a: A, x: A)
    ensures
        s.push(a).contains(x) <==> (s.contains(x) || x == a),
{
    if s.contains(x) {
        let w = choose|w: int| 0 <= w < s.len() && s[w] == x;
        assert(s.push(a)[w] == x);
    }
    if x == a {
        assert(s.push(a)[s.len() as int] == x);
    }
    if s.push(a).contains(x) {
        let w = choose|w: int| 0 <= w < s.push(a).len() && s.push(a)[w] == x;
        if w < s.len() {
            assert(s[w] == x);
        }
    }
}

/// Trees with the same node ids in the same order and equal link
/// columns agree on id lookups; child lists are not constrained.
proof fn lemma_same_nodes(pre: MenuTree, post: MenuTree)
    requires
        pre.base_wf(),
        post.nodes@.len() == pre.nodes@.len(),
        forall|i: int| 0 <= i < pre.nodes@.len() ==> post.nodes@[i].id == pre.nodes@[i].id,
        post.link_parent@ == pre.link_parent@,
        post.kids@.len() == post.nodes@.len(),
    ensures
        post.base_wf(),
        forall|x: u32| #[trigger] post.stored(x) <==> pre.stored(x),
        forall|x: u32| pre.stored(x) ==> #[trigger] post.idx_of(x) == pre.idx_of(x),
        forall|x: u32| pre.stored(x) ==> #[trigger] post.parent_link(x) == pre.parent_link(x),
{
    assert forall|x: u32| post.stored(x) <==> pre.stored(x) by {
        if pre.stored(x) {
            let j = pre.idx_of(x);
            assert(post.nodes@[j].id == x);
            assert(post.stored(x));
        }
        if post.stored(x) {
            let j = post.idx_of(x);
            assert(0 <= j < post.nodes@.len() && post.nodes@[j].id == x);
            assert(pre.nodes@[j].id == x);
            assert(pre.stored(x));
        }
    }
    assert forall|x: u32| pre.stored(x) implies post.idx_of(x) == pre.idx_of(x) by {
        let j = pre.idx_of(x);
        assert(0 <= j < pre.nodes@.len() && pre.nodes@[j].id == x);
        assert(post.nodes@[j].id == x);
        lemma_idx_at(post, j);
    }
}

/// Overwriting the node at `j` with one of the same id keeps every
/// lookup except the node data under that id.
proof fn lemma_overwrite(pre: MenuTree, post: MenuTree, j: int)
    requires
        pre.base_wf(),
        0 <= j < pre.nodes@.len(),
        post.nodes@ == pre.nodes@.update(j, post.nodes@[j]),
        post.nodes@[j].id == pre.nodes@[j].id,
        post.link_parent@ == pre.link_parent@,
        post.kids@ == pre.kids@,
        post.root_kids@ == pre.root_kids@,
    ensures
        post.base_wf(),
        forall|x: u32| #[trigger] post.stored(x) <==> pre.stored(x),
        forall|x: u32| pre.stored(x) ==> #[trigger] post.idx_of(x) == pre.idx_of(x),
        forall|x: u32| pre.stored(x) ==> #[trigger] post.parent_link(x) == pre.parent_link(x),
        forall|q: u32| #[trigger] post.kids_of(q) == pre.kids_of(q),
        forall|x: u32|
            pre.stored(x) && x != pre.nodes@[j].id ==> #[trigger] post.data_of(x) == pre.data_of(
                x,
            ),
        post.data_of(pre.nodes@[j].id) == post.nodes@[j]@,
{
    assert forall|i: int|
        0 <= i < pre.nodes@.len() implies post.nodes@[i].id == pre.nodes@[i].id by {
        if i != j {
            assert(post.nodes@[i] == pre.nodes@[i]);
        }
    }
    lemma_same_nodes(pre, post);
    assert forall|q: u32| post.kids_of(q) == pre.kids_of(q) by {
        if q != 0 && pre.stored(q) {
            assert(post.idx_of(q) == pre.idx_of(q));
        }
    }
    assert forall|x: u32|
        pre.stored(x) && x != pre.nodes@[j].id implies post.data_of(x) == pre.data_of(x) by {
        let w = pre.idx_of(x);
        assert(pre.nodes@[w].id == x);
        assert(w != j);
        assert(post.nodes@[w] == pre.nodes@[w]);
        assert(post.idx_of(x) == w);
    }
    lemma_idx_at(post, j);
}

/// Appending a node with a fresh id keeps every existing lookup and
/// adds the new one, with an empty child list.
proof fn lemma_append(pre: MenuTree, post: MenuTree, node: MenuNode, p: u32)
    requires
        pre.base_wf(),
        node.id != 0,
        !pre.stored(node.id),
        post.nodes@ == pre.nodes@.push(node),
        post.link_parent@ == pre.link_parent@.push(p),
        post.kids@.len() == pre.kids@.len() + 1,
        forall|i: int| 0 <= i < pre.kids@.len() ==> post.kids@[i] == pre.kids@[i],
        post.kids@[pre.kids@.len() as int]@ == Seq::<u32>::empty(),
        post.root_kids@ == pre.root_kids@,
    ensures
        post.base_wf(),
        forall|x: u32| #[trigger] post.stored(x) <==> (pre.stored(x) || x == node.id),
        forall|x: u32| pre.stored(x) ==> #[trigger] post.idx_of(x) == pre.idx_of(x),
        forall|x: u32| pre.stored(x) ==> #[trigger] post.parent_link(x) == pre.parent_link(x),
        forall|x: u32| pre.stored(x) ==> #[trigger] post.data_of(x) == pre.data_of(x),
        forall|q: u32| #[trigger]
            post.kids_of(q) == (if q == node.id {
                Seq::<u32>::empty()
            } else {
                pre.kids_of(q)
            }),
        post.stored(node.id),
        post.idx_of(node.id) == pre.nodes@.len(),
        post.parent_link(node.id) == p,
        post.data_of(node.id) == node@,
{
    let n = pre.nodes@.len() as int;
    assert(post.nodes@[n] == node);
    assert forall|i: int| 0 <= i < n implies pre.nodes@[i].id != node.id by {
        if pre.nodes@[i].id == node.id {
            assert(pre.stored(node.id));
        }
    }
    assert(post.base_wf());
    lemma_idx_at(post, n);
    assert forall|x: u32| post.stored(x) <==> (pre.stored(x) || x == node.id) by {
        if pre.stored(x) {
            let j = pre.idx_of(x);
            assert(post.nodes@[j].id == x);
            assert(post.stored(x));
        }
        if post.stored(x) {
            let j = post.idx_of(x);
            assert(0 <= j < post.nodes@.len() && post.nodes@[j].id == x);
            if j < n {
                assert(pre.nodes@[j].id == x);
                assert(pre.stored(x));
            }
        }
    }
    assert forall|x: u32|
        pre.stored(x) implies post.idx_of(x) == pre.idx_of(x) && post.parent_link(x)
        == pre.parent_link(x) && post.data_of(x) == pre.data_of(x) by {
        let j = pre.idx_of(x);
        assert(0 <= j < pre.nodes@.len() && pre.nodes@[j].id == x);
        assert(post.nodes@[j].id == x);
        lemma_idx_at(post, j);
    }
    assert forall|q: u32|
        post.kids_of(q) == (if q == node.id {
            Seq::<u32>::empty()
        } else {
            pre.kids_of(q)
        }) by {
        if q == node.id {
            assert(post.kids_of(q) == post.kids@[n]@);
        } else if q != 0 && pre.stored(q) {
            assert(post.idx_of(q) == pre.idx_of(q));
        } else if q != 0 {
            assert(!post.stored(q));
        }
    }
}

/// With the node and link columns themselves unchanged, every id
/// lookup — data included — is unchanged.
proof fn lemma_same_data(pre: MenuTree, post: MenuTree)
    requires
        pre.base_wf(),
        post.nodes@ == pre.nodes@,
        post.link_parent@ == pre.link_parent@,
        post.kids@.len() == post.nodes@.len(),
    ensures
        post.base_wf(),
        forall|x: u32| #[trigger] post.stored(x) <==> pre.stored(x),
        forall|x: u32| pre.stored(x) ==> #[trigger] post.idx_of(x) == pre.idx_of(x),
        forall|x: u32| pre.stored(x) ==> #[trigger] post.parent_link(x) == pre.parent_link(x),
        forall|x: u32| pre.stored(x) ==> #[trigger] post.data_of(x) == pre.data_of(x),
        forall|x: u32| pre.stored(x) ==> #[trigger] post.orphan(x) == pre.orphan(x),
{
    lemma_same_nodes(pre, post);
    assert forall|x: u32| pre.stored(x) implies post.data_of(x) == pre.data_of(x) by {
        assert(post.idx_of(x) == pre.idx_of(x));
    }
    assert forall|x: u32| pre.stored(x) implies post.orphan(x) == pre.orphan(x) by {
        assert(post.parent_link(x) == pre.parent_link(x));
    }
}

/// Tabulation only reads the node and link columns, so it carries over
/// to a tree that keeps them.
proof fn lemma_tabulates_carries(pre: MenuTree, post: MenuTree, rs: Seq<NodeV>)
    requires
        pre.base_wf(),
        tabulates(pre, rs),
        post.nodes@ == pre.nodes@,
        post.link_parent@ == pre.link_parent@,
        post.kids@.len() == post.nodes@.len(),
    ensures
        tabulates(post, rs),
{
    lemma_same_data(pre, post);
    assert forall|id: u32| post.stored(id) <==> (id != 0 && has_id(rs, id)) by {
        assert(pre.stored(id) <==> (id != 0 && has_id(rs, id)));
    }
    assert forall|k: int|
        0 <= k < rs.len() && rs[k].id != 0 && is_first_with(rs, k) implies post.parent_link(
        rs[k].id,
    ) == rs[k].parent_id by {
        assert(0 <= k < rs.len() && rs[k].id == rs[k].id);
        assert(has_id(rs, rs[k].id));
        assert(pre.stored(rs[k].id));
        assert(pre.parent_link(rs[k].id) == rs[k].parent_id);
    }
    assert forall|k: int|
        0 <= k < rs.len() && rs[k].id != 0 && is_last_with(rs, k) implies post.data_of(rs[k].id)
        == stored_value(rs[k]) by {
        assert(0 <= k < rs.len() && rs[k].id == rs[k].id);
        assert(has_id(rs, rs[k].id));
        assert(pre.stored(rs[k].id));
        assert(pre.data_of(rs[k].id) == stored_value(rs[k]));
    }
}

impl MenuTree {
    /// Rebuilds the forest from a flat record batch, replacing any
    /// prior contents except the synthetic root. Every record is keyed
    /// by its id, in input order: a reused id overwrites the node's
    /// data but keeps the tree position of its first insertion; then
    /// every node is inserted into its designated parent's child list
    /// in ascending id order, whatever the arrival order. A record
    /// whose parent is absent is left unattached, a parent chain that
    /// never reaches the root is flagged; neither aborts the build.
    /// The returned report holds exactly the anomalies found.
    pub fn build(&mut self, records: Vec<MenuNode>) -> (report: Vec<Anomaly>)
        ensures
            models(*final(self), views_of(records@)),
            forall|d: u32| #[trigger]
                report@.contains(Anomaly::Duplicate(d)) <==> duplicate_in(
                    views_of(records@),
                    d,
                ),
            forall|o: u32| #[trigger]
                report@.contains(Anomaly::Orphan(o)) <==> final(self).orphan(o),
            forall|c: u32| #[trigger]
                report@.contains(Anomaly::Cycle(c)) <==> final(self).cyclic(c),
    {
        let ghost rs = views_of(records@);
        let mut records = records;
        self.nodes = Vec::new();
        self.link_parent = Vec::new();
        self.kids = Vec::new();
        self.root_kids = Vec::new();
        self.active_id = 0;
        let mut report: Vec<Anomaly> = Vec::new();
        let ghost total = rs.len() as int;
        let ghost mut done: int = 0;

        // First pass: one stored node per id, last write winning on the
        // data, the first record fixing the link parent.
        while records.len() > 0
            invariant
                0 <= done,
                done + records@.len() == total,
                total == rs.len(),
                forall|m: int| 0 <= m < records@.len() ==> (#[trigger] records@[m])@ == rs[done + m],
                self.base_wf(),
                tabulates(*self, rs.subrange(0, done)),
                forall|w: int|
                    0 <= w < self.kids@.len() ==> (#[trigger] self.kids@[w])@ == Seq::<u32>::empty(),
                self.root_kids@ == Seq::<u32>::empty(),
                self.active_id == 0,
                forall|w: int| 0 <= w < self.nodes@.len() ==> !(#[trigger] self.nodes@[w]).active,
                forall|d: u32| #[trigger]
                    report@.contains(Anomaly::Duplicate(d)) <==> duplicate_in(
                        rs.subrange(0, done),
                        d,
                    ),
                forall|o: u32| !(#[trigger] report@.contains(Anomaly::Orphan(o))),
                forall|c: u32| !(#[trigger] report@.contains(Anomaly::Cycle(c))),
            decreases records@.len(),
        {
            let ghost pre_records = records@;
            let ghost prefix = rs.subrange(0, done);
            let ghost pre = *self;
            let ghost pre_report = report@;
            let r = records.remove(0);
            proof {
                pre_records.remove_ensures(0);
                assert(r@ == rs[done]);
                assert forall|m: int|
                    0 <= m < records@.len() implies (#[trigger] records@[m])@ == rs[done + 1
                    + m] by {
                    assert(records@[m] == pre_records.remove(0)[m]);
                    assert(pre_records.remove(0)[m] == pre_records[m + 1]);
                }
                assert(rs.subrange(0, done + 1) =~= prefix.push(rs[done]));
            }
            let ghost prefix2 = rs.subrange(0, done + 1);
            if r.id == 0 {
                report.push(Anomaly::Duplicate(0));
                proof {
                    assert(prefix2[done] == rs[done]);
                    assert(has_id(prefix2, 0));
                    assert forall|id: u32|
                        self.stored(id) <==> (id != 0 && has_id(prefix2, id)) by {
                        assert(self.stored(id) <==> (id != 0 && has_id(prefix, id)));
                        if id != 0 && has_id(prefix2, id) {
                            let w = choose|w: int|
                                0 <= w < prefix2.len() && prefix2[w].id == id;
                            assert(w < done);
                            assert(prefix[w].id == id);
                            assert(has_id(prefix, id));
                        }
                        if has_id(prefix, id) {
                            let w = choose|w: int| 0 <= w < prefix.len() && prefix[w].id == id;
                            assert(prefix2[w].id == id);
                            assert(has_id(prefix2, id));
                        }
                    }
                    assert forall|k: int|
                        0 <= k < prefix2.len() && prefix2[k].id != 0 && is_first_with(prefix2, k)
                            implies self.parent_link(prefix2[k].id) == prefix2[k].parent_id by {
                        assert(k < done);
                        assert(prefix2[k] == prefix[k]);
                        assert forall|j: int| 0 <= j < k implies prefix[j].id != prefix[k].id by {
                            assert(prefix2[j] == prefix[j]);
                        }
                        assert(is_first_with(prefix, k));
                    }
                    assert forall|k: int|
                        0 <= k < prefix2.len() && prefix2[k].id != 0 && is_last_with(prefix2, k)
                            implies self.data_of(prefix2[k].id) == stored_value(prefix2[k]) by {
                        assert(k < done);
                        assert(prefix2[k] == prefix[k]);
                        assert forall|j: int|
                            k < j < prefix.len() implies prefix[j].id != prefix[k].id by {
                            assert(prefix2[j] == prefix[j]);
                        }
                        assert(is_last_with(prefix, k));
                    }
                    assert forall|d: u32|
                        report@.contains(Anomaly::Duplicate(d)) <==> duplicate_in(
                            prefix2,
                            d,
                        ) by {
                        lemma_contains_after_push(
                            pre_report,
                            Anomaly::Duplicate(0),
                            Anomaly::Duplicate(d),
                        );
                        if d != 0 {
                            if duplicate_in(prefix2, d) {
                                let (a, b): (int, int) = choose|a: int, b: int|
                                    0 <= a < b < prefix2.len() && prefix2[a].id == d
                                        && prefix2[b].id == d;
                                assert(prefix2[a] == prefix[a]);
                                if b == done {
                                    assert(prefix2[b].id == 0);
                                } else {
                                    assert(prefix2[b] == prefix[b]);
                                    assert(duplicate_in(prefix, d));
                                }
                            }
                            if duplicate_in(prefix, d) {
                                let (a, b): (int, int) = choose|a: int, b: int|
                                    0 <= a < b < prefix.len() && prefix[a].id == d
                                        && prefix[b].id == d;
                                assert(prefix2[a] == prefix[a]);
                                assert(prefix2[b] == prefix[b]);
                                assert(duplicate_in(prefix2, d));
                            }
                        }
                    }
                    assert forall|o: u32| !(report@.contains(Anomaly::Orphan(o))) by {
                        lemma_contains_after_push(
                            pre_report,
                            Anomaly::Duplicate(0),
                            Anomaly::Orphan(o),
                        );
                    }
                    assert forall|c: u32| !(report@.contains(Anomaly::Cycle(c))) by {
                        lemma_contains_after_push(
                            pre_report,
                            Anomaly::Duplicate(0),
                            Anomaly::Cycle(c),
                        );
                    }
                }
            } else {
                match self.find_index(r.id) {
                    Some(j) => {
                        report.push(Anomaly::Duplicate(r.id));
                        let mut node = r;
                        node.active = false;
                        let ghost nv = node@;
                        proof {
                            lemma_idx_at(pre, j as int);
                        }
                        self.nodes[j] = node;
                        proof {
                            let post = *self;
                            let rid = rs[done].id;
                            lemma_overwrite(pre, post, j as int);
                            assert(post.data_of(rid) == nv);
                            assert(nv == stored_value(rs[done]));
                            assert(pre.stored(rid));
                            assert(has_id(prefix, rid));
                            assert forall|id: u32|
                                post.stored(id) <==> (id != 0 && has_id(prefix2, id)) by {
                                assert(pre.stored(id) <==> (id != 0 && has_id(prefix, id)));
                                if id != 0 && has_id(prefix2, id) {
                                    let w = choose|w: int|
                                        0 <= w < prefix2.len() && prefix2[w].id == id;
                                    if w == done {
                                        assert(id == rid);
                                    } else {
                                        assert(prefix2[w] == prefix[w]);
                                        assert(has_id(prefix, id));
                                    }
                                }
                                if has_id(prefix, id) {
                                    let w = choose|w: int|
                                        0 <= w < prefix.len() && prefix[w].id == id;
                                    assert(prefix2[w].id == id);
                                    assert(has_id(prefix2, id));
                                }
                            }
                            assert forall|k: int|
                                0 <= k < prefix2.len() && prefix2[k].id != 0 && is_first_with(
                                    prefix2,
                                    k,
                                ) implies post.parent_link(prefix2[k].id)
                                == prefix2[k].parent_id by {
                                if k == done {
                                    let w = choose|w: int|
                                        0 <= w < prefix.len() && prefix[w].id == rid;
                                    assert(prefix2[w].id == prefix2[done].id);
                                    assert(false);
                                } else {
                                    assert(prefix2[k] == prefix[k]);
                                    assert forall|j2: int|
                                        0 <= j2 < k implies prefix[j2].id != prefix[k].id by {
                                        assert(prefix2[j2] == prefix[j2]);
                                    }
                                    assert(is_first_with(prefix, k));
                                    assert(pre.parent_link(prefix[k].id) == prefix[k].parent_id);
                                    assert(pre.stored(prefix[k].id));
                                }
                            }
                            assert forall|k: int|
                                0 <= k < prefix2.len() && prefix2[k].id != 0 && is_last_with(
                                    prefix2,
                                    k,
                                ) implies post.data_of(prefix2[k].id) == stored_value(
                                prefix2[k],
                            ) by {
                                if k == done {
                                    assert(prefix2[k] == rs[done]);
                                } else {
                                    assert(prefix2[k] == prefix[k]);
                                    if prefix[k].id == rid {
                                        assert(prefix2[done].id == prefix2[k].id);
                                        assert(false);
                                    } else {
                                        assert forall|j2: int|
                                            k < j2 < prefix.len() implies prefix[j2].id
                                            != prefix[k].id by {
                                            assert(prefix2[j2] == prefix[j2]);
                                        }
                                        assert(is_last_with(prefix, k));
                                        assert(pre.data_of(prefix[k].id) == stored_value(
                                            prefix[k],
                                        ));
                                        assert(pre.stored(prefix[k].id));
                                    }
                                }
                            }
                            assert forall|d: u32|
                                report@.contains(Anomaly::Duplicate(d)) <==> duplicate_in(
                                    prefix2,
                                    d,
                                ) by {
                                lemma_contains_after_push(
                                    pre_report,
                                    Anomaly::Duplicate(rid),
                                    Anomaly::Duplicate(d),
                                );
                                if d == rid {
                                    let w = choose|w: int|
                                        0 <= w < prefix.len() && prefix[w].id == rid;
                                    assert(prefix2[w].id == d);
                                    assert(prefix2[done].id == d);
                                    assert(duplicate_in(prefix2, d));
                                } else if d != 0 {
                                    if duplicate_in(prefix2, d) {
                                        let (a, b): (int, int) = choose|a: int, b: int|
                                            0 <= a < b < prefix2.len() && prefix2[a].id == d
                                                && prefix2[b].id == d;
                                        assert(prefix2[a] == prefix[a]);
                                        if b == done {
                                            assert(prefix2[b].id == rid);
                                        } else {
                                            assert(prefix2[b] == prefix[b]);
                                            assert(duplicate_in(prefix, d));
                                        }
                                    }
                                    if duplicate_in(prefix, d) {
                                        let (a, b): (int, int) = choose|a: int, b: int|
                                            0 <= a < b < prefix.len() && prefix[a].id == d
                                                && prefix[b].id == d;
                                        assert(prefix2[a] == prefix[a]);
                                        assert(prefix2[b] == prefix[b]);
                                        assert(duplicate_in(prefix2, d));
                                    }
                                } else {
                                    assert(duplicate_in(prefix, 0) <==> duplicate_in(prefix2, 0))
                                        by {
                                        if has_id(prefix, 0) {
                                            let w = choose|w: int|
                                                0 <= w < prefix.len() && prefix[w].id == 0;
                                            assert(prefix2[w].id == 0);
                                        }
                                        if has_id(prefix2, 0) {
                                            let w = choose|w: int|
                                                0 <= w < prefix2.len() && prefix2[w].id == 0;
                                            assert(w != done);
                                            assert(prefix[w].id == 0);
                                        }
                                    }
                                }
                            }
                            assert forall|o: u32| !(report@.contains(Anomaly::Orphan(o))) by {
                                lemma_contains_after_push(
                                    pre_report,
                                    Anomaly::Duplicate(rid),
                                    Anomaly::Orphan(o),
                                );
                            }
                            assert forall|c: u32| !(report@.contains(Anomaly::Cycle(c))) by {
                                lemma_contains_after_push(
                                    pre_report,
                                    Anomaly::Duplicate(rid),
                                    Anomaly::Cycle(c),
                                );
                            }
                        }
                    },
                    None => {
                        let mut node = r;
                        node.active = false;
                        let p = node.parent_id;
                        let ghost nv = node@;
                        let ghost nodev = node;
                        self.nodes.push(node);
                        self.link_parent.push(p);
                        self.kids.push(Vec::new());
                        proof {
                            let post = *self;
                            let rid = rs[done].id;
                            assert(post.kids@[pre.kids@.len() as int]@ =~= Seq::<u32>::empty());
                            lemma_append(pre, post, nodev, p);
                            assert(!has_id(prefix, rid)) by {
                                if has_id(prefix, rid) {
                                    assert(pre.stored(rid));
                                }
                            }
                            assert(post.data_of(rid) == nv);
                            assert(nv == stored_value(rs[done]));
                            assert(post.parent_link(rid) == rs[done].parent_id);
                            assert forall|id: u32|
                                post.stored(id) <==> (id != 0 && has_id(prefix2, id)) by {
                                assert(pre.stored(id) <==> (id != 0 && has_id(prefix, id)));
                                assert(post.stored(id) <==> (pre.stored(id) || id == rid));
                                if id != 0 && has_id(prefix2, id) {
                                    let w = choose|w: int|
                                        0 <= w < prefix2.len() && prefix2[w].id == id;
                                    if w == done {
                                        assert(id == rid);
                                    } else {
                                        assert(prefix2[w] == prefix[w]);
                                        assert(has_id(prefix, id));
                                    }
                                }
                                if has_id(prefix, id) {
                                    let w = choose|w: int|
                                        0 <= w < prefix.len() && prefix[w].id == id;
                                    assert(prefix2[w].id == id);
                                    assert(has_id(prefix2, id));
                                }
                                if id == rid {
                                    assert(prefix2[done].id == id);
                                    assert(has_id(prefix2, id));
                                }
                            }
                            assert forall|k: int|
                                0 <= k < prefix2.len() && prefix2[k].id != 0 && is_first_with(
                                    prefix2,
                                    k,
                                ) implies post.parent_link(prefix2[k].id)
                                == prefix2[k].parent_id by {
                                if k == done {
                                    assert(prefix2[k] == rs[done]);
                                } else {
                                    assert(prefix2[k] == prefix[k]);
                                    if prefix[k].id == rid {
                                        assert(has_id(prefix, rid));
                                        assert(false);
                                    } else {
                                        assert forall|j2: int|
                                            0 <= j2 < k implies prefix[j2].id != prefix[k].id by {
                                            assert(prefix2[j2] == prefix[j2]);
                                        }
                                        assert(is_first_with(prefix, k));
                                        assert(pre.parent_link(prefix[k].id)
                                            == prefix[k].parent_id);
                                        assert(pre.stored(prefix[k].id));
                                    }
                                }
                            }
                            assert forall|k: int|
                                0 <= k < prefix2.len() && prefix2[k].id != 0 && is_last_with(
                                    prefix2,
                                    k,
                                ) implies post.data_of(prefix2[k].id) == stored_value(
                                prefix2[k],
                            ) by {
                                if k == done {
                                    assert(prefix2[k] == rs[done]);
                                } else {
                                    assert(prefix2[k] == prefix[k]);
                                    if prefix[k].id == rid {
                                        assert(has_id(prefix, rid));
                                        assert(false);
                                    } else {
                                        assert forall|j2: int|
                                            k < j2 < prefix.len() implies prefix[j2].id
                                            != prefix[k].id by {
                                            assert(prefix2[j2] == prefix[j2]);
                                        }
                                        assert(is_last_with(prefix, k));
                                        assert(pre.data_of(prefix[k].id) == stored_value(
                                            prefix[k],
                                        ));
                                        assert(pre.stored(prefix[k].id));
                                    }
                                }
                            }
                            assert forall|d: u32|
                                report@.contains(Anomaly::Duplicate(d)) <==> duplicate_in(
                                    prefix2,
                                    d,
                                ) by {
                                if d != 0 {
                                    if duplicate_in(prefix2, d) {
                                        let (a, b): (int, int) = choose|a: int, b: int|
                                            0 <= a < b < prefix2.len() && prefix2[a].id == d
                                                && prefix2[b].id == d;
                                        assert(prefix2[a] == prefix[a]);
                                        if b == done {
                                            assert(d == rid);
                                            assert(has_id(prefix, rid));
                                            assert(false);
                                        } else {
                                            assert(prefix2[b] == prefix[b]);
                                            assert(duplicate_in(prefix, d));
                                        }
                                    }
                                    if duplicate_in(prefix, d) {
                                        let (a, b): (int, int) = choose|a: int, b: int|
                                            0 <= a < b < prefix.len() && prefix[a].id == d
                                                && prefix[b].id == d;
                                        assert(prefix2[a] == prefix[a]);
                                        assert(prefix2[b] == prefix[b]);
                                        assert(duplicate_in(prefix2, d));
                                    }
                                } else {
                                    if has_id(prefix, 0) {
                                        let w = choose|w: int|
                                            0 <= w < prefix.len() && prefix[w].id == 0;
                                        assert(prefix2[w].id == 0);
                                        assert(has_id(prefix2, 0));
                                    }
                                    if has_id(prefix2, 0) {
                                        let w = choose|w: int|
                                            0 <= w < prefix2.len() && prefix2[w].id == 0;
                                        assert(w != done);
                                        assert(prefix[w].id == 0);
                                        assert(has_id(prefix, 0));
                                    }
                                }
                            }
                        }
                    },
                }
            }
            proof {
                done = done + 1;
            }
        }
        proof {
            assert(rs.subrange(0, done) =~= rs);
            assert forall|p2: u32, c: u32|
                (#[trigger] self.kids_of(p2).contains(c)) == false by {
                if p2 == 0 {
                    assert(self.kids_of(p2) == self.root_kids@);
                } else if self.stored(p2) {
                    let w = self.idx_of(p2);
                    assert(self.kids_of(p2) == self.kids@[w]@);
                    assert(self.kids@[w]@ == Seq::<u32>::empty());
                }
            }
        }

        // Second pass: insert every node into its designated parent's
        // child list, in ascending id order; absent parents leave the
        // node unattached and are reported.
        let n = self.nodes.len();
        let mut i: usize = 0;
        while i < n
            invariant
                n == self.nodes@.len(),
                i <= n,
                self.base_wf(),
                tabulates(*self, rs),
                self.active_id == 0,
                forall|w: int| 0 <= w < self.nodes@.len() ==> !(#[trigger] self.nodes@[w]).active,
                strictly_sorted(self.root_kids@),
                forall|w: int|
                    0 <= w < self.kids@.len() ==> strictly_sorted((#[trigger] self.kids@[w])@),
                forall|p2: u32, c: u32| #[trigger]
                    self.kids_of(p2).contains(c) <==> (self.linked(c, p2) && self.idx_of(c) < i),
                forall|d: u32| #[trigger]
                    report@.contains(Anomaly::Duplicate(d)) <==> duplicate_in(rs, d),
                forall|o: u32| #[trigger]
                    report@.contains(Anomaly::Orphan(o)) <==> (self.orphan(o) && self.idx_of(o)
                        < i),
                forall|c2: u32| !(#[trigger] report@.contains(Anomaly::Cycle(c2))),
            decreases n - i,
        {
            let cid = self.nodes[i].id;
            let p = self.link_parent[i];
            proof {
                lemma_idx_at(*self, i as int);
                assert(self.stored(cid) && self.idx_of(cid) == i as int && self.parent_link(cid)
                    == p);
            }
            let ghost pre2 = *self;
            let ghost rep2 = report@;
            if p == 0 {
                proof {
                    assert(!pre2.root_kids@.contains(cid)) by {
                        assert(pre2.kids_of(0) == pre2.root_kids@);
                        if pre2.kids_of(0).contains(cid) {
                            assert(pre2.linked(cid, 0) && pre2.idx_of(cid) < i as int);
                        }
                    }
                }
                insert_sorted(&mut self.root_kids, cid);
                proof {
                    let post2 = *self;
                    lemma_tabulates_carries(pre2, post2, rs);
                    lemma_same_data(pre2, post2);
                    assert forall|p2: u32, c: u32| #[trigger]
                        post2.kids_of(p2).contains(c) <==> (post2.linked(c, p2) && post2.idx_of(c)
                            < i + 1) by {
                        if post2.kids_of(p2).contains(c) {
                            if p2 == 0 {
                                assert(post2.root_kids@.contains(c));
                                if c == cid {
                                    assert(post2.stored(cid) && post2.parent_link(cid) == 0);
                                    assert(post2.idx_of(cid) == pre2.idx_of(cid));
                                } else {
                                    assert(pre2.root_kids@.contains(c));
                                    assert(pre2.kids_of(0).contains(c));
                                    assert(pre2.linked(c, 0) && pre2.idx_of(c) < i as int);
                                    assert(post2.stored(c) && post2.parent_link(c)
                                        == pre2.parent_link(c));
                                    assert(post2.idx_of(c) == pre2.idx_of(c));
                                }
                            } else {
                                assert(post2.stored(p2));
                                assert(pre2.stored(p2));
                                assert(post2.idx_of(p2) == pre2.idx_of(p2));
                                assert(post2.kids_of(p2) == pre2.kids_of(p2));
                                assert(pre2.linked(c, p2) && pre2.idx_of(c) < i as int);
                                assert(post2.stored(c) && post2.parent_link(c) == pre2.parent_link(
                                    c,
                                ));
                                assert(post2.idx_of(c) == pre2.idx_of(c));
                            }
                        }
                        if post2.linked(c, p2) && post2.idx_of(c) < i + 1 {
                            assert(post2.stored(c));
                            assert(pre2.stored(c));
                            assert(post2.idx_of(c) == pre2.idx_of(c));
                            assert(post2.parent_link(c) == pre2.parent_link(c));
                            if pre2.idx_of(c) == i as int {
                                assert(c == pre2.nodes@[i as int].id);
                                assert(c == cid);
                                assert(p2 == p);
                                assert(post2.kids_of(0) == post2.root_kids@);
                                assert(post2.root_kids@.contains(cid));
                            } else {
                                assert(pre2.idx_of(c) < i as int);
                                assert(pre2.linked(c, p2));
                                assert(pre2.kids_of(p2).contains(c));
                                if p2 == 0 {
                                    assert(post2.root_kids@.contains(c));
                                    assert(post2.kids_of(0) == post2.root_kids@);
                                } else {
                                    assert(pre2.stored(p2));
                                    assert(post2.idx_of(p2) == pre2.idx_of(p2));
                                    assert(post2.kids_of(p2) == pre2.kids_of(p2));
                                }
                            }
                        }
                    }
                    assert forall|o: u32|
                        report@.contains(Anomaly::Orphan(o)) <==> (post2.orphan(o)
                            && post2.idx_of(o) < i + 1) by {
                        assert(report@.contains(Anomaly::Orphan(o)) <==> (pre2.orphan(o)
                            && pre2.idx_of(o) < i as int));
                        if post2.orphan(o) {
                            assert(post2.stored(o));
                            assert(pre2.stored(o));
                            assert(pre2.orphan(o) == post2.orphan(o));
                            assert(pre2.idx_of(o) == post2.idx_of(o));
                            if post2.idx_of(o) == i as int {
                                assert(o == pre2.nodes@[i as int].id);
                                assert(pre2.parent_link(o) == 0);
                                assert(false);
                            }
                        }
                        if pre2.orphan(o) {
                            assert(pre2.stored(o));
                            assert(post2.orphan(o) == pre2.orphan(o));
                            assert(post2.idx_of(o) == pre2.idx_of(o));
                        }
                    }
                    assert forall|w: int|
                        0 <= w < self.kids@.len() implies strictly_sorted(
                        (#[trigger] self.kids@[w])@) by {
                        assert(self.kids@[w] == pre2.kids@[w]);
                    }
                }
            } else {
                match self.find_index(p) {
                    Some(pj) => {
                        proof {
                            lemma_idx_at(*self, pj as int);
                            assert(self.stored(p) && self.idx_of(p) == pj as int);
                            assert(self.kids_of(p) == self.kids@[pj as int]@);
                            assert(!self.kids@[pj as int]@.contains(cid)) by {
                                if self.kids_of(p).contains(cid) {
                                    assert(self.idx_of(cid) < i as int);
                                }
                            }
                            assert(strictly_sorted(self.kids@[pj as int]@));
                        }
                        let list_ref = &mut self.kids[pj];
                        insert_sorted(list_ref, cid);
                        proof {
                            let post2 = *self;
                            let pjj = pj as int;
                            assert(post2.kids@ == pre2.kids@.update(pjj, post2.kids@[pjj]));
                            lemma_tabulates_carries(pre2, post2, rs);
                            lemma_same_data(pre2, post2);
                            assert(strictly_sorted(post2.kids@[pjj]@));
                            assert(forall|x: u32| #[trigger]
                                post2.kids@[pjj]@.contains(x) <==> (pre2.kids@[pjj]@.contains(x)
                                    || x == cid));
                            assert forall|w: int|
                                0 <= w < post2.kids@.len() implies strictly_sorted(
                                (#[trigger] post2.kids@[w])@) by {
                                if w != pjj {
                                    assert(post2.kids@[w] == pre2.kids@[w]);
                                }
                            }
                            assert forall|p2: u32, c: u32| #[trigger]
                                post2.kids_of(p2).contains(c) <==> (post2.linked(c, p2)
                                    && post2.idx_of(c) < i + 1) by {
                                if post2.kids_of(p2).contains(c) {
                                    if p2 == 0 {
                                        assert(post2.root_kids@.contains(c));
                                        assert(pre2.kids_of(0).contains(c));
                                        assert(pre2.linked(c, 0) && pre2.idx_of(c) < i as int);
                                        assert(post2.stored(c) && post2.parent_link(c)
                                            == pre2.parent_link(c));
                                        assert(post2.idx_of(c) == pre2.idx_of(c));
                                    } else {
                                        assert(post2.stored(p2));
                                        assert(pre2.stored(p2));
                                        assert(post2.idx_of(p2) == pre2.idx_of(p2));
                                        if p2 == p {
                                            assert(post2.kids_of(p2) == post2.kids@[pjj]@);
                                            if c == cid {
                                                assert(post2.stored(cid) && post2.parent_link(cid)
                                                    == p);
                                                assert(post2.idx_of(cid) == pre2.idx_of(cid));
                                            } else {
                                                assert(pre2.kids@[pjj]@.contains(c));
                                                assert(pre2.kids_of(p2).contains(c));
                                                assert(pre2.linked(c, p2) && pre2.idx_of(c)
                                                    < i as int);
                                                assert(post2.stored(c) && post2.parent_link(c)
                                                    == pre2.parent_link(c));
                                                assert(post2.idx_of(c) == pre2.idx_of(c));
                                            }
                                        } else {
                                            assert(pre2.idx_of(p2) != pjj) by {
                                                if pre2.idx_of(p2) == pjj {
                                                    assert(pre2.nodes@[pjj].id == p2);
                                                    assert(pre2.nodes@[pjj].id == p);
                                                }
                                            }
                                            assert(post2.kids@[pre2.idx_of(p2)]
                                                == pre2.kids@[pre2.idx_of(p2)]);
                                            assert(post2.kids_of(p2) == pre2.kids_of(p2));
                                            assert(pre2.linked(c, p2) && pre2.idx_of(c)
                                                < i as int);
                                            assert(post2.stored(c) && post2.parent_link(c)
                                                == pre2.parent_link(c));
                                            assert(post2.idx_of(c) == pre2.idx_of(c));
                                        }
                                    }
                                }
                                if post2.linked(c, p2) && post2.idx_of(c) < i + 1 {
                                    assert(post2.stored(c));
                                    assert(pre2.stored(c));
                                    assert(post2.idx_of(c) == pre2.idx_of(c));
                                    assert(post2.parent_link(c) == pre2.parent_link(c));
                                    if pre2.idx_of(c) == i as int {
                                        assert(c == pre2.nodes@[i as int].id);
                                        assert(c == cid);
                                        assert(p2 == p);
                                        assert(post2.idx_of(p) == pjj);
                                        assert(post2.kids_of(p) == post2.kids@[pjj]@);
                                        assert(post2.kids@[pjj]@.contains(cid));
                                    } else {
                                        assert(pre2.idx_of(c) < i as int);
                                        assert(pre2.linked(c, p2));
                                        assert(pre2.kids_of(p2).contains(c));
                                        if p2 == 0 {
                                            assert(post2.kids_of(0) == pre2.kids_of(0));
                                            assert(post2.kids_of(0).contains(c));
                                        } else if p2 == p {
                                            assert(pre2.kids_of(p2) == pre2.kids@[pjj]@);
                                            assert(post2.kids@[pjj]@.contains(c));
                                            assert(post2.idx_of(p) == pjj);
                                            assert(post2.kids_of(p2) == post2.kids@[pjj]@);
                                        } else {
                                            assert(pre2.stored(p2));
                                            assert(post2.idx_of(p2) == pre2.idx_of(p2));
                                            assert(pre2.idx_of(p2) != pjj) by {
                                                if pre2.idx_of(p2) == pjj {
                                                    assert(pre2.nodes@[pjj].id == p2);
                                                    assert(pre2.nodes@[pjj].id == p);
                                                }
                                            }
                                            assert(post2.kids@[pre2.idx_of(p2)]
                                                == pre2.kids@[pre2.idx_of(p2)]);
                                            assert(post2.kids_of(p2) == pre2.kids_of(p2));
                                        }
                                    }
                                }
                            }
                            assert forall|o: u32|
                                report@.contains(Anomaly::Orphan(o)) <==> (post2.orphan(o)
                                    && post2.idx_of(o) < i + 1) by {
                                assert(report@.contains(Anomaly::Orphan(o)) <==> (pre2.orphan(o)
                                    && pre2.idx_of(o) < i as int));
                                if post2.orphan(o) {
                                    assert(post2.stored(o));
                                    assert(pre2.stored(o));
                                    assert(pre2.orphan(o) == post2.orphan(o));
                                    assert(pre2.idx_of(o) == post2.idx_of(o));
                                    if post2.idx_of(o) == i as int {
                                        assert(o == pre2.nodes@[i as int].id);
                                        assert(pre2.parent_link(cid) == p);
                                        assert(pre2.stored(p));
                                        assert(false);
                                    }
                                }
                                if pre2.orphan(o) {
                                    assert(pre2.stored(o));
                                    assert(post2.orphan(o) == pre2.orphan(o));
                                    assert(post2.idx_of(o) == pre2.idx_of(o));
                                }
                            }
                        }
                    },
                    None => {
                        proof {
                            assert(self.orphan(cid));
                        }
                        report.push(Anomaly::Orphan(cid));
                        proof {
                            let post2 = *self;
                            assert forall|p2: u32, c: u32| #[trigger]
                                post2.kids_of(p2).contains(c) <==> (post2.linked(c, p2)
                                    && post2.idx_of(c) < i + 1) by {
                                if post2.linked(c, p2) && post2.idx_of(c) == i as int {
                                    assert(c == post2.nodes@[i as int].id);
                                    assert(post2.parent_link(c) == p2);
                                    assert(p2 == p);
                                    assert(p != 0 && !post2.stored(p));
                                    assert(false);
                                }
                            }
                            assert forall|o: u32|
                                report@.contains(Anomaly::Orphan(o)) <==> (post2.orphan(o)
                                    && post2.idx_of(o) < i + 1) by {
                                lemma_contains_after_push(
                                    rep2,
                                    Anomaly::Orphan(cid),
                                    Anomaly::Orphan(o),
                                );
                                if o == cid {
                                    assert(post2.orphan(cid));
                                    assert(post2.idx_of(cid) == i as int);
                                } else {
                                    if post2.orphan(o) && post2.idx_of(o) < i + 1 {
                                        if post2.idx_of(o) == i as int {
                                            assert(o == post2.nodes@[i as int].id);
                                            assert(false);
                                        }
                                    }
                                }
                            }
                            assert forall|d: u32|
                                report@.contains(Anomaly::Duplicate(d)) <==> duplicate_in(
                                    rs,
                                    d,
                                ) by {
                                lemma_contains_after_push(
                                    rep2,
                                    Anomaly::Orphan(cid),
                                    Anomaly::Duplicate(d),
                                );
                            }
                            assert forall|c2: u32| !(report@.contains(Anomaly::Cycle(c2))) by {
                                lemma_contains_after_push(
                                    rep2,
                                    Anomaly::Orphan(cid),
                                    Anomaly::Cycle(c2),
                                );
                            }
                        }
                    },
                }
            }
            i += 1;
        }

        proof {
            assert(self.inv()) by {
                assert forall|p2: u32, c: u32| #[trigger]
                    self.kids_of(p2).contains(c) <==> self.linked(c, p2) by {
                    if self.linked(c, p2) {
                        assert(self.stored(c));
                        assert(0 <= self.idx_of(c) < n as int);
                    }
                }
            }
            lemma_wf_equiv(*self);
            assert forall|o: u32|
                report@.contains(Anomaly::Orphan(o)) <==> self.orphan(o) by {
                if self.orphan(o) {
                    assert(self.stored(o));
                    assert(0 <= self.idx_of(o) < n as int);
                }
            }
        }

        // Third pass: walk every node's parent chain, bounded by the
        // node count, and flag the ones that never settle.
        let ghost t2 = *self;
        proof {
            assert(models(t2, rs));
        }
        let mut i2: usize = 0;
        while i2 < n
            invariant
                *self == t2,
                t2.wf(),
                n == t2.nodes@.len(),
                i2 <= n,
                forall|d: u32| #[trigger]
                    report@.contains(Anomaly::Duplicate(d)) <==> duplicate_in(rs, d),
                forall|o: u32| #[trigger] report@.contains(Anomaly::Orphan(o)) <==> t2.orphan(o),
                forall|c: u32| #[trigger]
                    report@.contains(Anomaly::Cycle(c)) <==> (t2.cyclic(c) && t2.idx_of(c) < i2),
            decreases n - i2,
        {
            let cid = self.nodes[i2].id;
            proof {
                lemma_idx_at(t2, i2 as int);
            }
            let s = self.settles(cid);
            let ghost rep3 = report@;
            if !s {
                report.push(Anomaly::Cycle(cid));
            }
            proof {
                assert forall|c: u32|
                    report@.contains(Anomaly::Cycle(c)) <==> (t2.cyclic(c) && t2.idx_of(c) < i2
                        + 1) by {
                    if !s {
                        lemma_contains_after_push(rep3, Anomaly::Cycle(cid), Anomaly::Cycle(c));
                    }
                    if c == cid {
                        assert(t2.cyclic(cid) == !s);
                        assert(t2.idx_of(cid) == i2 as int);
                    } else {
                        if t2.cyclic(c) && t2.idx_of(c) < i2 + 1 {
                            if t2.idx_of(c) == i2 as int {
                                assert(c == t2.nodes@[i2 as int].id);
                                assert(false);
                            }
                        }
                    }
                }
                if !s {
                    assert forall|d: u32|
                        report@.contains(Anomaly::Duplicate(d)) <==> duplicate_in(rs, d) by {
                        lemma_contains_after_push(rep3, Anomaly::Cycle(cid), Anomaly::Duplicate(d));
                    }
                    assert forall|o: u32|
                        report@.contains(Anomaly::Orphan(o)) <==> t2.orphan(o) by {
                        lemma_contains_after_push(rep3, Anomaly::Cycle(cid), Anomaly::Orphan(o));
                    }
                }
                assert(forall|c: u32| #[trigger]
                    report@.contains(Anomaly::Cycle(c)) <==> (t2.cyclic(c) && t2.idx_of(c) < i2
                        + 1));
            }
            i2 += 1;
        }
        proof {
            assert forall|c: u32|
                report@.contains(Anomaly::Cycle(c)) <==> t2.cyclic(c) by {
                if t2.cyclic(c) {
                    assert(t2.stored(c));
                    assert(0 <= t2.idx_of(c) < n as int);
                }
            }
        }
        report
    }
}

/// Two strictly sorted sequences with the same members are equal: a
/// sibling list is fully determined by which ids hang in it.
pub proof fn lemma_sorted_same_elems(a: Seq<u32>, b: Seq<u32>)
    requires
        strictly_sorted(a),
        strictly_sorted(b),
        forall|x: u32| #[trigger] a.contains(x) <==> b.contains(x),
    ensures
        a == b,
    decreases a.len(),
{
    if a.len() == 0 {
        if b.len() > 0 {
            assert(b.contains(b[0]));
            assert(a.contains(b[0]));
            assert(false);
        }
        assert(a =~= b);
    } else {
        assert(a.contains(a[0]));
        assert(b.contains(a[0]));
        let wb = choose|w: int| 0 <= w < b.len() && b[w] == a[0];
        assert(b[0] <= a[0]) by {
            if wb > 0 {
                assert(b[0] < b[wb]);
            }
        }
        assert(b.contains(b[0]));
        assert(a.contains(b[0]));
        let wa = choose|w: int| 0 <= w < a.len() && a[w] == b[0];
        assert(a[0] <= b[0]) by {
            if wa > 0 {
                assert(a[0] < a[wa]);
            }
        }
        assert(a[0] == b[0]);
        let a1 = a.drop_first();
        let b1 = b.drop_first();
        assert(strictly_sorted(a1)) by {
            assert forall|i: int, j: int| 0 <= i < j < a1.len() implies a1[i] < a1[j] by {
                assert(a1[i] == a[i + 1] && a1[j] == a[j + 1]);
            }
        }
        assert(strictly_sorted(b1)) by {
            assert forall|i: int, j: int| 0 <= i < j < b1.len() implies b1[i] < b1[j] by {
                assert(b1[i] == b[i + 1] && b1[j] == b[j + 1]);
            }
        }
        assert forall|x: u32| #[trigger] a1.contains(x) <==> b1.contains(x) by {
            if a1.contains(x) {
                let w = choose|w: int| 0 <= w < a1.len() && a1[w] == x;
                assert(a[w + 1] == x);
                assert(a.contains(x));
                assert(a[0] < a[w + 1]);
                assert(b.contains(x));
                let v = choose|v: int| 0 <= v < b.len() && b[v] == x;
                assert(v != 0);
                assert(b1[v - 1] == x);
                assert(b1.contains(x));
            }
            if b1.contains(x) {
                let w = choose|w: int| 0 <= w < b1.len() && b1[w] == x;
                assert(b[w + 1] == x);
                assert(b.contains(x));
                assert(b[0] < b[w + 1]);
                assert(a.contains(x));
                let v = choose|v: int| 0 <= v < a.len() && a[v] == x;
                assert(v != 0);
                assert(a1[v - 1] == x);
                assert(a1.contains(x));
            }
        }
        lemma_sorted_same_elems(a1, b1);
        assert(a =~= b) by {
            assert(a.len() == b.len());
            assert forall|i: int| 0 <= i < a.len() implies a[i] == b[i] by {
                if i > 0 {
                    assert(a1[i - 1] == b1[i - 1]);
                    assert(a[i] == a1[i - 1] && b[i] == b1[i - 1]);
                }
            }
        }
    }
}

/// Determinism of `build`: two trees built from the same records in
/// any order — ids distinct — agree on every observation: the same ids
/// are stored, with the same data and links, and every parent has the
/// same ordered child list.
pub proof fn lemma_build_deterministic(
    t1: MenuTree,
    t2: MenuTree,
    rs1: Seq<NodeV>,
    rs2: Seq<NodeV>,
)
    requires
        models(t1, rs1),
        models(t2, rs2),
        rs1.to_multiset() == rs2.to_multiset(),
        forall|j: int, k: int| 0 <= j < k < rs1.len() ==> rs1[j].id != rs1[k].id,
    ensures
        forall|x: u32| #[trigger] t1.stored(x) <==> t2.stored(x),
        forall|x: u32| t1.stored(x) ==> #[trigger] t1.data_of(x) == t2.data_of(x),
        forall|x: u32| t1.stored(x) ==> #[trigger] t1.parent_link(x) == t2.parent_link(x),
        forall|p: u32| #[trigger] t1.kids_of(p) == t2.kids_of(p),
        t1.active_of() == t2.active_of(),
{
    broadcast use vstd::seq_lib::group_to_multiset_ensures;

    assert forall|v: NodeV| #[trigger] rs1.contains(v) <==> rs2.contains(v) by {
        assert(rs1.contains(v) <==> rs1.to_multiset().count(v) > 0);
        assert(rs2.contains(v) <==> rs2.to_multiset().count(v) > 0);
    }
    assert forall|id: u32| #[trigger] has_id(rs1, id) <==> has_id(rs2, id) by {
        if has_id(rs1, id) {
            let k = choose|k: int| 0 <= k < rs1.len() && rs1[k].id == id;
            assert(rs1.contains(rs1[k]));
            assert(rs2.contains(rs1[k]));
            let m = choose|m: int| 0 <= m < rs2.len() && rs2[m] == rs1[k];
            assert(rs2[m].id == id);
            assert(has_id(rs2, id));
        }
        if has_id(rs2, id) {
            let k = choose|k: int| 0 <= k < rs2.len() && rs2[k].id == id;
            assert(rs2.contains(rs2[k]));
            assert(rs1.contains(rs2[k]));
            let m = choose|m: int| 0 <= m < rs1.len() && rs1[m] == rs2[k];
            assert(rs1[m].id == id);
            assert(has_id(rs1, id));
        }
    }
    assert forall|j: int, k: int| 0 <= j < k < rs2.len() implies rs2[j].id != rs2[k].id by {
        if rs2[j].id == rs2[k].id {
            if rs2[j] == rs2[k] {
                let v = rs2[j];
                rs2.remove_ensures(j);
                assert(rs2.remove(j)[k - 1] == v);
                assert(rs2.remove(j).contains(v));
                assert(rs2.remove(j).to_multiset() =~= rs2.to_multiset().remove(v));
                assert(rs2.remove(j).to_multiset().count(v) > 0);
                assert(rs2.to_multiset().count(v) >= 2);
                assert(rs1.to_multiset().count(v) >= 2);
                assert(rs1.contains(v));
                let a = choose|a: int| 0 <= a < rs1.len() && rs1[a] == v;
                rs1.remove_ensures(a);
                assert(rs1.remove(a).to_multiset() =~= rs1.to_multiset().remove(v));
                assert(rs1.remove(a).to_multiset().count(v) > 0);
                assert(rs1.remove(a).contains(v));
                let b = choose|b: int| 0 <= b < rs1.remove(a).len() && rs1.remove(a)[b] == v;
                if b < a {
                    assert(rs1[b] == v);
                    assert(rs1[b].id == rs1[a].id);
                } else {
                    assert(rs1[b + 1] == v);
                    assert(rs1[a].id == rs1[b + 1].id);
                }
                assert(false);
            } else {
                assert(rs2.contains(rs2[j]));
                assert(rs2.contains(rs2[k]));
                assert(rs1.contains(rs2[j]));
                assert(rs1.contains(rs2[k]));
                let a = choose|a: int| 0 <= a < rs1.len() && rs1[a] == rs2[j];
                let b = choose|b: int| 0 <= b < rs1.len() && rs1[b] == rs2[k];
                assert(a != b);
                assert(rs1[a].id == rs1[b].id);
                assert(false);
            }
        }
    }
    assert forall|x: u32| t1.stored(x) <==> t2.stored(x) by {
        assert(t1.stored(x) <==> (x != 0 && has_id(rs1, x)));
        assert(t2.stored(x) <==> (x != 0 && has_id(rs2, x)));
        assert(has_id(rs1, x) <==> has_id(rs2, x));
    }
    assert forall|x: u32|
        t1.stored(x) implies #[trigger] t1.data_of(x) == t2.data_of(x) && t1.parent_link(x)
        == t2.parent_link(x) by {
        assert(has_id(rs1, x));
        assert(has_id(rs2, x));
        let k1 = choose|k: int| 0 <= k < rs1.len() && rs1[k].id == x;
        let k2 = choose|k: int| 0 <= k < rs2.len() && rs2[k].id == x;
        assert(rs1.contains(rs1[k1]));
        assert(rs2.contains(rs1[k1]));
        let m = choose|m: int| 0 <= m < rs2.len() && rs2[m] == rs1[k1];
        assert(rs2[m].id == x);
        assert(m == k2) by {
            if m < k2 {
                assert(rs2[m].id != rs2[k2].id);
            } else if k2 < m {
                assert(rs2[k2].id != rs2[m].id);
            }
        }
        assert(rs2[k2] == rs1[k1]);
        assert(is_first_with(rs1, k1)) by {
            assert forall|j: int| 0 <= j < k1 implies rs1[j].id != rs1[k1].id by {}
        }
        assert(is_last_with(rs1, k1)) by {
            assert forall|j: int| k1 < j < rs1.len() implies rs1[j].id != rs1[k1].id by {}
        }
        assert(is_first_with(rs2, k2)) by {
            assert forall|j: int| 0 <= j < k2 implies rs2[j].id != rs2[k2].id by {}
        }
        assert(is_last_with(rs2, k2)) by {
            assert forall|j: int| k2 < j < rs2.len() implies rs2[j].id != rs2[k2].id by {}
        }
        assert(t1.parent_link(x) == rs1[k1].parent_id);
        assert(t1.data_of(x) == stored_value(rs1[k1]));
        assert(t2.parent_link(x) == rs2[k2].parent_id);
        assert(t2.data_of(x) == stored_value(rs2[k2]));
    }
    assert forall|x: u32| t1.stored(x) implies #[trigger] t1.parent_link(x) == t2.parent_link(
        x,
    ) by {
        assert(t1.data_of(x) == t2.data_of(x));
    }
    assert forall|p: u32| t1.kids_of(p) == t2.kids_of(p) by {
        assert(strictly_sorted(t1.kids_of(p)));
        assert(strictly_sorted(t2.kids_of(p)));
        assert forall|c: u32| #[trigger]
            t1.kids_of(p).contains(c) <==> t2.kids_of(p).contains(c) by {
            assert(t1.kids_of(p).contains(c) <==> t1.linked(c, p));
            assert(t2.kids_of(p).contains(c) <==> t2.linked(c, p));
            if t1.linked(c, p) {
                assert(t1.stored(c) && t2.stored(c));
                assert(t2.parent_link(c) == t1.parent_link(c));
                assert(t2.linked(c, p));
            }
            if t2.linked(c, p) {
                assert(t2.stored(c) && t1.stored(c));
                assert(t1.data_of(c) == t2.data_of(c));
                assert(t1.parent_link(c) == t2.parent_link(c));
                assert(t1.linked(c, p));
            }
        }
        lemma_sorted_same_elems(t1.kids_of(p), t2.kids_of(p));
    }
}

/// `s` walks down from the synthetic root: it starts at `0` and each
/// element is a child of the one before it.
pub open spec fn is_path(t: MenuTree, s: Seq<u32>) -> bool {
    &&& s.len() >= 1
    &&& s[0] == 0
    &&& forall|i: int| 0 <= i < s.len() - 1 ==> #[trigger] t.kids_of(s[i]).contains(s[i + 1])
}

/// `id` can be reached walking down from the synthetic root.
pub open spec fn reachable(t: MenuTree, id: u32) -> bool {
    exists|s: Seq<u32>| is_path(t, s) && s.last() == id
}

/// Forest invariant: in a well-formed tree two paths to the same node
/// are the same path — every reachable node has exactly one way back
/// to the root, so there is no multi-parenting.
pub proof fn lemma_unique_path(t: MenuTree, s1: Seq<u32>, s2: Seq<u32>)
    requires
        t.wf(),
        is_path(t, s1),
        is_path(t, s2),
        s1.last() == s2.last(),
    ensures
        s1 == s2,
    decreases s1.len(),
{
    let c = s1.last();
    if c == 0 {
        assert(s1.len() == 1) by {
            if s1.len() >= 2 {
                let i = s1.len() - 2;
                assert(t.kids_of(s1[i]).contains(s1[i + 1]));
                assert(t.linked(0, s1[i]));
                assert(t.stored(0));
                assert(false);
            }
        }
        assert(s2.len() == 1) by {
            if s2.len() >= 2 {
                let i = s2.len() - 2;
                assert(t.kids_of(s2[i]).contains(s2[i + 1]));
                assert(t.linked(0, s2[i]));
                assert(t.stored(0));
                assert(false);
            }
        }
        assert(s1 =~= s2);
    } else {
        assert(s1.len() >= 2) by {
            if s1.len() == 1 {
                assert(s1.last() == s1[0]);
            }
        }
        assert(s2.len() >= 2) by {
            if s2.len() == 1 {
                assert(s2.last() == s2[0]);
            }
        }
        let p1v = s1[s1.len() - 2];
        let p2v = s2[s2.len() - 2];
        assert(t.kids_of(p1v).contains(s1[s1.len() - 2 + 1]));
        assert(t.kids_of(p2v).contains(s2[s2.len() - 2 + 1]));
        assert(t.linked(c, p1v));
        assert(t.linked(c, p2v));
        assert(p1v == p2v);
        let r1 = s1.drop_last();
        let r2 = s2.drop_last();
        assert(is_path(t, r1)) by {
            assert(r1.len() >= 1);
            assert(r1[0] == s1[0]);
            assert forall|i: int|
                0 <= i < r1.len() - 1 implies #[trigger] t.kids_of(r1[i]).contains(r1[i + 1]) by {
                assert(r1[i] == s1[i] && r1[i + 1] == s1[i + 1]);
                assert(t.kids_of(s1[i]).contains(s1[i + 1]));
            }
        }
        assert(is_path(t, r2)) by {
            assert(r2.len() >= 1);
            assert(r2[0] == s2[0]);
            assert forall|i: int|
                0 <= i < r2.len() - 1 implies #[trigger] t.kids_of(r2[i]).contains(r2[i + 1]) by {
                assert(r2[i] == s2[i] && r2[i + 1] == s2[i + 1]);
                assert(t.kids_of(s2[i]).contains(s2[i + 1]));
            }
        }
        assert(r1.last() == p1v);
        assert(r2.last() == p2v);
        lemma_unique_path(t, r1, r2);
        assert(s1 =~= s2) by {
            assert(r1.len() == r2.len());
            assert(s1.len() == s2.len());
            assert forall|i: int| 0 <= i < s1.len() implies s1[i] == s2[i] by {
                if i < s1.len() - 1 {
                    assert(s1[i] == r1[i] && s2[i] == r2[i]);
                }
            }
        }
    }
}

/// Forest invariant, stated on the node: every node reachable from the
/// synthetic root has exactly one path back to it.
pub proof fn lemma_one_path(t: MenuTree, id: u32)
    requires
        t.wf(),
        reachable(t, id),
    ensures
        exists|s: Seq<u32>|
            is_path(t, s) && s.last() == id && (forall|s2: Seq<u32>|
                is_path(t, s2) && s2.last() == id ==> s2 == s),
{
    let s = choose|s: Seq<u32>| is_path(t, s) && s.last() == id;
    assert forall|s2: Seq<u32>| is_path(t, s2) && s2.last() == id implies s2 == s by {
        lemma_unique_path(t, s2, s);
    }
    assert(is_path(t, s) && s.last() == id && (forall|s2: Seq<u32>|
        is_path(t, s2) && s2.last() == id ==> s2 == s));
}

/// A path never visits a node twice: no reachable node lies on a
/// cycle.
pub proof fn lemma_path_no_repeat(t: MenuTree, s: Seq<u32>, i: int, j: int)
    requires
        t.wf(),
        is_path(t, s),
        0 <= i < j < s.len(),
    ensures
        s[i] != s[j],
{
    if s[i] == s[j] {
        let a = s.subrange(0, i + 1);
        let b = s.subrange(0, j + 1);
        assert(is_path(t, a)) by {
            assert(a[0] == s[0]);
            assert forall|w: int|
                0 <= w < a.len() - 1 implies #[trigger] t.kids_of(a[w]).contains(a[w + 1]) by {
                assert(a[w] == s[w] && a[w + 1] == s[w + 1]);
                assert(t.kids_of(s[w]).contains(s[w + 1]));
            }
        }
        assert(is_path(t, b)) by {
            assert(b[0] == s[0]);
            assert forall|w: int|
                0 <= w < b.len() - 1 implies #[trigger] t.kids_of(b[w]).contains(b[w + 1]) by {
                assert(b[w] == s[w] && b[w + 1] == s[w + 1]);
                assert(t.kids_of(s[w]).contains(s[w + 1]));
            }
        }
        assert(a.last() == s[i]);
        assert(b.last() == s[j]);
        lemma_unique_path(t, a, b);
        assert(a.len() == b.len());
        assert(false);
    }
}

/// Orphan handling: a record whose designated parent is absent from
/// the batch (and is not the root) is stored but hangs in no child
/// list at all.
pub proof fn lemma_orphan_excluded(t: MenuTree, rs: Seq<NodeV>, k: int)
    requires
        models(t, rs),
        0 <= k < rs.len(),
        rs[k].id != 0,
        is_first_with(rs, k),
        rs[k].parent_id != 0,
        !has_id(rs, rs[k].parent_id),
    ensures
        t.stored(rs[k].id),
        t.orphan(rs[k].id),
        forall|p: u32| !(#[trigger] t.kids_of(p).contains(rs[k].id)),
{
    let id = rs[k].id;
    assert(has_id(rs, id));
    assert(t.stored(id));
    assert(t.parent_link(id) == rs[k].parent_id);
    assert(!t.stored(rs[k].parent_id));
    assert forall|p: u32| !(t.kids_of(p).contains(id)) by {
        if t.kids_of(p).contains(id) {
            assert(t.linked(id, p));
            assert(p == rs[k].parent_id);
            assert(p != 0 && !t.stored(p));
            assert(false);
        }
    }
}

/// The flip side of orphan handling: a record whose designated parent
/// is the root or present in the batch hangs in exactly that parent's
/// child list — an orphan elsewhere in the batch prevents nothing.
pub proof fn lemma_child_attached(t: MenuTree, rs: Seq<NodeV>, k: int)
    requires
        models(t, rs),
        0 <= k < rs.len(),
        rs[k].id != 0,
        is_first_with(rs, k),
        rs[k].parent_id == 0 || has_id(rs, rs[k].parent_id),
    ensures
        t.kids_of(rs[k].parent_id).contains(rs[k].id),
        forall|p: u32| p != rs[k].parent_id ==> !(#[trigger] t.kids_of(p).contains(rs[k].id)),
{
    let id = rs[k].id;
    assert(has_id(rs, id));
    assert(t.stored(id));
    assert(t.parent_link(id) == rs[k].parent_id);
    if rs[k].parent_id != 0 {
        assert(t.stored(rs[k].parent_id));
    }
    assert(t.linked(id, rs[k].parent_id));
    assert(t.kids_of(rs[k].parent_id).contains(id));
    assert forall|p: u32| p != rs[k].parent_id implies !(t.kids_of(p).contains(id)) by {
        if t.kids_of(p).contains(id) {
            assert(t.linked(id, p));
        }
    }
}

/// At most one node is active in a well-formed tree, whatever calls
/// produced it.
pub proof fn lemma_single_active(t: MenuTree)
    requires
        t.wf(),
    ensures
        forall|x: u32, y: u32|
            t.stored(x) && t.stored(y) && (#[trigger] t.data_of(x)).active && (#[trigger] t.data_of(
                y,
            )).active ==> x == y,
{
    assert forall|x: u32, y: u32|
        t.stored(x) && t.stored(y) && t.data_of(x).active && t.data_of(y).active implies x
        == y by {
        assert(t.active_of() == Some(x));
        assert(t.active_of() == Some(y));
    }
}

/// Activating `x` and then a different `y` leaves `x` inactive and `y`
/// the single active node.
pub proof fn lemma_activate_pair(
    t0: MenuTree,
    t1: MenuTree,
    t2: MenuTree,
    x: u32,
    y: u32,
    tx: u32,
    ty: u32,
)
    requires
        activate_result(t0, t1, x, tx),
        activate_result(t1, t2, y, ty),
        t0.stored(x),
        t0.stored(y),
        x != y,
    ensures
        !t2.data_of(x).active,
        t2.data_of(y).active,
        t2.active_of() == Some(y),
{
    assert(t1.stored(x) && t1.stored(y));
    assert(t1.data_of(x) == (NodeV { active: true, ..t0.data_of(x) }));
    assert(t1.data_of(y) == (NodeV { active: y == x, ..t0.data_of(y) }));
    assert(t2.data_of(x) == (NodeV { active: x == y, ..t1.data_of(x) }));
    assert(t2.data_of(y) == (NodeV { active: true, ..t1.data_of(y) }));
}

/// Toggling the same node twice restores every observation of the
/// tree: node data (the `expanded` flag included), child lists and the
/// active node.
pub proof fn lemma_toggle_involution(t0: MenuTree, t1: MenuTree, t2: MenuTree, id: u32)
    requires
        toggle_result(t0, t1, id),
        toggle_result(t1, t2, id),
    ensures
        forall|x: u32| #[trigger] t2.stored(x) <==> t0.stored(x),
        forall|x: u32| t0.stored(x) ==> #[trigger] t2.data_of(x) == t0.data_of(x),
        forall|p: u32| #[trigger] t2.kids_of(p) == t0.kids_of(p),
        t2.active_of() == t0.active_of(),
{
    assert forall|x: u32| t0.stored(x) implies #[trigger] t2.data_of(x) == t0.data_of(x) by {
        assert(t1.stored(x));
        if x == id {
            assert(t1.data_of(id) == (NodeV {
                expanded: !t0.data_of(id).expanded,
                ..t0.data_of(id)
            }));
            assert(t2.data_of(id) == (NodeV {
                expanded: !t1.data_of(id).expanded,
                ..t1.data_of(id)
            }));
        } else {
            assert(t1.data_of(x) == t0.data_of(x));
            assert(t2.data_of(x) == t1.data_of(x));
        }
    }
    assert forall|p: u32| t2.kids_of(p) == t0.kids_of(p) by {
        assert(t2.kids_of(p) == t1.kids_of(p));
        assert(t1.kids_of(p) == t0.kids_of(p));
    }
}

} // verus!
