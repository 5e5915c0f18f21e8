//! The tree of style sheets: which style sheet applies below which, found by walking up the
//! entity tree from the entities that changed.
use super::world::{find_index, lemma_find_index, lemma_find_index_bounds, nodes_well_formed, rank, NodeView, UiWorld};
use vstd::prelude::*;

verus! {

/// A style sheet in the tree: the entity it is attached to, its handle, and the handle of
/// the style sheet above it, if any.
#[derive(Clone, Copy, Debug, PartialEq, Eq, Structural)]
pub struct StyleTreeNode {
    pub entity: u64,
    pub sheet_handle: u64,
    pub parent: Option<u64>,
}

/// The style sheets found so far, each under its handle.
pub struct StyleTree {
    nodes: Vec<StyleTreeNode>,
}

/// The position of the first node with the handle `s`.
pub open spec fn tree_find(tree: Seq<StyleTreeNode>, s: u64) -> Option<int> {
    if exists|i: int| 0 <= i < tree.len() && tree[i].sheet_handle == s && forall|j: int| 0 <= j < i ==> tree[j].sheet_handle != s {
        Some(choose|i: int| 0 <= i < tree.len() && tree[i].sheet_handle == s && forall|j: int| 0 <= j < i ==> tree[j].sheet_handle != s)
    } else {
        None
    }
}

/// One more than the position of the first node with the handle `s`, 0 if there is none.
pub open spec fn tree_rank(tree: Seq<StyleTreeNode>, s: u64) -> nat {
    match tree_find(tree, s) {
        Some(i) => (i + 1) as nat,
        None => 0,
    }
}

/// Each node's parent handle names a node that comes before it.
pub open spec fn tree_well_formed(tree: Seq<StyleTreeNode>) -> bool {
    forall|i: int|
        0 <= i < tree.len() && #[trigger] tree[i].parent is Some ==> match tree_find(tree, tree[i].parent->0) {
            Some(k) => k < i,
            None => false,
        }
}

proof fn lemma_tree_find_first(tree: Seq<StyleTreeNode>, s: u64, i: int)
    requires
        0 <= i < tree.len(),
        tree[i].sheet_handle == s,
        forall|j: int| 0 <= j < i ==> tree[j].sheet_handle != s,
    ensures
        tree_find(tree, s) == Some(i),
{
    let k = choose|k: int| 0 <= k < tree.len() && tree[k].sheet_handle == s && forall|j: int| 0 <= j < k ==> tree[j].sheet_handle != s;
    if k < i {
        assert(tree[k].sheet_handle != s);
    } else if k > i {
        assert(tree[i].sheet_handle != s);
    }
}

proof fn lemma_tree_find_facts(tree: Seq<StyleTreeNode>, s: u64)
    ensures
        match tree_find(tree, s) {
            Some(k) => 0 <= k < tree.len() && tree[k].sheet_handle == s && forall|j: int| 0 <= j < k ==> tree[j].sheet_handle != s,
            None => forall|j: int| 0 <= j < tree.len() ==> tree[j].sheet_handle != s,
        },
{
    if tree_find(tree, s) is None {
        assert forall|j: int| 0 <= j < tree.len() implies tree[j].sheet_handle != s by {
            if tree[j].sheet_handle == s {
                // the first node with handle `s` is at or before `j`
                lemma_first_exists(tree, s, j);
            }
        }
    }
}

proof fn lemma_first_exists(tree: Seq<StyleTreeNode>, s: u64, j: int)
    requires
        0 <= j < tree.len(),
        tree[j].sheet_handle == s,
    ensures
        exists|i: int| 0 <= i < tree.len() && tree[i].sheet_handle == s && forall|k: int| 0 <= k < i ==> tree[k].sheet_handle != s,
    decreases j,
{
    if exists|k: int| 0 <= k < j && tree[k].sheet_handle == s {
        let k = choose|k: int| 0 <= k < j && tree[k].sheet_handle == s;
        lemma_first_exists(tree, s, k);
    } else {
        assert(forall|k: int| 0 <= k < j ==> tree[k].sheet_handle != s);
    }
}

proof fn lemma_tree_find_push(tree: Seq<StyleTreeNode>, x: StyleTreeNode, s: u64)
    ensures
        tree_find(tree, s) matches Some(k) ==> tree_find(tree.push(x), s) == Some(k),
        tree_find(tree, s) is None && x.sheet_handle == s ==> tree_find(tree.push(x), s) == Some(tree.len() as int),
        tree_find(tree, s) is None && x.sheet_handle != s ==> tree_find(tree.push(x), s) is None,
{
    lemma_tree_find_facts(tree, s);
    lemma_tree_find_facts(tree.push(x), s);
    let t = tree.push(x);
    match tree_find(tree, s) {
        Some(k) => {
            assert(t[k] == tree[k]);
            lemma_tree_find_first(t, s, k);
        },
        None => {
            if x.sheet_handle == s {
                lemma_tree_find_first(t, s, tree.len() as int);
            } else {
                match tree_find(t, s) {
                    Some(k) => {
                        assert(t[k] == tree[k] || k == tree.len());
                    },
                    None => {},
                }
            }
        },
    }
}

/// The entities and handles of the style sheets that apply under the style sheet `s`,
/// outermost first and `s` last.
pub open spec fn resolve(tree: Seq<StyleTreeNode>, s: u64) -> Seq<(u64, u64)>
    decreases tree_rank(tree, s),
{
    match tree_find(tree, s) {
        Some(k) => {
            let n = tree[k];
            let here = seq![(n.entity, n.sheet_handle)];
            match n.parent {
                Some(p) => if tree_rank(tree, p) < tree_rank(tree, s) {
                    resolve(tree, p) + here
                } else {
                    here
                },
                None => here,
            }
        },
        None => Seq::empty(),
    }
}

/// The style sheet that applies to entity `e` and the tree after looking for it: the
/// nearest style sheet at or above `e`. A style sheet found for the first time is added
/// to the tree, after the style sheets above it.
pub open spec fn find_root(nodes: Seq<NodeView>, tree: Seq<StyleTreeNode>, e: u64) -> (
    Seq<StyleTreeNode>,
    Option<StyleTreeNode>,
)
    decreases rank(nodes, e),
{
    match find_index(nodes, e) {
        None => (tree, None),
        Some(i) => {
            let n = nodes[i];
            match n.style_sheet {
                Some(s) => match tree_find(tree, s) {
                    Some(k) => (tree, Some(tree[k])),
                    None => {
                        let (t2, above) = match n.parent {
                            Some(p) => if rank(nodes, p) < rank(nodes, e) {
                                find_root(nodes, tree, p)
                            } else {
                                (tree, None)
                            },
                            None => (tree, None),
                        };
                        let parent = match above {
                            Some(a) => Some(a.sheet_handle),
                            None => None,
                        };
                        let node = StyleTreeNode { entity: e, sheet_handle: s, parent };
                        (t2.push(node), Some(node))
                    },
                },
                None => match n.parent {
                    Some(p) => if rank(nodes, p) < rank(nodes, e) {
                        find_root(nodes, tree, p)
                    } else {
                        (tree, None)
                    },
                    None => (tree, None),
                },
            }
        },
    }
}

/// The style sheets that apply to entity `e`, outermost first, and the tree after
/// looking for them.
pub open spec fn style_roots(nodes: Seq<NodeView>, tree: Seq<StyleTreeNode>, e: u64) -> (
    Seq<StyleTreeNode>,
    Seq<(u64, u64)>,
) {
    let (t2, root) = find_root(nodes, tree, e);
    match root {
        Some(n) => (t2, resolve(t2, n.sheet_handle)),
        None => (t2, Seq::empty()),
    }
}

impl View for StyleTree {
    type V = Seq<StyleTreeNode>;

    closed spec fn view(&self) -> Seq<StyleTreeNode> {
        self.nodes@
    }
}

impl StyleTree {
    /// An empty tree.
    pub fn new() -> (r: StyleTree)
        ensures
            r@ == Seq::<StyleTreeNode>::empty(),
            tree_well_formed(r@),
    {
        StyleTree { nodes: Vec::new() }
    }

    /// The number of style sheets in the tree.
    pub fn len(&self) -> (r: usize)
        ensures
            r == self@.len(),
    {
        self.nodes.len()
    }

    fn find(&self, s: u64) -> (r: Option<usize>)
        ensures
            match r {
                Some(k) => tree_find(self@, s) == Some(k as int),
                None => tree_find(self@, s) is None,
            },
    {
        let n = self.nodes.len();
        for i in 0..n
            invariant
                n == self.nodes@.len(),
                forall|j: int| 0 <= j < i ==> self.nodes@[j].sheet_handle != s,
        {
            if self.nodes[i].sheet_handle == s {
                proof { lemma_tree_find_first(self.nodes@, s, i as int); }
                return Some(i);
            }
        }
        proof { lemma_tree_find_facts(self.nodes@, s); }
        None
    }

    fn resolve_into(&self, s: u64) -> (r: Vec<(u64, u64)>)
        requires
            tree_well_formed(self@),
        ensures
            r@ == resolve(self@, s),
        decreases tree_rank(self@, s),
    {
        match self.find(s) {
            Some(k) => {
                let n = self.nodes[k];
                match n.parent {
                    Some(p) => {
                        assert(self@[k as int].parent is Some);
                        assert(tree_rank(self@, p) < tree_rank(self@, s));
                        let mut v = self.resolve_into(p);
                        v.push((n.entity, n.sheet_handle));
                        v
                    },
                    None => {
                        let mut v: Vec<(u64, u64)> = Vec::new();
                        v.push((n.entity, n.sheet_handle));
                        v
                    },
                }
            },
            None => Vec::new(),
        }
    }

    /// Finds the style sheet that applies to `entity` (see [`find_root`]).
    pub fn get_or_find_root(&mut self, entity: u64, world: &UiWorld) -> (r: Option<StyleTreeNode>)
        requires
            tree_well_formed(old(self)@),
        ensures
            tree_well_formed(final(self)@),
            (final(self)@, r) == find_root(world@.nodes, old(self)@, entity),
            old(self)@.len() <= final(self)@.len(),
            final(self)@.take(old(self)@.len() as int) == old(self)@,
            r matches Some(n) ==> tree_find(final(self)@, n.sheet_handle) is Some,
        decreases rank(world@.nodes, entity),
    {
        let ghost nodes = world@.nodes;
        let ghost start = self@;
        assert(start.take(start.len() as int) == start);
        match world.find_node(entity) {
            None => None,
            Some(i) => {
                let node = world.node(i);
                proof {
                    lemma_find_index_bounds(nodes, entity);
                    if node@.parent is Some {
                        UiWorld::lemma_parent_rank(nodes, i as int);
                    }
                }
                match node.style_sheet {
                    Some(s) => match self.find(s) {
                        Some(k) => {
                            let found = self.nodes[k];
                            Some(found)
                        },
                        None => {
                            let above = match node.parent {
                                Some(p) => self.get_or_find_root(p, world),
                                None => None,
                            };
                            let parent = match above {
                                Some(a) => Some(a.sheet_handle),
                                None => None,
                            };
                            let new_node = StyleTreeNode { entity, sheet_handle: s, parent };
                            let ghost t2 = self@;
                            proof {
                                lemma_tree_find_push(t2, new_node, s);
                                match parent {
                                    Some(ps) => { lemma_tree_find_push(t2, new_node, ps); },
                                    None => {},
                                }
                                assert forall|q: int| 0 <= q < t2.len() && #[trigger] t2.push(new_node)[q].parent is Some implies
                                    match tree_find(t2.push(new_node), t2.push(new_node)[q].parent->0) {
                                        Some(k) => k < q,
                                        None => false,
                                    } by {
                                    assert(t2.push(new_node)[q] == t2[q]);
                                    lemma_tree_find_push(t2, new_node, t2[q].parent->0);
                                }
                            }
                            self.nodes.push(new_node);
                            proof {
                                assert(self@ == t2.push(new_node));
                                assert(self@.take(t2.len() as int) == t2);
                                assert(self@.take(start.len() as int) == t2.take(start.len() as int));
                            }
                            Some(new_node)
                        },
                    },
                    None => match node.parent {
                        Some(p) => self.get_or_find_root(p, world),
                        None => None,
                    },
                }
            },
        }
    }

    /// The style sheets that apply to `entity`, outermost first (see [`style_roots`]).
    pub fn get_style_roots_for(&mut self, entity: u64, world: &UiWorld) -> (r: Vec<(u64, u64)>)
        requires
            tree_well_formed(old(self)@),
        ensures
            tree_well_formed(final(self)@),
            (final(self)@, r@) == style_roots(world@.nodes, old(self)@, entity),
    {
        let root_node = self.get_or_find_root(entity, world);
        match root_node {
            Some(node) => self.resolve_into(node.sheet_handle),
            None => Vec::new(),
        }
    }
}


/// The style sheet attached nearest above entity `e`, itself included: the walk goes up
/// through parents until an entity has a style sheet.
pub open spec fn nearest_sheet(nodes: Seq<NodeView>, e: u64) -> Option<u64>
    decreases rank(nodes, e),
{
    match find_index(nodes, e) {
        None => None,
        Some(i) => match nodes[i].style_sheet {
            Some(s) => Some(s),
            None => match nodes[i].parent {
                Some(p) => if rank(nodes, p) < rank(nodes, e) {
                    nearest_sheet(nodes, p)
                } else {
                    None
                },
                None => None,
            },
        },
    }
}

/// The root found for an entity carries the style sheet attached nearest above it.
pub proof fn lemma_find_root_is_nearest(nodes: Seq<NodeView>, tree: Seq<StyleTreeNode>, e: u64)
    ensures
        match find_root(nodes, tree, e).1 {
            Some(n) => nearest_sheet(nodes, e) == Some(n.sheet_handle),
            None => nearest_sheet(nodes, e) is None,
        },
    decreases rank(nodes, e),
{
    match find_index(nodes, e) {
        None => {},
        Some(i) => {
            let n = nodes[i];
            match n.style_sheet {
                Some(s) => {
                    lemma_tree_find_facts(tree, s);
                },
                None => match n.parent {
                    Some(p) => {
                        if rank(nodes, p) < rank(nodes, e) {
                            lemma_find_root_is_nearest(nodes, tree, p);
                        }
                    },
                    None => {},
                },
            }
        },
    }
}

/// The root found for an entity is in the tree afterwards.
proof fn lemma_find_root_in_tree(nodes: Seq<NodeView>, tree: Seq<StyleTreeNode>, e: u64)
    ensures
        find_root(nodes, tree, e).1 matches Some(n) ==> tree_find(find_root(nodes, tree, e).0, n.sheet_handle) is Some,
    decreases rank(nodes, e),
{
    match find_index(nodes, e) {
        None => {},
        Some(i) => {
            let n = nodes[i];
            match n.style_sheet {
                Some(s) => {
                    lemma_tree_find_facts(tree, s);
                    match tree_find(tree, s) {
                        Some(k) => {},
                        None => {
                            let (t2, above) = match n.parent {
                                Some(p) => if rank(nodes, p) < rank(nodes, e) {
                                    find_root(nodes, tree, p)
                                } else {
                                    (tree, None)
                                },
                                None => (tree, None),
                            };
                            let parent = match above {
                                Some(a) => Some(a.sheet_handle),
                                None => None,
                            };
                            lemma_tree_find_push(t2, StyleTreeNode { entity: e, sheet_handle: s, parent }, s);
                        },
                    }
                },
                None => match n.parent {
                    Some(p) => {
                        if rank(nodes, p) < rank(nodes, e) {
                            lemma_find_root_in_tree(nodes, tree, p);
                        }
                    },
                    None => {},
                },
            }
        },
    }
}

/// No two nodes of the tree have the same handle.
pub open spec fn tree_keys_unique(tree: Seq<StyleTreeNode>) -> bool {
    forall|i: int, j: int|
        0 <= i < j < tree.len() ==> #[trigger] tree[i].sheet_handle != #[trigger] tree[j].sheet_handle
}

/// Whether the style sheet `s` is attached to `e` or to one of the entities above it,
/// going up through parents.
pub open spec fn sheet_at_or_above(nodes: Seq<NodeView>, e: u64, s: u64) -> bool
    decreases rank(nodes, e),
{
    match find_index(nodes, e) {
        None => false,
        Some(i) => nodes[i].style_sheet == Some(s) || match nodes[i].parent {
            Some(p) => if rank(nodes, p) < rank(nodes, e) {
                sheet_at_or_above(nodes, p, s)
            } else {
                false
            },
            None => false,
        },
    }
}

/// No entity carries the same style sheet as one of the entities above it.
pub open spec fn no_sheet_repeated_above(nodes: Seq<NodeView>) -> bool {
    forall|e: u64|
        #[trigger] find_index(nodes, e) matches Some(i) ==> (nodes[i].style_sheet matches Some(s) ==> (
        nodes[i].parent matches Some(p) ==> (rank(nodes, p) < rank(nodes, e) ==> !sheet_at_or_above(
            nodes,
            p,
            s,
        ))))
}

/// Looking for a root only appends to the tree, and each node it appends carries a style
/// sheet attached to `e` or above it.
proof fn lemma_find_root_appends(nodes: Seq<NodeView>, tree: Seq<StyleTreeNode>, e: u64)
    ensures
        tree.len() <= find_root(nodes, tree, e).0.len(),
        forall|q: int| 0 <= q < tree.len() ==> #[trigger] find_root(nodes, tree, e).0[q] == tree[q],
        forall|q: int|
            tree.len() <= q < find_root(nodes, tree, e).0.len() ==> sheet_at_or_above(
                nodes,
                e,
                #[trigger] find_root(nodes, tree, e).0[q].sheet_handle,
            ),
    decreases rank(nodes, e),
{
    lemma_find_index_bounds(nodes, e);
    match find_index(nodes, e) {
        None => {},
        Some(i) => {
            let n = nodes[i];
            let t = find_root(nodes, tree, e).0;
            let (t2, above) = match n.parent {
                Some(p) => if rank(nodes, p) < rank(nodes, e) {
                    find_root(nodes, tree, p)
                } else {
                    (tree, None)
                },
                None => (tree, None),
            };
            match n.parent {
                Some(p) => if rank(nodes, p) < rank(nodes, e) {
                    lemma_find_root_appends(nodes, tree, p);
                },
                None => {},
            }
            match n.style_sheet {
                Some(s) => match tree_find(tree, s) {
                    Some(k) => {},
                    None => {
                        assert(t.len() == t2.len() + 1);
                        assert forall|q: int| 0 <= q < tree.len() implies #[trigger] t[q] == tree[q] by {
                            assert(t[q] == t2[q]);
                        }
                        assert forall|q: int| tree.len() <= q < t.len() implies sheet_at_or_above(
                            nodes,
                            e,
                            #[trigger] t[q].sheet_handle,
                        ) by {
                            if q < t2.len() {
                                assert(t[q] == t2[q]);
                            }
                        }
                    },
                },
                None => {},
            }
        },
    }
}

/// Unless an entity carries the same style sheet as one of the entities above it, looking
/// for a root keeps each handle a key of the tree at most once. (Entities apart from each
/// other may share a style sheet: the second one finds the node the first one added.)
pub proof fn lemma_find_root_keeps_keys_unique(nodes: Seq<NodeView>, tree: Seq<StyleTreeNode>, e: u64)
    requires
        no_sheet_repeated_above(nodes),
        tree_keys_unique(tree),
    ensures
        tree_keys_unique(find_root(nodes, tree, e).0),
        tree_keys_unique(style_roots(nodes, tree, e).0),
    decreases rank(nodes, e),
{
    lemma_find_index_bounds(nodes, e);
    match find_index(nodes, e) {
        None => {},
        Some(i) => {
            let n = nodes[i];
            let (t2, above) = match n.parent {
                Some(p) => if rank(nodes, p) < rank(nodes, e) {
                    find_root(nodes, tree, p)
                } else {
                    (tree, None)
                },
                None => (tree, None),
            };
            match n.parent {
                Some(p) => if rank(nodes, p) < rank(nodes, e) {
                    lemma_find_root_keeps_keys_unique(nodes, tree, p);
                    lemma_find_root_appends(nodes, tree, p);
                },
                None => {},
            }
            match n.style_sheet {
                Some(s) => match tree_find(tree, s) {
                    Some(k) => {},
                    None => {
                        lemma_tree_find_facts(tree, s);
                        let t = find_root(nodes, tree, e).0;
                        assert(find_index(nodes, e) == Some(i));
                        assert forall|q: int| 0 <= q < t2.len() implies #[trigger] t2[q].sheet_handle != s by {
                            if q < tree.len() {
                                assert(t2[q] == tree[q]);
                            } else {
                                assert(sheet_at_or_above(nodes, n.parent->0, t2[q].sheet_handle));
                            }
                        }
                        assert forall|a: int, b: int| 0 <= a < b < t.len() implies #[trigger] t[a].sheet_handle
                            != #[trigger] t[b].sheet_handle by {
                            assert(t[a] == t2[a]);
                            if b < t2.len() {
                                assert(t[b] == t2[b]);
                            }
                        }
                    },
                },
                None => {},
            }
        },
    }
}

/// The style sheets that apply to an entity end with the one attached nearest above it,
/// and there are none when no style sheet is attached above it.
pub proof fn lemma_style_roots_end_with_nearest(nodes: Seq<NodeView>, tree: Seq<StyleTreeNode>, e: u64)
    ensures
        match nearest_sheet(nodes, e) {
            Some(s) => style_roots(nodes, tree, e).1.len() >= 1 && style_roots(nodes, tree, e).1.last().1 == s,
            None => style_roots(nodes, tree, e).1.len() == 0,
        },
{
    lemma_find_root_is_nearest(nodes, tree, e);
    lemma_find_root_in_tree(nodes, tree, e);
    let (t2, root) = find_root(nodes, tree, e);
    match root {
        Some(n) => {
            lemma_tree_find_facts(t2, n.sheet_handle);
            let k = tree_find(t2, n.sheet_handle)->0;
            let here = seq![(t2[k].entity, t2[k].sheet_handle)];
            match t2[k].parent {
                Some(p) => {
                    if tree_rank(t2, p) < tree_rank(t2, n.sheet_handle) {
                        assert(resolve(t2, n.sheet_handle) == resolve(t2, p) + here);
                    }
                },
                None => {},
            }
        },
        None => {},
    }
}


/// The style sheets attached to `e` and to the entities above it, each with the entity
/// that carries it, outermost first.
pub open spec fn sheet_chain(nodes: Seq<NodeView>, e: u64) -> Seq<(u64, u64)>
    decreases rank(nodes, e),
{
    match find_index(nodes, e) {
        None => Seq::empty(),
        Some(i) => {
            let up = match nodes[i].parent {
                Some(p) => if rank(nodes, p) < rank(nodes, e) {
                    sheet_chain(nodes, p)
                } else {
                    Seq::empty()
                },
                None => Seq::empty(),
            };
            match nodes[i].style_sheet {
                Some(s) => up.push((e, s)),
                None => up,
            }
        },
    }
}

/// The style sheet attached nearest above `e`'s parent, the parent itself included.
pub open spec fn sheet_above(nodes: Seq<NodeView>, e: u64) -> Option<u64> {
    match find_index(nodes, e) {
        Some(i) => match nodes[i].parent {
            Some(p) => if rank(nodes, p) < rank(nodes, e) {
                nearest_sheet(nodes, p)
            } else {
                None
            },
            None => None,
        },
        None => None,
    }
}

/// Each node of the tree stands for an entity of the snapshot that carries its style
/// sheet, and its parent is the style sheet attached nearest above that entity.
pub open spec fn tree_matches(nodes: Seq<NodeView>, tree: Seq<StyleTreeNode>) -> bool {
    forall|q: int|
        #![trigger tree[q]]
        0 <= q < tree.len() ==> (find_index(nodes, tree[q].entity) matches Some(i) && nodes[i].style_sheet
            == Some(tree[q].sheet_handle) && tree[q].parent == sheet_above(nodes, tree[q].entity))
}

/// No two entities of the snapshot carry the same style sheet.
pub open spec fn sheets_distinct(nodes: Seq<NodeView>) -> bool {
    forall|i: int, j: int|
        0 <= i < nodes.len() && 0 <= j < nodes.len() && i != j && (#[trigger] nodes[i].style_sheet) is Some
            ==> nodes[i].style_sheet != #[trigger] nodes[j].style_sheet
}

proof fn lemma_sheet_chain_empty(nodes: Seq<NodeView>, x: u64)
    requires
        nearest_sheet(nodes, x) is None,
    ensures
        sheet_chain(nodes, x) == Seq::<(u64, u64)>::empty(),
    decreases rank(nodes, x),
{
    match find_index(nodes, x) {
        None => {},
        Some(i) => match nodes[i].parent {
            Some(p) => if rank(nodes, p) < rank(nodes, x) {
                lemma_sheet_chain_empty(nodes, p);
            },
            None => {},
        },
    }
}

/// Walking up from `x` to the entity at `a` that carries the nearest style sheet passes
/// no other style sheet.
proof fn lemma_sheet_chain_from_nearest(nodes: Seq<NodeView>, x: u64, a: int)
    requires
        nodes_well_formed(nodes),
        sheets_distinct(nodes),
        0 <= a < nodes.len(),
        nodes[a].style_sheet is Some,
        nearest_sheet(nodes, x) == nodes[a].style_sheet,
    ensures
        sheet_chain(nodes, x) == sheet_chain(nodes, nodes[a].entity),
    decreases rank(nodes, x),
{
    lemma_find_index_bounds(nodes, x);
    match find_index(nodes, x) {
        None => {},
        Some(i) => match nodes[i].style_sheet {
            Some(s) => {
                if i != a {
                    assert(nodes[a].style_sheet != nodes[i].style_sheet);
                }
            },
            None => match nodes[i].parent {
                Some(p) => if rank(nodes, p) < rank(nodes, x) {
                    lemma_sheet_chain_from_nearest(nodes, p, a);
                },
                None => {},
            },
        },
    }
}

/// Following the parent links of a tree that matches the snapshot gives the style sheets
/// attached at or above the entity of the node with handle `s`.
proof fn lemma_resolve_is_chain(nodes: Seq<NodeView>, tree: Seq<StyleTreeNode>, s: u64)
    requires
        nodes_well_formed(nodes),
        sheets_distinct(nodes),
        tree_well_formed(tree),
        tree_matches(nodes, tree),
        tree_find(tree, s) is Some,
    ensures
        resolve(tree, s) == sheet_chain(nodes, tree[tree_find(tree, s)->0].entity),
    decreases tree_rank(tree, s),
{
    lemma_tree_find_facts(tree, s);
    let k = tree_find(tree, s)->0;
    let n = tree[k];
    let ent = n.entity;
    assert(tree_matches(nodes, tree) ==> (find_index(nodes, tree[k].entity) matches Some(i) && nodes[i].style_sheet
        == Some(tree[k].sheet_handle) && tree[k].parent == sheet_above(nodes, tree[k].entity)));
    let i = find_index(nodes, ent)->0;
    lemma_find_index_bounds(nodes, ent);
    let here = seq![(ent, s)];
    let up = match nodes[i].parent {
        Some(p) => if rank(nodes, p) < rank(nodes, ent) {
            sheet_chain(nodes, p)
        } else {
            Seq::empty()
        },
        None => Seq::empty(),
    };
    assert(sheet_chain(nodes, ent) == up.push((ent, s)));
    match n.parent {
        None => {
            match nodes[i].parent {
                Some(p) => if rank(nodes, p) < rank(nodes, ent) {
                    lemma_sheet_chain_empty(nodes, p);
                },
                None => {},
            }
            assert(up.push((ent, s)) =~= here);
        },
        Some(ph) => {
            assert(tree[k].parent is Some);
            lemma_tree_find_facts(tree, ph);
            let k2 = tree_find(tree, ph)->0;
            assert(k2 < k);
            lemma_resolve_is_chain(nodes, tree, ph);
            let p = nodes[i].parent->0;
            assert(find_index(nodes, tree[k2].entity) matches Some(i2) && nodes[i2].style_sheet == Some(ph));
            let i2 = find_index(nodes, tree[k2].entity)->0;
            lemma_find_index_bounds(nodes, tree[k2].entity);
            lemma_sheet_chain_from_nearest(nodes, p, i2);
            assert(resolve(tree, s) == resolve(tree, ph) + here);
            assert(up + here =~= up.push((ent, s)));
        },
    }
}

/// Looking for a root keeps the tree well formed.
proof fn lemma_find_root_well_formed(nodes: Seq<NodeView>, tree: Seq<StyleTreeNode>, e: u64)
    requires
        tree_well_formed(tree),
    ensures
        tree_well_formed(find_root(nodes, tree, e).0),
    decreases rank(nodes, e),
{
    match find_index(nodes, e) {
        None => {},
        Some(i) => {
            let n = nodes[i];
            match n.parent {
                Some(p) => if rank(nodes, p) < rank(nodes, e) {
                    lemma_find_root_well_formed(nodes, tree, p);
                    lemma_find_root_in_tree(nodes, tree, p);
                },
                None => {},
            }
            match n.style_sheet {
                Some(s) => match tree_find(tree, s) {
                    Some(k) => {},
                    None => {
                        let (t2, above) = match n.parent {
                            Some(p) => if rank(nodes, p) < rank(nodes, e) {
                                find_root(nodes, tree, p)
                            } else {
                                (tree, None)
                            },
                            None => (tree, None),
                        };
                        let parent = match above {
                            Some(a) => Some(a.sheet_handle),
                            None => None,
                        };
                        let node = StyleTreeNode { entity: e, sheet_handle: s, parent };
                        let t = t2.push(node);
                        match parent {
                            Some(ps) => {
                                lemma_tree_find_push(t2, node, ps);
                            },
                            None => {},
                        }
                        assert forall|q: int| 0 <= q < t.len() && #[trigger] t[q].parent is Some implies
                            match tree_find(t, t[q].parent->0) {
                                Some(k) => k < q,
                                None => false,
                            } by {
                            if q < t2.len() {
                                assert(t[q] == t2[q]);
                                lemma_tree_find_push(t2, node, t2[q].parent->0);
                            }
                        }
                    },
                },
                None => {},
            }
        },
    }
}

/// Looking for a root keeps the tree matching the snapshot.
pub proof fn lemma_find_root_matches(nodes: Seq<NodeView>, tree: Seq<StyleTreeNode>, e: u64)
    requires
        tree_matches(nodes, tree),
    ensures
        tree_matches(nodes, find_root(nodes, tree, e).0),
    decreases rank(nodes, e),
{
    match find_index(nodes, e) {
        None => {},
        Some(i) => {
            let n = nodes[i];
            match n.parent {
                Some(p) => if rank(nodes, p) < rank(nodes, e) {
                    lemma_find_root_matches(nodes, tree, p);
                    lemma_find_root_is_nearest(nodes, tree, p);
                },
                None => {},
            }
            match n.style_sheet {
                Some(s) => match tree_find(tree, s) {
                    Some(k) => {},
                    None => {
                        let (t2, above) = match n.parent {
                            Some(p) => if rank(nodes, p) < rank(nodes, e) {
                                find_root(nodes, tree, p)
                            } else {
                                (tree, None)
                            },
                            None => (tree, None),
                        };
                        let parent = match above {
                            Some(a) => Some(a.sheet_handle),
                            None => None,
                        };
                        let node = StyleTreeNode { entity: e, sheet_handle: s, parent };
                        let t = t2.push(node);
                        assert(node.parent == sheet_above(nodes, e));
                        assert forall|q: int| 0 <= q < t.len() implies #[trigger] t[q] == t2[q] || q == t2.len() by {}
                        assert(t[t2.len() as int] == node);
                    },
                },
                None => {},
            }
        },
    }
}

/// The style sheets that apply to an entity are all those attached to it or above it,
/// outermost first, each with the entity that carries it, when the tree matches the
/// snapshot (as a tree built by this module from an empty one over the same snapshot
/// does) and no two entities carry the same style sheet. The tree still matches afterwards.
pub proof fn lemma_style_roots_are_sheet_chain(nodes: Seq<NodeView>, tree: Seq<StyleTreeNode>, e: u64)
    requires
        nodes_well_formed(nodes),
        sheets_distinct(nodes),
        tree_well_formed(tree),
        tree_matches(nodes, tree),
    ensures
        style_roots(nodes, tree, e).1 == sheet_chain(nodes, e),
        tree_matches(nodes, style_roots(nodes, tree, e).0),
        tree_well_formed(style_roots(nodes, tree, e).0),
{
    lemma_find_root_is_nearest(nodes, tree, e);
    lemma_find_root_in_tree(nodes, tree, e);
    lemma_find_root_well_formed(nodes, tree, e);
    lemma_find_root_matches(nodes, tree, e);
    let (t2, root) = find_root(nodes, tree, e);
    match root {
        None => {
            lemma_sheet_chain_empty(nodes, e);
        },
        Some(n) => {
            let h = n.sheet_handle;
            lemma_tree_find_facts(t2, h);
            let k = tree_find(t2, h)->0;
            lemma_resolve_is_chain(nodes, t2, h);
            assert(find_index(nodes, t2[k].entity) matches Some(i2) && nodes[i2].style_sheet == Some(h));
            let i2 = find_index(nodes, t2[k].entity)->0;
            lemma_find_index_bounds(nodes, t2[k].entity);
            lemma_sheet_chain_from_nearest(nodes, e, i2);
        },
    }
}

/// An empty tree matches every snapshot.
pub proof fn lemma_empty_tree_matches(nodes: Seq<NodeView>)
    ensures
        tree_matches(nodes, Seq::<StyleTreeNode>::empty()),
        tree_well_formed(Seq::<StyleTreeNode>::empty()),
{
}

} // verus!
