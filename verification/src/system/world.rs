//! A snapshot of the UI entity tree and of the components that selectors look at.
use crate::small_vec::EntityList;
use vstd::prelude::*;

verus! {

/// The interaction state of a UI entity, as `:hover` and `:click` see it.
#[derive(Clone, Copy, Debug, PartialEq, Eq, Structural)]
pub enum Interaction {
    Pressed,
    Hovered,
    /// Neither hovered nor pressed.
    Idle,
}

/// One entity of the world: whether it is a UI node, its parent, its children and the
/// style sheet attached to it.
pub struct UiNode {
    pub entity: u64,
    pub is_ui_node: bool,
    pub parent: Option<u64>,
    pub children: Option<Vec<u64>>,
    pub style_sheet: Option<u64>,
}

pub struct NodeView {
    pub entity: u64,
    pub is_ui_node: bool,
    pub parent: Option<u64>,
    pub children: Option<Seq<u64>>,
    pub style_sheet: Option<u64>,
}

impl View for UiNode {
    type V = NodeView;

    open spec fn view(&self) -> NodeView {
        NodeView {
            entity: self.entity,
            is_ui_node: self.is_ui_node,
            parent: self.parent,
            children: match self.children {
                Some(c) => Some(c@),
                None => None,
            },
            style_sheet: self.style_sheet,
        }
    }
}

/// An entity together with the words a name or class selector is matched against.
pub struct MatchEntry {
    pub entity: u64,
    pub values: Vec<String>,
}

pub struct MatchView {
    pub entity: u64,
    pub values: Seq<Seq<char>>,
}

impl View for MatchEntry {
    type V = MatchView;

    open spec fn view(&self) -> MatchView {
        MatchView { entity: self.entity, values: self.values@.map_values(|s: String| s@) }
    }
}

/// An entity together with its interaction state.
pub struct InteractionEntry {
    pub entity: u64,
    pub interaction: Interaction,
}

pub struct WorldView {
    pub nodes: Seq<NodeView>,
    pub names: Seq<MatchView>,
    pub classes: Seq<MatchView>,
    pub interactions: Seq<(u64, Interaction)>,
}

/// The entities and components that selection reads. Entities are told apart by id;
/// a parent comes before its children, and children after their parent.
pub struct UiWorld {
    nodes: Vec<UiNode>,
    names: Vec<MatchEntry>,
    classes: Vec<MatchEntry>,
    interactions: Vec<InteractionEntry>,
}

pub open spec fn node_views(nodes: Seq<UiNode>) -> Seq<NodeView> {
    nodes.map_values(|n: UiNode| n@)
}

impl View for UiWorld {
    type V = WorldView;

    closed spec fn view(&self) -> WorldView {
        WorldView {
            nodes: node_views(self.nodes@),
            names: self.names@.map_values(|m: MatchEntry| m@),
            classes: self.classes@.map_values(|m: MatchEntry| m@),
            interactions: self.interactions@.map_values(
                |m: InteractionEntry| (m.entity, m.interaction),
            ),
        }
    }
}

/// The position of the entity in the snapshot, if it is there.
pub open spec fn find_index(nodes: Seq<NodeView>, e: u64) -> Option<int> {
    if exists|i: int| 0 <= i < nodes.len() && nodes[i].entity == e {
        Some(choose|i: int| 0 <= i < nodes.len() && nodes[i].entity == e)
    } else {
        None
    }
}

/// One more than the entity's position, 0 if it is not in the snapshot.
pub open spec fn rank(nodes: Seq<NodeView>, e: u64) -> nat {
    match find_index(nodes, e) {
        Some(i) => (i + 1) as nat,
        None => 0,
    }
}

/// Ids are distinct, a parent comes before its child, and children after their parent.
pub open spec fn nodes_well_formed(nodes: Seq<NodeView>) -> bool {
    &&& forall|i: int, j: int|
        0 <= i < nodes.len() && 0 <= j < nodes.len() && i != j ==> #[trigger] nodes[i].entity
            != #[trigger] nodes[j].entity
    &&& forall|i: int, j: int|
        0 <= i < nodes.len() && 0 <= j < nodes.len() && #[trigger] nodes[i].parent == Some(
            #[trigger] nodes[j].entity,
        ) ==> j < i
    &&& forall|i: int, j: int, k: int|
        0 <= i < nodes.len() && 0 <= j < nodes.len() && #[trigger] nodes[i].children is Some && 0
            <= k < nodes[i].children->0.len() && #[trigger] nodes[i].children->0[k]
            == #[trigger] nodes[j].entity ==> i < j
}

pub proof fn lemma_find_index(nodes: Seq<NodeView>, i: int)
    requires
        nodes_well_formed(nodes),
        0 <= i < nodes.len(),
    ensures
        find_index(nodes, nodes[i].entity) == Some(i),
{
    let e = nodes[i].entity;
    assert(exists|k: int| 0 <= k < nodes.len() && nodes[k].entity == e);
    let k = choose|k: int| 0 <= k < nodes.len() && nodes[k].entity == e;
    assert(nodes[k].entity == nodes[i].entity);
}

pub proof fn lemma_find_index_bounds(nodes: Seq<NodeView>, e: u64)
    ensures
        find_index(nodes, e) matches Some(i) ==> 0 <= i < nodes.len() && nodes[i].entity == e,
{
}

/// The node of `e` in the query over UI nodes that have a parent.
pub open spec fn parent_query(nodes: Seq<NodeView>, e: u64) -> Option<int> {
    match find_index(nodes, e) {
        Some(j) => if nodes[j].is_ui_node && nodes[j].parent is Some {
            Some(j)
        } else {
            None
        },
        None => None,
    }
}

/// The node of `e` in the query over UI nodes that have children.
pub open spec fn children_query(nodes: Seq<NodeView>, e: u64) -> Option<int> {
    match find_index(nodes, e) {
        Some(j) => if nodes[j].is_ui_node && nodes[j].children is Some {
            Some(j)
        } else {
            None
        },
        None => None,
    }
}

/// Starting with parent `p`, each UI ancestor once, outermost first and `p` last.
/// Reaching `root` stops the walk early (`root` then opens the list, once); otherwise the
/// walk stops at the first entity that is not a UI node with a parent, which is left out.
pub open spec fn parents_chain(nodes: Seq<NodeView>, root: u64, p: u64) -> Seq<u64>
    decreases rank(nodes, p),
{
    if p == root {
        seq![p]
    } else {
        let head = match parent_query(nodes, p) {
            Some(j) => {
                let gp = nodes[j].parent->0;
                if rank(nodes, gp) < rank(nodes, p) {
                    parents_chain(nodes, root, gp)
                } else {
                    Seq::empty()
                }
            },
            None => Seq::empty(),
        };
        head.push(p)
    }
}

/// The walk always ends with the parent it started from.
pub proof fn lemma_parents_chain_ends_with_parent(nodes: Seq<NodeView>, root: u64, p: u64)
    ensures
        parents_chain(nodes, root, p).len() >= 1,
        parents_chain(nodes, root, p).last() == p,
{
}

/// The walk lists each entity once, each one the parent of the next: positions in the
/// snapshot rise strictly along the list, and every entity after the first is a UI node
/// whose parent is the entity before it.
pub proof fn lemma_parents_chain_links(nodes: Seq<NodeView>, root: u64, p: u64)
    ensures
        forall|i: int, j: int|
            0 <= i < j < parents_chain(nodes, root, p).len() ==> rank(
                nodes,
                #[trigger] parents_chain(nodes, root, p)[i],
            ) < rank(nodes, #[trigger] parents_chain(nodes, root, p)[j]),
        forall|i: int|
            0 <= i < parents_chain(nodes, root, p).len() ==> rank(nodes, #[trigger] parents_chain(nodes, root, p)[i])
                <= rank(nodes, p),
        parents_chain(nodes, root, p).no_duplicates(),
        forall|i: int|
            0 < i < parents_chain(nodes, root, p).len() ==> (parent_query(
                nodes,
                #[trigger] parents_chain(nodes, root, p)[i],
            ) matches Some(k) && nodes[k].parent == Some(parents_chain(nodes, root, p)[i - 1])),
    decreases rank(nodes, p),
{
    let r = parents_chain(nodes, root, p);
    if p != root {
        match parent_query(nodes, p) {
            Some(j) => {
                let gp = nodes[j].parent->0;
                if rank(nodes, gp) < rank(nodes, p) {
                    lemma_parents_chain_links(nodes, root, gp);
                    lemma_parents_chain_ends_with_parent(nodes, root, gp);
                    let h = parents_chain(nodes, root, gp);
                    assert(r == h.push(p));
                    assert forall|i: int| 0 <= i < h.len() implies #[trigger] r[i] == h[i] by {}
                    assert(r[h.len() as int] == p);
                    assert forall|i: int, k: int| 0 <= i < k < r.len() implies rank(nodes, #[trigger] r[i])
                        < rank(nodes, #[trigger] r[k]) by {
                        assert(r[i] == h[i]);
                        if k < h.len() {
                            assert(r[k] == h[k]);
                        }
                    }
                    assert forall|i: int| 0 < i < r.len() implies (parent_query(nodes, #[trigger] r[i]) matches Some(k)
                        && nodes[k].parent == Some(r[i - 1])) by {
                        assert(r[i - 1] == h[i - 1]);
                        if i < h.len() {
                            assert(r[i] == h[i]);
                        } else {
                            assert(h[h.len() - 1] == gp);
                        }
                    }
                }
            },
            None => {},
        }
    }
    assert forall|i: int, k: int| 0 <= i < r.len() && 0 <= k < r.len() && i != k implies r[i] != r[k] by {
        if i < k {
            assert(rank(nodes, r[i]) < rank(nodes, r[k]));
        } else {
            assert(rank(nodes, r[k]) < rank(nodes, r[i]));
        }
    }
}

/// The entities below the children `cs` of the node at `owner`, depth first: each child,
/// then the entities below it if it is a UI node with children.
pub open spec fn descendants(nodes: Seq<NodeView>, cs: Seq<u64>, owner: int) -> Seq<u64>
    decreases nodes.len() - owner, cs.len(),
{
    if cs.len() == 0 {
        Seq::empty()
    } else {
        let before = descendants(nodes, cs.drop_last(), owner);
        let c = cs.last();
        let below = match children_query(nodes, c) {
            Some(j) => if owner < j < nodes.len() {
                descendants(nodes, nodes[j].children->0, j)
            } else {
                Seq::empty()
            },
            None => Seq::empty(),
        };
        before + seq![c] + below
    }
}

/// The entities a rule may apply to when `updated` changed: its UI ancestors up to `root`,
/// itself, and everything below it. `None` if `updated` is not in the snapshot.
pub open spec fn entity_filter(nodes: Seq<NodeView>, root: u64, updated: u64) -> Option<Seq<u64>> {
    match find_index(nodes, updated) {
        Some(i) => {
            let up = match nodes[i].parent {
                Some(p) => parents_chain(nodes, root, p),
                None => Seq::empty(),
            };
            let down = match nodes[i].children {
                Some(cs) => descendants(nodes, cs, i),
                None => Seq::empty(),
            };
            Some(up + seq![updated] + down)
        },
        None => None,
    }
}

/// Whether each entity of `c` after the first is a UI node whose parent is the entity
/// before it: `c` goes down the tree through UI parents.
pub open spec fn is_ui_parent_chain(nodes: Seq<NodeView>, c: Seq<u64>) -> bool {
    forall|m: int|
        #![trigger c[m]]
        0 < m < c.len() ==> exists|k: int|
            0 <= k < nodes.len() && #[trigger] nodes[k].entity == c[m] && nodes[k].is_ui_node
                && nodes[k].parent == Some(c[m - 1])
}

/// Walking up from `c.last()` reaches every entity of a chain of UI parents that ends
/// there, as long as only its first entity may be the root.
pub proof fn lemma_parents_chain_holds_ancestors(nodes: Seq<NodeView>, root: u64, c: Seq<u64>)
    requires
        nodes_well_formed(nodes),
        c.len() > 0,
        is_ui_parent_chain(nodes, c),
        forall|m: int| 0 < m < c.len() ==> #[trigger] c[m] != root,
    ensures
        forall|m: int| 0 <= m < c.len() ==> parents_chain(nodes, root, c.last()).contains(#[trigger] c[m]),
    decreases c.len(),
{
    let p = c.last();
    lemma_parents_chain_ends_with_parent(nodes, root, p);
    let r = parents_chain(nodes, root, p);
    assert(r[r.len() - 1] == p);
    if c.len() == 1 {
        assert forall|m: int| 0 <= m < c.len() implies r.contains(#[trigger] c[m]) by {
            assert(c[m] == p);
        }
    } else {
        let n = c.len() - 1;
        assert(c[n] != root);
        let k = choose|k: int|
            0 <= k < nodes.len() && #[trigger] nodes[k].entity == c[n] && nodes[k].is_ui_node
                && nodes[k].parent == Some(c[n - 1]);
        lemma_find_index(nodes, k);
        let gp = c[n - 1];
        lemma_find_index_bounds(nodes, gp);
        match find_index(nodes, gp) {
            Some(j) => {
                assert(nodes[k].parent == Some(nodes[j].entity));
            },
            None => {},
        }
        assert(rank(nodes, gp) < rank(nodes, p));
        let d = c.drop_last();
        assert forall|m: int| #![trigger d[m]] 0 < m < d.len() implies exists|k2: int|
            0 <= k2 < nodes.len() && #[trigger] nodes[k2].entity == d[m] && nodes[k2].is_ui_node
                && nodes[k2].parent == Some(d[m - 1]) by {
            assert(d[m] == c[m] && d[m - 1] == c[m - 1]);
        }
        assert forall|m: int| 0 < m < d.len() implies #[trigger] d[m] != root by {
            assert(d[m] == c[m]);
        }
        lemma_parents_chain_holds_ancestors(nodes, root, d);
        let h = parents_chain(nodes, root, gp);
        assert(r == h.push(p));
        assert forall|m: int| 0 <= m < c.len() implies r.contains(#[trigger] c[m]) by {
            if m < n {
                assert(d[m] == c[m]);
                assert(h.contains(d[m]));
                let q = choose|q: int| 0 <= q < h.len() && h[q] == d[m];
                assert(r[q] == h[q]);
            } else {
                assert(c[m] == p);
            }
        }
    }
}

/// The entities a rule may apply to hold the updated entity and every UI ancestor of it up
/// to the root: every entity of a chain of UI parents that ends at the updated entity's
/// parent, as long as only its first entity may be the root.
pub proof fn lemma_entity_filter_holds_ancestors(nodes: Seq<NodeView>, root: u64, u: int, c: Seq<u64>)
    requires
        nodes_well_formed(nodes),
        0 <= u < nodes.len(),
        c.len() > 0,
        nodes[u].parent == Some(c.last()),
        is_ui_parent_chain(nodes, c),
        forall|m: int| 0 < m < c.len() ==> #[trigger] c[m] != root,
    ensures
        entity_filter(nodes, root, nodes[u].entity) is Some,
        entity_filter(nodes, root, nodes[u].entity)->0.contains(nodes[u].entity),
        forall|m: int|
            0 <= m < c.len() ==> entity_filter(nodes, root, nodes[u].entity)->0.contains(#[trigger] c[m]),
{
    lemma_find_index(nodes, u);
    lemma_parents_chain_holds_ancestors(nodes, root, c);
    let e = nodes[u].entity;
    let up = parents_chain(nodes, root, c.last());
    let down = match nodes[u].children {
        Some(cs) => descendants(nodes, cs, u),
        None => Seq::empty(),
    };
    let f = up + seq![e] + down;
    assert(entity_filter(nodes, root, e) == Some(f));
    assert(f[up.len() as int] == e);
    assert forall|m: int| 0 <= m < c.len() implies f.contains(#[trigger] c[m]) by {
        assert(up.contains(c[m]));
        let q = choose|q: int| 0 <= q < up.len() && up[q] == c[m];
        assert(f[q] == up[q]);
    }
}

proof fn lemma_descendants_prefix(nodes: Seq<NodeView>, owner: int, n: int, k: int)
    requires
        nodes_well_formed(nodes),
        0 <= owner < nodes.len(),
        nodes[owner].children is Some,
        0 <= k < n <= nodes[owner].children->0.len(),
    ensures
        descendants(nodes, nodes[owner].children->0.take(n), owner).contains(nodes[owner].children->0[k]),
        forall|j: int, x: u64|
            0 <= j < nodes.len() && nodes[j].entity == nodes[owner].children->0[k] && nodes[j].is_ui_node
                && nodes[j].children is Some && #[trigger] descendants(nodes, nodes[j].children->0, j).contains(x)
                ==> descendants(nodes, nodes[owner].children->0.take(n), owner).contains(x),
    decreases n,
{
    let all = nodes[owner].children->0;
    let cs = all.take(n);
    let before = descendants(nodes, cs.drop_last(), owner);
    let c = cs.last();
    let below = match children_query(nodes, c) {
        Some(j) => if owner < j < nodes.len() {
            descendants(nodes, nodes[j].children->0, j)
        } else {
            Seq::empty()
        },
        None => Seq::empty(),
    };
    let d = before + seq![c] + below;
    assert(descendants(nodes, cs, owner) == d);
    assert(cs.drop_last() =~= all.take(n - 1));
    if k < n - 1 {
        lemma_descendants_prefix(nodes, owner, n - 1, k);
        assert(cs[k] == all[k]);
        assert forall|y: u64| before.contains(y) implies d.contains(y) by {
            let q = choose|q: int| 0 <= q < before.len() && before[q] == y;
            assert(d[q] == before[q]);
        }
    } else {
        assert(c == all[k]);
        assert(d[before.len() as int] == c);
        assert forall|j: int, x: u64|
            0 <= j < nodes.len() && nodes[j].entity == all[k] && nodes[j].is_ui_node
                && nodes[j].children is Some && #[trigger] descendants(nodes, nodes[j].children->0, j).contains(x)
                implies d.contains(x) by {
            lemma_find_index(nodes, j);
            assert(nodes[owner].children->0[k] == nodes[j].entity);
            assert(owner < j);
            assert(children_query(nodes, c) == Some(j));
            assert(below == descendants(nodes, nodes[j].children->0, j));
            let q = choose|q: int| 0 <= q < below.len() && below[q] == x;
            assert(d[before.len() + 1 + q] == below[q]);
        }
    }
}

/// Everything below a child is below its parent: each child of a node is among the node's
/// descendants, and so is every descendant of a child that is a UI node with children,
/// whichever child it is.
pub proof fn lemma_descendants_hold_children(nodes: Seq<NodeView>, i: int, k: int)
    requires
        nodes_well_formed(nodes),
        0 <= i < nodes.len(),
        nodes[i].children is Some,
        0 <= k < nodes[i].children->0.len(),
    ensures
        descendants(nodes, nodes[i].children->0, i).contains(nodes[i].children->0[k]),
        forall|j: int, x: u64|
            0 <= j < nodes.len() && nodes[j].entity == nodes[i].children->0[k] && nodes[j].is_ui_node
                && nodes[j].children is Some && #[trigger] descendants(nodes, nodes[j].children->0, j).contains(x)
                ==> descendants(nodes, nodes[i].children->0, i).contains(x),
{
    let all = nodes[i].children->0;
    assert(all.take(all.len() as int) =~= all);
    lemma_descendants_prefix(nodes, i, all.len() as int, k);
}

/// Whether each entity of `c` after the first is a child of the entity before it, and each
/// entity strictly between the first and the last is a UI node: `c` goes down the tree
/// from its first entity through UI nodes.
pub open spec fn is_child_chain(nodes: Seq<NodeView>, c: Seq<u64>) -> bool {
    forall|m: int|
        #![trigger c[m]]
        0 < m < c.len() ==> exists|j: int, k: int|
            0 <= j < nodes.len() && #[trigger] nodes[j].entity == c[m - 1] && nodes[j].children is Some
                && 0 <= k < nodes[j].children->0.len() && #[trigger] nodes[j].children->0[k] == c[m]
                && (m > 1 ==> nodes[j].is_ui_node)
}

/// The entities a rule may apply to hold everything below the updated entity: the end of
/// every chain of child links that starts at it and passes only through UI nodes.
pub proof fn lemma_entity_filter_holds_below(nodes: Seq<NodeView>, root: u64, u: int, c: Seq<u64>)
    requires
        nodes_well_formed(nodes),
        0 <= u < nodes.len(),
        c.len() >= 2,
        c[0] == nodes[u].entity,
        is_child_chain(nodes, c),
    ensures
        entity_filter(nodes, root, nodes[u].entity) is Some,
        entity_filter(nodes, root, nodes[u].entity)->0.contains(c.last()),
{
    lemma_find_index(nodes, u);
    let e = nodes[u].entity;
    let m1 = 1int;
    let (j0, k0) = choose|j: int, k: int|
        0 <= j < nodes.len() && #[trigger] nodes[j].entity == c[m1 - 1] && nodes[j].children is Some
            && 0 <= k < nodes[j].children->0.len() && #[trigger] nodes[j].children->0[k] == c[m1]
            && (m1 > 1 ==> nodes[j].is_ui_node);
    assert(nodes[j0].entity == nodes[u].entity);
    assert(j0 == u);
    let cs = nodes[u].children->0;
    let du = descendants(nodes, cs, u);
    lemma_below_in_descendants(nodes, u, c, c.len() - 1);
    let up = match nodes[u].parent {
        Some(p) => parents_chain(nodes, root, p),
        None => Seq::empty(),
    };
    let f = up + seq![e] + du;
    assert(entity_filter(nodes, root, e) == Some(f));
    let q = choose|q: int| 0 <= q < du.len() && du[q] == c.last();
    assert(f[up.len() + 1 + q] == du[q]);
}

proof fn lemma_below_in_descendants(nodes: Seq<NodeView>, u: int, c: Seq<u64>, m: int)
    requires
        nodes_well_formed(nodes),
        0 <= u < nodes.len(),
        c.len() >= 2,
        c[0] == nodes[u].entity,
        nodes[u].children is Some,
        is_child_chain(nodes, c),
        1 <= m < c.len(),
    ensures
        descendants(nodes, nodes[u].children->0, u).contains(c[m]),
        forall|j: int, x: u64|
            0 <= j < nodes.len() && nodes[j].entity == c[m] && nodes[j].is_ui_node && nodes[j].children is Some
                && #[trigger] descendants(nodes, nodes[j].children->0, j).contains(x)
                ==> descendants(nodes, nodes[u].children->0, u).contains(x),
    decreases m,
{
    let (j, k) = choose|j: int, k: int|
        0 <= j < nodes.len() && #[trigger] nodes[j].entity == c[m - 1] && nodes[j].children is Some
            && 0 <= k < nodes[j].children->0.len() && #[trigger] nodes[j].children->0[k] == c[m]
            && (m > 1 ==> nodes[j].is_ui_node);
    lemma_descendants_hold_children(nodes, j, k);
    if m == 1 {
        assert(nodes[j].entity == nodes[u].entity);
        assert(j == u);
    } else {
        lemma_below_in_descendants(nodes, u, c, m - 1);
    }
}

impl UiWorld {
    #[verifier::type_invariant]
    spec fn well_formed(&self) -> bool {
        nodes_well_formed(node_views(self.nodes@))
    }

    /// Whether the nodes meet the snapshot's rules: distinct ids, each parent before its
    /// child, each child after its parent.
    pub fn check_nodes(nodes: &Vec<UiNode>) -> (r: bool)
        ensures
            r == nodes_well_formed(node_views(nodes@)),
    {
        let ghost nv = node_views(nodes@);
        let n = nodes.len();
        for i in 0..n
            invariant
                n == nodes@.len(),
                nv == node_views(nodes@),
                forall|a: int, b: int|
                    0 <= a < i && 0 <= b < n && a != b ==> #[trigger] nv[a].entity
                        != #[trigger] nv[b].entity,
                forall|a: int, b: int|
                    0 <= a < i && 0 <= b < n && #[trigger] nv[a].parent == Some(
                        #[trigger] nv[b].entity,
                    ) ==> b < a,
                forall|a: int, b: int, k: int|
                    0 <= a < i && 0 <= b < n && #[trigger] nv[a].children is Some && 0 <= k
                        < nv[a].children->0.len() && #[trigger] nv[a].children->0[k]
                        == #[trigger] nv[b].entity ==> a < b,
        {
            for j in 0..n
                invariant
                    n == nodes@.len(),
                    nv == node_views(nodes@),
                    0 <= i < n,
                    forall|b: int| 0 <= b < j && i != b ==> nv[i as int].entity != #[trigger] nv[b].entity,
                    forall|b: int| 0 <= b < j && #[trigger] nv[b].entity == nv[i as int].parent->0 && nv[i as int].parent is Some ==> b < i,
                    forall|b: int, k: int|
                        0 <= b < j && nv[i as int].children is Some && 0 <= k
                            < nv[i as int].children->0.len() && #[trigger] nv[i as int].children->0[k]
                            == #[trigger] nv[b].entity ==> i < b,
            {
                assert(nv[i as int] == nodes@[i as int]@ && nv[j as int] == nodes@[j as int]@);
                if i != j && nodes[i].entity == nodes[j].entity {
                    assert(nv[i as int].entity == nv[j as int].entity);
                    return false;
                }
                match nodes[i].parent {
                    Some(p) => {
                        if nodes[j].entity == p && j >= i {
                            assert(nv[i as int].parent == Some(nv[j as int].entity));
                            return false;
                        }
                    },
                    None => {},
                }
                match &nodes[i].children {
                    Some(cs) => {
                        let m = cs.len();
                        for k in 0..m
                            invariant
                                n == nodes@.len(),
                                nv == node_views(nodes@),
                                0 <= i < n,
                                0 <= j < n,
                                nodes@[i as int].children == Some(*cs),
                                m == cs@.len(),
                                forall|q: int| 0 <= q < k ==> cs@[q] != nv[j as int].entity || i < j,
                        {
                            if cs[k] == nodes[j].entity && j <= i {
                                assert(nv[i as int].children->0[k as int] == nv[j as int].entity);
                                return false;
                            }
                        }
                    },
                    None => {},
                }
            }
        }
        true
    }

    /// A snapshot of the given entities and components, if the entities meet its rules.
    pub fn new(
        nodes: Vec<UiNode>,
        names: Vec<MatchEntry>,
        classes: Vec<MatchEntry>,
        interactions: Vec<InteractionEntry>,
    ) -> (r: Option<UiWorld>)
        ensures
            nodes_well_formed(node_views(nodes@)) <==> r is Some,
            r matches Some(w) ==> w@ == (WorldView {
                nodes: node_views(nodes@),
                names: names@.map_values(|m: MatchEntry| m@),
                classes: classes@.map_values(|m: MatchEntry| m@),
                interactions: interactions@.map_values(
                    |m: InteractionEntry| (m.entity, m.interaction),
                ),
            }),
    {
        if UiWorld::check_nodes(&nodes) {
            Some(UiWorld { nodes, names, classes, interactions })
        } else {
            None
        }
    }

    /// The position of `e` in the snapshot.
    pub fn find_node(&self, e: u64) -> (r: Option<usize>)
        ensures
            nodes_well_formed(self@.nodes),
            match r {
                Some(i) => find_index(self@.nodes, e) == Some(i as int),
                None => find_index(self@.nodes, e) is None,
            },
    {
        proof { use_type_invariant(self); }
        let n = self.nodes.len();
        for i in 0..n
            invariant
                n == self.nodes@.len(),
                node_views(self.nodes@) == self@.nodes,
                nodes_well_formed(self@.nodes),
                forall|k: int| 0 <= k < i ==> self@.nodes[k].entity != e,
        {
            assert(self@.nodes[i as int] == self.nodes@[i as int]@);
            if self.nodes[i].entity == e {
                proof { lemma_find_index(self@.nodes, i as int); }
                return Some(i);
            }
        }
        None
    }

    /// The entities with a name, and the names they are matched against.
    pub fn names(&self) -> (r: &Vec<MatchEntry>)
        ensures
            r@.map_values(|m: MatchEntry| m@) == self@.names,
    {
        &self.names
    }

    /// The entities with classes, and the classes they are matched against.
    pub fn classes(&self) -> (r: &Vec<MatchEntry>)
        ensures
            r@.map_values(|m: MatchEntry| m@) == self@.classes,
    {
        &self.classes
    }

    /// The entities with an interaction state.
    pub fn interactions(&self) -> (r: &Vec<InteractionEntry>)
        ensures
            r@.map_values(|m: InteractionEntry| (m.entity, m.interaction)) == self@.interactions,
    {
        &self.interactions
    }

    /// The number of entities in the snapshot.
    pub fn len(&self) -> (r: usize)
        ensures
            r == self@.nodes.len(),
    {
        self.nodes.len()
    }

    /// The entity at position `i`.
    pub fn node(&self, i: usize) -> (r: &UiNode)
        requires
            i < self@.nodes.len(),
        ensures
            r@ == self@.nodes[i as int],
    {
        &self.nodes[i]
    }

    pub proof fn lemma_parent_rank(nodes: Seq<NodeView>, j: int)
        requires
            nodes_well_formed(nodes),
            0 <= j < nodes.len(),
            nodes[j].parent is Some,
        ensures
            rank(nodes, nodes[j].parent->0) < rank(nodes, nodes[j].entity),
    {
        lemma_find_index(nodes, j);
        let gp = nodes[j].parent->0;
        lemma_find_index_bounds(nodes, gp);
        match find_index(nodes, gp) {
            Some(k) => {
                assert(nodes[j].parent == Some(nodes[k].entity));
            },
            None => {},
        }
    }

    fn parents_into(&self, root: u64, p: u64) -> (r: Vec<u64>)
        ensures
            r@ == parents_chain(self@.nodes, root, p),
        decreases rank(self@.nodes, p),
    {
        proof { use_type_invariant(self); }
        if p == root {
            return vec![p];
        }
        let mut result: Vec<u64> = match self.find_node(p) {
            Some(j) => {
                let node = &self.nodes[j];
                assert(self@.nodes[j as int] == node@);
                proof { lemma_find_index_bounds(self@.nodes, p); }
                if node.is_ui_node && node.parent.is_some() {
                    match node.parent {
                        Some(gp) => {
                            proof { UiWorld::lemma_parent_rank(self@.nodes, j as int); }
                            self.parents_into(root, gp)
                        },
                        None => Vec::new(),
                    }
                } else {
                    Vec::new()
                }
            },
            None => Vec::new(),
        };
        result.push(p);
        result
    }

    /// Starting with the parent `p`, collects each UI ancestor up the tree once (see
    /// [`parents_chain`]): `root` stops the walk early, and `p` comes last.
    pub fn get_parents_recursively(&self, root: u64, p: u64) -> (r: EntityList)
        ensures
            r@ == parents_chain(self@.nodes, root, p),
    {
        let v = self.parents_into(root, p);
        EntityList::from_slice(v.as_slice())
    }

    pub(crate) fn descendants_into(&self, owner: usize, out: &mut Vec<u64>)
        requires
            owner < self@.nodes.len(),
            self@.nodes[owner as int].children is Some,
        ensures
            final(out)@ == old(out)@ + descendants(
                self@.nodes,
                self@.nodes[owner as int].children->0,
                owner as int,
            ),
        decreases self@.nodes.len() - owner,
    {
        proof { use_type_invariant(self); }
        let ghost nodes = self@.nodes;
        let ghost start = out@;
        assert(nodes[owner as int] == self.nodes@[owner as int]@);
        let cs = match &self.nodes[owner].children {
            Some(cs) => cs,
            None => {
                return;
            },
        };
        let m = cs.len();
        assert(cs@.take(0) =~= Seq::<u64>::empty());
        for i in 0..m
            invariant
                m == cs@.len(),
                nodes == self@.nodes,
                owner < nodes.len(),
                nodes[owner as int].children == Some(cs@),
                nodes_well_formed(nodes),
                out@ == start + descendants(nodes, cs@.take(i as int), owner as int),
        {
            let c = cs[i];
            assert(cs@.take(i + 1).drop_last() == cs@.take(i as int));
            assert(cs@.take(i + 1).last() == c);
            out.push(c);
            proof { lemma_find_index_bounds(nodes, c); }
            match self.find_node(c) {
                Some(j) => {
                    assert(nodes[j as int] == self.nodes@[j as int]@);
                    if self.nodes[j].is_ui_node && self.nodes[j].children.is_some() {
                        assert(nodes[owner as int].children->0[i as int] == nodes[j as int].entity);
                        assert(owner < j);
                        self.descendants_into(j, out);
                    }
                },
                None => {},
            }
            assert(out@ =~= start + descendants(nodes, cs@.take(i + 1), owner as int));
        }
        assert(cs@.take(m as int) == cs@);
    }

    /// The entities below the node at position `owner`, depth first (see [`descendants`]).
    pub fn get_children_recursively(&self, owner: usize) -> (r: EntityList)
        requires
            owner < self@.nodes.len(),
            self@.nodes[owner as int].children is Some,
        ensures
            r@ == descendants(self@.nodes, self@.nodes[owner as int].children->0, owner as int),
    {
        let mut v: Vec<u64> = Vec::new();
        self.descendants_into(owner, &mut v);
        assert(v@ =~= descendants(self@.nodes, self@.nodes[owner as int].children->0, owner as int));
        EntityList::from_slice(v.as_slice())
    }

    fn entity_filter_into(&self, root: u64, updated: u64) -> (r: Option<Vec<u64>>)
        ensures
            match r {
                Some(v) => entity_filter(self@.nodes, root, updated) == Some(v@),
                None => entity_filter(self@.nodes, root, updated) is None,
            },
    {
        proof { use_type_invariant(self); }
        match self.find_node(updated) {
            Some(i) => {
                let node = &self.nodes[i];
                assert(self@.nodes[i as int] == node@);
                let mut v = match node.parent {
                    Some(p) => self.parents_into(root, p),
                    None => Vec::new(),
                };
                v.push(updated);
                if node.children.is_some() {
                    self.descendants_into(i, &mut v);
                }
                let ghost up = match node@.parent {
                    Some(p) => parents_chain(self@.nodes, root, p),
                    None => Seq::empty(),
                };
                let ghost down = match node@.children {
                    Some(cs) => descendants(self@.nodes, cs, i as int),
                    None => Seq::empty(),
                };
                assert(v@ =~= up + seq![updated] + down);
                Some(v)
            },
            None => None,
        }
    }

    /// The entities a rule may apply to when `updated` changed (see [`entity_filter`]).
    pub fn build_entity_filter(&self, root: u64, updated: u64) -> (r: Option<EntityList>)
        ensures
            match r {
                Some(v) => entity_filter(self@.nodes, root, updated) == Some(v@),
                None => entity_filter(self@.nodes, root, updated) is None,
            },
    {
        match self.entity_filter_into(root, updated) {
            Some(v) => Some(EntityList::from_slice(v.as_slice())),
            None => None,
        }
    }
}

} // verus!
