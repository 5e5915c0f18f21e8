//! Selecting the entities that style sheet rules apply to.
pub mod style_tree;
pub mod world;

use crate::selector::{
    element_views, lemma_parent_tree_no_child, lemma_parent_tree_nonempty, parent_tree, ElementView,
    Selector, SelectorElement, SelectorView,
};
use crate::property::stylesheet_state::{
    build_state, builder_add, lemma_builder_add_records, recorded, BuilderView, RulesView, StyleSheetState,
    StyleSheetStateBuilder,
};
use crate::small_vec::EntityList;
use crate::stylesheet::{find_sheet, find_sheet_rules, rules_view, sheets_view, SheetRules};
use style_tree::{style_roots, tree_well_formed, StyleTree, StyleTreeNode};
use vstd::prelude::*;
use world::{
    children_query, descendants, entity_filter, Interaction, InteractionEntry, MatchEntry,
    MatchView, UiWorld, WorldView,
};

verus! {

/// The entities that have a component, under the name a selector uses for it.
pub struct ComponentEntry {
    pub name: String,
    pub entities: EntityList,
}

/// The components that selectors can name, each with the entities that have it.
pub struct ComponentFilterRegistry {
    entries: Vec<ComponentEntry>,
}

impl View for ComponentFilterRegistry {
    type V = Seq<(Seq<char>, Seq<u64>)>;

    closed spec fn view(&self) -> Seq<(Seq<char>, Seq<u64>)> {
        self.entries@.map_values(|e: ComponentEntry| (e.name@, e.entities@))
    }
}

/// The entities registered under `name`, from the first entry with that name.
pub open spec fn component_entities(reg: Seq<(Seq<char>, Seq<u64>)>, name: Seq<char>) -> Option<
    Seq<u64>,
>
    decreases reg.len(),
{
    if reg.len() == 0 {
        None
    } else if reg[0].0 == name {
        Some(reg[0].1)
    } else {
        component_entities(reg.drop_first(), name)
    }
}

impl ComponentFilterRegistry {
    /// A registry with no components.
    pub fn new() -> (r: ComponentFilterRegistry)
        ensures
            r@ == Seq::<(Seq<char>, Seq<u64>)>::empty(),
    {
        ComponentFilterRegistry { entries: Vec::new() }
    }

    /// Registers the entities that have the component named `name`, in place of any
    /// earlier registration under that name.
    pub fn insert(&mut self, name: String, entities: EntityList)
        ensures
            component_entities(final(self)@, name@) == Some(entities@),
            forall|other: Seq<char>|
                other != name@ ==> component_entities(final(self)@, other) == component_entities(
                    old(self)@,
                    other,
                ),
    {
        let ghost old_view = self@;
        let n = self.entries.len();
        for i in 0..n
            invariant
                n == self.entries@.len(),
                self@ == old_view,
                old_view == old(self)@,
                forall|k: int| 0 <= k < i ==> #[trigger] old_view[k].0 != name@,
        {
            assert(old_view[i as int] == (self.entries@[i as int].name@, self.entries@[i as int].entities@));
            if self.entries[i].name == name {
                let ghost before = self@;
                let entry = ComponentEntry { name, entities };
                self.entries.set(i, entry);
                proof {
                    assert(self@ == before.update(i as int, (name@, entities@)));
                    lemma_component_entities_update(before, i as int, name@, entities@);
                }
                return;
            }
        }
        let ghost before = self@;
        self.entries.push(ComponentEntry { name, entities });
        proof {
            assert(self@ == before.push((name@, entities@)));
            lemma_component_entities_push(before, name@, entities@);
        }
    }

    /// The entities registered under `name`, if any.
    pub fn get(&self, name: &String) -> (r: Option<&EntityList>)
        ensures
            match r {
                Some(l) => component_entities(self@, name@) == Some(l@),
                None => component_entities(self@, name@) is None,
            },
    {
        let ghost v = self@;
        let n = self.entries.len();
        for i in 0..n
            invariant
                n == self.entries@.len(),
                v == self@,
                forall|k: int| 0 <= k < i ==> #[trigger] v[k].0 != name@,
        {
            assert(v[i as int] == (self.entries@[i as int].name@, self.entries@[i as int].entities@));
            if self.entries[i].name == *name {
                proof { lemma_component_entities_skip(v, name@, i as int); }
                return Some(&self.entries[i].entities);
            }
        }
        proof { lemma_component_entities_skip(v, name@, n as int); }
        None
    }
}

proof fn lemma_component_entities_skip(reg: Seq<(Seq<char>, Seq<u64>)>, name: Seq<char>, i: int)
    requires
        0 <= i <= reg.len(),
        forall|k: int| 0 <= k < i ==> #[trigger] reg[k].0 != name,
    ensures
        component_entities(reg, name) == component_entities(reg.skip(i), name),
    decreases i,
{
    if i > 0 {
        assert(reg.skip(i) == reg.drop_first().skip(i - 1));
        assert forall|k: int| 0 <= k < i - 1 implies #[trigger] reg.drop_first()[k].0 != name by {
            assert(reg.drop_first()[k] == reg[k + 1]);
        }
        lemma_component_entities_skip(reg.drop_first(), name, i - 1);
    } else {
        assert(reg.skip(0) == reg);
    }
}

proof fn lemma_component_entities_update(
    reg: Seq<(Seq<char>, Seq<u64>)>,
    i: int,
    name: Seq<char>,
    l: Seq<u64>,
)
    requires
        0 <= i < reg.len(),
        reg[i].0 == name,
        forall|k: int| 0 <= k < i ==> #[trigger] reg[k].0 != name,
    ensures
        component_entities(reg.update(i, (name, l)), name) == Some(l),
        forall|other: Seq<char>|
            other != name ==> component_entities(reg.update(i, (name, l)), other)
                == component_entities(reg, other),
    decreases reg.len(),
{
    let u = reg.update(i, (name, l));
    if i == 0 {
        assert(u.drop_first() == reg.drop_first());
        assert forall|other: Seq<char>| other != name implies component_entities(u, other)
            == component_entities(reg, other) by {
            assert(u[0].0 == name);
            assert(component_entities(u, other) == component_entities(u.drop_first(), other));
            assert(component_entities(reg, other) == component_entities(reg.drop_first(), other));
        }
    } else {
        assert(reg[0].0 != name);
        assert forall|k: int| 0 <= k < i - 1 implies #[trigger] reg.drop_first()[k].0 != name by {
            assert(reg.drop_first()[k] == reg[k + 1]);
        }
        lemma_component_entities_update(reg.drop_first(), i - 1, name, l);
        assert(u.drop_first() == reg.drop_first().update(i - 1, (name, l)));
        assert forall|other: Seq<char>| other != name implies component_entities(u, other)
            == component_entities(reg, other) by {
            assert(u[0] == reg[0]);
            if reg[0].0 != other {
                assert(component_entities(u, other) == component_entities(u.drop_first(), other));
                assert(component_entities(reg, other) == component_entities(reg.drop_first(), other));
            }
        }
    }
}

proof fn lemma_component_entities_push(reg: Seq<(Seq<char>, Seq<u64>)>, name: Seq<char>, l: Seq<u64>)
    requires
        forall|k: int| 0 <= k < reg.len() ==> #[trigger] reg[k].0 != name,
    ensures
        component_entities(reg.push((name, l)), name) == Some(l),
        forall|other: Seq<char>|
            other != name ==> component_entities(reg.push((name, l)), other) == component_entities(
                reg,
                other,
            ),
    decreases reg.len(),
{
    let u = reg.push((name, l));
    if reg.len() > 0 {
        assert forall|k: int| 0 <= k < reg.len() - 1 implies #[trigger] reg.drop_first()[k].0 != name by {
            assert(reg.drop_first()[k] == reg[k + 1]);
        }
        lemma_component_entities_push(reg.drop_first(), name, l);
        assert(u.drop_first() == reg.drop_first().push((name, l)));
        assert forall|other: Seq<char>| other != name implies component_entities(u, other)
            == component_entities(reg, other) by {
            assert(u[0] == reg[0]);
            if reg[0].0 != other {
                assert(component_entities(u, other) == component_entities(u.drop_first(), other));
                assert(component_entities(reg, other) == component_entities(reg.drop_first(), other));
            }
        }
    } else {
        assert(u.drop_first() == reg);
        assert forall|other: Seq<char>| other != name implies component_entities(u, other)
            == component_entities(reg, other) by {
            assert(u[0].0 == name);
            assert(component_entities(u, other) == component_entities(u.drop_first(), other));
        }
    }
}

/// Whether the filter lets `e` through: every entity passes when there is no filter.
pub open spec fn allowed(filter: Option<Seq<u64>>, e: u64) -> bool {
    match filter {
        Some(f) => f.contains(e),
        None => true,
    }
}

/// The entities of `l` that the filter lets through, in order.
pub open spec fn filter_list(l: Seq<u64>, filter: Option<Seq<u64>>) -> Seq<u64>
    decreases l.len(),
{
    if l.len() == 0 {
        Seq::empty()
    } else {
        let prev = filter_list(l.drop_last(), filter);
        if allowed(filter, l.last()) {
            prev.push(l.last())
        } else {
            prev
        }
    }
}

/// The entities of the query whose words hold `name`, that the filter lets through, in
/// query order.
pub open spec fn matching(q: Seq<MatchView>, name: Seq<char>, filter: Option<Seq<u64>>) -> Seq<
    u64,
>
    decreases q.len(),
{
    if q.len() == 0 {
        Seq::empty()
    } else {
        let prev = matching(q.drop_last(), name, filter);
        let m = q.last();
        if m.values.contains(name) && allowed(filter, m.entity) {
            prev.push(m.entity)
        } else {
            prev
        }
    }
}

/// Whether a pseudo class holds in an interaction state: `hover` while hovered, `click`
/// while pressed.
pub open spec fn pseudo_class_holds(name: Seq<char>, a: Interaction) -> bool {
    (name == seq!['h', 'o', 'v', 'e', 'r'] && a == Interaction::Hovered) || (name == seq![
        'c',
        'l',
        'i',
        'c',
        'k',
    ] && a == Interaction::Pressed)
}

/// The entities whose interaction state the pseudo class holds in, that the filter lets
/// through, in query order.
pub open spec fn pseudo_matching(
    q: Seq<(u64, Interaction)>,
    name: Seq<char>,
    filter: Option<Seq<u64>>,
) -> Seq<u64>
    decreases q.len(),
{
    if q.len() == 0 {
        Seq::empty()
    } else {
        let prev = pseudo_matching(q.drop_last(), name, filter);
        let (e, a) = q.last();
        if pseudo_class_holds(name, a) && allowed(filter, e) {
            prev.push(e)
        } else {
            prev
        }
    }
}

/// The entities one selector element picks, among those the filter lets through.
pub open spec fn select_element(
    w: WorldView,
    reg: Seq<(Seq<char>, Seq<u64>)>,
    e: ElementView,
    filter: Option<Seq<u64>>,
) -> Seq<u64> {
    match e {
        ElementView::Name(n) => matching(w.names, n, filter),
        ElementView::Class(c) => matching(w.classes, c, filter),
        ElementView::PseudoClass(c) => pseudo_matching(w.interactions, c, filter),
        ElementView::Component(c) => match component_entities(reg, c) {
            Some(l) => filter_list(l, filter),
            None => Seq::empty(),
        },
        ElementView::Child => Seq::empty(),
    }
}

/// Each element of a group narrows down the entities the one before it picked, starting
/// from the filter.
pub open spec fn select_node(
    w: WorldView,
    reg: Seq<(Seq<char>, Seq<u64>)>,
    g: Seq<ElementView>,
    filter: Option<Seq<u64>>,
) -> Option<Seq<u64>>
    decreases g.len(),
{
    if g.len() == 0 {
        filter
    } else {
        Some(select_element(w, reg, g.last(), select_node(w, reg, g.drop_last(), filter)))
    }
}

/// Whether selector element `e` picks entity `x` when nothing filters: `x` has the name or
/// class among its words, is in the interaction state the pseudo class holds in, or is
/// registered under the component. A child relation picks nothing.
pub open spec fn element_picks(
    w: WorldView,
    reg: Seq<(Seq<char>, Seq<u64>)>,
    e: ElementView,
    x: u64,
) -> bool {
    match e {
        ElementView::Name(n) => exists|k: int|
            0 <= k < w.names.len() && #[trigger] w.names[k].entity == x && w.names[k].values.contains(n),
        ElementView::Class(c) => exists|k: int|
            0 <= k < w.classes.len() && #[trigger] w.classes[k].entity == x && w.classes[k].values.contains(c),
        ElementView::PseudoClass(c) => exists|k: int|
            0 <= k < w.interactions.len() && #[trigger] w.interactions[k].0 == x && pseudo_class_holds(
                c,
                w.interactions[k].1,
            ),
        ElementView::Component(c) => match component_entities(reg, c) {
            Some(l) => l.contains(x),
            None => false,
        },
        ElementView::Child => false,
    }
}

proof fn lemma_matching_contains(q: Seq<MatchView>, name: Seq<char>, filter: Option<Seq<u64>>, x: u64)
    ensures
        matching(q, name, filter).contains(x) <==> (allowed(filter, x) && exists|k: int|
            0 <= k < q.len() && #[trigger] q[k].entity == x && q[k].values.contains(name)),
    decreases q.len(),
{
    if q.len() > 0 {
        let p = q.drop_last();
        lemma_matching_contains(p, name, filter, x);
        if exists|k: int| 0 <= k < p.len() && #[trigger] p[k].entity == x && p[k].values.contains(name) {
            let k = choose|k: int| 0 <= k < p.len() && #[trigger] p[k].entity == x && p[k].values.contains(name);
            assert(q[k] == p[k]);
        }
        if exists|k: int| 0 <= k < q.len() && #[trigger] q[k].entity == x && q[k].values.contains(name) {
            let k = choose|k: int| 0 <= k < q.len() && #[trigger] q[k].entity == x && q[k].values.contains(name);
            if k < q.len() - 1 {
                assert(p[k] == q[k]);
            }
        }
        let prev = matching(p, name, filter);
        if q.last().values.contains(name) && allowed(filter, q.last().entity) {
            assert(prev.push(q.last().entity).contains(x) <==> (prev.contains(x) || q.last().entity == x)) by {
                if prev.push(q.last().entity).contains(x) && !prev.contains(x) {
                    let m = choose|m: int| 0 <= m < prev.len() + 1 && prev.push(q.last().entity)[m] == x;
                    assert(m == prev.len());
                }
                if prev.contains(x) {
                    let m = choose|m: int| 0 <= m < prev.len() && prev[m] == x;
                    assert(prev.push(q.last().entity)[m] == x);
                }
                if q.last().entity == x {
                    assert(prev.push(q.last().entity)[prev.len() as int] == x);
                }
            }
        }
    }
}

proof fn lemma_pseudo_matching_contains(
    q: Seq<(u64, Interaction)>,
    name: Seq<char>,
    filter: Option<Seq<u64>>,
    x: u64,
)
    ensures
        pseudo_matching(q, name, filter).contains(x) <==> (allowed(filter, x) && exists|k: int|
            0 <= k < q.len() && #[trigger] q[k].0 == x && pseudo_class_holds(name, q[k].1)),
    decreases q.len(),
{
    if q.len() > 0 {
        let p = q.drop_last();
        lemma_pseudo_matching_contains(p, name, filter, x);
        if exists|k: int| 0 <= k < p.len() && #[trigger] p[k].0 == x && pseudo_class_holds(name, p[k].1) {
            let k = choose|k: int| 0 <= k < p.len() && #[trigger] p[k].0 == x && pseudo_class_holds(name, p[k].1);
            assert(q[k] == p[k]);
        }
        if exists|k: int| 0 <= k < q.len() && #[trigger] q[k].0 == x && pseudo_class_holds(name, q[k].1) {
            let k = choose|k: int| 0 <= k < q.len() && #[trigger] q[k].0 == x && pseudo_class_holds(name, q[k].1);
            if k < q.len() - 1 {
                assert(p[k] == q[k]);
            }
        }
        let prev = pseudo_matching(p, name, filter);
        let (e, a) = q.last();
        if pseudo_class_holds(name, a) && allowed(filter, e) {
            assert(prev.push(e).contains(x) <==> (prev.contains(x) || e == x)) by {
                if prev.push(e).contains(x) && !prev.contains(x) {
                    let m = choose|m: int| 0 <= m < prev.len() + 1 && prev.push(e)[m] == x;
                    assert(m == prev.len());
                }
                if prev.contains(x) {
                    let m = choose|m: int| 0 <= m < prev.len() && prev[m] == x;
                    assert(prev.push(e)[m] == x);
                }
                if e == x {
                    assert(prev.push(e)[prev.len() as int] == x);
                }
            }
        }
    }
}

proof fn lemma_filter_list_contains(l: Seq<u64>, filter: Option<Seq<u64>>, x: u64)
    ensures
        filter_list(l, filter).contains(x) <==> (l.contains(x) && allowed(filter, x)),
    decreases l.len(),
{
    if l.len() > 0 {
        let p = l.drop_last();
        lemma_filter_list_contains(p, filter, x);
        if p.contains(x) {
            let k = choose|k: int| 0 <= k < p.len() && p[k] == x;
            assert(l[k] == x);
        }
        if l.contains(x) && l.last() != x {
            let k = choose|k: int| 0 <= k < l.len() && l[k] == x;
            assert(p[k] == x);
        }
        if l.len() > 0 {
            assert(l[l.len() - 1] == l.last());
        }
        let prev = filter_list(p, filter);
        if allowed(filter, l.last()) {
            assert(prev.push(l.last()).contains(x) <==> (prev.contains(x) || l.last() == x)) by {
                if prev.push(l.last()).contains(x) && !prev.contains(x) {
                    let m = choose|m: int| 0 <= m < prev.len() + 1 && prev.push(l.last())[m] == x;
                    assert(m == prev.len());
                }
                if prev.contains(x) {
                    let m = choose|m: int| 0 <= m < prev.len() && prev[m] == x;
                    assert(prev.push(l.last())[m] == x);
                }
                if l.last() == x {
                    assert(prev.push(l.last())[prev.len() as int] == x);
                }
            }
        }
    }
}

/// An element picks, among what the filter lets through, exactly the entities it picks
/// when nothing filters.
pub proof fn lemma_select_element_contains(
    w: WorldView,
    reg: Seq<(Seq<char>, Seq<u64>)>,
    e: ElementView,
    filter: Option<Seq<u64>>,
    x: u64,
)
    ensures
        select_element(w, reg, e, filter).contains(x) <==> (element_picks(w, reg, e, x) && allowed(
            filter,
            x,
        )),
{
    match e {
        ElementView::Name(n) => lemma_matching_contains(w.names, n, filter, x),
        ElementView::Class(c) => lemma_matching_contains(w.classes, c, filter, x),
        ElementView::PseudoClass(c) => lemma_pseudo_matching_contains(w.interactions, c, filter, x),
        ElementView::Component(c) => match component_entities(reg, c) {
            Some(l) => lemma_filter_list_contains(l, filter, x),
            None => {},
        },
        ElementView::Child => {},
    }
}

/// A group of elements picks, among what the filter lets through, the entities that every
/// one of its elements picks.
pub proof fn lemma_select_node_contains(
    w: WorldView,
    reg: Seq<(Seq<char>, Seq<u64>)>,
    g: Seq<ElementView>,
    filter: Option<Seq<u64>>,
    x: u64,
)
    requires
        g.len() > 0,
    ensures
        select_node(w, reg, g, filter) is Some,
        select_node(w, reg, g, filter)->0.contains(x) <==> (allowed(filter, x) && forall|i: int|
            0 <= i < g.len() ==> element_picks(w, reg, #[trigger] g[i], x)),
    decreases g.len(),
{
    let p = g.drop_last();
    let prev = select_node(w, reg, p, filter);
    lemma_select_element_contains(w, reg, g.last(), prev, x);
    if g.len() > 1 {
        lemma_select_node_contains(w, reg, p, filter, x);
        assert((forall|i: int| 0 <= i < g.len() ==> element_picks(w, reg, #[trigger] g[i], x)) <==> (
        (forall|i: int| 0 <= i < p.len() ==> element_picks(w, reg, #[trigger] p[i], x))
            && element_picks(w, reg, g.last(), x))) by {
            if forall|i: int| 0 <= i < p.len() ==> element_picks(w, reg, #[trigger] p[i], x) {
                if element_picks(w, reg, g.last(), x) {
                    assert forall|i: int| 0 <= i < g.len() implies element_picks(w, reg, #[trigger] g[i], x) by {
                        if i < p.len() {
                            assert(p[i] == g[i]);
                        }
                    }
                }
            }
            if forall|i: int| 0 <= i < g.len() ==> element_picks(w, reg, #[trigger] g[i], x) {
                assert forall|i: int| 0 <= i < p.len() implies element_picks(w, reg, #[trigger] p[i], x) by {
                    assert(p[i] == g[i]);
                }
                assert(element_picks(w, reg, g[g.len() - 1], x));
            }
        }
    } else {
        assert((forall|i: int| 0 <= i < g.len() ==> element_picks(w, reg, #[trigger] g[i], x))
            <==> element_picks(w, reg, g.last(), x)) by {
            if element_picks(w, reg, g.last(), x) {
                assert forall|i: int| 0 <= i < g.len() implies element_picks(w, reg, #[trigger] g[i], x) by {
                    assert(i == 0);
                }
            }
            if forall|i: int| 0 <= i < g.len() ==> element_picks(w, reg, #[trigger] g[i], x) {
                assert(element_picks(w, reg, g[0], x));
            }
        }
    }
}

/// The elements of a group are intersected, so their order does not matter: two groups
/// that hold the same elements, each as often, pick the same entities.
pub proof fn lemma_select_node_order_independent(
    w: WorldView,
    reg: Seq<(Seq<char>, Seq<u64>)>,
    g1: Seq<ElementView>,
    g2: Seq<ElementView>,
    filter: Option<Seq<u64>>,
)
    requires
        g1.len() > 0,
        g1.to_multiset() =~= g2.to_multiset(),
    ensures
        select_node(w, reg, g1, filter) is Some,
        select_node(w, reg, g2, filter) is Some,
        forall|x: u64|
            #[trigger] select_node(w, reg, g1, filter)->0.contains(x) <==> select_node(
                w,
                reg,
                g2,
                filter,
            )->0.contains(x),
{
    g1.to_multiset_ensures();
    g2.to_multiset_ensures();
    assert(g2.len() > 0);
    assert forall|x: u64|
        #[trigger] select_node(w, reg, g1, filter)->0.contains(x) <==> select_node(
            w,
            reg,
            g2,
            filter,
        )->0.contains(x) by {
        lemma_select_node_contains(w, reg, g1, filter, x);
        lemma_select_node_contains(w, reg, g2, filter, x);
        if forall|i: int| 0 <= i < g1.len() ==> element_picks(w, reg, #[trigger] g1[i], x) {
            assert forall|j: int| 0 <= j < g2.len() implies element_picks(w, reg, #[trigger] g2[j], x) by {
                assert(g2.contains(g2[j]));
                assert(g2.to_multiset().count(g2[j]) > 0);
                assert(g1.to_multiset().count(g2[j]) > 0);
                assert(g1.contains(g2[j]));
                let i = choose|i: int| 0 <= i < g1.len() && g1[i] == g2[j];
                assert(element_picks(w, reg, g1[i], x));
            }
        }
        if forall|j: int| 0 <= j < g2.len() ==> element_picks(w, reg, #[trigger] g2[j], x) {
            assert forall|i: int| 0 <= i < g1.len() implies element_picks(w, reg, #[trigger] g1[i], x) by {
                assert(g1.contains(g1[i]));
                assert(g1.to_multiset().count(g1[i]) > 0);
                assert(g2.to_multiset().count(g1[i]) > 0);
                assert(g2.contains(g1[i]));
                let j = choose|j: int| 0 <= j < g2.len() && g2[j] == g1[i];
                assert(element_picks(w, reg, g2[j], x));
            }
        }
    }
}

/// The entities below each of the given ones that is a UI node with children.
pub open spec fn next_filter(nodes: Seq<world::NodeView>, es: Seq<u64>) -> Seq<u64>
    decreases es.len(),
{
    if es.len() == 0 {
        Seq::empty()
    } else {
        next_filter(nodes, es.drop_last()) + match children_query(nodes, es.last()) {
            Some(j) => descendants(nodes, nodes[j].children->0, j),
            None => Seq::empty(),
        }
    }
}

/// Each group picks among the entities below those the previous group picked; the last
/// group's picks are the result.
pub open spec fn select_levels(
    w: WorldView,
    reg: Seq<(Seq<char>, Seq<u64>)>,
    groups: Seq<Seq<ElementView>>,
    filter: Option<Seq<u64>>,
) -> Seq<u64>
    decreases groups.len(),
{
    if groups.len() == 0 {
        Seq::empty()
    } else {
        let es = match select_node(w, reg, groups[0], filter) {
            Some(l) => l,
            None => Seq::empty(),
        };
        if groups.len() == 1 {
            es
        } else {
            select_levels(w, reg, groups.drop_first(), Some(next_filter(w.nodes, es)))
        }
    }
}

/// The entities a selector picks when `updated` changed under the style sheet of `root`.
pub open spec fn selection(
    w: WorldView,
    reg: Seq<(Seq<char>, Seq<u64>)>,
    root: u64,
    updated: u64,
    elements: Seq<ElementView>,
) -> Seq<u64> {
    select_levels(w, reg, parent_tree(elements), entity_filter(w.nodes, root, updated))
}

/// The entities below `y`, when it is a UI node with children.
pub open spec fn descendants_of(nodes: Seq<world::NodeView>, y: u64) -> Seq<u64> {
    match children_query(nodes, y) {
        Some(j) => descendants(nodes, nodes[j].children->0, j),
        None => Seq::empty(),
    }
}

/// Whether every element of the group picks `x`.
pub open spec fn group_picks(
    w: WorldView,
    reg: Seq<(Seq<char>, Seq<u64>)>,
    g: Seq<ElementView>,
    x: u64,
) -> bool {
    forall|i: int| 0 <= i < g.len() ==> element_picks(w, reg, #[trigger] g[i], x)
}

/// Whether `c` is a chain of entities for the groups of a selector: one entity for each
/// group, each picked by every element of its group, the first one let through by the
/// filter (which must exist when the first group is empty), and each of the others below
/// the one before it.
pub open spec fn is_selector_chain(
    w: WorldView,
    reg: Seq<(Seq<char>, Seq<u64>)>,
    groups: Seq<Seq<ElementView>>,
    filter: Option<Seq<u64>>,
    c: Seq<u64>,
) -> bool {
    &&& c.len() == groups.len()
    &&& c.len() > 0
    &&& groups[0].len() > 0 || filter is Some
    &&& allowed(filter, c[0])
    &&& forall|j: int| 0 <= j < c.len() ==> group_picks(w, reg, #[trigger] groups[j], c[j])
    &&& forall|j: int| 0 < j < c.len() ==> descendants_of(w.nodes, c[j - 1]).contains(#[trigger] c[j])
}

proof fn lemma_next_filter_contains(nodes: Seq<world::NodeView>, es: Seq<u64>, z: u64)
    ensures
        next_filter(nodes, es).contains(z) <==> exists|k: int|
            0 <= k < es.len() && #[trigger] descendants_of(nodes, es[k]).contains(z),
    decreases es.len(),
{
    if es.len() > 0 {
        let p = es.drop_last();
        lemma_next_filter_contains(nodes, p, z);
        let a = next_filter(nodes, p);
        let d = descendants_of(nodes, es.last());
        assert(next_filter(nodes, es) == a + d);
        if (a + d).contains(z) {
            let i = choose|i: int| 0 <= i < (a + d).len() && (a + d)[i] == z;
            if i < a.len() {
                assert(a[i] == z);
                assert(a.contains(z));
                let k = choose|k: int| 0 <= k < p.len() && #[trigger] descendants_of(nodes, p[k]).contains(z);
                assert(es[k] == p[k]);
                assert(descendants_of(nodes, es[k]).contains(z));
            } else {
                assert(d[i - a.len()] == z);
                assert(d.contains(z));
                assert(es[es.len() - 1] == es.last());
                assert(descendants_of(nodes, es[es.len() - 1]).contains(z));
            }
        }
        if exists|k: int| 0 <= k < es.len() && #[trigger] descendants_of(nodes, es[k]).contains(z) {
            let k = choose|k: int| 0 <= k < es.len() && #[trigger] descendants_of(nodes, es[k]).contains(z);
            if k < es.len() - 1 {
                assert(p[k] == es[k]);
                assert(descendants_of(nodes, p[k]).contains(z));
                let i = choose|i: int| 0 <= i < a.len() && a[i] == z;
                assert((a + d)[i] == z);
            } else {
                let i = choose|i: int| 0 <= i < d.len() && d[i] == z;
                assert((a + d)[a.len() + i] == z);
            }
        }
    }
}

proof fn lemma_level_contains(
    w: WorldView,
    reg: Seq<(Seq<char>, Seq<u64>)>,
    g: Seq<ElementView>,
    filter: Option<Seq<u64>>,
    z: u64,
)
    ensures
        (match select_node(w, reg, g, filter) {
            Some(l) => l,
            None => Seq::empty(),
        }).contains(z) <==> ((g.len() > 0 || filter is Some) && allowed(filter, z) && group_picks(
            w,
            reg,
            g,
            z,
        )),
{
    if g.len() > 0 {
        lemma_select_node_contains(w, reg, g, filter, z);
    }
}

/// The entities a selector's groups select are the ends of its chains: an entity is
/// selected exactly when a chain of entities leads to it, each picked by its group and
/// each below the one before it, the first one let through by the filter.
pub proof fn lemma_select_levels_chain(
    w: WorldView,
    reg: Seq<(Seq<char>, Seq<u64>)>,
    groups: Seq<Seq<ElementView>>,
    filter: Option<Seq<u64>>,
    x: u64,
)
    requires
        groups.len() > 0,
    ensures
        select_levels(w, reg, groups, filter).contains(x) <==> exists|c: Seq<u64>|
            #[trigger] is_selector_chain(w, reg, groups, filter, c) && c.last() == x,
    decreases groups.len(),
{
    let es = match select_node(w, reg, groups[0], filter) {
        Some(l) => l,
        None => Seq::empty(),
    };
    if groups.len() == 1 {
        lemma_level_contains(w, reg, groups[0], filter, x);
        if es.contains(x) {
            let c = seq![x];
            assert(is_selector_chain(w, reg, groups, filter, c));
        }
        if exists|c: Seq<u64>| #[trigger] is_selector_chain(w, reg, groups, filter, c) && c.last() == x {
            let c = choose|c: Seq<u64>| #[trigger] is_selector_chain(w, reg, groups, filter, c) && c.last() == x;
            assert(c[0] == x);
            assert(group_picks(w, reg, groups[0], c[0]));
        }
    } else {
        let rest = groups.drop_first();
        let f2 = Some(next_filter(w.nodes, es));
        assert(select_levels(w, reg, groups, filter) == select_levels(w, reg, rest, f2));
        lemma_select_levels_chain(w, reg, rest, f2, x);
        if exists|c2: Seq<u64>| #[trigger] is_selector_chain(w, reg, rest, f2, c2) && c2.last() == x {
            let c2 = choose|c2: Seq<u64>| #[trigger] is_selector_chain(w, reg, rest, f2, c2) && c2.last() == x;
            lemma_next_filter_contains(w.nodes, es, c2[0]);
            let k = choose|k: int| 0 <= k < es.len() && #[trigger] descendants_of(w.nodes, es[k]).contains(c2[0]);
            let y = es[k];
            assert(es.contains(y));
            lemma_level_contains(w, reg, groups[0], filter, y);
            let c = seq![y] + c2;
            assert(c.last() == x);
            assert forall|j: int| 0 <= j < c.len() implies group_picks(w, reg, #[trigger] groups[j], c[j]) by {
                if j > 0 {
                    assert(c[j] == c2[j - 1]);
                    assert(groups[j] == rest[j - 1]);
                    assert(group_picks(w, reg, rest[j - 1], c2[j - 1]));
                }
            }
            assert forall|j: int| 0 < j < c.len() implies descendants_of(w.nodes, c[j - 1]).contains(#[trigger] c[j]) by {
                assert(c[j] == c2[j - 1]);
                if j > 1 {
                    assert(c[j - 1] == c2[j - 2]);
                    assert(descendants_of(w.nodes, c2[(j - 1) - 1]).contains(c2[j - 1]));
                }
            }
            assert(is_selector_chain(w, reg, groups, filter, c));
        }
        if exists|c: Seq<u64>| #[trigger] is_selector_chain(w, reg, groups, filter, c) && c.last() == x {
            let c = choose|c: Seq<u64>| #[trigger] is_selector_chain(w, reg, groups, filter, c) && c.last() == x;
            let c2 = c.drop_first();
            assert(group_picks(w, reg, groups[0], c[0]));
            lemma_level_contains(w, reg, groups[0], filter, c[0]);
            let k = choose|k: int| 0 <= k < es.len() && es[k] == c[0];
            assert(descendants_of(w.nodes, c[0]).contains(c[1]));
            assert(descendants_of(w.nodes, es[k]).contains(c2[0]));
            lemma_next_filter_contains(w.nodes, es, c2[0]);
            assert forall|j: int| 0 <= j < c2.len() implies group_picks(w, reg, #[trigger] rest[j], c2[j]) by {
                assert(rest[j] == groups[j + 1]);
                assert(c2[j] == c[j + 1]);
                assert(group_picks(w, reg, groups[j + 1], c[j + 1]));
            }
            assert forall|j: int| 0 < j < c2.len() implies descendants_of(w.nodes, c2[j - 1]).contains(#[trigger] c2[j]) by {
                assert(c2[j] == c[j + 1]);
                assert(c2[j - 1] == c[j]);
                assert(descendants_of(w.nodes, c[(j + 1) - 1]).contains(c[j + 1]));
            }
            assert(is_selector_chain(w, reg, rest, f2, c2));
            assert(c2.last() == x);
        }
    }
}

/// A selector selects, when `updated` changed under the style sheet of `root`, exactly the
/// entities at the end of a chain for its groups, the first entity of the chain among those
/// the rule may apply to (its UI ancestors up to `root`, itself and everything below it).
pub proof fn lemma_selection_chain(
    w: WorldView,
    reg: Seq<(Seq<char>, Seq<u64>)>,
    root: u64,
    updated: u64,
    elements: Seq<ElementView>,
    x: u64,
)
    ensures
        selection(w, reg, root, updated, elements).contains(x) <==> exists|c: Seq<u64>|
            #[trigger] is_selector_chain(
                w,
                reg,
                parent_tree(elements),
                world::entity_filter(w.nodes, root, updated),
                c,
            ) && c.last() == x,
{
    lemma_parent_tree_nonempty(elements);
    lemma_select_levels_chain(w, reg, parent_tree(elements), world::entity_filter(w.nodes, root, updated), x);
}

pub open spec fn opt_view(f: Option<EntityList>) -> Option<Seq<u64>> {
    match f {
        Some(l) => Some(l@),
        None => None,
    }
}

fn passes(filter: &Option<EntityList>, e: u64) -> (r: bool)
    ensures
        r == allowed(opt_view(*filter), e),
{
    match filter {
        Some(f) => f.contains(e),
        None => true,
    }
}

fn holds_word(values: &Vec<String>, name: &String) -> (r: bool)
    ensures
        r == values@.map_values(|s: String| s@).contains(name@),
{
    let ghost vv = values@.map_values(|s: String| s@);
    let n = values.len();
    for i in 0..n
        invariant
            n == values@.len(),
            vv == values@.map_values(|s: String| s@),
            forall|k: int| 0 <= k < i ==> vv[k] != name@,
    {
        if values[i] == *name {
            assert(vv[i as int] == name@);
            return true;
        }
    }
    false
}

/// Filters the entities of a name or class query whose words hold `name`.
pub fn get_entities_with(name: &String, query: &Vec<MatchEntry>, filter: &Option<EntityList>) -> (r:
    EntityList)
    ensures
        r@ == matching(query@.map_values(|m: MatchEntry| m@), name@, opt_view(*filter)),
{
    let ghost q = query@.map_values(|m: MatchEntry| m@);
    let mut out: Vec<u64> = Vec::new();
    let n = query.len();
    for i in 0..n
        invariant
            n == query@.len(),
            q == query@.map_values(|m: MatchEntry| m@),
            out@ == matching(q.take(i as int), name@, opt_view(*filter)),
    {
        assert(q.take(i + 1).drop_last() == q.take(i as int));
        assert(q.take(i + 1).last() == query@[i as int]@);
        let entry = &query[i];
        if holds_word(&entry.values, name) && passes(filter, entry.entity) {
            out.push(entry.entity);
        }
    }
    assert(q.take(n as int) == q);
    EntityList::from_slice(out.as_slice())
}

fn is_word(name: &String, word: &str) -> (r: bool)
    ensures
        r == (name@ == word@),
{
    let other = String::from_str(word);
    *name == other
}

/// Filters the entities whose interaction state the pseudo class `name` holds in.
pub fn get_entities_with_pseudo_class(
    name: &String,
    query: &Vec<InteractionEntry>,
    filter: &Option<EntityList>,
) -> (r: EntityList)
    ensures
        r@ == pseudo_matching(
            query@.map_values(|m: InteractionEntry| (m.entity, m.interaction)),
            name@,
            opt_view(*filter),
        ),
{
    let ghost q = query@.map_values(|m: InteractionEntry| (m.entity, m.interaction));
    let hover = is_word(name, "hover");
    let click = is_word(name, "click");
    proof {
        reveal_strlit("hover");
        reveal_strlit("click");
        assert("hover"@ =~= seq!['h', 'o', 'v', 'e', 'r']);
        assert("click"@ =~= seq!['c', 'l', 'i', 'c', 'k']);
    }
    assert(hover == (name@ == seq!['h', 'o', 'v', 'e', 'r']));
    assert(click == (name@ == seq!['c', 'l', 'i', 'c', 'k']));
    let mut out: Vec<u64> = Vec::new();
    let n = query.len();
    for i in 0..n
        invariant
            n == query@.len(),
            q == query@.map_values(|m: InteractionEntry| (m.entity, m.interaction)),
            hover == (name@ == seq!['h', 'o', 'v', 'e', 'r']),
            click == (name@ == seq!['c', 'l', 'i', 'c', 'k']),
            out@ == pseudo_matching(q.take(i as int), name@, opt_view(*filter)),
    {
        assert(q.take(i + 1).drop_last() == q.take(i as int));
        assert(q.take(i + 1).last() == (query@[i as int].entity, query@[i as int].interaction));
        let entry = &query[i];
        let holds = (hover && entry.interaction == Interaction::Hovered) || (click
            && entry.interaction == Interaction::Pressed);
        if holds && passes(filter, entry.entity) {
            out.push(entry.entity);
        }
    }
    assert(q.take(n as int) == q);
    EntityList::from_slice(out.as_slice())
}

/// Filters the entities that have the component a selector names, like `button`.
/// A component that is not registered picks nothing.
pub fn get_entities_with_component(
    name: &String,
    registry: &ComponentFilterRegistry,
    filter: &Option<EntityList>,
) -> (r: EntityList)
    ensures
        r@ == match component_entities(registry@, name@) {
            Some(l) => filter_list(l, opt_view(*filter)),
            None => Seq::empty(),
        },
{
    match registry.get(name) {
        Some(list) => {
            let s = list.as_slice();
            let mut out: Vec<u64> = Vec::new();
            let n = s.len();
            for i in 0..n
                invariant
                    n == s@.len(),
                    out@ == filter_list(s@.take(i as int), opt_view(*filter)),
            {
                assert(s@.take(i + 1).drop_last() == s@.take(i as int));
                if passes(filter, s[i]) {
                    out.push(s[i]);
                }
            }
            assert(s@.take(n as int) == s@);
            EntityList::from_slice(out.as_slice())
        },
        None => EntityList::new(),
    }
}

/// Filters the entities matching one group of a selector's elements, each element
/// narrowing down what the one before it picked.
pub fn select_entities_node(
    node: &Vec<&SelectorElement>,
    world: &UiWorld,
    registry: &ComponentFilterRegistry,
    filter: Option<EntityList>,
) -> (r: EntityList)
    requires
        forall|j: int| 0 <= j < node@.len() ==> !(#[trigger] node@[j]@ is Child),
    ensures
        r@ == match select_node(
            world@,
            registry@,
            element_views(node@.map_values(|e: &SelectorElement| *e)),
            opt_view(filter),
        ) {
            Some(l) => l,
            None => Seq::empty(),
        },
{
    let ghost g = element_views(node@.map_values(|e: &SelectorElement| *e));
    let ghost start = opt_view(filter);
    let mut current = filter;
    let n = node.len();
    for i in 0..n
        invariant
            n == node@.len(),
            g == element_views(node@.map_values(|e: &SelectorElement| *e)),
            forall|j: int| 0 <= j < node@.len() ==> !(#[trigger] node@[j]@ is Child),
            opt_view(current) == select_node(world@, registry@, g.take(i as int), start),
    {
        assert(g.take(i + 1).drop_last() == g.take(i as int));
        assert(g.take(i + 1).last() == node@[i as int]@);
        let result = match node[i] {
            SelectorElement::Name(name) => get_entities_with(name, world.names(), &current),
            SelectorElement::Class(class) => get_entities_with(class, world.classes(), &current),
            SelectorElement::PseudoClass(class) => get_entities_with_pseudo_class(
                class,
                world.interactions(),
                &current,
            ),
            SelectorElement::Component(component) => get_entities_with_component(
                component,
                registry,
                &current,
            ),
            SelectorElement::Child => {
                assert(node@[i as int]@ is Child);
                EntityList::new()
            },
        };
        current = Some(result);
    }
    assert(g.take(n as int) == g);
    match current {
        Some(l) => l,
        None => EntityList::new(),
    }
}

fn next_level(world: &UiWorld, entities: &EntityList) -> (r: EntityList)
    ensures
        r@ == next_filter(world@.nodes, entities@),
{
    let s = entities.as_slice();
    let mut out: Vec<u64> = Vec::new();
    let n = s.len();
    for i in 0..n
        invariant
            n == s@.len(),
            out@ == next_filter(world@.nodes, s@.take(i as int)),
    {
        assert(s@.take(i + 1).drop_last() == s@.take(i as int));
        let ghost before = out@;
        match world.find_node(s[i]) {
            Some(j) => {
                let node = world.node(j);
                if node.is_ui_node && node.children.is_some() {
                    world.descendants_into(j, &mut out);
                }
            },
            None => {},
        }
        assert(out@ =~= next_filter(world@.nodes, s@.take(i + 1)));
    }
    assert(s@.take(n as int) == s@);
    EntityList::from_slice(out.as_slice())
}

/// Selects the entities the selector picks when `updated_node` changed under the style
/// sheet attached to `root_node` (see [`selection`]).
pub fn select_entities(
    root_node: u64,
    updated_node: u64,
    selector: &Selector,
    world: &UiWorld,
    registry: &ComponentFilterRegistry,
) -> (r: EntityList)
    ensures
        r@ == selection(world@, registry@, root_node, updated_node, selector@.elements),
{
    let tree = selector.get_parent_tree();
    let ghost groups = parent_tree(selector@.elements);
    proof {
        lemma_parent_tree_no_child(selector@.elements);
        lemma_parent_tree_nonempty(selector@.elements);
    }
    if tree.len() == 0 {
        return EntityList::new();
    }
    let mut filter = world.build_entity_filter(root_node, updated_node);
    assert(opt_view(filter) == entity_filter(world@.nodes, root_node, updated_node));
    assert(groups.skip(0) == groups);
    let n = tree.len();
    let mut k: usize = 0;
    loop
        invariant
            n == tree@.len(),
            n == groups.len(),
            groups == parent_tree(selector@.elements),
            0 <= k < n,
            forall|i: int|
                #![trigger tree@[i]]
                0 <= i < n ==> element_views(tree@[i]@.map_values(|e: &SelectorElement| *e))
                    == groups[i],
            forall|i: int, j: int|
                0 <= i < groups.len() && 0 <= j < groups[i].len() ==> !(
                #[trigger] groups[i][j] is Child),
            select_levels(world@, registry@, groups.skip(k as int), opt_view(filter)) == selection(
                world@,
                registry@,
                root_node,
                updated_node,
                selector@.elements,
            ),
        decreases n - k,
    {
        let node = &tree[k];
        assert(forall|j: int| 0 <= j < node@.len() ==> !(#[trigger] node@[j]@ is Child)) by {
            assert forall|j: int| 0 <= j < node@.len() implies !(#[trigger] node@[j]@ is Child) by {
                assert(element_views(node@.map_values(|e: &SelectorElement| *e))[j] == node@[j]@);
                assert(groups[k as int][j] == node@[j]@);
            }
        }
        let previous = match &filter {
            Some(f) => Some(f.duplicate()),
            None => None,
        };
        assert(opt_view(previous) == opt_view(filter));
        let entities = select_entities_node(node, world, registry, previous);
        assert(groups.skip(k as int)[0] == groups[k as int]);
        if k + 1 == n {
            assert(groups.skip(k as int).len() == 1);
            return entities;
        }
        let children = next_level(world, &entities);
        assert(groups.skip(k as int).drop_first() == groups.skip(k + 1));
        filter = Some(children);
        k = k + 1;
    }
}


/// Records, for each rule of the sheet `h`, what its selector selects.
pub open spec fn prepare_rules(
    w: WorldView,
    reg: Seq<(Seq<char>, Seq<u64>)>,
    b: BuilderView,
    root: u64,
    updated: u64,
    h: u64,
    rules: RulesView,
) -> BuilderView
    decreases rules.len(),
{
    if rules.len() == 0 {
        b
    } else {
        let p = prepare_rules(w, reg, b, root, updated, h, rules.drop_last());
        let sel = rules.last().1.0;
        builder_add(p, h, sel, selection(w, reg, root, updated, sel.elements))
    }
}

/// Records the rules of each style sheet that applies to `updated`; a sheet that is not
/// loaded is skipped.
pub open spec fn prepare_roots(
    w: WorldView,
    reg: Seq<(Seq<char>, Seq<u64>)>,
    b: BuilderView,
    sheets: Seq<(u64, RulesView)>,
    updated: u64,
    roots: Seq<(u64, u64)>,
) -> BuilderView
    decreases roots.len(),
{
    if roots.len() == 0 {
        b
    } else {
        let p = prepare_roots(w, reg, b, sheets, updated, roots.drop_last());
        let (root, h) = roots.last();
        match find_sheet(sheets, h) {
            Some(rules) => prepare_rules(w, reg, p, root, updated, h, rules),
            None => p,
        }
    }
}

/// The style tree and the selections after going through the changed entities in order.
pub open spec fn prepare_updates(
    w: WorldView,
    reg: Seq<(Seq<char>, Seq<u64>)>,
    sheets: Seq<(u64, RulesView)>,
    changed: Seq<u64>,
) -> (Seq<StyleTreeNode>, BuilderView)
    decreases changed.len(),
{
    if changed.len() == 0 {
        (Seq::empty(), Seq::empty())
    } else {
        let (t1, b1) = prepare_updates(w, reg, sheets, changed.drop_last());
        let (t2, roots) = style_roots(w.nodes, t1, changed.last());
        (t2, prepare_roots(w, reg, b1, sheets, changed.last(), roots))
    }
}

/// Whether `b2` records, for every style sheet and selector, every entity `b` records.
pub open spec fn records_at_least(b: BuilderView, b2: BuilderView) -> bool {
    forall|h: u64, sh: u64, x: u64|
        #[trigger] recorded(b, h, sh).contains(x) ==> recorded(b2, h, sh).contains(x)
}

/// Whether `b` records, for each style sheet of `roots` that is loaded and each rule of it,
/// every entity the rule selects when `updated` changed under the sheet's root.
pub open spec fn records_rules_of(
    w: WorldView,
    reg: Seq<(Seq<char>, Seq<u64>)>,
    b: BuilderView,
    sheets: Seq<(u64, RulesView)>,
    updated: u64,
    roots: Seq<(u64, u64)>,
) -> bool {
    forall|q: int, r: int, x: u64|
        0 <= q < roots.len() && find_sheet(sheets, roots[q].1) is Some && 0 <= r < find_sheet(
            sheets,
            roots[q].1,
        )->0.len() && #[trigger] selection(
            w,
            reg,
            roots[q].0,
            updated,
            find_sheet(sheets, roots[q].1)->0[r].1.0.elements,
        ).contains(x) ==> recorded(b, roots[q].1, find_sheet(sheets, roots[q].1)->0[r].1.0.hash).contains(x)
}

proof fn lemma_records_at_least_trans(b1: BuilderView, b2: BuilderView, b3: BuilderView)
    requires
        records_at_least(b1, b2),
        records_at_least(b2, b3),
    ensures
        records_at_least(b1, b3),
{
    assert forall|h: u64, sh: u64, x: u64| #[trigger] recorded(b1, h, sh).contains(x) implies recorded(b3, h, sh).contains(x) by {
        assert(recorded(b2, h, sh).contains(x));
    }
}

proof fn lemma_records_rules_of_grow(
    w: WorldView,
    reg: Seq<(Seq<char>, Seq<u64>)>,
    b: BuilderView,
    b2: BuilderView,
    sheets: Seq<(u64, RulesView)>,
    updated: u64,
    roots: Seq<(u64, u64)>,
)
    requires
        records_rules_of(w, reg, b, sheets, updated, roots),
        records_at_least(b, b2),
    ensures
        records_rules_of(w, reg, b2, sheets, updated, roots),
{
    assert forall|q: int, r: int, x: u64|
        0 <= q < roots.len() && find_sheet(sheets, roots[q].1) is Some && 0 <= r < find_sheet(
            sheets,
            roots[q].1,
        )->0.len() && #[trigger] selection(
            w,
            reg,
            roots[q].0,
            updated,
            find_sheet(sheets, roots[q].1)->0[r].1.0.elements,
        ).contains(x) implies recorded(b2, roots[q].1, find_sheet(sheets, roots[q].1)->0[r].1.0.hash).contains(x) by {
        assert(recorded(b, roots[q].1, find_sheet(sheets, roots[q].1)->0[r].1.0.hash).contains(x));
    }
}

proof fn lemma_builder_add_keeps(b: BuilderView, h: u64, sel: SelectorView, es: Seq<u64>)
    ensures
        records_at_least(b, builder_add(b, h, sel, es)),
        forall|x: u64| es.contains(x) ==> #[trigger] recorded(builder_add(b, h, sel, es), h, sel.hash).contains(x),
{
    lemma_builder_add_records(b, h, sel, es);
    let b2 = builder_add(b, h, sel, es);
    assert forall|h2: u64, sh: u64, x: u64| #[trigger] recorded(b, h2, sh).contains(x) implies recorded(b2, h2, sh).contains(x) by {
        if h2 != h || sh != sel.hash {
            assert(recorded(b2, h2, sh) == recorded(b, h2, sh));
        }
    }
}

#[verifier::spinoff_prover]
#[verifier::rlimit(40)]
proof fn lemma_prepare_rules_keeps(
    w: WorldView,
    reg: Seq<(Seq<char>, Seq<u64>)>,
    b: BuilderView,
    root: u64,
    updated: u64,
    h: u64,
    rules: RulesView,
)
    ensures
        records_at_least(b, prepare_rules(w, reg, b, root, updated, h, rules)),
        forall|r: int, x: u64|
            0 <= r < rules.len() && #[trigger] selection(w, reg, root, updated, rules[r].1.0.elements).contains(x)
                ==> recorded(prepare_rules(w, reg, b, root, updated, h, rules), h, rules[r].1.0.hash).contains(x),
    decreases rules.len(),
{
    if rules.len() > 0 {
        let d = rules.drop_last();
        let p = prepare_rules(w, reg, b, root, updated, h, d);
        lemma_prepare_rules_keeps(w, reg, b, root, updated, h, d);
        let sel = rules.last().1.0;
        let es = selection(w, reg, root, updated, sel.elements);
        lemma_builder_add_keeps(p, h, sel, es);
        let f = builder_add(p, h, sel, es);
        lemma_records_at_least_trans(b, p, f);
        assert forall|r: int, x: u64|
            0 <= r < rules.len() && #[trigger] selection(w, reg, root, updated, rules[r].1.0.elements).contains(x)
                implies recorded(f, h, rules[r].1.0.hash).contains(x) by {
            if r < rules.len() - 1 {
                assert(d[r] == rules[r]);
                assert(recorded(p, h, rules[r].1.0.hash).contains(x));
            } else {
                assert(rules[r] == rules.last());
            }
        }
    }
}

proof fn lemma_prepare_roots_keeps(
    w: WorldView,
    reg: Seq<(Seq<char>, Seq<u64>)>,
    b: BuilderView,
    sheets: Seq<(u64, RulesView)>,
    updated: u64,
    roots: Seq<(u64, u64)>,
)
    ensures
        records_at_least(b, prepare_roots(w, reg, b, sheets, updated, roots)),
        records_rules_of(w, reg, prepare_roots(w, reg, b, sheets, updated, roots), sheets, updated, roots),
    decreases roots.len(),
{
    if roots.len() > 0 {
        let d = roots.drop_last();
        let p = prepare_roots(w, reg, b, sheets, updated, d);
        lemma_prepare_roots_keeps(w, reg, b, sheets, updated, d);
        let (root, h) = roots.last();
        let f = prepare_roots(w, reg, b, sheets, updated, roots);
        match find_sheet(sheets, h) {
            Some(rules) => {
                lemma_prepare_rules_keeps(w, reg, p, root, updated, h, rules);
                lemma_records_at_least_trans(b, p, f);
            },
            None => {},
        }
        lemma_records_rules_of_grow(w, reg, p, f, sheets, updated, d);
        assert forall|q: int, r: int, x: u64|
            0 <= q < roots.len() && find_sheet(sheets, roots[q].1) is Some && 0 <= r < find_sheet(
                sheets,
                roots[q].1,
            )->0.len() && #[trigger] selection(
                w,
                reg,
                roots[q].0,
                updated,
                find_sheet(sheets, roots[q].1)->0[r].1.0.elements,
            ).contains(x) implies recorded(f, roots[q].1, find_sheet(sheets, roots[q].1)->0[r].1.0.hash).contains(x) by {
            if q < roots.len() - 1 {
                assert(d[q] == roots[q]);
            } else {
                assert(roots[q] == roots.last());
            }
        }
    }
}

/// What each changed entity's rules select is kept. Nothing recorded while going through
/// the first changed entities is dropped for a later one; and for every changed entity, not
/// only the last, every style sheet that applies to it (found with the style tree as it
/// stands when that entity comes up) and every rule of the sheet, every entity the rule
/// selects is recorded for the rule's selector in the end.
pub proof fn lemma_prepare_keeps_every_selection(
    w: WorldView,
    reg: Seq<(Seq<char>, Seq<u64>)>,
    sheets: Seq<(u64, RulesView)>,
    changed: Seq<u64>,
)
    ensures
        forall|k: int|
            0 <= k <= changed.len() ==> records_at_least(
                #[trigger] prepare_updates(w, reg, sheets, changed.take(k)).1,
                prepare_updates(w, reg, sheets, changed).1,
            ),
        forall|k: int|
            0 <= k < changed.len() ==> records_rules_of(
                w,
                reg,
                prepare_updates(w, reg, sheets, changed).1,
                sheets,
                changed[k],
                style_roots(w.nodes, #[trigger] prepare_updates(w, reg, sheets, changed.take(k)).0, changed[k]).1,
            ),
    decreases changed.len(),
{
    let fin = prepare_updates(w, reg, sheets, changed).1;
    assert(changed.take(changed.len() as int) =~= changed);
    assert(records_at_least(fin, fin));
    if changed.len() > 0 {
        let d = changed.drop_last();
        lemma_prepare_keeps_every_selection(w, reg, sheets, d);
        let (t1, b1) = prepare_updates(w, reg, sheets, d);
        let (t2, roots) = style_roots(w.nodes, t1, changed.last());
        lemma_prepare_roots_keeps(w, reg, b1, sheets, changed.last(), roots);
        assert(fin == prepare_roots(w, reg, b1, sheets, changed.last(), roots));
        assert forall|k: int| 0 <= k <= changed.len() implies records_at_least(
            #[trigger] prepare_updates(w, reg, sheets, changed.take(k)).1,
            fin,
        ) by {
            if k < changed.len() {
                assert(changed.take(k) =~= d.take(k));
                lemma_records_at_least_trans(prepare_updates(w, reg, sheets, d.take(k)).1, b1, fin);
            }
        }
        assert forall|k: int| 0 <= k < changed.len() implies records_rules_of(
            w,
            reg,
            fin,
            sheets,
            changed[k],
            style_roots(w.nodes, #[trigger] prepare_updates(w, reg, sheets, changed.take(k)).0, changed[k]).1,
        ) by {
            if k < changed.len() - 1 {
                assert(changed.take(k) =~= d.take(k));
                assert(d[k] == changed[k]);
                lemma_records_rules_of_grow(
                    w,
                    reg,
                    b1,
                    fin,
                    sheets,
                    changed[k],
                    style_roots(w.nodes, prepare_updates(w, reg, sheets, d.take(k)).0, d[k]).1,
                );
            } else {
                assert(changed.take(k) =~= d);
                assert(changed[k] == changed.last());
            }
        }
    }
}

/// The computed styles after the entities in `changed` changed.
pub open spec fn prepared_state(
    w: WorldView,
    reg: Seq<(Seq<char>, Seq<u64>)>,
    sheets: Seq<(u64, RulesView)>,
    changed: Seq<u64>,
) -> Seq<(u64, crate::property::stylesheet_state::StyleView)> {
    build_state(prepare_updates(w, reg, sheets, changed).1, sheets)
}

/// Prepares the state the property systems apply: for each changed entity, each rule of
/// each style sheet that applies to it selects entities, and the styles are computed from
/// what was selected (see [`prepared_state`]).
pub fn prepare_state(
    world: &UiWorld,
    changed: &Vec<u64>,
    sheets: &Vec<SheetRules>,
    registry: &ComponentFilterRegistry,
) -> (r: StyleSheetState)
    ensures
        r@ == prepared_state(world@, registry@, sheets_view(sheets@), changed@),
{
    let ghost sv = sheets_view(sheets@);
    let mut state = StyleSheetStateBuilder::new();
    let mut style_tree = StyleTree::new();
    let n = changed.len();
    for k in 0..n
        invariant
            n == changed@.len(),
            sv == sheets_view(sheets@),
            tree_well_formed(style_tree@),
            (style_tree@, state@) == prepare_updates(world@, registry@, sv, changed@.take(k as int)),
    {
        assert(changed@.take(k + 1).drop_last() == changed@.take(k as int));
        let updated = changed[k];
        let roots = style_tree.get_style_roots_for(updated, world);
        let ghost b1 = state@;
        let m = roots.len();
        for q in 0..m
            invariant
                m == roots@.len(),
                sv == sheets_view(sheets@),
                state@ == prepare_roots(world@, registry@, b1, sv, updated, roots@.take(q as int)),
        {
            assert(roots@.take(q + 1).drop_last() == roots@.take(q as int));
            let (root, handle) = roots[q];
            match find_sheet_rules(sheets, handle) {
                Some(sheet) => {
                    let ghost rv = rules_view(sheet.rules@);
                    let ghost b2 = state@;
                    let rn = sheet.rules.len();
                    for i in 0..rn
                        invariant
                            rn == sheet.rules@.len(),
                            rv == rules_view(sheet.rules@),
                            state@ == prepare_rules(world@, registry@, b2, root, updated, handle, rv.take(i as int)),
                    {
                        assert(rv.take(i + 1).drop_last() == rv.take(i as int));
                        let selector = &sheet.rules[i].selector;
                        let entities = select_entities(root, updated, selector, world, registry);
                        state.add(handle, selector, &entities);
                    }
                    assert(rv.take(rn as int) == rv);
                },
                None => {},
            }
        }
        assert(roots@.take(m as int) == roots@);
    }
    assert(changed@.take(n as int) == changed@);
    state.build(sheets)
}


/// Each selector element only narrows down: what it picks, the filter lets through.
pub proof fn lemma_select_element_within(
    w: WorldView,
    reg: Seq<(Seq<char>, Seq<u64>)>,
    e: ElementView,
    f: Seq<u64>,
    x: u64,
)
    ensures
        select_element(w, reg, e, Some(f)).contains(x) ==> f.contains(x),
{
    match e {
        ElementView::Name(n) => lemma_matching_within(w.names, n, f, x),
        ElementView::Class(c) => lemma_matching_within(w.classes, c, f, x),
        ElementView::PseudoClass(c) => lemma_pseudo_within(w.interactions, c, f, x),
        ElementView::Component(c) => match component_entities(reg, c) {
            Some(l) => lemma_filter_list_within(l, f, x),
            None => {},
        },
        ElementView::Child => {},
    }
}

proof fn lemma_matching_within(q: Seq<MatchView>, name: Seq<char>, f: Seq<u64>, x: u64)
    ensures
        matching(q, name, Some(f)).contains(x) ==> f.contains(x),
    decreases q.len(),
{
    if q.len() > 0 {
        lemma_matching_within(q.drop_last(), name, f, x);
        let prev = matching(q.drop_last(), name, Some(f));
        if matching(q, name, Some(f)).contains(x) && matching(q, name, Some(f)) != prev {
            let r = prev.push(q.last().entity);
            let i = choose|i: int| 0 <= i < r.len() && r[i] == x;
            if i < prev.len() {
                assert(prev[i] == x);
            }
        }
    }
}

proof fn lemma_pseudo_within(q: Seq<(u64, Interaction)>, name: Seq<char>, f: Seq<u64>, x: u64)
    ensures
        pseudo_matching(q, name, Some(f)).contains(x) ==> f.contains(x),
    decreases q.len(),
{
    if q.len() > 0 {
        lemma_pseudo_within(q.drop_last(), name, f, x);
        let prev = pseudo_matching(q.drop_last(), name, Some(f));
        if pseudo_matching(q, name, Some(f)).contains(x) && pseudo_matching(q, name, Some(f)) != prev {
            let r = prev.push(q.last().0);
            let i = choose|i: int| 0 <= i < r.len() && r[i] == x;
            if i < prev.len() {
                assert(prev[i] == x);
            }
        }
    }
}

proof fn lemma_filter_list_within(l: Seq<u64>, f: Seq<u64>, x: u64)
    ensures
        filter_list(l, Some(f)).contains(x) ==> f.contains(x),
    decreases l.len(),
{
    if l.len() > 0 {
        lemma_filter_list_within(l.drop_last(), f, x);
        let prev = filter_list(l.drop_last(), Some(f));
        if filter_list(l, Some(f)).contains(x) && filter_list(l, Some(f)) != prev {
            let r = prev.push(l.last());
            let i = choose|i: int| 0 <= i < r.len() && r[i] == x;
            if i < prev.len() {
                assert(prev[i] == x);
            }
        }
    }
}

/// A group of elements picks only entities that the filter lets through.
pub proof fn lemma_select_node_within(
    w: WorldView,
    reg: Seq<(Seq<char>, Seq<u64>)>,
    g: Seq<ElementView>,
    f: Seq<u64>,
    x: u64,
)
    ensures
        select_node(w, reg, g, Some(f)) matches Some(l) && (l.contains(x) ==> f.contains(x)),
    decreases g.len(),
{
    if g.len() > 0 {
        lemma_select_node_within(w, reg, g.drop_last(), f, x);
        let prev = select_node(w, reg, g.drop_last(), Some(f))->0;
        lemma_select_element_within(w, reg, g.last(), prev, x);
    }
}

/// A selector without child relations picks, when `updated` changed, only entities among
/// the UI ancestors of `updated` up to `root`, `updated` itself and the entities below it.
pub proof fn lemma_selection_within_filter(
    w: WorldView,
    reg: Seq<(Seq<char>, Seq<u64>)>,
    root: u64,
    updated: u64,
    elements: Seq<ElementView>,
    x: u64,
)
    requires
        parent_tree(elements).len() == 1,
        entity_filter(w.nodes, root, updated) is Some,
    ensures
        selection(w, reg, root, updated, elements).contains(x) ==> entity_filter(w.nodes, root, updated)->0.contains(x),
{
    let f = entity_filter(w.nodes, root, updated)->0;
    lemma_select_node_within(w, reg, parent_tree(elements)[0], f, x);
}

} // verus!
