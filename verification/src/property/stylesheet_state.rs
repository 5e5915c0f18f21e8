//! Which entities each rule selected, and the style each entity ends up with: for every
//! property, the style sheet and selector that define it.
use crate::keyed::{key_index, lemma_key_facts, lemma_key_first, lemma_set_value, set_value, value_or};
use crate::selector::{is_sorted_by_precedence, lemma_sort_by_precedence, precedes_or_ties, selector_views, sort_by_precedence, sort_selectors, Selector, SelectorView};
use crate::keyed::{has_key, keys_unique, lemma_push_new, lemma_push_other, lemma_set_value_unique};
use crate::small_vec::EntityList;
use crate::stylesheet::{find_sheet, find_sheet_rules, names_view, property_names, rules_view, sheets_view, SheetRules};
use vstd::prelude::*;

verus! {

/// Where a property's value comes from: a style sheet and one of its selectors.
pub struct StyleSource {
    pub styleheet: u64,
    pub selector: Selector,
}

impl View for StyleSource {
    type V = (u64, SelectorView);

    open spec fn view(&self) -> (u64, SelectorView) {
        (self.styleheet, self.selector@)
    }
}

pub type StyleView = Seq<(Seq<char>, (u64, SelectorView))>;

pub type StateView = Seq<(u64, StyleView)>;

pub type SelectedView = Seq<(u64, (SelectorView, Seq<u64>))>;

pub type BuilderView = Seq<(u64, SelectedView)>;

pub type RulesView = Seq<(u64, (SelectorView, Seq<Seq<char>>))>;

/// The source of each property of one entity, by property name.
pub struct ComputedStyle {
    entries: Vec<(String, StyleSource)>,
}

impl Default for ComputedStyle {
    fn default() -> (r: Self)
        ensures
            r@ == Seq::<(Seq<char>, (u64, SelectorView))>::empty(),
    {
        ComputedStyle::new()
    }
}

impl View for ComputedStyle {
    type V = StyleView;

    closed spec fn view(&self) -> StyleView {
        self.entries@.map_values(|p: (String, StyleSource)| (p.0@, p.1@))
    }
}

impl ComputedStyle {
    /// A style with no properties.
    pub fn new() -> (r: ComputedStyle)
        ensures
            r@ == Seq::<(Seq<char>, (u64, SelectorView))>::empty(),
    {
        ComputedStyle { entries: Vec::new() }
    }

    /// The number of properties.
    pub fn len(&self) -> (r: usize)
        ensures
            r == self@.len(),
    {
        self.entries.len()
    }

    fn position(&self, prop: &String) -> (r: Option<usize>)
        ensures
            match r {
                Some(i) => key_index(self@, prop@) == Some(i as int),
                None => key_index(self@, prop@) is None,
            },
    {
        let ghost v = self@;
        let n = self.entries.len();
        for i in 0..n
            invariant
                n == self.entries@.len(),
                v == self@,
                forall|j: int| 0 <= j < i ==> v[j].0 != prop@,
        {
            assert(v[i as int].0 == self.entries@[i as int].0@);
            if self.entries[i].0 == *prop {
                proof { lemma_key_first(v, prop@, i as int); }
                return Some(i);
            }
        }
        proof { lemma_key_facts(v, prop@); }
        None
    }

    /// The source of property `prop`, if it has one.
    pub fn get(&self, prop: &String) -> (r: Option<&StyleSource>)
        ensures
            match r {
                Some(s) => key_index(self@, prop@) matches Some(i) && self@[i].1 == s@,
                None => key_index(self@, prop@) is None,
            },
    {
        match self.position(prop) {
            Some(i) => Some(&self.entries[i].1),
            None => None,
        }
    }

    /// Sets the source of property `prop`, replacing any earlier one.
    pub fn insert(&mut self, prop: String, source: StyleSource)
        ensures
            final(self)@ == set_value(old(self)@, prop@, source@),
    {
        let ghost v = self@;
        let ghost pv = prop@;
        let ghost srcv = source@;
        match self.position(&prop) {
            Some(i) => {
                self.entries.set(i, (prop, source));
                assert(self@ =~= v.update(i as int, (pv, srcv)));
            },
            None => {
                self.entries.push((prop, source));
                assert(self@ =~= v.push((pv, srcv)));
            },
        }
    }
}

/// The computed style of each entity whose style changed.
pub struct StyleSheetState {
    entries: Vec<(u64, ComputedStyle)>,
}

impl Default for StyleSheetState {
    fn default() -> (r: Self)
        ensures
            r@ == Seq::<(u64, StyleView)>::empty(),
    {
        StyleSheetState::new()
    }
}

impl View for StyleSheetState {
    type V = StateView;

    closed spec fn view(&self) -> StateView {
        self.entries@.map_values(|p: (u64, ComputedStyle)| (p.0, p.1@))
    }
}

impl StyleSheetState {
    /// A state with no entities.
    pub fn new() -> (r: StyleSheetState)
        ensures
            r@ == Seq::<(u64, StyleView)>::empty(),
    {
        StyleSheetState { entries: Vec::new() }
    }

    /// The number of entities.
    pub fn len(&self) -> (r: usize)
        ensures
            r == self@.len(),
    {
        self.entries.len()
    }

    /// Whether no entity has a style.
    pub fn is_empty(&self) -> (r: bool)
        ensures
            r == (self@.len() == 0),
    {
        self.entries.len() == 0
    }

    /// Forgets every entity's style.
    pub fn clear(&mut self)
        ensures
            final(self)@ == Seq::<(u64, StyleView)>::empty(),
    {
        self.entries.clear();
        assert(self@ =~= Seq::<(u64, StyleView)>::empty());
    }

    /// Puts the new state in place of this one if it holds any entity; an empty new
    /// state leaves this one as it is.
    pub fn replace_if_any(&mut self, new_state: StyleSheetState)
        ensures
            new_state@.len() > 0 ==> final(self)@ == new_state@,
            new_state@.len() == 0 ==> final(self)@ == old(self)@,
    {
        if !new_state.is_empty() {
            *self = new_state;
        }
    }

    /// Clears the temporary state once it has been applied; an empty state stays as it is.
    pub fn clear_state(&mut self)
        ensures
            final(self)@ == Seq::<(u64, StyleView)>::empty(),
    {
        if self.len() > 0 {
            self.clear();
        }
    }

    /// The entity and its style at position `i`.
    pub fn entry(&self, i: usize) -> (r: (u64, &ComputedStyle))
        requires
            i < self@.len(),
        ensures
            (r.0, r.1@) == self@[i as int],
    {
        (self.entries[i].0, &self.entries[i].1)
    }

    fn position(&self, e: u64) -> (r: Option<usize>)
        ensures
            match r {
                Some(i) => key_index(self@, e) == Some(i as int),
                None => key_index(self@, e) is None,
            },
    {
        let ghost v = self@;
        let n = self.entries.len();
        for i in 0..n
            invariant
                n == self.entries@.len(),
                v == self@,
                forall|j: int| 0 <= j < i ==> v[j].0 != e,
        {
            if self.entries[i].0 == e {
                proof { lemma_key_first(v, e, i as int); }
                return Some(i);
            }
        }
        proof { lemma_key_facts(v, e); }
        None
    }

    /// The computed style of entity `e`, if it has one.
    pub fn get(&self, e: u64) -> (r: Option<&ComputedStyle>)
        ensures
            match r {
                Some(s) => key_index(self@, e) matches Some(i) && self@[i].1 == s@,
                None => key_index(self@, e) is None,
            },
    {
        match self.position(e) {
            Some(i) => Some(&self.entries[i].1),
            None => None,
        }
    }
}

/// The entities each selector selected, by selector.
pub struct SelectedEntities {
    entries: Vec<(Selector, EntityList)>,
}

impl Default for SelectedEntities {
    fn default() -> (r: Self)
        ensures
            r@ == Seq::<(u64, (SelectorView, Seq<u64>))>::empty(),
    {
        SelectedEntities::new()
    }
}

impl View for SelectedEntities {
    type V = SelectedView;

    closed spec fn view(&self) -> SelectedView {
        self.entries@.map_values(|p: (Selector, EntityList)| (p.0@.hash, (p.0@, p.1@)))
    }
}

/// The entities of `es` that `existing` does not hold yet, in order.
pub open spec fn fresh(es: Seq<u64>, existing: Seq<u64>) -> Seq<u64>
    decreases es.len(),
{
    if es.len() == 0 {
        Seq::empty()
    } else {
        let p = fresh(es.drop_last(), existing);
        if existing.contains(es.last()) {
            p
        } else {
            p.push(es.last())
        }
    }
}

/// An entity is fresh when the batch holds it and it is not recorded yet.
pub proof fn lemma_fresh(es: Seq<u64>, existing: Seq<u64>, x: u64)
    ensures
        fresh(es, existing).contains(x) == (es.contains(x) && !existing.contains(x)),
    decreases es.len(),
{
    if es.len() > 0 {
        lemma_fresh(es.drop_last(), existing, x);
        let p = fresh(es.drop_last(), existing);
        if es.contains(x) {
            let i = choose|i: int| 0 <= i < es.len() && es[i] == x;
            if i < es.len() - 1 {
                assert(es.drop_last()[i] == x);
            }
        }
        if es.drop_last().contains(x) {
            let i = choose|i: int| 0 <= i < es.drop_last().len() && es.drop_last()[i] == x;
            assert(es[i] == x);
        }
        if !existing.contains(es.last()) {
            let q = p.push(es.last());
            if q.contains(x) {
                let i = choose|i: int| 0 <= i < q.len() && q[i] == x;
                if i < p.len() {
                    assert(p[i] == x);
                } else {
                    assert(es[es.len() - 1] == x);
                }
            }
            if p.contains(x) {
                let i = choose|i: int| 0 <= i < p.len() && p[i] == x;
                assert(q[i] == x);
            }
            if x == es.last() {
                assert(q[p.len() as int] == x);
            }
        } else {
            if x == es.last() {
                assert(existing.contains(x));
            }
        }
    }
}

/// Adds what `sel` selected: the entities not yet recorded for it go at the end of its list.
pub open spec fn selected_add(s: SelectedView, sel: SelectorView, es: Seq<u64>) -> SelectedView {
    let cur = value_or(s, sel.hash, (sel, Seq::<u64>::empty()));
    set_value(s, sel.hash, (cur.0, cur.1 + fresh(es, cur.1)))
}

/// Adds what `sel` of the style sheet `h` selected.
pub open spec fn builder_add(b: BuilderView, h: u64, sel: SelectorView, es: Seq<u64>) -> BuilderView {
    set_value(b, h, selected_add(value_or(b, h, Seq::empty()), sel, es))
}

/// The entities recorded for the selector with hash `sh` of the style sheet `h`, none if
/// nothing is recorded for it.
pub open spec fn recorded(b: BuilderView, h: u64, sh: u64) -> Seq<u64> {
    match key_index(b, h) {
        Some(i) => match key_index(b[i].1, sh) {
            Some(j) => b[i].1[j].1.1,
            None => Seq::empty(),
        },
        None => Seq::empty(),
    }
}

proof fn lemma_recorded_value_or(b: BuilderView, h: u64, sh: u64, d: SelectorView)
    ensures
        recorded(b, h, sh) == value_or(value_or(b, h, Seq::empty()), sh, (d, Seq::<u64>::empty())).1,
{
    lemma_key_facts(b, h);
    match key_index(b, h) {
        Some(i) => lemma_key_facts(b[i].1, sh),
        None => {
            lemma_key_facts(Seq::<(u64, (SelectorView, Seq<u64>))>::empty(), sh);
        },
    }
}

/// Recording what `sel` of the style sheet `h` selected adds, after the entities already
/// recorded for it, those of `es` that were not recorded yet: afterwards it holds exactly
/// the entities it held or `es` holds. Every other selector, of this style sheet or
/// another, keeps what it had.
pub proof fn lemma_builder_add_records(b: BuilderView, h: u64, sel: SelectorView, es: Seq<u64>)
    ensures
        recorded(builder_add(b, h, sel, es), h, sel.hash) == recorded(b, h, sel.hash) + fresh(
            es,
            recorded(b, h, sel.hash),
        ),
        forall|x: u64|
            #[trigger] recorded(builder_add(b, h, sel, es), h, sel.hash).contains(x) <==> (recorded(
                b,
                h,
                sel.hash,
            ).contains(x) || es.contains(x)),
        forall|h2: u64, sh2: u64|
            (h2 != h || sh2 != sel.hash) ==> #[trigger] recorded(builder_add(b, h, sel, es), h2, sh2)
                == recorded(b, h2, sh2),
{
    let inner = value_or(b, h, Seq::empty());
    let cur = value_or(inner, sel.hash, (sel, Seq::<u64>::empty()));
    let v = (cur.0, cur.1 + fresh(es, cur.1));
    let inner2 = selected_add(inner, sel, es);
    let b2 = builder_add(b, h, sel, es);
    lemma_set_value(b, h, inner2);
    lemma_set_value(inner, sel.hash, v);
    lemma_recorded_value_or(b, h, sel.hash, sel);
    lemma_recorded_value_or(b2, h, sel.hash, sel);
    assert(value_or(b2, h, Seq::empty()) == inner2);
    assert(value_or(inner2, sel.hash, (sel, Seq::<u64>::empty())) == v);
    let r0 = recorded(b, h, sel.hash);
    assert forall|x: u64| #[trigger] recorded(b2, h, sel.hash).contains(x) <==> (r0.contains(x) || es.contains(x)) by {
        lemma_fresh(es, r0, x);
        let r = r0 + fresh(es, r0);
        if r.contains(x) {
            let i = choose|i: int| 0 <= i < r.len() && r[i] == x;
            if i < r0.len() {
                assert(r0[i] == x);
            } else {
                assert(fresh(es, r0)[i - r0.len()] == x);
            }
        }
        if r0.contains(x) {
            let i = choose|i: int| 0 <= i < r0.len() && r0[i] == x;
            assert(r[i] == x);
        } else if es.contains(x) {
            let i = choose|i: int| 0 <= i < fresh(es, r0).len() && fresh(es, r0)[i] == x;
            assert(r[r0.len() + i] == x);
        }
    }
    assert forall|h2: u64, sh2: u64| (h2 != h || sh2 != sel.hash) implies #[trigger] recorded(b2, h2, sh2)
        == recorded(b, h2, sh2) by {
        lemma_recorded_value_or(b, h2, sh2, sel);
        lemma_recorded_value_or(b2, h2, sh2, sel);
        if h2 == h {
            assert(value_or(inner2, sh2, (sel, Seq::<u64>::empty())) == value_or(inner, sh2, (sel, Seq::<u64>::empty())));
        }
    }
}

impl SelectedEntities {
    /// Nothing selected yet.
    pub fn new() -> (r: SelectedEntities)
        ensures
            r@ == Seq::<(u64, (SelectorView, Seq<u64>))>::empty(),
    {
        SelectedEntities { entries: Vec::new() }
    }

    /// The number of selectors.
    pub fn len(&self) -> (r: usize)
        ensures
            r == self@.len(),
    {
        self.entries.len()
    }

    /// The selector and its entities at position `i`.
    pub fn entry(&self, i: usize) -> (r: (&Selector, &EntityList))
        requires
            i < self@.len(),
        ensures
            (r.0@.hash, (r.0@, r.1@)) == self@[i as int],
    {
        (&self.entries[i].0, &self.entries[i].1)
    }

    fn position(&self, sel: &Selector) -> (r: Option<usize>)
        ensures
            match r {
                Some(i) => key_index(self@, sel@.hash) == Some(i as int),
                None => key_index(self@, sel@.hash) is None,
            },
    {
        let ghost v = self@;
        let n = self.entries.len();
        for i in 0..n
            invariant
                n == self.entries@.len(),
                v == self@,
                forall|j: int| 0 <= j < i ==> v[j].0 != sel@.hash,
        {
            if self.entries[i].0.same_as(sel) {
                proof { lemma_key_first(v, sel@.hash, i as int); }
                return Some(i);
            }
        }
        proof { lemma_key_facts(v, sel@.hash); }
        None
    }

    /// Records what `selector` selected (see [`selected_add`]).
    pub fn add(&mut self, selector: &Selector, entities: &EntityList)
        ensures
            final(self)@ == selected_add(old(self)@, selector@, entities@),
    {
        let ghost v = self@;
        match self.position(selector) {
            Some(i) => {
                let (stored, list) = self.entries.remove(i);
                let merged = append_fresh(&list, entities);
                let ghost sv = stored@;
                self.entries.insert(i, (stored, merged));
                assert(self@ =~= v.update(i as int, (sv.hash, (sv, list@ + fresh(entities@, list@)))));
                assert(v[i as int] == (sv.hash, (sv, list@)));
            },
            None => {
                let empty = EntityList::new();
                let merged = append_fresh(&empty, entities);
                self.entries.push((selector.duplicate(), merged));
                assert(self@ =~= v.push((selector@.hash, (selector@, Seq::<u64>::empty() + fresh(entities@, Seq::<u64>::empty())))));
            },
        }
    }
}

/// The entities of `existing`, followed by those of `es` that `existing` does not hold.
fn append_fresh(existing: &EntityList, es: &EntityList) -> (r: EntityList)
    ensures
        r@ == existing@ + fresh(es@, existing@),
{
    let s = es.as_slice();
    let mut out = existing.to_vec();
    let n = s.len();
    for i in 0..n
        invariant
            n == s@.len(),
            s@ == es@,
            out@ == existing@ + fresh(s@.take(i as int), existing@),
    {
        assert(s@.take(i + 1).drop_last() == s@.take(i as int));
        if !existing.contains(s[i]) {
            out.push(s[i]);
        }
        assert(out@ =~= existing@ + fresh(s@.take(i + 1), existing@));
    }
    assert(s@.take(n as int) == s@);
    EntityList::from_slice(out.as_slice())
}

/// For each style sheet, what its selectors selected.
pub struct StyleSheetStateBuilder {
    entries: Vec<(u64, SelectedEntities)>,
}

impl Default for StyleSheetStateBuilder {
    fn default() -> (r: Self)
        ensures
            r@ == Seq::<(u64, SelectedView)>::empty(),
    {
        StyleSheetStateBuilder::new()
    }
}

impl View for StyleSheetStateBuilder {
    type V = BuilderView;

    closed spec fn view(&self) -> BuilderView {
        self.entries@.map_values(|p: (u64, SelectedEntities)| (p.0, p.1@))
    }
}

/// Each entity of `es` gets `sel` at the end of its list of selectors.
pub open spec fn invert_list(inv: Seq<(u64, Seq<SelectorView>)>, sel: SelectorView, es: Seq<u64>) -> Seq<
    (u64, Seq<SelectorView>),
>
    decreases es.len(),
{
    if es.len() == 0 {
        inv
    } else {
        let p = invert_list(inv, sel, es.drop_last());
        set_value(p, es.last(), value_or(p, es.last(), Seq::empty()).push(sel))
    }
}

/// The selectors that selected each entity, from the entities each selector selected.
pub open spec fn invert(s: SelectedView) -> Seq<(u64, Seq<SelectorView>)>
    decreases s.len(),
{
    if s.len() == 0 {
        Seq::empty()
    } else {
        invert_list(invert(s.drop_last()), s.last().1.0, s.last().1.1)
    }
}

/// Each named property now comes from `sel` of the style sheet `h`.
pub open spec fn apply_names(style: StyleView, h: u64, sel: SelectorView, names: Seq<Seq<char>>) -> StyleView
    decreases names.len(),
{
    if names.len() == 0 {
        style
    } else {
        set_value(apply_names(style, h, sel, names.drop_last()), names.last(), (h, sel))
    }
}

/// Applies the selectors one after another: a later selector overrides the properties an
/// earlier one set.
pub open spec fn apply_selectors(style: StyleView, h: u64, rules: RulesView, sels: Seq<SelectorView>) -> StyleView
    decreases sels.len(),
{
    if sels.len() == 0 {
        style
    } else {
        apply_names(
            apply_selectors(style, h, rules, sels.drop_last()),
            h,
            sels.last(),
            property_names(rules, sels.last()),
        )
    }
}

/// Applies, to each entity, the selectors of sheet `h` that selected it, in order of precedence.
pub open spec fn apply_entities(state: StateView, h: u64, rules: RulesView, inv: Seq<(u64, Seq<SelectorView>)>) -> StateView
    decreases inv.len(),
{
    if inv.len() == 0 {
        state
    } else {
        let p = apply_entities(state, h, rules, inv.drop_last());
        let e = inv.last().0;
        set_value(p, e, apply_selectors(value_or(p, e, Seq::empty()), h, rules, sort_by_precedence(inv.last().1)))
    }
}

/// The computed styles: the style sheets are applied in the builder's order, each to the
/// entities its selectors selected; a sheet without rules is skipped.
pub open spec fn build_state(b: BuilderView, sheets: Seq<(u64, RulesView)>) -> StateView
    decreases b.len(),
{
    if b.len() == 0 {
        Seq::empty()
    } else {
        let p = build_state(b.drop_last(), sheets);
        match find_sheet(sheets, b.last().0) {
            Some(rules) => apply_entities(p, b.last().0, rules, invert(b.last().1)),
            None => p,
        }
    }
}

pub open spec fn inverted_view(v: Seq<(u64, Vec<Selector>)>) -> Seq<(u64, Seq<SelectorView>)> {
    v.map_values(|p: (u64, Vec<Selector>)| (p.0, selector_views(p.1@)))
}

fn inverted_position(inv: &Vec<(u64, Vec<Selector>)>, e: u64) -> (r: Option<usize>)
    ensures
        match r {
            Some(i) => key_index(inverted_view(inv@), e) == Some(i as int),
            None => key_index(inverted_view(inv@), e) is None,
        },
{
    let ghost v = inverted_view(inv@);
    let n = inv.len();
    for i in 0..n
        invariant
            n == inv@.len(),
            v == inverted_view(inv@),
            forall|j: int| 0 <= j < i ==> v[j].0 != e,
    {
        if inv[i].0 == e {
            proof { lemma_key_first(v, e, i as int); }
            return Some(i);
        }
    }
    proof { lemma_key_facts(v, e); }
    None
}

/// Inverts the list of entities of each selector into a list of selectors for each entity.
fn invert_selected(selected: &SelectedEntities) -> (r: Vec<(u64, Vec<Selector>)>)
    ensures
        inverted_view(r@) == invert(selected@),
{
    let ghost sv = selected@;
    let mut inv: Vec<(u64, Vec<Selector>)> = Vec::new();
    let n = selected.len();
    assert(inverted_view(inv@) =~= invert(sv.take(0)));
    for k in 0..n
        invariant
            n == sv.len(),
            sv == selected@,
            inverted_view(inv@) == invert(sv.take(k as int)),
    {
        let (sel, list) = selected.entry(k);
        assert(sv.take(k + 1).drop_last() == sv.take(k as int));
        let ghost start = inverted_view(inv@);
        let s = list.as_slice();
        let m = s.len();
        for q in 0..m
            invariant
                m == s@.len(),
                s@ == list@,
                inverted_view(inv@) == invert_list(start, sel@, s@.take(q as int)),
        {
            assert(s@.take(q + 1).drop_last() == s@.take(q as int));
            let e = s[q];
            let ghost before = inverted_view(inv@);
            match inverted_position(&inv, e) {
                Some(i) => {
                    let (key, mut sels) = inv.remove(i);
                    let ghost old_sels = sels@;
                    sels.push(sel.duplicate());
                    assert(selector_views(sels@) =~= selector_views(old_sels).push(sel@));
                    inv.insert(i, (key, sels));
                    assert(inverted_view(inv@) =~= before.update(i as int, (e, before[i as int].1.push(sel@))));
                },
                None => {
                    let mut sels: Vec<Selector> = Vec::new();
                    sels.push(sel.duplicate());
                    assert(selector_views(sels@) =~= Seq::<SelectorView>::empty().push(sel@));
                    inv.push((e, sels));
                    assert(inverted_view(inv@) =~= before.push((e, Seq::<SelectorView>::empty().push(sel@))));
                },
            }
        }
        assert(s@.take(m as int) == s@);
    }
    assert(sv.take(n as int) == sv);
    inv
}

fn apply_sorted(style: &mut ComputedStyle, h: u64, sheet: &SheetRules, sorted: &Vec<Selector>)
    ensures
        final(style)@ == apply_selectors(old(style)@, h, rules_view(sheet.rules@), selector_views(sorted@)),
{
    let ghost start = style@;
    let ghost rv = rules_view(sheet.rules@);
    let ghost ss = selector_views(sorted@);
    let n = sorted.len();
    for i in 0..n
        invariant
            n == sorted@.len(),
            ss == selector_views(sorted@),
            rv == rules_view(sheet.rules@),
            style@ == apply_selectors(start, h, rv, ss.take(i as int)),
    {
        assert(ss.take(i + 1).drop_last() == ss.take(i as int));
        let sel = &sorted[i];
        let ghost mid = style@;
        match sheet.get_property_names(sel) {
            Some(names) => {
                let ghost nv = names_view(names@);
                let m = names.len();
                for q in 0..m
                    invariant
                        m == names@.len(),
                        nv == names_view(names@),
                        style@ == apply_names(mid, h, sel@, nv.take(q as int)),
                {
                    assert(nv.take(q + 1).drop_last() == nv.take(q as int));
                    let source = StyleSource { styleheet: h, selector: sel.duplicate() };
                    style.insert(names[q].clone(), source);
                }
                assert(nv.take(m as int) == nv);
            },
            None => {},
        }
    }
    assert(ss.take(n as int) == ss);
}

impl StyleSheetStateBuilder {
    /// Nothing selected yet.
    pub fn new() -> (r: StyleSheetStateBuilder)
        ensures
            r@ == Seq::<(u64, SelectedView)>::empty(),
    {
        StyleSheetStateBuilder { entries: Vec::new() }
    }

    /// The number of style sheets.
    pub fn len(&self) -> (r: usize)
        ensures
            r == self@.len(),
    {
        self.entries.len()
    }

    fn position(&self, h: u64) -> (r: Option<usize>)
        ensures
            match r {
                Some(i) => key_index(self@, h) == Some(i as int),
                None => key_index(self@, h) is None,
            },
    {
        let ghost v = self@;
        let n = self.entries.len();
        for i in 0..n
            invariant
                n == self.entries@.len(),
                v == self@,
                forall|j: int| 0 <= j < i ==> v[j].0 != h,
        {
            if self.entries[i].0 == h {
                proof { lemma_key_first(v, h, i as int); }
                return Some(i);
            }
        }
        proof { lemma_key_facts(v, h); }
        None
    }

    /// Records what `selector` of the style sheet `handle` selected (see [`builder_add`]).
    pub fn add(&mut self, handle: u64, selector: &Selector, entities: &EntityList)
        ensures
            final(self)@ == builder_add(old(self)@, handle, selector@, entities@),
    {
        let ghost v = self@;
        match self.position(handle) {
            Some(i) => {
                let (key, mut selected) = self.entries.remove(i);
                let ghost sv = selected@;
                selected.add(selector, entities);
                let ghost nv = selected@;
                self.entries.insert(i, (key, selected));
                assert(self@ =~= v.update(i as int, (handle, nv)));
            },
            None => {
                let mut selected = SelectedEntities::new();
                selected.add(selector, entities);
                let ghost nv = selected@;
                self.entries.push((handle, selected));
                assert(self@ =~= v.push((handle, nv)));
            },
        }
    }

    /// Computes the style of each selected entity (see [`build_state`]).
    pub fn build(&self, sheets: &Vec<SheetRules>) -> (r: StyleSheetState)
        ensures
            r@ == build_state(self@, sheets_view(sheets@)),
    {
        let ghost bv = self@;
        let mut result = StyleSheetState::new();
        let n = self.entries.len();
        for k in 0..n
            invariant
                n == bv.len(),
                bv == self@,
                result@ == build_state(bv.take(k as int), sheets_view(sheets@)),
        {
            assert(bv.take(k + 1).drop_last() == bv.take(k as int));
            let handle = self.entries[k].0;
            let selected = &self.entries[k].1;
            assert(bv[k as int] == (handle, selected@));
            match find_sheet_rules(sheets, handle) {
                Some(sheet) => {
                    let inverted = invert_selected(selected);
                    let ghost iv = inverted_view(inverted@);
                    let ghost rv = rules_view(sheet.rules@);
                    let ghost start = result@;
                    let m = inverted.len();
                    for q in 0..m
                        invariant
                            m == inverted@.len(),
                            iv == inverted_view(inverted@),
                            rv == rules_view(sheet.rules@),
                            result@ == apply_entities(start, handle, rv, iv.take(q as int)),
                    {
                        assert(iv.take(q + 1).drop_last() == iv.take(q as int));
                        let entity = inverted[q].0;
                        let sorted = sort_selectors(&inverted[q].1);
                        let ghost before = result@;
                        match result.position(entity) {
                            Some(i) => {
                                let (key, mut style) = result.entries.remove(i);
                                apply_sorted(&mut style, handle, sheet, &sorted);
                                let ghost stv = style@;
                                result.entries.insert(i, (key, style));
                                assert(result@ =~= before.update(i as int, (entity, stv)));
                            },
                            None => {
                                let mut style = ComputedStyle::new();
                                apply_sorted(&mut style, handle, sheet, &sorted);
                                let ghost stv = style@;
                                result.entries.push((entity, style));
                                assert(result@ =~= before.push((entity, stv)));
                            },
                        }
                    }
                    assert(iv.take(m as int) == iv);
                },
                None => {},
            }
        }
        assert(bv.take(n as int) == bv);
        result
    }
}


/// Whether the rules declare property `p` for selector `sel`.
pub open spec fn declares(rules: RulesView, sel: SelectorView, p: Seq<char>) -> bool {
    property_names(rules, sel).contains(p)
}

proof fn lemma_apply_names(style: StyleView, h: u64, sel: SelectorView, names: Seq<Seq<char>>, p: Seq<char>)
    ensures
        names.contains(p) ==> has_key(apply_names(style, h, sel, names), p) && forall|d: (u64, SelectorView)|
            #[trigger] value_or(apply_names(style, h, sel, names), p, d) == (h, sel),
        !names.contains(p) ==> has_key(apply_names(style, h, sel, names), p) == has_key(style, p) && forall|d: (u64, SelectorView)|
            #[trigger] value_or(apply_names(style, h, sel, names), p, d) == value_or(style, p, d),
    decreases names.len(),
{
    if names.len() > 0 {
        let prev = apply_names(style, h, sel, names.drop_last());
        lemma_apply_names(style, h, sel, names.drop_last(), p);
        lemma_set_value(prev, names.last(), (h, sel));
        if names.last() != p {
            assert(names.contains(p) ==> names.drop_last().contains(p)) by {
                if names.contains(p) {
                    let i = choose|i: int| 0 <= i < names.len() && names[i] == p;
                    assert(names.drop_last()[i] == p);
                }
            }
            assert(names.drop_last().contains(p) ==> names.contains(p)) by {
                if names.drop_last().contains(p) {
                    let i = choose|i: int| 0 <= i < names.drop_last().len() && names.drop_last()[i] == p;
                    assert(names[i] == p);
                }
            }
        } else {
            assert(names[names.len() - 1] == p);
        }
    }
}

/// The last selector of `sels` that declares `p` and every later one does not.
pub open spec fn last_declaring(rules: RulesView, sels: Seq<SelectorView>, p: Seq<char>, j: int) -> bool {
    &&& 0 <= j < sels.len()
    &&& declares(rules, sels[j], p)
    &&& forall|k: int| j < k < sels.len() ==> !declares(rules, #[trigger] sels[k], p)
}

/// Applying selectors one after another: a property comes from the last selector that
/// declares it, and a property that none declares keeps its source.
pub proof fn lemma_apply_selectors(style: StyleView, h: u64, rules: RulesView, sels: Seq<SelectorView>, p: Seq<char>)
    ensures
        (exists|i: int| 0 <= i < sels.len() && declares(rules, #[trigger] sels[i], p)) ==> exists|j: int|
            last_declaring(rules, sels, p, j) && has_key(apply_selectors(style, h, rules, sels), p)
                && forall|d: (u64, SelectorView)| #[trigger] value_or(apply_selectors(style, h, rules, sels), p, d) == (h, sels[j]),
        (forall|i: int| 0 <= i < sels.len() ==> !declares(rules, #[trigger] sels[i], p)) ==> has_key(
            apply_selectors(style, h, rules, sels),
            p,
        ) == has_key(style, p) && forall|d: (u64, SelectorView)|
            #[trigger] value_or(apply_selectors(style, h, rules, sels), p, d) == value_or(style, p, d),
    decreases sels.len(),
{
    if sels.len() > 0 {
        let prev_sels = sels.drop_last();
        let prev = apply_selectors(style, h, rules, prev_sels);
        lemma_apply_selectors(style, h, rules, prev_sels, p);
        let last = sels.last();
        lemma_apply_names(prev, h, last, property_names(rules, last), p);
        if declares(rules, last, p) {
            assert(last_declaring(rules, sels, p, sels.len() - 1));
        } else {
            assert forall|i: int| 0 <= i < prev_sels.len() implies #[trigger] prev_sels[i] == sels[i] by {}
            if exists|i: int| 0 <= i < sels.len() && declares(rules, #[trigger] sels[i], p) {
                let i = choose|i: int| 0 <= i < sels.len() && declares(rules, #[trigger] sels[i], p);
                assert(i < sels.len() - 1);
                assert(declares(rules, prev_sels[i], p));
                let j = choose|j: int| last_declaring(rules, prev_sels, p, j) && has_key(prev, p)
                    && forall|d: (u64, SelectorView)| #[trigger] value_or(prev, p, d) == (h, prev_sels[j]);
                assert forall|k: int| j < k < sels.len() implies !declares(rules, #[trigger] sels[k], p) by {
                    if k < sels.len() - 1 {
                        assert(prev_sels[k] == sels[k]);
                    }
                }
                assert(prev_sels[j] == sels[j]);
                assert(last_declaring(rules, sels, p, j));
            } else {
                assert forall|i: int| 0 <= i < prev_sels.len() implies !declares(rules, #[trigger] prev_sels[i], p) by {
                    assert(prev_sels[i] == sels[i]);
                }
            }
        }
    }
}

/// The cascade: when some selector that selected an entity declares property `p`, the
/// entity's `p` comes from one of them that takes precedence over, or ties with, every
/// other; when none declares it, `p` keeps the source it had.
pub proof fn lemma_cascade_highest_precedence(
    style: StyleView,
    h: u64,
    rules: RulesView,
    sels: Seq<SelectorView>,
    p: Seq<char>,
)
    ensures
        (exists|s: SelectorView| sels.contains(s) && #[trigger] declares(rules, s, p)) ==> exists|w: SelectorView|
            sels.contains(w) && declares(rules, w, p) && has_key(apply_selectors(style, h, rules, sort_by_precedence(sels)), p)
                && (forall|d: (u64, SelectorView)| #[trigger] value_or(apply_selectors(style, h, rules, sort_by_precedence(sels)), p, d) == (h, w))
                && forall|s: SelectorView| sels.contains(s) && #[trigger] declares(rules, s, p) ==> precedes_or_ties(s, w),
        (forall|s: SelectorView| sels.contains(s) ==> !#[trigger] declares(rules, s, p)) ==> has_key(
            apply_selectors(style, h, rules, sort_by_precedence(sels)),
            p,
        ) == has_key(style, p) && forall|d: (u64, SelectorView)|
            #[trigger] value_or(apply_selectors(style, h, rules, sort_by_precedence(sels)), p, d) == value_or(style, p, d),
{
    let sorted = sort_by_precedence(sels);
    lemma_sort_by_precedence(sels);
    lemma_apply_selectors(style, h, rules, sorted, p);
    assert forall|s: SelectorView| #[trigger] sorted.contains(s) == sels.contains(s) by {
        assert(sorted.to_multiset().count(s) == sels.to_multiset().count(s));
        vstd::seq_lib::to_multiset_contains(sorted, s);
        vstd::seq_lib::to_multiset_contains(sels, s);
    }
    if exists|s: SelectorView| sels.contains(s) && #[trigger] declares(rules, s, p) {
        let s0 = choose|s: SelectorView| sels.contains(s) && #[trigger] declares(rules, s, p);
        assert(sorted.contains(s0));
        let i0 = choose|i: int| 0 <= i < sorted.len() && sorted[i] == s0;
        assert(declares(rules, sorted[i0], p));
        let j = choose|j: int| last_declaring(rules, sorted, p, j) && has_key(apply_selectors(style, h, rules, sorted), p)
            && forall|d: (u64, SelectorView)| #[trigger] value_or(apply_selectors(style, h, rules, sorted), p, d) == (h, sorted[j]);
        let w = sorted[j];
        assert(sorted.contains(w));
        assert forall|s: SelectorView| sels.contains(s) && #[trigger] declares(rules, s, p) implies precedes_or_ties(s, w) by {
            assert(sorted.contains(s));
            let k = choose|k: int| 0 <= k < sorted.len() && sorted[k] == s;
            if k > j {
                assert(!declares(rules, sorted[k], p));
            } else if k < j {
                assert(precedes_or_ties(sorted[k], sorted[j]));
            }
        }
    } else {
        assert forall|i: int| 0 <= i < sorted.len() implies !declares(rules, #[trigger] sorted[i], p) by {
            assert(sorted.contains(sorted[i]));
        }
    }
}


proof fn lemma_invert_list(inv: Seq<(u64, Seq<SelectorView>)>, sel: SelectorView, es: Seq<u64>, e: u64)
    requires
        keys_unique(inv),
    ensures
        keys_unique(invert_list(inv, sel, es)),
        has_key(invert_list(inv, sel, es), e) == (has_key(inv, e) || es.contains(e)),
        forall|x: SelectorView|
            #[trigger] value_or(invert_list(inv, sel, es), e, Seq::empty()).contains(x) == (value_or(
                inv,
                e,
                Seq::empty(),
            ).contains(x) || (x == sel && es.contains(e))),
    decreases es.len(),
{
    if es.len() > 0 {
        let p = invert_list(inv, sel, es.drop_last());
        lemma_invert_list(inv, sel, es.drop_last(), e);
        let last = es.last();
        let v = value_or(p, last, Seq::empty()).push(sel);
        lemma_set_value(p, last, v);
        lemma_set_value_unique(p, last, v);
        assert(es.contains(e) == (es.drop_last().contains(e) || last == e)) by {
            if es.contains(e) {
                let i = choose|i: int| 0 <= i < es.len() && es[i] == e;
                if i < es.len() - 1 {
                    assert(es.drop_last()[i] == e);
                }
            }
            if es.drop_last().contains(e) {
                let i = choose|i: int| 0 <= i < es.drop_last().len() && es.drop_last()[i] == e;
                assert(es[i] == e);
            }
            if last == e {
                assert(es[es.len() - 1] == e);
            }
        }
        if last == e {
            assert forall|x: SelectorView| #[trigger] v.contains(x) == (value_or(p, e, Seq::empty()).contains(x) || x == sel) by {
                let old_sels = value_or(p, e, Seq::empty());
                if v.contains(x) {
                    let i = choose|i: int| 0 <= i < v.len() && v[i] == x;
                    if i < old_sels.len() {
                        assert(old_sels[i] == x);
                    }
                }
                if old_sels.contains(x) {
                    let i = choose|i: int| 0 <= i < old_sels.len() && old_sels[i] == x;
                    assert(v[i] == x);
                }
                if x == sel {
                    assert(v[old_sels.len() as int] == x);
                }
            }
        }
    }
}

/// The selectors recorded for each entity are exactly those that selected it, and every
/// entity appears once.
pub proof fn lemma_invert(s: SelectedView, e: u64)
    ensures
        keys_unique(invert(s)),
        has_key(invert(s), e) == exists|i: int| 0 <= i < s.len() && #[trigger] s[i].1.1.contains(e),
        forall|x: SelectorView|
            #[trigger] value_or(invert(s), e, Seq::empty()).contains(x) == exists|i: int|
                0 <= i < s.len() && #[trigger] s[i].1.0 == x && s[i].1.1.contains(e),
    decreases s.len(),
{
    if s.len() == 0 {
        assert(keys_unique(Seq::<(u64, Seq<SelectorView>)>::empty()));
        lemma_key_facts(Seq::<(u64, Seq<SelectorView>)>::empty(), e);
    } else {
        let d = s.drop_last();
        lemma_invert(d, e);
        lemma_invert_list(invert(d), s.last().1.0, s.last().1.1, e);
        assert forall|i: int| 0 <= i < d.len() implies #[trigger] d[i] == s[i] by {}
        assert(has_key(invert(s), e) == exists|i: int| 0 <= i < s.len() && #[trigger] s[i].1.1.contains(e)) by {
            if exists|i: int| 0 <= i < s.len() && #[trigger] s[i].1.1.contains(e) {
                let i = choose|i: int| 0 <= i < s.len() && #[trigger] s[i].1.1.contains(e);
                if i < d.len() {
                    assert(d[i].1.1.contains(e));
                }
            }
            if exists|i: int| 0 <= i < d.len() && #[trigger] d[i].1.1.contains(e) {
                let i = choose|i: int| 0 <= i < d.len() && #[trigger] d[i].1.1.contains(e);
                assert(s[i].1.1.contains(e));
            }
        }
        assert forall|x: SelectorView|
            #[trigger] value_or(invert(s), e, Seq::empty()).contains(x) == exists|i: int|
                0 <= i < s.len() && #[trigger] s[i].1.0 == x && s[i].1.1.contains(e) by {
            if exists|i: int| 0 <= i < s.len() && #[trigger] s[i].1.0 == x && s[i].1.1.contains(e) {
                let i = choose|i: int| 0 <= i < s.len() && #[trigger] s[i].1.0 == x && s[i].1.1.contains(e);
                if i < d.len() {
                    assert(d[i].1.0 == x && d[i].1.1.contains(e));
                }
            }
            if exists|i: int| 0 <= i < d.len() && #[trigger] d[i].1.0 == x && d[i].1.1.contains(e) {
                let i = choose|i: int| 0 <= i < d.len() && #[trigger] d[i].1.0 == x && d[i].1.1.contains(e);
                assert(s[i].1.0 == x && s[i].1.1.contains(e));
            }
        }
    }
}

/// Applying the entities of `inv`, each key once: an entity of `inv` gets its selectors
/// applied to the style it had, in order of precedence; any other entity keeps its style.
proof fn lemma_apply_entities(state: StateView, h: u64, rules: RulesView, inv: Seq<(u64, Seq<SelectorView>)>, e: u64)
    requires
        keys_unique(inv),
    ensures
        has_key(inv, e) ==> has_key(apply_entities(state, h, rules, inv), e) && value_or(apply_entities(state, h, rules, inv), e, Seq::empty())
            == apply_selectors(value_or(state, e, Seq::empty()), h, rules, sort_by_precedence(value_or(inv, e, Seq::empty()))),
        !has_key(inv, e) ==> has_key(apply_entities(state, h, rules, inv), e) == has_key(state, e)
            && value_or(apply_entities(state, h, rules, inv), e, Seq::empty()) == value_or(state, e, Seq::empty()),
    decreases inv.len(),
{
    if inv.len() > 0 {
        let d = inv.drop_last();
        let last = inv.last();
        assert(inv == d.push(last));
        assert(keys_unique(d)) by {
            assert forall|i: int, j: int| 0 <= i < j < d.len() implies #[trigger] d[i].0 != #[trigger] d[j].0 by {
                assert(d[i] == inv[i] && d[j] == inv[j]);
            }
        }
        lemma_apply_entities(state, h, rules, d, e);
        lemma_apply_entities(state, h, rules, d, last.0);
        let p = apply_entities(state, h, rules, d);
        let v = apply_selectors(value_or(p, last.0, Seq::empty()), h, rules, sort_by_precedence(last.1));
        lemma_set_value(p, last.0, v);
        lemma_key_facts(d, last.0);
        assert(!has_key(d, last.0)) by {
            if has_key(d, last.0) {
                let i = key_index(d, last.0)->0;
                assert(inv[i].0 == inv[inv.len() - 1].0);
            }
        }
        if last.0 == e {
            lemma_push_new(d, last);
        } else {
            lemma_push_other(d, last, e);
        }
    }
}

/// The cascade of one style sheet: for each entity that some selector of the sheet selected
/// and each property that one of those selectors declares, the entity's computed style takes
/// the property from one of them that takes precedence over, or ties with, every other.
pub proof fn lemma_build_single_sheet(selected: SelectedView, h: u64, sheets: Seq<(u64, RulesView)>, e: u64, p: Seq<char>)
    requires
        find_sheet(sheets, h) is Some,
    ensures
        ({
            let rules = find_sheet(sheets, h)->0;
            let state = build_state(seq![(h, selected)], sheets);
            (exists|i: int| 0 <= i < selected.len() && #[trigger] selected[i].1.1.contains(e) && declares(rules, selected[i].1.0, p))
                ==> exists|w: SelectorView|
                    (exists|i: int| 0 <= i < selected.len() && #[trigger] selected[i].1.0 == w && selected[i].1.1.contains(e))
                    && declares(rules, w, p)
                    && has_key(value_or(state, e, Seq::empty()), p)
                    && (forall|d: (u64, SelectorView)| #[trigger] value_or(value_or(state, e, Seq::empty()), p, d) == (h, w))
                    && forall|i: int| 0 <= i < selected.len() && #[trigger] selected[i].1.1.contains(e) && declares(rules, selected[i].1.0, p)
                        ==> precedes_or_ties(selected[i].1.0, w)
        }),
{
    let rules = find_sheet(sheets, h)->0;
    let b = seq![(h, selected)];
    assert(b.drop_last() =~= Seq::<(u64, SelectedView)>::empty());
    let empty_state = Seq::<(u64, StyleView)>::empty();
    assert(build_state(b.drop_last(), sheets) == empty_state);
    assert(b.last() == (h, selected));
    assert(build_state(b, sheets) == apply_entities(empty_state, h, rules, invert(selected)));
    let inv = invert(selected);
    lemma_invert(selected, e);
    if exists|i: int| 0 <= i < selected.len() && #[trigger] selected[i].1.1.contains(e) && declares(rules, selected[i].1.0, p) {
        let i0 = choose|i: int| 0 <= i < selected.len() && #[trigger] selected[i].1.1.contains(e) && declares(rules, selected[i].1.0, p);
        assert(has_key(inv, e));
        lemma_apply_entities(empty_state, h, rules, inv, e);
        lemma_key_facts(empty_state, e);
        let sels = value_or(inv, e, Seq::empty());
        let style = value_or(apply_entities(empty_state, h, rules, inv), e, Seq::empty());
        assert(style == apply_selectors(Seq::empty(), h, rules, sort_by_precedence(sels)));
        assert(sels.contains(selected[i0].1.0));
        lemma_cascade_highest_precedence(Seq::empty(), h, rules, sels, p);
        let w = choose|w: SelectorView|
            sels.contains(w) && declares(rules, w, p) && has_key(apply_selectors(Seq::empty(), h, rules, sort_by_precedence(sels)), p)
                && (forall|d: (u64, SelectorView)| #[trigger] value_or(apply_selectors(Seq::empty(), h, rules, sort_by_precedence(sels)), p, d) == (h, w))
                && forall|s: SelectorView| sels.contains(s) && #[trigger] declares(rules, s, p) ==> precedes_or_ties(s, w);
        assert(sels.contains(w));
        assert forall|i: int| 0 <= i < selected.len() && #[trigger] selected[i].1.1.contains(e) && declares(rules, selected[i].1.0, p)
            implies precedes_or_ties(selected[i].1.0, w) by {
            assert(sels.contains(selected[i].1.0));
        }
    }
}


/// Every entity appears once, and in each entity's style every property appears once.
pub open spec fn state_unique(s: StateView) -> bool {
    &&& keys_unique(s)
    &&& forall|i: int| 0 <= i < s.len() ==> keys_unique(#[trigger] s[i].1)
}

proof fn lemma_apply_names_unique(style: StyleView, h: u64, sel: SelectorView, names: Seq<Seq<char>>)
    requires
        keys_unique(style),
    ensures
        keys_unique(apply_names(style, h, sel, names)),
    decreases names.len(),
{
    if names.len() > 0 {
        lemma_apply_names_unique(style, h, sel, names.drop_last());
        lemma_set_value_unique(apply_names(style, h, sel, names.drop_last()), names.last(), (h, sel));
    }
}

proof fn lemma_apply_selectors_unique(style: StyleView, h: u64, rules: RulesView, sels: Seq<SelectorView>)
    requires
        keys_unique(style),
    ensures
        keys_unique(apply_selectors(style, h, rules, sels)),
    decreases sels.len(),
{
    if sels.len() > 0 {
        lemma_apply_selectors_unique(style, h, rules, sels.drop_last());
        lemma_apply_names_unique(
            apply_selectors(style, h, rules, sels.drop_last()),
            h,
            sels.last(),
            property_names(rules, sels.last()),
        );
    }
}

proof fn lemma_set_style_unique(s: StateView, e: u64, style: StyleView)
    requires
        state_unique(s),
        keys_unique(style),
    ensures
        state_unique(set_value(s, e, style)),
{
    lemma_set_value_unique(s, e, style);
    lemma_key_facts(s, e);
    let t = set_value(s, e, style);
    assert forall|i: int| 0 <= i < t.len() implies keys_unique(#[trigger] t[i].1) by {
        match key_index(s, e) {
            Some(q) => {
                if i != q {
                    assert(t[i] == s[i]);
                }
            },
            None => {
                if i < s.len() {
                    assert(t[i] == s[i]);
                }
            },
        }
    }
}

proof fn lemma_apply_entities_unique(state: StateView, h: u64, rules: RulesView, inv: Seq<(u64, Seq<SelectorView>)>)
    requires
        state_unique(state),
    ensures
        state_unique(apply_entities(state, h, rules, inv)),
    decreases inv.len(),
{
    if inv.len() > 0 {
        lemma_apply_entities_unique(state, h, rules, inv.drop_last());
        let p = apply_entities(state, h, rules, inv.drop_last());
        let e = inv.last().0;
        lemma_key_facts(p, e);
        let base = value_or(p, e, Seq::empty());
        assert(keys_unique(base)) by {
            if key_index(p, e) is None {
                assert(keys_unique(Seq::<(Seq<char>, (u64, SelectorView))>::empty()));
            }
        }
        lemma_apply_selectors_unique(base, h, rules, sort_by_precedence(inv.last().1));
        lemma_set_style_unique(p, e, apply_selectors(base, h, rules, sort_by_precedence(inv.last().1)));
    }
}

/// The computed state holds each entity once, and each entity's style holds each property
/// once: applying selectors overrides a property's source rather than adding another.
pub proof fn lemma_build_state_unique(b: BuilderView, sheets: Seq<(u64, RulesView)>)
    ensures
        state_unique(build_state(b, sheets)),
    decreases b.len(),
{
    if b.len() == 0 {
        assert(state_unique(Seq::<(u64, StyleView)>::empty()));
    } else {
        lemma_build_state_unique(b.drop_last(), sheets);
        match find_sheet(sheets, b.last().0) {
            Some(rules) => {
                lemma_apply_entities_unique(build_state(b.drop_last(), sheets), b.last().0, rules, invert(b.last().1));
            },
            None => {},
        }
    }
}

} // verus!
