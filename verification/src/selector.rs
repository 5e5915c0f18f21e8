//! Selectors parsed from style sheet rules, their elements, and the order in
//! which they take precedence.
use crate::small_vec::{element_list_items, ElementList};
use crate::hashing::{ElementHash, ElementHasher};
use core::cmp::Ordering;
use vstd::prelude::*;
use vstd::utf8::encode_utf8;

verus! {

/// Represents a selector element on a style sheet rule.
/// A single selector can have multiple elements, for instance a selector of `button.enabled`
/// generates two elements, one for `button` and another for `.enabled`.
#[derive(Clone, Debug, PartialEq, Eq, PartialOrd, Ord, Hash)]
pub enum SelectorElement {
    /// A name selector element, like `#score_window`; on the web this is known as an id.
    Name(String),
    /// A component selector element, like `window` or `button`.
    Component(String),
    /// A class selector element, like `.border`.
    Class(String),
    /// A pseudo class selector element, like `:hover`.
    PseudoClass(String),
    /// A parent-child relation between previous and next elements, like `window .border`.
    Child,
}

/// What a selector element holds, as text.
pub enum ElementView {
    Name(Seq<char>),
    Component(Seq<char>),
    Class(Seq<char>),
    PseudoClass(Seq<char>),
    Child,
}

impl View for SelectorElement {
    type V = ElementView;

    open spec fn view(&self) -> ElementView {
        match self {
            SelectorElement::Name(s) => ElementView::Name(s@),
            SelectorElement::Component(s) => ElementView::Component(s@),
            SelectorElement::Class(s) => ElementView::Class(s@),
            SelectorElement::PseudoClass(s) => ElementView::PseudoClass(s@),
            SelectorElement::Child => ElementView::Child,
        }
    }
}

/// The views of a sequence of elements.
pub open spec fn element_views(s: Seq<SelectorElement>) -> Seq<ElementView> {
    s.map_values(|e: SelectorElement| e@)
}

impl SelectorElement {
    /// An element of the same kind holding the same text.
    pub fn duplicate(&self) -> (r: SelectorElement)
        ensures
            r@ == self@,
    {
        match self {
            SelectorElement::Name(s) => SelectorElement::Name(s.clone()),
            SelectorElement::Component(s) => SelectorElement::Component(s.clone()),
            SelectorElement::Class(s) => SelectorElement::Class(s.clone()),
            SelectorElement::PseudoClass(s) => SelectorElement::PseudoClass(s.clone()),
            SelectorElement::Child => SelectorElement::Child,
        }
    }

    /// The text this element stands for in a selector.
    pub fn to_css_string(&self) -> (r: String)
        ensures
            r@ == element_text(self@),
    {
        let mut buffer = String::new();
        match self {
            SelectorElement::Name(n) => {
                buffer.append("#");
                buffer.append(n.as_str());
                proof { reveal_strlit("#"); }
            },
            SelectorElement::Component(c) => {
                buffer.append(c.as_str());
            },
            SelectorElement::Class(c) => {
                buffer.append(".");
                buffer.append(c.as_str());
                proof { reveal_strlit("."); }
            },
            SelectorElement::PseudoClass(c) => {
                buffer.append(":");
                buffer.append(c.as_str());
                proof { reveal_strlit(":"); }
            },
            SelectorElement::Child => {
                buffer.append(" ");
                proof { reveal_strlit(" "); }
            },
        }
        assert(buffer@ =~= element_text(self@));
        buffer
    }
}

/// The text of one element: `#name`, `component`, `.class`, `:pseudo`, or a space for a child relation.
pub open spec fn element_text(e: ElementView) -> Seq<char> {
    match e {
        ElementView::Name(n) => seq!['#'] + n,
        ElementView::Component(c) => c,
        ElementView::Class(c) => seq!['.'] + c,
        ElementView::PseudoClass(c) => seq![':'] + c,
        ElementView::Child => seq![' '],
    }
}

/// The text of a whole selector: the texts of its elements, one after another.
pub open spec fn selector_text(s: Seq<ElementView>) -> Seq<char>
    decreases s.len(),
{
    if s.len() == 0 {
        Seq::empty()
    } else {
        selector_text(s.drop_last()) + element_text(s.last())
    }
}

/// The groups of elements between child relations, in order: the first group selects the
/// outermost ancestor, the last one the entity itself.
pub open spec fn parent_tree(s: Seq<ElementView>) -> Seq<Seq<ElementView>>
    decreases s.len(),
{
    if s.len() == 0 {
        seq![Seq::empty()]
    } else {
        let prev = parent_tree(s.drop_last());
        if s.last() is Child {
            prev.push(Seq::empty())
        } else {
            prev.update(prev.len() - 1, prev.last().push(s.last()))
        }
    }
}

/// The tree has one more group than there are child relations, so it is never empty.
pub proof fn lemma_parent_tree_nonempty(s: Seq<ElementView>)
    ensures
        parent_tree(s).len() >= 1,
    decreases s.len(),
{
    if s.len() > 0 {
        lemma_parent_tree_nonempty(s.drop_last());
    }
}

/// The groups joined back together with a child relation between each two.
pub open spec fn join_groups(groups: Seq<Seq<ElementView>>) -> Seq<ElementView>
    decreases groups.len(),
{
    if groups.len() == 0 {
        Seq::empty()
    } else if groups.len() == 1 {
        groups[0]
    } else {
        join_groups(groups.drop_last()) + seq![ElementView::Child] + groups.last()
    }
}

proof fn lemma_join_extend_last(g: Seq<Seq<ElementView>>, x: ElementView)
    requires
        g.len() >= 1,
    ensures
        join_groups(g.update(g.len() - 1, g.last().push(x))) == join_groups(g).push(x),
{
    let u = g.update(g.len() - 1, g.last().push(x));
    if g.len() == 1 {
    } else {
        assert(u.drop_last() == g.drop_last());
        assert(join_groups(u) =~= join_groups(g).push(x));
    }
}

/// Splitting a selector at its child relations loses nothing: joining the groups back with
/// a child relation between each two gives the elements again.
pub proof fn lemma_parent_tree_join(s: Seq<ElementView>)
    ensures
        join_groups(parent_tree(s)) == s,
    decreases s.len(),
{
    if s.len() == 0 {
        assert(join_groups(parent_tree(s)) =~= s);
    } else {
        let prev = parent_tree(s.drop_last());
        lemma_parent_tree_join(s.drop_last());
        lemma_parent_tree_nonempty(s.drop_last());
        if s.last() is Child {
            let g = prev.push(Seq::<ElementView>::empty());
            assert(g.drop_last() == prev);
            assert(join_groups(g) =~= s.drop_last() + seq![ElementView::Child]);
            assert(s =~= s.drop_last() + seq![ElementView::Child]);
        } else {
            lemma_join_extend_last(prev, s.last());
            assert(s =~= s.drop_last().push(s.last()));
        }
    }
}

/// No group of the tree holds a child relation.
pub proof fn lemma_parent_tree_no_child(s: Seq<ElementView>)
    ensures
        forall|i: int, j: int|
            0 <= i < parent_tree(s).len() && 0 <= j < parent_tree(s)[i].len() ==> !(
            #[trigger] parent_tree(s)[i][j] is Child),
    decreases s.len(),
{
    if s.len() > 0 {
        lemma_parent_tree_no_child(s.drop_last());
        lemma_parent_tree_nonempty(s.drop_last());
    }
}

/// The elements that a sequence of tokens gives, and whether the next token names a class.
/// Empty tokens are skipped; a `.` token makes the next token a class; a token that starts
/// with `#` is a name; any other token is a class after `.`, a component otherwise.
pub open spec fn tokens_elements(t: Seq<Seq<char>>) -> (Seq<ElementView>, bool)
    decreases t.len(),
{
    if t.len() == 0 {
        (Seq::empty(), false)
    } else {
        let (els, next_is_class) = tokens_elements(t.drop_last());
        let v = t.last();
        if v.len() == 0 {
            (els, next_is_class)
        } else if v == seq!['.'] {
            (els, true)
        } else if v[0] == '#' {
            (els.push(ElementView::Name(v.drop_first())), false)
        } else if next_is_class {
            (els.push(ElementView::Class(v)), false)
        } else {
            (els.push(ElementView::Component(v)), false)
        }
    }
}

proof fn lemma_tokens_elements_len(t: Seq<Seq<char>>)
    ensures
        tokens_elements(t).0.len() <= t.len(),
    decreases t.len(),
{
    if t.len() > 0 {
        lemma_tokens_elements_len(t.drop_last());
    }
}

/// The tokens written one after another.
pub open spec fn concat_tokens(t: Seq<Seq<char>>) -> Seq<char>
    decreases t.len(),
{
    if t.len() == 0 {
        Seq::empty()
    } else {
        concat_tokens(t.drop_last()) + t.last()
    }
}

/// Whether the last token that is not empty is `.`.
pub open spec fn ends_with_dot(t: Seq<Seq<char>>) -> bool
    decreases t.len(),
{
    if t.len() == 0 {
        false
    } else if t.last().len() == 0 {
        ends_with_dot(t.drop_last())
    } else {
        t.last() == seq!['.']
    }
}

/// Whether each `.` token is followed, empty tokens skipped, by a token that is neither `.`
/// nor starts with `#`, or by nothing.
pub open spec fn dots_followed_by_class(t: Seq<Seq<char>>) -> bool
    decreases t.len(),
{
    if t.len() == 0 {
        true
    } else {
        dots_followed_by_class(t.drop_last()) && (ends_with_dot(t.drop_last()) && t.last().len() > 0
            ==> t.last() != seq!['.'] && t.last()[0] != '#')
    }
}

/// The class marker that [`tokens_elements`] carries is set exactly when the last token
/// that is not empty is `.`; and when each `.` is followed by a class, the text of the
/// elements, with that pending `.`, is the tokens written one after another.
pub proof fn lemma_tokens_elements_text(t: Seq<Seq<char>>)
    ensures
        tokens_elements(t).1 == ends_with_dot(t),
        dots_followed_by_class(t) ==> selector_text(tokens_elements(t).0) + (if ends_with_dot(t) {
            seq!['.']
        } else {
            Seq::<char>::empty()
        }) == concat_tokens(t),
    decreases t.len(),
{
    if t.len() > 0 {
        let p = t.drop_last();
        let v = t.last();
        lemma_tokens_elements_text(p);
        let (els, f) = tokens_elements(p);
        if dots_followed_by_class(t) {
            let dot = if f { seq!['.'] } else { Seq::<char>::empty() };
            assert(selector_text(els) + dot == concat_tokens(p));
            if v.len() == 0 {
                assert(concat_tokens(t) =~= concat_tokens(p));
            } else if v == seq!['.'] {
                assert(!f);
                assert(selector_text(els) =~= concat_tokens(p));
            } else if v[0] == '#' {
                assert(!f);
                assert(selector_text(els) =~= concat_tokens(p));
                let r = els.push(ElementView::Name(v.drop_first()));
                assert(r.drop_last() =~= els);
                assert(seq!['#'] + v.drop_first() =~= v);
                assert(selector_text(r) + Seq::<char>::empty() =~= concat_tokens(t));
            } else if f {
                let r = els.push(ElementView::Class(v));
                assert(r.drop_last() =~= els);
                assert(selector_text(r) + Seq::<char>::empty() =~= concat_tokens(t));
            } else {
                assert(selector_text(els) =~= concat_tokens(p));
                let r = els.push(ElementView::Component(v));
                assert(r.drop_last() =~= els);
                assert(selector_text(r) + Seq::<char>::empty() =~= concat_tokens(t));
            }
        }
        if v.len() > 0 && v != seq!['.'] {
            assert(!ends_with_dot(t));
        }
    }
}

/// Tokens turned into elements and the elements written back as text give the tokens
/// written one after another, when each `.` token is followed, empty tokens skipped, by a
/// token that is neither `.` nor starts with `#`.
pub proof fn lemma_tokens_round_trip(t: Seq<Seq<char>>)
    requires
        dots_followed_by_class(t),
        !ends_with_dot(t),
    ensures
        selector_text(tokens_elements(t).0) == concat_tokens(t),
{
    lemma_tokens_elements_text(t);
    assert(selector_text(tokens_elements(t).0) + Seq::<char>::empty() =~= selector_text(
        tokens_elements(t).0,
    ));
}

/// Gives out load orders, one after another, starting at 1.
pub struct RuleCounter {
    last: usize,
}

impl RuleCounter {
    /// A counter that has given out nothing yet.
    pub fn new() -> (r: RuleCounter)
        ensures
            r.last() == 0,
    {
        RuleCounter { last: 0 }
    }

    /// The last load order given out, 0 if none.
    pub closed spec fn last(&self) -> nat {
        self.last as nat
    }

    /// Whether another load order can be given out.
    pub fn can_advance(&self) -> (r: bool)
        ensures
            r == (self.last() < usize::MAX),
    {
        self.last < usize::MAX
    }

    /// Gives out the next load order.
    pub fn next(&mut self) -> (r: usize)
        requires
            old(self).last() < usize::MAX,
        ensures
            r == old(self).last() + 1,
            final(self).last() == r,
    {
        self.last = self.last + 1;
        self.last
    }
}

/// Selectors built one after another from one counter (with [`Selector::new`] or
/// [`Selector::from_tokens`]), where `counters[i]` is the counter before the `i`-th build
/// and `counters[i + 1]` after it: each selector gets a greater load order than every one
/// built before it, and all of them greater than the counter's start; so of two with as
/// many elements, the one built later takes precedence.
pub proof fn lemma_load_orders_increase(counters: Seq<RuleCounter>, selectors: Seq<SelectorView>)
    requires
        counters.len() == selectors.len() + 1,
        forall|i: int|
            0 <= i < selectors.len() ==> #[trigger] selectors[i].load_order == counters[i].last() + 1
                && counters[i + 1].last() == selectors[i].load_order,
    ensures
        forall|i: int| 0 <= i < selectors.len() ==> #[trigger] selectors[i].load_order == counters[0].last() + i + 1,
        forall|i: int, j: int|
            0 <= i < j < selectors.len() ==> #[trigger] selectors[i].load_order < #[trigger] selectors[j].load_order,
        forall|i: int, j: int|
            0 <= i < j < selectors.len() && selectors[i].elements.len() == selectors[j].elements.len()
                ==> precedes_or_ties(#[trigger] selectors[i], #[trigger] selectors[j]) && !precedes_or_ties(
                selectors[j],
                selectors[i],
            ),
    decreases selectors.len(),
{
    if selectors.len() > 0 {
        let n = selectors.len() - 1;
        lemma_load_orders_increase(counters.drop_last(), selectors.drop_last());
        assert forall|i: int| 0 <= i < selectors.len() implies #[trigger] selectors[i].load_order
            == counters[0].last() + i + 1 by {
            if i < n {
                assert(selectors.drop_last()[i] == selectors[i]);
            } else {
                if n > 0 {
                    assert(selectors.drop_last()[n - 1] == selectors[n - 1]);
                    assert(counters[n].last() == selectors[n - 1].load_order);
                }
            }
        }
    }
}

/// The selector as a value: its hash, its elements and its load order.
pub struct SelectorView {
    pub hash: u64,
    pub elements: Seq<ElementView>,
    pub load_order: nat,
}

/// A selector parsed from a `css` rule. Each selector has an internal hash used to
/// differentiate between many rules in the same sheet.
pub struct Selector {
    hash: ElementHash,
    elements: ElementList,
    /// Rule loading order from parser
    load_order: usize,
}

impl View for Selector {
    type V = SelectorView;

    closed spec fn view(&self) -> SelectorView {
        SelectorView {
            hash: self.hash.value(),
            elements: element_views(element_list_items(self.elements)),
            load_order: self.load_order as nat,
        }
    }
}

/// The writes a selector's hash is made from for one element: its kind as one byte (0 for a
/// name, 1 for a component, 2 for a class, 3 for a pseudo class, 4 for a child relation),
/// then the UTF-8 bytes of its text, if it has any.
pub open spec fn element_writes(e: ElementView) -> Seq<Seq<u8>> {
    match e {
        ElementView::Name(t) => seq![seq![0u8], encode_utf8(t)],
        ElementView::Component(t) => seq![seq![1u8], encode_utf8(t)],
        ElementView::Class(t) => seq![seq![2u8], encode_utf8(t)],
        ElementView::PseudoClass(t) => seq![seq![3u8], encode_utf8(t)],
        ElementView::Child => seq![seq![4u8]],
    }
}

/// The writes a selector's hash is made from: those of each element, in order.
pub open spec fn elements_writes(s: Seq<ElementView>) -> Seq<Seq<u8>>
    decreases s.len(),
{
    if s.len() == 0 {
        Seq::empty()
    } else {
        elements_writes(s.drop_last()) + element_writes(s.last())
    }
}

proof fn lemma_elements_writes_append(a: Seq<ElementView>, b: Seq<ElementView>)
    ensures
        elements_writes(a + b) == elements_writes(a) + elements_writes(b),
    decreases b.len(),
{
    if b.len() == 0 {
        assert(a + b =~= a);
        assert(elements_writes(b) =~= Seq::<Seq<u8>>::empty());
        assert(elements_writes(a) + elements_writes(b) =~= elements_writes(a));
    } else {
        assert((a + b).drop_last() =~= a + b.drop_last());
        assert((a + b).last() == b.last());
        lemma_elements_writes_append(a, b.drop_last());
        assert(elements_writes(a + b) =~= elements_writes(a) + elements_writes(b));
    }
}

proof fn lemma_elements_writes_front(s: Seq<ElementView>)
    requires
        s.len() > 0,
    ensures
        elements_writes(s) == element_writes(s[0]) + elements_writes(s.drop_first()),
{
    assert(s =~= seq![s[0]] + s.drop_first());
    lemma_elements_writes_append(seq![s[0]], s.drop_first());
    assert(seq![s[0]].drop_last() =~= Seq::<ElementView>::empty());
    assert(seq![s[0]].last() == s[0]);
    assert(elements_writes(Seq::<ElementView>::empty()) =~= Seq::<Seq<u8>>::empty());
    assert(Seq::<Seq<u8>>::empty() + element_writes(s[0]) =~= element_writes(s[0]));
    assert(elements_writes(seq![s[0]]) =~= element_writes(s[0]));
}

/// Different elements give different writes: the writes a selector's hash is made from
/// determine its elements, kind and text of each, in order.
pub proof fn lemma_elements_writes_injective(a: Seq<ElementView>, b: Seq<ElementView>)
    ensures
        elements_writes(a) == elements_writes(b) <==> a == b,
    decreases a.len(),
{
    if elements_writes(a) == elements_writes(b) {
        if a.len() == 0 {
            if b.len() > 0 {
                lemma_elements_writes_front(b);
                assert(element_writes(b[0]).len() > 0);
                assert(elements_writes(a).len() == 0);
                assert(false);
            }
            assert(a =~= b);
        } else if b.len() == 0 {
            lemma_elements_writes_front(a);
            assert(element_writes(a[0]).len() > 0);
            assert(elements_writes(b).len() == 0);
        } else {
            lemma_elements_writes_front(a);
            lemma_elements_writes_front(b);
            let w = elements_writes(a);
            let x = a[0];
            let y = b[0];
            assert(w[0] == element_writes(x)[0]);
            assert(w[0] == element_writes(y)[0]);
            let n = element_writes(x).len();
            assert(element_writes(x)[0][0] == element_writes(y)[0][0]);
            if x is Child {
                assert(y is Child);
            } else {
                assert(!(y is Child));
                assert(w[1] == element_writes(x)[1]);
                assert(w[1] == element_writes(y)[1]);
                let tx = match x {
                    ElementView::Name(t) => t,
                    ElementView::Component(t) => t,
                    ElementView::Class(t) => t,
                    ElementView::PseudoClass(t) => t,
                    ElementView::Child => Seq::empty(),
                };
                let ty = match y {
                    ElementView::Name(t) => t,
                    ElementView::Component(t) => t,
                    ElementView::Class(t) => t,
                    ElementView::PseudoClass(t) => t,
                    ElementView::Child => Seq::empty(),
                };
                assert(encode_utf8(tx) == encode_utf8(ty));
                vstd::utf8::encode_utf8_decode_utf8(tx);
                vstd::utf8::encode_utf8_decode_utf8(ty);
                assert(tx == ty);
            }
            assert(x == y);
            assert(elements_writes(a.drop_first()) =~= w.skip(n as int));
            assert(elements_writes(b.drop_first()) =~= w.skip(n as int));
            lemma_elements_writes_injective(a.drop_first(), b.drop_first());
            assert(a =~= seq![x] + a.drop_first());
            assert(b =~= seq![y] + b.drop_first());
        }
    }
}

/// Two selectors built (with [`Selector::new`], [`Selector::with_load_order`] or
/// [`Selector::from_tokens`]) from the same elements were hashed from the same writes, and
/// two built from different elements from different writes.
pub proof fn lemma_hashed_from_elements(s1: Selector, s2: Selector)
    requires
        s1.hash_writes() == Some(elements_writes(s1@.elements)),
        s2.hash_writes() == Some(elements_writes(s2@.elements)),
    ensures
        s1.hash_writes() == s2.hash_writes() <==> s1@.elements == s2@.elements,
{
    lemma_elements_writes_injective(s1@.elements, s2@.elements);
}

/// Feeds each element's kind and text to a fresh hasher.
fn feed_elements(elements: &[SelectorElement]) -> (r: ElementHasher)
    ensures
        r.writes() == elements_writes(element_views(elements@)),
{
    let ghost ev = element_views(elements@);
    let mut hasher = ElementHasher::new();
    let n = elements.len();
    for i in 0..n
        invariant
            n == elements@.len(),
            ev == element_views(elements@),
            hasher.writes() == elements_writes(ev.take(i as int)),
    {
        proof {
            assert(ev.take(i + 1).drop_last() == ev.take(i as int));
            assert(ev.take(i + 1).last() == elements@[i as int]@);
        }
        let ghost before = hasher.writes();
        match &elements[i] {
            SelectorElement::Name(s) => {
                hasher.write_u8(0);
                hasher.write(s.as_str().as_bytes());
            },
            SelectorElement::Component(s) => {
                hasher.write_u8(1);
                hasher.write(s.as_str().as_bytes());
            },
            SelectorElement::Class(s) => {
                hasher.write_u8(2);
                hasher.write(s.as_str().as_bytes());
            },
            SelectorElement::PseudoClass(s) => {
                hasher.write_u8(3);
                hasher.write(s.as_str().as_bytes());
            },
            SelectorElement::Child => {
                hasher.write_u8(4);
            },
        }
        assert(hasher.writes() =~= before + element_writes(elements@[i as int]@));
    }
    assert(ev.take(n as int) == ev);
    hasher
}

/// Whether `a` comes no later than `b` in precedence: fewer elements first, then the
/// earlier load order.
pub open spec fn precedes_or_ties(a: SelectorView, b: SelectorView) -> bool {
    a.elements.len() < b.elements.len() || (a.elements.len() == b.elements.len()
        && a.load_order <= b.load_order)
}

/// Inserts `x` into `sorted` after every selector that precedes or ties with it.
pub open spec fn insert_by_precedence(sorted: Seq<SelectorView>, x: SelectorView) -> Seq<SelectorView>
    decreases sorted.len(),
{
    if sorted.len() == 0 {
        seq![x]
    } else if precedes_or_ties(sorted.last(), x) {
        sorted.push(x)
    } else {
        insert_by_precedence(sorted.drop_last(), x).push(sorted.last())
    }
}

/// The selectors ordered by precedence, ties kept in the order they came in.
pub open spec fn sort_by_precedence(s: Seq<SelectorView>) -> Seq<SelectorView>
    decreases s.len(),
{
    if s.len() == 0 {
        Seq::empty()
    } else {
        insert_by_precedence(sort_by_precedence(s.drop_last()), s.last())
    }
}

/// Each selector precedes or ties with every later one.
pub open spec fn is_sorted_by_precedence(s: Seq<SelectorView>) -> bool {
    forall|i: int, j: int| 0 <= i < j < s.len() ==> precedes_or_ties(#[trigger] s[i], #[trigger] s[j])
}

pub open spec fn selector_views(v: Seq<Selector>) -> Seq<SelectorView> {
    v.map_values(|s: Selector| s@)
}

proof fn lemma_insert_at(sorted: Seq<SelectorView>, x: SelectorView, p: int)
    requires
        0 <= p <= sorted.len(),
        p == 0 || precedes_or_ties(sorted[p - 1], x),
        forall|q: int| p <= q < sorted.len() ==> !precedes_or_ties(#[trigger] sorted[q], x),
    ensures
        insert_by_precedence(sorted, x) == sorted.insert(p, x),
    decreases sorted.len(),
{
    if sorted.len() == p {
        if p == 0 {
            assert(sorted.insert(p, x) =~= seq![x]);
        } else {
            assert(sorted.insert(p, x) =~= sorted.push(x));
        }
    } else {
        assert(!precedes_or_ties(sorted[sorted.len() - 1], x));
        lemma_insert_at(sorted.drop_last(), x, p);
        assert(sorted.insert(p, x) =~= sorted.drop_last().insert(p, x).push(sorted.last()));
    }
}

/// Inserting keeps the list ordered and adds exactly `x`.
pub proof fn lemma_insert_sorted(sorted: Seq<SelectorView>, x: SelectorView)
    requires
        is_sorted_by_precedence(sorted),
    ensures
        is_sorted_by_precedence(insert_by_precedence(sorted, x)),
        insert_by_precedence(sorted, x).to_multiset() == sorted.to_multiset().insert(x),
    decreases sorted.len(),
{
    broadcast use vstd::seq_lib::group_to_multiset_ensures;
    if sorted.len() == 0 {
        assert(seq![x] == Seq::<SelectorView>::empty().push(x));
    } else if precedes_or_ties(sorted.last(), x) {
        let r = sorted.push(x);
        assert forall|i: int, j: int| 0 <= i < j < r.len() implies precedes_or_ties(#[trigger] r[i], #[trigger] r[j]) by {
            if j == sorted.len() {
                assert(precedes_or_ties(sorted[i], sorted.last()) || i == sorted.len() - 1);
            }
        }
    } else {
        let d = sorted.drop_last();
        assert forall|i: int, j: int| 0 <= i < j < d.len() implies precedes_or_ties(#[trigger] d[i], #[trigger] d[j]) by {
            assert(d[i] == sorted[i] && d[j] == sorted[j]);
        }
        lemma_insert_sorted(d, x);
        let m = insert_by_precedence(d, x);
        let r = m.push(sorted.last());
        assert forall|i: int, j: int| 0 <= i < j < r.len() implies precedes_or_ties(#[trigger] r[i], #[trigger] r[j]) by {
            if j == m.len() {
                // every element of m is x or an element of d, all of which precede the last one
                assert(m.to_multiset().count(r[i]) > 0) by {
                    assert(m.contains(r[i]));
                    vstd::seq_lib::lemma_multiset_commutative(d, seq![x]);
                }
                assert(m.to_multiset() == d.to_multiset().insert(x));
                if r[i] == x {
                } else {
                    assert(d.to_multiset().count(r[i]) > 0);
                    assert(d.contains(r[i]));
                    let k = choose|k: int| 0 <= k < d.len() && d[k] == r[i];
                    assert(sorted[k] == d[k]);
                    assert(precedes_or_ties(sorted[k], sorted[sorted.len() - 1]));
                }
            }
        }
        assert(sorted == d.push(sorted.last()));
    }
}

/// Sorting orders the selectors and keeps exactly the same ones.
pub proof fn lemma_sort_by_precedence(s: Seq<SelectorView>)
    ensures
        is_sorted_by_precedence(sort_by_precedence(s)),
        sort_by_precedence(s).to_multiset() == s.to_multiset(),
    decreases s.len(),
{
    broadcast use vstd::seq_lib::group_to_multiset_ensures;
    if s.len() > 0 {
        lemma_sort_by_precedence(s.drop_last());
        lemma_insert_sorted(sort_by_precedence(s.drop_last()), s.last());
        assert(s == s.drop_last().push(s.last()));
    }
}

/// A selector with fewer elements takes precedence over one with more, whatever their load
/// orders; of two with as many elements, the one loaded earlier comes first.
pub proof fn lemma_precedence_by_length_then_load_order(a: SelectorView, b: SelectorView)
    ensures
        a.elements.len() < b.elements.len() ==> precedes_or_ties(a, b) && !precedes_or_ties(b, a),
        a.elements.len() == b.elements.len() ==> (precedes_or_ties(a, b) <==> a.load_order
            <= b.load_order),
{
}

/// Sorting puts the selectors with fewer elements first and, among those with as many
/// elements, the ones loaded earlier first; it keeps every selector, each as often.
pub proof fn lemma_sorted_by_length_then_load_order(s: Seq<SelectorView>)
    ensures
        forall|i: int, j: int|
            0 <= i < j < sort_by_precedence(s).len() ==> (#[trigger] sort_by_precedence(s)[i]).elements.len()
                < (#[trigger] sort_by_precedence(s)[j]).elements.len() || (
            sort_by_precedence(s)[i].elements.len() == sort_by_precedence(s)[j].elements.len()
                && sort_by_precedence(s)[i].load_order <= sort_by_precedence(s)[j].load_order),
        sort_by_precedence(s).to_multiset() == s.to_multiset(),
{
    lemma_sort_by_precedence(s);
}

/// Orders the selectors by precedence (see [`sort_by_precedence`]).
pub fn sort_selectors(v: &Vec<Selector>) -> (r: Vec<Selector>)
    ensures
        selector_views(r@) == sort_by_precedence(selector_views(v@)),
{
    let ghost sv = selector_views(v@);
    let mut sorted: Vec<Selector> = Vec::new();
    let n = v.len();
    for i in 0..n
        invariant
            n == v@.len(),
            sv == selector_views(v@),
            selector_views(sorted@) == sort_by_precedence(sv.take(i as int)),
    {
        assert(sv.take(i + 1).drop_last() == sv.take(i as int));
        assert(sv.take(i + 1).last() == v@[i as int]@);
        let x = v[i].duplicate();
        let ghost cur = selector_views(sorted@);
        let mut p = sorted.len();
        while p > 0 && !sorted[p - 1].precedes_or_ties(&x)
            invariant
                0 <= p <= sorted@.len(),
                cur == selector_views(sorted@),
                forall|q: int| p <= q < cur.len() ==> !precedes_or_ties(#[trigger] cur[q], x@),
            decreases p,
        {
            p = p - 1;
        }
        proof {
            lemma_insert_at(cur, x@, p as int);
        }
        sorted.insert(p, x);
        assert(selector_views(sorted@) =~= cur.insert(p as int, x@));
    }
    assert(sv.take(n as int) == sv);
    sorted
}

impl Selector {
    /// Creates a new selector for the given elements, hashing them and taking the next
    /// load order from the counter.
    pub fn new(elements: ElementList, counter: &mut RuleCounter) -> (r: Selector)
        requires
            old(counter).last() < usize::MAX,
        ensures
            r@.elements == element_views(element_list_items(elements)),
            r@.load_order == old(counter).last() + 1,
            final(counter).last() == r@.load_order,
            r.hash_writes() == Some(elements_writes(r@.elements)),
    {
        let load_order = counter.next();
        Selector::with_load_order(elements, load_order)
    }

    /// Creates a selector for the given elements, hashing them, with the given load order.
    pub fn with_load_order(elements: ElementList, load_order: usize) -> (r: Selector)
        ensures
            r@.elements == element_views(element_list_items(elements)),
            r@.load_order == load_order,
            r.hash_writes() == Some(elements_writes(r@.elements)),
    {
        let hasher = feed_elements(elements.as_slice());
        let hash = hasher.finish();
        Selector { hash, elements, load_order }
    }

    /// A selector with the given elements, hash and load order.
    pub fn with_hash(elements: ElementList, hash: u64, load_order: usize) -> (r: Selector)
        ensures
            r@ == (SelectorView {
                hash,
                elements: element_views(element_list_items(elements)),
                load_order: load_order as nat,
            }),
            r.hash_writes() is None,
    {
        Selector { hash: ElementHash::given(hash), elements, load_order }
    }

    /// What the hash was computed from: the writes given to a fresh default-keyed
    /// `AHasher` before its `finish` returned the hash (see [`crate::hashing`]); `None` for a
    /// hash given from outside.
    pub closed spec fn hash_writes(&self) -> Option<Seq<Seq<u8>>> {
        self.hash.writes()
    }

    /// The hash that tells selectors apart.
    pub fn hash_value(&self) -> (r: u64)
        ensures
            r == self@.hash,
    {
        self.hash.get()
    }

    /// The load order.
    pub fn load_order(&self) -> (r: usize)
        ensures
            r == self@.load_order,
    {
        self.load_order
    }

    /// The number of elements.
    pub fn len(&self) -> (r: usize)
        ensures
            r == self@.elements.len(),
    {
        self.elements.as_slice().len()
    }

    /// The elements.
    pub fn elements(&self) -> (r: &[SelectorElement])
        ensures
            element_views(r@) == self@.elements,
    {
        self.elements.as_slice()
    }

    /// A selector with the same hash, elements and load order.
    pub fn duplicate(&self) -> (r: Selector)
        ensures
            r@ == self@,
            r.hash_writes() == self.hash_writes(),
    {
        Selector { hash: self.hash.duplicate(), elements: self.elements.duplicate(), load_order: self.load_order }
    }

    /// Whether both selectors carry the same hash, which is what makes them equal.
    pub fn same_as(&self, other: &Selector) -> (r: bool)
        ensures
            r == (self@.hash == other@.hash),
    {
        self.hash.get() == other.hash.get()
    }

    /// Whether this selector comes no later than `other` in precedence.
    pub fn precedes_or_ties(&self, other: &Selector) -> (r: bool)
        ensures
            r == precedes_or_ties(self@, other@),
    {
        let a = self.len();
        let b = other.len();
        a < b || (a == b && self.load_order <= other.load_order)
    }

    /// Compares by number of elements, then by load order.
    pub fn precedence_cmp(&self, other: &Selector) -> (r: Ordering)
        ensures
            r == Ordering::Less <==> (self@.elements.len() < other@.elements.len() || (
            self@.elements.len() == other@.elements.len() && self@.load_order
                < other@.load_order)),
            r == Ordering::Equal <==> (self@.elements.len() == other@.elements.len()
                && self@.load_order == other@.load_order),
    {
        let a = self.len();
        let b = other.len();
        if a < b {
            Ordering::Less
        } else if a > b {
            Ordering::Greater
        } else if self.load_order < other.load_order {
            Ordering::Less
        } else if self.load_order > other.load_order {
            Ordering::Greater
        } else {
            Ordering::Equal
        }
    }

    /// Builds a selector tree for this selector: the groups of elements between child
    /// relations. Each group is parent of the next one.
    pub fn get_parent_tree(&self) -> (r: Vec<Vec<&SelectorElement>>)
        ensures
            r@.len() == parent_tree(self@.elements).len(),
            forall|i: int|
                #![trigger r@[i]]
                0 <= i < r@.len() ==> element_views(r@[i]@.map_values(|e: &SelectorElement| *e))
                    == parent_tree(self@.elements)[i],
    {
        let elements = self.elements.as_slice();
        let ghost ev = self@.elements;
        let mut tree: Vec<Vec<&SelectorElement>> = Vec::new();
        let mut current_level: Vec<&SelectorElement> = Vec::new();
        let n = elements.len();
        for k in 0..n
            invariant
                n == elements@.len(),
                ev == element_views(elements@),
                tree@.len() + 1 == parent_tree(ev.take(k as int)).len(),
                forall|i: int|
                    #![trigger tree@[i]]
                    0 <= i < tree@.len() ==> element_views(tree@[i]@.map_values(|e: &SelectorElement| *e))
                        == parent_tree(ev.take(k as int))[i],
                element_views(current_level@.map_values(|e: &SelectorElement| *e))
                    == parent_tree(ev.take(k as int)).last(),
        {
            let element = &elements[k];
            proof {
                lemma_parent_tree_nonempty(ev.take(k as int));
                assert(ev.take(k + 1).drop_last() == ev.take(k as int));
                assert(ev.take(k + 1).last() == element@);
            }
            match element {
                SelectorElement::Child => {
                    let finished = current_level;
                    tree.push(finished);
                    current_level = Vec::new();
                    assert(element_views(current_level@.map_values(|e: &SelectorElement| *e)) =~= Seq::empty());
                },
                _ => {
                    let ghost before = current_level@;
                    current_level.push(element);
                    assert(current_level@.map_values(|e: &SelectorElement| *e) =~= before.map_values(
                        |e: &SelectorElement| *e).push(*element));
                    assert(element_views(current_level@.map_values(|e: &SelectorElement| *e)) =~=
                        element_views(before.map_values(|e: &SelectorElement| *e)).push(element@));
                },
            }
        }
        tree.push(current_level);
        assert(ev.take(n as int) == ev);
        tree
    }

    /// The text of this selector: each element as written, `#` before a name, `.` before a
    /// class, `:` before a pseudo class, and a space for each child relation.
    pub fn to_css_string(&self) -> (r: String)
        ensures
            r@ == selector_text(self@.elements),
    {
        let elements = self.elements.as_slice();
        let ghost ev = self@.elements;
        let mut buffer = String::new();
        let n = elements.len();
        for k in 0..n
            invariant
                n == elements@.len(),
                ev == element_views(elements@),
                buffer@ == selector_text(ev.take(k as int)),
        {
            let piece = elements[k].to_css_string();
            buffer.append(piece.as_str());
            proof {
                assert(ev.take(k + 1).drop_last() == ev.take(k as int));
            }
        }
        assert(ev.take(n as int) == ev);
        buffer
    }

    /// The elements that a list of tokens gives (see [`tokens_elements`]).
    pub fn elements_from_tokens(input: &Vec<String>) -> (r: ElementList)
        ensures
            element_views(element_list_items(r)) == tokens_elements(
                input@.map_values(|s: String| s@),
            ).0,
    {
        let ghost t = input@.map_values(|s: String| s@);
        let mut elements = ElementList::new();
        let mut next_is_class = false;
        let n = input.len();
        for i in 0..n
            invariant
                n == input@.len(),
                t == input@.map_values(|s: String| s@),
                element_views(element_list_items(elements)) == tokens_elements(t.take(i as int)).0,
                next_is_class == tokens_elements(t.take(i as int)).1,
        {
            proof {
                assert(t.take(i + 1).drop_last() == t.take(i as int));
                assert(t.take(i + 1).last() == input@[i as int]@);
                lemma_tokens_elements_len(t.take(i as int));
            }
            let value = input[i].as_str();
            let len = value.unicode_len();
            if len == 0 {
            } else if len == 1 && value.get_char(0) == '.' {
                assert(value@ =~= seq!['.']);
                next_is_class = true;
            } else {
                assert(value@ != seq!['.']) by {
                    if value@ == seq!['.'] {
                        assert(value@[0] == '.');
                    }
                }
                let ghost before = element_list_items(elements);
                if value.get_char(0) == '#' {
                    let rest = value.substring_char(1, len);
                    let name = String::from_str(rest);
                    assert(name@ =~= value@.drop_first());
                    elements.push(SelectorElement::Name(name));
                } else if next_is_class {
                    elements.push(SelectorElement::Class(input[i].clone()));
                } else {
                    elements.push(SelectorElement::Component(input[i].clone()));
                }
                assert(element_views(element_list_items(elements)) =~= element_views(before).push(
                    element_list_items(elements).last()@));
                next_is_class = false;
            }
        }
        assert(t.take(n as int) == t);
        elements
    }

    /// Builds a selector from the tokens of a rule's prelude (see [`tokens_elements`]),
    /// taking the next load order from the counter.
    pub fn from_tokens(input: &Vec<String>, counter: &mut RuleCounter) -> (r: Selector)
        requires
            old(counter).last() < usize::MAX,
        ensures
            r@.elements == tokens_elements(input@.map_values(|s: String| s@)).0,
            r@.load_order == old(counter).last() + 1,
            final(counter).last() == r@.load_order,
            r.hash_writes() == Some(elements_writes(r@.elements)),
    {
        let elements = Selector::elements_from_tokens(input);
        Selector::new(elements, counter)
    }
}

impl Clone for Selector {
    fn clone(&self) -> (r: Self)
        ensures
            r@ == self@,
            r.hash_writes() == self.hash_writes(),
    {
        self.duplicate()
    }
}

impl PartialEq for Selector {
    fn eq(&self, other: &Self) -> (r: bool) {
        self.hash.get() == other.hash.get()
    }
}

impl vstd::std_specs::cmp::PartialEqSpecImpl for Selector {
    open spec fn obeys_eq_spec() -> bool {
        true
    }

    open spec fn eq_spec(&self, other: &Self) -> bool {
        self@.hash == other@.hash
    }
}

} // verus!
