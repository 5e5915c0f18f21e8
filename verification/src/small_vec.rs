//! Inline-capacity lists of entity ids and of selector elements, each held in a
//! `smallvec::SmallVec` with eight inline slots.
use crate::selector::SelectorElement;
use smallvec::SmallVec;
use vstd::prelude::*;

verus! {

/// An inline list of entity ids, as the selection functions produce.
#[verifier::external_body]
pub struct EntityList {
    inner: SmallVec<[u64; 8]>,
}

/// The ids an entity list holds, in order.
pub uninterp spec fn entity_list_items(v: EntityList) -> Seq<u64>;

/// Calls `SmallVec::new`; the claim is that the new list holds nothing.
#[verifier::external_body]
fn entity_list_new() -> (r: EntityList)
    ensures
        entity_list_items(r) == Seq::<u64>::empty(),
{
    EntityList { inner: SmallVec::new() }
}

/// Calls `SmallVec::push`; the claim is that the item is appended at the end and
/// nothing else changes. `push` panics only when the length would overflow `usize`.
#[verifier::external_body]
fn entity_list_push(v: &mut EntityList, x: u64)
    requires
        entity_list_items(*old(v)).len() < usize::MAX,
    ensures
        entity_list_items(*final(v)) == entity_list_items(*old(v)).push(x),
{
    v.inner.push(x)
}

/// Calls `SmallVec::as_slice`; the claim is that the slice holds the list's items in order.
#[verifier::external_body]
fn entity_list_as_slice(v: &EntityList) -> (r: &[u64])
    ensures
        r@ == entity_list_items(*v),
{
    v.inner.as_slice()
}

impl EntityList {
    /// An empty list.
    pub fn new() -> (r: EntityList)
        ensures
            r@ == Seq::<u64>::empty(),
    {
        entity_list_new()
    }

    /// Appends an id at the end.
    pub fn push(&mut self, x: u64)
        requires
            old(self)@.len() < usize::MAX,
        ensures
            final(self)@ == old(self)@.push(x),
    {
        entity_list_push(self, x)
    }

    /// The ids, as a slice.
    pub fn as_slice(&self) -> (r: &[u64])
        ensures
            r@ == self@,
    {
        entity_list_as_slice(self)
    }

    /// The number of ids held.
    pub fn len(&self) -> (r: usize)
        ensures
            r == self@.len(),
    {
        self.as_slice().len()
    }

    /// Builds a list holding the given ids, in order.
    pub fn from_slice(items: &[u64]) -> (r: EntityList)
        ensures
            r@ == items@,
    {
        let mut r = EntityList::new();
        let n = items.len();
        for i in 0..n
            invariant
                n == items@.len(),
                r@ == items@.take(i as int),
        {
            r.push(items[i]);
            assert(items@.take(i + 1) == items@.take(i as int).push(items@[i as int]));
        }
        assert(items@.take(n as int) == items@);
        r
    }

    /// A copy of the ids, in a `Vec`.
    pub fn to_vec(&self) -> (r: Vec<u64>)
        ensures
            r@ == self@,
    {
        let s = self.as_slice();
        let mut r: Vec<u64> = Vec::new();
        let n = s.len();
        for i in 0..n
            invariant
                n == s@.len(),
                r@ == s@.take(i as int),
        {
            r.push(s[i]);
            assert(s@.take(i + 1) == s@.take(i as int).push(s@[i as int]));
        }
        assert(s@.take(n as int) == s@);
        r
    }

    /// A list with the same ids.
    pub fn duplicate(&self) -> (r: EntityList)
        ensures
            r@ == self@,
    {
        EntityList::from_slice(self.as_slice())
    }

    /// Whether the id is held.
    pub fn contains(&self, x: u64) -> (r: bool)
        ensures
            r == self@.contains(x),
    {
        let s = self.as_slice();
        let n = s.len();
        for i in 0..n
            invariant
                n == s@.len(),
                s@ == self@,
                forall|j: int| 0 <= j < i ==> s@[j] != x,
        {
            if s[i] == x {
                assert(s@[i as int] == x);
                return true;
            }
        }
        false
    }
}

impl View for EntityList {
    type V = Seq<u64>;

    open spec fn view(&self) -> Seq<u64> {
        entity_list_items(*self)
    }
}

/// An inline list of selector elements.
#[verifier::external_body]
pub struct ElementList {
    inner: SmallVec<[SelectorElement; 8]>,
}

/// The elements an element list holds, in order.
pub uninterp spec fn element_list_items(v: ElementList) -> Seq<SelectorElement>;

/// Calls `SmallVec::new`; the claim is that the new list holds nothing.
#[verifier::external_body]
fn element_list_new() -> (r: ElementList)
    ensures
        element_list_items(r) == Seq::<SelectorElement>::empty(),
{
    ElementList { inner: SmallVec::new() }
}

/// Calls `SmallVec::push`; the claim is that the element is appended at the end and
/// nothing else changes. `push` panics only when the length would overflow `usize`.
#[verifier::external_body]
fn element_list_push(v: &mut ElementList, x: SelectorElement)
    requires
        element_list_items(*old(v)).len() < usize::MAX,
    ensures
        element_list_items(*final(v)) == element_list_items(*old(v)).push(x),
{
    v.inner.push(x)
}

/// Calls `SmallVec::as_slice`; the claim is that the slice holds the list's elements in order.
#[verifier::external_body]
fn element_list_as_slice(v: &ElementList) -> (r: &[SelectorElement])
    ensures
        r@ == element_list_items(*v),
{
    v.inner.as_slice()
}

impl ElementList {
    /// An empty list.
    pub fn new() -> (r: ElementList)
        ensures
            element_list_items(r) == Seq::<SelectorElement>::empty(),
    {
        element_list_new()
    }

    /// Appends an element at the end.
    pub fn push(&mut self, x: SelectorElement)
        requires
            element_list_items(*old(self)).len() < usize::MAX,
        ensures
            element_list_items(*final(self)) == element_list_items(*old(self)).push(x),
    {
        element_list_push(self, x)
    }

    /// The elements, as a slice.
    pub fn as_slice(&self) -> (r: &[SelectorElement])
        ensures
            r@ == element_list_items(*self),
    {
        element_list_as_slice(self)
    }

    /// A list with elements of the same views.
    pub fn duplicate(&self) -> (r: ElementList)
        ensures
            crate::selector::element_views(element_list_items(r))
                == crate::selector::element_views(element_list_items(*self)),
    {
        let s = self.as_slice();
        let mut r = ElementList::new();
        let n = s.len();
        for i in 0..n
            invariant
                n == s@.len(),
                crate::selector::element_views(element_list_items(r))
                    == crate::selector::element_views(s@.take(i as int)),
                element_list_items(r).len() == i,
        {
            let e = s[i].duplicate();
            let ghost before = element_list_items(r);
            r.push(e);
            assert(crate::selector::element_views(element_list_items(r)) =~=
                crate::selector::element_views(before).push(s@[i as int]@));
            assert(s@.take(i + 1) == s@.take(i as int).push(s@[i as int]));
            assert(crate::selector::element_views(element_list_items(r)) =~=
                crate::selector::element_views(s@.take(i + 1)));
        }
        assert(s@.take(n as int) == s@);
        r
    }
}

} // verus!
