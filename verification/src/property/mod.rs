//! Properties: parsing their values, caching what was parsed, and the computed styles
//! they are applied from.
pub mod style;
pub mod stylesheet_state;
pub mod text;

use crate::keyed::{has_key, key_index, lemma_key_facts, lemma_key_first, lemma_set_value, set_value, value_or};
use vstd::prelude::*;

verus! {

/// Errors of the library.
#[derive(Debug)]
pub enum BevyCssError {
    /// The value given to the named property is not one it accepts.
    InvalidPropertyValue(String),
}

impl BevyCssError {
    /// The name of the property whose value was refused.
    pub fn property_name(&self) -> (r: &String)
        ensures
            self matches BevyCssError::InvalidPropertyValue(n) && r == n,
    {
        match self {
            BevyCssError::InvalidPropertyValue(n) => n,
        }
    }
}

/// Whether `s` holds exactly the characters of `lit`.
pub fn str_is(s: &str, lit: &str) -> (r: bool)
    ensures
        r == (s@ == lit@),
{
    let n = s.unicode_len();
    let m = lit.unicode_len();
    if n != m {
        return false;
    }
    for i in 0..n
        invariant
            n == s@.len(),
            m == lit@.len(),
            n == m,
            forall|j: int| 0 <= j < i ==> s@[j] == lit@[j],
    {
        if s.get_char(i) != lit.get_char(i) {
            return false;
        }
    }
    assert(s@ =~= lit@);
    true
}

/// The value, or an invalid value error naming the property when there is none.
pub fn require_value<T>(name: &str, value: Option<T>) -> (r: Result<T, BevyCssError>)
    ensures
        match value {
            Some(v) => r == Ok::<T, BevyCssError>(v),
            None => r matches Err(BevyCssError::InvalidPropertyValue(n)) && n@ == name@,
        },
{
    match value {
        Some(v) => Ok(v),
        None => Err(BevyCssError::InvalidPropertyValue(String::from_str(name))),
    }
}

/// What is cached for a property under a style sheet and a selector.
pub enum CacheState<T> {
    /// The sheet declares no value for the property under the selector.
    Unset,
    /// The value was parsed.
    Parsed(T),
    /// The value could not be parsed; it is not tried again.
    Failed,
}

/// The cache state that a lookup gives: nothing declared, a parsed value, or a parse error.
pub open spec fn cache_state_of<T>(parsed: Option<Result<T, BevyCssError>>) -> CacheState<T> {
    match parsed {
        Some(Ok(v)) => CacheState::Parsed(v),
        Some(Err(_)) => CacheState::Failed,
        None => CacheState::Unset,
    }
}

/// The cache after asking for the key: an entry that is there stays; otherwise the lookup's
/// outcome is stored.
pub open spec fn cache_step<T>(
    m: Seq<((u64, u64), CacheState<T>)>,
    k: (u64, u64),
    parsed: Option<Result<T, BevyCssError>>,
) -> Seq<((u64, u64), CacheState<T>)> {
    if has_key(m, k) {
        m
    } else {
        set_value(m, k, cache_state_of(parsed))
    }
}

/// Property values already parsed, by style sheet hash and selector hash, so that each one
/// is parsed at most once.
pub struct PropertyMeta<T> {
    entries: Vec<((u64, u64), CacheState<T>)>,
}

impl<T> View for PropertyMeta<T> {
    type V = Seq<((u64, u64), CacheState<T>)>;

    closed spec fn view(&self) -> Seq<((u64, u64), CacheState<T>)> {
        self.entries@
    }
}

impl<T> PropertyMeta<T> {
    /// A cache that holds nothing.
    pub fn new() -> (r: PropertyMeta<T>)
        ensures
            r@ == Seq::<((u64, u64), CacheState<T>)>::empty(),
    {
        PropertyMeta { entries: Vec::new() }
    }

    fn position(&self, k: (u64, u64)) -> (r: Option<usize>)
        ensures
            match r {
                Some(i) => key_index(self@, k) == Some(i as int),
                None => key_index(self@, k) is None,
            },
    {
        let n = self.entries.len();
        for i in 0..n
            invariant
                n == self.entries@.len(),
                forall|j: int| 0 <= j < i ==> self@[j].0 != k,
        {
            let key = self.entries[i].0;
            if key.0 == k.0 && key.1 == k.1 {
                proof { lemma_key_first(self@, k, i as int); }
                return Some(i);
            }
        }
        proof { lemma_key_facts(self@, k); }
        None
    }

    /// Gets the cached state for the property under the sheet and selector hashes, or looks
    /// it up and parses it with `lookup` and stores the outcome. A parse error is stored as
    /// [`CacheState::Failed`], so it is not tried again.
    pub fn get_or_parse<F: Fn() -> Option<Result<T, BevyCssError>>>(
        &mut self,
        sheet_hash: u64,
        selector_hash: u64,
        lookup: F,
    ) -> (r: &CacheState<T>)
        requires
            call_requires(lookup, ()),
        ensures
            has_key(old(self)@, (sheet_hash, selector_hash)) ==> final(self)@ == old(self)@ && *r
                == value_or(old(self)@, (sheet_hash, selector_hash), CacheState::Unset),
            !has_key(old(self)@, (sheet_hash, selector_hash)) ==> exists|parsed: Option<Result<T, BevyCssError>>|
                call_ensures(lookup, (), parsed) && final(self)@ == cache_step(old(self)@, (sheet_hash, selector_hash), parsed)
                    && *r == cache_state_of(parsed),
    {
        let k = (sheet_hash, selector_hash);
        match self.position(k) {
            Some(i) => &self.entries[i].1,
            None => {
                let parsed = lookup();
                let state = match parsed {
                    Some(Ok(v)) => CacheState::Parsed(v),
                    Some(Err(_)) => CacheState::Failed,
                    None => CacheState::Unset,
                };
                let ghost before = self@;
                self.entries.push((k, state));
                proof {
                    lemma_key_facts(before, k);
                    assert(self@ == set_value(before, k, cache_state_of(parsed)));
                }
                let n = self.entries.len();
                &self.entries[n - 1].1
            },
        }
    }
}

/// Once something is cached for a style sheet and selector, asking again keeps it, whatever
/// a second lookup would give.
pub proof fn lemma_cache_keeps_first<T>(
    m: Seq<((u64, u64), CacheState<T>)>,
    k: (u64, u64),
    first: Option<Result<T, BevyCssError>>,
    second: Option<Result<T, BevyCssError>>,
)
    ensures
        cache_step(cache_step(m, k, first), k, second) == cache_step(m, k, first),
        has_key(cache_step(m, k, first), k),
        !has_key(m, k) ==> value_or(cache_step(m, k, first), k, CacheState::Unset) == cache_state_of(first),
{
    if !has_key(m, k) {
        lemma_set_value(m, k, cache_state_of(first));
    }
}

} // verus!
