//! Lists of key-value pairs used in place of hash maps: a key's entry is the first pair with
//! that key.
//!
//! The library keeps its maps in such lists, whose contents the specifications can speak
//! of: the style of an entity by property name (`ComputedStyle`), the computed state by
//! entity (`StyleSheetState`), the selections by style sheet and by selector
//! (`StyleSheetStateBuilder`, `SelectedEntities`) and the parse cache by sheet and selector
//! (`PropertyMeta`). Each of them is filled through [`set_value`], which replaces a key's
//! pair in place or appends a new one, so a list that starts empty holds each key at most
//! once ([`keys_unique`], kept by [`lemma_set_value_unique`]); the computed state is
//! otherwise only cleared or replaced whole by a built one (`lemma_build_state_unique`). `ComponentFilterRegistry` follows the same rule with its
//! own lookup. The style tree appends a style sheet only when its handle is not a key yet;
//! it can hold a handle twice only when an entity carries the same style sheet as one of
//! the entities above it (see `lemma_find_root_keeps_keys_unique`).
use vstd::prelude::*;

verus! {

/// The position of the first pair with key `k`.
pub open spec fn key_index<K, V>(s: Seq<(K, V)>, k: K) -> Option<int> {
    if exists|i: int| 0 <= i < s.len() && s[i].0 == k && forall|j: int| 0 <= j < i ==> s[j].0 != k {
        Some(choose|i: int| 0 <= i < s.len() && s[i].0 == k && forall|j: int| 0 <= j < i ==> s[j].0 != k)
    } else {
        None
    }
}

/// The value under key `k`, or `d` if there is none.
pub open spec fn value_or<K, V>(s: Seq<(K, V)>, k: K, d: V) -> V {
    match key_index(s, k) {
        Some(i) => s[i].1,
        None => d,
    }
}

/// The list with `v` under key `k`: the entry is replaced in place, or added at the end.
pub open spec fn set_value<K, V>(s: Seq<(K, V)>, k: K, v: V) -> Seq<(K, V)> {
    match key_index(s, k) {
        Some(i) => s.update(i, (k, v)),
        None => s.push((k, v)),
    }
}

/// Whether some pair has key `k`.
pub open spec fn has_key<K, V>(s: Seq<(K, V)>, k: K) -> bool {
    key_index(s, k) is Some
}

pub proof fn lemma_key_first<K, V>(s: Seq<(K, V)>, k: K, i: int)
    requires
        0 <= i < s.len(),
        s[i].0 == k,
        forall|j: int| 0 <= j < i ==> s[j].0 != k,
    ensures
        key_index(s, k) == Some(i),
{
    let c = choose|c: int| 0 <= c < s.len() && s[c].0 == k && forall|j: int| 0 <= j < c ==> s[j].0 != k;
    if c < i {
        assert(s[c].0 != k);
    } else if c > i {
        assert(s[i].0 != k);
    }
}

proof fn lemma_first_exists<K, V>(s: Seq<(K, V)>, k: K, j: int)
    requires
        0 <= j < s.len(),
        s[j].0 == k,
    ensures
        exists|i: int| 0 <= i < s.len() && s[i].0 == k && forall|q: int| 0 <= q < i ==> s[q].0 != k,
    decreases j,
{
    if exists|q: int| 0 <= q < j && s[q].0 == k {
        let q = choose|q: int| 0 <= q < j && s[q].0 == k;
        lemma_first_exists(s, k, q);
    }
}

pub proof fn lemma_key_facts<K, V>(s: Seq<(K, V)>, k: K)
    ensures
        match key_index(s, k) {
            Some(i) => 0 <= i < s.len() && s[i].0 == k && forall|j: int| 0 <= j < i ==> s[j].0 != k,
            None => forall|j: int| 0 <= j < s.len() ==> s[j].0 != k,
        },
{
    if key_index(s, k) is None {
        assert forall|j: int| 0 <= j < s.len() implies s[j].0 != k by {
            if s[j].0 == k {
                lemma_first_exists(s, k, j);
            }
        }
    }
}

/// After setting `k`, its value is `v` and every other key keeps its value and presence.
pub proof fn lemma_set_value<K, V>(s: Seq<(K, V)>, k: K, v: V)
    ensures
        key_index(set_value(s, k, v), k) is Some,
        forall|d: V| #[trigger] value_or(set_value(s, k, v), k, d) == v,
        forall|k2: K, d: V|
            k2 != k ==> #[trigger] value_or(set_value(s, k, v), k2, d) == value_or(s, k2, d),
        forall|k2: K| k2 != k ==> #[trigger] has_key(set_value(s, k, v), k2) == has_key(s, k2),
        set_value(s, k, v).len() == s.len() + if has_key(s, k) { 0int } else { 1int },
        forall|i: int| 0 <= i < s.len() && s[i].0 != k ==> #[trigger] set_value(s, k, v)[i] == s[i],
{
    let t = set_value(s, k, v);
    lemma_key_facts(s, k);
    match key_index(s, k) {
        Some(i) => {
            lemma_key_first(t, k, i);
        },
        None => {
            lemma_key_first(t, k, s.len() as int);
        },
    }
    assert forall|k2: K| k2 != k implies key_index(t, k2) == key_index(s, k2) by {
        lemma_key_facts(s, k2);
        lemma_key_facts(t, k2);
        match key_index(s, k2) {
            Some(i) => {
                assert(t[i] == s[i]);
                assert forall|j: int| 0 <= j < i implies t[j].0 != k2 by {
                    assert(t[j].0 == s[j].0 || t[j].0 == k);
                }
                lemma_key_first(t, k2, i);
            },
            None => {
                if key_index(t, k2) is Some {
                    let i = key_index(t, k2)->0;
                    assert(t[i].0 == s[i].0 || t[i].0 == k);
                }
            },
        }
    }
    assert forall|k2: K, d: V| k2 != k implies #[trigger] value_or(t, k2, d) == value_or(s, k2, d) by {
        lemma_key_facts(s, k2);
        match key_index(s, k2) {
            Some(i) => {
                assert(t[i] == s[i]);
            },
            None => {},
        }
    }
    assert forall|k2: K| k2 != k implies #[trigger] has_key(t, k2) == has_key(s, k2) by {
    }
}


/// No two pairs share a key.
pub open spec fn keys_unique<K, V>(s: Seq<(K, V)>) -> bool {
    forall|i: int, j: int| 0 <= i < j < s.len() ==> #[trigger] s[i].0 != #[trigger] s[j].0
}

/// Setting a value keeps keys unique.
pub proof fn lemma_set_value_unique<K, V>(s: Seq<(K, V)>, k: K, v: V)
    requires
        keys_unique(s),
    ensures
        keys_unique(set_value(s, k, v)),
{
    lemma_key_facts(s, k);
    let t = set_value(s, k, v);
    assert forall|i: int, j: int| 0 <= i < j < t.len() implies #[trigger] t[i].0 != #[trigger] t[j].0 by {
        match key_index(s, k) {
            Some(q) => {
                if i == q {
                    assert(s[j].0 != s[q].0);
                } else if j == q {
                    assert(s[i].0 != s[q].0);
                } else {
                    assert(t[i] == s[i] && t[j] == s[j]);
                }
            },
            None => {
                if j == s.len() {
                    assert(t[i] == s[i]);
                } else {
                    assert(t[i] == s[i] && t[j] == s[j]);
                }
            },
        }
    }
}

/// Appending a pair with another key leaves a key's entry where it was.
pub proof fn lemma_push_other<K, V>(s: Seq<(K, V)>, x: (K, V), k: K)
    requires
        k != x.0,
    ensures
        key_index(s.push(x), k) == key_index(s, k),
        forall|d: V| #[trigger] value_or(s.push(x), k, d) == value_or(s, k, d),
{
    let t = s.push(x);
    lemma_key_facts(s, k);
    lemma_key_facts(t, k);
    match key_index(s, k) {
        Some(i) => {
            assert(t[i] == s[i]);
            assert forall|j: int| 0 <= j < i implies t[j].0 != k by {
                assert(t[j] == s[j]);
            }
            lemma_key_first(t, k, i);
        },
        None => {
            if key_index(t, k) is Some {
                let i = key_index(t, k)->0;
                assert(i < s.len());
                assert(t[i] == s[i]);
            }
        },
    }
    assert forall|d: V| #[trigger] value_or(s.push(x), k, d) == value_or(s, k, d) by {
        match key_index(s, k) {
            Some(i) => {
                assert(t[i] == s[i]);
            },
            None => {},
        }
    }
}

/// Appending a pair with a new key makes it that key's entry.
pub proof fn lemma_push_new<K, V>(s: Seq<(K, V)>, x: (K, V))
    requires
        !has_key(s, x.0),
    ensures
        key_index(s.push(x), x.0) == Some(s.len() as int),
        forall|d: V| #[trigger] value_or(s.push(x), x.0, d) == x.1,
{
    lemma_key_facts(s, x.0);
    let t = s.push(x);
    assert forall|j: int| 0 <= j < s.len() implies t[j].0 != x.0 by {
        assert(t[j] == s[j]);
    }
    lemma_key_first(t, x.0, s.len() as int);
}

} // verus!
