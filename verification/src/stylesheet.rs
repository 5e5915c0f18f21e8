//! Style rules and the property names each style sheet declares per selector.
use crate::keyed::{key_index, lemma_key_facts, lemma_key_first, value_or};
use crate::selector::{Selector, SelectorView};
use core::str::Utf8Error;
use vstd::prelude::*;
use vstd::utf8::valid_utf8;

verus! {

/// A single rule inside a style sheet: a [`Selector`] which determines which entities the
/// properties apply to, and the properties' values, by property name.
pub struct StyleRule<V> {
    /// Selector used to match entities to apply properties.
    pub selector: Selector,
    /// Property values to be applied on selected entities.
    pub properties: Vec<(String, V)>,
}

impl<V> StyleRule<V> {
    /// A rule with the given selector and no properties yet.
    pub fn new(selector: Selector) -> (r: Self)
        ensures
            r.selector@ == selector@,
            r.properties@.len() == 0,
    {
        StyleRule { selector, properties: Vec::new() }
    }

    /// The text of the rule's selector.
    pub fn to_css_string(&self) -> (r: String)
        ensures
            r@ == crate::selector::selector_text(self.selector@.elements),
    {
        self.selector.to_css_string()
    }
}

/// The names of the properties that a style sheet declares for a selector.
pub struct RuleNames {
    pub selector: Selector,
    pub property_names: Vec<String>,
}

/// The rules of one style sheet, under the sheet's handle.
pub struct SheetRules {
    pub handle: u64,
    pub rules: Vec<RuleNames>,
}

pub open spec fn names_view(v: Seq<String>) -> Seq<Seq<char>> {
    v.map_values(|s: String| s@)
}

pub open spec fn rules_view(v: Seq<RuleNames>) -> Seq<(u64, (SelectorView, Seq<Seq<char>>))> {
    v.map_values(|r: RuleNames| (r.selector@.hash, (r.selector@, names_view(r.property_names@))))
}

pub open spec fn sheets_view(v: Seq<SheetRules>) -> Seq<(u64, Seq<(u64, (SelectorView, Seq<Seq<char>>))>)> {
    v.map_values(|s: SheetRules| (s.handle, rules_view(s.rules@)))
}

/// The property names the first rule with the selector's hash declares, none if no rule has it.
pub open spec fn property_names(
    rules: Seq<(u64, (SelectorView, Seq<Seq<char>>))>,
    sel: SelectorView,
) -> Seq<Seq<char>> {
    match key_index(rules, sel.hash) {
        Some(i) => rules[i].1.1,
        None => Seq::empty(),
    }
}

/// The rules of the first sheet with handle `h`.
pub open spec fn find_sheet(
    sheets: Seq<(u64, Seq<(u64, (SelectorView, Seq<Seq<char>>))>)>,
    h: u64,
) -> Option<Seq<(u64, (SelectorView, Seq<Seq<char>>))>> {
    match key_index(sheets, h) {
        Some(i) => Some(sheets[i].1),
        None => None,
    }
}

impl SheetRules {
    /// The property names declared for the selector (see [`property_names`]).
    pub fn get_property_names(&self, selector: &Selector) -> (r: Option<&Vec<String>>)
        ensures
            match r {
                Some(names) => names_view(names@) == property_names(rules_view(self.rules@), selector@),
                None => property_names(rules_view(self.rules@), selector@) == Seq::<Seq<char>>::empty()
                    && key_index(rules_view(self.rules@), selector@.hash) is None,
            },
    {
        let ghost rv = rules_view(self.rules@);
        let n = self.rules.len();
        for i in 0..n
            invariant
                n == self.rules@.len(),
                rv == rules_view(self.rules@),
                forall|j: int| 0 <= j < i ==> rv[j].0 != selector@.hash,
        {
            if self.rules[i].selector.same_as(selector) {
                proof { lemma_key_first(rv, selector@.hash, i as int); }
                return Some(&self.rules[i].property_names);
            }
        }
        proof { lemma_key_facts(rv, selector@.hash); }
        None
    }
}

/// Looks up the rules of the sheet with handle `h`.
pub fn find_sheet_rules(sheets: &Vec<SheetRules>, h: u64) -> (r: Option<&SheetRules>)
    ensures
        match r {
            Some(s) => find_sheet(sheets_view(sheets@), h) == Some(rules_view(s.rules@)) && s.handle == h,
            None => find_sheet(sheets_view(sheets@), h) is None,
        },
{
    let ghost sv = sheets_view(sheets@);
    let n = sheets.len();
    for i in 0..n
        invariant
            n == sheets@.len(),
            sv == sheets_view(sheets@),
            forall|j: int| 0 <= j < i ==> sv[j].0 != h,
    {
        if sheets[i].handle == h {
            proof { lemma_key_first(sv, h, i as int); }
            return Some(&sheets[i]);
        }
    }
    proof { lemma_key_facts(sv, h); }
    None
}


#[verifier::external_type_specification]
#[verifier::external_body]
pub struct ExUtf8Error(Utf8Error);

/// Calls `std::str::from_utf8`, which, as its documentation says, succeeds exactly when the
/// bytes are valid UTF-8 and then gives the text those bytes encode.
#[verifier::external_body]
fn utf8_to_str(bytes: &[u8]) -> (r: Result<&str, Utf8Error>)
    ensures
        r is Ok <==> valid_utf8(bytes@),
        r matches Ok(s) ==> vstd::utf8::encode_utf8(s@) == bytes@,
{
    core::str::from_utf8(bytes)
}

/// The text of a style sheet file: its bytes read as UTF-8, or the decoding error.
pub fn decode_style_sheet(bytes: &Vec<u8>) -> (r: Result<String, Utf8Error>)
    ensures
        r is Ok <==> valid_utf8(bytes@),
        r matches Ok(s) ==> vstd::utf8::encode_utf8(s@) == bytes@,
{
    match utf8_to_str(bytes.as_slice()) {
        Ok(s) => Ok(String::from_str(s)),
        Err(e) => Err(e),
    }
}

/// The file extensions style sheets are loaded from.
pub fn extensions() -> (r: Vec<&'static str>)
    ensures
        r@.len() == 1,
        r@[0]@ == "css"@,
{
    let mut v: Vec<&'static str> = Vec::new();
    v.push("css");
    v
}

/// The style sheets to refresh after assets were modified: for each modified asset, in
/// order, the positions of the style sheets whose handle is that asset, in order.
pub open spec fn sheets_to_refresh_spec(modified: Seq<u64>, handles: Seq<u64>) -> Seq<usize>
    decreases modified.len(),
{
    if modified.len() == 0 {
        Seq::empty()
    } else {
        sheets_to_refresh_spec(modified.drop_last(), handles) + matching_positions(handles, modified.last())
    }
}

/// The positions of `handles` that hold `id`, in order.
pub open spec fn matching_positions(handles: Seq<u64>, id: u64) -> Seq<usize>
    decreases handles.len(),
{
    if handles.len() == 0 {
        Seq::empty()
    } else {
        let p = matching_positions(handles.drop_last(), id);
        if handles.last() == id {
            p.push((handles.len() - 1) as usize)
        } else {
            p
        }
    }
}

/// Which style sheets to refresh when assets were modified (see [`sheets_to_refresh_spec`]).
pub fn sheets_to_refresh(modified: &Vec<u64>, handles: &Vec<u64>) -> (r: Vec<usize>)
    ensures
        r@ == sheets_to_refresh_spec(modified@, handles@),
{
    let mut out: Vec<usize> = Vec::new();
    let n = modified.len();
    for k in 0..n
        invariant
            n == modified@.len(),
            out@ == sheets_to_refresh_spec(modified@.take(k as int), handles@),
    {
        assert(modified@.take(k + 1).drop_last() == modified@.take(k as int));
        let id = modified[k];
        let ghost start = out@;
        let m = handles.len();
        for i in 0..m
            invariant
                m == handles@.len(),
                id == modified@[k as int],
                out@ == start + matching_positions(handles@.take(i as int), id),
        {
            assert(handles@.take(i + 1).drop_last() == handles@.take(i as int));
            if handles[i] == id {
                out.push(i);
            }
            assert(out@ =~= start + matching_positions(handles@.take(i + 1), id));
        }
        assert(handles@.take(m as int) == handles@);
    }
    assert(modified@.take(n as int) == modified@);
    out
}

} // verus!
