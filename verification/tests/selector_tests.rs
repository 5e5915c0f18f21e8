use bevycss::selector::{sort_selectors, RuleCounter, Selector, SelectorElement};
use bevycss::small_vec::{ElementList, EntityList};
use core::cmp::Ordering;

fn elements(items: Vec<SelectorElement>) -> ElementList {
    let mut list = ElementList::new();
    for item in items {
        list.push(item);
    }
    list
}

fn tokens(items: &[&str]) -> Vec<String> {
    items.iter().map(|s| s.to_string()).collect()
}

fn selector(items: Vec<SelectorElement>, hash: u64, load_order: usize) -> Selector {
    Selector::with_hash(elements(items), hash, load_order)
}

#[test]
fn tokens_give_names_classes_and_components() {
    let list = Selector::elements_from_tokens(&tokens(&["#window", ".", "border", "", "button"]));
    assert_eq!(
        list.as_slice(),
        &[
            SelectorElement::Name("window".to_string()),
            SelectorElement::Class("border".to_string()),
            SelectorElement::Component("button".to_string()),
        ]
    );
}

#[test]
fn dot_before_a_name_is_dropped() {
    let list = Selector::elements_from_tokens(&tokens(&[".", "#x", "y", "."]));
    assert_eq!(
        list.as_slice(),
        &[SelectorElement::Name("x".to_string()), SelectorElement::Component("y".to_string())]
    );
}

#[test]
fn empty_tokens_give_no_elements() {
    let list = Selector::elements_from_tokens(&tokens(&["", ""]));
    assert!(list.as_slice().is_empty());
}

#[test]
fn from_tokens_takes_successive_load_orders() {
    let mut counter = RuleCounter::new();
    let a = Selector::from_tokens(&tokens(&["button"]), &mut counter);
    let b = Selector::from_tokens(&tokens(&["button"]), &mut counter);
    assert_eq!(a.load_order(), 1);
    assert_eq!(b.load_order(), 2);
    assert_eq!(a.len(), 1);
}

#[test]
fn same_elements_hash_alike_in_one_process() {
    let mut counter = RuleCounter::new();
    let a = Selector::from_tokens(&tokens(&["#a", ".", "b"]), &mut counter);
    let b = Selector::from_tokens(&tokens(&["#a", ".", "b"]), &mut counter);
    let c = Selector::from_tokens(&tokens(&["#a", ".", "c"]), &mut counter);
    assert!(a == b);
    assert_eq!(a.hash_value(), b.hash_value());
    assert!(a != c);
}

#[test]
fn counter_reports_when_it_can_advance() {
    let mut counter = RuleCounter::new();
    assert!(counter.can_advance());
    assert_eq!(counter.next(), 1);
    assert_eq!(counter.next(), 2);
}

#[test]
fn css_text_of_a_selector() {
    let s = selector(
        vec![
            SelectorElement::Name("window".to_string()),
            SelectorElement::Class("border".to_string()),
            SelectorElement::Child,
            SelectorElement::Component("button".to_string()),
            SelectorElement::PseudoClass("hover".to_string()),
        ],
        1,
        1,
    );
    assert_eq!(s.to_css_string(), "#window.border button:hover");
}

#[test]
fn css_text_of_an_empty_selector() {
    let s = selector(vec![], 1, 1);
    assert_eq!(s.to_css_string(), "");
}

#[test]
fn parent_tree_splits_at_child_relations() {
    let s = selector(
        vec![
            SelectorElement::Component("window".to_string()),
            SelectorElement::Child,
            SelectorElement::Class("a".to_string()),
            SelectorElement::Name("b".to_string()),
        ],
        1,
        1,
    );
    let tree = s.get_parent_tree();
    assert_eq!(tree.len(), 2);
    assert_eq!(tree[0], vec![&SelectorElement::Component("window".to_string())]);
    assert_eq!(
        tree[1],
        vec![&SelectorElement::Class("a".to_string()), &SelectorElement::Name("b".to_string())]
    );
}

#[test]
fn parent_tree_of_leading_and_double_child() {
    let s = selector(
        vec![SelectorElement::Child, SelectorElement::Component("a".to_string()), SelectorElement::Child, SelectorElement::Child],
        1,
        1,
    );
    let tree = s.get_parent_tree();
    assert_eq!(tree.len(), 4);
    assert!(tree[0].is_empty());
    assert_eq!(tree[1].len(), 1);
    assert!(tree[2].is_empty());
    assert!(tree[3].is_empty());
}

#[test]
fn parent_tree_joins_back_to_the_elements() {
    let items = vec![
        SelectorElement::Component("a".to_string()),
        SelectorElement::Child,
        SelectorElement::Class("b".to_string()),
        SelectorElement::Child,
        SelectorElement::Name("c".to_string()),
    ];
    let s = selector(items.clone(), 1, 1);
    let tree = s.get_parent_tree();
    let mut joined: Vec<SelectorElement> = Vec::new();
    for (i, group) in tree.iter().enumerate() {
        if i > 0 {
            joined.push(SelectorElement::Child);
        }
        joined.extend(group.iter().map(|e| (*e).clone()));
    }
    assert_eq!(joined, items);
}

#[test]
fn precedence_is_by_length_then_load_order() {
    let short_late = selector(vec![SelectorElement::Component("a".to_string())], 1, 9);
    let long_early = selector(
        vec![SelectorElement::Component("a".to_string()), SelectorElement::Class("b".to_string())],
        2,
        1,
    );
    let short_early = selector(vec![SelectorElement::Component("c".to_string())], 3, 2);
    assert_eq!(short_late.precedence_cmp(&long_early), Ordering::Less);
    assert_eq!(long_early.precedence_cmp(&short_late), Ordering::Greater);
    assert_eq!(short_early.precedence_cmp(&short_late), Ordering::Less);
    assert_eq!(short_early.precedence_cmp(&short_early), Ordering::Equal);
    assert!(short_early.precedes_or_ties(&short_late));
    assert!(!long_early.precedes_or_ties(&short_late));
}

#[test]
fn sorting_orders_by_precedence_and_keeps_ties_in_order() {
    let v = vec![
        selector(vec![SelectorElement::Component("a".to_string()), SelectorElement::Class("b".to_string())], 10, 1),
        selector(vec![SelectorElement::Component("c".to_string())], 11, 5),
        selector(vec![SelectorElement::Component("d".to_string())], 12, 3),
        selector(vec![SelectorElement::Component("e".to_string())], 13, 3),
    ];
    let sorted = sort_selectors(&v);
    let hashes: Vec<u64> = sorted.iter().map(|s| s.hash_value()).collect();
    assert_eq!(hashes, vec![12, 13, 11, 10]);
}

#[test]
fn sorting_nothing_gives_nothing() {
    assert!(sort_selectors(&Vec::new()).is_empty());
}

#[test]
fn equality_is_by_hash_only() {
    let a = selector(vec![SelectorElement::Component("a".to_string())], 7, 1);
    let b = selector(vec![SelectorElement::Class("z".to_string())], 7, 2);
    assert!(a == b);
    assert!(a.same_as(&b));
}

#[test]
fn duplicate_keeps_hash_elements_and_order() {
    let a = selector(vec![SelectorElement::Name("x".to_string())], 5, 4);
    let b = a.duplicate();
    assert_eq!(b.hash_value(), 5);
    assert_eq!(b.load_order(), 4);
    assert_eq!(b.elements(), a.elements());
}

#[test]
fn element_css_text() {
    assert_eq!(SelectorElement::Name("n".to_string()).to_css_string(), "#n");
    assert_eq!(SelectorElement::Class("c".to_string()).to_css_string(), ".c");
    assert_eq!(SelectorElement::PseudoClass("hover".to_string()).to_css_string(), ":hover");
    assert_eq!(SelectorElement::Component("b".to_string()).to_css_string(), "b");
    assert_eq!(SelectorElement::Child.to_css_string(), " ");
}

#[test]
fn entity_lists_round_trip() {
    let list = EntityList::from_slice(&[3, 1, 2]);
    assert_eq!(list.to_vec(), vec![3, 1, 2]);
    assert_eq!(list.len(), 3);
    assert!(list.contains(1));
    assert!(!list.contains(9));
    assert_eq!(list.duplicate().as_slice(), &[3, 1, 2]);
    let mut grown = EntityList::new();
    for i in 0..20u64 {
        grown.push(i);
    }
    assert_eq!(grown.len(), 20);
    assert_eq!(grown.as_slice()[19], 19);
}

#[test]
fn button_enabled_gives_two_elements() {
    let list = Selector::elements_from_tokens(&tokens(&["button", ".", "enabled"]));
    assert_eq!(
        list.as_slice(),
        &[SelectorElement::Component("button".to_string()), SelectorElement::Class("enabled".to_string())]
    );
}

#[test]
fn with_load_order_keeps_the_order() {
    let s = Selector::with_load_order(elements(vec![SelectorElement::Component("a".to_string())]), 42);
    assert_eq!(s.load_order(), 42);
    assert_eq!(s.len(), 1);
}

#[test]
fn clone_keeps_everything() {
    let a = selector(vec![SelectorElement::Class("x".to_string())], 8, 3);
    let b = a.clone();
    assert_eq!(b.hash_value(), 8);
    assert_eq!(b.load_order(), 3);
    assert_eq!(b.to_css_string(), ".x");
}

#[test]
fn tokens_round_trip_to_css_text() {
    let mut counter = RuleCounter::new();
    let parts = tokens(&["#window", "", ".", "border", "button", ".", "", "wide"]);
    let s = Selector::from_tokens(&parts, &mut counter);
    assert_eq!(s.to_css_string(), parts.concat());
    assert_eq!(s.to_css_string(), "#window.borderbutton.wide");
}

#[test]
fn later_selectors_take_precedence_over_earlier_ones() {
    let mut counter = RuleCounter::new();
    let built: Vec<Selector> = (0..5).map(|_| Selector::from_tokens(&tokens(&["button"]), &mut counter)).collect();
    for i in 0..built.len() {
        assert_eq!(built[i].load_order(), i + 1);
        for j in (i + 1)..built.len() {
            assert!(built[i].load_order() < built[j].load_order());
            assert_eq!(built[i].precedence_cmp(&built[j]), Ordering::Less);
            assert!(!built[j].precedes_or_ties(&built[i]));
        }
    }
}

#[test]
fn element_texts_and_kinds_hash_apart() {
    let mut counter = RuleCounter::new();
    let a = Selector::from_tokens(&tokens(&[".", "a"]), &mut counter);
    let b = Selector::from_tokens(&tokens(&[".", "b"]), &mut counter);
    let c = Selector::from_tokens(&tokens(&["a"]), &mut counter);
    let d = Selector::from_tokens(&tokens(&["#a"]), &mut counter);
    let again = Selector::from_tokens(&tokens(&["", ".", "a"]), &mut counter);
    assert_ne!(a.hash_value(), b.hash_value());
    assert_ne!(a.hash_value(), c.hash_value());
    assert_ne!(c.hash_value(), d.hash_value());
    assert_eq!(a.hash_value(), again.hash_value());
}
