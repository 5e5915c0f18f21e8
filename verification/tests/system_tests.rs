use bevycss::property::stylesheet_state::{StyleSheetState, StyleSheetStateBuilder};
use bevycss::selector::{RuleCounter, Selector, SelectorElement};
use bevycss::small_vec::{ElementList, EntityList};
use bevycss::stylesheet::{RuleNames, SheetRules};
use bevycss::system::style_tree::StyleTree;
use bevycss::system::world::{Interaction, InteractionEntry, MatchEntry, UiNode, UiWorld};
use bevycss::system::{
    get_entities_with, get_entities_with_component, get_entities_with_pseudo_class, prepare_state,
    select_entities, select_entities_node, ComponentFilterRegistry,
};

fn node(entity: u64, parent: Option<u64>, children: Option<Vec<u64>>, sheet: Option<u64>) -> UiNode {
    UiNode { entity, is_ui_node: true, parent, children, style_sheet: sheet }
}

fn words(entity: u64, values: &[&str]) -> MatchEntry {
    MatchEntry { entity, values: values.iter().map(|s| s.to_string()).collect() }
}

/// 1 (sheet 100) -> 2 -> 3 (sheet 200) -> 4, and 1 -> 5.
fn sample_world() -> UiWorld {
    UiWorld::new(
        vec![
            node(1, None, Some(vec![2, 5]), Some(100)),
            node(2, Some(1), Some(vec![3]), None),
            node(3, Some(2), Some(vec![4]), Some(200)),
            node(4, Some(3), None, None),
            node(5, Some(1), None, None),
        ],
        vec![words(4, &["ok"]), words(5, &["cancel"])],
        vec![words(2, &["panel", "wide"]), words(4, &["big"]), words(5, &["big"])],
        vec![
            InteractionEntry { entity: 4, interaction: Interaction::Hovered },
            InteractionEntry { entity: 5, interaction: Interaction::Pressed },
        ],
    )
    .expect("well formed")
}

fn registry() -> ComponentFilterRegistry {
    let mut reg = ComponentFilterRegistry::new();
    reg.insert("button".to_string(), EntityList::from_slice(&[4, 5]));
    reg.insert("node".to_string(), EntityList::from_slice(&[1, 2, 3, 4, 5]));
    reg
}

fn sel(items: Vec<SelectorElement>, hash: u64, order: usize) -> Selector {
    let mut list = ElementList::new();
    for i in items {
        list.push(i);
    }
    Selector::with_hash(list, hash, order)
}

fn comp(s: &str) -> SelectorElement {
    SelectorElement::Component(s.to_string())
}

fn class(s: &str) -> SelectorElement {
    SelectorElement::Class(s.to_string())
}

#[test]
fn world_rejects_repeated_ids() {
    let w = UiWorld::new(vec![node(1, None, None, None), node(1, None, None, None)], vec![], vec![], vec![]);
    assert!(w.is_none());
}

#[test]
fn world_rejects_child_before_parent() {
    let w = UiWorld::new(vec![node(2, Some(1), None, None), node(1, None, Some(vec![2]), None)], vec![], vec![], vec![]);
    assert!(w.is_none());
}

#[test]
fn world_accepts_empty_and_ordered() {
    assert!(UiWorld::new(vec![], vec![], vec![], vec![]).is_some());
    assert_eq!(sample_world().len(), 5);
}

#[test]
fn parents_up_to_an_entity_without_parent() {
    let w = sample_world();
    assert_eq!(w.get_parents_recursively(1, 3).to_vec(), vec![1, 2, 3]);
}

#[test]
fn parents_stop_at_root() {
    let w = sample_world();
    assert_eq!(w.get_parents_recursively(2, 3).to_vec(), vec![2, 3]);
}

#[test]
fn parents_of_unknown_entity() {
    let w = sample_world();
    assert_eq!(w.get_parents_recursively(1, 99).to_vec(), vec![99]);
}

#[test]
fn children_depth_first() {
    let w = sample_world();
    assert_eq!(w.get_children_recursively(0).to_vec(), vec![2, 3, 4, 5]);
}

#[test]
fn entity_filter_holds_ancestors_self_and_descendants() {
    let w = sample_world();
    assert_eq!(w.build_entity_filter(1, 2).unwrap().to_vec(), vec![1, 2, 3, 4]);
    assert!(w.build_entity_filter(1, 42).is_none());
}

#[test]
fn names_and_classes_match_whole_words() {
    let w = sample_world();
    let big = get_entities_with(&"big".to_string(), w.classes(), &None);
    assert_eq!(big.to_vec(), vec![4, 5]);
    let filtered = get_entities_with(&"big".to_string(), w.classes(), &Some(EntityList::from_slice(&[5])));
    assert_eq!(filtered.to_vec(), vec![5]);
    let none = get_entities_with(&"bi".to_string(), w.classes(), &None);
    assert!(none.to_vec().is_empty());
}

#[test]
fn pseudo_classes_hover_and_click() {
    let w = sample_world();
    assert_eq!(get_entities_with_pseudo_class(&"hover".to_string(), w.interactions(), &None).to_vec(), vec![4]);
    assert_eq!(get_entities_with_pseudo_class(&"click".to_string(), w.interactions(), &None).to_vec(), vec![5]);
    assert!(get_entities_with_pseudo_class(&"focus".to_string(), w.interactions(), &None).to_vec().is_empty());
}

#[test]
fn unregistered_component_picks_nothing() {
    let reg = registry();
    assert!(get_entities_with_component(&"image".to_string(), &reg, &None).to_vec().is_empty());
    assert_eq!(get_entities_with_component(&"button".to_string(), &reg, &None).to_vec(), vec![4, 5]);
}

#[test]
fn registering_again_replaces() {
    let mut reg = registry();
    reg.insert("button".to_string(), EntityList::from_slice(&[9]));
    assert_eq!(reg.get(&"button".to_string()).unwrap().to_vec(), vec![9]);
    assert_eq!(reg.get(&"node".to_string()).unwrap().len(), 5);
}

#[test]
fn select_component_under_updated_root() {
    let w = sample_world();
    let s = sel(vec![comp("button")], 1, 1);
    assert_eq!(select_entities(1, 1, &s, &w, &registry()).to_vec(), vec![4, 5]);
}

#[test]
fn select_component_and_class() {
    let w = sample_world();
    let s = sel(vec![comp("button"), class("big")], 1, 1);
    assert_eq!(select_entities(1, 1, &s, &w, &registry()).to_vec(), vec![4, 5]);
    let only_hovered = sel(vec![comp("button"), SelectorElement::PseudoClass("hover".to_string())], 2, 2);
    assert_eq!(select_entities(1, 1, &only_hovered, &w, &registry()).to_vec(), vec![4]);
}

#[test]
fn select_descendants_of_a_class() {
    let w = sample_world();
    let s = sel(vec![class("panel"), SelectorElement::Child, class("big")], 1, 1);
    assert_eq!(select_entities(1, 1, &s, &w, &registry()).to_vec(), vec![4]);
}

#[test]
fn select_only_within_the_updated_branch() {
    let w = sample_world();
    let s = sel(vec![class("big")], 1, 1);
    assert_eq!(select_entities(1, 3, &s, &w, &registry()).to_vec(), vec![4]);
}

#[test]
fn select_by_name() {
    let w = sample_world();
    let s = sel(vec![SelectorElement::Name("ok".to_string())], 1, 1);
    assert_eq!(select_entities(1, 1, &s, &w, &registry()).to_vec(), vec![4]);
}

#[test]
fn style_roots_outermost_first() {
    let w = sample_world();
    let mut tree = StyleTree::new();
    assert_eq!(tree.get_style_roots_for(4, &w), vec![(1, 100), (3, 200)]);
    assert_eq!(tree.get_style_roots_for(5, &w), vec![(1, 100)]);
    assert!(tree.get_style_roots_for(77, &w).is_empty());
}

#[test]
fn root_is_the_nearest_sheet() {
    let w = sample_world();
    let mut tree = StyleTree::new();
    let root = tree.get_or_find_root(4, &w).unwrap();
    assert_eq!((root.entity, root.sheet_handle, root.parent), (3, 200, Some(100)));
}

fn rules(entries: Vec<(Selector, Vec<&str>)>) -> Vec<RuleNames> {
    entries
        .into_iter()
        .map(|(s, names)| RuleNames { selector: s, property_names: names.iter().map(|n| n.to_string()).collect() })
        .collect()
}

#[test]
fn cascade_prefers_more_elements_then_later_rules() {
    let general = sel(vec![comp("button")], 1, 1);
    let specific = sel(vec![comp("button"), class("big")], 2, 2);
    let later = sel(vec![comp("node")], 3, 3);
    let sheets = vec![SheetRules {
        handle: 100,
        rules: rules(vec![
            (general.duplicate(), vec!["color", "font-size"]),
            (specific.duplicate(), vec!["color"]),
            (later.duplicate(), vec!["font-size", "text-align"]),
        ]),
    }];
    let mut builder = StyleSheetStateBuilder::new();
    builder.add(100, &specific, &EntityList::from_slice(&[4]));
    builder.add(100, &general, &EntityList::from_slice(&[4, 5]));
    builder.add(100, &later, &EntityList::from_slice(&[4]));
    let state = builder.build(&sheets);
    let style4 = state.get(4).unwrap();
    assert_eq!(style4.get(&"color".to_string()).unwrap().selector.hash_value(), 2);
    assert_eq!(style4.get(&"font-size".to_string()).unwrap().selector.hash_value(), 3);
    assert_eq!(style4.get(&"text-align".to_string()).unwrap().selector.hash_value(), 3);
    assert_eq!(style4.get(&"color".to_string()).unwrap().styleheet, 100);
    let style5 = state.get(5).unwrap();
    assert_eq!(style5.get(&"color".to_string()).unwrap().selector.hash_value(), 1);
    assert!(style5.get(&"text-align".to_string()).is_none());
}

#[test]
fn sheet_without_rules_is_skipped() {
    let mut builder = StyleSheetStateBuilder::new();
    builder.add(300, &sel(vec![comp("button")], 1, 1), &EntityList::from_slice(&[4]));
    let state = builder.build(&Vec::new());
    assert!(state.is_empty());
}

#[test]
fn recording_an_entity_twice_keeps_one() {
    let s = sel(vec![comp("button")], 1, 1);
    let mut builder = StyleSheetStateBuilder::new();
    builder.add(100, &s, &EntityList::from_slice(&[4, 5]));
    builder.add(100, &s, &EntityList::from_slice(&[5, 6]));
    assert_eq!(builder.len(), 1);
    let sheets = vec![SheetRules { handle: 100, rules: rules(vec![(s.duplicate(), vec!["color"])]) }];
    let state = builder.build(&sheets);
    assert_eq!(state.len(), 3);
}

#[test]
fn prepare_state_end_to_end() {
    let w = sample_world();
    let mut counter = RuleCounter::new();
    let to = |t: &[&str]| t.iter().map(|s| s.to_string()).collect::<Vec<String>>();
    let buttons = Selector::from_tokens(&to(&["button"]), &mut counter);
    let ok = Selector::from_tokens(&to(&["#ok"]), &mut counter);
    let inner = Selector::from_tokens(&to(&[".", "big"]), &mut counter);
    let sheets = vec![
        SheetRules { handle: 100, rules: rules(vec![(buttons, vec!["color"]), (ok, vec!["color", "font-size"])]) },
        SheetRules { handle: 200, rules: rules(vec![(inner, vec!["text-align"])]) },
    ];
    let state = prepare_state(&w, &vec![4], &sheets, &registry());
    let style4 = state.get(4).unwrap();
    assert_eq!(style4.get(&"color".to_string()).unwrap().selector.load_order(), 2);
    assert_eq!(style4.get(&"font-size".to_string()).unwrap().styleheet, 100);
    assert_eq!(style4.get(&"text-align".to_string()).unwrap().styleheet, 200);
    assert!(state.get(5).is_none());
}

#[test]
fn prepare_state_with_no_changes_is_empty() {
    let w = sample_world();
    let state = prepare_state(&w, &vec![], &vec![], &registry());
    assert!(state.is_empty());
}

#[test]
fn replace_only_with_a_non_empty_state() {
    let w = sample_world();
    let mut counter = RuleCounter::new();
    let buttons = Selector::from_tokens(&vec!["button".to_string()], &mut counter);
    let sheets = vec![SheetRules { handle: 100, rules: rules(vec![(buttons, vec!["color"])]) }];
    let mut current = prepare_state(&w, &vec![1], &sheets, &registry());
    assert_eq!(current.len(), 2);
    current.replace_if_any(StyleSheetState::new());
    assert_eq!(current.len(), 2);
    current.clear_state();
    assert!(current.is_empty());
    current.replace_if_any(prepare_state(&w, &vec![5], &sheets, &registry()));
    assert_eq!(current.len(), 1);
}

#[test]
fn defaults_are_empty() {
    let state = StyleSheetState::default();
    assert!(state.is_empty());
    let builder = StyleSheetStateBuilder::default();
    assert_eq!(builder.len(), 0);
}

#[test]
fn style_tree_holds_each_sheet_once() {
    let w = sample_world();
    let mut tree = StyleTree::new();
    tree.get_or_find_root(4, &w);
    tree.get_or_find_root(5, &w);
    tree.get_or_find_root(3, &w);
    tree.get_style_roots_for(4, &w);
    assert_eq!(tree.len(), 2);
}

#[test]
fn group_order_does_not_change_the_selection() {
    let w = sample_world();
    let reg = registry();
    let a = comp("button");
    let b = class("big");
    let c = SelectorElement::PseudoClass("click".to_string());
    let one = vec![&a, &b, &c];
    let two = vec![&c, &a, &b];
    let mut left = select_entities_node(&one, &w, &reg, None).to_vec();
    let mut right = select_entities_node(&two, &w, &reg, None).to_vec();
    left.sort();
    right.sort();
    assert_eq!(left, vec![5]);
    assert_eq!(left, right);
    let only_four = || Some(EntityList::from_slice(&[4]));
    assert!(select_entities_node(&one, &w, &reg, only_four()).to_vec().is_empty());
    assert!(select_entities_node(&two, &w, &reg, only_four()).to_vec().is_empty());
}

#[test]
fn sheet_shared_by_unrelated_entities_is_held_once() {
    let w = UiWorld::new(
        vec![
            node(1, None, Some(vec![2, 3]), None),
            node(2, Some(1), None, Some(100)),
            node(3, Some(1), None, Some(100)),
        ],
        vec![],
        vec![],
        vec![],
    )
    .expect("well formed");
    let mut tree = StyleTree::new();
    let first = tree.get_or_find_root(2, &w).unwrap();
    let second = tree.get_or_find_root(3, &w).unwrap();
    assert_eq!((first.entity, first.sheet_handle), (2, 100));
    assert_eq!((second.entity, second.sheet_handle), (2, 100));
    assert_eq!(tree.len(), 1);
}
