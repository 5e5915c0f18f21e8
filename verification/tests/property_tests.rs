use bevycss::property::style::{DisplayProperty, Display, FlexDirection, FlexDirectionProperty, JustifyContent, JustifyContentProperty, MarginProperty};
use bevycss::property::text::{FontColorProperty, FontSizeProperty, JustifyText, TextAlignProperty, TextContentProperty};
use bevycss::property::{require_value, str_is, BevyCssError, CacheState, PropertyMeta};
use bevycss::stylesheet::{decode_style_sheet, extensions, sheets_to_refresh, StyleRule};
use bevycss::selector::{RuleCounter, Selector};
use std::cell::Cell;

fn invalid_name(e: &BevyCssError) -> String {
    e.property_name().clone()
}

#[test]
fn text_align_keywords() {
    assert!(matches!(TextAlignProperty::parse(Some("left")), Ok(Some(JustifyText::Left))));
    assert!(matches!(TextAlignProperty::parse(Some("center")), Ok(Some(JustifyText::Center))));
    assert!(matches!(TextAlignProperty::parse(Some("right")), Ok(Some(JustifyText::Right))));
    let err = TextAlignProperty::parse(Some("justify")).unwrap_err();
    assert_eq!(invalid_name(&err), "text-align");
    assert!(TextAlignProperty::parse(None).is_err());
}

#[test]
fn font_color_and_size_need_a_value() {
    assert_eq!(FontColorProperty::parse(Some(7u32)).unwrap(), 7);
    assert_eq!(invalid_name(&FontColorProperty::parse::<u32>(None).unwrap_err()), "color");
    assert_eq!(FontSizeProperty::parse(Some(12.5f32)).unwrap(), 12.5);
    assert_eq!(invalid_name(&FontSizeProperty::parse::<f32>(None).unwrap_err()), "font-size");
    assert_eq!(FontSizeProperty::name(), "font-size");
}

#[test]
fn text_content_takes_the_string() {
    assert_eq!(TextContentProperty::parse(Some("Hello".to_string())).unwrap(), "Hello");
    assert_eq!(invalid_name(&TextContentProperty::parse(None).unwrap_err()), "text-content");
}

#[test]
fn style_keywords() {
    assert_eq!(DisplayProperty::parse(Some("none")).unwrap(), Display::Hidden);
    assert_eq!(DisplayProperty::parse(Some("flex")).unwrap(), Display::Flex);
    assert_eq!(invalid_name(&DisplayProperty::parse(Some("grid")).unwrap_err()), "display");
    assert_eq!(FlexDirectionProperty::parse(Some("column-reverse")).unwrap(), FlexDirection::ColumnReverse);
    assert_eq!(JustifyContentProperty::parse(Some("space-evenly")).unwrap(), JustifyContent::SpaceEvenly);
    assert!(JustifyContentProperty::parse(None).is_err());
    assert_eq!(MarginProperty::parse(Some((1, 2, 3, 4))).unwrap(), (1, 2, 3, 4));
    assert_eq!(invalid_name(&MarginProperty::parse::<u8>(None).unwrap_err()), "margin");
}

#[test]
fn string_comparison() {
    assert!(str_is("abc", "abc"));
    assert!(!str_is("abc", "abd"));
    assert!(!str_is("ab", "abc"));
    assert!(str_is("", ""));
    assert_eq!(require_value("x", Some(1)).unwrap(), 1);
}

#[test]
fn cache_parses_once() {
    let mut meta: PropertyMeta<u32> = PropertyMeta::new();
    let calls = Cell::new(0);
    let first = meta.get_or_parse(1, 2, || {
        calls.set(calls.get() + 1);
        Some(Ok(5))
    });
    assert!(matches!(first, CacheState::Parsed(5)));
    let second = meta.get_or_parse(1, 2, || {
        calls.set(calls.get() + 1);
        Some(Ok(9))
    });
    assert!(matches!(second, CacheState::Parsed(5)));
    assert_eq!(calls.get(), 1);
}

#[test]
fn cache_remembers_errors_and_missing_values() {
    let mut meta: PropertyMeta<u32> = PropertyMeta::new();
    let failed = meta.get_or_parse(1, 1, || Some(Err(BevyCssError::InvalidPropertyValue("color".to_string()))));
    assert!(matches!(failed, CacheState::Failed));
    assert!(matches!(meta.get_or_parse(1, 1, || Some(Ok(3))), CacheState::Failed));
    assert!(matches!(meta.get_or_parse(2, 1, || None), CacheState::Unset));
    assert!(matches!(meta.get_or_parse(2, 1, || Some(Ok(3))), CacheState::Unset));
    assert!(matches!(meta.get_or_parse(1, 2, || Some(Ok(3))), CacheState::Parsed(3)));
}

#[test]
fn decoding_style_sheet_text() {
    assert_eq!(decode_style_sheet(&b"a { color: red; }".to_vec()).unwrap(), "a { color: red; }");
    assert_eq!(decode_style_sheet(&"é".as_bytes().to_vec()).unwrap(), "é");
    assert!(decode_style_sheet(&vec![0xff, 0x41]).is_err());
    assert_eq!(extensions(), vec!["css"]);
}

#[test]
fn refresh_sheets_per_modified_asset() {
    assert_eq!(sheets_to_refresh(&vec![7, 8], &vec![8, 7, 7]), vec![1, 2, 0]);
    assert!(sheets_to_refresh(&vec![9], &vec![8, 7]).is_empty());
}

#[test]
fn rule_text_is_its_selector() {
    let mut counter = RuleCounter::new();
    let s = Selector::from_tokens(&vec!["#a".to_string(), ".".to_string(), "b".to_string()], &mut counter);
    let rule: StyleRule<u8> = StyleRule::new(s);
    assert_eq!(rule.to_css_string(), "#a.b");
    assert!(rule.properties.is_empty());
}
