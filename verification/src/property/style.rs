//! Properties of UI nodes: the keyword properties map an identifier to one of their
//! values; the others take the value that their kind of value parses to.
use super::{require_value, str_is, BevyCssError};
use crate::keyed::{key_index, lemma_key_facts, lemma_key_first};
use vstd::prelude::*;

verus! {

/// The value the first entry with keyword `ident` maps to.
pub open spec fn keyword_value<T>(table: Seq<(Seq<char>, T)>, ident: Seq<char>) -> Option<T> {
    match key_index(table, ident) {
        Some(i) => Some(table[i].1),
        None => None,
    }
}

/// What parsing an identifier against a keyword table gives: the keyword's value, or an
/// invalid value error naming the property.
pub open spec fn keyword_parsed<T>(
    table: Seq<(Seq<char>, T)>,
    name: Seq<char>,
    identifier: Option<Seq<char>>,
    r: Result<T, BevyCssError>,
) -> bool {
    match identifier {
        Some(s) => match keyword_value(table, s) {
            Some(v) => r == Ok::<T, BevyCssError>(v),
            None => r matches Err(BevyCssError::InvalidPropertyValue(n)) && n@ == name,
        },
        None => r matches Err(BevyCssError::InvalidPropertyValue(n)) && n@ == name,
    }
}

pub open spec fn str_option_view(s: Option<&str>) -> Option<Seq<char>> {
    match s {
        Some(v) => Some(v@),
        None => None,
    }
}

pub open spec fn table_view<T>(table: Seq<(&str, T)>) -> Seq<(Seq<char>, T)> {
    table.map_values(|p: (&str, T)| (p.0@, p.1))
}

/// Looks the identifier up in a keyword table (see [`keyword_parsed`]).
pub fn parse_keyword<T: Copy>(name: &str, identifier: Option<&str>, table: &Vec<(&str, T)>) -> (r: Result<T, BevyCssError>)
    ensures
        keyword_parsed(table_view(table@), name@, str_option_view(identifier), r),
{
    let ghost tv = table_view(table@);
    match identifier {
        Some(ident) => {
            let n = table.len();
            for i in 0..n
                invariant
                    n == table@.len(),
                    tv == table_view(table@),
                    identifier == Some(ident),
                    forall|j: int| 0 <= j < i ==> tv[j].0 != ident@,
            {
                assert(tv[i as int] == (table@[i as int].0@, table@[i as int].1));
                if str_is(ident, table[i].0) {
                    proof { lemma_key_first(tv, ident@, i as int); }
                    return Ok(table[i].1);
                }
            }
            proof { lemma_key_facts(tv, ident@); }
            require_value(name, None)
        },
        None => require_value(name, None),
    }
}

/// The values of the `display` property.
#[derive(Clone, Copy, Debug, PartialEq, Eq, Structural)]
pub enum Display {
    Flex,
    Hidden,
}

/// The `display` property: takes one of the keywords `flex`, `none`.
pub struct DisplayProperty;

impl DisplayProperty {
    /// The keywords of the property and the values they stand for.
    pub open spec fn keywords() -> Seq<(Seq<char>, Display)> {
        seq![("flex"@, Display::Flex), ("none"@, Display::Hidden)]
    }

    /// The property's name.
    pub fn name() -> (r: &'static str)
        ensures
            r@ == "display"@,
    {
        "display"
    }

    /// Parses the identifier of a `display` declaration.
    pub fn parse(identifier: Option<&str>) -> (r: Result<Display, BevyCssError>)
        ensures
            keyword_parsed(Self::keywords(), "display"@, str_option_view(identifier), r),
    {
        let table = vec![("flex", Display::Flex), ("none", Display::Hidden)];
        assert(table_view(table@) =~= Self::keywords());
        parse_keyword(Self::name(), identifier, &table)
    }
}

/// The values of the `position-type` property.
#[derive(Clone, Copy, Debug, PartialEq, Eq, Structural)]
pub enum PositionType {
    Absolute,
    Relative,
}

/// The `position-type` property: takes one of the keywords `absolute`, `relative`.
pub struct PositionTypeProperty;

impl PositionTypeProperty {
    /// The keywords of the property and the values they stand for.
    pub open spec fn keywords() -> Seq<(Seq<char>, PositionType)> {
        seq![("absolute"@, PositionType::Absolute), ("relative"@, PositionType::Relative)]
    }

    /// The property's name.
    pub fn name() -> (r: &'static str)
        ensures
            r@ == "position-type"@,
    {
        "position-type"
    }

    /// Parses the identifier of a `position-type` declaration.
    pub fn parse(identifier: Option<&str>) -> (r: Result<PositionType, BevyCssError>)
        ensures
            keyword_parsed(Self::keywords(), "position-type"@, str_option_view(identifier), r),
    {
        let table = vec![("absolute", PositionType::Absolute), ("relative", PositionType::Relative)];
        assert(table_view(table@) =~= Self::keywords());
        parse_keyword(Self::name(), identifier, &table)
    }
}

/// The values of the `flex-direction` property.
#[derive(Clone, Copy, Debug, PartialEq, Eq, Structural)]
pub enum FlexDirection {
    Row,
    Column,
    RowReverse,
    ColumnReverse,
}

/// The `flex-direction` property: takes one of the keywords `row`, `column`, `row-reverse`, `column-reverse`.
pub struct FlexDirectionProperty;

impl FlexDirectionProperty {
    /// The keywords of the property and the values they stand for.
    pub open spec fn keywords() -> Seq<(Seq<char>, FlexDirection)> {
        seq![("row"@, FlexDirection::Row), ("column"@, FlexDirection::Column), ("row-reverse"@, FlexDirection::RowReverse), ("column-reverse"@, FlexDirection::ColumnReverse)]
    }

    /// The property's name.
    pub fn name() -> (r: &'static str)
        ensures
            r@ == "flex-direction"@,
    {
        "flex-direction"
    }

    /// Parses the identifier of a `flex-direction` declaration.
    pub fn parse(identifier: Option<&str>) -> (r: Result<FlexDirection, BevyCssError>)
        ensures
            keyword_parsed(Self::keywords(), "flex-direction"@, str_option_view(identifier), r),
    {
        let table = vec![("row", FlexDirection::Row), ("column", FlexDirection::Column), ("row-reverse", FlexDirection::RowReverse), ("column-reverse", FlexDirection::ColumnReverse)];
        assert(table_view(table@) =~= Self::keywords());
        parse_keyword(Self::name(), identifier, &table)
    }
}

/// The values of the `flex-wrap` property.
#[derive(Clone, Copy, Debug, PartialEq, Eq, Structural)]
pub enum FlexWrap {
    NoWrap,
    Wrap,
    WrapReverse,
}

/// The `flex-wrap` property: takes one of the keywords `no-wrap`, `wrap`, `wrap-reverse`.
pub struct FlexWrapProperty;

impl FlexWrapProperty {
    /// The keywords of the property and the values they stand for.
    pub open spec fn keywords() -> Seq<(Seq<char>, FlexWrap)> {
        seq![("no-wrap"@, FlexWrap::NoWrap), ("wrap"@, FlexWrap::Wrap), ("wrap-reverse"@, FlexWrap::WrapReverse)]
    }

    /// The property's name.
    pub fn name() -> (r: &'static str)
        ensures
            r@ == "flex-wrap"@,
    {
        "flex-wrap"
    }

    /// Parses the identifier of a `flex-wrap` declaration.
    pub fn parse(identifier: Option<&str>) -> (r: Result<FlexWrap, BevyCssError>)
        ensures
            keyword_parsed(Self::keywords(), "flex-wrap"@, str_option_view(identifier), r),
    {
        let table = vec![("no-wrap", FlexWrap::NoWrap), ("wrap", FlexWrap::Wrap), ("wrap-reverse", FlexWrap::WrapReverse)];
        assert(table_view(table@) =~= Self::keywords());
        parse_keyword(Self::name(), identifier, &table)
    }
}

/// The values of the `align-items` property.
#[derive(Clone, Copy, Debug, PartialEq, Eq, Structural)]
pub enum AlignItems {
    FlexStart,
    FlexEnd,
    Center,
    Baseline,
    Stretch,
}

/// The `align-items` property: takes one of the keywords `flex-start`, `flex-end`, `center`, `baseline`, `stretch`.
pub struct AlignItemsProperty;

impl AlignItemsProperty {
    /// The keywords of the property and the values they stand for.
    pub open spec fn keywords() -> Seq<(Seq<char>, AlignItems)> {
        seq![("flex-start"@, AlignItems::FlexStart), ("flex-end"@, AlignItems::FlexEnd), ("center"@, AlignItems::Center), ("baseline"@, AlignItems::Baseline), ("stretch"@, AlignItems::Stretch)]
    }

    /// The property's name.
    pub fn name() -> (r: &'static str)
        ensures
            r@ == "align-items"@,
    {
        "align-items"
    }

    /// Parses the identifier of a `align-items` declaration.
    pub fn parse(identifier: Option<&str>) -> (r: Result<AlignItems, BevyCssError>)
        ensures
            keyword_parsed(Self::keywords(), "align-items"@, str_option_view(identifier), r),
    {
        let table = vec![("flex-start", AlignItems::FlexStart), ("flex-end", AlignItems::FlexEnd), ("center", AlignItems::Center), ("baseline", AlignItems::Baseline), ("stretch", AlignItems::Stretch)];
        assert(table_view(table@) =~= Self::keywords());
        parse_keyword(Self::name(), identifier, &table)
    }
}

/// The values of the `align-self` property.
#[derive(Clone, Copy, Debug, PartialEq, Eq, Structural)]
pub enum AlignSelf {
    Auto,
    FlexStart,
    FlexEnd,
    Center,
    Baseline,
    Stretch,
}

/// The `align-self` property: takes one of the keywords `auto`, `flex-start`, `flex-end`, `center`, `baseline`, `stretch`.
pub struct AlignSelfProperty;

impl AlignSelfProperty {
    /// The keywords of the property and the values they stand for.
    pub open spec fn keywords() -> Seq<(Seq<char>, AlignSelf)> {
        seq![("auto"@, AlignSelf::Auto), ("flex-start"@, AlignSelf::FlexStart), ("flex-end"@, AlignSelf::FlexEnd), ("center"@, AlignSelf::Center), ("baseline"@, AlignSelf::Baseline), ("stretch"@, AlignSelf::Stretch)]
    }

    /// The property's name.
    pub fn name() -> (r: &'static str)
        ensures
            r@ == "align-self"@,
    {
        "align-self"
    }

    /// Parses the identifier of a `align-self` declaration.
    pub fn parse(identifier: Option<&str>) -> (r: Result<AlignSelf, BevyCssError>)
        ensures
            keyword_parsed(Self::keywords(), "align-self"@, str_option_view(identifier), r),
    {
        let table = vec![("auto", AlignSelf::Auto), ("flex-start", AlignSelf::FlexStart), ("flex-end", AlignSelf::FlexEnd), ("center", AlignSelf::Center), ("baseline", AlignSelf::Baseline), ("stretch", AlignSelf::Stretch)];
        assert(table_view(table@) =~= Self::keywords());
        parse_keyword(Self::name(), identifier, &table)
    }
}

/// The values of the `align-content` property.
#[derive(Clone, Copy, Debug, PartialEq, Eq, Structural)]
pub enum AlignContent {
    FlexStart,
    FlexEnd,
    Center,
    Stretch,
    SpaceBetween,
    SpaceAround,
}

/// The `align-content` property: takes one of the keywords `flex-start`, `flex-end`, `center`, `stretch`, `space-between`, `space-around`.
pub struct AlignContentProperty;

impl AlignContentProperty {
    /// The keywords of the property and the values they stand for.
    pub open spec fn keywords() -> Seq<(Seq<char>, AlignContent)> {
        seq![("flex-start"@, AlignContent::FlexStart), ("flex-end"@, AlignContent::FlexEnd), ("center"@, AlignContent::Center), ("stretch"@, AlignContent::Stretch), ("space-between"@, AlignContent::SpaceBetween), ("space-around"@, AlignContent::SpaceAround)]
    }

    /// The property's name.
    pub fn name() -> (r: &'static str)
        ensures
            r@ == "align-content"@,
    {
        "align-content"
    }

    /// Parses the identifier of a `align-content` declaration.
    pub fn parse(identifier: Option<&str>) -> (r: Result<AlignContent, BevyCssError>)
        ensures
            keyword_parsed(Self::keywords(), "align-content"@, str_option_view(identifier), r),
    {
        let table = vec![("flex-start", AlignContent::FlexStart), ("flex-end", AlignContent::FlexEnd), ("center", AlignContent::Center), ("stretch", AlignContent::Stretch), ("space-between", AlignContent::SpaceBetween), ("space-around", AlignContent::SpaceAround)];
        assert(table_view(table@) =~= Self::keywords());
        parse_keyword(Self::name(), identifier, &table)
    }
}

/// The values of the `justify-content` property.
#[derive(Clone, Copy, Debug, PartialEq, Eq, Structural)]
pub enum JustifyContent {
    FlexStart,
    FlexEnd,
    Center,
    SpaceBetween,
    SpaceAround,
    SpaceEvenly,
}

/// The `justify-content` property: takes one of the keywords `flex-start`, `flex-end`, `center`, `space-between`, `space-around`, `space-evenly`.
pub struct JustifyContentProperty;

impl JustifyContentProperty {
    /// The keywords of the property and the values they stand for.
    pub open spec fn keywords() -> Seq<(Seq<char>, JustifyContent)> {
        seq![("flex-start"@, JustifyContent::FlexStart), ("flex-end"@, JustifyContent::FlexEnd), ("center"@, JustifyContent::Center), ("space-between"@, JustifyContent::SpaceBetween), ("space-around"@, JustifyContent::SpaceAround), ("space-evenly"@, JustifyContent::SpaceEvenly)]
    }

    /// The property's name.
    pub fn name() -> (r: &'static str)
        ensures
            r@ == "justify-content"@,
    {
        "justify-content"
    }

    /// Parses the identifier of a `justify-content` declaration.
    pub fn parse(identifier: Option<&str>) -> (r: Result<JustifyContent, BevyCssError>)
        ensures
            keyword_parsed(Self::keywords(), "justify-content"@, str_option_view(identifier), r),
    {
        let table = vec![("flex-start", JustifyContent::FlexStart), ("flex-end", JustifyContent::FlexEnd), ("center", JustifyContent::Center), ("space-between", JustifyContent::SpaceBetween), ("space-around", JustifyContent::SpaceAround), ("space-evenly", JustifyContent::SpaceEvenly)];
        assert(table_view(table@) =~= Self::keywords());
        parse_keyword(Self::name(), identifier, &table)
    }
}

/// The `margin` property: takes a rect.
pub struct MarginProperty;

impl MarginProperty {
    /// The property's name.
    pub fn name() -> (r: &'static str)
        ensures
            r@ == "margin"@,
    {
        "margin"
    }

    /// Takes the parsed value of a `margin` declaration; none is an invalid value.
    pub fn parse<T>(value: Option<T>) -> (r: Result<T, BevyCssError>)
        ensures
            match value {
                Some(v) => r == Ok::<T, BevyCssError>(v),
                None => r matches Err(BevyCssError::InvalidPropertyValue(n)) && n@ == "margin"@,
            },
    {
        require_value(Self::name(), value)
    }
}

/// The `padding` property: takes a rect.
pub struct PaddingProperty;

impl PaddingProperty {
    /// The property's name.
    pub fn name() -> (r: &'static str)
        ensures
            r@ == "padding"@,
    {
        "padding"
    }

    /// Takes the parsed value of a `padding` declaration; none is an invalid value.
    pub fn parse<T>(value: Option<T>) -> (r: Result<T, BevyCssError>)
        ensures
            match value {
                Some(v) => r == Ok::<T, BevyCssError>(v),
                None => r matches Err(BevyCssError::InvalidPropertyValue(n)) && n@ == "padding"@,
            },
    {
        require_value(Self::name(), value)
    }
}

/// The `border` property: takes a rect.
pub struct BorderWidthProperty;

impl BorderWidthProperty {
    /// The property's name.
    pub fn name() -> (r: &'static str)
        ensures
            r@ == "border"@,
    {
        "border"
    }

    /// Takes the parsed value of a `border` declaration; none is an invalid value.
    pub fn parse<T>(value: Option<T>) -> (r: Result<T, BevyCssError>)
        ensures
            match value {
                Some(v) => r == Ok::<T, BevyCssError>(v),
                None => r matches Err(BevyCssError::InvalidPropertyValue(n)) && n@ == "border"@,
            },
    {
        require_value(Self::name(), value)
    }
}

/// The `left` property: takes a length.
pub struct LeftProperty;

impl LeftProperty {
    /// The property's name.
    pub fn name() -> (r: &'static str)
        ensures
            r@ == "left"@,
    {
        "left"
    }

    /// Takes the parsed value of a `left` declaration; none is an invalid value.
    pub fn parse<T>(value: Option<T>) -> (r: Result<T, BevyCssError>)
        ensures
            match value {
                Some(v) => r == Ok::<T, BevyCssError>(v),
                None => r matches Err(BevyCssError::InvalidPropertyValue(n)) && n@ == "left"@,
            },
    {
        require_value(Self::name(), value)
    }
}

/// The `right` property: takes a length.
pub struct RightProperty;

impl RightProperty {
    /// The property's name.
    pub fn name() -> (r: &'static str)
        ensures
            r@ == "right"@,
    {
        "right"
    }

    /// Takes the parsed value of a `right` declaration; none is an invalid value.
    pub fn parse<T>(value: Option<T>) -> (r: Result<T, BevyCssError>)
        ensures
            match value {
                Some(v) => r == Ok::<T, BevyCssError>(v),
                None => r matches Err(BevyCssError::InvalidPropertyValue(n)) && n@ == "right"@,
            },
    {
        require_value(Self::name(), value)
    }
}

/// The `top` property: takes a length.
pub struct TopProperty;

impl TopProperty {
    /// The property's name.
    pub fn name() -> (r: &'static str)
        ensures
            r@ == "top"@,
    {
        "top"
    }

    /// Takes the parsed value of a `top` declaration; none is an invalid value.
    pub fn parse<T>(value: Option<T>) -> (r: Result<T, BevyCssError>)
        ensures
            match value {
                Some(v) => r == Ok::<T, BevyCssError>(v),
                None => r matches Err(BevyCssError::InvalidPropertyValue(n)) && n@ == "top"@,
            },
    {
        require_value(Self::name(), value)
    }
}

/// The `bottom` property: takes a length.
pub struct BottomProperty;

impl BottomProperty {
    /// The property's name.
    pub fn name() -> (r: &'static str)
        ensures
            r@ == "bottom"@,
    {
        "bottom"
    }

    /// Takes the parsed value of a `bottom` declaration; none is an invalid value.
    pub fn parse<T>(value: Option<T>) -> (r: Result<T, BevyCssError>)
        ensures
            match value {
                Some(v) => r == Ok::<T, BevyCssError>(v),
                None => r matches Err(BevyCssError::InvalidPropertyValue(n)) && n@ == "bottom"@,
            },
    {
        require_value(Self::name(), value)
    }
}

/// The `width` property: takes a length.
pub struct WidthProperty;

impl WidthProperty {
    /// The property's name.
    pub fn name() -> (r: &'static str)
        ensures
            r@ == "width"@,
    {
        "width"
    }

    /// Takes the parsed value of a `width` declaration; none is an invalid value.
    pub fn parse<T>(value: Option<T>) -> (r: Result<T, BevyCssError>)
        ensures
            match value {
                Some(v) => r == Ok::<T, BevyCssError>(v),
                None => r matches Err(BevyCssError::InvalidPropertyValue(n)) && n@ == "width"@,
            },
    {
        require_value(Self::name(), value)
    }
}

/// The `height` property: takes a length.
pub struct HeightProperty;

impl HeightProperty {
    /// The property's name.
    pub fn name() -> (r: &'static str)
        ensures
            r@ == "height"@,
    {
        "height"
    }

    /// Takes the parsed value of a `height` declaration; none is an invalid value.
    pub fn parse<T>(value: Option<T>) -> (r: Result<T, BevyCssError>)
        ensures
            match value {
                Some(v) => r == Ok::<T, BevyCssError>(v),
                None => r matches Err(BevyCssError::InvalidPropertyValue(n)) && n@ == "height"@,
            },
    {
        require_value(Self::name(), value)
    }
}

/// The `min-width` property: takes a length.
pub struct MinWidthProperty;

impl MinWidthProperty {
    /// The property's name.
    pub fn name() -> (r: &'static str)
        ensures
            r@ == "min-width"@,
    {
        "min-width"
    }

    /// Takes the parsed value of a `min-width` declaration; none is an invalid value.
    pub fn parse<T>(value: Option<T>) -> (r: Result<T, BevyCssError>)
        ensures
            match value {
                Some(v) => r == Ok::<T, BevyCssError>(v),
                None => r matches Err(BevyCssError::InvalidPropertyValue(n)) && n@ == "min-width"@,
            },
    {
        require_value(Self::name(), value)
    }
}

/// The `min-height` property: takes a length.
pub struct MinHeightProperty;

impl MinHeightProperty {
    /// The property's name.
    pub fn name() -> (r: &'static str)
        ensures
            r@ == "min-height"@,
    {
        "min-height"
    }

    /// Takes the parsed value of a `min-height` declaration; none is an invalid value.
    pub fn parse<T>(value: Option<T>) -> (r: Result<T, BevyCssError>)
        ensures
            match value {
                Some(v) => r == Ok::<T, BevyCssError>(v),
                None => r matches Err(BevyCssError::InvalidPropertyValue(n)) && n@ == "min-height"@,
            },
    {
        require_value(Self::name(), value)
    }
}

/// The `max-width` property: takes a length.
pub struct MaxWidthProperty;

impl MaxWidthProperty {
    /// The property's name.
    pub fn name() -> (r: &'static str)
        ensures
            r@ == "max-width"@,
    {
        "max-width"
    }

    /// Takes the parsed value of a `max-width` declaration; none is an invalid value.
    pub fn parse<T>(value: Option<T>) -> (r: Result<T, BevyCssError>)
        ensures
            match value {
                Some(v) => r == Ok::<T, BevyCssError>(v),
                None => r matches Err(BevyCssError::InvalidPropertyValue(n)) && n@ == "max-width"@,
            },
    {
        require_value(Self::name(), value)
    }
}

/// The `max-height` property: takes a length.
pub struct MaxHeightProperty;

impl MaxHeightProperty {
    /// The property's name.
    pub fn name() -> (r: &'static str)
        ensures
            r@ == "max-height"@,
    {
        "max-height"
    }

    /// Takes the parsed value of a `max-height` declaration; none is an invalid value.
    pub fn parse<T>(value: Option<T>) -> (r: Result<T, BevyCssError>)
        ensures
            match value {
                Some(v) => r == Ok::<T, BevyCssError>(v),
                None => r matches Err(BevyCssError::InvalidPropertyValue(n)) && n@ == "max-height"@,
            },
    {
        require_value(Self::name(), value)
    }
}

/// The `flex-basis` property: takes a length.
pub struct FlexBasisProperty;

impl FlexBasisProperty {
    /// The property's name.
    pub fn name() -> (r: &'static str)
        ensures
            r@ == "flex-basis"@,
    {
        "flex-basis"
    }

    /// Takes the parsed value of a `flex-basis` declaration; none is an invalid value.
    pub fn parse<T>(value: Option<T>) -> (r: Result<T, BevyCssError>)
        ensures
            match value {
                Some(v) => r == Ok::<T, BevyCssError>(v),
                None => r matches Err(BevyCssError::InvalidPropertyValue(n)) && n@ == "flex-basis"@,
            },
    {
        require_value(Self::name(), value)
    }
}

/// The `flex-grow` property: takes a number.
pub struct FlexGrowProperty;

impl FlexGrowProperty {
    /// The property's name.
    pub fn name() -> (r: &'static str)
        ensures
            r@ == "flex-grow"@,
    {
        "flex-grow"
    }

    /// Takes the parsed value of a `flex-grow` declaration; none is an invalid value.
    pub fn parse<T>(value: Option<T>) -> (r: Result<T, BevyCssError>)
        ensures
            match value {
                Some(v) => r == Ok::<T, BevyCssError>(v),
                None => r matches Err(BevyCssError::InvalidPropertyValue(n)) && n@ == "flex-grow"@,
            },
    {
        require_value(Self::name(), value)
    }
}

/// The `flex-shrink` property: takes a number.
pub struct FlexShrinkProperty;

impl FlexShrinkProperty {
    /// The property's name.
    pub fn name() -> (r: &'static str)
        ensures
            r@ == "flex-shrink"@,
    {
        "flex-shrink"
    }

    /// Takes the parsed value of a `flex-shrink` declaration; none is an invalid value.
    pub fn parse<T>(value: Option<T>) -> (r: Result<T, BevyCssError>)
        ensures
            match value {
                Some(v) => r == Ok::<T, BevyCssError>(v),
                None => r matches Err(BevyCssError::InvalidPropertyValue(n)) && n@ == "flex-shrink"@,
            },
    {
        require_value(Self::name(), value)
    }
}

/// The `aspect-ratio` property: takes an optional number.
pub struct AspectRatioProperty;

impl AspectRatioProperty {
    /// The property's name.
    pub fn name() -> (r: &'static str)
        ensures
            r@ == "aspect-ratio"@,
    {
        "aspect-ratio"
    }

    /// Takes the parsed value of a `aspect-ratio` declaration; none is an invalid value.
    pub fn parse<T>(value: Option<T>) -> (r: Result<T, BevyCssError>)
        ensures
            match value {
                Some(v) => r == Ok::<T, BevyCssError>(v),
                None => r matches Err(BevyCssError::InvalidPropertyValue(n)) && n@ == "aspect-ratio"@,
            },
    {
        require_value(Self::name(), value)
    }
}

/// The `overflow-x` property: takes an overflow mode.
pub struct OverflowXProperty;

impl OverflowXProperty {
    /// The property's name.
    pub fn name() -> (r: &'static str)
        ensures
            r@ == "overflow-x"@,
    {
        "overflow-x"
    }

    /// Takes the parsed value of a `overflow-x` declaration; none is an invalid value.
    pub fn parse<T>(value: Option<T>) -> (r: Result<T, BevyCssError>)
        ensures
            match value {
                Some(v) => r == Ok::<T, BevyCssError>(v),
                None => r matches Err(BevyCssError::InvalidPropertyValue(n)) && n@ == "overflow-x"@,
            },
    {
        require_value(Self::name(), value)
    }
}

/// The `overflow-y` property: takes an overflow mode.
pub struct OverflowYProperty;

impl OverflowYProperty {
    /// The property's name.
    pub fn name() -> (r: &'static str)
        ensures
            r@ == "overflow-y"@,
    {
        "overflow-y"
    }

    /// Takes the parsed value of a `overflow-y` declaration; none is an invalid value.
    pub fn parse<T>(value: Option<T>) -> (r: Result<T, BevyCssError>)
        ensures
            match value {
                Some(v) => r == Ok::<T, BevyCssError>(v),
                None => r matches Err(BevyCssError::InvalidPropertyValue(n)) && n@ == "overflow-y"@,
            },
    {
        require_value(Self::name(), value)
    }
}

/// The `background-color` property: takes a color.
pub struct BackgroundColorProperty;

impl BackgroundColorProperty {
    /// The property's name.
    pub fn name() -> (r: &'static str)
        ensures
            r@ == "background-color"@,
    {
        "background-color"
    }

    /// Takes the parsed value of a `background-color` declaration; none is an invalid value.
    pub fn parse<T>(value: Option<T>) -> (r: Result<T, BevyCssError>)
        ensures
            match value {
                Some(v) => r == Ok::<T, BevyCssError>(v),
                None => r matches Err(BevyCssError::InvalidPropertyValue(n)) && n@ == "background-color"@,
            },
    {
        require_value(Self::name(), value)
    }
}

/// The `border-radius` property: takes a border radius.
pub struct BorderRadiusProperty;

impl BorderRadiusProperty {
    /// The property's name.
    pub fn name() -> (r: &'static str)
        ensures
            r@ == "border-radius"@,
    {
        "border-radius"
    }

    /// Takes the parsed value of a `border-radius` declaration; none is an invalid value.
    pub fn parse<T>(value: Option<T>) -> (r: Result<T, BevyCssError>)
        ensures
            match value {
                Some(v) => r == Ok::<T, BevyCssError>(v),
                None => r matches Err(BevyCssError::InvalidPropertyValue(n)) && n@ == "border-radius"@,
            },
    {
        require_value(Self::name(), value)
    }
}

/// The `border-color` property: takes a color.
pub struct BorderColorProperty;

impl BorderColorProperty {
    /// The property's name.
    pub fn name() -> (r: &'static str)
        ensures
            r@ == "border-color"@,
    {
        "border-color"
    }

    /// Takes the parsed value of a `border-color` declaration; none is an invalid value.
    pub fn parse<T>(value: Option<T>) -> (r: Result<T, BevyCssError>)
        ensures
            match value {
                Some(v) => r == Ok::<T, BevyCssError>(v),
                None => r matches Err(BevyCssError::InvalidPropertyValue(n)) && n@ == "border-color"@,
            },
    {
        require_value(Self::name(), value)
    }
}


/// In a table whose keywords all differ, a keyword stands for its own value, and an
/// identifier that is no keyword stands for nothing.
pub proof fn lemma_keyword_table<T>(table: Seq<(Seq<char>, T)>, identifier: Option<Seq<char>>)
    requires
        forall|i: int, j: int| 0 <= i < j < table.len() ==> table[i].0 != table[j].0,
    ensures
        identifier matches Some(s) ==> (forall|i: int|
            0 <= i < table.len() && table[i].0 == s ==> keyword_value(table, s) == Some(table[i].1)),
        identifier matches Some(s) ==> (keyword_value(table, s) matches Some(v) ==> exists|i: int|
            0 <= i < table.len() && table[i].0 == s && table[i].1 == v),
        identifier matches Some(s) ==> ((forall|i: int| 0 <= i < table.len() ==> table[i].0 != s)
            ==> keyword_value(table, s) is None),
{
    match identifier {
        Some(s) => {
            lemma_key_facts(table, s);
            assert forall|i: int| 0 <= i < table.len() && table[i].0 == s implies keyword_value(table, s)
                == Some(table[i].1) by {
                let k = key_index(table, s)->0;
                if k < i {
                    assert(table[k].0 != table[i].0);
                } else if i < k {
                    assert(table[i].0 != table[k].0);
                }
            }
        },
        None => {},
    }
}

/// `display` takes `flex` to `Flex`, `none` to `Hidden`; any other identifier, or none, is an invalid value.
pub proof fn lemma_display_keywords(identifier: Option<Seq<char>>, r: Result<Display, BevyCssError>)
    requires
        keyword_parsed(DisplayProperty::keywords(), "display"@, identifier, r),
    ensures
        r == Ok::<Display, BevyCssError>(Display::Flex) <==> identifier == Some("flex"@),
        r == Ok::<Display, BevyCssError>(Display::Hidden) <==> identifier == Some("none"@),
        r is Err <==> !(identifier == Some("flex"@) || identifier == Some("none"@)),
{
    reveal_strlit("flex");
    reveal_strlit("none");
    assert("flex"@[0] != "none"@[0]);
    lemma_keyword_table(DisplayProperty::keywords(), identifier);
}

/// `position-type` takes `absolute` to `Absolute`, `relative` to `Relative`; any other identifier, or none, is an invalid value.
pub proof fn lemma_position_type_keywords(identifier: Option<Seq<char>>, r: Result<PositionType, BevyCssError>)
    requires
        keyword_parsed(PositionTypeProperty::keywords(), "position-type"@, identifier, r),
    ensures
        r == Ok::<PositionType, BevyCssError>(PositionType::Absolute) <==> identifier == Some("absolute"@),
        r == Ok::<PositionType, BevyCssError>(PositionType::Relative) <==> identifier == Some("relative"@),
        r is Err <==> !(identifier == Some("absolute"@) || identifier == Some("relative"@)),
{
    reveal_strlit("absolute");
    reveal_strlit("relative");
    assert("absolute"@[0] != "relative"@[0]);
    lemma_keyword_table(PositionTypeProperty::keywords(), identifier);
}

/// `flex-direction` takes `row` to `Row`, `column` to `Column`, `row-reverse` to `RowReverse`, `column-reverse` to `ColumnReverse`; any other identifier, or none, is an invalid value.
pub proof fn lemma_flex_direction_keywords(identifier: Option<Seq<char>>, r: Result<FlexDirection, BevyCssError>)
    requires
        keyword_parsed(FlexDirectionProperty::keywords(), "flex-direction"@, identifier, r),
    ensures
        r == Ok::<FlexDirection, BevyCssError>(FlexDirection::Row) <==> identifier == Some("row"@),
        r == Ok::<FlexDirection, BevyCssError>(FlexDirection::Column) <==> identifier == Some("column"@),
        r == Ok::<FlexDirection, BevyCssError>(FlexDirection::RowReverse) <==> identifier == Some("row-reverse"@),
        r == Ok::<FlexDirection, BevyCssError>(FlexDirection::ColumnReverse) <==> identifier == Some("column-reverse"@),
        r is Err <==> !(identifier == Some("row"@) || identifier == Some("column"@) || identifier == Some("row-reverse"@) || identifier == Some("column-reverse"@)),
{
    reveal_strlit("row");
    reveal_strlit("column");
    reveal_strlit("row-reverse");
    reveal_strlit("column-reverse");
    assert("row"@.len() != "column"@.len());
    assert("row"@.len() != "row-reverse"@.len());
    assert("row"@.len() != "column-reverse"@.len());
    assert("column"@.len() != "row-reverse"@.len());
    assert("column"@.len() != "column-reverse"@.len());
    assert("row-reverse"@.len() != "column-reverse"@.len());
    lemma_keyword_table(FlexDirectionProperty::keywords(), identifier);
}

/// `flex-wrap` takes `no-wrap` to `NoWrap`, `wrap` to `Wrap`, `wrap-reverse` to `WrapReverse`; any other identifier, or none, is an invalid value.
pub proof fn lemma_flex_wrap_keywords(identifier: Option<Seq<char>>, r: Result<FlexWrap, BevyCssError>)
    requires
        keyword_parsed(FlexWrapProperty::keywords(), "flex-wrap"@, identifier, r),
    ensures
        r == Ok::<FlexWrap, BevyCssError>(FlexWrap::NoWrap) <==> identifier == Some("no-wrap"@),
        r == Ok::<FlexWrap, BevyCssError>(FlexWrap::Wrap) <==> identifier == Some("wrap"@),
        r == Ok::<FlexWrap, BevyCssError>(FlexWrap::WrapReverse) <==> identifier == Some("wrap-reverse"@),
        r is Err <==> !(identifier == Some("no-wrap"@) || identifier == Some("wrap"@) || identifier == Some("wrap-reverse"@)),
{
    reveal_strlit("no-wrap");
    reveal_strlit("wrap");
    reveal_strlit("wrap-reverse");
    assert("no-wrap"@.len() != "wrap"@.len());
    assert("no-wrap"@.len() != "wrap-reverse"@.len());
    assert("wrap"@.len() != "wrap-reverse"@.len());
    lemma_keyword_table(FlexWrapProperty::keywords(), identifier);
}

/// `align-items` takes `flex-start` to `FlexStart`, `flex-end` to `FlexEnd`, `center` to `Center`, `baseline` to `Baseline`, `stretch` to `Stretch`; any other identifier, or none, is an invalid value.
pub proof fn lemma_align_items_keywords(identifier: Option<Seq<char>>, r: Result<AlignItems, BevyCssError>)
    requires
        keyword_parsed(AlignItemsProperty::keywords(), "align-items"@, identifier, r),
    ensures
        r == Ok::<AlignItems, BevyCssError>(AlignItems::FlexStart) <==> identifier == Some("flex-start"@),
        r == Ok::<AlignItems, BevyCssError>(AlignItems::FlexEnd) <==> identifier == Some("flex-end"@),
        r == Ok::<AlignItems, BevyCssError>(AlignItems::Center) <==> identifier == Some("center"@),
        r == Ok::<AlignItems, BevyCssError>(AlignItems::Baseline) <==> identifier == Some("baseline"@),
        r == Ok::<AlignItems, BevyCssError>(AlignItems::Stretch) <==> identifier == Some("stretch"@),
        r is Err <==> !(identifier == Some("flex-start"@) || identifier == Some("flex-end"@) || identifier == Some("center"@) || identifier == Some("baseline"@) || identifier == Some("stretch"@)),
{
    reveal_strlit("flex-start");
    reveal_strlit("flex-end");
    reveal_strlit("center");
    reveal_strlit("baseline");
    reveal_strlit("stretch");
    assert("flex-start"@.len() != "flex-end"@.len());
    assert("flex-start"@.len() != "center"@.len());
    assert("flex-start"@.len() != "baseline"@.len());
    assert("flex-start"@.len() != "stretch"@.len());
    assert("flex-end"@.len() != "center"@.len());
    assert("flex-end"@[0] != "baseline"@[0]);
    assert("flex-end"@.len() != "stretch"@.len());
    assert("center"@.len() != "baseline"@.len());
    assert("center"@.len() != "stretch"@.len());
    assert("baseline"@.len() != "stretch"@.len());
    lemma_keyword_table(AlignItemsProperty::keywords(), identifier);
}

/// `align-self` takes `auto` to `Auto`, `flex-start` to `FlexStart`, `flex-end` to `FlexEnd`, `center` to `Center`, `baseline` to `Baseline`, `stretch` to `Stretch`; any other identifier, or none, is an invalid value.
pub proof fn lemma_align_self_keywords(identifier: Option<Seq<char>>, r: Result<AlignSelf, BevyCssError>)
    requires
        keyword_parsed(AlignSelfProperty::keywords(), "align-self"@, identifier, r),
    ensures
        r == Ok::<AlignSelf, BevyCssError>(AlignSelf::Auto) <==> identifier == Some("auto"@),
        r == Ok::<AlignSelf, BevyCssError>(AlignSelf::FlexStart) <==> identifier == Some("flex-start"@),
        r == Ok::<AlignSelf, BevyCssError>(AlignSelf::FlexEnd) <==> identifier == Some("flex-end"@),
        r == Ok::<AlignSelf, BevyCssError>(AlignSelf::Center) <==> identifier == Some("center"@),
        r == Ok::<AlignSelf, BevyCssError>(AlignSelf::Baseline) <==> identifier == Some("baseline"@),
        r == Ok::<AlignSelf, BevyCssError>(AlignSelf::Stretch) <==> identifier == Some("stretch"@),
        r is Err <==> !(identifier == Some("auto"@) || identifier == Some("flex-start"@) || identifier == Some("flex-end"@) || identifier == Some("center"@) || identifier == Some("baseline"@) || identifier == Some("stretch"@)),
{
    reveal_strlit("auto");
    reveal_strlit("flex-start");
    reveal_strlit("flex-end");
    reveal_strlit("center");
    reveal_strlit("baseline");
    reveal_strlit("stretch");
    assert("auto"@.len() != "flex-start"@.len());
    assert("auto"@.len() != "flex-end"@.len());
    assert("auto"@.len() != "center"@.len());
    assert("auto"@.len() != "baseline"@.len());
    assert("auto"@.len() != "stretch"@.len());
    assert("flex-start"@.len() != "flex-end"@.len());
    assert("flex-start"@.len() != "center"@.len());
    assert("flex-start"@.len() != "baseline"@.len());
    assert("flex-start"@.len() != "stretch"@.len());
    assert("flex-end"@.len() != "center"@.len());
    assert("flex-end"@[0] != "baseline"@[0]);
    assert("flex-end"@.len() != "stretch"@.len());
    assert("center"@.len() != "baseline"@.len());
    assert("center"@.len() != "stretch"@.len());
    assert("baseline"@.len() != "stretch"@.len());
    lemma_keyword_table(AlignSelfProperty::keywords(), identifier);
}

/// `align-content` takes `flex-start` to `FlexStart`, `flex-end` to `FlexEnd`, `center` to `Center`, `stretch` to `Stretch`, `space-between` to `SpaceBetween`, `space-around` to `SpaceAround`; any other identifier, or none, is an invalid value.
pub proof fn lemma_align_content_keywords(identifier: Option<Seq<char>>, r: Result<AlignContent, BevyCssError>)
    requires
        keyword_parsed(AlignContentProperty::keywords(), "align-content"@, identifier, r),
    ensures
        r == Ok::<AlignContent, BevyCssError>(AlignContent::FlexStart) <==> identifier == Some("flex-start"@),
        r == Ok::<AlignContent, BevyCssError>(AlignContent::FlexEnd) <==> identifier == Some("flex-end"@),
        r == Ok::<AlignContent, BevyCssError>(AlignContent::Center) <==> identifier == Some("center"@),
        r == Ok::<AlignContent, BevyCssError>(AlignContent::Stretch) <==> identifier == Some("stretch"@),
        r == Ok::<AlignContent, BevyCssError>(AlignContent::SpaceBetween) <==> identifier == Some("space-between"@),
        r == Ok::<AlignContent, BevyCssError>(AlignContent::SpaceAround) <==> identifier == Some("space-around"@),
        r is Err <==> !(identifier == Some("flex-start"@) || identifier == Some("flex-end"@) || identifier == Some("center"@) || identifier == Some("stretch"@) || identifier == Some("space-between"@) || identifier == Some("space-around"@)),
{
    reveal_strlit("flex-start");
    reveal_strlit("flex-end");
    reveal_strlit("center");
    reveal_strlit("stretch");
    reveal_strlit("space-between");
    reveal_strlit("space-around");
    assert("flex-start"@.len() != "flex-end"@.len());
    assert("flex-start"@.len() != "center"@.len());
    assert("flex-start"@.len() != "stretch"@.len());
    assert("flex-start"@.len() != "space-between"@.len());
    assert("flex-start"@.len() != "space-around"@.len());
    assert("flex-end"@.len() != "center"@.len());
    assert("flex-end"@.len() != "stretch"@.len());
    assert("flex-end"@.len() != "space-between"@.len());
    assert("flex-end"@.len() != "space-around"@.len());
    assert("center"@.len() != "stretch"@.len());
    assert("center"@.len() != "space-between"@.len());
    assert("center"@.len() != "space-around"@.len());
    assert("stretch"@.len() != "space-between"@.len());
    assert("stretch"@.len() != "space-around"@.len());
    assert("space-between"@.len() != "space-around"@.len());
    lemma_keyword_table(AlignContentProperty::keywords(), identifier);
}

/// `justify-content` takes `flex-start` to `FlexStart`, `flex-end` to `FlexEnd`, `center` to `Center`, `space-between` to `SpaceBetween`, `space-around` to `SpaceAround`, `space-evenly` to `SpaceEvenly`; any other identifier, or none, is an invalid value.
pub proof fn lemma_justify_content_keywords(identifier: Option<Seq<char>>, r: Result<JustifyContent, BevyCssError>)
    requires
        keyword_parsed(JustifyContentProperty::keywords(), "justify-content"@, identifier, r),
    ensures
        r == Ok::<JustifyContent, BevyCssError>(JustifyContent::FlexStart) <==> identifier == Some("flex-start"@),
        r == Ok::<JustifyContent, BevyCssError>(JustifyContent::FlexEnd) <==> identifier == Some("flex-end"@),
        r == Ok::<JustifyContent, BevyCssError>(JustifyContent::Center) <==> identifier == Some("center"@),
        r == Ok::<JustifyContent, BevyCssError>(JustifyContent::SpaceBetween) <==> identifier == Some("space-between"@),
        r == Ok::<JustifyContent, BevyCssError>(JustifyContent::SpaceAround) <==> identifier == Some("space-around"@),
        r == Ok::<JustifyContent, BevyCssError>(JustifyContent::SpaceEvenly) <==> identifier == Some("space-evenly"@),
        r is Err <==> !(identifier == Some("flex-start"@) || identifier == Some("flex-end"@) || identifier == Some("center"@) || identifier == Some("space-between"@) || identifier == Some("space-around"@) || identifier == Some("space-evenly"@)),
{
    reveal_strlit("flex-start");
    reveal_strlit("flex-end");
    reveal_strlit("center");
    reveal_strlit("space-between");
    reveal_strlit("space-around");
    reveal_strlit("space-evenly");
    assert("flex-start"@.len() != "flex-end"@.len());
    assert("flex-start"@.len() != "center"@.len());
    assert("flex-start"@.len() != "space-between"@.len());
    assert("flex-start"@.len() != "space-around"@.len());
    assert("flex-start"@.len() != "space-evenly"@.len());
    assert("flex-end"@.len() != "center"@.len());
    assert("flex-end"@.len() != "space-between"@.len());
    assert("flex-end"@.len() != "space-around"@.len());
    assert("flex-end"@.len() != "space-evenly"@.len());
    assert("center"@.len() != "space-between"@.len());
    assert("center"@.len() != "space-around"@.len());
    assert("center"@.len() != "space-evenly"@.len());
    assert("space-between"@.len() != "space-around"@.len());
    assert("space-between"@.len() != "space-evenly"@.len());
    assert("space-around"@[6] != "space-evenly"@[6]);
    lemma_keyword_table(JustifyContentProperty::keywords(), identifier);
}

} // verus!
