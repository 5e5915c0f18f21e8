//! Properties of text: its color, font size, alignment and content.
use super::style::{keyword_parsed, lemma_keyword_table, parse_keyword, str_option_view, table_view};
use super::{require_value, BevyCssError};
use vstd::prelude::*;

verus! {

/// How text lines are aligned.
#[derive(Clone, Copy, Debug, PartialEq, Eq, Structural)]
pub enum JustifyText {
    Left,
    Center,
    Right,
}

/// Applies the `color` property on the text color of matched text entities.
pub struct FontColorProperty;

impl FontColorProperty {
    /// The property's name.
    pub fn name() -> (r: &'static str)
        ensures
            r@ == "color"@,
    {
        "color"
    }

    /// Takes the color of a `color` declaration; none is an invalid value.
    pub fn parse<C>(color: Option<C>) -> (r: Result<C, BevyCssError>)
        ensures
            match color {
                Some(c) => r == Ok::<C, BevyCssError>(c),
                None => r matches Err(BevyCssError::InvalidPropertyValue(n)) && n@ == "color"@,
            },
    {
        require_value(Self::name(), color)
    }
}

/// Applies the `font-size` property on the font of matched text entities.
pub struct FontSizeProperty;

impl FontSizeProperty {
    /// The property's name.
    pub fn name() -> (r: &'static str)
        ensures
            r@ == "font-size"@,
    {
        "font-size"
    }

    /// Takes the number of a `font-size` declaration; none is an invalid value.
    pub fn parse<N>(size: Option<N>) -> (r: Result<N, BevyCssError>)
        ensures
            match size {
                Some(s) => r == Ok::<N, BevyCssError>(s),
                None => r matches Err(BevyCssError::InvalidPropertyValue(n)) && n@ == "font-size"@,
            },
    {
        require_value(Self::name(), size)
    }
}

/// Applies the `text-align` property on the layout of matched text entities.
pub struct TextAlignProperty;

impl TextAlignProperty {
    /// The keywords of the property and the alignments they stand for.
    pub open spec fn keywords() -> Seq<(Seq<char>, JustifyText)> {
        seq![("left"@, JustifyText::Left), ("center"@, JustifyText::Center), ("right"@, JustifyText::Right)]
    }

    /// The property's name.
    pub fn name() -> (r: &'static str)
        ensures
            r@ == "text-align"@,
    {
        "text-align"
    }

    /// Parses the identifier of a `text-align` declaration: `left`, `center` or `right`.
    pub fn parse(identifier: Option<&str>) -> (r: Result<Option<JustifyText>, BevyCssError>)
        ensures
            exists|a: Result<JustifyText, BevyCssError>|
                keyword_parsed(Self::keywords(), "text-align"@, str_option_view(identifier), a)
                && match a {
                    Ok(j) => r == Ok::<Option<JustifyText>, BevyCssError>(Some(j)),
                    Err(e) => r matches Err(e2) && e2 == e,
                },
    {
        let table = vec![("left", JustifyText::Left), ("center", JustifyText::Center), ("right", JustifyText::Right)];
        assert(table_view(table@) =~= Self::keywords());
        let a = parse_keyword(Self::name(), identifier, &table);
        match a {
            Ok(j) => Ok(Some(j)),
            Err(e) => Err(e),
        }
    }
}

/// Applies the `text-content` property on the text of matched text entities.
pub struct TextContentProperty;

impl TextContentProperty {
    /// The property's name.
    pub fn name() -> (r: &'static str)
        ensures
            r@ == "text-content"@,
    {
        "text-content"
    }

    /// Takes the string of a `text-content` declaration; none is an invalid value.
    pub fn parse(content: Option<String>) -> (r: Result<String, BevyCssError>)
        ensures
            match content {
                Some(c) => r == Ok::<String, BevyCssError>(c),
                None => r matches Err(BevyCssError::InvalidPropertyValue(n)) && n@ == "text-content"@,
            },
    {
        require_value(Self::name(), content)
    }
}


/// `text-align` takes `left` to `Left`, `center` to `Center`, `right` to `Right`; any other identifier, or none, is an invalid value.
pub proof fn lemma_text_align_keywords(identifier: Option<Seq<char>>, r: Result<JustifyText, BevyCssError>)
    requires
        keyword_parsed(TextAlignProperty::keywords(), "text-align"@, identifier, r),
    ensures
        r == Ok::<JustifyText, BevyCssError>(JustifyText::Left) <==> identifier == Some("left"@),
        r == Ok::<JustifyText, BevyCssError>(JustifyText::Center) <==> identifier == Some("center"@),
        r == Ok::<JustifyText, BevyCssError>(JustifyText::Right) <==> identifier == Some("right"@),
        r is Err <==> !(identifier == Some("left"@) || identifier == Some("center"@) || identifier == Some("right"@)),
{
    reveal_strlit("left");
    reveal_strlit("center");
    reveal_strlit("right");
    assert("left"@.len() != "center"@.len());
    assert("left"@.len() != "right"@.len());
    assert("center"@.len() != "right"@.len());
    lemma_keyword_table(TextAlignProperty::keywords(), identifier);
}

} // verus!
