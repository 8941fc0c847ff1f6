use vstd::prelude::*;

verus! {

/// The closed alphabet of node kinds (composite) and token kinds (leaves
/// holding literal source text) of the lossless syntax tree.
#[allow(non_camel_case_types)]
#[derive(Clone, Copy, Debug, PartialEq, Eq, Structural)]
pub enum SyntaxKind {
    DOCUMENT,
    HEADLINE,
    SECTION,
    PARAGRAPH,
    HEADLINE_TITLE,
    HEADLINE_TAGS,
    HEADLINE_PRIORITY,
    PLANNING,
    PLANNING_CLOSED,
    PLANNING_SCHEDULED,
    PLANNING_DEADLINE,
    PROPERTY_DRAWER,
    NODE_PROPERTY,
    DRAWER,
    LIST,
    LIST_ITEM,
    TABLE,
    TABLE_ROW,
    TABLE_CELL,
    LINK,
    TIMESTAMP_ACTIVE,
    TIMESTAMP_INACTIVE,
    TIMESTAMP_DIARY,
    TARGET,
    RADIO_TARGET,
    KEYWORD,
    CLOCK,
    FOOTNOTE_DEFINITION,
    FIXED_WIDTH,
    RULE,
    COMMENT,
    CENTER_BLOCK,
    QUOTE_BLOCK,
    SRC_BLOCK,
    EXAMPLE_BLOCK,
    EXPORT_BLOCK,
    VERSE_BLOCK,
    COMMENT_BLOCK,
    SPECIAL_BLOCK,
    AFFILIATED_KEYWORD,
    INLINE_CALL,
    INLINE_SRC,
    MACRO,
    ENTITY,
    SNIPPET,
    FOOTNOTE_REFERENCE,
    BOLD,
    ITALIC,
    UNDERLINE,
    STRIKE,
    VERBATIM,
    CODE,
    TEXT,
    WHITESPACE,
    NEW_LINE,
    BLANK_LINE,
    HEADLINE_STARS,
    HEADLINE_KEYWORD,
    PLANNING_KEYWORD,
    L_BRACKET,
    R_BRACKET,
    L_BRACKET2,
    R_BRACKET2,
    L_PARENS,
    R_PARENS,
    L_ANGLE,
    R_ANGLE,
    L_ANGLE2,
    R_ANGLE2,
    L_ANGLE3,
    R_ANGLE3,
    L_CURLY,
    R_CURLY,
    L_CURLY3,
    R_CURLY3,
    COLON,
    COLON2,
    HASH,
    HASH_PLUS,
    AT,
    AT2,
    MINUS,
    MINUS2,
    PLUS,
    PERCENT2,
    DOLLAR,
    DOLLAR2,
    PIPE,
    BACKSLASH,
    UNDERSCORE,
    CARET,
    DOUBLE_ARROW,
    TIMESTAMP_YEAR,
    TIMESTAMP_MONTH,
    TIMESTAMP_DAY,
    TIMESTAMP_DAYNAME,
    TIMESTAMP_HOUR,
    TIMESTAMP_MINUTE,
    TIMESTAMP_VALUE,
    TIMESTAMP_UNIT,
    TIMESTAMP_REPEATER_MARK,
    TIMESTAMP_DELAY_MARK,
}

} // verus!
