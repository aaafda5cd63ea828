//! Glyphs: how each character of a datom text is classified.

use vstd::prelude::*;

verus! {

/// A separator joins a head to its body, or the pieces of a chained word.
#[derive(Clone, Copy, Debug, PartialEq, Eq, Structural)]
pub enum Separator {
    /// `.`
    Period,
    /// `!`
    Exclamation,
    /// `:`
    Colon,
}

/// The enclosures of the structural layer.
#[derive(Clone, Copy, Debug, PartialEq, Eq, Structural)]
pub enum Enclosure {
    /// `{ }`
    Braced,
    /// `[ ]`
    Bracketed,
    /// `< >`
    Angled,
    /// `« »`
    Guillemets,
}

/// The boundaries of opaque content.
#[derive(Clone, Copy, Debug, PartialEq, Eq, Structural)]
pub enum Boundary {
    /// `“ ”`
    CurlyQuotes,
    /// `( )`
    Parentheses,
}

/// Whitespace: separates forms and is otherwise ignored.
pub open spec fn is_space(c: char) -> bool {
    c == ' ' || c == '\t' || c == '\n' || c == '\r'
}

/// The separator a glyph stands for.
pub open spec fn separator_of(c: char) -> Option<Separator> {
    if c == '.' {
        Some(Separator::Period)
    } else if c == '!' {
        Some(Separator::Exclamation)
    } else if c == ':' {
        Some(Separator::Colon)
    } else {
        None
    }
}

/// The glyph of a separator.
pub open spec fn separator_glyph(s: Separator) -> char {
    match s {
        Separator::Period => '.',
        Separator::Exclamation => '!',
        Separator::Colon => ':',
    }
}

/// The glyphs that open, close or comment: never part of a bare word.
pub open spec fn is_delimiter(c: char) -> bool {
    c == '{' || c == '}' || c == '[' || c == ']' || c == '<' || c == '>' || c == '«' || c == '»'
        || c == '“' || c == '”' || c == '(' || c == ')' || c == ';'
}

/// A plain glyph: part of a word and not a separator.
pub open spec fn is_plain(c: char) -> bool {
    !is_space(c) && !is_delimiter(c) && separator_of(c).is_none()
}

/// A glyph that a bare run is made of: plain or a separator.
pub open spec fn is_wordy(c: char) -> bool {
    is_plain(c) || separator_of(c).is_some()
}

/// The glyph opening an enclosure.
pub open spec fn opener_of(e: Enclosure) -> char {
    match e {
        Enclosure::Braced => '{',
        Enclosure::Bracketed => '[',
        Enclosure::Angled => '<',
        Enclosure::Guillemets => '«',
    }
}

/// The glyph closing an enclosure.
pub open spec fn closer_of(e: Enclosure) -> char {
    match e {
        Enclosure::Braced => '}',
        Enclosure::Bracketed => ']',
        Enclosure::Angled => '>',
        Enclosure::Guillemets => '»',
    }
}

/// The enclosure a glyph opens.
pub open spec fn enclosure_opened(c: char) -> Option<Enclosure> {
    if c == '{' {
        Some(Enclosure::Braced)
    } else if c == '[' {
        Some(Enclosure::Bracketed)
    } else if c == '<' {
        Some(Enclosure::Angled)
    } else if c == '«' {
        Some(Enclosure::Guillemets)
    } else {
        None
    }
}

/// The enclosure a glyph closes.
pub open spec fn enclosure_closed(c: char) -> Option<Enclosure> {
    if c == '}' {
        Some(Enclosure::Braced)
    } else if c == ']' {
        Some(Enclosure::Bracketed)
    } else if c == '>' {
        Some(Enclosure::Angled)
    } else if c == '»' {
        Some(Enclosure::Guillemets)
    } else {
        None
    }
}

/// The glyph opening a boundary.
pub open spec fn boundary_opener(b: Boundary) -> char {
    match b {
        Boundary::CurlyQuotes => '“',
        Boundary::Parentheses => '(',
    }
}

/// The glyph closing a boundary.
pub open spec fn boundary_closer(b: Boundary) -> char {
    match b {
        Boundary::CurlyQuotes => '”',
        Boundary::Parentheses => ')',
    }
}

/// The boundary a glyph opens.
pub open spec fn boundary_opened(c: char) -> Option<Boundary> {
    if c == '“' {
        Some(Boundary::CurlyQuotes)
    } else if c == '(' {
        Some(Boundary::Parentheses)
    } else {
        None
    }
}

/// The boundary a glyph closes.
pub open spec fn boundary_closed(c: char) -> Option<Boundary> {
    if c == '”' {
        Some(Boundary::CurlyQuotes)
    } else if c == ')' {
        Some(Boundary::Parentheses)
    } else {
        None
    }
}

/// Whether a glyph is whitespace.
pub fn space(c: char) -> (r: bool)
    ensures
        r == is_space(c),
{
    c == ' ' || c == '\t' || c == '\n' || c == '\r'
}

/// The separator a glyph stands for, if any.
pub fn separator(c: char) -> (r: Option<Separator>)
    ensures
        r == separator_of(c),
{
    if c == '.' {
        Some(Separator::Period)
    } else if c == '!' {
        Some(Separator::Exclamation)
    } else if c == ':' {
        Some(Separator::Colon)
    } else {
        None
    }
}

/// The glyph of a separator.
pub fn glyph_of_separator(s: Separator) -> (c: char)
    ensures
        c == separator_glyph(s),
{
    match s {
        Separator::Period => '.',
        Separator::Exclamation => '!',
        Separator::Colon => ':',
    }
}

/// Whether a glyph delimits.
pub fn delimiter(c: char) -> (r: bool)
    ensures
        r == is_delimiter(c),
{
    c == '{' || c == '}' || c == '[' || c == ']' || c == '<' || c == '>' || c == '«' || c == '»'
        || c == '“' || c == '”' || c == '(' || c == ')' || c == ';'
}

/// Whether a glyph is plain.
pub fn plain(c: char) -> (r: bool)
    ensures
        r == is_plain(c),
{
    !space(c) && !delimiter(c) && separator(c).is_none()
}

/// Whether a glyph belongs to a bare run.
pub fn wordy(c: char) -> (r: bool)
    ensures
        r == is_wordy(c),
{
    plain(c) || separator(c).is_some()
}

/// The enclosure a glyph opens, if any.
pub fn opened_enclosure(c: char) -> (r: Option<Enclosure>)
    ensures
        r == enclosure_opened(c),
{
    if c == '{' {
        Some(Enclosure::Braced)
    } else if c == '[' {
        Some(Enclosure::Bracketed)
    } else if c == '<' {
        Some(Enclosure::Angled)
    } else if c == '«' {
        Some(Enclosure::Guillemets)
    } else {
        None
    }
}

/// The enclosure a glyph closes, if any.
pub fn closed_enclosure(c: char) -> (r: Option<Enclosure>)
    ensures
        r == enclosure_closed(c),
{
    if c == '}' {
        Some(Enclosure::Braced)
    } else if c == ']' {
        Some(Enclosure::Bracketed)
    } else if c == '>' {
        Some(Enclosure::Angled)
    } else if c == '»' {
        Some(Enclosure::Guillemets)
    } else {
        None
    }
}

/// The boundary a glyph opens, if any.
pub fn opened_boundary(c: char) -> (r: Option<Boundary>)
    ensures
        r == boundary_opened(c),
{
    if c == '“' {
        Some(Boundary::CurlyQuotes)
    } else if c == '(' {
        Some(Boundary::Parentheses)
    } else {
        None
    }
}

/// The boundary a glyph closes, if any.
pub fn closed_boundary(c: char) -> (r: Option<Boundary>)
    ensures
        r == boundary_closed(c),
{
    if c == '”' {
        Some(Boundary::CurlyQuotes)
    } else if c == ')' {
        Some(Boundary::Parentheses)
    } else {
        None
    }
}

/// The characters of a text, in order.
pub fn chars_of(text: &str) -> (v: Vec<char>)
    ensures
        v@ == text@,
{
    broadcast use vstd::string::group_string_axioms;

    let mut v: Vec<char> = Vec::new();
    for c in it: text.chars()
        invariant
            v@ == it.seq().take(it.index() as int),
            it.seq() == text@,
    {
        v.push(c);
    }
    v
}

/// The text made of a run of glyphs, in order.
///
/// Trusted: collects the glyphs into a `String` through std's
/// `FromIterator<char>` impl for `String`, whose documentation says the
/// string holds the chars in iteration order; the contract states exactly that.
#[verifier::external_body]
pub(crate) fn string_of(cs: &[char]) -> (text: String)
    ensures
        text@ == cs@,
{
    cs.iter().collect()
}

} // verus!
