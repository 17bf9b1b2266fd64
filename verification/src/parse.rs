//! Parsing text with tree-sitter.
use vstd::prelude::*;

use crate::syntax::{tree_view, SyntaxView};

verus! {

/// A syntax tree without the identifiers of its nodes, which differ from one
/// parse to the next.
pub struct SyntaxShape {
    pub kind: Seq<char>,
    pub start: usize,
    pub end: usize,
    pub children: Seq<SyntaxShape>,
}

impl SyntaxView {
    /// The tree without identifiers.
    pub open spec fn shape(self) -> SyntaxShape
        decreases self,
    {
        SyntaxShape {
            kind: self.kind,
            start: self.start,
            end: self.end,
            children: Seq::new(
                self.children.len(),
                |i: int|
                    if 0 <= i < self.children.len() {
                        self.children[i].shape()
                    } else {
                        arbitrary()
                    },
            ),
        }
    }
}

/// A grammar, compiled for tree-sitter.
#[verifier::external_type_specification]
#[verifier::external_body]
pub struct ExLanguage(tree_sitter::Language);

/// A parser of tree-sitter.
#[verifier::external_type_specification]
#[verifier::external_body]
pub struct ExParser(tree_sitter::Parser);

/// Why a grammar is refused.
#[verifier::external_type_specification]
#[verifier::external_body]
pub struct ExLanguageError(tree_sitter::LanguageError);

/// What a parser has been set to.
pub struct ParserView {
    /// The grammar that it parses with.
    pub language: Option<tree_sitter::Language>,
    /// Whether nothing else has been set: no time limit, no flag that stops it, no
    /// ranges of the text to keep to.
    pub otherwise_new: bool,
}

/// The settings of a parser.
pub uninterp spec fn parser_view(parser: tree_sitter::Parser) -> ParserView;

/// The version of tree-sitter's format for grammars that the grammar was made
/// in, as `tree_sitter::Language::version` gives it.
pub uninterp spec fn language_version(language: tree_sitter::Language) -> usize;

/// Whether tree-sitter takes the grammar: its version is one of those from
/// `tree_sitter::MIN_COMPATIBLE_LANGUAGE_VERSION` to
/// `tree_sitter::LANGUAGE_VERSION`.
pub open spec fn language_supported(language: tree_sitter::Language) -> bool {
    13 <= language_version(language) <= 14
}

/// The tree that tree-sitter makes of a text.
pub uninterp spec fn parse_shape(language: tree_sitter::Language, text: Seq<u8>) -> SyntaxShape;

/// The grammar that a tree was parsed with.
pub uninterp spec fn tree_language(tree: tree_sitter::Tree) -> tree_sitter::Language;

/// `tree_sitter::Parser::new` makes a parser on which nothing is set.
#[verifier::external_body]
fn new_parser() -> (r: tree_sitter::Parser)
    ensures
        parser_view(r) == (ParserView { language: None, otherwise_new: true }),
{
    tree_sitter::Parser::new()
}

/// `tree_sitter::Parser::set_language` sets a grammar whose version tree-sitter
/// supports, and refuses any other.
#[verifier::external_body]
fn set_language(parser: &mut tree_sitter::Parser, language: tree_sitter::Language) -> (r: Result<
    (),
    tree_sitter::LanguageError,
>)
    ensures
        r is Ok <==> 13 <= language_version(language) <= 14,
        parser_view(*final(parser)) == (if r is Ok {
            ParserView { language: Some(language), ..parser_view(*old(parser)) }
        } else {
            parser_view(*old(parser))
        }),
{
    parser.set_language(language)
}

/// `tree_sitter::Parser::parse`, without an older tree, gives no tree if the
/// parser has no grammar.  If it has one, and nothing else is set on the parser,
/// it gives a tree that depends on the grammar and the text alone.  Offsets are
/// counted in 32 bits.
#[verifier::external_body]
fn parse_bytes(parser: &mut tree_sitter::Parser, text: &[u8]) -> (r: Option<tree_sitter::Tree>)
    requires
        text@.len() <= u32::MAX,
        parser_view(*old(parser)).otherwise_new,
    ensures
        parser_view(*final(parser)) == parser_view(*old(parser)),
        r is Some <==> parser_view(*old(parser)).language is Some,
        r is Some ==> parser_view(*old(parser)).language == Some(tree_language(r->0)),
        r is Some ==> tree_view(r->0).shape() == parse_shape(tree_language(r->0), text@),
{
    parser.parse(text, None)
}

/// `tree_sitter::Tree::language` gives the grammar that the tree was parsed with.
#[verifier::external_body]
pub(crate) fn language_of(tree: &tree_sitter::Tree) -> (r: tree_sitter::Language)
    ensures
        r == tree_language(*tree),
{
    tree.language()
}

/// Parse a text.  There is no tree if tree-sitter does not support the grammar.
pub fn parse(language: tree_sitter::Language, code: &[u8]) -> (r: Option<tree_sitter::Tree>)
    requires
        code@.len() <= u32::MAX,
    ensures
        r is Some <==> language_supported(language),
        r is Some ==> tree_language(r->0) == language,
        r is Some ==> tree_view(r->0).shape() == parse_shape(language, code@),
{
    let mut parser = new_parser();
    match set_language(&mut parser, language) {
        Ok(()) => parse_bytes(&mut parser, code),
        Err(_) => None,
    }
}

} // verus!
