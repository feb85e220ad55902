//! Turning HTML markup into the JSON form of its element tree, and the
//! failures of the whole pipeline.

use vstd::prelude::*;

verus! {

#[verifier::external_type_specification]
#[verifier::external_body]
pub struct ExDom(html_parser::Dom);

#[verifier::external_type_specification]
#[verifier::external_body]
pub struct ExHtmlError(html_parser::Error);

/// Why a stylesheet could not be produced.
#[derive(Debug, Clone, Copy, PartialEq, Eq, Structural)]
pub enum CssError {
    /// No input path was given.
    MissingArgument,
    /// The input could not be read.
    FileRead,
    /// The markup could not be parsed into a tree.
    Parse,
    /// The tree could not be brought into the document model.
    Serialization,
}

/// The one-line text reported for each failure.
pub open spec fn message_of(e: CssError) -> Seq<char> {
    match e {
        CssError::MissingArgument => "No input file provided"@,
        CssError::FileRead => "Could not read file"@,
        CssError::Parse => "Could not parse HTML"@,
        CssError::Serialization => "Could not convert DOM to JSON"@,
    }
}

impl CssError {
    /// The one-line text that reports this failure.
    pub fn message(&self) -> (r: String)
        ensures
            r@ == message_of(*self),
    {
        match self {
            CssError::MissingArgument => String::from_str("No input file provided"),
            CssError::FileRead => String::from_str("Could not read file"),
            CssError::Parse => String::from_str("Could not parse HTML"),
            CssError::Serialization => String::from_str("Could not convert DOM to JSON"),
        }
    }
}

/// The JSON text that the HTML parser writes for the tree of the markup
/// `html`: each element with its class tokens and its child nodes.
pub uninterp spec fn tree_json_of(html: Seq<char>) -> Seq<char>;

/// A tree built by the HTML parser, together with the markup it was built
/// from. Only `parse_dom` makes one, so the two always belong together.
struct ParsedHtml {
    dom: html_parser::Dom,
    markup: Ghost<Seq<char>>,
}

impl ParsedHtml {
    /// The markup that the tree was parsed from.
    closed spec fn markup(&self) -> Seq<char> {
        self.markup@
    }
}

/// Relies on `html_parser::Dom::parse`: it builds a tree from the markup or
/// fails. Whether it fails is not assumed to depend on the markup alone: the
/// parser also checks the stack it has left and a process-wide call limit.
/// The tree is kept beside the markup it came from.
#[verifier::external_body]
fn parse_dom(html: &str) -> (r: Result<ParsedHtml, html_parser::Error>)
    ensures
        r is Ok ==> r->Ok_0.markup() == html@,
{
    html_parser::Dom::parse(html).map(|dom| ParsedHtml { dom, markup: Ghost(html@) })
}

/// Relies on `html_parser::Dom::to_json`: it serialises the tree with serde_json,
/// which fails only where a `Serialize` impl fails or a map key is no string;
/// the tree's derived impls do neither, and write the attributes through a
/// `BTreeMap`, so the text depends on the markup alone.
#[verifier::external_body]
fn dom_to_json(p: &ParsedHtml) -> (r: Result<String, html_parser::Error>)
    ensures
        r is Ok,
        r is Ok ==> r->Ok_0@ == tree_json_of(p.markup()),
{
    p.dom.to_json()
}

/// Parses `html` and renders its element tree as JSON text, each element with
/// its class tokens and its child nodes. Where the parser builds a tree, the
/// result is the parser's JSON text for the markup; where it fails, the
/// result is `Parse`.
pub fn parse_html(html: &str) -> (r: Result<String, CssError>)
    ensures
        r is Ok ==> r->Ok_0@ == tree_json_of(html@),
        r is Err ==> r == Err::<String, CssError>(CssError::Parse),
{
    let parsed = match parse_dom(html) {
        Ok(parsed) => parsed,
        Err(_) => {
            return Err(CssError::Parse);
        },
    };
    match dom_to_json(&parsed) {
        Ok(json) => Ok(json),
        Err(_) => Err(CssError::Serialization),
    }
}

} // verus!
