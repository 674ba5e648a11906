//! The XML tokens that the markup is read from, as byte ranges of the source.
use vstd::prelude::*;
use xmlparser::{ElementEnd, Token, Tokenizer};

use self::XmlToken::{Attr, Close, Comment, End, Fail, Start, Text, Unsupported};

verus! {

/// One token of the XML tokenizer. Ranges are UTF-8 byte ranges of the source.
/// A name with a namespace prefix starts after the prefix: its local part does
/// not begin where the tag or attribute does.
pub enum XmlToken {
    /// `<name`, where a name with a namespace holds `:`.
    Start(std::ops::Range<usize>),
    /// `prefix:local="value"`: the local name, the value without quotes, the whole attribute.
    Attr(std::ops::Range<usize>, std::ops::Range<usize>, std::ops::Range<usize>),
    /// `>` or `/>` ending a start tag.
    End(std::ops::Range<usize>),
    /// `</prefix:local>`: the local name and the whole tag.
    Close(std::ops::Range<usize>, std::ops::Range<usize>),
    /// Character data between markup.
    Text(std::ops::Range<usize>),
    /// `<!-- ... -->`.
    Comment,
    /// Declarations, DOCTYPE, entity declarations, CDATA, processing instructions.
    Unsupported,
    /// A tokenizer error at one-based row and column, with its message; tokenizing ends here.
    Fail(u32, u32, String),
}

/// The tokens `xmlparser::Tokenizer` yields for `source`, each item converted
/// one for one; an error item is the last.
pub uninterp spec fn xml_scan(source: Seq<char>) -> Seq<XmlToken>;

/// Runs `xmlparser::Tokenizer` over `source` and converts every item.
#[verifier::external_body]
pub(crate) fn scan_xml(source: &str) -> (r: Vec<XmlToken>)
    ensures
        r@ == xml_scan(source@),
{
    Tokenizer::from(source).map(|item| match item {
        Err(e) => Fail(e.pos().row, e.pos().col, e.to_string()),
        Ok(t) => match t {
            Token::ElementStart { span, .. } => Start(span.range()),
            Token::Attribute { local, value, span, .. } => Attr(local.range(), value.range(), span.range()),
            Token::ElementEnd { end: ElementEnd::Close(_, local), span } => Close(local.range(), span.range()),
            Token::ElementEnd { span, .. } => End(span.range()),
            Token::Text { text } => Text(text.range()),
            Token::Comment { .. } => Comment,
            _ => Unsupported,
        },
    }).collect()
}

} // verus!
