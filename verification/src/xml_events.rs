//! The XML tokenizer as this library sees it: a part's bytes become a list of tokens.
//!
//! Tokenizing is the work of the `xml` crate. Here stand the tokens that the rest of the
//! library reads, their mathematical views, and the one function that calls the tokenizer.

use vstd::prelude::*;
use xml::reader::{EventReader, XmlEvent};
use crate::text::same_text;

verus! {

/// An attribute of a start element: its local name and its value.
#[derive(Clone, Debug, PartialEq, Eq)]
pub struct Attribute {
    pub name: String,
    pub value: String,
}

/// One event of a tokenized part.
#[derive(Clone, Debug, PartialEq, Eq)]
pub enum Token {
    /// A start element, with its local name and its attributes in document order.
    Start { name: String, attributes: Vec<Attribute> },
    /// An end element.
    End,
    /// Character data between tags.
    Characters(String),
    /// Any other event: a declaration, a comment, whitespace, the end of the stream.
    Other,
    /// The tokenizer's read failure. No token follows it.
    Failure,
}

/// An [`Attribute`] as a pair of character sequences.
pub struct AttributeView {
    pub name: Seq<char>,
    pub value: Seq<char>,
}

/// A [`Token`] over character sequences.
pub enum TokenView {
    Start { name: Seq<char>, attributes: Seq<AttributeView> },
    End,
    Characters(Seq<char>),
    Other,
    Failure,
}

impl View for Attribute {
    type V = AttributeView;

    open spec fn view(&self) -> AttributeView {
        AttributeView { name: self.name@, value: self.value@ }
    }
}

impl View for Token {
    type V = TokenView;

    open spec fn view(&self) -> TokenView {
        match *self {
            Token::Start { name, attributes } => TokenView::Start {
                name: name@,
                attributes: views(attributes@),
            },
            Token::End => TokenView::End,
            Token::Characters(text) => TokenView::Characters(text@),
            Token::Other => TokenView::Other,
            Token::Failure => TokenView::Failure,
        }
    }
}

/// The views of the items of a sequence, in order.
pub open spec fn views<T: View>(items: Seq<T>) -> Seq<T::V> {
    items.map_values(|item: T| item@)
}

/// The value that a start element gives to the attribute `name`: that of the last
/// attribute so named, or the empty text where there is none.
pub open spec fn attribute_value(attributes: Seq<AttributeView>, name: Seq<char>) -> Seq<char>
    decreases attributes.len(),
{
    if attributes.len() == 0 {
        Seq::empty()
    } else if attributes.last().name == name {
        attributes.last().value
    } else {
        attribute_value(attributes.drop_last(), name)
    }
}

/// Whether the tokenizer failed among `tokens`.
pub open spec fn has_failure(tokens: Seq<TokenView>) -> bool {
    exists|i: int| 0 <= i < tokens.len() && #[trigger] tokens[i] is Failure
}

/// A failure among tokens is the last token or is among the tokens before it.
pub proof fn lemma_failure_in_front(tokens: Seq<TokenView>)
    requires
        tokens.len() > 0,
    ensures
        has_failure(tokens) <==> has_failure(tokens.drop_last()) || tokens.last() is Failure,
{
    let front = tokens.drop_last();
    if has_failure(front) {
        let i = choose|i: int| 0 <= i < front.len() && #[trigger] front[i] is Failure;
        assert(tokens[i] is Failure);
    }
    if has_failure(tokens) {
        let i = choose|i: int| 0 <= i < tokens.len() && #[trigger] tokens[i] is Failure;
        if i < front.len() {
            assert(front[i] is Failure);
        }
    }
    if tokens.last() is Failure {
        assert(tokens[tokens.len() - 1] is Failure);
    }
}

/// The tokens that the `xml` crate's reader, in its default configuration, delivers for a
/// document of these bytes, up to and including the end of the stream or the first read
/// failure.
pub uninterp spec fn xml_tokens(bytes: Seq<u8>) -> Seq<TokenView>;

/// Runs `xml::reader::EventReader::new(bytes)` to the end of its event stream and hands
/// out each event as a [`Token`]: of a start element the local name and the attributes'
/// local names and values, of character data the text, a read failure as `Failure`,
/// every other event as `End` or `Other`. The reader is a function of the bytes alone;
/// the contract names what it delivers and claims nothing else of it.
#[verifier::external_body]
pub(crate) fn tokenize(bytes: &[u8]) -> (tokens: Vec<Token>)
    ensures
        views(tokens@) == xml_tokens(bytes@),
{
    EventReader::new(bytes).into_iter().map(|event| match event {
        Ok(XmlEvent::StartElement { name, attributes, .. }) => Token::Start {
            name: name.local_name,
            attributes: attributes
                .into_iter()
                .map(|a| Attribute { name: a.name.local_name, value: a.value })
                .collect(),
        },
        Ok(XmlEvent::EndElement { .. }) => Token::End,
        Ok(XmlEvent::Characters(text)) => Token::Characters(text),
        Ok(_) => Token::Other,
        Err(_) => Token::Failure,
    }).collect()
}

/// The last value given to the attribute `name`, or the empty text.
pub fn find_attribute(attributes: &Vec<Attribute>, name: &str) -> (value: String)
    ensures
        value@ == attribute_value(views(attributes@), name@),
{
    let mut i: usize = attributes.len();
    assert(views(attributes@).take(i as int) =~= views(attributes@));
    while i > 0
        invariant
            i <= attributes.len(),
            attribute_value(views(attributes@), name@) == attribute_value(
                views(attributes@).take(i as int),
                name@,
            ),
        decreases i,
    {
        i = i - 1;
        let ghost upto = views(attributes@).take(i + 1);
        assert(upto.last() == attributes@[i as int]@);
        assert(upto.drop_last() =~= views(attributes@).take(i as int));
        if same_text(attributes[i].name.as_str(), name) {
            return attributes[i].value.clone();
        }
    }
    assert(views(attributes@).take(0) =~= Seq::<AttributeView>::empty());
    String::new()
}

} // verus!
