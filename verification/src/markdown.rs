//! The Markdown parser and HTML writer of `pulldown_cmark`, behind trusted
//! items, and the events of a parse as plain values.
use vstd::prelude::*;
use pulldown_cmark::{html, Event, HeadingLevel, Options, Parser, Tag, TagEnd};

verus! {

/// What the logic of this crate reads of a Markdown event.
pub enum MdEvent {
    /// The start of a level-1 heading.
    H1Start,
    /// The end of a level-1 heading.
    H1End,
    /// The start of a code block.
    CodeBlockStart,
    /// The end of a code block.
    CodeBlockEnd,
    /// A text node.
    Text(String),
    /// An inline code span.
    Code(String),
    /// A soft or a hard line break.
    Break,
    /// Any other event.
    Other,
}

/// The events that `pulldown_cmark` parses `text` into, as plain values;
/// `all_extensions` selects `Options::all()` over `Options::empty()`.
pub uninterp spec fn md_events(text: Seq<char>, all_extensions: bool) -> Seq<MdEvent>;

/// The HTML that `pulldown_cmark::html::push_html` writes for the events at
/// the positions `kept`, in that order, of the parse of `text` (the parse
/// that `md_events` reads).
pub uninterp spec fn md_html(text: Seq<char>, all_extensions: bool, kept: Seq<usize>) -> Seq<char>;

/// Runs `pulldown_cmark::Parser::new_ext` on `text` (with `Options::all()`
/// where `all_extensions`, else `Options::empty()`) and maps each event to
/// an `MdEvent`, one for one and in order. The contract names the result;
/// it says nothing of what the parser makes of the text.
#[verifier::external_body]
pub(crate) fn parse_markdown(text: &str, all_extensions: bool) -> (r: Vec<MdEvent>)
    ensures
        r@ == md_events(text@, all_extensions),
{
    let all = if all_extensions { Options::all() } else { Options::empty() };
    Parser::new_ext(text, all).map(|e| match e {
        Event::Start(Tag::Heading { level: HeadingLevel::H1, .. }) => MdEvent::H1Start,
        Event::End(TagEnd::Heading(HeadingLevel::H1)) => MdEvent::H1End,
        Event::Start(Tag::CodeBlock(_)) => MdEvent::CodeBlockStart,
        Event::End(TagEnd::CodeBlock) => MdEvent::CodeBlockEnd,
        Event::Text(t) => MdEvent::Text(t.to_string()),
        Event::Code(t) => MdEvent::Code(t.to_string()),
        Event::SoftBreak | Event::HardBreak => MdEvent::Break,
        _ => MdEvent::Other,
    }).collect()
}

/// Parses `text` as `parse_markdown` does, takes the event at each position
/// of `kept`, in that order, and writes those events with
/// `pulldown_cmark::html::push_html` into an empty string. Each position is
/// one of the parse (`requires`), so no index is out of bounds. The contract
/// names the HTML; it says nothing of what the writer makes of the events.
#[verifier::external_body]
pub(crate) fn markdown_html(text: &str, all_extensions: bool, kept: &Vec<usize>) -> (r: String)
    requires
        forall|i: int| 0 <= i < kept.len() ==> kept[i] < md_events(text@, all_extensions).len(),
    ensures
        r@ == md_html(text@, all_extensions, kept@),
{
    let all = if all_extensions { Options::all() } else { Options::empty() };
    let events: Vec<Event<'_>> = Parser::new_ext(text, all).collect();
    let mut out = String::new();
    html::push_html(&mut out, kept.iter().map(|&i| events[i].clone()));
    out
}

} // verus!
