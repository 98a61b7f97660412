//! What a fetched page gives the index to read.
//!
//! The markup is parsed by the crate `tl`.  Of a parsed page this module
//! reads, for each node in the order of the page, the name of its tag, or
//! nothing for text and comments.

use vstd::prelude::*;
use vstd::string::{StringExecFns, StringSliceAdditionalSpecFns};

verus! {

/// `tl::VDom`, a parsed page.  Nothing inside it is visible here.
#[verifier::external_type_specification]
#[verifier::external_body]
pub struct ExVDom<'a>(tl::VDom<'a>);

/// `tl::ParseError`, the reason why `tl` refused a page.
#[verifier::external_type_specification]
#[verifier::external_body]
pub struct ExParseError(tl::ParseError);

/// For each node of a parsed page, in the order of the page, the name of
/// its tag, or nothing for text and comments.
pub uninterp spec fn node_tags(dom: &tl::VDom) -> Seq<Option<Seq<char>>>;

/// For each node that the parser finds in `markup`, in the order of the
/// markup, the name of its tag, or nothing for text and comments.
pub uninterp spec fn page_tags(markup: Seq<char>) -> Seq<Option<Seq<char>>>;

/// `tl::parse` with the default options.  It refuses markup of more bytes
/// than a `u32` can count, and parses all other markup.  The nodes of the
/// parsed page depend on the markup alone; the contract gives their tags
/// their name and claims nothing else of them.
#[verifier::external_body]
fn parse(markup: &str) -> (parsed: Result<tl::VDom<'_>, tl::ParseError>)
    ensures
        parsed is Ok <==> markup.spec_bytes().len() <= u32::MAX,
        match parsed {
            Ok(dom) => node_tags(&dom) == page_tags(markup@),
            Err(_) => true,
        },
{
    tl::parse(markup, tl::ParserOptions::default())
}

/// `VDom::nodes`: the number of nodes of the parsed page.
#[verifier::external_body]
fn node_count(dom: &tl::VDom) -> (count: usize)
    ensures
        count == node_tags(dom).len(),
{
    dom.nodes().len()
}

/// `Node::as_tag` and `HTMLTag::name` on one node of `VDom::nodes`: the
/// name of its tag as a string, or nothing for a node that is no tag.  The
/// result depends on the parsed page and the position alone; the contract
/// gives it its name.
#[verifier::external_body]
fn node_tag(dom: &tl::VDom, at: usize) -> (tag: Option<String>)
    requires
        at < node_tags(dom).len(),
    ensures
        tag.deep_view() == node_tags(dom)[at as int],
{
    match dom.nodes()[at].as_tag() {
        Some(tag) => Some(tag.name().as_utf8_str().into_owned()),
        None => None,
    }
}

/// For each node of a parsed page, in the order of the page, the name of
/// its tag, or nothing for text and comments.
fn tag_names(dom: &tl::VDom) -> (tags: Vec<Option<String>>)
    ensures
        tags.deep_view() == node_tags(dom),
{
    let n = node_count(dom);
    let mut tags: Vec<Option<String>> = Vec::new();
    let mut at: usize = 0;
    while at < n
        invariant
            n == node_tags(dom).len(),
            at <= n,
            tags.deep_view() == node_tags(dom).take(at as int),
        decreases n - at,
    {
        let ghost listed = tags.deep_view();
        let tag = node_tag(dom, at);
        let ghost shown = tag.deep_view();
        tags.push(tag);
        assert(tags.deep_view() =~= listed.push(shown));
        assert(node_tags(dom).take(at + 1) =~= listed.push(shown));
        at += 1;
    }
    assert(node_tags(dom).take(n as int) =~= node_tags(dom));
    tags
}

/// Why a page could not be read.
#[derive(Clone, Copy, Debug, PartialEq, Eq)]
pub enum PageError {
    /// The markup has more bytes than the parser can count.
    TooLong,
}

/// Parses `markup`.  Markup of more bytes than a `u32` can count is
/// refused; all other markup is parsed, whatever it holds, and the parsed
/// page holds the nodes of that markup.
pub fn parse_page(markup: &str) -> (parsed: Result<tl::VDom<'_>, PageError>)
    ensures
        parsed is Ok <==> markup.spec_bytes().len() <= u32::MAX,
        match parsed {
            Ok(dom) => node_tags(&dom) == page_tags(markup@),
            Err(error) => error == PageError::TooLong,
        },
{
    match parse(markup) {
        Ok(dom) => Ok(dom),
        Err(_) => Err(PageError::TooLong),
    }
}

/// Whether a node is a `body` tag.
pub open spec fn is_body(tag: Option<Seq<char>>) -> bool {
    tag == Some("body"@)
}

/// Finds the first `body` tag among the tags of the nodes of a page.
pub fn find_body(tags: &Vec<Option<String>>) -> (found: Option<usize>)
    ensures
        match found {
            Some(at) => {
                &&& at < tags.len()
                &&& is_body(tags.deep_view()[at as int])
                &&& forall|i: int| 0 <= i < at ==> !is_body(#[trigger] tags.deep_view()[i])
            },
            None => forall|i: int|
                0 <= i < tags.len() ==> !is_body(#[trigger] tags.deep_view()[i]),
        },
{
    let body = "body".to_owned();
    let n = tags.len();
    let mut at: usize = 0;
    while at < n
        invariant
            n == tags.len(),
            at <= n,
            body@ == "body"@,
            forall|i: int| 0 <= i < at ==> !is_body(#[trigger] tags.deep_view()[i]),
        decreases n - at,
    {
        let named = match &tags[at] {
            Some(name) => *name == body,
            None => false,
        };
        assert(named == is_body(tags.deep_view()[at as int]));
        if named {
            return Some(at);
        }
        at += 1;
    }
    None
}

/// Finds the first `body` tag of a parsed page.
pub fn body_position(dom: &tl::VDom) -> (found: Option<usize>)
    ensures
        match found {
            Some(at) => {
                &&& at < node_tags(dom).len()
                &&& is_body(node_tags(dom)[at as int])
                &&& forall|i: int| 0 <= i < at ==> !is_body(#[trigger] node_tags(dom)[i])
            },
            None => forall|i: int|
                0 <= i < node_tags(dom).len() ==> !is_body(#[trigger] node_tags(dom)[i]),
        },
{
    let tags = tag_names(dom);
    find_body(&tags)
}

/// The text that is indexed for the page at `url`.
pub open spec fn content_of(url: Seq<char>, body: Option<Seq<char>>) -> Seq<char> {
    match body {
        Some(text) => text.push(' '),
        None => "error "@ + url,
    }
}

/// The text that is indexed for the page at `url`: the text of its body and
/// a space, or, for a page without a body, a notice that names the page.
pub fn page_content(url: &str, body: Option<&str>) -> (content: String)
    ensures
        content@ == content_of(
            url@,
            match body {
                Some(text) => Some(text@),
                None => None,
            },
        ),
{
    match body {
        Some(text) => {
            let mut content = text.to_owned();
            content.push(' ');
            content
        },
        None => {
            let mut content = "error ".to_owned();
            content.append(url);
            content
        },
    }
}

} // verus!
