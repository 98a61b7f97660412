//! What the search server answers to a request.

use vstd::prelude::*;

verus! {

/// The answer to a request.
#[derive(Debug, PartialEq, Eq)]
pub enum Reply {
    /// A text, sent as it is.
    Text(String),
    /// The file at `path`, sent with the content type `content_type`.
    File { path: String, content_type: String },
}

/// A `Reply` as a mathematical value.
pub enum ReplyView {
    Text(Seq<char>),
    File { path: Seq<char>, content_type: Seq<char> },
}

impl View for Reply {
    type V = ReplyView;

    open spec fn view(&self) -> ReplyView {
        match self {
            Reply::Text(text) => ReplyView::Text(text@),
            Reply::File { path, content_type } => ReplyView::File {
                path: path@,
                content_type: content_type@,
            },
        }
    }
}

/// The answer to a request for `url`, where `get` says whether the request
/// is a GET: a greeting for the front page, the script for its address, and
/// a notice that nothing was found for everything else.
pub open spec fn reply_of(get: bool, url: Seq<char>) -> ReplyView {
    if get && (url == "/"@ || url == "/index.html"@) {
        ReplyView::Text("hello world"@)
    } else if get && url == "/index.js"@ {
        ReplyView::File { path: "/index.js"@, content_type: ""@ }
    } else {
        ReplyView::Text("404"@)
    }
}

/// Decides the answer to a request for `url`, where `get` says whether the
/// request is a GET.
pub fn reply_to(get: bool, url: &str) -> (reply: Reply)
    ensures
        reply@ == reply_of(get, url@),
{
    let asked = url.to_owned();
    if get && (asked == "/".to_owned() || asked == "/index.html".to_owned()) {
        Reply::Text("hello world".to_owned())
    } else if get && asked == "/index.js".to_owned() {
        Reply::File { path: "/index.js".to_owned(), content_type: "".to_owned() }
    } else {
        Reply::Text("404".to_owned())
    }
}

} // verus!
