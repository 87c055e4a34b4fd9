//! The static status page served to a browser: one fixed HTML document.

use vstd::prelude::*;
use vstd::string::*;
use crate::live_session::LiveSession;

verus! {

/// The page's stylesheet.
pub open spec fn page_css() -> Seq<char> {
    "body { font-family: sans-serif; margin: 2em; } h1 { color: #e13835; }"@
}

/// The whole document: doctype, head with title and style, and the body.
pub open spec fn page_view() -> Seq<char> {
    "<!doctype html>\n<html><head><title>Rojo Live Session</title><style>"@ + page_css()
        + "</style></head><body><h1>Hello, world!</h1></body></html>"@
}

/// Render the status page for a live session.
pub fn render(live_session: &LiveSession) -> (r: String)
    ensures
        r@ == page_view(),
{
    let _ = live_session;
    let mut out = String::from_str(
        "<!doctype html>\n<html><head><title>Rojo Live Session</title><style>",
    );
    out.append("body { font-family: sans-serif; margin: 2em; } h1 { color: #e13835; }");
    out.append("</style></head><body><h1>Hello, world!</h1></body></html>");
    out
}

} // verus!
