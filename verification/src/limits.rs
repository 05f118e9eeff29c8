use vstd::prelude::*;

verus! {

/// Longest tag name `document.createElement` accepts, in bytes.
pub const MAX_TAG_NAME_LENGTH: usize = 64;

/// Longest attribute name (and class token) accepted, in bytes.
pub const MAX_ATTRIBUTE_NAME_LENGTH: usize = 64;

/// Longest attribute value accepted, in bytes.
pub const MAX_ATTRIBUTE_VALUE_LENGTH: usize = 4096;

/// Longest text or comment node data accepted, in bytes.
pub const MAX_TEXT_NODE_LENGTH: usize = 16384;

/// Longest `innerHTML`/`outerHTML`/`insertAdjacentHTML` input, in bytes.
pub const MAX_HTML_LENGTH: usize = 65536;

/// Most node-or-string arguments one `append`/`prepend`/`before`/`after`/
/// `replaceWith` call accepts.
pub const MAX_CHILD_NODE_ARGS: usize = 256;


/// Longest selector `querySelector`, `matches` and `closest` accept, in
/// bytes.
pub const MAX_SELECTOR_LENGTH: usize = 1024;

} // verus!
