//! Validation of the names scripts hand to the DOM: tag names, attribute
//! names and the byte-length bounds on attribute values.

use vstd::prelude::*;
use vstd::string::StringSliceAdditionalSpecFns;

use crate::limits::{MAX_ATTRIBUTE_NAME_LENGTH, MAX_ATTRIBUTE_VALUE_LENGTH, MAX_TAG_NAME_LENGTH};
use crate::text::{ascii_upper, byte_len, same_text, to_ascii_uppercase, utf8_len};

verus! {

/// `c` is an ASCII letter or digit.
pub open spec fn is_ascii_alnum(c: u8) -> bool {
    (48 <= c <= 57) || (65 <= c <= 90) || (97 <= c <= 122)
}

/// A byte allowed in a tag name: ASCII alphanumeric or `-`.
pub open spec fn is_tag_byte(c: u8) -> bool {
    is_ascii_alnum(c) || c == 45
}

/// A byte allowed in an attribute name: ASCII alphanumeric, `-`, `_` or `:`.
pub open spec fn is_attribute_name_byte(c: u8) -> bool {
    is_ascii_alnum(c) || c == 45 || c == 95 || c == 58
}

/// The tag-name rule over the UTF-8 bytes of a name.
pub open spec fn tag_name_ok(bytes: Seq<u8>) -> bool {
    &&& bytes.len() > 0
    &&& bytes.len() <= MAX_TAG_NAME_LENGTH
    &&& forall|i: int| 0 <= i < bytes.len() ==> is_tag_byte(#[trigger] bytes[i])
}

/// The attribute-name rule over the UTF-8 bytes of a name.
pub open spec fn attribute_name_ok(bytes: Seq<u8>) -> bool {
    &&& bytes.len() > 0
    &&& bytes.len() <= MAX_ATTRIBUTE_NAME_LENGTH
    &&& forall|i: int| 0 <= i < bytes.len() ==> is_attribute_name_byte(#[trigger] bytes[i])
}

fn tag_byte(c: u8) -> (r: bool)
    ensures
        r == is_tag_byte(c),
{
    (48 <= c && c <= 57) || (65 <= c && c <= 90) || (97 <= c && c <= 122) || c == 45
}

fn attribute_name_byte(c: u8) -> (r: bool)
    ensures
        r == is_attribute_name_byte(c),
{
    (48 <= c && c <= 57) || (65 <= c && c <= 90) || (97 <= c && c <= 122) || c == 45 || c == 95
        || c == 58
}

/// Whether `tag` is a tag name `createElement` accepts: non-empty, at most
/// 64 bytes, and made only of ASCII letters, digits and `-`.
pub fn valid_tag_name(tag: &str) -> (r: bool)
    ensures
        r == tag_name_ok(tag.spec_bytes()),
{
    let bytes = tag.as_bytes();
    let n = bytes.len();
    if n == 0 || n > MAX_TAG_NAME_LENGTH {
        return false;
    }
    let mut i: usize = 0;
    while i < n
        invariant
            n == bytes@.len(),
            bytes@ == tag.spec_bytes(),
            i <= n,
            forall|j: int| 0 <= j < i ==> is_tag_byte(#[trigger] bytes@[j]),
        decreases n - i,
    {
        if !tag_byte(bytes[i]) {
            return false;
        }
        i = i + 1;
    }
    true
}

/// Whether `name` is an attribute name the DOM accepts: non-empty, at most
/// 64 bytes, and made only of ASCII letters, digits, `-`, `_` and `:`.
pub fn valid_attribute_name(name: &str) -> (r: bool)
    ensures
        r == attribute_name_ok(name.spec_bytes()),
{
    let bytes = name.as_bytes();
    let n = bytes.len();
    if n == 0 || n > MAX_ATTRIBUTE_NAME_LENGTH {
        return false;
    }
    let mut i: usize = 0;
    while i < n
        invariant
            n == bytes@.len(),
            bytes@ == name.spec_bytes(),
            i <= n,
            forall|j: int| 0 <= j < i ==> is_attribute_name_byte(#[trigger] bytes@[j]),
        decreases n - i,
    {
        if !attribute_name_byte(bytes[i]) {
            return false;
        }
        i = i + 1;
    }
    true
}


/// Why an attribute write was refused.
#[derive(Debug, Clone, Copy, PartialEq, Eq, Structural)]
pub enum AttributeError {
    /// The name is not a valid attribute name.
    InvalidName,
    /// The value is longer than 4096 bytes.
    ValueTooLong,
}

/// Whether `value` fits in an attribute (at most 4096 bytes), as the
/// reflected-property setters (`id`, `className`, ...) and
/// `classList.value` require.
pub fn attribute_value_fits(value: &str) -> (r: bool)
    ensures
        r == (utf8_len(value@) <= MAX_ATTRIBUTE_VALUE_LENGTH),
{
    byte_len(value) <= MAX_ATTRIBUTE_VALUE_LENGTH
}

/// Whether `setAttribute(name, value)` may write: `InvalidName` unless the
/// name is valid, else `ValueTooLong` past 4096 bytes.
pub fn check_set_attribute(name: &str, value: &str) -> (r: Result<(), AttributeError>)
    ensures
        r == (if !attribute_name_ok(name.spec_bytes()) {
            Err::<(), AttributeError>(AttributeError::InvalidName)
        } else if utf8_len(value@) > MAX_ATTRIBUTE_VALUE_LENGTH {
            Err::<(), AttributeError>(AttributeError::ValueTooLong)
        } else {
            Ok::<(), AttributeError>(())
        }),
{
    if !valid_attribute_name(name) {
        return Err(AttributeError::InvalidName);
    }
    if !attribute_value_fits(value) {
        return Err(AttributeError::ValueTooLong);
    }
    Ok(())
}

/// The kind of a DOM node, with an element's tag.
pub enum NodeKind {
    Document,
    Element(String),
    Text,
    Comment,
    DocumentFragment,
}

/// `node.nodeType`.
pub fn node_type_number(kind: &NodeKind) -> (n: u16)
    ensures
        n == match kind {
            NodeKind::Document => 9u16,
            NodeKind::Element(_) => 1u16,
            NodeKind::Text => 3u16,
            NodeKind::Comment => 8u16,
            NodeKind::DocumentFragment => 11u16,
        },
{
    match kind {
        NodeKind::Document => 9,
        NodeKind::Element(_) => 1,
        NodeKind::Text => 3,
        NodeKind::Comment => 8,
        NodeKind::DocumentFragment => 11,
    }
}

/// `node.nodeName`: an element's tag uppercased (ASCII), `#document`,
/// `#text`, `#comment` or `#document-fragment` otherwise.
pub fn node_name(kind: &NodeKind) -> (r: String)
    ensures
        r@ == match kind {
            NodeKind::Document => "#document"@,
            NodeKind::Element(tag) => ascii_upper(tag@),
            NodeKind::Text => "#text"@,
            NodeKind::Comment => "#comment"@,
            NodeKind::DocumentFragment => "#document-fragment"@,
        },
{
    match kind {
        NodeKind::Document => "#document".to_owned(),
        NodeKind::Element(tag) => to_ascii_uppercase(tag.as_str()),
        NodeKind::Text => "#text".to_owned(),
        NodeKind::Comment => "#comment".to_owned(),
        NodeKind::DocumentFragment => "#document-fragment".to_owned(),
    }
}

/// The JavaScript class a DOM node is wrapped with.
#[derive(Debug, Clone, Copy, PartialEq, Eq, Structural)]
pub enum ClassKind {
    Node,
    Element,
    HTMLElement,
    HTMLInputElement,
    HTMLButtonElement,
    HTMLAnchorElement,
    HTMLImageElement,
    HTMLCanvasElement,
    HTMLFormElement,
    HTMLSelectElement,
}

/// The class for an element with tag `tag` (matched exactly).
pub open spec fn class_for_tag_spec(tag: Seq<char>) -> ClassKind {
    if tag == "input"@ {
        ClassKind::HTMLInputElement
    } else if tag == "button"@ {
        ClassKind::HTMLButtonElement
    } else if tag == "a"@ {
        ClassKind::HTMLAnchorElement
    } else if tag == "img"@ {
        ClassKind::HTMLImageElement
    } else if tag == "canvas"@ {
        ClassKind::HTMLCanvasElement
    } else if tag == "form"@ {
        ClassKind::HTMLFormElement
    } else if tag == "select"@ {
        ClassKind::HTMLSelectElement
    } else {
        ClassKind::HTMLElement
    }
}

/// The class an element with tag `tag` is wrapped with: its specific
/// `HTML*Element` subclass, or `HTMLElement`.
pub fn class_for_tag(tag: &str) -> (r: ClassKind)
    ensures
        r == class_for_tag_spec(tag@),
{
    if same_text(tag, "input") {
        ClassKind::HTMLInputElement
    } else if same_text(tag, "button") {
        ClassKind::HTMLButtonElement
    } else if same_text(tag, "a") {
        ClassKind::HTMLAnchorElement
    } else if same_text(tag, "img") {
        ClassKind::HTMLImageElement
    } else if same_text(tag, "canvas") {
        ClassKind::HTMLCanvasElement
    } else if same_text(tag, "form") {
        ClassKind::HTMLFormElement
    } else if same_text(tag, "select") {
        ClassKind::HTMLSelectElement
    } else {
        ClassKind::HTMLElement
    }
}

/// The registered class id to use for an element: the one registered for
/// its class kind when non-zero, else `Element`'s when non-zero, else
/// `Node`'s (a class id of 0 means "not registered").
pub fn resolve_class_id(specific: u32, element: u32, node: u32) -> (r: u32)
    ensures
        r == (if specific != 0 {
            specific
        } else if element != 0 {
            element
        } else {
            node
        }),
{
    if specific != 0 {
        specific
    } else if element != 0 {
        element
    } else {
        node
    }
}

/// Where `insertAdjacentHTML` inserts.
#[derive(Debug, Clone, Copy, PartialEq, Eq, Structural)]
pub enum AdjacentPosition {
    BeforeBegin,
    AfterBegin,
    BeforeEnd,
    AfterEnd,
}

/// The position named by an `insertAdjacentHTML` argument (matched
/// exactly), or `None` when the call throws.
pub fn parse_adjacent_position(s: &str) -> (r: Option<AdjacentPosition>)
    ensures
        r == (if s@ == "beforebegin"@ {
            Some(AdjacentPosition::BeforeBegin)
        } else if s@ == "afterbegin"@ {
            Some(AdjacentPosition::AfterBegin)
        } else if s@ == "beforeend"@ {
            Some(AdjacentPosition::BeforeEnd)
        } else if s@ == "afterend"@ {
            Some(AdjacentPosition::AfterEnd)
        } else {
            None::<AdjacentPosition>
        }),
{
    if same_text(s, "beforebegin") {
        Some(AdjacentPosition::BeforeBegin)
    } else if same_text(s, "afterbegin") {
        Some(AdjacentPosition::AfterBegin)
    } else if same_text(s, "beforeend") {
        Some(AdjacentPosition::BeforeEnd)
    } else if same_text(s, "afterend") {
        Some(AdjacentPosition::AfterEnd)
    } else {
        None
    }
}

/// Where new nodes go: before an existing node, or at the end of a
/// parent's children.
#[derive(Debug, Clone, Copy, PartialEq, Eq, Structural)]
pub enum InsertionPoint {
    Before(u64),
    AppendTo(u64),
}

/// The insertion point for inserting right before `reference` when there
/// is one, else at the end of `parent`.
pub fn insertion_point(reference: Option<u64>, parent: u64) -> (r: InsertionPoint)
    ensures
        r == match reference {
            Some(n) => InsertionPoint::Before(n),
            None => InsertionPoint::AppendTo(parent),
        },
{
    match reference {
        Some(n) => InsertionPoint::Before(n),
        None => InsertionPoint::AppendTo(parent),
    }
}

/// Why `insertAdjacentHTML` threw before parsing.
#[derive(Debug, Clone, Copy, PartialEq, Eq, Structural)]
pub enum AdjacentError {
    /// `beforebegin`/`afterend` on a node without a parent.
    NoParent,
}

/// Where `insertAdjacentHTML(position, html)` puts the parsed nodes of
/// `this` (whose parent, first child and next sibling are given):
/// `beforebegin` before it, `afterbegin` before its first child (or at its
/// end), `beforeend` at its end, `afterend` before its next sibling (or at
/// its parent's end). `beforebegin`/`afterend` need a parent.
pub fn adjacent_insertion_point(
    position: AdjacentPosition,
    this: u64,
    parent: Option<u64>,
    first_child: Option<u64>,
    next_sibling: Option<u64>,
) -> (r: Result<InsertionPoint, AdjacentError>)
    ensures
        r == match position {
            AdjacentPosition::BeforeBegin => match parent {
                Some(_) => Ok::<InsertionPoint, AdjacentError>(InsertionPoint::Before(this)),
                None => Err::<InsertionPoint, AdjacentError>(AdjacentError::NoParent),
            },
            AdjacentPosition::AfterBegin => Ok(
                match first_child {
                    Some(c) => InsertionPoint::Before(c),
                    None => InsertionPoint::AppendTo(this),
                },
            ),
            AdjacentPosition::BeforeEnd => Ok(InsertionPoint::AppendTo(this)),
            AdjacentPosition::AfterEnd => match parent {
                Some(p) => Ok(
                    match next_sibling {
                        Some(s) => InsertionPoint::Before(s),
                        None => InsertionPoint::AppendTo(p),
                    },
                ),
                None => Err(AdjacentError::NoParent),
            },
        },
{
    match position {
        AdjacentPosition::BeforeBegin => match parent {
            Some(_) => Ok(InsertionPoint::Before(this)),
            None => Err(AdjacentError::NoParent),
        },
        AdjacentPosition::AfterBegin => Ok(insertion_point(first_child, this)),
        AdjacentPosition::BeforeEnd => Ok(InsertionPoint::AppendTo(this)),
        AdjacentPosition::AfterEnd => match parent {
            Some(p) => Ok(insertion_point(next_sibling, p)),
            None => Err(AdjacentError::NoParent),
        },
    }
}


/// A shadow root's mode.
#[derive(Debug, Clone, Copy, PartialEq, Eq, Structural)]
pub enum ShadowMode {
    Open,
    Closed,
}

/// `attachShadow`'s `options.mode`: exactly `open` or `closed`; anything
/// else (or no string) is refused.
pub fn parse_shadow_mode(mode: Option<&str>) -> (r: Option<ShadowMode>)
    ensures
        r == match mode {
            Some(m) => if m@ == "open"@ {
                Some(ShadowMode::Open)
            } else if m@ == "closed"@ {
                Some(ShadowMode::Closed)
            } else {
                None
            },
            None => None,
        },
{
    match mode {
        Some(m) => if same_text(m, "open") {
            Some(ShadowMode::Open)
        } else if same_text(m, "closed") {
            Some(ShadowMode::Closed)
        } else {
            None
        },
        None => None,
    }
}

/// The `mode` string of a shadow root.
pub fn shadow_mode_name(mode: ShadowMode) -> (r: String)
    ensures
        r@ == match mode {
            ShadowMode::Open => "open"@,
            ShadowMode::Closed => "closed"@,
        },
{
    match mode {
        ShadowMode::Open => "open".to_string(),
        ShadowMode::Closed => "closed".to_string(),
    }
}

/// Whether `element.shadowRoot` hands the root out: only an open one is.
pub fn shadow_root_exposed(mode: Option<ShadowMode>) -> (r: bool)
    ensures
        r == (mode == Some(ShadowMode::Open)),
{
    match mode {
        Some(ShadowMode::Open) => true,
        _ => false,
    }
}

} // verus!
