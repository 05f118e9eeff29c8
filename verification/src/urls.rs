//! URL resolution for `history.pushState`/`replaceState`, through the `url`
//! crate's WHATWG parser.

use vstd::prelude::*;

verus! {

#[verifier::external_type_specification]
#[verifier::external_body]
pub struct ExUrl(url::Url);

/// The serialization of what `url::Url::parse` makes of `input`, or `None`
/// when it refuses `input`.
pub uninterp spec fn url_parse_result(input: Seq<char>) -> Option<Seq<char>>;

/// The serialization of what `url::Url::join` makes of `input` against the
/// URL serialized as `base`, or `None` when it refuses `input`.
pub uninterp spec fn url_join_result(base: Seq<char>, input: Seq<char>) -> Option<Seq<char>>;

/// A parsed URL together with its serialization.
pub struct ParsedUrl {
    url: url::Url,
    text: String,
}

impl View for ParsedUrl {
    type V = Seq<char>;

    /// The URL's serialization.
    closed spec fn view(&self) -> Seq<char> {
        self.text@
    }
}

/// The views of an optional URL.
pub open spec fn opt_url_view(u: Option<ParsedUrl>) -> Option<Seq<char>> {
    match u {
        Some(p) => Some(p@),
        None => None,
    }
}

/// The views of an optional string.
pub open spec fn opt_string_view(s: Option<String>) -> Option<Seq<char>> {
    match s {
        Some(t) => Some(t@),
        None => None,
    }
}

/// Parses `input` as an absolute URL.
///
/// Wraps `url::Url::parse`; the contract claims only that the result is
/// the named function of `input`, serialized with `Display`.
#[verifier::external_body]
fn url_parse(input: &str) -> (r: Option<ParsedUrl>)
    ensures
        opt_url_view(r) == url_parse_result(input@),
{
    match url::Url::parse(input) {
        Ok(url) => Some(ParsedUrl { text: url.to_string(), url }),
        Err(_) => None,
    }
}

/// Resolves `input` against `base`.
///
/// Wraps `url::Url::join`; the contract claims only that the result is the
/// named function of the base's serialization and `input`.
#[verifier::external_body]
fn url_join(base: &ParsedUrl, input: &str) -> (r: Option<ParsedUrl>)
    ensures
        opt_url_view(r) == url_join_result(base@, input@),
{
    match base.url.join(input) {
        Ok(url) => Some(ParsedUrl { text: url.to_string(), url }),
        Err(_) => None,
    }
}

impl ParsedUrl {
    /// Parses the document's current location; `None` when it is not a
    /// URL.
    pub fn parse(input: &str) -> (r: Option<ParsedUrl>)
        ensures
            opt_url_view(r) == url_parse_result(input@),
    {
        url_parse(input)
    }

    /// The URL's serialization.
    pub fn text(&self) -> (r: String)
        ensures
            r@ == self@,
    {
        self.text.clone()
    }
}

/// What a `pushState`/`replaceState` URL argument resolves to, given the
/// outcomes of resolving it against the current location (`joined`) and of
/// parsing it as an absolute URL (`reparsed`): the first that succeeded,
/// else the argument itself.
pub open spec fn pick_spec(
    joined: Option<Seq<char>>,
    reparsed: Option<Seq<char>>,
    raw: Seq<char>,
) -> Seq<char> {
    match joined {
        Some(j) => j,
        None => match reparsed {
            Some(p) => p,
            None => raw,
        },
    }
}

/// Chooses the resolved URL among the candidates (see `pick_spec`).
pub fn pick_resolved_url(joined: Option<String>, reparsed: Option<String>, raw: &str) -> (r: String)
    ensures
        r@ == pick_spec(opt_string_view(joined), opt_string_view(reparsed), raw@),
{
    match joined {
        Some(j) => j,
        None => match reparsed {
            Some(p) => p,
            None => raw.to_owned(),
        },
    }
}

/// The URL a `pushState`/`replaceState` call records.
pub open spec fn resolve_spec(current: Option<Seq<char>>, provided: Option<Seq<char>>) -> Option<
    Seq<char>,
> {
    match provided {
        None => current,
        Some(raw) => {
            let joined = match current {
                Some(b) => url_join_result(b, raw),
                None => None,
            };
            let reparsed = match joined {
                Some(_) => None,
                None => url_parse_result(raw),
            };
            Some(pick_spec(joined, reparsed, raw))
        },
    }
}

/// Resolves a `pushState`/`replaceState` URL argument: against the
/// current location when there is one, else as an absolute URL, else kept
/// as given. Without an argument, the current location (if any) is kept.
pub fn resolve_url(current: Option<&ParsedUrl>, provided: Option<&str>) -> (r: Option<String>)
    ensures
        opt_string_view(r) == resolve_spec(
            match current {
                Some(c) => Some(c@),
                None => None,
            },
            match provided {
                Some(p) => Some(p@),
                None => None,
            },
        ),
{
    match provided {
        None => match current {
            Some(c) => Some(c.text()),
            None => None,
        },
        Some(raw) => {
            let joined = match current {
                Some(base) => url_join(base, raw),
                None => None,
            };
            let joined_text = match joined {
                Some(j) => Some(j.text()),
                None => None,
            };
            let reparsed_text = match joined_text {
                Some(_) => None,
                None => match url_parse(raw) {
                    Some(p) => Some(p.text()),
                    None => None,
                },
            };
            Some(pick_resolved_url(joined_text, reparsed_text, raw))
        },
    }
}

} // verus!
