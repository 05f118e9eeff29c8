//! Requests that `fetch()` and `XMLHttpRequest` send: the method, headers
//! and body drawn from a `RequestInit` or an XHR's accumulated state, the
//! XHR `readyState` life cycle, and how a finished request is reported.

use vstd::prelude::*;
use vstd::string::StringSliceAdditionalSpecFns;

use crate::form_data::SerializedForm;
use crate::text::{
    all_digits, ascii_lower, ascii_upper, chars_of, digits_value, eq_ignore_ascii_case, is_digit,
    lemma_digits_value_grows, same_text, to_ascii_uppercase,
};

verus! {

/// A fully owned request description handed to the network thread.
pub struct RequestSpec {
    pub method: String,
    pub headers: Vec<(String, String)>,
    pub body: Option<Vec<u8>>,
}

/// The body a script supplied: nothing usable, a string, or a serialized
/// `FormData`.
pub enum BodyInit {
    Absent,
    Text(String),
    Form(SerializedForm),
}

/// The views of a header list.
pub open spec fn header_views(h: Seq<(String, String)>) -> Seq<(Seq<char>, Seq<char>)> {
    h.map_values(|p: (String, String)| (p.0@, p.1@))
}

/// Whether some header is named `content-type`, ignoring ASCII case.
pub open spec fn has_content_type(h: Seq<(Seq<char>, Seq<char>)>) -> bool {
    exists|i: int| 0 <= i < h.len() && ascii_lower(#[trigger] h[i].0) == ascii_lower("content-type"@)
}

/// The method a `RequestInit` names: its `method` uppercased (ASCII) when
/// given and non-empty, else `GET`.
pub open spec fn method_spec(method: Option<Seq<char>>) -> Seq<char> {
    match method {
        Some(m) => if m.len() > 0 {
            ascii_upper(m)
        } else {
            "GET"@
        },
        None => "GET"@,
    }
}

/// The headers sent with a body: the script's headers, with the body's
/// default `Content-Type` appended unless one was given.
pub open spec fn headers_with_default(
    h: Seq<(Seq<char>, Seq<char>)>,
    content_type: Seq<char>,
) -> Seq<(Seq<char>, Seq<char>)> {
    if has_content_type(h) {
        h
    } else {
        h.push(("Content-Type"@, content_type))
    }
}

/// Whether the header list holds a `Content-Type`, ignoring ASCII case.
pub fn contains_content_type(headers: &Vec<(String, String)>) -> (r: bool)
    ensures
        r == has_content_type(header_views(headers@)),
{
    let n = headers.len();
    let mut i: usize = 0;
    while i < n
        invariant
            n == headers@.len(),
            i <= n,
            forall|j: int|
                0 <= j < i ==> ascii_lower(#[trigger] header_views(headers@)[j].0) != ascii_lower(
                    "content-type"@,
                ),
        decreases n - i,
    {
        if eq_ignore_ascii_case(headers[i].0.as_str(), "content-type") {
            proof {
                assert(header_views(headers@)[i as int].0 == headers@[i as int].0@);
            }
            return true;
        }
        proof {
            assert(header_views(headers@)[i as int].0 == headers@[i as int].0@);
        }
        i = i + 1;
    }
    false
}

fn copy_bytes(b: &[u8]) -> (r: Vec<u8>)
    ensures
        r@ == b@,
{
    let mut out: Vec<u8> = Vec::new();
    let n = b.len();
    let mut i: usize = 0;
    while i < n
        invariant
            n == b@.len(),
            i <= n,
            out@ == b@.take(i as int),
        decreases n - i,
    {
        out.push(b[i]);
        proof {
            assert(out@ =~= b@.take(i + 1));
        }
        i = i + 1;
    }
    proof {
        assert(b@.take(n as int) =~= b@);
    }
    out
}

/// The optional body's bytes.
pub open spec fn opt_bytes(b: Option<Vec<u8>>) -> Option<Seq<u8>> {
    match b {
        Some(v) => Some(v@),
        None => None,
    }
}

/// Appends `Content-Type: value` unless a content type is already set.
fn add_default_content_type(headers: &mut Vec<(String, String)>, value: String)
    ensures
        header_views(final(headers)@) == headers_with_default(header_views(old(headers)@), value@),
{
    if !contains_content_type(headers) {
        let ghost before = headers@;
        headers.push(("Content-Type".to_owned(), value));
        proof {
            reveal_strlit("Content-Type");
            assert(header_views(headers@) =~= header_views(before).push(("Content-Type"@, value@)));
        }
    }
}

/// `fetch(url, init)`'s request from the parts of `init` read from script:
/// its `method` (when a string), its headers (name/value pairs, in order)
/// and its body. A string body defaults `Content-Type` to
/// `text/plain;charset=UTF-8`, a `FormData` body to its multipart type;
/// any other body is dropped.
pub fn request_from_init(method: Option<String>, headers: Vec<(String, String)>, body: BodyInit) -> (r:
    RequestSpec)
    ensures
        r.method@ == method_spec(
            match method {
                Some(m) => Some(m@),
                None => None,
            },
        ),
        match body {
            BodyInit::Absent => header_views(r.headers@) == header_views(headers@) && r.body
                == None::<Vec<u8>>,
            BodyInit::Text(t) => header_views(r.headers@) == headers_with_default(
                header_views(headers@),
                "text/plain;charset=UTF-8"@,
            ) && opt_bytes(r.body) == Some(vstd::utf8::encode_utf8(t@)),
            BodyInit::Form(f) => header_views(r.headers@) == headers_with_default(
                header_views(headers@),
                f.content_type@,
            ) && opt_bytes(r.body) == Some(f.body@),
        },
{
    let method_out = match method {
        Some(m) => if m.as_str().is_empty() {
            "GET".to_owned()
        } else {
            to_ascii_uppercase(m.as_str())
        },
        None => "GET".to_owned(),
    };
    let mut headers = headers;
    let body_out = match body {
        BodyInit::Absent => None,
        BodyInit::Text(t) => {
            add_default_content_type(&mut headers, "text/plain;charset=UTF-8".to_owned());
            Some(copy_bytes(t.as_str().as_bytes()))
        },
        BodyInit::Form(f) => {
            add_default_content_type(&mut headers, f.content_type);
            Some(f.body)
        },
    };
    RequestSpec { method: method_out, headers, body: body_out }
}

impl RequestSpec {
    /// Appends the browser's `Referer` header, after every script header so
    /// none can override it.
    pub fn push_referrer(&mut self, referrer: Option<String>)
        ensures
            final(self).method == old(self).method,
            final(self).body == old(self).body,
            header_views(final(self).headers@) == match referrer {
                Some(r) => header_views(old(self).headers@).push(("Referer"@, r@)),
                None => header_views(old(self).headers@),
            },
    {
        match referrer {
            Some(r) => {
                let ghost before = self.headers@;
                let ghost rv = r@;
                self.headers.push(("Referer".to_owned(), r));
                proof {
                    reveal_strlit("Referer");
                    assert(header_views(self.headers@) =~= header_views(before).push(("Referer"@, rv)));
                }
            },
            None => {},
        }
    }
}

/// `XMLHttpRequest.readyState` values this engine reaches.
#[derive(Debug, Clone, Copy, PartialEq, Eq, Structural)]
pub enum ReadyState {
    Unsent,
    Opened,
    Done,
}

/// The numeric `readyState`.
pub fn ready_state_number(s: ReadyState) -> (n: u32)
    ensures
        n == match s {
            ReadyState::Unsent => 0u32,
            ReadyState::Opened => 1u32,
            ReadyState::Done => 4u32,
        },
{
    match s {
        ReadyState::Unsent => 0,
        ReadyState::Opened => 1,
        ReadyState::Done => 4,
    }
}

/// The body handed to `xhr.send(body)`.
pub enum XhrBody {
    Absent,
    Text(String),
    Form(SerializedForm),
}

/// What a finished request reports: the response (status and body text)
/// or an error message.
pub enum Completion {
    Load { status: u32, text: String },
    Error(String),
}

/// The script-visible state of one `XMLHttpRequest`.
pub struct Xhr {
    pub ready_state: ReadyState,
    pub method: Option<String>,
    pub url: Option<String>,
    pub headers: Vec<(String, String)>,
    pub status: u32,
    pub response_text: String,
}

/// `headers` after `setRequestHeader(name, value)`: the value of the
/// first header already named `name` (exactly) is replaced in place, else
/// the header is appended.
pub open spec fn set_header_spec(
    h: Seq<(Seq<char>, Seq<char>)>,
    name: Seq<char>,
    value: Seq<char>,
) -> Seq<(Seq<char>, Seq<char>)> {
    if exists|i: int| 0 <= i < h.len() && #[trigger] h[i].0 == name {
        let i = choose|i: int|
            0 <= i < h.len() && #[trigger] h[i].0 == name && forall|j: int|
                0 <= j < i ==> #[trigger] h[j].0 != name;
        h.update(i, (name, value))
    } else {
        h.push((name, value))
    }
}

/// Where `send()` sends: the URL recorded by `open`, or, when none was,
/// `undefined` (what the unset URL reads as in script), which no request
/// can reach, so the failure is reported through `onerror`.
pub open spec fn target_url(url: Option<String>) -> Seq<char> {
    match url {
        Some(u) => u@,
        None => "undefined"@,
    }
}

/// Whether `name` is an array index, the kind of key a script object lists
/// before all others, in ascending numeric order: the canonical decimal
/// form (`0`, or digits without a leading zero) of a number below
/// 4294967295.
pub open spec fn is_index_key(name: Seq<char>) -> bool {
    &&& all_digits(name)
    &&& (name[0] == '0' ==> name.len() == 1)
    &&& digits_value(name) < 4294967295
}

/// `sorted` with `p` placed before its first entry whose key has a larger
/// index value.
pub open spec fn insert_index_entry(
    sorted: Seq<(Seq<char>, Seq<char>)>,
    p: (Seq<char>, Seq<char>),
) -> Seq<(Seq<char>, Seq<char>)>
    decreases sorted.len(),
{
    if sorted.len() == 0 {
        seq![p]
    } else if digits_value(p.0) < digits_value(sorted[0].0) {
        seq![p] + sorted
    } else {
        seq![sorted[0]] + insert_index_entry(sorted.drop_first(), p)
    }
}

/// The entries of `h` whose names are index keys, ascending by index value
/// (entries of equal value keep their order).
pub open spec fn index_entries(h: Seq<(Seq<char>, Seq<char>)>) -> Seq<(Seq<char>, Seq<char>)>
    decreases h.len(),
{
    if h.len() == 0 {
        h
    } else if is_index_key(h.last().0) {
        insert_index_entry(index_entries(h.drop_last()), h.last())
    } else {
        index_entries(h.drop_last())
    }
}

/// The entries of `h` whose names are not index keys, in their order.
pub open spec fn other_entries(h: Seq<(Seq<char>, Seq<char>)>) -> Seq<(Seq<char>, Seq<char>)>
    decreases h.len(),
{
    if h.len() == 0 {
        h
    } else if is_index_key(h.last().0) {
        other_entries(h.drop_last())
    } else {
        other_entries(h.drop_last()).push(h.last())
    }
}

/// The entries of `h` in the order a script object lists its own keys:
/// index keys first, ascending, then the other names in the order they
/// were first set.
pub open spec fn script_key_order(h: Seq<(Seq<char>, Seq<char>)>) -> Seq<(Seq<char>, Seq<char>)> {
    index_entries(h) + other_entries(h)
}

/// The entries' index values never decrease along `s`.
pub open spec fn index_sorted(s: Seq<(Seq<char>, Seq<char>)>) -> bool {
    forall|i: int, j: int|
        0 <= i < j < s.len() ==> digits_value(#[trigger] s[i].0) <= digits_value(#[trigger] s[j].0)
}

/// Inserting an index-keyed entry into a sorted run of index-keyed entries
/// keeps it sorted and adds just that entry.
proof fn lemma_insert_index_entry(s: Seq<(Seq<char>, Seq<char>)>, p: (Seq<char>, Seq<char>))
    requires
        index_sorted(s),
        forall|k: int| 0 <= k < s.len() ==> is_index_key(#[trigger] s[k].0),
        is_index_key(p.0),
    ensures
        index_sorted(insert_index_entry(s, p)),
        forall|k: int|
            0 <= k < insert_index_entry(s, p).len() ==> is_index_key(
                #[trigger] insert_index_entry(s, p)[k].0,
            ),
        forall|k: int|
            0 <= k < insert_index_entry(s, p).len() ==> #[trigger] insert_index_entry(s, p)[k] == p
                || s.contains(insert_index_entry(s, p)[k]),
        insert_index_entry(s, p).to_multiset() == s.to_multiset().insert(p),
    decreases s.len(),
{
    broadcast use vstd::seq_lib::group_to_multiset_ensures, vstd::seq_lib::lemma_multiset_commutative;

    let r = insert_index_entry(s, p);
    if s.len() == 0 {
        assert(seq![p] =~= s.push(p));
    } else if digits_value(p.0) < digits_value(s[0].0) {
        assert forall|k: int| 0 <= k < r.len() implies #[trigger] r[k] == p || s.contains(r[k]) by {
            if k > 0 {
                assert(r[k] == s[k - 1]);
            }
        }
        assert(r.to_multiset() == seq![p].to_multiset().add(s.to_multiset()));
        assert(seq![p] =~= Seq::<(Seq<char>, Seq<char>)>::empty().push(p));
    } else {
        let t = s.drop_first();
        let rt = insert_index_entry(t, p);
        lemma_insert_index_entry(t, p);
        assert(r == seq![s[0]] + rt);
        assert forall|k: int| 0 <= k < r.len() implies #[trigger] r[k] == p || s.contains(r[k]) by {
            if k == 0 {
                assert(s[0] == r[0]);
            } else {
                assert(r[k] == rt[k - 1]);
                if rt[k - 1] != p {
                    let m = choose|m: int| 0 <= m < t.len() && t[m] == rt[k - 1];
                    assert(s[m + 1] == r[k]);
                }
            }
        }
        assert forall|i: int, j: int| 0 <= i < j < r.len() implies digits_value(#[trigger] r[i].0)
            <= digits_value(#[trigger] r[j].0) by {
            if i == 0 {
                assert(r[j] == rt[j - 1]);
                if rt[j - 1] != p {
                    let m = choose|m: int| 0 <= m < t.len() && t[m] == rt[j - 1];
                    assert(s[m + 1] == r[j]);
                }
            } else {
                assert(r[i] == rt[i - 1]);
                assert(r[j] == rt[j - 1]);
            }
        }
        assert forall|k: int| 0 <= k < r.len() implies is_index_key(#[trigger] r[k].0) by {
            if k > 0 {
                assert(r[k] == rt[k - 1]);
            }
        }
        assert(s =~= seq![s[0]] + t);
        assert(r.to_multiset() == seq![s[0]].to_multiset().add(rt.to_multiset()));
        assert(s.to_multiset() == seq![s[0]].to_multiset().add(t.to_multiset()));
    }
}

/// Listing headers in script key order only reorders them: every header is
/// kept, as often as it occurs; the index-keyed ones come first, ascending
/// by index value, and the others follow.
pub proof fn law_script_key_order_reorders(h: Seq<(Seq<char>, Seq<char>)>)
    ensures
        script_key_order(h).to_multiset() == h.to_multiset(),
        index_sorted(index_entries(h)),
        forall|k: int| 0 <= k < index_entries(h).len() ==> is_index_key(#[trigger] index_entries(h)[k].0),
        forall|k: int| 0 <= k < other_entries(h).len() ==> !is_index_key(#[trigger] other_entries(h)[k].0),
    decreases h.len(),
{
    broadcast use vstd::seq_lib::group_to_multiset_ensures, vstd::seq_lib::lemma_multiset_commutative;

    if h.len() == 0 {
        assert(script_key_order(h) =~= h);
    } else {
        let t = h.drop_last();
        law_script_key_order_reorders(t);
        assert(h =~= t.push(h.last()));
        if is_index_key(h.last().0) {
            lemma_insert_index_entry(index_entries(t), h.last());
        }
        assert(script_key_order(h).to_multiset() == index_entries(h).to_multiset().add(
            other_entries(h).to_multiset(),
        ));
        assert(script_key_order(t).to_multiset() == index_entries(t).to_multiset().add(
            other_entries(t).to_multiset(),
        ));
        assert(script_key_order(h).to_multiset() =~= h.to_multiset());
    }
}

/// The index value of `name` when it is an index key (see `is_index_key`).
fn index_key_value(name: &str) -> (r: Option<u64>)
    ensures
        r is Some <==> is_index_key(name@),
        r matches Some(v) ==> v == digits_value(name@),
{
    let chars = chars_of(name);
    let n = chars.len();
    if n == 0 {
        return None;
    }
    if chars[0] == '0' && n > 1 {
        return None;
    }
    let ghost d = chars@;
    let mut acc: u64 = 0;
    let mut i: usize = 0;
    proof {
        assert(d.take(0) =~= Seq::<char>::empty());
    }
    while i < n
        invariant
            n == d.len(),
            d == chars@,
            d == name@,
            n > 0,
            !(d[0] == '0' && n > 1),
            i <= n,
            acc as nat == digits_value(d.take(i as int)),
            acc < 4294967295,
            forall|j: int| 0 <= j < i ==> is_digit(#[trigger] d[j]),
        decreases n - i,
    {
        let c = chars[i];
        if !('0' <= c && c <= '9') {
            proof {
                assert(!is_digit(d[i as int]));
                assert(!all_digits(d));
            }
            return None;
        }
        let digit = (c as u32 - 48) as u64;
        proof {
            assert(d.take(i + 1).drop_last() =~= d.take(i as int));
            assert(d.take(i + 1).last() == c);
        }
        acc = acc * 10 + digit;
        if acc >= 4294967295 {
            proof {
                if all_digits(d) {
                    lemma_digits_value_grows(d, i + 1);
                }
            }
            return None;
        }
        i = i + 1;
    }
    proof {
        assert(d.take(n as int) =~= d);
    }
    Some(acc)
}

/// `insert_index_entry` inserts at the first position whose value is larger.
proof fn lemma_insert_index_entry_at(
    s: Seq<(Seq<char>, Seq<char>)>,
    p: (Seq<char>, Seq<char>),
    j: int,
)
    requires
        0 <= j <= s.len(),
        forall|k: int| 0 <= k < j ==> !(digits_value(p.0) < digits_value(#[trigger] s[k].0)),
        j < s.len() ==> digits_value(p.0) < digits_value(s[j].0),
    ensures
        insert_index_entry(s, p) == s.insert(j, p),
    decreases s.len(),
{
    if s.len() == 0 {
        assert(s.insert(j, p) =~= seq![p]);
    } else if j == 0 {
        assert(s.insert(j, p) =~= seq![p] + s);
    } else {
        let t = s.drop_first();
        assert forall|k: int| 0 <= k < j - 1 implies !(digits_value(p.0) < digits_value(
            #[trigger] t[k].0,
        )) by {
            assert(t[k] == s[k + 1]);
        }
        if j - 1 < t.len() {
            assert(t[j - 1] == s[j]);
        }
        lemma_insert_index_entry_at(t, p, j - 1);
        assert(!(digits_value(p.0) < digits_value(s[0].0)));
        assert(seq![s[0]] + t.insert(j - 1, p) =~= s.insert(j, p));
    }
}

/// Inserts `entry`, whose name is an index key of value `v`, into `idx`,
/// kept in `insert_index_entry` order; `vals` holds the entries' values.
fn insert_index_header(
    idx: &mut Vec<(String, String)>,
    vals: &mut Vec<u64>,
    entry: (String, String),
    v: u64,
)
    requires
        old(vals)@.len() == old(idx)@.len(),
        forall|k: int|
            0 <= k < old(idx)@.len() ==> #[trigger] old(vals)@[k] as nat == digits_value(
                old(idx)@[k].0@,
            ),
        v as nat == digits_value(entry.0@),
    ensures
        final(vals)@.len() == final(idx)@.len(),
        forall|k: int|
            0 <= k < final(idx)@.len() ==> #[trigger] final(vals)@[k] as nat == digits_value(
                final(idx)@[k].0@,
            ),
        header_views(final(idx)@) == insert_index_entry(
            header_views(old(idx)@),
            (entry.0@, entry.1@),
        ),
{
    let n = idx.len();
    let ghost h = header_views(idx@);
    let ghost p = (entry.0@, entry.1@);
    let mut j: usize = 0;
    while j < n && !(v < vals[j])
        invariant
            n == idx@.len(),
            n == vals@.len(),
            h == header_views(idx@),
            j <= n,
            forall|k: int| 0 <= k < n ==> #[trigger] vals@[k] as nat == digits_value(idx@[k].0@),
            forall|k: int| 0 <= k < j ==> !(digits_value(p.0) < digits_value(#[trigger] h[k].0)),
            p.0 == entry.0@,
            v as nat == digits_value(entry.0@),
        decreases n - j,
    {
        proof {
            assert(h[j as int].0 == idx@[j as int].0@);
        }
        j = j + 1;
    }
    proof {
        if j < n {
            assert(h[j as int].0 == idx@[j as int].0@);
        }
        lemma_insert_index_entry_at(h, p, j as int);
    }
    idx.insert(j, entry);
    vals.insert(j, v);
    proof {
        assert(header_views(idx@) =~= h.insert(j as int, p));
        assert forall|k: int| 0 <= k < idx@.len() implies #[trigger] vals@[k] as nat == digits_value(
            idx@[k].0@,
        ) by {
            if k > j as int {
                assert(idx@[k] == old(idx)@[k - 1]);
            }
        }
    }
}

/// The headers in the order a script object lists its keys (see
/// `script_key_order`).
fn script_ordered_headers(h: &Vec<(String, String)>) -> (r: Vec<(String, String)>)
    ensures
        header_views(r@) == script_key_order(header_views(h@)),
{
    let n = h.len();
    let ghost hv = header_views(h@);
    let mut idx: Vec<(String, String)> = Vec::new();
    let mut vals: Vec<u64> = Vec::new();
    let mut rest: Vec<(String, String)> = Vec::new();
    let mut i: usize = 0;
    proof {
        assert(hv.take(0) =~= Seq::<(Seq<char>, Seq<char>)>::empty());
        assert(header_views(idx@) =~= hv.take(0));
        assert(header_views(rest@) =~= hv.take(0));
    }
    while i < n
        invariant
            n == h@.len(),
            hv == header_views(h@),
            i <= n,
            vals@.len() == idx@.len(),
            forall|k: int| 0 <= k < idx@.len() ==> #[trigger] vals@[k] as nat == digits_value(idx@[k].0@),
            header_views(idx@) == index_entries(hv.take(i as int)),
            header_views(rest@) == other_entries(hv.take(i as int)),
        decreases n - i,
    {
        let entry = (h[i].0.clone(), h[i].1.clone());
        proof {
            assert(hv.take(i + 1).drop_last() =~= hv.take(i as int));
            assert(hv.take(i + 1).last() == hv[i as int]);
            assert(hv[i as int] == (entry.0@, entry.1@));
        }
        match index_key_value(entry.0.as_str()) {
            Some(v) => {
                insert_index_header(&mut idx, &mut vals, entry, v);
            },
            None => {
                let ghost before = rest@;
                let ghost ev = (entry.0@, entry.1@);
                rest.push(entry);
                proof {
                    assert(header_views(rest@) =~= header_views(before).push(ev));
                }
            },
        }
        i = i + 1;
    }
    proof {
        assert(hv.take(n as int) =~= hv);
    }
    let ghost iv = header_views(idx@);
    let ghost rv = header_views(rest@);
    idx.append(&mut rest);
    proof {
        assert(header_views(idx@) =~= iv + rv);
    }
    idx
}

/// Header names in `h` occur at most once.
pub open spec fn names_distinct(h: Seq<(Seq<char>, Seq<char>)>) -> bool {
    forall|i: int, j: int| 0 <= i < j < h.len() ==> #[trigger] h[i].0 != #[trigger] h[j].0
}

impl Xhr {
    /// A new `XMLHttpRequest`: unsent, status 0, empty response text.
    pub fn new() -> (r: Xhr)
        ensures
            r.ready_state == ReadyState::Unsent,
            r.method == None::<String>,
            r.url == None::<String>,
            r.headers@.len() == 0,
            r.status == 0,
            r.response_text@ == Seq::<char>::empty(),
    {
        Xhr {
            ready_state: ReadyState::Unsent,
            method: None,
            url: None,
            headers: Vec::new(),
            status: 0,
            response_text: String::new(),
        }
    }

    /// `xhr.open(method, url)`: with both arguments given, records the
    /// method (uppercased, ASCII) and URL that were strings; in every case
    /// the request becomes `OPENED`.
    pub fn open(&mut self, has_both_args: bool, method: Option<String>, url: Option<String>)
        ensures
            final(self).ready_state == ReadyState::Opened,
            final(self).headers == old(self).headers,
            final(self).status == old(self).status,
            final(self).response_text == old(self).response_text,
            match (has_both_args, method) {
                (true, Some(m)) => final(self).method matches Some(fm) && fm@ == ascii_upper(m@),
                _ => final(self).method == old(self).method,
            },
            match (has_both_args, url) {
                (true, Some(u)) => final(self).url == Some(u),
                _ => final(self).url == old(self).url,
            },
    {
        if has_both_args {
            match method {
                Some(m) => {
                    self.method = Some(to_ascii_uppercase(m.as_str()));
                },
                None => {},
            }
            match url {
                Some(u) => {
                    self.url = Some(u);
                },
                None => {},
            }
        }
        self.ready_state = ReadyState::Opened;
    }

    /// `xhr.setRequestHeader(name, value)`. The headers are kept as the
    /// properties of a script object, so a header named `__proto__` is
    /// dropped (setting it to a string changes nothing) and a name set again
    /// keeps its place; a name holding a NUL character cannot name one.
    /// Header names that were distinct stay distinct.
    pub fn set_request_header(&mut self, name: String, value: String)
        requires
            !name@.contains('\0'),
        ensures
            names_distinct(header_views(old(self).headers@)) ==> names_distinct(
                header_views(final(self).headers@),
            ),
            header_views(final(self).headers@) == if name@ == "__proto__"@ {
                header_views(old(self).headers@)
            } else {
                set_header_spec(header_views(old(self).headers@), name@, value@)
            },
            final(self).ready_state == old(self).ready_state,
            final(self).method == old(self).method,
            final(self).url == old(self).url,
    {
        if same_text(name.as_str(), "__proto__") {
            return;
        }
        let n = self.headers.len();
        let mut i: usize = 0;
        let ghost h = header_views(self.headers@);
        while i < n
            invariant
                n == self.headers@.len(),
                h == header_views(self.headers@),
                h == header_views(old(self).headers@),
                self.ready_state == old(self).ready_state,
                self.method == old(self).method,
                self.url == old(self).url,
                name@ != "__proto__"@,
                i <= n,
                forall|j: int| 0 <= j < i ==> #[trigger] h[j].0 != name@,
            decreases n - i,
        {
            proof {
                assert(h[i as int].0 == self.headers@[i as int].0@);
            }
            if same_text(self.headers[i].0.as_str(), name.as_str()) {
                proof {
                    assert(h[i as int].0 == name@);
                    let c = choose|c: int|
                        0 <= c < h.len() && #[trigger] h[c].0 == name@ && forall|j: int|
                            0 <= j < c ==> #[trigger] h[j].0 != name@;
                    if c < i {
                        assert(h[c].0 != name@);
                    } else if c > i {
                        assert(h[i as int].0 != name@);
                    }
                }
                let ghost nv = (name@, value@);
                self.headers.set(i, (name, value));
                proof {
                    assert(header_views(self.headers@) =~= h.update(i as int, nv));
                    if names_distinct(h) {
                        let u = h.update(i as int, nv);
                        assert forall|a: int, b: int| 0 <= a < b < u.len() implies #[trigger] u[a].0
                            != #[trigger] u[b].0 by {
                            if a == i as int {
                                assert(h[b].0 != h[a].0);
                            } else if b == i as int {
                                assert(h[a].0 != h[b].0);
                            } else {
                                assert(h[a].0 != h[b].0);
                            }
                        }
                    }
                }
                return;
            }
            i = i + 1;
        }
        let ghost nv = (name@, value@);
        self.headers.push((name, value));
        proof {
            assert(header_views(self.headers@) =~= h.push(nv));
            if names_distinct(h) {
                let u = h.push(nv);
                assert forall|a: int, b: int| 0 <= a < b < u.len() implies #[trigger] u[a].0
                    != #[trigger] u[b].0 by {
                    if b == n as int {
                        assert(h[a].0 != nv.0);
                    } else {
                        assert(h[a].0 != h[b].0);
                    }
                }
            }
        }
    }

    /// Where `xhr.send(body)` sends (see `target_url`) and the request it
    /// makes: the method recorded by `open` (`GET` when none), the recorded
    /// headers in the order their script object lists them (see
    /// `script_key_order`), and the body. A string body is sent
    /// as-is; a `FormData` body adds its multipart `Content-Type` unless
    /// one was set; any other body sends nothing.
    pub fn send_request(&self, body: XhrBody) -> (r: (String, RequestSpec))
        ensures
            r.0@ == target_url(self.url),
            r.1.method@ == match self.method {
                Some(m) => m@,
                None => "GET"@,
            },
            match body {
                XhrBody::Absent => header_views(r.1.headers@) == script_key_order(
                    header_views(self.headers@),
                ) && r.1.body == None::<Vec<u8>>,
                XhrBody::Text(t) => header_views(r.1.headers@) == script_key_order(
                    header_views(self.headers@),
                ) && opt_bytes(r.1.body) == Some(vstd::utf8::encode_utf8(t@)),
                XhrBody::Form(f) => header_views(r.1.headers@) == headers_with_default(
                    script_key_order(header_views(self.headers@)),
                    f.content_type@,
                ) && opt_bytes(r.1.body) == Some(f.body@),
            },
    {
        let url = match &self.url {
            Some(u) => u.clone(),
            None => "undefined".to_owned(),
        };
        let method = match &self.method {
            Some(m) => m.clone(),
            None => "GET".to_owned(),
        };
        let mut headers = script_ordered_headers(&self.headers);
        let body_out = match body {
            XhrBody::Absent => None,
            XhrBody::Text(t) => Some(copy_bytes(t.as_str().as_bytes())),
            XhrBody::Form(f) => {
                add_default_content_type(&mut headers, f.content_type);
                Some(f.body)
            },
        };
        (url, RequestSpec { method, headers, body: body_out })
    }

    /// Records a finished request: the request becomes `DONE`; a response
    /// sets `status` and `responseText`. Returns what to report (`onload`
    /// or `onerror` with the message).
    pub fn complete(&mut self, outcome: Result<(u32, String), String>) -> (r: Completion)
        ensures
            final(self).ready_state == ReadyState::Done,
            final(self).method == old(self).method,
            final(self).url == old(self).url,
            match outcome {
                Ok((status, text)) => final(self).status == status && final(self).response_text@
                    == text@ && (r matches Completion::Load { status: s, text: t } && s == status
                    && t@ == text@),
                Err(m) => final(self).status == old(self).status && final(self).response_text
                    == old(self).response_text && (r matches Completion::Error(e) && e@ == m@),
            },
    {
        self.ready_state = ReadyState::Done;
        match outcome {
            Ok((status, text)) => {
                self.status = status;
                self.response_text = text.clone();
                Completion::Load { status, text }
            },
            Err(m) => Completion::Error(m),
        }
    }
}

/// How a finished fetch or XHR is reported: a response the CORS check
/// allows is delivered; one it refuses becomes an error; a network error
/// is passed on with its message.
pub fn classify_completion(
    result: Result<(u32, String), String>,
    cors_allowed: bool,
) -> (r: Result<(u32, String), String>)
    ensures
        match result {
            Ok((s, t)) => if cors_allowed {
                r matches Ok((s2, t2)) && s2 == s && t2@ == t@
            } else {
                r matches Err(m) && m@ == "blocked by CORS: no matching Access-Control-Allow-Origin"@
            },
            Err(e) => r matches Err(m) && m@ == e@,
        },
{
    match result {
        Ok((s, t)) => if cors_allowed {
            Ok((s, t))
        } else {
            Err("blocked by CORS: no matching Access-Control-Allow-Origin".to_owned())
        },
        Err(e) => Err(e),
    }
}

} // verus!
