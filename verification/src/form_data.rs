//! `FormData`: the ordered list of named text/file entries behind a
//! `FormData` instance, its `append`/`set`/`get`/`getAll`/`has`/`delete`
//! operations with their size bounds, the `multipart/form-data`
//! serialization `fetch`/`XMLHttpRequest` send, and the rules by which
//! `new FormData(form)` turns a form's controls into entries.

use vstd::prelude::*;
use vstd::string::StringSliceAdditionalSpecFns;

use crate::text::{ascii_lower, byte_len, chars_of, push_char, same_text, to_ascii_lowercase, utf8_len};

verus! {

/// Most entries one `FormData` holds.
pub const MAX_FORM_ENTRIES: usize = 1000;

/// Longest entry name, in bytes.
pub const MAX_FORM_NAME_LENGTH: usize = 1024;

/// Longest text value, in bytes.
pub const MAX_FORM_VALUE_LENGTH: usize = 65536;

/// Longest file name, in bytes.
pub const MAX_FORM_FILENAME_LENGTH: usize = 255;

/// An entry's value: text, or a file snapshot (bytes, MIME type, and file
/// name, `None` for a file that has no name at all).
pub enum EntryValue {
    Text(String),
    File { bytes: Vec<u8>, mime: String, filename: Option<String> },
}

/// One named entry.
pub struct FormEntry {
    pub name: String,
    pub value: EntryValue,
}

/// The abstract value of an entry.
pub enum ValueView {
    Text(Seq<char>),
    File { bytes: Seq<u8>, mime: Seq<char>, filename: Option<Seq<char>> },
}

/// The abstract entry.
pub struct EntryView {
    pub name: Seq<char>,
    pub value: ValueView,
}

impl EntryValue {
    /// The abstract value.
    pub open spec fn view(&self) -> ValueView {
        match self {
            EntryValue::Text(t) => ValueView::Text(t@),
            EntryValue::File { bytes, mime, filename } => ValueView::File {
                bytes: bytes@,
                mime: mime@,
                filename: match filename {
                    Some(f) => Some(f@),
                    None => None,
                },
            },
        }
    }

    /// An independent copy.
    pub fn duplicate(&self) -> (r: EntryValue)
        ensures
            r.view() == self.view(),
    {
        match self {
            EntryValue::Text(t) => EntryValue::Text(t.clone()),
            EntryValue::File { bytes, mime, filename } => {
                let copy = copy_bytes(bytes);
                let name = match filename {
                    Some(f) => Some(f.clone()),
                    None => None,
                };
                EntryValue::File { bytes: copy, mime: mime.clone(), filename: name }
            },
        }
    }
}

fn copy_bytes(b: &Vec<u8>) -> (r: Vec<u8>)
    ensures
        r@ == b@,
{
    let mut out: Vec<u8> = Vec::new();
    let n = b.len();
    let mut i: usize = 0;
    while i < n
        invariant
            n == b@.len(),
            i <= n,
            out@ == b@.take(i as int),
        decreases n - i,
    {
        out.push(b[i]);
        proof {
            assert(out@ =~= b@.take(i + 1));
        }
        i = i + 1;
    }
    proof {
        assert(b@.take(n as int) =~= b@);
    }
    out
}

impl FormEntry {
    /// The abstract entry.
    pub open spec fn view(&self) -> EntryView {
        EntryView { name: self.name@, value: self.value.view() }
    }

    /// An independent copy.
    pub fn duplicate(&self) -> (r: FormEntry)
        ensures
            r.view() == self.view(),
    {
        FormEntry { name: self.name.clone(), value: self.value.duplicate() }
    }
}

/// The abstract entries of a list.
pub open spec fn entry_views(v: Seq<FormEntry>) -> Seq<EntryView> {
    v.map_values(|e: FormEntry| e.view())
}

/// Whether an entry named `name` with value `value` is kept by
/// `append`/`set` when `count` entries are already held: at most 1000
/// entries, a non-empty name of at most 1024 bytes, a text value of at
/// most 65536 bytes, a file name of at most 255 bytes.
pub open spec fn entry_accepted(count: nat, name: Seq<char>, value: ValueView) -> bool {
    &&& count < MAX_FORM_ENTRIES
    &&& name.len() > 0
    &&& utf8_len(name) <= MAX_FORM_NAME_LENGTH
    &&& match value {
        ValueView::Text(t) => utf8_len(t) <= MAX_FORM_VALUE_LENGTH,
        ValueView::File { filename, .. } => match filename {
            Some(f) => utf8_len(f) <= MAX_FORM_FILENAME_LENGTH,
            None => true,
        },
    }
}

/// `es` without the entries named `name`.
pub open spec fn without_name(es: Seq<EntryView>, name: Seq<char>) -> Seq<EntryView>
    decreases es.len(),
{
    if es.len() == 0 {
        es
    } else {
        let front = without_name(es.drop_last(), name);
        if es.last().name == name {
            front
        } else {
            front.push(es.last())
        }
    }
}

/// The indices of the entries named `name`, in order.
pub open spec fn indices_named(es: Seq<EntryView>, name: Seq<char>) -> Seq<int>
    decreases es.len(),
{
    if es.len() == 0 {
        seq![]
    } else {
        let front = indices_named(es.drop_last(), name);
        if es.last().name == name {
            front.push(es.len() - 1)
        } else {
            front
        }
    }
}

/// The entry list of a `FormData` instance.
pub struct FormData {
    entries: Vec<FormEntry>,
}

impl View for FormData {
    type V = Seq<EntryView>;

    closed spec fn view(&self) -> Seq<EntryView> {
        entry_views(self.entries@)
    }
}

/// The abstract state after `append(name, value)`.
pub open spec fn append_spec(es: Seq<EntryView>, name: Seq<char>, value: ValueView) -> Seq<
    EntryView,
> {
    if entry_accepted(es.len(), name, value) {
        es.push(EntryView { name, value })
    } else {
        es
    }
}

impl FormData {
    /// An empty instance (`new FormData()`).
    pub fn new() -> (r: FormData)
        ensures
            r@ == Seq::<EntryView>::empty(),
    {
        FormData { entries: Vec::new() }
    }

    /// How many entries are held.
    pub fn len(&self) -> (n: usize)
        ensures
            n == self@.len(),
    {
        self.entries.len()
    }

    /// The entry at `i`.
    pub fn entry(&self, i: usize) -> (e: &FormEntry)
        requires
            i < self@.len(),
        ensures
            e.view() == self@[i as int],
    {
        &self.entries[i]
    }

    /// Adds `name`/`value` at the end when the bounds allow it (see
    /// `entry_accepted`); otherwise the entry is silently dropped. Returns
    /// whether it was kept.
    pub fn push_entry(&mut self, name: String, value: EntryValue) -> (kept: bool)
        ensures
            kept == entry_accepted(old(self)@.len(), name@, value.view()),
            final(self)@ == append_spec(old(self)@, name@, value.view()),
    {
        if self.entries.len() >= MAX_FORM_ENTRIES || name.as_str().is_empty() || byte_len(
            name.as_str(),
        ) > MAX_FORM_NAME_LENGTH {
            return false;
        }
        match &value {
            EntryValue::Text(text) => {
                if byte_len(text.as_str()) > MAX_FORM_VALUE_LENGTH {
                    return false;
                }
            },
            EntryValue::File { filename: Some(f), .. } => {
                if byte_len(f.as_str()) > MAX_FORM_FILENAME_LENGTH {
                    return false;
                }
            },
            EntryValue::File { filename: None, .. } => {},
        }
        let ghost before = self.entries@;
        let entry = FormEntry { name, value };
        let ghost ev = entry.view();
        self.entries.push(entry);
        proof {
            assert(entry_views(self.entries@) =~= entry_views(before).push(ev));
        }
        true
    }

    /// `formData.append(name, value)`.
    pub fn append(&mut self, name: String, value: EntryValue)
        ensures
            final(self)@ == append_spec(old(self)@, name@, value.view()),
    {
        self.push_entry(name, value);
    }

    /// Removes every entry named `name`, keeping the others in order.
    fn retain_other_names(&mut self, name: &str)
        ensures
            final(self)@ == without_name(old(self)@, name@),
    {
        let ghost es = self@;
        let mut kept: Vec<FormEntry> = Vec::new();
        proof {
            assert(es.take(0) =~= Seq::<EntryView>::empty());
            assert(entry_views(kept@) =~= Seq::<EntryView>::empty());
        }
        let n = self.entries.len();
        let mut i: usize = 0;
        while i < n
            invariant
                n == es.len(),
                es == self@,
                i <= n,
                entry_views(kept@) == without_name(es.take(i as int), name@),
            decreases n - i,
        {
            proof {
                assert(self.entries@[i as int].view() == es[i as int]);
                assert(es.take(i + 1).drop_last() =~= es.take(i as int));
                assert(es.take(i + 1).last() == es[i as int]);
            }
            if !same_text(self.entries[i].name.as_str(), name) {
                let ghost before = kept@;
                let e = self.entries[i].duplicate();
                let ghost ev = e.view();
                kept.push(e);
                proof {
                    assert(entry_views(kept@) =~= entry_views(before).push(ev));
                }
            }
            i = i + 1;
        }
        proof {
            assert(es.take(n as int) =~= es);
        }
        self.entries = kept;
    }

    /// `formData.delete(name)`.
    pub fn delete(&mut self, name: &str)
        ensures
            final(self)@ == without_name(old(self)@, name@),
    {
        self.retain_other_names(name);
    }

    /// `formData.set(name, value)`: every entry named `name` is removed,
    /// then the new entry is appended when the bounds allow it.
    pub fn set(&mut self, name: String, value: EntryValue)
        ensures
            final(self)@ == append_spec(without_name(old(self)@, name@), name@, value.view()),
    {
        self.retain_other_names(name.as_str());
        self.push_entry(name, value);
    }

    /// The indices of the entries named `name`, in order (`getAll`).
    pub fn indices_of(&self, name: &str) -> (r: Vec<usize>)
        ensures
            r@.len() == indices_named(self@, name@).len(),
            forall|k: int| 0 <= k < r@.len() ==> r@[k] as int == #[trigger] indices_named(self@, name@)[k],
    {
        let n = self.entries.len();
        let mut out: Vec<usize> = Vec::new();
        let mut i: usize = 0;
        let ghost es = self@;
        proof {
            assert(es.take(0) =~= Seq::<EntryView>::empty());
        }
        while i < n
            invariant
                n == es.len(),
                es == self@,
                i <= n,
                out@.len() == indices_named(es.take(i as int), name@).len(),
                forall|k: int|
                    0 <= k < out@.len() ==> out@[k] as int == #[trigger] indices_named(
                        es.take(i as int),
                        name@,
                    )[k],
            decreases n - i,
        {
            proof {
                assert(es.take(i + 1).drop_last() =~= es.take(i as int));
                assert(es.take(i + 1).last() == es[i as int]);
                assert(es[i as int] == self.entries@[i as int].view());
            }
            if same_text(self.entries[i].name.as_str(), name) {
                out.push(i);
            }
            i = i + 1;
        }
        proof {
            assert(es.take(n as int) =~= es);
        }
        out
    }

    /// The index of the first entry named `name` (`get`), if any.
    pub fn first_index_of(&self, name: &str) -> (r: Option<usize>)
        ensures
            match r {
                Some(i) => indices_named(self@, name@).len() > 0 && i as int == indices_named(
                    self@,
                    name@,
                )[0],
                None => indices_named(self@, name@).len() == 0,
            },
    {
        let all = self.indices_of(name);
        if all.len() == 0 {
            None
        } else {
            Some(all[0])
        }
    }

    /// `formData.has(name)`.
    pub fn has(&self, name: &str) -> (r: bool)
        ensures
            r == (indices_named(self@, name@).len() > 0),
    {
        let all = self.indices_of(name);
        all.len() > 0
    }

    /// An independent copy of every entry, in order (what `forEach` walks,
    /// so a callback that edits the instance does not disturb the walk).
    pub fn snapshot(&self) -> (r: Vec<FormEntry>)
        ensures
            entry_views(r@) == self@,
    {
        let n = self.entries.len();
        let mut out: Vec<FormEntry> = Vec::new();
        let mut i: usize = 0;
        proof {
            assert(entry_views(out@) =~= self@.take(0));
        }
        while i < n
            invariant
                n == self@.len(),
                i <= n,
                entry_views(out@) == self@.take(i as int),
            decreases n - i,
        {
            let ghost before = out@;
            let e = self.entries[i].duplicate();
            let ghost ev = e.view();
            out.push(e);
            proof {
                assert(self.entries@[i as int].view() == self@[i as int]);
                assert(entry_views(out@) =~= entry_views(before).push(ev));
                assert(self@.take(i + 1) =~= self@.take(i as int).push(self@[i as int]));
            }
            i = i + 1;
        }
        proof {
            assert(self@.take(n as int) =~= self@);
        }
        out
    }
}

/// The indices that `indices_named` lists are exactly the entries with
/// that name, in increasing order.
pub proof fn law_indices_named(es: Seq<EntryView>, name: Seq<char>)
    ensures
        forall|k: int|
            0 <= k < indices_named(es, name).len() ==> 0 <= #[trigger] indices_named(es, name)[k]
                < es.len() && es[indices_named(es, name)[k]].name == name,
        forall|i: int| 0 <= i < es.len() && es[i].name == name ==> indices_named(es, name).contains(i),
        forall|a: int, b: int|
            0 <= a < b < indices_named(es, name).len() ==> indices_named(es, name)[a]
                < indices_named(es, name)[b],
    decreases es.len(),
{
    if es.len() > 0 {
        let front = es.drop_last();
        law_indices_named(front, name);
        let f = indices_named(front, name);
        let all = indices_named(es, name);
        assert forall|k: int| 0 <= k < all.len() implies 0 <= #[trigger] all[k] < es.len()
            && es[all[k]].name == name by {
            if k < f.len() {
                assert(all[k] == f[k]);
                assert(es[f[k]] == front[f[k]]);
            }
        }
        assert forall|i: int| 0 <= i < es.len() && es[i].name == name implies all.contains(i) by {
            if i < front.len() {
                assert(front[i] == es[i]);
                assert(f.contains(i));
                let k = choose|k: int| 0 <= k < f.len() && f[k] == i;
                assert(all[k] == i);
            } else {
                assert(all[all.len() - 1] == i);
            }
        }
        assert forall|a: int, b: int| 0 <= a < b < all.len() implies all[a] < all[b] by {
            if b < f.len() {
                assert(all[a] == f[a] && all[b] == f[b]);
            } else if a < f.len() {
                assert(all[a] == f[a]);
                assert(f[a] < front.len());
            }
        }
    }
}

/// After `set(name, value)` is accepted, exactly one entry carries `name`:
/// the new one, at the end.
pub proof fn law_set_leaves_one(es: Seq<EntryView>, name: Seq<char>, value: ValueView)
    requires
        entry_accepted(without_name(es, name).len(), name, value),
    ensures
        indices_named(append_spec(without_name(es, name), name, value), name) == seq![
            without_name(es, name).len() as int,
        ],
        append_spec(without_name(es, name), name, value).last() == (EntryView { name, value }),
{
    lemma_without_name_absent(es, name);
    let w = without_name(es, name);
    assert(append_spec(w, name, value).drop_last() =~= w);
}

proof fn lemma_without_name_absent(es: Seq<EntryView>, name: Seq<char>)
    ensures
        indices_named(without_name(es, name), name) == Seq::<int>::empty(),
        forall|i: int|
            0 <= i < without_name(es, name).len() ==> #[trigger] without_name(es, name)[i].name
                != name,
    decreases es.len(),
{
    if es.len() > 0 {
        lemma_without_name_absent(es.drop_last(), name);
        let f = without_name(es.drop_last(), name);
        if es.last().name != name {
            let w = f.push(es.last());
            assert(w.drop_last() =~= f);
            assert forall|i: int| 0 <= i < w.len() implies #[trigger] w[i].name != name by {
                if i < f.len() {
                    assert(w[i] == f[i]);
                }
            }
        }
    }
}

/// `delete(name)` removes every entry named `name` and keeps the others
/// in order.
pub proof fn law_delete_removes_all(es: Seq<EntryView>, name: Seq<char>)
    ensures
        indices_named(without_name(es, name), name) == Seq::<int>::empty(),
        without_name(es, name).len() + indices_named(es, name).len() == es.len(),
    decreases es.len(),
{
    lemma_without_name_absent(es, name);
    if es.len() > 0 {
        law_delete_removes_all(es.drop_last(), name);
    }
}


/// `s` with every `"` written as `%22`, as the multipart encoder quotes
/// names.
pub open spec fn escape_quotes(s: Seq<char>) -> Seq<char>
    decreases s.len(),
{
    if s.len() == 0 {
        seq![]
    } else {
        escape_quotes(s.drop_last()) + if s.last() == '"' {
            seq!['%', '2', '2']
        } else {
            seq![s.last()]
        }
    }
}

/// The lowercase hexadecimal digit for `d` (below 16).
pub open spec fn hex_char(d: nat) -> char {
    if d < 10 {
        ((48 + d) as u32) as char
    } else {
        ((87 + d) as u32) as char
    }
}

/// The last `count` hexadecimal digits of `v`, most significant first.
pub open spec fn hex_digits(v: nat, count: nat) -> Seq<char>
    decreases count,
{
    if count == 0 {
        seq![]
    } else {
        hex_digits(v / 16, (count - 1) as nat).push(hex_char(v % 16))
    }
}

/// The multipart boundary for serialization number `id`: a fixed prefix
/// and `id` as 16 lowercase hexadecimal digits.
pub open spec fn boundary_spec(id: u64) -> Seq<char> {
    "----nimbleFormData"@ + hex_digits(id as nat, 16)
}

/// `16` to the power `n`.
pub open spec fn pow16(n: nat) -> nat
    decreases n,
{
    if n == 0 {
        1
    } else {
        16 * pow16((n - 1) as nat)
    }
}

proof fn lemma_hex_char_injective(a: nat, b: nat)
    requires
        a < 16,
        b < 16,
        hex_char(a) == hex_char(b),
    ensures
        a == b,
{
    assert(hex_char(a) as u32 == if a < 10 { 48 + a } else { 87 + a });
    assert(hex_char(b) as u32 == if b < 10 { 48 + b } else { 87 + b });
}

proof fn lemma_hex_digits_injective(v: nat, w: nat, n: nat)
    requires
        v < pow16(n),
        w < pow16(n),
        hex_digits(v, n) == hex_digits(w, n),
    ensures
        v == w,
    decreases n,
{
    if n > 0 {
        let p = pow16((n - 1) as nat);
        assert(hex_digits(v / 16, (n - 1) as nat) == hex_digits(v, n).drop_last());
        assert(hex_digits(w / 16, (n - 1) as nat) == hex_digits(w, n).drop_last());
        assert(hex_char(v % 16) == hex_digits(v, n).last());
        assert(hex_char(w % 16) == hex_digits(w, n).last());
        assert(v / 16 < p) by (nonlinear_arith)
            requires
                v < 16 * p,
        ;
        assert(w / 16 < p) by (nonlinear_arith)
            requires
                w < 16 * p,
        ;
        lemma_hex_digits_injective(v / 16, w / 16, (n - 1) as nat);
        lemma_hex_char_injective(v % 16, w % 16);
    }
}

/// Different serialization numbers give different multipart boundaries,
/// so each serialization of a form gets a boundary of its own.
pub proof fn law_boundaries_distinct(a: u64, b: u64)
    ensures
        a != b ==> boundary_spec(a) != boundary_spec(b),
{
    if boundary_spec(a) == boundary_spec(b) {
        reveal_strlit("----nimbleFormData");
        let prefix = "----nimbleFormData"@;
        assert(boundary_spec(a).skip(prefix.len() as int) =~= hex_digits(a as nat, 16));
        assert(boundary_spec(b).skip(prefix.len() as int) =~= hex_digits(b as nat, 16));
        assert(pow16(16) == 0x1_0000_0000_0000_0000) by {
            reveal_with_fuel(pow16, 17);
        }
        lemma_hex_digits_injective(a as nat, b as nat, 16);
    }
}

/// The file name written for a file entry: its name, even an empty one;
/// `blob` for a file with no name at all.
pub open spec fn effective_filename(filename: Option<Seq<char>>) -> Seq<char> {
    match filename {
        Some(f) => f,
        None => "blob"@,
    }
}

/// The content type written for a file entry: `application/octet-stream`
/// when it has none.
pub open spec fn effective_mime(mime: Seq<char>) -> Seq<char> {
    if mime.len() == 0 {
        "application/octet-stream"@
    } else {
        mime
    }
}

/// The header lines that open one entry's part.
pub open spec fn part_head(boundary: Seq<char>, e: EntryView) -> Seq<char> {
    let opening = "--"@ + boundary + "\r\n"@ + "Content-Disposition: form-data; name=\""@
        + escape_quotes(e.name);
    match e.value {
        ValueView::Text(_) => opening + "\"\r\n\r\n"@,
        ValueView::File { mime, filename, .. } => opening + "\"; filename=\""@ + escape_quotes(
            effective_filename(filename),
        ) + "\"\r\n"@ + "Content-Type: "@ + effective_mime(mime) + "\r\n\r\n"@,
    }
}

/// The bytes of one entry's part: its header, its payload, and a line
/// break.
pub open spec fn part_bytes(boundary: Seq<char>, e: EntryView) -> Seq<u8> {
    let payload = match e.value {
        ValueView::Text(t) => vstd::utf8::encode_utf8(t),
        ValueView::File { bytes, .. } => bytes,
    };
    vstd::utf8::encode_utf8(part_head(boundary, e)) + payload + vstd::utf8::encode_utf8("\r\n"@)
}

/// The parts of all entries, in order.
pub open spec fn parts_bytes(boundary: Seq<char>, es: Seq<EntryView>) -> Seq<u8>
    decreases es.len(),
{
    if es.len() == 0 {
        seq![]
    } else {
        parts_bytes(boundary, es.drop_last()) + part_bytes(boundary, es.last())
    }
}

/// The complete `multipart/form-data` body: every part, then the closing
/// boundary line.
pub open spec fn body_spec(boundary: Seq<char>, es: Seq<EntryView>) -> Seq<u8> {
    parts_bytes(boundary, es) + vstd::utf8::encode_utf8("--"@ + boundary + "--\r\n"@)
}

/// A serialized `FormData` body and the `Content-Type` to send it with.
pub struct SerializedForm {
    pub content_type: String,
    pub body: Vec<u8>,
}

fn hex_char_exec(d: u64) -> (c: char)
    requires
        d < 16,
    ensures
        c == hex_char(d as nat),
{
    if d < 10 {
        ((48 + d) as u8) as char
    } else {
        ((87 + d) as u8) as char
    }
}

/// The last `count` hexadecimal digits of `v`.
fn hex_digits_exec(v: u64, count: usize) -> (r: String)
    ensures
        r@ == hex_digits(v as nat, count as nat),
    decreases count,
{
    if count == 0 {
        String::new()
    } else {
        let mut r = hex_digits_exec(v / 16, count - 1);
        push_char(&mut r, hex_char_exec(v % 16));
        r
    }
}

/// The multipart boundary for serialization number `id`.
pub fn boundary_for(id: u64) -> (r: String)
    ensures
        r@ == boundary_spec(id),
{
    let mut r = String::new();
    r.append("----nimbleFormData");
    let digits = hex_digits_exec(id, 16);
    r.append(digits.as_str());
    r
}

/// `s` with every `"` written as `%22`.
pub fn escape_quotes_exec(s: &str) -> (r: String)
    ensures
        r@ == escape_quotes(s@),
{
    let chars = chars_of(s);
    let n = chars.len();
    let mut out = String::new();
    let mut i: usize = 0;
    proof {
        assert(s@.take(0) =~= Seq::<char>::empty());
    }
    while i < n
        invariant
            chars@ == s@,
            n == s@.len(),
            i <= n,
            out@ == escape_quotes(s@.take(i as int)),
        decreases n - i,
    {
        proof {
            assert(s@.take(i + 1).drop_last() =~= s@.take(i as int));
            assert(s@.take(i + 1).last() == chars@[i as int]);
        }
        let c = chars[i];
        if c == '"' {
            out.append("%22");
            proof {
                reveal_strlit("%22");
                assert(out@ =~= escape_quotes(s@.take(i + 1)));
            }
        } else {
            push_char(&mut out, c);
            proof {
                assert(out@ =~= escape_quotes(s@.take(i + 1)));
            }
        }
        i = i + 1;
    }
    proof {
        assert(s@.take(n as int) =~= s@);
    }
    out
}

fn append_bytes(out: &mut Vec<u8>, bytes: &[u8])
    ensures
        final(out)@ == old(out)@ + bytes@,
{
    let n = bytes.len();
    let mut i: usize = 0;
    let ghost start = out@;
    while i < n
        invariant
            n == bytes@.len(),
            i <= n,
            out@ == start + bytes@.take(i as int),
        decreases n - i,
    {
        out.push(bytes[i]);
        proof {
            assert(out@ =~= start + bytes@.take(i + 1));
        }
        i = i + 1;
    }
    proof {
        assert(bytes@.take(n as int) =~= bytes@);
    }
}

/// Appends the multipart part of `entry` to `out`.
pub fn encode_entry(out: &mut Vec<u8>, boundary: &str, entry: &FormEntry)
    ensures
        final(out)@ == old(out)@ + part_bytes(boundary@, entry.view()),
{
    let mut head = String::new();
    head.append("--");
    head.append(boundary);
    head.append("\r\n");
    head.append("Content-Disposition: form-data; name=\"");
    let safe_name = escape_quotes_exec(entry.name.as_str());
    head.append(safe_name.as_str());
    let crlf = "\r\n";
    match &entry.value {
        EntryValue::Text(text) => {
            head.append("\"\r\n\r\n");
            append_bytes(out, head.as_str().as_bytes());
            append_bytes(out, text.as_str().as_bytes());
            append_bytes(out, crlf.as_bytes());
        },
        EntryValue::File { bytes, mime, filename } => {
            head.append("\"; filename=\"");
            let safe_filename = match filename {
                Some(f) => escape_quotes_exec(f.as_str()),
                None => escape_quotes_exec("blob"),
            };
            head.append(safe_filename.as_str());
            head.append("\"\r\n");
            head.append("Content-Type: ");
            if mime.as_str().is_empty() {
                head.append("application/octet-stream");
            } else {
                head.append(mime.as_str());
            }
            head.append("\r\n\r\n");
            append_bytes(out, head.as_str().as_bytes());
            append_bytes(out, bytes.as_slice());
            append_bytes(out, crlf.as_bytes());
        },
    }
}

impl FormData {
    /// The `multipart/form-data` serialization of this instance, with the
    /// boundary made from serialization number `boundary_id`.
    pub fn serialize(&self, boundary_id: u64) -> (r: SerializedForm)
        ensures
            r.body@ == body_spec(boundary_spec(boundary_id), self@),
            r.content_type@ == "multipart/form-data; boundary="@ + boundary_spec(boundary_id),
    {
        let boundary = boundary_for(boundary_id);
        let mut body: Vec<u8> = Vec::new();
        let n = self.entries.len();
        let mut i: usize = 0;
        proof {
            assert(self@.take(0) =~= Seq::<EntryView>::empty());
        }
        while i < n
            invariant
                n == self@.len(),
                i <= n,
                body@ == parts_bytes(boundary@, self@.take(i as int)),
            decreases n - i,
        {
            encode_entry(&mut body, boundary.as_str(), &self.entries[i]);
            proof {
                assert(self.entries@[i as int].view() == self@[i as int]);
                assert(self@.take(i + 1).drop_last() =~= self@.take(i as int));
            }
            i = i + 1;
        }
        proof {
            assert(self@.take(n as int) =~= self@);
        }
        let mut closing = String::new();
        closing.append("--");
        closing.append(boundary.as_str());
        closing.append("--\r\n");
        append_bytes(&mut body, closing.as_str().as_bytes());
        let mut content_type = String::new();
        content_type.append("multipart/form-data; boundary=");
        content_type.append(boundary.as_str());
        SerializedForm { content_type, body }
    }
}


/// What `new FormData(form)` reads of one `<input>`/`<select>`/`<textarea>`
/// control, in document order: its tag, `name`, whether it is `disabled`,
/// its `type` attribute, whether it is checked, its `value` attribute, its
/// current value, and the effective value of its first selected
/// `<option>` (for a `<select>`).
pub struct FormControl {
    pub tag: String,
    pub name: Option<String>,
    pub disabled: bool,
    pub type_attr: Option<String>,
    pub checked: bool,
    pub value_attr: Option<String>,
    pub current_value: String,
    pub selected_option_value: Option<String>,
}

/// The view of an optional string.
pub open spec fn opt_chars(s: Option<String>) -> Option<Seq<char>> {
    match s {
        Some(t) => Some(t@),
        None => None,
    }
}

/// The value a control contributes to `new FormData(form)`, or `None`
/// when it contributes nothing: unnamed and disabled controls are skipped;
/// a checkbox or radio button (its `type` compared ignoring ASCII case,
/// `text` when absent) contributes its `value` attribute (`on` when
/// absent) only when checked; a `<select>` contributes its first selected
/// option's value, if any; every other control its current value.
pub open spec fn control_value_spec(c: FormControl) -> Option<Seq<char>> {
    match c.name {
        None => None,
        Some(n) => if n@.len() == 0 || c.disabled {
            None
        } else if c.tag@ == "input"@ {
            let t = ascii_lower(
                match c.type_attr {
                    Some(t) => t@,
                    None => "text"@,
                },
            );
            if t == "checkbox"@ || t == "radio"@ {
                if !c.checked {
                    None
                } else {
                    Some(
                        match c.value_attr {
                            Some(v) => v@,
                            None => "on"@,
                        },
                    )
                }
            } else {
                Some(c.current_value@)
            }
        } else if c.tag@ == "select"@ {
            opt_chars(c.selected_option_value)
        } else {
            Some(c.current_value@)
        },
    }
}

/// The value `control` contributes to `new FormData(form)` (see
/// `control_value_spec`).
pub fn control_value(c: &FormControl) -> (r: Option<String>)
    ensures
        opt_chars(r) == control_value_spec(*c),
{
    let name = match &c.name {
        None => {
            return None;
        },
        Some(n) => n,
    };
    if name.as_str().is_empty() || c.disabled {
        return None;
    }
    if same_text(c.tag.as_str(), "input") {
        let t = match &c.type_attr {
            Some(t) => to_ascii_lowercase(t.as_str()),
            None => to_ascii_lowercase("text"),
        };
        if same_text(t.as_str(), "checkbox") || same_text(t.as_str(), "radio") {
            if !c.checked {
                return None;
            }
            match &c.value_attr {
                Some(v) => Some(v.clone()),
                None => Some("on".to_owned()),
            }
        } else {
            Some(c.current_value.clone())
        }
    } else if same_text(c.tag.as_str(), "select") {
        match &c.selected_option_value {
            Some(v) => Some(v.clone()),
            None => None,
        }
    } else {
        Some(c.current_value.clone())
    }
}

/// The entries `new FormData(form)` starts with: one text entry per
/// contributing control, in document order. These are not subject to the
/// `append` bounds.
pub open spec fn populate_spec(cs: Seq<FormControl>) -> Seq<EntryView>
    decreases cs.len(),
{
    if cs.len() == 0 {
        seq![]
    } else {
        let front = populate_spec(cs.drop_last());
        let c = cs.last();
        match control_value_spec(c) {
            Some(v) => front.push(
                EntryView {
                    name: match c.name {
                        Some(n) => n@,
                        None => seq![],
                    },
                    value: ValueView::Text(v),
                },
            ),
            None => front,
        }
    }
}

/// A disabled control contributes nothing to `new FormData(form)`, whatever
/// its kind: it has no value, and adding it to the form's controls leaves
/// the populated entries as they were.
pub proof fn law_disabled_controls_contribute_nothing(cs: Seq<FormControl>, c: FormControl)
    requires
        c.disabled,
    ensures
        control_value_spec(c) == None::<Seq<char>>,
        populate_spec(cs.push(c)) == populate_spec(cs),
{
    assert(cs.push(c).drop_last() =~= cs);
    assert(cs.push(c).last() == c);
}

impl FormData {
    /// `new FormData(form)`, from the form's controls in document order.
    pub fn from_controls(controls: &Vec<FormControl>) -> (r: FormData)
        ensures
            r@ == populate_spec(controls@),
    {
        let mut entries: Vec<FormEntry> = Vec::new();
        let n = controls.len();
        let mut i: usize = 0;
        proof {
            assert(controls@.take(0) =~= Seq::<FormControl>::empty());
            assert(entry_views(entries@) =~= Seq::<EntryView>::empty());
        }
        while i < n
            invariant
                n == controls@.len(),
                i <= n,
                entry_views(entries@) == populate_spec(controls@.take(i as int)),
            decreases n - i,
        {
            let c = &controls[i];
            proof {
                assert(controls@.take(i + 1).drop_last() =~= controls@.take(i as int));
                assert(controls@.take(i + 1).last() == *c);
            }
            match control_value(c) {
                Some(v) => {
                    let name = match &c.name {
                        Some(n) => n.clone(),
                        None => String::new(),
                    };
                    let ghost before = entries@;
                    let e = FormEntry { name, value: EntryValue::Text(v) };
                    let ghost ev = e.view();
                    entries.push(e);
                    proof {
                        assert(entry_views(entries@) =~= entry_views(before).push(ev));
                    }
                },
                None => {},
            }
            i = i + 1;
        }
        proof {
            assert(controls@.take(n as int) =~= controls@);
        }
        FormData { entries }
    }
}

/// An `<option>`'s value: its `value` attribute when present, otherwise
/// its text content.
pub fn option_effective_value(value_attr: Option<&str>, text_content: &str) -> (r: String)
    ensures
        r@ == match value_attr {
            Some(v) => v@,
            None => text_content@,
        },
{
    match value_attr {
        Some(v) => v.to_owned(),
        None => text_content.to_owned(),
    }
}

} // verus!
