//! `HTMLElement.dataset`: which `data-*` attributes it reflects, under which
//! camelCase keys, and which previously reflected keys went stale.

use vstd::prelude::*;

use crate::text::{chars_of, push_char, same_text, upper_char};

verus! {

/// What `char::to_uppercase` yields for `c`.
pub uninterp spec fn uppercase_mapping(c: char) -> Seq<char>;

/// The characters `char::to_uppercase` yields for `c`.
///
/// Wraps `char::to_uppercase`; the contract names its output and states
/// what its documentation gives for ASCII: a lowercase letter maps to its
/// uppercase letter, any other ASCII character to itself.
#[verifier::external_body]
fn char_uppercase(c: char) -> (r: Vec<char>)
    ensures
        r@ == uppercase_mapping(c),
        'a' <= c <= 'z' ==> r@ == seq![((c as u32) - 32) as char],
        (c as u32) < 128 && !('a' <= c <= 'z') ==> r@ == seq![c],
{
    c.to_uppercase().collect()
}

/// `name` with every `-` dropped and the character after each `-`
/// uppercased, given whether the next character is to be uppercased.
pub open spec fn camel_from(s: Seq<char>, cap: bool) -> Seq<char>
    decreases s.len(),
{
    if s.len() == 0 {
        seq![]
    } else if s[0] == '-' {
        camel_from(s.drop_first(), true)
    } else if cap {
        uppercase_mapping(s[0]) + camel_from(s.drop_first(), false)
    } else {
        seq![s[0]] + camel_from(s.drop_first(), false)
    }
}

/// The camelCase form of a kebab-case name: `foo-bar` becomes `fooBar`.
pub open spec fn kebab_to_camel_spec(s: Seq<char>) -> Seq<char> {
    camel_from(s, false)
}

/// Every character of `s` is ASCII.
pub open spec fn all_ascii(s: Seq<char>) -> bool {
    forall|i: int| 0 <= i < s.len() ==> (#[trigger] s[i] as u32) < 128
}

/// `camel_from` for ASCII text, where uppercasing maps `a`-`z` to `A`-`Z`
/// and leaves every other character as it is.
pub open spec fn camel_ascii_from(s: Seq<char>, cap: bool) -> Seq<char>
    decreases s.len(),
{
    if s.len() == 0 {
        seq![]
    } else if s[0] == '-' {
        camel_ascii_from(s.drop_first(), true)
    } else if cap {
        seq![upper_char(s[0])] + camel_ascii_from(s.drop_first(), false)
    } else {
        seq![s[0]] + camel_ascii_from(s.drop_first(), false)
    }
}

/// `foo-bar` to `fooBar`: every `-` is dropped and the character after it
/// uppercased.
pub fn kebab_to_camel(name: &str) -> (r: String)
    ensures
        r@ == kebab_to_camel_spec(name@),
        all_ascii(name@) ==> r@ == camel_ascii_from(name@, false),
{
    let chars = chars_of(name);
    let n = chars.len();
    let mut out = String::new();
    let mut capitalize = false;
    let mut i: usize = 0;
    proof {
        assert(name@.skip(0) =~= name@);
    }
    while i < n
        invariant
            chars@ == name@,
            n == name@.len(),
            i <= n,
            kebab_to_camel_spec(name@) == out@ + camel_from(name@.skip(i as int), capitalize),
            all_ascii(name@) ==> camel_ascii_from(name@, false) == out@ + camel_ascii_from(
                name@.skip(i as int),
                capitalize,
            ),
        decreases n - i,
    {
        let ch = chars[i];
        let ghost before = out@;
        let ghost rest = name@.skip(i as int);
        proof {
            assert(rest.drop_first() =~= name@.skip(i + 1));
            assert(rest[0] == ch);
        }
        if ch == '-' {
            capitalize = true;
        } else if capitalize {
            let upper = char_uppercase(ch);
            let m = upper.len();
            let mut k: usize = 0;
            while k < m
                invariant
                    m == upper@.len(),
                    k <= m,
                    out@ == before + upper@.take(k as int),
                decreases m - k,
            {
                push_char(&mut out, upper[k]);
                proof {
                    assert(out@ =~= before + upper@.take(k + 1));
                }
                k = k + 1;
            }
            proof {
                assert(upper@.take(m as int) =~= upper@);
                assert(before + (uppercase_mapping(ch) + camel_from(name@.skip(i + 1), false)) =~= (
                before + uppercase_mapping(ch)) + camel_from(name@.skip(i + 1), false));
                if all_ascii(name@) {
                    assert((name@[i as int] as u32) < 128);
                    assert(upper@ == seq![upper_char(ch)]);
                    assert(before + (seq![upper_char(ch)] + camel_ascii_from(name@.skip(i + 1), false))
                        =~= (before + seq![upper_char(ch)]) + camel_ascii_from(name@.skip(i + 1), false));
                }
            }
            capitalize = false;
        } else {
            push_char(&mut out, ch);
            proof {
                assert(before + (seq![ch] + camel_from(name@.skip(i + 1), false)) =~= before.push(
                    ch,
                ) + camel_from(name@.skip(i + 1), false));
                assert(before + (seq![ch] + camel_ascii_from(name@.skip(i + 1), false)) =~= before.push(
                    ch,
                ) + camel_ascii_from(name@.skip(i + 1), false));
            }
        }
        i = i + 1;
    }
    proof {
        assert(name@.skip(n as int) =~= Seq::<char>::empty());
        assert(out@ + Seq::<char>::empty() =~= out@);
    }
    out
}

/// The dataset key an attribute named `name` is reflected under: the
/// camelCase form of what follows `data-`, when that is not empty.
pub open spec fn dataset_key_spec(name: Seq<char>) -> Option<Seq<char>> {
    if name.len() > 5 && name.take(5) == "data-"@ {
        Some(kebab_to_camel_spec(name.skip(5)))
    } else {
        None
    }
}

/// `dataset_key_spec` for an ASCII attribute name.
pub open spec fn dataset_key_ascii(name: Seq<char>) -> Option<Seq<char>> {
    if name.len() > 5 && name.take(5) == "data-"@ {
        Some(camel_ascii_from(name.skip(5), false))
    } else {
        None
    }
}

/// The dataset key of attribute `name`, if it is a `data-*` attribute with
/// a non-empty suffix.
pub fn dataset_key(name: &str) -> (r: Option<String>)
    ensures
        match r {
            Some(k) => dataset_key_spec(name@) == Some(k@),
            None => dataset_key_spec(name@) == None::<Seq<char>>,
        },
        all_ascii(name@) ==> dataset_key_spec(name@) == dataset_key_ascii(name@),
{
    let chars = chars_of(name);
    let prefix = chars_of("data-");
    proof {
        reveal_strlit("data-");
    }
    if chars.len() <= 5 {
        return None;
    }
    let mut i: usize = 0;
    while i < 5
        invariant
            chars@ == name@,
            prefix@ == "data-"@,
            prefix@.len() == 5,
            chars@.len() > 5,
            i <= 5,
            forall|j: int| 0 <= j < i ==> chars@[j] == prefix@[j],
        decreases 5 - i,
    {
        if chars[i] != prefix[i] {
            proof {
                assert(name@.take(5)[i as int] != "data-"@[i as int]);
            }
            return None;
        }
        i = i + 1;
    }
    proof {
        assert(name@.take(5) =~= "data-"@);
    }
    let mut rest = String::new();
    let n = chars.len();
    let mut k: usize = 5;
    while k < n
        invariant
            chars@ == name@,
            n == name@.len(),
            5 <= k <= n,
            rest@ == name@.skip(5).take(k - 5),
        decreases n - k,
    {
        push_char(&mut rest, chars[k]);
        proof {
            assert(rest@ =~= name@.skip(5).take(k + 1 - 5));
        }
        k = k + 1;
    }
    proof {
        assert(name@.skip(5).take(n - 5) =~= name@.skip(5));
        if all_ascii(name@) {
            assert forall|j: int| 0 <= j < rest@.len() implies (#[trigger] rest@[j] as u32) < 128 by {
                assert(rest@[j] == name@[j + 5]);
            }
        }
    }
    Some(kebab_to_camel(rest.as_str()))
}

/// The `(key, value)` pairs a dataset reflects, in attribute order.
pub open spec fn dataset_entries_spec(attrs: Seq<(Seq<char>, Seq<char>)>) -> Seq<
    (Seq<char>, Seq<char>),
>
    decreases attrs.len(),
{
    if attrs.len() == 0 {
        seq![]
    } else {
        let front = dataset_entries_spec(attrs.drop_last());
        match dataset_key_spec(attrs.last().0) {
            Some(k) => front.push((k, attrs.last().1)),
            None => front,
        }
    }
}

/// `dataset_entries_spec` for attributes with ASCII names.
pub open spec fn dataset_entries_ascii(attrs: Seq<(Seq<char>, Seq<char>)>) -> Seq<(Seq<char>, Seq<char>)>
    decreases attrs.len(),
{
    if attrs.len() == 0 {
        seq![]
    } else {
        let front = dataset_entries_ascii(attrs.drop_last());
        match dataset_key_ascii(attrs.last().0) {
            Some(k) => front.push((k, attrs.last().1)),
            None => front,
        }
    }
}

/// Every attribute name in `attrs` is ASCII.
pub open spec fn all_names_ascii(attrs: Seq<(Seq<char>, Seq<char>)>) -> bool {
    forall|i: int| 0 <= i < attrs.len() ==> all_ascii(#[trigger] attrs[i].0)
}

/// The views of a list of string pairs.
pub open spec fn pair_views(v: Seq<(String, String)>) -> Seq<(Seq<char>, Seq<char>)> {
    v.map_values(|p: (String, String)| (p.0@, p.1@))
}

/// The `(key, value)` pairs a dataset reflects, from an element's
/// attributes in order.
pub fn dataset_entries(attrs: &Vec<(String, String)>) -> (r: Vec<(String, String)>)
    ensures
        pair_views(r@) == dataset_entries_spec(pair_views(attrs@)),
        all_names_ascii(pair_views(attrs@)) ==> pair_views(r@) == dataset_entries_ascii(
            pair_views(attrs@),
        ),
{
    let n = attrs.len();
    let mut out: Vec<(String, String)> = Vec::new();
    let mut i: usize = 0;
    let ghost a = pair_views(attrs@);
    proof {
        assert(a.take(0) =~= Seq::<(Seq<char>, Seq<char>)>::empty());
        assert(pair_views(out@) =~= Seq::<(Seq<char>, Seq<char>)>::empty());
    }
    while i < n
        invariant
            n == attrs@.len(),
            a == pair_views(attrs@),
            i <= n,
            pair_views(out@) == dataset_entries_spec(a.take(i as int)),
            all_names_ascii(a) ==> pair_views(out@) == dataset_entries_ascii(a.take(i as int)),
        decreases n - i,
    {
        let (name, value) = &attrs[i];
        proof {
            assert(a.take(i + 1).drop_last() =~= a.take(i as int));
            assert(a.take(i + 1).last() == (name@, value@));
            if all_names_ascii(a) {
                assert(all_ascii(a[i as int].0));
            }
        }
        match dataset_key(name.as_str()) {
            Some(k) => {
                let ghost before = out@;
                let ghost kv = k@;
                out.push((k, value.clone()));
                proof {
                    assert(pair_views(out@) =~= pair_views(before).push((kv, value@)));
                }
            },
            None => {},
        }
        i = i + 1;
    }
    proof {
        assert(a.take(n as int) =~= a);
    }
    out
}

/// The character views of a list of strings.
pub open spec fn key_views(v: Seq<String>) -> Seq<Seq<char>> {
    v.map_values(|s: String| s@)
}

/// The keys of `previous` that are not in `current`, in order: the stale
/// dataset properties to clear.
pub open spec fn stale_keys_spec(previous: Seq<Seq<char>>, current: Seq<Seq<char>>) -> Seq<Seq<char>>
    decreases previous.len(),
{
    if previous.len() == 0 {
        seq![]
    } else {
        let front = stale_keys_spec(previous.drop_last(), current);
        if current.contains(previous.last()) {
            front
        } else {
            front.push(previous.last())
        }
    }
}

/// The stale keys are exactly the previous keys that are no longer
/// current, each reported once per occurrence in `previous` and in the
/// order of `previous`: the list is `previous` with the current keys left
/// out, so it is empty only when every previous key is still current.
pub proof fn law_stale_keys_are_the_dropped_keys(previous: Seq<Seq<char>>, current: Seq<Seq<char>>)
    ensures
        forall|k: Seq<char>|
            #[trigger] stale_keys_spec(previous, current).contains(k) <==> previous.contains(k)
                && !current.contains(k),
        stale_keys_spec(previous, current) == previous.filter(|k: Seq<char>| !current.contains(k)),
    decreases previous.len(),
{
    reveal(Seq::filter);
    let pred = |k: Seq<char>| !current.contains(k);
    if previous.len() == 0 {
        assert(previous.filter(pred) =~= previous);
    } else {
        let front = previous.drop_last();
        law_stale_keys_are_the_dropped_keys(front, current);
        assert forall|k: Seq<char>|
            #[trigger] stale_keys_spec(previous, current).contains(k) <==> previous.contains(k)
                && !current.contains(k) by {
            if previous.contains(k) && !current.contains(k) {
                let i = choose|i: int| 0 <= i < previous.len() && previous[i] == k;
                if i < previous.len() - 1 {
                    assert(front[i] == k);
                    assert(front.contains(k));
                    assert(stale_keys_spec(front, current).contains(k));
                    let j = choose|j: int|
                        0 <= j < stale_keys_spec(front, current).len() && stale_keys_spec(
                            front,
                            current,
                        )[j] == k;
                    if !current.contains(previous.last()) {
                        assert(stale_keys_spec(previous, current)[j] == k);
                    }
                } else {
                    assert(previous.last() == k);
                    assert(stale_keys_spec(previous, current).last() == k);
                }
            }
            if stale_keys_spec(previous, current).contains(k) {
                let j = choose|j: int|
                    0 <= j < stale_keys_spec(previous, current).len() && stale_keys_spec(
                        previous,
                        current,
                    )[j] == k;
                if j < stale_keys_spec(front, current).len() {
                    assert(stale_keys_spec(front, current)[j] == k);
                    assert(stale_keys_spec(front, current).contains(k));
                    let i = choose|i: int| 0 <= i < front.len() && front[i] == k;
                    assert(previous[i] == k);
                } else {
                    assert(previous.last() == k);
                    assert(previous[previous.len() - 1] == k);
                }
            }
        }
    }
}

fn contains_key(keys: &Vec<String>, k: &String) -> (r: bool)
    ensures
        r == key_views(keys@).contains(k@),
{
    let n = keys.len();
    let mut i: usize = 0;
    while i < n
        invariant
            n == keys@.len(),
            i <= n,
            forall|j: int| 0 <= j < i ==> keys@[j]@ != k@,
        decreases n - i,
    {
        if same_text(keys[i].as_str(), k.as_str()) {
            proof {
                assert(key_views(keys@)[i as int] == k@);
            }
            return true;
        }
        i = i + 1;
    }
    proof {
        if key_views(keys@).contains(k@) {
            let j = choose|j: int| 0 <= j < key_views(keys@).len() && key_views(keys@)[j] == k@;
            assert(keys@[j]@ == k@);
        }
    }
    false
}

/// The dataset keys synced last time that are no longer reflected.
pub fn stale_keys(previous: &Vec<String>, current: &Vec<String>) -> (r: Vec<String>)
    ensures
        key_views(r@) == stale_keys_spec(key_views(previous@), key_views(current@)),
{
    let n = previous.len();
    let mut out: Vec<String> = Vec::new();
    let mut i: usize = 0;
    let ghost p = key_views(previous@);
    proof {
        assert(p.take(0) =~= Seq::<Seq<char>>::empty());
        assert(key_views(out@) =~= Seq::<Seq<char>>::empty());
    }
    while i < n
        invariant
            n == previous@.len(),
            p == key_views(previous@),
            i <= n,
            key_views(out@) == stale_keys_spec(p.take(i as int), key_views(current@)),
        decreases n - i,
    {
        proof {
            assert(p.take(i + 1).drop_last() =~= p.take(i as int));
            assert(p.take(i + 1).last() == previous@[i as int]@);
        }
        if !contains_key(current, &previous[i]) {
            let ghost before = out@;
            out.push(previous[i].clone());
            proof {
                assert(key_views(out@) =~= key_views(before).push(previous@[i as int]@));
            }
        }
        i = i + 1;
    }
    proof {
        assert(p.take(n as int) =~= p);
    }
    out
}

} // verus!
