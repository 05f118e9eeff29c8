//! `Element.classList`: the whitespace-separated token list backed by an
//! element's `class` attribute, and the `DOMTokenList` operations
//! (`add`/`remove`/`contains`/`toggle`/`replace`/`value`) computed over it.
//!
//! Every operation here takes the attribute's current text and returns the
//! text to write back; the caller owns the DOM write.

use vstd::prelude::*;
use vstd::string::StringSliceAdditionalSpecFns;

use crate::limits::{MAX_ATTRIBUTE_NAME_LENGTH, MAX_ATTRIBUTE_VALUE_LENGTH};
use crate::text::{byte_len, chars_of, utf8_len};
use crate::text::push_char;

verus! {

/// ASCII whitespace as `str::split_ascii_whitespace` understands it:
/// space, tab, line feed, form feed and carriage return.
pub open spec fn is_ascii_ws(c: char) -> bool {
    c == ' ' || c == '\t' || c == '\n' || c == '\x0C' || c == '\r'
}

/// Splits `s` into maximal runs of non-whitespace characters, given the
/// run `cur` already collected before `s`.
pub open spec fn split_from(s: Seq<char>, cur: Seq<char>) -> Seq<Seq<char>>
    decreases s.len(),
{
    if s.len() == 0 {
        if cur.len() == 0 {
            seq![]
        } else {
            seq![cur]
        }
    } else if is_ascii_ws(s[0]) {
        let rest = split_from(s.drop_first(), seq![]);
        if cur.len() == 0 {
            rest
        } else {
            seq![cur] + rest
        }
    } else {
        split_from(s.drop_first(), cur.push(s[0]))
    }
}

/// The class tokens of an attribute value, in order, duplicates kept.
pub open spec fn token_seq(s: Seq<char>) -> Seq<Seq<char>> {
    split_from(s, seq![])
}

/// The character views of a list of strings.
pub open spec fn views(v: Seq<String>) -> Seq<Seq<char>> {
    v.map_values(|t: String| t@)
}

/// A token that can stand in a class list: non-empty and free of ASCII
/// whitespace.
pub open spec fn token_chars_ok(t: Seq<char>) -> bool {
    t.len() > 0 && forall|i: int| 0 <= i < t.len() ==> !is_ascii_ws(#[trigger] t[i])
}

/// What `valid_class_token` accepts: a well-formed token whose UTF-8 text
/// is at most 64 bytes.
pub open spec fn token_ok(t: Seq<char>) -> bool {
    token_chars_ok(t) && utf8_len(t) <= MAX_ATTRIBUTE_NAME_LENGTH
}

/// Tokens joined by single spaces: the attribute text a token list writes.
pub open spec fn join_seq(ts: Seq<Seq<char>>) -> Seq<char>
    decreases ts.len(),
{
    if ts.len() == 0 {
        seq![]
    } else if ts.len() == 1 {
        ts[0]
    } else {
        join_seq(ts.drop_last()) + seq![' '] + ts.last()
    }
}

/// `t` added at the end unless already present.
pub open spec fn add_token(ts: Seq<Seq<char>>, t: Seq<char>) -> Seq<Seq<char>> {
    if ts.contains(t) {
        ts
    } else {
        ts.push(t)
    }
}

/// Every occurrence of `t` removed, the rest in order.
pub open spec fn remove_token(ts: Seq<Seq<char>>, t: Seq<char>) -> Seq<Seq<char>>
    decreases ts.len(),
{
    if ts.len() == 0 {
        ts
    } else {
        let r = remove_token(ts.drop_last(), t);
        if ts.last() == t {
            r
        } else {
            r.push(ts.last())
        }
    }
}

/// `add_token` for each argument in turn.
pub open spec fn add_all(ts: Seq<Seq<char>>, args: Seq<Seq<char>>) -> Seq<Seq<char>>
    decreases args.len(),
{
    if args.len() == 0 {
        ts
    } else {
        add_token(add_all(ts, args.drop_last()), args.last())
    }
}

/// `remove_token` for each argument in turn.
pub open spec fn remove_all(ts: Seq<Seq<char>>, args: Seq<Seq<char>>) -> Seq<Seq<char>>
    decreases args.len(),
{
    if args.len() == 0 {
        ts
    } else {
        remove_token(remove_all(ts, args.drop_last()), args.last())
    }
}

/// Why a class-list operation was refused.
#[derive(Debug, Clone, Copy, PartialEq, Eq)]
pub enum ClassListError {
    /// A token was empty, longer than 64 bytes or held ASCII whitespace.
    InvalidToken,
    /// The resulting `class` attribute would exceed 4096 bytes.
    TooLong,
}

/// What writing token list `ts` back to the attribute gives: its text, or
/// `TooLong` when that text is over the attribute-value bound.
pub open spec fn write_result(ts: Seq<Seq<char>>) -> Result<Seq<char>, ClassListError> {
    if utf8_len(join_seq(ts)) > MAX_ATTRIBUTE_VALUE_LENGTH {
        Err(ClassListError::TooLong)
    } else {
        Ok(join_seq(ts))
    }
}

/// The view of a returned attribute text.
pub open spec fn result_view(r: Result<String, ClassListError>) -> Result<Seq<char>, ClassListError> {
    match r {
        Ok(s) => Ok(s@),
        Err(e) => Err(e),
    }
}

fn is_ws(c: char) -> (r: bool)
    ensures
        r == is_ascii_ws(c),
{
    c == ' ' || c == '\t' || c == '\n' || c == '\x0C' || c == '\r'
}

/// The class tokens of `value`: its maximal runs of non-ASCII-whitespace
/// characters, in order (what `split_ascii_whitespace` yields).
pub fn class_tokens(value: &str) -> (r: Vec<String>)
    ensures
        views(r@) == token_seq(value@),
{
    let chars = chars_of(value);
    let n = chars.len();
    let mut tokens: Vec<String> = Vec::new();
    let mut cur = String::new();
    let mut i: usize = 0;
    proof {
        assert(value@.skip(0) =~= value@);
        assert(views(tokens@) =~= Seq::<Seq<char>>::empty());
    }
    while i < n
        invariant
            chars@ == value@,
            n == chars@.len(),
            i <= n,
            token_seq(value@) == views(tokens@) + split_from(value@.skip(i as int), cur@),
        decreases n - i,
    {
        let c = chars[i];
        proof {
            assert(value@.skip(i as int).drop_first() =~= value@.skip(i + 1));
            assert(value@.skip(i as int)[0] == c);
        }
        if is_ws(c) {
            proof {
                let rest = split_from(value@.skip(i + 1), seq![]);
                assert(split_from(value@.skip(i as int), cur@) == (if cur@.len() == 0 {
                    rest
                } else {
                    seq![cur@] + rest
                }));
            }
            if !cur.as_str().is_empty() {
                let ghost old_tokens = tokens@;
                let ghost old_cur = cur@;
                tokens.push(cur);
                cur = String::new();
                proof {
                    assert(views(tokens@) =~= views(old_tokens).push(old_cur));
                    assert(views(old_tokens) + (seq![old_cur] + split_from(
                        value@.skip(i + 1),
                        seq![],
                    )) =~= views(old_tokens).push(old_cur) + split_from(value@.skip(i + 1), seq![]));
                }
            } else {
                proof {
                    assert(cur@ =~= Seq::<char>::empty());
                }
            }
        } else {
            proof {
                assert(split_from(value@.skip(i as int), cur@) == split_from(
                    value@.skip(i + 1),
                    cur@.push(c),
                ));
            }
            push_char(&mut cur, c);
        }
        i = i + 1;
    }
    if !cur.as_str().is_empty() {
        let ghost old_tokens = tokens@;
        let ghost old_cur = cur@;
        tokens.push(cur);
        proof {
            assert(views(tokens@) =~= views(old_tokens).push(old_cur));
        }
    }
    proof {
        assert(value@.skip(n as int) =~= Seq::<char>::empty());
    }
    tokens
}


/// Whether `token` may be added to, looked up in or removed from a class
/// list: non-empty, at most 64 bytes, and free of ASCII whitespace.
pub fn valid_class_token(token: &str) -> (r: bool)
    ensures
        r == token_ok(token@),
{
    let chars = chars_of(token);
    if chars.len() == 0 {
        return false;
    }
    if byte_len(token) > MAX_ATTRIBUTE_NAME_LENGTH {
        return false;
    }
    let n = chars.len();
    let mut i: usize = 0;
    while i < n
        invariant
            chars@ == token@,
            n == chars@.len(),
            i <= n,
            forall|j: int| 0 <= j < i ==> !is_ascii_ws(#[trigger] token@[j]),
        decreases n - i,
    {
        if is_ws(chars[i]) {
            return false;
        }
        i = i + 1;
    }
    true
}

/// The tokens joined by single spaces.
pub fn join_tokens(tokens: &Vec<String>) -> (r: String)
    ensures
        r@ == join_seq(views(tokens@)),
{
    let mut res = String::new();
    let n = tokens.len();
    let mut i: usize = 0;
    let sep = " ";
    proof {
        reveal_strlit(" ");
        assert(views(tokens@).take(0) =~= Seq::<Seq<char>>::empty());
    }
    while i < n
        invariant
            n == tokens@.len(),
            i <= n,
            sep@ == seq![' '],
            res@ == join_seq(views(tokens@).take(i as int)),
        decreases n - i,
    {
        let ghost before = res@;
        if i > 0 {
            res.append(sep);
        }
        res.append(tokens[i].as_str());
        proof {
            let ts = views(tokens@);
            assert(ts.take(i + 1).drop_last() =~= ts.take(i as int));
            assert(ts.take(i + 1).last() == tokens@[i as int]@);
            if i == 0 {
                assert(before =~= Seq::<char>::empty());
                assert(res@ =~= tokens@[0]@);
            }
        }
        i = i + 1;
    }
    proof {
        assert(views(tokens@).take(n as int) =~= views(tokens@));
    }
    res
}

/// Whether `t` occurs among `tokens`.
pub fn contains_token(tokens: &Vec<String>, t: &String) -> (r: bool)
    ensures
        r == views(tokens@).contains(t@),
{
    let n = tokens.len();
    let mut i: usize = 0;
    while i < n
        invariant
            n == tokens@.len(),
            i <= n,
            forall|j: int| 0 <= j < i ==> tokens@[j]@ != t@,
        decreases n - i,
    {
        if tokens[i] == *t {
            proof {
                assert(views(tokens@)[i as int] == t@);
            }
            return true;
        }
        i = i + 1;
    }
    proof {
        if views(tokens@).contains(t@) {
            let k = choose|k: int| 0 <= k < views(tokens@).len() && views(tokens@)[k] == t@;
            assert(tokens@[k]@ == t@);
        }
    }
    false
}

/// `tokens` without any occurrence of `t`.
pub fn without_token(tokens: &Vec<String>, t: &String) -> (r: Vec<String>)
    ensures
        views(r@) == remove_token(views(tokens@), t@),
{
    let n = tokens.len();
    let mut out: Vec<String> = Vec::new();
    let mut i: usize = 0;
    proof {
        assert(views(tokens@).take(0) =~= Seq::<Seq<char>>::empty());
        assert(views(out@) =~= Seq::<Seq<char>>::empty());
    }
    while i < n
        invariant
            n == tokens@.len(),
            i <= n,
            views(out@) == remove_token(views(tokens@).take(i as int), t@),
        decreases n - i,
    {
        let ghost before = out@;
        proof {
            let ts = views(tokens@);
            assert(ts.take(i + 1).drop_last() =~= ts.take(i as int));
            assert(ts.take(i + 1).last() == tokens@[i as int]@);
        }
        if tokens[i] != *t {
            out.push(tokens[i].clone());
            proof {
                assert(views(out@) =~= views(before).push(tokens@[i as int]@));
            }
        }
        i = i + 1;
    }
    proof {
        assert(views(tokens@).take(n as int) =~= views(tokens@));
    }
    out
}

/// What writing `tokens` back gives: the joined text, or `TooLong` past
/// 4096 bytes.
pub fn write_tokens(tokens: &Vec<String>) -> (r: Result<String, ClassListError>)
    ensures
        result_view(r) == write_result(views(tokens@)),
{
    let value = join_tokens(tokens);
    if byte_len(value.as_str()) > MAX_ATTRIBUTE_VALUE_LENGTH {
        Err(ClassListError::TooLong)
    } else {
        Ok(value)
    }
}

/// The outcome of `classList.add(...args)` (`add`) or
/// `classList.remove(...args)` (`!add`) on an element whose `class`
/// attribute is `current`.
pub open spec fn mutate_result(current: Seq<char>, args: Seq<Seq<char>>, add: bool) -> Result<
    Seq<char>,
    ClassListError,
> {
    if exists|i: int| 0 <= i < args.len() && !token_ok(#[trigger] args[i]) {
        Err(ClassListError::InvalidToken)
    } else if add {
        write_result(add_all(token_seq(current), args))
    } else {
        write_result(remove_all(token_seq(current), args))
    }
}

/// `classList.add(...args)` when `add`, `classList.remove(...args)`
/// otherwise: the new `class` attribute text, or why the call throws.
pub fn class_list_mutate(current: &str, args: &Vec<String>, add: bool) -> (r: Result<
    String,
    ClassListError,
>)
    ensures
        result_view(r) == mutate_result(current@, views(args@), add),
{
    let mut tokens = class_tokens(current);
    let n = args.len();
    let mut i: usize = 0;
    let ghost start = token_seq(current@);
    proof {
        assert(views(args@).take(0) =~= Seq::<Seq<char>>::empty());
    }
    while i < n
        invariant
            n == args@.len(),
            i <= n,
            start == token_seq(current@),
            forall|j: int| 0 <= j < i ==> token_ok(#[trigger] views(args@)[j]),
            views(tokens@) == (if add {
                add_all(start, views(args@).take(i as int))
            } else {
                remove_all(start, views(args@).take(i as int))
            }),
        decreases n - i,
    {
        let arg = &args[i];
        if !valid_class_token(arg.as_str()) {
            proof {
                assert(!token_ok(views(args@)[i as int]));
            }
            return Err(ClassListError::InvalidToken);
        }
        proof {
            let a = views(args@);
            assert(a.take(i + 1).drop_last() =~= a.take(i as int));
            assert(a.take(i + 1).last() == arg@);
        }
        if add {
            if !contains_token(&tokens, arg) {
                let ghost before = tokens@;
                tokens.push(arg.clone());
                proof {
                    assert(views(tokens@) =~= views(before).push(arg@));
                }
            }
        } else {
            tokens = without_token(&tokens, arg);
        }
        i = i + 1;
    }
    proof {
        assert(views(args@).take(n as int) =~= views(args@));
        assert(!exists|j: int| 0 <= j < views(args@).len() && !token_ok(#[trigger] views(args@)[j]));
    }
    write_tokens(&tokens)
}

/// The first index at which `t` occurs in `ts`.
pub open spec fn position_of(ts: Seq<Seq<char>>, t: Seq<char>) -> Option<int>
    decreases ts.len(),
{
    if ts.len() == 0 {
        None
    } else {
        match position_of(ts.drop_last(), t) {
            Some(p) => Some(p),
            None => if ts.last() == t {
                Some(ts.len() - 1)
            } else {
                None
            },
        }
    }
}

/// The outcome of `classList.toggle(t, force)`: the new attribute text and
/// whether `t` is now present.
pub open spec fn toggle_result(current: Seq<char>, t: Seq<char>, force: Option<bool>) -> Result<
    (Seq<char>, bool),
    ClassListError,
> {
    if !token_ok(t) {
        Err(ClassListError::InvalidToken)
    } else {
        let ts = token_seq(current);
        let present = ts.contains(t);
        let should = match force {
            Some(b) => b,
            None => !present,
        };
        let next = if should && !present {
            ts.push(t)
        } else if !should && present {
            remove_token(ts, t)
        } else {
            ts
        };
        match write_result(next) {
            Ok(v) => Ok((v, should)),
            Err(e) => Err(e),
        }
    }
}

/// `classList.toggle(token, force)`: the new `class` attribute text and
/// whether `token` is now present, or why the call throws.
pub fn class_list_toggle(current: &str, token: &String, force: Option<bool>) -> (r: Result<
    (String, bool),
    ClassListError,
>)
    ensures
        match r {
            Ok((s, b)) => toggle_result(current@, token@, force) == Ok::<(Seq<char>, bool), ClassListError>((s@, b)),
            Err(e) => toggle_result(current@, token@, force) == Err::<(Seq<char>, bool), ClassListError>(e),
        },
{
    if !valid_class_token(token.as_str()) {
        return Err(ClassListError::InvalidToken);
    }
    let mut tokens = class_tokens(current);
    let present = contains_token(&tokens, token);
    let should = match force {
        Some(b) => b,
        None => !present,
    };
    if should && !present {
        let ghost before = tokens@;
        tokens.push(token.clone());
        proof {
            assert(views(tokens@) =~= views(before).push(token@));
        }
    } else if !should && present {
        tokens = without_token(&tokens, token);
    }
    match write_tokens(&tokens) {
        Ok(v) => Ok((v, should)),
        Err(e) => Err(e),
    }
}

/// The outcome of `classList.replace(old, new)`: `None` when `old` is not
/// present (nothing is written), else the new attribute text.
pub open spec fn replace_result(current: Seq<char>, old: Seq<char>, new: Seq<char>) -> Result<
    Option<Seq<char>>,
    ClassListError,
> {
    if !token_ok(old) || !token_ok(new) {
        Err(ClassListError::InvalidToken)
    } else {
        let ts = token_seq(current);
        match position_of(ts, old) {
            None => Ok(None),
            Some(p) => match write_result(ts.update(p, new)) {
                Ok(v) => Ok(Some(v)),
                Err(e) => Err(e),
            },
        }
    }
}

/// `classList.replace(old, new)`: `Ok(None)` when `old` is absent (the
/// call returns `false`), `Ok(Some(text))` with the new `class` attribute
/// text when it was replaced, or why the call throws.
pub fn class_list_replace(current: &str, old: &String, new: &String) -> (r: Result<
    Option<String>,
    ClassListError,
>)
    ensures
        match r {
            Ok(Some(s)) => replace_result(current@, old@, new@) == Ok::<Option<Seq<char>>, ClassListError>(Some(s@)),
            Ok(None) => replace_result(current@, old@, new@) == Ok::<Option<Seq<char>>, ClassListError>(None),
            Err(e) => replace_result(current@, old@, new@) == Err::<Option<Seq<char>>, ClassListError>(e),
        },
{
    if !valid_class_token(old.as_str()) || !valid_class_token(new.as_str()) {
        return Err(ClassListError::InvalidToken);
    }
    let mut tokens = class_tokens(current);
    let n = tokens.len();
    let mut i: usize = 0;
    let ghost ts = views(tokens@);
    while i < n
        invariant
            n == tokens@.len(),
            ts == views(tokens@),
            ts == token_seq(current@),
            token_ok(old@),
            token_ok(new@),
            i <= n,
            position_of(ts.take(i as int), old@) == None::<int>,
        decreases n - i,
    {
        proof {
            assert(ts.take(i + 1).drop_last() =~= ts.take(i as int));
        }
        if tokens[i] == *old {
            proof {
                lemma_position_prefix(ts, old@, i as int);
            }
            tokens.set(i, new.clone());
            proof {
                assert(views(tokens@) =~= ts.update(i as int, new@));
                assert(ts == token_seq(current@));
                assert(position_of(ts, old@) == Some(i as int));
            }
            return match write_tokens(&tokens) {
                Ok(v) => Ok(Some(v)),
                Err(e) => Err(e),
            };
        }
        i = i + 1;
    }
    proof {
        assert(ts.take(n as int) =~= ts);
    }
    Ok(None)
}

proof fn lemma_position_prefix(ts: Seq<Seq<char>>, t: Seq<char>, i: int)
    requires
        0 <= i < ts.len(),
        position_of(ts.take(i), t) == None::<int>,
        ts[i] == t,
    ensures
        position_of(ts, t) == Some(i),
    decreases ts.len(),
{
    assert(ts.take(i + 1).drop_last() =~= ts.take(i));
    if i + 1 < ts.len() {
        assert(ts.drop_last().take(i) =~= ts.take(i));
        lemma_position_prefix(ts.drop_last(), t, i);
    } else {
        assert(ts.drop_last() =~= ts.take(i));
    }
}

/// `classList.contains(token)`: whether the `class` attribute `current`
/// holds `token`, or `InvalidToken` when the call throws.
pub fn class_list_contains(current: &str, token: &String) -> (r: Result<bool, ClassListError>)
    ensures
        r == (if token_ok(token@) {
            Ok::<bool, ClassListError>(token_seq(current@).contains(token@))
        } else {
            Err::<bool, ClassListError>(ClassListError::InvalidToken)
        }),
{
    if !valid_class_token(token.as_str()) {
        return Err(ClassListError::InvalidToken);
    }
    let tokens = class_tokens(current);
    Ok(contains_token(&tokens, token))
}


/// Every token in `ts` is well formed.
pub open spec fn all_tokens_ok(ts: Seq<Seq<char>>) -> bool {
    forall|i: int| 0 <= i < ts.len() ==> token_chars_ok(#[trigger] ts[i])
}

proof fn lemma_split_ws_concat(s: Seq<char>, w: char, b: Seq<char>, cur: Seq<char>)
    requires
        is_ascii_ws(w),
    ensures
        split_from(s + seq![w] + b, cur) == split_from(s, cur) + split_from(b, seq![]),
    decreases s.len(),
{
    let whole = s + seq![w] + b;
    if s.len() == 0 {
        assert(whole =~= seq![w] + b);
        assert(whole.drop_first() =~= b);
        if cur.len() == 0 {
            assert(split_from(s, cur) =~= Seq::<Seq<char>>::empty());
            assert(split_from(s, cur) + split_from(b, seq![]) =~= split_from(b, seq![]));
        }
    } else {
        assert(whole[0] == s[0]);
        assert(whole.drop_first() =~= s.drop_first() + seq![w] + b);
        if is_ascii_ws(s[0]) {
            lemma_split_ws_concat(s.drop_first(), w, b, seq![]);
            let rest = split_from(s.drop_first(), seq![]);
            if cur.len() != 0 {
                assert(seq![cur] + (rest + split_from(b, seq![])) =~= (seq![cur] + rest) + split_from(
                    b,
                    seq![],
                ));
            }
        } else {
            lemma_split_ws_concat(s.drop_first(), w, b, cur.push(s[0]));
        }
    }
}

proof fn lemma_split_no_ws(t: Seq<char>, cur: Seq<char>)
    requires
        forall|i: int| 0 <= i < t.len() ==> !is_ascii_ws(#[trigger] t[i]),
    ensures
        split_from(t, cur) == split_from(Seq::<char>::empty(), cur + t),
    decreases t.len(),
{
    if t.len() == 0 {
        assert(cur + t =~= cur);
    } else {
        assert(!is_ascii_ws(t[0]));
        lemma_split_no_ws(t.drop_first(), cur.push(t[0]));
        assert(cur.push(t[0]) + t.drop_first() =~= cur + t);
    }
}

/// Reflection law: a list of well-formed tokens written back as the
/// `class` attribute reads back as exactly the same list.
pub proof fn law_tokens_roundtrip(ts: Seq<Seq<char>>)
    requires
        all_tokens_ok(ts),
    ensures
        token_seq(join_seq(ts)) == ts,
    decreases ts.len(),
{
    if ts.len() == 0 {
        assert(token_seq(join_seq(ts)) =~= ts);
    } else {
        let last = ts.last();
        assert(token_chars_ok(ts[ts.len() - 1]));
        lemma_split_no_ws(last, seq![]);
        assert(Seq::<char>::empty() + last =~= last);
        assert(split_from(last, seq![]) =~= seq![last]);
        if ts.len() == 1 {
            assert(ts =~= seq![last]);
        } else {
            let front = ts.drop_last();
            assert forall|i: int| 0 <= i < front.len() implies token_chars_ok(#[trigger] front[i]) by {
                assert(front[i] == ts[i]);
            }
            law_tokens_roundtrip(front);
            lemma_split_ws_concat(join_seq(front), ' ', last, seq![]);
            assert(front + seq![last] =~= ts);
        }
    }
}

proof fn lemma_split_tokens_ok(s: Seq<char>, cur: Seq<char>)
    requires
        forall|i: int| 0 <= i < cur.len() ==> !is_ascii_ws(#[trigger] cur[i]),
    ensures
        all_tokens_ok(split_from(s, cur)),
    decreases s.len(),
{
    if s.len() == 0 {
    } else if is_ascii_ws(s[0]) {
        lemma_split_tokens_ok(s.drop_first(), seq![]);
        let rest = split_from(s.drop_first(), seq![]);
        if cur.len() != 0 {
            let all = seq![cur] + rest;
            assert forall|i: int| 0 <= i < all.len() implies token_chars_ok(#[trigger] all[i]) by {
                if i > 0 {
                    assert(all[i] == rest[i - 1]);
                }
            }
        }
    } else {
        let next = cur.push(s[0]);
        assert forall|i: int| 0 <= i < next.len() implies !is_ascii_ws(#[trigger] next[i]) by {
            if i < cur.len() {
                assert(next[i] == cur[i]);
            }
        }
        lemma_split_tokens_ok(s.drop_first(), next);
    }
}

/// Every class token read from an attribute is non-empty and free of
/// ASCII whitespace.
pub proof fn law_tokens_well_formed(s: Seq<char>)
    ensures
        all_tokens_ok(token_seq(s)),
{
    lemma_split_tokens_ok(s, seq![]);
}

proof fn lemma_add_all_props(ts: Seq<Seq<char>>, args: Seq<Seq<char>>)
    ensures
        forall|i: int| 0 <= i < args.len() ==> add_all(ts, args).contains(#[trigger] args[i]),
        forall|i: int| 0 <= i < ts.len() ==> add_all(ts, args).contains(#[trigger] ts[i]),
        forall|x: Seq<char>| #[trigger] add_all(ts, args).contains(x) ==> ts.contains(x) || args.contains(x),
    decreases args.len(),
{
    if args.len() > 0 {
        let front = args.drop_last();
        lemma_add_all_props(ts, front);
        let prev = add_all(ts, front);
        let t = args.last();
        assert forall|i: int| 0 <= i < args.len() implies add_all(ts, args).contains(
            #[trigger] args[i],
        ) by {
            if i < front.len() {
                assert(front[i] == args[i]);
                assert(prev.contains(front[i]));
                if !prev.contains(t) {
                    let k = choose|k: int| 0 <= k < prev.len() && prev[k] == front[i];
                    assert(prev.push(t)[k] == front[i]);
                }
            } else {
                if !prev.contains(t) {
                    assert(prev.push(t)[prev.len() as int] == t);
                }
            }
        }
        assert forall|i: int| 0 <= i < ts.len() implies add_all(ts, args).contains(#[trigger] ts[i]) by {
            assert(prev.contains(ts[i]));
            if !prev.contains(t) {
                let k = choose|k: int| 0 <= k < prev.len() && prev[k] == ts[i];
                assert(prev.push(t)[k] == ts[i]);
            }
        }
        assert forall|x: Seq<char>| #[trigger] add_all(ts, args).contains(x) implies ts.contains(x)
            || args.contains(x) by {
            let r = add_all(ts, args);
            let k = choose|k: int| 0 <= k < r.len() && r[k] == x;
            if prev.contains(t) || k < prev.len() {
                assert(r[k] == prev[k]);
                assert(prev.contains(x));
                if front.contains(x) {
                    let j = choose|j: int| 0 <= j < front.len() && front[j] == x;
                    assert(args[j] == x);
                }
            } else {
                assert(x == t);
                assert(args[args.len() - 1] == x);
            }
        }
    }
}

proof fn lemma_add_all_ok(ts: Seq<Seq<char>>, args: Seq<Seq<char>>)
    requires
        all_tokens_ok(ts),
        all_tokens_ok(args),
    ensures
        all_tokens_ok(add_all(ts, args)),
    decreases args.len(),
{
    if args.len() > 0 {
        let front = args.drop_last();
        assert forall|i: int| 0 <= i < front.len() implies token_chars_ok(#[trigger] front[i]) by {
            assert(front[i] == args[i]);
        }
        lemma_add_all_ok(ts, front);
        let prev = add_all(ts, front);
        assert(token_chars_ok(args[args.len() - 1]));
        if !prev.contains(args.last()) {
            let r = prev.push(args.last());
            assert forall|i: int| 0 <= i < r.len() implies token_chars_ok(#[trigger] r[i]) by {
                if i < prev.len() {
                    assert(r[i] == prev[i]);
                }
            }
        }
    }
}

proof fn lemma_add_all_fixed(ts: Seq<Seq<char>>, args: Seq<Seq<char>>)
    requires
        forall|i: int| 0 <= i < args.len() ==> ts.contains(#[trigger] args[i]),
    ensures
        add_all(ts, args) == ts,
    decreases args.len(),
{
    if args.len() > 0 {
        let front = args.drop_last();
        assert forall|i: int| 0 <= i < front.len() implies ts.contains(#[trigger] front[i]) by {
            assert(front[i] == args[i]);
        }
        lemma_add_all_fixed(ts, front);
        assert(ts.contains(args[args.len() - 1]));
    }
}

proof fn lemma_remove_token_props(ts: Seq<Seq<char>>, t: Seq<char>)
    ensures
        !remove_token(ts, t).contains(t),
        forall|x: Seq<char>| #[trigger] remove_token(ts, t).contains(x) ==> ts.contains(x),
        forall|i: int| 0 <= i < ts.len() && ts[i] != t ==> remove_token(ts, t).contains(
            #[trigger] ts[i],
        ),
    decreases ts.len(),
{
    if ts.len() > 0 {
        let front = ts.drop_last();
        lemma_remove_token_props(front, t);
        let r = remove_token(front, t);
        let whole = remove_token(ts, t);
        assert forall|x: Seq<char>| #[trigger] whole.contains(x) implies ts.contains(x) by {
            let k = choose|k: int| 0 <= k < whole.len() && whole[k] == x;
            if k < r.len() {
                assert(whole[k] == r[k]);
                assert(r.contains(x));
                let j = choose|j: int| 0 <= j < front.len() && front[j] == x;
                assert(ts[j] == x);
            } else {
                assert(ts[ts.len() - 1] == x);
            }
        }
        assert forall|i: int| 0 <= i < ts.len() && ts[i] != t implies whole.contains(
            #[trigger] ts[i],
        ) by {
            if i < front.len() {
                assert(front[i] == ts[i]);
                assert(r.contains(ts[i]));
                let k = choose|k: int| 0 <= k < r.len() && r[k] == ts[i];
                if ts.last() != t {
                    assert(whole[k] == ts[i]);
                }
            } else {
                assert(whole[r.len() as int] == ts[i]);
            }
        }
        if whole.contains(t) {
            let k = choose|k: int| 0 <= k < whole.len() && whole[k] == t;
            if k < r.len() {
                assert(whole[k] == r[k]);
            }
        }
    }
}

proof fn lemma_remove_all_props(ts: Seq<Seq<char>>, args: Seq<Seq<char>>)
    ensures
        forall|i: int| 0 <= i < args.len() ==> !remove_all(ts, args).contains(#[trigger] args[i]),
        forall|x: Seq<char>| #[trigger] remove_all(ts, args).contains(x) ==> ts.contains(x),
    decreases args.len(),
{
    if args.len() > 0 {
        let front = args.drop_last();
        lemma_remove_all_props(ts, front);
        let prev = remove_all(ts, front);
        lemma_remove_token_props(prev, args.last());
        assert forall|i: int| 0 <= i < args.len() implies !remove_all(ts, args).contains(
            #[trigger] args[i],
        ) by {
            if i < front.len() {
                assert(front[i] == args[i]);
                assert(!prev.contains(front[i]));
            }
        }
    }
}

/// `classList.add`: every argument is present afterwards, and so is every
/// token that was there before.
pub proof fn law_add_makes_present(current: Seq<char>, args: Seq<Seq<char>>, v: Seq<char>)
    requires
        mutate_result(current, args, true) == Ok::<Seq<char>, ClassListError>(v),
    ensures
        forall|i: int| 0 <= i < args.len() ==> token_seq(v).contains(#[trigger] args[i]),
        forall|i: int| 0 <= i < token_seq(current).len() ==> token_seq(v).contains(
            #[trigger] token_seq(current)[i],
        ),
{
    let before = token_seq(current);
    let after = add_all(before, args);
    law_tokens_well_formed(current);
    assert forall|i: int| 0 <= i < args.len() implies token_chars_ok(#[trigger] args[i]) by {
        assert(token_ok(args[i]));
    }
    lemma_add_all_ok(before, args);
    law_tokens_roundtrip(after);
    lemma_add_all_props(before, args);
}

/// `classList.remove`: no argument is present afterwards, and nothing new
/// appears.
pub proof fn law_remove_makes_absent(current: Seq<char>, args: Seq<Seq<char>>, v: Seq<char>)
    requires
        mutate_result(current, args, false) == Ok::<Seq<char>, ClassListError>(v),
    ensures
        forall|i: int| 0 <= i < args.len() ==> !token_seq(v).contains(#[trigger] args[i]),
        forall|x: Seq<char>| #[trigger] token_seq(v).contains(x) ==> token_seq(current).contains(x),
{
    let before = token_seq(current);
    let after = remove_all(before, args);
    law_tokens_well_formed(current);
    lemma_remove_all_props(before, args);
    assert forall|i: int| 0 <= i < after.len() implies token_chars_ok(#[trigger] after[i]) by {
        assert(after.contains(after[i]));
        let k = choose|k: int| 0 <= k < before.len() && before[k] == after[i];
        assert(token_chars_ok(before[k]));
    }
    law_tokens_roundtrip(after);
}

/// Adding tokens that a previous `add` of the same arguments produced
/// changes nothing: `add` is idempotent.
pub proof fn law_add_idempotent(current: Seq<char>, args: Seq<Seq<char>>, v: Seq<char>)
    requires
        mutate_result(current, args, true) == Ok::<Seq<char>, ClassListError>(v),
    ensures
        mutate_result(v, args, true) == Ok::<Seq<char>, ClassListError>(v),
{
    let before = token_seq(current);
    let after = add_all(before, args);
    law_tokens_well_formed(current);
    assert forall|i: int| 0 <= i < args.len() implies token_chars_ok(#[trigger] args[i]) by {
        assert(token_ok(args[i]));
    }
    lemma_add_all_ok(before, args);
    law_tokens_roundtrip(after);
    lemma_add_all_props(before, args);
    lemma_add_all_fixed(after, args);
}

/// `classList.toggle` reports exactly whether the token is present in the
/// attribute it writes.
pub proof fn law_toggle_reports_presence(
    current: Seq<char>,
    t: Seq<char>,
    force: Option<bool>,
    v: Seq<char>,
    b: bool,
)
    requires
        toggle_result(current, t, force) == Ok::<(Seq<char>, bool), ClassListError>((v, b)),
    ensures
        token_seq(v).contains(t) == b,
{
    let ts = token_seq(current);
    law_tokens_well_formed(current);
    let present = ts.contains(t);
    if b && !present {
        let next = ts.push(t);
        assert forall|i: int| 0 <= i < next.len() implies token_chars_ok(#[trigger] next[i]) by {
            if i < ts.len() {
                assert(next[i] == ts[i]);
            }
        }
        law_tokens_roundtrip(next);
        assert(next[ts.len() as int] == t);
    } else if !b && present {
        let next = remove_token(ts, t);
        lemma_remove_token_props(ts, t);
        assert forall|i: int| 0 <= i < next.len() implies token_chars_ok(#[trigger] next[i]) by {
            assert(next.contains(next[i]));
            let k = choose|k: int| 0 <= k < ts.len() && ts[k] == next[i];
            assert(token_chars_ok(ts[k]));
        }
        law_tokens_roundtrip(next);
    } else {
        law_tokens_roundtrip(ts);
    }
}

} // verus!
