//! Form controls: constraint validation (`validity`, `checkValidity`,
//! `willValidate`), `<select>`'s `selectedIndex`/`value` over its options,
//! and the text-selection range setters of `<input>`/`<textarea>`.

use vstd::prelude::*;

use crate::text::{chars_of, parse_i64, parse_i64_spec, same_text, trim_chars, trim_spec};

verus! {

/// The per-spec validity flags of a control.
#[derive(Debug, Clone, Copy, PartialEq, Eq, Structural)]
pub struct ValidityFlags {
    pub value_missing: bool,
    pub type_mismatch: bool,
    pub pattern_mismatch: bool,
    pub range_underflow: bool,
    pub range_overflow: bool,
    pub step_mismatch: bool,
    pub too_long: bool,
    pub too_short: bool,
    pub custom_error: bool,
}

/// A `minlength`/`maxlength` attribute's value: the trimmed text parsed as
/// an `i64`, kept only when non-negative.
pub open spec fn length_limit_spec(raw: Option<Seq<char>>) -> Option<int> {
    match raw {
        None => None,
        Some(r) => match parse_i64_spec(trim_spec(r)) {
            Some(n) => if n >= 0 {
                Some(n)
            } else {
                None
            },
            None => None,
        },
    }
}

/// The flags of a control whose current value is `value`: `valueMissing`
/// for a `required` control with an empty value, `tooLong`/`tooShort` for a
/// non-empty value whose character count lies beyond `maxlength`/
/// `minlength`, `customError` when a custom message is set. The type,
/// pattern, range and step checks are not performed and read `false`.
pub open spec fn validity_spec(
    value: Seq<char>,
    required: bool,
    maxlength: Option<Seq<char>>,
    minlength: Option<Seq<char>>,
    custom_error: bool,
) -> ValidityFlags {
    ValidityFlags {
        value_missing: required && value.len() == 0,
        type_mismatch: false,
        pattern_mismatch: false,
        range_underflow: false,
        range_overflow: false,
        step_mismatch: false,
        too_long: match length_limit_spec(maxlength) {
            Some(max) => value.len() > 0 && value.len() > max,
            None => false,
        },
        too_short: match length_limit_spec(minlength) {
            Some(min) => value.len() > 0 && value.len() < min,
            None => false,
        },
        custom_error,
    }
}

/// Whether every failure flag is clear (`validity.valid`).
pub open spec fn flags_valid(f: ValidityFlags) -> bool {
    !f.value_missing && !f.type_mismatch && !f.pattern_mismatch && !f.range_underflow
        && !f.range_overflow && !f.step_mismatch && !f.too_long && !f.too_short && !f.custom_error
}

/// The view of an optional string slice.
pub open spec fn opt_str_view(s: Option<&str>) -> Option<Seq<char>> {
    match s {
        Some(t) => Some(t@),
        None => None,
    }
}

/// Reads a `minlength`/`maxlength` attribute (see `length_limit_spec`).
pub fn length_limit(raw: Option<&str>) -> (r: Option<i64>)
    ensures
        match r {
            Some(n) => length_limit_spec(opt_str_view(raw)) == Some(n as int),
            None => length_limit_spec(opt_str_view(raw)) == None::<int>,
        },
{
    match raw {
        None => None,
        Some(text) => {
            let trimmed = trim_chars(text);
            match parse_i64(trimmed.as_slice()) {
                Some(n) => if n >= 0 {
                    Some(n)
                } else {
                    None
                },
                None => None,
            }
        },
    }
}

/// The validity flags of a control (see `validity_spec`).
pub fn validity_flags(
    value: &str,
    required: bool,
    maxlength: Option<&str>,
    minlength: Option<&str>,
    custom_error: bool,
) -> (r: ValidityFlags)
    ensures
        r == validity_spec(value@, required, opt_str_view(maxlength), opt_str_view(minlength), custom_error),
{
    let chars = chars_of(value);
    let count = chars.len();
    let too_long = match length_limit(maxlength) {
        Some(max) => count > 0 && (count as u64) > (max as u64),
        None => false,
    };
    let too_short = match length_limit(minlength) {
        Some(min) => count > 0 && (count as u64) < (min as u64),
        None => false,
    };
    ValidityFlags {
        value_missing: required && count == 0,
        type_mismatch: false,
        pattern_mismatch: false,
        range_underflow: false,
        range_overflow: false,
        step_mismatch: false,
        too_long,
        too_short,
        custom_error,
    }
}

/// `validity.valid`: whether every failure flag is clear.
pub fn flags_are_valid(f: &ValidityFlags) -> (r: bool)
    ensures
        r == flags_valid(*f),
{
    !f.value_missing && !f.type_mismatch && !f.pattern_mismatch && !f.range_underflow
        && !f.range_overflow && !f.step_mismatch && !f.too_long && !f.too_short && !f.custom_error
}

/// `willValidate`: an `<input>`, `<select>` or `<textarea>` that is not
/// disabled.
pub fn will_validate(tag: &str, disabled: bool) -> (r: bool)
    ensures
        r == ((tag@ == "input"@ || tag@ == "select"@ || tag@ == "textarea"@) && !disabled),
{
    let eligible = same_text(tag, "input") || same_text(tag, "select") || same_text(
        tag,
        "textarea",
    );
    eligible && !disabled
}

/// An empty value is never too long or too short, and a control with a
/// custom message set is never valid.
pub proof fn law_empty_value_has_no_length_error(
    required: bool,
    maxlength: Option<Seq<char>>,
    minlength: Option<Seq<char>>,
    custom_error: bool,
)
    ensures
        !validity_spec(seq![], required, maxlength, minlength, custom_error).too_long,
        !validity_spec(seq![], required, maxlength, minlength, custom_error).too_short,
        validity_spec(seq![], required, maxlength, minlength, custom_error).value_missing
            == required,
        custom_error ==> !flags_valid(
            validity_spec(seq![], required, maxlength, minlength, custom_error),
        ),
{
}

/// The index of the first selected option, if any (`selectedIndex`; the
/// engine reads `-1` for `None`).
pub open spec fn selected_index_spec(selected: Seq<bool>) -> Option<int>
    decreases selected.len(),
{
    if selected.len() == 0 {
        None
    } else {
        match selected_index_spec(selected.drop_last()) {
            Some(i) => Some(i),
            None => if selected.last() {
                Some(selected.len() - 1)
            } else {
                None
            },
        }
    }
}

/// `select.selectedIndex` over the options' selectedness, in document
/// order.
pub fn selected_index(selected: &Vec<bool>) -> (r: Option<usize>)
    ensures
        match r {
            Some(i) => selected_index_spec(selected@) == Some(i as int),
            None => selected_index_spec(selected@) == None::<int>,
        },
{
    let n = selected.len();
    let mut i: usize = 0;
    proof {
        assert(selected@.take(0) =~= Seq::<bool>::empty());
    }
    while i < n
        invariant
            n == selected@.len(),
            i <= n,
            selected_index_spec(selected@.take(i as int)) == None::<int>,
        decreases n - i,
    {
        proof {
            assert(selected@.take(i + 1).drop_last() =~= selected@.take(i as int));
        }
        if selected[i] {
            proof {
                lemma_selected_prefix(selected@, i as int);
            }
            return Some(i);
        }
        i = i + 1;
    }
    proof {
        assert(selected@.take(n as int) =~= selected@);
    }
    None
}

proof fn lemma_selected_bounds(s: Seq<bool>)
    ensures
        selected_index_spec(s) matches Some(i) ==> 0 <= i < s.len() && s[i],
    decreases s.len(),
{
    if s.len() > 0 {
        lemma_selected_bounds(s.drop_last());
    }
}

proof fn lemma_selected_prefix(s: Seq<bool>, i: int)
    requires
        0 <= i < s.len(),
        selected_index_spec(s.take(i)) == None::<int>,
        s[i],
    ensures
        selected_index_spec(s) == Some(i),
    decreases s.len(),
{
    assert(s.take(i + 1).drop_last() =~= s.take(i));
    if i + 1 < s.len() {
        assert(s.drop_last().take(i) =~= s.take(i));
        lemma_selected_prefix(s.drop_last(), i);
    } else {
        assert(s.drop_last() =~= s.take(i));
    }
}

/// The selectedness after `select.selectedIndex = index` over `n`
/// options: every option is deselected, then the one at `index` selected
/// when it exists.
pub open spec fn select_index_spec(n: nat, index: int) -> Seq<bool> {
    Seq::new(n, |k: int| k == index)
}

/// `select.selectedIndex = index` (a non-integer value sets `-1`).
pub fn set_selected_index(n: usize, index: i32) -> (r: Vec<bool>)
    ensures
        r@ == select_index_spec(n as nat, index as int),
{
    let mut out: Vec<bool> = Vec::new();
    let mut k: usize = 0;
    while k < n
        invariant
            k <= n,
            out@ == select_index_spec(n as nat, index as int).take(k as int),
        decreases n - k,
    {
        out.push(index >= 0 && k == index as usize);
        proof {
            assert(out@ =~= select_index_spec(n as nat, index as int).take(k + 1));
        }
        k = k + 1;
    }
    proof {
        assert(select_index_spec(n as nat, index as int).take(n as int) =~= select_index_spec(
            n as nat,
            index as int,
        ));
    }
    out
}

/// `select.value`: the value of the first selected option, or the empty
/// string when none is selected.
pub fn select_value(values: &Vec<String>, selected: &Vec<bool>) -> (r: String)
    requires
        values@.len() == selected@.len(),
    ensures
        r@ == match selected_index_spec(selected@) {
            Some(i) => values@[i]@,
            None => Seq::<char>::empty(),
        },
{
    let idx = selected_index(selected);
    proof {
        lemma_selected_bounds(selected@);
    }
    match idx {
        Some(i) => values[i].clone(),
        None => String::new(),
    }
}

/// The index of the first option whose value is `wanted`.
pub open spec fn index_of_value(values: Seq<Seq<char>>, wanted: Seq<char>) -> Option<int>
    decreases values.len(),
{
    if values.len() == 0 {
        None
    } else {
        match index_of_value(values.drop_last(), wanted) {
            Some(i) => Some(i),
            None => if values.last() == wanted {
                Some(values.len() - 1)
            } else {
                None
            },
        }
    }
}

/// The character views of a list of strings.
pub open spec fn string_views(v: Seq<String>) -> Seq<Seq<char>> {
    v.map_values(|s: String| s@)
}

/// `select.value = wanted`: every option is deselected, then the first one
/// whose value is `wanted` (if any) is selected.
pub fn set_select_value(values: &Vec<String>, wanted: &str) -> (r: Vec<bool>)
    ensures
        r@ == match index_of_value(string_views(values@), wanted@) {
            Some(i) => select_index_spec(values@.len(), i),
            None => select_index_spec(values@.len(), -1),
        },
{
    let n = values.len();
    let mut i: usize = 0;
    let ghost vs = string_views(values@);
    proof {
        assert(vs.take(0) =~= Seq::<Seq<char>>::empty());
    }
    while i < n
        invariant
            n == values@.len(),
            vs == string_views(values@),
            i <= n,
            index_of_value(vs.take(i as int), wanted@) == None::<int>,
        decreases n - i,
    {
        proof {
            assert(vs.take(i + 1).drop_last() =~= vs.take(i as int));
            assert(vs[i as int] == values@[i as int]@);
        }
        if same_text(values[i].as_str(), wanted) {
            proof {
                lemma_value_prefix(vs, wanted@, i as int);
            }
            return set_selected_index_at(n, i);
        }
        i = i + 1;
    }
    proof {
        assert(vs.take(n as int) =~= vs);
    }
    set_selected_index(n, -1)
}

fn set_selected_index_at(n: usize, index: usize) -> (r: Vec<bool>)
    ensures
        r@ == select_index_spec(n as nat, index as int),
{
    let mut out: Vec<bool> = Vec::new();
    let mut k: usize = 0;
    while k < n
        invariant
            k <= n,
            out@ == select_index_spec(n as nat, index as int).take(k as int),
        decreases n - k,
    {
        out.push(k == index);
        proof {
            assert(out@ =~= select_index_spec(n as nat, index as int).take(k + 1));
        }
        k = k + 1;
    }
    proof {
        assert(select_index_spec(n as nat, index as int).take(n as int) =~= select_index_spec(
            n as nat,
            index as int,
        ));
    }
    out
}

proof fn lemma_value_prefix(s: Seq<Seq<char>>, w: Seq<char>, i: int)
    requires
        0 <= i < s.len(),
        index_of_value(s.take(i), w) == None::<int>,
        s[i] == w,
    ensures
        index_of_value(s, w) == Some(i),
    decreases s.len(),
{
    assert(s.take(i + 1).drop_last() =~= s.take(i));
    if i + 1 < s.len() {
        assert(s.drop_last().take(i) =~= s.take(i));
        lemma_value_prefix(s.drop_last(), w, i);
    } else {
        assert(s.drop_last() =~= s.take(i));
    }
}

proof fn lemma_single_selected(n: nat, index: int)
    ensures
        0 <= index < n ==> selected_index_spec(select_index_spec(n, index)) == Some(index),
        !(0 <= index < n) ==> selected_index_spec(select_index_spec(n, index)) == None::<int>,
    decreases n,
{
    if n > 0 {
        let s = select_index_spec(n, index);
        assert(s.drop_last() =~= select_index_spec((n - 1) as nat, index));
        lemma_single_selected((n - 1) as nat, index);
    }
}

/// Setting `selectedIndex` to an index inside the option list makes it
/// the selected index; any other index leaves nothing selected.
pub proof fn law_selected_index_round_trip(n: nat, index: int)
    ensures
        0 <= index < n ==> selected_index_spec(select_index_spec(n, index)) == Some(index),
        !(0 <= index < n) ==> selected_index_spec(select_index_spec(n, index)) == None::<int>,
{
    lemma_single_selected(n, index);
}

/// Setting `value` to an option's value selects the first option with that
/// value, so `value` then reads back what was set.
pub proof fn law_select_value_round_trip(values: Seq<Seq<char>>, wanted: Seq<char>)
    requires
        index_of_value(values, wanted) is Some,
    ensures
        selected_index_spec(select_index_spec(values.len(), index_of_value(values, wanted)->0))
            == index_of_value(values, wanted),
        values[index_of_value(values, wanted)->0] == wanted,
{
    lemma_index_of_value_bounds(values, wanted);
    lemma_single_selected(values.len(), index_of_value(values, wanted)->0);
}

proof fn lemma_index_of_value_bounds(values: Seq<Seq<char>>, wanted: Seq<char>)
    ensures
        index_of_value(values, wanted) matches Some(i) ==> 0 <= i < values.len() && values[i]
            == wanted,
    decreases values.len(),
{
    if values.len() > 0 {
        lemma_index_of_value_bounds(values.drop_last(), wanted);
    }
}

/// A text control's selection: start, end and direction.
pub struct SelectionRange {
    pub start: usize,
    pub end: usize,
    pub direction: String,
}

/// The range `selectionStart = start` asks for: a start past the current
/// end pushes the end along rather than collapsing the range.
pub fn selection_after_start_set(current_end: usize, start: usize) -> (r: (usize, usize))
    ensures
        r.0 == start,
        r.1 == if current_end >= start { current_end } else { start },
{
    (start, if current_end >= start { current_end } else { start })
}

/// The range `selectionEnd = end` asks for: an end before the current
/// start pulls the start back rather than collapsing the range.
pub fn selection_after_end_set(current_start: usize, end: usize) -> (r: (usize, usize))
    ensures
        r.0 == if current_start <= end { current_start } else { end },
        r.1 == end,
{
    (if current_start <= end { current_start } else { end }, end)
}

/// The arguments `setSelectionRange(start, end, direction)` hands on: a
/// missing start is 0, a missing end is the start, a missing direction is
/// `none`.
pub fn selection_range_args(start: Option<usize>, end: Option<usize>, direction: Option<String>) -> (r:
    SelectionRange)
    ensures
        r.start == match start {
            Some(s) => s,
            None => 0,
        },
        r.end == match end {
            Some(e) => e,
            None => r.start,
        },
        r.direction@ == match direction {
            Some(d) => d@,
            None => "none"@,
        },
{
    let s = match start {
        Some(s) => s,
        None => 0,
    };
    let e = match end {
        Some(e) => e,
        None => s,
    };
    let d = match direction {
        Some(d) => d,
        None => "none".to_owned(),
    };
    SelectionRange { start: s, end: e, direction: d }
}

} // verus!
