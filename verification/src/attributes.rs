//! The `attributes` view of an element: its attribute names in sorted
//! order (what `getAttributeNames()` and the indexed `NamedNodeMap`
//! entries list), and which stale indices a refreshed map must clear.
//!
//! Names are ordered by code point, one character after the other, a
//! prefix first: the order in which `str` values compare.

use vstd::prelude::*;
use vstd::relations::{sorted_by, total_ordering};

use crate::class_list::views;
use crate::text::chars_of;
use crate::tree::NodeTree;

verus! {

broadcast use vstd::seq_lib::group_to_multiset_ensures, vstd::multiset::group_multiset_axioms;

/// `a` comes before `b`, or equals it, in code-point order.
pub open spec fn lex_le(a: Seq<char>, b: Seq<char>) -> bool
    decreases a.len(),
{
    if a.len() == 0 {
        true
    } else if b.len() == 0 {
        false
    } else if a[0] != b[0] {
        a[0] < b[0]
    } else {
        lex_le(a.drop_first(), b.drop_first())
    }
}

proof fn lemma_lex_refl(a: Seq<char>)
    ensures
        lex_le(a, a),
    decreases a.len(),
{
    if a.len() > 0 {
        lemma_lex_refl(a.drop_first());
    }
}

proof fn lemma_lex_antisym(a: Seq<char>, b: Seq<char>)
    requires
        lex_le(a, b),
        lex_le(b, a),
    ensures
        a == b,
    decreases a.len(),
{
    if a.len() == 0 {
        assert(b.len() == 0);
        assert(a =~= b);
    } else {
        assert(b.len() > 0);
        assert(a[0] == b[0]);
        lemma_lex_antisym(a.drop_first(), b.drop_first());
        assert(a =~= seq![a[0]] + a.drop_first());
        assert(b =~= seq![b[0]] + b.drop_first());
    }
}

proof fn lemma_lex_trans(a: Seq<char>, b: Seq<char>, c: Seq<char>)
    requires
        lex_le(a, b),
        lex_le(b, c),
    ensures
        lex_le(a, c),
    decreases a.len(),
{
    if a.len() > 0 && b.len() > 0 && c.len() > 0 && a[0] == b[0] && b[0] == c[0] {
        lemma_lex_trans(a.drop_first(), b.drop_first(), c.drop_first());
    }
}

proof fn lemma_lex_total(a: Seq<char>, b: Seq<char>)
    ensures
        lex_le(a, b) || lex_le(b, a),
    decreases a.len(),
{
    if a.len() > 0 && b.len() > 0 && a[0] == b[0] {
        lemma_lex_total(a.drop_first(), b.drop_first());
    }
}

/// The code-point order on character sequences.
pub open spec fn code_point_order() -> spec_fn(Seq<char>, Seq<char>) -> bool {
    |a: Seq<char>, b: Seq<char>| lex_le(a, b)
}

/// The code-point order is a total order.
pub proof fn law_code_point_order_is_total()
    ensures
        total_ordering(code_point_order()),
{
    let r = code_point_order();
    assert forall|x: Seq<char>| #[trigger] r(x, x) by {
        lemma_lex_refl(x);
    }
    assert forall|x: Seq<char>, y: Seq<char>| #[trigger] r(x, y) && #[trigger] r(y, x) implies x
        == y by {
        lemma_lex_antisym(x, y);
    }
    assert forall|x: Seq<char>, y: Seq<char>, z: Seq<char>| #[trigger] r(x, y) && #[trigger] r(
        y,
        z,
    ) implies r(x, z) by {
        lemma_lex_trans(x, y, z);
    }
    assert forall|x: Seq<char>, y: Seq<char>| #[trigger] r(x, y) || #[trigger] r(y, x) by {
        lemma_lex_total(x, y);
    }
}

/// Compares two character sequences in code-point order.
pub fn lex_le_exec(a: &[char], b: &[char]) -> (r: bool)
    ensures
        r == lex_le(a@, b@),
{
    let mut i: usize = 0;
    proof {
        assert(a@.skip(0) =~= a@);
        assert(b@.skip(0) =~= b@);
    }
    while i < a.len() && i < b.len()
        invariant
            i <= a@.len(),
            i <= b@.len(),
            lex_le(a@, b@) == lex_le(a@.skip(i as int), b@.skip(i as int)),
        decreases a@.len() - i,
    {
        if a[i] != b[i] {
            proof {
                assert(a@.skip(i as int)[0] == a@[i as int]);
                assert(b@.skip(i as int)[0] == b@[i as int]);
            }
            return a[i] < b[i];
        }
        proof {
            assert(a@.skip(i as int).drop_first() =~= a@.skip(i + 1));
            assert(b@.skip(i as int).drop_first() =~= b@.skip(i + 1));
        }
        i = i + 1;
    }
    proof {
        if i == a@.len() {
            assert(a@.skip(i as int).len() == 0);
        } else {
            assert(b@.skip(i as int).len() == 0);
        }
    }
    i == a.len()
}


fn lex_le_strings(a: &String, b: &String) -> (r: bool)
    ensures
        r == lex_le(a@, b@),
{
    let x = chars_of(a.as_str());
    let y = chars_of(b.as_str());
    lex_le_exec(x.as_slice(), y.as_slice())
}

proof fn lemma_views_remove(s: Seq<String>, i: int)
    requires
        0 <= i < s.len(),
    ensures
        views(s.remove(i)) == views(s).remove(i),
{
    assert(views(s.remove(i)) =~= views(s).remove(i));
}

/// `names` in code-point order.
pub fn sorted_names(names: Vec<String>) -> (r: Vec<String>)
    ensures
        views(r@) == views(names@).sort_by(code_point_order()),
{
    let ghost all = views(names@);
    let ghost ord = code_point_order();
    proof {
        law_code_point_order_is_total();
    }
    let mut rem = names;
    let mut out: Vec<String> = Vec::new();
    proof {
        assert(views(out@) =~= Seq::<Seq<char>>::empty());
        assert(views(out@).to_multiset().add(views(rem@).to_multiset()) =~= all.to_multiset());
    }
    while rem.len() > 0
        invariant
            ord == code_point_order(),
            total_ordering(ord),
            sorted_by(views(out@), ord),
            forall|i: int, j: int|
                0 <= i < out@.len() && 0 <= j < rem@.len() ==> lex_le(
                    #[trigger] views(out@)[i],
                    #[trigger] views(rem@)[j],
                ),
            views(out@).to_multiset().add(views(rem@).to_multiset()) == all.to_multiset(),
        decreases rem@.len(),
    {
        let n = rem.len();
        let mut m: usize = 0;
        let mut q: usize = 1;
        proof {
            lemma_lex_refl(views(rem@)[0]);
        }
        while q < n
            invariant
                n == rem@.len(),
                n > 0,
                m < n,
                1 <= q <= n,
                forall|j: int| 0 <= j < q ==> lex_le(views(rem@)[m as int], #[trigger] views(rem@)[j]),
            decreases n - q,
        {
            if !lex_le_strings(&rem[m], &rem[q]) {
                proof {
                    lemma_lex_total(views(rem@)[m as int], views(rem@)[q as int]);
                    assert forall|j: int| 0 <= j < q + 1 implies lex_le(
                        views(rem@)[q as int],
                        #[trigger] views(rem@)[j],
                    ) by {
                        if j < q {
                            lemma_lex_trans(views(rem@)[q as int], views(rem@)[m as int], views(rem@)[j]);
                        } else {
                            lemma_lex_refl(views(rem@)[q as int]);
                        }
                    }
                }
                m = q;
            }
            q = q + 1;
        }
        let ghost old_out = views(out@);
        let ghost old_rem = views(rem@);
        let ghost old_rem_s = rem@;
        let x = rem.remove(m);
        proof {
            lemma_views_remove(old_rem_s, m as int);
        }
        out.push(x);
        proof {
            assert(views(out@) =~= old_out.push(x@));
            assert(old_rem[m as int] == x@);
            assert(views(rem@) =~= old_rem.remove(m as int));
            assert forall|i: int, j: int| 0 <= i < j < views(out@).len() implies #[trigger] ord(
                views(out@)[i],
                views(out@)[j],
            ) by {
                if j < old_out.len() {
                    assert(ord(old_out[i], old_out[j]));
                } else {
                    assert(lex_le(old_out[i], old_rem[m as int]));
                }
            }
            assert forall|i: int, j: int|
                0 <= i < out@.len() && 0 <= j < rem@.len() implies lex_le(
                #[trigger] views(out@)[i],
                #[trigger] views(rem@)[j],
            ) by {
                let jj = if j < m { j } else { j + 1 };
                assert(views(rem@)[j] == old_rem[jj]);
                if i < old_out.len() {
                    assert(lex_le(old_out[i], old_rem[jj]));
                } else {
                    assert(lex_le(old_rem[m as int], old_rem[jj]));
                }
            }
            assert(old_rem.to_multiset().count(x@) > 0);
            assert(views(out@).to_multiset().add(views(rem@).to_multiset()) =~= old_out.to_multiset().add(
                old_rem.to_multiset(),
            ));
        }
    }
    proof {
        assert(views(rem@) =~= Seq::<Seq<char>>::empty());
        assert(views(out@).to_multiset() =~= all.to_multiset());
        all.lemma_sort_by_ensures(ord);
        vstd::seq_lib::lemma_sorted_unique(views(out@), all.sort_by(ord), ord);
    }
    out
}


/// The names of a list of attributes, in list order.
pub open spec fn name_views(attrs: Seq<(String, String)>) -> Seq<Seq<char>> {
    attrs.map_values(|a: (String, String)| a.0@)
}

/// The attribute names of element `id` in code-point order; none for a
/// node that is not an element.
pub open spec fn attribute_names_spec(t: NodeTree, id: usize) -> Seq<Seq<char>> {
    if id < t.nodes@.len() {
        match t.nodes@[id as int].element {
            Some(e) => name_views(e.attributes@).sort_by(code_point_order()),
            None => seq![],
        }
    } else {
        seq![]
    }
}

/// `getAttributeNames()`, and the order of the `attributes` map's entries.
pub fn attribute_names(t: &NodeTree, id: usize) -> (r: Vec<String>)
    ensures
        views(r@) == attribute_names_spec(*t, id),
{
    if id >= t.nodes.len() {
        return Vec::new();
    }
    match &t.nodes[id].element {
        None => Vec::new(),
        Some(e) => {
            let attrs = &e.attributes;
            let mut names: Vec<String> = Vec::new();
            let mut i: usize = 0;
            while i < attrs.len()
                invariant
                    i <= attrs@.len(),
                    views(names@) == name_views(attrs@.take(i as int)),
                decreases attrs@.len() - i,
            {
                let ghost prev = names@;
                let name = attrs[i].0.clone();
                names.push(name);
                proof {
                    assert(names@ =~= prev.push(attrs@[i as int].0));
                    assert(views(names@) =~= views(prev).push(attrs@[i as int].0@));
                    assert(name_views(attrs@.take(i + 1)) =~= name_views(attrs@.take(i as int)).push(
                        attrs@[i as int].0@,
                    ));
                }
                i = i + 1;
            }
            proof {
                assert(attrs@.take(i as int) =~= attrs@);
            }
            sorted_names(names)
        },
    }
}

/// The indices a refreshed `attributes` map must clear: those from the new
/// count up to the count of the previous refresh.
pub fn stale_indices(new_len: usize, old_len: usize) -> (r: Vec<usize>)
    ensures
        r@.len() == if old_len > new_len { old_len - new_len } else { 0 },
        forall|k: int| 0 <= k < r@.len() ==> r@[k] == new_len + k,
{
    let mut out: Vec<usize> = Vec::new();
    let mut i = new_len;
    while i < old_len
        invariant
            new_len <= i,
            i <= old_len || i == new_len,
            out@.len() == i - new_len,
            forall|k: int| 0 <= k < out@.len() ==> out@[k] == new_len + k,
        decreases old_len - i,
    {
        out.push(i);
        i = i + 1;
    }
    out
}


/// `getAttributeNames()` lists every attribute name of the element once
/// per attribute, in ascending code-point order.
pub proof fn law_attribute_names_sorted(t: NodeTree, id: usize)
    requires
        id < t.nodes@.len(),
        t.nodes@[id as int].element is Some,
    ensures
        sorted_by(attribute_names_spec(t, id), code_point_order()),
        attribute_names_spec(t, id).to_multiset() == name_views(
            t.nodes@[id as int].element->0.attributes@,
        ).to_multiset(),
{
    law_code_point_order_is_total();
    name_views(t.nodes@[id as int].element->0.attributes@).lemma_sort_by_ensures(code_point_order());
}

} // verus!
